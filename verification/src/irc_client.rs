//! The session: what the client does with each thing that happens on its
//! connection.
//!
//! The client itself opens no socket and waits for nothing. Whoever drives
//! it tells it what has happened, as an `Event` or as the bytes that were
//! received, and gets back the list of what to do next, as `Action`s.

use vstd::prelude::*;
use vstd::slice::{slice_subrange, slice_to_vec};
use vstd::string::StringExecFns;
use crate::ascii::{
    find_byte, lemma_find_byte, position, CARRIAGE_RETURN, COLON, FORM_FEED, LINE_FEED, SPACE, TAB,
};
use crate::decimal::{decimal_text, render, text_of};
use crate::line_parse::{parse, parse_line, Command, ParsedLine};
use crate::rotdb::{dump, load, Counters, RotDb, Store};
use crate::text::{from_chars, lossy_text, same_text, to_chars, wire_text};

verus! {

/// ASCII white space: space, tab, line feed, form feed, carriage return.
pub open spec fn is_blank(b: u8) -> bool {
    b == SPACE || b == TAB || b == LINE_FEED || b == FORM_FEED || b == CARRIAGE_RETURN
}

/// The first position from `i` on that holds white space; the length of
/// `line` where none does.
pub open spec fn token_end(line: Seq<u8>, i: int) -> int
    decreases line.len() - i,
{
    if 0 <= i < line.len() && !is_blank(line[i]) {
        token_end(line, i + 1)
    } else {
        i
    }
}

/// The first position from `i` on that holds no white space.
pub open spec fn skip_blank(line: Seq<u8>, i: int) -> int
    decreases line.len() - i,
{
    if 0 <= i < line.len() && is_blank(line[i]) {
        skip_blank(line, i + 1)
    } else {
        i
    }
}

/// `token_end` and `skip_blank` stay within the line.
pub proof fn lemma_token_bounds(line: Seq<u8>, i: int)
    requires
        0 <= i <= line.len(),
    ensures
        i <= token_end(line, i) <= line.len(),
        token_end(line, i) < line.len() ==> is_blank(line[token_end(line, i)]),
        i <= skip_blank(line, i) <= line.len(),
        i < line.len() && is_blank(line[i]) ==> i < skip_blank(line, i),
    decreases line.len() - i,
{
    if i < line.len() {
        lemma_token_bounds(line, i + 1);
    }
}

/// The tokens of `line` from `i` on. A token ends at white space, and white
/// space between tokens belongs to none. A token that follows white space
/// and starts with a colon is the last one: it takes in the rest of the line
/// as it is.
pub open spec fn tokens_from(line: Seq<u8>, i: int) -> Seq<Seq<u8>>
    decreases line.len() - i,
{
    if i < 0 || i >= line.len() {
        Seq::empty()
    } else {
        let end = token_end(line, i);
        let next = skip_blank(line, end);
        if end >= line.len() {
            seq![line.subrange(i, line.len() as int)]
        } else if next < line.len() && line[next] == COLON {
            seq![line.subrange(i, end), line.subrange(next, line.len() as int)]
        } else {
            proof {
                lemma_token_bounds(line, i);
                lemma_token_bounds(line, end);
            }
            seq![line.subrange(i, end)] + tokens_from(line, next)
        }
    }
}

/// The tokens of a line. Where the line starts with white space, the first
/// token is empty.
pub open spec fn split_tokens(line: Seq<u8>) -> Seq<Seq<u8>> {
    tokens_from(line, 0)
}

/// The texts of a list of strings.
pub open spec fn texts(parts: Seq<String>) -> Seq<Seq<char>> {
    parts.map_values(|part: String| part@)
}

fn blank(b: u8) -> (r: bool)
    ensures
        r == is_blank(b),
{
    b == SPACE || b == TAB || b == LINE_FEED || b == FORM_FEED || b == CARRIAGE_RETURN
}

/// Splits a line into its tokens, each as text: a token that is not
/// well-formed UTF-8 is decoded lossily.
pub fn irc_split(line: &[u8]) -> (parts: Vec<String>)
    ensures
        texts(parts@) == split_tokens(line@).map_values(|token: Seq<u8>| wire_text(token)),
{
    let ghost lossy = |token: Seq<u8>| wire_text(token);
    let mut parts: Vec<String> = Vec::new();
    let mut start: usize = 0;
    assert(texts(parts@) =~= Seq::<Seq<u8>>::empty().map_values(lossy));
    assert(texts(parts@) + tokens_from(line@, 0).map_values(lossy) =~= split_tokens(
        line@,
    ).map_values(lossy));
    while start < line.len()
        invariant
            start <= line.len(),
            lossy == |token: Seq<u8>| wire_text(token),
            split_tokens(line@).map_values(lossy) == texts(parts@) + tokens_from(
                line@,
                start as int,
            ).map_values(lossy),
        decreases line.len() - start,
    {
        let mut end = start;
        while end < line.len() && !blank(line[end])
            invariant
                start <= end <= line.len(),
                token_end(line@, start as int) == token_end(line@, end as int),
            decreases line.len() - end,
        {
            end += 1;
        }
        let mut next = end;
        while next < line.len() && blank(line[next])
            invariant
                end <= next <= line.len(),
                skip_blank(line@, end as int) == skip_blank(line@, next as int),
            decreases line.len() - next,
        {
            next += 1;
        }
        let ghost done = texts(parts@);
        let ghost rest = tokens_from(line@, start as int);
        if end >= line.len() {
            parts.push(lossy_text(slice_subrange(line, start, line.len())));
            proof {
                let token = line@.subrange(start as int, line.len() as int);
                assert(rest =~= seq![token]);
                assert(rest.map_values(lossy) =~= seq![wire_text(token)]);
                assert(texts(parts@) =~= done + rest.map_values(lossy));
                assert(tokens_from(line@, line.len() as int) =~= Seq::<Seq<u8>>::empty());
                assert(texts(parts@) + tokens_from(line@, line.len() as int).map_values(lossy)
                    =~= texts(parts@));
            }
            start = line.len();
        } else if next < line.len() && line[next] == COLON {
            parts.push(lossy_text(slice_subrange(line, start, end)));
            parts.push(lossy_text(slice_subrange(line, next, line.len())));
            proof {
                let first = line@.subrange(start as int, end as int);
                let last = line@.subrange(next as int, line.len() as int);
                assert(rest =~= seq![first, last]);
                assert(rest.map_values(lossy) =~= seq![wire_text(first), wire_text(last)]);
                assert(texts(parts@) =~= done + rest.map_values(lossy));
                assert(tokens_from(line@, line.len() as int) =~= Seq::<Seq<u8>>::empty());
                assert(texts(parts@) + tokens_from(line@, line.len() as int).map_values(lossy)
                    =~= texts(parts@));
            }
            start = line.len();
        } else {
            parts.push(lossy_text(slice_subrange(line, start, end)));
            proof {
                lemma_token_bounds(line@, end as int);
                let token = line@.subrange(start as int, end as int);
                assert(rest =~= seq![token] + tokens_from(line@, next as int));
                assert(rest.map_values(lossy) =~= seq![wire_text(token)] + tokens_from(
                    line@,
                    next as int,
                ).map_values(lossy));
                assert(texts(parts@) + tokens_from(line@, next as int).map_values(lossy) =~= done
                    + rest.map_values(lossy));
            }
            start = next;
        }
    }
    assert(tokens_from(line@, start as int) =~= Seq::<Seq<u8>>::empty());
    assert(texts(parts@) + tokens_from(line@, start as int).map_values(lossy) =~= texts(parts@));
    parts
}

/// Seconds between two flushes of the store.
pub const DB_SAVE_INTERVAL: u64 = 900;

/// Seconds of silence after which the connection is probed.
pub const PING_INTERVAL: u64 = 300;

/// Seconds within which a connection attempt, and the answer to a probe,
/// are waited for.
pub const TIMEOUT_DURATION: u64 = 60;

/// Seconds between the loss of a connection, or a failed attempt, and the
/// next attempt.
pub const RETRY_DELAY: u64 = 60;

/// Where the keepalive timer stands.
#[derive(Debug, Clone, Copy, PartialEq, Eq, Structural)]
pub enum PingState {
    /// The timer is to be set anew for a full idle interval.
    Reset,
    /// The idle interval runs; no probe is out.
    Waiting,
    /// A probe was sent and its answer has not come.
    PingPending,
}

/// Where the connection stands.
#[derive(Debug, Clone, Copy, PartialEq, Eq, Structural)]
pub enum Phase {
    /// Without a connection, and not started yet.
    Disconnected,
    /// Without a connection, after one was lost or could not be made: the
    /// delay before the next attempt runs.
    Delaying,
    /// An attempt to connect is under way.
    Connecting,
    /// The connection stands.
    Connected,
    /// Shut down; nothing follows.
    ShuttingDown,
}

/// What can happen to a session, but for the arrival of bytes.
#[derive(Debug, Clone, Copy, PartialEq, Eq, Structural)]
pub enum Event {
    /// The session is started.
    Start,
    /// The attempt to connect succeeded.
    Connected,
    /// The attempt to connect was refused or failed otherwise.
    ConnectFailed,
    /// The attempt to connect took longer than `TIMEOUT_DURATION`.
    ConnectTimedOut,
    /// The delay before the next attempt is over.
    DelayElapsed,
    /// The peer closed the connection.
    Closed,
    /// Reading from the connection failed.
    ReadFailed,
    /// The keepalive timer ran out.
    PingTimer,
    /// The flush timer ticked.
    SaveTimer,
    /// The write of the store file has ended, well or not.
    Flushed(bool),
    /// The session is asked to end.
    Shutdown,
}

/// What the driver of a session is asked to do.
#[derive(Debug, PartialEq, Eq)]
pub enum Action {
    /// Try to connect to the remote address, for at most so many seconds.
    Connect(u64),
    /// Wait so many seconds, or until a shutdown is asked for.
    Delay(u64),
    /// Write this text to the connection; a failure is not reported back.
    Send(String),
    /// Set the keepalive timer to run out in so many seconds.
    ArmPingTimer(u64),
    /// Replace the store file by these bytes and report the outcome as
    /// `Event::Flushed`.
    WriteStore(Vec<u8>),
}

/// An `Action` as a mathematical value.
pub enum Output {
    Connect(u64),
    Delay(u64),
    Send(Seq<char>),
    ArmPingTimer(u64),
    WriteStore(Seq<u8>),
}

impl View for Action {
    type V = Output;

    open spec fn view(&self) -> Output {
        match self {
            Action::Connect(seconds) => Output::Connect(*seconds),
            Action::Delay(seconds) => Output::Delay(*seconds),
            Action::Send(text) => Output::Send(text@),
            Action::ArmPingTimer(seconds) => Output::ArmPingTimer(*seconds),
            Action::WriteStore(bytes) => Output::WriteStore(bytes@),
        }
    }
}

/// The actions of a list, each as a mathematical value.
pub open spec fn outputs(actions: Seq<Action>) -> Seq<Output> {
    actions.map_values(|action: Action| action@)
}

/// A session as a mathematical value.
pub struct Session {
    pub store: Store,
    pub remote_addr: Seq<char>,
    pub nick: Seq<char>,
    /// The channels to join, in the order in which they were added.
    pub channels: Seq<Seq<char>>,
    pub phase: Phase,
    pub ping_state: PingState,
    /// What was received after the last line feed.
    pub pending: Seq<u8>,
}

/// `line` without the ASCII white space at its end.
pub open spec fn trim_end(line: Seq<u8>) -> Seq<u8>
    decreases line.len(),
{
    if line.len() > 0 && is_blank(line.last()) {
        trim_end(line.drop_last())
    } else {
        line
    }
}

/// The text of a message: the token without the colon that it may start
/// with.
pub open spec fn message_body(token: Seq<char>) -> Seq<char> {
    if token.len() > 0 && token[0] == ':' {
        token.skip(1)
    } else {
        token
    }
}

/// The line that tells `target` the value of a counter.
pub open spec fn report(target: Seq<char>, ident: Seq<char>, value: i64) -> Seq<char> {
    "PRIVMSG "@ + target + " :"@ + ident + " = "@ + text_of(render(value as int)) + "\r\n"@
}

/// The store after the counter that `ident` names moved by `step`, and the
/// value to report. A counter that stands at the limit of its range stays
/// there, and the store is left as it is.
pub open spec fn moved(store: Store, ident: Seq<char>, step: int) -> (Store, i64) {
    let value = store.value(ident);
    if i64::MIN <= value + step <= i64::MAX {
        (store.add(ident, step), (value + step) as i64)
    } else {
        (store, value)
    }
}

/// What a chat message does: a command in its text moves or reads a
/// counter, and the counter's value is reported to `target`, where the
/// message came from. Text that is no command does nothing.
pub open spec fn chat(s: Session, target: Seq<char>, body: Seq<char>) -> (Session, Seq<Output>) {
    match parse(body) {
        Command::Nothing => (s, Seq::empty()),
        Command::Query(ident) => (
            s,
            seq![Output::Send(report(target, ident, s.store.value(ident)))],
        ),
        Command::Increment(ident) => {
            let (store, value) = moved(s.store, ident, 1);
            (Session { store, ..s }, seq![Output::Send(report(target, ident, value))])
        },
        Command::Decrement(ident) => {
            let (store, value) = moved(s.store, ident, -1);
            (Session { store, ..s }, seq![Output::Send(report(target, ident, value))])
        },
    }
}

/// What a line of tokens does. A `PING` with a target is answered by a
/// `PONG` with that target. A `PONG` resets the keepalive timer. A
/// `PRIVMSG` with a target and a text is a chat message. Any other line
/// does nothing.
pub open spec fn dispatch(s: Session, parts: Seq<Seq<char>>) -> (Session, Seq<Output>) {
    if parts.len() >= 2 && parts[0] == "PING"@ {
        (s, seq![Output::Send("PONG "@ + parts[1] + "\r\n"@)])
    } else if parts.len() >= 2 && parts[1] == "PONG"@ {
        (Session { ping_state: PingState::Reset, ..s }, Seq::empty())
    } else if parts.len() >= 4 && parts[1] == "PRIVMSG"@ {
        chat(s, parts[2], message_body(parts[3]))
    } else {
        (s, Seq::empty())
    }
}

/// What a received line does: the white space at its end is dropped, and
/// the rest is split into tokens, which are read as text.
pub open spec fn handle_line(s: Session, line: Seq<u8>) -> (Session, Seq<Output>) {
    dispatch(s, split_tokens(trim_end(line)).map_values(|token: Seq<u8>| wire_text(token)))
}

/// What the lines of `input` from `i` on do, one after the other. What
/// follows the last line feed is kept as the pending bytes.
pub open spec fn drain(s: Session, input: Seq<u8>, i: int) -> (Session, Seq<Output>)
    decreases input.len() - i,
{
    let end = find_byte(input, LINE_FEED, i);
    if i < 0 || i > input.len() {
        (s, Seq::empty())
    } else if end >= input.len() {
        (Session { pending: input.subrange(i, input.len() as int), ..s }, Seq::empty())
    } else {
        proof {
            lemma_find_byte(input, LINE_FEED, i);
        }
        let (after, first) = handle_line(s, input.subrange(i, end));
        let (last, rest) = drain(after, input, end + 1);
        (last, first + rest)
    }
}

/// What the arrival of `bytes` does on a connected session: they follow the
/// pending bytes, and each line that is now complete is handled. A session
/// that is not connected takes no bytes.
pub open spec fn receive(s: Session, bytes: Seq<u8>) -> (Session, Seq<Output>) {
    if s.phase == Phase::Connected {
        drain(Session { pending: Seq::empty(), ..s }, s.pending + bytes, 0)
    } else {
        (s, Seq::empty())
    }
}

/// What a session sends when its connection is made: its name, twice over,
/// and a request to join each of its channels, in their order.
pub open spec fn greeting(nick: Seq<char>, channels: Seq<Seq<char>>) -> Seq<Output> {
    seq![Output::Send("NICK "@ + nick + "\r\nUSER "@ + nick + " . . :"@ + nick + "\r\n"@)]
        + channels.map_values(|channel: Seq<char>| Output::Send("JOIN #"@ + channel + "\r\n"@))
}

/// What a flush does: a dirty store is to be written out, a clean one is
/// left alone.
pub open spec fn flush(store: Store) -> Seq<Output> {
    if store.dirty {
        seq![Output::WriteStore(dump(store.counters))]
    } else {
        Seq::empty()
    }
}

/// The session after `event`, and what is to be done.
pub open spec fn step(s: Session, event: Event) -> (Session, Seq<Output>) {
    match (s.phase, event) {
        (Phase::ShuttingDown, Event::Flushed(written)) => (
            Session { store: Store { dirty: s.store.dirty && !written, ..s.store }, ..s },
            Seq::empty(),
        ),
        (Phase::ShuttingDown, _) => (s, Seq::empty()),
        (_, Event::Flushed(written)) => (
            Session { store: Store { dirty: s.store.dirty && !written, ..s.store }, ..s },
            Seq::empty(),
        ),
        (_, Event::SaveTimer) => (s, flush(s.store)),
        (Phase::Connected, Event::Shutdown) => (
            Session { phase: Phase::ShuttingDown, ..s },
            seq![Output::Send("QUIT :--rot!\r\n"@)] + flush(s.store),
        ),
        (_, Event::Shutdown) => (Session { phase: Phase::ShuttingDown, ..s }, flush(s.store)),
        (Phase::Disconnected, Event::Start) => (
            Session { phase: Phase::Connecting, ..s },
            seq![Output::Connect(TIMEOUT_DURATION)],
        ),
        (Phase::Delaying, Event::DelayElapsed) => (
            Session { phase: Phase::Connecting, ..s },
            seq![Output::Connect(TIMEOUT_DURATION)],
        ),
        (Phase::Connecting, Event::Connected) => (
            Session { phase: Phase::Connected, ping_state: PingState::Reset, ..s },
            greeting(s.nick, s.channels),
        ),
        (Phase::Connecting, Event::ConnectFailed) | (Phase::Connecting, Event::ConnectTimedOut) => (
            Session { phase: Phase::Delaying, ..s },
            seq![Output::Delay(RETRY_DELAY)],
        ),
        (Phase::Connected, Event::Closed) | (Phase::Connected, Event::ReadFailed) => (
            Session { phase: Phase::Delaying, ..s },
            seq![Output::Delay(RETRY_DELAY)],
        ),
        (Phase::Connected, Event::PingTimer) => match s.ping_state {
            PingState::Waiting => (
                Session { ping_state: PingState::PingPending, ..s },
                seq![Output::Send("PING :rot\r\n"@), Output::ArmPingTimer(TIMEOUT_DURATION)],
            ),
            PingState::PingPending => (
                Session { phase: Phase::Delaying, ..s },
                seq![Output::Delay(RETRY_DELAY)],
            ),
            PingState::Reset => (s, Seq::empty()),
        },
        _ => (s, Seq::empty()),
    }
}

/// The session after the keepalive timer was looked after: on a connected
/// session whose timer is to be set anew, the timer is set for a full idle
/// interval; else nothing changes.
pub open spec fn rearm(s: Session) -> (Session, Option<u64>) {
    if s.phase == Phase::Connected && s.ping_state == PingState::Reset {
        (Session { ping_state: PingState::Waiting, ..s }, Some(PING_INTERVAL))
    } else {
        (s, None)
    }
}

/// The client of one session.
pub struct IrcClient {
    db: RotDb,
    remote_addr: String,
    nick: String,
    channels: Vec<String>,
    phase: Phase,
    ping_state: PingState,
    pending: Vec<u8>,
}

impl View for IrcClient {
    type V = Session;

    closed spec fn view(&self) -> Session {
        Session {
            store: self.db@,
            remote_addr: self.remote_addr@,
            nick: self.nick@,
            channels: texts(self.channels@),
            phase: self.phase,
            ping_state: self.ping_state,
            pending: self.pending@,
        }
    }
}

proof fn lemma_outputs_push(actions: Seq<Action>, action: Action)
    ensures
        outputs(actions.push(action)) == outputs(actions).push(action@),
{
    assert(outputs(actions.push(action)) =~= outputs(actions).push(action@));
}

fn send(actions: &mut Vec<Action>, text: String)
    ensures
        outputs(final(actions)@) == outputs(old(actions)@).push(Output::Send(text@)),
{
    proof {
        lemma_outputs_push(actions@, Action::Send(text));
    }
    actions.push(Action::Send(text));
}

fn ask(actions: &mut Vec<Action>, action: Action)
    ensures
        outputs(final(actions)@) == outputs(old(actions)@).push(action@),
{
    proof {
        lemma_outputs_push(actions@, action);
    }
    actions.push(action);
}

fn report_line(target: &str, ident: &str, value: i64) -> (line: String)
    ensures
        line@ == report(target@, ident@, value),
{
    let mut line = String::from_str("PRIVMSG ");
    line.append(target);
    line.append(" :");
    line.append(ident);
    line.append(" = ");
    let number = decimal_text(value);
    line.append(number.as_str());
    line.append("\r\n");
    line
}

fn body_of(token: &str) -> (body: String)
    ensures
        body@ == message_body(token@),
{
    let chars = to_chars(token);
    if chars.len() > 0 && chars[0] == ':' {
        from_chars(&chars, 1, chars.len())
    } else {
        assert(chars@.subrange(0, chars.len() as int) =~= chars@);
        from_chars(&chars, 0, chars.len())
    }
}

impl IrcClient {
    /// A client that is not started yet, for the server at `remote_addr`
    /// and under the name `nick`, with no channel to join. Its store is the
    /// one kept at `filename`, with the counters that the file held:
    /// `stored` is what was read from it, or `None`.
    pub fn new(filename: &str, stored: Option<&[u8]>, remote_addr: &str, nick: &str) -> (client:
        IrcClient)
        ensures
            client@ == (Session {
                store: Store {
                    path: filename@,
                    counters: match stored {
                        Some(bytes) => load(bytes@),
                        None => Counters::empty(),
                    },
                    dirty: false,
                },
                remote_addr: remote_addr@,
                nick: nick@,
                channels: Seq::empty(),
                phase: Phase::Disconnected,
                ping_state: PingState::Reset,
                pending: Seq::empty(),
            }),
    {
        let client = IrcClient {
            db: RotDb::new(filename, stored),
            remote_addr: remote_addr.to_owned(),
            nick: nick.to_owned(),
            channels: Vec::new(),
            phase: Phase::Disconnected,
            ping_state: PingState::Reset,
            pending: Vec::new(),
        };
        assert(client@.channels =~= Seq::<Seq<char>>::empty());
        client
    }

    /// Adds a channel to those that the client joins with each connection.
    pub fn join(&mut self, channel: &str)
        ensures
            final(self)@ == (Session {
                channels: old(self)@.channels.push(channel@),
                ..old(self)@
            }),
    {
        let ghost before = self.channels@;
        let name = channel.to_owned();
        self.channels.push(name);
        assert(texts(self.channels@) =~= texts(before).push(channel@));
    }

    /// The store.
    pub fn db(&self) -> (db: &RotDb)
        ensures
            db@ == self@.store,
    {
        &self.db
    }

    /// The address of the server.
    pub fn remote_addr(&self) -> (addr: &str)
        ensures
            addr@ == self@.remote_addr,
    {
        self.remote_addr.as_str()
    }

    /// Where the connection stands.
    pub fn phase(&self) -> (phase: Phase)
        ensures
            phase == self@.phase,
    {
        self.phase
    }

    /// Where the keepalive timer stands.
    pub fn ping_state(&self) -> (state: PingState)
        ensures
            state == self@.ping_state,
    {
        self.ping_state
    }

    /// Looks after the keepalive timer, as is due before each wait for an
    /// event: a timer that is to be set anew is to run for the seconds
    /// returned, and the client then waits for it.
    pub fn rearm(&mut self) -> (seconds: Option<u64>)
        ensures
            (final(self)@, seconds) == rearm(old(self)@),
    {
        match (self.phase, self.ping_state) {
            (Phase::Connected, PingState::Reset) => {
                self.ping_state = PingState::Waiting;
                Some(PING_INTERVAL)
            },
            _ => None,
        }
    }

    fn flush(&self, actions: &mut Vec<Action>)
        ensures
            outputs(final(actions)@) == outputs(old(actions)@) + flush(self@.store),
    {
        match self.db.sync() {
            Some(bytes) => {
                ask(actions, Action::WriteStore(bytes));
                assert(outputs(actions@) =~= outputs(old(actions)@) + flush(self@.store));
            },
            None => {
                assert(outputs(actions@) =~= outputs(old(actions)@) + flush(self@.store));
            },
        }
    }

    fn greet(&self, actions: &mut Vec<Action>)
        ensures
            outputs(final(actions)@) == outputs(old(actions)@) + greeting(
                self@.nick,
                self@.channels,
            ),
    {
        let ghost before = outputs(actions@);
        let ghost join = |channel: Seq<char>| Output::Send("JOIN #"@ + channel + "\r\n"@);
        let nick = self.nick.as_str();
        let mut line = String::from_str("NICK ");
        line.append(nick);
        line.append("\r\nUSER ");
        line.append(nick);
        line.append(" . . :");
        line.append(nick);
        line.append("\r\n");
        send(actions, line);
        let ghost first = outputs(actions@);
        let mut i: usize = 0;
        assert(self@.channels.take(0).map_values(join) =~= Seq::<Output>::empty());
        assert(first + self@.channels.take(0).map_values(join) =~= first);
        while i < self.channels.len()
            invariant
                i <= self.channels.len(),
                join == |channel: Seq<char>| Output::Send("JOIN #"@ + channel + "\r\n"@),
                outputs(actions@) == first + self@.channels.take(i as int).map_values(join),
            decreases self.channels.len() - i,
        {
            let mut line = String::from_str("JOIN #");
            line.append(self.channels[i].as_str());
            line.append("\r\n");
            send(actions, line);
            assert(self@.channels.take(i + 1).map_values(join) =~= self@.channels.take(
                i as int,
            ).map_values(join).push(join(self@.channels[i as int])));
            i += 1;
        }
        assert(self@.channels.take(i as int) =~= self@.channels);
        assert(outputs(actions@) =~= before + greeting(self@.nick, self@.channels));
    }

    /// Tells the client what has happened and returns what to do about it.
    /// The keepalive timer cannot run out before it was set: on a connected
    /// client, `rearm` comes before the wait for an event.
    pub fn step(&mut self, event: Event) -> (actions: Vec<Action>)
        requires
            !(old(self)@.phase == Phase::Connected && event == Event::PingTimer && old(
                self,
            )@.ping_state == PingState::Reset),
        ensures
            (final(self)@, outputs(actions@)) == step(old(self)@, event),
    {
        let mut actions: Vec<Action> = Vec::new();
        assert(outputs(actions@) =~= Seq::<Output>::empty());
        match (self.phase, event) {
            (Phase::ShuttingDown, Event::Flushed(written)) => {
                self.db.flushed(written);
            },
            (Phase::ShuttingDown, _) => {},
            (_, Event::Flushed(written)) => {
                self.db.flushed(written);
            },
            (_, Event::SaveTimer) => {
                self.flush(&mut actions);
                assert(outputs(actions@) =~= flush(self@.store));
            },
            (Phase::Connected, Event::Shutdown) => {
                send(&mut actions, String::from_str("QUIT :--rot!\r\n"));
                self.flush(&mut actions);
                self.phase = Phase::ShuttingDown;
                assert(outputs(actions@) =~= seq![Output::Send("QUIT :--rot!\r\n"@)] + flush(
                    self@.store,
                ));
            },
            (_, Event::Shutdown) => {
                self.flush(&mut actions);
                self.phase = Phase::ShuttingDown;
                assert(outputs(actions@) =~= flush(self@.store));
            },
            (Phase::Disconnected, Event::Start) | (Phase::Delaying, Event::DelayElapsed) => {
                ask(&mut actions, Action::Connect(TIMEOUT_DURATION));
                self.phase = Phase::Connecting;
                assert(outputs(actions@) =~= seq![Output::Connect(TIMEOUT_DURATION)]);
            },
            (Phase::Connecting, Event::Connected) => {
                self.greet(&mut actions);
                self.phase = Phase::Connected;
                self.ping_state = PingState::Reset;
                assert(outputs(actions@) =~= greeting(self@.nick, self@.channels));
            },
            (Phase::Connecting, Event::ConnectFailed)
            | (Phase::Connecting, Event::ConnectTimedOut)
            | (Phase::Connected, Event::Closed)
            | (Phase::Connected, Event::ReadFailed) => {
                ask(&mut actions, Action::Delay(RETRY_DELAY));
                self.phase = Phase::Delaying;
                assert(outputs(actions@) =~= seq![Output::Delay(RETRY_DELAY)]);
            },
            (Phase::Connected, Event::PingTimer) => match self.ping_state {
                PingState::Waiting => {
                    send(&mut actions, String::from_str("PING :rot\r\n"));
                    ask(&mut actions, Action::ArmPingTimer(TIMEOUT_DURATION));
                    self.ping_state = PingState::PingPending;
                    assert(outputs(actions@) =~= seq![
                        Output::Send("PING :rot\r\n"@),
                        Output::ArmPingTimer(TIMEOUT_DURATION),
                    ]);
                },
                PingState::PingPending => {
                    ask(&mut actions, Action::Delay(RETRY_DELAY));
                    self.phase = Phase::Delaying;
                    assert(outputs(actions@) =~= seq![Output::Delay(RETRY_DELAY)]);
                },
                PingState::Reset => {},
            },
            _ => {},
        }
        actions
    }

    fn move_counter(&mut self, ident: &str, up: bool) -> (value: i64)
        ensures
            final(self)@ == (Session {
                store: moved(old(self)@.store, ident@, if up { 1 } else { -1 }).0,
                ..old(self)@
            }),
            value == moved(old(self)@.store, ident@, if up { 1 } else { -1 }).1,
    {
        let value = self.db.value(ident);
        if up {
            if value < i64::MAX {
                self.db.increment(ident)
            } else {
                value
            }
        } else {
            if value > i64::MIN {
                self.db.decrement(ident)
            } else {
                value
            }
        }
    }

    fn chat(&mut self, target: &str, body: &str, actions: &mut Vec<Action>)
        ensures
            final(self)@ == chat(old(self)@, target@, body@).0,
            outputs(final(actions)@) == outputs(old(actions)@) + chat(
                old(self)@,
                target@,
                body@,
            ).1,
    {
        let ghost before = outputs(actions@);
        match parse_line(body) {
            ParsedLine::Nothing => {
                assert(before + Seq::<Output>::empty() =~= before);
            },
            ParsedLine::Query(ident) => {
                let value = self.db.value(ident.as_str());
                send(actions, report_line(target, ident.as_str(), value));
                assert(outputs(actions@) =~= before + chat(old(self)@, target@, body@).1);
            },
            ParsedLine::Increment(ident) => {
                let value = self.move_counter(ident.as_str(), true);
                send(actions, report_line(target, ident.as_str(), value));
                assert(outputs(actions@) =~= before + chat(old(self)@, target@, body@).1);
            },
            ParsedLine::Decrement(ident) => {
                let value = self.move_counter(ident.as_str(), false);
                send(actions, report_line(target, ident.as_str(), value));
                assert(outputs(actions@) =~= before + chat(old(self)@, target@, body@).1);
            },
        }
    }

    fn dispatch(&mut self, parts: &Vec<String>, actions: &mut Vec<Action>)
        ensures
            final(self)@ == dispatch(old(self)@, texts(parts@)).0,
            outputs(final(actions)@) == outputs(old(actions)@) + dispatch(
                old(self)@,
                texts(parts@),
            ).1,
    {
        let ghost before = outputs(actions@);
        if parts.len() >= 2 && same_text(parts[0].as_str(), "PING") {
            let mut line = String::from_str("PONG ");
            line.append(parts[1].as_str());
            line.append("\r\n");
            send(actions, line);
            assert(outputs(actions@) =~= before + dispatch(old(self)@, texts(parts@)).1);
        } else if parts.len() >= 2 && same_text(parts[1].as_str(), "PONG") {
            self.ping_state = PingState::Reset;
            assert(before + Seq::<Output>::empty() =~= before);
        } else if parts.len() >= 4 && same_text(parts[1].as_str(), "PRIVMSG") {
            let body = body_of(parts[3].as_str());
            self.chat(parts[2].as_str(), body.as_str(), actions);
        } else {
            assert(before + Seq::<Output>::empty() =~= before);
        }
    }

    fn handle_line(&mut self, line: &[u8], actions: &mut Vec<Action>)
        ensures
            final(self)@ == handle_line(old(self)@, line@).0,
            outputs(final(actions)@) == outputs(old(actions)@) + handle_line(old(self)@, line@).1,
    {
        let mut end = line.len();
        assert(line@.subrange(0, end as int) =~= line@);
        while end > 0 && blank(line[end - 1])
            invariant
                end <= line.len(),
                trim_end(line@) == trim_end(line@.subrange(0, end as int)),
            decreases end,
        {
            assert(line@.subrange(0, end as int).drop_last() =~= line@.subrange(0, end - 1));
            end -= 1;
        }
        let parts = irc_split(slice_subrange(line, 0, end));
        self.dispatch(&parts, actions);
    }

    /// Tells the client that `bytes` were received and returns what to do
    /// about the lines that they complete.
    pub fn receive(&mut self, bytes: &[u8]) -> (actions: Vec<Action>)
        ensures
            (final(self)@, outputs(actions@)) == receive(old(self)@, bytes@),
    {
        let mut actions: Vec<Action> = Vec::new();
        assert(outputs(actions@) =~= Seq::<Output>::empty());
        match self.phase {
            Phase::Connected => {},
            _ => {
                return actions;
            },
        }
        let mut input: Vec<u8> = Vec::new();
        std::mem::swap(&mut input, &mut self.pending);
        input.extend_from_slice(bytes);
        let ghost goal = receive(old(self)@, bytes@);
        let mut i: usize = 0;
        assert(self@.pending =~= Seq::<u8>::empty());
        assert(self@ == (Session { pending: Seq::empty(), ..old(self)@ }));
        assert(input@ =~= old(self)@.pending + bytes@);
        assert(goal == drain(self@, input@, 0));
        assert(outputs(actions@) + drain(self@, input@, 0).1 =~= drain(self@, input@, 0).1);
        loop
            invariant
                i <= input.len(),
                goal.0 == drain(self@, input@, i as int).0,
                goal.1 == outputs(actions@) + drain(self@, input@, i as int).1,
            ensures
                find_byte(input@, LINE_FEED, i as int) >= input.len(),
            decreases input.len() - i,
        {
            let end = position(input.as_slice(), LINE_FEED, i);
            if end >= input.len() {
                break ;
            }
            let ghost before = self@;
            let ghost sent = outputs(actions@);
            self.handle_line(slice_subrange(input.as_slice(), i, end), &mut actions);
            proof {
                let (after, first) = handle_line(before, input@.subrange(i as int, end as int));
                let (last, rest) = drain(after, input@, end + 1);
                assert(drain(before, input@, i as int) == (last, first + rest));
                assert(sent + (first + rest) =~= (sent + first) + rest);
            }
            i = end + 1;
        }
        let ghost last = self@;
        self.pending = slice_to_vec(slice_subrange(input.as_slice(), i, input.len()));
        assert(self@ == (Session { pending: input@.subrange(i as int, input.len() as int), ..last }));
        assert(outputs(actions@) + Seq::<Output>::empty() =~= outputs(actions@));
        actions
    }
}

} // verus!
