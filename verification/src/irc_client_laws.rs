//! What holds of the session: of failed attempts to connect, of probes that
//! get no answer, of flushes and of the end.

use vstd::prelude::*;
use crate::ascii::{find_byte, lemma_find_byte, LINE_FEED};
use crate::irc_client::{
    drain, flush, handle_line, message_body, moved, rearm, receive, split_tokens, step, trim_end,
    Event, Output, Phase, PingState, Session, PING_INTERVAL, RETRY_DELAY, TIMEOUT_DURATION,
};
use crate::line_parse::{parse, Command};
use crate::line_parse_laws::{is_identifier, lemma_parsed_identifier};
use crate::rotdb::{dump, lemma_put_wf, load, normalize, Counters, Store};
use crate::rotdb_laws::{
    all_plain, lemma_identifier_key_is_plain, lemma_load_dump, lemma_loaded_store_round_trips,
    lemma_put_plain,
};
use crate::text::wire_text;

verus! {

/// Whether `output` asks for an attempt to connect.
pub open spec fn is_connect(output: Output) -> bool {
    output is Connect
}

/// None of `outputs` asks for an attempt to connect.
pub open spec fn no_connect(outputs: Seq<Output>) -> bool {
    forall|i: int| 0 <= i < outputs.len() ==> !is_connect(#[trigger] outputs[i])
}

/// An attempt to connect that fails or times out is followed by one delay of
/// `RETRY_DELAY` seconds and by nothing else; while that delay runs, no
/// event but its end asks for another attempt; and its end asks for exactly
/// one.
pub proof fn lemma_failed_attempt_is_retried_once(s: Session, failure: Event, other: Event)
    requires
        s.phase == Phase::Connecting,
        failure == Event::ConnectFailed || failure == Event::ConnectTimedOut,
        other != Event::DelayElapsed,
    ensures
        step(s, failure) == (
            Session { phase: Phase::Delaying, ..s },
            seq![Output::Delay(RETRY_DELAY)],
        ),
        no_connect(step(step(s, failure).0, other).1),
        step(step(s, failure).0, Event::DelayElapsed) == (s, seq![Output::Connect(TIMEOUT_DURATION)]),
{
}

/// The loss of a connection is followed by one delay of `RETRY_DELAY`
/// seconds, and the end of the delay by one attempt to connect.
pub proof fn lemma_lost_connection_is_retried(s: Session, loss: Event)
    requires
        s.phase == Phase::Connected,
        loss == Event::Closed || loss == Event::ReadFailed,
    ensures
        step(s, loss) == (Session { phase: Phase::Delaying, ..s }, seq![Output::Delay(RETRY_DELAY)]),
        step(step(s, loss).0, Event::DelayElapsed) == (
            Session { phase: Phase::Connecting, ..s },
            seq![Output::Connect(TIMEOUT_DURATION)],
        ),
{
}

/// A shutdown that comes while the delay runs ends the session: no attempt
/// to connect is asked for, then or ever after.
pub proof fn lemma_shutdown_during_delay(s: Session, later: Event, bytes: Seq<u8>)
    requires
        s.phase == Phase::Delaying,
    ensures
        step(s, Event::Shutdown).0.phase == Phase::ShuttingDown,
        no_connect(step(s, Event::Shutdown).1),
        step(step(s, Event::Shutdown).0, later).0.phase == Phase::ShuttingDown,
        step(step(s, Event::Shutdown).0, later).1 == Seq::<Output>::empty(),
        receive(step(s, Event::Shutdown).0, bytes) == (
            step(s, Event::Shutdown).0,
            Seq::<Output>::empty(),
        ),
{
}

/// A session that was shut down stays so, and asks for nothing any more.
pub proof fn lemma_shut_down_is_final(s: Session, event: Event, bytes: Seq<u8>)
    requires
        s.phase == Phase::ShuttingDown,
    ensures
        step(s, event).0.phase == Phase::ShuttingDown,
        step(s, event).1 == Seq::<Output>::empty(),
        receive(s, bytes) == (s, Seq::<Output>::empty()),
        rearm(s) == (s, None::<u64>),
{
}

/// A line changes neither the phase of a session nor what identifies it,
/// and leaves the keepalive timer as it is or resets it.
pub proof fn lemma_handle_line_keeps(s: Session, line: Seq<u8>)
    ensures
        handle_line(s, line).0.phase == s.phase,
        handle_line(s, line).0.pending == s.pending,
        handle_line(s, line).0.nick == s.nick,
        handle_line(s, line).0.channels == s.channels,
        handle_line(s, line).0.remote_addr == s.remote_addr,
        handle_line(s, line).0.ping_state == s.ping_state || handle_line(s, line).0.ping_state
            == PingState::Reset,
        no_connect(handle_line(s, line).1),
{
}

/// The lines of what was received change neither the phase of a session nor
/// what identifies it, and leave the keepalive timer as it is or reset it.
pub proof fn lemma_drain_keeps(s: Session, input: Seq<u8>, i: int)
    ensures
        drain(s, input, i).0.phase == s.phase,
        drain(s, input, i).0.nick == s.nick,
        drain(s, input, i).0.channels == s.channels,
        drain(s, input, i).0.remote_addr == s.remote_addr,
        drain(s, input, i).0.ping_state == s.ping_state || drain(s, input, i).0.ping_state
            == PingState::Reset,
        no_connect(drain(s, input, i).1),
    decreases input.len() - i,
{
    let end = find_byte(input, LINE_FEED, i);
    if 0 <= i <= input.len() && end < input.len() {
        lemma_find_byte(input, LINE_FEED, i);
        let line = input.subrange(i, end);
        lemma_handle_line_keeps(s, line);
        let (after, first) = handle_line(s, line);
        lemma_drain_keeps(after, input, end + 1);
        let (last, rest) = drain(after, input, end + 1);
        assert forall|k: int| 0 <= k < (first + rest).len() implies !is_connect(
            #[trigger] (first + rest)[k],
        ) by {
            if k < first.len() {
                assert((first + rest)[k] == first[k]);
            } else {
                assert((first + rest)[k] == rest[k - first.len()]);
            }
        }
    }
}

/// A probe that gets no answer ends the connection. On a connected session
/// that waits, the keepalive timer's end sends a probe and sets the timer to
/// `TIMEOUT_DURATION` seconds. Whatever arrives then either resets the timer
/// or leaves the probe pending; and where the probe is still pending when
/// the timer ends again, the session reconnects after the delay.
pub proof fn lemma_unanswered_probe_reconnects(s: Session, bytes: Seq<u8>)
    requires
        s.phase == Phase::Connected,
        s.ping_state == PingState::Waiting,
    ensures
        step(s, Event::PingTimer) == (
            Session { ping_state: PingState::PingPending, ..s },
            seq![Output::Send("PING :rot\r\n"@), Output::ArmPingTimer(TIMEOUT_DURATION)],
        ),
        ({
            let probing = step(s, Event::PingTimer).0;
            let heard = receive(probing, bytes).0;
            &&& heard.phase == Phase::Connected
            &&& heard.ping_state == PingState::PingPending || heard.ping_state == PingState::Reset
            &&& heard.ping_state == PingState::PingPending ==> step(heard, Event::PingTimer) == (
                Session { phase: Phase::Delaying, ..heard },
                seq![Output::Delay(RETRY_DELAY)],
            )
            &&& heard.ping_state == PingState::Reset ==> rearm(heard) == (
                Session { ping_state: PingState::Waiting, ..heard },
                Some(PING_INTERVAL),
            )
        }),
{
    let probing = step(s, Event::PingTimer).0;
    lemma_drain_keeps(Session { pending: Seq::empty(), ..probing }, probing.pending + bytes, 0);
}

/// A new connection starts with the keepalive timer to be set, and setting
/// it makes the session wait for a full idle interval.
pub proof fn lemma_connection_arms_timer(s: Session)
    requires
        s.phase == Phase::Connecting,
    ensures
        step(s, Event::Connected).0.phase == Phase::Connected,
        step(s, Event::Connected).0.ping_state == PingState::Reset,
        rearm(step(s, Event::Connected).0) == (
            Session { ping_state: PingState::Waiting, ..step(s, Event::Connected).0 },
            Some(PING_INTERVAL),
        ),
{
}

/// Once the keepalive timer was looked after, it is not left to be set: its
/// end can then be told to the session, whatever the session's state.
pub proof fn lemma_rearm_sets_timer(s: Session)
    ensures
        !(rearm(s).0.phase == Phase::Connected && rearm(s).0.ping_state == PingState::Reset),
        rearm(rearm(s).0) == (rearm(s).0, None::<u64>),
{
}

/// A flush of a store that is not dirty does nothing: the flush timer asks
/// for no write and changes nothing, in every phase.
pub proof fn lemma_flush_of_clean_store(s: Session)
    requires
        !s.store.dirty,
    ensures
        flush(s.store) == Seq::<Output>::empty(),
        step(s, Event::SaveTimer) == (s, Seq::<Output>::empty()),
{
}

/// A flush of a dirty store asks for one write, of the whole store, and the
/// store stays dirty until the write is reported to have succeeded.
pub proof fn lemma_flush_of_dirty_store(s: Session, written: bool)
    requires
        s.store.dirty,
        s.phase != Phase::ShuttingDown,
    ensures
        step(s, Event::SaveTimer) == (
            s,
            seq![Output::WriteStore(dump(s.store.counters))],
        ),
        step(s, Event::Flushed(written)).0.store.dirty == !written,
        step(s, Event::Flushed(written)).0.store.counters == s.store.counters,
{
}

/// The store of a session can be written out and read back: it is well
/// formed, and none of its keys holds a colon or a line feed.
pub open spec fn store_is_sound(s: Session) -> bool {
    s.store.counters.wf() && all_plain(s.store.counters)
}

/// A counter named by an identifier moves in a sound store.
proof fn lemma_moved_keeps_sound(store: Store, ident: Seq<char>, amount: int)
    requires
        store.counters.wf(),
        all_plain(store.counters),
        is_identifier(ident),
    ensures
        moved(store, ident, amount).0.counters.wf(),
        all_plain(moved(store, ident, amount).0.counters),
{
    let value = store.value(ident);
    if i64::MIN <= value + amount <= i64::MAX {
        lemma_identifier_key_is_plain(ident);
        lemma_put_wf(store.counters, normalize(ident), (value + amount) as i64);
        lemma_put_plain(store.counters, normalize(ident), (value + amount) as i64);
    }
}

/// A line leaves the store of a session sound.
proof fn lemma_handle_line_keeps_sound(s: Session, line: Seq<u8>)
    requires
        store_is_sound(s),
    ensures
        store_is_sound(handle_line(s, line).0),
{
    let parts = split_tokens(trim_end(line)).map_values(|token: Seq<u8>| wire_text(token));
    if parts.len() >= 2 && parts[0] == "PING"@ {
    } else if parts.len() >= 2 && parts[1] == "PONG"@ {
    } else if parts.len() >= 4 && parts[1] == "PRIVMSG"@ {
        let body = message_body(parts[3]);
        lemma_parsed_identifier(body);
        match parse(body) {
            Command::Nothing => {},
            Command::Query(ident) => {},
            Command::Increment(ident) => {
                lemma_moved_keeps_sound(s.store, ident, 1);
            },
            Command::Decrement(ident) => {
                lemma_moved_keeps_sound(s.store, ident, -1);
            },
        }
    }
}

/// The lines of what was received leave the store of a session sound.
proof fn lemma_drain_keeps_sound(s: Session, input: Seq<u8>, i: int)
    requires
        store_is_sound(s),
    ensures
        store_is_sound(drain(s, input, i).0),
    decreases input.len() - i,
{
    let end = find_byte(input, LINE_FEED, i);
    if 0 <= i <= input.len() && end < input.len() {
        lemma_find_byte(input, LINE_FEED, i);
        let line = input.subrange(i, end);
        lemma_handle_line_keeps_sound(s, line);
        lemma_drain_keeps_sound(handle_line(s, line).0, input, end + 1);
    }
}

/// The store of a new session is sound, whatever its file held.
pub proof fn lemma_new_store_is_sound(stored: Option<Seq<u8>>)
    ensures
        ({
            let counters = match stored {
                Some(bytes) => load(bytes),
                None => Counters::empty(),
            };
            counters.wf() && all_plain(counters)
        }),
{
    match stored {
        Some(bytes) => {
            lemma_loaded_store_round_trips(bytes);
        },
        None => {},
    }
}

/// Nothing that happens to a session makes its store unsound: not an event,
/// not the arrival of bytes, not the care for the keepalive timer.
pub proof fn lemma_store_stays_sound(s: Session, event: Event, bytes: Seq<u8>)
    requires
        store_is_sound(s),
    ensures
        store_is_sound(step(s, event).0),
        store_is_sound(receive(s, bytes).0),
        store_is_sound(rearm(s).0),
{
    if s.phase == Phase::Connected {
        lemma_drain_keeps_sound(Session { pending: Seq::empty(), ..s }, s.pending + bytes, 0);
    }
}

/// What a session writes out is its store: a store that is read from the
/// bytes of a flush holds the counters of the session, each with its value.
pub proof fn lemma_session_round_trip(s: Session, key: Seq<char>)
    requires
        store_is_sound(s),
    ensures
        load(dump(s.store.counters)) == s.store.counters,
        load(dump(s.store.counters)).value(normalize(key)) == s.store.value(key),
{
    lemma_load_dump(s.store.counters);
}

} // verus!
