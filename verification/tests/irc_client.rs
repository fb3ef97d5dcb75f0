use rot::irc_client::{
    irc_split, Action, Event, IrcClient, Phase, PingState, DB_SAVE_INTERVAL, PING_INTERVAL,
    RETRY_DELAY, TIMEOUT_DURATION,
};

fn send(text: &str) -> Action {
    Action::Send(text.to_string())
}

fn client() -> IrcClient {
    let mut client = IrcClient::new("zot.db", None, "irc.example:6667", "rot");
    client.join("zot");
    client
}

fn connected() -> IrcClient {
    let mut client = client();
    assert_eq!(client.step(Event::Start), vec![Action::Connect(60)]);
    client.step(Event::Connected);
    assert_eq!(client.rearm(), Some(300));
    client
}

#[test]
fn intervals() {
    assert_eq!(DB_SAVE_INTERVAL, 15 * 60);
    assert_eq!(PING_INTERVAL, 5 * 60);
    assert_eq!(TIMEOUT_DURATION, 60);
    assert_eq!(RETRY_DELAY, 60);
}

#[test]
fn split_on_white_space() {
    assert_eq!(irc_split(b"PING irc.example"), vec!["PING", "irc.example"]);
    assert_eq!(irc_split(b"a  b\t\tc"), vec!["a", "b", "c"]);
    assert_eq!(irc_split(b"a b "), vec!["a", "b"]);
    assert_eq!(irc_split(b"single"), vec!["single"]);
    assert_eq!(irc_split(b""), Vec::<String>::new());
}

#[test]
fn split_keeps_the_rest_after_a_colon() {
    assert_eq!(irc_split(b"PING :a b  c"), vec!["PING", ":a b  c"]);
    assert_eq!(
        irc_split(b":nick!user@host PRIVMSG #chan :++foo // yes"),
        vec![":nick!user@host", "PRIVMSG", "#chan", ":++foo // yes"]
    );
    assert_eq!(irc_split(b"a :"), vec!["a", ":"]);
    assert_eq!(irc_split(b"a b:c d"), vec!["a", "b:c", "d"]);
    assert_eq!(irc_split(b"a :b \r"), vec!["a", ":b \r"]);
}

#[test]
fn split_lets_the_first_token_start_with_a_colon() {
    assert_eq!(irc_split(b":server PONG server :rot"), vec![":server", "PONG", "server", ":rot"]);
}

#[test]
fn split_gives_an_empty_first_token_after_leading_space() {
    assert_eq!(irc_split(b" a b"), vec!["", "a", "b"]);
    assert_eq!(irc_split(b"  :a b"), vec!["", ":a b"]);
    assert_eq!(irc_split(b"   "), vec![""]);
}

#[test]
fn split_replaces_what_is_not_utf8() {
    assert_eq!(irc_split(b"a\xffb c\xc3"), vec!["a\u{fffd}b", "c\u{fffd}"]);
    assert_eq!(irc_split("été :ça va".as_bytes()), vec!["été", ":ça va"]);
}

#[test]
fn new_client_is_not_started() {
    let client = IrcClient::new("zot.db", Some(b"a:3\n"), "irc.example:6667", "rot");
    assert_eq!(client.phase(), Phase::Disconnected);
    assert_eq!(client.ping_state(), PingState::Reset);
    assert_eq!(client.remote_addr(), "irc.example:6667");
    assert_eq!(client.db().value("a"), 3);
    assert_eq!(client.db().filename(), "zot.db");
    assert!(!client.db().is_dirty());
}

#[test]
fn start_asks_for_a_connection() {
    let mut client = client();
    assert_eq!(client.step(Event::Start), vec![Action::Connect(TIMEOUT_DURATION)]);
    assert_eq!(client.phase(), Phase::Connecting);
    assert_eq!(client.step(Event::Start), vec![]);
}

#[test]
fn connection_sends_identity_and_joins_in_order() {
    let mut client = IrcClient::new("zot.db", None, "irc.example:6667", "rot");
    client.join("zot");
    client.join("rust");
    client.join("zot");
    client.step(Event::Start);
    assert_eq!(
        client.step(Event::Connected),
        vec![
            send("NICK rot\r\nUSER rot . . :rot\r\n"),
            send("JOIN #zot\r\n"),
            send("JOIN #rust\r\n"),
            send("JOIN #zot\r\n"),
        ]
    );
    assert_eq!(client.phase(), Phase::Connected);
    assert_eq!(client.ping_state(), PingState::Reset);
    assert_eq!(client.rearm(), Some(PING_INTERVAL));
    assert_eq!(client.ping_state(), PingState::Waiting);
    assert_eq!(client.rearm(), None);
}

#[test]
fn connection_without_channels_sends_identity_only() {
    let mut client = IrcClient::new("zot.db", None, "irc.example:6667", "r2");
    client.step(Event::Start);
    assert_eq!(client.step(Event::Connected), vec![send("NICK r2\r\nUSER r2 . . :r2\r\n")]);
}

#[test]
fn refused_connection_is_retried_once_after_the_delay() {
    let mut client = client();
    client.step(Event::Start);
    assert_eq!(client.step(Event::ConnectFailed), vec![Action::Delay(60)]);
    assert_eq!(client.phase(), Phase::Delaying);
    // Nothing but the end of the delay starts the second attempt.
    assert_eq!(client.step(Event::ConnectFailed), vec![]);
    assert_eq!(client.step(Event::PingTimer), vec![]);
    assert_eq!(client.step(Event::Closed), vec![]);
    assert_eq!(client.step(Event::SaveTimer), vec![]);
    assert_eq!(client.receive(b"PING :x\r\n"), vec![]);
    assert_eq!(client.step(Event::DelayElapsed), vec![Action::Connect(60)]);
    assert_eq!(client.phase(), Phase::Connecting);
    assert_eq!(client.step(Event::DelayElapsed), vec![]);
}

#[test]
fn timed_out_connection_is_retried_once_after_the_delay() {
    let mut client = client();
    client.step(Event::Start);
    assert_eq!(client.step(Event::ConnectTimedOut), vec![Action::Delay(RETRY_DELAY)]);
    assert_eq!(client.step(Event::DelayElapsed), vec![Action::Connect(TIMEOUT_DURATION)]);
    assert_eq!(client.step(Event::ConnectTimedOut), vec![Action::Delay(RETRY_DELAY)]);
    assert_eq!(client.step(Event::DelayElapsed), vec![Action::Connect(TIMEOUT_DURATION)]);
    assert_eq!(client.step(Event::Connected).len(), 2);
}

#[test]
fn shutdown_during_the_delay_ends_without_another_attempt() {
    let mut client = client();
    client.step(Event::Start);
    client.step(Event::ConnectFailed);
    assert_eq!(client.step(Event::Shutdown), vec![]);
    assert_eq!(client.phase(), Phase::ShuttingDown);
    assert_eq!(client.step(Event::DelayElapsed), vec![]);
    assert_eq!(client.step(Event::Start), vec![]);
    assert_eq!(client.step(Event::Connected), vec![]);
    assert_eq!(client.step(Event::Shutdown), vec![]);
    assert_eq!(client.rearm(), None);
    assert_eq!(client.phase(), Phase::ShuttingDown);
}

#[test]
fn shutdown_during_an_attempt_ends_the_session() {
    let mut client = client();
    client.step(Event::Start);
    assert_eq!(client.step(Event::Shutdown), vec![]);
    assert_eq!(client.phase(), Phase::ShuttingDown);
    assert_eq!(client.step(Event::Connected), vec![]);
}

#[test]
fn lost_connection_is_restored_after_the_delay() {
    for loss in [Event::Closed, Event::ReadFailed] {
        let mut client = connected();
        assert_eq!(client.step(loss), vec![Action::Delay(60)]);
        assert_eq!(client.phase(), Phase::Delaying);
        assert_eq!(client.step(Event::DelayElapsed), vec![Action::Connect(60)]);
        assert_eq!(
            client.step(Event::Connected),
            vec![send("NICK rot\r\nUSER rot . . :rot\r\n"), send("JOIN #zot\r\n")]
        );
        assert_eq!(client.rearm(), Some(300));
    }
}

#[test]
fn idle_connection_is_probed() {
    let mut client = connected();
    assert_eq!(
        client.step(Event::PingTimer),
        vec![send("PING :rot\r\n"), Action::ArmPingTimer(60)]
    );
    assert_eq!(client.ping_state(), PingState::PingPending);
    assert_eq!(client.rearm(), None);
}

#[test]
fn unanswered_probe_reconnects() {
    let mut client = connected();
    client.step(Event::PingTimer);
    // Traffic that is no answer does not help.
    assert_eq!(client.receive(b":nick!u@h PRIVMSG #zot :hello\r\nNOTICE x :PONG\r\n"), vec![]);
    assert_eq!(client.ping_state(), PingState::PingPending);
    assert_eq!(client.step(Event::PingTimer), vec![Action::Delay(60)]);
    assert_eq!(client.phase(), Phase::Delaying);
    assert_eq!(client.step(Event::DelayElapsed), vec![Action::Connect(60)]);
}

#[test]
fn answered_probe_resets_the_timer() {
    let mut client = connected();
    client.step(Event::PingTimer);
    assert_eq!(client.receive(b":irc.example PONG irc.example :rot\r\n"), vec![]);
    assert_eq!(client.ping_state(), PingState::Reset);
    assert_eq!(client.rearm(), Some(300));
    assert_eq!(client.ping_state(), PingState::Waiting);
    assert_eq!(
        client.step(Event::PingTimer),
        vec![send("PING :rot\r\n"), Action::ArmPingTimer(60)]
    );
}

#[test]
fn ping_is_answered_with_its_target() {
    let mut client = connected();
    assert_eq!(client.receive(b"PING :irc.example\r\n"), vec![send("PONG :irc.example\r\n")]);
    assert_eq!(client.receive(b"PING abc def\n"), vec![send("PONG abc\r\n")]);
    assert_eq!(client.receive(b"PING\r\n"), vec![]);
    assert_eq!(client.receive(b"ping :x\r\n"), vec![]);
    assert_eq!(client.ping_state(), PingState::Waiting);
}

#[test]
fn lines_are_put_together_across_reads() {
    let mut client = connected();
    assert_eq!(client.receive(b"PI"), vec![]);
    assert_eq!(client.receive(b"NG :a"), vec![]);
    assert_eq!(
        client.receive(b"b\r\nPING :second\r\nPING :thi"),
        vec![send("PONG :ab\r\n"), send("PONG :second\r\n")]
    );
    assert_eq!(client.receive(b""), vec![]);
    assert_eq!(client.receive(b"rd\n"), vec![send("PONG :third\r\n")]);
    assert_eq!(client.receive(b"\n\r\n"), vec![]);
}

#[test]
fn pending_bytes_outlive_a_reconnection() {
    let mut client = connected();
    assert_eq!(client.receive(b"PING :a"), vec![]);
    client.step(Event::Closed);
    assert_eq!(client.receive(b"b\n"), vec![]);
    client.step(Event::DelayElapsed);
    client.step(Event::Connected);
    assert_eq!(client.receive(b"c\n"), vec![send("PONG :ac\r\n")]);
}

#[test]
fn bytes_are_taken_on_a_connection_only() {
    let mut client = client();
    assert_eq!(client.receive(b"PING :x\r\n"), vec![]);
    client.step(Event::Start);
    assert_eq!(client.receive(b"PING :x\r\n"), vec![]);
    client.step(Event::Connected);
    assert_eq!(client.receive(b"PING :y\r\n"), vec![send("PONG :y\r\n")]);
}

#[test]
fn chat_commands_move_counters_and_report() {
    let mut client = connected();
    assert_eq!(
        client.receive(b":nick!u@h PRIVMSG #zot :++Foo::Bar\r\n"),
        vec![send("PRIVMSG #zot :Foo::Bar = 1\r\n")]
    );
    assert_eq!(
        client.receive(b":nick!u@h PRIVMSG #zot :foo.bar++ // again\r\n"),
        vec![send("PRIVMSG #zot :foo.bar = 2\r\n")]
    );
    assert_eq!(
        client.receive(b":other!u@h PRIVMSG #rust :?FOO->BAR\r\n"),
        vec![send("PRIVMSG #rust :FOO->BAR = 2\r\n")]
    );
    assert_eq!(
        client.receive(b":nick!u@h PRIVMSG #zot :--baz;\r\n:nick!u@h PRIVMSG #zot :--baz\r\n"),
        vec![send("PRIVMSG #zot :baz = -1\r\n"), send("PRIVMSG #zot :baz = -2\r\n")]
    );
    assert_eq!(client.db().value("foo.bar"), 2);
    assert_eq!(client.db().value("baz"), -2);
    assert!(client.db().is_dirty());
}

#[test]
fn chat_without_a_command_is_passed_over() {
    let mut client = connected();
    assert_eq!(client.receive(b":nick!u@h PRIVMSG #zot :hello there\r\n"), vec![]);
    assert_eq!(client.receive(b":nick!u@h PRIVMSG #zot :I like c++ a lot\r\n"), vec![]);
    assert_eq!(client.receive(b":nick!u@h PRIVMSG #zot\r\n"), vec![]);
    assert_eq!(client.receive(b"PRIVMSG #zot :++foo\r\n"), vec![]);
    assert_eq!(client.receive(b":nick!u@h NOTICE #zot :++foo\r\n"), vec![]);
    assert!(!client.db().is_dirty());
    assert_eq!(client.db().value("foo"), 0);
}

#[test]
fn chat_text_may_come_without_a_colon() {
    let mut client = connected();
    assert_eq!(
        client.receive(b":nick!u@h PRIVMSG #zot ++foo\r\n"),
        vec![send("PRIVMSG #zot :foo = 1\r\n")]
    );
    assert_eq!(
        client.receive(b":nick!u@h PRIVMSG #zot ?foo ignored\r\n"),
        vec![send("PRIVMSG #zot :foo = 1\r\n")]
    );
}

#[test]
fn query_leaves_the_store_clean() {
    let mut client = IrcClient::new("zot.db", Some(b"a.b:41\n"), "irc.example:6667", "rot");
    client.step(Event::Start);
    client.step(Event::Connected);
    assert_eq!(
        client.receive(b":n PRIVMSG #zot :?A::B\r\n"),
        vec![send("PRIVMSG #zot :A::B = 41\r\n")]
    );
    assert!(!client.db().is_dirty());
    assert_eq!(client.step(Event::SaveTimer), vec![]);
}

#[test]
fn counter_at_the_limit_stays_there() {
    let file = b"top:9223372036854775807\nbottom:-9223372036854775808\n";
    let mut client = IrcClient::new("zot.db", Some(file), "irc.example:6667", "rot");
    client.step(Event::Start);
    client.step(Event::Connected);
    assert_eq!(
        client.receive(b":n PRIVMSG #zot :++top\r\n"),
        vec![send("PRIVMSG #zot :top = 9223372036854775807\r\n")]
    );
    assert_eq!(
        client.receive(b":n PRIVMSG #zot :bottom--\r\n"),
        vec![send("PRIVMSG #zot :bottom = -9223372036854775808\r\n")]
    );
    assert!(!client.db().is_dirty());
    assert_eq!(
        client.receive(b":n PRIVMSG #zot :--top\r\n"),
        vec![send("PRIVMSG #zot :top = 9223372036854775806\r\n")]
    );
    assert!(client.db().is_dirty());
}

#[test]
fn flush_timer_is_idle_while_the_store_is_clean() {
    let mut client = connected();
    assert_eq!(client.step(Event::SaveTimer), vec![]);
    assert_eq!(client.step(Event::SaveTimer), vec![]);
    assert_eq!(client.phase(), Phase::Connected);
    assert_eq!(client.ping_state(), PingState::Waiting);
}

#[test]
fn flush_timer_writes_a_dirty_store_until_the_write_succeeds() {
    let mut client = connected();
    client.receive(b":n PRIVMSG #zot :++a\r\n:n PRIVMSG #zot :--B::c\r\n");
    let write = vec![Action::WriteStore(b"a:1\nb.c:-1\n".to_vec())];
    assert_eq!(client.step(Event::SaveTimer), write);
    assert_eq!(client.step(Event::Flushed(false)), vec![]);
    assert!(client.db().is_dirty());
    assert_eq!(client.step(Event::SaveTimer), write);
    assert_eq!(client.step(Event::Flushed(true)), vec![]);
    assert!(!client.db().is_dirty());
    assert_eq!(client.step(Event::SaveTimer), vec![]);
}

#[test]
fn shutdown_says_goodbye_and_flushes() {
    let mut client = connected();
    client.receive(b":n PRIVMSG #zot :++a\r\n");
    assert_eq!(
        client.step(Event::Shutdown),
        vec![send("QUIT :--rot!\r\n"), Action::WriteStore(b"a:1\n".to_vec())]
    );
    assert_eq!(client.phase(), Phase::ShuttingDown);
    assert_eq!(client.step(Event::Flushed(true)), vec![]);
    assert!(!client.db().is_dirty());
    assert_eq!(client.step(Event::SaveTimer), vec![]);
    assert_eq!(client.receive(b"PING :x\r\n"), vec![]);
}

#[test]
fn shutdown_of_a_clean_connected_session_only_says_goodbye() {
    let mut client = connected();
    assert_eq!(client.step(Event::Shutdown), vec![send("QUIT :--rot!\r\n")]);
}

#[test]
fn shutdown_before_the_start_flushes_only() {
    let mut client = client();
    assert_eq!(client.step(Event::Shutdown), vec![]);
    assert_eq!(client.phase(), Phase::ShuttingDown);
}

#[test]
fn trailing_white_space_of_a_line_is_dropped() {
    let mut client = connected();
    assert_eq!(client.receive(b"PING :a b \t\r\n"), vec![send("PONG :a b\r\n")]);
    assert_eq!(
        client.receive(b":n PRIVMSG #zot :++foo   \r\n"),
        vec![send("PRIVMSG #zot :foo = 1\r\n")]
    );
}

#[test]
fn bytes_that_are_not_utf8_are_replaced_in_what_is_echoed() {
    let mut client = connected();
    assert_eq!(client.receive(b"PING :a\xffb\r\n"), vec![send("PONG :a\u{fffd}b\r\n")]);
}
