use rot::rotdb::{normalize_key, parse_db_line, LineError, RotDb};

#[test]
fn test_rotdb() {
    let stored;
    {
        // Start from a clean slate
        let mut db = RotDb::new("test.db", None);
        assert_eq!(db.increment("Foo::Bar"), 1);
        assert_eq!(db.decrement("Bar.foo"), -1);
        assert_eq!(db.value("Foo.BAR"), 1);
        assert_eq!(db.value("bar->foo"), -1);
        assert_eq!(db.value("Baz"), 0);
        assert_eq!(db.decrement("foo::bar"), 0);
        assert_eq!(db.increment("Foo::Bar"), 1);
        stored = db.sync().expect("a changed store has something to write");
        db.flushed(true);
    }
    {
        // Load previous database
        let db = RotDb::new("test.db", Some(&stored));
        assert_eq!(db.value("Foo.BAR"), 1);
        assert_eq!(db.value("bar->foo"), -1);
        assert_eq!(db.value("Baz"), 0);
    }
}

#[test]
fn normalization_joins_scopes_and_lowers_case() {
    assert_eq!(normalize_key("Foo::Bar"), "foo.bar");
    assert_eq!(normalize_key("foo.bar"), "foo.bar");
    assert_eq!(normalize_key("FOO->BAR"), "foo.bar");
    assert_eq!(normalize_key("Foo::Bar"), normalize_key("foo.bar"));
    assert_eq!(normalize_key("foo.bar"), normalize_key("FOO->BAR"));
}

#[test]
fn normalization_is_idempotent() {
    for key in ["Foo::Bar", "a:::b", "-->x", ":->:", "A->B::C.d", "", ":", "É::é", "x-:>y"] {
        let once = normalize_key(key);
        assert_eq!(normalize_key(&once), once, "{:?}", key);
    }
}

#[test]
fn normalization_takes_separators_from_the_left() {
    assert_eq!(normalize_key(":::"), ".:");
    assert_eq!(normalize_key("::::"), "..");
    assert_eq!(normalize_key("-->"), "-.");
    assert_eq!(normalize_key("->>"), ".>");
    assert_eq!(normalize_key("a:b"), "a:b");
    assert_eq!(normalize_key("a-b>c"), "a-b>c");
}

#[test]
fn normalization_lowers_ascii_letters_only() {
    assert_eq!(normalize_key("AZaz09_"), "azaz09_");
    assert_eq!(normalize_key("ÀÉ@["), "ÀÉ@[");
}

#[test]
fn normalization_agrees_with_the_standard_functions() {
    for key in ["Foo::Bar", "a:::b", "-->x", "A->B::C.d", "::->::", "x-:>y", "ÀB->c"] {
        let expected = key.replace("::", "\u{0}").replace("->", "\u{0}");
        // Replacing one separator after the other is the same only where
        // they do not overlap; these keys are chosen so.
        let expected = expected.replace('\u{0}', ".").to_ascii_lowercase();
        if !key.contains(":->") && !key.contains("-::") && !key.contains(":::") {
            assert_eq!(normalize_key(key), expected, "{:?}", key);
        }
    }
}

#[test]
fn fresh_counter_starts_from_zero() {
    let mut db = RotDb::new("counters", None);
    assert_eq!(db.value("fresh"), 0);
    assert_eq!(db.increment("fresh"), 1);
    assert_eq!(db.decrement("fresh"), 0);
    assert_eq!(db.value("fresh"), 0);
    assert_eq!(db.decrement("other"), -1);
}

#[test]
fn value_of_a_key_and_of_its_normal_form() {
    let mut db = RotDb::new("counters", None);
    db.increment("Foo::Bar");
    db.increment("Foo::Bar");
    for key in ["Foo::Bar", "foo.bar", "FOO->BAR", "fOO.bAR"] {
        assert_eq!(db.value(key), db.value(&normalize_key(key)));
        assert_eq!(db.value(key), 2);
    }
}

#[test]
fn value_leaves_the_store_clean() {
    let db = RotDb::new("counters", Some(b"a:1\n"));
    assert_eq!(db.value("a"), 1);
    assert_eq!(db.value("b"), 0);
    assert!(!db.is_dirty());
    assert_eq!(db.sync(), None);
}

#[test]
fn sync_is_idle_while_the_store_is_clean() {
    let mut db = RotDb::new("counters", None);
    assert!(!db.is_dirty());
    assert_eq!(db.sync(), None);
    db.increment("a");
    assert!(db.is_dirty());
    assert_eq!(db.sync(), Some(b"a:1\n".to_vec()));
    db.flushed(false);
    assert!(db.is_dirty());
    assert_eq!(db.sync(), Some(b"a:1\n".to_vec()));
    db.flushed(true);
    assert!(!db.is_dirty());
    assert_eq!(db.sync(), None);
    db.flushed(true);
    assert!(!db.is_dirty());
}

#[test]
fn a_mutation_that_restores_a_value_still_marks_dirty() {
    let mut db = RotDb::new("counters", Some(b"a:1\n"));
    db.increment("a");
    db.decrement("a");
    assert!(db.is_dirty());
    assert_eq!(db.sync(), Some(b"a:1\n".to_vec()));
}

#[test]
fn store_file_lists_counters_in_order_of_arrival() {
    let mut db = RotDb::new("counters", None);
    db.increment("b");
    db.decrement("A::x");
    db.increment("b");
    db.decrement("c");
    db.decrement("c");
    assert_eq!(db.sync(), Some(b"b:2\na.x:-1\nc:-2\n".to_vec()));
    assert_eq!(db.filename(), "counters");
}

#[test]
fn load_passes_over_lines_without_a_counter() {
    let file = b"a:1\nno colon here\nb:x\n\nc:-3\r\n:4\nd:5:6\ne:+7\n\xff:8\nf:9";
    let db = RotDb::new("counters", Some(file));
    assert_eq!(db.value("a"), 1);
    assert_eq!(db.value("b"), 0);
    assert_eq!(db.value("c"), -3);
    assert_eq!(db.value(""), 4);
    assert_eq!(db.value("d"), 0);
    assert_eq!(db.value("e"), 7);
    assert_eq!(db.value("f"), 9);
    assert!(!db.is_dirty());
}

#[test]
fn load_keeps_the_later_of_two_lines_with_one_key() {
    let mut db = RotDb::new("counters", Some(b"a:1\nb:2\na:3\n"));
    assert_eq!(db.value("a"), 3);
    db.increment("c");
    assert_eq!(db.sync(), Some(b"a:3\nb:2\nc:1\n".to_vec()));
}

#[test]
fn load_takes_keys_as_they_are_written() {
    let db = RotDb::new("counters", Some(b"Foo:1\nfoo:2\n"));
    assert_eq!(db.value("Foo"), 2);
    assert_eq!(db.value("foo"), 2);
}

#[test]
fn load_keeps_a_carriage_return_that_no_line_feed_follows() {
    let db = RotDb::new("counters", Some(b"a:1\r\nb:2\r"));
    assert_eq!(db.value("a"), 1);
    assert_eq!(db.value("b"), 0);
}

#[test]
fn store_round_trip_reproduces_every_counter() {
    let mut db = RotDb::new("counters", None);
    for key in ["Foo::Bar", "x", "a.b.c", "É->é", "x", "Foo.bar", "_9"] {
        db.increment(key);
    }
    for _ in 0..5 {
        db.decrement("neg");
    }
    let stored = db.sync().unwrap();
    let back = RotDb::new("counters", Some(&stored));
    for key in ["Foo::Bar", "x", "a.b.c", "É->é", "_9", "neg", "absent"] {
        assert_eq!(back.value(key), db.value(key), "{:?}", key);
    }
    let mut again = back;
    again.increment("x");
    again.decrement("x");
    assert_eq!(again.sync(), Some(stored));
}

#[test]
fn parse_db_line_tells_why_a_line_fails() {
    assert_eq!(parse_db_line(b"a.b:12"), Ok(("a.b".to_string(), 12)));
    assert_eq!(parse_db_line(b":-1"), Ok(("".to_string(), -1)));
    assert_eq!(parse_db_line(b""), Err(LineError::Format));
    assert_eq!(parse_db_line(b"abc"), Err(LineError::Format));
    assert_eq!(parse_db_line(b"\xc3:1"), Err(LineError::Key));
    assert_eq!(parse_db_line(b"a:"), Err(LineError::Value));
    assert_eq!(parse_db_line(b"a:1:2"), Err(LineError::Value));
    assert_eq!(parse_db_line(b"a: 1"), Err(LineError::Value));
    assert_eq!(parse_db_line(b"a:9223372036854775808"), Err(LineError::Value));
    assert_eq!(parse_db_line("clé:5".as_bytes()), Ok(("clé".to_string(), 5)));
}

#[test]
fn rejected_lines_lists_what_load_passes_over() {
    let file = b"a:1\nno colon here\nb:x\n\nc:-3\r\n\xff:8\nd:5:6\r\nf:9";
    assert_eq!(
        rot::rotdb::rejected_lines(file),
        vec![
            (b"no colon here".to_vec(), LineError::Format),
            (b"b:x".to_vec(), LineError::Value),
            (b"".to_vec(), LineError::Format),
            (b"\xff:8".to_vec(), LineError::Key),
            (b"d:5:6".to_vec(), LineError::Value),
        ]
    );
    assert_eq!(rot::rotdb::rejected_lines(b""), vec![]);
    assert_eq!(rot::rotdb::rejected_lines(b"a:1\nb:2\n"), vec![]);
    assert_eq!(rot::rotdb::rejected_lines(b"\n"), vec![(vec![], LineError::Format)]);
}

#[test]
fn a_key_with_a_colon_does_not_survive_the_round_trip() {
    let mut db = RotDb::new("counters", None);
    assert_eq!(db.increment("a:b"), 1);
    let stored = db.sync().unwrap();
    assert_eq!(stored, b"a:b:1\n".to_vec());
    let back = RotDb::new("counters", Some(&stored));
    assert_eq!(back.value("a:b"), 0);
    assert_eq!(back.value("a"), 0);
}
