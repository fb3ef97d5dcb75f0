use regex::Regex;
use rot::line_parse::{parse_line, parsed_from, ParsedLine};

#[test]
fn test_parser() {
    assert_eq!(parse_line(""), ParsedLine::Nothing);
    assert_eq!(parse_line("Hello, world!"), ParsedLine::Nothing);
    assert_eq!(parse_line("// ++empty"), ParsedLine::Nothing);
    assert_eq!(parse_line("// --empty"), ParsedLine::Nothing);
    assert_eq!(parse_line("// ?empty"), ParsedLine::Nothing);
    assert_eq!(parse_line("/* ++empty */"), ParsedLine::Nothing);
    assert_eq!(parse_line("/* --empty */"), ParsedLine::Nothing);
    assert_eq!(parse_line("/* ?empty */"), ParsedLine::Nothing);

    assert_eq!(parse_line("++foo"), ParsedLine::Increment("foo".to_string()));
    assert_eq!(parse_line("foo++"), ParsedLine::Increment("foo".to_string()));
    assert_eq!(parse_line("--foo"), ParsedLine::Decrement("foo".to_string()));
    assert_eq!(parse_line("foo--"), ParsedLine::Decrement("foo".to_string()));
    assert_eq!(parse_line("?foo"), ParsedLine::Query("foo".to_string()));

    assert_eq!(parse_line("++Foo::Bar"), ParsedLine::Increment("Foo::Bar".to_string()));
    assert_eq!(parse_line("++Foo->Bar"), ParsedLine::Increment("Foo->Bar".to_string()));
    assert_eq!(parse_line("++Foo.Bar"), ParsedLine::Increment("Foo.Bar".to_string()));
    assert_eq!(parse_line("++Foo..Bar"), ParsedLine::Nothing);
    assert_eq!(parse_line("++Foo:Bar"), ParsedLine::Nothing);
    assert_eq!(parse_line("++Foo:::Bar"), ParsedLine::Nothing);
    assert_eq!(parse_line("++Foo :: Bar"), ParsedLine::Nothing);
    assert_eq!(parse_line("++Foo: :Bar"), ParsedLine::Nothing);
    assert_eq!(parse_line("+ +Foo::Bar"), ParsedLine::Nothing);
    assert_eq!(parse_line("+Foo::Bar"), ParsedLine::Nothing);
    assert_eq!(parse_line("+-Foo::Bar"), ParsedLine::Nothing);

    assert_eq!(parse_line("Foo::Bar++"), ParsedLine::Increment("Foo::Bar".to_string()));
    assert_eq!(parse_line("Foo->Bar++"), ParsedLine::Increment("Foo->Bar".to_string()));
    assert_eq!(parse_line("Foo.Bar++"), ParsedLine::Increment("Foo.Bar".to_string()));
    assert_eq!(parse_line("Foo..Bar++"), ParsedLine::Nothing);
    assert_eq!(parse_line("Foo:Bar++"), ParsedLine::Nothing);
    assert_eq!(parse_line("Foo:::Bar++"), ParsedLine::Nothing);
    assert_eq!(parse_line("Foo :: Bar++"), ParsedLine::Nothing);
    assert_eq!(parse_line("Foo: :Bar++"), ParsedLine::Nothing);
    assert_eq!(parse_line("Foo::Bar+ +"), ParsedLine::Nothing);
    assert_eq!(parse_line("Foo::Bar+"), ParsedLine::Nothing);
    assert_eq!(parse_line("Foo::Bar+-"), ParsedLine::Nothing);

    assert_eq!(parse_line("  ++  foo  "), ParsedLine::Increment("foo".to_string()));
    assert_eq!(parse_line("  foo  ++  "), ParsedLine::Increment("foo".to_string()));
    assert_eq!(parse_line("  --  foo  "), ParsedLine::Decrement("foo".to_string()));
    assert_eq!(parse_line("  foo  --  "), ParsedLine::Decrement("foo".to_string()));
    assert_eq!(parse_line("  ?  foo  "), ParsedLine::Query("foo".to_string()));

    assert_eq!(parse_line(" /* junk */ ++ /* junk */ foo /* junk */ // junk"),
               ParsedLine::Increment("foo".to_string()));
    assert_eq!(parse_line(" /* junk */ foo /* junk */ ++ /* junk */ // junk"),
               ParsedLine::Increment("foo".to_string()));
    assert_eq!(parse_line(" /* junk */ -- /* junk */ foo /* junk */ // junk"),
               ParsedLine::Decrement("foo".to_string()));
    assert_eq!(parse_line(" /* junk */ foo /* junk */ -- /* junk */ // junk"),
               ParsedLine::Decrement("foo".to_string()));
    assert_eq!(parse_line(" /* junk */ ? /* junk */ foo /* junk */ // junk"),
               ParsedLine::Query("foo".to_string()));
    assert_eq!(parse_line("/*junk*/++/*junk*/foo::bar/*junk*///junk"),
               ParsedLine::Increment("foo::bar".to_string()));
    assert_eq!(parse_line("+/* junk */+foo:/* junk */:bar // junk"),
               ParsedLine::Increment("foo::bar".to_string()));
}

#[test]
fn postfix_query_is_no_command() {
    assert_eq!(parse_line("foo?"), ParsedLine::Nothing);
    assert_eq!(parse_line("foo ?"), ParsedLine::Nothing);
    assert_eq!(parse_line("Foo::Bar?"), ParsedLine::Nothing);
}

#[test]
fn comments_on_both_sides_of_the_operator() {
    assert_eq!(
        parse_line("/*x*/++/*x*/foo::bar/*x*/ //x"),
        ParsedLine::Increment("foo::bar".to_string())
    );
}

#[test]
fn identifier_is_kept_as_written() {
    assert_eq!(parse_line("++Foo::Bar"), ParsedLine::Increment("Foo::Bar".to_string()));
    assert_eq!(parse_line("?A->b.C_9"), ParsedLine::Query("A->b.C_9".to_string()));
    assert_eq!(parse_line("_x1--"), ParsedLine::Decrement("_x1".to_string()));
}

#[test]
fn trailing_semicolons_and_space() {
    assert_eq!(parse_line("++foo;"), ParsedLine::Increment("foo".to_string()));
    assert_eq!(parse_line("foo++ ;; ; "), ParsedLine::Increment("foo".to_string()));
    assert_eq!(parse_line(";++foo"), ParsedLine::Nothing);
    assert_eq!(parse_line("++foo; bar"), ParsedLine::Nothing);
    assert_eq!(parse_line("foo;++"), ParsedLine::Nothing);
}

#[test]
fn identifiers_start_with_a_letter_or_underscore() {
    assert_eq!(parse_line("++9lives"), ParsedLine::Nothing);
    assert_eq!(parse_line("++a.9"), ParsedLine::Nothing);
    assert_eq!(parse_line("++a."), ParsedLine::Nothing);
    assert_eq!(parse_line("++a->"), ParsedLine::Nothing);
    assert_eq!(parse_line("++a9._b"), ParsedLine::Increment("a9._b".to_string()));
}

#[test]
fn unicode_white_space_counts_as_space() {
    assert_eq!(parse_line("\u{a0}++\u{2003}foo\u{3000}"), ParsedLine::Increment("foo".to_string()));
    assert_eq!(parse_line("foo\u{85}--\u{2028}"), ParsedLine::Decrement("foo".to_string()));
    assert_eq!(parse_line("\u{200b}++foo"), ParsedLine::Nothing);
}

#[test]
fn block_comment_reaches_the_last_close_before_another_opens() {
    // The body may hold `*/` where no comment opens after it.
    assert_eq!(parse_line("/* a */ ++foo */"), ParsedLine::Nothing);
    assert_eq!(parse_line("++foo /* a */ b */"), ParsedLine::Increment("foo".to_string()));
    // An unclosed comment is ordinary text.
    assert_eq!(parse_line("++foo /* a"), ParsedLine::Nothing);
    assert_eq!(parse_line("/*/ ++foo"), ParsedLine::Nothing);
    assert_eq!(parse_line("/**/++foo"), ParsedLine::Increment("foo".to_string()));
}

#[test]
fn line_comment_ends_at_the_line_feed() {
    assert_eq!(parse_line("++foo // bar\n"), ParsedLine::Increment("foo".to_string()));
    assert_eq!(parse_line("// bar\n++foo"), ParsedLine::Increment("foo".to_string()));
    assert_eq!(parse_line("++foo // bar\nbaz"), ParsedLine::Nothing);
}

#[test]
fn parsed_from_maps_each_operator() {
    assert_eq!(parsed_from("++", "a"), ParsedLine::Increment("a".to_string()));
    assert_eq!(parsed_from("--", "a"), ParsedLine::Decrement("a".to_string()));
    assert_eq!(parsed_from("?", "a"), ParsedLine::Query("a".to_string()));
    assert_eq!(parsed_from("+", "a"), ParsedLine::Nothing);
    assert_eq!(parsed_from("", "a"), ParsedLine::Nothing);
    assert_eq!(parsed_from("+++", "a"), ParsedLine::Nothing);
}

fn by_patterns(clean: &Regex, pre: &Regex, post: &Regex, line: &str) -> ParsedLine {
    let text = clean.replace_all(line, "");
    if let Some(caps) = pre.captures(&text) {
        parsed_from(&caps[1], &caps[2])
    } else if let Some(caps) = post.captures(&text) {
        parsed_from(&caps[2], &caps[1])
    } else {
        ParsedLine::Nothing
    }
}

fn patterns() -> (Regex, Regex, Regex) {
    let ident = r"[A-Za-z_][A-Za-z0-9_]*(?:(?:\.|->|::)[A-Za-z_][A-Za-z0-9_]*)*";
    (
        Regex::new(r"(?:/\*(?:[^/]|/[^*])*\*/|//.*)").unwrap(),
        Regex::new(&format!(r"^\s*(\+\+|--|\?)\s*({})[\s;]*$", ident)).unwrap(),
        Regex::new(&format!(r"^\s*({})\s*(\+\+|--)[\s;]*$", ident)).unwrap(),
    )
}

const ALPHABET: [char; 15] =
    ['+', '-', '?', '/', '*', ' ', 'a', 'Z', '_', '7', '.', ':', '>', ';', '\n'];

#[test]
fn agrees_with_the_patterns_on_every_short_line() {
    let (clean, pre, post) = patterns();
    let n = ALPHABET.len();
    for len in 0..=4u32 {
        for code in 0..n.pow(len) {
            let mut line = String::new();
            let mut rest = code;
            for _ in 0..len {
                line.push(ALPHABET[rest % n]);
                rest /= n;
            }
            assert_eq!(parse_line(&line), by_patterns(&clean, &pre, &post, &line), "{:?}", line);
        }
    }
}

#[test]
fn agrees_with_the_patterns_on_longer_lines() {
    let (clean, pre, post) = patterns();
    let pieces = [
        "++", "--", "?", "/*", "*/", "//", "/", "*", " ", "\t", "foo", "Bar", "_", "9", ".", "::",
        "->", ":", ">", "-", "+", ";", "\n", "\r", "\u{a0}", "\u{2003}", "\u{e9}", "x",
    ];
    let mut state: u64 = 0x2545_f491_4f6c_dd1d;
    for _ in 0..20000 {
        let mut line = String::new();
        state = state.wrapping_mul(6364136223846793005).wrapping_add(1442695040888963407);
        let count = (state >> 33) % 9;
        for _ in 0..count {
            state = state.wrapping_mul(6364136223846793005).wrapping_add(1442695040888963407);
            line.push_str(pieces[((state >> 33) % pieces.len() as u64) as usize]);
        }
        assert_eq!(parse_line(&line), by_patterns(&clean, &pre, &post, &line), "{:?}", line);
    }
}

#[test]
fn agrees_with_the_patterns_on_what_counts_as_space() {
    let (clean, pre, post) = patterns();
    for code in 0..0x3100u32 {
        if let Some(c) = char::from_u32(code) {
            for line in [format!("{}++foo", c), format!("foo{}--", c), format!("?foo{}", c)] {
                assert_eq!(parse_line(&line), by_patterns(&clean, &pre, &post, &line), "{:?}", line);
            }
            let spaced = format!("++{}foo", c);
            assert_eq!(
                parse_line(&spaced) == ParsedLine::Increment("foo".to_string()),
                c.is_whitespace(),
                "{:?}",
                c
            );
        }
    }
}
