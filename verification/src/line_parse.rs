//! The command parser: from a line of chat text to the counter command it
//! holds, if any.
//!
//! A command is an operator and an identifier, `++name`, `--name`, `?name`,
//! `name++` or `name--`, alone on the line but for white space, semicolons
//! and comments. The whole line has to be a command: text around it makes the
//! line say nothing.

use vstd::prelude::*;
use crate::text::{from_chars, to_chars};

verus! {

/// What a line of text asks for.
#[derive(Debug, PartialEq, Eq)]
pub enum ParsedLine {
    Nothing,
    Increment(String),
    Decrement(String),
    Query(String),
}

/// A `ParsedLine` as a mathematical value: the identifier is the text as it
/// was written.
pub enum Command {
    Nothing,
    Increment(Seq<char>),
    Decrement(Seq<char>),
    Query(Seq<char>),
}

impl View for ParsedLine {
    type V = Command;

    open spec fn view(&self) -> Command {
        match self {
            ParsedLine::Nothing => Command::Nothing,
            ParsedLine::Increment(ident) => Command::Increment(ident@),
            ParsedLine::Decrement(ident) => Command::Decrement(ident@),
            ParsedLine::Query(ident) => Command::Query(ident@),
        }
    }
}

/// The command that operator `op` makes of `ident`: `++` increments, `--`
/// decrements, `?` queries, and any other text is no operator.
pub open spec fn command_of(op: Seq<char>, ident: Seq<char>) -> Command {
    if op == seq!['+', '+'] {
        Command::Increment(ident)
    } else if op == seq!['-', '-'] {
        Command::Decrement(ident)
    } else if op == seq!['?'] {
        Command::Query(ident)
    } else {
        Command::Nothing
    }
}

/// White space: the characters that Unicode classes as `White_Space`.
pub open spec fn is_space(c: char) -> bool {
    ||| ('\u{9}' <= c && c <= '\u{d}')
    ||| c == ' '
    ||| c == '\u{85}'
    ||| c == '\u{a0}'
    ||| c == '\u{1680}'
    ||| ('\u{2000}' <= c && c <= '\u{200a}')
    ||| c == '\u{2028}'
    ||| c == '\u{2029}'
    ||| c == '\u{202f}'
    ||| c == '\u{205f}'
    ||| c == '\u{3000}'
}

/// What may follow a command: white space and semicolons.
pub open spec fn is_padding(c: char) -> bool {
    is_space(c) || c == ';'
}

/// A character that may start a segment of an identifier.
pub open spec fn is_ident_start(c: char) -> bool {
    ('A' <= c && c <= 'Z') || ('a' <= c && c <= 'z') || c == '_'
}

/// A character that may continue a segment of an identifier.
pub open spec fn is_ident_char(c: char) -> bool {
    is_ident_start(c) || ('0' <= c && c <= '9')
}

/// `->` or `::`, the two-character separators of an identifier's segments.
pub open spec fn is_pair_separator(a: char, b: char) -> bool {
    (a == '-' && b == '>') || (a == ':' && b == ':')
}

/// Where a run of characters other than line feeds ends, from `i` on.
pub open spec fn line_end(s: Seq<char>, i: int) -> int
    decreases s.len() - i,
{
    if 0 <= i < s.len() && s[i] != '\n' {
        line_end(s, i + 1)
    } else {
        i
    }
}

/// Where the block comment ends whose body starts at `i`: just after the
/// last `*/` that the body can reach. The body is read in steps, either one
/// character other than `/`, or a `/` with the character after it, which is
/// not `*`. Hence a body never runs over the start of another block comment,
/// and where several `*/` can be reached the comment takes them all in.
/// `None` where no `*/` can be reached.
pub open spec fn block_close(s: Seq<char>, i: int) -> Option<int>
    decreases s.len() - i,
{
    if i < 0 || i >= s.len() {
        None
    } else if s[i] == '/' {
        if i + 1 < s.len() && s[i + 1] != '*' {
            block_close(s, i + 2)
        } else {
            None
        }
    } else {
        match block_close(s, i + 1) {
            Some(end) => Some(end),
            None => if s[i] == '*' && i + 1 < s.len() && s[i + 1] == '/' {
                Some(i + 2)
            } else {
                None
            },
        }
    }
}

/// Where the comment ends that starts at `i`; `i` itself where none starts
/// there. A block comment is `/*`, a body and `*/`. A line comment is `//`
/// and the rest of the line. An unclosed `/*` starts no comment.
pub open spec fn comment_end(s: Seq<char>, i: int) -> int {
    if 0 <= i && i + 1 < s.len() && s[i] == '/' && s[i + 1] == '*' {
        match block_close(s, i + 2) {
            Some(end) => end,
            None => i,
        }
    } else if 0 <= i && i + 1 < s.len() && s[i] == '/' && s[i + 1] == '/' {
        line_end(s, i + 2)
    } else {
        i
    }
}

/// `line_end` stays within the text.
pub proof fn lemma_line_end_bounds(s: Seq<char>, i: int)
    requires
        0 <= i <= s.len(),
    ensures
        i <= line_end(s, i) <= s.len(),
    decreases s.len() - i,
{
    if i < s.len() && s[i] != '\n' {
        lemma_line_end_bounds(s, i + 1);
    }
}

/// A block comment's end lies after its body's start, within the text.
pub proof fn lemma_block_close_bounds(s: Seq<char>, i: int)
    requires
        0 <= i,
    ensures
        block_close(s, i) matches Some(end) ==> i + 2 <= end <= s.len(),
    decreases s.len() - i,
{
    if i < s.len() {
        if s[i] == '/' {
            if i + 1 < s.len() && s[i + 1] != '*' {
                lemma_block_close_bounds(s, i + 2);
            }
        } else {
            lemma_block_close_bounds(s, i + 1);
        }
    }
}

/// A comment ends within the text, and not before it starts.
pub proof fn lemma_comment_end_bounds(s: Seq<char>, i: int)
    requires
        0 <= i <= s.len(),
    ensures
        i <= comment_end(s, i) <= s.len(),
{
    if i + 1 < s.len() {
        lemma_block_close_bounds(s, i + 2);
        lemma_line_end_bounds(s, i + 2);
    }
}

/// The text of `s` from `i` on without its comments, taken from left to
/// right.
pub open spec fn strip_from(s: Seq<char>, i: int) -> Seq<char>
    decreases s.len() - i,
{
    if i < 0 || i >= s.len() {
        Seq::empty()
    } else if comment_end(s, i) > i {
        proof {
            lemma_comment_end_bounds(s, i);
        }
        strip_from(s, comment_end(s, i))
    } else {
        seq![s[i]] + strip_from(s, i + 1)
    }
}

/// `s` without its comments.
pub open spec fn strip_comments(s: Seq<char>) -> Seq<char> {
    strip_from(s, 0)
}

/// The first position from `i` on that holds no white space.
pub open spec fn skip_spaces(t: Seq<char>, i: int) -> int
    decreases t.len() - i,
{
    if 0 <= i < t.len() && is_space(t[i]) {
        skip_spaces(t, i + 1)
    } else {
        i
    }
}

/// Where an identifier ends, read from `i`, a position inside it after the
/// first character of a segment. A segment goes on over letters, digits and
/// underscores. A separator, `.`, `->` or `::`, belongs to the identifier
/// only where a new segment starts right after it.
pub open spec fn ident_tail(t: Seq<char>, i: int) -> int
    decreases t.len() - i,
{
    if i < 0 || i >= t.len() {
        i
    } else if is_ident_char(t[i]) {
        ident_tail(t, i + 1)
    } else if t[i] == '.' && i + 1 < t.len() && is_ident_start(t[i + 1]) {
        ident_tail(t, i + 2)
    } else if i + 2 < t.len() && is_pair_separator(t[i], t[i + 1]) && is_ident_start(t[i + 2]) {
        ident_tail(t, i + 3)
    } else {
        i
    }
}

/// Where the identifier ends that starts at `i`; `None` where none starts
/// there.
pub open spec fn ident_end(t: Seq<char>, i: int) -> Option<int> {
    if 0 <= i < t.len() && is_ident_start(t[i]) {
        Some(ident_tail(t, i + 1))
    } else {
        None
    }
}

/// The length of the operator at `i`: 2 for `++` and `--`, 1 for `?` where
/// `query` says that it counts, 0 where no operator stands.
pub open spec fn operator_len(t: Seq<char>, i: int, query: bool) -> int {
    if 0 <= i && i + 1 < t.len() && ((t[i] == '+' && t[i + 1] == '+') || (t[i] == '-' && t[i + 1]
        == '-')) {
        2
    } else if query && 0 <= i < t.len() && t[i] == '?' {
        1
    } else {
        0
    }
}

/// From `i` to the end there is nothing but white space and semicolons.
pub open spec fn only_padding(t: Seq<char>, i: int) -> bool {
    forall|j: int| i <= j < t.len() ==> is_padding(#[trigger] t[j])
}

/// The command in prefix form that `t` is: white space, an operator, white
/// space, an identifier, padding. `None` where `t` is not of that form.
pub open spec fn prefix_form(t: Seq<char>) -> Option<Command> {
    let a = skip_spaces(t, 0);
    let n = operator_len(t, a, true);
    let b = skip_spaces(t, a + n);
    if n == 0 {
        None
    } else {
        match ident_end(t, b) {
            Some(c) => if only_padding(t, c) {
                Some(command_of(t.subrange(a, a + n), t.subrange(b, c)))
            } else {
                None
            },
            None => None,
        }
    }
}

/// The command in postfix form that `t` is: white space, an identifier,
/// white space, `++` or `--`, padding. `None` where `t` is not of that form.
pub open spec fn postfix_form(t: Seq<char>) -> Option<Command> {
    let a = skip_spaces(t, 0);
    match ident_end(t, a) {
        Some(b) => {
            let c = skip_spaces(t, b);
            let n = operator_len(t, c, false);
            if n != 0 && only_padding(t, c + n) {
                Some(command_of(t.subrange(c, c + n), t.subrange(a, b)))
            } else {
                None
            }
        },
        None => None,
    }
}

/// What a line asks for: its comments are dropped, then the rest is read as
/// a command in prefix form, else in postfix form, else it asks for nothing.
pub open spec fn parse(line: Seq<char>) -> Command {
    let t = strip_comments(line);
    match prefix_form(t) {
        Some(command) => command,
        None => match postfix_form(t) {
            Some(command) => command,
            None => Command::Nothing,
        },
    }
}

fn space(c: char) -> (r: bool)
    ensures
        r == is_space(c),
{
    ('\u{9}' <= c && c <= '\u{d}') || c == ' ' || c == '\u{85}' || c == '\u{a0}' || c
        == '\u{1680}' || ('\u{2000}' <= c && c <= '\u{200a}') || c == '\u{2028}' || c
        == '\u{2029}' || c == '\u{202f}' || c == '\u{205f}' || c == '\u{3000}'
}

fn ident_start(c: char) -> (r: bool)
    ensures
        r == is_ident_start(c),
{
    ('A' <= c && c <= 'Z') || ('a' <= c && c <= 'z') || c == '_'
}

fn ident_char(c: char) -> (r: bool)
    ensures
        r == is_ident_char(c),
{
    ident_start(c) || ('0' <= c && c <= '9')
}

fn find_line_end(s: &Vec<char>, i: usize) -> (j: usize)
    requires
        i <= s.len(),
    ensures
        j == line_end(s@, i as int),
        i <= j <= s.len(),
{
    let mut j = i;
    while j < s.len() && s[j] != '\n'
        invariant
            i <= j <= s.len(),
            line_end(s@, i as int) == line_end(s@, j as int),
        decreases s.len() - j,
    {
        j += 1;
    }
    j
}

fn find_block_close(s: &Vec<char>, i: usize) -> (r: Option<usize>)
    requires
        i <= s.len(),
    ensures
        r matches Some(end) ==> block_close(s@, i as int) == Some(end as int) && i + 2 <= end
            <= s.len(),
        r is None ==> block_close(s@, i as int) is None,
{
    let mut last: Option<usize> = None;
    let mut j = i;
    loop
        invariant
            i <= j <= s.len(),
            last matches Some(end) ==> i + 2 <= end <= s.len(),
            block_close(s@, i as int) == (match block_close(s@, j as int) {
                Some(end) => Some(end),
                None => match last {
                    Some(end) => Some(end as int),
                    None => None,
                },
            }),
        decreases s.len() - j,
    {
        if j >= s.len() {
            return last;
        }
        if s[j] == '/' {
            if j + 1 < s.len() && s[j + 1] != '*' {
                j += 2;
            } else {
                return last;
            }
        } else {
            if s[j] == '*' && j + 1 < s.len() && s[j + 1] == '/' {
                last = Some(j + 2);
            }
            j += 1;
        }
    }
}

fn find_comment_end(s: &Vec<char>, i: usize) -> (j: usize)
    requires
        i < s.len(),
    ensures
        j == comment_end(s@, i as int),
        i <= j <= s.len(),
{
    if i + 1 < s.len() && s[i] == '/' && s[i + 1] == '*' {
        match find_block_close(s, i + 2) {
            Some(end) => end,
            None => i,
        }
    } else if i + 1 < s.len() && s[i] == '/' && s[i + 1] == '/' {
        find_line_end(s, i + 2)
    } else {
        i
    }
}

fn strip(s: &Vec<char>) -> (t: Vec<char>)
    ensures
        t@ == strip_comments(s@),
{
    let mut t: Vec<char> = Vec::new();
    let mut i: usize = 0;
    while i < s.len()
        invariant
            i <= s.len(),
            strip_comments(s@) == t@ + strip_from(s@, i as int),
        decreases s.len() - i,
    {
        let end = find_comment_end(s, i);
        if end > i {
            i = end;
        } else {
            let ghost kept = t@;
            t.push(s[i]);
            assert(t@ + strip_from(s@, i + 1) =~= kept + strip_from(s@, i as int));
            i += 1;
        }
    }
    assert(t@ + strip_from(s@, i as int) =~= t@);
    t
}

fn skip_space_run(t: &Vec<char>, i: usize) -> (j: usize)
    requires
        i <= t.len(),
    ensures
        j == skip_spaces(t@, i as int),
        i <= j <= t.len(),
{
    let mut j = i;
    while j < t.len() && space(t[j])
        invariant
            i <= j <= t.len(),
            skip_spaces(t@, i as int) == skip_spaces(t@, j as int),
        decreases t.len() - j,
    {
        j += 1;
    }
    j
}

fn find_ident_end(t: &Vec<char>, i: usize) -> (r: Option<usize>)
    requires
        i <= t.len(),
    ensures
        r matches Some(end) ==> ident_end(t@, i as int) == Some(end as int) && i < end <= t.len(),
        r is None ==> ident_end(t@, i as int) is None,
{
    if i >= t.len() || !ident_start(t[i]) {
        return None;
    }
    let mut j = i + 1;
    loop
        invariant
            i < j <= t.len(),
            ident_end(t@, i as int) == Some(ident_tail(t@, j as int)),
        decreases t.len() - j,
    {
        if j >= t.len() {
            return Some(j);
        }
        if ident_char(t[j]) {
            j += 1;
        } else if t[j] == '.' && j + 1 < t.len() && ident_start(t[j + 1]) {
            j += 2;
        } else if t.len() - j > 2 && ((t[j] == '-' && t[j + 1] == '>') || (t[j] == ':' && t[j + 1]
            == ':')) && ident_start(t[j + 2]) {
            j += 3;
        } else {
            return Some(j);
        }
    }
}

fn find_operator(t: &Vec<char>, i: usize, query: bool) -> (n: usize)
    requires
        i <= t.len(),
    ensures
        n == operator_len(t@, i as int, query),
        i + n <= t.len(),
{
    if t.len() - i > 1 && ((t[i] == '+' && t[i + 1] == '+') || (t[i] == '-' && t[i + 1] == '-')) {
        2
    } else if query && i < t.len() && t[i] == '?' {
        1
    } else {
        0
    }
}

fn padding_only(t: &Vec<char>, i: usize) -> (r: bool)
    requires
        i <= t.len(),
    ensures
        r == only_padding(t@, i as int),
{
    let mut j = i;
    while j < t.len()
        invariant
            i <= j <= t.len(),
            forall|k: int| i <= k < j ==> is_padding(#[trigger] t@[k]),
        decreases t.len() - j,
    {
        if !(space(t[j]) || t[j] == ';') {
            return false;
        }
        j += 1;
    }
    true
}

/// The command that operator `op` makes of `ident`, which is kept as it is.
pub fn parsed_from(op: &str, ident: &str) -> (r: ParsedLine)
    ensures
        r@ == command_of(op@, ident@),
{
    let o = to_chars(op);
    if o.len() == 2 && o[0] == '+' && o[1] == '+' {
        assert(o@ =~= seq!['+', '+']);
        ParsedLine::Increment(ident.to_owned())
    } else if o.len() == 2 && o[0] == '-' && o[1] == '-' {
        assert(o@ =~= seq!['-', '-']);
        ParsedLine::Decrement(ident.to_owned())
    } else if o.len() == 1 && o[0] == '?' {
        assert(o@ =~= seq!['?']);
        ParsedLine::Query(ident.to_owned())
    } else {
        assert(seq!['+', '+'].len() == 2 && seq!['+', '+'][0] == '+' && seq!['+', '+'][1] == '+');
        assert(seq!['-', '-'].len() == 2 && seq!['-', '-'][0] == '-' && seq!['-', '-'][1] == '-');
        assert(seq!['?'].len() == 1 && seq!['?'][0] == '?');
        ParsedLine::Nothing
    }
}

fn prefix_command(t: &Vec<char>) -> (r: Option<ParsedLine>)
    ensures
        r matches Some(command) ==> prefix_form(t@) == Some(command@),
        r is None ==> prefix_form(t@) is None,
{
    let a = skip_space_run(t, 0);
    let n = find_operator(t, a, true);
    if n == 0 {
        return None;
    }
    let b = skip_space_run(t, a + n);
    match find_ident_end(t, b) {
        Some(c) => if padding_only(t, c) {
            let op = from_chars(t, a, a + n);
            let ident = from_chars(t, b, c);
            Some(parsed_from(op.as_str(), ident.as_str()))
        } else {
            None
        },
        None => None,
    }
}

fn postfix_command(t: &Vec<char>) -> (r: Option<ParsedLine>)
    ensures
        r matches Some(command) ==> postfix_form(t@) == Some(command@),
        r is None ==> postfix_form(t@) is None,
{
    let a = skip_space_run(t, 0);
    match find_ident_end(t, a) {
        Some(b) => {
            let c = skip_space_run(t, b);
            let n = find_operator(t, c, false);
            if n != 0 && padding_only(t, c + n) {
                let op = from_chars(t, c, c + n);
                let ident = from_chars(t, a, b);
                Some(parsed_from(op.as_str(), ident.as_str()))
            } else {
                None
            }
        },
        None => None,
    }
}

/// Reads a line of chat text as a counter command.
pub fn parse_line(line: &str) -> (r: ParsedLine)
    ensures
        r@ == parse(line@),
{
    let raw = to_chars(line);
    let t = strip(&raw);
    match prefix_command(&t) {
        Some(command) => command,
        None => match postfix_command(&t) {
            Some(command) => command,
            None => ParsedLine::Nothing,
        },
    }
}

} // verus!
