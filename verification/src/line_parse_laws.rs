//! The grammar of commands, stated as a language, and the proof that the
//! parser accepts that language and nothing else.

use vstd::prelude::*;
use crate::line_parse::{
    command_of, ident_end, ident_tail, is_ident_char, is_ident_start, is_padding,
    is_pair_separator, is_space, only_padding, operator_len, parse, postfix_form, prefix_form,
    skip_spaces, strip_comments, Command,
};

verus! {

/// Nothing but white space.
pub open spec fn all_space(s: Seq<char>) -> bool {
    forall|i: int| 0 <= i < s.len() ==> is_space(#[trigger] s[i])
}

/// Nothing but white space and semicolons.
pub open spec fn all_padding(s: Seq<char>) -> bool {
    forall|i: int| 0 <= i < s.len() ==> is_padding(#[trigger] s[i])
}

/// What may follow the first character of an identifier: nothing; or a
/// letter, digit or underscore and more of the same kind; or a separator,
/// `.`, `->` or `::`, the first character of a new segment, and more.
pub open spec fn is_ident_rest(s: Seq<char>) -> bool
    decreases s.len(),
{
    if s.len() == 0 {
        true
    } else if is_ident_char(s[0]) {
        is_ident_rest(s.skip(1))
    } else if s[0] == '.' {
        s.len() >= 2 && is_ident_start(s[1]) && is_ident_rest(s.skip(2))
    } else {
        s.len() >= 3 && is_pair_separator(s[0], s[1]) && is_ident_start(s[2]) && is_ident_rest(
            s.skip(3),
        )
    }
}

/// An identifier: one or more segments with one separator between each two.
/// A segment is a letter or underscore followed by letters, digits and
/// underscores.
pub open spec fn is_identifier(s: Seq<char>) -> bool {
    s.len() > 0 && is_ident_start(s[0]) && is_ident_rest(s.skip(1))
}

/// An operator that may stand before an identifier.
pub open spec fn is_prefix_operator(op: Seq<char>) -> bool {
    op == seq!['+', '+'] || op == seq!['-', '-'] || op == seq!['?']
}

/// An operator that may stand after an identifier.
pub open spec fn is_postfix_operator(op: Seq<char>) -> bool {
    op == seq!['+', '+'] || op == seq!['-', '-']
}

/// `t` is a command in prefix form, cut at `a`, `b`, `c` and `d`: white
/// space, an operator, white space, an identifier, padding.
pub open spec fn is_prefix_command(t: Seq<char>, a: int, b: int, c: int, d: int) -> bool {
    &&& 0 <= a <= b <= c <= d <= t.len()
    &&& all_space(t.subrange(0, a))
    &&& is_prefix_operator(t.subrange(a, b))
    &&& all_space(t.subrange(b, c))
    &&& is_identifier(t.subrange(c, d))
    &&& all_padding(t.subrange(d, t.len() as int))
}

/// `t` is a command in postfix form, cut at `a`, `b`, `c` and `d`: white
/// space, an identifier, white space, an operator, padding.
pub open spec fn is_postfix_command(t: Seq<char>, a: int, b: int, c: int, d: int) -> bool {
    &&& 0 <= a <= b <= c <= d <= t.len()
    &&& all_space(t.subrange(0, a))
    &&& is_identifier(t.subrange(a, b))
    &&& all_space(t.subrange(b, c))
    &&& is_postfix_operator(t.subrange(c, d))
    &&& all_padding(t.subrange(d, t.len() as int))
}

/// `skip_spaces` passes over white space and stops at the first character
/// that is none.
proof fn lemma_skip_spaces(t: Seq<char>, i: int)
    requires
        0 <= i <= t.len(),
    ensures
        i <= skip_spaces(t, i) <= t.len(),
        all_space(t.subrange(i, skip_spaces(t, i))),
        skip_spaces(t, i) < t.len() ==> !is_space(t[skip_spaces(t, i)]),
    decreases t.len() - i,
{
    if i < t.len() && is_space(t[i]) {
        lemma_skip_spaces(t, i + 1);
        let j = skip_spaces(t, i);
        assert forall|k: int| 0 <= k < t.subrange(i, j).len() implies is_space(
            #[trigger] t.subrange(i, j)[k],
        ) by {
            if k > 0 {
                assert(t.subrange(i, j)[k] == t.subrange(i + 1, j)[k - 1]);
            }
        }
    }
}

/// White space from `i` to `j`, and none at `j`, is what `skip_spaces`
/// passes over.
proof fn lemma_skip_spaces_to(t: Seq<char>, i: int, j: int)
    requires
        0 <= i <= j <= t.len(),
        all_space(t.subrange(i, j)),
        j < t.len() ==> !is_space(t[j]),
    ensures
        skip_spaces(t, i) == j,
    decreases j - i,
{
    if i < j {
        assert(t.subrange(i, j)[0] == t[i]);
        assert forall|k: int| 0 <= k < t.subrange(i + 1, j).len() implies is_space(
            #[trigger] t.subrange(i + 1, j)[k],
        ) by {
            assert(t.subrange(i + 1, j)[k] == t.subrange(i, j)[k + 1]);
        }
        lemma_skip_spaces_to(t, i + 1, j);
    }
}

/// What `ident_tail` passes over is the rest of an identifier.
proof fn lemma_ident_tail_sound(t: Seq<char>, i: int)
    requires
        0 <= i <= t.len(),
    ensures
        i <= ident_tail(t, i) <= t.len(),
        is_ident_rest(t.subrange(i, ident_tail(t, i))),
    decreases t.len() - i,
{
    let e = ident_tail(t, i);
    let s = t.subrange(i, e);
    if i >= t.len() {
    } else if is_ident_char(t[i]) {
        lemma_ident_tail_sound(t, i + 1);
        assert(s[0] == t[i]);
        assert(s.skip(1) =~= t.subrange(i + 1, e));
    } else if t[i] == '.' && i + 1 < t.len() && is_ident_start(t[i + 1]) {
        lemma_ident_tail_sound(t, i + 2);
        assert(s[0] == t[i] && s[1] == t[i + 1]);
        assert(s.skip(2) =~= t.subrange(i + 2, e));
    } else if i + 2 < t.len() && is_pair_separator(t[i], t[i + 1]) && is_ident_start(t[i + 2]) {
        lemma_ident_tail_sound(t, i + 3);
        assert(s[0] == t[i] && s[1] == t[i + 1] && s[2] == t[i + 2]);
        assert(s.skip(3) =~= t.subrange(i + 3, e));
    }
}

/// Where an identifier cannot go on: at the end of the text, and before a
/// character that neither continues a segment nor starts a separator with a
/// new segment after it.
pub open spec fn ends_identifier(t: Seq<char>, e: int) -> bool {
    e >= t.len() || (!is_ident_char(t[e]) && !(t[e] == '.' && e + 1 < t.len() && is_ident_start(
        t[e + 1],
    )) && !(e + 2 < t.len() && is_pair_separator(t[e], t[e + 1]) && is_ident_start(t[e + 2])))
}

/// The rest of an identifier that cannot go on is what `ident_tail` passes
/// over.
proof fn lemma_ident_tail_complete(t: Seq<char>, i: int, e: int)
    requires
        0 <= i <= e <= t.len(),
        is_ident_rest(t.subrange(i, e)),
        ends_identifier(t, e),
    ensures
        ident_tail(t, i) == e,
    decreases e - i,
{
    let s = t.subrange(i, e);
    if i < e {
        assert(s[0] == t[i]);
        if is_ident_char(t[i]) {
            assert(s.skip(1) =~= t.subrange(i + 1, e));
            lemma_ident_tail_complete(t, i + 1, e);
        } else if t[i] == '.' {
            assert(s[1] == t[i + 1]);
            assert(s.skip(2) =~= t.subrange(i + 2, e));
            lemma_ident_tail_complete(t, i + 2, e);
        } else {
            assert(s[1] == t[i + 1] && s[2] == t[i + 2]);
            assert(s.skip(3) =~= t.subrange(i + 3, e));
            lemma_ident_tail_complete(t, i + 3, e);
        }
    }
}

/// What the parser takes for an identifier is one.
proof fn lemma_ident_end_sound(t: Seq<char>, i: int)
    requires
        0 <= i <= t.len(),
        ident_end(t, i) is Some,
    ensures
        i < ident_end(t, i)->0 <= t.len(),
        is_identifier(t.subrange(i, ident_end(t, i)->0)),
        ends_identifier(t, ident_end(t, i)->0),
{
    let e = ident_tail(t, i + 1);
    lemma_ident_tail_sound(t, i + 1);
    lemma_ident_tail_stops(t, i + 1);
    assert(t.subrange(i, e)[0] == t[i]);
    assert(t.subrange(i, e).skip(1) =~= t.subrange(i + 1, e));
}

/// Where `ident_tail` stops, an identifier cannot go on.
proof fn lemma_ident_tail_stops(t: Seq<char>, i: int)
    requires
        0 <= i <= t.len(),
    ensures
        ends_identifier(t, ident_tail(t, i)),
    decreases t.len() - i,
{
    if i >= t.len() {
    } else if is_ident_char(t[i]) {
        lemma_ident_tail_stops(t, i + 1);
    } else if t[i] == '.' && i + 1 < t.len() && is_ident_start(t[i + 1]) {
        lemma_ident_tail_stops(t, i + 2);
    } else if i + 2 < t.len() && is_pair_separator(t[i], t[i + 1]) && is_ident_start(t[i + 2]) {
        lemma_ident_tail_stops(t, i + 3);
    }
}

/// An identifier that cannot go on is what the parser takes.
proof fn lemma_ident_end_complete(t: Seq<char>, i: int, e: int)
    requires
        0 <= i <= e <= t.len(),
        is_identifier(t.subrange(i, e)),
        ends_identifier(t, e),
    ensures
        ident_end(t, i) == Some(e),
{
    assert(t.subrange(i, e)[0] == t[i]);
    assert(t.subrange(i, e).skip(1) =~= t.subrange(i + 1, e));
    lemma_ident_tail_complete(t, i + 1, e);
}

/// Padding from `d` on is padding from `d` on.
proof fn lemma_padding(t: Seq<char>, d: int)
    requires
        0 <= d <= t.len(),
    ensures
        only_padding(t, d) <==> all_padding(t.subrange(d, t.len() as int)),
{
    let tail = t.subrange(d, t.len() as int);
    if only_padding(t, d) {
        assert forall|i: int| 0 <= i < tail.len() implies is_padding(#[trigger] tail[i]) by {
            assert(tail[i] == t[d + i]);
        }
    }
    if all_padding(tail) {
        assert forall|j: int| d <= j < t.len() implies is_padding(#[trigger] t[j]) by {
            assert(tail[j - d] == t[j]);
        }
    }
}

/// The parser takes every command in prefix form for what it is.
pub proof fn lemma_prefix_form_complete(t: Seq<char>, a: int, b: int, c: int, d: int)
    requires
        is_prefix_command(t, a, b, c, d),
    ensures
        prefix_form(t) == Some(command_of(t.subrange(a, b), t.subrange(c, d))),
{
    let op = t.subrange(a, b);
    let ident = t.subrange(c, d);
    assert(op.len() == b - a);
    assert(op.len() >= 1);
    assert(op[0] == t[a]);
    if op.len() == 2 {
        assert(op[1] == t[a + 1]);
    }
    assert(!is_space(t[a]));
    lemma_skip_spaces_to(t, 0, a);
    assert(operator_len(t, a, true) == b - a);
    assert(ident[0] == t[c]);
    assert(!is_space(t[c]));
    lemma_skip_spaces_to(t, b, c);
    lemma_padding(t, d);
    if d < t.len() {
        assert(is_padding(t[d]));
    }
    lemma_ident_end_complete(t, c, d);
}

/// What the parser takes for a command in prefix form is one.
pub proof fn lemma_prefix_form_sound(t: Seq<char>) -> (cut: (int, int, int, int))
    requires
        prefix_form(t) is Some,
    ensures
        is_prefix_command(t, cut.0, cut.1, cut.2, cut.3),
        prefix_form(t) == Some(
            command_of(t.subrange(cut.0, cut.1), t.subrange(cut.2, cut.3)),
        ),
{
    let a = skip_spaces(t, 0);
    let n = operator_len(t, a, true);
    let b = skip_spaces(t, a + n);
    lemma_skip_spaces(t, 0);
    lemma_skip_spaces(t, a + n);
    let c = ident_end(t, b)->0;
    lemma_ident_end_sound(t, b);
    lemma_padding(t, c);
    let op = t.subrange(a, a + n);
    if n == 2 {
        assert(op =~= seq![t[a], t[a + 1]]);
    } else {
        assert(op =~= seq![t[a]]);
    }
    (a, a + n, b, c)
}

/// The parser takes every command in postfix form for what it is.
pub proof fn lemma_postfix_form_complete(t: Seq<char>, a: int, b: int, c: int, d: int)
    requires
        is_postfix_command(t, a, b, c, d),
    ensures
        postfix_form(t) == Some(command_of(t.subrange(c, d), t.subrange(a, b))),
{
    let ident = t.subrange(a, b);
    let op = t.subrange(c, d);
    assert(op.len() == d - c);
    assert(op[0] == t[c] && op[1] == t[c + 1]);
    assert(ident[0] == t[a]);
    assert(!is_space(t[a]));
    lemma_skip_spaces_to(t, 0, a);
    assert(!is_space(t[c]));
    lemma_skip_spaces_to(t, b, c);
    // After the identifier comes white space or the operator.
    if b < c {
        assert(t.subrange(b, c)[0] == t[b]);
        assert(is_space(t[b]));
    }
    assert(ends_identifier(t, b));
    lemma_ident_end_complete(t, a, b);
    assert(operator_len(t, c, false) == 2);
    lemma_padding(t, d);
}

/// What the parser takes for a command in postfix form is one.
pub proof fn lemma_postfix_form_sound(t: Seq<char>) -> (cut: (int, int, int, int))
    requires
        postfix_form(t) is Some,
    ensures
        is_postfix_command(t, cut.0, cut.1, cut.2, cut.3),
        postfix_form(t) == Some(
            command_of(t.subrange(cut.2, cut.3), t.subrange(cut.0, cut.1)),
        ),
{
    let a = skip_spaces(t, 0);
    lemma_skip_spaces(t, 0);
    let b = ident_end(t, a)->0;
    lemma_ident_end_sound(t, a);
    let c = skip_spaces(t, b);
    lemma_skip_spaces(t, b);
    let n = operator_len(t, c, false);
    lemma_padding(t, c + n);
    assert(t.subrange(c, c + n) =~= seq![t[c], t[c + 1]]);
    (a, b, c, c + 2)
}

/// A line asks for something exactly where, without its comments, it is a
/// command in prefix form or in postfix form; and it then asks for what the
/// operator makes of the identifier.
pub proof fn lemma_parse_is_the_grammar(line: Seq<char>)
    ensures
        ({
            let t = strip_comments(line);
            &&& (prefix_form(t) is None && postfix_form(t) is None) ==> parse(line)
                == Command::Nothing
            &&& (exists|a: int, b: int, c: int, d: int| is_prefix_command(t, a, b, c, d))
                <==> prefix_form(t) is Some
            &&& (exists|a: int, b: int, c: int, d: int| is_postfix_command(t, a, b, c, d))
                <==> postfix_form(t) is Some
            &&& forall|a: int, b: int, c: int, d: int| #[trigger]
                is_prefix_command(t, a, b, c, d) ==> parse(line) == command_of(
                    t.subrange(a, b),
                    t.subrange(c, d),
                )
            &&& forall|a: int, b: int, c: int, d: int| #[trigger]
                is_postfix_command(t, a, b, c, d) ==> parse(line) == command_of(
                    t.subrange(c, d),
                    t.subrange(a, b),
                )
        }),
{
    let t = strip_comments(line);
    if prefix_form(t) is Some {
        let cut = lemma_prefix_form_sound(t);
        assert(is_prefix_command(t, cut.0, cut.1, cut.2, cut.3));
    }
    if postfix_form(t) is Some {
        let cut = lemma_postfix_form_sound(t);
        assert(is_postfix_command(t, cut.0, cut.1, cut.2, cut.3));
    }
    assert forall|a: int, b: int, c: int, d: int| #[trigger]
        is_prefix_command(t, a, b, c, d) implies prefix_form(t) is Some && parse(line)
        == command_of(t.subrange(a, b), t.subrange(c, d)) by {
        lemma_prefix_form_complete(t, a, b, c, d);
    }
    assert forall|a: int, b: int, c: int, d: int| #[trigger]
        is_postfix_command(t, a, b, c, d) implies postfix_form(t) is Some && parse(line)
        == command_of(t.subrange(c, d), t.subrange(a, b)) by {
        lemma_postfix_form_complete(t, a, b, c, d);
        // No text is a command in both forms: one starts with an operator,
        // the other with an identifier.
        if prefix_form(t) is Some {
            let cut = lemma_prefix_form_sound(t);
            lemma_skip_spaces(t, 0);
            assert(t.subrange(cut.0, cut.1)[0] == t[cut.0]);
            assert(false);
        }
    }
}

/// What a line asks to raise, lower or read is an identifier.
pub proof fn lemma_parsed_identifier(line: Seq<char>)
    ensures
        match parse(line) {
            Command::Nothing => true,
            Command::Increment(ident) => is_identifier(ident),
            Command::Decrement(ident) => is_identifier(ident),
            Command::Query(ident) => is_identifier(ident),
        },
{
    let t = strip_comments(line);
    if prefix_form(t) is Some {
        let cut = lemma_prefix_form_sound(t);
    } else if postfix_form(t) is Some {
        let cut = lemma_postfix_form_sound(t);
    }
}

} // verus!
