//! What holds of the counter store: of the normal form of keys, of fresh
//! counters, and of a store that is written out and read back.

use vstd::prelude::*;
use vstd::utf8::{
    decode_utf8, decode_utf8_encode_utf8, encode_scalar, encode_utf8, encode_utf8_decode_utf8,
    encode_utf8_valid_utf8, valid_utf8,
};
use crate::ascii::{find_byte, lemma_find_byte, COLON, LINE_FEED, MINUS};
use crate::decimal::{decimal, is_digit, lemma_decimal_digits, lemma_parse_render, render};
use crate::line_parse::{is_ident_char, is_pair_separator};
use crate::line_parse_laws::{is_ident_rest, is_identifier};
use crate::rotdb::{
    db_line, dump, dump_entries, entry_line, file_lines, is_scope_separator, join_scopes,
    lemma_put_wf, lines_from, load, load_lines, lower_case, normalize, without_cr, Counters,
    LineError, Store,
};

verus! {

/// Where `key` is not empty, `join_scopes(key)` is not empty either, and it
/// starts with a dot or with the first character of `key`.
proof fn lemma_join_scopes_first(key: Seq<char>)
    requires
        key.len() > 0,
    ensures
        join_scopes(key).len() > 0,
        join_scopes(key)[0] == (if key.len() >= 2 && is_scope_separator(key[0], key[1]) {
            '.'
        } else {
            key[0]
        }),
{
}

/// A key whose scopes are joined holds no scope separator that could be
/// joined again.
pub proof fn lemma_join_scopes_idempotent(key: Seq<char>)
    ensures
        join_scopes(join_scopes(key)) == join_scopes(key),
    decreases key.len(),
{
    if key.len() == 0 {
    } else if key.len() >= 2 && is_scope_separator(key[0], key[1]) {
        let rest = join_scopes(key.skip(2));
        let joined = seq!['.'] + rest;
        lemma_join_scopes_idempotent(key.skip(2));
        assert(joined.skip(1) =~= rest);
    } else {
        let rest = join_scopes(key.skip(1));
        let joined = seq![key[0]] + rest;
        lemma_join_scopes_idempotent(key.skip(1));
        assert(joined.skip(1) =~= rest);
        if rest.len() > 0 {
            lemma_join_scopes_first(key.skip(1));
            assert(joined[1] == rest[0]);
            assert(!is_scope_separator(joined[0], joined[1]));
        }
    }
}

/// The case of letters has no part in the joining of scopes.
pub proof fn lemma_join_scopes_lower_case(key: Seq<char>)
    ensures
        join_scopes(lower_case(key)) == lower_case(join_scopes(key)),
    decreases key.len(),
{
    let low = lower_case(key);
    if key.len() == 0 {
        assert(join_scopes(low) =~= lower_case(join_scopes(key)));
    } else if key.len() >= 2 && is_scope_separator(key[0], key[1]) {
        lemma_join_scopes_lower_case(key.skip(2));
        assert(low.skip(2) =~= lower_case(key.skip(2)));
        assert(is_scope_separator(low[0], low[1]));
        assert(join_scopes(low) =~= lower_case(join_scopes(key)));
    } else {
        lemma_join_scopes_lower_case(key.skip(1));
        assert(low.skip(1) =~= lower_case(key.skip(1)));
        if key.len() >= 2 {
            assert(!is_scope_separator(low[0], low[1]));
        }
        assert(join_scopes(low) =~= lower_case(join_scopes(key)));
    }
}

/// Lower case of lower case is lower case.
pub proof fn lemma_lower_case_idempotent(key: Seq<char>)
    ensures
        lower_case(lower_case(key)) == lower_case(key),
{
    assert(lower_case(lower_case(key)) =~= lower_case(key));
}

/// Normalization is idempotent: the normal form of a key is its own normal
/// form.
pub proof fn lemma_normalize_idempotent(key: Seq<char>)
    ensures
        normalize(normalize(key)) == normalize(key),
{
    let joined = join_scopes(key);
    lemma_join_scopes_lower_case(joined);
    lemma_join_scopes_idempotent(key);
    lemma_lower_case_idempotent(joined);
}

/// Normalization does not tell apart two keys that differ in the case of
/// their ASCII letters only.
pub proof fn lemma_normalize_ignores_case(a: Seq<char>, b: Seq<char>)
    requires
        lower_case(a) == lower_case(b),
    ensures
        normalize(a) == normalize(b),
{
    lemma_join_scopes_lower_case(a);
    lemma_join_scopes_lower_case(b);
}

/// Text that ends in neither `:` nor `-` has its scopes joined on its own,
/// whatever follows it.
pub proof fn lemma_join_scopes_concat(head: Seq<char>, tail: Seq<char>)
    requires
        head.len() == 0 || (head.last() != ':' && head.last() != '-'),
    ensures
        join_scopes(head + tail) == join_scopes(head) + join_scopes(tail),
    decreases head.len(),
{
    let whole = head + tail;
    if head.len() == 0 {
        assert(whole =~= tail);
        assert(join_scopes(head) + join_scopes(tail) =~= join_scopes(tail));
    } else if head.len() >= 2 && is_scope_separator(head[0], head[1]) {
        assert(whole[0] == head[0] && whole[1] == head[1]);
        assert(whole.skip(2) =~= head.skip(2) + tail);
        if head.skip(2).len() > 0 {
            assert(head.skip(2).last() == head.last());
        }
        lemma_join_scopes_concat(head.skip(2), tail);
        assert(join_scopes(whole) =~= join_scopes(head) + join_scopes(tail));
    } else {
        assert(whole[0] == head[0]);
        if head.len() >= 2 {
            assert(whole[1] == head[1]);
            assert(head.skip(1).last() == head.last());
        } else {
            assert(head[0] == head.last());
            assert(head.skip(1) =~= Seq::<char>::empty());
        }
        assert(whole.skip(1) =~= head.skip(1) + tail);
        lemma_join_scopes_concat(head.skip(1), tail);
        assert(join_scopes(whole) =~= join_scopes(head) + join_scopes(tail));
    }
}

/// One of the three ways to write the separator of two scopes.
pub open spec fn is_scope_mark(mark: Seq<char>) -> bool {
    mark == seq!['.'] || mark == seq![':', ':'] || mark == seq!['-', '>']
}

/// Normalization does not tell apart the ways to write a separator: after
/// text that ends in neither `:` nor `-`, each of `.`, `::` and `->` gives
/// the same normal form, whatever follows.
pub proof fn lemma_normalize_ignores_mark(
    head: Seq<char>,
    first: Seq<char>,
    second: Seq<char>,
    tail: Seq<char>,
)
    requires
        head.len() == 0 || (head.last() != ':' && head.last() != '-'),
        is_scope_mark(first),
        is_scope_mark(second),
    ensures
        normalize(head + first + tail) == normalize(head + second + tail),
        normalize(head + first + tail) == normalize(head) + seq!['.'] + normalize(tail),
{
    lemma_scope_mark(head, first, tail);
    lemma_scope_mark(head, second, tail);
}

/// A separator between two texts, however it is written, is a dot between
/// their normal forms, where the first text ends in neither `:` nor `-`.
proof fn lemma_scope_mark(head: Seq<char>, mark: Seq<char>, tail: Seq<char>)
    requires
        head.len() == 0 || (head.last() != ':' && head.last() != '-'),
        is_scope_mark(mark),
    ensures
        normalize(head + mark + tail) == normalize(head) + seq!['.'] + normalize(tail),
{
    let rest = mark + tail;
    assert(head + mark + tail =~= head + rest);
    lemma_join_scopes_concat(head, rest);
    assert(rest[0] == mark[0]);
    if mark.len() == 2 {
        assert(rest[1] == mark[1]);
        assert(rest.skip(2) =~= tail);
    } else {
        assert(rest.skip(1) =~= tail);
    }
    assert(join_scopes(rest) =~= seq!['.'] + join_scopes(tail));
    assert(lower_case(join_scopes(head) + (seq!['.'] + join_scopes(tail))) =~= lower_case(
        join_scopes(head),
    ) + seq!['.'] + lower_case(join_scopes(tail)));
}

/// A store answers for a key as it answers for the key's normal form.
pub proof fn lemma_value_of_normal_form(store: Store, key: Seq<char>)
    ensures
        store.value(normalize(key)) == store.value(key),
{
    lemma_normalize_idempotent(key);
}

/// A counter that the store does not hold reads 0; raised by one it reads 1,
/// and lowered by one after that it reads 0 again.
pub proof fn lemma_fresh_counter(store: Store, key: Seq<char>)
    requires
        !store.counters.values.contains_key(normalize(key)),
    ensures
        store.value(key) == 0,
        store.add(key, 1).value(key) == 1,
        store.add(key, 1).add(key, -1).value(key) == 0,
{
}

/// What is added to a counter is read back from it, under every way of
/// writing its key, and no other counter moves.
pub proof fn lemma_add_then_value(store: Store, key: Seq<char>, step: int, other: Seq<char>)
    requires
        i64::MIN <= store.value(key) + step <= i64::MAX,
    ensures
        store.add(key, step).value(other) == (if normalize(other) == normalize(key) {
            (store.value(key) + step) as i64
        } else {
            store.value(other)
        }),
{
}

/// An ASCII byte stands in the UTF-8 form of a character only where the
/// character is that byte.
proof fn lemma_ascii_in_scalar(c: char, b: u8)
    requires
        b < 0x80,
        c != b as char,
    ensures
        ({
            let bytes = encode_scalar(c as u32);
            forall|j: int| 0 <= j < bytes.len() ==> #[trigger] bytes[j] != b
        }),
{
    let s = c as u32;
    assert(forall|x: u8| #![auto] (0x80u8 | x) >= 0x80u8) by (bit_vector);
    assert(forall|x: u8| #![auto] (0xC0u8 | x) >= 0x80u8) by (bit_vector);
    assert(forall|x: u8| #![auto] (0xE0u8 | x) >= 0x80u8) by (bit_vector);
    assert(forall|x: u8| #![auto] (0xF0u8 | x) >= 0x80u8) by (bit_vector);
    assert(s <= 0x7F ==> (s & 0x7F) == s) by (bit_vector);
}

/// An ASCII byte that is none of the characters of `key` is none of the
/// bytes of its UTF-8 form.
pub proof fn lemma_ascii_in_encoding(key: Seq<char>, b: u8)
    requires
        b < 0x80,
        forall|i: int| 0 <= i < key.len() ==> #[trigger] key[i] != b as char,
    ensures
        forall|j: int| 0 <= j < encode_utf8(key).len() ==> #[trigger] encode_utf8(key)[j] != b,
    decreases key.len(),
{
    if key.len() > 0 {
        let first = encode_scalar(key[0] as u32);
        let rest = encode_utf8(key.drop_first());
        lemma_ascii_in_scalar(key[0], b);
        assert forall|i: int| 0 <= i < key.drop_first().len() implies #[trigger] key.drop_first()[i]
            != b as char by {
            assert(key.drop_first()[i] == key[i + 1]);
        }
        lemma_ascii_in_encoding(key.drop_first(), b);
        assert forall|j: int| 0 <= j < encode_utf8(key).len() implies #[trigger] encode_utf8(
            key,
        )[j] != b by {
            if j < first.len() {
                assert(encode_utf8(key)[j] == first[j]);
            } else {
                assert(encode_utf8(key)[j] == rest[j - first.len()]);
            }
        }
    }
}

/// The bytes of a line for `value` under `key`, without its line feed.
pub open spec fn entry_text(key: Seq<char>, value: i64) -> Seq<u8> {
    encode_utf8(key) + seq![COLON] + render(value as int)
}

/// A key that can stand in a store file: it holds no colon and no line
/// feed.
pub open spec fn plain_key(key: Seq<char>) -> bool {
    forall|i: int| 0 <= i < key.len() ==> (#[trigger] key[i]) != ':' && key[i] != '\n'
}

/// The bytes of a number are its sign and its digits.
proof fn lemma_render_bytes(value: int)
    ensures
        render(value).len() > 0,
        forall|i: int|
            0 <= i < render(value).len() ==> is_digit(#[trigger] render(value)[i]) || render(
                value,
            )[i] == MINUS,
        is_digit(render(value).last()),
{
    if value < 0 {
        lemma_decimal_digits((-value) as nat);
        let d = decimal((-value) as nat);
        assert forall|i: int| 0 <= i < render(value).len() implies is_digit(
            #[trigger] render(value)[i],
        ) || render(value)[i] == MINUS by {
            if i > 0 {
                assert(render(value)[i] == d[i - 1]);
            }
        }
        assert(render(value).last() == d.last());
    } else {
        lemma_decimal_digits(value as nat);
    }
}

/// The line that was written for a counter of a plain key holds that
/// counter: it has no line feed and no carriage return at its end, and it
/// reads as the key and the value.
pub proof fn lemma_entry_text(key: Seq<char>, value: i64)
    requires
        plain_key(key),
    ensures
        forall|i: int|
            0 <= i < entry_text(key, value).len() ==> #[trigger] entry_text(key, value)[i]
                != LINE_FEED,
        entry_text(key, value).len() > 0,
        without_cr(entry_text(key, value)) == entry_text(key, value),
        db_line(entry_text(key, value)) == Ok::<(Seq<char>, i64), LineError>((key, value)),
{
    let name = encode_utf8(key);
    let number = render(value as int);
    let line = entry_text(key, value);
    assert(COLON as char == ':' && LINE_FEED as char == '\n');
    lemma_ascii_in_encoding(key, COLON);
    lemma_ascii_in_encoding(key, LINE_FEED);
    lemma_render_bytes(value as int);
    assert forall|i: int| 0 <= i < line.len() implies line[i] != LINE_FEED by {
        if i < name.len() {
            assert(line[i] == name[i]);
        } else if i > name.len() {
            assert(line[i] == number[i - name.len() - 1]);
        }
    }
    assert(line.last() == number.last());
    // The first colon is the one that follows the key.
    lemma_find_byte(line, COLON, 0);
    let colon = find_byte(line, COLON, 0);
    assert(line[name.len() as int] == COLON);
    if colon < name.len() {
        assert(line[colon] == name[colon]);
    }
    assert(colon == name.len());
    assert(line.subrange(0, colon) =~= name);
    assert(line.subrange(colon + 1, line.len() as int) =~= number);
    encode_utf8_valid_utf8(key);
    encode_utf8_decode_utf8(key);
    lemma_parse_render(value as int);
}

/// The lines of a text that follows other text are the lines of the text
/// alone.
proof fn lemma_lines_shift(head: Seq<u8>, tail: Seq<u8>, i: int)
    requires
        0 <= i <= tail.len(),
    ensures
        lines_from(head + tail, head.len() + i) == lines_from(tail, i),
    decreases tail.len() - i,
{
    let whole = head + tail;
    if i < tail.len() {
        lemma_find_shift(head, tail, i);
        lemma_find_byte(tail, LINE_FEED, i);
        let n = find_byte(tail, LINE_FEED, i);
        if n >= tail.len() {
            assert(whole.subrange(head.len() + i, whole.len() as int) =~= tail.subrange(
                i,
                tail.len() as int,
            ));
        } else {
            assert(whole.subrange(head.len() + i, head.len() + n) =~= tail.subrange(i, n));
            lemma_lines_shift(head, tail, n + 1);
        }
    }
}

/// A byte is found in a text that follows other text where it is found in
/// the text alone.
proof fn lemma_find_shift(head: Seq<u8>, tail: Seq<u8>, i: int)
    requires
        0 <= i <= tail.len(),
    ensures
        find_byte(head + tail, LINE_FEED, head.len() + i) == head.len() + find_byte(
            tail,
            LINE_FEED,
            i,
        ),
    decreases tail.len() - i,
{
    if i < tail.len() {
        assert((head + tail)[head.len() + i] == tail[i]);
        if tail[i] != LINE_FEED {
            lemma_find_shift(head, tail, i + 1);
        }
    }
}

/// The text of a line, its line feed and more text has that line for its
/// first, and then the lines of the rest.
proof fn lemma_first_line(line: Seq<u8>, rest: Seq<u8>)
    requires
        forall|i: int| 0 <= i < line.len() ==> #[trigger] line[i] != LINE_FEED,
    ensures
        file_lines(line + seq![LINE_FEED] + rest) == seq![without_cr(line)] + file_lines(rest),
{
    let head = line + seq![LINE_FEED];
    let whole = head + rest;
    lemma_find_byte(whole, LINE_FEED, 0);
    let n = find_byte(whole, LINE_FEED, 0);
    assert(whole[line.len() as int] == LINE_FEED);
    if n < line.len() {
        assert(whole[n] == line[n]);
    }
    assert(n == line.len());
    assert(whole.subrange(0, n) =~= line);
    lemma_lines_shift(head, rest, 0);
}

/// The lines that a dump is made of.
pub open spec fn entry_texts(order: Seq<Seq<char>>, values: Map<Seq<char>, i64>) -> Seq<Seq<u8>> {
    order.map_values(|key: Seq<char>| entry_text(key, values[key]))
}

/// A dump starts with the line of the first key.
proof fn lemma_dump_first(order: Seq<Seq<char>>, values: Map<Seq<char>, i64>)
    requires
        order.len() > 0,
    ensures
        dump_entries(order, values) == entry_line(order[0], values[order[0]]) + dump_entries(
            order.drop_first(),
            values,
        ),
    decreases order.len(),
{
    if order.len() == 1 {
        assert(order.drop_last() =~= Seq::<Seq<char>>::empty());
        assert(order.drop_first() =~= Seq::<Seq<char>>::empty());
        assert(dump_entries(order.drop_last(), values) =~= Seq::<u8>::empty());
        assert(dump_entries(order, values) =~= entry_line(order[0], values[order[0]]));
        assert(entry_line(order[0], values[order[0]]) + dump_entries(order.drop_first(), values)
            =~= entry_line(order[0], values[order[0]]));
    } else {
        lemma_dump_first(order.drop_last(), values);
        assert(order.drop_last().drop_first() =~= order.drop_first().drop_last());
        assert(order.drop_first().last() == order.last());
        assert(order.drop_last()[0] == order[0]);
        let first = entry_line(order[0], values[order[0]]);
        let middle = dump_entries(order.drop_last().drop_first(), values);
        let last = entry_line(order.last(), values[order.last()]);
        assert((first + middle) + last =~= first + (middle + last));
    }
}

/// The lines of a dump of plain keys are the lines that were written.
proof fn lemma_dump_lines(order: Seq<Seq<char>>, values: Map<Seq<char>, i64>)
    requires
        forall|i: int| 0 <= i < order.len() ==> plain_key(#[trigger] order[i]),
    ensures
        file_lines(dump_entries(order, values)) == entry_texts(order, values),
    decreases order.len(),
{
    if order.len() == 0 {
        assert(file_lines(dump_entries(order, values)) =~= entry_texts(order, values));
    } else {
        let key = order[0];
        let line = entry_text(key, values[key]);
        let rest = dump_entries(order.drop_first(), values);
        lemma_dump_first(order, values);
        assert(plain_key(order[0]));
        lemma_entry_text(key, values[key]);
        assert(entry_line(key, values[key]) =~= line + seq![LINE_FEED]);
        lemma_first_line(line, rest);
        assert forall|i: int| 0 <= i < order.drop_first().len() implies plain_key(
            #[trigger] order.drop_first()[i],
        ) by {
            assert(order.drop_first()[i] == order[i + 1]);
        }
        lemma_dump_lines(order.drop_first(), values);
        assert(seq![line] + entry_texts(order.drop_first(), values) =~= entry_texts(order, values));
    }
}

/// The counters under the keys of `order`, and no others.
pub open spec fn listed(order: Seq<Seq<char>>, values: Map<Seq<char>, i64>) -> Counters {
    Counters { order, values: values.restrict(order.to_set()) }
}

/// The lines that were written for distinct plain keys hold the counters
/// that were written, in their order.
proof fn lemma_load_entry_texts(order: Seq<Seq<char>>, values: Map<Seq<char>, i64>)
    requires
        order.no_duplicates(),
        forall|i: int| 0 <= i < order.len() ==> plain_key(#[trigger] order[i]),
        forall|i: int| 0 <= i < order.len() ==> values.contains_key(#[trigger] order[i]),
    ensures
        load_lines(entry_texts(order, values)) == listed(order, values),
    decreases order.len(),
{
    let lines = entry_texts(order, values);
    if order.len() == 0 {
        assert(listed(order, values).values =~= Map::<Seq<char>, i64>::empty());
        assert(listed(order, values).order =~= Seq::<Seq<char>>::empty());
        assert(lines =~= Seq::<Seq<u8>>::empty());
    } else {
        let front = order.drop_last();
        let key = order.last();
        assert(lines.drop_last() =~= entry_texts(front, values));
        assert forall|i: int| 0 <= i < front.len() implies plain_key(#[trigger] front[i]) by {
            assert(front[i] == order[i]);
        }
        assert forall|i: int| 0 <= i < front.len() implies values.contains_key(
            #[trigger] front[i],
        ) by {
            assert(front[i] == order[i]);
        }
        lemma_load_entry_texts(front, values);
        assert(plain_key(order[order.len() - 1]));
        assert(values.contains_key(order[order.len() - 1]));
        lemma_entry_text(key, values[key]);
        let before = listed(front, values);
        assert(!front.contains(key)) by {
            if front.contains(key) {
                let i = choose|i: int| 0 <= i < front.len() && front[i] == key;
                assert(order[i] == order[order.len() - 1]);
            }
        }
        assert(!before.values.contains_key(key));
        let after = before.put(key, values[key]);
        assert(lines.last() == entry_text(key, values[key]));
        assert(load_lines(lines) == after);
        assert(after.order =~= order);
        assert(after.values =~= listed(order, values).values) by {
            assert forall|k: Seq<char>| order.to_set().contains(k) <==> (front.to_set().contains(k)
                || k == key) by {
                if order.contains(k) {
                    let i = choose|i: int| 0 <= i < order.len() && order[i] == k;
                    if i < front.len() {
                        assert(front[i] == k);
                    }
                }
                if front.contains(k) {
                    let i = choose|i: int| 0 <= i < front.len() && front[i] == k;
                    assert(order[i] == k);
                }
                if k == key {
                    assert(order[order.len() - 1] == k);
                }
            }
        }
    }
}

/// A store that is written out and read back is the store that was written,
/// where none of its keys holds a colon or a line feed.
pub proof fn lemma_load_dump(counters: Counters)
    requires
        counters.wf(),
        forall|i: int| 0 <= i < counters.order.len() ==> plain_key(#[trigger] counters.order[i]),
    ensures
        load(dump(counters)) == counters,
{
    let order = counters.order;
    let values = counters.values;
    assert forall|i: int| 0 <= i < order.len() implies values.contains_key(#[trigger] order[i]) by {
        assert(order.contains(order[i]));
    }
    lemma_dump_lines(order, values);
    lemma_load_entry_texts(order, values);
    assert(listed(order, values).values =~= values) by {
        assert forall|k: Seq<char>| values.contains_key(k) <==> order.to_set().contains(k) by {
            assert(values.contains_key(k) <==> order.contains(k));
        }
    }
}

/// After a store was written out, a store that is read from what was
/// written answers for every key as the first one does.
pub proof fn lemma_round_trip(store: Store, key: Seq<char>)
    requires
        store.counters.wf(),
        forall|i: int|
            0 <= i < store.counters.order.len() ==> plain_key(#[trigger] store.counters.order[i]),
    ensures
        load(dump(store.counters)).value(normalize(key)) == store.value(key),
{
    lemma_load_dump(store.counters);
}

/// An ASCII character of `key` is one of the bytes of its UTF-8 form.
proof fn lemma_char_in_encoding(key: Seq<char>, i: int, b: u8)
    requires
        0 <= i < key.len(),
        b < 0x80,
        key[i] == b as char,
    ensures
        exists|j: int| 0 <= j < encode_utf8(key).len() && encode_utf8(key)[j] == b,
    decreases i,
{
    let first = encode_scalar(key[0] as u32);
    let rest = encode_utf8(key.drop_first());
    if i == 0 {
        assert((b as u32 & 0x7F) as u8 == b) by (bit_vector)
            requires
                b < 0x80,
        ;
        assert(first[0] == b);
        assert(encode_utf8(key)[0] == b);
    } else {
        assert(key.drop_first()[i - 1] == key[i]);
        lemma_char_in_encoding(key.drop_first(), i - 1, b);
        let j = choose|j: int| 0 <= j < rest.len() && rest[j] == b;
        assert(encode_utf8(key)[first.len() + j] == b);
    }
}

/// An ASCII byte that is none of the bytes of a text is none of its
/// characters.
proof fn lemma_ascii_in_decoding(bytes: Seq<u8>, b: u8)
    requires
        valid_utf8(bytes),
        b < 0x80,
        forall|j: int| 0 <= j < bytes.len() ==> #[trigger] bytes[j] != b,
    ensures
        forall|i: int| 0 <= i < decode_utf8(bytes).len() ==> #[trigger] decode_utf8(bytes)[i]
            != b as char,
{
    let key = decode_utf8(bytes);
    decode_utf8_encode_utf8(bytes);
    assert forall|i: int| 0 <= i < key.len() implies #[trigger] key[i] != b as char by {
        if key[i] == b as char {
            lemma_char_in_encoding(key, i, b);
        }
    }
}

/// Every key of `counters` is plain.
pub open spec fn all_plain(counters: Counters) -> bool {
    forall|i: int| 0 <= i < counters.order.len() ==> plain_key(#[trigger] counters.order[i])
}

/// No line holds a line feed.
pub open spec fn no_line_feed(lines: Seq<Seq<u8>>) -> bool {
    forall|k: int, j: int|
        0 <= k < lines.len() && 0 <= j < lines[k].len() ==> #[trigger] lines[k][j] != LINE_FEED
}

/// The lines of a text hold no line feed.
proof fn lemma_lines_without_line_feed(bytes: Seq<u8>, i: int)
    requires
        0 <= i <= bytes.len(),
    ensures
        no_line_feed(lines_from(bytes, i)),
    decreases bytes.len() - i,
{
    let lines = lines_from(bytes, i);
    if i < bytes.len() {
        lemma_find_byte(bytes, LINE_FEED, i);
        let n = find_byte(bytes, LINE_FEED, i);
        if n >= bytes.len() {
            assert forall|k: int, j: int|
                0 <= k < lines.len() && 0 <= j < lines[k].len() implies #[trigger] lines[k][j]
                != LINE_FEED by {
                assert(lines[k][j] == bytes[i + j]);
            }
        } else {
            lemma_lines_without_line_feed(bytes, n + 1);
            let rest = lines_from(bytes, n + 1);
            let first = without_cr(bytes.subrange(i, n));
            assert forall|k: int, j: int|
                0 <= k < lines.len() && 0 <= j < lines[k].len() implies #[trigger] lines[k][j]
                != LINE_FEED by {
                if k == 0 {
                    assert(lines[0] == first);
                    assert(first[j] == bytes[i + j]);
                } else {
                    assert(lines[k] == rest[k - 1]);
                    assert(rest[k - 1][j] != LINE_FEED);
                }
            }
        }
    }
}

/// The key of a line without a line feed is plain.
proof fn lemma_line_key_is_plain(line: Seq<u8>)
    requires
        forall|j: int| 0 <= j < line.len() ==> #[trigger] line[j] != LINE_FEED,
        db_line(line) is Ok,
    ensures
        plain_key(db_line(line)->Ok_0.0),
{
    lemma_find_byte(line, COLON, 0);
    let colon = find_byte(line, COLON, 0);
    let name = line.subrange(0, colon);
    assert forall|j: int| 0 <= j < name.len() implies #[trigger] name[j] != COLON by {
        assert(name[j] == line[j]);
    }
    assert forall|j: int| 0 <= j < name.len() implies #[trigger] name[j] != LINE_FEED by {
        assert(name[j] == line[j]);
    }
    lemma_ascii_in_decoding(name, COLON);
    lemma_ascii_in_decoding(name, LINE_FEED);
    assert(COLON as char == ':' && LINE_FEED as char == '\n');
}

/// A plain key put among plain keys leaves all keys plain.
pub proof fn lemma_put_plain(counters: Counters, key: Seq<char>, value: i64)
    requires
        all_plain(counters),
        plain_key(key),
    ensures
        all_plain(counters.put(key, value)),
{
    let after = counters.put(key, value);
    assert forall|i: int| 0 <= i < after.order.len() implies plain_key(
        #[trigger] after.order[i],
    ) by {
        if i < counters.order.len() {
            assert(after.order[i] == counters.order[i]);
        }
    }
}

/// What is read from lines without line feeds is well formed, and all its
/// keys are plain.
proof fn lemma_load_lines_sound(lines: Seq<Seq<u8>>)
    requires
        no_line_feed(lines),
    ensures
        load_lines(lines).wf(),
        all_plain(load_lines(lines)),
    decreases lines.len(),
{
    if lines.len() > 0 {
        let front = lines.drop_last();
        assert forall|k: int, j: int|
            0 <= k < front.len() && 0 <= j < front[k].len() implies #[trigger] front[k][j]
            != LINE_FEED by {
            assert(front[k] == lines[k]);
        }
        lemma_load_lines_sound(front);
        let last = lines.last();
        if db_line(last) is Ok {
            assert forall|j: int| 0 <= j < last.len() implies #[trigger] last[j] != LINE_FEED by {
                assert(lines[lines.len() - 1][j] != LINE_FEED);
            }
            lemma_line_key_is_plain(last);
            let (key, value) = db_line(last)->Ok_0;
            lemma_put_wf(load_lines(front), key, value);
            lemma_put_plain(load_lines(front), key, value);
        }
    }
}

/// Whatever a store file holds, the store that is read from it is well
/// formed, and all its keys are plain: hence it is the store that is read
/// back after it was written out.
pub proof fn lemma_loaded_store_round_trips(bytes: Seq<u8>)
    ensures
        load(bytes).wf(),
        all_plain(load(bytes)),
        load(dump(load(bytes))) == load(bytes),
{
    lemma_lines_without_line_feed(bytes, 0);
    lemma_load_lines_sound(file_lines(bytes));
    lemma_load_dump(load(bytes));
}

/// A letter, a digit, an underscore or a dot.
pub open spec fn is_key_char(c: char) -> bool {
    is_ident_char(c) || c == '.'
}

/// The rest of an identifier with its scopes joined holds letters, digits,
/// underscores and dots only.
proof fn lemma_joined_ident_rest(s: Seq<char>)
    requires
        is_ident_rest(s),
    ensures
        forall|i: int| 0 <= i < join_scopes(s).len() ==> is_key_char(#[trigger] join_scopes(s)[i]),
    decreases s.len(),
{
    let joined = join_scopes(s);
    if s.len() == 0 {
    } else if is_ident_char(s[0]) {
        lemma_joined_ident_rest(s.skip(1));
        let rest = join_scopes(s.skip(1));
        assert forall|i: int| 0 <= i < joined.len() implies is_key_char(#[trigger] joined[i]) by {
            if i > 0 {
                assert(joined[i] == rest[i - 1]);
            }
        }
    } else if s[0] == '.' {
        let after = s.skip(1);
        assert(after[0] == s[1]);
        assert(after.skip(1) =~= s.skip(2));
        lemma_joined_ident_rest(after);
        let rest = join_scopes(after);
        assert forall|i: int| 0 <= i < joined.len() implies is_key_char(#[trigger] joined[i]) by {
            if i > 0 {
                assert(joined[i] == rest[i - 1]);
            }
        }
    } else {
        let after = s.skip(2);
        assert(after[0] == s[2]);
        assert(after.skip(1) =~= s.skip(3));
        lemma_joined_ident_rest(after);
        let rest = join_scopes(after);
        assert(is_scope_separator(s[0], s[1]));
        assert forall|i: int| 0 <= i < joined.len() implies is_key_char(#[trigger] joined[i]) by {
            if i > 0 {
                assert(joined[i] == rest[i - 1]);
            }
        }
    }
}

/// The normal form of an identifier holds letters, digits, underscores and
/// dots only, so it is a plain key.
pub proof fn lemma_identifier_key_is_plain(ident: Seq<char>)
    requires
        is_identifier(ident),
    ensures
        forall|i: int|
            0 <= i < normalize(ident).len() ==> is_key_char(#[trigger] normalize(ident)[i]),
        plain_key(normalize(ident)),
{
    let rest = ident.skip(1);
    assert(rest.len() == 0 || is_ident_char(rest[0]) || rest[0] == '.' || is_pair_separator(
        rest[0],
        rest[1],
    ));
    assert(is_ident_rest(ident)) by {
        assert(is_ident_char(ident[0]));
    }
    lemma_joined_ident_rest(ident);
    let joined = join_scopes(ident);
    let key = normalize(ident);
    assert forall|i: int| 0 <= i < key.len() implies is_key_char(#[trigger] key[i]) by {
        assert(is_key_char(joined[i]));
    }
    assert forall|i: int| 0 <= i < key.len() implies (#[trigger] key[i]) != ':' && key[i]
        != '\n' by {
        assert(is_key_char(key[i]));
    }
}

} // verus!
