//! The counter store: named 64-bit counters, addressed by a normalized form
//! of their names, with one flag that says whether anything changed since
//! the store was last written out.

use vstd::prelude::*;
use vstd::hash_map::StringHashMap;
use vstd::slice::{slice_subrange, slice_to_vec};
use vstd::utf8::{decode_utf8, encode_utf8, valid_utf8};
use crate::ascii::{find_byte, lemma_find_byte, position, CARRIAGE_RETURN, COLON, LINE_FEED};
use crate::decimal::{parse_i64, parse_i64_spec, render, render_i64};
use crate::text::{to_chars, utf8_text};

verus! {

/// `::` or `->`, the scope separators that a key may be written with.
pub open spec fn is_scope_separator(a: char, b: char) -> bool {
    (a == ':' && b == ':') || (a == '-' && b == '>')
}

/// `key` with each scope separator, taken from left to right, replaced by a
/// dot.
pub open spec fn join_scopes(key: Seq<char>) -> Seq<char>
    decreases key.len(),
{
    if key.len() == 0 {
        Seq::empty()
    } else if key.len() >= 2 && is_scope_separator(key[0], key[1]) {
        seq!['.'] + join_scopes(key.skip(2))
    } else {
        seq![key[0]] + join_scopes(key.skip(1))
    }
}

/// The lower-case form of an ASCII capital; any other character is itself.
pub open spec fn ascii_lower(c: char) -> char {
    if 'A' <= c && c <= 'Z' {
        ((c as u32) + 32) as char
    } else {
        c
    }
}

/// `key` with its ASCII capitals in lower case.
pub open spec fn lower_case(key: Seq<char>) -> Seq<char> {
    key.map_values(|c: char| ascii_lower(c))
}

/// The form of a key under which its counter is kept: scope separators are
/// dots, and ASCII letters are in lower case.
pub open spec fn normalize(key: Seq<char>) -> Seq<char> {
    lower_case(join_scopes(key))
}

fn to_ascii_lower(c: char) -> (r: char)
    ensures
        r == ascii_lower(c),
{
    if 'A' <= c && c <= 'Z' {
        ((c as u8) + 32) as char
    } else {
        c
    }
}

/// Normalizes a key.
pub fn normalize_key(key: &str) -> (r: String)
    ensures
        r@ == normalize(key@),
{
    let s = to_chars(key);
    let mut r = String::new();
    let mut i: usize = 0;
    assert(s@.skip(0) =~= s@);
    assert(r@ + normalize(s@) =~= normalize(s@));
    while i < s.len()
        invariant
            i <= s.len(),
            normalize(s@) == r@ + normalize(s@.skip(i as int)),
        decreases s.len() - i,
    {
        let ghost rest = s@.skip(i as int);
        let ghost done = r@;
        if s.len() - i >= 2 && ((s[i] == ':' && s[i + 1] == ':') || (s[i] == '-' && s[i + 1] == '>')) {
            r.push('.');
            assert(rest.skip(2) =~= s@.skip(i + 2));
            assert(normalize(rest) =~= seq!['.'] + normalize(rest.skip(2)));
            assert(r@ + normalize(s@.skip(i + 2)) =~= done + normalize(rest));
            i += 2;
        } else {
            r.push(to_ascii_lower(s[i]));
            assert(rest.skip(1) =~= s@.skip(i + 1));
            assert(normalize(rest) =~= seq![ascii_lower(rest[0])] + normalize(rest.skip(1)));
            assert(r@ + normalize(s@.skip(i + 1)) =~= done + normalize(rest));
            i += 1;
        }
    }
    assert(normalize(s@.skip(s@.len() as int)) =~= Seq::<char>::empty());
    assert(r@ + Seq::<char>::empty() =~= r@);
    r
}

/// The counters of a store as a mathematical value: the keys in the order
/// in which they came into the store, and the value of each.
pub struct Counters {
    pub order: Seq<Seq<char>>,
    pub values: Map<Seq<char>, i64>,
}

impl Counters {
    /// No counters.
    pub open spec fn empty() -> Counters {
        Counters { order: Seq::empty(), values: Map::empty() }
    }

    /// `order` lists each key that has a value, once.
    pub open spec fn wf(self) -> bool {
        &&& self.order.no_duplicates()
        &&& forall|key: Seq<char>| self.values.contains_key(key) <==> self.order.contains(key)
    }

    /// The value kept under `key`, taken as it is; 0 where there is none.
    pub open spec fn value(self, key: Seq<char>) -> i64 {
        if self.values.contains_key(key) {
            self.values[key]
        } else {
            0
        }
    }

    /// The counters with `value` under `key`. A new key goes to the end of
    /// the order.
    pub open spec fn put(self, key: Seq<char>, value: i64) -> Counters {
        Counters {
            order: if self.values.contains_key(key) {
                self.order
            } else {
                self.order.push(key)
            },
            values: self.values.insert(key, value),
        }
    }
}

/// `put` keeps the counters well formed.
pub proof fn lemma_put_wf(c: Counters, key: Seq<char>, value: i64)
    requires
        c.wf(),
    ensures
        c.put(key, value).wf(),
{
    let d = c.put(key, value);
    assert forall|k: Seq<char>| d.values.contains_key(k) <==> d.order.contains(k) by {
        assert(c.values.contains_key(k) <==> c.order.contains(k));
        if !c.values.contains_key(key) {
            if k == key {
                assert(d.order[c.order.len() as int] == key);
            } else if c.order.contains(k) {
                let i = choose|i: int| 0 <= i < c.order.len() && c.order[i] == k;
                assert(d.order[i] == k);
            }
        }
    }
    if !c.values.contains_key(key) {
        assert(!c.order.contains(key));
        assert forall|i: int, j: int| 0 <= i < d.order.len() && 0 <= j < d.order.len() && i != j
            implies d.order[i] != d.order[j] by {
            if i < c.order.len() && j < c.order.len() {
                assert(c.order[i] != c.order[j]);
            } else if i < c.order.len() {
                assert(c.order.contains(c.order[i]));
            } else {
                assert(c.order.contains(c.order[j]));
            }
        }
    }
}

/// `line` without the carriage return at its end, if it has one.
pub open spec fn without_cr(line: Seq<u8>) -> Seq<u8> {
    if line.len() > 0 && line.last() == CARRIAGE_RETURN {
        line.drop_last()
    } else {
        line
    }
}

/// The lines of `bytes` from `i` on. A line ends at a line feed, which is
/// not part of it, nor is a carriage return just before the line feed. What
/// follows the last line feed is a line too, unless it is empty.
pub open spec fn lines_from(bytes: Seq<u8>, i: int) -> Seq<Seq<u8>>
    decreases bytes.len() - i,
{
    if i < 0 || i >= bytes.len() {
        Seq::empty()
    } else {
        let n = find_byte(bytes, LINE_FEED, i);
        if n >= bytes.len() {
            seq![bytes.subrange(i, bytes.len() as int)]
        } else {
            proof {
                lemma_find_byte(bytes, LINE_FEED, i);
            }
            seq![without_cr(bytes.subrange(i, n))] + lines_from(bytes, n + 1)
        }
    }
}

/// The lines of a store file.
pub open spec fn file_lines(bytes: Seq<u8>) -> Seq<Seq<u8>> {
    lines_from(bytes, 0)
}

/// Why a line of a store file holds no counter.
#[derive(Debug, Clone, Copy, PartialEq, Eq, Structural)]
pub enum LineError {
    /// The line has no colon.
    Format,
    /// What stands before the first colon is not UTF-8.
    Key,
    /// What stands after the first colon is not a 64-bit decimal integer.
    Value,
}

/// The counter that a line of a store file holds: the key is the text
/// before the first colon, taken as it is, and the value is the decimal
/// integer after it.
pub open spec fn db_line(line: Seq<u8>) -> Result<(Seq<char>, i64), LineError> {
    let colon = find_byte(line, COLON, 0);
    if colon >= line.len() {
        Err(LineError::Format)
    } else if !valid_utf8(line.subrange(0, colon)) {
        Err(LineError::Key)
    } else {
        match parse_i64_spec(line.subrange(colon + 1, line.len() as int)) {
            Some(value) => Ok((decode_utf8(line.subrange(0, colon)), value)),
            None => Err(LineError::Value),
        }
    }
}

/// The counters that a list of lines holds. A line that holds none is
/// passed over, and of two lines with one key the later one counts.
pub open spec fn load_lines(lines: Seq<Seq<u8>>) -> Counters
    decreases lines.len(),
{
    if lines.len() == 0 {
        Counters::empty()
    } else {
        let counters = load_lines(lines.drop_last());
        match db_line(lines.last()) {
            Ok((key, value)) => counters.put(key, value),
            Err(_) => counters,
        }
    }
}

/// The counters that a store file holds.
pub open spec fn load(bytes: Seq<u8>) -> Counters {
    load_lines(file_lines(bytes))
}

/// The line of a store file that holds `value` under `key`, with its line
/// feed.
pub open spec fn entry_line(key: Seq<char>, value: i64) -> Seq<u8> {
    encode_utf8(key) + seq![COLON] + render(value as int) + seq![LINE_FEED]
}

/// The lines for the keys in `order`, one after the other.
pub open spec fn dump_entries(order: Seq<Seq<char>>, values: Map<Seq<char>, i64>) -> Seq<u8>
    decreases order.len(),
{
    if order.len() == 0 {
        Seq::empty()
    } else {
        dump_entries(order.drop_last(), values) + entry_line(order.last(), values[order.last()])
    }
}

/// The store file for `counters`: one line for each, in their order.
pub open spec fn dump(counters: Counters) -> Seq<u8> {
    dump_entries(counters.order, counters.values)
}

/// Reads one line of a store file.
pub fn parse_db_line(line: &[u8]) -> (r: Result<(String, i64), LineError>)
    ensures
        match r {
            Ok((key, value)) => db_line(line@) == Ok::<(Seq<char>, i64), LineError>((key@, value)),
            Err(e) => db_line(line@) == Err::<(Seq<char>, i64), LineError>(e),
        },
{
    let colon = position(line, COLON, 0);
    if colon >= line.len() {
        return Err(LineError::Format);
    }
    match utf8_text(slice_subrange(line, 0, colon)) {
        None => Err(LineError::Key),
        Some(key) => match parse_i64(slice_subrange(line, colon + 1, line.len())) {
            Some(value) => Ok((key, value)),
            None => Err(LineError::Value),
        },
    }
}

/// The line of `bytes` that starts at `i`, and where the next one starts.
fn next_line(bytes: &[u8], i: usize) -> (r: (&[u8], usize))
    requires
        i < bytes.len(),
    ensures
        i < r.1 <= bytes.len(),
        lines_from(bytes@, i as int) == seq![r.0@] + lines_from(bytes@, r.1 as int),
{
    let n = position(bytes, LINE_FEED, i);
    if n < bytes.len() {
        let end = if n > i && bytes[n - 1] == CARRIAGE_RETURN {
            n - 1
        } else {
            n
        };
        let line = slice_subrange(bytes, i, end);
        proof {
            let whole = bytes@.subrange(i as int, n as int);
            if n > i && bytes[n - 1] == CARRIAGE_RETURN {
                assert(whole.drop_last() =~= line@);
            } else {
                assert(whole =~= line@);
            }
        }
        (line, n + 1)
    } else {
        let line = slice_subrange(bytes, i, n);
        proof {
            assert(lines_from(bytes@, n as int) =~= Seq::<Seq<u8>>::empty());
            assert(seq![line@] + lines_from(bytes@, n as int) =~= seq![line@]);
        }
        (line, n)
    }
}

/// Reads the counters of a store file.
fn parse_zot_db(bytes: &[u8]) -> (table: Table)
    ensures
        table.counters() == load(bytes@),
        table.counters().wf(),
{
    let mut table = Table::new();
    let mut i: usize = 0;
    let ghost mut lines: Seq<Seq<u8>> = Seq::empty();
    assert(lines + lines_from(bytes@, 0) =~= file_lines(bytes@));
    while i < bytes.len()
        invariant
            i <= bytes.len(),
            file_lines(bytes@) == lines + lines_from(bytes@, i as int),
            table.counters() == load_lines(lines),
            table.counters().wf(),
        decreases bytes.len() - i,
    {
        let (line, next) = next_line(bytes, i);
        proof {
            assert(lines.push(line@) + lines_from(bytes@, next as int) =~= lines + lines_from(
                bytes@,
                i as int,
            ));
            assert(lines.push(line@).drop_last() =~= lines);
        }
        match parse_db_line(line) {
            Ok((key, value)) => {
                proof {
                    lemma_put_wf(table.counters(), key@, value);
                }
                table.put(key, value);
            },
            Err(_) => {},
        }
        proof {
            lines = lines.push(line@);
        }
        i = next;
    }
    assert(lines + lines_from(bytes@, i as int) =~= lines);
    table
}

/// The lines among `lines` that hold no counter, in their order, each with
/// the reason.
pub open spec fn rejected(lines: Seq<Seq<u8>>) -> Seq<(Seq<u8>, LineError)>
    decreases lines.len(),
{
    if lines.len() == 0 {
        Seq::empty()
    } else {
        match db_line(lines.last()) {
            Ok(_) => rejected(lines.drop_last()),
            Err(e) => rejected(lines.drop_last()).push((lines.last(), e)),
        }
    }
}

/// A list of lines and reasons as a mathematical value.
pub open spec fn rejections(list: Seq<(Vec<u8>, LineError)>) -> Seq<(Seq<u8>, LineError)> {
    list.map_values(|r: (Vec<u8>, LineError)| (r.0@, r.1))
}

/// The lines of a store file that `RotDb::new` passes over, in their order,
/// each with the reason.
pub fn rejected_lines(stored: &[u8]) -> (list: Vec<(Vec<u8>, LineError)>)
    ensures
        rejections(list@) == rejected(file_lines(stored@)),
{
    let mut list: Vec<(Vec<u8>, LineError)> = Vec::new();
    let mut i: usize = 0;
    let ghost mut lines: Seq<Seq<u8>> = Seq::empty();
    assert(lines + lines_from(stored@, 0) =~= file_lines(stored@));
    assert(rejections(list@) =~= rejected(lines));
    while i < stored.len()
        invariant
            i <= stored.len(),
            file_lines(stored@) == lines + lines_from(stored@, i as int),
            rejections(list@) == rejected(lines),
        decreases stored.len() - i,
    {
        let (line, next) = next_line(stored, i);
        proof {
            assert(lines.push(line@) + lines_from(stored@, next as int) =~= lines + lines_from(
                stored@,
                i as int,
            ));
            assert(lines.push(line@).drop_last() =~= lines);
        }
        match parse_db_line(line) {
            Ok(_) => {},
            Err(e) => {
                let ghost before = list@;
                list.push((slice_to_vec(line), e));
                assert(rejections(list@) =~= rejections(before).push((line@, e)));
            },
        }
        proof {
            lines = lines.push(line@);
        }
        i = next;
    }
    assert(lines + lines_from(stored@, i as int) =~= lines);
    list
}

/// A store as a mathematical value.
pub struct Store {
    /// Where the store is kept.
    pub path: Seq<char>,
    pub counters: Counters,
    /// Whether a counter changed since the store was last written out.
    pub dirty: bool,
}

impl Store {
    /// The value of the counter that `key` names: the one kept under the
    /// key's normal form, or 0.
    pub open spec fn value(self, key: Seq<char>) -> i64 {
        self.counters.value(normalize(key))
    }

    /// The store after `step` was added to the counter that `key` names:
    /// the new value stands under the key's normal form, and the store is
    /// dirty.
    pub open spec fn add(self, key: Seq<char>, step: int) -> Store {
        Store {
            counters: self.counters.put(normalize(key), (self.value(key) + step) as i64),
            dirty: true,
            ..self
        }
    }
}

struct Table {
    keys: Vec<String>,
    values: StringHashMap<i64>,
}

impl Table {
    spec fn counters(&self) -> Counters {
        Counters { order: self.keys@.map_values(|key: String| key@), values: self.values@ }
    }

    fn new() -> (t: Table)
        ensures
            t.counters() == Counters::empty(),
    {
        let t = Table { keys: Vec::new(), values: StringHashMap::new() };
        assert(t.counters().order =~= Seq::<Seq<char>>::empty());
        t
    }

    fn get(&self, key: &str) -> (r: i64)
        ensures
            r == self.counters().value(key@),
    {
        match self.values.get(key) {
            Some(value) => *value,
            None => 0,
        }
    }

    fn put(&mut self, key: String, value: i64)
        ensures
            final(self).counters() == old(self).counters().put(key@, value),
    {
        if !self.values.contains_key(key.as_str()) {
            let ghost before = self.keys@;
            self.keys.push(key.clone());
            assert(self.keys@.map_values(|key: String| key@) =~= before.map_values(
                |key: String| key@,
            ).push(key@));
        }
        self.values.insert(key, value);
    }
}

/// The counter store.
pub struct RotDb {
    filename: String,
    table: Table,
    dirty: bool,
}

impl View for RotDb {
    type V = Store;

    closed spec fn view(&self) -> Store {
        Store { path: self.filename@, counters: self.table.counters(), dirty: self.dirty }
    }
}

impl RotDb {
    #[verifier::type_invariant]
    spec fn inv(self) -> bool {
        self.table.counters().wf()
    }

    /// The store kept at `filename`, with the counters that the file held:
    /// `stored` is what was read from it, or `None` where there was nothing
    /// to read, which gives an empty store. A line of the file that holds
    /// no counter is passed over. The new store is not dirty.
    pub fn new(filename: &str, stored: Option<&[u8]>) -> (db: RotDb)
        ensures
            db@ == (Store {
                path: filename@,
                counters: match stored {
                    Some(bytes) => load(bytes@),
                    None => Counters::empty(),
                },
                dirty: false,
            }),
            db@.counters.wf(),
    {
        let table = match stored {
            Some(bytes) => parse_zot_db(bytes),
            None => Table::new(),
        };
        RotDb { filename: filename.to_owned(), table, dirty: false }
    }

    /// Where the store is kept.
    pub fn filename(&self) -> (name: &str)
        ensures
            name@ == self@.path,
    {
        self.filename.as_str()
    }

    /// Whether a counter changed since the store was last written out.
    pub fn is_dirty(&self) -> (dirty: bool)
        ensures
            dirty == self@.dirty,
    {
        self.dirty
    }

    /// What a flush has to write: the whole store file, where the store is
    /// dirty, and `None`, nothing at all, where it is not.
    pub fn sync(&self) -> (r: Option<Vec<u8>>)
        ensures
            match r {
                Some(bytes) => self@.dirty && bytes@ == dump(self@.counters),
                None => !self@.dirty,
            },
    {
        if !self.dirty {
            return None;
        }
        proof {
            use_type_invariant(self);
        }
        let ghost order = self@.counters.order;
        let ghost values = self@.counters.values;
        let mut out: Vec<u8> = Vec::new();
        let mut i: usize = 0;
        assert(order.take(0) =~= Seq::<Seq<char>>::empty());
        while i < self.table.keys.len()
            invariant
                i <= self.table.keys.len(),
                order == self.table.counters().order,
                values == self.table.counters().values,
                self.table.counters().wf(),
                out@ == dump_entries(order.take(i as int), values),
            decreases self.table.keys.len() - i,
        {
            let key = &self.table.keys[i];
            assert(order[i as int] == key@);
            assert(order.contains(key@));
            let value = self.table.get(key.as_str());
            let ghost before = out@;
            out.extend_from_slice(key.as_str().as_bytes());
            out.push(COLON);
            let digits = render_i64(value);
            out.extend_from_slice(digits.as_slice());
            out.push(LINE_FEED);
            proof {
                assert(order.take(i + 1).drop_last() =~= order.take(i as int));
                assert(order.take(i + 1).last() == key@);
                assert(out@ =~= before + entry_line(key@, value));
            }
            i += 1;
        }
        assert(order.take(i as int) =~= order);
        Some(out)
    }

    /// Records how the write of what `sync` returned has ended: after a
    /// write that succeeded the store is no longer dirty, after one that
    /// failed it is as it was.
    pub fn flushed(&mut self, written: bool)
        ensures
            final(self)@ == (Store { dirty: old(self)@.dirty && !written, ..old(self)@ }),
    {
        proof {
            use_type_invariant(&*self);
        }
        if written {
            self.dirty = false;
        }
    }

    /// The value of the counter that `key` names; 0 where the store has no
    /// such counter. The store is left as it is.
    pub fn value(&self, key: &str) -> (r: i64)
        ensures
            r == self@.value(key@),
    {
        let key = normalize_key(key);
        self.table.get(key.as_str())
    }

    /// Adds 1 to the counter that `key` names, which starts from 0, and
    /// marks the store dirty. Returns the new value.
    pub fn increment(&mut self, key: &str) -> (r: i64)
        requires
            old(self)@.value(key@) < i64::MAX,
        ensures
            r == old(self)@.value(key@) + 1,
            final(self)@ == old(self)@.add(key@, 1),
            final(self)@.counters.wf(),
    {
        self.add(key, 1)
    }

    /// Subtracts 1 from the counter that `key` names, which starts from 0,
    /// and marks the store dirty. Returns the new value.
    pub fn decrement(&mut self, key: &str) -> (r: i64)
        requires
            old(self)@.value(key@) > i64::MIN,
        ensures
            r == old(self)@.value(key@) - 1,
            final(self)@ == old(self)@.add(key@, -1),
            final(self)@.counters.wf(),
    {
        self.add(key, -1)
    }

    fn add(&mut self, key: &str, step: i64) -> (r: i64)
        requires
            step == 1 || step == -1,
            i64::MIN <= old(self)@.value(key@) + step <= i64::MAX,
        ensures
            r == old(self)@.value(key@) + step,
            final(self)@ == old(self)@.add(key@, step as int),
            final(self)@.counters.wf(),
    {
        proof {
            use_type_invariant(&*self);
        }
        let key = normalize_key(key);
        let value = self.table.get(key.as_str()) + step;
        let mut table = Table::new();
        std::mem::swap(&mut table, &mut self.table);
        proof {
            lemma_put_wf(table.counters(), key@, value);
        }
        table.put(key, value);
        self.table = table;
        self.dirty = true;
        value
    }
}

} // verus!
