//! Core value types: byte buffers, value entries, lookups and memtable rows.
use vstd::prelude::*;
use crate::error::{ascii_chars, ascii_string};

verus! {

/// Monotonic write sequence number.
pub type SeqNum = u64;

/// Immutable byte buffer.
#[derive(Clone, PartialEq, Eq, PartialOrd, Ord, Hash, Debug)]
pub struct Bytes(Vec<u8>);

impl View for Bytes {
    type V = Seq<u8>;

    closed spec fn view(&self) -> Seq<u8> {
        self.0@
    }
}

impl Bytes {
    /// An empty buffer.
    pub fn empty() -> (r: Bytes)
        ensures
            r@ == Seq::<u8>::empty(),
    {
        Bytes(Vec::new())
    }

    /// Copies `data` into a new buffer.
    pub fn copy_from_slice(data: &[u8]) -> (r: Bytes)
        ensures
            r@ == data@,
    {
        Bytes(vstd::slice::slice_to_vec(data))
    }

    /// Returns the underlying slice.
    pub fn as_slice(&self) -> (r: &[u8])
        ensures
            r@ == self@,
    {
        self.0.as_slice()
    }

    /// Returns the byte length.
    pub fn len(&self) -> (r: usize)
        ensures
            r == self@.len(),
    {
        self.0.len()
    }

    /// Returns whether the buffer is empty.
    pub fn is_empty(&self) -> (r: bool)
        ensures
            r == (self@.len() == 0),
    {
        self.0.len() == 0
    }

    /// A copy of this buffer with the same contents.
    pub fn duplicate(&self) -> (r: Bytes)
        ensures
            r@ == self@,
    {
        Bytes::copy_from_slice(self.0.as_slice())
    }
}

/// A hexadecimal digit, lower case, as an ASCII byte.
pub open spec fn hex_digit(d: u8) -> u8 {
    if d < 10 {
        (48 + d) as u8
    } else {
        (87 + d) as u8
    }
}

/// How one byte is written inside a byte-string literal: a backslash or a
/// double quote behind a backslash, printable ASCII as itself, anything else
/// as `\x` and two lower-case hex digits.
pub open spec fn escape_byte(b: u8) -> Seq<u8> {
    if b == 92 {
        seq![92u8, 92u8]
    } else if b == 34 {
        seq![92u8, 34u8]
    } else if 0x20 <= b <= 0x7e {
        seq![b]
    } else {
        seq![92u8, 120u8, hex_digit(b / 16), hex_digit(b % 16)]
    }
}

/// The escaped bytes of `s`, one byte after another.
pub open spec fn escape_bytes(s: Seq<u8>) -> Seq<u8>
    decreases s.len(),
{
    if s.len() == 0 {
        Seq::empty()
    } else {
        escape_bytes(s.drop_last()) + escape_byte(s.last())
    }
}

/// The byte-string literal that shows `s`: `b"`, the escaped bytes, `"`.
pub open spec fn bytes_literal(s: Seq<u8>) -> Seq<u8> {
    seq![98u8, 34u8] + escape_bytes(s) + seq![34u8]
}

/// Appends the escape of `b` to `out`.
fn push_escaped(out: &mut Vec<u8>, b: u8)
    requires
        forall|i: int| 0 <= i < old(out)@.len() ==> #[trigger] old(out)@[i] < 128,
    ensures
        final(out)@ == old(out)@ + escape_byte(b),
        forall|i: int| 0 <= i < final(out)@.len() ==> #[trigger] final(out)@[i] < 128,
{
    if b == 92 {
        out.push(92u8);
        out.push(92u8);
    } else if b == 34 {
        out.push(92u8);
        out.push(34u8);
    } else if 0x20 <= b && b <= 0x7e {
        out.push(b);
    } else {
        let hi: u8 = b / 16;
        let lo: u8 = b % 16;
        out.push(92u8);
        out.push(120u8);
        out.push(if hi < 10 { 48u8 + hi } else { 87u8 + hi });
        out.push(if lo < 10 { 48u8 + lo } else { 87u8 + lo });
    }
    assert(final(out)@ =~= old(out)@ + escape_byte(b));
}

impl Bytes {
    /// The buffer shown as a byte-string literal, `b"..."`, with backslash and
    /// double quote escaped, printable ASCII as itself and every other byte as
    /// `\xHH` in lower-case hex.
    pub fn debug_string(&self) -> (s: String)
        ensures
            s@ == ascii_chars(bytes_literal(self@)),
    {
        let data = self.0.as_slice();
        let mut out: Vec<u8> = Vec::new();
        out.push(98u8);
        out.push(34u8);
        let mut i: usize = 0;
        while i < data.len()
            invariant
                i <= data@.len(),
                data@ == self@,
                out@ == seq![98u8, 34u8] + escape_bytes(data@.subrange(0, i as int)),
                forall|j: int| 0 <= j < out@.len() ==> #[trigger] out@[j] < 128,
            decreases data@.len() - i,
        {
            proof {
                let t = data@.subrange(0, i as int + 1);
                assert(t.drop_last() =~= data@.subrange(0, i as int));
                assert(t.last() == data@[i as int]);
            }
            push_escaped(&mut out, data[i]);
            i = i + 1;
        }
        out.push(34u8);
        proof {
            assert(data@.subrange(0, data@.len() as int) =~= data@);
            assert(out@ =~= bytes_literal(self@));
        }
        ascii_string(out)
    }
}

impl From<Vec<u8>> for Bytes {
    fn from(value: Vec<u8>) -> (r: Bytes)
        ensures
            r@ == value@,
    {
        Bytes(value)
    }
}

impl vstd::std_specs::convert::FromSpecImpl<Vec<u8>> for Bytes {
    open spec fn obeys_from_spec() -> bool {
        true
    }

    closed spec fn from_spec(v: Vec<u8>) -> Bytes {
        Bytes(v)
    }
}

/// Stored value or tombstone.
#[derive(Clone, Debug, PartialEq, Eq)]
pub enum ValueEntry {
    /// Live value.
    Value(Bytes),
    /// Deletion marker.
    Tombstone,
}

impl View for ValueEntry {
    /// `Some(bytes)` for a live value, `None` for a tombstone.
    type V = Option<Seq<u8>>;

    open spec fn view(&self) -> Option<Seq<u8>> {
        match self {
            ValueEntry::Value(v) => Some(v@),
            ValueEntry::Tombstone => None,
        }
    }
}

impl ValueEntry {
    /// Returns whether this entry is a tombstone.
    pub fn is_tombstone(&self) -> (r: bool)
        ensures
            r == (self is Tombstone),
    {
        match self {
            ValueEntry::Value(_) => false,
            ValueEntry::Tombstone => true,
        }
    }

    /// Returns the value, if any.
    pub fn value(&self) -> (r: Option<&Bytes>)
        ensures
            match self {
                ValueEntry::Value(v) => r == Some(v),
                ValueEntry::Tombstone => r is None,
            },
    {
        match self {
            ValueEntry::Value(v) => Some(v),
            ValueEntry::Tombstone => None,
        }
    }

    /// A copy of this entry with the same view.
    pub fn duplicate(&self) -> (r: ValueEntry)
        ensures
            r@ == self@,
    {
        match self {
            ValueEntry::Value(v) => ValueEntry::Value(v.duplicate()),
            ValueEntry::Tombstone => ValueEntry::Tombstone,
        }
    }
}

/// Result of a single-layer key lookup.
#[derive(Clone, Debug, PartialEq, Eq)]
pub enum Lookup {
    /// Key present with a value.
    Found(Bytes),
    /// Key present as a tombstone.
    Deleted,
}

impl View for Lookup {
    /// `Some(bytes)` for a found value, `None` for a tombstone.
    type V = Option<Seq<u8>>;

    open spec fn view(&self) -> Option<Seq<u8>> {
        match self {
            Lookup::Found(v) => Some(v@),
            Lookup::Deleted => None,
        }
    }
}

impl Lookup {
    /// Returns the value, or `None` for a tombstone.
    pub fn into_value(self) -> (r: Option<Bytes>)
        ensures
            match self {
                Lookup::Found(v) => r == Some(v),
                Lookup::Deleted => r is None,
            },
    {
        match self {
            Lookup::Found(v) => Some(v),
            Lookup::Deleted => None,
        }
    }
}

impl From<ValueEntry> for Lookup {
    fn from(entry: ValueEntry) -> (r: Lookup) {
        match entry {
            ValueEntry::Value(v) => Lookup::Found(v),
            ValueEntry::Tombstone => Lookup::Deleted,
        }
    }
}

impl vstd::std_specs::convert::FromSpecImpl<ValueEntry> for Lookup {
    open spec fn obeys_from_spec() -> bool {
        true
    }

    open spec fn from_spec(entry: ValueEntry) -> Lookup {
        match entry {
            ValueEntry::Value(v) => Lookup::Found(v),
            ValueEntry::Tombstone => Lookup::Deleted,
        }
    }
}

/// The mathematical content of one memtable row.
pub struct RowView {
    /// User key.
    pub key: Seq<u8>,
    /// `Some(value)` for a live value, `None` for a tombstone.
    pub value: Option<Seq<u8>>,
    /// Sequence number of the winning write.
    pub seq: u64,
}

/// One MemTable row with its winning sequence number.
#[derive(Clone, Debug, PartialEq, Eq)]
pub struct MemtableEntry {
    /// User key.
    pub key: Bytes,
    /// Value or tombstone.
    pub entry: ValueEntry,
    /// Sequence number of the winning write.
    pub seq: SeqNum,
}

impl View for MemtableEntry {
    type V = RowView;

    open spec fn view(&self) -> RowView {
        RowView { key: self.key@, value: self.entry@, seq: self.seq }
    }
}

impl MemtableEntry {
    /// A copy of this row with the same view.
    pub fn duplicate(&self) -> (r: MemtableEntry)
        ensures
            r@ == self@,
    {
        MemtableEntry { key: self.key.duplicate(), entry: self.entry.duplicate(), seq: self.seq }
    }
}


// ---------------------------------------------------------------------------
// Byte-string order
// ---------------------------------------------------------------------------

/// Lexicographic "less than" of `a` and `b`, comparing from index `i` on
/// (the bytes before `i` are taken as equal).
pub open spec fn lex_lt_from(a: Seq<u8>, b: Seq<u8>, i: int) -> bool
    decreases a.len() - i,
{
    if i < 0 || i >= a.len() {
        0 <= i < b.len()
    } else if i >= b.len() {
        false
    } else if a[i] != b[i] {
        a[i] < b[i]
    } else {
        lex_lt_from(a, b, i + 1)
    }
}

/// Lexicographic order on byte strings, the order of `[u8]` in Rust: a proper
/// prefix comes first, otherwise the first differing byte decides.
pub open spec fn lex_lt(a: Seq<u8>, b: Seq<u8>) -> bool {
    lex_lt_from(a, b, 0)
}

/// Comparing from `j` is comparing from `i` when the bytes in between agree.
proof fn lemma_lex_from_skip(a: Seq<u8>, b: Seq<u8>, j: int, i: int)
    requires
        0 <= j <= i,
        i <= a.len(),
        i <= b.len(),
        forall|k: int| j <= k < i ==> a[k] == b[k],
    ensures
        lex_lt_from(a, b, j) == lex_lt_from(a, b, i),
    decreases i - j,
{
    if j < i {
        lemma_lex_from_skip(a, b, j + 1, i);
    }
}

/// The byte-string order is the unsigned one: where `a` and `b` first
/// differ, at `i`, `a` comes first exactly when its byte there is the smaller
/// number in `0..=255` (so `[0x7A]` comes before `[0xC3, 0xA9]`).
pub proof fn lemma_lex_first_difference(a: Seq<u8>, b: Seq<u8>, i: int)
    requires
        0 <= i < a.len(),
        i < b.len(),
        a.subrange(0, i) == b.subrange(0, i),
        a[i] != b[i],
    ensures
        lex_lt(a, b) <==> (a[i] as int) < (b[i] as int),
        lex_lt(b, a) <==> (b[i] as int) < (a[i] as int),
{
    assert forall|k: int| 0 <= k < i implies a[k] == b[k] by {
        assert(a[k] == a.subrange(0, i)[k]);
        assert(b[k] == b.subrange(0, i)[k]);
    }
    lemma_lex_from_skip(a, b, 0, i);
    lemma_lex_from_skip(b, a, 0, i);
}

/// A proper prefix comes before the longer string, and no string comes
/// before one of its own prefixes.
pub proof fn lemma_lex_prefix(a: Seq<u8>, b: Seq<u8>)
    requires
        a.len() <= b.len(),
        a == b.subrange(0, a.len() as int),
    ensures
        lex_lt(a, b) <==> a.len() < b.len(),
        !lex_lt(b, a),
{
    assert forall|k: int| 0 <= k < a.len() implies a[k] == b[k] by {
        assert(a[k] == b.subrange(0, a.len() as int)[k]);
    }
    lemma_lex_from_skip(a, b, 0, a.len() as int);
    lemma_lex_from_skip(b, a, 0, a.len() as int);
}

/// No byte string is below itself.
pub proof fn lemma_lex_irreflexive(a: Seq<u8>, i: int)
    requires
        0 <= i,
    ensures
        !lex_lt_from(a, a, i),
    decreases a.len() - i,
{
    if i < a.len() {
        lemma_lex_irreflexive(a, i + 1);
    }
}

/// The order is transitive.
pub proof fn lemma_lex_transitive(a: Seq<u8>, b: Seq<u8>, c: Seq<u8>, i: int)
    requires
        0 <= i,
        lex_lt_from(a, b, i),
        lex_lt_from(b, c, i),
    ensures
        lex_lt_from(a, c, i),
    decreases a.len() - i,
{
    if i < a.len() && i < b.len() && i < c.len() && a[i] == b[i] && b[i] == c[i] {
        lemma_lex_transitive(a, b, c, i + 1);
    }
}

/// Any two byte strings that agree before `i` are ordered one way or the
/// other, or agree from `i` on as well.
pub proof fn lemma_lex_total(a: Seq<u8>, b: Seq<u8>, i: int)
    requires
        0 <= i <= a.len(),
        i <= b.len(),
    ensures
        lex_lt_from(a, b, i) || lex_lt_from(b, a, i) || (a.len() == b.len() && forall|k: int|
            i <= k < a.len() ==> a[k] == b[k]),
    decreases a.len() - i,
{
    if i < a.len() && i < b.len() && a[i] == b[i] {
        lemma_lex_total(a, b, i + 1);
    }
}

/// Two distinct byte strings are ordered one way or the other.
pub proof fn lemma_lex_connected(a: Seq<u8>, b: Seq<u8>)
    ensures
        lex_lt(a, b) || lex_lt(b, a) || a == b,
{
    lemma_lex_total(a, b, 0);
    if !lex_lt(a, b) && !lex_lt(b, a) {
        assert(a =~= b);
    }
}

/// Two ordered byte strings differ, and are not ordered the other way.
pub proof fn lemma_lex_asymmetric(a: Seq<u8>, b: Seq<u8>)
    requires
        lex_lt(a, b),
    ensures
        !lex_lt(b, a),
        a != b,
{
    lemma_lex_irreflexive(a, 0);
    if lex_lt(b, a) {
        lemma_lex_transitive(a, b, a, 0);
    }
}

/// Whether `a` comes before `b` in lexicographic order.
pub fn bytes_lt(a: &[u8], b: &[u8]) -> (r: bool)
    ensures
        r == lex_lt(a@, b@),
{
    let mut i: usize = 0;
    while i < a.len() && i < b.len()
        invariant
            i <= a@.len(),
            i <= b@.len(),
            lex_lt(a@, b@) == lex_lt_from(a@, b@, i as int),
        decreases a@.len() - i,
    {
        if a[i] != b[i] {
            return a[i] < b[i];
        }
        i = i + 1;
    }
    a.len() < b.len()
}

/// Whether `a` and `b` hold the same bytes.
pub fn bytes_eq(a: &[u8], b: &[u8]) -> (r: bool)
    ensures
        r == (a@ == b@),
{
    if a.len() != b.len() {
        return false;
    }
    let mut i: usize = 0;
    while i < a.len()
        invariant
            i <= a@.len(),
            a@.len() == b@.len(),
            forall|k: int| 0 <= k < i ==> a@[k] == b@[k],
        decreases a@.len() - i,
    {
        if a[i] != b[i] {
            return false;
        }
        i = i + 1;
    }
    assert(a@ =~= b@);
    true
}


// ---------------------------------------------------------------------------
// Rows: the model of an ordered table
// ---------------------------------------------------------------------------

/// What a table holds for one key: the sequence number of the winning write
/// and its value (`None` for a tombstone).
pub open spec fn slot_of(r: RowView) -> (u64, Option<Seq<u8>>) {
    (r.seq, r.value)
}

/// Rows whose keys strictly ascend.
pub open spec fn rows_sorted(rows: Seq<RowView>) -> bool {
    forall|i: int, j: int| 0 <= i < j < rows.len() ==> lex_lt(#[trigger] rows[i].key, #[trigger] rows[j].key)
}

/// The map from key to slot that a sequence of rows describes (a later row
/// wins over an earlier one with the same key).
pub open spec fn rows_map(rows: Seq<RowView>) -> Map<Seq<u8>, (u64, Option<Seq<u8>>)>
    decreases rows.len(),
{
    if rows.len() == 0 {
        Map::empty()
    } else {
        rows_map(rows.drop_last()).insert(rows.last().key, slot_of(rows.last()))
    }
}

/// The user bytes a row accounts for: its key and, for a live value, the value.
pub open spec fn row_bytes(r: RowView) -> nat {
    r.key.len() + match r.value {
        Some(v) => v.len(),
        None => 0,
    }
}

/// The number of values a `usize` counter can take.
pub open spec fn usize_range() -> int {
    usize::MAX as int + 1
}

/// The user bytes of all rows.
pub open spec fn rows_size(rows: Seq<RowView>) -> nat
    decreases rows.len(),
{
    if rows.len() == 0 {
        0
    } else {
        rows_size(rows.drop_last()) + row_bytes(rows.last())
    }
}

/// The table after a write of `value` at `seq` to `key`: the write is
/// discarded when the key already holds a write with a higher sequence number.
pub open spec fn put_slot(
    m: Map<Seq<u8>, (u64, Option<Seq<u8>>)>,
    key: Seq<u8>,
    seq: u64,
    value: Option<Seq<u8>>,
) -> Map<Seq<u8>, (u64, Option<Seq<u8>>)> {
    if m.contains_key(key) && seq < m[key].0 {
        m
    } else {
        m.insert(key, (seq, value))
    }
}

/// Sorted rows have pairwise distinct keys.
pub proof fn lemma_sorted_distinct(rows: Seq<RowView>, i: int, j: int)
    requires
        rows_sorted(rows),
        0 <= i < rows.len(),
        0 <= j < rows.len(),
        i != j,
    ensures
        rows[i].key != rows[j].key,
{
    if i < j {
        lemma_lex_asymmetric(rows[i].key, rows[j].key);
    } else {
        lemma_lex_asymmetric(rows[j].key, rows[i].key);
    }
}

/// A prefix of sorted rows is sorted.
pub proof fn lemma_sorted_take(rows: Seq<RowView>, k: int)
    requires
        rows_sorted(rows),
        0 <= k <= rows.len(),
    ensures
        rows_sorted(rows.take(k)),
{
    assert forall|i: int, j: int| 0 <= i < j < rows.take(k).len() implies lex_lt(
        #[trigger] rows.take(k)[i].key,
        #[trigger] rows.take(k)[j].key,
    ) by {
        assert(rows.take(k)[i] == rows[i]);
        assert(rows.take(k)[j] == rows[j]);
    }
}

/// The keys of the map of sorted rows are the rows' keys, each mapped to its
/// row's slot, and there are as many as rows.
pub proof fn lemma_rows_map(rows: Seq<RowView>)
    requires
        rows_sorted(rows),
    ensures
        rows_map(rows).dom().finite(),
        rows_map(rows).len() == rows.len(),
        forall|k: Seq<u8>| #[trigger]
            rows_map(rows).contains_key(k) <==> exists|i: int| 0 <= i < rows.len() && rows[i].key == k,
        forall|i: int| 0 <= i < rows.len() ==> #[trigger] rows_map(rows)[rows[i].key] == slot_of(rows[i]),
    decreases rows.len(),
{
    if rows.len() > 0 {
        let init = rows.drop_last();
        lemma_sorted_take(rows, rows.len() - 1);
        assert(init =~= rows.take(rows.len() - 1));
        lemma_rows_map(init);
        let last = rows.last();
        assert(!rows_map(init).contains_key(last.key)) by {
            if rows_map(init).contains_key(last.key) {
                let i = choose|i: int| 0 <= i < init.len() && init[i].key == last.key;
                lemma_sorted_distinct(rows, i, rows.len() - 1);
            }
        }
        assert forall|k: Seq<u8>| #[trigger]
            rows_map(rows).contains_key(k) <==> exists|i: int| 0 <= i < rows.len() && rows[i].key == k by {
            if rows_map(rows).contains_key(k) && k != last.key {
                let i = choose|i: int| 0 <= i < init.len() && init[i].key == k;
                assert(rows[i].key == k);
            }
            if exists|i: int| 0 <= i < rows.len() && rows[i].key == k {
                let i = choose|i: int| 0 <= i < rows.len() && rows[i].key == k;
                if i < rows.len() - 1 {
                    assert(init[i].key == k);
                }
            }
        }
        assert forall|i: int| 0 <= i < rows.len() implies #[trigger] rows_map(rows)[rows[i].key]
            == slot_of(rows[i]) by {
            if i < rows.len() - 1 {
                assert(init[i] == rows[i]);
                lemma_sorted_distinct(rows, i, rows.len() - 1);
            }
        }
    }
}

/// Inserting a row at its place in sorted rows inserts its key into the map.
pub proof fn lemma_rows_map_insert(rows: Seq<RowView>, p: int, r: RowView)
    requires
        rows_sorted(rows),
        rows_sorted(rows.insert(p, r)),
        0 <= p <= rows.len(),
    ensures
        rows_map(rows.insert(p, r)) == rows_map(rows).insert(r.key, slot_of(r)),
{
    let new_rows = rows.insert(p, r);
    lemma_rows_map(rows);
    lemma_rows_map(new_rows);
    assert forall|k: Seq<u8>| #[trigger] rows_map(new_rows).contains_key(k) <==> rows_map(
        rows,
    ).insert(r.key, slot_of(r)).contains_key(k) by {
        if exists|i: int| 0 <= i < new_rows.len() && new_rows[i].key == k {
            let i = choose|i: int| 0 <= i < new_rows.len() && new_rows[i].key == k;
            if i < p {
                assert(rows[i].key == k);
            } else if i > p {
                assert(rows[i - 1].key == k);
            }
        }
        if exists|i: int| 0 <= i < rows.len() && rows[i].key == k {
            let i = choose|i: int| 0 <= i < rows.len() && rows[i].key == k;
            if i < p {
                assert(new_rows[i].key == k);
            } else {
                assert(new_rows[i + 1].key == k);
            }
        }
        if k == r.key {
            assert(new_rows[p].key == k);
        }
    }
    assert forall|k: Seq<u8>| #[trigger] rows_map(new_rows).contains_key(k) implies rows_map(
        new_rows,
    )[k] == rows_map(rows).insert(r.key, slot_of(r))[k] by {
        let i = choose|i: int| 0 <= i < new_rows.len() && new_rows[i].key == k;
        assert(rows_map(new_rows)[new_rows[i].key] == slot_of(new_rows[i]));
        if i < p {
            assert(new_rows[i] == rows[i]);
            lemma_sorted_distinct(new_rows, i, p);
            assert(rows_map(rows)[rows[i].key] == slot_of(rows[i]));
        } else if i > p {
            assert(new_rows[i] == rows[i - 1]);
            lemma_sorted_distinct(new_rows, i, p);
            assert(rows_map(rows)[rows[i - 1].key] == slot_of(rows[i - 1]));
        }
    }
    assert(rows_map(new_rows) =~= rows_map(rows).insert(r.key, slot_of(r)));
}

/// Replacing a row by one with the same key updates that key in the map.
pub proof fn lemma_rows_map_update(rows: Seq<RowView>, p: int, r: RowView)
    requires
        rows_sorted(rows),
        0 <= p < rows.len(),
        r.key == rows[p].key,
    ensures
        rows_sorted(rows.update(p, r)),
        rows_map(rows.update(p, r)) == rows_map(rows).insert(r.key, slot_of(r)),
{
    let new_rows = rows.update(p, r);
    assert forall|i: int, j: int| 0 <= i < j < new_rows.len() implies lex_lt(
        #[trigger] new_rows[i].key,
        #[trigger] new_rows[j].key,
    ) by {
        assert(new_rows[i].key == rows[i].key);
        assert(new_rows[j].key == rows[j].key);
    }
    lemma_rows_map(rows);
    lemma_rows_map(new_rows);
    assert forall|k: Seq<u8>| #[trigger] rows_map(new_rows).contains_key(k) <==> rows_map(
        rows,
    ).insert(r.key, slot_of(r)).contains_key(k) by {
        if exists|i: int| 0 <= i < new_rows.len() && new_rows[i].key == k {
            let i = choose|i: int| 0 <= i < new_rows.len() && new_rows[i].key == k;
            assert(rows[i].key == k);
        }
        if exists|i: int| 0 <= i < rows.len() && rows[i].key == k {
            let i = choose|i: int| 0 <= i < rows.len() && rows[i].key == k;
            assert(new_rows[i].key == k);
        }
        if k == r.key {
            assert(new_rows[p].key == k);
        }
    }
    assert forall|k: Seq<u8>| #[trigger] rows_map(new_rows).contains_key(k) implies rows_map(
        new_rows,
    )[k] == rows_map(rows).insert(r.key, slot_of(r))[k] by {
        let i = choose|i: int| 0 <= i < new_rows.len() && new_rows[i].key == k;
        assert(rows_map(new_rows)[new_rows[i].key] == slot_of(new_rows[i]));
        if i != p {
            lemma_sorted_distinct(rows, i, p);
            assert(rows_map(rows)[rows[i].key] == slot_of(rows[i]));
        }
    }
    assert(rows_map(new_rows) =~= rows_map(rows).insert(r.key, slot_of(r)));
}

/// The byte count of concatenated rows is the sum of the parts.
pub proof fn lemma_rows_size_concat(a: Seq<RowView>, b: Seq<RowView>)
    ensures
        rows_size(a + b) == rows_size(a) + rows_size(b),
    decreases b.len(),
{
    if b.len() == 0 {
        assert(a + b =~= a);
    } else {
        assert((a + b).drop_last() =~= a + b.drop_last());
        lemma_rows_size_concat(a, b.drop_last());
    }
}

/// Inserting a row adds its bytes.
pub proof fn lemma_rows_size_insert(rows: Seq<RowView>, p: int, r: RowView)
    requires
        0 <= p <= rows.len(),
    ensures
        rows_size(rows.insert(p, r)) == rows_size(rows) + row_bytes(r),
{
    assert(rows.insert(p, r) =~= rows.take(p) + (seq![r] + rows.skip(p)));
    assert(rows =~= rows.take(p) + rows.skip(p));
    lemma_rows_size_concat(rows.take(p), seq![r] + rows.skip(p));
    lemma_rows_size_concat(seq![r], rows.skip(p));
    lemma_rows_size_concat(rows.take(p), rows.skip(p));
    assert(seq![r].drop_last() =~= Seq::<RowView>::empty());
    assert(rows_size(Seq::<RowView>::empty()) == 0);
    assert(seq![r].last() == r);
    assert(rows_size(seq![r]) == row_bytes(r));
}

/// Replacing a row swaps its bytes for the new row's.
pub proof fn lemma_rows_size_update(rows: Seq<RowView>, p: int, r: RowView)
    requires
        0 <= p < rows.len(),
    ensures
        rows_size(rows.update(p, r)) + row_bytes(rows[p]) == rows_size(rows) + row_bytes(r),
{
    let rest = rows.skip(p + 1);
    assert(rows.update(p, r) =~= rows.take(p) + (seq![r] + rest));
    assert(rows =~= rows.take(p) + (seq![rows[p]] + rest));
    lemma_rows_size_concat(rows.take(p), seq![r] + rest);
    lemma_rows_size_concat(seq![r], rest);
    lemma_rows_size_concat(rows.take(p), seq![rows[p]] + rest);
    lemma_rows_size_concat(seq![rows[p]], rest);
    assert(seq![r].drop_last() =~= Seq::<RowView>::empty());
    assert(seq![rows[p]].drop_last() =~= Seq::<RowView>::empty());
}


/// A write whose sequence number is not below the key's current one is what
/// a lookup of that key then returns.
pub proof fn lemma_put_slot_read(
    m: Map<Seq<u8>, (u64, Option<Seq<u8>>)>,
    key: Seq<u8>,
    seq: u64,
    value: Option<Seq<u8>>,
)
    requires
        !m.contains_key(key) || m[key].0 <= seq,
    ensures
        put_slot(m, key, seq, value).contains_key(key),
        put_slot(m, key, seq, value)[key] == (seq, value),
{
}

/// A write whose sequence number is below the key's current one changes
/// nothing.
pub proof fn lemma_put_slot_stale(
    m: Map<Seq<u8>, (u64, Option<Seq<u8>>)>,
    key: Seq<u8>,
    seq: u64,
    value: Option<Seq<u8>>,
)
    requires
        m.contains_key(key),
        seq < m[key].0,
    ensures
        put_slot(m, key, seq, value) == m,
{
}

/// A write leaves every other key as it was, and adds one key exactly when
/// the key was absent.
pub proof fn lemma_put_slot_frame(
    m: Map<Seq<u8>, (u64, Option<Seq<u8>>)>,
    key: Seq<u8>,
    seq: u64,
    value: Option<Seq<u8>>,
    other: Seq<u8>,
)
    requires
        m.dom().finite(),
        other != key,
    ensures
        put_slot(m, key, seq, value).contains_key(other) == m.contains_key(other),
        m.contains_key(other) ==> put_slot(m, key, seq, value)[other] == m[other],
        put_slot(m, key, seq, value).dom().finite(),
        put_slot(m, key, seq, value).len() == m.len() + (if m.contains_key(key) {
            0int
        } else {
            1int
        }),
{
    if !(m.contains_key(key) && seq < m[key].0) {
        if m.contains_key(key) {
            assert(m.insert(key, (seq, value)).dom() =~= m.dom());
        }
    }
}

/// Two writes with distinct sequence numbers, or to distinct keys, give the
/// same table in either order: the highest sequence number wins.
pub proof fn lemma_put_slot_commute(
    m: Map<Seq<u8>, (u64, Option<Seq<u8>>)>,
    k1: Seq<u8>,
    s1: u64,
    v1: Option<Seq<u8>>,
    k2: Seq<u8>,
    s2: u64,
    v2: Option<Seq<u8>>,
)
    requires
        k1 != k2 || s1 != s2,
    ensures
        put_slot(put_slot(m, k1, s1, v1), k2, s2, v2) == put_slot(put_slot(m, k2, s2, v2), k1, s1, v1),
{
    let a = put_slot(put_slot(m, k1, s1, v1), k2, s2, v2);
    let b = put_slot(put_slot(m, k2, s2, v2), k1, s1, v1);
    assert(a =~= b);
}


/// The table after a history of writes `(key, seq, value)`, applied in order
/// to `m`.
pub open spec fn apply_writes(
    m: Map<Seq<u8>, (u64, Option<Seq<u8>>)>,
    ws: Seq<(Seq<u8>, u64, Option<Seq<u8>>)>,
) -> Map<Seq<u8>, (u64, Option<Seq<u8>>)>
    decreases ws.len(),
{
    if ws.len() == 0 {
        m
    } else {
        let w = ws.last();
        put_slot(apply_writes(m, ws.drop_last()), w.0, w.1, w.2)
    }
}

/// Whether write `j` of `ws` is the one a key keeps: no write to its key has a
/// higher sequence number, and no later write to it has an equal one.
pub open spec fn write_wins(ws: Seq<(Seq<u8>, u64, Option<Seq<u8>>)>, j: int) -> bool {
    &&& 0 <= j < ws.len()
    &&& forall|i: int|
        0 <= i < ws.len() && (#[trigger] ws[i]).0 == ws[j].0 ==> ws[i].1 <= ws[j].1 && (j < i
            ==> ws[i].1 < ws[j].1)
}

/// Applying any history of writes to an empty table keeps every key written,
/// adds no other, and leaves each key with its write of the highest sequence
/// number (of equal ones, the last): whatever the order, no write is lost
/// and the highest sequence number wins.
pub proof fn lemma_apply_writes(ws: Seq<(Seq<u8>, u64, Option<Seq<u8>>)>)
    ensures
        apply_writes(Map::empty(), ws).dom().finite(),
        forall|k: Seq<u8>|
            #[trigger] apply_writes(Map::empty(), ws).contains_key(k) <==> exists|i: int|
                0 <= i < ws.len() && (#[trigger] ws[i]).0 == k,
        forall|k: Seq<u8>|
            #[trigger] apply_writes(Map::empty(), ws).contains_key(k) ==> exists|j: int|
                #[trigger] write_wins(ws, j) && ws[j].0 == k && apply_writes(Map::empty(), ws)[k]
                    == (ws[j].1, ws[j].2),
    decreases ws.len(),
{
    let m = apply_writes(Map::empty(), ws);
    if ws.len() == 0 {
        assert(m =~= Map::empty());
    } else {
        let pre = ws.drop_last();
        let n = ws.len() - 1;
        let w = ws.last();
        lemma_apply_writes(pre);
        let p = apply_writes(Map::empty(), pre);
        assert(m == put_slot(p, w.0, w.1, w.2));
        assert forall|k: Seq<u8>| #[trigger] m.contains_key(k) <==> exists|i: int|
            0 <= i < ws.len() && (#[trigger] ws[i]).0 == k by {
            if k == w.0 {
                assert(ws[n].0 == k);
            } else {
                if m.contains_key(k) {
                    assert(p.contains_key(k));
                    let i = choose|i: int| 0 <= i < pre.len() && (#[trigger] pre[i]).0 == k;
                    assert(ws[i] == pre[i]);
                }
                if exists|i: int| 0 <= i < ws.len() && (#[trigger] ws[i]).0 == k {
                    let i = choose|i: int| 0 <= i < ws.len() && (#[trigger] ws[i]).0 == k;
                    assert(i < n);
                    assert(pre[i] == ws[i]);
                }
            }
        }
        assert(m.dom() =~= p.dom().insert(w.0));
        assert forall|k: Seq<u8>| #[trigger] m.contains_key(k) implies exists|j: int|
            #[trigger] write_wins(ws, j) && ws[j].0 == k && m[k] == (ws[j].1, ws[j].2) by {
            if k == w.0 && p.contains_key(k) && w.1 < p[k].0 {
                let j = choose|j: int|
                    #[trigger] write_wins(pre, j) && pre[j].0 == k && p[k] == (pre[j].1, pre[j].2);
                assert forall|i: int|
                    0 <= i < ws.len() && (#[trigger] ws[i]).0 == ws[j].0 implies ws[i].1 <= ws[j].1
                        && (j < i ==> ws[i].1 < ws[j].1) by {
                    if i < n {
                        assert(pre[i] == ws[i]);
                        assert(pre[j] == ws[j]);
                    }
                }
                assert(write_wins(ws, j));
            } else if k == w.0 {
                assert forall|i: int|
                    0 <= i < ws.len() && (#[trigger] ws[i]).0 == ws[n].0 implies ws[i].1 <= ws[n].1
                        && (n < i ==> ws[i].1 < ws[n].1) by {
                    if i < n {
                        assert(pre[i] == ws[i]);
                        assert(p.contains_key(k));
                        let j = choose|j: int|
                            #[trigger] write_wins(pre, j) && pre[j].0 == k && p[k] == (
                                pre[j].1,
                                pre[j].2,
                            );
                        assert(pre[i].0 == pre[j].0);
                    }
                }
                assert(write_wins(ws, n));
            } else {
                assert(p.contains_key(k));
                let j = choose|j: int|
                    #[trigger] write_wins(pre, j) && pre[j].0 == k && p[k] == (pre[j].1, pre[j].2);
                assert forall|i: int|
                    0 <= i < ws.len() && (#[trigger] ws[i]).0 == ws[j].0 implies ws[i].1 <= ws[j].1
                        && (j < i ==> ws[i].1 < ws[j].1) by {
                    if i < n {
                        assert(pre[i] == ws[i]);
                        assert(pre[j] == ws[j]);
                    }
                }
                assert(write_wins(ws, j));
            }
        }
    }
}


/// Whether no two writes of `ws` to one key carry the same sequence number.
pub open spec fn seqs_distinct_per_key(ws: Seq<(Seq<u8>, u64, Option<Seq<u8>>)>) -> bool {
    forall|i: int, j: int|
        0 <= i < ws.len() && 0 <= j < ws.len() && i != j && (#[trigger] ws[i]).0 == (
        #[trigger] ws[j]).0 ==> ws[i].1 != ws[j].1
}

/// Whatever order the writes of a history arrive in, the table ends the same,
/// as long as no key gets two writes with one sequence number: `vs` holds the
/// writes of `ws`, reordered.
pub proof fn lemma_apply_writes_any_order(
    ws: Seq<(Seq<u8>, u64, Option<Seq<u8>>)>,
    vs: Seq<(Seq<u8>, u64, Option<Seq<u8>>)>,
)
    requires
        ws.to_multiset() == vs.to_multiset(),
        seqs_distinct_per_key(ws),
    ensures
        apply_writes(Map::empty(), ws) == apply_writes(Map::empty(), vs),
{
    lemma_apply_writes(ws);
    lemma_apply_writes(vs);
    let a = apply_writes(Map::empty(), ws);
    let b = apply_writes(Map::empty(), vs);
    assert forall|x: (Seq<u8>, u64, Option<Seq<u8>>)| ws.contains(x) <==> vs.contains(x) by {
        vstd::seq_lib::to_multiset_contains(ws, x);
        vstd::seq_lib::to_multiset_contains(vs, x);
    }
    assert forall|k: Seq<u8>| a.contains_key(k) <==> b.contains_key(k) by {
        if a.contains_key(k) {
            let i = choose|i: int| 0 <= i < ws.len() && (#[trigger] ws[i]).0 == k;
            assert(ws.contains(ws[i]));
            let j = choose|j: int| 0 <= j < vs.len() && vs[j] == ws[i];
            assert(vs[j].0 == k);
        }
        if b.contains_key(k) {
            let i = choose|i: int| 0 <= i < vs.len() && (#[trigger] vs[i]).0 == k;
            assert(vs.contains(vs[i]));
            let j = choose|j: int| 0 <= j < ws.len() && ws[j] == vs[i];
            assert(ws[j].0 == k);
        }
    }
    assert forall|k: Seq<u8>| a.contains_key(k) implies a[k] == b[k] by {
        let j = choose|j: int|
            #[trigger] write_wins(ws, j) && ws[j].0 == k && a[k] == (ws[j].1, ws[j].2);
        let j2 = choose|j: int|
            #[trigger] write_wins(vs, j) && vs[j].0 == k && b[k] == (vs[j].1, vs[j].2);
        assert(ws.contains(ws[j]));
        let i2 = choose|i: int| 0 <= i < vs.len() && vs[i] == ws[j];
        assert(vs[i2].1 <= vs[j2].1);
        assert(vs.contains(vs[j2]));
        let i1 = choose|i: int| 0 <= i < ws.len() && ws[i] == vs[j2];
        assert(ws[i1].1 <= ws[j].1);
        assert(i1 == j);
    }
    assert(a =~= b);
}
} // verus!
