//! An ordered, insert-only skiplist: the data structure behind
//! [`SkipListMemTable`](crate::memtable::SkipListMemTable).
//!
//! Nodes live in an arena (`nodes`) and link to each other by index. Level 0
//! chains every node in ascending key order; each higher level is an express
//! lane whose links only ever jump forward in that order. A "delete" is the
//! insertion of a tombstone, so nodes are never unlinked.
//!
//! The model of the list is the sequence of its rows in key order
//! (`rows()`), and from it the map from key to slot (`view()`).
use vstd::prelude::*;
use vstd::pervasive::VecAdditionalExecFns;
use crate::types::{
    Bytes, MemtableEntry, RowView, ValueEntry, bytes_eq, bytes_lt, lemma_lex_asymmetric, lemma_lex_irreflexive,
    lemma_lex_connected, lemma_lex_transitive, lemma_rows_map, lemma_rows_map_update,
    lemma_rows_map_insert, lemma_rows_size_insert, lemma_rows_size_update, lex_lt, put_slot,
    row_bytes, rows_map, rows_size, rows_sorted, usize_range,
};

verus! {

/// Maximum number of levels a node tower can have.
pub const MAX_HEIGHT: usize = 32;

/// Inverse probability of promoting a node to the next level (1-in-4).
pub const BRANCHING: u64 = 4;

/// One key with its winning write and its forward links.
struct Node {
    key: Bytes,
    seq: u64,
    entry: ValueEntry,
    /// `tower[l]` is the next node at level `l`; the node lives on levels
    /// `0..tower.len()`.
    tower: Vec<Option<usize>>,
}

/// An ordered map from byte strings to value entries, tagged with sequence
/// numbers.
pub struct SkipList {
    /// The sentinel's forward links, one per level.
    head: Vec<Option<usize>>,
    nodes: Vec<Node>,
    /// User bytes held (keys and live values), modulo the `usize` range.
    size: usize,
    /// State of the xorshift generator that draws tower heights.
    rng: u64,
    /// Node indices in ascending key order.
    order: Ghost<Seq<int>>,
    /// `rank[x]` is the position of node `x` in `order`.
    rank: Ghost<Seq<int>>,
}

/// User-visible byte cost of a value entry (tombstones are free).
pub fn entry_bytes(entry: &ValueEntry) -> (r: usize)
    ensures
        r == match entry@ {
            Some(v) => v.len(),
            None => 0,
        },
{
    match entry {
        ValueEntry::Value(v) => v.len(),
        ValueEntry::Tombstone => 0,
    }
}

/// One step of the xorshift generator.
pub open spec fn xorshift(x: u64) -> u64 {
    let a = x ^ (x << 13u64);
    let b = a ^ (a >> 7u64);
    b ^ (b << 17u64)
}

/// The tower height drawn from generator state `x`, having reached height
/// `h` so far, and the generator state afterwards: each further level is
/// taken while the next draw is divisible by `BRANCHING`.
pub open spec fn draw_height(x: u64, h: nat) -> (nat, u64)
    decreases MAX_HEIGHT - h,
{
    if h >= MAX_HEIGHT {
        (h, x)
    } else {
        let y = xorshift(x);
        if y % BRANCHING != 0 {
            (h, y)
        } else {
            draw_height(y, h + 1)
        }
    }
}

/// A drawn height lies between the starting height and `MAX_HEIGHT`.
pub proof fn lemma_draw_height_range(x: u64, h: nat)
    requires
        1 <= h <= MAX_HEIGHT,
    ensures
        h <= draw_height(x, h).0 <= MAX_HEIGHT,
    decreases MAX_HEIGHT - h,
{
    if h < MAX_HEIGHT {
        let y = xorshift(x);
        if y % BRANCHING == 0 {
            lemma_draw_height_range(y, h + 1);
        }
    }
}

/// Draws a tower height in `1..=MAX_HEIGHT`, promoting with probability
/// `1/BRANCHING` per level, and advances the generator state.
pub fn random_height(state: &mut u64) -> (h: usize)
    ensures
        (h as nat, *final(state)) == draw_height(*old(state), 1),
        1 <= h <= MAX_HEIGHT,
{
    let mut x: u64 = *state;
    let mut height: usize = 1;
    proof {
        lemma_draw_height_range(x, 1);
    }
    loop
        invariant_except_break
            draw_height(x, height as nat) == draw_height(*old(state), 1),
        invariant
            1 <= height <= MAX_HEIGHT,
        ensures
            (height as nat, x) == draw_height(*old(state), 1),
        decreases MAX_HEIGHT - height,
    {
        if height >= MAX_HEIGHT {
            break;
        }
        x = x ^ (x << 13u64);
        x = x ^ (x >> 7u64);
        x = x ^ (x << 17u64);
        if x % BRANCHING != 0 {
            break;
        }
        height = height + 1;
    }
    *state = x;
    height
}

/// Reads the wall clock in nanoseconds since the Unix epoch (0 if the clock is
/// before the epoch). Calls `std::time::SystemTime::now` and
/// `SystemTime::duration_since`; the result depends on the time of the call,
/// so nothing is claimed of it.
#[verifier::external_body]
fn clock_nanos() -> u64 {
    match std::time::SystemTime::now().duration_since(std::time::UNIX_EPOCH) {
        Ok(d) => d.as_nanos() as u64,
        Err(_) => 0,
    }
}

/// The generator seed made from a clock reading: the reading mixed with a
/// fixed odd constant, and a fixed non-zero value in place of zero.
pub open spec fn spec_mix_seed(nanos: u64) -> u64 {
    let s = nanos ^ 0x9E37_79B9_7F4A_7C15u64;
    if s == 0 {
        0x1234_5678_9ABC_DEF0u64
    } else {
        s
    }
}

/// Mixes a clock reading into a non-zero generator seed.
pub fn mix_seed(nanos: u64) -> (s: u64)
    ensures
        s == spec_mix_seed(nanos),
        s != 0,
{
    let s = nanos ^ 0x9E37_79B9_7F4A_7C15u64;
    if s == 0 {
        0x1234_5678_9ABC_DEF0u64
    } else {
        s
    }
}

/// Produces a non-zero seed for the height generator from the wall clock.
pub fn seed() -> (s: u64)
    ensures
        s != 0,
{
    mix_seed(clock_nanos())
}


/// Adding `d` to a counter that holds `a` modulo the `usize` range, with
/// wrap-around, gives `a + d` modulo the range.
proof fn lemma_wrapping_add(s: usize, a: int, d: usize)
    requires
        0 <= a,
        s as int == a % usize_range(),
    ensures
        s.wrapping_add(d) as int == (a + d) % usize_range(),
{
    let m = usize_range();
    vstd::arithmetic::div_mod::lemma_fundamental_div_mod(a, m);
    let q = a / m;
    assert(a + d == m * q + (s + d));
    vstd::arithmetic::div_mod::lemma_mod_multiples_vanish(q, s + d, m);
    if s + d < m {
        vstd::arithmetic::div_mod::lemma_small_mod((s + d) as nat, m as nat);
    } else {
        vstd::arithmetic::div_mod::lemma_mod_multiples_vanish(1, s + d - m, m);
        vstd::arithmetic::div_mod::lemma_small_mod((s + d - m) as nat, m as nat);
    }
}

/// Subtracting `d` from a counter that holds `a` modulo the `usize` range,
/// with wrap-around, gives `a - d` modulo the range.
proof fn lemma_wrapping_sub(s: usize, a: int, d: usize)
    requires
        d <= a,
        s as int == a % usize_range(),
    ensures
        s.wrapping_sub(d) as int == (a - d) % usize_range(),
{
    let m = usize_range();
    vstd::arithmetic::div_mod::lemma_fundamental_div_mod(a, m);
    let q = a / m;
    if s >= d {
        assert(a - d == m * q + (s - d));
        vstd::arithmetic::div_mod::lemma_mod_multiples_vanish(q, s - d, m);
        vstd::arithmetic::div_mod::lemma_small_mod((s - d) as nat, m as nat);
    } else {
        assert(a - d == m * (q - 1) + (s - d + m)) by (nonlinear_arith)
            requires
                a == m * q + s,
        ;
        vstd::arithmetic::div_mod::lemma_mod_multiples_vanish(q - 1, s - d + m, m);
        vstd::arithmetic::div_mod::lemma_small_mod((s - d + m) as nat, m as nat);
    }
}

impl SkipList {
    spec fn n(&self) -> int {
        self.nodes.len() as int
    }

    spec fn key_at(&self, x: int) -> Seq<u8> {
        self.nodes@[x].key@
    }

    spec fn height_at(&self, x: int) -> int {
        self.nodes@[x].tower@.len() as int
    }

    spec fn next_at(&self, x: int, level: int) -> Option<usize> {
        self.nodes@[x].tower@[level]
    }

    /// The link leaving `from` (the sentinel when `None`) at `level`.
    spec fn link(&self, from: Option<usize>, level: int) -> Option<usize> {
        match from {
            Some(x) => self.next_at(x as int, level),
            None => self.head@[level],
        }
    }

    /// A link target is absent, or a node that lives on `level`.
    spec fn link_ok(&self, t: Option<usize>, level: int) -> bool {
        match t {
            Some(y) => y < self.n() && self.height_at(y as int) > level,
            None => true,
        }
    }

    spec fn row_at(&self, x: int) -> RowView {
        RowView { key: self.key_at(x), value: self.nodes@[x].entry@, seq: self.nodes@[x].seq }
    }

    /// The rows of the list in ascending key order.
    pub closed spec fn rows(&self) -> Seq<RowView> {
        Seq::new(self.nodes.len() as nat, |i: int| self.row_at(self.order@[i]))
    }

    /// The map from key to slot.
    pub closed spec fn view(&self) -> Map<Seq<u8>, (u64, Option<Seq<u8>>)> {
        rows_map(self.rows())
    }

    /// Position of the node after `from` in key order.
    spec fn pos_after(&self, from: Option<usize>) -> int {
        match from {
            Some(x) => self.rank@[x as int] + 1,
            None => 0,
        }
    }

    /// The list is well formed.
    pub closed spec fn wf(&self) -> bool {
        let n = self.n();
        &&& self.head@.len() == MAX_HEIGHT
        &&& self.order@.len() == n
        &&& self.rank@.len() == n
        &&& forall|i: int|
            0 <= i < n ==> 0 <= #[trigger] self.order@[i] < n && self.rank@[self.order@[i]] == i
        &&& forall|x: int|
            0 <= x < n ==> 0 <= #[trigger] self.rank@[x] < n && self.order@[self.rank@[x]] == x
        &&& rows_sorted(self.rows())
        &&& self.head@[0] == (if n == 0 {
            None::<usize>
        } else {
            Some(self.order@[0] as usize)
        })
        &&& forall|i: int|
            0 <= i < n ==> #[trigger] self.next_at(self.order@[i], 0) == (if i + 1 < n {
                Some(self.order@[i + 1] as usize)
            } else {
                None::<usize>
            })
        &&& forall|x: int| 0 <= x < n ==> 1 <= #[trigger] self.height_at(x) <= MAX_HEIGHT
        &&& forall|x: int, l: int|
            0 <= x < n && 0 <= l < self.height_at(x) ==> {
                &&& self.link_ok(#[trigger] self.next_at(x, l), l)
                &&& (self.next_at(x, l) matches Some(y) ==> self.rank@[x] < self.rank@[y as int])
            }
        &&& forall|l: int| 0 <= l < MAX_HEIGHT ==> self.link_ok(#[trigger] self.head@[l], l)
        &&& self.size as int == rows_size(self.rows()) as int % usize_range()
    }

    /// A search predecessor at `level` for `key`: the sentinel, or a node on
    /// that level whose key is below `key`.
    spec fn pred_ok(&self, t: Option<usize>, level: int, key: Seq<u8>) -> bool {
        match t {
            Some(x) => x < self.n() && self.height_at(x as int) > level && lex_lt(
                self.key_at(x as int),
                key,
            ),
            None => true,
        }
    }

    /// A search successor for `key`: absent, or a node whose key is not below
    /// `key`.
    spec fn succ_ok(&self, t: Option<usize>, key: Seq<u8>) -> bool {
        match t {
            Some(y) => y < self.n() && !lex_lt(self.key_at(y as int), key),
            None => true,
        }
    }

    proof fn lemma_rows_index(&self, i: int)
        requires
            self.wf(),
            0 <= i < self.n(),
        ensures
            self.rows()[i] == self.row_at(self.order@[i]),
            self.rows()[i].key == self.key_at(self.order@[i]),
            self.rows().len() == self.n(),
    {
    }

    /// Keys are ordered as their nodes are in `order`.
    proof fn lemma_keys_sorted(&self, i: int, j: int)
        requires
            self.wf(),
            0 <= i < j < self.n(),
        ensures
            lex_lt(self.key_at(self.order@[i]), self.key_at(self.order@[j])),
    {
        self.lemma_rows_index(i);
        self.lemma_rows_index(j);
        assert(lex_lt(self.rows()[i].key, self.rows()[j].key));
    }

    /// Where a search for `key` ends at level 0: every node before the
    /// predecessor's successor has a smaller key, and, if that successor's key
    /// is not `key`, every node from there on has a greater one.
    proof fn lemma_search_position(&self, pred: Option<usize>, key: Seq<u8>)
        requires
            self.wf(),
            self.pred_ok(pred, 0, key),
            self.succ_ok(self.link(pred, 0), key),
        ensures
            0 <= self.pos_after(pred) <= self.n(),
            self.link(pred, 0) == (if self.pos_after(pred) < self.n() {
                Some(self.order@[self.pos_after(pred)] as usize)
            } else {
                None::<usize>
            }),
            forall|i: int|
                0 <= i < self.pos_after(pred) ==> lex_lt(#[trigger] self.key_at(self.order@[i]), key),
            self.pos_after(pred) < self.n() && self.key_at(self.order@[self.pos_after(pred)])
                != key ==> forall|i: int|
                self.pos_after(pred) <= i < self.n() ==> lex_lt(
                    key,
                    #[trigger] self.key_at(self.order@[i]),
                ),
    {
        let p = self.pos_after(pred);
        let n = self.n();
        assert(n <= usize::MAX);
        if let Some(x) = pred {
            let r = self.rank@[x as int];
            assert(self.order@[r] == x as int);
            assert(self.next_at(self.order@[r], 0) == self.next_at(x as int, 0));
            assert forall|i: int| 0 <= i < p implies lex_lt(
                #[trigger] self.key_at(self.order@[i]),
                key,
            ) by {
                if i < r {
                    self.lemma_keys_sorted(i, r);
                    lemma_lex_transitive(self.key_at(self.order@[i]), self.key_at(x as int), key, 0);
                }
            }
        }
        if p < n {
            let y = self.order@[p];
            assert(0 <= y < n);
            assert(self.link(pred, 0) == Some(y as usize));
            assert((y as usize) as int == y);
            let kp = self.key_at(y);
            assert(!lex_lt(kp, key));
            if kp != key {
                lemma_lex_connected(kp, key);
                assert(lex_lt(key, kp));
                assert forall|i: int| p <= i < n implies lex_lt(
                    key,
                    #[trigger] self.key_at(self.order@[i]),
                ) by {
                    if i > p {
                        self.lemma_keys_sorted(p, i);
                        lemma_lex_transitive(key, kp, self.key_at(self.order@[i]), 0);
                    }
                }
            }
        }
    }

    /// A vector of `MAX_HEIGHT` empty links.
    fn empty_links() -> (v: Vec<Option<usize>>)
        ensures
            v@.len() == MAX_HEIGHT,
            forall|k: int| 0 <= k < MAX_HEIGHT ==> #[trigger] v@[k] == None::<usize>,
    {
        let mut v: Vec<Option<usize>> = Vec::new();
        let mut l: usize = 0;
        while l < MAX_HEIGHT
            invariant
                l <= MAX_HEIGHT,
                v@.len() == l,
                forall|k: int| 0 <= k < l ==> #[trigger] v@[k] == None::<usize>,
            decreases MAX_HEIGHT - l,
        {
            v.push(None);
            l = l + 1;
        }
        v
    }

    /// The link leaving `from` at `level`.
    fn link_exec(&self, from: Option<usize>, level: usize) -> (r: Option<usize>)
        requires
            self.wf(),
            level < MAX_HEIGHT,
            match from {
                Some(x) => x < self.n() && self.height_at(x as int) > level,
                None => true,
            },
        ensures
            r == self.link(from, level as int),
            self.link_ok(r, level as int),
            from is Some && r is Some ==> self.rank@[from->0 as int] < self.rank@[r->0 as int],
    {
        match from {
            Some(x) => self.nodes[x].tower[level],
            None => self.head[level],
        }
    }

    /// Finds the predecessors and successors of `key` at every level, and the
    /// node holding `key`, if any.
    ///
    /// `preds[l]` is the last node on level `l` whose key is below `key` (the
    /// sentinel when `None`), `succs[l]` the link that leaves it.
    fn find(&self, key: &[u8]) -> (res: (Vec<Option<usize>>, Vec<Option<usize>>, Option<usize>))
        requires
            self.wf(),
        ensures
            res.0@.len() == MAX_HEIGHT,
            res.1@.len() == MAX_HEIGHT,
            forall|l: int|
                0 <= l < MAX_HEIGHT ==> {
                    &&& self.pred_ok(#[trigger] res.0@[l], l, key@)
                    &&& res.1@[l] == self.link(res.0@[l], l)
                    &&& self.succ_ok(res.1@[l], key@)
                    &&& self.link_ok(res.1@[l], l)
                },
            match res.2 {
                Some(x) => self.pos_after(res.0@[0]) < self.n() && x as int == self.order@[self.pos_after(
                    res.0@[0],
                )] && self.key_at(x as int) == key@,
                None => self.pos_after(res.0@[0]) == self.n() || self.key_at(
                    self.order@[self.pos_after(res.0@[0])],
                ) != key@,
            },
            self.holder(res.2, key@),
    {
        let mut preds = Self::empty_links();
        let mut succs = Self::empty_links();
        let mut pred: Option<usize> = None;
        let mut level: usize = MAX_HEIGHT;
        while level > 0
            invariant
                self.wf(),
                level <= MAX_HEIGHT,
                preds@.len() == MAX_HEIGHT,
                succs@.len() == MAX_HEIGHT,
                match pred {
                    Some(x) => x < self.n() && self.height_at(x as int) >= level && lex_lt(
                        self.key_at(x as int),
                        key@,
                    ),
                    None => true,
                },
                level < MAX_HEIGHT ==> pred == preds@[level as int],
                forall|l: int|
                    level <= l < MAX_HEIGHT ==> {
                        &&& self.pred_ok(#[trigger] preds@[l], l, key@)
                        &&& succs@[l] == self.link(preds@[l], l)
                        &&& self.succ_ok(succs@[l], key@)
                        &&& self.link_ok(succs@[l], l)
                    },
            decreases level,
        {
            level = level - 1;
            let mut curr = self.link_exec(pred, level);
            loop
                invariant
                    self.wf(),
                    level < MAX_HEIGHT,
                    self.pred_ok(pred, level as int, key@),
                    curr == self.link(pred, level as int),
                    self.link_ok(curr, level as int),
                ensures
                    self.pred_ok(pred, level as int, key@),
                    curr == self.link(pred, level as int),
                    self.link_ok(curr, level as int),
                    self.succ_ok(curr, key@),
                decreases
                    match curr {
                        Some(c) => self.n() - self.rank@[c as int],
                        None => 0,
                    },
            {
                match curr {
                    Some(c) => {
                        if bytes_lt(self.nodes[c].key.as_slice(), key) {
                            let next = self.link_exec(Some(c), level);
                            pred = Some(c);
                            curr = next;
                        } else {
                            break;
                        }
                    },
                    None => {
                        break;
                    },
                }
            }
            preds.set(level, pred);
            succs.set(level, curr);
        }
        let found = match succs[0] {
            Some(s) => {
                if bytes_eq(self.nodes[s].key.as_slice(), key) {
                    Some(s)
                } else {
                    None
                }
            },
            None => None,
        };
        proof {
            self.lemma_search_position(preds@[0], key@);
            if found is None {
                assert forall|x: int| 0 <= x < self.n() implies self.key_at(x) != key@ by {
                    let i = self.rank@[x];
                    assert(self.order@[i] == x);
                    lemma_lex_irreflexive(key@, 0);
                }
            }
        }
        (preds, succs, found)
    }

    /// Whether `r` names the node holding `key`: that node when there is
    /// one, `None` when no node holds `key`.
    pub closed spec fn holder(&self, r: Option<usize>, key: Seq<u8>) -> bool {
        match r {
            Some(x) => x < self.n() && self.key_at(x as int) == key,
            None => forall|x: int| 0 <= x < self.n() ==> self.key_at(x) != key,
        }
    }

    /// At most one node holds a key, so any two answers that each name the
    /// node holding `key` (as `find` and `find_node` both do) are the same.
    pub proof fn lemma_holder_unique(&self, a: Option<usize>, b: Option<usize>, key: Seq<u8>)
        requires
            self.wf(),
            self.holder(a, key),
            self.holder(b, key),
        ensures
            a == b,
    {
        if let (Some(x), Some(y)) = (a, b) {
            if x != y {
                let (i, j) = (self.rank@[x as int], self.rank@[y as int]);
                assert(self.order@[i] == x as int);
                assert(self.order@[j] == y as int);
                lemma_lex_irreflexive(key, 0);
                if i < j {
                    self.lemma_keys_sorted(i, j);
                } else {
                    self.lemma_keys_sorted(j, i);
                }
            }
        }
    }

    /// Returns the node holding `key`, if any.
    fn find_node(&self, key: &[u8]) -> (r: Option<usize>)
        requires
            self.wf(),
        ensures
            match r {
                Some(x) => x < self.n() && self.key_at(x as int) == key@,
                None => forall|x: int| 0 <= x < self.n() ==> self.key_at(x) != key@,
            },
            self.holder(r, key@),
    {
        let mut pred: Option<usize> = None;
        let mut level: usize = MAX_HEIGHT;
        let mut curr: Option<usize> = None;
        while level > 0
            invariant
                self.wf(),
                level <= MAX_HEIGHT,
                match pred {
                    Some(x) => x < self.n() && self.height_at(x as int) >= level && lex_lt(
                        self.key_at(x as int),
                        key@,
                    ),
                    None => true,
                },
                level < MAX_HEIGHT ==> curr == self.link(pred, level as int) && self.succ_ok(
                    curr,
                    key@,
                ) && (curr matches Some(c) ==> self.key_at(c as int) != key@),
            decreases level,
        {
            level = level - 1;
            curr = self.link_exec(pred, level);
            loop
                invariant
                    self.wf(),
                    level < MAX_HEIGHT,
                    self.pred_ok(pred, level as int, key@),
                    curr == self.link(pred, level as int),
                    self.link_ok(curr, level as int),
                ensures
                    self.pred_ok(pred, level as int, key@),
                    curr == self.link(pred, level as int),
                    self.succ_ok(curr, key@),
                    curr matches Some(c) ==> self.key_at(c as int) != key@,
                decreases
                    match curr {
                        Some(c) => self.n() - self.rank@[c as int],
                        None => 0,
                    },
            {
                match curr {
                    Some(c) => {
                        let ck = self.nodes[c].key.as_slice();
                        if bytes_lt(ck, key) {
                            let next = self.link_exec(Some(c), level);
                            pred = Some(c);
                            curr = next;
                        } else if bytes_eq(ck, key) {
                            return Some(c);
                        } else {
                            break;
                        }
                    },
                    None => {
                        break;
                    },
                }
            }
        }
        proof {
            self.lemma_search_position(pred, key@);
            let p = self.pos_after(pred);
            assert forall|x: int| 0 <= x < self.n() implies self.key_at(x) != key@ by {
                let r = self.rank@[x];
                assert(self.order@[r] == x);
                if r < p {
                    assert(lex_lt(self.key_at(self.order@[r]), key@));
                    lemma_lex_asymmetric(self.key_at(x), key@);
                } else {
                    assert(lex_lt(key@, self.key_at(self.order@[r])));
                    lemma_lex_asymmetric(key@, self.key_at(x));
                }
            }
        }
        None
    }

    /// Looks up `key`, returning a copy of its current entry if present.
    pub fn get(&self, key: &[u8]) -> (r: Option<ValueEntry>)
        requires
            self.wf(),
        ensures
            match r {
                Some(e) => self.view().contains_key(key@) && e@ == self.view()[key@].1,
                None => !self.view().contains_key(key@),
            },
    {
        let found = self.find_node(key);
        proof {
            lemma_rows_map(self.rows());
        }
        match found {
            Some(x) => {
                proof {
                    let r = self.rank@[x as int];
                    self.lemma_rows_index(r);
                    assert(self.rows()[r].key == key@);
                }
                Some(self.nodes[x].entry.duplicate())
            },
            None => {
                proof {
                    if self.view().contains_key(key@) {
                        let i = choose|i: int|
                            0 <= i < self.rows().len() && self.rows()[i].key == key@;
                        self.lemma_rows_index(i);
                    }
                }
                None
            },
        }
    }

    /// Returns every row in ascending key order.
    pub fn snapshot(&self) -> (out: Vec<MemtableEntry>)
        requires
            self.wf(),
        ensures
            out@.len() == self.rows().len(),
            forall|i: int| 0 <= i < out@.len() ==> #[trigger] out@[i]@ == self.rows()[i],
    {
        let mut out: Vec<MemtableEntry> = Vec::new();
        let mut curr = self.head[0];
        let mut i: usize = 0;
        loop
            invariant
                self.wf(),
                i <= self.n(),
                out@.len() == i,
                forall|k: int| 0 <= k < i ==> #[trigger] out@[k]@ == self.rows()[k],
                curr == (if i < self.n() {
                    Some(self.order@[i as int] as usize)
                } else {
                    None::<usize>
                }),
            ensures
                out@.len() == self.n(),
                forall|k: int| 0 <= k < out@.len() ==> #[trigger] out@[k]@ == self.rows()[k],
            decreases self.n() - i,
        {
            match curr {
                Some(c) => {
                    proof {
                        self.lemma_rows_index(i as int);
                        let x = self.order@[i as int];
                        assert(c as int == x);
                        assert(self.height_at(x) >= 1);
                        assert(self.next_at(self.order@[i as int], 0) == self.next_at(x, 0));
                    }
                    let node = &self.nodes[c];
                    out.push(
                        MemtableEntry {
                            key: node.key.duplicate(),
                            entry: node.entry.duplicate(),
                            seq: node.seq,
                        },
                    );
                    curr = node.tower[0];
                    i = i + 1;
                },
                None => {
                    break;
                },
            }
        }
        out
    }

    /// The search results `preds`/`succs` of `find` for `key`, where `key` is
    /// absent.
    spec fn search_absent(&self, preds: Seq<Option<usize>>, succs: Seq<Option<usize>>, key: Seq<u8>) -> bool {
        &&& preds.len() == MAX_HEIGHT
        &&& succs.len() == MAX_HEIGHT
        &&& forall|l: int|
            0 <= l < MAX_HEIGHT ==> {
                &&& self.pred_ok(#[trigger] preds[l], l, key)
                &&& succs[l] == self.link(preds[l], l)
                &&& self.succ_ok(succs[l], key)
                &&& self.link_ok(succs[l], l)
            }
        &&& (self.pos_after(preds[0]) == self.n() || self.key_at(self.order@[self.pos_after(preds[0])])
            != key)
    }

    /// With `key` absent, every search predecessor comes before the insertion
    /// point and every search successor at or after it.
    proof fn lemma_absent_bounds(&self, preds: Seq<Option<usize>>, succs: Seq<Option<usize>>, key: Seq<u8>, l: int)
        requires
            self.wf(),
            self.search_absent(preds, succs, key),
            0 <= l < MAX_HEIGHT,
        ensures
            preds[l] matches Some(x) ==> self.rank@[x as int] < self.pos_after(preds[0]),
            succs[l] matches Some(y) ==> self.rank@[y as int] >= self.pos_after(preds[0]),
            succs[l] matches Some(y) ==> lex_lt(key, self.key_at(y as int)),
            forall|i: int|
                0 <= i < self.pos_after(preds[0]) ==> lex_lt(#[trigger] self.key_at(self.order@[i]), key),
            forall|i: int|
                self.pos_after(preds[0]) <= i < self.n() ==> lex_lt(key, #[trigger] self.key_at(self.order@[i])),
    {
        assert(self.pred_ok(preds[0], 0, key));
        assert(self.succ_ok(succs[0], key));
        self.lemma_search_position(preds[0], key);
        let p = self.pos_after(preds[0]);
        assert(self.pred_ok(preds[l], l, key));
        assert(self.succ_ok(succs[l], key));
        if let Some(x) = preds[l] {
            let r = self.rank@[x as int];
            assert(self.order@[r] == x as int);
            if r >= p {
                assert(lex_lt(key, self.key_at(self.order@[r])));
                lemma_lex_asymmetric(key, self.key_at(x as int));
            }
        }
        if let Some(y) = succs[l] {
            let r = self.rank@[y as int];
            assert(self.order@[r] == y as int);
            if r < p {
                assert(lex_lt(self.key_at(self.order@[r]), key));
            }
            assert(lex_lt(key, self.key_at(self.order@[r])));
        }
    }

    /// `s1` is `s0` with the link leaving `from` at `level` set to `to`.
    spec fn relinked(s0: SkipList, s1: SkipList, from: Option<usize>, level: int, to: Option<usize>) -> bool {
        &&& s1.nodes@.len() == s0.nodes@.len()
        &&& s1.head@ == (if from is None {
            s0.head@.update(level, to)
        } else {
            s0.head@
        })
        &&& forall|y: int| #![trigger s1.nodes@[y]]
            0 <= y < s0.n() ==> {
                &&& s1.nodes@[y].key == s0.nodes@[y].key
                &&& s1.nodes@[y].seq == s0.nodes@[y].seq
                &&& s1.nodes@[y].entry == s0.nodes@[y].entry
                &&& s1.nodes@[y].tower@ == (if from == Some(y as usize) {
                    s0.nodes@[y].tower@.update(level, to)
                } else {
                    s0.nodes@[y].tower@
                })
            }
        &&& s1.order == s0.order
        &&& s1.rank == s0.rank
        &&& s1.size == s0.size
        &&& s1.rng == s0.rng
    }

    /// Pointing an upper-level link at a node further along in key order keeps
    /// the list well formed and its rows unchanged.
    proof fn lemma_relink_upper(s0: SkipList, s1: SkipList, from: Option<usize>, level: int, to: usize)
        requires
            s0.wf(),
            Self::relinked(s0, s1, from, level, Some(to)),
            1 <= level < MAX_HEIGHT,
            to < s0.n(),
            from matches Some(x) ==> x < s0.n() && level < s0.height_at(x as int) && s0.rank@[x as int] < s0.rank@[to as int],
            s0.height_at(to as int) > level,
        ensures
            s1.wf(),
            s1.rows() == s0.rows(),
    {
        assert(s1.n() == s0.n());
        assert(s1.rows() =~= s0.rows()) by {
            assert forall|i: int| 0 <= i < s1.n() implies #[trigger] s1.rows()[i] == s0.rows()[i] by {
                let x = s0.order@[i];
                assert(s1.nodes@[x] == s1.nodes@[x]);
            }
        }
        assert forall|y: int| 0 <= y < s1.n() implies 1 <= #[trigger] s1.height_at(y) <= MAX_HEIGHT by {
            assert(s1.nodes@[y] == s1.nodes@[y]);
            assert(1 <= s0.height_at(y) <= MAX_HEIGHT);
            assert(s1.height_at(y) == s0.height_at(y));
        }
        assert forall|i: int| 0 <= i < s1.n() implies #[trigger] s1.next_at(s1.order@[i], 0) == (if i + 1 < s1.n() {
            Some(s1.order@[i + 1] as usize)
        } else {
            None::<usize>
        }) by {
            let x = s0.order@[i];
            assert(s1.nodes@[x] == s1.nodes@[x]);
            assert(s0.next_at(s0.order@[i], 0) == s0.next_at(x, 0));
        }
        assert forall|y: int, l: int| 0 <= y < s1.n() && 0 <= l < s1.height_at(y) implies {
            &&& s1.link_ok(#[trigger] s1.next_at(y, l), l)
            &&& (s1.next_at(y, l) matches Some(z) ==> s1.rank@[y] < s1.rank@[z as int])
        } by {
            assert(s1.nodes@[y] == s1.nodes@[y]);
            assert(s0.height_at(y) == s1.height_at(y));
            if from == Some(y as usize) && l == level {
                assert(s1.nodes@[to as int] == s1.nodes@[to as int]);
            } else {
                assert(s1.next_at(y, l) == s0.next_at(y, l));
                assert(s0.link_ok(s0.next_at(y, l), l));
                if let Some(z) = s0.next_at(y, l) {
                    assert(s1.nodes@[z as int] == s1.nodes@[z as int]);
                }
            }
        }
        assert forall|l: int| 0 <= l < MAX_HEIGHT implies s1.link_ok(#[trigger] s1.head@[l], l) by {
            if from is None && l == level {
                assert(s1.nodes@[to as int] == s1.nodes@[to as int]);
            } else {
                assert(s0.link_ok(s0.head@[l], l));
                if let Some(z) = s0.head@[l] {
                    assert(s1.nodes@[z as int] == s1.nodes@[z as int]);
                }
            }
        }
    }

    /// Sets the link leaving `from` (the sentinel when `None`) at `level` to `to`.
    fn set_link(&mut self, from: Option<usize>, level: usize, to: Option<usize>)
        requires
            level < MAX_HEIGHT,
            old(self).head@.len() == MAX_HEIGHT,
            from matches Some(x) ==> x < old(self).n() && level < old(self).height_at(x as int),
        ensures
            Self::relinked(*old(self), *final(self), from, level as int, to),
    {
        match from {
            Some(x) => {
                let mut node = Node {
                    key: Bytes::empty(),
                    seq: 0,
                    entry: ValueEntry::Tombstone,
                    tower: Vec::new(),
                };
                self.nodes.set_and_swap(x, &mut node);
                node.tower.set(level, to);
                self.nodes.set_and_swap(x, &mut node);
            },
            None => {
                self.head.set(level, to);
            },
        }
    }

    /// Replaces the entry of node `x` by `entry` at `seq`, unless the node
    /// already holds a write with a higher sequence number.
    fn update_value(&mut self, x: usize, entry: ValueEntry, seq: u64, new_bytes: usize)
        requires
            old(self).wf(),
            x < old(self).n(),
            new_bytes == match entry@ {
                Some(v) => v.len(),
                None => 0,
            },
        ensures
            final(self).wf(),
            final(self).view() == put_slot(old(self).view(), old(self).key_at(x as int), seq, entry@),
            final(self).rows() == (if seq < old(self).nodes@[x as int].seq {
                old(self).rows()
            } else {
                old(self).rows().update(
                    old(self).rank@[x as int],
                    RowView { key: old(self).key_at(x as int), value: entry@, seq },
                )
            }),
    {
        let ghost r = self.rank@[x as int];
        let ghost key = self.key_at(x as int);
        proof {
            self.lemma_rows_index(r);
            lemma_rows_map(self.rows());
            assert(self.order@[r] == x as int);
        }
        let cur_seq = self.nodes[x].seq;
        if seq < cur_seq {
            return;
        }
        let old_bytes = entry_bytes(&self.nodes[x].entry);
        let mut node = Node { key: Bytes::empty(), seq: 0, entry: ValueEntry::Tombstone, tower: Vec::new() };
        self.nodes.set_and_swap(x, &mut node);
        node.seq = seq;
        node.entry = entry;
        self.nodes.set_and_swap(x, &mut node);
        if new_bytes >= old_bytes {
            proof {
                lemma_wrapping_add(old(self).size, rows_size(old(self).rows()) as int, (new_bytes - old_bytes) as usize);
            }
            self.size = self.size.wrapping_add(new_bytes - old_bytes);
        } else {
            proof {
                let new_row = RowView { key, value: entry@, seq };
                lemma_rows_size_update(old(self).rows(), r, new_row);
                assert(old(self).rows()[r] == old(self).row_at(x as int));
                lemma_wrapping_sub(old(self).size, rows_size(old(self).rows()) as int, (old_bytes - new_bytes) as usize);
            }
            self.size = self.size.wrapping_sub(old_bytes - new_bytes);
        }
        let ghost new_row = RowView { key, value: entry@, seq };
        proof {
            let old_rows = old(self).rows();
            assert(self.rows() =~= old_rows.update(r, new_row)) by {
                assert forall|i: int| 0 <= i < self.n() implies #[trigger] self.rows()[i] == old_rows.update(r, new_row)[i] by {
                    old(self).lemma_rows_index(i);
                    if i != r {
                        assert(self.order@[i] != x as int);
                    }
                }
            }
            lemma_rows_map_update(old_rows, r, new_row);
            lemma_rows_size_update(old_rows, r, new_row);
            assert(old_rows[r] == old(self).row_at(x as int));
        }
        proof {
            assert forall|y: int, l: int|
                0 <= y < self.n() && 0 <= l < self.height_at(y) implies {
                    &&& self.link_ok(#[trigger] self.next_at(y, l), l)
                    &&& (self.next_at(y, l) matches Some(z) ==> self.rank@[y] < self.rank@[z as int])
                } by {
                assert(old(self).next_at(y, l) == self.next_at(y, l));
                assert(old(self).height_at(y) == self.height_at(y));
                if let Some(z) = self.next_at(y, l) {
                    assert(old(self).height_at(z as int) == self.height_at(z as int));
                }
            }
            assert forall|l: int| 0 <= l < MAX_HEIGHT implies self.link_ok(#[trigger] self.head@[l], l) by {
                if let Some(z) = self.head@[l] {
                    assert(old(self).link_ok(old(self).head@[l], l));
                    assert(old(self).height_at(z as int) == self.height_at(z as int));
                }
            }
            assert forall|i: int| 0 <= i < self.n() implies #[trigger] self.next_at(self.order@[i], 0)
                == (if i + 1 < self.n() { Some(self.order@[i + 1] as usize) } else { None::<usize> }) by {
                assert(old(self).next_at(old(self).order@[i], 0) == self.next_at(self.order@[i], 0));
            }
            assert forall|y: int| 0 <= y < self.n() implies 1 <= #[trigger] self.height_at(y) <= MAX_HEIGHT by {
                assert(old(self).height_at(y) == self.height_at(y));
            }
        }
    }

    /// The list `s1` is `s0` with a node `n` for `row` placed at position `p`
    /// and linked in at level 0, where the search for its key in `s0` gave
    /// `preds`/`succs`.
    spec fn node_added(
        s0: SkipList,
        s1: SkipList,
        preds: Seq<Option<usize>>,
        succs: Seq<Option<usize>>,
        row: RowView,
        height: int,
    ) -> bool {
        let n = s0.n();
        let p = s0.pos_after(preds[0]);
        &&& s1.nodes@.len() == n + 1
        &&& forall|y: int| #![trigger s1.nodes@[y]]
            0 <= y < n ==> {
                &&& s1.nodes@[y].key == s0.nodes@[y].key
                &&& s1.nodes@[y].seq == s0.nodes@[y].seq
                &&& s1.nodes@[y].entry == s0.nodes@[y].entry
                &&& s1.nodes@[y].tower@ == (if preds[0] == Some(y as usize) {
                    s0.nodes@[y].tower@.update(0, Some(n as usize))
                } else {
                    s0.nodes@[y].tower@
                })
            }
        &&& s1.nodes@[n].key@ == row.key
        &&& s1.nodes@[n].entry@ == row.value
        &&& s1.nodes@[n].seq == row.seq
        &&& s1.nodes@[n].tower@ == succs.subrange(0, height)
        &&& 1 <= height <= MAX_HEIGHT
        &&& s1.head@ == (if preds[0] is None {
            s0.head@.update(0, Some(n as usize))
        } else {
            s0.head@
        })
        &&& s1.order@ == s0.order@.insert(p, n)
        &&& s1.rank@ == Seq::new(
            (n + 1) as nat,
            |y: int|
                if y == n {
                    p
                } else if s0.rank@[y] >= p {
                    s0.rank@[y] + 1
                } else {
                    s0.rank@[y]
                },
        )
        &&& s1.size as int == (rows_size(s0.rows()) + row_bytes(row)) as int % usize_range()
    }

    /// Adding a node at its place in key order, linked at level 0, keeps the
    /// list well formed and inserts its row.
    #[verifier::rlimit(50)]
    proof fn lemma_node_added(
        s0: SkipList,
        s1: SkipList,
        preds: Seq<Option<usize>>,
        succs: Seq<Option<usize>>,
        row: RowView,
        height: int,
    )
        requires
            s0.wf(),
            s0.search_absent(preds, succs, row.key),
            Self::node_added(s0, s1, preds, succs, row, height),
        ensures
            s1.wf(),
            s1.rows() == s0.rows().insert(s0.pos_after(preds[0]), row),
    {
        let n = s0.n();
        let p = s0.pos_after(preds[0]);
        let key = row.key;
        s0.lemma_absent_bounds(preds, succs, key, 0);
        s0.lemma_search_position(preds[0], key);
        assert(0 <= p <= n);
        assert(s1.n() == n + 1);
        // the permutation
        assert forall|i: int| 0 <= i < n + 1 implies 0 <= #[trigger] s1.order@[i] < n + 1
            && s1.rank@[s1.order@[i]] == i by {
            if i < p {
                assert(s1.order@[i] == s0.order@[i]);
            } else if i > p {
                assert(s1.order@[i] == s0.order@[i - 1]);
            }
        }
        assert forall|x: int| 0 <= x < n + 1 implies 0 <= #[trigger] s1.rank@[x] < n + 1
            && s1.order@[s1.rank@[x]] == x by {
            if x < n {
                let r = s0.rank@[x];
                assert(s0.order@[r] == x);
            }
        }
        // the rows
        let rows0 = s0.rows();
        let rows1 = rows0.insert(p, row);
        assert(s1.rows() =~= rows1) by {
            assert forall|i: int| 0 <= i < n + 1 implies #[trigger] s1.rows()[i] == rows1[i] by {
                if i < p {
                    s0.lemma_rows_index(i);
                    let x = s0.order@[i];
                    assert(s1.nodes@[x] == s1.nodes@[x]);
                } else if i > p {
                    s0.lemma_rows_index(i - 1);
                    let x = s0.order@[i - 1];
                    assert(s1.nodes@[x] == s1.nodes@[x]);
                }
            }
        }
        assert(rows_sorted(rows1)) by {
            assert forall|i: int, j: int| 0 <= i < j < rows1.len() implies lex_lt(
                #[trigger] rows1[i].key,
                #[trigger] rows1[j].key,
            ) by {
                if i < p {
                    s0.lemma_rows_index(i);
                }
                if i > p {
                    s0.lemma_rows_index(i - 1);
                }
                if j < p {
                    s0.lemma_rows_index(j);
                }
                if j > p {
                    s0.lemma_rows_index(j - 1);
                }
                if i != p && j != p {
                    let i0 = if i < p { i } else { i - 1 };
                    let j0 = if j < p { j } else { j - 1 };
                    assert(lex_lt(rows0[i0].key, rows0[j0].key));
                }
            }
        }
        // level 0
        assert(s1.head@[0] == Some(s1.order@[0] as usize)) by {
            if p > 0 {
                assert(s1.order@[0] == s0.order@[0]);
            }
        }
        assert forall|i: int| 0 <= i < n + 1 implies #[trigger] s1.next_at(s1.order@[i], 0) == (if i + 1 < n + 1 {
            Some(s1.order@[i + 1] as usize)
        } else {
            None::<usize>
        }) by {
            if i < p {
                let x = s0.order@[i];
                assert(s1.nodes@[x] == s1.nodes@[x]);
                assert(s0.next_at(s0.order@[i], 0) == s0.next_at(x, 0));
                if i + 1 < p {
                    assert(preds[0] != Some(x as usize)) by {
                        if let Some(q) = preds[0] {
                            assert(s0.order@[s0.rank@[q as int]] == q as int);
                        }
                    }
                    assert(s1.order@[i + 1] == s0.order@[i + 1]);
                } else {
                    assert(preds[0] == Some(x as usize)) by {
                        let q = preds[0]->0;
                        assert(s0.order@[s0.rank@[q as int]] == q as int);
                    }
                }
            } else if i == p {
                assert(s1.nodes@[n].tower@[0] == succs[0]);
                if p < n {
                    assert(s1.order@[p + 1] == s0.order@[p]);
                }
            } else {
                let x = s0.order@[i - 1];
                assert(s1.nodes@[x] == s1.nodes@[x]);
                assert(s0.next_at(s0.order@[i - 1], 0) == s0.next_at(x, 0));
                assert(preds[0] != Some(x as usize)) by {
                    if let Some(q) = preds[0] {
                        assert(s0.order@[s0.rank@[q as int]] == q as int);
                    }
                }
                if i + 1 < n + 1 {
                    assert(s1.order@[i + 1] == s0.order@[i]);
                }
            }
        }
        // heights and links
        assert forall|y: int| 0 <= y < n + 1 implies 1 <= #[trigger] s1.height_at(y) <= MAX_HEIGHT by {
            if y < n {
                assert(s1.nodes@[y] == s1.nodes@[y]);
                assert(1 <= s0.height_at(y) <= MAX_HEIGHT);
            }
        }
        assert forall|y: int, l: int| 0 <= y < n + 1 && 0 <= l < s1.height_at(y) implies {
            &&& s1.link_ok(#[trigger] s1.next_at(y, l), l)
            &&& (s1.next_at(y, l) matches Some(z) ==> s1.rank@[y] < s1.rank@[z as int])
        } by {
            if y == n {
                assert(s1.next_at(y, l) == succs[l]);
                s0.lemma_absent_bounds(preds, succs, key, l);
                assert(s0.link_ok(succs[l], l));
                if let Some(z) = succs[l] {
                    assert(s1.nodes@[z as int] == s1.nodes@[z as int]);
                }
            } else {
                assert(s1.nodes@[y] == s1.nodes@[y]);
                assert(s0.height_at(y) == s1.height_at(y));
                if preds[0] == Some(y as usize) && l == 0 {
                    s0.lemma_absent_bounds(preds, succs, key, 0);
                } else {
                    assert(s1.next_at(y, l) == s0.next_at(y, l));
                    assert(s0.link_ok(s0.next_at(y, l), l));
                    if let Some(z) = s0.next_at(y, l) {
                        assert(s1.nodes@[z as int] == s1.nodes@[z as int]);
                    }
                }
            }
        }
        assert forall|l: int| 0 <= l < MAX_HEIGHT implies s1.link_ok(#[trigger] s1.head@[l], l) by {
            if !(preds[0] is None && l == 0) {
                assert(s0.link_ok(s0.head@[l], l));
                if let Some(z) = s0.head@[l] {
                    assert(s1.nodes@[z as int] == s1.nodes@[z as int]);
                }
            }
        }
        lemma_rows_size_insert(rows0, p, row);
    }

    /// Links a new node for `key` into the list, where the search `preds`/
    /// `succs` found the key absent.
    fn insert_new(
        &mut self,
        key: Bytes,
        entry: ValueEntry,
        seq: u64,
        new_bytes: usize,
        preds: Vec<Option<usize>>,
        succs: Vec<Option<usize>>,
    )
        requires
            old(self).wf(),
            old(self).search_absent(preds@, succs@, key@),
            new_bytes == match entry@ {
                Some(v) => v.len(),
                None => 0,
            },
        ensures
            final(self).wf(),
            final(self).rows() == old(self).rows().insert(
                old(self).pos_after(preds@[0]),
                RowView { key: key@, value: entry@, seq },
            ),
    {
        let height = random_height(&mut self.rng);
        let mut tower: Vec<Option<usize>> = Vec::new();
        let mut l: usize = 0;
        while l < height
            invariant
                l <= height <= MAX_HEIGHT,
                succs@.len() == MAX_HEIGHT,
                tower@ == succs@.subrange(0, l as int),
            decreases height - l,
        {
            tower.push(succs[l]);
            l = l + 1;
        }
        let ghost s0 = *old(self);
        let ghost n = self.n();
        let ghost p = self.pos_after(preds@[0]);
        let ghost row = RowView { key: key@, value: entry@, seq };
        let klen = key.len();
        let idx = self.nodes.len();
        self.nodes.push(Node { key, seq, entry, tower });
        self.order = Ghost(s0.order@.insert(p, n));
        self.rank = Ghost(
            Seq::new(
                (n + 1) as nat,
                |y: int|
                    if y == n {
                        p
                    } else if s0.rank@[y] >= p {
                        s0.rank@[y] + 1
                    } else {
                        s0.rank@[y]
                    },
            ),
        );
        proof {
            lemma_wrapping_add(s0.size, rows_size(s0.rows()) as int, klen);
            lemma_wrapping_add(
                s0.size.wrapping_add(klen),
                rows_size(s0.rows()) + klen,
                new_bytes,
            );
            assert(row_bytes(row) == klen + new_bytes);
        }
        self.size = self.size.wrapping_add(klen).wrapping_add(new_bytes);
        proof {
            s0.lemma_absent_bounds(preds@, succs@, key@, 0);
        }
        let ghost s_mid = *self;
        self.set_link(preds[0], 0, Some(idx));
        proof {
            assert forall|y: int| 0 <= y < n implies #[trigger] self.nodes@[y].key == s0.nodes@[y].key by {
                assert(self.nodes@[y] == self.nodes@[y]);
                assert(s_mid.nodes@[y] == s0.nodes@[y]);
            }
            assert(preds@[0] != Some(n as usize));
            assert(self.nodes@[n] == self.nodes@[n]);
            assert(self.nodes@[n].tower@ == s_mid.nodes@[n].tower@);
            assert(self.nodes@[n].key == s_mid.nodes@[n].key);
            Self::lemma_node_added(s0, *self, preds@, succs@, row, height as int);
            assert forall|k: int|
                0 <= k < MAX_HEIGHT implies (#[trigger] preds@[k] matches Some(x) ==> x < self.n()
                    && k < self.height_at(x as int) && self.rank@[x as int] < p) by {
                s0.lemma_absent_bounds(preds@, succs@, key@, k);
                assert(s0.pred_ok(preds@[k], k, key@));
                if let Some(x) = preds@[k] {
                    assert(self.nodes@[x as int] == self.nodes@[x as int]);
                    assert(s0.height_at(x as int) == self.height_at(x as int));
                }
            }
        }
        let mut l: usize = 1;
        while l < height
            invariant
                1 <= l <= height <= MAX_HEIGHT,
                self.wf(),
                self.rows() == s0.rows().insert(p, row),
                self.n() == n + 1,
                idx == n,
                self.height_at(n) == height,
                self.rank@[n] == p,
                preds@.len() == MAX_HEIGHT,
                forall|k: int|
                    0 <= k < MAX_HEIGHT ==> (#[trigger] preds@[k] matches Some(x) ==> x < self.n()
                        && k < self.height_at(x as int) && self.rank@[x as int] < p),
            decreases height - l,
        {
            let ghost s_prev = *self;
            self.set_link(preds[l], l, Some(idx));
            proof {
                Self::lemma_relink_upper(s_prev, *self, preds@[l as int], l as int, idx);
                assert(self.nodes@[n] == self.nodes@[n]);
                assert forall|k: int|
                    0 <= k < MAX_HEIGHT implies (#[trigger] preds@[k] matches Some(x) ==> x < self.n()
                        && k < self.height_at(x as int) && self.rank@[x as int] < p) by {
                    if let Some(x) = preds@[k] {
                        assert(self.nodes@[x as int] == self.nodes@[x as int]);
                        assert(s_prev.height_at(x as int) == self.height_at(x as int));
                    }
                }
            }
            l = l + 1;
        }
    }

    /// Inserts or overwrites `key` with `entry` at sequence number `seq`.
    ///
    /// Writes are last-writer-wins by `seq`: an update whose `seq` is lower
    /// than the one currently stored for the key is discarded.
    pub fn insert(&mut self, key: Bytes, entry: ValueEntry, seq: u64)
        requires
            old(self).wf(),
        ensures
            final(self).wf(),
            final(self).view() == put_slot(old(self).view(), key@, seq, entry@),
    {
        let new_bytes = entry_bytes(&entry);
        let (preds, succs, found) = self.find(key.as_slice());
        match found {
            Some(x) => {
                self.update_value(x, entry, seq, new_bytes);
            },
            None => {
                let ghost row = RowView { key: key@, value: entry@, seq };
                let ghost p = self.pos_after(preds@[0]);
                proof {
                    assert(self.search_absent(preds@, succs@, key@));
                    lemma_rows_map(self.rows());
                }
                self.insert_new(key, entry, seq, new_bytes, preds, succs);
                proof {
                    lemma_rows_map_insert(old(self).rows(), p, row);
                    if old(self).view().contains_key(row.key) {
                        let i = choose|i: int| 0 <= i < old(self).rows().len() && old(self).rows()[i].key == row.key;
                        old(self).lemma_rows_index(i);
                        old(self).lemma_absent_bounds(preds@, succs@, row.key, 0);
                        // The key would lie below or above itself.
                        lemma_lex_asymmetric(row.key, row.key);
                    }
                }
            },
        }
    }

    /// The rows of a well-formed list ascend by key and describe its map.
    pub proof fn lemma_model(&self)
        requires
            self.wf(),
        ensures
            rows_sorted(self.rows()),
            self.view() == rows_map(self.rows()),
    {
    }

    /// Creates an empty skiplist.
    pub fn new() -> (s: Self)
        ensures
            s.wf(),
            s.rows() == Seq::<RowView>::empty(),
            s.view() == Map::<Seq<u8>, (u64, Option<Seq<u8>>)>::empty(),
    {
        let mut head: Vec<Option<usize>> = Vec::new();
        let mut l: usize = 0;
        while l < MAX_HEIGHT
            invariant
                l <= MAX_HEIGHT,
                head@.len() == l,
                forall|k: int| 0 <= k < l ==> #[trigger] head@[k] == None::<usize>,
            decreases MAX_HEIGHT - l,
        {
            head.push(None);
            l = l + 1;
        }
        let s = SkipList {
            head,
            nodes: Vec::new(),
            size: 0,
            rng: seed(),
            order: Ghost(Seq::empty()),
            rank: Ghost(Seq::empty()),
        };
        assert(s.rows() =~= Seq::<RowView>::empty());
        assert(rows_size(s.rows()) == 0);
        s
    }

    /// Number of distinct keys currently stored (tombstones included).
    pub fn entry_count(&self) -> (r: usize)
        requires
            self.wf(),
        ensures
            r == self.rows().len(),
    {
        self.nodes.len()
    }

    /// The user-data footprint in bytes, modulo the `usize` range.
    pub fn byte_size(&self) -> (r: usize)
        requires
            self.wf(),
        ensures
            r as int == rows_size(self.rows()) as int % usize_range(),
    {
        self.size
    }
}

} // verus!
