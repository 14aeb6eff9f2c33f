//! A transposition table: an open-addressing hash map from a position and
//! the side to move to a score, indexed by the position's Zobrist hash and
//! probed linearly. Deleted slots become tombstones, which probing walks
//! through and insertion reuses.

use vstd::prelude::*;
use crate::board::Slot;
use crate::game::{Game, same_game};
use crate::zobrist::Zobrist;

verus! {

/// Slots a new table starts with.
pub const INITIAL_CAPACITY: usize = 1000;

/// The largest table that may still grow.
pub const MAX_CAPACITY: usize = 0x4000_0000;

/// Seed of the key table of a table made by `Table::new`.
pub const TABLE_SEED: u64 = 0x5EED_0F_7AB1E;

#[derive(Clone, Copy)]
enum Entry {
    Empty,
    Tomb,
    Full(Game, Slot, i32),
}

spec fn key_of(e: Entry) -> (Game, Slot) {
    match e {
        Entry::Full(g, s, _) => (g, s),
        _ => arbitrary(),
    }
}

spec fn value_of(e: Entry) -> i32 {
    match e {
        Entry::Full(_, _, v) => v,
        _ => 0,
    }
}

/// The slot `d` steps after `h` in a table of `cap` slots.
spec fn probe(h: int, d: int, cap: int) -> int {
    if h + d < cap {
        h + d
    } else {
        h + d - cap
    }
}

/// How many steps lead from slot `h` to slot `p`.
spec fn dist(h: int, p: int, cap: int) -> int {
    if p >= h {
        p - h
    } else {
        p + cap - h
    }
}

/// How many of the first `n` slots are not empty.
spec fn used(s: Seq<Entry>, n: int) -> int
    decreases n,
{
    if n <= 0 {
        0
    } else {
        used(s, n - 1) + if s[n - 1] is Empty {
            0int
        } else {
            1int
        }
    }
}

proof fn lemma_used_bounds(s: Seq<Entry>, n: int)
    requires
        0 <= n <= s.len(),
    ensures
        0 <= used(s, n) <= n,
        used(s, n) < n ==> exists|i: int| 0 <= i < n && s[i] is Empty,
    decreases n,
{
    if n > 0 {
        lemma_used_bounds(s, n - 1);
        if used(s, n) < n && !(s[n - 1] is Empty) {
            let i = choose|i: int| 0 <= i < n - 1 && s[i] is Empty;
            assert(0 <= i < n && s[i] is Empty);
        }
    }
}

proof fn lemma_used_update(s: Seq<Entry>, i: int, e: Entry, n: int)
    requires
        0 <= i < s.len(),
        0 <= n <= s.len(),
    ensures
        used(s.update(i, e), n) == used(s, n) + if i < n {
            (if e is Empty {
                0int
            } else {
                1int
            }) - (if s[i] is Empty {
                0int
            } else {
                1int
            })
        } else {
            0int
        },
    decreases n,
{
    if n > 0 {
        lemma_used_update(s, i, e, n - 1);
    }
}

proof fn lemma_used_empty(s: Seq<Entry>, n: int)
    requires
        0 <= n <= s.len(),
        forall|i: int| 0 <= i < s.len() ==> s[i] is Empty,
    ensures
        used(s, n) == 0,
    decreases n,
{
    if n > 0 {
        lemma_used_empty(s, n - 1);
    }
}

/// A table from (position, side to move) to a score.
pub struct Table {
    entries: Vec<Entry>,
    count: usize,
    zobrist: Zobrist,
    map: Ghost<Map<(Game, Slot), i32>>,
}

impl View for Table {
    type V = Map<(Game, Slot), i32>;

    closed spec fn view(&self) -> Map<(Game, Slot), i32> {
        self.map@
    }
}

impl Table {
    /// How many slots the table has.
    pub closed spec fn capacity(&self) -> nat {
        self.entries@.len()
    }

    /// The slot where probing for `k` starts.
    closed spec fn home(&self, k: (Game, Slot)) -> int {
        (self.zobrist.hash_of(k.0, k.1) % (self.entries@.len() as u64)) as int
    }

    /// Every slot from `h` up to, not including, slot `p` is in use.
    closed spec fn chain_ok(&self, h: int, p: int) -> bool {
        forall|d: int|
            0 <= d < dist(h, p, self.entries@.len() as int) ==> !(#[trigger] self.entries@[probe(
                h,
                d,
                self.entries@.len() as int,
            )] is Empty)
    }

    /// Key `k` stands in slot `p`, reachable by probing from its home slot.
    closed spec fn located(&self, k: (Game, Slot), p: int) -> bool {
        &&& 0 <= p < self.entries@.len()
        &&& self.entries@[p] is Full
        &&& key_of(self.entries@[p]) == k
        &&& self.chain_ok(self.home(k), p)
    }

    pub closed spec fn wf(&self) -> bool {
        &&& self.zobrist.wf()
        &&& 0 < self.entries@.len() <= 2 * MAX_CAPACITY
        &&& self.count == used(self.entries@, self.entries@.len() as int)
        &&& self.count < self.entries@.len()
        &&& self.map@.dom().finite()
        &&& forall|i: int|
            0 <= i < self.entries@.len() && (#[trigger] self.entries@[i]) is Full ==> {
                &&& self.map@.contains_key(key_of(self.entries@[i]))
                &&& self.map@[key_of(self.entries@[i])] == value_of(self.entries@[i])
                &&& key_of(self.entries@[i]).0.wf()
            }
        &&& forall|k: (Game, Slot)| #[trigger]
            self.map@.contains_key(k) ==> exists|p: int| #[trigger] self.located(k, p)
        &&& forall|i: int, j: int|
            0 <= i < self.entries@.len() && 0 <= j < self.entries@.len() && (#[trigger] self.entries@[i]) is Full
                && (#[trigger] self.entries@[j]) is Full && key_of(self.entries@[i]) == key_of(
                self.entries@[j],
            ) ==> i == j
    }

    /// An empty table of `INITIAL_CAPACITY` slots, hashing with the key table
    /// drawn from `TABLE_SEED`.
    pub fn new() -> (r: Table)
        ensures
            r.wf(),
            r@ == Map::<(Game, Slot), i32>::empty(),
            r.capacity() == INITIAL_CAPACITY,
    {
        Table::with_zobrist(Zobrist::new(TABLE_SEED))
    }

    /// An empty table of `INITIAL_CAPACITY` slots hashing with `zobrist`.
    pub fn with_zobrist(zobrist: Zobrist) -> (r: Table)
        requires
            zobrist.wf(),
        ensures
            r.wf(),
            r@ == Map::<(Game, Slot), i32>::empty(),
            r.capacity() == INITIAL_CAPACITY,
    {
        let entries = empty_slots(INITIAL_CAPACITY);
        proof {
            lemma_used_empty(entries@, entries@.len() as int);
        }
        Table { entries, count: 0, zobrist, map: Ghost(Map::empty()) }
    }

    proof fn lemma_probe_facts(&self, h: int, p: int)
        requires
            0 <= h < self.entries@.len(),
            0 <= p < self.entries@.len(),
        ensures
            0 <= dist(h, p, self.entries@.len() as int) < self.entries@.len(),
            probe(h, dist(h, p, self.entries@.len() as int), self.entries@.len() as int) == p,
            forall|d: int|
                0 <= d < self.entries@.len() ==> 0 <= #[trigger] probe(
                    h,
                    d,
                    self.entries@.len() as int,
                ) < self.entries@.len() && (probe(h, d, self.entries@.len() as int) == p <==> d
                    == dist(h, p, self.entries@.len() as int)),
    {
    }

    /// The slot that holds `(game, side)`, if it is in the table; otherwise
    /// the slot where it would go: the first tombstone on its probe path, or
    /// the empty slot that ends the path.
    fn find_index(&self, game: &Game, side: Slot) -> (r: usize)
        requires
            self.wf(),
            game.wf(),
        ensures
            r < self.entries@.len(),
            self@.contains_key((*game, side)) ==> self.entries@[r as int] is Full && key_of(
                self.entries@[r as int],
            ) == (*game, side),
            !self@.contains_key((*game, side)) ==> !(self.entries@[r as int] is Full)
                && self.chain_ok(self.home((*game, side)), r as int),
    {
        let cap = self.entries.len();
        let hash = self.zobrist.hash(game, side);
        let h = (hash % (cap as u64)) as usize;
        let ghost key = (*game, side);
        let ghost capi = cap as int;
        proof {
            lemma_used_bounds(self.entries@, capi);
            assert(exists|e: int| 0 <= e < capi && self.entries@[e] is Empty);
        }
        let ghost e = choose|e: int| 0 <= e < capi && self.entries@[e] is Empty;
        proof {
            self.lemma_probe_facts(h as int, e);
        }
        let mut index: usize = h;
        let mut steps: usize = 0;
        let mut tomb: Option<usize> = None;
        let ghost mut tomb_d: int = 0;
        loop
            invariant
                self.wf(),
                cap == self.entries@.len(),
                capi == cap,
                h < cap,
                h as int == self.home(key),
                key == (*game, side),
                0 <= e < cap,
                self.entries@[e] is Empty,
                steps <= dist(h as int, e, capi),
                index as int == probe(h as int, steps as int, capi),
                index < cap,
                forall|d: int|
                    0 <= d < steps ==> !(#[trigger] self.entries@[probe(h as int, d, capi)] is Empty)
                        && !(self.entries@[probe(h as int, d, capi)] is Full && key_of(
                        self.entries@[probe(h as int, d, capi)],
                    ) == key),
                tomb is Some ==> {
                    &&& 0 <= tomb_d < steps
                    &&& tomb.unwrap() as int == probe(h as int, tomb_d, capi)
                    &&& self.entries@[tomb.unwrap() as int] is Tomb
                },
            decreases dist(h as int, e, capi) - steps,
        {
            proof {
                self.lemma_probe_facts(h as int, e);
            }
            match self.entries[index] {
                Entry::Full(g, s, _) => {
                    if s == side && same_game(&g, game) {
                        return index;
                    }
                },
                Entry::Empty => {
                    proof {
                        if self@.contains_key(key) {
                            let p = choose|p: int| #[trigger] self.located(key, p);
                            self.lemma_probe_facts(h as int, p);
                            let dp = dist(h as int, p, capi);
                            if dp < steps {
                                assert(self.entries@[probe(h as int, dp, capi)] is Full);
                            } else if dp > steps {
                                assert(!(self.entries@[probe(h as int, steps as int, capi)] is Empty));
                            }
                        }
                    }
                    match tomb {
                        Some(t) => {
                            proof {
                                self.lemma_probe_facts(h as int, t as int);
                                assert forall|d: int|
                                    0 <= d < dist(h as int, t as int, capi) implies !(
                                    #[trigger] self.entries@[probe(h as int, d, capi)] is Empty) by {
                                }
                            }
                            return t;
                        },
                        None => {
                            proof {
                                assert forall|d: int|
                                    0 <= d < dist(h as int, index as int, capi) implies !(
                                    #[trigger] self.entries@[probe(h as int, d, capi)] is Empty) by {
                                    self.lemma_probe_facts(h as int, index as int);
                                }
                            }
                            return index;
                        },
                    }
                },
                Entry::Tomb => {
                    if tomb.is_none() {
                        tomb = Some(index);
                        proof {
                            tomb_d = steps as int;
                        }
                    }
                },
            }
            proof {
                if index as int == e {
                    assert(false);
                }
            }
            index = if index + 1 == cap {
                0
            } else {
                index + 1
            };
            steps = steps + 1;
        }
    }
    /// Writing entry `e` into slot `i` keeps every probe path that was in use
    /// in use, as long as `e` is not empty.
    proof fn lemma_chain_kept(&self, pre: Seq<Entry>, h: int, p: int)
        requires
            self.entries@.len() == pre.len(),
            forall|j: int| 0 <= j < pre.len() && !(pre[j] is Empty) ==> !(#[trigger] self.entries@[j] is Empty),
            forall|d: int|
                0 <= d < dist(h, p, pre.len() as int) ==> !(#[trigger] pre[probe(h, d, pre.len() as int)] is Empty),
            0 <= h < pre.len(),
            0 <= p < pre.len(),
        ensures
            self.chain_ok(h, p),
    {
        self.lemma_probe_facts(h, p);
        assert forall|d: int| 0 <= d < dist(h, p, self.entries@.len() as int) implies !(
        #[trigger] self.entries@[probe(h, d, self.entries@.len() as int)] is Empty) by {
            assert(!(pre[probe(h, d, pre.len() as int)] is Empty));
        }
    }

    /// Stores `value` under `key` without growing the table.
    fn put(&mut self, key: (Game, Slot), value: i32) -> (r: bool)
        requires
            old(self).wf(),
            key.0.wf(),
            old(self).count + 1 < old(self).entries@.len(),
        ensures
            final(self).wf(),
            final(self)@ == old(self)@.insert(key, value),
            r == !old(self)@.contains_key(key),
            final(self).entries@.len() == old(self).entries@.len(),
            final(self).count <= old(self).count + 1,
    {
        let i = self.find_index(&key.0, key.1);
        let ghost pre = self.entries@;
        let ghost pre_map = self.map@;
        let ghost h = self.home(key);
        let is_replacing = match self.entries[i] {
            Entry::Full(..) => true,
            _ => false,
        };
        let is_new = match self.entries[i] {
            Entry::Empty => true,
            _ => false,
        };
        proof {
            lemma_used_update(pre, i as int, Entry::Full(key.0, key.1, value), pre.len() as int);
            if pre_map.contains_key(key) {
                let p = choose|p: int| #[trigger] old(self).located(key, p);
                assert(p == i);
            }
        }
        self.entries.set(i, Entry::Full(key.0, key.1, value));
        if is_new {
            self.count = self.count + 1;
        }
        self.map = Ghost(self.map@.insert(key, value));
        proof {
            let cap = pre.len() as int;
            assert(self.entries@ == pre.update(i as int, Entry::Full(key.0, key.1, value)));
            assert forall|j: int| 0 <= j < cap && !(pre[j] is Empty) implies !(
            #[trigger] self.entries@[j] is Empty) by {}
            assert forall|k: (Game, Slot)| #[trigger]
                self.map@.contains_key(k) implies exists|p: int| #[trigger] self.located(k, p) by {
                if k == key {
                    if pre_map.contains_key(key) {
                        let p = choose|p: int| #[trigger] old(self).located(key, p);
                        self.lemma_chain_kept(pre, h, p);
                        assert(self.located(k, p));
                    } else {
                        self.lemma_chain_kept(pre, h, i as int);
                        assert(self.located(k, i as int));
                    }
                } else {
                    assert(pre_map.contains_key(k));
                    let p = choose|p: int| #[trigger] old(self).located(k, p);
                    self.lemma_chain_kept(pre, old(self).home(k), p);
                    assert(self.located(k, p));
                }
            }
            assert forall|a: int|
                0 <= a < cap && (#[trigger] self.entries@[a]) is Full implies {
                &&& self.map@.contains_key(key_of(self.entries@[a]))
                &&& self.map@[key_of(self.entries@[a])] == value_of(self.entries@[a])
                &&& key_of(self.entries@[a]).0.wf()
            } by {
                if a != i {
                    assert(pre[a] is Full);
                    if key_of(pre[a]) == key {
                        assert(pre_map.contains_key(key));
                    }
                }
            }
            assert forall|a: int, b: int|
                0 <= a < cap && 0 <= b < cap && (#[trigger] self.entries@[a]) is Full
                    && (#[trigger] self.entries@[b]) is Full && key_of(self.entries@[a])
                    == key_of(self.entries@[b]) implies a == b by {
                if a != i && b != i {
                    assert(pre[a] is Full && pre[b] is Full);
                } else if a != i {
                    assert(pre[a] is Full);
                    assert(pre_map.contains_key(key));
                } else if b != i {
                    assert(pre[b] is Full);
                    assert(pre_map.contains_key(key));
                }
            }
        }
        !is_replacing
    }

    /// Stores `value` under `key`, growing the table to twice its size first
    /// when this entry would fill more than seven tenths of it. Says whether
    /// the key is new.
    pub fn insert(&mut self, key: (Game, Slot), value: i32) -> (r: bool)
        requires
            old(self).wf(),
            key.0.wf(),
            old(self).capacity() <= MAX_CAPACITY,
        ensures
            final(self).wf(),
            final(self)@ == old(self)@.insert(key, value),
            r == !old(self)@.contains_key(key),
            final(self).capacity() == old(self).capacity() || final(self).capacity() == 2
                * old(self).capacity(),
    {
        if (self.count as u64 + 1) * 10 > self.entries.len() as u64 * 7 {
            self.resize();
        }
        self.put(key, value)
    }

    /// The score stored for `game` with `slot` to move.
    pub fn get(&self, game: &Game, slot: Slot) -> (r: Option<i32>)
        requires
            self.wf(),
            game.wf(),
        ensures
            r == self@.get((*game, slot)),
    {
        let i = self.find_index(game, slot);
        match self.entries[i] {
            Entry::Full(_, _, v) => {
                proof {
                    if !self@.contains_key((*game, slot)) {
                        assert(false);
                    }
                }
                Some(v)
            },
            _ => None,
        }
    }

    /// Removes `key`, leaving a tombstone in its slot, and hands back the
    /// removed position and score.
    pub fn delete(&mut self, key: (&Game, Slot)) -> (r: Option<(Game, i32)>)
        requires
            old(self).wf(),
            key.0.wf(),
        ensures
            final(self).wf(),
            final(self)@ == old(self)@.remove((*key.0, key.1)),
            r == (if old(self)@.contains_key((*key.0, key.1)) {
                Some((*key.0, old(self)@[(*key.0, key.1)]))
            } else {
                None
            }),
            final(self).capacity() == old(self).capacity(),
    {
        let ghost k = (*key.0, key.1);
        let i = self.find_index(key.0, key.1);
        let ghost pre = self.entries@;
        let ghost pre_map = self.map@;
        match self.entries[i] {
            Entry::Full(g, _, v) => {
                proof {
                    lemma_used_update(pre, i as int, Entry::Tomb, pre.len() as int);
                }
                self.entries.set(i, Entry::Tomb);
                self.map = Ghost(self.map@.remove(k));
                proof {
                    let cap = pre.len() as int;
                    assert(self.entries@ == pre.update(i as int, Entry::Tomb));
                    assert forall|j: int| 0 <= j < cap && !(pre[j] is Empty) implies !(
                    #[trigger] self.entries@[j] is Empty) by {}
                    assert forall|kk: (Game, Slot)| #[trigger]
                        self.map@.contains_key(kk) implies exists|p: int| #[trigger] self.located(kk, p) by {
                        assert(pre_map.contains_key(kk));
                        let p = choose|p: int| #[trigger] old(self).located(kk, p);
                        self.lemma_chain_kept(pre, old(self).home(kk), p);
                        assert(p != i);
                        assert(self.located(kk, p));
                    }
                    assert forall|a: int|
                        0 <= a < cap && (#[trigger] self.entries@[a]) is Full implies {
                        &&& self.map@.contains_key(key_of(self.entries@[a]))
                        &&& self.map@[key_of(self.entries@[a])] == value_of(self.entries@[a])
                        &&& key_of(self.entries@[a]).0.wf()
                    } by {
                        assert(pre[a] is Full);
                        assert(a != i);
                    }
                    assert forall|a: int, b: int|
                        0 <= a < cap && 0 <= b < cap && (#[trigger] self.entries@[a]) is Full
                            && (#[trigger] self.entries@[b]) is Full && key_of(self.entries@[a])
                            == key_of(self.entries@[b]) implies a == b by {
                        assert(pre[a] is Full && pre[b] is Full);
                    }
                }
                Some((g, v))
            },
            _ => None,
        }
    }

    /// Moves every live entry into a table of twice the size; tombstones go.
    fn resize(&mut self)
        requires
            old(self).wf(),
            old(self).capacity() <= MAX_CAPACITY,
        ensures
            final(self).wf(),
            final(self)@ == old(self)@,
            final(self).capacity() == 2 * old(self).capacity(),
            final(self).count <= old(self).count,
    {
        let cap = self.entries.len();
        let mut old_entries = empty_slots(cap * 2);
        proof {
            lemma_used_empty(old_entries@, old_entries@.len() as int);
        }
        std::mem::swap(&mut self.entries, &mut old_entries);
        let ghost pre_map = self.map@;
        let ghost pre = old_entries@;
        self.count = 0;
        self.map = Ghost(Map::empty());
        let mut i: usize = 0;
        while i < old_entries.len()
            invariant
                old_entries@ == pre,
                pre.len() == cap,
                i <= cap,
                cap <= MAX_CAPACITY,
                self.wf(),
                self.entries@.len() == 2 * cap,
                self.count <= used(pre, i as int),
                forall|a: int|
                    0 <= a < cap && (#[trigger] pre[a]) is Full ==> {
                        &&& pre_map.contains_key(key_of(pre[a]))
                        &&& pre_map[key_of(pre[a])] == value_of(pre[a])
                        &&& key_of(pre[a]).0.wf()
                    },
                forall|k: (Game, Slot)| #[trigger]
                    pre_map.contains_key(k) ==> exists|p: int| 0 <= p < cap && #[trigger] pre[p] is Full && key_of(pre[p]) == k,
                forall|a: int, b: int|
                    0 <= a < cap && 0 <= b < cap && (#[trigger] pre[a]) is Full
                        && (#[trigger] pre[b]) is Full && key_of(pre[a]) == key_of(pre[b]) ==> a == b,
                used(pre, cap as int) < cap,
                forall|k: (Game, Slot)| #[trigger]
                    self.map@.contains_key(k) <==> exists|p: int| 0 <= p < i && #[trigger] pre[p] is Full && key_of(pre[p]) == k,
                forall|k: (Game, Slot)| #[trigger]
                    self.map@.contains_key(k) ==> self.map@[k] == pre_map[k],
            decreases cap - i,
        {
            proof {
                lemma_used_bounds(pre, i as int);
                lemma_monotone_used(pre, i as int, cap as int);
            }
            match old_entries[i] {
                Entry::Full(g, s, v) => {
                    proof {
                        assert(pre[i as int] is Full);
                        if self.map@.contains_key((g, s)) {
                            let p = choose|p: int| 0 <= p < i && #[trigger] pre[p] is Full && key_of(pre[p]) == (g, s);
                            assert(p == i);
                        }
                    }
                    self.put((g, s), v);
                    proof {
                        assert forall|k: (Game, Slot)| #[trigger]
                            self.map@.contains_key(k) <==> exists|p: int| 0 <= p < i + 1 && #[trigger] pre[p] is Full && key_of(pre[p]) == k by {
                            if self.map@.contains_key(k) && k == (g, s) {
                                assert(0 <= i < i + 1 && pre[i as int] is Full && key_of(pre[i as int]) == k);
                            }
                        }
                    }
                },
                _ => {
                    proof {
                        assert forall|k: (Game, Slot)| #[trigger]
                            self.map@.contains_key(k) <==> exists|p: int| 0 <= p < i + 1 && #[trigger] pre[p] is Full && key_of(pre[p]) == k by {
                            if exists|p: int| 0 <= p < i + 1 && #[trigger] pre[p] is Full && key_of(pre[p]) == k {
                                let p = choose|p: int| 0 <= p < i + 1 && #[trigger] pre[p] is Full && key_of(pre[p]) == k;
                                assert(p != i);
                            }
                        }
                    }
                },
            }
            i = i + 1;
        }
        proof {
            assert(self.map@ =~= pre_map);
        }
    }
}

proof fn lemma_monotone_used(s: Seq<Entry>, i: int, n: int)
    requires
        0 <= i <= n <= s.len(),
    ensures
        used(s, i) <= used(s, n),
    decreases n - i,
{
    if i < n {
        lemma_monotone_used(s, i, n - 1);
    }
}

/// The table's contents after inserting the first `n` pairs of `keys` and
/// `vals`, one after another, into `m`.
pub open spec fn inserted_all(
    m: Map<(Game, Slot), i32>,
    keys: Seq<(Game, Slot)>,
    vals: Seq<i32>,
    n: int,
) -> Map<(Game, Slot), i32>
    decreases n,
{
    if n <= 0 {
        m
    } else {
        inserted_all(m, keys, vals, n - 1).insert(keys[n - 1], vals[n - 1])
    }
}

/// After distinct keys are inserted one after another, `get` finds each key
/// with its own value.
pub proof fn lemma_inserts_then_gets(
    m: Map<(Game, Slot), i32>,
    keys: Seq<(Game, Slot)>,
    vals: Seq<i32>,
)
    requires
        keys.len() == vals.len(),
        forall|i: int, j: int| 0 <= i < j < keys.len() ==> keys[i] != keys[j],
    ensures
        forall|i: int|
            0 <= i < keys.len() ==> #[trigger] inserted_all(m, keys, vals, keys.len() as int).get(
                keys[i],
            ) == Some(vals[i]),
{
    lemma_inserts_prefix(m, keys, vals, keys.len() as int);
}

proof fn lemma_inserts_prefix(
    m: Map<(Game, Slot), i32>,
    keys: Seq<(Game, Slot)>,
    vals: Seq<i32>,
    n: int,
)
    requires
        0 <= n <= keys.len(),
        keys.len() == vals.len(),
        forall|i: int, j: int| 0 <= i < j < keys.len() ==> keys[i] != keys[j],
    ensures
        forall|i: int|
            0 <= i < n ==> #[trigger] inserted_all(m, keys, vals, n).get(keys[i]) == Some(vals[i]),
    decreases n,
{
    if n > 0 {
        lemma_inserts_prefix(m, keys, vals, n - 1);
        assert forall|i: int| 0 <= i < n implies #[trigger] inserted_all(m, keys, vals, n).get(
            keys[i],
        ) == Some(vals[i]) by {
            if i < n - 1 {
                assert(keys[i] != keys[n - 1]);
                assert(inserted_all(m, keys, vals, n - 1).get(keys[i]) == Some(vals[i]));
            }
        }
    }
}

/// Inserting a key that is already present reports it as present (so
/// `insert` returns `false`), and `get` then finds the latest value.
pub proof fn lemma_insert_twice(m: Map<(Game, Slot), i32>, k: (Game, Slot), v1: i32, v2: i32)
    ensures
        m.insert(k, v1).contains_key(k),
        m.insert(k, v1).insert(k, v2).get(k) == Some(v2),
{
}

/// After a key is deleted `get` finds nothing under it, and every other key
/// keeps its value.
pub proof fn lemma_delete_then_get(m: Map<(Game, Slot), i32>, k: (Game, Slot), other: (Game, Slot))
    ensures
        m.remove(k).get(k) == None::<i32>,
        other != k ==> m.remove(k).get(other) == m.get(other),
{
}

/// `n` empty slots.
fn empty_slots(n: usize) -> (r: Vec<Entry>)
    ensures
        r@.len() == n,
        forall|i: int| 0 <= i < n ==> r@[i] is Empty,
{
    let mut v: Vec<Entry> = Vec::new();
    while v.len() < n
        invariant
            v@.len() <= n,
            forall|i: int| 0 <= i < v@.len() ==> v@[i] is Empty,
        decreases n - v@.len(),
    {
        v.push(Entry::Empty);
    }
    v
}

impl Default for Table {
    fn default() -> (r: Table)
        ensures
            r.wf(),
            r@ == Map::<(Game, Slot), i32>::empty(),
    {
        Table::new()
    }
}

} // verus!
