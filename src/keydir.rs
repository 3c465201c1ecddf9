//! The keydir: an ordered index from each live key to where its value sits
//! in the log.
use vstd::prelude::*;

use crate::lex::{compare_keys, lemma_lex_irreflexive, lemma_lex_total, lemma_lex_transitive, lex_lt};

verus! {

/// Where a live value sits in the log: its byte offset and its length.
pub type Location = (u64, u32);

/// The keys of `e` are in strictly ascending lexicographic order.
pub open spec fn strictly_sorted(e: Seq<(Seq<u8>, Location)>) -> bool {
    forall|i: int, j: int| 0 <= i < j < e.len() ==> lex_lt(#[trigger] e[i].0, #[trigger] e[j].0)
}

/// The entries `e` list exactly the map `m`: each entry agrees with `m`,
/// and each key of `m` has an entry.
pub open spec fn indexes(e: Seq<(Seq<u8>, Location)>, m: Map<Seq<u8>, Location>) -> bool {
    &&& forall|i: int|
        0 <= i < e.len() ==> m.contains_key(#[trigger] e[i].0) && m[e[i].0] == e[i].1
    &&& forall|k: Seq<u8>| #[trigger] m.contains_key(k) ==> exists|i: int| 0 <= i < e.len() && e[i].0 == k
}

/// The sum of the key and value lengths of the entries `e`.
pub open spec fn live_size(e: Seq<(Seq<u8>, Location)>) -> int
    decreases e.len(),
{
    if e.len() == 0 {
        0
    } else {
        live_size(e.drop_last()) + e.last().0.len() + e.last().1.1
    }
}

/// The bytes that the entries `e` take in a log, length fields included.
pub open spec fn live_disk_size(e: Seq<(Seq<u8>, Location)>) -> int {
    live_size(e) + 8 * e.len()
}

/// The live size of a run of entries grows with the run.
pub proof fn lemma_live_size_prefix(e: Seq<(Seq<u8>, Location)>, i: int)
    requires
        0 <= i <= e.len(),
    ensures
        live_disk_size(e.subrange(0, i)) <= live_disk_size(e),
    decreases e.len(),
{
    if i < e.len() {
        assert(e.drop_last().subrange(0, i) =~= e.subrange(0, i));
        lemma_live_size_prefix(e.drop_last(), i);
    } else {
        assert(e.subrange(0, i) =~= e);
    }
}

/// The bytes that the entry of `k`, with a value of location `loc`, takes
/// in a log.
pub open spec fn slot_size(k: Seq<u8>, loc: Location) -> int {
    8 + k.len() + loc.1
}

/// Inserting an entry adds its size.
pub proof fn lemma_live_size_insert(e: Seq<(Seq<u8>, Location)>, p: int, x: (Seq<u8>, Location))
    requires
        0 <= p <= e.len(),
    ensures
        live_disk_size(e.insert(p, x)) == live_disk_size(e) + slot_size(x.0, x.1),
    decreases e.len(),
{
    if p == e.len() {
        assert(e.insert(p, x).drop_last() =~= e);
    } else {
        assert(e.insert(p, x).drop_last() =~= e.drop_last().insert(p, x));
        lemma_live_size_insert(e.drop_last(), p, x);
    }
}

/// Removing an entry takes away its size.
pub proof fn lemma_live_size_remove(e: Seq<(Seq<u8>, Location)>, p: int)
    requires
        0 <= p < e.len(),
    ensures
        live_disk_size(e.remove(p)) == live_disk_size(e) - slot_size(e[p].0, e[p].1),
    decreases e.len(),
{
    if p == e.len() - 1 {
        assert(e.remove(p) =~= e.drop_last());
    } else {
        assert(e.remove(p).drop_last() =~= e.drop_last().remove(p));
        lemma_live_size_remove(e.drop_last(), p);
    }
}

/// One end of a key range.
pub enum KeyBound {
    Included(Vec<u8>),
    Excluded(Vec<u8>),
    Unbounded,
}

/// `k` lies on the inner side of the lower bound `b`.
pub open spec fn above_lower(k: Seq<u8>, b: KeyBound) -> bool {
    match b {
        KeyBound::Included(x) => !lex_lt(k, x@),
        KeyBound::Excluded(x) => lex_lt(x@, k),
        KeyBound::Unbounded => true,
    }
}

/// `k` lies on the inner side of the upper bound `b`.
pub open spec fn below_upper(k: Seq<u8>, b: KeyBound) -> bool {
    match b {
        KeyBound::Included(x) => !lex_lt(x@, k),
        KeyBound::Excluded(x) => lex_lt(k, x@),
        KeyBound::Unbounded => true,
    }
}

/// `k` lies within the range from `lo` to `hi`.
pub open spec fn in_range(k: Seq<u8>, lo: KeyBound, hi: KeyBound) -> bool {
    above_lower(k, lo) && below_upper(k, hi)
}

/// The part of `m` whose keys lie within the range from `lo` to `hi`.
pub open spec fn range_of(m: Map<Seq<u8>, Location>, lo: KeyBound, hi: KeyBound) -> Map<
    Seq<u8>,
    Location,
> {
    Map::new(|k: Seq<u8>| m.contains_key(k) && in_range(k, lo, hi), |k: Seq<u8>| m[k])
}

/// Entries in strictly ascending key order, taken from the back, come in
/// strictly descending key order.
pub proof fn lemma_reverse_descending(e: Seq<(Seq<u8>, Location)>)
    requires
        strictly_sorted(e),
    ensures
        forall|i: int, j: int|
            0 <= i < j < e.len() ==> lex_lt(#[trigger] e.reverse()[j].0, #[trigger] e.reverse()[i].0),
{
    assert forall|i: int, j: int| 0 <= i < j < e.len() implies lex_lt(
        #[trigger] e.reverse()[j].0,
        #[trigger] e.reverse()[i].0,
    ) by {
        assert(e.reverse()[j] == e[e.len() - 1 - j]);
        assert(e.reverse()[i] == e[e.len() - 1 - i]);
    }
}

/// Listings with the same key and value lengths, entry by entry, have the
/// same live size.
pub proof fn lemma_live_size_same(e1: Seq<(Seq<u8>, Location)>, e2: Seq<(Seq<u8>, Location)>)
    requires
        e1.len() == e2.len(),
        forall|i: int|
            0 <= i < e1.len() ==> (#[trigger] e1[i]).0.len() == e2[i].0.len() && e1[i].1.1 == e2[i].1.1,
    ensures
        live_size(e1) == live_size(e2),
        live_disk_size(e1) == live_disk_size(e2),
    decreases e1.len(),
{
    if e1.len() > 0 {
        let (d1, d2) = (e1.drop_last(), e2.drop_last());
        assert forall|i: int| 0 <= i < d1.len() implies (#[trigger] d1[i]).0.len() == d2[i].0.len()
            && d1[i].1.1 == d2[i].1.1 by {
            assert(d1[i] == e1[i] && d2[i] == e2[i]);
        }
        lemma_live_size_same(d1, d2);
        assert(e1.last() == e1[e1.len() - 1] && e2.last() == e2[e2.len() - 1]);
    }
}

/// Some entry of `e` has the key `k`.
pub open spec fn listed(e: Seq<(Seq<u8>, Location)>, k: Seq<u8>) -> bool {
    exists|j: int| 0 <= j < e.len() && e[j].0 == k
}

/// Two listings in strictly ascending key order with the same keys list
/// them at the same positions.
pub proof fn lemma_sorted_keys_unique(e1: Seq<(Seq<u8>, Location)>, e2: Seq<(Seq<u8>, Location)>)
    requires
        strictly_sorted(e1),
        strictly_sorted(e2),
        forall|i: int| 0 <= i < e1.len() ==> listed(e2, #[trigger] e1[i].0),
        forall|j: int| 0 <= j < e2.len() ==> listed(e1, #[trigger] e2[j].0),
    ensures
        e1.len() == e2.len(),
        forall|i: int| 0 <= i < e1.len() ==> #[trigger] e1[i].0 == e2[i].0,
    decreases e1.len() + e2.len(),
{
    if e1.len() > 0 && e2.len() > 0 {
        assert(listed(e2, e1[0].0));
        assert(listed(e1, e2[0].0));
        let j = choose|j: int| 0 <= j < e2.len() && e2[j].0 == e1[0].0;
        let i = choose|i: int| 0 <= i < e1.len() && e1[i].0 == e2[0].0;
        assert(e1[0].0 == e2[0].0) by {
            if e1[0].0 != e2[0].0 {
                assert(lex_lt(e1[0].0, e1[i].0));
                assert(lex_lt(e2[0].0, e2[j].0));
                lemma_lex_total(e1[0].0, e2[0].0);
            }
        }
        let t1 = e1.drop_first();
        let t2 = e2.drop_first();
        assert forall|a: int| 0 <= a < t1.len() implies listed(t2, #[trigger] t1[a].0) by {
            assert(t1[a] == e1[a + 1]);
            assert(listed(e2, e1[a + 1].0));
            let b = choose|b: int| 0 <= b < e2.len() && e2[b].0 == e1[a + 1].0;
            assert(lex_lt(e1[0].0, e1[a + 1].0));
            lemma_lex_irreflexive(e1[0].0);
            assert(t2[b - 1] == e2[b]);
        }
        assert forall|b: int| 0 <= b < t2.len() implies listed(t1, #[trigger] t2[b].0) by {
            assert(t2[b] == e2[b + 1]);
            assert(listed(e1, e2[b + 1].0));
            let a = choose|a: int| 0 <= a < e1.len() && e1[a].0 == e2[b + 1].0;
            assert(lex_lt(e2[0].0, e2[b + 1].0));
            lemma_lex_irreflexive(e2[0].0);
            assert(t1[a - 1] == e1[a]);
        }
        assert forall|a: int, b: int| 0 <= a < b < t1.len() implies lex_lt(
            #[trigger] t1[a].0,
            #[trigger] t1[b].0,
        ) by {
            assert(t1[a] == e1[a + 1] && t1[b] == e1[b + 1]);
        }
        assert forall|a: int, b: int| 0 <= a < b < t2.len() implies lex_lt(
            #[trigger] t2[a].0,
            #[trigger] t2[b].0,
        ) by {
            assert(t2[a] == e2[a + 1] && t2[b] == e2[b + 1]);
        }
        lemma_sorted_keys_unique(t1, t2);
        assert forall|a: int| 0 <= a < e1.len() implies #[trigger] e1[a].0 == e2[a].0 by {
            if a > 0 {
                assert(t1[a - 1] == e1[a] && t2[a - 1] == e2[a]);
            }
        }
    } else if e1.len() > 0 {
        assert(listed(e2, e1[0].0));
    } else if e2.len() > 0 {
        assert(listed(e1, e2[0].0));
    }
}

/// A map has only one listing in strictly ascending key order.
pub proof fn lemma_listing_unique(
    e1: Seq<(Seq<u8>, Location)>,
    e2: Seq<(Seq<u8>, Location)>,
    m: Map<Seq<u8>, Location>,
)
    requires
        strictly_sorted(e1),
        strictly_sorted(e2),
        indexes(e1, m),
        indexes(e2, m),
    ensures
        e1 == e2,
{
    assert forall|i: int| 0 <= i < e1.len() implies listed(e2, #[trigger] e1[i].0) by {
        assert(m.contains_key(e1[i].0));
    }
    assert forall|j: int| 0 <= j < e2.len() implies listed(e1, #[trigger] e2[j].0) by {
        assert(m.contains_key(e2[j].0));
    }
    lemma_sorted_keys_unique(e1, e2);
    assert forall|i: int| 0 <= i < e1.len() implies #[trigger] e1[i] == e2[i] by {
        assert(e1[i].0 == e2[i].0);
        assert(m[e1[i].0] == e1[i].1 && m[e2[i].0] == e2[i].1);
    }
    assert(e1 =~= e2);
}

/// Two scans of one range of one keydir list the same entries in the same
/// order. So the entries one scan produces from the front are, in reverse,
/// those another produces from the back (see `collect_forward` and
/// `collect_backward`).
pub proof fn lemma_scan_unique(
    a: Seq<(Seq<u8>, Location)>,
    b: Seq<(Seq<u8>, Location)>,
    m: Map<Seq<u8>, Location>,
    lo: KeyBound,
    hi: KeyBound,
)
    requires
        strictly_sorted(a),
        strictly_sorted(b),
        indexes(a, range_of(m, lo, hi)),
        indexes(b, range_of(m, lo, hi)),
    ensures
        a == b,
        a.reverse() == b.reverse(),
{
    lemma_listing_unique(a, b, range_of(m, lo, hi));
}

/// A key that no entry of a listing holds is absent from the listed map.
proof fn lemma_unlisted_absent(e: Seq<(Seq<u8>, Location)>, m: Map<Seq<u8>, Location>, k: Seq<u8>)
    requires
        indexes(e, m),
        forall|j: int| 0 <= j < e.len() ==> #[trigger] e[j].0 != k,
    ensures
        !m.contains_key(k),
{
}

struct Slot {
    key: Vec<u8>,
    pos: u64,
    len: u32,
}

/// An ordered map from keys to value locations, kept as a vector sorted by
/// key.
pub struct KeyDir {
    slots: Vec<Slot>,
    index: Ghost<Map<Seq<u8>, Location>>,
}

impl View for KeyDir {
    type V = Map<Seq<u8>, Location>;

    closed spec fn view(&self) -> Map<Seq<u8>, Location> {
        self.index@
    }
}

impl KeyDir {
    /// The entries in key order.
    pub closed spec fn entries(&self) -> Seq<(Seq<u8>, Location)> {
        self.slots@.map_values(|s: Slot| (s.key@, (s.pos, s.len)))
    }

    /// The entries are sorted by key and list exactly the map.
    pub open spec fn wf(&self) -> bool {
        strictly_sorted(self.entries()) && indexes(self.entries(), self@)
    }

    /// An empty keydir.
    pub fn new() -> (r: KeyDir)
        ensures
            r.wf(),
            r@ == Map::<Seq<u8>, Location>::empty(),
            r.entries().len() == 0,
    {
        let r = KeyDir { slots: Vec::new(), index: Ghost(Map::empty()) };
        assert(r.entries() =~= Seq::<(Seq<u8>, Location)>::empty());
        r
    }

    /// The number of live keys.
    pub fn len(&self) -> (r: usize)
        ensures
            r == self.entries().len(),
    {
        self.slots.len()
    }

    /// The key of the `i`-th entry in key order.
    pub fn key_at(&self, i: usize) -> (r: &Vec<u8>)
        requires
            i < self.entries().len(),
        ensures
            r@ == self.entries()[i as int].0,
    {
        &self.slots[i].key
    }

    /// The location of the `i`-th entry in key order.
    pub fn location_at(&self, i: usize) -> (r: Location)
        requires
            i < self.entries().len(),
        ensures
            r == self.entries()[i as int].1,
    {
        (self.slots[i].pos, self.slots[i].len)
    }

    /// The first position whose key does not sort before `key`.
    fn search(&self, key: &[u8]) -> (p: usize)
        requires
            self.wf(),
        ensures
            p <= self.entries().len(),
            forall|j: int| 0 <= j < p ==> lex_lt(#[trigger] self.entries()[j].0, key@),
            forall|j: int|
                p <= j < self.entries().len() ==> !lex_lt(#[trigger] self.entries()[j].0, key@),
    {
        let ghost e = self.entries();
        let mut lo: usize = 0;
        let mut hi: usize = self.slots.len();
        while lo < hi
            invariant
                self.wf(),
                e == self.entries(),
                lo <= hi <= e.len(),
                e.len() == self.slots@.len(),
                forall|j: int| 0 <= j < lo ==> lex_lt(#[trigger] e[j].0, key@),
                forall|j: int| hi <= j < e.len() ==> !lex_lt(#[trigger] e[j].0, key@),
            decreases hi - lo,
        {
            let mid = lo + (hi - lo) / 2;
            assert(e[mid as int].0 == self.slots@[mid as int].key@);
            if compare_keys(&self.slots[mid].key, key) < 0 {
                assert forall|j: int| 0 <= j < mid + 1 implies lex_lt(#[trigger] e[j].0, key@) by {
                    if j < mid {
                        lemma_lex_transitive(e[j].0, e[mid as int].0, key@);
                    }
                }
                lo = mid + 1;
            } else {
                assert forall|j: int| mid <= j < e.len() implies !lex_lt(#[trigger] e[j].0, key@) by {
                    if j > mid && lex_lt(e[j].0, key@) {
                        lemma_lex_transitive(e[mid as int].0, e[j].0, key@);
                    }
                }
                hi = mid;
            }
        }
        lo
    }

    /// Whether position `p` holds exactly `key`.
    fn holds_at(&self, p: usize, key: &[u8]) -> (r: bool)
        requires
            p <= self.entries().len(),
        ensures
            r == (p < self.entries().len() && self.entries()[p as int].0 == key@),
    {
        if p < self.slots.len() {
            assert(self.entries()[p as int].0 == self.slots@[p as int].key@);
            compare_keys(&self.slots[p].key, key) == 0
        } else {
            false
        }
    }

    /// Around the search position of `key`: keys before it sort below
    /// `key`, and keys after it, other than `key` itself, sort above.
    proof fn lemma_split(&self, p: int, k: Seq<u8>)
        requires
            self.wf(),
            0 <= p <= self.entries().len(),
            forall|j: int| 0 <= j < p ==> lex_lt(#[trigger] self.entries()[j].0, k),
            forall|j: int|
                p <= j < self.entries().len() ==> !lex_lt(#[trigger] self.entries()[j].0, k),
            p == self.entries().len() || self.entries()[p].0 != k,
        ensures
            forall|j: int| p <= j < self.entries().len() ==> lex_lt(k, #[trigger] self.entries()[j].0),
            forall|j: int| 0 <= j < self.entries().len() ==> #[trigger] self.entries()[j].0 != k,
    {
        let e = self.entries();
        assert forall|j: int| p <= j < e.len() implies lex_lt(k, #[trigger] e[j].0) by {
            lemma_lex_total(e[p].0, k);
            if j > p {
                lemma_lex_transitive(k, e[p].0, e[j].0);
            }
        }
        assert forall|j: int| 0 <= j < e.len() implies #[trigger] e[j].0 != k by {
            lemma_lex_irreflexive(k);
        }
    }

    /// Points `key` at `loc`, replacing any earlier location.
    pub fn insert(&mut self, key: Vec<u8>, loc: Location)
        requires
            old(self).wf(),
        ensures
            final(self).wf(),
            final(self)@ == old(self)@.insert(key@, loc),
            live_disk_size(final(self).entries()) == live_disk_size(old(self).entries()) - (if old(
                self,
            )@.contains_key(key@) {
                slot_size(key@, old(self)@[key@])
            } else {
                0
            }) + slot_size(key@, loc),
    {
        let ghost k = key@;
        let ghost e = self.entries();
        let ghost m = self@;
        let p = self.search(&key);
        let slot = Slot { key, pos: loc.0, len: loc.1 };
        if self.holds_at(p, &slot.key) {
            self.slots.set(p, slot);
            self.index = Ghost(m.insert(k, loc));
            proof {
                let ne = self.entries();
                assert(ne =~= e.update(p as int, (k, loc)));
                assert(ne =~= e.remove(p as int).insert(p as int, (k, loc)));
                lemma_live_size_remove(e, p as int);
                lemma_live_size_insert(e.remove(p as int), p as int, (k, loc));
                assert(m.contains_key(k) && m[k] == e[p as int].1);
                assert forall|i: int| 0 <= i < ne.len() && i != p implies #[trigger] ne[i].0 != k by {
                    if i < p {
                        lemma_lex_irreflexive(k);
                    } else {
                        assert(lex_lt(e[p as int].0, e[i].0));
                        lemma_lex_irreflexive(k);
                    }
                }
                assert forall|kk: Seq<u8>| #[trigger] self@.contains_key(kk) implies exists|i: int|
                    0 <= i < ne.len() && ne[i].0 == kk by {
                    if kk != k {
                        let i = choose|i: int| 0 <= i < e.len() && e[i].0 == kk;
                        assert(ne[i].0 == kk);
                    } else {
                        assert(ne[p as int].0 == kk);
                    }
                }
            }
        } else {
            proof {
                self.lemma_split(p as int, k);
            }
            self.slots.insert(p, slot);
            self.index = Ghost(m.insert(k, loc));
            proof {
                let ne = self.entries();
                assert(ne =~= e.insert(p as int, (k, loc)));
                lemma_live_size_insert(e, p as int, (k, loc));
                lemma_unlisted_absent(e, m, k);
                assert forall|i: int, j: int| 0 <= i < j < ne.len() implies lex_lt(
                    #[trigger] ne[i].0,
                    #[trigger] ne[j].0,
                ) by {
                    if j < p {
                    } else if j == p {
                    } else if i < p {
                        lemma_lex_transitive(ne[i].0, k, ne[j].0);
                    } else if i == p {
                    } else {
                        assert(ne[i].0 == e[i - 1].0 && ne[j].0 == e[j - 1].0);
                    }
                }
                assert forall|i: int| 0 <= i < ne.len() implies self@.contains_key(#[trigger] ne[i].0)
                    && self@[ne[i].0] == ne[i].1 by {
                    if i < p {
                        assert(ne[i] == e[i]);
                    } else if i > p {
                        assert(ne[i] == e[i - 1]);
                    }
                }
                assert forall|kk: Seq<u8>| #[trigger] self@.contains_key(kk) implies exists|i: int|
                    0 <= i < ne.len() && ne[i].0 == kk by {
                    if kk != k {
                        let i = choose|i: int| 0 <= i < e.len() && e[i].0 == kk;
                        if i < p {
                            assert(ne[i].0 == kk);
                        } else {
                            assert(ne[i + 1].0 == kk);
                        }
                    } else {
                        assert(ne[p as int].0 == kk);
                    }
                }
            }
        }
    }

    /// Removes `key`, if it is live.
    pub fn remove(&mut self, key: &[u8])
        requires
            old(self).wf(),
        ensures
            final(self).wf(),
            final(self)@ == old(self)@.remove(key@),
            live_disk_size(final(self).entries()) == live_disk_size(old(self).entries()) - (if old(
                self,
            )@.contains_key(key@) {
                slot_size(key@, old(self)@[key@])
            } else {
                0
            }),
    {
        let ghost k = key@;
        let ghost e = self.entries();
        let ghost m = self@;
        let p = self.search(key);
        if self.holds_at(p, key) {
            self.slots.remove(p);
            self.index = Ghost(m.remove(k));
            proof {
                let ne = self.entries();
                assert(ne =~= e.remove(p as int));
                lemma_live_size_remove(e, p as int);
                assert(m.contains_key(k) && m[k] == e[p as int].1);
                assert forall|i: int, j: int| 0 <= i < j < ne.len() implies lex_lt(
                    #[trigger] ne[i].0,
                    #[trigger] ne[j].0,
                ) by {
                    if i >= p {
                        assert(ne[i] == e[i + 1] && ne[j] == e[j + 1]);
                    } else if j >= p {
                        assert(ne[i] == e[i] && ne[j] == e[j + 1]);
                    } else {
                        assert(ne[i] == e[i] && ne[j] == e[j]);
                    }
                }
                assert forall|i: int| 0 <= i < ne.len() implies self@.contains_key(#[trigger] ne[i].0)
                    && self@[ne[i].0] == ne[i].1 by {
                    lemma_lex_irreflexive(k);
                    if i < p {
                        assert(ne[i] == e[i]);
                        assert(lex_lt(e[i].0, e[p as int].0));
                    } else {
                        assert(ne[i] == e[i + 1]);
                        assert(lex_lt(e[p as int].0, e[i + 1].0));
                    }
                }
                assert forall|kk: Seq<u8>| #[trigger] self@.contains_key(kk) implies exists|i: int|
                    0 <= i < ne.len() && ne[i].0 == kk by {
                    let i = choose|i: int| 0 <= i < e.len() && e[i].0 == kk;
                    if i < p {
                        assert(ne[i].0 == kk);
                    } else {
                        assert(i != p);
                        assert(ne[i - 1].0 == kk);
                    }
                }
            }
        } else {
            proof {
                self.lemma_split(p as int, k);
                lemma_unlisted_absent(self.entries(), self@, k);
                assert(m.remove(k) =~= m);
            }
        }
    }

    /// The first position whose key sorts after `key`.
    fn search_after(&self, key: &[u8]) -> (p: usize)
        requires
            self.wf(),
        ensures
            p <= self.entries().len(),
            forall|j: int|
                0 <= j < self.entries().len() ==> (p <= j <==> lex_lt(key@, #[trigger] self.entries()[j].0)),
    {
        let p = self.search(key);
        let n = self.slots.len();
        let ghost e = self.entries();
        proof {
            lemma_lex_irreflexive(key@);
            assert forall|j: int| 0 <= j < p implies !lex_lt(key@, #[trigger] e[j].0) by {
                lemma_lex_total(key@, e[j].0);
            }
        }
        if self.holds_at(p, key) {
            proof {
                assert forall|j: int| p < j < e.len() implies lex_lt(key@, #[trigger] e[j].0) by {
                    assert(lex_lt(e[p as int].0, e[j].0));
                }
                assert(p < n);
            }
            p + 1
        } else {
            proof {
                self.lemma_split(p as int, key@);
            }
            p
        }
    }

    /// The first position whose key lies above the lower bound `b`.
    fn lower_index(&self, b: &KeyBound) -> (p: usize)
        requires
            self.wf(),
        ensures
            p <= self.entries().len(),
            forall|j: int|
                0 <= j < self.entries().len() ==> (p <= j <==> above_lower(
                    #[trigger] self.entries()[j].0,
                    *b,
                )),
    {
        match b {
            KeyBound::Included(x) => self.search(x.as_slice()),
            KeyBound::Excluded(x) => self.search_after(x.as_slice()),
            KeyBound::Unbounded => 0,
        }
    }

    /// The first position whose key lies beyond the upper bound `b`.
    fn upper_index(&self, b: &KeyBound) -> (p: usize)
        requires
            self.wf(),
        ensures
            p <= self.entries().len(),
            forall|j: int|
                0 <= j < self.entries().len() ==> (j < p <==> below_upper(
                    #[trigger] self.entries()[j].0,
                    *b,
                )),
    {
        match b {
            KeyBound::Included(x) => self.search_after(x.as_slice()),
            KeyBound::Excluded(x) => self.search(x.as_slice()),
            KeyBound::Unbounded => self.slots.len(),
        }
    }

    /// An iterator over the entries whose keys lie within the range from `lo`
    /// to `hi`, in key order from either end.
    pub fn scan(&self, lo: &KeyBound, hi: &KeyBound) -> (r: ScanIterator<'_>)
        requires
            self.wf(),
        ensures
            r.valid(),
            r.remaining().len() <= self.entries().len(),
            strictly_sorted(r.remaining()),
            indexes(r.remaining(), range_of(self@, *lo, *hi)),
    {
        let ghost e = self.entries();
        let front = self.lower_index(lo);
        let upper = self.upper_index(hi);
        let back = if upper < front {
            front
        } else {
            upper
        };
        let r = ScanIterator { dir: self, front, back };
        proof {
            let rem = r.remaining();
            let rm = range_of(self@, *lo, *hi);
            assert(rem =~= e.subrange(front as int, back as int));
            assert forall|i: int| 0 <= i < rem.len() implies rm.contains_key(#[trigger] rem[i].0)
                && rm[rem[i].0] == rem[i].1 by {
                assert(rem[i] == e[front + i]);
            }
            assert forall|k: Seq<u8>| #[trigger] rm.contains_key(k) implies exists|i: int|
                0 <= i < rem.len() && rem[i].0 == k by {
                let j = choose|j: int| 0 <= j < e.len() && e[j].0 == k;
                assert(above_lower(e[j].0, *lo) && below_upper(e[j].0, *hi));
                assert(rem[j - front].0 == k);
            }
            assert forall|i: int, j: int| 0 <= i < j < rem.len() implies lex_lt(
                #[trigger] rem[i].0,
                #[trigger] rem[j].0,
            ) by {
                assert(rem[i] == e[front + i] && rem[j] == e[front + j]);
            }
        }
        r
    }

    /// The location of `key`, if it is live.
    pub fn get(&self, key: &[u8]) -> (r: Option<Location>)
        requires
            self.wf(),
        ensures
            r == (if self@.contains_key(key@) {
                Some(self@[key@])
            } else {
                None
            }),
    {
        let p = self.search(key);
        if self.holds_at(p, key) {
            assert(self.slots@[p as int].key@ == self.entries()[p as int].0);
            Some((self.slots[p].pos, self.slots[p].len))
        } else {
            proof {
                self.lemma_split(p as int, key@);
                lemma_unlisted_absent(self.entries(), self@, key@);
            }
            None
        }
    }
}

/// The keys and locations of produced entries.
pub open spec fn items_view(v: Seq<(Vec<u8>, Location)>) -> Seq<(Seq<u8>, Location)> {
    v.map_values(|x: (Vec<u8>, Location)| (x.0@, x.1))
}

/// A double-ended iterator over a contiguous run of a keydir's entries.
pub struct ScanIterator<'a> {
    dir: &'a KeyDir,
    front: usize,
    back: usize,
}

impl<'a> ScanIterator<'a> {
    /// The entries not yet produced from either end, in key order.
    pub closed spec fn remaining(&self) -> Seq<(Seq<u8>, Location)> {
        self.dir.entries().subrange(self.front as int, self.back as int)
    }

    /// The iterator stays within its keydir.
    pub closed spec fn valid(&self) -> bool {
        self.dir.wf() && self.front <= self.back <= self.dir.entries().len()
    }

    /// Produces the first remaining entry: its key and its location.
    pub fn next(&mut self) -> (r: Option<(Vec<u8>, Location)>)
        requires
            old(self).valid(),
        ensures
            final(self).valid(),
            old(self).remaining().len() == 0 ==> r is None && final(self).remaining() == old(
                self,
            ).remaining(),
            old(self).remaining().len() > 0 ==> (r matches Some(item) && item.0@ == old(self).remaining()[0].0
                && item.1 == old(self).remaining()[0].1 && final(self).remaining() == old(
                self,
            ).remaining().drop_first()),
    {
        if self.front < self.back {
            let i = self.front;
            let key = self.dir.key_at(i).clone();
            let loc = self.dir.location_at(i);
            self.front = self.front + 1;
            proof {
                assert(key@ == self.dir.entries()[i as int].0);
                assert(self.remaining() =~= old(self).remaining().drop_first());
            }
            Some((key, loc))
        } else {
            None
        }
    }

    /// Produces the last remaining entry: its key and its location.
    pub fn next_back(&mut self) -> (r: Option<(Vec<u8>, Location)>)
        requires
            old(self).valid(),
        ensures
            final(self).valid(),
            old(self).remaining().len() == 0 ==> r is None && final(self).remaining() == old(
                self,
            ).remaining(),
            old(self).remaining().len() > 0 ==> (r matches Some(item) && item.0@ == old(self).remaining().last().0
                && item.1 == old(self).remaining().last().1 && final(self).remaining() == old(
                self,
            ).remaining().drop_last()),
    {
        if self.front < self.back {
            let i = self.back - 1;
            let key = self.dir.key_at(i).clone();
            let loc = self.dir.location_at(i);
            self.back = i;
            proof {
                assert(key@ == self.dir.entries()[i as int].0);
                assert(self.remaining() =~= old(self).remaining().drop_last());
            }
            Some((key, loc))
        } else {
            None
        }
    }

    /// Produces all remaining entries from the front.
    pub fn collect_forward(&mut self) -> (r: Vec<(Vec<u8>, Location)>)
        requires
            old(self).valid(),
        ensures
            final(self).valid(),
            final(self).remaining().len() == 0,
            items_view(r@) == old(self).remaining(),
    {
        let ghost rem0 = self.remaining();
        let mut out: Vec<(Vec<u8>, Location)> = Vec::new();
        let mut done = false;
        assert(items_view(out@) =~= Seq::<(Seq<u8>, Location)>::empty());
        assert(rem0 =~= Seq::<(Seq<u8>, Location)>::empty() + rem0);
        while !done
            invariant
                self.valid(),
                items_view(out@) + self.remaining() == rem0,
                done ==> self.remaining().len() == 0,
            decreases self.remaining().len() + (if done { 0int } else { 1int }),
        {
            let ghost before = self.remaining();
            let ghost seen = items_view(out@);
            match self.next() {
                Some(item) => {
                    out.push(item);
                    proof {
                        assert(items_view(out@) =~= seen.push(before[0]));
                        assert(items_view(out@) + self.remaining() =~= seen + before);
                    }
                },
                None => {
                    done = true;
                },
            }
        }
        assert(items_view(out@) =~= rem0);
        out
    }

    /// Produces all remaining entries from the back.
    pub fn collect_backward(&mut self) -> (r: Vec<(Vec<u8>, Location)>)
        requires
            old(self).valid(),
        ensures
            final(self).valid(),
            final(self).remaining().len() == 0,
            items_view(r@) == old(self).remaining().reverse(),
    {
        let ghost rem0 = self.remaining();
        let mut out: Vec<(Vec<u8>, Location)> = Vec::new();
        let mut done = false;
        assert(items_view(out@) =~= rem0.subrange(rem0.len() as int, rem0.len() as int).reverse());
        assert(rem0.subrange(0, rem0.len() as int) =~= rem0);
        while !done
            invariant
                self.valid(),
                self.remaining().len() <= rem0.len(),
                self.remaining() == rem0.subrange(0, self.remaining().len() as int),
                items_view(out@) == rem0.subrange(self.remaining().len() as int, rem0.len() as int).reverse(),
                done ==> self.remaining().len() == 0,
            decreases self.remaining().len() + (if done { 0int } else { 1int }),
        {
            let ghost before = self.remaining();
            let ghost seen = items_view(out@);
            match self.next_back() {
                Some(item) => {
                    out.push(item);
                    proof {
                        let n = before.len() as int;
                        assert(self.remaining() =~= rem0.subrange(0, n - 1));
                        assert(before.last() == rem0[n - 1]);
                        assert(items_view(out@) =~= seen.push(before.last()));
                        assert(rem0.subrange(n - 1, rem0.len() as int).reverse() =~= rem0.subrange(
                            n,
                            rem0.len() as int,
                        ).reverse().push(rem0[n - 1]));
                    }
                },
                None => {
                    done = true;
                },
            }
        }
        assert(rem0.subrange(0, rem0.len() as int) =~= rem0);
        out
    }
}

} // verus!
