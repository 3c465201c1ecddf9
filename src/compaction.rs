//! When to compact a log, and the copy of its live entries into a fresh one.
use vstd::prelude::*;

use crate::engine::LogIndex;
use crate::keydir::{
    KeyBound, Location, indexes, lemma_live_size_prefix, lemma_live_size_same, lemma_sorted_keys_unique,
    listed, live_disk_size, live_size, range_of, strictly_sorted,
};
use crate::format::{encode_entry, entry_bytes};
use crate::lex::lemma_lex_irreflexive;

verus! {

/// A fraction `num / den`, with `den` positive.
#[derive(Clone, Copy, Debug)]
pub struct Fraction {
    pub num: i64,
    pub den: u32,
}

/// Compaction is due: there is garbage, at least `min_bytes` of it, and it
/// makes up at least `min_ratio` of the log.
pub open spec fn compaction_due(garbage: int, total: int, min_ratio: Fraction, min_bytes: int) -> bool {
    garbage > 0 && garbage >= min_bytes && garbage * min_ratio.den >= min_ratio.num * total
}

/// Whether a log of `total_size` bytes, `garbage_size` of which are
/// garbage, should be compacted.
pub fn should_compact(garbage_size: u64, total_size: u64, min_ratio: Fraction, min_bytes: u64) -> (r:
    bool)
    requires
        min_ratio.den > 0,
    ensures
        r == compaction_due(garbage_size as int, total_size as int, min_ratio, min_bytes as int),
{
    let g = garbage_size as i128;
    let d = min_ratio.den as i128;
    let n = min_ratio.num as i128;
    let t = total_size as i128;
    proof {
        assert(0 <= g * d <= 0xffff_ffff_ffff_ffffi128 * 0xffff_ffffi128) by (nonlinear_arith)
            requires
                0 <= g <= 0xffff_ffff_ffff_ffffi128,
                0 <= d <= 0xffff_ffffi128,
        ;
        assert(-0x8000_0000_0000_0000i128 * 0xffff_ffff_ffff_ffffi128 <= n * t
            <= 0x7fff_ffff_ffff_ffffi128 * 0xffff_ffff_ffff_ffffi128) by (nonlinear_arith)
            requires
                -0x8000_0000_0000_0000i128 <= n <= 0x7fff_ffff_ffff_ffffi128,
                0 <= t <= 0xffff_ffff_ffff_ffffi128,
        ;
    }
    garbage_size > 0 && garbage_size >= min_bytes && g * d >= n * t
}

/// A compaction in progress: the live entries of a source store are
/// copied, in key order, into a fresh log.
pub struct Compactor {
    copied: usize,
    target: LogIndex,
}

impl Compactor {
    /// How many entries have been copied.
    pub closed spec fn copied(&self) -> int {
        self.copied as int
    }

    /// The store being filled.
    pub closed spec fn target(&self) -> LogIndex {
        self.target
    }

    /// The first `copied` entries of `source`, and only they, stand in the
    /// target with their values, packed from the start of its log.
    pub closed spec fn inv(&self, source: &LogIndex) -> bool {
        let e = source.entries();
        &&& source.wf()
        &&& self.target.wf()
        &&& self.copied <= e.len()
        &&& live_disk_size(e) <= u64::MAX
        &&& self.target.log().len() == live_disk_size(e.subrange(0, self.copied as int))
        &&& forall|j: int|
            0 <= j < self.copied ==> self.target.contents().contains_key(#[trigger] e[j].0)
                && self.target.contents()[e[j].0] == source.contents()[e[j].0]
        &&& forall|k: Seq<u8>| #[trigger]
            self.target.contents().contains_key(k) ==> exists|j: int|
                0 <= j < self.copied && e[j].0 == k
    }

    /// Starts a compaction of `source`.
    pub fn new(source: &LogIndex) -> (r: Compactor)
        requires
            source.wf(),
        ensures
            r.inv(source),
            r.copied() == 0,
    {
        proof {
            source.lemma_wf();
        }
        let r = Compactor { copied: 0, target: LogIndex::empty() };
        assert(source.entries().subrange(0, 0) =~= Seq::<(Seq<u8>, (u64, u32))>::empty());
        r
    }

    /// The location in the source log of the next value to copy, or `None`
    /// once all are copied.
    pub fn next_location(&self, source: &LogIndex) -> (r: Option<(u64, u32)>)
        requires
            self.inv(source),
        ensures
            self.copied() < source.entries().len() ==> r == Some(
                source.entries()[self.copied()].1,
            ),
            self.copied() == source.entries().len() ==> r is None,
    {
        let dir = source.keydir();
        if self.copied < dir.len() {
            Some(dir.location_at(self.copied))
        } else {
            None
        }
    }

    /// Copies the next entry, given its value as read from the source log.
    /// Returns the bytes to append to the new log.
    pub fn copy_next(&mut self, source: &LogIndex, value: &[u8]) -> (r: Vec<u8>)
        requires
            old(self).inv(source),
            old(self).copied() < source.entries().len(),
            value@ == source.contents()[source.entries()[old(self).copied()].0],
        ensures
            final(self).inv(source),
            final(self).copied() == old(self).copied() + 1,
            r@ == entry_bytes(source.entries()[old(self).copied()].0, Some(value@)),
            final(self).target().log() == old(self).target().log() + r@,
    {
        let ghost e = source.entries();
        let ghost i = self.copied as int;
        let ghost c = self.target.contents();
        proof {
            source.lemma_wf();
            assert(source@.contains_key(e[i].0));
            assert(e.subrange(0, i + 1).drop_last() =~= e.subrange(0, i));
            lemma_live_size_prefix(e, i + 1);
        }
        let dir = source.keydir();
        let n = dir.len();
        assert(self.copied < n);
        let key = dir.key_at(self.copied);
        let bytes = encode_entry(key.as_slice(), Some(value));
        self.target.apply_set(key.as_slice(), value);
        self.copied = self.copied + 1;
        proof {
            let k = e[i].0;
            assert forall|j: int|
                0 <= j < self.copied implies self.target.contents().contains_key(#[trigger] e[j].0)
                && self.target.contents()[e[j].0] == source.contents()[e[j].0] by {
                if j < i {
                    assert(crate::lex::lex_lt(e[j].0, e[i].0));
                    lemma_lex_irreflexive(k);
                }
            }
            assert forall|kk: Seq<u8>| #[trigger]
                self.target.contents().contains_key(kk) implies exists|j: int|
                0 <= j < self.copied && e[j].0 == kk by {
                if kk != k {
                    assert(c.contains_key(kk));
                }
            }
        }
        bytes
    }

    /// Ends the compaction: the new store is the one built by the copies,
    /// so its log is the bytes they returned in turn. It holds the same
    /// contents as the source, the same keys in the same order with values
    /// of the same lengths, in a log of exactly the source's live size.
    pub fn finish(self, source: &LogIndex) -> (r: LogIndex)
        requires
            self.inv(source),
            self.copied() == source.entries().len(),
        ensures
            r == self.target(),
            r.log() == self.target().log(),
            r.wf(),
            r.contents() == source.contents(),
            r.log().len() == live_disk_size(source.entries()),
            r.entries().len() == source.entries().len(),
            forall|i: int|
                0 <= i < r.entries().len() ==> (#[trigger] r.entries()[i]).0 == source.entries()[i].0
                    && r.entries()[i].1.1 == source.entries()[i].1.1,
            live_size(r.entries()) == live_size(source.entries()),
            live_disk_size(r.entries()) == live_disk_size(source.entries()),
    {
        let ghost e = source.entries();
        proof {
            source.lemma_wf();
            self.target.lemma_wf();
            assert(e.subrange(0, e.len() as int) =~= e);
            assert forall|k: Seq<u8>| #[trigger] source.contents().contains_key(k) implies self.target.contents().contains_key(k) by {
                assert(source@.contains_key(k));
                let j = choose|j: int| 0 <= j < e.len() && e[j].0 == k;
                assert(self.target.contents().contains_key(e[j].0));
            }
            assert(self.target.contents() =~= source.contents());
            let t = self.target;
            let f = t.entries();
            assert forall|i: int| 0 <= i < f.len() implies listed(e, #[trigger] f[i].0) by {
                assert(t@.contains_key(f[i].0));
                assert(t.contents().contains_key(f[i].0));
                assert(source.contents().contains_key(f[i].0));
                assert(source@.contains_key(f[i].0));
            }
            assert forall|j: int| 0 <= j < e.len() implies listed(f, #[trigger] e[j].0) by {
                assert(source@.contains_key(e[j].0));
                assert(t@.contains_key(e[j].0));
            }
            lemma_sorted_keys_unique(f, e);
            assert forall|i: int| 0 <= i < f.len() implies (#[trigger] f[i]).0.len() == e[i].0.len()
                && f[i].1.1 == e[i].1.1 by {
                let k = f[i].0;
                assert(t@.contains_key(k) && t@[k] == f[i].1);
                assert(source@.contains_key(k) && source@[k] == e[i].1);
                assert(t.contents()[k].len() == t@[k].1);
                assert(source.contents()[k].len() == source@[k].1);
            }
            lemma_live_size_same(f, e);
        }
        self.target
    }
}

/// After a compaction, a scan of any range lists the same keys in the same
/// order as the same scan before it, with the same values.
pub proof fn lemma_compacted_scan(
    source: &LogIndex,
    r: &LogIndex,
    a: Seq<(Seq<u8>, Location)>,
    b: Seq<(Seq<u8>, Location)>,
    lo: KeyBound,
    hi: KeyBound,
)
    requires
        source.wf(),
        r.wf(),
        r.contents() == source.contents(),
        strictly_sorted(a),
        indexes(a, range_of(source@, lo, hi)),
        strictly_sorted(b),
        indexes(b, range_of(r@, lo, hi)),
    ensures
        a.len() == b.len(),
        forall|i: int|
            0 <= i < a.len() ==> (#[trigger] a[i]).0 == b[i].0 && source.contents().contains_key(a[i].0)
                && r.contents()[b[i].0] == source.contents()[a[i].0],
{
    assert forall|i: int| 0 <= i < a.len() implies listed(b, #[trigger] a[i].0) by {
        assert(range_of(source@, lo, hi).contains_key(a[i].0));
        assert(source.contents().contains_key(a[i].0));
        assert(range_of(r@, lo, hi).contains_key(a[i].0));
    }
    assert forall|j: int| 0 <= j < b.len() implies listed(a, #[trigger] b[j].0) by {
        assert(range_of(r@, lo, hi).contains_key(b[j].0));
        assert(r.contents().contains_key(b[j].0));
        assert(range_of(source@, lo, hi).contains_key(b[j].0));
    }
    lemma_sorted_keys_unique(a, b);
    assert forall|i: int| 0 <= i < a.len() implies (#[trigger] a[i]).0 == b[i].0
        && source.contents().contains_key(a[i].0) && r.contents()[b[i].0]
        == source.contents()[a[i].0] by {
        assert(range_of(source@, lo, hi).contains_key(a[i].0));
    }
}

} // verus!
