//! The keydir together with the log it indexes: the state of an open store
//! and the changes that appends make to it.
use vstd::prelude::*;
use vstd::string::StringExecFns;

use crate::format::{
    MAX_KEY_LEN, MAX_LEN, Op, build_keydir, copy_range, entry_bytes, lemma_ops_log_whole,
    lemma_replay_entry, lemma_replay_extend, log_good_len, log_index, ops_fit, ops_log, replay, word,
};
use crate::keydir::{
    KeyDir, Location, indexes, lemma_live_size_prefix, live_disk_size, live_size, slot_size,
    strictly_sorted,
};

verus! {

/// Every location in `m` ends within the first `n` bytes.
pub open spec fn bounded(m: Map<Seq<u8>, Location>, n: int) -> bool {
    forall|k: Seq<u8>| #[trigger] m.contains_key(k) ==> m[k].0 + m[k].1 <= n
}

/// Every key of `m` and every value length fits an entry.
pub open spec fn sane(m: Map<Seq<u8>, Location>) -> bool {
    forall|k: Seq<u8>| #[trigger] m.contains_key(k) ==> k.len() <= MAX_KEY_LEN && m[k].1 <= MAX_LEN
}

/// Replaying from `pos` only moves forward, yields locations that end
/// where it stopped, and reads nothing past where it stopped.
pub proof fn lemma_replay_facts(d: Seq<u8>, pos: int, m: Map<Seq<u8>, Location>)
    requires
        0 <= pos <= d.len(),
        d.len() <= u64::MAX,
        bounded(m, pos),
        sane(m),
    ensures
        pos <= replay(d, pos, m).1 <= d.len(),
        sane(replay(d, pos, m).0),
        bounded(replay(d, pos, m).0, replay(d, pos, m).1),
        replay(d.subrange(0, replay(d, pos, m).1), pos, m) == replay(d, pos, m),
    decreases d.len() - pos,
{
    let r = replay(d, pos, m);
    let t = d.subrange(0, r.1);
    if pos + 8 > d.len() {
        assert(r == (m, pos));
    } else {
        let key_len = word(d, pos) as int;
        let meta = word(d, pos + 4) as int;
        let vpos = pos + 8 + key_len;
        let key = d.subrange(pos + 8, vpos);
        if vpos > d.len() || (meta < 0x8000_0000 && vpos + meta > d.len()) {
            assert(r == (m, pos));
        } else {
            let next = if meta < 0x8000_0000 {
                vpos + meta
            } else {
                vpos
            };
            let m2 = if meta < 0x8000_0000 {
                m.insert(key, (vpos as u64, meta as u32))
            } else {
                m.remove(key)
            };
            assert(r == replay(d, next, m2));
            assert(bounded(m2, next));
            assert(sane(m2));
            lemma_replay_facts(d, next, m2);
            assert(word(t, pos) == word(d, pos));
            assert(word(t, pos + 4) == word(d, pos + 4));
            assert(t.subrange(pos + 8, vpos) =~= key);
            assert(t.subrange(0, r.1) =~= t);
            assert(replay(t, pos, m) == replay(t, next, m2));
        }
    }
}

/// What the store reports about itself.
pub struct Status {
    /// The engine's name.
    pub name: String,
    /// The number of live keys.
    pub keys: u64,
    /// The logical size of the live keys and values.
    pub size: u64,
    /// The length of the log file.
    pub total_disk_size: u64,
    /// The bytes the live entries take in the log, length fields included.
    pub live_disk_size: u64,
    /// The bytes of the log that hold no live entry.
    pub garbage_disk_size: u64,
}

/// An open store: the keydir of a log whose entries are all whole.
pub struct LogIndex {
    dir: KeyDir,
    log_len: u64,
    log: Ghost<Seq<u8>>,
}

impl View for LogIndex {
    type V = Map<Seq<u8>, Location>;

    closed spec fn view(&self) -> Map<Seq<u8>, Location> {
        self.dir@
    }
}

impl LogIndex {
    /// The bytes of the log.
    pub closed spec fn log(&self) -> Seq<u8> {
        self.log@
    }

    /// The keydir's entries in key order.
    pub closed spec fn entries(&self) -> Seq<(Seq<u8>, Location)> {
        self.dir.entries()
    }

    /// The keydir is the replay of the log, which holds whole entries only.
    pub closed spec fn wf(&self) -> bool {
        &&& self.dir.wf()
        &&& self.log@.len() <= u64::MAX
        &&& self.log_len == self.log@.len()
        &&& self.dir@ == log_index(self.log@)
        &&& log_good_len(self.log@) == self.log@.len()
        &&& bounded(self.dir@, self.log@.len() as int)
        &&& sane(self.dir@)
        &&& live_disk_size(self.dir.entries()) <= self.log@.len()
    }

    /// The live value of each live key, as the log holds it.
    pub open spec fn contents(&self) -> Map<Seq<u8>, Seq<u8>> {
        Map::new(
            |k: Seq<u8>| self@.contains_key(k),
            |k: Seq<u8>| self.log().subrange(self@[k].0 as int, self@[k].0 + self@[k].1),
        )
    }

    /// The wf facts that callers may rely on.
    pub proof fn lemma_wf(&self)
        requires
            self.wf(),
        ensures
            self@ == log_index(self.log()),
            log_good_len(self.log()) == self.log().len(),
            self.log().len() <= u64::MAX,
            bounded(self@, self.log().len() as int),
            sane(self@),
            strictly_sorted(self.entries()),
            indexes(self.entries(), self@),
            live_disk_size(self.entries()) <= self.log().len(),
    {
    }

    /// Opens the store held by the bytes of a log file. Returns it with the
    /// length of the whole entries at the start of the file: the file is
    /// to be cut to that length.
    pub fn open(data: &[u8]) -> (r: (LogIndex, usize))
        requires
            data@.len() <= u64::MAX,
        ensures
            r.0.wf(),
            r.1 == log_good_len(data@),
            r.0.log() == data@.subrange(0, r.1 as int),
            r.0@ == log_index(data@),
    {
        let (dir, good) = build_keydir(data);
        let ghost t = data@.subrange(0, good as int);
        proof {
            lemma_replay_facts(data@, 0, Map::empty());
        }
        (LogIndex { dir, log_len: good as u64, log: Ghost(t) }, good)
    }

    /// An empty store over an empty log.
    pub fn empty() -> (r: LogIndex)
        ensures
            r.wf(),
            r.log() == Seq::<u8>::empty(),
            r@ == Map::<Seq<u8>, Location>::empty(),
            r.contents() == Map::<Seq<u8>, Seq<u8>>::empty(),
    {
        let r = LogIndex { dir: KeyDir::new(), log_len: 0, log: Ghost(Seq::empty()) };
        assert(r.contents() =~= Map::<Seq<u8>, Seq<u8>>::empty());
        r
    }

    /// Reports the live keys and the log's space.
    pub fn status(&self) -> (st: Status)
        requires
            self.wf(),
        ensures
            st.name@ == "bitcask"@,
            st.keys == self.entries().len(),
            st.size == live_size(self.entries()),
            st.total_disk_size == self.log().len(),
            st.live_disk_size == live_disk_size(self.entries()),
            st.garbage_disk_size == self.log().len() - live_disk_size(self.entries()),
    {
        let ghost e = self.dir.entries();
        let n = self.dir.len();
        let total = self.log_len;
        let mut i: usize = 0;
        let mut size: u64 = 0;
        let mut live: u64 = 0;
        while i < n
            invariant
                self.wf(),
                e == self.dir.entries(),
                n == e.len(),
                i <= n,
                total == self.log().len(),
                size == live_size(e.subrange(0, i as int)),
                live == live_disk_size(e.subrange(0, i as int)),
            decreases n - i,
        {
            let key_len = self.dir.key_at(i).len();
            let (_, value_len) = self.dir.location_at(i);
            proof {
                assert(e.subrange(0, i + 1).drop_last() =~= e.subrange(0, i as int));
                lemma_live_size_prefix(e, i + 1);
            }
            size = size + key_len as u64 + value_len as u64;
            live = live + 8 + key_len as u64 + value_len as u64;
            i = i + 1;
        }
        assert(e.subrange(0, i as int) =~= e);
        proof {
            reveal_strlit("bitcask");
        }
        Status {
            name: <String as StringExecFns>::from_str("bitcask"),
            keys: n as u64,
            size,
            total_disk_size: total,
            live_disk_size: live,
            garbage_disk_size: total - live,
        }
    }

    /// Reads the location of `key`'s live value.
    pub fn get(&self, key: &[u8]) -> (r: Option<Location>)
        requires
            self.wf(),
        ensures
            r == (if self@.contains_key(key@) {
                Some(self@[key@])
            } else {
                None
            }),
    {
        self.dir.get(key)
    }

    /// The length of the log.
    pub fn total_disk_size(&self) -> (r: u64)
        requires
            self.wf(),
        ensures
            r == self.log().len(),
    {
        self.log_len
    }

    /// The keydir, for scans.
    pub fn keydir(&self) -> (r: &KeyDir)
        requires
            self.wf(),
        ensures
            r.wf(),
            r@ == self@,
            r.entries() == self.entries(),
    {
        &self.dir
    }

    /// Records that the entry setting `key` to `value` was appended to the
    /// log.
    pub fn apply_set(&mut self, key: &[u8], value: &[u8])
        requires
            old(self).wf(),
            key.len() <= MAX_KEY_LEN,
            value.len() <= MAX_LEN,
            old(self).log().len() + 8 + key.len() + value.len() <= u64::MAX,
        ensures
            final(self).wf(),
            final(self).log() == old(self).log() + entry_bytes(key@, Some(value@)),
            final(self)@ == old(self)@.insert(
                key@,
                ((old(self).log().len() + 8 + key.len()) as u64, value.len() as u32),
            ),
            final(self).contents() == old(self).contents().insert(key@, value@),
            live_disk_size(final(self).entries()) == live_disk_size(old(self).entries()) - (if old(
                self,
            )@.contains_key(key@) {
                slot_size(key@, old(self)@[key@])
            } else {
                0
            }) + slot_size(key@, (0, value.len() as u32)),
    {
        let ghost d = self.log@;
        let ghost x = entry_bytes(key@, Some(value@));
        let ghost c = self.contents();
        let ghost m0 = self.dir@;
        let vpos = self.log_len + 8 + key.len() as u64;
        let len = value.len() as u32;
        proof {
            lemma_replay_extend(d, x, 0, Map::empty());
            lemma_replay_entry(d, key@, Some(value@), self.dir@);
        }
        let owned = copy_range(key, 0, key.len());
        assert(owned@ =~= key@);
        self.dir.insert(owned, (vpos, len));
        self.log_len = vpos + len as u64;
        self.log = Ghost(d + x);
        proof {
            let nd = d + x;
            assert(nd.subrange(vpos as int, vpos + len) =~= value@);
            assert forall|k: Seq<u8>| self@.contains_key(k) && k != key@ implies nd.subrange(
                #[trigger] self@[k].0 as int,
                self@[k].0 + self@[k].1,
            ) == d.subrange(self@[k].0 as int, self@[k].0 + self@[k].1) by {
                assert(m0.contains_key(k) && self@[k] == m0[k]);
                assert(nd.subrange(self@[k].0 as int, self@[k].0 + self@[k].1) =~= d.subrange(
                    self@[k].0 as int,
                    self@[k].0 + self@[k].1,
                ));
            }
            assert(self.contents() =~= c.insert(key@, value@));
        }
    }

    /// Records that a tombstone for `key` was appended to the log.
    pub fn apply_delete(&mut self, key: &[u8])
        requires
            old(self).wf(),
            key.len() <= MAX_KEY_LEN,
            old(self).log().len() + 8 + key.len() <= u64::MAX,
        ensures
            final(self).wf(),
            final(self).log() == old(self).log() + entry_bytes(key@, None),
            final(self)@ == old(self)@.remove(key@),
            final(self).contents() == old(self).contents().remove(key@),
            live_disk_size(final(self).entries()) == live_disk_size(old(self).entries()) - (if old(
                self,
            )@.contains_key(key@) {
                slot_size(key@, old(self)@[key@])
            } else {
                0
            }),
    {
        let ghost d = self.log@;
        let ghost x = entry_bytes(key@, None);
        let ghost c = self.contents();
        proof {
            lemma_replay_extend(d, x, 0, Map::empty());
            lemma_replay_entry(d, key@, None, self.dir@);
        }
        self.dir.remove(key);
        self.log_len = self.log_len + 8 + key.len() as u64;
        self.log = Ghost(d + x);
        proof {
            let nd = d + x;
            assert forall|k: Seq<u8>| self@.contains_key(k) implies nd.subrange(
                #[trigger] self@[k].0 as int,
                self@[k].0 + self@[k].1,
            ) == d.subrange(self@[k].0 as int, self@[k].0 + self@[k].1) by {
                assert(nd.subrange(self@[k].0 as int, self@[k].0 + self@[k].1) =~= d.subrange(
                    self@[k].0 as int,
                    self@[k].0 + self@[k].1,
                ));
            }
            assert(self.contents() =~= c.remove(key@));
        }
    }
}

/// Closing a store and opening its log again gives the same store back:
/// the whole log is kept, with the same keydir and the same contents.
pub proof fn lemma_reopen(s: &LogIndex, r: &LogIndex)
    requires
        s.wf(),
        r.wf(),
        r@ == log_index(s.log()),
        r.log() == s.log().subrange(0, log_good_len(s.log())),
    ensures
        r.log() == s.log(),
        r@ == s@,
        r.contents() == s.contents(),
{
    s.lemma_wf();
    assert(s.log().subrange(0, s.log().len() as int) =~= s.log());
    assert(r.contents() =~= s.contents());
}

/// The live value of each live key of the log `d`.
pub open spec fn log_contents(d: Seq<u8>) -> Map<Seq<u8>, Seq<u8>> {
    Map::new(
        |k: Seq<u8>| log_index(d).contains_key(k),
        |k: Seq<u8>| d.subrange(log_index(d)[k].0 as int, log_index(d)[k].0 + log_index(d)[k].1),
    )
}

/// The contents that the changes `ops`, made in turn, leave.
pub open spec fn ops_contents(ops: Seq<Op>) -> Map<Seq<u8>, Seq<u8>>
    decreases ops.len(),
{
    if ops.len() == 0 {
        Map::empty()
    } else {
        match ops.last().1 {
            Some(v) => ops_contents(ops.drop_last()).insert(ops.last().0, v),
            None => ops_contents(ops.drop_last()).remove(ops.last().0),
        }
    }
}

/// A log written entry by entry holds, for each live key, the value of
/// the last change to it.
pub proof fn lemma_log_contents(ops: Seq<Op>)
    requires
        ops_fit(ops),
        ops_log(ops).len() <= u64::MAX,
    ensures
        log_contents(ops_log(ops)) == ops_contents(ops),
        bounded(log_index(ops_log(ops)), ops_log(ops).len() as int),
    decreases ops.len(),
{
    if ops.len() == 0 {
        assert(log_contents(ops_log(ops)) =~= ops_contents(ops));
    } else {
        let rest = ops.drop_last();
        assert(ops_fit(rest)) by {
            assert forall|i: int| 0 <= i < rest.len() implies #[trigger] rest[i] == ops[i] by {}
        }
        let c = ops_log(rest);
        let (k, v) = ops.last();
        assert(ops.last() == ops[ops.len() - 1]);
        let x = entry_bytes(k, v);
        let d = c + x;
        lemma_log_contents(rest);
        lemma_ops_log_whole(rest);
        lemma_replay_extend(c, x, 0, Map::empty());
        lemma_replay_entry(c, k, v, log_index(c));
        let m0 = log_index(c);
        let m = log_index(d);
        assert forall|kk: Seq<u8>| m.contains_key(kk) && kk != k implies d.subrange(
            #[trigger] m[kk].0 as int,
            m[kk].0 + m[kk].1,
        ) == c.subrange(m0[kk].0 as int, m0[kk].0 + m0[kk].1) by {
            assert(m0.contains_key(kk) && m[kk] == m0[kk]);
            assert(d.subrange(m[kk].0 as int, m[kk].0 + m[kk].1) =~= c.subrange(
                m0[kk].0 as int,
                m0[kk].0 + m0[kk].1,
            ));
        }
        match v {
            Some(val) => {
                let vpos = (c.len() + 8 + k.len()) as int;
                assert(d.subrange(vpos, vpos + val.len()) =~= val);
            },
            None => {},
        }
        assert(log_contents(d) =~= ops_contents(ops));
    }
}

/// After the change that sets `k` to `v`, and any later changes to other
/// keys, `k` reads `v`.
pub proof fn lemma_get_after_set(ops: Seq<Op>, k: Seq<u8>, v: Seq<u8>, later: Seq<Op>)
    requires
        forall|i: int| 0 <= i < later.len() ==> (#[trigger] later[i]).0 != k,
    ensures
        ops_contents(ops.push((k, Some(v))) + later).contains_key(k),
        ops_contents(ops.push((k, Some(v))) + later)[k] == v,
    decreases later.len(),
{
    let all = ops.push((k, Some(v))) + later;
    if later.len() == 0 {
        assert(all =~= ops.push((k, Some(v))));
        assert(all.drop_last() =~= ops);
    } else {
        let shorter = later.drop_last();
        assert forall|i: int| 0 <= i < shorter.len() implies (#[trigger] shorter[i]).0 != k by {
            assert(shorter[i] == later[i]);
        }
        lemma_get_after_set(ops, k, v, shorter);
        assert(all.drop_last() =~= ops.push((k, Some(v))) + shorter);
        assert(all.last() == later[later.len() - 1]);
    }
}

/// After the change that deletes `k`, and any later changes to other
/// keys, `k` reads as absent.
pub proof fn lemma_get_after_delete(ops: Seq<Op>, k: Seq<u8>, later: Seq<Op>)
    requires
        forall|i: int| 0 <= i < later.len() ==> (#[trigger] later[i]).0 != k,
    ensures
        !ops_contents(ops.push((k, None)) + later).contains_key(k),
    decreases later.len(),
{
    let all = ops.push((k, None)) + later;
    if later.len() == 0 {
        assert(all =~= ops.push((k, None)));
        assert(all.drop_last() =~= ops);
    } else {
        let shorter = later.drop_last();
        assert forall|i: int| 0 <= i < shorter.len() implies (#[trigger] shorter[i]).0 != k by {
            assert(shorter[i] == later[i]);
        }
        lemma_get_after_delete(ops, k, shorter);
        assert(all.drop_last() =~= ops.push((k, None)) + shorter);
        assert(all.last() == later[later.len() - 1]);
    }
}

/// The contents of an open store are those of its log.
pub proof fn lemma_contents_of_log(s: &LogIndex)
    requires
        s.wf(),
    ensures
        s.contents() == log_contents(s.log()),
{
    assert(s.contents() =~= log_contents(s.log()));
}

} // verus!
