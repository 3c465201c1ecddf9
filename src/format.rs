//! The log's entry format and the recovery scan that rebuilds the keydir.
//!
//! An entry is the key length as a big-endian u32, the value length as a
//! big-endian i32 (-1 for a tombstone), the key bytes, and the value bytes.
use vstd::prelude::*;

use crate::keydir::{KeyDir, Location, live_disk_size};

verus! {

/// The largest value length an entry can record.
pub const MAX_LEN: usize = 0x7fff_ffff;

/// The largest key length an entry can record.
pub const MAX_KEY_LEN: usize = 0xffff_ffff;

/// The four big-endian bytes of `n`.
pub open spec fn be32(n: u32) -> Seq<u8> {
    seq![(n >> 24u32) as u8, (n >> 16u32) as u8, (n >> 8u32) as u8, n as u8]
}

/// The big-endian u32 held by the four bytes of `d` at `at`.
pub open spec fn word(d: Seq<u8>, at: int) -> u32 {
    ((d[at] as u32) << 24u32) | ((d[at + 1] as u32) << 16u32) | ((d[at + 2] as u32) << 8u32) | (
    d[at + 3] as u32)
}

/// The value-length field: the length, or all ones for a tombstone.
pub open spec fn meta_bytes(value: Option<Seq<u8>>) -> Seq<u8> {
    match value {
        Some(v) => be32(v.len() as u32),
        None => seq![0xffu8, 0xffu8, 0xffu8, 0xffu8],
    }
}

/// The value bytes an entry carries: none for a tombstone.
pub open spec fn payload(value: Option<Seq<u8>>) -> Seq<u8> {
    match value {
        Some(v) => v,
        None => Seq::empty(),
    }
}

/// The encoding of the entry that sets `key` to `value`, or deletes it.
pub open spec fn entry_bytes(key: Seq<u8>, value: Option<Seq<u8>>) -> Seq<u8> {
    be32(key.len() as u32) + meta_bytes(value) + key + payload(value)
}

/// The view of an optional byte slice.
pub open spec fn opt_view(value: Option<&[u8]>) -> Option<Seq<u8>> {
    match value {
        Some(v) => Some(v@),
        None => None,
    }
}

/// Replays the entries of `d` from `pos` onto the keydir `m`: a value
/// entry points its key at the value, a tombstone removes its key. The
/// replay stops at the end of `d` or at an entry that does not lie whole
/// within it. Gives the resulting keydir and where the replay stopped.
pub open spec fn replay(d: Seq<u8>, pos: int, m: Map<Seq<u8>, Location>) -> (Map<
    Seq<u8>,
    Location,
>, int)
    decreases d.len() - pos,
{
    if pos < 0 || pos + 8 > d.len() {
        (m, pos)
    } else {
        let key_len = word(d, pos) as int;
        let meta = word(d, pos + 4) as int;
        let vpos = pos + 8 + key_len;
        let key = d.subrange(pos + 8, vpos);
        if vpos > d.len() {
            (m, pos)
        } else if meta < 0x8000_0000 {
            if vpos + meta > d.len() {
                (m, pos)
            } else {
                replay(d, vpos + meta, m.insert(key, (vpos as u64, meta as u32)))
            }
        } else {
            replay(d, vpos, m.remove(key))
        }
    }
}

/// The keydir that a log `d` holds, read from its start.
pub open spec fn log_index(d: Seq<u8>) -> Map<Seq<u8>, Location> {
    replay(d, 0, Map::empty()).0
}

/// The length of the longest run of whole entries at the start of `d`.
pub open spec fn log_good_len(d: Seq<u8>) -> int {
    replay(d, 0, Map::empty()).1
}

/// The tombstone marker is the big-endian encoding of all ones.
proof fn lemma_tombstone_bytes()
    ensures
        be32(0xffff_ffffu32) == seq![0xffu8, 0xffu8, 0xffu8, 0xffu8],
{
    assert(((0xffff_ffffu32 >> 24u32) as u8) == 0xffu8) by (bit_vector);
    assert(((0xffff_ffffu32 >> 16u32) as u8) == 0xffu8) by (bit_vector);
    assert(((0xffff_ffffu32 >> 8u32) as u8) == 0xffu8) by (bit_vector);
    assert((0xffff_ffffu32 as u8) == 0xffu8) by (bit_vector);
    assert(be32(0xffff_ffffu32) =~= seq![0xffu8, 0xffu8, 0xffu8, 0xffu8]);
}

fn push_be32(out: &mut Vec<u8>, n: u32)
    ensures
        final(out)@ == old(out)@ + be32(n),
{
    out.push((n >> 24u32) as u8);
    out.push((n >> 16u32) as u8);
    out.push((n >> 8u32) as u8);
    out.push(n as u8);
    assert(final(out)@ =~= old(out)@ + be32(n));
}

fn push_all(out: &mut Vec<u8>, bytes: &[u8])
    ensures
        final(out)@ == old(out)@ + bytes@,
{
    let mut i: usize = 0;
    while i < bytes.len()
        invariant
            i <= bytes.len(),
            out@ == old(out)@ + bytes@.subrange(0, i as int),
        decreases bytes.len() - i,
    {
        out.push(bytes[i]);
        assert(bytes@.subrange(0, i + 1) =~= bytes@.subrange(0, i as int).push(bytes@[i as int]));
        i = i + 1;
    }
    assert(bytes@.subrange(0, i as int) =~= bytes@);
}

/// Encodes the entry that sets `key` to `value`, or deletes `key` where
/// `value` is `None`.
pub fn encode_entry(key: &[u8], value: Option<&[u8]>) -> (r: Vec<u8>)
    requires
        key.len() <= MAX_KEY_LEN,
        value matches Some(v) ==> v.len() <= MAX_LEN,
    ensures
        r@ == entry_bytes(key@, opt_view(value)),
{
    let mut out: Vec<u8> = Vec::new();
    push_be32(&mut out, key.len() as u32);
    match value {
        Some(v) => push_be32(&mut out, v.len() as u32),
        None => push_be32(&mut out, 0xffff_ffffu32),
    }
    proof {
        lemma_tombstone_bytes();
    }
    push_all(&mut out, key);
    match value {
        Some(v) => push_all(&mut out, v),
        None => {},
    }
    assert(out@ =~= entry_bytes(key@, opt_view(value)));
    out
}

fn read_word(d: &[u8], at: usize) -> (r: u32)
    requires
        at + 4 <= d.len(),
    ensures
        r == word(d@, at as int),
{
    ((d[at] as u32) << 24u32) | ((d[at + 1] as u32) << 16u32) | ((d[at + 2] as u32) << 8u32) | (d[at
        + 3] as u32)
}

pub(crate) fn copy_range(d: &[u8], from: usize, to: usize) -> (r: Vec<u8>)
    requires
        from <= to <= d.len(),
    ensures
        r@ == d@.subrange(from as int, to as int),
{
    let mut out: Vec<u8> = Vec::new();
    let mut i: usize = from;
    while i < to
        invariant
            from <= i <= to <= d.len(),
            out@ == d@.subrange(from as int, i as int),
        decreases to - i,
    {
        out.push(d[i]);
        assert(d@.subrange(from as int, i + 1) =~= d@.subrange(from as int, i as int).push(
            d@[i as int],
        ));
        i = i + 1;
    }
    out
}

/// Rebuilds the keydir from the bytes of a log file. Returns it with the
/// length of the whole entries at the start of the file: an incomplete
/// entry there, and all that follows it, is to be cut off.
pub fn build_keydir(data: &[u8]) -> (r: (KeyDir, usize))
    ensures
        r.0.wf(),
        r.0@ == log_index(data@),
        r.1 == log_good_len(data@),
        r.1 <= data.len(),
        live_disk_size(r.0.entries()) <= r.1,
{
    let n = data.len();
    let mut dir = KeyDir::new();
    let mut pos: usize = 0;
    let mut stop = false;
    while pos < n && !stop
        invariant
            dir.wf(),
            pos <= n == data@.len(),
            replay(data@, pos as int, dir@) == replay(data@, 0, Map::empty()),
            stop ==> replay(data@, pos as int, dir@) == (dir@, pos as int),
            live_disk_size(dir.entries()) <= pos,
        decreases n - pos + (if stop { 0int } else { 1int }),
    {
        if n - pos < 8 {
            stop = true;
        } else {
            let key_len = read_word(data, pos);
            let meta = read_word(data, pos + 4);
            if key_len as u64 > (n - pos - 8) as u64 {
                stop = true;
            } else {
                let vpos = pos + 8 + key_len as usize;
                let key = copy_range(data, pos + 8, vpos);
                if meta < 0x8000_0000u32 {
                    if meta as u64 > (n - vpos) as u64 {
                        stop = true;
                    } else {
                        dir.insert(key, (vpos as u64, meta));
                        pos = vpos + meta as usize;
                    }
                } else {
                    dir.remove(key.as_slice());
                    pos = vpos;
                }
            }
        }
    }
    (dir, pos)
}

/// Reading back the big-endian bytes of `n` gives `n`.
proof fn lemma_word_be32(d: Seq<u8>, at: int, n: u32)
    requires
        0 <= at,
        at + 4 <= d.len(),
        d.subrange(at, at + 4) == be32(n),
    ensures
        word(d, at) == n,
{
    assert(d[at] == be32(n)[0] && d[at + 1] == be32(n)[1] && d[at + 2] == be32(n)[2] && d[at + 3]
        == be32(n)[3]) by {
        assert(d.subrange(at, at + 4)[0] == d[at]);
        assert(d.subrange(at, at + 4)[1] == d[at + 1]);
        assert(d.subrange(at, at + 4)[2] == d[at + 2]);
        assert(d.subrange(at, at + 4)[3] == d[at + 3]);
    }
    assert(((((n >> 24u32) as u8) as u32) << 24u32) | ((((n >> 16u32) as u8) as u32) << 16u32) | ((((
    n >> 8u32) as u8) as u32) << 8u32) | ((n as u8) as u32) == n) by (bit_vector);
}

/// Bytes appended after a log whose entries are all whole leave the replay
/// of those entries as it was: the replay goes on from the old end.
pub proof fn lemma_replay_extend(d: Seq<u8>, e: Seq<u8>, pos: int, m: Map<Seq<u8>, Location>)
    requires
        0 <= pos <= d.len(),
        replay(d, pos, m).1 == d.len(),
    ensures
        replay(d + e, pos, m) == replay(d + e, d.len() as int, replay(d, pos, m).0),
    decreases d.len() - pos,
{
    let de = d + e;
    if pos < d.len() {
        assert(pos + 8 <= d.len());
        assert(word(de, pos) == word(d, pos)) by {
            assert(de[pos] == d[pos] && de[pos + 1] == d[pos + 1] && de[pos + 2] == d[pos + 2]
                && de[pos + 3] == d[pos + 3]);
        }
        assert(word(de, pos + 4) == word(d, pos + 4)) by {
            assert(de[pos + 4] == d[pos + 4] && de[pos + 5] == d[pos + 5] && de[pos + 6] == d[pos
                + 6] && de[pos + 7] == d[pos + 7]);
        }
        let key_len = word(d, pos) as int;
        let meta = word(d, pos + 4) as int;
        let vpos = pos + 8 + key_len;
        assert(vpos <= d.len());
        assert(de.subrange(pos + 8, vpos) =~= d.subrange(pos + 8, vpos));
        let key = d.subrange(pos + 8, vpos);
        if meta < 0x8000_0000 {
            lemma_replay_extend(d, e, vpos + meta, m.insert(key, (vpos as u64, meta as u32)));
        } else {
            lemma_replay_extend(d, e, vpos, m.remove(key));
        }
    }
}

/// A whole entry at the end of a log is replayed by setting or removing
/// its key, and the replay then reaches the end.
pub proof fn lemma_replay_entry(d: Seq<u8>, key: Seq<u8>, value: Option<Seq<u8>>, m: Map<
    Seq<u8>,
    Location,
>)
    requires
        key.len() <= MAX_KEY_LEN,
        value matches Some(v) ==> v.len() <= MAX_LEN,
    ensures
        value is Some ==> replay(d + entry_bytes(key, value), d.len() as int, m) == (m.insert(
            key,
            ((d.len() + 8 + key.len()) as u64, value->0.len() as u32),
        ), (d + entry_bytes(key, value)).len() as int),
        value is None ==> replay(d + entry_bytes(key, value), d.len() as int, m) == (m.remove(key), (
        d + entry_bytes(key, value)).len() as int),
{
    let x = entry_bytes(key, value);
    let de = d + x;
    let pos = d.len() as int;
    assert(de.subrange(pos, pos + 4) =~= be32(key.len() as u32));
    lemma_word_be32(de, pos, key.len() as u32);
    let vpos = pos + 8 + key.len();
    assert(de.subrange(pos + 8, vpos) =~= key);
    match value {
        Some(v) => {
            assert(de.subrange(pos + 4, pos + 8) =~= be32(v.len() as u32));
            lemma_word_be32(de, pos + 4, v.len() as u32);
            let m2 = m.insert(key, (vpos as u64, v.len() as u32));
            assert(de.len() == vpos + v.len());
            assert(replay(de, de.len() as int, m2) == (m2, de.len() as int));
        },
        None => {
            lemma_tombstone_bytes();
            assert(de.subrange(pos + 4, pos + 8) =~= be32(0xffff_ffffu32));
            lemma_word_be32(de, pos + 4, 0xffff_ffffu32);
            assert(de.len() == vpos);
            assert(word(de, pos) as int == key.len());
            assert(replay(de, de.len() as int, m.remove(key)) == (m.remove(key), de.len() as int));
        },
    }
}

/// A log cut inside its last entry replays as the log without that entry.
pub proof fn lemma_replay_torn_entry(
    d: Seq<u8>,
    key: Seq<u8>,
    value: Option<Seq<u8>>,
    p: int,
    m: Map<Seq<u8>, Location>,
)
    requires
        key.len() <= MAX_KEY_LEN,
        value matches Some(v) ==> v.len() <= MAX_LEN,
        0 <= p < entry_bytes(key, value).len(),
    ensures
        replay(d + entry_bytes(key, value).subrange(0, p), d.len() as int, m) == (m, d.len() as int),
{
    let x = entry_bytes(key, value);
    let de = d + x.subrange(0, p);
    let pos = d.len() as int;
    if p >= 8 {
        assert(de.subrange(pos, pos + 4) =~= be32(key.len() as u32));
        lemma_word_be32(de, pos, key.len() as u32);
        match value {
            Some(v) => {
                assert(de.subrange(pos + 4, pos + 8) =~= be32(v.len() as u32));
                lemma_word_be32(de, pos + 4, v.len() as u32);
            },
            None => {
                lemma_tombstone_bytes();
            assert(de.subrange(pos + 4, pos + 8) =~= be32(0xffff_ffffu32));
                lemma_word_be32(de, pos + 4, 0xffff_ffffu32);
            },
        }
    }
}

/// A change to the store as one log entry: a key with its new value, or
/// with `None` for a delete.
pub type Op = (Seq<u8>, Option<Seq<u8>>);

/// Every key and value of `ops` fits an entry.
pub open spec fn ops_fit(ops: Seq<Op>) -> bool {
    forall|i: int|
        0 <= i < ops.len() ==> (#[trigger] ops[i]).0.len() <= MAX_KEY_LEN && (ops[i].1 matches Some(
            v,
        ) ==> v.len() <= MAX_LEN)
}

/// The log that writing the entries of `ops` in turn produces.
pub open spec fn ops_log(ops: Seq<Op>) -> Seq<u8>
    decreases ops.len(),
{
    if ops.len() == 0 {
        Seq::empty()
    } else {
        ops_log(ops.drop_last()) + entry_bytes(ops.last().0, ops.last().1)
    }
}

/// How many of the entries of `ops` lie whole within the first `p` bytes
/// of their log.
pub open spec fn whole_ops(ops: Seq<Op>, p: int) -> int
    decreases ops.len(),
{
    if ops.len() == 0 {
        0
    } else if p >= ops_log(ops).len() {
        ops.len() as int
    } else {
        whole_ops(ops.drop_last(), p)
    }
}

/// A log written entry by entry holds whole entries only.
pub proof fn lemma_ops_log_whole(ops: Seq<Op>)
    requires
        ops_fit(ops),
    ensures
        log_good_len(ops_log(ops)) == ops_log(ops).len(),
    decreases ops.len(),
{
    if ops.len() > 0 {
        let rest = ops.drop_last();
        assert(ops_fit(rest)) by {
            assert forall|i: int| 0 <= i < rest.len() implies #[trigger] rest[i] == ops[i] by {}
        }
        lemma_ops_log_whole(rest);
        let c = ops_log(rest);
        let x = entry_bytes(ops.last().0, ops.last().1);
        assert(ops.last() == ops[ops.len() - 1]);
        lemma_replay_extend(c, x, 0, Map::empty());
        lemma_replay_entry(c, ops.last().0, ops.last().1, log_index(c));
    }
}

/// Cutting a log written entry by entry at any length `p`, and reading it
/// back, gives the keydir of the longest run of whole entries within the
/// cut, and keeps exactly the bytes of that run.
pub proof fn lemma_truncated_log(ops: Seq<Op>, p: int)
    requires
        ops_fit(ops),
        0 <= p <= ops_log(ops).len(),
    ensures
        0 <= whole_ops(ops, p) <= ops.len(),
        ops_log(ops.take(whole_ops(ops, p))).len() <= p,
        log_index(ops_log(ops).subrange(0, p)) == log_index(ops_log(ops.take(whole_ops(ops, p)))),
        log_good_len(ops_log(ops).subrange(0, p)) == ops_log(ops.take(whole_ops(ops, p))).len(),
    decreases ops.len(),
{
    let l = ops_log(ops);
    if ops.len() == 0 {
        assert(l.subrange(0, p) =~= l);
        assert(ops.take(0) =~= ops);
    } else {
        let rest = ops.drop_last();
        assert(ops_fit(rest)) by {
            assert forall|i: int| 0 <= i < rest.len() implies #[trigger] rest[i] == ops[i] by {}
        }
        let c = ops_log(rest);
        let (k, v) = ops.last();
        assert(ops.last() == ops[ops.len() - 1]);
        let x = entry_bytes(k, v);
        if p == l.len() {
            assert(ops.take(ops.len() as int) =~= ops);
            assert(l.subrange(0, p) =~= l);
            lemma_ops_log_whole(ops);
        } else if p >= c.len() {
            assert(whole_ops(rest, p) == rest.len()) by {
                if rest.len() > 0 {
                }
            }
            assert(ops.take(rest.len() as int) =~= rest);
            assert(l.subrange(0, p) =~= c + x.subrange(0, p - c.len()));
            lemma_ops_log_whole(rest);
            lemma_replay_extend(c, x.subrange(0, p - c.len()), 0, Map::empty());
            lemma_replay_torn_entry(c, k, v, p - c.len(), log_index(c));
        } else {
            lemma_truncated_log(rest, p);
            let w = whole_ops(rest, p);
            assert(rest.take(w) =~= ops.take(w));
            assert(l.subrange(0, p) =~= c.subrange(0, p));
        }
    }
}

} // verus!
