use bitcask::compaction::{should_compact, Compactor, Fraction};
use bitcask::engine::LogIndex;
use bitcask::format::{build_keydir, encode_entry};
use bitcask::keydir::{KeyBound, KeyDir};
use bitcask::lex::compare_keys;

/// A store whose log lives in memory.
struct MemStore {
    log: Vec<u8>,
    index: LogIndex,
}

impl MemStore {
    fn new() -> MemStore {
        MemStore { log: Vec::new(), index: LogIndex::empty() }
    }

    fn open(data: &[u8]) -> MemStore {
        let (index, good) = LogIndex::open(data);
        MemStore { log: data[..good].to_vec(), index }
    }

    fn set(&mut self, key: &[u8], value: &[u8]) {
        let bytes = encode_entry(key, Some(value));
        self.log.extend_from_slice(&bytes);
        self.index.apply_set(key, value);
    }

    fn delete(&mut self, key: &[u8]) {
        let bytes = encode_entry(key, None);
        self.log.extend_from_slice(&bytes);
        self.index.apply_delete(key);
    }

    fn read(&self, loc: (u64, u32)) -> Vec<u8> {
        let start = loc.0 as usize;
        self.log[start..start + loc.1 as usize].to_vec()
    }

    fn get(&self, key: &[u8]) -> Option<Vec<u8>> {
        self.index.get(key).map(|loc| self.read(loc))
    }

    fn scan(&self, lo: &KeyBound, hi: &KeyBound) -> Vec<(Vec<u8>, Vec<u8>)> {
        let mut it = self.index.keydir().scan(lo, hi);
        let mut out = Vec::new();
        while let Some((key, loc)) = it.next() {
            out.push((key, self.read(loc)));
        }
        out
    }

    fn scan_back(&self, lo: &KeyBound, hi: &KeyBound) -> Vec<(Vec<u8>, Vec<u8>)> {
        let mut it = self.index.keydir().scan(lo, hi);
        let mut out = Vec::new();
        while let Some((key, loc)) = it.next_back() {
            out.push((key, self.read(loc)));
        }
        out
    }

    fn full(&self) -> Vec<(Vec<u8>, Vec<u8>)> {
        self.scan(&KeyBound::Unbounded, &KeyBound::Unbounded)
    }

    fn compact(&mut self) {
        let mut c = Compactor::new(&self.index);
        let mut new_log = Vec::new();
        while let Some(loc) = c.next_location(&self.index) {
            let value = self.read(loc);
            let bytes = c.copy_next(&self.index, &value);
            new_log.extend_from_slice(&bytes);
        }
        self.index = c.finish(&self.index);
        self.log = new_log;
    }
}

fn frac(num: i64, den: u32) -> Fraction {
    Fraction { num, den }
}

#[test]
fn recovery() {
    let mut log: Vec<u8> = Vec::new();
    let mut ends = vec![];
    log.extend_from_slice(&encode_entry(b"deleted", Some(&[1, 2, 3])));
    ends.push(log.len());
    log.extend_from_slice(&encode_entry(b"deleted", None));
    ends.push(log.len());
    log.extend_from_slice(&encode_entry(&[], Some(&[])));
    ends.push(log.len());
    log.extend_from_slice(&encode_entry(b"key", Some(&[1, 2, 3, 4, 5])));
    ends.push(log.len());

    for pos in 0..=log.len() {
        let truncated = &log[..pos];
        let mut expect = vec![];
        if pos >= ends[0] {
            expect.push((b"deleted".to_vec(), vec![1, 2, 3]))
        }
        if pos >= ends[1] {
            expect.pop();
        }
        if pos >= ends[2] {
            expect.push((b"".to_vec(), vec![]))
        }
        if pos >= ends[3] {
            expect.push((b"key".to_vec(), vec![1, 2, 3, 4, 5]))
        }
        let store = MemStore::open(truncated);
        assert_eq!(expect, store.full());
        let good = ends.iter().copied().filter(|&e| e <= pos).max().unwrap_or(0);
        assert_eq!(store.log.len(), good);
    }
}

#[test]
fn point_ops_sizes() {
    let mut store = MemStore::new();
    for size in (1..=26).map(|i| 1usize << i) {
        let value = vec![b'x'; size];
        let key = value.as_slice();

        assert_eq!(store.get(key), None);
        store.set(key, &value);
        assert_eq!(store.get(key).as_ref(), Some(&value));
        store.delete(key);
        assert_eq!(store.get(key), None);
        // Keep the in-memory log small: only the keydir matters here.
        store = MemStore::open(&store.log);
        store.compact();
    }
}

#[test]
fn should_compact_truth_table() {
    let half = frac(1, 2);
    assert!(should_compact(100, 100, frac(-1, 1), 0));
    assert!(should_compact(100, 100, frac(0, 1), 0));
    assert!(should_compact(100, 100, frac(1, 1), 0));
    assert!(!should_compact(100, 100, frac(2, 1), 0));
    assert!(!should_compact(0, 100, frac(0, 1), 0));
    assert!(should_compact(1, 100, frac(0, 1), 0));
    assert!(!should_compact(49, 100, half, 0));
    assert!(should_compact(50, 100, half, 0));
    assert!(should_compact(51, 100, half, 0));
    assert!(!should_compact(49, 100, frac(0, 1), 50));
    assert!(should_compact(50, 100, frac(0, 1), 50));
    assert!(should_compact(51, 100, frac(0, 1), 50));
}

#[test]
fn should_compact_extremes() {
    assert!(should_compact(u64::MAX, u64::MAX, frac(i64::MAX, 1), 0) == false);
    assert!(should_compact(1, 0, frac(i64::MAX, 1), 0));
    assert!(should_compact(u64::MAX, u64::MAX, frac(i64::MIN, u32::MAX), u64::MAX));
}

#[test]
fn basic_round_trip() {
    let mut store = MemStore::new();
    store.set(b"a", &[1]);
    store.set(b"b", &[2, 2]);
    assert_eq!(store.get(b"a"), Some(vec![1]));
    assert_eq!(store.get(b"c"), None);
    store.delete(b"a");
    assert_eq!(store.get(b"a"), None);
    assert_eq!(store.full(), vec![(b"b".to_vec(), vec![2, 2])]);
}

#[test]
fn overwrite_and_compact() {
    let mut store = MemStore::new();
    for i in 1..=3u8 {
        store.set(b"k", &[i]);
    }
    let status = store.index.status();
    assert_eq!(status.keys, 1);
    assert_eq!(status.size, 2);
    assert_eq!(status.live_disk_size, 10);
    assert_eq!(status.total_disk_size, 30);
    assert_eq!(status.garbage_disk_size, 20);
    assert_eq!(status.name, "bitcask");
    store.compact();
    assert_eq!(store.log.len(), 10);
    assert_eq!(store.index.total_disk_size(), 10);
    assert_eq!(store.get(b"k"), Some(vec![3]));
    let after = store.index.status();
    assert_eq!(after.garbage_disk_size, 0);
}

#[test]
fn compaction_keeps_contents() {
    let mut store = MemStore::new();
    store.set(b"c", b"3");
    store.set(b"a", b"1");
    store.set(b"b", b"2");
    store.delete(b"c");
    store.set(b"a", b"11");
    let before = store.full();
    let live = store.index.status().live_disk_size;
    store.compact();
    assert_eq!(store.full(), before);
    assert_eq!(store.index.total_disk_size(), live);
    let mut expect = encode_entry(b"a", Some(b"11"));
    expect.extend_from_slice(&encode_entry(b"b", Some(b"2")));
    assert_eq!(store.log, expect);
}

#[test]
fn empty_key_and_value() {
    let mut store = MemStore::new();
    store.set(b"", b"");
    assert_eq!(store.get(b""), Some(vec![]));
    assert_eq!(store.full()[0], (vec![], vec![]));
    store.delete(b"");
    assert_eq!(store.get(b""), None);
}

#[test]
fn reopen_keeps_contents() {
    let mut store = MemStore::new();
    store.set(b"x", b"1");
    store.set(b"y", b"2");
    store.delete(b"x");
    store.set(b"z", b"3");
    let reopened = MemStore::open(&store.log);
    assert_eq!(reopened.log, store.log);
    assert_eq!(reopened.full(), store.full());
    assert_eq!(reopened.get(b"x"), None);
    assert_eq!(reopened.get(b"z"), Some(b"3".to_vec()));
}

#[test]
fn entry_encoding() {
    assert_eq!(encode_entry(b"ab", Some(&[7])), vec![0, 0, 0, 2, 0, 0, 0, 1, b'a', b'b', 7]);
    assert_eq!(encode_entry(b"k", None), vec![0, 0, 0, 1, 255, 255, 255, 255, b'k']);
    assert_eq!(encode_entry(&[], Some(&[])), vec![0; 8]);
}

#[test]
fn build_keydir_locations() {
    let mut log = encode_entry(b"a", Some(&[1, 2]));
    log.extend_from_slice(&encode_entry(b"bb", Some(&[3])));
    log.extend_from_slice(&[0, 0]);
    let (dir, good) = build_keydir(&log);
    assert_eq!(good, 22);
    assert_eq!(dir.len(), 2);
    assert_eq!(dir.get(b"a"), Some((9, 2)));
    assert_eq!(dir.get(b"bb"), Some((21, 1)));
}

#[test]
fn scan_ranges() {
    let mut store = MemStore::new();
    for k in [b"d", b"b", b"a", b"c", b"e"] {
        store.set(k, k);
    }
    let keys = |v: Vec<(Vec<u8>, Vec<u8>)>| v.into_iter().map(|(k, _)| k).collect::<Vec<_>>();
    let inc = |s: &[u8]| KeyBound::Included(s.to_vec());
    let exc = |s: &[u8]| KeyBound::Excluded(s.to_vec());
    assert_eq!(keys(store.scan(&inc(b"b"), &inc(b"d"))), vec![b"b".to_vec(), b"c".to_vec(), b"d".to_vec()]);
    assert_eq!(keys(store.scan(&exc(b"b"), &exc(b"d"))), vec![b"c".to_vec()]);
    assert_eq!(keys(store.scan(&inc(b"bb"), &KeyBound::Unbounded)), vec![b"c".to_vec(), b"d".to_vec(), b"e".to_vec()]);
    assert_eq!(keys(store.scan(&KeyBound::Unbounded, &exc(b"b"))), vec![b"a".to_vec()]);
    assert!(store.scan(&inc(b"d"), &inc(b"b")).is_empty());
    assert!(store.scan(&exc(b"c"), &exc(b"c")).is_empty());
    let mut back = store.scan_back(&KeyBound::Unbounded, &KeyBound::Unbounded);
    back.reverse();
    assert_eq!(back, store.full());
}

#[test]
fn scan_mixed_ends() {
    let mut dir = KeyDir::new();
    dir.insert(b"a".to_vec(), (1, 1));
    dir.insert(b"b".to_vec(), (2, 2));
    dir.insert(b"c".to_vec(), (3, 3));
    let mut it = dir.scan(&KeyBound::Unbounded, &KeyBound::Unbounded);
    assert_eq!(it.next(), Some((b"a".to_vec(), (1, 1))));
    assert_eq!(it.next_back(), Some((b"c".to_vec(), (3, 3))));
    assert_eq!(it.next_back(), Some((b"b".to_vec(), (2, 2))));
    assert_eq!(it.next(), None);
    assert_eq!(it.next_back(), None);
}

#[test]
fn keydir_orders_bytes() {
    let mut dir = KeyDir::new();
    dir.insert(vec![2], (0, 0));
    dir.insert(vec![1, 255], (0, 0));
    dir.insert(vec![], (0, 0));
    dir.insert(vec![1], (0, 0));
    dir.insert(vec![1], (5, 5));
    assert_eq!(dir.len(), 4);
    let order: Vec<Vec<u8>> = (0..dir.len()).map(|i| dir.key_at(i).clone()).collect();
    assert_eq!(order, vec![vec![], vec![1], vec![1, 255], vec![2]]);
    assert_eq!(dir.get(&[1]), Some((5, 5)));
    dir.remove(&[1]);
    dir.remove(&[9]);
    assert_eq!(dir.len(), 3);
    assert_eq!(dir.get(&[1]), None);
}

#[test]
fn compare_keys_order() {
    assert!(compare_keys(b"a", b"b") < 0);
    assert!(compare_keys(b"b", b"ab") > 0);
    assert!(compare_keys(b"ab", b"ab") == 0);
    assert!(compare_keys(b"", b"a") < 0);
    assert!(compare_keys(b"ab", b"a") > 0);
}

#[test]
fn status_of_empty_and_short_log() {
    let store = MemStore::new();
    let st = store.index.status();
    assert_eq!((st.keys, st.size, st.total_disk_size, st.live_disk_size, st.garbage_disk_size), (0, 0, 0, 0, 0));
    let mut store = MemStore::new();
    store.set(b"ab", b"cde");
    store.delete(b"zz");
    let st = store.index.status();
    assert_eq!((st.keys, st.size, st.total_disk_size, st.live_disk_size, st.garbage_disk_size), (1, 5, 23, 13, 10));
}

#[test]
fn get_after_set_with_other_changes() {
    let mut store = MemStore::new();
    store.set(b"k", b"v1");
    store.set(b"other", b"x");
    store.delete(b"gone");
    store.set(b"k2", b"y");
    assert_eq!(store.get(b"k"), Some(b"v1".to_vec()));
    store.delete(b"k");
    store.set(b"other", b"z");
    assert_eq!(store.get(b"k"), None);
    assert_eq!(store.full().len(), 2);
}

#[test]
fn compact_empty_store() {
    let mut store = MemStore::new();
    store.set(b"a", b"1");
    store.delete(b"a");
    assert_eq!(store.index.status().garbage_disk_size, 19);
    store.compact();
    assert!(store.log.is_empty());
    assert_eq!(store.index.total_disk_size(), 0);
    assert!(store.full().is_empty());
}

#[test]
fn traversals_reverse_each_other() {
    let mut store = MemStore::new();
    for k in [b"q", b"a", b"m", b"z", b"c"] {
        store.set(k, b"v");
    }
    let dir = store.index.keydir();
    let lo = KeyBound::Included(b"b".to_vec());
    let hi = KeyBound::Excluded(b"z".to_vec());
    let fwd = dir.scan(&lo, &hi).collect_forward();
    let mut bwd = dir.scan(&lo, &hi).collect_backward();
    let keys: Vec<Vec<u8>> = fwd.iter().map(|(k, _)| k.clone()).collect();
    assert_eq!(keys, vec![b"c".to_vec(), b"m".to_vec(), b"q".to_vec()]);
    bwd.reverse();
    assert_eq!(fwd, bwd);
}

#[test]
fn status_after_compaction() {
    let mut store = MemStore::new();
    store.set(b"a", b"123");
    store.set(b"b", b"4");
    store.set(b"a", b"56");
    store.delete(b"b");
    store.set(b"c", b"");
    let s0 = store.index.status();
    let before = store.scan_back(&KeyBound::Unbounded, &KeyBound::Unbounded);
    store.compact();
    let s1 = store.index.status();
    assert_eq!(s1.total_disk_size, s0.live_disk_size);
    assert_eq!(s1.live_disk_size, s0.live_disk_size);
    assert_eq!(s1.garbage_disk_size, 0);
    assert_eq!((s1.keys, s1.size), (s0.keys, s0.size));
    assert_eq!(store.scan_back(&KeyBound::Unbounded, &KeyBound::Unbounded), before);
}
