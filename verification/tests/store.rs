use mini_bitcask::bitcask::{MiniBitcask, ScanBound};
use mini_bitcask::log::{Log, LogError};

fn open_empty() -> MiniBitcask {
    MiniBitcask::new(Vec::new()).expect("an empty log must open")
}

fn set(eng: &mut MiniBitcask, key: &[u8], value: &[u8]) {
    eng.set(&key.to_vec(), value.to_vec());
}

fn get(eng: &MiniBitcask, key: &[u8]) -> Option<Vec<u8>> {
    eng.get(&key.to_vec())
}

#[test]
fn test_log_read_write() {
    let mut log = Log::from_bytes(Vec::new());
    log.write_entry(&b"a".to_vec(), Some(&b"val1".to_vec()));
    log.write_entry(&b"b".to_vec(), Some(&b"val2".to_vec()));
    log.write_entry(&b"c".to_vec(), Some(&b"val3".to_vec()));

    // rewrite
    log.write_entry(&b"a".to_vec(), Some(&b"val5".to_vec()));
    // delete
    log.write_entry(&b"c".to_vec(), None);

    let keydir = log.load_index().expect("the log must replay");
    assert_eq!(2, keydir.len());
}

#[test]
fn test_log_reopen() {
    let mut log = Log::from_bytes(Vec::new());
    log.write_entry(&b"a".to_vec(), Some(&b"val1".to_vec()));
    log.write_entry(&b"b".to_vec(), Some(&b"val2".to_vec()));
    log.write_entry(&b"c".to_vec(), Some(&b"val3".to_vec()));
    log.write_entry(&b"d".to_vec(), Some(&b"val4".to_vec()));
    log.write_entry(&b"d".to_vec(), None);

    let file = log.data.clone();
    drop(log);

    let log = Log::from_bytes(file);
    let keydir = log.load_index().expect("the log must replay");
    assert_eq!(3, keydir.len());
}

#[test]
fn test_point_opt() {
    let mut eng = open_empty();

    // a key that was never set
    assert_eq!(get(&eng, b"not exist"), None);

    // a key that was set
    set(&mut eng, b"aa", &[1, 2, 3, 4]);
    assert_eq!(get(&eng, b"aa"), Some(vec![1, 2, 3, 4]));

    // a repeated set overwrites the previous value
    set(&mut eng, b"aa", &[5, 6, 7, 8]);
    assert_eq!(get(&eng, b"aa"), Some(vec![5, 6, 7, 8]));

    // read after delete
    eng.delete(&b"aa".to_vec());
    assert_eq!(get(&eng, b"aa"), None);

    // empty key and empty value
    assert_eq!(get(&eng, b""), None);
    set(&mut eng, b"", &[]);
    assert_eq!(get(&eng, b""), Some(vec![]));

    set(&mut eng, b"cc", &[5, 6, 7, 8]);
    assert_eq!(get(&eng, b"cc"), Some(vec![5, 6, 7, 8]));
}

#[test]
fn test_scan() {
    let mut eng = open_empty();

    set(&mut eng, b"nnaes", b"value1");
    set(&mut eng, b"amhue", b"value2");
    set(&mut eng, b"meeae", b"value3");
    set(&mut eng, b"uujeh", b"value4");
    set(&mut eng, b"anehe", b"value5");

    let start = ScanBound::Included(b"a".to_vec());
    let end = ScanBound::Excluded(b"e".to_vec());

    let mut iter = eng.scan(start, end);
    let (key1, _) = iter.next().expect("no value founded");
    assert_eq!(key1, b"amhue".to_vec());

    let (key2, _) = iter.next().expect("no value founded");
    assert_eq!(key2, b"anehe".to_vec());
    assert_eq!(iter.next(), None);
    drop(iter);

    let start = ScanBound::Included(b"b".to_vec());
    let end = ScanBound::Excluded(b"z".to_vec());
    let mut iter2 = eng.scan(start, end);

    let (key3, _) = iter2.next_back().expect("no value founded");
    assert_eq!(key3, b"uujeh".to_vec());

    let (key4, _) = iter2.next_back().expect("no value founded");
    assert_eq!(key4, b"nnaes".to_vec());

    let (key5, _) = iter2.next_back().expect("no value founded");
    assert_eq!(key5, b"meeae".to_vec());
}

#[test]
fn test_scan_prefix() {
    let mut eng = open_empty();

    set(&mut eng, b"ccnaes", b"value1");
    set(&mut eng, b"camhue", b"value2");
    set(&mut eng, b"deeae", b"value3");
    set(&mut eng, b"eeujeh", b"value4");
    set(&mut eng, b"canehe", b"value5");
    set(&mut eng, b"aanehe", b"value6");

    let prefix = b"ca".to_vec();
    let mut iter = eng.scan_prefix(&prefix);
    let (key1, _) = iter.next().expect("a first match");
    assert_eq!(key1, b"camhue".to_vec());
    let (key2, _) = iter.next().expect("a second match");
    assert_eq!(key2, b"canehe".to_vec());
    assert_eq!(iter.next(), None);
}

#[test]
fn test_merge() {
    let mut eng = open_empty();

    set(&mut eng, b"a", b"value1");
    set(&mut eng, b"b", b"value2");
    set(&mut eng, b"c", b"value3");
    eng.delete(&b"a".to_vec());
    eng.delete(&b"b".to_vec());
    eng.delete(&b"c".to_vec());

    eng.merge();
    assert_eq!(eng.file_len(), 0);

    set(&mut eng, b"a", b"value1");
    set(&mut eng, b"b", b"value2");
    set(&mut eng, b"c", b"value3");

    let val = get(&eng, b"a");
    assert_eq!(b"value1".to_vec(), val.unwrap());

    let val = get(&eng, b"b");
    assert_eq!(b"value2".to_vec(), val.unwrap());

    let val = get(&eng, b"c");
    assert_eq!(b"value3".to_vec(), val.unwrap());

    // each record holds 8 header bytes, 1 key byte and 6 value bytes
    assert_eq!(eng.file_len(), 3 * (8 + 1 + 6));
}

#[test]
fn test_record_format() {
    let mut eng = open_empty();
    set(&mut eng, b"a", &[9, 8, 7]);
    assert_eq!(
        eng.log_bytes().as_slice(),
        &[0, 0, 0, 1, 0, 0, 0, 3, b'a', 9, 8, 7][..]
    );
    eng.delete(&b"a".to_vec());
    assert_eq!(
        &eng.log_bytes()[12..],
        &[0, 0, 0, 1, 0xFF, 0xFF, 0xFF, 0xFF, b'a'][..]
    );
}

#[test]
fn test_reopen_round_trip() {
    let mut eng = open_empty();
    set(&mut eng, b"a", b"val1");
    set(&mut eng, b"b", b"val2");
    set(&mut eng, b"c", b"val3");
    set(&mut eng, b"d", b"val4");
    eng.delete(&b"d".to_vec());

    let file = eng.log_bytes().clone();
    drop(eng);

    let eng = MiniBitcask::new(file).expect("the file must reopen");
    assert_eq!(get(&eng, b"a"), Some(b"val1".to_vec()));
    assert_eq!(get(&eng, b"b"), Some(b"val2".to_vec()));
    assert_eq!(get(&eng, b"c"), Some(b"val3".to_vec()));
    assert_eq!(get(&eng, b"d"), None);
}

#[test]
fn test_truncated_log_is_refused() {
    // three stray bytes: shorter than any record header
    assert!(matches!(
        MiniBitcask::new(vec![0, 0, 0]),
        Err(LogError::Truncated)
    ));

    // a header promising more key bytes than the file holds
    let mut eng = open_empty();
    set(&mut eng, b"abc", b"xyz");
    let mut file = eng.log_bytes().clone();
    file.truncate(file.len() - 1);
    assert!(matches!(
        MiniBitcask::new(file),
        Err(LogError::Truncated)
    ));
}

#[test]
fn test_merge_idempotent() {
    let mut eng = open_empty();
    set(&mut eng, b"k1", b"first");
    set(&mut eng, b"k2", b"second");
    set(&mut eng, b"k1", b"third");
    eng.delete(&b"k2".to_vec());
    set(&mut eng, b"k3", b"fourth");

    eng.merge();
    assert_eq!(get(&eng, b"k1"), Some(b"third".to_vec()));
    assert_eq!(get(&eng, b"k2"), None);
    assert_eq!(get(&eng, b"k3"), Some(b"fourth".to_vec()));

    let first_image = eng.log_bytes().clone();
    eng.merge();
    assert_eq!(&first_image, eng.log_bytes());
}

#[test]
fn test_merge_file_size() {
    let mut eng = open_empty();
    set(&mut eng, b"key-one", b"aa");
    set(&mut eng, b"key-two", b"bbbb");
    set(&mut eng, b"key-one", b"cc");
    eng.delete(&b"key-two".to_vec());
    set(&mut eng, b"zz", b"d");

    eng.merge();
    // live entries: ("key-one", "cc") and ("zz", "d")
    assert_eq!(eng.file_len(), (8 + 7 + 2) + (8 + 2 + 1));
}

#[test]
fn test_scan_empty_range() {
    let mut eng = open_empty();
    set(&mut eng, b"b", b"v");
    let mut iter = eng.scan(
        ScanBound::Included(b"c".to_vec()),
        ScanBound::Unbounded,
    );
    assert_eq!(iter.next(), None);
    drop(iter);

    let mut all = eng.scan(ScanBound::Unbounded, ScanBound::Unbounded);
    assert_eq!(all.next(), Some((b"b".to_vec(), b"v".to_vec())));
    assert_eq!(all.next(), None);
}

#[test]
fn test_scan_prefix_empty_prefix() {
    let mut eng = open_empty();
    set(&mut eng, b"x", b"1");
    set(&mut eng, b"y", b"2");
    let mut iter = eng.scan_prefix(&Vec::new());
    assert_eq!(iter.next(), Some((b"x".to_vec(), b"1".to_vec())));
    assert_eq!(iter.next(), Some((b"y".to_vec(), b"2".to_vec())));
    assert_eq!(iter.next(), None);
}

#[test]
fn test_scan_prefix_high_bytes() {
    let mut eng = open_empty();
    eng.set(&vec![0xFE], b"low".to_vec());
    eng.set(&vec![0xFF], b"edge".to_vec());
    eng.set(&vec![0xFF, 0x01], b"inner".to_vec());

    // a prefix of 0xFF bytes has no strict upper bound
    let mut iter = eng.scan_prefix(&vec![0xFF]);
    assert_eq!(iter.next(), Some((vec![0xFF], b"edge".to_vec())));
    assert_eq!(iter.next(), Some((vec![0xFF, 0x01], b"inner".to_vec())));
    assert_eq!(iter.next(), None);
    drop(iter);

    // a prefix ending in 0xFF but not made of it alone
    let mut iter = eng.scan_prefix(&vec![0xFE]);
    assert_eq!(iter.next(), Some((vec![0xFE], b"low".to_vec())));
    assert_eq!(iter.next(), None);
}

#[test]
fn test_read_value_slices() {
    let mut log = Log::from_bytes(Vec::new());
    let (offset, len) = log.write_entry(&b"kk".to_vec(), Some(&b"world".to_vec()));
    assert_eq!(offset, 0);
    assert_eq!(len, 8 + 2 + 5);
    let value_pos = offset + len - 5;
    assert_eq!(log.read_value(value_pos, 5), b"world".to_vec());
}
