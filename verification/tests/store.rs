use paint::bytes::{compare_bytes, increment_key, prefix_to_range, KeyOrder};
use paint::key::Error;
use paint::store::{GlazeStore, Store, StoreName};
use paint::update::{
    apply_store_update, concat_bytes, next_entry_times, replace_view_gap, replace_view_rest,
};

fn filled(pairs: &[(&[u8], &[u8])]) -> GlazeStore {
    let mut s = GlazeStore::new(StoreName::Course);
    for (k, v) in pairs {
        s.insert(k, v.to_vec()).unwrap();
    }
    s
}

fn keys(s: &GlazeStore) -> Vec<Vec<u8>> {
    s.scan_range(&[], &[255, 255, 255, 255]).unwrap().into_iter().map(|(k, _)| k).collect()
}

#[test]
fn store_names() {
    assert_eq!(StoreName::Course.as_str(), "course");
    assert_eq!(StoreName::Assignment.as_str(), "assignment");
    assert_eq!(StoreName::Submission.as_str(), "submission");
    assert_eq!(GlazeStore::new(StoreName::Submission).name(), StoreName::Submission);
}

#[test]
fn store_reads_what_was_written() {
    let mut s = GlazeStore::new(StoreName::Assignment);
    assert_eq!(s.get(b"a").unwrap(), None);
    assert_eq!(s.insert(b"a", b"1".to_vec()).unwrap(), None);
    assert_eq!(s.get(b"a").unwrap(), Some(b"1".to_vec()));
    // the skip list hands back no earlier value
    assert_eq!(s.insert(b"a", b"2".to_vec()).unwrap(), None);
    assert_eq!(s.get(b"a").unwrap(), Some(b"2".to_vec()));
    assert_eq!(s.remove(b"a").unwrap(), None);
    assert_eq!(s.get(b"a").unwrap(), None);
    assert_eq!(s.remove(b"a").unwrap(), None);
}

#[test]
fn scan_range_is_half_open_and_ordered() {
    let s = filled(&[(b"b", b"2"), (b"a", b"1"), (b"c", b"3"), (b"bb", b"4")]);
    let got = s.scan_range(b"b", b"c").unwrap();
    assert_eq!(got, vec![(b"b".to_vec(), b"2".to_vec()), (b"bb".to_vec(), b"4".to_vec())]);
}

#[test]
fn scan_and_remove_prefix() {
    let mut s = filled(&[(&[1, 2, 3], b"x"), (&[1, 2], b"y"), (&[1, 3], b"z"), (&[1, 2, 255], b"w")]);
    let got: Vec<Vec<u8>> = s.scan_prefix(&[1, 2]).unwrap().into_iter().map(|(k, _)| k).collect();
    assert_eq!(got, vec![vec![1, 2], vec![1, 2, 3], vec![1, 2, 255]]);
    s.remove_prefix(&[1, 2]).unwrap();
    assert_eq!(keys(&s), vec![vec![1, 3]]);
}

#[test]
fn empty_prefix_reaches_every_key() {
    let mut s = filled(&[(&[5], b"x"), (&[], b"e"), (&[255, 255], b"y")]);
    let got: Vec<Vec<u8>> = s.scan_prefix(&[]).unwrap().into_iter().map(|(k, _)| k).collect();
    assert_eq!(got, vec![vec![], vec![5], vec![255, 255]]);
    s.remove_prefix(&[]).unwrap();
    assert_eq!(s.scan_prefix(&[]).unwrap(), vec![]);
}

#[test]
fn prefix_ending_in_255_stops_at_its_keys() {
    let mut s = filled(&[(&[1, 255], b"a"), (&[1, 255, 0], b"b"), (&[2], b"c"), (&[255], b"d"), (&[255, 0], b"e")]);
    let got: Vec<Vec<u8>> = s.scan_prefix(&[1, 255]).unwrap().into_iter().map(|(k, _)| k).collect();
    assert_eq!(got, vec![vec![1, 255], vec![1, 255, 0]]);
    let got: Vec<Vec<u8>> = s.scan_prefix(&[255]).unwrap().into_iter().map(|(k, _)| k).collect();
    assert_eq!(got, vec![vec![255], vec![255, 0]]);
    s.remove_prefix(&[1, 255]).unwrap();
    assert_eq!(keys(&s), vec![vec![2], vec![255], vec![255, 0]]);
    s.remove_prefix(&[255]).unwrap();
    assert_eq!(keys(&s), vec![vec![2]]);
}

#[test]
fn remove_range_removes_only_the_range() {
    let mut s = filled(&[(b"a", b"1"), (b"b", b"2"), (b"c", b"3")]);
    s.remove_range(b"b", b"c").unwrap();
    assert_eq!(keys(&s), vec![b"a".to_vec(), b"c".to_vec()]);
}

#[test]
fn store_bytes_format() {
    let s = filled(&[(b"k", b"vv")]);
    assert_eq!(s.to_bytes(), vec![0, 0, 0, 1, 0, 0, 0, 2, b'k', b'v', b'v']);
}

#[test]
fn store_bytes_roundtrip() {
    let s = filled(&[(b"one", b"1"), (b"two", b""), (b"", b"empty key")]);
    let back = GlazeStore::from_bytes(StoreName::Course, &s.to_bytes());
    assert_eq!(back.name(), StoreName::Course);
    assert_eq!(
        back.scan_range(&[], &[255]).unwrap(),
        s.scan_range(&[], &[255]).unwrap()
    );
}

#[test]
fn store_from_truncated_bytes() {
    // a pair whose value is cut short is read as far as it goes; fewer than
    // eight bytes hold no pair
    let back = GlazeStore::from_bytes(StoreName::Course, &[0, 0, 0, 1, 0, 0, 0, 5, b'k', b'a', 0, 0]);
    assert_eq!(back.get(b"k").unwrap(), Some(vec![b'a', 0, 0]));
    assert_eq!(keys(&back).len(), 1);
}

#[test]
fn store_from_bytes_first_value_wins() {
    let bytes = [0, 0, 0, 1, 0, 0, 0, 1, b'k', b'1', 0, 0, 0, 1, 0, 0, 0, 1, b'k', b'2'];
    let back = GlazeStore::from_bytes(StoreName::Assignment, &bytes);
    assert_eq!(back.get(b"k").unwrap(), Some(b"1".to_vec()));
}

#[test]
fn compare_is_lexicographic() {
    assert_eq!(compare_bytes(&[1, 2], &[1, 3]), KeyOrder::Less);
    assert_eq!(compare_bytes(&[1, 2], &[1, 2, 0]), KeyOrder::Less);
    assert_eq!(compare_bytes(&[2], &[1, 255]), KeyOrder::Greater);
    assert_eq!(compare_bytes(&[], &[]), KeyOrder::Equal);
}

#[test]
fn increment_carries() {
    let mut k = vec![1, 2, 3];
    increment_key(&mut k);
    assert_eq!(k, vec![1, 2, 4]);
    let mut k = vec![1, 255, 255];
    increment_key(&mut k);
    assert_eq!(k, vec![2, 0, 0]);
    let mut k = vec![255, 255];
    increment_key(&mut k);
    assert_eq!(k, vec![0, 0]);
    let mut k: Vec<u8> = vec![];
    increment_key(&mut k);
    assert_eq!(k, Vec::<u8>::new());
}

#[test]
fn prefix_ranges() {
    let r = prefix_to_range(&[1, 2, 3]).unwrap();
    assert_eq!(r.start, vec![1, 2, 3]);
    assert_eq!(r.end, vec![1, 2, 4]);
    assert!(prefix_to_range(&[]).is_none());
}

#[test]
fn prefix_range_holds_exactly_the_prefixed_keys() {
    let r = prefix_to_range(&[7, 1]).unwrap();
    for k in [vec![7, 1], vec![7, 1, 0], vec![7, 1, 255, 255]] {
        assert!(k >= r.start && k < r.end);
    }
    for k in [vec![7], vec![7, 0, 255], vec![7, 2], vec![8]] {
        assert!(!(k >= r.start && k < r.end));
    }
}

#[test]
fn concatenated_keys() {
    assert_eq!(concat_bytes(&[1, 2], &[3]), vec![1, 2, 3]);
}

#[test]
fn store_update_removes_the_gap() {
    let view = [9u8];
    let mut s = filled(&[(&[9, 1], b"old1"), (&[9, 2], b"old2"), (&[9, 3], b"old3")]);
    let mut gap = view.to_vec();
    apply_store_update(&mut s, &view, &mut gap, &[3], Some(b"new3".to_vec())).unwrap();
    assert_eq!(gap, vec![9, 4]);
    assert_eq!(keys(&s), vec![vec![9, 3]]);
    assert_eq!(s.get(&[9, 3]).unwrap(), Some(b"new3".to_vec()));
}

#[test]
fn store_update_without_resource_keeps_nothing_new() {
    let view = [9u8];
    let mut s = filled(&[(&[9, 1], b"old1"), (&[9, 2], b"old2")]);
    let mut gap = view.to_vec();
    apply_store_update(&mut s, &view, &mut gap, &[2], None).unwrap();
    assert_eq!(keys(&s), vec![vec![9, 2]]);
    assert_eq!(s.get(&[9, 2]).unwrap(), Some(b"old2".to_vec()));
    assert_eq!(gap, vec![9, 3]);
}

#[test]
fn store_update_out_of_order() {
    let view = [9u8];
    let mut s = filled(&[(&[9, 1], b"old1")]);
    let mut gap = vec![9, 5];
    match apply_store_update(&mut s, &view, &mut gap, &[2], Some(b"x".to_vec())) {
        Err(Error::UnexpectedStreamYield { expected, actual }) => {
            assert_eq!(expected, "key lexicographically greater than the last");
            assert_eq!(actual, "key lexicographically less than the last");
        }
        other => panic!("unexpected {:?}", other),
    }
    assert_eq!(gap, vec![9, 5]);
    assert_eq!(keys(&s), vec![vec![9, 1]]);
}

#[test]
fn replace_view_gap_steps() {
    let mut s = filled(&[(&[1], b"a"), (&[2], b"b"), (&[3], b"c")]);
    let mut gap = vec![1];
    replace_view_gap(&mut s, &mut gap, &[3]).unwrap();
    assert_eq!(keys(&s), vec![vec![3]]);
    assert_eq!(gap, vec![4]);
    // a key that does not come after the gap removes nothing
    replace_view_gap(&mut s, &mut gap, &[3]).unwrap();
    assert_eq!(keys(&s), vec![vec![3]]);
    assert_eq!(gap, vec![4]);
}

#[test]
fn replacing_a_view_keeps_other_views() {
    let mut s = filled(&[
        (&[0, 9], b"other below"),
        (&[1, 1], b"old"),
        (&[1, 5], b"kept"),
        (&[1, 7], b"old"),
        (&[1, 255, 3], b"old"),
        (&[2, 0], b"other above"),
    ]);
    let view = [1u8];
    let mut gap = view.to_vec();
    replace_view_gap(&mut s, &mut gap, &[1, 5]).unwrap();
    s.insert(&[1, 5], b"new".to_vec()).unwrap();
    assert_eq!(gap, vec![1, 6]);
    replace_view_rest(&mut s, &gap, &view).unwrap();
    assert_eq!(keys(&s), vec![vec![0, 9], vec![1, 5], vec![2, 0]]);
    assert_eq!(s.get(&[1, 5]).unwrap(), Some(b"new".to_vec()));
    assert_eq!(s.get(&[0, 9]).unwrap(), Some(b"other below".to_vec()));
    assert_eq!(s.get(&[2, 0]).unwrap(), Some(b"other above".to_vec()));
}

#[test]
fn replacing_a_view_keeps_listed_keys_and_writes() {
    let mut s = filled(&[(&[1, 1], b"a"), (&[1, 3], b"b"), (&[1, 5], b"c"), (&[1, 8], b"d"), (&[2, 0], b"e")]);
    let view = [1u8];
    let mut gap = view.to_vec();
    // listed without a value: kept as it was
    replace_view_gap(&mut s, &mut gap, &[1, 3]).unwrap();
    // listed with a value: written
    replace_view_gap(&mut s, &mut gap, &[1, 5]).unwrap();
    s.insert(&[1, 5], b"new".to_vec()).unwrap();
    replace_view_rest(&mut s, &gap, &view).unwrap();
    assert_eq!(keys(&s), vec![vec![1, 3], vec![1, 5], vec![2, 0]]);
    assert_eq!(s.get(&[1, 3]).unwrap(), Some(b"b".to_vec()));
    assert_eq!(s.get(&[1, 5]).unwrap(), Some(b"new".to_vec()));
}

#[test]
fn replacing_a_view_after_its_last_key() {
    let mut s = filled(&[(&[1, 3], b"a"), (&[1, 255], b"b"), (&[2], b"c")]);
    let view = [1u8];
    let mut gap = view.to_vec();
    replace_view_gap(&mut s, &mut gap, &[1, 255]).unwrap();
    // the increment carries past the view's keys of this length
    assert_eq!(gap, vec![2, 0]);
    replace_view_rest(&mut s, &gap, &view).unwrap();
    assert_eq!(keys(&s), vec![vec![1, 255], vec![2]]);
    // a view whose key bytes are all 255 has no end: the rest reaches every later key
    let mut s = filled(&[(&[255], b"a"), (&[255, 4], b"b")]);
    replace_view_rest(&mut s, &[255, 1], &[255]).unwrap();
    assert_eq!(keys(&s), vec![vec![255]]);
}

#[test]
fn entry_times() {
    let t = next_entry_times(true, Some(1u32), true, 5).unwrap();
    assert_eq!((t.updated, t.written), (5, 1));
    let t = next_entry_times(true, Some(1u32), false, 5).unwrap();
    assert_eq!((t.updated, t.written), (5, 5));
    let t = next_entry_times(true, None::<u32>, false, 5).unwrap();
    assert_eq!((t.updated, t.written), (5, 5));
    let t = next_entry_times(false, Some(1u32), false, 5).unwrap();
    assert_eq!((t.updated, t.written), (5, 1));
    assert!(next_entry_times(false, None::<u32>, false, 5).is_none());
}

#[test]
fn store_pairs_in_key_order() {
    let s = filled(&[(b"b", b"2"), (b"a", b"1")]);
    assert_eq!(s.pairs(), vec![(b"a".to_vec(), b"1".to_vec()), (b"b".to_vec(), b"2".to_vec())]);
}
