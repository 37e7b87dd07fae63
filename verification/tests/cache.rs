use paint::cache::{entry_key, get, resource_key};
use paint::id::Id;
use paint::key::{Canvas, Key, SubmissionKey, View, Viewer, MAX_CANVAS_LENGTH};
use paint::resource::definitions;
use paint::store::{GlazeStore, Store, StoreName};

fn view() -> View {
    View { truth: Canvas { base_url: "https://c.test".to_string() }, viewer: Viewer::User(Id::new(3)) }
}

#[test]
fn entry_key_is_view_then_key() {
    let kb = entry_key(&view(), &Id::new(7)).unwrap();
    let mut expected = view().serialize().unwrap();
    expected.extend_from_slice(&[0, 0, 0, 0, 0, 0, 0, 7]);
    assert_eq!(kb, expected);
    assert_eq!(kb.len(), MAX_CANVAS_LENGTH + 9 + 8);
}

#[test]
fn entry_key_of_unstorable_view() {
    let bad = View { truth: Canvas { base_url: "x".repeat(100) }, viewer: Viewer::User(Id::new(1)) };
    assert!(entry_key(&bad, &Id::new(1)).is_err());
}

#[test]
fn cache_reads_what_was_written() {
    let mut store = GlazeStore::new(StoreName::Course);
    let kb = entry_key(&view(), &Id::new(7)).unwrap();
    store.insert(&kb, b"entry".to_vec()).unwrap();
    assert_eq!(get(&store, &view(), &Id::new(7)).unwrap(), Some(b"entry".to_vec()));
    assert_eq!(get(&store, &view(), &Id::new(8)).unwrap(), None);
}

#[test]
fn resource_keys_read_back() {
    let kb = entry_key(&view(), &Id::new(7)).unwrap();
    assert_eq!(resource_key::<Id>(&kb).unwrap(), Id::new(7));
    let sk = SubmissionKey::from_parts(Id::new(1), Id::new(2), Some(4));
    let kb = entry_key(&view(), &sk).unwrap();
    assert_eq!(resource_key::<SubmissionKey>(&kb).unwrap(), sk);
    assert!(resource_key::<Id>(&[1, 2, 3]).is_err());
}

#[test]
fn scanned_entries_of_a_view() {
    let mut store = GlazeStore::new(StoreName::Assignment);
    for id in [5u64, 1, 3] {
        store.insert(&entry_key(&view(), &Id::new(id)).unwrap(), vec![id as u8]).unwrap();
    }
    let other = View { truth: Canvas { base_url: "https://d.test".to_string() }, viewer: Viewer::User(Id::new(3)) };
    store.insert(&entry_key(&other, &Id::new(2)).unwrap(), vec![2]).unwrap();
    let entries = store.scan_prefix(&view().serialize().unwrap()).unwrap();
    let ids: Vec<Id> = entries.iter().map(|(k, _)| resource_key::<Id>(k).unwrap()).collect();
    assert_eq!(ids, vec![Id::new(1), Id::new(3), Id::new(5)]);
}

#[test]
fn typescript_namespace() {
    assert_eq!(definitions(&vec![]), "declare namespace Canvas {}\n");
    assert_eq!(
        definitions(&vec!["type A = 1;".to_string(), "type B = 2;".to_string()]),
        "declare namespace Canvas {type A = 1;\n\ntype B = 2;\n\n}\n"
    );
}
