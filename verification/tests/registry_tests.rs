use host_exposer::registry::{ConnectionHandle, Registry};

fn handle(id: u128) -> ConnectionHandle {
    // The peer halves drop here: the registry's bookkeeping never touches
    // the pipes, so closed pipes serve these tests.
    let (tx, _out) = tokio::sync::mpsc::unbounded_channel::<String>();
    let (_in_tx, rx) = tokio::sync::mpsc::unbounded_channel::<String>();
    ConnectionHandle::new(id, tx, rx)
}

fn snapshot_sorted(r: &Registry) -> Vec<u128> {
    let mut ids = r.snapshot_identities();
    ids.sort();
    ids
}

#[test]
fn snapshot_tracks_inserts_and_removes() {
    let mut r = Registry::new();
    assert!(snapshot_sorted(&r).is_empty());
    r.insert(handle(1));
    r.insert(handle(2));
    r.insert(handle(3));
    assert_eq!(snapshot_sorted(&r), vec![1, 2, 3]);
    r.remove(2);
    assert_eq!(snapshot_sorted(&r), vec![1, 3]);
    r.insert(handle(2));
    r.remove(1);
    r.remove(3);
    assert_eq!(snapshot_sorted(&r), vec![2]);
    r.remove(2);
    assert!(snapshot_sorted(&r).is_empty());
}

#[test]
fn snapshot_is_the_set_of_admitted_not_removed_for_an_interleaving() {
    // insert 1, insert 2, remove 1, insert 3, insert 1, remove 2
    let mut r = Registry::new();
    r.insert(handle(1));
    r.insert(handle(2));
    r.remove(1);
    r.insert(handle(3));
    r.insert(handle(1));
    r.remove(2);
    assert_eq!(snapshot_sorted(&r), vec![1, 3]);
}

#[test]
fn reinserting_an_identity_keeps_one_entry() {
    let mut r = Registry::new();
    r.insert(handle(7));
    r.insert(handle(7));
    assert_eq!(r.len(), 1);
    assert_eq!(snapshot_sorted(&r), vec![7]);
    r.remove(7);
    assert!(snapshot_sorted(&r).is_empty());
}

#[test]
fn removing_an_absent_identity_is_a_no_op() {
    let mut r = Registry::new();
    r.insert(handle(5));
    r.remove(42);
    assert_eq!(snapshot_sorted(&r), vec![5]);
    let mut empty = Registry::new();
    empty.remove(1);
    assert!(snapshot_sorted(&empty).is_empty());
}

#[test]
fn contains_and_len_follow_the_table() {
    let mut r = Registry::new();
    assert!(!r.contains(9));
    assert_eq!(r.len(), 0);
    r.insert(handle(9));
    assert!(r.contains(9));
    assert!(!r.contains(10));
    assert_eq!(r.len(), 1);
}

#[test]
fn take_removes_and_returns_the_handle() {
    let mut r = Registry::new();
    r.insert(handle(11));
    r.insert(handle(12));
    let h = r.take(11).expect("admitted identity must be takeable");
    assert_eq!(h.id, 11);
    assert_eq!(snapshot_sorted(&r), vec![12]);
    assert!(r.take(11).is_none());
    r.insert(h);
    assert_eq!(snapshot_sorted(&r), vec![11, 12]);
}
