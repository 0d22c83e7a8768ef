use external_set::ExternalSet;
use external_set::ExternalSetIter;

fn gathered(mut it: ExternalSetIter<'_, i64>) -> Vec<i64> {
    let mut items = Vec::new();
    while let Some(v) = it.next() {
        items.push(*v);
    }
    items
}

fn gathered_sorted(it: ExternalSetIter<'_, i64>) -> Vec<i64> {
    let mut items = gathered(it);
    items.sort();
    items
}

#[test]
fn membership_tracks_live_handles() {
    // After any quiescent mix of inserts, takes and discards, iteration
    // yields exactly the values of the handles still alive.
    let mut s = ExternalSet::<i64>::new(0);
    let h1 = s.insert(-5);
    let h2 = s.insert(0);
    let h3 = s.insert(17);
    let h4 = s.insert(40);

    assert_eq!(h2.take(&mut s), Some(0));
    h4.discard(&mut s);
    let h5 = s.insert(8);

    assert_eq!(gathered_sorted(s.lock().iter()), vec![-5, 8, 17]);
    assert_eq!(h1.take(&mut s), Some(-5));
    assert_eq!(h3.take(&mut s), Some(17));
    assert_eq!(h5.take(&mut s), Some(8));
    assert_eq!(gathered(s.lock().iter()), Vec::<i64>::new());
}

#[test]
fn removed_identity_never_reappears() {
    let mut s = ExternalSet::<i64>::new(0);
    let h1 = s.insert(1);
    let _h2 = s.insert(2);

    assert_eq!(h1.take(&mut s), Some(1));
    assert_eq!(gathered_sorted(s.lock().iter()), vec![2]);

    let _h3 = s.insert(3);
    let _h4 = s.insert(1);
    assert_eq!(gathered_sorted(s.lock().iter()), vec![1, 2, 3]);
    // The reinserted value 1 lives under a fresh identity: repeated passes
    // stay stable and never resurrect the taken entry as a duplicate.
    assert_eq!(gathered_sorted(s.lock().iter()), vec![1, 2, 3]);
}

#[test]
fn exclusion_is_iteration_minus_one_identity() {
    let mut s = ExternalSet::<i64>::new(0);
    let _h1 = s.insert(4);
    let h2 = s.insert(5);
    let _h3 = s.insert(5);

    // Two equal values: exclusion goes by identity, so exactly one 5 is
    // skipped.
    assert_eq!(gathered_sorted(s.lock().iter()), vec![4, 5, 5]);
    assert_eq!(gathered_sorted(s.lock().others(&h2)), vec![4, 5]);
    assert_eq!(h2.take(&mut s), Some(5));
}

#[test]
fn take_returns_the_inserted_value() {
    let mut s = ExternalSet::<i64>::new(0);
    let h1 = s.insert(1234);
    let h2 = s.insert(-77);
    let h3 = s.insert(1234);

    h2.discard(&mut s);
    let _h4 = s.insert(9);

    assert_eq!(h1.take(&mut s), Some(1234));
    assert_eq!(h3.take(&mut s), Some(1234));
}

#[test]
fn guard_pass_is_restartable() {
    let mut s = ExternalSet::<i64>::new(0);
    let _h1 = s.insert(6);
    let _h2 = s.insert(7);

    let guard = s.lock();
    let first = gathered(guard.iter());
    let second = gathered(guard.iter());
    assert_eq!(first, second);
    assert_eq!(first.len(), 2);
}

#[test]
fn empty_set_yields_nothing() {
    let s = ExternalSet::<i64>::new(0);
    assert_eq!(s.lock().iter().next(), None);
}

#[test]
fn excluding_the_only_item_yields_nothing() {
    let mut s = ExternalSet::<i64>::new(0);
    let h = s.insert(11);
    assert_eq!(s.lock().others(&h).next(), None);
    assert_eq!(h.take(&mut s), Some(11));
}

#[test]
fn handle_grants_write_access() {
    let mut s = ExternalSet::<i64>::new(0);
    let h = s.insert(5);
    if let Some(v) = h.get_mut(&mut s) {
        *v = -9;
    }
    assert_eq!(h.get(&s), Some(&-9));
    assert_eq!(gathered(s.lock().iter()), vec![-9]);
    assert_eq!(h.take(&mut s), Some(-9));

    let mut a = ExternalSet::<i64>::new(1);
    let mut b = ExternalSet::<i64>::new(2);
    let ha = a.insert(1);
    assert!(ha.get_mut(&mut b).is_none());
    assert_eq!(ha.get(&a), Some(&1));
}

#[test]
fn foreign_handle_operations_are_no_ops() {
    let mut a = ExternalSet::<i64>::new(1);
    let mut b = ExternalSet::<i64>::new(2);

    let ha = a.insert(50);
    let hb = b.insert(60);

    assert_eq!(ha.get(&b), None);
    assert_eq!(ha.take(&mut b), None);
    assert_eq!(gathered(b.lock().iter()), vec![60]);

    hb.discard(&mut a);
    assert_eq!(gathered(a.lock().iter()), vec![50]);
    assert_eq!(gathered(b.lock().iter()), vec![60]);
}
