use external_set::ExternalSet;
use external_set::ExternalSetIter;

fn collected(mut it: ExternalSetIter<'_, u32>) -> Vec<u32> {
    let mut items = Vec::new();
    while let Some(v) = it.next() {
        items.push(*v);
    }
    items
}

fn collected_sorted(it: ExternalSetIter<'_, u32>) -> Vec<u32> {
    let mut items = collected(it);
    items.sort();
    items
}

#[test]
fn test1() {
    let mut c = ExternalSet::<u32>::new(0);
    let i1 = c.insert(1);
    let i2 = c.insert(2);
    let i3 = c.insert(3);

    let items = collected_sorted(c.lock().iter());
    assert_eq!(items, vec![1, 2, 3]);

    let items = collected_sorted(c.lock().others(&i1));
    assert_eq!(items, vec![2, 3]);

    assert_eq!(i2.take(&mut c), Some(2));

    let items = collected_sorted(c.lock().iter());
    assert_eq!(items, vec![1, 3]);

    assert_eq!(i1.get(&c), Some(&1));

    i1.discard(&mut c);
    i3.discard(&mut c);

    assert_eq!(collected(c.lock().iter()).len(), 0);
}

#[test]
fn insert_take_iteration() {
    let mut s = ExternalSet::<u32>::new(7);
    let _h1 = s.insert(1);
    let h2 = s.insert(2);
    let _h3 = s.insert(3);

    assert_eq!(collected_sorted(s.lock().iter()), vec![1, 2, 3]);
    assert_eq!(h2.take(&mut s), Some(2));
    assert_eq!(collected_sorted(s.lock().iter()), vec![1, 3]);
}

#[test]
fn others_skips_own_item() {
    let mut s = ExternalSet::<u32>::new(7);
    let h1 = s.insert(1);
    let _h2 = s.insert(2);
    let _h3 = s.insert(3);

    assert_eq!(collected_sorted(s.lock().others(&h1)), vec![2, 3]);
}

#[test]
fn get_unchanged_by_unrelated_removal() {
    let mut s = ExternalSet::<u32>::new(7);
    let h1 = s.insert(1);
    let h2 = s.insert(2);

    assert_eq!(h1.get(&s), Some(&1));
    assert_eq!(h2.take(&mut s), Some(2));
    assert_eq!(h1.get(&s), Some(&1));
}

#[test]
fn discarding_every_handle_empties_the_set() {
    let mut s = ExternalSet::<u32>::new(7);
    let h1 = s.insert(10);
    let h2 = s.insert(20);
    let h3 = s.insert(30);

    h1.discard(&mut s);
    h2.discard(&mut s);
    h3.discard(&mut s);

    assert_eq!(collected(s.lock().iter()).len(), 0);
}

#[test]
fn cross_set_exclusion_filters_nothing() {
    let mut a = ExternalSet::<u32>::new(1);
    let mut b = ExternalSet::<u32>::new(2);

    let h = a.insert(99);
    let _b1 = b.insert(4);
    let _b2 = b.insert(5);

    assert_eq!(collected_sorted(b.lock().others(&h)), vec![4, 5]);
    assert_eq!(h.take(&mut a), Some(99));
}

#[test]
fn cross_set_exclusion_with_colliding_tokens() {
    // Both handles are the first their set issued; only the set identifier
    // tells them apart, and it must.
    let mut a = ExternalSet::<u32>::new(1);
    let mut b = ExternalSet::<u32>::new(2);

    let ha = a.insert(99);
    let hb = b.insert(4);
    let _b2 = b.insert(5);

    assert_eq!(collected_sorted(b.lock().others(&ha)), vec![4, 5]);
    assert_eq!(collected_sorted(b.lock().others(&hb)), vec![5]);
    ha.discard(&mut a);
}
