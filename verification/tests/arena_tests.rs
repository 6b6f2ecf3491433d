use gen_arena::{Arena, Idx};

#[test]
fn new_arena_is_empty() {
    let a: Arena<i32> = Arena::new();
    assert_eq!(a.len(), 0);
}

#[test]
fn with_capacity_is_empty() {
    let a: Arena<String> = Arena::with_capacity(16);
    assert_eq!(a.len(), 0);
}

#[test]
fn round_trip_insert_get() {
    let mut a: Arena<i32> = Arena::new();
    let h = a.insert(42);
    assert_eq!(a.get(h), Some(&42));
    assert_eq!(*a.index(h), 42);
    let h2 = a.insert(7);
    assert_eq!(a.get(h2), Some(&7));
    assert_eq!(a.get(h), Some(&42));
}

#[test]
fn contains_and_get_agree() {
    let mut a: Arena<i32> = Arena::new();
    let h = a.insert(1);
    assert!(a.contains(h));
    assert!(a.get(h).is_some());
    a.remove(h);
    assert!(!a.contains(h));
    assert!(a.get(h).is_none());
}

#[test]
fn invalidation_after_remove() {
    let mut a: Arena<i32> = Arena::new();
    let h = a.insert(5);
    assert_eq!(a.remove(h), Some(5));
    assert!(!a.contains(h));
    assert!(a.get(h).is_none());
    assert!(a.get_mut(h).is_none());
    assert_eq!(a.remove(h), None);
}

#[test]
fn out_of_range_handle_is_absent() {
    let mut a: Arena<i32> = Arena::new();
    let _ = a.insert(1);
    let forged = Idx { index: 99, generation: 0 };
    assert!(!a.contains(forged));
    assert!(a.get(forged).is_none());
    assert!(a.get_mut(forged).is_none());
    assert_eq!(a.remove(forged), None);
    assert_eq!(a.len(), 1);
}

#[test]
fn vacant_slot_never_matches() {
    let mut a: Arena<i32> = Arena::new();
    let h = a.insert(1);
    a.remove(h);
    let same_slot = Idx { index: h.position(), generation: h.generation() };
    assert!(!a.contains(same_slot));
    assert!(a.get(same_slot).is_none());
}

#[test]
fn no_resurrection_after_reuse() {
    let mut a: Arena<&str> = Arena::new();
    let old = a.insert("old");
    assert_eq!(a.remove(old), Some("old"));
    let fresh = a.insert("fresh");
    assert_eq!(fresh.position(), old.position());
    assert_ne!(fresh.generation(), old.generation());
    assert!(!a.contains(old));
    assert!(a.get(old).is_none());
    assert_eq!(a.get(fresh), Some(&"fresh"));
}

#[test]
fn generation_counts_up_per_slot() {
    let mut a: Arena<i32> = Arena::new();
    let h0 = a.insert(0);
    assert_eq!(h0.generation(), 0);
    a.remove(h0);
    let h1 = a.insert(1);
    assert_eq!(h1.position(), h0.position());
    assert_eq!(h1.generation(), 1);
    a.remove(h1);
    let h2 = a.insert(2);
    assert_eq!(h2.generation(), 2);
}

#[test]
fn len_accounting_through_churn() {
    let mut a: Arena<usize> = Arena::new();
    let mut handles: Vec<Idx> = Vec::new();
    for k in 0..10usize {
        handles.push(a.insert(k));
    }
    assert_eq!(a.len(), 10);
    a.remove(handles[2]);
    a.remove(handles[5]);
    a.remove(handles[7]);
    assert_eq!(a.len(), 7);
    let mut present: usize = 0;
    for h in &handles {
        if a.get(*h).is_some() {
            present += 1;
        }
    }
    assert_eq!(a.len(), present);
    let extra = a.insert(99);
    assert_eq!(a.len(), 8);
    assert!(a.get(extra).is_some());
}

#[test]
fn free_list_reuses_last_freed_first() {
    let mut a: Arena<i32> = Arena::new();
    let h0 = a.insert(0);
    let h1 = a.insert(1);
    a.remove(h0);
    a.remove(h1);
    let r1 = a.insert(10);
    assert_eq!(r1.position(), h1.position());
    let r0 = a.insert(20);
    assert_eq!(r0.position(), h0.position());
}

#[test]
fn get_mut_updates_value() {
    let mut a: Arena<i32> = Arena::new();
    let h = a.insert(1);
    if let Some(v) = a.get_mut(h) {
        *v = 100;
    }
    assert_eq!(a.get(h), Some(&100));
    *a.index_mut(h) += 1;
    assert_eq!(*a.index(h), 101);
}

#[test]
fn scenario_insert_remove_reuse_iterate() {
    let mut a: Arena<&str> = Arena::new();
    let ha = a.insert("A");
    let hb = a.insert("B");
    let hc = a.insert("C");
    assert_eq!(a.remove(hb), Some("B"));
    assert_eq!(a.len(), 2);
    let hd = a.insert("D");
    assert_eq!(hd.position(), hb.position());
    assert_ne!(hd.generation(), hb.generation());
    assert!(a.get(hb).is_none());
    assert_eq!(a.get(hd), Some(&"D"));
    assert_eq!(a.get(ha), Some(&"A"));
    assert_eq!(a.get(hc), Some(&"C"));
    let mut it = a.iter();
    assert_eq!(it.next(), Some(&"A"));
    assert_eq!(it.next(), Some(&"D"));
    assert_eq!(it.next(), Some(&"C"));
    assert_eq!(it.next(), None);
}
