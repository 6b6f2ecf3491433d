use std::cell::Cell;
use std::rc::Rc;

use gen_arena::{Arena, Idx};

#[test]
fn iter_yields_live_values_in_order() {
    let mut a: Arena<i32> = Arena::new();
    let handles: Vec<Idx> = (0..5).map(|k| a.insert(k * 10)).collect();
    a.remove(handles[1]);
    a.remove(handles[3]);
    let mut it = a.iter();
    assert_eq!(it.size_hint(), (3, Some(3)));
    assert_eq!(it.next(), Some(&0));
    assert_eq!(it.next(), Some(&20));
    assert_eq!(it.next(), Some(&40));
    assert_eq!(it.next(), None);
    assert_eq!(it.next(), None);
    assert_eq!(it.size_hint(), (0, Some(0)));
}

#[test]
fn iter_backward_yields_reverse_order() {
    let mut a: Arena<i32> = Arena::new();
    let handles: Vec<Idx> = (0..4).map(|k| a.insert(k)).collect();
    a.remove(handles[2]);
    let mut it = a.iter();
    assert_eq!(it.next_back(), Some(&3));
    assert_eq!(it.next_back(), Some(&1));
    assert_eq!(it.next_back(), Some(&0));
    assert_eq!(it.next_back(), None);
    assert_eq!(it.next_back(), None);
}

#[test]
fn iter_interleaved_ends_with_exact_size_hint() {
    let mut a: Arena<i32> = Arena::new();
    let handles: Vec<Idx> = (0..6).map(|k| a.insert(k)).collect();
    a.remove(handles[0]);
    a.remove(handles[5]);
    let mut it = a.iter();
    assert_eq!(it.size_hint(), (4, Some(4)));
    assert_eq!(it.next(), Some(&1));
    assert_eq!(it.size_hint(), (3, Some(3)));
    assert_eq!(it.next_back(), Some(&4));
    assert_eq!(it.size_hint(), (2, Some(2)));
    assert_eq!(it.next(), Some(&2));
    assert_eq!(it.size_hint(), (1, Some(1)));
    assert_eq!(it.next_back(), Some(&3));
    assert_eq!(it.size_hint(), (0, Some(0)));
    assert_eq!(it.next(), None);
    assert_eq!(it.next_back(), None);
}

#[test]
fn iter_on_empty_arena() {
    let a: Arena<i32> = Arena::new();
    let mut it = a.iter();
    assert_eq!(it.size_hint(), (0, Some(0)));
    assert_eq!(it.next(), None);
    assert_eq!(it.next_back(), None);
}

#[test]
fn iter_mut_updates_through_cursor() {
    let mut a: Arena<i32> = Arena::new();
    let handles: Vec<Idx> = (0..4).map(|k| a.insert(k)).collect();
    a.remove(handles[1]);
    let mut c = a.iter_mut();
    assert_eq!(c.size_hint(&a), (3, Some(3)));
    while let Some(v) = c.next(&mut a) {
        *v += 100;
    }
    assert_eq!(a.get(handles[0]), Some(&100));
    assert_eq!(a.get(handles[2]), Some(&102));
    assert_eq!(a.get(handles[3]), Some(&103));
    assert!(a.get(handles[1]).is_none());
    assert_eq!(a.len(), 3);
}

#[test]
fn iter_mut_backward_and_size_hint() {
    let mut a: Arena<i32> = Arena::new();
    let handles: Vec<Idx> = (0..5).map(|k| a.insert(k)).collect();
    a.remove(handles[2]);
    let mut c = a.iter_mut();
    let v = c.next_back(&mut a).unwrap();
    assert_eq!(*v, 4);
    *v = 40;
    assert_eq!(c.size_hint(&a), (3, Some(3)));
    let v = c.next(&mut a).unwrap();
    assert_eq!(*v, 0);
    *v = -1;
    assert_eq!(c.size_hint(&a), (2, Some(2)));
    assert_eq!(c.next(&mut a).map(|v| *v), Some(1));
    assert_eq!(c.next_back(&mut a).map(|v| *v), Some(3));
    assert!(c.next(&mut a).is_none());
    assert!(c.next_back(&mut a).is_none());
    assert_eq!(a.get(handles[4]), Some(&40));
    assert_eq!(a.get(handles[0]), Some(&-1));
}

#[test]
fn into_iter_moves_values_out() {
    let mut a: Arena<String> = Arena::new();
    let handles: Vec<Idx> = ["x", "y", "z"].iter().map(|s| a.insert(s.to_string())).collect();
    a.remove(handles[1]);
    let mut it = a.into_iter();
    assert_eq!(it.size_hint(), (2, Some(2)));
    assert_eq!(it.next(), Some("x".to_string()));
    assert_eq!(it.next(), Some("z".to_string()));
    assert_eq!(it.next(), None);
    assert_eq!(it.next(), None);
}

#[test]
fn into_iter_double_ended() {
    let mut a: Arena<i32> = Arena::new();
    let handles: Vec<Idx> = (0..5).map(|k| a.insert(k)).collect();
    a.remove(handles[0]);
    a.remove(handles[3]);
    let mut it = a.into_iter();
    assert_eq!(it.next_back(), Some(4));
    assert_eq!(it.size_hint(), (2, Some(2)));
    assert_eq!(it.next(), Some(1));
    assert_eq!(it.next_back(), Some(2));
    assert_eq!(it.size_hint(), (0, Some(0)));
    assert_eq!(it.next(), None);
}

struct Token {
    drops: Rc<Cell<u32>>,
}

impl Drop for Token {
    fn drop(&mut self) {
        self.drops.set(self.drops.get() + 1);
    }
}

#[test]
fn into_iter_early_drop_releases_rest_once() {
    let drops: Rc<Cell<u32>> = Rc::new(Cell::new(0));
    let mut a: Arena<Token> = Arena::new();
    let handles: Vec<Idx> = (0..4).map(|_| a.insert(Token { drops: drops.clone() })).collect();
    a.remove(handles[1]);
    assert_eq!(drops.get(), 1);
    let mut it = a.into_iter();
    let first = it.next();
    assert!(first.is_some());
    assert_eq!(drops.get(), 1);
    drop(first);
    assert_eq!(drops.get(), 2);
    drop(it);
    assert_eq!(drops.get(), 4);
}

#[test]
fn dropping_arena_releases_all_values_once() {
    let drops: Rc<Cell<u32>> = Rc::new(Cell::new(0));
    let mut a: Arena<Token> = Arena::new();
    for _ in 0..3 {
        let _ = a.insert(Token { drops: drops.clone() });
    }
    drop(a);
    assert_eq!(drops.get(), 3);
}
