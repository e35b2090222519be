//! Behavior of the append-only arena.

use sprite_atlas::arena::Arena;

#[test]
fn insert_and_get() {
    let mut arena: Arena<u64> = Arena::default();
    assert!(arena.is_empty());
    let a = arena.insert(10);
    let b = arena.insert(20);
    let c = arena.insert(30);
    assert_eq!(arena.len(), 3);
    assert!(!arena.is_empty());
    assert_eq!(arena.get(a), Some(&10));
    assert_eq!(arena.get(b), Some(&20));
    assert_eq!(arena.get(c), Some(&30));
}

#[test]
fn get_mut_updates_in_place() {
    let mut arena: Arena<String> = Arena::default();
    let idx = arena.insert("before".to_string());
    if let Some(slot) = arena.get_mut(idx) {
        *slot = "after".to_string();
    }
    assert_eq!(arena.get(idx), Some(&"after".to_string()));
}

#[test]
fn indices_stay_valid_as_the_arena_grows() {
    let mut arena: Arena<usize> = Arena::default();
    let mut indices = Vec::new();
    for v in 0..100 {
        indices.push(arena.insert(v));
    }
    for (v, idx) in indices.iter().enumerate() {
        assert_eq!(arena.get(*idx), Some(&v));
    }
}

#[test]
fn slice_and_into_inner_keep_order() {
    let mut arena: Arena<u8> = Arena::default();
    arena.insert(5);
    arena.insert(6);
    arena.insert(7);
    arena.shrink_to_fit();
    assert_eq!(arena.as_slice(), &[5, 6, 7]);
    assert_eq!(arena.into_inner(), vec![5, 6, 7]);
}

#[test]
fn iter_yields_items_with_their_indices() {
    let mut arena: Arena<char> = Arena::default();
    let ia = arena.insert('a');
    let ib = arena.insert('b');
    let mut iter = arena.iter();
    let (first_idx, first) = iter.next().unwrap();
    let (second_idx, second) = iter.next().unwrap();
    assert!(iter.next().is_none());
    assert_eq!((first_idx, *first), (ia, 'a'));
    assert_eq!((second_idx, *second), (ib, 'b'));
    assert_eq!(arena.get(first_idx), Some(&'a'));
}

#[test]
fn map_transforms_every_item_in_order() {
    let mut arena: Arena<u32> = Arena::default();
    arena.insert(1);
    arena.insert(2);
    arena.insert(3);
    let doubled = arena.map(|x| x * 2);
    assert_eq!(doubled.as_slice(), &[2, 4, 6]);
}

#[test]
fn try_map_keeps_everything_on_success() {
    let mut arena: Arena<u32> = Arena::default();
    arena.insert(4);
    arena.insert(5);
    let r: Result<Arena<u32>, String> = arena.try_map(|x| Ok(x + 1));
    assert_eq!(r.unwrap().as_slice(), &[5, 6]);
}

#[test]
fn try_map_stops_at_the_first_error() {
    let mut arena: Arena<u32> = Arena::default();
    arena.insert(4);
    arena.insert(13);
    arena.insert(6);
    let r: Result<Arena<u32>, u32> = arena.try_map(|x| if x == 13 { Err(x) } else { Ok(x) });
    assert_eq!(r.unwrap_err(), 13);
}

#[test]
fn map_ref_leaves_the_arena_usable() {
    let mut arena: Arena<u32> = Arena::default();
    let idx = arena.insert(9);
    let strings = arena.map_ref(|x| x.to_string());
    assert_eq!(strings.as_slice(), &["9".to_string()]);
    assert_eq!(arena.get(idx), Some(&9));
}
