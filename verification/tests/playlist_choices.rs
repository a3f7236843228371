use rust_apps::playlist::{
    build_cycle, build_cycle_with_seeds, pick_count_with_seeds, pick_random, pick_random_count,
    pick_with_seed, shuffle, shuffle_with_seed, CycleSeeds,
};

fn sorted<T: Clone + Ord>(v: &[T]) -> Vec<T> {
    let mut w = v.to_vec();
    w.sort();
    w
}

#[test]
fn shuffle_with_seed_is_fisher_yates() {
    let mut v: Vec<usize> = (0..6).collect();
    shuffle_with_seed(&mut v, 123456789);
    assert_eq!(v, vec![1, 3, 4, 2, 5, 0]);
    let mut w = vec!['a', 'b', 'c', 'd', 'e'];
    shuffle_with_seed(&mut w, 42);
    assert_eq!(w, vec!['c', 'd', 'a', 'e', 'b']);
}

#[test]
fn shuffle_keeps_the_elements() {
    let mut v: Vec<u32> = vec![5, 1, 5, 9, 2, 7, 7, 0];
    let before = sorted(&v);
    shuffle(&mut v);
    assert_eq!(sorted(&v), before);
    let mut empty: Vec<u8> = vec![];
    shuffle(&mut empty);
    assert!(empty.is_empty());
}

#[test]
fn pick_with_seed_takes_seed_modulo_length() {
    let files = ["a", "b", "c"];
    assert_eq!(pick_with_seed(&files, 7), Some(&"b"));
    assert_eq!(pick_with_seed(&files, 9), Some(&"a"));
    let none: [&str; 0] = [];
    assert_eq!(pick_with_seed(&none, 7), None);
}

#[test]
fn pick_random_takes_an_element() {
    let files = [10, 20, 30];
    let x = pick_random(&files).unwrap();
    assert!(files.contains(x));
    let none: [u8; 0] = [];
    assert!(pick_random(&none).is_none());
}

#[test]
fn pick_count_with_seeds_exact() {
    let files = [0, 1, 2, 3, 4, 5, 6];
    // count = 2 + 9 % 4 = 3; the order that seed 555 gives starts 1, 3, 5.
    let picked: Vec<i32> = pick_count_with_seeds(&files, 2, 5, 9, 555).into_iter().copied().collect();
    assert_eq!(picked, vec![1, 3, 5]);
}

#[test]
fn pick_random_count_bounds_and_distinct() {
    let files: Vec<u32> = (0..10).collect();
    for _ in 0..20 {
        let picked = pick_random_count(&files, 2, 5);
        assert!(picked.len() >= 2 && picked.len() <= 5);
        let mut values: Vec<u32> = picked.into_iter().copied().collect();
        values.sort();
        values.dedup();
        assert!(values.len() >= 2);
    }
    let few = [1, 2];
    assert_eq!(pick_random_count(&few, 3, 5).len(), 2);
    let none: [u8; 0] = [];
    assert!(pick_random_count(&none, 2, 5).is_empty());
}

#[test]
fn cycle_with_seeds_exact() {
    let truck_e = ["e0", "e1", "e2", "e3", "e4"];
    let truck_1 = ["p", "q", "r"];
    let truck_3 = ["t0", "t1", "t2", "t3", "t4", "t5", "t6"];
    let options = ["o0", "o1"];
    let seeds = CycleSeeds { order_e: 42, pick_1: 4, count_3: 9, order_3: 555, pick_option: 3 };
    let c = build_cycle_with_seeds(&truck_e, &truck_1, &truck_3, &options, &seeds);
    let tracks: Vec<&str> = c.tracks.into_iter().copied().collect();
    assert_eq!(tracks, vec!["e2", "e3", "e0", "q", "t1", "t3", "t5", "o1"]);
    assert!(c.options_included);
}

#[test]
fn cycle_without_options() {
    let truck_e = ["e0"];
    let truck_1: [&str; 0] = [];
    let truck_3 = ["t0", "t1", "t2"];
    let options: [&str; 0] = [];
    let c = build_cycle(&truck_e, &truck_1, &truck_3, &options);
    assert!(!c.options_included);
    assert_eq!(*c.tracks[0], "e0");
    assert!(c.tracks.len() >= 3 && c.tracks.len() <= 4);
}

#[test]
fn cycle_length_bounds() {
    let truck_e: Vec<u32> = (0..8).collect();
    let truck_1: Vec<u32> = (100..104).collect();
    let truck_3: Vec<u32> = (200..220).collect();
    let options: Vec<u32> = vec![300];
    for _ in 0..10 {
        let c = build_cycle(&truck_e, &truck_1, &truck_3, &options);
        assert!(c.tracks.len() >= 3 + 1 + 2 + 1 && c.tracks.len() <= 3 + 1 + 5 + 1);
        assert!(c.options_included);
        assert_eq!(**c.tracks.last().unwrap(), 300);
    }
}

#[test]
fn pick_random_count_of_nothing_ignores_bounds() {
    let none: [u8; 0] = [];
    assert!(pick_random_count(&none, 5, 2).is_empty());
    assert!(pick_count_with_seeds(&none, 5, 2, 1, 1).is_empty());
}
