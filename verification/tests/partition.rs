use disjoint_set::DisjointSet;

fn representatives(set: &mut DisjointSet<u32>, values: &[u32]) -> Vec<u32> {
    let mut found = Vec::new();
    for value in values {
        if let Some(root) = set.find(*value) {
            if !found.contains(&root) {
                found.push(root);
            }
        }
    }
    found
}

// A small linear congruential generator, for repeatable pseudo-random pairs.
fn next(state: &mut u64) -> u32 {
    *state = state.wrapping_mul(6364136223846793005).wrapping_add(1442695040888963407);
    (*state >> 33) as u32
}

#[test]
fn merged_values_stay_merged() {
    let mut set = DisjointSet::new();
    for value in 0..10u32 {
        set.make_set(value);
    }
    set.union(3, 7);
    for pair in [(0, 1), (2, 4), (1, 2), (5, 6), (8, 9), (6, 8), (0, 9)] {
        set.union(pair.0, pair.1);
        assert_eq!(set.find(3), set.find(7));
    }
    for pair in [(3, 0), (7, 5)] {
        set.union(pair.0, pair.1);
        assert_eq!(set.find(3), set.find(7));
    }
    set.make_set(10);
    set.union(10, 7);
    assert_eq!(set.find(3), set.find(7));
    assert_eq!(set.find(3), set.find(10));
}

#[test]
fn number_of_sets_is_bounded_by_registrations() {
    let mut set = DisjointSet::new();
    let mut values = Vec::new();
    assert_eq!(representatives(&mut set, &values).len(), 0);
    for value in 0..6u32 {
        set.make_set(value);
        values.push(value);
        assert_eq!(representatives(&mut set, &values).len(), values.len());
    }
}

#[test]
fn union_of_different_sets_leaves_one_set_fewer() {
    let mut set = DisjointSet::new();
    let values: Vec<u32> = (0..6).collect();
    for value in &values {
        set.make_set(*value);
    }
    let mut count = 6;
    for pair in [(0, 1), (2, 3), (1, 3), (4, 5), (5, 0)] {
        assert_ne!(set.find(pair.0), set.find(pair.1));
        assert!(set.union(pair.0, pair.1).is_some());
        count -= 1;
        assert_eq!(representatives(&mut set, &values).len(), count);
    }
    assert_eq!(count, 1);
}

#[test]
fn union_within_a_set_or_with_unknown_values_keeps_the_number_of_sets() {
    let mut set = DisjointSet::new();
    let values: Vec<u32> = (0..4).collect();
    for value in &values {
        set.make_set(*value);
    }
    set.union(0, 1);
    assert_eq!(representatives(&mut set, &values).len(), 3);
    set.union(1, 0);
    set.union(1, 1);
    set.union(2, 2);
    set.union(0, 77);
    set.union(77, 3);
    set.union(77, 78);
    assert_eq!(representatives(&mut set, &values).len(), 3);
}

#[test]
fn union_returns_a_representative_that_is_absorbed() {
    let mut set = DisjointSet::new();
    let values: Vec<u32> = (0..16).collect();
    for value in &values {
        set.make_set(*value);
    }
    let mut state = 7u64;
    for _ in 0..40 {
        let a = next(&mut state) % 16;
        let b = next(&mut state) % 16;
        let root_a = set.find(a).unwrap();
        let root_b = set.find(b).unwrap();
        let absorbed = set.union(a, b).unwrap();
        if root_a == root_b {
            assert_eq!(absorbed, root_a);
            assert_eq!(set.find(a), Some(root_a));
        } else {
            assert!(absorbed == root_a || absorbed == root_b);
            let kept = if absorbed == root_a { root_b } else { root_a };
            assert_eq!(set.find(a), Some(kept));
            assert_eq!(set.find(b), Some(kept));
            assert_eq!(set.find(absorbed), Some(kept));
            assert_eq!(set.parent(&absorbed), Some(kept));
        }
    }
}

#[test]
fn agrees_with_a_table_of_labels() {
    let size = 64u32;
    let mut set = DisjointSet::new();
    let mut label: Vec<u32> = (0..size).collect();
    for value in 0..size {
        set.make_set(value);
    }
    let mut state = 2024u64;
    for _ in 0..200 {
        let a = next(&mut state) % size;
        let b = next(&mut state) % size;
        if next(&mut state) % 3 == 0 {
            set.find(a);
        } else {
            set.union(a, b);
            let (from, to) = (label[a as usize], label[b as usize]);
            for entry in label.iter_mut() {
                if *entry == from {
                    *entry = to;
                }
            }
        }
        for x in 0..size {
            let y = next(&mut state) % size;
            let together = set.find(x) == set.find(y);
            assert_eq!(together, label[x as usize] == label[y as usize]);
        }
    }
}

#[test]
fn ranks_stay_below_the_number_of_elements_and_grow_towards_the_root() {
    let size = 32u32;
    let mut set = DisjointSet::new();
    for value in 0..size {
        set.make_set(value);
    }
    let mut state = 99u64;
    for _ in 0..300 {
        let a = next(&mut state) % size;
        let b = next(&mut state) % size;
        match next(&mut state) % 4 {
            0 => set.make_set(a),
            1 => {
                set.find(a);
            }
            _ => {
                set.union(a, b);
            }
        }
        for x in 0..size {
            let rank = set.rank(&x).unwrap();
            assert!(rank < size as usize);
            if let Some(parent) = set.parent(&x) {
                assert!(rank < set.rank(&parent).unwrap());
            }
        }
    }
}

#[test]
fn a_registered_value_is_alone_whatever_came_before() {
    let size = 24u32;
    let mut set = DisjointSet::new();
    for value in 0..size {
        set.make_set(value);
    }
    let mut state = 5u64;
    for round in 0..200 {
        let a = next(&mut state) % size;
        let b = next(&mut state) % size;
        if round % 5 == 4 {
            set.make_set(a);
            assert_eq!(set.find(a), Some(a));
            assert_eq!(set.rank(&a), Some(0));
            for x in 0..size {
                if x != a {
                    assert_ne!(set.find(x), Some(a));
                    assert_ne!(set.parent(&x), Some(a));
                }
            }
        } else {
            set.union(a, b);
            assert_eq!(set.find(a), set.find(b));
        }
    }
}

#[test]
fn handles_many_elements() {
    let size = 20_000u32;
    let mut set = DisjointSet::new();
    for value in 0..size {
        set.make_set(value);
    }
    for value in 1..size {
        assert!(set.union(value - 1, value).is_some());
    }
    let root = set.find(0);
    assert_eq!(root, Some(0));
    for value in 0..size {
        assert_eq!(set.find(value), root);
    }
    assert_eq!(set.rank(&0), Some(1));
}

#[test]
fn balanced_merges_raise_the_rank_by_one_per_round() {
    let size = 1024u32;
    let mut set = DisjointSet::new();
    for value in 0..size {
        set.make_set(value);
    }
    let mut step = 1;
    let mut rounds = 0;
    while step < size {
        let mut value = 0;
        while value + step < size {
            assert_eq!(set.union(value, value + step), Some(value + step));
            value += 2 * step;
        }
        step *= 2;
        rounds += 1;
        assert_eq!(set.rank(&0), Some(rounds));
    }
    assert_eq!(rounds, 10);
    for value in 0..size {
        assert_eq!(set.find(value), Some(0));
    }
}
