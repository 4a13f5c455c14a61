use disjoint_set::DisjointSet;

#[test]
fn new_structure_knows_no_element() {
    let mut set: DisjointSet<u32> = DisjointSet::new();
    assert_eq!(set.find(0), None);
    assert_eq!(set.find(1), None);
    assert_eq!(set.union(0, 1), None);
    assert_eq!(set.rank(&0), None);
    assert_eq!(set.parent(&0), None);
}

#[test]
fn make_set_then_find_returns_the_value() {
    let mut set = DisjointSet::new();
    for value in [7u32, 0, 42, u32::MAX] {
        set.make_set(value);
        assert_eq!(set.find(value), Some(value));
    }
}

#[test]
fn new_singleton_has_rank_zero_and_no_parent() {
    let mut set = DisjointSet::new();
    set.make_set(5u64);
    assert_eq!(set.rank(&5), Some(0));
    assert_eq!(set.parent(&5), None);
}

#[test]
fn find_of_unregistered_value_is_none() {
    let mut set = DisjointSet::new();
    assert_eq!(set.find(1u32), None);
    set.make_set(1);
    assert_eq!(set.find(2), None);
    assert_eq!(set.find(1), Some(1));
    set.make_set(3);
    set.union(1, 3);
    assert_eq!(set.find(2), None);
}

#[test]
fn union_with_unregistered_first_value_is_none() {
    let mut set = DisjointSet::new();
    set.make_set(1u32);
    assert_eq!(set.union(9, 1), None);
    assert_eq!(set.find(1), Some(1));
    assert_eq!(set.find(9), None);
}

#[test]
fn union_with_unregistered_second_value_is_none() {
    let mut set = DisjointSet::new();
    set.make_set(1u32);
    assert_eq!(set.union(1, 9), None);
    assert_eq!(set.find(1), Some(1));
    assert_eq!(set.find(9), None);
}

#[test]
fn union_with_unregistered_value_keeps_the_sets() {
    let mut set = DisjointSet::new();
    for value in 1..=4u32 {
        set.make_set(value);
    }
    set.union(1, 2);
    set.union(3, 4);
    assert_eq!(set.union(2, 9), None);
    assert_eq!(set.union(9, 4), None);
    assert_eq!(set.find(1), Some(1));
    assert_eq!(set.find(2), Some(1));
    assert_eq!(set.find(3), Some(3));
    assert_eq!(set.find(4), Some(3));
    assert_eq!(set.rank(&1), Some(1));
    assert_eq!(set.rank(&3), Some(1));
}

#[test]
fn rank_tie_attaches_second_root_under_first() {
    let mut set = DisjointSet::new();
    set.make_set(1);
    set.make_set(2);
    assert_eq!(set.union(1, 2), Some(2));
    assert_eq!(set.find(1), Some(1));
    assert_eq!(set.find(2), Some(1));
    assert_eq!(set.rank(&1), Some(1));
    assert_eq!(set.rank(&2), Some(0));
    assert_eq!(set.parent(&2), Some(1));
    assert_eq!(set.parent(&1), None);
}

#[test]
fn rank_tie_in_other_order_attaches_under_first_argument() {
    let mut set = DisjointSet::new();
    set.make_set(1);
    set.make_set(2);
    assert_eq!(set.union(2, 1), Some(1));
    assert_eq!(set.find(1), Some(2));
    assert_eq!(set.find(2), Some(2));
    assert_eq!(set.rank(&2), Some(1));
    assert_eq!(set.rank(&1), Some(0));
}

#[test]
fn lower_rank_root_is_absorbed_when_first() {
    let mut set = DisjointSet::new();
    for value in 1..=3u32 {
        set.make_set(value);
    }
    assert_eq!(set.union(1, 2), Some(2));
    // 3 has rank 0, 1 has rank 1: 3 goes under 1 whatever the order.
    assert_eq!(set.union(3, 1), Some(3));
    assert_eq!(set.find(3), Some(1));
    assert_eq!(set.rank(&1), Some(1));
    assert_eq!(set.parent(&3), Some(1));
}

#[test]
fn lower_rank_root_is_absorbed_when_second() {
    let mut set = DisjointSet::new();
    for value in 1..=3u32 {
        set.make_set(value);
    }
    assert_eq!(set.union(1, 2), Some(2));
    assert_eq!(set.union(1, 3), Some(3));
    assert_eq!(set.find(3), Some(1));
    assert_eq!(set.rank(&1), Some(1));
    assert_eq!(set.parent(&3), Some(1));
}

#[test]
fn union_goes_through_the_roots_of_its_arguments() {
    let mut set = DisjointSet::new();
    for value in 1..=4u32 {
        set.make_set(value);
    }
    assert_eq!(set.union(1, 2), Some(2));
    assert_eq!(set.union(3, 4), Some(4));
    // The arguments are the children; the roots 1 and 3 tie at rank 1.
    assert_eq!(set.union(2, 4), Some(3));
    assert_eq!(set.rank(&1), Some(2));
    assert_eq!(set.rank(&3), Some(1));
    for value in 1..=4u32 {
        assert_eq!(set.find(value), Some(1));
    }
}

#[test]
fn chained_unions_share_one_representative() {
    let mut set = DisjointSet::new();
    set.make_set(1);
    set.make_set(2);
    set.make_set(3);
    assert_eq!(set.union(1, 2), Some(2));
    assert_eq!(set.union(2, 3), Some(3));
    let one = set.find(1);
    let two = set.find(2);
    let three = set.find(3);
    assert_eq!(one, Some(1));
    assert_eq!(one, two);
    assert_eq!(two, three);
    assert_eq!(set.parent(&3), one);
    assert_eq!(set.find(3), one);
    assert_eq!(set.parent(&3), one);
}

#[test]
fn union_of_merged_values_returns_the_representative() {
    let mut set = DisjointSet::new();
    set.make_set(1);
    set.make_set(2);
    set.union(1, 2);
    assert_eq!(set.union(1, 2), Some(1));
    assert_eq!(set.union(2, 1), Some(1));
    assert_eq!(set.rank(&1), Some(1));
    assert_eq!(set.parent(&2), Some(1));
}

#[test]
fn union_of_a_value_with_itself_changes_nothing() {
    let mut set = DisjointSet::new();
    set.make_set(1);
    set.make_set(2);
    assert_eq!(set.union(1, 1), Some(1));
    assert_eq!(set.rank(&1), Some(0));
    assert_eq!(set.parent(&1), None);
    set.union(1, 2);
    let before = set.find(2);
    assert_eq!(set.union(2, 2), before);
    assert_eq!(set.find(2), before);
    assert_eq!(set.rank(&1), Some(1));
    assert_eq!(set.rank(&2), Some(0));
    assert_eq!(set.find(1), Some(1));
}
