use disjoint_set::DisjointSet;

#[test]
fn registering_twice_in_a_row_leaves_a_singleton() {
    let mut set = DisjointSet::new();
    set.make_set(1u8);
    set.make_set(1u8);
    assert_eq!(set.find(1), Some(1));
    assert_eq!(set.rank(&1), Some(0));
    assert_eq!(set.parent(&1), None);
}

#[test]
fn registering_a_child_again_takes_it_out_of_its_set() {
    let mut set = DisjointSet::new();
    set.make_set(1);
    set.make_set(2);
    set.union(1, 2);
    assert_eq!(set.find(2), Some(1));
    set.make_set(2);
    assert_eq!(set.find(2), Some(2));
    assert_eq!(set.find(1), Some(1));
    assert_eq!(set.parent(&2), None);
    // The root it left keeps its rank.
    assert_eq!(set.rank(&1), Some(1));
}

#[test]
fn registering_a_root_again_resets_its_rank_and_frees_its_children() {
    let mut set = DisjointSet::new();
    for value in 1..=3u32 {
        set.make_set(value);
    }
    set.union(1, 2);
    set.union(1, 3);
    set.make_set(1);
    assert_eq!(set.rank(&1), Some(0));
    assert_eq!(set.find(1), Some(1));
    assert_eq!(set.find(2), Some(2));
    assert_eq!(set.find(3), Some(3));
    assert_eq!(set.parent(&2), None);
    assert_eq!(set.parent(&3), None);
}

#[test]
fn registering_an_inner_element_again_splits_the_tree_below_it() {
    let mut set = DisjointSet::new();
    for value in 1..=4u32 {
        set.make_set(value);
    }
    set.union(1, 2);
    set.union(3, 4);
    set.union(1, 3);
    // 4 -> 3 -> 1 <- 2
    set.make_set(3);
    assert_eq!(set.find(3), Some(3));
    assert_eq!(set.rank(&3), Some(0));
    assert_eq!(set.find(4), Some(4));
    assert_eq!(set.find(2), Some(1));
    assert_eq!(set.find(1), Some(1));
    assert_eq!(set.rank(&1), Some(2));
}

#[test]
fn a_reset_element_can_be_merged_again() {
    let mut set = DisjointSet::new();
    for value in 1..=3u32 {
        set.make_set(value);
    }
    set.union(1, 2);
    set.make_set(2);
    assert_eq!(set.union(2, 3), Some(3));
    assert_eq!(set.find(3), Some(2));
    assert_eq!(set.find(1), Some(1));
    // 1 kept rank 1, the tree of 2 has rank 1 as well: a tie.
    assert_eq!(set.union(2, 1), Some(1));
    assert_eq!(set.find(1), Some(2));
    assert_eq!(set.rank(&2), Some(2));
}

#[test]
fn freed_children_keep_their_own_subtrees() {
    let mut set = DisjointSet::new();
    for value in 1..=4u32 {
        set.make_set(value);
    }
    set.union(1, 2);
    set.union(3, 4);
    set.union(1, 3);
    // 4 -> 3 -> 1 <- 2
    set.make_set(1);
    assert_eq!(set.find(1), Some(1));
    assert_eq!(set.find(2), Some(2));
    assert_eq!(set.find(3), Some(3));
    assert_eq!(set.find(4), Some(3));
    assert_eq!(set.rank(&3), Some(1));
}

#[test]
fn elements_can_be_strings() {
    let mut set = DisjointSet::new();
    set.make_set(String::from("oak"));
    set.make_set(String::from("elm"));
    set.make_set(String::from("fir"));
    assert_eq!(set.find(String::from("ash")), None);
    assert_eq!(set.union(String::from("oak"), String::from("elm")), Some(String::from("elm")));
    assert_eq!(set.find(String::from("elm")), Some(String::from("oak")));
    assert_eq!(set.find(String::from("fir")), Some(String::from("fir")));
    assert_eq!(set.parent(&String::from("elm")), Some(String::from("oak")));
}

#[test]
fn elements_can_be_pairs() {
    let mut set = DisjointSet::new();
    set.make_set((0i32, 1i32));
    set.make_set((1, 0));
    assert_eq!(set.union((1, 0), (0, 1)), Some((0, 1)));
    assert_eq!(set.find((0, 1)), Some((1, 0)));
}
