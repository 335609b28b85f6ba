use optics::{Step, Then, Traversal, VecTraversal};

fn u8_t2_plus_1(t2: &u8) -> u8 {
    *t2 + 1
}

fn u8_t2_plus_1_mut(t2: &mut u8) {
    *t2 += 1;
}

fn u8_t2_plus_1_both(t2: &mut u8) -> u8 {
    *t2 += 1;
    *t2
}

#[test]
fn test_vec_traversal_with() {
    let v = vec![0u8, 1, 2];
    let res = VecTraversal.with(&v, u8_t2_plus_1);
    assert_eq!(res, vec![1, 2, 3]);

    let v2 = vec![vec![0, 1, 2], vec![10, 11, 12]];
    let trav = Then::new(VecTraversal, VecTraversal);
    let res2 = trav.with(&v2, u8_t2_plus_1);
    assert_eq!(res2, vec![1, 2, 3, 11, 12, 13]);
}

#[test]
fn test_vec_traversal_with_mut() {
    let mut v = vec![0u8, 1, 2];
    // only the first result is pulled, so only the first target changes
    let res = VecTraversal.with_mut(&mut v, u8_t2_plus_1_mut, 1);
    assert_eq!(res, vec![()]);
    assert_eq!(
        v,
        vec![
            // changed value, from 0 to 1
            1, //
            // old values
            1, 2
        ]
    );

    let mut v2 = vec![vec![0, 1, 2], vec![10, 11, 12]];
    let trav = Then::new(VecTraversal, VecTraversal);
    // only the first 4 results are pulled
    let res2 = trav.with_mut(&mut v2, u8_t2_plus_1_mut, 4);
    assert_eq!(res2.len(), 4);
    assert_eq!(
        v2,
        // changed values
        vec![
            vec![1, 2, 3],
            vec![
                11, // still changed value
                // old values
                11, 12
            ],
        ]
    );
}

#[test]
fn leaf_read_with_identity_gives_the_elements() {
    let v = vec![7u8, 3, 9, 3];
    let res = VecTraversal.with(&v, |t: &u8| *t);
    assert_eq!(res, v);
}

#[test]
fn leaf_read_leaves_the_source_alone() {
    let v = vec![0u8, 1, 2];
    let _ = VecTraversal.with(&v, u8_t2_plus_1);
    assert_eq!(v, vec![0, 1, 2]);
}

#[test]
fn leaf_mutate_returns_one_result_per_pull() {
    let mut v = vec![0u8, 1, 2];
    let res = VecTraversal.with_mut(&mut v, u8_t2_plus_1_both, 2);
    assert_eq!(res, vec![1, 2]);
    assert_eq!(v, vec![1, 2, 2]);
}

#[test]
fn zero_pulls_change_nothing() {
    let mut v = vec![0u8, 1, 2];
    let res = VecTraversal.with_mut(&mut v, u8_t2_plus_1_both, 0);
    assert!(res.is_empty());
    assert_eq!(v, vec![0, 1, 2]);

    let mut v2 = vec![vec![0u8, 1], vec![2]];
    let trav = Then::new(VecTraversal, VecTraversal);
    let res2 = trav.with_mut(&mut v2, u8_t2_plus_1_both, 0);
    assert!(res2.is_empty());
    assert_eq!(v2, vec![vec![0, 1], vec![2]]);
}

#[test]
fn more_pulls_than_targets_reach_every_target_once() {
    let mut v = vec![0u8, 1, 2];
    let res = VecTraversal.with_mut(&mut v, u8_t2_plus_1_both, 10);
    assert_eq!(res, vec![1, 2, 3]);
    assert_eq!(v, vec![1, 2, 3]);

    let mut v2 = vec![vec![0u8, 1, 2], vec![10, 11, 12]];
    let trav = Then::new(VecTraversal, VecTraversal);
    let res2 = trav.with_mut(&mut v2, u8_t2_plus_1_both, usize::MAX);
    assert_eq!(res2, vec![1, 2, 3, 11, 12, 13]);
    assert_eq!(v2, vec![vec![1, 2, 3], vec![11, 12, 13]]);
}

#[test]
fn composed_mutate_stops_at_a_row_boundary() {
    let mut v2 = vec![vec![0u8, 1, 2], vec![10, 11, 12]];
    let trav = Then::new(VecTraversal, VecTraversal);
    let res = trav.with_mut(&mut v2, u8_t2_plus_1_both, 3);
    assert_eq!(res, vec![1, 2, 3]);
    assert_eq!(v2, vec![vec![1, 2, 3], vec![10, 11, 12]]);
}

#[test]
fn composed_mutate_skips_empty_rows() {
    let mut v2 = vec![vec![], vec![5u8], vec![], vec![6, 7]];
    let trav = Then::new(VecTraversal, VecTraversal);
    let res = trav.with_mut(&mut v2, u8_t2_plus_1_both, 2);
    assert_eq!(res, vec![6, 7]);
    assert_eq!(v2, vec![vec![], vec![6], vec![], vec![7, 7]]);
}

#[test]
fn empty_sources_yield_nothing() {
    let empty: Vec<u8> = Vec::new();
    assert!(VecTraversal.with(&empty, u8_t2_plus_1).is_empty());

    let mut empty_mut: Vec<u8> = Vec::new();
    assert!(VecTraversal.with_mut(&mut empty_mut, u8_t2_plus_1_both, 5).is_empty());
    assert!(empty_mut.is_empty());

    let trav = Then::new(VecTraversal, VecTraversal);
    let no_rows: Vec<Vec<u8>> = Vec::new();
    assert!(trav.with(&no_rows, u8_t2_plus_1).is_empty());

    let mut empty_rows: Vec<Vec<u8>> = vec![vec![], vec![], vec![]];
    assert!(trav.with(&empty_rows, u8_t2_plus_1).is_empty());
    assert!(trav.with_mut(&mut empty_rows, u8_t2_plus_1_both, 5).is_empty());
    assert_eq!(empty_rows, vec![Vec::<u8>::new(), vec![], vec![]]);
}

#[test]
fn pull_at_a_position_in_a_vector() {
    let mut v = vec![0u8, 1, 2];
    match VecTraversal.with_mut_at(&mut v, 1, u8_t2_plus_1_both) {
        Step::Found(w) => assert_eq!(w, 2),
        Step::Beyond(_) => panic!("position 1 holds a target"),
    }
    assert_eq!(v, vec![0, 2, 2]);

    match VecTraversal.with_mut_at(&mut v, 3, u8_t2_plus_1_both) {
        Step::Found(_) => panic!("position 3 holds no target"),
        Step::Beyond(past) => assert_eq!(past, 0),
    }
    match VecTraversal.with_mut_at(&mut v, 8, u8_t2_plus_1_both) {
        Step::Found(_) => panic!("position 8 holds no target"),
        Step::Beyond(past) => assert_eq!(past, 5),
    }
    assert_eq!(v, vec![0, 2, 2]);
}

#[test]
fn pull_at_a_position_in_nested_vectors() {
    let trav = Then::new(VecTraversal, VecTraversal);
    let mut v2 = vec![vec![0u8, 1, 2], vec![], vec![10, 11, 12]];
    match trav.with_mut_at(&mut v2, 4, u8_t2_plus_1_both) {
        Step::Found(w) => assert_eq!(w, 12),
        Step::Beyond(_) => panic!("position 4 holds a target"),
    }
    assert_eq!(v2, vec![vec![0, 1, 2], vec![], vec![10, 12, 12]]);

    match trav.with_mut_at(&mut v2, 0, u8_t2_plus_1_both) {
        Step::Found(w) => assert_eq!(w, 1),
        Step::Beyond(_) => panic!("position 0 holds a target"),
    }
    match trav.with_mut_at(&mut v2, 6, u8_t2_plus_1_both) {
        Step::Found(_) => panic!("position 6 holds no target"),
        Step::Beyond(past) => assert_eq!(past, 0),
    }
    match trav.with_mut_at(&mut v2, 9, u8_t2_plus_1_both) {
        Step::Found(_) => panic!("position 9 holds no target"),
        Step::Beyond(past) => assert_eq!(past, 3),
    }
    assert_eq!(v2, vec![vec![1, 1, 2], vec![], vec![10, 12, 12]]);
}

#[test]
fn composition_is_associative_on_three_levels() {
    let v3 = vec![
        vec![vec![1u8, 2], vec![]],
        vec![],
        vec![vec![3], vec![4, 5, 6]],
    ];
    let left_first = Then::new(Then::new(VecTraversal, VecTraversal), VecTraversal);
    let right_first = Then::new(VecTraversal, Then::new(VecTraversal, VecTraversal));
    let a = left_first.with(&v3, u8_t2_plus_1);
    let b = right_first.with(&v3, u8_t2_plus_1);
    assert_eq!(a, vec![2, 3, 4, 5, 6, 7]);
    assert_eq!(a, b);

    let mut m1 = v3.clone();
    let mut m2 = v3.clone();
    let r1 = left_first.with_mut(&mut m1, u8_t2_plus_1_both, 4);
    let r2 = right_first.with_mut(&mut m2, u8_t2_plus_1_both, 4);
    assert_eq!(r1, vec![2, 3, 4, 5]);
    assert_eq!(r1, r2);
    assert_eq!(m1, vec![vec![vec![2, 3], vec![]], vec![], vec![vec![4], vec![5, 5, 6]]]);
    assert_eq!(m1, m2);
}

#[test]
fn composed_traversals_clone_and_compare() {
    let trav: Then<VecTraversal, VecTraversal, Vec<u8>> = Then::new(VecTraversal, VecTraversal);
    let clone = trav.clone();
    assert!(clone == trav);
    let v2 = vec![vec![1u8], vec![2, 3]];
    assert_eq!(clone.with(&v2, u8_t2_plus_1), vec![2, 3, 4]);
}

#[test]
fn concat_lays_batches_end_to_end() {
    let batches = vec![vec![1u8, 2], vec![], vec![3], vec![4, 5]];
    assert_eq!(optics::flat::concat(batches), vec![1, 2, 3, 4, 5]);
    let none: Vec<Vec<u8>> = Vec::new();
    assert!(optics::flat::concat(none).is_empty());
}
