//! The ordering indexer: rank arithmetic against the materialised
//! enumeration.

use nparty::indexer::{calculate_index, factsum, group_combos, make_combo_tree};

#[test]
fn test_calculate_index() {
    // *** First-of-the-length ***
    // Empty
    assert_eq!(calculate_index(&[], 4), 0);

    // AlpGrn
    assert_eq!(calculate_index(&[0, 1], 4), 5);

    // AlpGrnLib
    assert_eq!(calculate_index(&[0, 1, 2], 4), 17);

    // AlpGrnLibPhn
    assert_eq!(calculate_index(&[0, 1, 2, 3], 4), 41);

    // *** Last-of-the-length ***

    // PhnLib
    assert_eq!(calculate_index(&[3, 2], 4), 16);

    // PhnLibGrn
    assert_eq!(calculate_index(&[3, 2, 1], 4), 40);

    // PhnLibGrnAlp
    assert_eq!(calculate_index(&[3, 2, 1, 0], 4), 64);

    // *** In-betweens ***
}

#[test]
fn auto_combinator() {
    for groups_count in 0..10 {
        let uut = make_combo_tree(groups_count);
        for (idx, order) in uut.iter().enumerate() {
            assert_eq!(calculate_index(order, groups_count), idx);
        }
    }
}

#[test]
fn empty_ordering_ranks_first() {
    for groups_count in 0..13 {
        assert_eq!(calculate_index(&[], groups_count), 0);
    }
    // The empty ordering needs no group-count cap.
    assert_eq!(calculate_index(&[], 1_000_000), 0);
    assert_eq!(calculate_index(&[], usize::MAX), 0);
}

#[test]
fn factsum_small_values() {
    assert_eq!(factsum(0), 0);
    assert_eq!(factsum(1), 1);
    assert_eq!(factsum(2), 3);
    assert_eq!(factsum(4), 33);
}

#[test]
fn combo_labels_two_groups() {
    let labels = group_combos(&["A", "B"]);
    let expected: Vec<String> =
        vec!["None".into(), "A".into(), "B".into(), "AB".into(), "BA".into()];
    assert_eq!(labels, expected);
}

#[test]
fn combo_tree_two_groups() {
    let tree = make_combo_tree(2);
    let expected: Vec<Vec<usize>> = vec![vec![], vec![0], vec![1], vec![0, 1], vec![1, 0]];
    assert_eq!(tree, expected);
}
