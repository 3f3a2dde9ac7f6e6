use bfvm::pairings::compute_pairings;

#[test]
fn two_teams_make_one_pairing() {
    assert_eq!(compute_pairings(2), vec![vec![0u8, 1]]);
}

#[test]
fn four_teams_make_three_pairings() {
    assert_eq!(
        compute_pairings(4),
        vec![vec![0u8, 1, 2, 3], vec![0, 2, 1, 3], vec![0, 3, 1, 2]]
    );
}

#[test]
fn six_teams_make_fifteen_pairings() {
    let res = compute_pairings(6);
    assert_eq!(res.len(), 15);
    assert_eq!(res[0], vec![0u8, 1, 2, 3, 4, 5]);
    assert_eq!(res[14], vec![0u8, 5, 1, 4, 2, 3]);
}

#[test]
fn odd_team_counts_have_no_pairing() {
    assert!(compute_pairings(1).is_empty());
    assert!(compute_pairings(3).is_empty());
}
