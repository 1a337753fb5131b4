use trueskill::combinations::combinations;
use trueskill::matchmaking::candidate_splits;
use trueskill::matchmaking::pick_best;

#[test]
fn combinations_of_four_choose_two() {
    let expected: Vec<Vec<usize>> = vec![
        vec![0, 1],
        vec![0, 2],
        vec![1, 2],
        vec![0, 3],
        vec![1, 3],
        vec![2, 3],
    ];
    assert_eq!(combinations(4, 2), expected);
}

#[test]
fn combinations_choose_zero_is_the_empty_subset() {
    assert_eq!(combinations(3, 0), vec![Vec::<usize>::new()]);
    assert_eq!(combinations(0, 0), vec![Vec::<usize>::new()]);
}

#[test]
fn combinations_too_large_is_empty() {
    assert_eq!(combinations(0, 2), Vec::<Vec<usize>>::new());
    assert_eq!(combinations(2, 3), Vec::<Vec<usize>>::new());
}

#[test]
fn splits_of_tiny_rosters() {
    let empty: Vec<usize> = Vec::new();
    assert_eq!(candidate_splits(0), vec![(empty.clone(), empty.clone())]);
    assert_eq!(candidate_splits(1), vec![(vec![0], empty.clone())]);
    assert_eq!(candidate_splits(2), vec![(vec![0], vec![1])]);
    assert_eq!(
        candidate_splits(3),
        vec![(vec![0, 2], vec![1]), (vec![0, 1], vec![2])]
    );
}

#[test]
fn splits_of_four_players() {
    assert_eq!(
        candidate_splits(4),
        vec![
            (vec![0, 3], vec![1, 2]),
            (vec![0, 2], vec![1, 3]),
            (vec![0, 1], vec![2, 3]),
        ]
    );
}

#[test]
fn splits_of_five_players() {
    assert_eq!(
        candidate_splits(5),
        vec![
            (vec![0, 3, 4], vec![1, 2]),
            (vec![0, 2, 4], vec![1, 3]),
            (vec![0, 1, 4], vec![2, 3]),
            (vec![0, 2, 3], vec![1, 4]),
            (vec![0, 1, 3], vec![2, 4]),
            (vec![0, 1, 2], vec![3, 4]),
        ]
    );
}

#[test]
fn splits_partition_the_roster() {
    for len in 0..9usize {
        for (team1, team2) in candidate_splits(len) {
            assert_eq!(team2.len(), len / 2);
            assert_eq!(team1.len() + team2.len(), len);
            let mut seen = vec![false; len];
            for &x in team1.iter().chain(team2.iter()) {
                assert!(x < len);
                assert!(!seen[x]);
                seen[x] = true;
            }
            assert!(seen.iter().all(|&s| s));
            if len > 0 {
                assert_eq!(team1[0], 0);
            }
        }
    }
}

#[test]
fn splits_are_exhaustive_for_four_players() {
    let splits = candidate_splits(4);
    for a in 1..4usize {
        for b in (a + 1)..4usize {
            assert!(splits.iter().any(|(_, team2)| *team2 == vec![a, b]));
        }
    }
    assert_eq!(splits.len(), 3);
}

#[test]
fn listing_sizes_are_binomial_coefficients() {
    // combinations(n, k) lists n-choose-k subsets ...
    assert_eq!(combinations(5, 2).len(), 10);
    assert_eq!(combinations(6, 3).len(), 20);
    // ... so a roster of n players has (n-1)-choose-(n/2) candidate splits.
    assert_eq!(candidate_splits(6).len(), 10);
    assert_eq!(candidate_splits(8).len(), 35);
}

#[test]
fn splits_are_deterministic() {
    assert_eq!(candidate_splits(6), candidate_splits(6));
    assert_eq!(pick_best(&vec![2, 9, 9, 4]), pick_best(&vec![2, 9, 9, 4]));
}

#[test]
fn pick_best_takes_first_strict_maximum() {
    assert_eq!(pick_best(&vec![5, 7, 7, 3]), Some(1));
    assert_eq!(pick_best(&vec![7, 5]), Some(0));
    assert_eq!(pick_best(&vec![1]), Some(0));
    assert_eq!(pick_best(&vec![1, 2, 3]), Some(2));
}

#[test]
fn pick_best_rejects_all_zero_scores() {
    assert_eq!(pick_best(&Vec::new()), None);
    assert_eq!(pick_best(&vec![0, 0, 0]), None);
}

#[test]
fn balanced_pairing_is_a_candidate() {
    // For the four-player roster the balancing search ranks exactly these
    // candidates; the pairing of the weakest with the strongest player,
    // {0, 3} against {1, 2}, is the first of them.
    let splits = candidate_splits(4);
    assert_eq!(splits[0], (vec![0, 3], vec![1, 2]));
}
