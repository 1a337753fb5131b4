use trueskill::score::Score;

#[test]
fn loss_normalizes_to_a_swapped_win() {
    assert_eq!(Score::Loss.normalized(), (Score::Win, true));
}

#[test]
fn win_and_draw_normalize_to_themselves() {
    assert_eq!(Score::Win.normalized(), (Score::Win, false));
    assert_eq!(Score::Draw.normalized(), (Score::Draw, false));
}
