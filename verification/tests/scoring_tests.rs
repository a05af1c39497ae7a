use trump_deck::game_pieces::{Card, Deck, Suit, Value};
use trump_deck::scoring::score_hand;

fn card(value: Value, suit: Suit, trump: bool) -> Card {
    Card::new(value, suit, trump)
}

#[test]
fn empty_hand_is_rejected_explicitly() {
    let hand: Vec<Card> = Vec::new();
    assert!(score_hand(&hand).is_none());
}

#[test]
fn six_non_trump_twos_score_zero() {
    // Six Twos, none trump: every per-card weight is 3 * 0 = 0, so the
    // raw score is 0 and the multiplier cannot change that.
    let hand = vec![
        card(Value::TWO, Suit::HEART, false),
        card(Value::TWO, Suit::CLUB, false),
        card(Value::TWO, Suit::DIAMOND, false),
        card(Value::TWO, Suit::SPADE, false),
        card(Value::TWO, Suit::HEART, false),
        card(Value::TWO, Suit::CLUB, false),
    ];
    let score = score_hand(&hand).unwrap();
    assert_eq!(score.num, 0);
    assert_eq!(score.den, 30);
    assert_eq!(score.num as f32 / score.den as f32, 0.0);
}

#[test]
fn single_trump_ace_weighs_49() {
    // One trump Ace: weight 12 + 1 + 36 = 49. With n = 1 and u = 1 the
    // score is 49 * (6 + 2 - 2) / 5 = 294 / 5.
    let hand = vec![card(Value::ACE, Suit::HEART, true)];
    let score = score_hand(&hand).unwrap();
    assert_eq!(score.num, 49 * 6);
    assert_eq!(score.den, 5);
    assert_eq!(score.num as f32 / score.den as f32, 58.8);
}

#[test]
fn six_distinct_ranks_no_trump_exact_score() {
    // Ranks Two..Seven, none trump: raw = 3 * (0+1+2+3+4+5) = 45; with
    // n = 6, u = 6 the multiplier is ((6 + 1 - 6) / 6) * 0.4 + 0.8 =
    // 26/30, so the score is exactly 45 * 26 / 30 = 39.
    let hand = vec![
        card(Value::TWO, Suit::HEART, false),
        card(Value::THREE, Suit::CLUB, false),
        card(Value::FOUR, Suit::DIAMOND, false),
        card(Value::FIVE, Suit::SPADE, false),
        card(Value::SIX, Suit::HEART, false),
        card(Value::SEVEN, Suit::CLUB, false),
    ];
    let score = score_hand(&hand).unwrap();
    assert_eq!(score.num, 45 * 26);
    assert_eq!(score.den, 30);
    assert_eq!(score.num as f32 / score.den as f32, 39.0);
}

#[test]
fn mixed_hand_exact_score() {
    // Trump King (11 + 1 + 36 = 48) and two non-trump Fives (9 each):
    // raw = 66, n = 3, u = 2, so num = 66 * (18 + 2 - 4) = 1056 and
    // den = 15.
    let hand = vec![
        card(Value::KING, Suit::SPADE, true),
        card(Value::FIVE, Suit::HEART, false),
        card(Value::FIVE, Suit::CLUB, false),
    ];
    let score = score_hand(&hand).unwrap();
    assert_eq!(score.num, 1056);
    assert_eq!(score.den, 15);
}

#[test]
fn repeated_ranks_outscore_distinct_ranks_at_equal_raw() {
    // Two hands with the same raw score 54: one with all ranks equal,
    // one with distinct ranks. The duplicate-heavy hand multiplies by
    // (12 + 2 - 2) / 10 = 1.2, the distinct hand by (12 + 2 - 4) / 10
    // = 1.0 exactly... both over den = 10.
    let pair = vec![
        card(Value::TEN, Suit::HEART, false),
        card(Value::TEN, Suit::CLUB, false),
    ];
    let distinct = vec![
        card(Value::NINE, Suit::HEART, false),
        card(Value::JACK, Suit::CLUB, false),
    ];
    let s_pair = score_hand(&pair).unwrap();
    let s_distinct = score_hand(&distinct).unwrap();
    assert_eq!(s_pair.num, 48 * 12);
    assert_eq!(s_distinct.num, 48 * 10);
    assert_eq!(s_pair.den, 10);
    assert_eq!(s_distinct.den, 10);
    assert!(s_pair.num > s_distinct.num);
}

#[test]
fn score_is_invariant_under_reordering() {
    let hand = vec![
        card(Value::ACE, Suit::HEART, true),
        card(Value::FIVE, Suit::CLUB, false),
        card(Value::FIVE, Suit::SPADE, false),
        card(Value::QUEEN, Suit::DIAMOND, false),
        card(Value::TWO, Suit::HEART, true),
        card(Value::QUEEN, Suit::SPADE, false),
    ];
    let forward = score_hand(&hand).unwrap();
    let mut reversed = hand.clone();
    reversed.reverse();
    let backward = score_hand(&reversed).unwrap();
    assert_eq!(forward, backward);
    let mut rotated = hand.clone();
    rotated.rotate_left(3);
    let rotated_score = score_hand(&rotated).unwrap();
    assert_eq!(forward, rotated_score);
}

#[test]
fn drawn_hand_scores_some() {
    let mut deck = Deck::new();
    let hand = deck.draw_cards(6);
    assert_eq!(hand.len(), 6);
    let score = score_hand(&hand).unwrap();
    assert!(score.den == 30);
}

#[test]
fn whole_deck_scores_within_bounds() {
    // At most one trump Ace can exist in a real deck, so the raw score
    // of the full deck is the full trump suit (37..=49 summed, 559)
    // plus the three other suits (3 * (0+1+...+12) = 234 each).
    let mut deck = Deck::new();
    let hand = deck.draw_cards(52);
    let score = score_hand(&hand).unwrap();
    let raw = 559 + 3 * 234;
    let expected_num = raw * (6 * 52 + 2 - 2 * 13);
    assert_eq!(score.num, expected_num);
    assert_eq!(score.den, 260);
}
