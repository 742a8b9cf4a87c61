use advent_puzzles::scratchcards::parse_card;
use advent_puzzles::scratchcards::run_game;
use advent_puzzles::scratchcards::Card;

fn example_lines() -> Vec<&'static str> {
    vec![
        "Card 1: 41 48 83 86 17 | 83 86  6 31 17  9 48 53",
        "Card 2: 13 32 20 16 61 | 61 30 68 82 17 32 24 19",
        "Card 3:  1 21 53 59 44 | 69 82 63 72 16 21 14  1",
        "Card 4: 41 92 73 84 69 | 59 84 76 51 58  5 54 83",
        "Card 5: 87 83 26 28 32 | 88 30 70 12 93 22 82 36",
        "Card 6: 31 18 13 56 72 | 74 77 10 23 35 67 36 11",
    ]
}

#[test]
fn parse_card_reads_both_sides() {
    let card = parse_card("Card 1: 41 48 83 86 17 | 83 86  6 31 17  9 48 53");
    assert_eq!(card.winning_numbers, vec![41, 48, 83, 86, 17]);
    assert_eq!(card.numbers_you_have, vec![83, 86, 6, 31, 17, 9, 48, 53]);
}

#[test]
fn count_matches_counts_common_numbers() {
    let card = parse_card("Card 1: 41 48 83 86 17 | 83 86  6 31 17  9 48 53");
    assert_eq!(card.count_matches(), 4);
    let card = parse_card("Card 5: 87 83 26 28 32 | 88 30 70 12 93 22 82 36");
    assert_eq!(card.count_matches(), 0);
}

#[test]
fn score_doubles_per_extra_match() {
    let expected = [8, 2, 2, 1, 0, 0];
    for (line, want) in example_lines().iter().zip(expected.iter()) {
        assert_eq!(parse_card(line).score(), *want);
    }
    let total: u32 = example_lines().iter().map(|l| parse_card(l).score()).sum();
    assert_eq!(total, 13);
}

#[test]
fn score_of_no_matches_is_zero() {
    let card = Card { winning_numbers: vec![1, 2], numbers_you_have: vec![3, 4] };
    assert_eq!(card.score(), 0);
}

#[test]
fn run_game_cascades_copies() {
    let cards: Vec<Card> = example_lines().iter().map(|l| parse_card(l)).collect();
    assert_eq!(run_game(&cards), 30);
}

#[test]
fn run_game_without_matches_counts_each_card_once() {
    let cards = vec![
        Card { winning_numbers: vec![1], numbers_you_have: vec![2] },
        Card { winning_numbers: vec![3], numbers_you_have: vec![4] },
    ];
    assert_eq!(run_game(&cards), 2);
}
