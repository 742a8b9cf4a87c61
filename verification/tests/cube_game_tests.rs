use advent_puzzles::cube_game::game_from_line;
use advent_puzzles::cube_game::Game;
use advent_puzzles::cube_game::Revelation;

fn total_bag() -> Revelation {
    Revelation { reds: 12, greens: 13, blues: 14 }
}

#[test]
fn revelation_from_str_colours() {
    let r = Revelation::from_str("3 blue");
    assert_eq!((r.reds, r.greens, r.blues), (0, 0, 3));
    let r = Revelation::from_str("4 red");
    assert_eq!((r.reds, r.greens, r.blues), (4, 0, 0));
    let r = Revelation::from_str("2 green");
    assert_eq!((r.reds, r.greens, r.blues), (0, 2, 0));
    let r = Revelation::from_str("5 purple");
    assert_eq!((r.reds, r.greens, r.blues), (0, 0, 0));
}

#[test]
fn combine_adds_colourwise() {
    let a = Revelation { reds: 1, greens: 2, blues: 3 };
    let b = Revelation { reds: 10, greens: 20, blues: 30 };
    let c = a.combine(&b);
    assert_eq!((c.reds, c.greens, c.blues), (11, 22, 33));
}

#[test]
fn is_leq_than_compares_all_colours() {
    let small = Revelation { reds: 1, greens: 2, blues: 3 };
    let big = Revelation { reds: 2, greens: 2, blues: 4 };
    assert!(small.is_leq_than(&big));
    assert!(!big.is_leq_than(&small));
    assert!(small.is_leq_than(&small));
}

#[test]
fn game_from_line_parses_id_and_sets() {
    let g = game_from_line("Game 1: 3 blue, 4 red; 1 red, 2 green, 6 blue; 2 green");
    assert_eq!(g.id, 1);
    assert_eq!(g.revelations.len(), 3);
    let first = g.revelations[0];
    assert_eq!((first.reds, first.greens, first.blues), (4, 0, 3));
    let second = g.revelations[1];
    assert_eq!((second.reds, second.greens, second.blues), (1, 2, 6));
    let third = g.revelations[2];
    assert_eq!((third.reds, third.greens, third.blues), (0, 2, 0));
}

#[test]
fn example_games_possibility() {
    let lines = [
        "Game 1: 3 blue, 4 red; 1 red, 2 green, 6 blue; 2 green",
        "Game 2: 1 blue, 2 green; 3 green, 4 blue, 1 red; 1 green, 1 blue",
        "Game 3: 8 green, 6 blue, 20 red; 5 blue, 4 red, 13 green; 5 green, 1 red",
        "Game 4: 1 green, 3 red, 6 blue; 3 green, 6 red; 3 green, 15 blue, 14 red",
        "Game 5: 6 red, 1 blue, 3 green; 2 blue, 1 red, 2 green",
    ];
    let mut id_sum = 0;
    for line in lines.iter() {
        let g = game_from_line(line);
        if g.is_possible(&total_bag()) {
            id_sum += g.id;
        }
    }
    assert_eq!(id_sum, 8);
}

#[test]
fn example_games_power() {
    let g = game_from_line("Game 1: 3 blue, 4 red; 1 red, 2 green, 6 blue; 2 green");
    let smallest = g.smallest_possible();
    assert_eq!((smallest.reds, smallest.greens, smallest.blues), (4, 2, 6));
    assert_eq!(g.power(), 48);
    let lines = [
        "Game 1: 3 blue, 4 red; 1 red, 2 green, 6 blue; 2 green",
        "Game 2: 1 blue, 2 green; 3 green, 4 blue, 1 red; 1 green, 1 blue",
        "Game 3: 8 green, 6 blue, 20 red; 5 blue, 4 red, 13 green; 5 green, 1 red",
        "Game 4: 1 green, 3 red, 6 blue; 3 green, 6 red; 3 green, 15 blue, 14 red",
        "Game 5: 6 red, 1 blue, 3 green; 2 blue, 1 red, 2 green",
    ];
    let power_sum: u32 = lines.iter().map(|line| game_from_line(line).power()).sum();
    assert_eq!(power_sum, 2286);
}

#[test]
fn empty_game_is_possible_with_zero_power() {
    let g = Game { id: 7, revelations: vec![] };
    assert!(g.is_possible(&total_bag()));
    assert_eq!(g.power(), 0);
}
