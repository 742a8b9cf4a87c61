use advent_puzzles::schematic::gear_ratio;
use advent_puzzles::schematic::number_neighbors;
use advent_puzzles::schematic::Location;

#[test]
fn location_new_keeps_coordinates() {
    let l = Location::new(3, -2);
    assert_eq!(l.x, 3);
    assert_eq!(l.y, -2);
}

#[test]
fn neighbors_of_three_digit_number() {
    // 467 printed at (0, 0) occupies x = 0..2; its border is the rows
    // above and below from x = -1 to 3, plus the two side cells.
    let n = number_neighbors(467, Location::new(0, 0));
    assert_eq!(n.len(), 2 * (3 + 2) + 2);
    assert!(n.contains(&Location::new(-1, 1)));
    assert!(n.contains(&Location::new(3, -1)));
    assert!(n.contains(&Location::new(-1, 0)));
    assert!(n.contains(&Location::new(3, 0)));
    assert!(!n.contains(&Location::new(0, 0)));
    assert!(!n.contains(&Location::new(1, 0)));
    assert!(!n.contains(&Location::new(4, 0)));
    assert!(!n.contains(&Location::new(0, 2)));
}

#[test]
fn neighbors_of_single_digit_number() {
    let n = number_neighbors(5, Location::new(10, 10));
    assert_eq!(n.len(), 2 * (1 + 2) + 2);
    assert!(n.contains(&Location::new(9, 9)));
    assert!(n.contains(&Location::new(11, 11)));
    assert!(n.contains(&Location::new(9, 10)));
    assert!(n.contains(&Location::new(11, 10)));
    assert!(!n.contains(&Location::new(10, 10)));
}

#[test]
fn gear_ratio_of_exactly_two_adjacent_numbers() {
    // The star sits at (3, 1); 467 starts at (0, 0) and 35 at (2, 2),
    // both adjacent, as in the schematic example.
    let numbers = vec![
        (Location::new(0, 0), 467u32),
        (Location::new(2, 2), 35u32),
        (Location::new(5, 9), 58u32),
    ];
    assert_eq!(gear_ratio(Location::new(3, 1), &numbers), Some(467 * 35));
}

#[test]
fn gear_ratio_needs_exactly_two() {
    let numbers = vec![(Location::new(0, 0), 467u32)];
    assert_eq!(gear_ratio(Location::new(3, 1), &numbers), None);
    let three = vec![
        (Location::new(2, 0), 7u32),
        (Location::new(2, 2), 8u32),
        (Location::new(4, 1), 9u32),
    ];
    assert_eq!(gear_ratio(Location::new(3, 1), &three), None);
}

#[test]
fn gear_ratio_ignores_far_numbers() {
    let numbers = vec![
        (Location::new(0, 0), 7u32),
        (Location::new(0, 5), 9u32),
        (Location::new(1, 0), 3u32),
    ];
    assert_eq!(gear_ratio(Location::new(2, 1), &numbers), None);
}
