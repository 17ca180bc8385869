use arrayvec::ArrayVec;
use tile_solver::deck::{is_tile_str, tiles_from_lines, DeckError};
use tile_solver::part::{Color, LowerUpper, Part};
use tile_solver::rule::{rule_for, Rule};
use tile_solver::search::{check_rule, solve, solve_deck};
use tile_solver::tile::{Side, Tile};

const LABEL_CHARS: [char; 8] = ['P', 'p', 'G', 'g', 'Y', 'y', 'B', 'b'];

fn all_parts() -> Vec<Part> {
    LABEL_CHARS.iter().map(|c| Part::from(*c)).collect()
}

fn tile(id: u8, text: &str) -> Tile {
    Tile::new_from_str(id, text)
}

fn deck_of(texts: [&str; 9]) -> [Tile; 9] {
    let lines: Vec<String> = texts.iter().map(|s| s.to_string()).collect();
    tiles_from_lines(&lines).unwrap()
}

fn labels(t: &Tile) -> [Part; 4] {
    [t.get(Side::A), t.get(Side::B), t.get(Side::C), t.get(Side::D)]
}

fn ids(sol: &[Tile]) -> Vec<u8> {
    sol.iter().map(|t| t.id()).collect()
}

fn obeys_rule(rule: &Rule, t: &Tile, placed: &[Tile]) -> bool {
    let (s1, i, s2) = rule.first;
    let mut ok = t.get(s1).matches(placed[i].get(s2));
    if let Some((s1, i, s2)) = rule.second {
        ok = ok && t.get(s1).matches(placed[i].get(s2));
    }
    ok
}

fn obeys_all_rules(sol: &[Tile]) -> bool {
    (1..9).all(|step| obeys_rule(&rule_for(step), &sol[step], &sol[..step]))
}

#[test]
fn part_new_keeps_fields() {
    let p = Part::new(Color::Yellow, LowerUpper::Upper);
    assert_eq!(p.color(), Color::Yellow);
    assert_eq!(p.lower_upper(), LowerUpper::Upper);
}

#[test]
fn part_from_reads_each_letter() {
    assert_eq!(Part::from('P'), Part::new(Color::Purple, LowerUpper::Upper));
    assert_eq!(Part::from('p'), Part::new(Color::Purple, LowerUpper::Lower));
    assert_eq!(Part::from('G'), Part::new(Color::Green, LowerUpper::Upper));
    assert_eq!(Part::from('g'), Part::new(Color::Green, LowerUpper::Lower));
    assert_eq!(Part::from('Y'), Part::new(Color::Yellow, LowerUpper::Upper));
    assert_eq!(Part::from('y'), Part::new(Color::Yellow, LowerUpper::Lower));
    assert_eq!(Part::from('B'), Part::new(Color::Blue, LowerUpper::Upper));
    assert_eq!(Part::from('b'), Part::new(Color::Blue, LowerUpper::Lower));
}

#[test]
fn part_to_char_round_trips() {
    for c in LABEL_CHARS {
        assert_eq!(Part::from(c).to_char(), c);
    }
}

#[test]
fn matches_is_symmetric() {
    for x in all_parts() {
        for y in all_parts() {
            assert_eq!(x.matches(y), y.matches(x));
        }
    }
}

#[test]
fn matches_same_color_opposite_polarity_only() {
    for x in all_parts() {
        for y in all_parts() {
            let expected = x.color() == y.color() && x.lower_upper() != y.lower_upper();
            assert_eq!(x.matches(y), expected);
        }
        assert!(!x.matches(x));
    }
    assert!(Part::from('G').matches(Part::from('g')));
    assert!(!Part::from('G').matches(Part::from('G')));
    assert!(!Part::from('G').matches(Part::from('y')));
}

#[test]
fn tile_new_places_labels_in_order() {
    let parts = [Part::from('P'), Part::from('g'), Part::from('Y'), Part::from('b')];
    let t = Tile::new(4, parts);
    assert_eq!(t.id(), 4);
    assert_eq!(labels(&t), parts);
    assert_eq!(t, tile(4, "PgYb"));
}

#[test]
fn rotate_shifts_labels_by_one_side() {
    let mut t = tile(1, "PgYb");
    t.rotate();
    assert_eq!(t.get(Side::A), Part::from('g'));
    assert_eq!(t.get(Side::B), Part::from('Y'));
    assert_eq!(t.get(Side::C), Part::from('b'));
    assert_eq!(t.get(Side::D), Part::from('P'));
    assert_eq!(t.id(), 1);
}

#[test]
fn rotate_four_times_is_identity() {
    for text in ["PgYb", "GGgg", "pGpG", "yyyy"] {
        let start = tile(3, text);
        let mut t = start;
        for _ in 0..4 {
            t.rotate();
        }
        assert_eq!(t, start);
    }
}

#[test]
fn rotations_are_distinct_unless_periodic() {
    let mut t = tile(2, "PGYp");
    let mut seen = Vec::new();
    for _ in 0..3 {
        t.rotate();
        seen.push(t);
    }
    assert_ne!(seen[0], seen[1]);
    assert_ne!(seen[0], seen[2]);
    assert_ne!(seen[1], seen[2]);

    let mut t = tile(2, "pGpG");
    t.rotate();
    let once = t;
    t.rotate();
    t.rotate();
    assert_eq!(once, t);
}

#[test]
fn rule_new_and_with_second() {
    let r = Rule::new(Side::C, 0, Side::A);
    assert_eq!(r.first, (Side::C, 0, Side::A));
    assert_eq!(r.second, None);
    let r = r.with_second(Side::B, 2, Side::D);
    assert_eq!(r.first, (Side::C, 0, Side::A));
    assert_eq!(r.second, Some((Side::B, 2, Side::D)));
}

#[test]
fn rule_table_matches_board_layout() {
    let expected = [
        ((Side::C, 0, Side::A), None),
        ((Side::B, 1, Side::D), None),
        ((Side::A, 2, Side::C), Some((Side::B, 0, Side::D))),
        ((Side::A, 3, Side::C), None),
        ((Side::D, 4, Side::B), Some((Side::A, 0, Side::C))),
        ((Side::D, 5, Side::B), None),
        ((Side::C, 6, Side::A), Some((Side::D, 0, Side::B))),
        ((Side::C, 7, Side::A), Some((Side::D, 1, Side::B))),
    ];
    for (k, (first, second)) in expected.iter().enumerate() {
        let r = rule_for(k + 1);
        assert_eq!(r.first, *first);
        assert_eq!(r.second, *second);
        assert!(r.first.1 < k + 1);
    }
}

#[test]
fn check_rule_compares_named_sides() {
    let mut placed = ArrayVec::<Tile, 9>::new();
    placed.push(tile(1, "yBGy"));
    assert!(check_rule((Side::C, 0, Side::A), tile(2, "PGYp"), &placed));
    assert!(!check_rule((Side::C, 0, Side::A), tile(2, "PGyp"), &placed));
    assert!(!check_rule((Side::A, 0, Side::A), tile(2, "PGYp"), &placed));
}

#[test]
fn is_tile_str_checks_length_and_letters() {
    assert!(is_tile_str("PgYb"));
    assert!(!is_tile_str("PgY"));
    assert!(!is_tile_str("PgYbb"));
    assert!(!is_tile_str("PgXb"));
    assert!(!is_tile_str(""));
    assert!(!is_tile_str("PgYé"));
}

#[test]
fn tiles_from_lines_numbers_tiles_from_one() {
    let texts = ["PgYb", "GGgg", "pGpG", "yyyy", "BbBb", "PPPP", "gYbP", "yBGy", "bYPG"];
    let deck = deck_of(texts);
    for (k, t) in deck.iter().enumerate() {
        assert_eq!(*t, tile(k as u8 + 1, texts[k]));
    }
}

#[test]
fn tiles_from_lines_refuses_wrong_count() {
    let eight: Vec<String> = (0..8).map(|_| "PgYb".to_string()).collect();
    assert_eq!(tiles_from_lines(&eight), Err(DeckError::WrongTileCount));
    let ten: Vec<String> = (0..10).map(|_| "PgYb".to_string()).collect();
    assert_eq!(tiles_from_lines(&ten), Err(DeckError::WrongTileCount));
    assert_eq!(tiles_from_lines(&Vec::new()), Err(DeckError::WrongTileCount));
}

#[test]
fn tiles_from_lines_reports_first_bad_line() {
    let mut lines: Vec<String> = (0..9).map(|_| "PgYb".to_string()).collect();
    lines[5] = "PgY".to_string();
    lines[7] = "PgZb".to_string();
    assert_eq!(tiles_from_lines(&lines), Err(DeckError::InvalidTile(5)));
    lines[5] = "PgYb".to_string();
    assert_eq!(tiles_from_lines(&lines), Err(DeckError::InvalidTile(7)));
}

#[test]
fn solve_restores_placed_tiles() {
    let deck = deck_of(["yBGy", "ggYP", "YpPG", "BBPg", "PBYG", "bYPG", "bpYB", "pGBB", "bGYy"]);
    let mut placed = ArrayVec::<Tile, 9>::new();
    placed.push(deck[0]);
    let mut remaining = ArrayVec::<Tile, 9>::from(deck);
    remaining.swap_remove(0);
    let before = placed.clone();
    let mut solutions = Vec::new();
    solve(&mut placed, remaining, &mut solutions);
    assert_eq!(placed, before);
    assert!(!solutions.is_empty());
    for sol in &solutions {
        assert_eq!(sol[0], deck[0]);
    }
}

#[test]
fn known_board_is_found() {
    let deck = deck_of(["yBGy", "ggYP", "YpPG", "BBPg", "PBYG", "bYPG", "bpYB", "pGBB", "bGYy"]);
    let solutions = solve_deck(deck);
    let expected_ids = vec![1u8, 3, 5, 6, 8, 2, 9, 7, 4];
    let expected_labels = ["yBGy", "PGYp", "GPBY", "bYPG", "pGBB", "gYPg", "bGYy", "pYBb", "BBPg"];
    let found = solutions.iter().any(|sol| {
        ids(sol) == expected_ids
            && sol.iter().zip(expected_labels.iter()).all(|(t, text)| labels(t) == labels(&tile(0, text)))
    });
    assert!(found);
}

#[test]
fn every_solution_uses_each_tile_once_and_obeys_rules() {
    let deck = deck_of(["yBGy", "ggYP", "YpPG", "BBPg", "PBYG", "bYPG", "bpYB", "pGBB", "bGYy"]);
    let solutions = solve_deck(deck);
    assert!(!solutions.is_empty());
    for sol in &solutions {
        assert_eq!(sol.len(), 9);
        let mut seen = ids(sol);
        seen.sort();
        assert_eq!(seen, vec![1, 2, 3, 4, 5, 6, 7, 8, 9]);
        assert!(deck.contains(&sol[0]));
        assert!(obeys_all_rules(sol));
    }
}

#[test]
fn fitting_deck_gives_a_solution_for_every_anchor() {
    let deck = deck_of(["YByb"; 9]);
    let solutions = solve_deck(deck);
    // Only the tiles as given fit, and every order of them does: 8! boards per anchor.
    assert_eq!(solutions.len(), 9 * 40320);
    for id in 1..=9u8 {
        assert!(solutions.iter().any(|sol| sol[0].id() == id));
    }
    for sol in &solutions {
        assert!(obeys_all_rules(sol));
    }
}

#[test]
fn isolated_anchor_gives_no_solution() {
    let deck = deck_of(["PPPP", "GGGG", "GGGG", "GGGG", "GGGG", "GGGG", "GGGG", "GGGG", "GGGG"]);
    let solutions = solve_deck(deck);
    assert!(solutions.iter().all(|sol| sol[0].id() != 1));
    assert!(solutions.is_empty());
}

#[test]
fn solve_lists_a_full_prefix_once_as_it_is() {
    let mut placed = ArrayVec::<Tile, 9>::new();
    for id in 1..=9u8 {
        placed.push(tile(id, "PPPP"));
    }
    let before = placed.clone();
    let mut solutions = Vec::new();
    solve(&mut placed, ArrayVec::new(), &mut solutions);
    assert_eq!(placed, before);
    assert_eq!(solutions.len(), 1);
    assert_eq!(ids(&solutions[0]), vec![1, 2, 3, 4, 5, 6, 7, 8, 9]);
    assert_eq!(solutions[0].as_slice(), before.as_slice());
}

#[test]
fn solve_appends_after_earlier_solutions() {
    let deck = deck_of(["yBGy", "ggYP", "YpPG", "BBPg", "PBYG", "bYPG", "bpYB", "pGBB", "bGYy"]);
    let mut placed = ArrayVec::<Tile, 9>::new();
    placed.push(deck[0]);
    let mut remaining = ArrayVec::<Tile, 9>::from(deck);
    remaining.swap_remove(0);
    let marker = vec![tile(42, "PPPP")];
    let mut solutions = vec![marker.clone()];
    solve(&mut placed, remaining, &mut solutions);
    assert_eq!(solutions[0], marker);
    assert!(solutions.len() > 1);
}

#[test]
fn solve_deck_lists_in_the_same_order_each_time() {
    let deck = deck_of(["yBGy", "ggYP", "YpPG", "BBPg", "PBYG", "bYPG", "bpYB", "pGBB", "bGYy"]);
    let first = solve_deck(deck);
    let second = solve_deck(deck);
    assert_eq!(first, second);
    let anchors: Vec<u8> = first.iter().map(|sol| sol[0].id()).collect();
    let mut sorted = anchors.clone();
    sorted.sort();
    assert_eq!(anchors, sorted);
}
