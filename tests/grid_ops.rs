use crossgrid::candidates::PlacementCandidate;
use crossgrid::generator::{WordLists, WordSearchGenerator};
use crossgrid::grid::{Direction, Grid, PlacedWord};
use crossgrid::trim::compact_layout;

fn chars(s: &str) -> Vec<char> {
    s.chars().collect()
}

fn gen(h: &[&str], v: &[&str]) -> WordSearchGenerator {
    WordSearchGenerator::new(WordLists {
        horizontal: h.iter().map(|s| s.to_string()).collect(),
        vertical: v.iter().map(|s| s.to_string()).collect(),
    })
}

#[test]
fn new_grid_is_empty() {
    let g = Grid::new(4, 3);
    assert_eq!((g.width, g.height), (4, 3));
    assert!(g.cells.iter().all(|r| r.len() == 4 && r.iter().all(|c| c.is_none())));
    assert_eq!(g.calculate_used_area(), (0, 0, 0, 0));
}

#[test]
fn horizontal_anchor_is_last_letter() {
    let mut g = Grid::new(5, 3);
    assert!(!g.can_place_word(&chars("CAT"), 1, 1, Direction::Horizontal));
    assert!(g.place_word(&chars("CAT"), 1, 3, Direction::Horizontal));
    assert_eq!(g.cells[1][1], Some('C'));
    assert_eq!(g.cells[1][2], Some('A'));
    assert_eq!(g.cells[1][3], Some('T'));
    assert_eq!(g.calculate_used_area(), (1, 1, 1, 3));
    assert_eq!(g.get_used_dimensions(), (1, 3));
}

#[test]
fn vertical_anchor_is_last_letter() {
    let mut g = Grid::new(3, 5);
    assert!(!g.can_place_word(&chars("CAR"), 1, 0, Direction::Vertical));
    assert!(g.place_word(&chars("CAR"), 4, 2, Direction::Vertical));
    assert_eq!(g.cells[2][2], Some('C'));
    assert_eq!(g.cells[3][2], Some('A'));
    assert_eq!(g.cells[4][2], Some('R'));
}

#[test]
fn crossing_must_agree() {
    let mut g = Grid::new(5, 5);
    assert!(g.place_horizontal(&chars("CAT"), 0, 2));
    assert!(g.can_place_vertical(&chars("CAR"), 2, 0));
    assert!(!g.can_place_vertical(&chars("BAR"), 2, 0));
    assert!(!g.place_vertical(&chars("BAR"), 2, 0));
    assert!(g.place_vertical(&chars("CAR"), 2, 0));
    // Placing the same word again changes nothing.
    assert!(g.place_horizontal(&chars("CAT"), 0, 2));
    assert_eq!(g.cells[0][0], Some('C'));
}

#[test]
fn out_of_bounds_is_refused() {
    let g = Grid::new(3, 3);
    assert!(!g.can_place_word(&chars("CAT"), 3, 2, Direction::Horizontal));
    assert!(!g.can_place_word(&chars("CAT"), 0, 3, Direction::Horizontal));
    assert!(!g.can_place_word(&chars("CATS"), 0, 3, Direction::Horizontal));
}

#[test]
fn removal_keeps_shared_cells() {
    let mut g = Grid::new(5, 5);
    assert!(g.place_word(&chars("CAT"), 0, 2, Direction::Horizontal));
    assert!(g.place_word(&chars("CAR"), 2, 0, Direction::Vertical));
    let cat = PlacedWord { word: chars("CAT"), start_row: 0, start_col: 0, direction: Direction::Horizontal };
    let car = PlacedWord { word: chars("CAR"), start_row: 0, start_col: 0, direction: Direction::Vertical };
    let gen = gen(&["CAT"], &["CAR"]);
    gen.remove_word_from_grid(&mut g, &cat, &vec![car.clone()]);
    assert_eq!(g.cells[0][0], Some('C'));
    assert_eq!(g.cells[0][1], None);
    assert_eq!(g.cells[0][2], None);
    assert_eq!(g.read_word(&car), Some(chars("CAR")));
}

#[test]
fn compact_moves_box_to_origin() {
    let mut g = Grid::new(6, 6);
    assert!(g.place_word(&chars("CAT"), 2, 4, Direction::Horizontal));
    assert!(g.place_word(&chars("TO"), 3, 4, Direction::Vertical));
    assert_eq!(g.compact(), (2, 2));
    assert_eq!((g.height, g.width), (2, 3));
    assert_eq!(g.cells[0], vec![Some('C'), Some('A'), Some('T')]);
    assert_eq!(g.cells[1], vec![None, None, Some('O')]);
}

#[test]
fn compacting_a_layout_moves_anchors() {
    let mut g = Grid::new(6, 6);
    assert!(g.place_word(&chars("CAT"), 2, 4, Direction::Horizontal));
    let mut words = vec![PlacedWord { word: chars("CAT"), start_row: 2, start_col: 2, direction: Direction::Horizontal }];
    compact_layout(&mut g, &mut words);
    assert_eq!((words[0].start_row, words[0].start_col), (0, 0));
    assert_eq!(g.read_word(&words[0]), Some(chars("CAT")));
}

#[test]
fn trimming_removes_interior_gaps() {
    let mut g = Grid::new(3, 3);
    assert!(g.place_word(&chars("AB"), 0, 1, Direction::Horizontal));
    assert!(g.place_word(&chars("CD"), 2, 1, Direction::Horizontal));
    let mut words = vec![
        PlacedWord { word: chars("AB"), start_row: 0, start_col: 0, direction: Direction::Horizontal },
        PlacedWord { word: chars("CD"), start_row: 2, start_col: 0, direction: Direction::Horizontal },
    ];
    assert!(g.try_remove_empty_rows_cols(&mut words));
    assert_eq!((g.height, g.width), (2, 2));
    assert_eq!(words[1].start_row, 1);
    assert_eq!(g.read_word(&words[1]), Some(chars("CD")));
    // A second pass has nothing left to do.
    assert!(!g.try_remove_empty_rows_cols(&mut words));
    assert_eq!((g.height, g.width), (2, 2));
}

#[test]
fn placement_score_formula() {
    let g = Grid::new(10, 10);
    let gen = gen(&["CAT"], &["CAR"]);
    // Last letter at the centre (5, 5): distance 0, no shared letter, 3 letters.
    assert_eq!(gen.calculate_placement_score(&g, &chars("CAT"), 5, 5, Direction::Horizontal), 10000 + 600);
    // At (0, 2): distance sqrt(25 + 9) = 5.83..., 583 hundredths.
    assert_eq!(gen.calculate_placement_score(&g, &chars("CAT"), 0, 2, Direction::Horizontal), 10600 - 583);
    let mut g2 = Grid::new(10, 10);
    assert!(g2.place_word(&chars("CAR"), 7, 3, Direction::Vertical));
    // CAT along row 5 ending at column 5 shares the 'C' at (5, 3).
    assert_eq!(gen.calculate_placement_score(&g2, &chars("CAT"), 5, 5, Direction::Horizontal), 10600 + 7500);
}

#[test]
fn candidates_are_ranked_and_capped() {
    let g = Grid::new(10, 10);
    let gen = gen(&["CAT"], &["CAR"]);
    let cands: Vec<PlacementCandidate> = gen.generate_candidates(&g, &chars("CAT"), Direction::Horizontal);
    assert_eq!(cands.len(), 50);
    assert!(cands.windows(2).all(|w| w[0].score >= w[1].score));
    assert_eq!((cands[0].row, cands[0].col), (5, 5));
    let tiny = Grid::new(2, 2);
    assert!(gen.generate_candidates(&tiny, &chars("CAT"), Direction::Horizontal).is_empty());
}

#[test]
fn intersections_are_scored() {
    let gen = gen(&["CAT"], &["CAR"]);
    assert_eq!(gen.count_letter_frequency('C'), 2);
    assert_eq!(gen.count_letter_frequency('A'), 2);
    assert_eq!(gen.count_letter_frequency('Z'), 0);
    let xs = gen.find_all_intersections();
    assert_eq!(xs.len(), 2);
    // 'A' at offset 1 of both: 4 * 6 + 40 - (|2 - 3| + |2 - 3|) + 10 * 2 = 82.
    assert_eq!((xs[0].character, xs[0].score), ('A', 82));
    // 'C' at offset 0 of both: 24 + 40 - 6 + 20 = 78.
    assert_eq!((xs[1].character, xs[1].score), ('C', 78));
}

#[test]
fn crossings_are_counted() {
    let mut g = Grid::new(5, 5);
    assert!(g.place_word(&chars("CAT"), 0, 2, Direction::Horizontal));
    assert!(g.place_word(&chars("CAR"), 2, 0, Direction::Vertical));
    let cat = PlacedWord { word: chars("CAT"), start_row: 0, start_col: 0, direction: Direction::Horizontal };
    let car = PlacedWord { word: chars("CAR"), start_row: 0, start_col: 0, direction: Direction::Vertical };
    let gen = gen(&["CAT"], &["CAR"]);
    assert_eq!(gen.count_intersections(&g, &cat), 1);
    assert_eq!(gen.count_intersections(&g, &car), 1);
    assert_eq!(gen.count_total_intersections(&g, &vec![cat.clone(), car.clone()]), 2);
    // 3 x 3 used: 2000000 / 9 + 200000 + 25000 * 2.
    assert_eq!(gen.evaluate_solution(&g, &vec![cat, car]), 222222 + 200000 + 50000);
}

#[test]
fn simple_input_sections() {
    let text = "# words\nhorizontal:\n  - \"cat\"  \n- dog\n\nvertical:\n- \"Car\"\n-nope\n";
    let (h, v) = crossgrid::simple_input::parse_simple_input(text);
    assert_eq!(h, vec!["CAT".to_string(), "DOG".to_string()]);
    assert_eq!(v, vec!["CAR".to_string()]);
}

#[test]
fn simple_input_ignores_items_outside_sections() {
    let text = "- early\r\nvertical:\r\n- late\r\n";
    let (h, v) = crossgrid::simple_input::parse_simple_input(text);
    assert!(h.is_empty());
    assert_eq!(v, vec!["LATE".to_string()]);
}

#[test]
fn simple_input_empty() {
    let (h, v) = crossgrid::simple_input::parse_simple_input("");
    assert!(h.is_empty() && v.is_empty());
}

#[test]
fn compacting_twice_changes_nothing() {
    let mut g = Grid::new(7, 7);
    assert!(g.place_word(&chars("TREE"), 3, 5, Direction::Horizontal));
    assert!(g.place_word(&chars("RAT"), 5, 3, Direction::Vertical));
    assert_eq!(g.compact(), (3, 2));
    let first = g.cells.clone();
    assert_eq!(g.compact(), (0, 0));
    assert_eq!(g.cells, first);
    assert_eq!((g.height, g.width), (3, 4));
}

#[test]
fn trimming_four_corners() {
    let mut g = Grid::new(3, 3);
    assert!(g.place_word(&chars("A"), 0, 0, Direction::Horizontal));
    assert!(g.place_word(&chars("B"), 0, 2, Direction::Horizontal));
    assert!(g.place_word(&chars("C"), 2, 0, Direction::Horizontal));
    assert!(g.place_word(&chars("D"), 2, 2, Direction::Horizontal));
    let mut words = vec![
        PlacedWord { word: chars("A"), start_row: 0, start_col: 0, direction: Direction::Horizontal },
        PlacedWord { word: chars("B"), start_row: 0, start_col: 2, direction: Direction::Horizontal },
        PlacedWord { word: chars("C"), start_row: 2, start_col: 0, direction: Direction::Horizontal },
        PlacedWord { word: chars("D"), start_row: 2, start_col: 2, direction: Direction::Horizontal },
    ];
    assert!(g.try_remove_empty_rows_cols(&mut words));
    assert_eq!((g.width, g.height), (2, 2));
    assert_eq!(g.cells, vec![vec![Some('A'), Some('B')], vec![Some('C'), Some('D')]]);
    assert_eq!((words[3].start_row, words[3].start_col), (1, 1));
    assert!(!g.try_remove_empty_rows_cols(&mut words));
}
