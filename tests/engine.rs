use crossgrid::anneal::accept_move;
use crossgrid::generator::{stages, Strategy, WordLists, WordSearchGenerator};
use crossgrid::grid::{Direction, Grid, PlacedWord};
use crossgrid::scoring::isqrt;
use crossgrid::strategies::shuffled_order;
use rand::rngs::StdRng;
use rand::SeedableRng;

fn chars(s: &str) -> Vec<char> {
    s.chars().collect()
}

fn lists(h: &[&str], v: &[&str]) -> WordLists {
    WordLists {
        horizontal: h.iter().map(|s| s.to_string()).collect(),
        vertical: v.iter().map(|s| s.to_string()).collect(),
    }
}

fn assert_layout(grid: &Grid, words: &[PlacedWord]) {
    for pw in words {
        let read = grid.read_word(pw).expect("word readable at its anchor");
        assert_eq!(read, pw.word);
    }
    for r in 0..grid.height {
        assert!((0..grid.width).any(|c| grid.cells[r][c].is_some()), "empty row {}", r);
    }
    for c in 0..grid.width {
        assert!((0..grid.height).any(|r| grid.cells[r][c].is_some()), "empty column {}", c);
    }
}

fn text_multiset(words: &[PlacedWord]) -> Vec<(String, Direction)> {
    let mut v: Vec<(String, Direction)> = words.iter().map(|w| (w.word.iter().collect(), w.direction)).collect();
    v.sort_by(|a, b| a.0.cmp(&b.0).then((a.1 == Direction::Vertical).cmp(&(b.1 == Direction::Vertical))));
    v
}

#[test]
fn scenario_cat_car_crossing() {
    let gen = WordSearchGenerator::new(lists(&["CAT"], &["CAR"]));
    let mut rng = StdRng::seed_from_u64(7);
    let (grid, words) = gen.generate(1000, &mut rng).expect("a layout");
    assert_layout(&grid, &words);
    assert_eq!(words.len(), 2);
    assert!(grid.height <= 5 && grid.width <= 5, "{}x{}", grid.height, grid.width);
    let h = words.iter().find(|w| w.direction == Direction::Horizontal).unwrap();
    let v = words.iter().find(|w| w.direction == Direction::Vertical).unwrap();
    assert_eq!(h.word, chars("CAT"));
    assert_eq!(v.word, chars("CAR"));
    // The two words share a cell.
    assert!(h.start_row >= v.start_row && h.start_row < v.start_row + 3);
    assert!(v.start_col >= h.start_col && v.start_col < h.start_col + 3);
}

#[test]
fn scenario_two_horizontal_words_only() {
    let gen = WordSearchGenerator::new(lists(&["APPLE", "KIWI"], &[]));
    let mut rng = StdRng::seed_from_u64(11);
    let (grid, words) = gen.generate(1000, &mut rng).expect("a layout");
    assert_layout(&grid, &words);
    assert_eq!(words.len(), 2);
    assert!(grid.width >= 5);
    assert!(words.iter().all(|w| w.direction == Direction::Horizontal));
}

#[test]
fn scenario_no_shared_letters() {
    let gen = WordSearchGenerator::new(lists(&["ABC", "DEF"], &["XYZ", "UVW"]));
    let mut rng = StdRng::seed_from_u64(3);
    let (grid, words) = gen.generate(1000, &mut rng).expect("a layout");
    assert_layout(&grid, &words);
    assert_eq!(
        text_multiset(&words),
        vec![
            ("ABC".to_string(), Direction::Horizontal),
            ("DEF".to_string(), Direction::Horizontal),
            ("UVW".to_string(), Direction::Vertical),
            ("XYZ".to_string(), Direction::Vertical),
        ]
    );
}

#[test]
fn scenario_single_attempt_fails() {
    let long = "ABCDEFGHIJKLMNOPQRSTUVWXYZABCDEFGHIJKLMNOPQRSTUVWXYZ";
    let gen = WordSearchGenerator::new(lists(&[long, long], &[long, long]));
    let mut rng = StdRng::seed_from_u64(1);
    assert!(gen.generate(1, &mut rng).is_none());
}

#[test]
fn every_input_word_placed_once() {
    let gen = WordSearchGenerator::new(lists(&["HELLO", "WORLD", "RUST"], &["HOUSE", "TREE", "LOOP"]));
    let mut rng = StdRng::seed_from_u64(42);
    let (grid, words) = gen.generate(500, &mut rng).expect("a layout");
    assert_layout(&grid, &words);
    assert_eq!(
        text_multiset(&words),
        vec![
            ("HELLO".to_string(), Direction::Horizontal),
            ("HOUSE".to_string(), Direction::Vertical),
            ("LOOP".to_string(), Direction::Vertical),
            ("RUST".to_string(), Direction::Horizontal),
            ("TREE".to_string(), Direction::Vertical),
            ("WORLD".to_string(), Direction::Horizontal),
        ]
    );
}

#[test]
fn empty_word_is_refused() {
    let gen = WordSearchGenerator::new(lists(&["CAT", ""], &["CAR"]));
    let mut rng = StdRng::seed_from_u64(5);
    assert!(!gen.is_workable());
    assert!(gen.generate(1000, &mut rng).is_none());
}

#[test]
fn new_orders_longest_first() {
    let gen = WordSearchGenerator::new(lists(&["AB", "ABCD", "XY", "ABC"], &["Q"]));
    let got: Vec<String> = gen.horizontal_words.iter().map(|w| w.iter().collect()).collect();
    assert_eq!(got, vec!["ABCD", "ABC", "AB", "XY"]);
}

#[test]
fn estimate_floors_at_ten() {
    let gen = WordSearchGenerator::new(lists(&["CAT"], &["CAR"]));
    assert_eq!(gen.estimate_grid_size(), (10, 10));
}

#[test]
fn estimate_uses_letter_count() {
    // 200 letters: 200 * 85 / 100 = 170, whose square root rounds down to 13.
    let words: Vec<String> = (0..20).map(|_| "ABCDEFGHIJ".to_string()).collect();
    let w: Vec<&str> = words.iter().map(|s| s.as_str()).collect();
    let gen = WordSearchGenerator::new(lists(&w[..10], &w[10..]));
    assert_eq!(gen.estimate_grid_size(), (13, 13));
}

#[test]
fn estimate_widens_to_long_word() {
    let gen = WordSearchGenerator::new(lists(&["ABCDEFGHIJKLMNOP"], &["AB"]));
    assert_eq!(gen.estimate_grid_size(), (16, 10));
}

#[test]
fn schedule_escalates() {
    let s = stages();
    let got: Vec<(Strategy, usize)> = s.iter().map(|x| (x.strategy, x.size_tenths)).collect();
    assert_eq!(
        got,
        vec![
            (Strategy::Optimized, 6),
            (Strategy::IntersectionFirst, 7),
            (Strategy::Optimized, 8),
            (Strategy::Optimized, 10),
            (Strategy::Standard, 12),
        ]
    );
}

#[test]
fn integer_square_root() {
    assert_eq!(isqrt(0), 0);
    assert_eq!(isqrt(1), 1);
    assert_eq!(isqrt(15), 3);
    assert_eq!(isqrt(16), 4);
    assert_eq!(isqrt(170), 13);
    assert_eq!(isqrt(4_000_000_000_000), 2_000_000);
}

#[test]
fn acceptance_rule() {
    assert!(accept_move(5, 1_000_000, 999_999));
    assert!(!accept_move(0, 0, 0));
    // Loss equal to the temperature: 6 / 16 of the draws are taken.
    assert!(accept_move(-1000, 1000, 374_999));
    assert!(!accept_move(-1000, 1000, 375_000));
    // A loss of more than 40 temperatures is never taken.
    assert!(!accept_move(-41_000, 1000, 0));
}

#[test]
fn shuffled_order_is_a_permutation() {
    let mut rng = StdRng::seed_from_u64(9);
    let mut v = shuffled_order(&mut rng, 50);
    assert_eq!(v.len(), 50);
    let moved = v.iter().enumerate().any(|(i, x)| i != *x);
    assert!(moved);
    v.sort();
    assert_eq!(v, (0..50).collect::<Vec<usize>>());
}

#[test]
fn strategies_fill_a_roomy_grid() {
    let gen = WordSearchGenerator::new(lists(&["CAT", "DOG"], &["CAR", "GOAT"]));
    let mut rng = StdRng::seed_from_u64(21);
    for strategy in [Strategy::Optimized, Strategy::IntersectionFirst, Strategy::Standard] {
        let (grid, words) = gen.run_stage(strategy, 12, 12, 20, &mut rng).expect("a layout");
        assert_eq!((grid.width, grid.height), (12, 12));
        assert_eq!(words.len(), 4);
        for pw in &words {
            assert_eq!(grid.read_word(pw).unwrap(), pw.word);
        }
    }
}

#[test]
fn zero_attempts_give_nothing() {
    let gen = WordSearchGenerator::new(lists(&["CAT"], &["CAR"]));
    let mut rng = StdRng::seed_from_u64(2);
    assert!(gen.generate_optimized(10, 10, 0, &mut rng).is_none());
    assert!(gen.generate_intersection_first(10, 10, 0, &mut rng).is_none());
    assert!(gen.generate_with_size(10, 10, 0, &mut rng).is_none());
}

#[test]
fn annealing_never_loses_score() {
    let gen = WordSearchGenerator::new(lists(&["CAT", "DOG"], &["CAR", "GOAT"]));
    let mut rng = StdRng::seed_from_u64(8);
    let (grid, words) = gen.generate_with_size(12, 12, 5, &mut rng).expect("a layout");
    let before = gen.evaluate_solution(&grid, &words);
    let (g2, w2) = gen.generate_simulated_annealing((grid, words), 100, &mut rng);
    assert!(gen.evaluate_solution(&g2, &w2) >= before);
    assert_eq!(w2.len(), 4);
    for pw in &w2 {
        assert_eq!(g2.read_word(pw).unwrap(), pw.word);
    }
}

#[test]
fn moving_a_word_keeps_the_layout() {
    let gen = WordSearchGenerator::new(lists(&["CAT", "DOG"], &["CAR", "GOAT"]));
    let mut rng = StdRng::seed_from_u64(4);
    let (mut grid, mut words) = gen.generate_with_size(12, 12, 5, &mut rng).expect("a layout");
    let first = words[0].word.clone();
    gen.move_word(&mut grid, &mut words, 0);
    assert_eq!(words.len(), 4);
    assert_eq!(words[3].word, first);
    for pw in &words {
        assert_eq!(grid.read_word(pw).unwrap(), pw.word);
    }
}

#[test]
fn optimizing_an_empty_layout_does_nothing() {
    let gen = WordSearchGenerator::new(lists(&["CAT"], &[]));
    let mut rng = StdRng::seed_from_u64(4);
    let mut grid = Grid::new(4, 4);
    let mut words: Vec<PlacedWord> = Vec::new();
    assert!(!gen.try_optimize_single_word(&mut grid, &mut words, &mut rng));
    assert!(words.is_empty());
    assert!(grid.cells.iter().all(|r| r.iter().all(|c| c.is_none())));
}

#[test]
fn annealing_without_steps_returns_the_input() {
    let gen = WordSearchGenerator::new(lists(&["CAT", "DOG"], &["CAR", "GOAT"]));
    let mut rng = StdRng::seed_from_u64(6);
    let (grid, words) = gen.generate_with_size(12, 12, 5, &mut rng).expect("a layout");
    let cells = grid.cells.clone();
    let anchors: Vec<(usize, usize)> = words.iter().map(|w| (w.start_row, w.start_col)).collect();
    let (g2, w2) = gen.generate_simulated_annealing((grid, words), 0, &mut rng);
    assert_eq!(g2.cells, cells);
    assert_eq!(w2.iter().map(|w| (w.start_row, w.start_col)).collect::<Vec<_>>(), anchors);
}

#[test]
fn annealing_step_rejects_a_large_loss() {
    let gen = WordSearchGenerator::new(lists(&["CAT"], &["CAR"]));
    let mut g = Grid::new(3, 3);
    assert!(g.place_word(&chars("CAT"), 0, 2, Direction::Horizontal));
    assert!(g.place_word(&chars("CAR"), 2, 0, Direction::Vertical));
    let mut words = vec![
        PlacedWord { word: chars("CAT"), start_row: 0, start_col: 0, direction: Direction::Horizontal },
        PlacedWord { word: chars("CAR"), start_row: 0, start_col: 0, direction: Direction::Vertical },
    ];
    let mut score = gen.evaluate_solution(&g, &words);
    // At temperature zero a move that does not gain is never taken.
    let taken = gen.anneal_step(&mut g, &mut words, &mut score, 0, 0, 0);
    if !taken {
        assert_eq!(words[0].word, chars("CAT"));
    } else {
        assert!(score > 472222);
    }
}

#[test]
fn one_long_word_is_always_placed() {
    let long = "ABCDEFGHIJKLMNOPQRSTUVWXYZABCD";
    let gen = WordSearchGenerator::new(lists(&[long], &[]));
    let mut rng = StdRng::seed_from_u64(12);
    let (grid, words) = gen.generate(5, &mut rng).expect("a layout");
    assert_eq!((grid.height, grid.width), (1, 30));
    assert_eq!(words.len(), 1);
}

#[test]
fn too_long_a_word_gives_nothing() {
    let gen = WordSearchGenerator::new(lists(&["ABCDEFGHIJKL"], &["CAR"]));
    let mut rng = StdRng::seed_from_u64(2);
    assert!(gen.generate_optimized(10, 10, 50, &mut rng).is_none());
    assert!(gen.generate_intersection_first(10, 10, 50, &mut rng).is_none());
    assert!(gen.generate_with_size(10, 10, 50, &mut rng).is_none());
}

#[test]
fn lone_word_strategies_succeed() {
    let gen = WordSearchGenerator::new(lists(&["CAT"], &[]));
    let mut rng = StdRng::seed_from_u64(2);
    assert!(gen.generate_optimized(3, 1, 1, &mut rng).is_some());
    assert!(gen.generate_intersection_first(3, 1, 1, &mut rng).is_some());
    assert!(gen.generate_with_size(3, 1, 1, &mut rng).is_some());
}
