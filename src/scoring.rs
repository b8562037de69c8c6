use vstd::prelude::*;
use crate::generator::WordSearchGenerator;
use crate::grid::{Direction, Grid, PlacedWord, MAX_SIDE, row_of, col_of, span_start_row, span_start_col};

verus! {

/// Most words a generator takes.
pub const MAX_WORDS: usize = 100000;

/// The character at offset `i` of `pw` lies on a filled cell, and another filled cell
/// shares its column (Horizontal) or its row (Vertical).
pub open spec fn crossing_at(g: Grid, pw: PlacedWord, i: int) -> bool {
    let r = row_of(pw.direction, pw.start_row as int, i);
    let c = col_of(pw.direction, pw.start_col as int, i);
    &&& g.get(r, c).is_some()
    &&& if pw.direction == Direction::Horizontal {
        exists|r2: int| 0 <= r2 < g.height && r2 != r && (#[trigger] g.cell(r2, c)).is_some()
    } else {
        exists|c2: int| 0 <= c2 < g.width && c2 != c && (#[trigger] g.cell(r, c2)).is_some()
    }
}

/// Number of offsets below `n` at which `pw` crosses another word.
pub open spec fn crossings_upto(g: Grid, pw: PlacedWord, n: int) -> nat
    decreases n,
{
    if n <= 0 {
        0
    } else {
        crossings_upto(g, pw, n - 1) + if crossing_at(g, pw, n - 1) { 1nat } else { 0nat }
    }
}

/// Number of letters of `pw` at which another word crosses it.
pub open spec fn crossings(g: Grid, pw: PlacedWord) -> nat {
    crossings_upto(g, pw, pw.word@.len() as int)
}

/// Sum of the crossings of the first `n` words.
pub open spec fn total_crossings_upto(g: Grid, words: Seq<PlacedWord>, n: int) -> nat
    decreases n,
{
    if n <= 0 {
        0
    } else {
        total_crossings_upto(g, words, n - 1) + crossings(g, words[n - 1])
    }
}

/// Sum over all words of their crossings.
pub open spec fn total_crossings(g: Grid, words: Seq<PlacedWord>) -> nat {
    total_crossings_upto(g, words, words.len() as int)
}

proof fn lemma_crossings_bounded(g: Grid, pw: PlacedWord, n: int)
    requires
        0 <= n,
    ensures
        crossings_upto(g, pw, n) <= n,
    decreases n,
{
    if n > 0 {
        lemma_crossings_bounded(g, pw, n - 1);
    }
}

proof fn lemma_total_bounded(g: Grid, words: Seq<PlacedWord>, n: int)
    requires
        0 <= n <= words.len(),
        forall|k: int| 0 <= k < words.len() ==> (#[trigger] words[k]).word@.len() <= MAX_SIDE,
    ensures
        total_crossings_upto(g, words, n) <= n * MAX_SIDE,
    decreases n,
{
    if n > 0 {
        lemma_total_bounded(g, words, n - 1);
        lemma_crossings_bounded(g, words[n - 1], words[n - 1].word@.len() as int);
    }
}

/// Largest `r` with `r * r <= n`.
pub fn isqrt(n: u64) -> (r: u64)
    requires
        n <= 4_000_000_000_000,
    ensures
        r * r <= n < (r + 1) * (r + 1),
        r <= 2_000_000,
        r <= n,
        r == sqrt_floor(n as int),
{
    let mut lo: u64 = 0;
    let mut hi: u64 = 2_000_001;
    assert(n < hi * hi) by (nonlinear_arith)
        requires n <= 4_000_000_000_000, hi == 2_000_001;
    while lo + 1 < hi
        invariant
            lo < hi <= 2_000_001,
            lo * lo <= n,
            n < hi * hi,
            n <= 4_000_000_000_000,
        decreases hi - lo,
    {
        let mid = lo + (hi - lo) / 2;
        assert(mid * mid < 2_000_001 * 2_000_001) by (nonlinear_arith)
            requires mid < 2_000_001;
        if mid * mid <= n {
            lo = mid;
        } else {
            hi = mid;
        }
    }
    assert(lo <= 2_000_000) by (nonlinear_arith)
        requires lo * lo <= n, n <= 4_000_000_000_000, lo >= 0;
    assert(lo <= n) by (nonlinear_arith)
        requires lo * lo <= n, lo >= 0;
    proof { lemma_sqrt_below(n as int, n as int, lo as int); }
    lo
}

/// Largest integer whose square is at most `n`, found at or below `k`.
pub open spec fn sqrt_below(n: int, k: int) -> int
    decreases k,
{
    if k <= 0 || k * k <= n { if k <= 0 { 0 } else { k } } else { sqrt_below(n, k - 1) }
}

/// Largest integer whose square is at most `n`.
pub open spec fn sqrt_floor(n: int) -> int {
    sqrt_below(n, n)
}

proof fn lemma_sqrt_below(n: int, k: int, r: int)
    requires
        0 <= r <= k,
        r * r <= n < (r + 1) * (r + 1),
    ensures
        sqrt_below(n, k) == r,
    decreases k,
{
    if k > r {
        assert(k * k > n) by (nonlinear_arith)
            requires k >= r + 1, r >= 0, n < (r + 1) * (r + 1);
        lemma_sqrt_below(n, k - 1, r);
    }
}

/// Number of offsets below `n` whose cell already holds the word's own character.
pub open spec fn shared_upto(g: Grid, w: Seq<char>, sr: int, sc: int, dir: Direction, n: int) -> nat
    decreases n,
{
    if n <= 0 {
        0
    } else {
        shared_upto(g, w, sr, sc, dir, n - 1)
            + if g.cell(row_of(dir, sr, n - 1), col_of(dir, sc, n - 1)) == Some(w[n - 1]) { 1nat } else { 0nat }
    }
}

/// Score, in hundredths, of writing `w` with its last character at `(row, col)`:
/// 100 less the distance from the grid's centre, 75 per letter shared with the grid
/// (50 for the cell and 25 for the crossing), and 2 per letter of the word.
pub open spec fn placement_score(g: Grid, w: Seq<char>, row: int, col: int, dir: Direction) -> int {
    let sr = span_start_row(dir, w.len() as int, row);
    let sc = span_start_col(dir, w.len() as int, col);
    let dr = 2 * row - g.height;
    let dc = 2 * col - g.width;
    10000 + 200 * w.len() + 7500 * shared_upto(g, w, sr, sc, dir, w.len() as int)
        - sqrt_floor(2500 * (dr * dr + dc * dc))
}

/// Distance from `a` to `b`.
pub open spec fn gap(a: int, b: int) -> int {
    if a >= b { a - b } else { b - a }
}

/// Score, in thousandths, of a finished layout for the candidate-driven strategy:
/// 1000 / area + 100 / (1 + |height - width|) + 10 per crossing.
pub open spec fn candidate_layout_score(h: int, w: int, crossings: int) -> int {
    1_000_000int / (h * w) + 100_000int / (1 + gap(h, w)) + 10_000 * crossings
}

/// Score, in thousandths, of a layout for the crossing-seeded strategy and for the
/// local optimizer: 2000 / area + 200 / (1 + |height - width|) + 25 per crossing.
pub open spec fn crossing_layout_score(h: int, w: int, crossings: int) -> int {
    2_000_000int / (h * w) + 200_000int / (1 + gap(h, w)) + 25_000 * crossings
}

/// Cost of a layout for the random strategy (lower is better): 10 * area + 3 * |height - width|.
pub open spec fn random_layout_cost(h: int, w: int) -> int {
    10 * h * w + 3 * gap(h, w)
}

/// Every word has at most `MAX_SIDE` letters and there are at most `MAX_WORDS` of them.
pub open spec fn words_in_range(words: Seq<PlacedWord>) -> bool {
    &&& words.len() <= MAX_WORDS
    &&& forall|k: int| 0 <= k < words.len() ==> (#[trigger] words[k]).word@.len() <= MAX_SIDE
}

/// `crossing_layout_score` computed.
pub fn crossing_score(h: usize, w: usize, crossings: u64) -> (s: u64)
    requires
        1 <= h <= MAX_SIDE,
        1 <= w <= MAX_SIDE,
        crossings <= MAX_WORDS * MAX_SIDE * 2,
    ensures
        s == crossing_layout_score(h as int, w as int, crossings as int),
        s <= 100_000_000_000_000,
{
    assert(1 <= h * w <= 100_000_000) by (nonlinear_arith) requires 1 <= h <= 10000, 1 <= w <= 10000;
    let area = (h as u64) * (w as u64);
    let g: u64 = if h >= w { (h - w) as u64 } else { (w - h) as u64 };
    2_000_000 / area + 200_000 / (1 + g) + 25_000 * crossings
}

/// `candidate_layout_score` computed.
pub fn candidate_score(h: usize, w: usize, crossings: u64) -> (s: u64)
    requires
        1 <= h <= MAX_SIDE,
        1 <= w <= MAX_SIDE,
        crossings <= MAX_WORDS * MAX_SIDE,
    ensures
        s == candidate_layout_score(h as int, w as int, crossings as int),
{
    assert(1 <= h * w <= 100_000_000) by (nonlinear_arith) requires 1 <= h <= 10000, 1 <= w <= 10000;
    let area = (h as u64) * (w as u64);
    let g: u64 = if h >= w { (h - w) as u64 } else { (w - h) as u64 };
    1_000_000 / area + 100_000 / (1 + g) + 10_000 * crossings
}

/// `random_layout_cost` computed.
pub fn random_cost(h: usize, w: usize) -> (s: u64)
    requires
        1 <= h <= MAX_SIDE,
        1 <= w <= MAX_SIDE,
    ensures
        s == random_layout_cost(h as int, w as int),
        s <= 1_000_100_000,
{
    assert(1 <= h * w <= 100_000_000) by (nonlinear_arith) requires 1 <= h <= 10000, 1 <= w <= 10000;
    let area = (h as u64) * (w as u64);
    let g: u64 = if h >= w { (h - w) as u64 } else { (w - h) as u64 };
    assert(10 * h * w == 10 * area) by (nonlinear_arith) requires area == h * w;
    10 * area + 3 * g
}

/// Whether another filled cell shares column `c` (`along_row`) or row `r` with `(r, c)`.
fn line_has_other(grid: &Grid, r: usize, c: usize, along_row: bool) -> (b: bool)
    requires
        grid.wf(),
        r < grid.height,
        c < grid.width,
    ensures
        along_row ==> b == exists|r2: int| 0 <= r2 < grid.height && r2 != r && (#[trigger] grid.cell(r2, c as int)).is_some(),
        !along_row ==> b == exists|c2: int| 0 <= c2 < grid.width && c2 != c && (#[trigger] grid.cell(r as int, c2)).is_some(),
{
    if along_row {
        let mut r2: usize = 0;
        while r2 < grid.height
            invariant
                grid.wf(),
                c < grid.width,
                along_row,
                r2 <= grid.height,
                forall|i: int| 0 <= i < r2 && i != r ==> (#[trigger] grid.cell(i, c as int)).is_none(),
            decreases grid.height - r2,
        {
            if r2 != r && grid.cells[r2][c].is_some() {
                assert(grid.cell(r2 as int, c as int).is_some());
                return true;
            }
            r2 += 1;
        }
        false
    } else {
        let mut c2: usize = 0;
        while c2 < grid.width
            invariant
                grid.wf(),
                r < grid.height,
                !along_row,
                c2 <= grid.width,
                forall|j: int| 0 <= j < c2 && j != c ==> (#[trigger] grid.cell(r as int, j)).is_none(),
            decreases grid.width - c2,
        {
            if c2 != c && grid.cells[r][c2].is_some() {
                assert(grid.cell(r as int, c2 as int).is_some());
                return true;
            }
            c2 += 1;
        }
        false
    }
}

impl WordSearchGenerator {
    /// Score of writing `word` with its last character at `(row, col)`; see `placement_score`.
    pub fn calculate_placement_score(&self, grid: &Grid, word: &Vec<char>, row: usize, col: usize, direction: Direction) -> (s: i64)
        requires
            grid.wf(),
            grid.can_place_at(word@, row as int, col as int, direction),
        ensures
            s == placement_score(*grid, word@, row as int, col as int, direction),
    {
        let len = word.len();
        let sr: usize = if direction == Direction::Vertical { row + 1 - len } else { row };
        let sc: usize = if direction == Direction::Horizontal { col + 1 - len } else { col };
        let mut shared: u64 = 0;
        let mut i: usize = 0;
        while i < len
            invariant
                grid.wf(),
                len == word@.len(),
                i <= len,
                sr == span_start_row(direction, len as int, row as int),
                sc == span_start_col(direction, len as int, col as int),
                grid.accepts(word@, sr as int, sc as int, direction),
                shared == shared_upto(*grid, word@, sr as int, sc as int, direction, i as int),
                shared <= i,
            decreases len - i,
        {
            let r: usize = if direction == Direction::Vertical { sr + i } else { sr };
            let c: usize = if direction == Direction::Horizontal { sc + i } else { sc };
            if let Some(existing) = grid.cells[r][c] {
                if existing == word[i] {
                    shared += 1;
                }
            }
            i += 1;
        }
        let dr: i64 = 2 * (row as i64) - grid.height as i64;
        let dc: i64 = 2 * (col as i64) - grid.width as i64;
        assert(-20000 <= dr <= 20000 && -20000 <= dc <= 20000);
        assert(0 <= dr * dr <= 400_000_000 && 0 <= dc * dc <= 400_000_000) by (nonlinear_arith)
            requires -20000 <= dr <= 20000, -20000 <= dc <= 20000;
        let d2: u64 = (dr * dr + dc * dc) as u64;
        let root = isqrt(2500 * d2);
        10000 + 200 * (len as i64) + 7500 * (shared as i64) - root as i64
    }

    /// Score of a finished layout for the crossing-seeded strategy and the local optimizer.
    pub fn evaluate_solution(&self, grid: &Grid, placed_words: &Vec<PlacedWord>) -> (s: u64)
        requires
            grid.wf(),
            words_in_range(placed_words@),
        ensures
            s == crossing_layout_score(grid.used_height(), grid.used_width(), total_crossings(*grid, placed_words@) as int),
            s <= 100_000_000_000_000,
    {
        let (h, w) = grid.get_used_dimensions();
        let n = self.count_total_intersections(grid, placed_words);
        crossing_score(h, w, n)
    }
    /// Number of letters of `word` that another word crosses: the letter's cell is
    /// filled and so is another cell of its column (Horizontal) or row (Vertical).
    pub fn count_intersections(&self, grid: &Grid, word: &PlacedWord) -> (n: usize)
        requires
            grid.wf(),
        ensures
            n == crossings(*grid, *word),
    {
        let len = word.word.len();
        let mut count: usize = 0;
        let mut i: usize = 0;
        while i < len
            invariant
                grid.wf(),
                len == word.word@.len(),
                i <= len,
                count == crossings_upto(*grid, *word, i as int),
                count <= i,
            decreases len - i,
        {
            let sr = word.start_row;
            let sc = word.start_col;
            let horizontal = word.direction == Direction::Horizontal;
            let inside = if horizontal {
                sr < grid.height && sc < grid.width && i < grid.width - sc
            } else {
                sc < grid.width && sr < grid.height && i < grid.height - sr
            };
            if inside {
                let r = if horizontal { sr } else { sr + i };
                let c = if horizontal { sc + i } else { sc };
                if grid.cells[r][c].is_some() && line_has_other(grid, r, c, horizontal) {
                    count += 1;
                }
            }
            i += 1;
        }
        count
    }

    /// Sum over `placed_words` of `count_intersections`.
    pub fn count_total_intersections(&self, grid: &Grid, placed_words: &Vec<PlacedWord>) -> (n: u64)
        requires
            grid.wf(),
            words_in_range(placed_words@),
        ensures
            n == total_crossings(*grid, placed_words@),
            n <= MAX_WORDS * MAX_SIDE,
    {
        let mut total: u64 = 0;
        let mut k: usize = 0;
        while k < placed_words.len()
            invariant
                grid.wf(),
                words_in_range(placed_words@),
                k <= placed_words@.len(),
                total == total_crossings_upto(*grid, placed_words@, k as int),
            decreases placed_words@.len() - k,
        {
            proof {
                lemma_total_bounded(*grid, placed_words@, k as int + 1);
                lemma_crossings_bounded(*grid, placed_words@[k as int], placed_words@[k as int].word@.len() as int);
                assert((k + 1) * MAX_SIDE <= MAX_WORDS * MAX_SIDE) by (nonlinear_arith)
                    requires k + 1 <= MAX_WORDS;
            }
            let n = self.count_intersections(grid, &placed_words[k]);
            total = total + n as u64;
            k += 1;
        }
        proof {
            lemma_total_bounded(*grid, placed_words@, k as int);
            assert(k * MAX_SIDE <= MAX_WORDS * MAX_SIDE) by (nonlinear_arith)
                requires k <= MAX_WORDS;
        }
        total
    }
}

} // verus!
