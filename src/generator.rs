use rand::rngs::StdRng;
use vstd::prelude::*;
use crate::grid::{Grid, PlacedWord, MAX_SIDE};
use crate::layout::{lemma_same_entries_placed, layout_ok, places_each_once, solution_ok};
use crate::strategies::{lone_word_fits, pair_fits, rows_suffice, words_fit_grid};
use crate::scoring::{isqrt, sqrt_floor, words_in_range, MAX_WORDS};
use crate::trim::compact_layout;

verus! {

/// The words to place: horizontal ones run along rows, vertical ones along columns.
pub struct WordLists {
    pub horizontal: Vec<String>,
    pub vertical: Vec<String>,
}

/// Places a fixed set of horizontal and vertical words into a grid.
pub struct WordSearchGenerator {
    pub horizontal_words: Vec<Vec<char>>,
    pub vertical_words: Vec<Vec<char>>,
}

/// Every word has between 1 and `MAX_SIDE` letters.
pub open spec fn words_ok(ws: Seq<Vec<char>>) -> bool {
    forall|k: int| 0 <= k < ws.len() ==> 1 <= (#[trigger] ws[k])@.len() <= MAX_SIDE
}

/// Word lengths never increase along `ws`.
pub open spec fn longest_first(ws: Seq<Vec<char>>) -> bool {
    forall|a: int, b: int| 0 <= a < b < ws.len() ==> (#[trigger] ws[a])@.len() >= (#[trigger] ws[b])@.len()
}

/// `ws[k]` has the characters of `src[perm[k]]`, and `perm` names each position of
/// `src` once.
pub open spec fn reorders_by(ws: Seq<Vec<char>>, src: Seq<String>, perm: Seq<int>) -> bool {
    &&& ws.len() == src.len()
    &&& perm.len() == ws.len()
    &&& perm.no_duplicates()
    &&& forall|k: int| 0 <= k < ws.len() ==> 0 <= #[trigger] perm[k] < src.len() && ws[k]@ == src[perm[k]]@
}

/// Words of equal length stand in `ws` in the order their sources have in `src`.
pub open spec fn keeps_ties(ws: Seq<Vec<char>>, perm: Seq<int>) -> bool {
    forall|a: int, b: int| 0 <= a < b < ws.len() && (#[trigger] ws[a])@.len() == (#[trigger] ws[b])@.len() ==> perm[a] < perm[b]
}

/// `ws` holds the characters of the strings of `src`, each once, words of equal length
/// in their order in `src`.
pub open spec fn reorders(ws: Seq<Vec<char>>, src: Seq<String>) -> bool {
    exists|perm: Seq<int>| reorders_by(ws, src, perm) && keeps_ties(ws, perm)
}

/// Length of the longest word of `ws`, 0 when there is none.
pub open spec fn max_len(ws: Seq<Vec<char>>) -> nat
    decreases ws.len(),
{
    if ws.len() == 0 {
        0
    } else {
        let m = max_len(ws.drop_last());
        if ws.last()@.len() > m { ws.last()@.len() } else { m }
    }
}

/// Total number of letters of `ws`.
pub open spec fn total_len(ws: Seq<Vec<char>>) -> nat
    decreases ws.len(),
{
    if ws.len() == 0 { 0 } else { total_len(ws.drop_last()) + ws.last()@.len() }
}

/// Larger of `a` and `b`.
pub open spec fn larger(a: int, b: int) -> int {
    if a >= b { a } else { b }
}

/// The characters of `s`.
fn chars_of(s: &String) -> (r: Vec<char>)
    ensures
        r@ == s@,
{
    let t = s.as_str();
    let n = t.unicode_len();
    let mut r: Vec<char> = Vec::new();
    let mut i: usize = 0;
    while i < n
        invariant
            n == t@.len(),
            t@ == s@,
            i <= n,
            r@ == t@.subrange(0, i as int),
        decreases n - i,
    {
        r.push(t.get_char(i));
        i += 1;
    }
    assert(r@ == t@);
    r
}

/// The characters of each string, longest first; words of equal length keep their order.
fn sorted_by_length(src: &Vec<String>) -> (r: Vec<Vec<char>>)
    ensures
        longest_first(r@),
        reorders(r@, src@),
{
    let mut v: Vec<Vec<char>> = Vec::new();
    let mut k: usize = 0;
    while k < src.len()
        invariant
            k <= src@.len(),
            v@.len() == k,
            forall|j: int| 0 <= j < k ==> (#[trigger] v@[j])@ == src@[j]@,
        decreases src@.len() - k,
    {
        v.push(chars_of(&src[k]));
        k += 1;
    }
    let n = v.len();
    let ghost mut perm: Seq<int> = Seq::new(n as nat, |p: int| p);
    assert(reorders_by(v@, src@, perm));
    let mut i: usize = 0;
    while i < n
        invariant
            n == v@.len(),
            n == src@.len(),
            i <= n,
            reorders_by(v@, src@, perm),
            longest_first(v@.subrange(0, i as int)),
            forall|x: int| i <= x < n ==> #[trigger] perm[x] == x,
            forall|x: int| 0 <= x < i ==> #[trigger] perm[x] < i,
            forall|a: int, b: int| 0 <= a < b < i && (#[trigger] v@[a])@.len() == (#[trigger] v@[b])@.len() ==> perm[a] < perm[b],
        decreases n - i,
    {
        let mut j: usize = i;
        assert(perm[i as int] == i);
        assert forall|a: int, b: int| 0 <= a < b <= i && a != j && b != j implies v@[a]@.len() >= v@[b]@.len() by {
            assert(v@.subrange(0, i as int)[a] == v@[a]);
            assert(v@.subrange(0, i as int)[b] == v@[b]);
        }
        while j > 0 && v[j - 1].len() < v[j].len()
            invariant
                n == v@.len(),
                n == src@.len(),
                j <= i < n,
                reorders_by(v@, src@, perm),
                forall|a: int, b: int| 0 <= a < b <= i && a != j && b != j ==> v@[a]@.len() >= v@[b]@.len(),
                forall|b: int| j < b <= i ==> v@[j as int]@.len() > v@[b]@.len(),
                forall|x: int| i < x < n ==> #[trigger] perm[x] == x,
                forall|x: int| 0 <= x <= i && x != j ==> #[trigger] perm[x] < i,
                perm[j as int] == i,
                forall|a: int, b: int| 0 <= a < b <= i && a != j && b != j && (#[trigger] v@[a])@.len() == (#[trigger] v@[b])@.len()
                    ==> perm[a] < perm[b],
            decreases j,
        {
            let ghost before = v@;
            let moving = v.remove(j);
            v.insert(j - 1, moving);
            proof {
                assert(v@ =~= before.update(j as int, before[j - 1]).update(j - 1, before[j as int]));
                let p2 = perm.update(j as int, perm[j - 1]).update(j - 1, perm[j as int]);
                assert forall|x: int, y: int| 0 <= x < p2.len() && 0 <= y < p2.len() && x != y implies p2[x] != p2[y] by {
                    let ox = if x == j { j - 1 } else if x == j - 1 { j as int } else { x };
                    let oy = if y == j { j - 1 } else if y == j - 1 { j as int } else { y };
                    assert(p2[x] == perm[ox]);
                    assert(p2[y] == perm[oy]);
                }
                assert forall|x: int| 0 <= x < v@.len() implies 0 <= #[trigger] p2[x] < src@.len() && v@[x]@ == src@[p2[x]]@ by {
                    let ox = if x == j { j - 1 } else if x == j - 1 { j as int } else { x };
                    assert(v@[x] == before[ox]);
                    assert(p2[x] == perm[ox]);
                }
                assert forall|a: int, b: int| 0 <= a < b <= i && a != j - 1 && b != j - 1
                    && (#[trigger] v@[a])@.len() == (#[trigger] v@[b])@.len() implies p2[a] < p2[b] by {
                    let oa = if a == j { j - 1 } else { a };
                    let ob = if b == j { j - 1 } else { b };
                    assert(v@[a] == before[oa] && v@[b] == before[ob]);
                    assert(p2[a] == perm[oa] && p2[b] == perm[ob]);
                }
                perm = p2;
            }
            j -= 1;
        }
        proof {
            assert forall|a: int, b: int| 0 <= a < b < i + 1 implies
                (#[trigger] v@.subrange(0, i + 1)[a])@.len() >= (#[trigger] v@.subrange(0, i + 1)[b])@.len() by {
                if b == j && a < j {
                    assert(v@[a]@.len() >= v@[j - 1]@.len() || a == j - 1);
                }
            }
            assert forall|a: int, b: int| 0 <= a < b < i + 1 && (#[trigger] v@[a])@.len() == (#[trigger] v@[b])@.len()
                implies perm[a] < perm[b] by {
                if b == j {
                    assert(perm[a] < i);
                } else if a == j {
                    assert(v@[j as int]@.len() > v@[b]@.len());
                }
            }
        }
        i += 1;
    }
    assert(v@.subrange(0, n as int) == v@);
    assert(keeps_ties(v@, perm));
    assert(reorders_by(v@, src@, perm));
    v
}

impl WordSearchGenerator {
    /// The words of `word_lists`, each list ordered longest first (equal lengths keep
    /// their order).
    pub fn new(word_lists: WordLists) -> (g: Self)
        ensures
            longest_first(g.horizontal_words@),
            longest_first(g.vertical_words@),
            reorders(g.horizontal_words@, word_lists.horizontal@),
            reorders(g.vertical_words@, word_lists.vertical@),
    {
        let horizontal_words = sorted_by_length(&word_lists.horizontal);
        let vertical_words = sorted_by_length(&word_lists.vertical);
        WordSearchGenerator { horizontal_words, vertical_words }
    }

    /// The word lists can be worked on: no word is empty or longer than `MAX_SIDE`,
    /// and there are at most `MAX_WORDS` words.
    pub open spec fn wf(&self) -> bool {
        &&& words_ok(self.horizontal_words@)
        &&& words_ok(self.vertical_words@)
        &&& self.horizontal_words@.len() + self.vertical_words@.len() <= MAX_WORDS
    }
}

/// Smallest side the size estimate gives.
pub const MIN_SIDE: usize = 10;

/// Steps of local optimization applied to the first complete layout.
pub const ANNEALING_ITERATIONS: usize = 100;

/// Escalation stages; the attempt budget is split evenly over them.
pub const STAGE_COUNT: usize = 5;

/// A placement procedure.
#[derive(Clone, Copy, Debug, PartialEq, Eq, Structural)]
pub enum Strategy {
    /// `generate_optimized`.
    Optimized,
    /// `generate_intersection_first`.
    IntersectionFirst,
    /// `generate_with_size`.
    Standard,
}

/// One stage of the escalation: a strategy and the grid size, in tenths of the estimate.
#[derive(Clone, Copy, Debug, PartialEq, Eq, Structural)]
pub struct Stage {
    pub strategy: Strategy,
    pub size_tenths: usize,
}

/// The escalation schedule, tried in order.
pub open spec fn schedule() -> Seq<Stage> {
    seq![
        Stage { strategy: Strategy::Optimized, size_tenths: 6 },
        Stage { strategy: Strategy::IntersectionFirst, size_tenths: 7 },
        Stage { strategy: Strategy::Optimized, size_tenths: 8 },
        Stage { strategy: Strategy::Optimized, size_tenths: 10 },
        Stage { strategy: Strategy::Standard, size_tenths: 12 },
    ]
}

/// The escalation schedule: candidate-driven at 0.6, 0.7 seeded, then candidate-driven
/// at 0.8 and 1.0, and random placement at 1.2 times the estimated size.
pub fn stages() -> (v: Vec<Stage>)
    ensures
        v@ == schedule(),
{
    let v = vec![
        Stage { strategy: Strategy::Optimized, size_tenths: 6 },
        Stage { strategy: Strategy::IntersectionFirst, size_tenths: 7 },
        Stage { strategy: Strategy::Optimized, size_tenths: 8 },
        Stage { strategy: Strategy::Optimized, size_tenths: 10 },
        Stage { strategy: Strategy::Standard, size_tenths: 12 },
    ];
    assert(v@ =~= schedule());
    v
}

/// Length of the longest of `ws`.
fn longest(ws: &Vec<Vec<char>>) -> (n: usize)
    ensures
        n == max_len(ws@),
{
    let mut m: usize = 0;
    let mut k: usize = 0;
    while k < ws.len()
        invariant
            k <= ws@.len(),
            m == max_len(ws@.subrange(0, k as int)),
        decreases ws@.len() - k,
    {
        assert(ws@.subrange(0, k + 1).drop_last() == ws@.subrange(0, k as int));
        if ws[k].len() > m {
            m = ws[k].len();
        }
        k += 1;
    }
    assert(ws@.subrange(0, ws@.len() as int) == ws@);
    m
}

proof fn lemma_total_len_bound(ws: Seq<Vec<char>>)
    requires
        words_ok(ws),
    ensures
        total_len(ws) <= ws.len() * MAX_SIDE,
    decreases ws.len(),
{
    if ws.len() > 0 {
        assert(words_ok(ws.drop_last())) by {
            assert forall|k: int| 0 <= k < ws.drop_last().len() implies 1 <= (#[trigger] ws.drop_last()[k])@.len() <= MAX_SIDE by {
                assert(ws.drop_last()[k] == ws[k]);
            }
        }
        lemma_total_len_bound(ws.drop_last());
        assert(ws.len() * MAX_SIDE == (ws.len() - 1) * MAX_SIDE + MAX_SIDE) by (nonlinear_arith);
    }
}

proof fn lemma_max_len_ge(ws: Seq<Vec<char>>, k: int)
    requires
        0 <= k < ws.len(),
    ensures
        ws[k]@.len() <= max_len(ws),
    decreases ws.len(),
{
    if k < ws.len() - 1 {
        assert(ws.drop_last()[k] == ws[k]);
        lemma_max_len_ge(ws.drop_last(), k);
    }
}

proof fn lemma_max_len_bound(ws: Seq<Vec<char>>)
    requires
        words_ok(ws),
    ensures
        max_len(ws) <= MAX_SIDE,
    decreases ws.len(),
{
    if ws.len() > 0 {
        assert(words_ok(ws.drop_last())) by {
            assert forall|k: int| 0 <= k < ws.drop_last().len() implies 1 <= (#[trigger] ws.drop_last()[k])@.len() <= MAX_SIDE by {
                assert(ws.drop_last()[k] == ws[k]);
            }
        }
        lemma_max_len_bound(ws.drop_last());
    }
}

/// Total letters of `ws`.
fn letters(ws: &Vec<Vec<char>>) -> (n: u64)
    requires
        words_ok(ws@),
        ws@.len() <= MAX_WORDS,
    ensures
        n == total_len(ws@),
        n <= MAX_WORDS * MAX_SIDE,
{
    let mut t: u64 = 0;
    let mut k: usize = 0;
    while k < ws.len()
        invariant
            words_ok(ws@),
            ws@.len() <= MAX_WORDS,
            k <= ws@.len(),
            t == total_len(ws@.subrange(0, k as int)),
            t <= k * MAX_SIDE,
        decreases ws@.len() - k,
    {
        assert(ws@.subrange(0, k + 1).drop_last() == ws@.subrange(0, k as int));
        assert(ws@[k as int]@.len() <= MAX_SIDE);
        assert(k * MAX_SIDE + MAX_SIDE == (k + 1) * MAX_SIDE) by (nonlinear_arith);
        assert((k + 1) * MAX_SIDE <= MAX_WORDS * MAX_SIDE) by (nonlinear_arith)
            requires k + 1 <= MAX_WORDS;
        t = t + ws[k].len() as u64;
        k += 1;
    }
    assert(ws@.subrange(0, ws@.len() as int) == ws@);
    assert(k * MAX_SIDE <= MAX_WORDS * MAX_SIDE) by (nonlinear_arith)
        requires k <= MAX_WORDS;
    t
}

/// A finished layout of this generator's words: each readable at its anchor, one
/// placed word per input word, and no empty row or column left in the grid.
pub open spec fn final_layout_ok(gen: WordSearchGenerator, g: Grid, words: Seq<PlacedWord>) -> bool {
    &&& layout_ok(g, words)
    &&& places_each_once(gen, words)
    &&& !g.has_empty_line()
}

impl WordSearchGenerator {
    /// Width and height to start from: the side of a square holding 85 percent of all
    /// letters, widened to the longest horizontal word, the number of vertical words
    /// and `MIN_SIDE`, and heightened to the longest vertical word, the number of
    /// horizontal words and `MIN_SIDE`.
    pub open spec fn estimated_size(&self) -> (int, int) {
        let total = total_len(self.horizontal_words@) + total_len(self.vertical_words@);
        let side = sqrt_floor((total * 85 / 100) as int);
        let min_width = larger(larger(max_len(self.horizontal_words@) as int, self.vertical_words@.len() as int), MIN_SIDE as int);
        let min_height = larger(larger(max_len(self.vertical_words@) as int, self.horizontal_words@.len() as int), MIN_SIDE as int);
        (larger(side, min_width), larger(side, min_height))
    }

    /// Whether the word lists can be worked on; see `wf`.
    pub fn is_workable(&self) -> (b: bool)
        ensures
            b == self.wf(),
    {
        if self.horizontal_words.len() > MAX_WORDS || self.vertical_words.len() > MAX_WORDS - self.horizontal_words.len() {
            return false;
        }
        words_fit(&self.horizontal_words) && words_fit(&self.vertical_words)
    }

    /// The starting grid size; see `estimated_size`.
    pub fn estimate_grid_size(&self) -> (r: (usize, usize))
        requires
            self.wf(),
        ensures
            r.0 == self.estimated_size().0,
            r.1 == self.estimated_size().1,
            r.0 >= max_len(self.horizontal_words@),
            r.1 >= MIN_SIDE,
            r.1 >= self.horizontal_words@.len(),
            total_len(self.horizontal_words@) + total_len(self.vertical_words@) <= MAX_SIDE
                && self.horizontal_words@.len() <= MAX_SIDE && self.vertical_words@.len() <= MAX_SIDE
                ==> r.0 <= MAX_SIDE && r.1 <= MAX_SIDE,
    {
        let max_h_len = longest(&self.horizontal_words);
        let max_v_len = longest(&self.vertical_words);
        let h_chars = letters(&self.horizontal_words);
        let v_chars = letters(&self.vertical_words);
        proof {
            assert(self.horizontal_words@.len() * MAX_SIDE + self.vertical_words@.len() * MAX_SIDE <= MAX_WORDS * MAX_SIDE)
                by (nonlinear_arith) requires self.horizontal_words@.len() + self.vertical_words@.len() <= MAX_WORDS;
            lemma_total_len_bound(self.horizontal_words@);
            lemma_total_len_bound(self.vertical_words@);
        }
        let total = h_chars + v_chars;
        let estimated_area = total * 85 / 100;
        let side = isqrt(estimated_area);
        let nh = self.horizontal_words.len();
        let nv = self.vertical_words.len();
        let a = if max_h_len >= nv { max_h_len } else { nv };
        let min_width = if a >= MIN_SIDE { a } else { MIN_SIDE };
        let b = if max_v_len >= nh { max_v_len } else { nh };
        let min_height = if b >= MIN_SIDE { b } else { MIN_SIDE };
        proof {
            lemma_max_len_bound(self.horizontal_words@);
            lemma_max_len_bound(self.vertical_words@);
        }
        let side = side as usize;
        let width = if side >= min_width { side } else { min_width };
        let height = if side >= min_height { side } else { min_height };
        (width, height)
    }
}

impl WordSearchGenerator {
    /// Runs `strategy` on a `width` by `height` grid with `attempts` attempts.
    pub fn run_stage(&self, strategy: Strategy, width: usize, height: usize, attempts: usize, rng: &mut StdRng) -> (r: Option<(Grid, Vec<PlacedWord>)>)
        requires
            self.wf(),
            width <= MAX_SIDE,
            height <= MAX_SIDE,
        ensures
            r matches Some(s) ==> solution_ok(*self, width as int, height as int, s.0, s.1@),
            attempts == 0 ==> r is None,
            !words_fit_grid(*self, width as int, height as int) ==> r is None,
            attempts >= 1 && lone_word_fits(*self, width as int, height as int) ==> r is Some,
            attempts >= 1 && strategy == Strategy::Optimized && rows_suffice(*self, width as int, height as int) ==> r is Some,
            attempts >= 1 && strategy == Strategy::Optimized && pair_fits(*self, width as int, height as int) ==> r is Some,
    {
        match strategy {
            Strategy::IntersectionFirst => self.generate_intersection_first(width, height, attempts, rng),
            Strategy::Optimized => self.generate_optimized(width, height, attempts, rng),
            Strategy::Standard => self.generate_with_size(width, height, attempts, rng),
        }
    }

    /// Improves and trims a complete layout: simulated annealing, then compaction to
    /// the used box, then removal of empty rows and columns until none is left.
    pub fn finish_layout(&self, solution: (Grid, Vec<PlacedWord>), rng: &mut StdRng) -> (r: (Grid, Vec<PlacedWord>))
        requires
            layout_ok(solution.0, solution.1@),
            words_in_range(solution.1@),
            places_each_once(*self, solution.1@),
        ensures
            layout_ok(r.0, r.1@),
            r.1@.len() == solution.1@.len(),
            places_each_once(*self, r.1@),
            !r.0.has_empty_line(),
    {
        let (mut grid, mut words) = self.generate_simulated_annealing(solution, ANNEALING_ITERATIONS, rng);
        let ghost w1 = words@;
        compact_layout(&mut grid, &mut words);
        proof { lemma_same_entries_placed(*self, w1, words@); }
        loop
            invariant
                layout_ok(grid, words@),
                words@.len() == solution.1@.len(),
                places_each_once(*self, words@),
            ensures
                layout_ok(grid, words@),
                words@.len() == solution.1@.len(),
                places_each_once(*self, words@),
                !grid.has_empty_line(),
            decreases grid.height + grid.width,
        {
            let ghost w2 = words@;
            let changed = grid.try_remove_empty_rows_cols(&mut words);
            proof { lemma_same_entries_placed(*self, w2, words@); }
            if !changed {
                break;
            }
        }
        (grid, words)
    }

    /// Places every word, escalating through `stages`: each stage runs its strategy
    /// on the estimated size scaled by its factor, with `max_attempts / STAGE_COUNT`
    /// attempts. The first stage that completes a layout ends the search; its layout
    /// goes through `finish_layout`. `None` when no stage completes one, when a word
    /// is empty or longer than `MAX_SIDE`, or when there are more than `MAX_WORDS` words.
    /// A stage whose grid would exceed `MAX_SIDE` is passed over.
    pub fn generate(&self, max_attempts: usize, rng: &mut StdRng) -> (r: Option<(Grid, Vec<PlacedWord>)>)
        ensures
            r matches Some(s) ==> final_layout_ok(*self, s.0, s.1@),
            !self.wf() ==> r is None,
            max_attempts < STAGE_COUNT ==> r is None,
            max_attempts >= STAGE_COUNT && self.vertical_words@.len() == 0 && words_ok(self.horizontal_words@)
                && total_len(self.horizontal_words@) <= MAX_SIDE && self.horizontal_words@.len() <= MAX_SIDE ==> r is Some,
            max_attempts >= STAGE_COUNT && self.horizontal_words@.len() == 1 && self.vertical_words@.len() == 1
                && 1 <= self.horizontal_words@[0]@.len() <= 6 && 1 <= self.vertical_words@[0]@.len() <= 3 ==> r is Some,
    {
        if !self.is_workable() {
            return None;
        }
        let (initial_width, initial_height) = self.estimate_grid_size();
        let ghost lone = max_attempts >= STAGE_COUNT && self.vertical_words@.len() == 0
            && total_len(self.horizontal_words@) <= MAX_SIDE && self.horizontal_words@.len() <= MAX_SIDE;
        proof {
            if lone {
                assert(total_len(self.vertical_words@) == 0);
                assert forall|k: int| 0 <= k < self.horizontal_words@.len() implies
                    (#[trigger] self.horizontal_words@[k])@.len() <= initial_width by {
                    lemma_max_len_ge(self.horizontal_words@, k);
                }
            }
        }
        let ghost pair = max_attempts >= STAGE_COUNT && self.horizontal_words@.len() == 1 && self.vertical_words@.len() == 1
            && self.horizontal_words@[0]@.len() <= 6 && self.vertical_words@[0]@.len() <= 3;
        proof {
            if pair {
                let hw = self.horizontal_words@;
                let vw = self.vertical_words@;
                assert(hw.drop_last().len() == 0 && vw.drop_last().len() == 0);
                assert(total_len(hw.drop_last()) == 0 && total_len(vw.drop_last()) == 0);
                assert(total_len(hw) == hw[0]@.len());
                assert(total_len(vw) == vw[0]@.len());
            }
        }
        let attempts = max_attempts / STAGE_COUNT;
        let plan = stages();
        let mut i: usize = 0;
        while i < plan.len()
            invariant
                self.wf(),
                attempts == max_attempts / STAGE_COUNT,
                plan@ == schedule(),
                i <= plan@.len(),
                lone == (max_attempts >= STAGE_COUNT && self.vertical_words@.len() == 0
                    && total_len(self.horizontal_words@) <= MAX_SIDE && self.horizontal_words@.len() <= MAX_SIDE),
                lone ==> i <= 3,
                pair == (max_attempts >= STAGE_COUNT && self.horizontal_words@.len() == 1 && self.vertical_words@.len() == 1
                    && self.horizontal_words@[0]@.len() <= 6 && self.vertical_words@[0]@.len() <= 3),
                pair ==> i == 0 && attempts >= 1 && initial_width <= MAX_SIDE && initial_height <= MAX_SIDE
                    && initial_width >= MIN_SIDE && initial_height >= MIN_SIDE,
                lone ==> attempts >= 1 && initial_width <= MAX_SIDE && initial_height <= MAX_SIDE
                    && initial_height >= self.horizontal_words@.len()
                    && forall|k: int| 0 <= k < self.horizontal_words@.len() ==> (#[trigger] self.horizontal_words@[k])@.len() <= initial_width,
            decreases plan@.len() - i,
        {
            let stage = plan[i];
            assert(schedule().len() == 5);
            assert(schedule()[0].size_tenths <= 12 && schedule()[1].size_tenths <= 12 && schedule()[2].size_tenths <= 12
                && schedule()[3].size_tenths <= 12 && schedule()[4].size_tenths <= 12);
            assert(stage.size_tenths <= 12);
            if initial_width <= MAX_SIDE && initial_height <= MAX_SIDE {
                assert(initial_width * stage.size_tenths <= 120000 && initial_height * stage.size_tenths <= 120000)
                    by (nonlinear_arith)
                    requires initial_width <= 10000, initial_height <= 10000, stage.size_tenths <= 12;
                let width = initial_width * stage.size_tenths / 10;
                let height = initial_height * stage.size_tenths / 10;
                proof {
                    if pair {
                        assert(stage.size_tenths == 6 && stage.strategy == Strategy::Optimized);
                        assert(initial_width * 6 / 10 >= 6 && initial_height * 6 / 10 >= 6) by (nonlinear_arith)
                            requires initial_width >= 10, initial_height >= 10;
                        assert(pair_fits(*self, width as int, height as int));
                    }
                    if lone && i == 3 {
                        assert(stage.size_tenths == 10 && stage.strategy == Strategy::Optimized);
                        assert(initial_width * 10 / 10 == initial_width && initial_height * 10 / 10 == initial_height)
                            by (nonlinear_arith);
                        assert(rows_suffice(*self, width as int, height as int));
                    }
                }
                if width <= MAX_SIDE && height <= MAX_SIDE {
                    if let Some(solution) = self.run_stage(stage.strategy, width, height, attempts, rng) {
                        proof { crate::layout::lemma_layout_in_range(solution.0, solution.1@); }
                        return Some(self.finish_layout(solution, rng));
                    }
                }
            }
            i += 1;
        }
        None
    }
}

/// Whether every word of `ws` has between 1 and `MAX_SIDE` letters.
fn words_fit(ws: &Vec<Vec<char>>) -> (b: bool)
    ensures
        b == words_ok(ws@),
{
    let mut k: usize = 0;
    while k < ws.len()
        invariant
            k <= ws@.len(),
            forall|j: int| 0 <= j < k ==> 1 <= (#[trigger] ws@[j])@.len() <= MAX_SIDE,
        decreases ws@.len() - k,
    {
        let n = ws[k].len();
        if n == 0 || n > MAX_SIDE {
            assert(!(1 <= ws@[k as int]@.len() <= MAX_SIDE));
            return false;
        }
        k += 1;
    }
    true
}

} // verus!
