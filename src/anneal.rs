use rand::rngs::StdRng;
use vstd::prelude::*;
use crate::generator::WordSearchGenerator;
use crate::candidates::has_place;
use crate::grid::{col_of, row_of, span_start_col, span_start_row, Direction, Grid, PlacedWord};
use crate::layout::{same_words, duplicate_words, lemma_moved_to_end_placed, lemma_same_entries_placed, lemma_same_layout, layout_ok, places_each_once};
use crate::random::draw_below;
use crate::scoring::{crossing_layout_score, total_crossings, words_in_range};

verus! {

/// Starting temperature, in thousandths of a score point.
pub const INITIAL_TEMPERATURE: u64 = 1_000_000;

/// Iterations between two coolings.
pub const COOLING_PERIOD: usize = 50;

/// Random draws for the acceptance test fall in `0..DRAW_RANGE`.
pub const DRAW_RANGE: usize = 1_000_000;

/// Candidates tried when a word is moved.
pub const MOVE_CANDIDATES: usize = 5;

/// The temperature after one cooling step: 95 percent of `t`, rounded down.
pub open spec fn cooled(t: int) -> int {
    t * 95 / 100
}

/// Whether a move that changes the score by `delta` is taken at temperature `t` when
/// the random draw is `draw`. A gain is always taken. A loss `y` is taken with
/// probability `1 / (1 + x + x^2/2 + x^3/6)`, `x = y / t`, the leading terms of
/// `exp(-x)`'s reciprocal series; never when `x > 40` or the temperature is zero.
pub open spec fn move_taken(delta: int, t: int, draw: int) -> bool {
    if delta > 0 {
        true
    } else if t == 0 || -delta > 40 * t {
        false
    } else {
        let y = -delta;
        draw * (6 * t * t * t + 6 * t * t * y + 3 * t * y * y + y * y * y) < DRAW_RANGE * (6 * t * t * t)
    }
}

/// Score of a layout as the local optimizer weighs it.
pub open spec fn layout_score(g: Grid, words: Seq<PlacedWord>) -> int {
    crossing_layout_score(g.used_height(), g.used_width(), total_crossings(g, words) as int)
}

/// Whether a move that changes the score by `delta` is taken; see `move_taken`.
pub fn accept_move(delta: i64, temperature: u64, draw: u64) -> (r: bool)
    requires
        temperature <= INITIAL_TEMPERATURE,
        draw < DRAW_RANGE,
        delta > i64::MIN,
    ensures
        r == move_taken(delta as int, temperature as int, draw as int),
{
    if delta > 0 {
        return true;
    }
    if temperature == 0 || -(delta as i128) > 40 * (temperature as i128) {
        return false;
    }
    let t = temperature as u128;
    let y = (-(delta as i128)) as u128;
    assert(t <= 1_000_000 && y <= 40_000_000);
    assert(t * t <= 1_000_000_000_000 && t * t * t <= 1_000_000_000_000_000_000) by (nonlinear_arith)
        requires t <= 1_000_000;
    assert(t * t * y <= 40_000_000_000_000_000_000) by (nonlinear_arith)
        requires t * t <= 1_000_000_000_000, y <= 40_000_000;
    assert(y * y <= 1_600_000_000_000_000 && t * y * y <= 1_600_000_000_000_000_000_000) by (nonlinear_arith)
        requires t <= 1_000_000, y <= 40_000_000;
    assert(y * y * y <= 64_000_000_000_000_000_000_000) by (nonlinear_arith)
        requires y * y <= 1_600_000_000_000_000, y <= 40_000_000;
    let t2 = t * t;
    let t3 = t2 * t;
    let t2y = t2 * y;
    let y2 = y * y;
    assert(t * y2 <= 1_600_000_000_000_000_000_000) by (nonlinear_arith)
        requires y2 == y * y, t <= 1_000_000, y <= 40_000_000, y * y <= 1_600_000_000_000_000;
    let ty2 = t * y2;
    let y3 = y2 * y;
    assert(t3 == t * t * t && t2y == t * t * y && ty2 == t * y * y && y3 == y * y * y) by (nonlinear_arith)
        requires t2 == t * t, t3 == t2 * t, t2y == t2 * y, y2 == y * y, ty2 == t * y2, y3 == y2 * y;
    let denom = 6 * t3 + 6 * t2y + 3 * ty2 + y3;
    assert(denom <= 100_000_000_000_000_000_000_000);
    assert(denom == 6 * t * t * t + 6 * t * t * y + 3 * t * y * y + y * y * y
        && 6 * t3 == 6 * t * t * t) by (nonlinear_arith)
        requires denom == 6 * t3 + 6 * t2y + 3 * ty2 + y3, t3 == t * t * t, t2y == t * t * y, ty2 == t * y * y, y3 == y * y * y;
    assert(y == -delta);
    assert((draw as u128) * denom <= 1_000_000 * 100_000_000_000_000_000_000_000) by (nonlinear_arith)
        requires draw < 1_000_000, denom <= 100_000_000_000_000_000_000_000;
    (draw as u128) * denom < (DRAW_RANGE as u128) * (6 * t3)
}

impl WordSearchGenerator {
    /// Lifts word `idx` from the layout and places it again at the first fitting of
    /// its `MOVE_CANDIDATES` best places, appending it to the list. Its old place is
    /// free once it is lifted, so a place always fits.
    pub fn move_word(&self, grid: &mut Grid, placed_words: &mut Vec<PlacedWord>, idx: usize)
        requires
            layout_ok(*old(grid), old(placed_words)@),
            idx < old(placed_words)@.len(),
        ensures
            layout_ok(*final(grid), final(placed_words)@),
            final(grid).width == old(grid).width,
            final(grid).height == old(grid).height,
            final(placed_words)@.len() == old(placed_words)@.len(),
            final(placed_words)@.drop_last() == old(placed_words)@.remove(idx as int),
            final(placed_words)@.last().word@ == old(placed_words)@[idx as int].word@,
            final(placed_words)@.last().direction == old(placed_words)@[idx as int].direction,
    {
        let ghost before = placed_words@;
        let ghost g0 = *grid;
        let removed = placed_words.remove(idx);
        assert(removed == before[idx as int]);
        assert forall|k: int| 0 <= k < placed_words@.len() implies grid.holds_word(#[trigger] placed_words@[k]) && placed_words@[k].word@.len() >= 1 by {
            if k < idx {
                assert(placed_words@[k] == before[k]);
            } else {
                assert(placed_words@[k] == before[k + 1]);
            }
        }
        assert(g0.holds_word(removed) && removed.word@.len() >= 1);
        self.remove_word_from_grid(grid, &removed, placed_words);
        let ghost len = removed.word@.len() as int;
        let ghost er = if removed.direction == Direction::Vertical { removed.start_row + len - 1 } else { removed.start_row as int };
        let ghost ec = if removed.direction == Direction::Horizontal { removed.start_col + len - 1 } else { removed.start_col as int };
        proof {
            assert(span_start_row(removed.direction, len, er) == removed.start_row);
            assert(span_start_col(removed.direction, len, ec) == removed.start_col);
            assert forall|i: int| 0 <= i < len implies {
                let v = #[trigger] grid.cell(row_of(removed.direction, removed.start_row as int, i), col_of(removed.direction, removed.start_col as int, i));
                v.is_none() || v == Some(removed.word@[i])
            } by {
                assert(g0.cell(row_of(removed.direction, removed.start_row as int, i), col_of(removed.direction, removed.start_col as int, i)) == Some(removed.word@[i]));
            }
            assert(grid.can_place_at(removed.word@, er, ec, removed.direction));
            assert(has_place(*grid, removed.word@, removed.direction));
        }
        let ghost after_removal = placed_words@;
        let ok = self.place_first_fit(grid, placed_words, &removed.word, removed.direction, MOVE_CANDIDATES);
        assert(ok);
        assert(placed_words@.drop_last() == before.remove(idx as int));
    }

    /// Moves one word, chosen at random, with `move_word`. Returns whether a word was
    /// moved, which is exactly when the list is not empty; an empty layout is left alone.
    pub fn try_optimize_single_word(&self, grid: &mut Grid, placed_words: &mut Vec<PlacedWord>, rng: &mut StdRng) -> (ok: bool)
        requires
            layout_ok(*old(grid), old(placed_words)@),
        ensures
            layout_ok(*final(grid), final(placed_words)@),
            final(grid).width == old(grid).width,
            final(grid).height == old(grid).height,
            ok == (old(placed_words)@.len() > 0),
            !ok ==> *final(grid) == *old(grid) && final(placed_words)@ == old(placed_words)@,
            final(placed_words)@.len() == old(placed_words)@.len(),
            ok ==> exists|idx: int| 0 <= idx < old(placed_words)@.len()
                && final(placed_words)@.drop_last() == old(placed_words)@.remove(idx)
                && (#[trigger] final(placed_words)@.last()).word@ == old(placed_words)@[idx].word@
                && final(placed_words)@.last().direction == old(placed_words)@[idx].direction,
    {
        let n = placed_words.len();
        if n == 0 {
            return false;
        }
        let idx = draw_below(rng, n);
        self.move_word(grid, placed_words, idx);
        assert(placed_words@.last().word@ == old(placed_words)@[idx as int].word@);
        true
    }

    /// One annealing step: moves word `idx` of a copy of the current layout with
    /// `move_word`, and takes the copy when `move_taken` accepts the change of score at
    /// `temperature` with random draw `draw`. Returns whether the move was taken; when
    /// it was not, the current layout and score are left as they were.
    pub fn anneal_step(&self, cur_g: &mut Grid, cur_w: &mut Vec<PlacedWord>, cur_score: &mut u64, idx: usize, draw: u64, temperature: u64) -> (taken: bool)
        requires
            layout_ok(*old(cur_g), old(cur_w)@),
            words_in_range(old(cur_w)@),
            places_each_once(*self, old(cur_w)@),
            *old(cur_score) == layout_score(*old(cur_g), old(cur_w)@),
            *old(cur_score) <= 100_000_000_000_000,
            idx < old(cur_w)@.len(),
            draw < DRAW_RANGE,
            temperature <= INITIAL_TEMPERATURE,
        ensures
            layout_ok(*final(cur_g), final(cur_w)@),
            words_in_range(final(cur_w)@),
            places_each_once(*self, final(cur_w)@),
            final(cur_g).width == old(cur_g).width,
            final(cur_g).height == old(cur_g).height,
            final(cur_w)@.len() == old(cur_w)@.len(),
            *final(cur_score) == layout_score(*final(cur_g), final(cur_w)@),
            *final(cur_score) <= 100_000_000_000_000,
            taken ==> move_taken(*final(cur_score) - *old(cur_score), temperature as int, draw as int),
            taken ==> same_words(final(cur_w)@.drop_last(), old(cur_w)@.remove(idx as int))
                && final(cur_w)@.last().word@ == old(cur_w)@[idx as int].word@
                && final(cur_w)@.last().direction == old(cur_w)@[idx as int].direction,
            !taken ==> *final(cur_g) == *old(cur_g) && final(cur_w)@ == old(cur_w)@ && *final(cur_score) == *old(cur_score),
    {
        let boxc = cur_g.calculate_used_area();
        let mut ng = cur_g.duplicate();
        let mut nw = duplicate_words(cur_w);
        proof {
            lemma_same_layout(*cur_g, ng, cur_w@, nw@, boxc);
            lemma_same_entries_placed(*self, cur_w@, nw@);
        }
        let ghost nw0 = nw@;
        self.move_word(&mut ng, &mut nw, idx);
        proof {
            crate::layout::lemma_layout_in_range(ng, nw@);
            lemma_moved_to_end_placed(*self, nw0, nw@, idx as int);
        }
        let new_score = self.evaluate_solution(&ng, &nw);
        let delta: i64 = new_score as i64 - *cur_score as i64;
        if accept_move(delta, temperature, draw) {
            proof {
                assert(same_words(old(cur_w)@, nw0));
                assert forall|k: int| 0 <= k < nw@.len() - 1 implies crate::layout::same_word(#[trigger] nw@.drop_last()[k], old(cur_w)@.remove(idx as int)[k]) by {
                    assert(nw@.drop_last()[k] == nw0.remove(idx as int)[k]);
                    if k < idx {
                        assert(crate::layout::same_word(old(cur_w)@[k], nw0[k]));
                    } else {
                        assert(crate::layout::same_word(old(cur_w)@[k + 1], nw0[k + 1]));
                    }
                }
            }
            *cur_g = ng;
            *cur_w = nw;
            *cur_score = new_score;
            true
        } else {
            false
        }
    }

    /// Simulated annealing over a finished layout for `iterations` steps: each step
    /// moves one word of a copy of the current layout; the move is taken as
    /// `move_taken` decides, with the temperature cooled every `COOLING_PERIOD` steps.
    /// Returns the best layout seen, which scores at least as well as the initial one.
    pub fn generate_simulated_annealing(&self, initial: (Grid, Vec<PlacedWord>), iterations: usize, rng: &mut StdRng) -> (r: (Grid, Vec<PlacedWord>))
        requires
            layout_ok(initial.0, initial.1@),
            words_in_range(initial.1@),
            places_each_once(*self, initial.1@),
        ensures
            layout_ok(r.0, r.1@),
            places_each_once(*self, r.1@),
            words_in_range(r.1@),
            r.0.width == initial.0.width,
            r.0.height == initial.0.height,
            r.1@.len() == initial.1@.len(),
            layout_score(r.0, r.1@) >= layout_score(initial.0, initial.1@),
            iterations == 0 ==> initial.0.same_content(r.0) && same_words(initial.1@, r.1@),
    {
        let (g0, w0) = initial;
        let box0 = g0.calculate_used_area();
        let init_score = self.evaluate_solution(&g0, &w0);
        let mut best_g = g0.duplicate();
        let mut best_w = duplicate_words(&w0);
        proof {
            lemma_same_layout(g0, best_g, w0@, best_w@, box0);
            lemma_same_entries_placed(*self, w0@, best_w@);
        }
        let mut best_score = init_score;
        let mut cur_g = g0;
        let mut cur_w = w0;
        let mut cur_score = init_score;
        let mut temperature: u64 = INITIAL_TEMPERATURE;
        let mut it: usize = 0;
        while it < iterations
            invariant
                layout_ok(cur_g, cur_w@),
                words_in_range(cur_w@),
                cur_g.width == g0.width,
                cur_g.height == g0.height,
                cur_w@.len() == w0@.len(),
                cur_score == layout_score(cur_g, cur_w@),
                cur_score <= 100_000_000_000_000,
                layout_ok(best_g, best_w@),
                words_in_range(best_w@),
                places_each_once(*self, cur_w@),
                places_each_once(*self, best_w@),
                best_g.width == g0.width,
                best_g.height == g0.height,
                best_w@.len() == w0@.len(),
                best_score == layout_score(best_g, best_w@),
                best_score >= init_score,
                init_score == layout_score(g0, w0@),
                temperature <= INITIAL_TEMPERATURE,
                it == 0 ==> g0.same_content(best_g) && same_words(w0@, best_w@),
                it <= iterations,
            decreases iterations - it,
        {
            if it % COOLING_PERIOD == 0 {
                temperature = temperature * 95 / 100;
            }
            if cur_w.len() > 0 {
                let idx = draw_below(rng, cur_w.len());
                let draw = draw_below(rng, DRAW_RANGE);
                let taken = self.anneal_step(&mut cur_g, &mut cur_w, &mut cur_score, idx, draw as u64, temperature);
                if taken && cur_score > best_score {
                    let boxn = cur_g.calculate_used_area();
                    best_g = cur_g.duplicate();
                    best_w = duplicate_words(&cur_w);
                    proof {
                        lemma_same_layout(cur_g, best_g, cur_w@, best_w@, boxn);
                        lemma_same_entries_placed(*self, cur_w@, best_w@);
                    }
                    best_score = cur_score;
                }
            }
            it += 1;
        }
        (best_g, best_w)
    }
}

} // verus!
