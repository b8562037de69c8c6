use rand::rngs::StdRng;
use vstd::prelude::*;
use vstd::seq_lib::to_multiset_contains;
use vstd::seq_lib::to_multiset_len;
use crate::generator::{words_ok, WordSearchGenerator};
use crate::grid::{span_start_col, span_start_row, Direction, Grid, PlacedWord, MAX_SIDE};
use crate::candidates::has_place;
use crate::layout::{is_input, lemma_layout_in_range, lemma_push_fresh, layout_ok, place_and_record, placed_as, solution_ok};
use crate::random::{draw_below, shuffle_indices};
use crate::scoring::{candidate_score, crossing_score, random_cost};

verus! {

/// Tries of random anchors for one word before an attempt gives up.
pub const RANDOM_TRIES: usize = 150;

/// Some entry of `order` before position `n` is `x`.
pub open spec fn among_first(order: Seq<usize>, n: int, x: int) -> bool {
    exists|q: int| 0 <= q < n && q < order.len() && #[trigger] order[q] as int == x
}

/// Every horizontal word fits the width and every vertical word the height.
pub open spec fn words_fit_grid(gen: WordSearchGenerator, width: int, height: int) -> bool {
    &&& forall|k: int| 0 <= k < gen.horizontal_words@.len() ==> (#[trigger] gen.horizontal_words@[k])@.len() <= width
    &&& forall|k: int| 0 <= k < gen.vertical_words@.len() ==> (#[trigger] gen.vertical_words@[k])@.len() <= height
}

/// A single horizontal word, no vertical one, and a grid it fits: every attempt of
/// every strategy completes, whatever is drawn.
pub open spec fn lone_word_fits(gen: WordSearchGenerator, width: int, height: int) -> bool {
    &&& gen.horizontal_words@.len() == 1
    &&& gen.vertical_words@.len() == 0
    &&& gen.horizontal_words@[0]@.len() <= width
    &&& height >= 1
}

/// No vertical word, no more horizontal words than rows, and each fits the width: one
/// free row is left for every word still to place, whatever was drawn.
pub open spec fn rows_suffice(gen: WordSearchGenerator, width: int, height: int) -> bool {
    &&& gen.vertical_words@.len() == 0
    &&& gen.horizontal_words@.len() <= height
    &&& forall|k: int| 0 <= k < gen.horizontal_words@.len() ==> (#[trigger] gen.horizontal_words@[k])@.len() <= width
}

/// One horizontal and one vertical word, the horizontal fitting the width and the
/// vertical at most half the height: the vertical word always finds rows clear of the
/// horizontal one.
pub open spec fn pair_fits(gen: WordSearchGenerator, width: int, height: int) -> bool {
    &&& gen.horizontal_words@.len() == 1
    &&& gen.vertical_words@.len() == 1
    &&& gen.horizontal_words@[0]@.len() <= width
    &&& 2 * gen.vertical_words@[0]@.len() <= height
}

/// A vertical word fits a column whose cells on its span are empty.
pub proof fn lemma_free_column_takes_word(g: Grid, w: Seq<char>, top: int, col: int)
    requires
        g.wf(),
        0 <= top,
        top + w.len() <= g.height,
        0 <= col < g.width,
        1 <= w.len(),
        forall|i: int| 0 <= i < w.len() ==> (#[trigger] g.cell(top + i, col)).is_none(),
    ensures
        has_place(g, w, Direction::Vertical),
{
    let row = top + w.len() - 1;
    assert forall|i: int| 0 <= i < w.len() implies {
        let v = #[trigger] g.cell(crate::grid::row_of(Direction::Vertical, top, i), crate::grid::col_of(Direction::Vertical, col, i));
        v.is_none() || v == Some(w[i])
    } by {
        assert(g.cell(top + i, col).is_none());
    }
    assert(g.can_place_at(w, row, col, Direction::Vertical));
}

/// Fewer used rows than rows leaves a free one.
pub proof fn lemma_free_row(used: Set<int>, h: int)
    requires
        used.finite(),
        used.len() < h,
    ensures
        exists|r: int| 0 <= r < h && !used.contains(r),
{
    vstd::set_lib::lemma_int_range(0, h);
    if forall|r: int| 0 <= r < h ==> used.contains(r) {
        assert(vstd::set_lib::set_int_range(0, h).subset_of(used));
        vstd::set_lib::lemma_len_subset(vstd::set_lib::set_int_range(0, h), used);
    }
}

/// A horizontal word that fits the width fits in an empty row.
pub proof fn lemma_free_row_takes_word(g: Grid, w: Seq<char>, row: int)
    requires
        g.wf(),
        0 <= row < g.height,
        forall|c: int| 0 <= c < g.width ==> (#[trigger] g.cell(row, c)).is_none(),
        1 <= w.len() <= g.width,
    ensures
        has_place(g, w, Direction::Horizontal),
{
    let col = w.len() - 1;
    let sc = col + 1 - w.len();
    assert forall|i: int| 0 <= i < w.len() implies {
        let v = #[trigger] g.cell(crate::grid::row_of(Direction::Horizontal, row, i), crate::grid::col_of(Direction::Horizontal, sc, i));
        v.is_none() || v == Some(w[i])
    } by {
        assert(g.cell(row, sc + i).is_none());
    }
    assert(g.can_place_at(w, row, col, Direction::Horizontal));
}

/// On a grid with no letter, a horizontal word fits anywhere its span lies inside.
pub proof fn lemma_blank_takes_word(g: Grid, w: Seq<char>, row: int, col: int)
    requires
        g.wf(),
        g.is_blank(),
        w.len() >= 1,
        0 <= row < g.height,
        w.len() - 1 <= col < g.width,
    ensures
        g.can_place_at(w, row, col, Direction::Horizontal),
        has_place(g, w, Direction::Horizontal),
{
    let sc = col + 1 - w.len();
    assert forall|i: int| 0 <= i < w.len() implies {
        let v = #[trigger] g.cell(crate::grid::row_of(Direction::Horizontal, row, i), crate::grid::col_of(Direction::Horizontal, sc, i));
        v.is_none() || v == Some(w[i])
    } by {
        assert(!g.is_filled(row, sc + i));
    }
}

/// The indices `0..n` in a random order.
pub fn shuffled_order(rng: &mut StdRng, n: usize) -> (v: Vec<usize>)
    ensures
        v@.len() == n,
        forall|p: int| 0 <= p < n ==> #[trigger] v@[p] < n,
        v@.no_duplicates(),
{
    let mut v: Vec<usize> = Vec::new();
    let mut i: usize = 0;
    while i < n
        invariant
            i <= n,
            v@.len() == i,
            forall|p: int| 0 <= p < i ==> #[trigger] v@[p] == p,
        decreases n - i,
    {
        v.push(i);
        i += 1;
    }
    let ghost before = v@;
    shuffle_indices(rng, &mut v);
    proof {
        to_multiset_len(before);
        to_multiset_len(v@);
        assert forall|p: int| 0 <= p < n implies #[trigger] v@[p] < n by {
            let x = v@[p];
            assert(v@.contains(x));
            to_multiset_contains(v@, x);
            to_multiset_contains(before, x);
            let q = choose|q: int| 0 <= q < before.len() && before[q] == x;
            assert(before[q] == q);
        }
        assert(before.no_duplicates());
        before.lemma_multiset_has_no_duplicates();
        assert forall|x: usize| v@.to_multiset().contains(x) implies v@.to_multiset().count(x) == 1 by {
            assert(before.to_multiset().contains(x));
        }
        v@.lemma_multiset_has_no_duplicates_conv();
    }
    v
}

impl WordSearchGenerator {
    /// Whether every horizontal word fits `width` and every vertical word `height`.
    pub fn fits_grid(&self, width: usize, height: usize) -> (b: bool)
        ensures
            b == words_fit_grid(*self, width as int, height as int),
    {
        let mut k: usize = 0;
        while k < self.horizontal_words.len()
            invariant
                k <= self.horizontal_words@.len(),
                forall|j: int| 0 <= j < k ==> (#[trigger] self.horizontal_words@[j])@.len() <= width,
            decreases self.horizontal_words@.len() - k,
        {
            if self.horizontal_words[k].len() > width {
                return false;
            }
            k += 1;
        }
        let mut k: usize = 0;
        while k < self.vertical_words.len()
            invariant
                k <= self.vertical_words@.len(),
                forall|j: int| 0 <= j < self.horizontal_words@.len() ==> (#[trigger] self.horizontal_words@[j])@.len() <= width,
                forall|j: int| 0 <= j < k ==> (#[trigger] self.vertical_words@[j])@.len() <= height,
            decreases self.vertical_words@.len() - k,
        {
            if self.vertical_words[k].len() > height {
                return false;
            }
            k += 1;
        }
        true
    }

    /// Tries the `limit` best-scored places for `word` in rank order; keeps the first that fits.
    pub(crate) fn place_first_fit(&self, grid: &mut Grid, placed: &mut Vec<PlacedWord>, word: &Vec<char>, direction: Direction, limit: usize) -> (ok: bool)
        requires
            layout_ok(*old(grid), old(placed)@),
            word@.len() >= 1,
        ensures
            layout_ok(*final(grid), final(placed)@),
            final(grid).width == old(grid).width,
            final(grid).height == old(grid).height,
            ok ==> final(placed)@.len() == old(placed)@.len() + 1,
            ok ==> final(placed)@.last().word@ == word@,
            ok ==> final(placed)@.last().direction == direction,
            ok ==> final(placed)@.drop_last() == old(placed)@,
            !ok ==> final(placed)@ == old(placed)@,
            !ok ==> *final(grid) == *old(grid),
            limit >= 1 && has_place(*old(grid), word@, direction) ==> ok,
    {
        let candidates = self.generate_candidates(grid, word, direction);
        let ghost p0 = placed@;
        let mut i: usize = 0;
        while i < limit && i < candidates.len()
            invariant
                layout_ok(*grid, placed@),
                placed@ == p0,
                p0 == old(placed)@,
                grid.width == old(grid).width,
                grid.height == old(grid).height,
                forall|k: int| 0 <= k < candidates@.len() ==> (#[trigger] candidates@[k]).direction == direction,
                forall|k: int| 0 <= k < candidates@.len() ==> crate::candidates::valid_candidate(*old(grid), word@, direction, #[trigger] candidates@[k]),
                candidates@.len() == 0 <==> !has_place(*old(grid), word@, direction),
                word@.len() >= 1,
                *grid == *old(grid),
                i >= 1 ==> !(limit >= 1 && has_place(*old(grid), word@, direction)),
            decreases candidates@.len() - i,
        {
            let c = candidates[i];
            assert(candidates@[i as int].direction == direction);
            assert(crate::candidates::valid_candidate(*old(grid), word@, direction, candidates@[i as int]));
            if place_and_record(grid, placed, word, c.row, c.col, c.direction) {
                return true;
            }
            i += 1;
        }
        false
    }

    /// Tries the best-scored places for `word`: the first three in rank order, then up
    /// to seven drawn at random among all candidates; keeps the first that fits.
    fn place_from_candidates(&self, grid: &mut Grid, placed: &mut Vec<PlacedWord>, word: &Vec<char>, direction: Direction, rng: &mut StdRng) -> (ok: bool)
        requires
            layout_ok(*old(grid), old(placed)@),
            word@.len() >= 1,
        ensures
            layout_ok(*final(grid), final(placed)@),
            final(grid).width == old(grid).width,
            final(grid).height == old(grid).height,
            ok ==> final(placed)@.len() == old(placed)@.len() + 1,
            ok ==> final(placed)@.last().word@ == word@,
            ok ==> final(placed)@.last().direction == direction,
            ok ==> final(placed)@.drop_last() == old(placed)@,
            !ok ==> final(placed)@ == old(placed)@,
            !ok ==> *final(grid) == *old(grid),
            has_place(*old(grid), word@, direction) ==> ok,
            ok ==> old(grid).same_off_span(*final(grid), word@.len() as int, final(placed)@.last().start_row as int,
                final(placed)@.last().start_col as int, direction),
    {
        let candidates = self.generate_candidates(grid, word, direction);
        let n = candidates.len();
        let try_count: usize = if n < 10 { if n == 0 { 1 } else { n } } else { 10 };
        let ghost p0 = placed@;
        let mut i: usize = 0;
        while i < try_count
            invariant
                layout_ok(*grid, placed@),
                placed@ == p0,
                p0 == old(placed)@,
                grid.width == old(grid).width,
                grid.height == old(grid).height,
                n == candidates@.len(),
                word@.len() >= 1,
                forall|k: int| 0 <= k < candidates@.len() ==> (#[trigger] candidates@[k]).direction == direction,
                forall|k: int| 0 <= k < candidates@.len() ==> crate::candidates::valid_candidate(*old(grid), word@, direction, #[trigger] candidates@[k]),
                n == 0 <==> !has_place(*old(grid), word@, direction),
                *grid == *old(grid),
                i >= 1 ==> !has_place(*old(grid), word@, direction),
            decreases try_count - i,
        {
            let idx = if i < 3 || n == 0 { i } else { draw_below(rng, n) };
            if idx < n {
                let c = candidates[idx];
                assert(candidates@[idx as int].direction == direction);
                assert(crate::candidates::valid_candidate(*old(grid), word@, direction, candidates@[idx as int]));
                if place_and_record(grid, placed, word, c.row, c.col, c.direction) {
                    return true;
                }
            }
            i += 1;
        }
        false
    }

    /// Up to `RANDOM_TRIES` uniformly drawn anchors for `word`; the first that fits is kept.
    fn place_randomly(&self, grid: &mut Grid, placed: &mut Vec<PlacedWord>, word: &Vec<char>, direction: Direction, rng: &mut StdRng) -> (ok: bool)
        requires
            layout_ok(*old(grid), old(placed)@),
            word@.len() >= 1,
        ensures
            layout_ok(*final(grid), final(placed)@),
            final(grid).width == old(grid).width,
            final(grid).height == old(grid).height,
            ok ==> final(placed)@.len() == old(placed)@.len() + 1,
            ok ==> final(placed)@.last().word@ == word@,
            ok ==> final(placed)@.last().direction == direction,
            ok ==> final(placed)@.drop_last() == old(placed)@,
            !ok ==> final(placed)@ == old(placed)@,
            old(grid).is_blank() && direction == Direction::Horizontal && word@.len() <= old(grid).width
                && old(grid).height >= 1 ==> ok,
    {
        let len = word.len();
        let h = grid.height;
        let w = grid.width;
        if h == 0 || w == 0 {
            return false;
        }
        if direction == Direction::Horizontal && len > w {
            return false;
        }
        if direction == Direction::Vertical && len > h {
            return false;
        }
        let ghost p0 = placed@;
        let mut tries: usize = 0;
        while tries < RANDOM_TRIES
            invariant
                layout_ok(*grid, placed@),
                placed@ == p0,
                p0 == old(placed)@,
                grid.width == w,
                grid.height == h,
                w == old(grid).width,
                h == old(grid).height,
                h > 0,
                w > 0,
                len == word@.len(),
                len >= 1,
                direction == Direction::Horizontal ==> len <= w,
                direction == Direction::Vertical ==> len <= h,
                *grid == *old(grid),
                tries >= 1 ==> !(old(grid).is_blank() && direction == Direction::Horizontal),
            decreases RANDOM_TRIES - tries,
        {
            let (row, col) = if direction == Direction::Horizontal {
                (draw_below(rng, h), len - 1 + draw_below(rng, w - (len - 1)))
            } else {
                (len - 1 + draw_below(rng, h - (len - 1)), draw_below(rng, w))
            };
            proof {
                if old(grid).is_blank() && direction == Direction::Horizontal {
                    lemma_blank_takes_word(*grid, word@, row as int, col as int);
                }
            }
            if place_and_record(grid, placed, word, row, col, direction) {
                return true;
            }
            tries += 1;
        }
        false
    }

    /// Places each word of `words`, in the order of `order`, at random anchors.
    /// Returns false as soon as one word finds no place.
    fn place_all_randomly(&self, grid: &mut Grid, placed: &mut Vec<PlacedWord>, words: &Vec<Vec<char>>, order: &Vec<usize>, direction: Direction, rng: &mut StdRng) -> (ok: bool)
        requires
            layout_ok(*old(grid), old(placed)@),
            words_ok(words@),
            forall|p: int| 0 <= p < order@.len() ==> #[trigger] order@[p] < words@.len(),
        ensures
            layout_ok(*final(grid), final(placed)@),
            final(grid).width == old(grid).width,
            final(grid).height == old(grid).height,
            ok ==> final(placed)@.len() == old(placed)@.len() + order@.len(),
            ok ==> final(placed)@.subrange(0, old(placed)@.len() as int) == old(placed)@,
            ok ==> forall|p: int| 0 <= p < order@.len() ==>
                (#[trigger] final(placed)@[old(placed)@.len() + p]).word@ == words@[order@[p] as int]@
                && final(placed)@[old(placed)@.len() + p].direction == direction,
            order@.len() == 0 ==> ok,
            order@.len() == 1 && old(grid).is_blank() && direction == Direction::Horizontal
                && words@[order@[0] as int]@.len() <= old(grid).width && old(grid).height >= 1 ==> ok,
    {
        let ghost n0 = placed@.len();
        let mut i: usize = 0;
        while i < order.len()
            invariant
                layout_ok(*grid, placed@),
                grid.width == old(grid).width,
                grid.height == old(grid).height,
                words_ok(words@),
                forall|p: int| 0 <= p < order@.len() ==> #[trigger] order@[p] < words@.len(),
                i <= order@.len(),
                placed@.len() == n0 + i,
                n0 == old(placed)@.len(),
                placed@.subrange(0, n0 as int) == old(placed)@,
                i == 0 ==> *grid == *old(grid),
                forall|p: int| 0 <= p < i ==>
                    (#[trigger] placed@[n0 + p]).word@ == words@[order@[p] as int]@ && placed@[n0 + p].direction == direction,
            decreases order@.len() - i,
        {
            let idx = order[i];
            assert(order@[i as int] < words@.len());
            assert(1 <= words@[idx as int]@.len());
            let ghost before = placed@;
            if !self.place_randomly(grid, placed, &words[idx], direction, rng) {
                return false;
            }
            assert(placed@.drop_last() == before);
            assert forall|p: int| 0 <= p < i + 1 implies
                (#[trigger] placed@[n0 + p]).word@ == words@[order@[p] as int]@ && placed@[n0 + p].direction == direction by {
                if p < i {
                    assert(placed@[n0 + p] == before[n0 + p]);
                }
            }
            assert(placed@.subrange(0, n0 as int) =~= before.subrange(0, n0 as int));
            i += 1;
        }
        true
    }

    /// Random placement in a `width` by `height` grid: each of `max_attempts` attempts
    /// shuffles the words and draws anchors for them, horizontal words first. Keeps the
    /// complete attempt of least `random_layout_cost`; `None` when no attempt completes.
    pub fn generate_with_size(&self, width: usize, height: usize, max_attempts: usize, rng: &mut StdRng) -> (r: Option<(Grid, Vec<PlacedWord>)>)
        requires
            self.wf(),
            width <= MAX_SIDE,
            height <= MAX_SIDE,
        ensures
            r matches Some(s) ==> solution_ok(*self, width as int, height as int, s.0, s.1@),
            max_attempts == 0 ==> r is None,
            !words_fit_grid(*self, width as int, height as int) ==> r is None,
            max_attempts >= 1 && lone_word_fits(*self, width as int, height as int) ==> r is Some,
    {
        if !self.fits_grid(width, height) {
            return None;
        }
        let mut best: Option<(Grid, Vec<PlacedWord>)> = None;
        let mut best_cost: u64 = u64::MAX;
        let mut attempt: usize = 0;
        while attempt < max_attempts
            invariant
                self.wf(),
                width <= MAX_SIDE,
                height <= MAX_SIDE,
                best matches Some(s) ==> solution_ok(*self, width as int, height as int, s.0, s.1@),
                attempt == 0 ==> best is None,
                attempt <= max_attempts,
                lone_word_fits(*self, width as int, height as int) && attempt > 0 ==> best is Some,
                best is None ==> best_cost == u64::MAX,
            decreases max_attempts - attempt,
        {
            let mut grid = Grid::new(width, height);
            let mut placed: Vec<PlacedWord> = Vec::new();
            let order_h = shuffled_order(rng, self.horizontal_words.len());
            let order_v = shuffled_order(rng, self.vertical_words.len());
            proof {
                if lone_word_fits(*self, width as int, height as int) {
                    assert(order_h@[0] < 1);
                }
            }
            let mut ok = self.place_all_randomly(&mut grid, &mut placed, &self.horizontal_words, &order_h, Direction::Horizontal, rng);
            let ghost after_h = placed@;
            if ok {
                ok = self.place_all_randomly(&mut grid, &mut placed, &self.vertical_words, &order_v, Direction::Vertical, rng);
            }
            if ok {
                proof {
                    lemma_layout_in_range(grid, placed@);
                    let nh = self.horizontal_words@.len() as int;
                    let nv = self.vertical_words@.len() as int;
                    let sel = Seq::new((nh + nv) as nat, |p: int| if p < nh { order_h@[p] as int } else { order_v@[p - nh] + nh });
                    assert forall|p: int| 0 <= p < placed@.len() implies is_input(*self, #[trigger] placed@[p], sel[p]) by {
                        if p < nh {
                            assert(after_h.len() == nh);
                            assert(placed@.subrange(0, nh)[p] == after_h[p]);
                            assert(placed@[p] == after_h[p]);
                            assert(after_h[0 + p] == after_h[p]);
                            assert(order_h@[p] < nh);
                            assert(after_h[0 + p].word@ == self.horizontal_words@[order_h@[p] as int]@);
                        } else {
                            assert(placed@[nh + (p - nh)] == placed@[p]);
                            assert(order_v@[p - nh] < nv);
                        }
                    }
                    assert forall|i: int, j: int| 0 <= i < sel.len() && 0 <= j < sel.len() && i != j implies sel[i] != sel[j] by {
                        if i < nh && j < nh {
                            assert(order_h@[i] != order_h@[j]);
                        } else if i >= nh && j >= nh {
                            assert(order_v@[i - nh] != order_v@[j - nh]);
                        } else if i < nh {
                            assert(order_h@[i] < nh);
                        } else {
                            assert(order_h@[j] < nh);
                        }
                    }
                    assert(placed_as(*self, placed@, sel));
                }
                let (h, w) = grid.get_used_dimensions();
                let cost = random_cost(h, w);
                if cost < best_cost {
                    best_cost = cost;
                    best = Some((grid, placed));
                }
            }
            attempt += 1;
        }
        best
    }
}

impl WordSearchGenerator {
    /// Candidate-driven placement in a `width` by `height` grid: each of `max_attempts`
    /// attempts shuffles both word lists, alternates horizontal and vertical words, and
    /// places each through `generate_candidates`. Keeps the complete attempt of highest
    /// `candidate_layout_score`; `None` when no attempt completes.
    pub fn generate_optimized(&self, width: usize, height: usize, max_attempts: usize, rng: &mut StdRng) -> (r: Option<(Grid, Vec<PlacedWord>)>)
        requires
            self.wf(),
            width <= MAX_SIDE,
            height <= MAX_SIDE,
        ensures
            r matches Some(s) ==> solution_ok(*self, width as int, height as int, s.0, s.1@),
            max_attempts == 0 ==> r is None,
            !words_fit_grid(*self, width as int, height as int) ==> r is None,
            max_attempts >= 1 && lone_word_fits(*self, width as int, height as int) ==> r is Some,
            max_attempts >= 1 && rows_suffice(*self, width as int, height as int) ==> r is Some,
            max_attempts >= 1 && pair_fits(*self, width as int, height as int) ==> r is Some,
    {
        if !self.fits_grid(width, height) {
            return None;
        }
        let mut best: Option<(Grid, Vec<PlacedWord>)> = None;
        let mut best_score: u64 = 0;
        let nh = self.horizontal_words.len();
        let nv = self.vertical_words.len();
        let mut attempt: usize = 0;
        while attempt < max_attempts
            invariant
                self.wf(),
                width <= MAX_SIDE,
                height <= MAX_SIDE,
                nh == self.horizontal_words@.len(),
                nv == self.vertical_words@.len(),
                best matches Some(s) ==> solution_ok(*self, width as int, height as int, s.0, s.1@),
                attempt == 0 ==> best is None,
                attempt <= max_attempts,
                lone_word_fits(*self, width as int, height as int) && attempt > 0 ==> best is Some,
                rows_suffice(*self, width as int, height as int) && attempt > 0 ==> best is Some,
                pair_fits(*self, width as int, height as int) && attempt > 0 ==> best is Some,
            decreases max_attempts - attempt,
        {
            let mut grid = Grid::new(width, height);
            let mut placed: Vec<PlacedWord> = Vec::new();
            let order_h = shuffled_order(rng, nh);
            let order_v = shuffled_order(rng, nv);
            let mut ok = true;
            let mut t: usize = 0;
            let ghost mut sel: Seq<int> = Seq::empty();
            let ghost mut used: Set<int> = Set::empty();
            while ok && (t < nh || t < nv)
                invariant
                    self.wf(),
                    layout_ok(grid, placed@),
                    grid.width == width,
                    grid.height == height,
                    nh == self.horizontal_words@.len(),
                    nv == self.vertical_words@.len(),
                    order_h@.len() == nh,
                    order_v@.len() == nv,
                    order_h@.no_duplicates(),
                    order_v@.no_duplicates(),
                    forall|p: int| 0 <= p < nh ==> #[trigger] order_h@[p] < nh,
                    forall|p: int| 0 <= p < nv ==> #[trigger] order_v@[p] < nv,
                    ok ==> placed@.len() == (if t < nh { t } else { nh }) + (if t < nv { t } else { nv }),
                    ok ==> placed_as(*self, placed@, sel),
                    ok ==> forall|p: int| 0 <= p < sel.len() ==> {
                        ||| (#[trigger] sel[p]) < nh && among_first(order_h@, t as int, sel[p])
                        ||| sel[p] >= nh && among_first(order_v@, t as int, sel[p] - nh)
                    },
                    t <= nh || t <= nv,
                    lone_word_fits(*self, width as int, height as int) ==> ok,
                    t == 0 ==> grid.is_blank(),
                    pair_fits(*self, width as int, height as int) ==> ok,
                    rows_suffice(*self, width as int, height as int) ==> {
                        &&& ok
                        &&& used.finite()
                        &&& used.len() <= t
                        &&& forall|r: int, c: int| 0 <= r < height && 0 <= c < width && !used.contains(r)
                            ==> (#[trigger] grid.cell(r, c)).is_none()
                    },
                decreases (if nh > nv { nh } else { nv }) - t,
            {
                let ghost mut hr: int = 0;
                if t < nh {
                    let idx = order_h[t];
                    assert(order_h@[t as int] < nh);
                    proof {
                        if lone_word_fits(*self, width as int, height as int) {
                            assert(t == 0 && idx == 0);
                            lemma_blank_takes_word(grid, self.horizontal_words@[0]@, 0, self.horizontal_words@[0]@.len() - 1);
                        }
                        if pair_fits(*self, width as int, height as int) {
                            assert(t == 0 && idx == 0);
                            lemma_blank_takes_word(grid, self.horizontal_words@[0]@, 0, self.horizontal_words@[0]@.len() - 1);
                        }
                        if rows_suffice(*self, width as int, height as int) {
                            lemma_free_row(used, height as int);
                            let r1 = choose|r: int| 0 <= r < height && !used.contains(r);
                            assert forall|c: int| 0 <= c < grid.width implies (#[trigger] grid.cell(r1, c)).is_none() by {}
                            assert(self.horizontal_words@[idx as int]@.len() <= width);
                            lemma_free_row_takes_word(grid, self.horizontal_words@[idx as int]@, r1);
                        }
                    }
                    let ghost g_before = grid;
                    let ghost before = placed@;
                    ok = self.place_from_candidates(&mut grid, &mut placed, &self.horizontal_words[idx], Direction::Horizontal, rng);
                    proof {
                        if ok {
                            let x = idx as int;
                            assert forall|p: int| 0 <= p < sel.len() implies sel[p] != x by {
                                if sel[p] < nh && among_first(order_h@, t as int, sel[p]) {
                                    let q = choose|q: int| 0 <= q < t && q < order_h@.len() && #[trigger] order_h@[q] as int == sel[p];
                                    assert(order_h@[q] != order_h@[t as int]);
                                }
                            }
                            let sel2 = sel.push(x);
                            assert forall|p: int| 0 <= p < placed@.len() implies is_input(*self, #[trigger] placed@[p], sel2[p]) by {
                                if p < before.len() {
                                    assert(placed@[p] == placed@.drop_last()[p]);
                                    assert(is_input(*self, before[p], sel[p]));
                                }
                            }
                            assert forall|i: int, j: int| 0 <= i < sel2.len() && 0 <= j < sel2.len() && i != j implies sel2[i] != sel2[j] by {
                                if i < sel.len() && j < sel.len() {
                                    assert(sel[i] != sel[j]);
                                }
                            }
                            assert forall|p: int| 0 <= p < sel2.len() implies {
                                ||| (#[trigger] sel2[p]) < nh && among_first(order_h@, t + 1, sel2[p])
                                ||| sel2[p] >= nh && among_first(order_v@, t as int, sel2[p] - nh)
                            } by {
                                if p < sel.len() {
                                    if sel[p] < nh && among_first(order_h@, t as int, sel[p]) {
                                        let q = choose|q: int| 0 <= q < t && q < order_h@.len() && #[trigger] order_h@[q] as int == sel[p];
                                        assert(among_first(order_h@, t + 1, sel2[p]));
                                    }
                                } else {
                                    assert(order_h@[t as int] as int == sel2[p]);
                                    assert(among_first(order_h@, t + 1, sel2[p]));
                                }
                            }
                            sel = sel2;
                        }
                        if pair_fits(*self, width as int, height as int) && ok {
                            hr = placed@.last().start_row as int;
                            assert forall|r: int, c: int| 0 <= r < height && 0 <= c < width && r != hr
                                implies (#[trigger] grid.cell(r, c)).is_none() by {
                                assert(!crate::grid::on_span(Direction::Horizontal, hr, placed@.last().start_col as int,
                                    self.horizontal_words@[idx as int]@.len() as int, r, c));
                                assert(grid.cell(r, c) == g_before.cell(r, c));
                                assert(!g_before.is_filled(r, c));
                            }
                        }
                        if rows_suffice(*self, width as int, height as int) {
                            let nr = placed@.last().start_row as int;
                            let used2 = used.insert(nr);
                            assert forall|r: int, c: int| 0 <= r < height && 0 <= c < width && !used2.contains(r)
                                implies (#[trigger] grid.cell(r, c)).is_none() by {
                                assert(!crate::grid::on_span(Direction::Horizontal, nr, placed@.last().start_col as int,
                                    self.horizontal_words@[idx as int]@.len() as int, r, c));
                                assert(grid.cell(r, c) == g_before.cell(r, c));
                            }
                            used = used2;
                        }
                    }
                }
                if ok && t < nv {
                    let idx = order_v[t];
                    assert(order_v@[t as int] < nv);
                    proof {
                        if pair_fits(*self, width as int, height as int) {
                            assert(t == 0 && idx == 0);
                            let lv = self.vertical_words@[0]@.len() as int;
                            assert(1 <= lv);
                            let top = if hr >= lv { 0 } else { lv };
                            assert forall|i: int| 0 <= i < lv implies (#[trigger] grid.cell(top + i, 0)).is_none() by {
                                assert(top + i != hr);
                            }
                            lemma_free_column_takes_word(grid, self.vertical_words@[0]@, top, 0);
                        }
                    }
                    let ghost before = placed@;
                    let ghost t_h: int = if t < nh { t + 1 } else { t as int };
                    assert(forall|p: int| 0 <= p < sel.len() ==> {
                        ||| (#[trigger] sel[p]) < nh && among_first(order_h@, t_h, sel[p])
                        ||| sel[p] >= nh && among_first(order_v@, t as int, sel[p] - nh)
                    });
                    ok = self.place_from_candidates(&mut grid, &mut placed, &self.vertical_words[idx], Direction::Vertical, rng);
                    proof {
                        if ok {
                            let x = idx + nh;
                            assert forall|p: int| 0 <= p < sel.len() implies sel[p] != x by {
                                if sel[p] >= nh && among_first(order_v@, t as int, sel[p] - nh) {
                                    let q = choose|q: int| 0 <= q < t && q < order_v@.len() && #[trigger] order_v@[q] as int == sel[p] - nh;
                                    assert(order_v@[q] != order_v@[t as int]);
                                }
                            }
                            let sel2 = sel.push(x);
                            assert forall|p: int| 0 <= p < placed@.len() implies is_input(*self, #[trigger] placed@[p], sel2[p]) by {
                                if p < before.len() {
                                    assert(placed@[p] == placed@.drop_last()[p]);
                                    assert(is_input(*self, before[p], sel[p]));
                                }
                            }
                            assert forall|i: int, j: int| 0 <= i < sel2.len() && 0 <= j < sel2.len() && i != j implies sel2[i] != sel2[j] by {
                                if i < sel.len() && j < sel.len() {
                                    assert(sel[i] != sel[j]);
                                }
                            }
                            assert forall|p: int| 0 <= p < sel2.len() implies {
                                ||| (#[trigger] sel2[p]) < nh && among_first(order_h@, t_h, sel2[p])
                                ||| sel2[p] >= nh && among_first(order_v@, t + 1, sel2[p] - nh)
                            } by {
                                if p < sel.len() {
                                    if sel[p] >= nh && among_first(order_v@, t as int, sel[p] - nh) {
                                        let q = choose|q: int| 0 <= q < t && q < order_v@.len() && #[trigger] order_v@[q] as int == sel[p] - nh;
                                        assert(among_first(order_v@, t + 1, sel2[p] - nh));
                                    }
                                } else {
                                    assert(order_v@[t as int] as int == sel2[p] - nh);
                                    assert(among_first(order_v@, t + 1, sel2[p] - nh));
                                }
                            }
                            sel = sel2;
                        }
                    }
                }
                proof {
                    if ok {
                        assert forall|p: int| 0 <= p < sel.len() implies {
                            ||| (#[trigger] sel[p]) < nh && among_first(order_h@, t + 1, sel[p])
                            ||| sel[p] >= nh && among_first(order_v@, t + 1, sel[p] - nh)
                        } by {
                            if sel[p] < nh && among_first(order_h@, t as int, sel[p]) {
                                let q = choose|q: int| 0 <= q < t && q < order_h@.len() && #[trigger] order_h@[q] as int == sel[p];
                                assert(among_first(order_h@, t + 1, sel[p]));
                            }
                            if sel[p] >= nh && among_first(order_v@, t as int, sel[p] - nh) {
                                let q = choose|q: int| 0 <= q < t && q < order_v@.len() && #[trigger] order_v@[q] as int == sel[p] - nh;
                                assert(among_first(order_v@, t + 1, sel[p] - nh));
                            }
                        }
                    }
                }
                t += 1;
            }
            if ok {
                proof { lemma_layout_in_range(grid, placed@); }
                let (h, w) = grid.get_used_dimensions();
                let n = self.count_total_intersections(&grid, &placed);
                let score = candidate_score(h, w, n);
                if best.is_none() || score > best_score {
                    best_score = score;
                    best = Some((grid, placed));
                }
            }
            attempt += 1;
        }
        best
    }
}

/// A vector of `n` copies of `false`.
fn all_false(n: usize) -> (v: Vec<bool>)
    ensures
        v@.len() == n,
        forall|k: int| 0 <= k < n ==> !#[trigger] v@[k],
{
    let mut v: Vec<bool> = Vec::new();
    let mut i: usize = 0;
    while i < n
        invariant
            i <= n,
            v@.len() == i,
            forall|k: int| 0 <= k < i ==> !#[trigger] v@[k],
        decreases n - i,
    {
        v.push(false);
        i += 1;
    }
    v
}

/// Crossings that the seeded strategy forces at the grid's centre in each attempt.
pub const SEEDED_CROSSINGS: usize = 3;

/// Candidates the seeded strategy tries for each remaining word.
pub const SEEDED_CANDIDATES: usize = 5;

impl WordSearchGenerator {
    /// Anchors, as last-character cells, at which crossing `x` puts its shared letter
    /// on the centre cell of a `width` by `height` grid: `(h_row, h_col, v_row, v_col)`,
    /// or `None` when a word would start before the first row or column.
    fn centred_anchors(&self, width: usize, height: usize, x: crate::intersections::Intersection) -> (r: Option<(usize, usize, usize, usize)>)
        requires
            self.wf(),
            x.h_word_idx < self.horizontal_words@.len(),
            x.v_word_idx < self.vertical_words@.len(),
            width <= MAX_SIDE,
            height <= MAX_SIDE,
        ensures
            r matches Some(a) ==> {
                let lh = self.horizontal_words@[x.h_word_idx as int]@.len() as int;
                let lv = self.vertical_words@[x.v_word_idx as int]@.len() as int;
                &&& a.0 == height / 2 && a.3 == width / 2
                &&& span_start_col(Direction::Horizontal, lh, a.1 as int) + x.h_char_idx == width / 2
                &&& span_start_row(Direction::Vertical, lv, a.2 as int) + x.v_char_idx == height / 2
            },
            r is None <==> (width / 2 < x.h_char_idx || height / 2 < x.v_char_idx),
    {
        let lh = self.horizontal_words[x.h_word_idx].len();
        let lv = self.vertical_words[x.v_word_idx].len();
        let center_row = height / 2;
        let center_col = width / 2;
        if center_col < x.h_char_idx || center_row < x.v_char_idx {
            return None;
        }
        assert(1 <= lh <= MAX_SIDE && 1 <= lv <= MAX_SIDE);
        Some((center_row, center_col - x.h_char_idx + (lh - 1), center_row - x.v_char_idx + (lv - 1), center_col))
    }

    /// Crossing-seeded placement in a `width` by `height` grid: each of `max_attempts`
    /// attempts shuffles the crossings from `find_all_intersections`, forces up to
    /// `SEEDED_CROSSINGS` of them at the centre, then places every other word at the
    /// first fitting of its `SEEDED_CANDIDATES` best candidates. Keeps the complete
    /// attempt of highest `crossing_layout_score`, forced crossings counted with the
    /// others; `None` when no attempt completes.
    pub fn generate_intersection_first(&self, width: usize, height: usize, max_attempts: usize, rng: &mut StdRng) -> (r: Option<(Grid, Vec<PlacedWord>)>)
        requires
            self.wf(),
            width <= MAX_SIDE,
            height <= MAX_SIDE,
        ensures
            r matches Some(s) ==> solution_ok(*self, width as int, height as int, s.0, s.1@),
            max_attempts == 0 ==> r is None,
            !words_fit_grid(*self, width as int, height as int) ==> r is None,
            max_attempts >= 1 && lone_word_fits(*self, width as int, height as int) ==> r is Some,
    {
        if !self.fits_grid(width, height) {
            return None;
        }
        let intersections = self.find_all_intersections();
        proof {
            if lone_word_fits(*self, width as int, height as int) && intersections@.len() > 0 {
                assert(self.valid_intersection(intersections@[0]));
            }
        }
        let mut best: Option<(Grid, Vec<PlacedWord>)> = None;
        let mut best_score: u64 = 0;
        let nh = self.horizontal_words.len();
        let nv = self.vertical_words.len();
        let mut attempt: usize = 0;
        while attempt < max_attempts
            invariant
                self.wf(),
                width <= MAX_SIDE,
                height <= MAX_SIDE,
                nh == self.horizontal_words@.len(),
                nv == self.vertical_words@.len(),
                forall|k: int| 0 <= k < intersections@.len() ==> self.valid_intersection(#[trigger] intersections@[k]),
                best matches Some(s) ==> solution_ok(*self, width as int, height as int, s.0, s.1@),
                attempt == 0 ==> best is None,
                attempt <= max_attempts,
                lone_word_fits(*self, width as int, height as int) ==> intersections@.len() == 0,
                lone_word_fits(*self, width as int, height as int) && attempt > 0 ==> best is Some,
            decreases max_attempts - attempt,
        {
            let mut grid = Grid::new(width, height);
            let mut placed: Vec<PlacedWord> = Vec::new();
            let mut used_h = all_false(nh);
            let mut used_v = all_false(nv);
            let order = shuffled_order(rng, intersections.len());
            let mut forced: u64 = 0;
            let ghost mut sel: Seq<int> = Seq::empty();
            let mut k: usize = 0;
            while k < SEEDED_CROSSINGS && k < order.len()
                invariant
                    self.wf(),
                    layout_ok(grid, placed@),
                    grid.width == width,
                    grid.height == height,
                    width <= MAX_SIDE,
                    height <= MAX_SIDE,
                    nh == self.horizontal_words@.len(),
                    nv == self.vertical_words@.len(),
                    used_h@.len() == nh,
                    used_v@.len() == nv,
                    order@.len() == intersections@.len(),
                    forall|p: int| 0 <= p < order@.len() ==> #[trigger] order@[p] < intersections@.len(),
                    forall|q: int| 0 <= q < intersections@.len() ==> self.valid_intersection(#[trigger] intersections@[q]),
                    forced <= k,
                    k <= SEEDED_CROSSINGS,
                    lone_word_fits(*self, width as int, height as int) ==> k == 0 && order@.len() == 0 && placed@.len() == 0,
                    lone_word_fits(*self, width as int, height as int) ==> grid.is_blank() && !used_h@[0],
                    placed_as(*self, placed@, sel),
                    forall|p: int| 0 <= p < sel.len() ==> {
                        ||| (#[trigger] sel[p]) < nh && used_h@[sel[p]]
                        ||| nh <= sel[p] && used_v@[sel[p] - nh]
                    },
                decreases SEEDED_CROSSINGS - k,
            {
                assert(order@[k as int] < intersections@.len());
                let x = intersections[order[k]];
                assert(self.valid_intersection(intersections@[order@[k as int] as int]));
                let ghost uh0 = used_h@;
                let ghost uv0 = used_v@;
                let ghost sel0 = sel;
                if !used_h[x.h_word_idx] && !used_v[x.v_word_idx] {
                    if let Some((h_row, h_col, v_row, v_col)) = self.centred_anchors(width, height, x) {
                        let h_word = &self.horizontal_words[x.h_word_idx];
                        let v_word = &self.vertical_words[x.v_word_idx];
                        if grid.can_place_word(h_word, h_row, h_col, Direction::Horizontal)
                            && grid.can_place_word(v_word, v_row, v_col, Direction::Vertical) {
                            let ghost before = placed@;
                            let placed_h = place_and_record(&mut grid, &mut placed, h_word, h_row, h_col, Direction::Horizontal);
                            proof {
                                if placed_h {
                                    let xi = x.h_word_idx as int;
                                    assert forall|p: int| 0 <= p < sel.len() implies sel[p] != xi by {
                                        if sel[p] < nh && used_h@[sel[p]] {}
                                    }
                                    lemma_push_fresh(*self, before, placed@, sel, xi);
                                    sel = sel.push(xi);
                                }
                            }
                            used_h[x.h_word_idx] = placed_h;
                            let ghost before_v = placed@;
                            let placed_v = place_and_record(&mut grid, &mut placed, v_word, v_row, v_col, Direction::Vertical);
                            proof {
                                if placed_v {
                                    let xi = x.v_word_idx + nh;
                                    assert forall|p: int| 0 <= p < sel.len() implies sel[p] != xi by {
                                        if nh <= sel[p] && used_v@[sel[p] - nh] {}
                                    }
                                    lemma_push_fresh(*self, before_v, placed@, sel, xi);
                                    sel = sel.push(xi);
                                }
                            }
                            used_v[x.v_word_idx] = placed_v;
                            if placed_h && placed_v {
                                forced += 1;
                            }
                        }
                    }
                }
                proof {
                    assert forall|p: int| 0 <= p < sel.len() implies {
                        ||| (#[trigger] sel[p]) < nh && used_h@[sel[p]]
                        ||| nh <= sel[p] && used_v@[sel[p] - nh]
                    } by {
                        assert(is_input(*self, placed@[p], sel[p]));
                        if p < sel0.len() {
                            assert(sel[p] == sel0[p]);
                            assert((sel0[p] < nh && uh0[sel0[p]]) || (nh <= sel0[p] && uv0[sel0[p] - nh]));
                        }
                    }
                }
                k += 1;
            }
            let mut ok = true;
            let mut i: usize = 0;
            while ok && i < nh
                invariant
                    self.wf(),
                    layout_ok(grid, placed@),
                    grid.width == width,
                    grid.height == height,
                    nh == self.horizontal_words@.len(),
                    nv == self.vertical_words@.len(),
                    used_h@.len() == nh,
                    used_v@.len() == nv,
                    forced <= SEEDED_CROSSINGS,
                    placed_as(*self, placed@, sel),
                    forall|p: int| 0 <= p < sel.len() ==> {
                        ||| (#[trigger] sel[p]) < nh && used_h@[sel[p]]
                        ||| nh <= sel[p] && used_v@[sel[p] - nh]
                    },
                    lone_word_fits(*self, width as int, height as int) ==> ok && placed@.len() == i && i <= 1,
                    lone_word_fits(*self, width as int, height as int) && i == 0 ==> grid.is_blank() && !used_h@[0],
                decreases nh - i,
            {
                let ghost uh0 = used_h@;
                let ghost uv0 = used_v@;
                let ghost sel0 = sel;
                if !used_h[i] {
                    assert(1 <= self.horizontal_words@[i as int]@.len());
                    proof {
                        if lone_word_fits(*self, width as int, height as int) {
                            lemma_blank_takes_word(grid, self.horizontal_words@[0]@, 0, self.horizontal_words@[0]@.len() - 1);
                        }
                    }
                    let ghost before = placed@;
                    ok = self.place_first_fit(&mut grid, &mut placed, &self.horizontal_words[i], Direction::Horizontal, SEEDED_CANDIDATES);
                    proof {
                        if ok {
                            let xi = i as int;
                            assert forall|p: int| 0 <= p < sel.len() implies sel[p] != xi by {
                                if sel[p] < nh && used_h@[sel[p]] {}
                            }
                            lemma_push_fresh(*self, before, placed@, sel, xi);
                            sel = sel.push(xi);
                        }
                    }
                    if ok {
                        used_h[i] = true;
                    }
                }
                proof {
                    assert forall|p: int| 0 <= p < sel.len() implies {
                        ||| (#[trigger] sel[p]) < nh && used_h@[sel[p]]
                        ||| nh <= sel[p] && used_v@[sel[p] - nh]
                    } by {
                        assert(is_input(*self, placed@[p], sel[p]));
                        if p < sel0.len() {
                            assert(sel[p] == sel0[p]);
                            assert((sel0[p] < nh && uh0[sel0[p]]) || (nh <= sel0[p] && uv0[sel0[p] - nh]));
                        }
                    }
                }
                i += 1;
            }
            let mut j: usize = 0;
            while ok && j < nv
                invariant
                    self.wf(),
                    layout_ok(grid, placed@),
                    grid.width == width,
                    grid.height == height,
                    nh == self.horizontal_words@.len(),
                    nv == self.vertical_words@.len(),
                    used_h@.len() == nh,
                    used_v@.len() == nv,
                    forced <= SEEDED_CROSSINGS,
                    placed_as(*self, placed@, sel),
                    forall|p: int| 0 <= p < sel.len() ==> {
                        ||| (#[trigger] sel[p]) < nh && used_h@[sel[p]]
                        ||| nh <= sel[p] && used_v@[sel[p] - nh]
                    },
                    lone_word_fits(*self, width as int, height as int) ==> ok && placed@.len() == 1,
                decreases nv - j,
            {
                let ghost uh0 = used_h@;
                let ghost uv0 = used_v@;
                let ghost sel0 = sel;
                if !used_v[j] {
                    assert(1 <= self.vertical_words@[j as int]@.len());
                    let ghost before = placed@;
                    ok = self.place_first_fit(&mut grid, &mut placed, &self.vertical_words[j], Direction::Vertical, SEEDED_CANDIDATES);
                    proof {
                        if ok {
                            let xi = j + nh;
                            assert forall|p: int| 0 <= p < sel.len() implies sel[p] != xi by {
                                if nh <= sel[p] && used_v@[sel[p] - nh] {}
                            }
                            lemma_push_fresh(*self, before, placed@, sel, xi);
                            sel = sel.push(xi);
                        }
                    }
                    if ok {
                        used_v[j] = true;
                    }
                }
                proof {
                    assert forall|p: int| 0 <= p < sel.len() implies {
                        ||| (#[trigger] sel[p]) < nh && used_h@[sel[p]]
                        ||| nh <= sel[p] && used_v@[sel[p] - nh]
                    } by {
                        assert(is_input(*self, placed@[p], sel[p]));
                        if p < sel0.len() {
                            assert(sel[p] == sel0[p]);
                            assert((sel0[p] < nh && uh0[sel0[p]]) || (nh <= sel0[p] && uv0[sel0[p] - nh]));
                        }
                    }
                }
                j += 1;
            }
            if ok && placed.len() == nh + nv {
                proof { lemma_layout_in_range(grid, placed@); }
                let (h, w) = grid.get_used_dimensions();
                let n = self.count_total_intersections(&grid, &placed);
                let score = crossing_score(h, w, forced + n);
                if best.is_none() || score > best_score {
                    best_score = score;
                    best = Some((grid, placed));
                }
            }
            attempt += 1;
        }
        best
    }
}

} // verus!
