use vstd::prelude::*;
use crate::generator::WordSearchGenerator;
use crate::grid::{Direction, Grid};
use crate::scoring::placement_score;

verus! {

/// Most candidates `generate_candidates` returns.
pub const MAX_CANDIDATES: usize = 50;

/// A place for a word, given by the cell of its last character, with its score.
#[derive(Clone, Copy, Debug)]
pub struct PlacementCandidate {
    pub direction: Direction,
    pub row: usize,
    pub col: usize,
    pub score: i64,
}

/// `c` is a legal place for `w` in `g` in direction `dir`, scored by `placement_score`.
pub open spec fn valid_candidate(g: Grid, w: Seq<char>, dir: Direction, c: PlacementCandidate) -> bool {
    &&& c.direction == dir
    &&& g.can_place_at(w, c.row as int, c.col as int, dir)
    &&& c.score == placement_score(g, w, c.row as int, c.col as int, dir)
}

/// Scores never increase along `cs`.
pub open spec fn ranked(cs: Seq<PlacementCandidate>) -> bool {
    forall|a: int, b: int| 0 <= a < b < cs.len() ==> (#[trigger] cs[a]).score >= (#[trigger] cs[b]).score
}

/// Some place in `g` takes `w` in direction `dir`.
pub open spec fn has_place(g: Grid, w: Seq<char>, dir: Direction) -> bool {
    exists|row: int, col: int| #[trigger] g.can_place_at(w, row, col, dir)
}

/// Some entry of `cs` is the place `(row, col)`.
pub open spec fn lists_place(cs: Seq<PlacementCandidate>, row: int, col: int) -> bool {
    exists|k: int| 0 <= k < cs.len() && #[trigger] cs[k].row == row && cs[k].col == col
}

/// No two entries of `cs` name the same place.
pub open spec fn distinct_places(cs: Seq<PlacementCandidate>) -> bool {
    forall|a: int, b: int| 0 <= a < cs.len() && 0 <= b < cs.len() && a != b
        ==> (#[trigger] cs[a]).row != (#[trigger] cs[b]).row || cs[a].col != cs[b].col
}

/// Some entry of `cs` equals `c`.
pub open spec fn contains_candidate(cs: Seq<PlacementCandidate>, c: PlacementCandidate) -> bool {
    exists|m: int| 0 <= m < cs.len() && cs[m] == c
}

/// Sorts by score, highest first, by insertion.
fn rank_candidates(v: &mut Vec<PlacementCandidate>, g: Ghost<Grid>, w: Ghost<Seq<char>>, dir: Ghost<Direction>)
    requires
        forall|k: int| 0 <= k < old(v)@.len() ==> valid_candidate(g@, w@, dir@, #[trigger] old(v)@[k]),
    ensures
        final(v)@.len() == old(v)@.len(),
        forall|k: int| 0 <= k < final(v)@.len() ==> valid_candidate(g@, w@, dir@, #[trigger] final(v)@[k]),
        ranked(final(v)@),
        forall|k: int| 0 <= k < old(v)@.len() ==> contains_candidate(final(v)@, #[trigger] old(v)@[k]),
        distinct_places(old(v)@) ==> distinct_places(final(v)@),
{
    let ghost orig = v@;
    let n = v.len();
    let mut i: usize = 0;
    while i < n
        invariant
            n == v@.len(),
            i <= n,
            forall|k: int| 0 <= k < n ==> valid_candidate(g@, w@, dir@, #[trigger] v@[k]),
            ranked(v@.subrange(0, i as int)),
            orig == old(v)@,
            forall|k: int| 0 <= k < orig.len() ==> contains_candidate(v@, #[trigger] orig[k]),
            distinct_places(orig) ==> distinct_places(v@),
        decreases n - i,
    {
        let mut j: usize = i;
        assert forall|a: int, b: int| 0 <= a < b <= i && a != j && b != j implies v@[a].score >= v@[b].score by {
            assert(v@.subrange(0, i as int)[a] == v@[a]);
            assert(v@.subrange(0, i as int)[b] == v@[b]);
        }
        while j > 0 && v[j - 1].score < v[j].score
            invariant
                n == v@.len(),
                j <= i < n,
                forall|k: int| 0 <= k < n ==> valid_candidate(g@, w@, dir@, #[trigger] v@[k]),
                forall|a: int, b: int| 0 <= a < b <= i && a != j && b != j ==> v@[a].score >= v@[b].score,
                forall|b: int| j < b <= i ==> v@[j as int].score > v@[b].score,
                forall|k: int| 0 <= k < orig.len() ==> contains_candidate(v@, #[trigger] orig[k]),
                distinct_places(orig) ==> distinct_places(v@),
            decreases j,
        {
            let ghost before = v@;
            let t = v[j];
            let u = v[j - 1];
            v[j] = u;
            v[j - 1] = t;
            proof {
                assert forall|k: int| 0 <= k < orig.len() implies contains_candidate(v@, #[trigger] orig[k]) by {
                    let m = choose|m: int| 0 <= m < before.len() && before[m] == orig[k];
                    let m2 = if m == j { j - 1 } else if m == j - 1 { j as int } else { m };
                    assert(v@[m2] == before[m]);
                }
                if distinct_places(before) {
                    assert forall|a: int, b: int| 0 <= a < v@.len() && 0 <= b < v@.len() && a != b
                        implies (#[trigger] v@[a]).row != (#[trigger] v@[b]).row || v@[a].col != v@[b].col by {
                        let oa = if a == j { j - 1 } else if a == j - 1 { j as int } else { a };
                        let ob = if b == j { j - 1 } else if b == j - 1 { j as int } else { b };
                        assert(v@[a] == before[oa]);
                        assert(v@[b] == before[ob]);
                    }
                }
            }
            j -= 1;
        }
        proof {
            assert forall|a: int, b: int| 0 <= a < b < i + 1 implies
                (#[trigger] v@.subrange(0, i + 1)[a]).score >= (#[trigger] v@.subrange(0, i + 1)[b]).score by {
                if b == j && a < j {
                    assert(v@[a].score >= v@[j - 1].score || a == j - 1);
                }
            }
        }
        i += 1;
    }
    assert(v@.subrange(0, n as int) == v@);
}

impl WordSearchGenerator {
    /// Every legal place for `word` in `direction`, scored, best first, cut to the
    /// best `MAX_CANDIDATES`. Empty exactly when the word fits nowhere.
    pub fn generate_candidates(&self, grid: &Grid, word: &Vec<char>, direction: Direction) -> (r: Vec<PlacementCandidate>)
        requires
            grid.wf(),
            word@.len() >= 1,
        ensures
            r@.len() <= MAX_CANDIDATES,
            forall|k: int| 0 <= k < r@.len() ==> valid_candidate(*grid, word@, direction, #[trigger] r@[k]),
            ranked(r@),
            distinct_places(r@),
            r@.len() == 0 <==> !has_place(*grid, word@, direction),
            forall|row: int, col: int| #[trigger] grid.can_place_at(word@, row, col, direction) ==> {
                ||| lists_place(r@, row, col)
                ||| r@.len() == MAX_CANDIDATES
                    && placement_score(*grid, word@, row, col, direction) <= r@[MAX_CANDIDATES - 1].score
            },
    {
        let len = word.len();
        let mut cands: Vec<PlacementCandidate> = Vec::new();
        let mut row: usize = if direction == Direction::Vertical { len - 1 } else { 0 };
        let col0: usize = if direction == Direction::Horizontal { len - 1 } else { 0 };
        let ghost row0 = row;
        while row < grid.height
            invariant
                grid.wf(),
                len == word@.len(),
                len >= 1,
                row0 == if direction == Direction::Vertical { len - 1 } else { 0 },
                col0 == if direction == Direction::Horizontal { len - 1 } else { 0 },
                row0 <= row,
                forall|k: int| 0 <= k < cands@.len() ==> valid_candidate(*grid, word@, direction, #[trigger] cands@[k]),
                cands@.len() == 0 ==> forall|r: int, c: int| r < row ==> !#[trigger] grid.can_place_at(word@, r, c, direction),
                forall|r: int, c: int| r < row && #[trigger] grid.can_place_at(word@, r, c, direction) ==> lists_place(cands@, r, c),
                distinct_places(cands@),
                forall|k: int| 0 <= k < cands@.len() ==> (#[trigger] cands@[k]).row < row,
            decreases grid.height - row,
        {
            let mut col: usize = col0;
            while col < grid.width
                invariant
                    grid.wf(),
                    len == word@.len(),
                    len >= 1,
                    row < grid.height,
                    row0 == if direction == Direction::Vertical { len - 1 } else { 0 },
                    col0 == if direction == Direction::Horizontal { len - 1 } else { 0 },
                    row0 <= row,
                    col0 <= col,
                    forall|k: int| 0 <= k < cands@.len() ==> valid_candidate(*grid, word@, direction, #[trigger] cands@[k]),
                    cands@.len() == 0 ==> forall|r: int, c: int|
                        (r < row || (r == row && c < col)) ==> !#[trigger] grid.can_place_at(word@, r, c, direction),
                    forall|r: int, c: int| (r < row || (r == row && c < col)) && #[trigger] grid.can_place_at(word@, r, c, direction)
                        ==> lists_place(cands@, r, c),
                    distinct_places(cands@),
                    forall|k: int| 0 <= k < cands@.len() ==> (#[trigger] cands@[k]).row < row
                        || (cands@[k].row == row && cands@[k].col < col),
                decreases grid.width - col,
            {
                if grid.can_place_word(word, row, col, direction) {
                    let score = self.calculate_placement_score(grid, word, row, col, direction);
                    let ghost before = cands@;
                    cands.push(PlacementCandidate { direction, row, col, score });
                    proof {
                        assert forall|r: int, c: int| (r < row || (r == row && c < col + 1)) && #[trigger] grid.can_place_at(word@, r, c, direction)
                            implies lists_place(cands@, r, c) by {
                            if r == row && c == col {
                                assert(cands@[before.len() as int].row == r);
                            } else {
                                let k = choose|k: int| 0 <= k < before.len() && #[trigger] before[k].row == r && before[k].col == c;
                                assert(cands@[k] == before[k]);
                            }
                        }
                        assert forall|k: int| 0 <= k < cands@.len() implies (#[trigger] cands@[k]).row < row
                            || (cands@[k].row == row && cands@[k].col < col + 1) by {
                            if k < before.len() { assert(cands@[k] == before[k]); }
                        }
                        assert forall|a: int, b: int| 0 <= a < cands@.len() && 0 <= b < cands@.len() && a != b
                            implies (#[trigger] cands@[a]).row != (#[trigger] cands@[b]).row || cands@[a].col != cands@[b].col by {
                            if a < before.len() { assert(cands@[a] == before[a]); }
                            if b < before.len() { assert(cands@[b] == before[b]); }
                        }
                    }
                }
                col += 1;
            }
            proof {
                if cands@.len() == 0 {
                    assert forall|r: int, c: int| r < row + 1 implies !#[trigger] grid.can_place_at(word@, r, c, direction) by {
                        if r == row && c < col0 {
                        }
                    }
                }
                assert forall|r: int, c: int| r < row + 1 && #[trigger] grid.can_place_at(word@, r, c, direction)
                    implies lists_place(cands@, r, c) by {
                    if r == row && c < col0 {
                    }
                }
            }
            row += 1;
        }
        proof {
            if cands@.len() == 0 {
                assert forall|r: int, c: int| !#[trigger] grid.can_place_at(word@, r, c, direction) by {
                    if r >= row {
                    }
                }
            } else {
                assert(grid.can_place_at(word@, cands@[0].row as int, cands@[0].col as int, direction));
            }
        }
        let ghost all = cands@;
        proof {
            assert forall|r: int, c: int| #[trigger] grid.can_place_at(word@, r, c, direction) implies lists_place(all, r, c) by {
                if r < row0 as int {
                }
                if r >= row as int {
                }
            }
        }
        rank_candidates(&mut cands, Ghost(*grid), Ghost(word@), Ghost(direction));
        let ghost ranked_all = cands@;
        cands.truncate(MAX_CANDIDATES);
        proof {
            assert forall|a: int, b: int| 0 <= a < cands@.len() && 0 <= b < cands@.len() && a != b
                implies (#[trigger] cands@[a]).row != (#[trigger] cands@[b]).row || cands@[a].col != cands@[b].col by {
                assert(cands@[a] == ranked_all[a]);
                assert(cands@[b] == ranked_all[b]);
            }
            assert forall|r: int, c: int| #[trigger] grid.can_place_at(word@, r, c, direction) implies {
                ||| lists_place(cands@, r, c)
                ||| cands@.len() == MAX_CANDIDATES
                    && placement_score(*grid, word@, r, c, direction) <= cands@[MAX_CANDIDATES - 1].score
            } by {
                let k = choose|k: int| 0 <= k < all.len() && #[trigger] all[k].row == r && all[k].col == c;
                assert(contains_candidate(ranked_all, all[k]));
                let m = choose|m: int| 0 <= m < ranked_all.len() && ranked_all[m] == all[k];
                assert(valid_candidate(*grid, word@, direction, ranked_all[m]));
                if m < MAX_CANDIDATES {
                    assert(cands@[m] == ranked_all[m]);
                } else {
                    assert(ranked_all[MAX_CANDIDATES - 1].score >= ranked_all[m].score);
                    assert(cands@[MAX_CANDIDATES - 1] == ranked_all[MAX_CANDIDATES - 1]);
                }
            }
        }
        cands
    }
}

} // verus!
