use vstd::prelude::*;
use crate::grid::{copy_chars, row_of, col_of, Direction, Grid, PlacedWord};
use crate::layout::{layout_ok, same_entries};

verus! {

/// Every word has at least one letter.
pub open spec fn nonempty_words(words: Seq<PlacedWord>) -> bool {
    forall|k: int| 0 <= k < words.len() ==> (#[trigger] words[k]).word@.len() >= 1
}

/// `b` is `a` with its anchor row lowered by `dr` and its column by `dc`.
pub open spec fn shifted(a: PlacedWord, b: PlacedWord, dr: int, dc: int) -> bool {
    &&& b.word@ == a.word@
    &&& b.direction == a.direction
    &&& b.start_row == a.start_row - dr
    &&& b.start_col == a.start_col - dc
}

/// A held word of at least one letter lies in the used box, and the compacted grid
/// holds it at its anchor moved by the box's corner.
pub proof fn lemma_compacted_word(g: Grid, g2: Grid, b: (usize, usize, usize, usize), pw: PlacedWord, pw2: PlacedWord)
    requires
        g.wf(),
        g2.wf(),
        g.is_used_box(b),
        g.holds_word(pw),
        pw.word@.len() >= 1,
        g2.height == b.1 - b.0 + 1,
        g2.width == b.3 - b.2 + 1,
        forall|r: int, c: int| 0 <= r < g2.height && 0 <= c < g2.width ==> #[trigger] g2.cell(r, c) == g.get(r + b.0, c + b.2),
        shifted(pw, pw2, b.0 as int, b.2 as int),
    ensures
        g2.holds_word(pw2),
{
    let len = pw.word@.len() as int;
    let sr = pw.start_row as int;
    let sc = pw.start_col as int;
    assert(g.cell(row_of(pw.direction, sr, 0), col_of(pw.direction, sc, 0)) == Some(pw.word@[0]));
    assert(g.is_filled(row_of(pw.direction, sr, 0), col_of(pw.direction, sc, 0)));
    assert(g.cell(row_of(pw.direction, sr, len - 1), col_of(pw.direction, sc, len - 1)) == Some(pw.word@[len - 1]));
    assert(g.is_filled(row_of(pw.direction, sr, len - 1), col_of(pw.direction, sc, len - 1)));
    assert(!g.is_blank());
    assert(g.box_bounds(b));
    assert forall|i: int| 0 <= i < len implies
        #[trigger] g2.cell(row_of(pw2.direction, pw2.start_row as int, i), col_of(pw2.direction, pw2.start_col as int, i)) == Some(pw2.word@[i]) by {
        let r = row_of(pw.direction, sr, i);
        let c = col_of(pw.direction, sc, i);
        assert(g.cell(r, c) == Some(pw.word@[i]));
        assert(g.is_filled(r, c));
    }
}

/// Compacting a grid that has no empty row or column changes nothing: its used box
/// is the whole grid, so `compact` keeps every cell, the size, and returns `(0, 0)`.
pub proof fn lemma_trimmed_grid_is_compact(g: Grid)
    requires
        g.wf(),
        !g.has_empty_line(),
        g.height >= 1,
        g.width >= 1,
    ensures
        g.used_box() == ((0usize, (g.height - 1) as usize, 0usize, (g.width - 1) as usize)),
        g.used_height() == g.height,
        g.used_width() == g.width,
{
    let b: (usize, usize, usize, usize) = (0usize, (g.height - 1) as usize, 0usize, (g.width - 1) as usize);
    assert(!g.row_empty(0));
    assert(!g.row_empty(g.height - 1));
    assert(!g.col_empty(0));
    assert(!g.col_empty(g.width - 1));
    let c0 = choose|c: int| 0 <= c < g.width && (#[trigger] g.cell(0, c)).is_some();
    let c1 = choose|c: int| 0 <= c < g.width && (#[trigger] g.cell(g.height - 1, c)).is_some();
    let r0 = choose|r: int| 0 <= r < g.height && (#[trigger] g.cell(r, 0)).is_some();
    let r1 = choose|r: int| 0 <= r < g.height && (#[trigger] g.cell(r, g.width - 1)).is_some();
    assert(g.is_filled(b.0 as int, c0));
    assert(g.is_filled(b.1 as int, c1));
    assert(g.is_filled(r0, b.2 as int));
    assert(g.is_filled(r1, b.3 as int));
    assert forall|r: int, c: int| #[trigger] g.is_filled(r, c) implies b.0 <= r <= b.1 && b.2 <= c <= b.3 by {}
    assert(!g.is_blank());
    assert(g.box_bounds(b));
    assert(g.is_used_box(b));
    g.lemma_used_box_unique(b, g.used_box());
}

/// `words` with every anchor lowered by `(dr, dc)`.
pub fn shift_anchors(words: &Vec<PlacedWord>, dr: usize, dc: usize) -> (r: Vec<PlacedWord>)
    requires
        forall|k: int| 0 <= k < words@.len() ==> (#[trigger] words@[k]).start_row >= dr && words@[k].start_col >= dc,
    ensures
        r@.len() == words@.len(),
        forall|k: int| 0 <= k < words@.len() ==> shifted(#[trigger] words@[k], r@[k], dr as int, dc as int),
{
    let mut r: Vec<PlacedWord> = Vec::new();
    let mut k: usize = 0;
    while k < words.len()
        invariant
            k <= words@.len(),
            r@.len() == k,
            forall|j: int| 0 <= j < words@.len() ==> (#[trigger] words@[j]).start_row >= dr && words@[j].start_col >= dc,
            forall|j: int| 0 <= j < k ==> shifted(#[trigger] words@[j], r@[j], dr as int, dc as int),
        decreases words@.len() - k,
    {
        let pw = &words[k];
        assert(pw.start_row >= dr && pw.start_col >= dc);
        r.push(PlacedWord {
            word: copy_chars(&pw.word),
            start_row: pw.start_row - dr,
            start_col: pw.start_col - dc,
            direction: pw.direction,
        });
        k += 1;
    }
    r
}

/// Shrinks the grid to its used box and moves every word's anchor with it; every
/// word stays readable at its new anchor.
pub fn compact_layout(grid: &mut Grid, words: &mut Vec<PlacedWord>)
    requires
        layout_ok(*old(grid), old(words)@),
        nonempty_words(old(words)@),
    ensures
        layout_ok(*final(grid), final(words)@),
        nonempty_words(final(words)@),
        final(words)@.len() == old(words)@.len(),
        final(grid).height == old(grid).used_height(),
        final(grid).width == old(grid).used_width(),
        same_entries(old(words)@, final(words)@),
        forall|r: int, c: int| 0 <= r < final(grid).height && 0 <= c < final(grid).width
            ==> #[trigger] final(grid).cell(r, c) == old(grid).get(r + old(grid).used_box().0, c + old(grid).used_box().2),
        forall|k: int| 0 <= k < old(words)@.len() ==> shifted(#[trigger] old(words)@[k], final(words)@[k],
            old(grid).used_box().0 as int, old(grid).used_box().2 as int),
{
    let ghost g0 = *grid;
    let b = grid.calculate_used_area();
    let off = grid.compact();
    proof {
        let bb = choose|x: (usize, usize, usize, usize)| #[trigger] g0.is_used_box(x) && {
            &&& off == (x.0, x.2)
            &&& grid.height == x.1 - x.0 + 1
            &&& grid.width == x.3 - x.2 + 1
        };
        g0.lemma_used_box_unique(b, bb);
        assert forall|k: int| 0 <= k < words@.len() implies (#[trigger] words@[k]).start_row >= off.0 && words@[k].start_col >= off.1 by {
            let pw = words@[k];
            assert(g0.holds_word(pw));
            assert(pw.word@.len() >= 1);
            assert(g0.cell(row_of(pw.direction, pw.start_row as int, 0), col_of(pw.direction, pw.start_col as int, 0)) == Some(pw.word@[0]));
            assert(g0.is_filled(row_of(pw.direction, pw.start_row as int, 0), col_of(pw.direction, pw.start_col as int, 0)));
            assert(!g0.is_blank());
            assert(g0.box_bounds(b));
        }
    }
    let moved = shift_anchors(words, off.0, off.1);
    proof {
        assert forall|k: int| 0 <= k < moved@.len() implies grid.holds_word(#[trigger] moved@[k]) by {
            assert(shifted(words@[k], moved@[k], off.0 as int, off.1 as int));
            lemma_compacted_word(g0, *grid, b, words@[k], moved@[k]);
        }
        assert forall|k: int| 0 <= k < moved@.len() implies (#[trigger] moved@[k]).word@.len() >= 1 by {
            assert(shifted(words@[k], moved@[k], off.0 as int, off.1 as int));
        }
        assert forall|k: int| 0 <= k < words@.len() implies (#[trigger] words@[k]).word@ == moved@[k].word@ && words@[k].direction == moved@[k].direction by {
            assert(shifted(words@[k], moved@[k], off.0 as int, off.1 as int));
        }
        assert(b == g0.used_box());
    }
    *words = moved;
}

/// Some entry of `m` is `x`.
pub open spec fn in_map(m: Seq<int>, x: int) -> bool {
    exists|i: int| 0 <= i < m.len() && m[i] == x
}

/// `m` increases strictly and its entries lie in `0..n`.
pub open spec fn increasing_within(m: Seq<int>, n: int) -> bool {
    &&& forall|a: int, b: int| 0 <= a < b < m.len() ==> (#[trigger] m[a]) < (#[trigger] m[b])
    &&& forall|i: int| 0 <= i < m.len() ==> 0 <= #[trigger] m[i] < n
}

/// `rm` lists, in order, exactly the rows of `g` that hold a letter.
pub open spec fn kept_rows(g: Grid, rm: Seq<int>) -> bool {
    &&& increasing_within(rm, g.height as int)
    &&& forall|r: int| 0 <= r < g.height ==> (in_map(rm, r) <==> !#[trigger] g.row_empty(r))
}

/// `cm` lists, in order, exactly the columns of `g` that hold a letter.
pub open spec fn kept_cols(g: Grid, cm: Seq<int>) -> bool {
    &&& increasing_within(cm, g.width as int)
    &&& forall|c: int| 0 <= c < g.width ==> (in_map(cm, c) <==> !#[trigger] g.col_empty(c))
}

/// Cell `(i, j)` of `new` is cell `(rm[i], cm[j])` of `old`.
pub open spec fn trimmed_from(old: Grid, new: Grid, rm: Seq<int>, cm: Seq<int>) -> bool {
    &&& new.height == rm.len()
    &&& new.width == cm.len()
    &&& forall|i: int, j: int| 0 <= i < new.height && 0 <= j < new.width ==> #[trigger] new.cell(i, j) == old.cell(rm[i], cm[j])
}

/// Each new anchor names, through `rm` and `cm`, the old anchor's row and column.
pub open spec fn anchors_follow(a: Seq<PlacedWord>, b: Seq<PlacedWord>, rm: Seq<int>, cm: Seq<int>) -> bool {
    forall|k: int| 0 <= k < a.len() ==> {
        &&& 0 <= (#[trigger] b[k]).start_row < rm.len()
        &&& rm[b[k].start_row as int] == a[k].start_row
        &&& 0 <= b[k].start_col < cm.len()
        &&& cm[b[k].start_col as int] == a[k].start_col
    }
}

proof fn lemma_map_remove(m: Seq<int>, i: int, n: int)
    requires
        increasing_within(m, n),
        0 <= i < m.len(),
    ensures
        increasing_within(m.remove(i), n),
        forall|x: int| in_map(m.remove(i), x) ==> in_map(m, x) && x != m[i],
        forall|x: int| in_map(m, x) && x != m[i] ==> in_map(m.remove(i), x),
{
    let m2 = m.remove(i);
    assert forall|a: int, b: int| 0 <= a < b < m2.len() implies (#[trigger] m2[a]) < (#[trigger] m2[b]) by {
        let oa = if a < i { a } else { a + 1 };
        let ob = if b < i { b } else { b + 1 };
        assert(m2[a] == m[oa] && m2[b] == m[ob]);
    }
    assert forall|x: int| in_map(m2, x) implies in_map(m, x) && x != m[i] by {
        let q = choose|q: int| 0 <= q < m2.len() && m2[q] == x;
        let oq = if q < i { q } else { q + 1 };
        assert(m[oq] == x);
    }
    assert forall|x: int| in_map(m, x) && x != m[i] implies in_map(m2, x) by {
        let q = choose|q: int| 0 <= q < m.len() && m[q] == x;
        if q < i {
            assert(m2[q] == x);
        } else {
            assert(m2[q - 1] == x);
        }
    }
}

impl Grid {
    /// No cell of row `r` holds a character.
    pub open spec fn row_empty(&self, r: int) -> bool {
        forall|c: int| 0 <= c < self.width ==> (#[trigger] self.cell(r, c)).is_none()
    }

    /// No cell of column `c` holds a character.
    pub open spec fn col_empty(&self, c: int) -> bool {
        forall|r: int| 0 <= r < self.height ==> (#[trigger] self.cell(r, c)).is_none()
    }

    /// Some row or column of the grid is empty.
    pub open spec fn has_empty_line(&self) -> bool {
        ||| exists|r: int| 0 <= r < self.height && #[trigger] self.row_empty(r)
        ||| exists|c: int| 0 <= c < self.width && #[trigger] self.col_empty(c)
    }

    fn is_row_empty(&self, r: usize) -> (b: bool)
        requires
            self.wf(),
            r < self.height,
        ensures
            b == self.row_empty(r as int),
    {
        let mut c: usize = 0;
        while c < self.width
            invariant
                self.wf(),
                r < self.height,
                c <= self.width,
                forall|j: int| 0 <= j < c ==> (#[trigger] self.cell(r as int, j)).is_none(),
            decreases self.width - c,
        {
            if self.cells[r][c].is_some() {
                assert(self.cell(r as int, c as int).is_some());
                return false;
            }
            c += 1;
        }
        true
    }

    fn is_col_empty(&self, c: usize) -> (b: bool)
        requires
            self.wf(),
            c < self.width,
        ensures
            b == self.col_empty(c as int),
    {
        let mut r: usize = 0;
        while r < self.height
            invariant
                self.wf(),
                c < self.width,
                r <= self.height,
                forall|i: int| 0 <= i < r ==> (#[trigger] self.cell(i, c as int)).is_none(),
            decreases self.height - r,
        {
            if self.cells[r][c].is_some() {
                assert(self.cell(r as int, c as int).is_some());
                return false;
            }
            r += 1;
        }
        true
    }

    /// Whether some row or column is empty.
    pub fn find_empty_line(&self) -> (b: bool)
        requires
            self.wf(),
        ensures
            b == self.has_empty_line(),
    {
        let mut r: usize = 0;
        while r < self.height
            invariant
                self.wf(),
                r <= self.height,
                forall|i: int| 0 <= i < r ==> !#[trigger] self.row_empty(i),
            decreases self.height - r,
        {
            if self.is_row_empty(r) {
                return true;
            }
            r += 1;
        }
        let mut c: usize = 0;
        while c < self.width
            invariant
                self.wf(),
                c <= self.width,
                forall|i: int| 0 <= i < self.height ==> !#[trigger] self.row_empty(i),
                forall|j: int| 0 <= j < c ==> !#[trigger] self.col_empty(j),
            decreases self.width - c,
        {
            if self.is_col_empty(c) {
                return true;
            }
            c += 1;
        }
        false
    }

    /// Deletes every empty row, then every empty column, moving the words with the
    /// cells. Returns whether anything was deleted; when nothing was, the grid and the
    /// words are left as they were. Afterwards no row or column is empty.
    pub fn try_remove_empty_rows_cols(&mut self, words: &mut Vec<PlacedWord>) -> (changed: bool)
        requires
            old(self).wf(),
            layout_ok(*old(self), old(words)@),
            nonempty_words(old(words)@),
        ensures
            final(self).wf(),
            layout_ok(*final(self), final(words)@),
            nonempty_words(final(words)@),
            final(words)@.len() == old(words)@.len(),
            same_entries(old(words)@, final(words)@),
            changed == old(self).has_empty_line(),
            !changed ==> *final(self) == *old(self) && final(words)@ == old(words)@,
            changed ==> final(self).height + final(self).width < old(self).height + old(self).width,
            !final(self).has_empty_line(),
            exists|rm: Seq<int>, cm: Seq<int>| {
                &&& kept_rows(*old(self), rm)
                &&& kept_cols(*old(self), cm)
                &&& trimmed_from(*old(self), *final(self), rm, cm)
                &&& anchors_follow(old(words)@, final(words)@, rm, cm)
            },
    {
        let ghost id_r = Seq::new(self.height as nat, |i: int| i);
        let ghost id_c = Seq::new(self.width as nat, |i: int| i);
        if !self.find_empty_line() {
            proof {
                assert forall|r: int| 0 <= r < self.height implies (in_map(id_r, r) <==> !#[trigger] self.row_empty(r)) by {
                    assert(id_r[r] == r);
                }
                assert forall|c: int| 0 <= c < self.width implies (in_map(id_c, c) <==> !#[trigger] self.col_empty(c)) by {
                    assert(id_c[c] == c);
                }
                assert(kept_rows(*self, id_r));
                assert(kept_cols(*self, id_c));
                assert(trimmed_from(*self, *self, id_r, id_c));
                assert forall|k: int| 0 <= k < words@.len() implies {
                    &&& 0 <= (#[trigger] words@[k]).start_row < id_r.len()
                    &&& id_r[words@[k].start_row as int] == words@[k].start_row
                    &&& 0 <= words@[k].start_col < id_c.len()
                    &&& id_c[words@[k].start_col as int] == words@[k].start_col
                } by {
                    assert(self.holds_word(words@[k]));
                    assert(words@[k].word@.len() >= 1);
                }
                assert(anchors_follow(words@, words@, id_r, id_c));
            }
            return false;
        }
        assert(same_entries(old(words)@, words@));
        let ghost g0 = *self;
        let ghost mut rm: Seq<int> = id_r;
        proof {
            assert forall|r: int| 0 <= r < g0.height implies in_map(rm, r) by {
                assert(rm[r] == r);
            }
        }
        let mut removed = false;
        let mut row: usize = 0;
        while row < self.height
            invariant
                self.wf(),
                layout_ok(*self, words@),
                nonempty_words(words@),
                words@.len() == old(words)@.len(),
                same_entries(old(words)@, words@),
                g0.has_empty_line(),
                g0.wf(),
                self.width == g0.width,
                !removed ==> *self == g0,
                removed ==> self.height < g0.height,
                self.height <= g0.height,
                row <= self.height,
                forall|i: int| 0 <= i < row ==> !#[trigger] self.row_empty(i),
                g0 == *old(self),
                rm.len() == self.height,
                increasing_within(rm, g0.height as int),
                forall|i: int, c: int| 0 <= i < self.height && 0 <= c < self.width ==> #[trigger] self.cell(i, c) == g0.cell(rm[i], c),
                forall|r: int| 0 <= r < g0.height && !in_map(rm, r) ==> #[trigger] g0.row_empty(r),
                forall|k: int| 0 <= k < words@.len() ==> {
                    &&& 0 <= (#[trigger] words@[k]).start_row < rm.len()
                    &&& rm[words@[k].start_row as int] == old(words)@[k].start_row
                    &&& words@[k].start_col == old(words)@[k].start_col
                },
            decreases self.height - row,
        {
            if self.is_row_empty(row) {
                let ghost before = *self;
                let ghost wb = words@;
                self.remove_empty_row(words, row);
                proof {
                    let rm2 = rm.remove(row as int);
                    lemma_map_remove(rm, row as int, g0.height as int);
                    assert forall|i: int, c: int| 0 <= i < self.height && 0 <= c < self.width implies #[trigger] self.cell(i, c) == g0.cell(rm2[i], c) by {
                        let oi = if i < row { i } else { i + 1 };
                        assert(self.cell(i, c) == before.cell(oi, c));
                        assert(rm2[i] == rm[oi]);
                    }
                    assert(g0.row_empty(rm[row as int])) by {
                        assert forall|c: int| 0 <= c < g0.width implies (#[trigger] g0.cell(rm[row as int], c)).is_none() by {
                            assert(before.cell(row as int, c) == g0.cell(rm[row as int], c));
                        }
                    }
                    assert forall|r: int| 0 <= r < g0.height && !in_map(rm2, r) implies #[trigger] g0.row_empty(r) by {
                        if r != rm[row as int] && in_map(rm, r) {
                            assert(in_map(rm2, r));
                        }
                    }
                    assert forall|k: int| 0 <= k < words@.len() implies {
                        &&& 0 <= (#[trigger] words@[k]).start_row < rm2.len()
                        &&& rm2[words@[k].start_row as int] == old(words)@[k].start_row
                        &&& words@[k].start_col == old(words)@[k].start_col
                    } by {
                        assert(wb[k].start_row != row);
                        assert(self.holds_word(words@[k]));
                        assert(words@[k].word@.len() >= 1);
                    }
                    rm = rm2;
                }
                assert forall|i: int| 0 <= i < row implies !#[trigger] self.row_empty(i) by {
                    assert(!before.row_empty(i));
                    let c = choose|c: int| 0 <= c < before.width && (#[trigger] before.cell(i, c)).is_some();
                    assert(self.cell(i, c) == before.cell(i, c));
                }
                removed = true;
            } else {
                row += 1;
            }
        }
        let ghost mut cm: Seq<int> = id_c;
        proof {
            assert forall|c: int| 0 <= c < g0.width implies in_map(cm, c) by {
                assert(cm[c] == c);
            }
        }
        let mut col: usize = 0;
        while col < self.width
            invariant
                self.wf(),
                layout_ok(*self, words@),
                nonempty_words(words@),
                words@.len() == old(words)@.len(),
                same_entries(old(words)@, words@),
                g0.has_empty_line(),
                g0.wf(),
                !removed ==> *self == g0,
                removed ==> self.height + self.width < g0.height + g0.width,
                self.height <= g0.height,
                self.width <= g0.width,
                col <= self.width,
                forall|i: int| 0 <= i < self.height ==> !#[trigger] self.row_empty(i),
                forall|j: int| 0 <= j < col ==> !#[trigger] self.col_empty(j),
                g0 == *old(self),
                rm.len() == self.height,
                cm.len() == self.width,
                increasing_within(rm, g0.height as int),
                increasing_within(cm, g0.width as int),
                forall|i: int, j: int| 0 <= i < self.height && 0 <= j < self.width ==> #[trigger] self.cell(i, j) == g0.cell(rm[i], cm[j]),
                forall|r: int| 0 <= r < g0.height && !in_map(rm, r) ==> #[trigger] g0.row_empty(r),
                forall|c: int| 0 <= c < g0.width && !in_map(cm, c) ==> #[trigger] g0.col_empty(c),
                forall|k: int| 0 <= k < words@.len() ==> {
                    &&& 0 <= (#[trigger] words@[k]).start_row < rm.len()
                    &&& rm[words@[k].start_row as int] == old(words)@[k].start_row
                    &&& 0 <= words@[k].start_col < cm.len()
                    &&& cm[words@[k].start_col as int] == old(words)@[k].start_col
                },
            decreases self.width - col,
        {
            if self.is_col_empty(col) {
                let ghost before = *self;
                let ghost wb = words@;
                self.remove_empty_col(words, col);
                proof {
                    let cm2 = cm.remove(col as int);
                    lemma_map_remove(cm, col as int, g0.width as int);
                    assert forall|i: int, j: int| 0 <= i < self.height && 0 <= j < self.width implies #[trigger] self.cell(i, j) == g0.cell(rm[i], cm2[j]) by {
                        let oj = if j < col { j } else { j + 1 };
                        assert(self.cell(i, j) == before.cell(i, oj));
                        assert(cm2[j] == cm[oj]);
                    }
                    assert(g0.col_empty(cm[col as int])) by {
                        assert forall|r: int| 0 <= r < g0.height implies (#[trigger] g0.cell(r, cm[col as int])).is_none() by {
                            if in_map(rm, r) {
                                let i = choose|i: int| 0 <= i < rm.len() && rm[i] == r;
                                assert(before.cell(i, col as int) == g0.cell(rm[i], cm[col as int]));
                            } else {
                                assert(g0.row_empty(r));
                            }
                        }
                    }
                    assert forall|c: int| 0 <= c < g0.width && !in_map(cm2, c) implies #[trigger] g0.col_empty(c) by {
                        if c != cm[col as int] && in_map(cm, c) {
                            assert(in_map(cm2, c));
                        }
                    }
                    assert forall|k: int| 0 <= k < words@.len() implies {
                        &&& 0 <= (#[trigger] words@[k]).start_row < rm.len()
                        &&& rm[words@[k].start_row as int] == old(words)@[k].start_row
                        &&& 0 <= words@[k].start_col < cm2.len()
                        &&& cm2[words@[k].start_col as int] == old(words)@[k].start_col
                    } by {
                        assert(wb[k].start_col != col);
                        assert(self.holds_word(words@[k]));
                        assert(words@[k].word@.len() >= 1);
                    }
                    cm = cm2;
                }
                assert forall|j: int| 0 <= j < col implies !#[trigger] self.col_empty(j) by {
                    assert(!before.col_empty(j));
                    let r = choose|r: int| 0 <= r < before.height && (#[trigger] before.cell(r, j)).is_some();
                    assert(self.cell(r, j) == before.cell(r, j));
                }
                assert forall|i: int| 0 <= i < self.height implies !#[trigger] self.row_empty(i) by {
                    assert(!before.row_empty(i));
                    let c = choose|c: int| 0 <= c < before.width && (#[trigger] before.cell(i, c)).is_some();
                    assert(c != col);
                    if c < col {
                        assert(self.cell(i, c) == before.cell(i, c));
                    } else {
                        assert(self.cell(i, c - 1) == before.cell(i, c));
                    }
                }
                removed = true;
            } else {
                col += 1;
            }
        }
        if !removed {
            assert(!self.has_empty_line());
        }
        proof {
            assert forall|r: int| 0 <= r < g0.height implies (in_map(rm, r) <==> !#[trigger] g0.row_empty(r)) by {
                if in_map(rm, r) {
                    let i = choose|i: int| 0 <= i < rm.len() && rm[i] == r;
                    assert(!self.row_empty(i));
                    let j = choose|j: int| 0 <= j < self.width && (#[trigger] self.cell(i, j)).is_some();
                    assert(self.cell(i, j) == g0.cell(r, cm[j]));
                }
            }
            assert forall|c: int| 0 <= c < g0.width implies (in_map(cm, c) <==> !#[trigger] g0.col_empty(c)) by {
                if in_map(cm, c) {
                    let j = choose|j: int| 0 <= j < cm.len() && cm[j] == c;
                    assert(!self.col_empty(j));
                    let i = choose|i: int| 0 <= i < self.height && (#[trigger] self.cell(i, j)).is_some();
                    assert(self.cell(i, j) == g0.cell(rm[i], c));
                }
            }
            assert(kept_rows(g0, rm));
            assert(kept_cols(g0, cm));
            assert(trimmed_from(g0, *self, rm, cm));
            assert(anchors_follow(old(words)@, words@, rm, cm));
        }
        true
    }

    /// Deletes empty row `r`; rows below it move up one, and so do the words there.
    fn remove_empty_row(&mut self, words: &mut Vec<PlacedWord>, r: usize)
        requires
            old(self).wf(),
            r < old(self).height,
            old(self).row_empty(r as int),
            layout_ok(*old(self), old(words)@),
            nonempty_words(old(words)@),
        ensures
            final(self).wf(),
            final(self).height == old(self).height - 1,
            final(self).width == old(self).width,
            forall|i: int, c: int| 0 <= i < final(self).height && 0 <= c < final(self).width
                ==> #[trigger] final(self).cell(i, c) == old(self).cell(if i < r { i } else { i + 1 }, c),
            layout_ok(*final(self), final(words)@),
            nonempty_words(final(words)@),
            final(words)@.len() == old(words)@.len(),
            same_entries(old(words)@, final(words)@),
            forall|k: int| 0 <= k < old(words)@.len() ==> (#[trigger] old(words)@[k]).start_row != r
                && final(words)@[k].start_col == old(words)@[k].start_col
                && final(words)@[k].start_row == if old(words)@[k].start_row > r { old(words)@[k].start_row - 1 } else { old(words)@[k].start_row as int },
    {
        let ghost g0 = *self;
        self.cells.remove(r);
        self.height = self.height - 1;
        assert forall|i: int| 0 <= i < self.height implies (#[trigger] self.cells@[i])@.len() == self.width by {
            if i < r { assert(self.cells@[i] == g0.cells@[i]); } else { assert(self.cells@[i] == g0.cells@[i + 1]); }
        }
        assert forall|i: int, c: int| 0 <= i < self.height && 0 <= c < self.width
            implies #[trigger] self.cell(i, c) == g0.cell(if i < r { i } else { i + 1 }, c) by {
            if i < r { assert(self.cells@[i] == g0.cells@[i]); } else { assert(self.cells@[i] == g0.cells@[i + 1]); }
        }
        let mut out: Vec<PlacedWord> = Vec::new();
        let mut k: usize = 0;
        while k < words.len()
            invariant
                self.wf(),
                g0.wf(),
                self.height == g0.height - 1,
                self.width == g0.width,
                r < g0.height,
                g0.row_empty(r as int),
                layout_ok(g0, words@),
                nonempty_words(words@),
                forall|i: int, c: int| 0 <= i < self.height && 0 <= c < self.width
                    ==> #[trigger] self.cell(i, c) == g0.cell(if i < r { i } else { i + 1 }, c),
                k <= words@.len(),
                out@.len() == k,
                forall|j: int| 0 <= j < k ==> self.holds_word(#[trigger] out@[j]),
                nonempty_words(out@),
                forall|j: int| 0 <= j < k ==> (#[trigger] out@[j]).word@ == words@[j].word@ && out@[j].direction == words@[j].direction,
                words@ == old(words)@,
                forall|j: int| 0 <= j < k ==> (#[trigger] words@[j]).start_row != r && out@[j].start_col == words@[j].start_col
                    && out@[j].start_row == if words@[j].start_row > r { words@[j].start_row - 1 } else { words@[j].start_row as int },
            decreases words@.len() - k,
        {
            let pw = &words[k];
            assert(g0.holds_word(*pw));
            assert(pw.word@.len() >= 1);
            let sr = if pw.start_row > r { pw.start_row - 1 } else { pw.start_row };
            let npw = PlacedWord { word: copy_chars(&pw.word), start_row: sr, start_col: pw.start_col, direction: pw.direction };
            proof {
                let len = pw.word@.len() as int;
                let psr = pw.start_row as int;
                let psc = pw.start_col as int;
                assert(g0.cell(row_of(pw.direction, psr, 0), col_of(pw.direction, psc, 0)) == Some(pw.word@[0]));
                if pw.direction == Direction::Horizontal {
                    assert(psr != r);
                } else {
                    if psr < r && r < psr + len {
                        assert(g0.cell(row_of(pw.direction, psr, r - psr), col_of(pw.direction, psc, r - psr)) == Some(pw.word@[r - psr]));
                    }
                    assert(psr + len <= r || psr > r);
                }
                assert forall|i: int| 0 <= i < len implies
                    #[trigger] self.cell(row_of(npw.direction, sr as int, i), col_of(npw.direction, psc, i)) == Some(npw.word@[i]) by {
                    assert(g0.cell(row_of(pw.direction, psr, i), col_of(pw.direction, psc, i)) == Some(pw.word@[i]));
                }
                assert(self.holds_word(npw));
            }
            let ghost before = out@;
            out.push(npw);
            assert forall|j: int| 0 <= j < out@.len() implies self.holds_word(#[trigger] out@[j]) by {
                if j < k { assert(out@[j] == before[j]); }
            }
            assert forall|j: int| 0 <= j < out@.len() implies (#[trigger] out@[j]).word@.len() >= 1 by {
                if j < k { assert(out@[j] == before[j]); }
            }
            assert forall|j: int| 0 <= j < out@.len() implies (#[trigger] out@[j]).word@ == words@[j].word@ && out@[j].direction == words@[j].direction by {
                if j < k { assert(out@[j] == before[j]); }
            }
            assert forall|j: int| 0 <= j < out@.len() implies (#[trigger] words@[j]).start_row != r && out@[j].start_col == words@[j].start_col
                && out@[j].start_row == if words@[j].start_row > r { words@[j].start_row - 1 } else { words@[j].start_row as int } by {
                if j < k { assert(out@[j] == before[j]); }
            }
            k += 1;
        }
        *words = out;
    }

    /// Deletes empty column `c`; columns right of it move left one, and so do the words there.
    fn remove_empty_col(&mut self, words: &mut Vec<PlacedWord>, c: usize)
        requires
            old(self).wf(),
            c < old(self).width,
            old(self).col_empty(c as int),
            layout_ok(*old(self), old(words)@),
            nonempty_words(old(words)@),
        ensures
            final(self).wf(),
            final(self).height == old(self).height,
            final(self).width == old(self).width - 1,
            forall|i: int, j: int| 0 <= i < final(self).height && 0 <= j < final(self).width
                ==> #[trigger] final(self).cell(i, j) == old(self).cell(i, if j < c { j } else { j + 1 }),
            layout_ok(*final(self), final(words)@),
            nonempty_words(final(words)@),
            final(words)@.len() == old(words)@.len(),
            same_entries(old(words)@, final(words)@),
            forall|k: int| 0 <= k < old(words)@.len() ==> (#[trigger] old(words)@[k]).start_col != c
                && final(words)@[k].start_row == old(words)@[k].start_row
                && final(words)@[k].start_col == if old(words)@[k].start_col > c { old(words)@[k].start_col - 1 } else { old(words)@[k].start_col as int },
    {
        let ghost g0 = *self;
        let mut i: usize = 0;
        while i < self.height
            invariant
                g0.wf(),
                c < g0.width,
                self.height == g0.height,
                self.width == g0.width,
                self.cells@.len() == g0.height,
                i <= self.height,
                forall|x: int| 0 <= x < i ==> (#[trigger] self.cells@[x])@ == g0.cells@[x]@.remove(c as int),
                forall|x: int| i <= x < self.height ==> (#[trigger] self.cells@[x]) == g0.cells@[x],
            decreases self.height - i,
        {
            self.cells[i].remove(c);
            i += 1;
        }
        self.width = self.width - 1;
        assert forall|x: int| 0 <= x < self.height implies (#[trigger] self.cells@[x])@.len() == self.width by {
            assert(self.cells@[x]@ == g0.cells@[x]@.remove(c as int));
        }
        assert forall|x: int, j: int| 0 <= x < self.height && 0 <= j < self.width
            implies #[trigger] self.cell(x, j) == g0.cell(x, if j < c { j } else { j + 1 }) by {
            assert(self.cells@[x]@ == g0.cells@[x]@.remove(c as int));
        }
        let mut out: Vec<PlacedWord> = Vec::new();
        let mut k: usize = 0;
        while k < words.len()
            invariant
                self.wf(),
                g0.wf(),
                self.height == g0.height,
                self.width == g0.width - 1,
                c < g0.width,
                g0.col_empty(c as int),
                layout_ok(g0, words@),
                nonempty_words(words@),
                forall|x: int, j: int| 0 <= x < self.height && 0 <= j < self.width
                    ==> #[trigger] self.cell(x, j) == g0.cell(x, if j < c { j } else { j + 1 }),
                k <= words@.len(),
                out@.len() == k,
                forall|j: int| 0 <= j < k ==> self.holds_word(#[trigger] out@[j]),
                nonempty_words(out@),
                forall|j: int| 0 <= j < k ==> (#[trigger] out@[j]).word@ == words@[j].word@ && out@[j].direction == words@[j].direction,
                words@ == old(words)@,
                forall|j: int| 0 <= j < k ==> (#[trigger] words@[j]).start_col != c && out@[j].start_row == words@[j].start_row
                    && out@[j].start_col == if words@[j].start_col > c { words@[j].start_col - 1 } else { words@[j].start_col as int },
            decreases words@.len() - k,
        {
            let pw = &words[k];
            assert(g0.holds_word(*pw));
            assert(pw.word@.len() >= 1);
            let sc = if pw.start_col > c { pw.start_col - 1 } else { pw.start_col };
            let npw = PlacedWord { word: copy_chars(&pw.word), start_row: pw.start_row, start_col: sc, direction: pw.direction };
            proof {
                let len = pw.word@.len() as int;
                let psr = pw.start_row as int;
                let psc = pw.start_col as int;
                assert(g0.cell(row_of(pw.direction, psr, 0), col_of(pw.direction, psc, 0)) == Some(pw.word@[0]));
                if pw.direction == Direction::Vertical {
                    assert(psc != c);
                } else {
                    if psc < c && c < psc + len {
                        assert(g0.cell(row_of(pw.direction, psr, c - psc), col_of(pw.direction, psc, c - psc)) == Some(pw.word@[c - psc]));
                    }
                    assert(psc + len <= c || psc > c);
                }
                assert forall|x: int| 0 <= x < len implies
                    #[trigger] self.cell(row_of(npw.direction, psr, x), col_of(npw.direction, sc as int, x)) == Some(npw.word@[x]) by {
                    assert(g0.cell(row_of(pw.direction, psr, x), col_of(pw.direction, psc, x)) == Some(pw.word@[x]));
                }
                assert(self.holds_word(npw));
            }
            let ghost before = out@;
            out.push(npw);
            assert forall|j: int| 0 <= j < out@.len() implies self.holds_word(#[trigger] out@[j]) by {
                if j < k { assert(out@[j] == before[j]); }
            }
            assert forall|j: int| 0 <= j < out@.len() implies (#[trigger] out@[j]).word@.len() >= 1 by {
                if j < k { assert(out@[j] == before[j]); }
            }
            assert forall|j: int| 0 <= j < out@.len() implies (#[trigger] out@[j]).word@ == words@[j].word@ && out@[j].direction == words@[j].direction by {
                if j < k { assert(out@[j] == before[j]); }
            }
            assert forall|j: int| 0 <= j < out@.len() implies (#[trigger] words@[j]).start_col != c && out@[j].start_row == words@[j].start_row
                && out@[j].start_col == if words@[j].start_col > c { words@[j].start_col - 1 } else { words@[j].start_col as int } by {
                if j < k { assert(out@[j] == before[j]); }
            }
            k += 1;
        }
        *words = out;
    }
}

} // verus!
