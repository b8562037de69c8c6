use vstd::prelude::*;
use crate::generator::WordSearchGenerator;

verus! {

/// Largest width or height a grid may have; keeps every score computation in range.
pub const MAX_SIDE: usize = 10000;

/// How a word runs through the grid.
#[derive(Clone, Copy, Debug, PartialEq, Eq, Structural)]
pub enum Direction {
    /// Along a row: letters fill columns left to right, and a placement names the
    /// cell of the last (rightmost) letter.
    Horizontal,
    /// Along a column: letters fill rows top to bottom, and a placement names the
    /// cell of the last (lowest) letter.
    Vertical,
}

/// A word at a fixed place: its span starts at `(start_row, start_col)` and runs
/// rightwards (Horizontal) or downwards (Vertical).
#[derive(Clone, Debug)]
pub struct PlacedWord {
    pub word: Vec<char>,
    pub start_row: usize,
    pub start_col: usize,
    pub direction: Direction,
}

/// Row of the character at offset `i` of a span starting at row `sr`.
pub open spec fn row_of(dir: Direction, sr: int, i: int) -> int {
    if dir == Direction::Vertical { sr + i } else { sr }
}

/// Column of the character at offset `i` of a span starting at column `sc`.
pub open spec fn col_of(dir: Direction, sc: int, i: int) -> int {
    if dir == Direction::Horizontal { sc + i } else { sc }
}

/// First row of the span of a word of length `len` whose last character is on row `row`.
pub open spec fn span_start_row(dir: Direction, len: int, row: int) -> int {
    if dir == Direction::Vertical { row + 1 - len } else { row }
}

/// First column of the span of a word of length `len` whose last character is in column `col`.
pub open spec fn span_start_col(dir: Direction, len: int, col: int) -> int {
    if dir == Direction::Horizontal { col + 1 - len } else { col }
}

/// Whether cell `(r, c)` lies on the span of length `len` starting at `(sr, sc)`.
pub open spec fn on_span(dir: Direction, sr: int, sc: int, len: int, r: int, c: int) -> bool {
    if dir == Direction::Horizontal {
        r == sr && sc <= c < sc + len
    } else {
        c == sc && sr <= r < sr + len
    }
}

/// Offset within the span starting at `(sr, sc)` of the cell `(r, c)`.
pub open spec fn offset_of(dir: Direction, sr: int, sc: int, r: int, c: int) -> int {
    if dir == Direction::Horizontal { c - sc } else { r - sr }
}

impl PlacedWord {
    /// A copy with the same text, anchor and direction.
    pub fn duplicate(&self) -> (r: PlacedWord)
        ensures
            r.word@ == self.word@,
            r.start_row == self.start_row,
            r.start_col == self.start_col,
            r.direction == self.direction,
    {
        PlacedWord {
            word: copy_chars(&self.word),
            start_row: self.start_row,
            start_col: self.start_col,
            direction: self.direction,
        }
    }

    /// Whether this word's span covers cell `(r, c)`.
    pub fn covers_cell(&self, r: usize, c: usize) -> (b: bool)
        ensures
            b == self.covers(r as int, c as int),
    {
        match self.direction {
            Direction::Horizontal => r == self.start_row && c >= self.start_col && c - self.start_col < self.word.len(),
            Direction::Vertical => c == self.start_col && r >= self.start_row && r - self.start_row < self.word.len(),
        }
    }

    /// Whether this word's span covers cell `(r, c)`.
    pub open spec fn covers(&self, r: int, c: int) -> bool {
        on_span(self.direction, self.start_row as int, self.start_col as int, self.word@.len() as int, r, c)
    }

    /// The character this word puts in a cell that it covers.
    pub open spec fn char_at(&self, r: int, c: int) -> char {
        self.word@[offset_of(self.direction, self.start_row as int, self.start_col as int, r, c)]
    }
}

/// Some word of `words` covers cell `(r, c)`.
pub open spec fn covered_by(words: Seq<PlacedWord>, r: int, c: int) -> bool {
    exists|k: int| 0 <= k < words.len() && (#[trigger] words[k]).covers(r, c)
}

/// Whether some word of `words` covers cell `(r, c)`.
pub fn covered_by_any(words: &Vec<PlacedWord>, r: usize, c: usize) -> (b: bool)
    ensures
        b == covered_by(words@, r as int, c as int),
{
    let mut k: usize = 0;
    while k < words.len()
        invariant
            k <= words@.len(),
            forall|j: int| 0 <= j < k ==> !(#[trigger] words@[j]).covers(r as int, c as int),
        decreases words@.len() - k,
    {
        if words[k].covers_cell(r, c) {
            return true;
        }
        k += 1;
    }
    false
}

/// A fresh vector with the same characters.
pub fn copy_chars(v: &Vec<char>) -> (r: Vec<char>)
    ensures
        r@ == v@,
{
    let mut r: Vec<char> = Vec::new();
    let mut i: usize = 0;
    while i < v.len()
        invariant
            i <= v@.len(),
            r@ == v@.subrange(0, i as int),
        decreases v@.len() - i,
    {
        r.push(v[i]);
        i += 1;
    }
    assert(r@ == v@);
    r
}

/// A rectangular array of optional characters, `cells[row][col]`.
pub struct Grid {
    pub cells: Vec<Vec<Option<char>>>,
    pub width: usize,
    pub height: usize,
}

impl Grid {
    pub open spec fn wf(&self) -> bool {
        &&& self.cells@.len() == self.height
        &&& forall|r: int| 0 <= r < self.height ==> (#[trigger] self.cells@[r])@.len() == self.width
        &&& self.width <= MAX_SIDE
        &&& self.height <= MAX_SIDE
    }

    pub open spec fn cell(&self, r: int, c: int) -> Option<char> {
        self.cells@[r]@[c]
    }

    /// The span of length `len` starting at `(sr, sc)` lies inside the grid.
    pub open spec fn span_fits(&self, len: int, sr: int, sc: int, dir: Direction) -> bool {
        &&& 0 <= sr
        &&& 0 <= sc
        &&& if dir == Direction::Horizontal {
            sr < self.height && sc + len <= self.width
        } else {
            sc < self.width && sr + len <= self.height
        }
    }

    /// `w` may be written on the span starting at `(sr, sc)`: it fits, and every cell
    /// there is empty or already holds the same character.
    pub open spec fn accepts(&self, w: Seq<char>, sr: int, sc: int, dir: Direction) -> bool {
        &&& self.span_fits(w.len() as int, sr, sc, dir)
        &&& forall|i: int|
            0 <= i < w.len() ==> {
                let v = #[trigger] self.cell(row_of(dir, sr, i), col_of(dir, sc, i));
                v.is_none() || v == Some(w[i])
            }
    }

    /// `w` can be read on the span starting at `(sr, sc)`.
    pub open spec fn holds(&self, w: Seq<char>, sr: int, sc: int, dir: Direction) -> bool {
        &&& self.span_fits(w.len() as int, sr, sc, dir)
        &&& forall|i: int|
            0 <= i < w.len() ==> #[trigger] self.cell(row_of(dir, sr, i), col_of(dir, sc, i)) == Some(w[i])
    }

    /// The placed word can be read at its stated anchor.
    pub open spec fn holds_word(&self, pw: PlacedWord) -> bool {
        self.holds(pw.word@, pw.start_row as int, pw.start_col as int, pw.direction)
    }

    /// `w` may be placed with its last character at `(row, col)`.
    pub open spec fn can_place_at(&self, w: Seq<char>, row: int, col: int, dir: Direction) -> bool {
        self.accepts(
            w,
            span_start_row(dir, w.len() as int, row),
            span_start_col(dir, w.len() as int, col),
            dir,
        )
    }

    /// Every cell that holds a character in `self` holds the same one in `other`.
    pub open spec fn filled_kept(&self, other: Grid) -> bool {
        forall|r: int, c: int|
            0 <= r < self.height && 0 <= c < self.width && (#[trigger] self.cell(r, c)).is_some()
                ==> other.cell(r, c) == self.cell(r, c)
    }

    /// `other` differs from `self` only on the span of length `len` starting at `(sr, sc)`.
    pub open spec fn same_off_span(&self, other: Grid, len: int, sr: int, sc: int, dir: Direction) -> bool {
        forall|r: int, c: int|
            0 <= r < self.height && 0 <= c < self.width && !on_span(dir, sr, sc, len, r, c)
                ==> #[trigger] other.cell(r, c) == self.cell(r, c)
    }

    /// Cell `(r, c)` lies inside the grid and holds a character.
    pub open spec fn is_filled(&self, r: int, c: int) -> bool {
        0 <= r < self.height && 0 <= c < self.width && self.cell(r, c).is_some()
    }

    /// No cell holds a character.
    pub open spec fn is_blank(&self) -> bool {
        forall|r: int, c: int| !#[trigger] self.is_filled(r, c)
    }

    /// `b` is `(min_row, max_row, min_col, max_col)` of the filled cells, each bound
    /// reached by some filled cell; `(0, 0, 0, 0)` for a blank grid.
    pub open spec fn is_used_box(&self, b: (usize, usize, usize, usize)) -> bool {
        &&& self.is_blank() ==> b.0 == 0 && b.1 == 0 && b.2 == 0 && b.3 == 0
        &&& !self.is_blank() ==> self.box_bounds(b)
    }

    /// Every filled cell lies in box `b`, and each of its four sides touches one.
    pub open spec fn box_bounds(&self, b: (usize, usize, usize, usize)) -> bool {
        &&& forall|r: int, c: int| #[trigger] self.is_filled(r, c) ==> b.0 <= r <= b.1 && b.2 <= c <= b.3
        &&& exists|c: int| #[trigger] self.is_filled(b.0 as int, c)
        &&& exists|c: int| #[trigger] self.is_filled(b.1 as int, c)
        &&& exists|r: int| #[trigger] self.is_filled(r, b.2 as int)
        &&& exists|r: int| #[trigger] self.is_filled(r, b.3 as int)
    }

    /// The used box of the grid.
    pub open spec fn used_box(&self) -> (usize, usize, usize, usize) {
        choose|b: (usize, usize, usize, usize)| self.is_used_box(b)
    }

    /// Height of the used box.
    pub open spec fn used_height(&self) -> int {
        self.used_box().1 - self.used_box().0 + 1
    }

    /// Width of the used box.
    pub open spec fn used_width(&self) -> int {
        self.used_box().3 - self.used_box().2 + 1
    }

    /// The cell at `(r, c)`, or nothing outside the grid.
    pub open spec fn get(&self, r: int, c: int) -> Option<char> {
        if 0 <= r < self.height && 0 <= c < self.width { self.cell(r, c) } else { None }
    }

    /// `other` has this grid's size and the same content in every cell.
    pub open spec fn same_content(&self, other: Grid) -> bool {
        &&& other.width == self.width
        &&& other.height == self.height
        &&& forall|r: int, c: int| 0 <= r < self.height && 0 <= c < self.width ==> #[trigger] other.cell(r, c) == self.cell(r, c)
    }

    /// Grids with the same content have the same used box.
    pub proof fn lemma_same_used_box(&self, other: Grid, b0: (usize, usize, usize, usize))
        requires
            self.same_content(other),
            self.is_used_box(b0),
        ensures
            other.used_box() == self.used_box(),
    {
        assert forall|r: int, c: int| #[trigger] self.is_filled(r, c) == other.is_filled(r, c) by {
            if 0 <= r < self.height && 0 <= c < self.width {
                assert(other.cell(r, c) == self.cell(r, c));
            }
        }
        let b = self.used_box();
        let b2 = other.used_box();
        self.lemma_used_box_unique(b0, b);
        if self.is_blank() {
            assert forall|r: int, c: int| !#[trigger] other.is_filled(r, c) by {
                assert(!self.is_filled(r, c));
            }
        }
        if other.is_blank() {
            assert forall|r: int, c: int| !#[trigger] self.is_filled(r, c) by {
                assert(!other.is_filled(r, c));
            }
        }
        if !self.is_blank() {
            assert(self.box_bounds(b));
            assert forall|r: int, c: int| #[trigger] other.is_filled(r, c) implies b.0 <= r <= b.1 && b.2 <= c <= b.3 by {
                assert(self.is_filled(r, c));
            }
            let c0 = choose|c: int| #[trigger] self.is_filled(b.0 as int, c);
            let c1 = choose|c: int| #[trigger] self.is_filled(b.1 as int, c);
            let r2 = choose|r: int| #[trigger] self.is_filled(r, b.2 as int);
            let r3 = choose|r: int| #[trigger] self.is_filled(r, b.3 as int);
            assert(other.is_filled(b.0 as int, c0));
            assert(other.is_filled(b.1 as int, c1));
            assert(other.is_filled(r2, b.2 as int));
            assert(other.is_filled(r3, b.3 as int));
            assert(other.box_bounds(b));
        }
        assert(other.is_used_box(b));
        other.lemma_used_box_unique(b, b2);
    }

    /// A grid has one used box.
    pub proof fn lemma_used_box_unique(&self, b1: (usize, usize, usize, usize), b2: (usize, usize, usize, usize))
        requires
            self.is_used_box(b1),
            self.is_used_box(b2),
        ensures
            b1 == b2,
    {
        if !self.is_blank() {
            let c0 = choose|c: int| #[trigger] self.is_filled(b1.0 as int, c);
            let c1 = choose|c: int| #[trigger] self.is_filled(b1.1 as int, c);
            let r2 = choose|r: int| #[trigger] self.is_filled(r, b1.2 as int);
            let r3 = choose|r: int| #[trigger] self.is_filled(r, b1.3 as int);
            let d0 = choose|c: int| #[trigger] self.is_filled(b2.0 as int, c);
            let d1 = choose|c: int| #[trigger] self.is_filled(b2.1 as int, c);
            let s2 = choose|r: int| #[trigger] self.is_filled(r, b2.2 as int);
            let s3 = choose|r: int| #[trigger] self.is_filled(r, b2.3 as int);
            assert(self.is_filled(b1.0 as int, c0));
            assert(self.is_filled(b2.0 as int, d0));
            assert(self.is_filled(b1.1 as int, c1));
            assert(self.is_filled(b2.1 as int, d1));
            assert(self.is_filled(r2, b1.2 as int));
            assert(self.is_filled(s2, b2.2 as int));
            assert(self.is_filled(r3, b1.3 as int));
            assert(self.is_filled(s3, b2.3 as int));
        }
    }

    /// An empty grid of the given size.
    pub fn new(width: usize, height: usize) -> (g: Grid)
        requires
            width <= MAX_SIDE,
            height <= MAX_SIDE,
        ensures
            g.wf(),
            g.width == width,
            g.height == height,
            forall|r: int, c: int| 0 <= r < height && 0 <= c < width ==> g.cell(r, c).is_none(),
            g.is_blank(),
    {
        let mut cells: Vec<Vec<Option<char>>> = Vec::new();
        let mut r: usize = 0;
        while r < height
            invariant
                r <= height,
                cells@.len() == r,
                forall|i: int| 0 <= i < r ==> (#[trigger] cells@[i])@.len() == width,
                forall|i: int, c: int| 0 <= i < r && 0 <= c < width ==> cells@[i]@[c].is_none(),
            decreases height - r,
        {
            let mut row: Vec<Option<char>> = Vec::new();
            let mut c: usize = 0;
            while c < width
                invariant
                    c <= width,
                    row@.len() == c,
                    forall|j: int| 0 <= j < c ==> row@[j].is_none(),
                decreases width - c,
            {
                row.push(None);
                c += 1;
            }
            cells.push(row);
            r += 1;
        }
        Grid { cells, width, height }
    }

    /// Whether `word` may be placed with its last character at `(row, col)`:
    /// the whole span lies inside the grid and no cell on it holds another character.
    pub fn can_place_word(&self, word: &Vec<char>, row: usize, col: usize, direction: Direction) -> (r: bool)
        requires
            self.wf(),
        ensures
            r == self.can_place_at(word@, row as int, col as int, direction),
    {
        let len = word.len();
        if row >= self.height || col >= self.width {
            return false;
        }
        match direction {
            Direction::Horizontal => {
                if col + 1 < len {
                    return false;
                }
                let start_col = col + 1 - len;
                let mut i: usize = 0;
                while i < len
                    invariant
                        self.wf(),
                        row < self.height,
                        start_col + len == col + 1,
                        col < self.width,
                        len == word@.len(),
                        i <= len,
                        forall|j: int| 0 <= j < i ==> {
                            let v = #[trigger] self.cell(row_of(direction, row as int, j), col_of(direction, start_col as int, j));
                            v.is_none() || v == Some(word@[j])
                        },
                        direction == Direction::Horizontal,
                    decreases len - i,
                {
                    if let Some(existing) = self.cells[row][start_col + i] {
                        if existing != word[i] {
                            assert(self.cell(row_of(direction, row as int, i as int), col_of(direction, start_col as int, i as int))
                                == Some(existing));
                            return false;
                        }
                    }
                    i += 1;
                }
                true
            },
            Direction::Vertical => {
                if row + 1 < len {
                    return false;
                }
                let start_row = row + 1 - len;
                let mut i: usize = 0;
                while i < len
                    invariant
                        self.wf(),
                        col < self.width,
                        start_row + len == row + 1,
                        row < self.height,
                        len == word@.len(),
                        i <= len,
                        forall|j: int| 0 <= j < i ==> {
                            let v = #[trigger] self.cell(row_of(direction, start_row as int, j), col_of(direction, col as int, j));
                            v.is_none() || v == Some(word@[j])
                        },
                        direction == Direction::Vertical,
                    decreases len - i,
                {
                    if let Some(existing) = self.cells[start_row + i][col] {
                        if existing != word[i] {
                            assert(self.cell(row_of(direction, start_row as int, i as int), col_of(direction, col as int, i as int))
                                == Some(existing));
                            return false;
                        }
                    }
                    i += 1;
                }
                true
            },
        }
    }

    /// Writes `word` with its last character at `(row, col)` when `can_place_word`
    /// allows it; otherwise leaves the grid alone. Returns whether it wrote.
    pub fn place_word(&mut self, word: &Vec<char>, row: usize, col: usize, direction: Direction) -> (r: bool)
        requires
            old(self).wf(),
        ensures
            final(self).wf(),
            final(self).width == old(self).width,
            final(self).height == old(self).height,
            r == old(self).can_place_at(word@, row as int, col as int, direction),
            r ==> final(self).holds(
                word@,
                span_start_row(direction, word@.len() as int, row as int),
                span_start_col(direction, word@.len() as int, col as int),
                direction,
            ),
            old(self).filled_kept(*final(self)),
            old(self).same_off_span(
                *final(self),
                word@.len() as int,
                span_start_row(direction, word@.len() as int, row as int),
                span_start_col(direction, word@.len() as int, col as int),
                direction,
            ),
            !r ==> *final(self) == *old(self),
    {
        if !self.can_place_word(word, row, col, direction) {
            return false;
        }
        let len = word.len();
        let sr: usize = if direction == Direction::Vertical { row + 1 - len } else { row };
        let sc: usize = if direction == Direction::Horizontal { col + 1 - len } else { col };
        let ghost g0 = *self;
        let mut i: usize = 0;
        while i < len
            invariant
                self.wf(),
                self.width == g0.width,
                self.height == g0.height,
                g0.wf(),
                len == word@.len(),
                i <= len,
                sr == span_start_row(direction, len as int, row as int),
                sc == span_start_col(direction, len as int, col as int),
                g0.accepts(word@, sr as int, sc as int, direction),
                forall|j: int| 0 <= j < i ==>
                    #[trigger] self.cell(row_of(direction, sr as int, j), col_of(direction, sc as int, j)) == Some(word@[j]),
                forall|r: int, c: int| 0 <= r < g0.height && 0 <= c < g0.width ==> {
                    ||| #[trigger] self.cell(r, c) == g0.cell(r, c)
                    ||| on_span(direction, sr as int, sc as int, i as int, r, c)
                        && self.cell(r, c) == Some(word@[offset_of(direction, sr as int, sc as int, r, c)])
                },
            decreases len - i,
        {
            let r: usize = if direction == Direction::Vertical { sr + i } else { sr };
            let c: usize = if direction == Direction::Horizontal { sc + i } else { sc };
            self.set_cell(r, c, Some(word[i]));
            i += 1;
        }
        proof {
            assert forall|r: int, c: int|
                0 <= r < g0.height && 0 <= c < g0.width && (#[trigger] g0.cell(r, c)).is_some()
                implies self.cell(r, c) == g0.cell(r, c) by {
                if self.cell(r, c) != g0.cell(r, c) {
                    let k = offset_of(direction, sr as int, sc as int, r, c);
                    assert(row_of(direction, sr as int, k) == r && col_of(direction, sc as int, k) == c);
                    assert(0 <= k < len);
                    let v = g0.cell(row_of(direction, sr as int, k), col_of(direction, sc as int, k));
                    assert(v.is_none() || v == Some(word@[k]));
                }
            }
        }
        true
    }

    /// The smallest box `(min_row, max_row, min_col, max_col)` holding every filled
    /// cell; `(0, 0, 0, 0)` when no cell is filled.
    pub fn calculate_used_area(&self) -> (b: (usize, usize, usize, usize))
        requires
            self.wf(),
        ensures
            self.is_used_box(b),
            b == self.used_box(),
            !self.is_blank() ==> b.0 <= b.1 < self.height && b.2 <= b.3 < self.width,
    {
        let mut min_row: usize = self.height;
        let mut max_row: usize = 0;
        let mut min_col: usize = self.width;
        let mut max_col: usize = 0;
        let mut has_content = false;
        let ghost mut w0: (int, int) = (0, 0);
        let ghost mut w1: (int, int) = (0, 0);
        let ghost mut w2: (int, int) = (0, 0);
        let ghost mut w3: (int, int) = (0, 0);
        let mut r: usize = 0;
        while r < self.height
            invariant
                self.wf(),
                r <= self.height,
                !has_content ==> forall|i: int, j: int| 0 <= i < r && #[trigger] self.is_filled(i, j) ==> false,
                has_content ==> {
                    &&& forall|i: int, j: int| 0 <= i < r && #[trigger] self.is_filled(i, j)
                        ==> min_row <= i <= max_row && min_col <= j <= max_col
                    &&& self.is_filled(w0.0, w0.1) && w0.0 == min_row
                    &&& self.is_filled(w1.0, w1.1) && w1.0 == max_row
                    &&& self.is_filled(w2.0, w2.1) && w2.1 == min_col
                    &&& self.is_filled(w3.0, w3.1) && w3.1 == max_col
                },
            decreases self.height - r,
        {
            let mut c: usize = 0;
            while c < self.width
                invariant
                    self.wf(),
                    r < self.height,
                    c <= self.width,
                    !has_content ==> forall|i: int, j: int|
                        (0 <= i < r || (i == r && j < c)) && #[trigger] self.is_filled(i, j) ==> false,
                    has_content ==> {
                        &&& forall|i: int, j: int| (0 <= i < r || (i == r && j < c)) && #[trigger] self.is_filled(i, j)
                            ==> min_row <= i <= max_row && min_col <= j <= max_col
                        &&& self.is_filled(w0.0, w0.1) && w0.0 == min_row
                        &&& self.is_filled(w1.0, w1.1) && w1.0 == max_row
                        &&& self.is_filled(w2.0, w2.1) && w2.1 == min_col
                        &&& self.is_filled(w3.0, w3.1) && w3.1 == max_col
                    },
                decreases self.width - c,
            {
                if self.cells[r][c].is_some() {
                    if !has_content || r < min_row {
                        min_row = r;
                        proof { w0 = (r as int, c as int); }
                    }
                    if !has_content || r > max_row {
                        max_row = r;
                        proof { w1 = (r as int, c as int); }
                    }
                    if !has_content || c < min_col {
                        min_col = c;
                        proof { w2 = (r as int, c as int); }
                    }
                    if !has_content || c > max_col {
                        max_col = c;
                        proof { w3 = (r as int, c as int); }
                    }
                    has_content = true;
                }
                c += 1;
            }
            r += 1;
        }
        if has_content {
            assert(self.is_filled(w0.0, w0.1));
            assert(self.is_filled(w1.0, w1.1));
            assert(self.is_filled(w2.0, w2.1));
            assert(self.is_filled(w3.0, w3.1));
            assert(!self.is_blank());
            assert(self.is_filled(min_row as int, w0.1));
            assert(self.is_filled(max_row as int, w1.1));
            assert(self.is_filled(w2.0, min_col as int));
            assert(self.is_filled(w3.0, max_col as int));
            let res = (min_row, max_row, min_col, max_col);
            assert forall|i: int, j: int| #[trigger] self.is_filled(i, j)
                implies res.0 <= i <= res.1 && res.2 <= j <= res.3 by {
                assert(0 <= i < r);
            }
            assert(self.box_bounds(res));
            proof { self.lemma_used_box_unique(res, self.used_box()); }
            res
        } else {
            assert forall|i: int, j: int| !#[trigger] self.is_filled(i, j) by {
                if self.is_filled(i, j) {
                    assert(0 <= i < r);
                }
            }
            let res: (usize, usize, usize, usize) = (0, 0, 0, 0);
            assert(self.is_blank());
            assert(self.is_used_box(res));
            proof { self.lemma_used_box_unique(res, self.used_box()); }
            res
        }
    }

    /// Height and width of the used box.
    pub fn get_used_dimensions(&self) -> (d: (usize, usize))
        requires
            self.wf(),
        ensures
            d.0 == self.used_height(),
            d.1 == self.used_width(),
            1 <= d.0 <= MAX_SIDE,
            1 <= d.1 <= MAX_SIDE,
    {
        let b = self.calculate_used_area();
        (b.1 - b.0 + 1, b.3 - b.2 + 1)
    }

    /// Shrinks the grid to its used box, moving that box's corner to `(0, 0)`.
    /// Returns the `(row, col)` offset by which every anchor must be lowered.
    pub fn compact(&mut self) -> (off: (usize, usize))
        requires
            old(self).wf(),
        ensures
            final(self).wf(),
            exists|b: (usize, usize, usize, usize)| #[trigger] old(self).is_used_box(b) && {
                &&& off == (b.0, b.2)
                &&& final(self).height == b.1 - b.0 + 1
                &&& final(self).width == b.3 - b.2 + 1
            },
            forall|r: int, c: int| 0 <= r < final(self).height && 0 <= c < final(self).width
                ==> #[trigger] final(self).cell(r, c) == old(self).get(r + off.0, c + off.1),
    {
        let b = self.calculate_used_area();
        let new_height = b.1 - b.0 + 1;
        let new_width = b.3 - b.2 + 1;
        let mut g = Grid::new(new_width, new_height);
        let mut r: usize = 0;
        while r < new_height
            invariant
                self.wf(),
                g.wf(),
                g.height == new_height,
                g.width == new_width,
                new_height == b.1 - b.0 + 1,
                new_width == b.3 - b.2 + 1,
                !self.is_blank() ==> b.0 <= b.1 < self.height && b.2 <= b.3 < self.width,
                self.is_blank() ==> b == (0usize, 0usize, 0usize, 0usize),
                r <= new_height,
                forall|i: int, j: int| 0 <= i < new_height && 0 <= j < new_width ==>
                    #[trigger] g.cell(i, j) == if i < r { self.get(i + b.0, j + b.2) } else { None },
            decreases new_height - r,
        {
            let mut c: usize = 0;
            while c < new_width
                invariant
                    self.wf(),
                    g.wf(),
                    g.height == new_height,
                    g.width == new_width,
                    new_height == b.1 - b.0 + 1,
                    new_width == b.3 - b.2 + 1,
                    !self.is_blank() ==> b.0 <= b.1 < self.height && b.2 <= b.3 < self.width,
                    self.is_blank() ==> b == (0usize, 0usize, 0usize, 0usize),
                    r < new_height,
                    c <= new_width,
                    forall|i: int, j: int| 0 <= i < new_height && 0 <= j < new_width ==>
                        #[trigger] g.cell(i, j) == if i < r || (i == r && j < c) { self.get(i + b.0, j + b.2) } else { None },
                decreases new_width - c,
            {
                let sr = r + b.0;
                let sc = c + b.2;
                if sr < self.height && sc < self.width {
                    let v = self.cells[sr][sc];
                    g.set_cell(r, c, v);
                }
                c += 1;
            }
            r += 1;
        }
        *self = g;
        (b.0, b.2)
    }

    /// A copy of this grid.
    pub fn duplicate(&self) -> (g: Grid)
        requires
            self.wf(),
        ensures
            g.wf(),
            self.same_content(g),
    {
        let mut cells: Vec<Vec<Option<char>>> = Vec::new();
        let mut r: usize = 0;
        while r < self.height
            invariant
                self.wf(),
                r <= self.height,
                cells@.len() == r,
                forall|i: int| 0 <= i < r ==> (#[trigger] cells@[i])@ == self.cells@[i]@,
            decreases self.height - r,
        {
            let src = &self.cells[r];
            let mut row: Vec<Option<char>> = Vec::new();
            let mut c: usize = 0;
            while c < src.len()
                invariant
                    c <= src@.len(),
                    row@ == src@.subrange(0, c as int),
                decreases src@.len() - c,
            {
                row.push(src[c]);
                c += 1;
            }
            assert(row@ == src@);
            cells.push(row);
            r += 1;
        }
        Grid { cells, width: self.width, height: self.height }
    }

    /// `can_place_word` in the Horizontal direction.
    pub fn can_place_horizontal(&self, word: &Vec<char>, row: usize, col: usize) -> (r: bool)
        requires
            self.wf(),
        ensures
            r == self.can_place_at(word@, row as int, col as int, Direction::Horizontal),
    {
        self.can_place_word(word, row, col, Direction::Horizontal)
    }

    /// `can_place_word` in the Vertical direction.
    pub fn can_place_vertical(&self, word: &Vec<char>, row: usize, col: usize) -> (r: bool)
        requires
            self.wf(),
        ensures
            r == self.can_place_at(word@, row as int, col as int, Direction::Vertical),
    {
        self.can_place_word(word, row, col, Direction::Vertical)
    }

    /// `place_word` in the Horizontal direction.
    pub fn place_horizontal(&mut self, word: &Vec<char>, row: usize, col: usize) -> (r: bool)
        requires
            old(self).wf(),
        ensures
            final(self).wf(),
            final(self).width == old(self).width,
            final(self).height == old(self).height,
            r == old(self).can_place_at(word@, row as int, col as int, Direction::Horizontal),
            r ==> final(self).holds(word@, row as int, col + 1 - word@.len(), Direction::Horizontal),
            old(self).filled_kept(*final(self)),
            old(self).same_off_span(*final(self), word@.len() as int, row as int, col + 1 - word@.len(), Direction::Horizontal),
            !r ==> *final(self) == *old(self),
    {
        self.place_word(word, row, col, Direction::Horizontal)
    }

    /// `place_word` in the Vertical direction.
    pub fn place_vertical(&mut self, word: &Vec<char>, row: usize, col: usize) -> (r: bool)
        requires
            old(self).wf(),
        ensures
            final(self).wf(),
            final(self).width == old(self).width,
            final(self).height == old(self).height,
            r == old(self).can_place_at(word@, row as int, col as int, Direction::Vertical),
            r ==> final(self).holds(word@, row + 1 - word@.len(), col as int, Direction::Vertical),
            old(self).filled_kept(*final(self)),
            old(self).same_off_span(*final(self), word@.len() as int, row + 1 - word@.len(), col as int, Direction::Vertical),
            !r ==> *final(self) == *old(self),
    {
        self.place_word(word, row, col, Direction::Vertical)
    }

    /// The characters on the span of `pw`, read from the grid; `None` when the span
    /// leaves the grid or crosses an empty cell. Reading a word that the grid holds
    /// gives back its text.
    pub fn read_word(&self, pw: &PlacedWord) -> (r: Option<Vec<char>>)
        requires
            self.wf(),
        ensures
            self.holds_word(*pw) ==> (r matches Some(w) && w@ == pw.word@),
            r matches Some(w) ==> (w@.len() == pw.word@.len()
                && forall|i: int| 0 <= i < w@.len() ==>
                    #[trigger] self.cell(row_of(pw.direction, pw.start_row as int, i), col_of(pw.direction, pw.start_col as int, i)) == Some(w@[i])),
    {
        let len = pw.word.len();
        let sr = pw.start_row;
        let sc = pw.start_col;
        let inside = match pw.direction {
            Direction::Horizontal => sr < self.height && sc <= self.width && len <= self.width - sc,
            Direction::Vertical => sc < self.width && sr <= self.height && len <= self.height - sr,
        };
        if !inside {
            return None;
        }
        let mut out: Vec<char> = Vec::new();
        let mut i: usize = 0;
        while i < len
            invariant
                self.wf(),
                len == pw.word@.len(),
                sr == pw.start_row,
                sc == pw.start_col,
                self.span_fits(len as int, sr as int, sc as int, pw.direction),
                i <= len,
                out@.len() == i,
                forall|j: int| 0 <= j < i ==>
                    #[trigger] self.cell(row_of(pw.direction, sr as int, j), col_of(pw.direction, sc as int, j)) == Some(out@[j]),
                self.holds_word(*pw) ==> out@ == pw.word@.subrange(0, i as int),
            decreases len - i,
        {
            let r: usize = if pw.direction == Direction::Vertical { sr + i } else { sr };
            let c: usize = if pw.direction == Direction::Horizontal { sc + i } else { sc };
            match self.cells[r][c] {
                Some(ch) => {
                    out.push(ch);
                },
                None => {
                    assert(self.cell(row_of(pw.direction, sr as int, i as int), col_of(pw.direction, sc as int, i as int)).is_none());
                    return None;
                },
            }
            i += 1;
        }
        proof {
            if self.holds_word(*pw) {
                assert(out@ == pw.word@);
            }
        }
        Some(out)
    }

    fn set_cell(&mut self, r: usize, c: usize, v: Option<char>)
        requires
            old(self).wf(),
            r < old(self).height,
            c < old(self).width,
        ensures
            final(self).wf(),
            final(self).width == old(self).width,
            final(self).height == old(self).height,
            final(self).cell(r as int, c as int) == v,
            forall|i: int, j: int|
                0 <= i < old(self).height && 0 <= j < old(self).width && !(i == r && j == c)
                    ==> final(self).cell(i, j) == old(self).cell(i, j),
    {
        self.cells[r][c] = v;
        assert(forall|i: int| 0 <= i < self.height && i != r ==> self.cells@[i] == old(self).cells@[i]);
    }
}

impl WordSearchGenerator {
    /// Clears the cells of `word` that no word of `others` covers; cells that another
    /// word still needs keep their character.
    pub fn remove_word_from_grid(&self, grid: &mut Grid, word: &PlacedWord, others: &Vec<PlacedWord>)
        requires
            old(grid).wf(),
        ensures
            final(grid).wf(),
            final(grid).width == old(grid).width,
            final(grid).height == old(grid).height,
            forall|r: int, c: int| 0 <= r < old(grid).height && 0 <= c < old(grid).width ==>
                #[trigger] final(grid).cell(r, c) == if word.covers(r, c) && !covered_by(others@, r, c) {
                    None
                } else {
                    old(grid).cell(r, c)
                },
            forall|k: int| 0 <= k < others@.len() && old(grid).holds_word(#[trigger] others@[k])
                ==> final(grid).holds_word(others@[k]),
    {
        let ghost g0 = *grid;
        let len = word.word.len();
        let mut i: usize = 0;
        while i < len
            invariant
                grid.wf(),
                g0.wf(),
                grid.width == g0.width,
                grid.height == g0.height,
                len == word.word@.len(),
                i <= len,
                forall|r: int, c: int| 0 <= r < g0.height && 0 <= c < g0.width ==>
                    #[trigger] grid.cell(r, c) == if on_span(word.direction, word.start_row as int, word.start_col as int, i as int, r, c)
                        && !covered_by(others@, r, c) {
                        None
                    } else {
                        g0.cell(r, c)
                    },
            decreases len - i,
        {
            let (r, c) = match word.direction {
                Direction::Horizontal => (word.start_row, if word.start_col < usize::MAX - i { word.start_col + i } else { usize::MAX }),
                Direction::Vertical => (if word.start_row < usize::MAX - i { word.start_row + i } else { usize::MAX }, word.start_col),
            };
            if r < grid.height && c < grid.width && !covered_by_any(others, r, c) {
                assert(word.covers(r as int, c as int));
                grid.set_cell(r, c, None);
            }
            i += 1;
        }
        proof {
            assert forall|k: int| 0 <= k < others@.len() && g0.holds_word(#[trigger] others@[k])
                implies grid.holds_word(others@[k]) by {
                let pw = others@[k];
                assert forall|j: int| 0 <= j < pw.word@.len() implies
                    #[trigger] grid.cell(row_of(pw.direction, pw.start_row as int, j), col_of(pw.direction, pw.start_col as int, j))
                        == Some(pw.word@[j]) by {
                    let r = row_of(pw.direction, pw.start_row as int, j);
                    let c = col_of(pw.direction, pw.start_col as int, j);
                    assert(pw.covers(r, c));
                    assert(covered_by(others@, r, c));
                    assert(g0.cell(r, c) == Some(pw.word@[j]));
                }
            }
        }
    }
}

} // verus!
