use vstd::prelude::*;
use crate::generator::WordSearchGenerator;
use crate::grid::{copy_chars, span_start_col, span_start_row, Direction, Grid, PlacedWord};
use crate::scoring::{crossing_at, crossings_upto, total_crossings_upto, total_crossings, words_in_range};

verus! {

/// Every word of `words` has a letter and can be read in `g` at its stated anchor.
pub open spec fn layout_ok(g: Grid, words: Seq<PlacedWord>) -> bool {
    &&& g.wf()
    &&& forall|k: int| 0 <= k < words.len() ==> g.holds_word(#[trigger] words[k])
    &&& forall|k: int| 0 <= k < words.len() ==> (#[trigger] words[k]).word@.len() >= 1
}

/// A finished layout of this generator's words in a `width` by `height` grid: every
/// word readable at its anchor, one placed word per input word.
pub open spec fn solution_ok(gen: WordSearchGenerator, width: int, height: int, g: Grid, words: Seq<PlacedWord>) -> bool {
    &&& layout_ok(g, words)
    &&& words_in_range(words)
    &&& g.width == width
    &&& g.height == height
    &&& words.len() == gen.horizontal_words@.len() + gen.vertical_words@.len()
    &&& places_each_once(gen, words)
}

/// Text and direction of input word `i`: horizontal words first, then vertical ones.
pub open spec fn input_entry(gen: WordSearchGenerator, i: int) -> (Seq<char>, Direction) {
    if i < gen.horizontal_words@.len() {
        (gen.horizontal_words@[i]@, Direction::Horizontal)
    } else {
        (gen.vertical_words@[i - gen.horizontal_words@.len()]@, Direction::Vertical)
    }
}

/// Number of input words.
pub open spec fn input_count(gen: WordSearchGenerator) -> int {
    (gen.horizontal_words@.len() + gen.vertical_words@.len()) as int
}

/// `pw` is input word `i`, in its own direction.
pub open spec fn is_input(gen: WordSearchGenerator, pw: PlacedWord, i: int) -> bool {
    &&& 0 <= i < input_count(gen)
    &&& pw.word@ == input_entry(gen, i).0
    &&& pw.direction == input_entry(gen, i).1
}

/// `sel[p]` names the input word that `words[p]` is, and no input word is named twice.
pub open spec fn placed_as(gen: WordSearchGenerator, words: Seq<PlacedWord>, sel: Seq<int>) -> bool {
    &&& sel.len() == words.len()
    &&& sel.no_duplicates()
    &&& forall|p: int| 0 <= p < words.len() ==> is_input(gen, #[trigger] words[p], sel[p])
}

/// `words` holds every input word exactly once, each in its own direction.
pub open spec fn places_each_once(gen: WordSearchGenerator, words: Seq<PlacedWord>) -> bool {
    &&& words.len() == input_count(gen)
    &&& exists|sel: Seq<int>| placed_as(gen, words, sel)
}

/// `a` and `b` hold the same texts in the same directions, position by position.
pub open spec fn same_entries(a: Seq<PlacedWord>, b: Seq<PlacedWord>) -> bool {
    &&& a.len() == b.len()
    &&& forall|k: int| 0 <= k < a.len() ==> (#[trigger] a[k]).word@ == b[k].word@ && a[k].direction == b[k].direction
}

/// Re-anchoring words keeps the account of which input each one is.
pub proof fn lemma_same_entries_placed(gen: WordSearchGenerator, a: Seq<PlacedWord>, b: Seq<PlacedWord>)
    requires
        places_each_once(gen, a),
        same_entries(a, b) || same_words(a, b),
    ensures
        places_each_once(gen, b),
{
    let sel = choose|sel: Seq<int>| placed_as(gen, a, sel);
    assert forall|p: int| 0 <= p < b.len() implies is_input(gen, #[trigger] b[p], sel[p]) by {
        assert(is_input(gen, a[p], sel[p]));
        if same_words(a, b) {
            assert(same_word(a[p], b[p]));
        }
    }
    assert(placed_as(gen, b, sel));
}

/// Moving word `idx` of a list to its end keeps the account of which input each one is.
pub proof fn lemma_moved_to_end_placed(gen: WordSearchGenerator, a: Seq<PlacedWord>, b: Seq<PlacedWord>, idx: int)
    requires
        places_each_once(gen, a),
        0 <= idx < a.len(),
        b.len() == a.len(),
        b.drop_last() == a.remove(idx),
        b.last().word@ == a[idx].word@,
        b.last().direction == a[idx].direction,
    ensures
        places_each_once(gen, b),
{
    let sel = choose|sel: Seq<int>| placed_as(gen, a, sel);
    let sel2 = sel.remove(idx).push(sel[idx]);
    assert forall|p: int| 0 <= p < b.len() implies is_input(gen, #[trigger] b[p], sel2[p]) by {
        if p == b.len() - 1 {
            assert(is_input(gen, a[idx], sel[idx]));
        } else if p < idx {
            assert(b[p] == b.drop_last()[p]);
            assert(is_input(gen, a[p], sel[p]));
        } else {
            assert(b[p] == b.drop_last()[p]);
            assert(is_input(gen, a[p + 1], sel[p + 1]));
        }
    }
    assert forall|i: int, j: int| 0 <= i < sel2.len() && 0 <= j < sel2.len() && i != j implies sel2[i] != sel2[j] by {
        let oi = if i == sel2.len() - 1 { idx } else if i < idx { i } else { i + 1 };
        let oj = if j == sel2.len() - 1 { idx } else if j < idx { j } else { j + 1 };
        assert(sel2[i] == sel[oi]);
        assert(sel2[j] == sel[oj]);
    }
    assert(placed_as(gen, b, sel2));
}

/// Appending input word `x`, not yet placed, extends the account by `x`.
pub proof fn lemma_push_fresh(gen: WordSearchGenerator, before: Seq<PlacedWord>, after: Seq<PlacedWord>, sel: Seq<int>, x: int)
    requires
        placed_as(gen, before, sel),
        after.len() == before.len() + 1,
        after.drop_last() == before,
        is_input(gen, after.last(), x),
        forall|p: int| 0 <= p < sel.len() ==> sel[p] != x,
    ensures
        placed_as(gen, after, sel.push(x)),
{
    let sel2 = sel.push(x);
    assert forall|p: int| 0 <= p < after.len() implies is_input(gen, #[trigger] after[p], sel2[p]) by {
        if p < before.len() {
            assert(after[p] == after.drop_last()[p]);
            assert(is_input(gen, before[p], sel[p]));
        }
    }
    assert forall|i: int, j: int| 0 <= i < sel2.len() && 0 <= j < sel2.len() && i != j implies sel2[i] != sel2[j] by {
        if i < sel.len() && j < sel.len() {
            assert(sel[i] != sel[j]);
        }
    }
}

/// Two words of a layout that cover the same cell put the same character there.
pub proof fn lemma_layout_consistent(g: Grid, words: Seq<PlacedWord>, a: int, b: int, r: int, c: int)
    requires
        layout_ok(g, words),
        0 <= a < words.len(),
        0 <= b < words.len(),
        words[a].covers(r, c),
        words[b].covers(r, c),
    ensures
        words[a].char_at(r, c) == words[b].char_at(r, c),
        g.cell(r, c) == Some(words[a].char_at(r, c)),
{
    lemma_holds_at(g, words[a], r, c);
    lemma_holds_at(g, words[b], r, c);
}

/// A word anchored at `(r, c)` with `L` letters lies in row `r`, columns `c..c+L-1`
/// when Horizontal, and in column `c`, rows `r..r+L-1` when Vertical; in a grid that
/// holds it, its `i`-th letter is read back at `(r, c + i)` or `(r + i, c)`.
pub proof fn lemma_anchor_direction(g: Grid, pw: PlacedWord, i: int)
    requires
        g.holds_word(pw),
        0 <= i < pw.word@.len(),
    ensures
        pw.direction == Direction::Horizontal ==> {
            &&& pw.start_row < g.height
            &&& pw.start_col + pw.word@.len() <= g.width
            &&& g.cell(pw.start_row as int, pw.start_col + i) == Some(pw.word@[i])
        },
        pw.direction == Direction::Vertical ==> {
            &&& pw.start_col < g.width
            &&& pw.start_row + pw.word@.len() <= g.height
            &&& g.cell(pw.start_row + i, pw.start_col as int) == Some(pw.word@[i])
        },
{
    assert(g.cell(crate::grid::row_of(pw.direction, pw.start_row as int, i), crate::grid::col_of(pw.direction, pw.start_col as int, i))
        == Some(pw.word@[i]));
}

/// A held word's character stands in each cell it covers.
pub proof fn lemma_holds_at(g: Grid, pw: PlacedWord, r: int, c: int)
    requires
        g.holds_word(pw),
        pw.covers(r, c),
    ensures
        g.cell(r, c) == Some(pw.char_at(r, c)),
{
    let i = crate::grid::offset_of(pw.direction, pw.start_row as int, pw.start_col as int, r, c);
    assert(crate::grid::row_of(pw.direction, pw.start_row as int, i) == r);
    assert(crate::grid::col_of(pw.direction, pw.start_col as int, i) == c);
}

/// Words readable in `g` stay readable in `g2` when `g2` keeps every filled cell.
pub proof fn lemma_layout_kept(g: Grid, g2: Grid, words: Seq<PlacedWord>)
    requires
        layout_ok(g, words),
        g2.wf(),
        g2.width == g.width,
        g2.height == g.height,
        g.filled_kept(g2),
    ensures
        layout_ok(g2, words),
{
    assert forall|k: int| 0 <= k < words.len() implies g2.holds_word(#[trigger] words[k]) by {
        let pw = words[k];
        assert(g.holds_word(pw));
        assert forall|i: int| 0 <= i < pw.word@.len() implies
            #[trigger] g2.cell(crate::grid::row_of(pw.direction, pw.start_row as int, i), crate::grid::col_of(pw.direction, pw.start_col as int, i))
                == Some(pw.word@[i]) by {
            let r = crate::grid::row_of(pw.direction, pw.start_row as int, i);
            let c = crate::grid::col_of(pw.direction, pw.start_col as int, i);
            assert(g.cell(r, c) == Some(pw.word@[i]));
        }
    }
}

/// The words of a layout fit in its grid, so none is longer than `MAX_SIDE`.
pub proof fn lemma_layout_in_range(g: Grid, words: Seq<PlacedWord>)
    requires
        layout_ok(g, words),
        words.len() <= crate::scoring::MAX_WORDS,
    ensures
        words_in_range(words),
{
    assert forall|k: int| 0 <= k < words.len() implies (#[trigger] words[k]).word@.len() <= crate::grid::MAX_SIDE by {
        assert(g.holds_word(words[k]));
    }
}

/// `a` and `b` list the same words at the same anchors.
pub open spec fn same_words(a: Seq<PlacedWord>, b: Seq<PlacedWord>) -> bool {
    &&& a.len() == b.len()
    &&& forall|k: int| 0 <= k < a.len() ==> same_word(#[trigger] a[k], b[k])
}

/// `a` and `b` are the same word at the same anchor.
pub open spec fn same_word(a: PlacedWord, b: PlacedWord) -> bool {
    &&& a.word@ == b.word@
    &&& a.start_row == b.start_row
    &&& a.start_col == b.start_col
    &&& a.direction == b.direction
}

/// A copy of a word list.
pub fn duplicate_words(v: &Vec<PlacedWord>) -> (r: Vec<PlacedWord>)
    ensures
        same_words(v@, r@),
{
    let mut r: Vec<PlacedWord> = Vec::new();
    let mut i: usize = 0;
    while i < v.len()
        invariant
            i <= v@.len(),
            r@.len() == i,
            forall|k: int| 0 <= k < i ==> same_word(#[trigger] v@[k], r@[k]),
        decreases v@.len() - i,
    {
        r.push(v[i].duplicate());
        i += 1;
    }
    r
}

proof fn lemma_same_crossings(g1: Grid, g2: Grid, a: PlacedWord, b: PlacedWord, n: int)
    requires
        g1.same_content(g2),
        same_word(a, b),
    ensures
        crossings_upto(g1, a, n) == crossings_upto(g2, b, n),
    decreases n,
{
    if n > 0 {
        lemma_same_crossings(g1, g2, a, b, n - 1);
        let i = n - 1;
        let r = crate::grid::row_of(a.direction, a.start_row as int, i);
        let c = crate::grid::col_of(a.direction, a.start_col as int, i);
        assert(g1.get(r, c) == g2.get(r, c));
        if a.direction == Direction::Horizontal {
            if exists|r2: int| 0 <= r2 < g1.height && r2 != r && (#[trigger] g1.cell(r2, c)).is_some() {
                let r2 = choose|r2: int| 0 <= r2 < g1.height && r2 != r && (#[trigger] g1.cell(r2, c)).is_some();
                if 0 <= c < g1.width {
                    assert(g2.cell(r2, c).is_some());
                }
            }
            if exists|r2: int| 0 <= r2 < g2.height && r2 != r && (#[trigger] g2.cell(r2, c)).is_some() {
                let r2 = choose|r2: int| 0 <= r2 < g2.height && r2 != r && (#[trigger] g2.cell(r2, c)).is_some();
                if 0 <= c < g1.width {
                    assert(g1.cell(r2, c).is_some());
                }
            }
        } else {
            if exists|c2: int| 0 <= c2 < g1.width && c2 != c && (#[trigger] g1.cell(r, c2)).is_some() {
                let c2 = choose|c2: int| 0 <= c2 < g1.width && c2 != c && (#[trigger] g1.cell(r, c2)).is_some();
                if 0 <= r < g1.height {
                    assert(g2.cell(r, c2).is_some());
                }
            }
            if exists|c2: int| 0 <= c2 < g2.width && c2 != c && (#[trigger] g2.cell(r, c2)).is_some() {
                let c2 = choose|c2: int| 0 <= c2 < g2.width && c2 != c && (#[trigger] g2.cell(r, c2)).is_some();
                if 0 <= r < g1.height {
                    assert(g1.cell(r, c2).is_some());
                }
            }
        }
        assert(crossing_at(g1, a, i) == crossing_at(g2, b, i));
    }
}

proof fn lemma_same_total(g1: Grid, g2: Grid, a: Seq<PlacedWord>, b: Seq<PlacedWord>, n: int)
    requires
        g1.same_content(g2),
        same_words(a, b),
        n <= a.len(),
    ensures
        total_crossings_upto(g1, a, n) == total_crossings_upto(g2, b, n),
    decreases n,
{
    if n > 0 {
        lemma_same_total(g1, g2, a, b, n - 1);
        assert(same_word(a[n - 1], b[n - 1]));
        lemma_same_crossings(g1, g2, a[n - 1], b[n - 1], a[n - 1].word@.len() as int);
    }
}

/// A copied layout is a layout with the same used box and the same crossings.
pub proof fn lemma_same_layout(g1: Grid, g2: Grid, a: Seq<PlacedWord>, b: Seq<PlacedWord>, box1: (usize, usize, usize, usize))
    requires
        layout_ok(g1, a),
        g2.wf(),
        g1.same_content(g2),
        same_words(a, b),
        g1.is_used_box(box1),
    ensures
        layout_ok(g2, b),
        g2.used_box() == g1.used_box(),
        total_crossings(g2, b) == total_crossings(g1, a),
{
    g1.lemma_same_used_box(g2, box1);
    lemma_same_total(g1, g2, a, b, a.len() as int);
    assert forall|k: int| 0 <= k < b.len() implies g2.holds_word(#[trigger] b[k]) && b[k].word@.len() >= 1 by {
        let pw = a[k];
        assert(same_word(a[k], b[k]));
        assert(g1.holds_word(pw));
        assert forall|i: int| 0 <= i < pw.word@.len() implies
            #[trigger] g2.cell(crate::grid::row_of(pw.direction, pw.start_row as int, i), crate::grid::col_of(pw.direction, pw.start_col as int, i))
                == Some(pw.word@[i]) by {
            let r = crate::grid::row_of(pw.direction, pw.start_row as int, i);
            let c = crate::grid::col_of(pw.direction, pw.start_col as int, i);
            assert(g1.cell(r, c) == Some(pw.word@[i]));
        }
    }
}

/// Places `word` with its last character at `(row, col)` and, when that succeeds,
/// records it in `placed` with the anchor of its first character.
pub fn place_and_record(grid: &mut Grid, placed: &mut Vec<PlacedWord>, word: &Vec<char>, row: usize, col: usize, direction: Direction) -> (ok: bool)
    requires
        layout_ok(*old(grid), old(placed)@),
        word@.len() >= 1,
    ensures
        layout_ok(*final(grid), final(placed)@),
        final(grid).width == old(grid).width,
        final(grid).height == old(grid).height,
        ok == old(grid).can_place_at(word@, row as int, col as int, direction),
        ok ==> final(placed)@.len() == old(placed)@.len() + 1,
        ok ==> final(placed)@.last().word@ == word@,
        ok ==> final(placed)@.last().direction == direction,
        ok ==> final(placed)@.drop_last() == old(placed)@,
        !ok ==> final(placed)@ == old(placed)@,
        !ok ==> *final(grid) == *old(grid),
        ok ==> final(placed)@.last().start_row == span_start_row(direction, word@.len() as int, row as int),
        old(grid).same_off_span(*final(grid), word@.len() as int, span_start_row(direction, word@.len() as int, row as int),
            span_start_col(direction, word@.len() as int, col as int), direction),
        ok ==> final(placed)@.last().start_col == span_start_col(direction, word@.len() as int, col as int),
{
    let ghost g0 = *grid;
    let ok = grid.place_word(word, row, col, direction);
    if ok {
        let len = word.len();
        let sr: usize = if direction == Direction::Vertical { row + 1 - len } else { row };
        let sc: usize = if direction == Direction::Horizontal { col + 1 - len } else { col };
        let pw = PlacedWord { word: copy_chars(word), start_row: sr, start_col: sc, direction };
        proof {
            lemma_layout_kept(g0, *grid, placed@);
        }
        let ghost before = placed@;
        placed.push(pw);
        assert(placed@.drop_last() == before);
        assert forall|k: int| 0 <= k < placed@.len() implies grid.holds_word(#[trigger] placed@[k]) && placed@[k].word@.len() >= 1 by {
            if k < before.len() {
                assert(placed@[k] == before[k]);
            }
        }
    }
    ok
}

} // verus!
