use vstd::prelude::*;
use crate::generator::WordSearchGenerator;
use crate::grid::MAX_SIDE;
use crate::scoring::MAX_WORDS;

verus! {

/// A horizontal word and a vertical word that share a letter: `character` is at
/// offset `h_char_idx` of the one and `v_char_idx` of the other.
#[derive(Clone, Copy, Debug)]
pub struct Intersection {
    pub h_word_idx: usize,
    pub v_word_idx: usize,
    pub h_char_idx: usize,
    pub v_char_idx: usize,
    pub character: char,
    pub score: i64,
}

/// Occurrences of `ch` in `w`.
pub open spec fn char_count(w: Seq<char>, ch: char) -> nat
    decreases w.len(),
{
    if w.len() == 0 {
        0
    } else {
        char_count(w.drop_last(), ch) + if w.last() == ch { 1nat } else { 0nat }
    }
}

/// Occurrences of `ch` over all of `ws`.
pub open spec fn words_char_count(ws: Seq<Vec<char>>, ch: char) -> nat
    decreases ws.len(),
{
    if ws.len() == 0 {
        0
    } else {
        words_char_count(ws.drop_last(), ch) + char_count(ws.last()@, ch)
    }
}

proof fn lemma_char_count_bound(w: Seq<char>, ch: char)
    ensures
        char_count(w, ch) <= w.len(),
    decreases w.len(),
{
    if w.len() > 0 {
        lemma_char_count_bound(w.drop_last(), ch);
    }
}

proof fn lemma_words_count_bound(ws: Seq<Vec<char>>, ch: char)
    requires
        forall|k: int| 0 <= k < ws.len() ==> (#[trigger] ws[k])@.len() <= MAX_SIDE,
    ensures
        words_char_count(ws, ch) <= ws.len() * MAX_SIDE,
    decreases ws.len(),
{
    if ws.len() > 0 {
        assert forall|k: int| 0 <= k < ws.drop_last().len() implies (#[trigger] ws.drop_last()[k])@.len() <= MAX_SIDE by {
            assert(ws.drop_last()[k] == ws[k]);
        }
        lemma_words_count_bound(ws.drop_last(), ch);
        lemma_char_count_bound(ws.last()@, ch);
        assert(ws.len() * MAX_SIDE == (ws.len() - 1) * MAX_SIDE + MAX_SIDE) by (nonlinear_arith);
    }
}

/// `|a - b|`.
pub open spec fn dist(a: int, b: int) -> int {
    if a >= b { a - b } else { b - a }
}

/// Desirability, in halves, of crossing a word of length `lh` at offset `hi` with a
/// word of length `lv` at offset `vi` on a letter that occurs `freq` times in all:
/// 2 per letter of both words, 20 less the offsets' distances from the words'
/// middles, and 5 per occurrence of the letter.
pub open spec fn crossing_desirability(lh: int, lv: int, hi: int, vi: int, freq: int) -> int {
    4 * (lh + lv) + 40 - (dist(2 * hi, lh) + dist(2 * vi, lv)) + 10 * freq
}

impl WordSearchGenerator {
    /// Occurrences of `ch` in all the words.
    pub open spec fn letter_frequency(&self, ch: char) -> nat {
        words_char_count(self.horizontal_words@, ch) + words_char_count(self.vertical_words@, ch)
    }

    /// `x` names letters of this generator's words that are equal, and carries their score.
    pub open spec fn valid_intersection(&self, x: Intersection) -> bool {
        &&& x.h_word_idx < self.horizontal_words@.len()
        &&& x.v_word_idx < self.vertical_words@.len()
        &&& x.h_char_idx < self.horizontal_words@[x.h_word_idx as int]@.len()
        &&& x.v_char_idx < self.vertical_words@[x.v_word_idx as int]@.len()
        &&& self.horizontal_words@[x.h_word_idx as int]@[x.h_char_idx as int] == x.character
        &&& self.vertical_words@[x.v_word_idx as int]@[x.v_char_idx as int] == x.character
        &&& x.score == crossing_desirability(
            self.horizontal_words@[x.h_word_idx as int]@.len() as int,
            self.vertical_words@[x.v_word_idx as int]@.len() as int,
            x.h_char_idx as int,
            x.v_char_idx as int,
            self.letter_frequency(x.character) as int,
        )
    }

    /// Occurrences of `letter` over all words, horizontal and vertical.
    pub fn count_letter_frequency(&self, letter: char) -> (n: u64)
        requires
            self.wf(),
        ensures
            n == self.letter_frequency(letter),
            n <= MAX_WORDS * MAX_SIDE,
    {
        let a = count_in_words(&self.horizontal_words, letter);
        let b = count_in_words(&self.vertical_words, letter);
        proof {
            lemma_words_count_bound(self.horizontal_words@, letter);
            lemma_words_count_bound(self.vertical_words@, letter);
            assert(self.horizontal_words@.len() * MAX_SIDE + self.vertical_words@.len() * MAX_SIDE
                == (self.horizontal_words@.len() + self.vertical_words@.len()) * MAX_SIDE) by (nonlinear_arith);
            assert((self.horizontal_words@.len() + self.vertical_words@.len()) * MAX_SIDE <= MAX_WORDS * MAX_SIDE)
                by (nonlinear_arith) requires self.horizontal_words@.len() + self.vertical_words@.len() <= MAX_WORDS;
        }
        a + b
    }

    /// Desirability of crossing `intersection`; see `crossing_desirability`.
    pub fn score_intersection_potential(&self, h_word_idx: usize, v_word_idx: usize, h_char_idx: usize, v_char_idx: usize, character: char) -> (s: i64)
        requires
            self.wf(),
            h_word_idx < self.horizontal_words@.len(),
            v_word_idx < self.vertical_words@.len(),
            h_char_idx < self.horizontal_words@[h_word_idx as int]@.len(),
            v_char_idx < self.vertical_words@[v_word_idx as int]@.len(),
        ensures
            s == crossing_desirability(
                self.horizontal_words@[h_word_idx as int]@.len() as int,
                self.vertical_words@[v_word_idx as int]@.len() as int,
                h_char_idx as int,
                v_char_idx as int,
                self.letter_frequency(character) as int,
            ),
    {
        let lh = self.horizontal_words[h_word_idx].len() as i64;
        let lv = self.vertical_words[v_word_idx].len() as i64;
        assert(lh <= MAX_SIDE && lv <= MAX_SIDE);
        let hi = 2 * h_char_idx as i64;
        let vi = 2 * v_char_idx as i64;
        let dh = if hi >= lh { hi - lh } else { lh - hi };
        let dv = if vi >= lv { vi - lv } else { lv - vi };
        let freq = self.count_letter_frequency(character) as i64;
        4 * (lh + lv) + 40 - (dh + dv) + 10 * freq
    }
}

/// Offset `c` of horizontal word `a` and offset `d` of vertical word `b` hold the same letter.
pub open spec fn shares_letter(gen: WordSearchGenerator, a: int, b: int, c: int, d: int) -> bool {
    &&& 0 <= a < gen.horizontal_words@.len()
    &&& 0 <= b < gen.vertical_words@.len()
    &&& 0 <= c < gen.horizontal_words@[a]@.len()
    &&& 0 <= d < gen.vertical_words@[b]@.len()
    &&& gen.horizontal_words@[a]@[c] == gen.vertical_words@[b]@[d]
}

/// Some entry of `xs` is the crossing of offsets `c` and `d` of words `a` and `b`.
pub open spec fn lists_crossing(xs: Seq<Intersection>, a: int, b: int, c: int, d: int) -> bool {
    exists|m: int| 0 <= m < xs.len() && #[trigger] xs[m].h_word_idx == a && xs[m].v_word_idx == b
        && xs[m].h_char_idx == c && xs[m].v_char_idx == d
}

/// `(a, b, c, d)` comes before `(h, v, i, j)` in the order of enumeration.
pub open spec fn enumerated_before(a: int, b: int, c: int, d: int, h: int, v: int, i: int, j: int) -> bool {
    a < h || (a == h && (b < v || (b == v && (c < i || (c == i && d < j)))))
}

/// Every shared letter enumerated before `(h, v, i, j)` is listed in `xs`.
pub open spec fn listed_before(gen: WordSearchGenerator, xs: Seq<Intersection>, h: int, v: int, i: int, j: int) -> bool {
    forall|a: int, b: int, c: int, d: int|
        #[trigger] shares_letter(gen, a, b, c, d) && enumerated_before(a, b, c, d, h, v, i, j)
            ==> lists_crossing(xs, a, b, c, d)
}

/// No two entries of `xs` name the same pair of offsets of the same two words.
pub open spec fn distinct_crossings(xs: Seq<Intersection>) -> bool {
    forall|a: int, b: int| 0 <= a < xs.len() && 0 <= b < xs.len() && a != b ==> {
        let x = #[trigger] xs[a];
        let y = #[trigger] xs[b];
        x.h_word_idx != y.h_word_idx || x.v_word_idx != y.v_word_idx || x.h_char_idx != y.h_char_idx
            || x.v_char_idx != y.v_char_idx
    }
}

/// `x` was enumerated before `y`.
pub open spec fn crossing_before(x: Intersection, y: Intersection) -> bool {
    enumerated_before(x.h_word_idx as int, x.v_word_idx as int, x.h_char_idx as int, x.v_char_idx as int,
        y.h_word_idx as int, y.v_word_idx as int, y.h_char_idx as int, y.v_char_idx as int)
}

/// Entries of `xs` stand in the order of enumeration.
pub open spec fn in_enumeration_order(xs: Seq<Intersection>) -> bool {
    forall|a: int, b: int| 0 <= a < b < xs.len() ==> crossing_before(#[trigger] xs[a], #[trigger] xs[b])
}

/// Entries of equal score stand in the order of enumeration.
pub open spec fn ties_in_order(xs: Seq<Intersection>) -> bool {
    forall|a: int, b: int| 0 <= a < b < xs.len() && (#[trigger] xs[a]).score == (#[trigger] xs[b]).score
        ==> crossing_before(xs[a], xs[b])
}

/// Every entry of `xs` was enumerated before `(h, v, i, j)`.
pub open spec fn all_before(xs: Seq<Intersection>, h: int, v: int, i: int, j: int) -> bool {
    forall|k: int| 0 <= k < xs.len() ==> enumerated_before(
        (#[trigger] xs[k]).h_word_idx as int, xs[k].v_word_idx as int, xs[k].h_char_idx as int, xs[k].v_char_idx as int, h, v, i, j)
}

/// Some entry of `xs` equals `x`.
pub open spec fn contains_crossing(xs: Seq<Intersection>, x: Intersection) -> bool {
    exists|m: int| 0 <= m < xs.len() && xs[m] == x
}

/// Scores never increase along `xs`.
pub open spec fn ranked_crossings(xs: Seq<Intersection>) -> bool {
    forall|a: int, b: int| 0 <= a < b < xs.len() ==> (#[trigger] xs[a]).score >= (#[trigger] xs[b]).score
}

impl WordSearchGenerator {
    /// Every pair of a horizontal and a vertical word with a letter in common, once
    /// for each pair of equal letters, best score first; equal scores keep the order
    /// of enumeration.
    pub fn find_all_intersections(&self) -> (r: Vec<Intersection>)
        requires
            self.wf(),
        ensures
            forall|k: int| 0 <= k < r@.len() ==> self.valid_intersection(#[trigger] r@[k]),
            ranked_crossings(r@),
            forall|a: int, b: int, c: int, d: int| #[trigger] shares_letter(*self, a, b, c, d) ==> lists_crossing(r@, a, b, c, d),
            distinct_crossings(r@),
            ties_in_order(r@),
    {
        let mut xs: Vec<Intersection> = Vec::new();
        let mut h: usize = 0;
        while h < self.horizontal_words.len()
            invariant
                self.wf(),
                h <= self.horizontal_words@.len(),
                forall|k: int| 0 <= k < xs@.len() ==> self.valid_intersection(#[trigger] xs@[k]),
                listed_before(*self, xs@, h as int, 0, 0, 0),
                distinct_crossings(xs@),
                all_before(xs@, h as int, 0, 0, 0),
                in_enumeration_order(xs@),
            decreases self.horizontal_words@.len() - h,
        {
            let mut v: usize = 0;
            while v < self.vertical_words.len()
                invariant
                    self.wf(),
                    h < self.horizontal_words@.len(),
                    v <= self.vertical_words@.len(),
                    forall|k: int| 0 <= k < xs@.len() ==> self.valid_intersection(#[trigger] xs@[k]),
                    listed_before(*self, xs@, h as int, v as int, 0, 0),
                distinct_crossings(xs@),
                all_before(xs@, h as int, v as int, 0, 0),
                in_enumeration_order(xs@),
                decreases self.vertical_words@.len() - v,
            {
                let hw = &self.horizontal_words[h];
                let vw = &self.vertical_words[v];
                let mut i: usize = 0;
                while i < hw.len()
                    invariant
                        self.wf(),
                        h < self.horizontal_words@.len(),
                        v < self.vertical_words@.len(),
                        *hw == self.horizontal_words@[h as int],
                        *vw == self.vertical_words@[v as int],
                        i <= hw@.len(),
                        forall|k: int| 0 <= k < xs@.len() ==> self.valid_intersection(#[trigger] xs@[k]),
                        listed_before(*self, xs@, h as int, v as int, i as int, 0),
                distinct_crossings(xs@),
                all_before(xs@, h as int, v as int, i as int, 0),
                in_enumeration_order(xs@),
                    decreases hw@.len() - i,
                {
                    let mut j: usize = 0;
                    while j < vw.len()
                        invariant
                            self.wf(),
                            h < self.horizontal_words@.len(),
                            v < self.vertical_words@.len(),
                            *hw == self.horizontal_words@[h as int],
                            *vw == self.vertical_words@[v as int],
                            i < hw@.len(),
                            j <= vw@.len(),
                            forall|k: int| 0 <= k < xs@.len() ==> self.valid_intersection(#[trigger] xs@[k]),
                            listed_before(*self, xs@, h as int, v as int, i as int, j as int),
                distinct_crossings(xs@),
                all_before(xs@, h as int, v as int, i as int, j as int),
                in_enumeration_order(xs@),
                        decreases vw@.len() - j,
                    {
                        if hw[i] == vw[j] {
                            let score = self.score_intersection_potential(h, v, i, j, hw[i]);
                            let x = Intersection {
                                h_word_idx: h,
                                v_word_idx: v,
                                h_char_idx: i,
                                v_char_idx: j,
                                character: hw[i],
                                score,
                            };
                            let ghost before = xs@;
                            push_valid(&mut xs, x, Ghost(*self));
                            proof {
                                lemma_listed_after_push(*self, before, xs@, x, h as int, v as int, i as int, j as int);
                                lemma_distinct_after_push(before, xs@, x, h as int, v as int, i as int, j as int);
                            }
                        } else {
                            proof { lemma_listed_step(*self, xs@, h as int, v as int, i as int, j as int); }
                        }
                        j += 1;
                    }
                    proof {
                        lemma_listed_next(*self, xs@, h as int, v as int, i as int, j as int, 0);
                        assert forall|k: int| 0 <= k < xs@.len() implies enumerated_before(
                            (#[trigger] xs@[k]).h_word_idx as int, xs@[k].v_word_idx as int, xs@[k].h_char_idx as int,
                            xs@[k].v_char_idx as int, h as int, v as int, i + 1, 0) by {
                            assert(enumerated_before(xs@[k].h_word_idx as int, xs@[k].v_word_idx as int, xs@[k].h_char_idx as int,
                                xs@[k].v_char_idx as int, h as int, v as int, i as int, j as int));
                        }
                    }
                    i += 1;
                }
                proof {
                    lemma_listed_next(*self, xs@, h as int, v as int, i as int, 0, 1);
                    assert forall|k: int| 0 <= k < xs@.len() implies enumerated_before(
                        (#[trigger] xs@[k]).h_word_idx as int, xs@[k].v_word_idx as int, xs@[k].h_char_idx as int,
                        xs@[k].v_char_idx as int, h as int, v + 1, 0, 0) by {
                        assert(enumerated_before(xs@[k].h_word_idx as int, xs@[k].v_word_idx as int, xs@[k].h_char_idx as int,
                            xs@[k].v_char_idx as int, h as int, v as int, i as int, 0));
                    }
                }
                v += 1;
            }
            proof {
                lemma_listed_next(*self, xs@, h as int, v as int, 0, 0, 2);
                assert forall|k: int| 0 <= k < xs@.len() implies enumerated_before(
                    (#[trigger] xs@[k]).h_word_idx as int, xs@[k].v_word_idx as int, xs@[k].h_char_idx as int,
                    xs@[k].v_char_idx as int, h + 1, 0, 0, 0) by {
                    assert(enumerated_before(xs@[k].h_word_idx as int, xs@[k].v_word_idx as int, xs@[k].h_char_idx as int,
                        xs@[k].v_char_idx as int, h as int, v as int, 0, 0));
                }
            }
            h += 1;
        }
        let ghost unsorted = xs@;
        rank_crossings(&mut xs, Ghost(*self));
        proof {
            assert forall|a: int, b: int, c: int, d: int| #[trigger] shares_letter(*self, a, b, c, d) implies lists_crossing(xs@, a, b, c, d) by {
                assert(enumerated_before(a, b, c, d, h as int, 0, 0, 0));
                let m = choose|m: int| 0 <= m < unsorted.len() && #[trigger] unsorted[m].h_word_idx == a && unsorted[m].v_word_idx == b
                    && unsorted[m].h_char_idx == c && unsorted[m].v_char_idx == d;
                assert(contains_crossing(xs@, unsorted[m]));
                let m2 = choose|m2: int| 0 <= m2 < xs@.len() && xs@[m2] == unsorted[m];
                assert(xs@[m2].h_word_idx == a);
            }
        }
        xs
    }
}

fn push_valid(xs: &mut Vec<Intersection>, x: Intersection, gen: Ghost<WordSearchGenerator>)
    requires
        gen@.valid_intersection(x),
        forall|k: int| 0 <= k < old(xs)@.len() ==> gen@.valid_intersection(#[trigger] old(xs)@[k]),
    ensures
        forall|k: int| 0 <= k < final(xs)@.len() ==> gen@.valid_intersection(#[trigger] final(xs)@[k]),
        final(xs)@ == old(xs)@.push(x),
{
    xs.push(x);
}

proof fn lemma_listed_after_push(gen: WordSearchGenerator, before: Seq<Intersection>, after: Seq<Intersection>, x: Intersection, h: int, v: int, i: int, j: int)
    requires
        listed_before(gen, before, h, v, i, j),
        after == before.push(x),
        x.h_word_idx == h && x.v_word_idx == v && x.h_char_idx == i && x.v_char_idx == j,
    ensures
        listed_before(gen, after, h, v, i, j + 1),
{
    assert forall|a: int, b: int, c: int, d: int|
        #[trigger] shares_letter(gen, a, b, c, d) && enumerated_before(a, b, c, d, h, v, i, j + 1)
            implies lists_crossing(after, a, b, c, d) by {
        if enumerated_before(a, b, c, d, h, v, i, j) {
            let m = choose|m: int| 0 <= m < before.len() && #[trigger] before[m].h_word_idx == a && before[m].v_word_idx == b
                && before[m].h_char_idx == c && before[m].v_char_idx == d;
            assert(after[m] == before[m]);
        } else {
            assert(after[before.len() as int] == x);
        }
    }
}

proof fn lemma_distinct_after_push(before: Seq<Intersection>, after: Seq<Intersection>, x: Intersection, h: int, v: int, i: int, j: int)
    requires
        all_before(before, h, v, i, j),
        distinct_crossings(before),
        in_enumeration_order(before),
        after == before.push(x),
        x.h_word_idx == h && x.v_word_idx == v && x.h_char_idx == i && x.v_char_idx == j,
    ensures
        all_before(after, h, v, i, j + 1),
        distinct_crossings(after),
        in_enumeration_order(after),
{
    assert forall|a: int, b: int| 0 <= a < b < after.len() implies crossing_before(#[trigger] after[a], #[trigger] after[b]) by {
        assert(after[a] == before[a]);
        if b < before.len() {
            assert(after[b] == before[b]);
        }
    }
    assert forall|k: int| 0 <= k < after.len() implies enumerated_before(
        (#[trigger] after[k]).h_word_idx as int, after[k].v_word_idx as int, after[k].h_char_idx as int,
        after[k].v_char_idx as int, h, v, i, j + 1) by {
        if k < before.len() { assert(after[k] == before[k]); }
    }
    assert forall|a: int, b: int| 0 <= a < after.len() && 0 <= b < after.len() && a != b implies {
        let x1 = #[trigger] after[a];
        let y1 = #[trigger] after[b];
        x1.h_word_idx != y1.h_word_idx || x1.v_word_idx != y1.v_word_idx || x1.h_char_idx != y1.h_char_idx
            || x1.v_char_idx != y1.v_char_idx
    } by {
        if a < before.len() { assert(after[a] == before[a]); }
        if b < before.len() { assert(after[b] == before[b]); }
    }
}

proof fn lemma_listed_step(gen: WordSearchGenerator, xs: Seq<Intersection>, h: int, v: int, i: int, j: int)
    requires
        listed_before(gen, xs, h, v, i, j),
        !shares_letter(gen, h, v, i, j),
    ensures
        listed_before(gen, xs, h, v, i, j + 1),
{
    assert forall|a: int, b: int, c: int, d: int|
        #[trigger] shares_letter(gen, a, b, c, d) && enumerated_before(a, b, c, d, h, v, i, j + 1)
            implies lists_crossing(xs, a, b, c, d) by {
        if !enumerated_before(a, b, c, d, h, v, i, j) {
            assert(a == h && b == v && c == i && d == j);
        }
    }
}

/// Moving on once offset, word or list `level` (0, 1, 2) is used up.
proof fn lemma_listed_next(gen: WordSearchGenerator, xs: Seq<Intersection>, h: int, v: int, i: int, j: int, level: int)
    requires
        listed_before(gen, xs, h, v, i, j),
        level == 0 ==> 0 <= h < gen.horizontal_words@.len() && 0 <= v < gen.vertical_words@.len() && j == gen.vertical_words@[v]@.len(),
        level == 1 ==> 0 <= h < gen.horizontal_words@.len() && i == gen.horizontal_words@[h]@.len() && j == 0,
        level == 2 ==> v == gen.vertical_words@.len() && i == 0 && j == 0,
        0 <= level <= 2,
    ensures
        level == 0 ==> listed_before(gen, xs, h, v, i + 1, 0),
        level == 1 ==> listed_before(gen, xs, h, v + 1, 0, 0),
        level == 2 ==> listed_before(gen, xs, h + 1, 0, 0, 0),
{
    if level == 0 {
        assert forall|a: int, b: int, c: int, d: int|
            #[trigger] shares_letter(gen, a, b, c, d) && enumerated_before(a, b, c, d, h, v, i + 1, 0)
                implies lists_crossing(xs, a, b, c, d) by {
            assert(enumerated_before(a, b, c, d, h, v, i, j));
        }
    } else if level == 1 {
        assert forall|a: int, b: int, c: int, d: int|
            #[trigger] shares_letter(gen, a, b, c, d) && enumerated_before(a, b, c, d, h, v + 1, 0, 0)
                implies lists_crossing(xs, a, b, c, d) by {
            assert(enumerated_before(a, b, c, d, h, v, i, j));
        }
    } else {
        assert forall|a: int, b: int, c: int, d: int|
            #[trigger] shares_letter(gen, a, b, c, d) && enumerated_before(a, b, c, d, h + 1, 0, 0, 0)
                implies lists_crossing(xs, a, b, c, d) by {
            assert(enumerated_before(a, b, c, d, h, v, i, j));
        }
    }
}

/// Sorts by score, highest first, keeping the order of equal scores.
fn rank_crossings(v: &mut Vec<Intersection>, gen: Ghost<WordSearchGenerator>)
    requires
        forall|k: int| 0 <= k < old(v)@.len() ==> gen@.valid_intersection(#[trigger] old(v)@[k]),
    ensures
        final(v)@.len() == old(v)@.len(),
        forall|k: int| 0 <= k < final(v)@.len() ==> gen@.valid_intersection(#[trigger] final(v)@[k]),
        ranked_crossings(final(v)@),
        forall|k: int| 0 <= k < old(v)@.len() ==> contains_crossing(final(v)@, #[trigger] old(v)@[k]),
        distinct_crossings(old(v)@) ==> distinct_crossings(final(v)@),
        in_enumeration_order(old(v)@) ==> ties_in_order(final(v)@),
{
    let ghost orig = v@;
    let n = v.len();
    let mut i: usize = 0;
    while i < n
        invariant
            n == v@.len(),
            i <= n,
            forall|k: int| 0 <= k < n ==> gen@.valid_intersection(#[trigger] v@[k]),
            ranked_crossings(v@.subrange(0, i as int)),
            orig == old(v)@,
            orig.len() == n,
            forall|k: int| 0 <= k < orig.len() ==> contains_crossing(v@, #[trigger] orig[k]),
            distinct_crossings(orig) ==> distinct_crossings(v@),
            in_enumeration_order(orig) ==> {
                &&& forall|x: int| i <= x < n ==> #[trigger] v@[x] == orig[x]
                &&& forall|x: int| 0 <= x < i ==> exists|y: int| 0 <= y < i && #[trigger] v@[x] == orig[y]
                &&& forall|a: int, b: int| 0 <= a < b < i && (#[trigger] v@[a]).score == (#[trigger] v@[b]).score
                    ==> crossing_before(v@[a], v@[b])
            },
        decreases n - i,
    {
        let mut j: usize = i;
        assert forall|a: int, b: int| 0 <= a < b <= i && a != j && b != j implies v@[a].score >= v@[b].score by {
            assert(v@.subrange(0, i as int)[a] == v@[a]);
            assert(v@.subrange(0, i as int)[b] == v@[b]);
        }
        proof {
            if in_enumeration_order(orig) {
                assert(v@[i as int] == orig[i as int]);
                assert forall|x: int| 0 <= x <= i && x != j implies exists|y: int| 0 <= y < i && #[trigger] v@[x] == orig[y] by {
                    assert(x < i);
                }
                assert forall|a: int, b: int| 0 <= a < b <= i && a != j && b != j && (#[trigger] v@[a]).score == (#[trigger] v@[b]).score
                    implies crossing_before(v@[a], v@[b]) by {
                    assert(b < i);
                }
            }
        }
        while j > 0 && v[j - 1].score < v[j].score
            invariant
                n == v@.len(),
                j <= i < n,
                forall|k: int| 0 <= k < n ==> gen@.valid_intersection(#[trigger] v@[k]),
                forall|a: int, b: int| 0 <= a < b <= i && a != j && b != j ==> v@[a].score >= v@[b].score,
                forall|b: int| j < b <= i ==> v@[j as int].score > v@[b].score,
                orig.len() == n,
                forall|k: int| 0 <= k < orig.len() ==> contains_crossing(v@, #[trigger] orig[k]),
                distinct_crossings(orig) ==> distinct_crossings(v@),
                in_enumeration_order(orig) ==> {
                    &&& forall|x: int| i < x < n ==> #[trigger] v@[x] == orig[x]
                    &&& v@[j as int] == orig[i as int]
                    &&& forall|x: int| 0 <= x <= i && x != j ==> exists|y: int| 0 <= y < i && #[trigger] v@[x] == orig[y]
                    &&& forall|a: int, b: int| 0 <= a < b <= i && a != j && b != j && (#[trigger] v@[a]).score == (#[trigger] v@[b]).score
                        ==> crossing_before(v@[a], v@[b])
                },
            decreases j,
        {
            let ghost before = v@;
            let t = v[j];
            let u = v[j - 1];
            v[j] = u;
            v[j - 1] = t;
            proof {
                assert forall|k: int| 0 <= k < orig.len() implies contains_crossing(v@, #[trigger] orig[k]) by {
                    let m = choose|m: int| 0 <= m < before.len() && before[m] == orig[k];
                    let m2 = if m == j { j - 1 } else if m == j - 1 { j as int } else { m };
                    assert(v@[m2] == before[m]);
                }
                if distinct_crossings(before) {
                    assert forall|a: int, b: int| 0 <= a < v@.len() && 0 <= b < v@.len() && a != b implies {
                        let x1 = #[trigger] v@[a];
                        let y1 = #[trigger] v@[b];
                        x1.h_word_idx != y1.h_word_idx || x1.v_word_idx != y1.v_word_idx || x1.h_char_idx != y1.h_char_idx
                            || x1.v_char_idx != y1.v_char_idx
                    } by {
                        let oa = if a == j { j - 1 } else if a == j - 1 { j as int } else { a };
                        let ob = if b == j { j - 1 } else if b == j - 1 { j as int } else { b };
                        assert(v@[a] == before[oa]);
                        assert(v@[b] == before[ob]);
                    }
                }
                if in_enumeration_order(orig) {
                    assert forall|x: int| 0 <= x <= i && x != j - 1 implies exists|y: int| 0 <= y < i && #[trigger] v@[x] == orig[y] by {
                        let ox = if x == j { j - 1 } else { x };
                        assert(v@[x] == before[ox]);
                    }
                    assert forall|a: int, b: int| 0 <= a < b <= i && a != j - 1 && b != j - 1 && (#[trigger] v@[a]).score == (#[trigger] v@[b]).score
                        implies crossing_before(v@[a], v@[b]) by {
                        let oa = if a == j { j - 1 } else { a };
                        let ob = if b == j { j - 1 } else { b };
                        assert(v@[a] == before[oa] && v@[b] == before[ob]);
                    }
                }
            }
            j -= 1;
        }
        proof {
            assert forall|a: int, b: int| 0 <= a < b < i + 1 implies
                (#[trigger] v@.subrange(0, i + 1)[a]).score >= (#[trigger] v@.subrange(0, i + 1)[b]).score by {
                if b == j && a < j {
                    assert(v@[a].score >= v@[j - 1].score || a == j - 1);
                }
            }
            if in_enumeration_order(orig) {
                assert forall|x: int| 0 <= x < i + 1 implies exists|y: int| 0 <= y < i + 1 && #[trigger] v@[x] == orig[y] by {
                    if x == j {
                        assert(v@[x] == orig[i as int]);
                    } else {
                        let y = choose|y: int| 0 <= y < i && #[trigger] v@[x] == orig[y];
                        assert(v@[x] == orig[y]);
                    }
                }
                assert forall|a: int, b: int| 0 <= a < b < i + 1 && (#[trigger] v@[a]).score == (#[trigger] v@[b]).score
                    implies crossing_before(v@[a], v@[b]) by {
                    if b == j {
                        let y = choose|y: int| 0 <= y < i && #[trigger] v@[a] == orig[y];
                        assert(0 <= y < i < orig.len());
                        assert(crossing_before(orig[y], orig[i as int]));
                    } else if a == j {
                        assert(v@[j as int].score > v@[b].score);
                    }
                }
            }
        }
        i += 1;
    }
    assert(v@.subrange(0, n as int) == v@);
    proof {
        if in_enumeration_order(orig) {
            assert(ties_in_order(v@));
        }
    }
}

/// Occurrences of `ch` over all of `ws`.
fn count_in_words(ws: &Vec<Vec<char>>, ch: char) -> (n: u64)
    requires
        words_ok_len(ws@),
    ensures
        n == words_char_count(ws@, ch),
{
    let mut total: u64 = 0;
    let mut k: usize = 0;
    while k < ws.len()
        invariant
            words_ok_len(ws@),
            k <= ws@.len(),
            total == words_char_count(ws@.subrange(0, k as int), ch),
            total <= k * MAX_SIDE,
        decreases ws@.len() - k,
    {
        let w = &ws[k];
        let mut c: u64 = 0;
        let mut i: usize = 0;
        while i < w.len()
            invariant
                i <= w@.len(),
                c == char_count(w@.subrange(0, i as int), ch),
                c <= i,
            decreases w@.len() - i,
        {
            assert(w@.subrange(0, i + 1).drop_last() == w@.subrange(0, i as int));
            if w[i] == ch {
                c += 1;
            }
            i += 1;
        }
        assert(w@.subrange(0, w@.len() as int) == w@);
        assert(ws@.subrange(0, k + 1).drop_last() == ws@.subrange(0, k as int));
        assert(k * MAX_SIDE + MAX_SIDE == (k + 1) * MAX_SIDE) by (nonlinear_arith);
        assert((k + 1) * MAX_SIDE <= MAX_WORDS * MAX_SIDE) by (nonlinear_arith)
            requires k + 1 <= MAX_WORDS;
        total = total + c;
        k += 1;
    }
    assert(ws@.subrange(0, ws@.len() as int) == ws@);
    total
}

/// At most `MAX_WORDS` words, each of at most `MAX_SIDE` letters.
pub open spec fn words_ok_len(ws: Seq<Vec<char>>) -> bool {
    &&& ws.len() <= MAX_WORDS
    &&& forall|k: int| 0 <= k < ws.len() ==> (#[trigger] ws[k])@.len() <= MAX_SIDE
}

} // verus!
