use vstd::prelude::*;

verus! {

/// What `char::is_whitespace` answers for `c`.
pub uninterp spec fn space_char(c: char) -> bool;

/// What `str::to_uppercase` gives for the text `s`.
pub uninterp spec fn upper_of(s: Seq<char>) -> Seq<char>;

/// Relies on `char::is_whitespace`: whether `c` has Unicode's White_Space property,
/// which depends on `c` alone.
#[verifier::external_body]
fn is_space(c: char) -> (r: bool)
    ensures
        r == space_char(c),
{
    c.is_whitespace()
}

/// Relies on `str::to_uppercase`: the upper-case form of the text, which depends on
/// the characters alone.
#[verifier::external_body]
fn uppercase(w: &Vec<char>) -> (r: String)
    ensures
        r@ == upper_of(w@),
{
    let s: String = w.iter().collect();
    s.to_uppercase()
}

/// The lines of `ls` joined with `'\n'` between them.
pub open spec fn joined(ls: Seq<Seq<char>>) -> Seq<char>
    decreases ls.len(),
{
    if ls.len() == 0 {
        Seq::empty()
    } else if ls.len() == 1 {
        ls[0]
    } else {
        joined(ls.drop_last()) + seq!['\n'] + ls.last()
    }
}

/// `ls` are the lines of `text`: joined with newlines they give `text`, and none
/// holds a newline.
pub open spec fn lines_of(text: Seq<char>, ls: Seq<Seq<char>>) -> bool {
    &&& ls.len() >= 1
    &&& joined(ls) == text
    &&& forall|k: int| 0 <= k < ls.len() ==> !(#[trigger] ls[k]).contains('\n')
}

/// `l` without the leading characters that satisfy `quote ? c == '"' : space_char(c)`.
pub open spec fn strip_front(l: Seq<char>, quote: bool) -> Seq<char>
    decreases l.len(),
{
    if l.len() > 0 && (if quote { l[0] == '"' } else { space_char(l[0]) }) {
        strip_front(l.drop_first(), quote)
    } else {
        l
    }
}

/// `l` without the trailing characters that satisfy `quote ? c == '"' : space_char(c)`.
pub open spec fn strip_back(l: Seq<char>, quote: bool) -> Seq<char>
    decreases l.len(),
{
    if l.len() > 0 && (if quote { l.last() == '"' } else { space_char(l.last()) }) {
        strip_back(l.drop_last(), quote)
    } else {
        l
    }
}

/// `l` without surrounding white space (`quote` false) or double quotes (`quote` true).
pub open spec fn stripped(l: Seq<char>, quote: bool) -> Seq<char> {
    strip_back(strip_front(l, quote), quote)
}

/// Section that the lines before `n` leave open: 0 none, 1 horizontal, 2 vertical.
pub open spec fn section_after(ls: Seq<Seq<char>>, n: int) -> int
    decreases n,
{
    if n <= 0 {
        0
    } else {
        let t = stripped(ls[n - 1], false);
        if t == "horizontal:"@ { 1 } else if t == "vertical:"@ { 2 } else { section_after(ls, n - 1) }
    }
}

/// The line is an item: after trimming it starts with `"- "`.
pub open spec fn is_item(t: Seq<char>) -> bool {
    t.len() >= 2 && t[0] == '-' && t[1] == ' '
}

/// The word an item line gives: the rest after `"- "`, without surrounding quotes, upper-cased.
pub open spec fn item_word(t: Seq<char>) -> Seq<char> {
    upper_of(stripped(t.subrange(2, t.len() as int), true))
}

/// Words that the lines before `n` add to section `which` (1 horizontal, 2 vertical).
pub open spec fn section_words(ls: Seq<Seq<char>>, n: int, which: int) -> Seq<Seq<char>>
    decreases n,
{
    if n <= 0 {
        Seq::empty()
    } else {
        let t = stripped(ls[n - 1], false);
        let before = section_words(ls, n - 1, which);
        if t.len() > 0 && t[0] != '#' && t != "horizontal:"@ && t != "vertical:"@ && is_item(t)
            && section_after(ls, n - 1) == which {
            before.push(item_word(t))
        } else {
            before
        }
    }
}

/// The characters of `s`.
fn str_chars(s: &str) -> (r: Vec<char>)
    ensures
        r@ == s@,
{
    let n = s.unicode_len();
    let mut r: Vec<char> = Vec::new();
    let mut i: usize = 0;
    while i < n
        invariant
            n == s@.len(),
            i <= n,
            r@ == s@.subrange(0, i as int),
        decreases n - i,
    {
        r.push(s.get_char(i));
        i += 1;
    }
    assert(r@ == s@);
    r
}

/// Splits `text` at each `'\n'`.
fn split_lines(text: &Vec<char>) -> (ls: Vec<Vec<char>>)
    ensures
        lines_of(text@, ls@.map_values(|l: Vec<char>| l@)),
{
    let mut ls: Vec<Vec<char>> = Vec::new();
    let mut cur: Vec<char> = Vec::new();
    let mut i: usize = 0;
    while i < text.len()
        invariant
            i <= text@.len(),
            joined(ls@.map_values(|l: Vec<char>| l@).push(cur@)) == text@.subrange(0, i as int),
            forall|k: int| 0 <= k < ls@.len() ==> !(#[trigger] ls@[k])@.contains('\n'),
            !cur@.contains('\n'),
        decreases text@.len() - i,
    {
        let ghost v0 = ls@.map_values(|l: Vec<char>| l@);
        if text[i] == '\n' {
            let done = cur;
            cur = Vec::new();
            ls.push(done);
            proof {
                let v1 = ls@.map_values(|l: Vec<char>| l@);
                assert(v1 =~= v0.push(done@));
                assert(v1.push(cur@).drop_last() =~= v1);
                assert(v0.push(done@).drop_last() =~= v0);
                assert(cur@ =~= Seq::<char>::empty());
                assert(joined(v1.push(cur@)) =~= joined(v1) + seq!['\n'] + Seq::<char>::empty());
                assert(text@.subrange(0, i + 1) =~= text@.subrange(0, i as int) + seq!['\n']);
                assert(joined(v1) =~= joined(v0.push(done@)));
                assert forall|k: int| 0 <= k < ls@.len() implies !(#[trigger] ls@[k])@.contains('\n') by {
                    if k < v0.len() {
                        assert(ls@[k]@ == v1[k]);
                    }
                }
            }
        } else {
            let ghost c0 = cur@;
            cur.push(text[i]);
            proof {
                assert(text@.subrange(0, i + 1) =~= text@.subrange(0, i as int) + seq![text@[i as int]]);
                assert(v0.push(cur@).drop_last() =~= v0);
                assert(v0.push(c0).drop_last() =~= v0);
                if v0.len() == 0 {
                    assert(joined(v0.push(cur@)) =~= cur@);
                    assert(joined(v0.push(c0)) =~= c0);
                } else {
                    assert(joined(v0.push(cur@)) =~= joined(v0) + seq!['\n'] + cur@);
                    assert(joined(v0.push(c0)) =~= joined(v0) + seq!['\n'] + c0);
                }
                if cur@.contains('\n') {
                    let k = choose|k: int| 0 <= k < cur@.len() && cur@[k] == '\n';
                    if k < c0.len() {
                        assert(c0[k] == '\n');
                    }
                }
            }
        }
        i += 1;
    }
    let ghost v0 = ls@.map_values(|l: Vec<char>| l@);
    ls.push(cur);
    assert(ls@.map_values(|l: Vec<char>| l@) =~= v0.push(ls@.last()@));
    assert(text@.subrange(0, text@.len() as int) =~= text@);
    ls
}

/// Whether `c` is stripped: a double quote when `quote`, white space otherwise.
fn strippable(c: char, quote: bool) -> (r: bool)
    ensures
        r == (if quote { c == '"' } else { space_char(c) }),
{
    if quote { c == '"' } else { is_space(c) }
}

/// `l` without surrounding white space (`quote` false) or double quotes (`quote` true).
fn strip(l: &Vec<char>, quote: bool) -> (r: Vec<char>)
    ensures
        r@ == stripped(l@, quote),
{
    let n = l.len();
    let mut lo: usize = 0;
    assert(l@.subrange(0, n as int) =~= l@);
    while lo < n && strippable(l[lo], quote)
        invariant
            n == l@.len(),
            lo <= n,
            strip_front(l@, quote) == strip_front(l@.subrange(lo as int, n as int), quote),
        decreases n - lo,
    {
        assert(l@.subrange(lo as int, n as int).drop_first() =~= l@.subrange(lo + 1, n as int));
        lo += 1;
    }
    let ghost m = l@.subrange(lo as int, n as int);
    assert(strip_front(m, quote) == m);
    let mut hi: usize = n;
    while hi > lo && strippable(l[hi - 1], quote)
        invariant
            n == l@.len(),
            lo <= hi <= n,
            m == l@.subrange(lo as int, n as int),
            strip_back(m, quote) == strip_back(l@.subrange(lo as int, hi as int), quote),
        decreases hi - lo,
    {
        assert(l@.subrange(lo as int, hi as int).drop_last() =~= l@.subrange(lo as int, hi - 1));
        hi -= 1;
    }
    let mut r: Vec<char> = Vec::new();
    let mut i: usize = lo;
    while i < hi
        invariant
            n == l@.len(),
            lo <= i <= hi <= n,
            r@ == l@.subrange(lo as int, i as int),
        decreases hi - i,
    {
        r.push(l[i]);
        i += 1;
    }
    r
}

/// Whether `t` is the text `s`.
fn is_text(t: &Vec<char>, s: &str) -> (r: bool)
    ensures
        r == (t@ == s@),
{
    let n = s.unicode_len();
    if t.len() != n {
        return false;
    }
    let mut i: usize = 0;
    while i < n
        invariant
            n == s@.len(),
            n == t@.len(),
            i <= n,
            forall|k: int| 0 <= k < i ==> t@[k] == s@[k],
        decreases n - i,
    {
        if t[i] != s.get_char(i) {
            return false;
        }
        i += 1;
    }
    assert(t@ =~= s@);
    true
}

/// Reads a plain word-list text: a line `horizontal:` or `vertical:` opens a section,
/// and each line `- WORD` adds `WORD`, without surrounding double quotes and upper-cased,
/// to the open section. Lines are trimmed of white space first; blank lines, lines
/// starting with `#`, and items outside any section are skipped.
pub fn parse_simple_input(content: &str) -> (r: (Vec<String>, Vec<String>))
    ensures
        exists|ls: Seq<Seq<char>>| {
            &&& lines_of(content@, ls)
            &&& r.0@.map_values(|w: String| w@) == section_words(ls, ls.len() as int, 1)
            &&& r.1@.map_values(|w: String| w@) == section_words(ls, ls.len() as int, 2)
        },
{
    let text = str_chars(content);
    let lines = split_lines(&text);
    let ghost ls = lines@.map_values(|l: Vec<char>| l@);
    let mut horizontal: Vec<String> = Vec::new();
    let mut vertical: Vec<String> = Vec::new();
    let mut section: u8 = 0;
    let mut i: usize = 0;
    while i < lines.len()
        invariant
            ls == lines@.map_values(|l: Vec<char>| l@),
            lines_of(content@, ls),
            i <= lines@.len(),
            section as int == section_after(ls, i as int),
            horizontal@.map_values(|w: String| w@) == section_words(ls, i as int, 1),
            vertical@.map_values(|w: String| w@) == section_words(ls, i as int, 2),
        decreases lines@.len() - i,
    {
        let line = strip(&lines[i], false);
        assert(line@ == stripped(ls[i as int], false));
        let is_h = is_text(&line, "horizontal:");
        let is_v = is_text(&line, "vertical:");
        let ghost hv0 = horizontal@.map_values(|w: String| w@);
        let ghost vv0 = vertical@.map_values(|w: String| w@);
        if line.len() > 0 && line[0] != '#' && !is_h && !is_v && line.len() >= 2 && line[0] == '-' && line[1] == ' ' {
            let mut rest: Vec<char> = Vec::new();
            let mut k: usize = 2;
            while k < line.len()
                invariant
                    2 <= k <= line@.len(),
                    rest@ == line@.subrange(2, k as int),
                decreases line@.len() - k,
            {
                rest.push(line[k]);
                k += 1;
            }
            let word = uppercase(&strip(&rest, true));
            if section == 1 {
                horizontal.push(word);
                assert(horizontal@.map_values(|w: String| w@) =~= hv0.push(word@));
            } else if section == 2 {
                vertical.push(word);
                assert(vertical@.map_values(|w: String| w@) =~= vv0.push(word@));
            }
        }
        if is_h {
            section = 1;
        } else if is_v {
            section = 2;
        }
        assert(horizontal@.map_values(|w: String| w@) =~= section_words(ls, i + 1, 1));
        assert(vertical@.map_values(|w: String| w@) =~= section_words(ls, i + 1, 2));
        i += 1;
    }
    (horizontal, vertical)
}

} // verus!
