//! Text primitives shared by the rest of the library: character classes, comparison, search and
//! replacement, trimming, lines and joining.
//!
//! Strings are modelled by their sequence of characters.

use vstd::prelude::*;
use vstd::slice::{slice_subrange, slice_to_vec};

verus! {

/// `String::push` of the standard library appends one character to the end of the string.
pub assume_specification[ String::push ](s: &mut String, c: char)
    ensures
        final(s)@ == old(s)@.push(c),
;

// ---------------------------------------------------------------------------
// Character classes
// ---------------------------------------------------------------------------
/// The Unicode `White_Space` property.
pub open spec fn is_white(c: char) -> bool {
    ||| '\u{9}' <= c && c <= '\u{d}'
    ||| c == ' '
    ||| c == '\u{85}'
    ||| c == '\u{a0}'
    ||| c == '\u{1680}'
    ||| '\u{2000}' <= c && c <= '\u{200a}'
    ||| c == '\u{2028}'
    ||| c == '\u{2029}'
    ||| c == '\u{202f}'
    ||| c == '\u{205f}'
    ||| c == '\u{3000}'
}

/// Whether `c` has the Unicode `White_Space` property.
pub fn is_whitespace(c: char) -> (r: bool)
    ensures
        r == is_white(c),
{
    ('\u{9}' <= c && c <= '\u{d}') || c == ' ' || c == '\u{85}' || c == '\u{a0}' || c == '\u{1680}'
        || ('\u{2000}' <= c && c <= '\u{200a}') || c == '\u{2028}' || c == '\u{2029}' || c
        == '\u{202f}' || c == '\u{205f}' || c == '\u{3000}'
}

/// The Unicode general category `Cc`: C0 controls, DEL and C1 controls.
pub open spec fn is_ctrl(c: char) -> bool {
    c <= '\u{1f}' || ('\u{7f}' <= c && c <= '\u{9f}')
}

/// Whether `c` is a control character.
pub fn is_control(c: char) -> (r: bool)
    ensures
        r == is_ctrl(c),
{
    c <= '\u{1f}' || ('\u{7f}' <= c && c <= '\u{9f}')
}

/// The ASCII control characters: NUL to 0x1F, and DEL.
pub open spec fn is_ascii_ctrl(c: char) -> bool {
    c <= '\u{1f}' || c == '\u{7f}'
}

/// Whether `c` is an ASCII control character.
pub fn is_ascii_control(c: char) -> (r: bool)
    ensures
        r == is_ascii_ctrl(c),
{
    c <= '\u{1f}' || c == '\u{7f}'
}

// ---------------------------------------------------------------------------
// Conversions
// ---------------------------------------------------------------------------
/// The characters of a string.
pub fn chars_of(s: &str) -> (r: Vec<char>)
    ensures
        r@ == s@,
{
    let mut r: Vec<char> = Vec::new();
    for c in it: s.chars()
        invariant
            r@ == it.seq().take(it.index() as int),
            it.seq() == s@,
    {
        r.push(c);
    }
    assert(r@ == s@);
    r
}

/// The string made of the given characters.
pub fn string_of(s: &[char]) -> (r: String)
    ensures
        r@ == s@,
{
    let mut r = String::new();
    push_all(&mut r, s);
    assert(r@ == s@);
    r
}

/// Appends `s` to `out`.
pub fn push_all(out: &mut String, s: &[char])
    ensures
        final(out)@ == old(out)@ + s@,
{
    for i in 0..s.len()
        invariant
            out@ == old(out)@ + s@.take(i as int),
    {
        out.push(s[i]);
    }
    assert(s@.take(s@.len() as int) == s@);
}

/// The character sequences that a sequence of strings stands for.
pub open spec fn texts(ls: Seq<String>) -> Seq<Seq<char>> {
    Seq::new(ls.len(), |i: int| ls[i]@)
}

/// The character sequences that a sequence of character vectors stands for.
pub open spec fn line_texts(ls: Seq<Vec<char>>) -> Seq<Seq<char>> {
    Seq::new(ls.len(), |i: int| ls[i]@)
}

// ---------------------------------------------------------------------------
// Comparison and search
// ---------------------------------------------------------------------------
/// Whether two character slices hold the same text.
pub fn same(a: &[char], b: &[char]) -> (r: bool)
    ensures
        r == (a@ == b@),
{
    if a.len() != b.len() {
        return false;
    }
    for i in 0..a.len()
        invariant
            a@.len() == b@.len(),
            forall|j: int| 0 <= j < i ==> a@[j] == b@[j],
    {
        if a[i] != b[i] {
            return false;
        }
    }
    assert(a@ == b@);
    true
}

/// Whether two strings hold the same text.
pub fn same_str(a: &str, b: &str) -> (r: bool)
    ensures
        r == (a@ == b@),
{
    same(&chars_of(a), &chars_of(b))
}

/// Whether `s` begins with `p`.
pub fn starts_with(s: &[char], p: &[char]) -> (r: bool)
    ensures
        r == p@.is_prefix_of(s@),
{
    if s.len() < p.len() {
        return false;
    }
    for i in 0..p.len()
        invariant
            p@.len() <= s@.len(),
            forall|j: int| 0 <= j < i ==> p@[j] == s@[j],
    {
        if p[i] != s[i] {
            assert(p@[i as int] != s@.subrange(0, p@.len() as int)[i as int]);
            return false;
        }
    }
    assert(p@ == s@.subrange(0, p@.len() as int));
    true
}

/// Whether `s` begins with the string `p`.
pub fn starts_with_str(s: &[char], p: &str) -> (r: bool)
    ensures
        r == p@.is_prefix_of(s@),
{
    starts_with(s, &chars_of(p))
}

/// `p` occurs in `s`.
pub open spec fn occurs(p: Seq<char>, s: Seq<char>) -> bool {
    exists|i: int| 0 <= i <= s.len() && p.is_prefix_of(#[trigger] s.skip(i))
}

/// Whether `p` occurs in `s`.
pub fn contains(s: &[char], p: &[char]) -> (r: bool)
    ensures
        r == occurs(p@, s@),
{
    let mut i: usize = 0;
    while i < s.len()
        invariant
            0 <= i <= s@.len(),
            forall|j: int| 0 <= j < i ==> !p@.is_prefix_of(#[trigger] s@.skip(j)),
        decreases s@.len() - i,
    {
        let rest = slice_subrange(s, i, s.len());
        assert(rest@ == s@.skip(i as int));
        if starts_with(rest, p) {
            return true;
        }
        i += 1;
    }
    let rest = slice_subrange(s, i, s.len());
    assert(rest@ == s@.skip(i as int));
    starts_with(rest, p)
}

/// `s` with every occurrence of `pat`, taken left to right without overlap, replaced by `by`.
pub open spec fn replaced(s: Seq<char>, pat: Seq<char>, by: Seq<char>) -> Seq<char>
    decreases s.len(),
{
    if pat.len() == 0 || s.len() < pat.len() {
        s
    } else if pat.is_prefix_of(s) {
        by + replaced(s.skip(pat.len() as int), pat, by)
    } else {
        seq![s[0]] + replaced(s.skip(1), pat, by)
    }
}

/// Replaces every occurrence of the non-empty pattern `pat` in `s` by `by`.
pub fn replace(s: &str, pat: &str, by: &str) -> (r: String)
    requires
        pat@.len() > 0,
    ensures
        r@ == replaced(s@, pat@, by@),
{
    let cs = chars_of(s);
    let ps = chars_of(pat);
    let bs = chars_of(by);
    let mut out = String::new();
    let mut i: usize = 0;
    assert(cs@.skip(0) == s@);
    while i < cs.len()
        invariant
            0 <= i <= cs@.len(),
            ps@ == pat@,
            bs@ == by@,
            cs@ == s@,
            ps@.len() > 0,
            out@ + replaced(cs@.skip(i as int), pat@, by@) == replaced(s@, pat@, by@),
        decreases cs@.len() - i,
    {
        let rest = slice_subrange(cs.as_slice(), i, cs.len());
        assert(rest@ == cs@.skip(i as int));
        if starts_with(rest, &ps) {
            assert(rest@.skip(ps@.len() as int) == cs@.skip(i + ps@.len()));
            push_all(&mut out, &bs);
            i += ps.len();
        } else {
            assert(rest@.skip(1) == cs@.skip(i + 1));
            assert(replaced(rest@, pat@, by@) == seq![cs@[i as int]] + replaced(
                cs@.skip(i + 1),
                pat@,
                by@,
            )) by {
                if rest@.len() < pat@.len() {
                    assert(rest@ == seq![cs@[i as int]] + cs@.skip(i + 1));
                }
            }
            out.push(cs[i]);
            i += 1;
        }
    }
    assert(cs@.skip(i as int).len() == 0);
    assert(out@ == replaced(s@, pat@, by@));
    out
}

// ---------------------------------------------------------------------------
// Trimming
// ---------------------------------------------------------------------------
/// `s` without its leading white space.
pub open spec fn trimmed_start(s: Seq<char>) -> Seq<char>
    decreases s.len(),
{
    if s.len() > 0 && is_white(s[0]) {
        trimmed_start(s.skip(1))
    } else {
        s
    }
}

/// `s` without its trailing white space.
pub open spec fn trimmed_end(s: Seq<char>) -> Seq<char>
    decreases s.len(),
{
    if s.len() > 0 && is_white(s.last()) {
        trimmed_end(s.drop_last())
    } else {
        s
    }
}

/// `s` without its leading and trailing white space.
pub open spec fn trimmed(s: Seq<char>) -> Seq<char> {
    trimmed_end(trimmed_start(s))
}

/// The text is white space only.
pub open spec fn is_blank(w: Seq<char>) -> bool {
    forall|i: int| 0 <= i < w.len() ==> is_white(#[trigger] w[i])
}

/// White space is what Unicode takes for it: the controls from TAB to CR, the space, NEL, the
/// no-break space, the spaces of the blocks beyond Latin, and the two separators.
pub proof fn law_white_space(c: char)
    ensures
        is_white(c) <==> (9 <= c as u32 <= 13 || c as u32 == 0x20 || c as u32 == 0x85 || c as u32
            == 0xa0 || c as u32 == 0x1680 || 0x2000 <= c as u32 <= 0x200a || c as u32 == 0x2028
            || c as u32 == 0x2029 || c as u32 == 0x202f || c as u32 == 0x205f || c as u32
            == 0x3000),
{
}

/// White space before a text does not matter to the text without its leading white space.
pub proof fn law_leading_white_space_is_dropped(w: Seq<char>, s: Seq<char>)
    requires
        is_blank(w),
    ensures
        trimmed_start(w + s) == trimmed_start(s),
        s.len() == 0 || !is_white(s[0]) ==> trimmed_start(w + s) == s,
    decreases w.len(),
{
    if w.len() > 0 {
        let rest = w.skip(1);
        assert(is_white(w[0]));
        assert forall|i: int| 0 <= i < rest.len() implies is_white(#[trigger] rest[i]) by {
            assert(rest[i] == w[i + 1]);
        }
        assert((w + s).skip(1) == rest + s);
        law_leading_white_space_is_dropped(rest, s);
    } else {
        assert(w + s == s);
    }
}

/// White space behind a text does not matter to the text without its trailing white space.
pub proof fn law_trailing_white_space_is_dropped(s: Seq<char>, w: Seq<char>)
    requires
        is_blank(w),
    ensures
        trimmed_end(s + w) == trimmed_end(s),
        s.len() == 0 || !is_white(s.last()) ==> trimmed_end(s + w) == s,
    decreases w.len(),
{
    if w.len() > 0 {
        let rest = w.drop_last();
        assert(is_white(w[w.len() - 1]));
        assert forall|i: int| 0 <= i < rest.len() implies is_white(#[trigger] rest[i]) by {
            assert(rest[i] == w[i]);
        }
        assert((s + w).last() == w.last());
        assert((s + w).drop_last() == s + rest);
        law_trailing_white_space_is_dropped(s, rest);
    } else {
        assert(s + w == s);
    }
}

/// A text without its white space at both ends is what stands between them.
pub proof fn law_outer_white_space_is_dropped(w: Seq<char>, s: Seq<char>, z: Seq<char>)
    requires
        is_blank(w),
        is_blank(z),
        s.len() == 0 || (!is_white(s[0]) && !is_white(s.last())),
    ensures
        trimmed(w + s + z) == s,
{
    assert(w + s + z == w + (s + z));
    law_leading_white_space_is_dropped(w, s + z);
    if s.len() > 0 {
        assert((s + z)[0] == s[0]);
        assert(trimmed_start(s + z) == s + z);
    } else {
        assert(s + z == z);
        assert(z == z + s);
        law_leading_white_space_is_dropped(z, s);
        assert(s + trimmed_start(z) == trimmed_start(z));
        assert(trimmed_start(z) == s);
        assert(trimmed_end(s) == s);
    }
    law_trailing_white_space_is_dropped(s, z);
}

/// Only white space is dropped from the front of a text, and all of it.
pub proof fn law_trimmed_start_is_the_rest(s: Seq<char>) -> (n: int)
    ensures
        0 <= n <= s.len(),
        is_blank(s.take(n)),
        n < s.len() ==> !is_white(s[n]),
        trimmed_start(s) == s.skip(n),
    decreases s.len(),
{
    if s.len() > 0 && is_white(s[0]) {
        let k = law_trimmed_start_is_the_rest(s.skip(1));
        assert(s.skip(1).skip(k) == s.skip(k + 1));
        assert forall|i: int| 0 <= i < k + 1 implies is_white(#[trigger] s.take(k + 1)[i]) by {
            if i > 0 {
                assert(s.take(k + 1)[i] == s.skip(1).take(k)[i - 1]);
            }
        }
        k + 1
    } else {
        assert(s.skip(0) == s);
        0
    }
}

/// Drops leading white space.
pub fn trim_start(s: &[char]) -> (r: &[char])
    ensures
        r@ == trimmed_start(s@),
{
    let mut i: usize = 0;
    assert(s@.skip(0) == s@);
    while i < s.len() && is_whitespace(s[i])
        invariant
            0 <= i <= s@.len(),
            trimmed_start(s@.skip(i as int)) == trimmed_start(s@),
        decreases s@.len() - i,
    {
        assert(s@.skip(i as int).skip(1) == s@.skip(i + 1));
        i += 1;
    }
    let r = slice_subrange(s, i, s.len());
    assert(r@ == s@.skip(i as int));
    r
}

/// Drops trailing white space.
pub fn trim_end(s: &[char]) -> (r: &[char])
    ensures
        r@ == trimmed_end(s@),
{
    let mut n: usize = s.len();
    assert(s@.take(n as int) == s@);
    while n > 0 && is_whitespace(s[n - 1])
        invariant
            0 <= n <= s@.len(),
            trimmed_end(s@.take(n as int)) == trimmed_end(s@),
        decreases n,
    {
        assert(s@.take(n as int).drop_last() == s@.take(n - 1));
        n -= 1;
    }
    let r = slice_subrange(s, 0, n);
    assert(r@ == s@.take(n as int));
    r
}

/// Drops leading and trailing white space.
pub fn trim(s: &[char]) -> (r: &[char])
    ensures
        r@ == trimmed(s@),
{
    trim_end(trim_start(s))
}

// ---------------------------------------------------------------------------
// Lines
// ---------------------------------------------------------------------------
/// Position of the first line feed of `s`, or its length where there is none.
pub open spec fn line_end(s: Seq<char>) -> int
    decreases s.len(),
{
    if s.len() == 0 || s[0] == '\n' {
        0
    } else {
        1 + line_end(s.skip(1))
    }
}

/// `s` without one trailing carriage return.
pub open spec fn chop_cr(s: Seq<char>) -> Seq<char> {
    if s.len() > 0 && s.last() == '\r' {
        s.drop_last()
    } else {
        s
    }
}

/// The lines of `s`. A line ends at a line feed, which a carriage return may precede; neither is
/// part of the line. The last line may lack its line feed.
pub open spec fn lines_of(s: Seq<char>) -> Seq<Seq<char>>
    decreases s.len(),
{
    let n = line_end(s);
    if s.len() == 0 {
        seq![]
    } else if 0 <= n < s.len() {
        seq![chop_cr(s.take(n))] + lines_of(s.skip(n + 1))
    } else {
        seq![s]
    }
}

/// The text in which a line feed follows each of the given lines.
pub open spec fn unlines(ls: Seq<Seq<char>>) -> Seq<char>
    decreases ls.len(),
{
    if ls.len() == 0 {
        seq![]
    } else {
        unlines(ls.drop_last()) + ls.last() + seq!['\n']
    }
}

/// `line_end` finds the first line feed.
pub proof fn lemma_line_end(s: Seq<char>)
    ensures
        0 <= line_end(s) <= s.len(),
        forall|i: int| 0 <= i < line_end(s) ==> s[i] != '\n',
        line_end(s) < s.len() ==> s[line_end(s)] == '\n',
    decreases s.len(),
{
    if s.len() > 0 && s[0] != '\n' {
        lemma_line_end(s.skip(1));
        assert forall|i: int| 0 <= i < line_end(s) implies s[i] != '\n' by {
            if i > 0 {
                assert(s[i] == s.skip(1)[i - 1]);
            }
        }
    }
}

/// The position that `line_end` finds is the only one with its properties.
pub proof fn lemma_line_end_unique(s: Seq<char>, n: int)
    requires
        0 <= n <= s.len(),
        forall|i: int| 0 <= i < n ==> s[i] != '\n',
        n < s.len() ==> s[n] == '\n',
    ensures
        line_end(s) == n,
{
    lemma_line_end(s);
    if line_end(s) < n {
        assert(s[line_end(s)] != '\n');
    }
    if n < line_end(s) {
        assert(s[n] != '\n');
    }
}

/// The text of a list of lines begins with the first line.
pub proof fn lemma_unlines_front(ls: Seq<Seq<char>>)
    requires
        ls.len() > 0,
    ensures
        unlines(ls) == ls[0] + seq!['\n'] + unlines(ls.skip(1)),
    decreases ls.len(),
{
    if ls.len() == 1 {
        assert(ls.drop_last() == Seq::<Seq<char>>::empty());
        assert(ls.skip(1) == Seq::<Seq<char>>::empty());
        assert(unlines(ls) == ls[0] + seq!['\n'] + unlines(ls.skip(1)));
    } else {
        lemma_unlines_front(ls.drop_last());
        assert(ls.drop_last().skip(1) == ls.skip(1).drop_last());
        assert(unlines(ls) == ls[0] + seq!['\n'] + unlines(ls.skip(1)));
    }
}

/// A line that `lines_of` gives back as it is: it holds no line feed and does not end in a
/// carriage return.
pub open spec fn is_plain_line(l: Seq<char>) -> bool {
    &&& forall|i: int| 0 <= i < l.len() ==> l[i] != '\n'
    &&& l.len() > 0 ==> l.last() != '\r'
}

/// Lines written out before a text come before the lines of that text.
pub proof fn law_lines_before_text(ls: Seq<Seq<char>>, t: Seq<char>)
    requires
        forall|i: int| 0 <= i < ls.len() ==> is_plain_line(#[trigger] ls[i]),
    ensures
        lines_of(unlines(ls) + t) == ls + lines_of(t),
    decreases ls.len(),
{
    let s = unlines(ls) + t;
    if ls.len() > 0 {
        lemma_unlines_front(ls);
        let n = ls[0].len() as int;
        assert(is_plain_line(ls[0]));
        assert forall|i: int| 0 <= i < n implies s[i] != '\n' by {
            assert(s[i] == ls[0][i]);
        }
        lemma_line_end_unique(s, n);
        assert(s.take(n) == ls[0]);
        assert(s.skip(n + 1) == unlines(ls.skip(1)) + t);
        assert forall|i: int| 0 <= i < ls.skip(1).len() implies is_plain_line(
            #[trigger] ls.skip(1)[i],
        ) by {
            assert(is_plain_line(ls[i + 1]));
        }
        law_lines_before_text(ls.skip(1), t);
        assert(lines_of(s) == ls + lines_of(t));
    } else {
        assert(s == t);
        assert(lines_of(s) == ls + lines_of(t));
    }
}

/// Lines written out one after the other are read back as they were.
pub proof fn law_lines_read_back(ls: Seq<Seq<char>>)
    requires
        forall|i: int| 0 <= i < ls.len() ==> is_plain_line(#[trigger] ls[i]),
    ensures
        lines_of(unlines(ls)) == ls,
{
    let none = Seq::<char>::empty();
    law_lines_before_text(ls, none);
    assert(unlines(ls) + none == unlines(ls));
    assert(ls + lines_of(none) == ls);
}

/// No line holds a line feed.
pub proof fn lemma_lines_hold_no_line_feed(s: Seq<char>)
    ensures
        forall|i: int, j: int|
            0 <= i < lines_of(s).len() && 0 <= j < lines_of(s)[i].len()
                ==> #[trigger] lines_of(s)[i][j] != '\n',
    decreases s.len(),
{
    lemma_line_end(s);
    let n = line_end(s);
    if s.len() > 0 {
        if n < s.len() {
            lemma_lines_hold_no_line_feed(s.skip(n + 1));
            let ls = lines_of(s);
            let tail = lines_of(s.skip(n + 1));
            assert forall|i: int, j: int| 0 <= i < ls.len() && 0 <= j < ls[i].len() implies
                #[trigger] ls[i][j] != '\n' by {
                if i == 0 {
                    assert(ls[i][j] == s[j]);
                } else {
                    assert(ls[i] == tail[i - 1]);
                    assert(tail[i - 1][j] != '\n');
                }
            }
        }
    }
}

/// A text falls into lines at its line feeds. A carriage return before a line feed belongs to
/// the end of the line, and a text behind the last line feed is a line too, if it is not empty.
pub proof fn law_text_falls_into_lines(l: Seq<char>, t: Seq<char>)
    requires
        forall|i: int| 0 <= i < l.len() ==> l[i] != '\n',
    ensures
        lines_of(l + seq!['\r', '\n'] + t) == seq![l] + lines_of(t),
        l.len() == 0 || l.last() != '\r' ==> lines_of(l + seq!['\n'] + t) == seq![l] + lines_of(t),
        l.len() > 0 ==> lines_of(l) == seq![l],
        lines_of(Seq::<char>::empty()) == Seq::<Seq<char>>::empty(),
{
    let a = l + seq!['\r', '\n'] + t;
    lemma_line_end_unique(a, l.len() as int + 1);
    assert(a.take(l.len() as int + 1).drop_last() == l);
    assert(a.take(l.len() as int + 1).last() == '\r');
    assert(a.skip(l.len() as int + 2) == t);
    let b = l + seq!['\n'] + t;
    lemma_line_end_unique(b, l.len() as int);
    assert(b.take(l.len() as int) == l);
    assert(b.skip(l.len() as int + 1) == t);
    lemma_line_end_unique(l, l.len() as int);
}

/// Lines are written out one after the other, each with a line feed behind it.
pub proof fn law_lines_are_written_out(a: Seq<Seq<char>>, b: Seq<Seq<char>>, l: Seq<char>)
    ensures
        unlines(a + b) == unlines(a) + unlines(b),
        unlines(seq![l]) == l + seq!['\n'],
        unlines(Seq::<Seq<char>>::empty()) == Seq::<char>::empty(),
    decreases b.len(),
{
    assert(seq![l].drop_last() == Seq::<Seq<char>>::empty());
    assert(unlines(seq![l]) == l + seq!['\n']) by {
        reveal_with_fuel(unlines, 2);
    }
    if b.len() > 0 {
        law_lines_are_written_out(a, b.drop_last(), l);
        assert((a + b).drop_last() == a + b.drop_last());
        assert((a + b).last() == b.last());
        assert(unlines(a + b) == unlines(a) + unlines(b));
    } else {
        assert(a + b == a);
        assert(unlines(a + b) == unlines(a) + unlines(b));
    }
}

/// Splits a text into its lines.
pub fn lines(s: &str) -> (r: Vec<Vec<char>>)
    ensures
        line_texts(r@) == lines_of(s@),
{
    let cs = chars_of(s);
    let mut r: Vec<Vec<char>> = Vec::new();
    let mut i: usize = 0;
    assert(cs@.skip(0) == s@);
    while i < cs.len()
        invariant
            0 <= i <= cs@.len(),
            cs@ == s@,
            line_texts(r@) + lines_of(cs@.skip(i as int)) == lines_of(s@),
        decreases cs@.len() - i,
    {
        let mut j: usize = i;
        while j < cs.len() && cs[j] != '\n'
            invariant
                i <= j <= cs@.len(),
                forall|k: int| i <= k < j ==> cs@[k] != '\n',
            decreases cs@.len() - j,
        {
            j += 1;
        }
        let ghost rest = cs@.skip(i as int);
        let ghost before = line_texts(r@);
        proof {
            lemma_line_end_unique(rest, j - i);
        }
        if j < cs.len() {
            let end: usize = if j > i && cs[j - 1] == '\r' {
                j - 1
            } else {
                j
            };
            let line = slice_to_vec(slice_subrange(cs.as_slice(), i, end));
            assert(line@ == chop_cr(rest.take(j - i)));
            assert(rest.skip(j - i + 1) == cs@.skip(j + 1));
            r.push(line);
            assert(line_texts(r@) == before.push(line@));
            i = j + 1;
        } else {
            let line = slice_to_vec(slice_subrange(cs.as_slice(), i, j));
            assert(line@ == rest);
            r.push(line);
            assert(line_texts(r@) == before.push(line@));
            i = j;
            assert(cs@.skip(i as int).len() == 0);
        }
    }
    assert(cs@.skip(i as int).len() == 0);
    assert(line_texts(r@) == lines_of(s@));
    r
}

// ---------------------------------------------------------------------------
// Joining
// ---------------------------------------------------------------------------
/// The given parts with `sep` between neighbours.
pub open spec fn joined(parts: Seq<Seq<char>>, sep: Seq<char>) -> Seq<char>
    decreases parts.len(),
{
    if parts.len() == 0 {
        seq![]
    } else if parts.len() == 1 {
        parts[0]
    } else {
        joined(parts.drop_last(), sep) + sep + parts.last()
    }
}

/// Joins strings with a separator.
pub fn join(parts: &Vec<String>, sep: &str) -> (r: String)
    ensures
        r@ == joined(texts(parts@), sep@),
{
    let mut out = String::new();
    for i in 0..parts.len()
        invariant
            out@ == joined(texts(parts@).take(i as int), sep@),
    {
        let ghost before = texts(parts@).take(i as int);
        let ghost after = texts(parts@).take(i + 1);
        assert(after.drop_last() == before);
        if i > 0 {
            out.append(sep);
        }
        out.append(parts[i].as_str());
        assert(out@ == joined(after, sep@));
    }
    assert(texts(parts@).take(parts@.len() as int) == texts(parts@));
    out
}

// ---------------------------------------------------------------------------
// Laws of joining, search and replacement
// ---------------------------------------------------------------------------
/// Joined parts stand one behind the other with the separator between neighbours, and nowhere
/// else.
pub proof fn law_separator_stands_between(first: Seq<char>, parts: Seq<Seq<char>>, sep: Seq<char>)
    ensures
        joined(seq![first], sep) == first,
        joined(Seq::<Seq<char>>::empty(), sep) == Seq::<char>::empty(),
        parts.len() > 0 ==> joined(seq![first] + parts, sep) == first + sep + joined(parts, sep),
    decreases parts.len(),
{
    let all = seq![first] + parts;
    if parts.len() == 1 {
        assert(all.drop_last() == seq![first]);
        assert(joined(seq![first], sep) == first);
        assert(all.last() == parts[0]);
        assert(joined(all, sep) == first + sep + joined(parts, sep));
    } else if parts.len() > 1 {
        law_separator_stands_between(first, parts.drop_last(), sep);
        assert(all.drop_last() == seq![first] + parts.drop_last());
        assert(all.last() == parts.last());
        assert(joined(all, sep) == first + sep + joined(parts, sep));
    }
}

/// A text occurs in one that holds it between others.
pub proof fn law_part_occurs(a: Seq<char>, p: Seq<char>, b: Seq<char>)
    ensures
        occurs(p, a + p + b),
{
    let s = a + p + b;
    assert(s.skip(a.len() as int).take(p.len() as int) == p);
    assert(p.is_prefix_of(s.skip(a.len() as int)));
}

/// A text in which the pattern does not occur is left as it is.
pub proof fn law_other_text_is_not_replaced(s: Seq<char>, pat: Seq<char>, by: Seq<char>)
    requires
        pat.len() > 0,
        !occurs(pat, s),
    ensures
        replaced(s, pat, by) == s,
    decreases s.len(),
{
    if s.len() >= pat.len() {
        assert(s.skip(0) == s);
        assert(!pat.is_prefix_of(s.skip(0)));
        if occurs(pat, s.skip(1)) {
            let i = choose|i: int|
                0 <= i <= s.skip(1).len() && pat.is_prefix_of(#[trigger] s.skip(1).skip(i));
            assert(s.skip(1).skip(i) == s.skip(i + 1));
        }
        law_other_text_is_not_replaced(s.skip(1), pat, by);
        assert(seq![s[0]] + s.skip(1) == s);
    }
}

/// What cannot begin the pattern stays, and with what stands behind it the same goes on.
pub proof fn law_text_before_pattern_stays(
    a: Seq<char>,
    b: Seq<char>,
    pat: Seq<char>,
    by: Seq<char>,
)
    requires
        pat.len() > 0,
        forall|i: int| 0 <= i < a.len() ==> !pat.is_prefix_of(#[trigger] (a + b).skip(i)),
    ensures
        replaced(a + b, pat, by) == a + replaced(b, pat, by),
    decreases a.len(),
{
    let s = a + b;
    if a.len() > 0 {
        let rest = a.skip(1);
        assert(s.skip(0) == s);
        assert(!pat.is_prefix_of(s.skip(0)));
        assert(s.skip(1) == rest + b);
        assert forall|i: int| 0 <= i < rest.len() implies !pat.is_prefix_of(
            #[trigger] (rest + b).skip(i),
        ) by {
            assert((rest + b).skip(i) == s.skip(i + 1));
        }
        law_text_before_pattern_stays(rest, b, pat, by);
        assert(seq![a[0]] + (rest + replaced(b, pat, by)) == a + replaced(b, pat, by));
        if s.len() < pat.len() {
            assert(replaced(b, pat, by) == b);
        }
    } else {
        assert(s == b);
        assert(a + replaced(b, pat, by) == replaced(b, pat, by));
    }
}

/// The first occurrence of the pattern is replaced, what stands before it stays, and with what
/// stands behind it the same goes on.
pub proof fn law_first_occurrence_is_replaced(
    a: Seq<char>,
    pat: Seq<char>,
    b: Seq<char>,
    by: Seq<char>,
)
    requires
        pat.len() > 0,
        forall|i: int| 0 <= i < a.len() ==> !pat.is_prefix_of(#[trigger] (a + pat + b).skip(i)),
    ensures
        replaced(a + pat + b, pat, by) == a + by + replaced(b, pat, by),
{
    let rest = pat + b;
    assert(a + pat + b == a + rest);
    law_text_before_pattern_stays(a, rest, pat, by);
    lemma_pattern_in_front(pat, b, by);
    assert(a + (by + replaced(b, pat, by)) == a + by + replaced(b, pat, by));
}

/// A pattern in front of a text is replaced.
proof fn lemma_pattern_in_front(pat: Seq<char>, b: Seq<char>, by: Seq<char>)
    requires
        pat.len() > 0,
    ensures
        replaced(pat + b, pat, by) == by + replaced(b, pat, by),
{
    let s = pat + b;
    assert(s.take(pat.len() as int) == pat);
    assert(s.skip(pat.len() as int) == b);
}

/// The control characters: those up to 0x1F and those from 0x7F to 0x9F. In ASCII these are the
/// ones up to 0x1F, and DEL.
pub proof fn law_control_characters(c: char)
    ensures
        is_ctrl(c) <==> c as u32 <= 0x1f || 0x7f <= c as u32 <= 0x9f,
        is_ascii_ctrl(c) <==> is_ctrl(c) && c as u32 <= 0x7f,
{
}

} // verus!
