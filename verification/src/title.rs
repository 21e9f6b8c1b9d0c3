//! The title of a markdown page.

use vstd::prelude::*;
use vstd::slice::slice_subrange;
use vstd::utf8::{decode_utf8, valid_utf8};

use crate::text::{
    chars_of, is_blank, is_white, law_leading_white_space_is_dropped,
    law_outer_white_space_is_dropped, law_trimmed_start_is_the_rest, starts_with_str, string_of,
    trim, trim_start, trimmed, trimmed_start,
};
use crate::utf8::{from_utf8, opt_text, utf8};

verus! {

/// The line feed.
pub const LF: u8 = 10;

/// Length of the first line of `b`, with its line feed.
pub open spec fn first_line_len(b: Seq<u8>) -> int
    decreases b.len(),
{
    if b.len() == 0 {
        0
    } else if b[0] == LF {
        1
    } else {
        1 + first_line_len(b.skip(1))
    }
}

proof fn lemma_first_line_len(b: Seq<u8>, n: int)
    requires
        0 <= n <= b.len(),
        forall|i: int| 0 <= i < n ==> b[i] != LF,
        n < b.len() ==> b[n] == LF,
    ensures
        first_line_len(b) == if n < b.len() { n + 1 } else { n },
    decreases b.len(),
{
    if b.len() > 0 && b[0] != LF {
        assert forall|i: int| 0 <= i < n - 1 implies b.skip(1)[i] != LF by {
            assert(b.skip(1)[i] == b[i + 1]);
        }
        lemma_first_line_len(b.skip(1), n - 1);
    }
}

/// The text of a top-level heading, if the line is one.
pub open spec fn heading(line: Seq<char>) -> Option<Seq<char>> {
    let t = trimmed_start(line);
    if "# "@.is_prefix_of(t) {
        Some(trimmed(t.skip("# "@.len() as int)))
    } else {
        None
    }
}

/// The first top-level heading of a page. The search ends at a line that is not valid UTF-8.
pub open spec fn title_in(b: Seq<u8>) -> Option<Seq<char>>
    decreases b.len(),
{
    let n = first_line_len(b);
    if b.len() == 0 || !(0 < n <= b.len()) {
        None
    } else {
        match utf8(b.take(n)) {
            None => None,
            Some(line) => match heading(line) {
                Some(h) => Some(h),
                None => title_in(b.skip(n)),
            },
        }
    }
}

/// The text of the line's heading, if it is a top-level one.
fn heading_of(line: &str) -> (r: Option<String>)
    ensures
        opt_text(r) == heading(line@),
{
    let cs = chars_of(line);
    let t = trim_start(cs.as_slice());
    if starts_with_str(t, "# ") {
        proof {
            reveal_strlit("# ");
        }
        let rest = slice_subrange(t, 2, t.len());
        assert(rest@ == t@.skip(2));
        Some(string_of(trim(rest)))
    } else {
        None
    }
}

/// Finds the title of a page: the text of its first top-level heading.
pub fn read_title(content: &[u8]) -> (r: Option<String>)
    ensures
        opt_text(r) == title_in(content@),
{
    let mut i: usize = 0;
    assert(content@.skip(0) == content@);
    while i < content.len()
        invariant
            0 <= i <= content@.len(),
            title_in(content@.skip(i as int)) == title_in(content@),
        decreases content@.len() - i,
    {
        let ghost rest = content@.skip(i as int);
        let mut j: usize = i;
        while j < content.len() && content[j] != LF
            invariant
                i <= j <= content@.len(),
                forall|k: int| i <= k < j ==> content@[k] != LF,
            decreases content@.len() - j,
        {
            j += 1;
        }
        proof {
            lemma_first_line_len(rest, j - i);
        }
        if j < content.len() {
            j += 1;
        }
        let line = slice_subrange(content, i, j);
        assert(line@ == rest.take(j - i));
        assert(rest.skip(j - i) == content@.skip(j as int));
        match from_utf8(line) {
            None => {
                return None;
            },
            Some(t) => {
                let h = heading_of(t);
                if h.is_some() {
                    return h;
                }
            },
        }
        i = j;
    }
    assert(content@.skip(i as int).len() == 0);
    None
}

// ---------------------------------------------------------------------------
// Laws
// ---------------------------------------------------------------------------
/// The bytes from `i` to `j` are a line of the page `b`, with the line feed at its end. The last
/// line may lack it.
pub open spec fn is_line(b: Seq<u8>, i: int, j: int) -> bool {
    &&& 0 <= i < j <= b.len()
    &&& i == 0 || b[i - 1] == 10
    &&& j == b.len() || b[j - 1] == 10
    &&& forall|k: int| i <= k < j - 1 ==> b[k] != 10
}

/// The bytes from `i` to `j` are text, and that text is no top-level heading.
pub open spec fn is_other_text(b: Seq<u8>, i: int, j: int) -> bool {
    valid_utf8(b.subrange(i, j)) && heading(decode_utf8(b.subrange(i, j))) is None
}

/// The bytes from `i` to `j` are the first line of the page `b` that is a top-level heading, and
/// all lines before it are text.
pub open spec fn is_first_heading(b: Seq<u8>, i: int, j: int) -> bool {
    &&& is_line(b, i, j)
    &&& valid_utf8(b.subrange(i, j))
    &&& heading(decode_utf8(b.subrange(i, j))) is Some
    &&& forall|p: int, q: int| #[trigger] is_line(b, p, q) && q <= i ==> is_other_text(b, p, q)
}

/// The first line of a page, and how the other lines are those of the rest.
proof fn lemma_lines_of_page(b: Seq<u8>)
    requires
        b.len() > 0,
    ensures
        0 < first_line_len(b) <= b.len(),
        is_line(b, 0, first_line_len(b)),
        b.take(first_line_len(b)) == b.subrange(0, first_line_len(b)),
        forall|i: int, j: int| #[trigger]
            is_line(b, i, j) ==> (i == 0 && j == first_line_len(b)) || (i >= first_line_len(b)
                && is_line(b.skip(first_line_len(b)), i - first_line_len(b), j - first_line_len(b))
                && b.subrange(i, j) == b.skip(first_line_len(b)).subrange(
                i - first_line_len(b),
                j - first_line_len(b),
            )),
        forall|i: int, j: int| #[trigger]
            is_line(b.skip(first_line_len(b)), i, j) ==> is_line(
                b,
                i + first_line_len(b),
                j + first_line_len(b),
            ) && b.skip(first_line_len(b)).subrange(i, j) == b.subrange(
                i + first_line_len(b),
                j + first_line_len(b),
            ),
{
    let n = first_line_len(b);
    lemma_first_line_shape(b);
    let rest = b.skip(n);
    assert forall|i: int, j: int| #[trigger] is_line(b, i, j) implies (i == 0 && j == n) || (i >= n
        && is_line(rest, i - n, j - n) && b.subrange(i, j) == rest.subrange(i - n, j - n)) by {
        if i == 0 {
            if j < n {
                assert(b[j - 1] != 10);
            }
            if j > n {
                assert(b[n - 1] == 10);
            }
        } else {
            if i < n {
                assert(b[i - 1] != 10);
            }
            assert forall|k: int| i - n <= k < j - n - 1 implies rest[k] != 10 by {
                assert(rest[k] == b[k + n]);
            }
            if i > n {
                assert(rest[i - n - 1] == b[i - 1]);
            }
            assert(rest[j - n - 1] == b[j - 1]);
            assert(b.subrange(i, j) == rest.subrange(i - n, j - n));
        }
    }
    assert forall|i: int, j: int| #[trigger] is_line(rest, i, j) implies is_line(b, i + n, j + n)
        && rest.subrange(i, j) == b.subrange(i + n, j + n) by {
        assert forall|k: int| i + n <= k < j + n - 1 implies b[k] != 10 by {
            assert(rest[k - n] == b[k]);
        }
        if i > 0 {
            assert(rest[i - 1] == b[i + n - 1]);
        } else {
            assert(n < b.len());
            assert(b[n - 1] == 10);
        }
        assert(rest[j - 1] == b[j + n - 1]);
        assert(rest.subrange(i, j) == b.subrange(i + n, j + n));
    }
}

/// The first line ends behind the first line feed, or with the page.
proof fn lemma_first_line_shape(b: Seq<u8>)
    requires
        b.len() > 0,
    ensures
        0 < first_line_len(b) <= b.len(),
        forall|k: int| 0 <= k < first_line_len(b) - 1 ==> b[k] != 10,
        first_line_len(b) < b.len() ==> b[first_line_len(b) - 1] == 10,
    decreases b.len(),
{
    if b[0] != LF && b.len() > 1 {
        let rest = b.skip(1);
        lemma_first_line_shape(rest);
        assert forall|k: int| 0 <= k < first_line_len(b) - 1 implies b[k] != 10 by {
            if k > 0 {
                assert(rest[k - 1] == b[k]);
            }
        }
        if first_line_len(b) < b.len() {
            assert(rest[first_line_len(rest) - 1] == b[first_line_len(b) - 1]);
        }
    } else if b[0] != LF {
        assert(first_line_len(b.skip(1)) == 0);
    }
}

/// The title of a page is its first top-level heading, however far down in the page it stands and
/// whatever text stands before it.
pub proof fn law_title_is_first_heading(b: Seq<u8>, i: int, j: int)
    requires
        is_first_heading(b, i, j),
    ensures
        title_in(b) == heading(decode_utf8(b.subrange(i, j))),
    decreases b.len(),
{
    let n = first_line_len(b);
    lemma_lines_of_page(b);
    assert(is_line(b, 0, n));
    if i > 0 {
        let rest = b.skip(n);
        assert(is_other_text(b, 0, n));
        assert forall|p: int, q: int| #[trigger] is_line(rest, p, q) && q <= i - n implies
            is_other_text(rest, p, q) by {
            assert(is_line(b, p + n, q + n));
        }
        assert(is_line(rest, i - n, j - n));
        law_title_is_first_heading(rest, i - n, j - n);
    }
}

/// A page that has a title has a first top-level heading; so one without a title has no
/// top-level heading, unless a line before it is not text.
pub proof fn law_title_stands_in_page(b: Seq<u8>)
    requires
        title_in(b) is Some,
    ensures
        exists|i: int, j: int| #[trigger] is_first_heading(b, i, j),
    decreases b.len(),
{
    let n = first_line_len(b);
    lemma_lines_of_page(b);
    let line = b.subrange(0, n);
    if heading(decode_utf8(line)) is Some {
        assert(is_first_heading(b, 0, n));
    } else {
        let rest = b.skip(n);
        law_title_stands_in_page(rest);
        let (i, j) = choose|i: int, j: int| #[trigger] is_first_heading(rest, i, j);
        assert(is_line(b, i + n, j + n));
        assert forall|p: int, q: int| #[trigger] is_line(b, p, q) && q <= i + n implies
            is_other_text(b, p, q) by {
            if p > 0 {
                assert(is_line(rest, p - n, q - n));
                assert(is_other_text(rest, p - n, q - n));
            }
        }
        assert(is_first_heading(b, i + n, j + n));
    }
}

/// A top-level heading is a number sign and a space, which white space may precede. Its text is
/// what stands behind them, without the white space around it.
pub proof fn law_heading_is_read(w: Seq<char>, a: Seq<char>, text: Seq<char>, z: Seq<char>)
    requires
        is_blank(w),
        is_blank(a),
        is_blank(z),
        text.len() == 0 || (!is_white(text[0]) && !is_white(text.last())),
    ensures
        heading(w + seq!['#', ' '] + (a + text + z)) == Some(text),
{
    reveal_strlit("# ");
    assert("# "@ == seq!['#', ' ']);
    let inner = a + text + z;
    let t = seq!['#', ' '] + inner;
    assert(w + seq!['#', ' '] + inner == w + t);
    law_leading_white_space_is_dropped(w, t);
    assert(t.take(2) == "# "@);
    assert(t.skip(2) == inner);
    law_outer_white_space_is_dropped(a, text, z);
}

/// Nothing else is a top-level heading.
pub proof fn law_only_headings_are_read(line: Seq<char>)
    requires
        heading(line) is Some,
    ensures
        exists|n: int|
            0 <= n && n + 1 < line.len() && is_blank(#[trigger] line.take(n)) && line[n] == '#'
                && line[n + 1] == ' ',
{
    reveal_strlit("# ");
    let n = law_trimmed_start_is_the_rest(line);
    let t = line.skip(n);
    assert("# "@ == t.take(2));
    assert("# "@[0] == t[0] && "# "@[1] == t[1]);
    assert(is_blank(line.take(n)));
}

} // verus!
