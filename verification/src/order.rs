//! The order of byte strings and of paths, and ascending lists of paths.

use vstd::prelude::*;

use crate::os_path::{byte_strings, lemma_segments_rejoin, same_bytes, segments, segments_of};

verus! {

/// `a` comes no later than `b` in the order that compares byte by byte, a prefix first.
pub open spec fn lex_le(a: Seq<u8>, b: Seq<u8>) -> bool
    decreases a.len(),
{
    if a.len() == 0 {
        true
    } else if b.len() == 0 {
        false
    } else if a[0] != b[0] {
        a[0] < b[0]
    } else {
        lex_le(a.skip(1), b.skip(1))
    }
}

/// A byte string comes no later than itself.
pub proof fn lemma_lex_reflexive(a: Seq<u8>)
    ensures
        lex_le(a, a),
    decreases a.len(),
{
    if a.len() > 0 {
        lemma_lex_reflexive(a.skip(1));
    }
}

/// Of two byte strings one comes no later than the other.
pub proof fn lemma_lex_total(a: Seq<u8>, b: Seq<u8>)
    ensures
        lex_le(a, b) || lex_le(b, a),
    decreases a.len(),
{
    if a.len() > 0 && b.len() > 0 && a[0] == b[0] {
        lemma_lex_total(a.skip(1), b.skip(1));
    }
}

/// Byte strings that come no later than each other are equal.
pub proof fn lemma_lex_antisymmetric(a: Seq<u8>, b: Seq<u8>)
    requires
        lex_le(a, b),
        lex_le(b, a),
    ensures
        a == b,
    decreases a.len(),
{
    if a.len() > 0 && b.len() > 0 {
        lemma_lex_antisymmetric(a.skip(1), b.skip(1));
        assert(a == seq![a[0]] + a.skip(1));
        assert(b == seq![b[0]] + b.skip(1));
    } else {
        assert(a == b);
    }
}

/// The order is transitive.
pub proof fn lemma_lex_transitive(a: Seq<u8>, b: Seq<u8>, c: Seq<u8>)
    requires
        lex_le(a, b),
        lex_le(b, c),
    ensures
        lex_le(a, c),
    decreases a.len(),
{
    if a.len() > 0 && b.len() > 0 && c.len() > 0 && a[0] == b[0] && b[0] == c[0] {
        lemma_lex_transitive(a.skip(1), b.skip(1), c.skip(1));
    }
}

/// Whether `a` comes no later than `b`.
pub fn le_bytes(a: &[u8], b: &[u8]) -> (r: bool)
    ensures
        r == lex_le(a@, b@),
{
    let mut i: usize = 0;
    assert(a@.skip(0) == a@);
    assert(b@.skip(0) == b@);
    while i < a.len()
        invariant
            0 <= i <= a@.len(),
            i <= b@.len(),
            lex_le(a@.skip(i as int), b@.skip(i as int)) == lex_le(a@, b@),
        decreases a@.len() - i,
    {
        if i >= b.len() {
            return false;
        }
        if a[i] != b[i] {
            return a[i] < b[i];
        }
        assert(a@.skip(i as int).skip(1) == a@.skip(i + 1));
        assert(b@.skip(i as int).skip(1) == b@.skip(i + 1));
        i += 1;
    }
    true
}

/// The path with the parts `a` comes no later than that with the parts `b`: the first parts that
/// differ decide, and a path comes before those that it leads to.
pub open spec fn parts_le(a: Seq<Seq<u8>>, b: Seq<Seq<u8>>) -> bool
    decreases a.len(),
{
    if a.len() == 0 {
        true
    } else if b.len() == 0 {
        false
    } else if a[0] != b[0] {
        lex_le(a[0], b[0])
    } else {
        parts_le(a.skip(1), b.skip(1))
    }
}

/// The path `a` comes no later than the path `b` in the order that compares name by name.
pub open spec fn path_le(a: Seq<u8>, b: Seq<u8>) -> bool {
    parts_le(segments(a), segments(b))
}

proof fn lemma_parts_reflexive(a: Seq<Seq<u8>>)
    ensures
        parts_le(a, a),
    decreases a.len(),
{
    if a.len() > 0 {
        lemma_parts_reflexive(a.skip(1));
    }
}

proof fn lemma_parts_total(a: Seq<Seq<u8>>, b: Seq<Seq<u8>>)
    ensures
        parts_le(a, b) || parts_le(b, a),
    decreases a.len(),
{
    if a.len() > 0 && b.len() > 0 {
        lemma_lex_total(a[0], b[0]);
        if a[0] == b[0] {
            lemma_parts_total(a.skip(1), b.skip(1));
        }
    }
}

proof fn lemma_parts_antisymmetric(a: Seq<Seq<u8>>, b: Seq<Seq<u8>>)
    requires
        parts_le(a, b),
        parts_le(b, a),
    ensures
        a == b,
    decreases a.len(),
{
    if a.len() > 0 && b.len() > 0 {
        if a[0] != b[0] {
            lemma_lex_antisymmetric(a[0], b[0]);
        }
        lemma_parts_antisymmetric(a.skip(1), b.skip(1));
        assert(a == seq![a[0]] + a.skip(1));
        assert(b == seq![b[0]] + b.skip(1));
    } else {
        assert(a == b);
    }
}

proof fn lemma_parts_transitive(a: Seq<Seq<u8>>, b: Seq<Seq<u8>>, c: Seq<Seq<u8>>)
    requires
        parts_le(a, b),
        parts_le(b, c),
    ensures
        parts_le(a, c),
    decreases a.len(),
{
    if a.len() > 0 && b.len() > 0 && c.len() > 0 {
        if a[0] == b[0] && b[0] == c[0] {
            lemma_parts_transitive(a.skip(1), b.skip(1), c.skip(1));
        } else if a[0] != b[0] && b[0] != c[0] {
            lemma_lex_transitive(a[0], b[0], c[0]);
            if a[0] == c[0] {
                lemma_lex_antisymmetric(a[0], b[0]);
            }
        }
    }
}

/// A path comes no later than itself.
pub proof fn lemma_path_reflexive(a: Seq<u8>)
    ensures
        path_le(a, a),
{
    lemma_parts_reflexive(segments(a));
}

/// Of two paths one comes no later than the other.
pub proof fn lemma_path_total(a: Seq<u8>, b: Seq<u8>)
    ensures
        path_le(a, b) || path_le(b, a),
{
    lemma_parts_total(segments(a), segments(b));
}

/// Paths that come no later than each other are equal.
pub proof fn lemma_path_antisymmetric(a: Seq<u8>, b: Seq<u8>)
    requires
        path_le(a, b),
        path_le(b, a),
    ensures
        a == b,
{
    lemma_parts_antisymmetric(segments(a), segments(b));
    lemma_segments_rejoin(a);
    lemma_segments_rejoin(b);
}

/// The order of paths is transitive.
pub proof fn lemma_path_transitive(a: Seq<u8>, b: Seq<u8>, c: Seq<u8>)
    requires
        path_le(a, b),
        path_le(b, c),
    ensures
        path_le(a, c),
{
    lemma_parts_transitive(segments(a), segments(b), segments(c));
}

/// Whether the path `a` comes no later than the path `b`.
pub fn le_paths(a: &[u8], b: &[u8]) -> (r: bool)
    ensures
        r == path_le(a@, b@),
{
    let x = segments_of(a);
    let y = segments_of(b);
    let ghost xs = byte_strings(x@);
    let ghost ys = byte_strings(y@);
    let mut i: usize = 0;
    assert(xs.skip(0) == xs);
    assert(ys.skip(0) == ys);
    while i < x.len()
        invariant
            0 <= i <= x@.len(),
            i <= y@.len(),
            xs == byte_strings(x@),
            ys == byte_strings(y@),
            xs == segments(a@),
            ys == segments(b@),
            parts_le(xs.skip(i as int), ys.skip(i as int)) == parts_le(xs, ys),
        decreases x@.len() - i,
    {
        if i >= y.len() {
            assert(ys.skip(i as int).len() == 0);
            return false;
        }
        assert(xs.skip(i as int)[0] == x@[i as int]@);
        assert(ys.skip(i as int)[0] == y@[i as int]@);
        if !same_bytes(x[i].as_slice(), y[i].as_slice()) {
            return le_bytes(x[i].as_slice(), y[i].as_slice());
        }
        assert(xs.skip(i as int).skip(1) == xs.skip(i + 1));
        assert(ys.skip(i as int).skip(1) == ys.skip(i + 1));
        i += 1;
    }
    true
}

/// The list of paths is ascending and holds nothing twice.
pub open spec fn ascending(s: Seq<Seq<u8>>) -> bool {
    forall|i: int, j: int|
        #![trigger s[i], s[j]]
        0 <= i < j < s.len() ==> s[i] != s[j] && path_le(s[i], s[j])
}

/// Two ascending lists of the same paths are equal.
pub proof fn lemma_ascending_unique(a: Seq<Seq<u8>>, b: Seq<Seq<u8>>)
    requires
        ascending(a),
        ascending(b),
        a.to_set() == b.to_set(),
    ensures
        a == b,
    decreases a.len(),
{
    if a.len() == 0 {
        if b.len() > 0 {
            assert(b.to_set().contains(b[0]));
            assert(a.to_set().contains(b[0]));
        }
        assert(a == b);
    } else if b.len() == 0 {
        assert(a.to_set().contains(a[0]));
        assert(b.to_set().contains(a[0]));
    } else {
        assert(a.to_set().contains(a.last()));
        assert(b.to_set().contains(b.last()));
        assert(b.contains(a.last()));
        assert(a.contains(b.last()));
        let i = choose|i: int| 0 <= i < b.len() && b[i] == a.last();
        let j = choose|j: int| 0 <= j < a.len() && a[j] == b.last();
        if i < b.len() - 1 && j < a.len() - 1 {
            assert(path_le(b[i], b[b.len() - 1]));
            assert(path_le(a[j], a[a.len() - 1]));
            lemma_path_antisymmetric(a.last(), b.last());
        }
        assert(a.last() == b.last());
        let a0 = a.drop_last();
        let b0 = b.drop_last();
        assert forall|x: Seq<u8>| #[trigger] a0.to_set().contains(x) <==> b0.to_set().contains(x) by {
            if a0.contains(x) {
                let k = choose|k: int| 0 <= k < a0.len() && a0[k] == x;
                assert(a[k] == x);
                assert(a[k] != a[a.len() - 1]);
                assert(b.to_set().contains(x)) by {
                    assert(a.to_set().contains(x));
                }
                let m = choose|m: int| 0 <= m < b.len() && b[m] == x;
                assert(b0[m] == x);
            }
            if b0.contains(x) {
                let k = choose|k: int| 0 <= k < b0.len() && b0[k] == x;
                assert(b[k] == x);
                assert(b[k] != b[b.len() - 1]);
                assert(a.to_set().contains(x)) by {
                    assert(b.to_set().contains(x));
                }
                let m = choose|m: int| 0 <= m < a.len() && a[m] == x;
                assert(a0[m] == x);
            }
        }
        assert(a0.to_set() =~= b0.to_set());
        lemma_ascending_unique(a0, b0);
        assert(a == a0.push(a.last()));
        assert(b == b0.push(b.last()));
    }
}

/// Adds a path to an ascending list, unless it is there.
pub fn insert_ascending(v: &mut Vec<Vec<u8>>, x: Vec<u8>)
    requires
        ascending(byte_strings(old(v)@)),
    ensures
        ascending(byte_strings(final(v)@)),
        byte_strings(final(v)@).to_set() == byte_strings(old(v)@).to_set().insert(x@),
{
    let ghost s = byte_strings(v@);
    let mut lo: usize = 0;
    let mut hi: usize = v.len();
    while lo < hi
        invariant
            0 <= lo <= hi <= v@.len(),
            s == byte_strings(v@),
            ascending(s),
            forall|j: int| 0 <= j < lo ==> !path_le(x@, #[trigger] s[j]),
            forall|j: int| hi <= j < s.len() ==> path_le(x@, #[trigger] s[j]),
        decreases hi - lo,
    {
        let mid: usize = lo + (hi - lo) / 2;
        if le_paths(x.as_slice(), v[mid].as_slice()) {
            proof {
                assert forall|j: int| mid <= j < s.len() implies path_le(x@, #[trigger] s[j]) by {
                    if j > mid {
                        lemma_path_transitive(x@, s[mid as int], s[j]);
                    }
                }
            }
            hi = mid;
        } else {
            proof {
                assert forall|j: int| 0 <= j < mid + 1 implies !path_le(x@, #[trigger] s[j]) by {
                    if j < mid && path_le(x@, s[j]) {
                        lemma_path_transitive(x@, s[j], s[mid as int]);
                    }
                }
            }
            lo = mid + 1;
        }
    }
    if lo < v.len() && le_paths(v[lo].as_slice(), x.as_slice()) {
        proof {
            lemma_path_antisymmetric(s[lo as int], x@);
            assert(s.contains(x@));
            assert(s.to_set().insert(x@) =~= s.to_set());
        }
        return;
    }
    let ghost text = x@;
    v.insert(lo, x);
    proof {
        let t = byte_strings(v@);
        assert(t == s.insert(lo as int, text));
        assert forall|i: int, j: int|
            #![trigger t[i], t[j]]
            0 <= i < j < t.len() implies t[i] != t[j] && path_le(t[i], t[j]) by {
            let i0 = if i < lo { i } else { i - 1 };
            let j0 = if j < lo { j } else { j - 1 };
            if i == lo {
                assert(t[j] == s[j0]);
                lemma_path_total(text, s[j0]);
                if s[j0] == text {
                    lemma_path_reflexive(text);
                    if j0 > lo {
                        assert(path_le(s[lo as int], s[j0]));
                    }
                }
            } else if j == lo {
                assert(t[i] == s[i]);
                lemma_path_total(text, s[i]);
                if s[i] == text {
                    lemma_path_reflexive(text);
                }
            } else {
                assert(t[i] == s[i0]);
                assert(t[j] == s[j0]);
            }
        }
        assert forall|y: Seq<u8>|
            #[trigger] t.to_set().contains(y) <==> s.to_set().insert(text).contains(y) by {
            if s.contains(y) {
                let k = choose|k: int| 0 <= k < s.len() && s[k] == y;
                if k < lo {
                    assert(t[k] == y);
                } else {
                    assert(t[k + 1] == y);
                }
            }
            assert(t[lo as int] == text);
            if t.contains(y) {
                let k = choose|k: int| 0 <= k < t.len() && t[k] == y;
                if k < lo {
                    assert(s[k] == y);
                } else if k > lo {
                    assert(s[k - 1] == y);
                }
            }
        }
        assert(t.to_set() =~= s.to_set().insert(text));
    }
}

// ---------------------------------------------------------------------------
// What decides
// ---------------------------------------------------------------------------
/// The first byte that differs decides the order of two byte strings, and a byte string comes
/// before those that it is the beginning of.
pub proof fn law_first_difference_decides(p: Seq<u8>, x: u8, a: Seq<u8>, y: u8, b: Seq<u8>)
    requires
        x < y,
    ensures
        lex_le(p + seq![x] + a, p + seq![y] + b),
        !lex_le(p + seq![y] + b, p + seq![x] + a),
        lex_le(p, p + seq![x] + a),
        !lex_le(p + seq![x] + a, p),
    decreases p.len(),
{
    let s = p + seq![x] + a;
    let t = p + seq![y] + b;
    if p.len() > 0 {
        let rest = p.skip(1);
        law_first_difference_decides(rest, x, a, y, b);
        assert(s.skip(1) == rest + seq![x] + a);
        assert(t.skip(1) == rest + seq![y] + b);
        assert(s[0] == p[0] && t[0] == p[0]);
    } else {
        assert(s[0] == x && t[0] == y);
    }
}

/// The first name that differs decides the order of two paths, and a path comes before those that
/// lead through it.
pub proof fn law_first_name_decides(
    p: Seq<Seq<u8>>,
    x: Seq<u8>,
    a: Seq<Seq<u8>>,
    y: Seq<u8>,
    b: Seq<Seq<u8>>,
)
    requires
        x != y,
        lex_le(x, y),
    ensures
        parts_le(p + seq![x] + a, p + seq![y] + b),
        !parts_le(p + seq![y] + b, p + seq![x] + a),
        parts_le(p, p + seq![x] + a),
        !parts_le(p + seq![x] + a, p),
        forall|s: Seq<u8>, t: Seq<u8>|
            segments(s) == p + seq![x] + a && segments(t) == p + seq![y] + b ==> #[trigger] path_le(
                s,
                t,
            ) && !path_le(t, s),
    decreases p.len(),
{
    let s = p + seq![x] + a;
    let t = p + seq![y] + b;
    if p.len() > 0 {
        let rest = p.skip(1);
        law_first_name_decides(rest, x, a, y, b);
        assert(s.skip(1) == rest + seq![x] + a);
        assert(t.skip(1) == rest + seq![y] + b);
        assert(s[0] == p[0] && t[0] == p[0]);
    } else {
        assert(s[0] == x && t[0] == y);
        if lex_le(y, x) {
            lemma_lex_antisymmetric(x, y);
        }
    }
}

} // verus!
