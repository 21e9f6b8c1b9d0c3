//! File system paths as byte strings, with `/` as the separator.
//!
//! Names on disk need not be valid UTF-8, so a path is the sequence of its bytes.

use vstd::prelude::*;
use vstd::slice::{slice_subrange, slice_to_vec};
use vstd::utf8::{
    decode_utf8_encode_utf8, encode_utf8, encode_utf8_decode_utf8, encode_utf8_valid_utf8,
    is_ascii_chars_encode_utf8,
};

use crate::text::same_str;
use crate::utf8::{from_utf8, utf8};

verus! {

/// The path separator.
pub const SEP: u8 = 47;

/// The byte that separates a file name from its extension.
pub const DOT: u8 = 46;

/// The byte strings that a sequence of byte vectors stands for.
pub open spec fn byte_strings(v: Seq<Vec<u8>>) -> Seq<Seq<u8>> {
    Seq::new(v.len(), |i: int| v[i]@)
}

/// The view of an optional byte string.
pub open spec fn opt_bytes(b: Option<Vec<u8>>) -> Option<Seq<u8>> {
    match b {
        Some(v) => Some(v@),
        None => None,
    }
}

/// Whether two byte strings are equal.
pub fn same_bytes(a: &[u8], b: &[u8]) -> (r: bool)
    ensures
        r == (a@ == b@),
{
    if a.len() != b.len() {
        return false;
    }
    for i in 0..a.len()
        invariant
            a@.len() == b@.len(),
            forall|j: int| 0 <= j < i ==> a@[j] == b@[j],
    {
        if a[i] != b[i] {
            return false;
        }
    }
    assert(a@ == b@);
    true
}

/// Whether `v` holds the byte string `b`.
pub fn holds(v: &Vec<Vec<u8>>, b: &[u8]) -> (r: bool)
    ensures
        r == byte_strings(v@).contains(b@),
{
    for i in 0..v.len()
        invariant
            forall|j: int| 0 <= j < i ==> byte_strings(v@)[j] != b@,
    {
        if same_bytes(v[i].as_slice(), b) {
            assert(byte_strings(v@)[i as int] == b@);
            return true;
        }
    }
    false
}

// ---------------------------------------------------------------------------
// Components
// ---------------------------------------------------------------------------
/// Position of the first separator of `p`, or its length where there is none.
pub open spec fn sep_at(p: Seq<u8>) -> int
    decreases p.len(),
{
    if p.len() == 0 || p[0] == SEP {
        0
    } else {
        1 + sep_at(p.skip(1))
    }
}

proof fn lemma_sep_at(p: Seq<u8>)
    ensures
        0 <= sep_at(p) <= p.len(),
        forall|i: int| 0 <= i < sep_at(p) ==> p[i] != SEP,
        sep_at(p) < p.len() ==> p[sep_at(p)] == SEP,
    decreases p.len(),
{
    if p.len() > 0 && p[0] != SEP {
        lemma_sep_at(p.skip(1));
        assert forall|i: int| 0 <= i < sep_at(p) implies p[i] != SEP by {
            if i > 0 {
                assert(p[i] == p.skip(1)[i - 1]);
            }
        }
    }
}

proof fn lemma_sep_at_unique(p: Seq<u8>, n: int)
    requires
        0 <= n <= p.len(),
        forall|i: int| 0 <= i < n ==> p[i] != SEP,
        n < p.len() ==> p[n] == SEP,
    ensures
        sep_at(p) == n,
{
    lemma_sep_at(p);
    if sep_at(p) < n {
        assert(p[sep_at(p)] != SEP);
    }
    if n < sep_at(p) {
        assert(p[n] != SEP);
    }
}

/// The components of what is left of a path. `first` says that nothing of the path has been read
/// yet: there an empty field stands for the root directory and `.` is kept; elsewhere both are
/// dropped.
pub open spec fn components_from(p: Seq<u8>, first: bool) -> Seq<Seq<u8>>
    decreases p.len(),
{
    let n = sep_at(p);
    if p.len() == 0 {
        seq![]
    } else if !(0 <= n <= p.len()) {
        seq![]
    } else {
        let field = p.take(n);
        let rest = if n < p.len() {
            components_from(p.skip(n + 1), false)
        } else {
            seq![]
        };
        if field.len() == 0 {
            if first {
                seq![seq![SEP]] + rest
            } else {
                rest
            }
        } else if field == seq![DOT] && !first {
            rest
        } else {
            seq![field] + rest
        }
    }
}

/// The components of a path. The root directory is the component `/`.
pub open spec fn components(p: Seq<u8>) -> Seq<Seq<u8>> {
    components_from(p, true)
}

/// Splits a path into its components.
pub fn components_of(p: &[u8]) -> (r: Vec<Vec<u8>>)
    ensures
        byte_strings(r@) == components(p@),
{
    let mut r: Vec<Vec<u8>> = Vec::new();
    let mut i: usize = 0;
    let mut first = true;
    assert(p@.skip(0) == p@);
    while i < p.len()
        invariant
            0 <= i <= p@.len(),
            byte_strings(r@) + components_from(p@.skip(i as int), first) == components(p@),
        decreases p@.len() - i,
    {
        let mut j: usize = i;
        while j < p.len() && p[j] != SEP
            invariant
                i <= j <= p@.len(),
                forall|k: int| i <= k < j ==> p@[k] != SEP,
            decreases p@.len() - j,
        {
            j += 1;
        }
        let ghost rest = p@.skip(i as int);
        let ghost before = byte_strings(r@);
        let ghost field = rest.take(j - i);
        proof {
            lemma_sep_at_unique(rest, j - i);
        }
        if j == i {
            if first {
                let mut root: Vec<u8> = Vec::new();
                root.push(SEP);
                assert(root@ == seq![SEP]);
                r.push(root);
                assert(byte_strings(r@) == before.push(seq![SEP]));
            }
        } else if !first && j == i + 1 && p[i] == DOT {
            assert(field == seq![DOT]);
        } else {
            let part = slice_to_vec(slice_subrange(p, i, j));
            assert(part@ == field);
            assert(field == seq![DOT] ==> p@[i as int] == DOT);
            r.push(part);
            assert(byte_strings(r@) == before.push(field));
        }
        first = false;
        if j < p.len() {
            assert(rest.skip(j - i + 1) == p@.skip(j + 1));
            i = j + 1;
        } else {
            i = j;
            assert(p@.skip(i as int).len() == 0);
        }
    }
    assert(p@.skip(i as int).len() == 0);
    assert(byte_strings(r@) == components(p@));
    r
}

/// `p` lies at or below `base`: the components of `base` are the first ones of `p`.
pub open spec fn is_within(p: Seq<u8>, base: Seq<u8>) -> bool {
    components(base).is_prefix_of(components(p))
}

/// Whether `p` lies at or below `root`.
pub fn is_inside(p: &[u8], root: &[u8]) -> (r: bool)
    ensures
        r == is_within(p@, root@),
{
    let ps = components_of(p);
    let rs = components_of(root);
    let ghost pv = components(p@);
    let ghost rv = components(root@);
    if ps.len() < rs.len() {
        return false;
    }
    for i in 0..rs.len()
        invariant
            byte_strings(ps@) == pv,
            byte_strings(rs@) == rv,
            pv == components(p@),
            rv == components(root@),
            rv.len() <= pv.len(),
            forall|j: int| 0 <= j < i ==> pv[j] == rv[j],
    {
        if !same_bytes(ps[i].as_slice(), rs[i].as_slice()) {
            assert(pv.subrange(0, rv.len() as int)[i as int] == pv[i as int]);
            assert(pv[i as int] != rv[i as int]);
            return false;
        }
        assert(pv[i as int] == rv[i as int]);
    }
    assert(pv.subrange(0, rv.len() as int) == rv);
    true
}

// ---------------------------------------------------------------------------
// Names
// ---------------------------------------------------------------------------
/// The last component of a path, unless that is the root, `.` or `..`.
pub open spec fn file_name(p: Seq<u8>) -> Option<Seq<u8>> {
    let cs = components(p);
    if cs.len() == 0 || cs.last() == seq![SEP] || cs.last() == seq![DOT] || cs.last() == seq![
        DOT,
        DOT,
    ] {
        None
    } else {
        Some(cs.last())
    }
}

/// The last component of a path.
pub fn file_name_of(p: &[u8]) -> (r: Option<Vec<u8>>)
    ensures
        opt_bytes(r) == file_name(p@),
{
    let cs = components_of(p);
    if cs.len() == 0 {
        return None;
    }
    let last = &cs[cs.len() - 1];
    assert(last@ == components(p@).last());
    if last.len() == 1 && (last[0] == SEP || last[0] == DOT) {
        assert(last@ == seq![last@[0]]);
        return None;
    }
    if last.len() == 2 && last[0] == DOT && last[1] == DOT {
        assert(last@ == seq![DOT, DOT]);
        return None;
    }
    Some(slice_to_vec(last.as_slice()))
}

/// Position of the last dot of `name`, or -1.
pub open spec fn last_dot(name: Seq<u8>) -> int
    decreases name.len(),
{
    if name.len() == 0 {
        -1
    } else if name.last() == DOT {
        name.len() - 1
    } else {
        last_dot(name.drop_last())
    }
}

/// What follows the last dot of a file name. A dot in front of the whole name starts no
/// extension.
pub open spec fn extension(name: Seq<u8>) -> Option<Seq<u8>> {
    if last_dot(name) > 0 {
        Some(name.skip(last_dot(name) + 1))
    } else {
        None
    }
}

/// A file name without its extension.
pub open spec fn stem(name: Seq<u8>) -> Seq<u8> {
    if last_dot(name) > 0 {
        name.take(last_dot(name))
    } else {
        name
    }
}

proof fn lemma_last_dot(name: Seq<u8>)
    ensures
        -1 <= last_dot(name) < name.len(),
    decreases name.len(),
{
    if name.len() > 0 && name.last() != DOT {
        lemma_last_dot(name.drop_last());
    }
}

/// Length of the part before the last dot of a file name, or 0 where the name has no extension.
fn dot_position(name: &[u8]) -> (r: usize)
    ensures
        r as int == if last_dot(name@) > 0 { last_dot(name@) } else { 0 },
        r == 0 || r < name@.len(),
{
    let mut n: usize = name.len();
    proof {
        lemma_last_dot(name@);
        assert(name@.take(n as int) == name@);
    }
    while n > 0
        invariant
            0 <= n <= name@.len(),
            last_dot(name@.take(n as int)) == last_dot(name@),
        decreases n,
    {
        assert(name@.take(n as int).drop_last() == name@.take(n - 1));
        if name[n - 1] == DOT {
            return n - 1;
        }
        n -= 1;
    }
    0
}

/// The extension of a file name.
pub fn extension_of(name: &[u8]) -> (r: Option<Vec<u8>>)
    ensures
        opt_bytes(r) == extension(name@),
{
    let n = dot_position(name);
    if n == 0 {
        None
    } else {
        let len: usize = name.len();
        let ext = slice_to_vec(slice_subrange(name, n + 1, len));
        assert(ext@ == name@.skip(n + 1));
        Some(ext)
    }
}

/// A file name without its extension.
pub fn stem_of(name: &[u8]) -> (r: Vec<u8>)
    ensures
        r@ == stem(name@),
{
    let n = dot_position(name);
    if n == 0 {
        slice_to_vec(name)
    } else {
        let s = slice_to_vec(slice_subrange(name, 0, n));
        assert(s@ == name@.take(n as int));
        s
    }
}

/// The file name has exactly the extension `md`.
pub open spec fn has_md_extension(name: Seq<u8>) -> bool {
    extension(name) matches Some(e) && utf8(e) == Some("md"@)
}

/// Whether the file name has exactly the extension `md`.
pub fn has_md_ext(name: &[u8]) -> (r: bool)
    ensures
        r == has_md_extension(name@),
{
    match extension_of(name) {
        Some(e) => match from_utf8(e.as_slice()) {
            Some(s) => same_str(s, "md"),
            None => false,
        },
        None => false,
    }
}

/// The path of the entry `name` of the directory `parent`, both relative to one root, which is
/// the empty path.
pub open spec fn joined_path(parent: Seq<u8>, name: Seq<u8>) -> Seq<u8> {
    if parent.len() == 0 {
        name
    } else {
        parent + seq![SEP] + name
    }
}

/// Appends an entry's name to the path of its directory.
pub fn join_path(parent: &[u8], name: &[u8]) -> (r: Vec<u8>)
    ensures
        r@ == joined_path(parent@, name@),
{
    if parent.len() == 0 {
        return slice_to_vec(name);
    }
    let mut r = slice_to_vec(parent);
    r.push(SEP);
    let ghost start = r@;
    for i in 0..name.len()
        invariant
            r@ == start + name@.take(i as int),
    {
        r.push(name[i]);
    }
    assert(name@.take(name@.len() as int) == name@);
    assert(r@ == joined_path(parent@, name@));
    r
}

// ---------------------------------------------------------------------------
// Names of a path
// ---------------------------------------------------------------------------
/// The parts of a path between its separators.
pub open spec fn segments(p: Seq<u8>) -> Seq<Seq<u8>>
    decreases p.len(),
{
    if p.len() == 0 {
        seq![seq![]]
    } else {
        let before = segments(p.drop_last());
        if p.last() == SEP {
            before.push(seq![])
        } else {
            before.drop_last().push(before.last().push(p.last()))
        }
    }
}

/// The path with the given parts between its separators.
pub open spec fn rejoined(parts: Seq<Seq<u8>>) -> Seq<u8>
    decreases parts.len(),
{
    if parts.len() == 0 {
        seq![]
    } else if parts.len() == 1 {
        parts[0]
    } else {
        rejoined(parts.drop_last()) + seq![SEP] + parts.last()
    }
}

/// A path is made of its parts; so two paths with the same parts are equal.
pub proof fn lemma_segments_rejoin(p: Seq<u8>)
    ensures
        segments(p).len() > 0,
        rejoined(segments(p)) == p,
    decreases p.len(),
{
    let parts = segments(p);
    if p.len() == 0 {
        assert(rejoined(parts) == p);
    } else {
        let shorter = p.drop_last();
        let before = segments(shorter);
        lemma_segments_rejoin(shorter);
        assert(shorter.push(p.last()) == p);
        if p.last() == SEP {
            assert(parts.drop_last() == before);
            assert(rejoined(parts) == p);
        } else {
            assert(parts.drop_last() == before.drop_last());
            assert(parts.last() == before.last().push(p.last()));
            assert(rejoined(parts) == p);
        }
    }
}

/// The parts of a path between its separators.
pub fn segments_of(p: &[u8]) -> (r: Vec<Vec<u8>>)
    ensures
        byte_strings(r@) == segments(p@),
{
    let mut out: Vec<Vec<u8>> = Vec::new();
    let mut part: Vec<u8> = Vec::new();
    assert(segments(p@.take(0)) == byte_strings(out@).push(part@));
    for i in 0..p.len()
        invariant
            segments(p@.take(i as int)) == byte_strings(out@).push(part@),
    {
        let ghost before = byte_strings(out@);
        let ghost upto = p@.take(i + 1);
        assert(upto.drop_last() == p@.take(i as int));
        if p[i] == SEP {
            let ghost done = part@;
            out.push(part);
            part = Vec::new();
            assert(byte_strings(out@) == before.push(done));
        } else {
            let ghost done = part@;
            part.push(p[i]);
            assert(before.push(done).drop_last() == before);
        }
        assert(segments(upto) == byte_strings(out@).push(part@));
    }
    assert(p@.take(p@.len() as int) == p@);
    let ghost before = byte_strings(out@);
    let ghost done = part@;
    out.push(part);
    assert(byte_strings(out@) == before.push(done));
    out
}

// ---------------------------------------------------------------------------
// Laws
// ---------------------------------------------------------------------------
/// The name may be that of a file: it is not empty, holds no separator, and is not `.` or `..`.
pub open spec fn is_file_name(name: Seq<u8>) -> bool {
    &&& name.len() > 0
    &&& forall|i: int| 0 <= i < name.len() ==> #[trigger] name[i] != 47
    &&& name != seq![46u8]
    &&& name != seq![46u8, 46u8]
}

/// What follows a separator adds its components.
proof fn lemma_components_behind(p: Seq<u8>, q: Seq<u8>, first: bool)
    requires
        p.len() > 0 || !first,
    ensures
        components_from(p + seq![SEP] + q, first) == components_from(p, first) + components_from(
            q,
            false,
        ),
    decreases p.len(),
{
    let all = p + seq![SEP] + q;
    let n = sep_at(p);
    lemma_sep_at(p);
    assert forall|i: int| 0 <= i < n implies all[i] != SEP by {
        assert(all[i] == p[i]);
    }
    lemma_sep_at_unique(all, n);
    assert(all.take(n) == p.take(n));
    if n < p.len() {
        lemma_components_behind(p.skip(n + 1), q, false);
        assert(all.skip(n + 1) == p.skip(n + 1) + seq![SEP] + q);
    } else {
        assert(all.skip(n + 1) == q);
        assert(p.take(n) == p);
    }
    assert(components_from(all, first) == components_from(p, first) + components_from(q, false));
}

/// A name is a single component.
proof fn lemma_components_of_name(name: Seq<u8>, first: bool)
    requires
        name.len() > 0,
        forall|i: int| 0 <= i < name.len() ==> #[trigger] name[i] != 47,
        first || name != seq![46u8],
    ensures
        components_from(name, first) == seq![name],
{
    lemma_sep_at_unique(name, name.len() as int);
    assert(name.take(name.len() as int) == name);
}

/// The components of a path are its names, one after the other. Separators at its end or next to
/// each other, and the name `.` behind a separator, add none. A separator in front of the whole
/// path is the root directory.
pub proof fn law_path_has_its_names(p: Seq<u8>, name: Seq<u8>)
    requires
        is_file_name(name),
    ensures
        components(name) == seq![name],
        components(seq![47u8]) == seq![seq![47u8]],
        components(seq![47u8] + name) == seq![seq![47u8], name],
        components(Seq::<u8>::empty()) == Seq::<Seq<u8>>::empty(),
        p.len() > 0 ==> components(p + seq![47u8] + name) == components(p).push(name),
        p.len() > 0 ==> components(p + seq![47u8]) == components(p),
        p.len() > 0 ==> components(p + seq![47u8, 46u8]) == components(p),
{
    let root = seq![47u8];
    let none = Seq::<u8>::empty();
    lemma_components_of_name(name, true);
    lemma_components_of_name(name, false);
    lemma_sep_at_unique(root, 0);
    assert(root.skip(1) == none);
    assert(components_from(none, false) == Seq::<Seq<u8>>::empty());
    assert(root.take(0).len() == 0);
    assert(components(root) == seq![seq![47u8]]);
    let below = root + name;
    lemma_sep_at_unique(below, 0);
    assert(below.take(0).len() == 0);
    assert(below.skip(1) == name);
    assert(components(below) == seq![seq![47u8], name]);
    if p.len() > 0 {
        lemma_components_behind(p, name, true);
        assert(components(p + seq![47u8] + name) == components(p).push(name));
        lemma_components_behind(p, none, true);
        assert(p + seq![SEP] + none == p + seq![47u8]);
        assert(components(p + seq![47u8]) == components(p));
        let dot = seq![46u8];
        lemma_components_behind(p, dot, true);
        assert(p + seq![SEP] + dot == p + seq![47u8, 46u8]);
        lemma_sep_at_unique(dot, 1);
        assert(dot.take(1) == seq![DOT]);
        assert(components_from(dot, false) == Seq::<Seq<u8>>::empty());
        assert(components(p + seq![47u8, 46u8]) == components(p));
    }
}

/// A path lies within itself, and an entry of a directory lies within the directory and within all
/// that the directory lies within. Two entries of one directory do not lie within each other, even
/// where the name of one begins with that of the other; nor does a directory lie within its entry.
pub proof fn law_entries_lie_within(p: Seq<u8>, base: Seq<u8>, a: Seq<u8>, b: Seq<u8>)
    requires
        p.len() > 0,
        is_file_name(a),
        is_file_name(b),
    ensures
        is_within(p, p),
        is_within(p + seq![47u8] + a, p),
        is_within(p, base) ==> is_within(p + seq![47u8] + a, base),
        is_within(p + seq![47u8] + a, p + seq![47u8] + b) <==> a == b,
        !is_within(p, p + seq![47u8] + a),
{
    law_path_has_its_names(p, a);
    law_path_has_its_names(p, b);
    let cs = components(p);
    assert(cs.take(cs.len() as int) == cs);
    assert(cs.push(a).take(cs.len() as int) == cs);
    if is_within(p, base) {
        let n = components(base).len() as int;
        assert(cs.push(a).take(n) == cs.take(n));
    }
    assert(cs.push(a).take(cs.len() as int + 1) == cs.push(a));
    assert(cs.push(a).last() == a && cs.push(b).last() == b);
}

/// The file name of a path is its last name. The root directory and a path that ends in `..` have
/// none.
pub proof fn law_file_name_is_last(p: Seq<u8>, name: Seq<u8>)
    requires
        is_file_name(name),
    ensures
        file_name(name) == Some(name),
        file_name(seq![47u8] + name) == Some(name),
        file_name(seq![47u8]) is None,
        file_name(Seq::<u8>::empty()) is None,
        p.len() > 0 ==> file_name(p + seq![47u8] + name) == Some(name),
        p.len() > 0 ==> file_name(p + seq![47u8]) == file_name(p),
        p.len() > 0 ==> file_name(p + seq![47u8, 46u8, 46u8]) is None,
{
    law_path_has_its_names(p, name);
    assert(name != seq![47u8]) by {
        assert(name[0] != 47);
    }
    if p.len() > 0 {
        let up = seq![46u8, 46u8];
        lemma_components_behind(p, up, true);
        lemma_components_of_name(up, false);
        assert(p + seq![SEP] + up == p + seq![47u8, 46u8, 46u8]);
        assert(components(p + seq![47u8, 46u8, 46u8]).last() == up);
    }
}

/// The last dot of a name.
proof fn lemma_last_dot_is(name: Seq<u8>, n: int)
    requires
        -1 <= n < name.len(),
        n >= 0 ==> name[n] == 46,
        forall|i: int| n < i < name.len() ==> name[i] != 46,
    ensures
        last_dot(name) == n,
    decreases name.len(),
{
    if name.len() > 0 && n < name.len() - 1 {
        let shorter = name.drop_last();
        assert forall|i: int| n < i < shorter.len() implies shorter[i] != 46 by {
            assert(shorter[i] == name[i]);
        }
        lemma_last_dot_is(shorter, n);
    }
}

/// The extension of a file name is what follows its last dot, and its stem is what precedes it. A
/// name without a dot has no extension, and neither has one whose only dot is in front of it.
pub proof fn law_name_is_stem_and_extension(base: Seq<u8>, ext: Seq<u8>)
    requires
        forall|i: int| 0 <= i < ext.len() ==> ext[i] != 46,
    ensures
        base.len() > 0 ==> extension(base + seq![46u8] + ext) == Some(ext),
        base.len() > 0 ==> stem(base + seq![46u8] + ext) == base,
        extension(ext) is None,
        stem(ext) == ext,
        extension(seq![46u8] + ext) is None,
        stem(seq![46u8] + ext) == seq![46u8] + ext,
{
    let name = base + seq![46u8] + ext;
    lemma_last_dot_is(name, base.len() as int);
    assert(name.skip(base.len() as int + 1) == ext);
    assert(name.take(base.len() as int) == base);
    lemma_last_dot_is(ext, -1);
    lemma_last_dot_is(seq![46u8] + ext, 0);
}

/// A file is a markdown page by its name just where the name ends in `.md`, in lower case, with
/// something before it.
pub proof fn law_pages_end_in_md(name: Seq<u8>)
    ensures
        has_md_extension(name) <==> name.len() > 3 && name.skip(name.len() - 3) == seq![
            0x2eu8,
            0x6du8,
            0x64u8,
        ],
{
    let md = seq![0x6du8, 0x64u8];
    reveal_strlit("md");
    assert(encode_utf8("md"@) == md) by {
        is_ascii_chars_encode_utf8("md"@);
    }
    encode_utf8_valid_utf8("md"@);
    encode_utf8_decode_utf8("md"@);
    let d = last_dot(name);
    lemma_last_dot(name);
    if has_md_extension(name) {
        let e = name.skip(d + 1);
        decode_utf8_encode_utf8(e);
        assert(e == md);
        lemma_last_dot_holds(name);
        assert(name[d + 1] == e[0] && name[d + 2] == e[1]);
        assert(name.skip(name.len() - 3) == seq![0x2eu8, 0x6du8, 0x64u8]);
    }
    if name.len() > 3 && name.skip(name.len() - 3) == seq![0x2eu8, 0x6du8, 0x64u8] {
        let n = name.len() - 3;
        let t = name.skip(n);
        assert(name[n] == t[0] && name[n + 1] == t[1] && name[n + 2] == t[2]);
        lemma_last_dot_is(name, n);
        assert(name.skip(n + 1) == md);
    }
}

/// There is a dot at the position of the last dot.
proof fn lemma_last_dot_holds(name: Seq<u8>)
    ensures
        last_dot(name) >= 0 ==> last_dot(name) < name.len() && name[last_dot(name)] == 46,
    decreases name.len(),
{
    if name.len() > 0 && name.last() != DOT {
        lemma_last_dot_holds(name.drop_last());
    }
}

/// The path of an entry is that of its directory, a separator and its name; below the root of the
/// book it is the name alone.
pub proof fn law_entry_has_its_path(parent: Seq<u8>, name: Seq<u8>)
    ensures
        joined_path(Seq::<u8>::empty(), name) == name,
        parent.len() > 0 ==> joined_path(parent, name) == parent + seq![47u8] + name,
{
}

/// No part of a path holds a separator.
pub proof fn law_parts_hold_no_separator(p: Seq<u8>)
    ensures
        segments(p).len() > 0,
        forall|i: int, j: int|
            0 <= i < segments(p).len() && 0 <= j < segments(p)[i].len()
                ==> #[trigger] segments(p)[i][j] != 47,
    decreases p.len(),
{
    let parts = segments(p);
    if p.len() > 0 {
        let before = segments(p.drop_last());
        law_parts_hold_no_separator(p.drop_last());
        assert forall|i: int, j: int| 0 <= i < parts.len() && 0 <= j < parts[i].len() implies
            #[trigger] parts[i][j] != 47 by {
            if p.last() == SEP {
                if i < before.len() {
                    assert(parts[i] == before[i]);
                    assert(before[i][j] != 47);
                }
            } else if i < before.len() - 1 {
                assert(parts[i] == before[i]);
                assert(before[i][j] != 47);
            } else if j < before.last().len() {
                assert(parts[i][j] == before[before.len() - 1][j]);
            }
        }
    }
}

} // verus!
