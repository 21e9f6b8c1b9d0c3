//! What holds of the list of pages and of the mirror when the source directory changes.

use vstd::prelude::*;
use vstd::utf8::encode_utf8;

use crate::order::ascending;
use crate::os_path::joined_path;
use crate::preset::{fresh, law_mirror_covers, law_mirror_creates_missing_pages};
use crate::walk::{
    fate, lemma_room_insert, lemma_room_shrinks, listing_at, room, walk_from, walk_items, DirEntry,
    DirItem, DirRecord, Fate, Listing, Walked,
};
use crate::walk_laws::{
    alike_items, alike_listings, alike_lists, distinct, law_no_page_twice, named,
};

verus! {

// ---------------------------------------------------------------------------
// Steps of a walk
// ---------------------------------------------------------------------------
/// A walk takes one item after the other.
proof fn lemma_walk_step(
    fs: Seq<DirRecord>,
    bound: Seq<u8>,
    items: Seq<DirItem>,
    rel: Seq<u8>,
    strict: bool,
    st: Walked,
)
    requires
        items.len() > 0,
    ensures
        walk_items(fs, bound, items, rel, strict, st) == walk_items(
            fs,
            bound,
            items.skip(1),
            rel,
            strict,
            walk_items(fs, bound, seq![items[0]], rel, strict, st),
        ),
{
    assert(seq![items[0]].skip(1).len() == 0);
    reveal_with_fuel(walk_items, 2);
}

/// A walk through one list and then another is a walk through both.
proof fn lemma_walk_append(
    fs: Seq<DirRecord>,
    bound: Seq<u8>,
    x: Seq<DirItem>,
    y: Seq<DirItem>,
    rel: Seq<u8>,
    strict: bool,
    st: Walked,
)
    ensures
        walk_items(fs, bound, x + y, rel, strict, st) == walk_items(
            fs,
            bound,
            y,
            rel,
            strict,
            walk_items(fs, bound, x, rel, strict, st),
        ),
    decreases x.len(),
{
    if x.len() == 0 {
        assert(x + y == y);
    } else {
        let next = walk_items(fs, bound, seq![x[0]], rel, strict, st);
        assert((x + y).skip(1) == x.skip(1) + y);
        lemma_walk_step(fs, bound, x + y, rel, strict, st);
        lemma_walk_step(fs, bound, x, rel, strict, st);
        lemma_walk_append(fs, bound, x.skip(1), y, rel, strict, next);
    }
}

// ---------------------------------------------------------------------------
// One page more
// ---------------------------------------------------------------------------
/// The listings differ at most in the contents of files.
pub open spec fn same_listing(a: Option<Listing>, b: Option<Listing>) -> bool {
    match (a, b) {
        (Some(l), Some(m)) => alike_listings(l, m),
        (None, None) => true,
        _ => false,
    }
}

/// The snapshots differ in one entry, apart from the contents of files: in `a` the directory `d`
/// has the entry `e` more than in `m`, at the position `k` of its listing.
pub open spec fn one_more(
    m: Seq<DirRecord>,
    a: Seq<DirRecord>,
    d: Seq<u8>,
    k: int,
    e: DirEntry,
) -> bool {
    &&& forall|key: Seq<u8>|
        key != d ==> same_listing(#[trigger] listing_at(m, key), listing_at(a, key))
    &&& match (listing_at(m, d), listing_at(a, d)) {
        (Some(Listing::Items(v)), Some(Listing::Items(w))) => 0 <= k <= v@.len() && alike_lists(
            v@.insert(k, DirItem::Entry(e)),
            w@,
        ),
        _ => false,
    }
}

/// The lists `p` and `q` are the list `o` with one page more, at the same position: in one and the
/// same directory, under the names `x` and `y`.
pub open spec fn one_page_more(
    o: Seq<Seq<u8>>,
    p: Seq<Seq<u8>>,
    q: Seq<Seq<u8>>,
    x: Seq<u8>,
    y: Seq<u8>,
) -> bool {
    exists|i: int, rel: Seq<u8>|
        #![trigger o.insert(i, joined_path(rel, x))]
        0 <= i <= o.len() && p == o.insert(i, joined_path(rel, x)) && q == o.insert(
            i,
            joined_path(rel, y),
        )
}

/// The pages of three walks: the same, or with one page more in two of them.
pub open spec fn keep_step(
    more: bool,
    o: Seq<Seq<u8>>,
    p: Seq<Seq<u8>>,
    q: Seq<Seq<u8>>,
    x: Seq<u8>,
    y: Seq<u8>,
) -> bool {
    if more {
        one_page_more(o, p, q, x, y)
    } else {
        p == o && q == o
    }
}

/// A page that all of them find makes no difference.
proof fn lemma_push_keeps_step(
    more: bool,
    o: Seq<Seq<u8>>,
    p: Seq<Seq<u8>>,
    q: Seq<Seq<u8>>,
    x: Seq<u8>,
    y: Seq<u8>,
    page: Seq<u8>,
)
    requires
        keep_step(more, o, p, q, x, y),
    ensures
        keep_step(more, o.push(page), p.push(page), q.push(page), x, y),
{
    if more {
        let (i, rel) = choose|i: int, rel: Seq<u8>|
            #![trigger o.insert(i, joined_path(rel, x))]
            0 <= i <= o.len() && p == o.insert(i, joined_path(rel, x)) && q == o.insert(
                i,
                joined_path(rel, y),
            );
        assert(p.push(page) == o.push(page).insert(i, joined_path(rel, x)));
        assert(q.push(page) == o.push(page).insert(i, joined_path(rel, y)));
    }
}

/// Three walks in step: through `m`, and through `a` and `b`, in which the directory `d` has one
/// page more. Once `d` was searched, two of them have found one page more.
proof fn lemma_walks_in_step(
    m: Seq<DirRecord>,
    a: Seq<DirRecord>,
    b: Seq<DirRecord>,
    d: Seq<u8>,
    k: int,
    e: DirEntry,
    f: DirEntry,
    bound: Seq<u8>,
    u: Seq<DirItem>,
    v: Seq<DirItem>,
    w: Seq<DirItem>,
    rel: Seq<u8>,
    strict: bool,
    more: bool,
    sm: Walked,
    sa: Walked,
    sb: Walked,
)
    requires
        one_more(m, a, d, k, e),
        one_more(m, b, d, k, f),
        fate(e, bound) == Fate::Page,
        fate(f, bound) == Fate::Page,
        alike_lists(u, v),
        alike_lists(u, w),
        more ==> sm.visited.contains(d),
        sa.visited == sm.visited && sb.visited == sm.visited,
        sa.failure == sm.failure && sb.failure == sm.failure,
        sm.failure is None ==> keep_step(more, sm.pages, sa.pages, sb.pages, e.name@, f.name@),
    ensures
        ({
            let rm = walk_items(m, bound, u, rel, strict, sm);
            let ra = walk_items(a, bound, v, rel, strict, sa);
            let rb = walk_items(b, bound, w, rel, strict, sb);
            &&& ra.visited == rm.visited && rb.visited == rm.visited
            &&& ra.failure == rm.failure && rb.failure == rm.failure
            &&& sm.visited.subset_of(rm.visited)
            &&& rm.failure is None ==> keep_step(
                more || (rm.visited.contains(d) && !sm.visited.contains(d)),
                rm.pages,
                ra.pages,
                rb.pages,
                e.name@,
                f.name@,
            )
        }),
    decreases room(m, sm.visited), u.len(),
{
    if sm.failure is Some || u.len() == 0 {
    } else {
        let u1 = u.skip(1);
        let v1 = v.skip(1);
        let w1 = w.skip(1);
        assert(alike_items(u[0], v[0]) && alike_items(u[0], w[0]));
        assert(alike_lists(u1, v1)) by {
            assert forall|i: int| #![trigger u1[i], v1[i]] 0 <= i < u1.len() implies alike_items(
                u1[i],
                v1[i],
            ) by {
                assert(alike_items(u[i + 1], v[i + 1]));
            }
        }
        assert(alike_lists(u1, w1)) by {
            assert forall|i: int| #![trigger u1[i], w1[i]] 0 <= i < u1.len() implies alike_items(
                u1[i],
                w1[i],
            ) by {
                assert(alike_items(u[i + 1], w[i + 1]));
            }
        }
        match (u[0], v[0], w[0]) {
            (DirItem::Entry(g), DirItem::Entry(ga), DirItem::Entry(gb)) => {
                assert(fate(g, bound) == fate(ga, bound) && fate(g, bound) == fate(gb, bound));
                let path = joined_path(rel, g.name@);
                match fate(g, bound) {
                    Fate::Skip => {
                        lemma_walks_in_step(
                            m, a, b, d, k, e, f, bound, u1, v1, w1, rel, strict, more, sm, sa, sb,
                        );
                    },
                    Fate::Page => {
                        lemma_push_keeps_step(
                            more, sm.pages, sa.pages, sb.pages, e.name@, f.name@, path,
                        );
                        lemma_walks_in_step(
                            m, a, b, d, k, e, f, bound, u1, v1, w1, rel, strict, more,
                            Walked { pages: sm.pages.push(path), ..sm },
                            Walked { pages: sa.pages.push(path), ..sa },
                            Walked { pages: sb.pages.push(path), ..sb },
                        );
                    },
                    Fate::Enter(c) => {
                        if sm.visited.contains(c) {
                            lemma_walks_in_step(
                                m, a, b, d, k, e, f, bound, u1, v1, w1, rel, strict, more, sm, sa,
                                sb,
                            );
                        } else {
                            let em = Walked { visited: sm.visited.insert(c), ..sm };
                            let ea = Walked { visited: sa.visited.insert(c), ..sa };
                            let eb = Walked { visited: sb.visited.insert(c), ..sb };
                            let im = searched(m, bound, c, path, strict, em);
                            let ia = searched(a, bound, c, path, strict, ea);
                            let ib = searched(b, bound, c, path, strict, eb);
                            lemma_searches_in_step(
                                m, a, b, d, k, e, f, bound, c, path, strict, more, sm, sa, sb,
                            );
                            let lm = Walked { visited: em.visited.union(im.visited), ..im };
                            let la = Walked { visited: ea.visited.union(ia.visited), ..ia };
                            let lb = Walked { visited: eb.visited.union(ib.visited), ..ib };
                            assert(lm.visited =~= im.visited);
                            assert(la.visited =~= im.visited);
                            assert(lb.visited =~= im.visited);
                            lemma_room_shrinks(m, sm.visited, lm.visited);
                            let now = more || (lm.visited.contains(d) && !sm.visited.contains(d));
                            lemma_walks_in_step(
                                m, a, b, d, k, e, f, bound, u1, v1, w1, rel, strict, now, lm, la,
                                lb,
                            );
                        }
                    },
                }
            },
            _ => {
                if !(u[0] is Failed && strict) {
                    lemma_walks_in_step(
                        m, a, b, d, k, e, f, bound, u1, v1, w1, rel, strict, more, sm, sa, sb,
                    );
                }
            },
        }
    }
}

/// Where a walk gets to in the directory `c`, which it has just entered.
pub open spec fn searched(
    fs: Seq<DirRecord>,
    bound: Seq<u8>,
    c: Seq<u8>,
    rel: Seq<u8>,
    strict: bool,
    st: Walked,
) -> Walked {
    match listing_at(fs, c) {
        Some(Listing::Items(v)) => walk_items(fs, bound, v@, rel, strict, st),
        Some(Listing::Failed(m)) => Walked { failure: Some(m@), ..st },
        _ => st,
    }
}

/// Three searches of a directory in step.
proof fn lemma_searches_in_step(
    m: Seq<DirRecord>,
    a: Seq<DirRecord>,
    b: Seq<DirRecord>,
    d: Seq<u8>,
    k: int,
    e: DirEntry,
    f: DirEntry,
    bound: Seq<u8>,
    c: Seq<u8>,
    path: Seq<u8>,
    strict: bool,
    more: bool,
    sm: Walked,
    sa: Walked,
    sb: Walked,
)
    requires
        one_more(m, a, d, k, e),
        one_more(m, b, d, k, f),
        fate(e, bound) == Fate::Page,
        fate(f, bound) == Fate::Page,
        !sm.visited.contains(c),
        more ==> sm.visited.contains(d),
        sa.visited == sm.visited && sb.visited == sm.visited,
        sm.failure is None && sa.failure is None && sb.failure is None,
        keep_step(more, sm.pages, sa.pages, sb.pages, e.name@, f.name@),
    ensures
        ({
            let rm = searched(
                m,
                bound,
                c,
                path,
                strict,
                Walked { visited: sm.visited.insert(c), ..sm },
            );
            let ra = searched(
                a,
                bound,
                c,
                path,
                strict,
                Walked { visited: sa.visited.insert(c), ..sa },
            );
            let rb = searched(
                b,
                bound,
                c,
                path,
                strict,
                Walked { visited: sb.visited.insert(c), ..sb },
            );
            &&& ra.visited == rm.visited && rb.visited == rm.visited
            &&& ra.failure == rm.failure && rb.failure == rm.failure
            &&& sm.visited.insert(c).subset_of(rm.visited)
            &&& rm.failure is None ==> keep_step(
                more || (rm.visited.contains(d) && !sm.visited.contains(d)),
                rm.pages,
                ra.pages,
                rb.pages,
                e.name@,
                f.name@,
            )
        }),
    decreases room(m, sm.visited), 0nat,
{
    let em = Walked { visited: sm.visited.insert(c), ..sm };
    let ea = Walked { visited: sa.visited.insert(c), ..sa };
    let eb = Walked { visited: sb.visited.insert(c), ..sb };
    if c != d {
        match (listing_at(m, c), listing_at(a, c), listing_at(b, c)) {
            (Some(Listing::Items(x)), Some(Listing::Items(y)), Some(Listing::Items(z))) => {
                lemma_room_insert(m, sm.visited, c);
                lemma_walks_in_step(
                    m, a, b, d, k, e, f, bound, x@, y@, z@, path, strict, more, em, ea, eb,
                );
            },
            _ => {},
        }
    } else {
        match (listing_at(m, d), listing_at(a, d), listing_at(b, d)) {
            (Some(Listing::Items(x)), Some(Listing::Items(y)), Some(Listing::Items(z))) => {
                lemma_room_insert(m, sm.visited, d);
                lemma_own_listing_in_step(
                    m, a, b, d, k, e, f, bound, x@, y@, z@, path, strict, em, ea, eb,
                );
            },
            _ => {},
        }
    }
}

/// The listing of the directory that has one page more.
proof fn lemma_own_listing_in_step(
    m: Seq<DirRecord>,
    a: Seq<DirRecord>,
    b: Seq<DirRecord>,
    d: Seq<u8>,
    k: int,
    e: DirEntry,
    f: DirEntry,
    bound: Seq<u8>,
    x: Seq<DirItem>,
    y: Seq<DirItem>,
    z: Seq<DirItem>,
    path: Seq<u8>,
    strict: bool,
    em: Walked,
    ea: Walked,
    eb: Walked,
)
    requires
        one_more(m, a, d, k, e),
        one_more(m, b, d, k, f),
        fate(e, bound) == Fate::Page,
        fate(f, bound) == Fate::Page,
        0 <= k <= x.len(),
        alike_lists(x.insert(k, DirItem::Entry(e)), y),
        alike_lists(x.insert(k, DirItem::Entry(f)), z),
        em.visited.contains(d),
        ea == em,
        eb == em,
        em.failure is None,
    ensures
        ({
            let rm = walk_items(m, bound, x, path, strict, em);
            let ra = walk_items(a, bound, y, path, strict, ea);
            let rb = walk_items(b, bound, z, path, strict, eb);
            &&& ra.visited == rm.visited && rb.visited == rm.visited
            &&& ra.failure == rm.failure && rb.failure == rm.failure
            &&& em.visited.subset_of(rm.visited)
            &&& rm.failure is None ==> one_page_more(
                rm.pages,
                ra.pages,
                rb.pages,
                e.name@,
                f.name@,
            )
        }),
    decreases room(m, em.visited), x.len() + 2,
{
    let xe = x.insert(k, DirItem::Entry(e));
    let xf = x.insert(k, DirItem::Entry(f));
    let (x1, x2) = (x.take(k), x.skip(k));
    let (y1, y2) = (y.take(k), y.skip(k + 1));
    let (z1, z2) = (z.take(k), z.skip(k + 1));
    assert(x1 + x2 == x);
    assert(y1 + (seq![y[k]] + y2) == y);
    assert(z1 + (seq![z[k]] + z2) == z);
    assert(alike_items(xe[k], y[k]) && alike_items(xf[k], z[k]));
    assert(alike_lists(x1, y1)) by {
        assert forall|i: int| #![trigger x1[i], y1[i]] 0 <= i < x1.len() implies alike_items(
            x1[i],
            y1[i],
        ) by {
            assert(alike_items(xe[i], y[i]));
        }
    }
    assert(alike_lists(x1, z1)) by {
        assert forall|i: int| #![trigger x1[i], z1[i]] 0 <= i < x1.len() implies alike_items(
            x1[i],
            z1[i],
        ) by {
            assert(alike_items(xf[i], z[i]));
        }
    }
    assert(alike_lists(x2, y2)) by {
        assert forall|i: int| #![trigger x2[i], y2[i]] 0 <= i < x2.len() implies alike_items(
            x2[i],
            y2[i],
        ) by {
            assert(alike_items(xe[k + 1 + i], y[k + 1 + i]));
        }
    }
    assert(alike_lists(x2, z2)) by {
        assert forall|i: int| #![trigger x2[i], z2[i]] 0 <= i < x2.len() implies alike_items(
            x2[i],
            z2[i],
        ) by {
            assert(alike_items(xf[k + 1 + i], z[k + 1 + i]));
        }
    }
    lemma_walk_append(m, bound, x1, x2, path, strict, em);
    lemma_walk_append(a, bound, y1, seq![y[k]] + y2, path, strict, ea);
    lemma_walk_append(b, bound, z1, seq![z[k]] + z2, path, strict, eb);
    lemma_walks_in_step(
        m, a, b, d, k, e, f, bound, x1, y1, z1, path, strict, false, em, ea, eb,
    );
    let pm = walk_items(m, bound, x1, path, strict, em);
    let pa = walk_items(a, bound, y1, path, strict, ea);
    let pb = walk_items(b, bound, z1, path, strict, eb);
    assert((seq![y[k]] + y2).skip(1) == y2);
    assert((seq![z[k]] + z2).skip(1) == z2);
    if pm.failure is None {
        let qa = Walked { pages: pa.pages.push(joined_path(path, e.name@)), ..pa };
        let qb = Walked { pages: pb.pages.push(joined_path(path, f.name@)), ..pb };
        let n = pm.pages.len() as int;
        assert(qa.pages == pm.pages.insert(n, joined_path(path, e.name@)));
        assert(qb.pages == pm.pages.insert(n, joined_path(path, f.name@)));
        assert(one_page_more(pm.pages, qa.pages, qb.pages, e.name@, f.name@));
        assert(fate(y[k]->Entry_0, bound) == Fate::Page);
        assert(fate(z[k]->Entry_0, bound) == Fate::Page);
        lemma_room_shrinks(m, em.visited, pm.visited);
        lemma_walks_in_step(
            m, a, b, d, k, e, f, bound, x2, y2, z2, path, strict, true, pm, qa, qb,
        );
    }
}

/// Walks from the root in step.
proof fn lemma_roots_in_step(
    m: Seq<DirRecord>,
    a: Seq<DirRecord>,
    b: Seq<DirRecord>,
    d: Seq<u8>,
    k: int,
    e: DirEntry,
    f: DirEntry,
    root: Seq<u8>,
    strict: bool,
)
    requires
        one_more(m, a, d, k, e),
        one_more(m, b, d, k, f),
        fate(e, root) == Fate::Page,
        fate(f, root) == Fate::Page,
        walk_from(m, root, strict).failure is None,
        walk_from(m, root, strict).visited.contains(d),
    ensures
        walk_from(a, root, strict).failure is None,
        walk_from(b, root, strict).failure is None,
        one_page_more(
            walk_from(m, root, strict).pages,
            walk_from(a, root, strict).pages,
            walk_from(b, root, strict).pages,
            e.name@,
            f.name@,
        ),
{
    let none = Walked { pages: seq![], visited: Set::empty(), failure: None };
    let start = Walked { pages: seq![], visited: set![root], failure: None };
    assert(start.visited =~= none.visited.insert(root));
    lemma_searches_in_step(
        m, a, b, d, k, e, f, root, root, seq![], strict, false, none, none, none,
    );
    assert(walk_from(m, root, strict) == searched(m, root, root, seq![], strict, start));
    assert(walk_from(a, root, strict) == searched(a, root, root, seq![], strict, start));
    assert(walk_from(b, root, strict) == searched(b, root, root, seq![], strict, start));
}

/// The elements of a list with one element more.
proof fn lemma_insert_to_set(s: Seq<Seq<u8>>, i: int, x: Seq<u8>)
    requires
        0 <= i <= s.len(),
    ensures
        s.insert(i, x).to_set() == s.to_set().insert(x),
        s.insert(i, x).no_duplicates() ==> !s.contains(x),
{
    let t = s.insert(i, x);
    assert(t[i] == x);
    assert forall|y: Seq<u8>| #[trigger] t.to_set().contains(y) <==> s.to_set().insert(x).contains(
        y,
    ) by {
        if s.contains(y) {
            let j = choose|j: int| 0 <= j < s.len() && s[j] == y;
            if j < i {
                assert(t[j] == y);
            } else {
                assert(t[j + 1] == y);
            }
        }
        if t.contains(y) && y != x {
            let j = choose|j: int| 0 <= j < t.len() && t[j] == y;
            if j < i {
                assert(s[j] == y);
            } else {
                assert(s[j - 1] == y);
            }
        }
    }
    assert(t.to_set() =~= s.to_set().insert(x));
    if t.no_duplicates() && s.contains(x) {
        let j = choose|j: int| 0 <= j < s.len() && s[j] == x;
        if j < i {
            assert(t[j] == t[i]);
        } else {
            assert(t[j + 1] == t[i]);
        }
    }
}

/// A page that is added to a directory of the walk is added to the list of pages, and the list
/// has no other page more. Read backwards: a page that is removed is gone from the list.
pub proof fn law_added_page_is_listed(
    m: Seq<DirRecord>,
    a: Seq<DirRecord>,
    d: Seq<u8>,
    k: int,
    e: DirEntry,
    root: Seq<u8>,
    before: Seq<Seq<u8>>,
    after: Seq<Seq<u8>>,
)
    requires
        one_more(m, a, d, k, e),
        fate(e, root) == Fate::Page,
        walk_from(m, root, false).failure is None,
        walk_from(m, root, false).visited.contains(d),
        named(a),
        distinct(a),
        before.to_set() == walk_from(m, root, false).pages.to_set(),
        after.to_set() == walk_from(a, root, false).pages.to_set(),
    ensures
        walk_from(a, root, false).failure is None,
        exists|rel: Seq<u8>|
            !before.contains(#[trigger] joined_path(rel, e.name@)) && after.to_set()
                == before.to_set().insert(joined_path(rel, e.name@)),
        before != after,
{
    lemma_roots_in_step(m, a, a, d, k, e, e, root, false);
    law_no_page_twice(a, root, false);
    let o = walk_from(m, root, false).pages;
    let p = walk_from(a, root, false).pages;
    let (i, rel) = choose|i: int, rel: Seq<u8>|
        #![trigger o.insert(i, joined_path(rel, e.name@))]
        0 <= i <= o.len() && p == o.insert(i, joined_path(rel, e.name@)) && p == o.insert(
            i,
            joined_path(rel, e.name@),
        );
    let x = joined_path(rel, e.name@);
    lemma_insert_to_set(o, i, x);
    assert(!o.to_set().contains(x));
    assert(!before.to_set().contains(x));
    assert(after.to_set().contains(x));
}

/// A page that is renamed within its directory changes the list: the snapshots `a` and `b` are the
/// snapshot `m` with one page more, under different names.
pub proof fn law_renamed_page_changes_list(
    m: Seq<DirRecord>,
    a: Seq<DirRecord>,
    b: Seq<DirRecord>,
    d: Seq<u8>,
    k: int,
    e: DirEntry,
    f: DirEntry,
    root: Seq<u8>,
    before: Seq<Seq<u8>>,
    after: Seq<Seq<u8>>,
)
    requires
        one_more(m, a, d, k, e),
        one_more(m, b, d, k, f),
        fate(e, root) == Fate::Page,
        fate(f, root) == Fate::Page,
        e.name@ != f.name@,
        walk_from(m, root, false).failure is None,
        walk_from(m, root, false).visited.contains(d),
        named(a),
        distinct(a),
        before.to_set() == walk_from(a, root, false).pages.to_set(),
        after.to_set() == walk_from(b, root, false).pages.to_set(),
    ensures
        walk_from(a, root, false).failure is None,
        walk_from(b, root, false).failure is None,
        before != after,
{
    lemma_roots_in_step(m, a, b, d, k, e, f, root, false);
    law_no_page_twice(a, root, false);
    let o = walk_from(m, root, false).pages;
    let p = walk_from(a, root, false).pages;
    let q = walk_from(b, root, false).pages;
    let (i, rel) = choose|i: int, rel: Seq<u8>|
        #![trigger o.insert(i, joined_path(rel, e.name@))]
        0 <= i <= o.len() && p == o.insert(i, joined_path(rel, e.name@)) && q == o.insert(
            i,
            joined_path(rel, f.name@),
        );
    let x = joined_path(rel, e.name@);
    let y = joined_path(rel, f.name@);
    assert(x != y) by {
        let n = joined_path(rel, seq![]).len() as int;
        assert(x.skip(n) == e.name@);
        assert(y.skip(n) == f.name@);
    }
    lemma_insert_to_set(o, i, x);
    lemma_insert_to_set(o, i, y);
    assert(!o.to_set().contains(x));
    assert(p.to_set().contains(x));
    assert(!q.to_set().contains(x));
}

// ---------------------------------------------------------------------------
// The mirror
// ---------------------------------------------------------------------------
/// A walk that failed steps would stop, and that was not stopped, is the same without that rule.
proof fn lemma_unstopped_walk(
    fs: Seq<DirRecord>,
    bound: Seq<u8>,
    items: Seq<DirItem>,
    rel: Seq<u8>,
    st: Walked,
)
    requires
        walk_items(fs, bound, items, rel, true, st).failure is None,
    ensures
        walk_items(fs, bound, items, rel, false, st) == walk_items(
            fs,
            bound,
            items,
            rel,
            true,
            st,
        ),
    decreases room(fs, st.visited), items.len(),
{
    if st.failure is Some || items.len() == 0 {
    } else {
        let rest = items.skip(1);
        match items[0] {
            DirItem::Entry(e) => match fate(e, bound) {
                Fate::Skip => {
                    lemma_unstopped_walk(fs, bound, rest, rel, st);
                },
                Fate::Page => {
                    lemma_unstopped_walk(
                        fs,
                        bound,
                        rest,
                        rel,
                        Walked { pages: st.pages.push(joined_path(rel, e.name@)), ..st },
                    );
                },
                Fate::Enter(c) => {
                    if st.visited.contains(c) {
                        lemma_unstopped_walk(fs, bound, rest, rel, st);
                    } else {
                        let entered = Walked { visited: st.visited.insert(c), ..st };
                        let path = joined_path(rel, e.name@);
                        let inner = searched(fs, bound, c, path, true, entered);
                        let left = Walked {
                            visited: entered.visited.union(inner.visited),
                            ..inner
                        };
                        assert(walk_items(fs, bound, items, rel, true, st) == walk_items(
                            fs,
                            bound,
                            rest,
                            rel,
                            true,
                            left,
                        ));
                        assert(inner.failure is None);
                        if let Some(Listing::Items(v)) = listing_at(fs, c) {
                            lemma_room_insert(fs, st.visited, c);
                            lemma_unstopped_walk(fs, bound, v@, path, entered);
                        }
                        lemma_room_shrinks(fs, st.visited, left.visited);
                        lemma_unstopped_walk(fs, bound, rest, rel, left);
                    }
                },
            },
            DirItem::Failed(m) => {},
            DirItem::Gone => {
                lemma_unstopped_walk(fs, bound, rest, rel, st);
            },
        }
    }
}

/// A mirror that was made completely is of the listed pages.
pub proof fn law_complete_mirror_is_the_list(fs: Seq<DirRecord>, root: Seq<u8>)
    requires
        walk_from(fs, root, true).failure is None,
    ensures
        walk_from(fs, root, false) == walk_from(fs, root, true),
{
    if let Some(Listing::Items(v)) = listing_at(fs, root) {
        lemma_unstopped_walk(
            fs,
            root,
            v@,
            seq![],
            Walked { pages: seq![], visited: set![root], failure: None },
        );
    }
}

/// The path of the summary.
pub open spec fn summary_path() -> Seq<u8> {
    encode_utf8("SUMMARY.md"@)
}

/// The files of the mirror, after the pages `create` were added to those that are present and the
/// summary was written where there was none.
pub open spec fn mirror_files(present: Set<Seq<u8>>, create: Seq<Seq<u8>>) -> Set<Seq<u8>> {
    present.union(create.to_set()).insert(summary_path())
}

/// After the mirror was cleared, filled again and summarised, its files are the listed pages and
/// the summary, and nothing else. There is a summary among the pages, which is kept, exactly where
/// the list has one; elsewhere it is written anew.
pub proof fn law_resync_holds_listed_pages(
    fs: Seq<DirRecord>,
    root: Seq<u8>,
    list: Seq<Seq<u8>>,
    create: Seq<Seq<u8>>,
)
    requires
        walk_from(fs, root, true).failure is None,
        ascending(list),
        list.to_set() == walk_from(fs, root, false).pages.to_set(),
        create == fresh(walk_from(fs, root, true).pages, Set::empty()),
    ensures
        mirror_files(Set::empty(), create) == list.to_set().insert(summary_path()),
        create.contains(summary_path()) <==> list.contains(summary_path()),
{
    let pages = walk_from(fs, root, true).pages;
    let none = Set::<Seq<u8>>::empty();
    law_complete_mirror_is_the_list(fs, root);
    law_mirror_covers(pages, none);
    law_mirror_creates_missing_pages(pages, none);
    assert forall|x: Seq<u8>| #[trigger] create.to_set().contains(x) <==> list.to_set().contains(
        x,
    ) by {
        if pages.contains(x) {
            let i = choose|i: int| 0 <= i < pages.len() && pages[i] == x;
            assert(none.union(create.to_set()).contains(pages[i]));
        }
        if create.to_set().contains(x) {
            assert(create.contains(x));
        }
        assert(list.to_set().contains(x) == pages.to_set().contains(x));
    }
    assert(create.to_set() =~= list.to_set());
    assert(none.union(create.to_set()) =~= list.to_set());
    assert(create.to_set().contains(summary_path()) == create.contains(summary_path()));
    assert(list.to_set().contains(summary_path()) == list.contains(summary_path()));
}

} // verus!
