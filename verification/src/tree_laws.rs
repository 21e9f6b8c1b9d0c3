//! The pages of a chapter tree are the listed pages: what holds of a source directory without
//! links.

use vstd::multiset::Multiset;
use vstd::prelude::*;
use vstd::seq_lib::{lemma_multiset_commutative, to_multiset_contains};
use vstd::utf8::{
    decode_utf8_encode_utf8, encode_utf8, encode_utf8_decode_utf8, encode_utf8_valid_utf8,
    is_ascii_chars_encode_utf8,
};

use crate::chapter::{
    bare_chapter, chapter_at, chapter_of, dir_title, grow, holds_nothing, lemma_scan_room, scan,
    tree_of, unread, with_page, Chapter, Grown, Scanned,
};
use crate::chapter_laws::{is_listed_name, lemma_scan_differs};
use crate::named::{
    insert_named, law_sort_keeps_names_apart, law_sort_permutes, names_differ, sort_named,
};
use crate::order::lex_le;
use crate::os_path::{file_name, joined_path, opt_bytes, segments, SEP};
use crate::utf8::utf8;
use crate::walk::{
    fate, lemma_room_insert, lemma_room_shrinks, listing_at, room, walk_from, walk_items, DirEntry,
    DirItem, DirRecord, Fate, Listing, Walked,
};
use crate::walk_laws::{
    distinct, distinct_items, entry_segments, is_entry_name, law_no_page_twice, lemma_distinct,
    lemma_entry_segments, lemma_lies_above, lemma_lies_at_one, lemma_named, lies_at, named,
    named_items,
};

verus! {

// ---------------------------------------------------------------------------
// Directories without links
// ---------------------------------------------------------------------------
/// The path of a directory, with a separator at its end.
pub open spec fn slash(k: Seq<u8>) -> Seq<u8> {
    if k.len() > 0 && k.last() == SEP {
        k
    } else {
        k.push(SEP)
    }
}

/// The path of the entry `n` of the directory `k`.
pub open spec fn child_of(k: Seq<u8>, n: Seq<u8>) -> Seq<u8> {
    slash(k) + n
}

/// The path `x` leads through the directory `k`, and further.
pub open spec fn strictly_below(x: Seq<u8>, k: Seq<u8>) -> bool {
    slash(k).is_prefix_of(x) && x.len() > slash(k).len()
}

/// The path `x` is that of the directory `k`, or leads through it.
pub open spec fn is_below(x: Seq<u8>, k: Seq<u8>) -> bool {
    x == k || strictly_below(x, k)
}

/// None of the entries of the directory `key` is a link, and the canonical path of a directory
/// among them is that of `key` with its name.
pub open spec fn real_items(items: Seq<DirItem>, key: Seq<u8>) -> bool {
    forall|i: int|
        0 <= i < items.len() ==> match #[trigger] items[i] {
            DirItem::Entry(e) => !e.symlink && (e.dir ==> match opt_bytes(e.canonical) {
                Some(c) => c == child_of(key, e.name@),
                None => true,
            }),
            _ => true,
        }
}

/// The snapshot holds no links.
pub open spec fn linkless(fs: Seq<DirRecord>) -> bool {
    forall|key: Seq<u8>|
        match #[trigger] listing_at(fs, key) {
            Some(Listing::Items(v)) => real_items(v@, key),
            _ => true,
        }
}

/// What is below an entry of a directory is below the directory.
proof fn lemma_below_child(x: Seq<u8>, k: Seq<u8>, n: Seq<u8>)
    requires
        is_entry_name(n),
        is_below(x, child_of(k, n)),
    ensures
        strictly_below(x, k),
{
    let c = child_of(k, n);
    let s = slash(k);
    assert(s == c.subrange(0, s.len() as int));
    if x != c {
        let t = slash(c);
        assert(t == x.subrange(0, t.len() as int));
        assert(c == t.subrange(0, c.len() as int));
        assert(s == x.subrange(0, s.len() as int));
    }
}

/// What is below one entry of a directory is not below another.
proof fn lemma_below_one_child(x: Seq<u8>, k: Seq<u8>, n: Seq<u8>, m: Seq<u8>)
    requires
        is_entry_name(n),
        is_entry_name(m),
        is_below(x, child_of(k, n)),
        is_below(x, child_of(k, m)),
    ensures
        n == m,
{
    lemma_name_below(x, k, n);
    lemma_name_below(x, k, m);
    let base = slash(k).len() as int;
    if n.len() < m.len() {
        assert(m[n.len() as int] == x[base + n.len()]);
    } else if m.len() < n.len() {
        assert(n[m.len() as int] == x[base + m.len()]);
    }
    assert(n == m);
}

/// Where the name of the entry stands in a path below it.
proof fn lemma_name_below(x: Seq<u8>, k: Seq<u8>, n: Seq<u8>)
    requires
        is_entry_name(n),
        is_below(x, child_of(k, n)),
    ensures
        ({
            let base = slash(k).len() as int;
            &&& x.len() >= base + n.len()
            &&& n == x.subrange(base, base + n.len())
            &&& x.len() > base + n.len() ==> x[base + n.len()] == SEP
        }),
{
    let c = child_of(k, n);
    let base = slash(k).len() as int;
    assert(c.last() == n.last() && n[n.len() - 1] != SEP);
    if x == c {
        assert(n == x.subrange(base, base + n.len()));
    } else {
        let t = slash(c);
        assert(t == c.push(SEP));
        assert(t == x.subrange(0, t.len() as int));
        assert(x[base + n.len()] == t[c.len() as int]);
        assert forall|i: int| 0 <= i < n.len() implies n[i] == x.subrange(base, base + n.len())[i] by {
            assert(x[base + i] == t[base + i]);
            assert(t[base + i] == n[i]);
        }
        assert(n == x.subrange(base, base + n.len()));
    }
}

// ---------------------------------------------------------------------------
// The pages of a directory
// ---------------------------------------------------------------------------
/// The length of the longest recorded path.
pub open spec fn longest(fs: Seq<DirRecord>) -> nat
    decreases fs.len(),
{
    if fs.len() == 0 {
        0
    } else if fs[0].path@.len() > longest(fs.skip(1)) {
        fs[0].path@.len()
    } else {
        longest(fs.skip(1))
    }
}

/// A recorded path is not longer than the longest.
pub proof fn lemma_longest(fs: Seq<DirRecord>, key: Seq<u8>)
    ensures
        listing_at(fs, key) is Some ==> key.len() <= longest(fs),
    decreases fs.len(),
{
    if fs.len() > 0 {
        lemma_longest(fs.skip(1), key);
    }
}

/// How much longer the path of a directory can get.
pub open spec fn height(fs: Seq<DirRecord>, key: Seq<u8>) -> nat {
    if key.len() > longest(fs) {
        0
    } else {
        (longest(fs) - key.len() + 1) as nat
    }
}

/// The pages of the given items of the directory `key`, and of all that they lead to, in order.
pub open spec fn pages_under(
    fs: Seq<DirRecord>,
    bound: Seq<u8>,
    key: Seq<u8>,
    items: Seq<DirItem>,
    rel: Seq<u8>,
) -> Seq<Seq<u8>>
    decreases height(fs, key), items.len(),
{
    if items.len() == 0 {
        seq![]
    } else {
        let own = match items[0] {
            DirItem::Entry(e) => match fate(e, bound) {
                Fate::Page => seq![joined_path(rel, e.name@)],
                Fate::Enter(c) => match listing_at(fs, c) {
                    Some(Listing::Items(v)) => if c.len() > key.len() {
                        proof {
                            lemma_longest(fs, c);
                        }
                        pages_under(fs, bound, c, v@, joined_path(rel, e.name@))
                    } else {
                        seq![]
                    },
                    _ => seq![],
                },
                Fate::Skip => seq![],
            },
            _ => seq![],
        };
        own + pages_under(fs, bound, key, items.skip(1), rel)
    }
}

/// The rest of a list has distinct names, as the list has.
proof fn lemma_rest_distinct(items: Seq<DirItem>)
    requires
        items.len() > 0,
        distinct_items(items),
    ensures
        distinct_items(items.skip(1)),
{
    let rest = items.skip(1);
    assert forall|i: int, j: int| #![trigger rest[i], rest[j]] 0 <= i < j < rest.len() implies match (
        rest[i],
        rest[j],
    ) {
        (DirItem::Entry(e), DirItem::Entry(f)) => e.name@ != f.name@,
        _ => true,
    } by {
        assert(rest[i] == items[i + 1] && rest[j] == items[j + 1]);
    }
}

/// The rest of a list has what the list has.
proof fn lemma_rest(items: Seq<DirItem>, key: Seq<u8>)
    requires
        items.len() > 0,
        named_items(items),
        distinct_items(items),
        real_items(items, key),
    ensures
        named_items(items.skip(1)),
        distinct_items(items.skip(1)),
        real_items(items.skip(1), key),
{
    let rest = items.skip(1);
    assert forall|i: int| 0 <= i < rest.len() implies #[trigger] rest[i] == items[i + 1] by {}
    lemma_rest_distinct(items);
}

/// No visited directory is below one of the entries.
pub open spec fn is_clear(visited: Set<Seq<u8>>, items: Seq<DirItem>, key: Seq<u8>) -> bool {
    forall|x: Seq<u8>, i: int|
        #![trigger visited.contains(x), items[i]]
        visited.contains(x) && 0 <= i < items.len() ==> match items[i] {
            DirItem::Entry(e) => !is_below(x, child_of(key, e.name@)),
            _ => true,
        }
}

/// Every directory of `after` is one of `before`, or below the directory `key`.
pub open spec fn grows_below(
    before: Set<Seq<u8>>,
    after: Set<Seq<u8>>,
    key: Seq<u8>,
) -> bool {
    forall|x: Seq<u8>| #[trigger] after.contains(x) ==> before.contains(x) || strictly_below(x, key)
}

/// Below a directory in which nothing was visited, its entries are clear.
proof fn lemma_clear_inside(visited: Set<Seq<u8>>, items: Seq<DirItem>, key: Seq<u8>)
    requires
        named_items(items),
        forall|x: Seq<u8>| #[trigger] visited.contains(x) ==> !strictly_below(x, key),
    ensures
        is_clear(visited, items, key),
{
    assert forall|x: Seq<u8>, i: int|
        #![trigger visited.contains(x), items[i]]
        visited.contains(x) && 0 <= i < items.len() implies match items[i] {
        DirItem::Entry(e) => !is_below(x, child_of(key, e.name@)),
        _ => true,
    } by {
        if let DirItem::Entry(e) = items[i] {
            assert(is_entry_name(e.name@));
            if is_below(x, child_of(key, e.name@)) {
                lemma_below_child(x, key, e.name@);
            }
        }
    }
}

/// Without links, a walk finds the pages of each directory one after the other.
proof fn lemma_walk_pages(
    fs: Seq<DirRecord>,
    bound: Seq<u8>,
    key: Seq<u8>,
    items: Seq<DirItem>,
    rel: Seq<u8>,
    strict: bool,
    st: Walked,
)
    requires
        linkless(fs),
        named(fs),
        distinct(fs),
        named_items(items),
        distinct_items(items),
        real_items(items, key),
        is_clear(st.visited, items, key),
        walk_items(fs, bound, items, rel, strict, st).failure is None,
    ensures
        ({
            let r = walk_items(fs, bound, items, rel, strict, st);
            &&& r.pages == st.pages + pages_under(fs, bound, key, items, rel)
            &&& grows_below(st.visited, r.visited, key)
        }),
    decreases room(fs, st.visited), items.len(),
{
    let r = walk_items(fs, bound, items, rel, strict, st);
    if st.failure is Some || items.len() == 0 {
        assert(st.pages + pages_under(fs, bound, key, Seq::<DirItem>::empty(), rel) == st.pages);
        assert(items.len() == 0);
        assert(r.pages == st.pages + pages_under(fs, bound, key, items, rel));
    } else {
        let rest = items.skip(1);
        let more = pages_under(fs, bound, key, rest, rel);
        lemma_rest(items, key);
        assert(is_clear(st.visited, rest, key)) by {
            assert forall|x: Seq<u8>, i: int|
                #![trigger st.visited.contains(x), rest[i]]
                st.visited.contains(x) && 0 <= i < rest.len() implies match rest[i] {
                DirItem::Entry(e) => !is_below(x, child_of(key, e.name@)),
                _ => true,
            } by {
                assert(rest[i] == items[i + 1]);
            }
        }
        match items[0] {
            DirItem::Entry(e) => match fate(e, bound) {
                Fate::Skip => {
                    lemma_walk_pages(fs, bound, key, rest, rel, strict, st);
                    assert(Seq::<Seq<u8>>::empty() + more == more);
                },
                Fate::Page => {
                    let page = joined_path(rel, e.name@);
                    let next = Walked { pages: st.pages.push(page), ..st };
                    lemma_walk_pages(fs, bound, key, rest, rel, strict, next);
                    assert(st.pages + (seq![page] + more) == st.pages.push(page) + more);
                },
                Fate::Enter(c) => {
                    assert(is_entry_name(e.name@));
                    assert(c == child_of(key, e.name@));
                    assert(!st.visited.contains(c));
                    let path = joined_path(rel, e.name@);
                    let entered = Walked { visited: st.visited.insert(c), ..st };
                    let inner = match listing_at(fs, c) {
                        Some(Listing::Items(v)) => walk_items(fs, bound, v@, path, strict, entered),
                        Some(Listing::Failed(m)) => Walked { failure: Some(m@), ..entered },
                        _ => entered,
                    };
                    let left = Walked { visited: entered.visited.union(inner.visited), ..inner };
                    assert(r == walk_items(fs, bound, rest, rel, strict, left));
                    assert(inner.failure is None);
                    let own = match listing_at(fs, c) {
                        Some(Listing::Items(v)) => pages_under(fs, bound, c, v@, path),
                        _ => seq![],
                    };
                    if let Some(Listing::Items(v)) = listing_at(fs, c) {
                        lemma_named(fs, c);
                        lemma_distinct(fs, c);
                        assert forall|x: Seq<u8>| #[trigger]
                            entered.visited.contains(x) implies !strictly_below(x, c) by {
                            if x != c {
                                assert(st.visited.contains(x));
                                assert(!is_below(x, child_of(key, e.name@)));
                            }
                        }
                        lemma_clear_inside(entered.visited, v@, c);
                        lemma_room_insert(fs, st.visited, c);
                        lemma_walk_pages(fs, bound, c, v@, path, strict, entered);
                    } else {
                        assert(st.pages + own == st.pages);
                    }
                    assert(inner.pages == st.pages + own);
                    assert forall|x: Seq<u8>| #[trigger] left.visited.contains(x) implies
                        st.visited.contains(x) || is_below(x, c) by {}
                    assert(is_clear(left.visited, rest, key)) by {
                        assert forall|x: Seq<u8>, i: int|
                            #![trigger left.visited.contains(x), rest[i]]
                            left.visited.contains(x) && 0 <= i < rest.len() implies match rest[i] {
                            DirItem::Entry(f) => !is_below(x, child_of(key, f.name@)),
                            _ => true,
                        } by {
                            assert(rest[i] == items[i + 1]);
                            if let DirItem::Entry(f) = rest[i] {
                                assert(is_entry_name(f.name@));
                                assert(e.name@ != f.name@);
                                if !st.visited.contains(x) && is_below(
                                    x,
                                    child_of(key, f.name@),
                                ) {
                                    lemma_below_one_child(x, key, e.name@, f.name@);
                                }
                            }
                        }
                    }
                    lemma_room_shrinks(fs, st.visited, left.visited);
                    lemma_walk_pages(fs, bound, key, rest, rel, strict, left);
                    assert((st.pages + own) + more == st.pages + (own + more));
                    assert(grows_below(st.visited, r.visited, key)) by {
                        assert forall|x: Seq<u8>| #[trigger] r.visited.contains(x) implies
                            st.visited.contains(x) || strictly_below(x, key) by {
                            if left.visited.contains(x) && !st.visited.contains(x) {
                                lemma_below_child(x, key, e.name@);
                            }
                        }
                    }
                },
            },
            DirItem::Failed(m) => {
                lemma_walk_pages(fs, bound, key, rest, rel, strict, st);
                assert(Seq::<Seq<u8>>::empty() + more == more);
            },
            DirItem::Gone => {
                lemma_walk_pages(fs, bound, key, rest, rel, strict, st);
                assert(Seq::<Seq<u8>>::empty() + more == more);
            },
        }
    }
}

// ---------------------------------------------------------------------------
// Pages of the book
// ---------------------------------------------------------------------------
/// The name of an index page, in bytes.
pub open spec fn index_name() -> Seq<u8> {
    encode_utf8("index.md"@)
}

/// The path of the index page in the directory of the page `p`.
pub open spec fn index_beside(p: Seq<u8>) -> Seq<u8> {
    p.take(p.len() - segments(p).last().len()) + index_name()
}

/// The page `p`, one of the pages `all`, is a page of the book: it is not `SUMMARY.md`, and not a
/// `README.md` beside an `index.md`.
pub open spec fn is_book_page(p: Seq<u8>, all: Seq<Seq<u8>>) -> bool {
    let name = utf8(segments(p).last());
    name != Some("SUMMARY.md"@) && !(name == Some("README.md"@) && all.contains(index_beside(p)))
}

/// The pages of the book among the pages `ps`, in their order.
pub open spec fn book_pages(ps: Seq<Seq<u8>>, all: Seq<Seq<u8>>) -> Seq<Seq<u8>>
    decreases ps.len(),
{
    if ps.len() == 0 {
        seq![]
    } else if is_book_page(ps[0], all) {
        seq![ps[0]] + book_pages(ps.skip(1), all)
    } else {
        book_pages(ps.skip(1), all)
    }
}

/// The pages of the book among two lists, one after the other.
proof fn lemma_book_pages_add(a: Seq<Seq<u8>>, b: Seq<Seq<u8>>, all: Seq<Seq<u8>>)
    ensures
        book_pages(a + b, all) == book_pages(a, all) + book_pages(b, all),
    decreases a.len(),
{
    if a.len() == 0 {
        assert(a + b == b);
        assert(book_pages(a + b, all) == book_pages(a, all) + book_pages(b, all));
    } else {
        assert((a + b).skip(1) == a.skip(1) + b);
        lemma_book_pages_add(a.skip(1), b, all);
        assert(book_pages(a + b, all) == book_pages(a, all) + book_pages(b, all));
    }
}

/// Which pages are pages of the book; and none of them is there twice where no page is.
proof fn lemma_book_pages(ps: Seq<Seq<u8>>, all: Seq<Seq<u8>>)
    ensures
        forall|p: Seq<u8>| #[trigger]
            book_pages(ps, all).contains(p) <==> ps.contains(p) && is_book_page(p, all),
        ps.no_duplicates() ==> book_pages(ps, all).no_duplicates(),
    decreases ps.len(),
{
    if ps.len() > 0 {
        let rest = ps.skip(1);
        let r = book_pages(ps, all);
        let later = book_pages(rest, all);
        lemma_book_pages(rest, all);
        assert forall|p: Seq<u8>| #[trigger] r.contains(p) <==> ps.contains(p) && is_book_page(
            p,
            all,
        ) by {
            if r.contains(p) {
                let k = choose|k: int| 0 <= k < r.len() && r[k] == p;
                if is_book_page(ps[0], all) {
                    if k == 0 {
                        assert(ps[0] == p);
                    } else {
                        assert(later[k - 1] == p);
                    }
                } else {
                    assert(later[k] == p);
                }
                if later.contains(p) {
                    let m = choose|m: int| 0 <= m < rest.len() && rest[m] == p;
                    assert(ps[m + 1] == p);
                }
            }
            if ps.contains(p) && is_book_page(p, all) {
                let m = choose|m: int| 0 <= m < ps.len() && ps[m] == p;
                if m == 0 {
                    assert(r[0] == p);
                } else {
                    assert(rest[m - 1] == p);
                    assert(later.contains(p));
                    let k = choose|k: int| 0 <= k < later.len() && later[k] == p;
                    if is_book_page(ps[0], all) {
                        assert(r[k + 1] == p);
                    } else {
                        assert(r[k] == p);
                    }
                }
            }
        }
        if ps.no_duplicates() {
            assert(rest.no_duplicates()) by {
                assert forall|i: int, j: int|
                    0 <= i < rest.len() && 0 <= j < rest.len() && i != j implies rest[i]
                    != rest[j] by {
                    assert(ps[i + 1] != ps[j + 1]);
                }
            }
            assert(!later.contains(ps[0])) by {
                if later.contains(ps[0]) {
                    let m = choose|m: int| 0 <= m < rest.len() && rest[m] == ps[0];
                    assert(ps[m + 1] == ps[0]);
                }
            }
            assert forall|i: int, j: int|
                0 <= i < r.len() && 0 <= j < r.len() && i != j implies r[i] != r[j] by {
                if is_book_page(ps[0], all) {
                    if i == 0 {
                        assert(later[j - 1] == r[j]);
                        assert(later.contains(r[j]));
                    } else if j == 0 {
                        assert(later[i - 1] == r[i]);
                        assert(later.contains(r[i]));
                    } else {
                        assert(r[i] == later[i - 1] && r[j] == later[j - 1]);
                    }
                }
            }
        }
    }
}

/// The list has an index page.
pub open spec fn has_index(items: Seq<DirItem>, bound: Seq<u8>) -> bool {
    exists|i: int|
        0 <= i < items.len() && (#[trigger] items[i] matches DirItem::Entry(e) && fate(e, bound)
            == Fate::Page && utf8(e.name@) == Some("index.md"@))
}

/// The page with this name is a page of the book; `indexed` says whether there is an index page
/// beside it.
pub open spec fn stays(name: Seq<u8>, indexed: bool) -> bool {
    utf8(name) != Some("SUMMARY.md"@) && !(utf8(name) == Some("README.md"@) && indexed)
}

/// The pages of the book among those of the given items of the directory `key`, and of all that
/// they lead to, in order.
pub open spec fn kept_under(
    fs: Seq<DirRecord>,
    bound: Seq<u8>,
    key: Seq<u8>,
    items: Seq<DirItem>,
    rel: Seq<u8>,
    indexed: bool,
) -> Seq<Seq<u8>>
    decreases height(fs, key), items.len(),
{
    if items.len() == 0 {
        seq![]
    } else {
        let own = match items[0] {
            DirItem::Entry(e) => match fate(e, bound) {
                Fate::Page => if stays(e.name@, indexed) {
                    seq![joined_path(rel, e.name@)]
                } else {
                    seq![]
                },
                Fate::Enter(c) => match listing_at(fs, c) {
                    Some(Listing::Items(v)) => if c.len() > key.len() {
                        proof {
                            lemma_longest(fs, c);
                        }
                        kept_under(
                            fs,
                            bound,
                            c,
                            v@,
                            joined_path(rel, e.name@),
                            has_index(v@, bound),
                        )
                    } else {
                        seq![]
                    },
                    _ => seq![],
                },
                Fate::Skip => seq![],
            },
            _ => seq![],
        };
        own + kept_under(fs, bound, key, items.skip(1), rel, indexed)
    }
}

/// The item is the page `p`, or a directory in which it is found.
pub open spec fn gives(
    fs: Seq<DirRecord>,
    bound: Seq<u8>,
    key: Seq<u8>,
    item: DirItem,
    rel: Seq<u8>,
    p: Seq<u8>,
) -> bool {
    match item {
        DirItem::Entry(e) => match fate(e, bound) {
            Fate::Page => p == joined_path(rel, e.name@),
            Fate::Enter(c) => match listing_at(fs, c) {
                Some(Listing::Items(v)) => c.len() > key.len() && pages_under(
                    fs,
                    bound,
                    c,
                    v@,
                    joined_path(rel, e.name@),
                ).contains(p),
                _ => false,
            },
            Fate::Skip => false,
        },
        _ => false,
    }
}

/// A page lies at the entry that it is.
proof fn lemma_page_lies(rel: Seq<u8>, name: Seq<u8>)
    requires
        is_entry_name(name),
    ensures
        lies_at(joined_path(rel, name), rel, name),
        segments(joined_path(rel, name)) == entry_segments(rel, name),
        segments(joined_path(rel, name)).last() == name,
        index_beside(joined_path(rel, name)) == joined_path(rel, index_name()),
{
    lemma_entry_segments(rel, name);
    let p = joined_path(rel, name);
    let x = segments(p);
    assert(x == entry_segments(rel, name));
    assert(x == x.subrange(0, x.len() as int));
    assert(x.last() == name);
    if rel.len() == 0 {
        assert(p.take(p.len() - name.len()) == Seq::<u8>::empty());
        assert(index_beside(p) == joined_path(rel, index_name()));
    } else {
        assert(p.take(p.len() - name.len()) == rel + seq![SEP]);
        assert(index_beside(p) == joined_path(rel, index_name()));
    }
}

/// Every page that is found is given by an item, at which it lies.
proof fn lemma_found_is_given(
    fs: Seq<DirRecord>,
    bound: Seq<u8>,
    key: Seq<u8>,
    items: Seq<DirItem>,
    rel: Seq<u8>,
    p: Seq<u8>,
)
    requires
        named(fs),
        named_items(items),
        pages_under(fs, bound, key, items, rel).contains(p),
    ensures
        exists|i: int|
            0 <= i < items.len() && gives(fs, bound, key, #[trigger] items[i], rel, p) && (
            items[i] matches DirItem::Entry(e) && lies_at(p, rel, e.name@)),
    decreases height(fs, key), items.len(),
{
    let all = pages_under(fs, bound, key, items, rel);
    let rest = items.skip(1);
    let more = pages_under(fs, bound, key, rest, rel);
    let k = choose|k: int| 0 <= k < all.len() && all[k] == p;
    let n = all.len() - more.len();
    if k >= n {
        assert(more[k - n] == p);
        assert forall|i: int| 0 <= i < rest.len() implies #[trigger] rest[i] == items[i + 1] by {}
        lemma_found_is_given(fs, bound, key, rest, rel, p);
        let i = choose|i: int|
            0 <= i < rest.len() && gives(fs, bound, key, #[trigger] rest[i], rel, p) && (
            rest[i] matches DirItem::Entry(e) && lies_at(p, rel, e.name@));
        assert(items[i + 1] == rest[i]);
    } else {
        match items[0] {
            DirItem::Entry(e) => {
                assert(is_entry_name(e.name@));
                let path = joined_path(rel, e.name@);
                match fate(e, bound) {
                    Fate::Page => {
                        lemma_page_lies(rel, e.name@);
                        assert(gives(fs, bound, key, items[0], rel, p));
                    },
                    Fate::Enter(c) => {
                        match listing_at(fs, c) {
                            Some(Listing::Items(v)) => {
                                let inner = pages_under(fs, bound, c, v@, path);
                                assert(inner[k] == p);
                                lemma_longest(fs, c);
                                lemma_named(fs, c);
                                lemma_found_is_given(fs, bound, c, v@, path, p);
                                let j = choose|j: int|
                                    0 <= j < v@.len() && gives(
                                        fs,
                                        bound,
                                        c,
                                        #[trigger] v@[j],
                                        path,
                                        p,
                                    ) && (v@[j] matches DirItem::Entry(f) && lies_at(
                                        p,
                                        path,
                                        f.name@,
                                    ));
                                lemma_lies_above(p, rel, e.name@, v@[j]->Entry_0.name@);
                                assert(gives(fs, bound, key, items[0], rel, p));
                            },
                            _ => {},
                        }
                    },
                    Fate::Skip => {},
                }
            },
            _ => {},
        }
    }
}

/// Every page that an item gives is found.
proof fn lemma_given_is_found(
    fs: Seq<DirRecord>,
    bound: Seq<u8>,
    key: Seq<u8>,
    items: Seq<DirItem>,
    rel: Seq<u8>,
    i: int,
    p: Seq<u8>,
)
    requires
        0 <= i < items.len(),
        gives(fs, bound, key, items[i], rel, p),
    ensures
        pages_under(fs, bound, key, items, rel).contains(p),
    decreases items.len(),
{
    let all = pages_under(fs, bound, key, items, rel);
    let rest = items.skip(1);
    let more = pages_under(fs, bound, key, rest, rel);
    let n = all.len() - more.len();
    if i == 0 {
        match items[0] {
            DirItem::Entry(e) => match fate(e, bound) {
                Fate::Page => {
                    assert(all[0] == p);
                },
                Fate::Enter(c) => match listing_at(fs, c) {
                    Some(Listing::Items(v)) => {
                        let inner = pages_under(fs, bound, c, v@, joined_path(rel, e.name@));
                        let k = choose|k: int| 0 <= k < inner.len() && inner[k] == p;
                        assert(all[k] == p);
                    },
                    _ => {},
                },
                Fate::Skip => {},
            },
            _ => {},
        }
    } else {
        assert(rest[i - 1] == items[i]);
        lemma_given_is_found(fs, bound, key, rest, rel, i - 1, p);
        let k = choose|k: int| 0 <= k < more.len() && more[k] == p;
        assert(all[n + k] == p);
    }
}

/// The page lies inside of the directory with the path `rel`.
pub open spec fn is_inside_of(p: Seq<u8>, rel: Seq<u8>) -> bool {
    rel.len() == 0 || (segments(rel).is_prefix_of(segments(p)) && segments(p).len()
        > segments(rel).len())
}

/// What lies at an entry of a directory lies inside of the directory.
proof fn lemma_lies_inside(p: Seq<u8>, rel: Seq<u8>, name: Seq<u8>)
    requires
        lies_at(p, rel, name),
    ensures
        is_inside_of(p, rel),
{
    if rel.len() > 0 {
        let x = entry_segments(rel, name);
        assert(x == segments(p).subrange(0, x.len() as int));
        assert(segments(rel) == x.subrange(0, segments(rel).len() as int));
        assert(segments(rel) == segments(p).subrange(0, segments(rel).len() as int));
    }
}

/// The pages `all` that lie inside of the directory are those found in it.
pub open spec fn accounts_for(
    fs: Seq<DirRecord>,
    bound: Seq<u8>,
    key: Seq<u8>,
    items: Seq<DirItem>,
    rel: Seq<u8>,
    all: Seq<Seq<u8>>,
) -> bool {
    forall|p: Seq<u8>|
        is_inside_of(p, rel) && #[trigger] all.contains(p) ==> pages_under(
            fs,
            bound,
            key,
            items,
            rel,
        ).contains(p)
}

/// All pages that are found are among `all`.
pub open spec fn are_among(ps: Seq<Seq<u8>>, all: Seq<Seq<u8>>) -> bool {
    forall|p: Seq<u8>| #[trigger] ps.contains(p) ==> all.contains(p)
}

/// There is an index page in a directory exactly where its list has one.
proof fn lemma_index_is_listed(
    fs: Seq<DirRecord>,
    bound: Seq<u8>,
    key: Seq<u8>,
    items: Seq<DirItem>,
    rel: Seq<u8>,
    all: Seq<Seq<u8>>,
)
    requires
        named(fs),
        named_items(items),
        accounts_for(fs, bound, key, items, rel, all),
        are_among(pages_under(fs, bound, key, items, rel), all),
    ensures
        all.contains(joined_path(rel, index_name())) <==> has_index(items, bound),
{
    let idx = index_name();
    let p = joined_path(rel, idx);
    reveal_strlit("index.md");
    encode_utf8_decode_utf8("index.md"@);
    encode_utf8_valid_utf8("index.md"@);
    assert(is_entry_name(idx)) by {
        is_ascii_chars_encode_utf8("index.md"@);
    }
    lemma_page_lies(rel, idx);
    lemma_lies_inside(p, rel, idx);
    if has_index(items, bound) {
        let i = choose|i: int|
            0 <= i < items.len() && (#[trigger] items[i] matches DirItem::Entry(e) && fate(
                e,
                bound,
            ) == Fate::Page && utf8(e.name@) == Some("index.md"@));
        let e = items[i]->Entry_0;
        decode_utf8_encode_utf8(e.name@);
        assert(e.name@ == idx);
        lemma_given_is_found(fs, bound, key, items, rel, i, p);
    }
    if all.contains(p) {
        lemma_found_is_given(fs, bound, key, items, rel, p);
        let i = choose|i: int|
            0 <= i < items.len() && gives(fs, bound, key, #[trigger] items[i], rel, p) && (
            items[i] matches DirItem::Entry(e) && lies_at(p, rel, e.name@));
        let e = items[i]->Entry_0;
        lemma_lies_at_one(p, rel, e.name@, idx);
        match fate(e, bound) {
            Fate::Enter(c) => {
                if let Some(Listing::Items(v)) = listing_at(fs, c) {
                    lemma_named(fs, c);
                    lemma_found_is_given(fs, bound, c, v@, p, p);
                    let j = choose|j: int|
                        0 <= j < v@.len() && gives(fs, bound, c, #[trigger] v@[j], p, p) && (
                        v@[j] matches DirItem::Entry(f) && lies_at(p, p, f.name@));
                    lemma_lies_inside(p, p, v@[j]->Entry_0.name@);
                }
            },
            _ => {},
        }
        assert(has_index(items, bound));
    }
}

/// The pages that lie inside of a sub-directory are those found in it.
proof fn lemma_accounts_below(
    fs: Seq<DirRecord>,
    bound: Seq<u8>,
    key: Seq<u8>,
    items: Seq<DirItem>,
    rel: Seq<u8>,
    all: Seq<Seq<u8>>,
    k: int,
    c: Seq<u8>,
    v: Seq<DirItem>,
)
    requires
        named(fs),
        named_items(items),
        distinct_items(items),
        accounts_for(fs, bound, key, items, rel, all),
        are_among(pages_under(fs, bound, key, items, rel), all),
        0 <= k < items.len(),
        items[k] matches DirItem::Entry(e) && fate(e, bound) == Fate::Enter(c),
        c.len() > key.len(),
        listing_at(fs, c) matches Some(Listing::Items(w)) && w@ == v,
    ensures
        items[k] matches DirItem::Entry(e) && {
            let path = joined_path(rel, e.name@);
            &&& accounts_for(fs, bound, c, v, path, all)
            &&& are_among(pages_under(fs, bound, c, v, path), all)
        },
{
    let e = items[k]->Entry_0;
    let path = joined_path(rel, e.name@);
    assert(is_entry_name(e.name@));
    lemma_entry_segments(rel, e.name@);
    assert(segments(path) == entry_segments(rel, e.name@));
    assert forall|p: Seq<u8>| #[trigger] pages_under(fs, bound, c, v, path).contains(p) implies
        all.contains(p) by {
        assert(gives(fs, bound, key, items[k], rel, p));
        lemma_given_is_found(fs, bound, key, items, rel, k, p);
    }
    assert forall|p: Seq<u8>| is_inside_of(p, path) && #[trigger] all.contains(p) implies pages_under(
        fs,
        bound,
        c,
        v,
        path,
    ).contains(p) by {
        assert(lies_at(p, rel, e.name@));
        lemma_lies_inside(p, rel, e.name@);
        lemma_found_is_given(fs, bound, key, items, rel, p);
        let i = choose|i: int|
            0 <= i < items.len() && gives(fs, bound, key, #[trigger] items[i], rel, p) && (
            items[i] matches DirItem::Entry(f) && lies_at(p, rel, f.name@));
        lemma_lies_at_one(p, rel, e.name@, items[i]->Entry_0.name@);
        if i < k {
            assert(items[i] is Entry && items[k] is Entry);
        } else if k < i {
            assert(items[k] is Entry && items[i] is Entry);
        }
        assert(i == k);
    }
}

/// What is kept of each directory are the pages of the book.
proof fn lemma_kept_are_book_pages(
    fs: Seq<DirRecord>,
    bound: Seq<u8>,
    key: Seq<u8>,
    items: Seq<DirItem>,
    rel: Seq<u8>,
    all: Seq<Seq<u8>>,
    k: int,
)
    requires
        named(fs),
        distinct(fs),
        named_items(items),
        distinct_items(items),
        accounts_for(fs, bound, key, items, rel, all),
        are_among(pages_under(fs, bound, key, items, rel), all),
        0 <= k <= items.len(),
    ensures
        kept_under(fs, bound, key, items.skip(k), rel, has_index(items, bound)) == book_pages(
            pages_under(fs, bound, key, items.skip(k), rel),
            all,
        ),
    decreases height(fs, key), items.len() - k,
{
    let here = items.skip(k);
    let indexed = has_index(items, bound);
    if k < items.len() {
        let rest = items.skip(k + 1);
        assert(here.skip(1) == rest);
        assert(here[0] == items[k]);
        lemma_kept_are_book_pages(fs, bound, key, items, rel, all, k + 1);
        let found = pages_under(fs, bound, key, here, rel);
        let more = pages_under(fs, bound, key, rest, rel);
        let kept = kept_under(fs, bound, key, here, rel, indexed);
        let later = kept_under(fs, bound, key, rest, rel, indexed);
        let none = Seq::<Seq<u8>>::empty();
        assert(none + more == more);
        assert(none + later == later);
        match items[k] {
            DirItem::Entry(e) => {
                assert(is_entry_name(e.name@));
                let path = joined_path(rel, e.name@);
                match fate(e, bound) {
                    Fate::Page => {
                        lemma_page_lies(rel, e.name@);
                        lemma_index_is_listed(fs, bound, key, items, rel, all);
                        assert(is_book_page(path, all) == stays(e.name@, indexed));
                        assert(found == seq![path] + more);
                        assert(found.skip(1) == more);
                        assert(kept == book_pages(found, all));
                    },
                    Fate::Enter(c) => {
                        match listing_at(fs, c) {
                            Some(Listing::Items(v)) => {
                                if c.len() > key.len() {
                                    lemma_longest(fs, c);
                                    lemma_named(fs, c);
                                    lemma_distinct(fs, c);
                                    lemma_accounts_below(
                                        fs, bound, key, items, rel, all, k, c, v@,
                                    );
                                    lemma_kept_are_book_pages(fs, bound, c, v@, path, all, 0);
                                    assert(v@.skip(0) == v@);
                                    lemma_book_pages_add(
                                        pages_under(fs, bound, c, v@, path),
                                        more,
                                        all,
                                    );
                                }
                            },
                            _ => {},
                        }
                    },
                    Fate::Skip => {},
                }
            },
            _ => {},
        }
    } else {
        assert(here.len() == 0);
        assert(book_pages(Seq::<Seq<u8>>::empty(), all) == Seq::<Seq<u8>>::empty());
    }
}

// ---------------------------------------------------------------------------
// The pages of a chapter
// ---------------------------------------------------------------------------
/// The pages of a chapter: its index page, its other pages, and those of its sub-chapters.
pub open spec fn tree_pages(c: Chapter) -> Seq<Seq<u8>>
    decreases c,
{
    let index = match c.index_rel {
        Some(rel) => seq![rel],
        None => seq![],
    };
    index + Seq::new(c.files.len(), |i: int| c.files[i].rel) + trees_pages(c.subdirs)
}

/// The pages of chapters.
pub open spec fn trees_pages(cs: Seq<Chapter>) -> Seq<Seq<u8>>
    decreases cs,
{
    if cs.len() == 0 {
        seq![]
    } else {
        trees_pages(cs.drop_last()) + tree_pages(cs.last())
    }
}

/// What `f` gives for the pairs, all together.
pub open spec fn total<A>(
    s: Seq<(Seq<u8>, A)>,
    f: spec_fn((Seq<u8>, A)) -> Multiset<Seq<u8>>,
) -> Multiset<Seq<u8>>
    decreases s.len(),
{
    if s.len() == 0 {
        Multiset::empty()
    } else {
        total(s.drop_last(), f).add(f(s.last()))
    }
}

/// The total does not depend on where a pair is inserted.
proof fn lemma_total_insert<A>(
    s: Seq<(Seq<u8>, A)>,
    x: (Seq<u8>, A),
    f: spec_fn((Seq<u8>, A)) -> Multiset<Seq<u8>>,
)
    ensures
        total(insert_named(s, x), f) == total(s, f).add(f(x)),
    decreases s.len(),
{
    let r = insert_named(s, x);
    if s.len() == 0 || lex_le(s.last().0, x.0) {
        assert(r.drop_last() == s);
        assert(total(r, f) == total(s, f).add(f(x)));
    } else {
        lemma_total_insert(s.drop_last(), x, f);
        assert(r.drop_last() == insert_named(s.drop_last(), x));
        assert(total(r, f) =~= total(s, f).add(f(x)));
    }
}

/// The total does not depend on the order.
proof fn lemma_total_sorted<A>(
    s: Seq<(Seq<u8>, A)>,
    f: spec_fn((Seq<u8>, A)) -> Multiset<Seq<u8>>,
)
    ensures
        total(sort_named(s), f) == total(s, f),
    decreases s.len(),
{
    if s.len() > 0 {
        lemma_total_sorted(s.drop_last(), f);
        lemma_total_insert(sort_named(s.drop_last()), s.last(), f);
    }
}

/// The path of a page of the directory `rel`.
pub open spec fn page_bag(rel: Seq<u8>) -> spec_fn(
    (Seq<u8>, Option<Seq<char>>),
) -> Multiset<Seq<u8>> {
    |f: (Seq<u8>, Option<Seq<char>>)| Multiset::singleton(joined_path(rel, f.0))
}

/// The pages of the book in a directory, whatever their order.
pub open spec fn dir_bag(
    fs: Seq<DirRecord>,
    bound: Seq<u8>,
    key: Seq<u8>,
    rel: Seq<u8>,
) -> Multiset<Seq<u8>> {
    match listing_at(fs, key) {
        Some(Listing::Items(v)) => kept_under(
            fs,
            bound,
            key,
            v@,
            rel,
            has_index(v@, bound),
        ).to_multiset(),
        _ => Multiset::empty(),
    }
}

/// The pages of the book in a sub-directory of the directory `rel`.
pub open spec fn sub_bag_of(fs: Seq<DirRecord>, bound: Seq<u8>, rel: Seq<u8>) -> spec_fn(
    (Seq<u8>, Seq<u8>),
) -> Multiset<Seq<u8>> {
    |d: (Seq<u8>, Seq<u8>)| dir_bag(fs, bound, d.1, joined_path(rel, d.0))
}

/// The item itself, where it is a page of the book.
pub open spec fn own_one(
    item: DirItem,
    bound: Seq<u8>,
    rel: Seq<u8>,
    indexed: bool,
) -> Multiset<Seq<u8>> {
    match item {
        DirItem::Entry(e) => if fate(e, bound) == Fate::Page && stays(e.name@, indexed) {
            Multiset::singleton(joined_path(rel, e.name@))
        } else {
            Multiset::empty()
        },
        _ => Multiset::empty(),
    }
}

/// The pages of the book below the item.
pub open spec fn sub_one(
    fs: Seq<DirRecord>,
    bound: Seq<u8>,
    key: Seq<u8>,
    item: DirItem,
    rel: Seq<u8>,
) -> Multiset<Seq<u8>> {
    match item {
        DirItem::Entry(e) => match fate(e, bound) {
            Fate::Enter(c) => if c.len() > key.len() {
                dir_bag(fs, bound, c, joined_path(rel, e.name@))
            } else {
                Multiset::empty()
            },
            _ => Multiset::empty(),
        },
        _ => Multiset::empty(),
    }
}

/// The pages of the book among the items themselves.
pub open spec fn own_bag(
    items: Seq<DirItem>,
    bound: Seq<u8>,
    rel: Seq<u8>,
    indexed: bool,
) -> Multiset<Seq<u8>>
    decreases items.len(),
{
    if items.len() == 0 {
        Multiset::empty()
    } else {
        own_one(items[0], bound, rel, indexed).add(own_bag(items.skip(1), bound, rel, indexed))
    }
}

/// The pages of the book below the items.
pub open spec fn sub_bag(
    fs: Seq<DirRecord>,
    bound: Seq<u8>,
    key: Seq<u8>,
    items: Seq<DirItem>,
    rel: Seq<u8>,
) -> Multiset<Seq<u8>>
    decreases items.len(),
{
    if items.len() == 0 {
        Multiset::empty()
    } else {
        sub_one(fs, bound, key, items[0], rel).add(sub_bag(fs, bound, key, items.skip(1), rel))
    }
}

/// What is kept of a directory is kept of its items themselves, or below them.
proof fn lemma_kept_bags(
    fs: Seq<DirRecord>,
    bound: Seq<u8>,
    key: Seq<u8>,
    items: Seq<DirItem>,
    rel: Seq<u8>,
    indexed: bool,
)
    ensures
        kept_under(fs, bound, key, items, rel, indexed).to_multiset() == own_bag(
            items,
            bound,
            rel,
            indexed,
        ).add(sub_bag(fs, bound, key, items, rel)),
    decreases items.len(),
{
    broadcast use vstd::seq_lib::group_to_multiset_ensures;

    let kept = kept_under(fs, bound, key, items, rel, indexed);
    if items.len() == 0 {
        assert(kept.to_multiset() =~= Multiset::empty());
        assert(own_bag(items, bound, rel, indexed).add(sub_bag(fs, bound, key, items, rel))
            =~= Multiset::empty());
    } else {
        let rest = items.skip(1);
        let later = kept_under(fs, bound, key, rest, rel, indexed);
        lemma_kept_bags(fs, bound, key, rest, rel, indexed);
        let own = kept.take(kept.len() - later.len());
        assert(kept == own + later);
        lemma_multiset_commutative(own, later);
        let empty = Seq::<Seq<u8>>::empty();
        assert(empty.to_multiset() =~= Multiset::empty());
        match items[0] {
            DirItem::Entry(e) => match fate(e, bound) {
                Fate::Page => {
                    let path = joined_path(rel, e.name@);
                    if stays(e.name@, indexed) {
                        assert(own == empty.push(path));
                        assert(own.to_multiset() =~= Multiset::singleton(path));
                    } else {
                        assert(own == empty);
                    }
                },
                Fate::Enter(c) => {
                    if c.len() > key.len() {
                        match listing_at(fs, c) {
                            Some(Listing::Items(v)) => {
                                assert(own == kept_under(
                                    fs,
                                    bound,
                                    c,
                                    v@,
                                    joined_path(rel, e.name@),
                                    has_index(v@, bound),
                                ));
                            },
                            _ => {
                                assert(own == empty);
                            },
                        }
                    } else {
                        assert(own == empty);
                    }
                },
                Fate::Skip => {
                    assert(own == empty);
                },
            },
            _ => {
                assert(own == empty);
            },
        }
        assert(kept.to_multiset() =~= own_bag(items, bound, rel, indexed).add(
            sub_bag(fs, bound, key, items, rel),
        ));
    }
}

// ---------------------------------------------------------------------------
// Reading a directory
// ---------------------------------------------------------------------------
/// The path of an optional page.
pub open spec fn opt_bag(p: Option<(Seq<u8>, Option<Seq<char>>)>, rel: Seq<u8>) -> Multiset<
    Seq<u8>,
> {
    match p {
        Some(page) => Multiset::singleton(joined_path(rel, page.0)),
        None => Multiset::empty(),
    }
}

/// The pages of the book among what was read of a directory.
pub open spec fn read_bag(s: Scanned, rel: Seq<u8>, indexed: bool) -> Multiset<Seq<u8>> {
    total(s.files, page_bag(rel)).add(opt_bag(s.index, rel)).add(
        if indexed {
            Multiset::empty()
        } else {
            opt_bag(s.readme, rel)
        },
    )
}

/// The list has a page with the given name.
pub open spec fn has_page(items: Seq<DirItem>, bound: Seq<u8>, name: Seq<char>) -> bool {
    exists|i: int|
        0 <= i < items.len() && (#[trigger] items[i] matches DirItem::Entry(e) && fate(e, bound)
            == Fate::Page && utf8(e.name@) == Some(name))
}

/// The directories are those of the directory `key`.
pub open spec fn are_children(dirs: Seq<(Seq<u8>, Seq<u8>)>, key: Seq<u8>) -> bool {
    forall|i: int|
        0 <= i < dirs.len() ==> is_entry_name((#[trigger] dirs[i]).0) && dirs[i].1 == child_of(
            key,
            dirs[i].0,
        )
}

/// The path is that of an entry of the directory `key`.
pub open spec fn is_child(x: Seq<u8>, key: Seq<u8>) -> bool {
    exists|n: Seq<u8>| is_entry_name(n) && x == #[trigger] child_of(key, n)
}

/// A name that the first entry has is not that of another.
proof fn lemma_page_once(items: Seq<DirItem>, bound: Seq<u8>, name: Seq<char>)
    requires
        items.len() > 0,
        distinct_items(items),
    ensures
        has_page(items.skip(1), bound, name) ==> has_page(items, bound, name),
        (items[0] matches DirItem::Entry(e) && fate(e, bound) == Fate::Page && utf8(e.name@)
            == Some(name)) ==> has_page(items, bound, name) && !has_page(
            items.skip(1),
            bound,
            name,
        ),
        has_page(items, bound, name) ==> has_page(items.skip(1), bound, name) || (
        items[0] matches DirItem::Entry(e) && fate(e, bound) == Fate::Page && utf8(e.name@) == Some(
            name,
        )),
{
    let rest = items.skip(1);
    if has_page(rest, bound, name) {
        let i = choose|i: int|
            0 <= i < rest.len() && (#[trigger] rest[i] matches DirItem::Entry(e) && fate(e, bound)
                == Fate::Page && utf8(e.name@) == Some(name));
        assert(items[i + 1] == rest[i]);
        match (items[0], items[i + 1]) {
            (DirItem::Entry(e), DirItem::Entry(f)) => {
                if utf8(e.name@) == Some(name) {
                    decode_utf8_encode_utf8(e.name@);
                    decode_utf8_encode_utf8(f.name@);
                    assert(e.name@ == f.name@);
                }
            },
            _ => {},
        }
    }
    if has_page(items, bound, name) {
        let i = choose|i: int|
            0 <= i < items.len() && (#[trigger] items[i] matches DirItem::Entry(e) && fate(
                e,
                bound,
            ) == Fate::Page && utf8(e.name@) == Some(name));
        if i > 0 {
            assert(rest[i - 1] == items[i]);
        }
    }
}

/// A directory is read one item after the other.
proof fn lemma_scan_step(fs: Seq<DirRecord>, bound: Seq<u8>, items: Seq<DirItem>, s: Scanned)
    requires
        items.len() > 0,
    ensures
        scan(fs, bound, items, s) == scan(
            fs,
            bound,
            items.skip(1),
            scan(fs, bound, seq![items[0]], s),
        ),
{
    reveal_with_fuel(scan, 3);
    assert(seq![items[0]].skip(1).len() == 0);
}

/// What one page adds to what was read.
proof fn lemma_page_bag(e: DirEntry, rel: Seq<u8>, indexed: bool, s: Scanned)
    requires
        utf8(e.name@) == Some("index.md"@) ==> s.index is None,
        utf8(e.name@) == Some("README.md"@) ==> s.readme is None,
    ensures
        stays(e.name@, indexed) ==> read_bag(with_page(s, e), rel, indexed) == read_bag(
            s,
            rel,
            indexed,
        ).add(Multiset::singleton(joined_path(rel, e.name@))),
        !stays(e.name@, indexed) ==> read_bag(with_page(s, e), rel, indexed) == read_bag(
            s,
            rel,
            indexed,
        ),
{
    lemma_special_names();
    let next = with_page(s, e);
    let one = Multiset::singleton(joined_path(rel, e.name@));
    if is_listed_name(e.name@) {
        assert(next.files.drop_last() == s.files);
        assert(total(next.files, page_bag(rel)) == total(s.files, page_bag(rel)).add(one));
    }
    if stays(e.name@, indexed) {
        assert(read_bag(next, rel, indexed) =~= read_bag(s, rel, indexed).add(one));
    } else {
        assert(read_bag(next, rel, indexed) =~= read_bag(s, rel, indexed));
    }
}

/// What one item adds to the pages that were read.
proof fn lemma_one_page(
    fs: Seq<DirRecord>,
    bound: Seq<u8>,
    item: DirItem,
    rel: Seq<u8>,
    indexed: bool,
    s: Scanned,
)
    requires
        s.failure is None,
        item matches DirItem::Entry(e) && fate(e, bound) == Fate::Page && utf8(e.name@) == Some(
            "index.md"@,
        ) ==> s.index is None,
        item matches DirItem::Entry(e) && fate(e, bound) == Fate::Page && utf8(e.name@) == Some(
            "README.md"@,
        ) ==> s.readme is None,
    ensures
        ({
            let next = scan(fs, bound, seq![item], s);
            let index = item matches DirItem::Entry(e) && fate(e, bound) == Fate::Page && utf8(
                e.name@,
            ) == Some("index.md"@);
            let readme = item matches DirItem::Entry(e) && fate(e, bound) == Fate::Page && utf8(
                e.name@,
            ) == Some("README.md"@);
            &&& read_bag(next, rel, indexed) == read_bag(s, rel, indexed).add(
                own_one(item, bound, rel, indexed),
            )
            &&& next.index is Some <==> s.index is Some || index
            &&& next.readme is Some <==> s.readme is Some || readme
        }),
{
    reveal_with_fuel(scan, 2);
    assert(seq![item].skip(1).len() == 0);
    lemma_special_names();
    let before = read_bag(s, rel, indexed);
    assert(before =~= before.add(Multiset::empty()));
    if let DirItem::Entry(e) = item {
        if fate(e, bound) == Fate::Page {
            lemma_page_bag(e, rel, indexed, s);
        }
    }
}

/// The pages that are read of a directory.
proof fn lemma_scan_pages(
    fs: Seq<DirRecord>,
    bound: Seq<u8>,
    items: Seq<DirItem>,
    rel: Seq<u8>,
    indexed: bool,
    s: Scanned,
)
    requires
        distinct_items(items),
        has_page(items, bound, "index.md"@) ==> s.index is None,
        has_page(items, bound, "README.md"@) ==> s.readme is None,
        scan(fs, bound, items, s).failure is None,
    ensures
        ({
            let r = scan(fs, bound, items, s);
            &&& read_bag(r, rel, indexed) == read_bag(s, rel, indexed).add(
                own_bag(items, bound, rel, indexed),
            )
            &&& r.index is Some <==> s.index is Some || has_page(items, bound, "index.md"@)
        }),
    decreases items.len(),
{
    let before = read_bag(s, rel, indexed);
    if s.failure is Some || items.len() == 0 {
        assert(before =~= before.add(Multiset::empty()));
    } else {
        let rest = items.skip(1);
        let next = scan(fs, bound, seq![items[0]], s);
        let own = own_one(items[0], bound, rel, indexed);
        let later = own_bag(rest, bound, rel, indexed);
        lemma_scan_step(fs, bound, items, s);
        lemma_page_once(items, bound, "index.md"@);
        lemma_page_once(items, bound, "README.md"@);
        lemma_rest_distinct(items);
        lemma_one_page(fs, bound, items[0], rel, indexed, s);
        lemma_scan_pages(fs, bound, rest, rel, indexed, next);
        assert(before.add(own).add(later) =~= before.add(own.add(later)));
    }
}

/// What one item changes of the directories that were read, and of those that may not be entered
/// again.
proof fn lemma_one_dir(
    fs: Seq<DirRecord>,
    bound: Seq<u8>,
    key: Seq<u8>,
    item: DirItem,
    s: Scanned,
)
    requires
        s.failure is None,
        item matches DirItem::Entry(e) ==> !e.symlink && (e.dir ==> match opt_bytes(e.canonical) {
            Some(c) => c == child_of(key, e.name@),
            None => true,
        }) && !s.visited.contains(child_of(key, e.name@)),
    ensures
        ({
            let next = scan(fs, bound, seq![item], s);
            &&& forall|x: Seq<u8>| #[trigger]
                next.visited.contains(x) ==> s.visited.contains(x) || (item matches DirItem::Entry(
                    e,
                ) && x == child_of(key, e.name@))
            &&& match item {
                DirItem::Entry(e) => match fate(e, bound) {
                    Fate::Enter(c) => c == child_of(key, e.name@) && next.dirs == (if listing_at(
                        fs,
                        c,
                    ) is Some {
                        s.dirs.push((e.name@, c))
                    } else {
                        s.dirs
                    }),
                    _ => next.dirs == s.dirs,
                },
                _ => next.dirs == s.dirs,
            }
        }),
{
    reveal_with_fuel(scan, 2);
    assert(seq![item].skip(1).len() == 0);
}

/// What is clear of a list before its first item was read is clear of the rest after it.
proof fn lemma_rest_is_clear(
    fs: Seq<DirRecord>,
    bound: Seq<u8>,
    key: Seq<u8>,
    items: Seq<DirItem>,
    s: Scanned,
)
    requires
        items.len() > 0,
        s.failure is None,
        named_items(items),
        distinct_items(items),
        real_items(items, key),
        is_clear(s.visited, items, key),
    ensures
        items[0] matches DirItem::Entry(e) ==> is_entry_name(e.name@) && !s.visited.contains(
            child_of(key, e.name@),
        ),
        is_clear(scan(fs, bound, seq![items[0]], s).visited, items.skip(1), key),
{
    let rest = items.skip(1);
    let next = scan(fs, bound, seq![items[0]], s);
    if let DirItem::Entry(e) = items[0] {
        let c = child_of(key, e.name@);
        assert(is_entry_name(e.name@));
        if s.visited.contains(c) {
            assert(!is_below(c, c));
        }
    }
    lemma_one_dir(fs, bound, key, items[0], s);
    assert forall|x: Seq<u8>, i: int|
        #![trigger next.visited.contains(x), rest[i]]
        next.visited.contains(x) && 0 <= i < rest.len() implies match rest[i] {
        DirItem::Entry(h) => !is_below(x, child_of(key, h.name@)),
        _ => true,
    } by {
        assert(rest[i] == items[i + 1]);
        if let DirItem::Entry(h) = rest[i] {
            if !s.visited.contains(x) && is_below(x, child_of(key, h.name@)) {
                let e = items[0]->Entry_0;
                assert(is_entry_name(e.name@) && is_entry_name(h.name@));
                lemma_below_one_child(x, key, e.name@, h.name@);
            }
        }
    }
}

/// The directories that are read of a directory without links, and those that may not be entered
/// again: entries of the directory.
proof fn lemma_scan_children(
    fs: Seq<DirRecord>,
    bound: Seq<u8>,
    key: Seq<u8>,
    items: Seq<DirItem>,
    s: Scanned,
)
    requires
        named_items(items),
        distinct_items(items),
        real_items(items, key),
        is_clear(s.visited, items, key),
        are_children(s.dirs, key),
    ensures
        ({
            let r = scan(fs, bound, items, s);
            &&& are_children(r.dirs, key)
            &&& forall|x: Seq<u8>| #[trigger]
                r.visited.contains(x) ==> s.visited.contains(x) || is_child(x, key)
        }),
    decreases items.len(),
{
    if s.failure is Some || items.len() == 0 {
    } else {
        let rest = items.skip(1);
        let next = scan(fs, bound, seq![items[0]], s);
        lemma_scan_step(fs, bound, items, s);
        lemma_rest(items, key);
        lemma_rest_is_clear(fs, bound, key, items, s);
        lemma_one_dir(fs, bound, key, items[0], s);
        assert forall|i: int| 0 <= i < next.dirs.len() implies is_entry_name(
            (#[trigger] next.dirs[i]).0,
        ) && next.dirs[i].1 == child_of(key, next.dirs[i].0) by {
            if i < s.dirs.len() {
                assert(next.dirs[i] == s.dirs[i]);
            }
        }
        lemma_scan_children(fs, bound, key, rest, next);
    }
}

/// The pages below the directories that are read of a directory without links.
proof fn lemma_scan_dirs(
    fs: Seq<DirRecord>,
    bound: Seq<u8>,
    key: Seq<u8>,
    items: Seq<DirItem>,
    rel: Seq<u8>,
    s: Scanned,
)
    requires
        named_items(items),
        distinct_items(items),
        real_items(items, key),
        is_clear(s.visited, items, key),
        scan(fs, bound, items, s).failure is None,
    ensures
        total(scan(fs, bound, items, s).dirs, sub_bag_of(fs, bound, rel)) == total(
            s.dirs,
            sub_bag_of(fs, bound, rel),
        ).add(sub_bag(fs, bound, key, items, rel)),
    decreases items.len(),
{
    let g = sub_bag_of(fs, bound, rel);
    let before = total(s.dirs, g);
    if s.failure is Some || items.len() == 0 {
        assert(before =~= before.add(Multiset::empty()));
    } else {
        let rest = items.skip(1);
        let next = scan(fs, bound, seq![items[0]], s);
        let own = sub_one(fs, bound, key, items[0], rel);
        let later = sub_bag(fs, bound, key, rest, rel);
        lemma_scan_step(fs, bound, items, s);
        lemma_rest(items, key);
        lemma_rest_is_clear(fs, bound, key, items, s);
        lemma_one_dir(fs, bound, key, items[0], s);
        if next.dirs != s.dirs {
            assert(next.dirs.drop_last() == s.dirs);
        }
        assert(total(next.dirs, g) =~= before.add(own));
        lemma_scan_dirs(fs, bound, key, rest, rel, next);
        assert(before.add(own).add(later) =~= before.add(own.add(later)));
    }
}

/// The special names differ.
proof fn lemma_special_names()
    ensures
        "SUMMARY.md"@ != "index.md"@,
        "SUMMARY.md"@ != "README.md"@,
        "index.md"@ != "README.md"@,
{
    reveal_strlit("SUMMARY.md");
    reveal_strlit("index.md");
    reveal_strlit("README.md");
    assert("SUMMARY.md"@.len() == 10);
    assert("index.md"@.len() == 8);
    assert("README.md"@.len() == 9);
}

// ---------------------------------------------------------------------------
// Directories that can be read
// ---------------------------------------------------------------------------
/// The directory has no listing that failed, and neither has one that it leads to.
pub open spec fn dir_readable(fs: Seq<DirRecord>, bound: Seq<u8>, key: Seq<u8>) -> bool {
    match listing_at(fs, key) {
        Some(Listing::Failed(_)) => false,
        Some(Listing::Items(v)) => readable(fs, bound, key, v@),
        _ => true,
    }
}

/// None of the items of the directory `key` is a failed step, and no listing that they lead to
/// failed.
pub open spec fn readable(
    fs: Seq<DirRecord>,
    bound: Seq<u8>,
    key: Seq<u8>,
    items: Seq<DirItem>,
) -> bool
    decreases height(fs, key), items.len(),
{
    items.len() == 0 || ({
        let first = match items[0] {
            DirItem::Failed(_) => false,
            DirItem::Gone => true,
            DirItem::Entry(e) => match fate(e, bound) {
                Fate::Enter(c) => match listing_at(fs, c) {
                    Some(Listing::Failed(_)) => false,
                    Some(Listing::Items(v)) => if c.len() > key.len() {
                        proof {
                            lemma_longest(fs, c);
                        }
                        readable(fs, bound, c, v@)
                    } else {
                        true
                    },
                    _ => true,
                },
                _ => true,
            },
        };
        first && readable(fs, bound, key, items.skip(1))
    })
}

/// A directory that was read before stays read.
proof fn lemma_dirs_stay(
    fs: Seq<DirRecord>,
    bound: Seq<u8>,
    items: Seq<DirItem>,
    s: Scanned,
    i: int,
)
    requires
        0 <= i < s.dirs.len(),
    ensures
        i < scan(fs, bound, items, s).dirs.len(),
        scan(fs, bound, items, s).dirs[i] == s.dirs[i],
    decreases items.len(),
{
    if s.failure is Some || items.len() == 0 {
    } else {
        let next = scan(fs, bound, seq![items[0]], s);
        lemma_scan_step(fs, bound, items, s);
        assert(next.dirs[i] == s.dirs[i]) by {
            reveal_with_fuel(scan, 2);
            assert(seq![items[0]].skip(1).len() == 0);
        }
        lemma_dirs_stay(fs, bound, items.skip(1), next, i);
    }
}

/// A directory was read completely if it and all that was found in it can be read.
proof fn lemma_scan_readable(
    fs: Seq<DirRecord>,
    bound: Seq<u8>,
    key: Seq<u8>,
    items: Seq<DirItem>,
    s: Scanned,
)
    requires
        named_items(items),
        distinct_items(items),
        real_items(items, key),
        is_clear(s.visited, items, key),
        scan(fs, bound, items, s).failure is None,
        forall|i: int|
            0 <= i < scan(fs, bound, items, s).dirs.len() ==> dir_readable(
                fs,
                bound,
                (#[trigger] scan(fs, bound, items, s).dirs[i]).1,
            ),
    ensures
        readable(fs, bound, key, items),
    decreases items.len(),
{
    if items.len() > 0 && s.failure is None {
        let r = scan(fs, bound, items, s);
        let rest = items.skip(1);
        let next = scan(fs, bound, seq![items[0]], s);
        lemma_scan_step(fs, bound, items, s);
        lemma_rest(items, key);
        lemma_rest_is_clear(fs, bound, key, items, s);
        lemma_one_dir(fs, bound, key, items[0], s);
        assert(!(items[0] is Failed)) by {
            reveal_with_fuel(scan, 2);
        }
        if let DirItem::Entry(e) = items[0] {
            if let Fate::Enter(c) = fate(e, bound) {
                assert(c == child_of(key, e.name@));
                assert(!s.visited.contains(c));
                if listing_at(fs, c) is Some {
                    let n = s.dirs.len() as int;
                    assert(next.dirs[n] == (e.name@, c));
                    lemma_dirs_stay(fs, bound, rest, next, n);
                    assert(dir_readable(fs, bound, r.dirs[n].1));
                }
            }
        }
        lemma_scan_readable(fs, bound, key, rest, next);
    }
}

/// A walk through what can be read does not fail.
proof fn lemma_readable_walk(
    fs: Seq<DirRecord>,
    bound: Seq<u8>,
    key: Seq<u8>,
    items: Seq<DirItem>,
    rel: Seq<u8>,
    strict: bool,
    st: Walked,
)
    requires
        linkless(fs),
        named(fs),
        named_items(items),
        real_items(items, key),
        readable(fs, bound, key, items),
        st.failure is None,
    ensures
        walk_items(fs, bound, items, rel, strict, st).failure is None,
    decreases room(fs, st.visited), items.len(),
{
    if items.len() > 0 {
        let rest = items.skip(1);
        assert forall|i: int| 0 <= i < rest.len() implies #[trigger] rest[i] == items[i + 1] by {}
        match items[0] {
            DirItem::Entry(e) => match fate(e, bound) {
                Fate::Skip => {
                    lemma_readable_walk(fs, bound, key, rest, rel, strict, st);
                },
                Fate::Page => {
                    lemma_readable_walk(
                        fs,
                        bound,
                        key,
                        rest,
                        rel,
                        strict,
                        Walked { pages: st.pages.push(joined_path(rel, e.name@)), ..st },
                    );
                },
                Fate::Enter(c) => {
                    if st.visited.contains(c) {
                        lemma_readable_walk(fs, bound, key, rest, rel, strict, st);
                    } else {
                        assert(is_entry_name(e.name@));
                        assert(c == child_of(key, e.name@));
                        let path = joined_path(rel, e.name@);
                        let entered = Walked { visited: st.visited.insert(c), ..st };
                        let inner = match listing_at(fs, c) {
                            Some(Listing::Items(v)) => {
                                lemma_named(fs, c);
                                lemma_room_insert(fs, st.visited, c);
                                lemma_readable_walk(fs, bound, c, v@, path, strict, entered);
                                walk_items(fs, bound, v@, path, strict, entered)
                            },
                            _ => entered,
                        };
                        let left = Walked {
                            visited: entered.visited.union(inner.visited),
                            ..inner
                        };
                        lemma_room_shrinks(fs, st.visited, left.visited);
                        lemma_readable_walk(fs, bound, key, rest, rel, strict, left);
                    }
                },
            },
            _ => {
                lemma_readable_walk(fs, bound, key, rest, rel, strict, st);
            },
        }
    }
}

// ---------------------------------------------------------------------------
// The tree
// ---------------------------------------------------------------------------
/// The pages of a chapter, whatever their order.
proof fn lemma_chapter_bag(name: Seq<char>, rel: Seq<u8>, s: Scanned, subdirs: Seq<Chapter>)
    ensures
        tree_pages(chapter_of(name, rel, s, subdirs)).to_multiset() == read_bag(
            s,
            rel,
            s.index is Some,
        ).add(trees_pages(subdirs).to_multiset()),
{
    broadcast use vstd::seq_lib::group_to_multiset_ensures;

    let c = chapter_of(name, rel, s, subdirs);
    let sorted = sort_named(s.files);
    let index = match c.index_rel {
        Some(r) => seq![r],
        None => seq![],
    };
    let files = Seq::new(c.files.len(), |i: int| c.files[i].rel);
    let below = trees_pages(subdirs);
    lemma_total_sorted(s.files, page_bag(rel));
    lemma_paths_bag(sorted, rel);
    assert(files == Seq::new(sorted.len(), |i: int| joined_path(rel, sorted[i].0)));
    lemma_multiset_commutative(index, files);
    lemma_multiset_commutative(index + files, below);
    let empty = Seq::<Seq<u8>>::empty();
    assert(empty.to_multiset() =~= Multiset::empty());
    if c.index_rel is Some {
        assert(index == empty.push(c.index_rel->0));
        assert(index.to_multiset() =~= Multiset::singleton(c.index_rel->0));
    } else {
        assert(index == empty);
    }
    assert(tree_pages(c).to_multiset() =~= read_bag(s, rel, s.index is Some).add(
        below.to_multiset(),
    ));
}

/// The paths of pages, whatever their order.
proof fn lemma_paths_bag(files: Seq<(Seq<u8>, Option<Seq<char>>)>, rel: Seq<u8>)
    ensures
        Seq::new(files.len(), |i: int| joined_path(rel, files[i].0)).to_multiset() == total(
            files,
            page_bag(rel),
        ),
    decreases files.len(),
{
    broadcast use vstd::seq_lib::group_to_multiset_ensures;

    let paths = Seq::new(files.len(), |i: int| joined_path(rel, files[i].0));
    if files.len() > 0 {
        let shorter = files.drop_last();
        let before = Seq::new(shorter.len(), |i: int| joined_path(rel, shorter[i].0));
        lemma_paths_bag(shorter, rel);
        assert(paths == before.push(joined_path(rel, files.last().0)));
        assert(paths.to_multiset() =~= total(files, page_bag(rel)));
    } else {
        assert(paths.to_multiset() =~= Multiset::empty());
    }
}

/// Among the entries of a directory, what was visited is not below one of them.
proof fn lemma_children_are_clear(
    before: Set<Seq<u8>>,
    visited: Set<Seq<u8>>,
    dirs: Seq<(Seq<u8>, Seq<u8>)>,
    key: Seq<u8>,
)
    requires
        forall|x: Seq<u8>| #[trigger] before.contains(x) ==> !strictly_below(x, key),
        forall|x: Seq<u8>| #[trigger]
            visited.contains(x) ==> before.contains(x) || is_child(x, key),
        are_children(dirs, key),
    ensures
        forall|x: Seq<u8>, i: int|
            #![trigger visited.contains(x), dirs[i]]
            visited.contains(x) && 0 <= i < dirs.len() ==> !strictly_below(x, dirs[i].1),
{
    assert forall|x: Seq<u8>, i: int|
        #![trigger visited.contains(x), dirs[i]]
        visited.contains(x) && 0 <= i < dirs.len() implies !strictly_below(x, dirs[i].1) by {
        let n = dirs[i].0;
        if strictly_below(x, dirs[i].1) {
            lemma_below_child(x, key, n);
            assert(is_child(x, key));
            let m = choose|m: Seq<u8>| is_entry_name(m) && x == #[trigger] child_of(key, m);
            lemma_below_one_child(x, key, n, m);
        }
    }
}

/// The chapter of a directory without links has the pages of the book in that directory.
proof fn lemma_chapter_pages(
    fs: Seq<DirRecord>,
    bound: Seq<u8>,
    key: Seq<u8>,
    name: Seq<char>,
    rel: Seq<u8>,
    visited: Set<Seq<u8>>,
)
    requires
        linkless(fs),
        named(fs),
        distinct(fs),
        forall|x: Seq<u8>| #[trigger] visited.contains(x) ==> !strictly_below(x, key),
    ensures
        chapter_at(fs, bound, key, name, rel, visited) matches Ok((c, v)) ==> tree_pages(
            c,
        ).to_multiset() == dir_bag(fs, bound, key, rel) && grows_below(visited, v, key)
            && dir_readable(fs, bound, key),
    decreases room(fs, visited), 0nat,
{
    broadcast use vstd::seq_lib::group_to_multiset_ensures;

    match listing_at(fs, key) {
        Some(Listing::Items(v)) => {
            let s = scan(fs, bound, v@, unread(visited));
            lemma_scan_room(fs, bound, v@, unread(visited));
            lemma_named(fs, key);
            lemma_distinct(fs, key);
            if s.failure is None {
                let indexed = has_index(v@, bound);
                let g = sub_bag_of(fs, bound, rel);
                lemma_clear_inside(visited, v@, key);
                lemma_scan_pages(fs, bound, v@, rel, indexed, unread(visited));
                lemma_scan_children(fs, bound, key, v@, unread(visited));
                lemma_scan_dirs(fs, bound, key, v@, rel, unread(visited));
                lemma_scan_differs(fs, bound, v@, unread(visited));
                lemma_kept_bags(fs, bound, key, v@, rel, indexed);
                assert(s.index is Some <==> indexed);
                assert(read_bag(s, rel, indexed) =~= own_bag(v@, bound, rel, indexed));
                assert(total(s.dirs, g) =~= sub_bag(fs, bound, key, v@, rel));
                let start = Grown { chapters: seq![], visited: s.visited, failure: None };
                let dirs = sort_named(s.dirs);
                let grown = if s.dirs.len() == 0 {
                    start
                } else {
                    law_sort_keeps_names_apart(s.dirs);
                    assert(are_children(dirs, key)) by {
                        assert forall|i: int| 0 <= i < dirs.len() implies is_entry_name(
                            (#[trigger] dirs[i]).0,
                        ) && dirs[i].1 == child_of(key, dirs[i].0) by {
                            assert(s.dirs.contains(dirs[i]));
                            let k = choose|k: int| 0 <= k < s.dirs.len() && s.dirs[k] == dirs[i];
                            assert(is_entry_name(s.dirs[k].0));
                        }
                    }
                    lemma_children_are_clear(visited, s.visited, dirs, key);
                    lemma_chapters_pages(fs, bound, key, dirs, rel, start);
                    grow(fs, bound, dirs, rel, start)
                };
                if grown.failure is None {
                    lemma_total_sorted(s.dirs, g);
                    assert(trees_pages(seq![]).to_multiset() =~= Multiset::empty());
                    lemma_chapter_bag(name, rel, s, grown.chapters);
                    let c = chapter_of(name, rel, s, grown.chapters);
                    assert(trees_pages(grown.chapters).to_multiset() =~= total(s.dirs, g));
                    assert(tree_pages(c).to_multiset() =~= dir_bag(fs, bound, key, rel));
                    assert forall|i: int| 0 <= i < s.dirs.len() implies dir_readable(
                        fs,
                        bound,
                        (#[trigger] s.dirs[i]).1,
                    ) by {
                        law_sort_permutes(s.dirs);
                        assert(s.dirs.contains(s.dirs[i]));
                        assert(s.dirs.to_multiset().count(s.dirs[i]) > 0);
                        assert(dirs.contains(s.dirs[i]));
                        let k = choose|k: int| 0 <= k < dirs.len() && dirs[k] == s.dirs[i];
                        assert(dir_readable(fs, bound, dirs[k].1));
                    }
                    lemma_scan_readable(fs, bound, key, v@, unread(visited));
                    assert forall|x: Seq<u8>| #[trigger] grown.visited.contains(x) implies
                        visited.contains(x) || strictly_below(x, key) by {
                        if s.visited.contains(x) && !visited.contains(x) {
                            let m = choose|m: Seq<u8>|
                                is_entry_name(m) && x == #[trigger] child_of(key, m);
                            lemma_below_child(x, key, m);
                        }
                    }
                }
            }
        },
        _ => {
            let c = bare_chapter(name);
            assert(tree_pages(c) == Seq::<Seq<u8>>::empty());
            assert(tree_pages(c).to_multiset() =~= Multiset::empty());
        },
    }
}

/// The chapters of the sub-directories have the pages of the book in them.
proof fn lemma_chapters_pages(
    fs: Seq<DirRecord>,
    bound: Seq<u8>,
    key: Seq<u8>,
    dirs: Seq<(Seq<u8>, Seq<u8>)>,
    rel: Seq<u8>,
    g: Grown,
)
    requires
        linkless(fs),
        named(fs),
        distinct(fs),
        are_children(dirs, key),
        names_differ(dirs),
        forall|x: Seq<u8>, i: int|
            #![trigger g.visited.contains(x), dirs[i]]
            g.visited.contains(x) && 0 <= i < dirs.len() ==> !strictly_below(x, dirs[i].1),
    ensures
        ({
            let r = grow(fs, bound, dirs, rel, g);
            r.failure is None ==> {
                &&& trees_pages(r.chapters).to_multiset() == trees_pages(
                    g.chapters,
                ).to_multiset().add(total(dirs, sub_bag_of(fs, bound, rel)))
                &&& grows_below(g.visited, r.visited, key)
                &&& g.failure is None ==> forall|i: int|
                    0 <= i < dirs.len() ==> dir_readable(fs, bound, (#[trigger] dirs[i]).1)
            }
        }),
    decreases room(fs, g.visited), dirs.len() + 1,
{
    broadcast use vstd::seq_lib::group_to_multiset_ensures;

    let f = sub_bag_of(fs, bound, rel);
    let r = grow(fs, bound, dirs, rel, g);
    lemma_front_total(dirs, f);
    if dirs.len() > 0 {
        lemma_front_total(dirs.skip(1), f);
    }
    if g.failure is Some || dirs.len() == 0 {
        assert(trees_pages(r.chapters).to_multiset() =~= trees_pages(
            g.chapters,
        ).to_multiset().add(Multiset::empty()));
    } else {
        let d = dirs[0];
        let rest = dirs.skip(1);
        let title = dir_title(Some(d.0));
        let path = joined_path(rel, d.0);
        assert forall|x: Seq<u8>| #[trigger] g.visited.contains(x) implies !strictly_below(
            x,
            d.1,
        ) by {
            assert(!strictly_below(x, dirs[0].1));
        }
        lemma_chapter_pages(fs, bound, d.1, title, path, g.visited);
        match chapter_at(fs, bound, d.1, title, path, g.visited) {
            Err(m) => {},
            Ok((c, visited)) => {
                let chapters = if holds_nothing(c) {
                    g.chapters
                } else {
                    g.chapters.push(c)
                };
                let next = Grown {
                    chapters,
                    visited: g.visited.union(visited),
                    failure: None,
                };
                lemma_room_shrinks(fs, g.visited, next.visited);
                assert(r == grow(fs, bound, rest, rel, next));
                assert(is_entry_name(dirs[0].0) && d.1 == child_of(key, d.0));
                assert(trees_pages(chapters).to_multiset() =~= trees_pages(
                    g.chapters,
                ).to_multiset().add(f(d))) by {
                    if holds_nothing(c) {
                        assert(tree_pages(c) == Seq::<Seq<u8>>::empty());
                        assert(tree_pages(c).to_multiset() =~= Multiset::empty());
                    } else {
                        assert(chapters.drop_last() == g.chapters);
                        lemma_multiset_commutative(trees_pages(g.chapters), tree_pages(c));
                    }
                }
                assert(are_children(rest, key)) by {
                    assert forall|i: int| 0 <= i < rest.len() implies is_entry_name(
                        (#[trigger] rest[i]).0,
                    ) && rest[i].1 == child_of(key, rest[i].0) by {
                        assert(rest[i] == dirs[i + 1]);
                    }
                }
                assert(names_differ(rest)) by {
                    assert forall|i: int, j: int|
                        #![trigger rest[i], rest[j]]
                        0 <= i < j < rest.len() implies rest[i].0 != rest[j].0 by {
                        assert(rest[i] == dirs[i + 1] && rest[j] == dirs[j + 1]);
                    }
                }
                assert forall|x: Seq<u8>, i: int|
                    #![trigger next.visited.contains(x), rest[i]]
                    next.visited.contains(x) && 0 <= i < rest.len() implies !strictly_below(
                    x,
                    rest[i].1,
                ) by {
                    assert(rest[i] == dirs[i + 1]);
                    assert(is_entry_name(dirs[i + 1].0));
                    if g.visited.contains(x) {
                        assert(!strictly_below(x, dirs[i + 1].1));
                    } else if strictly_below(x, rest[i].1) {
                        assert(visited.contains(x));
                        lemma_below_one_child(x, key, d.0, rest[i].0);
                        assert(dirs[0].0 != dirs[i + 1].0);
                    }
                }
                lemma_chapters_pages(fs, bound, key, rest, rel, next);
                if r.failure is None {
                    assert forall|i: int| 0 <= i < dirs.len() implies dir_readable(
                        fs,
                        bound,
                        (#[trigger] dirs[i]).1,
                    ) by {
                        if i > 0 {
                            assert(dir_readable(fs, bound, rest[i - 1].1));
                        }
                    }
                    assert(trees_pages(r.chapters).to_multiset() =~= trees_pages(
                        g.chapters,
                    ).to_multiset().add(front_total(dirs, f)));
                    assert forall|x: Seq<u8>| #[trigger] r.visited.contains(x) implies
                        g.visited.contains(x) || strictly_below(x, key) by {
                        if next.visited.contains(x) && !g.visited.contains(x) {
                            lemma_below_child(x, key, d.0);
                        }
                    }
                }
            },
        }
    }
}

/// The total, counted from the front.
pub open spec fn front_total<A>(
    s: Seq<(Seq<u8>, A)>,
    f: spec_fn((Seq<u8>, A)) -> Multiset<Seq<u8>>,
) -> Multiset<Seq<u8>>
    decreases s.len(),
{
    if s.len() == 0 {
        Multiset::empty()
    } else {
        f(s[0]).add(front_total(s.skip(1), f))
    }
}

/// The total is the same from either end.
proof fn lemma_front_total<A>(
    s: Seq<(Seq<u8>, A)>,
    f: spec_fn((Seq<u8>, A)) -> Multiset<Seq<u8>>,
)
    ensures
        front_total(s, f) == total(s, f),
    decreases s.len(),
{
    if s.len() == 1 {
        assert(s.skip(1).len() == 0);
        assert(s.drop_last().len() == 0);
        assert(front_total(s.skip(1), f) == Multiset::<Seq<u8>>::empty());
        assert(total(s.drop_last(), f) == Multiset::<Seq<u8>>::empty());
        assert(front_total(s, f) =~= total(s, f));
    } else if s.len() > 1 {
        let inner = s.skip(1).drop_last();
        assert(s.drop_last().skip(1) == inner);
        lemma_front_total(s.skip(1), f);
        lemma_front_total(s.drop_last(), f);
        lemma_front_total(inner, f);
        assert(s.skip(1).last() == s.last());
        assert(s.drop_last()[0] == s[0]);
        assert(total(s.skip(1), f) == total(inner, f).add(f(s.last())));
        assert(front_total(s.drop_last(), f) == f(s[0]).add(front_total(inner, f)));
        assert(front_total(s, f) =~= total(s, f));
    }
}

/// In a source directory without links of which there is a chapter tree, the pages of the tree,
/// each once, are the listed pages without `SUMMARY.md` and without a `README.md` beside an
/// `index.md`; and there is such a list.
pub proof fn law_tree_has_the_listed_pages(fs: Seq<DirRecord>, root: Seq<u8>)
    requires
        linkless(fs),
        named(fs),
        distinct(fs),
        tree_of(fs, root, root) is Ok,
    ensures
        walk_from(fs, root, false).failure is None,
        ({
            let pages = walk_from(fs, root, false).pages;
            let tree = tree_pages(tree_of(fs, root, root)->Ok_0);
            &&& tree.no_duplicates()
            &&& forall|p: Seq<u8>| #[trigger]
                tree.contains(p) <==> pages.contains(p) && is_book_page(p, pages)
        }),
{
    let pages = walk_from(fs, root, false).pages;
    let c = tree_of(fs, root, root)->Ok_0;
    let tree = tree_pages(c);
    let kept = book_pages(pages, pages);
    let visited = set![root];
    lemma_chapter_pages(fs, root, root, dir_title(file_name(root)), seq![], visited);
    law_no_page_twice(fs, root, false);
    lemma_book_pages(pages, pages);
    assert(walk_from(fs, root, false).failure is None) by {
        if let Some(Listing::Items(v)) = listing_at(fs, root) {
            let start = Walked { pages: seq![], visited, failure: None };
            lemma_named(fs, root);
            lemma_readable_walk(fs, root, root, v@, seq![], false, start);
        }
    }
    assert(tree.to_multiset() == kept.to_multiset()) by {
        match listing_at(fs, root) {
            Some(Listing::Items(v)) => {
                let start = Walked { pages: seq![], visited, failure: None };
                lemma_named(fs, root);
                lemma_distinct(fs, root);
                lemma_clear_inside(visited, v@, root);
                lemma_walk_pages(fs, root, root, v@, seq![], false, start);
                let found = pages_under(fs, root, root, v@, seq![]);
                assert(start.pages + found == found);
                assert(pages == found);
                lemma_kept_are_book_pages(fs, root, root, v@, seq![], pages, 0);
                assert(v@.skip(0) == v@);
            },
            _ => {
                assert(kept == Seq::<Seq<u8>>::empty());
                assert(tree == Seq::<Seq<u8>>::empty());
            },
        }
    }
    kept.lemma_multiset_has_no_duplicates();
    tree.lemma_multiset_has_no_duplicates_conv();
    assert forall|p: Seq<u8>| #[trigger] tree.contains(p) <==> pages.contains(p) && is_book_page(
        p,
        pages,
    ) by {
        to_multiset_contains(tree, p);
        to_multiset_contains(kept, p);
        assert(kept.contains(p) <==> pages.contains(p) && is_book_page(p, pages));
    }
}

} // verus!
