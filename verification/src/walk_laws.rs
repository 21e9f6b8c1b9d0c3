//! What holds of every walk over a source directory.

use vstd::prelude::*;

use crate::order::{ascending, lemma_ascending_unique};
use crate::os_path::{has_md_extension, is_within, joined_path, opt_bytes, segments, SEP};
use crate::utf8::utf8;
use crate::walk::{
    escapes, fate, is_noise_dir, lemma_room_insert, lemma_room_shrinks, lemma_walk_visits,
    listing_at, room, walk_from, walk_items, DirEntry, DirItem, DirRecord, Fate, Listing, Walked,
};

verus! {

// ---------------------------------------------------------------------------
// Entries
// ---------------------------------------------------------------------------
/// A link that leads out of the source directory, or nowhere, is passed over; and a link that is
/// followed leads to a place inside of it.
pub proof fn law_links_stay_inside(e: DirEntry, bound: Seq<u8>)
    ensures
        escapes(e, bound) ==> fate(e, bound) == Fate::Skip,
        e.symlink && fate(e, bound) != Fate::Skip ==> (opt_bytes(e.canonical) matches Some(c)
            && is_within(c, bound)),
        e.symlink ==> (fate(e, bound) matches Fate::Enter(c) ==> is_within(c, bound)),
{
}

/// A directory with one of the excluded names is never searched.
pub proof fn law_noise_is_not_searched(e: DirEntry, bound: Seq<u8>)
    requires
        e.dir,
        utf8(e.name@) matches Some(n) && is_noise_dir(n),
    ensures
        fate(e, bound) == Fate::Skip,
{
}

/// An entry that is passed over, and a directory that was entered before, have no effect on the
/// walk. So a cycle of links adds nothing to it.
pub proof fn law_passed_entries_have_no_effect(
    fs: Seq<DirRecord>,
    bound: Seq<u8>,
    e: DirEntry,
    rest: Seq<DirItem>,
    rel: Seq<u8>,
    strict: bool,
    st: Walked,
)
    requires
        fate(e, bound) == Fate::Skip || (fate(e, bound) matches Fate::Enter(c)
            && st.visited.contains(c)),
    ensures
        walk_items(fs, bound, seq![DirItem::Entry(e)] + rest, rel, strict, st) == walk_items(
            fs,
            bound,
            rest,
            rel,
            strict,
            st,
        ),
{
    let items = seq![DirItem::Entry(e)] + rest;
    assert(items.skip(1) == rest);
}

// ---------------------------------------------------------------------------
// Contents of files
// ---------------------------------------------------------------------------
/// The entries differ at most in the contents of their files.
pub open spec fn alike_entries(a: DirEntry, b: DirEntry) -> bool {
    a.name@ == b.name@ && a.symlink == b.symlink && opt_bytes(a.canonical) == opt_bytes(
        b.canonical,
    ) && a.dir == b.dir
}

/// The steps of a listing differ at most in the contents of files.
pub open spec fn alike_items(a: DirItem, b: DirItem) -> bool {
    match (a, b) {
        (DirItem::Failed(m), DirItem::Failed(n)) => m@ == n@,
        (DirItem::Gone, DirItem::Gone) => true,
        (DirItem::Entry(e), DirItem::Entry(f)) => alike_entries(e, f),
        _ => false,
    }
}

/// The lists differ at most in the contents of files.
pub open spec fn alike_lists(a: Seq<DirItem>, b: Seq<DirItem>) -> bool {
    a.len() == b.len() && forall|i: int|
        #![trigger a[i], b[i]]
        0 <= i < a.len() ==> alike_items(a[i], b[i])
}

/// The listings differ at most in the contents of files.
pub open spec fn alike_listings(a: Listing, b: Listing) -> bool {
    match (a, b) {
        (Listing::Missing, Listing::Missing) => true,
        (Listing::Failed(m), Listing::Failed(n)) => m@ == n@,
        (Listing::Items(v), Listing::Items(w)) => alike_lists(v@, w@),
        _ => false,
    }
}

/// The snapshots differ at most in the contents of files.
pub open spec fn alike(a: Seq<DirRecord>, b: Seq<DirRecord>) -> bool {
    a.len() == b.len() && forall|i: int|
        #![trigger a[i], b[i]]
        0 <= i < a.len() ==> a[i].path@ == b[i].path@ && alike_listings(
            a[i].listing,
            b[i].listing,
        )
}

/// Snapshots that are alike have listings that are alike.
proof fn lemma_alike_listing(a: Seq<DirRecord>, b: Seq<DirRecord>, key: Seq<u8>)
    requires
        alike(a, b),
    ensures
        match (listing_at(a, key), listing_at(b, key)) {
            (Some(l), Some(m)) => alike_listings(l, m),
            (None, None) => true,
            _ => false,
        },
    decreases a.len(),
{
    if a.len() > 0 {
        assert(a[0].path@ == b[0].path@);
        assert forall|i: int|
            #![trigger a.skip(1)[i], b.skip(1)[i]]
            0 <= i < a.skip(1).len() implies a.skip(1)[i].path@ == b.skip(1)[i].path@
            && alike_listings(a.skip(1)[i].listing, b.skip(1)[i].listing) by {
            assert(a[i + 1].path@ == b[i + 1].path@);
        }
        lemma_alike_listing(a.skip(1), b.skip(1), key);
    }
}

/// Walks through lists that are alike come to the same.
proof fn lemma_alike_walk(
    a: Seq<DirRecord>,
    b: Seq<DirRecord>,
    bound: Seq<u8>,
    v: Seq<DirItem>,
    w: Seq<DirItem>,
    rel: Seq<u8>,
    strict: bool,
    st: Walked,
)
    requires
        alike(a, b),
        alike_lists(v, w),
    ensures
        walk_items(a, bound, v, rel, strict, st) == walk_items(b, bound, w, rel, strict, st),
    decreases room(a, st.visited), v.len(),
{
    if st.failure is Some || v.len() == 0 {
    } else {
        let v1 = v.skip(1);
        let w1 = w.skip(1);
        assert(alike_items(v[0], w[0]));
        assert forall|i: int|
            #![trigger v1[i], w1[i]]
            0 <= i < v1.len() implies alike_items(v1[i], w1[i]) by {
            assert(alike_items(v[i + 1], w[i + 1]));
        }
        match (v[0], w[0]) {
            (DirItem::Entry(e), DirItem::Entry(f)) => {
                assert(fate(e, bound) == fate(f, bound));
                match fate(e, bound) {
                    Fate::Skip => {
                        lemma_alike_walk(a, b, bound, v1, w1, rel, strict, st);
                    },
                    Fate::Page => {
                        lemma_alike_walk(
                            a,
                            b,
                            bound,
                            v1,
                            w1,
                            rel,
                            strict,
                            Walked { pages: st.pages.push(joined_path(rel, e.name@)), ..st },
                        );
                    },
                    Fate::Enter(c) => {
                        if st.visited.contains(c) {
                            lemma_alike_walk(a, b, bound, v1, w1, rel, strict, st);
                        } else {
                            let entered = Walked { visited: st.visited.insert(c), ..st };
                            lemma_alike_listing(a, b, c);
                            let inner = match (listing_at(a, c), listing_at(b, c)) {
                                (Some(Listing::Items(p)), Some(Listing::Items(q))) => {
                                    lemma_room_insert(a, st.visited, c);
                                    let sub = joined_path(rel, e.name@);
                                    lemma_alike_walk(a, b, bound, p@, q@, sub, strict, entered);
                                    walk_items(a, bound, p@, sub, strict, entered)
                                },
                                (Some(Listing::Failed(m)), _) => Walked {
                                    failure: Some(m@),
                                    ..entered
                                },
                                _ => entered,
                            };
                            let left = Walked {
                                visited: entered.visited.union(inner.visited),
                                ..inner
                            };
                            lemma_room_shrinks(a, st.visited, left.visited);
                            lemma_alike_walk(a, b, bound, v1, w1, rel, strict, left);
                        }
                    },
                }
            },
            _ => {
                lemma_alike_walk(a, b, bound, v1, w1, rel, strict, st);
            },
        }
    }
}

/// Which pages there are does not depend on what the files hold: where files were only edited,
/// the walk comes to the same.
pub proof fn law_walk_ignores_contents(
    a: Seq<DirRecord>,
    b: Seq<DirRecord>,
    root: Seq<u8>,
    strict: bool,
)
    requires
        alike(a, b),
    ensures
        walk_from(a, root, strict) == walk_from(b, root, strict),
{
    lemma_alike_listing(a, b, root);
    match (listing_at(a, root), listing_at(b, root)) {
        (Some(Listing::Items(v)), Some(Listing::Items(w))) => {
            let start = Walked { pages: seq![], visited: set![root], failure: None };
            lemma_alike_walk(a, b, root, v@, w@, seq![], strict, start);
        },
        _ => {},
    }
}

/// The list of pages is the same after files were only edited.
pub proof fn law_list_ignores_contents(
    a: Seq<DirRecord>,
    b: Seq<DirRecord>,
    root: Seq<u8>,
    before: Seq<Seq<u8>>,
    after: Seq<Seq<u8>>,
)
    requires
        alike(a, b),
        ascending(before),
        before.to_set() == walk_from(a, root, false).pages.to_set(),
        ascending(after),
        after.to_set() == walk_from(b, root, false).pages.to_set(),
    ensures
        before == after,
{
    law_walk_ignores_contents(a, b, root, false);
    lemma_ascending_unique(before, after);
}

// ---------------------------------------------------------------------------
// Failed steps
// ---------------------------------------------------------------------------
/// No step of the list failed.
pub open spec fn all_read(items: Seq<DirItem>) -> bool {
    forall|i: int| 0 <= i < items.len() ==> !(#[trigger] items[i] is Failed)
}

/// No step of any listing failed.
pub open spec fn all_listed(fs: Seq<DirRecord>) -> bool {
    forall|i: int|
        0 <= i < fs.len() ==> match (#[trigger] fs[i]).listing {
            Listing::Items(v) => all_read(v@),
            _ => true,
        }
}

/// In such a snapshot no step of a listing that is looked up failed.
proof fn lemma_listed(fs: Seq<DirRecord>, key: Seq<u8>)
    requires
        all_listed(fs),
    ensures
        match listing_at(fs, key) {
            Some(Listing::Items(v)) => all_read(v@),
            _ => true,
        },
    decreases fs.len(),
{
    if fs.len() > 0 {
        assert(match fs[0].listing {
            Listing::Items(v) => all_read(v@),
            _ => true,
        });
        assert forall|i: int| 0 <= i < fs.skip(1).len() implies match (
        #[trigger] fs.skip(1)[i]).listing {
            Listing::Items(v) => all_read(v@),
            _ => true,
        } by {
            assert(fs.skip(1)[i] == fs[i + 1]);
        }
        lemma_listed(fs.skip(1), key);
    }
}

/// Without failed steps it makes no difference whether they would stop the walk.
proof fn lemma_strictness(
    fs: Seq<DirRecord>,
    bound: Seq<u8>,
    items: Seq<DirItem>,
    rel: Seq<u8>,
    st: Walked,
)
    requires
        all_listed(fs),
        all_read(items),
    ensures
        walk_items(fs, bound, items, rel, true, st) == walk_items(
            fs,
            bound,
            items,
            rel,
            false,
            st,
        ),
    decreases room(fs, st.visited), items.len(),
{
    if st.failure is Some || items.len() == 0 {
    } else {
        let rest = items.skip(1);
        assert(!(items[0] is Failed));
        assert forall|i: int| 0 <= i < rest.len() implies !(#[trigger] rest[i] is Failed) by {
            assert(!(items[i + 1] is Failed));
        }
        match items[0] {
            DirItem::Entry(e) => match fate(e, bound) {
                Fate::Skip => {
                    lemma_strictness(fs, bound, rest, rel, st);
                },
                Fate::Page => {
                    lemma_strictness(
                        fs,
                        bound,
                        rest,
                        rel,
                        Walked { pages: st.pages.push(joined_path(rel, e.name@)), ..st },
                    );
                },
                Fate::Enter(c) => {
                    if st.visited.contains(c) {
                        lemma_strictness(fs, bound, rest, rel, st);
                    } else {
                        let entered = Walked { visited: st.visited.insert(c), ..st };
                        lemma_listed(fs, c);
                        let inner = match listing_at(fs, c) {
                            Some(Listing::Items(v)) => {
                                lemma_room_insert(fs, st.visited, c);
                                let sub = joined_path(rel, e.name@);
                                lemma_strictness(fs, bound, v@, sub, entered);
                                walk_items(fs, bound, v@, sub, true, entered)
                            },
                            Some(Listing::Failed(m)) => Walked { failure: Some(m@), ..entered },
                            _ => entered,
                        };
                        let left = Walked {
                            visited: entered.visited.union(inner.visited),
                            ..inner
                        };
                        lemma_room_shrinks(fs, st.visited, left.visited);
                        lemma_strictness(fs, bound, rest, rel, left);
                    }
                },
            },
            _ => {
                lemma_strictness(fs, bound, rest, rel, st);
            },
        }
    }
}

/// The list of pages and the mirror follow the same rules: where every directory could be listed
/// step by step, they are of the same pages.
pub proof fn law_list_and_mirror_agree(fs: Seq<DirRecord>, root: Seq<u8>)
    requires
        all_listed(fs),
    ensures
        walk_from(fs, root, true) == walk_from(fs, root, false),
{
    lemma_listed(fs, root);
    match listing_at(fs, root) {
        Some(Listing::Items(v)) => {
            lemma_strictness(
                fs,
                root,
                v@,
                seq![],
                Walked { pages: seq![], visited: set![root], failure: None },
            );
        },
        _ => {},
    }
}

// ---------------------------------------------------------------------------
// Pages
// ---------------------------------------------------------------------------
/// The path is that of a file with the extension `md` in some directory.
pub open spec fn is_page_path(p: Seq<u8>) -> bool {
    exists|dir: Seq<u8>, name: Seq<u8>|
        #![trigger joined_path(dir, name)]
        p == joined_path(dir, name) && has_md_extension(name)
}

/// A walk through items adds pages alone.
proof fn lemma_pages(
    fs: Seq<DirRecord>,
    bound: Seq<u8>,
    items: Seq<DirItem>,
    rel: Seq<u8>,
    strict: bool,
    st: Walked,
)
    requires
        forall|i: int| 0 <= i < st.pages.len() ==> is_page_path(#[trigger] st.pages[i]),
    ensures
        ({
            let r = walk_items(fs, bound, items, rel, strict, st);
            forall|i: int| 0 <= i < r.pages.len() ==> is_page_path(#[trigger] r.pages[i])
        }),
    decreases room(fs, st.visited), items.len(),
{
    if st.failure is Some || items.len() == 0 {
    } else {
        let rest = items.skip(1);
        match items[0] {
            DirItem::Entry(e) => match fate(e, bound) {
                Fate::Skip => {
                    lemma_pages(fs, bound, rest, rel, strict, st);
                },
                Fate::Page => {
                    let next = Walked { pages: st.pages.push(joined_path(rel, e.name@)), ..st };
                    assert forall|i: int| 0 <= i < next.pages.len() implies is_page_path(
                        #[trigger] next.pages[i],
                    ) by {
                        if i < st.pages.len() {
                            assert(is_page_path(st.pages[i]));
                        }
                    }
                    lemma_pages(fs, bound, rest, rel, strict, next);
                },
                Fate::Enter(c) => {
                    if st.visited.contains(c) {
                        lemma_pages(fs, bound, rest, rel, strict, st);
                    } else {
                        let entered = Walked { visited: st.visited.insert(c), ..st };
                        let inner = match listing_at(fs, c) {
                            Some(Listing::Items(v)) => {
                                lemma_room_insert(fs, st.visited, c);
                                let sub = joined_path(rel, e.name@);
                                lemma_pages(fs, bound, v@, sub, strict, entered);
                                walk_items(fs, bound, v@, sub, strict, entered)
                            },
                            Some(Listing::Failed(m)) => Walked { failure: Some(m@), ..entered },
                            _ => entered,
                        };
                        let left = Walked {
                            visited: entered.visited.union(inner.visited),
                            ..inner
                        };
                        lemma_room_shrinks(fs, st.visited, left.visited);
                        lemma_pages(fs, bound, rest, rel, strict, left);
                    }
                },
            },
            DirItem::Failed(m) => {
                if !strict {
                    lemma_pages(fs, bound, rest, rel, strict, st);
                }
            },
            DirItem::Gone => {
                lemma_pages(fs, bound, rest, rel, strict, st);
            },
        }
    }
}

/// Every page that a walk finds is a file with the extension `md`.
pub proof fn law_pages_are_markdown(fs: Seq<DirRecord>, root: Seq<u8>, strict: bool)
    ensures
        forall|i: int|
            0 <= i < walk_from(fs, root, strict).pages.len() ==> is_page_path(
                #[trigger] walk_from(fs, root, strict).pages[i],
            ),
{
    match listing_at(fs, root) {
        Some(Listing::Items(v)) => {
            lemma_pages(
                fs,
                root,
                v@,
                seq![],
                strict,
                Walked { pages: seq![], visited: set![root], failure: None },
            );
        },
        _ => {},
    }
}

// ---------------------------------------------------------------------------
// Excluded directories
// ---------------------------------------------------------------------------
/// The name can stand in a directory: it is not empty and holds no separator.
pub open spec fn is_entry_name(name: Seq<u8>) -> bool {
    name.len() > 0 && forall|i: int| 0 <= i < name.len() ==> #[trigger] name[i] != SEP
}

/// A name without a separator is one part.
proof fn lemma_one_segment(name: Seq<u8>)
    requires
        forall|i: int| 0 <= i < name.len() ==> #[trigger] name[i] != SEP,
    ensures
        segments(name) == seq![name],
    decreases name.len(),
{
    if name.len() > 0 {
        assert forall|i: int| 0 <= i < name.drop_last().len() implies #[trigger] name.drop_last()[i]
            != SEP by {
            assert(name[i] != SEP);
        }
        lemma_one_segment(name.drop_last());
        assert(name[name.len() - 1] != SEP);
        assert(name.drop_last().push(name.last()) == name);
        assert(segments(name) == seq![name]);
    } else {
        assert(name == Seq::<u8>::empty());
        assert(segments(name) == seq![name]);
    }
}

/// A name behind a separator is one more part.
proof fn lemma_more_segments(p: Seq<u8>, name: Seq<u8>)
    requires
        forall|i: int| 0 <= i < name.len() ==> #[trigger] name[i] != SEP,
    ensures
        segments(p + seq![SEP] + name) == segments(p).push(name),
    decreases name.len(),
{
    let whole = p + seq![SEP] + name;
    if name.len() > 0 {
        let shorter = name.drop_last();
        assert forall|i: int| 0 <= i < shorter.len() implies #[trigger] shorter[i] != SEP by {
            assert(name[i] != SEP);
        }
        lemma_more_segments(p, shorter);
        assert(whole.drop_last() == p + seq![SEP] + shorter);
        assert(name[name.len() - 1] != SEP);
        assert(shorter.push(name.last()) == name);
        assert(segments(whole) == segments(p).push(name));
    } else {
        assert(whole.drop_last() == p);
        assert(name == Seq::<u8>::empty());
        assert(segments(whole) == segments(p).push(name));
    }
}

/// The name is one of those that are excluded.
pub open spec fn is_noise(name: Seq<u8>) -> bool {
    utf8(name) matches Some(n) && is_noise_dir(n)
}

/// No part of the path is the name of an excluded directory. The empty path is that of the root.
pub open spec fn is_clean_dir(rel: Seq<u8>) -> bool {
    rel.len() == 0 || forall|i: int|
        0 <= i < segments(rel).len() ==> !is_noise(#[trigger] segments(rel)[i])
}

/// No part of the path but the last is the name of an excluded directory.
pub open spec fn is_clean_page(p: Seq<u8>) -> bool {
    forall|i: int| 0 <= i < segments(p).len() - 1 ==> !is_noise(#[trigger] segments(p)[i])
}

/// Every entry has a name that can stand in a directory.
pub open spec fn named_items(items: Seq<DirItem>) -> bool {
    forall|i: int|
        0 <= i < items.len() ==> match #[trigger] items[i] {
            DirItem::Entry(e) => is_entry_name(e.name@),
            _ => true,
        }
}

/// Every entry of every directory has a name that can stand in a directory.
pub open spec fn named(fs: Seq<DirRecord>) -> bool {
    forall|i: int|
        0 <= i < fs.len() ==> match (#[trigger] fs[i]).listing {
            Listing::Items(v) => named_items(v@),
            _ => true,
        }
}

/// In such a snapshot a listing that is looked up has such names.
pub proof fn lemma_named(fs: Seq<DirRecord>, key: Seq<u8>)
    requires
        named(fs),
    ensures
        match listing_at(fs, key) {
            Some(Listing::Items(v)) => named_items(v@),
            _ => true,
        },
    decreases fs.len(),
{
    if fs.len() > 0 {
        assert(match fs[0].listing {
            Listing::Items(v) => named_items(v@),
            _ => true,
        });
        assert forall|i: int| 0 <= i < fs.skip(1).len() implies match (
        #[trigger] fs.skip(1)[i]).listing {
            Listing::Items(v) => named_items(v@),
            _ => true,
        } by {
            assert(fs.skip(1)[i] == fs[i + 1]);
        }
        lemma_named(fs.skip(1), key);
    }
}

/// The parts of the path of an entry.
pub proof fn lemma_entry_segments(rel: Seq<u8>, name: Seq<u8>)
    requires
        is_entry_name(name),
    ensures
        rel.len() == 0 ==> segments(joined_path(rel, name)) == seq![name],
        rel.len() > 0 ==> segments(joined_path(rel, name)) == segments(rel).push(name),
        joined_path(rel, name).len() > 0,
{
    if rel.len() == 0 {
        lemma_one_segment(name);
    } else {
        lemma_more_segments(rel, name);
    }
}

/// A walk through the items of a clean directory adds clean pages alone.
proof fn lemma_clean_pages(
    fs: Seq<DirRecord>,
    bound: Seq<u8>,
    items: Seq<DirItem>,
    rel: Seq<u8>,
    strict: bool,
    st: Walked,
)
    requires
        named(fs),
        named_items(items),
        is_clean_dir(rel),
        forall|i: int| 0 <= i < st.pages.len() ==> is_clean_page(#[trigger] st.pages[i]),
    ensures
        ({
            let r = walk_items(fs, bound, items, rel, strict, st);
            forall|i: int| 0 <= i < r.pages.len() ==> is_clean_page(#[trigger] r.pages[i])
        }),
    decreases room(fs, st.visited), items.len(),
{
    if st.failure is Some || items.len() == 0 {
    } else {
        let rest = items.skip(1);
        assert forall|i: int| 0 <= i < rest.len() implies match #[trigger] rest[i] {
            DirItem::Entry(e) => is_entry_name(e.name@),
            _ => true,
        } by {
            assert(rest[i] == items[i + 1]);
        }
        match items[0] {
            DirItem::Entry(e) => {
                assert(is_entry_name(e.name@));
                let path = joined_path(rel, e.name@);
                lemma_entry_segments(rel, e.name@);
                match fate(e, bound) {
                    Fate::Skip => {
                        lemma_clean_pages(fs, bound, rest, rel, strict, st);
                    },
                    Fate::Page => {
                        let next = Walked { pages: st.pages.push(path), ..st };
                        assert(is_clean_page(path)) by {
                            assert forall|i: int| 0 <= i < segments(path).len() - 1 implies
                                !is_noise(#[trigger] segments(path)[i]) by {
                                assert(segments(path)[i] == segments(rel)[i]);
                            }
                        }
                        assert forall|i: int| 0 <= i < next.pages.len() implies is_clean_page(
                            #[trigger] next.pages[i],
                        ) by {
                            if i < st.pages.len() {
                                assert(is_clean_page(st.pages[i]));
                            }
                        }
                        lemma_clean_pages(fs, bound, rest, rel, strict, next);
                    },
                    Fate::Enter(c) => {
                        if st.visited.contains(c) {
                            lemma_clean_pages(fs, bound, rest, rel, strict, st);
                        } else {
                            let entered = Walked { visited: st.visited.insert(c), ..st };
                            assert(!is_noise(e.name@));
                            assert(is_clean_dir(path)) by {
                                assert forall|i: int| 0 <= i < segments(path).len() implies
                                    !is_noise(#[trigger] segments(path)[i]) by {
                                    if i < segments(path).len() - 1 {
                                        assert(segments(path)[i] == segments(rel)[i]);
                                    }
                                }
                            }
                            lemma_named(fs, c);
                            let inner = match listing_at(fs, c) {
                                Some(Listing::Items(v)) => {
                                    lemma_room_insert(fs, st.visited, c);
                                    lemma_clean_pages(fs, bound, v@, path, strict, entered);
                                    walk_items(fs, bound, v@, path, strict, entered)
                                },
                                Some(Listing::Failed(m)) => Walked { failure: Some(m@), ..entered },
                                _ => entered,
                            };
                            let left = Walked {
                                visited: entered.visited.union(inner.visited),
                                ..inner
                            };
                            lemma_room_shrinks(fs, st.visited, left.visited);
                            lemma_clean_pages(fs, bound, rest, rel, strict, left);
                        }
                    },
                }
            },
            DirItem::Failed(m) => {
                if !strict {
                    lemma_clean_pages(fs, bound, rest, rel, strict, st);
                }
            },
            DirItem::Gone => {
                lemma_clean_pages(fs, bound, rest, rel, strict, st);
            },
        }
    }
}

/// No page that a walk finds lies below a directory with one of the excluded names.
pub proof fn law_no_page_below_noise(fs: Seq<DirRecord>, root: Seq<u8>, strict: bool)
    requires
        named(fs),
    ensures
        forall|i: int|
            0 <= i < walk_from(fs, root, strict).pages.len() ==> is_clean_page(
                #[trigger] walk_from(fs, root, strict).pages[i],
            ),
{
    lemma_named(fs, root);
    match listing_at(fs, root) {
        Some(Listing::Items(v)) => {
            lemma_clean_pages(
                fs,
                root,
                v@,
                seq![],
                strict,
                Walked { pages: seq![], visited: set![root], failure: None },
            );
        },
        _ => {},
    }
}

// ---------------------------------------------------------------------------
// No page twice
// ---------------------------------------------------------------------------
/// The parts of the path of an entry `name` in the directory `rel`.
pub open spec fn entry_segments(rel: Seq<u8>, name: Seq<u8>) -> Seq<Seq<u8>> {
    if rel.len() == 0 {
        seq![name]
    } else {
        segments(rel).push(name)
    }
}

/// The page `p` is the entry `name` of the directory `rel`, or lies below it.
pub open spec fn lies_at(p: Seq<u8>, rel: Seq<u8>, name: Seq<u8>) -> bool {
    entry_segments(rel, name).is_prefix_of(segments(p))
}

/// The page `p` is an entry of the given list in the directory `rel`, or lies below one.
pub open spec fn lies_at_any(p: Seq<u8>, rel: Seq<u8>, items: Seq<DirItem>) -> bool {
    exists|i: int|
        0 <= i < items.len() && (#[trigger] items[i] matches DirItem::Entry(e) && lies_at(
            p,
            rel,
            e.name@,
        ))
}

/// No two entries of the list have the same name.
pub open spec fn distinct_items(items: Seq<DirItem>) -> bool {
    forall|i: int, j: int|
        #![trigger items[i], items[j]]
        0 <= i < j < items.len() ==> match (items[i], items[j]) {
            (DirItem::Entry(e), DirItem::Entry(f)) => e.name@ != f.name@,
            _ => true,
        }
}

/// No two entries of the same directory have the same name.
pub open spec fn distinct(fs: Seq<DirRecord>) -> bool {
    forall|i: int|
        0 <= i < fs.len() ==> match (#[trigger] fs[i]).listing {
            Listing::Items(v) => distinct_items(v@),
            _ => true,
        }
}

/// In such a snapshot a listing that is looked up has distinct names.
pub proof fn lemma_distinct(fs: Seq<DirRecord>, key: Seq<u8>)
    requires
        distinct(fs),
    ensures
        match listing_at(fs, key) {
            Some(Listing::Items(v)) => distinct_items(v@),
            _ => true,
        },
    decreases fs.len(),
{
    if fs.len() > 0 {
        assert(match fs[0].listing {
            Listing::Items(v) => distinct_items(v@),
            _ => true,
        });
        assert forall|i: int| 0 <= i < fs.skip(1).len() implies match (
        #[trigger] fs.skip(1)[i]).listing {
            Listing::Items(v) => distinct_items(v@),
            _ => true,
        } by {
            assert(fs.skip(1)[i] == fs[i + 1]);
        }
        lemma_distinct(fs.skip(1), key);
    }
}

/// What lies below one entry of a directory does not lie below another.
pub proof fn lemma_lies_at_one(p: Seq<u8>, rel: Seq<u8>, a: Seq<u8>, b: Seq<u8>)
    requires
        lies_at(p, rel, a),
        lies_at(p, rel, b),
    ensures
        a == b,
{
    let x = entry_segments(rel, a);
    let y = entry_segments(rel, b);
    assert(x.len() == y.len());
    assert(x == segments(p).take(x.len() as int));
    assert(y == segments(p).take(y.len() as int));
    assert(x.last() == y.last());
}

/// What lies below an entry of a sub-directory lies below the sub-directory.
pub proof fn lemma_lies_above(p: Seq<u8>, rel: Seq<u8>, dir: Seq<u8>, name: Seq<u8>)
    requires
        is_entry_name(dir),
        lies_at(p, joined_path(rel, dir), name),
    ensures
        lies_at(p, rel, dir),
{
    lemma_entry_segments(rel, dir);
    let outer = entry_segments(rel, dir);
    let inner = entry_segments(joined_path(rel, dir), name);
    assert(inner == outer.push(name));
    assert(inner == segments(p).take(inner.len() as int));
    assert(outer == inner.take(outer.len() as int));
    assert(outer == segments(p).take(outer.len() as int));
}

/// The pages of `st` lie below none of the entries of the list.
pub open spec fn none_at(st: Walked, rel: Seq<u8>, items: Seq<DirItem>) -> bool {
    forall|i: int| 0 <= i < st.pages.len() ==> !lies_at_any(#[trigger] st.pages[i], rel, items)
}

/// Every page of `r` is one of `st`, or lies below an entry of the list.
pub open spec fn added_at(r: Walked, st: Walked, rel: Seq<u8>, items: Seq<DirItem>) -> bool {
    forall|i: int|
        0 <= i < r.pages.len() ==> st.pages.contains(#[trigger] r.pages[i]) || lies_at_any(
            r.pages[i],
            rel,
            items,
        )
}

/// The first entry of a list has one place in it.
proof fn lemma_first_entry(p: Seq<u8>, rel: Seq<u8>, items: Seq<DirItem>)
    requires
        items.len() > 0,
    ensures
        lies_at_any(p, rel, items.skip(1)) ==> lies_at_any(p, rel, items),
        (items[0] matches DirItem::Entry(e) && lies_at(p, rel, e.name@)) ==> lies_at_any(
            p,
            rel,
            items,
        ),
        distinct_items(items) && (items[0] matches DirItem::Entry(e) && lies_at(p, rel, e.name@))
            ==> !lies_at_any(p, rel, items.skip(1)),
{
    let rest = items.skip(1);
    if lies_at_any(p, rel, rest) {
        let i = choose|i: int|
            0 <= i < rest.len() && (#[trigger] rest[i] matches DirItem::Entry(e) && lies_at(
                p,
                rel,
                e.name@,
            ));
        assert(items[i + 1] == rest[i]);
        if distinct_items(items) {
            match (items[0], items[i + 1]) {
                (DirItem::Entry(e), DirItem::Entry(f)) => {
                    if lies_at(p, rel, e.name@) {
                        lemma_lies_at_one(p, rel, e.name@, f.name@);
                    }
                },
                _ => {},
            }
        }
    }
}

/// A walk through items finds no page twice, and only pages below the items.
proof fn lemma_pages_once(
    fs: Seq<DirRecord>,
    bound: Seq<u8>,
    items: Seq<DirItem>,
    rel: Seq<u8>,
    strict: bool,
    st: Walked,
)
    requires
        named(fs),
        distinct(fs),
        named_items(items),
        distinct_items(items),
        st.pages.no_duplicates(),
        none_at(st, rel, items),
    ensures
        walk_items(fs, bound, items, rel, strict, st).pages.no_duplicates(),
        added_at(walk_items(fs, bound, items, rel, strict, st), st, rel, items),
    decreases room(fs, st.visited), items.len(),
{
    let r = walk_items(fs, bound, items, rel, strict, st);
    if st.failure is Some || items.len() == 0 {
    } else {
        let rest = items.skip(1);
        assert forall|i: int| 0 <= i < rest.len() implies match #[trigger] rest[i] {
            DirItem::Entry(e) => is_entry_name(e.name@),
            _ => true,
        } by {
            assert(rest[i] == items[i + 1]);
        }
        assert(distinct_items(rest)) by {
            assert forall|i: int, j: int|
                #![trigger rest[i], rest[j]]
                0 <= i < j < rest.len() implies match (rest[i], rest[j]) {
                (DirItem::Entry(e), DirItem::Entry(f)) => e.name@ != f.name@,
                _ => true,
            } by {
                assert(rest[i] == items[i + 1] && rest[j] == items[j + 1]);
            }
        }
        assert(none_at(st, rel, rest)) by {
            assert forall|i: int| 0 <= i < st.pages.len() implies !lies_at_any(
                #[trigger] st.pages[i],
                rel,
                rest,
            ) by {
                lemma_first_entry(st.pages[i], rel, items);
            }
        }
        let next = match items[0] {
            DirItem::Entry(e) => match fate(e, bound) {
                Fate::Page => Walked { pages: st.pages.push(joined_path(rel, e.name@)), ..st },
                Fate::Enter(c) => if st.visited.contains(c) {
                    st
                } else {
                    let entered = Walked { visited: st.visited.insert(c), ..st };
                    let inner = match listing_at(fs, c) {
                        Some(Listing::Items(v)) => walk_items(
                            fs,
                            bound,
                            v@,
                            joined_path(rel, e.name@),
                            strict,
                            entered,
                        ),
                        Some(Listing::Failed(m)) => Walked { failure: Some(m@), ..entered },
                        _ => entered,
                    };
                    Walked { visited: entered.visited.union(inner.visited), ..inner }
                },
                Fate::Skip => st,
            },
            DirItem::Failed(m) => if strict {
                Walked { failure: Some(m@), ..st }
            } else {
                st
            },
            DirItem::Gone => st,
        };
        if let DirItem::Entry(e) = items[0] {
            assert(is_entry_name(e.name@));
            let path = joined_path(rel, e.name@);
            lemma_entry_segments(rel, e.name@);
            match fate(e, bound) {
                Fate::Page => {
                    assert(segments(path) == entry_segments(rel, e.name@));
                    assert(lies_at(path, rel, e.name@)) by {
                        let x = segments(path);
                        assert(x == x.take(x.len() as int));
                    }
                    lemma_first_entry(path, rel, items);
                    assert(!st.pages.contains(path)) by {
                        if st.pages.contains(path) {
                            let k = choose|k: int| 0 <= k < st.pages.len() && st.pages[k] == path;
                            assert(!lies_at_any(st.pages[k], rel, items));
                        }
                    }
                },
                Fate::Enter(c) => {
                    if !st.visited.contains(c) {
                        let entered = Walked { visited: st.visited.insert(c), ..st };
                        lemma_named(fs, c);
                        lemma_distinct(fs, c);
                        if let Some(Listing::Items(v)) = listing_at(fs, c) {
                            assert(none_at(entered, path, v@)) by {
                                assert forall|i: int| 0 <= i < st.pages.len() implies !lies_at_any(
                                    #[trigger] entered.pages[i],
                                    path,
                                    v@,
                                ) by {
                                    if lies_at_any(st.pages[i], path, v@) {
                                        let j = choose|j: int|
                                            0 <= j < v@.len() && (
                                            #[trigger] v@[j] matches DirItem::Entry(f) && lies_at(
                                                st.pages[i],
                                                path,
                                                f.name@,
                                            ));
                                        lemma_lies_above(
                                            st.pages[i],
                                            rel,
                                            e.name@,
                                            v@[j]->Entry_0.name@,
                                        );
                                        lemma_first_entry(st.pages[i], rel, items);
                                    }
                                }
                            }
                            lemma_room_insert(fs, st.visited, c);
                            lemma_pages_once(fs, bound, v@, path, strict, entered);
                            assert forall|i: int| 0 <= i < next.pages.len() implies st.pages.contains(
                                #[trigger] next.pages[i],
                            ) || lies_at(next.pages[i], rel, e.name@) by {
                                if !st.pages.contains(next.pages[i]) {
                                    let j = choose|j: int|
                                        0 <= j < v@.len() && (
                                        #[trigger] v@[j] matches DirItem::Entry(f) && lies_at(
                                            next.pages[i],
                                            path,
                                            f.name@,
                                        ));
                                    lemma_lies_above(
                                        next.pages[i],
                                        rel,
                                        e.name@,
                                        v@[j]->Entry_0.name@,
                                    );
                                }
                            }
                        }
                    }
                },
                Fate::Skip => {},
            }
        }
        assert(next.pages.no_duplicates());
        assert forall|i: int| 0 <= i < next.pages.len() implies st.pages.contains(
            #[trigger] next.pages[i],
        ) || (items[0] matches DirItem::Entry(e) && lies_at(next.pages[i], rel, e.name@)) by {
            if i < st.pages.len() && next.pages[i] == st.pages[i] {
                assert(st.pages.contains(next.pages[i]));
            }
        }
        assert(none_at(next, rel, rest)) by {
            assert forall|i: int| 0 <= i < next.pages.len() implies !lies_at_any(
                #[trigger] next.pages[i],
                rel,
                rest,
            ) by {
                lemma_first_entry(next.pages[i], rel, items);
                if st.pages.contains(next.pages[i]) {
                    let k = choose|k: int|
                        0 <= k < st.pages.len() && st.pages[k] == next.pages[i];
                    assert(!lies_at_any(st.pages[k], rel, rest));
                }
            }
        }
        lemma_room_shrinks(fs, st.visited, next.visited);
        lemma_pages_once(fs, bound, rest, rel, strict, next);
        assert(r == walk_items(fs, bound, rest, rel, strict, next));
        assert forall|i: int| 0 <= i < r.pages.len() implies st.pages.contains(
            #[trigger] r.pages[i],
        ) || lies_at_any(r.pages[i], rel, items) by {
            lemma_first_entry(r.pages[i], rel, items);
            if next.pages.contains(r.pages[i]) {
                let k = choose|k: int| 0 <= k < next.pages.len() && next.pages[k] == r.pages[i];
                assert(st.pages.contains(next.pages[k]) || (items[0] matches DirItem::Entry(e)
                    && lies_at(next.pages[k], rel, e.name@)));
            }
        }
    }
}

/// A walk finds no page twice, whatever links there are: each directory is searched once.
pub proof fn law_no_page_twice(fs: Seq<DirRecord>, root: Seq<u8>, strict: bool)
    requires
        named(fs),
        distinct(fs),
    ensures
        walk_from(fs, root, strict).pages.no_duplicates(),
{
    lemma_named(fs, root);
    lemma_distinct(fs, root);
    match listing_at(fs, root) {
        Some(Listing::Items(v)) => {
            lemma_pages_once(
                fs,
                root,
                v@,
                seq![],
                strict,
                Walked { pages: seq![], visited: set![root], failure: None },
            );
        },
        _ => {},
    }
}

// ---------------------------------------------------------------------------
// What cannot be read
// ---------------------------------------------------------------------------
/// An entry that vanished has no effect on the walk. A failed step of a listing stops a strict
/// walk with its message, and has no effect on another. A directory that cannot be listed stops
/// any walk with its message; the pages found before stay.
pub proof fn law_failures_stop_the_walk(
    fs: Seq<DirRecord>,
    bound: Seq<u8>,
    m: String,
    e: DirEntry,
    rest: Seq<DirItem>,
    rel: Seq<u8>,
    strict: bool,
    st: Walked,
)
    requires
        st.failure is None,
    ensures
        walk_items(fs, bound, seq![DirItem::Gone] + rest, rel, strict, st) == walk_items(
            fs,
            bound,
            rest,
            rel,
            strict,
            st,
        ),
        walk_items(fs, bound, seq![DirItem::Failed(m)] + rest, rel, false, st) == walk_items(
            fs,
            bound,
            rest,
            rel,
            false,
            st,
        ),
        walk_items(fs, bound, seq![DirItem::Failed(m)] + rest, rel, true, st).failure == Some(m@),
        walk_items(fs, bound, seq![DirItem::Failed(m)] + rest, rel, true, st).pages == st.pages,
        fate(e, bound) matches Fate::Enter(c) && !st.visited.contains(c) && listing_at(fs, c)
            == Some(Listing::Failed(m)) ==> walk_items(
            fs,
            bound,
            seq![DirItem::Entry(e)] + rest,
            rel,
            strict,
            st,
        ).failure == Some(m@) && walk_items(
            fs,
            bound,
            seq![DirItem::Entry(e)] + rest,
            rel,
            strict,
            st,
        ).pages == st.pages,
{
    assert((seq![DirItem::Gone] + rest).skip(1) == rest);
    assert((seq![DirItem::Failed(m)] + rest).skip(1) == rest);
    assert((seq![DirItem::Entry(e)] + rest).skip(1) == rest);
    reveal_with_fuel(walk_items, 2);
}

/// A root that cannot be listed stops the walk with its message, and one that does not exist has
/// no pages.
pub proof fn law_root_must_be_readable(fs: Seq<DirRecord>, root: Seq<u8>, strict: bool, m: String)
    ensures
        listing_at(fs, root) == Some(Listing::Failed(m)) ==> walk_from(fs, root, strict).failure
            == Some(m@),
        listing_at(fs, root) is None || listing_at(fs, root) == Some(Listing::Missing) ==> walk_from(
            fs,
            root,
            strict,
        ).failure is None && walk_from(fs, root, strict).pages.len() == 0,
{
}

/// A page is found under the path of its directory and its name, and the search goes on behind it.
pub proof fn law_page_is_found_under_its_path(
    fs: Seq<DirRecord>,
    bound: Seq<u8>,
    e: DirEntry,
    rest: Seq<DirItem>,
    rel: Seq<u8>,
    strict: bool,
    st: Walked,
)
    requires
        st.failure is None,
        fate(e, bound) == Fate::Page,
    ensures
        walk_items(fs, bound, seq![DirItem::Entry(e)] + rest, rel, strict, st) == walk_items(
            fs,
            bound,
            rest,
            rel,
            strict,
            (Walked {
                pages: st.pages.push(
                    if rel.len() == 0 {
                        e.name@
                    } else {
                        rel + seq![47u8] + e.name@
                    },
                ),
                ..st
            }),
        ),
{
    assert((seq![DirItem::Entry(e)] + rest).skip(1) == rest);
}

/// A directory that was not entered before is searched when it is met, be it behind a link or not:
/// the pages in it are found under its path, and nothing that was entered on the way is entered
/// again. Then the search goes on behind it.
pub proof fn law_directory_is_searched(
    fs: Seq<DirRecord>,
    bound: Seq<u8>,
    e: DirEntry,
    c: Seq<u8>,
    within: Vec<DirItem>,
    rest: Seq<DirItem>,
    rel: Seq<u8>,
    strict: bool,
    st: Walked,
)
    requires
        st.failure is None,
        fate(e, bound) == Fate::Enter(c),
        !st.visited.contains(c),
        listing_at(fs, c) == Some(Listing::Items(within)),
    ensures
        ({
            let path = if rel.len() == 0 {
                e.name@
            } else {
                rel + seq![47u8] + e.name@
            };
            let start = Walked { visited: st.visited.insert(c), ..st };
            let found = walk_items(fs, bound, within@, path, strict, start);
            &&& start.visited.subset_of(found.visited)
            &&& walk_items(fs, bound, seq![DirItem::Entry(e)] + rest, rel, strict, st)
                == walk_items(fs, bound, rest, rel, strict, found)
        }),
{
    let start = Walked { visited: st.visited.insert(c), ..st };
    let path = joined_path(rel, e.name@);
    let found = walk_items(fs, bound, within@, path, strict, start);
    assert((seq![DirItem::Entry(e)] + rest).skip(1) == rest);
    lemma_walk_visits(fs, bound, within@, path, strict, start);
    assert(start.visited.union(found.visited) =~= found.visited);
}

} // verus!
