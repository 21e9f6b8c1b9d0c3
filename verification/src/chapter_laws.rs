//! What holds of every chapter tree.

use vstd::prelude::*;
use vstd::utf8::{decode_utf8, decode_utf8_encode_utf8, encode_utf8, valid_utf8};

use crate::chapter::{
    chapter_at, chapter_of, dir_title, entry_title, grow, holds_nothing, lemma_scan_room, page_title,
    scan, tree_of, unread, with_page, Chapter, Grown, Page, Scanned,
};
use crate::named::{
    law_sort_ascends, law_sort_keeps_names_apart, law_sort_permutes, names_ascend, names_differ,
    sort_named,
};
use crate::order::lex_le;
use crate::os_path::{file_name, joined_path, law_name_is_stem_and_extension, opt_bytes, SEP};
use crate::title::title_in;
use crate::utf8::utf8;
use crate::walk::{
    fate, lemma_room_shrinks, listing_at, room, DirEntry, DirItem, DirRecord, Fate, Listing,
};
use crate::walk_laws::{distinct, distinct_items, lemma_distinct};

verus! {

// ---------------------------------------------------------------------------
// Order
// ---------------------------------------------------------------------------
/// The pages ascend by their paths.
pub open spec fn pages_ascend(ps: Seq<Page>) -> bool {
    forall|i: int, j: int|
        #![trigger ps[i], ps[j]]
        0 <= i < j < ps.len() ==> lex_le(ps[i].rel, ps[j].rel)
}

/// The chapters ascend by their names. A chapter without a name stands for a directory whose name
/// is not valid UTF-8.
pub open spec fn chapters_ascend(cs: Seq<Chapter>) -> bool {
    forall|i: int, j: int|
        #![trigger cs[i], cs[j]]
        0 <= i < j < cs.len() && cs[i].name.len() > 0 && cs[j].name.len() > 0 ==> lex_le(
            encode_utf8(cs[i].name),
            encode_utf8(cs[j].name),
        )
}

/// The pages and the sub-chapters of the chapter ascend, no sub-chapter holds nothing, and the
/// same is true of every sub-chapter.
pub open spec fn is_tidy(c: Chapter) -> bool
    decreases c,
{
    pages_ascend(c.files) && chapters_ascend(c.subdirs) && are_tidy(c.subdirs)
}

/// No chapter holds nothing, and all are tidy.
pub open spec fn are_tidy(cs: Seq<Chapter>) -> bool
    decreases cs,
{
    cs.len() == 0 || (are_tidy(cs.drop_last()) && !holds_nothing(cs.last()) && is_tidy(cs.last()))
}

/// What stands before two byte strings does not change their order.
proof fn lemma_lex_behind(p: Seq<u8>, a: Seq<u8>, b: Seq<u8>)
    requires
        lex_le(a, b),
    ensures
        lex_le(p + a, p + b),
    decreases p.len(),
{
    if p.len() > 0 {
        lemma_lex_behind(p.skip(1), a, b);
        assert((p + a).skip(1) == p.skip(1) + a);
        assert((p + b).skip(1) == p.skip(1) + b);
    } else {
        assert(p + a == a);
        assert(p + b == b);
    }
}

/// The pages of a directory ascend.
proof fn lemma_pages_ascend(name: Seq<char>, rel: Seq<u8>, s: Scanned, subdirs: Seq<Chapter>)
    ensures
        pages_ascend(chapter_of(name, rel, s, subdirs).files),
{
    let sorted = sort_named(s.files);
    let ps = chapter_of(name, rel, s, subdirs).files;
    law_sort_ascends(s.files);
    assert forall|i: int, j: int| #![trigger ps[i], ps[j]] 0 <= i < j < ps.len() implies lex_le(
        ps[i].rel,
        ps[j].rel,
    ) by {
        assert(lex_le(sorted[i].0, sorted[j].0));
        lemma_lex_behind(rel + seq![SEP], sorted[i].0, sorted[j].0);
    }
}

/// The chapter with this name may stand before that of a directory.
pub open spec fn may_precede(name: Seq<char>, dir: Seq<u8>) -> bool {
    name.len() == 0 || utf8(dir) is None || lex_le(encode_utf8(name), dir)
}

/// The chapter of a directory is tidy.
proof fn lemma_chapter_tidy(
    fs: Seq<DirRecord>,
    bound: Seq<u8>,
    key: Seq<u8>,
    name: Seq<char>,
    rel: Seq<u8>,
    visited: Set<Seq<u8>>,
)
    ensures
        chapter_at(fs, bound, key, name, rel, visited) matches Ok((c, _)) ==> is_tidy(c) && c.name
            == name,
    decreases room(fs, visited), 0nat,
{
    match listing_at(fs, key) {
        Some(Listing::Items(v)) => {
            let s = scan(fs, bound, v@, unread(visited));
            lemma_scan_room(fs, bound, v@, unread(visited));
            let start = Grown { chapters: seq![], visited: s.visited, failure: None };
            let g = if s.dirs.len() == 0 {
                start
            } else {
                law_sort_ascends(s.dirs);
                lemma_chapters_tidy(fs, bound, sort_named(s.dirs), rel, start);
                grow(fs, bound, sort_named(s.dirs), rel, start)
            };
            lemma_pages_ascend(name, rel, s, g.chapters);
        },
        _ => {},
    }
}

/// The chapters of sub-directories are tidy and ascend.
proof fn lemma_chapters_tidy(
    fs: Seq<DirRecord>,
    bound: Seq<u8>,
    dirs: Seq<(Seq<u8>, Seq<u8>)>,
    rel: Seq<u8>,
    g: Grown,
)
    requires
        are_tidy(g.chapters),
        chapters_ascend(g.chapters),
        names_ascend(dirs),
        forall|i: int, j: int|
            #![trigger g.chapters[i], dirs[j]]
            0 <= i < g.chapters.len() && 0 <= j < dirs.len() ==> may_precede(
                g.chapters[i].name,
                dirs[j].0,
            ),
    ensures
        are_tidy(grow(fs, bound, dirs, rel, g).chapters),
        chapters_ascend(grow(fs, bound, dirs, rel, g).chapters),
    decreases room(fs, g.visited), dirs.len() + 1,
{
    if g.failure is Some || dirs.len() == 0 {
    } else {
        let d = dirs[0];
        let title = dir_title(Some(d.0));
        let rest = dirs.skip(1);
        lemma_chapter_tidy(fs, bound, d.1, title, joined_path(rel, d.0), g.visited);
        match chapter_at(fs, bound, d.1, title, joined_path(rel, d.0), g.visited) {
            Err(m) => {},
            Ok((c, visited)) => {
                let chapters = if holds_nothing(c) {
                    g.chapters
                } else {
                    g.chapters.push(c)
                };
                let next = Grown {
                    chapters,
                    visited: g.visited.union(visited),
                    failure: None,
                };
                lemma_room_shrinks(fs, g.visited, next.visited);
                assert(!holds_nothing(c) ==> chapters.drop_last() == g.chapters);
                if utf8(d.0) is Some {
                    decode_utf8_encode_utf8(d.0);
                    assert(encode_utf8(title) == d.0);
                }
                assert forall|i: int, j: int|
                    #![trigger rest[i], rest[j]]
                    0 <= i < j < rest.len() implies lex_le(rest[i].0, rest[j].0) by {
                    assert(lex_le(dirs[i + 1].0, dirs[j + 1].0));
                }
                assert forall|i: int, j: int|
                    #![trigger chapters[i], rest[j]]
                    0 <= i < chapters.len() && 0 <= j < rest.len() implies may_precede(
                    chapters[i].name,
                    rest[j].0,
                ) by {
                    if i < g.chapters.len() {
                        assert(chapters[i] == g.chapters[i]);
                        assert(may_precede(g.chapters[i].name, dirs[j + 1].0));
                    } else {
                        assert(lex_le(dirs[0].0, dirs[j + 1].0));
                    }
                }
                assert forall|i: int, j: int|
                    #![trigger chapters[i], chapters[j]]
                    0 <= i < j < chapters.len() && chapters[i].name.len() > 0
                        && chapters[j].name.len() > 0 implies lex_le(
                    encode_utf8(chapters[i].name),
                    encode_utf8(chapters[j].name),
                ) by {
                    assert(chapters[i] == g.chapters[i]);
                    if j < g.chapters.len() {
                        assert(chapters[j] == g.chapters[j]);
                    } else {
                        assert(may_precede(g.chapters[i].name, dirs[0].0));
                    }
                }
                lemma_chapters_tidy(fs, bound, rest, rel, next);
            },
        }
    }
}

/// At every level of a chapter tree the pages and the sub-directories are in ascending order, and
/// a sub-directory in which there is no page is left out.
pub proof fn law_tree_is_tidy(fs: Seq<DirRecord>, root: Seq<u8>, canonical_root: Seq<u8>)
    ensures
        tree_of(fs, root, canonical_root) matches Ok(c) ==> is_tidy(c),
{
    lemma_chapter_tidy(
        fs,
        canonical_root,
        root,
        dir_title(file_name(root)),
        seq![],
        set![canonical_root],
    );
}

// ---------------------------------------------------------------------------
// Strict order
// ---------------------------------------------------------------------------
/// No two pages have the same path.
pub open spec fn pages_differ(ps: Seq<Page>) -> bool {
    forall|i: int, j: int|
        #![trigger ps[i], ps[j]]
        0 <= i < j < ps.len() ==> ps[i].rel != ps[j].rel
}

/// No two chapters have the same name, but for those without one.
pub open spec fn chapters_differ(cs: Seq<Chapter>) -> bool {
    forall|i: int, j: int|
        #![trigger cs[i], cs[j]]
        0 <= i < j < cs.len() && cs[i].name.len() > 0 ==> cs[i].name != cs[j].name
}

/// The pages of the chapter differ, its sub-chapters differ, and the same is true of every
/// sub-chapter.
pub open spec fn is_unambiguous(c: Chapter) -> bool
    decreases c,
{
    pages_differ(c.files) && chapters_differ(c.subdirs) && are_unambiguous(c.subdirs)
}

/// The pages and sub-chapters of each of the chapters differ, at every level.
pub open spec fn are_unambiguous(cs: Seq<Chapter>) -> bool
    decreases cs,
{
    cs.len() == 0 || (are_unambiguous(cs.drop_last()) && is_unambiguous(cs.last()))
}

/// None of the entries has a name that was read before.
pub open spec fn is_news(items: Seq<DirItem>, s: Scanned) -> bool {
    &&& forall|i: int, j: int|
        #![trigger items[i], s.files[j]]
        0 <= i < items.len() && 0 <= j < s.files.len() ==> (items[i] matches DirItem::Entry(e)
            ==> s.files[j].0 != e.name@)
    &&& forall|i: int, j: int|
        #![trigger items[i], s.dirs[j]]
        0 <= i < items.len() && 0 <= j < s.dirs.len() ==> (items[i] matches DirItem::Entry(e)
            ==> s.dirs[j].0 != e.name@)
}

/// Where the names of a listing differ, so do those of the pages and directories read from it.
pub proof fn lemma_scan_differs(fs: Seq<DirRecord>, bound: Seq<u8>, items: Seq<DirItem>, s: Scanned)
    requires
        distinct_items(items),
        is_news(items, s),
        names_differ(s.files),
        names_differ(s.dirs),
    ensures
        names_differ(scan(fs, bound, items, s).files),
        names_differ(scan(fs, bound, items, s).dirs),
    decreases items.len(),
{
    if s.failure is Some || items.len() == 0 {
    } else {
        let rest = items.skip(1);
        let next = scan(fs, bound, seq![items[0]], s);
        reveal_with_fuel(scan, 3);
        assert(seq![items[0]].skip(1).len() == 0);
        assert(scan(fs, bound, items, s) == scan(fs, bound, rest, next));
        assert(distinct_items(rest)) by {
            assert forall|i: int, j: int|
                #![trigger rest[i], rest[j]]
                0 <= i < j < rest.len() implies match (rest[i], rest[j]) {
                (DirItem::Entry(e), DirItem::Entry(f)) => e.name@ != f.name@,
                _ => true,
            } by {
                assert(rest[i] == items[i + 1] && rest[j] == items[j + 1]);
            }
        }
        assert(names_differ(next.files)) by {
            assert forall|i: int, j: int|
                #![trigger next.files[i], next.files[j]]
                0 <= i < j < next.files.len() implies next.files[i].0 != next.files[j].0 by {
                assert(next.files[i] == s.files[i]);
                if j < s.files.len() {
                    assert(next.files[j] == s.files[j]);
                } else {
                    assert(items[0] is Entry);
                }
            }
        }
        assert(names_differ(next.dirs)) by {
            assert forall|i: int, j: int|
                #![trigger next.dirs[i], next.dirs[j]]
                0 <= i < j < next.dirs.len() implies next.dirs[i].0 != next.dirs[j].0 by {
                assert(next.dirs[i] == s.dirs[i]);
                if j < s.dirs.len() {
                    assert(next.dirs[j] == s.dirs[j]);
                } else {
                    assert(items[0] is Entry);
                }
            }
        }
        assert(is_news(rest, next)) by {
            assert forall|i: int, j: int|
                #![trigger rest[i], next.files[j]]
                0 <= i < rest.len() && 0 <= j < next.files.len() implies (
            rest[i] matches DirItem::Entry(e) ==> next.files[j].0 != e.name@) by {
                assert(rest[i] == items[i + 1]);
                if j < s.files.len() {
                    assert(next.files[j] == s.files[j]);
                } else {
                    assert(items[0] is Entry);
                }
            }
            assert forall|i: int, j: int|
                #![trigger rest[i], next.dirs[j]]
                0 <= i < rest.len() && 0 <= j < next.dirs.len() implies (
            rest[i] matches DirItem::Entry(e) ==> next.dirs[j].0 != e.name@) by {
                assert(rest[i] == items[i + 1]);
                if j < s.dirs.len() {
                    assert(next.dirs[j] == s.dirs[j]);
                } else {
                    assert(items[0] is Entry);
                }
            }
        }
        lemma_scan_differs(fs, bound, rest, next);
    }
}

/// The pages of a directory differ where their names do.
proof fn lemma_pages_differ(name: Seq<char>, rel: Seq<u8>, s: Scanned, subdirs: Seq<Chapter>)
    requires
        names_differ(s.files),
    ensures
        pages_differ(chapter_of(name, rel, s, subdirs).files),
{
    let sorted = sort_named(s.files);
    let ps = chapter_of(name, rel, s, subdirs).files;
    law_sort_keeps_names_apart(s.files);
    assert forall|i: int, j: int| #![trigger ps[i], ps[j]] 0 <= i < j < ps.len() implies ps[i].rel
        != ps[j].rel by {
        let a = sorted[i].0;
        let b = sorted[j].0;
        assert(a != b);
        if rel.len() > 0 && ps[i].rel == ps[j].rel {
            let p = rel + seq![SEP];
            assert(a == (p + a).skip(p.len() as int));
            assert(b == (p + b).skip(p.len() as int));
        }
    }
}

/// The chapter of a directory is unambiguous.
proof fn lemma_chapter_unambiguous(
    fs: Seq<DirRecord>,
    bound: Seq<u8>,
    key: Seq<u8>,
    name: Seq<char>,
    rel: Seq<u8>,
    visited: Set<Seq<u8>>,
)
    requires
        distinct(fs),
    ensures
        chapter_at(fs, bound, key, name, rel, visited) matches Ok((c, _)) ==> is_unambiguous(c)
            && c.name == name,
    decreases room(fs, visited), 0nat,
{
    match listing_at(fs, key) {
        Some(Listing::Items(v)) => {
            let s = scan(fs, bound, v@, unread(visited));
            lemma_scan_room(fs, bound, v@, unread(visited));
            lemma_distinct(fs, key);
            lemma_scan_differs(fs, bound, v@, unread(visited));
            let start = Grown { chapters: seq![], visited: s.visited, failure: None };
            let g = if s.dirs.len() == 0 {
                start
            } else {
                law_sort_keeps_names_apart(s.dirs);
                lemma_chapters_unambiguous(fs, bound, sort_named(s.dirs), rel, start);
                grow(fs, bound, sort_named(s.dirs), rel, start)
            };
            lemma_pages_differ(name, rel, s, g.chapters);
        },
        _ => {},
    }
}

/// The chapters of sub-directories are unambiguous and differ.
proof fn lemma_chapters_unambiguous(
    fs: Seq<DirRecord>,
    bound: Seq<u8>,
    dirs: Seq<(Seq<u8>, Seq<u8>)>,
    rel: Seq<u8>,
    g: Grown,
)
    requires
        distinct(fs),
        are_unambiguous(g.chapters),
        chapters_differ(g.chapters),
        names_differ(dirs),
        forall|i: int, j: int|
            #![trigger g.chapters[i], dirs[j]]
            0 <= i < g.chapters.len() && 0 <= j < dirs.len() && g.chapters[i].name.len() > 0
                ==> utf8(dirs[j].0) != Some(g.chapters[i].name),
    ensures
        are_unambiguous(grow(fs, bound, dirs, rel, g).chapters),
        chapters_differ(grow(fs, bound, dirs, rel, g).chapters),
    decreases room(fs, g.visited), dirs.len() + 1,
{
    if g.failure is Some || dirs.len() == 0 {
    } else {
        let d = dirs[0];
        let title = dir_title(Some(d.0));
        let rest = dirs.skip(1);
        lemma_chapter_unambiguous(fs, bound, d.1, title, joined_path(rel, d.0), g.visited);
        match chapter_at(fs, bound, d.1, title, joined_path(rel, d.0), g.visited) {
            Err(m) => {},
            Ok((c, visited)) => {
                let chapters = if holds_nothing(c) {
                    g.chapters
                } else {
                    g.chapters.push(c)
                };
                let next = Grown {
                    chapters,
                    visited: g.visited.union(visited),
                    failure: None,
                };
                lemma_room_shrinks(fs, g.visited, next.visited);
                assert(!holds_nothing(c) ==> chapters.drop_last() == g.chapters);
                assert(names_differ(rest)) by {
                    assert forall|i: int, j: int|
                        #![trigger rest[i], rest[j]]
                        0 <= i < j < rest.len() implies rest[i].0 != rest[j].0 by {
                        assert(rest[i] == dirs[i + 1] && rest[j] == dirs[j + 1]);
                    }
                }
                assert forall|i: int, j: int|
                    #![trigger chapters[i], rest[j]]
                    0 <= i < chapters.len() && 0 <= j < rest.len() && chapters[i].name.len()
                        > 0 implies utf8(rest[j].0) != Some(chapters[i].name) by {
                    assert(rest[j] == dirs[j + 1]);
                    if i < g.chapters.len() {
                        assert(chapters[i] == g.chapters[i]);
                    } else if utf8(rest[j].0) == Some(title) {
                        decode_utf8_encode_utf8(rest[j].0);
                        decode_utf8_encode_utf8(d.0);
                        assert(dirs[0].0 != dirs[j + 1].0);
                    }
                }
                assert(chapters_differ(chapters)) by {
                    assert forall|i: int, j: int|
                        #![trigger chapters[i], chapters[j]]
                        0 <= i < j < chapters.len() && chapters[i].name.len()
                            > 0 implies chapters[i].name != chapters[j].name by {
                        assert(chapters[i] == g.chapters[i]);
                        if j < g.chapters.len() {
                            assert(chapters[j] == g.chapters[j]);
                        } else {
                            assert(utf8(dirs[0].0) != Some(g.chapters[i].name));
                        }
                    }
                }
                lemma_chapters_unambiguous(fs, bound, rest, rel, next);
            },
        }
    }
}

/// Where no directory lists a name twice, the order of a chapter tree is strict: at every level no
/// two pages have the same path, and no two sub-directories have the same name.
pub proof fn law_tree_is_strictly_ordered(
    fs: Seq<DirRecord>,
    root: Seq<u8>,
    canonical_root: Seq<u8>,
)
    requires
        distinct(fs),
    ensures
        tree_of(fs, root, canonical_root) matches Ok(c) ==> is_tidy(c) && is_unambiguous(c),
{
    law_tree_is_tidy(fs, root, canonical_root);
    lemma_chapter_unambiguous(
        fs,
        canonical_root,
        root,
        dir_title(file_name(root)),
        seq![],
        set![canonical_root],
    );
}

// ---------------------------------------------------------------------------
// Index pages
// ---------------------------------------------------------------------------
/// The index page of a directory is `index.md`, or else `README.md`; without either there is none.
/// The one that is not used is no page of the book.
pub proof fn law_index_wins_over_readme(
    name: Seq<char>,
    rel: Seq<u8>,
    s: Scanned,
    subdirs: Seq<Chapter>,
)
    ensures
        ({
            let c = chapter_of(name, rel, s, subdirs);
            &&& s.index matches Some(p) ==> c.index_rel == Some(joined_path(rel, p.0))
                && c.index_title == p.1
            &&& s.index is None ==> (s.readme matches Some(p) ==> c.index_rel == Some(
                joined_path(rel, p.0),
            ) && c.index_title == p.1)
            &&& s.index is None && s.readme is None ==> c.index_rel is None && c.index_title is None
            &&& c.files.len() == s.files.len()
        }),
{
    law_sort_permutes(s.files);
}

/// The file is listed among the pages of its directory.
pub open spec fn is_listed_name(name: Seq<u8>) -> bool {
    utf8(name) != Some("SUMMARY.md"@) && utf8(name) != Some("index.md"@) && utf8(name) != Some(
        "README.md"@,
    )
}

/// `SUMMARY.md` is no page of the book, and neither index page is listed among the other pages.
pub proof fn law_special_files_are_not_listed(
    fs: Seq<DirRecord>,
    bound: Seq<u8>,
    items: Seq<DirItem>,
    s: Scanned,
)
    requires
        forall|i: int| 0 <= i < s.files.len() ==> is_listed_name((#[trigger] s.files[i]).0),
        s.index matches Some(p) ==> utf8(p.0) == Some("index.md"@),
        s.readme matches Some(p) ==> utf8(p.0) == Some("README.md"@),
    ensures
        ({
            let r = scan(fs, bound, items, s);
            &&& forall|i: int| 0 <= i < r.files.len() ==> is_listed_name((#[trigger] r.files[i]).0)
            &&& r.index matches Some(p) ==> utf8(p.0) == Some("index.md"@)
            &&& r.readme matches Some(p) ==> utf8(p.0) == Some("README.md"@)
        }),
    decreases items.len(),
{
    if s.failure is Some || items.len() == 0 {
    } else {
        let next = scan(fs, bound, seq![items[0]], s);
        reveal_with_fuel(scan, 3);
        assert(seq![items[0]].skip(1).len() == 0);
        assert forall|i: int| 0 <= i < next.files.len() implies is_listed_name(
            (#[trigger] next.files[i]).0,
        ) by {
            if i < s.files.len() {
                assert(next.files[i] == s.files[i]);
            }
        }
        law_special_files_are_not_listed(fs, bound, items.skip(1), next);
    }
}

// ---------------------------------------------------------------------------
// Completeness
// ---------------------------------------------------------------------------
/// Reading on keeps the pages that were read before.
proof fn lemma_files_stay(
    fs: Seq<DirRecord>,
    bound: Seq<u8>,
    items: Seq<DirItem>,
    s: Scanned,
    page: (Seq<u8>, Option<Seq<char>>),
)
    requires
        s.files.contains(page),
    ensures
        scan(fs, bound, items, s).files.contains(page),
    decreases items.len(),
{
    if s.failure is Some || items.len() == 0 {
    } else {
        let next = scan(fs, bound, seq![items[0]], s);
        reveal_with_fuel(scan, 3);
        assert(seq![items[0]].skip(1).len() == 0);
        let k = choose|k: int| 0 <= k < s.files.len() && s.files[k] == page;
        assert(next.files[k] == page);
        lemma_files_stay(fs, bound, items.skip(1), next, page);
    }
}

/// Every page of a directory that was read completely is read, unless it is one of the special
/// files.
proof fn lemma_page_is_read(
    fs: Seq<DirRecord>,
    bound: Seq<u8>,
    items: Seq<DirItem>,
    s: Scanned,
    k: int,
)
    requires
        0 <= k < items.len(),
        scan(fs, bound, items, s).failure is None,
        items[k] matches DirItem::Entry(e) && fate(e, bound) == Fate::Page && is_listed_name(
            e.name@,
        ),
    ensures
        items[k] matches DirItem::Entry(e) && scan(fs, bound, items, s).files.contains(
            (e.name@, entry_title(e)),
        ),
    decreases items.len(),
{
    let next = scan(fs, bound, seq![items[0]], s);
    let rest = items.skip(1);
    reveal_with_fuel(scan, 3);
    assert(seq![items[0]].skip(1).len() == 0);
    assert(scan(fs, bound, items, s) == scan(fs, bound, rest, next));
    if k == 0 {
        let e = items[0]->Entry_0;
        assert(next == with_page(s, e));
        assert(next.files.last() == (e.name@, entry_title(e)));
        lemma_files_stay(fs, bound, rest, next, (e.name@, entry_title(e)));
    } else {
        assert(rest[k - 1] == items[k]);
        lemma_page_is_read(fs, bound, rest, next, k - 1);
    }
}

/// No page is lost: every page of a directory that was read completely, other than the special
/// files, is among the pages of its chapter, under its path and its title.
pub proof fn law_every_page_is_listed(
    fs: Seq<DirRecord>,
    bound: Seq<u8>,
    items: Seq<DirItem>,
    visited: Set<Seq<u8>>,
    name: Seq<char>,
    rel: Seq<u8>,
    subdirs: Seq<Chapter>,
    k: int,
)
    requires
        0 <= k < items.len(),
        scan(fs, bound, items, unread(visited)).failure is None,
        items[k] matches DirItem::Entry(e) && fate(e, bound) == Fate::Page && is_listed_name(
            e.name@,
        ),
    ensures
        items[k] matches DirItem::Entry(e) && chapter_of(
            name,
            rel,
            scan(fs, bound, items, unread(visited)),
            subdirs,
        ).files.contains(
            (Page {
                rel: joined_path(rel, e.name@),
                title: page_title((e.name@, entry_title(e))),
            }),
        ),
{
    broadcast use vstd::seq_lib::group_to_multiset_ensures;

    let e = items[k]->Entry_0;
    let page = (e.name@, entry_title(e));
    let s = scan(fs, bound, items, unread(visited));
    lemma_page_is_read(fs, bound, items, unread(visited), k);
    law_sort_permutes(s.files);
    let sorted = sort_named(s.files);
    assert(s.files.to_multiset().count(page) > 0);
    assert(sorted.contains(page));
    let i = choose|i: int| 0 <= i < sorted.len() && sorted[i] == page;
    let c = chapter_of(name, rel, s, subdirs);
    assert(c.files[i] == (Page { rel: joined_path(rel, e.name@), title: page_title(page) }));
}

/// Chapters that were made before stay.
proof fn lemma_chapters_stay(
    fs: Seq<DirRecord>,
    bound: Seq<u8>,
    dirs: Seq<(Seq<u8>, Seq<u8>)>,
    rel: Seq<u8>,
    g: Grown,
    c: Chapter,
)
    requires
        g.chapters.contains(c),
    ensures
        grow(fs, bound, dirs, rel, g).chapters.contains(c),
    decreases dirs.len(),
{
    if g.failure is Some || dirs.len() == 0 {
    } else {
        let d = dirs[0];
        match chapter_at(
            fs,
            bound,
            d.1,
            dir_title(Some(d.0)),
            joined_path(rel, d.0),
            g.visited,
        ) {
            Err(m) => {},
            Ok((new, visited)) => {
                let next = Grown {
                    chapters: if holds_nothing(new) {
                        g.chapters
                    } else {
                        g.chapters.push(new)
                    },
                    visited: g.visited.union(visited),
                    failure: None,
                };
                let k = choose|k: int| 0 <= k < g.chapters.len() && g.chapters[k] == c;
                assert(next.chapters[k] == c);
                lemma_chapters_stay(fs, bound, dirs.skip(1), rel, next, c);
            },
        }
    }
}

/// The chapter of the directory was made, and is among the chapters unless it holds nothing.
pub open spec fn is_taken(
    fs: Seq<DirRecord>,
    bound: Seq<u8>,
    d: (Seq<u8>, Seq<u8>),
    rel: Seq<u8>,
    chapters: Seq<Chapter>,
) -> bool {
    exists|visited: Set<Seq<u8>>|
        (#[trigger] chapter_at(
            fs,
            bound,
            d.1,
            dir_title(Some(d.0)),
            joined_path(rel, d.0),
            visited,
        )) matches Ok((c, _)) && (holds_nothing(c) || chapters.contains(c))
}

/// No directory is lost: where all sub-directories could be read, each of them has its chapter
/// among the sub-chapters, unless it holds no page.
pub proof fn law_every_directory_is_listed(
    fs: Seq<DirRecord>,
    bound: Seq<u8>,
    dirs: Seq<(Seq<u8>, Seq<u8>)>,
    rel: Seq<u8>,
    g: Grown,
    k: int,
)
    requires
        0 <= k < dirs.len(),
        grow(fs, bound, dirs, rel, g).failure is None,
    ensures
        is_taken(fs, bound, dirs[k], rel, grow(fs, bound, dirs, rel, g).chapters),
    decreases dirs.len(),
{
    let d = dirs[0];
    let rest = dirs.skip(1);
    let made = chapter_at(
        fs,
        bound,
        d.1,
        dir_title(Some(d.0)),
        joined_path(rel, d.0),
        g.visited,
    );
    assert(made is Ok);
    let c = made->Ok_0.0;
    let next = Grown {
        chapters: if holds_nothing(c) {
            g.chapters
        } else {
            g.chapters.push(c)
        },
        visited: g.visited.union(made->Ok_0.1),
        failure: None,
    };
    assert(grow(fs, bound, dirs, rel, g) == grow(fs, bound, rest, rel, next));
    if k == 0 {
        if !holds_nothing(c) {
            assert(next.chapters.last() == c);
            lemma_chapters_stay(fs, bound, rest, rel, next, c);
        }
    } else {
        assert(rest[k - 1] == dirs[k]);
        law_every_directory_is_listed(fs, bound, rest, rel, next, k - 1);
    }
}

// ---------------------------------------------------------------------------
// Titles
// ---------------------------------------------------------------------------
/// The title of a page is its first top-level heading. A page without one, or one that could not
/// be read, goes by its file name without the `.md`, where that is text.
pub proof fn law_page_goes_by_its_heading(e: DirEntry, base: Seq<u8>, t: Seq<char>)
    ensures
        opt_bytes(e.content) matches Some(b) && title_in(b) == Some(t) ==> page_title(
            (e.name@, entry_title(e)),
        ) == t && entry_title(e) == Some(t),
        (opt_bytes(e.content) matches Some(b) ==> title_in(b) is None) ==> entry_title(e) is None,
        base.len() > 0 && valid_utf8(base) ==> page_title(
            (base + seq![0x2eu8, 0x6du8, 0x64u8], None::<Seq<char>>),
        ) == decode_utf8(base),
        base.len() > 0 && !valid_utf8(base) ==> page_title(
            (base + seq![0x2eu8, 0x6du8, 0x64u8], None::<Seq<char>>),
        ) == "untitled"@,
{
    let ext = seq![0x6du8, 0x64u8];
    law_name_is_stem_and_extension(base, ext);
    assert(base + seq![46u8] + ext == base + seq![0x2eu8, 0x6du8, 0x64u8]);
}

/// A directory goes by its name, where that is text.
pub proof fn law_directory_goes_by_its_name(name: Seq<u8>)
    ensures
        valid_utf8(name) ==> dir_title(Some(name)) == decode_utf8(name),
        !valid_utf8(name) ==> dir_title(Some(name)).len() == 0,
        dir_title(None).len() == 0,
{
}

/// Reading items that hold no page of this name changes neither index page.
proof fn lemma_index_stays(fs: Seq<DirRecord>, bound: Seq<u8>, items: Seq<DirItem>, s: Scanned)
    ensures
        (forall|i: int|
            0 <= i < items.len() ==> match #[trigger] items[i] {
                DirItem::Entry(e) => utf8(e.name@) != Some("index.md"@),
                _ => true,
            }) ==> scan(fs, bound, items, s).index == s.index,
        (forall|i: int|
            0 <= i < items.len() ==> match #[trigger] items[i] {
                DirItem::Entry(e) => utf8(e.name@) != Some("README.md"@),
                _ => true,
            }) ==> scan(fs, bound, items, s).readme == s.readme,
    decreases items.len(),
{
    if s.failure is Some || items.len() == 0 {
    } else {
        let rest = items.skip(1);
        let next = scan(fs, bound, seq![items[0]], s);
        reveal_with_fuel(scan, 3);
        assert(seq![items[0]].skip(1).len() == 0);
        lemma_index_stays(fs, bound, rest, next);
        assert(forall|i: int| 0 <= i < rest.len() ==> #[trigger] rest[i] == items[i + 1]);
        assert(forall|i: int| 0 < i < items.len() ==> #[trigger] items[i] == rest[i - 1]);
        assert(match items[0] {
            DirItem::Entry(e) => utf8(e.name@) != Some("index.md"@) ==> next.index == s.index,
            _ => next.index == s.index,
        });
        assert(match items[0] {
            DirItem::Entry(e) => utf8(e.name@) != Some("README.md"@) ==> next.readme == s.readme,
            _ => next.readme == s.readme,
        });
    }
}

/// A page `index.md` of a directory that was read completely is its index page, with the heading
/// of that very page. Without one, a page `README.md` is.
pub proof fn law_index_page_is_found(
    fs: Seq<DirRecord>,
    bound: Seq<u8>,
    items: Seq<DirItem>,
    s: Scanned,
    k: int,
)
    requires
        0 <= k < items.len(),
        scan(fs, bound, items, s).failure is None,
        items[k] matches DirItem::Entry(e) && fate(e, bound) == Fate::Page,
        forall|i: int|
            k < i < items.len() ==> match (#[trigger] items[i], items[k]) {
                (DirItem::Entry(f), DirItem::Entry(e)) => f.name@ != e.name@,
                _ => true,
            },
    ensures
        items[k] matches DirItem::Entry(e) && (utf8(e.name@) == Some("index.md"@) ==> scan(
            fs,
            bound,
            items,
            s,
        ).index == Some((e.name@, entry_title(e)))) && (utf8(e.name@) == Some("README.md"@) ==> scan(
            fs,
            bound,
            items,
            s,
        ).readme == Some((e.name@, entry_title(e)))),
    decreases items.len(),
{
    let next = scan(fs, bound, seq![items[0]], s);
    let rest = items.skip(1);
    let e = items[k]->Entry_0;
    reveal_with_fuel(scan, 3);
    assert(seq![items[0]].skip(1).len() == 0);
    assert(scan(fs, bound, items, s) == scan(fs, bound, rest, next));
    if k == 0 {
        assert(next == with_page(s, e));
        lemma_index_stays(fs, bound, rest, next);
        assert forall|i: int| 0 <= i < rest.len() implies match #[trigger] rest[i] {
            DirItem::Entry(f) => f.name@ != e.name@,
            _ => true,
        } by {
            assert(rest[i] == items[i + 1]);
        }
        if valid_utf8(e.name@) {
            decode_utf8_encode_utf8(e.name@);
            assert forall|i: int| 0 <= i < rest.len() implies match #[trigger] rest[i] {
                DirItem::Entry(f) => utf8(f.name@) != utf8(e.name@),
                _ => true,
            } by {
                if let DirItem::Entry(f) = rest[i] {
                    if valid_utf8(f.name@) {
                        decode_utf8_encode_utf8(f.name@);
                    }
                }
            }
        }
        lemma_special_names_differ();
    } else {
        assert(rest[k - 1] == items[k]);
        assert forall|i: int| k - 1 < i < rest.len() implies match (#[trigger] rest[i], rest[k - 1]) {
            (DirItem::Entry(f), DirItem::Entry(e)) => f.name@ != e.name@,
            _ => true,
        } by {
            assert(rest[i] == items[i + 1]);
        }
        law_index_page_is_found(fs, bound, rest, next, k - 1);
    }
}

/// The names of the special files differ.
proof fn lemma_special_names_differ()
    ensures
        "SUMMARY.md"@ != "index.md"@,
        "SUMMARY.md"@ != "README.md"@,
        "index.md"@ != "README.md"@,
{
    reveal_strlit("SUMMARY.md");
    reveal_strlit("index.md");
    reveal_strlit("README.md");
    assert("SUMMARY.md"@.len() == 10 && "index.md"@.len() == 8 && "README.md"@.len() == 9);
}

/// An entry that vanished has no effect on the chapter of its directory. A failed step of a
/// listing and a directory that cannot be listed stop the work with their message; a directory
/// that does not exist holds nothing.
pub proof fn law_failures_stop_the_tree(
    fs: Seq<DirRecord>,
    bound: Seq<u8>,
    key: Seq<u8>,
    name: Seq<char>,
    rel: Seq<u8>,
    visited: Set<Seq<u8>>,
    m: String,
    rest: Seq<DirItem>,
    s: Scanned,
)
    requires
        s.failure is None,
    ensures
        scan(fs, bound, seq![DirItem::Gone] + rest, s) == scan(fs, bound, rest, s),
        scan(fs, bound, seq![DirItem::Failed(m)] + rest, s).failure == Some(m@),
        listing_at(fs, key) == Some(Listing::Failed(m)) ==> chapter_at(
            fs,
            bound,
            key,
            name,
            rel,
            visited,
        ) == Err::<(Chapter, Set<Seq<u8>>), Seq<char>>(m@),
        listing_at(fs, key) is None || listing_at(fs, key) == Some(Listing::Missing) ==> (
        chapter_at(fs, bound, key, name, rel, visited) matches Ok((c, _)) && holds_nothing(c)
            && c.name == name),
{
    assert((seq![DirItem::Gone] + rest).skip(1) == rest);
    assert((seq![DirItem::Failed(m)] + rest).skip(1) == rest);
    reveal_with_fuel(scan, 2);
}

/// A directory that is met for the first time, and of which there is a record, is among those to
/// search, be it behind a link or not. One that was met before, and an entry that is passed over,
/// have no effect.
pub proof fn law_directory_is_taken_up(
    fs: Seq<DirRecord>,
    bound: Seq<u8>,
    e: DirEntry,
    rest: Seq<DirItem>,
    s: Scanned,
)
    requires
        s.failure is None,
    ensures
        fate(e, bound) matches Fate::Enter(c) && !s.visited.contains(c) && listing_at(fs, c) is Some
            ==> scan(fs, bound, seq![DirItem::Entry(e)] + rest, s) == scan(
            fs,
            bound,
            rest,
            (Scanned {
                visited: s.visited.insert(fate(e, bound)->Enter_0),
                dirs: s.dirs.push((e.name@, fate(e, bound)->Enter_0)),
                ..s
            }),
        ),
        fate(e, bound) == Fate::Skip || (fate(e, bound) matches Fate::Enter(c)
            && s.visited.contains(c)) ==> scan(fs, bound, seq![DirItem::Entry(e)] + rest, s) == scan(
            fs,
            bound,
            rest,
            s,
        ),
{
    assert((seq![DirItem::Entry(e)] + rest).skip(1) == rest);
}

} // verus!
