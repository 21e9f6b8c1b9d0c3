//! The chapters of a book: the pages of a directory tree, in the order in which a reader meets them.

use vstd::prelude::*;
use vstd::slice::slice_to_vec;

use crate::named::{insert_in_order, law_sort_permutes, named_views, sort_named, Named};
use crate::os_path::{
    byte_strings, file_name, file_name_of, holds, join_path, joined_path, opt_bytes, stem, stem_of,
};
use crate::text::same_str;
use crate::title::{read_title, title_in};
use crate::utf8::{opt_text, utf8, utf8_string};
use crate::walk::{
    decide, fate, find_listing, lemma_push_to_set, lemma_room_insert, lemma_room_shrinks,
    listing_at, room, DirEntry, DirItem, DirRecord, Fate, Listing, Step,
};

verus! {

// ---------------------------------------------------------------------------
// Chapters
// ---------------------------------------------------------------------------
/// A page of the book.
pub struct FileEntry {
    /// Its path below the root of the book.
    pub rel: Vec<u8>,
    /// Its first top-level heading, or else its file name without the extension.
    pub title: String,
}

/// A directory of pages.
pub struct ChapterTree {
    /// The name of the directory.
    pub name: String,
    /// The path of its index page below the root of the book.
    pub index_rel: Option<Vec<u8>>,
    /// The title of the index page.
    pub index_title: Option<String>,
    /// The other pages of the directory, in the order of their names.
    pub files: Vec<FileEntry>,
    /// The sub-directories that hold pages, in the order of their names.
    pub subdirs: Vec<ChapterTree>,
}

/// A page, as a mathematical value.
pub struct Page {
    /// Its path below the root of the book.
    pub rel: Seq<u8>,
    /// Its title.
    pub title: Seq<char>,
}

/// A directory of pages, as a mathematical value.
pub struct Chapter {
    /// The name of the directory.
    pub name: Seq<char>,
    /// The path of its index page below the root of the book.
    pub index_rel: Option<Seq<u8>>,
    /// The title of the index page.
    pub index_title: Option<Seq<char>>,
    /// The other pages of the directory.
    pub files: Seq<Page>,
    /// The sub-directories.
    pub subdirs: Seq<Chapter>,
}

/// The pages that a list of entries stands for.
pub open spec fn page_views(fs: Seq<FileEntry>) -> Seq<Page> {
    Seq::new(fs.len(), |i: int| Page { rel: fs[i].rel@, title: fs[i].title@ })
}

/// The chapter that a tree stands for.
pub open spec fn chapter_view(t: ChapterTree) -> Chapter
    decreases t,
{
    Chapter {
        name: t.name@,
        index_rel: opt_bytes(t.index_rel),
        index_title: opt_text(t.index_title),
        files: page_views(t.files@),
        subdirs: chapter_views(t.subdirs@),
    }
}

/// The chapters that a list of trees stands for.
pub open spec fn chapter_views(ts: Seq<ChapterTree>) -> Seq<Chapter>
    decreases ts,
{
    if ts.len() == 0 {
        seq![]
    } else {
        chapter_views(ts.drop_last()).push(chapter_view(ts.last()))
    }
}

impl View for ChapterTree {
    type V = Chapter;

    open spec fn view(&self) -> Chapter {
        chapter_view(*self)
    }
}

/// A list of trees stands for the chapters of its elements.
pub proof fn lemma_chapter_views(ts: Seq<ChapterTree>)
    ensures
        chapter_views(ts).len() == ts.len(),
        forall|i: int| 0 <= i < ts.len() ==> #[trigger] chapter_views(ts)[i] == ts[i]@,
    decreases ts.len(),
{
    if ts.len() > 0 {
        lemma_chapter_views(ts.drop_last());
        assert forall|i: int| 0 <= i < ts.len() implies #[trigger] chapter_views(ts)[i]
            == ts[i]@ by {
            if i < ts.len() - 1 {
                assert(ts.drop_last()[i] == ts[i]);
            }
        }
    }
}

/// The chapter holds no page at any depth.
pub open spec fn holds_nothing(c: Chapter) -> bool {
    c.index_rel is None && c.files.len() == 0 && c.subdirs.len() == 0
}

impl ChapterTree {
    /// Whether the directory holds no page.
    pub fn is_empty(&self) -> (r: bool)
        ensures
            r == holds_nothing(self@),
    {
        proof {
            lemma_chapter_views(self.subdirs@);
        }
        self.index_rel.is_none() && self.files.len() == 0 && self.subdirs.len() == 0
    }
}

// ---------------------------------------------------------------------------
// One directory
// ---------------------------------------------------------------------------
/// What a directory holds, as far as its listing has been read. A page is a pair of its file name
/// and its title, a sub-directory a pair of its name and its canonical path.
pub struct Scanned {
    /// The page `index.md`.
    pub index: Option<(Seq<u8>, Option<Seq<char>>)>,
    /// The page `README.md`.
    pub readme: Option<(Seq<u8>, Option<Seq<char>>)>,
    /// The other pages, in the order of the listing.
    pub files: Seq<(Seq<u8>, Option<Seq<char>>)>,
    /// The sub-directories to search, in the order of the listing.
    pub dirs: Seq<(Seq<u8>, Seq<u8>)>,
    /// The directories that may not be entered again.
    pub visited: Set<Seq<u8>>,
    /// What stopped the reading.
    pub failure: Option<Seq<char>>,
}

/// Nothing has been read.
pub open spec fn unread(visited: Set<Seq<u8>>) -> Scanned {
    Scanned { index: None, readme: None, files: seq![], dirs: seq![], visited, failure: None }
}

/// The title of a page, where its content was read and has one.
pub open spec fn entry_title(e: DirEntry) -> Option<Seq<char>> {
    match opt_bytes(e.content) {
        Some(b) => title_in(b),
        None => None,
    }
}

/// Sorts a page into what was read before it. `SUMMARY.md` is not a page of the book.
pub open spec fn with_page(s: Scanned, e: DirEntry) -> Scanned {
    let page = (e.name@, entry_title(e));
    let name = utf8(e.name@);
    if name == Some("SUMMARY.md"@) {
        s
    } else if name == Some("index.md"@) {
        Scanned { index: Some(page), ..s }
    } else if name == Some("README.md"@) {
        Scanned { readme: Some(page), ..s }
    } else {
        Scanned { files: s.files.push(page), ..s }
    }
}

/// What has been read after `items`, from what was read before. A failed step of the listing ends
/// the reading. A directory without a record holds nothing and is left out.
pub open spec fn scan(
    fs: Seq<DirRecord>,
    bound: Seq<u8>,
    items: Seq<DirItem>,
    s: Scanned,
) -> Scanned
    decreases items.len(),
{
    if s.failure is Some || items.len() == 0 {
        s
    } else {
        let next = match items[0] {
            DirItem::Failed(m) => Scanned { failure: Some(m@), ..s },
            DirItem::Gone => s,
            DirItem::Entry(e) => match fate(e, bound) {
                Fate::Skip => s,
                Fate::Page => with_page(s, e),
                Fate::Enter(c) => if s.visited.contains(c) {
                    s
                } else if listing_at(fs, c) is Some {
                    Scanned { visited: s.visited.insert(c), dirs: s.dirs.push((e.name@, c)), ..s }
                } else {
                    Scanned { visited: s.visited.insert(c), ..s }
                },
            },
        };
        scan(fs, bound, items.skip(1), next)
    }
}

/// Reading forgets no visited directory, and every sub-directory to search takes up room.
pub proof fn lemma_scan_room(fs: Seq<DirRecord>, bound: Seq<u8>, items: Seq<DirItem>, s: Scanned)
    ensures
        ({
            let r = scan(fs, bound, items, s);
            &&& s.visited.subset_of(r.visited)
            &&& s.dirs.len() <= r.dirs.len()
            &&& room(fs, r.visited) + (r.dirs.len() - s.dirs.len()) <= room(fs, s.visited)
        }),
    decreases items.len(),
{
    if s.failure is Some || items.len() == 0 {
    } else {
        let rest = items.skip(1);
        match items[0] {
            DirItem::Failed(m) => {
                lemma_scan_room(fs, bound, rest, Scanned { failure: Some(m@), ..s });
            },
            DirItem::Gone => {
                lemma_scan_room(fs, bound, rest, s);
            },
            DirItem::Entry(e) => match fate(e, bound) {
                Fate::Skip => {
                    lemma_scan_room(fs, bound, rest, s);
                },
                Fate::Page => {
                    lemma_scan_room(fs, bound, rest, with_page(s, e));
                },
                Fate::Enter(c) => {
                    if s.visited.contains(c) {
                        lemma_scan_room(fs, bound, rest, s);
                    } else if listing_at(fs, c) is Some {
                        lemma_room_insert(fs, s.visited, c);
                        lemma_scan_room(
                            fs,
                            bound,
                            rest,
                            Scanned {
                                visited: s.visited.insert(c),
                                dirs: s.dirs.push((e.name@, c)),
                                ..s
                            },
                        );
                    } else {
                        lemma_room_shrinks(fs, s.visited, s.visited.insert(c));
                        lemma_scan_room(
                            fs,
                            bound,
                            rest,
                            Scanned { visited: s.visited.insert(c), ..s },
                        );
                    }
                },
            },
        }
    }
}

/// The name of a directory in a chapter: empty where it is not valid UTF-8.
pub open spec fn dir_title(name: Option<Seq<u8>>) -> Seq<char> {
    match name {
        Some(n) => match utf8(n) {
            Some(t) => t,
            None => seq![],
        },
        None => seq![],
    }
}

/// The title of a page that is not an index: its heading, or its file name without the extension.
pub open spec fn page_title(page: (Seq<u8>, Option<Seq<char>>)) -> Seq<char> {
    match page.1 {
        Some(t) => t,
        None => match utf8(stem(page.0)) {
            Some(t) => t,
            None => "untitled"@,
        },
    }
}

/// The chapter of a directory that was read completely.
pub open spec fn chapter_of(
    name: Seq<char>,
    rel: Seq<u8>,
    s: Scanned,
    subdirs: Seq<Chapter>,
) -> Chapter {
    let index = if s.index is Some {
        s.index
    } else {
        s.readme
    };
    let files = sort_named(s.files);
    Chapter {
        name,
        index_rel: match index {
            Some(p) => Some(joined_path(rel, p.0)),
            None => None,
        },
        index_title: match index {
            Some(p) => p.1,
            None => None,
        },
        files: Seq::new(
            files.len(),
            |i: int| Page { rel: joined_path(rel, files[i].0), title: page_title(files[i]) },
        ),
        subdirs,
    }
}

/// The chapter of a directory that holds nothing.
pub open spec fn bare_chapter(name: Seq<char>) -> Chapter {
    Chapter { name, index_rel: None, index_title: None, files: seq![], subdirs: seq![] }
}

// ---------------------------------------------------------------------------
// The tree
// ---------------------------------------------------------------------------
/// The chapters of sibling directories, as far as they have been made.
pub struct Grown {
    /// The chapters that hold a page.
    pub chapters: Seq<Chapter>,
    /// The directories that may not be entered again.
    pub visited: Set<Seq<u8>>,
    /// What stopped the work.
    pub failure: Option<Seq<char>>,
}

/// The chapter of the directory `key`, with the directories visited after it was made; or the
/// message of the listing that failed.
///
/// All sub-directories count as visited before the first of them is searched; they are searched
/// in the order of their names.
pub open spec fn chapter_at(
    fs: Seq<DirRecord>,
    bound: Seq<u8>,
    key: Seq<u8>,
    name: Seq<char>,
    rel: Seq<u8>,
    visited: Set<Seq<u8>>,
) -> Result<(Chapter, Set<Seq<u8>>), Seq<char>>
    decreases room(fs, visited), 0nat,
{
    match listing_at(fs, key) {
        Some(Listing::Failed(m)) => Err(m@),
        Some(Listing::Items(v)) => {
            let s = scan(fs, bound, v@, unread(visited));
            match s.failure {
                Some(m) => Err(m),
                None => {
                    let start = Grown { chapters: seq![], visited: s.visited, failure: None };
                    let g = if s.dirs.len() == 0 {
                        start
                    } else {
                        proof {
                            lemma_scan_room(fs, bound, v@, unread(visited));
                        }
                        grow(fs, bound, sort_named(s.dirs), rel, start)
                    };
                    match g.failure {
                        Some(m) => Err(m),
                        None => Ok((chapter_of(name, rel, s, g.chapters), g.visited)),
                    }
                },
            }
        },
        _ => Ok((bare_chapter(name), visited)),
    }
}

/// The chapters of the sub-directories `dirs` of the directory `rel`, after those in `g`. A
/// chapter that holds no page is dropped.
pub open spec fn grow(
    fs: Seq<DirRecord>,
    bound: Seq<u8>,
    dirs: Seq<(Seq<u8>, Seq<u8>)>,
    rel: Seq<u8>,
    g: Grown,
) -> Grown
    decreases room(fs, g.visited), dirs.len() + 1,
{
    if g.failure is Some || dirs.len() == 0 {
        g
    } else {
        let d = dirs[0];
        match chapter_at(
            fs,
            bound,
            d.1,
            dir_title(Some(d.0)),
            joined_path(rel, d.0),
            g.visited,
        ) {
            Err(m) => Grown { failure: Some(m), ..g },
            Ok((c, visited)) => {
                let next = Grown {
                    chapters: if holds_nothing(c) {
                        g.chapters
                    } else {
                        g.chapters.push(c)
                    },
                    visited: g.visited.union(visited),
                    failure: None,
                };
                proof {
                    lemma_room_shrinks(fs, g.visited, next.visited);
                }
                grow(fs, bound, dirs.skip(1), rel, next)
            },
        }
    }
}

/// The chapter tree of the directory `root`. Links may not lead out of `canonical_root`, which is
/// not entered again.
pub open spec fn tree_of(
    fs: Seq<DirRecord>,
    root: Seq<u8>,
    canonical_root: Seq<u8>,
) -> Result<Chapter, Seq<char>> {
    match chapter_at(
        fs,
        canonical_root,
        root,
        dir_title(file_name(root)),
        seq![],
        set![canonical_root],
    ) {
        Ok((c, _)) => Ok(c),
        Err(m) => Err(m),
    }
}

/// Making a chapter forgets no visited directory.
proof fn lemma_chapter_visits(
    fs: Seq<DirRecord>,
    bound: Seq<u8>,
    key: Seq<u8>,
    name: Seq<char>,
    rel: Seq<u8>,
    visited: Set<Seq<u8>>,
)
    ensures
        chapter_at(fs, bound, key, name, rel, visited) matches Ok((_, v)) ==> visited.subset_of(v),
    decreases room(fs, visited), 0nat,
{
    match listing_at(fs, key) {
        Some(Listing::Items(v)) => {
            let s = scan(fs, bound, v@, unread(visited));
            lemma_scan_room(fs, bound, v@, unread(visited));
            if s.dirs.len() > 0 {
                lemma_grow_visits(
                    fs,
                    bound,
                    sort_named(s.dirs),
                    rel,
                    Grown { chapters: seq![], visited: s.visited, failure: None },
                );
            }
        },
        _ => {},
    }
}

/// Making chapters forgets no visited directory.
proof fn lemma_grow_visits(
    fs: Seq<DirRecord>,
    bound: Seq<u8>,
    dirs: Seq<(Seq<u8>, Seq<u8>)>,
    rel: Seq<u8>,
    g: Grown,
)
    ensures
        g.visited.subset_of(grow(fs, bound, dirs, rel, g).visited),
    decreases room(fs, g.visited), dirs.len() + 1,
{
    if g.failure is Some || dirs.len() == 0 {
    } else {
        let d = dirs[0];
        match chapter_at(
            fs,
            bound,
            d.1,
            dir_title(Some(d.0)),
            joined_path(rel, d.0),
            g.visited,
        ) {
            Err(m) => {},
            Ok((c, visited)) => {
                let next = Grown {
                    chapters: if holds_nothing(c) {
                        g.chapters
                    } else {
                        g.chapters.push(c)
                    },
                    visited: g.visited.union(visited),
                    failure: None,
                };
                lemma_room_shrinks(fs, g.visited, next.visited);
                lemma_grow_visits(fs, bound, dirs.skip(1), rel, next);
            },
        }
    }
}

// ---------------------------------------------------------------------------
// Reading a directory
// ---------------------------------------------------------------------------
/// The title of a page.
pub struct Title {
    /// The title, where the page has one.
    pub text: Option<String>,
}

impl View for Title {
    type V = Option<Seq<char>>;

    open spec fn view(&self) -> Option<Seq<char>> {
        opt_text(self.text)
    }
}

/// The pair of file name and title of an optional page.
pub open spec fn opt_page(p: Option<Named<Title>>) -> Option<(Seq<u8>, Option<Seq<char>>)> {
    match p {
        Some(n) => Some(n@),
        None => None,
    }
}

/// What a directory holds; its pages and its sub-directories are in the order of their names.
struct Contents {
    index: Option<Named<Title>>,
    readme: Option<Named<Title>>,
    files: Vec<Named<Title>>,
    dirs: Vec<Named<Vec<u8>>>,
}

/// The contents are those that have been read.
spec fn reflects(c: Contents, visited: Seq<Vec<u8>>, s: Scanned) -> bool {
    &&& opt_page(c.index) == s.index
    &&& opt_page(c.readme) == s.readme
    &&& named_views(c.files@) == sort_named(s.files)
    &&& named_views(c.dirs@) == sort_named(s.dirs)
    &&& byte_strings(visited).to_set() == s.visited
}

/// The title of a page, where its content was read and has one.
fn title_of(e: &DirEntry) -> (r: Option<String>)
    ensures
        opt_text(r) == entry_title(*e),
{
    match &e.content {
        Some(b) => read_title(b.as_slice()),
        None => None,
    }
}

/// Whether the bytes are the given name.
fn is_name(text: &Option<String>, name: &str) -> (r: bool)
    ensures
        r == (opt_text(*text) == Some(name@)),
{
    match text {
        Some(t) => same_str(t.as_str(), name),
        None => false,
    }
}

/// Sorts a page into the contents of its directory.
fn add_page(c: &mut Contents, e: &DirEntry, Ghost(s): Ghost<Scanned>, Ghost(vs): Ghost<Seq<Vec<u8>>>)
    requires
        reflects(*old(c), vs, s),
    ensures
        reflects(*final(c), vs, with_page(s, *e)),
{
    let name = utf8_string(e.name.as_slice());
    if is_name(&name, "SUMMARY.md") {
        return;
    }
    let page = Named { name: slice_to_vec(e.name.as_slice()), value: Title { text: title_of(e) } };
    let ghost item = page@;
    assert(item == (e.name@, entry_title(*e)));
    if is_name(&name, "index.md") {
        c.index = Some(page);
    } else if is_name(&name, "README.md") {
        c.readme = Some(page);
    } else {
        insert_in_order(&mut c.files, page);
        assert(s.files.push(item).drop_last() == s.files);
    }
}

/// Reads the listing of a directory.
fn read_items(
    fs: &Vec<DirRecord>,
    bound: &[u8],
    items: &Vec<DirItem>,
    visited: &mut Vec<Vec<u8>>,
) -> (r: Result<Contents, String>)
    ensures
        ({
            let s = scan(
                fs@,
                bound@,
                items@,
                unread(byte_strings(old(visited)@).to_set()),
            );
            match r {
                Ok(c) => s.failure is None && reflects(c, final(visited)@, s),
                Err(m) => s.failure == Some(m@),
            }
        }),
{
    let ghost goal = scan(fs@, bound@, items@, unread(byte_strings(visited@).to_set()));
    let mut c = Contents { index: None, readme: None, files: Vec::new(), dirs: Vec::new() };
    let ghost mut s = unread(byte_strings(visited@).to_set());
    assert(named_views(c.files@) == sort_named(s.files));
    assert(named_views(c.dirs@) == sort_named(s.dirs));
    let mut i: usize = 0;
    assert(items@.skip(0) == items@);
    while i < items.len()
        invariant
            0 <= i <= items@.len(),
            reflects(c, visited@, s),
            s.failure is None,
            scan(fs@, bound@, items@.skip(i as int), s) == goal,
            goal == scan(fs@, bound@, items@, unread(byte_strings(old(visited)@).to_set())),
        decreases items@.len() - i,
    {
        let ghost rest = items@.skip(i as int);
        assert(rest.skip(1) == items@.skip(i + 1));
        assert(rest[0] == items@[i as int]);
        match &items[i] {
            DirItem::Failed(m) => {
                assert(goal.failure == Some(m@)) by {
                    let stop = Scanned { failure: Some(m@), ..s };
                    assert(scan(fs@, bound@, rest.skip(1), stop) == stop);
                }
                return Err(m.clone());
            },
            DirItem::Gone => {},
            DirItem::Entry(e) => match decide(e, bound) {
                Step::Skip => {},
                Step::Page => {
                    add_page(&mut c, e, Ghost(s), Ghost(visited@));
                    proof {
                        s = with_page(s, *e);
                    }
                },
                Step::Enter(key) => {
                    if !holds(&*visited, key.as_slice()) {
                        let ghost vs = byte_strings(visited@);
                        visited.push(slice_to_vec(key.as_slice()));
                        proof {
                            assert(byte_strings(visited@) == vs.push(key@));
                            lemma_push_to_set(vs, key@);
                        }
                        let known = find_listing(fs, key.as_slice()).is_some();
                        if known {
                            let sub = Named { name: slice_to_vec(e.name.as_slice()), value: key };
                            let ghost item = sub@;
                            insert_in_order(&mut c.dirs, sub);
                            proof {
                                assert(s.dirs.push(item).drop_last() == s.dirs);
                                s =
                                Scanned {
                                    visited: s.visited.insert(key@),
                                    dirs: s.dirs.push(item),
                                    ..s
                                };
                            }
                        } else {
                            proof {
                                s = Scanned { visited: s.visited.insert(key@), ..s };
                            }
                        }
                    }
                },
            },
        }
        i += 1;
    }
    assert(items@.skip(i as int).len() == 0);
    Ok(c)
}

// ---------------------------------------------------------------------------
// Building the tree
// ---------------------------------------------------------------------------
/// The name of a directory in a chapter.
fn dir_title_of(name: &[u8]) -> (r: String)
    ensures
        r@ == dir_title(Some(name@)),
{
    match utf8_string(name) {
        Some(t) => t,
        None => String::new(),
    }
}

/// The title of a page that is not an index.
fn page_title_of(page: &Named<Title>) -> (r: String)
    ensures
        r@ == page_title(page@),
{
    match &page.value.text {
        Some(t) => t.clone(),
        None => match utf8_string(stem_of(page.name.as_slice()).as_slice()) {
            Some(t) => t,
            None => "untitled".to_owned(),
        },
    }
}

/// Puts the contents of a directory together with the chapters of its sub-directories.
fn assemble(
    name: String,
    rel: &[u8],
    c: Contents,
    subdirs: Vec<ChapterTree>,
    Ghost(vs): Ghost<Seq<Vec<u8>>>,
    Ghost(s): Ghost<Scanned>,
) -> (r: ChapterTree)
    requires
        reflects(c, vs, s),
    ensures
        r@ == chapter_of(name@, rel@, s, chapter_views(subdirs@)),
{
    let ghost sorted = sort_named(s.files);
    let ghost want = chapter_of(name@, rel@, s, chapter_views(subdirs@));
    let mut files: Vec<FileEntry> = Vec::new();
    for i in 0..c.files.len()
        invariant
            sorted == named_views(c.files@),
            files@.len() == i,
            forall|j: int|
                0 <= j < i ==> #[trigger] page_views(files@)[j] == (Page {
                    rel: joined_path(rel@, sorted[j].0),
                    title: page_title(sorted[j]),
                }),
    {
        let page = &c.files[i];
        assert(sorted[i as int] == page@);
        let ghost before = page_views(files@);
        files.push(
            FileEntry { rel: join_path(rel, page.name.as_slice()), title: page_title_of(page) },
        );
        assert(page_views(files@).drop_last() == before);
        assert forall|j: int| 0 <= j < i + 1 implies #[trigger] page_views(files@)[j] == (Page {
            rel: joined_path(rel@, sorted[j].0),
            title: page_title(sorted[j]),
        }) by {
            if j < i {
                assert(before[j] == page_views(files@)[j]);
            }
        }
    }
    assert(page_views(files@) == want.files);
    let index = if c.index.is_some() {
        c.index
    } else {
        c.readme
    };
    match index {
        Some(p) => {
            let rel_path = join_path(rel, p.name.as_slice());
            ChapterTree {
                name,
                index_rel: Some(rel_path),
                index_title: p.value.text,
                files,
                subdirs,
            }
        },
        None => ChapterTree { name, index_rel: None, index_title: None, files, subdirs },
    }
}

/// Makes the chapter of one directory.
fn build_at(
    fs: &Vec<DirRecord>,
    bound: &[u8],
    key: &[u8],
    name: String,
    rel: &[u8],
    visited: &mut Vec<Vec<u8>>,
) -> (r: Result<ChapterTree, String>)
    ensures
        match chapter_at(
            fs@,
            bound@,
            key@,
            name@,
            rel@,
            byte_strings(old(visited)@).to_set(),
        ) {
            Ok((c, v)) => r matches Ok(t) && t@ == c && byte_strings(final(visited)@).to_set()
                == v,
            Err(m) => r matches Err(e) && e@ == m,
        },
    decreases room(fs@, byte_strings(old(visited)@).to_set()), 0nat,
{
    let ghost before = byte_strings(visited@).to_set();
    match find_listing(fs, key) {
        Some(Listing::Failed(m)) => Err(m.clone()),
        Some(Listing::Items(items)) => {
            let ghost s = scan(fs@, bound@, items@, unread(before));
            match read_items(fs, bound, items, visited) {
                Err(m) => Err(m),
                Ok(c) => {
                    proof {
                        lemma_scan_room(fs@, bound@, items@, unread(before));
                        law_sort_permutes(s.dirs);
                    }
                    let ghost vs = visited@;
                    let mut subdirs: Vec<ChapterTree> = Vec::new();
                    assert(chapter_views(subdirs@) == Seq::<Chapter>::empty());
                    if c.dirs.len() > 0 {
                        match build_all(fs, bound, &c.dirs, rel, visited) {
                            Err(m) => {
                                return Err(m);
                            },
                            Ok(ts) => {
                                subdirs = ts;
                            },
                        }
                    }
                    Ok(assemble(name, rel, c, subdirs, Ghost(vs), Ghost(s)))
                },
            }
        },
        _ => {
            let t = ChapterTree {
                name,
                index_rel: None,
                index_title: None,
                files: Vec::new(),
                subdirs: Vec::new(),
            };
            assert(page_views(t.files@) == Seq::<Page>::empty());
            Ok(t)
        },
    }
}

/// Makes the chapters of the sub-directories of one directory.
fn build_all(
    fs: &Vec<DirRecord>,
    bound: &[u8],
    dirs: &Vec<Named<Vec<u8>>>,
    rel: &[u8],
    visited: &mut Vec<Vec<u8>>,
) -> (r: Result<Vec<ChapterTree>, String>)
    ensures
        ({
            let g = grow(
                fs@,
                bound@,
                named_views(dirs@),
                rel@,
                Grown {
                    chapters: seq![],
                    visited: byte_strings(old(visited)@).to_set(),
                    failure: None,
                },
            );
            match g.failure {
                None => r matches Ok(ts) && chapter_views(ts@) == g.chapters && byte_strings(
                    final(visited)@,
                ).to_set() == g.visited,
                Some(m) => r matches Err(e) && e@ == m,
            }
        }),
    decreases room(fs@, byte_strings(old(visited)@).to_set()), 1nat,
{
    let ghost all = named_views(dirs@);
    let ghost first = byte_strings(visited@).to_set();
    let mut ts: Vec<ChapterTree> = Vec::new();
    let ghost mut g = Grown { chapters: seq![], visited: first, failure: None };
    let ghost goal = grow(fs@, bound@, all, rel@, g);
    let mut i: usize = 0;
    assert(all.skip(0) == all);
    assert(chapter_views(ts@) == Seq::<Chapter>::empty());
    while i < dirs.len()
        invariant
            0 <= i <= dirs@.len(),
            all == named_views(dirs@),
            first == byte_strings(old(visited)@).to_set(),
            first.subset_of(g.visited),
            g.visited == byte_strings(visited@).to_set(),
            g.chapters == chapter_views(ts@),
            g.failure is None,
            grow(fs@, bound@, all.skip(i as int), rel@, g) == goal,
            goal == grow(
                fs@,
                bound@,
                all,
                rel@,
                Grown { chapters: seq![], visited: first, failure: None },
            ),
        decreases dirs@.len() - i,
    {
        let ghost rest = all.skip(i as int);
        assert(rest.skip(1) == all.skip(i + 1));
        assert(rest[0] == dirs@[i as int]@);
        let d = &dirs[i];
        let path = join_path(rel, d.name.as_slice());
        let title = dir_title_of(d.name.as_slice());
        proof {
            lemma_room_shrinks(fs@, first, g.visited);
            lemma_chapter_visits(fs@, bound@, d.value@, title@, path@, g.visited);
        }
        match build_at(fs, bound, d.value.as_slice(), title, path.as_slice(), visited) {
            Err(m) => {
                return Err(m);
            },
            Ok(t) => {
                let ghost now = byte_strings(visited@).to_set();
                let ghost c = t@;
                assert(g.visited.union(now) =~= now);
                let empty = t.is_empty();
                if !empty {
                    let ghost made = ts@;
                    ts.push(t);
                    assert(ts@.drop_last() == made);
                    assert(chapter_views(ts@) == g.chapters.push(c));
                }
                proof {
                    g =
                    Grown {
                        chapters: if holds_nothing(c) {
                            g.chapters
                        } else {
                            g.chapters.push(c)
                        },
                        visited: now,
                        failure: None,
                    };
                }
            },
        }
        i += 1;
    }
    assert(all.skip(i as int).len() == 0);
    Ok(ts)
}

/// Builds the chapter tree of the directory `root` from a snapshot.
///
/// Links may not lead out of `canonical_root`. Fails with the system's message if a directory, or
/// a step of a listing, could not be read.
pub fn build_chapter_tree(fs: &Vec<DirRecord>, root: &[u8], canonical_root: &[u8]) -> (r: Result<
    ChapterTree,
    String,
>)
    ensures
        match tree_of(fs@, root@, canonical_root@) {
            Ok(c) => r matches Ok(t) && t@ == c,
            Err(m) => r matches Err(e) && e@ == m,
        },
{
    let name = match file_name_of(root) {
        Some(n) => dir_title_of(n.as_slice()),
        None => String::new(),
    };
    let mut visited: Vec<Vec<u8>> = Vec::new();
    visited.push(slice_to_vec(canonical_root));
    proof {
        assert(name@ == dir_title(file_name(root@)));
        assert(byte_strings(visited@) == Seq::<Seq<u8>>::empty().push(canonical_root@));
        lemma_push_to_set(Seq::empty(), canonical_root@);
        assert(Seq::<Seq<u8>>::empty().to_set() =~= Set::empty());
        assert(byte_strings(visited@).to_set() =~= set![canonical_root@]);
    }
    let rel: Vec<u8> = Vec::new();
    assert(rel@ == Seq::<u8>::empty());
    build_at(fs, canonical_root, root, name, rel.as_slice(), &mut visited)
}

} // verus!
