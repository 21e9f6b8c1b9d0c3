//! The walk over a source directory that finds its markdown pages.
//!
//! The walk works on a snapshot of the directories: a list of records, each with the path of a
//! directory and what a listing of it gave. An entry that is a directory is entered through its
//! canonical path, so a directory that several links lead to has one record.

use vstd::prelude::*;
use vstd::set_lib::lemma_len_subset;
use vstd::slice::slice_to_vec;
use vstd::utf8::{decode_utf8, valid_utf8};

use crate::os_path::{
    byte_strings, has_md_ext, has_md_extension, holds, is_inside, is_within, join_path, joined_path,
    law_pages_end_in_md, opt_bytes, same_bytes,
};
use crate::text::{chars_of, same_str};
use crate::utf8::{from_utf8, opt_text, utf8};

verus! {

/// What is known of one entry of a directory.
pub struct DirEntry {
    /// The name of the entry within its directory.
    pub name: Vec<u8>,
    /// Whether the entry itself is a symbolic link.
    pub symlink: bool,
    /// The canonical path that the entry resolves to, where it resolves.
    pub canonical: Option<Vec<u8>>,
    /// Whether the entry is a directory, after following links.
    pub dir: bool,
    /// The bytes of the file, where they were read.
    pub content: Option<Vec<u8>>,
}

/// One step of a directory listing.
pub enum DirItem {
    /// The step failed, with the system's message.
    Failed(String),
    /// The entry was listed, but its metadata could not be read.
    Gone,
    /// An entry.
    Entry(DirEntry),
}

/// The outcome of listing a directory.
pub enum Listing {
    /// The directory does not exist.
    Missing,
    /// The listing failed, with the system's message.
    Failed(String),
    /// The steps of the listing, in the order of the system.
    Items(Vec<DirItem>),
}

/// A directory of a snapshot.
pub struct DirRecord {
    /// The path of the directory.
    pub path: Vec<u8>,
    /// What listing it gave.
    pub listing: Listing,
}

// ---------------------------------------------------------------------------
// Lookup
// ---------------------------------------------------------------------------
/// The listing that the snapshot `fs` holds for the directory `key`: that of the first record
/// with this path.
pub open spec fn listing_at(fs: Seq<DirRecord>, key: Seq<u8>) -> Option<Listing>
    decreases fs.len(),
{
    if fs.len() == 0 {
        None
    } else if fs[0].path@ == key {
        Some(fs[0].listing)
    } else {
        listing_at(fs.skip(1), key)
    }
}

/// Looks up the listing of a directory.
pub fn find_listing<'a>(fs: &'a Vec<DirRecord>, key: &[u8]) -> (r: Option<&'a Listing>)
    ensures
        match r {
            Some(l) => listing_at(fs@, key@) == Some(*l),
            None => listing_at(fs@, key@) is None,
        },
{
    let mut i: usize = 0;
    assert(fs@.skip(0) == fs@);
    while i < fs.len()
        invariant
            0 <= i <= fs@.len(),
            listing_at(fs@.skip(i as int), key@) == listing_at(fs@, key@),
        decreases fs@.len() - i,
    {
        assert(fs@.skip(i as int).skip(1) == fs@.skip(i + 1));
        if same_bytes(fs[i].path.as_slice(), key) {
            return Some(&fs[i].listing);
        }
        i += 1;
    }
    None
}

/// The directories that have a record.
pub open spec fn recorded(fs: Seq<DirRecord>) -> Set<Seq<u8>> {
    Seq::new(fs.len(), |i: int| fs[i].path@).to_set()
}

/// How many recorded directories have not been visited.
pub open spec fn room(fs: Seq<DirRecord>, visited: Set<Seq<u8>>) -> nat {
    recorded(fs).difference(visited).len()
}

/// A directory has a listing exactly if it is recorded.
pub proof fn lemma_listing_recorded(fs: Seq<DirRecord>, key: Seq<u8>)
    ensures
        listing_at(fs, key) is Some <==> recorded(fs).contains(key),
    decreases fs.len(),
{
    let paths = Seq::new(fs.len(), |i: int| fs[i].path@);
    if fs.len() > 0 {
        let rest = Seq::new(fs.skip(1).len(), |i: int| fs.skip(1)[i].path@);
        lemma_listing_recorded(fs.skip(1), key);
        if fs[0].path@ == key {
            assert(paths[0] == key);
        } else {
            if rest.contains(key) {
                let i = choose|i: int| 0 <= i < rest.len() && rest[i] == key;
                assert(paths[i + 1] == key);
            }
            if paths.contains(key) {
                let i = choose|i: int| 0 <= i < paths.len() && paths[i] == key;
                assert(rest[i - 1] == key);
            }
        }
    }
}

/// Visiting more directories leaves no more room.
pub proof fn lemma_room_shrinks(fs: Seq<DirRecord>, a: Set<Seq<u8>>, b: Set<Seq<u8>>)
    requires
        a.subset_of(b),
    ensures
        room(fs, b) <= room(fs, a),
{
    vstd::seq_lib::seq_to_set_is_finite(Seq::new(fs.len(), |i: int| fs[i].path@));
    lemma_len_subset(recorded(fs).difference(b), recorded(fs).difference(a));
}

/// Visiting one more directory that has a record leaves less room.
pub proof fn lemma_room_insert(fs: Seq<DirRecord>, visited: Set<Seq<u8>>, key: Seq<u8>)
    requires
        listing_at(fs, key) is Some,
        !visited.contains(key),
    ensures
        room(fs, visited.insert(key)) < room(fs, visited),
{
    lemma_listing_recorded(fs, key);
    vstd::seq_lib::seq_to_set_is_finite(Seq::new(fs.len(), |i: int| fs[i].path@));
    let before = recorded(fs).difference(visited);
    assert(before.contains(key));
    assert(recorded(fs).difference(visited.insert(key)) =~= before.remove(key));
}

// ---------------------------------------------------------------------------
// The fate of an entry
// ---------------------------------------------------------------------------
/// Directory names that are never searched: hidden ones, and those that hold dependencies or
/// build products.
pub open spec fn is_noise_dir(name: Seq<char>) -> bool {
    ||| name.len() > 0 && name[0] == '.'
    ||| name == "node_modules"@
    ||| name == "target"@
    ||| name == "dist"@
    ||| name == "build"@
    ||| name == "out"@
    ||| name == "venv"@
    ||| name == "__pycache__"@
    ||| name == "vendor"@
    ||| name == "Pods"@
    ||| name == "DerivedData"@
    ||| name == "bower_components"@
    ||| name == "coverage"@
}

/// Whether a directory of this name is left out of the book.
pub fn is_excluded_dir(name: &str) -> (r: bool)
    ensures
        r == is_noise_dir(name@),
{
    let cs = chars_of(name);
    (cs.len() > 0 && cs[0] == '.') || same_str(name, "node_modules") || same_str(name, "target")
        || same_str(name, "dist") || same_str(name, "build") || same_str(name, "out") || same_str(
        name,
        "venv",
    ) || same_str(name, "__pycache__") || same_str(name, "vendor") || same_str(name, "Pods")
        || same_str(name, "DerivedData") || same_str(name, "bower_components") || same_str(
        name,
        "coverage",
    )
}

/// What a walk does with an entry.
pub enum Fate {
    /// Nothing.
    Skip,
    /// It is a markdown page.
    Page,
    /// It is a directory with this canonical path, to be entered unless it was before.
    Enter(Seq<u8>),
}

/// The entry is a link that leads out of `bound`, or nowhere.
pub open spec fn escapes(e: DirEntry, bound: Seq<u8>) -> bool {
    e.symlink && !(opt_bytes(e.canonical) matches Some(c) && is_within(c, bound))
}

/// The fate of an entry in a walk that links may not lead out of `bound`.
pub open spec fn fate(e: DirEntry, bound: Seq<u8>) -> Fate {
    if escapes(e, bound) {
        Fate::Skip
    } else if e.dir {
        if utf8(e.name@) matches Some(n) && is_noise_dir(n) {
            Fate::Skip
        } else {
            match opt_bytes(e.canonical) {
                Some(c) => Fate::Enter(c),
                None => Fate::Skip,
            }
        }
    } else if has_md_extension(e.name@) {
        Fate::Page
    } else {
        Fate::Skip
    }
}

/// What a walk does with an entry; see `Fate`.
pub enum Step {
    /// Nothing.
    Skip,
    /// It is a markdown page.
    Page,
    /// It is a directory with this canonical path.
    Enter(Vec<u8>),
}

impl View for Step {
    type V = Fate;

    open spec fn view(&self) -> Fate {
        match *self {
            Step::Skip => Fate::Skip,
            Step::Page => Fate::Page,
            Step::Enter(c) => Fate::Enter(c@),
        }
    }
}

/// Decides what a walk does with an entry.
pub fn decide(e: &DirEntry, bound: &[u8]) -> (r: Step)
    ensures
        r@ == fate(*e, bound@),
{
    if e.symlink {
        match &e.canonical {
            Some(c) => {
                if !is_inside(c.as_slice(), bound) {
                    return Step::Skip;
                }
            },
            None => {
                return Step::Skip;
            },
        }
    }
    if e.dir {
        if let Some(n) = from_utf8(e.name.as_slice()) {
            if is_excluded_dir(n) {
                return Step::Skip;
            }
        }
        match &e.canonical {
            Some(c) => Step::Enter(slice_to_vec(c.as_slice())),
            None => Step::Skip,
        }
    } else if has_md_ext(e.name.as_slice()) {
        Step::Page
    } else {
        Step::Skip
    }
}

// ---------------------------------------------------------------------------
// The walk
// ---------------------------------------------------------------------------
/// How far a walk has come.
pub struct Walked {
    /// The pages found, by their paths below the root of the walk.
    pub pages: Seq<Seq<u8>>,
    /// The canonical paths of the directories that may not be entered again.
    pub visited: Set<Seq<u8>>,
    /// What stopped the walk.
    pub failure: Option<Seq<char>>,
}

/// Where a walk gets to from `st` through `items`, which were listed in the directory `rel`.
///
/// Entries are taken in order; a directory is searched when it is met, unless it was before. A
/// directory that cannot be listed stops the walk. So does a failed step of a listing if
/// `strict`; otherwise it is passed over.
pub open spec fn walk_items(
    fs: Seq<DirRecord>,
    bound: Seq<u8>,
    items: Seq<DirItem>,
    rel: Seq<u8>,
    strict: bool,
    st: Walked,
) -> Walked
    decreases room(fs, st.visited), items.len(),
{
    if st.failure is Some || items.len() == 0 {
        st
    } else {
        let rest = items.skip(1);
        match items[0] {
            DirItem::Failed(m) => if strict {
                Walked { failure: Some(m@), ..st }
            } else {
                walk_items(fs, bound, rest, rel, strict, st)
            },
            DirItem::Gone => walk_items(fs, bound, rest, rel, strict, st),
            DirItem::Entry(e) => match fate(e, bound) {
                Fate::Skip => walk_items(fs, bound, rest, rel, strict, st),
                Fate::Page => walk_items(
                    fs,
                    bound,
                    rest,
                    rel,
                    strict,
                    Walked { pages: st.pages.push(joined_path(rel, e.name@)), ..st },
                ),
                Fate::Enter(c) => if st.visited.contains(c) {
                    walk_items(fs, bound, rest, rel, strict, st)
                } else {
                    let entered = Walked { visited: st.visited.insert(c), ..st };
                    let inner = match listing_at(fs, c) {
                        Some(Listing::Items(v)) => {
                            proof {
                                lemma_room_insert(fs, st.visited, c);
                            }
                            walk_items(
                                fs,
                                bound,
                                v@,
                                joined_path(rel, e.name@),
                                strict,
                                entered,
                            )
                        },
                        Some(Listing::Failed(m)) => Walked { failure: Some(m@), ..entered },
                        _ => entered,
                    };
                    let left = Walked { visited: entered.visited.union(inner.visited), ..inner };
                    proof {
                        lemma_room_shrinks(fs, st.visited, left.visited);
                    }
                    walk_items(fs, bound, rest, rel, strict, left)
                },
            },
        }
    }
}

/// The walk of the directory `root`, which links may not lead out of.
pub open spec fn walk_from(fs: Seq<DirRecord>, root: Seq<u8>, strict: bool) -> Walked {
    let start = Walked { pages: seq![], visited: set![root], failure: None };
    match listing_at(fs, root) {
        Some(Listing::Items(v)) => walk_items(fs, root, v@, seq![], strict, start),
        Some(Listing::Failed(m)) => Walked { failure: Some(m@), ..start },
        _ => start,
    }
}

/// A walk forgets no directory that it has visited.
pub proof fn lemma_walk_visits(
    fs: Seq<DirRecord>,
    bound: Seq<u8>,
    items: Seq<DirItem>,
    rel: Seq<u8>,
    strict: bool,
    st: Walked,
)
    ensures
        st.visited.subset_of(walk_items(fs, bound, items, rel, strict, st).visited),
    decreases room(fs, st.visited), items.len(),
{
    if st.failure is Some || items.len() == 0 {
    } else {
        let rest = items.skip(1);
        match items[0] {
            DirItem::Failed(m) => {
                if !strict {
                    lemma_walk_visits(fs, bound, rest, rel, strict, st);
                }
            },
            DirItem::Gone => {
                lemma_walk_visits(fs, bound, rest, rel, strict, st);
            },
            DirItem::Entry(e) => match fate(e, bound) {
                Fate::Skip => {
                    lemma_walk_visits(fs, bound, rest, rel, strict, st);
                },
                Fate::Page => {
                    lemma_walk_visits(
                        fs,
                        bound,
                        rest,
                        rel,
                        strict,
                        Walked { pages: st.pages.push(joined_path(rel, e.name@)), ..st },
                    );
                },
                Fate::Enter(c) => {
                    if st.visited.contains(c) {
                        lemma_walk_visits(fs, bound, rest, rel, strict, st);
                    } else {
                        let entered = Walked { visited: st.visited.insert(c), ..st };
                        let inner = match listing_at(fs, c) {
                            Some(Listing::Items(v)) => walk_items(
                                fs,
                                bound,
                                v@,
                                joined_path(rel, e.name@),
                                strict,
                                entered,
                            ),
                            Some(Listing::Failed(m)) => Walked { failure: Some(m@), ..entered },
                            _ => entered,
                        };
                        let left = Walked {
                            visited: entered.visited.union(inner.visited),
                            ..inner
                        };
                        lemma_room_shrinks(fs, st.visited, left.visited);
                        lemma_walk_visits(fs, bound, rest, rel, strict, left);
                    }
                },
            },
        }
    }
}

/// The state of a walk in progress.
pub struct WalkState {
    /// The pages found.
    pub pages: Vec<Vec<u8>>,
    /// The directories that may not be entered again.
    pub visited: Vec<Vec<u8>>,
    /// What stopped the walk.
    pub failure: Option<String>,
}

impl View for WalkState {
    type V = Walked;

    open spec fn view(&self) -> Walked {
        Walked {
            pages: byte_strings(self.pages@),
            visited: byte_strings(self.visited@).to_set(),
            failure: opt_text(self.failure),
        }
    }
}

/// The elements of a list that grows by one.
pub proof fn lemma_push_to_set(s: Seq<Seq<u8>>, x: Seq<u8>)
    ensures
        s.push(x).to_set() == s.to_set().insert(x),
{
    assert forall|y: Seq<u8>|
        #[trigger] s.push(x).to_set().contains(y) <==> s.to_set().insert(x).contains(y) by {
        if s.contains(y) {
            let i = choose|i: int| 0 <= i < s.len() && s[i] == y;
            assert(s.push(x)[i] == y);
        }
        assert(s.push(x)[s.len() as int] == x);
    }
    assert(s.push(x).to_set() =~= s.to_set().insert(x));
}

/// Walks through the items of one directory and all that they lead to.
fn walk_through(
    fs: &Vec<DirRecord>,
    bound: &[u8],
    items: &Vec<DirItem>,
    rel: &[u8],
    strict: bool,
    st: &mut WalkState,
)
    ensures
        final(st)@ == walk_items(fs@, bound@, items@, rel@, strict, old(st)@),
    decreases room(fs@, old(st)@.visited),
{
    let ghost goal = walk_items(fs@, bound@, items@, rel@, strict, st@);
    let ghost first = st@.visited;
    let mut i: usize = 0;
    assert(items@.skip(0) == items@);
    while i < items.len() && st.failure.is_none()
        invariant
            0 <= i <= items@.len(),
            first == old(st)@.visited,
            first.subset_of(st@.visited),
            walk_items(fs@, bound@, items@.skip(i as int), rel@, strict, st@) == goal,
        decreases items@.len() - i,
    {
        let ghost rest = items@.skip(i as int);
        let ghost before = st@;
        assert(rest.skip(1) == items@.skip(i + 1));
        assert(rest[0] == items@[i as int]);
        match &items[i] {
            DirItem::Failed(m) => {
                if strict {
                    st.failure = Some(m.clone());
                    assert(st@ == Walked { failure: Some(m@), ..before });
                }
            },
            DirItem::Gone => {},
            DirItem::Entry(e) => match decide(e, bound) {
                Step::Skip => {},
                Step::Page => {
                    let page = join_path(rel, e.name.as_slice());
                    st.pages.push(page);
                    assert(byte_strings(st.pages@) == before.pages.push(page@));
                    assert(st@ == Walked { pages: before.pages.push(page@), ..before });
                },
                Step::Enter(c) => {
                    if !holds(&st.visited, c.as_slice()) {
                        let path = join_path(rel, e.name.as_slice());
                        let ghost vs = byte_strings(st.visited@);
                        st.visited.push(slice_to_vec(c.as_slice()));
                        assert(byte_strings(st.visited@) == vs.push(c@));
                        proof {
                            lemma_push_to_set(vs, c@);
                        }
                        let ghost entered = st@;
                        assert(entered == Walked { visited: before.visited.insert(c@), ..before });
                        match find_listing(fs, c.as_slice()) {
                            Some(Listing::Items(v)) => {
                                proof {
                                    lemma_room_insert(fs@, before.visited, c@);
                                    lemma_room_shrinks(fs@, first, before.visited);
                                    lemma_walk_visits(fs@, bound@, v@, path@, strict, entered);
                                }
                                walk_through(fs, bound, v, path.as_slice(), strict, st);
                            },
                            Some(Listing::Failed(m)) => {
                                st.failure = Some(m.clone());
                            },
                            _ => {},
                        }
                        assert(entered.visited.union(st@.visited) =~= st@.visited);
                        assert(walk_items(fs@, bound@, rest, rel@, strict, before) == walk_items(
                            fs@,
                            bound@,
                            rest.skip(1),
                            rel@,
                            strict,
                            st@,
                        ));
                    }
                },
            },
        }
        i += 1;
    }
}

/// Walks the directory `root`, which links may not lead out of.
pub fn walk_root(fs: &Vec<DirRecord>, root: &[u8], strict: bool) -> (r: WalkState)
    ensures
        r@ == walk_from(fs@, root@, strict),
{
    let mut st = WalkState { pages: Vec::new(), visited: Vec::new(), failure: None };
    st.visited.push(slice_to_vec(root));
    proof {
        assert(byte_strings(st.pages@) == Seq::<Seq<u8>>::empty());
        assert(byte_strings(st.visited@) == Seq::<Seq<u8>>::empty().push(root@));
        lemma_push_to_set(Seq::empty(), root@);
        assert(Seq::<Seq<u8>>::empty().to_set() =~= Set::empty());
    }
    match find_listing(fs, root) {
        Some(Listing::Items(v)) => {
            assert(st@ == Walked { pages: seq![], visited: set![root@], failure: None });
            let rel: Vec<u8> = Vec::new();
            assert(rel@ == Seq::<u8>::empty());
            walk_through(fs, root, v, rel.as_slice(), strict, &mut st);
        },
        Some(Listing::Failed(m)) => {
            st.failure = Some(m.clone());
        },
        _ => {},
    }
    st
}

// ---------------------------------------------------------------------------
// Laws
// ---------------------------------------------------------------------------
/// The listing of a directory is that of the first record with its path, and there is none where
/// no record has it.
pub proof fn law_first_record_counts(fs: Seq<DirRecord>, key: Seq<u8>, i: int)
    requires
        0 <= i <= fs.len(),
        forall|j: int| 0 <= j < i ==> (#[trigger] fs[j]).path@ != key,
        i < fs.len() ==> fs[i].path@ == key,
    ensures
        i < fs.len() ==> listing_at(fs, key) == Some(fs[i].listing),
        i == fs.len() ==> listing_at(fs, key) is None,
    decreases i,
{
    if i > 0 {
        assert(fs[0].path@ != key);
        let rest = fs.skip(1);
        assert forall|j: int| 0 <= j < i - 1 implies (#[trigger] rest[j]).path@ != key by {
            assert(rest[j] == fs[j + 1]);
        }
        law_first_record_counts(rest, key, i - 1);
    }
}

/// The directories that are never searched: those whose name begins with a dot, and the ones with
/// these names.
pub proof fn law_noise_names(name: Seq<char>)
    ensures
        is_noise_dir(name) <==> (name.len() > 0 && name[0] == '.') || seq![
            "node_modules"@,
            "target"@,
            "dist"@,
            "build"@,
            "out"@,
            "venv"@,
            "__pycache__"@,
            "vendor"@,
            "Pods"@,
            "DerivedData"@,
            "bower_components"@,
            "coverage"@,
        ].contains(name),
{
    let names = seq![
        "node_modules"@,
        "target"@,
        "dist"@,
        "build"@,
        "out"@,
        "venv"@,
        "__pycache__"@,
        "vendor"@,
        "Pods"@,
        "DerivedData"@,
        "bower_components"@,
        "coverage"@,
    ];
    if is_noise_dir(name) && !(name.len() > 0 && name[0] == '.') {
        assert(names[0] == name || names[1] == name || names[2] == name || names[3] == name
            || names[4] == name || names[5] == name || names[6] == name || names[7] == name
            || names[8] == name || names[9] == name || names[10] == name || names[11] == name);
    }
}

/// What is found is taken: a file whose name ends in `.md` is a page, and a directory that is not
/// one of those that are never searched is entered under its canonical path. A link counts as what
/// it leads to, provided that this lies within the bound; nothing else is taken.
pub proof fn law_what_is_found_is_taken(e: DirEntry, bound: Seq<u8>)
    ensures
        ({
            let inside = !e.symlink || (opt_bytes(e.canonical) matches Some(c) && is_within(c, bound));
            let md = e.name@.len() > 3 && e.name@.skip(e.name@.len() - 3) == seq![
                0x2eu8,
                0x6du8,
                0x64u8,
            ];
            let noise = valid_utf8(e.name@) && is_noise_dir(decode_utf8(e.name@));
            &&& fate(e, bound) == Fate::Page <==> inside && !e.dir && md
            &&& fate(e, bound) is Enter <==> inside && e.dir && !noise && e.canonical is Some
            &&& fate(e, bound) matches Fate::Enter(c) ==> opt_bytes(e.canonical) == Some(c)
        }),
{
    law_pages_end_in_md(e.name@);
}

} // verus!
