//! Workspace preparation: which pages a source directory has, and which of them are mirrored
//! into the workspace.

use vstd::prelude::*;
use vstd::slice::slice_to_vec;

use crate::order::{ascending, insert_ascending};
use crate::os_path::{byte_strings, holds, opt_bytes};
use crate::utf8::opt_text;
use crate::walk::{
    decide, fate, find_listing, lemma_listing_recorded, lemma_push_to_set, recorded, walk_from,
    walk_root, DirItem, DirRecord, Fate, Listing, Step,
};

verus! {

/// Lists the pages below `src_canonical`, by their relative paths in the order that compares name
/// by name.
///
/// `fs` is the snapshot of the source directory. Listing steps that failed are passed over; a
/// directory that could not be listed makes the whole list fail with the system's message.
pub fn list_md_files_set(fs: &Vec<DirRecord>, src_canonical: &[u8]) -> (r: Result<
    Vec<Vec<u8>>,
    String,
>)
    ensures
        match r {
            Ok(v) => {
                let walk = walk_from(fs@, src_canonical@, false);
                &&& walk.failure is None
                &&& ascending(byte_strings(v@))
                &&& byte_strings(v@).to_set() == walk.pages.to_set()
            },
            Err(m) => walk_from(fs@, src_canonical@, false).failure == Some(m@),
        },
{
    let st = walk_root(fs, src_canonical, false);
    let ghost walk = walk_from(fs@, src_canonical@, false);
    match st.failure {
        Some(m) => Err(m),
        None => {
            let mut out: Vec<Vec<u8>> = Vec::new();
            let ghost pages = byte_strings(st.pages@);
            assert(byte_strings(out@).to_set() =~= pages.take(0).to_set());
            for i in 0..st.pages.len()
                invariant
                    pages == byte_strings(st.pages@),
                    ascending(byte_strings(out@)),
                    byte_strings(out@).to_set() == pages.take(i as int).to_set(),
            {
                insert_ascending(&mut out, slice_to_vec(st.pages[i].as_slice()));
                proof {
                    assert(pages.take(i + 1) == pages.take(i as int).push(pages[i as int]));
                    lemma_push_to_set(pages.take(i as int), pages[i as int]);
                }
            }
            assert(pages.take(pages.len() as int) == pages);
            Ok(out)
        },
    }
}

// ---------------------------------------------------------------------------
// Mirroring
// ---------------------------------------------------------------------------
/// The pages that are not present yet, each once, in their order.
pub open spec fn fresh(pages: Seq<Seq<u8>>, present: Set<Seq<u8>>) -> Seq<Seq<u8>>
    decreases pages.len(),
{
    if pages.len() == 0 {
        seq![]
    } else if present.contains(pages[0]) {
        fresh(pages.skip(1), present)
    } else {
        seq![pages[0]] + fresh(pages.skip(1), present.insert(pages[0]))
    }
}

/// What mirroring a source directory takes.
pub struct MirrorPlan {
    /// The pages to mirror, by their relative paths, in the order of the walk.
    pub create: Vec<Vec<u8>>,
    /// What stopped the walk, after the pages above.
    pub failure: Option<String>,
}

/// Decides which pages below `canonical_root` are mirrored into a workspace that already holds
/// the pages `present`.
pub fn mirror_md_files(
    fs: &Vec<DirRecord>,
    canonical_root: &[u8],
    present: &Vec<Vec<u8>>,
) -> (r: MirrorPlan)
    ensures
        byte_strings(r.create@) == fresh(
            walk_from(fs@, canonical_root@, true).pages,
            byte_strings(present@).to_set(),
        ),
        opt_text(r.failure) == walk_from(fs@, canonical_root@, true).failure,
{
    let st = walk_root(fs, canonical_root, true);
    let ghost pages = byte_strings(st.pages@);
    let ghost there = byte_strings(present@).to_set();
    let mut create: Vec<Vec<u8>> = Vec::new();
    let mut i: usize = 0;
    assert(pages.skip(0) == pages);
    assert(there.union(byte_strings(create@).to_set()) =~= there);
    while i < st.pages.len()
        invariant
            0 <= i <= st.pages@.len(),
            pages == byte_strings(st.pages@),
            there == byte_strings(present@).to_set(),
            byte_strings(create@) + fresh(
                pages.skip(i as int),
                there.union(byte_strings(create@).to_set()),
            ) == fresh(pages, there),
        decreases st.pages@.len() - i,
    {
        let ghost rest = pages.skip(i as int);
        let ghost before = byte_strings(create@);
        assert(rest.skip(1) == pages.skip(i + 1));
        if !holds(present, st.pages[i].as_slice()) && !holds(&create, st.pages[i].as_slice()) {
            create.push(slice_to_vec(st.pages[i].as_slice()));
            proof {
                assert(byte_strings(create@) == before.push(pages[i as int]));
                lemma_push_to_set(before, pages[i as int]);
                assert(there.union(before.to_set()).insert(pages[i as int]) =~= there.union(
                    byte_strings(create@).to_set(),
                ));
            }
        }
        i += 1;
    }
    assert(pages.skip(i as int).len() == 0);
    assert(byte_strings(create@) == fresh(pages, there));
    MirrorPlan { create, failure: st.failure }
}

/// Mirroring is idempotent: once the pages that were missing are there, nothing is left to
/// mirror.
pub proof fn law_mirror_idempotent(pages: Seq<Seq<u8>>, present: Set<Seq<u8>>)
    ensures
        fresh(pages, present.union(fresh(pages, present).to_set())) == Seq::<Seq<u8>>::empty(),
{
    law_mirror_covers(pages, present);
    lemma_nothing_fresh(pages, present.union(fresh(pages, present).to_set()));
}

/// Mirroring leaves no page out: each is present or gets mirrored.
pub proof fn law_mirror_covers(pages: Seq<Seq<u8>>, present: Set<Seq<u8>>)
    ensures
        forall|i: int|
            0 <= i < pages.len() ==> present.union(fresh(pages, present).to_set()).contains(
                #[trigger] pages[i],
            ),
    decreases pages.len(),
{
    if pages.len() > 0 {
        let rest = pages.skip(1);
        let now = fresh(pages, present);
        if present.contains(pages[0]) {
            law_mirror_covers(rest, present);
        } else {
            law_mirror_covers(rest, present.insert(pages[0]));
            let later = fresh(rest, present.insert(pages[0]));
            assert(now[0] == pages[0]);
            assert(now.contains(pages[0]));
            assert forall|x: Seq<u8>| later.contains(x) implies now.contains(x) by {
                let k = choose|k: int| 0 <= k < later.len() && later[k] == x;
                assert(now[k + 1] == x);
            }
        }
        assert forall|i: int| 0 <= i < pages.len() implies present.union(now.to_set()).contains(
            #[trigger] pages[i],
        ) by {
            if i > 0 {
                assert(pages[i] == rest[i - 1]);
            }
        }
    }
}

proof fn lemma_nothing_fresh(pages: Seq<Seq<u8>>, present: Set<Seq<u8>>)
    requires
        forall|i: int| 0 <= i < pages.len() ==> present.contains(#[trigger] pages[i]),
    ensures
        fresh(pages, present) == Seq::<Seq<u8>>::empty(),
    decreases pages.len(),
{
    if pages.len() > 0 {
        assert(present.contains(pages[0]));
        assert forall|i: int| 0 <= i < pages.skip(1).len() implies present.contains(
            #[trigger] pages.skip(1)[i],
        ) by {
            assert(pages.skip(1)[i] == pages[i + 1]);
        }
        lemma_nothing_fresh(pages.skip(1), present);
    }
}

/// What is mirrored is a page and was not present.
pub proof fn law_mirror_creates_missing_pages(pages: Seq<Seq<u8>>, present: Set<Seq<u8>>)
    ensures
        forall|x: Seq<u8>| #[trigger]
            fresh(pages, present).contains(x) ==> pages.contains(x) && !present.contains(x),
    decreases pages.len(),
{
    if pages.len() > 0 {
        let rest = pages.skip(1);
        let now = fresh(pages, present);
        let met = if present.contains(pages[0]) {
            present
        } else {
            present.insert(pages[0])
        };
        law_mirror_creates_missing_pages(rest, met);
        let later = fresh(rest, met);
        assert forall|x: Seq<u8>| #[trigger] now.contains(x) implies pages.contains(x)
            && !present.contains(x) by {
            let k = choose|k: int| 0 <= k < now.len() && now[k] == x;
            if x != pages[0] || present.contains(pages[0]) {
                if present.contains(pages[0]) {
                    assert(later[k] == x);
                } else {
                    assert(later[k - 1] == x);
                }
                assert(later.contains(x));
                let m = choose|m: int| 0 <= m < rest.len() && rest[m] == x;
                assert(pages[m + 1] == x);
            } else {
                assert(pages[0] == x);
            }
        }
    }
}

// ---------------------------------------------------------------------------
// Clearing the mirror
// ---------------------------------------------------------------------------
/// How an entry of the mirror is removed.
#[derive(Clone, Copy, Debug, PartialEq, Eq, Structural)]
pub enum Removal {
    /// As a directory, with all that it holds.
    Tree,
    /// As a file or a link; what a link leads to stays.
    Entry,
}

/// How an entry of the mirror is removed: `dir` says whether it is a directory after following
/// links, `symlink` whether it is itself a link.
pub fn removal_of(dir: bool, symlink: bool) -> (r: Removal)
    ensures
        r == (if dir && !symlink {
            Removal::Tree
        } else {
            Removal::Entry
        }),
{
    if dir && !symlink {
        Removal::Tree
    } else {
        Removal::Entry
    }
}

// ---------------------------------------------------------------------------
// Taking a snapshot
// ---------------------------------------------------------------------------
/// A listing with these items makes a walk enter the directory `c`.
pub open spec fn leads_to(l: Listing, bound: Seq<u8>, c: Seq<u8>) -> bool {
    l matches Listing::Items(v) && exists|i: int|
        0 <= i < v@.len() && (#[trigger] v@[i] matches DirItem::Entry(e) && fate(e, bound)
            == Fate::Enter(c))
}

/// A snapshot in the making: it asks for the listing of one directory after the other, until
/// every directory that a walk can enter has a record.
pub struct Crawl {
    /// The directory that links may not lead out of.
    pub bound: Vec<u8>,
    /// The directories recorded so far.
    pub records: Vec<DirRecord>,
    /// Directories that may still need a record.
    pub queue: Vec<Vec<u8>>,
    /// The directory whose listing was asked for.
    pub awaiting: Option<Vec<u8>>,
}

impl Crawl {
    /// The directory has a record, or will get one.
    pub open spec fn expects(self, c: Seq<u8>) -> bool {
        ||| recorded(self.records@).contains(c)
        ||| byte_strings(self.queue@).contains(c)
        ||| opt_bytes(self.awaiting) == Some(c)
    }

    /// Every directory that a recorded one leads to has a record, or will get one.
    pub open spec fn wf(self) -> bool {
        forall|k: int, c: Seq<u8>|
            0 <= k < self.records@.len() && #[trigger] leads_to(
                self.records@[k].listing,
                self.bound@,
                c,
            ) ==> self.expects(c)
    }

    /// Nothing is left to ask for: every directory that a recorded one leads to has a record.
    pub open spec fn complete(self) -> bool {
        forall|k: int, c: Seq<u8>|
            0 <= k < self.records@.len() && #[trigger] leads_to(
                self.records@[k].listing,
                self.bound@,
                c,
            ) ==> recorded(self.records@).contains(c)
    }

    /// Starts a snapshot of the directory `start`.
    pub fn new(start: &[u8], bound: &[u8]) -> (r: Crawl)
        ensures
            r.wf(),
            r.bound@ == bound@,
            r.records@.len() == 0,
            r.expects(start@),
            forall|c: Seq<u8>| #[trigger] r.expects(c) ==> c == start@,
            r.awaiting is None,
    {
        let mut queue: Vec<Vec<u8>> = Vec::new();
        queue.push(slice_to_vec(start));
        assert(byte_strings(queue@)[0] == start@);
        Crawl { bound: slice_to_vec(bound), records: Vec::new(), queue, awaiting: None }
    }

    /// The next directory whose listing is needed, if any.
    ///
    /// Where there is none, the snapshot is complete, and every directory that was expected has
    /// a record.
    pub fn next_dir(&mut self) -> (r: Option<Vec<u8>>)
        requires
            old(self).wf(),
        ensures
            final(self).wf(),
            final(self).bound == old(self).bound,
            final(self).records == old(self).records,
            forall|c: Seq<u8>| old(self).expects(c) ==> #[trigger] final(self).expects(c),
            forall|c: Seq<u8>| #[trigger] final(self).expects(c) ==> old(self).expects(c),
            match r {
                Some(d) => {
                    &&& opt_bytes(final(self).awaiting) == Some(d@)
                    &&& old(self).awaiting is None ==> !recorded(old(self).records@).contains(d@)
                    &&& old(self).expects(d@)
                },
                None => {
                    &&& final(self).awaiting is None
                    &&& final(self).complete()
                    &&& forall|c: Seq<u8>| #[trigger]
                        old(self).expects(c) ==> recorded(final(self).records@).contains(c)
                },
            },
    {
        if let Some(d) = &self.awaiting {
            return Some(slice_to_vec(d.as_slice()));
        }
        let ghost start = *self;
        while self.queue.len() > 0
            invariant
                self.wf(),
                self.awaiting is None,
                self.bound == start.bound,
                self.records == start.records,
                start == *old(self),
                start.awaiting is None,
                forall|c: Seq<u8>| start.expects(c) ==> #[trigger] self.expects(c),
                forall|c: Seq<u8>|
                    byte_strings(self.queue@).contains(c) ==> #[trigger] start.expects(c),
            decreases self.queue@.len(),
        {
            let ghost before = byte_strings(self.queue@);
            let ghost was = *self;
            let d = self.queue.pop().unwrap();
            let ghost after = byte_strings(self.queue@);
            proof {
                assert(after == before.drop_last());
                assert(before.last() == d@);
                assert(before.contains(d@));
                assert forall|c: Seq<u8>| before.contains(c) implies after.contains(c) || c
                    == d@ by {
                    let k = choose|k: int| 0 <= k < before.len() && before[k] == c;
                    if k < before.len() - 1 {
                        assert(after[k] == c);
                    }
                }
                assert forall|c: Seq<u8>| after.contains(c) implies before.contains(c) by {
                    let k = choose|k: int| 0 <= k < after.len() && after[k] == c;
                    assert(before[k] == c);
                }
                lemma_listing_recorded(self.records@, d@);
            }
            match find_listing(&self.records, d.as_slice()) {
                Some(_) => {
                    assert forall|c: Seq<u8>| was.expects(c) implies #[trigger] self.expects(
                        c,
                    ) by {}
                },
                None => {
                    self.awaiting = Some(slice_to_vec(d.as_slice()));
                    assert forall|c: Seq<u8>| was.expects(c) implies #[trigger] self.expects(
                        c,
                    ) by {}
                    assert(start.expects(d@));
                    return Some(d);
                },
            }
        }
        assert(byte_strings(self.queue@).len() == 0);
        assert forall|c: Seq<u8>| #[trigger] self.expects(c) implies recorded(
            self.records@,
        ).contains(c) by {}
        assert forall|c: Seq<u8>| #[trigger] start.expects(c) implies recorded(
            self.records@,
        ).contains(c) by {
            assert(self.expects(c));
        }
        None
    }

    /// Records the listing of the directory that was asked for.
    pub fn supply(&mut self, listing: Listing)
        requires
            old(self).wf(),
            old(self).awaiting is Some,
        ensures
            final(self).wf(),
            final(self).bound == old(self).bound,
            final(self).awaiting is None,
            final(self).records@.len() == old(self).records@.len() + 1,
            final(self).records@.drop_last() == old(self).records@,
            opt_bytes(old(self).awaiting) == Some(final(self).records@.last().path@),
            final(self).records@.last().listing == listing,
            forall|c: Seq<u8>| old(self).expects(c) ==> #[trigger] final(self).expects(c),
            forall|c: Seq<u8>| #[trigger]
                final(self).expects(c) ==> old(self).expects(c) || leads_to(
                    listing,
                    old(self).bound@,
                    c,
                ),
    {
        let ghost start = *self;
        let path = self.awaiting.take().unwrap();
        let ghost dir = path@;
        if let Listing::Items(items) = &listing {
            for i in 0..items.len()
                invariant
                    self.bound == start.bound,
                    self.records == start.records,
                    self.awaiting is None,
                    listing == Listing::Items(*items),
                    forall|c: Seq<u8>| #[trigger]
                        byte_strings(self.queue@).contains(c) ==> byte_strings(
                            start.queue@,
                        ).contains(c) || leads_to(listing, start.bound@, c),
                    forall|c: Seq<u8>|
                        byte_strings(start.queue@).contains(c) ==> #[trigger] byte_strings(
                            self.queue@,
                        ).contains(c),
                    forall|j: int, c: Seq<u8>|
                        0 <= j < i && (#[trigger] items@[j] matches DirItem::Entry(e) && fate(
                            e,
                            start.bound@,
                        ) == Fate::Enter(c)) ==> #[trigger] byte_strings(self.queue@).contains(c),
            {
                if let DirItem::Entry(e) = &items[i] {
                    if let Step::Enter(c) = decide(e, self.bound.as_slice()) {
                        let ghost before = byte_strings(self.queue@);
                        self.queue.push(slice_to_vec(c.as_slice()));
                        proof {
                            let after = byte_strings(self.queue@);
                            assert(after == before.push(c@));
                            assert(after[before.len() as int] == c@);
                            assert(leads_to(listing, start.bound@, c@)) by {
                                assert(items@[i as int] == DirItem::Entry(*e));
                            }
                            assert forall|x: Seq<u8>| #[trigger] after.contains(x) implies
                                before.contains(x) || x == c@ by {
                                let k = choose|k: int| 0 <= k < after.len() && after[k] == x;
                                if k < before.len() {
                                    assert(before[k] == x);
                                }
                            }
                            assert forall|x: Seq<u8>| before.contains(x) implies after.contains(
                                x,
                            ) by {
                                let k = choose|k: int| 0 <= k < before.len() && before[k] == x;
                                assert(after[k] == x);
                            }
                        }
                    }
                }
            }
        }
        let ghost given = listing;
        self.records.push(DirRecord { path, listing });
        proof {
            assert(self.records@.drop_last() == start.records@);
            assert forall|c: Seq<u8>|
                recorded(start.records@).contains(c) || c == dir implies recorded(
                self.records@,
            ).contains(c) by {
                let paths = Seq::new(self.records@.len(), |i: int| self.records@[i].path@);
                let old_paths = Seq::new(start.records@.len(), |i: int| start.records@[i].path@);
                if c == dir {
                    assert(paths[start.records@.len() as int] == c);
                } else {
                    let k = choose|k: int| 0 <= k < old_paths.len() && old_paths[k] == c;
                    assert(paths[k] == c);
                }
            }
            assert forall|c: Seq<u8>| start.expects(c) implies #[trigger] self.expects(c) by {}
            assert forall|c: Seq<u8>| #[trigger] recorded(self.records@).contains(c) implies recorded(
                start.records@,
            ).contains(c) || c == dir by {
                let paths = Seq::new(self.records@.len(), |i: int| self.records@[i].path@);
                let old_paths = Seq::new(start.records@.len(), |i: int| start.records@[i].path@);
                let k = choose|k: int| 0 <= k < paths.len() && paths[k] == c;
                if k < start.records@.len() {
                    assert(old_paths[k] == c);
                }
            }
            assert forall|k: int, c: Seq<u8>|
                0 <= k < self.records@.len() && #[trigger] leads_to(
                    self.records@[k].listing,
                    self.bound@,
                    c,
                ) implies self.expects(c) by {
                if k < start.records@.len() {
                    assert(self.records@[k] == start.records@[k]);
                    assert(leads_to(start.records@[k].listing, start.bound@, c));
                } else {
                    assert(leads_to(given, start.bound@, c));
                }
            }
        }
    }
}

// ---------------------------------------------------------------------------
// The order of mirroring
// ---------------------------------------------------------------------------
/// Pages are mirrored in the order of the walk, and none twice: those of a first part of the list
/// first, and then those of the rest that are neither present nor in the first part.
pub proof fn law_mirror_keeps_order(a: Seq<Seq<u8>>, b: Seq<Seq<u8>>, present: Set<Seq<u8>>)
    ensures
        fresh(a + b, present) == fresh(a, present) + fresh(b, present.union(a.to_set())),
        fresh(a, present).no_duplicates(),
    decreases a.len(),
{
    if a.len() > 0 {
        let rest = a.skip(1);
        let met = present.insert(a[0]);
        assert((a + b).skip(1) == rest + b);
        law_mirror_keeps_order(rest, b, met);
        assert(a == seq![a[0]] + rest);
        assert forall|x: Seq<u8>| #[trigger] met.union(rest.to_set()).contains(x)
            <==> present.union(a.to_set()).contains(x) by {
            if rest.contains(x) {
                let i = choose|i: int| 0 <= i < rest.len() && rest[i] == x;
                assert(a[i + 1] == x);
            }
            if a.contains(x) && x != a[0] {
                let i = choose|i: int| 0 <= i < a.len() && a[i] == x;
                assert(rest[i - 1] == x);
            }
            assert(a.contains(a[0]));
        }
        assert(met.union(rest.to_set()) =~= present.union(a.to_set()));
        if present.contains(a[0]) {
            assert(met =~= present);
        } else {
            let later = fresh(rest, met);
            law_mirror_creates_missing_pages(rest, met);
            assert forall|i: int, j: int|
                0 <= i < fresh(a, present).len() && 0 <= j < fresh(a, present).len() && i
                    != j implies fresh(a, present)[i] != fresh(a, present)[j] by {
                if i == 0 {
                    assert(later.contains(later[j - 1]));
                } else if j == 0 {
                    assert(later.contains(later[i - 1]));
                } else {
                    assert(later[i - 1] != later[j - 1]);
                }
            }
        }
        assert(fresh(a + b, present) == fresh(a, present) + fresh(
            b,
            present.union(a.to_set()),
        ));
    } else {
        assert(a + b == b);
        assert(present.union(a.to_set()) =~= present);
        assert(fresh(a + b, present) == fresh(a, present) + fresh(
            b,
            present.union(a.to_set()),
        ));
    }
}

} // verus!
