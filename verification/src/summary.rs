//! `SUMMARY.md`: the list of a book's chapters.

use vstd::prelude::*;
use vstd::utf8::{decode_utf8, valid_utf8};

use crate::chapter::{
    build_chapter_tree, chapter_views, lemma_chapter_views, page_views, tree_of, Chapter,
    ChapterTree, FileEntry, Page,
};
use crate::link::{
    escape_link_text, format_link_url, is_plain_in_url, law_url_is_plain, law_url_leads_to_path,
    link_char, link_text, link_url, percent_decoded, slashed, url_path,
};
use crate::os_path::{
    file_name, file_name_of, law_file_name_is_last, law_name_is_stem_and_extension, stem, stem_of,
};
use crate::text::{is_plain_line, law_lines_read_back, lines_of, unlines};
use crate::utf8::{lossy_string, lossy_text, utf8, utf8_string};
use crate::walk::DirRecord;

verus! {

/// A list item that links to `url` under the title `title`, behind the indentation `pad`.
pub open spec fn item_text(pad: Seq<char>, title: Seq<char>, url: Seq<char>) -> Seq<char> {
    pad + "- ["@ + link_text(title) + "]("@ + url + ")\n"@
}

/// The link target for the page at the path `rel`.
pub open spec fn page_url(rel: Seq<u8>) -> Seq<char> {
    link_url(lossy_text(rel))
}

/// The list items of pages.
pub open spec fn pages_text(pad: Seq<char>, pages: Seq<Page>) -> Seq<char>
    decreases pages.len(),
{
    if pages.len() == 0 {
        seq![]
    } else {
        pages_text(pad, pages.drop_last()) + item_text(
            pad,
            pages.last().title,
            page_url(pages.last().rel),
        )
    }
}

/// The list item of a sub-directory, with all that it holds two columns further in. Its title is
/// that of its index page, or else its name. Without an index page it links to nothing.
pub open spec fn subdir_text(pad: Seq<char>, c: Chapter) -> Seq<char>
    decreases c,
{
    let title = match c.index_title {
        Some(t) => t,
        None => c.name,
    };
    let url = match c.index_rel {
        Some(rel) => page_url(rel),
        None => seq![],
    };
    item_text(pad, title, url) + pages_text(pad + "  "@, c.files) + subdirs_text(
        pad + "  "@,
        c.subdirs,
    )
}

/// The list items of sub-directories.
pub open spec fn subdirs_text(pad: Seq<char>, cs: Seq<Chapter>) -> Seq<char>
    decreases cs,
{
    if cs.len() == 0 {
        seq![]
    } else {
        subdirs_text(pad, cs.drop_last()) + subdir_text(pad, cs.last())
    }
}

/// The title of the root's index page: its heading, or its file name without the extension.
pub open spec fn root_title(c: Chapter, rel: Seq<u8>) -> Seq<char> {
    match c.index_title {
        Some(t) => t,
        None => match file_name(rel) {
            Some(n) => match utf8(stem(n)) {
                Some(t) => t,
                None => "Index"@,
            },
            None => "Index"@,
        },
    }
}

/// The list items of the root directory: its index page, its other pages, its sub-directories.
pub open spec fn root_text(c: Chapter) -> Seq<char> {
    let index = match c.index_rel {
        Some(rel) => item_text(seq![], root_title(c, rel), page_url(rel)),
        None => seq![],
    };
    index + pages_text(seq![], c.files) + subdirs_text(seq![], c.subdirs)
}

/// Appends a list item.
fn push_item(out: &mut String, pad: &str, title: &str, url: &str)
    ensures
        final(out)@ == old(out)@ + item_text(pad@, title@, url@),
{
    let ghost before = out@;
    out.append(pad);
    out.append("- [");
    let t = escape_link_text(title);
    out.append(t.as_str());
    out.append("](");
    out.append(url);
    out.append(")\n");
    assert(out@ == before + item_text(pad@, title@, url@));
}

/// The link target for a page.
fn page_url_of(rel: &[u8]) -> (r: String)
    ensures
        r@ == page_url(rel@),
{
    let text = lossy_string(rel);
    format_link_url(text.as_str())
}

/// Appends the list items of pages.
fn push_pages(out: &mut String, pad: &str, files: &Vec<FileEntry>)
    ensures
        final(out)@ == old(out)@ + pages_text(pad@, page_views(files@)),
{
    let ghost before = out@;
    let ghost pages = page_views(files@);
    assert(pages_text(pad@, pages.take(0)) == Seq::<char>::empty());
    for i in 0..files.len()
        invariant
            pages == page_views(files@),
            out@ == before + pages_text(pad@, pages.take(i as int)),
    {
        let ghost start = out@;
        let f = &files[i];
        let url = page_url_of(f.rel.as_slice());
        push_item(out, pad, f.title.as_str(), url.as_str());
        proof {
            let upto = pages.take(i + 1);
            assert(upto.drop_last() == pages.take(i as int));
            assert(upto.last() == (Page { rel: f.rel@, title: f.title@ }));
            assert(out@ == before + pages_text(pad@, upto));
        }
    }
    assert(pages.take(pages.len() as int) == pages);
}

/// Appends the list items of a directory and all that it holds.
pub fn emit_subdir(out: &mut String, node: &ChapterTree, pad: &str)
    ensures
        final(out)@ == old(out)@ + subdir_text(pad@, node@),
    decreases node,
{
    let ghost before = out@;
    let title: &str = match &node.index_title {
        Some(t) => t.as_str(),
        None => node.name.as_str(),
    };
    let url = match &node.index_rel {
        Some(rel) => page_url_of(rel.as_slice()),
        None => String::new(),
    };
    push_item(out, pad, title, url.as_str());
    let mut inner = String::new();
    inner.append(pad);
    inner.append("  ");
    assert(inner@ == pad@ + "  "@);
    push_pages(out, inner.as_str(), &node.files);
    let ghost start = out@;
    let ghost cs = chapter_views(node.subdirs@);
    proof {
        lemma_chapter_views(node.subdirs@);
        assert(subdirs_text(inner@, cs.take(0)) == Seq::<char>::empty());
    }
    let mut i: usize = 0;
    while i < node.subdirs.len()
        invariant
            0 <= i <= node.subdirs@.len(),
            cs.len() == node.subdirs@.len(),
            forall|k: int| 0 <= k < cs.len() ==> #[trigger] cs[k] == node.subdirs@[k]@,
            out@ == start + subdirs_text(inner@, cs.take(i as int)),
        decreases node.subdirs@.len() - i,
    {
        emit_subdir(out, &node.subdirs[i], inner.as_str());
        proof {
            let upto = cs.take(i + 1);
            assert(upto.drop_last() == cs.take(i as int));
            assert(upto.last() == node.subdirs@[i as int]@);
            assert(out@ == start + subdirs_text(inner@, upto));
        }
        i += 1;
    }
    assert(cs.take(cs.len() as int) == cs);
    assert(out@ == before + subdir_text(pad@, node@));
}

/// The title of the root's index page.
fn root_title_of(node: &ChapterTree, rel: &[u8]) -> (r: String)
    ensures
        r@ == root_title(node@, rel@),
{
    match &node.index_title {
        Some(t) => t.clone(),
        None => match file_name_of(rel) {
            Some(n) => match utf8_string(stem_of(n.as_slice()).as_slice()) {
                Some(t) => t,
                None => "Index".to_owned(),
            },
            None => "Index".to_owned(),
        },
    }
}

/// Appends the list items of the root directory.
pub fn emit_root(out: &mut String, root: &ChapterTree)
    ensures
        final(out)@ == old(out)@ + root_text(root@),
{
    let ghost before = out@;
    if let Some(rel) = &root.index_rel {
        let title = root_title_of(root, rel.as_slice());
        let url = page_url_of(rel.as_slice());
        proof {
            reveal_strlit("");
            assert(""@ == Seq::<char>::empty());
        }
        push_item(out, "", title.as_str(), url.as_str());
    }
    proof {
        reveal_strlit("");
        assert(""@ == Seq::<char>::empty());
    }
    push_pages(out, "", &root.files);
    let ghost start = out@;
    let ghost cs = chapter_views(root.subdirs@);
    proof {
        lemma_chapter_views(root.subdirs@);
        assert(subdirs_text(seq![], cs.take(0)) == Seq::<char>::empty());
    }
    let mut i: usize = 0;
    while i < root.subdirs.len()
        invariant
            0 <= i <= root.subdirs@.len(),
            cs.len() == root.subdirs@.len(),
            forall|k: int| 0 <= k < cs.len() ==> #[trigger] cs[k] == root.subdirs@[k]@,
            out@ == start + subdirs_text(seq![], cs.take(i as int)),
            ""@ == Seq::<char>::empty(),
        decreases root.subdirs@.len() - i,
    {
        emit_subdir(out, &root.subdirs[i], "");
        proof {
            let upto = cs.take(i + 1);
            assert(upto.drop_last() == cs.take(i as int));
            assert(upto.last() == root.subdirs@[i as int]@);
            assert(out@ == start + subdirs_text(seq![], upto));
        }
        i += 1;
    }
    assert(cs.take(cs.len() as int) == cs);
    assert(out@ == before + root_text(root@));
}

/// Generates the text of `SUMMARY.md` for the directory `root` from a snapshot of it, unless the
/// directory already has one: that is kept, and nothing is generated.
///
/// Fails with the system's message if the directory could not be read.
pub fn generate_summary(
    has_summary: bool,
    fs: &Vec<DirRecord>,
    root: &[u8],
    canonical_root: &[u8],
) -> (r: Result<Option<String>, String>)
    ensures
        has_summary ==> r == Ok::<Option<String>, String>(None),
        !has_summary ==> match tree_of(fs@, root@, canonical_root@) {
            Ok(c) => r matches Ok(Some(t)) && t@ == "# Summary\n\n"@ + root_text(c),
            Err(m) => r matches Err(e) && e@ == m,
        },
{
    if has_summary {
        return Ok(None);
    }
    match build_chapter_tree(fs, root, canonical_root) {
        Err(m) => Err(m),
        Ok(tree) => {
            let mut out = String::new();
            out.append("# Summary\n\n");
            emit_root(&mut out, &tree);
            assert(out@ == "# Summary\n\n"@ + root_text(tree@));
            Ok(Some(out))
        },
    }
}

// ---------------------------------------------------------------------------
// The outline
// ---------------------------------------------------------------------------
/// An item of the summary.
pub struct Item {
    /// How many chapters it lies within.
    pub depth: nat,
    /// Its title.
    pub title: Seq<char>,
    /// What it links to.
    pub url: Seq<char>,
}

/// The items of pages.
pub open spec fn pages_outline(pages: Seq<Page>, depth: nat) -> Seq<Item> {
    Seq::new(
        pages.len(),
        |i: int| Item { depth, title: pages[i].title, url: page_url(pages[i].rel) },
    )
}

/// The items of a sub-directory: its own, those of its pages, those of its sub-directories.
pub open spec fn outline(c: Chapter, depth: nat) -> Seq<Item>
    decreases c,
{
    let own = Item {
        depth,
        title: match c.index_title {
            Some(t) => t,
            None => c.name,
        },
        url: match c.index_rel {
            Some(rel) => page_url(rel),
            None => seq![],
        },
    };
    seq![own] + pages_outline(c.files, depth + 1) + subdirs_outline(c.subdirs, depth + 1)
}

/// The items of sub-directories.
pub open spec fn subdirs_outline(cs: Seq<Chapter>, depth: nat) -> Seq<Item>
    decreases cs,
{
    if cs.len() == 0 {
        seq![]
    } else {
        subdirs_outline(cs.drop_last(), depth) + outline(cs.last(), depth)
    }
}

/// The items of the root directory.
pub open spec fn root_outline(c: Chapter) -> Seq<Item> {
    let index = match c.index_rel {
        Some(rel) => seq![Item { depth: 0, title: root_title(c, rel), url: page_url(rel) }],
        None => seq![],
    };
    index + pages_outline(c.files, 0) + subdirs_outline(c.subdirs, 0)
}

/// Two spaces for every level.
pub open spec fn indentation(depth: nat) -> Seq<char> {
    Seq::new(2 * depth, |i: int| ' ')
}

/// The text of a list of items.
pub open spec fn outline_text(items: Seq<Item>) -> Seq<char>
    decreases items.len(),
{
    if items.len() == 0 {
        seq![]
    } else {
        outline_text(items.drop_last()) + item_text(
            indentation(items.last().depth),
            items.last().title,
            items.last().url,
        )
    }
}

/// The text of two lists of items, one after the other.
proof fn lemma_outline_text(a: Seq<Item>, b: Seq<Item>)
    ensures
        outline_text(a + b) == outline_text(a) + outline_text(b),
    decreases b.len(),
{
    if b.len() > 0 {
        lemma_outline_text(a, b.drop_last());
        assert((a + b).drop_last() == a + b.drop_last());
        assert((a + b).last() == b.last());
    } else {
        assert(a + b == a);
    }
    assert(outline_text(a + b) == outline_text(a) + outline_text(b));
}

/// The text of pages.
proof fn lemma_pages_outline(pages: Seq<Page>, depth: nat)
    ensures
        pages_text(indentation(depth), pages) == outline_text(pages_outline(pages, depth)),
    decreases pages.len(),
{
    if pages.len() > 0 {
        lemma_pages_outline(pages.drop_last(), depth);
        let items = pages_outline(pages, depth);
        assert(items.drop_last() == pages_outline(pages.drop_last(), depth));
    }
}

/// Two more spaces are one more level.
proof fn lemma_indentation(depth: nat)
    ensures
        indentation(depth) + "  "@ == indentation(depth + 1),
{
    reveal_strlit("  ");
    assert(indentation(depth) + "  "@ == indentation(depth + 1));
}

/// The text of a sub-directory.
proof fn lemma_outline(c: Chapter, depth: nat)
    ensures
        subdir_text(indentation(depth), c) == outline_text(outline(c, depth)),
    decreases c,
{
    let pages = pages_outline(c.files, depth + 1);
    let below = subdirs_outline(c.subdirs, depth + 1);
    lemma_indentation(depth);
    lemma_pages_outline(c.files, depth + 1);
    lemma_subdirs_outline(c.subdirs, depth + 1);
    let own = seq![outline(c, depth)[0]];
    assert(own.drop_last() == Seq::<Item>::empty());
    assert(outline_text(own.drop_last()) == Seq::<char>::empty());
    assert(outline_text(own) == item_text(indentation(depth), own[0].title, own[0].url));
    assert(outline(c, depth) == own + pages + below);
    lemma_outline_text(own, pages);
    lemma_outline_text(own + pages, below);
}

/// The text of sub-directories.
proof fn lemma_subdirs_outline(cs: Seq<Chapter>, depth: nat)
    ensures
        subdirs_text(indentation(depth), cs) == outline_text(subdirs_outline(cs, depth)),
    decreases cs,
{
    if cs.len() > 0 {
        lemma_subdirs_outline(cs.drop_last(), depth);
        lemma_outline(cs.last(), depth);
        lemma_outline_text(subdirs_outline(cs.drop_last(), depth), outline(cs.last(), depth));
    }
}

/// The summary is a list with one item for every page and every sub-directory: first the index
/// page of a directory, then its other pages, then its sub-directories. Each level is indented by
/// two more spaces.
pub proof fn law_summary_follows_outline(c: Chapter)
    ensures
        root_text(c) == outline_text(root_outline(c)),
{
    let pages = pages_outline(c.files, 0);
    let below = subdirs_outline(c.subdirs, 0);
    assert(indentation(0) == Seq::<char>::empty());
    lemma_pages_outline(c.files, 0);
    lemma_subdirs_outline(c.subdirs, 0);
    let index = match c.index_rel {
        Some(rel) => seq![Item { depth: 0, title: root_title(c, rel), url: page_url(rel) }],
        None => seq![],
    };
    if index.len() > 0 {
        assert(index.drop_last() == Seq::<Item>::empty());
        assert(outline_text(index.drop_last()) == Seq::<char>::empty());
        assert(outline_text(index) == item_text(seq![], index[0].title, index[0].url));
    }
    lemma_outline_text(index, pages);
    lemma_outline_text(index + pages, below);
}

// ---------------------------------------------------------------------------
// Lines
// ---------------------------------------------------------------------------
/// The text holds no line feed.
pub open spec fn on_one_line(s: Seq<char>) -> bool {
    forall|i: int| 0 <= i < s.len() ==> #[trigger] s[i] != '\n'
}

/// No title and no name of the chapter holds a line feed, at any depth.
pub open spec fn has_plain_titles(c: Chapter) -> bool
    decreases c,
{
    &&& on_one_line(c.name)
    &&& c.index_title matches Some(t) ==> on_one_line(t)
    &&& forall|i: int| 0 <= i < c.files.len() ==> on_one_line((#[trigger] c.files[i]).title)
    &&& have_plain_titles(c.subdirs)
}

/// No title and no name of the chapters holds a line feed, at any depth.
pub open spec fn have_plain_titles(cs: Seq<Chapter>) -> bool
    decreases cs,
{
    cs.len() == 0 || (have_plain_titles(cs.drop_last()) && has_plain_titles(cs.last()))
}

/// How many chapters and pages there are, with the chapter itself; index pages are not counted.
pub open spec fn entries_in(c: Chapter) -> nat
    decreases c,
{
    1 + c.files.len() + entries_in_all(c.subdirs)
}

/// How many chapters and pages there are.
pub open spec fn entries_in_all(cs: Seq<Chapter>) -> nat
    decreases cs,
{
    if cs.len() == 0 {
        0
    } else {
        entries_in_all(cs.drop_last()) + entries_in(cs.last())
    }
}

/// The line of an item, without the line feed.
pub open spec fn item_line(i: Item) -> Seq<char> {
    indentation(i.depth) + "- ["@ + link_text(i.title) + "]("@ + i.url + ")"@
}

/// The lines of items.
pub open spec fn item_lines(items: Seq<Item>) -> Seq<Seq<char>> {
    Seq::new(items.len(), |i: int| item_line(items[i]))
}

/// The item one level deeper.
pub open spec fn deeper(i: Item) -> Item {
    Item { depth: i.depth + 1, ..i }
}

/// The items one level deeper.
pub open spec fn all_deeper(items: Seq<Item>) -> Seq<Item> {
    Seq::new(items.len(), |i: int| deeper(items[i]))
}

/// The item takes one line.
pub open spec fn is_one_line(i: Item) -> bool {
    on_one_line(i.title) && on_one_line(i.url)
}

/// The link text of a title without line feeds has none.
proof fn lemma_link_text_on_one_line(s: Seq<char>)
    requires
        on_one_line(s),
    ensures
        on_one_line(link_text(s)),
    decreases s.len(),
{
    if s.len() > 0 {
        reveal_strlit("&lt;");
        reveal_strlit("&gt;");
        let head = link_char(s[0]);
        let tail = link_text(s.skip(1));
        assert forall|i: int| 0 <= i < s.skip(1).len() implies #[trigger] s.skip(1)[i] != '\n' by {
            assert(s[i + 1] != '\n');
        }
        lemma_link_text_on_one_line(s.skip(1));
        assert forall|i: int| 0 <= i < link_text(s).len() implies #[trigger] link_text(s)[i]
            != '\n' by {
            if i < head.len() {
                assert(link_text(s)[i] == head[i]);
            } else {
                assert(link_text(s)[i] == tail[i - head.len()]);
            }
        }
    }
}

/// A link target has no line feed.
proof fn lemma_url_on_one_line(rel: Seq<u8>)
    ensures
        on_one_line(page_url(rel)),
{
    let t = url_path(lossy_text(rel));
    reveal_strlit("./");
    law_url_is_plain(lossy_text(rel));
    assert forall|i: int| 0 <= i < page_url(rel).len() implies #[trigger] page_url(rel)[i]
        != '\n' by {
        if i >= 2 {
            assert(page_url(rel)[i] == t[i - 2]);
            assert(is_plain_in_url(t[i - 2]) || t[i - 2] == '%');
        }
    }
}

/// The text of items that take one line each is made of their lines.
proof fn lemma_outline_lines(items: Seq<Item>)
    requires
        forall|i: int| 0 <= i < items.len() ==> is_one_line(#[trigger] items[i]),
    ensures
        outline_text(items) == unlines(item_lines(items)),
        forall|i: int| 0 <= i < items.len() ==> is_plain_line(#[trigger] item_lines(items)[i]),
    decreases items.len(),
{
    let ls = item_lines(items);
    if items.len() > 0 {
        let before = items.drop_last();
        let last = items.last();
        assert forall|i: int| 0 <= i < before.len() implies is_one_line(#[trigger] before[i]) by {
            assert(is_one_line(items[i]));
        }
        lemma_outline_lines(before);
        assert(ls.drop_last() == item_lines(before));
        assert(is_one_line(items[items.len() - 1]));
        lemma_link_text_on_one_line(last.title);
        reveal_strlit("- [");
        reveal_strlit("](");
        reveal_strlit(")");
        reveal_strlit(")\n");
        let l = item_line(last);
        assert(item_text(indentation(last.depth), last.title, last.url) == l + seq!['\n']);
        assert(is_plain_line(l)) by {
            let t = link_text(last.title);
            let a = indentation(last.depth).len() as int;
            assert forall|i: int| 0 <= i < l.len() implies l[i] != '\n' by {
                if a + 3 <= i < a + 3 + t.len() {
                    assert(l[i] == t[i - a - 3]);
                } else if a + 3 + t.len() + 2 <= i < l.len() - 1 {
                    assert(l[i] == last.url[i - a - 3 - t.len() - 2]);
                }
            }
        }
        assert forall|i: int| 0 <= i < items.len() implies is_plain_line(#[trigger] ls[i]) by {
            if i < before.len() {
                assert(ls[i] == item_lines(before)[i]);
            }
        }
        assert(outline_text(items) == unlines(ls));
    } else {
        assert(outline_text(items) == unlines(ls));
    }
}

/// What the items of a chapter are like, and how many there are.
proof fn lemma_outline_items(c: Chapter, depth: nat)
    ensures
        outline(c, depth).len() == entries_in(c),
        outline(c, depth + 1) == all_deeper(outline(c, depth)),
        has_plain_titles(c) ==> forall|i: int|
            0 <= i < outline(c, depth).len() ==> is_one_line(#[trigger] outline(c, depth)[i]),
    decreases c,
{
    let own = seq![outline(c, depth)[0]];
    let pages = pages_outline(c.files, depth + 1);
    let below = subdirs_outline(c.subdirs, depth + 1);
    let all = outline(c, depth);
    lemma_subdirs_items(c.subdirs, depth + 1);
    assert(all == own + pages + below);
    assert(pages_outline(c.files, depth + 2) == all_deeper(pages));
    assert(outline(c, depth + 1) == all_deeper(all));
    if has_plain_titles(c) {
        if c.index_rel is Some {
            lemma_url_on_one_line(c.index_rel->0);
        }
        assert forall|i: int| 0 <= i < all.len() implies is_one_line(#[trigger] all[i]) by {
            if i == 0 {
                assert(all[0] == own[0]);
            } else if i < 1 + pages.len() {
                assert(all[i] == pages[i - 1]);
                assert(on_one_line(c.files[i - 1].title));
                lemma_url_on_one_line(c.files[i - 1].rel);
            } else {
                assert(all[i] == below[i - 1 - pages.len()]);
            }
        }
    }
}

/// What the items of chapters are like, and how many there are.
proof fn lemma_subdirs_items(cs: Seq<Chapter>, depth: nat)
    ensures
        subdirs_outline(cs, depth).len() == entries_in_all(cs),
        subdirs_outline(cs, depth + 1) == all_deeper(subdirs_outline(cs, depth)),
        have_plain_titles(cs) ==> forall|i: int|
            0 <= i < subdirs_outline(cs, depth).len() ==> is_one_line(
                #[trigger] subdirs_outline(cs, depth)[i],
            ),
    decreases cs,
{
    let all = subdirs_outline(cs, depth);
    if cs.len() > 0 {
        let before = subdirs_outline(cs.drop_last(), depth);
        let last = outline(cs.last(), depth);
        lemma_subdirs_items(cs.drop_last(), depth);
        lemma_outline_items(cs.last(), depth);
        assert(all == before + last);
        assert(subdirs_outline(cs, depth + 1) == all_deeper(all));
        if have_plain_titles(cs) {
            assert forall|i: int| 0 <= i < all.len() implies is_one_line(#[trigger] all[i]) by {
                if i < before.len() {
                    assert(all[i] == before[i]);
                } else {
                    assert(all[i] == last[i - before.len()]);
                }
            }
        }
    } else {
        assert(subdirs_outline(cs, depth + 1) == all_deeper(all));
    }
}

/// One level deeper, the line of an item has two more spaces before it.
proof fn lemma_deeper_line(i: Item)
    ensures
        item_line(deeper(i)) == "  "@ + item_line(i),
{
    reveal_strlit("  ");
    assert(indentation(i.depth + 1) == "  "@ + indentation(i.depth));
    assert(item_line(deeper(i)) == "  "@ + item_line(i));
}

/// A sub-directory takes one line for itself and every directory in it, and one for every page
/// that is no index. One level deeper, each of these lines has two more spaces before it, and
/// nothing else changes.
pub proof fn law_deeper_lines_are_indented(c: Chapter, depth: nat)
    requires
        has_plain_titles(c),
    ensures
        ({
            let text = subdir_text(indentation(depth), c);
            let inner = subdir_text(indentation(depth + 1), c);
            &&& lines_of(text).len() == entries_in(c)
            &&& lines_of(inner) == Seq::new(lines_of(text).len(), |i: int| "  "@ + lines_of(text)[i])
            &&& text == unlines(lines_of(text))
            &&& inner == unlines(lines_of(inner))
        }),
{
    let text = subdir_text(indentation(depth), c);
    let inner = subdir_text(indentation(depth + 1), c);
    let items = outline(c, depth);
    let below = outline(c, depth + 1);
    lemma_outline(c, depth);
    lemma_outline(c, depth + 1);
    lemma_outline_items(c, depth);
    lemma_outline_items(c, depth + 1);
    lemma_outline_lines(items);
    lemma_outline_lines(below);
    law_lines_read_back(item_lines(items));
    law_lines_read_back(item_lines(below));
    assert forall|i: int| 0 <= i < items.len() implies #[trigger] item_lines(below)[i] == "  "@
        + item_lines(items)[i] by {
        assert(below[i] == deeper(items[i]));
        lemma_deeper_line(items[i]);
    }
    assert(lines_of(text) == item_lines(items));
    assert(lines_of(inner) == item_lines(below));
    assert(lines_of(inner) == Seq::new(lines_of(text).len(), |i: int| "  "@ + lines_of(text)[i]));
}

// ---------------------------------------------------------------------------
// Links and titles
// ---------------------------------------------------------------------------
/// A page is linked under its path: `./` and then a text that decodes to the path.
pub proof fn law_page_is_linked(rel: Seq<u8>)
    requires
        valid_utf8(rel),
    ensures
        page_url(rel).take(2) == seq!['.', '/'],
        percent_decoded(page_url(rel).skip(2)) == slashed(decode_utf8(rel)),
{
    let s = decode_utf8(rel);
    reveal_strlit("./");
    law_url_leads_to_path(s);
    assert(page_url(rel).skip(2) == url_path(s));
    assert(page_url(rel).take(2) == seq!['.', '/']);
}

/// The index page of the book goes by its heading, and without one by its file name without the
/// extension.
pub proof fn law_root_page_goes_by_its_heading(c: Chapter, base: Seq<u8>)
    requires
        base.len() > 0,
        valid_utf8(base),
        forall|i: int| 0 <= i < base.len() ==> #[trigger] base[i] != 47,
    ensures
        c.index_title matches Some(t) ==> root_title(c, base + seq![0x2eu8, 0x6du8, 0x64u8]) == t,
        c.index_title is None ==> root_title(c, base + seq![0x2eu8, 0x6du8, 0x64u8])
            == decode_utf8(base),
{
    let name = base + seq![0x2eu8, 0x6du8, 0x64u8];
    let ext = seq![0x6du8, 0x64u8];
    law_name_is_stem_and_extension(base, ext);
    assert(base + seq![46u8] + ext == name);
    assert forall|i: int| 0 <= i < name.len() implies #[trigger] name[i] != 47 by {
        if i < base.len() {
            assert(name[i] == base[i]);
        }
    }
    assert(name.len() > 2);
    law_file_name_is_last(name, name);
}

/// A line of the summary is the indentation, a hyphen, and a link with the title's link text and
/// the target.
pub proof fn law_item_is_a_link(pad: Seq<char>, title: Seq<char>, url: Seq<char>)
    ensures
        item_text(pad, title, url) == pad + seq!['-', ' ', '['] + link_text(title) + seq![']', '(']
            + url + seq![')', '\n'],
{
    reveal_strlit("- [");
    reveal_strlit("](");
    reveal_strlit(")\n");
    assert("- ["@ == seq!['-', ' ', '[']);
    assert("]("@ == seq![']', '(']);
    assert(")\n"@ == seq![')', '\n']);
}

} // verus!
