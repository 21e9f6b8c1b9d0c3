use std::collections::{BTreeMap, BTreeSet};

use mdp::chapter::{build_chapter_tree, ChapterTree};
use mdp::link::{escape_link_text, format_link_url};
use mdp::os_path::{extension_of, file_name_of, has_md_ext, is_inside, join_path, stem_of};
use mdp::preset::{list_md_files_set, mirror_md_files, removal_of, Crawl, Removal};
use mdp::summary::{emit_subdir, generate_summary};
use mdp::title::read_title;
use mdp::walk::{is_excluded_dir, walk_root, DirEntry, DirItem, DirRecord, Listing};

const ROOT: &str = "/r";

/// A directory tree: files with their contents, directories, and links with the canonical paths
/// that they lead to.
#[derive(Default)]
struct Tree {
    files: BTreeMap<String, String>,
    dirs: BTreeSet<String>,
    links: BTreeMap<String, (String, bool)>,
}

fn parent(path: &str) -> String {
    match path.rfind('/') {
        Some(i) => path[..i].to_string(),
        None => String::new(),
    }
}

fn base(path: &str) -> Vec<u8> {
    path[path.rfind('/').map_or(0, |i| i + 1)..].as_bytes().to_vec()
}

impl Tree {
    fn of(layout: &[(&str, &str)]) -> Tree {
        let mut t = Tree::default();
        for (path, content) in layout {
            t.add(path, content);
        }
        t
    }

    fn add(&mut self, path: &str, content: &str) {
        self.dir(&parent(path));
        self.files.insert(path.to_string(), content.to_string());
    }

    fn dir(&mut self, path: &str) {
        self.dirs.insert(path.to_string());
        if !path.is_empty() {
            self.dir(&parent(path));
        }
    }

    fn link(&mut self, path: &str, target: &str, dir: bool) {
        self.dir(&parent(path));
        self.links.insert(path.to_string(), (target.to_string(), dir));
    }

    /// The snapshot below `ROOT`, each directory listed from its last name to its first.
    fn snapshot(&self) -> Vec<DirRecord> {
        let mut records = Vec::new();
        for d in &self.dirs {
            let mut entries: BTreeMap<Vec<u8>, DirEntry> = BTreeMap::new();
            for s in self.dirs.iter().filter(|s| !s.is_empty() && parent(s) == *d) {
                entries.insert(base(s), entry(&base(s), false, Some(&format!("{ROOT}/{s}")), true, None));
            }
            for (f, content) in self.files.iter().filter(|(f, _)| parent(f) == *d) {
                entries.insert(
                    base(f),
                    entry(&base(f), false, Some(&format!("{ROOT}/{f}")), false, Some(content)),
                );
            }
            for (l, (target, dir)) in self.links.iter().filter(|(l, _)| parent(l) == *d) {
                entries.insert(base(l), entry(&base(l), true, Some(target), *dir, Some("# Linked")));
            }
            let items = entries.into_values().rev().map(DirItem::Entry).collect();
            let path = if d.is_empty() { ROOT.to_string() } else { format!("{ROOT}/{d}") };
            records.push(DirRecord { path: path.into_bytes(), listing: Listing::Items(items) });
        }
        records
    }
}

fn entry(
    name: &[u8],
    symlink: bool,
    canonical: Option<&str>,
    dir: bool,
    content: Option<&str>,
) -> DirEntry {
    DirEntry {
        name: name.to_vec(),
        symlink,
        canonical: canonical.map(|c| c.as_bytes().to_vec()),
        dir,
        content: content.map(|c| c.as_bytes().to_vec()),
    }
}

fn list(t: &Tree) -> Vec<String> {
    list_md_files_set(&t.snapshot(), ROOT.as_bytes())
        .unwrap()
        .into_iter()
        .map(|p| String::from_utf8(p).unwrap())
        .collect()
}

fn mirror(t: &Tree, present: &[&str]) -> BTreeSet<String> {
    let present: Vec<Vec<u8>> = present.iter().map(|p| p.as_bytes().to_vec()).collect();
    let plan = mirror_md_files(&t.snapshot(), ROOT.as_bytes(), &present);
    assert!(plan.failure.is_none());
    let n = plan.create.len();
    let set: BTreeSet<String> =
        plan.create.into_iter().map(|p| String::from_utf8(p).unwrap()).collect();
    assert_eq!(set.len(), n);
    set
}

fn set(paths: &[&str]) -> BTreeSet<String> {
    paths.iter().map(|p| p.to_string()).collect()
}

fn summary(t: &Tree) -> String {
    let has = t.files.contains_key("SUMMARY.md");
    match generate_summary(has, &t.snapshot(), ROOT.as_bytes(), ROOT.as_bytes()).unwrap() {
        Some(text) => text,
        None => t.files["SUMMARY.md"].clone(),
    }
}

fn build_summary(layout: &[(&str, &str)]) -> String {
    summary(&Tree::of(layout))
}

fn body_of(s: &str) -> Vec<String> {
    s.lines().filter(|l| l.contains("](")).map(String::from).collect()
}

// ---------------------------------------------------------------------------
// The walk
// ---------------------------------------------------------------------------

#[test]
fn is_excluded_dir_covers_common_noise() {
    for name in [
        "node_modules", "target", "dist", "build", "out",
        "venv", "__pycache__", "vendor", "Pods", "DerivedData",
        "bower_components", "coverage",
        ".git", ".svn", ".hg", ".idea", ".vscode",
        ".cache", ".venv", ".next", ".nuxt",
        ".pytest_cache", ".mypy_cache", ".ruff_cache",
        ".bin", ".wrangler", ".DS_Store",
    ] {
        assert!(is_excluded_dir(name), "{name} should be excluded");
    }
}

#[test]
fn is_excluded_dir_allows_content_dirs() {
    for name in [
        "docs", "src", "notes", "posts", "chapters",
        "nodemodules",
        "target-legacy",
        "my-build",
        "anything",
    ] {
        assert!(!is_excluded_dir(name), "{name} should NOT be excluded");
    }
}

#[test]
fn list_md_files_set_ignores_modify_only() {
    let mut t = Tree::of(&[("a.md", "# A"), ("sub/b.md", "# B")]);
    let before = list(&t);
    t.add("a.md", "# A — edited");
    let after = list(&t);
    assert_eq!(before, after, "modify-only must not change the set");
    assert_eq!(before, ["a.md", "sub/b.md"]);
}

#[test]
fn list_md_files_set_is_ordered_name_by_name() {
    let t = Tree::of(&[("a-z.md", ""), ("a/z.md", ""), ("a.md", ""), ("a/b/c.md", "")]);
    assert_eq!(list(&t), ["a/b/c.md", "a/z.md", "a-z.md", "a.md"]);
}

#[test]
fn list_md_files_set_detects_add_remove_rename() {
    let mut t = Tree::of(&[("a.md", "# A")]);
    let s0 = list(&t);
    assert_eq!(s0.len(), 1);

    t.add("b.md", "# B");
    let s1 = list(&t);
    assert_ne!(s0, s1);
    assert_eq!(s1.len(), 2);

    t.files.remove("b.md");
    t.add("c.md", "# B");
    let s2 = list(&t);
    assert_ne!(s1, s2);

    t.files.remove("a.md");
    let s3 = list(&t);
    assert_ne!(s2, s3);
    assert_eq!(s3.len(), 1);
}

#[test]
fn list_md_files_set_skips_excluded_dirs() {
    let t = Tree::of(&[
        ("keep.md", "# K"),
        ("node_modules/hidden.md", "# H"),
        ("target/hidden.md", "# H"),
        (".git/hidden.md", "# H"),
        (".config/hidden.md", "# H"),
    ]);
    assert_eq!(list(&t), ["keep.md"]);
}

#[test]
fn mirror_md_files_skips_excluded_dirs() {
    let t = Tree::of(&[
        ("keep.md", "# K"),
        ("sub/keep2.md", "# K2"),
        ("node_modules/hidden.md", "# H"),
        ("target/hidden.md", "# H"),
        (".git/hidden.md", "# H"),
        (".config/hidden.md", "# H"),
    ]);
    assert_eq!(mirror(&t, &[]), set(&["keep.md", "sub/keep2.md"]));
}

#[test]
fn mirror_md_files_survives_symlink_loop() {
    let mut t = Tree::of(&[("top.md", "# T"), ("pkg/README.md", "# R")]);
    t.link("pkg/node_modules/pkg", "/r/pkg", true);
    assert_eq!(mirror(&t, &[]), set(&["top.md", "pkg/README.md"]));
}

#[test]
fn mirror_md_files_rejects_symlink_escaping_root() {
    let mut t = Tree::of(&[("real.md", "# R")]);
    t.link("escaping.md", "/outside/secret.md", false);
    t.link("sibling.md", "/rr/secret.md", false);
    t.link("inside.md", "/r/real.md", false);
    assert_eq!(mirror(&t, &[]), set(&["inside.md", "real.md"]));
}

#[test]
fn mirror_md_files_is_idempotent() {
    let t = Tree::of(&[("a.md", "# A")]);
    assert_eq!(mirror(&t, &[]), set(&["a.md"]));
    assert_eq!(mirror(&t, &["a.md"]), set(&[]));
}

#[test]
fn mirror_md_files_detects_cyclic_symlink() {
    let mut t = Tree::of(&[("docs/a.md", "# A")]);
    t.link("docs/self", "/r/docs", true);
    assert_eq!(mirror(&t, &[]), set(&["docs/a.md"]));
}

#[test]
fn mirror_md_files_detects_cross_branch_cycle() {
    let mut t = Tree::of(&[("a.md", "# A"), ("shared/b.md", "# B")]);
    t.link("branch1", "/r/shared", true);
    t.link("branch2", "/r/shared", true);
    let found = mirror(&t, &[]);
    assert_eq!(found.len(), 2, "the shared directory once");
    assert!(found.contains("a.md"));
}

#[test]
fn mirror_md_files_detects_symlink_back_to_root() {
    let mut t = Tree::of(&[("a.md", "# A")]);
    t.link("loop", "/r", true);
    assert_eq!(mirror(&t, &[]), set(&["a.md"]));
}

#[test]
fn a_walk_finds_no_page_twice() {
    let mut t = Tree::of(&[("a.md", ""), ("x/a.md", ""), ("x/y/a.md", "")]);
    t.link("loop", "/r", true);
    t.link("x/up", "/r/x", true);
    t.link("x/y/again", "/r/x/y", true);
    t.link("z", "/r/x", true);
    let st = walk_root(&t.snapshot(), b"/r", true);
    let found: BTreeSet<Vec<u8>> = st.pages.iter().cloned().collect();
    assert_eq!(found.len(), st.pages.len());
    assert_eq!(found.len(), 3);
    let lenient = walk_root(&t.snapshot(), b"/r", false);
    assert_eq!(lenient.pages, st.pages);
}

#[test]
fn broken_links_and_other_files_are_passed_over() {
    let mut fs = Tree::of(&[("a.md", ""), ("a.txt", ""), ("md", ""), (".md", ""), ("b.MD", "")]).snapshot();
    if let Listing::Items(items) = &mut fs[0].listing {
        items.push(DirItem::Gone);
        items.push(DirItem::Entry(entry(b"broken.md", true, None, false, None)));
        items.push(DirItem::Entry(entry(b"lost", false, None, true, None)));
        items.push(DirItem::Entry(entry(b"n\xff.md", false, None, false, None)));
    }
    let found = list_md_files_set(&fs, b"/r").unwrap();
    assert_eq!(found, [b"a.md".to_vec(), b"n\xff.md".to_vec()]);
}

#[test]
fn a_failed_step_stops_the_mirror_but_not_the_list() {
    let items = vec![
        DirItem::Entry(entry(b"a.md", false, Some("/r/a.md"), false, None)),
        DirItem::Failed("disk".to_string()),
        DirItem::Entry(entry(b"b.md", false, Some("/r/b.md"), false, None)),
    ];
    let fs = vec![DirRecord { path: b"/r".to_vec(), listing: Listing::Items(items) }];
    assert_eq!(list_md_files_set(&fs, b"/r").unwrap().len(), 2);
    let plan = mirror_md_files(&fs, b"/r", &Vec::new());
    assert_eq!(plan.create, [b"a.md".to_vec()]);
    assert_eq!(plan.failure.unwrap(), "disk");
    assert_eq!(build_chapter_tree(&fs, b"/r", b"/r").err().unwrap(), "disk");
}

#[test]
fn a_directory_that_cannot_be_listed_stops_the_walk() {
    let mut fs = Tree::of(&[("sub/b.md", ""), ("z.md", "")]).snapshot();
    fs[1].listing = Listing::Failed("denied".to_string());
    assert_eq!(list_md_files_set(&fs, b"/r").err().unwrap(), "denied");
    let st = walk_root(&fs, b"/r", true);
    assert_eq!(st.pages, [b"z.md".to_vec()]);
    assert_eq!(st.failure.unwrap(), "denied");
    assert_eq!(generate_summary(false, &fs, b"/r", b"/r").err().unwrap(), "denied");
}

#[test]
fn a_missing_directory_holds_nothing() {
    let fs = vec![DirRecord { path: b"/r".to_vec(), listing: Listing::Missing }];
    assert!(list_md_files_set(&fs, b"/r").unwrap().is_empty());
    assert_eq!(generate_summary(false, &fs, b"/r", b"/r").unwrap().unwrap(), "# Summary\n\n");
}

#[test]
fn a_snapshot_asks_for_every_directory_once() {
    let mut t = Tree::of(&[("a.md", ""), ("x/b.md", ""), ("x/y/c.md", ""), ("target/d.md", "")]);
    t.link("loop", "/r", true);
    t.link("again", "/r/x", true);
    t.link("away", "/elsewhere", true);
    let all = t.snapshot();
    let mut crawl = Crawl::new(b"/r", b"/r");
    let mut asked = Vec::new();
    while let Some(d) = crawl.next_dir() {
        asked.push(String::from_utf8(d.clone()).unwrap());
        let at = t.snapshot().into_iter().find(|r| r.path == d).unwrap();
        crawl.supply(at.listing);
    }
    asked.sort();
    assert_eq!(asked, ["/r", "/r/x", "/r/x/y"]);
    assert_eq!(
        list_md_files_set(&crawl.records, b"/r").unwrap(),
        list_md_files_set(&all, b"/r").unwrap()
    );
}

#[test]
fn mirrored_entries_are_removed_without_following_links() {
    assert_eq!(removal_of(true, false), Removal::Tree);
    assert_eq!(removal_of(true, true), Removal::Entry);
    assert_eq!(removal_of(false, true), Removal::Entry);
    assert_eq!(removal_of(false, false), Removal::Entry);
}

// ---------------------------------------------------------------------------
// Titles
// ---------------------------------------------------------------------------

#[test]
fn read_title_handles_leading_whitespace_and_empty_file() {
    assert_eq!(
        read_title(b"   # With leading spaces\ncontent\n").as_deref(),
        Some("With leading spaces")
    );
    assert_eq!(read_title(b""), None);
    assert_eq!(read_title(b"no heading line\nwith text\n"), None);
    assert_eq!(read_title(b"intro\n# Later H1\nbody\n").as_deref(), Some("Later H1"));
}

#[test]
fn read_title_takes_top_level_headings_alone() {
    assert_eq!(read_title(b"## Two\n#Three\n#\n# \t x \r\n").as_deref(), Some("x"));
    assert_eq!(read_title(b"# ").as_deref(), Some(""));
    assert_eq!(read_title(b"bad \xff line\n# Title\n"), None);
    assert_eq!(read_title(b"# Title\nbad \xff line\n").as_deref(), Some("Title"));
}

// ---------------------------------------------------------------------------
// The summary
// ---------------------------------------------------------------------------

#[test]
fn summary_flat_preserves_index_first_then_alphabetical() {
    let s = build_summary(&[
        ("apple.md", "# Apple"),
        ("zebra.md", "# Zebra"),
        ("index.md", "# My Project"),
    ]);
    let lines: Vec<&str> = s.lines().filter(|l| l.starts_with("- ")).collect();
    assert_eq!(lines.len(), 3);
    assert_eq!(lines[0], "- [My Project](./index.md)");
    assert_eq!(lines[1], "- [Apple](./apple.md)");
    assert_eq!(lines[2], "- [Zebra](./zebra.md)");
}

#[test]
fn summary_nests_subdir_with_index() {
    let s = build_summary(&[
        ("index.md", "# Root"),
        ("sub/index.md", "# Sub Section"),
        ("sub/leaf.md", "# Leaf"),
    ]);
    let body = body_of(&s);
    assert_eq!(body[0], "- [Root](./index.md)");
    assert_eq!(body[1], "- [Sub Section](./sub/index.md)");
    assert_eq!(body[2], "  - [Leaf](./sub/leaf.md)");
}

#[test]
fn summary_emits_draft_chapter_for_dir_without_index() {
    let s = build_summary(&[
        ("index.md", "# Root"),
        ("subdir/sub.md", "# Sub Page"),
        ("subdir/nested/leaf.md", "# Nested Leaf"),
    ]);
    let body = body_of(&s);
    assert_eq!(body[0], "- [Root](./index.md)");
    assert_eq!(body[1], "- [subdir]()");
    assert_eq!(body[2], "  - [Sub Page](./subdir/sub.md)");
    assert_eq!(body[3], "  - [nested]()");
    assert_eq!(body[4], "    - [Nested Leaf](./subdir/nested/leaf.md)");
}

#[test]
fn summary_treats_readme_as_dir_index_fallback() {
    let s = build_summary(&[
        ("index.md", "# Root"),
        ("docs/README.md", "# Docs"),
        ("docs/details.md", "# Details"),
    ]);
    let body = body_of(&s);
    assert!(body.iter().any(|l| l == "- [Docs](./docs/README.md)"));
    assert!(body.iter().any(|l| l == "  - [Details](./docs/details.md)"));
}

#[test]
fn summary_index_md_wins_over_readme() {
    let s = build_summary(&[
        ("index.md", "# Root"),
        ("section/index.md", "# Section Index"),
        ("section/README.md", "# Section README"),
        ("section/leaf.md", "# Leaf"),
    ]);
    let body = body_of(&s);
    assert!(body.contains(&"- [Section Index](./section/index.md)".to_string()));
    assert!(!body.iter().any(|l| l.contains("./section/README.md")));
}

#[test]
fn summary_index_md_wins_over_readme_at_root() {
    let s = build_summary(&[
        ("index.md", "# Root Index"),
        ("README.md", "# Root README"),
        ("alpha.md", "# Alpha"),
    ]);
    let body = body_of(&s);
    assert!(body.iter().any(|l| l == "- [Root Index](./index.md)"));
    assert!(!body.iter().any(|l| l.contains("./README.md")));
}

#[test]
fn summary_uses_dir_name_when_no_index_or_readme() {
    let s = build_summary(&[("index.md", "# Root"), ("hollow/leaf.md", "# Leaf")]);
    assert!(body_of(&s).iter().any(|l| l == "- [hollow]()"));
}

#[test]
fn summary_falls_back_to_filestem_when_no_h1() {
    let s = build_summary(&[
        ("index.md", "# Root"),
        ("just-content.md", "no heading at all\n"),
    ]);
    assert!(body_of(&s).iter().any(|l| l == "- [just-content](./just-content.md)"));
}

#[test]
fn summary_url_encodes_path_special_chars() {
    let s = build_summary(&[
        ("index.md", "# Root"),
        ("file with spaces.md", "# Spaced"),
        ("paren (draft).md", "# Parens"),
    ]);
    assert!(s.contains("(./file%20with%20spaces.md)"), "expected percent-encoded space:\n{s}");
    assert!(s.contains("(./paren%20%28draft%29.md)"), "expected percent-encoded parens:\n{s}");
}

#[test]
fn summary_escapes_brackets_in_titles() {
    let s = build_summary(&[
        ("index.md", "# [Brackets] Inside"),
        ("a.md", "# Has [brackets] too"),
    ]);
    let body = body_of(&s);
    assert!(body[0].contains(r"\[Brackets\] Inside"), "got: {}", body[0]);
    assert!(body[1].contains(r"\[brackets\]"));
}

#[test]
fn summary_handles_korean_titles() {
    let s = build_summary(&[("index.md", "# 한글 문서"), ("그림자.md", "# 그림자 페이지")]);
    assert!(s.contains("[한글 문서]"));
    assert!(s.contains("[그림자 페이지]"));
    assert!(s.contains("(./%EA%B7%B8%EB%A6%BC%EC%9E%90.md)") || s.contains("(./그림자.md)"));
}

#[test]
fn summary_skips_summary_md_in_input() {
    let layout = [("index.md", "# Root"), ("SUMMARY.md", "preserved"), ("page.md", "# Page")];
    let s = build_summary(&layout);
    assert!(s.contains("preserved") || s.contains("- [Page]"));
    let fs = Tree::of(&layout).snapshot();
    let made = generate_summary(false, &fs, b"/r", b"/r").unwrap().unwrap();
    assert_eq!(made, "# Summary\n\n- [Root](./index.md)\n- [Page](./page.md)\n");
}

#[test]
fn summary_sort_groups_files_then_subdirs_at_each_level() {
    let s = build_summary(&[
        ("index.md", "# Root"),
        ("zeta.md", "# Zeta"),
        ("alpha.md", "# Alpha"),
        ("subdir/inner.md", "# Inner"),
    ]);
    let body = body_of(&s);
    assert_eq!(body[0], "- [Root](./index.md)");
    assert_eq!(body[1], "- [Alpha](./alpha.md)");
    assert_eq!(body[2], "- [Zeta](./zeta.md)");
    assert_eq!(body[3], "- [subdir]()");
    assert_eq!(body[4], "  - [Inner](./subdir/inner.md)");
}

#[test]
fn summary_deeply_nested_indents_correctly() {
    let s = build_summary(&[
        ("index.md", "# Root"),
        ("a/index.md", "# A"),
        ("a/b/index.md", "# B"),
        ("a/b/c/index.md", "# C"),
        ("a/b/c/leaf.md", "# Leaf"),
    ]);
    let body = body_of(&s);
    assert_eq!(body[0], "- [Root](./index.md)");
    assert_eq!(body[1], "- [A](./a/index.md)");
    assert_eq!(body[2], "  - [B](./a/b/index.md)");
    assert_eq!(body[3], "    - [C](./a/b/c/index.md)");
    assert_eq!(body[4], "      - [Leaf](./a/b/c/leaf.md)");
}

#[test]
fn summary_drops_empty_subdirs_with_no_md() {
    let mut t = Tree::of(&[("index.md", "# R")]);
    t.dir("empty/inner");
    let s = summary(&t);
    assert!(!s.contains("empty"), "empty dirs should not appear:\n{s}");
}

#[test]
fn summary_respects_existing_user_summary() {
    let custom = "# Summary\n\n- [Custom](./index.md)\n";
    let s = build_summary(&[("index.md", "# R"), ("SUMMARY.md", custom)]);
    assert_eq!(s, custom);
}

#[test]
fn summary_handles_cyclic_symlink_without_infinite_loop() {
    let mut t = Tree::of(&[("index.md", "# Root"), ("docs/leaf.md", "# Leaf")]);
    t.link("docs/self", "/r/docs", true);
    let s = summary(&t);
    let count = s.matches("./docs/leaf.md").count();
    assert_eq!(count, 1, "leaf.md must appear exactly once:\n{s}");
}

#[test]
fn summary_rejects_symlinks_escaping_root() {
    let mut t = Tree::of(&[("index.md", "# Root")]);
    t.link("link.md", "/outside/secret.md", false);
    let s = summary(&t);
    assert!(!s.contains("link.md"), "escaping symlink leaked into SUMMARY:\n{s}");
    assert!(!s.contains("secret"), "secret.md content leaked:\n{s}");
}

#[test]
fn summary_names_pages_that_have_no_readable_name() {
    let items = vec![
        DirItem::Entry(entry(b"README.md", false, None, false, Some("text"))),
        DirItem::Entry(entry(b"\xff.md", false, None, false, Some("text"))),
    ];
    let fs = vec![DirRecord { path: b"/r".to_vec(), listing: Listing::Items(items) }];
    assert_eq!(
        generate_summary(false, &fs, b"/r", b"/r").unwrap().unwrap(),
        "# Summary\n\n- [README](./README.md)\n- [untitled](./\u{fffd}.md)\n"
    );
}

#[test]
fn chapters_are_tidy_at_every_level() {
    let mut t = Tree::of(&[("b/z.md", ""), ("b/a.md", ""), ("a/c/d.md", ""), ("a/b/e.md", "")]);
    t.dir("a/empty");
    let tree = build_chapter_tree(&t.snapshot(), b"/r", b"/r").unwrap();
    assert!(!tree.is_empty());
    assert_eq!(tree.name, "r");
    let names: Vec<&str> = tree.subdirs.iter().map(|c| c.name.as_str()).collect();
    assert_eq!(names, ["a", "b"]);
    let inner: Vec<&str> = tree.subdirs[0].subdirs.iter().map(|c| c.name.as_str()).collect();
    assert_eq!(inner, ["b", "c"]);
    let files: Vec<&str> = tree.subdirs[1].files.iter().map(|f| f.title.as_str()).collect();
    assert_eq!(files, ["a", "z"]);
    assert_eq!(tree.subdirs[1].files[0].rel, b"b/a.md");
}

fn tree_pages(tree: &ChapterTree) -> Vec<Vec<u8>> {
    let mut pages: Vec<Vec<u8>> = tree.index_rel.iter().cloned().collect();
    pages.extend(tree.files.iter().map(|f| f.rel.clone()));
    for sub in &tree.subdirs {
        pages.extend(tree_pages(sub));
    }
    pages
}

#[test]
fn the_tree_has_the_listed_pages() {
    let t = Tree::of(&[
        ("index.md", ""),
        ("README.md", ""),
        ("SUMMARY.md", ""),
        ("a/README.md", ""),
        ("a/SUMMARY.md", ""),
        ("a/b/x.md", ""),
        ("a/index.md/README.md", ""),
        ("vendor/no.md", ""),
    ]);
    let fs = t.snapshot();
    let mut pages = tree_pages(&build_chapter_tree(&fs, b"/r", b"/r").unwrap());
    pages.sort();
    let mut want: Vec<Vec<u8>> = list_md_files_set(&fs, b"/r")
        .unwrap()
        .into_iter()
        .filter(|p| p != b"README.md" && p != b"SUMMARY.md" && p != b"a/SUMMARY.md")
        .collect();
    want.sort();
    assert_eq!(pages, want);
    assert_eq!(want.len(), 4);
}

#[test]
fn one_level_deeper_is_two_spaces_more() {
    let t = Tree::of(&[("s/a.md", "# A"), ("s/t/b.md", "# B"), ("s/t/index.md", "# T")]);
    let tree = build_chapter_tree(&t.snapshot(), b"/r", b"/r").unwrap();
    let mut outer = String::new();
    emit_subdir(&mut outer, &tree.subdirs[0], "");
    let mut inner = String::from("kept\n");
    emit_subdir(&mut inner, &tree.subdirs[0], "  ");
    let want: String = outer.lines().map(|l| format!("  {l}\n")).collect();
    assert_eq!(inner, format!("kept\n{want}"));
    assert_eq!(outer.lines().count(), 4);
}

#[test]
fn a_cleared_mirror_is_filled_with_the_listed_pages() {
    let mut t = Tree::of(&[("a.md", ""), ("SUMMARY.md", ""), ("x/b.md", ""), ("dist/c.md", "")]);
    t.link("x/up", "/r", true);
    let created: BTreeSet<String> = mirror(&t, &[]);
    assert_eq!(created, list(&t).into_iter().collect());
}

// ---------------------------------------------------------------------------
// Links and paths
// ---------------------------------------------------------------------------

#[test]
fn format_link_url_normalizes_separators_on_windows_paths() {
    let url = format_link_url("a\\b\\c.md");
    assert_eq!(url, "./a/b/c.md");
}

#[test]
fn escape_link_text_handles_backticks_and_backslash() {
    assert_eq!(escape_link_text("plain"), "plain");
    assert_eq!(escape_link_text("with [bracket]"), r"with \[bracket\]");
    assert_eq!(escape_link_text("a\\b"), r"a\\b");
    assert_eq!(escape_link_text("with `code`"), r"with \`code\`");
    assert_eq!(escape_link_text("paren (foo)"), "paren (foo)");
    assert_eq!(
        escape_link_text("<script>alert(1)</script>"),
        "&lt;script&gt;alert(1)&lt;/script&gt;"
    );
}

#[test]
fn format_link_url_encodes_backtick_and_angle_brackets() {
    let url = format_link_url("a`b<c>.md");
    assert_eq!(url, "./a%60b%3Cc%3E.md");
}

#[test]
fn format_link_url_encodes_control_chars() {
    let url = format_link_url("a\tb.md");
    assert_eq!(url, "./a%09b.md");
}

#[test]
fn format_link_url_preserves_utf8_path_bytes() {
    let url = format_link_url("그림자.md");
    assert!(url.starts_with("./"));
    assert_eq!(&url[2..], "그림자.md");
}

#[test]
fn format_link_url_encodes_every_other_ascii_character() {
    assert_eq!(format_link_url("aZ09/-._~"), "./aZ09/-._~");
    assert_eq!(format_link_url("%#?&\u{7f}"), "./%25%23%3F%26%7F");
}

#[test]
fn paths_are_taken_apart_by_their_bytes() {
    assert_eq!(file_name_of(b"/a/b.md").unwrap(), b"b.md");
    assert_eq!(file_name_of(b"/"), None);
    assert_eq!(file_name_of(b"a/.."), None);
    assert_eq!(file_name_of(b"a/b/").unwrap(), b"b");
    assert_eq!(extension_of(b"a.b.md").unwrap(), b"md");
    assert_eq!(extension_of(b".md"), None);
    assert_eq!(extension_of(b"a"), None);
    assert_eq!(stem_of(b"a.b.md"), b"a.b");
    assert_eq!(stem_of(b".md"), b".md");
    assert!(has_md_ext(b"x.md") && !has_md_ext(b"x.mdx") && !has_md_ext(b"x.MD"));
    assert_eq!(join_path(b"a", b"b"), b"a/b");
    assert_eq!(join_path(b"", b"b"), b"b");
    assert!(is_inside(b"/a/b/c", b"/a/b") && is_inside(b"/a/b", b"/a/b"));
    assert!(!is_inside(b"/a/bc", b"/a/b") && !is_inside(b"/a", b"/a/b"));
}
