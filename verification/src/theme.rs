//! The files that come with the program, and what a book takes from them.

use vstd::prelude::*;

use crate::config::{BookConfig, Config};
use crate::text::{
    law_first_occurrence_is_replaced, law_text_before_pattern_stays, replace, replaced, same_str,
};
use crate::toml_text::{strip_controls, toml_body, toml_string_body, without_controls};
use crate::utf8::{from_utf8, utf8};

verus! {

/// One file that comes with the program.
pub struct Asset {
    /// Its path, relative to the directory of all such files.
    pub path: String,
    /// What it holds.
    pub data: Vec<u8>,
}

/// The files that come with the program.
pub struct Assets {
    /// The files, in the order in which they are listed.
    pub files: Vec<Asset>,
}

/// What the first of the given files with the given path holds.
pub open spec fn asset_at(files: Seq<Asset>, path: Seq<char>) -> Option<Seq<u8>>
    decreases files.len(),
{
    if files.len() == 0 {
        None
    } else if files[0].path@ == path {
        Some(files[0].data@)
    } else {
        asset_at(files.skip(1), path)
    }
}

/// The view of an optional byte slice.
pub open spec fn opt_slice(b: Option<&[u8]>) -> Option<Seq<u8>> {
    match b {
        Some(s) => Some(s@),
        None => None,
    }
}

impl Assets {
    /// What the file at `path` holds, if there is such a file.
    pub fn get(&self, path: &str) -> (r: Option<&[u8]>)
        ensures
            opt_slice(r) == asset_at(self.files@, path@),
    {
        let mut i: usize = 0;
        assert(self.files@.skip(0) == self.files@);
        while i < self.files.len()
            invariant
                0 <= i <= self.files@.len(),
                asset_at(self.files@.skip(i as int), path@) == asset_at(self.files@, path@),
            decreases self.files@.len() - i,
        {
            assert(self.files@.skip(i as int).skip(1) == self.files@.skip(i + 1));
            if same_str(self.files[i].path.as_str(), path) {
                return Some(self.files[i].data.as_slice());
            }
            i += 1;
        }
        assert(self.files@.skip(i as int).len() == 0);
        None
    }
}

// ---------------------------------------------------------------------------
// book.toml
// ---------------------------------------------------------------------------
/// Why a text cannot be made of one of the program's files.
#[derive(Debug)]
pub enum AssetError {
    /// There is no such file.
    Missing,
    /// The file is not valid UTF-8.
    NotUtf8,
}

/// The template `t` with its placeholders filled from the configuration, one after the other.
/// Four of them stand inside quotes; the source directory stands in a comment.
pub open spec fn filled(t: Seq<char>, c: Config) -> Seq<char> {
    let t = replaced(t, "{{TITLE}}"@, toml_body(c.title));
    let t = replaced(t, "{{AUTHOR}}"@, toml_body(c.author));
    let t = replaced(t, "{{LANGUAGE}}"@, toml_body(c.language));
    let t = replaced(t, "{{PLANTUML_SERVER}}"@, toml_body(c.plantuml_server));
    replaced(t, "{{SRC_DIR}}"@, without_controls(c.src_dir_display))
}

/// Fills the placeholders of the template `tmpl` from the configuration.
pub fn fill_template(tmpl: &str, cfg: &BookConfig) -> (r: String)
    ensures
        r@ == filled(tmpl@, cfg@),
{
    proof {
        reveal_strlit("{{TITLE}}");
        reveal_strlit("{{AUTHOR}}");
        reveal_strlit("{{LANGUAGE}}");
        reveal_strlit("{{PLANTUML_SERVER}}");
        reveal_strlit("{{SRC_DIR}}");
    }
    let t = replace(tmpl, "{{TITLE}}", toml_string_body(cfg.title.as_str()).as_str());
    let t = replace(t.as_str(), "{{AUTHOR}}", toml_string_body(cfg.author.as_str()).as_str());
    let t = replace(t.as_str(), "{{LANGUAGE}}", toml_string_body(cfg.language.as_str()).as_str());
    let t = replace(
        t.as_str(),
        "{{PLANTUML_SERVER}}",
        toml_string_body(cfg.plantuml_server.as_str()).as_str(),
    );
    replace(t.as_str(), "{{SRC_DIR}}", strip_controls(cfg.src_dir_display.as_str()).as_str())
}

/// The text of the `book.toml` of a book with the given configuration.
pub fn write_book_toml(assets: &Assets, cfg: &BookConfig) -> (r: Result<String, AssetError>)
    ensures
        match asset_at(assets.files@, "book-toml/book.toml.tmpl"@) {
            None => r == Err::<String, AssetError>(AssetError::Missing),
            Some(data) => match utf8(data) {
                None => r == Err::<String, AssetError>(AssetError::NotUtf8),
                Some(t) => r matches Ok(s) && s@ == filled(t, cfg@),
            },
        },
{
    match assets.get("book-toml/book.toml.tmpl") {
        None => Err(AssetError::Missing),
        Some(data) => match from_utf8(data) {
            None => Err(AssetError::NotUtf8),
            Some(tmpl) => Ok(fill_template(tmpl, cfg)),
        },
    }
}

// ---------------------------------------------------------------------------
// Theme files
// ---------------------------------------------------------------------------
/// A file of a book's `theme` directory.
pub struct ThemeFile {
    /// Its name.
    pub name: String,
    /// What it holds.
    pub data: Vec<u8>,
}

/// Names and contents of theme files.
pub open spec fn theme_views(v: Seq<ThemeFile>) -> Seq<(Seq<char>, Seq<u8>)> {
    Seq::new(v.len(), |i: int| (v[i].name@, v[i].data@))
}

/// The paths of the program's files that a theme is made of, each with its name there.
pub open spec fn theme_table() -> Seq<(Seq<char>, Seq<char>)> {
    seq![
        ("themes/julian.jee/css/variables.css"@, "julian-jee-variables.css"@),
        ("themes/julian.jee/css/general.css"@, "julian-jee-general.css"@),
        ("themes/julian.jee/css/breadcrumb.css"@, "mdp-breadcrumb.css"@),
        ("themes/julian.jee/js/breadcrumb.js"@, "mdp-breadcrumb.js"@),
    ]
}

/// The theme files that the table names, or the first path that is not among the program's
/// files.
pub open spec fn installed(files: Seq<Asset>, table: Seq<(Seq<char>, Seq<char>)>) -> Result<
    Seq<(Seq<char>, Seq<u8>)>,
    Seq<char>,
>
    decreases table.len(),
{
    if table.len() == 0 {
        Ok(seq![])
    } else {
        match asset_at(files, table[0].0) {
            None => Err(table[0].0),
            Some(data) => match installed(files, table.skip(1)) {
                Ok(rest) => Ok(seq![(table[0].1, data)] + rest),
                Err(p) => Err(p),
            },
        }
    }
}

/// The files of a book's `theme` directory, or the path of the first that is missing from the
/// program's files.
pub fn install_theme(assets: &Assets) -> (r: Result<Vec<ThemeFile>, String>)
    ensures
        match installed(assets.files@, theme_table()) {
            Ok(fs) => r matches Ok(v) && theme_views(v@) == fs,
            Err(p) => r matches Err(e) && e@ == p,
        },
{
    let table: [(&str, &str); 4] = [
        ("themes/julian.jee/css/variables.css", "julian-jee-variables.css"),
        ("themes/julian.jee/css/general.css", "julian-jee-general.css"),
        ("themes/julian.jee/css/breadcrumb.css", "mdp-breadcrumb.css"),
        ("themes/julian.jee/js/breadcrumb.js", "mdp-breadcrumb.js"),
    ];
    let ghost want = installed(assets.files@, theme_table());
    let mut out: Vec<ThemeFile> = Vec::new();
    let mut i: usize = 0;
    assert(theme_table().skip(0) == theme_table());
    assert(want matches Ok(fs) ==> theme_views(out@) + fs == fs);
    while i < 4
        invariant
            0 <= i <= 4,
            theme_table().len() == 4,
            forall|j: int|
                0 <= j < 4 ==> (#[trigger] table@[j]).0@ == theme_table()[j].0 && table@[j].1@
                    == theme_table()[j].1,
            want == installed(assets.files@, theme_table()),
            match installed(assets.files@, theme_table().skip(i as int)) {
                Ok(rest) => want matches Ok(fs) && theme_views(out@) + rest == fs,
                Err(p) => want matches Err(q) && q == p,
            },
        decreases 4 - i,
    {
        let ghost rest = theme_table().skip(i as int);
        let ghost before = theme_views(out@);
        assert(rest.skip(1) == theme_table().skip(i + 1));
        let (src, name) = table[i];
        assert(table@[i as int].0@ == rest[0].0);
        match assets.get(src) {
            None => {
                return Err(src.to_owned());
            },
            Some(data) => {
                let file = ThemeFile {
                    name: name.to_owned(),
                    data: vstd::slice::slice_to_vec(data),
                };
                out.push(file);
                assert(theme_views(out@) == before.push((rest[0].1, data@)));
                proof {
                    match installed(assets.files@, rest.skip(1)) {
                        Ok(more) => {
                            assert(before + (seq![(rest[0].1, data@)] + more) == before.push(
                                (rest[0].1, data@),
                            ) + more);
                        },
                        Err(_) => {},
                    }
                }
            },
        }
        i += 1;
    }
    assert(theme_table().skip(4).len() == 0);
    assert(want matches Ok(fs) && theme_views(out@) == fs);
    Ok(out)
}

// ---------------------------------------------------------------------------
// Laws
// ---------------------------------------------------------------------------
/// A file is the first one with its path, and there is none where no file has it.
pub proof fn law_first_file_counts(files: Seq<Asset>, path: Seq<char>, i: int)
    requires
        0 <= i <= files.len(),
        forall|j: int| 0 <= j < i ==> (#[trigger] files[j]).path@ != path,
        i < files.len() ==> files[i].path@ == path,
    ensures
        i < files.len() ==> asset_at(files, path) == Some(files[i].data@),
        i == files.len() ==> asset_at(files, path) is None,
    decreases i,
{
    if i > 0 {
        assert(files[0].path@ != path);
        let rest = files.skip(1);
        assert forall|j: int| 0 <= j < i - 1 implies (#[trigger] rest[j]).path@ != path by {
            assert(rest[j] == files[j + 1]);
        }
        law_first_file_counts(rest, path, i - 1);
    }
}

/// A theme has one file for each path of the table, under the name that stands beside the path,
/// with the contents of the program's file; or it has none, and the first path that the program
/// has no file for is named.
pub proof fn law_theme_has_its_files(files: Seq<Asset>, table: Seq<(Seq<char>, Seq<char>)>)
    ensures
        match installed(files, table) {
            Ok(out) => out.len() == table.len() && forall|i: int|
                0 <= i < table.len() ==> (#[trigger] out[i]).0 == table[i].1 && asset_at(
                    files,
                    table[i].0,
                ) == Some(out[i].1),
            Err(p) => exists|i: int|
                0 <= i < table.len() && (#[trigger] table[i]).0 == p && asset_at(files, p) is None
                    && forall|j: int|
                    0 <= j < i ==> asset_at(files, (#[trigger] table[j]).0) is Some,
        },
    decreases table.len(),
{
    if table.len() > 0 && asset_at(files, table[0].0) is Some {
        let rest = table.skip(1);
        law_theme_has_its_files(files, rest);
        match installed(files, table) {
            Ok(out) => {
                let more = installed(files, rest)->Ok_0;
                assert forall|i: int| 0 <= i < table.len() implies (#[trigger] out[i]).0
                    == table[i].1 && asset_at(files, table[i].0) == Some(out[i].1) by {
                    if i > 0 {
                        assert(out[i] == more[i - 1]);
                        assert(table[i] == rest[i - 1]);
                    }
                }
            },
            Err(p) => {
                let k = choose|i: int|
                    0 <= i < rest.len() && (#[trigger] rest[i]).0 == p && asset_at(files, p)
                        is None && forall|j: int|
                        0 <= j < i ==> asset_at(files, (#[trigger] rest[j]).0) is Some;
                assert(table[k + 1] == rest[k]);
                assert forall|j: int| 0 <= j < k + 1 implies asset_at(
                    files,
                    (#[trigger] table[j]).0,
                ) is Some by {
                    if j > 0 {
                        assert(table[j] == rest[j - 1]);
                    }
                }
            },
        }
    } else if table.len() > 0 {
        assert(table[0].0 == installed(files, table)->Err_0);
    }
}

/// The text holds no opening brace.
pub open spec fn is_braceless(s: Seq<char>) -> bool {
    forall|i: int| 0 <= i < s.len() ==> #[trigger] s[i] != '{'
}

/// A text without opening braces stays before what follows it.
proof fn lemma_braceless_stays(a: Seq<char>, b: Seq<char>, pat: Seq<char>, by: Seq<char>)
    requires
        is_braceless(a),
        pat.len() > 0,
        pat[0] == '{',
    ensures
        replaced(a + b, pat, by) == a + replaced(b, pat, by),
{
    assert forall|i: int| 0 <= i < a.len() implies !pat.is_prefix_of(
        #[trigger] (a + b).skip(i),
    ) by {
        if pat.is_prefix_of((a + b).skip(i)) {
            assert(pat[0] == (a + b).skip(i).take(pat.len() as int)[0]);
            assert((a + b).skip(i)[0] == a[i]);
        }
    }
    law_text_before_pattern_stays(a, b, pat, by);
}

/// The name stands in double braces: two opening ones and no others.
pub open spec fn is_placeholder(p: Seq<char>) -> bool {
    p.len() > 2 && p[0] == '{' && p[1] == '{' && forall|i: int|
        2 <= i < p.len() ==> #[trigger] p[i] != '{'
}

/// One placeholder is not taken for another.
proof fn lemma_placeholder_stays(p: Seq<char>, b: Seq<char>, pat: Seq<char>, by: Seq<char>)
    requires
        is_placeholder(p),
        is_placeholder(pat),
        p[2] != pat[2],
    ensures
        replaced(p + b, pat, by) == p + replaced(b, pat, by),
{
    let s = p + b;
    assert forall|i: int| 0 <= i < p.len() implies !pat.is_prefix_of(#[trigger] s.skip(i)) by {
        if pat.is_prefix_of(s.skip(i)) {
            let t = s.skip(i).take(pat.len() as int);
            assert(pat == t);
            assert(t[0] == p[i]);
            if i == 0 {
                assert(t[2] == p[2]);
            } else if i == 1 {
                assert(t[1] == p[2]);
            }
        }
    }
    law_text_before_pattern_stays(p, b, pat, by);
}

/// A placeholder at the front is replaced.
proof fn lemma_placeholder_is_replaced(pat: Seq<char>, b: Seq<char>, by: Seq<char>)
    requires
        pat.len() > 0,
    ensures
        replaced(pat + b, pat, by) == by + replaced(b, pat, by),
{
    let none = Seq::<char>::empty();
    law_first_occurrence_is_replaced(none, pat, b, by);
    assert(none + pat + b == pat + b);
    assert(none + by + replaced(b, pat, by) == by + replaced(b, pat, by));
}

/// The placeholders, and that they differ in the first letter of their names.
proof fn lemma_placeholders()
    ensures
        is_placeholder("{{TITLE}}"@) && "{{TITLE}}"@[2] == 'T',
        is_placeholder("{{AUTHOR}}"@) && "{{AUTHOR}}"@[2] == 'A',
        is_placeholder("{{LANGUAGE}}"@) && "{{LANGUAGE}}"@[2] == 'L',
        is_placeholder("{{PLANTUML_SERVER}}"@) && "{{PLANTUML_SERVER}}"@[2] == 'P',
        is_placeholder("{{SRC_DIR}}"@) && "{{SRC_DIR}}"@[2] == 'S',
{
    reveal_strlit("{{TITLE}}");
    reveal_strlit("{{AUTHOR}}");
    reveal_strlit("{{LANGUAGE}}");
    reveal_strlit("{{PLANTUML_SERVER}}");
    reveal_strlit("{{SRC_DIR}}");
}

/// Filling a template replaces each placeholder, wherever and however often it stands, by its
/// value: the title, the author, the language and the server as the bodies of TOML strings, and
/// the source directory without control characters. All other text stays. So it is, at the least,
/// for values without opening braces: a value with one could itself hold a placeholder.
pub proof fn law_template_is_filled(a: Seq<char>, rest: Seq<char>, c: Config)
    requires
        is_braceless(a),
        is_braceless(toml_body(c.title)),
        is_braceless(toml_body(c.author)),
        is_braceless(toml_body(c.language)),
        is_braceless(toml_body(c.plantuml_server)),
        is_braceless(without_controls(c.src_dir_display)),
    ensures
        filled(Seq::<char>::empty(), c) == Seq::<char>::empty(),
        filled(a + rest, c) == a + filled(rest, c),
        filled("{{TITLE}}"@ + rest, c) == toml_body(c.title) + filled(rest, c),
        filled("{{AUTHOR}}"@ + rest, c) == toml_body(c.author) + filled(rest, c),
        filled("{{LANGUAGE}}"@ + rest, c) == toml_body(c.language) + filled(rest, c),
        filled("{{PLANTUML_SERVER}}"@ + rest, c) == toml_body(c.plantuml_server) + filled(rest, c),
        filled("{{SRC_DIR}}"@ + rest, c) == without_controls(c.src_dir_display) + filled(rest, c),
{
    lemma_placeholders();
    let (p1, b1) = ("{{TITLE}}"@, toml_body(c.title));
    let (p2, b2) = ("{{AUTHOR}}"@, toml_body(c.author));
    let (p3, b3) = ("{{LANGUAGE}}"@, toml_body(c.language));
    let (p4, b4) = ("{{PLANTUML_SERVER}}"@, toml_body(c.plantuml_server));
    let (p5, b5) = ("{{SRC_DIR}}"@, without_controls(c.src_dir_display));
    let r1 = replaced(rest, p1, b1);
    let r2 = replaced(r1, p2, b2);
    let r3 = replaced(r2, p3, b3);
    let r4 = replaced(r3, p4, b4);
    lemma_braceless_stays(a, rest, p1, b1);
    lemma_braceless_stays(a, r1, p2, b2);
    lemma_braceless_stays(a, r2, p3, b3);
    lemma_braceless_stays(a, r3, p4, b4);
    lemma_braceless_stays(a, r4, p5, b5);

    lemma_placeholder_is_replaced(p1, rest, b1);
    lemma_braceless_stays(b1, r1, p2, b2);
    lemma_braceless_stays(b1, r2, p3, b3);
    lemma_braceless_stays(b1, r3, p4, b4);
    lemma_braceless_stays(b1, r4, p5, b5);

    lemma_placeholder_stays(p2, rest, p1, b1);
    lemma_placeholder_is_replaced(p2, r1, b2);
    lemma_braceless_stays(b2, r2, p3, b3);
    lemma_braceless_stays(b2, r3, p4, b4);
    lemma_braceless_stays(b2, r4, p5, b5);

    lemma_placeholder_stays(p3, rest, p1, b1);
    lemma_placeholder_stays(p3, r1, p2, b2);
    lemma_placeholder_is_replaced(p3, r2, b3);
    lemma_braceless_stays(b3, r3, p4, b4);
    lemma_braceless_stays(b3, r4, p5, b5);

    lemma_placeholder_stays(p4, rest, p1, b1);
    lemma_placeholder_stays(p4, r1, p2, b2);
    lemma_placeholder_stays(p4, r2, p3, b3);
    lemma_placeholder_is_replaced(p4, r3, b4);
    lemma_braceless_stays(b4, r4, p5, b5);

    lemma_placeholder_stays(p5, rest, p1, b1);
    lemma_placeholder_stays(p5, r1, p2, b2);
    lemma_placeholder_stays(p5, r2, p3, b3);
    lemma_placeholder_stays(p5, r3, p4, b4);
    lemma_placeholder_is_replaced(p5, r4, b5);
}

} // verus!
