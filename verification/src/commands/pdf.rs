//! PDF books: what a build needs, and the `book.toml` that it uses.

use vstd::prelude::*;

use crate::commands::{missing, missing_of, registration, registration_of};
use crate::text::{join, joined, law_part_occurs, lines_of, occurs, same_str, texts, unlines};
use crate::toml_text::{
    basic_string, ends_in_cr, header, in_section, is_stripped, kept, law_basic_string_reads_back,
    law_plain_text_is_its_body, law_preprocessors_are_stripped, law_sections_lie_within,
    law_strip_keeps_lines, preprocessor_keys, str_texts, strip_preprocessor_blocks, strip_sections,
    stripped,
};
use crate::utf8::{lossy_string, lossy_text};

verus! {

// ---------------------------------------------------------------------------
// What a build needs
// ---------------------------------------------------------------------------
/// The formats that pandoc may be asked for.
pub open spec fn formats() -> Seq<Seq<char>> {
    seq![
        "latex"@,
        "html"@,
        "html5"@,
        "pdf"@,
        "docx"@,
        "epub"@,
        "epub3"@,
        "markdown"@,
        "markdown_strict"@,
        "markdown_github"@,
        "gfm"@,
        "plain"@,
        "rst"@,
        "commonmark"@,
        "commonmark_x"@,
    ]
}

/// The formats that pandoc may be asked for.
fn format_list() -> (r: Vec<String>)
    ensures
        texts(r@) == formats(),
{
    let mut r: Vec<String> = Vec::new();
    r.push("latex".to_owned());
    r.push("html".to_owned());
    r.push("html5".to_owned());
    r.push("pdf".to_owned());
    r.push("docx".to_owned());
    r.push("epub".to_owned());
    r.push("epub3".to_owned());
    r.push("markdown".to_owned());
    r.push("markdown_strict".to_owned());
    r.push("markdown_github".to_owned());
    r.push("gfm".to_owned());
    r.push("plain".to_owned());
    r.push("rst".to_owned());
    r.push("commonmark".to_owned());
    r.push("commonmark_x".to_owned());
    assert(texts(r@) == formats());
    r
}

/// Checks that pandoc may be asked for the format `to`: it will stand inside a TOML string. The
/// error lists the formats that it may be asked for.
pub fn check_format(to: &str) -> (r: Result<(), String>)
    ensures
        r is Ok <==> formats().contains(to@),
        r matches Err(e) ==> e@ == joined(formats(), ", "@),
{
    let list = format_list();
    for i in 0..list.len()
        invariant
            texts(list@) == formats(),
            forall|j: int| 0 <= j < i ==> #[trigger] formats()[j] != to@,
    {
        assert(formats()[i as int] == list@[i as int]@);
        if same_str(list[i].as_str(), to) {
            return Ok(());
        }
    }
    assert(texts(list@).len() == list@.len());
    Err(join(&list, ", "))
}

/// The programs without which there is no PDF.
pub open spec fn required_tools() -> Seq<Seq<char>> {
    seq!["mdbook"@, "mdbook-pandoc"@, "pandoc"@]
}

/// The programs without which there is no PDF.
pub fn tools() -> (r: Vec<&'static str>)
    ensures
        str_texts(r@) == required_tools(),
{
    let mut r: Vec<&'static str> = Vec::new();
    r.push("mdbook");
    r.push("mdbook-pandoc");
    r.push("pandoc");
    assert(str_texts(r@) == required_tools());
    r
}

/// What to tell a user who lacks the programs `names`.
pub open spec fn missing_text(names: Seq<Seq<char>>) -> Seq<char> {
    "missing tools: "@ + joined(names, ", "@)
        + ". install with: cargo install mdbook-pandoc (+ system pandoc)"@
}

/// Checks that the programs without which there is no PDF were found; `found` says of each
/// whether it was.
pub fn ensure_deps(found: &[bool]) -> (r: Result<(), String>)
    requires
        found@.len() == required_tools().len(),
    ensures
        ({
            let names = missing_of(required_tools(), found@);
            if names.len() == 0 {
                r is Ok
            } else {
                r matches Err(e) && e@ == missing_text(names)
            }
        }),
{
    let required = tools();
    assert(str_texts(required@).len() == required@.len());
    let names = missing(required.as_slice(), found);
    assert(texts(names@).len() == names@.len());
    if names.len() == 0 {
        return Ok(());
    }
    let mut out = String::new();
    out.append("missing tools: ");
    out.append(join(&names, ", ").as_str());
    out.append(". install with: cargo install mdbook-pandoc (+ system pandoc)");
    assert(out@ == missing_text(texts(names@)));
    Err(out)
}

/// What to tell a user who lacks the LaTeX engine.
pub const NO_ENGINE: &'static str =
    "missing lualatex (required for --pandoc-to=latex). install texlive-luatex (Arch: `pacman -S texlive-luatex texlive-langkorean`; Debian/Ubuntu: `apt install texlive-luatex texlive-lang-korean`) or pass --pandoc-to=html for an HTML-only build.";

/// Checks that the LaTeX engine was found, where the format needs it.
pub fn ensure_latex_engine(to: &str, found: bool) -> (r: Result<(), String>)
    ensures
        r is Ok <==> (to@ != "latex"@ || found),
        r matches Err(e) ==> e@ == NO_ENGINE@,
{
    if !same_str(to, "latex") {
        return Ok(());
    }
    if !found {
        return Err(NO_ENGINE.to_owned());
    }
    Ok(())
}

// ---------------------------------------------------------------------------
// book.toml
// ---------------------------------------------------------------------------
/// The section for pandoc of a book that is made with LaTeX. `lualatex` handles Korean and other
/// Unicode text and colour emoji; the fallback font for emoji is asked for some ranges alone, as
/// it is slow.
pub const LATEX_PROFILE: &'static str =
    "\n[output.pandoc]\nhosted-html = \"\"\n\n[output.pandoc.profile.pdf]\noutput-file = \"book.pdf\"\nto = \"latex\"\npdf-engine = \"lualatex\"\n\n[output.pandoc.profile.pdf.variables]\nmonofont = \"Hack Nerd Font Mono\"\nmonofontoptions = \"Scale=0.85\"\nCJKmainfont = \"Noto Sans CJK KR\"\ngeometry = \"margin=1in\"\nfontsize = \"10pt\"\ncolorlinks = true\nlinkcolor = \"Navy\"\nurlcolor = \"Navy\"\ntoccolor = \"Navy\"\nheader-includes = ['''\n% Emoji fallback — Noto Color Emoji via HarfBuzz. Restricted to emoji\n% / dingbat / pictograph Unicode ranges so lualatex doesn't query the\n% emoji font for every missed glyph (cheap for typical prose; slow if\n% applied to code blocks).\n%   2600-27BF   misc symbols + dingbats\n%   1F000-1FFFF emoji planes\n%   1F100-1F1FF regional indicators (flag letters)\n%\n% The main/sans font is set via \\AtEndPreamble so it runs AFTER\n% pandoc's template (which would otherwise overwrite the fallback).\n% Monospace is NOT given the fallback — HarfBuzz fallback on Verbatim\n% content is pathologically slow on large docs.\n\\usepackage{fontspec}\n\\directlua{luaotfload.add_fallback(\"emojifallback\", {\"NotoColorEmoji:mode=harf;script=dflt;ranges=1F000-1FFFF,2600-27BF,1F100-1F1FF\"})}\n\\AtEndPreamble{\n\\setmainfont{Noto Sans CJK KR}[RawFeature={fallback=emojifallback}]\n\\setsansfont{Noto Sans CJK KR}[RawFeature={fallback=emojifallback}]\n}\n\\tracinglostchars=0\n''']\n";

/// The section for pandoc.
pub open spec fn profile(to: Seq<char>) -> Seq<char> {
    if to == "latex"@ {
        LATEX_PROFILE@
    } else {
        "\n[output.pandoc]\nhosted-html = \"\"\n\n[output.pandoc.profile.pdf]\noutput-file = \"book.pdf\"\nto = \""@
            + to + "\"\n"@
    }
}

/// The section for pandoc.
pub fn profile_block(to: &str) -> (r: String)
    ensures
        r@ == profile(to@),
{
    if same_str(to, "latex") {
        return LATEX_PROFILE.to_owned();
    }
    let mut out = String::new();
    out.append(
        "\n[output.pandoc]\nhosted-html = \"\"\n\n[output.pandoc.profile.pdf]\noutput-file = \"book.pdf\"\nto = \"",
    );
    out.append(to);
    out.append("\"\n");
    assert(out@ == profile(to@));
    out
}

/// The preprocessors that a PDF book does without: what they make of diagrams is for a browser.
pub open spec fn browser_preprocessors() -> Seq<Seq<char>> {
    seq!["mermaid"@, "plantuml"@]
}

/// The sections on HTML output.
pub open spec fn html_sections() -> Seq<Seq<char>> {
    seq!["output.html"@, "output.html.fold"@, "output.html.search"@]
}

/// The `book.toml` of a PDF book, from that of an HTML book.
pub open spec fn pdf_toml(existing: Seq<char>, to: Seq<char>, exe: Seq<char>) -> Seq<char> {
    stripped(stripped(existing, preprocessor_keys(browser_preprocessors())), html_sections())
        + profile(to) + "\n"@ + registration(exe)
}

/// Makes the `book.toml` of a PDF book from that of an HTML book: the sections on diagrams and on
/// HTML output are removed, and those for pandoc and for the preprocessor with the path `exe` are
/// added.
pub fn convert_book_toml(existing: &str, to: &str, exe: &str) -> (r: String)
    ensures
        r@ == pdf_toml(existing@, to@, exe@),
{
    let names: [&str; 2] = ["mermaid", "plantuml"];
    assert(str_texts(names@) == browser_preprocessors());
    let filtered = strip_preprocessor_blocks(existing, names.as_slice());
    let keys: [&str; 3] = ["output.html", "output.html.fold", "output.html.search"];
    assert(str_texts(keys@) == html_sections());
    let mut out = strip_sections(filtered.as_str(), keys.as_slice());
    out.append(profile_block(to).as_str());
    out.append("\n");
    out.append(registration_of(exe).as_str());
    out
}

/// Makes the `book.toml` of a PDF book that is built with this program, whose executable is
/// `self_exe`.
pub fn pdf_book_toml(existing: &str, to: &str, self_exe: &[u8]) -> (r: String)
    ensures
        r@ == pdf_toml(existing@, to@, lossy_text(self_exe@)),
{
    convert_book_toml(existing, to, lossy_string(self_exe).as_str())
}

/// A format that pandoc may be asked for stands for itself inside a TOML string: it can neither
/// end the string nor add a section.
pub proof fn law_format_reads_back(to: Seq<char>, rest: Seq<char>)
    requires
        formats().contains(to),
    ensures
        basic_string(to + seq!['"'] + rest) == Some((to, rest)),
{
    reveal_strlit("latex");
    reveal_strlit("html");
    reveal_strlit("html5");
    reveal_strlit("pdf");
    reveal_strlit("docx");
    reveal_strlit("epub");
    reveal_strlit("epub3");
    reveal_strlit("markdown");
    reveal_strlit("markdown_strict");
    reveal_strlit("markdown_github");
    reveal_strlit("gfm");
    reveal_strlit("plain");
    reveal_strlit("rst");
    reveal_strlit("commonmark");
    reveal_strlit("commonmark_x");
    law_plain_text_is_its_body(to);
    law_basic_string_reads_back(to, rest);
}

// ---------------------------------------------------------------------------
// The result
// ---------------------------------------------------------------------------
/// Where a build leaves the PDF below the workspace, with pandoc as the only renderer.
pub const OUTPUT: &'static str = "book/pdf/book.pdf";

/// Where a build leaves the PDF below the workspace, with another renderer beside pandoc.
pub const OUTPUT_BESIDE_OTHERS: &'static str = "book/pandoc/pdf/book.pdf";

/// Where the PDF is, below the workspace: at the first of the two places where there is one.
pub fn produced(there: bool, beside_others: bool) -> (r: Option<&'static str>)
    ensures
        there ==> (r matches Some(p) && p@ == OUTPUT@),
        !there && beside_others ==> (r matches Some(p) && p@ == OUTPUT_BESIDE_OTHERS@),
        !there && !beside_others ==> r is None,
{
    if there {
        Some(OUTPUT)
    } else if beside_others {
        Some(OUTPUT_BESIDE_OTHERS)
    } else {
        None
    }
}

// ---------------------------------------------------------------------------
// Laws
// ---------------------------------------------------------------------------
/// Removing sections in two passes is removing them in one.
proof fn lemma_kept_twice(
    ls: Seq<Seq<char>>,
    a: Seq<Seq<char>>,
    b: Seq<Seq<char>>,
    c: Seq<Seq<char>>,
    first: bool,
    second: bool,
)
    requires
        forall|inner: Seq<char>| #[trigger]
            is_stripped(inner, c) <==> is_stripped(inner, a) || is_stripped(inner, b),
    ensures
        kept(kept(ls, a, first), b, second) == kept(ls, c, first || second),
    decreases ls.len(),
{
    if ls.len() > 0 {
        let rest = ls.skip(1);
        let drop = match header(ls[0]) {
            Some(inner) => is_stripped(inner, a),
            None => first,
        };
        if drop {
            lemma_kept_twice(rest, a, b, c, true, second);
        } else {
            let gone = match header(ls[0]) {
                Some(inner) => is_stripped(inner, b),
                None => second,
            };
            lemma_kept_twice(rest, a, b, c, false, gone);
            let k = kept(ls, a, first);
            assert(k[0] == ls[0]);
            assert(k.skip(1) == kept(rest, a, false));
        }
    } else {
        assert(kept(kept(ls, a, first), b, second) == kept(ls, c, first || second));
    }
}

/// The sections that are removed from the `book.toml` of a PDF book.
pub open spec fn is_for_browsers(inner: Seq<char>) -> bool {
    in_section(inner, "preprocessor.mermaid"@) || in_section(inner, "preprocessor.plantuml"@)
        || in_section(inner, "output.html"@)
}

/// The sections that the passes remove are those for browsers.
proof fn lemma_sections_for_browsers(inner: Seq<char>)
    ensures
        is_stripped(inner, preprocessor_keys(browser_preprocessors())) || is_stripped(
            inner,
            html_sections(),
        ) <==> is_for_browsers(inner),
        is_stripped(
            inner,
            seq!["preprocessor.mermaid"@, "preprocessor.plantuml"@, "output.html"@],
        ) <==> is_for_browsers(inner),
{
    let names = browser_preprocessors();
    let html = html_sections();
    law_preprocessors_are_stripped(names, inner);
    reveal_strlit("preprocessor.");
    reveal_strlit("mermaid");
    reveal_strlit("plantuml");
    reveal_strlit("preprocessor.mermaid");
    reveal_strlit("preprocessor.plantuml");
    reveal_strlit("output.html");
    reveal_strlit("output.html.fold");
    reveal_strlit("output.html.search");
    reveal_strlit(".fold");
    reveal_strlit(".search");
    assert("preprocessor."@ + "mermaid"@ == "preprocessor.mermaid"@);
    assert("preprocessor."@ + "plantuml"@ == "preprocessor.plantuml"@);
    assert(names[0] == "mermaid"@ && names[1] == "plantuml"@);
    assert(in_section(inner, "preprocessor.mermaid"@) ==> in_section(
        inner,
        "preprocessor."@ + names[0],
    ));
    assert(in_section(inner, "preprocessor.plantuml"@) ==> in_section(
        inner,
        "preprocessor."@ + names[1],
    ));
    let out = "output.html"@;
    assert(html[0] == out);
    assert(html[1] == out + ".fold"@);
    assert(html[2] == out + ".search"@);
    lemma_within_deeper(inner, out, ".fold"@);
    lemma_within_deeper(inner, out, ".search"@);
    let three = seq!["preprocessor.mermaid"@, "preprocessor.plantuml"@, "output.html"@];
    assert(three[0] == "preprocessor.mermaid"@ && three[1] == "preprocessor.plantuml"@ && three[2]
        == out);
}

/// What lies within a section within another lies within the other.
proof fn lemma_within_deeper(inner: Seq<char>, key: Seq<char>, rest: Seq<char>)
    requires
        rest.len() > 0,
        rest[0] == '.',
    ensures
        in_section(inner, key + rest) ==> in_section(inner, key),
{
    let deep = key + rest;
    if in_section(inner, deep) {
        law_sections_lie_within(deep, seq![], inner);
        assert(deep == inner.take(deep.len() as int));
        let k = key.push('.');
        assert(k == deep.take(k.len() as int));
        assert(k == inner.take(k.len() as int));
    }
}

/// The `book.toml` of a PDF book has all lines of that of the HTML book but those of the sections
/// for browsers, in their order; behind them it has the section for pandoc and that of our own
/// preprocessor. So it is where none of the lines that the first pass keeps ends in a carriage
/// return.
pub proof fn law_pdf_book_drops_browser_sections(
    existing: Seq<char>,
    to: Seq<char>,
    exe: Seq<char>,
)
    requires
        forall|i: int|
            0 <= i < kept(
                lines_of(existing),
                preprocessor_keys(browser_preprocessors()),
                false,
            ).len() ==> !ends_in_cr(
                #[trigger] kept(
                    lines_of(existing),
                    preprocessor_keys(browser_preprocessors()),
                    false,
                )[i],
            ),
    ensures
        pdf_toml(existing, to, exe) == unlines(
            kept(
                lines_of(existing),
                seq!["preprocessor.mermaid"@, "preprocessor.plantuml"@, "output.html"@],
                false,
            ),
        ) + profile(to) + seq!['\n'] + registration(exe),
{
    let a = preprocessor_keys(browser_preprocessors());
    let b = html_sections();
    let c = seq!["preprocessor.mermaid"@, "preprocessor.plantuml"@, "output.html"@];
    law_strip_keeps_lines(existing, a);
    assert forall|inner: Seq<char>| #[trigger] is_stripped(inner, c) <==> is_stripped(inner, a)
        || is_stripped(inner, b) by {
        lemma_sections_for_browsers(inner);
    }
    lemma_kept_twice(lines_of(existing), a, b, c, false, false);
    reveal_strlit("\n");
    assert("\n"@ == seq!['\n']);
}

/// The section for pandoc asks for the format that was given, in the file `book.pdf`.
pub proof fn law_profile_asks_for_format(to: Seq<char>)
    requires
        to != "latex"@,
    ensures
        occurs("output-file = \"book.pdf\"\nto = \""@ + to + "\"\n"@, profile(to)),
        occurs("[output.pandoc.profile.pdf]\n"@, profile(to)),
{
    reveal_strlit(
        "\n[output.pandoc]\nhosted-html = \"\"\n\n[output.pandoc.profile.pdf]\noutput-file = \"book.pdf\"\nto = \"",
    );
    reveal_strlit("\n[output.pandoc]\nhosted-html = \"\"\n\n");
    reveal_strlit("[output.pandoc.profile.pdf]\n");
    reveal_strlit("output-file = \"book.pdf\"\nto = \"");
    let front = "\n[output.pandoc]\nhosted-html = \"\"\n\n"@;
    let head = "[output.pandoc.profile.pdf]\n"@;
    let file = "output-file = \"book.pdf\"\nto = \""@;
    let part = file + to + "\"\n"@;
    assert(profile(to) == front + head + part);
    law_part_occurs(front + head, part, Seq::<char>::empty());
    assert(front + head + part == (front + head) + part + Seq::<char>::empty());
    law_part_occurs(front, head, part);
}

/// A user who lacks programs for a PDF is told all of them.
pub proof fn law_missing_programs_are_told(names: Seq<Seq<char>>)
    ensures
        occurs(joined(names, ", "@), missing_text(names)),
{
    law_part_occurs(
        "missing tools: "@,
        joined(names, ", "@),
        ". install with: cargo install mdbook-pandoc (+ system pandoc)"@,
    );
}

} // verus!
