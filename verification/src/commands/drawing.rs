//! The drawing of diagrams: where an image is kept, and what the drawing programs are given.

use vstd::prelude::*;
use vstd::utf8::encode_utf8;

use crate::commands::preprocess::DiagramKind;
use crate::number::{decimal, decimal_of};
use crate::text::{
    chars_of, contains, is_blank, is_white, law_leading_white_space_is_dropped, law_part_occurs,
    lemma_unlines_front, line_texts, lines, lines_of, occurs, push_all, starts_with_str, texts,
    trim_start, trimmed_start, unlines,
};
use crate::theme::{asset_at, AssetError, Assets};
use crate::utf8::{from_utf8, lossy_string, lossy_text, utf8};

verus! {

// ---------------------------------------------------------------------------
// Kept images
// ---------------------------------------------------------------------------
/// The BLAKE3 hash of the given bytes, in lower-case hexadecimal.
pub uninterp spec fn blake3_hex(b: Seq<u8>) -> Seq<char>;

/// `blake3::hash`, and `blake3::Hash::to_hex` of its result: the hash of the bytes, as 64 lower-case
/// hexadecimal digits. Which digits they are is not described.
#[verifier::external_body]
fn blake3_hex_of(b: &[u8]) -> (r: String)
    ensures
        r@ == blake3_hex(b@),
        r@.len() == 64,
        forall|i: int|
            0 <= i < r@.len() ==> ('0' <= #[trigger] r@[i] && r@[i] <= '9') || ('a' <= r@[i]
                && r@[i] <= 'f'),
{
    blake3::hash(b).to_hex().to_string()
}

/// The name of the file in which the image of a diagram with the given hash is kept.
pub open spec fn cache_file(kind: DiagramKind, hash: Seq<char>) -> Seq<char> {
    match kind {
        DiagramKind::PlantUml => "plantuml-"@ + hash.take(16) + ".svg"@,
        DiagramKind::Mermaid => "mermaid-"@ + hash.take(16) + ".png"@,
    }
}

/// The name of the file in which the image of a diagram with the given hash is kept: the first
/// digits of the hash, behind the name of the language.
pub fn cache_file_name(kind: DiagramKind, hash: &str) -> (r: String)
    requires
        hash@.len() >= 16,
    ensures
        r@ == cache_file(kind, hash@),
{
    let digits = chars_of(hash);
    let first = vstd::slice::slice_subrange(digits.as_slice(), 0, 16);
    assert(first@ == hash@.take(16));
    let mut out = String::new();
    match kind {
        DiagramKind::PlantUml => {
            out.append("plantuml-");
            push_all(&mut out, first);
            out.append(".svg");
        },
        DiagramKind::Mermaid => {
            out.append("mermaid-");
            push_all(&mut out, first);
            out.append(".png");
        },
    }
    assert(out@ == cache_file(kind, hash@));
    out
}

/// The name of the file in which the image of a diagram is kept. It depends on what stands in the
/// diagram, so that an unchanged diagram is not drawn again.
pub fn cache_name(kind: DiagramKind, body: &str) -> (r: String)
    ensures
        r@ == cache_file(kind, blake3_hex(encode_utf8(body@))),
{
    cache_file_name(kind, blake3_hex_of(body.as_bytes()).as_str())
}

/// Diagrams in different languages never share a kept image.
pub proof fn law_languages_are_kept_apart(a: Seq<char>, b: Seq<char>)
    ensures
        cache_file(DiagramKind::PlantUml, a) != cache_file(DiagramKind::Mermaid, b),
{
    reveal_strlit("plantuml-");
    reveal_strlit("mermaid-");
    assert(cache_file(DiagramKind::PlantUml, a)[0] == 'p');
    assert(cache_file(DiagramKind::Mermaid, b)[0] == 'm');
}

// ---------------------------------------------------------------------------
// PlantUML
// ---------------------------------------------------------------------------
/// The line begins a PlantUML diagram.
pub open spec fn starts_uml(line: Seq<char>) -> bool {
    "@startuml"@.is_prefix_of(trimmed_start(line))
}

/// The given lines, with `header` behind the first that begins a diagram. `done` says that it
/// stands there already.
pub open spec fn with_header(ls: Seq<Seq<char>>, header: Seq<char>, done: bool) -> Seq<char>
    decreases ls.len(),
{
    if ls.len() == 0 {
        seq![]
    } else if !done && starts_uml(ls[0]) {
        ls[0] + "\n"@ + header + with_header(ls.skip(1), header, true)
    } else {
        ls[0] + "\n"@ + with_header(ls.skip(1), header, done)
    }
}

/// What PlantUML is given for a diagram: `header` sets the colours and has to stand inside of the
/// diagram. A body that does not say where the diagram begins is a diagram as a whole.
pub open spec fn plantuml_text(header: Seq<char>, body: Seq<char>) -> Seq<char> {
    if occurs("@startuml"@, body) {
        with_header(lines_of(body), header, false)
    } else {
        "@startuml\n"@ + header + "\n"@ + body + "\n@enduml\n"@
    }
}

/// What PlantUML is given for a diagram, with the colours that `header` sets.
pub fn compose_plantuml(header: &str, body: &str) -> (r: String)
    ensures
        r@ == plantuml_text(header@, body@),
{
    let mut out = String::new();
    if contains(chars_of(body).as_slice(), chars_of("@startuml").as_slice()) {
        let ls = lines(body);
        let ghost all = lines_of(body@);
        let ghost goal = with_header(all, header@, false);
        let mut done = false;
        let mut i: usize = 0;
        assert(all.skip(0) == all);
        assert(out@ + goal == goal);
        while i < ls.len()
            invariant
                0 <= i <= ls@.len(),
                all == line_texts(ls@),
                out@ + with_header(all.skip(i as int), header@, done) == goal,
            decreases ls@.len() - i,
        {
            let ghost before = out@;
            let ghost here = all.skip(i as int);
            assert(here.skip(1) == all.skip(i + 1));
            let line = ls[i].as_slice();
            assert(here[0] == line@);
            push_all(&mut out, line);
            out.append("\n");
            if !done && starts_with_str(trim_start(line), "@startuml") {
                out.append(header);
                done = true;
                let ghost more = with_header(all.skip(i + 1), header@, true);
                assert(before + (line@ + "\n"@ + header@ + more) == out@ + more);
            } else {
                let ghost more = with_header(all.skip(i + 1), header@, done);
                assert(before + (line@ + "\n"@ + more) == out@ + more);
            }
            i += 1;
        }
        assert(all.skip(i as int).len() == 0);
        assert(out@ == goal);
    } else {
        out.append("@startuml\n");
        out.append(header);
        out.append("\n");
        out.append(body);
        out.append("\n@enduml\n");
        assert(out@ == plantuml_text(header@, body@));
    }
    out
}

/// What PlantUML is given for a diagram, with the colours of the program's own theme.
pub fn plantuml_source(assets: &Assets, body: &str) -> (r: Result<String, AssetError>)
    ensures
        match asset_at(assets.files@, "themes/plantuml-tokyonight.puml"@) {
            None => r == Err::<String, AssetError>(AssetError::Missing),
            Some(data) => match utf8(data) {
                None => r == Err::<String, AssetError>(AssetError::NotUtf8),
                Some(header) => r matches Ok(s) && s@ == plantuml_text(header, body@),
            },
        },
{
    match assets.get("themes/plantuml-tokyonight.puml") {
        None => Err(AssetError::Missing),
        Some(data) => match from_utf8(data) {
            None => Err(AssetError::NotUtf8),
            Some(header) => Ok(compose_plantuml(header, body)),
        },
    }
}

/// Lines to which no header is added stay as they are.
proof fn lemma_lines_without_header(ls: Seq<Seq<char>>, header: Seq<char>, done: bool)
    requires
        done || forall|i: int| 0 <= i < ls.len() ==> !starts_uml(#[trigger] ls[i]),
    ensures
        with_header(ls, header, done) == unlines(ls),
    decreases ls.len(),
{
    reveal_strlit("\n");
    assert("\n"@ == seq!['\n']);
    if ls.len() > 0 {
        if !done {
            assert(!starts_uml(ls[0]));
            assert forall|i: int| 0 <= i < ls.skip(1).len() implies !starts_uml(
                #[trigger] ls.skip(1)[i],
            ) by {
                assert(!starts_uml(ls[i + 1]));
            }
        }
        lemma_lines_without_header(ls.skip(1), header, done);
        lemma_unlines_front(ls);
    }
}

/// The header stands once, behind the first line that begins a diagram; all lines stay as they
/// are. Where no line begins one, it does not stand at all.
pub proof fn law_header_stands_behind_start(ls: Seq<Seq<char>>, header: Seq<char>, n: int)
    requires
        0 <= n <= ls.len(),
        forall|i: int| 0 <= i < n ==> !starts_uml(#[trigger] ls[i]),
        n < ls.len() ==> starts_uml(ls[n]),
    ensures
        n < ls.len() ==> with_header(ls, header, false) == unlines(ls.take(n + 1)) + header
            + unlines(ls.skip(n + 1)),
        n == ls.len() ==> with_header(ls, header, false) == unlines(ls),
    decreases n,
{
    if n == ls.len() {
        lemma_lines_without_header(ls, header, false);
    } else if n == 0 {
        reveal_strlit("\n");
        assert("\n"@ == seq!['\n']);
        lemma_lines_without_header(ls.skip(1), header, true);
        let first = ls.take(1);
        assert(first.drop_last() == Seq::<Seq<char>>::empty());
        assert(unlines(first.drop_last()) == Seq::<char>::empty());
        assert(first.last() == ls[0]);
        assert(unlines(first) == ls[0] + seq!['\n']);
    } else {
        reveal_strlit("\n");
        assert("\n"@ == seq!['\n']);
        assert(!starts_uml(ls[0]));
        let tail = ls.skip(1);
        assert forall|i: int| 0 <= i < n - 1 implies !starts_uml(#[trigger] tail[i]) by {
            assert(!starts_uml(ls[i + 1]));
        }
        law_header_stands_behind_start(tail, header, n - 1);
        lemma_unlines_front(ls.take(n + 1));
        assert(ls.take(n + 1).skip(1) == tail.take(n));
        assert(tail.skip(n) == ls.skip(n + 1));
        assert(with_header(ls, header, false) == unlines(ls.take(n + 1)) + header + unlines(
            ls.skip(n + 1),
        ));
    }
}

// ---------------------------------------------------------------------------
// Drawing programs
// ---------------------------------------------------------------------------
/// How many seconds a drawing program may take.
pub const DIAGRAM_RENDER_TIMEOUT: u64 = 30;

/// The arguments with which PlantUML reads a diagram and writes an SVG image.
pub fn plantuml_args() -> (r: Vec<String>)
    ensures
        texts(r@) == seq!["-pipe"@, "-tsvg"@, "-charset"@, "UTF-8"@],
{
    let mut r: Vec<String> = Vec::new();
    r.push("-pipe".to_owned());
    r.push("-tsvg".to_owned());
    r.push("-charset".to_owned());
    r.push("UTF-8".to_owned());
    r
}

/// The arguments with which Mermaid reads a diagram and writes an image to `out`.
pub fn mmdc_args(out: &str, config: &str) -> (r: Vec<String>)
    ensures
        texts(r@) == seq![
            "--input"@,
            "-"@,
            "--output"@,
            out@,
            "--backgroundColor"@,
            "white"@,
            "--configFile"@,
            config@,
            "--theme"@,
            "default"@,
            "--scale"@,
            "2"@,
            "--quiet"@,
        ],
{
    let mut r: Vec<String> = Vec::new();
    r.push("--input".to_owned());
    r.push("-".to_owned());
    r.push("--output".to_owned());
    r.push(out.to_owned());
    r.push("--backgroundColor".to_owned());
    r.push("white".to_owned());
    r.push("--configFile".to_owned());
    r.push(config.to_owned());
    r.push("--theme".to_owned());
    r.push("default".to_owned());
    r.push("--scale".to_owned());
    r.push("2".to_owned());
    r.push("--quiet".to_owned());
    r
}

/// Why there is no image, where a drawing program failed.
pub open spec fn failure_text(label: Seq<char>, status: Seq<char>, stderr: Seq<char>) -> Seq<
    char,
> {
    label + " failed ("@ + status + "): "@ + stderr
}

/// Why there is no image, where the drawing program `label` ended with the status `status` after
/// it had written `stderr`.
pub fn failure_of(label: &str, status: &str, stderr: &str) -> (r: String)
    ensures
        r@ == failure_text(label@, status@, stderr@),
{
    let mut out = String::new();
    out.append(label);
    out.append(" failed (");
    out.append(status);
    out.append("): ");
    out.append(stderr);
    assert(out@ == failure_text(label@, status@, stderr@));
    out
}

/// Why there is no image, where the drawing program `label` ended with the status `status` after
/// it had written the bytes `stderr`.
pub fn tool_failure(label: &str, status: &str, stderr: &[u8]) -> (r: String)
    ensures
        r@ == failure_text(label@, status@, lossy_text(stderr@)),
{
    failure_of(label, status, lossy_string(stderr).as_str())
}

/// Why there is no image, where the drawing program `label` took too long.
pub fn tool_timeout(label: &str) -> (r: String)
    ensures
        r@ == label@ + ": timed out after "@ + decimal(DIAGRAM_RENDER_TIMEOUT as nat) + "s"@,
{
    let mut out = String::new();
    out.append(label);
    out.append(": timed out after ");
    out.append(decimal_of(DIAGRAM_RENDER_TIMEOUT as u128).as_str());
    out.append("s");
    assert(out@ == label@ + ": timed out after "@ + decimal(DIAGRAM_RENDER_TIMEOUT as nat) + "s"@);
    out
}

// ---------------------------------------------------------------------------
// Laws
// ---------------------------------------------------------------------------
/// A kept image goes by the language of its diagram and the first sixteen digits of the hash: it
/// is found again for the same hash, and for no other that differs in these digits. An SVG image
/// ends in `.svg`, a PNG image in `.png`.
pub proof fn law_image_is_found_again(kind: DiagramKind, a: Seq<char>, b: Seq<char>)
    requires
        a.len() >= 16,
        b.len() >= 16,
    ensures
        cache_file(kind, a) == cache_file(kind, b) <==> a.take(16) == b.take(16),
        occurs(a.take(16), cache_file(kind, a)),
        "plantuml-"@.is_prefix_of(cache_file(DiagramKind::PlantUml, a)),
        ".svg"@.is_suffix_of(cache_file(DiagramKind::PlantUml, a)),
        "mermaid-"@.is_prefix_of(cache_file(DiagramKind::Mermaid, a)),
        ".png"@.is_suffix_of(cache_file(DiagramKind::Mermaid, a)),
{
    let (pre, post) = match kind {
        DiagramKind::PlantUml => ("plantuml-"@, ".svg"@),
        DiagramKind::Mermaid => ("mermaid-"@, ".png"@),
    };
    law_part_occurs(pre, a.take(16), post);
    let x = cache_file(kind, a);
    let y = cache_file(kind, b);
    let n = pre.len() as int;
    assert(x.subrange(n, n + 16) == a.take(16));
    assert(y.subrange(n, n + 16) == b.take(16));
    let p = cache_file(DiagramKind::PlantUml, a);
    assert(p.take("plantuml-"@.len() as int) == "plantuml-"@);
    assert(p.skip(p.len() - ".svg"@.len()) == ".svg"@);
    let m = cache_file(DiagramKind::Mermaid, a);
    assert(m.take("mermaid-"@.len() as int) == "mermaid-"@);
    assert(m.skip(m.len() - ".png"@.len()) == ".png"@);
}

/// A line begins a PlantUML diagram just where its first characters that are not white space are
/// `@startuml`.
pub proof fn law_start_may_be_indented(w: Seq<char>, t: Seq<char>)
    requires
        is_blank(w),
        t.len() == 0 || !is_white(t[0]),
    ensures
        starts_uml(w + t) <==> "@startuml"@.is_prefix_of(t),
{
    law_leading_white_space_is_dropped(w, t);
}

/// A body that does not say where the diagram begins stands between lines that do, as it is and
/// behind the header. In any other body the header stands behind the first line that begins a
/// diagram, and all lines stay.
pub proof fn law_header_is_inside_of_diagram(header: Seq<char>, body: Seq<char>, n: int)
    ensures
        !occurs("@startuml"@, body) ==> plantuml_text(header, body) == "@startuml\n"@ + header
            + "\n"@ + body + "\n@enduml\n"@,
        occurs("@startuml"@, body) && 0 <= n < lines_of(body).len() && starts_uml(lines_of(body)[n])
            && (forall|i: int| 0 <= i < n ==> !starts_uml(#[trigger] lines_of(body)[i]))
            ==> plantuml_text(header, body) == unlines(lines_of(body).take(n + 1)) + header
            + unlines(lines_of(body).skip(n + 1)),
{
    if 0 <= n < lines_of(body).len() && starts_uml(lines_of(body)[n]) && (forall|i: int|
        0 <= i < n ==> !starts_uml(#[trigger] lines_of(body)[i])) {
        law_header_stands_behind_start(lines_of(body), header, n);
    }
}

/// A drawing program that failed is named, with its status and all that it wrote; one may take
/// half a minute.
pub proof fn law_failure_is_told(label: Seq<char>, status: Seq<char>, stderr: Seq<char>)
    ensures
        label.is_prefix_of(failure_text(label, status, stderr)),
        occurs(status, failure_text(label, status, stderr)),
        stderr.is_suffix_of(failure_text(label, status, stderr)),
        DIAGRAM_RENDER_TIMEOUT == 30,
{
    let t = failure_text(label, status, stderr);
    assert(t.take(label.len() as int) == label);
    law_part_occurs(label + " failed ("@, status, "): "@ + stderr);
    assert(t == (label + " failed ("@) + status + ("): "@ + stderr));
    assert(t.skip(t.len() - stderr.len()) == stderr);
}

} // verus!
