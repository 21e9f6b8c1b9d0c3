//! The preprocessor of diagrams: it finds the diagrams in markdown and puts images in their place.
//!
//! PlantUML diagrams are replaced for HTML and for pandoc, so that they have the theme's colours.
//! Mermaid diagrams are replaced for pandoc alone: a browser draws them itself.

use vstd::prelude::*;
use vstd::slice::slice_subrange;

use crate::data_uri::{base64_len, base64_text, image_line, push_image};
use crate::text::{
    chars_of, is_blank, is_white, is_whitespace, law_leading_white_space_is_dropped,
    law_lines_are_written_out, lemma_unlines_front, line_texts, lines, lines_of, push_all, same_str,
    starts_with_str, string_of, trim_start, trimmed_start, unlines,
};

verus! {

// ---------------------------------------------------------------------------
// Policy
// ---------------------------------------------------------------------------
/// Which diagrams are replaced.
#[derive(Clone, Copy)]
pub struct TransformPolicy {
    /// PlantUML diagrams.
    pub plantuml: bool,
    /// Mermaid diagrams.
    pub mermaid: bool,
}

impl TransformPolicy {
    /// Which diagrams are replaced for the renderer `renderer`.
    pub open spec fn of(renderer: Seq<char>) -> TransformPolicy {
        TransformPolicy {
            plantuml: renderer == "html"@ || renderer == "pandoc"@,
            mermaid: renderer == "pandoc"@,
        }
    }

    /// Which diagrams are replaced for a renderer: for HTML those in PlantUML, for pandoc all, and
    /// for another renderer none.
    pub fn for_renderer(renderer: &str) -> (r: TransformPolicy)
        ensures
            r == TransformPolicy::of(renderer@),
    {
        proof {
            reveal_strlit("html");
            reveal_strlit("pandoc");
            assert("html"@.len() != "pandoc"@.len());
        }
        if same_str(renderer, "html") {
            TransformPolicy { plantuml: true, mermaid: false }
        } else if same_str(renderer, "pandoc") {
            TransformPolicy { plantuml: true, mermaid: true }
        } else {
            TransformPolicy { plantuml: false, mermaid: false }
        }
    }
}

/// The renderer is one that the preprocessor works for.
pub open spec fn is_supported(renderer: Seq<char>) -> bool {
    renderer == "html"@ || renderer == "pandoc"@
}

/// What the preprocessor was called for.
pub enum Call {
    /// To say whether it works for a renderer.
    Supports(bool),
    /// To replace diagrams.
    Transform,
    /// For something that it does not know.
    Unknown(String),
}

/// What the preprocessor was called for, from its arguments: the word `supports` and the name of
/// a renderer, or none.
pub fn call_of(arg: Option<&str>, renderer: Option<&str>) -> (r: Call)
    ensures
        match arg {
            None => r == Call::Transform,
            Some(a) => if a@ == "supports"@ {
                r == Call::Supports(renderer matches Some(n) && is_supported(n@))
            } else {
                r matches Call::Unknown(u) && u@ == a@
            },
        },
{
    match arg {
        None => Call::Transform,
        Some(a) => {
            if same_str(a, "supports") {
                let known = match renderer {
                    Some(n) => same_str(n, "html") || same_str(n, "pandoc"),
                    None => false,
                };
                Call::Supports(known)
            } else {
                Call::Unknown(a.to_owned())
            }
        },
    }
}

/// The preprocessor works for just those renderers for which it replaces something.
pub proof fn law_supported_renderers_are_served(renderer: Seq<char>)
    ensures
        is_supported(renderer) <==> (TransformPolicy::of(renderer).plantuml || TransformPolicy::of(
            renderer,
        ).mermaid),
{
}

// ---------------------------------------------------------------------------
// Fences
// ---------------------------------------------------------------------------
/// The languages of diagrams.
#[derive(Clone, Copy, Debug, PartialEq, Eq, Structural)]
pub enum DiagramKind {
    /// PlantUML
    PlantUml,
    /// Mermaid
    Mermaid,
}

/// The character ends the language's name in a fence.
pub open spec fn ends_name(c: char) -> bool {
    is_white(c) || c == ':' || c == '{' || c == ','
}

/// The language's name, from what stands behind the backticks of a fence.
pub open spec fn fence_name(s: Seq<char>) -> Seq<char>
    decreases s.len(),
{
    if s.len() == 0 || ends_name(s[0]) {
        seq![]
    } else {
        seq![s[0]] + fence_name(s.skip(1))
    }
}

/// The language of the diagram that a line opens.
pub open spec fn fence(line: Seq<char>) -> Option<DiagramKind> {
    if !"```"@.is_prefix_of(line) {
        None
    } else {
        let name = fence_name(line.skip(3));
        if name == "plantuml"@ || name == "puml"@ {
            Some(DiagramKind::PlantUml)
        } else if name == "mermaid"@ {
            Some(DiagramKind::Mermaid)
        } else {
            None
        }
    }
}

/// The language's name, from what stands behind the backticks of a fence.
fn fence_name_of(s: &[char]) -> (r: String)
    ensures
        r@ == fence_name(s@),
{
    let mut out = String::new();
    let mut i: usize = 0;
    assert(s@.skip(0) == s@);
    while i < s.len() && !(is_whitespace(s[i]) || s[i] == ':' || s[i] == '{' || s[i] == ',')
        invariant
            0 <= i <= s@.len(),
            out@ + fence_name(s@.skip(i as int)) == fence_name(s@),
        decreases s@.len() - i,
    {
        assert(s@.skip(i as int).skip(1) == s@.skip(i + 1));
        out.push(s[i]);
        i += 1;
    }
    assert(fence_name(s@.skip(i as int)) == Seq::<char>::empty());
    assert(out@ == fence_name(s@));
    out
}

/// The language of the diagram that a line opens.
fn fence_of(line: &[char]) -> (r: Option<DiagramKind>)
    ensures
        r == fence(line@),
{
    proof {
        reveal_strlit("```");
    }
    if !starts_with_str(line, "```") {
        return None;
    }
    let rest = slice_subrange(line, 3, line.len());
    assert(rest@ == line@.skip(3));
    let name = fence_name_of(rest);
    if same_str(name.as_str(), "plantuml") || same_str(name.as_str(), "puml") {
        Some(DiagramKind::PlantUml)
    } else if same_str(name.as_str(), "mermaid") {
        Some(DiagramKind::Mermaid)
    } else {
        None
    }
}

/// The language of the diagram that a line opens: three backticks and `plantuml`, `puml` or
/// `mermaid`. White space, a colon, a brace or a comma may follow with anything behind it.
pub fn fence_kind(line: &str) -> (r: Option<DiagramKind>)
    ensures
        r == fence(line@),
{
    fence_of(chars_of(line).as_slice())
}

/// The language of the diagram that a line opens, where such diagrams are replaced. The line may
/// be indented.
pub open spec fn active_fence(line: Seq<char>, policy: TransformPolicy) -> Option<DiagramKind> {
    match fence(trimmed_start(line)) {
        Some(DiagramKind::PlantUml) => if policy.plantuml {
            Some(DiagramKind::PlantUml)
        } else {
            None
        },
        Some(DiagramKind::Mermaid) => if policy.mermaid {
            Some(DiagramKind::Mermaid)
        } else {
            None
        },
        None => None,
    }
}

/// The language of the diagram that a line opens, where such diagrams are replaced.
fn active_fence_of(line: &[char], policy: TransformPolicy) -> (r: Option<DiagramKind>)
    ensures
        r == active_fence(line@, policy),
{
    match fence_of(trim_start(line)) {
        Some(DiagramKind::PlantUml) => if policy.plantuml {
            Some(DiagramKind::PlantUml)
        } else {
            None
        },
        Some(DiagramKind::Mermaid) => if policy.mermaid {
            Some(DiagramKind::Mermaid)
        } else {
            None
        },
        None => None,
    }
}

/// The line closes a diagram.
pub open spec fn closes(line: Seq<char>) -> bool {
    trimmed_start(line) == "```"@
}

/// The position of the first line that closes a diagram, or the number of lines where none does.
pub open spec fn fence_end(ls: Seq<Seq<char>>) -> int
    decreases ls.len(),
{
    if ls.len() == 0 || closes(ls[0]) {
        0
    } else {
        1 + fence_end(ls.skip(1))
    }
}

/// The position that `fence_end` finds.
proof fn lemma_fence_end(ls: Seq<Seq<char>>, n: int)
    requires
        0 <= n <= ls.len(),
        forall|i: int| 0 <= i < n ==> !closes(#[trigger] ls[i]),
        n < ls.len() ==> closes(ls[n]),
    ensures
        fence_end(ls) == n,
    decreases ls.len(),
{
    if n > 0 {
        assert(!closes(ls[0]));
        assert forall|i: int| 0 <= i < n - 1 implies !closes(#[trigger] ls.skip(1)[i]) by {
            assert(!closes(ls[i + 1]));
        }
        lemma_fence_end(ls.skip(1), n - 1);
    }
}

// ---------------------------------------------------------------------------
// Blocks
// ---------------------------------------------------------------------------
/// A part of a markdown text.
pub enum Piece {
    /// A line that stays.
    Plain(Seq<char>),
    /// A diagram that is never closed: its first line, and the rest.
    Open(Seq<char>, Seq<char>),
    /// A diagram: its language, its first line, and what stands in it.
    Diagram(DiagramKind, Seq<char>, Seq<char>),
}

/// The parts of a markdown text, from its lines.
pub open spec fn pieces(ls: Seq<Seq<char>>, policy: TransformPolicy) -> Seq<Piece>
    decreases ls.len(),
{
    if ls.len() == 0 {
        seq![]
    } else {
        match active_fence(ls[0], policy) {
            None => seq![Piece::Plain(ls[0])] + pieces(ls.skip(1), policy),
            Some(kind) => {
                let rest = ls.skip(1);
                let n = fence_end(rest);
                if 0 <= n < rest.len() {
                    seq![Piece::Diagram(kind, ls[0], unlines(rest.take(n)))] + pieces(
                        rest.skip(n + 1),
                        policy,
                    )
                } else {
                    seq![Piece::Open(ls[0], unlines(rest))]
                }
            },
        }
    }
}

/// A part of a markdown text.
pub enum Block {
    /// A line that stays.
    Plain(String),
    /// A diagram that is never closed.
    Open {
        /// Its first line.
        line: String,
        /// The rest.
        body: String,
    },
    /// A diagram.
    Diagram {
        /// Its language.
        kind: DiagramKind,
        /// Its first line.
        line: String,
        /// What stands in it.
        body: String,
    },
}

impl View for Block {
    type V = Piece;

    open spec fn view(&self) -> Piece {
        match *self {
            Block::Plain(line) => Piece::Plain(line@),
            Block::Open { line, body } => Piece::Open(line@, body@),
            Block::Diagram { kind, line, body } => Piece::Diagram(kind, line@, body@),
        }
    }
}

/// The parts that a list of blocks stands for.
pub open spec fn block_views(v: Seq<Block>) -> Seq<Piece> {
    Seq::new(v.len(), |i: int| v[i]@)
}

/// Splits a markdown text into lines that stay and diagrams to be replaced.
pub fn blocks(src: &str, policy: TransformPolicy) -> (r: Vec<Block>)
    ensures
        block_views(r@) == pieces(lines_of(src@), policy),
{
    let ls = lines(src);
    let ghost all = lines_of(src@);
    let ghost goal = pieces(all, policy);
    let mut out: Vec<Block> = Vec::new();
    let mut i: usize = 0;
    assert(all.skip(0) == all);
    assert(block_views(out@) + goal == goal);
    while i < ls.len()
        invariant
            0 <= i <= ls@.len(),
            all == line_texts(ls@),
            goal == pieces(all, policy),
            block_views(out@) + pieces(all.skip(i as int), policy) == goal,
        decreases ls@.len() - i,
    {
        let ghost before = block_views(out@);
        let ghost here = all.skip(i as int);
        assert(here.skip(1) == all.skip(i + 1));
        let line = ls[i].as_slice();
        assert(here[0] == line@);
        match active_fence_of(line, policy) {
            None => {
                out.push(Block::Plain(string_of(line)));
                assert(block_views(out@) == before.push(Piece::Plain(line@)));
                let ghost more = pieces(all.skip(i + 1), policy);
                assert(before + (seq![Piece::Plain(line@)] + more) == before.push(
                    Piece::Plain(line@),
                ) + more);
                i += 1;
            },
            Some(kind) => {
                let ghost rest = here.skip(1);
                let mut body = String::new();
                let mut j: usize = i + 1;
                assert(rest.take(0) == Seq::<Seq<char>>::empty());
                while j < ls.len() && !is_closing(ls[j].as_slice())
                    invariant
                        i + 1 <= j <= ls@.len(),
                        all == line_texts(ls@),
                        rest == all.skip(i + 1),
                        body@ == unlines(rest.take(j - i - 1)),
                        forall|k: int| 0 <= k < j - i - 1 ==> !closes(#[trigger] rest[k]),
                    decreases ls@.len() - j,
                {
                    let ghost n = j - i - 1;
                    assert(rest[n] == ls@[j as int]@);
                    assert(rest.take(n + 1).drop_last() == rest.take(n));
                    push_all(&mut body, ls[j].as_slice());
                    body.push('\n');
                    assert(body@ == unlines(rest.take(n + 1)));
                    j += 1;
                }
                let ghost n = j - i - 1;
                proof {
                    if j < ls@.len() {
                        assert(rest[n] == ls@[j as int]@);
                    }
                    lemma_fence_end(rest, n);
                }
                if j < ls.len() {
                    let ghost p = Piece::Diagram(kind, line@, body@);
                    out.push(Block::Diagram { kind, line: string_of(line), body });
                    assert(block_views(out@) == before.push(p));
                    assert(rest.skip(n + 1) == all.skip(j + 1));
                    let ghost more = pieces(all.skip(j + 1), policy);
                    assert(before + (seq![p] + more) == before.push(p) + more);
                    i = j + 1;
                } else {
                    let ghost p = Piece::Open(line@, body@);
                    assert(rest.take(n) == rest);
                    out.push(Block::Open { line: string_of(line), body });
                    assert(block_views(out@) == before.push(p));
                    assert(all.skip(j as int).len() == 0);
                    assert(pieces(all.skip(j as int), policy) == Seq::<Piece>::empty());
                    assert(before + seq![p] == before.push(p) + Seq::<Piece>::empty());
                    i = j;
                }
            },
        }
    }
    assert(all.skip(i as int).len() == 0);
    assert(block_views(out@) == goal);
    out
}

/// Whether the line closes a diagram.
fn is_closing(line: &[char]) -> (r: bool)
    ensures
        r == closes(line@),
{
    same_str(string_of(trim_start(line)).as_str(), "```")
}

// ---------------------------------------------------------------------------
// Diagrams to draw
// ---------------------------------------------------------------------------
/// A diagram to be drawn.
pub struct Request {
    /// Its language.
    pub kind: DiagramKind,
    /// What stands in it.
    pub body: String,
}

/// Languages and bodies of diagrams to be drawn.
pub open spec fn request_views(v: Seq<Request>) -> Seq<(DiagramKind, Seq<char>)> {
    Seq::new(v.len(), |i: int| (v[i].kind, v[i].body@))
}

/// The diagrams among the given parts, in their order.
pub open spec fn diagrams(ps: Seq<Piece>) -> Seq<(DiagramKind, Seq<char>)>
    decreases ps.len(),
{
    if ps.len() == 0 {
        seq![]
    } else {
        match ps[0] {
            Piece::Diagram(kind, _, body) => seq![(kind, body)] + diagrams(ps.skip(1)),
            _ => diagrams(ps.skip(1)),
        }
    }
}

/// The diagrams of a markdown text that are to be replaced, in their order.
pub open spec fn requests(src: Seq<char>, policy: TransformPolicy) -> Seq<
    (DiagramKind, Seq<char>),
> {
    diagrams(pieces(lines_of(src), policy))
}

/// The diagrams of a markdown text that are to be replaced, in their order.
pub fn diagram_requests(src: &str, policy: TransformPolicy) -> (r: Vec<Request>)
    ensures
        request_views(r@) == requests(src@, policy),
{
    let bs = blocks(src, policy);
    let ghost all = block_views(bs@);
    let mut out: Vec<Request> = Vec::new();
    let mut i: usize = 0;
    assert(all.skip(0) == all);
    assert(request_views(out@) + diagrams(all) == diagrams(all));
    while i < bs.len()
        invariant
            0 <= i <= bs@.len(),
            all == block_views(bs@),
            request_views(out@) + diagrams(all.skip(i as int)) == diagrams(all),
        decreases bs@.len() - i,
    {
        let ghost before = request_views(out@);
        let ghost here = all.skip(i as int);
        assert(here.skip(1) == all.skip(i + 1));
        assert(here[0] == bs@[i as int]@);
        match &bs[i] {
            Block::Diagram { kind, line: _, body } => {
                out.push(Request { kind: *kind, body: body.clone() });
                assert(request_views(out@) == before.push((*kind, body@)));
                let ghost more = diagrams(all.skip(i + 1));
                assert(before + (seq![(*kind, body@)] + more) == before.push((*kind, body@)) + more);
            },
            _ => {},
        }
        i += 1;
    }
    assert(all.skip(i as int).len() == 0);
    assert(request_views(out@) == diagrams(all));
    out
}

// ---------------------------------------------------------------------------
// Replacement
// ---------------------------------------------------------------------------
/// What came of drawing a diagram.
pub enum Rendered {
    /// The image.
    Image(Vec<u8>),
    /// There is none, for the given reason.
    Failed(String),
}

/// What came of drawing a diagram, as a mathematical value.
pub enum Drawing {
    /// The image.
    Image(Seq<u8>),
    /// There is none.
    Failed(Seq<char>),
}

impl View for Rendered {
    type V = Drawing;

    open spec fn view(&self) -> Drawing {
        match *self {
            Rendered::Image(b) => Drawing::Image(b@),
            Rendered::Failed(e) => Drawing::Failed(e@),
        }
    }
}

/// What came of drawing diagrams.
pub open spec fn drawings(v: Seq<Rendered>) -> Seq<Drawing> {
    Seq::new(v.len(), |i: int| v[i]@)
}

/// An image can be put into a text: its base64 is not longer than a string can be.
pub open spec fn fits(r: Rendered) -> bool {
    match r {
        Rendered::Image(b) => base64_len(b@.len()) <= isize::MAX,
        Rendered::Failed(_) => true,
    }
}

/// The text that stands for an image where it cannot be shown.
pub open spec fn alt_text(kind: DiagramKind) -> Seq<char> {
    match kind {
        DiagramKind::PlantUml => "plantuml diagram"@,
        DiagramKind::Mermaid => "mermaid diagram"@,
    }
}

/// The type of the images that are drawn.
pub open spec fn mime_type(kind: DiagramKind) -> Seq<char> {
    match kind {
        DiagramKind::PlantUml => "image/svg+xml"@,
        DiagramKind::Mermaid => "image/png"@,
    }
}

/// A diagram as it stood in the text, with a line that closes it.
pub open spec fn source_text(line: Seq<char>, body: Seq<char>) -> Seq<char> {
    line + "\n"@ + body + "```\n"@
}

/// What stands in place of a diagram: the image, or the diagram itself with the reason why there
/// is none.
pub open spec fn diagram_text(
    kind: DiagramKind,
    line: Seq<char>,
    body: Seq<char>,
    d: Drawing,
) -> Seq<char> {
    match d {
        Drawing::Image(b) => image_line(alt_text(kind), mime_type(kind), b),
        Drawing::Failed(e) => source_text(line, body) + "\n> diagram render error: "@ + e + "\n"@,
    }
}

/// The text of the given parts, in which each diagram has been replaced by what came of drawing
/// it.
pub open spec fn assembled(ps: Seq<Piece>, ds: Seq<Drawing>) -> Seq<char>
    decreases ps.len(),
{
    if ps.len() == 0 {
        seq![]
    } else {
        match ps[0] {
            Piece::Plain(line) => line + "\n"@ + assembled(ps.skip(1), ds),
            Piece::Open(line, body) => source_text(line, body) + assembled(ps.skip(1), ds),
            Piece::Diagram(kind, line, body) => diagram_text(kind, line, body, ds[0]) + assembled(
                ps.skip(1),
                ds.skip(1),
            ),
        }
    }
}

/// A markdown text in which each diagram has been replaced by what came of drawing it.
pub open spec fn transformed(src: Seq<char>, policy: TransformPolicy, ds: Seq<Drawing>) -> Seq<
    char,
> {
    assembled(pieces(lines_of(src), policy), ds)
}

/// Appends a diagram as it stood in the text, with a line that closes it.
fn push_source(out: &mut String, line: &str, body: &str)
    ensures
        final(out)@ == old(out)@ + source_text(line@, body@),
{
    out.append(line);
    out.append("\n");
    out.append(body);
    out.append("```\n");
    assert(out@ == old(out)@ + source_text(line@, body@));
}

/// The type of the images that are drawn.
pub fn mime_of(kind: DiagramKind) -> (r: &'static str)
    ensures
        r@ == mime_type(kind),
{
    match kind {
        DiagramKind::PlantUml => "image/svg+xml",
        DiagramKind::Mermaid => "image/png",
    }
}

/// Appends what stands in place of a diagram.
fn push_diagram(out: &mut String, kind: DiagramKind, line: &str, body: &str, d: &Rendered)
    requires
        fits(*d),
    ensures
        final(out)@ == old(out)@ + diagram_text(kind, line@, body@, d@),
{
    match d {
        Rendered::Image(b) => {
            let alt = match kind {
                DiagramKind::PlantUml => "plantuml diagram",
                DiagramKind::Mermaid => "mermaid diagram",
            };
            push_image(out, alt, mime_of(kind), b.as_slice());
        },
        Rendered::Failed(e) => {
            push_source(out, line, body);
            out.append("\n> diagram render error: ");
            out.append(e.as_str());
            out.append("\n");
            assert(out@ == old(out)@ + diagram_text(kind, line@, body@, d@));
        },
    }
}

/// Replaces the diagrams of a markdown text by the images that were drawn of them; `rendered` has
/// one for each of `diagram_requests`, in the same order. A diagram that could not be drawn stays,
/// with the reason below it. One that is never closed stays too, and is closed.
pub fn transform_markdown(src: &str, policy: TransformPolicy, rendered: &[Rendered]) -> (r: String)
    requires
        rendered@.len() == requests(src@, policy).len(),
        forall|i: int| 0 <= i < rendered@.len() ==> fits(#[trigger] rendered@[i]),
    ensures
        r@ == transformed(src@, policy, drawings(rendered@)),
{
    let bs = blocks(src, policy);
    let ghost all = block_views(bs@);
    let ghost ds = drawings(rendered@);
    let ghost goal = assembled(all, ds);
    let mut out = String::new();
    let mut i: usize = 0;
    let mut k: usize = 0;
    assert(all.skip(0) == all);
    assert(ds.skip(0) == ds);
    assert(out@ + goal == goal);
    while i < bs.len()
        invariant
            0 <= i <= bs@.len(),
            0 <= k <= rendered@.len(),
            all == block_views(bs@),
            ds == drawings(rendered@),
            forall|i: int| 0 <= i < rendered@.len() ==> fits(#[trigger] rendered@[i]),
            rendered@.len() - k == diagrams(all.skip(i as int)).len(),
            out@ + assembled(all.skip(i as int), ds.skip(k as int)) == goal,
        decreases bs@.len() - i,
    {
        let ghost before = out@;
        let ghost here = all.skip(i as int);
        let ghost left = ds.skip(k as int);
        assert(here.skip(1) == all.skip(i + 1));
        assert(here[0] == bs@[i as int]@);
        match &bs[i] {
            Block::Plain(line) => {
                out.append(line.as_str());
                out.append("\n");
                let ghost more = assembled(all.skip(i + 1), left);
                assert(before + (line@ + "\n"@ + more) == out@ + more);
            },
            Block::Open { line, body } => {
                push_source(&mut out, line.as_str(), body.as_str());
                let ghost more = assembled(all.skip(i + 1), left);
                assert(before + (source_text(line@, body@) + more) == out@ + more);
            },
            Block::Diagram { kind, line, body } => {
                assert(left[0] == rendered@[k as int]@);
                assert(left.skip(1) == ds.skip(k + 1));
                push_diagram(&mut out, *kind, line.as_str(), body.as_str(), &rendered[k]);
                let ghost more = assembled(all.skip(i + 1), ds.skip(k + 1));
                assert(before + (diagram_text(*kind, line@, body@, left[0]) + more) == out@ + more);
                k += 1;
            },
        }
        i += 1;
    }
    assert(all.skip(i as int).len() == 0);
    assert(out@ == goal);
    out
}

// ---------------------------------------------------------------------------
// Laws
// ---------------------------------------------------------------------------
/// Where Mermaid diagrams are not replaced, as for HTML, none of the diagrams that are is one.
pub proof fn law_mermaid_is_left_alone(ls: Seq<Seq<char>>, policy: TransformPolicy)
    requires
        !policy.mermaid,
    ensures
        forall|i: int|
            0 <= i < diagrams(pieces(ls, policy)).len() ==> (#[trigger] diagrams(
                pieces(ls, policy),
            )[i]).0 == DiagramKind::PlantUml,
    decreases ls.len(),
{
    let ps = pieces(ls, policy);
    if ls.len() > 0 {
        match active_fence(ls[0], policy) {
            None => {
                law_mermaid_is_left_alone(ls.skip(1), policy);
                assert(ps.skip(1) == pieces(ls.skip(1), policy));
            },
            Some(kind) => {
                let rest = ls.skip(1);
                let n = fence_end(rest);
                if 0 <= n < rest.len() {
                    law_mermaid_is_left_alone(rest.skip(n + 1), policy);
                    let tail = pieces(rest.skip(n + 1), policy);
                    assert(ps.skip(1) == tail);
                    assert forall|i: int| 0 <= i < diagrams(ps).len() implies (
                    #[trigger] diagrams(ps)[i]).0 == DiagramKind::PlantUml by {
                        if i > 0 {
                            assert(diagrams(ps)[i] == diagrams(tail)[i - 1]);
                        }
                    }
                } else {
                    assert(ps.skip(1) == Seq::<Piece>::empty());
                    assert(diagrams(ps.skip(1)) == Seq::<(DiagramKind, Seq<char>)>::empty());
                }
            },
        }
    }
}

/// A text without diagrams that are replaced keeps all its lines, and needs no image.
pub proof fn law_other_text_is_kept(
    ls: Seq<Seq<char>>,
    policy: TransformPolicy,
    ds: Seq<Drawing>,
)
    requires
        forall|i: int| 0 <= i < ls.len() ==> active_fence(#[trigger] ls[i], policy) is None,
    ensures
        diagrams(pieces(ls, policy)).len() == 0,
        assembled(pieces(ls, policy), ds) == unlines(ls),
    decreases ls.len(),
{
    let ps = pieces(ls, policy);
    if ls.len() > 0 {
        assert(active_fence(ls[0], policy) is None);
        assert forall|i: int| 0 <= i < ls.skip(1).len() implies active_fence(
            #[trigger] ls.skip(1)[i],
            policy,
        ) is None by {
            assert(active_fence(ls[i + 1], policy) is None);
        }
        law_other_text_is_kept(ls.skip(1), policy, ds);
        assert(ps.skip(1) == pieces(ls.skip(1), policy));
        lemma_unlines_front(ls);
        reveal_strlit("\n");
        assert("\n"@ == seq!['\n']);
    }
}

/// For a renderer that the preprocessor does not work for, every text keeps all its lines.
pub proof fn law_other_renderers_see_no_change(
    src: Seq<char>,
    renderer: Seq<char>,
    ds: Seq<Drawing>,
)
    requires
        !is_supported(renderer),
    ensures
        requests(src, TransformPolicy::of(renderer)).len() == 0,
        transformed(src, TransformPolicy::of(renderer), ds) == unlines(lines_of(src)),
{
    law_other_text_is_kept(lines_of(src), TransformPolicy::of(renderer), ds);
}

/// A diagram that is never closed is the last part of its text: it hides nothing behind it.
pub proof fn law_only_last_diagram_is_open(ls: Seq<Seq<char>>, policy: TransformPolicy, i: int)
    requires
        0 <= i < pieces(ls, policy).len(),
        pieces(ls, policy)[i] is Open,
    ensures
        i == pieces(ls, policy).len() - 1,
    decreases ls.len(),
{
    let ps = pieces(ls, policy);
    match active_fence(ls[0], policy) {
        None => {
            let tail = pieces(ls.skip(1), policy);
            assert(ps == seq![Piece::Plain(ls[0])] + tail);
            assert(ps[i] == tail[i - 1]);
            law_only_last_diagram_is_open(ls.skip(1), policy, i - 1);
        },
        Some(kind) => {
            let rest = ls.skip(1);
            let n = fence_end(rest);
            if 0 <= n < rest.len() {
                let tail = pieces(rest.skip(n + 1), policy);
                assert(ps[i] == tail[i - 1]);
                law_only_last_diagram_is_open(rest.skip(n + 1), policy, i - 1);
            }
        },
    }
}

/// The text begins with `word`, and the word ends there: with the text, or before white space, a
/// colon, a brace or a comma.
pub open spec fn begins_with_word(s: Seq<char>, word: Seq<char>) -> bool {
    &&& word.is_prefix_of(s)
    &&& s.len() == word.len() || is_white(s[word.len() as int]) || s[word.len() as int] == ':'
        || s[word.len() as int] == '{' || s[word.len() as int] == ','
}

/// The name in a fence is the word that stands there.
proof fn lemma_fence_name(s: Seq<char>, word: Seq<char>)
    requires
        forall|i: int| 0 <= i < word.len() ==> !ends_name(#[trigger] word[i]),
    ensures
        fence_name(s) == word <==> begins_with_word(s, word),
    decreases s.len(),
{
    if s.len() == 0 || ends_name(s[0]) {
        if word.len() > 0 && word.is_prefix_of(s) {
            assert(word[0] == s.take(word.len() as int)[0]);
        }
        assert(s.take(0) == Seq::<char>::empty());
    } else {
        let rest = s.skip(1);
        if word.len() == 0 {
            assert(fence_name(s)[0] == s[0]);
        } else {
            let tail = word.skip(1);
            assert forall|i: int| 0 <= i < tail.len() implies !ends_name(#[trigger] tail[i]) by {
                assert(tail[i] == word[i + 1]);
            }
            lemma_fence_name(rest, tail);
            assert(word == seq![word[0]] + tail);
            if fence_name(s) == word {
                assert(fence_name(s)[0] == s[0]);
                assert(fence_name(s).skip(1) == fence_name(rest));
                assert(tail == rest.take(tail.len() as int));
                assert(word == s.take(word.len() as int));
                if s.len() > word.len() {
                    assert(rest[tail.len() as int] == s[word.len() as int]);
                }
            }
            if begins_with_word(s, word) {
                assert(word == s.take(word.len() as int));
                assert(word[0] == s[0]);
                assert(tail == rest.take(tail.len() as int)) by {
                    assert forall|i: int| 0 <= i < tail.len() implies tail[i] == rest[i] by {
                        assert(tail[i] == word[i + 1]);
                    }
                }
                if s.len() > word.len() {
                    assert(rest[tail.len() as int] == s[word.len() as int]);
                }
                assert(fence_name(rest) == tail);
            }
        }
    }
}

/// Three backticks and a name are one word.
proof fn lemma_fence_word(t: Seq<char>, name: Seq<char>)
    requires
        forall|i: int| 0 <= i < name.len() ==> !ends_name(#[trigger] name[i]),
    ensures
        "```"@.is_prefix_of(t) && fence_name(t.skip(3)) == name <==> begins_with_word(
            t,
            seq!['`', '`', '`'] + name,
        ),
{
    reveal_strlit("```");
    assert("```"@ == seq!['`', '`', '`']);
    let word = seq!['`', '`', '`'] + name;
    let rest = t.skip(3);
    lemma_fence_name(rest, name);
    if "```"@.is_prefix_of(t) && begins_with_word(rest, name) {
        assert("```"@ == t.take(3));
        assert(name == rest.take(name.len() as int));
        assert forall|i: int| 0 <= i < word.len() implies word[i] == t[i] by {
            if i < 3 {
                assert(t[i] == t.take(3)[i]);
            } else {
                assert(t[i] == rest.take(name.len() as int)[i - 3]);
            }
        }
        assert(word == t.take(word.len() as int));
        if t.len() > word.len() {
            assert(t[word.len() as int] == rest[name.len() as int]);
        }
    }
    if begins_with_word(t, word) {
        assert(word == t.take(word.len() as int));
        assert(t.take(3) == word.take(3));
        assert(word.take(3) == "```"@);
        assert(name == rest.take(name.len() as int)) by {
            assert forall|i: int| 0 <= i < name.len() implies name[i] == rest[i] by {
                assert(word[i + 3] == t.take(word.len() as int)[i + 3]);
            }
        }
        if t.len() > word.len() {
            assert(t[word.len() as int] == rest[name.len() as int]);
        }
    }
}

/// The words that open a diagram, letter by letter.
proof fn lemma_fence_words()
    ensures
        "```plantuml"@ == seq!['`', '`', '`'] + "plantuml"@,
        "```puml"@ == seq!['`', '`', '`'] + "puml"@,
        "```mermaid"@ == seq!['`', '`', '`'] + "mermaid"@,
        forall|i: int| 0 <= i < "plantuml"@.len() ==> !ends_name(#[trigger] "plantuml"@[i]),
        forall|i: int| 0 <= i < "puml"@.len() ==> !ends_name(#[trigger] "puml"@[i]),
        forall|i: int| 0 <= i < "mermaid"@.len() ==> !ends_name(#[trigger] "mermaid"@[i]),
        "mermaid"@ != "plantuml"@,
        "mermaid"@ != "puml"@,
{
    reveal_strlit("```plantuml");
    reveal_strlit("```puml");
    reveal_strlit("```mermaid");
    reveal_strlit("plantuml");
    reveal_strlit("puml");
    reveal_strlit("mermaid");
    assert("mermaid"@.len() == 7 && "plantuml"@.len() == 8 && "puml"@.len() == 4);
}

/// The language of the diagram that a line opens is the one whose name follows the backticks, and
/// a line opens a diagram just where it begins so.
pub proof fn law_fence_names_the_language(t: Seq<char>)
    ensures
        fence(t) == Some(DiagramKind::PlantUml) <==> begins_with_word(t, "```plantuml"@)
            || begins_with_word(t, "```puml"@),
        fence(t) == Some(DiagramKind::Mermaid) <==> begins_with_word(t, "```mermaid"@),
{
    lemma_fence_words();
    lemma_fence_word(t, "plantuml"@);
    lemma_fence_word(t, "puml"@);
    lemma_fence_word(t, "mermaid"@);
}

/// However far a line is indented, it opens the diagram that it would open at the margin, and
/// closes one where it would there.
pub proof fn law_indentation_does_not_matter(
    w: Seq<char>,
    line: Seq<char>,
    policy: TransformPolicy,
)
    requires
        is_blank(w),
    ensures
        active_fence(w + line, policy) == active_fence(line, policy),
        closes(w + line) == closes(line),
{
    law_leading_white_space_is_dropped(w, line);
}

/// A line opens a diagram that is replaced just where its first characters that are not white
/// space are three backticks and the name of a language of which the diagrams are replaced.
pub proof fn law_fences_open_diagrams(w: Seq<char>, t: Seq<char>, policy: TransformPolicy)
    requires
        is_blank(w),
        t.len() == 0 || !is_white(t[0]),
    ensures
        active_fence(w + t, policy) == Some(DiagramKind::PlantUml) <==> policy.plantuml && (
        begins_with_word(t, "```plantuml"@) || begins_with_word(t, "```puml"@)),
        active_fence(w + t, policy) == Some(DiagramKind::Mermaid) <==> policy.mermaid
            && begins_with_word(t, "```mermaid"@),
{
    law_leading_white_space_is_dropped(w, t);
    law_fence_names_the_language(t);
}

/// A line closes a diagram just where it is three backticks, which white space may precede.
pub proof fn law_backticks_close_diagrams(w: Seq<char>, t: Seq<char>)
    requires
        is_blank(w),
        t.len() == 0 || !is_white(t[0]),
    ensures
        closes(w + t) <==> t == seq!['`', '`', '`'],
{
    reveal_strlit("```");
    assert("```"@ == seq!['`', '`', '`']);
    law_leading_white_space_is_dropped(w, t);
}

/// Lines that open no diagram stay before whatever follows them.
proof fn lemma_plain_lines_before(
    before: Seq<Seq<char>>,
    rest: Seq<Seq<char>>,
    policy: TransformPolicy,
    ds: Seq<Drawing>,
)
    requires
        forall|i: int| 0 <= i < before.len() ==> active_fence(#[trigger] before[i], policy) is None,
    ensures
        diagrams(pieces(before + rest, policy)) == diagrams(pieces(rest, policy)),
        assembled(pieces(before + rest, policy), ds) == unlines(before) + assembled(
            pieces(rest, policy),
            ds,
        ),
    decreases before.len(),
{
    let all = before + rest;
    if before.len() > 0 {
        let tail = before.skip(1);
        assert(active_fence(before[0], policy) is None);
        assert forall|i: int| 0 <= i < tail.len() implies active_fence(
            #[trigger] tail[i],
            policy,
        ) is None by {
            assert(tail[i] == before[i + 1]);
        }
        lemma_plain_lines_before(tail, rest, policy, ds);
        assert(all.skip(1) == tail + rest);
        let ps = pieces(all, policy);
        assert(ps.skip(1) == pieces(tail + rest, policy));
        lemma_unlines_front(before);
        reveal_strlit("\n");
        assert("\n"@ == seq!['\n']);
        let more = assembled(pieces(rest, policy), ds);
        assert(before[0] + seq!['\n'] + (unlines(tail) + more) == before[0] + seq!['\n'] + unlines(
            tail,
        ) + more);
    } else {
        assert(all == rest);
        assert(unlines(before) + assembled(pieces(rest, policy), ds) == assembled(
            pieces(rest, policy),
            ds,
        ));
    }
}

/// The lines from one that opens a diagram to the first one behind it that closes one are a
/// diagram. It is to be drawn, with the lines between the two as they stand. What was drawn takes
/// its place: an image in a line of its own, or the lines of the diagram with the reason why
/// there is none. The lines before it stay, and with the text behind it the same goes on.
pub proof fn law_diagram_is_replaced(
    src: Seq<char>,
    before: Seq<Seq<char>>,
    line: Seq<char>,
    body: Seq<Seq<char>>,
    close: Seq<char>,
    rest: Seq<char>,
    kind: DiagramKind,
    policy: TransformPolicy,
    ds: Seq<Drawing>,
)
    requires
        lines_of(src) == before + seq![line] + body + seq![close] + lines_of(rest),
        forall|i: int| 0 <= i < before.len() ==> active_fence(#[trigger] before[i], policy) is None,
        active_fence(line, policy) == Some(kind),
        forall|i: int| 0 <= i < body.len() ==> !closes(#[trigger] body[i]),
        closes(close),
        ds.len() > 0,
    ensures
        requests(src, policy) == seq![(kind, unlines(body))] + requests(rest, policy),
        ds[0] matches Drawing::Image(b) && kind == DiagramKind::PlantUml ==> transformed(
            src,
            policy,
            ds,
        ) == unlines(before) + ("![plantuml diagram](data:image/svg+xml;base64,"@ + base64_text(
            ds[0]->Image_0,
        ) + ")\n"@) + transformed(rest, policy, ds.skip(1)),
        ds[0] matches Drawing::Image(b) && kind == DiagramKind::Mermaid ==> transformed(
            src,
            policy,
            ds,
        ) == unlines(before) + ("![mermaid diagram](data:image/png;base64,"@ + base64_text(
            ds[0]->Image_0,
        ) + ")\n"@) + transformed(rest, policy, ds.skip(1)),
        ds[0] matches Drawing::Failed(e) ==> transformed(src, policy, ds) == unlines(before) + (
        unlines(seq![line] + body + seq!["```"@, ""@]) + ("> diagram render error: "@
            + ds[0]->Failed_0 + "\n"@)) + transformed(rest, policy, ds.skip(1)),
{
    let after = lines_of(rest);
    lemma_diagram_in_lines(before, line, body, close, after, kind, policy, ds);
    match ds[0] {
        Drawing::Image(b) => {
            lemma_image_lines(b);
        },
        Drawing::Failed(e) => {
            lemma_failed_text(kind, line, body, e);
        },
    }
}

/// A diagram behind lines that stay, with whatever follows it.
proof fn lemma_diagram_in_lines(
    before: Seq<Seq<char>>,
    line: Seq<char>,
    body: Seq<Seq<char>>,
    close: Seq<char>,
    after: Seq<Seq<char>>,
    kind: DiagramKind,
    policy: TransformPolicy,
    ds: Seq<Drawing>,
)
    requires
        forall|i: int| 0 <= i < before.len() ==> active_fence(#[trigger] before[i], policy) is None,
        active_fence(line, policy) == Some(kind),
        forall|i: int| 0 <= i < body.len() ==> !closes(#[trigger] body[i]),
        closes(close),
        ds.len() > 0,
    ensures
        diagrams(pieces(before + seq![line] + body + seq![close] + after, policy)) == seq![
            (kind, unlines(body)),
        ] + diagrams(pieces(after, policy)),
        assembled(pieces(before + seq![line] + body + seq![close] + after, policy), ds) == unlines(
            before,
        ) + diagram_text(kind, line, unlines(body), ds[0]) + assembled(
            pieces(after, policy),
            ds.skip(1),
        ),
{
    let here = seq![line] + body + seq![close] + after;
    let all = before + seq![line] + body + seq![close] + after;
    let text = unlines(body);
    assert(all == before + here);
    lemma_plain_lines_before(before, here, policy, ds);
    lemma_diagram_piece(line, body, close, after, kind, policy);
    let ps = pieces(here, policy);
    let own = seq![Piece::Diagram(kind, line, text)];
    let tail = pieces(after, policy);
    assert(ps[0] == own[0]);
    assert(ps.skip(1) == tail);
    let out = diagram_text(kind, line, text, ds[0]);
    let more = assembled(tail, ds.skip(1));
    assert(assembled(ps, ds) == out + more);
    assert(unlines(before) + (out + more) == unlines(before) + out + more);
}

/// The first part of lines that begin with a diagram.
proof fn lemma_diagram_piece(
    line: Seq<char>,
    body: Seq<Seq<char>>,
    close: Seq<char>,
    after: Seq<Seq<char>>,
    kind: DiagramKind,
    policy: TransformPolicy,
)
    requires
        active_fence(line, policy) == Some(kind),
        forall|i: int| 0 <= i < body.len() ==> !closes(#[trigger] body[i]),
        closes(close),
    ensures
        pieces(seq![line] + body + seq![close] + after, policy) == seq![
            Piece::Diagram(kind, line, unlines(body)),
        ] + pieces(after, policy),
{
    let here = seq![line] + body + seq![close] + after;
    let tail = here.skip(1);
    assert(here[0] == line);
    assert(tail == body + seq![close] + after);
    let n = body.len() as int;
    assert forall|i: int| 0 <= i < n implies !closes(#[trigger] tail[i]) by {
        assert(tail[i] == body[i]);
    }
    assert(tail[n] == close);
    lemma_fence_end(tail, n);
    assert(tail.take(n) == body);
    assert(tail.skip(n + 1) == after);
}

/// What stands in place of a diagram that could not be drawn.
proof fn lemma_failed_text(
    kind: DiagramKind,
    line: Seq<char>,
    body: Seq<Seq<char>>,
    e: Seq<char>,
)
    ensures
        diagram_text(kind, line, unlines(body), Drawing::Failed(e)) == unlines(
            seq![line] + body + seq!["```"@, ""@],
        ) + ("> diagram render error: "@ + e + "\n"@),
{
    lemma_source_text(line, body);
    reveal_strlit("\n> diagram render error: ");
    reveal_strlit("> diagram render error: ");
    assert("\n> diagram render error: "@ == seq!['\n'] + "> diagram render error: "@);
    let src = source_text(line, unlines(body));
    assert(diagram_text(kind, line, unlines(body), Drawing::Failed(e)) == src + seq!['\n'] + (
    "> diagram render error: "@ + e + "\n"@));
}

/// The lines that show images.
proof fn lemma_image_lines(b: Seq<u8>)
    ensures
        image_line("plantuml diagram"@, "image/svg+xml"@, b)
            == "![plantuml diagram](data:image/svg+xml;base64,"@ + base64_text(b) + ")\n"@,
        image_line("mermaid diagram"@, "image/png"@, b)
            == "![mermaid diagram](data:image/png;base64,"@ + base64_text(b) + ")\n"@,
{
    reveal_strlit("![");
    reveal_strlit("](data:");
    reveal_strlit(";base64,");
    reveal_strlit("plantuml diagram");
    reveal_strlit("mermaid diagram");
    reveal_strlit("image/svg+xml");
    reveal_strlit("image/png");
    reveal_strlit("![plantuml diagram](data:image/svg+xml;base64,");
    reveal_strlit("![mermaid diagram](data:image/png;base64,");
    assert("!["@ + "plantuml diagram"@ + "](data:"@ + "image/svg+xml"@ + ";base64,"@
        == "![plantuml diagram](data:image/svg+xml;base64,"@);
    assert("!["@ + "mermaid diagram"@ + "](data:"@ + "image/png"@ + ";base64,"@
        == "![mermaid diagram](data:image/png;base64,"@);
}

/// A diagram as it stood in the text is its lines and a line that closes it.
proof fn lemma_source_text(line: Seq<char>, body: Seq<Seq<char>>)
    ensures
        source_text(line, unlines(body)) == unlines(seq![line] + body + seq!["```"@]),
        source_text(line, unlines(body)) + seq!['\n'] == unlines(
            seq![line] + body + seq!["```"@, ""@],
        ),
{
    reveal_strlit("\n");
    reveal_strlit("```");
    reveal_strlit("```\n");
    reveal_strlit("");
    assert("\n"@ == seq!['\n']);
    assert("```\n"@ == "```"@ + seq!['\n']);
    law_lines_are_written_out(seq![line], body, line);
    let a = seq![line] + body;
    let b = a + seq!["```"@];
    law_lines_are_written_out(a, seq!["```"@], "```"@);
    law_lines_are_written_out(b, seq![""@], ""@);
    assert(b + seq![""@] == seq![line] + body + seq!["```"@, ""@]);
    assert(""@ + seq!['\n'] == seq!['\n']);
    assert(source_text(line, unlines(body)) == unlines(b));
}

/// A diagram that is never closed is not drawn. Its lines and those before it stay, and a line
/// that closes it is added.
pub proof fn law_open_diagram_is_closed(
    src: Seq<char>,
    before: Seq<Seq<char>>,
    line: Seq<char>,
    body: Seq<Seq<char>>,
    policy: TransformPolicy,
    ds: Seq<Drawing>,
)
    requires
        lines_of(src) == before + seq![line] + body,
        forall|i: int| 0 <= i < before.len() ==> active_fence(#[trigger] before[i], policy) is None,
        active_fence(line, policy) is Some,
        forall|i: int| 0 <= i < body.len() ==> !closes(#[trigger] body[i]),
    ensures
        requests(src, policy).len() == 0,
        transformed(src, policy, ds) == unlines(before + seq![line] + body + seq!["```"@]),
{
    let here = seq![line] + body;
    assert(lines_of(src) == before + here);
    lemma_plain_lines_before(before, here, policy, ds);
    assert(here.skip(1) == body);
    lemma_fence_end(body, body.len() as int);
    let ps = pieces(here, policy);
    assert(ps == seq![Piece::Open(line, unlines(body))]);
    assert(ps.skip(1) == Seq::<Piece>::empty());
    assert(diagrams(ps.skip(1)) == Seq::<(DiagramKind, Seq<char>)>::empty());
    assert(assembled(ps.skip(1), ds) == Seq::<char>::empty());
    lemma_source_text(line, body);
    let closed = seq![line] + body + seq!["```"@];
    law_lines_are_written_out(before, closed, line);
    assert(before + closed == before + seq![line] + body + seq!["```"@]);
    assert(source_text(line, unlines(body)) + Seq::<char>::empty() == unlines(closed));
}

/// A text without diagrams that are replaced keeps its lines, each with a line feed behind it.
pub proof fn law_text_without_diagrams_is_kept(
    src: Seq<char>,
    policy: TransformPolicy,
    ds: Seq<Drawing>,
)
    requires
        forall|i: int|
            0 <= i < lines_of(src).len() ==> active_fence(#[trigger] lines_of(src)[i], policy)
                is None,
    ensures
        requests(src, policy).len() == 0,
        transformed(src, policy, ds) == unlines(lines_of(src)),
{
    law_other_text_is_kept(lines_of(src), policy, ds);
}

/// For HTML the PlantUML diagrams are replaced, for pandoc those in Mermaid too, and for no other
/// renderer any.
pub proof fn law_renderers_get_their_diagrams(renderer: Seq<char>)
    ensures
        TransformPolicy::of(renderer).plantuml <==> renderer == "html"@ || renderer == "pandoc"@,
        TransformPolicy::of(renderer).mermaid <==> renderer == "pandoc"@,
{
}

} // verus!
