//! Books as the preprocessor gets them: JSON values with chapters inside of chapters.

use vstd::prelude::*;
use vstd::slice::slice_subrange;

use crate::commands::preprocess::{
    diagram_requests, drawings, fits, request_views, requests, transform_markdown, transformed,
    DiagramKind, Drawing, Rendered, Request, TransformPolicy,
};
use crate::json::{
    find, get, json_text, lemma_member_replaced, lemma_members, lemma_position, lemma_values, member,
    members_of, parse_json, parsed_json, position, values_of, with_member, write_json, written_view,
    Json, JsonView, Member,
};
use crate::utf8::opt_text;

verus! {

// ---------------------------------------------------------------------------
// Diagrams of a book
// ---------------------------------------------------------------------------
/// The diagrams of a chapter's own text.
pub open spec fn content_requests(
    ms: Seq<(Seq<char>, JsonView)>,
    policy: TransformPolicy,
) -> Seq<(DiagramKind, Seq<char>)> {
    let i = position(ms, "content"@);
    if i < ms.len() {
        match ms[i].1 {
            JsonView::Text(t) => requests(t, policy),
            _ => seq![],
        }
    } else {
        seq![]
    }
}

/// The diagrams of an item of a book that are to be replaced: those of its chapter, if it is one.
pub open spec fn section_requests(v: JsonView, policy: TransformPolicy) -> Seq<
    (DiagramKind, Seq<char>),
>
    decreases v,
{
    match v {
        JsonView::Object(ms) => {
            let i = position(ms, "Chapter"@);
            if 0 <= i < ms.len() {
                chapter_requests(ms[i].1, policy)
            } else {
                seq![]
            }
        },
        _ => seq![],
    }
}

/// The diagrams of a chapter that are to be replaced: those of its own text, and then those of the
/// items within it.
pub open spec fn chapter_requests(c: JsonView, policy: TransformPolicy) -> Seq<
    (DiagramKind, Seq<char>),
>
    decreases c,
{
    match c {
        JsonView::Object(ms) => {
            let i = position(ms, "sub_items"@);
            let below = if 0 <= i < ms.len() {
                match ms[i].1 {
                    JsonView::Array(items) => list_requests(items, policy),
                    _ => seq![],
                }
            } else {
                seq![]
            };
            content_requests(ms, policy) + below
        },
        _ => seq![],
    }
}

/// The diagrams of items that are to be replaced, in their order.
pub open spec fn list_requests(items: Seq<JsonView>, policy: TransformPolicy) -> Seq<
    (DiagramKind, Seq<char>),
>
    decreases items,
{
    if items.len() == 0 {
        seq![]
    } else {
        section_requests(items[0], policy) + list_requests(items.skip(1), policy)
    }
}

/// The diagrams of a book that are to be replaced.
pub open spec fn book_requests(book: JsonView, policy: TransformPolicy) -> Seq<
    (DiagramKind, Seq<char>),
> {
    match member(book, "items"@) {
        Some(JsonView::Array(items)) => list_requests(items, policy),
        _ => seq![],
    }
}

// ---------------------------------------------------------------------------
// The book with its diagrams replaced
// ---------------------------------------------------------------------------
/// The members of a chapter with the diagrams of its own text replaced.
pub open spec fn content_out(
    ms: Seq<(Seq<char>, JsonView)>,
    policy: TransformPolicy,
    ds: Seq<Drawing>,
) -> Seq<(Seq<char>, JsonView)> {
    let i = position(ms, "content"@);
    if i < ms.len() {
        match ms[i].1 {
            JsonView::Text(t) => ms.update(i, (ms[i].0, JsonView::Text(transformed(t, policy, ds)))),
            _ => ms,
        }
    } else {
        ms
    }
}

/// An item of a book with its diagrams replaced.
pub open spec fn section_out(v: JsonView, policy: TransformPolicy, ds: Seq<Drawing>) -> JsonView
    decreases v,
{
    match v {
        JsonView::Object(ms) => {
            let i = position(ms, "Chapter"@);
            if 0 <= i < ms.len() {
                JsonView::Object(ms.update(i, (ms[i].0, chapter_out(ms[i].1, policy, ds))))
            } else {
                v
            }
        },
        _ => v,
    }
}

/// A chapter with its diagrams replaced, in its own text and in the items within it.
pub open spec fn chapter_out(c: JsonView, policy: TransformPolicy, ds: Seq<Drawing>) -> JsonView
    decreases c,
{
    match c {
        JsonView::Object(ms) => {
            let n = content_requests(ms, policy).len() as int;
            let own = content_out(ms, policy, ds.take(n));
            let i = position(ms, "sub_items"@);
            if 0 <= i < ms.len() {
                match ms[i].1 {
                    JsonView::Array(items) => JsonView::Object(
                        own.update(
                            i,
                            (ms[i].0, JsonView::Array(list_out(items, policy, ds.skip(n)))),
                        ),
                    ),
                    _ => JsonView::Object(own),
                }
            } else {
                JsonView::Object(own)
            }
        },
        _ => c,
    }
}

/// Items with their diagrams replaced.
pub open spec fn list_out(
    items: Seq<JsonView>,
    policy: TransformPolicy,
    ds: Seq<Drawing>,
) -> Seq<JsonView>
    decreases items,
{
    if items.len() == 0 {
        seq![]
    } else {
        let n = section_requests(items[0], policy).len() as int;
        seq![section_out(items[0], policy, ds.take(n))] + list_out(
            items.skip(1),
            policy,
            ds.skip(n),
        )
    }
}

/// A book with its diagrams replaced.
pub open spec fn book_out(book: JsonView, policy: TransformPolicy, ds: Seq<Drawing>) -> JsonView {
    match member(book, "items"@) {
        Some(JsonView::Array(items)) => with_member(
            book,
            "items"@,
            JsonView::Array(list_out(items, policy, ds)),
        ),
        _ => book,
    }
}

// ---------------------------------------------------------------------------
// Collecting the diagrams
// ---------------------------------------------------------------------------
/// Adds the diagrams of a text.
fn add_text_requests(text: &str, policy: TransformPolicy, out: &mut Vec<Request>)
    ensures
        request_views(final(out)@) == request_views(old(out)@) + requests(text@, policy),
{
    let mut more = diagram_requests(text, policy);
    let ghost start = out@;
    let ghost added = more@;
    out.append(&mut more);
    assert(out@ == start + added);
    assert(request_views(out@) == request_views(start) + request_views(added));
}

/// Adds the diagrams of an item.
fn add_section_requests(section: &Json, policy: TransformPolicy, out: &mut Vec<Request>)
    ensures
        request_views(final(out)@) == request_views(old(out)@) + section_requests(
            section@,
            policy,
        ),
    decreases *section,
{
    match section {
        Json::Object(ms) => {
            let i: usize = find(ms, "Chapter");
            proof {
                lemma_members(ms@);
            }
            if i < ms.len() {
                add_chapter_requests(&ms[i].value, policy, out);
            } else {
                assert(request_views(out@) == request_views(out@) + section_requests(
                    section@,
                    policy,
                ));
            }
        },
        _ => {
            assert(request_views(out@) == request_views(out@) + section_requests(section@, policy));
        },
    }
}

/// Adds the diagrams of a chapter.
fn add_chapter_requests(chapter: &Json, policy: TransformPolicy, out: &mut Vec<Request>)
    ensures
        request_views(final(out)@) == request_views(old(out)@) + chapter_requests(
            chapter@,
            policy,
        ),
    decreases *chapter,
{
    let ghost start = request_views(out@);
    match chapter {
        Json::Object(ms) => {
            let ghost all = members_of(ms@);
            proof {
                lemma_members(ms@);
            }
            let i: usize = find(ms, "content");
            if i < ms.len() {
                if let Json::Text(t) = &ms[i].value {
                    add_text_requests(t.as_str(), policy, out);
                }
            }
            assert(request_views(out@) == start + content_requests(all, policy));
            let k: usize = find(ms, "sub_items");
            if k < ms.len() {
                if let Json::Array(items) = &ms[k].value {
                    add_list_requests(items, policy, out);
                }
            }
            assert(request_views(out@) == start + chapter_requests(chapter@, policy));
        },
        _ => {
            assert(request_views(out@) == start + chapter_requests(chapter@, policy));
        },
    }
}

/// Adds the diagrams of items.
fn add_list_requests(items: &Vec<Json>, policy: TransformPolicy, out: &mut Vec<Request>)
    ensures
        request_views(final(out)@) == request_views(old(out)@) + list_requests(
            values_of(items@),
            policy,
        ),
    decreases *items,
{
    let ghost all = values_of(items@);
    let ghost start = request_views(out@);
    proof {
        lemma_values(items@);
    }
    let mut i: usize = 0;
    assert(all.skip(0) == all);
    while i < items.len()
        invariant
            0 <= i <= items@.len(),
            all == values_of(items@),
            all.len() == items@.len(),
            forall|i: int| 0 <= i < items@.len() ==> #[trigger] all[i] == items@[i]@,
            request_views(out@) + list_requests(all.skip(i as int), policy) == start
                + list_requests(all, policy),
        decreases items@.len() - i,
    {
        let ghost here = all.skip(i as int);
        let ghost before = request_views(out@);
        assert(here.skip(1) == all.skip(i + 1));
        assert(here[0] == items@[i as int]@);
        add_section_requests(&items[i], policy, out);
        proof {
            let own = section_requests(here[0], policy);
            let more = list_requests(all.skip(i + 1), policy);
            assert(before + (own + more) == (before + own) + more);
        }
        i += 1;
    }
    assert(all.skip(i as int).len() == 0);
    assert(request_views(out@) == start + list_requests(all, policy));
}

/// The diagrams of a book that are to be replaced, in the order in which they stand in it.
pub fn diagrams_of(book: &Json, policy: TransformPolicy) -> (r: Vec<Request>)
    ensures
        request_views(r@) == book_requests(book@, policy),
{
    let mut out: Vec<Request> = Vec::new();
    match get(book, "items") {
        Some(Json::Array(items)) => {
            add_list_requests(items, policy, &mut out);
        },
        _ => {},
    }
    assert(request_views(out@) == book_requests(book@, policy));
    out
}

// ---------------------------------------------------------------------------
// Replacing the diagrams
// ---------------------------------------------------------------------------
/// Takes the first `n` results.
fn first_of(rendered: &[Rendered], n: usize) -> (r: &[Rendered])
    requires
        n <= rendered@.len(),
        forall|i: int| 0 <= i < rendered@.len() ==> fits(#[trigger] rendered@[i]),
    ensures
        r@ == rendered@.take(n as int),
        drawings(r@) == drawings(rendered@).take(n as int),
        forall|i: int| 0 <= i < r@.len() ==> fits(#[trigger] r@[i]),
{
    let r = slice_subrange(rendered, 0, n);
    assert(r@ == rendered@.take(n as int));
    assert(drawings(r@) == drawings(rendered@).take(n as int));
    r
}

/// Leaves out the first `n` results.
fn rest_of(rendered: &[Rendered], n: usize) -> (r: &[Rendered])
    requires
        n <= rendered@.len(),
        forall|i: int| 0 <= i < rendered@.len() ==> fits(#[trigger] rendered@[i]),
    ensures
        r@ == rendered@.skip(n as int),
        drawings(r@) == drawings(rendered@).skip(n as int),
        forall|i: int| 0 <= i < r@.len() ==> fits(#[trigger] r@[i]),
{
    let r = slice_subrange(rendered, n, rendered.len());
    assert(r@ == rendered@.skip(n as int));
    assert(drawings(r@) == drawings(rendered@).skip(n as int));
    r
}

/// A member's value may change without a change of any member's position.
pub proof fn lemma_position_stays(
    ms: Seq<(Seq<char>, JsonView)>,
    i: int,
    new: JsonView,
    name: Seq<char>,
)
    requires
        0 <= i < ms.len(),
    ensures
        position(ms.update(i, (ms[i].0, new)), name) == position(ms, name),
    decreases ms.len(),
{
    let after = ms.update(i, (ms[i].0, new));
    if ms[0].0 != name && i > 0 {
        assert(after.skip(1) == ms.skip(1).update(i - 1, (ms.skip(1)[i - 1].0, new)));
        lemma_position_stays(ms.skip(1), i - 1, new, name);
    } else if ms[0].0 != name {
        assert(after.skip(1) == ms.skip(1));
    }
}

/// Replaces the diagrams of an item of a book; `rendered` has one result for each of them.
fn transform_section(section: Json, policy: TransformPolicy, rendered: &[Rendered]) -> (r: Json)
    requires
        rendered@.len() == section_requests(section@, policy).len(),
        forall|i: int| 0 <= i < rendered@.len() ==> fits(#[trigger] rendered@[i]),
    ensures
        r@ == section_out(section@, policy, drawings(rendered@)),
    decreases section,
{
    match section {
        Json::Object(ms) => {
            let mut ms = ms;
            let ghost before = ms@;
            proof {
                lemma_members(before);
            }
            let i: usize = find(&ms, "Chapter");
            if i < ms.len() {
                let Member { name, value } = ms.remove(i);
                assert(value == before[i as int].value);
                let new = transform_chapter(value, policy, rendered);
                ms.insert(i, Member { name, value: new });
                proof {
                    lemma_member_replaced(before, ms@, i as int);
                }
            }
            Json::Object(ms)
        },
        other => other,
    }
}

/// Replaces the diagrams of a chapter's own text.
fn transform_content(
    ms: &mut Vec<Member>,
    policy: TransformPolicy,
    rendered: &[Rendered],
) -> (used: usize)
    requires
        content_requests(members_of(old(ms)@), policy).len() <= rendered@.len(),
        forall|i: int| 0 <= i < rendered@.len() ==> fits(#[trigger] rendered@[i]),
    ensures
        used == content_requests(members_of(old(ms)@), policy).len(),
        members_of(final(ms)@) == content_out(
            members_of(old(ms)@),
            policy,
            drawings(rendered@).take(used as int),
        ),
        final(ms)@.len() == old(ms)@.len(),
        forall|k: int|
            0 <= k < old(ms)@.len() && k != position(members_of(old(ms)@), "content"@)
                ==> #[trigger] final(ms)@[k] == old(ms)@[k],
{
    let ghost before = ms@;
    proof {
        lemma_members(before);
    }
    let i: usize = find(&*ms, "content");
    if i < ms.len() {
        let text = match &ms[i].value {
            Json::Text(t) => Some(t.clone()),
            _ => None,
        };
        match text {
            Some(t) => {
                let n: usize = diagram_requests(t.as_str(), policy).len();
                assert(n == content_requests(members_of(before), policy).len());
                let new = transform_markdown(t.as_str(), policy, first_of(rendered, n));
                let value = Json::Text(new);
                let Member { name, value: _ } = ms.remove(i);
                ms.insert(i, Member { name, value });
                proof {
                    lemma_member_replaced(before, ms@, i as int);
                }
                return n;
            },
            None => {},
        }
    }
    0
}

/// Replaces the diagrams of a chapter.
fn transform_chapter(chapter: Json, policy: TransformPolicy, rendered: &[Rendered]) -> (r: Json)
    requires
        rendered@.len() == chapter_requests(chapter@, policy).len(),
        forall|i: int| 0 <= i < rendered@.len() ==> fits(#[trigger] rendered@[i]),
    ensures
        r@ == chapter_out(chapter@, policy, drawings(rendered@)),
    decreases chapter,
{
    match chapter {
        Json::Object(ms) => {
            let mut ms = ms;
            let ghost before = ms@;
            let ghost all = members_of(before);
            proof {
                lemma_members(before);
                lemma_position(all, "content"@);
                lemma_position(all, "sub_items"@);
                reveal_strlit("content");
                reveal_strlit("sub_items");
                assert("content"@.len() != "sub_items"@.len());
            }
            let n: usize = transform_content(&mut ms, policy, rendered);
            let ghost own = ms@;
            let ghost own_all = members_of(own);
            proof {
                lemma_members(own);
                let i = position(all, "content"@);
                if i < all.len() && all[i].1 is Text {
                    lemma_position_stays(all, i, own_all[i].1, "sub_items"@);
                }
                assert(position(own_all, "sub_items"@) == position(all, "sub_items"@));
            }
            let k: usize = find(&ms, "sub_items");
            if k < ms.len() {
                assert(own[k as int] == before[k as int]);
                let Member { name, value } = ms.remove(k);
                assert(value == before[k as int].value);
                let new = match value {
                    Json::Array(items) => Json::Array(
                        transform_list(items, policy, rest_of(rendered, n)),
                    ),
                    other => other,
                };
                ms.insert(k, Member { name, value: new });
                proof {
                    lemma_member_replaced(own, ms@, k as int);
                    if !(all[k as int].1 is Array) {
                        assert(members_of(ms@) == own_all);
                    }
                }
            }
            Json::Object(ms)
        },
        other => other,
    }
}

/// Replaces the diagrams of items.
fn transform_list(items: Vec<Json>, policy: TransformPolicy, rendered: &[Rendered]) -> (r: Vec<
    Json,
>)
    requires
        rendered@.len() == list_requests(values_of(items@), policy).len(),
        forall|i: int| 0 <= i < rendered@.len() ==> fits(#[trigger] rendered@[i]),
    ensures
        values_of(r@) == list_out(values_of(items@), policy, drawings(rendered@)),
    decreases items,
{
    let ghost given = items;
    let ghost all = values_of(items@);
    let ghost goal = list_out(all, policy, drawings(rendered@));
    proof {
        lemma_values(items@);
    }
    let mut left = items;
    let mut results = rendered;
    let mut out: Vec<Json> = Vec::new();
    let ghost mut i: int = 0;
    assert(left@ == given@.skip(0));
    assert(all.skip(0) == all);
    assert(values_of(out@) + goal == goal);
    while left.len() > 0
        invariant
            0 <= i <= given@.len(),
            left@ == given@.skip(i),
            all == values_of(given@),
            all.len() == given@.len(),
            forall|i: int| 0 <= i < given@.len() ==> #[trigger] all[i] == given@[i]@,
            results@.len() == list_requests(all.skip(i), policy).len(),
            forall|i: int| 0 <= i < results@.len() ==> fits(#[trigger] results@[i]),
            values_of(out@) + list_out(all.skip(i), policy, drawings(results@)) == goal,
            items == given,
        decreases left@.len(),
    {
        let ghost here = all.skip(i);
        let ghost before = out@;
        let ghost ds = drawings(results@);
        assert(here.skip(1) == all.skip(i + 1));
        let item = left.remove(0);
        assert(item == given@[i]);
        assert(here[0] == item@);
        assert(left@ == given@.skip(i + 1));
        let n: usize = section_diagrams(&item, policy);
        let done = transform_section(item, policy, first_of(results, n));
        results = rest_of(results, n);
        let ghost made = done@;
        out.push(done);
        proof {
            assert(out@.drop_last() == before);
            assert(values_of(out@) == values_of(before).push(made));
            let more = list_out(all.skip(i + 1), policy, ds.skip(n as int));
            assert(values_of(before) + (seq![made] + more) == values_of(before).push(made) + more);
            i = i + 1;
        }
    }
    assert(all.skip(i).len() == 0);
    assert(values_of(out@) == goal);
    out
}

/// How many diagrams of an item are to be replaced.
fn section_diagrams(section: &Json, policy: TransformPolicy) -> (n: usize)
    ensures
        n == section_requests(section@, policy).len(),
{
    let mut list: Vec<Request> = Vec::new();
    add_section_requests(section, policy, &mut list);
    assert(request_views(list@) == section_requests(section@, policy));
    list.len()
}

/// Replaces the diagrams of a book; `rendered` has one result for each of `diagrams_of`, in the
/// same order. Nothing else of the book changes.
pub fn transform_book(book: Json, policy: TransformPolicy, rendered: &[Rendered]) -> (r: Json)
    requires
        rendered@.len() == book_requests(book@, policy).len(),
        forall|i: int| 0 <= i < rendered@.len() ==> fits(#[trigger] rendered@[i]),
    ensures
        r@ == book_out(book@, policy, drawings(rendered@)),
{
    match book {
        Json::Object(ms) => {
            let mut ms = ms;
            let ghost before = ms@;
            proof {
                lemma_members(before);
                lemma_position(members_of(before), "items"@);
            }
            let i: usize = find(&ms, "items");
            if i < ms.len() {
                let Member { name, value } = ms.remove(i);
                let new = match value {
                    Json::Array(items) => Json::Array(transform_list(items, policy, rendered)),
                    other => other,
                };
                ms.insert(i, Member { name, value: new });
                proof {
                    lemma_member_replaced(before, ms@, i as int);
                    if !(members_of(before)[i as int].1 is Array) {
                        assert(members_of(ms@) == members_of(before));
                    }
                }
            }
            Json::Object(ms)
        },
        other => other,
    }
}

// ---------------------------------------------------------------------------
// The preprocessor's input
// ---------------------------------------------------------------------------
/// What the preprocessor is to do.
pub struct Invocation {
    /// The directory of the book.
    pub root: String,
    /// The renderer that the book is for.
    pub renderer: String,
    /// The book.
    pub book: Json,
}

/// The element of an array at the given position.
pub open spec fn element(v: JsonView, i: int) -> Option<JsonView> {
    match v {
        JsonView::Array(items) => if i < items.len() {
            Some(items[i])
        } else {
            None
        },
        _ => None,
    }
}

/// The text of the member with the given name.
pub open spec fn text_member(v: Option<JsonView>, name: Seq<char>) -> Option<Seq<char>> {
    match v {
        Some(c) => match member(c, name) {
            Some(JsonView::Text(t)) => Some(t),
            _ => None,
        },
        None => None,
    }
}

/// The text of the member with the given name, if there is one.
fn text_of(j: &Json, name: &str) -> (r: Option<String>)
    ensures
        opt_text(r) == text_member(Some(j@), name@),
{
    match get(j, name) {
        Some(Json::Text(t)) => Some(t.clone()),
        _ => None,
    }
}

/// What the preprocessor is to do, as a mathematical value.
pub struct Task {
    /// The directory of the book.
    pub root: Seq<char>,
    /// The renderer that the book is for.
    pub renderer: Seq<char>,
    /// The book.
    pub book: JsonView,
}

impl View for Invocation {
    type V = Task;

    open spec fn view(&self) -> Task {
        Task { root: self.root@, renderer: self.renderer@, book: self.book@ }
    }
}

/// What the preprocessor is to do, from an array of the context and the book. The context has to
/// name the directory of the book, and may name a renderer. Where the book is missing, it is an
/// empty one.
pub open spec fn task_of(input: JsonView) -> Option<Task> {
    let context = element(input, 0);
    match text_member(context, "root"@) {
        None => None,
        Some(root) => Some(
            Task {
                root,
                renderer: match text_member(context, "renderer"@) {
                    Some(name) => name,
                    None => seq![],
                },
                book: match element(input, 1) {
                    Some(book) => book,
                    None => JsonView::Object(seq![]),
                },
            },
        ),
    }
}

/// Takes the preprocessor's input apart; there is nothing where it does not name the directory of
/// the book.
pub fn read_invocation(input: Json) -> (r: Option<Invocation>)
    ensures
        match task_of(input@) {
            Some(t) => r matches Some(v) && v@ == t,
            None => r is None,
        },
{
    match input {
        Json::Array(items) => {
            let mut items = items;
            proof {
                lemma_values(items@);
            }
            if items.len() == 0 {
                return None;
            }
            let root = match text_of(&items[0], "root") {
                Some(t) => t,
                None => {
                    return None;
                },
            };
            let renderer = match text_of(&items[0], "renderer") {
                Some(t) => t,
                None => String::new(),
            };
            let book = if items.len() > 1 {
                items.remove(1)
            } else {
                let none: Vec<Member> = Vec::new();
                assert(members_of(none@) == Seq::<(Seq<char>, JsonView)>::empty());
                Json::Object(none)
            };
            Some(Invocation { root, renderer, book })
        },
        _ => None,
    }
}

/// Why the preprocessor's input is refused.
#[derive(Debug)]
pub enum InputError {
    /// It is not JSON, with the reader's message.
    Syntax(String),
    /// It does not name the directory of the book.
    NoRoot,
}

/// Reads the preprocessor's input.
pub fn read_input(text: &str) -> (r: Result<Invocation, InputError>)
    ensures
        match parsed_json(text@) {
            Err(m) => r matches Err(InputError::Syntax(e)) && e@ == m,
            Ok(input) => match task_of(input) {
                Some(t) => r matches Ok(v) && v@ == t,
                None => r matches Err(InputError::NoRoot),
            },
        },
{
    match parse_json(text) {
        Err(m) => Err(InputError::Syntax(m)),
        Ok(input) => match read_invocation(input) {
            Some(v) => Ok(v),
            None => Err(InputError::NoRoot),
        },
    }
}

/// The preprocessor's output: the text of the book with its diagrams replaced. `rendered` has one
/// result for each of `diagrams_of`, in the same order.
pub fn write_output(book: Json, policy: TransformPolicy, rendered: &[Rendered]) -> (r: Result<
    String,
    String,
>)
    requires
        rendered@.len() == book_requests(book@, policy).len(),
        forall|i: int| 0 <= i < rendered@.len() ==> fits(#[trigger] rendered@[i]),
    ensures
        written_view(r) == json_text(book_out(book@, policy, drawings(rendered@))),
{
    write_json(transform_book(book, policy, rendered))
}

// ---------------------------------------------------------------------------
// Laws
// ---------------------------------------------------------------------------
/// No item of a book is lost or added.
pub proof fn law_items_stay(items: Seq<JsonView>, policy: TransformPolicy, ds: Seq<Drawing>)
    ensures
        list_out(items, policy, ds).len() == items.len(),
    decreases items.len(),
{
    if items.len() > 0 {
        let n = section_requests(items[0], policy).len() as int;
        law_items_stay(items.skip(1), policy, ds.skip(n));
    }
}

/// An item that is not a chapter, such as a separator, stays as it is.
pub proof fn law_other_items_are_kept(v: JsonView, policy: TransformPolicy, ds: Seq<Drawing>)
    requires
        member(v, "Chapter"@) is None,
    ensures
        section_requests(v, policy).len() == 0,
        section_out(v, policy, ds) == v,
{
}

/// A chapter keeps every member but its text and the items within it.
pub proof fn law_chapter_keeps_other_members(
    ms: Seq<(Seq<char>, JsonView)>,
    policy: TransformPolicy,
    ds: Seq<Drawing>,
    k: int,
)
    requires
        0 <= k < ms.len(),
        ms[k].0 != "content"@,
        ms[k].0 != "sub_items"@,
    ensures
        chapter_out(JsonView::Object(ms), policy, ds) matches JsonView::Object(out) && out.len()
            == ms.len() && out[k] == ms[k],
{
    lemma_position(ms, "content"@);
    lemma_position(ms, "sub_items"@);
}

/// The preprocessor is given an array of the context and the book. It does its work just where the
/// context is an object with a text `root`; the renderer is the context's text `renderer`, and
/// nothing where there is none. Without a book it works on an empty one.
pub proof fn law_input_is_taken_apart(
    context: JsonView,
    book: JsonView,
    more: Seq<JsonView>,
    input: JsonView,
)
    ensures
        ({
            let task = task_of(JsonView::Array(seq![context, book] + more));
            let root = member(context, "root"@);
            let renderer = member(context, "renderer"@);
            &&& task is Some <==> root is Some && root->0 is Text
            &&& task is Some ==> task->0.root == root->0->Text_0 && task->0.book == book
            &&& task is Some && renderer is Some && renderer->0 is Text ==> task->0.renderer
                == renderer->0->Text_0
            &&& task is Some && !(renderer is Some && renderer->0 is Text) ==> task->0.renderer.len()
                == 0
        }),
        task_of(JsonView::Array(seq![context])) == task_of(
            JsonView::Array(seq![context, JsonView::Object(seq![])]),
        ),
        !(input is Array) ==> task_of(input) is None,
        task_of(JsonView::Array(seq![])) is None,
{
    let all = seq![context, book] + more;
    assert(all[0] == context && all[1] == book);
}

} // verus!
