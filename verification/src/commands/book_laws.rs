//! Laws of books: every chapter is served, at whatever depth it stands, and nothing but the texts
//! of chapters changes.

use vstd::prelude::*;

use crate::commands::book::{
    book_out, book_requests, chapter_out, chapter_requests, content_out, content_requests,
    law_items_stay, lemma_position_stays, list_out, list_requests, section_out, section_requests,
};
use crate::commands::preprocess::{requests, transformed, DiagramKind, Drawing, TransformPolicy};
use crate::json::{lemma_position, member, position, with_member, JsonView};

verus! {

// ---------------------------------------------------------------------------
// One chapter, one item, one list
// ---------------------------------------------------------------------------
/// The diagrams of the text of a chapter.
pub open spec fn own_requests(c: JsonView, policy: TransformPolicy) -> Seq<
    (DiagramKind, Seq<char>),
> {
    match member(c, "content"@) {
        Some(JsonView::Text(t)) => requests(t, policy),
        _ => seq![],
    }
}

/// The members of a chapter have different names.
proof fn lemma_names_differ()
    ensures
        "content"@ != "sub_items"@,
{
    reveal_strlit("content");
    reveal_strlit("sub_items");
    assert("content"@.len() != "sub_items"@.len());
}

/// The diagrams of a chapter are those of its text and then those of all items within it, whatever
/// its text is. Likewise both are replaced: the first drawings go into its text, and the others
/// into the items within it.
pub proof fn law_chapter_and_items_within_are_served(
    c: JsonView,
    policy: TransformPolicy,
    ds: Seq<Drawing>,
)
    ensures
        chapter_requests(c, policy) == own_requests(c, policy) + match member(c, "sub_items"@) {
            Some(JsonView::Array(items)) => list_requests(items, policy),
            _ => seq![],
        },
        member(chapter_out(c, policy, ds), "content"@) == match member(c, "content"@) {
            Some(JsonView::Text(t)) => Some(
                JsonView::Text(
                    transformed(t, policy, ds.take(requests(t, policy).len() as int)),
                ),
            ),
            other => other,
        },
        member(chapter_out(c, policy, ds), "sub_items"@) == match member(c, "sub_items"@) {
            Some(JsonView::Array(items)) => Some(
                JsonView::Array(
                    list_out(items, policy, ds.skip(own_requests(c, policy).len() as int)),
                ),
            ),
            other => other,
        },
{
    lemma_names_differ();
    match c {
        JsonView::Object(ms) => {
            let i = position(ms, "content"@);
            let k = position(ms, "sub_items"@);
            lemma_position(ms, "content"@);
            lemma_position(ms, "sub_items"@);
            let n = content_requests(ms, policy).len() as int;
            let own = content_out(ms, policy, ds.take(n));
            if i < ms.len() && ms[i].1 is Text {
                lemma_position_stays(ms, i, own[i].1, "content"@);
                lemma_position_stays(ms, i, own[i].1, "sub_items"@);
            }
            assert(position(own, "content"@) == i && position(own, "sub_items"@) == k);
            if k < ms.len() && ms[k].1 is Array {
                assert(own[k] == ms[k]);
                let new = JsonView::Array(list_out(ms[k].1->Array_0, policy, ds.skip(n)));
                lemma_position_stays(own, k, new, "content"@);
                lemma_position_stays(own, k, new, "sub_items"@);
            }
        },
        _ => {},
    }
    assert(chapter_requests(c, policy) == own_requests(c, policy) + match member(c, "sub_items"@) {
        Some(JsonView::Array(items)) => list_requests(items, policy),
        _ => seq![],
    });
}

/// An item with a chapter is served as the chapter is.
pub proof fn law_item_is_served_as_its_chapter(
    v: JsonView,
    policy: TransformPolicy,
    ds: Seq<Drawing>,
)
    ensures
        section_requests(v, policy) == match member(v, "Chapter"@) {
            Some(c) => chapter_requests(c, policy),
            None => seq![],
        },
        member(section_out(v, policy, ds), "Chapter"@) == match member(v, "Chapter"@) {
            Some(c) => Some(chapter_out(c, policy, ds)),
            None => None,
        },
{
    if let JsonView::Object(ms) = v {
        let i = position(ms, "Chapter"@);
        lemma_position(ms, "Chapter"@);
        if i < ms.len() {
            lemma_position_stays(ms, i, chapter_out(ms[i].1, policy, ds), "Chapter"@);
        }
    }
}

/// The diagrams of two lists of items, one behind the other, are those of the one and then those
/// of the other, and each list gets the drawings of its own diagrams. A list of one item is served
/// as the item is.
pub proof fn law_lists_are_served_in_order(
    a: Seq<JsonView>,
    b: Seq<JsonView>,
    v: JsonView,
    policy: TransformPolicy,
    ds: Seq<Drawing>,
)
    requires
        ds.len() == list_requests(a + b, policy).len(),
    ensures
        list_requests(a + b, policy) == list_requests(a, policy) + list_requests(b, policy),
        list_out(a + b, policy, ds) == list_out(
            a,
            policy,
            ds.take(list_requests(a, policy).len() as int),
        ) + list_out(b, policy, ds.skip(list_requests(a, policy).len() as int)),
        list_requests(seq![v], policy) == section_requests(v, policy),
        forall|vs: Seq<Drawing>|
            vs.len() == section_requests(v, policy).len() ==> #[trigger] list_out(
                seq![v],
                policy,
                vs,
            ) == seq![section_out(v, policy, vs)],
    decreases a.len(),
{
    lemma_list_of_one(v, policy);
    if a.len() > 0 {
        let rest = a.skip(1);
        assert((a + b).skip(1) == rest + b);
        assert((a + b)[0] == a[0]);
        let n = section_requests(a[0], policy).len() as int;
        law_lists_are_served_in_order(rest, b, v, policy, ds.skip(n));
        assert(list_requests(a + b, policy) == list_requests(a, policy) + list_requests(b, policy));
        let m = list_requests(rest, policy).len() as int;
        let all = n + m;
        assert(list_requests(a, policy).len() == all);
        assert(ds.take(all).take(n) == ds.take(n));
        assert(ds.take(all).skip(n) == ds.skip(n).take(m));
        assert(ds.skip(n).skip(m) == ds.skip(all));
        assert(list_out(a + b, policy, ds) == list_out(a, policy, ds.take(all)) + list_out(
            b,
            policy,
            ds.skip(all),
        ));
    } else {
        assert(a + b == b);
        assert(ds.skip(0) == ds);
        assert(list_out(a + b, policy, ds) == list_out(a, policy, ds.take(0)) + list_out(
            b,
            policy,
            ds.skip(0),
        ));
        assert(list_requests(a + b, policy) == list_requests(a, policy) + list_requests(b, policy));
    }
}

/// A list of one item is served as the item is.
proof fn lemma_list_of_one(v: JsonView, policy: TransformPolicy)
    ensures
        list_requests(seq![v], policy) == section_requests(v, policy),
        forall|vs: Seq<Drawing>|
            vs.len() == section_requests(v, policy).len() ==> #[trigger] list_out(
                seq![v],
                policy,
                vs,
            ) == seq![section_out(v, policy, vs)],
{
    let none = seq![v].skip(1);
    assert(none.len() == 0);
    assert(list_requests(none, policy) == Seq::<(DiagramKind, Seq<char>)>::empty());
    assert(list_requests(seq![v], policy) == section_requests(v, policy));
    assert forall|vs: Seq<Drawing>|
        vs.len() == section_requests(v, policy).len() implies #[trigger] list_out(
        seq![v],
        policy,
        vs,
    ) == seq![section_out(v, policy, vs)] by {
        let n = vs.len() as int;
        assert(vs.take(n) == vs);
        assert(list_out(none, policy, vs.skip(n)) == Seq::<JsonView>::empty());
        assert(list_out(seq![v], policy, vs) == seq![section_out(v, policy, vs)]);
    }
}

// ---------------------------------------------------------------------------
// Chapters at any depth
// ---------------------------------------------------------------------------
/// The text of the chapter to which a path leads: each number of the path picks an item, first
/// among the given ones and then among those within the chapter that was picked.
pub open spec fn text_at(items: Seq<JsonView>, path: Seq<int>) -> Option<Seq<char>>
    decreases path.len(),
{
    if path.len() == 0 || !(0 <= path[0] < items.len()) {
        None
    } else {
        match member(items[path[0]], "Chapter"@) {
            None => None,
            Some(c) => if path.len() == 1 {
                match member(c, "content"@) {
                    Some(JsonView::Text(t)) => Some(t),
                    _ => None,
                }
            } else {
                match member(c, "sub_items"@) {
                    Some(JsonView::Array(within)) => text_at(within, path.skip(1)),
                    _ => None,
                }
            },
        }
    }
}

/// The drawings at the places from `o` on are those that the text `t` gets: its diagrams are asked
/// for at these places, and the text at the end of the path is the one with these drawings in it.
pub open spec fn is_served_at(
    asked: Seq<(DiagramKind, Seq<char>)>,
    out: Seq<JsonView>,
    path: Seq<int>,
    t: Seq<char>,
    policy: TransformPolicy,
    ds: Seq<Drawing>,
    o: int,
) -> bool {
    let n = requests(t, policy).len();
    &&& 0 <= o && o + n <= asked.len()
    &&& asked.subrange(o, o + n) == requests(t, policy)
    &&& text_at(out, path) == Some(transformed(t, policy, ds.subrange(o, o + n)))
}

/// Every item keeps its place in the list, and gets the drawings at the places where its diagrams
/// are asked for.
proof fn lemma_item_is_served(
    items: Seq<JsonView>,
    i: int,
    policy: TransformPolicy,
    ds: Seq<Drawing>,
) -> (o: int)
    requires
        0 <= i < items.len(),
        ds.len() == list_requests(items, policy).len(),
    ensures
        0 <= o,
        o + section_requests(items[i], policy).len() <= ds.len(),
        list_requests(items, policy).subrange(
            o,
            o + section_requests(items[i], policy).len(),
        ) == section_requests(items[i], policy),
        list_out(items, policy, ds).len() == items.len(),
        list_out(items, policy, ds)[i] == section_out(
            items[i],
            policy,
            ds.subrange(o, o + section_requests(items[i], policy).len()),
        ),
    decreases items.len(),
{
    let asked = list_requests(items, policy);
    let n = section_requests(items[0], policy).len() as int;
    let rest = items.skip(1);
    let m = section_requests(items[i], policy).len() as int;
    let out = list_out(items, policy, ds);
    let tail = list_out(rest, policy, ds.skip(n));
    assert(out == seq![section_out(items[0], policy, ds.take(n))] + tail);
    law_items_stay(rest, policy, ds.skip(n));
    if i == 0 {
        assert(asked.subrange(0, n) == section_requests(items[0], policy));
        assert(ds.subrange(0, n) == ds.take(n));
        0
    } else {
        let o = lemma_item_is_served(rest, i - 1, policy, ds.skip(n));
        assert(rest[i - 1] == items[i]);
        assert(asked.subrange(o + n, o + n + m) == list_requests(rest, policy).subrange(o, o + m));
        assert(ds.subrange(o + n, o + n + m) == ds.skip(n).subrange(o, o + m));
        assert(out[i] == tail[i - 1]);
        o + n
    }
}

/// Every chapter is served, at whatever depth it stands and whatever stands around it: the
/// diagrams of its text are asked for, and its text is the one with the drawings of just these
/// diagrams in it.
pub proof fn law_nested_chapters_are_served(
    items: Seq<JsonView>,
    path: Seq<int>,
    policy: TransformPolicy,
    ds: Seq<Drawing>,
)
    requires
        text_at(items, path) is Some,
        ds.len() == list_requests(items, policy).len(),
    ensures
        exists|o: int| #[trigger]
            is_served_at(
                list_requests(items, policy),
                list_out(items, policy, ds),
                path,
                text_at(items, path)->0,
                policy,
                ds,
                o,
            ),
    decreases path.len(),
{
    let i = path[0];
    let v = items[i];
    let t = text_at(items, path)->0;
    let asked = list_requests(items, policy);
    let out = list_out(items, policy, ds);
    let n = requests(t, policy).len() as int;
    let o = lemma_item_is_served(items, i, policy, ds);
    let m = section_requests(v, policy).len() as int;
    let mine = ds.subrange(o, o + m);
    law_item_is_served_as_its_chapter(v, policy, mine);
    let c = member(v, "Chapter"@)->0;
    law_chapter_and_items_within_are_served(c, policy, mine);
    let k = own_requests(c, policy).len() as int;
    if path.len() == 1 {
        assert(asked.subrange(o, o + n) == asked.subrange(o, o + m).take(n));
        assert(chapter_requests(c, policy).take(n) == requests(t, policy));
        assert(ds.subrange(o, o + n) == mine.take(n));
        assert(is_served_at(asked, out, path, t, policy, ds, o));
    } else {
        let within = member(c, "sub_items"@)->0->Array_0;
        let theirs = mine.skip(k);
        law_nested_chapters_are_served(within, path.skip(1), policy, theirs);
        let below = list_requests(within, policy);
        let q = choose|q: int| #[trigger]
            is_served_at(
                below,
                list_out(within, policy, theirs),
                path.skip(1),
                t,
                policy,
                theirs,
                q,
            );
        let at = o + k + q;
        assert(asked.subrange(at, at + n) == asked.subrange(o, o + m).subrange(k + q, k + q + n));
        assert(chapter_requests(c, policy).subrange(k + q, k + q + n) == below.subrange(q, q + n));
        assert(ds.subrange(at, at + n) == theirs.subrange(q, q + n));
        assert(is_served_at(asked, out, path, t, policy, ds, at));
    }
}

/// Every chapter of a book is served, at whatever depth it stands.
pub proof fn law_chapters_of_book_are_served(
    book: JsonView,
    items: Seq<JsonView>,
    path: Seq<int>,
    policy: TransformPolicy,
    ds: Seq<Drawing>,
)
    requires
        member(book, "items"@) == Some(JsonView::Array(items)),
        text_at(items, path) is Some,
        ds.len() == book_requests(book, policy).len(),
    ensures
        exists|out: Seq<JsonView>, o: int|
            member(book_out(book, policy, ds), "items"@) == Some(JsonView::Array(out))
                && #[trigger] is_served_at(
                book_requests(book, policy),
                out,
                path,
                text_at(items, path)->0,
                policy,
                ds,
                o,
            ),
{
    let out = list_out(items, policy, ds);
    law_nested_chapters_are_served(items, path, policy, ds);
    let o = choose|o: int| #[trigger]
        is_served_at(
            list_requests(items, policy),
            out,
            path,
            text_at(items, path)->0,
            policy,
            ds,
            o,
        );
    let ms = book->Object_0;
    let i = position(ms, "items"@);
    lemma_position(ms, "items"@);
    lemma_position_stays(ms, i, JsonView::Array(out), "items"@);
    assert(is_served_at(
        book_requests(book, policy),
        out,
        path,
        text_at(items, path)->0,
        policy,
        ds,
        o,
    ));
}

// ---------------------------------------------------------------------------
// The texts of a book in their order
// ---------------------------------------------------------------------------
/// The texts of the chapters of an item, in the order in which they stand.
pub open spec fn item_texts(v: JsonView) -> Seq<Seq<char>>
    decreases v,
{
    match v {
        JsonView::Object(ms) => {
            let i = position(ms, "Chapter"@);
            if 0 <= i < ms.len() {
                chapter_texts(ms[i].1)
            } else {
                seq![]
            }
        },
        _ => seq![],
    }
}

/// The text of a chapter, if it has one, and then the texts of the chapters within it.
pub open spec fn chapter_texts(c: JsonView) -> Seq<Seq<char>>
    decreases c,
{
    match c {
        JsonView::Object(ms) => {
            let i = position(ms, "content"@);
            let k = position(ms, "sub_items"@);
            let own = if 0 <= i < ms.len() {
                match ms[i].1 {
                    JsonView::Text(t) => seq![t],
                    _ => seq![],
                }
            } else {
                seq![]
            };
            let below = if 0 <= k < ms.len() {
                match ms[k].1 {
                    JsonView::Array(items) => list_texts(items),
                    _ => seq![],
                }
            } else {
                seq![]
            };
            own + below
        },
        _ => seq![],
    }
}

/// The texts of the chapters of items, in the order in which they stand.
pub open spec fn list_texts(items: Seq<JsonView>) -> Seq<Seq<char>>
    decreases items,
{
    if items.len() == 0 {
        seq![]
    } else {
        item_texts(items[0]) + list_texts(items.skip(1))
    }
}

/// The diagrams of texts, one text after the other.
pub open spec fn texts_requests(ts: Seq<Seq<char>>, policy: TransformPolicy) -> Seq<
    (DiagramKind, Seq<char>),
>
    decreases ts.len(),
{
    if ts.len() == 0 {
        seq![]
    } else {
        requests(ts[0], policy) + texts_requests(ts.skip(1), policy)
    }
}

/// Texts with their diagrams replaced: each gets as many of the drawings as it has diagrams, one
/// text after the other.
pub open spec fn texts_out(
    ts: Seq<Seq<char>>,
    policy: TransformPolicy,
    ds: Seq<Drawing>,
) -> Seq<Seq<char>>
    decreases ts.len(),
{
    if ts.len() == 0 {
        seq![]
    } else {
        let n = requests(ts[0], policy).len() as int;
        seq![transformed(ts[0], policy, ds.take(n))] + texts_out(ts.skip(1), policy, ds.skip(n))
    }
}

/// Texts one behind the other have the diagrams of the one list and then those of the other, and
/// each list gets its own drawings.
proof fn lemma_texts_in_order(
    a: Seq<Seq<char>>,
    b: Seq<Seq<char>>,
    policy: TransformPolicy,
    ds: Seq<Drawing>,
)
    ensures
        texts_requests(a + b, policy) == texts_requests(a, policy) + texts_requests(b, policy),
        ds.len() == texts_requests(a + b, policy).len() ==> texts_out(a + b, policy, ds)
            == texts_out(a, policy, ds.take(texts_requests(a, policy).len() as int)) + texts_out(
            b,
            policy,
            ds.skip(texts_requests(a, policy).len() as int),
        ),
    decreases a.len(),
{
    if a.len() > 0 {
        let rest = a.skip(1);
        assert((a + b).skip(1) == rest + b);
        let n = requests(a[0], policy).len() as int;
        lemma_texts_in_order(rest, b, policy, ds.skip(n));
        assert(texts_requests(a + b, policy) == texts_requests(a, policy) + texts_requests(
            b,
            policy,
        ));
        if ds.len() == texts_requests(a + b, policy).len() {
            let m = texts_requests(rest, policy).len() as int;
            let all = n + m;
            assert(ds.take(all).take(n) == ds.take(n));
            assert(ds.take(all).skip(n) == ds.skip(n).take(m));
            assert(ds.skip(n).skip(m) == ds.skip(all));
            assert(texts_out(a + b, policy, ds) == texts_out(a, policy, ds.take(all)) + texts_out(
                b,
                policy,
                ds.skip(all),
            ));
        }
    } else {
        assert(a + b == b);
        assert(texts_requests(a + b, policy) == texts_requests(a, policy) + texts_requests(
            b,
            policy,
        ));
        assert(ds.skip(0) == ds);
        assert(texts_out(a + b, policy, ds) == texts_out(a, policy, ds.take(0)) + texts_out(
            b,
            policy,
            ds.skip(0),
        ));
    }
}

/// A single text.
proof fn lemma_one_text(t: Seq<char>, policy: TransformPolicy, ds: Seq<Drawing>)
    ensures
        texts_requests(seq![t], policy) == requests(t, policy),
        ds.len() == requests(t, policy).len() ==> texts_out(seq![t], policy, ds) == seq![
            transformed(t, policy, ds),
        ],
{
    let none = seq![t].skip(1);
    assert(none.len() == 0);
    assert(texts_requests(none, policy) == Seq::<(DiagramKind, Seq<char>)>::empty());
    assert(texts_requests(seq![t], policy) == requests(t, policy));
    let n = requests(t, policy).len() as int;
    if ds.len() == n {
        assert(ds.take(n) == ds);
        assert(texts_out(none, policy, ds.skip(n)) == Seq::<Seq<char>>::empty());
        assert(texts_out(seq![t], policy, ds) == seq![transformed(t, policy, ds)]);
    }
}

/// The text of a chapter as a list.
pub open spec fn own_texts(c: JsonView) -> Seq<Seq<char>> {
    match member(c, "content"@) {
        Some(JsonView::Text(t)) => seq![t],
        _ => seq![],
    }
}

proof fn lemma_item_texts(v: JsonView, policy: TransformPolicy, ds: Seq<Drawing>)
    ensures
        section_requests(v, policy) == texts_requests(item_texts(v), policy),
        ds.len() == section_requests(v, policy).len() ==> item_texts(section_out(v, policy, ds))
            == texts_out(item_texts(v), policy, ds),
    decreases v,
{
    law_item_is_served_as_its_chapter(v, policy, ds);
    match v {
        JsonView::Object(ms) => {
            let i = position(ms, "Chapter"@);
            lemma_position(ms, "Chapter"@);
            if 0 <= i < ms.len() {
                lemma_chapter_texts(ms[i].1, policy, ds);
                let out = section_out(v, policy, ds);
                assert(member(out, "Chapter"@) == Some(chapter_out(ms[i].1, policy, ds)));
                lemma_position(out->Object_0, "Chapter"@);
                assert(item_texts(out) == chapter_texts(chapter_out(ms[i].1, policy, ds)));
            }
        },
        _ => {},
    }
}

proof fn lemma_chapter_texts(c: JsonView, policy: TransformPolicy, ds: Seq<Drawing>)
    ensures
        chapter_requests(c, policy) == texts_requests(chapter_texts(c), policy),
        ds.len() == chapter_requests(c, policy).len() ==> chapter_texts(chapter_out(c, policy, ds))
            == texts_out(chapter_texts(c), policy, ds),
    decreases c,
{
    law_chapter_and_items_within_are_served(c, policy, ds);
    match c {
        JsonView::Object(ms) => {
            let k = position(ms, "sub_items"@);
            lemma_position(ms, "sub_items"@);
            lemma_position(ms, "content"@);
            let n = own_requests(c, policy).len() as int;
            let own = own_texts(c);
            assert(texts_requests(own, policy) == own_requests(c, policy)) by {
                if own.len() > 0 {
                    lemma_one_text(own[0], policy, ds.take(n));
                }
            }
            let below = if 0 <= k < ms.len() && ms[k].1 is Array {
                list_texts(ms[k].1->Array_0)
            } else {
                seq![]
            };
            assert(chapter_texts(c) == own + below);
            if 0 <= k < ms.len() {
                if let JsonView::Array(items) = ms[k].1 {
                    lemma_list_texts(items, policy, ds.skip(n));
                }
            }
            lemma_texts_in_order(own, below, policy, ds);
            assert(chapter_requests(c, policy) == texts_requests(chapter_texts(c), policy));
            if ds.len() == chapter_requests(c, policy).len() {
                let out = chapter_out(c, policy, ds);
                let oms = out->Object_0;
                lemma_position(oms, "sub_items"@);
                lemma_position(oms, "content"@);
                assert(own_texts(out) == texts_out(own, policy, ds.take(n))) by {
                    if own.len() > 0 {
                        lemma_one_text(own[0], policy, ds.take(n));
                    }
                }
                let made = match member(out, "sub_items"@) {
                    Some(JsonView::Array(items)) => list_texts(items),
                    _ => seq![],
                };
                assert(chapter_texts(out) == own_texts(out) + made);
                assert(made == texts_out(below, policy, ds.skip(n)));
            }
        },
        _ => {},
    }
}

proof fn lemma_list_texts(items: Seq<JsonView>, policy: TransformPolicy, ds: Seq<Drawing>)
    ensures
        list_requests(items, policy) == texts_requests(list_texts(items), policy),
        ds.len() == list_requests(items, policy).len() ==> list_texts(list_out(items, policy, ds))
            == texts_out(list_texts(items), policy, ds),
    decreases items,
{
    if items.len() > 0 {
        let n = section_requests(items[0], policy).len() as int;
        let rest = items.skip(1);
        lemma_item_texts(items[0], policy, ds.take(n));
        lemma_list_texts(rest, policy, ds.skip(n));
        lemma_texts_in_order(item_texts(items[0]), list_texts(rest), policy, ds);
        if ds.len() == list_requests(items, policy).len() {
            let out = list_out(items, policy, ds);
            assert(out.skip(1) == list_out(rest, policy, ds.skip(n)));
            assert(out[0] == section_out(items[0], policy, ds.take(n)));
        }
    }
}

/// The texts of the chapters of a book, in the order in which they stand.
pub open spec fn book_texts(book: JsonView) -> Seq<Seq<char>> {
    match member(book, "items"@) {
        Some(JsonView::Array(items)) => list_texts(items),
        _ => seq![],
    }
}

/// The diagrams of a book are those of the texts of all its chapters, in the order in which they
/// stand, and no others. Each text gets the drawings of its own diagrams, and the texts keep their
/// order.
pub proof fn law_texts_of_book_are_served_in_order(
    book: JsonView,
    policy: TransformPolicy,
    ds: Seq<Drawing>,
)
    requires
        ds.len() == book_requests(book, policy).len(),
    ensures
        book_requests(book, policy) == texts_requests(book_texts(book), policy),
        book_texts(book_out(book, policy, ds)) == texts_out(book_texts(book), policy, ds),
{
    if let Some(JsonView::Array(items)) = member(book, "items"@) {
        lemma_list_texts(items, policy, ds);
        let ms = book->Object_0;
        let i = position(ms, "items"@);
        lemma_position(ms, "items"@);
        lemma_position_stays(ms, i, JsonView::Array(list_out(items, policy, ds)), "items"@);
    }
}

// ---------------------------------------------------------------------------
// What stays
// ---------------------------------------------------------------------------
/// An item without the texts of its chapters.
pub open spec fn item_frame(v: JsonView) -> JsonView
    decreases v,
{
    match v {
        JsonView::Object(ms) => {
            let i = position(ms, "Chapter"@);
            if 0 <= i < ms.len() {
                JsonView::Object(ms.update(i, (ms[i].0, chapter_frame(ms[i].1))))
            } else {
                v
            }
        },
        _ => v,
    }
}

/// A chapter with an empty text for its own, and without the texts of the chapters within it.
pub open spec fn chapter_frame(c: JsonView) -> JsonView
    decreases c,
{
    match c {
        JsonView::Object(ms) => {
            let i = position(ms, "content"@);
            let k = position(ms, "sub_items"@);
            let own = if 0 <= i < ms.len() && ms[i].1 is Text {
                ms.update(i, (ms[i].0, JsonView::Text(seq![])))
            } else {
                ms
            };
            if 0 <= k < ms.len() {
                match ms[k].1 {
                    JsonView::Array(items) => JsonView::Object(
                        own.update(k, (ms[k].0, JsonView::Array(list_frame(items)))),
                    ),
                    _ => JsonView::Object(own),
                }
            } else {
                JsonView::Object(own)
            }
        },
        _ => c,
    }
}

/// Items without the texts of their chapters.
pub open spec fn list_frame(items: Seq<JsonView>) -> Seq<JsonView>
    decreases items,
{
    if items.len() == 0 {
        seq![]
    } else {
        seq![item_frame(items[0])] + list_frame(items.skip(1))
    }
}

proof fn lemma_item_frame(v: JsonView, policy: TransformPolicy, ds: Seq<Drawing>)
    ensures
        item_frame(section_out(v, policy, ds)) == item_frame(v),
    decreases v,
{
    match v {
        JsonView::Object(ms) => {
            let i = position(ms, "Chapter"@);
            lemma_position(ms, "Chapter"@);
            if 0 <= i < ms.len() {
                let new = chapter_out(ms[i].1, policy, ds);
                lemma_chapter_frame(ms[i].1, policy, ds);
                lemma_position_stays(ms, i, new, "Chapter"@);
                let out = ms.update(i, (ms[i].0, new));
                assert(out.update(i, (out[i].0, chapter_frame(new))) == ms.update(
                    i,
                    (ms[i].0, chapter_frame(ms[i].1)),
                ));
            }
        },
        _ => {},
    }
}

proof fn lemma_chapter_frame(c: JsonView, policy: TransformPolicy, ds: Seq<Drawing>)
    ensures
        chapter_frame(chapter_out(c, policy, ds)) == chapter_frame(c),
    decreases c,
{
    lemma_names_differ();
    match c {
        JsonView::Object(ms) => {
            let i = position(ms, "content"@);
            let k = position(ms, "sub_items"@);
            lemma_position(ms, "content"@);
            lemma_position(ms, "sub_items"@);
            let n = content_requests(ms, policy).len() as int;
            let own = content_out(ms, policy, ds.take(n));
            if i < ms.len() && ms[i].1 is Text {
                lemma_position_stays(ms, i, own[i].1, "content"@);
                lemma_position_stays(ms, i, own[i].1, "sub_items"@);
            }
            assert(position(own, "content"@) == i && position(own, "sub_items"@) == k);
            let out = chapter_out(c, policy, ds)->Object_0;
            if 0 <= k < ms.len() {
                if let JsonView::Array(items) = ms[k].1 {
                    lemma_list_frame(items, policy, ds.skip(n));
                    assert(own[k] == ms[k]);
                    let new = JsonView::Array(list_out(items, policy, ds.skip(n)));
                    lemma_position_stays(own, k, new, "content"@);
                    lemma_position_stays(own, k, new, "sub_items"@);
                }
            }
            let a = chapter_frame(JsonView::Object(out))->Object_0;
            let b = chapter_frame(c)->Object_0;
            assert(a.len() == b.len());
            assert forall|j: int| 0 <= j < a.len() implies a[j] == b[j] by {
                if j != i && j != k {
                    assert(out[j] == ms[j]);
                }
            }
            assert(a == b);
        },
        _ => {},
    }
}

proof fn lemma_list_frame(items: Seq<JsonView>, policy: TransformPolicy, ds: Seq<Drawing>)
    ensures
        list_frame(list_out(items, policy, ds)) == list_frame(items),
    decreases items,
{
    if items.len() > 0 {
        let n = section_requests(items[0], policy).len() as int;
        lemma_item_frame(items[0], policy, ds.take(n));
        lemma_list_frame(items.skip(1), policy, ds.skip(n));
        let out = list_out(items, policy, ds);
        assert(out.skip(1) == list_out(items.skip(1), policy, ds.skip(n)));
        assert(out[0] == section_out(items[0], policy, ds.take(n)));
    }
}

/// A book without the texts of its chapters.
pub open spec fn book_frame(book: JsonView) -> JsonView {
    match member(book, "items"@) {
        Some(JsonView::Array(items)) => with_member(
            book,
            "items"@,
            JsonView::Array(list_frame(items)),
        ),
        _ => book,
    }
}

/// Nothing of a book changes but the texts of its chapters.
pub proof fn law_rest_of_book_is_kept(book: JsonView, policy: TransformPolicy, ds: Seq<Drawing>)
    ensures
        book_frame(book_out(book, policy, ds)) == book_frame(book),
{
    if let Some(JsonView::Array(items)) = member(book, "items"@) {
        lemma_list_frame(items, policy, ds);
        let ms = book->Object_0;
        let i = position(ms, "items"@);
        let new = JsonView::Array(list_out(items, policy, ds));
        lemma_position(ms, "items"@);
        lemma_position_stays(ms, i, new, "items"@);
        let framed = JsonView::Array(list_frame(items));
        let out = ms.update(i, (ms[i].0, new));
        assert(out.update(i, ("items"@, framed)) == ms.update(i, ("items"@, framed)));
    }
}

} // verus!
