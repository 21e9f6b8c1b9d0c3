//! JSON values.

use vstd::prelude::*;

use crate::text::same_str;

verus! {

/// A number of `serde_json`, which is carried along as it is.
#[verifier::external_type_specification]
#[verifier::external_body]
pub struct ExNumber(serde_json::Number);

/// A JSON value of `serde_json`, as it comes from and goes to its text form.
#[verifier::external_type_specification]
#[verifier::external_body]
pub struct ExValue(serde_json::Value);

/// A JSON value.
pub enum Json {
    /// `null`
    Null,
    /// `true` or `false`
    Bool(bool),
    /// A number.
    Number(serde_json::Number),
    /// A string.
    Text(String),
    /// An array.
    Array(Vec<Json>),
    /// An object, with its members in their order.
    Object(Vec<Member>),
}

/// A member of a JSON object.
pub struct Member {
    /// Its name.
    pub name: String,
    /// Its value.
    pub value: Json,
}

/// A JSON value, as a mathematical value.
pub enum JsonView {
    /// `null`
    Null,
    /// `true` or `false`
    Bool(bool),
    /// A number.
    Number(serde_json::Number),
    /// A string.
    Text(Seq<char>),
    /// An array.
    Array(Seq<JsonView>),
    /// An object.
    Object(Seq<(Seq<char>, JsonView)>),
}

/// The value that a `Json` stands for.
pub open spec fn value_of(j: Json) -> JsonView
    decreases j,
{
    match j {
        Json::Null => JsonView::Null,
        Json::Bool(b) => JsonView::Bool(b),
        Json::Number(n) => JsonView::Number(n),
        Json::Text(t) => JsonView::Text(t@),
        Json::Array(v) => JsonView::Array(values_of(v@)),
        Json::Object(ms) => JsonView::Object(members_of(ms@)),
    }
}

/// The values that a list of `Json` stands for.
pub open spec fn values_of(v: Seq<Json>) -> Seq<JsonView>
    decreases v,
{
    if v.len() == 0 {
        seq![]
    } else {
        values_of(v.drop_last()).push(value_of(v.last()))
    }
}

/// The members that a list of members stands for.
pub open spec fn members_of(ms: Seq<Member>) -> Seq<(Seq<char>, JsonView)>
    decreases ms,
{
    if ms.len() == 0 {
        seq![]
    } else {
        members_of(ms.drop_last()).push((ms.last().name@, value_of(ms.last().value)))
    }
}

impl View for Json {
    type V = JsonView;

    open spec fn view(&self) -> JsonView {
        value_of(*self)
    }
}

/// A list stands for the values of its elements.
pub proof fn lemma_values(v: Seq<Json>)
    ensures
        values_of(v).len() == v.len(),
        forall|i: int| 0 <= i < v.len() ==> #[trigger] values_of(v)[i] == v[i]@,
    decreases v.len(),
{
    if v.len() > 0 {
        lemma_values(v.drop_last());
        assert forall|i: int| 0 <= i < v.len() implies #[trigger] values_of(v)[i] == v[i]@ by {
            if i < v.len() - 1 {
                assert(v.drop_last()[i] == v[i]);
            }
        }
    }
}

/// A list of members stands for the names and values of its elements.
pub proof fn lemma_members(ms: Seq<Member>)
    ensures
        members_of(ms).len() == ms.len(),
        forall|i: int|
            0 <= i < ms.len() ==> #[trigger] members_of(ms)[i] == (ms[i].name@, ms[i].value@),
    decreases ms.len(),
{
    if ms.len() > 0 {
        lemma_members(ms.drop_last());
        assert forall|i: int| 0 <= i < ms.len() implies #[trigger] members_of(ms)[i] == (
            ms[i].name@,
            ms[i].value@,
        ) by {
            if i < ms.len() - 1 {
                assert(ms.drop_last()[i] == ms[i]);
            }
        }
    }
}

/// Another value in place of that of one member.
pub proof fn lemma_member_replaced(before: Seq<Member>, after: Seq<Member>, i: int)
    requires
        0 <= i < before.len(),
        after.len() == before.len(),
        after[i].name@ == before[i].name@,
        forall|k: int| 0 <= k < before.len() && k != i ==> #[trigger] after[k] == before[k],
    ensures
        members_of(after) == members_of(before).update(i, (before[i].name@, after[i].value@)),
{
    lemma_members(before);
    lemma_members(after);
    let want = members_of(before).update(i, (before[i].name@, after[i].value@));
    assert forall|k: int| 0 <= k < before.len() implies #[trigger] members_of(after)[k]
        == want[k] by {
        if k != i {
            assert(after[k] == before[k]);
        }
    }
    assert(members_of(after) == want);
}

/// The position of the first member with the given name, or the number of members where there is
/// none.
pub open spec fn position(ms: Seq<(Seq<char>, JsonView)>, name: Seq<char>) -> int
    decreases ms.len(),
{
    if ms.len() == 0 || ms[0].0 == name {
        0
    } else {
        1 + position(ms.skip(1), name)
    }
}

/// Where `position` finds a member.
pub proof fn lemma_position(ms: Seq<(Seq<char>, JsonView)>, name: Seq<char>)
    ensures
        0 <= position(ms, name) <= ms.len(),
        position(ms, name) < ms.len() ==> ms[position(ms, name)].0 == name,
        forall|i: int| 0 <= i < position(ms, name) ==> (#[trigger] ms[i]).0 != name,
    decreases ms.len(),
{
    if ms.len() > 0 && ms[0].0 != name {
        let rest = ms.skip(1);
        lemma_position(rest, name);
        assert forall|i: int| 0 <= i < position(ms, name) implies (#[trigger] ms[i]).0 != name by {
            if i > 0 {
                assert(rest[i - 1] == ms[i]);
            }
        }
    }
}

/// The value of the member with the given name, where the value is an object that has one.
pub open spec fn member(v: JsonView, name: Seq<char>) -> Option<JsonView> {
    match v {
        JsonView::Object(ms) => {
            let i = position(ms, name);
            if i < ms.len() {
                Some(ms[i].1)
            } else {
                None
            }
        },
        _ => None,
    }
}

/// The value with another value for the member with the given name, where it has one.
pub open spec fn with_member(v: JsonView, name: Seq<char>, new: JsonView) -> JsonView {
    match v {
        JsonView::Object(ms) => {
            let i = position(ms, name);
            if i < ms.len() {
                JsonView::Object(ms.update(i, (name, new)))
            } else {
                v
            }
        },
        _ => v,
    }
}

/// The member with the given name of a JSON value, if it is an object that has one.
pub fn get<'a>(j: &'a Json, name: &str) -> (r: Option<&'a Json>)
    ensures
        match r {
            Some(m) => member(j@, name@) == Some(m@),
            None => member(j@, name@) is None,
        },
        r matches Some(m) ==> decreases_to!(*j => *m),
{
    match j {
        Json::Object(ms) => {
            let i = find(ms, name);
            proof {
                lemma_members(ms@);
            }
            if i < ms.len() {
                Some(&ms[i].value)
            } else {
                None
            }
        },
        _ => None,
    }
}

/// The position of the first member with the given name.
pub fn find(ms: &Vec<Member>, name: &str) -> (r: usize)
    ensures
        r == position(members_of(ms@), name@),
        r <= ms@.len(),
{
    let ghost all = members_of(ms@);
    proof {
        lemma_members(ms@);
    }
    let mut i: usize = 0;
    assert(all.skip(0) == all);
    while i < ms.len()
        invariant
            0 <= i <= ms@.len(),
            all == members_of(ms@),
            all.len() == ms@.len(),
            forall|i: int|
                0 <= i < ms@.len() ==> #[trigger] all[i] == (ms@[i].name@, ms@[i].value@),
            position(all, name@) == i + position(all.skip(i as int), name@),
        decreases ms@.len() - i,
    {
        assert(all.skip(i as int).skip(1) == all.skip(i + 1));
        assert(all.skip(i as int)[0] == all[i as int]);
        if same_str(ms[i].name.as_str(), name) {
            return i;
        }
        i += 1;
    }
    i
}

// ---------------------------------------------------------------------------
// JSON as text
// ---------------------------------------------------------------------------
/// What `serde_json::from_str` reads from a text: the value, or the message of the error.
pub uninterp spec fn parsed_json(text: Seq<char>) -> Result<JsonView, Seq<char>>;

/// What `serde_json::to_string` writes for a value, or the message of the error.
pub uninterp spec fn json_text(v: JsonView) -> Result<Seq<char>, Seq<char>>;

/// The view of a value that was read, or of the message.
pub open spec fn read_view(r: Result<Json, String>) -> Result<JsonView, Seq<char>> {
    match r {
        Ok(j) => Ok(j@),
        Err(e) => Err(e@),
    }
}

/// The view of a text that was written, or of the message.
pub open spec fn written_view(r: Result<String, String>) -> Result<Seq<char>, Seq<char>> {
    match r {
        Ok(t) => Ok(t@),
        Err(e) => Err(e@),
    }
}

/// The variants of `serde_json::Value`, one for one. Nothing is claimed of it alone.
#[verifier::external_body]
fn from_value(v: serde_json::Value) -> Json {
    match v {
        serde_json::Value::Null => Json::Null,
        serde_json::Value::Bool(b) => Json::Bool(b),
        serde_json::Value::Number(n) => Json::Number(n),
        serde_json::Value::String(s) => Json::Text(s),
        serde_json::Value::Array(v) => Json::Array(v.into_iter().map(from_value).collect()),
        serde_json::Value::Object(m) => Json::Object(
            m.into_iter().map(|(name, v)| Member { name, value: from_value(v) }).collect(),
        ),
    }
}

/// The variants of `serde_json::Value`, one for one. Nothing is claimed of it alone.
#[verifier::external_body]
fn to_value(j: Json) -> serde_json::Value {
    match j {
        Json::Null => serde_json::Value::Null,
        Json::Bool(b) => serde_json::Value::Bool(b),
        Json::Number(n) => serde_json::Value::Number(n),
        Json::Text(s) => serde_json::Value::String(s),
        Json::Array(v) => serde_json::Value::Array(v.into_iter().map(to_value).collect()),
        Json::Object(ms) => serde_json::Value::Object(
            ms.into_iter().map(|m| (m.name, to_value(m.value))).collect(),
        ),
    }
}

/// `serde_json::from_str`: the value that a JSON text stands for, or the message of the error. The
/// contract says only that the result depends on nothing but the text.
#[verifier::external_body]
pub(crate) fn parse_json(text: &str) -> (r: Result<Json, String>)
    ensures
        read_view(r) == parsed_json(text@),
{
    serde_json::from_str(text).map(from_value).map_err(|e| e.to_string())
}

/// `serde_json::to_string`: the JSON text of a value, or the message of the error. The contract
/// says only that the result depends on nothing but the value.
#[verifier::external_body]
pub(crate) fn write_json(j: Json) -> (r: Result<String, String>)
    ensures
        written_view(r) == json_text(j@),
{
    serde_json::to_string(&to_value(j)).map_err(|e| e.to_string())
}

// ---------------------------------------------------------------------------
// Laws
// ---------------------------------------------------------------------------
/// A member of an object is the first one with its name; an object in which no member has it, and
/// a value that is no object, has none. Another value may be put in its place, and nothing else
/// changes.
pub proof fn law_first_member_counts(
    ms: Seq<(Seq<char>, JsonView)>,
    name: Seq<char>,
    i: int,
    v: JsonView,
    new: JsonView,
)
    requires
        0 <= i <= ms.len(),
        forall|j: int| 0 <= j < i ==> (#[trigger] ms[j]).0 != name,
        i < ms.len() ==> ms[i].0 == name,
    ensures
        i < ms.len() ==> member(JsonView::Object(ms), name) == Some(ms[i].1),
        i < ms.len() ==> with_member(JsonView::Object(ms), name, new) == JsonView::Object(
            ms.update(i, (name, new)),
        ),
        i == ms.len() ==> member(JsonView::Object(ms), name) is None,
        !(v is Object) ==> member(v, name) is None,
{
    lemma_position(ms, name);
    let p = position(ms, name);
    if p < i {
        assert(ms[p].0 != name);
    }
    if i < p {
        assert(ms[i].0 != name);
    }
}

} // verus!
