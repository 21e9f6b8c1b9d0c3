//! Things with names, in the order of their names.

use vstd::prelude::*;

use crate::order::{le_bytes, lex_le, lemma_lex_total, lemma_lex_transitive};

verus! {

/// A value under a name.
pub struct Named<B> {
    /// The name.
    pub name: Vec<u8>,
    /// The value.
    pub value: B,
}

impl<B: View> View for Named<B> {
    type V = (Seq<u8>, B::V);

    open spec fn view(&self) -> (Seq<u8>, B::V) {
        (self.name@, self.value@)
    }
}

/// The pairs of name and value that a list stands for.
pub open spec fn named_views<B: View>(v: Seq<Named<B>>) -> Seq<(Seq<u8>, B::V)> {
    Seq::new(v.len(), |i: int| v[i]@)
}

/// `s`, whose names ascend, with `x` put behind the last pair whose name is no greater.
pub open spec fn insert_named<A>(s: Seq<(Seq<u8>, A)>, x: (Seq<u8>, A)) -> Seq<(Seq<u8>, A)>
    decreases s.len(),
{
    if s.len() == 0 || lex_le(s.last().0, x.0) {
        s.push(x)
    } else {
        insert_named(s.drop_last(), x).push(s.last())
    }
}

/// `s` in the ascending order of the names; pairs of equal names keep their order.
pub open spec fn sort_named<A>(s: Seq<(Seq<u8>, A)>) -> Seq<(Seq<u8>, A)>
    decreases s.len(),
{
    if s.len() == 0 {
        s
    } else {
        insert_named(sort_named(s.drop_last()), s.last())
    }
}

/// The names ascend.
pub open spec fn names_ascend<A>(s: Seq<(Seq<u8>, A)>) -> bool {
    forall|i: int, j: int| #![trigger s[i], s[j]] 0 <= i < j < s.len() ==> lex_le(s[i].0, s[j].0)
}

/// Puts a value into a list that is in the order of the names.
pub fn insert_in_order<B: View>(v: &mut Vec<Named<B>>, x: Named<B>)
    ensures
        named_views(final(v)@) == insert_named(named_views(old(v)@), x@),
{
    let ghost s = named_views(v@);
    let ghost item = x@;
    let mut k: usize = v.len();
    assert(s.take(k as int) == s);
    assert(insert_named(s, item) == insert_named(s.take(k as int), item) + s.skip(k as int));
    while k > 0 && !le_bytes(v[k - 1].name.as_slice(), x.name.as_slice())
        invariant
            0 <= k <= v@.len(),
            s == named_views(v@),
            item == x@,
            insert_named(s, item) == insert_named(s.take(k as int), item) + s.skip(k as int),
        decreases k,
    {
        proof {
            let t = s.take(k as int);
            assert(t.last() == v@[k - 1]@);
            assert(t.drop_last() == s.take(k - 1));
            assert(s.skip(k - 1) == seq![s[k - 1]] + s.skip(k as int));
            assert(insert_named(t, item) + s.skip(k as int) == insert_named(s.take(k - 1), item)
                + s.skip(k - 1));
        }
        k -= 1;
    }
    proof {
        let t = s.take(k as int);
        if k > 0 {
            assert(t.last() == v@[k - 1]@);
        }
        assert(insert_named(t, item) == t.push(item));
    }
    v.insert(k, x);
    assert(named_views(v@) == s.insert(k as int, item));
    assert(s.insert(k as int, item) == s.take(k as int).push(item) + s.skip(k as int));
}

/// Sorting keeps every pair.
pub proof fn law_sort_permutes<A>(s: Seq<(Seq<u8>, A)>)
    ensures
        sort_named(s).to_multiset() == s.to_multiset(),
        sort_named(s).len() == s.len(),
    decreases s.len(),
{
    broadcast use vstd::seq_lib::group_to_multiset_ensures;

    if s.len() > 0 {
        law_sort_permutes(s.drop_last());
        lemma_insert_permutes(sort_named(s.drop_last()), s.last());
        assert(s == s.drop_last().push(s.last()));
    }
}

proof fn lemma_insert_permutes<A>(s: Seq<(Seq<u8>, A)>, x: (Seq<u8>, A))
    ensures
        insert_named(s, x).to_multiset() == s.to_multiset().insert(x),
        insert_named(s, x).len() == s.len() + 1,
    decreases s.len(),
{
    broadcast use vstd::seq_lib::group_to_multiset_ensures;

    if s.len() == 0 || lex_le(s.last().0, x.0) {
    } else {
        lemma_insert_permutes(s.drop_last(), x);
        assert(s == s.drop_last().push(s.last()));
        assert(s.to_multiset() == s.drop_last().to_multiset().insert(s.last()));
        assert(insert_named(s, x).to_multiset() =~= s.to_multiset().insert(x));
    }
}

/// Sorting brings the names into ascending order.
pub proof fn law_sort_ascends<A>(s: Seq<(Seq<u8>, A)>)
    ensures
        names_ascend(sort_named(s)),
    decreases s.len(),
{
    if s.len() > 0 {
        law_sort_ascends(s.drop_last());
        lemma_insert_ascends(sort_named(s.drop_last()), s.last());
    }
}

proof fn lemma_insert_ascends<A>(s: Seq<(Seq<u8>, A)>, x: (Seq<u8>, A))
    requires
        names_ascend(s),
    ensures
        names_ascend(insert_named(s, x)),
        forall|b: Seq<u8>|
            lex_le(x.0, b) && (forall|i: int| 0 <= i < s.len() ==> lex_le(#[trigger] s[i].0, b))
                ==> (forall|i: int|
                0 <= i < insert_named(s, x).len() ==> lex_le(
                    #[trigger] insert_named(s, x)[i].0,
                    b,
                )),
    decreases s.len(),
{
    let r = insert_named(s, x);
    if s.len() == 0 || lex_le(s.last().0, x.0) {
        assert forall|i: int, j: int| #![trigger r[i], r[j]] 0 <= i < j < r.len() implies lex_le(
            r[i].0,
            r[j].0,
        ) by {
            if j == s.len() {
                assert(r[i] == s[i]);
                if i < s.len() - 1 {
                    lemma_lex_transitive(s[i].0, s[s.len() - 1].0, x.0);
                }
            } else {
                assert(r[i] == s[i] && r[j] == s[j]);
            }
        }
    } else {
        let t = s.drop_last();
        lemma_insert_ascends(t, x);
        lemma_lex_total(s.last().0, x.0);
        let inner = insert_named(t, x);
        assert forall|i: int| 0 <= i < t.len() implies lex_le(#[trigger] t[i].0, s.last().0) by {
            assert(t[i] == s[i]);
            assert(lex_le(s[i].0, s[s.len() - 1].0));
        }
        assert forall|i: int, j: int| #![trigger r[i], r[j]] 0 <= i < j < r.len() implies lex_le(
            r[i].0,
            r[j].0,
        ) by {
            assert(r[i] == inner[i]);
            if j < inner.len() {
                assert(r[j] == inner[j]);
            }
        }
        assert forall|b: Seq<u8>|
            lex_le(x.0, b) && (forall|i: int| 0 <= i < s.len() ==> lex_le(#[trigger] s[i].0, b))
            implies (forall|i: int| 0 <= i < r.len() ==> lex_le(#[trigger] r[i].0, b)) by {
            assert forall|i: int| 0 <= i < t.len() implies lex_le(#[trigger] t[i].0, b) by {
                assert(t[i] == s[i]);
            }
            assert forall|i: int| 0 <= i < r.len() implies lex_le(#[trigger] r[i].0, b) by {
                if i < inner.len() {
                    assert(r[i] == inner[i]);
                } else {
                    assert(r[i] == s[s.len() - 1]);
                }
            }
        }
    }
}

/// No two pairs have the same name.
pub open spec fn names_differ<A>(s: Seq<(Seq<u8>, A)>) -> bool {
    forall|i: int, j: int| #![trigger s[i], s[j]] 0 <= i < j < s.len() ==> s[i].0 != s[j].0
}

/// Inserting a pair adds no other name.
proof fn lemma_insert_names<A>(s: Seq<(Seq<u8>, A)>, x: (Seq<u8>, A))
    ensures
        forall|i: int|
            0 <= i < insert_named(s, x).len() ==> #[trigger] insert_named(s, x)[i] == x
                || s.contains(insert_named(s, x)[i]),
        names_differ(s) && (forall|i: int| 0 <= i < s.len() ==> (#[trigger] s[i]).0 != x.0)
            ==> names_differ(insert_named(s, x)),
    decreases s.len(),
{
    let r = insert_named(s, x);
    let apart = names_differ(s) && (forall|i: int|
        0 <= i < s.len() ==> (#[trigger] s[i]).0 != x.0);
    if s.len() == 0 || lex_le(s.last().0, x.0) {
        assert forall|i: int| 0 <= i < r.len() implies #[trigger] r[i] == x || s.contains(r[i]) by {
            if i < s.len() {
                assert(s[i] == r[i]);
            }
        }
        if apart {
            assert forall|i: int, j: int|
                #![trigger r[i], r[j]]
                0 <= i < j < r.len() implies r[i].0 != r[j].0 by {
                assert(r[i] == s[i]);
                if j < s.len() {
                    assert(r[j] == s[j]);
                }
            }
        }
    } else {
        let t = s.drop_last();
        let inner = insert_named(t, x);
        lemma_insert_names(t, x);
        assert forall|i: int| 0 <= i < r.len() implies #[trigger] r[i] == x || s.contains(r[i]) by {
            if i < inner.len() {
                assert(r[i] == inner[i]);
                if inner[i] != x {
                    let k = choose|k: int| 0 <= k < t.len() && t[k] == inner[i];
                    assert(s[k] == r[i]);
                }
            } else {
                assert(r[i] == s[s.len() - 1]);
            }
        }
        if apart {
            assert(names_differ(t)) by {
                assert forall|i: int, j: int|
                    #![trigger t[i], t[j]]
                    0 <= i < j < t.len() implies t[i].0 != t[j].0 by {
                    assert(t[i] == s[i] && t[j] == s[j]);
                }
            }
            assert forall|i: int| 0 <= i < t.len() implies (#[trigger] t[i]).0 != x.0 by {
                assert(t[i] == s[i]);
            }
            assert forall|i: int, j: int|
                #![trigger r[i], r[j]]
                0 <= i < j < r.len() implies r[i].0 != r[j].0 by {
                assert(r[i] == inner[i]);
                if j < inner.len() {
                    assert(r[j] == inner[j]);
                } else {
                    assert(r[j] == s[s.len() - 1]);
                    if inner[i] != x {
                        let k = choose|k: int| 0 <= k < t.len() && t[k] == inner[i];
                        assert(s[k] == inner[i]);
                    }
                }
            }
        }
    }
}

/// Names that differ still differ after sorting, and no other name comes in.
pub proof fn law_sort_keeps_names_apart<A>(s: Seq<(Seq<u8>, A)>)
    ensures
        forall|i: int|
            0 <= i < sort_named(s).len() ==> s.contains(#[trigger] sort_named(s)[i]),
        names_differ(s) ==> names_differ(sort_named(s)),
    decreases s.len(),
{
    if s.len() > 0 {
        let t = s.drop_last();
        let inner = sort_named(t);
        let r = sort_named(s);
        law_sort_keeps_names_apart(t);
        lemma_insert_names(inner, s.last());
        assert forall|i: int| 0 <= i < r.len() implies s.contains(#[trigger] r[i]) by {
            if r[i] == s.last() {
                assert(s[s.len() - 1] == r[i]);
            } else {
                let k = choose|k: int| 0 <= k < inner.len() && inner[k] == r[i];
                assert(t.contains(inner[k]));
                let m = choose|m: int| 0 <= m < t.len() && t[m] == inner[k];
                assert(s[m] == r[i]);
            }
        }
        if names_differ(s) {
            assert(names_differ(t)) by {
                assert forall|i: int, j: int|
                    #![trigger t[i], t[j]]
                    0 <= i < j < t.len() implies t[i].0 != t[j].0 by {
                    assert(t[i] == s[i] && t[j] == s[j]);
                }
            }
            assert forall|i: int| 0 <= i < inner.len() implies (#[trigger] inner[i]).0
                != s.last().0 by {
                assert(t.contains(inner[i]));
                let m = choose|m: int| 0 <= m < t.len() && t[m] == inner[i];
                assert(s[m] == inner[i] && s[s.len() - 1] == s.last());
            }
        }
    }
}

} // verus!
