//! Properties that relate several operations of the library.
use vstd::prelude::*;
use crate::document::{Document, attr_value, has_attr};
use crate::node::Node;

verus! {

/// In a well-formed document the wrapper that the identity map holds for a
/// handle is the only wrapper of that handle: any wrapper naming it, however
/// it was reached, is that very wrapper.
pub proof fn law_identity_unique(doc: &Document, a: Node, b: Node)
    requires
        doc.wf(),
        doc.identity().contains_key(a@),
        a@ == b@,
    ensures
        doc.identity()[a@] == a,
        a == b,
{
    crate::node::lemma_node_identity(doc.identity()[a@], a);
    crate::node::lemma_node_identity(a, b);
}

/// Navigation only ever adds entries to the identity map: a handle that had
/// a wrapper keeps the same one.
pub proof fn law_identity_stable(before: &Document, after: &Document, hs: Set<usize>, h: usize)
    requires
        before.wf(),
        after.registered(before, hs),
        before.identity().contains_key(h),
    ensures
        after.identity().contains_key(h),
        after.identity()[h] == before.identity()[h],
{
    assert(before.identity().dom().contains(h));
    assert(after.identity().dom().contains(h));
    assert(after.identity().contains_key(h));
    assert(after.identity()[h]@ == h);
    assert(before.identity()[h]@ == h);
    crate::node::lemma_node_identity(after.identity()[h], before.identity()[h]);
}

/// Unlinking a child shortens its former parent's child list by exactly one
/// and leaves the child out of it.
pub proof fn law_unlink_shrinks_parent(before: &Document, after: &Document, h: usize, p: usize)
    requires
        before.wf(),
        before.contains(h as int),
        before.parent(h as int) == Some(p),
        after.children(p as int) == before.children(p as int).remove(
            before.children(p as int).index_of(h),
        ),
    ensures
        after.children(p as int).len() + 1 == before.children(p as int).len(),
        !after.children(p as int).contains(h),
{
    assert(before.links_ok(h as int));
    assert(before.links_ok(p as int));
    let s = before.children(p as int);
    let i = s.index_of(h);
    assert(s[i] == h);
    if after.children(p as int).contains(h) {
        let k = choose|k: int| 0 <= k < after.children(p as int).len() && after.children(p as int)[k] == h;
        if k < i {
            assert(s[k] == h);
        } else {
            assert(s[k + 1] == h);
        }
    }
}

/// A node that is unlinked and then linked again elsewhere keeps its name,
/// kind, text, attributes and children.
pub proof fn law_relink_keeps_content(
    d0: &Document,
    d1: &Document,
    d2: &Document,
    h: int,
    p: Option<usize>,
)
    requires
        d1.reparented(d0, h, None),
        d2.reparented(d1, h, p),
    ensures
        d2.same_label(d0, h),
        d2.children(h) == d0.children(h),
        d2.parent(h) == p,
{
}

/// An attribute list that gives `value` for `name` has an attribute of that
/// name, so reading it back after setting it finds the value set.
pub proof fn law_set_then_get(
    a: Seq<(Seq<char>, Seq<char>)>,
    name: Seq<char>,
    value: Seq<char>,
    read: Option<Seq<char>>,
)
    requires
        attr_value(a, name) == Some(value),
        read is Some <==> has_attr(a, name),
        read matches Some(v) ==> attr_value(a, name) == Some(v),
    ensures
        read == Some(value),
{
}

/// Once an attribute is removed, reading it back finds nothing.
pub proof fn law_remove_then_get(
    a: Seq<(Seq<char>, Seq<char>)>,
    name: Seq<char>,
    read: Option<Seq<char>>,
)
    requires
        !has_attr(a, name),
        read is Some <==> has_attr(a, name),
    ensures
        read is None,
        attr_value(a, name) is None,
{
}

/// The value that the last of `sets` naming `k` gave it, if any does.
pub open spec fn last_set(sets: Seq<(Seq<char>, Seq<char>)>, k: Seq<char>) -> Option<Seq<char>>
    decreases sets.len(),
{
    if sets.len() == 0 {
        None
    } else if sets.last().0 == k {
        Some(sets.last().1)
    } else {
        last_set(sets.drop_last(), k)
    }
}

/// One call of `set_property(name, value)` took attribute list `a` to `b`,
/// as that call's contract describes.
pub open spec fn set_step(
    a: Seq<(Seq<char>, Seq<char>)>,
    b: Seq<(Seq<char>, Seq<char>)>,
    name: Seq<char>,
    value: Seq<char>,
) -> bool {
    &&& attr_value(b, name) == Some(value)
    &&& forall|n: Seq<char>|
        n != name ==> has_attr(b, n) == has_attr(a, n) && #[trigger] attr_value(b, n) == attr_value(
            a,
            n,
        )
}

/// After a run of `set_property` calls, a name is present exactly when it
/// was before or some call set it, and its value is the one the last such
/// call gave, or else the one it had before.
pub proof fn law_set_sequence(
    states: Seq<Seq<(Seq<char>, Seq<char>)>>,
    sets: Seq<(Seq<char>, Seq<char>)>,
    k: Seq<char>,
)
    requires
        states.len() == sets.len() + 1,
        forall|i: int|
            0 <= i < sets.len() ==> #[trigger] set_step(states[i], states[i + 1], sets[i].0, sets[i].1),
    ensures
        has_attr(states.last(), k) == (has_attr(states[0], k) || last_set(sets, k) is Some),
        attr_value(states.last(), k) == match last_set(sets, k) {
            Some(v) => Some(v),
            None => attr_value(states[0], k),
        },
    decreases sets.len(),
{
    if sets.len() > 0 {
        let n = sets.len() - 1;
        let prev = states.drop_last();
        assert forall|i: int| 0 <= i < sets.drop_last().len() implies #[trigger] set_step(
            prev[i],
            prev[i + 1],
            sets.drop_last()[i].0,
            sets.drop_last()[i].1,
        ) by {
            assert(set_step(states[i], states[i + 1], sets[i].0, sets[i].1));
        }
        law_set_sequence(prev, sets.drop_last(), k);
        assert(set_step(states[n], states[n + 1], sets[n].0, sets[n].1));
        assert(prev.last() == states[n]);
        assert(states.last() == states[n + 1]);
        if sets[n].0 == k {
            let a = states[n + 1];
            let j = choose|j: int| 0 <= j < a.len() && #[trigger] a[j].0 == k;
        } else {
            assert(attr_value(states[n + 1], k) == attr_value(states[n], k));
        }
    }
}

/// Every path down from `h` ends within `d` levels.
pub open spec fn depth_below(doc: &Document, h: int, d: nat) -> bool
    decreases d,
{
    d > 0 && forall|i: int|
        0 <= i < doc.children(h).len() ==> depth_below(
            doc,
            #[trigger] doc.children(h)[i] as int,
            (d - 1) as nat,
        )
}

/// Once the depth bound covers the subtree, a larger bound gives the same
/// text content.
pub proof fn law_content_fuel(doc: &Document, h: int, f1: nat, f2: nat)
    requires
        depth_below(doc, h, f1),
        f1 <= f2,
    ensures
        doc.content_of(h, f1) == doc.content_of(h, f2),
    decreases f1, 0nat,
{
    let k = doc.kind(h);
    if !crate::document::holds_text(k) && crate::document::gathers_text(k) {
        lemma_content_all_fuel(doc, doc.children(h), (f1 - 1) as nat, (f2 - 1) as nat);
    }
}

proof fn lemma_content_all_fuel(doc: &Document, s: Seq<usize>, f1: nat, f2: nat)
    requires
        forall|i: int| 0 <= i < s.len() ==> depth_below(doc, #[trigger] s[i] as int, f1),
        f1 <= f2,
    ensures
        doc.content_of_all(s, f1) == doc.content_of_all(s, f2),
    decreases f1, s.len(),
{
    if s.len() > 0 {
        lemma_content_all_fuel(doc, s.drop_last(), f1, f2);
        assert(depth_below(doc, s[s.len() - 1] as int, f1));
        law_content_fuel(doc, s.last() as int, f1, f2);
    }
}

/// Once the depth bound covers the subtree, a larger bound gives the same
/// markup.
pub proof fn law_markup_fuel(doc: &Document, h: int, f1: nat, f2: nat, fmt: bool, level: nat)
    requires
        depth_below(doc, h, f1),
        f1 <= f2,
    ensures
        doc.markup(h, f1, fmt, level) == doc.markup(h, f2, fmt, level),
    decreases f1, 0nat,
{
    let kids = doc.children(h);
    lemma_markup_all_fuel(doc, kids, (f1 - 1) as nat, (f2 - 1) as nat);
    lemma_markup_block_fuel(doc, kids, (f1 - 1) as nat, (f2 - 1) as nat, level + 1);
}

proof fn lemma_markup_all_fuel(doc: &Document, s: Seq<usize>, f1: nat, f2: nat)
    requires
        forall|i: int| 0 <= i < s.len() ==> depth_below(doc, #[trigger] s[i] as int, f1),
        f1 <= f2,
    ensures
        doc.markup_all(s, f1) == doc.markup_all(s, f2),
    decreases f1, s.len(),
{
    if s.len() > 0 {
        lemma_markup_all_fuel(doc, s.drop_last(), f1, f2);
        assert(depth_below(doc, s[s.len() - 1] as int, f1));
        law_markup_fuel(doc, s.last() as int, f1, f2, false, 0);
    }
}

proof fn lemma_markup_block_fuel(doc: &Document, s: Seq<usize>, f1: nat, f2: nat, level: nat)
    requires
        forall|i: int| 0 <= i < s.len() ==> depth_below(doc, #[trigger] s[i] as int, f1),
        f1 <= f2,
    ensures
        doc.markup_block(s, f1, level) == doc.markup_block(s, f2, level),
    decreases f1, s.len(),
{
    if s.len() > 0 {
        lemma_markup_block_fuel(doc, s.drop_last(), f1, f2, level);
        assert(depth_below(doc, s[s.len() - 1] as int, f1));
        law_markup_fuel(doc, s.last() as int, f1, f2, true, level);
    }
}

} // verus!
