use vstd::prelude::*;
use crate::message::MessageView;

verus! {

/// How many messages of `s` satisfy `p`.
pub open spec fn count(s: Seq<MessageView>, p: spec_fn(MessageView) -> bool) -> nat
    decreases s.len(),
{
    if s.len() == 0 {
        0
    } else {
        count(s.drop_last(), p) + if p(s.last()) {
            1nat
        } else {
            0nat
        }
    }
}

/// Ids strictly increase along `s`.
pub open spec fn ascending(s: Seq<MessageView>) -> bool {
    forall|i: int, j: int| 0 <= i < j < s.len() ==> (#[trigger] s[i]).id < (#[trigger] s[j]).id
}

/// Ids of the messages of `s` that name `parent` as their parent, in order.
pub open spec fn children(s: Seq<MessageView>, parent: u64) -> Seq<u64>
    decreases s.len(),
{
    if s.len() == 0 {
        Seq::empty()
    } else {
        let before = children(s.drop_last(), parent);
        if s.last().parent_id == Some(parent) {
            before.push(s.last().id)
        } else {
            before
        }
    }
}

/// Holds of every id but `id`.
pub open spec fn other_than(id: u64) -> spec_fn(u64) -> bool {
    |r: u64| r != id
}

/// The messages of `s`, keyed by id.
pub open spec fn map_of(s: Seq<MessageView>) -> Map<u64, MessageView>
    decreases s.len(),
{
    if s.len() == 0 {
        Map::empty()
    } else {
        map_of(s.drop_last()).insert(s.last().id, s.last())
    }
}

pub proof fn lemma_count_add(s: Seq<MessageView>, t: Seq<MessageView>, p: spec_fn(MessageView) -> bool)
    ensures
        count(s + t, p) == count(s, p) + count(t, p),
    decreases t.len(),
{
    if t.len() == 0 {
        assert(s + t =~= s);
    } else {
        assert((s + t).drop_last() =~= s + t.drop_last());
        lemma_count_add(s, t.drop_last(), p);
    }
}

pub proof fn lemma_count_le_len(s: Seq<MessageView>, p: spec_fn(MessageView) -> bool)
    ensures
        count(s, p) <= s.len(),
    decreases s.len(),
{
    if s.len() > 0 {
        lemma_count_le_len(s.drop_last(), p);
    }
}

pub proof fn lemma_count_all(s: Seq<MessageView>, p: spec_fn(MessageView) -> bool)
    requires
        forall|i: int| 0 <= i < s.len() ==> p(#[trigger] s[i]),
    ensures
        count(s, p) == s.len(),
    decreases s.len(),
{
    if s.len() > 0 {
        lemma_count_all(s.drop_last(), p);
    }
}

pub proof fn lemma_count_none(s: Seq<MessageView>, p: spec_fn(MessageView) -> bool)
    requires
        forall|i: int| 0 <= i < s.len() ==> !p(#[trigger] s[i]),
    ensures
        count(s, p) == 0,
    decreases s.len(),
{
    if s.len() > 0 {
        lemma_count_none(s.drop_last(), p);
    }
}

/// Counting only looks at whether each element satisfies the predicate.
pub proof fn lemma_count_pointwise(
    s: Seq<MessageView>,
    t: Seq<MessageView>,
    p: spec_fn(MessageView) -> bool,
    q: spec_fn(MessageView) -> bool,
)
    requires
        s.len() == t.len(),
        forall|i: int| 0 <= i < s.len() ==> p(#[trigger] s[i]) == q(t[i]),
    ensures
        count(s, p) == count(t, q),
    decreases s.len(),
{
    if s.len() > 0 {
        lemma_count_pointwise(s.drop_last(), t.drop_last(), p, q);
    }
}

pub proof fn lemma_count_push(s: Seq<MessageView>, x: MessageView, p: spec_fn(MessageView) -> bool)
    ensures
        count(s.push(x), p) == count(s, p) + if p(x) {
            1nat
        } else {
            0nat
        },
{
    assert(s.push(x).drop_last() =~= s);
}

proof fn lemma_count_single(x: MessageView, p: spec_fn(MessageView) -> bool)
    ensures
        count(seq![x], p) == if p(x) {
            1nat
        } else {
            0nat
        },
{
    assert(seq![x].drop_last() =~= Seq::<MessageView>::empty());
    assert(count(Seq::<MessageView>::empty(), p) == 0);
    assert(seq![x].last() == x);
}

pub proof fn lemma_count_remove(s: Seq<MessageView>, i: int, p: spec_fn(MessageView) -> bool)
    requires
        0 <= i < s.len(),
    ensures
        count(s, p) == count(s.remove(i), p) + if p(s[i]) {
            1nat
        } else {
            0nat
        },
{
    let a = s.take(i);
    let b = s.skip(i + 1);
    assert(s.remove(i) =~= a + b);
    assert(s =~= a + seq![s[i]] + b);
    lemma_count_add(a, b, p);
    lemma_count_add(a + seq![s[i]], b, p);
    lemma_count_add(a, seq![s[i]], p);
    lemma_count_single(s[i], p);
}

pub proof fn lemma_count_insert(s: Seq<MessageView>, i: int, x: MessageView, p: spec_fn(MessageView) -> bool)
    requires
        0 <= i <= s.len(),
    ensures
        count(s.insert(i, x), p) == count(s, p) + if p(x) {
            1nat
        } else {
            0nat
        },
{
    let a = s.take(i);
    let b = s.skip(i);
    assert(s.insert(i, x) =~= a + seq![x] + b);
    assert(s =~= a + b);
    lemma_count_add(a, b, p);
    lemma_count_add(a + seq![x], b, p);
    lemma_count_add(a, seq![x], p);
    lemma_count_single(x, p);
}

/// The map holds exactly the messages of the sequence, each under its id.
pub proof fn lemma_map_of(s: Seq<MessageView>)
    requires
        ascending(s),
    ensures
        forall|id: u64| #[trigger]
            map_of(s).contains_key(id) <==> exists|i: int| 0 <= i < s.len() && s[i].id == id,
        forall|i: int| 0 <= i < s.len() ==> #[trigger] map_of(s)[s[i].id] == s[i],
    decreases s.len(),
{
    if s.len() > 0 {
        let t = s.drop_last();
        assert(ascending(t)) by {
            assert forall|a: int, b: int| 0 <= a < b < t.len() implies (#[trigger] t[a]).id < (
            #[trigger] t[b]).id by {
                assert(s[a].id < s[b].id);
            }
        }
        lemma_map_of(t);
        assert(map_of(s) == map_of(t).insert(s.last().id, s.last()));
        assert forall|id: u64| #[trigger]
            map_of(s).contains_key(id) <==> exists|i: int| 0 <= i < s.len() && s[i].id == id by {
            if map_of(s).contains_key(id) && id != s.last().id {
                assert(map_of(t).contains_key(id));
                let i = choose|i: int| 0 <= i < t.len() && t[i].id == id;
                assert(s[i].id == id);
            }
            if exists|i: int| 0 <= i < s.len() && s[i].id == id {
                let i = choose|i: int| 0 <= i < s.len() && s[i].id == id;
                if i < t.len() {
                    assert(t[i].id == id);
                }
            }
        }
        assert forall|i: int| 0 <= i < s.len() implies #[trigger] map_of(s)[s[i].id] == s[i] by {
            if i < t.len() {
                assert(t[i] == s[i]);
                assert(s[i].id < s.last().id);
            }
        }
    }
}

pub proof fn lemma_map_of_update(s: Seq<MessageView>, i: int, x: MessageView)
    requires
        ascending(s),
        0 <= i < s.len(),
        x.id == s[i].id,
    ensures
        ascending(s.update(i, x)),
        map_of(s.update(i, x)) == map_of(s).insert(x.id, x),
{
    let u = s.update(i, x);
    assert(ascending(u)) by {
        assert forall|a: int, b: int| 0 <= a < b < u.len() implies (#[trigger] u[a]).id < (
        #[trigger] u[b]).id by {
            assert(s[a].id < s[b].id);
        }
    }
    lemma_map_of(s);
    lemma_map_of(u);
    assert forall|id: u64| #[trigger] map_of(u).contains_key(id) <==> map_of(s).insert(
        x.id,
        x,
    ).contains_key(id) by {
        if map_of(s).contains_key(id) {
            let k = choose|k: int| 0 <= k < s.len() && s[k].id == id;
            assert(u[k].id == id);
        }
        if map_of(u).contains_key(id) {
            let k = choose|k: int| 0 <= k < u.len() && u[k].id == id;
            assert(s[k].id == id);
        }
    }
    assert forall|id: u64| #[trigger] map_of(u).contains_key(id) implies map_of(u)[id] == map_of(
        s,
    ).insert(x.id, x)[id] by {
        let k = choose|k: int| 0 <= k < u.len() && u[k].id == id;
        assert(map_of(u)[u[k].id] == u[k]);
        if k != i {
            assert(map_of(s)[s[k].id] == s[k]);
        }
    }
    assert(map_of(u) =~= map_of(s).insert(x.id, x));
}

pub proof fn lemma_map_of_remove(s: Seq<MessageView>, i: int)
    requires
        ascending(s),
        0 <= i < s.len(),
    ensures
        ascending(s.remove(i)),
        map_of(s.remove(i)) == map_of(s).remove(s[i].id),
{
    let u = s.remove(i);
    assert(ascending(u)) by {
        assert forall|a: int, b: int| 0 <= a < b < u.len() implies (#[trigger] u[a]).id < (
        #[trigger] u[b]).id by {
            let a2 = if a < i { a } else { a + 1 };
            let b2 = if b < i { b } else { b + 1 };
            assert(u[a] == s[a2] && u[b] == s[b2]);
            assert(s[a2].id < s[b2].id);
        }
    }
    lemma_map_of(s);
    lemma_map_of(u);
    assert forall|id: u64| #[trigger] map_of(u).contains_key(id) <==> map_of(s).remove(
        s[i].id,
    ).contains_key(id) by {
        if map_of(s).contains_key(id) && id != s[i].id {
            let k = choose|k: int| 0 <= k < s.len() && s[k].id == id;
            if k < i {
                assert(u[k].id == id);
            } else {
                assert(k != i);
                assert(u[k - 1].id == id);
            }
        }
        if map_of(u).contains_key(id) {
            let k = choose|k: int| 0 <= k < u.len() && u[k].id == id;
            let k2 = if k < i { k } else { k + 1 };
            assert(s[k2].id == id);
            assert(s[k2].id != s[i].id);
        }
    }
    assert forall|id: u64| #[trigger] map_of(u).contains_key(id) implies map_of(u)[id] == map_of(
        s,
    ).remove(s[i].id)[id] by {
        let k = choose|k: int| 0 <= k < u.len() && u[k].id == id;
        let k2 = if k < i { k } else { k + 1 };
        assert(map_of(u)[u[k].id] == u[k]);
        assert(map_of(s)[s[k2].id] == s[k2]);
    }
    assert(map_of(u) =~= map_of(s).remove(s[i].id));
}

} // verus!

verus! {

pub proof fn lemma_children_add(s: Seq<MessageView>, t: Seq<MessageView>, parent: u64)
    ensures
        children(s + t, parent) == children(s, parent) + children(t, parent),
    decreases t.len(),
{
    if t.len() == 0 {
        assert(s + t =~= s);
        assert(children(s, parent) + children(t, parent) =~= children(s, parent));
    } else {
        assert((s + t).drop_last() =~= s + t.drop_last());
        lemma_children_add(s, t.drop_last(), parent);
        assert((children(s, parent) + children(t.drop_last(), parent)).push(t.last().id)
            =~= children(s, parent) + children(t.drop_last(), parent).push(t.last().id));
    }
}

/// Children only depend on each message's id and parent.
pub proof fn lemma_children_pointwise(s: Seq<MessageView>, t: Seq<MessageView>, parent: u64)
    requires
        s.len() == t.len(),
        forall|i: int|
            0 <= i < s.len() ==> (#[trigger] s[i]).id == t[i].id && s[i].parent_id == t[i].parent_id,
    ensures
        children(s, parent) == children(t, parent),
    decreases s.len(),
{
    if s.len() > 0 {
        lemma_children_pointwise(s.drop_last(), t.drop_last(), parent);
    }
}

/// Every child id belongs to a message of `s` with that parent.
pub proof fn lemma_children_member(s: Seq<MessageView>, parent: u64, id: u64)
    requires
        children(s, parent).contains(id),
    ensures
        exists|i: int| 0 <= i < s.len() && s[i].id == id && s[i].parent_id == Some(parent),
    decreases s.len(),
{
    let t = s.drop_last();
    if s.last().parent_id == Some(parent) && id == s.last().id {
        assert(s[s.len() - 1].id == id);
    } else {
        if s.last().parent_id == Some(parent) {
            let k = choose|k: int| 0 <= k < children(s, parent).len() && children(s, parent)[k] == id;
            assert(children(t, parent)[k] == id);
        }
        lemma_children_member(t, parent, id);
        let i = choose|i: int| 0 <= i < t.len() && t[i].id == id && t[i].parent_id == Some(parent);
        assert(s[i] == t[i]);
    }
}

/// With no message naming `parent`, it has no children.
pub proof fn lemma_children_none(s: Seq<MessageView>, parent: u64)
    requires
        forall|i: int| 0 <= i < s.len() ==> (#[trigger] s[i]).parent_id != Some(parent),
    ensures
        children(s, parent) == Seq::<u64>::empty(),
    decreases s.len(),
{
    if s.len() > 0 {
        lemma_children_none(s.drop_last(), parent);
    }
}

/// Filtering out an id that is not there changes nothing.
pub proof fn lemma_filter_absent(v: Seq<u64>, id: u64)
    requires
        !v.contains(id),
    ensures
        v.filter(other_than(id)) == v,
    decreases v.len(),
{
    reveal(Seq::filter);
    if v.len() > 0 {
        assert(!v.drop_last().contains(id)) by {
            if v.drop_last().contains(id) {
                let k = choose|k: int| 0 <= k < v.drop_last().len() && v.drop_last()[k] == id;
                assert(v[k] == id);
            }
        }
        lemma_filter_absent(v.drop_last(), id);
        assert(v.last() != id) by {
            assert(v[v.len() - 1] == v.last());
        }
        assert(v.drop_last().push(v.last()) =~= v);
    }
}

/// Removing the message at `k` removes its id from the children of every parent.
pub proof fn lemma_children_remove(s: Seq<MessageView>, k: int, parent: u64)
    requires
        ascending(s),
        0 <= k < s.len(),
    ensures
        children(s.remove(k), parent) == children(s, parent).filter(other_than(s[k].id)),
{
    let x = s[k].id;
    let a = s.take(k);
    let b = s.skip(k + 1);
    let one = seq![s[k]];
    assert(s.remove(k) =~= a + b);
    assert(s =~= a + one + b);
    lemma_children_add(a, b, parent);
    lemma_children_add(a + one, b, parent);
    lemma_children_add(a, one, parent);
    assert(!children(a, parent).contains(x)) by {
        if children(a, parent).contains(x) {
            lemma_children_member(a, parent, x);
            let i = choose|i: int| 0 <= i < a.len() && a[i].id == x && a[i].parent_id == Some(parent);
            assert(s[i].id < s[k].id);
        }
    }
    assert(!children(b, parent).contains(x)) by {
        if children(b, parent).contains(x) {
            lemma_children_member(b, parent, x);
            let i = choose|i: int| 0 <= i < b.len() && b[i].id == x && b[i].parent_id == Some(parent);
            assert(s[k].id < s[k + 1 + i].id);
        }
    }
    lemma_filter_absent(children(a, parent), x);
    lemma_filter_absent(children(b, parent), x);
    assert(one.drop_last() =~= Seq::<MessageView>::empty());
    assert(children(Seq::<MessageView>::empty(), parent) == Seq::<u64>::empty());
    reveal(Seq::filter);
    assert(children(one, parent).filter(other_than(x)) =~= Seq::<u64>::empty()) by {
        let c = children(one, parent);
        assert(one.last() == s[k]);
        if s[k].parent_id == Some(parent) {
            assert(c =~= seq![x]);
            assert(c.drop_last() =~= Seq::<u64>::empty());
            assert(c.drop_last().filter(other_than(x)) =~= Seq::<u64>::empty());
            assert(c.last() == x);
        } else {
            assert(children(one, parent) =~= Seq::<u64>::empty());
        }
    }
    Seq::filter_distributes_over_add(children(a, parent) + children(one, parent), children(b, parent), other_than(x));
    Seq::filter_distributes_over_add(children(a, parent), children(one, parent), other_than(x));
    assert(children(a, parent) + Seq::<u64>::empty() =~= children(a, parent));
}

} // verus!
