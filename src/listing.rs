use vstd::prelude::*;
use crate::message::{views, Message, MessageView};
use crate::model::{
    ascending, count, lemma_count_add, lemma_count_all, lemma_count_insert, lemma_count_none,
    lemma_count_push,
};
use crate::text::chars_of;

verus! {

/// The order of a listing of top-level messages. Ties go to the lower id.
#[derive(Debug, Clone, Copy, PartialEq, Eq, Structural)]
pub enum SortOrder {
    /// Latest `created_at` first.
    Newest,
    /// Earliest `created_at` first.
    Oldest,
    /// Most likes first.
    Popular,
}

/// The order that a `sort_by` text selects: "oldest", "popular", and
/// "newest" for anything else or for none.
pub open spec fn order_named(sort_by: Option<Seq<char>>) -> SortOrder {
    match sort_by {
        Some(s) => if s == seq!['o', 'l', 'd', 'e', 's', 't'] {
            SortOrder::Oldest
        } else if s == seq!['p', 'o', 'p', 'u', 'l', 'a', 'r'] {
            SortOrder::Popular
        } else {
            SortOrder::Newest
        },
        None => SortOrder::Newest,
    }
}

/// Whether `a` comes before `b` under `order`.
pub open spec fn precedes(order: SortOrder, a: MessageView, b: MessageView) -> bool {
    match order {
        SortOrder::Oldest => a.created_at < b.created_at || (a.created_at == b.created_at && a.id
            < b.id),
        SortOrder::Newest => a.created_at > b.created_at || (a.created_at == b.created_at && a.id
            < b.id),
        SortOrder::Popular => a.likes > b.likes || (a.likes == b.likes && a.id < b.id),
    }
}

/// A message that answers no other.
pub open spec fn top_level(m: MessageView) -> bool {
    m.parent_id is None
}

/// How many messages of `s` are top-level.
pub open spec fn top_levels(s: Seq<MessageView>) -> nat {
    count(s, |m: MessageView| top_level(m))
}

/// Holds of the top-level messages that come before `m` under `order`.
pub open spec fn ranked_before(order: SortOrder, m: MessageView) -> spec_fn(MessageView) -> bool {
    |x: MessageView| top_level(x) && precedes(order, x, m)
}

/// How many top-level messages of `s` come before `m` under `order`: the
/// position of `m` in the listing.
pub open spec fn rank(s: Seq<MessageView>, order: SortOrder, m: MessageView) -> nat {
    count(s, ranked_before(order, m))
}

/// Which page of the top-level messages to list, how many per page, and in
/// which order.
pub struct PaginationParams {
    pub page: u32,
    pub limit: u32,
    pub sort_by: Option<String>,
}

/// One page of the top-level messages, with the totals to page through them.
pub struct PaginatedResponse {
    pub messages: Vec<Message>,
    pub total: u64,
    pub page: u32,
    pub total_pages: u64,
    pub has_next: bool,
    pub has_previous: bool,
}

/// The `sort_by` text of `params`.
pub open spec fn sort_text(sort_by: Option<String>) -> Option<Seq<char>> {
    match sort_by {
        Some(s) => Some(s@),
        None => None,
    }
}

/// How many pages of `limit` items hold `total` items: the ceiling of
/// `total / limit`.
pub open spec fn pages_for(total: nat, limit: nat) -> nat
    recommends
        limit > 0,
{
    total / limit + if total % limit == 0 {
        0nat
    } else {
        1nat
    }
}

/// How many of `total` items a page shows that skips `skip` of them and
/// holds at most `limit`.
pub open spec fn page_len(total: nat, skip: nat, limit: nat) -> nat {
    if skip >= total {
        0
    } else if total - skip < limit {
        (total - skip) as nat
    } else {
        limit
    }
}

/// The order that `sort_by` selects.
pub fn sort_order_of(sort_by: &Option<String>) -> (r: SortOrder)
    ensures
        r == order_named(sort_text(*sort_by)),
{
    match sort_by {
        Some(s) => {
            let cs = chars_of(s.as_str());
            if cs.len() == 6 && cs[0] == 'o' && cs[1] == 'l' && cs[2] == 'd' && cs[3] == 'e'
                && cs[4] == 's' && cs[5] == 't' {
                assert(cs@ =~= seq!['o', 'l', 'd', 'e', 's', 't']);
                SortOrder::Oldest
            } else if cs.len() == 7 && cs[0] == 'p' && cs[1] == 'o' && cs[2] == 'p' && cs[3] == 'u'
                && cs[4] == 'l' && cs[5] == 'a' && cs[6] == 'r' {
                assert(cs@ =~= seq!['p', 'o', 'p', 'u', 'l', 'a', 'r']);
                SortOrder::Popular
            } else {
                SortOrder::Newest
            }
        },
        None => SortOrder::Newest,
    }
}

/// Whether `a` comes before `b` under `order`.
pub fn comes_before(order: SortOrder, a: &Message, b: &Message) -> (r: bool)
    ensures
        r == precedes(order, a@, b@),
{
    match order {
        SortOrder::Oldest => a.created_at < b.created_at || (a.created_at == b.created_at && a.id
            < b.id),
        SortOrder::Newest => a.created_at > b.created_at || (a.created_at == b.created_at && a.id
            < b.id),
        SortOrder::Popular => a.likes > b.likes || (a.likes == b.likes && a.id < b.id),
    }
}

/// The messages of `s` at the positions `idx`.
pub open spec fn at_positions(s: Seq<MessageView>, idx: Seq<usize>) -> Seq<MessageView> {
    idx.map_values(|k: usize| s[k as int])
}

/// Each message of `l` comes before the next under `order`.
pub open spec fn sorted_by(order: SortOrder, l: Seq<MessageView>) -> bool {
    forall|a: int, b: int|
        0 <= a < b < l.len() ==> precedes(order, #[trigger] l[a], #[trigger] l[b])
}

/// In a listing sorted under `order`, the message at position `j` has rank `j`.
pub proof fn lemma_sorted_rank(order: SortOrder, l: Seq<MessageView>, j: int)
    requires
        sorted_by(order, l),
        forall|k: int| 0 <= k < l.len() ==> top_level(#[trigger] l[k]),
        0 <= j < l.len(),
    ensures
        rank(l, order, l[j]) == j,
{
    let p = ranked_before(order, l[j]);
    let a = l.take(j);
    let b = l.skip(j);
    assert(l =~= a + b);
    assert forall|k: int| 0 <= k < a.len() implies p(#[trigger] a[k]) by {
        assert(a[k] == l[k]);
    }
    assert forall|k: int| 0 <= k < b.len() implies !p(#[trigger] b[k]) by {
        assert(b[k] == l[j + k]);
        if k > 0 {
            assert(precedes(order, l[j], l[j + k]));
        }
    }
    lemma_count_all(a, p);
    lemma_count_none(b, p);
    lemma_count_add(a, b, p);
}

/// Positions in `ms` of its top-level messages, sorted under `order`, and
/// each top-level message's position in them is its rank.
pub fn sorted_top_level(ms: &Vec<Message>, order: SortOrder) -> (r: Vec<usize>)
    requires
        ascending(views(ms@)),
    ensures
        ({
            let s = views(ms@);
            let l = at_positions(s, r@);
            &&& forall|j: int| 0 <= j < r@.len() ==> (#[trigger] r@[j]) < s.len()
            &&& sorted_by(order, l)
            &&& forall|j: int| 0 <= j < l.len() ==> top_level(#[trigger] l[j])
            &&& l.len() == top_levels(s)
            &&& forall|j: int| 0 <= j < l.len() ==> rank(s, order, #[trigger] l[j]) == j
        }),
{
    let ghost s = views(ms@);
    let mut idx: Vec<usize> = Vec::new();
    let mut i: usize = 0;
    proof {
        assert(s.take(0) =~= Seq::<MessageView>::empty());
        assert(at_positions(s, idx@) =~= Seq::<MessageView>::empty());
    }
    while i < ms.len()
        invariant
            s == views(ms@),
            ascending(s),
            i <= s.len(),
            forall|j: int| 0 <= j < idx@.len() ==> (#[trigger] idx@[j]) < i,
            sorted_by(order, at_positions(s, idx@)),
            forall|j: int|
                0 <= j < idx@.len() ==> top_level(#[trigger] at_positions(s, idx@)[j]),
            at_positions(s, idx@).len() == top_levels(s.take(i as int)),
            forall|x: MessageView|
                #![trigger rank(at_positions(s, idx@), order, x)]
                rank(at_positions(s, idx@), order, x) == rank(s.take(i as int), order, x),
        decreases s.len() - i,
    {
        let ghost l0 = at_positions(s, idx@);
        let ghost y = s[i as int];
        let ghost t0 = s.take(i as int);
        assert(s.take(i + 1) =~= t0.push(y));
        assert(ms@[i as int]@ == y);
        proof {
            lemma_count_push(t0, y, |m: MessageView| top_level(m));
        }
        if ms[i].parent_id.is_none() {
            let mut pos: usize = 0;
            while pos < idx.len() && comes_before(order, &ms[idx[pos]], &ms[i])
                invariant
                    s == views(ms@),
                    l0 == at_positions(s, idx@),
                    y == s[i as int],
                    ascending(s),
                    i < s.len(),
                    forall|j: int| 0 <= j < idx@.len() ==> (#[trigger] idx@[j]) < i,
                    pos <= idx.len(),
                    forall|j: int| 0 <= j < pos ==> precedes(order, #[trigger] l0[j], y),
                decreases idx.len() - pos,
            {
                assert(ms@[idx@[pos as int] as int]@ == l0[pos as int]);
                pos = pos + 1;
            }
            proof {
                if pos < idx.len() {
                    assert(ms@[idx@[pos as int] as int]@ == l0[pos as int]);
                }
                // every listed message has a smaller id than `y`
                assert forall|j: int| 0 <= j < l0.len() implies (#[trigger] l0[j]).id < y.id by {
                    assert(l0[j] == s[idx@[j as int] as int]);
                }
            }
            idx.insert(pos, i);
            proof {
                let l1 = at_positions(s, idx@);
                assert(l1 =~= l0.insert(pos as int, y));
                assert(sorted_by(order, l1)) by {
                    assert forall|a: int, b: int| 0 <= a < b < l1.len() implies precedes(
                        order,
                        #[trigger] l1[a],
                        #[trigger] l1[b],
                    ) by {
                        if b < pos {
                        } else if b == pos {
                            assert(l1[a] == l0[a]);
                        } else if a < pos {
                            assert(l1[b] == l0[b - 1]);
                            assert(precedes(order, l0[a], l0[b - 1]));
                        } else if a == pos {
                            assert(l1[b] == l0[b - 1]);
                            assert(!precedes(order, l0[pos as int], y));
                            if b - 1 > pos {
                                assert(precedes(order, l0[pos as int], l0[b - 1]));
                            }
                        } else {
                            assert(l1[a] == l0[a - 1] && l1[b] == l0[b - 1]);
                        }
                    }
                }
                assert forall|x: MessageView|
                    #![trigger rank(at_positions(s, idx@), order, x)]
                    rank(at_positions(s, idx@), order, x) == rank(s.take(i + 1), order, x) by {
                    lemma_count_insert(l0, pos as int, y, ranked_before(order, x));
                    lemma_count_push(t0, y, ranked_before(order, x));
                    assert(rank(l0, order, x) == rank(t0, order, x));
                }
                lemma_count_insert(l0, pos as int, y, |m: MessageView| top_level(m));
            }
        } else {
            proof {
                assert forall|x: MessageView|
                    #![trigger rank(at_positions(s, idx@), order, x)]
                    rank(at_positions(s, idx@), order, x) == rank(s.take(i + 1), order, x) by {
                    lemma_count_push(t0, y, ranked_before(order, x));
                    assert(rank(l0, order, x) == rank(t0, order, x));
                }
            }
        }
        i = i + 1;
    }
    proof {
        let l = at_positions(s, idx@);
        assert(s.take(s.len() as int) =~= s);
        assert forall|j: int| 0 <= j < l.len() implies rank(s, order, #[trigger] l[j]) == j by {
            assert(rank(l, order, l[j]) == rank(s, order, l[j]));
            lemma_sorted_rank(order, l, j);
        }
    }
    idx
}

} // verus!
