use vstd::prelude::*;
use crate::listing::{
    order_named, page_len, pages_for, rank, sort_order_of, sort_text, sorted_top_level, top_level,
    top_levels, PaginatedResponse, PaginationParams,
};
use crate::message::{views, Message, MessageError, MessageView, Principal};
use crate::model::{
    ascending, count, lemma_count_le_len, lemma_count_none, lemma_count_pointwise,
    lemma_count_push, lemma_count_remove, lemma_map_of, lemma_map_of_remove, lemma_map_of_update,
    map_of, other_than, children, lemma_children_add, lemma_children_pointwise, lemma_children_none,
    lemma_children_remove, lemma_children_member, lemma_filter_absent,
};
use crate::text::{is_blank, is_blank_text};

verus! {

/// How many stored messages one author has, maintained as messages come and go.
struct AuthorCount {
    author: Principal,
    count: u64,
}

/// The in-memory message board: messages in ascending id order, the next id
/// to hand out, and a per-author message count.
pub struct MessageStore {
    messages: Vec<Message>,
    next_id: u64,
    author_counts: Vec<AuthorCount>,
}

/// The store as plain values: its messages in ascending id order and the next
/// id to hand out.
pub struct StoreModel {
    pub listing: Seq<MessageView>,
    pub next_id: u64,
}

impl StoreModel {
    /// The stored messages, keyed by id.
    pub open spec fn messages(self) -> Map<u64, MessageView> {
        map_of(self.listing)
    }

    pub open spec fn contains(self, id: u64) -> bool {
        self.messages().contains_key(id)
    }

    /// How many stored messages `author` wrote.
    pub open spec fn authored_by(self, author: Seq<u8>) -> nat {
        authored(self.listing, author)
    }
}

impl View for MessageStore {
    type V = StoreModel;

    closed spec fn view(&self) -> StoreModel {
        StoreModel { listing: views(self.messages@), next_id: self.next_id }
    }
}

/// `m` with one more like.
pub open spec fn liked(m: MessageView) -> MessageView {
    MessageView { likes: (m.likes + 1) as u32, ..m }
}

/// `ms` with `id` appended to the replies of `parent`, when there is one.
pub open spec fn with_reply(ms: Map<u64, MessageView>, parent: Option<u64>, id: u64) -> Map<
    u64,
    MessageView,
> {
    match parent {
        Some(p) => ms.insert(p, MessageView { replies: ms[p].replies.push(id), ..ms[p] }),
        None => ms,
    }
}

/// The message that `create_message` makes.
pub open spec fn fresh_message(
    id: u64,
    author: Seq<u8>,
    content: Seq<char>,
    now: u64,
    parent_id: Option<u64>,
) -> MessageView {
    MessageView {
        id,
        author,
        content,
        created_at: now,
        updated_at: None,
        likes: 0,
        replies: Seq::empty(),
        parent_id,
    }
}

/// `s1` is `s0` once `m` was created: `m` takes the next id, which no stored
/// message has, and is added to the store and to its parent's replies.
pub open spec fn created(s0: StoreModel, m: MessageView, s1: StoreModel) -> bool {
    &&& m.id == s0.next_id
    &&& !s0.contains(m.id)
    &&& m.replies.len() == 0
    &&& s1.messages() == with_reply(s0.messages(), m.parent_id, m.id).insert(m.id, m)
    &&& s1.next_id == s0.next_id + 1
}

/// `s1` is `s0` with one more like on message `id`.
pub open spec fn liked_in(s0: StoreModel, id: u64, s1: StoreModel) -> bool {
    &&& s1.messages() == s0.messages().insert(id, liked(s0.messages()[id]))
    &&& s1.next_id == s0.next_id
}

/// Ids only grow: a message created after another, with any operations in
/// between that keep or raise the next id, has a higher id, so no id is
/// handed out twice, even once its message is deleted.
pub proof fn lemma_ids_increase(
    s0: StoreModel,
    m1: MessageView,
    s1: StoreModel,
    s2: StoreModel,
    m2: MessageView,
    s3: StoreModel,
)
    requires
        created(s0, m1, s1),
        s1.next_id <= s2.next_id,
        created(s2, m2, s3),
    ensures
        m1.id < m2.id,
        !s2.contains(m2.id),
{
}

/// Replies link both ways: once `c` is created as a reply to a freshly
/// created `p`, `p`'s replies are exactly `[c]` and its thread is `[p, c]`;
/// once `c` is deleted again, `p` has no replies.
pub proof fn lemma_reply_round_trip(
    s0: StoreModel,
    p: MessageView,
    s1: StoreModel,
    c: MessageView,
    s2: StoreModel,
    s3: StoreModel,
)
    requires
        created(s0, p, s1),
        created(s1, c, s2),
        c.parent_id == Some(p.id),
        s3.messages() == without(s2.messages(), c.id),
    ensures
        s2.contains(p.id),
        s2.messages()[p.id].replies == seq![c.id],
        seq![s2.messages()[p.id]] + present(s2.messages(), s2.messages()[p.id].replies) == seq![
            s2.messages()[p.id],
            s2.messages()[c.id],
        ],
        s3.contains(p.id),
        s3.messages()[p.id].replies.len() == 0,
{
    let ms2 = s2.messages();
    assert(s1.messages()[p.id] == p);
    assert(p.id != c.id);
    assert(ms2[p.id].replies =~= seq![c.id]);
    let rs = ms2[p.id].replies;
    assert(rs.drop_last() =~= Seq::<u64>::empty());
    assert(rs.last() == c.id);
    assert(ms2.contains_key(c.id));
    assert(present(ms2, rs.drop_last()) == present(ms2, Seq::<u64>::empty()));
    assert(present(ms2, Seq::<u64>::empty()) == Seq::<MessageView>::empty());
    assert(present(ms2, rs) =~= seq![ms2[c.id]]);
    assert(seq![ms2[p.id]] + present(ms2, rs) =~= seq![ms2[p.id], ms2[c.id]]);
    reveal(Seq::filter);
    assert(rs.filter(other_than(c.id)) =~= Seq::<u64>::empty()) by {
        assert(rs.drop_last().filter(other_than(c.id)) =~= Seq::<u64>::empty());
    }
}

/// Likes are not deduplicated: liking a message twice adds exactly two likes.
pub proof fn lemma_two_likes(s0: StoreModel, id: u64, s1: StoreModel, s2: StoreModel)
    requires
        s0.contains(id),
        s0.messages()[id].likes + 2 <= u32::MAX,
        liked_in(s0, id, s1),
        liked_in(s1, id, s2),
    ensures
        s2.contains(id),
        s2.messages()[id].likes == s0.messages()[id].likes + 2,
{
}

/// Whether `create_message` must fail: blank content, or a parent that is not stored.
pub open spec fn create_fails(s: StoreModel, content: Seq<char>, parent_id: Option<u64>) -> bool {
    is_blank(content) || (parent_id matches Some(p) && !s.contains(p))
}

/// How many messages of `s` `author` wrote.
pub open spec fn authored(s: Seq<MessageView>, author: Seq<u8>) -> nat {
    count(s, |m: MessageView| m.author == author)
}

proof fn lemma_same_authors(s0: Seq<MessageView>, s1: Seq<MessageView>)
    requires
        s0.len() == s1.len(),
        forall|k: int| 0 <= k < s0.len() ==> (#[trigger] s0[k]).author == s1[k].author,
    ensures
        forall|a: Seq<u8>| #[trigger] authored(s0, a) == authored(s1, a),
{
    assert forall|a: Seq<u8>| #[trigger] authored(s0, a) == authored(s1, a) by {
        lemma_count_pointwise(s0, s1, |m: MessageView| m.author == a, |m: MessageView| m.author == a);
    }
}

/// `m` with its content replaced at time `now`.
pub open spec fn edited(m: MessageView, content: Seq<char>, now: u64) -> MessageView {
    MessageView { content, updated_at: Some(now), ..m }
}

/// `ms` once the message `id` is gone: it leaves its parent's replies, when
/// the parent is stored, and the store. Its own replies stay.
pub open spec fn without(ms: Map<u64, MessageView>, id: u64) -> Map<u64, MessageView> {
    let unlinked = match ms[id].parent_id {
        Some(p) => if ms.contains_key(p) {
            ms.insert(p, MessageView { replies: ms[p].replies.filter(other_than(id)), ..ms[p] })
        } else {
            ms
        },
        None => ms,
    };
    unlinked.remove(id)
}

/// The stored messages among `rs`, in order; ids no longer stored are skipped.
pub open spec fn present(ms: Map<u64, MessageView>, rs: Seq<u64>) -> Seq<MessageView>
    decreases rs.len(),
{
    if rs.len() == 0 {
        Seq::empty()
    } else {
        let before = present(ms, rs.drop_last());
        if ms.contains_key(rs.last()) {
            before.push(ms[rs.last()])
        } else {
            before
        }
    }
}

/// `v` without the occurrences of `id`, order kept.
fn filter_out(v: &Vec<u64>, id: u64) -> (r: Vec<u64>)
    ensures
        r@ == v@.filter(other_than(id)),
{
    let mut r: Vec<u64> = Vec::new();
    let mut i: usize = 0;
    proof {
        reveal(Seq::filter);
        assert(v@.take(0).filter(other_than(id)) =~= Seq::<u64>::empty());
    }
    while i < v.len()
        invariant
            i <= v.len(),
            r@ == v@.take(i as int).filter(other_than(id)),
        decreases v.len() - i,
    {
        let ghost t = v@.take(i + 1);
        assert(t.drop_last() =~= v@.take(i as int));
        assert(t.last() == v@[i as int]);
        reveal(Seq::filter);
        assert(t.filter(other_than(id)) == if other_than(id)(t.last()) {
            t.drop_last().filter(other_than(id)).push(t.last())
        } else {
            t.drop_last().filter(other_than(id))
        });
        if v[i] != id {
            r.push(v[i]);
        }
        i = i + 1;
    }
    assert(v@.take(v@.len() as int) =~= v@);
    r
}

/// Each message's replies are the ids of its children in `s`.
pub open spec fn replies_linked(s: Seq<MessageView>) -> bool {
    forall|i: int| 0 <= i < s.len() ==> (#[trigger] s[i]).replies == children(s, s[i].id)
}

/// Nanoseconds in a day.
pub const DAY_NANOS: u64 = 86_400_000_000_000;

/// Totals over the stored messages.
pub struct MessageStats {
    pub total_messages: u64,
    pub total_authors: u64,
    pub messages_today: u64,
}

/// The distinct authors of the messages of `s`.
pub open spec fn authors(s: Seq<MessageView>) -> Set<Seq<u8>> {
    s.map_values(|m: MessageView| m.author).to_set()
}

/// Whether `m` was created less than a day before `now`.
pub open spec fn recent(now: u64) -> spec_fn(MessageView) -> bool {
    |m: MessageView| (now as int) - (m.created_at as int) < DAY_NANOS as int
}

/// The bytes of each identity.
pub open spec fn principal_views(ps: Seq<Principal>) -> Seq<Seq<u8>> {
    ps.map_values(|p: Principal| p@)
}

/// Whether `p` is among `ps`.
fn holds_principal(ps: &Vec<Principal>, p: &Principal) -> (r: bool)
    ensures
        r == principal_views(ps@).contains(p@),
{
    let mut j: usize = 0;
    while j < ps.len()
        invariant
            j <= ps.len(),
            forall|k: int| 0 <= k < j ==> (#[trigger] ps@[k])@ != p@,
        decreases ps.len() - j,
    {
        if ps[j].same_as(p) {
            assert(principal_views(ps@)[j as int] == p@);
            return true;
        }
        j = j + 1;
    }
    proof {
        if principal_views(ps@).contains(p@) {
            let k = choose|k: int| 0 <= k < ps@.len() && principal_views(ps@)[k] == p@;
            assert(ps@[k]@ == p@);
        }
    }
    false
}

/// Position of the count kept for `author`, if there is one.
fn find_author(counts: &Vec<AuthorCount>, author: &Principal) -> (r: Option<usize>)
    ensures
        r matches Some(j) ==> j < counts@.len() && counts@[j as int].author@ == author@,
        r is None ==> forall|j: int| 0 <= j < counts@.len() ==> (#[trigger] counts@[j]).author@ != author@,
{
    let mut j: usize = 0;
    while j < counts.len()
        invariant
            j <= counts.len(),
            forall|k: int| 0 <= k < j ==> (#[trigger] counts@[k]).author@ != author@,
        decreases counts.len() - j,
    {
        if counts[j].author.same_as(author) {
            return Some(j);
        }
        j = j + 1;
    }
    None
}

impl MessageStore {
    /// The store's internal consistency: ids ascend and lie below the next
    /// id, and each author's maintained count equals the number of stored
    /// messages by that author.
    pub closed spec fn wf(&self) -> bool {
        self.core_wf() && replies_linked(self@.listing)
    }

    /// Everything in `wf` but the reply lists: ids ascend and lie below the
    /// next id, parents have lower ids than their replies, and each author's
    /// maintained count equals the number of stored messages by that author.
    closed spec fn core_wf(&self) -> bool {
        let s = self@.listing;
        let ac = self.author_counts@;
        &&& ascending(s)
        &&& self.next_id >= 1
        &&& forall|i: int| 0 <= i < s.len() ==> i < (#[trigger] s[i]).id < self.next_id
        &&& forall|i: int|
            0 <= i < s.len() ==> ((#[trigger] s[i]).parent_id matches Some(p) ==> p < s[i].id)
        &&& forall|j: int, k: int|
            0 <= j < k < ac.len() ==> (#[trigger] ac[j]).author@ != (#[trigger] ac[k]).author@
        &&& forall|j: int|
            0 <= j < ac.len() ==> (#[trigger] ac[j]).count == self@.authored_by(ac[j].author@)
        &&& forall|i: int|
            0 <= i < s.len() ==> exists|j: int|
                0 <= j < ac.len() && (#[trigger] ac[j]).author@ == (#[trigger] s[i]).author
    }

    /// The reply list of every stored message is exactly the ids of the
    /// stored messages that name it as their parent, oldest first.
    pub proof fn lemma_replies_are_children(&self, id: u64)
        requires
            self.wf(),
            self@.contains(id),
        ensures
            self@.messages()[id].replies == children(self@.listing, id),
    {
        lemma_map_of(self@.listing);
        let k = choose|k: int| 0 <= k < self@.listing.len() && self@.listing[k].id == id;
        assert(self@.messages()[self@.listing[k].id] == self@.listing[k]);
    }

    /// An empty store whose first message will get id 1.
    pub fn new() -> (r: MessageStore)
        ensures
            r.wf(),
            r@.listing.len() == 0,
            r@.next_id == 1,
    {
        let r = MessageStore { messages: Vec::new(), next_id: 1, author_counts: Vec::new() };
        assert(r@.listing =~= Seq::<MessageView>::empty());
        r
    }

    /// Posts a message by `caller` at time `now`, as a reply to `parent_id`
    /// when given. The new message takes the next id.
    pub fn create_message(
        &mut self,
        content: String,
        parent_id: Option<u64>,
        caller: Principal,
        now: u64,
    ) -> (r: Result<Message, MessageError>)
        requires
            old(self).wf(),
            old(self)@.next_id < u64::MAX,
        ensures
            final(self).wf(),
            r is Err <==> create_fails(old(self)@, content@, parent_id),
            is_blank(content@) ==> r == Err::<Message, MessageError>(MessageError::Validation),
            !is_blank(content@) && create_fails(old(self)@, content@, parent_id) ==> r == Err::<
                Message,
                MessageError,
            >(MessageError::NotFound),
            r is Err ==> final(self)@ == old(self)@,
            r matches Ok(m) ==> m@ == fresh_message(old(self)@.next_id, caller@, content@, now, parent_id)
                && created(old(self)@, m@, final(self)@),
    {
        if is_blank_text(content.as_str()) {
            return Err(MessageError::Validation);
        }
        let parent_index = match parent_id {
            Some(p) => match self.find_index(p) {
                Some(k) => Some(k),
                None => {
                    return Err(MessageError::NotFound);
                },
            },
            None => None,
        };
        let ghost s0 = self@.listing;
        let ghost ms0 = self@.messages();
        proof {
            lemma_map_of(s0);
            if s0.len() > 0 {
                assert(s0.len() - 1 < s0[s0.len() - 1].id);
            }
        }
        let id = self.next_id;
        self.next_id = id + 1;
        let message = Message {
            id,
            author: caller,
            content,
            created_at: now,
            updated_at: None,
            likes: 0,
            replies: Vec::new(),
            parent_id,
        };
        let ghost mv = message@;
        assert(mv == fresh_message(id, message.author@, message.content@, now, parent_id));
        match parent_index {
            Some(k) => {
                self.messages[k].replies.push(id);
                proof {
                    let x = self@.listing[k as int];
                    assert(self@.listing =~= s0.update(k as int, x));
                    lemma_map_of_update(s0, k as int, x);
                    assert(x == MessageView { replies: ms0[s0[k as int].id].replies.push(id), ..ms0[s0[k as int].id] });
                }
            },
            None => {
                assert(self@.listing =~= s0);
            },
        }
        let ghost s1 = self@.listing;
        proof {
            lemma_same_authors(s0, s1);
            assert(map_of(s1) == with_reply(ms0, parent_id, id));
            assert forall|k: int| 0 <= k < s1.len() implies (#[trigger] s1[k]).id == s0[k].id && s1[k].author == s0[k].author by {
            }
        }
        match find_author(&self.author_counts, &message.author) {
            Some(j) => {
                proof {
                    lemma_count_le_len(s0, |m: MessageView| m.author == mv.author);
                }
                let c = self.author_counts[j].count;
                self.author_counts[j].count = c + 1;
            },
            None => {
                self.author_counts.push(AuthorCount { author: message.author.duplicate(), count: 0 });
                proof {
                    lemma_count_none(s0, |m: MessageView| m.author == mv.author);
                }
                let last = self.author_counts.len() - 1;
                self.author_counts[last].count = 1;
            },
        }
        let result = message.duplicate();
        self.messages.push(message);
        proof {
            let s2 = self@.listing;
            assert(s2 =~= s1.push(mv));
            assert(map_of(s2) == map_of(s1).insert(mv.id, mv)) by {
                assert(s2.drop_last() =~= s1);
            }
            assert forall|a: Seq<u8>| #[trigger] self@.authored_by(a) == authored(s1, a) + if mv.author == a { 1nat } else { 0nat } by {
                lemma_count_push(s1, mv, |m: MessageView| m.author == a);
            }
            assert(!ms0.contains_key(id)) by {
                if ms0.contains_key(id) {
                    let k = choose|k: int| 0 <= k < s0.len() && s0[k].id == id;
                    assert(s0[k].id < id);
                }
            }
            assert(ascending(s2)) by {
                assert forall|a: int, b: int| 0 <= a < b < s2.len() implies (#[trigger] s2[a]).id < (#[trigger] s2[b]).id by {
                    if b < s1.len() {
                        assert(s1[a].id == s0[a].id && s1[b].id == s0[b].id);
                    } else {
                        assert(s1[a].id == s0[a].id);
                    }
                }
            }
            let ac = self.author_counts@;
            assert forall|k: int| 0 <= k < s2.len() implies exists|j: int|
                0 <= j < ac.len() && (#[trigger] ac[j]).author@ == (#[trigger] s2[k]).author by {
                if k < s1.len() {
                    assert(s1[k].author == s0[k].author);
                    assert(s0[k] == old(self)@.listing[k]);
                    let j = choose|j: int|
                        0 <= j < old(self).author_counts@.len() && (#[trigger] old(self).author_counts@[j]).author@
                            == s0[k].author;
                    assert(ac[j].author@ == s2[k].author);
                } else {
                    let j = choose|j: int| 0 <= j < ac.len() && ac[j].author@ == mv.author;
                    assert(ac[j].author@ == s2[k].author);
                }
            }
            assert forall|j: int| 0 <= j < ac.len() implies (#[trigger] ac[j]).count == self@.authored_by(ac[j].author@) by {}
            assert forall|i: int| 0 <= i < s2.len() implies i < (#[trigger] s2[i]).id < self.next_id by {
                if i < s1.len() {
                    assert(s1[i].id == s0[i].id);
                }
            }
            self.lemma_created_links(*old(self), s1, mv, parent_index);
            assert(self.wf());
        }
        Ok(result)
    }

    /// Replaces the content of message `id` at time `now`; only its author may.
    pub fn update_message(
        &mut self,
        id: u64,
        new_content: String,
        caller: &Principal,
        now: u64,
    ) -> (r: Result<Message, MessageError>)
        requires
            old(self).wf(),
        ensures
            final(self).wf(),
            is_blank(new_content@) ==> r == Err::<Message, MessageError>(MessageError::Validation),
            !is_blank(new_content@) && !old(self)@.contains(id) ==> r == Err::<Message, MessageError>(
                MessageError::NotFound,
            ),
            !is_blank(new_content@) && old(self)@.contains(id) && old(self)@.messages()[id].author
                != caller@ ==> r == Err::<Message, MessageError>(MessageError::Authorization),
            r is Ok <==> !is_blank(new_content@) && old(self)@.contains(id)
                && old(self)@.messages()[id].author == caller@,
            r is Err ==> final(self)@ == old(self)@,
            r matches Ok(m) ==> m@ == edited(old(self)@.messages()[id], new_content@, now)
                && final(self)@.messages() == old(self)@.messages().insert(id, m@),
            final(self)@.next_id == old(self)@.next_id,
    {
        if is_blank_text(new_content.as_str()) {
            return Err(MessageError::Validation);
        }
        let k = match self.find_index(id) {
            Some(k) => k,
            None => {
                return Err(MessageError::NotFound);
            },
        };
        if !self.messages[k].author.same_as(caller) {
            return Err(MessageError::Authorization);
        }
        let ghost s0 = self@.listing;
        self.messages[k].content = new_content;
        self.messages[k].updated_at = Some(now);
        let result = self.messages[k].duplicate();
        proof {
            let x = self@.listing[k as int];
            assert(self@.listing =~= s0.update(k as int, x));
            lemma_map_of_update(s0, k as int, x);
            self.lemma_changed_in_place(*old(self), k as int);
        }
        Ok(result)
    }

    /// After one message changed in place, keeping its id, author and
    /// parent, the store is consistent again but for the reply lists, and
    /// fully so where the changed message kept its replies too.
    proof fn lemma_changed_in_place(&self, before: MessageStore, k: int)
        requires
            before.wf(),
            0 <= k < before@.listing.len(),
            self@.listing == before@.listing.update(k, self@.listing[k]),
            self@.listing[k].id == before@.listing[k].id,
            self@.listing[k].author == before@.listing[k].author,
            self@.listing[k].parent_id == before@.listing[k].parent_id,
            self.author_counts == before.author_counts,
            self.next_id == before.next_id,
        ensures
            self.core_wf(),
            forall|q: u64| #[trigger] children(self@.listing, q) == children(before@.listing, q),
            self@.listing[k].replies == before@.listing[k].replies ==> self.wf(),
    {
        let s0 = before@.listing;
        let s1 = self@.listing;
        lemma_map_of_update(s0, k, s1[k]);
        assert forall|i: int| 0 <= i < s0.len() implies (#[trigger] s0[i]).author == s1[i].author && s0[i].id == s1[i].id && s0[i].parent_id == s1[i].parent_id by {}
        lemma_same_authors(s0, s1);
        assert forall|q: u64| #[trigger] children(s1, q) == children(s0, q) by {
            lemma_children_pointwise(s1, s0, q);
        }
        let ac = self.author_counts@;
        assert forall|i: int| 0 <= i < s1.len() implies exists|j: int|
            0 <= j < ac.len() && (#[trigger] ac[j]).author@ == (#[trigger] s1[i]).author by {
            assert(s1[i].author == s0[i].author);
            let j = choose|j: int|
                0 <= j < before.author_counts@.len() && (#[trigger] before.author_counts@[j]).author@
                    == s0[i].author;
            assert(ac[j].author@ == s1[i].author);
        }
        assert forall|i: int| 0 <= i < s1.len() implies i < (#[trigger] s1[i]).id < self.next_id by {
            assert(s0[i].id == s1[i].id);
        }
        assert forall|i: int| 0 <= i < s1.len() implies ((#[trigger] s1[i]).parent_id matches Some(p) ==> p < s1[i].id) by {
            assert(s0[i].id == s1[i].id);
        }
        if s1[k].replies == s0[k].replies {
            assert forall|i: int| 0 <= i < s1.len() implies (#[trigger] s1[i]).replies == children(s1, s1[i].id) by {
                assert(s0[i].replies == children(s0, s0[i].id));
            }
        }
    }

    /// Deletes message `id`; only its author may. It leaves its parent's
    /// replies; its own replies are kept and keep pointing at it.
    #[verifier::rlimit(60)]
    pub fn delete_message(&mut self, id: u64, caller: &Principal) -> (r: Result<(), MessageError>)
        requires
            old(self).wf(),
        ensures
            final(self).wf(),
            !old(self)@.contains(id) ==> r == Err::<(), MessageError>(MessageError::NotFound),
            old(self)@.contains(id) && old(self)@.messages()[id].author != caller@ ==> r == Err::<
                (),
                MessageError,
            >(MessageError::Authorization),
            r is Ok <==> old(self)@.contains(id) && old(self)@.messages()[id].author == caller@,
            r is Err ==> final(self)@ == old(self)@,
            r is Ok ==> final(self)@.messages() == without(old(self)@.messages(), id),
            final(self)@.next_id == old(self)@.next_id,
    {
        let k = match self.find_index(id) {
            Some(k) => k,
            None => {
                return Err(MessageError::NotFound);
            },
        };
        if !self.messages[k].author.same_as(caller) {
            return Err(MessageError::Authorization);
        }
        let ghost s0 = self@.listing;
        let ghost ms0 = self@.messages();
        let ghost gone = s0[k as int];
        let parent_index = match self.messages[k].parent_id {
            Some(p) => self.find_index(p),
            None => None,
        };
        match parent_index {
            Some(q) => {
                let kept = filter_out(&self.messages[q].replies, id);
                self.messages[q].replies = kept;
                proof {
                    let x = self@.listing[q as int];
                    assert(self@.listing =~= s0.update(q as int, x));
                    lemma_map_of_update(s0, q as int, x);
                    self.lemma_changed_in_place(*old(self), q as int);
                }
            },
            None => {
                assert(self@.listing =~= s0);
            },
        }
        let ghost mid = *self;
        let ghost s1 = self@.listing;
        proof {
            assert(mid.core_wf());
            assert forall|i: int| 0 <= i < s1.len() implies (#[trigger] s1[i]).id == s0[i].id && s1[i].parent_id == s0[i].parent_id by {}
            assert(map_of(s1) == match gone.parent_id {
                Some(p) => if ms0.contains_key(p) {
                    ms0.insert(p, MessageView { replies: ms0[p].replies.filter(other_than(id)), ..ms0[p] })
                } else {
                    ms0
                },
                None => ms0,
            });
            lemma_map_of(s1);
            assert(s1[k as int].id == id);
            lemma_map_of_remove(s1, k as int);
        }
        let removed = self.messages.remove(k);
        match find_author(&self.author_counts, &removed.author) {
            Some(j) => {
                let c = self.author_counts[j].count;
                if c > 0 {
                    self.author_counts[j].count = c - 1;
                }
            },
            None => {},
        }
        proof {
            let s2 = self@.listing;
            assert(s2 =~= s1.remove(k as int));
            assert forall|a: Seq<u8>| #[trigger] authored(s1, a) == authored(s2, a) + if s1[k as int].author == a { 1nat } else { 0nat } by {
                lemma_count_remove(s1, k as int, |m: MessageView| m.author == a);
            }
            assert(s1[k as int].author == removed.author@);
            let ac = self.author_counts@;
            assert forall|j: int| 0 <= j < ac.len() implies (#[trigger] ac[j]).count == authored(s2, ac[j].author@) by {
                assert(mid.author_counts@[j].count == authored(s1, mid.author_counts@[j].author@));
            }
            assert forall|i: int| 0 <= i < s2.len() implies exists|j: int|
                0 <= j < ac.len() && (#[trigger] ac[j]).author@ == (#[trigger] s2[i]).author by {
                let i2 = if i < k { i } else { i + 1 };
                assert(s2[i] == s1[i2]);
                let j = choose|j: int|
                    0 <= j < mid.author_counts@.len() && (#[trigger] mid.author_counts@[j]).author@
                        == s1[i2].author;
                assert(ac[j].author@ == s2[i].author);
            }
            assert forall|i: int| 0 <= i < s2.len() implies i < (#[trigger] s2[i]).id < self.next_id by {
                let i2 = if i < k { i } else { i + 1 };
                assert(s2[i] == s1[i2]);
            }
            self.lemma_deleted_links(*old(self), s1, k as int, parent_index);
            assert(self.wf());
        }
        Ok(())
    }

    /// Message `id` followed by its direct replies, in reply order; replies
    /// that are no longer stored are skipped.
    pub fn get_message_thread(&self, id: u64) -> (r: Result<Vec<Message>, MessageError>)
        requires
            self.wf(),
        ensures
            r is Ok <==> self@.contains(id),
            r matches Ok(t) ==> views(t@) == seq![self@.messages()[id]] + present(
                self@.messages(),
                self@.messages()[id].replies,
            ),
            r matches Err(e) ==> e == MessageError::NotFound,
    {
        let k = match self.find_index(id) {
            Some(k) => k,
            None => {
                return Err(MessageError::NotFound);
            },
        };
        let head = &self.messages[k];
        let ghost ms = self@.messages();
        let ghost rs = head.replies@;
        let mut thread: Vec<Message> = Vec::new();
        thread.push(head.duplicate());
        let mut i: usize = 0;
        while i < head.replies.len()
            invariant
                self.wf(),
                ms == self@.messages(),
                rs == head.replies@,
                head@ == ms[id],
                i <= rs.len(),
                views(thread@) == seq![ms[id]] + present(ms, rs.take(i as int)),
            decreases rs.len() - i,
        {
            assert(rs.take(i + 1).drop_last() =~= rs.take(i as int));
            let before = Ghost(views(thread@));
            match self.find_index(head.replies[i]) {
                Some(q) => {
                    thread.push(self.messages[q].duplicate());
                    assert(views(thread@) =~= before@.push(ms[rs[i as int]]));
                },
                None => {},
            }
            i = i + 1;
        }
        assert(rs.take(rs.len() as int) =~= rs);
        Ok(thread)
    }

    /// Totals over the stored messages at time `now`: how many there are, how
    /// many distinct authors wrote them, and how many are less than a day old.
    pub fn get_stats(&self, now: u64) -> (r: MessageStats)
        requires
            self.wf(),
        ensures
            r.total_messages == self@.listing.len(),
            r.total_authors == authors(self@.listing).len(),
            r.messages_today == count(self@.listing, recent(now)),
    {
        let ghost s = self@.listing;
        let mut seen: Vec<Principal> = Vec::new();
        let mut today: u64 = 0;
        let mut i: usize = 0;
        proof {
            assert(authors(s.take(0)) =~= Set::<Seq<u8>>::empty());
            assert(principal_views(seen@) =~= Seq::<Seq<u8>>::empty());
            assert(principal_views(seen@).to_set() =~= Set::<Seq<u8>>::empty());
            assert(s.take(0) =~= Seq::<MessageView>::empty());
        }
        while i < self.messages.len()
            invariant
                self.wf(),
                s == self@.listing,
                i <= s.len(),
                principal_views(seen@).no_duplicates(),
                principal_views(seen@).to_set() == authors(s.take(i as int)),
                today == count(s.take(i as int), recent(now)),
                seen@.len() <= i,
            decreases s.len() - i,
        {
            let ghost t0 = s.take(i as int);
            let ghost t1 = s.take(i + 1);
            let ghost pv0 = principal_views(seen@);
            assert(t1 =~= t0.push(s[i as int]));
            let m = &self.messages[i];
            assert(m@ == s[i as int]);
            proof {
                lemma_count_push(t0, s[i as int], recent(now));
                lemma_count_le_len(t0, recent(now));
            }
            if m.created_at > now || now - m.created_at < DAY_NANOS {
                today = today + 1;
            }
            proof {
                assert(authors(t1) =~= authors(t0).insert(m.author@)) by {
                    assert forall|a: Seq<u8>| authors(t1).contains(a) <==> authors(t0).contains(a) || a == m.author@ by {
                        let f = |m: MessageView| m.author;
                        if authors(t1).contains(a) {
                            let k = choose|k: int| 0 <= k < t1.len() && t1.map_values(f)[k] == a;
                            if k < t0.len() {
                                assert(t0.map_values(f)[k] == a);
                            }
                        }
                        if authors(t0).contains(a) {
                            let k = choose|k: int| 0 <= k < t0.len() && t0.map_values(f)[k] == a;
                            assert(t1.map_values(f)[k] == a);
                        }
                        if a == m.author@ {
                            assert(t1.map_values(f)[i as int] == a);
                        }
                    }
                }
            }
            if !holds_principal(&seen, &m.author) {
                seen.push(m.author.duplicate());
                proof {
                    let pv1 = principal_views(seen@);
                    assert(pv1 =~= pv0.push(m.author@));
                    assert(pv1.to_set() =~= pv0.to_set().insert(m.author@)) by {
                        assert forall|a: Seq<u8>| pv1.contains(a) <==> pv0.contains(a) || a == m.author@ by {
                            if pv1.contains(a) {
                                let k = choose|k: int| 0 <= k < pv1.len() && pv1[k] == a;
                                if k < pv0.len() {
                                    assert(pv0[k] == a);
                                }
                            }
                            if pv0.contains(a) {
                                let k = choose|k: int| 0 <= k < pv0.len() && pv0[k] == a;
                                assert(pv1[k] == a);
                            }
                            if a == m.author@ {
                                assert(pv1[pv0.len() as int] == a);
                            }
                        }
                    }
                    assert(pv1.no_duplicates()) by {
                        assert forall|x: int, y: int| 0 <= x < pv1.len() && 0 <= y < pv1.len() && x != y implies pv1[x] != pv1[y] by {
                            if y == pv0.len() as int {
                                assert(pv0.contains(pv0[x]));
                            } else if x == pv0.len() as int {
                                assert(pv0.contains(pv0[y]));
                            }
                        }
                    }
                }
            } else {
                proof {
                    assert(pv0.to_set() =~= pv0.to_set().insert(m.author@));
                }
            }
            i = i + 1;
        }
        proof {
            assert(s.take(s.len() as int) =~= s);
            principal_views(seen@).unique_seq_to_set();
        }
        MessageStats {
            total_messages: self.messages.len() as u64,
            total_authors: seen.len() as u64,
            messages_today: today,
        }
    }

    /// The count kept for `author`: always the number of stored messages that
    /// `author` wrote.
    pub fn author_message_count(&self, author: &Principal) -> (r: u64)
        requires
            self.wf(),
        ensures
            r == self@.authored_by(author@),
    {
        match find_author(&self.author_counts, author) {
            Some(j) => self.author_counts[j].count,
            None => {
                proof {
                    let s = self@.listing;
                    assert forall|i: int| 0 <= i < s.len() implies !(|m: MessageView| m.author == author@)(#[trigger] s[i]) by {
                        let j = choose|j: int|
                            0 <= j < self.author_counts@.len() && (#[trigger] self.author_counts@[j]).author@ == s[i].author;
                    }
                    lemma_count_none(s, |m: MessageView| m.author == author@);
                }
                0
            },
        }
    }

    /// One page of the top-level messages, sorted as `params.sort_by` asks,
    /// with ties going to the lower id. Pages count from 1; a page past the
    /// end is empty. A page or a page size of zero is refused.
    pub fn get_messages(&self, params: &PaginationParams) -> (r: Result<PaginatedResponse, MessageError>)
        requires
            self.wf(),
        ensures
            r is Err <==> params.page == 0 || params.limit == 0,
            r matches Err(e) ==> e == MessageError::Validation,
            r matches Ok(resp) ==> {
                let s = self@.listing;
                let order = order_named(sort_text(params.sort_by));
                let total = top_levels(s);
                let skip = ((params.page - 1) * params.limit) as nat;
                &&& resp.total == total
                &&& resp.page == params.page
                &&& resp.total_pages == pages_for(total, params.limit as nat)
                &&& resp.has_next == (params.page < resp.total_pages)
                &&& resp.has_previous == (params.page > 1)
                &&& resp.messages@.len() == page_len(total, skip, params.limit as nat)
                &&& forall|i: int|
                    0 <= i < resp.messages@.len() ==> {
                        let v = (#[trigger] resp.messages@[i])@;
                        &&& self@.contains(v.id)
                        &&& self@.messages()[v.id] == v
                        &&& top_level(v)
                        &&& rank(s, order, v) == skip + i
                    }
            },
    {
        if params.page == 0 || params.limit == 0 {
            return Err(MessageError::Validation);
        }
        let ghost s = self@.listing;
        let order = sort_order_of(&params.sort_by);
        let idx = sorted_top_level(&self.messages, order);
        let ghost l = crate::listing::at_positions(s, idx@);
        let total = idx.len() as u64;
        let limit = params.limit as u64;
        assert((params.page - 1) * params.limit <= 0xffff_ffffu64 * 0xffff_ffffu64) by (nonlinear_arith)
            requires
                params.page >= 1,
        ;
        let skip = (params.page as u64 - 1) * limit;
        let start = if skip < total {
            skip
        } else {
            total
        };
        let end = if skip + limit < total {
            skip + limit
        } else {
            total
        };
        let mut page: Vec<Message> = Vec::new();
        let mut j: u64 = start;
        proof {
            lemma_map_of(s);
        }
        while j < end
            invariant
                self.wf(),
                s == self@.listing,
                l == crate::listing::at_positions(s, idx@),
                forall|q: int| 0 <= q < idx@.len() ==> (#[trigger] idx@[q]) < s.len(),
                forall|q: int| 0 <= q < l.len() ==> top_level(#[trigger] l[q]),
                forall|q: int| 0 <= q < l.len() ==> rank(s, order, #[trigger] l[q]) == q,
                total == idx@.len(),
                end <= total,
                start <= j <= end,
                start == skip || start == end,
                page@.len() == j - start,
                forall|q: int| 0 <= q < page@.len() ==> (#[trigger] page@[q])@ == l[skip + q],
            decreases end - j,
        {
            assert(j < idx@.len());
            let k = idx[j as usize];
            assert(l[j as int] == s[k as int]);
            assert(s[k as int] == self.messages@[k as int]@);
            page.push(self.messages[k].duplicate());
            j = j + 1;
        }
        proof {
            crate::model::lemma_count_le_len(s, |m: MessageView| top_level(m));
            if s.len() > 0 {
                assert(s.len() - 1 < s[s.len() - 1].id);
            }
            assert(total / limit <= total) by (nonlinear_arith)
                requires
                    limit >= 1,
            ;
        }
        let total_pages = total / limit + if total % limit == 0 { 0 } else { 1 };
        proof {
            assert forall|i: int| 0 <= i < page@.len() implies {
                let v = (#[trigger] page@[i])@;
                &&& self@.contains(v.id)
                &&& self@.messages()[v.id] == v
            } by {
                let q = idx@[skip + i] as int;
                assert(l[skip + i] == s[q]);
                assert(map_of(s)[s[q].id] == s[q]);
            }
        }
        Ok(PaginatedResponse {
            messages: page,
            total,
            page: params.page,
            total_pages,
            has_next: (params.page as u64) < total_pages,
            has_previous: params.page > 1,
        })
    }

    /// The id that the next created message will take.
    pub fn next_id(&self) -> (r: u64)
        ensures
            r == self@.next_id,
    {
        self.next_id
    }

    /// The reply lists are right again once `m` is appended to `s1`, where
    /// `s1` is the store before with `m`'s id added to the replies of its
    /// parent, found at `parent_index`.
    proof fn lemma_created_links(
        &self,
        before: MessageStore,
        s1: Seq<MessageView>,
        m: MessageView,
        parent_index: Option<usize>,
    )
        requires
            before.wf(),
            m.id == before.next_id,
            m.replies == Seq::<u64>::empty(),
            self@.listing == s1.push(m),
            s1.len() == before@.listing.len(),
            forall|i: int|
                0 <= i < s1.len() ==> (#[trigger] s1[i]).id == before@.listing[i].id && s1[i].parent_id
                    == before@.listing[i].parent_id,
            parent_index matches Some(k) ==> k < s1.len() && m.parent_id == Some(
                before@.listing[k as int].id,
            ) && s1[k as int].replies == before@.listing[k as int].replies.push(m.id),
            parent_index is None ==> m.parent_id is None,
            forall|i: int|
                0 <= i < s1.len() && !(parent_index matches Some(k) && k == i) ==> (#[trigger] s1[i]).replies
                    == before@.listing[i].replies,
        ensures
            replies_linked(self@.listing),
            forall|i: int|
                0 <= i < self@.listing.len() ==> ((#[trigger] self@.listing[i]).parent_id matches Some(
                    p,
                ) ==> p < self@.listing[i].id),
    {
        let s0 = before@.listing;
        let s2 = self@.listing;
        let one = seq![m];
        assert(s2 =~= s1 + one);
        assert(one.drop_last() =~= Seq::<MessageView>::empty());
        assert(one.last() == m);
        assert forall|q: u64| #[trigger] children(one, q) == if m.parent_id == Some(q) {
            seq![m.id]
        } else {
            Seq::<u64>::empty()
        } by {
            assert(children(one.drop_last(), q) == children(Seq::<MessageView>::empty(), q));
            assert(children(Seq::<MessageView>::empty(), q) == Seq::<u64>::empty());
            assert(Seq::<u64>::empty().push(m.id) =~= seq![m.id]);
        }
        assert forall|q: u64| #[trigger] children(s2, q) == children(s0, q) + children(one, q) by {
            lemma_children_pointwise(s1, s0, q);
            lemma_children_add(s1, one, q);
        }
        assert forall|i: int| 0 <= i < s2.len() implies (#[trigger] s2[i]).replies == children(s2, s2[i].id) by {
            if i == s1.len() {
                assert(s2[i] == m);
                assert forall|j: int| 0 <= j < s0.len() implies (#[trigger] s0[j]).parent_id != Some(m.id) by {
                    assert(s0[j].id < m.id);
                }
                lemma_children_none(s0, m.id);
                if let Some(k) = parent_index {
                    assert(s0[k as int].id < m.id);
                }
                assert(children(one, m.id) =~= Seq::<u64>::empty());
                assert(children(s2, m.id) =~= Seq::<u64>::empty());
            } else {
                assert(s2[i] == s1[i]);
                let r = s0[i].id;
                assert(s0[i].replies == children(s0, r));
                if parent_index matches Some(k) && k == i {
                    assert(children(one, r) =~= seq![m.id]);
                    assert(children(s2, r) =~= children(s0, r).push(m.id));
                } else {
                    if let Some(k) = parent_index {
                        if k as int != i {
                            assert(s0[k as int].id != s0[i].id) by {
                                if (k as int) < i {
                                    assert(s0[k as int].id < s0[i].id);
                                } else {
                                    assert(s0[i].id < s0[k as int].id);
                                }
                            }
                        }
                    }
                    assert(children(one, r) =~= Seq::<u64>::empty());
                    assert(children(s2, r) =~= children(s0, r));
                }
            }
        }
        assert forall|i: int| 0 <= i < s2.len() implies ((#[trigger] s2[i]).parent_id matches Some(
            p,
        ) ==> p < s2[i].id) by {
            if i < s1.len() {
                assert(s2[i].parent_id == s0[i].parent_id && s2[i].id == s0[i].id);
            } else if let Some(k) = parent_index {
                assert(s0[k as int].id < m.id);
            }
        }
    }

    /// The reply lists are right again once the message at `k` is removed
    /// from `s1`, where `s1` is the store before with that message's id
    /// filtered out of the replies of its parent, found at `parent_index`.
    proof fn lemma_deleted_links(
        &self,
        before: MessageStore,
        s1: Seq<MessageView>,
        k: int,
        parent_index: Option<usize>,
    )
        requires
            before.wf(),
            0 <= k < s1.len(),
            self@.listing == s1.remove(k),
            s1.len() == before@.listing.len(),
            forall|i: int|
                0 <= i < s1.len() ==> (#[trigger] s1[i]).id == before@.listing[i].id && s1[i].parent_id
                    == before@.listing[i].parent_id,
            parent_index matches Some(q) ==> q < s1.len() && before@.listing[k].parent_id == Some(
                before@.listing[q as int].id,
            ) && s1[q as int].replies == before@.listing[q as int].replies.filter(
                other_than(before@.listing[k].id),
            ),
            parent_index is None ==> (before@.listing[k].parent_id matches Some(p) ==> forall|j: int|
                0 <= j < s1.len() ==> (#[trigger] before@.listing[j]).id != p),
            forall|i: int|
                0 <= i < s1.len() && !(parent_index matches Some(q) && q == i) ==> (#[trigger] s1[i]).replies
                    == before@.listing[i].replies,
        ensures
            replies_linked(self@.listing),
            forall|i: int|
                0 <= i < self@.listing.len() ==> ((#[trigger] self@.listing[i]).parent_id matches Some(
                    p,
                ) ==> p < self@.listing[i].id),
    {
        let s0 = before@.listing;
        let s2 = self@.listing;
        let x = s0[k].id;
        assert(ascending(s1)) by {
            assert forall|a: int, b: int| 0 <= a < b < s1.len() implies (#[trigger] s1[a]).id < (#[trigger] s1[b]).id by {
                assert(s0[a].id < s0[b].id);
            }
        }
        assert forall|r: u64| #[trigger] children(s2, r) == children(s0, r).filter(other_than(x)) by {
            lemma_children_pointwise(s1, s0, r);
            lemma_children_remove(s1, k, r);
        }
        assert forall|i: int| 0 <= i < s2.len() implies (#[trigger] s2[i]).replies == children(s2, s2[i].id) by {
            let i2 = if i < k { i } else { i + 1 };
            assert(s2[i] == s1[i2]);
            let r = s0[i2].id;
            assert(s0[i2].replies == children(s0, r));
            if !(parent_index matches Some(q) && q == i2) {
                assert(!children(s0, r).contains(x)) by {
                    if children(s0, r).contains(x) {
                        lemma_children_member(s0, r, x);
                        let j = choose|j: int| 0 <= j < s0.len() && s0[j].id == x && s0[j].parent_id == Some(r);
                        if j != k {
                            if j < k {
                                assert(s0[j].id < s0[k].id);
                            } else {
                                assert(s0[k].id < s0[j].id);
                            }
                        }
                        if let Some(q) = parent_index {
                            assert(s0[q as int].id == r);
                            if (q as int) < i2 {
                                assert(s0[q as int].id < s0[i2].id);
                            } else {
                                assert(s0[i2].id < s0[q as int].id);
                            }
                        } else {
                            assert(s0[i2].id != r);
                        }
                    }
                }
                lemma_filter_absent(children(s0, r), x);
            }
        }
        assert forall|i: int| 0 <= i < s2.len() implies ((#[trigger] s2[i]).parent_id matches Some(
            p,
        ) ==> p < s2[i].id) by {
            let i2 = if i < k { i } else { i + 1 };
            assert(s2[i] == s1[i2]);
            assert(s1[i2].parent_id == s0[i2].parent_id && s1[i2].id == s0[i2].id);
        }
    }

    /// Position of the message with id `id`, if it is stored.
    fn find_index(&self, id: u64) -> (r: Option<usize>)
        requires
            self.wf(),
        ensures
            r is Some <==> self@.contains(id),
            r matches Some(i) ==> i < self@.listing.len() && self@.listing[i as int].id == id
                && self@.messages()[id] == self@.listing[i as int],
    {
        let mut i: usize = 0;
        while i < self.messages.len()
            invariant
                self.wf(),
                i <= self.messages.len(),
                forall|j: int| 0 <= j < i ==> (#[trigger] self@.listing[j]).id != id,
            decreases self.messages.len() - i,
        {
            assert(self@.listing[i as int] == self.messages@[i as int]@);
            if self.messages[i].id == id {
                proof {
                    lemma_map_of(self@.listing);
                    assert(map_of(self@.listing)[self@.listing[i as int].id] == self@.listing[i as int]);
                }
                return Some(i);
            }
            i = i + 1;
        }
        proof {
            lemma_map_of(self@.listing);
            if self@.contains(id) {
                let k = choose|k: int| 0 <= k < self@.listing.len() && self@.listing[k].id == id;
                assert(self@.listing[k].id != id);
            }
        }
        None
    }

    /// A copy of the message with id `id`.
    pub fn get_message(&self, id: u64) -> (r: Result<Message, MessageError>)
        requires
            self.wf(),
        ensures
            r is Ok <==> self@.contains(id),
            r matches Ok(m) ==> m@ == self@.messages()[id],
            r matches Err(e) ==> e == MessageError::NotFound,
    {
        match self.find_index(id) {
            Some(i) => Ok(self.messages[i].duplicate()),
            None => Err(MessageError::NotFound),
        }
    }

    /// Adds one like to the message with id `id`; anyone may like any message,
    /// any number of times.
    pub fn like_message(&mut self, id: u64) -> (r: Result<(), MessageError>)
        requires
            old(self).wf(),
            old(self)@.contains(id) ==> old(self)@.messages()[id].likes < u32::MAX,
        ensures
            final(self).wf(),
            r is Ok <==> old(self)@.contains(id),
            r is Ok ==> liked_in(old(self)@, id, final(self)@),
            r is Err ==> r == Err::<(), MessageError>(MessageError::NotFound) && final(self)@
                == old(self)@,
            final(self)@.next_id == old(self)@.next_id,
    {
        match self.find_index(id) {
            Some(i) => {
                let ghost s0 = self@.listing;
                let ghost a0 = self@;
                self.messages[i].likes = self.messages[i].likes + 1;
                proof {
                    let x = liked(s0[i as int]);
                    assert(self@.listing =~= s0.update(i as int, x));
                    lemma_map_of_update(s0, i as int, x);
                    self.lemma_changed_in_place(*old(self), i as int);
                }
                Ok(())
            },
            None => Err(MessageError::NotFound),
        }
    }
}

} // verus!
