use vstd::prelude::*;

verus! {

/// Opaque identity of a caller, compared by its bytes.
#[derive(Debug)]
pub struct Principal {
    pub bytes: Vec<u8>,
}

impl View for Principal {
    type V = Seq<u8>;

    open spec fn view(&self) -> Seq<u8> {
        self.bytes@
    }
}

impl Principal {
    pub fn new(bytes: Vec<u8>) -> (r: Principal)
        ensures
            r@ == bytes@,
    {
        Principal { bytes }
    }

    /// A copy of this identity.
    pub fn duplicate(&self) -> (r: Principal)
        ensures
            r@ == self@,
    {
        Principal { bytes: self.bytes.clone() }
    }

    /// Whether two identities are the same.
    pub fn same_as(&self, other: &Principal) -> (r: bool)
        ensures
            r == (self@ == other@),
    {
        if self.bytes.len() != other.bytes.len() {
            return false;
        }
        let mut i: usize = 0;
        while i < self.bytes.len()
            invariant
                self.bytes.len() == other.bytes.len(),
                i <= self.bytes.len(),
                forall|j: int| 0 <= j < i ==> self.bytes@[j] == other.bytes@[j],
            decreases self.bytes.len() - i,
        {
            if self.bytes[i] != other.bytes[i] {
                return false;
            }
            i = i + 1;
        }
        assert(self.bytes@ =~= other.bytes@);
        true
    }
}

/// A stored message.
#[derive(Debug)]
pub struct Message {
    pub id: u64,
    pub author: Principal,
    pub content: String,
    pub created_at: u64,
    pub updated_at: Option<u64>,
    pub likes: u32,
    pub replies: Vec<u64>,
    pub parent_id: Option<u64>,
}

/// What a message holds, as plain values.
pub struct MessageView {
    pub id: u64,
    pub author: Seq<u8>,
    pub content: Seq<char>,
    pub created_at: u64,
    pub updated_at: Option<u64>,
    pub likes: u32,
    pub replies: Seq<u64>,
    pub parent_id: Option<u64>,
}

impl View for Message {
    type V = MessageView;

    open spec fn view(&self) -> MessageView {
        MessageView {
            id: self.id,
            author: self.author@,
            content: self.content@,
            created_at: self.created_at,
            updated_at: self.updated_at,
            likes: self.likes,
            replies: self.replies@,
            parent_id: self.parent_id,
        }
    }
}

impl Message {
    /// A copy of this message.
    pub fn duplicate(&self) -> (r: Message)
        ensures
            r@ == self@,
    {
        Message {
            id: self.id,
            author: self.author.duplicate(),
            content: self.content.clone(),
            created_at: self.created_at,
            updated_at: self.updated_at,
            likes: self.likes,
            replies: self.replies.clone(),
            parent_id: self.parent_id,
        }
    }
}

/// Why an operation on the store failed.
#[derive(Debug, Clone, Copy, PartialEq, Eq, Structural)]
pub enum MessageError {
    /// Malformed input: blank content, or a page size or page number of zero.
    Validation,
    /// The referenced message does not exist.
    NotFound,
    /// The caller is not the author of the message.
    Authorization,
}

/// The views of a sequence of messages.
pub open spec fn views(ms: Seq<Message>) -> Seq<MessageView> {
    ms.map_values(|m: Message| m@)
}

} // verus!
