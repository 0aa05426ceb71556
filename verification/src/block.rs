use vstd::prelude::*;

verus! {

/// A replica identifier; each client editing the document owns one.
pub type ClientID = u32;

/// Identity of a block: the owning client, and the index (`clock`) of the
/// block's first character in that client's append-log. The pair is globally
/// unique and never reused.
#[derive(Clone, Copy, PartialEq, Eq, Structural, Hash, Debug)]
pub struct BlockID {
    pub client: ClientID,
    pub clock: u32,
}

impl BlockID {
    /// The total order on block ids: primary key `client`, secondary key
    /// `clock`. It breaks ties between concurrent inserts at the same anchors.
    pub open spec fn spec_lt(self, other: BlockID) -> bool {
        if self.client == other.client {
            self.clock < other.clock
        } else {
            self.client < other.client
        }
    }

    pub fn new(client: ClientID, clock: u32) -> (r: BlockID)
        ensures
            r == (BlockID { client, clock }),
    {
        BlockID { client, clock }
    }

    pub fn lt(&self, other: &BlockID) -> (r: bool)
        ensures
            r == self.spec_lt(*other),
    {
        if self.client == other.client {
            self.clock < other.clock
        } else {
            self.client < other.client
        }
    }
}

/// Compares two optional block ids for equality.
pub fn opt_id_eq(a: &Option<BlockID>, b: &Option<BlockID>) -> (r: bool)
    ensures
        r == (a == b),
{
    match (a, b) {
        (Some(x), Some(y)) => *x == *y,
        (None, None) => true,
        _ => false,
    }
}

/// The text a block carries.
#[derive(Clone, Debug)]
pub struct Content {
    pub content: String,
}

/// The unit of the document: an identity, the ids of the two neighbours at
/// creation time (`None` stands for the document boundary), a tombstone flag,
/// and the text.
#[derive(Clone, Debug)]
pub struct Block {
    pub id: BlockID,
    pub left_origin: Option<BlockID>,
    pub right_origin: Option<BlockID>,
    pub is_deleted: bool,
    pub content: Content,
}

impl Block {
    /// The character length of the block's content.
    pub open spec fn len(self) -> nat {
        self.content.content@.len()
    }

    pub fn new(
        id: BlockID,
        left_origin: Option<BlockID>,
        right_origin: Option<BlockID>,
        content: Content,
    ) -> (r: Block)
        ensures
            r == (Block { id, left_origin, right_origin, is_deleted: false, content }),
    {
        Block { id, left_origin, right_origin, is_deleted: false, content }
    }

    /// An empty placeholder block.
    pub fn init() -> (r: Block)
        ensures
            r.id == (BlockID { client: 0, clock: 0 }),
            r.left_origin is None,
            r.right_origin is None,
            !r.is_deleted,
            r.len() == 0,
    {
        Block {
            id: BlockID { client: 0, clock: 0 },
            left_origin: None,
            right_origin: None,
            is_deleted: false,
            content: Content { content: String::new() },
        }
    }

    /// An exact copy of the block.
    pub fn duplicate(&self) -> (r: Block)
        ensures
            r == *self,
    {
        Block {
            id: self.id,
            left_origin: self.left_origin,
            right_origin: self.right_origin,
            is_deleted: self.is_deleted,
            content: Content { content: self.content.content.clone() },
        }
    }

    /// Marks the block as a tombstone. Deletion never removes a block, so
    /// blocks anchored to it can still be integrated.
    pub fn delete(&mut self)
        ensures
            *final(self) == (Block { is_deleted: true, ..*old(self) }),
    {
        self.is_deleted = true;
    }
}

} // verus!
