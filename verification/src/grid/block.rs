use vstd::prelude::*;

verus! {

/// What occupies a cell of the playfield.
#[derive(Clone, Copy, Debug, Eq, PartialEq, Hash, Structural)]
pub enum BlockState {
    // Not set
    NotSet,
    // Might belong to a figure in flight
    InFlight,
    // All blocks that are not currently in flight
    Locked,
}

#[derive(Clone, Copy, Debug, Eq, PartialEq, Hash, Structural)]
pub struct Block {
    pub id: u8,
    pub state: BlockState,
}

impl Block {
    /// Whether the block occupies its cell.
    pub open spec fn occupied(self) -> bool {
        self.state != BlockState::NotSet
    }

    pub fn new_in_flight(block_id: u8) -> (b: Block)
        ensures
            b == (Block { id: block_id, state: BlockState::InFlight }),
    {
        Block { id: block_id, state: BlockState::InFlight }
    }

    pub fn new_locked(block_id: u8) -> (b: Block)
        ensures
            b == (Block { id: block_id, state: BlockState::Locked }),
    {
        Block { id: block_id, state: BlockState::Locked }
    }

    pub fn new_not_set() -> (b: Block)
        ensures
            b == (Block { id: 0, state: BlockState::NotSet }),
    {
        Block { id: 0, state: BlockState::NotSet }
    }

    pub fn is_set(&self) -> (r: bool)
        ensures
            r == self.occupied(),
    {
        match self.state {
            BlockState::NotSet => false,
            _ => true,
        }
    }
}

} // verus!
