use vstd::prelude::*;

verus! {

/// A cell of the playfield: filled with a block id, or clear.
#[derive(Clone, Copy, Debug, Eq, PartialEq, Structural)]
pub enum Block {
    Filled(u8),
    Clear,
}

impl Block {
    pub fn is_set(&self) -> (r: bool)
        ensures
            r == (*self is Filled),
    {
        match self {
            Block::Filled(_) => true,
            _ => false,
        }
    }
}

} // verus!
