use vstd::prelude::*;

verus! {

/// One step a figure can take in the playfield.
#[derive(PartialEq, Eq, Clone, Copy, Debug, Structural)]
pub enum Movement {
    MoveLeft,
    MoveRight,
    MoveDown,
    MoveUp,
    RotateCW,
    RotateCCW,
}

} // verus!
