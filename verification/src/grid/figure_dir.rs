use vstd::prelude::*;

use crate::grid::block::{Block, BlockState};

verus! {

/// The block a block id stands for: id 0 is no block, any other id a
/// block of a figure in flight.
pub open spec fn block_of_id(id: u8) -> Block {
    if id == 0 {
        Block { id: 0, state: BlockState::NotSet }
    } else {
        Block { id: id, state: BlockState::InFlight }
    }
}

fn new_block(id: u8) -> (b: Block)
    ensures
        b == block_of_id(id),
{
    if id == 0 {
        Block::new_not_set()
    } else {
        Block::new_in_flight(id)
    }
}

/// One direction of a figure as rows of blocks.
#[derive(Hash, Eq, PartialEq, Clone, Debug)]
pub struct FigureDir {
    pub width: usize,
    pub height: usize,
    pub blocks: Vec<Vec<Block>>,
}

impl FigureDir {
    /// Builds a direction from rows of block ids; the first row gives the width.
    pub fn new(dir_block_ids: Vec<Vec<u8>>) -> (d: FigureDir)
        requires
            dir_block_ids@.len() >= 1,
            forall|r: int|
                0 <= r < dir_block_ids@.len() ==> #[trigger] dir_block_ids@[r]@.len()
                    >= dir_block_ids@[0]@.len(),
        ensures
            d.height == dir_block_ids@.len(),
            d.width == dir_block_ids@[0]@.len(),
            d.blocks@.len() == d.height,
            forall|r: int|
                0 <= r < d.height ==> (#[trigger] d.blocks@[r])@.len() == d.width && forall|c: int|
                    0 <= c < d.width ==> d.blocks@[r]@[c] == block_of_id(dir_block_ids@[r]@[c]),
    {
        let h = dir_block_ids.len();
        let w = dir_block_ids[0].len();
        let mut v: Vec<Vec<Block>> = Vec::new();
        let mut row: usize = 0;
        while row < h
            invariant
                h == dir_block_ids@.len(),
                w == dir_block_ids@[0]@.len(),
                forall|r: int|
                    0 <= r < dir_block_ids@.len() ==> #[trigger] dir_block_ids@[r]@.len() >= w,
                0 <= row <= h,
                v@.len() == row,
                forall|r: int|
                    0 <= r < row ==> (#[trigger] v@[r])@.len() == w && forall|c: int|
                        0 <= c < w ==> v@[r]@[c] == block_of_id(dir_block_ids@[r]@[c]),
            decreases h - row,
        {
            let mut line: Vec<Block> = Vec::new();
            let mut col: usize = 0;
            while col < w
                invariant
                    h == dir_block_ids@.len(),
                    w == dir_block_ids@[0]@.len(),
                    0 <= row < h,
                    dir_block_ids@[row as int]@.len() >= w,
                    0 <= col <= w,
                    line@.len() == col,
                    forall|c: int|
                        0 <= c < col ==> #[trigger] line@[c] == block_of_id(dir_block_ids@[row as int]@[c]),
                decreases w - col,
            {
                line.push(new_block(dir_block_ids[row][col]));
                col = col + 1;
            }
            v.push(line);
            row = row + 1;
        }
        FigureDir { height: h, width: w, blocks: v }
    }

    /// A direction of the given size holding no blocks.
    pub fn new_empty(blocks_width: &usize, blocks_height: &usize) -> (d: FigureDir)
        ensures
            d.width == *blocks_width,
            d.height == *blocks_height,
            d.blocks@.len() == d.height,
            forall|r: int|
                0 <= r < d.height ==> (#[trigger] d.blocks@[r])@.len() == d.width && forall|c: int|
                    0 <= c < d.width ==> d.blocks@[r]@[c] == block_of_id(0),
    {
        let w = *blocks_width;
        let h = *blocks_height;
        let mut v: Vec<Vec<Block>> = Vec::new();
        let mut row: usize = 0;
        while row < h
            invariant
                0 <= row <= h,
                v@.len() == row,
                forall|r: int|
                    0 <= r < row ==> (#[trigger] v@[r])@.len() == w && forall|c: int|
                        0 <= c < w ==> v@[r]@[c] == block_of_id(0),
            decreases h - row,
        {
            let mut line: Vec<Block> = Vec::new();
            let mut col: usize = 0;
            while col < w
                invariant
                    0 <= col <= w,
                    line@.len() == col,
                    forall|c: int| 0 <= c < col ==> #[trigger] line@[c] == block_of_id(0),
                decreases w - col,
            {
                line.push(new_block(0));
                col = col + 1;
            }
            v.push(line);
            row = row + 1;
        }
        FigureDir { width: w, height: h, blocks: v }
    }

    pub fn get_width(&self) -> (r: usize)
        ensures
            r == self.width,
    {
        self.width
    }

    pub fn get_height(&self) -> (r: usize)
        ensures
            r == self.height,
    {
        self.height
    }

    pub fn get_block_id(&self, x: usize, y: usize) -> (r: u8)
        requires
            y < self.blocks@.len(),
            x < self.blocks@[y as int]@.len(),
        ensures
            r == self.blocks@[y as int]@[x as int].id,
    {
        self.blocks[y][x].id
    }

    pub fn get_block(&self, x: usize, y: usize) -> (r: Block)
        requires
            y < self.blocks@.len(),
            x < self.blocks@[y as int]@.len(),
        ensures
            r == self.blocks@[y as int]@[x as int],
    {
        self.blocks[y][x]
    }
}

} // verus!
