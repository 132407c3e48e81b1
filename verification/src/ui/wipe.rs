//! The wipe that uncovers a deck block by block.
use vstd::prelude::*;
use crate::float::order::{lemma_below_one, lemma_naturals_over, lemma_order_single};
use crate::float::single::F32;

verus! {

/// A wipe, from 0 to 1.
#[derive(Clone, Copy, Debug)]
pub struct WipeOverlay {
    pub progress: F32,
}

/// A square that is still covered: its corner and its size.
#[derive(Clone, Copy, Debug, PartialEq, Eq, Structural)]
pub struct Block {
    pub x: F32,
    pub y: F32,
    pub size: F32,
}

/// Mixes the bits of a number.
#[verifier::allow_in_spec]
pub fn scramble(x: u32) -> u32
    returns
        (x ^ (x >> 16)).wrapping_mul(0x45d9f3b),
{
    (x ^ (x >> 16)).wrapping_mul(0x45d9f3b)
}

/// The largest number below one.
#[verifier::allow_in_spec]
pub fn below_one() -> F32
    returns
        F32::from_bits(0x3f7f_ffff),
{
    F32::from_bits(0x3f7f_ffff)
}

/// A number from 0 up to and without 1 that looks random.
#[verifier::allow_in_spec]
pub fn hash_f01(x: u32) -> F32
    returns
        ({
            let h = scramble(scramble(x));
            F32::nearest_to((h ^ (h >> 16)) as int).over(F32::nearest_to(u32::MAX as int)).min(
                below_one(),
            )
        }),
{
    let h: u32 = scramble(scramble(x));
    F32::of_u64((h ^ (h >> 16)) as u64).over(F32::of_u64(u32::MAX as u64)).min(below_one())
}

/// How far the edge of the wipe has come, as a share of the width, given the
/// cube of what is left.
#[verifier::allow_in_spec]
pub fn edge_share(left_cubed: F32) -> F32
    returns
        ({
            let spread = F32::ratio(1, 2);
            let eased = F32::nearest_to(1).minus(left_cubed);
            spread.opposite().minus(F32::ratio(1, 100)).plus(
                eased.times(
                    F32::nearest_to(1).plus(spread.times(F32::nearest_to(2))).plus(
                        F32::ratio(2, 100),
                    ),
                ),
            )
        }),
{
    let spread: F32 = F32::ratio(1, 2);
    let eased: F32 = F32::whole(1).minus(left_cubed);
    spread.opposite().minus(F32::ratio(1, 100)).plus(
        eased.times(
            F32::whole(1).plus(spread.times(F32::whole(2))).plus(F32::ratio(2, 100)),
        ),
    )
}

/// The seed of a block.
#[verifier::allow_in_spec]
pub fn block_seed(band: u32, row: u32, col: u32) -> u32
    returns
        band.wrapping_mul(15485863).wrapping_add(row.wrapping_mul(7919)).wrapping_add(
            col.wrapping_mul(104729),
        ),
{
    band.wrapping_mul(15485863).wrapping_add(row.wrapping_mul(7919)).wrapping_add(
        col.wrapping_mul(104729),
    )
}

/// Into how many parts a block is divided in a band: finer to the left.
#[verifier::allow_in_spec]
pub fn fineness(band: u32) -> u32
    returns
        (if band == 0 {
            32u32
        } else if band == 1 {
            16
        } else if band == 2 {
            8
        } else if band == 3 {
            4
        } else if band == 4 {
            2
        } else {
            1
        }),
{
    if band == 0 {
        32
    } else if band == 1 {
        16
    } else if band == 2 {
        8
    } else if band == 3 {
        4
    } else if band == 4 {
        2
    } else {
        1
    }
}

impl WipeOverlay {
    /// What is left of the wipe: the number whose cube the edge depends on.
    #[verifier::allow_in_spec]
    pub fn left(self) -> F32
        returns
            F32::nearest_to(1).minus(self.progress),
    {
        F32::whole(1).minus(self.progress)
    }
}

/// A band of the wipe in a box: where it begins and ends, and its blocks.
#[derive(Clone, Copy, Debug)]
pub struct Band {
    pub number: u32,
    pub left: F32,
    pub right: F32,
    pub block: F32,
    pub width: F32,
    pub height: F32,
    /// How far the edge has come, as a share of the width.
    pub edge: F32,
}

/// The left end of the part that is covered entirely.
#[verifier::allow_in_spec]
pub fn solid_left(edge: F32, width: F32) -> F32
    returns
        edge.times(width).plus(F32::ratio(1, 2).times(width)),
{
    edge.times(width).plus(F32::ratio(1, 2).times(width))
}

/// Band `number` of the wipe.
#[verifier::allow_in_spec]
pub fn band_at(number: u32, edge: F32, width: F32, height: F32) -> Band
    returns
        ({
            let radius = F32::ratio(1, 2).times(width);
            let step = radius.times(F32::nearest_to(2)).over(F32::nearest_to(4));
            let left = edge.times(width).minus(radius).plus(
                F32::nearest_to(number as int).times(step),
            );
            Band {
                number,
                left,
                right: left.plus(step),
                block: width.over(F32::nearest_to(10)).over(
                    F32::nearest_to(fineness(number) as int),
                ),
                width,
                height,
                edge,
            }
        }),
{
    let radius: F32 = F32::ratio(1, 2).times(width);
    let step: F32 = radius.times(F32::whole(2)).over(F32::whole(4));
    let left: F32 = edge.times(width).minus(radius).plus(F32::of_u64(number as u64).times(step));
    Band {
        number,
        left,
        right: left.plus(step),
        block: width.over(F32::whole(10)).over(F32::of_u64(fineness(number) as u64)),
        width,
        height,
        edge,
    }
}

impl Band {
    /// The first column of blocks.
    pub open spec fn first_col(self) -> int {
        self.left.over(self.block).floor().integer_part(0, u32::MAX as int)
    }

    /// The column behind the last.
    pub open spec fn end_col(self) -> int {
        self.right.over(self.block).ceil().integer_part(0, u32::MAX as int)
    }

    /// The row behind the last.
    pub open spec fn end_row(self) -> int {
        self.height.over(self.block).ceil().integer_part(0, u32::MAX as int)
    }

    /// Whether a block lies in the band and in the box, and is still covered.
    pub open spec fn covered(self, row: u32, col: u32) -> bool {
        let x = F32::nearest_to(col as int).times(self.block);
        let y = F32::nearest_to(row as int).times(self.block);
        let threshold = x.over(self.width).plus(
            hash_f01(block_seed(self.number, row, col)).minus(F32::ratio(1, 2)).times(
                F32::ratio(1, 2),
            ).times(F32::nearest_to(2)),
        );
        &&& !x.lt(self.left)
        &&& !x.ge(self.right)
        &&& !x.ge(self.width)
        &&& !y.ge(self.height)
        &&& self.edge.lt(threshold)
    }

    /// The block in a row and a column; it overlaps its neighbours by a pixel.
    pub open spec fn block_at(self, row: u32, col: u32) -> Block {
        Block {
            x: F32::nearest_to(col as int).times(self.block),
            y: F32::nearest_to(row as int).times(self.block),
            size: self.block.plus(F32::nearest_to(1)),
        }
    }

    /// The covered blocks of a row before column `end`.
    pub open spec fn row_blocks(self, row: u32, end: int) -> Seq<Block>
        decreases end - self.first_col(),
    {
        if end <= self.first_col() {
            seq![]
        } else if self.covered(row, (end - 1) as u32) {
            self.row_blocks(row, end - 1).push(self.block_at(row, (end - 1) as u32))
        } else {
            self.row_blocks(row, end - 1)
        }
    }

    /// The covered blocks of the first `n` rows.
    pub open spec fn blocks_before(self, n: int) -> Seq<Block>
        decreases n,
    {
        if n <= 0 {
            seq![]
        } else {
            self.blocks_before(n - 1) + self.row_blocks((n - 1) as u32, self.end_col())
        }
    }

    fn is_covered(&self, row: u32, col: u32) -> (r: bool)
        ensures
            r == self.covered(row, col),
    {
        let x: F32 = F32::of_u64(col as u64).times(self.block);
        let y: F32 = F32::of_u64(row as u64).times(self.block);
        if x.lt(self.left) || x.ge(self.right) || x.ge(self.width) || y.ge(self.height) {
            return false;
        }
        let rand: F32 = hash_f01(block_seed(self.number, row, col));
        let threshold: F32 = x.over(self.width).plus(
            rand.minus(F32::ratio(1, 2)).times(F32::ratio(1, 2)).times(F32::whole(2)),
        );
        self.edge.lt(threshold)
    }

    /// The covered blocks of the band, row by row.
    pub fn draw(&self) -> (r: Vec<Block>)
        ensures
            r@ == self.blocks_before(self.end_row()),
    {
        let first: u32 = self.left.over(self.block).floor().to_u32();
        let end: u32 = self.right.over(self.block).ceil().to_u32();
        let rows: u32 = self.height.over(self.block).ceil().to_u32();
        let mut out: Vec<Block> = Vec::new();
        let mut row: u32 = 0;
        while row < rows
            invariant
                row <= rows,
                first == self.first_col(),
                end == self.end_col(),
                out@ == self.blocks_before(row as int),
            decreases rows - row,
        {
            let ghost before = out@;
            let mut col: u32 = first;
            assert(out@ =~= before + self.row_blocks(row, col as int));
            while col < end
                invariant
                    first <= col,
                    col <= end || col == first,
                    first == self.first_col(),
                    out@ == before + self.row_blocks(row, col as int),
                decreases end - col,
            {
                if self.is_covered(row, col) {
                    out.push(
                        Block {
                            x: F32::of_u64(col as u64).times(self.block),
                            y: F32::of_u64(row as u64).times(self.block),
                            size: self.block.plus(F32::whole(1)),
                        },
                    );
                }
                assert(out@ =~= before + self.row_blocks(row, col + 1));
                col = col + 1;
            }
            assert(self.row_blocks(row, col as int) == self.row_blocks(row, end as int));
            row = row + 1;
        }
        out
    }
}

/// The bands of a wipe.
pub const BAND_COUNT: u32 = 6;

/// What a wipe covers: everything from a place to the right edge, if that much
/// is left, and single blocks.
#[derive(Debug)]
pub struct WipeShape {
    /// Where the covered part begins, and how wide it is.
    pub solid: Option<(F32, F32)>,
    pub blocks: Vec<Block>,
}

/// The covered blocks of the first `n` bands.
pub open spec fn blocks_of_bands(edge: F32, width: F32, height: F32, n: int) -> Seq<Block>
    decreases n,
{
    if n <= 0 {
        seq![]
    } else {
        let band = band_at((n - 1) as u32, edge, width, height);
        blocks_of_bands(edge, width, height, n - 1) + band.blocks_before(band.end_row())
    }
}

impl WipeOverlay {
    /// What the wipe covers of a box, given the cube of what is left of it.
    pub fn draw(self, left_cubed: F32, width: F32, height: F32) -> (r: WipeShape)
        ensures
            ({
                let edge = edge_share(left_cubed);
                let start = solid_left(edge, width);
                &&& r.solid == if start.lt(width) {
                    Some((start, width.minus(start)))
                } else {
                    None
                }
                &&& r.blocks@ == blocks_of_bands(edge, width, height, BAND_COUNT as int)
            }),
    {
        let edge: F32 = edge_share(left_cubed);
        let start: F32 = solid_left(edge, width);
        let solid: Option<(F32, F32)> = if start.lt(width) {
            Some((start, width.minus(start)))
        } else {
            None
        };
        let mut blocks: Vec<Block> = Vec::new();
        let mut n: u32 = 0;
        while n < BAND_COUNT
            invariant
                n <= BAND_COUNT,
                blocks@ == blocks_of_bands(edge, width, height, n as int),
            decreases BAND_COUNT - n,
        {
            let band: Band = band_at(n, edge, width, height);
            let mut more: Vec<Block> = band.draw();
            blocks.append(&mut more);
            n = n + 1;
        }
        WipeShape { solid, blocks }
    }
}

/// The hash of a seed lies from 0 up to and without 1.
pub proof fn lemma_hash_in_range(x: u32)
    ensures
        hash_f01(x).ge(F32::zero()),
        hash_f01(x).lt(F32::nearest_to(1)),
{
    let h = scramble(scramble(x));
    let top = below_one();
    let q = F32::nearest_to((h ^ (h >> 16)) as int).over(F32::nearest_to(u32::MAX as int));
    lemma_below_one();
    lemma_naturals_over((h ^ (h >> 16)) as int, u32::MAX as int);
    lemma_order_single(q, top, F32::nearest_to(1));
    lemma_order_single(F32::zero(), q, top);
}

} // verus!
