//! Splitting a sample plane into 8×8 macroblocks and joining it back.

use vstd::arithmetic::div_mod::{
    lemma_fundamental_div_mod, lemma_fundamental_div_mod_converse, lemma_mod_pos_bound,
};
use vstd::arithmetic::mul::lemma_mul_is_commutative;
use vstd::prelude::*;

verus! {

/// An 8×8 grid of samples, indexed `[row][column]`.
pub type MacroBlock = [[u8; 8]; 8];

/// Number of 8-sample blocks needed to cover `n` samples: `ceil(n / 8)`.
pub open spec fn blocks_across(n: int) -> int {
    (n + 7) / 8
}

/// The sample at row `y`, column `x` of a `height`×`width` plane, or 0 outside it.
pub open spec fn padded_sample(plane: Seq<u8>, height: int, width: int, y: int, x: int) -> u8 {
    if 0 <= y < height && 0 <= x < width {
        plane[y * width + x]
    } else {
        0
    }
}

/// Sample `[r][c]` of block `k` of a block sequence.
pub open spec fn cell(blocks: Seq<MacroBlock>, k: int, r: int, c: int) -> u8 {
    blocks[k][r][c]
}

/// `blocks` is the row-major macroblock partition of the plane, zero-padded
/// past its bottom and right edges.
pub open spec fn is_partition_of(blocks: Seq<MacroBlock>, plane: Seq<u8>, height: int, width: int) -> bool {
    let across = blocks_across(width);
    &&& blocks.len() == blocks_across(height) * across
    &&& forall|k: int, r: int, c: int|
        0 <= k < blocks.len() && 0 <= r < 8 && 0 <= c < 8 ==> #[trigger] cell(blocks, k, r, c)
            == padded_sample(plane, height, width, (k / across) * 8 + r, (k % across) * 8 + c)
}

/// The sample of the plane at row `y`, column `x`, as held by the block partition.
pub open spec fn sample_in_blocks(blocks: Seq<MacroBlock>, width: int, y: int, x: int) -> u8 {
    cell(blocks, (y / 8) * blocks_across(width) + x / 8, y % 8, x % 8)
}

/// The `height`×`width` plane read back from a row-major block sequence,
/// dropping the padding.
pub open spec fn joined(blocks: Seq<MacroBlock>, height: int, width: int) -> Seq<u8> {
    Seq::new((height * width) as nat, |i: int| sample_in_blocks(blocks, width, i / width, i % width))
}

/// `ceil(n / 8)`, without overflow.
fn block_count(n: usize) -> (r: usize)
    ensures
        r == blocks_across(n as int),
{
    if n % 8 == 0 {
        n / 8
    } else {
        n / 8 + 1
    }
}

pub(crate) proof fn lemma_row_major_index(y: int, x: int, height: int, width: int)
    requires
        0 <= y < height,
        0 <= x < width,
    ensures
        0 <= y * width + x < height * width,
        (y * width + x) / width == y,
        (y * width + x) % width == x,
{
    assert(0 <= y * width + x < height * width) by (nonlinear_arith)
        requires
            0 <= y < height,
            0 <= x < width,
    ;
    lemma_fundamental_div_mod_converse(y * width + x, width, y, x);
}

/// Copies the block at block row `by`, block column `bx` out of the plane.
fn extract_block(values: &[u8], height: usize, width: usize, by: usize, bx: usize) -> (block: MacroBlock)
    requires
        values@.len() == height * width,
        height * width <= usize::MAX,
        by < blocks_across(height as int),
        bx < blocks_across(width as int),
    ensures
        forall|r: int, c: int|
            0 <= r < 8 && 0 <= c < 8 ==> block[r][c] == padded_sample(
                values@,
                height as int,
                width as int,
                by * 8 + r,
                bx * 8 + c,
            ),
{
    let start_y = by * 8;
    let start_x = bx * 8;
    let mut block: MacroBlock = [[0u8; 8]; 8];
    let mut r: usize = 0;
    while r < 8
        invariant
            r <= 8,
            start_y == by * 8,
            start_x == bx * 8,
            start_y < height,
            start_x < width,
            values@.len() == height * width,
            height * width <= usize::MAX,
            forall|r2: int, c: int|
                0 <= r2 < r && 0 <= c < 8 ==> block[r2][c] == padded_sample(
                    values@,
                    height as int,
                    width as int,
                    start_y + r2,
                    start_x + c,
                ),
        decreases 8 - r,
    {
        let mut row = [0u8; 8];
        let mut c: usize = 0;
        while c < 8
            invariant
                r < 8,
                c <= 8,
                start_y == by * 8,
                start_x == bx * 8,
                start_y < height,
                start_x < width,
                values@.len() == height * width,
                height * width <= usize::MAX,
                forall|c2: int|
                    0 <= c2 < c ==> row[c2] == padded_sample(
                        values@,
                        height as int,
                        width as int,
                        start_y + r,
                        start_x + c2,
                    ),
            decreases 8 - c,
        {
            if r < height - start_y && c < width - start_x {
                let y = start_y + r;
                let x = start_x + c;
                proof {
                    lemma_row_major_index(y as int, x as int, height as int, width as int);
                }
                row[c] = values[y * width + x];
            } else {
                row[c] = 0;
            }
            c += 1;
        }
        block[r] = row;
        r += 1;
    }
    block
}

/// Splits a `height`×`width` plane into 8×8 macroblocks in row-major block
/// order, zero-filling the samples of edge blocks that lie outside the plane.
pub fn divide(values: &[u8], height: usize, width: usize) -> (blocks: Vec<MacroBlock>)
    requires
        values@.len() == height * width,
    ensures
        is_partition_of(blocks@, values@, height as int, width as int),
{
    let total = values.len();
    assert(height * width == total);
    let count_y = block_count(height);
    let count_x = block_count(width);
    let mut blocks: Vec<MacroBlock> = Vec::new();
    let mut j: usize = 0;
    while j < count_y
        invariant
            j <= count_y,
            count_y == blocks_across(height as int),
            count_x == blocks_across(width as int),
            values@.len() == height * width,
            height * width <= usize::MAX,
            blocks.len() == j * count_x,
            forall|k: int, r: int, c: int|
                0 <= k < blocks.len() && 0 <= r < 8 && 0 <= c < 8 ==> #[trigger] cell(blocks@, k, r, c)
                    == padded_sample(
                    values@,
                    height as int,
                    width as int,
                    (k / count_x as int) * 8 + r,
                    (k % count_x as int) * 8 + c,
                ),
        decreases count_y - j,
    {
        let mut i: usize = 0;
        while i < count_x
            invariant
                j < count_y,
                i <= count_x,
                count_y == blocks_across(height as int),
                count_x == blocks_across(width as int),
                values@.len() == height * width,
                height * width <= usize::MAX,
                blocks.len() == j * count_x + i,
                forall|k: int, r: int, c: int|
                    0 <= k < blocks.len() && 0 <= r < 8 && 0 <= c < 8 ==> #[trigger] cell(blocks@, k, r, c)
                        == padded_sample(
                        values@,
                        height as int,
                        width as int,
                        (k / count_x as int) * 8 + r,
                        (k % count_x as int) * 8 + c,
                    ),
            decreases count_x - i,
        {
            let block = extract_block(values, height, width, j, i);
            proof {
                lemma_fundamental_div_mod_converse(blocks.len() as int, count_x as int, j as int, i as int);
            }
            let ghost before = blocks@;
            blocks.push(block);
            proof {
                assert forall|k: int, r: int, c: int|
                    0 <= k < blocks.len() && 0 <= r < 8 && 0 <= c < 8 implies #[trigger] cell(blocks@, k, r, c)
                        == padded_sample(
                        values@,
                        height as int,
                        width as int,
                        (k / count_x as int) * 8 + r,
                        (k % count_x as int) * 8 + c,
                    ) by {
                    if k < before.len() {
                        assert(cell(blocks@, k, r, c) == cell(before, k, r, c));
                    }
                }
            }
            i += 1;
        }
        proof {
            assert((j + 1) * count_x == j * count_x + count_x) by (nonlinear_arith);
        }
        j += 1;
    }
    blocks
}

/// Joins a row-major macroblock sequence back into a `height`×`width` plane,
/// dropping the samples that lie past the plane's bottom and right edges.
pub fn concatenate(blocks: Vec<MacroBlock>, height: usize, width: usize) -> (values: Vec<u8>)
    requires
        blocks@.len() == blocks_across(height as int) * blocks_across(width as int),
        height * width <= usize::MAX,
    ensures
        values@ == joined(blocks@, height as int, width as int),
{
    let count_x = block_count(width);
    let ghost count_y = blocks_across(height as int);
    let count = blocks.len();
    let mut values: Vec<u8> = Vec::new();
    let mut y: usize = 0;
    while y < height
        invariant
            y <= height,
            count_x == blocks_across(width as int),
            blocks@.len() == count_y * count_x,
            count == blocks@.len(),
            count_y == blocks_across(height as int),
            height * width <= usize::MAX,
            values@.len() == y * width,
            forall|i: int| 0 <= i < values@.len() ==> values@[i] == sample_in_blocks(
                blocks@,
                width as int,
                i / width as int,
                i % width as int,
            ),
        decreases height - y,
    {
        let mut x: usize = 0;
        while x < width
            invariant
                y < height,
                x <= width,
                count_x == blocks_across(width as int),
                blocks@.len() == count_y * count_x,
            count == blocks@.len(),
                count_y == blocks_across(height as int),
                height * width <= usize::MAX,
                values@.len() == y * width + x,
                forall|i: int| 0 <= i < values@.len() ==> values@[i] == sample_in_blocks(
                    blocks@,
                    width as int,
                    i / width as int,
                    i % width as int,
                ),
            decreases width - x,
        {
            let by = y / 8;
            let bx = x / 8;
            proof {
                lemma_row_major_index(y as int, x as int, height as int, width as int);
                assert(by < count_y && bx < count_x);
                assert(by * count_x + bx < count_y * count_x) by (nonlinear_arith)
                    requires
                        by < count_y,
                        bx < count_x,
                ;
            }
            let block = blocks[by * count_x + bx];
            values.push(block[y % 8][x % 8]);
            x += 1;
        }
        proof {
            assert((y + 1) * width == y * width + width) by (nonlinear_arith);
        }
        y += 1;
    }
    proof {
        assert(values@ =~= joined(blocks@, height as int, width as int));
    }
    values
}

/// Joining the partition of a plane gives back the plane, for every height
/// and width, multiples of 8 or not.
pub proof fn lemma_partition_round_trip(plane: Seq<u8>, height: nat, width: nat, blocks: Seq<MacroBlock>)
    requires
        plane.len() == height * width,
        is_partition_of(blocks, plane, height as int, width as int),
    ensures
        joined(blocks, height as int, width as int) == plane,
{
    let across = blocks_across(width as int);
    assert forall|i: int| 0 <= i < plane.len() implies joined(blocks, height as int, width as int)[i]
        == plane[i] by {
        let y = i / width as int;
        let x = i % width as int;
        assert(width > 0) by (nonlinear_arith)
            requires
                0 <= i < height * width,
        ;
        lemma_mod_pos_bound(i, width as int);
        assert(i == y * width + x) by {
            lemma_fundamental_div_mod(i, width as int);
            lemma_mul_is_commutative(width as int, y);
        }
        assert(y < height) by (nonlinear_arith)
            requires
                i == y * width + x,
                0 <= x,
                i < height * width,
                width > 0,
        ;
        let k = (y / 8) * across + x / 8;
        assert(x / 8 < across);
        assert(y / 8 < blocks_across(height as int));
        assert(0 <= k < blocks.len()) by (nonlinear_arith)
            requires
                k == (y / 8) * across + x / 8,
                0 <= y / 8 < blocks_across(height as int),
                0 <= x / 8 < across,
                blocks.len() == blocks_across(height as int) * across,
        ;
        lemma_fundamental_div_mod_converse(k, across, y / 8, x / 8);
        assert(cell(blocks, k, y % 8, x % 8) == padded_sample(
            plane,
            height as int,
            width as int,
            (y / 8) * 8 + y % 8,
            (x / 8) * 8 + x % 8,
        ));
    }
    assert(joined(blocks, height as int, width as int) =~= plane);
}

} // verus!
