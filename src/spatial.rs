//! The spatial pipeline: every 8×8 block of a frame's luma plane goes through
//! a block operation, and the plane is reassembled.

use vstd::prelude::*;

use crate::frame::Frame;
use crate::plane::{
    blocks_across, cell, concatenate, divide, is_partition_of, joined, lemma_partition_round_trip,
    lemma_row_major_index, MacroBlock,
};

verus! {

/// `out[k]` is a result of `op` on `inp[k]`, for every block.
pub open spec fn blocks_mapped<F: Fn(MacroBlock) -> MacroBlock>(
    op: F,
    inp: Seq<MacroBlock>,
    out: Seq<MacroBlock>,
) -> bool {
    &&& out.len() == inp.len()
    &&& forall|k: int| 0 <= k < inp.len() ==> op.ensures((inp[k],), #[trigger] out[k])
}

/// `result` is the `height`×`width` plane obtained by partitioning `plane`
/// into macroblocks, applying `op` to each block, and joining the results.
pub open spec fn blockwise<F: Fn(MacroBlock) -> MacroBlock>(
    op: F,
    plane: Seq<u8>,
    height: int,
    width: int,
    result: Seq<u8>,
) -> bool {
    exists|inp: Seq<MacroBlock>, out: Seq<MacroBlock>|
        #[trigger] is_partition_of(inp, plane, height, width) && #[trigger] blocks_mapped(op, inp, out)
            && joined(out, height, width) == result
}

/// Applies `op` to each macroblock of the luma plane, in row-major order,
/// and reassembles the plane; the chroma planes pass through unchanged.
/// `op` is the per-block transform, quantise, dequantise and inverse
/// transform.
pub fn quantise_frame<F: Fn(MacroBlock) -> MacroBlock>(frame: Frame, op: F) -> (r: Frame)
    requires
        frame.wf(),
        forall|b: MacroBlock| op.requires((b,)),
    ensures
        r.wf(),
        r.width == frame.width,
        r.height == frame.height,
        r.color_space == frame.color_space,
        r.data_cb@ == frame.data_cb@,
        r.data_cr@ == frame.data_cr@,
        blockwise(op, frame.data_y@, frame.height as int, frame.width as int, r.data_y@),
{
    let luma_len = frame.data_y.len();
    proof {
        assert(frame.height * frame.width == frame.width * frame.height) by (nonlinear_arith);
        assert(frame.height * frame.width == luma_len);
    }
    let blocks = divide(frame.data_y.as_slice(), frame.height, frame.width);
    let mut processed: Vec<MacroBlock> = Vec::new();
    let mut k: usize = 0;
    while k < blocks.len()
        invariant
            k <= blocks@.len(),
            forall|b: MacroBlock| op.requires((b,)),
            processed@.len() == k,
            forall|k2: int| 0 <= k2 < k ==> op.ensures((blocks@[k2],), #[trigger] processed@[k2]),
        decreases blocks@.len() - k,
    {
        let out = op(blocks[k]);
        processed.push(out);
        k += 1;
    }
    let ghost out_blocks = processed@;
    assert(blocks_mapped(op, blocks@, out_blocks));
    let data_y = concatenate(processed, frame.height, frame.width);
    assert(is_partition_of(blocks@, frame.data_y@, frame.height as int, frame.width as int));
    Frame {
        width: frame.width,
        height: frame.height,
        color_space: frame.color_space,
        data_y,
        data_cb: frame.data_cb,
        data_cr: frame.data_cr,
    }
}

/// Every sample of the block is `v`.
pub open spec fn is_flat(b: MacroBlock, v: u8) -> bool {
    forall|r: int, c: int| 0 <= r < 8 && 0 <= c < 8 ==> b[r][c] == v
}

/// Where `op` hands every block back as it was, the blockwise result is the
/// plane itself.
pub proof fn lemma_identity_op_keeps_plane<F: Fn(MacroBlock) -> MacroBlock>(
    op: F,
    plane: Seq<u8>,
    height: nat,
    width: nat,
    result: Seq<u8>,
)
    requires
        plane.len() == height * width,
        blockwise(op, plane, height as int, width as int, result),
        forall|b: MacroBlock, o: MacroBlock| op.ensures((b,), o) ==> o == b,
    ensures
        result == plane,
{
    let (inp, out) = choose|inp: Seq<MacroBlock>, out: Seq<MacroBlock>|
        #[trigger] is_partition_of(inp, plane, height as int, width as int) && #[trigger] blocks_mapped(
            op,
            inp,
            out,
        ) && joined(out, height as int, width as int) == result;
    assert(out =~= inp) by {
        assert forall|k: int| 0 <= k < inp.len() implies out[k] == inp[k] by {
            assert(op.ensures((inp[k],), out[k]));
        }
    }
    lemma_partition_round_trip(plane, height, width, inp);
}

/// A plane of mid-gray samples, whose sides are multiples of 8, comes back
/// unchanged from any block operation that keeps the mid-gray block: it
/// centers to all zeros, whose transform has no nonzero coefficient.
pub proof fn lemma_mid_gray_plane_is_invariant<F: Fn(MacroBlock) -> MacroBlock>(
    op: F,
    plane: Seq<u8>,
    height: nat,
    width: nat,
    result: Seq<u8>,
)
    requires
        plane.len() == height * width,
        height % 8 == 0,
        width % 8 == 0,
        forall|i: int| 0 <= i < plane.len() ==> plane[i] == 128,
        blockwise(op, plane, height as int, width as int, result),
        forall|b: MacroBlock, o: MacroBlock| is_flat(b, 128) && op.ensures((b,), o) ==> is_flat(o, 128),
    ensures
        result == plane,
{
    let (inp, out) = choose|inp: Seq<MacroBlock>, out: Seq<MacroBlock>|
        #[trigger] is_partition_of(inp, plane, height as int, width as int) && #[trigger] blocks_mapped(
            op,
            inp,
            out,
        ) && joined(out, height as int, width as int) == result;
    let across = blocks_across(width as int);
    let down = blocks_across(height as int);
    assert(out =~= inp) by {
        assert forall|k: int| 0 <= k < inp.len() implies out[k] == inp[k] by {
            assert(across > 0 && k / across < down) by (nonlinear_arith)
                requires
                    0 <= k < down * across,
                    across >= 0,
                    down >= 0,
            {
                vstd::arithmetic::div_mod::lemma_fundamental_div_mod(k, across);
            }
            vstd::arithmetic::div_mod::lemma_mod_pos_bound(k, across);
            assert forall|r: int, c: int| 0 <= r < 8 && 0 <= c < 8 implies inp[k][r][c] == 128 by {
                let y = (k / across) * 8 + r;
                let x = (k % across) * 8 + c;
                assert(cell(inp, k, r, c) == inp[k][r][c]);
                lemma_row_major_index(y, x, height as int, width as int);
            }
            assert(op.ensures((inp[k],), out[k]));
            assert forall|r: int| 0 <= r < 8 implies out[k][r] =~= inp[k][r] by {}
            assert(out[k] =~= inp[k]);
        }
    }
    lemma_partition_round_trip(plane, height, width, inp);
}
} // verus!
