//! Centering of samples around zero and back, and the separable application
//! of an 8-point transform to the rows and columns of a block.

use vstd::prelude::*;

use crate::plane::MacroBlock;

verus! {

/// An 8×8 grid of samples centered around zero, indexed `[row][column]`.
pub type CenteredBlock = [[i16; 8]; 8];

/// Base divisors of the spatial quantiser, indexed `[row][column]` by
/// frequency: small for low frequencies, large for high ones.
pub const QUANT_MATRIX_50: [[u8; 8]; 8] = [
    [16, 11, 10, 16, 24, 40, 51, 61],
    [12, 12, 14, 19, 26, 58, 60, 55],
    [14, 13, 16, 24, 40, 57, 69, 56],
    [14, 17, 22, 29, 51, 87, 80, 62],
    [18, 22, 37, 56, 68, 109, 103, 77],
    [24, 35, 55, 64, 81, 104, 113, 92],
    [49, 64, 78, 87, 103, 121, 120, 101],
    [72, 92, 95, 98, 112, 100, 103, 99],
];

/// `v` saturated to the range of an 8-bit sample.
pub open spec fn clamp_sample(v: int) -> u8 {
    if v < 0 {
        0
    } else if v > 255 {
        255
    } else {
        v as u8
    }
}

/// Maps a sample from `[0, 255]` to `[-128, 127]`.
pub fn shift(value: u8) -> (r: i16)
    ensures
        r == value - 128,
{
    value as i16 - 128
}

/// Maps a centered value back by adding 128, saturating to `[0, 255]`.
pub fn unshift(value: i16) -> (r: u8)
    ensures
        r == clamp_sample(value + 128),
{
    let v = value as i32 + 128;
    if v < 0 {
        0
    } else if v > 255 {
        255
    } else {
        v as u8
    }
}

/// Centers every sample of a block.
pub fn shift_and_normalise(block: MacroBlock) -> (r: CenteredBlock)
    ensures
        forall|i: int, j: int| 0 <= i < 8 && 0 <= j < 8 ==> r[i][j] == block[i][j] - 128,
{
    let mut r: CenteredBlock = [[0i16; 8]; 8];
    let mut i: usize = 0;
    while i < 8
        invariant
            i <= 8,
            forall|i2: int, j: int| 0 <= i2 < i && 0 <= j < 8 ==> r[i2][j] == block[i2][j] - 128,
        decreases 8 - i,
    {
        let mut row = [0i16; 8];
        let mut j: usize = 0;
        while j < 8
            invariant
                i < 8,
                j <= 8,
                forall|j2: int| 0 <= j2 < j ==> row[j2] == block[i as int][j2] - 128,
            decreases 8 - j,
        {
            row[j] = shift(block[i][j]);
            j += 1;
        }
        r[i] = row;
        i += 1;
    }
    r
}

/// Decenters every value of a block, saturating to 8-bit samples.
pub fn unshift_and_denormalise(block: CenteredBlock) -> (r: MacroBlock)
    ensures
        forall|i: int, j: int|
            0 <= i < 8 && 0 <= j < 8 ==> r[i][j] == clamp_sample(block[i][j] + 128),
{
    let mut r: MacroBlock = [[0u8; 8]; 8];
    let mut i: usize = 0;
    while i < 8
        invariant
            i <= 8,
            forall|i2: int, j: int|
                0 <= i2 < i && 0 <= j < 8 ==> r[i2][j] == clamp_sample(block[i2][j] + 128),
        decreases 8 - i,
    {
        let mut row = [0u8; 8];
        let mut j: usize = 0;
        while j < 8
            invariant
                i < 8,
                j <= 8,
                forall|j2: int| 0 <= j2 < j ==> row[j2] == clamp_sample(block[i as int][j2] + 128),
            decreases 8 - j,
        {
            row[j] = unshift(block[i][j]);
            j += 1;
        }
        r[i] = row;
        i += 1;
    }
    r
}

/// Centering then decentering gives back every sample.
pub proof fn lemma_shift_round_trip(block: MacroBlock, centered: CenteredBlock, back: MacroBlock)
    requires
        forall|i: int, j: int| 0 <= i < 8 && 0 <= j < 8 ==> centered[i][j] == block[i][j] - 128,
        forall|i: int, j: int|
            0 <= i < 8 && 0 <= j < 8 ==> back[i][j] == clamp_sample(centered[i][j] + 128),
    ensures
        back == block,
{
    assert forall|i: int| 0 <= i < 8 implies back[i] == block[i] by {
        assert(back[i] =~= block[i]);
    }
    assert(back =~= block);
}

/// `v` holds column `c` of `block`.
pub open spec fn is_column<T>(block: [[T; 8]; 8], c: int, v: [T; 8]) -> bool {
    forall|i: int| 0 <= i < 8 ==> v[i] == block[i][c]
}

/// Applies an 8-point transform to each row of a block.
pub fn transform_rows<T: Copy, F: Fn([T; 8]) -> [T; 8]>(block: [[T; 8]; 8], f: F) -> (r: [[T; 8]; 8])
    requires
        forall|v: [T; 8]| f.requires((v,)),
    ensures
        forall|i: int| 0 <= i < 8 ==> f.ensures((block[i],), #[trigger] r[i]),
{
    let mut r = block;
    let mut i: usize = 0;
    while i < 8
        invariant
            i <= 8,
            forall|v: [T; 8]| f.requires((v,)),
            forall|i2: int| 0 <= i2 < i ==> f.ensures((block[i2],), #[trigger] r[i2]),
        decreases 8 - i,
    {
        let row = f(block[i]);
        r[i] = row;
        i += 1;
    }
    r
}

/// Applies an 8-point transform to each column of a block.
pub fn transform_columns<T: Copy, F: Fn([T; 8]) -> [T; 8]>(block: [[T; 8]; 8], f: F) -> (r: [[T; 8]; 8])
    requires
        forall|v: [T; 8]| f.requires((v,)),
    ensures
        forall|c: int, input: [T; 8], output: [T; 8]|
            0 <= c < 8 && #[trigger] is_column(block, c, input) && #[trigger] is_column(r, c, output)
                ==> f.ensures((input,), output),
{
    let mut r = block;
    let mut c: usize = 0;
    while c < 8
        invariant
            c <= 8,
            forall|v: [T; 8]| f.requires((v,)),
            forall|c2: int, input: [T; 8], output: [T; 8]|
                0 <= c2 < c && #[trigger] is_column(block, c2, input) && #[trigger] is_column(r, c2, output)
                    ==> f.ensures((input,), output),
            forall|i: int, c2: int| 0 <= i < 8 && c <= c2 < 8 ==> r[i][c2] == block[i][c2],
        decreases 8 - c,
    {
        let mut column = [block[0][c]; 8];
        let mut i: usize = 0;
        while i < 8
            invariant
                c < 8,
                i <= 8,
                forall|i2: int| 0 <= i2 < i ==> column[i2] == block[i2][c as int],
            decreases 8 - i,
        {
            column[i] = block[i][c];
            i += 1;
        }
        assert(is_column(block, c as int, column));
        let out = f(column);
        let ghost before = r;
        let mut i: usize = 0;
        while i < 8
            invariant
                c < 8,
                i <= 8,
                forall|i2: int| 0 <= i2 < i ==> r[i2][c as int] == out[i2],
                forall|i2: int, c2: int| 0 <= i2 < 8 && 0 <= c2 < 8 && c2 != c ==> r[i2][c2] == before[i2][c2],
                forall|i2: int| i <= i2 < 8 ==> r[i2] == before[i2],
            decreases 8 - i,
        {
            let mut row = r[i];
            row[c] = out[i];
            r[i] = row;
            i += 1;
        }
        proof {
            assert forall|c2: int, input: [T; 8], output: [T; 8]|
                0 <= c2 < c + 1 && #[trigger] is_column(block, c2, input) && #[trigger] is_column(r, c2, output)
                    implies f.ensures((input,), output) by {
                if c2 == c {
                    assert(input =~= column);
                    assert(output =~= out);
                } else {
                    assert(is_column(before, c2, output));
                }
            }
        }
        c += 1;
    }
    r
}

} // verus!
