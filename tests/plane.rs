use dct_quant::{concatenate, divide, MacroBlock};

fn ramp(len: usize) -> Vec<u8> {
    (0..len).map(|i| (i % 251) as u8 + 1).collect()
}

#[test]
fn does_divide_into_macroblocks() {
    const HEIGHT: usize = 23;
    const WIDTH: usize = 31;
    let data_y = [1; HEIGHT * WIDTH];

    let blocks = divide(&data_y, HEIGHT, WIDTH);
    assert_eq!(blocks.len(), 12); // check number of blocks
    assert_eq!(blocks[11][0][0], 1); // check values are copied over
    assert_eq!(blocks[11][7][7], 0); // check 0 padding
}

#[test]
fn edge_block_is_padded_outside_the_plane_only() {
    let (height, width) = (23usize, 31usize);
    let plane = ramp(height * width);
    let blocks = divide(&plane, height, width);
    assert_eq!(blocks.len(), 3 * 4);
    let corner = blocks[11];
    for r in 0..8 {
        for c in 0..8 {
            if r < 7 && c < 7 {
                assert_eq!(corner[r][c], plane[(16 + r) * width + 24 + c]);
            } else {
                assert_eq!(corner[r][c], 0);
            }
        }
    }
    // an interior block is copied verbatim
    assert_eq!(blocks[5][3][4], plane[(8 + 3) * width + 8 + 4]);
}

#[test]
fn partition_round_trip_on_many_shapes() {
    for &(height, width) in &[(0, 0), (0, 5), (5, 0), (1, 1), (7, 9), (8, 8), (16, 16), (23, 31), (9, 17)] {
        let plane = ramp(height * width);
        let blocks = divide(&plane, height, width);
        assert_eq!(blocks.len(), ((height + 7) / 8) * ((width + 7) / 8));
        assert_eq!(concatenate(blocks, height, width), plane);
    }
}

#[test]
fn concatenate_drops_padding() {
    let mut block: MacroBlock = [[9; 8]; 8];
    block[0][0] = 1;
    block[0][1] = 2;
    block[1][0] = 3;
    block[1][1] = 4;
    assert_eq!(concatenate(vec![block], 2, 2), vec![1, 2, 3, 4]);
}
