use dct_quant::{
    quantise_chunk, quantise_frame, shift, shift_and_normalise, transform_columns, transform_rows,
    unshift, unshift_and_denormalise, ColorSpace, Frame, MacroBlock, QUANT_MATRIX_50,
};

fn frame(width: usize, height: usize, color_space: ColorSpace, seed: u8) -> Frame {
    let area = width * height;
    let chroma = dct_quant::chroma_len_from_space(color_space, width, height);
    Frame {
        width,
        height,
        color_space,
        data_y: (0..area).map(|i| (i as u8).wrapping_mul(7).wrapping_add(seed)).collect(),
        data_cb: (0..chroma).map(|i| (i as u8).wrapping_add(seed)).collect(),
        data_cr: (0..chroma).map(|i| (i as u8).wrapping_mul(3).wrapping_add(seed)).collect(),
    }
}

/// An orthonormal 8-point DCT-II and its inverse, for exercising the pipeline.
fn dct(v: [f64; 8], inverse: bool) -> [f64; 8] {
    let mut out = [0.0; 8];
    for k in 0..8 {
        let mut sum = 0.0;
        for n in 0..8 {
            let (freq, pos) = if inverse { (n, k) } else { (k, n) };
            let scale = if freq == 0 { (1.0f64 / 8.0).sqrt() } else { (2.0f64 / 8.0).sqrt() };
            let angle = std::f64::consts::PI / 8.0 * (pos as f64 + 0.5) * freq as f64;
            sum += scale * angle.cos() * v[n];
        }
        out[k] = sum;
    }
    out
}

fn spatial_op(strength: f64) -> impl Fn(MacroBlock) -> MacroBlock {
    move |block| {
        let centered = shift_and_normalise(block);
        let mut real = [[0.0f64; 8]; 8];
        for i in 0..8 {
            for j in 0..8 {
                real[i][j] = centered[i][j] as f64;
            }
        }
        let coeffs = transform_columns(transform_rows(real, |v| dct(v, false)), |v| dct(v, false));
        let mut q = coeffs;
        for i in 0..8 {
            for j in 0..8 {
                let step = QUANT_MATRIX_50[i][j] as f64 * strength;
                q[i][j] = (coeffs[i][j] / step).round() * step;
            }
        }
        let back = transform_columns(transform_rows(q, |v| dct(v, true)), |v| dct(v, true));
        let mut out = [[0i16; 8]; 8];
        for i in 0..8 {
            for j in 0..8 {
                out[i][j] = back[i][j].round() as i16;
            }
        }
        unshift_and_denormalise(out)
    }
}

#[test]
fn identity_block_op_keeps_the_frame() {
    for &(w, h) in &[(16, 16), (23, 31), (5, 3)] {
        let f = frame(w, h, ColorSpace::C444, 11);
        let out = quantise_frame(f.clone(), |b| b);
        assert_eq!(out.data_y, f.data_y);
        assert_eq!(out.data_cb, f.data_cb);
        assert_eq!(out.data_cr, f.data_cr);
        assert_eq!((out.width, out.height, out.color_space), (w, h, ColorSpace::C444));
    }
}

#[test]
fn chroma_passes_through_unchanged() {
    let f = frame(16, 8, ColorSpace::C420, 3);
    let out = quantise_frame(f.clone(), |_| [[0; 8]; 8]);
    assert_eq!(out.data_y, vec![0; 128]);
    assert_eq!(out.data_cb, f.data_cb);
    assert_eq!(out.data_cr, f.data_cr);
}

#[test]
fn block_op_sees_padded_blocks_in_row_major_order() {
    let f = frame(9, 9, ColorSpace::Cmono, 0);
    // write each block's index into its samples
    let counter = std::cell::Cell::new(0u8);
    let out = quantise_frame(f, |_| {
        let k = counter.get();
        counter.set(k + 1);
        [[k; 8]; 8]
    });
    assert_eq!(counter.get(), 4);
    assert_eq!(out.data_y[0], 0);
    assert_eq!(out.data_y[8], 1);
    assert_eq!(out.data_y[8 * 9], 2);
    assert_eq!(out.data_y[8 * 9 + 8], 3);
}

#[test]
fn mid_gray_plane_is_invariant() {
    for &strength in &[0.5, 1.0, 5.0, 40.0] {
        let f = Frame {
            width: 16,
            height: 16,
            color_space: ColorSpace::C420,
            data_y: vec![128; 256],
            data_cb: vec![128; 64],
            data_cr: vec![128; 64],
        };
        let out = quantise_frame(f, spatial_op(strength));
        assert_eq!(out.data_y, vec![128; 256]);
    }
}

#[test]
fn fine_quantisation_reproduces_a_block() {
    let test_block: MacroBlock = [
        [52, 55, 61, 66, 70, 61, 64, 73],
        [63, 59, 55, 90, 109, 85, 69, 72],
        [62, 59, 68, 113, 144, 104, 66, 73],
        [63, 58, 71, 122, 154, 106, 70, 69],
        [67, 61, 68, 104, 126, 88, 68, 70],
        [79, 65, 60, 70, 77, 68, 58, 75],
        [85, 71, 64, 59, 55, 61, 65, 83],
        [87, 79, 69, 68, 65, 76, 78, 94],
    ];
    let out = spatial_op(1e-6)(test_block);
    for i in 0..8 {
        for j in 0..8 {
            assert!((out[i][j] as i32 - test_block[i][j] as i32).abs() <= 1);
        }
    }
}

#[test]
fn coarser_quantisation_does_not_reduce_the_error() {
    let test_block: MacroBlock = [
        [52, 55, 61, 66, 70, 61, 64, 73],
        [63, 59, 55, 90, 109, 85, 69, 72],
        [62, 59, 68, 113, 144, 104, 66, 73],
        [63, 58, 71, 122, 154, 106, 70, 69],
        [67, 61, 68, 104, 126, 88, 68, 70],
        [79, 65, 60, 70, 77, 68, 58, 75],
        [85, 71, 64, 59, 55, 61, 65, 83],
        [87, 79, 69, 68, 65, 76, 78, 94],
    ];
    let error = |strength: f64| -> i32 {
        let out = spatial_op(strength)(test_block);
        let mut e = 0;
        for i in 0..8 {
            for j in 0..8 {
                e += (out[i][j] as i32 - test_block[i][j] as i32).abs();
            }
        }
        e
    };
    assert!(error(0.001) <= error(1.0));
    assert!(error(1.0) <= error(100.0));
}

#[test]
fn chunk_op_runs_along_time_per_position() {
    let chunk: Vec<Frame> = (0..8).map(|i| frame(4, 2, ColorSpace::C422, 10 * i as u8)).collect();
    let out = quantise_chunk(chunk.clone(), |v: [u8; 8]| {
        let mut r = v;
        r.reverse();
        r
    });
    assert_eq!(out.len(), 8);
    for i in 0..8 {
        assert_eq!(out[i].data_y, chunk[7 - i].data_y);
        assert_eq!(out[i].data_cb, chunk[7 - i].data_cb);
        assert_eq!(out[i].data_cr, chunk[7 - i].data_cr);
        assert_eq!((out[i].width, out[i].height, out[i].color_space), (4, 2, ColorSpace::C422));
    }
}

#[test]
fn chunk_results_follow_a_frame_permutation_for_an_order_free_op() {
    let chunk: Vec<Frame> = (0..8).map(|i| frame(3, 3, ColorSpace::C444, 31 * i as u8)).collect();
    let mut permuted = chunk.clone();
    permuted.swap(0, 5);
    permuted.swap(2, 7);
    // an op that treats every time position alike
    let op = |v: [u8; 8]| v.map(|x| x / 16 * 16);
    let a = quantise_chunk(chunk, op);
    let mut b = quantise_chunk(permuted, op);
    b.swap(2, 7);
    b.swap(0, 5);
    for i in 0..8 {
        assert_eq!(a[i].data_y, b[i].data_y);
        assert_eq!(a[i].data_cb, b[i].data_cb);
    }
}

#[test]
fn shift_and_unshift_values() {
    assert_eq!(shift(0), -128);
    assert_eq!(shift(255), 127);
    assert_eq!(unshift(-128), 0);
    assert_eq!(unshift(0), 128);
    assert_eq!(unshift(200), 255);
    assert_eq!(unshift(-300), 0);
    assert_eq!(unshift(i16::MAX), 255);
    let block: MacroBlock = [[7; 8]; 8];
    let centered = shift_and_normalise(block);
    assert_eq!(centered[3][4], -121);
    assert_eq!(unshift_and_denormalise(centered), block);
}

#[test]
fn rows_then_columns_order() {
    let mut block = [[0i32; 8]; 8];
    for i in 0..8 {
        for j in 0..8 {
            block[i][j] = (i * 8 + j) as i32;
        }
    }
    // prefix sums along rows, then along columns
    let prefix = |v: [i32; 8]| {
        let mut r = v;
        for k in 1..8 {
            r[k] += r[k - 1];
        }
        r
    };
    let rows = transform_rows(block, prefix);
    assert_eq!(rows[1], [8, 17, 27, 38, 50, 63, 77, 92]);
    let both = transform_columns(rows, prefix);
    assert_eq!(both[1][0], 0 + 8);
    assert_eq!(both[7][7], (0..64).sum::<i32>());
}

#[test]
fn quantisation_table_corners() {
    assert_eq!(QUANT_MATRIX_50[0][0], 16);
    assert_eq!(QUANT_MATRIX_50[7][7], 99);
    assert_eq!(QUANT_MATRIX_50[6][5], 121);
}

#[test]
fn well_formed_frames_and_chunks() {
    let f = frame(4, 4, ColorSpace::C420, 1);
    assert!(f.is_well_formed());
    let mut bad = f.clone();
    bad.data_cr.pop();
    assert!(!bad.is_well_formed());
    let overflowing = Frame { width: usize::MAX, height: 2, ..f.clone() };
    assert!(!overflowing.is_well_formed());

    let chunk: Vec<Frame> = (0..8).map(|i| frame(4, 4, ColorSpace::C420, i)).collect();
    assert!(dct_quant::is_uniform_chunk(&chunk));
    assert!(!dct_quant::is_uniform_chunk(&chunk[..7].to_vec()));
    let mut mixed = chunk.clone();
    mixed[3] = frame(4, 4, ColorSpace::C444, 0);
    assert!(!dct_quant::is_uniform_chunk(&mixed));
}

#[test]
fn chunk_buffer_hands_out_groups_of_eight() {
    let mut buffer = dct_quant::ChunkBuffer::new();
    let mut handed = Vec::new();
    for i in 0..19u8 {
        if let Some(chunk) = buffer.push(frame(2, 2, ColorSpace::C444, i)) {
            handed.push(chunk);
        }
    }
    assert_eq!(handed.len(), 2);
    assert_eq!(handed[1].len(), 8);
    assert_eq!(handed[1][0].data_y[0], 8);
    assert_eq!(handed[1][7].data_y[0], 15);
    // the last three wait and are never handed out
    assert_eq!(buffer.frames.len(), 3);
}
