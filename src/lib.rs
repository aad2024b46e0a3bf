//! Block-based DCT quantisation of planar YUV video frames.
//!
//! The library holds the parts of the engine that are exact: partitioning of
//! sample planes into 8×8 macroblocks and their reassembly, the per-block and
//! per-pixel orchestration of the spatial and temporal pipelines, centering
//! and clamping of samples, and the YUV4MPEG2 container format on bytes.
//! The real-valued transform and rounding steps are supplied by the caller as
//! closures.

mod codec;
mod frame;
mod header;
mod plane;
mod sample;
mod spatial;
mod temporal;

pub use codec::{
    aspect_text, color_text, decimal_digits, frame_marker, header_line, header_tokens,
    interlace_text, lemma_frame_len_is_planes_len, lemma_header_round_trip, planes_fit, planes_len, signature_text, Decoder,
    Encoder, Y4MReader, Y4MWriter,
};
pub use frame::{
    chroma_len_from_space, chroma_len_of, default_header, frame_len_of, ColorSpace, Frame, Header,
    InterlaceMode, PixelAspectRatio,
};
pub use header::{
    all_digits, apply_param, apply_params, aspect_of, colon_at, color_of, decimal_value,
    digits_value, frame_rate_of, header_from_line, interlace_of, is_signature, parse_header,
    split_spaces, strip_plus, trim_end, Error,
};
pub use plane::{
    blocks_across, cell, concatenate, divide, is_partition_of, joined, lemma_partition_round_trip,
    padded_sample, sample_in_blocks, MacroBlock,
};
pub use sample::{
    clamp_sample, is_column, lemma_shift_round_trip, shift, shift_and_normalise, transform_columns,
    transform_rows, unshift, unshift_and_denormalise, CenteredBlock, QUANT_MATRIX_50,
};
pub use spatial::{
    blocks_mapped, blockwise, is_flat, lemma_identity_op_keeps_plane,
    lemma_mid_gray_plane_is_invariant, quantise_frame,
};
pub use temporal::{
    array_of, frames_permuted, ChunkBuffer, gathered, is_chunk, is_permutation, is_uniform_chunk,
    lemma_chunk_permutation, plane_view, quantise_chunk, time_vector, timewise, vector_permuted,
    Plane,
};
