//! The temporal pipeline: for every sample position of every plane, the
//! eight samples of a chunk of frames go through a vector operation along
//! the time axis.

use vstd::array::{spec_array_fill_for_copy_type, spec_array_update};
use vstd::prelude::*;

use crate::frame::{ColorSpace, Frame};

verus! {

/// One of the three sample planes of a frame.
#[derive(Debug, Clone, Copy, PartialEq, Eq, Structural)]
pub enum Plane {
    Luma,
    ChromaB,
    ChromaR,
}

/// The samples of plane `p` of a frame.
pub open spec fn plane_view(f: Frame, p: Plane) -> Seq<u8> {
    match p {
        Plane::Luma => f.data_y@,
        Plane::ChromaB => f.data_cb@,
        Plane::ChromaR => f.data_cr@,
    }
}

fn plane_of(f: &Frame, p: Plane) -> (r: &Vec<u8>)
    ensures
        r@ == plane_view(*f, p),
{
    match p {
        Plane::Luma => &f.data_y,
        Plane::ChromaB => &f.data_cb,
        Plane::ChromaR => &f.data_cr,
    }
}

/// `v[i]` is the sample at index `k` of plane `p` of frame `i`.
pub open spec fn gathered(frames: Seq<Frame>, p: Plane, k: int, v: [u8; 8]) -> bool {
    forall|i: int| 0 <= i < 8 ==> v[i] == #[trigger] plane_view(frames[i], p)[k]
}

/// Eight well-formed frames sharing dimensions and color space.
pub open spec fn is_chunk(frames: Seq<Frame>) -> bool {
    &&& frames.len() == 8
    &&& forall|i: int|
        0 <= i < 8 ==> {
            &&& (#[trigger] frames[i]).wf()
            &&& frames[i].width == frames[0].width
            &&& frames[i].height == frames[0].height
            &&& frames[i].color_space == frames[0].color_space
        }
}

/// Collects frames into chunks of eight, in arrival order. A last group of
/// fewer than eight is never handed out: the caller drops it at the end.
pub struct ChunkBuffer {
    pub frames: Vec<Frame>,
}

impl ChunkBuffer {
    /// Fewer than eight frames wait.
    pub open spec fn wf(&self) -> bool {
        self.frames@.len() < 8
    }

    pub fn new() -> (r: ChunkBuffer)
        ensures
            r.wf(),
            r.frames@.len() == 0,
    {
        ChunkBuffer { frames: Vec::new() }
    }

    /// Adds a frame. With it the eighth, the eight frames are handed out and
    /// the buffer is empty again; otherwise the frame waits.
    pub fn push(&mut self, frame: Frame) -> (r: Option<Vec<Frame>>)
        requires
            old(self).wf(),
        ensures
            final(self).wf(),
            old(self).frames@.len() == 7 ==> {
                &&& r matches Some(chunk)
                &&& chunk@ == old(self).frames@.push(frame)
                &&& final(self).frames@.len() == 0
            },
            old(self).frames@.len() < 7 ==> {
                &&& r is None
                &&& final(self).frames@ == old(self).frames@.push(frame)
            },
    {
        self.frames.push(frame);
        if self.frames.len() == 8 {
            let mut chunk: Vec<Frame> = Vec::new();
            std::mem::swap(&mut chunk, &mut self.frames);
            Some(chunk)
        } else {
            None
        }
    }
}

/// Whether the frames are eight well-formed frames sharing dimensions and
/// color space, as `quantise_chunk` needs.
pub fn is_uniform_chunk(frames: &Vec<Frame>) -> (r: bool)
    ensures
        r == is_chunk(frames@),
{
    if frames.len() != 8 {
        return false;
    }
    let mut i: usize = 0;
    while i < 8
        invariant
            frames@.len() == 8,
            i <= 8,
            forall|i2: int|
                0 <= i2 < i ==> {
                    &&& (#[trigger] frames@[i2]).wf()
                    &&& frames@[i2].width == frames@[0].width
                    &&& frames@[i2].height == frames@[0].height
                    &&& frames@[i2].color_space == frames@[0].color_space
                },
        decreases 8 - i,
    {
        let f = &frames[i];
        if !(f.is_well_formed() && f.width == frames[0].width && f.height == frames[0].height
            && f.color_space == frames[0].color_space) {
            return false;
        }
        i += 1;
    }
    true
}

/// At every index of every plane, the eight samples of `result` along time
/// are a result of `op` on the eight samples of `chunk`.
pub open spec fn timewise<F: Fn([u8; 8]) -> [u8; 8]>(op: F, chunk: Seq<Frame>, result: Seq<Frame>) -> bool {
    forall|p: Plane, k: int, input: [u8; 8], output: [u8; 8]|
        0 <= k < plane_view(chunk[0], p).len() && #[trigger] gathered(chunk, p, k, input)
            && #[trigger] gathered(result, p, k, output) ==> op.ensures((input,), output)
}

/// The result of `op` on the time vector at each index of plane `p`.
fn temporal_results<F: Fn([u8; 8]) -> [u8; 8]>(chunk: &Vec<Frame>, p: Plane, op: &F) -> (r: Vec<[u8; 8]>)
    requires
        is_chunk(chunk@),
        forall|v: [u8; 8]| op.requires((v,)),
    ensures
        r@.len() == plane_view(chunk@[0], p).len(),
        forall|k: int, input: [u8; 8]|
            0 <= k < r@.len() && #[trigger] gathered(chunk@, p, k, input) ==> op.ensures((input,), r@[k]),
{
    let n = plane_of(&chunk[0], p).len();
    let mut r: Vec<[u8; 8]> = Vec::new();
    let mut k: usize = 0;
    while k < n
        invariant
            is_chunk(chunk@),
            forall|v: [u8; 8]| op.requires((v,)),
            n == plane_view(chunk@[0], p).len(),
            k <= n,
            r@.len() == k,
            forall|k2: int, input: [u8; 8]|
                0 <= k2 < k && #[trigger] gathered(chunk@, p, k2, input) ==> op.ensures((input,), r@[k2]),
        decreases n - k,
    {
        let mut v = [0u8; 8];
        let mut i: usize = 0;
        while i < 8
            invariant
                is_chunk(chunk@),
                n == plane_view(chunk@[0], p).len(),
                k < n,
                i <= 8,
                forall|i2: int| 0 <= i2 < i ==> v[i2] == plane_view(chunk@[i2], p)[k as int],
            decreases 8 - i,
        {
            assert(chunk@[i as int].wf());
            v[i] = plane_of(&chunk[i], p)[k];
            i += 1;
        }
        let out = op(v);
        let ghost before = r@;
        r.push(out);
        proof {
            assert forall|k2: int, input: [u8; 8]|
                0 <= k2 < k + 1 && #[trigger] gathered(chunk@, p, k2, input) implies op.ensures(
                (input,),
                r@[k2],
            ) by {
                if k2 == k {
                    assert(input =~= v);
                } else {
                    assert(r@[k2] == before[k2]);
                }
            }
        }
        k += 1;
    }
    r
}

/// Entry `i` of every result vector, in index order: one frame's plane.
fn scatter(results: &Vec<[u8; 8]>, i: usize) -> (r: Vec<u8>)
    requires
        i < 8,
    ensures
        r@.len() == results@.len(),
        forall|k: int| 0 <= k < r@.len() ==> r@[k] == results@[k][i as int],
{
    let mut r: Vec<u8> = Vec::new();
    let mut k: usize = 0;
    while k < results.len()
        invariant
            i < 8,
            k <= results@.len(),
            r@.len() == k,
            forall|k2: int| 0 <= k2 < k ==> r@[k2] == results@[k2][i as int],
        decreases results@.len() - k,
    {
        r.push(results[k][i]);
        k += 1;
    }
    r
}

/// Applies `op` along the time axis of a chunk of eight frames: for each
/// plane and each sample index, the eight samples at that index, in frame
/// order, go through `op`, and its result is scattered back to the same
/// index of the eight output frames, in the same order. `op` is the
/// temporal transform, quantise, dequantise and inverse transform.
pub fn quantise_chunk<F: Fn([u8; 8]) -> [u8; 8]>(chunk: Vec<Frame>, op: F) -> (r: Vec<Frame>)
    requires
        is_chunk(chunk@),
        forall|v: [u8; 8]| op.requires((v,)),
    ensures
        is_chunk(r@),
        forall|i: int|
            0 <= i < 8 ==> {
                &&& (#[trigger] r@[i]).width == chunk@[i].width
                &&& r@[i].height == chunk@[i].height
                &&& r@[i].color_space == chunk@[i].color_space
            },
        timewise(op, chunk@, r@),
{
    let luma = temporal_results(&chunk, Plane::Luma, &op);
    let chroma_b = temporal_results(&chunk, Plane::ChromaB, &op);
    let chroma_r = temporal_results(&chunk, Plane::ChromaR, &op);
    let width = chunk[0].width;
    let height = chunk[0].height;
    let color_space: ColorSpace = chunk[0].color_space;
    let mut r: Vec<Frame> = Vec::new();
    let mut i: usize = 0;
    while i < 8
        invariant
            i <= 8,
            is_chunk(chunk@),
            width == chunk@[0].width,
            height == chunk@[0].height,
            color_space == chunk@[0].color_space,
            luma@.len() == plane_view(chunk@[0], Plane::Luma).len(),
            chroma_b@.len() == plane_view(chunk@[0], Plane::ChromaB).len(),
            chroma_r@.len() == plane_view(chunk@[0], Plane::ChromaR).len(),
            r@.len() == i,
            forall|i2: int|
                0 <= i2 < i ==> {
                    &&& (#[trigger] r@[i2]).wf()
                    &&& r@[i2].width == width
                    &&& r@[i2].height == height
                    &&& r@[i2].color_space == color_space
                    &&& forall|k: int|
                        0 <= k < luma@.len() ==> plane_view(r@[i2], Plane::Luma)[k] == luma@[k][i2]
                    &&& forall|k: int|
                        0 <= k < chroma_b@.len() ==> plane_view(r@[i2], Plane::ChromaB)[k]
                            == chroma_b@[k][i2]
                    &&& forall|k: int|
                        0 <= k < chroma_r@.len() ==> plane_view(r@[i2], Plane::ChromaR)[k]
                            == chroma_r@[k][i2]
                },
        decreases 8 - i,
    {
        let f = Frame {
            width,
            height,
            color_space,
            data_y: scatter(&luma, i),
            data_cb: scatter(&chroma_b, i),
            data_cr: scatter(&chroma_r, i),
        };
        r.push(f);
        i += 1;
    }
    proof {
        assert forall|p: Plane, k: int, input: [u8; 8], output: [u8; 8]|
            0 <= k < plane_view(chunk@[0], p).len() && #[trigger] gathered(chunk@, p, k, input)
                && #[trigger] gathered(r@, p, k, output) implies op.ensures((input,), output) by {
            let res = match p {
                Plane::Luma => luma@,
                Plane::ChromaB => chroma_b@,
                Plane::ChromaR => chroma_r@,
            };
            assert forall|i2: int| 0 <= i2 < 8 implies output[i2] == res[k][i2] by {
                assert(r@[i2].wf());
                assert(output[i2] == plane_view(r@[i2], p)[k]);
            }
            assert(output =~= res[k]);
        }
    }
    r
}

/// `perm` reorders eight positions.
pub open spec fn is_permutation(perm: Seq<int>) -> bool {
    &&& perm.len() == 8
    &&& forall|i: int| 0 <= i < 8 ==> 0 <= #[trigger] perm[i] < 8
    &&& forall|i: int, j: int| 0 <= i < 8 && 0 <= j < 8 && i != j ==> perm[i] != perm[j]
}

/// Frame `i` of `b` has the planes of frame `perm[i]` of `a`.
pub open spec fn frames_permuted(a: Seq<Frame>, b: Seq<Frame>, perm: Seq<int>) -> bool {
    forall|i: int, p: Plane| 0 <= i < 8 ==> #[trigger] plane_view(b[i], p) == plane_view(a[perm[i]], p)
}

/// Entry `i` of `w` is entry `perm[i]` of `v`.
pub open spec fn vector_permuted(v: [u8; 8], w: [u8; 8], perm: Seq<int>) -> bool {
    forall|i: int| 0 <= i < 8 ==> #[trigger] w[i] == v[perm[i]]
}

/// The array holding the first eight entries of `s`.
pub open spec fn array_of(s: Seq<u8>) -> [u8; 8] {
    let a = spec_array_fill_for_copy_type::<u8, 8>(0u8);
    let a = spec_array_update(a, 0, s[0]);
    let a = spec_array_update(a, 1, s[1]);
    let a = spec_array_update(a, 2, s[2]);
    let a = spec_array_update(a, 3, s[3]);
    let a = spec_array_update(a, 4, s[4]);
    let a = spec_array_update(a, 5, s[5]);
    let a = spec_array_update(a, 6, s[6]);
    spec_array_update(a, 7, s[7])
}

proof fn lemma_array_of(s: Seq<u8>)
    requires
        s.len() == 8,
    ensures
        forall|i: int| 0 <= i < 8 ==> #[trigger] array_of(s)[i] == s[i],
{
    let a = spec_array_fill_for_copy_type::<u8, 8>(0u8);
    assert(a@.len() == 8);
}

/// The eight samples at index `k` of plane `p`, in frame order.
pub open spec fn time_vector(frames: Seq<Frame>, p: Plane, k: int) -> [u8; 8] {
    array_of(Seq::new(8, |i: int| plane_view(frames[i], p)[k]))
}

proof fn lemma_time_vector(frames: Seq<Frame>, p: Plane, k: int)
    ensures
        gathered(frames, p, k, time_vector(frames, p, k)),
{
    lemma_array_of(Seq::new(8, |i: int| plane_view(frames[i], p)[k]));
}

/// Permuting the frames of a chunk permutes the output frames alike, for an
/// operation along time that commutes with that permutation: the output at
/// a position depends on nothing but the eight samples at that position.
pub proof fn lemma_chunk_permutation<F: Fn([u8; 8]) -> [u8; 8]>(
    op: F,
    a: Seq<Frame>,
    b: Seq<Frame>,
    perm: Seq<int>,
    result_a: Seq<Frame>,
    result_b: Seq<Frame>,
)
    requires
        is_chunk(a),
        is_chunk(b),
        is_permutation(perm),
        frames_permuted(a, b, perm),
        forall|v: [u8; 8], w: [u8; 8], ov: [u8; 8], ow: [u8; 8]|
            vector_permuted(v, w, perm) && op.ensures((v,), ov) && op.ensures((w,), ow)
                ==> vector_permuted(ov, ow, perm),
        is_chunk(result_a),
        is_chunk(result_b),
        result_a[0].width == a[0].width && result_a[0].height == a[0].height
            && result_a[0].color_space == a[0].color_space,
        result_b[0].width == b[0].width && result_b[0].height == b[0].height
            && result_b[0].color_space == b[0].color_space,
        timewise(op, a, result_a),
        timewise(op, b, result_b),
    ensures
        frames_permuted(result_a, result_b, perm),
{
    assert forall|i: int, p: Plane| 0 <= i < 8 implies #[trigger] plane_view(result_b[i], p)
        == plane_view(result_a[perm[i]], p) by {
        let j = perm[i];
        assert(a[j].wf() && b[i].wf() && b[0].wf() && result_a[j].wf() && result_b[i].wf());
        assert(plane_view(b[0], p) == plane_view(a[perm[0]], p));
        assert(a[perm[0]].wf());
        let n = plane_view(a[0], p).len();
        assert(plane_view(result_b[i], p).len() == n);
        assert(plane_view(result_a[j], p).len() == n);
        assert forall|k: int| 0 <= k < n implies plane_view(result_b[i], p)[k] == plane_view(
            result_a[j],
            p,
        )[k] by {
            let va = time_vector(a, p, k);
            let vb = time_vector(b, p, k);
            let oa = time_vector(result_a, p, k);
            let ob = time_vector(result_b, p, k);
            lemma_time_vector(a, p, k);
            lemma_time_vector(b, p, k);
            lemma_time_vector(result_a, p, k);
            lemma_time_vector(result_b, p, k);
            assert(plane_view(b[0], p).len() == n);
            assert(op.ensures((va,), oa));
            assert(op.ensures((vb,), ob));
            assert forall|i2: int| 0 <= i2 < 8 implies #[trigger] vb[i2] == va[perm[i2]] by {
                assert(plane_view(b[i2], p) == plane_view(a[perm[i2]], p));
            }
            assert(vector_permuted(va, vb, perm));
            assert(vector_permuted(oa, ob, perm));
            assert(ob[i] == oa[j]);
        }
        assert(plane_view(result_b[i], p) =~= plane_view(result_a[j], p));
    }
}
} // verus!
