//! Frames of planar YUV video and the header that describes a stream of them.

use vstd::prelude::*;

verus! {

/// Interlacing of the frames of a stream.
#[derive(Debug, Clone, Copy, PartialEq, Eq, Structural)]
pub enum InterlaceMode {
    Unknown,
    Ip,
    It,
    Ib,
    Im,
}

/// Shape of the pixels of a stream.
#[derive(Debug, Clone, Copy, PartialEq, Eq, Structural)]
pub enum PixelAspectRatio {
    Unknown,
    Square,
    NtscSvcd,
    NtscDvdNarrow,
    NtscDvdWide,
}

/// Chroma subsampling of the frames of a stream.
#[derive(Debug, Clone, Copy, PartialEq, Eq, Structural)]
pub enum ColorSpace {
    /// 4:2:0 with biaxially-displaced chroma planes
    C420jpeg,
    /// 4:2:0 with vertically-displaced chroma planes
    C420paldv,
    /// 4:2:0 with coincident chroma planes
    C420,
    /// 4:2:2
    C422,
    /// 4:4:4
    C444,
    /// luma only
    Cmono,
    /// 4:2:0 as in MPEG-2
    C420mpeg2,
}

/// The parameters of a stream, as given by its header line.
#[derive(Debug, Clone, Copy, PartialEq, Eq, Structural)]
pub struct Header {
    pub width: usize,
    pub height: usize,
    pub frame_rate_numerator: usize,
    pub frame_rate_denominator: usize,
    pub interlace_mode: InterlaceMode,
    pub pixel_aspect_ratio: PixelAspectRatio,
    pub color_space: ColorSpace,
}

/// One frame: a luma plane and two chroma planes.
#[derive(Debug, Clone)]
pub struct Frame {
    pub width: usize,
    pub height: usize,
    pub color_space: ColorSpace,
    pub data_y: Vec<u8>,
    pub data_cb: Vec<u8>,
    pub data_cr: Vec<u8>,
}

/// The header that parsing starts from before any parameter is read.
pub open spec fn default_header() -> Header {
    Header {
        width: 0,
        height: 0,
        frame_rate_numerator: 0,
        frame_rate_denominator: 0,
        interlace_mode: InterlaceMode::Unknown,
        pixel_aspect_ratio: PixelAspectRatio::Unknown,
        color_space: ColorSpace::C420,
    }
}

impl Default for Header {
    fn default() -> (h: Header)
        ensures
            h == default_header(),
    {
        Header {
            width: 0,
            height: 0,
            frame_rate_numerator: 0,
            frame_rate_denominator: 0,
            interlace_mode: InterlaceMode::Unknown,
            pixel_aspect_ratio: PixelAspectRatio::Unknown,
            color_space: ColorSpace::C420,
        }
    }
}

/// Number of samples in each chroma plane of a `width`×`height` frame.
pub open spec fn chroma_len_of(color_space: ColorSpace, width: int, height: int) -> int {
    match color_space {
        ColorSpace::C444 | ColorSpace::Cmono => height * width,
        ColorSpace::C422 => height * width / 2,
        ColorSpace::C420
        | ColorSpace::C420jpeg
        | ColorSpace::C420mpeg2
        | ColorSpace::C420paldv => height * width / 4,
    }
}

/// Number of bytes that a frame of the stream occupies after its marker line.
pub open spec fn frame_len_of(header: Header) -> int {
    let area = header.width * header.height;
    match header.color_space {
        ColorSpace::C420
        | ColorSpace::C420jpeg
        | ColorSpace::C420mpeg2
        | ColorSpace::C420paldv => area * 3 / 2,
        ColorSpace::C422 => area * 2,
        ColorSpace::C444 | ColorSpace::Cmono => area * 3,
    }
}

/// Number of chroma samples per plane, computed without overflow.
pub fn chroma_len_from_space(color_space: ColorSpace, width: usize, height: usize) -> (r: usize)
    requires
        width * height <= usize::MAX,
    ensures
        r == chroma_len_of(color_space, width as int, height as int),
{
    proof {
        assert(height * width == width * height) by (nonlinear_arith);
    }
    match color_space {
        ColorSpace::C444 => height * width,
        ColorSpace::C422 => height * width / 2,
        ColorSpace::C420 | ColorSpace::C420jpeg | ColorSpace::C420mpeg2 | ColorSpace::C420paldv => {
            height * width / 4
        },
        ColorSpace::Cmono => height * width,
    }
}

impl Header {
    /// Bytes per frame, saturated at `usize::MAX` where the true count does not fit.
    pub fn frame_bytes_length(&self) -> (r: usize)
        ensures
            r as int == if frame_len_of(*self) <= usize::MAX {
                frame_len_of(*self)
            } else {
                usize::MAX as int
            },
    {
        let area = match self.width.checked_mul(self.height) {
            Some(a) => a,
            None => {
                proof {
                    assert(self.width * self.height <= frame_len_of(*self)) by (nonlinear_arith)
                        requires
                            self.width * self.height >= 0,
                            frame_len_of(*self) >= self.width * self.height,
                    ;
                }
                return usize::MAX;
            },
        };
        let total = match self.color_space {
            ColorSpace::C420
            | ColorSpace::C420jpeg
            | ColorSpace::C420mpeg2
            | ColorSpace::C420paldv => area.checked_add(area / 2),
            ColorSpace::C422 => area.checked_mul(2),
            ColorSpace::C444 | ColorSpace::Cmono => area.checked_mul(3),
        };
        match total {
            Some(t) => t,
            None => usize::MAX,
        }
    }
}

impl Frame {
    /// Plane lengths agree with the dimensions and the color space.
    pub open spec fn wf(&self) -> bool {
        &&& self.data_y@.len() == self.width * self.height
        &&& self.data_cb@.len() == chroma_len_of(self.color_space, self.width as int, self.height as int)
        &&& self.data_cr@.len() == chroma_len_of(self.color_space, self.width as int, self.height as int)
    }

    /// The planes one after another, as a frame is stored in a stream.
    pub open spec fn bytes(&self) -> Seq<u8> {
        self.data_y@ + self.data_cb@ + self.data_cr@
    }

    /// The planes are read from the front of `buf`: luma, then the two
    /// chroma planes.
    pub open spec fn read_from(&self, buf: Seq<u8>) -> bool {
        let y = self.data_y@.len() as int;
        let c = self.data_cb@.len() as int;
        &&& self.data_y@ == buf.subrange(0, y)
        &&& self.data_cb@ == buf.subrange(y, y + c)
        &&& self.data_cr@ == buf.subrange(y + c, y + 2 * c)
    }

    /// Whether the plane lengths agree with the dimensions and the color space.
    pub fn is_well_formed(&self) -> (r: bool)
        ensures
            r == self.wf(),
    {
        let luma_len = self.data_y.len();
        match self.width.checked_mul(self.height) {
            None => {
                assert(luma_len != self.width * self.height);
                false
            },
            Some(area) => {
                let chroma = chroma_len_from_space(self.color_space, self.width, self.height);
                luma_len == area && self.data_cb.len() == chroma && self.data_cr.len() == chroma
            },
        }
    }

    /// Number of samples in each chroma plane.
    pub fn chroma_len(&self) -> (r: usize)
        requires
            self.width * self.height <= usize::MAX,
        ensures
            r == chroma_len_of(self.color_space, self.width as int, self.height as int),
    {
        chroma_len_from_space(self.color_space, self.width, self.height)
    }

    /// Reads a frame from the front of `buf`: the luma plane, then the two
    /// chroma planes. Bytes past them are ignored.
    pub fn from_buf(buf: &[u8], width: usize, height: usize, color_space: ColorSpace) -> (f: Frame)
        requires
            width * height + 2 * chroma_len_of(color_space, width as int, height as int) <= buf@.len(),
        ensures
            f.wf(),
            f.width == width,
            f.height == height,
            f.color_space == color_space,
            f.read_from(buf@),
    {
        let available = buf.len();
        proof {
            assert(height * width == width * height) by (nonlinear_arith);
            assert(height * width <= available);
        }
        let y_len = height * width;
        let chroma_len = chroma_len_from_space(color_space, width, height);
        let data_y = copy_range(buf, 0, y_len);
        let data_cb = copy_range(buf, y_len, y_len + chroma_len);
        let data_cr = copy_range(buf, y_len + chroma_len, y_len + 2 * chroma_len);
        Frame { width, height, color_space, data_y, data_cb, data_cr }
    }

    /// The planes one after another: luma, then the two chroma planes.
    pub fn to_vec(&self) -> (r: Vec<u8>)
        ensures
            r@ == self.bytes(),
    {
        let mut out: Vec<u8> = Vec::new();
        append_bytes(&mut out, self.data_y.as_slice());
        append_bytes(&mut out, self.data_cb.as_slice());
        append_bytes(&mut out, self.data_cr.as_slice());
        proof {
            assert(out@ =~= self.bytes());
        }
        out
    }
}

/// A copy of `buf[start..end]`.
pub(crate) fn copy_range(buf: &[u8], start: usize, end: usize) -> (r: Vec<u8>)
    requires
        start <= end <= buf@.len(),
    ensures
        r@ == buf@.subrange(start as int, end as int),
{
    let mut r: Vec<u8> = Vec::new();
    let mut i: usize = start;
    while i < end
        invariant
            start <= i <= end <= buf@.len(),
            r@ == buf@.subrange(start as int, i as int),
        decreases end - i,
    {
        r.push(buf[i]);
        i += 1;
        proof {
            assert(r@ =~= buf@.subrange(start as int, i as int));
        }
    }
    r
}

/// Appends all of `src` to `out`.
pub(crate) fn append_bytes(out: &mut Vec<u8>, src: &[u8])
    ensures
        final(out)@ == old(out)@ + src@,
{
    let ghost start = out@;
    let mut i: usize = 0;
    while i < src.len()
        invariant
            i <= src@.len(),
            out@ == start + src@.take(i as int),
        decreases src@.len() - i,
    {
        out.push(src[i]);
        i += 1;
        proof {
            assert(out@ =~= start + src@.take(i as int));
        }
    }
    proof {
        assert(src@.take(src@.len() as int) =~= src@);
    }
}

} // verus!
