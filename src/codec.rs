//! Reading and writing YUV4MPEG2 streams without doing I/O: the caller reads
//! lines and frame data and hands them in, and takes the bytes to write out.

use vstd::prelude::*;

use crate::frame::{
    append_bytes, chroma_len_from_space, chroma_len_of, default_header, frame_len_of, ColorSpace,
    Frame, Header,
    InterlaceMode, PixelAspectRatio,
};
use crate::header::{
    all_digits, apply_param, apply_params, colon_at, decimal_value, digits_value, frame_rate_of,
    header_from_line, is_trailing_space, parse_header, split_spaces, strip_plus, trim_end, Error,
    COLON, DIGIT_ZERO, SPACE,
};

verus! {

/// The decimal digits of `n`, most significant first.
pub open spec fn decimal_digits(n: nat) -> Seq<u8>
    decreases n,
{
    if n < 10 {
        seq![(48 + n) as u8]
    } else {
        decimal_digits(n / 10).push((48 + n % 10) as u8)
    }
}

pub open spec fn interlace_text(m: InterlaceMode) -> Seq<u8> {
    match m {
        InterlaceMode::Unknown => seq![73u8, 63],
        InterlaceMode::Ip => seq![73u8, 112],
        InterlaceMode::It => seq![73u8, 116],
        InterlaceMode::Ib => seq![73u8, 98],
        InterlaceMode::Im => seq![73u8, 109],
    }
}

pub open spec fn aspect_text(a: PixelAspectRatio) -> Seq<u8> {
    match a {
        PixelAspectRatio::Unknown => seq![65u8, 48, 58, 48],
        PixelAspectRatio::Square => seq![65u8, 49, 58, 49],
        PixelAspectRatio::NtscSvcd => seq![65u8, 52, 58, 51],
        PixelAspectRatio::NtscDvdNarrow => seq![65u8, 52, 58, 53],
        PixelAspectRatio::NtscDvdWide => seq![65u8, 51, 50, 58, 50, 55],
    }
}

pub open spec fn color_text(c: ColorSpace) -> Seq<u8> {
    match c {
        ColorSpace::C420jpeg => seq![67u8, 52, 50, 48, 106, 112, 101, 103],
        ColorSpace::C420paldv => seq![67u8, 52, 50, 48, 112, 97, 108, 100, 118],
        ColorSpace::C420 => seq![67u8, 52, 50, 48],
        ColorSpace::C422 => seq![67u8, 52, 50, 50],
        ColorSpace::C444 => seq![67u8, 52, 52, 52],
        ColorSpace::Cmono => seq![67u8, 109, 111, 110, 111],
        ColorSpace::C420mpeg2 => seq![67u8, 52, 50, 48, 109, 112, 101, 103, 50],
    }
}

/// `YUV4MPEG2`
pub open spec fn signature_text() -> Seq<u8> {
    seq![89u8, 85, 86, 52, 77, 80, 69, 71, 50]
}

/// `FRAME` and a newline: the line before the data of each frame.
pub open spec fn frame_marker() -> Seq<u8> {
    seq![70u8, 82, 65, 77, 69, 10]
}

/// The space-separated tokens of a header line:
/// `YUV4MPEG2 W<width> H<height> F<num>:<den> <interlace> <aspect> <color>`.
pub open spec fn header_tokens(h: Header) -> Seq<Seq<u8>> {
    seq![
        signature_text(),
        seq![87u8] + decimal_digits(h.width as nat),
        seq![72u8] + decimal_digits(h.height as nat),
        seq![70u8] + decimal_digits(h.frame_rate_numerator as nat) + seq![COLON] + decimal_digits(
            h.frame_rate_denominator as nat,
        ),
        interlace_text(h.interlace_mode),
        aspect_text(h.pixel_aspect_ratio),
        color_text(h.color_space),
    ]
}

/// The header line of a stream: its tokens separated by single spaces, and a newline.
pub open spec fn header_line(h: Header) -> Seq<u8> {
    let t = header_tokens(h);
    t[0] + seq![SPACE] + t[1] + seq![SPACE] + t[2] + seq![SPACE] + t[3] + seq![SPACE] + t[4] + seq![
        SPACE,
    ] + t[5] + seq![SPACE] + t[6] + seq![10u8]
}

/// Appends the decimal digits of `n`.
fn push_decimal(out: &mut Vec<u8>, n: usize)
    ensures
        final(out)@ == old(out)@ + decimal_digits(n as nat),
    decreases n,
{
    if n >= 10 {
        push_decimal(out, n / 10);
    }
    out.push((48 + n % 10) as u8);
    assert(out@ =~= old(out)@ + decimal_digits(n as nat));
}

fn interlace_bytes(m: InterlaceMode) -> (r: Vec<u8>)
    ensures
        r@ == interlace_text(m),
{
    let r = match m {
        InterlaceMode::Unknown => vec![73u8, 63],
        InterlaceMode::Ip => vec![73u8, 112],
        InterlaceMode::It => vec![73u8, 116],
        InterlaceMode::Ib => vec![73u8, 98],
        InterlaceMode::Im => vec![73u8, 109],
    };
    assert(r@ =~= interlace_text(m));
    r
}

fn aspect_bytes(a: PixelAspectRatio) -> (r: Vec<u8>)
    ensures
        r@ == aspect_text(a),
{
    let r = match a {
        PixelAspectRatio::Unknown => vec![65u8, 48, 58, 48],
        PixelAspectRatio::Square => vec![65u8, 49, 58, 49],
        PixelAspectRatio::NtscSvcd => vec![65u8, 52, 58, 51],
        PixelAspectRatio::NtscDvdNarrow => vec![65u8, 52, 58, 53],
        PixelAspectRatio::NtscDvdWide => vec![65u8, 51, 50, 58, 50, 55],
    };
    assert(r@ =~= aspect_text(a));
    r
}

fn color_bytes(c: ColorSpace) -> (r: Vec<u8>)
    ensures
        r@ == color_text(c),
{
    let r = match c {
        ColorSpace::C420jpeg => vec![67u8, 52, 50, 48, 106, 112, 101, 103],
        ColorSpace::C420paldv => vec![67u8, 52, 50, 48, 112, 97, 108, 100, 118],
        ColorSpace::C420 => vec![67u8, 52, 50, 48],
        ColorSpace::C422 => vec![67u8, 52, 50, 50],
        ColorSpace::C444 => vec![67u8, 52, 52, 52],
        ColorSpace::Cmono => vec![67u8, 109, 111, 110, 111],
        ColorSpace::C420mpeg2 => vec![67u8, 52, 50, 48, 109, 112, 101, 103, 50],
    };
    assert(r@ =~= color_text(c));
    r
}

impl Header {
    /// The header line that describes this header, newline included.
    pub fn to_bytes(&self) -> (r: Vec<u8>)
        ensures
            r@ == header_line(*self),
    {
        let ghost t = header_tokens(*self);
        let mut out: Vec<u8> = vec![89u8, 85, 86, 52, 77, 80, 69, 71, 50, 32, 87];
        push_decimal(&mut out, self.width);
        assert(out@ =~= t[0] + seq![SPACE] + t[1]);
        append_bytes(&mut out, &[32u8, 72]);
        push_decimal(&mut out, self.height);
        assert(out@ =~= t[0] + seq![SPACE] + t[1] + seq![SPACE] + t[2]);
        let ghost p2 = out@;
        append_bytes(&mut out, &[32u8, 70]);
        push_decimal(&mut out, self.frame_rate_numerator);
        append_bytes(&mut out, &[58u8]);
        push_decimal(&mut out, self.frame_rate_denominator);
        assert(out@ =~= p2 + seq![SPACE] + t[3]);
        let ghost p3 = out@;
        append_bytes(&mut out, &[32u8]);
        let interlace = interlace_bytes(self.interlace_mode);
        append_bytes(&mut out, interlace.as_slice());
        assert(out@ =~= p3 + seq![SPACE] + t[4]);
        let ghost p4 = out@;
        append_bytes(&mut out, &[32u8]);
        let aspect = aspect_bytes(self.pixel_aspect_ratio);
        append_bytes(&mut out, aspect.as_slice());
        assert(out@ =~= p4 + seq![SPACE] + t[5]);
        let ghost p5 = out@;
        append_bytes(&mut out, &[32u8]);
        let color = color_bytes(self.color_space);
        append_bytes(&mut out, color.as_slice());
        append_bytes(&mut out, &[10u8]);
        assert(out@ =~= p5 + seq![SPACE] + t[6] + seq![10u8]);
        out
    }
}

/// A stream whose header line has not been read yet.
pub struct Decoder {}

impl Decoder {
    pub fn new() -> Decoder {
        Decoder {}
    }

    /// Reads the header line of the stream; the result reads its frames.
    pub fn read_header(self, line: &[u8]) -> (r: Result<Y4MReader, Error>)
        ensures
            match r {
                Ok(reader) => header_from_line(line@) == Ok::<Header, Error>(reader.header),
                Err(e) => header_from_line(line@) == Err::<Header, Error>(e),
            },
    {
        match parse_header(line) {
            Ok(header) => Ok(Y4MReader { header }),
            Err(e) => Err(e),
        }
    }
}

/// A stream whose header has been read: it reads frames.
pub struct Y4MReader {
    pub header: Header,
}

/// `n` bytes hold the three planes of a frame of the stream.
pub open spec fn planes_fit(header: Header, n: int) -> bool {
    planes_len(header) <= n
}

impl Y4MReader {
    /// Reads one frame from its marker line and the `frame_bytes_length()`
    /// bytes that follow it. An empty marker line is the end of the stream.
    pub fn next_frame(&self, marker_line: &[u8], data: &[u8]) -> (r: Result<Option<Frame>, Error>)
        ensures
            marker_line@.len() == 0 ==> r == Ok::<Option<Frame>, Error>(None),
            marker_line@.len() > 0 && !planes_fit(self.header, data@.len() as int) ==> r == Err::<
                Option<Frame>,
                Error,
            >(Error::DecodeFrame),
            marker_line@.len() > 0 && planes_fit(self.header, data@.len() as int) ==> {
                &&& r matches Ok(Some(f))
                &&& f.wf()
                &&& f.width == self.header.width
                &&& f.height == self.header.height
                &&& f.color_space == self.header.color_space
                &&& f.read_from(data@)
            },
    {
        if marker_line.len() == 0 {
            return Ok(None);
        }
        let width = self.header.width;
        let height = self.header.height;
        let available = data.len();
        proof {
            lemma_chroma_nonneg(self.header.color_space, width as int, height as int);
        }
        let area = match width.checked_mul(height) {
            Some(a) => a,
            None => {
                return Err(Error::DecodeFrame);
            },
        };
        if area > available {
            return Err(Error::DecodeFrame);
        }
        let chroma = chroma_len_from_space(self.header.color_space, width, height);
        if chroma > (available - area) / 2 {
            return Err(Error::DecodeFrame);
        }
        Ok(Some(Frame::from_buf(data, width, height, self.header.color_space)))
    }
}

/// Bytes needed for the three planes of a frame of the stream.
pub open spec fn planes_len(header: Header) -> int {
    header.width * header.height + 2 * chroma_len_of(
        header.color_space,
        header.width as int,
        header.height as int,
    )
}

/// Where the dimensions divide by the subsampling ratios, a frame's byte
/// count is exactly the length of its three planes.
pub proof fn lemma_frame_len_is_planes_len(header: Header)
    requires
        (header.width * header.height) % 4 == 0,
    ensures
        frame_len_of(header) == planes_len(header),
{
    let area = header.width * header.height;
    vstd::arithmetic::mul::lemma_mul_is_commutative(header.width as int, header.height as int);
    assert(area == 4 * (area / 4));
}

proof fn lemma_chroma_nonneg(c: ColorSpace, width: int, height: int)
    requires
        width >= 0,
        height >= 0,
    ensures
        chroma_len_of(c, width, height) >= 0,
{
    assert(height * width >= 0) by (nonlinear_arith)
        requires
            width >= 0,
            height >= 0,
    ;
}

/// A stream whose header has not been written yet.
pub struct Encoder {}

impl Encoder {
    pub fn new() -> Encoder {
        Encoder {}
    }

    /// Writes the header line; the result writes frames.
    pub fn write_header(self, header: &Header) -> (w: Y4MWriter)
        ensures
            w.header == *header,
            w.pending@ == header_line(*header),
    {
        Y4MWriter { header: *header, pending: header.to_bytes() }
    }
}

/// A stream whose header has been written: it writes frames. The bytes
/// written and not yet taken are in `pending`.
pub struct Y4MWriter {
    pub header: Header,
    pub pending: Vec<u8>,
}

impl Y4MWriter {
    /// Writes a frame: its marker line, then its planes.
    pub fn write_frame(&mut self, frame: Frame)
        ensures
            final(self).header == old(self).header,
            final(self).pending@ == old(self).pending@ + frame_marker() + frame.bytes(),
    {
        append_bytes(&mut self.pending, &[70u8, 82, 65, 77, 69, 10]);
        let bytes = frame.to_vec();
        append_bytes(&mut self.pending, bytes.as_slice());
        assert(self.pending@ =~= old(self).pending@ + frame_marker() + frame.bytes());
    }

    /// Hands out the bytes written so far, leaving none pending.
    pub fn take_bytes(&mut self) -> (r: Vec<u8>)
        ensures
            r@ == old(self).pending@,
            final(self).pending@.len() == 0,
            final(self).header == old(self).header,
    {
        let mut r: Vec<u8> = Vec::new();
        std::mem::swap(&mut r, &mut self.pending);
        r
    }
}

/// The digits of a number read back as that number.
proof fn lemma_decimal_digits(n: nat)
    ensures
        decimal_digits(n).len() >= 1,
        all_digits(decimal_digits(n)),
        digits_value(decimal_digits(n)) == n,
    decreases n,
{
    let d = decimal_digits(n);
    if n >= 10 {
        lemma_decimal_digits(n / 10);
        assert(d.drop_last() =~= decimal_digits(n / 10));
        assert(d.last() == (48 + n % 10) as u8);
        assert(d.last() - DIGIT_ZERO == n % 10);
        assert(digits_value(d) == digits_value(d.drop_last()) * 10 + (d.last() - DIGIT_ZERO));
        assert(n == (n / 10) * 10 + n % 10);
    } else {
        assert(d.drop_last() =~= Seq::<u8>::empty());
        assert(digits_value(d.drop_last()) == 0);
    }
}

proof fn lemma_decimal_round_trip(n: usize)
    ensures
        decimal_value(decimal_digits(n as nat)) == Some(n),
        forall|i: int|
            0 <= i < decimal_digits(n as nat).len() ==> decimal_digits(n as nat)[i] != SPACE
                && decimal_digits(n as nat)[i] != COLON,
{
    lemma_decimal_digits(n as nat);
    let d = decimal_digits(n as nat);
    assert(strip_plus(d) == d);
}

/// A piece without spaces splits into itself.
proof fn lemma_split_no_space(b: Seq<u8>)
    requires
        forall|i: int| 0 <= i < b.len() ==> b[i] != SPACE,
    ensures
        split_spaces(b) == seq![b],
    decreases b.len(),
{
    if b.len() == 0 {
        assert(b =~= Seq::<u8>::empty());
        assert(split_spaces(b) =~= seq![b]);
    } else {
        lemma_split_no_space(b.drop_last());
        assert(b[b.len() - 1] != SPACE);
        assert(b.drop_last().push(b.last()) =~= b);
        let t = split_spaces(b.drop_last());
        assert(t == seq![b.drop_last()]);
        assert(split_spaces(b) == t.update(t.len() - 1, t.last().push(b.last())));
        assert(t.update(0, b) =~= seq![b]);
    }
}

/// A space followed by a piece without spaces adds that piece.
proof fn lemma_split_append(a: Seq<u8>, b: Seq<u8>)
    requires
        forall|i: int| 0 <= i < b.len() ==> b[i] != SPACE,
    ensures
        split_spaces(a + seq![SPACE] + b) == split_spaces(a).push(b),
    decreases b.len(),
{
    let s = a + seq![SPACE] + b;
    if b.len() == 0 {
        assert(b =~= Seq::<u8>::empty());
        assert(s.drop_last() =~= a);
        assert(s.last() == SPACE);
        assert(split_spaces(s) =~= split_spaces(a).push(b));
    } else {
        lemma_split_append(a, b.drop_last());
        assert(s.drop_last() =~= a + seq![SPACE] + b.drop_last());
        assert(b[b.len() - 1] != SPACE);
        assert(s.last() == b.last());
        assert(b.drop_last().push(b.last()) =~= b);
        assert(split_spaces(s) =~= split_spaces(a).push(b));
    }
}

proof fn lemma_no_colon(a: Seq<u8>)
    requires
        forall|i: int| 0 <= i < a.len() ==> a[i] != COLON,
    ensures
        colon_at(a) == -1,
    decreases a.len(),
{
    if a.len() > 0 {
        lemma_no_colon(a.drop_last());
    }
}

proof fn lemma_colon_extend(x: Seq<u8>, b: Seq<u8>)
    requires
        colon_at(x) >= 0,
    ensures
        colon_at(x + b) == colon_at(x),
    decreases b.len(),
{
    if b.len() == 0 {
        assert(x + b =~= x);
    } else {
        lemma_colon_extend(x, b.drop_last());
        assert((x + b).drop_last() =~= x + b.drop_last());
    }
}

proof fn lemma_apply_params_push(h: Header, toks: Seq<Seq<u8>>, t: Seq<u8>)
    ensures
        apply_params(h, toks.push(t)) == match apply_params(h, toks) {
            Ok(h2) => apply_param(h2, t),
            Err(e) => Err(e),
        },
{
    assert(toks.push(t).drop_last() =~= toks);
}

proof fn lemma_tagged_digits(tag: u8, n: usize)
    requires
        tag != SPACE,
    ensures
        forall|i: int|
            0 <= i < (seq![tag] + decimal_digits(n as nat)).len() ==> (seq![tag] + decimal_digits(
                n as nat,
            ))[i] != SPACE,
        (seq![tag] + decimal_digits(n as nat)).skip(1) == decimal_digits(n as nat),
        (seq![tag] + decimal_digits(n as nat))[0] == tag,
        (seq![tag] + decimal_digits(n as nat)).len() >= 1,
{
    lemma_decimal_round_trip(n);
    let t = seq![tag] + decimal_digits(n as nat);
    assert forall|i: int| 0 <= i < t.len() implies t[i] != SPACE by {
        if i > 0 {
            assert(t[i] == decimal_digits(n as nat)[i - 1]);
        }
    }
    assert(t.skip(1) =~= decimal_digits(n as nat));
}

/// Reading a frame rate written `n:d` gives `n` and `d`.
proof fn lemma_rate_round_trip(n: usize, d: usize)
    ensures
        forall|i: int|
            0 <= i < (seq![70u8] + decimal_digits(n as nat) + seq![COLON] + decimal_digits(
                d as nat,
            )).len() ==> (seq![70u8] + decimal_digits(n as nat) + seq![COLON] + decimal_digits(
                d as nat,
            ))[i] != SPACE,
        frame_rate_of(
            (seq![70u8] + decimal_digits(n as nat) + seq![COLON] + decimal_digits(d as nat)).skip(1),
        ) == Some((n, d)),
        (seq![70u8] + decimal_digits(n as nat) + seq![COLON] + decimal_digits(d as nat))[0] == 70,
        (seq![70u8] + decimal_digits(n as nat) + seq![COLON] + decimal_digits(d as nat)).len() >= 1,
{
    let dn = decimal_digits(n as nat);
    let dd = decimal_digits(d as nat);
    lemma_decimal_round_trip(n);
    lemma_decimal_round_trip(d);
    let t = seq![70u8] + dn + seq![COLON] + dd;
    assert forall|i: int| 0 <= i < t.len() implies t[i] != SPACE by {
        if 1 <= i < 1 + dn.len() {
            assert(t[i] == dn[i - 1]);
        } else if i > 1 + dn.len() {
            assert(t[i] == dd[i - 2 - dn.len()]);
        }
    }
    let rate = dn + seq![COLON] + dd;
    assert(t.skip(1) =~= rate);
    lemma_no_colon(dn);
    assert((dn + seq![COLON]).drop_last() =~= dn);
    assert(colon_at(dn + seq![COLON]) == dn.len());
    lemma_colon_extend(dn + seq![COLON], dd);
    assert(colon_at(rate) == dn.len());
    assert(rate.take(dn.len() as int) =~= dn);
    assert(rate.skip(dn.len() as int + 1) =~= dd);
}

proof fn lemma_text_tokens(h: Header)
    ensures
        forall|i: int|
            0 <= i < interlace_text(h.interlace_mode).len() ==> interlace_text(h.interlace_mode)[i]
                != SPACE,
        forall|i: int|
            0 <= i < aspect_text(h.pixel_aspect_ratio).len() ==> aspect_text(h.pixel_aspect_ratio)[i]
                != SPACE,
        forall|i: int| 0 <= i < color_text(h.color_space).len() ==> color_text(h.color_space)[i] != SPACE,
        !is_trailing_space(color_text(h.color_space).last()),
        color_text(h.color_space).len() > 0,
{
}

proof fn lemma_param_interlace(h: Header, m: InterlaceMode)
    requires
        m != InterlaceMode::Unknown,
    ensures
        apply_param(h, interlace_text(m)) == Ok::<Header, Error>(Header { interlace_mode: m, ..h }),
{
}

proof fn lemma_param_aspect(h: Header, a: PixelAspectRatio)
    ensures
        apply_param(h, aspect_text(a)) == Ok::<Header, Error>(Header { pixel_aspect_ratio: a, ..h }),
{
}

proof fn lemma_param_color(h: Header, c: ColorSpace)
    ensures
        apply_param(h, color_text(c)) == Ok::<Header, Error>(Header { color_space: c, ..h }),
{
}

/// The tokens of a header line, once its newline is trimmed.
proof fn lemma_header_line_tokens(h: Header)
    ensures
        split_spaces(trim_end(header_line(h))) == header_tokens(h),
{
    let toks = header_tokens(h);
    lemma_tagged_digits(87, h.width);
    lemma_tagged_digits(72, h.height);
    lemma_rate_round_trip(h.frame_rate_numerator, h.frame_rate_denominator);
    lemma_text_tokens(h);
    let p1 = toks[0] + seq![SPACE] + toks[1];
    let p2 = p1 + seq![SPACE] + toks[2];
    let p3 = p2 + seq![SPACE] + toks[3];
    let p4 = p3 + seq![SPACE] + toks[4];
    let p5 = p4 + seq![SPACE] + toks[5];
    let body = p5 + seq![SPACE] + toks[6];
    assert(header_line(h) == body + seq![10u8]);
    assert((body + seq![10u8]).drop_last() =~= body);
    assert(body.last() == toks[6].last());
    assert(trim_end(body) == body);
    assert(trim_end(body + seq![10u8]) == body);
    lemma_split_no_space(toks[0]);
    lemma_split_append(toks[0], toks[1]);
    lemma_split_append(p1, toks[2]);
    lemma_split_append(p2, toks[3]);
    lemma_split_append(p3, toks[4]);
    lemma_split_append(p4, toks[5]);
    lemma_split_append(p5, toks[6]);
    assert(split_spaces(body) =~= toks);
}

/// Reading the parameter tokens of a header line from the default header
/// gives the header back.
proof fn lemma_header_params(h: Header)
    requires
        h.interlace_mode != InterlaceMode::Unknown,
    ensures
        apply_params(default_header(), header_tokens(h).skip(1)) == Ok::<Header, Error>(h),
{
    let toks = header_tokens(h);
    let h0 = default_header();
    lemma_tagged_digits(87, h.width);
    lemma_tagged_digits(72, h.height);
    lemma_rate_round_trip(h.frame_rate_numerator, h.frame_rate_denominator);
    let h1 = Header { width: h.width, ..h0 };
    let h2 = Header { height: h.height, ..h1 };
    let h3 = Header {
        frame_rate_numerator: h.frame_rate_numerator,
        frame_rate_denominator: h.frame_rate_denominator,
        ..h2
    };
    let h4 = Header { interlace_mode: h.interlace_mode, ..h3 };
    let h5 = Header { pixel_aspect_ratio: h.pixel_aspect_ratio, ..h4 };
    lemma_decimal_round_trip(h.width);
    lemma_decimal_round_trip(h.height);
    assert(toks[1] == seq![87u8] + decimal_digits(h.width as nat));
    assert(toks[2] == seq![72u8] + decimal_digits(h.height as nat));
    assert(apply_param(h0, toks[1]) == Ok::<Header, Error>(h1));
    assert(apply_param(h1, toks[2]) == Ok::<Header, Error>(h2));
    assert(apply_param(h2, toks[3]) == Ok::<Header, Error>(h3));
    lemma_param_interlace(h3, h.interlace_mode);
    lemma_param_aspect(h4, h.pixel_aspect_ratio);
    lemma_param_color(h5, h.color_space);
    let s0 = Seq::<Seq<u8>>::empty();
    let s1 = s0.push(toks[1]);
    let s2 = s1.push(toks[2]);
    let s3 = s2.push(toks[3]);
    let s4 = s3.push(toks[4]);
    let s5 = s4.push(toks[5]);
    let s6 = s5.push(toks[6]);
    lemma_apply_params_push(h0, s0, toks[1]);
    lemma_apply_params_push(h0, s1, toks[2]);
    lemma_apply_params_push(h0, s2, toks[3]);
    lemma_apply_params_push(h0, s3, toks[4]);
    lemma_apply_params_push(h0, s4, toks[5]);
    lemma_apply_params_push(h0, s5, toks[6]);
    assert(toks.skip(1) =~= s6);
}

/// Parsing the header line of a header gives the header back, for every
/// header with a known interlace mode (an unknown one is written `I?`,
/// which parsing refuses).
pub proof fn lemma_header_round_trip(h: Header)
    requires
        h.interlace_mode != InterlaceMode::Unknown,
    ensures
        header_from_line(header_line(h)) == Ok::<Header, Error>(h),
{
    lemma_header_line_tokens(h);
    lemma_header_params(h);
}

} // verus!
