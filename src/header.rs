//! The YUV4MPEG2 stream header line: parsing from bytes and writing to bytes.
//!
//! Literals are written as ASCII codes: `W` 87, `H` 72, `F` 70, `I` 73,
//! `A` 65, `C` 67, `:` 58, `+` 43, space 32, `0` 48.

use vstd::prelude::*;
use vstd::string::StringSliceAdditionalSpecFns;

use crate::frame::{default_header, ColorSpace, Header, InterlaceMode, PixelAspectRatio};

verus! {

/// Why a stream could not be decoded.
#[derive(Debug, Clone, Copy, PartialEq, Eq, Structural)]
pub enum Error {
    /// The header line does not start with the stream signature, or holds an empty parameter.
    DecodeHeader,
    /// A width or height is not a decimal number that fits a `usize`.
    DecodeDimensions,
    /// The color space token is not one of the known ones.
    DecodeColorSpace,
    /// The frame rate is not two decimal numbers separated by `:`.
    DecodeFrameRate,
    /// The interlace token is not one of the known ones.
    DecodeInterlaceMode,
    /// The data of a frame is shorter than its planes.
    DecodeFrame,
}

pub const SPACE: u8 = 32;

pub const COLON: u8 = 58;

pub const PLUS: u8 = 43;

pub const DIGIT_ZERO: u8 = 48;

/// The bytes that `str::trim_end` removes from the end of an ASCII line.
pub open spec fn is_trailing_space(b: u8) -> bool {
    b == SPACE || (9 <= b && b <= 13)
}

/// `s` without its trailing whitespace.
pub open spec fn trim_end(s: Seq<u8>) -> Seq<u8>
    decreases s.len(),
{
    if s.len() > 0 && is_trailing_space(s.last()) {
        trim_end(s.drop_last())
    } else {
        s
    }
}

/// The pieces of `s` between single spaces, empty pieces included.
pub open spec fn split_spaces(s: Seq<u8>) -> Seq<Seq<u8>>
    decreases s.len(),
{
    if s.len() == 0 {
        seq![Seq::empty()]
    } else {
        let t = split_spaces(s.drop_last());
        if s.last() == SPACE {
            t.push(Seq::empty())
        } else {
            t.update(t.len() - 1, t.last().push(s.last()))
        }
    }
}

pub open spec fn is_digit(b: u8) -> bool {
    DIGIT_ZERO <= b && b <= DIGIT_ZERO + 9
}

pub open spec fn all_digits(d: Seq<u8>) -> bool {
    forall|i: int| 0 <= i < d.len() ==> is_digit(d[i])
}

/// `s` without one leading `+`.
pub open spec fn strip_plus(s: Seq<u8>) -> Seq<u8> {
    if s.len() > 0 && s[0] == PLUS {
        s.skip(1)
    } else {
        s
    }
}

/// The number that a sequence of decimal digits writes.
pub open spec fn digits_value(s: Seq<u8>) -> int
    decreases s.len(),
{
    if s.len() == 0 {
        0
    } else {
        digits_value(s.drop_last()) * 10 + (s.last() - DIGIT_ZERO)
    }
}

/// What `usize::from_str` accepts: an optional `+`, then one or more decimal
/// digits whose value fits.
pub open spec fn decimal_value(s: Seq<u8>) -> Option<usize> {
    let d = strip_plus(s);
    if d.len() > 0 && all_digits(d) && digits_value(d) <= usize::MAX {
        Some(digits_value(d) as usize)
    } else {
        None
    }
}

/// Index of the first `:` of `s`, or -1.
pub open spec fn colon_at(s: Seq<u8>) -> int
    decreases s.len(),
{
    if s.len() == 0 {
        -1
    } else if colon_at(s.drop_last()) >= 0 {
        colon_at(s.drop_last())
    } else if s.last() == COLON {
        s.len() - 1
    } else {
        -1
    }
}

/// Numerator and denominator of a frame rate written `n:d`.
pub open spec fn frame_rate_of(s: Seq<u8>) -> Option<(usize, usize)> {
    let p = colon_at(s);
    if p < 0 {
        None
    } else {
        match (decimal_value(s.take(p)), decimal_value(s.skip(p + 1))) {
            (Some(n), Some(d)) => Some((n, d)),
            _ => None,
        }
    }
}

pub open spec fn interlace_of(tok: Seq<u8>) -> Option<InterlaceMode> {
    if tok == seq![73u8, 112] {
        Some(InterlaceMode::Ip)
    } else if tok == seq![73u8, 116] {
        Some(InterlaceMode::It)
    } else if tok == seq![73u8, 98] {
        Some(InterlaceMode::Ib)
    } else if tok == seq![73u8, 109] {
        Some(InterlaceMode::Im)
    } else {
        None
    }
}

pub open spec fn aspect_of(tok: Seq<u8>) -> PixelAspectRatio {
    if tok == seq![65u8, 49, 58, 49] {
        PixelAspectRatio::Square
    } else if tok == seq![65u8, 52, 58, 51] {
        PixelAspectRatio::NtscSvcd
    } else if tok == seq![65u8, 52, 58, 53] {
        PixelAspectRatio::NtscDvdNarrow
    } else if tok == seq![65u8, 51, 50, 58, 50, 55] {
        PixelAspectRatio::NtscDvdWide
    } else {
        PixelAspectRatio::Unknown
    }
}

pub open spec fn color_of(tok: Seq<u8>) -> Option<ColorSpace> {
    if tok == seq![67u8, 52, 50, 48, 106, 112, 101, 103] {
        Some(ColorSpace::C420jpeg)
    } else if tok == seq![67u8, 52, 50, 48, 112, 97, 108, 100, 118] {
        Some(ColorSpace::C420paldv)
    } else if tok == seq![67u8, 52, 50, 48] {
        Some(ColorSpace::C420)
    } else if tok == seq![67u8, 52, 50, 50] {
        Some(ColorSpace::C422)
    } else if tok == seq![67u8, 52, 52, 52] {
        Some(ColorSpace::C444)
    } else if tok == seq![67u8, 109, 111, 110, 111] {
        Some(ColorSpace::Cmono)
    } else if tok == seq![67u8, 52, 50, 48, 109, 112, 101, 103, 50] {
        Some(ColorSpace::C420mpeg2)
    } else {
        None
    }
}

/// The header after reading one parameter token; tokens of unknown kinds
/// (comments `X...` among them) change nothing.
pub open spec fn apply_param(h: Header, tok: Seq<u8>) -> Result<Header, Error> {
    if tok.len() == 0 {
        Err(Error::DecodeHeader)
    } else if tok[0] == 87 {
        match decimal_value(tok.skip(1)) {
            Some(v) => Ok(Header { width: v, ..h }),
            None => Err(Error::DecodeDimensions),
        }
    } else if tok[0] == 72 {
        match decimal_value(tok.skip(1)) {
            Some(v) => Ok(Header { height: v, ..h }),
            None => Err(Error::DecodeDimensions),
        }
    } else if tok[0] == 70 {
        match frame_rate_of(tok.skip(1)) {
            Some((n, d)) => Ok(Header { frame_rate_numerator: n, frame_rate_denominator: d, ..h }),
            None => Err(Error::DecodeFrameRate),
        }
    } else if tok[0] == 73 {
        match interlace_of(tok) {
            Some(m) => Ok(Header { interlace_mode: m, ..h }),
            None => Err(Error::DecodeInterlaceMode),
        }
    } else if tok[0] == 65 {
        Ok(Header { pixel_aspect_ratio: aspect_of(tok), ..h })
    } else if tok[0] == 67 {
        match color_of(tok) {
            Some(c) => Ok(Header { color_space: c, ..h }),
            None => Err(Error::DecodeColorSpace),
        }
    } else {
        Ok(h)
    }
}

/// The header after reading the tokens in order; the first error stops it.
pub open spec fn apply_params(h: Header, toks: Seq<Seq<u8>>) -> Result<Header, Error>
    decreases toks.len(),
{
    if toks.len() == 0 {
        Ok(h)
    } else {
        match apply_params(h, toks.drop_last()) {
            Ok(h2) => apply_param(h2, toks.last()),
            Err(e) => Err(e),
        }
    }
}

/// ASCII lower case of a byte.
pub open spec fn ascii_lower(b: u8) -> u8 {
    if 65 <= b && b <= 90 {
        (b + 32) as u8
    } else {
        b
    }
}

/// `yuv4mpeg2`
pub open spec fn signature_lower() -> Seq<u8> {
    seq![121u8, 117, 118, 52, 109, 112, 101, 103, 50]
}

/// The token is the stream signature, in any letter case.
pub open spec fn is_signature(tok: Seq<u8>) -> bool {
    tok.len() == 9 && forall|i: int| 0 <= i < 9 ==> ascii_lower(tok[i]) == signature_lower()[i]
}

/// The header that a header line describes, or why it describes none.
pub open spec fn header_from_line(line: Seq<u8>) -> Result<Header, Error> {
    let toks = split_spaces(trim_end(line));
    if is_signature(toks[0]) {
        apply_params(default_header(), toks.skip(1))
    } else {
        Err(Error::DecodeHeader)
    }
}

/// `s[start..end]` equals `lit`.
fn range_is(s: &[u8], start: usize, end: usize, lit: &[u8]) -> (r: bool)
    requires
        start <= end <= s@.len(),
    ensures
        r == (s@.subrange(start as int, end as int) == lit@),
{
    if end - start != lit.len() {
        return false;
    }
    let mut i: usize = 0;
    while i < lit.len()
        invariant
            start <= end <= s@.len(),
            end - start == lit@.len(),
            i <= lit@.len(),
            forall|j: int| 0 <= j < i ==> s@[start + j] == lit@[j],
        decreases lit@.len() - i,
    {
        if s[start + i] != lit[i] {
            return false;
        }
        i += 1;
    }
    assert(s@.subrange(start as int, end as int) =~= lit@);
    true
}

/// Length of `line` without its trailing whitespace.
fn trimmed_len(line: &[u8]) -> (end: usize)
    ensures
        end <= line@.len(),
        line@.take(end as int) == trim_end(line@),
{
    let mut end = line.len();
    assert(line@.take(end as int) =~= line@);
    while end > 0 && (line[end - 1] == SPACE || (9 <= line[end - 1] && line[end - 1] <= 13))
        invariant
            end <= line@.len(),
            trim_end(line@.take(end as int)) == trim_end(line@),
        decreases end,
    {
        assert(line@.take(end as int).drop_last() =~= line@.take(end - 1));
        end -= 1;
    }
    end
}

/// The range `[start, end)` of `s` holds the piece.
pub open spec fn range_holds(s: Seq<u8>, range: (usize, usize), piece: Seq<u8>) -> bool {
    &&& range.0 <= range.1 <= s.len()
    &&& s.subrange(range.0 as int, range.1 as int) == piece
}

/// The ranges hold the pieces, one for one.
pub open spec fn ranges_hold(s: Seq<u8>, ranges: Seq<(usize, usize)>, pieces: Seq<Seq<u8>>) -> bool {
    &&& ranges.len() == pieces.len()
    &&& forall|j: int| 0 <= j < ranges.len() ==> #[trigger] range_holds(s, ranges[j], pieces[j])
}

proof fn lemma_ranges_push(
    s: Seq<u8>,
    ranges: Seq<(usize, usize)>,
    pieces: Seq<Seq<u8>>,
    r: (usize, usize),
    piece: Seq<u8>,
)
    requires
        ranges_hold(s, ranges, pieces),
        r.0 <= r.1 <= s.len(),
        s.subrange(r.0 as int, r.1 as int) == piece,
    ensures
        ranges_hold(s, ranges.push(r), pieces.push(piece)),
{
    assert forall|j: int| 0 <= j < ranges.len() + 1 implies #[trigger] range_holds(
        s,
        ranges.push(r)[j],
        pieces.push(piece)[j],
    ) by {
        if j < ranges.len() {
            assert(ranges.push(r)[j] == ranges[j]);
            assert(pieces.push(piece)[j] == pieces[j]);
        } else {
            assert(ranges.push(r)[j] == r);
            assert(pieces.push(piece)[j] == piece);
        }
    }
}

/// A line always has at least one piece.
proof fn lemma_split_nonempty(s: Seq<u8>)
    ensures
        split_spaces(s).len() >= 1,
    decreases s.len(),
{
    if s.len() > 0 {
        lemma_split_nonempty(s.drop_last());
    }
}

/// Once a prefix of the tokens fails, the whole sequence fails the same way.
proof fn lemma_error_sticks(h: Header, t: Seq<Seq<u8>>, n: int)
    requires
        0 <= n <= t.len(),
        apply_params(h, t.take(n)) is Err,
    ensures
        apply_params(h, t) == apply_params(h, t.take(n)),
    decreases t.len(),
{
    if n == t.len() {
        assert(t.take(n) =~= t);
    } else {
        assert(t.drop_last().take(n) =~= t.take(n));
        lemma_error_sticks(h, t.drop_last(), n);
    }
}

/// Where the space-separated pieces of `line[..end]` lie.
fn token_ranges(line: &[u8], end: usize) -> (r: Vec<(usize, usize)>)
    requires
        end <= line@.len(),
    ensures
        ranges_hold(line@, r@, split_spaces(line@.take(end as int))),
{
    let mut ranges: Vec<(usize, usize)> = Vec::new();
    let ghost mut pieces: Seq<Seq<u8>> = Seq::empty();
    let mut start: usize = 0;
    let mut i: usize = 0;
    assert(line@.take(0) =~= Seq::<u8>::empty());
    assert(line@.subrange(0, 0) =~= Seq::<u8>::empty());
    while i < end
        invariant
            end <= line@.len(),
            start <= i <= end,
            ranges_hold(line@, ranges@, pieces),
            split_spaces(line@.take(i as int)) == pieces.push(line@.subrange(start as int, i as int)),
        decreases end - i,
    {
        assert(line@.take(i + 1).drop_last() =~= line@.take(i as int));
        let ghost old_ranges = ranges@;
        if line[i] == SPACE {
            ranges.push((start, i));
            proof {
                lemma_ranges_push(line@, old_ranges, pieces, (start, i), line@.subrange(start as int, i as int));
                pieces = pieces.push(line@.subrange(start as int, i as int));
                assert(line@.subrange(i + 1, i + 1) =~= Seq::<u8>::empty());
            }
            start = i + 1;
        } else {
            assert(line@.subrange(start as int, i as int).push(line@[i as int]) =~= line@.subrange(
                start as int,
                i + 1,
            ));
        }
        i += 1;
    }
    let ghost old_ranges = ranges@;
    ranges.push((start, end));
    proof {
        lemma_ranges_push(line@, old_ranges, pieces, (start, end), line@.subrange(start as int, end as int));
        assert(line@.take(end as int) =~= line@.take(i as int));
        pieces = pieces.push(line@.subrange(start as int, end as int));
    }
    ranges
}

/// The value of the decimal number `line[start..end]`, as `usize::from_str` reads it.
fn parse_decimal(line: &[u8], start: usize, end: usize) -> (r: Option<usize>)
    requires
        start <= end <= line@.len(),
    ensures
        r == decimal_value(line@.subrange(start as int, end as int)),
{
    let ghost s = line@.subrange(start as int, end as int);
    let mut i = start;
    if i < end && line[i] == PLUS {
        i += 1;
    }
    let ghost d = line@.subrange(i as int, end as int);
    assert(d == strip_plus(s)) by {
        assert(s.len() > 0 && s[0] == PLUS ==> d =~= s.skip(1));
        assert(!(s.len() > 0 && s[0] == PLUS) ==> d =~= s);
    }
    if i == end {
        return None;
    }
    let digits_start = i;
    let mut value: usize = 0;
    while i < end
        invariant
            start <= digits_start <= i <= end <= line@.len(),
            digits_start < end,
            s == line@.subrange(start as int, end as int),
            d == line@.subrange(digits_start as int, end as int),
            d == strip_plus(s),
            forall|j: int| digits_start <= j < i ==> is_digit(line@[j]),
            value == digits_value(line@.subrange(digits_start as int, i as int)),
        decreases end - i,
    {
        let b = line[i];
        if !(DIGIT_ZERO <= b && b <= DIGIT_ZERO + 9) {
            assert(d[i - digits_start] == b);
            assert(!all_digits(d));
            return None;
        }
        let ghost prefix = line@.subrange(digits_start as int, i + 1);
        assert(prefix.drop_last() =~= line@.subrange(digits_start as int, i as int));
        let next = match value.checked_mul(10) {
            Some(v) => v.checked_add((b - DIGIT_ZERO) as usize),
            None => None,
        };
        match next {
            Some(v) => {
                value = v;
            },
            None => {
                proof {
                    assert(prefix.last() == b);
                    assert(digits_value(prefix) == value * 10 + (b - DIGIT_ZERO));
                    if all_digits(d) {
                        assert(prefix =~= d.take(i + 1 - digits_start));
                        lemma_digits_value_prefix(d, i + 1 - digits_start);
                        assert(digits_value(d) > usize::MAX);
                    }
                }
                return None;
            },
        }
        i += 1;
    }
    assert(line@.subrange(digits_start as int, end as int) =~= d);
    Some(value)
}

/// A digit string is worth at least as much as each of its prefixes.
proof fn lemma_digits_value_prefix(s: Seq<u8>, n: int)
    requires
        0 <= n <= s.len(),
        all_digits(s),
    ensures
        digits_value(s.take(n)) <= digits_value(s),
        digits_value(s) >= 0,
    decreases s.len(),
{
    if s.len() > 0 {
        lemma_digits_value_prefix(s.drop_last(), if n == s.len() {
            n - 1
        } else {
            n
        });
        if n < s.len() {
            assert(s.drop_last().take(n) =~= s.take(n));
        } else {
            assert(s.take(n) =~= s);
        }
    } else {
        assert(s.take(n) =~= s);
    }
}

/// The frame rate `n:d` in `line[start..end]`.
fn parse_frame_rate(line: &[u8], start: usize, end: usize) -> (r: Option<(usize, usize)>)
    requires
        start <= end <= line@.len(),
    ensures
        r == frame_rate_of(line@.subrange(start as int, end as int)),
{
    let ghost s = line@.subrange(start as int, end as int);
    let mut colon: Option<usize> = None;
    let mut i = start;
    assert(line@.subrange(start as int, start as int) =~= Seq::<u8>::empty());
    while i < end
        invariant
            start <= i <= end <= line@.len(),
            colon_at(line@.subrange(start as int, i as int)) == match colon {
                Some(c) => c - start,
                None => -1,
            },
            match colon {
                Some(c) => start <= c < i,
                None => true,
            },
        decreases end - i,
    {
        assert(line@.subrange(start as int, i + 1).drop_last() =~= line@.subrange(start as int, i as int));
        if colon.is_none() && line[i] == COLON {
            colon = Some(i);
        }
        i += 1;
    }
    match colon {
        None => None,
        Some(c) => {
            assert(s.take(c - start) =~= line@.subrange(start as int, c as int));
            assert(s.skip(c - start + 1) =~= line@.subrange(c + 1, end as int));
            match (parse_decimal(line, start, c), parse_decimal(line, c + 1, end)) {
                (Some(n), Some(d)) => Some((n, d)),
                _ => None,
            }
        },
    }
}

/// Reads one parameter token `line[start..end]` into the header.
fn apply_token(h: Header, line: &[u8], start: usize, end: usize) -> (r: Result<Header, Error>)
    requires
        start <= end <= line@.len(),
    ensures
        r == apply_param(h, line@.subrange(start as int, end as int)),
{
    let ghost tok = line@.subrange(start as int, end as int);
    if start == end {
        return Err(Error::DecodeHeader);
    }
    let first = line[start];
    assert(tok.skip(1) =~= line@.subrange(start + 1, end as int));
    if first == 87 {
        match parse_decimal(line, start + 1, end) {
            Some(v) => Ok(Header { width: v, ..h }),
            None => Err(Error::DecodeDimensions),
        }
    } else if first == 72 {
        match parse_decimal(line, start + 1, end) {
            Some(v) => Ok(Header { height: v, ..h }),
            None => Err(Error::DecodeDimensions),
        }
    } else if first == 70 {
        match parse_frame_rate(line, start + 1, end) {
            Some((n, d)) => Ok(Header { frame_rate_numerator: n, frame_rate_denominator: d, ..h }),
            None => Err(Error::DecodeFrameRate),
        }
    } else if first == 73 {
        if range_is(line, start, end, &[73u8, 112]) {
            Ok(Header { interlace_mode: InterlaceMode::Ip, ..h })
        } else if range_is(line, start, end, &[73u8, 116]) {
            Ok(Header { interlace_mode: InterlaceMode::It, ..h })
        } else if range_is(line, start, end, &[73u8, 98]) {
            Ok(Header { interlace_mode: InterlaceMode::Ib, ..h })
        } else if range_is(line, start, end, &[73u8, 109]) {
            Ok(Header { interlace_mode: InterlaceMode::Im, ..h })
        } else {
            Err(Error::DecodeInterlaceMode)
        }
    } else if first == 65 {
        let ratio = if range_is(line, start, end, &[65u8, 49, 58, 49]) {
            PixelAspectRatio::Square
        } else if range_is(line, start, end, &[65u8, 52, 58, 51]) {
            PixelAspectRatio::NtscSvcd
        } else if range_is(line, start, end, &[65u8, 52, 58, 53]) {
            PixelAspectRatio::NtscDvdNarrow
        } else if range_is(line, start, end, &[65u8, 51, 50, 58, 50, 55]) {
            PixelAspectRatio::NtscDvdWide
        } else {
            PixelAspectRatio::Unknown
        };
        Ok(Header { pixel_aspect_ratio: ratio, ..h })
    } else if first == 67 {
        if range_is(line, start, end, &[67u8, 52, 50, 48, 106, 112, 101, 103]) {
            Ok(Header { color_space: ColorSpace::C420jpeg, ..h })
        } else if range_is(line, start, end, &[67u8, 52, 50, 48, 112, 97, 108, 100, 118]) {
            Ok(Header { color_space: ColorSpace::C420paldv, ..h })
        } else if range_is(line, start, end, &[67u8, 52, 50, 48]) {
            Ok(Header { color_space: ColorSpace::C420, ..h })
        } else if range_is(line, start, end, &[67u8, 52, 50, 50]) {
            Ok(Header { color_space: ColorSpace::C422, ..h })
        } else if range_is(line, start, end, &[67u8, 52, 52, 52]) {
            Ok(Header { color_space: ColorSpace::C444, ..h })
        } else if range_is(line, start, end, &[67u8, 109, 111, 110, 111]) {
            Ok(Header { color_space: ColorSpace::Cmono, ..h })
        } else if range_is(line, start, end, &[67u8, 52, 50, 48, 109, 112, 101, 103, 50]) {
            Ok(Header { color_space: ColorSpace::C420mpeg2, ..h })
        } else {
            Err(Error::DecodeColorSpace)
        }
    } else {
        Ok(h)
    }
}

/// `line[start..end]` is the stream signature, in any letter case.
fn signature_at(line: &[u8], start: usize, end: usize) -> (r: bool)
    requires
        start <= end <= line@.len(),
    ensures
        r == is_signature(line@.subrange(start as int, end as int)),
{
    let sig = [121u8, 117, 118, 52, 109, 112, 101, 103, 50];
    assert(sig@ =~= signature_lower());
    if end - start != 9 {
        return false;
    }
    let mut i: usize = 0;
    while i < 9
        invariant
            start + 9 == end <= line@.len(),
            i <= 9,
            sig@ == signature_lower(),
            forall|j: int| 0 <= j < i ==> ascii_lower(line@[start + j]) == signature_lower()[j],
        decreases 9 - i,
    {
        let b = line[start + i];
        let lower = if 65 <= b && b <= 90 {
            b + 32
        } else {
            b
        };
        if lower != sig[i] {
            return false;
        }
        i += 1;
    }
    true
}

/// Parses a stream header line, such as `YUV4MPEG2 W640 H480 F30:1 Ip A1:1 C420jpeg`.
/// Trailing whitespace is ignored; parameters are separated by single spaces.
pub fn parse_header(line: &[u8]) -> (r: Result<Header, Error>)
    ensures
        r == header_from_line(line@),
{
    let end = trimmed_len(line);
    let ranges = token_ranges(line, end);
    let ghost toks = split_spaces(trim_end(line@));
    proof {
        lemma_split_nonempty(trim_end(line@));
        assert(range_holds(line@, ranges@[0], toks[0]));
    }
    let (s0, e0) = ranges[0];
    if !signature_at(line, s0, e0) {
        return Err(Error::DecodeHeader);
    }
    let mut header = Header::default();
    let mut j: usize = 1;
    assert(toks.subrange(1, 1) =~= Seq::<Seq<u8>>::empty());
    while j < ranges.len()
        invariant
            1 <= j <= ranges@.len(),
            toks == split_spaces(trim_end(line@)),
            is_signature(toks[0]),
            ranges_hold(line@, ranges@, toks),
            apply_params(default_header(), toks.subrange(1, j as int)) == Ok::<Header, Error>(header),
        decreases ranges@.len() - j,
    {
        let (s, e) = ranges[j];
        assert(range_holds(line@, ranges@[j as int], toks[j as int]));
        assert(toks.subrange(1, j + 1).drop_last() =~= toks.subrange(1, j as int));
        match apply_token(header, line, s, e) {
            Ok(h) => {
                header = h;
            },
            Err(err) => {
                proof {
                    assert(toks.skip(1).take(j as int) =~= toks.subrange(1, j + 1));
                    lemma_error_sticks(default_header(), toks.skip(1), j as int);
                }
                return Err(err);
            },
        }
        j += 1;
    }
    assert(toks.subrange(1, toks.len() as int) =~= toks.skip(1));
    Ok(header)
}

impl std::str::FromStr for Header {
    type Err = Error;

    /// Parses a stream header line; see `parse_header`.
    fn from_str(s: &str) -> (r: Result<Header, Error>)
        ensures
            r == header_from_line(s.spec_bytes()),
    {
        parse_header(s.as_bytes())
    }
}

} // verus!
