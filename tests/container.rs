use dct_quant::{
    chroma_len_from_space, parse_header, ColorSpace, Decoder, Encoder, Error, Frame, Header,
    InterlaceMode, PixelAspectRatio,
};

fn header(line: &str) -> Result<Header, Error> {
    parse_header(line.as_bytes())
}

#[test]
fn parses_a_full_header() {
    let h = header("YUV4MPEG2 W640 H480 F30000:1001 It A4:3 C422 XYSCSS=422\n").unwrap();
    assert_eq!(h.width, 640);
    assert_eq!(h.height, 480);
    assert_eq!(h.frame_rate_numerator, 30000);
    assert_eq!(h.frame_rate_denominator, 1001);
    assert_eq!(h.interlace_mode, InterlaceMode::It);
    assert_eq!(h.pixel_aspect_ratio, PixelAspectRatio::NtscSvcd);
    assert_eq!(h.color_space, ColorSpace::C422);
}

#[test]
fn header_defaults_and_case() {
    let h = header("yuv4MPEG2 W+12 H3 A9:9").unwrap();
    assert_eq!(h.width, 12);
    assert_eq!(h.height, 3);
    assert_eq!(h.frame_rate_numerator, 0);
    assert_eq!(h.interlace_mode, InterlaceMode::Unknown);
    assert_eq!(h.pixel_aspect_ratio, PixelAspectRatio::Unknown);
    assert_eq!(h.color_space, ColorSpace::C420);
    assert_eq!(header("YUV4MPEG2").unwrap(), Header::default());
}

#[test]
fn header_errors() {
    assert_eq!(header("MPEG W1"), Err(Error::DecodeHeader));
    assert_eq!(header(""), Err(Error::DecodeHeader));
    assert_eq!(header("YUV4MPEG2  W1"), Err(Error::DecodeHeader));
    assert_eq!(header("YUV4MPEG2 Wabc"), Err(Error::DecodeDimensions));
    assert_eq!(header("YUV4MPEG2 H"), Err(Error::DecodeDimensions));
    assert_eq!(header("YUV4MPEG2 W18446744073709551616"), Err(Error::DecodeDimensions));
    assert_eq!(header("YUV4MPEG2 F25"), Err(Error::DecodeFrameRate));
    assert_eq!(header("YUV4MPEG2 F25:x"), Err(Error::DecodeFrameRate));
    assert_eq!(header("YUV4MPEG2 Ix"), Err(Error::DecodeInterlaceMode));
    assert_eq!(header("YUV4MPEG2 C411"), Err(Error::DecodeColorSpace));
    // the first failing parameter decides
    assert_eq!(header("YUV4MPEG2 Ix C411"), Err(Error::DecodeInterlaceMode));
}

#[test]
fn header_to_bytes() {
    let h = Header {
        width: 640,
        height: 480,
        frame_rate_numerator: 25,
        frame_rate_denominator: 1,
        interlace_mode: InterlaceMode::Ip,
        pixel_aspect_ratio: PixelAspectRatio::Square,
        color_space: ColorSpace::C420jpeg,
    };
    assert_eq!(h.to_bytes(), b"YUV4MPEG2 W640 H480 F25:1 Ip A1:1 C420jpeg\n".to_vec());
    assert_eq!(header(std::str::from_utf8(&h.to_bytes()).unwrap()), Ok(h));
    assert_eq!(
        Header::default().to_bytes(),
        b"YUV4MPEG2 W0 H0 F0:0 I? A0:0 C420\n".to_vec()
    );
}

#[test]
fn frame_sizes() {
    let mut h = Header { width: 640, height: 480, ..Header::default() };
    assert_eq!(h.frame_bytes_length(), 460800);
    h.color_space = ColorSpace::C422;
    assert_eq!(h.frame_bytes_length(), 614400);
    h.color_space = ColorSpace::C444;
    assert_eq!(h.frame_bytes_length(), 921600);
    h.color_space = ColorSpace::Cmono;
    assert_eq!(h.frame_bytes_length(), 921600);
    let odd = Header { width: 3, height: 3, ..Header::default() };
    assert_eq!(odd.frame_bytes_length(), 13);
    let huge = Header { width: usize::MAX, height: 2, ..Header::default() };
    assert_eq!(huge.frame_bytes_length(), usize::MAX);
    assert_eq!(chroma_len_from_space(ColorSpace::C420paldv, 4, 4), 4);
    assert_eq!(chroma_len_from_space(ColorSpace::C422, 4, 4), 8);
    assert_eq!(chroma_len_from_space(ColorSpace::Cmono, 4, 4), 16);
}

#[test]
fn frame_buffer_round_trip() {
    let buf: Vec<u8> = (0..30).collect();
    let f = Frame::from_buf(&buf, 4, 4, ColorSpace::C420);
    assert_eq!(f.data_y, (0..16).collect::<Vec<u8>>());
    assert_eq!(f.data_cb, vec![16, 17, 18, 19]);
    assert_eq!(f.data_cr, vec![20, 21, 22, 23]);
    assert_eq!(f.chroma_len(), 4);
    assert_eq!(f.to_vec(), (0..24).collect::<Vec<u8>>());
}

#[test]
fn decodes_frames() {
    let reader = Decoder::new().read_header(b"YUV4MPEG2 W2 H2 F1:1 C420\n").unwrap();
    assert_eq!(reader.header.frame_bytes_length(), 6);
    let f = reader.next_frame(b"FRAME\n", &[1, 2, 3, 4, 5, 6]).unwrap().unwrap();
    assert_eq!(f.data_y, vec![1, 2, 3, 4]);
    assert_eq!(f.data_cb, vec![5]);
    assert_eq!(f.data_cr, vec![6]);
    assert!(reader.next_frame(b"", &[]).unwrap().is_none());
    assert_eq!(reader.next_frame(b"FRAME\n", &[1, 2, 3]).unwrap_err(), Error::DecodeFrame);
    assert_eq!(Decoder::new().read_header(b"nope").err(), Some(Error::DecodeHeader));
}

#[test]
fn encodes_frames() {
    let h = Header { width: 2, height: 2, frame_rate_numerator: 1, frame_rate_denominator: 1, ..Header::default() };
    let mut writer = Encoder::new().write_header(&h);
    writer.write_frame(Frame::from_buf(&[1, 2, 3, 4, 5, 6], 2, 2, ColorSpace::C420));
    let bytes = writer.take_bytes();
    assert_eq!(bytes, b"YUV4MPEG2 W2 H2 F1:1 I? A0:0 C420\nFRAME\n\x01\x02\x03\x04\x05\x06".to_vec());
    assert!(writer.take_bytes().is_empty());
    assert_eq!(writer.header, h);
}

#[test]
fn header_from_str() {
    let h: Header = "YUV4MPEG2 W8 H6 F50:1 Im A32:27 Cmono".parse().unwrap();
    assert_eq!((h.width, h.height), (8, 6));
    assert_eq!(h.interlace_mode, InterlaceMode::Im);
    assert_eq!(h.pixel_aspect_ratio, PixelAspectRatio::NtscDvdWide);
    assert_eq!(h.color_space, ColorSpace::Cmono);
    assert_eq!("YUV4MPEG2 F1".parse::<Header>(), Err(Error::DecodeFrameRate));
}

#[test]
fn mono_stream_round_trip() {
    let h = Header {
        width: 2,
        height: 2,
        interlace_mode: InterlaceMode::Ip,
        color_space: ColorSpace::Cmono,
        ..Header::default()
    };
    assert_eq!(h.frame_bytes_length(), 12);
    let frame = Frame::from_buf(&(1..=12).collect::<Vec<u8>>(), 2, 2, ColorSpace::Cmono);
    let mut writer = Encoder::new().write_header(&h);
    let header_len = writer.pending.len();
    writer.write_frame(frame.clone());
    let bytes = writer.take_bytes();
    let data = &bytes[header_len + 6..];
    assert_eq!(data.len(), h.frame_bytes_length());
    let reader = Decoder::new().read_header(&bytes[..header_len]).unwrap();
    let back = reader.next_frame(b"FRAME\n", data).unwrap().unwrap();
    assert_eq!(back.data_y, frame.data_y);
    assert_eq!(back.data_cb, frame.data_cb);
    assert_eq!(back.data_cr, frame.data_cr);
}

#[test]
fn header_from_str_cases() {
    let h: Header = "YUV4MPEG2 W16 H8 F30:1 Ip A1:1 C444\n".parse().unwrap();
    assert_eq!(
        h,
        Header {
            width: 16,
            height: 8,
            frame_rate_numerator: 30,
            frame_rate_denominator: 1,
            interlace_mode: InterlaceMode::Ip,
            pixel_aspect_ratio: PixelAspectRatio::Square,
            color_space: ColorSpace::C444,
        }
    );
    assert_eq!("YUV4MPEG2\n".parse::<Header>(), Ok(Header::default()));
    assert_eq!("MPEG4 W16 H8".parse::<Header>(), Err(Error::DecodeHeader));
    assert_eq!("YUV4MPEG2 W8 H-1".parse::<Header>(), Err(Error::DecodeDimensions));
    assert_eq!("YUV4MPEG2 W8 H8 F25:1 I? A0:0 C420".parse::<Header>(), Err(Error::DecodeInterlaceMode));
    assert_eq!("YUV4MPEG2 W8 F30".parse::<Header>(), Err(Error::DecodeFrameRate));
    let last = "YUV4MPEG2 W8 W16 A9:9 XCOMMENT Z1".parse::<Header>().unwrap();
    assert_eq!(last, Header { width: 16, ..Header::default() });
}
