use std::io::Read;

use pdf2::pdf::objects::InUseObjects;
use pdf2::object::indirect::stream::Stream;
use pdf2::process::filter::ascii_85::A85ErrorCode;
use pdf2::process::filter::ascii_85::Bytes;
use pdf2::process::filter::ascii_85::A85;
use pdf2::process::filter::ascii_hex::AHxErrorCode;
use pdf2::process::filter::ascii_hex::AHx;
use pdf2::process::filter::error::FilterErr;
use pdf2::process::filter::error::FilterErrorCode;
use pdf2::process::filter::flate::FlErrorCode;
use pdf2::process::filter::flate::Fl;
use pdf2::process::filter::lzw::EarlyChange;
use pdf2::process::filter::lzw::Lzw;
use pdf2::process::filter::lzw::LzwErrorCode;
use pdf2::process::filter::predictor::png::Png;
use pdf2::process::filter::predictor::png::PngAlgorithm;
use pdf2::process::filter::predictor::png::rev_sub;
use pdf2::process::filter::predictor::png::PngError;
use pdf2::process::filter::predictor::tiff::BitsReader;
use pdf2::process::filter::predictor::tiff::BitsWriter;
use pdf2::process::filter::predictor::tiff::TiffError;
use pdf2::process::filter::predictor::BitsPerComponent;
use pdf2::process::filter::predictor::Colors;
use pdf2::process::filter::predictor::Columns;
use pdf2::process::filter::predictor::Predictor;
use pdf2::process::filter::predictor::PredictorParms;

fn a85_err(code: A85ErrorCode) -> FilterErr {
    FilterErr::new("A85", FilterErrorCode::A85(code))
}

fn ahx_err(code: AHxErrorCode) -> FilterErr {
    FilterErr::new("AHx", FilterErrorCode::AHx(code))
}

fn is_white_space(byte: u8) -> bool {
    matches!(byte, b'\0' | b'\t' | b'\n' | b'\x0C' | b'\r' | b' ')
}

fn without_white_space(bytes: &[u8]) -> Vec<u8> {
    bytes.iter().copied().filter(|&b| !is_white_space(b)).collect()
}

/// The zlib stream of `bytes`, at the default compression level.
fn zlib(bytes: &[u8]) -> Vec<u8> {
    let mut out = Vec::new();
    flate2::read::ZlibEncoder::new(bytes, flate2::Compression::default())
        .read_to_end(&mut out)
        .unwrap();
    out
}

/// A stream object whose dictionary holds `entries` besides the length.
fn stream_bytes(entries: &str, data: &[u8]) -> Vec<u8> {
    let mut buffer = format!("<</Length {}{}>>\nstream\n", data.len(), entries).into_bytes();
    buffer.extend_from_slice(data);
    buffer.extend_from_slice(b"\nendstream");
    buffer
}

/// Decodes the stream, compares with `expected`, encodes it again and
/// checks that decoding that gives the same bytes.
fn lax_stream_defilter_filter(buffer: &[u8], expected: &[u8]) {
    let stream = Stream::parse(buffer, 0, &InUseObjects::default()).unwrap();
    let defiltered = stream.defilter().unwrap();
    assert_eq!(defiltered, expected);
    let refiltered = stream.filter_buffer(defiltered.as_slice()).unwrap();
    let redefiltered = stream.defilter_buffer(refiltered.as_slice()).unwrap();
    assert_eq!(redefiltered, defiltered);
}

/// Decodes the stream, compares with `expected`, and checks that encoding
/// it again gives the stream's data back.
fn strict_stream_defilter_filter(buffer: &[u8], expected: &[u8]) {
    let stream = Stream::parse(buffer, 0, &InUseObjects::default()).unwrap();
    let defiltered = stream.defilter().unwrap();
    assert_eq!(defiltered, expected);
    let refiltered = stream.filter_buffer(defiltered.as_slice()).unwrap();
    assert_eq!(refiltered, stream.data);
}

#[test]
fn ascii_85_valid() {
    let filtered = b"5p/^0G[Y,o@qfdgC`lYuEbTE(~>";
    let defiltered = A85.defilter(filtered).unwrap();
    assert_eq!(defiltered, b"A Hexadecimal String");
    let refiltered = A85.filter(&defiltered).unwrap();
    assert_eq!(refiltered, without_white_space(filtered));
}

#[test]
fn ascii_85_invalid() {
    assert_eq!(
        A85.defilter(b"5p/^0G[Y,o@qfdgC`lYuEbTE(v~>"),
        Err(a85_err(A85ErrorCode::InvalidBase85Digit('v')))
    );
    assert_eq!(
        A85.defilter(b"5p/^0G[Y,o@qfdgC`lYuEbTE(~> a"),
        Err(a85_err(A85ErrorCode::AfterEod('a')))
    );
    assert_eq!(
        A85.defilter(b"5p/^0 G[Y,o @qfdg C`lYu EbT/a uuuuu~>"),
        Err(a85_err(A85ErrorCode::ValueTooLarge(Bytes { data: *b"uuuuu", pos: 5 })))
    );
    assert_eq!(
        A85.defilter(b"5p/^0G[Y,o@qfdgC`lYuEbTE(/cz~>"),
        Err(a85_err(A85ErrorCode::ZInMiddle(Bytes { data: *b"/c\0\0\0", pos: 2 })))
    );
    assert_eq!(
        A85.defilter(b"5p/^0G[Y,o@qfdgC`lYuEbTE(/"),
        Err(a85_err(A85ErrorCode::FinalPartialGroup(Bytes { data: *b"/\0\0\0\0", pos: 1 })))
    );
    assert_eq!(
        A85.defilter(b"5p/^0G[Y,o@qfdgC`lYuEbTE(~ a"),
        Err(a85_err(A85ErrorCode::CorruptEod('a')))
    );
}

#[test]
fn ascii_85_zero_group_and_partial_group() {
    assert_eq!(A85.defilter(b"z~>").unwrap(), vec![0, 0, 0, 0]);
    // A zero group is written as `z` only when more bytes follow it.
    assert_eq!(A85.filter(&[0, 0, 0, 0]).unwrap(), b"!!!!!~>".to_vec());
    assert_eq!(A85.filter(&[0, 0, 0, 0, 0]).unwrap(), b"z!!~>".to_vec());
    assert_eq!(A85.defilter(b"z!!~>").unwrap(), vec![0, 0, 0, 0, 0]);
    let encoded = A85.filter(b"ABCDE").unwrap();
    assert_eq!(A85.defilter(&encoded).unwrap(), b"ABCDE".to_vec());
}

#[test]
fn ascii_hex_valid() {
    let filtered = b"412048657861646563696D616C20537472696E67";
    let defiltered = AHx.defilter(filtered).unwrap();
    assert_eq!(defiltered, b"A Hexadecimal String");
    let refiltered = AHx.filter(&defiltered).unwrap();
    assert_eq!(refiltered, filtered);

    let filtered = b"41 20 48";
    let defiltered = AHx.defilter(filtered).unwrap();
    assert_eq!(defiltered, b"\x41\x20\x48");
    let refiltered = AHx.filter(&defiltered).unwrap();
    assert_eq!(refiltered, without_white_space(filtered));

    let filtered = b"41 20 4";
    let defiltered = AHx.defilter(filtered).unwrap();
    assert_eq!(defiltered, b"\x41\x20\x40");
    let refiltered = AHx.filter(&defiltered).unwrap();
    assert_eq!(refiltered[..5], without_white_space(filtered));
    assert_eq!(refiltered[5], b'0');

    let filtered = b"41 20 4> ";
    let defiltered = AHx.defilter(filtered).unwrap();
    assert_eq!(defiltered, b"\x41\x20\x40");
}

#[test]
fn ascii_hex_invalid() {
    assert_eq!(AHx.defilter(b"41204X"), Err(ahx_err(AHxErrorCode::InvalidHexDigit('X'))));
    assert_eq!(AHx.defilter(b"41204>1"), Err(ahx_err(AHxErrorCode::AfterEod('1'))));
}

#[test]
fn flate_valid() {
    let expected = b"/Sh sh\n";
    let buffer = stream_bytes("/Filter/FlateDecode", &zlib(expected));
    lax_stream_defilter_filter(&buffer, expected);

    let expected: Vec<u8> = (0..2000u32).map(|i| (i * 7 % 251) as u8).collect();
    let buffer = stream_bytes("/Filter /FlateDecode", &zlib(&expected));
    lax_stream_defilter_filter(&buffer, &expected);
}

#[test]
fn flate_invalid() {
    let buffer = b"vec![0x41, 0x20, 0x48]";
    let filtering = Fl { predictor: Predictor::NoPredictor };
    assert_eq!(
        filtering.defilter(buffer),
        Err(FilterErr::new(
            "Fl",
            FilterErrorCode::Fl(FlErrorCode::Defilter("corrupt deflate stream".to_string()))
        ))
    );
}

#[test]
fn flate_roundtrip() {
    let filtering = Fl { predictor: Predictor::NoPredictor };
    let data = b"A stream with a direct length".to_vec();
    let filtered = filtering.filter(&data).unwrap();
    assert_ne!(filtered, data);
    assert_eq!(filtering.defilter(&filtered).unwrap(), data);
}

#[test]
fn lzw_valid() {
    // The example of the LZW section of the PDF reference.
    let data = [0x80, 0x0B, 0x60, 0x50, 0x22, 0x0C, 0x0C, 0x85, 0x01];
    let expected = [45, 45, 45, 45, 45, 65, 45, 45, 45, 66];
    let buffer = stream_bytes("/Filter/LZWDecode", &data);
    strict_stream_defilter_filter(&buffer, &expected);

    let filtering = Lzw { predictor: Predictor::NoPredictor, early_change: EarlyChange::new(false) };
    let text = b"TOBEORNOTTOBEORTOBEORNOT TOBEORNOTTOBEORTOBEORNOT".to_vec();
    let filtered = filtering.filter(&text).unwrap();
    assert_eq!(filtering.defilter(&filtered).unwrap(), text);
}

/// Packs `codes` most significant bit first, each in the width that a
/// decoder without early change reads it in.
fn pack_codes_late(codes: &[u16]) -> Vec<u8> {
    let mut out = Vec::new();
    let mut acc: u32 = 0;
    let mut bits: u32 = 0;
    let mut width: u32 = 9;
    let mut len: u32 = 258;
    for &code in codes {
        acc = (acc << width) | code as u32;
        bits += width;
        while bits >= 8 {
            out.push((acc >> (bits - 8)) as u8);
            bits -= 8;
            acc &= (1 << bits) - 1;
        }
        if code == 256 {
            width = 9;
            len = 258;
        } else if code != 257 {
            if len == (1 << width) && width < 12 {
                width += 1;
            }
            len += 1;
        }
    }
    if bits > 0 {
        out.push((acc << (8 - bits)) as u8);
    }
    out
}

#[test]
fn lzw_invalid() {
    let filtering = Lzw { predictor: Predictor::NoPredictor, early_change: EarlyChange::new(false) };
    // A clear code, then more single-byte codes than the table has room for.
    let mut codes = vec![256u16];
    codes.extend(std::iter::repeat(65u16).take(3900));
    let buffer = pack_codes_late(&codes);
    assert_eq!(
        filtering.defilter(&buffer),
        Err(FilterErr::new("Lzw", FilterErrorCode::Lzw(LzwErrorCode::FullTable)))
    );
}

#[test]
fn png_valid() {
    // Three rows of four bytes, each encoded with the PNG Up algorithm.
    let expected = [1, 2, 3, 4, 1, 2, 3, 5, 2, 2, 2, 2];
    let predicted = [2, 1, 2, 3, 4, 2, 0, 0, 0, 1, 2, 1, 0, 255, 253];
    let buffer = stream_bytes(
        "/Filter/FlateDecode/DecodeParms<</Predictor 12/Columns 4>>",
        &zlib(&predicted),
    );
    lax_stream_defilter_filter(&buffer, &expected);
}

#[test]
fn predictor_read_bits() {
    let buffer = vec![0b1010_0101, 0b0100_0111];
    let parms = PredictorParms {
        bits_per_component: BitsPerComponent::Two,
        colors: Colors::Two,
        columns: Columns::new(2),
    };
    let mut reader = BitsReader::new(&buffer, parms);
    assert_eq!(reader.next_bits().unwrap(), Some(0b10));
    assert_eq!(reader.next_bits().unwrap(), Some(0b10));
    assert_eq!(reader.next_bits().unwrap(), Some(0b01));
    assert_eq!(reader.next_bits().unwrap(), Some(0b01));
    assert_eq!(reader.next_bits().unwrap(), Some(0b01));
    assert_eq!(reader.next_bits().unwrap(), Some(0b00));
    assert_eq!(reader.next_bits().unwrap(), Some(0b01));
    assert_eq!(reader.next_bits().unwrap(), Some(0b11));
    assert_eq!(reader.next_bits().unwrap(), None);
}

#[test]
fn predictor_read_colors() {
    let buffer = vec![0b1010_0101, 0b0100_0111];
    let parms = PredictorParms {
        bits_per_component: BitsPerComponent::Two,
        colors: Colors::Three,
        columns: Columns::new(2),
    };
    let mut reader = BitsReader::new(&buffer, parms);
    assert_eq!(reader.next_colors().unwrap(), Some(vec![0b10, 0b10, 0b01]));
    assert_eq!(reader.next_colors().unwrap(), Some(vec![0b01, 0b01, 0b00]));
    assert_eq!(reader.next_colors(), Err(TiffError::ColorsOutOfBound(3, 2)));
}

#[test]
fn predictor_read_columns() {
    let buffer = vec![0b1010_0100, 0b0100_0111];
    let parms = PredictorParms {
        bits_per_component: BitsPerComponent::One,
        colors: Colors::Three,
        columns: Columns::new(2),
    };
    let mut reader = BitsReader::new(&buffer, parms);
    assert_eq!(reader.next_row().unwrap(), Some(vec![vec![0b1, 0b0, 0b1], vec![0b0, 0b0, 0b1]]));
    assert_eq!(reader.next_row(), Err(TiffError::RowMissingPadding(2, 0b0100_0111)));
}

#[test]
fn predictor_write_bits() {
    let parms = PredictorParms {
        bits_per_component: BitsPerComponent::Two,
        colors: Colors::Two,
        columns: Columns::new(2),
    };
    let mut writer = BitsWriter::new(parms);
    for component in [0b10, 0b10, 0b01, 0b01, 0b01, 0b00, 0b01, 0b11] {
        writer.write_component(component).unwrap();
    }
    writer.flush_row().unwrap();
    assert_eq!(writer.buffer, vec![0b1010_0101, 0b0100_0111]);

    let mut writer = BitsWriter::new(parms);
    for component in [0b10, 0b10, 0b01, 0b01, 0b01, 0b00] {
        writer.write_component(component).unwrap();
    }
    writer.flush_row().unwrap();
    assert_eq!(writer.buffer, vec![0b1010_0101, 0b0100_0000]);

    let mut writer = BitsWriter::new(parms);
    assert_eq!(writer.write_component(0b110), Err(TiffError::CorruptComponent(0b110, 2)));
    assert!(writer.buffer.is_empty());
    assert_eq!((writer.cache, writer.bit_location), (0, 0));
}

#[test]
fn tiff_roundtrip() {
    let parms = PredictorParms {
        bits_per_component: BitsPerComponent::Eight,
        colors: Colors::Two,
        columns: Columns::new(3),
    };
    let predictor = Predictor::Tiff(pdf2::process::filter::predictor::tiff::Tiff::new(parms));
    let data = vec![10, 20, 15, 25, 30, 5, 1, 2, 3, 4, 5, 6];
    let filtered = predictor.filter(&data).unwrap();
    assert_eq!(filtered[..6], [10, 20, 5, 5, 15, 236]);
    assert_eq!(predictor.defilter(&filtered).unwrap(), data);
}

#[test]
fn checked_defilter_stops_before_a_panic() {
    let png = Png::new(
        PngAlgorithm::Optimum,
        PredictorParms { bits_per_component: BitsPerComponent::Eight, colors: Colors::One, columns: Columns::new(2) },
    );
    let fl = Fl { predictor: Predictor::Png(png) };
    // A row of filter type 5 has no reverse function.
    assert_eq!(fl.checked_defilter(&zlib(&[5, 1, 2])), None);
    assert!(!Predictor::Png(png).can_defilter(&[5, 1, 2]));
    // A row of filter type 6 is an error.
    match fl.checked_defilter(&zlib(&[6, 1, 2])) {
        Some(Err(err)) => assert_eq!(err.object, "Png"),
        other => panic!("unexpected {:?}", other),
    }
    // Rows of the five algorithms are decoded.
    assert_eq!(fl.checked_defilter(&zlib(&[2, 1, 2, 2, 1, 1])), Some(Ok(vec![1, 2, 2, 3])));
    let tiff = pdf2::process::filter::predictor::tiff::Tiff::new(PredictorParms {
        bits_per_component: BitsPerComponent::Eight,
        colors: Colors::One,
        columns: Columns::new(0),
    });
    assert!(!Predictor::Tiff(tiff).can_defilter(&[1]));
    assert!(Predictor::Tiff(tiff).can_defilter(&[]));
}

#[test]
fn stream_checked_defilter() {
    let expected = b"checked";
    let buffer = stream_bytes("/Filter/FlateDecode", &zlib(expected));
    let stream = Stream::parse(&buffer, 0, &InUseObjects::default()).unwrap();
    assert_eq!(stream.checked_defilter(), Some(Ok(expected.to_vec())));
    let lzw = Lzw::default_lzw();
    assert_eq!(lzw.checked_defilter(&lzw.filter(b"abcabc").unwrap()), Some(Ok(b"abcabc".to_vec())));
}

#[test]
fn bytes_default_is_empty() {
    let bytes: Bytes<4> = Bytes::default();
    assert_eq!(bytes.pos, 0);
    assert_eq!(bytes.data, [0u8; 4]);
    assert_eq!(bytes, Bytes::<4>::new());
}

#[test]
fn ascii_hex_final_digit() {
    assert_eq!(AHx.defilter(b"X"), Err(ahx_err(AHxErrorCode::InvalidHexDigit('X'))));
    assert_eq!(AHx.defilter(b"41X"), Err(ahx_err(AHxErrorCode::InvalidHexDigit('X'))));
    assert_eq!(AHx.defilter(b"41 4").unwrap(), vec![0x41, 0x40]);
}

#[test]
fn png_up_and_row_count() {
    let parms = PredictorParms { bits_per_component: BitsPerComponent::Eight, colors: Colors::One, columns: Columns::new(2) };
    let up = Png::new(PngAlgorithm::Up, parms);
    assert_eq!(up.defilter(&[2, 1, 2, 2, 1, 1]).unwrap(), vec![1, 2, 2, 3]);
    assert_eq!(up.defilter(&[2, 1, 2, 2]), Err(FilterErr::new("Png", FilterErrorCode::Png(PngError::EncodedNumBytes(4, 3)))));
}

#[test]
fn png_rev_sub_ignores_prior() {
    let mut scanline = vec![0u8; 4];
    let mut prior = Vec::new();
    rev_sub(&mut scanline, &mut prior, &[1, 10, 20, 250, 5], 1);
    assert_eq!(scanline, vec![10, 30, 24, 29]);
    assert!(prior.is_empty());
}

#[test]
fn ascii_85_value_too_large_reported_on_next_digit() {
    assert_eq!(
        A85.defilter(b"uuuuu!"),
        Err(a85_err(A85ErrorCode::ValueTooLarge(Bytes { data: *b"!\0\0\0\0", pos: 1 })))
    );
    assert_eq!(
        A85.defilter(b"uuuuuz"),
        Err(a85_err(A85ErrorCode::ZInMiddle(Bytes { data: *b"uuuuu", pos: 5 })))
    );
    assert_eq!(
        A85.defilter(b"uuuuu~>"),
        Err(a85_err(A85ErrorCode::ValueTooLarge(Bytes { data: *b"uuuuu", pos: 5 })))
    );
    assert_eq!(A85.defilter(b"s8W-!z~>").unwrap(), vec![255, 255, 255, 255, 0, 0, 0, 0]);
}
