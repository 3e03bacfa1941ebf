use pdf2::pdf::objects::InUseObjects;
use pdf2::object::indirect::stream::Stream;
use pdf2::process::filter::ascii_85::A85;
use pdf2::process::filter::ascii_hex::AHx;
use pdf2::process::filter::flate::Fl;
use pdf2::process::filter::lzw::EarlyChange;
use pdf2::process::filter::lzw::Lzw;
use pdf2::process::filter::predictor::png::Png;
use pdf2::process::filter::predictor::png::PngAlgorithm;
use pdf2::process::filter::predictor::tiff::Tiff;
use pdf2::process::filter::predictor::BitsPerComponent;
use pdf2::process::filter::predictor::Colors;
use pdf2::process::filter::predictor::Columns;
use pdf2::process::filter::predictor::Predictor;
use pdf2::process::filter::predictor::PredictorParms;

fn sample_bytes(n: usize) -> Vec<u8> {
    (0..n).map(|i| (i * 37 % 256) as u8).collect()
}

fn parms(bits_per_component: BitsPerComponent, colors: Colors, columns: usize) -> PredictorParms {
    PredictorParms { bits_per_component, colors, columns: Columns::new(columns) }
}

#[test]
fn law_ahx_roundtrip() {
    for n in [0, 1, 2, 7, 64] {
        let data = sample_bytes(n);
        let encoded = AHx.filter(&data).unwrap();
        assert_eq!(AHx.defilter(&encoded).unwrap(), data);
    }
}

#[test]
fn law_a85_roundtrip() {
    for n in [0, 1, 2, 3, 4, 5, 8, 9, 63] {
        let data = sample_bytes(n);
        let encoded = A85.filter(&data).unwrap();
        assert_eq!(A85.defilter(&encoded).unwrap(), data);
    }
    let data = vec![0, 0, 0, 0, 0, 0, 0, 0, 1, 2, 3];
    assert_eq!(A85.defilter(&A85.filter(&data).unwrap()).unwrap(), data);
}

#[test]
fn law_a85_zero_group_after_digits() {
    // A group of zero bytes, written as `z`, right after a group written as
    // five digits comes back too.
    let data = [1, 2, 3, 4, 0, 0, 0, 0, 5];
    let encoded = A85.filter(&data).unwrap();
    assert_eq!(encoded[5], b'z');
    assert_eq!(A85.defilter(&encoded).unwrap(), data.to_vec());
    let data = [65, 65, 65, 65, 0, 0, 0, 0, 65];
    assert_eq!(A85.defilter(&A85.filter(&data).unwrap()).unwrap(), data.to_vec());
}

#[test]
fn law_png_roundtrip() {
    let algorithms = [PngAlgorithm::NoFilter, PngAlgorithm::Sub, PngAlgorithm::Up, PngAlgorithm::Average, PngAlgorithm::Paeth];
    for algorithm in algorithms {
        for (bits, colors, columns, rows) in [
            (BitsPerComponent::Eight, Colors::Three, 4, 5),
            (BitsPerComponent::Two, Colors::One, 7, 3),
            (BitsPerComponent::Eight, Colors::One, 1, 1),
        ] {
            let png = Png { algorithm, parms: parms(bits, colors, columns) };
            let predictor = Predictor::Png(png);
            let row = ((columns * colors_value(colors) * bits_value(bits)) + 7) / 8;
            let data = sample_bytes(row * rows);
            let encoded = predictor.filter(&data).unwrap();
            assert_eq!(encoded.len(), (row + 1) * rows);
            assert_eq!(predictor.defilter(&encoded).unwrap(), data);
        }
    }
}

#[test]
fn law_png_no_filter_copies_rows() {
    let png = Png { algorithm: PngAlgorithm::NoFilter, parms: parms(BitsPerComponent::Eight, Colors::One, 3) };
    let predictor = Predictor::Png(png);
    assert_eq!(predictor.defilter(&[0, 1, 2, 3]).unwrap(), vec![1, 2, 3]);
    let encoded = predictor.filter(&[1, 2, 3, 4, 5, 6]).unwrap();
    assert_eq!(encoded, vec![0, 1, 2, 3, 0, 4, 5, 6]);
    assert_eq!(predictor.defilter(&encoded).unwrap(), vec![1, 2, 3, 4, 5, 6]);
}

fn colors_value(colors: Colors) -> usize {
    match colors {
        Colors::One => 1,
        Colors::Two => 2,
        Colors::Three => 3,
        Colors::Four => 4,
    }
}

fn bits_value(bits: BitsPerComponent) -> usize {
    match bits {
        BitsPerComponent::One => 1,
        BitsPerComponent::Two => 2,
        BitsPerComponent::Four => 4,
        BitsPerComponent::Eight => 8,
    }
}

#[test]
fn law_tiff_roundtrip() {
    for bits in [BitsPerComponent::One, BitsPerComponent::Two, BitsPerComponent::Four, BitsPerComponent::Eight] {
        for (colors, columns) in [(Colors::One, 8), (Colors::Three, 3), (Colors::Two, 5)] {
            let tiff = Tiff::new(parms(bits, colors, columns));
            let predictor = Predictor::Tiff(tiff);
            let bits_per_row = columns * colors_value(colors) * bits_value(bits);
            let row = (bits_per_row + 7) / 8;
            // Rows whose padding bits are zero.
            let mut data = sample_bytes(row * 4);
            if bits_per_row % 8 != 0 {
                let mask = 0xFFu8 << (8 - bits_per_row % 8);
                for r in 0..4 {
                    data[r * row + row - 1] &= mask;
                }
            }
            let encoded = predictor.filter(&data).unwrap();
            assert_eq!(encoded.len(), data.len());
            assert_eq!(predictor.defilter(&encoded).unwrap(), data);
        }
    }
}

#[test]
fn law_flate_roundtrip() {
    let data = sample_bytes(300);
    for predictor in [
        Predictor::NoPredictor,
        Predictor::Png(Png { algorithm: PngAlgorithm::Paeth, parms: parms(BitsPerComponent::Eight, Colors::Three, 10) }),
        Predictor::Tiff(Tiff::new(parms(BitsPerComponent::Four, Colors::One, 20))),
    ] {
        let fl = Fl { predictor };
        let encoded = fl.filter(&data).unwrap();
        assert_eq!(fl.defilter(&encoded).unwrap(), data);
    }
}

#[test]
fn law_chain_roundtrip() {
    let buffer = b"<</Length 0/Filter[/ASCIIHexDecode/FlateDecode]>>\nstream\n\nendstream";
    let stream = Stream::parse(buffer, 0, &InUseObjects::default()).unwrap();
    let data = sample_bytes(100);
    let encoded = stream.filter_buffer(&data).unwrap();
    assert!(encoded.iter().all(|b| b.is_ascii_hexdigit() || *b == b'>'));
    assert_eq!(stream.defilter_buffer(&encoded).unwrap(), data);
}

#[test]
fn lzw_roundtrip_examples() {
    for early in [true, false] {
        let lzw = Lzw { predictor: Predictor::NoPredictor, early_change: EarlyChange::new(early) };
        for data in [sample_bytes(0), sample_bytes(1), sample_bytes(600), vec![7u8; 1000]] {
            let encoded = lzw.filter(&data).unwrap();
            assert_eq!(lzw.defilter(&encoded).unwrap(), data);
        }
    }
}

/// Bytes whose last code or end-of-data code falls just where the code
/// width grows come back, with early change and without.
#[test]
fn lzw_early_change_boundary() {
    for early in [true, false] {
        let lzw = Lzw { predictor: Predictor::NoPredictor, early_change: EarlyChange::new(early) };
        for n in [0u16, 1, 2, 200, 253, 254, 255, 256] {
            let data: Vec<u8> = (0..n).map(|i| i as u8).collect();
            let encoded = lzw.filter(&data).unwrap();
            assert_eq!(lzw.defilter(&encoded), Ok(data));
        }
    }
}

#[test]
fn lzw_roundtrip_widths() {
    for early in [true, false] {
        let lzw = Lzw { predictor: Predictor::NoPredictor, early_change: EarlyChange::new(early) };
        let mut seed: u32 = 7;
        let mut data = Vec::new();
        for len in 0..1200usize {
            let prefix = &data[..];
            let encoded = lzw.filter(prefix).unwrap();
            assert_eq!(lzw.defilter(&encoded), Ok(prefix.to_vec()), "early {} len {}", early, len);
            seed = seed.wrapping_mul(1103515245).wrapping_add(12345);
            data.push((seed >> 16) as u8);
        }
    }
}

#[test]
fn lzw_roundtrip_full_table() {
    for early in [true, false] {
        let lzw = Lzw { predictor: Predictor::NoPredictor, early_change: EarlyChange::new(early) };
        let mut seed: u32 = 99;
        let data: Vec<u8> = (0..9000)
            .map(|_| {
                seed = seed.wrapping_mul(1103515245).wrapping_add(12345);
                (seed >> 16) as u8
            })
            .collect();
        for len in [1500usize, 2100, 3000, 3800, 3837, 3838, 3839, 3840, 3841, 3842, 3843, 4100, 6000, 9000] {
            let prefix = &data[..len];
            let encoded = lzw.filter(prefix).unwrap();
            assert_eq!(lzw.defilter(&encoded), Ok(prefix.to_vec()), "early {} len {}", early, len);
        }
    }
}
