use tinyrender::rle::{encode_rle, load_rle_data};
use tinyrender::tga::{black, rgba, TgaError, TgaHeader, TgaImage};

fn pixels(img: &TgaImage) -> Vec<[u8; 4]> {
    let mut out = Vec::new();
    for y in 0..img.height {
        for x in 0..img.width {
            out.push(img.get(x, y).bgra);
        }
    }
    out
}

fn filled(width: u16, height: u16, bytespp: u8, seed: u32) -> TgaImage {
    let mut img = TgaImage::new(width, height, bytespp);
    let mut s = seed;
    for y in 0..height {
        for x in 0..width {
            s = s.wrapping_mul(1103515245).wrapping_add(12345);
            let b = (s >> 16) as u8;
            img.set(x, y, rgba(b, b.wrapping_add(1), b.wrapping_add(2), b.wrapping_add(3))).unwrap();
        }
    }
    img
}

#[test]
fn rgba_orders_channels_bgra() {
    let c = rgba(1, 2, 3, 4);
    assert_eq!(c.bgra, [3, 2, 1, 4]);
    assert_eq!(c.bytespp, 4);
}

#[test]
fn black_is_one_channel() {
    let c = black();
    assert_eq!(c.bgra, [0, 0, 0, 255]);
    assert_eq!(c.bytespp, 1);
}

#[test]
fn color_mul_scales_each_channel() {
    let c = rgba(255, 100, 128, 0).mul(&rgba(128, 100, 255, 255));
    assert_eq!(c.bgra, [128, 39, 128, 0]);
    assert_eq!(c.bytespp, 4);
}

#[test]
fn new_image_is_zero_filled() {
    let img = TgaImage::new(3, 2, 3);
    assert_eq!(img.get_width(), 3);
    assert_eq!(img.get_height(), 2);
    assert_eq!(img.bytespp(), 3);
    assert!(pixels(&img).iter().all(|p| *p == [0, 0, 0, 0]));
}

#[test]
fn empty_image_has_no_pixels() {
    let mut img = TgaImage::empty();
    assert_eq!(img.width, 0);
    assert_eq!(img.height, 0);
    assert_eq!(img.set(0, 0, black()), Err(TgaError::OutOfBounds));
}

#[test]
fn set_then_get_truncates_to_depth() {
    let mut img = TgaImage::new(4, 4, 3);
    assert_eq!(img.set(2, 1, rgba(10, 20, 30, 40)), Ok(()));
    let c = img.get(2, 1);
    assert_eq!(c.bgra, [30, 20, 10, 0]);
    assert_eq!(c.bytespp, 3);
    assert_eq!(img.get(1, 2).bgra, [0, 0, 0, 0]);
    let mut gray = TgaImage::new(2, 2, 1);
    gray.set(1, 1, rgba(10, 20, 30, 40)).unwrap();
    assert_eq!(gray.get(1, 1).bgra, [30, 0, 0, 0]);
}

#[test]
fn set_out_of_bounds_fails() {
    let mut img = TgaImage::new(4, 3, 4);
    let before = pixels(&img);
    assert_eq!(img.set(4, 0, rgba(1, 1, 1, 1)), Err(TgaError::OutOfBounds));
    assert_eq!(img.set(0, 3, rgba(1, 1, 1, 1)), Err(TgaError::OutOfBounds));
    assert_eq!(pixels(&img), before);
}

#[test]
fn clear_zeroes_every_pixel() {
    let mut img = filled(5, 4, 4, 7);
    img.clear();
    assert!(pixels(&img).iter().all(|p| *p == [0, 0, 0, 0]));
}

#[test]
fn flip_vertically_reverses_rows() {
    let mut img = TgaImage::new(2, 3, 1);
    for y in 0..3u16 {
        img.set(0, y, rgba(0, 0, y as u8 + 1, 0)).unwrap();
    }
    img.flip_vertically();
    assert_eq!(img.get(0, 0).bgra[0], 3);
    assert_eq!(img.get(0, 1).bgra[0], 2);
    assert_eq!(img.get(0, 2).bgra[0], 1);
    assert_eq!(img.get(1, 0).bgra[0], 0);
}

#[test]
fn flip_horizontally_reverses_columns() {
    let mut img = TgaImage::new(3, 1, 3);
    img.set(0, 0, rgba(1, 2, 3, 0)).unwrap();
    img.set(2, 0, rgba(7, 8, 9, 0)).unwrap();
    img.flip_horizontally();
    assert_eq!(img.get(0, 0).bgra, [9, 8, 7, 0]);
    assert_eq!(img.get(1, 0).bgra, [0, 0, 0, 0]);
    assert_eq!(img.get(2, 0).bgra, [3, 2, 1, 0]);
}

#[test]
fn flips_are_involutions() {
    for (w, h, bpp) in [(5u16, 4u16, 1u8), (4, 5, 3), (1, 7, 4), (6, 1, 3)] {
        let before = filled(w, h, bpp, 99);
        let mut img = filled(w, h, bpp, 99);
        img.flip_vertically();
        img.flip_vertically();
        assert_eq!(pixels(&img), pixels(&before));
        img.flip_horizontally();
        assert_eq!(img.get(0, 0).bgra, before.get(w - 1, 0).bgra);
        img.flip_horizontally();
        assert_eq!(pixels(&img), pixels(&before));
    }
}

fn sample_header() -> TgaHeader {
    TgaHeader {
        idlength: 1,
        colormaptype: 2,
        datatypecode: 10,
        colormaporigin: -2,
        colormaplength: 300,
        colormapdepth: -5,
        x_origin: 7,
        y_origin: 513,
        width: 800,
        height: 65535,
        bitsperpixel: 24,
        imagedescriptor: 0x20,
    }
}

#[test]
fn header_layout_matches_bincode() {
    let h = sample_header();
    let expected = bincode::serialize(&(
        (h.idlength, h.colormaptype, h.datatypecode),
        (h.colormaporigin, h.colormaplength, h.colormapdepth),
        (h.x_origin, h.y_origin, h.width, h.height),
        (h.bitsperpixel, h.imagedescriptor),
    ))
    .unwrap();
    assert_eq!(h.to_bytes(), expected);
    assert_eq!(h.to_bytes().len(), 18);
}

#[test]
fn header_round_trip() {
    let h = sample_header();
    assert_eq!(TgaHeader::from_bytes(&h.to_bytes()), Some(h));
    assert_eq!(TgaHeader::from_bytes(&h.to_bytes()[..17]), None);
}

#[test]
fn rle_encoding_of_runs() {
    assert_eq!(encode_rle(&[1, 1, 1, 2], 1), vec![130, 1, 0, 2]);
    assert_eq!(encode_rle(&[5, 6, 7], 1), vec![2, 5, 6, 7]);
    assert_eq!(encode_rle(&[1, 2, 3, 3], 1), vec![1, 1, 2, 129, 3]);
    let long: Vec<u8> = vec![8; 130];
    assert_eq!(encode_rle(&long, 1), vec![255, 8, 129, 8]);
    assert_eq!(encode_rle(&[9, 9, 9, 9, 9, 9], 3), vec![129, 9, 9, 9]);
    assert_eq!(encode_rle(&[], 4), Vec::<u8>::new());
}

fn rle_round_trip(data: &[u8], bytespp: u8) {
    let encoded = encode_rle(data, bytespp);
    let npix = data.len() / bytespp as usize;
    let mut with_tail = encoded.clone();
    with_tail.extend_from_slice(&[1, 2, 3, 4, 5]);
    let decoded = load_rle_data(&with_tail, npix as u16, 1, bytespp).unwrap();
    assert_eq!(decoded, data);
}

#[test]
fn rle_round_trip_boundaries() {
    for bpp in [1u8, 3, 4] {
        for n in [1usize, 2, 127, 128, 129, 255, 256, 257] {
            let same: Vec<u8> = vec![42; n * bpp as usize];
            rle_round_trip(&same, bpp);
            let distinct: Vec<u8> = (0..n * bpp as usize).map(|i| (i / bpp as usize) as u8).collect();
            rle_round_trip(&distinct, bpp);
        }
        let mut mixed: Vec<u8> = Vec::new();
        for (len, value) in [(1usize, 1u8), (127, 2), (128, 3), (129, 4), (1, 5), (2, 6)] {
            for _ in 0..len * bpp as usize {
                mixed.push(value);
            }
            mixed.extend((0..3 * bpp as usize).map(|i| 100 + (i / bpp as usize) as u8));
        }
        rle_round_trip(&mixed, bpp);
    }
}

#[test]
fn rle_decode_stops_at_pixel_count() {
    assert_eq!(load_rle_data(&[130, 7, 0, 8, 99, 99], 2, 2, 1), Ok(vec![7, 7, 7, 8]));
}

#[test]
fn rle_decode_truncated_fails() {
    assert_eq!(load_rle_data(&[130, 7], 2, 2, 1), Err(TgaError::CorruptStream));
    assert_eq!(load_rle_data(&[3, 1, 2], 2, 2, 1), Err(TgaError::CorruptStream));
}

#[test]
fn rle_decode_overrun_fails() {
    assert_eq!(load_rle_data(&[131, 7], 3, 1, 1), Err(TgaError::CorruptStream));
}

#[test]
fn encode_decode_round_trip() {
    for (w, h, bpp) in [(7u16, 5u16, 1u8), (3, 4, 3), (130, 2, 4), (1, 1, 3)] {
        let img = filled(w, h, bpp, 5);
        for rle in [false, true] {
            let bytes = img.encode(rle);
            let back = TgaImage::decode(&bytes).unwrap();
            assert_eq!(back.width, w);
            assert_eq!(back.height, h);
            assert_eq!(back.bytespp(), bpp);
            assert_eq!(pixels(&back), pixels(&img));
        }
    }
}

#[test]
fn encode_writes_header_and_footer() {
    let img = TgaImage::new(2, 1, 3);
    let bytes = img.encode(false);
    assert_eq!(bytes.len(), 18 + 6 + 26);
    assert_eq!(&bytes[..18], &[0, 0, 2, 0, 0, 0, 0, 0, 0, 0, 0, 0, 2, 0, 1, 0, 24, 0x20]);
    assert_eq!(&bytes[24..32], &[0; 8]);
    assert_eq!(&bytes[32..], b"TRUEVISION-XFILE.\0");
    assert_eq!(TgaImage::new(1, 1, 1).encode(true)[2], 11);
    assert_eq!(TgaImage::new(1, 1, 1).encode(false)[2], 3);
    assert_eq!(TgaImage::new(1, 1, 4).encode(true)[2], 10);
}

fn raw_file(width: u16, height: u16, bits: u8, code: u8, descriptor: u8, body: &[u8]) -> Vec<u8> {
    let h = TgaHeader {
        idlength: 0,
        colormaptype: 0,
        datatypecode: code,
        colormaporigin: 0,
        colormaplength: 0,
        colormapdepth: 0,
        x_origin: 0,
        y_origin: 0,
        width,
        height,
        bitsperpixel: bits,
        imagedescriptor: descriptor,
    };
    let mut b = h.to_bytes();
    b.extend_from_slice(body);
    b
}

#[test]
fn decode_bottom_left_origin_flips_rows() {
    let bytes = raw_file(1, 2, 8, 3, 0, &[1, 2]);
    let img = TgaImage::decode(&bytes).unwrap();
    assert_eq!(img.get(0, 0).bgra[0], 2);
    assert_eq!(img.get(0, 1).bgra[0], 1);
}

#[test]
fn decode_right_to_left_flips_columns() {
    let bytes = raw_file(2, 1, 8, 3, 0x30, &[1, 2]);
    let img = TgaImage::decode(&bytes).unwrap();
    assert_eq!(img.get(0, 0).bgra[0], 2);
    assert_eq!(img.get(1, 0).bgra[0], 1);
}

#[test]
fn decode_rejects_bad_headers() {
    assert_eq!(TgaImage::decode(&[0; 17]).err(), Some(TgaError::Format));
    assert_eq!(TgaImage::decode(&raw_file(0, 1, 8, 3, 0x20, &[1])).err(), Some(TgaError::Format));
    assert_eq!(TgaImage::decode(&raw_file(1, 0, 8, 3, 0x20, &[1])).err(), Some(TgaError::Format));
    assert_eq!(TgaImage::decode(&raw_file(1, 1, 16, 2, 0x20, &[1, 2])).err(), Some(TgaError::Format));
    assert_eq!(TgaImage::decode(&raw_file(1, 1, 8, 1, 0x20, &[1])).err(), Some(TgaError::Format));
}

#[test]
fn decode_rejects_short_pixel_data() {
    assert_eq!(TgaImage::decode(&raw_file(2, 2, 24, 2, 0x20, &[0; 11])).err(), Some(TgaError::CorruptStream));
    assert_eq!(TgaImage::decode(&raw_file(2, 2, 8, 11, 0x20, &[129, 5])).err(), Some(TgaError::CorruptStream));
}
