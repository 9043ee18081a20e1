use base64::Engine;
use red5sorcery::codec::{base64_decode, base64_encode, decode_image, rgba_png_bytes};
use red5sorcery::composite::{build_composite_image, reconstruct_composite_image, split_and_save_fragments};
use red5sorcery::raster::Raster;
use red5sorcery::seed::compute_anchor_seed_and_shuffle;
use red5sorcery::stego::{embed_bits_lsb, extract_header_from_lsb, extract_payload};

fn pattern(width: u32, height: u32) -> Raster {
    let n = (width * height * 4) as usize;
    let data: Vec<u8> = (0..n).map(|i| ((i * 37 + 11) % 251) as u8).collect();
    Raster::from_raw(width, height, data).unwrap()
}

#[test]
fn raster_new_is_transparent_black() {
    let r = Raster::new(3, 2);
    assert_eq!(r.dimensions(), (3, 2));
    assert_eq!(r.as_raw().len(), 24);
    assert!(r.as_raw().iter().all(|&b| b == 0));
}

#[test]
fn raster_from_raw_checks_length() {
    assert!(Raster::from_raw(2, 2, vec![0; 16]).is_some());
    assert!(Raster::from_raw(2, 2, vec![0; 15]).is_none());
    assert!(Raster::from_raw(2, 2, vec![0; 17]).is_none());
}

#[test]
fn raster_pixels_are_row_major() {
    let mut r = Raster::new(3, 2);
    r.put_pixel(2, 1, [1, 2, 3, 4]);
    assert_eq!(r.get_pixel(2, 1), [1, 2, 3, 4]);
    assert_eq!(&r.as_raw()[20..24], &[1, 2, 3, 4]);
    assert_eq!(r.get_pixel(1, 1), [0, 0, 0, 0]);
}

#[test]
fn composite_has_color_left_and_gray_right() {
    let orig = pattern(2, 2);
    let gray = vec![10, 20, 30, 40];
    let c = build_composite_image(&orig, &gray);
    assert_eq!(c.dimensions(), (4, 2));
    for y in 0..2u32 {
        for x in 0..2u32 {
            let p = orig.get_pixel(x, y);
            assert_eq!(c.get_pixel(x, y), p);
            let g = gray[(y * 2 + x) as usize];
            assert_eq!(c.get_pixel(x + 2, y), [g, g, g, p[3]]);
        }
    }
}

#[test]
fn split_then_reconstruct_gives_composite_back() {
    let c = pattern(6, 3);
    let (a, b) = split_and_save_fragments(&c);
    assert_eq!(a.dimensions(), (3, 3));
    assert_eq!(b.dimensions(), (3, 3));
    assert_eq!(b.get_pixel(0, 1), c.get_pixel(3, 1));
    let r = reconstruct_composite_image(&a, &b);
    assert_eq!(r.as_raw(), c.as_raw());
}

#[test]
fn split_drops_last_column_of_odd_width() {
    let c = pattern(5, 2);
    let (a, b) = split_and_save_fragments(&c);
    assert_eq!(a.dimensions(), (2, 2));
    assert_eq!(b.get_pixel(1, 1), c.get_pixel(3, 1));
}

#[test]
fn embed_then_extract_header_and_payload() {
    let mut img = pattern(30, 30);
    let original = img.as_raw().clone();
    let header: Vec<u8> = (0..400).map(|i| (i * 7 % 256) as u8).collect();
    let payload = b"some payload bytes".to_vec();
    let order: Vec<usize> = (0..900usize).rev().collect();
    embed_bits_lsb(&mut img, &header, &payload, &order).unwrap();
    for (a, b) in img.as_raw().iter().zip(original.iter()) {
        assert_eq!(a & 0xFE, b & 0xFE);
    }
    let h = extract_header_from_lsb(&img, &order);
    assert_eq!(h.to_vec(), header);
    assert_eq!(extract_payload(&img, &order, payload.len()).unwrap(), payload);
}

#[test]
fn embed_writes_bits_lowest_first() {
    let mut img = Raster::new(4, 1);
    let order = vec![2usize, 0, 1, 3];
    embed_bits_lsb(&mut img, &[0b1010_0110], &[], &order).unwrap();
    // bits 0..3 go to pixel 2, bits 4..7 to pixel 0
    assert_eq!(img.get_pixel(2, 0), [0, 1, 1, 0]);
    assert_eq!(img.get_pixel(0, 0), [0, 1, 0, 1]);
    assert_eq!(img.get_pixel(1, 0), [0, 0, 0, 0]);
}

#[test]
fn embed_fails_without_enough_pixels() {
    let mut img = pattern(4, 4);
    let before = img.as_raw().clone();
    let r = embed_bits_lsb(&mut img, &[1, 2, 3], &[4], &[0, 1, 2, 3, 4, 5, 6]);
    assert_eq!(r, Err("Not enough shuffled pixels to embed data.".to_string()));
    assert_eq!(img.as_raw(), &before);
}

#[test]
fn extract_payload_reports_missing_indices() {
    let img = pattern(30, 30);
    let order: Vec<usize> = (0..801).collect();
    assert_eq!(extract_payload(&img, &order, 1), Err("Shuffled index out of bounds".to_string()));
    assert_eq!(extract_payload(&img, &order, 0), Ok(vec![]));
}

#[test]
fn seed_string_and_order() {
    let mut img = Raster::new(40, 30);
    img.put_pixel(5, 2, [255, 123, 7, 0]);
    let anchor = 2 * 40 + 5;
    let (a, order, seed) = compute_anchor_seed_and_shuffle(&img, anchor);
    assert_eq!(a, anchor);
    assert_eq!(seed, "40x30_R255G123B7A0");
    assert_eq!(order.len(), 1199);
    let mut sorted = order.clone();
    sorted.sort();
    let expected: Vec<usize> = (0..1200).filter(|&i| i != anchor).collect();
    assert_eq!(sorted, expected);
    assert_ne!(order, expected);
    let (_, again, _) = compute_anchor_seed_and_shuffle(&img, anchor);
    assert_eq!(again, order);
}

#[test]
fn base64_roundtrip_and_known_value() {
    assert_eq!(base64_encode(b"hello"), b"aGVsbG8=".to_vec());
    assert_eq!(base64_encode(b""), b"".to_vec());
    assert_eq!(base64_encode(&[0xFB, 0xFF]), b"+/8=".to_vec());
    assert_eq!(base64_decode(b"aGVsbG8=").unwrap(), b"hello".to_vec());
    assert!(base64_decode(b"a$==").is_err());
}

#[test]
fn png_roundtrip() {
    let img = pattern(7, 5);
    let png = rgba_png_bytes(&img).unwrap();
    assert_eq!(&png[1..4], b"PNG");
    let back = decode_image(&png).ok().unwrap();
    assert_eq!(back.dimensions(), (7, 5));
    assert_eq!(back.as_raw(), img.as_raw());
}

#[test]
fn decode_image_rejects_garbage() {
    assert!(decode_image(b"not an image").is_err());
}

#[test]
fn base64_decode_error_is_the_decoders_message() {
    let expected = base64::engine::general_purpose::STANDARD.decode(b"a$==").unwrap_err().to_string();
    assert_eq!(base64_decode(b"a$==").err(), Some(expected));
}

#[test]
fn decode_image_error_is_the_loaders_message() {
    let expected = image::load_from_memory(b"not an image").unwrap_err().to_string();
    assert_eq!(decode_image(b"not an image").err(), Some(expected));
    let mut truncated = rgba_png_bytes(&pattern(3, 3)).unwrap();
    truncated.truncate(20);
    let expected = image::load_from_memory(&truncated).unwrap_err().to_string();
    assert_eq!(decode_image(&truncated).err(), Some(expected));
}

#[test]
fn png_needs_pixels_and_starts_with_signature() {
    assert!(rgba_png_bytes(&Raster::new(0, 4)).is_err());
    assert!(rgba_png_bytes(&Raster::new(4, 0)).is_err());
    let png = rgba_png_bytes(&Raster::new(1, 1)).unwrap();
    assert_eq!(&png[..8], &[137, 80, 78, 71, 13, 10, 26, 10]);
    assert_eq!(decode_image(&png).ok().unwrap().as_raw(), &vec![0u8; 4]);
}

#[test]
fn read_bits_come_from_the_visited_channels() {
    let mut img = Raster::new(3, 1);
    // byte 0 is read from pixels order[0] (bits 0..3) and order[1] (bits 4..7)
    img.put_pixel(2, 0, [1, 0, 3, 0]);
    img.put_pixel(0, 0, [0, 255, 0, 1]);
    let order: Vec<usize> = vec![2, 0, 1];
    let mut full: Vec<usize> = order.clone();
    full.extend((0..797).map(|_| 1usize));
    let h = extract_header_from_lsb(&img, &full);
    assert_eq!(h[0], 0b1010_0101);
    assert!(h[1..].iter().all(|&b| b == 0));
}

#[test]
fn jpeg_decodes_to_its_size() {
    let rgb: Vec<u8> = (0..(5 * 3 * 3)).map(|i| (i * 17 % 256) as u8).collect();
    let mut jpeg: Vec<u8> = Vec::new();
    image::codecs::jpeg::JpegEncoder::new(&mut jpeg)
        .encode(&rgb, 5, 3, image::ColorType::Rgb8)
        .unwrap();
    let img = decode_image(&jpeg).ok().unwrap();
    assert_eq!(img.dimensions(), (5, 3));
    assert_eq!(img.as_raw().len(), 5 * 3 * 4);
}
