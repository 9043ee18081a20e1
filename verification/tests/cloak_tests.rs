use red5sorcery::cloak::{cloak_zip_to_images, decloak, DecloakError};
use red5sorcery::codec::base64_encode;
use red5sorcery::raster::Raster;
use red5sorcery::naming::{
    author_note_download_name, base_image_name, color_fragment_name, grayscale_fragment_name,
    zip_download_name,
};
use red5sorcery::tier::{tier_for_unlock_file, Tier};

fn cover(width: u32, height: u32) -> Raster {
    let n = (width * height * 4) as usize;
    let data: Vec<u8> = (0..n).map(|i| ((i * 53 + 7) % 256) as u8).collect();
    Raster::from_raw(width, height, data).unwrap()
}

fn gray_of(img: &Raster) -> Vec<u8> {
    img.as_raw().chunks(4).map(|p| ((p[0] as u32 + p[1] as u32 + p[2] as u32) / 3) as u8).collect()
}

#[test]
fn cloak_then_decloak_recovers_the_archive() {
    let base = cover(40, 30);
    let gray = gray_of(&base);
    let zip: Vec<u8> = (0..300u32).map(|i| (i * 13 % 256) as u8).collect();
    let payload = base64_encode(&zip);
    let anchor = 30 * 30;
    let (color, grayscale) = cloak_zip_to_images(
        &base,
        &gray,
        anchor,
        "2025-05-31T19:27:45.123Z",
        "archive.zip",
        &payload,
        "  for you  ",
    )
    .ok()
    .unwrap();
    assert_eq!(color.dimensions(), (40, 30));
    assert_eq!(grayscale.dimensions(), (40, 30));
    let d = match decloak(&color, &grayscale, anchor) {
        Some(Ok(d)) => d,
        _ => panic!("decloaking failed"),
    };
    assert_eq!(d.timestamp, "20250531192745");
    assert_eq!(d.author_note, "for you");
    assert_eq!(d.filename, "archive.zip");
    assert_eq!(d.zip, zip);
}

#[test]
fn cloak_fails_on_too_small_cover() {
    let base = cover(10, 10);
    let gray = gray_of(&base);
    let r = cloak_zip_to_images(&base, &gray, 5, "2025-05-31T19:27:45.123Z", "a.zip", b"QUJD", "");
    assert_eq!(r.err(), Some("Not enough shuffled pixels to embed data.".to_string()));
}

#[test]
fn decloak_reports_size_mismatch() {
    let a = cover(4, 4);
    let b = cover(5, 4);
    match decloak(&a, &b, 0) {
        Some(Err(DecloakError::SizeMismatch(4, 4, 5, 4))) => {}
        _ => panic!("expected a size mismatch"),
    }
}

#[test]
fn decloak_reports_bad_header() {
    let a = Raster::new(30, 30);
    let b = Raster::new(30, 30);
    match decloak(&a, &b, 100) {
        Some(Err(DecloakError::Header(e))) => assert_eq!(e, "Invalid timestamp format: expected 14 digits followed by 86 spaces."),
        _ => panic!("expected a header error"),
    }
}

#[test]
fn decloak_gives_none_for_tiny_images() {
    let a = Raster::new(3, 3);
    let b = Raster::new(3, 3);
    assert!(decloak(&a, &b, 2).is_none());
    assert!(decloak(&a, &b, 18).is_none());
}

#[test]
fn tiers() {
    assert_eq!(Tier::from_name("PRO"), Tier::Pro);
    assert_eq!(Tier::from_name("VEGAS"), Tier::Vegas);
    assert_eq!(Tier::from_name("FREE"), Tier::Free);
    assert_eq!(Tier::from_name("pro"), Tier::Free);
    assert_eq!(Tier::Vegas.name(), "VEGAS");
    assert!(Tier::Free.accepts_zip_size(6_000_000));
    assert!(!Tier::Free.accepts_zip_size(6_000_001));
    assert!(Tier::Pro.accepts_zip_size(20_000_000));
    assert!(!Tier::Vegas.accepts_zip_size(40_000_001));
    assert_eq!(Tier::Pro.zip_size_label(), "20 MB");
    assert!(Tier::Free.accepts_image(3072, 4096));
    assert!(!Tier::Free.accepts_image(3071, 5000));
    assert!(!Tier::Pro.accepts_image(6000, 7081));
    assert!(Tier::Vegas.accepts_image(6144, 8192));
    assert_eq!(Tier::Vegas.min_image_dimensions(), (6144, 8192));
}

#[test]
fn unlock_files() {
    assert_eq!(tier_for_unlock_file("PRO_Unlock.png", 957_537), Tier::Pro);
    assert_eq!(tier_for_unlock_file("VEGAS_Unlock.png", 12_674), Tier::Vegas);
    assert_eq!(tier_for_unlock_file("PRO_Unlock.png", 957_538), Tier::Free);
    assert_eq!(tier_for_unlock_file("VEGAS_Unlock.png", 957_537), Tier::Free);
    assert_eq!(tier_for_unlock_file("other.png", 12_674), Tier::Free);
}

#[test]
fn file_names() {
    assert_eq!(base_image_name("photo.png"), "photo");
    assert_eq!(base_image_name("photo.jpg"), "photo");
    assert_eq!(base_image_name("photo.jpeg"), "photo");
    assert_eq!(base_image_name("photo.gif"), "photo.gif");
    assert_eq!(base_image_name("été.png"), "été");
    assert_eq!(color_fragment_name("cat.jpeg"), "cat_color.png");
    assert_eq!(grayscale_fragment_name("cat.png"), "cat_grayscale.png");
    assert_eq!(zip_download_name("20250531192745", "a.zip"), "20250531192745_a.zip");
    assert_eq!(author_note_download_name("20250531192745"), "20250531192745_UTC_author_note.txt");
}

#[test]
fn cloaked_color_fragment_differs_from_cover_only_in_low_bits() {
    let base = cover(40, 30);
    let gray = gray_of(&base);
    let payload = base64_encode(b"tiny archive");
    let (color, grayscale) =
        cloak_zip_to_images(&base, &gray, 7, "2024-01-02T03:04:05.000Z", "t.zip", &payload, "")
            .ok()
            .unwrap();
    for (a, b) in color.as_raw().iter().zip(base.as_raw().iter()) {
        assert_eq!(a & 0xFE, b & 0xFE);
    }
    for (i, p) in grayscale.as_raw().chunks(4).enumerate() {
        let g = gray[i] & 0xFE;
        assert_eq!([p[0] & 0xFE, p[1] & 0xFE, p[2] & 0xFE, p[3] & 0xFE], [g, g, g, base.as_raw()[i * 4 + 3] & 0xFE]);
    }
}

#[test]
fn decloak_gives_the_trimmed_file_name() {
    let base = cover(40, 30);
    let gray = gray_of(&base);
    let zip: Vec<u8> = vec![1, 2, 3, 4, 5];
    let payload = base64_encode(&zip);
    let (color, grayscale) =
        cloak_zip_to_images(&base, &gray, 100, "2023-07-08T09:10:11.012Z", "  my files.zip ", &payload, "hi")
            .ok()
            .unwrap();
    let d = match decloak(&color, &grayscale, 100) {
        Some(Ok(d)) => d,
        _ => panic!("decloaking failed"),
    };
    assert_eq!(d.filename, "my files.zip");
    assert_eq!(d.timestamp, "20230708091011");
    assert_eq!(d.author_note, "hi");
    assert_eq!(d.zip, zip);
}
