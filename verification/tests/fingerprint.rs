use ilytix::fingerprint::{fingerprint_from_bytes, Fingerprint, FINGERPRINT_BITS};

fn png_bytes(img: &image::RgbaImage) -> Vec<u8> {
    let mut buf: Vec<u8> = Vec::new();
    let dynimg = image::DynamicImage::ImageRgba8(img.clone());
    dynimg
        .write_to(&mut std::io::Cursor::new(&mut buf), image::ImageFormat::Png)
        .unwrap();
    buf
}

fn horizontal_gradient(flip: bool) -> image::RgbaImage {
    image::RgbaImage::from_fn(64, 64, |x, _y| {
        let v = (x * 255 / 63) as u8;
        let v = if flip { 255 - v } else { v };
        image::Rgba([v, v, v, 255])
    })
}

fn bits(n_ones: usize) -> Vec<bool> {
    let mut v = vec![false; FINGERPRINT_BITS];
    for b in v.iter_mut().take(n_ones) {
        *b = true;
    }
    v
}

#[test]
fn from_bits_accepts_exact_length_only() {
    assert!(Fingerprint::from_bits(bits(0)).is_some());
    assert!(Fingerprint::from_bits(vec![false; 10]).is_none());
    assert!(Fingerprint::from_bits(vec![false; 257]).is_none());
}

#[test]
fn distance_counts_differing_bits() {
    let a = Fingerprint::from_bits(bits(0)).unwrap();
    let b = Fingerprint::from_bits(bits(3)).unwrap();
    let c = Fingerprint::from_bits(bits(256)).unwrap();
    assert_eq!(a.distance(&b), 3);
    assert_eq!(a.distance(&c), 256);
    assert_eq!(b.distance(&c), 253);
}

#[test]
fn distance_is_symmetric() {
    let a = Fingerprint::from_bits(bits(17)).unwrap();
    let b = Fingerprint::from_bits(bits(200)).unwrap();
    assert_eq!(a.distance(&b), b.distance(&a));
}

#[test]
fn distance_of_identical_fingerprints_is_zero() {
    let a = Fingerprint::from_bits(bits(99)).unwrap();
    assert_eq!(a.distance(&a), 0);
}

#[test]
fn extraction_is_deterministic() {
    let data = png_bytes(&horizontal_gradient(false));
    let f1 = fingerprint_from_bytes(&data).unwrap();
    let f2 = fingerprint_from_bytes(&data).unwrap();
    assert_eq!(f1.bits(), f2.bits());
    assert_eq!(f1.distance(&f2), 0);
}

#[test]
fn recompression_keeps_the_fingerprint() {
    // the fingerprint is a function of decoded pixels, not file bytes: the
    // same pixels in a different container give the same bits
    let img = horizontal_gradient(false);
    let png = png_bytes(&img);
    let mut bmp: Vec<u8> = Vec::new();
    image::DynamicImage::ImageRgba8(img.clone())
        .write_to(&mut std::io::Cursor::new(&mut bmp), image::ImageFormat::Bmp)
        .unwrap();
    assert_ne!(png, bmp);
    let f1 = fingerprint_from_bytes(&png).unwrap();
    let f2 = fingerprint_from_bytes(&bmp).unwrap();
    assert_eq!(f1.bits(), f2.bits());
}

#[test]
fn different_content_changes_the_fingerprint() {
    // would fail if extraction ignored its input
    let f1 = fingerprint_from_bytes(&png_bytes(&horizontal_gradient(false))).unwrap();
    let f2 = fingerprint_from_bytes(&png_bytes(&horizontal_gradient(true))).unwrap();
    assert_eq!(f1.bits().len(), FINGERPRINT_BITS);
    assert_eq!(f2.bits().len(), FINGERPRINT_BITS);
    assert!(f1.distance(&f2) > 0);
    assert_ne!(f1.bits(), f2.bits());
}

#[test]
fn non_image_bytes_yield_no_fingerprint() {
    let garbage: Vec<u8> = b"this is not an image at all".to_vec();
    assert!(fingerprint_from_bytes(&garbage).is_none());
    let empty: Vec<u8> = Vec::new();
    assert!(fingerprint_from_bytes(&empty).is_none());
}
