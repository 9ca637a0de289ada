use ilytix::cli::Method;
use ilytix::corpus::{CorpusFile, ImageData};
use ilytix::retrival::Kind;
use ilytix::EngineError;
use ilytix::Retrival;

fn png_bytes(img: &image::RgbaImage) -> Vec<u8> {
    let mut buf: Vec<u8> = Vec::new();
    let dynimg = image::DynamicImage::ImageRgba8(img.clone());
    dynimg
        .write_to(&mut std::io::Cursor::new(&mut buf), image::ImageFormat::Png)
        .unwrap();
    buf
}

fn horizontal_gradient(flip: bool) -> image::RgbaImage {
    image::RgbaImage::from_fn(64, 64, |x, _y| {
        let v = (x * 255 / 63) as u8;
        let v = if flip { 255 - v } else { v };
        image::Rgba([v, v, v, 255])
    })
}

fn vertical_gradient() -> image::RgbaImage {
    image::RgbaImage::from_fn(64, 64, |_x, y| {
        let v = (y * 255 / 63) as u8;
        image::Rgba([v, v, v, 255])
    })
}

fn checkerboard() -> image::RgbaImage {
    image::RgbaImage::from_fn(64, 64, |x, y| {
        let v = if (x / 8 + y / 8) % 2 == 0 { 20u8 } else { 235u8 };
        image::Rgba([v, v, v, 255])
    })
}

fn file(path: &str, size: u64, data: ImageData) -> CorpusFile {
    CorpusFile { path: path.to_string(), size, data }
}

fn retrival(thresh: u32) -> Retrival {
    Retrival {
        input: "corpus".to_string(),
        query: "query.png".to_string(),
        kind: Kind::Image,
        output: None,
        recursive: false,
        mv: false,
        method: Method::BlockHash,
        thresh,
        verbose: false,
    }
}

fn five_image_corpus() -> Vec<CorpusFile> {
    let target = png_bytes(&horizontal_gradient(false));
    vec![
        file("a.png", 10, ImageData::Bytes(target.clone())),
        file("b.png", 20, ImageData::Bytes(target)),
        file("c.png", 30, ImageData::Bytes(png_bytes(&horizontal_gradient(true)))),
        file("d.png", 40, ImageData::Bytes(png_bytes(&vertical_gradient()))),
        file("e.png", 50, ImageData::Bytes(png_bytes(&checkerboard()))),
    ]
}

#[test]
fn retrieval_returns_exactly_the_items_within_threshold() {
    // five items of which exactly two are within the threshold of the query
    let files = five_image_corpus();
    let query = ImageData::Bytes(png_bytes(&horizontal_gradient(false)));
    let rep = retrival(0).search(&files, &query).unwrap();
    assert_eq!(rep.matches, vec![(0u64, 0u32), (1, 0)]);
    assert_eq!(rep.deprecated, Vec::<u64>::new());
}

#[test]
fn retrieval_ranks_ascending_by_distance() {
    let files = five_image_corpus();
    let query = ImageData::Bytes(png_bytes(&horizontal_gradient(false)));
    let rep = retrival(256).search(&files, &query).unwrap();
    assert_eq!(rep.matches.len(), 5);
    assert_eq!(rep.matches[0], (0u64, 0u32));
    assert_eq!(rep.matches[1], (1u64, 0u32));
    for w in rep.matches.windows(2) {
        assert!(w[0].1 < w[1].1 || (w[0].1 == w[1].1 && w[0].0 < w[1].0));
    }
}

#[test]
fn an_undecodable_query_is_fatal() {
    let files = five_image_corpus();
    let query = ImageData::Bytes(b"broken bytes".to_vec());
    let r = retrival(3).search(&files, &query);
    assert!(matches!(r, Err(EngineError::QueryUndecodable)));
    let unreadable = ImageData::Unreadable;
    let r2 = retrival(3).search(&files, &unreadable);
    assert!(matches!(r2, Err(EngineError::QueryUndecodable)));
}

#[test]
fn a_single_valid_corpus_image_is_fatal_for_retrieval() {
    let files = vec![
        file("a.png", 10, ImageData::Bytes(png_bytes(&horizontal_gradient(false)))),
        file("junk.png", 10, ImageData::Bytes(b"not an image".to_vec())),
    ];
    let query = ImageData::Bytes(png_bytes(&horizontal_gradient(false)));
    let r = retrival(3).search(&files, &query);
    assert!(matches!(r, Err(EngineError::InsufficientCorpus)));
}

#[test]
fn undecodable_corpus_items_are_deprecated_and_never_matched() {
    let target = png_bytes(&horizontal_gradient(false));
    let files = vec![
        file("a.png", 10, ImageData::Bytes(target.clone())),
        file("junk.png", 10, ImageData::Bytes(b"not an image".to_vec())),
        file("b.png", 20, ImageData::Bytes(target.clone())),
    ];
    let query = ImageData::Bytes(target);
    let rep = retrival(256).search(&files, &query).unwrap();
    assert_eq!(rep.deprecated, vec![1u64]);
    for (id, _) in &rep.matches {
        assert_ne!(*id, 1);
    }
    assert_eq!(rep.matches.len(), 2);
}
