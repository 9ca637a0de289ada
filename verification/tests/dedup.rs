use ilytix::cli::Method;
use ilytix::corpus::{CorpusFile, ImageData};
use ilytix::DeDuplicator;
use ilytix::EngineError;

fn png_bytes(img: &image::RgbaImage) -> Vec<u8> {
    let mut buf: Vec<u8> = Vec::new();
    let dynimg = image::DynamicImage::ImageRgba8(img.clone());
    dynimg
        .write_to(&mut std::io::Cursor::new(&mut buf), image::ImageFormat::Png)
        .unwrap();
    buf
}

fn horizontal_gradient(flip: bool) -> image::RgbaImage {
    image::RgbaImage::from_fn(64, 64, |x, _y| {
        let v = (x * 255 / 63) as u8;
        let v = if flip { 255 - v } else { v };
        image::Rgba([v, v, v, 255])
    })
}

fn file(path: &str, size: u64, data: ImageData) -> CorpusFile {
    CorpusFile { path: path.to_string(), size, data }
}

fn dedup(thresh: u32) -> DeDuplicator {
    DeDuplicator {
        input: "corpus".to_string(),
        output: None,
        recursive: false,
        mv: false,
        method: Method::BlockHash,
        thresh,
        show_deprecated: false,
    }
}

fn sorted(mut v: Vec<u64>) -> Vec<u64> {
    v.sort();
    v
}

#[test]
fn curation_partitions_the_corpus() {
    let same = png_bytes(&horizontal_gradient(false));
    let other = png_bytes(&horizontal_gradient(true));
    let files = vec![
        file("a.png", 300, ImageData::Bytes(same.clone())),
        file("b.png", 100, ImageData::Bytes(same.clone())),
        file("c.png", 200, ImageData::Bytes(same.clone())),
        file("d.png", 50, ImageData::Bytes(other)),
        file("e.png", 10, ImageData::Bytes(b"junk that is no image".to_vec())),
    ];
    let rep = dedup(3).curate(&files).unwrap();
    // the three identical images collapse onto the largest file; the
    // distinct image stays; the junk file is deprecated
    assert_eq!(sorted(rep.curated.clone()), vec![0u64, 3]);
    assert_eq!(sorted(rep.duplicate.clone()), vec![1u64, 2]);
    assert_eq!(rep.deprecated, vec![4u64]);
    // curated, duplicate and deprecated are disjoint and cover the corpus
    let mut all = rep.curated.clone();
    all.extend(rep.duplicate.iter().copied());
    all.extend(rep.deprecated.iter().copied());
    assert_eq!(sorted(all), vec![0u64, 1, 2, 3, 4]);
}

#[test]
fn unreadable_files_are_deprecated_not_resolved() {
    let same = png_bytes(&horizontal_gradient(false));
    let files = vec![
        file("a.png", 300, ImageData::Bytes(same.clone())),
        file("lost.png", 50, ImageData::Unreadable),
        file("b.png", 100, ImageData::Bytes(same)),
    ];
    let rep = dedup(3).curate(&files).unwrap();
    assert_eq!(rep.curated, vec![0u64]);
    assert_eq!(rep.duplicate, vec![2u64]);
    assert_eq!(rep.deprecated, vec![1u64]);
    assert!(!rep.curated.contains(&1));
    assert!(!rep.duplicate.contains(&1));
}

#[test]
fn a_single_valid_image_is_an_insufficient_corpus() {
    let files = vec![
        file("a.png", 300, ImageData::Bytes(png_bytes(&horizontal_gradient(false)))),
        file("junk.png", 10, ImageData::Bytes(b"not an image".to_vec())),
    ];
    let r = dedup(3).curate(&files);
    assert!(matches!(r, Err(EngineError::InsufficientCorpus)));
}

#[test]
fn an_empty_corpus_is_an_insufficient_corpus() {
    let files: Vec<CorpusFile> = Vec::new();
    let r = dedup(3).curate(&files);
    assert!(matches!(r, Err(EngineError::InsufficientCorpus)));
}

#[test]
fn a_wider_threshold_never_splits_a_duplicate_pair() {
    let same = png_bytes(&horizontal_gradient(false));
    let files = vec![
        file("a.png", 300, ImageData::Bytes(same.clone())),
        file("b.png", 100, ImageData::Bytes(same)),
    ];
    let tight = dedup(0).curate(&files).unwrap();
    let wide = dedup(10).curate(&files).unwrap();
    assert_eq!(tight.curated, wide.curated);
    assert_eq!(tight.duplicate, wide.duplicate);
}
