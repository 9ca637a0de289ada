use ilytix::image_files::{FileOutcome, FileRecord, ImageFiles};

fn decoded(path: &str, width: u32, height: u32, suffix_ok: bool, rectified: &str) -> FileRecord {
    FileRecord {
        path: path.to_string(),
        outcome: FileOutcome::Decoded {
            width,
            height,
            suffix_ok,
            rectified_name: rectified.to_string(),
        },
    }
}

fn broken(path: &str) -> FileRecord {
    FileRecord { path: path.to_string(), outcome: FileOutcome::Undecodable }
}

fn unreadable(path: &str) -> FileRecord {
    FileRecord { path: path.to_string(), outcome: FileOutcome::Unreadable }
}

#[test]
fn records_land_in_their_buckets() {
    let records = vec![
        decoded("ok.png", 800, 600, true, "ok.png"),
        decoded("small.png", 10, 10, true, "small.png"),
        decoded("mislabeled.png", 800, 600, false, "mislabeled.jpg"),
        decoded("small_mislabeled.png", 5, 5, false, "small_mislabeled.gif"),
        broken("corrupt.png"),
        unreadable("gone.png"),
    ];
    let files = ImageFiles::new(&records, 100, 100);
    assert_eq!(files.v_valid, vec![("ok.png".to_string(), 800, 600)]);
    assert_eq!(files.v_valid_filtered, vec![("small.png".to_string(), 10, 10)]);
    assert_eq!(
        files.map_incorrect_suffix,
        vec![("mislabeled.png".to_string(), ("mislabeled.jpg".to_string(), 800, 600))]
    );
    assert_eq!(
        files.map_incorrect_suffix_filtered,
        vec![("small_mislabeled.png".to_string(), ("small_mislabeled.gif".to_string(), 5, 5))]
    );
    assert_eq!(files.map_deprecated_imerr, vec!["corrupt.png".to_string()]);
    assert_eq!(files.map_deprecated_ioerr, vec!["gone.png".to_string()]);
    assert_eq!(files.ntotal(), 6);
    assert!(files.has_deprecated());
    assert!(!files.is_ok());
}

#[test]
fn a_zero_minimum_filters_nothing() {
    let records = vec![
        decoded("a.png", 1, 1, true, "a.png"),
        decoded("b.png", 9999, 2, true, "b.png"),
    ];
    let files = ImageFiles::new(&records, 0, 0);
    assert_eq!(files.v_valid.len(), 2);
    assert_eq!(files.v_valid_filtered.len(), 0);
    assert!(files.is_ok());
    assert!(!files.has_deprecated());
    assert_eq!(files.ntotal(), 2);
}

#[test]
fn both_dimensions_must_meet_their_minimum() {
    let records = vec![
        decoded("wide.png", 500, 20, true, "wide.png"),
        decoded("tall.png", 20, 500, true, "tall.png"),
        decoded("big.png", 500, 500, true, "big.png"),
    ];
    let files = ImageFiles::new(&records, 100, 100);
    assert_eq!(files.v_valid, vec![("big.png".to_string(), 500, 500)]);
    assert_eq!(files.v_valid_filtered.len(), 2);
}

#[test]
fn an_empty_probe_is_ok() {
    let files = ImageFiles::new(&Vec::new(), 0, 0);
    assert!(files.is_ok());
    assert!(!files.has_deprecated());
    assert_eq!(files.ntotal(), 0);
}
