use ilytix::EngineError;
use ilytix::Logger;

#[test]
fn summary_lines_join_their_parts() {
    let logger = Logger;
    assert_eq!(logger.success("Found", "Curated", "x3"), "[ok] Found Curated x3");
    assert_eq!(logger.warn("Deprecated", "a.png", ""), "[warn] Deprecated a.png ");
    assert_eq!(logger.fail("Results", "Not Saving", "use -o"), "[fail] Results Not Saving use -o");
}

#[test]
fn errors_describe_themselves() {
    assert_eq!(
        EngineError::InsufficientCorpus.describe(),
        "too few images to match against"
    );
    assert_eq!(
        EngineError::QueryUndecodable.describe(),
        "the query image could not be decoded"
    );
    assert_eq!(EngineError::MissingOutputTarget.describe(), "no save location was given");
    assert!(matches!(EngineError::InsufficientCorpus, EngineError::InsufficientCorpus));
    assert_ne!(EngineError::InsufficientCorpus, EngineError::QueryUndecodable);
}
