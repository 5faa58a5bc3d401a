use hubset::backend::{Outcome, SkipReason};
use hubset::batch::{
    artifact_outcome, external_outcome, finish_message, resolve_selection, status_message,
    Progress, Step,
};

#[test]
fn one_malformed_file_does_not_stop_the_batch() {
    let results = vec![Ok(vec![1u8]), Err(SkipReason::MalformedInput), Ok(vec![2u8])];
    let mut p = Progress::new(results.len());
    for r in &results {
        assert_eq!(p.record(artifact_outcome(r)), Step::Continue);
    }
    assert!(p.is_done());
    assert_eq!(p.written, 2);
    assert_eq!(p.skipped, 1);
    assert_eq!(p.exit_code(), 0);
}

#[test]
fn missing_executable_aborts_with_failure() {
    let mut p = Progress::new(3);
    assert_eq!(p.record(external_outcome(Some(0))), Step::Continue);
    assert_eq!(p.record(external_outcome(None)), Step::Abort);
    assert!(!p.is_done());
    assert_eq!(p.written, 1);
    assert_eq!(p.fatal, 1);
    assert_eq!(p.exit_code(), 1);
}

#[test]
fn external_exit_codes() {
    assert_eq!(external_outcome(Some(0)), Outcome::Written);
    assert_eq!(external_outcome(Some(2)), Outcome::Fatal);
    assert_eq!(external_outcome(None), Outcome::Fatal);
}

#[test]
fn skipped_outcomes_keep_their_reason() {
    let r: Result<Vec<u8>, SkipReason> = Err(SkipReason::CompressionDeclined);
    assert_eq!(artifact_outcome(&r), Outcome::Skipped(SkipReason::CompressionDeclined));
}

#[test]
fn selection_of_requested_names() {
    let names = vec!["greek".to_string(), "nothing".to_string()];
    let vs = resolve_selection(&names).unwrap();
    assert_eq!(vs.len(), 1);
    assert!(resolve_selection(&[]).unwrap().is_empty());
    let all: Vec<String> = ["latin", "latin-ext", "greek", "greek-ext", "cyrillic", "cyrillic-ext", "vietnamese"]
        .iter()
        .map(|s| s.to_string())
        .collect();
    assert!(resolve_selection(&all).is_ok());
}

#[test]
fn messages() {
    assert_eq!(status_message("a.ttf"), "Subsetting 'input/a.ttf'");
    assert_eq!(finish_message(), "Font subsetting complete.");
}

#[test]
fn one_malformed_file_among_many() {
    let mut results: Vec<Result<Vec<u8>, SkipReason>> = (0..5).map(|i| Ok(vec![i as u8])).collect();
    results[2] = Err(SkipReason::MalformedInput);
    let mut p = Progress::new(results.len());
    for r in &results {
        assert_eq!(p.record(artifact_outcome(r)), Step::Continue);
    }
    assert!(p.is_done());
    assert_eq!(p.written, 4);
    assert_eq!(p.skipped, 1);
    assert_eq!(p.fatal, 0);
}
