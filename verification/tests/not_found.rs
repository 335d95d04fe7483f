use cargo_hilly::CratesScanner;
use cargo_hilly::Fs;
use cargo_hilly::ScanError;

/// A root that does not exist behaves like one with no entries at all.
fn prepare_directory() -> Fs {
    Fs::new()
}

#[test]
fn crates_scanner_should_find_nothing() {
    let fs = prepare_directory();

    let mut scanner = CratesScanner::default();
    scanner.scan(&fs);
    assert!(scanner.into_inner().is_empty());
}

#[test]
fn scan_function_should_error() {
    let fs = prepare_directory();

    let err = cargo_hilly::scan(&fs).unwrap_err();
    assert_eq!(err, ScanError::NotFound);
}
