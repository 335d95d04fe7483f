use cargo_hilly::Args;
use cargo_hilly::CratesScanner;
use cargo_hilly::Fs;
use cargo_hilly::FsPath;
use cargo_hilly::ModuleMigrator;
use cargo_hilly::RunOutcome;
use cargo_hilly::is_rust_file;
use cargo_hilly::run_outcome;

fn p(segs: &[&str]) -> FsPath {
    FsPath { segments: segs.iter().map(|s| s.to_string()).collect() }
}

fn single_package(fs: &mut Fs) {
    fs.add_dir(&p(&["src"]));
    fs.add_file(&p(&["Cargo.toml"]));
}

#[test]
fn existing_root_file_blocks_the_candidate() {
    let mut fs = Fs::new();
    single_package(&mut fs);
    fs.add_file(&p(&["src", "foo.rs"]));
    fs.add_dir(&p(&["src", "foo"]));
    fs.add_file(&p(&["src", "foo", "mod.rs"]));
    fs.add_file(&p(&["src", "foo", "other.rs"]));
    let result = cargo_hilly::scan(&fs).unwrap();
    assert_eq!(result.len(), 0);
}

#[test]
fn root_file_is_never_a_source() {
    let mut fs = Fs::new();
    single_package(&mut fs);
    fs.add_file(&p(&["src", "mod.rs"]));
    fs.add_dir(&p(&["src", "mod"]));
    let result = cargo_hilly::scan(&fs).unwrap();
    assert_eq!(result.len(), 0);
}

#[test]
fn missing_or_non_directory_sibling_is_skipped() {
    let mut fs = Fs::new();
    single_package(&mut fs);
    fs.add_file(&p(&["src", "alone.rs"]));
    fs.add_file(&p(&["src", "twin.rs"]));
    fs.add_file(&p(&["src", "twin"]));
    let result = cargo_hilly::scan(&fs).unwrap();
    assert_eq!(result.len(), 0);
}

#[test]
fn deep_flat_module_is_found() {
    let mut fs = Fs::new();
    single_package(&mut fs);
    fs.add_dir(&p(&["src", "a"]));
    fs.add_dir(&p(&["src", "a", "b"]));
    fs.add_file(&p(&["src", "a", "b", "foo.rs"]));
    fs.add_dir(&p(&["src", "a", "b", "foo"]));
    let result = cargo_hilly::scan(&fs).unwrap();
    assert_eq!(result.len(), 1);
    assert_eq!(
        result[0].0.segments,
        vec!["src".to_string(), "a".to_string(), "b".to_string(), "foo.rs".to_string()]
    );
    assert_eq!(
        result[0].1.segments,
        vec![
            "src".to_string(),
            "a".to_string(),
            "b".to_string(),
            "foo".to_string(),
            "mod.rs".to_string()
        ]
    );
}

#[test]
fn package_nested_in_source_subtree_is_not_discovered() {
    let mut fs = Fs::new();
    single_package(&mut fs);
    fs.add_dir(&p(&["src", "inner"]));
    fs.add_file(&p(&["src", "inner", "Cargo.toml"]));
    fs.add_dir(&p(&["src", "inner", "src"]));
    let mut scanner = CratesScanner::default();
    scanner.scan(&fs);
    let roots = scanner.into_inner();
    assert_eq!(roots.len(), 1);
    assert!(roots[0].segments.is_empty());
}

#[test]
fn second_scan_after_migration_finds_nothing() {
    let mut fs = Fs::new();
    single_package(&mut fs);
    fs.add_file(&p(&["src", "foo.rs"]));
    fs.add_dir(&p(&["src", "foo"]));
    fs.add_file(&p(&["src", "bar.rs"]));
    fs.add_dir(&p(&["src", "bar"]));
    let result = cargo_hilly::scan(&fs).unwrap();
    assert_eq!(result.len(), 2);
    for (src, dst) in result.iter() {
        ModuleMigrator.migrate(&mut fs, src, dst);
    }
    let again = cargo_hilly::scan(&fs).unwrap();
    assert_eq!(again.len(), 0);
}

#[test]
fn rust_file_names_are_recognized() {
    assert!(is_rust_file(&"foo.rs".to_string()));
    assert!(is_rust_file(&"mod.rs".to_string()));
    assert!(is_rust_file(&"a.b.rs".to_string()));
    assert!(!is_rust_file(&".rs".to_string()));
    assert!(!is_rust_file(&"data.json".to_string()));
    assert!(!is_rust_file(&"no-prefix".to_string()));
}

#[test]
fn flags_fold_into_args() {
    let args = Args::default();
    assert!(!args.dry_run && !args.check && !args.dry_run());

    let args = Args::default().with_arg("--dry-run".to_string());
    assert!(args.dry_run && !args.check && args.dry_run());

    let args = Args::default().with_arg("--check".to_string());
    assert!(!args.dry_run && args.check && args.dry_run());

    let args = Args::default().with_arg("target/debug/tool".to_string());
    assert!(!args.dry_run && !args.check && !args.dry_run());
}

#[test]
fn outcomes_follow_the_findings() {
    let plain = Args::default();
    let check = Args::default().with_arg("--check".to_string());
    assert_eq!(run_outcome(false, 0, &plain), RunOutcome::NotFound);
    assert_eq!(run_outcome(true, 0, &plain), RunOutcome::Clean);
    assert_eq!(run_outcome(true, 3, &check), RunOutcome::Pending(3));
    assert_eq!(run_outcome(true, 3, &plain), RunOutcome::Migrated(3));
}
