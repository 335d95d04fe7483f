use cargo_hilly::Fs;
use cargo_hilly::FsPath;

fn p(segs: &[&str]) -> FsPath {
    FsPath { segments: segs.iter().map(|s| s.to_string()).collect() }
}

/// One crate whose source tree mixes an eligible flat module with files
/// the scanner must skip: a directory module that is already in place, a
/// file without the source extension, and one without a sibling directory.
fn prepare_directory() -> Fs {
    let mut fs = Fs::new();
    fs.add_dir(&p(&["src"]));
    fs.add_dir(&p(&["src", "foo"]));
    fs.add_dir(&p(&["src", "bar"]));
    fs.add_file(&p(&["Cargo.toml"]));
    fs.add_file(&p(&["src", "lib.rs"]));
    fs.add_file(&p(&["src", "foo.rs"]));
    fs.add_file(&p(&["src", "foo", "bar.rs"]));
    fs.add_file(&p(&["src", "bar", "mod.rs"]));
    fs.add_file(&p(&["src", "bar", "baz.rs"]));
    fs.add_file(&p(&["src", "bar", "no-prefix"]));
    fs.add_file(&p(&["src", "some-data.json"]));
    fs
}

#[test]
fn should_return_the_files_to_move() {
    let fs = prepare_directory();
    let mut result = cargo_hilly::scan(&fs).unwrap();
    assert_eq!(result.len(), 1);
    let (src, dst) = result.pop().unwrap();
    assert_eq!(src.segments, vec!["src".to_string(), "foo.rs".to_string()]);
    assert_eq!(dst.segments, vec!["src".to_string(), "foo".to_string(), "mod.rs".to_string()]);
}
