use cargo_hilly::Fs;
use cargo_hilly::FsPath;
use cargo_hilly::ModuleMigrator;

fn p(segs: &[&str]) -> FsPath {
    FsPath { segments: segs.iter().map(|s| s.to_string()).collect() }
}

/// A single crate at the root:
///
/// /Cargo.toml
/// /src/lib.rs
/// /src/foo.rs
/// /src/foo/bar.rs
/// /src/bar/mod.rs
/// /src/bar/baz.rs
fn prepare_directory() -> Fs {
    let mut fs = Fs::new();
    fs.add_dir(&p(&["src"]));
    fs.add_dir(&p(&["src", "foo"]));
    fs.add_dir(&p(&["src", "bar"]));
    fs.add_file(&p(&["Cargo.toml"]));
    fs.add_file(&p(&["src", "lib.rs"]));
    fs.add_file(&p(&["src", "foo.rs"]));
    fs.add_file(&p(&["src", "foo", "bar.rs"]));
    fs.add_file(&p(&["src", "bar", "mod.rs"]));
    fs.add_file(&p(&["src", "bar", "baz.rs"]));
    fs
}

#[test]
fn should_move_the_files() {
    let mut fs = prepare_directory();
    let result = cargo_hilly::scan(&fs).unwrap();
    assert_eq!(result.len(), 1);

    let (src, dst) = result.first().unwrap();
    assert_eq!(src.segments, vec!["src".to_string(), "foo.rs".to_string()]);
    assert_eq!(dst.segments, vec!["src".to_string(), "foo".to_string(), "mod.rs".to_string()]);
    for (src, dst) in result.iter() {
        ModuleMigrator.migrate(&mut fs, src, dst);
    }

    assert!(fs.is_file(&p(&["src", "lib.rs"])));
    assert!(!fs.has_entry(&p(&["src", "foo.rs"])));
    assert!(fs.is_file(&p(&["src", "foo", "mod.rs"])));
    assert!(fs.is_file(&p(&["src", "foo", "bar.rs"])));
    assert!(fs.is_file(&p(&["src", "bar", "mod.rs"])));
    assert!(fs.is_file(&p(&["src", "bar", "baz.rs"])));
}
