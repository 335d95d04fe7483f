use cargo_hilly::Fs;
use cargo_hilly::FsPath;
use cargo_hilly::ModuleMigrator;

fn p(segs: &[&str]) -> FsPath {
    FsPath { segments: segs.iter().map(|s| s.to_string()).collect() }
}

fn join(root: &[&str], rest: &[&str]) -> FsPath {
    let mut segs: Vec<String> = root.iter().map(|s| s.to_string()).collect();
    segs.extend(rest.iter().map(|s| s.to_string()));
    FsPath { segments: segs }
}

fn create_crate(fs: &mut Fs, root: &[&str]) {
    for k in 1..=root.len() {
        fs.add_dir(&p(&root[..k]));
    }
    for section in [&["src"][..], &["src", "foo"][..], &["src", "bar"][..]] {
        for k in 1..=section.len() {
            fs.add_dir(&join(root, &section[..k]));
        }
    }
    fs.add_file(&join(root, &["Cargo.toml"]));
    fs.add_file(&join(root, &["src", "lib.rs"]));
    fs.add_file(&join(root, &["src", "foo.rs"]));
    fs.add_file(&join(root, &["src", "foo", "bar.rs"]));
    fs.add_file(&join(root, &["src", "bar", "mod.rs"]));
    fs.add_file(&join(root, &["src", "bar", "baz.rs"]));
    fs.add_file(&join(root, &["src", "bar", "no-prefix"]));
    fs.add_file(&join(root, &["src", "some-data.json"]));
}

/// Two sibling packages under one workspace root:
///
/// /Cargo.toml
/// /packages/first/...
/// /packages/second/...
fn prepare_directory() -> Fs {
    let mut fs = Fs::new();
    fs.add_file(&p(&["Cargo.toml"]));
    create_crate(&mut fs, &["packages", "first"]);
    create_crate(&mut fs, &["packages", "second"]);
    fs
}

#[test]
fn monorepo_should_move_the_files() {
    let mut fs = prepare_directory();
    let result = cargo_hilly::scan(&fs).unwrap();
    assert_eq!(result.len(), 2);

    for (src, dst) in result.iter() {
        ModuleMigrator.migrate(&mut fs, src, dst);
    }

    for subdir in [&["packages", "first"][..], &["packages", "second"][..]] {
        assert!(fs.is_file(&join(subdir, &["src", "lib.rs"])));
        assert!(!fs.has_entry(&join(subdir, &["src", "foo.rs"])));
        assert!(fs.is_file(&join(subdir, &["src", "foo", "mod.rs"])));
        assert!(fs.is_file(&join(subdir, &["src", "foo", "bar.rs"])));
        assert!(fs.is_file(&join(subdir, &["src", "bar", "mod.rs"])));
        assert!(fs.is_file(&join(subdir, &["src", "bar", "baz.rs"])));
    }
}
