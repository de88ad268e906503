use relay_core::discovery::{select_rl_files, PathComponent, PathEntry};
use std::path::{Component, PathBuf};

fn entry(path: &str, is_file: bool) -> PathEntry {
    let p = PathBuf::from(path);
    let components = p
        .components()
        .map(|c| {
            let rank = match c {
                Component::Prefix(_) => 0,
                Component::RootDir => 1,
                Component::CurDir => 2,
                Component::ParentDir => 3,
                Component::Normal(_) => 4,
            };
            PathComponent { rank, bytes: c.as_os_str().as_encoded_bytes().to_vec() }
        })
        .collect();
    PathEntry { path: p, components, is_file }
}

fn names(found: &[PathEntry]) -> Vec<String> {
    found.iter().map(|e| e.path.display().to_string()).collect()
}

#[test]
fn test_find_rl_files() {
    let entries = vec![
        entry("/tmp/d", false),
        entry("/tmp/d/b.rl", true),
        entry("/tmp/d/a.rl", true),
        entry("/tmp/d/c.txt", true),
        entry("/tmp/d/sub", false),
        entry("/tmp/d/sub/z.rl", true),
    ];
    let files = select_rl_files(entries);
    assert_eq!(files.len(), 3);
    assert!(files[0].path.ends_with("a.rl"));
    assert!(files[1].path.ends_with("b.rl"));
    assert!(files[2].path.ends_with("z.rl"));
}

#[test]
fn order_is_that_of_paths() {
    let paths = ["d/a-b/x.rl", "d/a/x.rl", "d/B.rl", "d/a.rl", "d/ä.rl", "d/a/y.rl"];
    let entries: Vec<PathEntry> = paths.iter().map(|p| entry(p, true)).collect();
    let mut expected: Vec<PathBuf> = paths.iter().map(PathBuf::from).collect();
    expected.sort();
    let found = select_rl_files(entries);
    let expected: Vec<String> = expected.iter().map(|p| p.display().to_string()).collect();
    assert_eq!(names(&found), expected);
}

#[test]
fn only_files_with_rl_extension_are_kept() {
    let entries = vec![
        entry("d/.rl", true),
        entry("d/x.rl", false),
        entry("d/x.RL", true),
        entry("d/x.rl.bak", true),
        entry("d/..rl", true),
        entry("d/a.b.rl", true),
    ];
    assert_eq!(names(&select_rl_files(entries)), vec!["d/..rl", "d/a.b.rl"]);
}

#[test]
fn distinct_paths_come_out_strictly_ascending() {
    let paths = ["r/c.rl", "r/a/b.rl", "r/a.rl", "r/b/a.rl", "r/a b.rl", "r/A.rl"];
    let found = select_rl_files(paths.iter().map(|p| entry(p, true)).collect());
    assert_eq!(found.len(), paths.len());
    for w in found.windows(2) {
        assert!(w[0].path < w[1].path);
    }
}
