use repoctx::walk::{
    admit_entry, is_default_excluded_dir, is_default_excluded_extension, looks_binary, sort_candidates,
    CandidateFile, EntryStep, MAX_FILE_SIZE_BYTES,
};

fn candidate(relative: &str, size: u64) -> CandidateFile {
    CandidateFile {
        absolute_path: format!("/repo/{relative}"),
        relative_path: relative.to_string(),
        size_bytes: size,
    }
}

#[test]
fn excludes_default_dirs_by_name() {
    assert!(is_default_excluded_dir("target"));
    assert!(is_default_excluded_dir("node_modules"));
    assert!(is_default_excluded_dir(".git"));
    assert!(!is_default_excluded_dir("src"));
}

#[test]
fn excludes_default_dirs_by_final_component() {
    assert!(is_default_excluded_dir("/home/me/project/.svelte-kit"));
    assert!(is_default_excluded_dir("web/dist"));
    assert!(!is_default_excluded_dir("target/src"));
    assert!(!is_default_excluded_dir(".."));
}

#[test]
fn excludes_default_binary_extensions() {
    assert!(is_default_excluded_extension("logo.png"));
    assert!(is_default_excluded_extension("archive.zip"));
    assert!(is_default_excluded_extension("font.woff2"));
    assert!(!is_default_excluded_extension("main.rs"));
}

#[test]
fn extensions_compare_in_lower_case() {
    assert!(is_default_excluded_extension("PHOTO.JPG"));
    assert!(is_default_excluded_extension("lib/Native.DyLib"));
    assert!(!is_default_excluded_extension("Makefile"));
    assert!(!is_default_excluded_extension(".png"));
}

#[test]
fn zero_byte_marks_binary() {
    assert!(looks_binary(&[b'a', 0, b'b']));
    assert!(!looks_binary(b"plain text\n"));
    assert!(!looks_binary(&[]));
}

#[test]
fn admit_entry_checks_in_order() {
    assert_eq!(admit_entry("/repo", "/repo/big.txt", MAX_FILE_SIZE_BYTES + 1, None), EntryStep::Skip);
    assert_eq!(admit_entry("/repo", "/repo/pic.png", 10, None), EntryStep::Skip);
    assert_eq!(admit_entry("/repo", "/repo/src/main.rs", 10, None), EntryStep::ReadSample);
    assert_eq!(admit_entry("/repo", "/repo/data.bin", 10, Some(&[1, 0, 2])), EntryStep::Skip);
    assert_eq!(
        admit_entry("/repo", "/repo/src/main.rs", MAX_FILE_SIZE_BYTES, Some(b"fn main() {}\n")),
        EntryStep::Keep(CandidateFile {
            absolute_path: "/repo/src/main.rs".to_string(),
            relative_path: "src/main.rs".to_string(),
            size_bytes: MAX_FILE_SIZE_BYTES,
        })
    );
    assert_eq!(admit_entry("/repo", "/elsewhere/x.rs", 3, Some(b"x")), EntryStep::NotUnderRoot);
}

#[test]
fn size_limit_is_half_a_mebibyte() {
    assert_eq!(MAX_FILE_SIZE_BYTES, 524288);
}

#[test]
fn sort_orders_by_components_and_is_stable() {
    let mut files = vec![
        candidate("src/main.rs", 1),
        candidate("Cargo.toml", 2),
        candidate("src-extra/a.rs", 3),
        candidate("src/a/b.rs", 4),
        candidate("src//main.rs", 5),
        candidate("README.md", 6),
    ];
    sort_candidates(&mut files);
    let order: Vec<u64> = files.iter().map(|f| f.size_bytes).collect();
    // "src" < "src-extra" component-wise although "src/" > "src-" as text;
    // "src//main.rs" equals "src/main.rs" as a path and keeps its place.
    assert_eq!(order, vec![2, 6, 4, 1, 5, 3]);
}

#[test]
fn extension_is_the_part_after_the_last_dot() {
    assert!(is_default_excluded_extension("dist/archive.tar.gz"));
    assert!(is_default_excluded_extension("a.b/.hidden.ZIP"));
    assert!(!is_default_excluded_extension("archive.gz.txt"));
    assert!(!is_default_excluded_extension("png."));
    assert!(!is_default_excluded_extension("dir.png/readme"));
}
