use repoctx::render::{
    first_occurrence_flags, render_digest, render_file_block, render_files_section, render_header,
    render_tree_section, FILE_SEPARATOR,
};
use repoctx::repo::Repo;
use repoctx::text::push_decimal;
use repoctx::tree::{build_tree, insert_path, render_tree_node, TreeNode};
use repoctx::walk::CandidateFile;

fn fake_repo(path: &str) -> Repo {
    Repo::from_root_for_test(path.to_string())
}

fn candidate(relative: &str, size: u64) -> CandidateFile {
    CandidateFile {
        absolute_path: format!("/tmp/repo/{relative}"),
        relative_path: relative.to_string(),
        size_bytes: size,
    }
}

#[test]
fn renders_tree_with_nested_files() {
    let files = vec![
        CandidateFile {
            absolute_path: "/tmp/repo/src/main.rs".to_string(),
            relative_path: "src/main.rs".to_string(),
            size_bytes: 10,
        },
        CandidateFile {
            absolute_path: "/tmp/repo/Cargo.toml".to_string(),
            relative_path: "Cargo.toml".to_string(),
            size_bytes: 10,
        },
    ];

    let mut output = String::new();
    render_tree_section(&mut output, &fake_repo("/tmp/repo"), &files);

    assert!(output.contains("repo/"));
    assert!(output.contains("Cargo.toml"));
    assert!(output.contains("src/"));
    assert!(output.contains("main.rs"));
}

#[test]
fn renders_file_blocks_with_path_headers() {
    let files = vec![CandidateFile {
        absolute_path: "/tmp/repo/src/main.rs".to_string(),
        relative_path: "src/main.rs".to_string(),
        size_bytes: 13,
    }];
    let contents = vec!["fn main() {}\n".to_string()];

    let mut output = String::new();
    render_files_section(&mut output, &files, &contents);

    assert!(output.contains("FILE: src/main.rs"));
    assert!(output.contains("fn main() {}"));
}

#[test]
fn tree_section_is_drawn_exactly() {
    let files = vec![
        candidate("src/main.rs", 1),
        candidate("Cargo.toml", 1),
        candidate("src/cli/args.rs", 1),
        candidate("README.md", 1),
    ];
    let mut output = String::new();
    render_tree_section(&mut output, &fake_repo("/tmp/repo"), &files);
    let expected = "## Directory structure\n\n```text\nrepo/\n\
├── Cargo.toml\n\
├── README.md\n\
└── src/\n    \
├── cli/\n    \
│   └── args.rs\n    \
└── main.rs\n\
```\n\n";
    assert_eq!(output, expected);
}

#[test]
fn first_path_decides_file_or_directory() {
    let mut root = TreeNode::directory();
    insert_path(&mut root, "a");
    insert_path(&mut root, "a/b");
    let mut out = String::new();
    render_tree_node(&mut out, &"x".to_string(), &root, "", true);
    assert_eq!(out, "└── x/\n    └── a\n        └── b\n");

    let tree = build_tree(&[candidate("a/b", 1), candidate("a", 1)]);
    let mut out = String::new();
    render_tree_node(&mut out, "x", &tree, "", false);
    assert_eq!(out, "├── x/\n│   └── a/\n│       └── b\n");
}

#[test]
fn inserting_a_path_twice_changes_nothing() {
    let mut root = TreeNode::directory();
    insert_path(&mut root, "src/lib.rs");
    let mut once = String::new();
    render_tree_node(&mut once, "r", &root, "", true);
    insert_path(&mut root, "src/lib.rs");
    let mut twice = String::new();
    render_tree_node(&mut twice, "r", &root, "", true);
    assert_eq!(once, twice);
}

#[test]
fn header_counts_files_and_bytes() {
    let files = vec![candidate("a.txt", 1200), candidate("b.txt", 34)];
    let mut output = String::new();
    render_header(&mut output, &fake_repo("/srv/code/demo"), &files);
    assert_eq!(
        output,
        "# Repository Context\n\nRepository: demo\nRoot: /srv/code/demo\nFiles: 2\nBytes: 1234\n\n"
    );
}

#[test]
fn decimal_formatting() {
    let mut s = String::new();
    push_decimal(&mut s, 0);
    s.push(' ');
    push_decimal(&mut s, 9);
    s.push(' ');
    push_decimal(&mut s, 10);
    s.push(' ');
    push_decimal(&mut s, u64::MAX);
    assert_eq!(s, format!("0 9 10 {}", u64::MAX));
}

#[test]
fn file_block_adds_missing_line_break() {
    let mut out = String::new();
    render_file_block(&mut out, "notes.txt", "no newline");
    assert_eq!(
        out,
        format!("{FILE_SEPARATOR}\nFILE: notes.txt\n{FILE_SEPARATOR}\nno newline\n\n")
    );
    let mut out = String::new();
    render_file_block(&mut out, "empty.txt", "");
    assert_eq!(out, format!("{FILE_SEPARATOR}\nFILE: empty.txt\n{FILE_SEPARATOR}\n\n\n"));
}

#[test]
fn duplicate_paths_render_once() {
    let files = vec![candidate("a.txt", 1), candidate("./a.txt", 1), candidate("b.txt", 1), candidate("a.txt", 1)];
    let flags = first_occurrence_flags(&files);
    assert_eq!(flags, vec![true, true, true, false]);
    let contents = vec!["A\n".to_string(), "A2\n".to_string(), "B\n".to_string(), "ignored".to_string()];
    let mut out = String::new();
    render_files_section(&mut out, &files, &contents);
    assert_eq!(out.matches("FILE: a.txt").count(), 1);
    assert!(!out.contains("ignored"));
    assert!(out.starts_with("## Files\n\n"));
}

#[test]
fn digest_has_three_sections_in_order() {
    let files = vec![candidate("src/lib.rs", 5)];
    let contents = vec!["pub fn f() {}\n".to_string()];
    let digest = render_digest(&fake_repo("/w/proj"), &files, &contents);
    let expected = format!(
        "# Repository Context\n\nRepository: proj\nRoot: /w/proj\nFiles: 1\nBytes: 5\n\n\
## Directory structure\n\n```text\nproj/\n└── src/\n    └── lib.rs\n```\n\n\
## Files\n\n{FILE_SEPARATOR}\nFILE: src/lib.rs\n{FILE_SEPARATOR}\npub fn f() {{}}\n\n"
    );
    assert_eq!(digest, expected);
}

#[test]
fn empty_repository_digest() {
    let digest = render_digest(&fake_repo("/w/empty"), &[], &[]);
    assert_eq!(
        digest,
        "# Repository Context\n\nRepository: empty\nRoot: /w/empty\nFiles: 0\nBytes: 0\n\n\
## Directory structure\n\n```text\nempty/\n```\n\n## Files\n\n"
    );
}

#[test]
fn insertion_order_of_distinct_paths_does_not_change_the_drawing() {
    let repo = fake_repo("/tmp/repo");
    let mut first = String::new();
    render_tree_section(&mut first, &repo, &[candidate("b/x", 1), candidate("a", 1), candidate("b/y", 1)]);
    let mut second = String::new();
    render_tree_section(&mut second, &repo, &[candidate("a", 1), candidate("b/y", 1), candidate("b/x", 1)]);
    assert_eq!(first, second);
    assert!(first.contains("├── a\n└── b/\n    ├── x\n    └── y\n"));
}

#[test]
fn repeated_and_reordered_paths_give_the_same_tree_section() {
    let repo = fake_repo("/tmp/repo");
    let mut first = String::new();
    render_tree_section(&mut first, &repo, &[candidate("b/x", 1), candidate("a", 2), candidate("b/x", 3)]);
    let mut second = String::new();
    render_tree_section(&mut second, &repo, &[candidate("a", 4), candidate("b/x", 5)]);
    assert_eq!(first, second);
}
