use repoctx::filter::{FileFilters, FilterError};
use repoctx::walk::CandidateFile;

fn strings(items: &[&str]) -> Vec<String> {
    items.iter().map(|s| s.to_string()).collect()
}

#[test]
fn allows_everything_without_patterns() {
    let filters = FileFilters::from_patterns(&[], &[]).expect("filters should build");

    assert!(filters.allows("src/main.rs"));
    assert!(filters.allows("Cargo.toml"));
}

#[test]
fn include_patterns_allow_only_matches() {
    let filters =
        FileFilters::from_patterns(&["src/**/*.rs".to_string(), "Cargo.toml".to_string()], &[])
            .expect("filters should build");

    assert!(filters.allows("src/main.rs"));
    assert!(filters.allows("src/command/run.rs"));
    assert!(filters.allows("Cargo.toml"));
    assert!(!filters.allows("README.md"));
}

#[test]
fn exclude_patterns_remove_matches() {
    let filters =
        FileFilters::from_patterns(&[], &["target/**".to_string(), "*.lock".to_string()])
            .expect("filters should build");

    assert!(filters.allows("src/main.rs"));
    assert!(!filters.allows("target/debug/ctx"));
    assert!(!filters.allows("Cargo.lock"));
}

#[test]
fn include_and_exclude_can_be_combined() {
    let filters = FileFilters::from_patterns(
        &["src/**/*.rs".to_string()],
        &["src/generated/**".to_string()],
    )
    .expect("filters should build");

    assert!(filters.allows("src/main.rs"));
    assert!(!filters.allows("src/generated/bindings.rs"));
    assert!(!filters.allows("README.md"));
}

#[test]
fn invalid_patterns_return_errors() {
    let result = FileFilters::from_patterns(&["[".to_string()], &[]);

    assert!(result.is_err());
}

#[test]
fn first_invalid_include_pattern_is_reported() {
    let result = FileFilters::from_patterns(&strings(&["*.rs", "a{b", "["]), &strings(&["["]));
    match result {
        Err(FilterError::InvalidPattern { kind, pattern, cause }) => {
            assert_eq!(kind, "include");
            assert_eq!(pattern, "a{b");
            assert!(cause.contains("a{b"));
        }
        _ => panic!("expected an invalid include pattern"),
    }
}

#[test]
fn invalid_exclude_pattern_is_reported_after_valid_includes() {
    let result = FileFilters::from_patterns(&strings(&["*.rs"]), &strings(&["ok/**", "x\\"]));
    match result {
        Err(e) => {
            match &e {
                FilterError::InvalidPattern { kind, pattern, cause } => {
                    assert_eq!(kind, "exclude");
                    assert_eq!(pattern, "x\\");
                    assert_eq!(cause, "error parsing glob 'x\\': dangling '\\'");
                }
                _ => panic!("expected an invalid exclude pattern"),
            }
            assert_eq!(e.message(), "invalid exclude pattern: x\\");
        }
        Ok(_) => panic!("expected an invalid exclude pattern"),
    }
}

#[test]
fn build_failure_message_names_the_kind() {
    let e = FilterError::BuildFailed { kind: "include".to_string(), cause: "too big".to_string() };
    assert_eq!(e.message(), "failed to build include pattern set");
}

#[test]
fn exclude_wins_over_include() {
    let filters = FileFilters::from_patterns(&strings(&["**/*.rs"]), &strings(&["**/*.rs"]))
        .expect("filters should build");
    assert!(!filters.allows("src/lib.rs"));
}

#[test]
fn retain_allowed_keeps_passing_files_in_order() {
    let filters = FileFilters::from_patterns(&strings(&["src/**"]), &strings(&["*.md"]))
        .expect("filters should build");
    let file = |p: &str| CandidateFile {
        absolute_path: format!("/r/{p}"),
        relative_path: p.to_string(),
        size_bytes: 1,
    };
    let files = vec![file("src/b.rs"), file("README.md"), file("src/a.rs"), file("src/notes.md")];
    let kept = filters.retain_allowed(&files);
    assert_eq!(kept, vec![file("src/b.rs"), file("src/a.rs")]);
}

#[test]
fn valid_patterns_build_filters() {
    let result = FileFilters::from_patterns(&strings(&["src/**", "*.toml"]), &strings(&["{a,b}/*.rs", "[!x]*"]));
    assert!(result.is_ok());
}
