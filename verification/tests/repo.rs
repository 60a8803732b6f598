use repoctx::repo::{find_git_root_step, Repo, RootSearch};

#[test]
fn repo_name_is_final_component() {
    let repo = Repo::from_root_for_test("/home/me/projects/repoctx".to_string());
    assert_eq!(repo.name(), "repoctx");
    assert_eq!(repo.root(), "/home/me/projects/repoctx");
}

#[test]
fn repo_name_falls_back_to_unknown() {
    assert_eq!(Repo::from_root_for_test("/".to_string()).name(), "unknown");
    assert_eq!(Repo::from_root_for_test("/a/..".to_string()).name(), "unknown");
}

#[test]
fn root_search_steps() {
    assert_eq!(find_git_root_step("/a/b", true), RootSearch::Found("/a/b".to_string()));
    assert_eq!(find_git_root_step("/a/b", false), RootSearch::Ascend("/a".to_string()));
    assert_eq!(find_git_root_step("/", false), RootSearch::NotFound);
}
