//! Behaviour of the configuration state, the string index, and the GitLab
//! helper functions.

use developer_dashboard::config::{AppState, GitLabState};
use developer_dashboard::gitlab::{normalize_reviewers, scope_query, split_labels, trim_trailing_slashes};
use developer_dashboard::index::StringIndex;
use developer_dashboard::models::{MergeRequest, User};
use developer_dashboard::text::u32_to_string;

fn user(id: i64, username: &str) -> User {
    User {
        id,
        username: username.to_string(),
        name: username.to_string(),
        avatar_url: None,
        web_url: None,
    }
}

fn mr(id: i64, reviewers: Option<Vec<User>>) -> MergeRequest {
    MergeRequest {
        id,
        iid: id,
        title: "t".to_string(),
        description: "d".to_string(),
        state: "opened".to_string(),
        source_branch: "feature".to_string(),
        target_branch: "main".to_string(),
        author: user(1, "author"),
        assignees: Vec::new(),
        reviewers,
        upvotes: 0,
        downvotes: 0,
        pipeline: None,
        has_conflicts: false,
        draft: false,
        labels: Vec::new(),
        created_at: "c".to_string(),
        updated_at: "u".to_string(),
        merged_at: None,
        closed_at: None,
        web_url: "w".to_string(),
        project_id: 9,
    }
}

#[test]
fn github_token_setting() {
    let mut st = AppState::new();
    assert_eq!(st.github_token, None);
    st.set_github_token("tok".to_string());
    assert_eq!(st.github_token, Some("tok".to_string()));
    st.set_github_token("".to_string());
    assert_eq!(st.github_token, None);
}

#[test]
fn gitlab_credentials_snapshot() {
    let mut st = GitLabState::new();
    assert_eq!(st.credentials(), None);
    st.set_credentials("https://gitlab.example".to_string(), "tok".to_string());
    assert_eq!(
        st.credentials(),
        Some(("https://gitlab.example".to_string(), "tok".to_string()))
    );
    st.set_credentials("https://gitlab.example".to_string(), "".to_string());
    assert_eq!(st.credentials(), None);
}

#[test]
fn string_index_insert_replace_lookup() {
    let mut idx = StringIndex::new();
    assert_eq!(idx.get("a/b"), None);
    idx.insert("a/b".to_string(), "v1".to_string());
    idx.insert("c/d".to_string(), "v2".to_string());
    assert_eq!(idx.get("a/b"), Some(&"v1".to_string()));
    idx.insert("a/b".to_string(), "v3".to_string());
    assert_eq!(idx.get("a/b"), Some(&"v3".to_string()));
    assert_eq!(idx.get("c/d"), Some(&"v2".to_string()));
    assert_eq!(idx.get("e/f"), None);
}

#[test]
fn base_url_normalization() {
    assert_eq!(trim_trailing_slashes("https://gitlab.com///"), "https://gitlab.com");
    assert_eq!(trim_trailing_slashes("https://gitlab.com"), "https://gitlab.com");
    assert_eq!(trim_trailing_slashes(""), "");
    assert_eq!(trim_trailing_slashes("///"), "");
}

#[test]
fn scope_query_building() {
    assert_eq!(scope_query(None), "?scope=all");
    assert_eq!(scope_query(Some("opened")), "?scope=all&state=opened");
}

#[test]
fn label_splitting() {
    assert_eq!(
        split_labels(" bug , feature ,,  urgent"),
        vec!["bug".to_string(), "feature".to_string(), "urgent".to_string()]
    );
    assert_eq!(split_labels(""), Vec::<String>::new());
    assert_eq!(split_labels(" , ,"), Vec::<String>::new());
    assert_eq!(split_labels("solo"), vec!["solo".to_string()]);
}

#[test]
fn reviewer_normalization() {
    let mut mrs = vec![mr(1, None), mr(2, Some(vec![user(5, "rev")]))];
    normalize_reviewers(&mut mrs);
    assert_eq!(mrs[0].reviewers, Some(Vec::new()));
    assert_eq!(mrs[1].reviewers, Some(vec![user(5, "rev")]));
    assert_eq!(mrs[0].id, 1);
    assert_eq!(mrs[1].id, 2);
}

#[test]
fn decimal_rendering() {
    assert_eq!(u32_to_string(0), "0");
    assert_eq!(u32_to_string(7), "7");
    assert_eq!(u32_to_string(10), "10");
    assert_eq!(u32_to_string(12345), "12345");
    assert_eq!(u32_to_string(u32::MAX), "4294967295");
}
