//! End-to-end behaviour of the extraction, inference, enrichment and export
//! pipeline on concrete documents and histories.

use developer_dashboard::enrich::{enrich, parse_list_url};
use developer_dashboard::export::{parse_export_format, render_csv, ExportFormat};
use developer_dashboard::extract::{extract, extract_repo_links, extract_repo_links_with_categories};
use developer_dashboard::index::StringIndex;
use developer_dashboard::infer::infer_added_dates;
use developer_dashboard::models::{CommitRecord, License, RepoReference, Repository};

fn commit(sha: &str, message: &str, date: &str) -> CommitRecord {
    CommitRecord {
        sha: sha.to_string(),
        message: message.to_string(),
        authored_date: date.to_string(),
    }
}

fn repo(name: &str, full_name: &str, stars: u32, forks: u32) -> Repository {
    Repository {
        id: 1,
        name: name.to_string(),
        full_name: full_name.to_string(),
        description: None,
        html_url: format!("https://github.com/{}", full_name),
        homepage: None,
        stargazers_count: stars,
        forks_count: forks,
        open_issues_count: 0,
        language: None,
        license: None,
        topics: Vec::new(),
        updated_at: "2024-01-01T00:00:00Z".to_string(),
        created_at: "2020-01-01T00:00:00Z".to_string(),
        added_to_list_at: None,
    }
}

#[test]
fn test_extract_repo_links() {
    let markdown = r#"
# Awesome List

- [Project 1](https://github.com/user1/repo1) - Description
- [Project 2](https://github.com/user2/repo2)

https://github.com/user3/repo3

## Section
- https://github.com/user1/repo1 (duplicate)
        "#;

    let repos = extract_repo_links(markdown);
    assert_eq!(repos.len(), 3);
    assert_eq!(repos[0], ("user1".to_string(), "repo1".to_string()));
    assert_eq!(repos[1], ("user2".to_string(), "repo2".to_string()));
    assert_eq!(repos[2], ("user3".to_string(), "repo3".to_string()));
}

#[test]
fn categories_example_document() {
    let markdown = "# List\n- [P1](https://github.com/user1/repo1) desc\n- [P2](https://github.com/user2/repo2)\nhttps://github.com/user3/repo3\n## Section\n- https://github.com/user1/repo1 (dup)\n";
    let repos = extract_repo_links_with_categories(markdown);
    assert_eq!(
        repos,
        vec![
            (
                "user1".to_string(),
                "repo1".to_string(),
                "Uncategorized".to_string()
            ),
            (
                "user2".to_string(),
                "repo2".to_string(),
                "Uncategorized".to_string()
            ),
            (
                "user3".to_string(),
                "repo3".to_string(),
                "Uncategorized".to_string()
            ),
        ]
    );
}

#[test]
fn dedup_keeps_first_category() {
    let markdown = "## X\nhttps://github.com/a/b\n## Y\nhttps://github.com/a/b\nhttps://github.com/c/d\n";
    let repos = extract_repo_links_with_categories(markdown);
    assert_eq!(
        repos,
        vec![
            ("a".to_string(), "b".to_string(), "X".to_string()),
            ("c".to_string(), "d".to_string(), "Y".to_string()),
        ]
    );
}

#[test]
fn heading_scoping() {
    // A link before any heading is "Uncategorized"; a link on the heading
    // line itself already belongs to that heading.
    let markdown = "https://github.com/pre/head\n## Tools https://github.com/same/line\nhttps://github.com/after/heading\n";
    let repos = extract_repo_links_with_categories(markdown);
    assert_eq!(repos.len(), 3);
    assert_eq!(
        repos[0],
        (
            "pre".to_string(),
            "head".to_string(),
            "Uncategorized".to_string()
        )
    );
    assert_eq!(repos[1].2, "Tools https://github.com/same/line");
    assert_eq!(repos[1].0, "same");
    assert_eq!(repos[2].2, "Tools https://github.com/same/line");
    assert_eq!(repos[2].0, "after");
}

#[test]
fn heading_levels_and_trimming() {
    let markdown = "#### NotAHeading\nhttps://github.com/a/b\n###   Spaced Heading  \nhttps://github.com/c/d\n";
    let repos = extract_repo_links_with_categories(markdown);
    assert_eq!(repos[0].2, "Uncategorized");
    assert_eq!(repos[1].2, "Spaced Heading");
}

#[test]
fn rejects_sponsors_and_query_links() {
    let markdown = "https://github.com/sponsors/foo\nhttps://github.com/a/b?tab=readme\nhttps://github.com/c/d&x\nhttps://github.com/ok/fine\n";
    let repos = extract_repo_links(markdown);
    assert_eq!(repos, vec![("ok".to_string(), "fine".to_string())]);
}

#[test]
fn name_terminates_at_hash_paren_slash() {
    let markdown = "see https://github.com/a/b#readme and (https://github.com/c/d) and https://github.com/e/f/tree/main\n";
    let repos = extract_repo_links(markdown);
    assert_eq!(
        repos,
        vec![
            ("a".to_string(), "b".to_string()),
            ("c".to_string(), "d".to_string()),
            ("e".to_string(), "f".to_string()),
        ]
    );
}

#[test]
fn extract_never_fails_on_degenerate_input() {
    assert_eq!(extract("").len(), 0);
    assert_eq!(extract("no links here\n\n##\n###x\nhttp://\n").len(), 0);
    let refs = extract("https://github.com/x/y");
    assert_eq!(refs.len(), 1);
    assert_eq!(
        refs[0],
        RepoReference {
            owner: "x".to_string(),
            name: "y".to_string(),
            category: "Uncategorized".to_string(),
        }
    );
}

#[test]
fn date_inference_earliest_match() {
    // Newest-first history: T3, T2, T1 with T1 oldest. The earliest
    // oldest-to-newest match is the T2 commit, not T1 or T3.
    let commits = vec![
        commit("c3", "update readme", "T3"),
        commit("c2", "add user1/repo1", "T2"),
        commit("c1", "initial", "T1"),
    ];
    let targets = vec![("user1".to_string(), "repo1".to_string())];
    let idx = infer_added_dates(&commits, &targets);
    assert_eq!(idx.get("user1/repo1"), Some(&"T2".to_string()));
}

#[test]
fn date_inference_is_case_insensitive() {
    // Matching goes through lowercasing on both sides.
    let commits = vec![commit("c1", "Add User1/Repo1", "T1")];
    let targets = vec![("user1".to_string(), "repo1".to_string())];
    let idx = infer_added_dates(&commits, &targets);
    assert_eq!(idx.get("user1/repo1"), Some(&"T1".to_string()));
}

#[test]
fn date_inference_loose_heuristic() {
    // "add" plus the bare repository name matches even without the owner.
    let commits = vec![
        commit("c2", "some change", "T2"),
        commit("c1", "added shinything to the list", "T1"),
    ];
    let targets = vec![("someone".to_string(), "shinything".to_string())];
    let idx = infer_added_dates(&commits, &targets);
    assert_eq!(idx.get("someone/shinything"), Some(&"T1".to_string()));
}

#[test]
fn date_inference_absence() {
    let commits = vec![commit("c1", "initial", "T1")];
    let targets = vec![("user1".to_string(), "repo1".to_string())];
    let idx = infer_added_dates(&commits, &targets);
    assert_eq!(idx.get("user1/repo1"), None);
}

#[test]
fn date_inference_empty_history() {
    let commits: Vec<CommitRecord> = Vec::new();
    let targets = vec![
        ("a".to_string(), "b".to_string()),
        ("c".to_string(), "d".to_string()),
    ];
    let idx = infer_added_dates(&commits, &targets);
    assert_eq!(idx.get("a/b"), None);
    assert_eq!(idx.get("c/d"), None);
}

#[test]
fn enrichment_merges_dates_and_categories() {
    let refs = vec![
        RepoReference {
            owner: "u1".to_string(),
            name: "r1".to_string(),
            category: "X".to_string(),
        },
        RepoReference {
            owner: "u2".to_string(),
            name: "r2".to_string(),
            category: "Y".to_string(),
        },
    ];
    let metadata = vec![Some(repo("r1", "u1/r1", 10, 2)), Some(repo("r2", "u2/r2", 5, 1))];
    let mut dates = StringIndex::new();
    dates.insert("u1/r1".to_string(), "T9".to_string());
    let records = enrich(&refs, &metadata, &dates);
    assert_eq!(records.len(), 2);
    assert_eq!(records[0].full_name, "u1/r1");
    assert_eq!(records[0].added_to_list_at, Some("T9".to_string()));
    assert_eq!(records[1].full_name, "u2/r2");
    assert_eq!(records[1].added_to_list_at, None);
}

#[test]
fn enrichment_isolates_single_failure() {
    // One failing metadata fetch among three costs exactly that record.
    let refs = vec![
        RepoReference {
            owner: "u1".to_string(),
            name: "r1".to_string(),
            category: "X".to_string(),
        },
        RepoReference {
            owner: "u2".to_string(),
            name: "r2".to_string(),
            category: "X".to_string(),
        },
        RepoReference {
            owner: "u3".to_string(),
            name: "r3".to_string(),
            category: "X".to_string(),
        },
    ];
    let metadata = vec![Some(repo("r1", "u1/r1", 1, 0)), None, Some(repo("r3", "u3/r3", 3, 0))];
    let dates = StringIndex::new();
    let records = enrich(&refs, &metadata, &dates);
    assert_eq!(records.len(), 2);
    assert_eq!(records[0].full_name, "u1/r1");
    assert_eq!(records[1].full_name, "u3/r3");
}

#[test]
fn enrichment_degrades_without_dates() {
    // A failed or empty commit-history fetch leaves every record without an
    // addition date, but the run still succeeds.
    let commits: Vec<CommitRecord> = Vec::new();
    let targets = vec![("u1".to_string(), "r1".to_string())];
    let dates = infer_added_dates(&commits, &targets);
    let refs = vec![RepoReference {
        owner: "u1".to_string(),
        name: "r1".to_string(),
        category: "X".to_string(),
    }];
    let metadata = vec![Some(repo("r1", "u1/r1", 1, 0))];
    let records = enrich(&refs, &metadata, &dates);
    assert_eq!(records.len(), 1);
    assert_eq!(records[0].added_to_list_at, None);
}

#[test]
fn parse_list_url_variants() {
    assert_eq!(
        parse_list_url("https://github.com/owner/repo"),
        Ok(("owner".to_string(), "repo".to_string()))
    );
    assert_eq!(
        parse_list_url("https://github.com/owner/repo///"),
        Ok(("owner".to_string(), "repo".to_string()))
    );
    assert_eq!(
        parse_list_url("owner/repo"),
        Ok(("owner".to_string(), "repo".to_string()))
    );
    assert_eq!(
        parse_list_url("norepo"),
        Err("Invalid GitHub URL".to_string())
    );
    assert_eq!(parse_list_url(""), Err("Invalid GitHub URL".to_string()));
}

#[test]
fn csv_rendering_exact() {
    let mut with_fields = repo("r1", "u1/r1", 12345, 0);
    with_fields.description = Some("A tool".to_string());
    with_fields.language = Some("Rust".to_string());
    with_fields.license = Some(License {
        key: "mit".to_string(),
        name: "MIT License".to_string(),
        spdx_id: Some("MIT".to_string()),
        url: None,
    });
    with_fields.added_to_list_at = Some("T5".to_string());
    let bare = repo("r2", "u2/r2", 0, 7);
    let mut cats = StringIndex::new();
    cats.insert("u1/r1".to_string(), "Tools".to_string());
    let csv = render_csv(&vec![with_fields, bare], &cats);
    let expected = "Name,Full Name,Description,Category,Stars,Forks,Language,License,Updated At,Added to List,URL\n\
\"r1\",\"u1/r1\",\"A tool\",\"Tools\",\"12345\",\"0\",\"Rust\",\"MIT License\",\"2024-01-01T00:00:00Z\",\"T5\",\"https://github.com/u1/r1\"\n\
\"r2\",\"u2/r2\",\"\",\"\",\"0\",\"7\",\"\",\"\",\"2024-01-01T00:00:00Z\",\"\",\"https://github.com/u2/r2\"\n";
    assert_eq!(csv, expected);
}

#[test]
fn export_format_selection() {
    assert_eq!(parse_export_format("json"), Some(ExportFormat::Json));
    assert_eq!(parse_export_format("csv"), Some(ExportFormat::Csv));
    assert_eq!(parse_export_format("xml"), None);
    assert_eq!(parse_export_format(""), None);
}
