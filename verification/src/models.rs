//! Plain data carried through the pipeline: repository references produced by
//! the extractor, commit records consumed by the date inferencer, repository
//! metadata delivered by the platform fetchers, and the dashboard's GitLab
//! records. Every field is a plain value; mathematical views back the
//! contracts that speak about them.

use vstd::prelude::*;

verus! {

/// One categorized link extracted from a curated list document.
#[derive(Debug, Clone, PartialEq, Eq)]
pub struct RepoReference {
    pub owner: String,
    pub name: String,
    pub category: String,
}

/// The mathematical view of a `RepoReference`.
#[verifier::ext_equal]
pub ghost struct LinkRef {
    pub owner: Seq<char>,
    pub name: Seq<char>,
    pub category: Seq<char>,
}

impl View for RepoReference {
    type V = LinkRef;

    open spec fn view(&self) -> LinkRef {
        LinkRef { owner: self.owner@, name: self.name@, category: self.category@ }
    }
}

/// One commit of the list document's file history.
#[derive(Debug, Clone, PartialEq, Eq)]
pub struct CommitRecord {
    pub sha: String,
    pub message: String,
    pub authored_date: String,
}

/// The mathematical view of a `CommitRecord`.
#[verifier::ext_equal]
pub ghost struct CommitView {
    pub sha: Seq<char>,
    pub message: Seq<char>,
    pub authored_date: Seq<char>,
}

impl View for CommitRecord {
    type V = CommitView;

    open spec fn view(&self) -> CommitView {
        CommitView {
            sha: self.sha@,
            message: self.message@,
            authored_date: self.authored_date@,
        }
    }
}

/// A repository license as reported by the platform.
#[derive(Debug, Clone, PartialEq, Eq)]
pub struct License {
    pub key: String,
    pub name: String,
    pub spdx_id: Option<String>,
    pub url: Option<String>,
}

/// The mathematical view of a `License`.
#[verifier::ext_equal]
pub ghost struct LicenseView {
    pub key: Seq<char>,
    pub name: Seq<char>,
    pub spdx_id: Option<Seq<char>>,
    pub url: Option<Seq<char>>,
}

impl View for License {
    type V = LicenseView;

    open spec fn view(&self) -> LicenseView {
        LicenseView {
            key: self.key@,
            name: self.name@,
            spdx_id: match self.spdx_id {
                Some(ref s) => Some(s@),
                None => None,
            },
            url: match self.url {
                Some(ref s) => Some(s@),
                None => None,
            },
        }
    }
}

/// Platform-sourced repository metadata, enriched with the pipeline-derived
/// addition date.
#[derive(Debug, Clone, PartialEq, Eq)]
pub struct Repository {
    pub id: u64,
    pub name: String,
    pub full_name: String,
    pub description: Option<String>,
    pub html_url: String,
    pub homepage: Option<String>,
    pub stargazers_count: u32,
    pub forks_count: u32,
    pub open_issues_count: u32,
    pub language: Option<String>,
    pub license: Option<License>,
    pub topics: Vec<String>,
    pub updated_at: String,
    pub created_at: String,
    pub added_to_list_at: Option<String>,
}

/// The mathematical view of a `Repository`.
#[verifier::ext_equal]
pub ghost struct RepositoryView {
    pub id: u64,
    pub name: Seq<char>,
    pub full_name: Seq<char>,
    pub description: Option<Seq<char>>,
    pub html_url: Seq<char>,
    pub homepage: Option<Seq<char>>,
    pub stargazers_count: u32,
    pub forks_count: u32,
    pub open_issues_count: u32,
    pub language: Option<Seq<char>>,
    pub license: Option<LicenseView>,
    pub topics: Seq<Seq<char>>,
    pub updated_at: Seq<char>,
    pub created_at: Seq<char>,
    pub added_to_list_at: Option<Seq<char>>,
}

pub open spec fn opt_str_view(o: Option<String>) -> Option<Seq<char>> {
    match o {
        Some(s) => Some(s@),
        None => None,
    }
}

impl View for Repository {
    type V = RepositoryView;

    open spec fn view(&self) -> RepositoryView {
        RepositoryView {
            id: self.id,
            name: self.name@,
            full_name: self.full_name@,
            description: opt_str_view(self.description),
            html_url: self.html_url@,
            homepage: opt_str_view(self.homepage),
            stargazers_count: self.stargazers_count,
            forks_count: self.forks_count,
            open_issues_count: self.open_issues_count,
            language: opt_str_view(self.language),
            license: match self.license {
                Some(ref l) => Some(l@),
                None => None,
            },
            topics: self.topics@.map_values(|t: String| t@),
            updated_at: self.updated_at@,
            created_at: self.created_at@,
            added_to_list_at: opt_str_view(self.added_to_list_at),
        }
    }
}

/// Progress of a metadata scan over many repositories.
#[derive(Debug, Clone, PartialEq, Eq)]
pub struct ScanProgress {
    pub total: u32,
    pub current: u32,
    pub current_repo: String,
}

/// A GitLab user.
#[derive(Debug, Clone, PartialEq, Eq)]
pub struct User {
    pub id: i64,
    pub username: String,
    pub name: String,
    pub avatar_url: Option<String>,
    pub web_url: Option<String>,
}

/// A GitLab milestone.
#[derive(Debug, Clone, PartialEq, Eq)]
pub struct Milestone {
    pub id: i64,
    pub iid: i64,
    pub title: String,
    pub description: Option<String>,
    pub state: String,
    pub due_date: Option<String>,
    pub web_url: Option<String>,
}

/// Time-tracking figures attached to a GitLab issue.
#[derive(Debug, Clone, PartialEq, Eq)]
pub struct TimeStats {
    pub time_estimate: i64,
    pub total_time_spent: i64,
    pub human_time_estimate: Option<String>,
    pub human_total_time_spent: Option<String>,
}

/// The pipeline summary embedded in a merge request.
#[derive(Debug, Clone, PartialEq, Eq)]
pub struct PipelineStatus {
    pub id: i64,
    pub status: String,
    pub ref_name: String,
    pub sha: String,
    pub web_url: String,
}

/// A GitLab merge request.
#[derive(Debug, Clone, PartialEq, Eq)]
pub struct MergeRequest {
    pub id: i64,
    pub iid: i64,
    pub title: String,
    pub description: String,
    pub state: String,
    pub source_branch: String,
    pub target_branch: String,
    pub author: User,
    pub assignees: Vec<User>,
    pub reviewers: Option<Vec<User>>,
    pub upvotes: i32,
    pub downvotes: i32,
    pub pipeline: Option<PipelineStatus>,
    pub has_conflicts: bool,
    pub draft: bool,
    pub labels: Vec<String>,
    pub created_at: String,
    pub updated_at: String,
    pub merged_at: Option<String>,
    pub closed_at: Option<String>,
    pub web_url: String,
    pub project_id: i64,
}

/// A GitLab issue.
#[derive(Debug, Clone, PartialEq, Eq)]
pub struct GitLabIssue {
    pub id: i64,
    pub iid: i64,
    pub title: String,
    pub description: String,
    pub state: String,
    pub labels: Vec<String>,
    pub assignees: Vec<User>,
    pub author: User,
    pub milestone: Option<Milestone>,
    pub due_date: Option<String>,
    pub weight: Option<i32>,
    pub time_stats: TimeStats,
    pub created_at: String,
    pub updated_at: String,
    pub closed_at: Option<String>,
    pub web_url: String,
    pub project_id: i64,
}

} // verus!
