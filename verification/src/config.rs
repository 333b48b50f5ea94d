//! Explicitly owned credential configuration. A run reads one snapshot at its
//! start and never observes a half-updated pair: the GitLab URL and token are
//! stored and read together, and an empty input clears a field rather than
//! storing an empty credential.

use vstd::prelude::*;
use vstd::string::*;

verus! {

/// The GitHub side of the dashboard's configuration: an optional API token.
pub struct AppState {
    pub github_token: Option<String>,
}

impl AppState {
    /// A fresh state without a token.
    pub fn new() -> (r: AppState)
        ensures
            r.github_token is None,
    {
        AppState { github_token: None }
    }

    /// Stores the token; an empty string clears it.
    pub fn set_github_token(&mut self, token: String)
        ensures
            token@.len() == 0 ==> final(self).github_token is None,
            token@.len() > 0 ==> final(self).github_token == Some(token),
    {
        if token.as_str().is_empty() {
            self.github_token = None;
        } else {
            self.github_token = Some(token);
        }
    }

    /// A snapshot of the token for one run.
    pub fn token_snapshot(&self) -> (r: Option<String>)
        ensures
            r is Some <==> self.github_token is Some,
            r is Some ==> r->0@ == self.github_token->0@,
    {
        match &self.github_token {
            Some(t) => Some(t.clone()),
            None => None,
        }
    }
}

/// The GitLab side of the dashboard's configuration: base URL and token, kept
/// consistent as a pair.
pub struct GitLabState {
    pub gitlab_url: Option<String>,
    pub gitlab_token: Option<String>,
}

impl GitLabState {
    /// A fresh state without credentials.
    pub fn new() -> (r: GitLabState)
        ensures
            r.gitlab_url is None,
            r.gitlab_token is None,
    {
        GitLabState { gitlab_url: None, gitlab_token: None }
    }

    /// Stores both credentials in one step, so no reader can observe the URL
    /// updated without the token or the reverse; an empty string clears its
    /// field.
    pub fn set_credentials(&mut self, url: String, token: String)
        ensures
            url@.len() == 0 ==> final(self).gitlab_url is None,
            url@.len() > 0 ==> final(self).gitlab_url == Some(url),
            token@.len() == 0 ==> final(self).gitlab_token is None,
            token@.len() > 0 ==> final(self).gitlab_token == Some(token),
    {
        if url.as_str().is_empty() {
            self.gitlab_url = None;
        } else {
            self.gitlab_url = Some(url);
        }
        if token.as_str().is_empty() {
            self.gitlab_token = None;
        } else {
            self.gitlab_token = Some(token);
        }
    }

    /// A consistent snapshot for one run: both credentials, or nothing when
    /// either is missing.
    pub fn credentials(&self) -> (r: Option<(String, String)>)
        ensures
            (match r {
                Some(p) => self.gitlab_url is Some && self.gitlab_token is Some && p.0@
                    == self.gitlab_url->0@ && p.1@ == self.gitlab_token->0@,
                None => self.gitlab_url is None || self.gitlab_token is None,
            }),
    {
        match (&self.gitlab_url, &self.gitlab_token) {
            (Some(u), Some(t)) => Some((u.clone(), t.clone())),
            _ => None,
        }
    }
}

} // verus!
