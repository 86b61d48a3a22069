//! Fetching a repository from GitHub: what to ask, and what to do with the
//! answers.
//!
//! Nothing here touches the network or the disk. The caller asks and clones;
//! this module says which address to use and how to go on after each answer.

use vstd::prelude::*;
use vstd::string::StringExecFns;

verus! {

/// A repository on GitHub, and what is needed to fetch it.
#[derive(Debug)]
pub struct GitHubRepoManager {
    /// The repository as `owner/name`.
    pub repo_id: String,
    /// The commit to fetch, if not the latest.
    pub commit_hash: Option<String>,
    /// The token to clone with, if any.
    pub access_token: Option<String>,
}

/// Why a download cannot go on.
#[derive(Clone, Copy, Debug, PartialEq, Eq, Structural)]
pub enum DownloadError {
    /// The repository's page answered with a status that says nothing about
    /// who may see it.
    UnexpectedStatus(u16),
    /// The repository is not public and there is no token to clone it with.
    PrivateWithoutToken,
}

/// What to do next in a download.
#[derive(Debug, PartialEq, Eq)]
pub enum DownloadStep {
    /// Nothing: the repository is on disk.
    Finished,
    /// Request `url` and hand its status to `after_status`.
    AskStatus { url: String },
    /// Clone from `url`.
    Clone { url: String },
    /// Give up.
    Failed(DownloadError),
}

/// The address of the page that describes the repository `repo_id`.
pub open spec fn api_url_of(repo_id: Seq<char>) -> Seq<char> {
    "https://api.github.com/repos/"@ + repo_id
}

/// The address to clone the repository `repo_id` from, with `token` if there
/// is one.
pub open spec fn clone_url_of(repo_id: Seq<char>, token: Option<Seq<char>>) -> Seq<char> {
    match token {
        Some(token) => "https://"@ + token + "@github.com/"@ + repo_id + ".git"@,
        None => "https://github.com/"@ + repo_id + ".git"@,
    }
}

/// What the status of the repository's page says: 200 that it is public, 403
/// and 404 that it is not; any other status says nothing.
pub open spec fn public_of(status: u16) -> Result<bool, DownloadError> {
    if status == 200 {
        Ok(true)
    } else if status == 404 || status == 403 {
        Ok(false)
    } else {
        Err(DownloadError::UnexpectedStatus(status))
    }
}

/// The branch to take as the default one: the branch that the repository's
/// page reported, if the request succeeded and it reported one; else `main`.
pub open spec fn default_branch_of(status: u16, reported: Option<Seq<char>>) -> Seq<char> {
    match reported {
        Some(branch) if 200 <= status <= 299 => branch,
        _ => "main"@,
    }
}

/// Whether a download goes on to clone after the repository's page answered
/// with `status`: the status must say who may see the repository, and a
/// repository that is not public needs a token.
pub open spec fn may_clone(status: u16, token: Option<Seq<char>>) -> bool {
    match public_of(status) {
        Ok(public) => public || token is Some,
        Err(_) => false,
    }
}

/// Why a download that may not clone after `status` fails.
pub open spec fn failure_after(status: u16, token: Option<Seq<char>>) -> DownloadError {
    match public_of(status) {
        Err(error) => error,
        Ok(_) => DownloadError::PrivateWithoutToken,
    }
}

/// The view of an optional string.
pub open spec fn view_of(text: Option<String>) -> Option<Seq<char>> {
    match text {
        Some(text) => Some(text@),
        None => None,
    }
}

impl GitHubRepoManager {
    /// The token of the manager, as characters.
    pub open spec fn token(&self) -> Option<Seq<char>> {
        view_of(self.access_token)
    }

    /// The address of the page that describes the repository.
    pub fn api_url(&self) -> (url: String)
        ensures
            url@ == api_url_of(self.repo_id@),
    {
        String::from_str("https://api.github.com/repos/").concat(self.repo_id.as_str())
    }

    /// The address to clone the repository from.
    pub fn clone_url(&self) -> (url: String)
        ensures
            url@ == clone_url_of(self.repo_id@, self.token()),
    {
        match &self.access_token {
            Some(token) => String::from_str("https://").concat(token.as_str()).concat(
                "@github.com/",
            ).concat(self.repo_id.as_str()).concat(".git"),
            None => String::from_str("https://github.com/").concat(self.repo_id.as_str()).concat(
                ".git",
            ),
        }
    }

    /// What the status of the repository's page says about who may see it.
    pub fn is_public(status: u16) -> (public: Result<bool, DownloadError>)
        ensures
            public == public_of(status),
    {
        if status == 200 {
            Ok(true)
        } else if status == 404 || status == 403 {
            Ok(false)
        } else {
            Err(DownloadError::UnexpectedStatus(status))
        }
    }

    /// The branch to take as the default one.
    pub fn default_branch(status: u16, reported: Option<&str>) -> (branch: String)
        ensures
            branch@ == default_branch_of(
                status,
                match reported {
                    Some(text) => Some(text@),
                    None => None,
                },
            ),
    {
        match reported {
            Some(text) if 200 <= status && status <= 299 => String::from_str(text),
            _ => String::from_str("main"),
        }
    }

    /// The first step of a download: none if the repository is on disk
    /// already, else to ask for the status of its page.
    pub fn begin_download(&self, on_disk: bool) -> (step: DownloadStep)
        ensures
            match step {
                DownloadStep::Finished => on_disk,
                DownloadStep::AskStatus { url } => !on_disk && url@ == api_url_of(self.repo_id@),
                _ => false,
            },
    {
        if on_disk {
            DownloadStep::Finished
        } else {
            DownloadStep::AskStatus { url: self.api_url() }
        }
    }

    /// The step after the status of the repository's page came in: to clone,
    /// unless the status says nothing or the repository is closed to a caller
    /// without a token.
    pub fn after_status(&self, status: u16) -> (step: DownloadStep)
        ensures
            match step {
                DownloadStep::Failed(error) => error == failure_after(status, self.token()),
                DownloadStep::Clone { url } => may_clone(status, self.token()) && url@
                    == clone_url_of(self.repo_id@, self.token()),
                _ => false,
            },
            step is Clone <==> may_clone(status, self.token()),
    {
        match Self::is_public(status) {
            Err(error) => DownloadStep::Failed(error),
            Ok(public) => {
                if !public && self.access_token.is_none() {
                    DownloadStep::Failed(DownloadError::PrivateWithoutToken)
                } else {
                    DownloadStep::Clone { url: self.clone_url() }
                }
            },
        }
    }
}

} // verus!
