use file_chunker::repo::{DownloadError, DownloadStep, GitHubRepoManager};

fn manager(token: Option<&str>) -> GitHubRepoManager {
    GitHubRepoManager {
        repo_id: "owner/name".to_string(),
        commit_hash: None,
        access_token: token.map(|t| t.to_string()),
    }
}

#[test]
fn addresses() {
    assert_eq!(manager(None).api_url(), "https://api.github.com/repos/owner/name");
    assert_eq!(manager(None).clone_url(), "https://github.com/owner/name.git");
    assert_eq!(manager(Some("t0k")).clone_url(), "https://t0k@github.com/owner/name.git");
    assert_eq!(manager(Some("")).clone_url(), "https://@github.com/owner/name.git");
}

#[test]
fn status_says_who_may_see_the_repository() {
    assert_eq!(GitHubRepoManager::is_public(200), Ok(true));
    assert_eq!(GitHubRepoManager::is_public(404), Ok(false));
    assert_eq!(GitHubRepoManager::is_public(403), Ok(false));
    assert_eq!(GitHubRepoManager::is_public(500), Err(DownloadError::UnexpectedStatus(500)));
    assert_eq!(GitHubRepoManager::is_public(201), Err(DownloadError::UnexpectedStatus(201)));
    assert_eq!(GitHubRepoManager::is_public(0), Err(DownloadError::UnexpectedStatus(0)));
}

#[test]
fn default_branch_falls_back_to_main() {
    assert_eq!(GitHubRepoManager::default_branch(200, Some("develop")), "develop");
    assert_eq!(GitHubRepoManager::default_branch(299, Some("trunk")), "trunk");
    assert_eq!(GitHubRepoManager::default_branch(200, None), "main");
    assert_eq!(GitHubRepoManager::default_branch(404, Some("develop")), "main");
    assert_eq!(GitHubRepoManager::default_branch(199, Some("develop")), "main");
    assert_eq!(GitHubRepoManager::default_branch(300, Some("develop")), "main");
    assert_eq!(GitHubRepoManager::default_branch(500, None), "main");
}

#[test]
fn download_begins_with_the_status_unless_on_disk() {
    assert_eq!(manager(None).begin_download(true), DownloadStep::Finished);
    assert_eq!(
        manager(None).begin_download(false),
        DownloadStep::AskStatus { url: "https://api.github.com/repos/owner/name".to_string() }
    );
}

#[test]
fn download_clones_what_may_be_cloned() {
    assert_eq!(
        manager(None).after_status(200),
        DownloadStep::Clone { url: "https://github.com/owner/name.git".to_string() }
    );
    assert_eq!(
        manager(Some("t")).after_status(200),
        DownloadStep::Clone { url: "https://t@github.com/owner/name.git".to_string() }
    );
    assert_eq!(
        manager(Some("t")).after_status(404),
        DownloadStep::Clone { url: "https://t@github.com/owner/name.git".to_string() }
    );
    assert_eq!(
        manager(Some("t")).after_status(403),
        DownloadStep::Clone { url: "https://t@github.com/owner/name.git".to_string() }
    );
}

#[test]
fn download_fails_without_a_token_for_a_closed_repository() {
    assert_eq!(
        manager(None).after_status(404),
        DownloadStep::Failed(DownloadError::PrivateWithoutToken)
    );
    assert_eq!(
        manager(None).after_status(403),
        DownloadStep::Failed(DownloadError::PrivateWithoutToken)
    );
}

#[test]
fn download_fails_on_an_unexpected_status() {
    assert_eq!(
        manager(None).after_status(500),
        DownloadStep::Failed(DownloadError::UnexpectedStatus(500))
    );
    assert_eq!(
        manager(Some("t")).after_status(301),
        DownloadStep::Failed(DownloadError::UnexpectedStatus(301))
    );
}
