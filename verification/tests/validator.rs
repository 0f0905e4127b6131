use dotty::git::{Git, GitClient, ValidationError};

#[test]
fn test_is_branch_unique() {
    let git_client = GitClient;
    let branches = vec![
        "main".to_string(),
        "develop".to_string(),
        "feature/123".to_string(),
    ];

    assert!(git_client
        .is_branch_unique(branches.clone(), "new-branch")
        .is_ok());
    assert!(git_client
        .is_branch_unique(branches.clone(), "main")
        .is_err());
    assert!(git_client.is_branch_unique(branches, "develop").is_err());
}

#[test]
fn test_is_valid_branch_name() {
    let git_client = GitClient;

    // Valid branch names
    assert!(git_client.is_valid_branch_name("feature/123").is_ok());
    assert!(git_client.is_valid_branch_name("hotfix-456").is_ok());
    assert!(git_client.is_valid_branch_name("release_1.0").is_ok());

    // Invalid branch names
    assert!(git_client.is_valid_branch_name("").is_err());
    assert!(git_client.is_valid_branch_name(" ").is_err());
    assert!(git_client
        .is_valid_branch_name("/start-with-slash")
        .is_err());
    assert!(git_client.is_valid_branch_name("end-with-slash/").is_err());
    assert!(git_client.is_valid_branch_name("double..dot").is_err());
    assert!(git_client.is_valid_branch_name("contains space").is_err());
    assert!(git_client.is_valid_branch_name("invalid*char").is_err());
    assert!(git_client.is_valid_branch_name("invalid?char").is_err());
    assert!(git_client.is_valid_branch_name("invalid:char").is_err());
    assert!(git_client.is_valid_branch_name("invalid[char").is_err());
    assert!(git_client.is_valid_branch_name("invalid\\char").is_err());
    assert!(git_client.is_valid_branch_name("invalid^char").is_err());
    assert!(git_client.is_valid_branch_name("invalid~char").is_err());
}

#[test]
fn branch_name_rejects_each_condition_in_isolation() {
    let git = GitClient;
    // control character
    assert!(git.is_valid_branch_name("bad\u{0007}name").is_err());
    assert!(git.is_valid_branch_name("bad\u{007f}name").is_err());
    // unicode whitespace beyond the space character
    assert!(git.is_valid_branch_name("bad\tname").is_err());
    assert!(git.is_valid_branch_name("bad\u{00a0}name").is_err());
    // the remaining reserved characters
    assert!(git.is_valid_branch_name("bad:name").is_err());
    // a single dot is fine, only the pair is refused
    assert!(git.is_valid_branch_name("a.b").is_ok());
    // slashes inside the name are fine
    assert!(git.is_valid_branch_name("a/b/c").is_ok());
}

#[test]
fn branch_errors_carry_their_messages() {
    let git = GitClient;
    let err = git.is_valid_branch_name("bad name").unwrap_err();
    assert_eq!(err, ValidationError::InvalidSyntax);
    assert_eq!(err.message(), "Branch name contains invalid characters");
    let err = git
        .is_branch_unique(vec!["main".to_string()], "main")
        .unwrap_err();
    assert_eq!(err, ValidationError::DuplicateName);
    assert_eq!(
        err.message(),
        "This name is already used. Please choose a different one."
    );
}

#[test]
fn uniqueness_succeeds_on_empty_list() {
    let git = GitClient;
    assert!(git.is_branch_unique(Vec::new(), "release").is_ok());
    assert!(git.is_branch_unique(vec!["main".to_string()], "release").is_ok());
}
