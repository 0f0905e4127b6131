use dotty::codec::serialize_config;
use dotty::config::{ConfigLoaderClient, LogLevel, TomlConfig};
use dotty::file_system::{FileSystem, InMemoryFileSystem};
use dotty::git::{GitClient, ValidationError};
use dotty::lifecycle::{
    activate_profile, apply_profile_action, create_profile, delete_profiles, execute_profile_action,
    execute_setup, initial_setup, is_valid_base_path, set_system_settings, update_profile, Command,
    ProfileAction, WorkflowError,
};

fn two_profiles() -> TomlConfig {
    let git = GitClient;
    let base = TomlConfig::default_with_base_path("/test".to_string());
    let c = create_profile(&base, &git, "a", "a", true).unwrap();
    create_profile(&c, &git, "b", "b", false).unwrap()
}

#[test]
fn create_profile_from_empty_map() {
    let git = GitClient;
    let base = TomlConfig::default_with_base_path("/test".to_string());

    let c = create_profile(&base, &git, "nord-theme", "nord", false).unwrap();
    assert_eq!(c.profiles.len(), 1);
    assert_eq!(c.profiles.get("nord-theme").unwrap().branch, "nord");
    assert_eq!(c.active_profile, "");

    let c = create_profile(&base, &git, "nord-theme", "nord", true).unwrap();
    assert_eq!(c.profiles.get("nord-theme").unwrap().branch, "nord");
    assert_eq!(c.active_profile, "nord-theme");
}

#[test]
fn create_profile_rejects_collisions_and_bad_branches() {
    let git = GitClient;
    let config = two_profiles();
    // duplicate identifier
    assert_eq!(
        create_profile(&config, &git, "a", "c", false).unwrap_err(),
        ValidationError::DuplicateName
    );
    // duplicate branch under a fresh identifier
    assert_eq!(
        create_profile(&config, &git, "c", "b", false).unwrap_err(),
        ValidationError::DuplicateName
    );
    // invalid branch syntax
    assert_eq!(
        create_profile(&config, &git, "c", "bad name", false).unwrap_err(),
        ValidationError::InvalidSyntax
    );
}

#[test]
fn delete_selected_profiles() {
    let config = two_profiles();
    let result = delete_profiles(&config, &vec!["a".to_string()]);
    assert_eq!(result.profiles.len(), 1);
    assert_eq!(result.profiles.get("b").unwrap().branch, "b");
    assert!(result.profiles.get("a").is_none());
}

#[test]
fn deleting_the_active_profile_leaves_the_reference_dangling() {
    let config = two_profiles();
    assert_eq!(config.active_profile, "a");
    let result = delete_profiles(&config, &vec!["a".to_string()]);
    // observed behavior: the active profile is not cleared on delete
    assert_eq!(result.active_profile, "a");
    assert!(result.profiles.get("a").is_none());
}

#[test]
fn update_profile_rebinding_and_uniqueness() {
    let git = GitClient;
    let base = TomlConfig::default_with_base_path("/test".to_string());
    let c = create_profile(&base, &git, "a", "old", false).unwrap();
    let c = create_profile(&c, &git, "b", "b", false).unwrap();

    let updated = update_profile(&c, &git, "a", "new").unwrap();
    assert_eq!(updated.profiles.get("a").unwrap().branch, "new");
    assert_eq!(updated.profiles.get("b").unwrap().branch, "b");

    // a branch already used by profile "b" is refused, and the caller's
    // document is untouched
    assert_eq!(
        update_profile(&c, &git, "a", "b").unwrap_err(),
        ValidationError::DuplicateName
    );
    assert_eq!(c.profiles.get("a").unwrap().branch, "old");

    // re-using the profile's own current branch is fine
    assert!(update_profile(&c, &git, "a", "old").is_ok());
}

#[test]
fn activating_the_active_profile_changes_nothing() {
    let config = two_profiles();
    let (same, changed) = activate_profile(&config, "a");
    assert!(!changed);
    assert_eq!(same.active_profile, "a");
    let (other, changed) = activate_profile(&config, "b");
    assert!(changed);
    assert_eq!(other.active_profile, "b");
}

#[test]
fn listing_the_active_profile_writes_no_file() {
    let git = GitClient;
    let loader = ConfigLoaderClient;
    let mut fs = InMemoryFileSystem::new();
    let config = two_profiles();

    let action = ProfileAction::List { selection: "a".to_string() };
    let (_, wrote) = execute_profile_action(&config, &mut fs, &loader, &git, &action).unwrap();
    assert!(!wrote);
    assert_eq!(fs.write_count(), 0);

    let action = ProfileAction::List { selection: "b".to_string() };
    let (next, wrote) = execute_profile_action(&config, &mut fs, &loader, &git, &action).unwrap();
    assert!(wrote);
    assert_eq!(fs.write_count(), 1);
    assert_eq!(
        fs.read_to_string("/test/config.toml").unwrap(),
        serialize_config(&next)
    );
    assert_eq!(next.active_profile, "b");
}

#[test]
fn create_and_delete_persist_unconditionally() {
    let git = GitClient;
    let loader = ConfigLoaderClient;
    let mut fs = InMemoryFileSystem::new();
    let config = two_profiles();

    let action = ProfileAction::Create {
        id: "c".to_string(),
        branch: "c".to_string(),
        activate: false,
    };
    let (next, wrote) = execute_profile_action(&config, &mut fs, &loader, &git, &action).unwrap();
    assert!(wrote);
    assert_eq!(fs.write_count(), 1);
    assert_eq!(next.profiles.len(), 3);

    let action = ProfileAction::Delete { ids: vec!["a".to_string(), "b".to_string()] };
    let (next, wrote) = execute_profile_action(&next, &mut fs, &loader, &git, &action).unwrap();
    assert!(wrote);
    assert_eq!(fs.write_count(), 2);
    assert_eq!(next.profiles.keys(), vec!["c".to_string()]);

    // a failed validation never writes
    let action = ProfileAction::Create {
        id: "c".to_string(),
        branch: "x".to_string(),
        activate: false,
    };
    let err = execute_profile_action(&next, &mut fs, &loader, &git, &action).unwrap_err();
    assert_eq!(err, WorkflowError::Validation(ValidationError::DuplicateName));
    assert_eq!(fs.write_count(), 2);
}

#[test]
fn profile_ids_list_in_sorted_order() {
    let git = GitClient;
    let base = TomlConfig::default_with_base_path("/test".to_string());
    let c = create_profile(&base, &git, "zeta", "z", false).unwrap();
    let c = create_profile(&c, &git, "alpha", "a", false).unwrap();
    let c = create_profile(&c, &git, "mid", "m", false).unwrap();
    assert_eq!(
        c.get_profile_ids(),
        vec!["alpha".to_string(), "mid".to_string(), "zeta".to_string()]
    );
}

#[test]
fn system_settings_replace_only_the_two_settings() {
    let config = two_profiles();
    let next = set_system_settings(&config, "/elsewhere".to_string(), LogLevel::Debug);
    assert_eq!(next.base_path, "/elsewhere");
    assert_eq!(next.log_level, LogLevel::Debug);
    assert_eq!(next.active_profile, config.active_profile);
    assert_eq!(next.profiles.keys(), config.profiles.keys());
}

#[test]
fn base_path_input_needs_a_separator() {
    assert!(is_valid_base_path("/home/user"));
    assert!(is_valid_base_path("a/b"));
    assert!(!is_valid_base_path("relative"));
    assert!(!is_valid_base_path(""));
}

#[test]
fn initial_setup_creates_the_first_profile_only_when_none_exists() {
    let git = GitClient;
    let base = TomlConfig::default_with_base_path("/old".to_string());

    // empty document, operator creates a profile and activates it
    let c = initial_setup(
        &base,
        &git,
        "/new".to_string(),
        LogLevel::Info,
        Some(("nord-theme".to_string(), "nord".to_string(), true)),
    )
    .unwrap();
    assert_eq!(c.base_path, "/new");
    assert_eq!(c.log_level, LogLevel::Info);
    assert_eq!(c.profiles.get("nord-theme").unwrap().branch, "nord");
    assert_eq!(c.active_profile, "nord-theme");

    // operator declines
    let c = initial_setup(&base, &git, "/new".to_string(), LogLevel::Warn, None).unwrap();
    assert_eq!(c.profiles.len(), 0);

    // profiles already exist: the offer is not even made
    let full = two_profiles();
    let c = initial_setup(
        &full,
        &git,
        "/new".to_string(),
        LogLevel::Warn,
        Some(("x".to_string(), "y".to_string(), true)),
    )
    .unwrap();
    assert_eq!(c.profiles.len(), 2);
    assert_eq!(c.active_profile, "a");
}

#[test]
fn setup_always_persists_the_result() {
    let git = GitClient;
    let loader = ConfigLoaderClient;
    let mut fs = InMemoryFileSystem::new();
    let base = TomlConfig::default_with_base_path("/old".to_string());
    let c = execute_setup(
        &base,
        &mut fs,
        &loader,
        &git,
        "/new".to_string(),
        LogLevel::Warn,
        None,
    )
    .unwrap();
    assert_eq!(fs.write_count(), 1);
    assert_eq!(
        fs.read_to_string("/new/config.toml").unwrap(),
        serialize_config(&c)
    );
}

#[test]
fn apply_profile_action_reports_whether_to_persist() {
    let git = GitClient;
    let config = two_profiles();
    let (_, changed) =
        apply_profile_action(&config, &git, &ProfileAction::List { selection: "a".to_string() })
            .unwrap();
    assert!(!changed);
    let (_, changed) =
        apply_profile_action(&config, &git, &ProfileAction::Delete { ids: vec![] }).unwrap();
    assert!(changed);
}

#[test]
fn the_default_command_is_list() {
    assert_eq!(Command::default(), Command::List);
}
