use dotty::codec::serialize_config;
use dotty::config::{ConfigError, ConfigLoaderClient, LogLevel, TomlConfig};
use dotty::file_system::{FileSystem, InMemoryFileSystem};

#[test]
fn test_exists() {
    let mut fs_client = InMemoryFileSystem::new();
    let file_path = "/tmp/store/test_file.txt";

    assert!(!fs_client.file_exists(file_path));

    fs_client.write(file_path, "test content").unwrap();

    assert!(fs_client.file_exists(file_path));
}

#[test]
fn test_read_to_string() {
    let mut fs_client = InMemoryFileSystem::new();
    let file_path = "/tmp/store/test_file.txt";
    let content = "Hello, world!";

    fs_client.write(file_path, content).unwrap();

    let result = fs_client.read_to_string(file_path).unwrap();
    assert_eq!(result, content);
}

#[test]
fn test_write() {
    let mut fs_client = InMemoryFileSystem::new();
    let file_path = "/tmp/store/test_file.txt";
    let content = "Test content";

    fs_client.write(file_path, content).unwrap();

    let read_content = fs_client.read_to_string(file_path).unwrap();
    assert_eq!(read_content, content);
}

#[test]
fn test_write_creates_directories() {
    let mut fs_client = InMemoryFileSystem::new();
    let nested_path = format!("{}/{}/{}", "nested", "dir", "test_file.txt");
    let content = "Nested content";

    fs_client.write(&nested_path, content).unwrap();

    assert!(fs_client.file_exists(&nested_path));
    let read_content = fs_client.read_to_string(&nested_path).unwrap();
    assert_eq!(read_content, content);
}

#[test]
fn overwriting_keeps_the_latest_content() {
    let mut fs = InMemoryFileSystem::new();
    fs.write("/f", "one").unwrap();
    fs.write("/f", "two").unwrap();
    assert_eq!(fs.read_to_string("/f").unwrap(), "two");
    assert_eq!(fs.write_count(), 2);
}

#[test]
fn test_from_path_or_default_existing_file_is_valid() {
    let mut fs = InMemoryFileSystem::new();
    let loader = ConfigLoaderClient;
    let valid_config_content =
        "base_path = \"/test\"\nlog_level = \"info\"\nactive_profile = \"\"\n";
    fs.write("/test/config.toml", valid_config_content).unwrap();

    let result = TomlConfig::from_path_or_default(&mut fs, &loader, "/test");
    assert!(result.is_ok());
    let config = result.unwrap();
    assert_eq!(config.base_path, "/test");
    assert_eq!(config.log_level, LogLevel::Info);
}

#[test]
fn test_from_path_or_default_existing_file_is_invalid() {
    let mut fs = InMemoryFileSystem::new();
    let loader = ConfigLoaderClient;
    fs.write("/test/config.toml", "invalid_config_content").unwrap();

    let result = TomlConfig::from_path_or_default(&mut fs, &loader, "/test");

    assert!(result.is_err());
    assert_eq!(result.unwrap_err(), ConfigError::Parse);
    // the unreadable file was not replaced
    assert_eq!(
        fs.read_to_string("/test/config.toml").unwrap(),
        "invalid_config_content"
    );
}

#[test]
fn test_from_path_or_default_new_file() {
    let mut fs = InMemoryFileSystem::new();
    let loader = ConfigLoaderClient;

    let result = TomlConfig::from_path_or_default(&mut fs, &loader, "/test");
    assert!(result.is_ok());
    let config = result.unwrap();
    assert_eq!(config.base_path, "/test");
    assert_eq!(config.log_level, LogLevel::Warn);
    assert_eq!(config.active_profile, "");
    assert_eq!(config.profiles.len(), 0);

    // the default was written out, so the file exists from now on
    assert!(fs.file_exists("/test/config.toml"));
    assert_eq!(
        fs.read_to_string("/test/config.toml").unwrap(),
        serialize_config(&config)
    );
}

#[test]
fn bootstrap_twice_reads_back_the_same_document_without_rewriting() {
    let mut fs = InMemoryFileSystem::new();
    let loader = ConfigLoaderClient;

    let first = TomlConfig::from_path_or_default(&mut fs, &loader, "/test").unwrap();
    assert_eq!(fs.write_count(), 1);

    let second = TomlConfig::from_path_or_default(&mut fs, &loader, "/test").unwrap();
    // no second write: the existing file is parsed, never rewritten
    assert_eq!(fs.write_count(), 1);

    assert_eq!(second.base_path, first.base_path);
    assert_eq!(second.log_level, first.log_level);
    assert_eq!(second.active_profile, first.active_profile);
    assert_eq!(second.profiles.keys(), first.profiles.keys());
}

#[test]
fn default_with_base_path_populates_every_field() {
    let c = TomlConfig::default_with_base_path("/somewhere".to_string());
    assert_eq!(c.base_path, "/somewhere");
    assert_eq!(c.log_level, LogLevel::Warn);
    assert_eq!(c.active_profile, "");
    assert!(c.get_profile_ids().is_empty());
    let d = TomlConfig::default();
    assert_eq!(d.base_path, "");
    assert_eq!(d.log_level, LogLevel::Warn);
}
