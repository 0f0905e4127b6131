use dotty::codec::{parse_config, serialize_config};
use dotty::config::{ConfigLoader, ConfigLoaderClient, LogLevel, TomlConfig};
use dotty::git::GitClient;
use dotty::lifecycle::create_profile;

fn sample_config() -> TomlConfig {
    let git = GitClient;
    let base = TomlConfig::default_with_base_path("/home/user/.config/dotty".to_string());
    let c = create_profile(&base, &git, "nord-theme", "nord", true).unwrap();
    create_profile(&c, &git, "gruvbox", "gb", false).unwrap()
}

#[test]
fn serializes_the_default_document() {
    let c = TomlConfig::default_with_base_path("/test".to_string());
    let s = serialize_config(&c);
    assert_eq!(
        s,
        "base_path = \"/test\"\nlog_level = \"warn\"\nactive_profile = \"\"\n"
    );
}

#[test]
fn serializes_profiles_in_key_order() {
    let c = sample_config();
    let s = serialize_config(&c);
    assert_eq!(
        s,
        "base_path = \"/home/user/.config/dotty\"\nlog_level = \"warn\"\n\
         active_profile = \"nord-theme\"\n\
         [profiles.\"gruvbox\"]\nbranch = \"gb\"\n\
         [profiles.\"nord-theme\"]\nbranch = \"nord\"\n"
    );
}

#[test]
fn round_trip_reproduces_the_document() {
    let c = sample_config();
    let back = parse_config(&serialize_config(&c)).unwrap();
    assert_eq!(back.base_path, c.base_path);
    assert_eq!(back.log_level, c.log_level);
    assert_eq!(back.active_profile, c.active_profile);
    assert_eq!(back.profiles.len(), 2);
    assert_eq!(back.profiles.get("nord-theme").unwrap().branch, "nord");
    assert_eq!(back.profiles.get("gruvbox").unwrap().branch, "gb");
}

#[test]
fn round_trip_survives_escaped_characters() {
    let mut c = TomlConfig::default_with_base_path("C:\\Users\\dot \"ty\"".to_string());
    c.active_profile = "line\nbreak\ttab\rret\u{0007}bell\u{007f}del".to_string();
    let s = serialize_config(&c);
    assert!(s.contains("\\\\"));
    assert!(s.contains("\\n"));
    assert!(s.contains("\\u0007"));
    assert!(s.contains("\\u007f"));
    let back = parse_config(&s).unwrap();
    assert_eq!(back.base_path, c.base_path);
    assert_eq!(back.active_profile, c.active_profile);
}

#[test]
fn round_trip_through_the_loader_trait() {
    let loader = ConfigLoaderClient;
    let c = sample_config();
    let text = loader.config_to_string(&c).unwrap();
    let back = loader.config_from_str(&text).unwrap();
    assert_eq!(back.base_path, c.base_path);
    assert_eq!(back.active_profile, c.active_profile);
    assert_eq!(back.profiles.keys(), c.profiles.keys());
}

#[test]
fn every_log_level_round_trips() {
    let levels = [
        (LogLevel::Off, "off"),
        (LogLevel::Error, "error"),
        (LogLevel::Warn, "warn"),
        (LogLevel::Info, "info"),
        (LogLevel::Debug, "debug"),
    ];
    for (level, word) in levels {
        let mut c = TomlConfig::default_with_base_path("/test".to_string());
        c.log_level = level;
        let s = serialize_config(&c);
        assert!(s.contains(&format!("log_level = \"{}\"", word)));
        assert_eq!(parse_config(&s).unwrap().log_level, level);
    }
}

#[test]
fn parse_rejects_malformed_documents() {
    assert!(parse_config("").is_err());
    assert!(parse_config("invalid_config_content").is_err());
    // missing keys
    assert!(parse_config("base_path = \"/test\"\n").is_err());
    // a key given twice
    assert!(parse_config(
        "base_path = \"/t\"\nbase_path = \"/u\"\nlog_level = \"warn\"\nactive_profile = \"\"\n"
    )
    .is_err());
    // wrong level word
    assert!(
        parse_config("base_path = \"/t\"\nlog_level = \"verbose\"\nactive_profile = \"\"\n")
            .is_err()
    );
    // unterminated string
    assert!(parse_config("base_path = \"/test").is_err());
    // trailing garbage after the document
    assert!(parse_config(
        "base_path = \"/t\"\nlog_level = \"warn\"\nactive_profile = \"\"\nx"
    )
    .is_err());
    // a surrogate escape is no Unicode scalar value
    assert!(parse_config(
        "base_path = \"\\uD800\"\nlog_level = \"warn\"\nactive_profile = \"\"\n"
    )
    .is_err());
    // a section without its branch
    assert!(parse_config(
        "base_path = \"/t\"\nlog_level = \"warn\"\nactive_profile = \"\"\n[profiles.\"a\"]\n"
    )
    .is_err());
}

#[test]
fn parse_tolerates_layout_the_serializer_does_not_write() {
    // reordered keys, comments, blank lines, spacing, CRLF, bare section keys
    let text = "# managed by hand\r\n\
                \n\
                log_level = \"info\"   # detail\n\
                active_profile\t=\t\"a\"\n\
                base_path = \"/t\"\n\
                \n\
                [ profiles . b ]  # second profile\n\
                branch = \"y\"\n\
                [profiles.\"a\"]\n\
                \n\
                branch=\"x\"";
    let c = parse_config(text).unwrap();
    assert_eq!(c.base_path, "/t");
    assert_eq!(c.log_level, LogLevel::Info);
    assert_eq!(c.active_profile, "a");
    // sections out of file order still land in key order
    assert_eq!(c.get_profile_ids(), vec!["a".to_string(), "b".to_string()]);
    assert_eq!(c.profiles.get("a").unwrap().branch, "x");
    assert_eq!(c.profiles.get("b").unwrap().branch, "y");
}

#[test]
fn parse_accepts_the_full_escape_set() {
    let text = "base_path = \"\\u0041\\U0001F600\\b\\f\"\nlog_level = \"warn\"\n\
                active_profile = \"\\u00e9\\u00E9\"\n";
    let c = parse_config(text).unwrap();
    assert_eq!(c.base_path, "A\u{1F600}\u{0008}\u{000C}");
    assert_eq!(c.active_profile, "éé");
}

#[test]
fn parse_keeps_profile_keys_unique() {
    let sorted = "base_path = \"/t\"\nlog_level = \"warn\"\nactive_profile = \"\"\n\
                  [profiles.\"a\"]\nbranch = \"x\"\n[profiles.\"b\"]\nbranch = \"y\"\n";
    assert!(parse_config(sorted).is_ok());
    // the same key twice, quoted or bare, is refused
    let duplicate = "base_path = \"/t\"\nlog_level = \"warn\"\nactive_profile = \"\"\n\
                     [profiles.\"a\"]\nbranch = \"x\"\n[profiles.a]\nbranch = \"y\"\n";
    assert!(parse_config(duplicate).is_err());
}

#[test]
fn parse_agrees_with_the_toml_crate_on_a_hand_written_file() {
    let text = "log_level = \"debug\" # noisy\n\nbase_path = \"/home/u\"\n\
                active_profile = \"dark\"\n[profiles.dark]\nbranch = \"main\"\n";
    let mine = parse_config(text).unwrap();
    let v: toml::Value = toml::from_str(text).unwrap();
    assert_eq!(v["base_path"].as_str().unwrap(), mine.base_path);
    assert_eq!(v["active_profile"].as_str().unwrap(), mine.active_profile);
    assert_eq!(
        v["profiles"]["dark"]["branch"].as_str().unwrap(),
        mine.profiles.get("dark").unwrap().branch
    );
}

#[test]
fn emitted_text_is_real_toml() {
    let git = GitClient;
    let base = TomlConfig::default_with_base_path("/home/dot ty/\"x\"\\y".to_string());
    let c = create_profile(&base, &git, "theme one", "nord", true).unwrap();
    let s = serialize_config(&c);

    let v: toml::Value = toml::from_str(&s).expect("the toml crate must accept the output");
    assert_eq!(v["base_path"].as_str(), Some("/home/dot ty/\"x\"\\y"));
    assert_eq!(v["log_level"].as_str(), Some("warn"));
    assert_eq!(v["active_profile"].as_str(), Some("theme one"));
    assert_eq!(v["profiles"]["theme one"]["branch"].as_str(), Some("nord"));
}
