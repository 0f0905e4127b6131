//! The configuration document: global settings plus the profile collection.
//! This is the single record the tool persists; every workflow loads it,
//! changes it once, and writes it back whole.
use vstd::prelude::*;

use crate::file_system::FileSystem;
use crate::profiles::{entries_sorted, EntryV, ProfilesMap};

verus! {

/// The severity filter for the log output.
#[derive(Clone, Copy, Debug, PartialEq, Eq, Structural)]
pub enum LogLevel {
    Off,
    Error,
    Warn,
    Info,
    Debug,
}

/// The word each level is written as in the configuration file.
pub open spec fn level_str(l: LogLevel) -> Seq<char> {
    match l {
        LogLevel::Off => "off"@,
        LogLevel::Error => "error"@,
        LogLevel::Warn => "warn"@,
        LogLevel::Info => "info"@,
        LogLevel::Debug => "debug"@,
    }
}

/// Which level a word names, if any.
pub open spec fn level_of(s: Seq<char>) -> Option<LogLevel> {
    if s == "off"@ {
        Some(LogLevel::Off)
    } else if s == "error"@ {
        Some(LogLevel::Error)
    } else if s == "warn"@ {
        Some(LogLevel::Warn)
    } else if s == "info"@ {
        Some(LogLevel::Info)
    } else if s == "debug"@ {
        Some(LogLevel::Debug)
    } else {
        None
    }
}

pub fn log_level_as_str(l: &LogLevel) -> (r: &'static str)
    ensures
        r@ == level_str(*l),
{
    match l {
        LogLevel::Off => "off",
        LogLevel::Error => "error",
        LogLevel::Warn => "warn",
        LogLevel::Info => "info",
        LogLevel::Debug => "debug",
    }
}

pub fn log_level_from_str(s: &str) -> (r: Option<LogLevel>)
    ensures
        r == level_of(s@),
{
    if crate::strings::str_eq(s, "off") {
        Some(LogLevel::Off)
    } else if crate::strings::str_eq(s, "error") {
        Some(LogLevel::Error)
    } else if crate::strings::str_eq(s, "warn") {
        Some(LogLevel::Warn)
    } else if crate::strings::str_eq(s, "info") {
        Some(LogLevel::Info)
    } else if crate::strings::str_eq(s, "debug") {
        Some(LogLevel::Debug)
    } else {
        None
    }
}

/// Reading back the word a level was written as names that level again.
pub proof fn lemma_level_roundtrip(l: LogLevel)
    ensures
        level_of(level_str(l)) == Some(l),
{
    reveal_strlit("off");
    reveal_strlit("error");
    reveal_strlit("warn");
    reveal_strlit("info");
    reveal_strlit("debug");
    assert("off"@.len() == 3);
    assert("error"@.len() == 5);
    assert("warn"@.len() == 4);
    assert("info"@.len() == 4);
    assert("debug"@.len() == 5);
    assert("warn"@[0] == 'w' && "info"@[0] == 'i');
    assert("error"@[0] == 'e' && "debug"@[0] == 'd');
}

/// What can go wrong between the document and its file. All of these abort
/// the current run; none is silently repaired.
#[derive(Clone, Copy, Debug, PartialEq, Eq, Structural)]
pub enum ConfigError {
    /// The configuration file exists but could not be read.
    Read,
    /// The configuration file's contents do not decode to a document.
    Parse,
    /// The document could not be written back.
    Write,
}

impl ConfigError {
    pub fn message(&self) -> (r: &'static str)
        ensures
            *self == ConfigError::Read ==> r@ == "Unable to read existing config file"@,
            *self == ConfigError::Parse ==> r@ == "Unable to parse existing config file"@,
            *self == ConfigError::Write ==> r@ == "Unable to write the config file"@,
    {
        match self {
            ConfigError::Read => "Unable to read existing config file",
            ConfigError::Parse => "Unable to parse existing config file",
            ConfigError::Write => "Unable to write the config file",
        }
    }
}

/// A word the level decoder accepts is exactly that level's own word.
pub proof fn lemma_level_of_sound(w: Seq<char>)
    ensures
        level_of(w) matches Some(l) ==> level_str(l) == w,
{
}

/// The configuration document as contracts see it: every field a plain
/// mathematical value.
pub ghost struct ConfigV {
    pub base_path: Seq<char>,
    pub log_level: LogLevel,
    pub profiles: Seq<EntryV>,
    pub active_profile: Seq<char>,
}

/// A fresh document: no profiles, nothing active, warnings logged.
pub open spec fn default_config(base_path: Seq<char>) -> ConfigV {
    ConfigV {
        base_path: base_path,
        log_level: LogLevel::Warn,
        profiles: Seq::empty(),
        active_profile: Seq::empty(),
    }
}

/// The root persisted object: where files live, how much is logged, the
/// profiles, and which one is active (empty when none is).
#[derive(Debug)]
pub struct TomlConfig {
    pub base_path: String,
    pub log_level: LogLevel,
    pub profiles: ProfilesMap,
    pub active_profile: String,
}

impl View for TomlConfig {
    type V = ConfigV;

    open spec fn view(&self) -> ConfigV {
        ConfigV {
            base_path: self.base_path@,
            log_level: self.log_level,
            profiles: self.profiles@,
            active_profile: self.active_profile@,
        }
    }
}

impl Clone for TomlConfig {
    fn clone(&self) -> (r: Self)
        ensures
            r@ == self@,
    {
        TomlConfig {
            base_path: self.base_path.clone(),
            log_level: self.log_level,
            profiles: self.profiles.clone(),
            active_profile: self.active_profile.clone(),
        }
    }
}

impl Default for TomlConfig {
    fn default() -> (r: Self)
        ensures
            r@ == default_config(Seq::<char>::empty()),
            r.wf(),
    {
        TomlConfig {
            base_path: String::new(),
            log_level: LogLevel::Warn,
            profiles: ProfilesMap::new(),
            active_profile: String::new(),
        }
    }
}

impl TomlConfig {
    /// The document is well-formed when its profile entries are in strict
    /// key order.
    pub open spec fn wf(&self) -> bool {
        entries_sorted(self@.profiles)
    }

    /// The default document, rooted at the given directory: what the first
    /// bootstrap writes to disk.
    pub fn default_with_base_path(base_path: String) -> (r: Self)
        ensures
            r@ == default_config(base_path@),
            r.wf(),
    {
        TomlConfig {
            base_path,
            log_level: LogLevel::Warn,
            profiles: ProfilesMap::new(),
            active_profile: String::new(),
        }
    }

    /// The profile identifiers, in the map's sorted order.
    pub fn get_profile_ids(&self) -> (r: Vec<String>)
        ensures
            r@.len() == self@.profiles.len(),
            forall|i: int| 0 <= i < r@.len() ==> (#[trigger] r@[i])@ == self@.profiles[i].0,
    {
        self.profiles.keys()
    }

    /// Loads the document from `base/config.toml`, or writes and returns the
    /// default when no file is there. An existing file is never rewritten, and
    /// a file that fails to read or parse aborts rather than being replaced.
    pub fn from_path_or_default<F: FileSystem, L: ConfigLoader>(
        fs: &mut F,
        loader: &L,
        base_path: &str,
    ) -> (r: Result<TomlConfig, ConfigError>)
        ensures
            old(fs).files().contains_key(config_path(base_path@)) ==> final (fs).files() == old(
                fs,
            ).files(),
            match r {
                Ok(c) => c.wf() && load_outcome(old(fs).files(), base_path@) == Some(
                    (c@, final (fs).files()),
                ),
                Err(e) => final (fs).files() == old(fs).files() && match e {
                    ConfigError::Read => old(fs).files().contains_key(config_path(base_path@)),
                    ConfigError::Parse => load_outcome(old(fs).files(), base_path@) is None,
                    ConfigError::Write => !old(fs).files().contains_key(config_path(base_path@)),
                },
            },
    {
        let path = join_config_path(base_path);
        if fs.file_exists(path.as_str()) {
            match fs.read_to_string(path.as_str()) {
                Ok(content) => match loader.config_from_str(content.as_str()) {
                    Ok(c) => Ok(c),
                    Err(_) => Err(ConfigError::Parse),
                },
                Err(_) => Err(ConfigError::Read),
            }
        } else {
            let config = TomlConfig::default_with_base_path(String::from_str(base_path));
            match loader.config_to_string(&config) {
                Ok(contents) => match fs.write(path.as_str(), contents.as_str()) {
                    Ok(_) => Ok(config),
                    Err(_) => Err(ConfigError::Write),
                },
                Err(_) => Err(ConfigError::Write),
            }
        }
    }
}

/// Turning a document into text and back: the loader capability the
/// workflows and the bootstrap share.
pub trait ConfigLoader {
    fn config_from_str(&self, content: &str) -> (r: Result<TomlConfig, ConfigError>)
        ensures
            match r {
                Ok(c) => crate::codec::parse_doc(content@) == Some(c@) && c.wf(),
                Err(e) => crate::codec::parse_doc(content@) is None && e == ConfigError::Parse,
            },
    ;

    fn config_to_string(&self, config: &TomlConfig) -> (r: Result<String, ConfigError>)
        ensures
            r matches Ok(out) && out@ == crate::codec::ser_doc(config@),
    ;
}

pub struct ConfigLoaderClient;

impl ConfigLoader for ConfigLoaderClient {
    fn config_from_str(&self, content: &str) -> (r: Result<TomlConfig, ConfigError>) {
        crate::codec::parse_config(content)
    }

    fn config_to_string(&self, config: &TomlConfig) -> (r: Result<String, ConfigError>) {
        Ok(crate::codec::serialize_config(config))
    }
}

/// Where the document lives under a base directory.
pub open spec fn config_path(base: Seq<char>) -> Seq<char> {
    base + "/config.toml"@
}

pub fn join_config_path(base: &str) -> (r: String)
    ensures
        r@ == config_path(base@),
{
    let mut r = String::from_str(base);
    r.append("/config.toml");
    r
}

/// What one bootstrap run does to a store: an existing file is parsed and
/// left alone; a missing file is created holding the default document.
/// `None` when the existing file does not parse.
pub open spec fn load_outcome(files: Map<Seq<char>, Seq<char>>, base: Seq<char>) -> Option<
    (ConfigV, Map<Seq<char>, Seq<char>>),
> {
    let path = config_path(base);
    if files.contains_key(path) {
        match crate::codec::parse_doc(files[path]) {
            Some(c) => Some((c, files)),
            None => None,
        }
    } else {
        let d = default_config(base);
        Some((d, files.insert(path, crate::codec::ser_doc(d))))
    }
}

/// Writes the whole serialized document to `base_path/config.toml`: a full
/// overwrite, the only way anything is ever persisted.
pub fn persist<F: FileSystem, L: ConfigLoader>(config: &TomlConfig, fs: &mut F, loader: &L) -> (r:
    Result<(), ConfigError>)
    ensures
        match r {
            Ok(_) => final (fs).files() == old(fs).files().insert(
                config_path(config@.base_path),
                crate::codec::ser_doc(config@),
            ),
            Err(e) => final (fs).files() == old(fs).files() && e == ConfigError::Write,
        },
{
    let path = join_config_path(config.base_path.as_str());
    match loader.config_to_string(config) {
        Ok(contents) => match fs.write(path.as_str(), contents.as_str()) {
            Ok(_) => Ok(()),
            Err(_) => Err(ConfigError::Write),
        },
        Err(_) => Err(ConfigError::Write),
    }
}

/// Bootstrapping a second time against the store the first run left behind
/// yields the same document and changes nothing.
pub proof fn lemma_bootstrap_idempotent(files: Map<Seq<char>, Seq<char>>, base: Seq<char>)
    requires
        load_outcome(files, base) is Some,
    ensures
        ({
            let p = load_outcome(files, base)->0;
            load_outcome(p.1, base) == Some((p.0, p.1))
        }),
{
    let path = config_path(base);
    if !files.contains_key(path) {
        let d = default_config(base);
        assert(entries_sorted(d.profiles));
        crate::codec::lemma_parse_ser_doc(d);
        let files2 = files.insert(path, crate::codec::ser_doc(d));
        assert(files2.contains_key(path));
        assert(files2[path] == crate::codec::ser_doc(d));
    }
}

} // verus!
