//! The profile workflows' decision cores. Each takes the current document and
//! the values the prompts collected, and returns the next document together
//! with whether it must be persisted; the interactive shell around them only
//! gathers input, runs these, and writes the result out.
use vstd::prelude::*;

use crate::codec::ser_doc;
use crate::config::{config_path, persist, ConfigError, ConfigLoader, ConfigV, LogLevel, TomlConfig};
use crate::file_system::FileSystem;
use crate::git::{branch_in_list, valid_branch_name, validate_branch, GitClient, ValidationError};
use crate::profiles::{
    has_branch, has_key, other_has_branch, spec_insert, spec_remove, EntryV, ProfileConfig,
};
use crate::strings::str_eq;

verus! {

/// Which profile workflow a run performs.
#[derive(Clone, Copy, Debug, PartialEq, Eq, Structural)]
pub enum Command {
    List,
    Create,
    Delete,
    Update,
}

impl Default for Command {
    /// Listing is the workflow a bare profile command runs.
    fn default() -> (r: Self)
        ensures
            r == Command::List,
    {
        Command::List
    }
}

/// A document with the two system-wide settings replaced.
pub open spec fn with_settings(c: ConfigV, base_path: Seq<char>, log_level: LogLevel) -> ConfigV {
    ConfigV {
        base_path: base_path,
        log_level: log_level,
        profiles: c.profiles,
        active_profile: c.active_profile,
    }
}

/// The base-path prompt accepts only input that holds a path separator.
pub open spec fn has_path_separator(s: Seq<char>) -> bool {
    exists|i: int| 0 <= i < s.len() && s[i] == '/'
}

pub fn is_valid_base_path(input: &str) -> (r: bool)
    ensures
        r == has_path_separator(input@),
{
    let n = input.unicode_len();
    let mut i: usize = 0;
    while i < n
        invariant
            n == input@.len(),
            i <= n,
            forall|j: int| 0 <= j < i ==> input@[j] != '/',
        decreases n - i,
    {
        if input.get_char(i) == '/' {
            return true;
        }
        i = i + 1;
    }
    false
}

/// The system-settings step: the collected base path and log level replace
/// the old ones; profiles and the active choice stay as they were.
pub fn set_system_settings(config: &TomlConfig, base_path: String, log_level: LogLevel) -> (r:
    TomlConfig)
    requires
        config.wf(),
    ensures
        r.wf(),
        r@ == with_settings(config@, base_path@, log_level),
{
    let mut c2 = config.clone();
    c2.base_path = base_path;
    c2.log_level = log_level;
    c2
}

/// The create workflow's decision: a fresh identifier and a valid, unused
/// branch add one profile, and the operator may make it active. The document
/// must always be persisted afterwards.
pub fn create_profile(
    config: &TomlConfig,
    git: &GitClient,
    id: &str,
    branch: &str,
    activate: bool,
) -> (r: Result<TomlConfig, ValidationError>)
    requires
        config.wf(),
    ensures
        match r {
            Ok(c2) => {
                &&& !has_key(config@.profiles, id@)
                &&& valid_branch_name(branch@)
                &&& !has_branch(config@.profiles, branch@)
                &&& c2.wf()
                &&& c2@.profiles == spec_insert(config@.profiles, id@, branch@)
                &&& c2@.base_path == config@.base_path
                &&& c2@.log_level == config@.log_level
                &&& c2@.active_profile == if activate {
                    id@
                } else {
                    config@.active_profile
                }
            },
            Err(e) => match e {
                ValidationError::DuplicateName => has_key(config@.profiles, id@) || (
                valid_branch_name(branch@) && has_branch(config@.profiles, branch@)),
                ValidationError::InvalidSyntax => !has_key(config@.profiles, id@)
                    && !valid_branch_name(branch@),
            },
        },
{
    if config.profiles.contains_key(id) {
        return Err(ValidationError::DuplicateName);
    }
    let branches = config.profiles.branches();
    match validate_branch(git, branches, branch) {
        Err(e) => {
            proof {
                if has_branch(config@.profiles, branch@) {
                    let i = choose|i: int|
                        0 <= i < config@.profiles.len() && (#[trigger] config@.profiles[i]).1
                            == branch@;
                    assert(branches@[i]@ == branch@);
                    assert(branch_in_list(branches@, branch@));
                }
            }
            return Err(e);
        },
        Ok(_) => {
            proof {
                if has_branch(config@.profiles, branch@) {
                    let i = choose|i: int|
                        0 <= i < config@.profiles.len() && (#[trigger] config@.profiles[i]).1
                            == branch@;
                    assert(branches@[i]@ == branch@);
                    assert(branch_in_list(branches@, branch@));
                }
            }
        },
    }
    let mut c2 = config.clone();
    c2.profiles.insert(String::from_str(id), ProfileConfig { branch: String::from_str(branch) });
    if activate {
        c2.active_profile = String::from_str(id);
    }
    Ok(c2)
}

/// The list/activate workflow's decision: the selection becomes the active
/// profile. The second result says whether anything changed — selecting the
/// profile that is already active calls for no write at all.
pub fn activate_profile(config: &TomlConfig, selection: &str) -> (r: (TomlConfig, bool))
    requires
        config.wf(),
    ensures
        r.0.wf(),
        r.0@.profiles == config@.profiles,
        r.0@.base_path == config@.base_path,
        r.0@.log_level == config@.log_level,
        r.0@.active_profile == selection@,
        r.1 == (selection@ != config@.active_profile),
        !r.1 ==> r.0@ == config@,
{
    let changed = !str_eq(selection, config.active_profile.as_str());
    let mut c2 = config.clone();
    c2.active_profile = String::from_str(selection);
    proof {
        if !changed {
            assert(c2@ =~~= config@);
        }
    }
    (c2, changed)
}

/// The documents left after taking out each listed identifier in turn.
pub open spec fn remove_all(s: Seq<EntryV>, ids: Seq<String>) -> Seq<EntryV>
    decreases ids.len(),
{
    if ids.len() == 0 {
        s
    } else {
        remove_all(spec_remove(s, ids[0]@), ids.skip(1))
    }
}

/// The delete workflow's decision: every selected profile leaves the map.
/// The active profile is left as it stands, even when it was deleted — the
/// document may then name a profile that no longer exists.
pub fn delete_profiles(config: &TomlConfig, ids: &Vec<String>) -> (r: TomlConfig)
    requires
        config.wf(),
    ensures
        r.wf(),
        r@.profiles == remove_all(config@.profiles, ids@),
        r@.base_path == config@.base_path,
        r@.log_level == config@.log_level,
        r@.active_profile == config@.active_profile,
{
    let mut c2 = config.clone();
    let n = ids.len();
    let mut k: usize = 0;
    proof {
        assert(ids@.skip(0) =~= ids@);
    }
    while k < n
        invariant
            n == ids@.len(),
            k <= n,
            c2.wf(),
            c2@.base_path == config@.base_path,
            c2@.log_level == config@.log_level,
            c2@.active_profile == config@.active_profile,
            remove_all(config@.profiles, ids@) == remove_all(c2@.profiles, ids@.skip(k as int)),
        decreases n - k,
    {
        let ghost pm0 = c2@.profiles;
        c2.profiles.remove(ids[k].as_str());
        proof {
            assert(ids@.skip(k as int)[0] == ids@[k as int]);
            assert(ids@.skip(k as int).skip(1) =~= ids@.skip(k + 1));
            assert(remove_all(pm0, ids@.skip(k as int)) == remove_all(
                spec_remove(pm0, ids@[k as int]@),
                ids@.skip(k + 1),
            ));
        }
        k = k + 1;
    }
    proof {
        assert(ids@.skip(n as int).len() == 0);
        assert(remove_all(c2@.profiles, ids@.skip(n as int)) == c2@.profiles);
    }
    c2
}

/// The update workflow's decision: the chosen profile, which must exist, is
/// rebound to a valid branch no other profile uses. A failed validation
/// leaves the caller's document untouched.
pub fn update_profile(config: &TomlConfig, git: &GitClient, id: &str, new_branch: &str) -> (r:
    Result<TomlConfig, ValidationError>)
    requires
        config.wf(),
        has_key(config@.profiles, id@),
    ensures
        match r {
            Ok(c2) => {
                &&& valid_branch_name(new_branch@)
                &&& !other_has_branch(config@.profiles, id@, new_branch@)
                &&& c2.wf()
                &&& c2@.profiles == spec_insert(config@.profiles, id@, new_branch@)
                &&& c2@.base_path == config@.base_path
                &&& c2@.log_level == config@.log_level
                &&& c2@.active_profile == config@.active_profile
            },
            Err(e) => match e {
                ValidationError::InvalidSyntax => !valid_branch_name(new_branch@),
                ValidationError::DuplicateName => valid_branch_name(new_branch@)
                    && other_has_branch(config@.profiles, id@, new_branch@),
            },
        },
{
    let branches = config.profiles.branches_excluding(id);
    match validate_branch(git, branches, new_branch) {
        Err(e) => {
            proof {
                if other_has_branch(config@.profiles, id@, new_branch@) {
                    let i = choose|i: int|
                        0 <= i < config@.profiles.len() && (#[trigger] config@.profiles[i]).0 != id@
                            && config@.profiles[i].1 == new_branch@;
                    assert(branch_in_list(branches@, config@.profiles[i].1));
                }
            }
            return Err(e);
        },
        Ok(_) => {
            proof {
                if other_has_branch(config@.profiles, id@, new_branch@) {
                    let i = choose|i: int|
                        0 <= i < config@.profiles.len() && (#[trigger] config@.profiles[i]).0 != id@
                            && config@.profiles[i].1 == new_branch@;
                    assert(branch_in_list(branches@, config@.profiles[i].1));
                }
            }
        },
    }
    let mut c2 = config.clone();
    c2.profiles.insert(
        String::from_str(id),
        ProfileConfig { branch: String::from_str(new_branch) },
    );
    Ok(c2)
}

/// The first-run wizard's decision: apply the collected system settings,
/// then, when no profile exists yet and the operator chose to create one,
/// add that first profile.
pub fn initial_setup(
    config: &TomlConfig,
    git: &GitClient,
    base_path: String,
    log_level: LogLevel,
    new_profile: Option<(String, String, bool)>,
) -> (r: Result<TomlConfig, ValidationError>)
    requires
        config.wf(),
    ensures
        match r {
            Ok(c2) => {
                let c1 = with_settings(config@, base_path@, log_level);
                &&& c2.wf()
                &&& if config@.profiles.len() == 0 && new_profile is Some {
                    let p = new_profile->0;
                    &&& valid_branch_name(p.1@)
                    &&& c2@.profiles == spec_insert(c1.profiles, p.0@, p.1@)
                    &&& c2@.base_path == c1.base_path
                    &&& c2@.log_level == c1.log_level
                    &&& c2@.active_profile == if p.2 {
                        p.0@
                    } else {
                        c1.active_profile
                    }
                } else {
                    c2@ == c1
                }
            },
            Err(e) => config@.profiles.len() == 0 && (new_profile matches Some(p)
                && !valid_branch_name(p.1@)) && e == ValidationError::InvalidSyntax,
        },
{
    let c1 = set_system_settings(config, base_path, log_level);
    if c1.profiles.is_empty() {
        match new_profile {
            Some((id, branch, activate)) => {
                match create_profile(&c1, git, id.as_str(), branch.as_str(), activate) {
                    Ok(c2) => Ok(c2),
                    Err(e) => {
                        proof {
                            assert(!has_key(c1@.profiles, id@));
                            assert(!has_branch(c1@.profiles, branch@));
                        }
                        Err(e)
                    },
                }
            },
            None => Ok(c1),
        }
    } else {
        Ok(c1)
    }
}

/// One collected profile action: the event the interactive shell hands the
/// decision core.
#[derive(Debug)]
pub enum ProfileAction {
    /// Activate this selection.
    List { selection: String },
    /// Create a profile under a fresh identifier, bound to a branch, and
    /// possibly make it active.
    Create { id: String, branch: String, activate: bool },
    /// Delete every listed profile.
    Delete { ids: Vec<String> },
    /// Rebind an existing profile to another branch.
    Update { id: String, branch: String },
}

/// The decision core of the profile command: how one action transforms the
/// document, and whether the result must be written back. Only activating
/// the already-active profile calls for no write.
pub fn apply_profile_action(config: &TomlConfig, git: &GitClient, action: &ProfileAction) -> (r:
    Result<(TomlConfig, bool), ValidationError>)
    requires
        config.wf(),
        *action matches ProfileAction::Update { id, .. } ==> has_key(config@.profiles, id@),
    ensures
        match r {
            Ok(p) => p.0.wf() && match *action {
                ProfileAction::List { selection } => {
                    &&& p.0@.profiles == config@.profiles
                    &&& p.0@.base_path == config@.base_path
                    &&& p.0@.log_level == config@.log_level
                    &&& p.0@.active_profile == selection@
                    &&& p.1 == (selection@ != config@.active_profile)
                    &&& !p.1 ==> p.0@ == config@
                },
                ProfileAction::Create { id, branch, activate } => {
                    &&& !has_key(config@.profiles, id@)
                    &&& valid_branch_name(branch@)
                    &&& !has_branch(config@.profiles, branch@)
                    &&& p.0@.profiles == spec_insert(config@.profiles, id@, branch@)
                    &&& p.0@.base_path == config@.base_path
                    &&& p.0@.log_level == config@.log_level
                    &&& p.0@.active_profile == if activate {
                        id@
                    } else {
                        config@.active_profile
                    }
                    &&& p.1
                },
                ProfileAction::Delete { ids } => {
                    &&& p.0@.profiles == remove_all(config@.profiles, ids@)
                    &&& p.0@.base_path == config@.base_path
                    &&& p.0@.log_level == config@.log_level
                    &&& p.0@.active_profile == config@.active_profile
                    &&& p.1
                },
                ProfileAction::Update { id, branch } => {
                    &&& valid_branch_name(branch@)
                    &&& !other_has_branch(config@.profiles, id@, branch@)
                    &&& p.0@.profiles == spec_insert(config@.profiles, id@, branch@)
                    &&& p.0@.base_path == config@.base_path
                    &&& p.0@.log_level == config@.log_level
                    &&& p.0@.active_profile == config@.active_profile
                    &&& p.1
                },
            },
            Err(e) => match *action {
                ProfileAction::List { .. } => false,
                ProfileAction::Create { id, branch, .. } => match e {
                    ValidationError::DuplicateName => has_key(config@.profiles, id@) || (
                    valid_branch_name(branch@) && has_branch(config@.profiles, branch@)),
                    ValidationError::InvalidSyntax => !has_key(config@.profiles, id@)
                        && !valid_branch_name(branch@),
                },
                ProfileAction::Delete { .. } => false,
                ProfileAction::Update { id, branch } => match e {
                    ValidationError::InvalidSyntax => !valid_branch_name(branch@),
                    ValidationError::DuplicateName => valid_branch_name(branch@)
                        && other_has_branch(config@.profiles, id@, branch@),
                },
            },
        },
{
    match action {
        ProfileAction::List { selection } => {
            let (c2, changed) = activate_profile(config, selection.as_str());
            Ok((c2, changed))
        },
        ProfileAction::Create { id, branch, activate } => {
            match create_profile(config, git, id.as_str(), branch.as_str(), *activate) {
                Ok(c2) => Ok((c2, true)),
                Err(e) => Err(e),
            }
        },
        ProfileAction::Delete { ids } => Ok((delete_profiles(config, ids), true)),
        ProfileAction::Update { id, branch } => {
            match update_profile(config, git, id.as_str(), branch.as_str()) {
                Ok(c2) => Ok((c2, true)),
                Err(e) => Err(e),
            }
        },
    }
}

/// A workflow failure: a rejected input, which the prompt loop retries, or an
/// I/O failure at the point of persistence, which aborts the run.
#[derive(Clone, Copy, Debug, PartialEq, Eq, Structural)]
pub enum WorkflowError {
    Validation(ValidationError),
    Io(ConfigError),
}

/// The whole profile command against the store: decide, then persist when
/// anything calls for it. A selection that leaves the active profile as it
/// was writes nothing; every other completed action overwrites the file; a
/// failed validation or a failed write leaves the store untouched.
pub fn execute_profile_action<F: FileSystem, L: ConfigLoader>(
    config: &TomlConfig,
    fs: &mut F,
    loader: &L,
    git: &GitClient,
    action: &ProfileAction,
) -> (r: Result<(TomlConfig, bool), WorkflowError>)
    requires
        config.wf(),
        *action matches ProfileAction::Update { id, .. } ==> has_key(config@.profiles, id@),
    ensures
        *action matches ProfileAction::List { selection } && selection@ == config@.active_profile
            ==> r is Ok,
        *action matches ProfileAction::Create { id, branch, .. } && (has_key(
            config@.profiles,
            id@,
        ) || !valid_branch_name(branch@) || has_branch(config@.profiles, branch@)) ==> (
        r matches Err(e) && e matches WorkflowError::Validation(_)),
        *action matches ProfileAction::Update { id, branch } && (!valid_branch_name(branch@)
            || other_has_branch(config@.profiles, id@, branch@)) ==> (r matches Err(e)
            && e matches WorkflowError::Validation(_)),
        match r {
            Ok(p) => {
                &&& p.0.wf()
                &&& (p.1 ==> final (fs).files() == old(fs).files().insert(
                    config_path(p.0@.base_path),
                    ser_doc(p.0@),
                ))
                &&& (!p.1 ==> final (fs).files() == old(fs).files() && p.0@ == config@)
                &&& match *action {
                    ProfileAction::List { selection } => {
                        &&& p.0@.profiles == config@.profiles
                        &&& p.0@.base_path == config@.base_path
                        &&& p.0@.log_level == config@.log_level
                        &&& p.0@.active_profile == selection@
                        &&& p.1 == (selection@ != config@.active_profile)
                    },
                    ProfileAction::Create { id, branch, activate } => {
                        &&& !has_key(config@.profiles, id@)
                        &&& valid_branch_name(branch@)
                        &&& !has_branch(config@.profiles, branch@)
                        &&& p.0@.profiles == spec_insert(config@.profiles, id@, branch@)
                        &&& p.0@.base_path == config@.base_path
                        &&& p.0@.log_level == config@.log_level
                        &&& p.0@.active_profile == if activate {
                            id@
                        } else {
                            config@.active_profile
                        }
                        &&& p.1
                    },
                    ProfileAction::Delete { ids } => {
                        &&& p.0@.profiles == remove_all(config@.profiles, ids@)
                        &&& p.0@.base_path == config@.base_path
                        &&& p.0@.log_level == config@.log_level
                        &&& p.0@.active_profile == config@.active_profile
                        &&& p.1
                    },
                    ProfileAction::Update { id, branch } => {
                        &&& valid_branch_name(branch@)
                        &&& !other_has_branch(config@.profiles, id@, branch@)
                        &&& p.0@.profiles == spec_insert(config@.profiles, id@, branch@)
                        &&& p.0@.base_path == config@.base_path
                        &&& p.0@.log_level == config@.log_level
                        &&& p.0@.active_profile == config@.active_profile
                        &&& p.1
                    },
                }
            },
            Err(e) => final (fs).files() == old(fs).files() && match e {
                WorkflowError::Io(io) => io == ConfigError::Write,
                WorkflowError::Validation(v) => match *action {
                    ProfileAction::List { .. } => false,
                    ProfileAction::Create { id, branch, .. } => match v {
                        ValidationError::DuplicateName => has_key(config@.profiles, id@) || (
                        valid_branch_name(branch@) && has_branch(config@.profiles, branch@)),
                        ValidationError::InvalidSyntax => !has_key(config@.profiles, id@)
                            && !valid_branch_name(branch@),
                    },
                    ProfileAction::Delete { .. } => false,
                    ProfileAction::Update { id, branch } => match v {
                        ValidationError::InvalidSyntax => !valid_branch_name(branch@),
                        ValidationError::DuplicateName => valid_branch_name(branch@)
                            && other_has_branch(config@.profiles, id@, branch@),
                    },
                },
            },
        },
{
    match apply_profile_action(config, git, action) {
        Err(e) => Err(WorkflowError::Validation(e)),
        Ok((c2, changed)) => {
            if changed {
                match persist(&c2, fs, loader) {
                    Ok(_) => Ok((c2, true)),
                    Err(_) => Err(WorkflowError::Io(ConfigError::Write)),
                }
            } else {
                Ok((c2, false))
            }
        },
    }
}

/// The setup command against the store: run the first-time wizard's decision
/// and write the resulting document out unconditionally.
pub fn execute_setup<F: FileSystem, L: ConfigLoader>(
    config: &TomlConfig,
    fs: &mut F,
    loader: &L,
    git: &GitClient,
    base_path: String,
    log_level: LogLevel,
    new_profile: Option<(String, String, bool)>,
) -> (r: Result<TomlConfig, WorkflowError>)
    requires
        config.wf(),
    ensures
        config@.profiles.len() == 0 && new_profile is Some && !valid_branch_name(
            (new_profile->0).1@,
        ) ==> r == Err::<TomlConfig, WorkflowError>(
            WorkflowError::Validation(ValidationError::InvalidSyntax),
        ),
        match r {
            Ok(c2) => {
                let c1 = with_settings(config@, base_path@, log_level);
                &&& c2.wf()
                &&& final (fs).files() == old(fs).files().insert(
                    config_path(c2@.base_path),
                    ser_doc(c2@),
                )
                &&& if config@.profiles.len() == 0 && new_profile is Some {
                    let p = new_profile->0;
                    &&& valid_branch_name(p.1@)
                    &&& c2@.profiles == spec_insert(c1.profiles, p.0@, p.1@)
                    &&& c2@.base_path == c1.base_path
                    &&& c2@.log_level == c1.log_level
                    &&& c2@.active_profile == if p.2 {
                        p.0@
                    } else {
                        c1.active_profile
                    }
                } else {
                    c2@ == c1
                }
            },
            Err(e) => final (fs).files() == old(fs).files() && match e {
                WorkflowError::Io(io) => io == ConfigError::Write,
                WorkflowError::Validation(v) => config@.profiles.len() == 0 && (new_profile
                    is Some && !valid_branch_name((new_profile->0).1@)) && v
                    == ValidationError::InvalidSyntax,
            },
        },
{
    match initial_setup(config, git, base_path, log_level, new_profile) {
        Err(e) => Err(WorkflowError::Validation(e)),
        Ok(c2) => match persist(&c2, fs, loader) {
            Ok(_) => Ok(c2),
            Err(_) => Err(WorkflowError::Io(ConfigError::Write)),
        },
    }
}

} // verus!
