//! Branch-name validation: the syntactic rules a proposed Git branch name
//! must meet, and the uniqueness check against the branches already in use.
use vstd::prelude::*;

use crate::strings::{control_char, is_control_char, is_whitespace_char, str_eq, whitespace_char};

verus! {

/// Why a proposed branch name was rejected.
#[derive(Clone, Copy, Debug, PartialEq, Eq, Structural)]
pub enum ValidationError {
    /// The name breaks one of the syntactic rules.
    InvalidSyntax,
    /// The name is already taken.
    DuplicateName,
}

impl ValidationError {
    pub fn message(&self) -> (r: &'static str)
        ensures
            *self == ValidationError::InvalidSyntax ==> r@ == "Branch name contains invalid characters"@,
            *self == ValidationError::DuplicateName ==> r@
                == "This name is already used. Please choose a different one."@,
    {
        match self {
            ValidationError::InvalidSyntax => "Branch name contains invalid characters",
            ValidationError::DuplicateName => "This name is already used. Please choose a different one.",
        }
    }
}

/// The characters Git reserves and refuses anywhere in a branch name.
pub open spec fn is_reserved_char(c: char) -> bool {
    c == '~' || c == '^' || c == ':' || c == '?' || c == '*' || c == '[' || c == '\\'
}

pub fn reserved_char(c: char) -> (r: bool)
    ensures
        r == is_reserved_char(c),
{
    c == '~' || c == '^' || c == ':' || c == '?' || c == '*' || c == '[' || c == '\\'
}

/// A character a branch name may contain: no whitespace, no control
/// character, none of the reserved characters.
pub open spec fn is_allowed_char(c: char) -> bool {
    !is_whitespace_char(c) && !is_control_char(c) && !is_reserved_char(c)
}

pub open spec fn double_dot_at(s: Seq<char>, i: int) -> bool {
    s[i] == '.' && s[i + 1] == '.'
}

pub open spec fn has_double_dot(s: Seq<char>) -> bool {
    exists|i: int| 0 <= i < s.len() - 1 && #[trigger] double_dot_at(s, i)
}

/// The syntactic rules for a branch name: non-empty, no leading or trailing
/// slash, no two consecutive dots, and every character allowed.
pub open spec fn valid_branch_name(s: Seq<char>) -> bool {
    &&& s.len() > 0
    &&& s[0] != '/'
    &&& s[s.len() - 1] != '/'
    &&& !has_double_dot(s)
    &&& forall|i: int| 0 <= i < s.len() ==> is_allowed_char(#[trigger] s[i])
}

/// Whether `name` already stands in `branches`.
pub open spec fn branch_in_list(branches: Seq<String>, name: Seq<char>) -> bool {
    exists|i: int| 0 <= i < branches.len() && #[trigger] branches[i]@ == name
}

/// The validation interface the profile workflows consume, kept behind a
/// capability trait so tests can substitute their own.
pub trait Git {
    fn is_branch_unique(&self, branches: Vec<String>, name: &str) -> (r: Result<
        (),
        ValidationError,
    >)
        ensures
            r matches Ok(_) <==> !branch_in_list(branches@, name@),
            r matches Err(e) ==> e == ValidationError::DuplicateName,
    ;

    fn is_valid_branch_name(&self, name: &str) -> (r: Result<(), ValidationError>)
        ensures
            r matches Ok(_) <==> valid_branch_name(name@),
            r matches Err(e) ==> e == ValidationError::InvalidSyntax,
    ;
}

pub struct GitClient;

impl Git for GitClient {
    fn is_branch_unique(&self, branches: Vec<String>, name: &str) -> (r: Result<
        (),
        ValidationError,
    >) {
        let n = branches.len();
        let mut i: usize = 0;
        while i < n
            invariant
                n == branches@.len(),
                i <= n,
                forall|j: int| 0 <= j < i ==> #[trigger] branches@[j]@ != name@,
            decreases n - i,
        {
            if str_eq(branches[i].as_str(), name) {
                return Err(ValidationError::DuplicateName);
            }
            i = i + 1;
        }
        Ok(())
    }

    fn is_valid_branch_name(&self, name: &str) -> (r: Result<(), ValidationError>) {
        let len = name.unicode_len();
        if len == 0 {
            return Err(ValidationError::InvalidSyntax);
        }
        if name.get_char(0) == '/' {
            return Err(ValidationError::InvalidSyntax);
        }
        if name.get_char(len - 1) == '/' {
            return Err(ValidationError::InvalidSyntax);
        }
        let mut i: usize = 0;
        while i < len
            invariant
                len == name@.len(),
                i <= len,
                forall|j: int| 0 <= j < i ==> is_allowed_char(#[trigger] name@[j]),
                forall|j: int| 0 <= j < i && j < len - 1 ==> !double_dot_at(name@, j),
            decreases len - i,
        {
            let c = name.get_char(i);
            if whitespace_char(c) || control_char(c) || reserved_char(c) {
                return Err(ValidationError::InvalidSyntax);
            }
            if c == '.' && i + 1 < len {
                if name.get_char(i + 1) == '.' {
                    proof {
                        assert(double_dot_at(name@, i as int));
                    }
                    return Err(ValidationError::InvalidSyntax);
                }
            }
            proof {
                if i < len - 1 && double_dot_at(name@, i as int) {
                    assert(name@[i + 1] == '.');
                }
            }
            i = i + 1;
        }
        Ok(())
    }
}

/// Syntax and uniqueness together, in the order the profile wizards apply
/// them: a name must be well-formed before it is compared against the list.
pub fn validate_branch(git: &GitClient, branches: Vec<String>, name: &str) -> (r: Result<
    (),
    ValidationError,
>)
    ensures
        r matches Ok(_) <==> valid_branch_name(name@) && !branch_in_list(branches@, name@),
        r matches Err(e) ==> if !valid_branch_name(name@) {
            e == ValidationError::InvalidSyntax
        } else {
            e == ValidationError::DuplicateName
        },
{
    git.is_valid_branch_name(name)?;
    git.is_branch_unique(branches, name)?;
    Ok(())
}

} // verus!
