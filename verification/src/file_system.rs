//! The file-store capability the loader depends on, modeled as a map from
//! full paths to contents, together with an in-memory store that implements
//! it: the test double behind the same interface.
use vstd::prelude::*;

use crate::strings::str_eq;

verus! {

/// A failed file operation; the store promises nothing about when one occurs.
#[derive(Clone, Copy, Debug, PartialEq, Eq, Structural)]
pub struct FsError;

/// A store of named files. `files()` is the model every operation is specified
/// against: reads observe it, a successful write updates exactly one entry.
/// An implementation the verifier checks overrides `files()` with its real
/// model; one written outside the verifier may leave the default, since
/// nothing is proved about it anyway.
pub trait FileSystem {
    open spec fn files(&self) -> Map<Seq<char>, Seq<char>> {
        Map::empty()
    }

    fn file_exists(&self, path: &str) -> (r: bool)
        ensures
            r == self.files().contains_key(path@),
    ;

    fn read_to_string(&self, path: &str) -> (r: Result<String, FsError>)
        ensures
            r matches Ok(content) ==> self.files().contains_key(path@) && content@
                == self.files()[path@],
    ;

    fn write(&mut self, path: &str, contents: &str) -> (r: Result<(), FsError>)
        ensures
            r matches Ok(_) ==> final (self).files() == old(self).files().insert(
                path@,
                contents@,
            ),
            r matches Err(_) ==> final (self).files() == old(self).files(),
    ;
}

/// The map a journal of writes denotes: later entries overwrite earlier ones.
pub open spec fn files_of(s: Seq<(String, String)>) -> Map<Seq<char>, Seq<char>>
    decreases s.len(),
{
    if s.len() == 0 {
        Map::empty()
    } else {
        files_of(s.drop_last()).insert(s.last().0@, s.last().1@)
    }
}

proof fn lemma_files_of_contains(s: Seq<(String, String)>, k: Seq<char>)
    ensures
        files_of(s).contains_key(k) <==> exists|i: int| 0 <= i < s.len() && (#[trigger] s[i]).0@
            == k,
    decreases s.len(),
{
    if s.len() == 0 {
    } else {
        lemma_files_of_contains(s.drop_last(), k);
        if s.last().0@ == k {
            assert(s[s.len() - 1].0@ == k);
        } else {
            if files_of(s).contains_key(k) {
                let i = choose|i: int|
                    0 <= i < s.drop_last().len() && (#[trigger] s.drop_last()[i]).0@ == k;
                assert(s[i].0@ == k);
            }
            if exists|i: int| 0 <= i < s.len() && (#[trigger] s[i]).0@ == k {
                let i = choose|i: int| 0 <= i < s.len() && (#[trigger] s[i]).0@ == k;
                assert(i < s.len() - 1);
                assert(s.drop_last()[i].0@ == k);
            }
        }
    }
}

proof fn lemma_files_of_get(s: Seq<(String, String)>, i: int, k: Seq<char>)
    requires
        0 <= i < s.len(),
        s[i].0@ == k,
        forall|j: int| i < j < s.len() ==> (#[trigger] s[j]).0@ != k,
    ensures
        files_of(s).contains_key(k),
        files_of(s)[k] == s[i].1@,
    decreases s.len(),
{
    if i == s.len() - 1 {
    } else {
        assert(s.last().0@ != k);
        assert(forall|j: int|
            i < j < s.drop_last().len() ==> (#[trigger] s.drop_last()[j]).0@ != k);
        lemma_files_of_get(s.drop_last(), i, k);
    }
}

/// An in-memory file store: a journal of writes, latest entry authoritative.
/// It also counts the writes made to it, so a test can see that a workflow
/// performed none.
#[derive(Debug)]
pub struct InMemoryFileSystem {
    entries: Vec<(String, String)>,
    writes: u64,
}

impl InMemoryFileSystem {
    pub fn new() -> (r: Self)
        ensures
            r.files() == Map::<Seq<char>, Seq<char>>::empty(),
            r.spec_write_count() == 0,
    {
        let r = InMemoryFileSystem { entries: Vec::new(), writes: 0 };
        proof {
            assert(r.entries@.len() == 0);
        }
        r
    }

    /// How many writes the store has taken.
    pub closed spec fn spec_write_count(&self) -> u64 {
        self.writes
    }

    pub fn write_count(&self) -> (r: u64)
        ensures
            r == self.spec_write_count(),
    {
        self.writes
    }
}

impl FileSystem for InMemoryFileSystem {
    closed spec fn files(&self) -> Map<Seq<char>, Seq<char>> {
        files_of(self.entries@)
    }

    fn file_exists(&self, path: &str) -> (r: bool) {
        let n = self.entries.len();
        let mut i: usize = 0;
        proof {
            lemma_files_of_contains(self.entries@, path@);
        }
        while i < n
            invariant
                n == self.entries@.len(),
                i <= n,
                forall|j: int| 0 <= j < i ==> (#[trigger] self.entries@[j]).0@ != path@,
                files_of(self.entries@).contains_key(path@) <==> exists|j: int|
                    0 <= j < n && (#[trigger] self.entries@[j]).0@ == path@,
            decreases n - i,
        {
            if str_eq(self.entries[i].0.as_str(), path) {
                return true;
            }
            i = i + 1;
        }
        false
    }

    fn read_to_string(&self, path: &str) -> (r: Result<String, FsError>) {
        let n = self.entries.len();
        let mut i: usize = n;
        while i > 0
            invariant
                n == self.entries@.len(),
                i <= n,
                forall|j: int| i <= j < n ==> (#[trigger] self.entries@[j]).0@ != path@,
            decreases i,
        {
            i = i - 1;
            if str_eq(self.entries[i].0.as_str(), path) {
                proof {
                    lemma_files_of_get(self.entries@, i as int, path@);
                }
                return Ok(self.entries[i].1.clone());
            }
        }
        Err(FsError)
    }

    fn write(&mut self, path: &str, contents: &str) -> (r: Result<(), FsError>) {
        let ghost s0 = self.entries@;
        let p = String::from_str(path);
        let c = String::from_str(contents);
        self.entries.push((p, c));
        if self.writes < u64::MAX {
            self.writes = self.writes + 1;
        }
        proof {
            assert(self.entries@.drop_last() =~= s0);
            assert(files_of(self.entries@) == files_of(s0).insert(path@, contents@));
        }
        Ok(())
    }
}

} // verus!
