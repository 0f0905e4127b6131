//! The profile data model: one profile's settings, and the collection of all
//! profiles keyed by identifier. The collection keeps its entries strictly
//! sorted by key, so keys are unique and every listing is deterministic.
use vstd::prelude::*;

use crate::strings::{lemma_lex_transitive, lemma_lex_trichotomy, lex_lt, str_eq, str_lt};

verus! {

/// One profile: its binding to a version-control branch.
#[derive(Debug)]
pub struct ProfileConfig {
    pub branch: String,
}

impl View for ProfileConfig {
    type V = Seq<char>;

    open spec fn view(&self) -> Seq<char> {
        self.branch@
    }
}

impl Clone for ProfileConfig {
    fn clone(&self) -> (r: Self)
        ensures
            r@ == self@,
    {
        ProfileConfig { branch: self.branch.clone() }
    }
}

impl Default for ProfileConfig {
    /// A profile constructed without explicit input is bound to `main`.
    fn default() -> (r: Self)
        ensures
            r@ == "main"@,
    {
        ProfileConfig { branch: String::from_str("main") }
    }
}

/// A profile entry as the contracts see it: the identifier and the branch.
pub type EntryV = (Seq<char>, Seq<char>);

/// Entries strictly ascending by key: the map's well-formedness.
pub open spec fn entries_sorted(s: Seq<EntryV>) -> bool {
    forall|i: int, j: int|
        0 <= i < j < s.len() ==> lex_lt((#[trigger] s[i]).0, (#[trigger] s[j]).0)
}

pub open spec fn has_key(s: Seq<EntryV>, k: Seq<char>) -> bool {
    exists|i: int| 0 <= i < s.len() && (#[trigger] s[i]).0 == k
}

pub open spec fn has_branch(s: Seq<EntryV>, b: Seq<char>) -> bool {
    exists|i: int| 0 <= i < s.len() && (#[trigger] s[i]).1 == b
}

/// Some entry other than the one keyed `k` carries branch `b`.
pub open spec fn other_has_branch(s: Seq<EntryV>, k: Seq<char>, b: Seq<char>) -> bool {
    exists|i: int| 0 <= i < s.len() && (#[trigger] s[i]).0 != k && s[i].1 == b
}

/// Where an entry with key `k` goes in the sorted sequence: existing entries
/// with smaller keys stay ahead, an entry with the same key is replaced,
/// everything larger moves one place up.
pub open spec fn spec_insert(s: Seq<EntryV>, k: Seq<char>, b: Seq<char>) -> Seq<EntryV>
    decreases s.len(),
{
    if s.len() == 0 {
        seq![(k, b)]
    } else if lex_lt(s[0].0, k) {
        seq![s[0]] + spec_insert(s.skip(1), k, b)
    } else if s[0].0 == k {
        seq![(k, b)] + s.skip(1)
    } else {
        seq![(k, b)] + s
    }
}

/// The sequence without its first entry keyed `k` (its only one, when sorted).
pub open spec fn spec_remove(s: Seq<EntryV>, k: Seq<char>) -> Seq<EntryV>
    decreases s.len(),
{
    if s.len() == 0 {
        s
    } else if s[0].0 == k {
        s.skip(1)
    } else {
        seq![s[0]] + spec_remove(s.skip(1), k)
    }
}

/// `spec_insert` lands at the position the linear scan finds: if the key is
/// already there the entry is overwritten in place, otherwise a new entry is
/// spliced in just before the first key that is not smaller.
proof fn lemma_insert_at(s: Seq<EntryV>, k: Seq<char>, b: Seq<char>, j: int)
    requires
        0 <= j <= s.len(),
        forall|i: int| 0 <= i < j ==> lex_lt((#[trigger] s[i]).0, k),
        j < s.len() ==> !lex_lt(s[j].0, k),
    ensures
        spec_insert(s, k, b) == if j < s.len() && s[j].0 == k {
            s.update(j, (k, b))
        } else {
            s.insert(j, (k, b))
        },
    decreases j,
{
    if j == 0 {
        if s.len() == 0 {
            assert(spec_insert(s, k, b) =~= s.insert(0, (k, b)));
        } else if s[0].0 == k {
            assert(spec_insert(s, k, b) == seq![(k, b)] + s.skip(1));
            assert(seq![(k, b)] + s.skip(1) =~= s.update(0, (k, b)));
        } else {
            assert(!lex_lt(s[0].0, k));
            assert(spec_insert(s, k, b) == seq![(k, b)] + s);
            assert(seq![(k, b)] + s =~= s.insert(0, (k, b)));
        }
    } else {
        assert(lex_lt(s[0].0, k));
        let t = s.skip(1);
        assert(forall|i: int| 0 <= i < j - 1 ==> (#[trigger] t[i]) == s[i + 1]);
        lemma_insert_at(t, k, b, j - 1);
        if j < s.len() && s[j].0 == k {
            assert(t[j - 1] == s[j]);
            assert(spec_insert(s, k, b) == seq![s[0]] + t.update(j - 1, (k, b)));
            assert(seq![s[0]] + t.update(j - 1, (k, b)) =~= s.update(j, (k, b)));
        } else {
            assert(spec_insert(s, k, b) == seq![s[0]] + t.insert(j - 1, (k, b)));
            t.insert_ensures(j - 1, (k, b));
            s.insert_ensures(j, (k, b));
            assert(seq![s[0]] + t.insert(j - 1, (k, b)) =~= s.insert(j, (k, b)));
        }
    }
}

/// `spec_remove` takes out exactly the entry the linear scan finds, or leaves
/// the sequence as it was when no entry carries the key.
proof fn lemma_remove_at(s: Seq<EntryV>, k: Seq<char>, j: int)
    requires
        0 <= j <= s.len(),
        forall|i: int| 0 <= i < j ==> (#[trigger] s[i]).0 != k,
        j < s.len() ==> s[j].0 == k,
    ensures
        spec_remove(s, k) == if j < s.len() {
            s.remove(j)
        } else {
            s
        },
    decreases j,
{
    if j == 0 {
        if 0 < s.len() {
            assert(spec_remove(s, k) == s.skip(1));
            assert(s.skip(1) =~= s.remove(0));
        }
    } else {
        let t = s.skip(1);
        assert(forall|i: int| 0 <= i < j - 1 ==> (#[trigger] t[i]) == s[i + 1]);
        lemma_remove_at(t, k, j - 1);
        if j < s.len() {
            assert(t[j - 1] == s[j]);
            assert(spec_remove(s, k) == seq![s[0]] + t.remove(j - 1));
            t.remove_ensures(j - 1);
            s.remove_ensures(j);
            assert(seq![s[0]] + t.remove(j - 1) =~= s.remove(j));
        } else {
            assert(spec_remove(s, k) == seq![s[0]] + t);
            assert(seq![s[0]] + t =~= s);
        }
    }
}

/// Inserting a key larger than every present key appends the entry.
pub proof fn lemma_insert_at_end(s: Seq<EntryV>, k: Seq<char>, b: Seq<char>)
    requires
        forall|i: int| 0 <= i < s.len() ==> lex_lt((#[trigger] s[i]).0, k),
    ensures
        spec_insert(s, k, b) == s.push((k, b)),
{
    lemma_insert_at(s, k, b, s.len() as int);
    assert(s.insert(s.len() as int, (k, b)) =~= s.push((k, b)));
}

/// The profile collection: identifiers mapped to profiles, kept in key order.
#[derive(Debug)]
pub struct ProfilesMap {
    entries: Vec<(String, ProfileConfig)>,
}

impl View for ProfilesMap {
    type V = Seq<EntryV>;

    closed spec fn view(&self) -> Seq<EntryV> {
        self.entries@.map_values(|e: (String, ProfileConfig)| (e.0@, e.1.branch@))
    }
}

impl Clone for ProfilesMap {
    fn clone(&self) -> (r: Self)
        ensures
            r@ == self@,
    {
        let mut entries: Vec<(String, ProfileConfig)> = Vec::new();
        let n = self.entries.len();
        let mut i: usize = 0;
        while i < n
            invariant
                n == self.entries@.len(),
                i <= n,
                entries@.len() == i,
                forall|j: int|
                    0 <= j < i ==> (#[trigger] entries@[j]).0@ == self.entries@[j].0@
                        && entries@[j].1.branch@ == self.entries@[j].1.branch@,
            decreases n - i,
        {
            let id = self.entries[i].0.clone();
            let cfg = self.entries[i].1.clone();
            entries.push((id, cfg));
            i = i + 1;
        }
        let r = ProfilesMap { entries };
        proof {
            assert(r@ =~= self@);
        }
        r
    }
}

impl ProfilesMap {
    /// Well-formed: the entries stand in strictly ascending key order, so
    /// every key occurs once.
    pub open spec fn wf(&self) -> bool {
        entries_sorted(self@)
    }

    pub fn new() -> (r: Self)
        ensures
            r@ == Seq::<EntryV>::empty(),
            r.wf(),
    {
        let r = ProfilesMap { entries: Vec::new() };
        proof {
            assert(r@ =~= Seq::<EntryV>::empty());
        }
        r
    }

    pub fn len(&self) -> (r: usize)
        ensures
            r == self@.len(),
    {
        self.entries.len()
    }

    pub fn is_empty(&self) -> (r: bool)
        ensures
            r == (self@.len() == 0),
    {
        self.entries.len() == 0
    }

    /// The index of the entry keyed `id`, if one is there.
    fn index_of(&self, id: &str) -> (r: Option<usize>)
        ensures
            match r {
                Some(i) => i < self@.len() && self@[i as int].0 == id@,
                None => !has_key(self@, id@),
            },
    {
        let n = self.entries.len();
        let mut i: usize = 0;
        while i < n
            invariant
                n == self.entries@.len(),
                i <= n,
                forall|j: int| 0 <= j < i ==> (#[trigger] self@[j]).0 != id@,
            decreases n - i,
        {
            if str_eq(self.entries[i].0.as_str(), id) {
                return Some(i);
            }
            i = i + 1;
        }
        None
    }

    pub fn contains_key(&self, id: &str) -> (r: bool)
        ensures
            r == has_key(self@, id@),
    {
        match self.index_of(id) {
            Some(_) => true,
            None => false,
        }
    }

    pub fn get(&self, id: &str) -> (r: Option<&ProfileConfig>)
        ensures
            match r {
                Some(p) => exists|i: int|
                    0 <= i < self@.len() && (#[trigger] self@[i]) == (id@, p.branch@),
                None => !has_key(self@, id@),
            },
    {
        match self.index_of(id) {
            Some(i) => Some(&self.entries[i].1),
            None => None,
        }
    }

    /// Where `id` belongs: the count of entries with strictly smaller keys.
    fn lower_bound(&self, id: &str) -> (r: usize)
        ensures
            r <= self@.len(),
            forall|i: int| 0 <= i < r ==> lex_lt((#[trigger] self@[i]).0, id@),
            r < self@.len() ==> !lex_lt(self@[r as int].0, id@),
    {
        let n = self.entries.len();
        let mut j: usize = 0;
        while j < n
            invariant
                n == self.entries@.len(),
                j <= n,
                forall|i: int| 0 <= i < j ==> lex_lt((#[trigger] self@[i]).0, id@),
            decreases n - j,
        {
            if !str_lt(self.entries[j].0.as_str(), id) {
                return j;
            }
            j = j + 1;
        }
        j
    }

    /// Puts the profile under `id`, replacing an entry that already carries
    /// that key, and keeps the entries sorted.
    pub fn insert(&mut self, id: String, cfg: ProfileConfig)
        requires
            old(self).wf(),
        ensures
            final(self).wf(),
            final(self)@ == spec_insert(old(self)@, id@, cfg@),
    {
        let ghost s0 = self@;
        let ghost k = id@;
        let ghost b = cfg.branch@;
        let j = self.lower_bound(id.as_str());
        let n = self.entries.len();
        let mut replace = false;
        if j < n {
            if str_eq(self.entries[j].0.as_str(), id.as_str()) {
                replace = true;
            }
        }
        proof {
            lemma_insert_at(s0, k, b, j as int);
        }
        if replace {
            self.entries.remove(j);
            self.entries.insert(j, (id, cfg));
            proof {
                assert(self@ =~= s0.update(j as int, (k, b)));
                assert forall|p: int, q: int|
                    0 <= p < q < self@.len() implies lex_lt(
                    (#[trigger] self@[p]).0,
                    (#[trigger] self@[q]).0,
                ) by {
                    if p != j && q != j {
                        assert(lex_lt(s0[p].0, s0[q].0));
                    } else if p == j {
                        assert(lex_lt(s0[p].0, s0[q].0));
                        assert(s0[p].0 == k);
                    } else {
                        assert(lex_lt(s0[p].0, s0[q].0));
                        assert(s0[q].0 == k);
                    }
                }
            }
        } else {
            self.entries.insert(j, (id, cfg));
            proof {
                s0.insert_ensures(j as int, (k, b));
                assert(self@ =~= s0.insert(j as int, (k, b)));
                if (j as int) < s0.len() {
                    lemma_lex_trichotomy(s0[j as int].0, k);
                }
                assert forall|p: int, q: int|
                    0 <= p < q < self@.len() implies lex_lt(
                    (#[trigger] self@[p]).0,
                    (#[trigger] self@[q]).0,
                ) by {
                    let ji = j as int;
                    if q < ji {
                        assert(self@[p] == s0[p] && self@[q] == s0[q]);
                    } else if p < ji && q == ji {
                        assert(self@[p] == s0[p]);
                        assert(self@[q].0 == k);
                    } else if p < ji && q > ji {
                        assert(self@[p] == s0[p] && self@[q] == s0[q - 1]);
                        assert(p < q - 1);
                        assert(lex_lt(s0[p].0, s0[q - 1].0));
                    } else if p == ji {
                        assert(self@[p].0 == k);
                        assert(self@[q] == s0[q - 1]);
                        assert(lex_lt(k, s0[ji].0));
                        if ji < q - 1 {
                            assert(lex_lt(s0[ji].0, s0[q - 1].0));
                            lemma_lex_transitive(k, s0[ji].0, s0[q - 1].0);
                        }
                    } else {
                        assert(self@[p] == s0[p - 1] && self@[q] == s0[q - 1]);
                        assert(lex_lt(s0[p - 1].0, s0[q - 1].0));
                    }
                }
            }
        }
    }

    /// Takes out the entry keyed `id`; a key that is not there leaves the map
    /// as it was.
    pub fn remove(&mut self, id: &str)
        requires
            old(self).wf(),
        ensures
            final(self).wf(),
            final(self)@ == spec_remove(old(self)@, id@),
    {
        let ghost s0 = self@;
        match self.index_of_sorted_prefix(id) {
            Some(j) => {
                proof {
                    lemma_remove_at(s0, id@, j as int);
                }
                self.entries.remove(j);
                proof {
                    s0.remove_ensures(j as int);
                    assert(self@ =~= s0.remove(j as int));
                    assert forall|p: int, q: int|
                        0 <= p < q < self@.len() implies lex_lt(
                        (#[trigger] self@[p]).0,
                        (#[trigger] self@[q]).0,
                    ) by {
                        let p0 = if p < j { p } else { p + 1 };
                        let q0 = if q < j { q } else { q + 1 };
                        assert(self@[p] == s0[p0] && self@[q] == s0[q0]);
                        assert(lex_lt(s0[p0].0, s0[q0].0));
                    }
                }
            },
            None => {
                proof {
                    lemma_remove_at(s0, id@, s0.len() as int);
                }
            },
        }
    }

    /// `index_of`, with the scanned prefix recorded so `remove` can place the
    /// hit for `spec_remove`.
    fn index_of_sorted_prefix(&self, id: &str) -> (r: Option<usize>)
        ensures
            match r {
                Some(i) => i < self@.len() && self@[i as int].0 == id@ && forall|j: int|
                    0 <= j < i ==> (#[trigger] self@[j]).0 != id@,
                None => !has_key(self@, id@),
            },
    {
        let n = self.entries.len();
        let mut i: usize = 0;
        while i < n
            invariant
                n == self.entries@.len(),
                i <= n,
                forall|j: int| 0 <= j < i ==> (#[trigger] self@[j]).0 != id@,
            decreases n - i,
        {
            if str_eq(self.entries[i].0.as_str(), id) {
                return Some(i);
            }
            i = i + 1;
        }
        None
    }

    /// The identifier of the entry at position `i`.
    pub fn key_at(&self, i: usize) -> (r: &str)
        requires
            i < self@.len(),
        ensures
            r@ == self@[i as int].0,
    {
        self.entries[i].0.as_str()
    }

    /// The branch of the entry at position `i`.
    pub fn branch_at(&self, i: usize) -> (r: &str)
        requires
            i < self@.len(),
        ensures
            r@ == self@[i as int].1,
    {
        self.entries[i].1.branch.as_str()
    }

    /// The identifiers, in the map's (sorted) order.
    pub fn keys(&self) -> (r: Vec<String>)
        ensures
            r@.len() == self@.len(),
            forall|i: int| 0 <= i < r@.len() ==> (#[trigger] r@[i])@ == self@[i].0,
    {
        let n = self.entries.len();
        let mut r: Vec<String> = Vec::new();
        let mut i: usize = 0;
        while i < n
            invariant
                n == self.entries@.len(),
                i <= n,
                r@.len() == i,
                forall|j: int| 0 <= j < i ==> (#[trigger] r@[j])@ == self@[j].0,
            decreases n - i,
        {
            r.push(self.entries[i].0.clone());
            i = i + 1;
        }
        r
    }

    /// Every branch in the map, in entry order.
    pub fn branches(&self) -> (r: Vec<String>)
        ensures
            r@.len() == self@.len(),
            forall|i: int| 0 <= i < r@.len() ==> (#[trigger] r@[i])@ == self@[i].1,
    {
        let n = self.entries.len();
        let mut r: Vec<String> = Vec::new();
        let mut i: usize = 0;
        while i < n
            invariant
                n == self.entries@.len(),
                i <= n,
                r@.len() == i,
                forall|j: int| 0 <= j < i ==> (#[trigger] r@[j])@ == self@[j].1,
            decreases n - i,
        {
            r.push(self.entries[i].1.branch.clone());
            i = i + 1;
        }
        r
    }

    /// The branches of every entry except the one keyed `id`: what a branch
    /// update must stay clear of.
    pub fn branches_excluding(&self, id: &str) -> (r: Vec<String>)
        ensures
            forall|j: int|
                0 <= j < r@.len() ==> other_has_branch(self@, id@, (#[trigger] r@[j])@),
            forall|i: int|
                0 <= i < self@.len() && (#[trigger] self@[i]).0 != id@ ==> crate::git::branch_in_list(
                    r@,
                    self@[i].1,
                ),
    {
        let n = self.entries.len();
        let mut r: Vec<String> = Vec::new();
        let mut i: usize = 0;
        while i < n
            invariant
                n == self.entries@.len(),
                i <= n,
                forall|j: int|
                    0 <= j < r@.len() ==> other_has_branch(self@, id@, (#[trigger] r@[j])@),
                forall|j: int|
                    0 <= j < i && (#[trigger] self@[j]).0 != id@ ==> crate::git::branch_in_list(
                        r@,
                        self@[j].1,
                    ),
            decreases n - i,
        {
            let ghost rprev = r@;
            if !str_eq(self.entries[i].0.as_str(), id) {
                r.push(self.entries[i].1.branch.clone());
                proof {
                    assert(r@[rprev.len() as int]@ == self@[i as int].1);
                    assert(other_has_branch(self@, id@, r@[rprev.len() as int]@));
                    assert forall|j: int|
                        0 <= j < i + 1 && (#[trigger] self@[j]).0 != id@ implies crate::git::branch_in_list(
                        r@,
                        self@[j].1,
                    ) by {
                        if j < i {
                            assert(crate::git::branch_in_list(rprev, self@[j].1));
                            let w = choose|w: int|
                                0 <= w < rprev.len() && (#[trigger] rprev[w])@ == self@[j].1;
                            assert(r@[w]@ == self@[j].1);
                        } else {
                            assert(r@[rprev.len() as int]@ == self@[j].1);
                        }
                    }
                }
            }
            i = i + 1;
        }
        r
    }
}

} // verus!
