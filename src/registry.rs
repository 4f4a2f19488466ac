use vstd::prelude::*;

use crate::error::{AppError, DuplicateRemoteError};
use crate::nav::{closed, position_of, TabNav};
use crate::object::S3Config;
use crate::text::same_text;

verus! {

/// `a` comes before `b` in the order of their characters' code points, a
/// proper prefix first: the order in which remotes are listed.
pub open spec fn text_lt(a: Seq<char>, b: Seq<char>) -> bool
    decreases a.len(),
{
    if a.len() == 0 {
        b.len() > 0
    } else if b.len() == 0 {
        false
    } else if a[0] != b[0] {
        (a[0] as int) < (b[0] as int)
    } else {
        text_lt(a.drop_first(), b.drop_first())
    }
}

proof fn lemma_text_lt_irreflexive(a: Seq<char>)
    ensures
        !text_lt(a, a),
    decreases a.len(),
{
    if a.len() > 0 {
        lemma_text_lt_irreflexive(a.drop_first());
    }
}

proof fn lemma_text_lt_total(a: Seq<char>, b: Seq<char>)
    requires
        a != b,
    ensures
        text_lt(a, b) || text_lt(b, a),
    decreases a.len(),
{
    if a.len() > 0 && b.len() > 0 && a[0] == b[0] {
        if a.drop_first() == b.drop_first() {
            assert(a =~= seq![a[0]] + a.drop_first());
            assert(b =~= seq![b[0]] + b.drop_first());
        }
        lemma_text_lt_total(a.drop_first(), b.drop_first());
    } else if a.len() > 0 && b.len() > 0 {
        assert((a[0] as int) != (b[0] as int));
    } else if a.len() == 0 && b.len() == 0 {
        assert(a =~= b);
    }
}

proof fn lemma_text_lt_transitive(a: Seq<char>, b: Seq<char>, c: Seq<char>)
    requires
        text_lt(a, b),
        text_lt(b, c),
    ensures
        text_lt(a, c),
    decreases a.len(),
{
    if a.len() > 0 && b.len() > 0 && c.len() > 0 && a[0] == b[0] && b[0] == c[0] {
        lemma_text_lt_transitive(a.drop_first(), b.drop_first(), c.drop_first());
    }
}

/// Whether `a` comes before `b` (see `text_lt`).
pub fn text_less(a: &str, b: &str) -> (r: bool)
    ensures
        r == text_lt(a@, b@),
{
    let n = a.unicode_len();
    let m = b.unicode_len();
    let mut i: usize = 0;
    assert(a@.subrange(0, n as int) =~= a@);
    assert(b@.subrange(0, m as int) =~= b@);
    while i < n && i < m
        invariant
            n == a@.len(),
            m == b@.len(),
            i <= n,
            i <= m,
            text_lt(a@, b@) == text_lt(a@.subrange(i as int, n as int), b@.subrange(i as int, m as int)),
        decreases n - i,
    {
        let x = a.get_char(i);
        let y = b.get_char(i);
        if x != y {
            return (x as u32) < (y as u32);
        }
        assert(a@.subrange(i as int, n as int).drop_first() =~= a@.subrange(i + 1, n as int));
        assert(b@.subrange(i as int, m as int).drop_first() =~= b@.subrange(i + 1, m as int));
        i = i + 1;
    }
    i == n && i < m
}

/// The names in `s` are in strictly increasing order.
pub open spec fn sorted_names(s: Seq<Seq<char>>) -> bool {
    forall|i: int, j: int| 0 <= i < j < s.len() ==> text_lt(s[i], s[j])
}

/// The names of a sequence of remotes.
pub open spec fn remote_names(s: Seq<(String, S3Config)>) -> Seq<Seq<char>> {
    s.map_values(|e: (String, S3Config)| e.0@)
}

/// `list[j]` is the last entry among the first `upto` of `list` under its name.
pub open spec fn is_last_for_name(list: Seq<(String, S3Config)>, upto: int, j: int) -> bool {
    &&& 0 <= j < upto
    &&& forall|k: int| j < k < upto ==> list[k].0@ != list[j].0@
}

proof fn lemma_insert_contains(s: Seq<(String, S3Config)>, i: int, x: (String, S3Config))
    requires
        0 <= i <= s.len(),
    ensures
        forall|e: (String, S3Config)| #[trigger] s.insert(i, x).contains(e) <==> s.contains(e) || e == x,
{
    let t = s.insert(i, x);
    assert forall|e: (String, S3Config)| #[trigger] t.contains(e) <==> s.contains(e) || e == x by {
        if t.contains(e) {
            let k = choose|k: int| 0 <= k < t.len() && t[k] == e;
            if k < i {
                assert(s[k] == e);
            } else if k > i {
                assert(s[k - 1] == e);
            }
        }
        if s.contains(e) {
            let k = choose|k: int| 0 <= k < s.len() && s[k] == e;
            if k < i {
                assert(t[k] == e);
            } else {
                assert(t[k + 1] == e);
            }
        }
        if e == x {
            assert(t[i] == e);
        }
    }
}

/// The configured remotes, listed by name in increasing order, one per name.
pub struct S3RemoteManager {
    remotes: Vec<(String, S3Config)>,
    had_parse_error: bool,
}

impl S3RemoteManager {
    /// The remotes, by name in increasing order.
    pub closed spec fn entries(&self) -> Seq<(String, S3Config)> {
        self.remotes@
    }

    pub closed spec fn names(&self) -> Seq<Seq<char>> {
        remote_names(self.remotes@)
    }

    /// Loading the stored remotes failed once; they are then never written
    /// back, so that a file that could not be read is not overwritten.
    pub closed spec fn parse_failed(&self) -> bool {
        self.had_parse_error
    }

    pub closed spec fn wf(&self) -> bool {
        sorted_names(self.names())
    }

    /// No remotes.
    pub fn empty() -> (r: Self)
        ensures
            r.wf(),
            r.entries().len() == 0,
            !r.parse_failed(),
    {
        S3RemoteManager { remotes: Vec::new(), had_parse_error: false }
    }

    /// The first position whose name does not come before `name`.
    fn lower_bound(&self, name: &str) -> (r: usize)
        requires
            self.wf(),
        ensures
            r <= self.remotes@.len(),
            forall|j: int| 0 <= j < r ==> text_lt(#[trigger] self.names()[j], name@),
            forall|j: int| r <= j < self.remotes@.len() ==> text_lt(name@, #[trigger] self.names()[j]) || self.names()[j] == name@,
            r < self.remotes@.len() && self.names()[r as int] == name@ <==> self.names().contains(name@),
    {
        let mut i: usize = 0;
        while i < self.remotes.len() && text_less(self.remotes[i].0.as_str(), name)
            invariant
                self.wf(),
                i <= self.remotes@.len(),
                forall|j: int| 0 <= j < i ==> text_lt(#[trigger] self.names()[j], name@),
            decreases self.remotes@.len() - i,
        {
            i = i + 1;
        }
        let ghost names = self.names();
        proof {
            assert forall|j: int| i <= j < self.remotes@.len() implies text_lt(name@, #[trigger] names[j]) || names[j] == name@ by {
                let a = names[i as int];
                if a != name@ {
                    lemma_text_lt_total(a, name@);
                    if j > i {
                        lemma_text_lt_transitive(name@, a, names[j]);
                    }
                } else if j > i {
                    assert(text_lt(names[i as int], names[j]));
                }
            }
            if names.contains(name@) {
                let k = choose|k: int| 0 <= k < names.len() && names[k] == name@;
                lemma_text_lt_irreflexive(name@);
                if k > i {
                    assert(text_lt(names[i as int], names[k]));
                    if names[i as int] != name@ {
                        lemma_text_lt_transitive(name@, names[i as int], name@);
                    }
                }
            }
        }
        i
    }

    /// Replaces the remotes by those loaded from storage; where a name occurs
    /// more than once the last entry counts. When loading failed, the remotes
    /// stay, the error is handed back, and saving is disabled from then on.
    pub fn parse(&mut self, loaded: Result<Vec<(String, S3Config)>, AppError>) -> (r: Result<(), AppError>)
        requires
            old(self).wf(),
        ensures
            final(self).wf(),
            loaded matches Err(e) ==> r == Err::<(), AppError>(e) && final(self).entries() == old(self).entries()
                && final(self).parse_failed(),
            loaded matches Ok(list) ==> r is Ok && final(self).parse_failed() == old(self).parse_failed()
                && forall|e: (String, S3Config)|
                #[trigger] final(self).entries().contains(e) <==> exists|j: int|
                    is_last_for_name(list@, list@.len() as int, j) && list@[j] == e,
    {
        match loaded {
            Err(e) => {
                self.had_parse_error = true;
                Err(e)
            },
            Ok(list) => {
                let ghost orig = list@;
                let mut rest = list;
                self.remotes = Vec::new();
                let ghost mut k: int = 0;
                assert(rest@ =~= orig.subrange(0, orig.len() as int));
                while rest.len() > 0
                    invariant
                        self.wf(),
                        self.had_parse_error == old(self).had_parse_error,
                        0 <= k <= orig.len(),
                        rest@ == orig.subrange(k, orig.len() as int),
                        forall|e: (String, S3Config)|
                            #[trigger] self.entries().contains(e) <==> exists|j: int|
                                is_last_for_name(orig, k, j) && orig[j] == e,
                    decreases rest@.len(),
                {
                    let ghost before = self.entries();
                    let entry = rest.remove(0);
                    let ghost x = entry;
                    assert(x == orig[k]);
                    assert(rest@ =~= orig.subrange(k + 1, orig.len() as int));
                    let (name, config) = entry;
                    assert((name, config) == x);
                    self.upsert(name, config);
                    proof {
                        assert forall|e: (String, S3Config)| #[trigger] self.entries().contains(e) <==> exists|j: int|
                            is_last_for_name(orig, k + 1, j) && orig[j] == e by {
                            if self.entries().contains(e) {
                                if e == x {
                                    assert(is_last_for_name(orig, k + 1, k) && orig[k] == e);
                                } else {
                                    assert(before.contains(e) && e.0@ != x.0@);
                                    let j = choose|j: int| is_last_for_name(orig, k, j) && orig[j] == e;
                                    assert(is_last_for_name(orig, k + 1, j) && orig[j] == e);
                                }
                            }
                            if exists|j: int| is_last_for_name(orig, k + 1, j) && orig[j] == e {
                                let j = choose|j: int| is_last_for_name(orig, k + 1, j) && orig[j] == e;
                                if j < k {
                                    assert(is_last_for_name(orig, k, j));
                                    assert(before.contains(e));
                                    assert(orig[k].0@ != orig[j].0@);
                                    assert(self.entries().contains(e));
                                    assert(orig[k].0@ != orig[j].0@);
                                }
                            }
                        }
                    }
                    proof {
                        k = k + 1;
                    }
                }
                Ok(())
            },
        }
    }

    /// The remotes to write to storage; none once loading has failed.
    pub fn save_remotes(&self) -> (r: Option<&Vec<(String, S3Config)>>)
        ensures
            match r {
                Some(v) => !self.parse_failed() && v@ == self.entries(),
                None => self.parse_failed(),
            },
    {
        if self.had_parse_error {
            None
        } else {
            Some(&self.remotes)
        }
    }

    /// Whether a remote of that name is configured.
    pub fn has_remote(&self, remote_name: &str) -> (r: bool)
        requires
            self.wf(),
        ensures
            r == self.names().contains(remote_name@),
    {
        let i = self.lower_bound(remote_name);
        i < self.remotes.len() && same_text(self.remotes[i].0.as_str(), remote_name)
    }

    /// The configuration of the remote of that name.
    pub fn get(&self, remote_name: &str) -> (r: Option<&S3Config>)
        requires
            self.wf(),
        ensures
            match r {
                Some(c) => exists|i: int| 0 <= i < self.entries().len() && self.entries()[i].0@ == remote_name@ && self.entries()[i].1 == *c,
                None => !self.names().contains(remote_name@),
            },
    {
        let i = self.lower_bound(remote_name);
        if i < self.remotes.len() && same_text(self.remotes[i].0.as_str(), remote_name) {
            let r = &self.remotes[i].1;
            assert(self.entries()[i as int].0@ == remote_name@ && self.entries()[i as int].1 == *r);
            Some(r)
        } else {
            None
        }
    }

    /// The remotes, by name in increasing order.
    pub fn remotes(&self) -> (r: &Vec<(String, S3Config)>)
        ensures
            r@ == self.entries(),
    {
        &self.remotes
    }

    /// Adds a remote; fails, changing nothing, when the name is taken.
    pub fn add_remote(&mut self, remote_name: String, config: S3Config) -> (r: Result<(), DuplicateRemoteError>)
        requires
            old(self).wf(),
        ensures
            final(self).wf(),
            r is Err <==> old(self).names().contains(remote_name@),
            r matches Err(e) ==> e.name@ == remote_name@ && *final(self) == *old(self),
            r is Ok ==> final(self).entries().len() == old(self).entries().len() + 1,
            r is Ok ==> forall|e: (String, S3Config)|
                #[trigger] final(self).entries().contains(e) <==> old(self).entries().contains(e) || e == (
                    remote_name,
                    config,
                ),
            final(self).parse_failed() == old(self).parse_failed(),
    {
        let i = self.lower_bound(remote_name.as_str());
        if i < self.remotes.len() && same_text(self.remotes[i].0.as_str(), remote_name.as_str()) {
            return Err(DuplicateRemoteError { name: remote_name });
        }
        let ghost e0 = (remote_name, config);
        let ghost old_entries = self.remotes@;
        self.insert_at(i, remote_name, config);
        proof {
            lemma_insert_contains(old_entries, i as int, e0);
        }
        Ok(())
    }

    fn insert_at(&mut self, i: usize, remote_name: String, config: S3Config)
        requires
            old(self).wf(),
            i <= old(self).remotes@.len(),
            forall|j: int| 0 <= j < i ==> text_lt(#[trigger] old(self).names()[j], remote_name@),
            forall|j: int| i <= j < old(self).remotes@.len() ==> text_lt(remote_name@, #[trigger] old(self).names()[j]),
        ensures
            final(self).wf(),
            final(self).remotes@ == old(self).remotes@.insert(i as int, (remote_name, config)),
            final(self).had_parse_error == old(self).had_parse_error,
    {
        let ghost e = (remote_name, config);
        let ghost names0 = self.names();
        self.remotes.insert(i, (remote_name, config));
        proof {
            let names = self.names();
            assert(names =~= names0.insert(i as int, remote_name@));
            assert forall|a: int, b: int| 0 <= a < b < names.len() implies text_lt(names[a], names[b]) by {
                if a < i && b < i {
                    assert(text_lt(names0[a], names0[b]));
                } else if a < i && b == i {
                } else if a < i {
                    lemma_text_lt_transitive(names0[a], remote_name@, names0[b - 1]);
                } else if a == i {
                } else {
                    assert(text_lt(names0[a - 1], names0[b - 1]));
                }
            }
        }
    }

    /// Adds or replaces the remote of that name.
    fn upsert(&mut self, remote_name: String, config: S3Config)
        requires
            old(self).wf(),
        ensures
            final(self).wf(),
            forall|e: (String, S3Config)|
                #[trigger] final(self).entries().contains(e) <==> (old(self).entries().contains(e) && e.0@
                    != remote_name@) || e == (remote_name, config),
            final(self).had_parse_error == old(self).had_parse_error,
    {
        let ghost e0 = (remote_name, config);
        let ghost old_entries = self.remotes@;
        let i = self.lower_bound(remote_name.as_str());
        if i < self.remotes.len() && same_text(self.remotes[i].0.as_str(), remote_name.as_str()) {
            self.remotes.set(i, (remote_name, config));
            proof {
                let names0 = remote_names(old_entries);
                assert(remote_names(self.remotes@) =~= names0.update(i as int, e0.0@));
                assert forall|e: (String, S3Config)| #[trigger] self.remotes@.contains(e) <==> (old_entries.contains(e) && e.0@ != e0.0@) || e == e0 by {
                    if self.remotes@.contains(e) {
                        let k = choose|k: int| 0 <= k < self.remotes@.len() && self.remotes@[k] == e;
                        if k != i {
                            assert(old_entries[k] == e);
                            assert(names0[k] != names0[i as int]) by {
                                lemma_text_lt_irreflexive(names0[k]);
                                if k < i { assert(text_lt(names0[k], names0[i as int])); } else { assert(text_lt(names0[i as int], names0[k])); }
                            }
                        }
                    }
                    if old_entries.contains(e) && e.0@ != e0.0@ {
                        let k = choose|k: int| 0 <= k < old_entries.len() && old_entries[k] == e;
                        assert(k != i);
                        assert(self.remotes@[k] == e);
                    }
                    if e == e0 {
                        assert(self.remotes@[i as int] == e);
                    }
                }
            }
        } else {
            self.insert_at(i, remote_name, config);
            proof {
                let names0 = remote_names(old_entries);
                assert forall|e: (String, S3Config)| #[trigger] self.remotes@.contains(e) <==> (old_entries.contains(e) && e.0@ != e0.0@) || e == e0 by {
                    if self.remotes@.contains(e) {
                        let k = choose|k: int| 0 <= k < self.remotes@.len() && self.remotes@[k] == e;
                        if k < i {
                            assert(old_entries[k] == e);
                            assert(names0[k] == e.0@);
                        } else if k > i {
                            assert(old_entries[k - 1] == e);
                            assert(names0[k - 1] == e.0@);
                        }
                    }
                    if old_entries.contains(e) && e.0@ != e0.0@ {
                        let k = choose|k: int| 0 <= k < old_entries.len() && old_entries[k] == e;
                        if k < i {
                            assert(self.remotes@[k] == e);
                        } else {
                            assert(self.remotes@[k + 1] == e);
                        }
                    }
                    if e == e0 {
                        assert(self.remotes@[i as int] == e);
                    }
                    if old_entries.contains(e) {
                        let k = choose|k: int| 0 <= k < old_entries.len() && old_entries[k] == e;
                        assert(names0[k] == e.0@);
                    }
                }
            }
        }
    }

    /// Removes the remote of that name, if there is one.
    pub fn remove_remote(&mut self, remote_name: &str)
        requires
            old(self).wf(),
        ensures
            final(self).wf(),
            forall|e: (String, S3Config)|
                #[trigger] final(self).entries().contains(e) <==> old(self).entries().contains(e) && e.0@
                    != remote_name@,
            !old(self).names().contains(remote_name@) ==> *final(self) == *old(self),
            final(self).parse_failed() == old(self).parse_failed(),
    {
        let ghost old_entries = self.remotes@;
        let i = self.lower_bound(remote_name);
        if i < self.remotes.len() && same_text(self.remotes[i].0.as_str(), remote_name) {
            self.remotes.remove(i);
            proof {
                let names0 = remote_names(old_entries);
                let names = self.names();
                assert(names =~= names0.remove(i as int));
                assert forall|a: int, b: int| 0 <= a < b < names.len() implies text_lt(names[a], names[b]) by {
                    let a0 = if a < i { a } else { a + 1 };
                    let b0 = if b < i { b } else { b + 1 };
                    assert(text_lt(names0[a0], names0[b0]));
                }
                assert forall|e: (String, S3Config)| #[trigger] self.remotes@.contains(e) <==> old_entries.contains(e) && e.0@ != remote_name@ by {
                    if self.remotes@.contains(e) {
                        let k = choose|k: int| 0 <= k < self.remotes@.len() && self.remotes@[k] == e;
                        let k0 = if k < i { k } else { k + 1 };
                        assert(old_entries[k0] == e);
                        assert(names0[k0] != names0[i as int]) by {
                            lemma_text_lt_irreflexive(names0[k0]);
                            if k0 < i { assert(text_lt(names0[k0], names0[i as int])); } else { assert(text_lt(names0[i as int], names0[k0])); }
                        }
                    }
                    if old_entries.contains(e) && e.0@ != remote_name@ {
                        let k = choose|k: int| 0 <= k < old_entries.len() && old_entries[k] == e;
                        assert(names0[k] == e.0@);
                        assert(k != i);
                        let k1 = if k < i { k } else { k - 1 };
                        assert(self.remotes@[k1] == e);
                    }
                }
            }
        } else {
            proof {
                assert forall|e: (String, S3Config)| #[trigger] old_entries.contains(e) implies e.0@ != remote_name@ by {
                    let k = choose|k: int| 0 <= k < old_entries.len() && old_entries[k] == e;
                    assert(remote_names(old_entries)[k] == e.0@);
                }
            }
        }
    }
}

/// Deletes a remote: its tab, if one is open, is closed, then the remote is
/// removed. Afterwards no tab shows it.
pub fn delete_remote<V>(remotes: &mut S3RemoteManager, tabs: &mut TabNav<V>, remote_name: &str)
    requires
        old(remotes).wf(),
        old(tabs).wf(),
    ensures
        final(remotes).wf(),
        final(tabs).wf(),
        forall|e: (String, S3Config)|
            #[trigger] final(remotes).entries().contains(e) <==> old(remotes).entries().contains(e)
                && e.0@ != remote_name@,
        final(remotes).parse_failed() == old(remotes).parse_failed(),
        !final(tabs).ids().contains(remote_name@),
        old(tabs).ids().contains(remote_name@) ==> (final(tabs).ids(), final(tabs).active()) == closed(
            old(tabs).ids(),
            old(tabs).active(),
            position_of(old(tabs).ids(), remote_name@),
        ),
        !old(tabs).ids().contains(remote_name@) ==> *final(tabs) == *old(tabs),
{
    tabs.close_tab_by_remote(remote_name);
    remotes.remove_remote(remote_name);
}

/// Whether `old_remote` is given and reads `name`.
pub open spec fn renames_to_itself(old_remote: Option<&str>, name: Seq<char>) -> bool {
    old_remote matches Some(o) && o@ == name
}

/// Saves a remote from the remote form. When `old_remote` is given, that
/// remote is being edited: its tab, if open, is closed and it is replaced.
/// Fails, changing nothing, when the name is taken by another remote.
pub fn create_remote<V>(
    remotes: &mut S3RemoteManager,
    tabs: &mut TabNav<V>,
    remote_name: String,
    config: S3Config,
    old_remote: Option<&str>,
) -> (r: Result<(), DuplicateRemoteError>)
    requires
        old(remotes).wf(),
        old(tabs).wf(),
    ensures
        final(remotes).wf(),
        final(tabs).wf(),
        r is Err <==> old(remotes).names().contains(remote_name@) && !renames_to_itself(old_remote, remote_name@),
        r matches Err(e) ==> e.name@ == remote_name@ && *final(remotes) == *old(remotes) && *final(tabs) == *old(tabs),
        r is Ok ==> forall|e: (String, S3Config)|
            #[trigger] final(remotes).entries().contains(e) <==> (old(remotes).entries().contains(e) && match old_remote {
                Some(o) => e.0@ != o@,
                None => true,
            }) || e == (remote_name, config),
        r is Ok && old_remote is None ==> *final(tabs) == *old(tabs),
        r is Ok ==> match old_remote {
            Some(o) => !final(tabs).ids().contains(o@),
            None => true,
        },
        final(remotes).parse_failed() == old(remotes).parse_failed(),
{
    let renamed_to_itself = match old_remote {
        Some(o) => same_text(o, remote_name.as_str()),
        None => false,
    };
    if !renamed_to_itself && remotes.has_remote(remote_name.as_str()) {
        return Err(DuplicateRemoteError { name: remote_name });
    }
    let ghost e0 = (remote_name, config);
    let ghost mid: Seq<(String, S3Config)>;
    match old_remote {
        Some(o) => {
            delete_remote(remotes, tabs, o);
        },
        None => {},
    }
    proof {
        mid = remotes.entries();
        if remotes.names().contains(remote_name@) {
            let k = choose|k: int| 0 <= k < remotes.names().len() && remotes.names()[k] == remote_name@;
            assert(mid[k].0@ == remote_name@);
            assert(mid.contains(mid[k]));
            assert(old(remotes).entries().contains(mid[k]));
            let k0 = choose|k0: int| 0 <= k0 < old(remotes).entries().len() && old(remotes).entries()[k0] == mid[k];
            assert(old(remotes).names()[k0] == remote_name@);
        }
    }
    let added = remotes.add_remote(remote_name, config);
    assert(added is Ok);
    Ok(())
}

} // verus!
