//! The portal registry and its operations.
//!
//! A registry maps canonical directory paths to the names registered for
//! them. Every entry keeps its names strictly sorted and duplicate-free,
//! and no two entries share a path. Registering merges names into the
//! entry for a path or opens a fresh one; resolving walks the entries for
//! the first that carries a name; removing deletes that whole entry.

use vstd::prelude::*;

use crate::order::lemma_insert_keeps_sorted;
use crate::order::lemma_insert_membership;
use crate::order::lemma_strictly_sorted_unique;
use crate::order::lemma_lex_lt_connected;
use crate::order::lemma_lex_lt_transitive;
use crate::order::lex_lt;
use crate::order::str_eq;
use crate::order::str_lt;
use crate::order::strictly_sorted;

verus! {

/// A directory bookmarked under one or more names. The path is the
/// canonical (absolute, symlink-free) form and acts as the entry's
/// identity.
#[derive(Debug, Clone, PartialEq, Eq)]
pub struct Portal {
    pub path: String,
    pub names: Vec<String>,
}

impl Portal {
    /// The entry keeps its names strictly ascending: sorted, and free of
    /// duplicates.
    pub open spec fn wf(self) -> bool {
        strictly_sorted(self.names.deep_view())
    }

    /// Does the entry carry this name?
    pub open spec fn carries(self, n: Seq<char>) -> bool {
        self.names.deep_view().contains(n)
    }
}

/// Looking a name up, or removing by name, found no portal carrying it.
#[derive(Debug, Clone, Copy, PartialEq, Eq)]
pub struct PortalNotFound;

/// The portal registry: every bookmarked directory with its names.
#[derive(Debug, Clone, PartialEq, Eq)]
pub struct Config {
    pub portals: Vec<Portal>,
}

impl Config {
    /// Every entry is well-formed and no two entries share a path.
    pub open spec fn wf(self) -> bool {
        &&& forall|i: int|
            0 <= i < self.portals@.len() ==> (#[trigger] self.portals@[i]).wf()
        &&& forall|i: int, j: int|
            #![trigger self.portals@[i], self.portals@[j]]
            0 <= i < j < self.portals@.len() ==> self.portals@[i].path@
                != self.portals@[j].path@
    }

    /// Is some entry keyed by this path?
    pub open spec fn has_path(self, p: Seq<char>) -> bool {
        exists|i: int|
            0 <= i < self.portals@.len() && (#[trigger] self.portals@[i]).path@ == p
    }

    /// The position of the entry keyed by `p` (meaningful when `has_path`
    /// holds; unique in a well-formed registry).
    pub open spec fn path_idx(self, p: Seq<char>) -> int {
        choose|i: int|
            0 <= i < self.portals@.len() && (#[trigger] self.portals@[i]).path@ == p
    }

    /// The names stored for a path.
    pub open spec fn names_at(self, p: Seq<char>) -> Seq<Seq<char>> {
        self.portals@[self.path_idx(p)].names.deep_view()
    }

    /// Does any entry carry this name?
    pub open spec fn has_name(self, n: Seq<char>) -> bool {
        exists|i: int|
            0 <= i < self.portals@.len() && (#[trigger] self.portals@[i]).carries(n)
    }

    /// Entry `i` is the first that carries name `n`.
    pub open spec fn is_first_match(self, n: Seq<char>, i: int) -> bool {
        &&& 0 <= i < self.portals@.len()
        &&& self.portals@[i].carries(n)
        &&& forall|j: int| 0 <= j < i ==> !(#[trigger] self.portals@[j]).carries(n)
    }

    /// In a well-formed registry the entry for a path sits at exactly one
    /// position.
    pub proof fn lemma_path_idx_unique(self, p: Seq<char>, i: int)
        requires
            self.wf(),
            0 <= i < self.portals@.len(),
            self.portals@[i].path@ == p,
        ensures
            self.has_path(p),
            self.path_idx(p) == i,
    {
        assert(self.has_path(p));
        let j = self.path_idx(p);
        if j != i {
            assert(self.portals@[i].path@ != self.portals@[j].path@);
        }
    }
}

impl Default for Config {
    /// The empty registry: what the store hands back on first run.
    fn default() -> (c: Config)
        ensures
            c.wf(),
            c.portals@.len() == 0,
    {
        Config { portals: Vec::new() }
    }
}

/// Does this name list contain `name`?
fn contains_name(names: &Vec<String>, name: &str) -> (r: bool)
    ensures
        r == names.deep_view().contains(name@),
{
    let n = names.len();
    let mut i: usize = 0;
    while i < n
        invariant
            i <= n,
            n == names@.len(),
            forall|j: int| 0 <= j < i ==> names.deep_view()[j] != name@,
        decreases n - i,
    {
        if str_eq(names[i].as_str(), name) {
            proof {
                assert(names.deep_view()[i as int] == name@);
                assert(names.deep_view().contains(name@));
            }
            return true;
        }
        i = i + 1;
    }
    proof {
        if names.deep_view().contains(name@) {
            let j = choose|j: int|
                0 <= j < names.deep_view().len() && names.deep_view()[j] == name@;
            assert(false);
        }
    }
    false
}

/// Where `name` belongs in a sorted name list: either the position that
/// already holds it, or the slot to insert it at.
fn find_slot(names: &Vec<String>, name: &str) -> (r: (usize, bool))
    requires
        strictly_sorted(names.deep_view()),
    ensures
        r.0 <= names@.len(),
        r.1 ==> r.0 < names@.len() && names.deep_view()[r.0 as int] == name@,
        !r.1 ==> forall|j: int| 0 <= j < r.0 ==> lex_lt(names.deep_view()[j], name@),
        !r.1 ==> forall|j: int|
            r.0 <= j < names@.len() ==> lex_lt(name@, names.deep_view()[j]),
{
    let n = names.len();
    let mut k: usize = 0;
    while k < n
        invariant
            k <= n,
            n == names@.len(),
            strictly_sorted(names.deep_view()),
            forall|j: int| 0 <= j < k ==> lex_lt(names.deep_view()[j], name@),
        decreases n - k,
    {
        if str_eq(names[k].as_str(), name) {
            proof {
                assert(names.deep_view()[k as int] == name@);
            }
            return (k, true);
        }
        if !str_lt(names[k].as_str(), name) {
            proof {
                assert(names.deep_view()[k as int] == names@[k as int]@);
                lemma_lex_lt_connected(names.deep_view()[k as int], name@);
                assert(lex_lt(name@, names.deep_view()[k as int]));
                assert forall|j: int| k <= j < n implies lex_lt(
                    name@,
                    names.deep_view()[j],
                ) by {
                    if j > k {
                        lemma_lex_lt_transitive(
                            name@,
                            names.deep_view()[k as int],
                            names.deep_view()[j],
                        );
                    }
                }
            }
            return (k, false);
        }
        k = k + 1;
    }
    (n, false)
}

/// Put a name into a sorted name list, unless it is already there.
fn insert_name(names: &mut Vec<String>, name: String)
    requires
        strictly_sorted(old(names).deep_view()),
    ensures
        strictly_sorted(final(names).deep_view()),
        forall|n: Seq<char>|
            final(names).deep_view().contains(n) <==> (old(names).deep_view().contains(n)
                || n == name@),
{
    let ghost dv0 = names.deep_view();
    let (k, present) = find_slot(names, name.as_str());
    if present {
        proof {
            assert(dv0[k as int] == name@);
            assert(dv0.contains(name@));
        }
        return;
    }
    proof {
        lemma_insert_keeps_sorted(dv0, k as int, name@);
        lemma_insert_membership(dv0, k as int, name@);
    }
    names.insert(k, name);
    proof {
        assert forall|i: int| 0 <= i < names.deep_view().len() implies names.deep_view()[i]
            == dv0.insert(k as int, name@)[i] by {
            if i < k {
                assert(names@[i] == old(names)@[i]);
            } else if i > k {
                assert(names@[i] == old(names)@[i - 1]);
            }
        }
        assert(names.deep_view() =~= dv0.insert(k as int, name@));
    }
}

/// Where the entry for `path` sits, if the registry has one.
fn find_path(portals: &Vec<Portal>, path: &str) -> (r: Option<usize>)
    ensures
        r matches Some(i) ==> i < portals@.len() && portals@[i as int].path@ == path@,
        r is None ==> forall|i: int|
            0 <= i < portals@.len() ==> (#[trigger] portals@[i]).path@ != path@,
{
    let n = portals.len();
    let mut i: usize = 0;
    while i < n
        invariant
            i <= n,
            n == portals@.len(),
            forall|j: int| 0 <= j < i ==> (#[trigger] portals@[j]).path@ != path@,
        decreases n - i,
    {
        if str_eq(portals[i].path.as_str(), path) {
            return Some(i);
        }
        i = i + 1;
    }
    None
}

impl Config {
    /// Register `names` for a canonical path: merged into the entry for
    /// that path if one exists, or kept in a fresh entry otherwise. The
    /// stored list comes out sorted and duplicate-free either way.
    ///
    /// The same name may be registered for two different paths: no
    /// conflict is raised, both entries keep it.
    pub fn register(&mut self, path: String, names: Vec<String>)
        requires
            old(self).wf(),
        ensures
            final(self).wf(),
            final(self).has_path(path@),
            forall|n: Seq<char>|
                final(self).names_at(path@).contains(n) <==> ((old(self).has_path(path@)
                    && old(self).names_at(path@).contains(n)) || names.deep_view().contains(
                    n,
                )),
            forall|q: Seq<char>|
                q != path@ ==> (final(self).has_path(q) <==> old(self).has_path(q)),
            forall|q: Seq<char>|
                q != path@ && old(self).has_path(q) ==> final(self).names_at(q) == old(self).names_at(q),
            old(self).has_path(path@) ==> final(self).portals@.len() == old(self).portals@.len(),
            !old(self).has_path(path@) ==> final(self).portals@.len() == old(self).portals@.len() + 1,
            forall|i: int|
                0 <= i < old(self).portals@.len()
                    ==> (#[trigger] final(self).portals@[i]).path@
                    == old(self).portals@[i].path@,
            forall|i: int|
                0 <= i < old(self).portals@.len() && old(self).portals@[i].path@ != path@
                    ==> final(self).portals@[i] == old(self).portals@[i],
    {
        let found = find_path(&self.portals, path.as_str());
        match found {
            Some(i) => {
                proof {
                    old(self).lemma_path_idx_unique(path@, i as int);
                }
                let ghost s0 = self.portals@;
                let m = names.len();
                let mut k: usize = 0;
                proof {
                    assert(names.deep_view().subrange(0, 0) =~= Seq::<Seq<char>>::empty());
                }
                while k < m
                    invariant
                        0 <= i < self.portals@.len(),
                        self.portals@.len() == s0.len(),
                        s0 == old(self).portals@,
                        s0[i as int].path@ == path@,
                        k <= m,
                        m == names@.len(),
                        forall|j: int|
                            0 <= j < s0.len() && j != i as int ==> self.portals@[j] == s0[j],
                        self.portals@[i as int].path == s0[i as int].path,
                        strictly_sorted(self.portals@[i as int].names.deep_view()),
                        forall|n: Seq<char>|
                            self.portals@[i as int].names.deep_view().contains(n) <==> (
                            s0[i as int].names.deep_view().contains(n)
                                || names.deep_view().subrange(0, k as int).contains(n)),
                    decreases m - k,
                {
                    let nm = names[k].clone();
                    proof {
                        assert(nm@ == names.deep_view()[k as int]);
                    }
                    let ghost pre = self.portals@[i as int].names.deep_view();
                    insert_name(&mut self.portals[i].names, nm);
                    proof {
                        let post = self.portals@[i as int].names.deep_view();
                        let dv = names.deep_view();
                        let sub0 = dv.subrange(0, k as int);
                        let sub1 = dv.subrange(0, k as int + 1);
                        let base = s0[i as int].names.deep_view();
                        assert forall|n: Seq<char>| #[trigger] post.contains(n) implies (
                        base.contains(n) || sub1.contains(n)) by {
                            if n == nm@ {
                                assert(sub1[k as int] == n);
                                assert(sub1.contains(n));
                            } else {
                                assert(pre.contains(n));
                                if sub0.contains(n) {
                                    let j = choose|j: int|
                                        0 <= j < sub0.len() && sub0[j] == n;
                                    assert(sub1[j] == n);
                                    assert(sub1.contains(n));
                                }
                            }
                        }
                        assert forall|n: Seq<char>|
                            base.contains(n) || #[trigger] sub1.contains(n) implies
                        post.contains(n) by {
                            if base.contains(n) {
                                assert(pre.contains(n));
                            } else {
                                let j = choose|j: int| 0 <= j < sub1.len() && sub1[j] == n;
                                if j < k {
                                    assert(sub0[j] == n);
                                    assert(sub0.contains(n));
                                    assert(pre.contains(n));
                                } else {
                                    assert(n == nm@);
                                }
                            }
                        }
                    }
                    k = k + 1;
                }
                proof {
                    assert(names.deep_view().subrange(0, m as int) =~= names.deep_view());
                    assert forall|a: int| 0 <= a < self.portals@.len() implies (
                    #[trigger] self.portals@[a]).wf() by {
                        if a != i as int {
                            assert(self.portals@[a] == s0[a]);
                        }
                    }
                    assert forall|a: int, b: int|
                        #![trigger self.portals@[a], self.portals@[b]]
                        0 <= a < b < self.portals@.len() implies self.portals@[a].path@
                        != self.portals@[b].path@ by {
                        assert(self.portals@[a].path == s0[a].path);
                        assert(self.portals@[b].path == s0[b].path);
                        assert(s0[a].path@ != s0[b].path@);
                    }
                    assert(self.wf());
                    self.lemma_path_idx_unique(path@, i as int);
                    assert forall|q: Seq<char>| q != path@ implies (self.has_path(q) <==> old(self).has_path(q)) by {
                        if self.has_path(q) {
                            let j = self.path_idx(q);
                            assert(s0[j].path@ == q);
                            assert(old(self).has_path(q));
                        }
                        if old(self).has_path(q) {
                            let j = old(self).path_idx(q);
                            assert(self.portals@[j].path@ == q);
                            assert(self.has_path(q));
                        }
                    }
                    assert forall|q: Seq<char>| q != path@ && old(self).has_path(q) implies
                        self.names_at(q) == old(self).names_at(q) by {
                        let j = old(self).path_idx(q);
                        assert(old(self).portals@[j].path@ == q);
                        assert(j != i as int);
                        assert(self.portals@[j] == s0[j]);
                        self.lemma_path_idx_unique(q, j);
                    }
                }
            },
            None => {
                proof {
                    if old(self).has_path(path@) {
                        let j = old(self).path_idx(path@);
                        assert(false);
                    }
                    assert(names.deep_view().subrange(0, 0) =~= Seq::<Seq<char>>::empty());
                }
                let mut sorted_names: Vec<String> = Vec::new();
                let m = names.len();
                let mut k: usize = 0;
                while k < m
                    invariant
                        k <= m,
                        m == names@.len(),
                        strictly_sorted(sorted_names.deep_view()),
                        forall|n: Seq<char>|
                            sorted_names.deep_view().contains(n) <==> names.deep_view()
                                .subrange(0, k as int).contains(n),
                    decreases m - k,
                {
                    let nm = names[k].clone();
                    proof {
                        assert(nm@ == names.deep_view()[k as int]);
                    }
                    let ghost pre = sorted_names.deep_view();
                    insert_name(&mut sorted_names, nm);
                    proof {
                        let post = sorted_names.deep_view();
                        let dv = names.deep_view();
                        let sub0 = dv.subrange(0, k as int);
                        let sub1 = dv.subrange(0, k as int + 1);
                        assert forall|n: Seq<char>| #[trigger] post.contains(n) implies
                        sub1.contains(n) by {
                            if n == nm@ {
                                assert(sub1[k as int] == n);
                                assert(sub1.contains(n));
                            } else {
                                assert(pre.contains(n));
                                let j = choose|j: int| 0 <= j < sub0.len() && sub0[j] == n;
                                assert(sub1[j] == n);
                                assert(sub1.contains(n));
                            }
                        }
                        assert forall|n: Seq<char>| #[trigger] sub1.contains(n) implies
                        post.contains(n) by {
                            let j = choose|j: int| 0 <= j < sub1.len() && sub1[j] == n;
                            if j < k {
                                assert(sub0[j] == n);
                                assert(sub0.contains(n));
                                assert(pre.contains(n));
                            } else {
                                assert(n == nm@);
                            }
                        }
                    }
                    k = k + 1;
                }
                let ghost s0 = self.portals@;
                let ghost new_names = sorted_names.deep_view();
                self.portals.push(Portal { path, names: sorted_names });
                proof {
                    assert(names.deep_view().subrange(0, m as int) =~= names.deep_view());
                    let t = self.portals@;
                    assert(t.len() == s0.len() + 1);
                    assert(t[s0.len() as int].path@ == path@);
                    assert(t[s0.len() as int].names.deep_view() == new_names);
                    assert forall|a: int| 0 <= a < t.len() implies (#[trigger] t[a]).wf() by {
                        if a < s0.len() {
                            assert(t[a] == s0[a]);
                        }
                    }
                    assert forall|a: int, b: int|
                        #![trigger t[a], t[b]]
                        0 <= a < b < t.len() implies t[a].path@ != t[b].path@ by {
                        if b < s0.len() {
                            assert(t[a] == s0[a]);
                            assert(t[b] == s0[b]);
                        } else {
                            assert(t[a] == s0[a]);
                            assert(t[b].path@ == path@);
                        }
                    }
                    assert(self.wf());
                    self.lemma_path_idx_unique(path@, s0.len() as int);
                    assert forall|q: Seq<char>| q != path@ implies (self.has_path(q) <==> old(self).has_path(q)) by {
                        if self.has_path(q) {
                            let j = self.path_idx(q);
                            assert(j < s0.len());
                            assert(s0[j].path@ == q);
                            assert(old(self).has_path(q));
                        }
                        if old(self).has_path(q) {
                            let j = old(self).path_idx(q);
                            assert(self.portals@[j].path@ == q);
                            assert(self.has_path(q));
                        }
                    }
                    assert forall|q: Seq<char>| q != path@ && old(self).has_path(q) implies
                        self.names_at(q) == old(self).names_at(q) by {
                        let j = old(self).path_idx(q);
                        assert(old(self).portals@[j].path@ == q);
                        assert(self.portals@[j] == s0[j]);
                        self.lemma_path_idx_unique(q, j);
                    }
                }
            },
        }
    }

    /// Resolve a name to the canonical path of the first entry carrying
    /// it; fail when no entry does. The registry is left untouched.
    pub fn resolve(&self, name: &str) -> (r: Result<String, PortalNotFound>)
        ensures
            r is Ok <==> self.has_name(name@),
            r matches Ok(p) ==> exists|i: int|
                #[trigger] self.is_first_match(name@, i) && p@ == self.portals@[i].path@,
    {
        let n = self.portals.len();
        let mut i: usize = 0;
        while i < n
            invariant
                i <= n,
                n == self.portals@.len(),
                forall|j: int| 0 <= j < i ==> !(#[trigger] self.portals@[j]).carries(name@),
            decreases n - i,
        {
            if contains_name(&self.portals[i].names, name) {
                let p = self.portals[i].path.clone();
                proof {
                    assert(self.is_first_match(name@, i as int));
                    assert(self.has_name(name@));
                }
                return Ok(p);
            }
            i = i + 1;
        }
        proof {
            if self.has_name(name@) {
                let j = choose|j: int|
                    0 <= j < self.portals@.len() && (#[trigger] self.portals@[j]).carries(
                        name@,
                    );
                assert(false);
            }
        }
        Err(PortalNotFound)
    }

    /// Rebuild a registry from persisted entries, re-establishing the
    /// invariants the store cannot promise: entries with the same path
    /// merge, and every name list comes out sorted and duplicate-free.
    pub fn from_portals(entries: Vec<Portal>) -> (c: Config)
        ensures
            c.wf(),
            forall|p: Seq<char>|
                c.has_path(p) <==> exists|j: int|
                    0 <= j < entries@.len() && (#[trigger] entries@[j]).path@ == p,
            forall|p: Seq<char>, n: Seq<char>|
                c.has_path(p) ==> ((#[trigger] c.names_at(p).contains(n)) <==> exists|j: int|
                    0 <= j < entries@.len() && (#[trigger] entries@[j]).path@ == p
                        && entries@[j].carries(n)),
    {
        let ghost all = entries@;
        let mut c = Config { portals: Vec::new() };
        let mut rest = entries;
        proof {
            assert(rest@ =~= all.subrange(all.len() - rest@.len(), all.len() as int));
        }
        while rest.len() > 0
            invariant
                c.wf(),
                rest@.len() <= all.len(),
                rest@ == all.subrange(all.len() - rest@.len(), all.len() as int),
                forall|p: Seq<char>|
                    c.has_path(p) <==> exists|j: int|
                        0 <= j < all.len() - rest@.len() && (#[trigger] all[j]).path@ == p,
                forall|p: Seq<char>, n: Seq<char>|
                    c.has_path(p) ==> ((#[trigger] c.names_at(p).contains(n))
                        <==> exists|j: int|
                        0 <= j < all.len() - rest@.len() && (#[trigger] all[j]).path@ == p
                            && all[j].carries(n)),
            decreases rest@.len(),
        {
            let ghost d = all.len() - rest@.len();
            let ghost cpre = c;
            let e = rest.remove(0);
            proof {
                assert(e == all[d]);
                assert(rest@ =~= all.subrange(all.len() - rest@.len(), all.len() as int));
            }
            c.register(e.path, e.names);
            proof {
                assert forall|p: Seq<char>| c.has_path(p) implies exists|j: int|
                    0 <= j < d + 1 && (#[trigger] all[j]).path@ == p by {
                    if p == e.path@ {
                        assert(all[d].path@ == p);
                    } else {
                        assert(cpre.has_path(p));
                        let j = choose|j: int| 0 <= j < d && (#[trigger] all[j]).path@ == p;
                        assert(all[j].path@ == p);
                    }
                }
                assert forall|p: Seq<char>|
                    (exists|j: int| 0 <= j < d + 1 && (#[trigger] all[j]).path@ == p) implies
                c.has_path(p) by {
                    let j = choose|j: int| 0 <= j < d + 1 && (#[trigger] all[j]).path@ == p;
                    if j == d {
                        assert(c.has_path(e.path@));
                    } else {
                        assert(cpre.has_path(p));
                    }
                }
                assert forall|p: Seq<char>, n: Seq<char>| c.has_path(p) implies ((
                #[trigger] c.names_at(p).contains(n)) <==> exists|j: int|
                    0 <= j < d + 1 && (#[trigger] all[j]).path@ == p && all[j].carries(
                        n,
                    )) by {
                    if p == e.path@ {
                        if c.names_at(p).contains(n) {
                            if cpre.has_path(p) && cpre.names_at(p).contains(n) {
                                let j = choose|j: int|
                                    0 <= j < d && (#[trigger] all[j]).path@ == p
                                        && all[j].carries(n);
                                assert(all[j].path@ == p && all[j].carries(n));
                            } else {
                                assert(e.names.deep_view().contains(n));
                                assert(all[d].path@ == p && all[d].carries(n));
                            }
                        }
                        if exists|j: int|
                            0 <= j < d + 1 && (#[trigger] all[j]).path@ == p && all[j].carries(
                                n,
                            ) {
                            let j = choose|j: int|
                                0 <= j < d + 1 && (#[trigger] all[j]).path@ == p
                                    && all[j].carries(n);
                            if j == d {
                                assert(e.names.deep_view().contains(n));
                            } else {
                                assert(cpre.has_path(p));
                                assert(cpre.names_at(p).contains(n));
                            }
                            assert(c.names_at(p).contains(n));
                        }
                    } else {
                        assert(cpre.has_path(p));
                        assert(c.names_at(p) == cpre.names_at(p));
                        if c.names_at(p).contains(n) {
                            let j = choose|j: int|
                                0 <= j < d && (#[trigger] all[j]).path@ == p && all[j].carries(
                                    n,
                                );
                            assert(all[j].path@ == p && all[j].carries(n));
                        }
                        if exists|j: int|
                            0 <= j < d + 1 && (#[trigger] all[j]).path@ == p && all[j].carries(
                                n,
                            ) {
                            let j = choose|j: int|
                                0 <= j < d + 1 && (#[trigger] all[j]).path@ == p
                                    && all[j].carries(n);
                            assert(j != d);
                            assert(cpre.names_at(p).contains(n));
                        }
                    }
                }
            }
        }
        proof {
            assert(all.subrange(0, all.len() as int) =~= all);
        }
        c
    }

    /// Remove the whole entry of the first portal carrying `name`: the
    /// path and every name it held. Without a match, fail and leave the
    /// registry untouched.
    pub fn remove(&mut self, name: &str) -> (r: Result<(), PortalNotFound>)
        requires
            old(self).wf(),
        ensures
            final(self).wf(),
            r is Ok <==> old(self).has_name(name@),
            old(self).has_name(name@) ==> exists|i: int|
                #[trigger] old(self).is_first_match(name@, i) && final(self).portals@
                    == old(self).portals@.remove(i),
            !old(self).has_name(name@) ==> *final(self) == *old(self),
    {
        let n = self.portals.len();
        let mut i: usize = 0;
        while i < n
            invariant
                old(self).wf(),
                i <= n,
                n == self.portals@.len(),
                *self == *old(self),
                forall|j: int| 0 <= j < i ==> !(#[trigger] self.portals@[j]).carries(name@),
            decreases n - i,
        {
            if contains_name(&self.portals[i].names, name) {
                proof {
                    assert(old(self).is_first_match(name@, i as int));
                    assert(old(self).has_name(name@));
                }
                let ghost s = self.portals@;
                let _entry = self.portals.remove(i);
                proof {
                    let t = s.remove(i as int);
                    assert forall|a: int| 0 <= a < t.len() implies (#[trigger] t[a]).wf() by {
                        if a < i {
                            assert(t[a] == s[a]);
                        } else {
                            assert(t[a] == s[a + 1]);
                        }
                    }
                    assert forall|a: int, b: int|
                        #![trigger t[a], t[b]]
                        0 <= a < b < t.len() implies t[a].path@ != t[b].path@ by {
                        let a0: int = if a < i { a } else { a + 1 };
                        let b0: int = if b < i { b } else { b + 1 };
                        assert(t[a] == s[a0]);
                        assert(t[b] == s[b0]);
                        assert(s[a0].path@ != s[b0].path@);
                    }
                    assert(old(self).is_first_match(name@, i as int) && self.portals@
                        == old(self).portals@.remove(i as int));
                }
                return Ok(());
            }
            i = i + 1;
        }
        proof {
            if old(self).has_name(name@) {
                let j = choose|j: int|
                    0 <= j < self.portals@.len() && (#[trigger] self.portals@[j]).carries(
                        name@,
                    );
                assert(false);
            }
        }
        Err(PortalNotFound)
    }

    /// The stored name list of an entry is canonical: any strictly sorted
    /// list with the same members is that list. Together with `register`'s
    /// contract this pins what registration stores — the sorted,
    /// deduplicated union of the old and the new names, and for a fresh
    /// path exactly the sorted, deduplicated input.
    pub proof fn lemma_stored_names_canonical(self, p: Seq<char>, s: Seq<Seq<char>>)
        requires
            self.wf(),
            self.has_path(p),
            strictly_sorted(s),
            forall|n: Seq<char>| s.contains(n) <==> self.names_at(p).contains(n),
        ensures
            s == self.names_at(p),
    {
        let i = self.path_idx(p);
        assert(0 <= i < self.portals@.len() && self.portals@[i].path@ == p);
        assert(self.portals@[i].wf());
        lemma_strictly_sorted_unique(s, self.names_at(p));
    }

    /// Removing by a name deletes its whole entry: a name the removed
    /// entry carried, and no other entry carries, can no longer be
    /// resolved afterwards.
    pub proof fn lemma_remove_unresolves_entry(
        pre: Config,
        post: Config,
        name: Seq<char>,
        other: Seq<char>,
        i: int,
    )
        requires
            pre.is_first_match(name, i),
            post.portals@ == pre.portals@.remove(i),
            pre.portals@[i].carries(other),
            forall|j: int|
                0 <= j < pre.portals@.len() && j != i ==> !(#[trigger] pre.portals@[j]).carries(
                    other,
                ),
        ensures
            !post.has_name(other),
    {
        if post.has_name(other) {
            let k = choose|k: int|
                0 <= k < post.portals@.len() && (#[trigger] post.portals@[k]).carries(other);
            if k < i {
                assert(post.portals@[k] == pre.portals@[k]);
            } else {
                assert(post.portals@[k] == pre.portals@[k + 1]);
            }
            assert(false);
        }
    }

    /// Persisting and loading round-trips: rebuilding a well-formed
    /// registry from the entries it persisted (what `from_portals` makes
    /// of them, by its contract) yields the same paths, each with the
    /// same name list. The order of entries need not survive; names do.
    pub proof fn lemma_store_round_trip(c: Config, r: Config)
        requires
            c.wf(),
            r.wf(),
            forall|p: Seq<char>|
                r.has_path(p) <==> exists|j: int|
                    0 <= j < c.portals@.len() && (#[trigger] c.portals@[j]).path@ == p,
            forall|p: Seq<char>, n: Seq<char>|
                r.has_path(p) ==> ((#[trigger] r.names_at(p).contains(n)) <==> exists|j: int|
                    0 <= j < c.portals@.len() && (#[trigger] c.portals@[j]).path@ == p
                        && c.portals@[j].carries(n)),
        ensures
            forall|p: Seq<char>| r.has_path(p) <==> c.has_path(p),
            forall|p: Seq<char>| #[trigger] c.has_path(p) ==> r.names_at(p) == c.names_at(p),
    {
        assert forall|p: Seq<char>| #[trigger] c.has_path(p) implies r.names_at(p)
            == c.names_at(p) by {
            let i = c.path_idx(p);
            assert(0 <= i < c.portals@.len() && c.portals@[i].path@ == p);
            assert(r.has_path(p));
            let k = r.path_idx(p);
            assert(0 <= k < r.portals@.len() && r.portals@[k].path@ == p);
            assert(r.portals@[k].wf());
            assert(c.portals@[i].wf());
            assert forall|n: Seq<char>| r.names_at(p).contains(n) <==> c.names_at(p).contains(
                n,
            ) by {
                if r.names_at(p).contains(n) {
                    let j = choose|j: int|
                        0 <= j < c.portals@.len() && (#[trigger] c.portals@[j]).path@ == p
                            && c.portals@[j].carries(n);
                    c.lemma_path_idx_unique(p, j);
                }
                if c.names_at(p).contains(n) {
                    assert(c.portals@[i].path@ == p && c.portals@[i].carries(n));
                }
            }
            lemma_strictly_sorted_unique(r.names_at(p), c.names_at(p));
        }
    }
}

} // verus!
