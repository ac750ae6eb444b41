//! Builds the universe of one lockfile side: the packages selected by a walk of
//! the dependency graph under a spec and a phase.
use vstd::prelude::*;
use crate::graph::{
    edge, is_excluded, lemma_root_unique, lemma_resolves_unique, is_root, package_matches_hash, resolve_dependency, resolves_to, Dependency, Lockfile, Package, Spec, dep_matches, excluded, is_walk, root_candidate, rooted,
};

verus! {

/// How strictly a universe keeps one package per name.
#[derive(Clone, Copy, Debug, PartialEq, Eq, Structural)]
pub enum Phase {
    /// A name seen again is ignored: the first occurrence wins.
    NameIntersection,
    /// A name seen again with another version is an error.
    NameAndVersionIntersection,
}

/// One binding of a universe: the selected package and the path from the
/// traversal root down to it, as package indices.
#[derive(Debug)]
pub struct Entry {
    pub package: usize,
    pub path: Vec<usize>,
}

/// Why building a universe failed.
#[derive(Debug)]
pub enum BuildError {
    /// No package meets the root constraints.
    RootNotFound { src: String, pkg_name: Option<String>, pkg_hash: Option<String> },
    /// Two versions of one name are reachable in the strict phase.
    VersionConflict {
        src: String,
        name: String,
        existing_version: String,
        new_version: String,
        path: Vec<usize>,
    },
}

/// One side: its spec, its lockfile and the universe built from them.
#[derive(Debug)]
pub struct State {
    pub spec: Spec,
    pub lockfile: Lockfile,
    pub packages: Vec<Entry>,
    pub phase: Phase,
}

/// Two packages of the lockfile, neither excluded, share a name but not a version.
pub open spec fn lockfile_conflict(g: Lockfile, spec: Spec) -> bool {
    exists|a: int, b: int|
        0 <= a < g.packages@.len() && 0 <= b < g.packages@.len()
            && !excluded(spec, g.packages@[a].name@) && !excluded(spec, g.packages@[b].name@)
            && #[trigger] g.packages@[a].name@ == #[trigger] g.packages@[b].name@
            && g.packages@[a].version@ != g.packages@[b].version@
}

/// The names of the unexcluded packages of the lockfile.
pub open spec fn unexcluded_names(g: Lockfile, spec: Spec) -> Set<Seq<char>> {
    Set::new(
        |s: Seq<char>|
            exists|k: int| 0 <= k < g.packages@.len() && !excluded(spec, s) && (#[trigger] g.packages@[k]).name@ == s,
    )
}

/// The bindings of a universe as (package, path) pairs.
pub open spec fn entries_view(u: Seq<Entry>) -> Seq<(usize, Seq<usize>)> {
    u.map_values(|e: Entry| (e.package, e.path@))
}

/// The name of the package of binding `i` of `u`.
pub open spec fn view_name(g: Lockfile, u: Seq<(usize, Seq<usize>)>, i: int) -> Seq<char> {
    g.packages@[u[i].0 as int].name@
}

/// Some binding of `u` has this name.
pub open spec fn view_has_name(g: Lockfile, u: Seq<(usize, Seq<usize>)>, name: Seq<char>) -> bool {
    exists|i: int| 0 <= i < u.len() && #[trigger] view_name(g, u, i) == name
}

/// The walk of the dependencies of `pkg` from its `k`-th on, reached by
/// `path`, starting from the bindings `u`: each unexcluded, resolvable
/// dependency whose name is unbound is bound and walked at once; a bound name
/// with another version is an error in the strict phase, given as the path to
/// the new occurrence and the version already bound. `fuel` bounds the depth.
pub open spec fn walk_model(
    g: Lockfile,
    spec: Spec,
    strict: bool,
    u: Seq<(usize, Seq<usize>)>,
    pkg: int,
    path: Seq<usize>,
    k: int,
    fuel: nat,
) -> Result<Seq<(usize, Seq<usize>)>, (Seq<usize>, Seq<char>)>
    decreases fuel, g.packages@[pkg].dependencies@.len() - k,
{
    if !(0 <= pkg < g.packages@.len()) || k < 0 || k >= g.packages@[pkg].dependencies@.len() {
        Ok(u)
    } else {
        let d = g.packages@[pkg].dependencies@[k];
        if excluded(spec, d.name@) || !(exists|j: int| resolves_to(g, d, j)) {
            walk_model(g, spec, strict, u, pkg, path, k + 1, fuel)
        } else if view_has_name(g, u, d.name@) {
            let i = choose|i: int| 0 <= i < u.len() && #[trigger] view_name(g, u, i) == d.name@;
            if strict && g.packages@[u[i].0 as int].version@ != d.version@ {
                let j = choose|j: int| resolves_to(g, d, j);
                Err((path.push(j as usize), g.packages@[u[i].0 as int].version@))
            } else {
                walk_model(g, spec, strict, u, pkg, path, k + 1, fuel)
            }
        } else if fuel == 0 {
            Ok(u)
        } else {
            let j = choose|j: int| resolves_to(g, d, j);
            let p2 = path.push(j as usize);
            match walk_model(g, spec, strict, u.push((j as usize, p2)), j, p2, 0, (fuel - 1) as nat) {
                Err(c) => Err(c),
                Ok(u2) => walk_model(g, spec, strict, u2, pkg, path, k + 1, fuel),
            }
        }
    }
}

/// Binding the unexcluded packages from the `i`-th on, each under its own
/// name unless bound already; a bound name with another version is an error
/// in the strict phase, given as the package alone and the version already bound.
pub open spec fn all_model(g: Lockfile, spec: Spec, strict: bool, u: Seq<(usize, Seq<usize>)>, i: int) -> Result<Seq<(usize, Seq<usize>)>, (Seq<usize>, Seq<char>)>
    decreases g.packages@.len() - i,
{
    if i < 0 || i >= g.packages@.len() {
        Ok(u)
    } else {
        let name = g.packages@[i].name@;
        if excluded(spec, name) {
            all_model(g, spec, strict, u, i + 1)
        } else if view_has_name(g, u, name) {
            let e = choose|e: int| 0 <= e < u.len() && #[trigger] view_name(g, u, e) == name;
            if strict && g.packages@[u[e].0 as int].version@ != g.packages@[i].version@ {
                Err((seq![i as usize], g.packages@[u[e].0 as int].version@))
            } else {
                all_model(g, spec, strict, u, i + 1)
            }
        } else {
            all_model(g, spec, strict, u.push((i as usize, seq![i as usize])), i + 1)
        }
    }
}

/// The universe that building `spec` over `g` gives: the walk from the first
/// root candidate when the spec constrains a root, every unexcluded package
/// otherwise; an error on a strict conflict, and an empty one on a missing root.
pub open spec fn build_model(g: Lockfile, spec: Spec, strict: bool) -> Result<Seq<(usize, Seq<usize>)>, (Seq<usize>, Seq<char>)> {
    if rooted(spec) {
        tree_model(g, spec, strict)
    } else {
        all_model(g, spec, strict, Seq::empty(), 0)
    }
}

/// The walk from the first root candidate, bound first with itself as its
/// path; an empty error when there is no candidate.
pub open spec fn tree_model(g: Lockfile, spec: Spec, strict: bool) -> Result<Seq<(usize, Seq<usize>)>, (Seq<usize>, Seq<char>)> {
    if exists|r: int| is_root(g, spec, r) {
        let r = choose|r: int| is_root(g, spec, r);
        walk_model(g, spec, strict, seq![(r as usize, seq![r as usize])], r, seq![r as usize], 0, (g.packages@.len() - 1) as nat)
    } else {
        Err((Seq::empty(), Seq::empty()))
    }
}

impl BuildError {
    /// The path and the version already bound of a version conflict; empty
    /// for other errors.
    pub open spec fn conflict(&self) -> (Seq<usize>, Seq<char>) {
        match self {
            BuildError::VersionConflict { path, existing_version, .. } => (path@, existing_version@),
            _ => (Seq::empty(), Seq::empty()),
        }
    }

    /// The path of a version conflict; empty for other errors.
    pub open spec fn conflict_path(&self) -> Seq<usize> {
        match self {
            BuildError::VersionConflict { path, .. } => path@,
            _ => Seq::empty(),
        }
    }
}

impl State {
    /// The walk of `walk_model` from the bindings of `self`.
    pub open spec fn walk_from(&self, pkg: int, path: Seq<usize>, k: int, fuel: nat) -> Result<Seq<(usize, Seq<usize>)>, (Seq<usize>, Seq<char>)> {
        walk_model(self.lockfile, self.spec, self.strict(), entries_view(self.packages@), pkg, path, k, fuel)
    }

    /// The package at index `j` of the lockfile.
    pub open spec fn pkg(&self, j: int) -> Package {
        self.lockfile.packages@[j]
    }

    /// The name of binding `i`.
    pub open spec fn name_of(&self, i: int) -> Seq<char> {
        self.pkg(self.packages@[i].package as int).name@
    }

    /// The version of binding `i`.
    pub open spec fn version_of(&self, i: int) -> Seq<char> {
        self.pkg(self.packages@[i].package as int).version@
    }

    /// The universe is built in the strict phase.
    pub open spec fn strict(&self) -> bool {
        self.phase == Phase::NameAndVersionIntersection
    }

    /// Some binding has this name.
    pub open spec fn has_name(&self, name: Seq<char>) -> bool {
        exists|i: int| 0 <= i < self.packages@.len() && #[trigger] self.name_of(i) == name
    }

    /// Some binding has this name and this version.
    pub open spec fn has_version(&self, name: Seq<char>, version: Seq<char>) -> bool {
        exists|i: int| 0 <= i < self.packages@.len() && #[trigger] self.name_of(i) == name && self.version_of(i) == version
    }

    /// The names bound in the universe.
    pub open spec fn names(&self) -> Set<Seq<char>> {
        Set::new(|s: Seq<char>| self.has_name(s))
    }

    /// Each binding names a package of the lockfile, under a name that is bound
    /// once and not excluded, and its path is a walk that ends at it.
    pub open spec fn wf(&self) -> bool {
        &&& forall|i: int| 0 <= i < self.packages@.len() ==> (#[trigger] self.packages@[i]).package < self.lockfile.packages@.len()
        &&& forall|i: int, j: int|
            0 <= i < self.packages@.len() && 0 <= j < self.packages@.len() && i != j
                ==> #[trigger] self.name_of(i) != #[trigger] self.name_of(j)
        &&& forall|i: int| 0 <= i < self.packages@.len() ==> !excluded(self.spec, #[trigger] self.name_of(i))
        &&& forall|i: int| 0 <= i < self.packages@.len() ==> {
            &&& is_walk(self.lockfile, self.spec, (#[trigger] self.packages@[i]).path@)
            &&& self.packages@[i].path@.last() == self.packages@[i].package
        }
    }

    /// The target of `d` is bound (with its version, in the strict phase),
    /// unless `d` is excluded or matches no package.
    pub open spec fn dep_covered(&self, d: Dependency) -> bool {
        (!excluded(self.spec, d.name@) && exists|k: int| 0 <= k < self.lockfile.packages@.len() && dep_matches(d, #[trigger] self.pkg(k)))
            ==> self.has_name(d.name@) && (self.strict() ==> self.has_version(d.name@, d.version@))
    }

    /// Every dependency of the package at `j` is covered.
    pub open spec fn pkg_covered(&self, j: int) -> bool {
        forall|k: int| 0 <= k < self.pkg(j).dependencies@.len() ==> self.dep_covered(#[trigger] self.pkg(j).dependencies@[k])
    }

    /// Every bound package has all its dependencies covered.
    pub open spec fn closed(&self) -> bool {
        forall|i: int| 0 <= i < self.packages@.len() ==> self.pkg_covered((#[trigger] self.packages@[i]).package as int)
    }

    /// `self` keeps the spec, lockfile and phase of `o` and its bindings as a prefix.
    pub open spec fn extends(&self, o: State) -> bool {
        &&& self.spec == o.spec
        &&& self.lockfile == o.lockfile
        &&& self.phase == o.phase
        &&& o.packages@.len() <= self.packages@.len()
        &&& forall|i: int| 0 <= i < o.packages@.len() ==> #[trigger] self.packages@[i] == o.packages@[i]
    }

    /// The universe is a walk from `r`: it binds `r` first and every path
    /// starts at `r`.
    pub open spec fn rooted_at(&self, r: int) -> bool {
        &&& self.packages@.len() >= 1
        &&& self.packages@[0].package == r
        &&& forall|i: int| 0 <= i < self.packages@.len() ==> (#[trigger] self.packages@[i]).path@[0] == r
    }

    /// The universe binds each unexcluded name of the lockfile to its first
    /// package in stored order, with that package alone as its path.
    pub open spec fn all_of_lockfile(&self) -> bool {
        &&& self.names() == unexcluded_names(self.lockfile, self.spec)
        &&& forall|i: int| 0 <= i < self.packages@.len() ==> (#[trigger] self.packages@[i]).path@ == seq![self.packages@[i].package]
        &&& forall|i: int, k: int|
            0 <= i < self.packages@.len() && 0 <= k < self.packages@[i].package ==> #[trigger] self.pkg(k).name@ != #[trigger] self.name_of(i)
    }

    /// What a failed build reports, given the state it left.
    pub open spec fn error_ok(&self, e: BuildError) -> bool {
        match e {
            BuildError::RootNotFound { src, pkg_name, pkg_hash } => {
                &&& forall|k: int| 0 <= k < self.lockfile.packages@.len() ==> !root_candidate(self.spec, #[trigger] self.pkg(k))
                &&& src@ == self.spec.src@ && pkg_name == self.spec.pkg_name && pkg_hash == self.spec.pkg_hash
            },
            BuildError::VersionConflict { src, name, existing_version, new_version, path } => {
                &&& self.strict()
                &&& src@ == self.spec.src@
                &&& self.has_version(name@, existing_version@)
                &&& existing_version@ != new_version@
                &&& is_walk(self.lockfile, self.spec, path@)
                &&& self.pkg(path@.last() as int).name@ == name@
                &&& self.pkg(path@.last() as int).version@ == new_version@
            },
        }
    }
}

/// Growing a universe keeps every name, version and coverage it had.
pub proof fn lemma_extends_covered(a: State, b: State)
    requires
        b.extends(a),
    ensures
        forall|s: Seq<char>| a.has_name(s) ==> b.has_name(s),
        forall|s: Seq<char>, v: Seq<char>| a.has_version(s, v) ==> b.has_version(s, v),
        forall|d: Dependency| a.dep_covered(d) ==> b.dep_covered(d),
        forall|j: int| a.pkg_covered(j) ==> b.pkg_covered(j),
        forall|i: int| 0 <= i < a.packages@.len() ==> b.name_of(i) == a.name_of(i),
{
    assert forall|s: Seq<char>| a.has_name(s) implies b.has_name(s) by {
        let i = choose|i: int| 0 <= i < a.packages@.len() && #[trigger] a.name_of(i) == s;
        assert(b.packages@[i] == a.packages@[i]);
        assert(b.name_of(i) == s);
    }
    assert forall|s: Seq<char>, v: Seq<char>| a.has_version(s, v) implies b.has_version(s, v) by {
        let i = choose|i: int| 0 <= i < a.packages@.len() && #[trigger] a.name_of(i) == s && a.version_of(i) == v;
        assert(b.packages@[i] == a.packages@[i]);
        assert(b.name_of(i) == s);
    }
    assert forall|d: Dependency| a.dep_covered(d) implies b.dep_covered(d) by {
        if !excluded(b.spec, d.name@) && exists|w: int| 0 <= w < b.lockfile.packages@.len() && dep_matches(d, #[trigger] b.pkg(w)) {
            let w = choose|w: int| 0 <= w < b.lockfile.packages@.len() && dep_matches(d, #[trigger] b.pkg(w));
            assert(a.pkg(w) == b.pkg(w));
        }
        if a.has_name(d.name@) {
            assert(b.has_name(d.name@));
        }
        if a.has_version(d.name@, d.version@) {
            assert(b.has_version(d.name@, d.version@));
        }
    }
    assert forall|j: int| a.pkg_covered(j) implies b.pkg_covered(j) by {
        assert forall|k: int| 0 <= k < b.pkg(j).dependencies@.len() implies b.dep_covered(#[trigger] b.pkg(j).dependencies@[k]) by {
            assert(a.dep_covered(a.pkg(j).dependencies@[k]));
        }
    }
    assert forall|i: int| 0 <= i < a.packages@.len() implies b.name_of(i) == a.name_of(i) by {
        assert(b.packages@[i] == a.packages@[i]);
    }
}

/// `p` is a proper prefix of `q`.
pub open spec fn proper_prefix(p: Seq<usize>, q: Seq<usize>) -> bool {
    p.len() < q.len() && q.subrange(0, p.len() as int) == p
}

proof fn lemma_prefix_trans(p: Seq<usize>, q: Seq<usize>, w: Seq<usize>)
    requires
        proper_prefix(p, q),
        proper_prefix(q, w),
    ensures
        proper_prefix(p, w),
{
    assert(w.subrange(0, p.len() as int) =~= q.subrange(0, p.len() as int));
}

/// Looking a name up in the bindings as pairs agrees with the state.
pub proof fn lemma_view_lookup(s: State, name: Seq<char>)
    requires
        s.wf(),
    ensures
        view_has_name(s.lockfile, entries_view(s.packages@), name) == s.has_name(name),
        s.has_name(name) ==> {
            let u = entries_view(s.packages@);
            let i = choose|i: int| 0 <= i < u.len() && #[trigger] view_name(s.lockfile, u, i) == name;
            &&& 0 <= i < s.packages@.len()
            &&& s.name_of(i) == name
            &&& forall|v: Seq<char>| s.has_version(name, v) <==> s.lockfile.packages@[u[i].0 as int].version@ == v
        },
{
    let u = entries_view(s.packages@);
    assert forall|i: int| 0 <= i < u.len() implies #[trigger] view_name(s.lockfile, u, i) == s.name_of(i) by {}
    if s.has_name(name) {
        let w = choose|w: int| 0 <= w < s.packages@.len() && #[trigger] s.name_of(w) == name;
        assert(view_name(s.lockfile, u, w) == name);
        let i = choose|i: int| 0 <= i < u.len() && #[trigger] view_name(s.lockfile, u, i) == name;
        assert(s.name_of(i) == name);
        assert forall|v: Seq<char>| s.has_version(name, v) <==> s.lockfile.packages@[u[i].0 as int].version@ == v by {
            if s.has_version(name, v) {
                let x = choose|x: int| 0 <= x < s.packages@.len() && #[trigger] s.name_of(x) == name && s.version_of(x) == v;
                assert(x == i);
            }
            if s.lockfile.packages@[u[i].0 as int].version@ == v {
                assert(s.version_of(i) == v);
            }
        }
    }
    if view_has_name(s.lockfile, u, name) {
        let i = choose|i: int| 0 <= i < u.len() && #[trigger] view_name(s.lockfile, u, i) == name;
        assert(s.name_of(i) == name);
    }
}

/// Extension is transitive.
pub proof fn lemma_extends_trans(a: State, b: State, c: State)
    requires
        b.extends(a),
        c.extends(b),
    ensures
        c.extends(a),
{
    assert forall|i: int| 0 <= i < a.packages@.len() implies #[trigger] c.packages@[i] == a.packages@[i] by {
        assert(c.packages@[i] == b.packages@[i]);
    }
}

/// A sequence of distinct indices below `n` has at most `n` elements.
proof fn lemma_distinct_bounded(s: Seq<usize>, n: int)
    requires
        0 <= n,
        forall|i: int| 0 <= i < s.len() ==> (#[trigger] s[i]) < n,
        forall|i: int, j: int| 0 <= i < s.len() && 0 <= j < s.len() && i != j ==> #[trigger] s[i] != #[trigger] s[j],
    ensures
        s.len() <= n,
{
    let t = s.map_values(|x: usize| x as int);
    assert(t.no_duplicates()) by {
        assert forall|i: int, j: int| 0 <= i < t.len() && 0 <= j < t.len() && i != j implies t[i] != t[j] by {
            assert(s[i] != s[j]);
        }
    }
    t.unique_seq_to_set();
    vstd::set_lib::lemma_int_range(0, n);
    assert(t.to_set().subset_of(vstd::set_lib::set_int_range(0, n))) by {
        assert forall|x: int| t.to_set().contains(x) implies vstd::set_lib::set_int_range(0, n).contains(x) by {
            let i = choose|i: int| 0 <= i < t.len() && t[i] == x;
            assert(s[i] < n);
        }
    }
    vstd::set_lib::lemma_len_subset(t.to_set(), vstd::set_lib::set_int_range(0, n));
}

impl State {
    /// A well-formed universe has no more bindings than the lockfile has packages.
    proof fn lemma_size(&self)
        requires
            self.wf(),
        ensures
            self.packages@.len() <= self.lockfile.packages@.len(),
    {
        let s = self.packages@.map_values(|e: Entry| e.package);
        assert forall|i: int, j: int| 0 <= i < s.len() && 0 <= j < s.len() && i != j implies #[trigger] s[i] != #[trigger] s[j] by {
            assert(self.name_of(i) != self.name_of(j));
        }
        assert forall|i: int| 0 <= i < s.len() implies (#[trigger] s[i]) < self.lockfile.packages@.len() by {
            assert(self.packages@[i].package < self.lockfile.packages@.len());
        }
        lemma_distinct_bounded(s, self.lockfile.packages@.len() as int);
    }
}

/// A copy of a path.
pub fn copy_path(v: &Vec<usize>) -> (r: Vec<usize>)
    ensures
        r@ == v@,
{
    let mut r: Vec<usize> = Vec::new();
    let mut i: usize = 0;
    while i < v.len()
        invariant
            i <= v@.len(),
            r@ == v@.subrange(0, i as int),
        decreases v@.len() - i,
    {
        r.push(v[i]);
        i = i + 1;
    }
    assert(r@ =~= v@);
    r
}

/// A copy of an optional string.
fn copy_opt(o: &Option<String>) -> (r: Option<String>)
    ensures
        r == *o,
{
    match o {
        Some(s) => Some(s.clone()),
        None => None,
    }
}

impl State {
    /// An empty universe over `lockfile`, in the lenient phase.
    pub fn new(spec: Spec, lockfile: Lockfile) -> (r: State)
        ensures
            r.spec == spec,
            r.lockfile == lockfile,
            r.packages@.len() == 0,
            r.phase == Phase::NameIntersection,
    {
        State { spec, lockfile, packages: Vec::new(), phase: Phase::NameIntersection }
    }

    /// The index of the binding named like the package at `package`, if any.
    fn find_name(&self, package: usize) -> (r: Option<usize>)
        requires
            self.wf(),
            package < self.lockfile.packages@.len(),
        ensures
            match r {
                Some(i) => i < self.packages@.len() && self.name_of(i as int) == self.pkg(package as int).name@,
                None => !self.has_name(self.pkg(package as int).name@),
            },
    {
        let mut i: usize = 0;
        while i < self.packages.len()
            invariant
                self.wf(),
                package < self.lockfile.packages@.len(),
                i <= self.packages@.len(),
                forall|k: int| 0 <= k < i ==> #[trigger] self.name_of(k) != self.pkg(package as int).name@,
            decreases self.packages@.len() - i,
        {
            let j = self.packages[i].package;
            assert(self.packages@[i as int].package < self.lockfile.packages@.len());
            if self.lockfile.packages[j].name == self.lockfile.packages[package].name {
                return Some(i);
            }
            i = i + 1;
        }
        None
    }

    /// Binds the package at `package` with `path` unless its name is bound
    /// already; `Ok(true)` when the binding is new. In the strict phase a name
    /// bound with another version is an error.
    pub fn try_insert_package(&mut self, package: usize, path: &Vec<usize>) -> (r: Result<bool, BuildError>)
        requires
            old(self).wf(),
            package < old(self).lockfile.packages@.len(),
            !excluded(old(self).spec, old(self).pkg(package as int).name@),
            is_walk(old(self).lockfile, old(self).spec, path@),
            path@.last() == package,
        ensures
            final(self).wf(),
            final(self).extends(*old(self)),
            match r {
                Ok(true) => {
                    &&& !old(self).has_name(old(self).pkg(package as int).name@)
                    &&& final(self).packages@.len() == old(self).packages@.len() + 1
                    &&& final(self).packages@.last().package == package
                    &&& final(self).packages@.last().path@ == path@
                },
                Ok(false) => {
                    &&& old(self).has_name(old(self).pkg(package as int).name@)
                    &&& old(self).strict() ==> old(self).has_version(old(self).pkg(package as int).name@, old(self).pkg(package as int).version@)
                    &&& final(self).packages@ == old(self).packages@
                },
                Err(e) => {
                    &&& old(self).has_name(old(self).pkg(package as int).name@)
                    &&& !old(self).has_version(old(self).pkg(package as int).name@, old(self).pkg(package as int).version@)
                    &&& final(self).packages@ == old(self).packages@
                    &&& final(self).error_ok(e)
                    &&& e is VersionConflict
                    &&& e.conflict_path() == path@
                },
            },
    {
        match self.find_name(package) {
            Some(i) => {
                let existing = self.packages[i].package;
                proof {
                    let name = self.pkg(package as int).name@;
                    let version = self.pkg(package as int).version@;
                    assert(self.has_name(name));
                    assert(self.has_version(name, version) <==> self.version_of(i as int) == version) by {
                        if self.has_version(name, version) {
                            let w = choose|w: int| 0 <= w < self.packages@.len() && #[trigger] self.name_of(w) == name && self.version_of(w) == version;
                            assert(w == i);
                        }
                    }
                }
                if self.phase == Phase::NameAndVersionIntersection
                    && self.lockfile.packages[existing].version != self.lockfile.packages[package].version {
                    let e = BuildError::VersionConflict {
                        src: self.spec.src.clone(),
                        name: self.lockfile.packages[package].name.clone(),
                        existing_version: self.lockfile.packages[existing].version.clone(),
                        new_version: self.lockfile.packages[package].version.clone(),
                        path: copy_path(path),
                    };
                    assert(self.has_version(self.name_of(i as int), self.version_of(i as int)));
                    return Err(e);
                }
                Ok(false)
            },
            None => {
                let entry = Entry { package, path: copy_path(path) };
                let ghost prev = *self;
                self.packages.push(entry);
                proof {
                    let n = self.packages@.len() - 1;
                    assert forall|i: int| 0 <= i < n implies #[trigger] self.name_of(i) == prev.name_of(i) by {
                        assert(self.packages@[i] == prev.packages@[i]);
                    }
                    assert forall|i: int| 0 <= i < n implies self.name_of(i) != self.name_of(n) by {
                        assert(prev.name_of(i) != self.pkg(package as int).name@);
                    }
                }
                Ok(true)
            },
        }
    }
}

impl State {
    /// Walks the dependencies of the package at `package`, which `path` reaches,
    /// binding each unexcluded target and walking on from each new binding.
    fn add_all_dependencies_recursive(&mut self, package: usize, path: &mut Vec<usize>, Ghost(fuel): Ghost<nat>) -> (r: Result<(), BuildError>)
        requires
            old(self).wf(),
            fuel >= old(self).lockfile.packages@.len() - old(self).packages@.len(),
            package < old(self).lockfile.packages@.len(),
            is_walk(old(self).lockfile, old(self).spec, old(path)@),
            old(path)@.last() == package,
        ensures
            final(self).wf(),
            final(self).extends(*old(self)),
            r is Ok ==> final(path)@ == old(path)@,
            forall|i: int| old(self).packages@.len() <= i < final(self).packages@.len()
                ==> (#[trigger] final(self).packages@[i]).path@[0] == old(path)@[0],
            forall|i: int| old(self).packages@.len() <= i < final(self).packages@.len()
                ==> proper_prefix(old(path)@, (#[trigger] final(self).packages@[i]).path@),
            match r {
                Ok(()) => {
                    &&& final(self).pkg_covered(package as int)
                    &&& forall|i: int| old(self).packages@.len() <= i < final(self).packages@.len()
                        ==> final(self).pkg_covered((#[trigger] final(self).packages@[i]).package as int)
                },
                Err(e) => final(self).error_ok(e) && e is VersionConflict && e.conflict_path()[0] == old(path)@[0],
            },
            r is Ok <==> old(self).walk_from(package as int, old(path)@, 0, fuel) is Ok,
            r is Ok ==> entries_view(final(self).packages@) == old(self).walk_from(package as int, old(path)@, 0, fuel)->Ok_0,
            r is Err ==> old(self).walk_from(package as int, old(path)@, 0, fuel) == Err::<Seq<(usize, Seq<usize>)>, (Seq<usize>, Seq<char>)>(r->Err_0.conflict()),
        decreases fuel, 1int,
    {
        proof {
            self.lemma_size();
        }
        let ghost start = *self;
        let ghost start_path = path@;
        let n_deps = self.lockfile.packages[package].dependencies.len();
        let mut k: usize = 0;
        while k < n_deps
            invariant
                self.wf(),
                self.extends(start),
                start == *old(self),
                start_path == old(path)@,
                fuel >= start.lockfile.packages@.len() - start.packages@.len(),
                start.walk_from(package as int, start_path, 0, fuel) == self.walk_from(package as int, start_path, k as int, fuel),
                start.wf(),
                package < self.lockfile.packages@.len(),
                n_deps == self.pkg(package as int).dependencies@.len(),
                k <= n_deps,
                path@ == start_path,
                is_walk(start.lockfile, start.spec, start_path),
                start_path.last() == package,
                start.packages@.len() <= start.lockfile.packages@.len(),
                forall|i: int| start.packages@.len() <= i < self.packages@.len()
                    ==> (#[trigger] self.packages@[i]).path@[0] == start_path[0],
                forall|i: int| start.packages@.len() <= i < self.packages@.len()
                    ==> proper_prefix(start_path, (#[trigger] self.packages@[i]).path@),
                forall|d: int| 0 <= d < k ==> self.dep_covered(#[trigger] self.pkg(package as int).dependencies@[d]),
                forall|i: int| start.packages@.len() <= i < self.packages@.len()
                    ==> self.pkg_covered((#[trigger] self.packages@[i]).package as int),
            decreases n_deps - k,
        {
            let ghost before = *self;
            proof {
                self.lemma_size();
                assert(self.packages@.len() >= start.packages@.len());
            }
            let res = self.add_dependency(package, k, path, Ghost(fuel));
            proof {
                lemma_extends_trans(start, before, *self);
                lemma_extends_covered(before, *self);
            }
            proof {
                assert forall|i: int| start.packages@.len() <= i < self.packages@.len()
                    implies (#[trigger] self.packages@[i]).path@[0] == start_path[0] by {
                    if i < before.packages@.len() {
                        assert(self.packages@[i] == before.packages@[i]);
                    }
                }
                assert forall|i: int| start.packages@.len() <= i < self.packages@.len()
                    implies proper_prefix(start_path, (#[trigger] self.packages@[i]).path@) by {
                    if i < before.packages@.len() {
                        assert(self.packages@[i] == before.packages@[i]);
                    }
                }
            }
            if let Err(e) = res {
                return Err(e);
            }
            proof {
                assert(self.dep_covered(before.pkg(package as int).dependencies@[k as int]));
                assert(before.pkg(package as int) == self.pkg(package as int));
                assert forall|i: int| start.packages@.len() <= i < self.packages@.len()
                    implies self.pkg_covered((#[trigger] self.packages@[i]).package as int) by {
                    if i < before.packages@.len() {
                        assert(self.packages@[i] == before.packages@[i]);
                        assert(before.pkg_covered(before.packages@[i].package as int));
                    }
                }
                assert forall|d: int| 0 <= d < k + 1 implies self.dep_covered(#[trigger] self.pkg(package as int).dependencies@[d]) by {
                    if d < k {
                        let dd = before.pkg(package as int).dependencies@[d];
                        assert(before.dep_covered(dd));
                    } else {
                        assert(before.pkg(package as int) == self.pkg(package as int));
                    }
                }
            }
            k = k + 1;
        }
        assert(self.walk_from(package as int, start_path, k as int, fuel) == Ok::<Seq<(usize, Seq<usize>)>, (Seq<usize>, Seq<char>)>(entries_view(self.packages@)));
        Ok(())
    }

    /// Handles dependency `k` of the package at `package`: binds its target
    /// unless it is excluded or unresolved, and walks on from a new binding.
    fn add_dependency(&mut self, package: usize, k: usize, path: &mut Vec<usize>, Ghost(fuel): Ghost<nat>) -> (r: Result<(), BuildError>)
        requires
            old(self).wf(),
            fuel >= old(self).lockfile.packages@.len() - old(self).packages@.len(),
            package < old(self).lockfile.packages@.len(),
            k < old(self).pkg(package as int).dependencies@.len(),
            is_walk(old(self).lockfile, old(self).spec, old(path)@),
            old(path)@.last() == package,
        ensures
            final(self).wf(),
            final(self).extends(*old(self)),
            r is Ok ==> final(path)@ == old(path)@,
            forall|i: int| old(self).packages@.len() <= i < final(self).packages@.len()
                ==> (#[trigger] final(self).packages@[i]).path@[0] == old(path)@[0],
            forall|i: int| old(self).packages@.len() <= i < final(self).packages@.len()
                ==> proper_prefix(old(path)@, (#[trigger] final(self).packages@[i]).path@),
            match r {
                Ok(()) => {
                    &&& final(self).dep_covered(old(self).pkg(package as int).dependencies@[k as int])
                    &&& forall|i: int| old(self).packages@.len() <= i < final(self).packages@.len()
                        ==> final(self).pkg_covered((#[trigger] final(self).packages@[i]).package as int)
                },
                Err(e) => final(self).error_ok(e) && e is VersionConflict && e.conflict_path()[0] == old(path)@[0],
            },
            r is Ok ==> old(self).walk_from(package as int, old(path)@, k as int, fuel)
                == final(self).walk_from(package as int, old(path)@, k + 1, fuel),
            r is Err ==> old(self).walk_from(package as int, old(path)@, k as int, fuel) == Err::<Seq<(usize, Seq<usize>)>, (Seq<usize>, Seq<char>)>(r->Err_0.conflict()),
        decreases fuel, 0int,
    {
        proof {
            self.lemma_size();
        }
        let ghost start = *self;
        let ghost start_path = path@;
        let ghost d = self.pkg(package as int).dependencies@[k as int];
        if is_excluded(&self.spec, &self.lockfile.packages[package].dependencies[k].name) {
            assert(self.walk_from(package as int, start_path, k as int, fuel) == self.walk_from(package as int, start_path, k + 1, fuel));
            return Ok(());
        }
        let dep_pkg = resolve_dependency(&self.lockfile, &self.lockfile.packages[package].dependencies[k]);
        let j = match dep_pkg {
            Some(j) => j,
            None => {
                proof {
                    assert forall|w: int| 0 <= w < self.lockfile.packages@.len() implies !dep_matches(d, #[trigger] self.pkg(w)) by {
                        assert(!dep_matches(d, self.lockfile.packages@[w]));
                    }
                    assert(!(exists|w: int| resolves_to(self.lockfile, d, w)));
                    assert(self.walk_from(package as int, start_path, k as int, fuel) == self.walk_from(package as int, start_path, k + 1, fuel));
                }
                return Ok(());
            },
        };
        path.push(j);
        proof {
            assert(edge(self.lockfile, self.spec, package as int, j as int)) by {
                assert(resolves_to(self.lockfile, self.pkg(package as int).dependencies@[k as int], j as int));
            }
            let p = path@;
            assert forall|i: int| 0 <= i < p.len() - 1 implies edge(self.lockfile, self.spec, #[trigger] p[i] as int, p[i + 1] as int) by {
                if i < p.len() - 2 {
                    assert(p[i] == start_path[i] && p[i + 1] == start_path[i + 1]);
                }
            }
            assert forall|i: int| 0 <= i < p.len() implies (#[trigger] p[i]) < self.lockfile.packages@.len() by {
                if i < p.len() - 1 {
                    assert(p[i] == start_path[i]);
                }
            }
        }
        let ghost pre = *self;
        proof {
            lemma_view_lookup(pre, d.name@);
            assert(resolves_to(self.lockfile, d, j as int));
            assert(exists|w: int| resolves_to(self.lockfile, d, w));
            assert(!excluded(self.spec, d.name@));
            assert(self.pkg(j as int).name@ == d.name@);
            assert(self.pkg(j as int).version@ == d.version@);
        }
        let inserted = self.try_insert_package(j, path);
        proof {
            lemma_extends_covered(pre, *self);
        }
        match inserted {
            Err(e) => {
                assert(pre.walk_from(package as int, start_path, k as int, fuel) == Err::<Seq<(usize, Seq<usize>)>, (Seq<usize>, Seq<char>)>(e.conflict()));
                return Err(e);
            },
            Ok(false) => {
                path.pop();
                proof {
                    assert(path@ =~= start_path);
                    assert(self.pkg(j as int).name@ == d.name@);
                    assert(self.pkg(j as int).version@ == d.version@);
                    assert(self.has_name(d.name@));
                    assert(self.strict() ==> self.has_version(d.name@, d.version@));
                    assert(self.dep_covered(d));
                    assert(self.packages@ == pre.packages@);
                    assert(pre.walk_from(package as int, start_path, k as int, fuel) == pre.walk_from(package as int, start_path, k + 1, fuel));
                }
                Ok(())
            },
            Ok(true) => {
                let ghost mid = *self;
                proof {
                    mid.lemma_size();
                    let jj = choose|w: int| resolves_to(pre.lockfile, d, w);
                    lemma_resolves_unique(pre.lockfile, d, jj, j as int);
                    let p2 = start_path.push(j);
                    assert(path@ =~= p2);
                    assert(entries_view(mid.packages@) =~= entries_view(pre.packages@).push((j, p2)));
                    assert(fuel >= 1);
                }
                let res = self.add_all_dependencies_recursive(j, path, Ghost((fuel - 1) as nat));
                proof {
                    lemma_extends_covered(mid, *self);
                    lemma_extends_trans(start, mid, *self);
                    let last = mid.packages@.len() - 1;
                    assert(self.packages@[last] == mid.packages@[last]);
                    let p2 = start_path.push(j);
                    assert(proper_prefix(start_path, p2)) by {
                        assert(p2.subrange(0, start_path.len() as int) =~= start_path);
                    }
                    assert forall|i: int| start.packages@.len() <= i < self.packages@.len()
                        implies proper_prefix(start_path, (#[trigger] self.packages@[i]).path@) by {
                        if i == last {
                        } else {
                            lemma_prefix_trans(start_path, p2, self.packages@[i].path@);
                        }
                    }
                }
                match res {
                    Err(e) => Err(e),
                    Ok(()) => {
                        assert(pre.walk_from(package as int, start_path, k as int, fuel) == self.walk_from(package as int, start_path, k + 1, fuel));
                        assert(path@.len() == start_path.len() + 1);
                        path.pop();
                        assert(path@ =~= start_path);
                        proof {
                            let last = mid.packages@.len() - 1;
                            assert(self.name_of(last) == d.name@);
                            assert(self.has_name(d.name@));
                            assert(self.version_of(last) == d.version@);
                            assert(self.has_version(d.name@, d.version@));
                        }
                        Ok(())
                    },
                }
            },
        }
    }
}

impl State {
    /// Binds the first package that meets the root constraints and walks the
    /// dependency tree below it.
    pub fn add_packages_in_dependency_tree(&mut self) -> (r: Result<(), BuildError>)
        requires
            old(self).packages@.len() == 0,
        ensures
            final(self).wf(),
            final(self).spec == old(self).spec,
            final(self).lockfile == old(self).lockfile,
            final(self).phase == old(self).phase,
            (r is Err && r->Err_0 is RootNotFound) <==> forall|k: int|
                0 <= k < old(self).lockfile.packages@.len() ==> !root_candidate(old(self).spec, #[trigger] old(self).lockfile.packages@[k]),
            match r {
                Err(e) => final(self).error_ok(e),
                _ => true,
            },
            r is Ok <==> tree_model(old(self).lockfile, old(self).spec, old(self).strict()) is Ok,
            r is Err && r->Err_0 is RootNotFound ==> final(self).packages@.len() == 0,
            r is Ok ==> entries_view(final(self).packages@) == tree_model(old(self).lockfile, old(self).spec, old(self).strict())->Ok_0,
            r is Err ==> tree_model(old(self).lockfile, old(self).spec, old(self).strict()) == Err::<Seq<(usize, Seq<usize>)>, (Seq<usize>, Seq<char>)>(r->Err_0.conflict()),
            !(r is Err && r->Err_0 is RootNotFound) ==> exists|root: int|
                is_root(final(self).lockfile, final(self).spec, root) && final(self).rooted_at(root)
                    && (r is Ok ==> final(self).closed())
                    && (r is Err ==> r->Err_0.conflict_path()[0] == root),
    {
        let mut i: usize = 0;
        while i < self.lockfile.packages.len()
            invariant
                self.packages@.len() == 0,
                self.spec == old(self).spec,
                self.lockfile == old(self).lockfile,
                self.phase == old(self).phase,
                i <= self.lockfile.packages@.len(),
                forall|k: int| 0 <= k < i ==> !root_candidate(self.spec, #[trigger] self.lockfile.packages@[k]),
            decreases self.lockfile.packages@.len() - i,
        {
            let candidate = if is_excluded(&self.spec, &self.lockfile.packages[i].name) {
                false
            } else {
                let name_ok = match &self.spec.pkg_name {
                    Some(name) => self.lockfile.packages[i].name == *name,
                    None => true,
                };
                name_ok && match &self.spec.pkg_hash {
                    Some(hash) => package_matches_hash(&self.lockfile.packages[i], hash),
                    None => true,
                }
            };
            if candidate {
                assert(root_candidate(self.spec, self.lockfile.packages@[i as int]));
                let mut path: Vec<usize> = Vec::new();
                path.push(i);
                self.packages.push(Entry { package: i, path: copy_path(&path) });
                proof {
                    assert(is_walk(self.lockfile, self.spec, path@));
                    assert(self.name_of(0) == self.lockfile.packages@[i as int].name@);
                }
                let ghost seeded = *self;
                proof {
                    self.lemma_size();
                    assert(path@ =~= seq![i]);
                }
                let res = self.add_all_dependencies_recursive(i, &mut path, Ghost((self.lockfile.packages@.len() - 1) as nat));
                proof {
                    assert(self.packages@[0] == seeded.packages@[0]);
                    assert(is_root(self.lockfile, self.spec, i as int));
                    if res is Ok {
                        assert forall|e: int| 0 <= e < self.packages@.len()
                            implies self.pkg_covered((#[trigger] self.packages@[e]).package as int) by {
                            if e == 0 {
                                assert(self.packages@[0].package == i);
                            }
                        }
                    }
                    assert(self.rooted_at(i as int));
                    let rr = choose|r: int| is_root(self.lockfile, self.spec, r);
                    lemma_root_unique(self.lockfile, self.spec, rr, i as int);
                    assert(entries_view(seeded.packages@) =~= seq![(i, seq![i])]);
                }
                return res;
            }
            i = i + 1;
        }
        Err(BuildError::RootNotFound {
            src: self.spec.src.clone(),
            pkg_name: copy_opt(&self.spec.pkg_name),
            pkg_hash: copy_opt(&self.spec.pkg_hash),
        })
    }

    /// Binds every unexcluded package of the lockfile in stored order, each
    /// with itself as its path.
    pub fn add_all_packages_in_lockfile(&mut self) -> (r: Result<(), BuildError>)
        requires
            old(self).packages@.len() == 0,
        ensures
            final(self).wf(),
            final(self).spec == old(self).spec,
            final(self).lockfile == old(self).lockfile,
            final(self).phase == old(self).phase,
            r is Ok <==> !(old(self).strict() && lockfile_conflict(old(self).lockfile, old(self).spec)),
            r is Ok <==> all_model(old(self).lockfile, old(self).spec, old(self).strict(), Seq::empty(), 0) is Ok,
            r is Ok ==> entries_view(final(self).packages@) == all_model(old(self).lockfile, old(self).spec, old(self).strict(), Seq::empty(), 0)->Ok_0,
            r is Err ==> all_model(old(self).lockfile, old(self).spec, old(self).strict(), Seq::empty(), 0) == Err::<Seq<(usize, Seq<usize>)>, (Seq<usize>, Seq<char>)>(r->Err_0.conflict()),
            match r {
                Ok(()) => final(self).all_of_lockfile(),
                Err(e) => final(self).error_ok(e) && e is VersionConflict,
            },
    {
        let ghost start = *self;
        let mut i: usize = 0;
        assert(entries_view(self.packages@) =~= Seq::empty());
        while i < self.lockfile.packages.len()
            invariant
                self.wf(),
                self.extends(start),
                start == *old(self),
                start.packages@.len() == 0,
                i <= self.lockfile.packages@.len(),
                forall|k: int| 0 <= k < i && !excluded(self.spec, self.pkg(k).name@) ==> {
                    &&& self.has_name(#[trigger] self.pkg(k).name@)
                    &&& self.strict() ==> self.has_version(self.pkg(k).name@, self.pkg(k).version@)
                },
                forall|e: int| 0 <= e < self.packages@.len() ==> {
                    &&& (#[trigger] self.packages@[e]).package < i
                    &&& self.packages@[e].path@ == seq![self.packages@[e].package]
                },
                forall|e: int, k: int|
                    0 <= e < self.packages@.len() && 0 <= k < self.packages@[e].package ==> #[trigger] self.pkg(k).name@ != #[trigger] self.name_of(e),
                all_model(start.lockfile, start.spec, start.strict(), Seq::empty(), 0)
                    == all_model(self.lockfile, self.spec, self.strict(), entries_view(self.packages@), i as int),
            decreases self.lockfile.packages@.len() - i,
        {
            let ghost before = *self;
            if !is_excluded(&self.spec, &self.lockfile.packages[i].name) {
                let mut path: Vec<usize> = Vec::new();
                path.push(i);
                proof {
                    lemma_view_lookup(before, before.pkg(i as int).name@);
                }
                let res = self.try_insert_package(i, &path);
                proof {
                    lemma_extends_covered(before, *self);
                    lemma_extends_trans(start, before, *self);
                }
                match res {
                    Err(e) => {
                        proof {
                            assert(path@ =~= seq![i]);
                            assert(all_model(before.lockfile, before.spec, before.strict(), entries_view(before.packages@), i as int) == Err::<Seq<(usize, Seq<usize>)>, (Seq<usize>, Seq<char>)>(e.conflict()));
                            let name = self.pkg(i as int).name@;
                            let w = choose|w: int| 0 <= w < before.packages@.len() && #[trigger] before.name_of(w) == name;
                            let a = before.packages@[w].package as int;
                            assert(before.pkg(a).version@ != self.pkg(i as int).version@) by {
                                if before.pkg(a).version@ == self.pkg(i as int).version@ {
                                    assert(before.version_of(w) == self.pkg(i as int).version@);
                                }
                            }
                            assert(!excluded(self.spec, before.name_of(w)));
                            assert(lockfile_conflict(self.lockfile, self.spec)) by {
                                assert(self.lockfile.packages@[a].name@ == self.lockfile.packages@[i as int].name@);
                            }
                        }
                        return Err(e);
                    },
                    Ok(_) => {
                        proof {
                            let n = self.packages@.len();
                            assert forall|e: int| 0 <= e < n implies {
                                &&& (#[trigger] self.packages@[e]).package < i + 1
                                &&& self.packages@[e].path@ == seq![self.packages@[e].package]
                            } by {
                                if e < before.packages@.len() {
                                    assert(self.packages@[e] == before.packages@[e]);
                                } else {
                                    assert(path@ =~= seq![i]);
                                }
                            }
                            assert forall|e: int, k: int|
                                0 <= e < n && 0 <= k < self.packages@[e].package implies #[trigger] self.pkg(k).name@ != #[trigger] self.name_of(e) by {
                                if e < before.packages@.len() {
                                    assert(self.packages@[e] == before.packages@[e]);
                                    assert(before.pkg(k).name@ != before.name_of(e));
                                } else {
                                    if self.pkg(k).name@ == self.name_of(e) {
                                        assert(!excluded(self.spec, self.pkg(k).name@));
                                        assert(before.has_name(before.pkg(k).name@));
                                    }
                                }
                            }
                            let name = self.pkg(i as int).name@;
                            if before.packages@.len() < n {
                                assert(path@ =~= seq![i]);
                                assert(entries_view(self.packages@) =~= entries_view(before.packages@).push((i, seq![i])));
                                assert(self.name_of(n - 1) == name);
                                assert(self.has_name(name));
                                assert(self.has_version(name, self.pkg(i as int).version@));
                            }
                            assert(all_model(before.lockfile, before.spec, before.strict(), entries_view(before.packages@), i as int)
                                == all_model(self.lockfile, self.spec, self.strict(), entries_view(self.packages@), i + 1));
                            assert forall|k: int| 0 <= k < i + 1 && !excluded(self.spec, self.pkg(k).name@) implies {
                                &&& self.has_name(#[trigger] self.pkg(k).name@)
                                &&& self.strict() ==> self.has_version(self.pkg(k).name@, self.pkg(k).version@)
                            } by {
                                if k < i {
                                    assert(before.has_name(before.pkg(k).name@));
                                }
                            }
                        }
                    },
                }
            }
            proof {
                if excluded(self.spec, self.pkg(i as int).name@) {
                    assert(all_model(before.lockfile, before.spec, before.strict(), entries_view(before.packages@), i as int)
                        == all_model(self.lockfile, self.spec, self.strict(), entries_view(self.packages@), i + 1));
                }
            }
            i = i + 1;
        }
        proof {
            assert forall|s: Seq<char>| self.names().contains(s) <==> unexcluded_names(self.lockfile, self.spec).contains(s) by {
                if self.has_name(s) {
                    let w = choose|w: int| 0 <= w < self.packages@.len() && #[trigger] self.name_of(w) == s;
                    assert(self.lockfile.packages@[self.packages@[w].package as int].name@ == s);
                }
                if unexcluded_names(self.lockfile, self.spec).contains(s) {
                    let k = choose|k: int| 0 <= k < self.lockfile.packages@.len() && !excluded(self.spec, s) && (#[trigger] self.lockfile.packages@[k]).name@ == s;
                    assert(self.has_name(self.pkg(k).name@));
                }
            }
            assert(self.names() =~= unexcluded_names(self.lockfile, self.spec));
            if self.strict() && lockfile_conflict(self.lockfile, self.spec) {
                let (a, b) = choose|a: int, b: int|
                    0 <= a < self.lockfile.packages@.len() && 0 <= b < self.lockfile.packages@.len()
                        && !excluded(self.spec, self.lockfile.packages@[a].name@) && !excluded(self.spec, self.lockfile.packages@[b].name@)
                        && #[trigger] self.lockfile.packages@[a].name@ == #[trigger] self.lockfile.packages@[b].name@
                        && self.lockfile.packages@[a].version@ != self.lockfile.packages@[b].version@;
                assert(self.has_version(self.pkg(a).name@, self.pkg(a).version@));
                assert(self.has_version(self.pkg(b).name@, self.pkg(b).version@));
                let wa = choose|w: int| 0 <= w < self.packages@.len() && #[trigger] self.name_of(w) == self.pkg(a).name@ && self.version_of(w) == self.pkg(a).version@;
                let wb = choose|w: int| 0 <= w < self.packages@.len() && #[trigger] self.name_of(w) == self.pkg(b).name@ && self.version_of(w) == self.pkg(b).version@;
                assert(wa == wb);
            }
        }
        Ok(())
    }

    /// Builds the universe: the dependency tree of the root when the spec
    /// constrains one, every unexcluded package otherwise.
    pub fn add_packages(&mut self) -> (r: Result<(), BuildError>)
        requires
            old(self).packages@.len() == 0,
        ensures
            final(self).built(*old(self), r),
    {
        if self.spec.pkg_name.is_some() || self.spec.pkg_hash.is_some() {
            self.add_packages_in_dependency_tree()
        } else {
            self.add_all_packages_in_lockfile()
        }
    }

    /// What building `o` into `self` with result `r` guarantees.
    pub open spec fn built(&self, o: State, r: Result<(), BuildError>) -> bool {
        self.built_from(o.spec, o.lockfile, o.phase, r)
    }

    /// What building `spec` over `lockfile` in `phase` into `self` with
    /// result `r` guarantees.
    pub open spec fn built_from(&self, spec: Spec, lockfile: Lockfile, phase: Phase, r: Result<(), BuildError>) -> bool {
        &&& self.wf()
        &&& self.spec == spec
        &&& self.lockfile == lockfile
        &&& self.phase == phase
        &&& if rooted(spec) {
            &&& (r is Err && r->Err_0 is RootNotFound) <==> forall|k: int|
                0 <= k < lockfile.packages@.len() ==> !root_candidate(spec, #[trigger] lockfile.packages@[k])
            &&& !(r is Err && r->Err_0 is RootNotFound) ==> exists|root: int|
                is_root(self.lockfile, self.spec, root) && self.rooted_at(root)
                    && (r is Ok ==> self.closed())
                    && (r is Err ==> r->Err_0.conflict_path()[0] == root)
        } else {
            &&& r is Ok <==> !(phase == Phase::NameAndVersionIntersection && lockfile_conflict(lockfile, spec))
            &&& r is Ok ==> self.all_of_lockfile()
        }
        &&& r is Err ==> self.error_ok(r->Err_0)
        &&& r is Err && r->Err_0 is RootNotFound ==> self.packages@.len() == 0
        &&& r is Ok <==> build_model(lockfile, spec, phase == Phase::NameAndVersionIntersection) is Ok
        &&& r is Ok ==> entries_view(self.packages@) == build_model(lockfile, spec, phase == Phase::NameAndVersionIntersection)->Ok_0
        &&& r is Err ==> build_model(lockfile, spec, phase == Phase::NameAndVersionIntersection) == Err::<Seq<(usize, Seq<usize>)>, (Seq<usize>, Seq<char>)>(r->Err_0.conflict())
    }
}

} // verus!
