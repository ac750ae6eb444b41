//! The lockfile graph as plain values: packages, their dependency edges and the
//! per-side configuration that scopes a walk over them.
use vstd::prelude::*;

verus! {

/// A reference from a package to one it requires, matched by name and version.
#[derive(Debug)]
pub struct Dependency {
    pub name: String,
    pub version: String,
}

/// One resolved package of a lockfile.
#[derive(Debug)]
pub struct Package {
    pub name: String,
    pub version: String,
    /// Content checksum, as text.
    pub checksum: Option<String>,
    /// Precise source identifier (a VCS commit, for instance).
    pub precise: Option<String>,
    pub dependencies: Vec<Dependency>,
}

/// The packages of a lockfile in their stored order.
#[derive(Debug)]
pub struct Lockfile {
    pub packages: Vec<Package>,
}

/// Per-side configuration: where the lockfile came from, the optional root
/// constraints and the names excluded from the universe.
#[derive(Debug)]
pub struct Spec {
    pub src: String,
    pub pkg_name: Option<String>,
    pub pkg_hash: Option<String>,
    pub exclude_pkgs: Vec<String>,
}

/// `name` is one of the excluded names of `spec`.
pub open spec fn excluded(spec: Spec, name: Seq<char>) -> bool {
    exists|i: int| 0 <= i < spec.exclude_pkgs@.len() && (#[trigger] spec.exclude_pkgs@[i])@ == name
}

/// A dependency matches a package of the same name and version.
pub open spec fn dep_matches(d: Dependency, p: Package) -> bool {
    d.name@ == p.name@ && d.version@ == p.version@
}

/// `j` is the first package of the lockfile that `d` matches.
pub open spec fn resolves_to(g: Lockfile, d: Dependency, j: int) -> bool {
    &&& 0 <= j < g.packages@.len()
    &&& dep_matches(d, g.packages@[j])
    &&& forall|k: int| 0 <= k < j ==> !dep_matches(d, #[trigger] g.packages@[k])
}

/// The package at `i` has an edge to the package at `j` that the spec does not
/// exclude.
pub open spec fn edge(g: Lockfile, spec: Spec, i: int, j: int) -> bool {
    &&& 0 <= i < g.packages@.len()
    &&& exists|k: int|
        0 <= k < g.packages@[i].dependencies@.len()
            && !excluded(spec, g.packages@[i].dependencies@[k].name@)
            && #[trigger] resolves_to(g, g.packages@[i].dependencies@[k], j)
}

/// `path` is a non-empty walk along unexcluded edges.
pub open spec fn is_walk(g: Lockfile, spec: Spec, path: Seq<usize>) -> bool {
    &&& path.len() >= 1
    &&& forall|i: int| 0 <= i < path.len() ==> (#[trigger] path[i]) < g.packages@.len()
    &&& forall|i: int| 0 <= i < path.len() - 1 ==> edge(g, spec, #[trigger] path[i] as int, path[i + 1] as int)
}

/// `j` is reachable from `r` along unexcluded edges.
pub open spec fn reachable(g: Lockfile, spec: Spec, r: int, j: int) -> bool {
    exists|path: Seq<usize>| #[trigger] is_walk(g, spec, path) && path[0] == r && path.last() == j
}

/// The package carries `hash` as its checksum or as its precise source.
pub open spec fn hash_matches(p: Package, hash: Seq<char>) -> bool {
    (p.checksum is Some && p.checksum->0@ == hash) || (p.precise is Some && p.precise->0@ == hash)
}

/// The package is not excluded and meets every root constraint that is set.
pub open spec fn root_candidate(spec: Spec, p: Package) -> bool {
    &&& !excluded(spec, p.name@)
    &&& spec.pkg_name is Some ==> p.name@ == spec.pkg_name->0@
    &&& spec.pkg_hash is Some ==> hash_matches(p, spec.pkg_hash->0@)
}

/// `r` is the first root candidate in stored order.
pub open spec fn is_root(g: Lockfile, spec: Spec, r: int) -> bool {
    &&& 0 <= r < g.packages@.len()
    &&& root_candidate(spec, g.packages@[r])
    &&& forall|k: int| 0 <= k < r ==> !root_candidate(spec, #[trigger] g.packages@[k])
}

/// The spec constrains the root by name or by hash.
pub open spec fn rooted(spec: Spec) -> bool {
    spec.pkg_name is Some || spec.pkg_hash is Some
}

/// No two packages of the lockfile share both name and version.
pub open spec fn unique_ids(g: Lockfile) -> bool {
    forall|i: int, j: int|
        0 <= i < g.packages@.len() && 0 <= j < g.packages@.len() && i != j
            ==> !(#[trigger] g.packages@[i].name@ == #[trigger] g.packages@[j].name@
            && g.packages@[i].version@ == g.packages@[j].version@)
}

/// Two packages reachable from `r` share a name but not a version.
pub open spec fn reachable_conflict(g: Lockfile, spec: Spec, r: int) -> bool {
    exists|a: int, b: int|
        #[trigger] reachable(g, spec, r, a) && #[trigger] reachable(g, spec, r, b)
            && g.packages@[a].name@ == g.packages@[b].name@
            && g.packages@[a].version@ != g.packages@[b].version@
}

/// A dependency resolves to one package at most.
pub proof fn lemma_resolves_unique(g: Lockfile, d: Dependency, j1: int, j2: int)
    requires
        resolves_to(g, d, j1),
        resolves_to(g, d, j2),
    ensures
        j1 == j2,
{
    if j1 < j2 {
        assert(!dep_matches(d, g.packages@[j1]));
    } else if j2 < j1 {
        assert(!dep_matches(d, g.packages@[j2]));
    }
}

/// The first root candidate is unique.
pub proof fn lemma_root_unique(g: Lockfile, spec: Spec, r1: int, r2: int)
    requires
        is_root(g, spec, r1),
        is_root(g, spec, r2),
    ensures
        r1 == r2,
{
    if r1 < r2 {
        assert(!root_candidate(spec, g.packages@[r1]));
    } else if r2 < r1 {
        assert(!root_candidate(spec, g.packages@[r2]));
    }
}

/// Whether `name` is one of the excluded names.
pub fn is_excluded(spec: &Spec, name: &String) -> (r: bool)
    ensures
        r == excluded(*spec, name@),
{
    let mut i: usize = 0;
    while i < spec.exclude_pkgs.len()
        invariant
            i <= spec.exclude_pkgs@.len(),
            forall|k: int| 0 <= k < i ==> (#[trigger] spec.exclude_pkgs@[k])@ != name@,
        decreases spec.exclude_pkgs@.len() - i,
    {
        if spec.exclude_pkgs[i] == *name {
            return true;
        }
        i = i + 1;
    }
    false
}

/// Whether the package carries `hash` as its checksum or its precise source.
pub fn package_matches_hash(pkg: &Package, hash: &String) -> (r: bool)
    ensures
        r == hash_matches(*pkg, hash@),
{
    if let Some(cksum) = &pkg.checksum {
        if *cksum == *hash {
            return true;
        }
    }
    if let Some(precise) = &pkg.precise {
        if *precise == *hash {
            return true;
        }
    }
    false
}

/// The index of the first package that `dep` matches, if any.
pub fn resolve_dependency(g: &Lockfile, dep: &Dependency) -> (r: Option<usize>)
    ensures
        match r {
            Some(j) => resolves_to(*g, *dep, j as int),
            None => forall|k: int| 0 <= k < g.packages@.len() ==> !dep_matches(*dep, #[trigger] g.packages@[k]),
        },
{
    let mut i: usize = 0;
    while i < g.packages.len()
        invariant
            i <= g.packages@.len(),
            forall|k: int| 0 <= k < i ==> !dep_matches(*dep, #[trigger] g.packages@[k]),
        decreases g.packages@.len() - i,
    {
        if g.packages[i].name == dep.name && g.packages[i].version == dep.version {
            return Some(i);
        }
        i = i + 1;
    }
    None
}

/// `name@version` of a package.
pub open spec fn package_label(p: Package) -> Seq<char> {
    p.name@ + seq!['@'] + p.version@
}

/// The labels of the packages along `path`, separated by arrows.
pub open spec fn path_text(g: Lockfile, path: Seq<usize>) -> Seq<char>
    decreases path.len(),
{
    if path.len() == 0 {
        Seq::empty()
    } else if path.len() == 1 {
        package_label(g.packages@[path[0] as int])
    } else {
        path_text(g, path.drop_last()) + seq![' ', '-', '>', ' '] + package_label(g.packages@[path.last() as int])
    }
}

/// The packages along `path` as `name@version`, separated by ` -> `.
pub fn path_to_str(g: &Lockfile, path: &Vec<usize>) -> (r: String)
    requires
        forall|i: int| 0 <= i < path@.len() ==> (#[trigger] path@[i]) < g.packages@.len(),
    ensures
        r@ == path_text(*g, path@),
{
    let mut r = String::new();
    let mut i: usize = 0;
    proof {
        reveal_strlit(" -> ");
        reveal_strlit("@");
    }
    while i < path.len()
        invariant
            i <= path@.len(),
            forall|k: int| 0 <= k < path@.len() ==> (#[trigger] path@[k]) < g.packages@.len(),
            r@ == path_text(*g, path@.subrange(0, i as int)),
            " -> "@ == seq![' ', '-', '>', ' '],
            "@"@ == seq!['@'],
        decreases path@.len() - i,
    {
        let p = &g.packages[path[i]];
        if i > 0 {
            r.append(" -> ");
        }
        r.append(p.name.as_str());
        r.append("@");
        r.append(p.version.as_str());
        proof {
            let s = path@.subrange(0, i + 1);
            assert(s.drop_last() =~= path@.subrange(0, i as int));
            assert(s.last() == path@[i as int]);
            if i == 0 {
                assert(r@ =~= package_label(g.packages@[path@[0] as int]));
            } else {
                assert(r@ =~= path_text(*g, s));
            }
        }
        i = i + 1;
    }
    proof {
        assert(path@.subrange(0, i as int) =~= path@);
    }
    r
}

} // verus!
