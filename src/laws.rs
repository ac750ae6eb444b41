//! Properties of universe building that relate several builds or quantify over
//! every reachable package.
use vstd::prelude::*;
use crate::graph::{
    Lockfile, excluded, is_root, is_walk, lemma_root_unique, reachable, reachable_conflict, resolves_to, rooted,
    unique_ids,
};
use crate::universe::{entries_view, lockfile_conflict, unexcluded_names, BuildError, State};
use crate::compare::{common_names, two_passes, Outcome};

verus! {

impl State {
    /// Some binding selects the package at `j`.
    pub open spec fn binds(&self, j: int) -> bool {
        exists|i: int| 0 <= i < self.packages@.len() && (#[trigger] self.packages@[i]).package == j
    }
}

/// In a walk rooted at a closed strict universe's root, every package on the
/// walk is bound.
proof fn lemma_walk_bound(s: State, root: int, p: Seq<usize>, m: int)
    requires
        s.wf(),
        s.strict(),
        s.closed(),
        s.rooted_at(root),
        unique_ids(s.lockfile),
        is_walk(s.lockfile, s.spec, p),
        p[0] == root,
        0 <= m < p.len(),
    ensures
        s.binds(p[m] as int),
    decreases m,
{
    if m == 0 {
        assert(s.packages@[0].package == root);
    } else {
        lemma_walk_bound(s, root, p, m - 1);
        let a = p[m - 1] as int;
        let b = p[m] as int;
        assert(crate::graph::edge(s.lockfile, s.spec, a, b));
        let k = choose|k: int|
            0 <= k < s.lockfile.packages@[a].dependencies@.len()
                && !excluded(s.spec, s.lockfile.packages@[a].dependencies@[k].name@)
                && #[trigger] resolves_to(s.lockfile, s.lockfile.packages@[a].dependencies@[k], b);
        let e = choose|i: int| 0 <= i < s.packages@.len() && (#[trigger] s.packages@[i]).package == a;
        assert(s.pkg_covered(s.packages@[e].package as int));
        let d = s.pkg(a).dependencies@[k];
        assert(s.dep_covered(d));
        assert(crate::graph::dep_matches(d, s.pkg(b)));
        assert(s.has_version(d.name@, d.version@));
        let w = choose|w: int| 0 <= w < s.packages@.len() && #[trigger] s.name_of(w) == d.name@ && s.version_of(w) == d.version@;
        let c = s.packages@[w].package as int;
        if c != b {
            assert(s.lockfile.packages@[c].name@ == s.lockfile.packages@[b].name@);
        }
        assert(s.packages@[w].package == b);
    }
}

/// Every bound package of a universe rooted at `root` is reachable from it.
proof fn lemma_bound_reachable(s: State, root: int, j: int)
    requires
        s.wf(),
        s.rooted_at(root),
        s.binds(j),
    ensures
        reachable(s.lockfile, s.spec, root, j),
{
    let i = choose|i: int| 0 <= i < s.packages@.len() && (#[trigger] s.packages@[i]).package == j;
    let p = s.packages@[i].path@;
    assert(is_walk(s.lockfile, s.spec, p) && p[0] == root && p.last() == j);
}

/// Root scoping: a strict build from a root that succeeds binds exactly the
/// packages reachable from the root along edges into unexcluded names.
pub proof fn lemma_root_scoping(s0: State, s: State, r: Result<(), BuildError>, root: int)
    requires
        s.built(s0, r),
        rooted(s0.spec),
        s0.strict(),
        unique_ids(s0.lockfile),
        is_root(s0.lockfile, s0.spec, root),
        r is Ok,
    ensures
        forall|j: int| 0 <= j < s.lockfile.packages@.len() ==> (s.binds(j) <==> reachable(s.lockfile, s.spec, root, j)),
{
    let root2 = choose|root2: int| is_root(s.lockfile, s.spec, root2) && s.rooted_at(root2) && (r is Ok ==> s.closed())
        && (r is Err ==> r->Err_0.conflict_path()[0] == root2);
    lemma_root_unique(s.lockfile, s.spec, root, root2);
    assert forall|j: int| 0 <= j < s.lockfile.packages@.len() implies (s.binds(j) <==> reachable(s.lockfile, s.spec, root, j)) by {
        if s.binds(j) {
            lemma_bound_reachable(s, root, j);
        }
        if reachable(s.lockfile, s.spec, root, j) {
            let p = choose|p: Seq<usize>| #[trigger] is_walk(s.lockfile, s.spec, p) && p[0] == root && p.last() == j;
            lemma_walk_bound(s, root, p, p.len() - 1);
        }
    }
}

/// Exclusion: no excluded name is ever bound, and every package bound under a
/// root is reachable from it along edges that avoid excluded names.
pub proof fn lemma_exclusion(s0: State, s: State, r: Result<(), BuildError>)
    requires
        s.built(s0, r),
    ensures
        forall|name: Seq<char>| excluded(s0.spec, name) ==> !s.has_name(name),
        rooted(s0.spec) && !(r is Err && r->Err_0 is RootNotFound) ==> exists|root: int|
            is_root(s.lockfile, s.spec, root) && forall|j: int| s.binds(j) ==> reachable(s.lockfile, s.spec, root, j),
{
    assert forall|name: Seq<char>| excluded(s0.spec, name) implies !s.has_name(name) by {
        if s.has_name(name) {
            let i = choose|i: int| 0 <= i < s.packages@.len() && #[trigger] s.name_of(i) == name;
            assert(!excluded(s.spec, s.name_of(i)));
        }
    }
    if rooted(s0.spec) && !(r is Err && r->Err_0 is RootNotFound) {
        let root = choose|root: int| is_root(s.lockfile, s.spec, root) && s.rooted_at(root) && (r is Ok ==> s.closed())
            && (r is Err ==> r->Err_0.conflict_path()[0] == root);
        assert forall|j: int| s.binds(j) implies reachable(s.lockfile, s.spec, root, j) by {
            lemma_bound_reachable(s, root, j);
        }
    }
}

/// The strict phase never picks one of two versions: a strict build succeeds
/// exactly when no two packages in its scope share a name with different
/// versions, and a success binds each name once.
pub proof fn lemma_strict_conflicts(s0: State, s: State, r: Result<(), BuildError>)
    requires
        s.built(s0, r),
        s0.strict(),
        unique_ids(s0.lockfile),
    ensures
        forall|i: int, j: int| 0 <= i < s.packages@.len() && 0 <= j < s.packages@.len() && i != j ==> #[trigger] s.name_of(i) != #[trigger] s.name_of(j),
        !rooted(s0.spec) ==> (r is Ok <==> !lockfile_conflict(s0.lockfile, s0.spec)),
        forall|root: int| rooted(s0.spec) && #[trigger] is_root(s0.lockfile, s0.spec, root)
            ==> (r is Ok <==> !reachable_conflict(s0.lockfile, s0.spec, root)),
{
    assert forall|root: int| rooted(s0.spec) && #[trigger] is_root(s0.lockfile, s0.spec, root)
        implies (r is Ok <==> !reachable_conflict(s0.lockfile, s0.spec, root)) by {
        assert(root_candidate_at(s0, root));
        let root2 = choose|root2: int| is_root(s.lockfile, s.spec, root2) && s.rooted_at(root2) && (r is Ok ==> s.closed())
            && (r is Err ==> r->Err_0.conflict_path()[0] == root2);
        lemma_root_unique(s.lockfile, s.spec, root, root2);
        let g = s.lockfile;
        if r is Ok {
            lemma_root_scoping(s0, s, r, root);
            if reachable_conflict(g, s.spec, root) {
                let (a, b) = choose|a: int, b: int|
                    #[trigger] reachable(g, s.spec, root, a) && #[trigger] reachable(g, s.spec, root, b)
                        && g.packages@[a].name@ == g.packages@[b].name@
                        && g.packages@[a].version@ != g.packages@[b].version@;
                let pa = choose|p: Seq<usize>| #[trigger] is_walk(g, s.spec, p) && p[0] == root && p.last() == a;
                let pb = choose|p: Seq<usize>| #[trigger] is_walk(g, s.spec, p) && p[0] == root && p.last() == b;
                assert(pa[pa.len() - 1] < g.packages@.len());
                assert(pb[pb.len() - 1] < g.packages@.len());
                assert(s.binds(a) && s.binds(b));
                let ea = choose|i: int| 0 <= i < s.packages@.len() && (#[trigger] s.packages@[i]).package == a;
                let eb = choose|i: int| 0 <= i < s.packages@.len() && (#[trigger] s.packages@[i]).package == b;
                assert(s.name_of(ea) == s.name_of(eb));
            }
        } else {
            let e = r->Err_0;
            match e {
                BuildError::VersionConflict { src, name, existing_version, new_version, path } => {
                    let w = choose|w: int| 0 <= w < s.packages@.len() && #[trigger] s.name_of(w) == name@ && s.version_of(w) == existing_version@;
                    let a = s.packages@[w].package as int;
                    lemma_bound_reachable(s, root, a);
                    let b = path@.last() as int;
                    assert(path@[path@.len() - 1] < g.packages@.len());
                    assert(reachable(g, s.spec, root, b));
                    assert(reachable_conflict(g, s.spec, root));
                },
                BuildError::RootNotFound { .. } => {
                    assert(!root_candidate_at(s0, root));
                },
            }
        }
    }
}

/// The package at `k` meets the root constraints of `s0`.
spec fn root_candidate_at(s0: State, k: int) -> bool {
    crate::graph::root_candidate(s0.spec, s0.lockfile.packages@[k])
}

/// Idempotence: two builds of the same spec over the same lockfile in the
/// same phase (the strict pass of a comparison run twice on its narrowed
/// specs, for one) either both succeed with identical bindings, in the same
/// order and with the same paths, or both fail with the same kind of error
/// and, for a version conflict, the same path and versions.
pub proof fn lemma_rebuild_identical(s0: State, s1: State, r1: Result<(), BuildError>, s2: State, r2: Result<(), BuildError>)
    requires
        s1.built(s0, r1),
        s2.built(s0, r2),
    ensures
        r1 is Ok <==> r2 is Ok,
        r1 is Ok ==> entries_view(s1.packages@) == entries_view(s2.packages@),
        r1 is Err ==> r1->Err_0.conflict() == r2->Err_0.conflict(),
        r1 is Err ==> (r1->Err_0 is RootNotFound <==> r2->Err_0 is RootNotFound),
{
    if r1 is Err {
        assert(r2 is Err);
        if r1->Err_0 is VersionConflict {
            assert(r1->Err_0.conflict().0.len() >= 1);
        }
        if r2->Err_0 is VersionConflict {
            assert(r2->Err_0.conflict().0.len() >= 1);
        }
    }
}

/// The names of the packages of a lockfile.
pub open spec fn lockfile_names(g: Lockfile) -> Set<Seq<char>> {
    Set::new(|s: Seq<char>| exists|k: int| 0 <= k < g.packages@.len() && (#[trigger] g.packages@[k]).name@ == s)
}

/// Without root constraints or exclusions, the first pass of a comparison
/// finds as common exactly the names that the two lockfiles share, and counts
/// them.
pub proof fn lemma_unconstrained_common(a0: State, b0: State, fa: State, fb: State, a2: State, b2: State, o: Outcome)
    requires
        two_passes(a0, b0, fa, fb, a2, b2, o),
        !rooted(a0.spec),
        !rooted(b0.spec),
        a0.spec.exclude_pkgs@.len() == 0,
        b0.spec.exclude_pkgs@.len() == 0,
    ensures
        common_names(fa, fb) == lockfile_names(a0.lockfile).intersect(lockfile_names(b0.lockfile)),
        o.first.common == lockfile_names(a0.lockfile).intersect(lockfile_names(b0.lockfile)).len(),
{
    assert(fa.names() =~= lockfile_names(a0.lockfile)) by {
        assert(fa.names() == unexcluded_names(fa.lockfile, fa.spec));
        assert forall|x: Seq<char>| #![auto] unexcluded_names(fa.lockfile, fa.spec).contains(x) <==> lockfile_names(a0.lockfile).contains(x) by {
            assert(!excluded(fa.spec, x));
        }
    }
    assert(fb.names() =~= lockfile_names(b0.lockfile)) by {
        assert(fb.names() == unexcluded_names(fb.lockfile, fb.spec));
        assert forall|x: Seq<char>| #![auto] unexcluded_names(fb.lockfile, fb.spec).contains(x) <==> lockfile_names(b0.lockfile).contains(x) by {
            assert(!excluded(fb.spec, x));
        }
    }
}

} // verus!
