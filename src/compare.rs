//! Reconciles two universes in two passes and reports the versions of the
//! names they share.
use vstd::prelude::*;
use crate::graph::excluded;
use crate::text::{ascending, insert_sorted, lemma_name_lt_irreflexive, views};
use crate::universe::{build_model, copy_path, lemma_view_lookup, view_has_name, BuildError, Phase, State};
use crate::graph::{Lockfile, Spec};

verus! {

/// One shared name and the version each side binds it to, with the paths
/// that reached each.
#[derive(Debug)]
pub struct Record {
    pub name: String,
    pub version_a: String,
    pub version_b: String,
    pub path_a: Vec<usize>,
    pub path_b: Vec<usize>,
}

impl Record {
    /// Both sides bind the same version.
    pub open spec fn same(&self) -> bool {
        self.version_a@ == self.version_b@
    }

    /// Whether both sides bind the same version.
    pub fn is_same(&self) -> (r: bool)
        ensures
            r == self.same(),
    {
        self.version_a == self.version_b
    }
}

/// The sizes of one pass: each universe and their common names.
#[derive(Debug)]
pub struct PassSizes {
    pub size_a: usize,
    pub size_b: usize,
    pub common: usize,
}

/// What a complete comparison found.
#[derive(Debug)]
pub struct Outcome {
    pub first: PassSizes,
    pub excluded_a: usize,
    pub excluded_b: usize,
    pub second: PassSizes,
    /// One record per common name of the second pass, in ascending name order.
    pub records: Vec<Record>,
    pub all_same: bool,
}

/// The two sides being compared.
#[derive(Debug)]
pub struct Program {
    pub state_a: State,
    pub state_b: State,
}

/// A name bound on both sides.
pub open spec fn common_names(a: State, b: State) -> Set<Seq<char>> {
    a.names().intersect(b.names())
}

/// `v` holds exactly the common names, in ascending order.
pub open spec fn lists_common(v: Seq<String>, a: State, b: State) -> bool {
    &&& views(v).to_set() == common_names(a, b)
    &&& ascending(views(v))
    &&& v.len() == common_names(a, b).len()
}

impl State {
    /// The index of the binding named `name`, if any.
    pub fn find_by_name(&self, name: &String) -> (r: Option<usize>)
        requires
            self.wf(),
        ensures
            match r {
                Some(i) => i < self.packages@.len() && self.name_of(i as int) == name@,
                None => !self.has_name(name@),
            },
    {
        let mut i: usize = 0;
        while i < self.packages.len()
            invariant
                self.wf(),
                i <= self.packages@.len(),
                forall|k: int| 0 <= k < i ==> #[trigger] self.name_of(k) != name@,
            decreases self.packages@.len() - i,
        {
            let j = self.packages[i].package;
            assert(self.packages@[i as int].package < self.lockfile.packages@.len());
            if self.lockfile.packages[j].name == *name {
                return Some(i);
            }
            i = i + 1;
        }
        None
    }

    /// The name of binding `i`.
    fn name_at(&self, i: usize) -> (r: String)
        requires
            i < self.packages@.len(),
            self.packages@[i as int].package < self.lockfile.packages@.len(),
        ensures
            r@ == self.name_of(i as int),
    {
        self.lockfile.packages[self.packages[i].package].name.clone()
    }

    /// The version of binding `i`.
    fn version_at(&self, i: usize) -> (r: String)
        requires
            i < self.packages@.len(),
            self.packages@[i as int].package < self.lockfile.packages@.len(),
        ensures
            r@ == self.version_of(i as int),
    {
        self.lockfile.packages[self.packages[i].package].version.clone()
    }

    /// Adds to the excluded names every bound name outside `common`; returns
    /// how many were added.
    pub fn exclude_names_outside(&mut self, common: &Vec<String>) -> (count: usize)
        requires
            old(self).wf(),
        ensures
            final(self).lockfile == old(self).lockfile,
            final(self).phase == old(self).phase,
            final(self).packages == old(self).packages,
            final(self).spec.src == old(self).spec.src,
            final(self).spec.pkg_name == old(self).spec.pkg_name,
            final(self).spec.pkg_hash == old(self).spec.pkg_hash,
            forall|x: Seq<char>| #[trigger] excluded(final(self).spec, x)
                <==> excluded(old(self).spec, x) || (old(self).has_name(x) && !views(common@).contains(x)),
            count == count_outside(*old(self), views(common@).to_set(), old(self).packages@.len() as int),
    {
        let ghost s0 = *self;
        let mut count: usize = 0;
        let mut i: usize = 0;
        while i < self.packages.len()
            invariant
                s0.wf(),
                self.lockfile == s0.lockfile,
                self.phase == s0.phase,
                self.packages == s0.packages,
                self.spec.src == s0.spec.src,
                self.spec.pkg_name == s0.spec.pkg_name,
                self.spec.pkg_hash == s0.spec.pkg_hash,
                i <= self.packages@.len(),
                count == count_outside(s0, views(common@).to_set(), i as int),
                count <= i,
                forall|x: Seq<char>| #[trigger] excluded(self.spec, x)
                    <==> excluded(s0.spec, x) || (exists|k: int| 0 <= k < i && #[trigger] s0.name_of(k) == x && !views(common@).contains(x)),
            decreases self.packages@.len() - i,
        {
            assert(s0.packages@[i as int].package < s0.lockfile.packages@.len());
            let name = self.name_at(i);
            let ghost spec_before = self.spec;
            proof {
                assert(views(common@).contains(name@) <==> views(common@).to_set().contains(name@));
            }
            if !contains_name(common, &name) {
                self.spec.exclude_pkgs.push(name);
                count = count + 1;
                proof {
                    assert forall|x: Seq<char>| #[trigger] excluded(self.spec, x) <==> excluded(spec_before, x) || x == s0.name_of(i as int) by {
                        if excluded(spec_before, x) {
                            let k = choose|k: int| 0 <= k < spec_before.exclude_pkgs@.len() && (#[trigger] spec_before.exclude_pkgs@[k])@ == x;
                            assert(self.spec.exclude_pkgs@[k] == spec_before.exclude_pkgs@[k]);
                        }
                        if x == s0.name_of(i as int) {
                            assert(self.spec.exclude_pkgs@[spec_before.exclude_pkgs@.len() as int]@ == x);
                        }
                        if excluded(self.spec, x) {
                            let k = choose|k: int| 0 <= k < self.spec.exclude_pkgs@.len() && (#[trigger] self.spec.exclude_pkgs@[k])@ == x;
                            if k < spec_before.exclude_pkgs@.len() {
                                assert(spec_before.exclude_pkgs@[k] == self.spec.exclude_pkgs@[k]);
                            }
                        }
                    }
                }
            }
            proof {
                assert forall|x: Seq<char>| #[trigger] excluded(self.spec, x)
                    <==> excluded(s0.spec, x) || (exists|k: int| 0 <= k < i + 1 && #[trigger] s0.name_of(k) == x && !views(common@).contains(x)) by {
                    if exists|k: int| 0 <= k < i + 1 && #[trigger] s0.name_of(k) == x && !views(common@).contains(x) {
                        let k = choose|k: int| 0 <= k < i + 1 && #[trigger] s0.name_of(k) == x && !views(common@).contains(x);
                        if k < i {
                            assert(excluded(spec_before, x));
                        }
                    }
                    if excluded(spec_before, x) && !excluded(s0.spec, x) {
                        let k = choose|k: int| 0 <= k < i && #[trigger] s0.name_of(k) == x && !views(common@).contains(x);
                        assert(0 <= k < i + 1);
                    }
                }
            }
            i = i + 1;
        }
        proof {
            assert forall|x: Seq<char>| #[trigger] excluded(self.spec, x)
                <==> excluded(s0.spec, x) || (s0.has_name(x) && !views(common@).contains(x)) by {
                if s0.has_name(x) && !views(common@).contains(x) {
                    let k = choose|k: int| 0 <= k < s0.packages@.len() && #[trigger] s0.name_of(k) == x;
                    assert(0 <= k < i);
                }
            }
        }
        count
    }
}

/// How many of the first `i` bindings of `s` have a name outside `common`.
pub open spec fn count_outside(s: State, common: Set<Seq<char>>, i: int) -> nat
    decreases i,
{
    if i <= 0 {
        0
    } else {
        count_outside(s, common, i - 1) + if common.contains(s.name_of(i - 1)) { 0nat } else { 1nat }
    }
}

/// Whether `name` is one of `v`.
pub fn contains_name(v: &Vec<String>, name: &String) -> (r: bool)
    ensures
        r == views(v@).contains(name@),
{
    let mut i: usize = 0;
    while i < v.len()
        invariant
            i <= v@.len(),
            forall|k: int| 0 <= k < i ==> (#[trigger] v@[k])@ != name@,
        decreases v@.len() - i,
    {
        if v[i] == *name {
            assert(views(v@)[i as int] == name@);
            return true;
        }
        i = i + 1;
    }
    proof {
        if views(v@).contains(name@) {
            let k = choose|k: int| 0 <= k < views(v@).len() && views(v@)[k] == name@;
            assert(v@[k]@ == name@);
        }
    }
    false
}

/// Strictly ascending names hold no name twice.
proof fn lemma_ascending_len(v: Seq<Seq<char>>)
    requires
        ascending(v),
    ensures
        v.to_set().len() == v.len(),
{
    assert forall|i: int, j: int| 0 <= i < v.len() && 0 <= j < v.len() && i != j implies v[i] != v[j] by {
        lemma_name_lt_irreflexive(v[i]);
        if i < j {
            assert(crate::text::name_lt(v[i], v[j]));
        } else {
            assert(crate::text::name_lt(v[j], v[i]));
        }
    }
    assert(v.no_duplicates());
    v.unique_seq_to_set();
}

/// Some binding of `a` before `i` is named `x`.
pub open spec fn named_before(a: State, i: int, x: Seq<char>) -> bool {
    exists|k: int| 0 <= k < i && #[trigger] a.name_of(k) == x
}

/// The names bound on both sides, in ascending order.
pub fn intersection(a: &State, b: &State) -> (r: Vec<String>)
    requires
        a.wf(),
        b.wf(),
    ensures
        lists_common(r@, *a, *b),
{
    let mut r: Vec<String> = Vec::new();
    let mut i: usize = 0;
    while i < a.packages.len()
        invariant
            a.wf(),
            b.wf(),
            i <= a.packages@.len(),
            ascending(views(r@)),
            forall|x: Seq<char>| #[trigger] views(r@).to_set().contains(x) <==> named_before(*a, i as int, x) && b.has_name(x),
        decreases a.packages@.len() - i,
    {
        assert(a.packages@[i as int].package < a.lockfile.packages@.len());
        let name = a.name_at(i);
        let ghost r0 = views(r@);
        let ghost nm = name@;
        let found = b.find_by_name(&name).is_some();
        if found {
            insert_sorted(&mut r, name);
        }
        proof {
            assert forall|x: Seq<char>| #[trigger] views(r@).to_set().contains(x)
                <==> named_before(*a, i + 1, x) && b.has_name(x) by {
                assert(named_before(*a, i + 1, x) <==> named_before(*a, i as int, x) || x == nm) by {
                    if x == nm {
                        assert(a.name_of(i as int) == x);
                    }
                    if named_before(*a, i + 1, x) && x != nm {
                        let k = choose|k: int| 0 <= k < i + 1 && #[trigger] a.name_of(k) == x;
                        assert(k < i);
                    }
                    if named_before(*a, i as int, x) {
                        let k = choose|k: int| 0 <= k < i && #[trigger] a.name_of(k) == x;
                        assert(0 <= k < i + 1);
                    }
                }
                if found {
                    assert(views(r@).to_set().contains(x) <==> r0.to_set().contains(x) || x == nm);
                    assert(b.has_name(nm));
                } else {
                    assert(!b.has_name(nm));
                }
                assert(r0.to_set().contains(x) <==> named_before(*a, i as int, x) && b.has_name(x));
            }
        }
        i = i + 1;
    }
    proof {
        assert forall|x: Seq<char>| views(r@).to_set().contains(x) <==> common_names(*a, *b).contains(x) by {
            if a.has_name(x) {
                let k = choose|k: int| 0 <= k < a.packages@.len() && #[trigger] a.name_of(k) == x;
                assert(named_before(*a, i as int, x));
            }
            if named_before(*a, i as int, x) {
                let k = choose|k: int| 0 <= k < i && #[trigger] a.name_of(k) == x;
                assert(a.has_name(x));
            }
        }
        assert(views(r@).to_set() =~= common_names(*a, *b));
        lemma_ascending_len(views(r@));
    }
    r
}

/// The names of the records.
pub open spec fn record_names(v: Seq<Record>) -> Seq<Seq<char>> {
    v.map_values(|x: Record| x.name@)
}

/// Some binding of `s` has this name, version and path.
pub open spec fn binds_with_path(s: State, name: Seq<char>, version: Seq<char>, path: Seq<usize>) -> bool {
    exists|i: int|
        0 <= i < s.packages@.len() && #[trigger] s.name_of(i) == name && s.version_of(i) == version && s.packages@[i].path@ == path
}

/// `o` reports the names `names` of `a` and `b`: one record each, in order,
/// with the version each side binds, and `all_same` exactly when every record
/// has equal versions.
pub open spec fn reports(records: Seq<Record>, all_same: bool, names: Seq<Seq<char>>, a: State, b: State) -> bool {
    &&& record_names(records) == names
    &&& forall|i: int| 0 <= i < records.len() ==> {
        &&& binds_with_path(a, (#[trigger] records[i]).name@, records[i].version_a@, records[i].path_a@)
        &&& binds_with_path(b, records[i].name@, records[i].version_b@, records[i].path_b@)
    }
    &&& all_same == forall|i: int| 0 <= i < records.len() ==> (#[trigger] records[i]).same()
}

/// `o` is the outcome of the two passes over `a0` and `b0`: the lenient
/// universes `fa` and `fb`, the specs narrowed to their common names, the
/// strict universes `a2` and `b2` rebuilt from those, and the report on the
/// names these share.
pub open spec fn two_passes(a0: State, b0: State, fa: State, fb: State, a2: State, b2: State, o: Outcome) -> bool {
    &&& fa.built(a0, Ok(()))
    &&& fb.built(b0, Ok(()))
    &&& o.first.size_a == fa.packages@.len() && o.first.size_b == fb.packages@.len()
    &&& o.first.common == common_names(fa, fb).len()
    &&& o.excluded_a == count_outside(fa, common_names(fa, fb), fa.packages@.len() as int)
    &&& o.excluded_b == count_outside(fb, common_names(fa, fb), fb.packages@.len() as int)
    &&& a2.spec.src == a0.spec.src && a2.spec.pkg_name == a0.spec.pkg_name && a2.spec.pkg_hash == a0.spec.pkg_hash
    &&& b2.spec.src == b0.spec.src && b2.spec.pkg_name == b0.spec.pkg_name && b2.spec.pkg_hash == b0.spec.pkg_hash
    &&& forall|x: Seq<char>| #[trigger] excluded(a2.spec, x) <==> excluded(a0.spec, x) || (fa.has_name(x) && !fb.has_name(x))
    &&& forall|x: Seq<char>| #[trigger] excluded(b2.spec, x) <==> excluded(b0.spec, x) || (fb.has_name(x) && !fa.has_name(x))
    &&& a2.built_from(a2.spec, a0.lockfile, Phase::NameAndVersionIntersection, Ok(()))
    &&& b2.built_from(b2.spec, b0.lockfile, Phase::NameAndVersionIntersection, Ok(()))
    &&& o.second.size_a == a2.packages@.len() && o.second.size_b == b2.packages@.len()
    &&& o.second.common == common_names(a2, b2).len()
    &&& ascending(record_names(o.records@))
    &&& record_names(o.records@).to_set() == common_names(a2, b2)
    &&& reports(o.records@, o.all_same, record_names(o.records@), a2, b2)
}

/// The names bound by the bindings `u` over `g`.
pub open spec fn model_names(g: Lockfile, u: Seq<(usize, Seq<usize>)>) -> Set<Seq<char>> {
    Set::new(|x: Seq<char>| view_has_name(g, u, x))
}

/// The universe that the lenient pass builds from `s0`.
pub open spec fn lenient_model(s0: State) -> Result<Seq<(usize, Seq<usize>)>, (Seq<usize>, Seq<char>)> {
    build_model(s0.lockfile, s0.spec, false)
}

/// The names that the lenient pass binds from `s0`.
pub open spec fn lenient_names(s0: State) -> Set<Seq<char>> {
    model_names(s0.lockfile, lenient_model(s0)->Ok_0)
}

/// Both lenient builds succeed.
pub open spec fn first_pass_ok(a0: State, b0: State) -> bool {
    lenient_model(a0) is Ok && lenient_model(b0) is Ok
}

/// `s` is `s0` made ready for the strict pass: the same lockfile, source and
/// root constraints, the strict phase, and the exclusions of `s0` plus the
/// names in `mine` that are not in `theirs`.
pub open spec fn narrowed(s: State, s0: State, mine: Set<Seq<char>>, theirs: Set<Seq<char>>) -> bool {
    &&& s.lockfile == s0.lockfile
    &&& s.phase == Phase::NameAndVersionIntersection
    &&& s.spec.src == s0.spec.src && s.spec.pkg_name == s0.spec.pkg_name && s.spec.pkg_hash == s0.spec.pkg_hash
    &&& forall|x: Seq<char>| #[trigger] excluded(s.spec, x) <==> excluded(s0.spec, x) || (mine.contains(x) && !theirs.contains(x))
}

/// A built universe binds exactly the names of its model.
proof fn lemma_built_names(s: State, spec: Spec, g: Lockfile, phase: Phase)
    requires
        s.built_from(spec, g, phase, Ok(())),
    ensures
        s.names() == model_names(g, build_model(g, spec, phase == Phase::NameAndVersionIntersection)->Ok_0),
{
    assert forall|x: Seq<char>| s.names().contains(x) <==> model_names(g, build_model(g, spec, phase == Phase::NameAndVersionIntersection)->Ok_0).contains(x) by {
        lemma_view_lookup(s, x);
    }
    assert(s.names() =~= model_names(g, build_model(g, spec, phase == Phase::NameAndVersionIntersection)->Ok_0));
}

impl Program {
    /// A comparison of the two sides.
    pub fn new(state_a: State, state_b: State) -> (r: Program)
        ensures
            r.state_a == state_a,
            r.state_b == state_b,
    {
        Program { state_a, state_b }
    }

    /// Builds both universes, A first, and lists the names they share.
    pub fn add_packages_and_calculate_intesection(&mut self) -> (r: Result<Vec<String>, BuildError>)
        requires
            old(self).state_a.packages@.len() == 0,
            old(self).state_b.packages@.len() == 0,
        ensures
            match r {
                Ok(v) => {
                    &&& final(self).state_a.built(old(self).state_a, Ok(()))
                    &&& final(self).state_b.built(old(self).state_b, Ok(()))
                    &&& lists_common(v@, final(self).state_a, final(self).state_b)
                },
                Err(e) => {
                    ||| final(self).state_a.built(old(self).state_a, Err(e)) && final(self).state_b == old(self).state_b
                    ||| final(self).state_a.built(old(self).state_a, Ok(())) && final(self).state_b.built(old(self).state_b, Err(e))
                },
            },
    {
        match self.state_a.add_packages() {
            Ok(()) => {},
            Err(e) => {
                return Err(e);
            },
        }
        match self.state_b.add_packages() {
            Ok(()) => {},
            Err(e) => {
                return Err(e);
            },
        }
        Ok(intersection(&self.state_a, &self.state_b))
    }

    /// Looks up each of `names` on both sides and records the two versions.
    pub fn report(&self, names: &Vec<String>) -> (r: (Vec<Record>, bool))
        requires
            self.state_a.wf(),
            self.state_b.wf(),
            forall|i: int| 0 <= i < names@.len() ==> common_names(self.state_a, self.state_b).contains(#[trigger] names@[i]@),
        ensures
            reports(r.0@, r.1, views(names@), self.state_a, self.state_b),
    {
        let a = &self.state_a;
        let b = &self.state_b;
        let mut records: Vec<Record> = Vec::new();
        let mut all_same = true;
        let mut i: usize = 0;
        assert(record_names(records@) =~= views(names@).subrange(0, 0));
        while i < names.len()
            invariant
                a.wf(),
                b.wf(),
                forall|k: int| 0 <= k < names@.len() ==> common_names(*a, *b).contains(#[trigger] names@[k]@),
                i <= names@.len(),
                reports(records@, all_same, views(names@).subrange(0, i as int), *a, *b),
            decreases names@.len() - i,
        {
            assert(common_names(*a, *b).contains(names@[i as int]@));
            let ia = match a.find_by_name(&names[i]) {
                Some(ia) => ia,
                None => {
                    assert(false);
                    return (records, all_same);
                },
            };
            let ib = match b.find_by_name(&names[i]) {
                Some(ib) => ib,
                None => {
                    assert(false);
                    return (records, all_same);
                },
            };
            assert(a.packages@[ia as int].package < a.lockfile.packages@.len());
            assert(b.packages@[ib as int].package < b.lockfile.packages@.len());
            let rec = Record {
                name: names[i].clone(),
                version_a: a.version_at(ia),
                version_b: b.version_at(ib),
                path_a: copy_path(&a.packages[ia].path),
                path_b: copy_path(&b.packages[ib].path),
            };
            let ghost old_records = records@;
            assert(record_names(old_records).len() == old_records.len());
            assert(old_records.len() == i);
            let same = rec.is_same();
            if !same {
                all_same = false;
            }
            records.push(rec);
            proof {
                assert(binds_with_path(*a, rec.name@, rec.version_a@, rec.path_a@)
                    && binds_with_path(*b, rec.name@, rec.version_b@, rec.path_b@)) by {
                    assert(a.name_of(ia as int) == rec.name@);
                    assert(b.name_of(ib as int) == rec.name@);
                }
                assert forall|k: int| 0 <= k < i + 1 implies record_names(records@)[k] == views(names@).subrange(0, i + 1)[k] by {
                    if k < i {
                        assert(records@[k] == old_records[k]);
                        assert(record_names(old_records)[k] == views(names@).subrange(0, i as int)[k]);
                    }
                }
                assert(record_names(records@) =~= views(names@).subrange(0, i + 1));
                assert forall|k: int| 0 <= k < records@.len() implies {
                    &&& binds_with_path(*a, (#[trigger] records@[k]).name@, records@[k].version_a@, records@[k].path_a@)
                    &&& binds_with_path(*b, records@[k].name@, records@[k].version_b@, records@[k].path_b@)
                } by {
                    if k < i {
                        assert(records@[k] == old_records[k]);
                    }
                }
                assert(all_same == forall|k: int| 0 <= k < records@.len() ==> (#[trigger] records@[k]).same()) by {
                    if all_same {
                        assert forall|k: int| 0 <= k < records@.len() implies (#[trigger] records@[k]).same() by {
                            if k < i {
                                assert(records@[k] == old_records[k]);
                            }
                        }
                    } else if !same {
                        assert(!records@[i as int].same());
                    } else {
                        let k = choose|k: int| 0 <= k < old_records.len() && !(#[trigger] old_records[k]).same();
                        assert(records@[k] == old_records[k]);
                    }
                }
            }
            i = i + 1;
        }
        assert(views(names@).subrange(0, i as int) =~= views(names@));
        (records, all_same)
    }

    /// Runs the two passes: a lenient build of both sides, the narrowing of
    /// each spec to the names both sides bound, a strict rebuild of both, and
    /// the report on the names the rebuilt universes share.
    pub fn run(&mut self) -> (r: Result<Outcome, BuildError>)
        requires
            old(self).state_a.packages@.len() == 0,
            old(self).state_b.packages@.len() == 0,
            old(self).state_a.phase == Phase::NameIntersection,
            old(self).state_b.phase == Phase::NameIntersection,
        ensures
            first_pass_ok(old(self).state_a, old(self).state_b) ==> {
                &&& narrowed(final(self).state_a, old(self).state_a, lenient_names(old(self).state_a), lenient_names(old(self).state_b))
                &&& narrowed(final(self).state_b, old(self).state_b, lenient_names(old(self).state_b), lenient_names(old(self).state_a))
            },
            r is Ok <==> first_pass_ok(old(self).state_a, old(self).state_b)
                && build_model(old(self).state_a.lockfile, final(self).state_a.spec, true) is Ok
                && build_model(old(self).state_b.lockfile, final(self).state_b.spec, true) is Ok,
            match r {
                Ok(o) => exists|fa: State, fb: State|
                    #[trigger] two_passes(old(self).state_a, old(self).state_b, fa, fb, final(self).state_a, final(self).state_b, o),
                Err(e) => if first_pass_ok(old(self).state_a, old(self).state_b) {
                    ||| final(self).state_a.built_from(final(self).state_a.spec, old(self).state_a.lockfile, Phase::NameAndVersionIntersection, Err(e))
                        && final(self).state_b.packages@.len() == 0
                    ||| final(self).state_a.built_from(final(self).state_a.spec, old(self).state_a.lockfile, Phase::NameAndVersionIntersection, Ok(()))
                        && final(self).state_b.built_from(final(self).state_b.spec, old(self).state_b.lockfile, Phase::NameAndVersionIntersection, Err(e))
                } else {
                    ||| final(self).state_a.built(old(self).state_a, Err(e)) && final(self).state_b == old(self).state_b
                    ||| final(self).state_a.built(old(self).state_a, Ok(())) && final(self).state_b.built(old(self).state_b, Err(e))
                },
            },
    {
        let ghost a0 = self.state_a;
        let ghost b0 = self.state_b;
        let common1 = match self.add_packages_and_calculate_intesection() {
            Ok(v) => v,
            Err(e) => {
                return Err(e);
            },
        };
        let ghost fa = self.state_a;
        let ghost fb = self.state_b;
        proof {
            lemma_built_names(fa, a0.spec, a0.lockfile, a0.phase);
            lemma_built_names(fb, b0.spec, b0.lockfile, b0.phase);
            assert(first_pass_ok(a0, b0));
        }
        let first = PassSizes {
            size_a: self.state_a.packages.len(),
            size_b: self.state_b.packages.len(),
            common: common1.len(),
        };
        let excluded_a = self.state_a.exclude_names_outside(&common1);
        let excluded_b = self.state_b.exclude_names_outside(&common1);
        self.state_a.phase = Phase::NameAndVersionIntersection;
        self.state_b.phase = Phase::NameAndVersionIntersection;
        self.state_a.packages = Vec::new();
        self.state_b.packages = Vec::new();
        let ghost a1 = self.state_a;
        let ghost b1 = self.state_b;
        proof {
            assert forall|x: Seq<char>| views(common1@).contains(x) <==> common_names(fa, fb).contains(x) by {
                assert(views(common1@).contains(x) <==> views(common1@).to_set().contains(x));
            }
            assert(narrowed(a1, a0, lenient_names(a0), lenient_names(b0)));
            assert(narrowed(b1, b0, lenient_names(b0), lenient_names(a0)));
        }
        let common2 = match self.add_packages_and_calculate_intesection() {
            Ok(v) => v,
            Err(e) => {
                return Err(e);
            },
        };
        let second = PassSizes {
            size_a: self.state_a.packages.len(),
            size_b: self.state_b.packages.len(),
            common: common2.len(),
        };
        proof {
            assert forall|i: int| 0 <= i < common2@.len() implies common_names(self.state_a, self.state_b).contains(#[trigger] common2@[i]@) by {
                assert(views(common2@)[i] == common2@[i]@);
                assert(views(common2@).to_set().contains(common2@[i]@));
            }
        }
        let (records, all_same) = self.report(&common2);
        let o = Outcome { first, excluded_a, excluded_b, second, records, all_same };
        proof {
            let a2 = self.state_a;
            let b2 = self.state_b;
            assert forall|x: Seq<char>| views(common1@).contains(x) <==> common_names(fa, fb).contains(x) by {
                assert(views(common1@).contains(x) <==> views(common1@).to_set().contains(x));
            }
            assert(fa.lockfile == a0.lockfile && a1.lockfile == fa.lockfile);
            assert(fb.lockfile == b0.lockfile && b1.lockfile == fb.lockfile);
            assert(record_names(o.records@) == views(common2@));
            assert(two_passes(a0, b0, fa, fb, a2, b2, o));
        }
        let ghost go = o;
        let r: Result<Outcome, BuildError> = Ok(o);
        assert(two_passes(old(self).state_a, old(self).state_b, fa, fb, self.state_a, self.state_b, r->Ok_0)) by {
            assert(r->Ok_0 == go);
        }
        r
    }
}

} // verus!
