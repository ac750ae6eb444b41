use lockcmp::graph::path_to_str;
use lockcmp::text::str_lt;
use lockcmp::{
    comma_separated_list, BuildError, Dependency, Lockfile, Outcome, Package, Phase, Program, Spec,
    State,
};

fn pkg(name: &str, version: &str, deps: &[(&str, &str)]) -> Package {
    Package {
        name: name.to_string(),
        version: version.to_string(),
        checksum: None,
        precise: None,
        dependencies: deps
            .iter()
            .map(|(n, v)| Dependency { name: n.to_string(), version: v.to_string() })
            .collect(),
    }
}

fn spec(src: &str) -> Spec {
    Spec { src: src.to_string(), pkg_name: None, pkg_hash: None, exclude_pkgs: Vec::new() }
}

fn lockfile(packages: Vec<Package>) -> Lockfile {
    Lockfile { packages }
}

fn compare(spec_a: Spec, a: Vec<Package>, spec_b: Spec, b: Vec<Package>) -> Result<Outcome, BuildError> {
    let mut program = Program::new(State::new(spec_a, lockfile(a)), State::new(spec_b, lockfile(b)));
    program.run()
}

fn bound_names(state: &State) -> Vec<String> {
    state
        .packages
        .iter()
        .map(|e| state.lockfile.packages[e.package].name.clone())
        .collect()
}

#[test]
fn mismatched_dependency_version_is_reported() {
    let a = vec![pkg("a", "1.0", &[("b", "1.0")]), pkg("b", "1.0", &[])];
    let b = vec![pkg("a", "1.0", &[("b", "2.0")]), pkg("b", "2.0", &[]), pkg("c", "1.0", &[])];
    let o = compare(spec("A"), a, spec("B"), b).unwrap();
    assert_eq!(o.first.size_a, 2);
    assert_eq!(o.first.size_b, 3);
    assert_eq!(o.first.common, 2);
    assert_eq!(o.excluded_a, 0);
    assert_eq!(o.excluded_b, 1);
    assert_eq!(o.second.common, 2);
    assert_eq!(o.records.len(), 2);
    assert_eq!(o.records[0].name, "a");
    assert!(o.records[0].is_same());
    assert_eq!(o.records[0].version_a, "1.0");
    assert_eq!(o.records[1].name, "b");
    assert!(!o.records[1].is_same());
    assert_eq!(o.records[1].version_a, "1.0");
    assert_eq!(o.records[1].version_b, "2.0");
    assert!(!o.all_same);
}

#[test]
fn identical_lockfiles_agree() {
    let o = compare(spec("A"), vec![pkg("x", "1.0", &[])], spec("B"), vec![pkg("x", "1.0", &[])]).unwrap();
    assert_eq!(o.first.common, 1);
    assert_eq!(o.second.common, 1);
    assert_eq!(o.records.len(), 1);
    assert_eq!(o.records[0].name, "x");
    assert_eq!(o.records[0].version_a, "1.0");
    assert!(o.records[0].is_same());
    assert!(o.all_same);
}

#[test]
fn unknown_root_hash_is_fatal() {
    let mut sa = spec("left.lock");
    sa.pkg_hash = Some("0123abcd".to_string());
    let mut p = pkg("x", "1.0", &[]);
    p.checksum = Some("ffff".to_string());
    let r = compare(sa, vec![p], spec("right.lock"), vec![pkg("x", "1.0", &[])]);
    match r {
        Err(BuildError::RootNotFound { src, pkg_name, pkg_hash }) => {
            assert_eq!(src, "left.lock");
            assert_eq!(pkg_name, None);
            assert_eq!(pkg_hash, Some("0123abcd".to_string()));
        }
        _ => panic!("expected a missing root"),
    }
}

#[test]
fn root_hash_matches_checksum_or_precise_source() {
    let mut x = pkg("x", "1.0", &[("y", "1.0")]);
    x.checksum = Some("c1".to_string());
    let mut z = pkg("z", "1.0", &[]);
    z.precise = Some("abc123".to_string());
    let packages = vec![x, pkg("y", "1.0", &[]), z];
    let mut s = spec("A");
    s.pkg_hash = Some("c1".to_string());
    let mut st = State::new(s, lockfile(packages));
    st.add_packages().unwrap();
    assert_eq!(bound_names(&st), vec!["x", "y"]);

    let mut x = pkg("x", "1.0", &[]);
    x.checksum = Some("c1".to_string());
    let mut z = pkg("z", "1.0", &[]);
    z.precise = Some("abc123".to_string());
    let mut s = spec("A");
    s.pkg_hash = Some("abc123".to_string());
    let mut st = State::new(s, lockfile(vec![x, z]));
    st.add_packages().unwrap();
    assert_eq!(bound_names(&st), vec!["z"]);
}

#[test]
fn root_name_scopes_to_reachable_packages() {
    let packages = vec![
        pkg("app", "1.0", &[("lib", "1.0"), ("missing", "9.9")]),
        pkg("lib", "1.0", &[("util", "1.0")]),
        pkg("util", "1.0", &[]),
        pkg("other", "1.0", &[("util", "1.0")]),
    ];
    let mut s = spec("A");
    s.pkg_name = Some("app".to_string());
    let mut st = State::new(s, lockfile(packages));
    st.add_packages().unwrap();
    assert_eq!(bound_names(&st), vec!["app", "lib", "util"]);
    assert_eq!(st.packages[2].path, vec![0, 1, 2]);
}

#[test]
fn root_name_and_hash_must_both_match() {
    let mut first = pkg("x", "1.0", &[]);
    first.checksum = Some("h1".to_string());
    let mut second = pkg("x", "2.0", &[]);
    second.checksum = Some("h2".to_string());
    let mut s = spec("A");
    s.pkg_name = Some("x".to_string());
    s.pkg_hash = Some("h2".to_string());
    let mut st = State::new(s, lockfile(vec![first, second]));
    st.add_packages().unwrap();
    assert_eq!(st.packages.len(), 1);
    assert_eq!(st.packages[0].package, 1);

    let mut s = spec("A");
    s.pkg_name = Some("y".to_string());
    s.pkg_hash = Some("h2".to_string());
    let mut only = pkg("x", "2.0", &[]);
    only.checksum = Some("h2".to_string());
    let mut st = State::new(s, lockfile(vec![only]));
    assert!(matches!(st.add_packages(), Err(BuildError::RootNotFound { .. })));
}

#[test]
fn excluded_names_and_their_exclusive_dependencies_stay_out() {
    let packages = vec![
        pkg("app", "1.0", &[("big", "1.0"), ("small", "1.0")]),
        pkg("big", "1.0", &[("inner", "1.0"), ("shared", "1.0")]),
        pkg("inner", "1.0", &[]),
        pkg("small", "1.0", &[("shared", "1.0")]),
        pkg("shared", "1.0", &[]),
    ];
    let mut s = spec("A");
    s.pkg_name = Some("app".to_string());
    s.exclude_pkgs = vec!["big".to_string()];
    let mut st = State::new(s, lockfile(packages));
    st.add_packages().unwrap();
    assert_eq!(bound_names(&st), vec!["app", "small", "shared"]);
}

#[test]
fn excluded_root_candidate_is_skipped() {
    let mut s = spec("A");
    s.pkg_name = Some("x".to_string());
    s.exclude_pkgs = vec!["x".to_string()];
    let mut st = State::new(s, lockfile(vec![pkg("x", "1.0", &[])]));
    assert!(matches!(st.add_packages(), Err(BuildError::RootNotFound { .. })));
}

#[test]
fn all_packages_first_occurrence_wins_when_lenient() {
    let packages = vec![pkg("x", "1.0", &[]), pkg("y", "1.0", &[]), pkg("x", "2.0", &[])];
    let mut st = State::new(spec("A"), lockfile(packages));
    st.add_packages().unwrap();
    assert_eq!(bound_names(&st), vec!["x", "y"]);
    assert_eq!(st.packages[0].package, 0);
    assert_eq!(st.packages[0].path, vec![0]);
}

#[test]
fn all_packages_conflict_is_fatal_when_strict() {
    let packages = vec![pkg("x", "1.0", &[]), pkg("y", "1.0", &[]), pkg("x", "2.0", &[])];
    let mut st = State::new(spec("A"), lockfile(packages));
    st.phase = Phase::NameAndVersionIntersection;
    match st.add_packages() {
        Err(BuildError::VersionConflict { src, name, existing_version, new_version, path }) => {
            assert_eq!(src, "A");
            assert_eq!(name, "x");
            assert_eq!(existing_version, "1.0");
            assert_eq!(new_version, "2.0");
            assert_eq!(path, vec![2]);
        }
        _ => panic!("expected a version conflict"),
    }
}

#[test]
fn conflict_in_scope_fails_the_strict_pass() {
    let side = || {
        vec![
            pkg("r", "1.0", &[("x", "1.0"), ("y", "1.0")]),
            pkg("x", "1.0", &[]),
            pkg("y", "1.0", &[("x", "2.0")]),
            pkg("x", "2.0", &[]),
        ]
    };
    let mut sa = spec("A");
    sa.pkg_name = Some("r".to_string());
    let mut sb = spec("B");
    sb.pkg_name = Some("r".to_string());
    match compare(sa, side(), sb, side()) {
        Err(BuildError::VersionConflict { src, name, existing_version, new_version, path }) => {
            assert_eq!(src, "A");
            assert_eq!(name, "x");
            assert_eq!(existing_version, "1.0");
            assert_eq!(new_version, "2.0");
            assert_eq!(path, vec![0, 2, 3]);
        }
        _ => panic!("expected a version conflict"),
    }
}

#[test]
fn lenient_pass_keeps_first_version_seen() {
    let packages = vec![
        pkg("r", "1.0", &[("x", "1.0"), ("y", "1.0")]),
        pkg("x", "1.0", &[]),
        pkg("y", "1.0", &[("x", "2.0")]),
        pkg("x", "2.0", &[("z", "1.0")]),
        pkg("z", "1.0", &[]),
    ];
    let mut s = spec("A");
    s.pkg_name = Some("r".to_string());
    let mut st = State::new(s, lockfile(packages));
    st.add_packages().unwrap();
    assert_eq!(bound_names(&st), vec!["r", "x", "y"]);
}

#[test]
fn strict_rebuild_gives_the_same_universe() {
    let packages = || {
        vec![
            pkg("app", "1.0", &[("lib", "1.0"), ("util", "1.0")]),
            pkg("lib", "1.0", &[("util", "1.0")]),
            pkg("util", "1.0", &[]),
        ]
    };
    let build = || {
        let mut s = spec("A");
        s.pkg_name = Some("app".to_string());
        let mut st = State::new(s, lockfile(packages()));
        st.phase = Phase::NameAndVersionIntersection;
        st.add_packages().unwrap();
        st.packages.iter().map(|e| (e.package, e.path.clone())).collect::<Vec<_>>()
    };
    let first = build();
    assert_eq!(first, build());
    assert_eq!(first, vec![(0, vec![0]), (1, vec![0, 1]), (2, vec![0, 1, 2])]);
}

#[test]
fn unconstrained_intersection_counts_shared_names() {
    let a = vec![pkg("p", "1.0", &[]), pkg("q", "1.0", &[]), pkg("r", "1.0", &[]), pkg("p", "2.0", &[])];
    let b = vec![pkg("q", "3.0", &[]), pkg("r", "1.0", &[]), pkg("s", "1.0", &[])];
    let o = compare(spec("A"), a, spec("B"), b);
    // Lockfile A holds two versions of p, but p is not shared, so narrowing
    // removes it before the strict pass.
    let o = o.unwrap();
    assert_eq!(o.first.size_a, 3);
    assert_eq!(o.first.size_b, 3);
    assert_eq!(o.first.common, 2);
    assert_eq!(o.excluded_a, 1);
    assert_eq!(o.excluded_b, 1);
    assert_eq!(o.second.common, 2);
    assert_eq!(o.records[0].name, "q");
    assert!(!o.records[0].is_same());
    assert_eq!(o.records[1].name, "r");
    assert!(o.records[1].is_same());
    assert!(!o.all_same);
}

#[test]
fn report_is_in_ascending_name_order() {
    let a = vec![pkg("zeta", "1.0", &[]), pkg("alpha", "1.0", &[]), pkg("mid", "1.0", &[])];
    let b = vec![pkg("mid", "1.0", &[]), pkg("zeta", "1.0", &[]), pkg("alpha", "1.0", &[])];
    let o = compare(spec("A"), a, spec("B"), b).unwrap();
    let names: Vec<&str> = o.records.iter().map(|r| r.name.as_str()).collect();
    assert_eq!(names, vec!["alpha", "mid", "zeta"]);
    assert!(o.all_same);
}

#[test]
fn empty_lockfiles_have_nothing_in_common() {
    let o = compare(spec("A"), vec![], spec("B"), vec![pkg("x", "1.0", &[])]).unwrap();
    assert_eq!(o.first.common, 0);
    assert_eq!(o.second.common, 0);
    assert!(o.records.is_empty());
    assert!(o.all_same);
}

#[test]
fn comma_separated_list_splits_at_commas() {
    assert_eq!(comma_separated_list(&Some("a,b,c".to_string())), vec!["a", "b", "c"]);
    assert_eq!(comma_separated_list(&Some("serde".to_string())), vec!["serde"]);
    assert_eq!(comma_separated_list(&Some("a,,b".to_string())), vec!["a", "", "b"]);
    assert_eq!(comma_separated_list(&Some(String::new())), vec![""]);
    assert!(comma_separated_list(&None).is_empty());
}

#[test]
fn names_order_by_character() {
    assert!(str_lt("a", "b"));
    assert!(str_lt("ab", "abc"));
    assert!(!str_lt("abc", "ab"));
    assert!(!str_lt("same", "same"));
    assert!(str_lt("", "x"));
    assert!(str_lt("Z", "a"));
}

#[test]
fn path_is_written_with_arrows() {
    let g = lockfile(vec![pkg("a", "1.0", &[]), pkg("b", "2.0.1", &[]), pkg("c", "0.3", &[])]);
    assert_eq!(path_to_str(&g, &vec![0, 1, 2]), "a@1.0 -> b@2.0.1 -> c@0.3");
    assert_eq!(path_to_str(&g, &vec![1]), "b@2.0.1");
    assert_eq!(path_to_str(&g, &vec![]), "");
}

#[test]
fn missing_root_leaves_the_universe_empty() {
    let mut s = spec("A");
    s.pkg_name = Some("nothing".to_string());
    let mut st = State::new(s, lockfile(vec![pkg("x", "1.0", &[])]));
    assert!(matches!(st.add_packages(), Err(BuildError::RootNotFound { .. })));
    assert!(st.packages.is_empty());
}

#[test]
fn failed_strict_rebuilds_report_the_same_conflict() {
    let build = || {
        let packages = vec![
            pkg("r", "1.0", &[("x", "1.0"), ("y", "1.0")]),
            pkg("x", "1.0", &[]),
            pkg("y", "1.0", &[("x", "2.0")]),
            pkg("x", "2.0", &[]),
        ];
        let mut s = spec("A");
        s.pkg_name = Some("r".to_string());
        let mut st = State::new(s, lockfile(packages));
        st.phase = Phase::NameAndVersionIntersection;
        match st.add_packages() {
            Err(BuildError::VersionConflict { name, existing_version, new_version, path, .. }) => {
                (name, existing_version, new_version, path)
            }
            _ => panic!("expected a version conflict"),
        }
    };
    let first = build();
    assert_eq!(first, build());
    assert_eq!(first, ("x".to_string(), "1.0".to_string(), "2.0".to_string(), vec![0, 2, 3]));
}
