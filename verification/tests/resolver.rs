use pkg_resolve::packages::{Alternative, Dependency, PackageRecord, Packages};
use pkg_resolve::reach::{vec_contains, Walk};
use pkg_resolve::rounds::is_met_by_plan;
use pkg_resolve::solvers::SolverError;
use pkg_resolve::version::{Version, VersionRelation};

fn ver(text: &str, rank: u64) -> Option<Version> {
    Some(Version::new(text, rank))
}

fn any(package_num: i32) -> Alternative {
    Alternative { package_num, rel_version: None }
}

fn with(package_num: i32, op: VersionRelation, text: &str, rank: u64) -> Alternative {
    Alternative { package_num, rel_version: Some((op, Version::new(text, rank))) }
}

fn record(
    name: &str,
    installed: Option<Version>,
    available: Option<Version>,
    dependencies: Vec<Dependency>,
) -> PackageRecord {
    PackageRecord { name: name.to_string(), installed, available, md5sum: None, dependencies }
}

fn db(records: Vec<PackageRecord>) -> Packages {
    Packages::from_records(records).expect("records form a database")
}

#[test]
fn relations_compare_ranks() {
    let a = Version::new("1.0", 10);
    let b = Version::new("2.0", 20);
    assert!(a.satisfies(VersionRelation::StrictlyLess, &b));
    assert!(a.satisfies(VersionRelation::LessOrEqual, &b));
    assert!(!a.satisfies(VersionRelation::Equal, &b));
    assert!(!a.satisfies(VersionRelation::GreaterOrEqual, &b));
    assert!(!a.satisfies(VersionRelation::StrictlyGreater, &b));
    assert!(a.satisfies(VersionRelation::Equal, &Version::new("1.0", 10)));
    assert!(a.satisfies(VersionRelation::LessOrEqual, &Version::new("1.0", 10)));
    assert!(a.satisfies(VersionRelation::GreaterOrEqual, &Version::new("1.0", 10)));
    assert!(b.newer_than(&a));
    assert!(!a.newer_than(&a));
}

#[test]
fn from_records_refuses_a_target_out_of_range() {
    let records = vec![record("a", None, None, vec![vec![any(1)]])];
    assert!(Packages::from_records(records).is_none());
    let records = vec![record("a", None, None, vec![vec![any(-1)]])];
    assert!(Packages::from_records(records).is_none());
}

#[test]
fn from_records_refuses_a_name_given_twice() {
    let records = vec![record("a", None, None, vec![]), record("a", None, None, vec![])];
    assert!(Packages::from_records(records).is_none());
}

#[test]
fn from_records_starts_with_a_fresh_engine() {
    let p = db(vec![record("a", None, None, vec![vec![any(0)]])]);
    assert_eq!(p.async_state.server, "ece459.patricklam.ca:4590");
    assert_eq!(p.async_state.next_key, 0);
    assert!(p.async_state.pending.is_empty());
    assert_eq!(p.records.len(), 1);
}

#[test]
fn lookups_by_name_and_number() {
    let mut b = record("b", ver("1.2", 12), ver("1.3", 13), vec![]);
    b.md5sum = Some("abc".to_string());
    let p = db(vec![record("a", None, None, vec![]), b]);
    assert!(p.package_exists("a"));
    assert!(!p.package_exists("c"));
    assert_eq!(p.get_package_num("b"), Some(1));
    assert_eq!(p.get_package_num("c"), None);
    assert_eq!(p.get_package_name(1), Some("b"));
    assert_eq!(p.get_package_name(2), None);
    assert_eq!(p.get_package_name(-1), None);
    assert_eq!(p.get_installed_debver("b").map(|v| v.rank), Some(12));
    assert_eq!(p.get_available_debver("b").map(|v| v.text.as_str()), Some("1.3"));
    assert!(p.get_installed_debver("a").is_none());
    assert!(p.get_available_debver("c").is_none());
    assert_eq!(p.get_md5sum("b"), Some("abc"));
    assert_eq!(p.get_md5sum("a"), None);
    assert_eq!(p.find("b").map(|r| r.name.as_str()), Some("b"));
    assert!(p.find("zz").is_none());
}

#[test]
fn dependency_is_satisfied_by_the_first_match() {
    let p = db(vec![
        record("root", None, None, vec![]),
        record("a", None, ver("1.0", 10), vec![]),
        record("b", ver("2.0", 20), None, vec![]),
        record("c", ver("3.0", 30), None, vec![]),
    ]);
    // a is not installed; b and c both are: b comes first.
    assert_eq!(p.dep_is_satisfied(&vec![any(1), any(2), any(3)]), Some("b"));
    assert_eq!(p.dep_is_satisfied(&vec![any(3), any(2)]), Some("c"));
    assert_eq!(p.dep_is_satisfied(&vec![any(1)]), None);
    assert_eq!(p.dep_is_satisfied(&vec![]), None);
}

#[test]
fn dependency_constraint_is_tested_against_the_installed_version() {
    let p = db(vec![
        record("b", ver("2.0", 20), None, vec![]),
        record("c", ver("3.0", 30), None, vec![]),
    ]);
    let ge_25 = |n: i32| with(n, VersionRelation::GreaterOrEqual, "2.5", 25);
    assert_eq!(p.dep_is_satisfied(&vec![ge_25(0), ge_25(1)]), Some("c"));
    assert_eq!(p.dep_is_satisfied(&vec![ge_25(0)]), None);
    assert_eq!(
        p.dep_is_satisfied(&vec![with(0, VersionRelation::Equal, "2.0", 20)]),
        Some("b")
    );
    assert_eq!(
        p.dep_is_satisfied(&vec![with(0, VersionRelation::StrictlyLess, "2.0", 20)]),
        None
    );
}

#[test]
fn dependency_on_an_unknown_number_is_not_satisfied() {
    let p = db(vec![record("a", ver("1.0", 10), None, vec![])]);
    assert_eq!(p.dep_is_satisfied(&vec![any(7), any(-3)]), None);
    assert_eq!(p.dep_is_satisfied(&vec![any(7), any(0)]), Some("a"));
}

#[test]
fn wrong_version_lists_installed_alternatives_that_fail() {
    let p = db(vec![
        record("a", None, ver("9.0", 90), vec![]),
        record("b", ver("2.0", 20), None, vec![]),
        record("c", ver("3.0", 30), None, vec![]),
    ]);
    let dd = vec![
        with(0, VersionRelation::GreaterOrEqual, "5.0", 50),
        with(1, VersionRelation::GreaterOrEqual, "5.0", 50),
        with(2, VersionRelation::StrictlyGreater, "3.0", 30),
    ];
    assert_eq!(p.dep_is_satisfied(&dd), None);
    assert_eq!(p.dep_satisfied_by_wrong_version(&dd), vec!["b", "c"]);
    assert_eq!(p.wrong_version_nums(&dd), vec![1, 2]);
    let none_installed = vec![any(0)];
    assert!(p.dep_satisfied_by_wrong_version(&none_installed).is_empty());
}

#[test]
fn picks_the_greatest_available_version_among_all() {
    // Nothing installed; available versions 1.0, 2.0, 1.5.
    let p = db(vec![
        record("a", None, ver("1.0", 10), vec![]),
        record("b", None, ver("2.0", 20), vec![]),
        record("c", None, ver("1.5", 15), vec![]),
    ]);
    let dd = vec![any(0), any(1), any(2)];
    assert_eq!(p.pick_alternative_to_install(&dd), Some(1));
}

#[test]
fn picks_among_wrong_versions_where_there_are_any() {
    // a and b are installed in a wrong version, with available versions
    // 1.0 and 3.0; c is not installed and would be newest of all.
    let p = db(vec![
        record("a", ver("0.1", 1), ver("1.0", 10), vec![]),
        record("b", ver("0.2", 2), ver("3.0", 30), vec![]),
        record("c", None, ver("9.0", 90), vec![]),
    ]);
    let ge = |n: i32| with(n, VersionRelation::GreaterOrEqual, "0.5", 5);
    let dd = vec![ge(0), ge(1), ge(2)];
    assert_eq!(p.pick_alternative_to_install(&dd), Some(1));
}

#[test]
fn pick_keeps_the_first_among_equals() {
    let p = db(vec![
        record("a", None, ver("2.0", 20), vec![]),
        record("b", None, ver("2.0", 20), vec![]),
        record("c", None, None, vec![]),
    ]);
    assert_eq!(p.pick_alternative_to_install(&vec![any(2), any(0), any(1)]), Some(0));
    assert_eq!(p.best_available(&vec![1, 0, 2]), Some(1));
}

#[test]
fn pick_is_nothing_without_an_available_version() {
    let p = db(vec![
        record("a", None, None, vec![]),
        record("b", ver("1.0", 10), None, vec![]),
        record("c", None, ver("5.0", 50), vec![]),
    ]);
    assert_eq!(p.pick_alternative_to_install(&vec![any(0)]), None);
    assert_eq!(p.pick_alternative_to_install(&vec![]), None);
    // b is installed in a wrong version and has no available version: the
    // choice is among the wrong versions only, so c is not taken.
    let dd = vec![with(1, VersionRelation::GreaterOrEqual, "2.0", 20), any(2)];
    assert_eq!(p.dep_is_satisfied(&dd), None);
    assert_eq!(p.pick_alternative_to_install(&dd), None);
}

fn chain() -> Packages {
    // root -> (a | b), c ; a -> d ; c -> a, root ; d -> (nothing)
    db(vec![
        record("root", None, None, vec![vec![any(1), any(2)], vec![any(3)], vec![]]),
        record("a", None, None, vec![vec![any(4)]]),
        record("b", None, None, vec![vec![any(5)]]),
        record("c", None, None, vec![vec![any(1)], vec![any(0)]]),
        record("d", None, None, vec![]),
        record("e", None, None, vec![]),
    ])
}

#[test]
fn closure_follows_first_alternatives_in_discovery_order() {
    let p = chain();
    assert_eq!(p.transitive_dep_solution("root"), Ok(vec![1, 3, 4, 0]));
    assert_eq!(p.transitive_dep_solution("a"), Ok(vec![4]));
    assert_eq!(p.transitive_dep_solution("d"), Ok(vec![]));
    assert_eq!(p.transitive_dep_solution("b"), Ok(vec![5]));
}

#[test]
fn unknown_package_is_an_error() {
    let p = chain();
    assert_eq!(p.transitive_dep_solution("nope"), Err(SolverError::UnknownPackage));
    assert_eq!(p.compute_how_to_install("nope"), Err(SolverError::UnknownPackage));
}

#[test]
fn closure_has_no_duplicates_and_is_a_fixed_point() {
    let p = db(vec![
        record("root", None, None, vec![vec![any(1)], vec![any(1)], vec![any(2)]]),
        record("a", None, None, vec![vec![any(2)], vec![any(1)]]),
        record("b", None, None, vec![vec![any(1)]]),
    ]);
    let mut set = p.transitive_dep_solution("root").unwrap();
    assert_eq!(set, vec![1, 2]);
    let before = set.clone();
    for q in before.iter() {
        assert!(!p.expand(Walk::FirstAlternatives, false, *q, &mut set));
    }
    assert!(!p.expand(Walk::FirstAlternatives, true, 0, &mut set));
    assert_eq!(set, before);
}

#[test]
fn expand_appends_what_is_new_only() {
    let p = chain();
    let mut set = vec![3];
    assert!(p.expand(Walk::FirstAlternatives, false, 0, &mut set));
    assert_eq!(set, vec![3, 1]);
    assert!(!p.expand(Walk::FirstAlternatives, false, 17, &mut set));
    assert_eq!(set, vec![3, 1]);
    assert!(vec_contains(&set, 1));
    assert!(!vec_contains(&set, 2));
    assert_eq!(p.closure(Walk::FirstAlternatives, 3), vec![1, 0, 4, 3]);
}

fn installable() -> Packages {
    // root needs lib (>= 2), tool | alt, and base.
    // lib is installed as 1.0, available as 2.0, and needs extra.
    // tool and alt are not installed; alt is newer. alt needs base and lib.
    // base is installed. extra is not installed and has no dependencies.
    db(vec![
        record(
            "root",
            None,
            None,
            vec![
                vec![with(1, VersionRelation::GreaterOrEqual, "2.0", 20)],
                vec![any(2), any(3)],
                vec![any(4)],
            ],
        ),
        record("lib", ver("1.0", 10), ver("2.0", 20), vec![vec![any(5)]]),
        record("tool", None, ver("1.0", 10), vec![]),
        record("alt", None, ver("1.1", 11), vec![vec![any(4)], vec![any(1)]]),
        record("base", ver("1.0", 10), ver("1.0", 10), vec![vec![any(5)]]),
        record("extra", None, ver("0.1", 1), vec![]),
    ])
}

#[test]
fn plan_holds_the_picks_for_unsatisfied_dependencies() {
    let p = installable();
    assert_eq!(p.compute_how_to_install("root"), Ok(vec![1, 3, 5]));
    // base is installed, so nothing is planned on its account; extra is
    // in the plan only because lib needs it.
    assert_eq!(p.compute_how_to_install("alt"), Ok(vec![]));
    assert_eq!(p.compute_how_to_install("base"), Ok(vec![5]));
}

#[test]
fn plan_is_a_fixed_point() {
    let p = installable();
    let mut plan = p.compute_how_to_install("root").unwrap();
    let before = plan.clone();
    assert!(!p.expand(Walk::Install, true, 0, &mut plan));
    for q in before.iter() {
        assert!(!p.expand(Walk::Install, false, *q, &mut plan));
    }
    assert_eq!(plan, before);
}

#[test]
fn target_of_a_dependency() {
    let p = installable();
    let dd = vec![any(2), any(3)];
    assert_eq!(p.target_of(Walk::FirstAlternatives, &dd), Some(2));
    assert_eq!(p.target_of(Walk::Install, &dd), Some(3));
    assert_eq!(p.target_of(Walk::Install, &vec![any(4)]), None);
    assert_eq!(p.target_of(Walk::FirstAlternatives, &vec![]), None);
}

#[test]
fn report_on_the_dependencies_of_a_package() {
    let p = installable();
    assert_eq!(p.deps_available("root"), Some(vec![None, None, Some("base")]));
    assert_eq!(p.deps_available("alt"), Some(vec![Some("base"), Some("lib")]));
    assert_eq!(p.deps_available("extra"), Some(vec![]));
    assert_eq!(p.deps_available("nope"), None);
}

#[test]
fn dependency_met_by_the_plan_is_passed_over() {
    // Nothing is installed. root needs a, and c; a needs c | b, and b is
    // the newest. c is in the plan when a's dependency is looked at.
    let p = db(vec![
        record("root", None, None, vec![vec![any(1)], vec![any(3)]]),
        record("a", None, ver("1.0", 10), vec![vec![any(3), any(2)]]),
        record("b", None, ver("2.0", 20), vec![]),
        record("c", None, ver("1.0", 10), vec![]),
    ]);
    assert_eq!(p.compute_how_to_install("root"), Ok(vec![1, 3]));
    // Asked for a itself, its dependency is one of the package asked for,
    // and only what is installed counts: the newest alternative is taken.
    assert_eq!(p.compute_how_to_install("a"), Ok(vec![2]));
}

#[test]
fn membership_counts_whatever_the_constraint() {
    // root needs lib; lib needs core (>= 5) | new. core is picked for root's
    // second dependency first, so lib's dependency is passed over although
    // the version of core to install is below 5.
    let p = db(vec![
        record(
            "root",
            None,
            None,
            vec![vec![any(2)], vec![any(1)]],
        ),
        record(
            "lib",
            None,
            ver("1.0", 10),
            vec![vec![with(2, VersionRelation::GreaterOrEqual, "5.0", 50), any(3)]],
        ),
        record("core", None, ver("2.0", 20), vec![]),
        record("new", None, ver("9.0", 90), vec![]),
    ]);
    assert_eq!(p.compute_how_to_install("root"), Ok(vec![2, 1]));
}

#[test]
fn seeding_looks_at_what_is_installed_only() {
    // root needs a, and a | b with b the newer: a is in the plan when the
    // second dependency is looked at, but while the plan is seeded only
    // installed packages satisfy.
    let p = db(vec![
        record("root", None, None, vec![vec![any(1)], vec![any(1), any(2)]]),
        record("a", None, ver("1.0", 10), vec![]),
        record("b", None, ver("2.0", 20), vec![]),
    ]);
    assert_eq!(p.compute_how_to_install("root"), Ok(vec![1, 2]));
}

#[test]
fn nothing_to_install_when_all_is_satisfied() {
    let p = db(vec![
        record("root", None, None, vec![vec![any(1)], vec![any(2), any(1)]]),
        record("a", ver("1.0", 10), ver("2.0", 20), vec![vec![any(2)]]),
        record("b", None, ver("2.0", 20), vec![]),
    ]);
    assert_eq!(p.compute_how_to_install("root"), Ok(vec![]));
}

#[test]
fn closure_is_the_same_whatever_is_installed() {
    let deps = || {
        vec![
            (vec![vec![any(2), any(1)], vec![any(3)]]),
            (vec![vec![any(0)]]),
            (vec![vec![any(1)], vec![any(3)]]),
            (vec![]),
        ]
    };
    let names = ["root", "a", "b", "c"];
    let mut bare = Vec::new();
    let mut full = Vec::new();
    for (i, d) in deps().into_iter().enumerate() {
        bare.push(record(names[i], None, None, d));
    }
    for (i, d) in deps().into_iter().enumerate() {
        full.push(record(names[i], ver("1.0", 10 + i as u64), ver("2.0", 20 - i as u64), d));
    }
    let one = db(bare).transitive_dep_solution("root");
    let two = db(full).transitive_dep_solution("root");
    assert_eq!(one, Ok(vec![2, 3, 1, 0]));
    assert_eq!(one, two);
}

#[test]
fn plan_meets_a_dependency_by_any_alternative() {
    let dd = vec![any(4), any(7)];
    assert!(is_met_by_plan(&vec![1, 7], &dd));
    assert!(!is_met_by_plan(&vec![1, 2], &dd));
    assert!(!is_met_by_plan(&vec![], &dd));
    assert!(!is_met_by_plan(&vec![1], &vec![]));
}

#[test]
fn advance_looks_at_one_dependency() {
    let p = installable();
    let dd = vec![any(2), any(3)];
    let mut plan = vec![2];
    p.advance(Walk::Install, false, &dd, &mut plan);
    assert_eq!(plan, vec![2]);
    p.advance(Walk::Install, true, &dd, &mut plan);
    assert_eq!(plan, vec![2, 3]);
    p.advance(Walk::Install, true, &dd, &mut plan);
    assert_eq!(plan, vec![2, 3]);
    let mut set = vec![];
    p.advance(Walk::FirstAlternatives, false, &dd, &mut set);
    assert_eq!(set, vec![2]);
}
