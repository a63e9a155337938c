use guppy::graph::{DepInput, DepKind, GraphError, PackageGraph, PackageInput, ResolveNode};
use guppy::hakari::{HakariBuilder, HakariError, UnifyTargetHost};
use guppy::triple::{CfgExpr, Platform, Triple};
use guppy::unify::ResolverVersion;

fn package(id: &str, features: &[&str], implies: Vec<(usize, usize)>, defaults: Vec<usize>) -> PackageInput {
    PackageInput {
        id: id.to_string(),
        name: id.to_string(),
        version: "1.0.0".to_string(),
        features: features.iter().map(|f| f.to_string()).collect(),
        implies,
        defaults,
    }
}

fn dep(target: &str, condition: Option<CfgExpr>, activated_by: Option<usize>, features: Vec<usize>) -> DepInput {
    DepInput { target: target.to_string(), kind: DepKind::Normal, condition, activated_by, features, default_features: false }
}

fn node(id: &str, deps: Vec<DepInput>) -> ResolveNode {
    ResolveNode { id: id.to_string(), deps, features: vec![] }
}

/// A (member, feature `x` implies `y`, `x` on by default, depends on C when `x` is on),
/// B (member, no features), C (not a member, one feature `c`), D (member).
fn scenario_graph() -> PackageGraph {
    let packages = vec![
        package("a", &["x", "y"], vec![(0, 1)], vec![0]),
        package("b", &[], vec![], vec![]),
        package("c", &["c"], vec![], vec![]),
        package("d", &[], vec![], vec![]),
    ];
    let members = vec!["a".to_string(), "b".to_string(), "d".to_string()];
    let resolve = vec![
        node("a", vec![dep("c", None, Some(0), vec![])]),
        node("b", vec![]),
        node("c", vec![]),
        node("d", vec![]),
    ];
    PackageGraph::new(packages, members, Some(resolve)).unwrap()
}

/// Member M depends on T only on Linux, and T's feature `t` is turned on by that edge.
fn conditional_graph() -> PackageGraph {
    let packages = vec![package("m", &[], vec![], vec![]), package("t", &["t"], vec![], vec![])];
    let cond = CfgExpr::Key("target_os".to_string(), "linux".to_string());
    let resolve = vec![node("m", vec![dep("t", Some(cond), None, vec![0])]), node("t", vec![])];
    PackageGraph::new(packages, vec!["m".to_string()], Some(resolve)).unwrap()
}

fn platform(s: &str) -> Platform {
    Platform::new(Triple::from_str(s).unwrap(), vec![])
}

fn all_builders(g: &PackageGraph) -> Vec<HakariBuilder> {
    let mut out = Vec::new();
    for hakari in [None, Some("a".to_string()), Some("d".to_string())] {
        for verify in [false, true] {
            for unify_all in [false, true] {
                for omitted in [vec![], vec!["b".to_string()], vec!["d".to_string(), "a".to_string()]] {
                    let mut b = HakariBuilder::new(g, hakari.as_ref()).expect("HakariBuilder::new returned an error");
                    b.set_platforms(vec![platform("x86_64-unknown-linux-gnu"), platform("x86_64-pc-windows-msvc")]);
                    b.set_resolver_version(if unify_all { ResolverVersion::V1 } else { ResolverVersion::V2 });
                    b.set_verify_mode(verify);
                    b.add_omitted_packages(g, &omitted).expect("omitted packages obtained from PackageGraph should work");
                    b.set_unify_target_host(if verify { UnifyTargetHost::Unified } else { UnifyTargetHost::Independent });
                    b.set_unify_all(unify_all);
                    b.set_dev_inclusion(verify);
                    out.push(b);
                }
            }
        }
    }
    out
}

#[test]
fn builder_summary_roundtrip() {
    let g = scenario_graph();
    for builder in all_builders(&g) {
        let summary = builder.to_summary(&g);
        let builder2 = summary.to_hakari_builder(&g).expect("summary -> builder conversion failed");
        let summary2 = builder2.to_summary(&g);
        assert_eq!(builder.hakari_package(), builder2.hakari_package(), "builder roundtripped correctly");
        assert_eq!(builder.resolver_version(), builder2.resolver_version(), "builder roundtripped correctly");
        assert_eq!(builder.verify_mode(), builder2.verify_mode(), "builder roundtripped correctly");
        assert_eq!(builder.omitted_indices(), builder2.omitted_indices(), "builder roundtripped correctly");
        assert_eq!(builder.unify_target_host(), builder2.unify_target_host(), "builder roundtripped correctly");
        assert_eq!(builder.unify_all(), builder2.unify_all(), "builder roundtripped correctly");
        assert_eq!(builder.dev_inclusion(), builder2.dev_inclusion(), "builder roundtripped correctly");
        let names = |b: &HakariBuilder| b.platforms().iter().map(|p| p.triple.as_str().to_string()).collect::<Vec<_>>();
        assert_eq!(names(&builder), names(&builder2), "builder roundtripped correctly");
        assert_eq!(builder.compute(&g), builder2.compute(&g), "builder roundtripped correctly");
        assert_eq!(format!("{:?}", summary), format!("{:?}", summary2), "summary roundtripped correctly");
    }
}

#[test]
fn omitted_packages() {
    let g = scenario_graph();
    for builder in all_builders(&g) {
        if !builder.verify_mode() {
            if let Some(p) = builder.hakari_package() {
                let id = g.package(p).id.clone();
                assert!(
                    builder.omits_package(&g, &id).expect("valid package ID"),
                    "verify mode is false => hakari package is omitted"
                );
            }
        }
        let omitted = builder.omitted_packages(&g);
        for q in 0..g.num_packages() {
            let id = g.package(q).id.clone();
            assert_eq!(
                omitted.contains(&q),
                builder.omits_package(&g, &id).expect("valid package ID"),
                "omitted_packages and omits_package match"
            );
        }
    }
}

#[test]
fn scenario_features_propagate_from_defaults() {
    let g = scenario_graph();
    let b = HakariBuilder::new(&g, None).unwrap();
    let r = b.compute(&g);
    assert_eq!(r[0], vec![true, true, true]);
    assert_eq!(r[1], vec![true]);
    assert_eq!(r[2], vec![true, false]);
    assert_eq!(r[3], vec![true]);
}

#[test]
fn scenario_union_across_platforms() {
    let g = conditional_graph();
    let mut b = HakariBuilder::new(&g, None).unwrap();
    b.set_platforms(vec![platform("x86_64-unknown-linux-gnu"), platform("x86_64-pc-windows-msvc")]);
    let r = b.compute(&g);
    assert_eq!(r[1], vec![true, true]);
    b.set_platforms(vec![platform("x86_64-pc-windows-msvc")]);
    let r = b.compute(&g);
    assert_eq!(r[1], vec![false, false]);
}

#[test]
fn resolver_v1_ignores_conditions() {
    let g = conditional_graph();
    let mut b = HakariBuilder::new(&g, None).unwrap();
    b.set_platforms(vec![platform("x86_64-pc-windows-msvc")]);
    b.set_resolver_version(ResolverVersion::V1);
    assert_eq!(b.compute(&g)[1], vec![true, true]);
}

#[test]
fn no_platforms_means_no_filter() {
    let g = conditional_graph();
    let b = HakariBuilder::new(&g, None).unwrap();
    assert_eq!(b.compute(&g)[1], vec![true, true]);
}

#[test]
fn compute_is_deterministic() {
    let g = scenario_graph();
    for b in all_builders(&g) {
        assert_eq!(b.compute(&g), b.compute(&g));
    }
}

#[test]
fn adding_a_platform_keeps_features() {
    let g = conditional_graph();
    let mut b = HakariBuilder::new(&g, None).unwrap();
    b.set_platforms(vec![platform("x86_64-unknown-linux-gnu")]);
    let before = b.compute(&g);
    b.set_platforms(vec![platform("x86_64-unknown-linux-gnu"), platform("x86_64-pc-windows-msvc")]);
    let after = b.compute(&g);
    for (r1, r2) in before.iter().zip(after.iter()) {
        for (x, y) in r1.iter().zip(r2.iter()) {
            assert!(!*x || *y);
        }
    }
}

#[test]
fn omitted_package_is_cleared() {
    let g = scenario_graph();
    let mut b = HakariBuilder::new(&g, Some(&"d".to_string())).unwrap();
    b.add_omitted_packages(&g, &vec!["a".to_string()]).unwrap();
    let r = b.compute(&g);
    assert_eq!(r[0], vec![false, false, false]);
    assert_eq!(r[2], vec![true, false]);
    assert_eq!(r[3], vec![true]);
    b.set_verify_mode(false);
    assert_eq!(b.compute(&g)[3], vec![false]);
    assert_eq!(b.omitted_packages(&g), vec![0, 3]);
}

#[test]
fn invalid_omitted_packages_are_rejected() {
    let g = scenario_graph();
    let mut b = HakariBuilder::new(&g, None).unwrap();
    assert_eq!(
        b.add_omitted_packages(&g, &vec!["c".to_string()]),
        Err(HakariError::InvalidOmittedPackage("c".to_string()))
    );
    assert_eq!(
        b.add_omitted_packages(&g, &vec!["b".to_string(), "zz".to_string()]),
        Err(HakariError::InvalidOmittedPackage("zz".to_string()))
    );
    assert_eq!(b.omitted_packages(&g), Vec::<usize>::new());
    assert_eq!(b.omits_package(&g, &"zz".to_string()), Err(HakariError::UnknownPackage("zz".to_string())));
}

#[test]
fn aggregation_target_is_validated() {
    let g = scenario_graph();
    assert_eq!(
        HakariBuilder::new(&g, Some(&"zz".to_string())).unwrap_err(),
        HakariError::UnknownAggregationTarget("zz".to_string())
    );
    assert_eq!(
        HakariBuilder::new(&g, Some(&"c".to_string())).unwrap_err(),
        HakariError::NotWorkspaceMember("c".to_string())
    );
}

#[test]
fn empty_workspace_is_rejected() {
    let packages = vec![package("c", &[], vec![], vec![])];
    let g = PackageGraph::new(packages, vec![], Some(vec![node("c", vec![])])).unwrap();
    assert_eq!(HakariBuilder::new(&g, None).unwrap_err(), HakariError::EmptyWorkspace);
}

#[test]
fn bad_summary_platform_is_rejected() {
    let g = scenario_graph();
    let b = HakariBuilder::new(&g, None).unwrap();
    let mut s = b.to_summary(&g);
    s.platforms.push(guppy::summary::PlatformSummary { triple: "cannot-be-known".to_string(), target_features: vec![] });
    assert_eq!(
        s.to_hakari_builder(&g).unwrap_err(),
        HakariError::UnknownPlatform("cannot-be-known".to_string())
    );
}

#[test]
fn unsorted_summary_omissions_are_rejected() {
    let g = scenario_graph();
    let b = HakariBuilder::new(&g, None).unwrap();
    let mut s = b.to_summary(&g);
    s.omitted_packages = vec!["d".to_string(), "a".to_string()];
    assert_eq!(
        s.to_hakari_builder(&g).unwrap_err(),
        HakariError::InvalidOmittedPackage("a".to_string())
    );
}

#[test]
fn graph_errors() {
    let ps = || vec![package("a", &[], vec![], vec![]), package("b", &[], vec![], vec![])];
    assert_eq!(PackageGraph::new(ps(), vec![], None).unwrap_err(), GraphError::NoResolveData);
    let dup = vec![package("a", &[], vec![], vec![]), package("a", &[], vec![], vec![])];
    assert_eq!(
        PackageGraph::new(dup, vec![], Some(vec![])).unwrap_err(),
        GraphError::DuplicatePackageId("a".to_string())
    );
    assert_eq!(
        PackageGraph::new(ps(), vec![], Some(vec![node("a", vec![])])).unwrap_err(),
        GraphError::MissingResolveData("b".to_string())
    );
    assert_eq!(
        PackageGraph::new(ps(), vec![], Some(vec![node("a", vec![dep("zz", None, None, vec![])]), node("b", vec![])])).unwrap_err(),
        GraphError::UnknownDependency("a".to_string())
    );
    assert_eq!(
        PackageGraph::new(ps(), vec![], Some(vec![node("a", vec![dep("b", None, None, vec![3])]), node("b", vec![])])).unwrap_err(),
        GraphError::InvalidFeatureIndex("a".to_string())
    );
}

#[test]
fn graph_lookup_and_membership() {
    let g = scenario_graph();
    assert_eq!(g.num_packages(), 4);
    assert_eq!(g.find(&"c".to_string()), Some(2));
    assert_eq!(g.find(&"zz".to_string()), None);
    assert!(g.is_workspace_member(0));
    assert!(!g.is_workspace_member(2));
}

#[test]
fn dev_edges_count_only_when_included() {
    let packages = vec![package("m", &[], vec![], vec![]), package("t", &[], vec![], vec![])];
    let mut d = dep("t", None, None, vec![]);
    d.kind = DepKind::Development;
    let g = PackageGraph::new(packages, vec!["m".to_string()], Some(vec![node("m", vec![d]), node("t", vec![])])).unwrap();
    let mut b = HakariBuilder::new(&g, None).unwrap();
    assert_eq!(b.compute(&g)[1], vec![false]);
    b.set_dev_inclusion(true);
    assert_eq!(b.compute(&g)[1], vec![true]);
}

#[test]
fn edges_and_their_conditions() {
    let g = conditional_graph();
    let edges = g.direct_dependencies(0, DepKind::Normal);
    assert_eq!(edges, vec![0]);
    assert_eq!(g.clause(0).to, (1, 0));
    assert!(g.direct_dependencies(0, DepKind::Build).is_empty());
    assert!(g.direct_dependencies(1, DepKind::Normal).is_empty());
    assert!(g.is_edge_active(0, &platform("x86_64-unknown-linux-gnu")));
    assert!(!g.is_edge_active(0, &platform("x86_64-pc-windows-msvc")));
}

#[test]
fn closure_follows_edges_by_kind() {
    let g = scenario_graph();
    assert_eq!(g.transitive_closure(&vec![0], false), vec![true, false, true, false]);
    assert_eq!(g.transitive_closure(&vec![1, 3], false), vec![false, true, false, true]);
    assert_eq!(g.transitive_closure(&vec![], false), vec![false, false, false, false]);
    let packages = vec![package("m", &[], vec![], vec![]), package("t", &[], vec![], vec![])];
    let mut d = dep("t", None, None, vec![]);
    d.kind = DepKind::Development;
    let g = PackageGraph::new(packages, vec!["m".to_string()], Some(vec![node("m", vec![d]), node("t", vec![])])).unwrap();
    assert_eq!(g.transitive_closure(&vec![0], false), vec![true, false]);
    assert_eq!(g.transitive_closure(&vec![0], true), vec![true, true]);
}

#[test]
fn edge_target_features_and_defaults_are_kept() {
    let packages = vec![package("m", &[], vec![], vec![]), package("t", &["t", "u"], vec![], vec![1])];
    let mut d = dep("t", None, None, vec![0]);
    d.default_features = true;
    let resolve = vec![
        ResolveNode { id: "m".to_string(), deps: vec![d], features: vec![] },
        ResolveNode { id: "t".to_string(), deps: vec![], features: vec!["t".to_string(), "u".to_string()] },
    ];
    let g = PackageGraph::new(packages, vec!["m".to_string()], Some(resolve)).unwrap();
    assert_eq!(g.package(1).resolved_features, vec!["t".to_string(), "u".to_string()]);
    let b = HakariBuilder::new(&g, None).unwrap();
    assert_eq!(b.compute(&g)[1], vec![true, true, true]);
}

#[test]
fn bad_default_and_implication_indices_are_rejected() {
    let bad_default = vec![package("a", &["x"], vec![], vec![1])];
    assert_eq!(
        PackageGraph::new(bad_default, vec![], Some(vec![node("a", vec![])])).unwrap_err(),
        GraphError::InvalidFeatureIndex("a".to_string())
    );
    let bad_implies = vec![package("a", &["x"], vec![(0, 2)], vec![])];
    assert_eq!(
        PackageGraph::new(bad_implies, vec![], Some(vec![node("a", vec![])])).unwrap_err(),
        GraphError::InvalidFeatureIndex("a".to_string())
    );
}

#[test]
fn exact_triple_conditions() {
    let packages = vec![package("m", &[], vec![], vec![]), package("t", &[], vec![], vec![])];
    let cond = CfgExpr::Triple("x86_64-pc-windows-msvc".to_string());
    let resolve = vec![node("m", vec![dep("t", Some(cond), None, vec![])]), node("t", vec![])];
    let g = PackageGraph::new(packages, vec!["m".to_string()], Some(resolve)).unwrap();
    let mut b = HakariBuilder::new(&g, None).unwrap();
    b.set_platforms(vec![platform("x86_64-unknown-linux-gnu")]);
    assert_eq!(b.compute(&g)[1], vec![false]);
    b.set_platforms(vec![platform("x86_64-pc-windows-msvc")]);
    assert_eq!(b.compute(&g)[1], vec![true]);
}

#[test]
fn platform_order_and_repetition_do_not_matter() {
    let g = conditional_graph();
    let mut b = HakariBuilder::new(&g, None).unwrap();
    b.set_platforms(vec![platform("x86_64-unknown-linux-gnu"), platform("x86_64-pc-windows-msvc")]);
    let r1 = b.compute(&g);
    b.set_platforms(vec![
        platform("x86_64-pc-windows-msvc"),
        platform("x86_64-unknown-linux-gnu"),
        platform("x86_64-pc-windows-msvc"),
    ]);
    assert_eq!(b.compute(&g), r1);
}
