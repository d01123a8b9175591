use qipi::graph::{dep_keys_of, key_of_manifest, CatalogueSet, DAGBuilder, DAGNode, DependencyGraph};
use qipi::registry::{DistInfo, PackageCache, PackageVersion, RequestPackage};

fn dist(name: &str, version: &str) -> DistInfo {
    DistInfo {
        tarball: format!("https://registry.npmjs.org/{name}/-/{name}-{version}.tgz"),
        shasum: "0000000000000000000000000000000000000000".to_string(),
        integrity: None,
        file_count: None,
        unpacked_size: None,
    }
}

fn manifest(name: &str, version: &str, deps: &[(&str, &str)]) -> PackageVersion {
    let dependencies = if deps.is_empty() {
        None
    } else {
        Some(
            deps.iter()
                .map(|(n, r)| (n.to_string(), r.to_string()))
                .collect(),
        )
    };
    PackageVersion {
        name: name.to_string(),
        version: version.to_string(),
        dependencies,
        dev_dependencies: None,
        peer_dependencies: None,
        optional_dependencies: None,
        dist: dist(name, version),
        engines: None,
        bin: None,
        deprecated: None,
    }
}

fn catalogue(cats: &mut CatalogueSet, name: &str, versions: &[(&str, &[(&str, &str)])]) {
    let listing = versions
        .iter()
        .map(|(v, deps)| (v.to_string(), manifest(name, v, deps)))
        .collect();
    cats.insert(name.to_string(), listing);
}

fn request(name: &str, range: Option<&str>) -> RequestPackage {
    RequestPackage {
        name: name.to_string(),
        version: range.map(|r| r.to_string()),
    }
}

#[test]
fn exact_install_graph_and_order() {
    let mut cats = CatalogueSet::new();
    catalogue(&mut cats, "left-pad", &[("1.3.0", &[])]);
    let mut builder = DAGBuilder::new();
    let (graph, needed) = builder.build(request("left-pad", Some("1.3.0")), &cats);
    assert!(needed.is_empty());
    assert_eq!(graph.len(), 1);
    assert!(graph.contains_key("left-pad@1.3.0"));
    let order = graph.topological_sort();
    assert_eq!(order, vec!["left-pad@1.3.0".to_string()]);
}

#[test]
fn transitive_cycle_terminates_with_both_nodes() {
    let mut cats = CatalogueSet::new();
    catalogue(&mut cats, "a", &[("1.0.0", &[("b", "1.0.0")])]);
    catalogue(&mut cats, "b", &[("1.0.0", &[("a", "1.0.0")])]);
    let mut builder = DAGBuilder::new();
    let (graph, needed) = builder.build(request("a", Some("1.0.0")), &cats);
    assert!(needed.is_empty());
    assert_eq!(graph.len(), 2);
    assert!(graph.contains_key("a@1.0.0"));
    assert!(graph.contains_key("b@1.0.0"));
    let order = graph.topological_sort();
    assert_eq!(order.len(), 2);
    assert!(order.contains(&"a@1.0.0".to_string()));
    assert!(order.contains(&"b@1.0.0".to_string()));
}

#[test]
fn unresolvable_root_is_absent_from_graph() {
    let mut cats = CatalogueSet::new();
    catalogue(&mut cats, "pkg", &[("8.5.0", &[])]);
    let mut builder = DAGBuilder::new();
    let (graph, needed) = builder.build(request("pkg", Some("^9.0.0")), &cats);
    assert!(needed.is_empty());
    assert_eq!(graph.len(), 0);
    assert!(!graph.contains_key("pkg@8.5.0"));
}

#[test]
fn duplicate_dependency_resolves_once_and_first() {
    let mut cats = CatalogueSet::new();
    catalogue(&mut cats, "pkg-a", &[("1.0.0", &[("pkg-c", "^1.0.0")])]);
    catalogue(&mut cats, "pkg-b", &[("1.0.0", &[("pkg-c", "^1.0.0")])]);
    catalogue(&mut cats, "pkg-c", &[("1.2.3", &[])]);
    let mut builder = DAGBuilder::new();
    let (resolved, needed) = builder.build_missing_only(
        vec![request("pkg-a", Some("1.0.0")), request("pkg-b", Some("1.0.0"))],
        &cats,
    );
    assert!(needed.is_empty());
    let mut keys: Vec<String> = resolved.iter().map(key_of_manifest).collect();
    keys.sort();
    assert_eq!(
        keys,
        vec![
            "pkg-a@1.0.0".to_string(),
            "pkg-b@1.0.0".to_string(),
            "pkg-c@1.2.3".to_string()
        ]
    );

    // Assemble the graph and check the installation order puts the shared
    // dependency before both dependents. Dependency keys go through the
    // resolution cache, so the caret request names its concrete node.
    let mut graph = DependencyGraph::with_capacity(resolved.len());
    for info in resolved {
        let node = DAGNode {
            package: key_of_manifest(&info),
            dependencies: builder.resolved_dep_keys(&info),
            info,
        };
        graph.add_node(node);
    }
    let order = graph.topological_sort();
    assert_eq!(order.len(), 3);
    let pos = |k: &str| order.iter().position(|x| x == k).unwrap();
    assert!(pos("pkg-c@1.2.3") < pos("pkg-a@1.0.0"));
    assert!(pos("pkg-c@1.2.3") < pos("pkg-b@1.0.0"));
}

#[test]
fn missing_catalogues_are_reported_then_supplied() {
    let mut cats = CatalogueSet::new();
    catalogue(&mut cats, "root", &[("1.0.0", &[("leaf", "^2.0.0")])]);
    let mut builder = DAGBuilder::new();
    let (resolved, needed) = builder.build_missing_only(vec![request("root", Some("1.0.0"))], &cats);
    assert_eq!(resolved.len(), 1);
    assert_eq!(needed, vec!["leaf".to_string()]);

    catalogue(&mut cats, "leaf", &[("2.1.0", &[]), ("2.0.0", &[])]);
    let (resolved2, needed2) =
        builder.build_missing_only(vec![request("root", Some("1.0.0"))], &cats);
    assert!(needed2.is_empty());
    let mut keys: Vec<String> = resolved2.iter().map(key_of_manifest).collect();
    keys.sort();
    assert_eq!(keys, vec!["leaf@2.1.0".to_string(), "root@1.0.0".to_string()]);
}

#[test]
fn bare_request_takes_greatest_release() {
    let mut cats = CatalogueSet::new();
    catalogue(
        &mut cats,
        "tool",
        &[("1.0.0", &[]), ("2.0.0", &[]), ("3.0.0-rc.1", &[])],
    );
    let mut builder = DAGBuilder::new();
    let (graph, _) = builder.build(request("tool", None), &cats);
    assert!(graph.contains_key("tool@2.0.0"));
    assert!(!graph.contains_key("tool@3.0.0-rc.1"));
}

#[test]
fn resolution_cache_gives_equal_answers() {
    let mut cats = CatalogueSet::new();
    catalogue(&mut cats, "dep", &[("1.1.0", &[]), ("1.0.0", &[])]);
    let mut builder = DAGBuilder::new();
    let first = builder
        .resolve_single(&request("dep", Some("^1.0.0")), &cats)
        .expect("should resolve");
    let second = builder
        .resolve_single(&request("dep", Some("^1.0.0")), &cats)
        .expect("should resolve");
    assert_eq!(first.package, "dep@1.1.0");
    assert_eq!(second.package, first.package);
    assert_eq!(second.info.version, first.info.version);
}

#[test]
fn dependency_keys_keep_map_order() {
    let mut m = manifest("x", "1.0.0", &[("b", "^1.0.0"), ("a", "~2.0.0")]);
    m.optional_dependencies = Some(vec![("opt".to_string(), "*".to_string())]);
    m.peer_dependencies = Some(vec![("peer".to_string(), ">=1.0.0".to_string())]);
    let keys = dep_keys_of(&m);
    assert_eq!(
        keys,
        vec![
            "b@^1.0.0".to_string(),
            "a@~2.0.0".to_string(),
            "opt@*".to_string(),
            "peer@>=1.0.0".to_string()
        ]
    );
}

#[test]
fn graph_insert_replaces_under_same_key() {
    let mut graph = DependencyGraph::new();
    let m1 = manifest("x", "1.0.0", &[]);
    let m2 = manifest("x", "1.0.0", &[("y", "*")]);
    graph.add_node(DAGNode {
        package: key_of_manifest(&m1),
        dependencies: dep_keys_of(&m1),
        info: m1,
    });
    graph.add_node(DAGNode {
        package: key_of_manifest(&m2),
        dependencies: dep_keys_of(&m2),
        info: m2,
    });
    assert_eq!(graph.len(), 1);
    let node = graph.get("x@1.0.0").expect("node should be present");
    assert_eq!(node.dependencies, vec!["y@*".to_string()]);
    assert!(graph.get("y@1.0.0").is_none());
}

#[test]
fn chain_orders_dependencies_first() {
    let mut graph = DependencyGraph::new();
    for (name, deps) in [
        ("top", vec![("mid", "1.0.0")]),
        ("mid", vec![("base", "1.0.0")]),
        ("base", vec![]),
    ] {
        let m = manifest(name, "1.0.0", &deps);
        graph.add_node(DAGNode {
            package: key_of_manifest(&m),
            dependencies: dep_keys_of(&m),
            info: m,
        });
    }
    // Dependency keys name concrete versions here, so edges land in the
    // graph.
    let order = graph.topological_sort();
    assert_eq!(
        order,
        vec![
            "base@1.0.0".to_string(),
            "mid@1.0.0".to_string(),
            "top@1.0.0".to_string()
        ]
    );
}

#[test]
fn catalogue_cache_obeys_its_ttl() {
    let mut cache = PackageCache::new();
    let listing = vec![("1.0.0".to_string(), manifest("thing", "1.0.0", &[]))];
    cache.insert("thing".to_string(), listing, 100);
    let hit = cache.lookup("thing", 100 + qipi::registry::CACHE_TTL_SECS);
    assert!(hit.is_some());
    assert_eq!(hit.unwrap().len(), 1);
    assert!(cache
        .lookup("thing", 101 + qipi::registry::CACHE_TTL_SECS)
        .is_none());
    assert!(cache.lookup("other", 100).is_none());
}

#[test]
fn catalogue_cache_insert_keeps_other_names() {
    let mut cache = PackageCache::new();
    let a = vec![("1.0.0".to_string(), manifest("alpha", "1.0.0", &[]))];
    let b = vec![("2.0.0".to_string(), manifest("beta", "2.0.0", &[]))];
    cache.insert("alpha".to_string(), a, 10);
    cache.insert("beta".to_string(), b, 10);
    let alpha = cache.lookup("alpha", 11).expect("entry should survive");
    assert_eq!(alpha[0].0, "1.0.0");
    let beta = cache.lookup("beta", 11).expect("entry should be present");
    assert_eq!(beta[0].0, "2.0.0");
}

#[test]
fn catalogue_cache_prunes_expired_on_overflow() {
    let mut cache = PackageCache::new();
    for i in 0..qipi::registry::CACHE_CAP + 1 {
        let name = format!("pkg{i}");
        let listing = vec![("1.0.0".to_string(), manifest(&name, "1.0.0", &[]))];
        cache.insert(name, listing, 0);
    }
    // Everything so far is stamped at zero; a late insert prunes it all.
    let late = 1000 + qipi::registry::CACHE_TTL_SECS;
    let listing = vec![("1.0.0".to_string(), manifest("fresh", "1.0.0", &[]))];
    cache.insert("fresh".to_string(), listing, late);
    assert!(cache.lookup("fresh", late).is_some());
    assert!(cache.lookup("pkg0", late).is_none());
}
