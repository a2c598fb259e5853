use spyglass::rank::hop_distances;

fn edges(v: &[(&str, &str)]) -> Vec<(String, String)> {
    v.iter().map(|(a, b)| (a.to_string(), b.to_string())).collect()
}

fn dist(out: &[(String, usize)], v: &str) -> Option<usize> {
    out.iter().find(|(n, _)| n == v).map(|(_, d)| *d)
}

#[test]
fn hops_are_shortest_paths_over_the_undirected_graph() {
    let e = edges(&[("gateway", "orders"), ("orders", "payments"), ("gateway", "catalog"), ("catalog", "payments")]);
    let out = hop_distances("payments", &e);
    assert_eq!(dist(&out, "payments"), Some(0));
    assert_eq!(dist(&out, "orders"), Some(1));
    assert_eq!(dist(&out, "catalog"), Some(1));
    assert_eq!(dist(&out, "gateway"), Some(2));
    assert_eq!(out.len(), 4);
}

#[test]
fn unreachable_services_are_absent() {
    let e = edges(&[("a", "b"), ("c", "d")]);
    let out = hop_distances("a", &e);
    assert_eq!(dist(&out, "b"), Some(1));
    assert_eq!(dist(&out, "c"), None);
    assert_eq!(dist(&out, "d"), None);
    assert_eq!(hop_distances("zzz", &e), vec![("zzz".to_string(), 0)]);
}

#[test]
fn hops_from_the_gateway_over_the_demo_topology() {
    let e = edges(&[("gateway", "orders"), ("orders", "payments"), ("orders", "postgres"), ("payments", "redis"), ("loadgen", "gateway")]);
    let d = hop_distances("gateway", &e);
    assert_eq!(
        (dist(&d, "gateway"), dist(&d, "orders"), dist(&d, "payments"), dist(&d, "redis")),
        (Some(0), Some(1), Some(2), Some(3))
    );
    assert_eq!((dist(&d, "postgres"), dist(&d, "loadgen"), dist(&d, "fraudcheck")), (Some(2), Some(1), None));
}
