use spyglass::config::ServiceCfg;
use spyglass::events::Event;
use spyglass::tools::{get_evidence, service_topology};

fn svc(name: &str, service: &str, role: &str, upstreams: &[&str]) -> ServiceCfg {
    ServiceCfg {
        name: name.into(),
        service: service.into(),
        role: role.into(),
        upstreams: upstreams.iter().map(|u| u.to_string()).collect(),
        port_env: None,
        default_port: None,
        has_log: true,
        version: None,
    }
}

fn ev(id: &str) -> Event {
    Event {
        event_id: id.into(),
        ts: 0,
        service: "orders".into(),
        instance: "orders-1".into(),
        version: String::new(),
        level: "ERROR".into(),
        req_id: None,
        msg: "m".into(),
        route: None,
        status: None,
        deploy_id: None,
        upstream: None,
        kind: None,
        has_stack: false,
        template_id: String::new(),
        pattern: String::new(),
        raw: String::new(),
    }
}

#[test]
fn the_topology_lists_each_instance_and_one_edge_per_upstream() {
    let services = vec![
        svc("gateway", "gateway", "edge", &["orders"]),
        svc("orders", "orders", "api", &["payments", "postgres"]),
        svc("postgres", "postgres", "db", &[]),
    ];
    let t = service_topology(&services);
    assert_eq!(t.nodes.len(), 3);
    assert_eq!(t.nodes[1].0, "orders");
    assert_eq!(t.nodes[1].3, vec!["payments".to_string(), "postgres".to_string()]);
    let edges: Vec<(&str, &str)> = t.edges.iter().map(|(a, b)| (a.as_str(), b.as_str())).collect();
    assert_eq!(edges, vec![("gateway", "orders"), ("orders", "payments"), ("orders", "postgres")]);
}

#[test]
fn evidence_brings_at_most_three_stored_exemplars() {
    let events = vec![ev("a:1"), ev("a:2"), ev("a:3"), ev("a:4"), ev("a:2")];
    let ids: Vec<String> = ["a:2", "zz:9", "a:1", "a:3"].iter().map(|s| s.to_string()).collect();
    // three ids are looked at; the unknown one is passed over; a:2 is the latest stored copy
    assert_eq!(get_evidence(&events, "E4", Some(&ids)), Ok(vec![4, 0]));
    assert_eq!(get_evidence(&events, "E4", Some(&Vec::new())), Ok(vec![]));
    assert_eq!(
        get_evidence(&events, "E9", None),
        Err("unknown evidence id 'E9' in this investigation".to_string())
    );
}
