use spyglass::config::DrainCfg;
use spyglass::drain::Drain;

fn cfg() -> DrainCfg {
    DrainCfg { depth: 3, similarity_threshold_ppm: 500_000, max_children: 100 }
}

fn toks(s: &str) -> Vec<String> {
    s.split_whitespace().map(str::to_string).collect()
}

#[test]
fn merges_lines_that_differ_in_one_variable_token() {
    let mut d = Drain::new(cfg());
    let (a, created_a) = d.insert(toks("user alice logged in"));
    let (b, created_b) = d.insert(toks("user bob logged in"));
    assert!(created_a && !created_b);
    assert_eq!(a, b);
    assert_eq!(d.cluster(a).unwrap().template(), "user <*> logged in");
    assert_eq!(d.cluster(a).unwrap().size, 2);
}

#[test]
fn different_token_counts_never_merge() {
    let mut d = Drain::new(cfg());
    let (a, _) = d.insert(toks("request completed"));
    let (b, _) = d.insert(toks("request completed with warnings"));
    assert_ne!(a, b);
}

#[test]
fn below_threshold_creates_a_new_cluster() {
    let mut d = Drain::new(cfg());
    let (a, _) = d.insert(toks("payments charge failed with HTTP <*>"));
    let (b, _) = d.insert(toks("payments charge cached for request <*>"));
    assert_ne!(a, b, "2 of 6 positions match (0.33) -- must not merge at 0.5");
    assert_eq!(d.len(), 2);
}

#[test]
fn two_token_messages_sharing_one_token_do_not_merge() {
    let mut d = Drain::new(cfg());
    let (a, _) = d.insert(toks("request completed"));
    let (b, _) = d.insert(toks("request captured"));
    assert_ne!(a, b);
    let (c, _) = d.insert(toks("request completed"));
    assert_eq!(a, c);
}

#[test]
fn the_routing_key_partitions_without_counting_as_a_match() {
    let mut d = Drain::new(cfg());
    let (a, _) = d.insert_keyed("INFO", toks("request completed"));
    let (b, _) = d.insert_keyed("INFO", toks("request captured"));
    let (c, _) = d.insert_keyed("ERROR", toks("request failed"));
    let (a2, _) = d.insert_keyed("INFO", toks("request completed"));
    assert_ne!(a, b, "one agreeing token of two is not a template");
    assert_ne!(a, c, "different key, different subtree");
    assert_eq!(a, a2);
    assert_eq!(d.cluster(a).unwrap().template(), "request completed");
}

#[test]
fn wildcard_positions_do_not_attract_everything() {
    let mut d = Drain::new(cfg());
    let (a, _) = d.insert(toks("<*> <*> <*> done"));
    let (b, _) = d.insert(toks("<*> <*> <*> failed"));
    // only 0 of 4 non-wildcard positions match ("done" vs "failed") -> new cluster
    assert_ne!(a, b);
}

#[test]
fn ids_are_stable_across_merges_and_order_is_deterministic() {
    let lines = ["user alice logged in", "user bob logged in", "job <*> finished", "job <*> failed", "user carol logged in"];
    let run = || {
        let mut d = Drain::new(cfg());
        lines.iter().map(|l| d.insert(toks(l)).0).collect::<Vec<_>>()
    };
    assert_eq!(run(), run());
    let mut d = Drain::new(cfg());
    let ids: Vec<u64> = lines.iter().map(|l| d.insert(toks(l)).0).collect();
    assert_eq!(ids[0], ids[1]);
    assert_eq!(ids[0], ids[4]);
    assert_ne!(ids[2], ids[3]);
}

// ------------------------------------------------------------------ more

#[test]
fn ids_run_one_two_three_in_creation_order() {
    let mut d = Drain::new(cfg());
    assert!(d.is_empty());
    assert_eq!(d.insert(toks("alpha beta")).0, 1);
    assert_eq!(d.insert(toks("gamma delta epsilon")).0, 2);
    assert_eq!(d.insert(toks("zeta")).0, 3);
    assert_eq!(d.cluster(2).unwrap().id, 2);
    assert!(d.cluster(4).is_none());
    assert!(d.cluster(0).is_none());
}

#[test]
fn a_merged_template_only_gains_wildcards_and_keeps_its_length() {
    let mut d = Drain::new(cfg());
    let (a, _) = d.insert(toks("order placed for alice today"));
    d.insert(toks("order placed for bob today"));
    d.insert(toks("order placed for bob yesterday"));
    let c = d.cluster(a).unwrap();
    assert_eq!(c.template(), "order placed for <*> <*>");
    assert_eq!(c.tokens.len(), 5);
    assert_eq!(c.size, 3);
}

#[test]
fn a_single_token_message_merges_on_its_one_token() {
    let mut d = Drain::new(cfg());
    let (a, _) = d.insert(toks("started"));
    let (b, created) = d.insert(toks("started"));
    assert_eq!(a, b);
    assert!(!created);
}

#[test]
fn an_empty_message_always_founds_its_own_cluster() {
    let mut d = Drain::new(cfg());
    let (a, _) = d.insert(vec![]);
    let (b, created) = d.insert(vec![]);
    assert_ne!(a, b);
    assert!(created);
}

#[test]
fn a_full_node_routes_new_tokens_to_the_wildcard_branch() {
    let mut d = Drain::new(DrainCfg { depth: 3, similarity_threshold_ppm: 500_000, max_children: 1 });
    let (a, _) = d.insert(toks("alpha beta gamma"));
    // "delta" cannot get its own branch under the full node: it shares the
    // wildcard branch, where it meets nothing yet.
    let (b, _) = d.insert(toks("delta beta gamma"));
    let (c, created) = d.insert(toks("omega beta gamma"));
    assert_ne!(a, b);
    assert_eq!(b, c);
    assert!(!created);
}

#[test]
fn only_messages_whose_leading_tokens_route_alike_are_compared() {
    let mut d = Drain::new(DrainCfg { depth: 4, similarity_threshold_ppm: 500_000, max_children: 100 });
    let (a, created_a) = d.insert(toks("user alice logged in"));
    let (b, created_b) = d.insert(toks("user alice signed out"));
    let (c, created_c) = d.insert(toks("user bob logged in"));
    assert!(created_a && !created_b && created_c);
    assert_eq!(a, b, "same two leading tokens: same leaf, 2 of 4 agree");
    assert_ne!(a, c, "second token differs: another leaf, though 3 of 4 agree");
    assert_eq!(d.cluster(a).unwrap().template(), "user alice <*> <*>");
    assert_eq!(d.len(), 2);
}
