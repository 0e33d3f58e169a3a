use yosoku::chain::PredictorChain;

fn ctx(words: &[&str]) -> Vec<String> {
    let mut v: Vec<String> = Vec::new();
    for w in words {
        v.push((*w).to_string());
    }
    v
}

#[test]
fn observe_creates_node_and_lookup_finds_it() {
    let mut chain = PredictorChain::new();
    chain.observe(&ctx(&["never"]), "gonna");
    let cands = chain.lookup(&ctx(&["never"])).expect("node must exist");
    assert_eq!(cands.len(), 1);
    assert_eq!(cands[0].token, "gonna");
    assert_eq!(cands[0].weight, 1);
    assert!(chain.lookup(&ctx(&["gonna"])).is_none());
}

#[test]
fn observe_is_additive_not_overwriting() {
    let mut chain = PredictorChain::new();
    chain.observe(&ctx(&[]), "up");
    chain.observe(&ctx(&[]), "up");
    chain.observe(&ctx(&[]), "up");
    let cands = chain.lookup(&ctx(&[])).expect("node must exist");
    assert_eq!(cands.len(), 1);
    assert_eq!(cands[0].weight, 3);
}

#[test]
fn observe_keeps_other_candidates() {
    let mut chain = PredictorChain::new();
    chain.observe(&ctx(&[]), "alpha");
    chain.observe(&ctx(&[]), "beta");
    chain.observe(&ctx(&[]), "alpha");
    let cands = chain.lookup(&ctx(&[])).expect("node must exist");
    assert_eq!(cands.len(), 2);
    let mut alpha_weight = 0u64;
    let mut beta_weight = 0u64;
    for c in cands {
        if c.token == "alpha" {
            alpha_weight = c.weight;
        }
        if c.token == "beta" {
            beta_weight = c.weight;
        }
    }
    assert_eq!(alpha_weight, 2);
    assert_eq!(beta_weight, 1);
}

#[test]
fn resolve_prefers_longer_context_over_heavier_shorter_one() {
    let mut chain = PredictorChain::new();
    for _ in 0..5 {
        chain.observe(&ctx(&[]), "zebra");
    }
    chain.observe(&ctx(&["give"]), "you");
    let (token, weight) = chain.resolve_with_backoff(&ctx(&["give"])).expect("must resolve");
    assert_eq!(token, "you");
    assert_eq!(weight, 1);
}

#[test]
fn resolve_backs_off_to_shorter_context() {
    let mut chain = PredictorChain::new();
    chain.observe(&ctx(&[]), "fallback");
    let (token, weight) = chain
        .resolve_with_backoff(&ctx(&["unknown", "tokens"]))
        .expect("must back off to the empty context");
    assert_eq!(token, "fallback");
    assert_eq!(weight, 1);
}

#[test]
fn resolve_on_empty_chain_is_none() {
    let chain = PredictorChain::new();
    assert!(chain.resolve_with_backoff(&ctx(&[])).is_none());
    assert!(chain.resolve_with_backoff(&ctx(&["anything"])).is_none());
}

#[test]
fn resolve_breaks_ties_lexicographically() {
    let mut chain = PredictorChain::new();
    chain.observe(&ctx(&[]), "beta");
    chain.observe(&ctx(&[]), "alpha");
    let (token, weight) = chain.resolve_with_backoff(&ctx(&[])).expect("must resolve");
    assert_eq!(token, "alpha");
    assert_eq!(weight, 1);
}

#[test]
fn resolve_picks_the_heaviest_candidate() {
    let mut chain = PredictorChain::new();
    chain.observe(&ctx(&[]), "beta");
    chain.observe(&ctx(&[]), "beta");
    chain.observe(&ctx(&[]), "alpha");
    let (token, weight) = chain.resolve_with_backoff(&ctx(&[])).expect("must resolve");
    assert_eq!(token, "beta");
    assert_eq!(weight, 2);
}

#[test]
fn resolved_weights_are_always_positive() {
    let mut chain = PredictorChain::new();
    chain.observe(&ctx(&[]), "a");
    chain.observe(&ctx(&["a"]), "b");
    chain.observe(&ctx(&["a", "b"]), "c");
    let queries: [&[&str]; 4] = [&[], &["a"], &["a", "b"], &["x", "a", "b"]];
    for q in queries {
        let (_, weight) = chain.resolve_with_backoff(&ctx(q)).expect("must resolve");
        assert!(weight > 0);
    }
}
