use fleet_spread::synthesis::{tensions_among, SourcedClaim, SynthesisEngine};

fn sourced(specialist: &str, claim: &str) -> SourcedClaim {
    SourcedClaim { specialist: specialist.to_string(), claim: claim.to_string() }
}

#[test]
fn synthesis_engine_defaults() {
    let e = SynthesisEngine::new();
    assert_eq!(e.agreement_threshold(), 3);
    assert!(e.tension_check());
}

#[test]
fn synthesis_contradictions_by_table() {
    let e = SynthesisEngine::new();
    assert!(e.are_contradictory("Graph is Laman-rigid", "Graph is under-constrained"));
    assert!(e.are_contradictory("Trust is HIGH", "encoding stability is low"));
    assert!(e.are_contradictory("No anomalous trust values", "Trust is normal"));
    assert!(!e.are_contradictory("Graph is Laman-rigid", "Graph is connected"));
    // the captain's "safe"/"unsafe" pair is not in the synthesis table
    assert!(!e.are_contradictory("Fleet is safe", "Fleet is unsafe"));
}

#[test]
fn synthesis_contradiction_is_symmetric() {
    let e = SynthesisEngine::new();
    let claims = [
        "Graph is rigid",
        "Graph is over-constrained",
        "Trust geometry is consistent",
        "Found 2 stressed edges (geometric strain detected)",
        "Graph is disconnected",
        "Encoding is highly stable",
    ];
    for a in claims.iter() {
        for b in claims.iter() {
            assert_eq!(e.are_contradictory(a, b), e.are_contradictory(b, a));
        }
    }
}

#[test]
fn synthesis_normalize_claim() {
    let e = SynthesisEngine::new();
    assert_eq!(e.normalize_claim("Graph is Laman-rigid"), "Graph Laman rigid");
    assert_eq!(e.normalize_claim("Graph has 3 cycles, from the start"), "Graph cycles start");
    assert_eq!(e.normalize_claim("with have from"), "");
    assert_eq!(e.normalize_claim(""), "");
    assert_eq!(e.normalize_claim("E=7=2*5-3"), "");
}

#[test]
fn synthesis_truncate() {
    assert_eq!(SynthesisEngine::truncate("short", 50), "short");
    assert_eq!(SynthesisEngine::truncate("abcdefgh", 3), "abc...");
    assert_eq!(SynthesisEngine::truncate("abc", 3), "abc");
    // "é" takes two bytes: a cut after three bytes falls after it
    assert_eq!(SynthesisEngine::truncate("aéb", 3), "aé...");
}

#[test]
fn synthesis_tensions_between_specialists() {
    let e = SynthesisEngine::new();
    let claims = vec![
        sourced("topological", "Graph is Laman-rigid"),
        sourced("topological", "Graph is over-constrained"),
        sourced("systems", "Graph is under-constrained"),
        sourced("geometric", "Trust geometry is consistent"),
    ];
    let tensions = e.find_tensions(&claims).unwrap();
    // 0–1 share a specialist; "constrained" holds "strain", which opposes
    // "consistent"
    assert_eq!(tensions.len(), 3);
    let t = &tensions[0];
    assert_eq!(t.claim_a, "Graph is Laman-rigid");
    assert_eq!(t.claim_b, "Graph is under-constrained");
    assert_eq!(t.specialist_a, "topological");
    assert_eq!(t.specialist_b, "systems");
    assert_eq!(
        t.description,
        "topological and systems disagree on: Graph is Laman-rigid vs Graph is under-constrained"
    );
    assert_eq!(tensions[1].claim_a, "Graph is over-constrained");
    assert_eq!(tensions[1].claim_b, "Trust geometry is consistent");
    assert_eq!(tensions[2].specialist_a, "systems");
    assert_eq!(tensions[2].specialist_b, "geometric");
}

#[test]
fn synthesis_tension_description_is_cut() {
    let e = SynthesisEngine::new();
    let long = "Graph is rigid according to a very long explanation of the Laman count";
    let claims = vec![sourced("a", long), sourced("b", "Graph is under-constrained")];
    let tensions = e.find_tensions(&claims).unwrap();
    assert_eq!(tensions.len(), 1);
    assert_eq!(
        tensions[0].description,
        format!("a and b disagree on: {}... vs Graph is under-constrained", &long[..50])
    );
}

#[test]
fn synthesis_tension_refused_inside_character() {
    let e = SynthesisEngine::new();
    // 49 ASCII bytes then a two-byte character: byte 50 is inside it
    let long = format!("{}é is rigid", "x".repeat(49));
    let claims = vec![sourced("a", &long), sourced("b", "Graph is under-constrained")];
    assert!(e.find_tensions(&claims).is_none());
    // without an opposed partner nothing is cut, so nothing is refused
    let calm = vec![sourced("a", &long), sourced("b", "Graph is connected")];
    assert_eq!(e.find_tensions(&calm).unwrap().len(), 0);
}

#[test]
fn synthesis_tensions_among_lowered_texts() {
    let claims = vec![sourced("a", "X"), sourced("b", "Y")];
    let lowered = vec!["rigid".chars().collect::<Vec<char>>(), "under-constrained".chars().collect()];
    let t = tensions_among(&claims, &lowered).unwrap();
    assert_eq!(t.len(), 1);
    assert_eq!(t[0].description, "a and b disagree on: X vs Y");
}

#[test]
fn synthesis_blind_spots_keep_first_occurrence() {
    let e = SynthesisEngine::new();
    let qs = vec![
        "Why?".to_string(),
        "How?".to_string(),
        "Why?".to_string(),
        "When?".to_string(),
        "How?".to_string(),
    ];
    assert_eq!(
        e.collect_blind_spots(&qs),
        vec!["Why?".to_string(), "How?".to_string(), "When?".to_string()]
    );
    assert!(e.collect_blind_spots(&vec![]).is_empty());
}

#[test]
fn synthesis_groups_and_robust_claims() {
    let e = SynthesisEngine::new();
    let raw = [
        "Graph is Laman-rigid",
        "Graph is connected",
        "Graph is Laman-rigid",
        "Encoding is highly stable",
        "Graph is Laman rigid",
    ];
    let keys: Vec<String> = raw.iter().map(|c| e.normalize_claim(c)).collect();
    let groups = e.group_claims(&keys);
    assert_eq!(groups.len(), 3);
    assert_eq!(groups[0].claim, "Graph Laman rigid");
    assert_eq!(groups[0].members, vec![0, 2, 4]);
    assert_eq!(groups[1].claim, "Graph connected");
    assert_eq!(groups[1].members, vec![1]);
    assert_eq!(groups[2].claim, "Encoding highly stable");
    let who: Vec<String> =
        ["topological", "systems", "systems", "algebraic", "geometric"].iter().map(|s| s.to_string()).collect();
    let robust = e.robust_groups(groups, &who);
    assert_eq!(robust.len(), 1);
    assert_eq!(robust[0].claim, "Graph Laman rigid");
    assert_eq!(robust[0].members, vec![0, 2, 4]);
    assert_eq!(robust[0].specialists, vec!["topological".to_string(), "systems".to_string(), "geometric".to_string()]);
}

#[test]
fn synthesis_robust_needs_distinct_specialists() {
    let e = SynthesisEngine::new();
    let keys: Vec<String> = ["Graph rigid", "Graph rigid", "Graph rigid"].iter().map(|s| s.to_string()).collect();
    let one: Vec<String> = ["systems", "systems", "systems"].iter().map(|s| s.to_string()).collect();
    assert!(e.robust_groups(e.group_claims(&keys), &one).is_empty());
    let two: Vec<String> = ["systems", "topological", "systems"].iter().map(|s| s.to_string()).collect();
    assert!(e.robust_groups(e.group_claims(&keys), &two).is_empty());
    let three: Vec<String> = ["systems", "topological", "geometric"].iter().map(|s| s.to_string()).collect();
    assert_eq!(e.robust_groups(e.group_claims(&keys), &three).len(), 1);
}

#[test]
fn synthesis_normalize_is_idempotent() {
    let e = SynthesisEngine::new();
    for c in ["Graph is Laman-rigid", "Graph has 3 cycles, from the start", "", "the and has", "Trust drift: 0.3 > threshold!"] {
        let once = e.normalize_claim(c);
        assert_eq!(e.normalize_claim(&once), once);
    }
}
