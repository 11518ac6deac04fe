use fleet_spread::quality::{
    any_significant, assessment_for, count_contradictions, is_trivial, mentions_specific,
    AssessmentReason, QualityAssessment, QualitySignals,
};

fn signals(count: usize) -> QualitySignals {
    QualitySignals {
        finding_count: count,
        confidence_low: false,
        all_trivial: false,
        contradictions: 0,
        good_confidence: true,
        significant: true,
        excellent_score: false,
    }
}

#[test]
fn test_quality_assessment_good() {
    let a = QualityAssessment::Good;
    assert_eq!(a, QualityAssessment::Good);
    assert_eq!(a.name(), "Good");
}

#[test]
fn quality_names_and_passing() {
    assert_eq!(QualityAssessment::Excellent.name(), "Excellent");
    assert_eq!(QualityAssessment::Failed.name(), "Failed");
    assert!(QualityAssessment::Excellent.passes());
    assert!(QualityAssessment::Good.passes());
    assert!(QualityAssessment::Fair.passes());
    assert!(!QualityAssessment::Poor.passes());
    assert!(!QualityAssessment::Failed.passes());
}

#[test]
fn quality_verdicts_in_order() {
    assert_eq!(assessment_for(&signals(0)), (QualityAssessment::Failed, AssessmentReason::NoFindings));
    let mut s = signals(2);
    s.confidence_low = true;
    s.all_trivial = true;
    assert_eq!(assessment_for(&s), (QualityAssessment::Failed, AssessmentReason::LowConfidence));
    s.confidence_low = false;
    assert_eq!(assessment_for(&s), (QualityAssessment::Failed, AssessmentReason::AllTrivial));
    s.all_trivial = false;
    s.contradictions = 1;
    assert_eq!(assessment_for(&s), (QualityAssessment::Poor, AssessmentReason::Contradictions));
    assert!(!assessment_for(&s).0.passes());
    s.contradictions = 0;
    assert_eq!(assessment_for(&s), (QualityAssessment::Good, AssessmentReason::GoodOutput));
    s.excellent_score = true;
    assert_eq!(assessment_for(&s), (QualityAssessment::Excellent, AssessmentReason::ExcellentOutput));
    s.significant = false;
    assert_eq!(assessment_for(&s), (QualityAssessment::Fair, AssessmentReason::Acceptable));
    assert_eq!(assessment_for(&signals(1)), (QualityAssessment::Poor, AssessmentReason::BelowCriteria));
}

#[test]
fn quality_counts_contradicting_pairs() {
    let claims = vec![
        "Graph is rigid".to_string(),
        "Graph is over-constrained".to_string(),
        "Graph is under-constrained".to_string(),
    ];
    // rigid/over and rigid/under
    assert_eq!(count_contradictions(&claims), 2);
    let calm = vec!["Graph is rigid".to_string(), "Cycle 3 has high holonomy".to_string()];
    assert_eq!(count_contradictions(&calm), 0);
    assert_eq!(count_contradictions(&vec![]), 0);
    // "unstable" holds "stable": one claim against itself is no pair
    assert_eq!(count_contradictions(&vec!["System is unstable".to_string()]), 0);
}

#[test]
fn quality_claim_kinds() {
    assert!(mentions_specific("Cycle 3 has high holonomy"));
    assert!(!mentions_specific("Nothing to report"));
    assert!(is_trivial("Graph has edges"));
    assert!(is_trivial("The GRAPH IS CONNECTED"));
    assert!(!is_trivial("Graph is Laman-rigid"));
    assert!(any_significant(&vec!["Nothing".to_string(), "Laman condition satisfied".to_string()]));
    assert!(!any_significant(&vec!["Nothing".to_string()]));
}

#[test]
fn quality_one_contradiction_fails() {
    // a rigid claim beside an over-constrained one: one contradicting pair
    let claims = vec!["Graph is rigid".to_string(), "Graph is over-constrained".to_string()];
    let mut s = signals(2);
    s.contradictions = count_contradictions(&claims);
    assert_eq!(s.contradictions, 1);
    let (verdict, reason) = assessment_for(&s);
    assert_eq!(verdict, QualityAssessment::Poor);
    assert_eq!(reason, AssessmentReason::Contradictions);
    assert!(!verdict.passes());
}
