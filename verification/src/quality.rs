//! The quality gate for one specialist's output: how many of its findings
//! contradict each other, which of them are specific or trivial, and the
//! verdict that follows from the measured signals.
use vstd::prelude::*;

use crate::claims::{
    consistency_opposed, consistency_opposed_lowered, is_trivial_claim, lower_all, lowered_all,
    lowered_chars, names_significant, names_specific, significant_lowered, specific_lowered,
    trivial_lowered,
};
use crate::text::{lowercase_of, texts_of};

verus! {

/// The verdict of the quality gate.
#[derive(Debug, Clone, Copy, PartialEq, Eq, Structural)]
pub enum QualityAssessment {
    Excellent,
    Good,
    Fair,
    Poor,
    Failed,
}

/// The name of a verdict.
pub open spec fn assessment_name(a: QualityAssessment) -> Seq<char> {
    match a {
        QualityAssessment::Excellent => "Excellent"@,
        QualityAssessment::Good => "Good"@,
        QualityAssessment::Fair => "Fair"@,
        QualityAssessment::Poor => "Poor"@,
        QualityAssessment::Failed => "Failed"@,
    }
}

impl QualityAssessment {
    /// The verdict's name, as it is shown to users.
    pub fn name(&self) -> (s: &'static str)
        ensures
            s@ == assessment_name(*self),
    {
        match self {
            QualityAssessment::Excellent => "Excellent",
            QualityAssessment::Good => "Good",
            QualityAssessment::Fair => "Fair",
            QualityAssessment::Poor => "Poor",
            QualityAssessment::Failed => "Failed",
        }
    }

    /// Whether the verdict lets the specialist's output through: Excellent,
    /// Good and Fair pass.
    pub fn passes(&self) -> (r: bool)
        ensures
            r == (*self is Excellent || *self is Good || *self is Fair),
    {
        match self {
            QualityAssessment::Excellent | QualityAssessment::Good | QualityAssessment::Fair => true,
            _ => false,
        }
    }
}

/// Why a verdict was given.
#[derive(Debug, Clone, Copy, PartialEq, Eq, Structural)]
pub enum AssessmentReason {
    NoFindings,
    LowConfidence,
    AllTrivial,
    Contradictions,
    ExcellentOutput,
    GoodOutput,
    Acceptable,
    BelowCriteria,
}

/// What the quality gate measured of a report.
pub struct QualitySignals {
    /// Number of findings.
    pub finding_count: usize,
    /// The specialist's confidence is below 0.3.
    pub confidence_low: bool,
    /// The significance of the findings is below 0.1.
    pub all_trivial: bool,
    /// Number of pairs of findings that contradict each other.
    pub contradictions: usize,
    /// The findings' mean confidence is at least 0.5.
    pub good_confidence: bool,
    /// The significance is above 0.3, or some finding names a significant
    /// property.
    pub significant: bool,
    /// The combined score is at least 0.8.
    pub excellent_score: bool,
}

/// The verdict for measured signals, checked in order: no findings, low
/// confidence and all trivial fail; any internal contradiction rates Poor,
/// a failing grade; output
/// that meets every criterion is Excellent or Good; enough confident
/// findings are Fair; the rest is Poor.
pub fn assessment_for(s: &QualitySignals) -> (r: (QualityAssessment, AssessmentReason))
    ensures
        s.finding_count == 0 ==> r == (QualityAssessment::Failed, AssessmentReason::NoFindings),
        s.finding_count > 0 && s.confidence_low ==> r == (
            QualityAssessment::Failed,
            AssessmentReason::LowConfidence,
        ),
        s.finding_count > 0 && !s.confidence_low && s.all_trivial ==> r == (
            QualityAssessment::Failed,
            AssessmentReason::AllTrivial,
        ),
        s.finding_count > 0 && !s.confidence_low && !s.all_trivial && s.contradictions > 0 ==> r == (
            QualityAssessment::Poor,
            AssessmentReason::Contradictions,
        ),
        ({
            let open = s.finding_count > 0 && !s.confidence_low && !s.all_trivial && s.contradictions == 0;
            let meets = s.finding_count >= 2 && s.good_confidence && s.significant;
            &&& open && meets && s.excellent_score ==> r == (
                QualityAssessment::Excellent,
                AssessmentReason::ExcellentOutput,
            )
            &&& open && meets && !s.excellent_score ==> r == (
                QualityAssessment::Good,
                AssessmentReason::GoodOutput,
            )
            &&& open && !meets && s.finding_count >= 2 && s.good_confidence ==> r == (
                QualityAssessment::Fair,
                AssessmentReason::Acceptable,
            )
            &&& open && !(s.finding_count >= 2 && s.good_confidence) ==> r == (
                QualityAssessment::Poor,
                AssessmentReason::BelowCriteria,
            )
        }),
{
    if s.finding_count == 0 {
        return (QualityAssessment::Failed, AssessmentReason::NoFindings);
    }
    if s.confidence_low {
        return (QualityAssessment::Failed, AssessmentReason::LowConfidence);
    }
    if s.all_trivial {
        return (QualityAssessment::Failed, AssessmentReason::AllTrivial);
    }
    if s.contradictions > 0 {
        return (QualityAssessment::Poor, AssessmentReason::Contradictions);
    }
    let enough = s.finding_count >= 2;
    if enough && s.good_confidence && s.significant {
        if s.excellent_score {
            return (QualityAssessment::Excellent, AssessmentReason::ExcellentOutput);
        } else {
            return (QualityAssessment::Good, AssessmentReason::GoodOutput);
        }
    }
    if enough && s.good_confidence {
        return (QualityAssessment::Fair, AssessmentReason::Acceptable);
    }
    (QualityAssessment::Poor, AssessmentReason::BelowCriteria)
}

/// The pairs (`i`, `t`) with `i < t < j` whose lower-cased claims are opposed.
pub open spec fn opposed_in_row(lw: Seq<Seq<char>>, i: int, j: int) -> nat
    decreases j - i,
{
    if j <= i + 1 {
        0
    } else {
        opposed_in_row(lw, i, j - 1) + if consistency_opposed(lw[i], lw[j - 1]) {
            1nat
        } else {
            0nat
        }
    }
}

/// The number of opposed pairs (`a`, `b`), `a < b`, with `a < i`.
pub open spec fn opposed_pairs(lw: Seq<Seq<char>>, i: int) -> nat
    decreases i,
{
    if i <= 0 {
        0
    } else {
        opposed_pairs(lw, i - 1) + opposed_in_row(lw, i - 1, lw.len() as int)
    }
}

/// A row holds at most as many opposed pairs as it has pairs.
proof fn lemma_row_bound(lw: Seq<Seq<char>>, i: int, j: int)
    requires
        0 <= i,
    ensures
        opposed_in_row(lw, i, j) <= if j > i + 1 { j - i - 1 } else { 0 },
    decreases j - i,
{
    if j > i + 1 {
        lemma_row_bound(lw, i, j - 1);
    }
}

/// The rows below `i` hold at most `i * n` opposed pairs.
proof fn lemma_pairs_bound(lw: Seq<Seq<char>>, i: int)
    requires
        0 <= i,
    ensures
        opposed_pairs(lw, i) <= i * lw.len(),
    decreases i,
{
    if i > 0 {
        lemma_pairs_bound(lw, i - 1);
        lemma_row_bound(lw, i - 1, lw.len() as int);
        assert((i - 1) * lw.len() + lw.len() == i * lw.len()) by (nonlinear_arith);
    }
}

/// The number of pairs of lower-cased claims that contradict each other.
pub fn contradictions_among(lowered: &Vec<Vec<char>>) -> (c: usize)
    requires
        lowered@.len() * lowered@.len() <= usize::MAX,
    ensures
        c == opposed_pairs(lowered@.map_values(|v: Vec<char>| v@), lowered@.len() as int),
{
    let ghost lw = lowered@.map_values(|v: Vec<char>| v@);
    let n = lowered.len();
    let mut count: usize = 0;
    let mut i: usize = 0;
    while i < n
        invariant
            n == lowered@.len(),
            n * n <= usize::MAX,
            lw == lowered@.map_values(|v: Vec<char>| v@),
            i <= n,
            count == opposed_pairs(lw, i as int),
        decreases n - i,
    {
        let mut j: usize = i + 1;
        proof {
            lemma_pairs_bound(lw, i as int);
        }
        while j < n
            invariant
                n == lowered@.len(),
                n * n <= usize::MAX,
                lw == lowered@.map_values(|v: Vec<char>| v@),
                i < n,
                i + 1 <= j <= n,
                count == opposed_pairs(lw, i as int) + opposed_in_row(lw, i as int, j as int),
                opposed_pairs(lw, i as int) <= i * n,
            decreases n - j,
        {
            proof {
                lemma_row_bound(lw, i as int, j as int);
                assert(i * n + n <= n * n) by (nonlinear_arith)
                    requires
                        i < n,
                ;
            }
            assert(lw[i as int] == lowered@[i as int]@);
            assert(lw[j as int] == lowered@[j as int]@);
            if consistency_opposed_lowered(&lowered[i], &lowered[j]) {
                count = count + 1;
            }
            j = j + 1;
        }
        i = i + 1;
    }
    count
}

/// The number of pairs of a report's findings that contradict each other
/// once lower-cased.
pub fn count_contradictions(claims: &Vec<String>) -> (c: usize)
    requires
        claims@.len() * claims@.len() <= usize::MAX,
    ensures
        c == opposed_pairs(lowered_all(texts_of(claims@)), claims@.len() as int),
{
    let lowered = lower_all(claims);
    contradictions_among(&lowered)
}

/// Whether a finding names a specific property, once lower-cased.
pub fn mentions_specific(claim: &str) -> (r: bool)
    ensures
        r == names_specific(lowercase_of(claim@)),
{
    let l = lowered_chars(claim);
    specific_lowered(&l)
}

/// Whether a finding only restates the topology, once lower-cased.
pub fn is_trivial(claim: &str) -> (r: bool)
    ensures
        r == is_trivial_claim(lowercase_of(claim@)),
{
    let l = lowered_chars(claim);
    trivial_lowered(&l)
}

/// Whether some finding, once lower-cased, names a significant property
/// (cycle, rigid, stable, constraint, laman, holonomy).
pub fn any_significant(claims: &Vec<String>) -> (r: bool)
    ensures
        r == exists|i: int| 0 <= i < claims@.len() && names_significant(lowercase_of(#[trigger] claims@[i]@)),
{
    let mut i: usize = 0;
    while i < claims.len()
        invariant
            i <= claims@.len(),
            forall|t: int| 0 <= t < i ==> !names_significant(lowercase_of(#[trigger] claims@[t]@)),
        decreases claims@.len() - i,
    {
        let l = lowered_chars(claims[i].as_str());
        if significant_lowered(&l) {
            return true;
        }
        i = i + 1;
    }
    false
}

} // verus!
