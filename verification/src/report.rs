//! Findings as a specialist states them: a claim, how much it is trusted
//! and what backs it.
use vstd::prelude::*;

use crate::text::texts_of;

verus! {

/// A claim, the confidence placed in it in thousandths, and its evidence.
pub struct Finding {
    pub claim: String,
    pub confidence_permille: u32,
    pub evidence: Vec<String>,
}

/// The model of a finding.
pub struct FindingView {
    pub claim: Seq<char>,
    pub confidence: nat,
    pub evidence: Seq<Seq<char>>,
}

impl View for Finding {
    type V = FindingView;

    open spec fn view(&self) -> FindingView {
        FindingView {
            claim: self.claim@,
            confidence: self.confidence_permille as nat,
            evidence: texts_of(self.evidence@),
        }
    }
}

/// The models of a list of findings.
pub open spec fn findings_of(fs: Seq<Finding>) -> Seq<FindingView> {
    fs.map_values(|f: Finding| f@)
}

/// A finding with a single piece of evidence.
pub open spec fn single(claim: Seq<char>, confidence: nat, evidence: Seq<char>) -> FindingView {
    FindingView { claim, confidence, evidence: seq![evidence] }
}

/// Builds a finding with a single piece of evidence.
pub fn finding_with(claim: String, confidence_permille: u32, evidence: String) -> (f: Finding)
    ensures
        f@ == single(claim@, confidence_permille as nat, evidence@),
{
    let mut ev: Vec<String> = Vec::new();
    ev.push(evidence);
    let f = Finding { claim, confidence_permille, evidence: ev };
    assert(texts_of(f.evidence@) =~= seq![f.evidence@[0]@]);
    f
}

/// Appends a finding to a list.
pub fn push_finding(fs: &mut Vec<Finding>, f: Finding)
    ensures
        findings_of(final(fs)@) == findings_of(old(fs)@).push(f@),
{
    let ghost v = f@;
    fs.push(f);
    assert(findings_of(fs@) =~= findings_of(old(fs)@).push(v));
}

} // verus!
