//! Claim logic: when two lower-cased findings oppose each other, and which
//! keywords mark a finding as a safety signal, a safe action, or a specific
//! or trivial statement. Each table is matched by plain substring search.
use vstd::prelude::*;

use crate::text::{chars_of, has_substring, lowercase, lowercase_of, seq_contains, texts_of};

verus! {

/// `a` holds `pos` and `b` holds `neg`, or the other way round.
pub open spec fn opposed_on(a: Seq<char>, b: Seq<char>, pos: Seq<char>, neg: Seq<char>) -> bool {
    (has_substring(a, pos) && has_substring(b, neg)) || (has_substring(b, pos) && has_substring(
        a,
        neg,
    ))
}

/// The opposites the synthesis layer looks for between two specialists.
pub open spec fn synthesis_opposed(a: Seq<char>, b: Seq<char>) -> bool {
    ||| opposed_on(a, b, "rigid"@, "under-constrained"@)
    ||| opposed_on(a, b, "rigid"@, "over-constrained"@)
    ||| opposed_on(a, b, "consistent"@, "strain"@)
    ||| opposed_on(a, b, "stable"@, "drift"@)
    ||| opposed_on(a, b, "anomalous"@, "normal"@)
    ||| opposed_on(a, b, "connected"@, "disconnected"@)
    ||| opposed_on(a, b, "high"@, "low"@)
}

/// The opposites the captain looks for when adjudicating findings.
pub open spec fn captain_opposed(a: Seq<char>, b: Seq<char>) -> bool {
    ||| opposed_on(a, b, "rigid"@, "under-constrained"@)
    ||| opposed_on(a, b, "rigid"@, "over-constrained"@)
    ||| opposed_on(a, b, "stable"@, "drift"@)
    ||| opposed_on(a, b, "stable"@, "unstable"@)
    ||| opposed_on(a, b, "consistent"@, "strain"@)
    ||| opposed_on(a, b, "consistent"@, "inconsistent"@)
    ||| opposed_on(a, b, "connected"@, "disconnected"@)
    ||| opposed_on(a, b, "safe"@, "unsafe"@)
    ||| opposed_on(a, b, "normal"@, "anomalous"@)
}

/// The opposites the quality gate counts inside one specialist's report.
pub open spec fn consistency_opposed(a: Seq<char>, b: Seq<char>) -> bool {
    ||| opposed_on(a, b, "rigid"@, "under-constrained"@)
    ||| opposed_on(a, b, "rigid"@, "over-constrained"@)
    ||| opposed_on(a, b, "stable"@, "drift"@)
    ||| opposed_on(a, b, "stable"@, "unstable"@)
    ||| opposed_on(a, b, "consistent"@, "strain"@)
    ||| opposed_on(a, b, "high"@, "low"@)
    ||| opposed_on(a, b, "anomalous"@, "normal"@)
    ||| opposed_on(a, b, "connected"@, "disconnected"@)
}

/// A finding that speaks of danger: "unsafe", "danger" or "collision".
pub open spec fn signals_danger(s: Seq<char>) -> bool {
    has_substring(s, "unsafe"@) || has_substring(s, "danger"@) || has_substring(s, "collision"@)
}

/// A finding that speaks of missing spares: "no spare" or "insufficient backup".
pub open spec fn signals_no_spares(s: Seq<char>) -> bool {
    has_substring(s, "no spare"@) || has_substring(s, "insufficient backup"@)
}

/// A finding that names a safe action: "safe", "stable" or "constraint".
pub open spec fn names_safe_action(s: Seq<char>) -> bool {
    has_substring(s, "safe"@) || has_substring(s, "stable"@) || has_substring(s, "constraint"@)
}

/// A finding that names a specific property (cycles, degrees, thresholds,
/// rigidity, stability, constraints, connectivity).
pub open spec fn names_specific(s: Seq<char>) -> bool {
    ||| has_substring(s, "cycle"@)
    ||| has_substring(s, "degree"@)
    ||| has_substring(s, "threshold"@)
    ||| has_substring(s, "rigid"@)
    ||| has_substring(s, "stable"@)
    ||| has_substring(s, "constraint"@)
    ||| has_substring(s, "connected"@)
}

/// A finding that states only what the topology shows anyway.
pub open spec fn is_trivial_claim(s: Seq<char>) -> bool {
    ||| has_substring(s, "graph has edges"@)
    ||| has_substring(s, "graph is connected"@)
    ||| has_substring(s, "there are vertices"@)
    ||| has_substring(s, "has nodes"@)
}

/// A finding that mentions a property the quality gate counts as significant.
pub open spec fn names_significant(s: Seq<char>) -> bool {
    ||| has_substring(s, "cycle"@)
    ||| has_substring(s, "rigid"@)
    ||| has_substring(s, "stable"@)
    ||| has_substring(s, "constraint"@)
    ||| has_substring(s, "laman"@)
    ||| has_substring(s, "holonomy"@)
}

/// Whether `word` occurs in `hay`.
fn holds(hay: &Vec<char>, word: &str) -> (r: bool)
    ensures
        r == has_substring(hay@, word@),
{
    let w = chars_of(word);
    seq_contains(hay, &w)
}

/// Whether `a` and `b` are opposed on the pair (`pos`, `neg`).
fn opposed_pair(a: &Vec<char>, b: &Vec<char>, pos: &str, neg: &str) -> (r: bool)
    ensures
        r == opposed_on(a@, b@, pos@, neg@),
{
    (holds(a, pos) && holds(b, neg)) || (holds(b, pos) && holds(a, neg))
}

/// The characters of `s` lower-cased by `str::to_lowercase`.
pub fn lowered_chars(s: &str) -> (v: Vec<char>)
    ensures
        v@ == lowercase_of(s@),
{
    let l = lowercase(s);
    chars_of(l.as_str())
}

/// The lower-cased texts of a list of claims.
pub open spec fn lowered_all(claims: Seq<Seq<char>>) -> Seq<Seq<char>> {
    claims.map_values(|c: Seq<char>| lowercase_of(c))
}

/// The characters of every claim, lower-cased.
pub fn lower_all(claims: &Vec<String>) -> (r: Vec<Vec<char>>)
    ensures
        r@.len() == claims@.len(),
        r@.map_values(|v: Vec<char>| v@) == lowered_all(texts_of(claims@)),
{
    let ghost lw = lowered_all(texts_of(claims@));
    let mut out: Vec<Vec<char>> = Vec::new();
    let mut i: usize = 0;
    while i < claims.len()
        invariant
            i <= claims@.len(),
            lw == lowered_all(texts_of(claims@)),
            out@.len() == i,
            out@.map_values(|v: Vec<char>| v@) == lw.take(i as int),
        decreases claims@.len() - i,
    {
        let l = lowered_chars(claims[i].as_str());
        let ghost before = out@;
        out.push(l);
        assert(out@.map_values(|v: Vec<char>| v@) =~= before.map_values(|v: Vec<char>| v@).push(l@));
        assert(lw.take(i + 1) =~= lw.take(i as int).push(lw[i as int]));
        i = i + 1;
    }
    assert(lw.take(claims@.len() as int) =~= lw);
    out
}

/// Whether two lower-cased claims are opposed by the synthesis table.
pub fn synthesis_opposed_lowered(a: &Vec<char>, b: &Vec<char>) -> (r: bool)
    ensures
        r == synthesis_opposed(a@, b@),
{
    opposed_pair(a, b, "rigid", "under-constrained") || opposed_pair(a, b, "rigid", "over-constrained")
        || opposed_pair(a, b, "consistent", "strain") || opposed_pair(a, b, "stable", "drift")
        || opposed_pair(a, b, "anomalous", "normal") || opposed_pair(a, b, "connected", "disconnected")
        || opposed_pair(a, b, "high", "low")
}

/// Whether two lower-cased claims are opposed by the captain's table.
pub fn captain_opposed_lowered(a: &Vec<char>, b: &Vec<char>) -> (r: bool)
    ensures
        r == captain_opposed(a@, b@),
{
    opposed_pair(a, b, "rigid", "under-constrained") || opposed_pair(a, b, "rigid", "over-constrained")
        || opposed_pair(a, b, "stable", "drift") || opposed_pair(a, b, "stable", "unstable")
        || opposed_pair(a, b, "consistent", "strain") || opposed_pair(a, b, "consistent", "inconsistent")
        || opposed_pair(a, b, "connected", "disconnected") || opposed_pair(a, b, "safe", "unsafe")
        || opposed_pair(a, b, "normal", "anomalous")
}

/// Whether two lower-cased claims are opposed by the quality gate's table.
pub fn consistency_opposed_lowered(a: &Vec<char>, b: &Vec<char>) -> (r: bool)
    ensures
        r == consistency_opposed(a@, b@),
{
    opposed_pair(a, b, "rigid", "under-constrained") || opposed_pair(a, b, "rigid", "over-constrained")
        || opposed_pair(a, b, "stable", "drift") || opposed_pair(a, b, "stable", "unstable")
        || opposed_pair(a, b, "consistent", "strain") || opposed_pair(a, b, "high", "low")
        || opposed_pair(a, b, "anomalous", "normal") || opposed_pair(a, b, "connected", "disconnected")
}

/// Whether a lower-cased claim speaks of danger.
pub fn danger_lowered(s: &Vec<char>) -> (r: bool)
    ensures
        r == signals_danger(s@),
{
    holds(s, "unsafe") || holds(s, "danger") || holds(s, "collision")
}

/// Whether a lower-cased claim speaks of missing spares.
pub fn no_spares_lowered(s: &Vec<char>) -> (r: bool)
    ensures
        r == signals_no_spares(s@),
{
    holds(s, "no spare") || holds(s, "insufficient backup")
}

/// Whether a lower-cased claim names a safe action.
pub fn safe_action_lowered(s: &Vec<char>) -> (r: bool)
    ensures
        r == names_safe_action(s@),
{
    holds(s, "safe") || holds(s, "stable") || holds(s, "constraint")
}

/// Whether a lower-cased claim names a specific property.
pub fn specific_lowered(s: &Vec<char>) -> (r: bool)
    ensures
        r == names_specific(s@),
{
    holds(s, "cycle") || holds(s, "degree") || holds(s, "threshold") || holds(s, "rigid") || holds(
        s,
        "stable",
    ) || holds(s, "constraint") || holds(s, "connected")
}

/// Whether a lower-cased claim is trivial.
pub fn trivial_lowered(s: &Vec<char>) -> (r: bool)
    ensures
        r == is_trivial_claim(s@),
{
    holds(s, "graph has edges") || holds(s, "graph is connected") || holds(s, "there are vertices")
        || holds(s, "has nodes")
}

/// Whether a lower-cased claim mentions a significant property.
pub fn significant_lowered(s: &Vec<char>) -> (r: bool)
    ensures
        r == names_significant(s@),
{
    holds(s, "cycle") || holds(s, "rigid") || holds(s, "stable") || holds(s, "constraint") || holds(
        s,
        "laman",
    ) || holds(s, "holonomy")
}

/// Contradiction, by any of the three tables, is symmetric: `a` contradicts
/// `b` exactly when `b` contradicts `a`.
pub proof fn law_opposition_symmetric(a: Seq<char>, b: Seq<char>)
    ensures
        synthesis_opposed(a, b) == synthesis_opposed(b, a),
        captain_opposed(a, b) == captain_opposed(b, a),
        consistency_opposed(a, b) == consistency_opposed(b, a),
{
}


/// Every opposite pair of the synthesis layer makes two claims contradict:
/// a claim holding the first word and one holding the second contradict,
/// in either order (rigid/under-constrained, rigid/over-constrained,
/// consistent/strain, stable/drift, anomalous/normal, connected/
/// disconnected, high/low).
pub proof fn law_synthesis_pairs(a: Seq<char>, b: Seq<char>)
    ensures
        has_substring(a, "rigid"@) && has_substring(b, "under-constrained"@) ==> synthesis_opposed(a, b) && synthesis_opposed(b, a),
        has_substring(a, "rigid"@) && has_substring(b, "over-constrained"@) ==> synthesis_opposed(a, b) && synthesis_opposed(b, a),
        has_substring(a, "consistent"@) && has_substring(b, "strain"@) ==> synthesis_opposed(a, b) && synthesis_opposed(b, a),
        has_substring(a, "stable"@) && has_substring(b, "drift"@) ==> synthesis_opposed(a, b) && synthesis_opposed(b, a),
        has_substring(a, "anomalous"@) && has_substring(b, "normal"@) ==> synthesis_opposed(a, b) && synthesis_opposed(b, a),
        has_substring(a, "connected"@) && has_substring(b, "disconnected"@) ==> synthesis_opposed(a, b) && synthesis_opposed(b, a),
        has_substring(a, "high"@) && has_substring(b, "low"@) ==> synthesis_opposed(a, b) && synthesis_opposed(b, a),
{
}

/// Every opposite pair of the captain makes two findings contradict, in
/// either order (rigid/under-constrained, rigid/over-constrained,
/// stable/drift, stable/unstable, consistent/strain, consistent/
/// inconsistent, connected/disconnected, safe/unsafe, normal/anomalous).
pub proof fn law_captain_pairs(a: Seq<char>, b: Seq<char>)
    ensures
        has_substring(a, "rigid"@) && has_substring(b, "under-constrained"@) ==> captain_opposed(a, b) && captain_opposed(b, a),
        has_substring(a, "rigid"@) && has_substring(b, "over-constrained"@) ==> captain_opposed(a, b) && captain_opposed(b, a),
        has_substring(a, "stable"@) && has_substring(b, "drift"@) ==> captain_opposed(a, b) && captain_opposed(b, a),
        has_substring(a, "stable"@) && has_substring(b, "unstable"@) ==> captain_opposed(a, b) && captain_opposed(b, a),
        has_substring(a, "consistent"@) && has_substring(b, "strain"@) ==> captain_opposed(a, b) && captain_opposed(b, a),
        has_substring(a, "consistent"@) && has_substring(b, "inconsistent"@) ==> captain_opposed(a, b) && captain_opposed(b, a),
        has_substring(a, "connected"@) && has_substring(b, "disconnected"@) ==> captain_opposed(a, b) && captain_opposed(b, a),
        has_substring(a, "safe"@) && has_substring(b, "unsafe"@) ==> captain_opposed(a, b) && captain_opposed(b, a),
        has_substring(a, "normal"@) && has_substring(b, "anomalous"@) ==> captain_opposed(a, b) && captain_opposed(b, a),
{
}

/// Every opposite pair of the quality gate makes two findings of one report
/// contradict, in either order (rigid/under-constrained, rigid/
/// over-constrained, stable/drift, stable/unstable, consistent/strain,
/// high/low, anomalous/normal, connected/disconnected).
pub proof fn law_consistency_pairs(a: Seq<char>, b: Seq<char>)
    ensures
        has_substring(a, "rigid"@) && has_substring(b, "under-constrained"@) ==> consistency_opposed(a, b) && consistency_opposed(b, a),
        has_substring(a, "rigid"@) && has_substring(b, "over-constrained"@) ==> consistency_opposed(a, b) && consistency_opposed(b, a),
        has_substring(a, "stable"@) && has_substring(b, "drift"@) ==> consistency_opposed(a, b) && consistency_opposed(b, a),
        has_substring(a, "stable"@) && has_substring(b, "unstable"@) ==> consistency_opposed(a, b) && consistency_opposed(b, a),
        has_substring(a, "consistent"@) && has_substring(b, "strain"@) ==> consistency_opposed(a, b) && consistency_opposed(b, a),
        has_substring(a, "high"@) && has_substring(b, "low"@) ==> consistency_opposed(a, b) && consistency_opposed(b, a),
        has_substring(a, "anomalous"@) && has_substring(b, "normal"@) ==> consistency_opposed(a, b) && consistency_opposed(b, a),
        has_substring(a, "connected"@) && has_substring(b, "disconnected"@) ==> consistency_opposed(a, b) && consistency_opposed(b, a),
{
}


/// Claims contradict by the synthesis layer's table only through one of its pairs: one
/// claim holds the first word of a pair and the other the second.
pub proof fn law_synthesis_only_pairs(a: Seq<char>, b: Seq<char>)
    ensures
        synthesis_opposed(a, b) ==> ((has_substring(a, "rigid"@) && has_substring(b, "under-constrained"@)) || (has_substring(b, "rigid"@) && has_substring(a, "under-constrained"@)) || (has_substring(a, "rigid"@) && has_substring(b, "over-constrained"@)) || (has_substring(b, "rigid"@) && has_substring(a, "over-constrained"@)) || (has_substring(a, "consistent"@) && has_substring(b, "strain"@)) || (has_substring(b, "consistent"@) && has_substring(a, "strain"@)) || (has_substring(a, "stable"@) && has_substring(b, "drift"@)) || (has_substring(b, "stable"@) && has_substring(a, "drift"@)) || (has_substring(a, "anomalous"@) && has_substring(b, "normal"@)) || (has_substring(b, "anomalous"@) && has_substring(a, "normal"@)) || (has_substring(a, "connected"@) && has_substring(b, "disconnected"@)) || (has_substring(b, "connected"@) && has_substring(a, "disconnected"@)) || (has_substring(a, "high"@) && has_substring(b, "low"@)) || (has_substring(b, "high"@) && has_substring(a, "low"@))),
{
}

/// Claims contradict by the captain's table only through one of its pairs: one
/// claim holds the first word of a pair and the other the second.
pub proof fn law_captain_only_pairs(a: Seq<char>, b: Seq<char>)
    ensures
        captain_opposed(a, b) ==> ((has_substring(a, "rigid"@) && has_substring(b, "under-constrained"@)) || (has_substring(b, "rigid"@) && has_substring(a, "under-constrained"@)) || (has_substring(a, "rigid"@) && has_substring(b, "over-constrained"@)) || (has_substring(b, "rigid"@) && has_substring(a, "over-constrained"@)) || (has_substring(a, "stable"@) && has_substring(b, "drift"@)) || (has_substring(b, "stable"@) && has_substring(a, "drift"@)) || (has_substring(a, "stable"@) && has_substring(b, "unstable"@)) || (has_substring(b, "stable"@) && has_substring(a, "unstable"@)) || (has_substring(a, "consistent"@) && has_substring(b, "strain"@)) || (has_substring(b, "consistent"@) && has_substring(a, "strain"@)) || (has_substring(a, "consistent"@) && has_substring(b, "inconsistent"@)) || (has_substring(b, "consistent"@) && has_substring(a, "inconsistent"@)) || (has_substring(a, "connected"@) && has_substring(b, "disconnected"@)) || (has_substring(b, "connected"@) && has_substring(a, "disconnected"@)) || (has_substring(a, "safe"@) && has_substring(b, "unsafe"@)) || (has_substring(b, "safe"@) && has_substring(a, "unsafe"@)) || (has_substring(a, "normal"@) && has_substring(b, "anomalous"@)) || (has_substring(b, "normal"@) && has_substring(a, "anomalous"@))),
{
}

/// Claims contradict by the quality gate's table only through one of its pairs: one
/// claim holds the first word of a pair and the other the second.
pub proof fn law_consistency_only_pairs(a: Seq<char>, b: Seq<char>)
    ensures
        consistency_opposed(a, b) ==> ((has_substring(a, "rigid"@) && has_substring(b, "under-constrained"@)) || (has_substring(b, "rigid"@) && has_substring(a, "under-constrained"@)) || (has_substring(a, "rigid"@) && has_substring(b, "over-constrained"@)) || (has_substring(b, "rigid"@) && has_substring(a, "over-constrained"@)) || (has_substring(a, "stable"@) && has_substring(b, "drift"@)) || (has_substring(b, "stable"@) && has_substring(a, "drift"@)) || (has_substring(a, "stable"@) && has_substring(b, "unstable"@)) || (has_substring(b, "stable"@) && has_substring(a, "unstable"@)) || (has_substring(a, "consistent"@) && has_substring(b, "strain"@)) || (has_substring(b, "consistent"@) && has_substring(a, "strain"@)) || (has_substring(a, "high"@) && has_substring(b, "low"@)) || (has_substring(b, "high"@) && has_substring(a, "low"@)) || (has_substring(a, "anomalous"@) && has_substring(b, "normal"@)) || (has_substring(b, "anomalous"@) && has_substring(a, "normal"@)) || (has_substring(a, "connected"@) && has_substring(b, "disconnected"@)) || (has_substring(b, "connected"@) && has_substring(a, "disconnected"@))),
{
}

/// A finding speaks of danger exactly when it holds "unsafe", "danger" or
/// "collision".
pub proof fn law_danger_words(s: Seq<char>)
    ensures
        has_substring(s, "unsafe"@) ==> signals_danger(s),
        has_substring(s, "danger"@) ==> signals_danger(s),
        has_substring(s, "collision"@) ==> signals_danger(s),
        signals_danger(s) ==> (has_substring(s, "unsafe"@) || has_substring(s, "danger"@) || has_substring(s, "collision"@)),
{
}

/// A finding speaks of missing spares exactly when it holds "no spare" or
/// "insufficient backup".
pub proof fn law_no_spare_words(s: Seq<char>)
    ensures
        has_substring(s, "no spare"@) ==> signals_no_spares(s),
        has_substring(s, "insufficient backup"@) ==> signals_no_spares(s),
        signals_no_spares(s) ==> (has_substring(s, "no spare"@) || has_substring(s, "insufficient backup"@)),
{
}

/// A finding names a safe action exactly when it holds "safe", "stable"
/// or "constraint".
pub proof fn law_safe_action_words(s: Seq<char>)
    ensures
        has_substring(s, "safe"@) ==> names_safe_action(s),
        has_substring(s, "stable"@) ==> names_safe_action(s),
        has_substring(s, "constraint"@) ==> names_safe_action(s),
        names_safe_action(s) ==> (has_substring(s, "safe"@) || has_substring(s, "stable"@) || has_substring(s, "constraint"@)),
{
}

/// A finding names a specific property exactly when it holds one of
/// "cycle", "degree", "threshold", "rigid", "stable", "constraint",
/// "connected".
pub proof fn law_specific_words(s: Seq<char>)
    ensures
        has_substring(s, "cycle"@) ==> names_specific(s),
        has_substring(s, "degree"@) ==> names_specific(s),
        has_substring(s, "threshold"@) ==> names_specific(s),
        has_substring(s, "rigid"@) ==> names_specific(s),
        has_substring(s, "stable"@) ==> names_specific(s),
        has_substring(s, "constraint"@) ==> names_specific(s),
        has_substring(s, "connected"@) ==> names_specific(s),
        names_specific(s) ==> (has_substring(s, "cycle"@) || has_substring(s, "degree"@) || has_substring(s, "threshold"@) || has_substring(s, "rigid"@) || has_substring(s, "stable"@) || has_substring(s, "constraint"@) || has_substring(s, "connected"@)),
{
}

/// A finding is trivial exactly when it holds one of "graph has edges",
/// "graph is connected", "there are vertices", "has nodes".
pub proof fn law_trivial_words(s: Seq<char>)
    ensures
        has_substring(s, "graph has edges"@) ==> is_trivial_claim(s),
        has_substring(s, "graph is connected"@) ==> is_trivial_claim(s),
        has_substring(s, "there are vertices"@) ==> is_trivial_claim(s),
        has_substring(s, "has nodes"@) ==> is_trivial_claim(s),
        is_trivial_claim(s) ==> (has_substring(s, "graph has edges"@) || has_substring(s, "graph is connected"@) || has_substring(s, "there are vertices"@) || has_substring(s, "has nodes"@)),
{
}

/// A finding names a significant property exactly when it holds one of
/// "cycle", "rigid", "stable", "constraint", "laman", "holonomy".
pub proof fn law_significant_words(s: Seq<char>)
    ensures
        has_substring(s, "cycle"@) ==> names_significant(s),
        has_substring(s, "rigid"@) ==> names_significant(s),
        has_substring(s, "stable"@) ==> names_significant(s),
        has_substring(s, "constraint"@) ==> names_significant(s),
        has_substring(s, "laman"@) ==> names_significant(s),
        has_substring(s, "holonomy"@) ==> names_significant(s),
        names_significant(s) ==> (has_substring(s, "cycle"@) || has_substring(s, "rigid"@) || has_substring(s, "stable"@) || has_substring(s, "constraint"@) || has_substring(s, "laman"@) || has_substring(s, "holonomy"@)),
{
}

} // verus!
