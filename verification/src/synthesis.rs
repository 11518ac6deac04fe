//! The synthesis layer: which findings of different specialists contradict
//! each other (tensions), which claims several specialists agree on, and
//! which questions are left open (blind spots).
use vstd::prelude::*;

use crate::claims::{lowered_chars, synthesis_opposed, synthesis_opposed_lowered};
use crate::text::{
    alphanumeric, char_width, chars_of, cut_at_boundary, cuts_at_boundary, is_alnum, lowercase_of,
    push_char,
    texts_of, truncate_text, utf8_len, byte_prefix,
};

verus! {

/// Combines specialist reports: claims backed by at least
/// `agreement_threshold` distinct specialists are robust.
pub struct SynthesisEngine {
    agreement_threshold: usize,
    tension_check: bool,
}

/// Two findings of different specialists that contradict each other.
pub struct Tension {
    pub claim_a: String,
    pub claim_b: String,
    pub specialist_a: String,
    pub specialist_b: String,
    pub description: String,
}

/// One finding's claim, with the specialist that made it.
pub struct SourcedClaim {
    pub specialist: String,
    pub claim: String,
}

/// The alphanumeric mask of a text: which characters belong to words.
pub open spec fn alnum_mask(s: Seq<char>) -> Seq<bool> {
    Seq::new(s.len(), |i: int| alphanumeric(s[i]))
}

/// The pieces of `s` between separators (the positions where `keep` is
/// false), as `str::split` yields them: `n` separators give `n + 1` pieces,
/// empty ones included.
pub open spec fn pieces(s: Seq<char>, keep: Seq<bool>) -> Seq<Seq<char>>
    decreases s.len(),
{
    if s.len() == 0 {
        seq![Seq::empty()]
    } else {
        let p = pieces(s.drop_last(), keep);
        if keep[s.len() - 1] {
            p.update(p.len() - 1, p.last().push(s.last()))
        } else {
            p.push(Seq::empty())
        }
    }
}

/// A word worth keeping: longer than three bytes and not a filler word.
pub open spec fn key_word(w: Seq<char>) -> bool {
    &&& utf8_len(w) > 3
    &&& w != "the"@
    &&& w != "and"@
    &&& w != "has"@
    &&& w != "have"@
    &&& w != "with"@
    &&& w != "from"@
}

/// The key words among `ws`, in order.
pub open spec fn key_words(ws: Seq<Seq<char>>) -> Seq<Seq<char>>
    decreases ws.len(),
{
    if ws.len() == 0 {
        ws
    } else if key_word(ws.last()) {
        key_words(ws.drop_last()).push(ws.last())
    } else {
        key_words(ws.drop_last())
    }
}

/// The words joined by single spaces.
pub open spec fn joined(ws: Seq<Seq<char>>) -> Seq<char>
    decreases ws.len(),
{
    if ws.len() == 0 {
        Seq::empty()
    } else if ws.len() == 1 {
        ws[0]
    } else {
        joined(ws.drop_last()) + seq![' '] + ws.last()
    }
}

/// The normal form of a claim split by `keep`: its key words, joined by spaces.
pub open spec fn normalized(s: Seq<char>, keep: Seq<bool>) -> Seq<char> {
    joined(key_words(pieces(s, keep)))
}

/// "{sa} and {sb} disagree on: {a} vs {b}", each claim cut after 50 bytes.
pub open spec fn tension_text(sa: Seq<char>, sb: Seq<char>, a: Seq<char>, b: Seq<char>) -> Seq<char> {
    sa + " and "@ + sb + " disagree on: "@ + cut_text(a, 50) + " vs "@ + cut_text(b, 50)
}

/// A text cut after `max` bytes with "..." appended, or whole when it fits.
pub open spec fn cut_text(s: Seq<char>, max: nat) -> Seq<char> {
    if utf8_len(s) <= max {
        s
    } else {
        byte_prefix(s, max) + "..."@
    }
}

/// Appends all of `w` to `out`.
fn push_all(out: &mut String, w: &Vec<char>)
    ensures
        final(out)@ == old(out)@ + w@,
{
    let mut k: usize = 0;
    while k < w.len()
        invariant
            k <= w@.len(),
            out@ == old(out)@ + w@.take(k as int),
        decreases w@.len() - k,
    {
        push_char(out, w[k]);
        assert(w@.take(k + 1) =~= w@.take(k as int).push(w@[k as int]));
        k = k + 1;
    }
    assert(w@.take(w@.len() as int) =~= w@);
}

/// Whether two character lists are equal.
fn same_chars(a: &Vec<char>, b: &Vec<char>) -> (r: bool)
    ensures
        r == (a@ == b@),
{
    if a.len() != b.len() {
        return false;
    }
    let mut k: usize = 0;
    while k < a.len()
        invariant
            a@.len() == b@.len(),
            k <= a@.len(),
            forall|t: int| 0 <= t < k ==> a@[t] == b@[t],
        decreases a@.len() - k,
    {
        if a[k] != b[k] {
            return false;
        }
        k = k + 1;
    }
    assert(a@ =~= b@);
    true
}

/// Whether the characters of `w` spell `lit`.
fn spells(w: &Vec<char>, lit: &str) -> (r: bool)
    ensures
        r == (w@ == lit@),
{
    let l = chars_of(lit);
    same_chars(w, &l)
}

/// Whether a word of `bytes` bytes (counted up to 4) is a key word.
fn is_key_word(w: &Vec<char>, bytes: usize) -> (r: bool)
    requires
        bytes == if utf8_len(w@) < 4 { utf8_len(w@) } else { 4 },
    ensures
        r == key_word(w@),
{
    bytes > 3 && !spells(w, "the") && !spells(w, "and") && !spells(w, "has") && !spells(w, "have")
        && !spells(w, "with") && !spells(w, "from")
}

/// Splitting one more character off: a kept character extends the last
/// piece, a separator opens a new one.
proof fn lemma_pieces_step(s: Seq<char>, keep: Seq<bool>, i: int)
    requires
        0 <= i < s.len(),
    ensures
        pieces(s.take(i + 1), keep) == (if keep[i] {
            pieces(s.take(i), keep).update(
                pieces(s.take(i), keep).len() - 1,
                pieces(s.take(i), keep).last().push(s[i]),
            )
        } else {
            pieces(s.take(i), keep).push(Seq::empty())
        }),
{
    assert(s.take(i + 1).drop_last() =~= s.take(i));
}

/// Key words of a list with one more word.
proof fn lemma_key_words_push(ws: Seq<Seq<char>>, w: Seq<char>)
    ensures
        key_words(ws.push(w)) == (if key_word(w) {
            key_words(ws).push(w)
        } else {
            key_words(ws)
        }),
{
    assert(ws.push(w).drop_last() =~= ws);
}

/// Joining one more word.
proof fn lemma_joined_push(ws: Seq<Seq<char>>, w: Seq<char>)
    ensures
        joined(ws.push(w)) == (if ws.len() == 0 {
            w
        } else {
            joined(ws) + seq![' '] + w
        }),
{
    assert(ws.push(w).drop_last() =~= ws);
    if ws.len() == 0 {
        assert(ws.push(w)[0] == w);
    }
}

/// The normal form of `s` under the word mask `keep`.
pub fn normalize_masked(s: &Vec<char>, keep: &Vec<bool>) -> (r: String)
    requires
        keep@.len() == s@.len(),
    ensures
        r@ == normalized(s@, keep@),
{
    let n = s.len();
    let mut out = String::new();
    let mut word: Vec<char> = Vec::new();
    let mut bytes: usize = 0;
    let mut any = false;
    let ghost mut done: Seq<Seq<char>> = Seq::empty();
    let mut i: usize = 0;
    assert(s@.take(0) =~= Seq::<char>::empty());
    while i < n
        invariant
            n == s@.len(),
            keep@.len() == n,
            i <= n,
            pieces(s@.take(i as int), keep@) == done.push(word@),
            bytes == if utf8_len(word@) < 4 { utf8_len(word@) } else { 4 },
            out@ == joined(key_words(done)),
            any == (key_words(done).len() > 0),
        decreases n - i,
    {
        proof {
            lemma_pieces_step(s@, keep@, i as int);
        }
        if keep[i] {
            let c = s[i];
            let w = char_width(c);
            let ghost before = word@;
            proof {
                crate::text::lemma_utf8_len_push(word@, c);
            }
            word.push(c);
            bytes = if bytes + w > 4 { 4 } else { bytes + w };
            assert(done.push(before).update(done.len() as int, before.push(c)) =~= done.push(word@));
        } else {
            proof {
                lemma_key_words_push(done, word@);
            }
            if is_key_word(&word, bytes) {
                proof {
                    lemma_joined_push(key_words(done), word@);
                }
                if any {
                    push_char(&mut out, ' ');
                }
                push_all(&mut out, &word);
                any = true;
            }
            proof {
                done = done.push(word@);
            }
            word = Vec::new();
            bytes = 0;
            assert(word@ =~= Seq::<char>::empty());
        }
        i = i + 1;
    }
    assert(s@.take(n as int) =~= s@);
    proof {
        lemma_key_words_push(done, word@);
    }
    if is_key_word(&word, bytes) {
        proof {
            lemma_joined_push(key_words(done), word@);
        }
        if any {
            push_char(&mut out, ' ');
        }
        push_all(&mut out, &word);
    }
    out
}

/// A set of findings that share one normalized claim: the claim and the
/// positions of the findings, in order.
pub struct ClaimGroup {
    pub claim: String,
    pub members: Vec<usize>,
}

/// The texts of `s` in order, each kept at its first occurrence only.
pub open spec fn first_occurrences(s: Seq<Seq<char>>) -> Seq<Seq<char>>
    decreases s.len(),
{
    if s.len() == 0 {
        s
    } else {
        let p = first_occurrences(s.drop_last());
        if p.contains(s.last()) {
            p
        } else {
            p.push(s.last())
        }
    }
}

/// Positions below `upto` at which `keys` holds `k`, in increasing order.
pub open spec fn positions_of(keys: Seq<Seq<char>>, k: Seq<char>, upto: int) -> Seq<usize>
    decreases upto,
{
    if upto <= 0 {
        Seq::empty()
    } else if keys[upto - 1] == k {
        positions_of(keys, k, upto - 1).push((upto - 1) as usize)
    } else {
        positions_of(keys, k, upto - 1)
    }
}

/// Each distinct key, in order of first appearance, with its positions.
pub open spec fn claim_groups(keys: Seq<Seq<char>>) -> Seq<(Seq<char>, Seq<usize>)> {
    first_occurrences(keys).map_values(|k: Seq<char>| (k, positions_of(keys, k, keys.len() as int)))
}

/// The distinct specialists, in order of first appearance, behind the
/// findings at positions `members`, `sp` naming each finding's specialist.
pub open spec fn group_specialists(members: Seq<usize>, sp: Seq<Seq<char>>) -> Seq<Seq<char>> {
    first_occurrences(members.map_values(|m: usize| sp[m as int]))
}

/// The groups that at least `t` distinct specialists back, in order, each
/// with those specialists.
pub open spec fn backed_groups(gs: Seq<(Seq<char>, Seq<usize>)>, sp: Seq<Seq<char>>, t: nat) -> Seq<
    (Seq<char>, Seq<usize>, Seq<Seq<char>>),
>
    decreases gs.len(),
{
    if gs.len() == 0 {
        Seq::empty()
    } else {
        let prev = backed_groups(gs.drop_last(), sp, t);
        let g = gs.last();
        let who = group_specialists(g.1, sp);
        if who.len() >= t {
            prev.push((g.0, g.1, who))
        } else {
            prev
        }
    }
}

/// A claim that enough specialists agree on: the claim, the positions of
/// its findings, and its distinct specialists in order of first appearance.
pub struct RobustGroup {
    pub claim: String,
    pub members: Vec<usize>,
    pub specialists: Vec<String>,
}

/// The view of a robust group.
pub open spec fn robust_view(g: RobustGroup) -> (Seq<char>, Seq<usize>, Seq<Seq<char>>) {
    (g.claim@, g.members@, texts_of(g.specialists@))
}

/// The view of a group: its claim and its members.
pub open spec fn group_view(g: ClaimGroup) -> (Seq<char>, Seq<usize>) {
    (g.claim@, g.members@)
}

/// A pushed sequence holds what it held, and the pushed element.
proof fn lemma_push_contains<A>(q: Seq<A>, e: A, x: A)
    ensures
        q.push(e).contains(x) == (q.contains(x) || e == x),
{
    if q.contains(x) {
        let i = choose|i: int| 0 <= i < q.len() && q[i] == x;
        assert(q.push(e)[i] == x);
    }
    if e == x {
        assert(q.push(e)[q.len() as int] == x);
    }
    if q.push(e).contains(x) {
        let i = choose|i: int| 0 <= i < q.push(e).len() && q.push(e)[i] == x;
        if i < q.len() {
            assert(q[i] == x);
        }
    }
}

/// Keeping first occurrences keeps exactly the texts that occur.
proof fn lemma_first_occurrences_contains(s: Seq<Seq<char>>, x: Seq<char>)
    ensures
        first_occurrences(s).contains(x) == s.contains(x),
    decreases s.len(),
{
    if s.len() > 0 {
        let q = s.drop_last();
        lemma_first_occurrences_contains(q, x);
        lemma_first_occurrences_contains(q, s.last());
        assert(s =~= q.push(s.last()));
        lemma_push_contains(q, s.last(), x);
        lemma_push_contains(first_occurrences(q), s.last(), x);
    }
}

/// Keeping first occurrences of one more text.
proof fn lemma_first_occurrences_push(s: Seq<Seq<char>>, x: Seq<char>)
    ensures
        first_occurrences(s.push(x)) == (if s.contains(x) {
            first_occurrences(s)
        } else {
            first_occurrences(s).push(x)
        }),
{
    assert(s.push(x).drop_last() =~= s);
    lemma_first_occurrences_contains(s, x);
}

/// Whether `list` holds the text `x`.
fn holds_text(list: &Vec<String>, x: &String) -> (r: bool)
    ensures
        r == texts_of(list@).contains(x@),
{
    let mut k: usize = 0;
    while k < list.len()
        invariant
            k <= list@.len(),
            forall|t: int| 0 <= t < k ==> list@[t]@ != x@,
        decreases list@.len() - k,
    {
        if list[k] == *x {
            assert(texts_of(list@)[k as int] == x@);
            return true;
        }
        k = k + 1;
    }
    proof {
        if texts_of(list@).contains(x@) {
            let t = choose|t: int| 0 <= t < texts_of(list@).len() && texts_of(list@)[t] == x@;
            assert(list@[t]@ == x@);
        }
    }
    false
}

/// The texts of `list` in order, each kept at its first occurrence only.
pub fn first_occurrences_of(list: &Vec<String>) -> (r: Vec<String>)
    ensures
        texts_of(r@) == first_occurrences(texts_of(list@)),
{
    let mut out: Vec<String> = Vec::new();
    let mut i: usize = 0;
    while i < list.len()
        invariant
            i <= list@.len(),
            texts_of(out@) == first_occurrences(texts_of(list@).take(i as int)),
        decreases list@.len() - i,
    {
        proof {
            assert(texts_of(list@).take(i + 1) =~= texts_of(list@).take(i as int).push(list@[i as int]@));
            lemma_first_occurrences_push(texts_of(list@).take(i as int), list@[i as int]@);
            lemma_first_occurrences_contains(texts_of(list@).take(i as int), list@[i as int]@);
        }
        let seen = holds_text(&out, &list[i]);
        if !seen {
            let ghost before = out@;
            out.push(list[i].clone());
            assert(texts_of(out@) =~= texts_of(before).push(list@[i as int]@));
        }
        i = i + 1;
    }
    assert(texts_of(list@).take(list@.len() as int) =~= texts_of(list@));
    out
}

/// The positions at which `keys` holds `k`, in increasing order.
pub fn positions_in(keys: &Vec<String>, k: &String) -> (r: Vec<usize>)
    ensures
        r@ == positions_of(texts_of(keys@), k@, keys@.len() as int),
{
    let mut out: Vec<usize> = Vec::new();
    let mut i: usize = 0;
    while i < keys.len()
        invariant
            i <= keys@.len(),
            out@ == positions_of(texts_of(keys@), k@, i as int),
        decreases keys@.len() - i,
    {
        if keys[i] == *k {
            out.push(i);
        }
        i = i + 1;
    }
    out
}

/// The view of a sourced claim: (specialist, claim).
pub open spec fn sourced_view(c: SourcedClaim) -> (Seq<char>, Seq<char>) {
    (c.specialist@, c.claim@)
}

/// The view of a tension: (claim a, claim b, specialist a, specialist b,
/// description).
pub open spec fn tension_view(t: Tension) -> (Seq<char>, Seq<char>, Seq<char>, Seq<char>, Seq<char>) {
    (t.claim_a@, t.claim_b@, t.specialist_a@, t.specialist_b@, t.description@)
}

/// Claims `i` and `j` come from different specialists and their lower-cased
/// texts `lw` are opposed.
pub open spec fn tension_at(cs: Seq<(Seq<char>, Seq<char>)>, lw: Seq<Seq<char>>, i: int, j: int) -> bool {
    cs[i].0 != cs[j].0 && synthesis_opposed(lw[i], lw[j])
}

/// The tension pairs (`i`, `t`) with `i < t < j`, in increasing `t`.
pub open spec fn row_pairs(cs: Seq<(Seq<char>, Seq<char>)>, lw: Seq<Seq<char>>, i: int, j: int) -> Seq<(int, int)>
    decreases j - i,
{
    if j <= i + 1 {
        Seq::empty()
    } else if tension_at(cs, lw, i, j - 1) {
        row_pairs(cs, lw, i, j - 1).push((i, j - 1))
    } else {
        row_pairs(cs, lw, i, j - 1)
    }
}

/// The tension pairs whose first claim is below `i`, row by row.
pub open spec fn tension_pairs(cs: Seq<(Seq<char>, Seq<char>)>, lw: Seq<Seq<char>>, i: int) -> Seq<(int, int)>
    decreases i,
{
    if i <= 0 {
        Seq::empty()
    } else {
        tension_pairs(cs, lw, i - 1) + row_pairs(cs, lw, i - 1, cs.len() as int)
    }
}

/// The tension reported for the pair (`i`, `j`).
pub open spec fn expected_tension(cs: Seq<(Seq<char>, Seq<char>)>, p: (int, int)) -> (
    Seq<char>,
    Seq<char>,
    Seq<char>,
    Seq<char>,
    Seq<char>,
) {
    (
        cs[p.0].1,
        cs[p.1].1,
        cs[p.0].0,
        cs[p.1].0,
        tension_text(cs[p.0].0, cs[p.1].0, cs[p.0].1, cs[p.1].1),
    )
}

/// Both claims of the pair can be cut after 50 bytes.
pub open spec fn pair_cuttable(cs: Seq<(Seq<char>, Seq<char>)>, i: int, j: int) -> bool {
    cut_at_boundary(cs[i].1, 50) && cut_at_boundary(cs[j].1, 50)
}

/// Some pair of claims is in tension while one of them cannot be cut after
/// 50 bytes.
pub open spec fn has_uncuttable_tension(cs: Seq<(Seq<char>, Seq<char>)>, lw: Seq<Seq<char>>) -> bool {
    exists|i: int, j: int|
        0 <= i < j < cs.len() && #[trigger] tension_at(cs, lw, i, j) && !pair_cuttable(cs, i, j)
}

/// The tensions among `claims`, judged on their lower-cased texts
/// `lowered`: every pair (`i` < `j`) of claims of different specialists whose
/// texts are opposed, in order of `i`, then `j`. `None` when such a pair
/// holds a claim that cannot be cut after 50 bytes for the description.
pub fn tensions_among(claims: &Vec<SourcedClaim>, lowered: &Vec<Vec<char>>) -> (r: Option<Vec<Tension>>)
    requires
        lowered@.len() == claims@.len(),
    ensures
        ({
            let cs = claims@.map_values(|c: SourcedClaim| sourced_view(c));
            let lw = lowered@.map_values(|v: Vec<char>| v@);
            &&& r is None <==> has_uncuttable_tension(cs, lw)
            &&& r matches Some(ts) ==> ts@.map_values(|t: Tension| tension_view(t)) == tension_pairs(
                cs,
                lw,
                cs.len() as int,
            ).map_values(|p: (int, int)| expected_tension(cs, p))
        }),
{
    let ghost cs = claims@.map_values(|c: SourcedClaim| sourced_view(c));
    let ghost lw = lowered@.map_values(|v: Vec<char>| v@);
    let n = claims.len();
    let mut out: Vec<Tension> = Vec::new();
    let mut i: usize = 0;
    while i < n
        invariant
            n == claims@.len(),
            lowered@.len() == n,
            cs == claims@.map_values(|c: SourcedClaim| sourced_view(c)),
            lw == lowered@.map_values(|v: Vec<char>| v@),
            i <= n,
            out@.map_values(|t: Tension| tension_view(t)) == tension_pairs(cs, lw, i as int).map_values(
                |p: (int, int)| expected_tension(cs, p),
            ),
            forall|a: int, b: int|
                0 <= a < i && a < b < n && #[trigger] tension_at(cs, lw, a, b) ==> pair_cuttable(cs, a, b),
        decreases n - i,
    {
        let mut j: usize = i + 1;
        while j < n
            invariant
                n == claims@.len(),
                lowered@.len() == n,
                cs == claims@.map_values(|c: SourcedClaim| sourced_view(c)),
                lw == lowered@.map_values(|v: Vec<char>| v@),
                i < n,
                i + 1 <= j <= n,
                out@.map_values(|t: Tension| tension_view(t)) == (tension_pairs(cs, lw, i as int)
                    + row_pairs(cs, lw, i as int, j as int)).map_values(
                    |p: (int, int)| expected_tension(cs, p),
                ),
                forall|a: int, b: int|
                    ((0 <= a < i && a < b < n) || (a == i && a < b < j)) && #[trigger] tension_at(
                        cs,
                        lw,
                        a,
                        b,
                    ) ==> pair_cuttable(cs, a, b),
            decreases n - j,
        {
            let same = claims[i].specialist == claims[j].specialist;
            let opposed = synthesis_opposed_lowered(&lowered[i], &lowered[j]);
            assert(cs[i as int] == sourced_view(claims@[i as int]));
            assert(cs[j as int] == sourced_view(claims@[j as int]));
            assert(lw[i as int] == lowered@[i as int]@);
            assert(lw[j as int] == lowered@[j as int]@);
            if !same && opposed {
                assert(tension_at(cs, lw, i as int, j as int));
                let ok_a = cuts_at_boundary(claims[i].claim.as_str(), 50);
                let ok_b = cuts_at_boundary(claims[j].claim.as_str(), 50);
                if !(ok_a && ok_b) {
                    assert(!pair_cuttable(cs, i as int, j as int));
                    return None;
                }
                let ta = truncate_text(claims[i].claim.as_str(), 50);
                let tb = truncate_text(claims[j].claim.as_str(), 50);
                let mut d = claims[i].specialist.clone();
                d.append(" and ");
                d.append(claims[j].specialist.as_str());
                d.append(" disagree on: ");
                d.append(ta.as_str());
                d.append(" vs ");
                d.append(tb.as_str());
                let t = Tension {
                    claim_a: claims[i].claim.clone(),
                    claim_b: claims[j].claim.clone(),
                    specialist_a: claims[i].specialist.clone(),
                    specialist_b: claims[j].specialist.clone(),
                    description: d,
                };
                let ghost before = out@;
                assert(tension_view(t) == expected_tension(cs, (i as int, j as int)));
                out.push(t);
                assert(out@.map_values(|t: Tension| tension_view(t)) =~= before.map_values(
                    |t: Tension| tension_view(t),
                ).push(tension_view(t)));
                assert(tension_pairs(cs, lw, i as int) + row_pairs(cs, lw, i as int, j + 1) =~= (
                tension_pairs(cs, lw, i as int) + row_pairs(cs, lw, i as int, j as int)).push(
                    (i as int, j as int),
                ));
            } else {
                assert(!tension_at(cs, lw, i as int, j as int));
                assert(row_pairs(cs, lw, i as int, j + 1) == row_pairs(cs, lw, i as int, j as int));
            }
            j = j + 1;
        }
        assert(tension_pairs(cs, lw, i + 1) == tension_pairs(cs, lw, i as int) + row_pairs(
            cs,
            lw,
            i as int,
            n as int,
        ));
        i = i + 1;
    }
    Some(out)
}

impl SynthesisEngine {
    /// The number of distinct specialists that make a claim robust.
    pub closed spec fn spec_agreement_threshold(&self) -> usize {
        self.agreement_threshold
    }

    /// Whether tensions are looked for.
    pub closed spec fn spec_tension_check(&self) -> bool {
        self.tension_check
    }

    /// An engine that calls a claim robust when three distinct specialists back it, and
    /// that looks for tensions.
    pub fn new() -> (e: Self)
        ensures
            e.spec_agreement_threshold() == 3,
            e.spec_tension_check(),
    {
        SynthesisEngine { agreement_threshold: 3, tension_check: true }
    }

    /// The number of distinct specialists that make a claim robust.
    pub fn agreement_threshold(&self) -> (r: usize)
        ensures
            r == self.spec_agreement_threshold(),
    {
        self.agreement_threshold
    }

    /// Whether tensions are looked for.
    pub fn tension_check(&self) -> (r: bool)
        ensures
            r == self.spec_tension_check(),
    {
        self.tension_check
    }

    /// Whether two claims contradict each other: after lower-casing, one
    /// holds a word of an opposite pair and the other holds its opposite.
    pub fn are_contradictory(&self, a: &str, b: &str) -> (r: bool)
        ensures
            r == synthesis_opposed(lowercase_of(a@), lowercase_of(b@)),
    {
        let al = lowered_chars(a);
        let bl = lowered_chars(b);
        synthesis_opposed_lowered(&al, &bl)
    }

    /// The key terms of a claim: the alphanumeric runs longer than three
    /// bytes that are not filler words, joined by single spaces.
    pub fn normalize_claim(&self, claim: &str) -> (r: String)
        ensures
            r@ == normalized(claim@, alnum_mask(claim@)),
    {
        let chars = chars_of(claim);
        let mut keep: Vec<bool> = Vec::new();
        let mut i: usize = 0;
        while i < chars.len()
            invariant
                chars@ == claim@,
                i <= chars@.len(),
                keep@ == alnum_mask(claim@).take(i as int),
            decreases chars@.len() - i,
        {
            let k = is_alnum(chars[i]);
            keep.push(k);
            assert(keep@ =~= alnum_mask(claim@).take(i + 1));
            i = i + 1;
        }
        assert(keep@ =~= alnum_mask(claim@));
        normalize_masked(&chars, &keep)
    }

    /// The tensions among the findings: pairs of claims of different
    /// specialists that contradict each other once lower-cased, in order.
    /// `None` when such a pair holds a claim that cannot be cut after 50
    /// bytes for the description.
    pub fn find_tensions(&self, claims: &Vec<SourcedClaim>) -> (r: Option<Vec<Tension>>)
        ensures
            ({
                let cs = claims@.map_values(|c: SourcedClaim| sourced_view(c));
                let lw = cs.map_values(|c: (Seq<char>, Seq<char>)| lowercase_of(c.1));
                &&& r is None <==> has_uncuttable_tension(cs, lw)
                &&& r matches Some(ts) ==> ts@.map_values(|t: Tension| tension_view(t))
                    == tension_pairs(cs, lw, cs.len() as int).map_values(
                    |p: (int, int)| expected_tension(cs, p),
                )
            }),
    {
        let ghost cs = claims@.map_values(|c: SourcedClaim| sourced_view(c));
        let ghost lw = cs.map_values(|c: (Seq<char>, Seq<char>)| lowercase_of(c.1));
        let mut lowered: Vec<Vec<char>> = Vec::new();
        let mut i: usize = 0;
        while i < claims.len()
            invariant
                i <= claims@.len(),
                cs == claims@.map_values(|c: SourcedClaim| sourced_view(c)),
                lw == cs.map_values(|c: (Seq<char>, Seq<char>)| lowercase_of(c.1)),
                lowered@.map_values(|v: Vec<char>| v@) == lw.take(i as int),
            decreases claims@.len() - i,
        {
            let l = lowered_chars(claims[i].claim.as_str());
            let ghost before = lowered@;
            lowered.push(l);
            assert(lowered@.map_values(|v: Vec<char>| v@) =~= before.map_values(|v: Vec<char>| v@).push(l@));
            assert(lw.take(i + 1) =~= lw.take(i as int).push(lw[i as int]));
            i = i + 1;
        }
        assert(lw.take(claims@.len() as int) =~= lw);
        tensions_among(claims, &lowered)
    }

    /// The open questions of all reports, in order, each kept at its first
    /// occurrence only.
    pub fn collect_blind_spots(&self, unanswered: &Vec<String>) -> (r: Vec<String>)
        ensures
            texts_of(r@) == first_occurrences(texts_of(unanswered@)),
    {
        first_occurrences_of(unanswered)
    }

    /// The findings grouped by normalized claim: one group per distinct
    /// claim, in order of first appearance, with the positions holding it.
    pub fn group_claims(&self, keys: &Vec<String>) -> (r: Vec<ClaimGroup>)
        ensures
            r@.map_values(|g: ClaimGroup| group_view(g)) == claim_groups(texts_of(keys@)),
    {
        let distinct = first_occurrences_of(keys);
        let mut out: Vec<ClaimGroup> = Vec::new();
        let mut g: usize = 0;
        while g < distinct.len()
            invariant
                g <= distinct@.len(),
                texts_of(distinct@) == first_occurrences(texts_of(keys@)),
                out@.map_values(|c: ClaimGroup| group_view(c)) == claim_groups(texts_of(keys@)).take(g as int),
            decreases distinct@.len() - g,
        {
            let members = positions_in(keys, &distinct[g]);
            let group = ClaimGroup { claim: distinct[g].clone(), members };
            let ghost before = out@;
            assert(texts_of(distinct@)[g as int] == distinct@[g as int]@);
            assert(group_view(group) == claim_groups(texts_of(keys@))[g as int]);
            out.push(group);
            assert(out@ == before.push(group));
            assert(out@.map_values(|c: ClaimGroup| group_view(c)) =~= before.map_values(
                |c: ClaimGroup| group_view(c),
            ).push(group_view(group)));
            assert(claim_groups(texts_of(keys@)).take(g + 1) =~= claim_groups(texts_of(keys@)).take(
                g as int,
            ).push(claim_groups(texts_of(keys@))[g as int]));
            g = g + 1;
        }
        out
    }

    /// The groups backed by at least `agreement_threshold` distinct
    /// specialists, in order, each with its specialists; `specialists`
    /// names the specialist of each finding.
    pub fn robust_groups(&self, groups: Vec<ClaimGroup>, specialists: &Vec<String>) -> (r: Vec<RobustGroup>)
        requires
            forall|g: int, k: int|
                0 <= g < groups@.len() && 0 <= k < groups@[g].members@.len() ==> #[trigger] groups@[g].members@[k]
                    < specialists@.len(),
        ensures
            r@.map_values(|g: RobustGroup| robust_view(g)) == backed_groups(
                groups@.map_values(|g: ClaimGroup| group_view(g)),
                texts_of(specialists@),
                self.spec_agreement_threshold() as nat,
            ),
    {
        let ghost all = groups@.map_values(|g: ClaimGroup| group_view(g));
        let ghost sp = texts_of(specialists@);
        let mut kept: Vec<RobustGroup> = Vec::new();
        let n = groups.len();
        let mut i: usize = 0;
        while i < n
            invariant
                n == groups@.len(),
                n == all.len(),
                i <= n,
                all == groups@.map_values(|g: ClaimGroup| group_view(g)),
                sp == texts_of(specialists@),
                forall|g: int, k: int|
                    0 <= g < groups@.len() && 0 <= k < groups@[g].members@.len() ==> #[trigger] groups@[g].members@[k]
                        < specialists@.len(),
                kept@.map_values(|c: RobustGroup| robust_view(c)) == backed_groups(
                    all.take(i as int),
                    sp,
                    self.spec_agreement_threshold() as nat,
                ),
            decreases n - i,
        {
            let g = &groups[i];
            let mut names: Vec<String> = Vec::new();
            let mut k: usize = 0;
            while k < g.members.len()
                invariant
                    g == groups@[i as int],
                    i < groups@.len(),
                    forall|g: int, k: int|
                        0 <= g < groups@.len() && 0 <= k < groups@[g].members@.len() ==> #[trigger] groups@[g].members@[k]
                            < specialists@.len(),
                    k <= g.members@.len(),
                    sp == texts_of(specialists@),
                    texts_of(names@) == g.members@.take(k as int).map_values(|m: usize| sp[m as int]),
                decreases g.members@.len() - k,
            {
                let m = g.members[k];
                assert(groups@[i as int].members@[k as int] < specialists@.len());
                let name = specialists[m].clone();
                let ghost before = names@;
                names.push(name);
                assert(name@ == sp[m as int]);
                assert(g.members@.take(k as int + 1) =~= g.members@.take(k as int).push(m));
                assert(texts_of(names@) =~= texts_of(before).push(name@));
                assert(texts_of(names@) =~= g.members@.take(k as int + 1).map_values(|m: usize| sp[m as int]));
                k = k + 1;
            }
            assert(g.members@.take(k as int) =~= g.members@);
            let who = first_occurrences_of(&names);
            assert(all.take(i as int + 1).drop_last() =~= all.take(i as int));
            assert(all[i as int] == group_view(*g));
            if who.len() >= self.agreement_threshold {
                let ghost before = kept@;
                let rg = RobustGroup { claim: g.claim.clone(), members: g.members.clone(), specialists: who };
                kept.push(rg);
                assert(kept@.map_values(|c: RobustGroup| robust_view(c)) =~= before.map_values(
                    |c: RobustGroup| robust_view(c),
                ).push(robust_view(rg)));
            }
            i = i + 1;
        }
        assert(all.take(n as int) =~= all);
        kept
    }

    /// `s` cut after `max_len` bytes with "..." appended, or `s` itself when
    /// it fits. A cut inside a character is refused.
    pub fn truncate(s: &str, max_len: usize) -> (r: String)
        requires
            cut_at_boundary(s@, max_len as nat),
        ensures
            r@ == cut_text(s@, max_len as nat),
    {
        truncate_text(s, max_len)
    }
}

/// Blind spots are listed once each: keeping first occurrences leaves no
/// repeats and loses no question.
pub proof fn law_blind_spots_distinct(s: Seq<Seq<char>>)
    ensures
        first_occurrences(s).no_duplicates(),
        forall|x: Seq<char>| first_occurrences(s).contains(x) == s.contains(x),
    decreases s.len(),
{
    assert forall|x: Seq<char>| first_occurrences(s).contains(x) == s.contains(x) by {
        lemma_first_occurrences_contains(s, x);
    }
    if s.len() > 0 {
        law_blind_spots_distinct(s.drop_last());
        let p = first_occurrences(s.drop_last());
        if !p.contains(s.last()) {
            let q = p.push(s.last());
            assert forall|a: int, b: int| 0 <= a < q.len() && 0 <= b < q.len() && a != b implies q[a]
                != q[b] by {
                if a == q.len() - 1 {
                    assert(p[b] == q[b]);
                } else if b == q.len() - 1 {
                    assert(p[a] == q[a]);
                } else {
                    assert(p[a] == q[a] && p[b] == q[b]);
                }
            }
        }
    }
}

/// A robust claim is backed by at least the threshold number of distinct
/// specialists: its specialists are listed once each, there are at least
/// `t` of them, and each backs one of its findings.
pub proof fn law_robust_backed(gs: Seq<(Seq<char>, Seq<usize>)>, sp: Seq<Seq<char>>, t: nat)
    ensures
        forall|k: int|
            0 <= k < backed_groups(gs, sp, t).len() ==> {
                let g = #[trigger] backed_groups(gs, sp, t)[k];
                &&& g.2.len() >= t
                &&& g.2.no_duplicates()
                &&& g.2 == group_specialists(g.1, sp)
            },
    decreases gs.len(),
{
    if gs.len() > 0 {
        law_robust_backed(gs.drop_last(), sp, t);
        let p = backed_groups(gs.drop_last(), sp, t);
        let g = gs.last();
        let who = group_specialists(g.1, sp);
        law_blind_spots_distinct(g.1.map_values(|m: usize| sp[m as int]));
        if who.len() >= t {
            let q = p.push((g.0, g.1, who));
            assert forall|k: int| 0 <= k < q.len() implies {
                let h = #[trigger] q[k];
                &&& h.2.len() >= t
                &&& h.2.no_duplicates()
                &&& h.2 == group_specialists(h.1, sp)
            } by {
                if k < p.len() {
                    assert(q[k] == p[k]);
                }
            }
        }
    }
}

/// Every tension pairs an earlier claim with a later one of a different
/// specialist, and their lower-cased texts are opposed.
pub proof fn law_tensions_oppose(cs: Seq<(Seq<char>, Seq<char>)>, lw: Seq<Seq<char>>, i: int)
    ensures
        forall|k: int|
            0 <= k < tension_pairs(cs, lw, i).len() ==> {
                let p = #[trigger] tension_pairs(cs, lw, i)[k];
                &&& 0 <= p.0 < p.1 < cs.len()
                &&& cs[p.0].0 != cs[p.1].0
                &&& synthesis_opposed(lw[p.0], lw[p.1])
            },
    decreases i,
{
    if i > 0 {
        law_tensions_oppose(cs, lw, i - 1);
        lemma_row_pairs_oppose(cs, lw, i - 1, cs.len() as int);
        let a = tension_pairs(cs, lw, i - 1);
        let b = row_pairs(cs, lw, i - 1, cs.len() as int);
        assert forall|k: int| 0 <= k < (a + b).len() implies {
            let p = #[trigger] (a + b)[k];
            &&& 0 <= p.0 < p.1 < cs.len()
            &&& cs[p.0].0 != cs[p.1].0
            &&& synthesis_opposed(lw[p.0], lw[p.1])
        } by {
            if k < a.len() {
                assert((a + b)[k] == a[k]);
            } else {
                assert((a + b)[k] == b[k - a.len()]);
            }
        }
    }
}

/// Each pair of a row is a tension with its first claim `i`.
proof fn lemma_row_pairs_oppose(cs: Seq<(Seq<char>, Seq<char>)>, lw: Seq<Seq<char>>, i: int, j: int)
    ensures
        forall|k: int|
            0 <= k < row_pairs(cs, lw, i, j).len() ==> {
                let p = #[trigger] row_pairs(cs, lw, i, j)[k];
                &&& p.0 == i
                &&& i < p.1 < j
                &&& (i >= 0 && j <= cs.len() ==> 0 <= p.0)
                &&& tension_at(cs, lw, p.0, p.1)
            },
    decreases j - i,
{
    if j > i + 1 {
        lemma_row_pairs_oppose(cs, lw, i, j - 1);
        let p = row_pairs(cs, lw, i, j - 1);
        if tension_at(cs, lw, i, j - 1) {
            assert forall|k: int| 0 <= k < p.push((i, j - 1)).len() implies {
                let q = #[trigger] p.push((i, j - 1))[k];
                &&& q.0 == i
                &&& i < q.1 < j
                &&& (i >= 0 && j <= cs.len() ==> 0 <= q.0)
                &&& tension_at(cs, lw, q.0, q.1)
            } by {
                if k < p.len() {
                    assert(p.push((i, j - 1))[k] == p[k]);
                }
            }
        }
    }
}


/// Every character of `w` belongs to words.
pub open spec fn all_alnum(w: Seq<char>) -> bool {
    forall|i: int| 0 <= i < w.len() ==> alphanumeric(#[trigger] w[i])
}

/// The pieces of `s` depend only on the mask over `s`.
proof fn lemma_pieces_mask(s: Seq<char>, k1: Seq<bool>, k2: Seq<bool>)
    requires
        forall|i: int| 0 <= i < s.len() ==> k1[i] == k2[i],
    ensures
        pieces(s, k1) == pieces(s, k2),
    decreases s.len(),
{
    if s.len() > 0 {
        lemma_pieces_mask(s.drop_last(), k1, k2);
    }
}

/// The pieces of a text split by its own mask hold only word characters.
proof fn lemma_pieces_alnum(s: Seq<char>, keep: Seq<bool>)
    requires
        forall|i: int| 0 <= i < s.len() ==> keep[i] == alphanumeric(s[i]),
    ensures
        pieces(s, keep).len() >= 1,
        forall|k: int| 0 <= k < pieces(s, keep).len() ==> all_alnum(#[trigger] pieces(s, keep)[k]),
    decreases s.len(),
{
    if s.len() > 0 {
        lemma_pieces_alnum(s.drop_last(), keep);
        let p = pieces(s.drop_last(), keep);
        let q = pieces(s, keep);
        assert forall|k: int| 0 <= k < q.len() implies all_alnum(#[trigger] q[k]) by {
            if keep[s.len() - 1] {
                if k == p.len() - 1 {
                    let w = p.last().push(s.last());
                    assert(q[k] == w);
                    assert forall|i: int| 0 <= i < w.len() implies alphanumeric(#[trigger] w[i]) by {
                        if i < w.len() - 1 {
                            assert(w[i] == p.last()[i]);
                            assert(all_alnum(p[p.len() - 1]));
                        }
                    }
                } else {
                    assert(q[k] == p[k]);
                }
            } else {
                if k < p.len() {
                    assert(q[k] == p[k]);
                }
            }
        }
    }
}

/// Appending word characters extends the last piece.
proof fn lemma_pieces_append(a: Seq<char>, b: Seq<char>, keep: Seq<bool>)
    requires
        keep.len() >= a.len() + b.len(),
        forall|i: int| a.len() <= i < a.len() + b.len() ==> #[trigger] keep[i],
    ensures
        pieces(a + b, keep) == pieces(a, keep).update(
            pieces(a, keep).len() - 1,
            pieces(a, keep).last() + b,
        ),
    decreases b.len(),
{
    let p = pieces(a, keep);
    assert(p.len() >= 1) by {
        lemma_pieces_len(a, keep);
    }
    if b.len() == 0 {
        assert(a + b =~= a);
        assert(p.last() + b =~= p.last());
        assert(p.update(p.len() - 1, p.last()) =~= p);
    } else {
        let b0 = b.drop_last();
        lemma_pieces_append(a, b0, keep);
        assert((a + b).drop_last() =~= a + b0);
        assert(keep[(a + b).len() - 1]);
        let q = p.update(p.len() - 1, p.last() + b0);
        assert(q.last() == p.last() + b0);
        assert((p.last() + b0).push(b.last()) =~= p.last() + b);
        assert(q.update(q.len() - 1, q.last().push(b.last())) =~= p.update(p.len() - 1, p.last() + b));
    }
}

/// A text always splits into at least one piece.
proof fn lemma_pieces_len(s: Seq<char>, keep: Seq<bool>)
    ensures
        pieces(s, keep).len() >= 1,
    decreases s.len(),
{
    if s.len() > 0 {
        lemma_pieces_len(s.drop_last(), keep);
    }
}

/// Words of word characters joined by spaces split back into those words.
proof fn lemma_pieces_of_joined(ws: Seq<Seq<char>>)
    requires
        !alphanumeric(' '),
        ws.len() >= 1,
        forall|k: int| 0 <= k < ws.len() ==> all_alnum(#[trigger] ws[k]),
    ensures
        pieces(joined(ws), alnum_mask(joined(ws))) == ws,
    decreases ws.len(),
{
    let t = joined(ws);
    let mt = alnum_mask(t);
    let w = ws.last();
    assert(all_alnum(ws[ws.len() - 1]));
    if ws.len() == 1 {
        assert(t == ws[0]);
        assert forall|i: int| 0 <= i < w.len() implies #[trigger] mt[i] by {
            assert(t[i] == w[i]);
        }
        lemma_pieces_append(Seq::empty(), w, mt);
        assert(Seq::<char>::empty() + w =~= w);
        assert(pieces(Seq::<char>::empty(), mt) == seq![Seq::<char>::empty()]);
        assert(seq![Seq::<char>::empty()].update(0, Seq::<char>::empty() + w) =~= ws);
    } else {
        let ws0 = ws.drop_last();
        assert forall|k: int| 0 <= k < ws0.len() implies all_alnum(#[trigger] ws0[k]) by {
            assert(ws0[k] == ws[k]);
        }
        lemma_pieces_of_joined(ws0);
        let t0 = joined(ws0);
        let a = t0 + seq![' '];
        assert(t == a + w);
        assert forall|i: int| a.len() <= i < a.len() + w.len() implies #[trigger] mt[i] by {
            assert(t[i] == w[i - a.len()]);
        }
        lemma_pieces_append(a, w, mt);
        // the space opens a new piece
        assert(a.drop_last() =~= t0);
        assert(t[t0.len() as int] == ' ');
        assert(!mt[t0.len() as int]);
        assert(pieces(a, mt) == pieces(t0, mt).push(Seq::empty()));
        assert forall|i: int| 0 <= i < t0.len() implies mt[i] == alnum_mask(t0)[i] by {
            assert(t[i] == t0[i]);
        }
        lemma_pieces_mask(t0, mt, alnum_mask(t0));
        assert(Seq::<char>::empty() + w =~= w);
        assert(ws0.push(Seq::empty()).update(ws0.len() as int, Seq::<char>::empty() + w) =~= ws);
    }
}

/// The key words of a list are key words, and a list of key words keeps
/// all of them.
proof fn lemma_key_words_keep(ws: Seq<Seq<char>>)
    ensures
        forall|k: int| 0 <= k < key_words(ws).len() ==> key_word(#[trigger] key_words(ws)[k]),
        (forall|k: int| 0 <= k < ws.len() ==> key_word(#[trigger] ws[k])) ==> key_words(ws) == ws,
        forall|k: int| 0 <= k < key_words(ws).len() ==> exists|j: int| 0 <= j < ws.len() && #[trigger] key_words(ws)[k] == ws[j],
    decreases ws.len(),
{
    if ws.len() > 0 {
        lemma_key_words_keep(ws.drop_last());
        let p = key_words(ws.drop_last());
        if key_word(ws.last()) {
            let q = p.push(ws.last());
            assert forall|k: int| 0 <= k < q.len() implies exists|j: int| 0 <= j < ws.len() && #[trigger] q[k] == ws[j] by {
                if k < p.len() {
                    assert(q[k] == p[k]);
                    let j = choose|j: int| 0 <= j < ws.drop_last().len() && p[k] == ws.drop_last()[j];
                    assert(ws.drop_last()[j] == ws[j]);
                } else {
                    assert(q[k] == ws[ws.len() - 1]);
                }
            }
            assert forall|k: int| 0 <= k < q.len() implies key_word(#[trigger] q[k]) by {
                if k < p.len() {
                    assert(q[k] == p[k]);
                }
            }
            if forall|k: int| 0 <= k < ws.len() ==> key_word(#[trigger] ws[k]) {
                assert forall|k: int| 0 <= k < ws.drop_last().len() implies key_word(#[trigger] ws.drop_last()[k]) by {
                    assert(ws.drop_last()[k] == ws[k]);
                }
                assert(q =~= ws);
            }
        } else {
            assert forall|k: int| 0 <= k < p.len() implies exists|j: int| 0 <= j < ws.len() && #[trigger] p[k] == ws[j] by {
                let j = choose|j: int| 0 <= j < ws.drop_last().len() && p[k] == ws.drop_last()[j];
                assert(ws.drop_last()[j] == ws[j]);
            }
            if forall|k: int| 0 <= k < ws.len() ==> key_word(#[trigger] ws[k]) {
                assert(key_word(ws[ws.len() - 1]));
            }
        }
    }
}

/// Normalizing is idempotent: the normal form of a normal form is itself
/// (a space being no word character, as `is_alnum` tells of every ASCII
/// character).
pub proof fn law_normalize_idempotent(s: Seq<char>)
    requires
        !alphanumeric(' '),
    ensures
        normalized(normalized(s, alnum_mask(s)), alnum_mask(normalized(s, alnum_mask(s))))
            == normalized(s, alnum_mask(s)),
{
    let ps = pieces(s, alnum_mask(s));
    let ws = key_words(ps);
    let t = joined(ws);
    lemma_pieces_alnum(s, alnum_mask(s));
    lemma_key_words_keep(ps);
    assert forall|k: int| 0 <= k < ws.len() implies all_alnum(#[trigger] ws[k]) by {
        let j = choose|j: int| 0 <= j < ps.len() && ws[k] == ps[j];
        assert(all_alnum(ps[j]));
    }
    if ws.len() == 0 {
        assert(t == Seq::<char>::empty());
        assert(pieces(t, alnum_mask(t)) == seq![Seq::<char>::empty()]);
        assert(utf8_len(Seq::<char>::empty()) == 0);
        let e = seq![Seq::<char>::empty()];
        assert(e.last() == Seq::<char>::empty());
        assert(!key_word(e.last()));
        assert(e.drop_last() =~= Seq::<Seq<char>>::empty());
        assert(key_words(e) == key_words(e.drop_last()));
        assert(key_words(e.drop_last()) == Seq::<Seq<char>>::empty());
    } else {
        lemma_pieces_of_joined(ws);
        lemma_key_words_keep(ws);
    }
}


/// A key word is one of more than three bytes other than "the", "and",
/// "has", "have", "with" and "from".
pub proof fn law_key_word(w: Seq<char>)
    ensures
        utf8_len(w) <= 3 ==> !key_word(w),
        w == "have"@ || w == "with"@ || w == "from"@ ==> !key_word(w),
        utf8_len(w) > 3 && w != "the"@ && w != "and"@ && w != "has"@ && w != "have"@ && w != "with"@ && w
            != "from"@ ==> key_word(w),
{
}

} // verus!
