//! Text helpers: decimal rendering of numbers and the character-level
//! searches that claims and findings are judged by.
use vstd::prelude::*;

verus! {

/// The ASCII digit for `d` (taken modulo 10).
pub open spec fn digit_char(d: nat) -> char {
    ((48 + d % 10) as u32) as char
}

/// Decimal rendering of a natural number, most significant digit first,
/// without leading zeros ("0" for zero).
pub open spec fn decimal(n: nat) -> Seq<char>
    decreases n,
{
    if n < 10 {
        seq![digit_char(n)]
    } else {
        decimal(n / 10).push(digit_char(n % 10))
    }
}

/// Decimal rendering of an integer: a leading '-' for negative numbers.
pub open spec fn signed_decimal(i: int) -> Seq<char> {
    if i < 0 {
        seq!['-'] + decimal((-i) as nat)
    } else {
        decimal(i as nat)
    }
}

/// Views of a list of strings.
pub open spec fn texts_of(vs: Seq<String>) -> Seq<Seq<char>> {
    vs.map_values(|s: String| s@)
}

/// `String::push`: appends one character.
#[verifier::external_body]
pub(crate) fn push_char(s: &mut String, c: char)
    ensures
        final(s)@ == old(s)@.push(c),
{
    s.push(c);
}

/// Decimal text of `n`.
pub fn usize_text(n: usize) -> (s: String)
    ensures
        s@ == decimal(n as nat),
{
    u64_text(n as u64)
}

/// Decimal text of `n`.
pub fn u64_text(n: u64) -> (s: String)
    ensures
        s@ == decimal(n as nat),
{
    // digits from least to most significant
    let mut digits: Vec<char> = Vec::new();
    let mut m: u64 = n;
    let ghost mut rest: Seq<char> = Seq::empty();
    loop
        invariant_except_break
            decimal(n as nat) == decimal(m as nat) + digits@.reverse(),
        ensures
            decimal(n as nat) == digits@.reverse(),
        decreases m,
    {
        let d = m % 10;
        let c = ((48 + d) as u8) as char;
        assert(c == digit_char(d as nat)) by {
            assert(d as nat % 10 == d as nat);
        }
        if m < 10 {
            assert(decimal(m as nat) == seq![c]);
            assert(digits@.push(c).reverse() =~= seq![c] + digits@.reverse());
            digits.push(c);
            assert(decimal(n as nat) == digits@.reverse());
            break;
        }
        assert(decimal(m as nat) == decimal((m / 10) as nat).push(c));
        assert(digits@.push(c).reverse() =~= seq![c] + digits@.reverse());
        assert(decimal(m as nat) + digits@.reverse() =~= decimal((m / 10) as nat) + (seq![c]
            + digits@.reverse()));
        digits.push(c);
        m = m / 10;
    }
    let mut s = String::new();
    let mut k: usize = digits.len();
    while k > 0
        invariant
            k <= digits@.len(),
            s@ == digits@.reverse().take((digits@.len() - k) as int),
            decimal(n as nat) == digits@.reverse(),
        decreases k,
    {
        k = k - 1;
        let ghost before = s@;
        push_char(&mut s, digits[k]);
        assert(digits@.reverse()[(digits@.len() - k - 1) as int] == digits@[k as int]);
        assert(s@ =~= digits@.reverse().take((digits@.len() - k) as int));
    }
    assert(digits@.reverse().take(digits@.len() as int) =~= digits@.reverse());
    s
}

/// Decimal text of `i`, with a leading '-' when negative.
pub fn i64_text(i: i64) -> (s: String)
    ensures
        s@ == signed_decimal(i as int),
{
    if i < 0 {
        let mag: u64 = if i == i64::MIN {
            9223372036854775808u64
        } else {
            (-i) as u64
        };
        let digits = u64_text(mag);
        let mut s = String::new();
        push_char(&mut s, '-');
        s.append(digits.as_str());
        assert(s@ =~= seq!['-'] + decimal((-(i as int)) as nat));
        s
    } else {
        u64_text(i as u64)
    }
}

/// `needle` occurs in `hay` as a contiguous run (the empty text occurs
/// everywhere).
pub open spec fn has_substring(hay: Seq<char>, needle: Seq<char>) -> bool {
    exists|i: int| 0 <= i <= hay.len() - needle.len() && #[trigger] hay.subrange(i, i + needle.len()) == needle
}

/// `c` is an ASCII letter or digit.
pub open spec fn ascii_alnum(c: char) -> bool {
    let u = c as u32;
    (48 <= u <= 57) || (65 <= u <= 90) || (97 <= u <= 122)
}

/// Every character of `s` is ASCII.
pub open spec fn all_ascii(s: Seq<char>) -> bool {
    forall|i: int| 0 <= i < s.len() ==> (#[trigger] s[i] as u32) < 128
}

/// ASCII lower-casing of one character: 'A'..='Z' become 'a'..='z'.
pub open spec fn ascii_lower(c: char) -> char {
    let u = c as u32;
    if 65 <= u <= 90 {
        (u + 32) as char
    } else {
        c
    }
}

/// ASCII lower-casing of a text.
pub open spec fn ascii_lowered(s: Seq<char>) -> Seq<char> {
    s.map_values(|c: char| ascii_lower(c))
}

/// What `str::to_lowercase` returns for a text (Unicode lower-case mapping).
pub uninterp spec fn lowercase_of(s: Seq<char>) -> Seq<char>;

/// `str::to_lowercase`: the text with every character mapped to lower case
/// by Unicode's rules. Claimed: the result is `lowercase_of` of the
/// argument, and on an all-ASCII text it is the ASCII lower-casing (the
/// Unicode lower-case mapping of an ASCII character is its ASCII one).
/// What `lowercase_of` computes outside ASCII is left unsaid.
#[verifier::external_body]
pub fn lowercase(s: &str) -> (r: String)
    ensures
        r@ == lowercase_of(s@),
        all_ascii(s@) ==> r@ == ascii_lowered(s@),
{
    s.to_lowercase()
}

/// What `char::is_alphanumeric` answers for a character (Unicode
/// `Alphabetic` or `Numeric`).
pub uninterp spec fn alphanumeric(c: char) -> bool;

/// `char::is_alphanumeric`. Claimed: the answer is `alphanumeric(c)`, and
/// for an ASCII character it is whether the character is a letter or a
/// digit. Which non-ASCII characters count is left unsaid.
#[verifier::external_body]
pub fn is_alnum(c: char) -> (r: bool)
    ensures
        r == alphanumeric(c),
        (c as u32) < 128 ==> (r == ascii_alnum(c)),
{
    c.is_alphanumeric()
}

/// Number of bytes in the UTF-8 encoding of `c`.
pub open spec fn utf8_width(c: char) -> nat {
    let u = c as u32;
    if u < 0x80 {
        1
    } else if u < 0x800 {
        2
    } else if u < 0x10000 {
        3
    } else {
        4
    }
}

/// Number of bytes in the UTF-8 encoding of `s` (what `str::len` gives).
pub open spec fn utf8_len(s: Seq<char>) -> nat
    decreases s.len(),
{
    if s.len() == 0 {
        0
    } else {
        utf8_len(s.drop_last()) + utf8_width(s.last())
    }
}

/// UTF-8 length of `c` in bytes.
pub fn char_width(c: char) -> (w: usize)
    ensures
        w == utf8_width(c),
{
    let u = c as u32;
    if u < 0x80 {
        1
    } else if u < 0x800 {
        2
    } else if u < 0x10000 {
        3
    } else {
        4
    }
}

/// How many leading characters of `s` fit, whole, in `max` bytes.
pub open spec fn fit_count(s: Seq<char>, max: nat) -> nat
    decreases s.len(),
{
    if s.len() == 0 || utf8_width(s[0]) > max {
        0
    } else {
        1 + fit_count(s.drop_first(), (max - utf8_width(s[0])) as nat)
    }
}

/// The longest prefix of `s` whose encoding fits in `max` bytes.
pub open spec fn byte_prefix(s: Seq<char>, max: nat) -> Seq<char> {
    s.take(fit_count(s, max) as int)
}

/// Cutting `s` after `max` bytes falls on a character boundary: either the
/// whole text fits, or some prefix takes exactly `max` bytes.
pub open spec fn cut_at_boundary(s: Seq<char>, max: nat) -> bool {
    utf8_len(s) <= max || utf8_len(byte_prefix(s, max)) == max
}

/// UTF-8 length of a text grows by the width of an appended character.
pub proof fn lemma_utf8_len_push(s: Seq<char>, c: char)
    ensures
        utf8_len(s.push(c)) == utf8_len(s) + utf8_width(c),
{
    assert(s.push(c).drop_last() =~= s);
}

/// UTF-8 length of a concatenation.
pub proof fn lemma_utf8_len_concat(a: Seq<char>, b: Seq<char>)
    ensures
        utf8_len(a + b) == utf8_len(a) + utf8_len(b),
    decreases b.len(),
{
    if b.len() == 0 {
        assert(a + b =~= a);
    } else {
        lemma_utf8_len_concat(a, b.drop_last());
        assert((a + b).drop_last() =~= a + b.drop_last());
    }
}

/// Peeling the first character off the count of characters that fit.
proof fn lemma_fit_step(s: Seq<char>, max: nat, i: int, used: nat)
    requires
        0 <= i < s.len(),
        used == utf8_len(s.take(i)),
        used + utf8_width(s[i]) <= max,
        fit_count(s, max) == i + fit_count(s.skip(i), (max - used) as nat),
    ensures
        fit_count(s, max) == (i + 1) + fit_count(s.skip(i + 1), (max - used - utf8_width(s[i])) as nat),
        utf8_len(s.take(i + 1)) == used + utf8_width(s[i]),
{
    assert(s.skip(i).drop_first() =~= s.skip(i + 1));
    assert(s.skip(i)[0] == s[i]);
    assert(s.take(i + 1) =~= s.take(i).push(s[i]));
    lemma_utf8_len_push(s.take(i), s[i]);
}

/// How many leading characters of `chars` fit in `max_len` bytes, and the
/// bytes they take.
fn fit_prefix(chars: &Vec<char>, max_len: usize) -> (r: (usize, usize))
    ensures
        r.0 <= chars@.len(),
        r.0 == fit_count(chars@, max_len as nat),
        r.1 == utf8_len(chars@.take(r.0 as int)),
        r.1 <= max_len,
        r.0 == chars@.len() ==> utf8_len(chars@) <= max_len,
        r.0 < chars@.len() ==> utf8_len(chars@) > max_len,
{
    let ghost s = chars@;
    let n = chars.len();
    let mut used: usize = 0;
    let mut i: usize = 0;
    assert(s.skip(0) =~= s);
    assert(s.take(0) =~= Seq::<char>::empty());
    while i < n && char_width(chars[i]) <= max_len - used
        invariant
            n == s.len(),
            s == chars@,
            i <= n,
            used <= max_len,
            used == utf8_len(s.take(i as int)),
            fit_count(s, max_len as nat) == i + fit_count(s.skip(i as int), (max_len - used) as nat),
        decreases n - i,
    {
        proof {
            lemma_fit_step(s, max_len as nat, i as int, used as nat);
        }
        let w = char_width(chars[i]);
        used = used + w;
        i = i + 1;
    }
    if i == n {
        assert(s.take(n as int) =~= s);
    } else {
        proof {
            let rest = s.skip(i as int);
            assert(rest[0] == s[i as int]);
            assert(fit_count(rest, (max_len - used) as nat) == 0);
            assert(s =~= s.take(i as int) + rest);
            lemma_utf8_len_concat(s.take(i as int), rest);
            assert(rest =~= seq![s[i as int]] + rest.drop_first());
            lemma_utf8_len_concat(seq![s[i as int]], rest.drop_first());
            assert(seq![s[i as int]].drop_last() =~= Seq::<char>::empty());
        }
    }
    (i, used)
}

/// Whether cutting `s` after `max_len` bytes falls on a character boundary.
pub fn cuts_at_boundary(s: &str, max_len: usize) -> (r: bool)
    ensures
        r == cut_at_boundary(s@, max_len as nat),
{
    let chars = chars_of(s);
    let (i, used) = fit_prefix(&chars, max_len);
    i == chars.len() || used == max_len
}

/// `s` cut after `max_len` bytes, with "..." appended when it was longer;
/// `s` itself when it fits. A cut inside a character is refused.
pub fn truncate_text(s: &str, max_len: usize) -> (r: String)
    requires
        cut_at_boundary(s@, max_len as nat),
    ensures
        utf8_len(s@) <= max_len ==> r@ == s@,
        utf8_len(s@) > max_len ==> r@ == byte_prefix(s@, max_len as nat) + "..."@,
{
    let chars = chars_of(s);
    let (cut, _used) = fit_prefix(&chars, max_len);
    if cut == chars.len() {
        return s.to_owned();
    }
    let mut out = String::new();
    let mut i: usize = 0;
    while i < cut
        invariant
            cut < chars@.len(),
            chars@ == s@,
            i <= cut,
            out@ == s@.take(i as int),
        decreases cut - i,
    {
        push_char(&mut out, chars[i]);
        assert(out@ =~= s@.take(i + 1));
        i = i + 1;
    }
    out.append("...");
    out
}

/// The characters of a text.
pub fn chars_of(s: &str) -> (v: Vec<char>)
    ensures
        v@ == s@,
{
    let n = s.unicode_len();
    let mut v: Vec<char> = Vec::new();
    let mut i: usize = 0;
    while i < n
        invariant
            n == s@.len(),
            i <= n,
            v@ == s@.take(i as int),
        decreases n - i,
    {
        let c = s.get_char(i);
        v.push(c);
        assert(v@ =~= s@.take(i + 1));
        i = i + 1;
    }
    assert(s@.take(n as int) =~= s@);
    v
}

/// Whether `needle` occurs in `hay` starting at position `i`.
fn matches_at(hay: &Vec<char>, needle: &Vec<char>, i: usize) -> (r: bool)
    requires
        i + needle@.len() <= hay@.len(),
    ensures
        r == (hay@.subrange(i as int, i + needle@.len()) == needle@),
{
    let n = hay.len();
    let mut k: usize = 0;
    while k < needle.len()
        invariant
            n == hay@.len(),
            i + needle@.len() <= hay@.len(),
            k <= needle@.len(),
            forall|t: int| 0 <= t < k ==> hay@[i + t] == needle@[t],
        decreases needle@.len() - k,
    {
        assert(i + k < hay@.len());
        if hay[i + k] != needle[k] {
            assert(hay@.subrange(i as int, i + needle@.len())[k as int] != needle@[k as int]);
            return false;
        }
        k = k + 1;
    }
    assert(hay@.subrange(i as int, i + needle@.len()) =~= needle@);
    true
}

/// Whether `needle` occurs in `hay`.
pub fn seq_contains(hay: &Vec<char>, needle: &Vec<char>) -> (r: bool)
    ensures
        r == has_substring(hay@, needle@),
{
    if needle.len() > hay.len() {
        return false;
    }
    let last = hay.len() - needle.len();
    let mut i: usize = 0;
    loop
        invariant
            last == hay@.len() - needle@.len(),
            needle@.len() <= hay@.len(),
            i <= last,
            forall|t: int| 0 <= t < i ==> #[trigger] hay@.subrange(t, t + needle@.len()) != needle@,
        decreases last - i,
    {
        if matches_at(hay, needle, i) {
            return true;
        }
        if i == last {
            return false;
        }
        i = i + 1;
    }
}

/// Whether `needle` occurs in `hay`.
pub fn text_contains(hay: &str, needle: &str) -> (r: bool)
    ensures
        r == has_substring(hay@, needle@),
{
    let h = chars_of(hay);
    let n = chars_of(needle);
    seq_contains(&h, &n)
}

} // verus!
