//! Scanning primitives over a sequence of characters: whitespace, digits and
//! literal matching, each with a recursive specification and an executable
//! scan proved equal to it.
use vstd::prelude::*;

verus! {

/// The whitespace characters that separate the parts of a clipping.
pub open spec fn is_ws(c: char) -> bool {
    c == ' ' || c == '\t' || c == '\n' || c == '\r' || c == '\x0B' || c == '\x0C'
}

pub open spec fn is_digit(c: char) -> bool {
    '0' <= c && c <= '9'
}

pub open spec fn digit_value(c: char) -> nat {
    ((c as u32) - ('0' as u32)) as nat
}

/// The number written by a string of decimal digits (zero for the empty string).
pub open spec fn decimal_value(d: Seq<char>) -> nat
    decreases d.len(),
{
    if d.len() == 0 {
        0
    } else {
        decimal_value(d.drop_last()) * 10 + digit_value(d.last())
    }
}

/// The first position at or after `i` (and before `hi`) that is not whitespace, or `hi`.
pub open spec fn skip_ws(s: Seq<char>, i: int, hi: int) -> int
    decreases hi - i,
{
    if 0 <= i < hi && is_ws(s[i]) {
        skip_ws(s, i + 1, hi)
    } else {
        i
    }
}

/// `j` moved left past the whitespace that ends `s[lo..j]`.
pub open spec fn trim_end(s: Seq<char>, lo: int, j: int) -> int
    decreases j - lo,
{
    if lo < j && is_ws(s[j - 1]) {
        trim_end(s, lo, j - 1)
    } else {
        j
    }
}

/// The end of the run of digits that starts at `i`, bounded by `hi`.
pub open spec fn digits_end(s: Seq<char>, i: int, hi: int) -> int
    decreases hi - i,
{
    if 0 <= i < hi && is_digit(s[i]) {
        digits_end(s, i + 1, hi)
    } else {
        i
    }
}

/// `pat` occurs in `s` at `i`, ending no later than `hi`.
pub open spec fn matches_at(s: Seq<char>, pat: Seq<char>, i: int, hi: int) -> bool {
    &&& 0 <= i
    &&& i + pat.len() <= hi <= s.len()
    &&& s.subrange(i, i + pat.len()) == pat
}

/// The first position at or after `i` where `pat` occurs before `hi`, or -1.
pub open spec fn find_from(s: Seq<char>, pat: Seq<char>, i: int, hi: int) -> int
    decreases hi - i + 1,
{
    if i < 0 || i + pat.len() > hi {
        -1
    } else if matches_at(s, pat, i, hi) {
        i
    } else {
        find_from(s, pat, i + 1, hi)
    }
}

/// A number read at `i`: its value and where its digits end. None when no
/// digit stands at `i`.
pub open spec fn parse_number(s: Seq<char>, i: int, hi: int) -> Option<(nat, int)> {
    let j = digits_end(s, i, hi);
    if j == i {
        None
    } else {
        Some((decimal_value(s.subrange(i, j)), j))
    }
}

/// `o` holds `v` when `v` fits a `u64`, and nothing when it does not.
pub open spec fn fits_as(o: Option<u64>, v: nat) -> bool {
    if v <= u64::MAX {
        o == Some(v as u64)
    } else {
        o is None
    }
}

pub proof fn lemma_digits_end(s: Seq<char>, i: int, hi: int)
    requires
        0 <= i <= hi <= s.len(),
    ensures
        i <= digits_end(s, i, hi) <= hi,
        forall|k: int| i <= k < digits_end(s, i, hi) ==> is_digit(#[trigger] s[k]),
        digits_end(s, i, hi) < hi ==> !is_digit(s[digits_end(s, i, hi)]),
    decreases hi - i,
{
    if i < hi && is_digit(s[i]) {
        lemma_digits_end(s, i + 1, hi);
    }
}

pub proof fn lemma_skip_ws(s: Seq<char>, i: int, hi: int)
    requires
        0 <= i <= hi <= s.len(),
    ensures
        i <= skip_ws(s, i, hi) <= hi,
        forall|k: int| i <= k < skip_ws(s, i, hi) ==> is_ws(#[trigger] s[k]),
        skip_ws(s, i, hi) < hi ==> !is_ws(s[skip_ws(s, i, hi)]),
    decreases hi - i,
{
    if i < hi && is_ws(s[i]) {
        lemma_skip_ws(s, i + 1, hi);
    }
}

pub proof fn lemma_trim_end(s: Seq<char>, lo: int, j: int)
    requires
        0 <= lo <= j <= s.len(),
    ensures
        lo <= trim_end(s, lo, j) <= j,
        forall|k: int| trim_end(s, lo, j) <= k < j ==> is_ws(#[trigger] s[k]),
        lo < trim_end(s, lo, j) ==> !is_ws(s[trim_end(s, lo, j) - 1]),
    decreases j - lo,
{
    if lo < j && is_ws(s[j - 1]) {
        lemma_trim_end(s, lo, j - 1);
    }
}

pub proof fn lemma_find_from_bounds(s: Seq<char>, pat: Seq<char>, i: int, hi: int)
    ensures
        find_from(s, pat, i, hi) == -1 || (i <= find_from(s, pat, i, hi) && matches_at(
            s,
            pat,
            find_from(s, pat, i, hi),
            hi,
        )),
    decreases hi - i + 1,
{
    if !(i < 0 || i + pat.len() > hi) && !matches_at(s, pat, i, hi) {
        lemma_find_from_bounds(s, pat, i + 1, hi);
    }
}

/// Whitespace all the way from `i` to `j`, and none at `j`: the scan stops at `j`.
pub proof fn lemma_skip_ws_to(s: Seq<char>, i: int, j: int, hi: int)
    requires
        0 <= i <= j <= hi <= s.len(),
        forall|k: int| i <= k < j ==> is_ws(#[trigger] s[k]),
        j == hi || !is_ws(s[j]),
    ensures
        skip_ws(s, i, hi) == j,
    decreases j - i,
{
    if i < j {
        lemma_skip_ws_to(s, i + 1, j, hi);
    }
}

/// Whitespace all the way from `k` to `j`, and none just before `k`: the
/// trimmed end is `k`.
pub proof fn lemma_trim_end_to(s: Seq<char>, lo: int, j: int, k: int)
    requires
        0 <= lo < k <= j <= s.len(),
        forall|t: int| k <= t < j ==> is_ws(#[trigger] s[t]),
        !is_ws(s[k - 1]),
    ensures
        trim_end(s, lo, j) == k,
    decreases j - k,
{
    if k < j {
        lemma_trim_end_to(s, lo, j - 1, k);
    }
}

/// Digits all the way from `i` to `j`, and none at `j`: the run ends at `j`.
pub proof fn lemma_digits_end_to(s: Seq<char>, i: int, j: int, hi: int)
    requires
        0 <= i <= j <= hi <= s.len(),
        forall|k: int| i <= k < j ==> is_digit(#[trigger] s[k]),
        j == hi || !is_digit(s[j]),
    ensures
        digits_end(s, i, hi) == j,
    decreases j - i,
{
    if i < j {
        lemma_digits_end_to(s, i + 1, j, hi);
    }
}

/// `pat` occurs at `m` and nowhere in `[i, m)`: the first occurrence from `i` is `m`.
pub proof fn lemma_find_from_at(s: Seq<char>, pat: Seq<char>, i: int, m: int, hi: int)
    requires
        0 <= i <= m,
        matches_at(s, pat, m, hi),
        forall|p: int| i <= p < m ==> !#[trigger] matches_at(s, pat, p, hi),
    ensures
        find_from(s, pat, i, hi) == m,
    decreases m - i,
{
    if i < m {
        assert(!matches_at(s, pat, i, hi));
        lemma_find_from_at(s, pat, i + 1, m, hi);
    }
}

/// A run of digits from `i` to `j` reads as its value.
pub proof fn lemma_parse_number_at(s: Seq<char>, i: int, j: int, hi: int)
    requires
        0 <= i < j <= hi <= s.len(),
        forall|k: int| i <= k < j ==> is_digit(#[trigger] s[k]),
        j == hi || !is_digit(s[j]),
    ensures
        parse_number(s, i, hi) == Some((decimal_value(s.subrange(i, j)), j)),
{
    lemma_digits_end_to(s, i, j, hi);
}

/// A longer run of digits is worth at least as much as its prefix.
pub proof fn lemma_value_grows(s: Seq<char>, i: int, j: int, k: int)
    requires
        0 <= i <= j <= k <= s.len(),
    ensures
        decimal_value(s.subrange(i, j)) <= decimal_value(s.subrange(i, k)),
    decreases k - j,
{
    if j < k {
        lemma_value_grows(s, i, j, k - 1);
        assert(s.subrange(i, k).drop_last() =~= s.subrange(i, k - 1));
    }
}

pub fn is_ws_char(c: char) -> (r: bool)
    ensures
        r == is_ws(c),
{
    c == ' ' || c == '\t' || c == '\n' || c == '\r' || c == '\x0B' || c == '\x0C'
}

pub fn is_digit_char(c: char) -> (r: bool)
    ensures
        r == is_digit(c),
{
    '0' <= c && c <= '9'
}

/// The characters of `s`, one by one.
pub fn chars_of(s: &str) -> (r: Vec<char>)
    ensures
        r@ == s@,
{
    let mut r: Vec<char> = Vec::new();
    for c in it: s.chars()
        invariant
            it.seq() == s@,
            r@ == s@.take(it.index() as int),
    {
        r.push(c);
        assert(r@ =~= s@.take(it.index() + 1));
    }
    assert(r@ =~= s@);
    r
}


/// The first position at or after `i` that is not whitespace, or `hi`.
pub fn skip_whitespace(cs: &Vec<char>, i: usize, hi: usize) -> (r: usize)
    requires
        i <= hi <= cs@.len(),
    ensures
        r as int == skip_ws(cs@, i as int, hi as int),
{
    let mut j = i;
    while j < hi && is_ws_char(cs[j])
        invariant
            i <= j <= hi <= cs@.len(),
            skip_ws(cs@, j as int, hi as int) == skip_ws(cs@, i as int, hi as int),
        decreases hi - j,
    {
        j += 1;
    }
    j
}

/// `j` moved left past the whitespace that ends `cs[lo..j]`.
pub fn trim_whitespace_end(cs: &Vec<char>, lo: usize, j: usize) -> (r: usize)
    requires
        lo <= j <= cs@.len(),
    ensures
        r as int == trim_end(cs@, lo as int, j as int),
{
    let mut k = j;
    while lo < k && is_ws_char(cs[k - 1])
        invariant
            lo <= k <= j <= cs@.len(),
            trim_end(cs@, lo as int, k as int) == trim_end(cs@, lo as int, j as int),
        decreases k,
    {
        k -= 1;
    }
    k
}

/// Whether `pat` occurs in `cs` at `i`, ending no later than `hi`.
pub fn literal_at(cs: &Vec<char>, pat: &Vec<char>, i: usize, hi: usize) -> (r: bool)
    requires
        hi <= cs@.len(),
    ensures
        r == matches_at(cs@, pat@, i as int, hi as int),
{
    if i > hi || pat.len() > hi - i {
        return false;
    }
    let n = pat.len();
    let mut k: usize = 0;
    while k < n
        invariant
            n == pat@.len(),
            i + n <= hi <= cs@.len(),
            k <= n,
            forall|t: int| 0 <= t < k ==> cs@[i + t] == pat@[t],
        decreases n - k,
    {
        if cs[i + k] != pat[k] {
            assert(cs@.subrange(i as int, i + n)[k as int] != pat@[k as int]);
            return false;
        }
        k += 1;
    }
    assert(cs@.subrange(i as int, i + n) =~= pat@);
    true
}

/// The first position at or after `i` where `pat` occurs before `hi`.
pub fn find_literal(cs: &Vec<char>, pat: &Vec<char>, i: usize, hi: usize) -> (r: Option<usize>)
    requires
        hi <= cs@.len(),
        pat@.len() > 0,
    ensures
        match r {
            Some(k) => k as int == find_from(cs@, pat@, i as int, hi as int),
            None => find_from(cs@, pat@, i as int, hi as int) == -1,
        },
{
    let mut k = i;
    while k <= hi && pat.len() <= hi - k
        invariant
            i <= k,
            hi <= cs@.len(),
            pat@.len() > 0,
            find_from(cs@, pat@, k as int, hi as int) == find_from(cs@, pat@, i as int, hi as int),
        decreases hi - k + 1,
    {
        if literal_at(cs, pat, k, hi) {
            return Some(k);
        }
        k += 1;
    }
    None
}

/// Reads the decimal number at `i`, as `parse_number` says; its value is
/// none when it does not fit a `u64`.
pub fn read_number(cs: &Vec<char>, i: usize, hi: usize) -> (r: Option<(Option<u64>, usize)>)
    requires
        i <= hi <= cs@.len(),
    ensures
        match parse_number(cs@, i as int, hi as int) {
            Some((v, j)) => r matches Some((rv, rj)) && fits_as(rv, v) && rj as int == j,
            None => r is None,
        },
        r matches Some((_, rj)) ==> i < rj <= hi,
{
    let ghost s = cs@;
    proof {
        lemma_digits_end(s, i as int, hi as int);
    }
    let ghost e = digits_end(s, i as int, hi as int);
    let mut j = i;
    let mut v: u64 = 0;
    let mut too_large = false;
    assert(s.subrange(i as int, i as int) =~= Seq::<char>::empty());
    while j < hi && is_digit_char(cs[j])
        invariant
            s == cs@,
            i <= j <= hi <= s.len(),
            e == digits_end(s, i as int, hi as int),
            digits_end(s, j as int, hi as int) == e,
            i <= e <= hi,
            forall|k: int| i <= k < e ==> is_digit(#[trigger] s[k]),
            !too_large ==> v == decimal_value(s.subrange(i as int, j as int)),
            too_large ==> decimal_value(s.subrange(i as int, j as int)) > u64::MAX,
        decreases hi - j,
    {
        let d = (cs[j] as u32 - '0' as u32) as u64;
        assert(s.subrange(i as int, j + 1).drop_last() =~= s.subrange(i as int, j as int));
        proof {
            lemma_value_grows(s, i as int, j as int, j + 1);
        }
        if !too_large {
            assert(decimal_value(s.subrange(i as int, j + 1)) == v * 10 + d);
            if v > 1844674407370955161u64 || (v == 1844674407370955161u64 && d > 5) {
                too_large = true;
            } else {
                v = v * 10 + d;
            }
        }
        j += 1;
    }
    if j == i {
        None
    } else if too_large {
        Some((None, j))
    } else {
        Some((Some(v), j))
    }
}

} // verus!
