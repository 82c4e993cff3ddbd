//! Recognition of one block of the clippings export as a highlight record, a
//! note record, or neither.
//!
//! A highlight block reads, after surrounding whitespace is trimmed:
//! `TITLE (AUTHOR) - Your Highlight on page P | location S-E | Added on STAMP`,
//! then whitespace and the quoted text. A note block has `Your Note on page`
//! and a single location `L` in place of `S-E`, and the note's text last.
//! The author is what stands between a ` (` and the marker: the last ` (`
//! before the marker whose text up to the marker holds a comma. The stamp runs to the first time of day
//! `hh:mm:ss`, which must follow a space, a four-digit year, a space, and at
//! least one more character of the stamp.
use vstd::prelude::*;
use crate::text::{
    chars_of, find_from, find_literal, is_digit, is_digit_char, is_ws, is_ws_char,
    lemma_find_from_bounds, lemma_skip_ws, lemma_trim_end, literal_at,
    fits_as, matches_at, parse_number, read_number, skip_whitespace, skip_ws,
    trim_end, trim_whitespace_end,
};

verus! {

pub open spec fn highlight_marker() -> Seq<char> {
    ") - Your Highlight on page "@
}

pub open spec fn note_marker() -> Seq<char> {
    ") - Your Note on page "@
}

pub open spec fn author_opening() -> Seq<char> {
    " ("@
}

pub open spec fn location_label() -> Seq<char> {
    " | location "@
}

pub open spec fn added_label() -> Seq<char> {
    " | Added on "@
}

/// A time of day `hh:mm:ss` stands at `k`, before `hi`.
pub open spec fn time_at(s: Seq<char>, k: int, hi: int) -> bool {
    &&& 0 <= k
    &&& k + 8 <= hi <= s.len()
    &&& is_digit(s[k])
    &&& is_digit(s[k + 1])
    &&& s[k + 2] == ':'
    &&& is_digit(s[k + 3])
    &&& is_digit(s[k + 4])
    &&& s[k + 5] == ':'
    &&& is_digit(s[k + 6])
    &&& is_digit(s[k + 7])
}

/// The first position at or after `k` where a time of day stands, or -1.
pub open spec fn find_time(s: Seq<char>, k: int, hi: int) -> int
    decreases hi - k,
{
    if k < 0 || k + 8 > hi {
        -1
    } else if time_at(s, k, hi) {
        k
    } else {
        find_time(s, k + 1, hi)
    }
}

/// A space, four digits of a year and a space end just before `k`.
pub open spec fn year_before(s: Seq<char>, k: int) -> bool {
    &&& 6 <= k <= s.len()
    &&& s[k - 6] == ' '
    &&& is_digit(s[k - 5])
    &&& is_digit(s[k - 4])
    &&& is_digit(s[k - 3])
    &&& is_digit(s[k - 2])
    &&& s[k - 1] == ' '
}

/// The stamp that starts at `t0`: where it ends, and where the text after it
/// starts. The text is empty when the stamp ends the block.
pub open spec fn parse_stamp(s: Seq<char>, t0: int, hi: int) -> Option<(int, int)> {
    let k = find_time(s, t0, hi);
    if k < 0 || k - 6 <= t0 || !year_before(s, k) {
        None
    } else if k + 8 == hi {
        Some((hi, hi))
    } else if is_ws(s[k + 8]) {
        Some((k + 8, skip_ws(s, k + 8, hi)))
    } else {
        None
    }
}

/// Where the parts of a recognized block lie, and its numbers.
pub struct Layout {
    pub lo: int,
    pub split: int,
    pub mark: int,
    pub page: nat,
    pub start: nat,
    pub end: nat,
    pub stamp: int,
    pub stamp_end: int,
    pub text: int,
    pub hi: int,
}

/// Some comma stands in `s[i..j]`.
pub open spec fn has_comma(s: Seq<char>, i: int, j: int) -> bool {
    exists|k: int| i <= k < j && s[k] == ','
}

/// The last position below `p` (and at or after `lo`) where ` (` opens an
/// author: the text from there up to `m` holds a comma. -1 when there is none.
pub open spec fn author_split(s: Seq<char>, lo: int, m: int, p: int) -> int
    decreases p - lo,
{
    if p <= lo {
        -1
    } else if matches_at(s, author_opening(), p - 1, m) && has_comma(s, p + 1, m) {
        p - 1
    } else {
        author_split(s, lo, m, p - 1)
    }
}

pub proof fn lemma_author_split_bounds(s: Seq<char>, lo: int, m: int, p: int)
    ensures
        author_split(s, lo, m, p) == -1 || (lo <= author_split(s, lo, m, p) < p && matches_at(
            s,
            author_opening(),
            author_split(s, lo, m, p),
            m,
        ) && has_comma(s, author_split(s, lo, m, p) + 2, m)),
    decreases p - lo,
{
    if p > lo && !(matches_at(s, author_opening(), p - 1, m) && has_comma(s, p + 1, m)) {
        lemma_author_split_bounds(s, lo, m, p - 1);
    }
}

/// The layout of block `s` read with `marker`; with `ranged` the location is
/// `S-E`, else a single number (then `start == end`).
pub open spec fn parse_layout(s: Seq<char>, marker: Seq<char>, ranged: bool) -> Option<Layout> {
    let lo = skip_ws(s, 0, s.len() as int);
    let hi = trim_end(s, lo, s.len() as int);
    let m = find_from(s, marker, lo, hi);
    let a = author_split(s, lo, m, m);
    if m < 0 || a < 0 {
        None
    } else {
        match parse_number(s, m + marker.len(), hi) {
            None => None,
            Some((page, i1)) => {
                if !matches_at(s, location_label(), i1, hi) {
                    None
                } else {
                    match parse_number(s, i1 + location_label().len(), hi) {
                        None => None,
                        Some((start, i2)) => {
                            let tail = if !ranged {
                                Some((start, i2))
                            } else if i2 < hi && s[i2] == '-' {
                                parse_number(s, i2 + 1, hi)
                            } else {
                                None
                            };
                            match tail {
                                None => None,
                                Some((end, i3)) => {
                                    let t0 = i3 + added_label().len();
                                    if !matches_at(s, added_label(), i3, hi) {
                                        None
                                    } else {
                                        match parse_stamp(s, t0, hi) {
                                            None => None,
                                            Some((e, q)) => Some(
                                                Layout {
                                                    lo,
                                                    split: a,
                                                    mark: m,
                                                    page,
                                                    start,
                                                    end,
                                                    stamp: t0,
                                                    stamp_end: e,
                                                    text: q,
                                                    hi,
                                                },
                                            ),
                                        }
                                    }
                                },
                            }
                        },
                    }
                }
            },
        }
    }
}


proof fn lemma_find_time_bounds(s: Seq<char>, k: int, hi: int)
    ensures
        find_time(s, k, hi) == -1 || (k <= find_time(s, k, hi) && time_at(
            s,
            find_time(s, k, hi),
            hi,
        )),
    decreases hi - k,
{
    if !(k < 0 || k + 8 > hi) && !time_at(s, k, hi) {
        lemma_find_time_bounds(s, k + 1, hi);
    }
}

fn time_at_exec(cs: &Vec<char>, k: usize, hi: usize) -> (r: bool)
    requires
        hi <= cs@.len(),
    ensures
        r == time_at(cs@, k as int, hi as int),
{
    if k > hi || hi - k < 8 {
        return false;
    }
    is_digit_char(cs[k]) && is_digit_char(cs[k + 1]) && cs[k + 2] == ':' && is_digit_char(cs[k + 3])
        && is_digit_char(cs[k + 4]) && cs[k + 5] == ':' && is_digit_char(cs[k + 6])
        && is_digit_char(cs[k + 7])
}

fn year_before_exec(cs: &Vec<char>, k: usize) -> (r: bool)
    ensures
        r == year_before(cs@, k as int),
{
    if k < 6 || k > cs.len() {
        return false;
    }
    cs[k - 6] == ' ' && is_digit_char(cs[k - 5]) && is_digit_char(cs[k - 4]) && is_digit_char(
        cs[k - 3],
    ) && is_digit_char(cs[k - 2]) && cs[k - 1] == ' '
}

fn find_time_exec(cs: &Vec<char>, k: usize, hi: usize) -> (r: Option<usize>)
    requires
        hi <= cs@.len(),
    ensures
        match r {
            Some(j) => j as int == find_time(cs@, k as int, hi as int),
            None => find_time(cs@, k as int, hi as int) == -1,
        },
{
    let mut j = k;
    while j <= hi && hi - j >= 8
        invariant
            k <= j,
            hi <= cs@.len(),
            find_time(cs@, j as int, hi as int) == find_time(cs@, k as int, hi as int),
        decreases hi - j,
    {
        if time_at_exec(cs, j, hi) {
            return Some(j);
        }
        j += 1;
    }
    None
}

fn read_stamp(cs: &Vec<char>, t0: usize, hi: usize) -> (r: Option<(usize, usize)>)
    requires
        t0 <= hi <= cs@.len(),
    ensures
        match parse_stamp(cs@, t0 as int, hi as int) {
            Some((e, q)) => r matches Some((re, rq)) && re as int == e && rq as int == q,
            None => r is None,
        },
        r matches Some((re, rq)) ==> t0 <= re <= rq <= hi,
{
    match find_time_exec(cs, t0, hi) {
        None => None,
        Some(k) => {
            proof {
                lemma_find_time_bounds(cs@, t0 as int, hi as int);
            }
            if k < 6 || k - 6 <= t0 || !year_before_exec(cs, k) {
                None
            } else if k + 8 == hi {
                Some((hi, hi))
            } else if is_ws_char(cs[k + 8]) {
                let q = skip_whitespace(cs, k + 8, hi);
                proof {
                    lemma_skip_ws(cs@, k + 8, hi as int);
                }
                Some((k + 8, q))
            } else {
                None
            }
        },
    }
}

fn has_comma_exec(cs: &Vec<char>, i: usize, j: usize) -> (r: bool)
    requires
        j <= cs@.len(),
    ensures
        r == has_comma(cs@, i as int, j as int),
{
    let mut k = i;
    while k < j
        invariant
            i <= k,
            j <= cs@.len(),
            forall|t: int| i <= t < k ==> cs@[t] != ',',
        decreases j - k,
    {
        if cs[k] == ',' {
            return true;
        }
        k += 1;
    }
    false
}

/// The last ` (` before `m` whose text up to `m` holds a comma, as
/// `author_split` says.
fn find_author_split(cs: &Vec<char>, opening: &Vec<char>, lo: usize, m: usize) -> (r: Option<
    usize,
>)
    requires
        m <= cs@.len(),
        opening@ == author_opening(),
    ensures
        match r {
            Some(k) => k as int == author_split(cs@, lo as int, m as int, m as int),
            None => author_split(cs@, lo as int, m as int, m as int) == -1,
        },
{
    proof {
        reveal_strlit(" (");
    }
    let mut q = m;
    while q > lo
        invariant
            q <= m <= cs@.len(),
            opening@ == author_opening(),
            opening@.len() == 2,
            author_split(cs@, lo as int, m as int, q as int) == author_split(
                cs@,
                lo as int,
                m as int,
                m as int,
            ),
        decreases q,
    {
        if literal_at(cs, opening, q - 1, m) {
            assert(q + 1 <= m);
            if has_comma_exec(cs, q + 1, m) {
                return Some(q - 1);
            }
        }
        q -= 1;
    }
    None
}

/// Where the parts of a recognized block lie, as found by `read_layout`.
struct Found {
    lo: usize,
    split: usize,
    mark: usize,
    page: Option<u64>,
    start: Option<u64>,
    end: Option<u64>,
    stamp: usize,
    stamp_end: usize,
    text: usize,
    hi: usize,
}

spec fn found_is(f: Found, l: Layout) -> bool {
    &&& f.lo as int == l.lo
    &&& f.split as int == l.split
    &&& f.mark as int == l.mark
    &&& fits_as(f.page, l.page)
    &&& fits_as(f.start, l.start)
    &&& fits_as(f.end, l.end)
    &&& f.stamp as int == l.stamp
    &&& f.stamp_end as int == l.stamp_end
    &&& f.text as int == l.text
    &&& f.hi as int == l.hi
}

spec fn found_ordered(f: Found, n: nat) -> bool {
    &&& f.lo <= f.split
    &&& f.split + 2 <= f.mark
    &&& f.mark <= f.stamp
    &&& f.stamp <= f.stamp_end <= f.text <= f.hi <= n
}

fn read_layout(cs: &Vec<char>, marker: &Vec<char>, ranged: bool) -> (r: Option<Found>)
    requires
        marker@.len() > 0,
    ensures
        match parse_layout(cs@, marker@, ranged) {
            Some(l) => r is Some && found_is(r->0, l),
            None => r is None,
        },
        r is Some ==> found_ordered(r->0, cs@.len()),
{
    let ghost s = cs@;
    let lo = skip_whitespace(cs, 0, cs.len());
    proof {
        lemma_skip_ws(s, 0, s.len() as int);
    }
    let hi = trim_whitespace_end(cs, lo, cs.len());
    proof {
        lemma_trim_end(s, lo as int, s.len() as int);
    }
    let m = match find_literal(cs, marker, lo, hi) {
        None => return None,
        Some(m) => m,
    };
    proof {
        lemma_find_from_bounds(s, marker@, lo as int, hi as int);
    }
    let opening = chars_of(" (");
    let a = match find_author_split(cs, &opening, lo, m) {
        None => return None,
        Some(a) => a,
    };
    proof {
        lemma_author_split_bounds(s, lo as int, m as int, m as int);
    }
    let (page, i1) = match read_number(cs, m + marker.len(), hi) {
        None => return None,
        Some(p) => p,
    };
    let loc_label = chars_of(" | location ");
    if !literal_at(cs, &loc_label, i1, hi) {
        return None;
    }
    let (start, i2) = match read_number(cs, i1 + loc_label.len(), hi) {
        None => return None,
        Some(p) => p,
    };
    let (end, i3) = if !ranged {
        (start, i2)
    } else if i2 < hi && cs[i2] == '-' {
        match read_number(cs, i2 + 1, hi) {
            None => return None,
            Some(p) => p,
        }
    } else {
        return None;
    };
    let added = chars_of(" | Added on ");
    if !literal_at(cs, &added, i3, hi) {
        return None;
    }
    let t0 = i3 + added.len();
    match read_stamp(cs, t0, hi) {
        None => None,
        Some((e, q)) => Some(
            Found {
                lo,
                split: a,
                mark: m,
                page,
                start,
                end,
                stamp: t0,
                stamp_end: e,
                text: q,
                hi,
            },
        ),
    }
}


/// The fields of a highlight record.
pub struct HighlightFields {
    pub title: Seq<char>,
    pub author: Seq<char>,
    pub page: u64,
    pub start: u64,
    pub end: u64,
    pub timestamp: Seq<char>,
    pub quote: Seq<char>,
}

/// The fields of a note record.
pub struct NoteFields {
    pub title: Seq<char>,
    pub author: Seq<char>,
    pub page: u64,
    pub location: u64,
    pub timestamp: Seq<char>,
    pub content: Seq<char>,
}

/// What a block says.
pub enum ClippingModel {
    Highlight(HighlightFields),
    Note(NoteFields),
    /// The block has the form of a record, but one of its numbers does not fit a `u64`.
    NumberTooLarge,
    Unrecognized,
}

/// Every number of the layout fits a `u64`.
pub open spec fn layout_fits(l: Layout) -> bool {
    l.page <= u64::MAX && l.start <= u64::MAX && l.end <= u64::MAX
}

pub open spec fn highlight_fields(s: Seq<char>, l: Layout) -> HighlightFields {
    HighlightFields {
        title: s.subrange(l.lo, l.split),
        author: s.subrange(l.split + 2, l.mark),
        page: l.page as u64,
        start: l.start as u64,
        end: l.end as u64,
        timestamp: s.subrange(l.stamp, l.stamp_end),
        quote: s.subrange(l.text, l.hi),
    }
}

pub open spec fn note_fields(s: Seq<char>, l: Layout) -> NoteFields {
    NoteFields {
        title: s.subrange(l.lo, l.split),
        author: s.subrange(l.split + 2, l.mark),
        page: l.page as u64,
        location: l.start as u64,
        timestamp: s.subrange(l.stamp, l.stamp_end),
        content: s.subrange(l.text, l.hi),
    }
}

/// `s` without the whitespace that starts and ends it.
pub open spec fn trimmed(s: Seq<char>) -> Seq<char> {
    let lo = skip_ws(s, 0, s.len() as int);
    s.subrange(lo, trim_end(s, lo, s.len() as int))
}

/// A block is read without the whitespace around it.
pub open spec fn classify_spec(s: Seq<char>) -> ClippingModel {
    classify_trimmed(trimmed(s))
}

/// A trimmed block is read as a highlight first, then as a note; a block
/// that is neither is unrecognized. A block of either form with a number too
/// large for a `u64` is told apart from both.
pub open spec fn classify_trimmed(s: Seq<char>) -> ClippingModel {
    match parse_layout(s, highlight_marker(), true) {
        Some(l) => if layout_fits(l) {
            ClippingModel::Highlight(highlight_fields(s, l))
        } else {
            ClippingModel::NumberTooLarge
        },
        None => match parse_layout(s, note_marker(), false) {
            Some(l) => if layout_fits(l) {
                ClippingModel::Note(note_fields(s, l))
            } else {
                ClippingModel::NumberTooLarge
            },
            None => ClippingModel::Unrecognized,
        },
    }
}

/// A highlight record: the book, the page, the location range, when it was
/// made, and the quoted text.
pub struct HighlightRecord {
    pub title: String,
    pub author: String,
    pub page: u64,
    pub start: u64,
    pub end: u64,
    pub timestamp: String,
    pub quote: String,
}

/// A note record: the book, the page, the single location, when it was made,
/// and the note's text.
pub struct NoteRecord {
    pub title: String,
    pub author: String,
    pub page: u64,
    pub location: u64,
    pub timestamp: String,
    pub content: String,
}

/// One block of the export, as recognized.
pub enum Clipping {
    Highlight(HighlightRecord),
    Note(NoteRecord),
    /// The block has the form of a record, but one of its numbers does not fit a `u64`.
    NumberTooLarge,
    Unrecognized,
}

impl View for Clipping {
    type V = ClippingModel;

    open spec fn view(&self) -> ClippingModel {
        match self {
            Clipping::Highlight(h) => ClippingModel::Highlight(
                HighlightFields {
                    title: h.title@,
                    author: h.author@,
                    page: h.page,
                    start: h.start,
                    end: h.end,
                    timestamp: h.timestamp@,
                    quote: h.quote@,
                },
            ),
            Clipping::Note(n) => ClippingModel::Note(
                NoteFields {
                    title: n.title@,
                    author: n.author@,
                    page: n.page,
                    location: n.location,
                    timestamp: n.timestamp@,
                    content: n.content@,
                },
            ),
            Clipping::NumberTooLarge => ClippingModel::NumberTooLarge,
            Clipping::Unrecognized => ClippingModel::Unrecognized,
        }
    }
}

proof fn lemma_found_pieces(s: Seq<char>, lo: int, hi: int, f: Found)
    requires
        0 <= lo <= hi <= s.len(),
        found_ordered(f, (hi - lo) as nat),
    ensures
        s.subrange(lo, hi).subrange(f.lo as int, f.split as int) == s.subrange(
            lo + f.lo,
            lo + f.split,
        ),
        s.subrange(lo, hi).subrange(f.split + 2, f.mark as int) == s.subrange(
            lo + f.split + 2,
            lo + f.mark,
        ),
        s.subrange(lo, hi).subrange(f.stamp as int, f.stamp_end as int) == s.subrange(
            lo + f.stamp,
            lo + f.stamp_end,
        ),
        s.subrange(lo, hi).subrange(f.text as int, f.hi as int) == s.subrange(
            lo + f.text,
            lo + f.hi,
        ),
{
    let t = s.subrange(lo, hi);
    assert(t.subrange(f.lo as int, f.split as int) =~= s.subrange(lo + f.lo, lo + f.split));
    assert(t.subrange(f.split + 2, f.mark as int) =~= s.subrange(lo + f.split + 2, lo + f.mark));
    assert(t.subrange(f.stamp as int, f.stamp_end as int) =~= s.subrange(
        lo + f.stamp,
        lo + f.stamp_end,
    ));
    assert(t.subrange(f.text as int, f.hi as int) =~= s.subrange(lo + f.text, lo + f.hi));
}

fn piece(block: &str, from: usize, to: usize) -> (r: String)
    requires
        from <= to <= block@.len(),
    ensures
        r@ == block@.subrange(from as int, to as int),
{
    block.substring_char(from, to).to_owned()
}

/// Recognizes `block` as a highlight record, a note record, or neither.
pub fn classify(block: &str) -> (r: Clipping)
    ensures
        r@ == classify_spec(block@),
{
    let all = chars_of(block);
    let lo = skip_whitespace(&all, 0, all.len());
    proof {
        lemma_skip_ws(all@, 0, all@.len() as int);
    }
    let hi = trim_whitespace_end(&all, lo, all.len());
    proof {
        lemma_trim_end(all@, lo as int, all@.len() as int);
    }
    let mut cs: Vec<char> = Vec::new();
    let mut i = lo;
    while i < hi
        invariant
            lo <= i <= hi <= all@.len(),
            cs@ == all@.subrange(lo as int, i as int),
        decreases hi - i,
    {
        cs.push(all[i]);
        i += 1;
        assert(cs@ =~= all@.subrange(lo as int, i as int));
    }
    assert(cs@ == trimmed(block@));
    let hl_marker = chars_of(") - Your Highlight on page ");
    proof {
        reveal_strlit(") - Your Highlight on page ");
        reveal_strlit(") - Your Note on page ");
    }
    if let Some(f) = read_layout(&cs, &hl_marker, true) {
        let (page, start, end) = match (f.page, f.start, f.end) {
            (Some(page), Some(start), Some(end)) => (page, start, end),
            _ => return Clipping::NumberTooLarge,
        };
        proof {
            lemma_found_pieces(block@, lo as int, hi as int, f);
        }
        return Clipping::Highlight(
            HighlightRecord {
                title: piece(block, lo + f.lo, lo + f.split),
                author: piece(block, lo + f.split + 2, lo + f.mark),
                page,
                start,
                end,
                timestamp: piece(block, lo + f.stamp, lo + f.stamp_end),
                quote: piece(block, lo + f.text, lo + f.hi),
            },
        );
    }
    let note_mark = chars_of(") - Your Note on page ");
    if let Some(f) = read_layout(&cs, &note_mark, false) {
        let (page, location) = match (f.page, f.start) {
            (Some(page), Some(location)) => (page, location),
            _ => return Clipping::NumberTooLarge,
        };
        proof {
            lemma_found_pieces(block@, lo as int, hi as int, f);
        }
        return Clipping::Note(
            NoteRecord {
                title: piece(block, lo + f.lo, lo + f.split),
                author: piece(block, lo + f.split + 2, lo + f.mark),
                page,
                location,
                timestamp: piece(block, lo + f.stamp, lo + f.stamp_end),
                content: piece(block, lo + f.text, lo + f.hi),
            },
        );
    }
    Clipping::Unrecognized
}


} // verus!
