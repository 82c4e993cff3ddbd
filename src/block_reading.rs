//! What a well-formed block is read as: the text of a highlight or a note
//! block, put together from its fields, is recognized with exactly those
//! fields, whatever whitespace surrounds it.
use vstd::prelude::*;
use crate::clipping::{
    added_label, author_opening, author_split, classify_spec, classify_trimmed, find_time,
    has_comma, highlight_marker, location_label, note_marker, parse_layout, parse_stamp, time_at,
    trimmed, year_before, ClippingModel, HighlightFields, NoteFields,
};
use crate::text::{
    decimal_value, find_from, is_digit, is_ws, lemma_find_from_at, lemma_parse_number_at,
    lemma_skip_ws, lemma_skip_ws_to, lemma_trim_end, lemma_trim_end_to, matches_at, parse_number,
    skip_ws, trim_end,
};

verus! {

pub open spec fn all_ws(s: Seq<char>) -> bool {
    forall|i: int| 0 <= i < s.len() ==> is_ws(#[trigger] s[i])
}

/// A number field: one or more decimal digits whose value fits a `u64`.
pub open spec fn number_field(d: Seq<char>) -> bool {
    &&& d.len() > 0
    &&& forall|i: int| 0 <= i < d.len() ==> is_digit(#[trigger] d[i])
    &&& decimal_value(d) <= u64::MAX
}

/// `marker`, put after `h`, occurs there first.
pub open spec fn marker_first(h: Seq<char>, marker: Seq<char>) -> bool {
    forall|p: int|
        0 <= p < h.len() ==> !#[trigger] matches_at(
            h + marker,
            marker,
            p,
            (h.len() + marker.len()) as int,
        )
}

/// No ` (` in `a` is followed, later in `a`, by a comma.
pub open spec fn no_opening_before_comma(a: Seq<char>) -> bool {
    forall|k: int|
        0 <= k < a.len() - 1 && #[trigger] a[k] == ' ' && a[k + 1] == '(' ==> !has_comma(
            a,
            k + 2,
            a.len() as int,
        )
}

/// The stamp made of a day and date, a four-digit year and a time of day.
pub open spec fn stamp_text(day: Seq<char>, year: Seq<char>, time: Seq<char>) -> Seq<char> {
    day + seq![' '] + year + seq![' '] + time
}

/// The parts of a well-formed stamp: a day and date without `:`, four digits
/// of a year, and a time `hh:mm:ss`.
pub open spec fn stamp_parts(day: Seq<char>, year: Seq<char>, time: Seq<char>) -> bool {
    &&& day.len() > 0
    &&& forall|i: int| 0 <= i < day.len() ==> #[trigger] day[i] != ':'
    &&& year.len() == 4
    &&& forall|i: int| 0 <= i < 4 ==> is_digit(#[trigger] year[i])
    &&& time.len() == 8
    &&& time_at(time, 0, 8)
}

/// The text of a highlight block with the given fields.
#[verifier::opaque]
pub open spec fn highlight_block(
    title: Seq<char>,
    author: Seq<char>,
    page: Seq<char>,
    start: Seq<char>,
    end: Seq<char>,
    stamp: Seq<char>,
    gap: Seq<char>,
    quote: Seq<char>,
) -> Seq<char> {
    title + author_opening() + author + highlight_marker() + page + location_label() + start
        + seq!['-'] + end + added_label() + stamp + gap + quote
}

/// Where each part of a highlight block stands, character by character.
proof fn lemma_block_chars(
    lead: Seq<char>,
    title: Seq<char>,
    author: Seq<char>,
    page: Seq<char>,
    start: Seq<char>,
    end: Seq<char>,
    stamp: Seq<char>,
    gap: Seq<char>,
    quote: Seq<char>,
    trail: Seq<char>,
)
    ensures
        ({
            let s = lead + highlight_block(title, author, page, start, end, stamp, gap, quote)
                + trail;
            let l = lead.len() as int;
            let t = l + title.len();
            let a = t + 2;
            let m = a + author.len();
            let p = m + highlight_marker().len();
            let pe = p + page.len();
            let b = pe + location_label().len();
            let b1 = b + start.len();
            let e = b1 + 1;
            let e1 = e + end.len();
            let ts = e1 + added_label().len();
            let te = ts + stamp.len();
            let q = te + gap.len();
            let qe = q + quote.len();
            &&& s.len() == qe + trail.len()
            &&& forall|i: int| 0 <= i < l ==> #[trigger] s[i] == lead[i]
            &&& forall|i: int| l <= i < t ==> #[trigger] s[i] == title[i - l]
            &&& forall|i: int| t <= i < a ==> #[trigger] s[i] == author_opening()[i - t]
            &&& forall|i: int| a <= i < m ==> #[trigger] s[i] == author[i - a]
            &&& forall|i: int| m <= i < p ==> #[trigger] s[i] == highlight_marker()[i - m]
            &&& forall|i: int| p <= i < pe ==> #[trigger] s[i] == page[i - p]
            &&& forall|i: int| pe <= i < b ==> #[trigger] s[i] == location_label()[i - pe]
            &&& forall|i: int| b <= i < b1 ==> #[trigger] s[i] == start[i - b]
            &&& s[b1] == '-'
            &&& forall|i: int| e <= i < e1 ==> #[trigger] s[i] == end[i - e]
            &&& forall|i: int| e1 <= i < ts ==> #[trigger] s[i] == added_label()[i - e1]
            &&& forall|i: int| ts <= i < te ==> #[trigger] s[i] == stamp[i - ts]
            &&& forall|i: int| te <= i < q ==> #[trigger] s[i] == gap[i - te]
            &&& forall|i: int| q <= i < qe ==> #[trigger] s[i] == quote[i - q]
            &&& forall|i: int| qe <= i < s.len() ==> #[trigger] s[i] == trail[i - qe]
            &&& forall|i: int|
                l <= i < p ==> #[trigger] s[i] == (title + author_opening() + author
                    + highlight_marker())[i - l]
        }),
{
    reveal_strlit(" (");
    reveal(highlight_block);
    let c1 = lead + title;
    let c2 = c1 + author_opening();
    let c3 = c2 + author;
    let c4 = c3 + highlight_marker();
    let c5 = c4 + page;
    let c6 = c5 + location_label();
    let c7 = c6 + start;
    let c8 = c7 + seq!['-'];
    let c9 = c8 + end;
    let c10 = c9 + added_label();
    let c11 = c10 + stamp;
    let c12 = c11 + gap;
    let c13 = c12 + quote;
    let s = c13 + trail;
    assert(s =~= lead + highlight_block(title, author, page, start, end, stamp, gap, quote)
        + trail);
    assert(c4 =~= lead + (title + author_opening() + author + highlight_marker()));
}

/// With `h` followed by the marker at `l` in `s`, and the marker first
/// occurring after `h` there, the scan for the marker from `l` finds it
/// right after `h`.
proof fn lemma_marker_found(s: Seq<char>, h: Seq<char>, mk: Seq<char>, l: int, hi: int)
    requires
        0 <= l,
        l + h.len() + mk.len() <= hi <= s.len(),
        forall|i: int| l <= i < l + h.len() + mk.len() ==> #[trigger] s[i] == (h + mk)[i - l],
        marker_first(h, mk),
    ensures
        find_from(s, mk, l, hi) == l + h.len(),
{
    let m = l + h.len();
    assert(s.subrange(m, m + mk.len()) =~= mk) by {
        assert forall|i: int| 0 <= i < mk.len() implies #[trigger] s.subrange(
            m,
            m + mk.len(),
        )[i] == mk[i] by {
            assert(s[m + i] == (h + mk)[h.len() + i]);
        }
    }
    assert forall|j: int| l <= j < m implies !#[trigger] matches_at(s, mk, j, hi) by {
        assert(!matches_at(h + mk, mk, j - l, (h.len() + mk.len()) as int));
        if matches_at(s, mk, j, hi) {
            assert((h + mk).subrange(j - l, j - l + mk.len()) =~= s.subrange(j, j + mk.len()));
        }
    }
    lemma_find_from_at(s, mk, l, m, hi);
}

/// The ` (` that opens the author is the last one before the marker with a
/// comma after it.
proof fn lemma_author_split(s: Seq<char>, author: Seq<char>, l: int, t: int, m: int)
    requires
        0 <= l <= t,
        t + 2 + author.len() == m <= s.len(),
        s[t] == ' ',
        s[t + 1] == '(',
        forall|i: int| t + 2 <= i < m ==> #[trigger] s[i] == author[i - t - 2],
        has_comma(author, 0, author.len() as int),
        no_opening_before_comma(author),
    ensures
        author_split(s, l, m, m) == t,
{
    reveal_strlit(" (");
    let op = author_opening();
    assert(s.subrange(t, t + 2) =~= op);
    let c = choose|c: int| 0 <= c < author.len() && author[c] == ',';
    assert(s[t + 2 + c] == ',');
    assert forall|j: int| t < j < m implies !#[trigger] opens_author(s, j, m) by {
        if opens_author(s, j, m) {
            assert(s.subrange(j, j + 2)[0] == s[j]);
            assert(s.subrange(j, j + 2)[1] == s[j + 1]);
            if j > t + 1 {
                let k = j - t - 2;
                assert(author[k] == ' ' && author[k + 1] == '(');
                assert(!has_comma(author, k + 2, author.len() as int));
                let d = choose|d: int| j + 2 <= d < m && s[d] == ',';
                assert(author[d - t - 2] == ',');
            }
        }
    }
    lemma_author_split_at(s, l, m, m, t);
}

/// A ` (` at `q` whose text up to `m` holds a comma.
spec fn opens_author(s: Seq<char>, q: int, m: int) -> bool {
    matches_at(s, author_opening(), q, m) && has_comma(s, q + 2, m)
}

proof fn lemma_author_split_at(s: Seq<char>, lo: int, m: int, p: int, a: int)
    requires
        lo <= a < p,
        opens_author(s, a, m),
        forall|q: int| a < q < p ==> !#[trigger] opens_author(s, q, m),
    ensures
        author_split(s, lo, m, p) == a,
    decreases p - a,
{
    if a < p - 1 {
        assert(!opens_author(s, p - 1, m));
        lemma_author_split_at(s, lo, m, p - 1, a);
    }
}

/// The same, read without first trimming the block.
proof fn lemma_reads_highlight_core(
    lead: Seq<char>,
    title: Seq<char>,
    author: Seq<char>,
    page: Seq<char>,
    start: Seq<char>,
    end: Seq<char>,
    day: Seq<char>,
    year: Seq<char>,
    time: Seq<char>,
    gap: Seq<char>,
    quote: Seq<char>,
    trail: Seq<char>,
)
    requires
        all_ws(lead),
        all_ws(trail),
        gap.len() > 0,
        all_ws(gap),
        title.len() > 0,
        !is_ws(title[0]),
        has_comma(author, 0, author.len() as int),
        no_opening_before_comma(author),
        marker_first(title + author_opening() + author, highlight_marker()),
        number_field(page),
        number_field(start),
        number_field(end),
        stamp_parts(day, year, time),
        quote.len() > 0,
        !is_ws(quote[0]),
        !is_ws(quote.last()),
    ensures
        classify_trimmed(
            lead + highlight_block(
                title,
                author,
                page,
                start,
                end,
                stamp_text(day, year, time),
                gap,
                quote,
            ) + trail,
        ) == ClippingModel::Highlight(
            HighlightFields {
                title,
                author,
                page: decimal_value(page) as u64,
                start: decimal_value(start) as u64,
                end: decimal_value(end) as u64,
                timestamp: stamp_text(day, year, time),
                quote,
            },
        ),
{
    let stamp = stamp_text(day, year, time);
    lemma_head_read(lead, title, author, page, start, end, stamp, gap, quote, trail);
    lemma_numbers_read(lead, title, author, page, start, end, stamp, gap, quote, trail);
    lemma_stamp_read(lead, title, author, page, start, end, day, year, time, gap, quote, trail);
    lemma_fields_read(lead, title, author, page, start, end, stamp, gap, quote, trail);
    let s = lead + highlight_block(title, author, page, start, end, stamp, gap, quote) + trail;
    let l = lead.len() as int;
    let t = l + title.len();
    let m = t + 2 + author.len();
    let pe = m + highlight_marker().len() + page.len();
    let b1 = pe + location_label().len() + start.len();
    let e1 = b1 + 1 + end.len();
    let ts = e1 + added_label().len();
    let te = ts + stamp.len();
    let q = te + gap.len();
    lemma_layout_from_parts(
        s,
        l,
        t,
        m,
        decimal_value(page),
        pe,
        decimal_value(start),
        b1,
        decimal_value(end),
        e1,
        te,
        q,
        q + quote.len(),
    );
}

/// How the scans over a block fit together into its layout as a highlight.
proof fn lemma_layout_from_parts(
    s: Seq<char>,
    l: int,
    t: int,
    m: int,
    page: nat,
    pe: int,
    start: nat,
    b1: int,
    end: nat,
    e1: int,
    te: int,
    q: int,
    qe: int,
)
    requires
        0 <= l <= t,
        page <= u64::MAX,
        start <= u64::MAX,
        end <= u64::MAX,
        t + 2 <= m,
        skip_ws(s, 0, s.len() as int) == l,
        trim_end(s, l, s.len() as int) == qe,
        find_from(s, highlight_marker(), l, qe) == m,
        author_split(s, l, m, m) == t,
        parse_number(s, m + highlight_marker().len(), qe) == Some((page, pe)),
        matches_at(s, location_label(), pe, qe),
        parse_number(s, pe + location_label().len(), qe) == Some((start, b1)),
        b1 < qe && s[b1] == '-',
        parse_number(s, b1 + 1, qe) == Some((end, e1)),
        matches_at(s, added_label(), e1, qe),
        parse_stamp(s, e1 + added_label().len(), qe) == Some((te, q)),
    ensures
        classify_trimmed(s) == ClippingModel::Highlight(
            HighlightFields {
                title: s.subrange(l, t),
                author: s.subrange(t + 2, m),
                page: page as u64,
                start: start as u64,
                end: end as u64,
                timestamp: s.subrange(e1 + added_label().len(), te),
                quote: s.subrange(q, qe),
            },
        ),
{
}

/// The trimmed bounds, the marker, and the split between title and author.
#[verifier::rlimit(40)]
proof fn lemma_head_read(
    lead: Seq<char>,
    title: Seq<char>,
    author: Seq<char>,
    page: Seq<char>,
    start: Seq<char>,
    end: Seq<char>,
    stamp: Seq<char>,
    gap: Seq<char>,
    quote: Seq<char>,
    trail: Seq<char>,
)
    requires
        all_ws(lead),
        all_ws(trail),
        title.len() > 0,
        !is_ws(title[0]),
        has_comma(author, 0, author.len() as int),
        no_opening_before_comma(author),
        marker_first(title + author_opening() + author, highlight_marker()),
        quote.len() > 0,
        !is_ws(quote.last()),
    ensures
        ({
            let s = lead + highlight_block(title, author, page, start, end, stamp, gap, quote)
                + trail;
            let n = s.len() as int;
            let qe = n - trail.len();
            let l = lead.len() as int;
            let t = l + title.len();
            let m = t + 2 + author.len();
            &&& skip_ws(s, 0, n) == l
            &&& trim_end(s, l, n) == qe
            &&& find_from(s, highlight_marker(), l, qe) == m
            &&& author_split(s, l, m, m) == t
        }),
{
    lemma_block_chars(lead, title, author, page, start, end, stamp, gap, quote, trail);
    let s = lead + highlight_block(title, author, page, start, end, stamp, gap, quote) + trail;
    let l = lead.len() as int;
    let t = l + title.len();
    let a = t + 2;
    let m = a + author.len();
    let n = s.len() as int;
    let qe = n - trail.len();
    reveal_strlit(" (");
    assert(l + title.len() + 2 + author.len() + highlight_marker().len() <= qe);
    assert forall|i: int| 0 <= i < l implies is_ws(#[trigger] s[i]) by {
        assert(s[i] == lead[i]);
    }
    assert forall|i: int| qe <= i < n implies is_ws(#[trigger] s[i]) by {
        assert(s[i] == trail[i - qe]);
    }
    lemma_skip_ws_to(s, 0, l, n);
    assert(s[l] == title[0]);
    assert(s[qe - 1] == quote[quote.len() - 1]);
    lemma_trim_end_to(s, l, n, qe);
    lemma_marker_found(s, title + author_opening() + author, highlight_marker(), l, qe);
    assert(s[t] == ' ' && s[t + 1] == '(');
    lemma_author_split(s, author, l, t, m);
}

/// Each field of the record is the part of the block it was written in.
proof fn lemma_fields_read(
    lead: Seq<char>,
    title: Seq<char>,
    author: Seq<char>,
    page: Seq<char>,
    start: Seq<char>,
    end: Seq<char>,
    stamp: Seq<char>,
    gap: Seq<char>,
    quote: Seq<char>,
    trail: Seq<char>,
)
    ensures
        ({
            let s = lead + highlight_block(title, author, page, start, end, stamp, gap, quote)
                + trail;
            let l = lead.len() as int;
            let t = l + title.len();
            let m = t + 2 + author.len();
            let ts = m + highlight_marker().len() + page.len() + location_label().len()
                + start.len() + 1 + end.len() + added_label().len();
            let q = ts + stamp.len() + gap.len();
            &&& s.subrange(l, t) == title
            &&& s.subrange(t + 2, m) == author
            &&& s.subrange(ts, ts + stamp.len()) == stamp
            &&& s.subrange(q, q + quote.len()) == quote
            &&& s.len() == q + quote.len() + trail.len()
        }),
{
    lemma_block_chars(lead, title, author, page, start, end, stamp, gap, quote, trail);
    let s = lead + highlight_block(title, author, page, start, end, stamp, gap, quote) + trail;
    let l = lead.len() as int;
    let t = l + title.len();
    let m = t + 2 + author.len();
    let ts = m + highlight_marker().len() + page.len() + location_label().len() + start.len() + 1
        + end.len() + added_label().len();
    let q = ts + stamp.len() + gap.len();
    assert(s.subrange(l, t) =~= title);
    assert(s.subrange(t + 2, m) =~= author);
    assert(s.subrange(ts, ts + stamp.len()) =~= stamp);
    assert(s.subrange(q, q + quote.len()) =~= quote);
}

/// The page, the location range and the labels between them are read as written.
#[verifier::rlimit(40)]
proof fn lemma_numbers_read(
    lead: Seq<char>,
    title: Seq<char>,
    author: Seq<char>,
    page: Seq<char>,
    start: Seq<char>,
    end: Seq<char>,
    stamp: Seq<char>,
    gap: Seq<char>,
    quote: Seq<char>,
    trail: Seq<char>,
)
    requires
        number_field(page),
        number_field(start),
        number_field(end),
        stamp.len() > 0,
    ensures
        ({
            let s = lead + highlight_block(title, author, page, start, end, stamp, gap, quote)
                + trail;
            let qe = s.len() - trail.len();
            let p = (lead.len() + title.len() + 2 + author.len() + highlight_marker().len()) as int;
            let pe = p + page.len();
            let b = pe + location_label().len();
            let b1 = b + start.len();
            let e = b1 + 1;
            let e1 = e + end.len();
            &&& parse_number(s, p, qe) == Some((decimal_value(page), pe))
            &&& matches_at(s, location_label(), pe, qe)
            &&& parse_number(s, b, qe) == Some((decimal_value(start), b1))
            &&& b1 < qe && s[b1] == '-'
            &&& parse_number(s, e, qe) == Some((decimal_value(end), e1))
            &&& matches_at(s, added_label(), e1, qe)
        }),
{
    reveal_strlit(" | location ");
    reveal_strlit(" | Added on ");
    lemma_block_chars(lead, title, author, page, start, end, stamp, gap, quote, trail);
    let s = lead + highlight_block(title, author, page, start, end, stamp, gap, quote) + trail;
    let qe = s.len() - trail.len();
    let p = (lead.len() + title.len() + 2 + author.len() + highlight_marker().len()) as int;
    let pe = p + page.len();
    let b = pe + location_label().len();
    let b1 = b + start.len();
    let e = b1 + 1;
    let e1 = e + end.len();
    let ts = e1 + added_label().len();
    assert(s.subrange(p, pe) =~= page);
    assert(s.subrange(b, b1) =~= start);
    assert(s.subrange(e, e1) =~= end);
    assert(s.subrange(pe, b) =~= location_label());
    assert(s.subrange(e1, ts) =~= added_label());
    assert(s[pe] == ' ');
    assert(s[e1] == ' ');
    assert forall|i: int| p <= i < pe implies is_digit(#[trigger] s[i]) by {
        assert(s[i] == page[i - p]);
    }
    assert forall|i: int| b <= i < b1 implies is_digit(#[trigger] s[i]) by {
        assert(s[i] == start[i - b]);
    }
    assert forall|i: int| e <= i < e1 implies is_digit(#[trigger] s[i]) by {
        assert(s[i] == end[i - e]);
    }
    lemma_parse_number_at(s, p, pe, qe);
    lemma_parse_number_at(s, b, b1, qe);
    lemma_parse_number_at(s, e, e1, qe);
}

/// The stamp is read to its time of day, and the quote starts after the
/// whitespace that follows.
#[verifier::rlimit(40)]
proof fn lemma_stamp_read(
    lead: Seq<char>,
    title: Seq<char>,
    author: Seq<char>,
    page: Seq<char>,
    start: Seq<char>,
    end: Seq<char>,
    day: Seq<char>,
    year: Seq<char>,
    time: Seq<char>,
    gap: Seq<char>,
    quote: Seq<char>,
    trail: Seq<char>,
)
    requires
        stamp_parts(day, year, time),
        gap.len() > 0,
        all_ws(gap),
        quote.len() > 0,
        !is_ws(quote[0]),
    ensures
        ({
            let stamp = stamp_text(day, year, time);
            let s = lead + highlight_block(title, author, page, start, end, stamp, gap, quote)
                + trail;
            let qe = s.len() - trail.len();
            let ts = (lead.len() + title.len() + 2 + author.len() + highlight_marker().len()
                + page.len() + location_label().len() + start.len() + 1 + end.len()
                + added_label().len()) as int;
            let te = ts + stamp.len();
            parse_stamp(s, ts, qe) == Some((te, te + gap.len()))
        }),
{
    let stamp = stamp_text(day, year, time);
    lemma_block_chars(lead, title, author, page, start, end, stamp, gap, quote, trail);
    let s = lead + highlight_block(title, author, page, start, end, stamp, gap, quote) + trail;
    let qe = s.len() - trail.len();
    let ts = (lead.len() + title.len() + 2 + author.len() + highlight_marker().len() + page.len()
        + location_label().len() + start.len() + 1 + end.len() + added_label().len()) as int;
    let te = ts + stamp.len();
    let k = ts + day.len() + 6;
    let q = te + gap.len();
    assert(stamp.len() == day.len() + 14);
    assert forall|i: int| ts <= i < ts + day.len() implies #[trigger] s[i] != ':' by {
        assert(s[i] == stamp[i - ts]);
        assert(stamp[i - ts] == day[i - ts]);
    }
    assert forall|i: int| 0 <= i < 8 implies #[trigger] s[k + i] == time[i] by {
        assert(s[k + i] == stamp[k + i - ts]);
    }
    assert forall|i: int| 0 <= i < 4 implies #[trigger] s[k - 5 + i] == year[i] by {
        assert(s[k - 5 + i] == stamp[k - 5 + i - ts]);
    }
    assert(s[k - 6] == stamp[day.len() as int]);
    assert(s[k - 1] == stamp[day.len() + 5 as int]);
    assert(s[k + 2] == time[2]);
    assert(s[k + 5] == time[5]);
    assert(time_at(s, k, qe)) by {
        assert(s[k] == time[0]);
        assert(s[k + 1] == time[1]);
        assert(s[k + 3] == time[3]);
        assert(s[k + 4] == time[4]);
        assert(s[k + 6] == time[6]);
        assert(s[k + 7] == time[7]);
    }
    assert(year_before(s, k)) by {
        assert(s[k - 5] == year[0]);
        assert(s[k - 4] == year[1]);
        assert(s[k - 3] == year[2]);
        assert(s[k - 2] == year[3]);
    }
    assert forall|j: int| ts <= j < k implies !#[trigger] time_at(s, j, qe) by {
        if time_at(s, j, qe) {
            if j + 2 < ts + day.len() {
            } else if j + 2 == ts + day.len() {
                assert(s[j + 2] == stamp[day.len() as int]);
            } else if j + 2 < k - 1 {
                assert(s[j + 2] == year[j + 2 - (k - 5)]);
            } else if j + 2 == k - 1 {
            } else if j + 2 == k {
                assert(s[k] == time[0]);
            } else {
                assert(s[k + 1] == time[1]);
            }
        }
    }
    lemma_find_time_at(s, ts, k, qe);
    assert(s[te] == gap[0]);
    assert forall|i: int| te <= i < q implies is_ws(#[trigger] s[i]) by {
        assert(s[i] == gap[i - te]);
    }
    assert(s[q] == quote[0]);
    lemma_skip_ws_to(s, te, q, qe);
}

proof fn lemma_find_time_at(s: Seq<char>, k0: int, k: int, hi: int)
    requires
        0 <= k0 <= k,
        time_at(s, k, hi),
        forall|j: int| k0 <= j < k ==> !#[trigger] time_at(s, j, hi),
    ensures
        find_time(s, k0, hi) == k,
    decreases k - k0,
{
    if k0 < k {
        assert(!time_at(s, k0, hi));
        lemma_find_time_at(s, k0 + 1, k, hi);
    }
}

/// The text of a note block with the given fields.
#[verifier::opaque]
pub open spec fn note_block(
    title: Seq<char>,
    author: Seq<char>,
    page: Seq<char>,
    loc: Seq<char>,
    stamp: Seq<char>,
    gap: Seq<char>,
    content: Seq<char>,
) -> Seq<char> {
    title + author_opening() + author + note_marker() + page + location_label() + loc
        + added_label() + stamp + gap + content
}

/// `pat` occurs nowhere in `s`.
pub open spec fn lacks(s: Seq<char>, pat: Seq<char>) -> bool {
    forall|p: int| !#[trigger] matches_at(s, pat, p, s.len() as int)
}

/// Where each part of a note block stands, character by character.
proof fn lemma_note_chars(
    lead: Seq<char>,
    title: Seq<char>,
    author: Seq<char>,
    page: Seq<char>,
    loc: Seq<char>,
    stamp: Seq<char>,
    gap: Seq<char>,
    quote: Seq<char>,
    trail: Seq<char>,
)
    ensures
        ({
            let s = lead + note_block(title, author, page, loc, stamp, gap, quote) + trail;
            let l = lead.len() as int;
            let t = l + title.len();
            let a = t + 2;
            let m = a + author.len();
            let p = m + note_marker().len();
            let pe = p + page.len();
            let b = pe + location_label().len();
            let b1 = b + loc.len();
            let ts = b1 + added_label().len();
            let te = ts + stamp.len();
            let q = te + gap.len();
            let qe = q + quote.len();
            &&& s.len() == qe + trail.len()
            &&& forall|i: int| 0 <= i < l ==> #[trigger] s[i] == lead[i]
            &&& forall|i: int| l <= i < t ==> #[trigger] s[i] == title[i - l]
            &&& forall|i: int| t <= i < a ==> #[trigger] s[i] == author_opening()[i - t]
            &&& forall|i: int| a <= i < m ==> #[trigger] s[i] == author[i - a]
            &&& forall|i: int| m <= i < p ==> #[trigger] s[i] == note_marker()[i - m]
            &&& forall|i: int| p <= i < pe ==> #[trigger] s[i] == page[i - p]
            &&& forall|i: int| pe <= i < b ==> #[trigger] s[i] == location_label()[i - pe]
            &&& forall|i: int| b <= i < b1 ==> #[trigger] s[i] == loc[i - b]
            &&& forall|i: int| b1 <= i < ts ==> #[trigger] s[i] == added_label()[i - b1]
            &&& forall|i: int| ts <= i < te ==> #[trigger] s[i] == stamp[i - ts]
            &&& forall|i: int| te <= i < q ==> #[trigger] s[i] == gap[i - te]
            &&& forall|i: int| q <= i < qe ==> #[trigger] s[i] == quote[i - q]
            &&& forall|i: int| qe <= i < s.len() ==> #[trigger] s[i] == trail[i - qe]
            &&& forall|i: int|
                l <= i < p ==> #[trigger] s[i] == (title + author_opening() + author
                    + note_marker())[i - l]
            &&& forall|i: int|
                l <= i < qe ==> #[trigger] s[i] == note_block(
                    title,
                    author,
                    page,
                    loc,
                    stamp,
                    gap,
                    quote,
                )[i - l]
            &&& qe == l + note_block(title, author, page, loc, stamp, gap, quote).len()
        }),
{
    reveal_strlit(" (");
    reveal(note_block);
    let c1 = lead + title;
    let c2 = c1 + author_opening();
    let c3 = c2 + author;
    let c4 = c3 + note_marker();
    let c5 = c4 + page;
    let c6 = c5 + location_label();
    let c7 = c6 + loc;
    let c8 = c7 + added_label();
    let c9 = c8 + stamp;
    let c10 = c9 + gap;
    let c11 = c10 + quote;
    let s = c11 + trail;
    assert(s =~= lead + note_block(title, author, page, loc, stamp, gap, quote) + trail);
    assert(c4 =~= lead + (title + author_opening() + author + note_marker()));
    assert(c11 =~= lead + note_block(title, author, page, loc, stamp, gap, quote));
}

/// The page, the location and the labels around them are read as written.
#[verifier::rlimit(40)]
proof fn lemma_note_numbers_read(
    lead: Seq<char>,
    title: Seq<char>,
    author: Seq<char>,
    page: Seq<char>,
    loc: Seq<char>,
    stamp: Seq<char>,
    gap: Seq<char>,
    quote: Seq<char>,
    trail: Seq<char>,
)
    requires
        number_field(page),
        number_field(loc),
    ensures
        ({
            let s = lead + note_block(title, author, page, loc, stamp, gap, quote) + trail;
            let qe = s.len() - trail.len();
            let p = (lead.len() + title.len() + 2 + author.len() + note_marker().len()) as int;
            let pe = p + page.len();
            let b = pe + location_label().len();
            let b1 = b + loc.len();
            &&& parse_number(s, p, qe) == Some((decimal_value(page), pe))
            &&& matches_at(s, location_label(), pe, qe)
            &&& parse_number(s, b, qe) == Some((decimal_value(loc), b1))
            &&& matches_at(s, added_label(), b1, qe)
        }),
{
    reveal_strlit(" | location ");
    reveal_strlit(" | Added on ");
    lemma_note_chars(lead, title, author, page, loc, stamp, gap, quote, trail);
    let s = lead + note_block(title, author, page, loc, stamp, gap, quote) + trail;
    let qe = s.len() - trail.len();
    let p = (lead.len() + title.len() + 2 + author.len() + note_marker().len()) as int;
    let pe = p + page.len();
    let b = pe + location_label().len();
    let b1 = b + loc.len();
    let ts = b1 + added_label().len();
    assert(s.subrange(p, pe) =~= page);
    assert(s.subrange(b, b1) =~= loc);
    assert(s.subrange(pe, b) =~= location_label());
    assert(s.subrange(b1, ts) =~= added_label());
    assert(s[pe] == ' ');
    assert(s[b1] == ' ');
    assert forall|i: int| p <= i < pe implies is_digit(#[trigger] s[i]) by {
        assert(s[i] == page[i - p]);
    }
    assert forall|i: int| b <= i < b1 implies is_digit(#[trigger] s[i]) by {
        assert(s[i] == loc[i - b]);
    }
    lemma_parse_number_at(s, p, pe, qe);
    lemma_parse_number_at(s, b, b1, qe);
}

/// No highlight marker in a note block: it is not read as a highlight.
proof fn lemma_not_a_highlight(
    lead: Seq<char>,
    title: Seq<char>,
    author: Seq<char>,
    page: Seq<char>,
    loc: Seq<char>,
    stamp: Seq<char>,
    gap: Seq<char>,
    quote: Seq<char>,
    trail: Seq<char>,
    l: int,
    qe: int,
)
    requires
        lacks(note_block(title, author, page, loc, stamp, gap, quote), highlight_marker()),
        l == lead.len(),
        ({
            let s = lead + note_block(title, author, page, loc, stamp, gap, quote) + trail;
            &&& skip_ws(s, 0, s.len() as int) == l
            &&& trim_end(s, l, s.len() as int) == qe
        }),
        qe == lead.len() + note_block(title, author, page, loc, stamp, gap, quote).len(),
    ensures
        parse_layout(
            lead + note_block(title, author, page, loc, stamp, gap, quote) + trail,
            highlight_marker(),
            true,
        ) is None,
{
    lemma_note_chars(lead, title, author, page, loc, stamp, gap, quote, trail);
    let blk = note_block(title, author, page, loc, stamp, gap, quote);
    let s = lead + blk + trail;
    let hm = highlight_marker();
    assert forall|p: int| l <= p implies !#[trigger] matches_at(s, hm, p, qe) by {
        if matches_at(s, hm, p, qe) {
            assert(blk.subrange(p - l, p - l + hm.len()) =~= s.subrange(p, p + hm.len()));
            assert(!matches_at(blk, hm, p - l, blk.len() as int));
        }
    }
    lemma_find_from_none(s, hm, l, qe);
}

proof fn lemma_find_from_none(s: Seq<char>, pat: Seq<char>, i: int, hi: int)
    requires
        forall|p: int| i <= p ==> !#[trigger] matches_at(s, pat, p, hi),
    ensures
        find_from(s, pat, i, hi) == -1,
    decreases hi - i + 1,
{
    if !(i < 0 || i + pat.len() > hi) {
        assert(!matches_at(s, pat, i, hi));
        lemma_find_from_none(s, pat, i + 1, hi);
    }
}

/// How the scans over a block fit together into its layout as a note.
proof fn lemma_note_layout_from_parts(
    s: Seq<char>,
    l: int,
    t: int,
    m: int,
    page: nat,
    pe: int,
    loc: nat,
    b1: int,
    te: int,
    q: int,
    qe: int,
)
    requires
        0 <= l <= t,
        page <= u64::MAX,
        loc <= u64::MAX,
        t + 2 <= m,
        parse_layout(s, highlight_marker(), true) is None,
        skip_ws(s, 0, s.len() as int) == l,
        trim_end(s, l, s.len() as int) == qe,
        find_from(s, note_marker(), l, qe) == m,
        author_split(s, l, m, m) == t,
        parse_number(s, m + note_marker().len(), qe) == Some((page, pe)),
        matches_at(s, location_label(), pe, qe),
        parse_number(s, pe + location_label().len(), qe) == Some((loc, b1)),
        matches_at(s, added_label(), b1, qe),
        parse_stamp(s, b1 + added_label().len(), qe) == Some((te, q)),
    ensures
        classify_trimmed(s) == ClippingModel::Note(
            NoteFields {
                title: s.subrange(l, t),
                author: s.subrange(t + 2, m),
                page: page as u64,
                location: loc as u64,
                timestamp: s.subrange(b1 + added_label().len(), te),
                content: s.subrange(q, qe),
            },
        ),
{
}

/// The same, read without first trimming the block.
proof fn lemma_reads_note_core(
    lead: Seq<char>,
    title: Seq<char>,
    author: Seq<char>,
    page: Seq<char>,
    loc: Seq<char>,
    day: Seq<char>,
    year: Seq<char>,
    time: Seq<char>,
    gap: Seq<char>,
    content: Seq<char>,
    trail: Seq<char>,
)
    requires
        all_ws(lead),
        all_ws(trail),
        gap.len() > 0,
        all_ws(gap),
        title.len() > 0,
        !is_ws(title[0]),
        has_comma(author, 0, author.len() as int),
        no_opening_before_comma(author),
        marker_first(title + author_opening() + author, note_marker()),
        lacks(
            note_block(title, author, page, loc, stamp_text(day, year, time), gap, content),
            highlight_marker(),
        ),
        number_field(page),
        number_field(loc),
        stamp_parts(day, year, time),
        content.len() > 0,
        !is_ws(content[0]),
        !is_ws(content.last()),
    ensures
        classify_trimmed(
            lead + note_block(title, author, page, loc, stamp_text(day, year, time), gap, content)
                + trail,
        ) == ClippingModel::Note(
            NoteFields {
                title,
                author,
                page: decimal_value(page) as u64,
                location: decimal_value(loc) as u64,
                timestamp: stamp_text(day, year, time),
                content,
            },
        ),
{
    let stamp = stamp_text(day, year, time);
    let quote = content;
    lemma_note_head_read(lead, title, author, page, loc, stamp, gap, quote, trail);
    lemma_note_numbers_read(lead, title, author, page, loc, stamp, gap, quote, trail);
    lemma_note_stamp_read(lead, title, author, page, loc, day, year, time, gap, quote, trail);
    lemma_note_fields_read(lead, title, author, page, loc, stamp, gap, quote, trail);
    let s = lead + note_block(title, author, page, loc, stamp, gap, quote) + trail;
    let l = lead.len() as int;
    let t = l + title.len();
    let m = t + 2 + author.len();
    let pe = m + note_marker().len() + page.len();
    let b1 = pe + location_label().len() + loc.len();
    let ts = b1 + added_label().len();
    let te = ts + stamp.len();
    let q = te + gap.len();
    lemma_not_a_highlight(
        lead,
        title,
        author,
        page,
        loc,
        stamp,
        gap,
        quote,
        trail,
        l,
        q + quote.len(),
    );
    lemma_note_layout_from_parts(
        s,
        l,
        t,
        m,
        decimal_value(page),
        pe,
        decimal_value(loc),
        b1,
        te,
        q,
        q + quote.len(),
    );
}

/// The trimmed bounds, the marker, and the split between title and author.
#[verifier::rlimit(40)]
proof fn lemma_note_head_read(
    lead: Seq<char>,
    title: Seq<char>,
    author: Seq<char>,
    page: Seq<char>,
    loc: Seq<char>,
    stamp: Seq<char>,
    gap: Seq<char>,
    quote: Seq<char>,
    trail: Seq<char>,
)
    requires
        all_ws(lead),
        all_ws(trail),
        title.len() > 0,
        !is_ws(title[0]),
        has_comma(author, 0, author.len() as int),
        no_opening_before_comma(author),
        marker_first(title + author_opening() + author, note_marker()),
        quote.len() > 0,
        !is_ws(quote.last()),
    ensures
        ({
            let s = lead + note_block(title, author, page, loc, stamp, gap, quote)
                + trail;
            let n = s.len() as int;
            let qe = n - trail.len();
            let l = lead.len() as int;
            let t = l + title.len();
            let m = t + 2 + author.len();
            &&& skip_ws(s, 0, n) == l
            &&& trim_end(s, l, n) == qe
            &&& find_from(s, note_marker(), l, qe) == m
            &&& author_split(s, l, m, m) == t
        }),
{
    lemma_note_chars(lead, title, author, page, loc, stamp, gap, quote, trail);
    let s = lead + note_block(title, author, page, loc, stamp, gap, quote) + trail;
    let l = lead.len() as int;
    let t = l + title.len();
    let a = t + 2;
    let m = a + author.len();
    let n = s.len() as int;
    let qe = n - trail.len();
    reveal_strlit(" (");
    assert(l + title.len() + 2 + author.len() + note_marker().len() <= qe);
    assert forall|i: int| 0 <= i < l implies is_ws(#[trigger] s[i]) by {
        assert(s[i] == lead[i]);
    }
    assert forall|i: int| qe <= i < n implies is_ws(#[trigger] s[i]) by {
        assert(s[i] == trail[i - qe]);
    }
    lemma_skip_ws_to(s, 0, l, n);
    assert(s[l] == title[0]);
    assert(s[qe - 1] == quote[quote.len() - 1]);
    lemma_trim_end_to(s, l, n, qe);
    lemma_marker_found(s, title + author_opening() + author, note_marker(), l, qe);
    assert(s[t] == ' ' && s[t + 1] == '(');
    lemma_author_split(s, author, l, t, m);
}

/// Each field of the record is the part of the block it was written in.
proof fn lemma_note_fields_read(
    lead: Seq<char>,
    title: Seq<char>,
    author: Seq<char>,
    page: Seq<char>,
    loc: Seq<char>,
    stamp: Seq<char>,
    gap: Seq<char>,
    quote: Seq<char>,
    trail: Seq<char>,
)
    ensures
        ({
            let s = lead + note_block(title, author, page, loc, stamp, gap, quote)
                + trail;
            let l = lead.len() as int;
            let t = l + title.len();
            let m = t + 2 + author.len();
            let ts = m + note_marker().len() + page.len() + location_label().len()
                + loc.len() + added_label().len();
            let q = ts + stamp.len() + gap.len();
            &&& s.subrange(l, t) == title
            &&& s.subrange(t + 2, m) == author
            &&& s.subrange(ts, ts + stamp.len()) == stamp
            &&& s.subrange(q, q + quote.len()) == quote
            &&& s.len() == q + quote.len() + trail.len()
        }),
{
    lemma_note_chars(lead, title, author, page, loc, stamp, gap, quote, trail);
    let s = lead + note_block(title, author, page, loc, stamp, gap, quote) + trail;
    let l = lead.len() as int;
    let t = l + title.len();
    let m = t + 2 + author.len();
    let ts = m + note_marker().len() + page.len() + location_label().len() + loc.len()
        + added_label().len();
    let q = ts + stamp.len() + gap.len();
    assert(s.subrange(l, t) =~= title);
    assert(s.subrange(t + 2, m) =~= author);
    assert(s.subrange(ts, ts + stamp.len()) =~= stamp);
    assert(s.subrange(q, q + quote.len()) =~= quote);
}

/// The stamp is read to its time of day, and the quote starts after the
/// whitespace that follows.
#[verifier::rlimit(40)]
proof fn lemma_note_stamp_read(
    lead: Seq<char>,
    title: Seq<char>,
    author: Seq<char>,
    page: Seq<char>,
    loc: Seq<char>,
    day: Seq<char>,
    year: Seq<char>,
    time: Seq<char>,
    gap: Seq<char>,
    quote: Seq<char>,
    trail: Seq<char>,
)
    requires
        stamp_parts(day, year, time),
        gap.len() > 0,
        all_ws(gap),
        quote.len() > 0,
        !is_ws(quote[0]),
    ensures
        ({
            let stamp = stamp_text(day, year, time);
            let s = lead + note_block(title, author, page, loc, stamp, gap, quote)
                + trail;
            let qe = s.len() - trail.len();
            let ts = (lead.len() + title.len() + 2 + author.len() + note_marker().len()
                + page.len() + location_label().len() + loc.len()
                + added_label().len()) as int;
            let te = ts + stamp.len();
            parse_stamp(s, ts, qe) == Some((te, te + gap.len()))
        }),
{
    let stamp = stamp_text(day, year, time);
    lemma_note_chars(lead, title, author, page, loc, stamp, gap, quote, trail);
    let s = lead + note_block(title, author, page, loc, stamp, gap, quote) + trail;
    let qe = s.len() - trail.len();
    let ts = (lead.len() + title.len() + 2 + author.len() + note_marker().len() + page.len()
        + location_label().len() + loc.len() + added_label().len()) as int;
    let te = ts + stamp.len();
    let k = ts + day.len() + 6;
    let q = te + gap.len();
    assert(stamp.len() == day.len() + 14);
    assert forall|i: int| ts <= i < ts + day.len() implies #[trigger] s[i] != ':' by {
        assert(s[i] == stamp[i - ts]);
        assert(stamp[i - ts] == day[i - ts]);
    }
    assert forall|i: int| 0 <= i < 8 implies #[trigger] s[k + i] == time[i] by {
        assert(s[k + i] == stamp[k + i - ts]);
    }
    assert forall|i: int| 0 <= i < 4 implies #[trigger] s[k - 5 + i] == year[i] by {
        assert(s[k - 5 + i] == stamp[k - 5 + i - ts]);
    }
    assert(s[k - 6] == stamp[day.len() as int]);
    assert(s[k - 1] == stamp[day.len() + 5 as int]);
    assert(s[k + 2] == time[2]);
    assert(s[k + 5] == time[5]);
    assert(time_at(s, k, qe)) by {
        assert(s[k] == time[0]);
        assert(s[k + 1] == time[1]);
        assert(s[k + 3] == time[3]);
        assert(s[k + 4] == time[4]);
        assert(s[k + 6] == time[6]);
        assert(s[k + 7] == time[7]);
    }
    assert(year_before(s, k)) by {
        assert(s[k - 5] == year[0]);
        assert(s[k - 4] == year[1]);
        assert(s[k - 3] == year[2]);
        assert(s[k - 2] == year[3]);
    }
    assert forall|j: int| ts <= j < k implies !#[trigger] time_at(s, j, qe) by {
        if time_at(s, j, qe) {
            if j + 2 < ts + day.len() {
            } else if j + 2 == ts + day.len() {
                assert(s[j + 2] == stamp[day.len() as int]);
            } else if j + 2 < k - 1 {
                assert(s[j + 2] == year[j + 2 - (k - 5)]);
            } else if j + 2 == k - 1 {
            } else if j + 2 == k {
                assert(s[k] == time[0]);
            } else {
                assert(s[k + 1] == time[1]);
            }
        }
    }
    lemma_find_time_at(s, ts, k, qe);
    assert(s[te] == gap[0]);
    assert forall|i: int| te <= i < q implies is_ws(#[trigger] s[i]) by {
        assert(s[i] == gap[i - te]);
    }
    assert(s[q] == quote[0]);
    lemma_skip_ws_to(s, te, q, qe);
}


/// A highlight block starts with its title and ends with its quote.
proof fn lemma_highlight_block_ends(
    title: Seq<char>,
    author: Seq<char>,
    page: Seq<char>,
    start: Seq<char>,
    end: Seq<char>,
    stamp: Seq<char>,
    gap: Seq<char>,
    quote: Seq<char>,
)
    requires
        title.len() > 0,
        quote.len() > 0,
    ensures
        ({
            let b = highlight_block(title, author, page, start, end, stamp, gap, quote);
            b.len() > 0 && b[0] == title[0] && b[b.len() - 1] == quote[quote.len() - 1]
        }),
{
    reveal(highlight_block);
}

/// A note block starts with its title and ends with its text.
proof fn lemma_note_block_ends(
    title: Seq<char>,
    author: Seq<char>,
    page: Seq<char>,
    loc: Seq<char>,
    stamp: Seq<char>,
    gap: Seq<char>,
    content: Seq<char>,
)
    requires
        title.len() > 0,
        content.len() > 0,
    ensures
        ({
            let b = note_block(title, author, page, loc, stamp, gap, content);
            b.len() > 0 && b[0] == title[0] && b[b.len() - 1] == content[content.len() - 1]
        }),
{
    reveal(note_block);
}

/// `s` starts and ends with characters that are not whitespace: trimming
/// leaves it as it is.
proof fn lemma_trimmed_exact(s: Seq<char>)
    requires
        s.len() > 0,
        !is_ws(s[0]),
        !is_ws(s[s.len() - 1]),
    ensures
        trimmed(s) == s,
{
    let n = s.len() as int;
    lemma_skip_ws_to(s, 0, 0, n);
    lemma_trim_end_to(s, 0, n, n);
    assert(s.subrange(0, n) =~= s);
}

/// Whitespace put around a block is trimmed away with the block's own.
pub proof fn lemma_trimmed_wrap(w: Seq<char>, b: Seq<char>, w2: Seq<char>)
    requires
        all_ws(w),
        all_ws(w2),
    ensures
        trimmed(w + b + w2) == trimmed(b),
{
    let s = w + b + w2;
    let n = s.len() as int;
    let nb = b.len() as int;
    let d = w.len() as int;
    lemma_skip_ws(b, 0, nb);
    let lo = skip_ws(b, 0, nb);
    lemma_trim_end(b, lo, nb);
    let hi = trim_end(b, lo, nb);
    assert forall|i: int| 0 <= i < d + lo implies is_ws(#[trigger] s[i]) by {
        if i < d {
            assert(s[i] == w[i]);
        } else {
            assert(s[i] == b[i - d]);
        }
    }
    if lo < nb {
        assert(s[d + lo] == b[lo]);
        lemma_skip_ws_to(s, 0, d + lo, n);
        if hi == lo {
            assert(is_ws(b[lo]));
        }
        assert(s[d + hi - 1] == b[hi - 1]);
        assert forall|i: int| d + hi <= i < n implies is_ws(#[trigger] s[i]) by {
            if i < d + nb {
                assert(s[i] == b[i - d]);
            } else {
                assert(s[i] == w2[i - d - nb]);
            }
        }
        lemma_trim_end_to(s, d + lo, n, d + hi);
        assert(s.subrange(d + lo, d + hi) =~= b.subrange(lo, hi));
    } else {
        assert forall|i: int| 0 <= i < n implies is_ws(#[trigger] s[i]) by {
            if i < d {
                assert(s[i] == w[i]);
            } else if i < d + nb {
                assert(s[i] == b[i - d]);
            } else {
                assert(s[i] == w2[i - d - nb]);
            }
        }
        lemma_skip_ws_to(s, 0, n, n);
        assert(trim_end(s, n, n) == n);
        assert(trim_end(b, nb, nb) == nb);
        assert(s.subrange(n, n) =~= b.subrange(nb, nb));
    }
}

/// Surrounding whitespace never changes how a block is read.
pub proof fn lemma_classify_ignores_whitespace(w: Seq<char>, b: Seq<char>, w2: Seq<char>)
    requires
        all_ws(w),
        all_ws(w2),
    ensures
        classify_spec(w + b + w2) == classify_spec(b),
{
    lemma_trimmed_wrap(w, b, w2);
}

/// A well-formed highlight block, with any whitespace around it, is read as a
/// highlight record whose title, author, page, location range, stamp and
/// quote are exactly the ones it was written with.
///
/// Well formed: the title starts with a character that is not whitespace;
/// the author holds a comma and no ` (`; the marker first occurs after the
/// author; the numbers are decimal and fit a `u64`; the stamp is a day and
/// date without `:`, a year and a time of day; whitespace separates it from a
/// quote that neither starts nor ends with whitespace.
pub proof fn lemma_classify_reads_highlight(
    lead: Seq<char>,
    title: Seq<char>,
    author: Seq<char>,
    page: Seq<char>,
    start: Seq<char>,
    end: Seq<char>,
    day: Seq<char>,
    year: Seq<char>,
    time: Seq<char>,
    gap: Seq<char>,
    quote: Seq<char>,
    trail: Seq<char>,
)
    requires
        all_ws(lead),
        all_ws(trail),
        gap.len() > 0,
        all_ws(gap),
        title.len() > 0,
        !is_ws(title[0]),
        has_comma(author, 0, author.len() as int),
        no_opening_before_comma(author),
        marker_first(title + author_opening() + author, highlight_marker()),
        number_field(page),
        number_field(start),
        number_field(end),
        stamp_parts(day, year, time),
        quote.len() > 0,
        !is_ws(quote[0]),
        !is_ws(quote.last()),
    ensures
        classify_spec(
            lead + highlight_block(
                title,
                author,
                page,
                start,
                end,
                stamp_text(day, year, time),
                gap,
                quote,
            ) + trail,
        ) == ClippingModel::Highlight(
            HighlightFields {
                title,
                author,
                page: decimal_value(page) as u64,
                start: decimal_value(start) as u64,
                end: decimal_value(end) as u64,
                timestamp: stamp_text(day, year, time),
                quote,
            },
        ),
{
    let e = Seq::<char>::empty();
    let blk = highlight_block(title, author, page, start, end, stamp_text(day, year, time), gap, quote);
    lemma_reads_highlight_core(e, title, author, page, start, end, day, year, time, gap, quote, e);
    lemma_highlight_block_ends(title, author, page, start, end, stamp_text(day, year, time), gap, quote);
    assert(e + blk + e =~= blk);
    lemma_trimmed_exact(blk);
    lemma_trimmed_wrap(lead, blk, trail);
}

/// A well-formed note block, with any whitespace around it, is read as a
/// note record whose title, author, page, location, stamp and text are
/// exactly the ones it was written with.
///
/// Well formed: as for a highlight block, with a single location, and with
/// no highlight marker anywhere in the block.
pub proof fn lemma_classify_reads_note(
    lead: Seq<char>,
    title: Seq<char>,
    author: Seq<char>,
    page: Seq<char>,
    loc: Seq<char>,
    day: Seq<char>,
    year: Seq<char>,
    time: Seq<char>,
    gap: Seq<char>,
    content: Seq<char>,
    trail: Seq<char>,
)
    requires
        all_ws(lead),
        all_ws(trail),
        gap.len() > 0,
        all_ws(gap),
        title.len() > 0,
        !is_ws(title[0]),
        has_comma(author, 0, author.len() as int),
        no_opening_before_comma(author),
        marker_first(title + author_opening() + author, note_marker()),
        lacks(
            note_block(title, author, page, loc, stamp_text(day, year, time), gap, content),
            highlight_marker(),
        ),
        number_field(page),
        number_field(loc),
        stamp_parts(day, year, time),
        content.len() > 0,
        !is_ws(content[0]),
        !is_ws(content.last()),
    ensures
        classify_spec(
            lead + note_block(title, author, page, loc, stamp_text(day, year, time), gap, content)
                + trail,
        ) == ClippingModel::Note(
            NoteFields {
                title,
                author,
                page: decimal_value(page) as u64,
                location: decimal_value(loc) as u64,
                timestamp: stamp_text(day, year, time),
                content,
            },
        ),
{
    let e = Seq::<char>::empty();
    let blk = note_block(title, author, page, loc, stamp_text(day, year, time), gap, content);
    lemma_reads_note_core(e, title, author, page, loc, day, year, time, gap, content, e);
    lemma_note_block_ends(title, author, page, loc, stamp_text(day, year, time), gap, content);
    assert(e + blk + e =~= blk);
    lemma_trimmed_exact(blk);
    lemma_trimmed_wrap(lead, blk, trail);
}

} // verus!
