//! The entities of a library: locations, notes, highlights and books.
use vstd::prelude::*;

verus! {

/// An inclusive range of positions within a book, ordered by start, then end.
#[derive(Debug, Clone, Copy, PartialEq, Eq, Structural, PartialOrd, Ord, Hash)]
pub struct HighlightLocation(u64, u64);

impl View for HighlightLocation {
    type V = (u64, u64);

    closed spec fn view(&self) -> (u64, u64) {
        (self.0, self.1)
    }
}

/// True when `point` is one of the ends of `loc` or lies strictly between them.
pub open spec fn location_contains(loc: (u64, u64), point: u64) -> bool {
    point == loc.0 || point == loc.1 || (loc.0 < point && point < loc.1)
}

/// Both ends of a range are in it, and so is every point strictly between
/// them; the point just before the start and the point just after the end are
/// not, for a range whose start does not exceed its end.
pub proof fn lemma_contains_boundaries(loc: (u64, u64), point: u64)
    ensures
        location_contains(loc, loc.0),
        location_contains(loc, loc.1),
        loc.0 < point < loc.1 ==> location_contains(loc, point),
        0 < loc.0 <= loc.1 ==> !location_contains(loc, (loc.0 - 1) as u64),
        loc.0 <= loc.1 < u64::MAX ==> !location_contains(loc, (loc.1 + 1) as u64),
        loc.0 <= loc.1 ==> (location_contains(loc, point) <==> loc.0 <= point <= loc.1),
{
}

/// Two locations are equal exactly when their starts and ends are.
pub proof fn lemma_location_view_eq(a: HighlightLocation, b: HighlightLocation)
    ensures
        a@ == b@ <==> a == b,
{
}

/// The order of locations: by start, then by end.
pub open spec fn loc_lt(a: (u64, u64), b: (u64, u64)) -> bool {
    a.0 < b.0 || (a.0 == b.0 && a.1 < b.1)
}

impl HighlightLocation {
    /// True when `self` comes before `other` in the order of locations.
    pub fn precedes(&self, other: &HighlightLocation) -> (r: bool)
        ensures
            r == loc_lt(self@, other@),
    {
        self.0 < other.0 || (self.0 == other.0 && self.1 < other.1)
    }

    pub fn new(start: u64, end: u64) -> (r: Self)
        ensures
            r@ == (start, end),
    {
        HighlightLocation(start, end)
    }

    pub fn start(&self) -> (r: u64)
        ensures
            r == self@.0,
    {
        self.0
    }

    pub fn end(&self) -> (r: u64)
        ensures
            r == self@.1,
    {
        self.1
    }

    /// Checked as equality with either end or strict betweenness, so that a
    /// one-point range and a range starting at zero need no arithmetic.
    pub fn contains_location(&self, location: u64) -> (r: bool)
        ensures
            r == location_contains(self@, location),
    {
        location == self.0 || location == self.1 || (self.0 < location && location < self.1)
    }
}


/// What a note says: its page, the single position it points at, and its text.
pub struct NoteModel {
    pub page: u64,
    pub location: u64,
    pub content: Seq<char>,
}

/// A reader's note; it is kept only as a copy inside the highlights it falls in.
#[derive(Debug, Clone)]
pub struct Note {
    page: u64,
    location: u64,
    content: String,
}

impl View for Note {
    type V = NoteModel;

    closed spec fn view(&self) -> NoteModel {
        NoteModel { page: self.page, location: self.location, content: self.content@ }
    }
}

impl Note {
    pub fn new(page: u64, location: u64, content: String) -> (r: Self)
        ensures
            r@ == (NoteModel { page, location, content: content@ }),
    {
        Note { page, location, content }
    }

    pub fn page(&self) -> (r: &u64)
        ensures
            *r == self@.page,
    {
        &self.page
    }

    pub fn location(&self) -> (r: &u64)
        ensures
            *r == self@.location,
    {
        &self.location
    }

    pub fn content(&self) -> (r: &str)
        ensures
            r@ == self@.content,
    {
        self.content.as_str()
    }

    /// A copy with the same page, location and text.
    pub fn duplicate(&self) -> (r: Note)
        ensures
            r@ == self@,
    {
        Note { page: self.page, location: self.location, content: self.content.clone() }
    }
}

/// What a highlight holds: page, location range, quoted text and the note
/// attached to it, if any.
pub struct HighlightModel {
    pub page: u64,
    pub location: (u64, u64),
    pub quote: Option<Seq<char>>,
    pub note: Option<NoteModel>,
}

/// True when a note on `n.page` at `n.location` belongs to highlight `h`:
/// same page, and the point is one of the range's ends or strictly between them.
pub open spec fn note_targets(h: HighlightModel, n: NoteModel) -> bool {
    &&& h.page == n.page
    &&& location_contains(h.location, n.location)
}

/// A passage marked in a book.
#[derive(Debug, Clone)]
pub struct Highlight {
    page: u64,
    location: HighlightLocation,
    quote: Option<String>,
    note: Option<Note>,
}

pub open spec fn opt_text_view(o: Option<String>) -> Option<Seq<char>> {
    match o {
        Some(s) => Some(s@),
        None => None,
    }
}

pub open spec fn opt_note_view(o: Option<Note>) -> Option<NoteModel> {
    match o {
        Some(n) => Some(n@),
        None => None,
    }
}

impl View for Highlight {
    type V = HighlightModel;

    closed spec fn view(&self) -> HighlightModel {
        HighlightModel {
            page: self.page,
            location: self.location@,
            quote: opt_text_view(self.quote),
            note: opt_note_view(self.note),
        }
    }
}

impl Highlight {
    pub fn new(page: u64, location: HighlightLocation, quote: String) -> (r: Self)
        ensures
            r@ == (HighlightModel {
                page,
                location: location@,
                quote: Some(quote@),
                note: None,
            }),
    {
        Highlight { page, location, quote: Some(quote), note: None }
    }

    pub fn location(&self) -> (r: &HighlightLocation)
        ensures
            r@ == self@.location,
    {
        &self.location
    }

    pub fn page(&self) -> (r: &u64)
        ensures
            *r == self@.page,
    {
        &self.page
    }

    pub fn note(&self) -> (r: &Option<Note>)
        ensures
            opt_note_view(*r) == self@.note,
    {
        &self.note
    }

    pub fn quote(&self) -> (r: &Option<String>)
        ensures
            opt_text_view(*r) == self@.quote,
    {
        &self.quote
    }

    pub fn add_quote(&mut self, quote: String)
        ensures
            final(self)@ == (HighlightModel { quote: Some(quote@), ..old(self)@ }),
    {
        self.quote = Some(quote);
    }

    pub fn add_note(&mut self, note: Note)
        ensures
            final(self)@ == (HighlightModel { note: Some(note@), ..old(self)@ }),
    {
        self.note = Some(note);
    }
}


/// Highlights whose locations strictly increase: no two share a location.
pub open spec fn sorted_by_location(hs: Seq<HighlightModel>) -> bool {
    forall|i: int, j: int|
        0 <= i < j < hs.len() ==> loc_lt(#[trigger] hs[i].location, #[trigger] hs[j].location)
}

/// `hs` with `h` put in its place by location; a highlight already at that
/// exact location is replaced.
pub open spec fn insert_highlight(hs: Seq<HighlightModel>, h: HighlightModel) -> Seq<
    HighlightModel,
>
    decreases hs.len(),
{
    if hs.len() == 0 {
        seq![h]
    } else if loc_lt(h.location, hs[0].location) {
        seq![h] + hs
    } else if h.location == hs[0].location {
        seq![h] + hs.drop_first()
    } else {
        seq![hs[0]] + insert_highlight(hs.drop_first(), h)
    }
}

/// `hs` with a copy of `n` attached to every highlight that it targets.
pub open spec fn attach_note(hs: Seq<HighlightModel>, n: NoteModel) -> Seq<HighlightModel> {
    Seq::new(
        hs.len(),
        |i: int|
            if note_targets(hs[i], n) {
                HighlightModel { note: Some(n), ..hs[i] }
            } else {
                hs[i]
            },
    )
}

proof fn lemma_insert_above(hs: Seq<HighlightModel>, h: HighlightModel, b: (u64, u64))
    requires
        loc_lt(b, h.location),
        forall|j: int| 0 <= j < hs.len() ==> loc_lt(b, #[trigger] hs[j].location),
    ensures
        forall|k: int|
            0 <= k < insert_highlight(hs, h).len() ==> loc_lt(
                b,
                #[trigger] insert_highlight(hs, h)[k].location,
            ),
    decreases hs.len(),
{
    if hs.len() > 0 && !loc_lt(h.location, hs[0].location) && h.location != hs[0].location {
        let t = hs.drop_first();
        lemma_insert_above(t, h, b);
        assert forall|k: int|
            0 <= k < insert_highlight(hs, h).len() implies loc_lt(
            b,
            #[trigger] insert_highlight(hs, h)[k].location,
        ) by {
            if k > 0 {
                assert(insert_highlight(hs, h)[k] == insert_highlight(t, h)[k - 1]);
            }
        }
    }
}

/// Putting a highlight in its place keeps the locations strictly increasing.
pub proof fn lemma_insert_keeps_sorted(hs: Seq<HighlightModel>, h: HighlightModel)
    requires
        sorted_by_location(hs),
    ensures
        sorted_by_location(insert_highlight(hs, h)),
    decreases hs.len(),
{
    let r = insert_highlight(hs, h);
    if hs.len() == 0 {
    } else if loc_lt(h.location, hs[0].location) {
        assert forall|i: int, j: int| 0 <= i < j < r.len() implies loc_lt(
            #[trigger] r[i].location,
            #[trigger] r[j].location,
        ) by {
            if i > 0 {
                assert(r[i] == hs[i - 1] && r[j] == hs[j - 1]);
            } else {
                assert(r[j] == hs[j - 1]);
                assert(j - 1 == 0 || loc_lt(hs[0].location, hs[j - 1].location));
            }
        }
    } else if h.location == hs[0].location {
        assert forall|i: int, j: int| 0 <= i < j < r.len() implies loc_lt(
            #[trigger] r[i].location,
            #[trigger] r[j].location,
        ) by {
            assert(r[j] == hs[j]);
            if i > 0 {
                assert(r[i] == hs[i]);
            }
        }
    } else {
        let t = hs.drop_first();
        lemma_insert_keeps_sorted(t, h);
        lemma_insert_above(t, h, hs[0].location);
        let rt = insert_highlight(t, h);
        assert forall|i: int, j: int| 0 <= i < j < r.len() implies loc_lt(
            #[trigger] r[i].location,
            #[trigger] r[j].location,
        ) by {
            assert(r[j] == rt[j - 1]);
            if i > 0 {
                assert(r[i] == rt[i - 1]);
            }
        }
    }
}

/// The quotes of `hs`, in order, leaving out highlights without one.
pub open spec fn quotes_of(hs: Seq<HighlightModel>) -> Seq<Seq<char>>
    decreases hs.len(),
{
    if hs.len() == 0 {
        Seq::empty()
    } else {
        match hs.last().quote {
            Some(q) => quotes_of(hs.drop_last()).push(q),
            None => quotes_of(hs.drop_last()),
        }
    }
}

/// What a book holds: its title, its author and its highlights in order of location.
pub struct BookModel {
    pub title: Seq<char>,
    pub author: Seq<char>,
    pub highlights: Seq<HighlightModel>,
}

/// A book of the library with its highlights, kept in order of location.
#[derive(Debug, Clone)]
pub struct Book {
    title: String,
    author: String,
    highlights: Vec<Highlight>,
}

pub open spec fn highlights_view(v: Seq<Highlight>) -> Seq<HighlightModel> {
    v.map_values(|h: Highlight| h@)
}

impl View for Book {
    type V = BookModel;

    closed spec fn view(&self) -> BookModel {
        BookModel {
            title: self.title@,
            author: self.author@,
            highlights: highlights_view(self.highlights@),
        }
    }
}

impl Book {
    /// The book's invariant: no two highlights share a location, and they are
    /// kept in increasing order of location.
    pub open spec fn wf(&self) -> bool {
        sorted_by_location(self@.highlights)
    }

    pub fn new(title: String, author: String) -> (r: Self)
        ensures
            r@ == (BookModel { title: title@, author: author@, highlights: Seq::empty() }),
            r.wf(),
    {
        let r = Book { title, author, highlights: Vec::new() };
        assert(r@.highlights =~= Seq::empty());
        r
    }

    pub fn title(&self) -> (r: &str)
        ensures
            r@ == self@.title,
    {
        self.title.as_str()
    }

    /// Whether the book's title is `t`.
    pub fn has_title(&self, t: &String) -> (r: bool)
        ensures
            r == (self@.title == t@),
    {
        self.title == *t
    }

    pub fn author(&self) -> (r: &str)
        ensures
            r@ == self@.author,
    {
        self.author.as_str()
    }

    /// The highlights, in increasing order of location.
    pub fn highlights(&self) -> (r: &Vec<Highlight>)
        ensures
            highlights_view(r@) == self@.highlights,
    {
        &self.highlights
    }

    /// The quotes of the book's highlights, in order of location.
    pub fn quotes(&self) -> (r: Vec<String>)
        ensures
            r@.map_values(|q: String| q@) == quotes_of(self@.highlights),
    {
        let ghost hs = self@.highlights;
        let mut r: Vec<String> = Vec::new();
        let n = self.highlights.len();
        let mut i: usize = 0;
        assert(hs.take(0) =~= Seq::<HighlightModel>::empty());
        assert(r@.map_values(|q: String| q@) =~= Seq::<Seq<char>>::empty());
        while i < n
            invariant
                n == self.highlights@.len(),
                hs == self@.highlights,
                i <= n,
                r@.map_values(|q: String| q@) == quotes_of(hs.take(i as int)),
            decreases n - i,
        {
            assert(hs.take(i + 1).drop_last() =~= hs.take(i as int));
            assert(hs.take(i + 1).last() == self.highlights@[i as int]@);
            let ghost before = r@;
            match &self.highlights[i].quote {
                Some(q) => {
                    r.push(q.clone());
                    assert(r@.map_values(|q: String| q@) =~= before.map_values(|q: String| q@).push(
                        q@,
                    ));
                },
                None => {},
            }
            i += 1;
        }
        assert(hs.take(n as int) =~= hs);
        r
    }

    /// The highlight at exactly `loc`, if the book has one.
    pub fn highlight(&self, loc: &HighlightLocation) -> (r: Option<&Highlight>)
        requires
            self.wf(),
        ensures
            r is Some <==> exists|i: int|
                0 <= i < self@.highlights.len() && #[trigger] self@.highlights[i].location
                    == loc@,
            r is Some ==> r->0@.location == loc@ && self@.highlights.contains(r->0@),
    {
        let n = self.highlights.len();
        let mut i: usize = 0;
        while i < n
            invariant
                n == self.highlights@.len(),
                i <= n,
                forall|j: int| 0 <= j < i ==> #[trigger] self@.highlights[j].location != loc@,
            decreases n - i,
        {
            if self.highlights[i].location == *loc {
                assert(self@.highlights[i as int] == self.highlights@[i as int]@);
                assert(self@.highlights[i as int].location == loc@);
                return Some(&self.highlights[i]);
            }
            i += 1;
        }
        None
    }

    /// Adds `highlight` in its place by location, replacing one already at
    /// exactly that location.
    pub fn add_highlight(&mut self, highlight: Highlight)
        requires
            old(self).wf(),
        ensures
            final(self).wf(),
            final(self)@ == (BookModel {
                highlights: insert_highlight(old(self)@.highlights, highlight@),
                ..old(self)@
            }),
    {
        let ghost hs0 = self@.highlights;
        let ghost h = highlight@;
        let n = self.highlights.len();
        let mut i: usize = 0;
        assert(hs0.skip(0) =~= hs0);
        assert(hs0.take(0) + insert_highlight(hs0, h) =~= insert_highlight(hs0, h));
        while i < n && self.highlights[i].location.precedes(&highlight.location)
            invariant
                n == self.highlights@.len(),
                i <= n,
                self@ == old(self)@,
                hs0 == self@.highlights,
                h == highlight@,
                insert_highlight(hs0, h) == hs0.take(i as int) + insert_highlight(
                    hs0.skip(i as int),
                    h,
                ),
            decreases n - i,
        {
            assert(hs0.skip(i as int)[0] == hs0[i as int]);
            assert(hs0.skip(i as int).drop_first() =~= hs0.skip(i + 1));
            assert(hs0.take(i as int) + seq![hs0[i as int]] =~= hs0.take(i + 1));
            assert(insert_highlight(hs0.skip(i as int), h) == seq![hs0[i as int]]
                + insert_highlight(hs0.skip(i + 1), h));
            assert(hs0.take(i as int) + (seq![hs0[i as int]] + insert_highlight(
                hs0.skip(i + 1),
                h,
            )) =~= hs0.take(i + 1) + insert_highlight(hs0.skip(i + 1), h));
            i += 1;
        }
        proof {
            lemma_insert_keeps_sorted(hs0, h);
        }
        if i < n && self.highlights[i].location == highlight.location {
            self.highlights.set(i, highlight);
            assert(hs0.skip(i as int)[0] == hs0[i as int]);
            assert(hs0.skip(i as int).drop_first() =~= hs0.skip(i + 1));
            assert(self@.highlights =~= hs0.take(i as int) + (seq![h] + hs0.skip(i + 1)));
        } else {
            self.highlights.insert(i, highlight);
            if i < n {
                assert(hs0.skip(i as int)[0] == hs0[i as int]);
            } else {
                assert(hs0.skip(i as int) =~= Seq::<HighlightModel>::empty());
            }
            assert(self@.highlights =~= hs0.take(i as int) + (seq![h] + hs0.skip(i as int)));
        }
    }

    /// Attaches a copy of `note` to every highlight on the note's page whose
    /// range contains the note's location; a note already there is replaced.
    pub fn add_note(&mut self, note: Note)
        requires
            old(self).wf(),
        ensures
            final(self).wf(),
            final(self)@ == (BookModel {
                highlights: attach_note(old(self)@.highlights, note@),
                ..old(self)@
            }),
    {
        let ghost hs0 = self@.highlights;
        let ghost target = attach_note(hs0, note@);
        let n = self.highlights.len();
        let mut i: usize = 0;
        while i < n
            invariant
                n == self.highlights@.len(),
                i <= n,
                hs0.len() == n,
                self@.title == old(self)@.title,
                self@.author == old(self)@.author,
                target == attach_note(hs0, note@),
                forall|j: int| 0 <= j < i ==> #[trigger] self@.highlights[j] == target[j],
                forall|j: int| i <= j < n ==> #[trigger] self@.highlights[j] == hs0[j],
            decreases n - i,
        {
            let matches = self.highlights[i].page == note.page
                && self.highlights[i].location.contains_location(note.location);
            assert(self@.highlights[i as int] == self.highlights@[i as int]@);
            let ghost v0 = self.highlights@;
            let ghost m0 = self@.highlights;
            if matches {
                let mut h = self.highlights.remove(i);
                h.add_note(note.duplicate());
                self.highlights.insert(i, h);
                assert(self.highlights@ =~= v0.update(i as int, h));
                assert(self@.highlights =~= m0.update(i as int, h@));
            }
            assert(self@.highlights[i as int] == target[i as int]);
            i += 1;
        }
        assert(self@.highlights =~= target);
    }
}

} // verus!
