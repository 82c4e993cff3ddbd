//! The library built from a sequence of blocks: books by title, highlights
//! put in place by location, notes attached to the highlights they fall in.
use vstd::prelude::*;
use crate::block_reading::{
    all_ws, lacks, lemma_classify_reads_note, marker_first, no_opening_before_comma, note_block, number_field,
    stamp_parts, stamp_text,
};
use crate::clipping::{
    author_opening, classify, classify_spec, has_comma, highlight_marker, note_marker, Clipping,
    ClippingModel,
};
use crate::model::{
    attach_note, insert_highlight, lemma_insert_keeps_sorted, location_contains, note_targets,
    sorted_by_location, Book, BookModel, Highlight, HighlightLocation, HighlightModel, Note,
    NoteModel,
};
use crate::text::{decimal_value, is_ws};

verus! {

/// The position of the book titled `t`, or -1 when there is none.
pub open spec fn book_index(lib: Seq<BookModel>, t: Seq<char>) -> int {
    if exists|i: int| 0 <= i < lib.len() && #[trigger] lib[i].title == t {
        choose|i: int| 0 <= i < lib.len() && #[trigger] lib[i].title == t
    } else {
        -1
    }
}

/// No two books share a title, and each keeps its highlights in order of location.
pub open spec fn library_wf(lib: Seq<BookModel>) -> bool {
    &&& forall|i: int, j: int|
        0 <= i < j < lib.len() ==> #[trigger] lib[i].title != #[trigger] lib[j].title
    &&& forall|i: int| 0 <= i < lib.len() ==> sorted_by_location(#[trigger] lib[i].highlights)
}

/// The highlight that a highlight record makes.
pub open spec fn highlight_of(page: u64, start: u64, end: u64, quote: Seq<char>) -> HighlightModel {
    HighlightModel { page, location: (start, end), quote: Some(quote), note: None }
}

/// The library after one recognized block. A highlight goes into the book of
/// its title, which is created with the record's author when it is new. A
/// note is attached within the book of its title; a note for a book that has
/// no highlight yet is dropped, as are an unrecognized block and a block
/// whose numbers do not fit.
pub open spec fn apply_clipping(lib: Seq<BookModel>, c: ClippingModel) -> Seq<BookModel> {
    match c {
        ClippingModel::Highlight(f) => {
            let h = highlight_of(f.page, f.start, f.end, f.quote);
            let i = book_index(lib, f.title);
            if i >= 0 {
                lib.update(
                    i,
                    BookModel { highlights: insert_highlight(lib[i].highlights, h), ..lib[i] },
                )
            } else {
                lib.push(BookModel { title: f.title, author: f.author, highlights: seq![h] })
            }
        },
        ClippingModel::Note(f) => {
            let n = NoteModel { page: f.page, location: f.location, content: f.content };
            let i = book_index(lib, f.title);
            if i >= 0 {
                lib.update(
                    i,
                    BookModel { highlights: attach_note(lib[i].highlights, n), ..lib[i] },
                )
            } else {
                lib
            }
        },
        ClippingModel::NumberTooLarge => lib,
        ClippingModel::Unrecognized => lib,
    }
}

/// The library that the blocks make, read in order from an empty library.
pub open spec fn build_library(blocks: Seq<Seq<char>>) -> Seq<BookModel>
    decreases blocks.len(),
{
    if blocks.len() == 0 {
        Seq::empty()
    } else {
        apply_clipping(build_library(blocks.drop_last()), classify_spec(blocks.last()))
    }
}

pub open spec fn blocks_view(blocks: Seq<String>) -> Seq<Seq<char>> {
    blocks.map_values(|b: String| b@)
}

/// The books of a clippings export, each under a distinct title.
pub struct Library {
    books: Vec<Book>,
}

pub open spec fn books_view(v: Seq<Book>) -> Seq<BookModel> {
    v.map_values(|b: Book| b@)
}

impl View for Library {
    type V = Seq<BookModel>;

    closed spec fn view(&self) -> Seq<BookModel> {
        books_view(self.books@)
    }
}

impl Library {
    /// The library's invariant: distinct titles, and each book well formed.
    pub open spec fn wf(&self) -> bool {
        library_wf(self@)
    }

    pub fn new() -> (r: Library)
        ensures
            r@ == Seq::<BookModel>::empty(),
            r.wf(),
    {
        let r = Library { books: Vec::new() };
        assert(r@ =~= Seq::<BookModel>::empty());
        r
    }

    /// The number of books.
    pub fn len(&self) -> (r: usize)
        ensures
            r == self@.len(),
    {
        self.books.len()
    }

    /// The books, in the order in which their titles first appeared.
    pub fn books(&self) -> (r: &Vec<Book>)
        ensures
            books_view(r@) == self@,
    {
        &self.books
    }

    fn find(&self, title: &String) -> (r: Option<usize>)
        requires
            self.wf(),
        ensures
            match r {
                Some(i) => i as int == book_index(self@, title@) && i < self@.len(),
                None => book_index(self@, title@) == -1,
            },
    {
        let n = self.books.len();
        let mut i: usize = 0;
        while i < n
            invariant
                n == self@.len(),
                n == self.books@.len(),
                self.wf(),
                i <= n,
                forall|j: int| 0 <= j < i ==> #[trigger] self@[j].title != title@,
            decreases n - i,
        {
            assert(self@[i as int] == self.books@[i as int]@);
            if self.books[i].has_title(title) {
                assert(self@[i as int].title == title@);
                assert(exists|j: int| 0 <= j < self@.len() && #[trigger] self@[j].title == title@);
                let ghost k = book_index(self@, title@);
                assert(0 <= k < self@.len());
                assert(self@[k].title == title@);
                proof {
                    if k < i {
                        assert(self@[k].title != self@[i as int].title);
                    } else if k > i {
                        assert(self@[i as int].title != self@[k].title);
                    }
                }
                return Some(i);
            }
            i += 1;
        }
        None
    }

    /// The book titled `title`, if there is one.
    pub fn get(&self, title: &str) -> (r: Option<&Book>)
        requires
            self.wf(),
        ensures
            match r {
                Some(b) => book_index(self@, title@) >= 0 && b@ == self@[book_index(
                    self@,
                    title@,
                )],
                None => book_index(self@, title@) == -1,
            },
    {
        let t = title.to_owned();
        match self.find(&t) {
            Some(i) => Some(&self.books[i]),
            None => None,
        }
    }

    /// Takes one recognized block into the library.
    pub fn add_clipping(&mut self, c: Clipping)
        requires
            old(self).wf(),
        ensures
            final(self).wf(),
            final(self)@ == apply_clipping(old(self)@, c@),
    {
        let ghost lib0 = self@;
        match c {
            Clipping::Highlight(rec) => {
                let ghost h = highlight_of(rec.page, rec.start, rec.end, rec.quote@);
                let loc = HighlightLocation::new(rec.start, rec.end);
                let hl = Highlight::new(rec.page, loc, rec.quote);
                match self.find(&rec.title) {
                    Some(i) => {
                        let mut book = self.books.remove(i);
                        assert(book@ == lib0[i as int]);
                        book.add_highlight(hl);
                        self.books.insert(i, book);
                        proof {
                            lemma_insert_keeps_sorted(lib0[i as int].highlights, h);
                        }
                        let ghost hs = insert_highlight(lib0[i as int].highlights, h);
                        assert(self@ =~= lib0.update(
                            i as int,
                            BookModel { highlights: hs, ..lib0[i as int] },
                        ));
                    },
                    None => {
                        let mut book = Book::new(rec.title, rec.author);
                        book.add_highlight(hl);
                        assert(insert_highlight(Seq::empty(), h) == seq![h]);
                        self.books.push(book);
                        assert(self@ =~= lib0.push(book@));
                        assert forall|j: int| 0 <= j < lib0.len() implies #[trigger] lib0[j].title
                            != book@.title by {
                            assert(book_index(lib0, book@.title) == -1);
                        }
                    },
                }
            },
            Clipping::Note(rec) => {
                let note = Note::new(rec.page, rec.location, rec.content);
                match self.find(&rec.title) {
                    Some(i) => {
                        let mut book = self.books.remove(i);
                        assert(book@ == lib0[i as int]);
                        book.add_note(note);
                        self.books.insert(i, book);
                        let ghost hs = attach_note(lib0[i as int].highlights, note@);
                        assert(self@ =~= lib0.update(
                            i as int,
                            BookModel { highlights: hs, ..lib0[i as int] },
                        ));
                    },
                    None => {},
                }
            },
            Clipping::NumberTooLarge => {},
            Clipping::Unrecognized => {},
        }
    }
}

/// Builds the library from the blocks of a clippings export, in order.
pub fn parse_clippings(clippings: &Vec<String>) -> (r: Library)
    ensures
        r.wf(),
        r@ == build_library(blocks_view(clippings@)),
{
    let mut lib = Library::new();
    let n = clippings.len();
    let mut i: usize = 0;
    while i < n
        invariant
            n == clippings@.len(),
            i <= n,
            lib.wf(),
            lib@ == build_library(blocks_view(clippings@).take(i as int)),
        decreases n - i,
    {
        let c = classify(clippings[i].as_str());
        lib.add_clipping(c);
        let ghost bs = blocks_view(clippings@);
        assert(bs.take(i + 1).drop_last() =~= bs.take(i as int));
        assert(bs.take(i + 1).last() == clippings@[i as int]@);
        i += 1;
    }
    assert(blocks_view(clippings@).take(n as int) =~= blocks_view(clippings@));
    lib
}


/// After a note block is read, every highlight of the note's book on the
/// note's page whose range contains the note's location carries that note,
/// with its page, location and text.
pub proof fn lemma_note_reaches_highlight(blocks: Seq<Seq<char>>, b: Seq<char>, k: int)
    requires
        classify_spec(b) is Note,
        book_index(build_library(blocks), classify_spec(b)->Note_0.title) >= 0,
        0 <= k < build_library(blocks)[book_index(
            build_library(blocks),
            classify_spec(b)->Note_0.title,
        )].highlights.len(),
        note_targets(
            build_library(blocks)[book_index(
                build_library(blocks),
                classify_spec(b)->Note_0.title,
            )].highlights[k],
            NoteModel {
                page: classify_spec(b)->Note_0.page,
                location: classify_spec(b)->Note_0.location,
                content: classify_spec(b)->Note_0.content,
            },
        ),
    ensures
        ({
            let f = classify_spec(b)->Note_0;
            let i = book_index(build_library(blocks), f.title);
            let after = build_library(blocks.push(b));
            &&& after[i].highlights[k].note == Some(
                NoteModel { page: f.page, location: f.location, content: f.content },
            )
            &&& after[i].highlights[k].location == build_library(blocks)[i].highlights[k].location
            &&& after[i].title == f.title
        }),
{
    assert(blocks.push(b).drop_last() =~= blocks);
}

/// Read after any blocks, a well-formed note block attaches its text to every
/// highlight of its book on its page whose range contains its location.
pub proof fn lemma_note_block_reaches_highlight(
    blocks: Seq<Seq<char>>,
    lead: Seq<char>,
    title: Seq<char>,
    author: Seq<char>,
    page: Seq<char>,
    loc: Seq<char>,
    day: Seq<char>,
    year: Seq<char>,
    time: Seq<char>,
    gap: Seq<char>,
    content: Seq<char>,
    trail: Seq<char>,
    k: int,
)
    requires
        all_ws(lead),
        all_ws(trail),
        gap.len() > 0,
        all_ws(gap),
        title.len() > 0,
        !is_ws(title[0]),
        has_comma(author, 0, author.len() as int),
        no_opening_before_comma(author),
        marker_first(title + author_opening() + author, note_marker()),
        lacks(
            note_block(title, author, page, loc, stamp_text(day, year, time), gap, content),
            highlight_marker(),
        ),
        number_field(page),
        number_field(loc),
        stamp_parts(day, year, time),
        content.len() > 0,
        !is_ws(content[0]),
        !is_ws(content.last()),
        book_index(build_library(blocks), title) >= 0,
        0 <= k < build_library(blocks)[book_index(build_library(blocks), title)].highlights.len(),
        ({
            let h = build_library(blocks)[book_index(build_library(blocks), title)].highlights[k];
            &&& h.page == decimal_value(page)
            &&& location_contains(h.location, decimal_value(loc) as u64)
        }),
    ensures
        ({
            let stamp = stamp_text(day, year, time);
            let b = lead + note_block(title, author, page, loc, stamp, gap, content) + trail;
            let i = book_index(build_library(blocks), title);
            let after = build_library(blocks.push(b));
            &&& after[i].title == title
            &&& after[i].highlights[k].location == build_library(blocks)[i].highlights[k].location
            &&& after[i].highlights[k].note matches Some(n) && n.content == content
        }),
{
    let b = lead + note_block(title, author, page, loc, stamp_text(day, year, time), gap, content)
        + trail;
    lemma_classify_reads_note(lead, title, author, page, loc, day, year, time, gap, content, trail);
    lemma_note_reaches_highlight(blocks, b, k);
}

/// Building twice from the same blocks gives the same library: the result
/// depends on the blocks alone.
pub proof fn lemma_rebuild_identical(a: Seq<Seq<char>>, b: Seq<Seq<char>>)
    requires
        a == b,
    ensures
        build_library(a) == build_library(b),
{
}

} // verus!
