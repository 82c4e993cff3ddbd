use kindle_clippings::clipping::{classify, Clipping};
use kindle_clippings::library::{parse_clippings, Library};
use kindle_clippings::model::{Book, Highlight, HighlightLocation, Note};
use kindle_clippings::screen::{RenderError, Screen};

const TITLE: &str = "The 5 AM Club: Own Your Morning. Elevate Your Life.";

fn highlight_block(page: u64, start: u64, end: u64, quote: &str) -> String {
    format!(
        " {} (Sharma, Robin) - Your Highlight on page {} | location {}-{} | Added on Monday, 21 August 2023 22:14:52  {} ",
        TITLE, page, start, end, quote
    )
}

fn note_block(page: u64, location: u64, text: &str) -> String {
    format!(
        " {} (Sharma, Robin) - Your Note on page {} | location {} | Added on Friday, 18 October 2024 11:49:48  {} ",
        TITLE, page, location, text
    )
}

#[test]
fn orphan_note_is_dropped() {
    let blocks = vec![
        highlight_block(100, 1370, 1371, "a quote"),
        note_block(100, 1537, "no home"),
    ];
    let library = parse_clippings(&blocks);
    assert_eq!(1, library.len());
    let book = library.get(TITLE).unwrap();
    assert_eq!(1, book.highlights().len());
    assert!(book.highlights()[0].note().is_none());
}

#[test]
fn note_attaches_to_containing_highlight() {
    let blocks = vec![
        highlight_block(100, 1536, 1537, "growth"),
        note_block(100, 1537, "Smidgen the pigeon"),
    ];
    let library = parse_clippings(&blocks);
    let book = library.get(TITLE).unwrap();
    let hl = book.highlight(&HighlightLocation::new(1536, 1537)).unwrap();
    assert_eq!("Smidgen the pigeon", hl.note().clone().unwrap().content());
}

#[test]
fn note_on_other_page_is_not_attached() {
    let blocks = vec![
        highlight_block(100, 1536, 1537, "growth"),
        note_block(101, 1537, "elsewhere"),
    ];
    let library = parse_clippings(&blocks);
    let hl = library.get(TITLE).unwrap().highlights()[0].note().clone();
    assert!(hl.is_none());
}

#[test]
fn note_attaches_to_every_containing_highlight() {
    let blocks = vec![
        highlight_block(7, 10, 20, "wide"),
        highlight_block(7, 15, 15, "point"),
        highlight_block(7, 21, 30, "after"),
        note_block(7, 15, "both"),
    ];
    let library = parse_clippings(&blocks);
    let book = library.get(TITLE).unwrap();
    let hs = book.highlights();
    assert_eq!(3, hs.len());
    assert_eq!("both", hs[0].note().clone().unwrap().content());
    assert_eq!("both", hs[1].note().clone().unwrap().content());
    assert!(hs[2].note().is_none());
}

#[test]
fn later_note_replaces_earlier_one() {
    let blocks = vec![
        highlight_block(7, 10, 20, "wide"),
        note_block(7, 12, "first"),
        note_block(7, 20, "second"),
    ];
    let library = parse_clippings(&blocks);
    let hl = &library.get(TITLE).unwrap().highlights()[0];
    assert_eq!("second", hl.note().clone().unwrap().content());
}

#[test]
fn same_range_highlight_overwrites_and_drops_note() {
    let blocks = vec![
        highlight_block(7, 10, 20, "old"),
        note_block(7, 12, "lost"),
        highlight_block(7, 10, 20, "new"),
    ];
    let library = parse_clippings(&blocks);
    let book = library.get(TITLE).unwrap();
    assert_eq!(1, book.highlights().len());
    let hl = &book.highlights()[0];
    assert_eq!(Some("new".to_string()), hl.quote().clone());
    assert!(hl.note().is_none());
}

#[test]
fn highlights_are_kept_in_location_order() {
    let blocks = vec![
        highlight_block(9, 50, 60, "c"),
        highlight_block(2, 10, 20, "a"),
        highlight_block(3, 10, 25, "b"),
    ];
    let library = parse_clippings(&blocks);
    let hs = library.get(TITLE).unwrap().highlights();
    let locs: Vec<HighlightLocation> = hs.iter().map(|h| *h.location()).collect();
    assert_eq!(
        vec![
            HighlightLocation::new(10, 20),
            HighlightLocation::new(10, 25),
            HighlightLocation::new(50, 60)
        ],
        locs
    );
}

#[test]
fn rebuilding_gives_the_same_library() {
    let blocks = vec![
        highlight_block(1, 1, 2, "x"),
        note_block(1, 2, "y"),
        highlight_block(2, 5, 9, "z"),
        String::from("noise"),
    ];
    let a = parse_clippings(&blocks);
    let b = parse_clippings(&blocks);
    assert_eq!(a.len(), b.len());
    let ba = a.get(TITLE).unwrap();
    let bb = b.get(TITLE).unwrap();
    assert_eq!(ba.author(), bb.author());
    assert_eq!(ba.highlights().len(), bb.highlights().len());
    for (x, y) in ba.highlights().iter().zip(bb.highlights().iter()) {
        assert_eq!(x.location(), y.location());
        assert_eq!(x.page(), y.page());
        assert_eq!(x.quote(), y.quote());
        assert_eq!(
            x.note().as_ref().map(|n| n.content().to_string()),
            y.note().as_ref().map(|n| n.content().to_string())
        );
    }
}

#[test]
fn books_are_kept_apart_by_title() {
    let blocks = vec![
        String::from("Alpha (Doe, Jane) - Your Highlight on page 1 | location 1-2 | Added on Monday, 21 August 2023 22:14:52 q1"),
        String::from("Beta (Roe, Rick) - Your Highlight on page 1 | location 1-2 | Added on Monday, 21 August 2023 22:14:52 q2"),
        String::from("Alpha (Doe, Jane) - Your Note on page 1 | location 2 | Added on Monday, 21 August 2023 22:14:52 n"),
    ];
    let library = parse_clippings(&blocks);
    assert_eq!(2, library.len());
    assert_eq!("Doe, Jane", library.get("Alpha").unwrap().author());
    assert_eq!("Roe, Rick", library.get("Beta").unwrap().author());
    assert!(library.get("Alpha").unwrap().highlights()[0].note().is_some());
    assert!(library.get("Beta").unwrap().highlights()[0].note().is_none());
    assert!(library.get("Gamma").is_none());
    assert_eq!("Alpha", library.books()[0].title());
}

#[test]
fn classify_reads_every_highlight_field() {
    let block = "\n  Title (with parens) (Last, First) - Your Highlight on page 12 | location 300-305 | Added on Sunday, 20 August 2023 21:13:59\n\n  Some quoted text.  \n";
    match classify(block) {
        Clipping::Highlight(h) => {
            assert_eq!("Title (with parens)", h.title);
            assert_eq!("Last, First", h.author);
            assert_eq!(12, h.page);
            assert_eq!(300, h.start);
            assert_eq!(305, h.end);
            assert_eq!("Sunday, 20 August 2023 21:13:59", h.timestamp);
            assert_eq!("Some quoted text.", h.quote);
        }
        _ => panic!("expected a highlight"),
    }
}

#[test]
fn classify_reads_every_note_field() {
    let block = " Book (Doe, Jane) - Your Note on page 3 | location 44 | Added on Friday, 18 October 2024 11:49:48  my note ";
    match classify(block) {
        Clipping::Note(n) => {
            assert_eq!("Book", n.title);
            assert_eq!("Doe, Jane", n.author);
            assert_eq!(3, n.page);
            assert_eq!(44, n.location);
            assert_eq!("Friday, 18 October 2024 11:49:48", n.timestamp);
            assert_eq!("my note", n.content);
        }
        _ => panic!("expected a note"),
    }
}

#[test]
fn classify_highlight_with_empty_quote() {
    let block = "Book (Doe, Jane) - Your Highlight on page 3 | location 4-5 | Added on Friday, 18 October 2024 11:49:48   ";
    match classify(block) {
        Clipping::Highlight(h) => assert_eq!("", h.quote),
        _ => panic!("expected a highlight"),
    }
}

#[test]
fn classify_drops_noise() {
    assert!(matches!(classify(""), Clipping::Unrecognized));
    assert!(matches!(classify("   "), Clipping::Unrecognized));
    assert!(matches!(classify("just some words"), Clipping::Unrecognized));
    // no comma in the author
    assert!(matches!(
        classify("Book (Plato) - Your Highlight on page 3 | location 4-5 | Added on Friday, 18 October 2024 11:49:48 q"),
        Clipping::Unrecognized
    ));
    // no page number
    assert!(matches!(
        classify("Book (Doe, J) - Your Highlight on page x | location 4-5 | Added on Friday, 18 October 2024 11:49:48 q"),
        Clipping::Unrecognized
    ));
    // a note has no range
    assert!(matches!(
        classify("Book (Doe, J) - Your Note on page 3 | location 4-5 | Added on Friday, 18 October 2024 11:49:48 q"),
        Clipping::Unrecognized
    ));
    // no time of day in the stamp
    assert!(matches!(
        classify("Book (Doe, J) - Your Highlight on page 3 | location 4-5 | Added on Friday q"),
        Clipping::Unrecognized
    ));
}

#[test]
fn classify_tells_numbers_past_u64_apart() {
    let big = "Book (Doe, J) - Your Highlight on page 18446744073709551616 | location 4-5 | Added on Friday, 18 October 2024 11:49:48 q";
    assert!(matches!(classify(big), Clipping::NumberTooLarge));
    let big_note = "Book (Doe, J) - Your Note on page 3 | location 99999999999999999999 | Added on Friday, 18 October 2024 11:49:48 q";
    assert!(matches!(classify(big_note), Clipping::NumberTooLarge));
    assert_eq!(0, parse_clippings(&vec![big.to_string()]).len());
    let max = "Book (Doe, J) - Your Highlight on page 18446744073709551615 | location 4-5 | Added on Friday, 18 October 2024 11:49:48 q";
    match classify(max) {
        Clipping::Highlight(h) => assert_eq!(u64::MAX, h.page),
        _ => panic!("expected a highlight"),
    }
}

#[test]
fn contains_location_boundaries() {
    let r = HighlightLocation::new(1536, 1540);
    assert!(r.contains_location(1536));
    assert!(r.contains_location(1540));
    assert!(r.contains_location(1538));
    assert!(!r.contains_location(1535));
    assert!(!r.contains_location(1541));
    let point = HighlightLocation::new(7, 7);
    assert!(point.contains_location(7));
    assert!(!point.contains_location(6));
    assert!(!point.contains_location(8));
    let zero = HighlightLocation::new(0, 3);
    assert!(zero.contains_location(0));
    assert!(!zero.contains_location(4));
    let top = HighlightLocation::new(u64::MAX - 1, u64::MAX);
    assert!(top.contains_location(u64::MAX));
    assert!(!top.contains_location(u64::MAX - 2));
}

#[test]
fn book_add_note_and_highlight_directly() {
    let mut book = Book::new("T".to_string(), "A, B".to_string());
    assert_eq!("T", book.title());
    book.add_highlight(Highlight::new(4, HighlightLocation::new(9, 11), "q".to_string()));
    book.add_note(Note::new(4, 10, "n".to_string()));
    let hl = book.highlight(&HighlightLocation::new(9, 11)).unwrap();
    let note = hl.note().clone().unwrap();
    assert_eq!(&4, note.page());
    assert_eq!(&10, note.location());
    assert_eq!("n", note.content());
    assert!(book.highlight(&HighlightLocation::new(9, 12)).is_none());
}

#[test]
fn highlight_add_quote_replaces_quote() {
    let mut hl = Highlight::new(1, HighlightLocation::new(1, 2), "a".to_string());
    hl.add_quote("b".to_string());
    assert_eq!(&Some("b".to_string()), hl.quote());
}

#[test]
fn empty_input_gives_empty_library() {
    let library = parse_clippings(&Vec::new());
    assert_eq!(0, library.len());
    assert_eq!(0, Library::new().len());
}

#[test]
fn screens_step_in_order() {
    assert_eq!(Some(Screen::BookSelection), Screen::SelectInput.next());
    assert_eq!(Some(Screen::End), Screen::SelectOutput.next());
    assert_eq!(None, Screen::End.next());
    assert_eq!(None, Screen::SelectInput.previous());
    assert_eq!(Some(Screen::SelectOutput), Screen::End.previous());
}

#[test]
fn render_error_message() {
    let e = RenderError::ParsingFailed("bad template".to_string());
    assert_eq!("bad template", e.message());
    let e = RenderError::CreateOutputFileFailed("no such directory".to_string());
    assert_eq!("no such directory", e.message());
}

#[test]
fn author_with_parenthesis_after_comma() {
    let block = "T (a, b (c) - Your Highlight on page 1 | location 1-2 | Added on M 2023 22:14:52 q";
    let library = parse_clippings(&vec![block.to_string()]);
    assert_eq!(1, library.len());
    assert_eq!("a, b (c", library.get("T").unwrap().author());
    match classify("Deep Work (Smith, John (Editor)) - Your Note on page 2 | location 7 | Added on Friday, 18 October 2024 11:49:48 n") {
        Clipping::Note(n) => {
            assert_eq!("Deep Work", n.title);
            assert_eq!("Smith, John (Editor)", n.author);
        }
        _ => panic!("expected a note"),
    }
}

#[test]
fn title_with_parenthesis_keeps_it() {
    match classify("Dune (Book 1) (Herbert, Frank) - Your Highlight on page 2 | location 7-9 | Added on Friday, 18 October 2024 11:49:48 spice") {
        Clipping::Highlight(h) => {
            assert_eq!("Dune (Book 1)", h.title);
            assert_eq!("Herbert, Frank", h.author);
        }
        _ => panic!("expected a highlight"),
    }
}

#[test]
fn locations_compare_by_value() {
    assert_eq!(HighlightLocation::new(3, 4), HighlightLocation::new(3, 4));
    assert_ne!(HighlightLocation::new(3, 4), HighlightLocation::new(3, 5));
    assert!(HighlightLocation::new(3, 4).precedes(&HighlightLocation::new(3, 5)));
    assert!(HighlightLocation::new(2, 9).precedes(&HighlightLocation::new(3, 0)));
    assert!(!HighlightLocation::new(3, 4).precedes(&HighlightLocation::new(3, 4)));
}

#[test]
fn book_quotes_in_location_order() {
    let blocks = vec![
        highlight_block(9, 50, 60, "late"),
        highlight_block(2, 10, 20, "early"),
    ];
    let library = parse_clippings(&blocks);
    let quotes = library.get(TITLE).unwrap().quotes();
    assert_eq!(vec!["early".to_string(), "late".to_string()], quotes);
}

#[test]
fn surrounding_whitespace_does_not_change_the_reading() {
    let bare = "Book (Doe, Jane) - Your Highlight on page 3 | location 4-5 | Added on Friday, 18 October 2024 11:49:48 some text";
    let wrapped = format!("\t\n  {}  \r\n ", bare);
    match (classify(bare), classify(&wrapped)) {
        (Clipping::Highlight(a), Clipping::Highlight(b)) => {
            assert_eq!(a.title, b.title);
            assert_eq!(a.author, b.author);
            assert_eq!((a.page, a.start, a.end), (b.page, b.start, b.end));
            assert_eq!(a.timestamp, b.timestamp);
            assert_eq!("some text", b.quote);
            assert_eq!(a.quote, b.quote);
        }
        _ => panic!("expected two highlights"),
    }
}
