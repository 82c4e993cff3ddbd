use kindle_clippings::library::parse_clippings;
use kindle_clippings::model::HighlightLocation;

fn get_input() -> Vec<String> {
    let input: Vec<String> = "\
The 5 AM Club: Own Your Morning. Elevate Your Life. (Sharma, Robin)
- Your Highlight on page 90 | location 1370-1371 | Added on Sunday, 20 August 2023 21:13:59

For most people the truth is that it\u{2019}s all about the path of least resistance. Getting what they need to get done fast and just sneaking by. Mailing it in instead of bringing it on.
==========
\u{feff}The 5 AM Club: Own Your Morning. Elevate Your Life. (Sharma, Robin)
- Your Highlight on page 93 | location 1432-1433 | Added on Monday, 21 August 2023 21:36:48

The Top 5% go granular versus applying a superficial mindset to their daily attitudes, behaviors and activities.\u{201d}
==========
\u{feff}The 5 AM Club: Own Your Morning. Elevate Your Life. (Sharma, Robin)
- Your Highlight on page 95 | location 1460-1462 | Added on Monday, 21 August 2023 22:01:40

Gamble everything for love, if you are a true human being. If not, leave this gathering. Half-heartedness doesn\u{2019}t reach into majesty.
==========
\u{feff}The 5 AM Club: Own Your Morning. Elevate Your Life. (Sharma, Robin)
- Your Highlight on page 100 | location 1536-1537 | Added on Monday, 21 August 2023 22:14:52

while growth as a producer and as a person can be hard\u{2014}it truly is the finest work a human being can ever do.
==========
The 5 AM Club: Own Your Morning. Elevate Your Life. (Sharma, Robin)
- Your Highlight on page 88 | location 1348-1353 | Added on Monday, 21 August 2023 22:38:39

it. Picture how mysterious all this seemed. \u{201c}A message in a bottle,\u{201d} declared the billionaire happily. He started clapping his hands like a little tyke. He sure was an abnormal and totally wonderful character. \u{201c}This conveniently sets the tone for my mentoring session with you this morning,\u{201d} he added. The industrialist then lifted the vessel, unscrewed the cap and pulled out the fabric, which had the framework below stitched onto it:
==========
The 5 AM Club: Own Your Morning. Elevate Your Life. (Sharma, Robin)
- Your Note on page 100 | location 1537 | Added on Friday, 18 October 2024 11:49:48

Smidgen the pigeon 
==========
            "
    .to_string()
    .replace("\r\n", " ")
    .replace("\n", " ")
    .replace("\u{feff}", "")
    .split("==========")
    .map(String::from)
    .collect();

    input
}

#[test]
fn model() {
    let library = parse_clippings(&get_input());
    assert_eq!(1, library.len());

    let book = library
        .get("The 5 AM Club: Own Your Morning. Elevate Your Life.")
        .unwrap();

    assert_eq!("Sharma, Robin".to_string(), book.author());
    assert_eq!(5, book.highlights().len());

    let loc = HighlightLocation::new(1536, 1537);
    let hl = book.highlight(&loc).unwrap();

    assert_eq!(&100, hl.page());

    let note = hl.note().clone().unwrap();
    assert_eq!("Smidgen the pigeon", note.content());
}

#[test]
fn fixture_with_mixed_line_endings_gives_one_book() {
    let text = "\u{feff}T (A, B)\r\n- Your Highlight on page 1 | location 10-12 | Added on Monday, 21 August 2023 22:14:52\r\n\r\nfirst\r\n==========\n\
\u{feff}T (A, B)\n- Your Highlight on page 2 | location 20-22 | Added on Monday, 21 August 2023 22:14:53\n\nsecond\n==========\r\n\
T (A, B)\n- Your Highlight on page 3 | location 30-32 | Added on Monday, 21 August 2023 22:14:54\n\nthird\n==========\n\
T (A, B)\r\n- Your Highlight on page 4 | location 40-42 | Added on Monday, 21 August 2023 22:14:55\r\n\r\nfourth\r\n==========\n\
T (A, B)\n- Your Highlight on page 5 | location 50-52 | Added on Monday, 21 August 2023 22:14:56\n\nfifth\n==========\n\
T (A, B)\n- Your Note on page 5 | location 51 | Added on Monday, 21 August 2023 22:14:57\n\nattached\n==========\n";
    let blocks: Vec<String> = text
        .replace("\r\n", " ")
        .replace("\n", " ")
        .replace("\u{feff}", "")
        .split("==========")
        .map(String::from)
        .collect();
    let library = parse_clippings(&blocks);
    assert_eq!(1, library.len());
    let book = library.get("T").unwrap();
    assert_eq!("A, B", book.author());
    assert_eq!(5, book.highlights().len());
    let with_note: Vec<_> = book
        .highlights()
        .iter()
        .filter(|h| h.note().is_some())
        .collect();
    assert_eq!(1, with_note.len());
    assert_eq!(&HighlightLocation::new(50, 52), with_note[0].location());
    assert_eq!("attached", with_note[0].note().clone().unwrap().content());
}
