use none_of_those_words_are_in_the_bible::{parse, verse_number, BiblicalError};

const SC: &str = "\r\n\r\n\r\n\r\n\r\n";
const BT: &str = "\r\n\r\n\r\n";

fn corpus() -> String {
    format!(
        "INDEX OF CONTENTS{SC}The Old Testament{SC}Genesis{BT}1:1 in the beginning grace was upon the waters{SC}Exodus{BT}1:1 moses spoke plainly to pharaoh***\r\nThe New Testament{SC}John{BT}1:1 grace and truth came by him\r\n\r\nmercy endures for ever"
    )
}

#[test]
fn parses_two_testaments_with_books() {
    let bible = parse(&corpus()).unwrap();
    assert_eq!(bible.old.title, "The Old Testament");
    assert_eq!(bible.new.title, "The New Testament");
    assert_eq!(bible.old.books.len(), 2);
    assert_eq!(bible.new.books.len(), 1);
    assert_eq!(bible.old.books[0].title, "Genesis");
    assert_eq!(bible.old.books[1].title, "Exodus");
    assert_eq!(bible.new.books[0].title, "John");
    for t in [&bible.old, &bible.new] {
        assert!(!t.title.is_empty());
        for b in &t.books {
            assert!(!b.title.is_empty());
            assert!(!b.verses.is_empty());
        }
    }
    assert!(bible.old.books[0].verses.contains("grace"));
}

#[test]
fn title_is_trimmed_but_content_is_not() {
    let text = format!("X{SC}  Old  {SC}  Genesis {BT} body {SC}title2{BT}b***\r\nNew{SC}John{BT}c");
    let bible = parse(&text).unwrap();
    assert_eq!(bible.old.title, "Old");
    assert_eq!(bible.old.books[0].title, "Genesis");
    assert_eq!(bible.old.books[0].verses, " body ");
}

#[test]
fn titles_trim_unicode_whitespace() {
    // No-break space and em space around the titles, as str::trim removes.
    let text = format!(
        "X{SC}\u{00A0}Old\u{00A0}{SC}\u{2003}Genesis\u{2003}{BT}body***\r\nNew{SC}John{BT}c"
    );
    let bible = parse(&text).unwrap();
    assert_eq!(bible.old.title, "Old");
    assert_eq!(bible.old.books[0].title, "Genesis");
}

#[test]
fn missing_index_is_reported() {
    let r = parse("no state change anywhere");
    assert!(matches!(r, Err(BiblicalError::MissingIndex)));
    assert_eq!(
        BiblicalError::MissingIndex.message(),
        "the bible is in an unexpected format! it appears to be missing the index!"
    );
}

#[test]
fn missing_testament_delimiter_is_reported() {
    let text = format!("INDEX{SC}only one testament here");
    assert!(matches!(
        parse(&text),
        Err(BiblicalError::MissingTestamentDelimiter)
    ));
}

#[test]
fn book_missing_title_is_reported() {
    // The old testament's only book fragment has no title delimiter.
    let text = format!("INDEX{SC}Old{SC}Genesis without delimiter***\r\nNew{SC}John{BT}content");
    assert!(matches!(parse(&text), Err(BiblicalError::BookMissingTitle)));
}

#[test]
fn verse_number_reads_chapter_and_verse() {
    assert_eq!(verse_number("3:16 for god so loved"), Some((3, 16)));
    assert_eq!(verse_number("12:4 word"), Some((12, 4)));
    assert_eq!(verse_number(" +7 : +9  rest"), None); // space before the colon prefix ends the scan
    assert_eq!(verse_number("+7:+9 rest"), Some((7, 9)));
}

#[test]
fn verse_number_rejects_malformed_markers() {
    assert_eq!(verse_number("no marker"), None);
    assert_eq!(verse_number("3:16"), None); // no space after the marker
    assert_eq!(verse_number("a:b word"), None);
    assert_eq!(verse_number(": word"), None);
    assert_eq!(
        verse_number("99999999999999999999999999:1 word"),
        None // does not fit in usize
    );
}
