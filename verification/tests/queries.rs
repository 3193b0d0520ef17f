use none_of_those_words_are_in_the_bible::{
    are_any_of_these_words_in_the_bible, matching_words, parse, ratio_of_words_in_the_bible,
    what_words_are_in_the_bible, where_in_the_bible, BibleService,
};

const SC: &str = "\r\n\r\n\r\n\r\n\r\n";
const BT: &str = "\r\n\r\n\r\n";

fn corpus() -> String {
    format!(
        "INDEX OF CONTENTS{SC}The Old Testament{SC}Genesis{BT}1:1 in the beginning grace was upon the waters{SC}Exodus{BT}1:1 moses spoke plainly to pharaoh***\r\nThe New Testament{SC}John{BT}1:1 grace and truth came by him\r\n\r\nmercy endures for ever"
    )
}

fn service() -> BibleService {
    BibleService::from_text(&corpus()).unwrap()
}

#[test]
fn indexed_word_scores_one() {
    let svc = service();
    let (num, den) = ratio_of_words_in_the_bible(&svc, "grace", 1);
    assert_eq!((num, den), (1, 1));
    assert_eq!(num as f64 / den as f64, 1.0);
    assert!(are_any_of_these_words_in_the_bible(&svc, "grace", 1));
}

#[test]
fn unknown_word_scores_zero() {
    let svc = service();
    let (num, den) = ratio_of_words_in_the_bible(&svc, "xyzxyz", 1);
    assert_eq!((num, den), (0, 1));
    assert_eq!(num as f64 / den as f64, 0.0);
    assert!(!are_any_of_these_words_in_the_bible(&svc, "xyzxyz", 1));
    assert_eq!(what_words_are_in_the_bible(&svc, "xyzxyz"), Vec::<String>::new());
    assert!(where_in_the_bible(&svc, "xyzxyz").is_none());
}

#[test]
fn short_input_is_exempt() {
    let svc = service();
    // Two nonsense words, threshold three: too short to judge, scored as one.
    assert_eq!(ratio_of_words_in_the_bible(&svc, "zz qq", 3), (1, 1));
    assert!(are_any_of_these_words_in_the_bible(&svc, "zz qq", 3));
}

#[test]
fn ratio_is_matched_over_total() {
    let svc = service();
    let (num, den) = ratio_of_words_in_the_bible(&svc, "grace moses qq zz", 1);
    assert_eq!((num, den), (2, 4));
    assert_eq!(num as f64 / den as f64, 0.5);
}

#[test]
fn ignore_list_words_are_not_scored() {
    let svc = service();
    // Every word is on the ignore list, so nothing is left to score and the
    // empty list is below any positive threshold.
    assert_eq!(ratio_of_words_in_the_bible(&svc, "the of and", 1), (1, 1));
    assert!(are_any_of_these_words_in_the_bible(&svc, "the of and", 1));
    assert_eq!(what_words_are_in_the_bible(&svc, "the grace"), vec!["grace".to_string()]);
}

#[test]
fn zero_threshold_on_empty_input_is_exempt() {
    // Nothing is left to score, so even a zero threshold exempts the input:
    // the denominator stays positive and the ratio stays within zero and one.
    let svc = service();
    let (num, den) = ratio_of_words_in_the_bible(&svc, "the", 0);
    assert_eq!((num, den), (1, 1));
    let ratio = num as f64 / den as f64;
    assert!((0.0..=1.0).contains(&ratio));
    assert!(are_any_of_these_words_in_the_bible(&svc, "the", 0));
    // A zero threshold with scored words present is not exempt.
    assert_eq!(ratio_of_words_in_the_bible(&svc, "grace zz", 0), (1, 2));
}

#[test]
fn which_words_keeps_order_and_repeats() {
    let svc = service();
    assert_eq!(
        what_words_are_in_the_bible(&svc, "grace qq moses grace"),
        vec!["grace".to_string(), "moses".to_string(), "grace".to_string()]
    );
}

#[test]
fn input_is_segmented_and_lowercased() {
    let svc = service();
    assert_eq!(
        what_words_are_in_the_bible(&svc, "GRACE, Moses!"),
        vec!["grace".to_string(), "moses".to_string()]
    );
    assert!(are_any_of_these_words_in_the_bible(&svc, "GRACE", 1));
}

#[test]
fn ignore_list_applies_after_lowercasing() {
    let svc = service();
    // "The" is only on the ignore list once lowercased.
    assert_eq!(ratio_of_words_in_the_bible(&svc, "The grace", 1), (1, 1));
    assert_eq!(what_words_are_in_the_bible(&svc, "The grace"), vec!["grace".to_string()]);
}

#[test]
fn matching_words_lists_placements_in_book_order() {
    let svc = service();
    let words = vec!["grace".to_string(), "zz".to_string()];
    let matched = matching_words(&svc, &words);
    assert_eq!(matched.len(), 1);
    assert_eq!(matched[0].0, "grace");
    let places = &matched[0].1;
    assert_eq!(places.len(), 2);
    assert_eq!((places[0].testament, places[0].book), (0, 0)); // Genesis
    assert_eq!((places[1].testament, places[1].book), (1, 0)); // John
}

#[test]
fn locate_names_the_first_placement() {
    let svc = service();
    let w = where_in_the_bible(&svc, "grace").unwrap();
    assert_eq!(w.testament, "The Old Testament");
    assert_eq!(w.book, "Genesis");
    assert_eq!(w.section, "1:1 in the beginning grace was upon the waters");
    assert!(w.section.contains("grace"));
}

#[test]
fn locate_uses_the_first_matched_word() {
    let svc = service();
    let w = where_in_the_bible(&svc, "qq moses grace").unwrap();
    assert_eq!(w.book, "Exodus");
    assert!(w.section.contains("moses"));
}

#[test]
fn locate_stops_at_a_blank_line() {
    let svc = service();
    let w = where_in_the_bible(&svc, "mercy").unwrap();
    assert_eq!(w.book, "John");
    assert_eq!(w.section, "\r\n\r\nmercy endures for ever");
    assert!(!w.section.contains("truth"));
}

#[test]
fn locate_lowercases_the_excerpt() {
    let text = format!("I{SC}Old{SC}Bk{BT}GRACE ABOUNDS HERE***\r\nNew{SC}Jn{BT}other words");
    let svc = BibleService::from_text(&text).unwrap();
    let w = where_in_the_bible(&svc, "abounds").unwrap();
    assert_eq!(w.section, "grace abounds here");
}

#[test]
fn excerpt_reach_is_capped() {
    let long = "b ".repeat(300);
    let text = format!("I{SC}Old{SC}Bk{BT}{long}***\r\nNew{SC}Jn{BT}other words");
    let svc = BibleService::from_text(&text).unwrap();
    let w = where_in_the_bible(&svc, "b").unwrap();
    // The match is at the very start: no room leftward, 400 characters
    // rightward, both ends included.
    assert_eq!(w.section.len(), 401);
    assert!(w.section.starts_with("b b"));
}

#[test]
fn service_over_parsed_corpus_answers_alike() {
    let bible = parse(&corpus()).unwrap();
    let svc = BibleService::new(bible);
    assert!(are_any_of_these_words_in_the_bible(&svc, "waters", 1));
    assert_eq!(svc.bible().old.books.len(), 2);
}
