//! The corpus parser: a single deterministic pass that splits the raw text
//! into two testaments, each a title followed by a sequence of books.
use vstd::prelude::*;

use crate::text::{
    chars_to_string, find_sub, first_match_from, split_all, split_once_spec, sub_vec, to_chars,
    trim_spec, trim_vec,
};

verus! {

/// The delimiter between the leading index and the text, and between books.
pub open spec fn spec_state_change() -> Seq<char> {
    "\r\n\r\n\r\n\r\n\r\n"@
}

/// The delimiter between the two testaments.
pub open spec fn spec_testament_delimiter() -> Seq<char> {
    "***\r\n"@
}

/// The delimiter between a book's title and its verses.
pub open spec fn spec_book_title_delimiter() -> Seq<char> {
    "\r\n\r\n\r\n"@
}

pub proof fn lemma_delimiters_nonempty()
    ensures
        spec_state_change().len() == 10,
        spec_testament_delimiter().len() == 5,
        spec_book_title_delimiter().len() == 6,
{
    reveal_strlit("\r\n\r\n\r\n\r\n\r\n");
    reveal_strlit("***\r\n");
    reveal_strlit("\r\n\r\n\r\n");
}

fn state_change_chars() -> (r: Vec<char>)
    ensures
        r@ == spec_state_change(),
{
    to_chars("\r\n\r\n\r\n\r\n\r\n")
}

fn testament_delimiter_chars() -> (r: Vec<char>)
    ensures
        r@ == spec_testament_delimiter(),
{
    to_chars("***\r\n")
}

fn book_title_delimiter_chars() -> (r: Vec<char>)
    ensures
        r@ == spec_book_title_delimiter(),
{
    to_chars("\r\n\r\n\r\n")
}

/// A structural fault in the corpus text; fatal at initialization.
#[derive(Debug, Clone, Copy, PartialEq, Eq)]
pub enum BiblicalError {
    MissingIndex,
    MissingTestamentDelimiter,
    TestamentMissingTitle,
    BookMissingTitle,
}

impl BiblicalError {
    /// A short description of the fault.
    pub fn message(&self) -> (r: &'static str)
        ensures
            *self == BiblicalError::MissingIndex ==> r@
                == "the bible is in an unexpected format! it appears to be missing the index!"@,
            *self == BiblicalError::MissingTestamentDelimiter ==> r@
                == "the bible is in an unexpected format! cannot locate the testament delimiter!"@,
            *self == BiblicalError::TestamentMissingTitle ==> r@ == "testament missing title!"@,
            *self == BiblicalError::BookMissingTitle ==> r@ == "book missing title!"@,
    {
        match self {
            BiblicalError::MissingIndex => {
                "the bible is in an unexpected format! it appears to be missing the index!"
            },
            BiblicalError::MissingTestamentDelimiter => {
                "the bible is in an unexpected format! cannot locate the testament delimiter!"
            },
            BiblicalError::TestamentMissingTitle => "testament missing title!",
            BiblicalError::BookMissingTitle => "book missing title!",
        }
    }
}

pub struct Book {
    pub title: String,
    pub verses: String,
}

pub ghost struct BookView {
    pub title: Seq<char>,
    pub verses: Seq<char>,
}

impl View for Book {
    type V = BookView;

    open spec fn view(&self) -> BookView {
        BookView { title: self.title@, verses: self.verses@ }
    }
}

impl DeepView for Book {
    type V = BookView;

    open spec fn deep_view(&self) -> BookView {
        self@
    }
}

pub struct Testament {
    pub title: String,
    pub books: Vec<Book>,
}

pub ghost struct TestamentView {
    pub title: Seq<char>,
    pub books: Seq<BookView>,
}

impl View for Testament {
    type V = TestamentView;

    open spec fn view(&self) -> TestamentView {
        TestamentView { title: self.title@, books: self.books.deep_view() }
    }
}

pub struct Bible {
    pub old: Testament,
    pub new: Testament,
}

pub ghost struct BibleView {
    pub old: TestamentView,
    pub new: TestamentView,
}

impl View for Bible {
    type V = BibleView;

    open spec fn view(&self) -> BibleView {
        BibleView { old: self.old@, new: self.new@ }
    }
}

/// What parsing one book fragment yields: the part before the first title
/// delimiter, trimmed, is the title; the rest, unmodified, is the verses.
pub open spec fn spec_parse_book(raw: Seq<char>) -> Result<BookView, BiblicalError> {
    match split_once_spec(raw, spec_book_title_delimiter()) {
        None => Err(BiblicalError::BookMissingTitle),
        Some(p) => Ok(BookView { title: trim_spec(p.0), verses: p.1 }),
    }
}

/// What parsing a sequence of book fragments yields: the first failure, or
/// all the books in order.
pub open spec fn spec_parse_books(segs: Seq<Seq<char>>) -> Result<Seq<BookView>, BiblicalError>
    decreases segs.len(),
{
    if segs.len() == 0 {
        Ok(Seq::<BookView>::empty())
    } else {
        match spec_parse_book(segs[0]) {
            Err(e) => Err(e),
            Ok(b) => match spec_parse_books(segs.drop_first()) {
                Err(e) => Err(e),
                Ok(rest) => Ok(seq![b] + rest),
            },
        }
    }
}

/// What parsing one testament block yields: the first fragment, trimmed, is
/// the title; every later fragment is one book.
pub open spec fn spec_parse_testament(raw: Seq<char>) -> Result<TestamentView, BiblicalError> {
    let segs = split_all(raw, spec_state_change());
    match spec_parse_books(segs.skip(1)) {
        Err(e) => Err(e),
        Ok(bs) => Ok(TestamentView { title: trim_spec(segs[0]), books: bs }),
    }
}

/// What parsing the whole corpus yields: the index is cut away at the first
/// state change, the remainder is split once at the testament delimiter, and
/// each half is parsed as a testament.
pub open spec fn spec_parse(text: Seq<char>) -> Result<BibleView, BiblicalError> {
    match split_once_spec(text, spec_state_change()) {
        None => Err(BiblicalError::MissingIndex),
        Some(p1) => match split_once_spec(p1.1, spec_testament_delimiter()) {
            None => Err(BiblicalError::MissingTestamentDelimiter),
            Some(p2) => match spec_parse_testament(p2.0) {
                Err(e) => Err(e),
                Ok(o) => match spec_parse_testament(p2.1) {
                    Err(e) => Err(e),
                    Ok(n) => Ok(BibleView { old: o, new: n }),
                },
            },
        },
    }
}

proof fn lemma_spec_parse_books_push(segs: Seq<Seq<char>>, x: Seq<char>)
    ensures
        spec_parse_books(segs.push(x)) == match spec_parse_books(segs) {
            Err(e) => Err::<Seq<BookView>, BiblicalError>(e),
            Ok(r) => match spec_parse_book(x) {
                Err(e) => Err(e),
                Ok(b) => Ok(r.push(b)),
            },
        },
    decreases segs.len(),
{
    let s = segs.push(x);
    assert(s.len() == segs.len() + 1);
    if segs.len() == 0 {
        assert(s[0] == x);
        assert(s.drop_first() =~~= Seq::<Seq<char>>::empty());
        assert(spec_parse_books(s.drop_first()) == Ok::<Seq<BookView>, BiblicalError>(
            Seq::<BookView>::empty(),
        ));
        assert(spec_parse_books(segs) == Ok::<Seq<BookView>, BiblicalError>(
            Seq::<BookView>::empty(),
        ));
        match spec_parse_book(x) {
            Err(e) => {
                assert(spec_parse_books(s) == Err::<Seq<BookView>, BiblicalError>(e));
            },
            Ok(b) => {
                assert(spec_parse_books(s) == Ok::<Seq<BookView>, BiblicalError>(
                    seq![b] + Seq::<BookView>::empty(),
                ));
                assert(seq![b] + Seq::<BookView>::empty() =~= Seq::<BookView>::empty().push(b));
            },
        }
    } else {
        assert(s[0] == segs[0]);
        assert(s.drop_first() =~~= segs.drop_first().push(x));
        lemma_spec_parse_books_push(segs.drop_first(), x);
        match spec_parse_book(segs[0]) {
            Err(e) => {
                assert(spec_parse_books(s) == Err::<Seq<BookView>, BiblicalError>(e));
                assert(spec_parse_books(segs) == Err::<Seq<BookView>, BiblicalError>(e));
            },
            Ok(b0) => {
                match spec_parse_books(segs.drop_first()) {
                    Err(e2) => {
                        assert(spec_parse_books(s) == Err::<Seq<BookView>, BiblicalError>(e2));
                        assert(spec_parse_books(segs) == Err::<Seq<BookView>, BiblicalError>(e2));
                    },
                    Ok(rr) => {
                        match spec_parse_book(x) {
                            Err(e) => {
                                assert(spec_parse_books(s.drop_first()) == Err::<
                                    Seq<BookView>,
                                    BiblicalError,
                                >(e));
                                assert(spec_parse_books(s) == Err::<Seq<BookView>, BiblicalError>(
                                    e,
                                ));
                            },
                            Ok(b) => {
                                assert(spec_parse_books(s.drop_first()) == Ok::<
                                    Seq<BookView>,
                                    BiblicalError,
                                >(rr.push(b)));
                                assert(spec_parse_books(s) == Ok::<Seq<BookView>, BiblicalError>(
                                    seq![b0] + rr.push(b),
                                ));
                                assert(spec_parse_books(segs) == Ok::<Seq<BookView>, BiblicalError>(
                                    seq![b0] + rr,
                                ));
                                assert(seq![b0] + rr.push(b) =~= (seq![b0] + rr).push(b));
                            },
                        }
                    },
                }
            },
        }
    }
}

proof fn lemma_spec_parse_books_err(segs: Seq<Seq<char>>, k: int, e: BiblicalError)
    requires
        0 <= k < segs.len(),
        spec_parse_books(segs.take(k)) is Ok,
        spec_parse_book(segs[k]) == Err::<BookView, BiblicalError>(e),
    ensures
        spec_parse_books(segs) == Err::<Seq<BookView>, BiblicalError>(e),
    decreases segs.len(),
{
    if k == 0 {
    } else {
        let t = segs.take(k);
        assert(t[0] == segs[0]);
        assert(t.drop_first() =~= segs.drop_first().take(k - 1));
        assert(segs.drop_first()[k - 1] == segs[k]);
        lemma_spec_parse_books_err(segs.drop_first(), k - 1, e);
    }
}

/// Splits `s` once at the first occurrence of `d`, yielding the parts before
/// and after the delimiter.
fn split_once_vec(s: &Vec<char>, d: &Vec<char>) -> (r: Option<(Vec<char>, Vec<char>)>)
    ensures
        match r {
            Some(p) => split_once_spec(s@, d@) == Some((p.0@, p.1@)),
            None => split_once_spec(s@, d@) is None,
        },
{
    match find_sub(s, d) {
        None => None,
        Some(i) => {
            let n = s.len();
            proof {
                crate::text::lemma_first_match_from(s@, d@, 0);
            }
            let left = sub_vec(s, 0, i);
            let right = sub_vec(s, i + d.len(), n);
            assert(left@ =~= s@.take(i as int));
            assert(right@ =~= s@.skip(i + d@.len()));
            Some((left, right))
        },
    }
}

/// Splits `s` at every occurrence of `d`, as the corpus format requires for
/// state changes; always yields at least one fragment.
fn split_all_vec(s: &Vec<char>, d: &Vec<char>) -> (r: Vec<Vec<char>>)
    requires
        d@.len() > 0,
    ensures
        r.deep_view() == split_all(s@, d@),
        r@.len() >= 1,
{
    let ghost s0 = s@;
    let mut out: Vec<Vec<char>> = Vec::new();
    let mut rest = sub_vec(s, 0, s.len());
    assert(rest@ =~= s0);
    loop
        invariant
            d@.len() > 0,
            s0 == s@,
            split_all(s0, d@) == out.deep_view() + split_all(rest@, d@),
        decreases rest@.len(),
    {
        match find_sub(&rest, d) {
            None => {
                let ghost before = out.deep_view();
                let ghost tail = rest@;
                out.push(rest);
                assert(out.deep_view() =~~= before.push(tail));
                assert(before + seq![tail] =~~= before.push(tail));
                assert(split_all(s0, d@) =~~= out.deep_view());
                assert(out.deep_view().len() >= 1);
                return out;
            },
            Some(i) => {
                let n = rest.len();
                proof {
                    crate::text::lemma_first_match_from(rest@, d@, 0);
                }
                let piece = sub_vec(&rest, 0, i);
                let new_rest = sub_vec(&rest, i + d.len(), n);
                assert(piece@ =~= rest@.take(i as int));
                assert(new_rest@ =~= rest@.skip(i + d@.len()));
                let ghost before = out.deep_view();
                let ghost old_rest = rest@;
                out.push(piece);
                assert(out.deep_view() =~~= before.push(old_rest.take(i as int)));
                assert(split_all(old_rest, d@) == seq![old_rest.take(i as int)] + split_all(
                    old_rest.skip(i + d@.len()),
                    d@,
                ));
                assert(out.deep_view() + split_all(new_rest@, d@) =~~= before + split_all(
                    old_rest,
                    d@,
                ));
                rest = new_rest;
            },
        }
    }
}

impl Book {
    /// Parses one book fragment: the text before the first title delimiter,
    /// trimmed, is the title; the rest is the verses.
    pub fn parse(raw: &Vec<char>) -> (r: Result<Book, BiblicalError>)
        ensures
            match r {
                Ok(b) => spec_parse_book(raw@) == Ok::<BookView, BiblicalError>(b@),
                Err(e) => spec_parse_book(raw@) == Err::<BookView, BiblicalError>(e),
            },
    {
        let d = book_title_delimiter_chars();
        match split_once_vec(raw, &d) {
            None => Err(BiblicalError::BookMissingTitle),
            Some((title_raw, content)) => {
                let title_v = trim_vec(&title_raw);
                Ok(Book { title: chars_to_string(&title_v), verses: chars_to_string(&content) })
            },
        }
    }
}

impl Testament {
    /// Parses one testament block: the first fragment is the title, every
    /// later fragment one book.
    pub fn parse(raw: &Vec<char>) -> (r: Result<Testament, BiblicalError>)
        ensures
            match r {
                Ok(t) => spec_parse_testament(raw@) == Ok::<TestamentView, BiblicalError>(t@),
                Err(e) => spec_parse_testament(raw@) == Err::<TestamentView, BiblicalError>(e),
            },
    {
        let ghost raw0 = raw@;
        proof {
            lemma_delimiters_nonempty();
        }
        let sc = state_change_chars();
        let segs = split_all_vec(raw, &sc);
        let ghost segs_dv = segs.deep_view();
        let title_v = trim_vec(&segs[0]);
        assert(segs_dv[0] == segs@[0]@);
        let title = chars_to_string(&title_v);
        let mut books: Vec<Book> = Vec::new();
        let mut i: usize = 1;
        assert(segs_dv.subrange(1, 1) =~~= Seq::<Seq<char>>::empty());
        assert(books.deep_view() =~= Seq::<BookView>::empty());
        while i < segs.len()
            invariant
                1 <= i <= segs@.len(),
                segs.deep_view() == segs_dv,
                segs_dv.len() == segs@.len(),
                segs_dv == split_all(raw@, spec_state_change()),
                title@ == trim_spec(segs_dv[0]),
                spec_parse_books(segs_dv.subrange(1, i as int)) == Ok::<
                    Seq<BookView>,
                    BiblicalError,
                >(books.deep_view()),
            decreases segs@.len() - i,
        {
            assert(segs_dv[i as int] == segs@[i as int]@);
            match Book::parse(&segs[i]) {
                Err(e) => {
                    proof {
                        assert(segs_dv.skip(1).take(i - 1) =~~= segs_dv.subrange(1, i as int));
                        assert(segs_dv.skip(1)[i - 1] == segs_dv[i as int]);
                        lemma_spec_parse_books_err(segs_dv.skip(1), i - 1, e);
                    }
                    return Err(e);
                },
                Ok(b) => {
                    let ghost before = books.deep_view();
                    books.push(b);
                    proof {
                        assert(books.deep_view() =~= before.push(b@));
                        lemma_spec_parse_books_push(segs_dv.subrange(1, i as int), segs_dv[i as int]);
                        assert(segs_dv.subrange(1, i + 1 as int) =~~= segs_dv.subrange(
                            1,
                            i as int,
                        ).push(segs_dv[i as int]));
                    }
                },
            }
            i += 1;
        }
        assert(segs_dv.subrange(1, i as int) =~~= segs_dv.skip(1));
        Ok(Testament { title, books })
    }
}

pub struct Verse {
    pub chapter: usize,
    pub verse: usize,
    pub content: String,
}

/// A decimal digit.
pub open spec fn is_digit_char(c: char) -> bool {
    48 <= c as u32 <= 57
}

/// The value of one decimal digit.
pub open spec fn digit_val(c: char) -> int {
    c as u32 - 48
}

/// Whether every character of `s` is a decimal digit.
pub open spec fn all_digits(s: Seq<char>) -> bool {
    forall|i: int| 0 <= i < s.len() ==> is_digit_char(s[i])
}

/// The value of a run of decimal digits.
pub open spec fn digits_val(s: Seq<char>) -> int
    decreases s.len(),
{
    if s.len() == 0 {
        0
    } else {
        digits_val(s.drop_last()) * 10 + digit_val(s.last())
    }
}

/// What parsing a number as `usize` yields: the text is trimmed, an optional
/// leading plus sign is dropped, and what remains must be one or more digits
/// whose value fits in `usize`.
pub open spec fn parse_usize_spec(s: Seq<char>) -> Option<int> {
    let t = trim_spec(s);
    let d = if t.len() > 0 && t[0] == '+' {
        t.drop_first()
    } else {
        t
    };
    if d.len() > 0 && all_digits(d) && digits_val(d) <= usize::MAX {
        Some(digits_val(d))
    } else {
        None
    }
}

/// What reading a verse marker yields: the text before the first space is
/// split at the first colon into a chapter and a verse number.
pub open spec fn spec_verse_number(s: Seq<char>) -> Option<(int, int)> {
    match first_match_from(s, seq![' '], 0) {
        None => None,
        Some(sp) => {
            let pre = s.take(sp);
            match first_match_from(pre, seq![':'], 0) {
                None => None,
                Some(c) => match (parse_usize_spec(pre.take(c)), parse_usize_spec(
                    pre.skip(c + 1),
                )) {
                    (Some(ch), Some(vs)) => Some((ch, vs)),
                    _ => None,
                },
            }
        },
    }
}

proof fn lemma_digits_val_nonneg(s: Seq<char>)
    requires
        all_digits(s),
    ensures
        digits_val(s) >= 0,
    decreases s.len(),
{
    if s.len() > 0 {
        assert(all_digits(s.drop_last()));
        lemma_digits_val_nonneg(s.drop_last());
    }
}

proof fn lemma_digits_val_prefix(s: Seq<char>, k: int)
    requires
        all_digits(s),
        0 <= k <= s.len(),
    ensures
        digits_val(s.take(k)) <= digits_val(s),
    decreases s.len() - k,
{
    if k < s.len() {
        lemma_digits_val_prefix(s, k + 1);
        let t = s.take(k + 1);
        assert(t.drop_last() =~= s.take(k));
        assert(t.last() == s[k]);
        lemma_digits_val_nonneg(s.take(k));
        assert(digits_val(s.take(k)) * 10 >= digits_val(s.take(k))) by (nonlinear_arith)
            requires
                digits_val(s.take(k)) >= 0,
        ;
    } else {
        assert(s.take(k) =~= s);
    }
}

/// Reads the chapter and verse number off the front of a verse fragment,
/// written as `chapter:verse` before the first space.
pub fn verse_number(raw: &str) -> (r: Option<(usize, usize)>)
    ensures
        match r {
            Some(p) => spec_verse_number(raw@) == Some((p.0 as int, p.1 as int)),
            None => spec_verse_number(raw@) is None,
        },
{
    let chars = to_chars(raw);
    let mut space: Vec<char> = Vec::new();
    space.push(' ');
    assert(space@ =~= seq![' ']);
    let sp = match find_sub(&chars, &space) {
        None => {
            return None;
        },
        Some(i) => i,
    };
    proof {
        crate::text::lemma_first_match_from(chars@, seq![' '], 0);
    }
    let pre = sub_vec(&chars, 0, sp);
    assert(pre@ =~= chars@.take(sp as int));
    let mut colon: Vec<char> = Vec::new();
    colon.push(':');
    assert(colon@ =~= seq![':']);
    let c = match find_sub(&pre, &colon) {
        None => {
            return None;
        },
        Some(i) => i,
    };
    proof {
        crate::text::lemma_first_match_from(pre@, seq![':'], 0);
    }
    let left = sub_vec(&pre, 0, c);
    let right = sub_vec(&pre, c + 1, pre.len());
    assert(left@ =~= pre@.take(c as int));
    assert(right@ =~= pre@.skip(c + 1));
    let chapter = match parse_usize_chars(&left) {
        None => {
            return None;
        },
        Some(n) => n,
    };
    let verse = match parse_usize_chars(&right) {
        None => {
            return None;
        },
        Some(n) => n,
    };
    Some((chapter, verse))
}

/// Reads a trimmed, optionally plus-signed run of decimal digits as a
/// `usize`, refusing text in any other shape and values that do not fit.
fn parse_usize_chars(v: &Vec<char>) -> (r: Option<usize>)
    ensures
        match r {
            Some(n) => parse_usize_spec(v@) == Some(n as int),
            None => parse_usize_spec(v@) is None,
        },
{
    let t = trim_vec(v);
    let start: usize = if t.len() > 0 && t[0] == '+' {
        1
    } else {
        0
    };
    let ghost d = if t@.len() > 0 && t@[0] == '+' {
        t@.drop_first()
    } else {
        t@
    };
    assert(d =~= t@.skip(start as int));
    if t.len() == start {
        return None;
    }
    let mut acc: usize = 0;
    let mut i: usize = start;
    while i < t.len()
        invariant
            start <= i <= t@.len(),
            t@ == trim_spec(v@),
            start == if t@.len() > 0 && t@[0] == '+' {
                1int
            } else {
                0int
            },
            d == t@.skip(start as int),
            d.len() == t@.len() - start,
            d == if t@.len() > 0 && t@[0] == '+' {
                t@.drop_first()
            } else {
                t@
            },
            all_digits(d.take(i - start)),
            acc as int == digits_val(d.take(i - start)),
        decreases t@.len() - i,
    {
        let c = t[i];
        let u = c as u32;
        assert(d[i - start] == t@[i as int]);
        if !(48 <= u && u <= 57) {
            assert(!is_digit_char(d[i - start]));
            return None;
        }
        let dg = (u - 48) as usize;
        let next = match acc.checked_mul(10) {
            None => None,
            Some(x) => x.checked_add(dg),
        };
        match next {
            None => {
                proof {
                    let k = i - start + 1;
                    assert(d.take(k).drop_last() =~= d.take(k - 1));
                    assert(d.take(k).last() == d[k - 1]);
                    assert(digits_val(d.take(k)) == acc as int * 10 + dg as int);
                    if all_digits(d) {
                        lemma_digits_val_prefix(d, k);
                    }
                }
                return None;
            },
            Some(x) => {
                proof {
                    let k = i - start + 1;
                    assert(d.take(k).drop_last() =~= d.take(k - 1));
                    assert(d.take(k).last() == d[k - 1]);
                }
                acc = x;
            },
        }
        i += 1;
    }
    assert(d.take(i - start) =~= d);
    Some(acc)
}

/// Parses the whole corpus text into the two testaments.
pub fn parse(text: &str) -> (r: Result<Bible, BiblicalError>)
    ensures
        match r {
            Ok(b) => spec_parse(text@) == Ok::<BibleView, BiblicalError>(b@),
            Err(e) => spec_parse(text@) == Err::<BibleView, BiblicalError>(e),
        },
{
    let chars = to_chars(text);
    let sc = state_change_chars();
    let (_, rest) = match split_once_vec(&chars, &sc) {
        None => {
            return Err(BiblicalError::MissingIndex);
        },
        Some(p) => p,
    };
    let td = testament_delimiter_chars();
    let (old_raw, new_raw) = match split_once_vec(&rest, &td) {
        None => {
            return Err(BiblicalError::MissingTestamentDelimiter);
        },
        Some(p) => p,
    };
    let old = match Testament::parse(&old_raw) {
        Err(e) => {
            return Err(e);
        },
        Ok(t) => t,
    };
    let new = match Testament::parse(&new_raw) {
        Err(e) => {
            return Err(e);
        },
        Ok(t) => t,
    };
    Ok(Bible { old, new })
}

} // verus!
