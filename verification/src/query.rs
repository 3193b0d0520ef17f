//! The membership queries: what share of an input's words the corpus holds,
//! which words those are, and where one of them stands, with a bounded
//! excerpt around it.
use vstd::prelude::*;

use crate::bible::BibleView;
use crate::index::{
    bible_index, bible_map_contains, bible_map_get, book_list, book_occurs, book_words,
    index_words_occur, placements_in, word_entries, word_present, BibleService, WordMap,
};
use crate::text::{
    chars_to_string, find_sub, first_match_from, lemma_filter_all, lemma_filter_membership,
    lemma_filter_pair_order, lemma_filter_push, lemma_first_match_from, lemma_first_match_occurs,
    match_at, occurs_in, sub_vec, to_chars,
};
use crate::tokenize::{filtered_words, lower_of, tokenize_filtered};

verus! {

/// The filtered input words that the index holds, in input order.
pub open spec fn matched_words(b: BibleView, input: Seq<char>) -> Seq<Seq<char>> {
    filtered_words(input).filter(|w: Seq<char>| word_present(book_list(b), w))
}

/// Scores the input: how many of its filtered words the index holds, over
/// how many there are. An input with fewer filtered words than `threshold`
/// is exempt from scrutiny and scored as fully present, one for one; so is
/// one with no filtered words at all, whatever the threshold, keeping the
/// denominator positive and the score within zero and one.
pub fn ratio_of_words_in_the_bible(svc: &BibleService, input: &str, threshold: usize) -> (r: (
    usize,
    usize,
))
    ensures
        (filtered_words(input@).len() < threshold || filtered_words(input@).len() == 0) ==> r
            == (1usize, 1usize),
        (filtered_words(input@).len() >= threshold && filtered_words(input@).len() > 0) ==> (r.0
            == matched_words(svc@, input@).len() && r.1 == filtered_words(input@).len()),
        r.0 <= r.1,
        r.1 >= 1,
{
    let words = tokenize_filtered(input);
    if words.len() < threshold || words.len() == 0 {
        return (1, 1);
    }
    proof {
        use_type_invariant(svc);
    }
    let ghost fw = filtered_words(input@);
    let ghost p = |w: Seq<char>| word_present(book_list(svc@), w);
    let mut count: usize = 0;
    let mut i: usize = 0;
    assert(fw.take(0) =~~= Seq::<Seq<char>>::empty());
    assert(fw.take(0).filter(p) =~~= Seq::<Seq<char>>::empty()) by {
        reveal(Seq::filter);
    }
    while i < words.len()
        invariant
            i <= words@.len(),
            words.deep_view() == fw,
            fw == filtered_words(input@),
            words@.len() == fw.len(),
            word_entries(svc.map) == bible_index(svc@),
            p == (|w: Seq<char>| word_present(book_list(svc@), w)),
            count as int == fw.take(i as int).filter(p).len(),
            count <= i,
        decreases words@.len() - i,
    {
        let present = bible_map_contains(&svc.map, &words[i]);
        proof {
            assert(fw[i as int] == words@[i as int]@);
            assert(present == word_present(book_list(svc@), fw[i as int]));
            assert(fw.take(i + 1) =~~= fw.take(i as int).push(fw[i as int]));
            lemma_filter_push(fw.take(i as int), p, fw[i as int]);
        }
        if present {
            count += 1;
        }
        i += 1;
    }
    assert(fw.take(i as int) =~~= fw);
    assert(count as int == matched_words(svc@, input@).len());
    (count, words.len())
}

/// Whether any scored word of the input is present: exactly when the ratio
/// is above zero, which an exempt short input always is.
pub fn are_any_of_these_words_in_the_bible(svc: &BibleService, input: &str, threshold: usize) -> (r:
    bool)
    ensures
        r == (filtered_words(input@).len() < threshold || filtered_words(input@).len() == 0
            || matched_words(svc@, input@).len() > 0),
{
    let counts = ratio_of_words_in_the_bible(svc, input, threshold);
    counts.0 > 0
}

/// The filtered input words the index holds, each with its placements, in
/// input order.
pub fn matching_words(svc: &BibleService, words: &Vec<String>) -> (r: Vec<(String, Vec<WordMap>)>)
    ensures
        ({
            let ms = words.deep_view().filter(
                |w: Seq<char>| word_present(book_list(svc@), w),
            );
            r@.len() == ms.len() && (forall|k: int|
                0 <= k < r@.len() ==> (r@[k].0@ == ms[k] && r@[k].1.deep_view() == placements_in(
                    book_list(svc@),
                    ms[k],
                )))
        }),
{
    proof {
        use_type_invariant(svc);
    }
    let ghost dv = words.deep_view();
    let ghost p = |w: Seq<char>| word_present(book_list(svc@), w);
    let mut r: Vec<(String, Vec<WordMap>)> = Vec::new();
    let mut i: usize = 0;
    assert(dv.take(0) =~~= Seq::<Seq<char>>::empty());
    assert(dv.take(0).filter(p) =~~= Seq::<Seq<char>>::empty()) by {
        reveal(Seq::filter);
    }
    while i < words.len()
        invariant
            i <= words@.len(),
            words.deep_view() == dv,
            words@.len() == dv.len(),
            word_entries(svc.map) == bible_index(svc@),
            p == (|w: Seq<char>| word_present(book_list(svc@), w)),
            r@.len() == dv.take(i as int).filter(p).len(),
            forall|k: int|
                0 <= k < r@.len() ==> (r@[k].0@ == dv.take(i as int).filter(p)[k] && r@[
                    k
                ].1.deep_view() == placements_in(book_list(svc@), dv.take(i as int).filter(p)[k])),
        decreases words@.len() - i,
    {
        assert(dv[i as int] == words@[i as int]@);
        let got = bible_map_get(&svc.map, &words[i]);
        proof {
            assert((got is Some) == word_present(book_list(svc@), dv[i as int]));
            assert(dv.take(i + 1) =~~= dv.take(i as int).push(dv[i as int]));
            lemma_filter_push(dv.take(i as int), p, dv[i as int]);
        }
        match got {
            Some(v) => {
                assert(v.deep_view() == bible_index(svc@)[dv[i as int]]);
                assert(bible_index(svc@)[dv[i as int]] == placements_in(
                    book_list(svc@),
                    dv[i as int],
                ));
                r.push((words[i].clone(), v));
            },
            None => {
            },
        }
        i += 1;
    }
    assert(dv.take(i as int) =~~= dv);
    r
}

/// The filtered input words the index holds, in input order, repeats kept.
pub fn what_words_are_in_the_bible(svc: &BibleService, input: &str) -> (r: Vec<String>)
    ensures
        r.deep_view() == matched_words(svc@, input@),
{
    let words = tokenize_filtered(input);
    let matching = matching_words(svc, &words);
    let ghost ms = matched_words(svc@, input@);
    let mut out: Vec<String> = Vec::new();
    let mut i: usize = 0;
    while i < matching.len()
        invariant
            i <= matching@.len(),
            matching@.len() == ms.len(),
            forall|k: int| 0 <= k < matching@.len() ==> matching@[k].0@ == ms[k],
            out@.len() == i,
            forall|k: int| 0 <= k < i ==> out@[k]@ == ms[k],
        decreases matching@.len() - i,
    {
        out.push(matching[i].0.clone());
        i += 1;
    }
    assert(out.deep_view() =~~= ms);
    out
}

/// The paragraph boundary that an excerpt must not cross: two consecutive
/// line breaks.
pub open spec fn spec_separator() -> Seq<char> {
    "\r\n\r\n"@
}

pub proof fn lemma_separator()
    ensures
        spec_separator().len() == 4,
        spec_separator()[0] == '\r',
{
    reveal_strlit("\r\n\r\n");
}

fn separator_chars() -> (r: Vec<char>)
    ensures
        r@ == spec_separator(),
{
    to_chars("\r\n\r\n")
}

/// Whether the window `s[lo..=hi]` holds the paragraph separator whole.
pub open spec fn window_has_sep(s: Seq<char>, lo: int, hi: int) -> bool {
    exists|k: int|
        lo <= k && k + spec_separator().len() <= hi + 1 && match_at(s, spec_separator(), k)
}

/// Where leftward expansion from `m` stops: at the start of the text, at the
/// distance cap of 400 characters from the anchor, or as soon as the window
/// up to the anchor holds the separator.
pub open spec fn left_stop(s: Seq<char>, anchor: int, m: int) -> int
    decreases m,
{
    if m <= 0 || m <= anchor - 400 {
        m
    } else if window_has_sep(s, m, anchor) {
        m
    } else {
        left_stop(s, anchor, m - 1)
    }
}

/// Where rightward expansion from `m` stops: at the last character of the
/// text, at the distance cap of 400 characters from the anchor, or as soon
/// as the window from the anchor holds the separator.
pub open spec fn right_stop(s: Seq<char>, anchor: int, m: int) -> int
    decreases s.len() - m,
{
    if m + 1 >= s.len() || m >= anchor + 400 {
        m
    } else if window_has_sep(s, anchor, m) {
        m
    } else {
        right_stop(s, anchor, m + 1)
    }
}

/// Where one matched word stands: the owning testament's and book's titles,
/// and a bounded excerpt of the lowercased verses around the match.
pub struct WhereWasWord {
    pub testament: String,
    pub book: String,
    pub section: String,
}

pub ghost struct WhereView {
    pub testament: Seq<char>,
    pub book: Seq<char>,
    pub section: Seq<char>,
}

impl View for WhereWasWord {
    type V = WhereView;

    open spec fn view(&self) -> WhereView {
        WhereView { testament: self.testament@, book: self.book@, section: self.section@ }
    }
}

/// What locating yields: the first matched word's first placement, anchored
/// at the first occurrence of the word in the book's lowercased verses, with
/// the excerpt between the two expansion stops.
pub open spec fn spec_where(b: BibleView, input: Seq<char>) -> Option<WhereView> {
    let matched = matched_words(b, input);
    if matched.len() == 0 {
        None
    } else {
        let w = matched[0];
        let places = placements_in(book_list(b), w);
        if places.len() == 0 {
            None
        } else {
            let p = places[0];
            let t = if p.0 == 0 {
                b.old
            } else {
                b.new
            };
            let bk = t.books[p.1];
            let lc = lower_of(bk.verses);
            match first_match_from(lc, w, 0) {
                None => None,
                Some(anchor) => {
                    let lo = left_stop(lc, anchor, anchor);
                    let hi = right_stop(lc, anchor, anchor);
                    Some(
                        WhereView {
                            testament: t.title,
                            book: bk.title,
                            section: lc.subrange(lo, hi + 1),
                        },
                    )
                },
            }
        }
    }
}

/// Each placement of `w` names a real book whose word set holds `w`.
proof fn lemma_placement_valid(b: BibleView, w: Seq<char>, k: int)
    requires
        0 <= k < placements_in(book_list(b), w).len(),
    ensures
        ({
            let p = placements_in(book_list(b), w)[k];
            (p.0 == 0 && 0 <= p.1 < b.old.books.len() && book_words(
                b.old.books[p.1].verses,
            ).contains(w)) || (p.0 == 1 && 0 <= p.1 < b.new.books.len() && book_words(
                b.new.books[p.1].verses,
            ).contains(w))
        }),
{
    let bs = book_list(b);
    let pred = |pb: crate::index::PlacedBook| book_words(pb.content).contains(w);
    let f = bs.filter(pred);
    assert(placements_in(bs, w)[k] == f[k].place);
    lemma_filter_membership(bs, pred, k);
    let i = choose|i: int| 0 <= i < bs.len() && bs[i] == f[k];
    bs.lemma_filter_pred(pred, k);
    if i < b.old.books.len() {
        assert(bs[i].place == (0int, i));
    } else {
        assert(bs[i].place == (1int, i - b.old.books.len()));
    }
}

/// If some book's word set holds `w`, `w` has at least one placement.
proof fn lemma_present_has_placement(b: BibleView, w: Seq<char>)
    requires
        word_present(book_list(b), w),
    ensures
        placements_in(book_list(b), w).len() > 0,
{
    let bs = book_list(b);
    let pred = |pb: crate::index::PlacedBook| book_words(pb.content).contains(w);
    let i = choose|i: int| 0 <= i < bs.len() && book_words(bs[i].content).contains(w);
    bs.lemma_filter_contains(pred, i);
    assert(bs.filter(pred).len() > 0);
}

fn window_contains_sep(s: &Vec<char>, lo: usize, hi: usize, sep: &Vec<char>) -> (r: bool)
    requires
        sep@ == spec_separator(),
        lo <= hi < s@.len(),
    ensures
        r == window_has_sep(s@, lo as int, hi as int),
{
    proof {
        lemma_separator();
    }
    let n = s.len();
    let mut k = lo;
    while k <= hi && hi + 1 - k >= sep.len()
        invariant
            sep@ == spec_separator(),
            spec_separator().len() == 4,
            lo <= k <= hi + 1,
            hi < n,
            n == s@.len(),
            forall|j: int|
                lo <= j < k ==> !(j + spec_separator().len() <= hi + 1 && match_at(
                    s@,
                    spec_separator(),
                    j,
                )),
        decreases hi + 1 - k,
    {
        if crate::text::is_match_at(s, sep, k) {
            assert(window_has_sep(s@, lo as int, hi as int));
            return true;
        }
        k += 1;
    }
    assert(!window_has_sep(s@, lo as int, hi as int)) by {
        if window_has_sep(s@, lo as int, hi as int) {
            let j = choose|j: int|
                lo <= j && j + spec_separator().len() <= hi + 1 && match_at(
                    s@,
                    spec_separator(),
                    j,
                );
            assert(j < k);
        }
    }
    false
}

/// Locates the first scored input word the index holds: its first placement
/// names the book, the excerpt is the window around the first literal
/// occurrence of the word in that book's lowercased verses. Absent exactly
/// when no scored word is present.
pub fn where_in_the_bible(svc: &BibleService, input: &str) -> (r: Option<WhereWasWord>)
    ensures
        r is Some ==> spec_where(svc@, input@) == Some((r->Some_0)@),
        r is None ==> spec_where(svc@, input@) is None,
        (r is Some) == (matched_words(svc@, input@).len() > 0),
{
    proof {
        use_type_invariant(svc);
    }
    let words = tokenize_filtered(input);
    let matching = matching_words(svc, &words);
    let ghost ms = matched_words(svc@, input@);
    if matching.len() == 0 {
        return None;
    }
    let ghost w0 = ms[0];
    let ghost bl = book_list(svc@);
    proof {
        filtered_words(input@).lemma_filter_pred(
            |w: Seq<char>| word_present(book_list(svc@), w),
            0,
        );
        assert(word_present(bl, w0));
        lemma_present_has_placement(svc@, w0);
        lemma_placement_valid(svc@, w0, 0);
        lemma_filter_membership(
            filtered_words(input@),
            |w: Seq<char>| word_present(book_list(svc@), w),
            0,
        );
        let k = choose|k: int|
            0 <= k < filtered_words(input@).len() && filtered_words(input@)[k] == ms[0];
        assert(words.deep_view()[k].len() > 0 && !words.deep_view()[k].contains('\r'));
        assert(w0.len() > 0 && !w0.contains('\r'));
    }
    let first_word = &matching[0].0;
    let places = &matching[0].1;
    assert(first_word@ == w0);
    assert(places.deep_view() == placements_in(bl, w0));
    assert(places@.len() == places.deep_view().len());
    let p0: WordMap = places[0];
    assert(p0@ == placements_in(bl, w0)[0]);
    let book = if p0.testament == 0 {
        &svc.bible.old.books[p0.book]
    } else {
        &svc.bible.new.books[p0.book]
    };
    let ghost tview = if p0@.0 == 0 {
        svc@.old
    } else {
        svc@.new
    };
    assert(book@ == tview.books[p0@.1]);
    assert(book_words(book@.verses).contains(w0));
    let lc_string = crate::tokenize::lowercase(book.verses.as_str());
    let lc = to_chars(lc_string.as_str());
    assert(lc@ == lower_of(book@.verses));
    let wchars = to_chars(first_word.as_str());
    let anchor = match find_sub(&lc, &wchars) {
        None => {
            proof {
                assert(book_occurs(bl[if p0@.0 == 0 {
                    p0@.1
                } else {
                    svc@.old.books.len() + p0@.1
                }].content));
                assert(occurs_in(lower_of(book@.verses), w0));
                lemma_first_match_occurs(lc@, w0);
                assert(false);
            }
            return None;
        },
        Some(a) => a,
    };
    proof {
        lemma_first_match_from(lc@, w0, 0);
        lemma_separator();
    }
    let n = lc.len();
    assert(anchor < n);
    let sep = separator_chars();
    let mut lo = anchor;
    loop
        invariant
            lc@.len() == n,
            anchor < n,
            lo <= anchor,
            sep@ == spec_separator(),
            left_stop(lc@, anchor as int, anchor as int) == left_stop(
                lc@,
                anchor as int,
                lo as int,
            ),
        ensures
            lo <= anchor,
            left_stop(lc@, anchor as int, anchor as int) == lo as int,
        decreases lo,
    {
        if lo == 0 {
            assert(left_stop(lc@, anchor as int, 0) == 0);
            break ;
        }
        if anchor - lo >= 400 {
            assert(left_stop(lc@, anchor as int, lo as int) == lo as int);
            break ;
        }
        if window_contains_sep(&lc, lo, anchor, &sep) {
            assert(left_stop(lc@, anchor as int, lo as int) == lo as int);
            break ;
        }
        lo -= 1;
    }
    let mut hi = anchor;
    loop
        invariant
            lc@.len() == n,
            anchor <= hi < n,
            sep@ == spec_separator(),
            right_stop(lc@, anchor as int, anchor as int) == right_stop(
                lc@,
                anchor as int,
                hi as int,
            ),
        ensures
            anchor <= hi < n,
            right_stop(lc@, anchor as int, anchor as int) == hi as int,
        decreases n - hi,
    {
        if hi + 1 >= n {
            assert(right_stop(lc@, anchor as int, hi as int) == hi as int);
            break ;
        }
        if hi - anchor >= 400 {
            assert(right_stop(lc@, anchor as int, hi as int) == hi as int);
            break ;
        }
        if window_contains_sep(&lc, anchor, hi, &sep) {
            assert(right_stop(lc@, anchor as int, hi as int) == hi as int);
            break ;
        }
        hi += 1;
    }
    let section_v = sub_vec(&lc, lo, hi + 1);
    let testament_title = if p0.testament == 0 {
        svc.bible.old.title.clone()
    } else {
        svc.bible.new.title.clone()
    };
    Some(
        WhereWasWord {
            testament: testament_title,
            book: book.title.clone(),
            section: chars_to_string(&section_v),
        },
    )
}

proof fn lemma_left_stop_bounds(s: Seq<char>, a: int, m: int)
    requires
        m >= 0,
        m >= a - 400,
    ensures
        0 <= left_stop(s, a, m) <= m,
        left_stop(s, a, m) >= a - 400,
    decreases m,
{
    if m <= 0 || m <= a - 400 {
    } else if window_has_sep(s, m, a) {
    } else {
        lemma_left_stop_bounds(s, a, m - 1);
    }
}

proof fn lemma_right_stop_bounds(s: Seq<char>, a: int, m: int)
    requires
        0 <= m < s.len(),
        m <= a + 400,
    ensures
        m <= right_stop(s, a, m) <= a + 400,
        right_stop(s, a, m) < s.len(),
    decreases s.len() - m,
{
    if m + 1 >= s.len() || m >= a + 400 {
    } else if window_has_sep(s, a, m) {
    } else {
        lemma_right_stop_bounds(s, a, m + 1);
    }
}

proof fn lemma_left_stop_no_sep(s: Seq<char>, a: int, m: int)
    ensures
        forall|m2: int| left_stop(s, a, m) < m2 <= m ==> !window_has_sep(s, m2, a),
    decreases m,
{
    if m <= 0 || m <= a - 400 {
    } else if window_has_sep(s, m, a) {
    } else {
        lemma_left_stop_no_sep(s, a, m - 1);
        lemma_left_stop_bounds_weak(s, a, m - 1);
    }
}

proof fn lemma_left_stop_bounds_weak(s: Seq<char>, a: int, m: int)
    ensures
        left_stop(s, a, m) <= m,
    decreases m,
{
    if m <= 0 || m <= a - 400 {
    } else if window_has_sep(s, m, a) {
    } else {
        lemma_left_stop_bounds_weak(s, a, m - 1);
    }
}

proof fn lemma_right_stop_bounds_weak(s: Seq<char>, a: int, m: int)
    ensures
        right_stop(s, a, m) >= m,
    decreases s.len() - m,
{
    if m + 1 >= s.len() || m >= a + 400 {
    } else if window_has_sep(s, a, m) {
    } else {
        lemma_right_stop_bounds_weak(s, a, m + 1);
    }
}

proof fn lemma_right_stop_no_sep(s: Seq<char>, a: int, m: int)
    ensures
        forall|m2: int| m <= m2 < right_stop(s, a, m) ==> !window_has_sep(s, a, m2),
    decreases s.len() - m,
{
    if m + 1 >= s.len() || m >= a + 400 {
    } else if window_has_sep(s, a, m) {
    } else {
        lemma_right_stop_no_sep(s, a, m + 1);
        lemma_right_stop_bounds_weak(s, a, m + 1);
    }
}

/// Law: the excerpt window reaches at most 400 characters from the anchor
/// on either side, stays inside the text, and no whole paragraph separator
/// stands strictly between a boundary and the anchor.
pub proof fn lemma_excerpt_window(s: Seq<char>, anchor: int)
    requires
        0 <= anchor < s.len(),
    ensures
        0 <= left_stop(s, anchor, anchor) <= anchor,
        anchor - left_stop(s, anchor, anchor) <= 400,
        anchor <= right_stop(s, anchor, anchor) <= anchor + 400,
        right_stop(s, anchor, anchor) < s.len(),
        forall|m: int|
            left_stop(s, anchor, anchor) < m <= anchor ==> !window_has_sep(s, m, anchor),
        forall|m: int|
            anchor <= m < right_stop(s, anchor, anchor) ==> !window_has_sep(s, anchor, m),
{
    lemma_left_stop_bounds(s, anchor, anchor);
    lemma_right_stop_bounds(s, anchor, anchor);
    lemma_left_stop_no_sep(s, anchor, anchor);
    lemma_right_stop_no_sep(s, anchor, anchor);
}

proof fn lemma_right_reaches(s: Seq<char>, w: Seq<char>, anchor: int, m: int)
    requires
        match_at(s, w, anchor),
        1 <= w.len() <= 401,
        !w.contains('\r'),
        anchor <= m <= anchor + w.len() - 1,
    ensures
        right_stop(s, anchor, m) >= anchor + w.len() - 1,
    decreases anchor + w.len() - m,
{
    lemma_separator();
    if m == anchor + w.len() - 1 {
        lemma_right_stop_bounds_weak(s, anchor, m);
    } else {
        assert(m + 1 < s.len());
        assert(m < anchor + 400);
        assert(!window_has_sep(s, anchor, m)) by {
            if window_has_sep(s, anchor, m) {
                let k = choose|k: int|
                    anchor <= k && k + spec_separator().len() <= m + 1 && match_at(
                        s,
                        spec_separator(),
                        k,
                    );
                assert(s.subrange(k, k + 4)[0] == s[k]);
                assert(s[k] == '\r');
                assert(s.subrange(anchor, anchor + w.len() as int)[k - anchor] == s[k]);
                assert(w[k - anchor] == '\r');
                assert(w.contains('\r'));
            }
        }
        lemma_right_reaches(s, w, anchor, m + 1);
    }
}

/// Law: an excerpt anchored at an occurrence of a word free of carriage
/// returns and no longer than the cap allows holds that word whole.
pub proof fn lemma_excerpt_contains_word(s: Seq<char>, w: Seq<char>, anchor: int)
    requires
        match_at(s, w, anchor),
        1 <= w.len() <= 401,
        !w.contains('\r'),
    ensures
        ({
            let lo = left_stop(s, anchor, anchor);
            let hi = right_stop(s, anchor, anchor);
            lo <= anchor && anchor + w.len() <= hi + 1 && match_at(
                s.subrange(lo, hi + 1),
                w,
                anchor - lo,
            )
        }),
{
    let lo = left_stop(s, anchor, anchor);
    let hi = right_stop(s, anchor, anchor);
    assert(0 <= anchor < s.len());
    lemma_left_stop_bounds(s, anchor, anchor);
    lemma_right_stop_bounds(s, anchor, anchor);
    lemma_right_reaches(s, w, anchor, anchor);
    assert(lo <= anchor && anchor + w.len() <= hi + 1 <= s.len());
    assert(s.subrange(lo, hi + 1).subrange(anchor - lo, anchor - lo + w.len() as int) =~= s
        .subrange(anchor, anchor + w.len() as int));
    assert(s.subrange(anchor, anchor + w.len() as int) == w);
}

/// Law: an input all of whose filtered words the index holds is scored as
/// fully present — the matched count equals the full count, so the ratio is
/// one.
pub proof fn lemma_ratio_all_present(b: BibleView, input: Seq<char>)
    ensures
        (forall|k: int|
            0 <= k < filtered_words(input).len() ==> word_present(
                book_list(b),
                #[trigger] filtered_words(input)[k],
            )) ==> matched_words(b, input) == filtered_words(input),
{
    if forall|k: int|
        0 <= k < filtered_words(input).len() ==> word_present(
            book_list(b),
            #[trigger] filtered_words(input)[k],
        ) {
        lemma_filter_all(filtered_words(input), |w: Seq<char>| word_present(book_list(b), w));
    }
}

/// Law: the matched words are drawn from the filtered input words and keep
/// their input order — no word is invented, and no pair is swapped.
pub proof fn lemma_matched_words_order(b: BibleView, input: Seq<char>, i: int, j: int)
    requires
        0 <= i <= j < matched_words(b, input).len(),
    ensures
        exists|i2: int, j2: int|
            0 <= i2 <= j2 < filtered_words(input).len() && filtered_words(input)[i2]
                == matched_words(b, input)[i] && filtered_words(input)[j2] == matched_words(
                b,
                input,
            )[j],
{
    lemma_filter_pair_order(
        filtered_words(input),
        |w: Seq<char>| word_present(book_list(b), w),
        i,
        j,
    );
}

} // verus!
