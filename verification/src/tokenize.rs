//! Tokenization: Unicode word segmentation and lowercase folding, both done
//! by outside code behind named results, and the fixed ignore list that the
//! membership queries filter with.
use vstd::prelude::*;

use unicode_segmentation::UnicodeSegmentation;

use crate::text::{lemma_filter_push, occurs_in};

verus! {

/// The words of a text under Unicode word segmentation, in order.
pub uninterp spec fn unicode_words_of(s: Seq<char>) -> Seq<Seq<char>>;

/// The Unicode lowercase folding of a text.
pub uninterp spec fn lower_of(s: Seq<char>) -> Seq<char>;

/// Relies on `unicode_segmentation::UnicodeSegmentation::unicode_words`: the
/// iterator yields the UAX#29 word segments of `s` that contain alphanumeric
/// characters, in order, and depends on the characters alone. Each item is a
/// subslice of `s`, so it occurs in `s` and is not empty; UAX#29 always
/// breaks around carriage returns and line feeds, and a segment made only of
/// those holds no alphanumeric character, so no item contains a line break.
#[verifier::external_body]
pub(crate) fn unicode_words_vec(s: &str) -> (r: Vec<String>)
    ensures
        r.deep_view() == unicode_words_of(s@),
        forall|i: int|
            0 <= i < r.deep_view().len() ==> (r.deep_view()[i].len() > 0 && !r.deep_view()[
                i
            ].contains('\r') && !r.deep_view()[i].contains('\n') && occurs_in(
                s@,
                r.deep_view()[i],
            )),
{
    s.unicode_words().map(|w| w.to_owned()).collect()
}

/// Relies on `str::to_lowercase`: the result is the Unicode lowercase
/// mapping of `s` and depends on its characters alone. Every character maps
/// to at least one character, so a non-empty text stays non-empty; no
/// character's lowercase mapping is a carriage return or line feed, and a
/// character without a lowercase mapping is kept as it is, so a text free of
/// a line-break character stays free of it.
#[verifier::external_body]
pub(crate) fn lowercase(s: &str) -> (r: String)
    ensures
        r@ == lower_of(s@),
        s@.len() > 0 ==> r@.len() > 0,
        !s@.contains('\r') ==> !r@.contains('\r'),
        !s@.contains('\n') ==> !r@.contains('\n'),
{
    s.to_lowercase()
}

/// The fixed list of common short words that membership scoring ignores.
pub open spec fn spec_ignore_list() -> Seq<Seq<char>> {
    seq![
        "the"@,
        "be"@,
        "to"@,
        "of"@,
        "and"@,
        "a"@,
        "in"@,
        "that"@,
        "have"@,
        "i"@,
        "it"@,
        "for"@,
        "not"@,
        "on"@,
        "with"@,
        "as"@,
        "at"@,
    ]
}

/// Whether a normalized word is on the ignore list.
pub open spec fn is_ignored(w: Seq<char>) -> bool {
    spec_ignore_list().contains(w)
}

/// The words of the input after segmentation and lowercasing, in order.
pub open spec fn lowered_words(input: Seq<char>) -> Seq<Seq<char>> {
    unicode_words_of(input).map_values(|w: Seq<char>| lower_of(w))
}

/// The lowered words of the input with the ignore list removed, in order:
/// what every membership query scores.
pub open spec fn filtered_words(input: Seq<char>) -> Seq<Seq<char>> {
    lowered_words(input).filter(|w: Seq<char>| !is_ignored(w))
}

fn ignore_list() -> (r: Vec<String>)
    ensures
        r.deep_view() == spec_ignore_list(),
{
    let mut r: Vec<String> = Vec::new();
    r.push("the".to_owned());
    r.push("be".to_owned());
    r.push("to".to_owned());
    r.push("of".to_owned());
    r.push("and".to_owned());
    r.push("a".to_owned());
    r.push("in".to_owned());
    r.push("that".to_owned());
    r.push("have".to_owned());
    r.push("i".to_owned());
    r.push("it".to_owned());
    r.push("for".to_owned());
    r.push("not".to_owned());
    r.push("on".to_owned());
    r.push("with".to_owned());
    r.push("as".to_owned());
    r.push("at".to_owned());
    assert(r.deep_view() =~~= spec_ignore_list());
    r
}

fn is_ignored_word(w: &String, ign: &Vec<String>) -> (r: bool)
    requires
        ign.deep_view() == spec_ignore_list(),
    ensures
        r == is_ignored(w@),
{
    let mut i: usize = 0;
    while i < ign.len()
        invariant
            i <= ign@.len(),
            ign.deep_view() == spec_ignore_list(),
            ign@.len() == spec_ignore_list().len(),
            forall|k: int| 0 <= k < i ==> spec_ignore_list()[k] != w@,
        decreases ign@.len() - i,
    {
        if ign[i] == *w {
            assert(spec_ignore_list()[i as int] == w@);
            return true;
        }
        assert(spec_ignore_list()[i as int] == ign@[i as int]@);
        i += 1;
    }
    assert(forall|k: int| 0 <= k < spec_ignore_list().len() ==> spec_ignore_list()[k] != w@);
    false
}

/// Segments the input into Unicode words, lowercases each, and drops the
/// ignore-list words: the word list that all queries score.
pub fn tokenize_filtered(input: &str) -> (r: Vec<String>)
    ensures
        r.deep_view() == filtered_words(input@),
        forall|k: int|
            0 <= k < r.deep_view().len() ==> (r.deep_view()[k].len() > 0 && !r.deep_view()[
                k
            ].contains('\r')),
{
    let words = unicode_words_vec(input);
    let ign = ignore_list();
    let ghost uws = unicode_words_of(input@);
    let mut out: Vec<String> = Vec::new();
    let mut i: usize = 0;
    assert(uws.take(0) =~~= Seq::<Seq<char>>::empty());
    assert(Seq::<Seq<char>>::empty().map_values(|w: Seq<char>| lower_of(w)) =~~= Seq::<
        Seq<char>,
    >::empty());
    assert(out.deep_view() =~~= Seq::<Seq<char>>::empty().filter(|w: Seq<char>| !is_ignored(w)))
        by {
        reveal(Seq::filter);
    }
    while i < words.len()
        invariant
            i <= words@.len(),
            words.deep_view() == uws,
            uws == unicode_words_of(input@),
            words@.len() == uws.len(),
            ign.deep_view() == spec_ignore_list(),
            forall|k: int|
                0 <= k < uws.len() ==> (uws[k].len() > 0 && !uws[k].contains('\r')
                    && !uws[k].contains('\n') && occurs_in(input@, uws[k])),
            out.deep_view() == uws.take(i as int).map_values(|w: Seq<char>| lower_of(w)).filter(
                |w: Seq<char>| !is_ignored(w),
            ),
            forall|k: int|
                0 <= k < out.deep_view().len() ==> (out.deep_view()[k].len() > 0
                    && !out.deep_view()[k].contains('\r')),
        decreases words@.len() - i,
    {
        let lw = lowercase(words[i].as_str());
        assert(words@[i as int]@ == uws[i as int]);
        assert(lw@ == lower_of(uws[i as int]));
        let keep = !is_ignored_word(&lw, &ign);
        let ghost before = out.deep_view();
        if keep {
            out.push(lw);
            assert(out.deep_view() =~~= before.push(lower_of(uws[i as int])));
        }
        proof {
            let f = |w: Seq<char>| lower_of(w);
            let p = |w: Seq<char>| !is_ignored(w);
            let pre = uws.take(i as int);
            assert(uws.take(i + 1) =~~= pre.push(uws[i as int]));
            assert(uws.take(i + 1).map_values(f) =~~= pre.map_values(f).push(
                lower_of(uws[i as int]),
            ));
            lemma_filter_push(pre.map_values(f), p, lower_of(uws[i as int]));
        }
        i += 1;
    }
    assert(uws.take(i as int) =~~= uws);
    out
}

/// The distinct words of `words`: the same membership, each word once.
pub fn dedup_words(words: &Vec<String>) -> (r: Vec<String>)
    ensures
        forall|w: Seq<char>| r.deep_view().contains(w) == words.deep_view().contains(w),
        forall|i: int, j: int|
            0 <= i < j < r.deep_view().len() ==> r.deep_view()[i] != r.deep_view()[j],
{
    let mut r: Vec<String> = Vec::new();
    let mut i: usize = 0;
    assert(words.deep_view().take(0) =~~= Seq::<Seq<char>>::empty());
    while i < words.len()
        invariant
            i <= words@.len(),
            words@.len() == words.deep_view().len(),
            forall|w: Seq<char>|
                r.deep_view().contains(w) == words.deep_view().take(i as int).contains(w),
            forall|a: int, b: int|
                0 <= a < b < r.deep_view().len() ==> r.deep_view()[a] != r.deep_view()[b],
        decreases words@.len() - i,
    {
        broadcast use vstd::seq_lib::lemma_seq_contains_after_push;

        let ghost dv = words.deep_view();
        assert(dv[i as int] == words@[i as int]@);
        let present = contains_string(&r, &words[i]);
        if !present {
            let ghost before = r.deep_view();
            r.push(words[i].clone());
            assert(r.deep_view() =~~= before.push(dv[i as int]));
        } else {
            assert(r.deep_view().contains(dv[i as int]));
        }
        proof {
            assert(dv.take(i + 1) =~~= dv.take(i as int).push(dv[i as int]));
        }
        i += 1;
    }
    assert(words.deep_view().take(i as int) =~~= words.deep_view());
    r
}

/// Whether `w` stands in `v`.
fn contains_string(v: &Vec<String>, w: &String) -> (r: bool)
    ensures
        r == v.deep_view().contains(w@),
{
    let mut i: usize = 0;
    while i < v.len()
        invariant
            i <= v@.len(),
            v@.len() == v.deep_view().len(),
            forall|k: int| 0 <= k < i ==> v.deep_view()[k] != w@,
        decreases v@.len() - i,
    {
        assert(v.deep_view()[i as int] == v@[i as int]@);
        if v[i] == *w {
            assert(v.deep_view().contains(w@));
            return true;
        }
        i += 1;
    }
    assert(!v.deep_view().contains(w@)) by {
        if v.deep_view().contains(w@) {
            let k = choose|k: int| 0 <= k < v.deep_view().len() && v.deep_view()[k] == w@;
        }
    }
    false
}

} // verus!
