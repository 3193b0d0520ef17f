//! The word index: for every document, the distinct lowercased Unicode words
//! of its verses, each mapped to the places it occurs in. The store is an
//! `ahash` map behind trusted wrappers; everything built on it is verified.
use vstd::prelude::*;

use crate::bible::{spec_parse, parse, Bible, BibleView, BiblicalError};
use crate::text::{lemma_filter_membership, occurs_in};
use crate::tokenize::{dedup_words, lower_of, lowercase, unicode_words_of, unicode_words_vec};

verus! {

#[verifier::external_type_specification]
#[verifier::external_body]
#[verifier::reject_recursive_types(K)]
#[verifier::reject_recursive_types(V)]
#[verifier::reject_recursive_types(S)]
pub struct ExAHashMap<K, V, S>(ahash::AHashMap<K, V, S>);

#[verifier::external_type_specification]
#[verifier::external_body]
pub struct ExARandomState(ahash::RandomState);

/// Where one word occurs: a testament (0 old, 1 new) and the position of the
/// owning book in it.
#[derive(Clone, Copy, Debug)]
pub struct WordMap {
    pub testament: usize,
    pub book: usize,
}

impl View for WordMap {
    type V = (int, int);

    open spec fn view(&self) -> (int, int) {
        (self.testament as int, self.book as int)
    }
}

impl DeepView for WordMap {
    type V = (int, int);

    open spec fn deep_view(&self) -> (int, int) {
        self@
    }
}

/// The index store: a hash map from normalized word to its placements.
pub type BibleMap = ahash::AHashMap<String, Vec<WordMap>, ahash::RandomState>;

/// What a `BibleMap` holds: each present word's placements, in insertion
/// order.
pub uninterp spec fn word_entries(m: BibleMap) -> Map<Seq<char>, Seq<(int, int)>>;

/// The contents of a map with nothing in it.
pub open spec fn empty_entries() -> Map<Seq<char>, Seq<(int, int)>> {
    Map::empty()
}

/// Relies on `ahash::AHashMap::new`: the new map is empty.
#[verifier::external_body]
pub(crate) fn new_bible_map() -> (m: BibleMap)
    ensures
        word_entries(m) == empty_entries(),
{
    ahash::AHashMap::new()
}

/// Relies on `ahash::AHashMap::insert` (the `HashMap` method under it): the
/// entry for `k` is set to `v` and every other entry keeps its value.
#[verifier::external_body]
pub(crate) fn bible_map_insert(m: &mut BibleMap, k: String, v: Vec<WordMap>)
    ensures
        word_entries(*final(m)) == word_entries(*old(m)).insert(k@, v.deep_view()),
{
    m.insert(k, v);
}

/// Relies on `ahash::AHashMap::get`: the value stored for `k`, if the key is
/// present; the wrapper hands back a copy.
#[verifier::external_body]
pub(crate) fn bible_map_get(m: &BibleMap, k: &String) -> (r: Option<Vec<WordMap>>)
    ensures
        (r is Some) == word_entries(*m).dom().contains(k@),
        r is Some ==> (r->Some_0).deep_view() == word_entries(*m)[k@],
{
    m.get(k).cloned()
}

/// Relies on `ahash::AHashMap::contains_key` (the `HashMap` method under
/// it): whether the key is present.
#[verifier::external_body]
pub(crate) fn bible_map_contains(m: &BibleMap, k: &String) -> (r: bool)
    ensures
        r == word_entries(*m).dom().contains(k@),
{
    m.contains_key(k)
}

/// One book together with its place, as the index builder walks them: old
/// testament first, then new, in order.
pub ghost struct PlacedBook {
    pub place: (int, int),
    pub content: Seq<char>,
}

/// The books of the corpus in indexing order, each with its place.
pub open spec fn book_list(b: BibleView) -> Seq<PlacedBook> {
    Seq::new(
        b.old.books.len(),
        |i: int| PlacedBook { place: (0, i), content: b.old.books[i].verses },
    ) + Seq::new(
        b.new.books.len(),
        |i: int| PlacedBook { place: (1, i), content: b.new.books[i].verses },
    )
}

/// The distinct normalized words of one book's verses.
pub open spec fn book_words(content: Seq<char>) -> Set<Seq<char>> {
    unicode_words_of(lower_of(content)).to_set()
}

/// The placements of `w`: one per book whose word set holds `w`, in indexing
/// order.
pub open spec fn placements_in(bs: Seq<PlacedBook>, w: Seq<char>) -> Seq<(int, int)> {
    bs.filter(|pb: PlacedBook| book_words(pb.content).contains(w)).map_values(
        |pb: PlacedBook| pb.place,
    )
}

/// Whether some book's word set holds `w`.
pub open spec fn word_present(bs: Seq<PlacedBook>, w: Seq<char>) -> bool {
    exists|i: int| 0 <= i < bs.len() && book_words(bs[i].content).contains(w)
}

/// The word index over a book list: every present word, mapped to its
/// placements.
pub open spec fn index_of_books(bs: Seq<PlacedBook>) -> Map<Seq<char>, Seq<(int, int)>> {
    Map::new(|w: Seq<char>| word_present(bs, w), |w: Seq<char>| placements_in(bs, w))
}

/// The word index of the whole corpus.
pub open spec fn bible_index(b: BibleView) -> Map<Seq<char>, Seq<(int, int)>> {
    index_of_books(book_list(b))
}

/// Every word of a book's word set occurs literally in the book's lowercased
/// verses.
pub open spec fn book_occurs(content: Seq<char>) -> bool {
    forall|w: Seq<char>| book_words(content).contains(w) ==> occurs_in(lower_of(content), w)
}

/// `book_occurs` for every book of the corpus.
pub open spec fn index_words_occur(b: BibleView) -> bool {
    forall|i: int| 0 <= i < book_list(b).len() ==> book_occurs(#[trigger] book_list(b)[i].content)
}

/// The entry for `w` after one more placement `p` is recorded.
pub open spec fn appended_entry(
    e: Map<Seq<char>, Seq<(int, int)>>,
    w: Seq<char>,
    p: (int, int),
) -> Seq<(int, int)> {
    (if e.dom().contains(w) {
        e[w]
    } else {
        Seq::<(int, int)>::empty()
    }).push(p)
}

/// The index after one book with word set `ws` and place `p` is recorded.
pub open spec fn add_book_spec(
    e: Map<Seq<char>, Seq<(int, int)>>,
    ws: Set<Seq<char>>,
    p: (int, int),
) -> Map<Seq<char>, Seq<(int, int)>> {
    Map::new(
        |w: Seq<char>| e.dom().contains(w) || ws.contains(w),
        |w: Seq<char>|
            if ws.contains(w) {
                appended_entry(e, w, p)
            } else {
                e[w]
            },
    )
}

proof fn lemma_placements_empty(bs: Seq<PlacedBook>, w: Seq<char>)
    requires
        !word_present(bs, w),
    ensures
        placements_in(bs, w) == Seq::<(int, int)>::empty(),
{
    let p = |pb: PlacedBook| book_words(pb.content).contains(w);
    let f = bs.filter(p);
    if f.len() > 0 {
        lemma_filter_membership(bs, p, 0);
        let k = choose|k: int| 0 <= k < bs.len() && bs[k] == f[0];
        bs.lemma_filter_pred(p, 0);
        assert(word_present(bs, w));
    }
    assert(placements_in(bs, w) =~= Seq::<(int, int)>::empty());
}

/// Recording one more book extends the index exactly as `add_book_spec`
/// says.
proof fn lemma_index_push(bs: Seq<PlacedBook>, pb: PlacedBook)
    ensures
        index_of_books(bs.push(pb)) == add_book_spec(
            index_of_books(bs),
            book_words(pb.content),
            pb.place,
        ),
{
    let s = bs.push(pb);
    let e = index_of_books(bs);
    let ws = book_words(pb.content);
    let lhs = index_of_books(s);
    let rhs = add_book_spec(e, ws, pb.place);
    assert forall|w: Seq<char>| word_present(s, w) == (word_present(bs, w) || ws.contains(w)) by {
        if word_present(s, w) {
            let i = choose|i: int| 0 <= i < s.len() && book_words(s[i].content).contains(w);
            if i < bs.len() {
                assert(bs[i] == s[i]);
                assert(word_present(bs, w));
            } else {
                assert(s[i] == pb);
            }
        }
        if word_present(bs, w) {
            let i = choose|i: int| 0 <= i < bs.len() && book_words(bs[i].content).contains(w);
            assert(s[i] == bs[i]);
            assert(word_present(s, w));
        }
        if ws.contains(w) {
            assert(s[bs.len() as int] == pb);
            assert(word_present(s, w));
        }
    }
    assert forall|w: Seq<char>| #[trigger]
        lhs.dom().contains(w) implies lhs[w] == rhs[w] by {
        let pred = |x: PlacedBook| book_words(x.content).contains(w);
        crate::text::lemma_filter_push(bs, pred, pb);
        assert(placements_in(s, w) == s.filter(pred).map_values(|x: PlacedBook| x.place));
        if pred(pb) {
            assert(s.filter(pred) == bs.filter(pred).push(pb));
            assert(s.filter(pred).map_values(|x: PlacedBook| x.place) =~= bs.filter(
                pred,
            ).map_values(|x: PlacedBook| x.place).push(pb.place));
            if !word_present(bs, w) {
                lemma_placements_empty(bs, w);
            }
        } else {
            assert(s.filter(pred) == bs.filter(pred));
        }
    }
    assert(lhs =~= rhs);
}

/// Records one book: every distinct normalized word of its verses gets the
/// book's place appended to its entry.
fn add_book(m: &mut BibleMap, place: WordMap, content: &String)
    ensures
        word_entries(*final(m)) == add_book_spec(
            word_entries(*old(m)),
            book_words(content@),
            place@,
        ),
        book_occurs(content@),
{
    broadcast use vstd::seq_lib::lemma_seq_contains_after_push;

    let lc = lowercase(content.as_str());
    let words = unicode_words_vec(lc.as_str());
    let uniq = dedup_words(&words);
    let ghost ws = book_words(content@);
    let ghost e0 = word_entries(*m);
    let ghost udv = uniq.deep_view();
    proof {
        assert(words.deep_view() == unicode_words_of(lower_of(content@)));
        assert forall|w: Seq<char>| udv.contains(w) == ws.contains(w) by {
            assert(udv.contains(w) == words.deep_view().contains(w));
            assert(ws.contains(w) == unicode_words_of(lower_of(content@)).contains(w));
        }
        assert forall|w: Seq<char>| ws.contains(w) implies occurs_in(lower_of(content@), w) by {
            assert(words.deep_view().contains(w));
            let k = choose|k: int|
                0 <= k < words.deep_view().len() && words.deep_view()[k] == w;
            assert(occurs_in(lc@, words.deep_view()[k]));
        }
    }
    let mut j: usize = 0;
    assert(udv.take(0) =~~= Seq::<Seq<char>>::empty());
    while j < uniq.len()
        invariant
            j <= uniq@.len(),
            uniq.deep_view() == udv,
            udv.len() == uniq@.len(),
            e0 == word_entries(*old(m)),
            forall|w: Seq<char>| udv.contains(w) == ws.contains(w),
            forall|a: int, b: int| 0 <= a < b < udv.len() ==> udv[a] != udv[b],
            forall|w: Seq<char>| #[trigger]
                udv.take(j as int).contains(w) ==> (word_entries(*m).dom().contains(w)
                    && word_entries(*m)[w] == appended_entry(e0, w, place@)),
            forall|w: Seq<char>|
                !(#[trigger] udv.take(j as int).contains(w)) ==> (word_entries(
                    *m,
                ).dom().contains(w) == e0.dom().contains(w) && (e0.dom().contains(w)
                    ==> word_entries(*m)[w] == e0[w])),
        decreases uniq@.len() - j,
    {
        assert(udv[j as int] == uniq@[j as int]@);
        assert(!udv.take(j as int).contains(udv[j as int])) by {
            if udv.take(j as int).contains(udv[j as int]) {
                let a = choose|a: int|
                    0 <= a < j && udv.take(j as int)[a] == udv[j as int];
                assert(udv[a] == udv[j as int]);
            }
        }
        let ghost key = udv[j as int];
        let cur = bible_map_get(m, &uniq[j]);
        let mut v: Vec<WordMap> = match cur {
            Some(v) => v,
            None => Vec::new(),
        };
        let ghost vdv0 = v.deep_view();
        proof {
            if e0.dom().contains(key) {
                assert(vdv0 == e0[key]);
            } else {
                assert(vdv0 =~~= Seq::<(int, int)>::empty());
            }
        }
        v.push(place);
        assert(v.deep_view() =~~= vdv0.push(place@));
        let ghost epre = word_entries(*m);
        bible_map_insert(m, uniq[j].clone(), v);
        proof {
            assert(word_entries(*m) == epre.insert(key, vdv0.push(place@)));
            assert(word_entries(*m)[key] == appended_entry(e0, key, place@));
            assert(udv.take(j + 1) =~~= udv.take(j as int).push(key));
            assert forall|w: Seq<char>| #[trigger]
                udv.take(j + 1).contains(w) implies (word_entries(*m).dom().contains(w)
                && word_entries(*m)[w] == appended_entry(e0, w, place@)) by {
                if w != key {
                    assert(udv.take(j as int).contains(w));
                    assert(word_entries(*m).dom().contains(w) == epre.dom().contains(w));
                    assert(word_entries(*m)[w] == epre[w]);
                }
            }
            assert forall|w: Seq<char>|
                !(#[trigger] udv.take(j + 1).contains(w)) implies (word_entries(
                *m,
            ).dom().contains(w) == e0.dom().contains(w) && (e0.dom().contains(w)
                ==> word_entries(*m)[w] == e0[w])) by {
                assert(!udv.take(j as int).contains(w));
                assert(w != key) by {
                    if w == key {
                        assert(udv.take(j + 1)[j as int] == key);
                        assert(udv.take(j + 1).contains(w));
                    }
                }
            }
        }
        j += 1;
    }
    proof {
        assert(udv.take(j as int) =~~= udv);
        let lhs = word_entries(*m);
        let rhs = add_book_spec(e0, ws, place@);
        assert forall|w: Seq<char>| lhs.dom().contains(w) == rhs.dom().contains(w) by {
            assert(udv.contains(w) == ws.contains(w));
        }
        assert forall|w: Seq<char>| #[trigger]
            lhs.dom().contains(w) implies lhs[w] == rhs[w] by {
            assert(udv.contains(w) == ws.contains(w));
        }
        assert(lhs =~= rhs);
    }
}

/// Builds the word index of a parsed corpus: for every book of both
/// testaments, in order, the distinct lowercased Unicode words of its verses
/// are recorded with the book's place.
pub fn build_bible_map(bible: &Bible) -> (m: BibleMap)
    ensures
        word_entries(m) == bible_index(bible@),
        index_words_occur(bible@),
{
    let mut m = new_bible_map();
    let ghost bl = book_list(bible@);
    assert(word_entries(m) =~= index_of_books(bl.take(0))) by {
        assert forall|w: Seq<char>| !word_present(bl.take(0), w) by {
            if word_present(bl.take(0), w) {
                let i = choose|i: int|
                    0 <= i < bl.take(0).len() && book_words(bl.take(0)[i].content).contains(w);
            }
        }
    }
    let mut i: usize = 0;
    let n_old = bible.old.books.len();
    while i < n_old
        invariant
            bl == book_list(bible@),
            n_old == bible.old.books@.len(),
            i <= n_old,
            bl.len() == bible.old.books@.len() + bible.new.books@.len(),
            word_entries(m) == index_of_books(bl.take(i as int)),
            forall|k: int| 0 <= k < i ==> book_occurs(#[trigger] bl[k].content),
        decreases n_old - i,
    {
        assert(bl[i as int].content == bible.old.books@[i as int]@.verses);
        assert(bl[i as int].place == (0int, i as int));
        add_book(&mut m, WordMap { testament: 0, book: i }, &bible.old.books[i].verses);
        proof {
            lemma_index_push(bl.take(i as int), bl[i as int]);
            assert(bl.take(i + 1) =~= bl.take(i as int).push(bl[i as int]));
        }
        i += 1;
    }
    let n_new = bible.new.books.len();
    let mut j: usize = 0;
    while j < n_new
        invariant
            bl == book_list(bible@),
            n_old == bible.old.books@.len(),
            n_new == bible.new.books@.len(),
            j <= n_new,
            bl.len() == n_old + n_new,
            word_entries(m) == index_of_books(bl.take(n_old + j)),
            forall|k: int| 0 <= k < n_old + j ==> book_occurs(#[trigger] bl[k].content),
        decreases n_new - j,
    {
        assert(bl[n_old + j].content == bible.new.books@[j as int]@.verses);
        assert(bl[n_old + j].place == (1int, j as int));
        add_book(&mut m, WordMap { testament: 1, book: j }, &bible.new.books[j].verses);
        proof {
            lemma_index_push(bl.take(n_old + j), bl[n_old + j]);
            assert(bl.take(n_old + j + 1) =~= bl.take(n_old + j).push(bl[n_old + j]));
        }
        j += 1;
    }
    assert(bl.take(n_old + n_new) =~= bl);
    m
}

/// The corpus and its word index, built once and then read-only: what every
/// query runs against.
pub struct BibleService {
    pub(crate) bible: Bible,
    pub(crate) map: BibleMap,
}

impl View for BibleService {
    type V = BibleView;

    open(crate) spec fn view(&self) -> BibleView {
        self.bible@
    }
}

impl BibleService {
    #[verifier::type_invariant]
    pub(crate) open spec fn inv(self) -> bool {
        word_entries(self.map) == bible_index(self.bible@) && index_words_occur(self.bible@)
    }

    /// Builds the index over an already parsed corpus.
    pub fn new(bible: Bible) -> (s: Self)
        ensures
            s@ == bible@,
    {
        let map = build_bible_map(&bible);
        BibleService { bible, map }
    }

    /// Parses the corpus text and builds the index over it.
    pub fn from_text(text: &str) -> (r: Result<Self, BiblicalError>)
        ensures
            r is Ok ==> (spec_parse(text@) is Ok && (r->Ok_0)@ == spec_parse(text@)->Ok_0),
            r is Err ==> spec_parse(text@) == Err::<BibleView, BiblicalError>(r->Err_0),
    {
        match parse(text) {
            Err(e) => Err(e),
            Ok(b) => Ok(BibleService::new(b)),
        }
    }

    /// The parsed corpus.
    pub fn bible(&self) -> (b: &Bible)
        ensures
            b@ == self@,
    {
        &self.bible
    }
}

} // verus!
