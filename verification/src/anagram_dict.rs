//! The anagram dictionary: every word keyed by its letter multiset, groups
//! of homographs sharing a key stored under one sorted index.  Solving a
//! key walks the enumerator and expands each partition into word tuples.

use vstd::prelude::*;

use crate::anagram_iterator::{has_key, keys_len_sum, keys_product, lemma_keys_product_push,
    AnagramIterator};
use crate::anagram_key::{letters_of, lemma_prime_product_ge_pow2, prime_product, AnagramKey};
use crate::anagram_settings::AnagramSettings;
use crate::binary_map::BinaryMap;
use crate::character::{lower_seq, spec_lower_char, to_lower_char};
use crate::homograph::Homograph;
use crate::solution::{lemma_texts_letters_push, sol_texts, texts_letters, ExpressionSolution};
use crate::term_dict::{hg_view, hgs_view, TermDict};
use crate::text::{lemma_lex_le_total, lemma_lex_le_trans, lex_le, str_eq};

verus! {

/// How one word tuple under construction relates to the partition prefix
/// it came from: `c` words so far, letter product `p`, letter count `l`,
/// every word at least `minw` letters.
pub open spec fn tuple_prop(hs: Seq<Homograph>, c: nat, p: nat, l: nat, minw: nat) -> bool {
    &&& hs.len() == c
    &&& prime_product(texts_letters(sol_texts(hs))) == p
    &&& texts_letters(sol_texts(hs)).len() == l
    &&& forall|i: int| 0 <= i < hs.len() ==> letters_of((#[trigger] hs[i]).text@).len() >= minw
}

/// The text a homograph view carries.
pub open spec fn hg_view_text(
    v: (
        Seq<char>,
        bool,
        Seq<
            (crate::homograph::PartOfSpeech, crate::homograph::TagSet, Option<Seq<char>>),
        >,
    ),
) -> Seq<char> {
    v.0
}

/// A filed text stays filed when the index only grows.
proof fn lemma_text_filed_carries(m1: BinaryMap, m2: BinaryMap, text: Seq<char>)
    requires
        text_filed(m1, text),
        forall|p: nat, t: Seq<char>|
            #[trigger] map_has_text(m1, p, t) ==> map_has_text(m2, p, t),
        forall|p: nat, l: nat| #[trigger] map_has_key(m1, p, l) ==> map_has_key(m2, p, l),
    ensures
        text_filed(m2, text),
{
    let p = prime_product(letters_of(text));
    let l = letters_of(text).len();
    if p <= u128::MAX && l >= 1 {
        if map_has_text(m1, p, text) {
            assert(map_has_text(m2, p, text));
        } else {
            let l2 = choose|l2: nat| l2 != l && #[trigger] map_has_key(m1, p, l2);
            assert(map_has_key(m2, p, l2));
        }
    }
}

/// Whether the index holds a key with this product and count.
pub open spec fn map_has_key(m: BinaryMap, p: nat, l: nat) -> bool {
    exists|i: int|
        0 <= i < m.keys@.len() && (#[trigger] m.keys@[i]).inner == p && m.keys@[i].len == l
}

/// Whether a word's text is accounted for by the index: filed under its
/// product, or crowded out by a key with the same product but another
/// count — something no two real words can produce.
pub open spec fn text_filed(m: BinaryMap, text: Seq<char>) -> bool {
    let p = prime_product(letters_of(text));
    let l = letters_of(text).len();
    p <= u128::MAX && l >= 1 ==> (map_has_text(m, p, text) || exists|l2: nat|
        l2 != l && #[trigger] map_has_key(m, p, l2))
}

/// Whether the index holds a word carrying this view.
pub open spec fn map_member(
    m: BinaryMap,
    hv: (
        Seq<char>,
        bool,
        Seq<(crate::homograph::PartOfSpeech, crate::homograph::TagSet, Option<Seq<char>>)>,
    ),
) -> bool {
    exists|i: int, g: int|
        0 <= i < m.values@.len() && 0 <= g < m.values@[i]@.len() && hg_view(
            #[trigger] m.values@[i]@[g],
        ) == hv
}

/// Whether the index files a word with this text under this product.
pub open spec fn map_has_text(m: BinaryMap, p: nat, text: Seq<char>) -> bool {
    exists|i: int, g: int|
        0 <= i < m.keys@.len() && 0 <= g < m.values@[i]@.len() && (#[trigger] m.keys@[i]).inner
            == p && (#[trigger] m.values@[i]@[g]).text@ == text
}

/// Two equal elements at different places give that value count two.
proof fn lemma_count_two<A>(s: Seq<A>, x: int, y: int)
    requires
        0 <= x < y < s.len(),
        s[x] == s[y],
    ensures
        s.to_multiset().count(s[x]) >= 2,
{
    broadcast use vstd::seq_lib::group_to_multiset_ensures;

    let s2 = s.remove(x);
    assert(s2.to_multiset() == s.to_multiset().remove(s[x]));
    assert(s2[y - 1] == s[y]);
    assert(s2.contains(s[x]));
    assert(s2.to_multiset().count(s[x]) > 0);
}

/// A value counted twice sits at two different places.
proof fn lemma_two_indices<A>(s: Seq<A>, v: A)
    requires
        s.to_multiset().count(v) >= 2,
    ensures
        exists|x: int, y: int| 0 <= x < y < s.len() && (#[trigger] s[x]) == v && (#[trigger] s[y])
            == v,
{
    broadcast use vstd::seq_lib::group_to_multiset_ensures;

    assert(s.to_multiset().count(v) > 0);
    assert(s.contains(v));
    let x = choose|x: int| 0 <= x < s.len() && s[x] == v;
    let s2 = s.remove(x);
    assert(s2.to_multiset() == s.to_multiset().remove(v));
    assert(s2.to_multiset().count(v) > 0);
    assert(s2.contains(v));
    let y2 = choose|y2: int| 0 <= y2 < s2.len() && s2[y2] == v;
    if y2 < x {
        assert(s[y2] == s2[y2]);
        assert(0 <= y2 < x < s.len() && s[y2] == v && s[x] == v);
    } else {
        assert(s[y2 + 1] == s2[y2]);
        assert(0 <= x < y2 + 1 < s.len() && s[x] == v && s[y2 + 1] == v);
    }
}

/// Tuples holding the same words: when one has pairwise different texts,
/// so does the other.
proof fn lemma_view_multiset_distinct_texts(a: Seq<Homograph>, b: Seq<Homograph>)
    requires
        hgs_view(a).to_multiset() == hgs_view(b).to_multiset(),
        forall|x: int, y: int| 0 <= x < y < a.len() ==> a[x].text@ != a[y].text@,
    ensures
        forall|x: int, y: int| 0 <= x < y < b.len() ==> b[x].text@ != b[y].text@,
{
    broadcast use vstd::seq_lib::group_to_multiset_ensures;

    assert(hgs_view(a).len() == a.len());
    assert(hgs_view(b).len() == b.len());
    assert forall|x: int, y: int| 0 <= x < y < b.len() implies b[x].text@ != b[y].text@ by {
        if b[x].text@ == b[y].text@ {
            let va = hg_view(b[x]);
            let vb = hg_view(b[y]);
            assert(hgs_view(b)[x] == va);
            assert(hgs_view(b)[y] == vb);
            if va == vb {
                lemma_count_two(hgs_view(b), x, y);
                lemma_two_indices(hgs_view(a), va);
                let (xa, ya) = choose|xa: int, ya: int|
                    0 <= xa < ya < hgs_view(a).len() && (#[trigger] hgs_view(a)[xa]) == va && (
                    #[trigger] hgs_view(a)[ya]) == va;
                assert(hgs_view(a)[xa] == hg_view(a[xa]));
                assert(hgs_view(a)[ya] == hg_view(a[ya]));
                assert(a[xa].text@ == va.0);
                assert(a[ya].text@ == va.0);
                assert(false);
            } else {
                assert(hgs_view(b).contains(va));
                assert(hgs_view(b).to_multiset().count(va) > 0);
                assert(hgs_view(a).contains(va));
                assert(hgs_view(b).contains(vb));
                assert(hgs_view(b).to_multiset().count(vb) > 0);
                assert(hgs_view(a).contains(vb));
                let xa = choose|xa: int| 0 <= xa < hgs_view(a).len() && hgs_view(a)[xa] == va;
                let ya = choose|ya: int| 0 <= ya < hgs_view(a).len() && hgs_view(a)[ya] == vb;
                assert(hgs_view(a)[xa] == hg_view(a[xa]));
                assert(hgs_view(a)[ya] == hg_view(a[ya]));
                assert(xa != ya);
                assert(a[xa].text@ == va.0);
                assert(a[ya].text@ == vb.0);
                assert(va.0 == b[x].text@);
                assert(vb.0 == b[y].text@);
                if xa < ya {
                    assert(a[xa].text@ != a[ya].text@);
                } else {
                    assert(a[ya].text@ != a[xa].text@);
                }
                assert(false);
            }
        }
    }
}

/// Whether no two words of one group share a text.
pub open spec fn map_texts_distinct(m: BinaryMap) -> bool {
    forall|i: int, g1: int, g2: int|
        0 <= i < m.values@.len() && 0 <= g1 < g2 < m.values@[i]@.len() ==> (
        #[trigger] m.values@[i]@[g1]).text@ != (#[trigger] m.values@[i]@[g2]).text@
}

/// The sorted multiset index.
#[derive(Debug)]
pub struct AnagramDict {
    pub words: BinaryMap,
}

impl AnagramDict {
    pub open spec fn wf(self) -> bool {
        self.words.wf()
    }

    /// Builds the index from a list of homographs: sort by text, drop
    /// exact duplicates, key each word, group by key.  Words whose letters
    /// cannot be keyed are dropped; every other word's text ends up filed
    /// under its letter product.
    pub fn from_homographs(hs: Vec<Homograph>) -> (r: AnagramDict)
        ensures
            r.wf(),
            forall|j: int| 0 <= j < hs@.len() ==> text_filed(r.words, (#[trigger] hs@[j]).text@),
            forall|hv: (
                Seq<char>,
                bool,
                Seq<
                    (
                        crate::homograph::PartOfSpeech,
                        crate::homograph::TagSet,
                        Option<Seq<char>>,
                    ),
                >,
            )|
                #[trigger] map_member(r.words, hv) ==> hgs_view(hs@).contains(hv),
            (forall|a: int, b: int|
                0 <= a < b < hs@.len() ==> (#[trigger] hs@[a]).text@ != (
                #[trigger] hs@[b]).text@) ==> map_texts_distinct(r.words),
    {
        broadcast use vstd::seq_lib::group_to_multiset_ensures;

        let ghost orig_hs = hs@;
        let ghost input_views = hgs_view(hs@);
        let sorted = sort_homographs_by_text(hs);
        proof {
            if forall|a: int, b: int|
                0 <= a < b < orig_hs.len() ==> (#[trigger] orig_hs[a]).text@ != (
                #[trigger] orig_hs[b]).text@ {
                lemma_view_multiset_distinct_texts(orig_hs, sorted@);
            }
        }
        let n = sorted.len();
        let mut map = BinaryMap { keys: Vec::new(), values: Vec::new() };
        let mut i: usize = 0;
        #[verifier::loop_isolation(false)]
        while i < n
            invariant
                map.wf(),
                i <= n,
                n == sorted@.len(),
                forall|j: int| 0 <= j < i ==> text_filed(map, (#[trigger] sorted@[j]).text@),
                forall|hv: (
                    Seq<char>,
                    bool,
                    Seq<
                        (
                            crate::homograph::PartOfSpeech,
                            crate::homograph::TagSet,
                            Option<Seq<char>>,
                        ),
                    >,
                )|
                    #[trigger] map_member(map, hv) ==> hgs_view(
                        sorted@.take(i as int),
                    ).contains(hv),
                (forall|a: int, b: int|
                    0 <= a < b < sorted@.len() ==> (#[trigger] sorted@[a]).text@ != (
                    #[trigger] sorted@[b]).text@) ==> map_texts_distinct(map),
            decreases n - i,
        {
            let ghost map0 = map;
            let h = &sorted[i];
            let mut duplicate = false;
            if i > 0 {
                if str_eq(sorted[i - 1].text.as_str(), h.text.as_str()) {
                    duplicate = true;
                }
            }
            if !duplicate {
                match AnagramKey::from_str(h.text.as_str()) {
                    Ok(k) => {
                        if k.len >= 1 {
                            proof {
                                lemma_prime_product_ge_pow2(letters_of(h.text@));
                                vstd::arithmetic::power2::lemma_pow2_strictly_increases(
                                    0,
                                    k.len as nat,
                                );
                                vstd::arithmetic::power2::lemma2_to64();
                                assert(k.inner >= 2);
                            }
                            let ghost before = map;
                            let hc = h.clone();
                            proof {
                                assert(hc.text@ == h.text@);
                                assert(hg_view(hc) == hg_view(sorted@[i as int])) by {
                                    assert(hc.meanings@ == sorted@[i as int].meanings@);
                                }
                                if forall|a: int, b: int|
                                    0 <= a < b < sorted@.len() ==> (#[trigger] sorted@[a]).text@
                                        != (#[trigger] sorted@[b]).text@ {
                                    assert forall|i2: int, g: int|
                                        0 <= i2 < before.values@.len() && 0 <= g
                                            < before.values@[i2]@.len() implies (
                                    #[trigger] before.values@[i2]@[g]).text@ != hc.text@ by {
                                        let hv0 = hg_view(before.values@[i2]@[g]);
                                        assert(map_member(before, hv0));
                                        assert(hgs_view(sorted@.take(i as int)).contains(hv0));
                                        let j = choose|j: int|
                                            0 <= j < hgs_view(sorted@.take(i as int)).len()
                                                && #[trigger] hgs_view(
                                                sorted@.take(i as int),
                                            )[j] == hv0;
                                        assert(hgs_view(sorted@.take(i as int))[j] == hg_view(
                                            sorted@.take(i as int)[j],
                                        ));
                                        assert(sorted@[j].text@ == hv0.0);
                                        assert(hv0.0 == before.values@[i2]@[g].text@);
                                        if before.values@[i2]@[g].text@ == hc.text@ {
                                            assert(sorted@[j].text@ == sorted@[i as int].text@);
                                            assert(false);
                                        }
                                    }
                                }
                            }
                            insert_word(&mut map, k, hc);
                            proof {
                                assert forall|j: int| 0 <= j < i + 1 implies text_filed(
                                    map,
                                    (#[trigger] sorted@[j]).text@,
                                ) by {
                                    if j < i {
                                        lemma_text_filed_carries(before, map, sorted@[j].text@);
                                    } else {
                                        assert(text_filed(map, h.text@));
                                    }
                                }
                                assert forall|hv: (
                                    Seq<char>,
                                    bool,
                                    Seq<
                                        (
                                            crate::homograph::PartOfSpeech,
                                            crate::homograph::TagSet,
                                            Option<Seq<char>>,
                                        ),
                                    >,
                                )|
                                    #[trigger] map_member(map, hv) implies map_member(
                                    map0,
                                    hv,
                                ) || hv == hg_view(sorted@[i as int]) by {
                                    if !map_member(before, hv) {
                                        assert(hv == hg_view(hc));
                                    }
                                }
                            }
                        } else {
                            proof {
                                assert(letters_of(h.text@).len() == 0);
                                assert(text_filed(map, h.text@));
                            }
                        }
                    },
                    Err(_) => {
                        proof {
                            assert(prime_product(letters_of(h.text@)) > u128::MAX);
                            assert(text_filed(map, h.text@));
                        }
                    },
                }
            } else {
                proof {
                    assert(sorted@[i - 1].text@ == sorted@[i as int].text@);
                    assert(text_filed(map, sorted@[i as int].text@));
                }
            }
            proof {
                assert forall|hv: (
                    Seq<char>,
                    bool,
                    Seq<
                        (
                            crate::homograph::PartOfSpeech,
                            crate::homograph::TagSet,
                            Option<Seq<char>>,
                        ),
                    >,
                )|
                    #[trigger] map_member(map, hv) implies hgs_view(
                    sorted@.take(i as int + 1),
                ).contains(hv) by {
                    if map_member(map0, hv) {
                        assert(hgs_view(sorted@.take(i as int)).contains(hv));
                        let j = choose|j: int|
                            0 <= j < hgs_view(sorted@.take(i as int)).len() && #[trigger] hgs_view(
                                sorted@.take(i as int),
                            )[j] == hv;
                        assert(hgs_view(sorted@.take(i as int))[j] == hg_view(
                            sorted@.take(i as int)[j],
                        ));
                        assert(hgs_view(sorted@.take(i as int + 1))[j] == hg_view(
                            sorted@.take(i as int + 1)[j],
                        ));
                        assert(hgs_view(sorted@.take(i as int + 1)).contains(hv));
                    } else {
                        assert(hv == hg_view(sorted@[i as int]));
                        assert(hgs_view(sorted@.take(i as int + 1))[i as int] == hg_view(
                            sorted@.take(i as int + 1)[i as int],
                        ));
                        assert(hgs_view(sorted@.take(i as int + 1)).contains(hv));
                    }
                }
            }
            i = i + 1;
        }
        let r = AnagramDict { words: map };
        proof {
            assert(sorted@.take(n as int) =~= sorted@);
            assert(hgs_view(sorted@).to_multiset() == input_views.to_multiset());
            assert forall|j: int| 0 <= j < input_views.len() implies text_filed(
                r.words,
                hg_view_text(input_views[j]),
            ) by {
                assert(input_views.contains(input_views[j]));
                assert(input_views.to_multiset().count(input_views[j]) > 0);
                assert(hgs_view(sorted@).to_multiset().count(input_views[j]) > 0);
                assert(hgs_view(sorted@).contains(input_views[j]));
                let j2 = choose|j2: int|
                    0 <= j2 < hgs_view(sorted@).len() && hgs_view(sorted@)[j2]
                        == input_views[j];
                assert(hgs_view(sorted@)[j2] == hg_view(sorted@[j2]));
                assert(sorted@[j2].text@ == hg_view_text(input_views[j]));
                assert(text_filed(r.words, sorted@[j2].text@));
            }
            assert forall|j: int| 0 <= j < hs@.len() implies text_filed(
                r.words,
                (#[trigger] hs@[j]).text@,
            ) by {
                assert(input_views[j] == hg_view(hs@[j]));
                assert(hg_view_text(input_views[j]) == hs@[j].text@);
            }
            assert forall|hv: (
                Seq<char>,
                bool,
                Seq<
                    (
                        crate::homograph::PartOfSpeech,
                        crate::homograph::TagSet,
                        Option<Seq<char>>,
                    ),
                >,
            )|
                #[trigger] map_member(r.words, hv) implies hgs_view(hs@).contains(hv) by {
                assert(map_member(map, hv));
                assert(hgs_view(sorted@.take(i as int)).contains(hv));
                assert(sorted@.take(i as int) =~= sorted@);
                assert(hgs_view(sorted@).contains(hv));
                assert(hgs_view(sorted@).to_multiset().count(hv) > 0);
                assert(input_views.to_multiset().count(hv) > 0);
                assert(input_views.contains(hv));
            }
        }
        r
    }

    /// Builds the index from a dictionary's homographs: every keyable
    /// dictionary text is filed, and nothing but dictionary words is.
    pub fn from_term_dict(td: &TermDict) -> (r: AnagramDict)
        ensures
            r.wf(),
            forall|j: int|
                0 <= j < td.homographs@.len() ==> text_filed(
                    r.words,
                    (#[trigger] td.homographs@[j]).text@,
                ),
            forall|hv: (
                Seq<char>,
                bool,
                Seq<
                    (
                        crate::homograph::PartOfSpeech,
                        crate::homograph::TagSet,
                        Option<Seq<char>>,
                    ),
                >,
            )|
                #[trigger] map_member(r.words, hv) ==> hgs_view(td.homographs@).contains(hv),
            (forall|a: int, b: int|
                0 <= a < b < td.homographs@.len() ==> (#[trigger] td.homographs@[a]).text@ != (
                #[trigger] td.homographs@[b]).text@) ==> map_texts_distinct(r.words),
    {
        let copies = crate::term_dict::clone_homographs(&td.homographs);
        let ghost cv = copies@;
        let r = AnagramDict::from_homographs(copies);
        proof {
            assert(hgs_view(cv).len() == hgs_view(td.homographs@).len());
            if forall|a: int, b: int|
                0 <= a < b < td.homographs@.len() ==> (#[trigger] td.homographs@[a]).text@ != (
                #[trigger] td.homographs@[b]).text@ {
                assert forall|a: int, b: int|
                    0 <= a < b < cv.len() implies (#[trigger] cv[a]).text@ != (
                #[trigger] cv[b]).text@ by {
                    assert(hgs_view(cv)[a] == hg_view(cv[a]));
                    assert(hgs_view(cv)[b] == hg_view(cv[b]));
                    assert(hgs_view(td.homographs@)[a] == hg_view(td.homographs@[a]));
                    assert(hgs_view(td.homographs@)[b] == hg_view(td.homographs@[b]));
                    assert(cv[a].text@ == td.homographs@[a].text@);
                    assert(cv[b].text@ == td.homographs@[b].text@);
                }
            }
            assert forall|j: int| 0 <= j < td.homographs@.len() implies text_filed(
                r.words,
                (#[trigger] td.homographs@[j]).text@,
            ) by {
                assert(hgs_view(cv)[j] == hg_view(cv[j]));
                assert(hgs_view(td.homographs@)[j] == hg_view(td.homographs@[j]));
                assert(cv[j].text@ == td.homographs@[j].text@);
                assert(text_filed(r.words, cv[j].text@));
            }
            assert forall|hv: (
                Seq<char>,
                bool,
                Seq<
                    (
                        crate::homograph::PartOfSpeech,
                        crate::homograph::TagSet,
                        Option<Seq<char>>,
                    ),
                >,
            )|
                #[trigger] map_member(r.words, hv) implies hgs_view(td.homographs@).contains(
                hv,
            ) by {
                assert(hgs_view(cv).contains(hv));
                let w = choose|w: int| 0 <= w < hgs_view(cv).len() && hgs_view(cv)[w] == hv;
                assert(hgs_view(td.homographs@)[w] == hg_view(td.homographs@[w]));
                assert(hgs_view(cv)[w] == hg_view(cv[w]));
            }
        }
        r
    }

    /// Every tuple of dictionary words whose letters together are exactly
    /// the key: for each emitted tuple the letter product and count equal
    /// the key's, every word is at least the configured length, and the
    /// word count honours the cap.
    pub fn solve(&self, key: AnagramKey, settings: AnagramSettings) -> (r: Vec<ExpressionSolution>)
        requires
            self.wf(),
            key.inner >= 1,
        ensures
            forall|s: int|
                0 <= s < r@.len() ==> {
                    let hs = (#[trigger] r@[s]).homographs@;
                    &&& hs.len() >= 1
                    &&& prime_product(texts_letters(sol_texts(hs))) == key.inner
                    &&& texts_letters(sol_texts(hs)).len() == key.len
                    &&& forall|i: int|
                        0 <= i < hs.len() ==> letters_of((#[trigger] hs[i]).text@).len()
                            >= settings.min_word_length
                    &&& match settings.max_words {
                        Some(m) => hs.len() <= (if m >= 1 {
                            m
                        } else {
                            1
                        }),
                        None => true,
                    }
                },
    {
        let mut results: Vec<ExpressionSolution> = Vec::new();
        let mut it = AnagramIterator::create(self, key, settings);
        loop
            invariant
                self.wf(),
                key.inner >= 1,
                it.wf(),
                it.dict == self,
                it.settings == settings,
                it.target@ == key,
                forall|s: int|
                    0 <= s < results@.len() ==> {
                        let hs = (#[trigger] results@[s]).homographs@;
                        &&& hs.len() >= 1
                        &&& prime_product(texts_letters(sol_texts(hs))) == key.inner
                        &&& texts_letters(sol_texts(hs)).len() == key.len
                        &&& forall|i: int|
                            0 <= i < hs.len() ==> letters_of((#[trigger] hs[i]).text@).len()
                                >= settings.min_word_length
                        &&& match settings.max_words {
                            Some(m) => hs.len() <= (if m >= 1 {
                                m
                            } else {
                                1
                            }),
                            None => true,
                        }
                    },
            ensures
                forall|s: int|
                    0 <= s < results@.len() ==> {
                        let hs = (#[trigger] results@[s]).homographs@;
                        &&& hs.len() >= 1
                        &&& prime_product(texts_letters(sol_texts(hs))) == key.inner
                        &&& texts_letters(sol_texts(hs)).len() == key.len
                        &&& forall|i: int|
                            0 <= i < hs.len() ==> letters_of((#[trigger] hs[i]).text@).len()
                                >= settings.min_word_length
                        &&& match settings.max_words {
                            Some(m) => hs.len() <= (if m >= 1 {
                                m
                            } else {
                                1
                            }),
                            None => true,
                        }
                    },
            decreases it.measure(),
        {
            match it.next() {
                Some(part) => {
                    self.expand_partition(&part, key, settings, &mut results);
                },
                None => {
                    break ;
                },
            }
        }
        results
    }

    /// Expands one partition of the key into every tuple that picks one
    /// homograph per partition key, and appends them to the results.
    fn expand_partition(
        &self,
        part: &Vec<AnagramKey>,
        key: AnagramKey,
        settings: AnagramSettings,
        results: &mut Vec<ExpressionSolution>,
    )
        requires
            self.wf(),
            part@.len() >= 1,
            keys_product(part@) == key.inner,
            keys_len_sum(part@) == key.len,
            forall|j: int| 0 <= j < part@.len() ==> has_key(self.words.keys@, #[trigger] part@[j]),
            forall|j: int|
                0 <= j < part@.len() ==> (#[trigger] part@[j]).len >= settings.min_word_length,
            match settings.max_words {
                Some(m) => part@.len() <= (if m >= 1 {
                    m
                } else {
                    1
                }),
                None => true,
            },
        ensures
            old(results)@.len() <= final(results)@.len(),
            forall|s: int|
                0 <= s < old(results)@.len() ==> final(results)@[s] == old(results)@[s],
            forall|s: int|
                old(results)@.len() <= s < final(results)@.len() ==> {
                    let hs = (#[trigger] final(results)@[s]).homographs@;
                    &&& hs.len() >= 1
                    &&& prime_product(texts_letters(sol_texts(hs))) == key.inner
                    &&& texts_letters(sol_texts(hs)).len() == key.len
                    &&& forall|i: int|
                        0 <= i < hs.len() ==> letters_of((#[trigger] hs[i]).text@).len()
                            >= settings.min_word_length
                    &&& match settings.max_words {
                        Some(m) => hs.len() <= (if m >= 1 {
                            m
                        } else {
                            1
                        }),
                        None => true,
                    }
                },
    {
        let pn = part.len();
        let mut tuples: Vec<Vec<Homograph>> = Vec::new();
        tuples.push(Vec::new());
        proof {
            let e = tuples@[0]@;
            assert(sol_texts(e) =~= Seq::<Seq<char>>::empty());
            assert(texts_letters(Seq::<Seq<char>>::empty()) == Seq::<
                crate::character::Character,
            >::empty());
            assert(prime_product(Seq::<crate::character::Character>::empty()) == 1);
            assert(tuple_prop(e, 0, 1, 0, settings.min_word_length as nat));
        }
        let mut j: usize = 0;
        #[verifier::loop_isolation(false)]
        while j < pn
            invariant
                j <= pn,
                forall|t: int|
                    0 <= t < tuples@.len() ==> tuple_prop(
                        (#[trigger] tuples@[t])@,
                        j as nat,
                        keys_product(part@.take(j as int)),
                        keys_len_sum(part@.take(j as int)),
                        settings.min_word_length as nat,
                    ),
            decreases pn - j,
        {
            let k = part[j];
            proof {
                assert(has_key(self.words.keys@, part@[j as int]));
            }
            let group = match self.words.get(&k) {
                Some(g) => g,
                None => {
                    proof {
                        let wi = choose|i: int|
                            0 <= i < self.words.keys@.len() && self.words.keys@[i] == part@[
                                j as int
                            ];
                        assert(self.words.keys@[wi].inner == k.inner);
                        assert(false);
                    }
                    return ;
                },
            };
            proof {
                // The group found by product is the group of this very key:
                // products are unique in the sorted index.
                let gi = choose|i: int|
                    0 <= i < self.words.keys@.len() && (#[trigger] self.words.keys@[i]).inner
                        == k.inner && group@ == self.words.values@[i]@;
                let wi = choose|i: int|
                    0 <= i < self.words.keys@.len() && self.words.keys@[i] == part@[j as int];
                if gi != wi {
                    if gi < wi {
                        assert(self.words.keys@[gi].inner < self.words.keys@[wi].inner);
                    } else {
                        assert(self.words.keys@[wi].inner < self.words.keys@[gi].inner);
                    }
                    assert(false);
                }
                assert(self.words.keys@[gi] == k);
                assert(forall|g: int|
                    0 <= g < group@.len() ==> prime_product(
                        letters_of((#[trigger] group@[g]).text@),
                    ) == k.inner && letters_of(group@[g].text@).len() == k.len);
                assert(part@.take(j as int + 1) =~= part@.take(j as int).push(k));
                lemma_keys_product_push(part@.take(j as int), k);
            }
            tuples = extend_tuples(
                tuples,
                group,
                Ghost(j as nat),
                Ghost(keys_product(part@.take(j as int))),
                Ghost(keys_len_sum(part@.take(j as int))),
                Ghost(k.inner as nat),
                Ghost(k.len as nat),
                Ghost(settings.min_word_length as nat),
            );
            j = j + 1;
        }
        proof {
            assert(part@.take(pn as int) =~= part@);
        }
        let tn = tuples.len();
        let mut t: usize = 0;
        let ghost base = results@.len();
        #[verifier::loop_isolation(false)]
        while t < tn
            invariant
                t <= tn,
                results@.len() == base + t,
                forall|s: int| 0 <= s < base ==> results@[s] == old(results)@[s],
                tn == tuples@.len(),
                forall|s: int|
                    base <= s < results@.len() ==> {
                        let hs = (#[trigger] results@[s]).homographs@;
                        &&& hs.len() >= 1
                        &&& prime_product(texts_letters(sol_texts(hs))) == key.inner
                        &&& texts_letters(sol_texts(hs)).len() == key.len
                        &&& forall|i: int|
                            0 <= i < hs.len() ==> letters_of((#[trigger] hs[i]).text@).len()
                                >= settings.min_word_length
                        &&& match settings.max_words {
                            Some(m) => hs.len() <= (if m >= 1 {
                                m
                            } else {
                                1
                            }),
                            None => true,
                        }
                    },
                forall|tt: int|
                    0 <= tt < tuples@.len() ==> tuple_prop(
                        (#[trigger] tuples@[tt])@,
                        pn as nat,
                        key.inner as nat,
                        key.len as nat,
                        settings.min_word_length as nat,
                    ),
            decreases tn - t,
        {
            let hs = crate::term_dict::clone_homographs(&tuples[t]);
            proof {
                let orig = tuples@[t as int]@;
                assert(hgs_view(hs@).len() == hgs_view(orig).len());
                assert forall|i: int| 0 <= i < hs@.len() implies (#[trigger] hs@[i]).text@
                    == orig[i].text@ by {
                    assert(hgs_view(hs@)[i] == crate::term_dict::hg_view(hs@[i]));
                    assert(hgs_view(orig)[i] == crate::term_dict::hg_view(orig[i]));
                }
                assert(sol_texts(hs@) =~= sol_texts(orig));
            }
            results.push(ExpressionSolution { homographs: hs });
            t = t + 1;
        }
    }

    /// Every tuple of dictionary words that together are an anagram of the
    /// given text; nothing when the text cannot be keyed.
    pub fn solve_for_word(&self, word: &str, settings: AnagramSettings) -> (r: Vec<
        ExpressionSolution,
    >)
        requires
            self.wf(),
        ensures
            prime_product(letters_of(word@)) > u128::MAX ==> r@.len() == 0,
            forall|s: int|
                0 <= s < r@.len() ==> {
                    let hs = (#[trigger] r@[s]).homographs@;
                    &&& hs.len() >= 1
                    &&& prime_product(texts_letters(sol_texts(hs))) == prime_product(
                        letters_of(word@),
                    )
                    &&& texts_letters(sol_texts(hs)).len() == letters_of(word@).len()
                    &&& forall|i: int|
                        0 <= i < hs.len() ==> letters_of((#[trigger] hs[i]).text@).len()
                            >= settings.min_word_length
                },
    {
        match AnagramKey::from_str(word) {
            Ok(key) => {
                proof {
                    crate::anagram_key::lemma_prime_product_pos(letters_of(word@));
                }
                self.solve(key, settings)
            },
            Err(_) => Vec::new(),
        }
    }
}

/// Extends every tuple by every homograph of one group, keeping the
/// tuple bookkeeping: products multiply and counts add.
fn extend_tuples(
    tuples: Vec<Vec<Homograph>>,
    group: &Vec<Homograph>,
    Ghost(c): Ghost<nat>,
    Ghost(p): Ghost<nat>,
    Ghost(l): Ghost<nat>,
    Ghost(kinner): Ghost<nat>,
    Ghost(klen): Ghost<nat>,
    Ghost(minw): Ghost<nat>,
) -> (r: Vec<Vec<Homograph>>)
    requires
        forall|t: int| 0 <= t < tuples@.len() ==> tuple_prop((#[trigger] tuples@[t])@, c, p, l, minw),
        forall|g: int|
            0 <= g < group@.len() ==> prime_product(letters_of((#[trigger] group@[g]).text@))
                == kinner && letters_of(group@[g].text@).len() == klen,
        klen >= minw,
    ensures
        forall|t: int|
            0 <= t < r@.len() ==> tuple_prop((#[trigger] r@[t])@, c + 1, p * kinner, l + klen, minw),
{
    let mut out: Vec<Vec<Homograph>> = Vec::new();
    let tn = tuples.len();
    let gn = group.len();
    let mut t: usize = 0;
    #[verifier::loop_isolation(false)]
    while t < tn
        invariant
            t <= tn,
            tn == tuples@.len(),
            gn == group@.len(),
            forall|x: int|
                0 <= x < out@.len() ==> tuple_prop((#[trigger] out@[x])@, c + 1, p * kinner, l + klen, minw),
        decreases tn - t,
    {
        let mut g: usize = 0;
        #[verifier::loop_isolation(false)]
        while g < gn
            invariant
                g <= gn,
                t < tn,
                forall|x: int|
                    0 <= x < out@.len() ==> tuple_prop(
                        (#[trigger] out@[x])@,
                        c + 1,
                        p * kinner,
                        l + klen,
                        minw,
                    ),
            decreases gn - g,
        {
            let mut nt = crate::term_dict::clone_homographs(&tuples[t]);
            proof {
                let orig = tuples@[t as int]@;
                assert(hgs_view(nt@).len() == hgs_view(orig).len());
                assert(nt@.len() == orig.len());
                assert forall|i: int| 0 <= i < nt@.len() implies (#[trigger] nt@[i]).text@
                    == orig[i].text@ by {
                    assert(hgs_view(nt@)[i] == crate::term_dict::hg_view(nt@[i]));
                    assert(hgs_view(orig)[i] == crate::term_dict::hg_view(orig[i]));
                }
                assert(sol_texts(nt@) =~= sol_texts(orig));
            }
            nt.push(group[g].clone());
            proof {
                let orig = tuples@[t as int]@;
                let h = group@[g as int];
                assert(nt@.last().text@ == h.text@);
                assert(sol_texts(nt@) =~= sol_texts(orig).push(h.text@));
                lemma_texts_letters_push(sol_texts(orig), h.text@);
                crate::anagram_key::lemma_prime_product_concat(
                    texts_letters(sol_texts(orig)),
                    letters_of(h.text@),
                );
                assert(tuple_prop(nt@, c + 1, p * kinner, l + klen, minw)) by {
                    assert(prime_product(texts_letters(sol_texts(nt@))) == p * kinner);
                    assert forall|i: int| 0 <= i < nt@.len() implies letters_of(
                        (#[trigger] nt@[i]).text@,
                    ).len() >= minw by {
                        if i < nt@.len() - 1 {
                            assert(nt@[i].text@ == orig[i].text@);
                            assert(letters_of(orig[i].text@).len() >= minw);
                        } else {
                            assert(nt@[i].text@ == h.text@);
                        }
                    }
                }
            }
            out.push(nt);
            g = g + 1;
        }
        t = t + 1;
    }
    out
}

/// Inserts one keyed word into the sorted index, growing an existing group
/// or opening a new one at the key's position.
#[verifier::rlimit(100)]
fn insert_word(map: &mut BinaryMap, k: AnagramKey, h: Homograph)
    requires
        old(map).wf(),
        k.len >= 1,
        k.inner >= 2,
        prime_product(letters_of(h.text@)) == k.inner,
        letters_of(h.text@).len() == k.len,
    ensures
        final(map).wf(),
        forall|p: nat, t: Seq<char>|
            #[trigger] map_has_text(*old(map), p, t) ==> map_has_text(*final(map), p, t),
        forall|p: nat, l: nat|
            #[trigger] map_has_key(*old(map), p, l) ==> map_has_key(*final(map), p, l),
        forall|hv: (
            Seq<char>,
            bool,
            Seq<(crate::homograph::PartOfSpeech, crate::homograph::TagSet, Option<Seq<char>>)>,
        )|
            #[trigger] map_member(*final(map), hv) ==> map_member(*old(map), hv) || hv
                == hg_view(h),
        map_has_text(*final(map), k.inner as nat, h.text@) || exists|l2: nat|
            l2 != k.len as nat && #[trigger] map_has_key(*final(map), k.inner as nat, l2),
        (forall|i: int|
            0 <= i < old(map).keys@.len() && (#[trigger] old(map).keys@[i]).inner == k.inner
                ==> old(map).keys@[i].len == k.len) ==> map_has_text(
            *final(map),
            k.inner as nat,
            h.text@,
        ),
        (map_texts_distinct(*old(map)) && (forall|i: int, g: int|
            0 <= i < old(map).values@.len() && 0 <= g < old(map).values@[i]@.len() ==> (
            #[trigger] old(map).values@[i]@[g]).text@ != h.text@)) ==> map_texts_distinct(
            *final(map),
        ),
{
    let c = map.count_le(k.inner);
    if c > 0 && map.keys[c - 1].inner == k.inner {
        if map.keys[c - 1].len == k.len {
            let mut grp = map.values.remove(c - 1);
            grp.push(h);
            map.values.insert(c - 1, grp);
            proof {
                assert forall|i: int, g: int|
                    0 <= i < map.keys@.len() && 0 <= g < map.values@[i]@.len() implies
                    prime_product(letters_of((#[trigger] map.values@[i]@[g]).text@))
                        == map.keys@[i].inner && letters_of(map.values@[i]@[g].text@).len()
                        == map.keys@[i].len by {
                    if i != c - 1 {
                        assert(map.values@[i] == old(map).values@[i]);
                    } else {
                        if g < map.values@[i]@.len() - 1 {
                            assert(map.values@[i]@[g] == old(map).values@[i]@[g]);
                        } else {
                            assert(map.values@[i]@[g] == h);
                        }
                    }
                }
                assert forall|p: nat, t: Seq<char>|
                    #[trigger] map_has_text(*old(map), p, t) implies map_has_text(
                    *map,
                    p,
                    t,
                ) by {
                    let (i, g) = choose|i: int, g: int|
                        0 <= i < old(map).keys@.len() && 0 <= g < old(map).values@[i]@.len() && (
                        #[trigger] old(map).keys@[i]).inner == p && (#[trigger] old(
                            map,
                        ).values@[i]@[g]).text@ == t;
                    if i != c - 1 {
                        assert(map.values@[i] == old(map).values@[i]);
                        assert(map.keys@[i].inner == p && map.values@[i]@[g].text@ == t);
                    } else {
                        assert(map.values@[i]@[g] == old(map).values@[i]@[g]);
                        assert(map.keys@[i].inner == p && map.values@[i]@[g].text@ == t);
                    }
                }
                assert(map_has_text(*map, k.inner as nat, h.text@)) by {
                    let g = map.values@[c - 1]@.len() - 1;
                    assert(map.values@[c - 1]@[g] == h);
                    assert(map.keys@[c - 1].inner == k.inner);
                }
                assert forall|p: nat, l: nat|
                    #[trigger] map_has_key(*old(map), p, l) implies map_has_key(
                    *map,
                    p,
                    l,
                ) by {
                    let i = choose|i: int|
                        0 <= i < old(map).keys@.len() && (#[trigger] old(map).keys@[i]).inner
                            == p && old(map).keys@[i].len == l;
                    assert(map.keys@[i].inner == p && map.keys@[i].len == l);
                }
                assert forall|hv: (
                    Seq<char>,
                    bool,
                    Seq<
                        (
                            crate::homograph::PartOfSpeech,
                            crate::homograph::TagSet,
                            Option<Seq<char>>,
                        ),
                    >,
                )|
                    #[trigger] map_member(*map, hv) implies map_member(*old(map), hv) || hv
                    == hg_view(h) by {
                    let (i, g) = choose|i: int, g: int|
                        0 <= i < map.values@.len() && 0 <= g < map.values@[i]@.len() && hg_view(
                            #[trigger] map.values@[i]@[g],
                        ) == hv;
                    if i != c - 1 {
                        assert(map.values@[i] == old(map).values@[i]);
                        assert(hg_view(old(map).values@[i]@[g]) == hv);
                    } else if g < map.values@[i]@.len() - 1 {
                        assert(map.values@[i]@[g] == old(map).values@[i]@[g]);
                        assert(hg_view(old(map).values@[i]@[g]) == hv);
                    } else {
                        assert(map.values@[i]@[g] == h);
                    }
                }
            }
        }
        else {
            // A same-product key with a different count never arises from
            // real words; such a word is dropped rather than filed under a
            // key it does not match.
            proof {
                let l2 = old(map).keys@[c - 1].len as nat;
                assert(old(map).keys@[c - 1].inner == k.inner && l2 != k.len as nat);
                assert(map_has_key(*map, k.inner as nat, l2)) by {
                    assert(map.keys@[c - 1].inner == k.inner && map.keys@[c - 1].len == l2);
                }
            }
        }
    } else {
        map.keys.insert(c, k);
        map.values.insert(c, vec![h]);
        proof {
            assert forall|i: int, j: int|
                0 <= i < j < map.keys@.len() implies (#[trigger] map.keys@[i]).inner
                < (#[trigger] map.keys@[j]).inner by {
                let oi = if i < c {
                    i
                } else {
                    i - 1
                };
                let oj = if j < c {
                    j
                } else {
                    j - 1
                };
                if i == c {
                    assert(map.keys@[j] == old(map).keys@[j - 1]);
                    assert(old(map).keys@[j - 1].inner > k.inner);
                } else if j == c {
                    assert(map.keys@[i] == old(map).keys@[i]);
                    assert(old(map).keys@[i].inner <= k.inner);
                    assert(old(map).keys@[i].inner != k.inner) by {
                        if old(map).keys@[i].inner == k.inner {
                            assert(i < c);
                            if i < c - 1 {
                                assert(old(map).keys@[i].inner < old(map).keys@[c - 1].inner);
                            }
                            assert(false);
                        }
                    }
                } else {
                    assert(map.keys@[i] == old(map).keys@[oi]);
                    assert(map.keys@[j] == old(map).keys@[oj]);
                    if oi < oj {
                        assert(old(map).keys@[oi].inner < old(map).keys@[oj].inner);
                    } else {
                        assert(oi == oj);
                        assert(i < c && j > c);
                        assert(old(map).keys@[oi].inner <= k.inner);
                        assert(old(map).keys@[oj].inner > k.inner);
                        assert(false);
                    }
                }
            }
            assert forall|i: int, g: int|
                0 <= i < map.keys@.len() && 0 <= g < map.values@[i]@.len() implies prime_product(
                letters_of((#[trigger] map.values@[i]@[g]).text@)) == map.keys@[i].inner
                && letters_of(map.values@[i]@[g].text@).len() == map.keys@[i].len by {
                if i < c {
                    assert(map.keys@[i] == old(map).keys@[i]);
                    assert(map.values@[i] == old(map).values@[i]);
                } else if i == c {
                    assert(map.values@[i]@[g] == h);
                } else {
                    assert(map.keys@[i] == old(map).keys@[i - 1]);
                    assert(map.values@[i] == old(map).values@[i - 1]);
                }
            }
            assert forall|p: nat, t: Seq<char>|
                #[trigger] map_has_text(*old(map), p, t) implies map_has_text(*map, p, t) by {
                let (i, g) = choose|i: int, g: int|
                    0 <= i < old(map).keys@.len() && 0 <= g < old(map).values@[i]@.len() && (
                    #[trigger] old(map).keys@[i]).inner == p && (#[trigger] old(
                        map,
                    ).values@[i]@[g]).text@ == t;
                if i < c {
                    assert(map.keys@[i] == old(map).keys@[i]);
                    assert(map.values@[i] == old(map).values@[i]);
                    assert(map.keys@[i].inner == p && map.values@[i]@[g].text@ == t);
                } else {
                    assert(map.keys@[i + 1] == old(map).keys@[i]);
                    assert(map.values@[i + 1] == old(map).values@[i]);
                    assert(map.keys@[i + 1].inner == p && map.values@[i + 1]@[g].text@ == t);
                }
            }
            assert(map_has_text(*map, k.inner as nat, h.text@)) by {
                assert(map.keys@[c as int] == k);
                assert(map.values@[c as int]@[0] == h);
            }
            assert forall|p: nat, l: nat|
                #[trigger] map_has_key(*old(map), p, l) implies map_has_key(*map, p, l) by {
                let i = choose|i: int|
                    0 <= i < old(map).keys@.len() && (#[trigger] old(map).keys@[i]).inner == p
                        && old(map).keys@[i].len == l;
                if i < c {
                    assert(map.keys@[i].inner == p && map.keys@[i].len == l);
                } else {
                    assert(map.keys@[i + 1] == old(map).keys@[i]);
                    assert(map.keys@[i + 1].inner == p && map.keys@[i + 1].len == l);
                }
            }
            assert forall|hv: (
                Seq<char>,
                bool,
                Seq<
                    (
                        crate::homograph::PartOfSpeech,
                        crate::homograph::TagSet,
                        Option<Seq<char>>,
                    ),
                >,
            )|
                #[trigger] map_member(*map, hv) implies map_member(*old(map), hv) || hv
                == hg_view(h) by {
                let (i, g) = choose|i: int, g: int|
                    0 <= i < map.values@.len() && 0 <= g < map.values@[i]@.len() && hg_view(
                        #[trigger] map.values@[i]@[g],
                    ) == hv;
                if i < c {
                    assert(map.values@[i] == old(map).values@[i]);
                    assert(hg_view(old(map).values@[i]@[g]) == hv);
                } else if i == c {
                    assert(map.values@[i]@[g] == h);
                } else {
                    assert(map.values@[i] == old(map).values@[i - 1]);
                    assert(hg_view(old(map).values@[i - 1]@[g]) == hv);
                }
            }
        }
    }
}

/// Orders homographs by their lower-cased texts, so that words sharing a
/// key come out in a fixed alphabetical order.  The words themselves are
/// kept: only the order changes.
fn sort_homographs_by_text(v: Vec<Homograph>) -> (r: Vec<Homograph>)
    ensures
        hgs_view(r@).to_multiset() == hgs_view(v@).to_multiset(),
        forall|i: int, j: int|
            0 <= i < j < r@.len() ==> lex_le(
                lower_seq((#[trigger] r@[i]).text@),
                lower_seq((#[trigger] r@[j]).text@),
            ),
{
    broadcast use vstd::seq_lib::group_to_multiset_ensures;

    let ghost orig = hgs_view(v@);
    let mut input = v;
    let mut out: Vec<Homograph> = Vec::new();
    proof {
        assert(hgs_view(out@).to_multiset().add(hgs_view(input@).to_multiset())
            =~= orig.to_multiset()) by {
            assert(hgs_view(out@) =~= Seq::<
                (
                    Seq<char>,
                    bool,
                    Seq<
                        (
                            crate::homograph::PartOfSpeech,
                            crate::homograph::TagSet,
                            Option<Seq<char>>,
                        ),
                    >,
                ),
            >::empty());
        }
    }
    while input.len() > 0
        invariant
            hgs_view(out@).to_multiset().add(hgs_view(input@).to_multiset())
                == orig.to_multiset(),
            forall|i: int, j: int|
                0 <= i < j < out@.len() ==> lex_le(
                    lower_seq((#[trigger] out@[i]).text@),
                    lower_seq((#[trigger] out@[j]).text@),
                ),
            forall|i: int, x: int|
                0 <= i < out@.len() && 0 <= x < input@.len() ==> lex_le(
                    lower_seq((#[trigger] out@[i]).text@),
                    lower_seq((#[trigger] input@[x]).text@),
                ),
        decreases input.len(),
    {
        let n = input.len();
        let mut m: usize = 0;
        let mut k: usize = 1;
        proof {
            lemma_lex_le_total(lower_seq(input@[0].text@), lower_seq(input@[0].text@));
        }
        while k < n
            invariant
                1 <= k <= n,
                m < k,
                n == input@.len(),
                forall|j: int|
                    0 <= j < k ==> lex_le(
                        lower_seq(input@[m as int].text@),
                        lower_seq((#[trigger] input@[j]).text@),
                    ),
            decreases n - k,
        {
            if lower_le(input[k].text.as_str(), input[m].text.as_str()) {
                proof {
                    assert forall|j: int| 0 <= j < k + 1 implies lex_le(
                        lower_seq(input@[k as int].text@),
                        lower_seq((#[trigger] input@[j]).text@),
                    ) by {
                        if j < k {
                            lemma_lex_le_trans(
                                lower_seq(input@[k as int].text@),
                                lower_seq(input@[m as int].text@),
                                lower_seq(input@[j].text@),
                            );
                        } else {
                            lemma_lex_le_total(
                                lower_seq(input@[k as int].text@),
                                lower_seq(input@[k as int].text@),
                            );
                        }
                    }
                }
                m = k;
            } else {
                proof {
                    lemma_lex_le_total(
                        lower_seq(input@[k as int].text@),
                        lower_seq(input@[m as int].text@),
                    );
                    assert forall|j: int| 0 <= j < k + 1 implies lex_le(
                        lower_seq(input@[m as int].text@),
                        lower_seq((#[trigger] input@[j]).text@),
                    ) by {
                        if j == k {
                            assert(lex_le(
                                lower_seq(input@[m as int].text@),
                                lower_seq(input@[k as int].text@),
                            ));
                        }
                    }
                }
            }
            k = k + 1;
        }
        let ghost old_out = out@;
        let ghost old_input = input@;
        let picked = input.remove(m);
        out.push(picked);
        proof {
            assert(hgs_view(old_input).len() == old_input.len());
            assert(hgs_view(old_out).len() == old_out.len());
            hgs_view(old_input).to_multiset_ensures();
            hgs_view(old_out).to_multiset_ensures();
            assert(hgs_view(old_input).remove(m as int) =~= hgs_view(input@)) by {
                assert(hgs_view(input@).len() == input@.len());
                assert forall|j: int|
                    0 <= j < input@.len() implies hgs_view(input@)[j] == hgs_view(
                    old_input,
                ).remove(m as int)[j] by {
                    assert(hgs_view(input@)[j] == hg_view(input@[j]));
                    if j < m {
                        assert(input@[j] == old_input[j]);
                        assert(hgs_view(old_input)[j] == hg_view(old_input[j]));
                    } else {
                        assert(input@[j] == old_input[j + 1]);
                        assert(hgs_view(old_input)[j + 1] == hg_view(old_input[j + 1]));
                    }
                }
            }
            assert(hgs_view(old_input)[m as int] == hg_view(picked));
            assert(hgs_view(old_input).remove(m as int).to_multiset() =~= hgs_view(
                old_input,
            ).to_multiset().remove(hg_view(picked)));
            assert(hgs_view(out@) =~= hgs_view(old_out).push(hg_view(picked))) by {
                assert(hgs_view(out@).len() == out@.len());
                assert forall|j: int| 0 <= j < out@.len() implies hgs_view(out@)[j]
                    == hgs_view(old_out).push(hg_view(picked))[j] by {
                    assert(hgs_view(out@)[j] == hg_view(out@[j]));
                    if j < out@.len() - 1 {
                        assert(out@[j] == old_out[j]);
                        assert(hgs_view(old_out)[j] == hg_view(old_out[j]));
                    } else {
                        assert(out@[j] == picked);
                    }
                }
            }
            assert(hgs_view(old_out).push(hg_view(picked)).to_multiset() =~= hgs_view(
                old_out,
            ).to_multiset().insert(hg_view(picked)));
            assert(hgs_view(old_input).contains(hg_view(picked)));
            assert(hgs_view(old_input).to_multiset().count(hg_view(picked)) > 0);
            assert(hgs_view(out@).to_multiset().add(hgs_view(input@).to_multiset())
                =~= orig.to_multiset());
            assert forall|i: int, j: int| 0 <= i < j < out@.len() implies lex_le(
                lower_seq((#[trigger] out@[i]).text@),
                lower_seq((#[trigger] out@[j]).text@),
            ) by {
                if j < out@.len() - 1 {
                    assert(out@[i] == old_out[i]);
                    assert(out@[j] == old_out[j]);
                } else {
                    assert(out@[i] == old_out[i]);
                    assert(out@[j] == picked);
                    assert(picked == old_input[m as int]);
                }
            }
            assert forall|i: int, x: int|
                0 <= i < out@.len() && 0 <= x < input@.len() implies lex_le(
                lower_seq((#[trigger] out@[i]).text@),
                lower_seq((#[trigger] input@[x]).text@),
            ) by {
                let xo = if x < m {
                    x
                } else {
                    x + 1
                };
                assert(input@[x] == old_input[xo]);
                if i < out@.len() - 1 {
                    assert(out@[i] == old_out[i]);
                } else {
                    assert(out@[i] == picked);
                    assert(picked == old_input[m as int]);
                    assert(lex_le(
                        lower_seq(old_input[m as int].text@),
                        lower_seq(old_input[xo].text@),
                    ));
                }
            }
        }
    }
    proof {
        assert(hgs_view(input@) =~= Seq::<
            (
                Seq<char>,
                bool,
                Seq<
                    (
                        crate::homograph::PartOfSpeech,
                        crate::homograph::TagSet,
                        Option<Seq<char>>,
                    ),
                >,
            ),
        >::empty());
        assert(hgs_view(out@).to_multiset() =~= orig.to_multiset());
    }
    out
}

/// Compares two texts in lower-cased lexicographic order.
fn lower_le(a: &str, b: &str) -> (r: bool)
    ensures
        r == crate::text::lex_le(lower_seq(a@), lower_seq(b@)),
{
    proof {
        assert(lower_seq(a@).skip(0) =~= lower_seq(a@));
        assert(lower_seq(b@).skip(0) =~= lower_seq(b@));
    }
    lower_le_from(a, b, 0)
}

fn lower_le_from(a: &str, b: &str, i: usize) -> (r: bool)
    requires
        i <= a@.len(),
        i <= b@.len(),
    ensures
        r == crate::text::lex_le(lower_seq(a@).skip(i as int), lower_seq(b@).skip(i as int)),
    decreases a@.len() - i,
{
    let an = a.unicode_len();
    let bn = b.unicode_len();
    if i == an {
        proof {
            assert(lower_seq(a@).skip(i as int).len() == 0);
        }
        true
    } else if i == bn {
        proof {
            assert(lower_seq(b@).skip(i as int).len() == 0);
            assert(lower_seq(a@).skip(i as int).len() > 0);
        }
        false
    } else {
        let ca = to_lower_char(a.get_char(i));
        let cb = to_lower_char(b.get_char(i));
        proof {
            assert(lower_seq(a@).skip(i as int)[0] == spec_lower_char(a@[i as int]));
            assert(lower_seq(b@).skip(i as int)[0] == spec_lower_char(b@[i as int]));
            assert(lower_seq(a@).skip(i as int).drop_first() =~= lower_seq(a@).skip(i as int + 1));
            assert(lower_seq(b@).skip(i as int).drop_first() =~= lower_seq(b@).skip(i as int + 1));
        }
        if (ca as u32) < (cb as u32) {
            true
        } else if (ca as u32) > (cb as u32) {
            false
        } else {
            proof {
                assert(ca == cb);
            }
            lower_le_from(a, b, i + 1)
        }
    }
}

} // verus!
