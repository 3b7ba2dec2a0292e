//! An expression matching ordered tuples of a fixed width: one word query
//! per slot.  Solving is the cartesian product of the slots' solutions;
//! `order_to_allow` reorders an unordered tuple to fit the slots.

use vstd::prelude::*;

use crate::anagram_key::{letters_of, lemma_letters_of_concat, prime_product, AnagramKey};
use crate::anagram_settings::AnagramSettings;
use crate::homograph::Homograph;
use crate::solution::{sol_texts, texts_letters, ExpressionSolution};
use crate::term_dict::{hg_view, hgs_view};
use crate::word_query::{query_allows, lemma_query_allows_view, WordQuery};
use crate::word_context::WordContext;

verus! {

/// Whether a tuple fits the expression: one word per slot, each allowed by
/// its slot's query.
pub open spec fn fle_allows(e: FixedLengthExpression, hs: Seq<Homograph>) -> bool {
    &&& hs.len() == e.words@.len()
    &&& forall|i: int| 0 <= i < hs.len() ==> query_allows(e.words@[i], #[trigger] hs[i])
}

/// One tuple extended by each word of a slot in turn.
pub open spec fn extend_one(
    t: Seq<(Seq<char>, bool, Seq<(crate::homograph::PartOfSpeech, crate::homograph::TagSet, Option<Seq<char>>)>)>,
    slot: Seq<(Seq<char>, bool, Seq<(crate::homograph::PartOfSpeech, crate::homograph::TagSet, Option<Seq<char>>)>)>,
) -> Seq<Seq<(Seq<char>, bool, Seq<(crate::homograph::PartOfSpeech, crate::homograph::TagSet, Option<Seq<char>>)>)>>
    decreases slot.len(),
{
    if slot.len() == 0 {
        Seq::empty()
    } else {
        seq![t.push(slot[0])] + extend_one(t, slot.drop_first())
    }
}

/// Every tuple extended by every word of a slot, tuples varying slowest.
pub open spec fn extend_all(
    ts: Seq<Seq<(Seq<char>, bool, Seq<(crate::homograph::PartOfSpeech, crate::homograph::TagSet, Option<Seq<char>>)>)>>,
    slot: Seq<(Seq<char>, bool, Seq<(crate::homograph::PartOfSpeech, crate::homograph::TagSet, Option<Seq<char>>)>)>,
) -> Seq<Seq<(Seq<char>, bool, Seq<(crate::homograph::PartOfSpeech, crate::homograph::TagSet, Option<Seq<char>>)>)>>
    decreases ts.len(),
{
    if ts.len() == 0 {
        Seq::empty()
    } else {
        extend_one(ts[0], slot) + extend_all(ts.drop_first(), slot)
    }
}

/// The cartesian fold over the slots from `i` on, starting from the
/// tuples built so far.
pub open spec fn cart_fold(
    ws: Seq<WordQuery>,
    dict: crate::term_dict::TermDict,
    i: int,
    acc: Seq<Seq<(Seq<char>, bool, Seq<(crate::homograph::PartOfSpeech, crate::homograph::TagSet, Option<Seq<char>>)>)>>,
) -> Seq<Seq<(Seq<char>, bool, Seq<(crate::homograph::PartOfSpeech, crate::homograph::TagSet, Option<Seq<char>>)>)>>
    decreases ws.len() - i,
{
    if i < 0 || i >= ws.len() {
        acc
    } else {
        cart_fold(
            ws,
            dict,
            i + 1,
            extend_all(acc, crate::word_query::query_solution_view(ws[i], dict)),
        )
    }
}

/// What `solve` returns, viewed: the cartesian product of the slots'
/// solutions, slots varying rightmost fastest; no tuples at all for an
/// expression without slots.
pub open spec fn fle_solution_view(e: FixedLengthExpression, dict: crate::term_dict::TermDict) -> Seq<
    Seq<(Seq<char>, bool, Seq<(crate::homograph::PartOfSpeech, crate::homograph::TagSet, Option<Seq<char>>)>)>,
> {
    if e.words@.len() == 0 {
        Seq::empty()
    } else {
        cart_fold(e.words@, dict, 0, seq![Seq::empty()])
    }
}

/// The views of a list of answers.
pub open spec fn sols_view(ss: Seq<ExpressionSolution>) -> Seq<
    Seq<(Seq<char>, bool, Seq<(crate::homograph::PartOfSpeech, crate::homograph::TagSet, Option<Seq<char>>)>)>,
> {
    ss.map_values(|s: ExpressionSolution| hgs_view(s.homographs@))
}

/// The views of a list of tuples under construction.
pub open spec fn vecs_view(ts: Seq<Vec<Homograph>>) -> Seq<
    Seq<(Seq<char>, bool, Seq<(crate::homograph::PartOfSpeech, crate::homograph::TagSet, Option<Seq<char>>)>)>,
> {
    ts.map_values(|t: Vec<Homograph>| hgs_view(t@))
}

pub proof fn lemma_extend_one_push(
    t: Seq<(Seq<char>, bool, Seq<(crate::homograph::PartOfSpeech, crate::homograph::TagSet, Option<Seq<char>>)>)>,
    slot: Seq<(Seq<char>, bool, Seq<(crate::homograph::PartOfSpeech, crate::homograph::TagSet, Option<Seq<char>>)>)>,
    x: (Seq<char>, bool, Seq<(crate::homograph::PartOfSpeech, crate::homograph::TagSet, Option<Seq<char>>)>),
)
    ensures
        extend_one(t, slot.push(x)) == extend_one(t, slot).push(t.push(x)),
    decreases slot.len(),
{
    if slot.len() == 0 {
        assert(slot.push(x)[0] == x);
        assert(slot.push(x).drop_first() =~= slot);
        assert(extend_one(t, slot) =~= Seq::empty());
        assert(extend_one(t, slot.push(x)) =~= extend_one(t, slot).push(t.push(x)));
    } else {
        assert(slot.push(x)[0] == slot[0]);
        assert(slot.push(x).drop_first() =~= slot.drop_first().push(x));
        lemma_extend_one_push(t, slot.drop_first(), x);
        assert(extend_one(t, slot.push(x)) =~= extend_one(t, slot).push(t.push(x)));
    }
}

pub proof fn lemma_extend_all_push(
    ts: Seq<Seq<(Seq<char>, bool, Seq<(crate::homograph::PartOfSpeech, crate::homograph::TagSet, Option<Seq<char>>)>)>>,
    t: Seq<(Seq<char>, bool, Seq<(crate::homograph::PartOfSpeech, crate::homograph::TagSet, Option<Seq<char>>)>)>,
    slot: Seq<(Seq<char>, bool, Seq<(crate::homograph::PartOfSpeech, crate::homograph::TagSet, Option<Seq<char>>)>)>,
)
    ensures
        extend_all(ts.push(t), slot) == extend_all(ts, slot) + extend_one(t, slot),
    decreases ts.len(),
{
    if ts.len() == 0 {
        assert(ts.push(t)[0] == t);
        assert(ts.push(t).drop_first() =~= ts);
        assert(extend_all(ts, slot) =~= Seq::empty());
        assert(extend_all(ts.push(t), slot) =~= extend_all(ts, slot) + extend_one(t, slot));
    } else {
        assert(ts.push(t)[0] == ts[0]);
        assert(ts.push(t).drop_first() =~= ts.drop_first().push(t));
        lemma_extend_all_push(ts.drop_first(), t, slot);
        assert(extend_all(ts.push(t), slot) =~= extend_all(ts, slot) + extend_one(t, slot));
    }
}

/// The texts of the literal slots, in slot order.
pub open spec fn lit_texts_of(ws: Seq<WordQuery>) -> Seq<Seq<char>>
    decreases ws.len(),
{
    if ws.len() == 0 {
        Seq::empty()
    } else {
        lit_texts_of(ws.drop_last()) + (match crate::word_query::query_spec_as_literal(
            ws.last(),
        ) {
            Some(l) => seq![l.text@],
            None => Seq::empty(),
        })
    }
}

/// The positions of the literal slots, in slot order.
pub open spec fn lit_positions_of(ws: Seq<WordQuery>) -> Seq<int>
    decreases ws.len(),
{
    if ws.len() == 0 {
        Seq::empty()
    } else {
        lit_positions_of(ws.drop_last()) + (match crate::word_query::query_spec_as_literal(
            ws.last(),
        ) {
            Some(l) => seq![ws.len() - 1],
            None => Seq::empty(),
        })
    }
}

/// The positions of the non-literal slots, in slot order.
pub open spec fn nonlit_positions_of(ws: Seq<WordQuery>) -> Seq<int>
    decreases ws.len(),
{
    if ws.len() == 0 {
        Seq::empty()
    } else {
        nonlit_positions_of(ws.drop_last()) + (match crate::word_query::query_spec_as_literal(
            ws.last(),
        ) {
            Some(l) => Seq::empty(),
            None => seq![ws.len() - 1],
        })
    }
}

/// How the literal split grows slot by slot.
proof fn lemma_lit_split_take(ws: Seq<WordQuery>, i: int)
    requires
        0 <= i < ws.len(),
    ensures
        lit_texts_of(ws.take(i + 1)) == lit_texts_of(ws.take(i)) + (
        match crate::word_query::query_spec_as_literal(ws[i]) {
            Some(l) => seq![l.text@],
            None => Seq::<Seq<char>>::empty(),
        }),
        lit_positions_of(ws.take(i + 1)) == lit_positions_of(ws.take(i)) + (
        match crate::word_query::query_spec_as_literal(ws[i]) {
            Some(l) => seq![i],
            None => Seq::<int>::empty(),
        }),
        nonlit_positions_of(ws.take(i + 1)) == nonlit_positions_of(ws.take(i)) + (
        match crate::word_query::query_spec_as_literal(ws[i]) {
            Some(l) => Seq::<int>::empty(),
            None => seq![i],
        }),
{
    assert(ws.take(i + 1).drop_last() =~= ws.take(i));
    assert(ws.take(i + 1).last() == ws[i]);
    assert(ws.take(i + 1).len() - 1 == i);
}

/// The count of literal characters across the expression's literal slots.
pub open spec fn fle_lit_chars(ws: Seq<WordQuery>) -> nat
    decreases ws.len(),
{
    if ws.len() == 0 {
        0
    } else {
        (match crate::word_query::query_spec_as_literal(ws[0]) {
            Some(l) => l.text@.len(),
            None => 0,
        }) + fle_lit_chars(ws.drop_first())
    }
}

#[derive(Debug)]
pub struct FixedLengthExpression {
    pub words: Vec<WordQuery>,
}

impl Clone for FixedLengthExpression {
    fn clone(&self) -> (r: Self)
        ensures
            r.words@.len() == self.words@.len(),
            forall|i: int, h: Homograph|
                0 <= i < r.words@.len() ==> #[trigger] query_allows(r.words@[i], h)
                    == query_allows(self.words@[i], h),
    {
        let n = self.words.len();
        let mut words: Vec<WordQuery> = Vec::new();
        let mut i: usize = 0;
        #[verifier::loop_isolation(false)]
        while i < n
            invariant
                i <= n,
                words@.len() == i,
                forall|j: int, h: Homograph|
                    0 <= j < i ==> #[trigger] query_allows(words@[j], h) == query_allows(
                        self.words@[j],
                        h,
                    ),
            decreases n - i,
        {
            words.push(self.words[i].clone());
            i = i + 1;
        }
        FixedLengthExpression { words }
    }
}

impl FixedLengthExpression {
    /// Whether the tuple fits slot by slot.
    pub fn allow(&self, solution: &ExpressionSolution) -> (r: bool)
        ensures
            r == fle_allows(*self, solution.homographs@),
    {
        let n = self.words.len();
        if solution.homographs.len() != n {
            return false;
        }
        let mut i: usize = 0;
        #[verifier::loop_isolation(false)]
        while i < n
            invariant
                i <= n,
                forall|j: int|
                    0 <= j < i ==> query_allows(self.words@[j], #[trigger] solution.homographs@[j]),
            decreases n - i,
        {
            if !self.words[i].allow(&solution.homographs[i]) {
                return false;
            }
            i = i + 1;
        }
        true
    }

    /// Exactly this many words fit.
    pub fn allow_number_of_words(&self, number_of_words: usize) -> (r: bool)
        ensures
            r == (self.words@.len() == number_of_words),
    {
        self.words.len() == number_of_words
    }

    /// The enumerator settings this expression asks for: words of at least
    /// three letters, at most one word per slot.
    pub fn to_anagram_settings(&self) -> (r: AnagramSettings)
        ensures
            r.min_word_length == 3,
            r.max_words == Some(self.words@.len() as usize),
    {
        AnagramSettings { min_word_length: 3, max_words: Some(self.words.len()) }
    }

    /// The count of literal characters across the literal slots; the
    /// planner prefers a literal-heavy side as consumer.
    pub fn count_literal_chars(&self) -> (r: usize)
        ensures
            fle_lit_chars(self.words@) <= usize::MAX ==> r == fle_lit_chars(self.words@),
    {
        let n = self.words.len();
        let mut acc: usize = 0;
        let mut i: usize = 0;
        proof {
            assert(self.words@.take(0) =~= Seq::<WordQuery>::empty());
            lemma_fle_lit_chars_take(self.words@, 0);
        }
        #[verifier::loop_isolation(false)]
        while i < n
            invariant
                i <= n,
                fle_lit_chars(self.words@.take(i as int)) <= usize::MAX ==> acc == fle_lit_chars(
                    self.words@.take(i as int),
                ),
                acc <= fle_lit_chars(self.words@.take(i as int)),
            decreases n - i,
        {
            proof {
                lemma_fle_lit_chars_take(self.words@, i as int);
            }
            match self.words[i].as_literal() {
                Some(l) => {
                    let add = l.text.as_str().unicode_len();
                    acc = match acc.checked_add(add) {
                        Some(x) => x,
                        None => usize::MAX,
                    };
                },
                None => {},
            }
            i = i + 1;
        }
        proof {
            assert(self.words@.take(n as int) =~= self.words@);
        }
        acc
    }

    /// The number of tuples the expression stands for: the product of the
    /// slots' solution counts, `None` when the running product overflows;
    /// an expression with no slots counts zero.
    pub fn count_options(&self, dict: &WordContext) -> (r: Option<usize>)
        requires
            dict.wf(),
        ensures
            self.words@.len() == 0 ==> r == Some(0usize),
            self.words@.len() > 0 ==> match r {
                Some(c) => fle_count_from(self.words@, dict.term_dict, 0, 1) == Some(c as nat),
                None => fle_count_from(self.words@, dict.term_dict, 0, 1) is None,
            },
    {
        let n = self.words.len();
        if n == 0 {
            return Some(0);
        }
        let mut acc: usize = 1;
        let mut i: usize = 0;
        #[verifier::loop_isolation(false)]
        while i < n
            invariant
                i <= n,
                fle_count_from(self.words@, dict.term_dict, 0, 1) == fle_count_from(
                    self.words@,
                    dict.term_dict,
                    i as int,
                    acc as nat,
                ),
            decreases n - i,
        {
            let sols = self.words[i].solve(&dict.term_dict);
            let o = sols.len();
            proof {
                assert(o as nat == crate::word_query::query_solution_view(
                    self.words@[i as int],
                    dict.term_dict,
                ).len()) by {
                    assert(hgs_view(sols@).len() == sols@.len());
                }
            }
            match acc.checked_mul(o) {
                Some(x) => {
                    acc = x;
                },
                None => {
                    return None;
                },
            }
            i = i + 1;
        }
        Some(acc)
    }

    /// Every tuple that picks one allowed word per slot, slots varying
    /// rightmost fastest: exactly the cartesian product of the slots'
    /// solutions.  Every returned tuple fits the expression.
    pub fn solve(&self, dict: &WordContext) -> (r: Vec<ExpressionSolution>)
        requires
            dict.wf(),
        ensures
            sols_view(r@) == fle_solution_view(*self, dict.term_dict),
            forall|s: int|
                0 <= s < r@.len() ==> fle_allows(*self, (#[trigger] r@[s]).homographs@),
    {
        let n = self.words.len();
        if n == 0 {
            let r: Vec<ExpressionSolution> = Vec::new();
            proof {
                assert(sols_view(r@) =~= fle_solution_view(*self, dict.term_dict));
            }
            return r;
        }
        let mut tuples: Vec<Vec<Homograph>> = Vec::new();
        tuples.push(Vec::new());
        let mut i: usize = 0;
        proof {
            assert(vecs_view(tuples@) =~= seq![
                Seq::<
                    (
                        Seq<char>,
                        bool,
                        Seq<
                            (
                                crate::homograph::PartOfSpeech,
                                crate::homograph::TagSet,
                                Option<Seq<char>>,
                            ),
                        >,
                    ),
                >::empty(),
            ]) by {
                assert(vecs_view(tuples@)[0] == hgs_view(tuples@[0]@));
                assert(hgs_view(tuples@[0]@) =~= Seq::<
                    (
                        Seq<char>,
                        bool,
                        Seq<
                            (
                                crate::homograph::PartOfSpeech,
                                crate::homograph::TagSet,
                                Option<Seq<char>>,
                            ),
                        >,
                    ),
                >::empty());
            }
        }
        #[verifier::loop_isolation(false)]
        while i < n
            invariant
                i <= n,
                cart_fold(self.words@, dict.term_dict, 0, seq![Seq::empty()]) == cart_fold(
                    self.words@,
                    dict.term_dict,
                    i as int,
                    vecs_view(tuples@),
                ),
                forall|t: int|
                    0 <= t < tuples@.len() ==> (#[trigger] tuples@[t])@.len() == i as int,
                forall|t: int, j: int|
                    0 <= t < tuples@.len() && 0 <= j < i ==> query_allows(
                        self.words@[j],
                        #[trigger] tuples@[t]@[j],
                    ),
            decreases n - i,
        {
            let sols = self.words[i].solve(&dict.term_dict);
            let ghost slot = hgs_view(sols@);
            proof {
                assert(slot == crate::word_query::query_solution_view(
                    self.words@[i as int],
                    dict.term_dict,
                ));
            }
            let mut next: Vec<Vec<Homograph>> = Vec::new();
            let tn = tuples.len();
            let sn = sols.len();
            let ghost tv = vecs_view(tuples@);
            let mut t: usize = 0;
            proof {
                assert(tv.take(0) =~= Seq::empty());
                assert(vecs_view(next@) =~= extend_all(tv.take(0), slot));
            }
            #[verifier::loop_isolation(false)]
            while t < tn
                invariant
                    t <= tn,
                    tn == tuples@.len(),
                    sn == sols@.len(),
                    tv == vecs_view(tuples@),
                    slot == hgs_view(sols@),
                    vecs_view(next@) == extend_all(tv.take(t as int), slot),
                    forall|x: int|
                        0 <= x < next@.len() ==> (#[trigger] next@[x])@.len() == i + 1,
                    forall|x: int, j: int|
                        0 <= x < next@.len() && 0 <= j < i + 1 ==> query_allows(
                            self.words@[j],
                            #[trigger] next@[x]@[j],
                        ),
                decreases tn - t,
            {
                let mut g: usize = 0;
                proof {
                    assert(slot.take(0) =~= Seq::empty());
                    assert(extend_one(tv[t as int], slot.take(0)) =~= Seq::empty());
                    assert(vecs_view(next@) + extend_one(tv[t as int], slot.take(0))
                        =~= vecs_view(next@));
                }
                #[verifier::loop_isolation(false)]
                while g < sn
                    invariant
                        g <= sn,
                        t < tn,
                        tv == vecs_view(tuples@),
                        slot == hgs_view(sols@),
                        vecs_view(next@) == extend_all(tv.take(t as int), slot) + extend_one(
                            tv[t as int],
                            slot.take(g as int),
                        ),
                        forall|x: int|
                            0 <= x < next@.len() ==> (#[trigger] next@[x])@.len() == i + 1,
                        forall|x: int, j: int|
                            0 <= x < next@.len() && 0 <= j < i + 1 ==> query_allows(
                                self.words@[j],
                                #[trigger] next@[x]@[j],
                            ),
                    decreases sn - g,
                {
                    let mut nt = crate::term_dict::clone_homographs(&tuples[t]);
                    proof {
                        let orig = tuples@[t as int]@;
                        assert(hgs_view(nt@).len() == hgs_view(orig).len());
                        assert(hgs_view(nt@) == tv[t as int]) by {
                            assert(tv[t as int] == hgs_view(tuples@[t as int]@));
                        }
                        assert forall|j: int| 0 <= j < i implies query_allows(
                            self.words@[j],
                            #[trigger] nt@[j],
                        ) by {
                            assert(hgs_view(nt@)[j] == hg_view(nt@[j]));
                            assert(hgs_view(orig)[j] == hg_view(orig[j]));
                            lemma_query_allows_view(self.words@[j], orig[j], nt@[j]);
                        }
                    }
                    let ghost nt_before = nt@;
                    let picked = sols[g].clone();
                    proof {
                        lemma_query_allows_view(
                            self.words@[i as int],
                            sols@[g as int],
                            picked,
                        );
                        assert(hg_view(picked) == hg_view(sols@[g as int]));
                        assert(hg_view(sols@[g as int]) == slot[g as int]) by {
                            assert(slot[g as int] == hg_view(sols@[g as int]));
                        }
                    }
                    nt.push(picked);
                    proof {
                        assert(query_allows(self.words@[i as int], nt@[i as int]));
                        assert(hgs_view(nt@) =~= hgs_view(nt_before).push(slot[g as int])) by {
                            assert(hgs_view(nt@).len() == nt@.len());
                            assert forall|j: int| 0 <= j < nt@.len() implies hgs_view(nt@)[j]
                                == hgs_view(nt_before).push(slot[g as int])[j] by {
                                assert(hgs_view(nt@)[j] == hg_view(nt@[j]));
                                if j < nt@.len() - 1 {
                                    assert(nt@[j] == nt_before[j]);
                                    assert(hgs_view(nt_before)[j] == hg_view(nt_before[j]));
                                } else {
                                    assert(nt@[j] == picked);
                                }
                            }
                        }
                    }
                    let ghost next_before = next@;
                    next.push(nt);
                    proof {
                        assert(slot.take(g as int + 1) =~= slot.take(g as int).push(
                            slot[g as int],
                        ));
                        lemma_extend_one_push(
                            tv[t as int],
                            slot.take(g as int),
                            slot[g as int],
                        );
                        assert(vecs_view(next@) =~= vecs_view(next_before).push(
                            hgs_view(nt@),
                        )) by {
                            assert(vecs_view(next@).len() == next@.len());
                            assert forall|x: int| 0 <= x < next@.len() implies vecs_view(
                                next@,
                            )[x] == vecs_view(next_before).push(hgs_view(nt@))[x] by {
                                assert(vecs_view(next@)[x] == hgs_view(next@[x]@));
                                if x < next@.len() - 1 {
                                    assert(next@[x] == next_before[x]);
                                    assert(vecs_view(next_before)[x] == hgs_view(
                                        next_before[x]@,
                                    ));
                                } else {
                                    assert(next@[x] == nt);
                                }
                            }
                        }
                        assert(vecs_view(next@) =~= extend_all(tv.take(t as int), slot)
                            + extend_one(tv[t as int], slot.take(g as int + 1)));
                    }
                    g = g + 1;
                }
                proof {
                    assert(slot.take(sn as int) =~= slot);
                    assert(tv.take(t as int + 1) =~= tv.take(t as int).push(tv[t as int]));
                    lemma_extend_all_push(tv.take(t as int), tv[t as int], slot);
                    assert(vecs_view(next@) =~= extend_all(tv.take(t as int + 1), slot));
                }
                t = t + 1;
            }
            proof {
                assert(tv.take(tn as int) =~= tv);
                assert(vecs_view(next@) == extend_all(tv, slot));
            }
            tuples = next;
            i = i + 1;
        }
        let tn = tuples.len();
        let mut r: Vec<ExpressionSolution> = Vec::new();
        let mut t: usize = 0;
        proof {
            assert(vecs_view(tuples@).take(0) =~= Seq::empty());
            assert(sols_view(r@) =~= vecs_view(tuples@).take(0));
        }
        #[verifier::loop_isolation(false)]
        while t < tn
            invariant
                t <= tn,
                tn == tuples@.len(),
                sols_view(r@) == vecs_view(tuples@).take(t as int),
                forall|s: int|
                    0 <= s < r@.len() ==> fle_allows(*self, (#[trigger] r@[s]).homographs@),
                forall|x: int|
                    0 <= x < tuples@.len() ==> (#[trigger] tuples@[x])@.len() == n as int,
                forall|x: int, j: int|
                    0 <= x < tuples@.len() && 0 <= j < n ==> query_allows(
                        self.words@[j],
                        #[trigger] tuples@[x]@[j],
                    ),
            decreases tn - t,
        {
            let hs = crate::term_dict::clone_homographs(&tuples[t]);
            proof {
                let orig = tuples@[t as int]@;
                assert(hgs_view(hs@).len() == hgs_view(orig).len());
                assert forall|j: int| 0 <= j < n implies query_allows(
                    self.words@[j],
                    #[trigger] hs@[j],
                ) by {
                    assert(hgs_view(hs@)[j] == hg_view(hs@[j]));
                    assert(hgs_view(orig)[j] == hg_view(orig[j]));
                    lemma_query_allows_view(self.words@[j], orig[j], hs@[j]);
                }
            }
            let ghost r_before = r@;
            r.push(ExpressionSolution { homographs: hs });
            proof {
                assert(sols_view(r@) =~= vecs_view(tuples@).take(t as int + 1)) by {
                    assert(vecs_view(tuples@).take(t as int + 1) =~= vecs_view(
                        tuples@,
                    ).take(t as int).push(vecs_view(tuples@)[t as int]));
                    assert(sols_view(r@).len() == r@.len());
                    assert forall|x: int| 0 <= x < r@.len() implies sols_view(r@)[x]
                        == vecs_view(tuples@).take(t as int + 1)[x] by {
                        assert(sols_view(r@)[x] == hgs_view(r@[x].homographs@));
                        if x < r@.len() - 1 {
                            assert(r@[x] == r_before[x]);
                            assert(sols_view(r_before)[x] == hgs_view(
                                r_before[x].homographs@,
                            ));
                        } else {
                            assert(vecs_view(tuples@)[t as int] == hgs_view(
                                tuples@[t as int]@,
                            ));
                        }
                    }
                }
            }
            t = t + 1;
        }
        proof {
            assert(vecs_view(tuples@).take(tn as int) =~= vecs_view(tuples@));
        }
        r
    }

    /// Reorders an unordered tuple so that every slot is satisfied: the
    /// tuple unchanged when it already fits, else the first fitting
    /// arrangement.  The result holds the same multiset of texts.
    pub fn order_to_allow(&self, solution: ExpressionSolution) -> (r: Option<ExpressionSolution>)
        ensures
            fle_allows(*self, solution.homographs@) ==> (r matches Some(sol) && hgs_view(
                sol.homographs@,
            ) == hgs_view(solution.homographs@)),
            match r {
                Some(sol) => fle_allows(*self, sol.homographs@) && sol_texts(
                    sol.homographs@,
                ).to_multiset() == sol_texts(solution.homographs@).to_multiset() && hgs_view(
                    sol.homographs@,
                ).to_multiset() == hgs_view(solution.homographs@).to_multiset(),
                None => forall|p: Seq<int>|
                    !(#[trigger] arrangement_fits(*self, solution.homographs@, p)),
            },
    {
        let n = self.words.len();
        if solution.homographs.len() != n {
            proof {
                assert forall|p: Seq<int>| !(#[trigger] arrangement_fits(
                    *self,
                    solution.homographs@,
                    p,
                )) by {}
            }
            return None;
        }
        if self.allow(&solution) {
            let out = solution.clone();
            proof {
                let a = out.homographs@;
                let b = solution.homographs@;
                assert(hgs_view(a).len() == hgs_view(b).len());
                assert forall|j: int| 0 <= j < a.len() implies (#[trigger] sol_texts(a)[j])
                    == sol_texts(b)[j] by {
                    assert(hgs_view(a)[j] == hg_view(a[j]));
                    assert(hgs_view(b)[j] == hg_view(b[j]));
                    assert(sol_texts(a)[j] == a[j].text@);
                    assert(sol_texts(b)[j] == b[j].text@);
                }
                assert(sol_texts(a) =~= sol_texts(b));
                assert forall|j: int| 0 <= j < a.len() implies query_allows(
                    self.words@[j],
                    #[trigger] a[j],
                ) by {
                    assert(hgs_view(a)[j] == hg_view(a[j]));
                    assert(hgs_view(b)[j] == hg_view(b[j]));
                    lemma_query_allows_view(self.words@[j], b[j], a[j]);
                }
            }
            return Some(out);
        }
        let used: Vec<bool> = make_false_vec(n);
        let ghost u0 = used@;
        match self.search_assign(&solution.homographs, used, 0) {
            Some(perm) => {
                let mut hs: Vec<Homograph> = Vec::new();
                let pn = perm.len();
                let mut t: usize = 0;
                #[verifier::loop_isolation(false)]
                while t < pn
                    invariant
                        t <= pn,
                        pn == perm@.len(),
                        pn == self.words@.len(),
                        hs@.len() == t,
                        forall|j: int| 0 <= j < pn ==> (#[trigger] perm@[j]) < solution.homographs@.len(),
                        forall|j: int, h: Homograph|
                            0 <= j < pn ==> #[trigger] query_allows(self.words@[j], h)
                                == query_allows(
                                self.words@[j],
                                h,
                            ),
                        forall|j: int|
                            0 <= j < t ==> query_allows(self.words@[j], #[trigger] hs@[j]),
                        forall|j: int|
                            0 <= j < t ==> (#[trigger] hs@[j]).text@ == solution.homographs@[perm@[j] as int].text@,
                        forall|j: int|
                            0 <= j < t ==> hg_view(#[trigger] hs@[j]) == hg_view(
                                solution.homographs@[perm@[j] as int],
                            ),
                    decreases pn - t,
                {
                    let idx = perm[t];
                    let h = solution.homographs[idx].clone();
                    proof {
                        lemma_query_allows_view(
                            self.words@[t as int],
                            solution.homographs@[idx as int],
                            h,
                        );
                    }
                    hs.push(h);
                    t = t + 1;
                }
                let out = ExpressionSolution { homographs: hs };
                // The arrangement uses each word exactly once, so the text
                // multisets agree.
                proof {
                    let s = sol_texts(solution.homographs@);
                    let v = hgs_view(solution.homographs@);
                    let pi = Seq::new(perm@.len() as nat, |t: int| perm@[t] as int);
                    assert forall|t1: int, t2: int|
                        0 <= t1 < t2 < pi.len() implies pi[t1] != pi[t2] by {
                        assert(perm@[t1] != perm@[t2]);
                    }
                    lemma_permuted_picks_multiset(s, pi);
                    lemma_permuted_picks_multiset(v, pi);
                    assert(sol_texts(out.homographs@) =~= Seq::new(
                        pi.len() as nat,
                        |t: int| s[pi[t]],
                    ));
                    assert(hgs_view(out.homographs@) =~= Seq::new(
                        pi.len() as nat,
                        |t: int| v[pi[t]],
                    ));
                }
                Some(out)
            },
            None => {
                proof {
                    assert forall|p: Seq<int>| !(#[trigger] arrangement_fits(
                        *self,
                        solution.homographs@,
                        p,
                    )) by {
                        if arrangement_fits(*self, solution.homographs@, p) {
                            assert(assign_extends(self.words@, solution.homographs@, u0, 0, p));
                            assert(false);
                        }
                    }
                }
                None
            },
        }
    }

    /// Finds, slot by slot from `slot` on, indices of words that satisfy
    /// the remaining slots, never reusing an index.
    fn search_assign(&self, hs: &Vec<Homograph>, used: Vec<bool>, slot: usize) -> (r: Option<
        Vec<usize>,
    >)
        requires
            slot <= self.words@.len(),
            used@.len() == hs@.len(),
        ensures
            match r {
                Some(perm) => {
                    &&& perm@.len() == self.words@.len() - slot
                    &&& forall|t: int| 0 <= t < perm@.len() ==> (#[trigger] perm@[t]) < hs@.len()
                    &&& forall|t: int|
                        0 <= t < perm@.len() ==> query_allows(
                            self.words@[slot + t],
                            #[trigger] hs@[perm@[t] as int],
                        )
                    &&& forall|t: int| 0 <= t < perm@.len() ==> !used@[(#[trigger] perm@[t]) as int]
                    &&& forall|t1: int, t2: int|
                        0 <= t1 < t2 < perm@.len() ==> perm@[t1] != perm@[t2]
                },
                None => forall|p: Seq<int>|
                    !(#[trigger] assign_extends(self.words@, hs@, used@, slot as int, p)),
            },
        decreases self.words@.len() - slot,
    {
        let n = self.words.len();
        if slot == n {
            let empty: Vec<usize> = Vec::new();
            return Some(empty);
        }
        let hn = hs.len();
        let mut j: usize = 0;
        #[verifier::loop_isolation(false)]
        while j < hn
            invariant
                j <= hn,
                forall|p: Seq<int>|
                    #[trigger] assign_extends(self.words@, hs@, used@, slot as int, p) ==> p[0]
                        >= j,
            decreases hn - j,
        {
            if !used[j] && self.words[slot].allow(&hs[j]) {
                let mut used2 = clone_bools(&used);
                used2.set(j, true);
                let ghost u2 = used2@;
                match self.search_assign(hs, used2, slot + 1) {
                    Some(rest) => {
                        let mut perm: Vec<usize> = Vec::new();
                        perm.push(j);
                        let rn = rest.len();
                        let mut t: usize = 0;
                        #[verifier::loop_isolation(false)]
                        while t < rn
                            invariant
                                t <= rn,
                                rn == rest@.len(),
                                perm@.len() == t + 1,
                                perm@[0] == j,
                                forall|x: int| 0 <= x < t ==> perm@[x + 1] == rest@[x],
                            decreases rn - t,
                        {
                            perm.push(rest[t]);
                            t = t + 1;
                        }
                        proof {
                            assert forall|x: int| 0 <= x < perm@.len() implies (#[trigger] perm@[
                            x]) < hs@.len() && query_allows(
                                self.words@[slot + x],
                                hs@[perm@[x] as int],
                            ) by {
                                if x > 0 {
                                    assert(perm@[x] == rest@[x - 1]);
                                    assert(query_allows(
                                        self.words@[slot + 1 + (x - 1)],
                                        hs@[rest@[x - 1] as int],
                                    ));
                                }
                            }
                            assert forall|x: int| 0 <= x < perm@.len() implies !used@[(
                            #[trigger] perm@[x]) as int] by {
                                if x > 0 {
                                    assert(perm@[x] == rest@[x - 1]);
                                    assert(!u2[rest@[x - 1] as int]);
                                }
                            }
                            assert forall|x1: int, x2: int|
                                0 <= x1 < x2 < perm@.len() implies perm@[x1] != perm@[x2] by {
                                assert(perm@[x2] == rest@[x2 - 1]);
                                assert(!u2[rest@[x2 - 1] as int]);
                                if x1 > 0 {
                                    assert(perm@[x1] == rest@[x1 - 1]);
                                }
                            }
                        }
                        return Some(perm);
                    },
                    None => {
                        proof {
                            assert forall|p: Seq<int>| #[trigger] assign_extends(
                                self.words@,
                                hs@,
                                used@,
                                slot as int,
                                p,
                            ) implies p[0] >= j + 1 by {
                                if p[0] == j {
                                    let q = p.skip(1);
                                    assert forall|t: int| 0 <= t < q.len() implies 0 <= (
                                    #[trigger] q[t]) < hs@.len() && !u2[q[t]] by {
                                        assert(q[t] == p[t + 1]);
                                        assert(p[0] != p[t + 1]);
                                    }
                                    assert forall|t1: int, t2: int|
                                        0 <= t1 < t2 < q.len() implies q[t1] != q[t2] by {
                                        assert(q[t1] == p[t1 + 1]);
                                        assert(q[t2] == p[t2 + 1]);
                                    }
                                    assert forall|t: int| 0 <= t < q.len() implies query_allows(
                                        self.words@[slot + 1 + t],
                                        hs@[#[trigger] q[t]],
                                    ) by {
                                        assert(q[t] == p[t + 1]);
                                        assert(query_allows(
                                            self.words@[slot as int + (t + 1)],
                                            hs@[p[t + 1]],
                                        ));
                                    }
                                    assert(assign_extends(
                                        self.words@,
                                        hs@,
                                        u2,
                                        slot as int + 1,
                                        q,
                                    ));
                                    assert(false);
                                }
                            }
                        }
                    },
                }
            } else {
                proof {
                    assert forall|p: Seq<int>| #[trigger] assign_extends(
                        self.words@,
                        hs@,
                        used@,
                        slot as int,
                        p,
                    ) implies p[0] >= j + 1 by {
                        if p[0] == j {
                            assert(!used@[p[0]]);
                            assert(query_allows(self.words@[slot as int + 0], hs@[p[0]]));
                            assert(false);
                        }
                    }
                }
            }
            j = j + 1;
        }
        proof {
            assert forall|p: Seq<int>| !(#[trigger] assign_extends(
                self.words@,
                hs@,
                used@,
                slot as int,
                p,
            )) by {
                if assign_extends(self.words@, hs@, used@, slot as int, p) {
                    assert(p.len() > 0);
                    assert(0 <= p[0] < hs@.len());
                }
            }
        }
        None
    }

    /// Splits off the literal slots: the expression without them, the key
    /// of all their letters together, and the literals with their original
    /// positions.  Nothing exactly when there is no literal slot or the
    /// literals' letters do not fit a key.
    pub fn extract_literals(&self) -> (r: Option<
        (FixedLengthExpression, AnagramKey, Vec<(Homograph, usize)>),
    >)
        ensures
            (r is None) == (lit_texts_of(self.words@).len() == 0 || prime_product(
                texts_letters(lit_texts_of(self.words@)),
            ) > u128::MAX),
            match r {
                Some(parts) => {
                    &&& parts.2@.map_values(|p: (Homograph, usize)| p.0.text@) == lit_texts_of(
                        self.words@,
                    )
                    &&& parts.2@.map_values(|p: (Homograph, usize)| p.1 as int)
                        == lit_positions_of(self.words@)
                    &&& parts.1.inner == prime_product(texts_letters(lit_texts_of(self.words@)))
                    &&& parts.1.len == texts_letters(lit_texts_of(self.words@)).len()
                    &&& parts.2@.len() >= 1
                    &&& parts.0.words@.len() == nonlit_positions_of(self.words@).len()
                    &&& forall|t: int, h: Homograph|
                        0 <= t < parts.0.words@.len() ==> #[trigger] query_allows(
                            parts.0.words@[t],
                            h,
                        ) == query_allows(
                            self.words@[nonlit_positions_of(self.words@)[t]],
                            h,
                        )
                },
                None => true,
            },
    {
        let n = self.words.len();
        let mut literals: Vec<(Homograph, usize)> = Vec::new();
        let mut residue: Vec<WordQuery> = Vec::new();
        let mut combined = String::new();
        let mut i: usize = 0;
        proof {
            let lt = literals@.map_values(|p: (Homograph, usize)| p.0.text@);
            assert(self.words@.take(0) =~= Seq::<WordQuery>::empty());
            assert(lt =~= lit_texts_of(self.words@.take(0)));
            assert(literals@.map_values(|p: (Homograph, usize)| p.1 as int) =~= lit_positions_of(
                self.words@.take(0),
            ));
            assert(nonlit_positions_of(self.words@.take(0)) =~= Seq::<int>::empty());
            assert(texts_letters(Seq::<Seq<char>>::empty()) == Seq::<
                crate::character::Character,
            >::empty());
            assert(letters_of(combined@) =~= Seq::<crate::character::Character>::empty());
        }
        #[verifier::loop_isolation(false)]
        while i < n
            invariant
                i <= n,
                literals@.map_values(|p: (Homograph, usize)| p.0.text@) == lit_texts_of(
                    self.words@.take(i as int),
                ),
                literals@.map_values(|p: (Homograph, usize)| p.1 as int) == lit_positions_of(
                    self.words@.take(i as int),
                ),
                residue@.len() == nonlit_positions_of(self.words@.take(i as int)).len(),
                forall|t: int, h: Homograph|
                    0 <= t < residue@.len() ==> #[trigger] query_allows(residue@[t], h)
                        == query_allows(
                        self.words@[nonlit_positions_of(self.words@.take(i as int))[t]],
                        h,
                    ),
                letters_of(combined@) == texts_letters(
                    lit_texts_of(self.words@.take(i as int)),
                ),
            decreases n - i,
        {
            proof {
                lemma_lit_split_take(self.words@, i as int);
            }
            match self.words[i].as_literal() {
                Some(l) => {
                    let ghost before = literals@.map_values(|p: (Homograph, usize)| p.0.text@);
                    let ghost before_pos = literals@.map_values(
                        |p: (Homograph, usize)| p.1 as int,
                    );
                    let ghost ctext = combined@;
                    let lc = l.clone();
                    proof {
                        assert(lc.text@ == l.text@);
                    }
                    combined.append(lc.text.as_str());
                    literals.push((lc, i));
                    proof {
                        let after = literals@.map_values(|p: (Homograph, usize)| p.0.text@);
                        assert(after =~= before.push(l.text@));
                        assert(literals@.map_values(|p: (Homograph, usize)| p.1 as int)
                            =~= before_pos.push(i as int));
                        assert(after =~= lit_texts_of(self.words@.take(i as int + 1)));
                        assert(literals@.map_values(|p: (Homograph, usize)| p.1 as int)
                            =~= lit_positions_of(self.words@.take(i as int + 1)));
                        crate::solution::lemma_texts_letters_push(before, l.text@);
                        assert(texts_letters(before.push(l.text@)) =~= texts_letters(
                            lit_texts_of(self.words@.take(i as int + 1)),
                        ));
                        lemma_letters_of_concat(ctext, l.text@);
                        assert(nonlit_positions_of(self.words@.take(i as int + 1))
                            =~= nonlit_positions_of(self.words@.take(i as int)));
                    }
                },
                None => {
                    let ghost res_before = residue@;
                    let ghost np_before = nonlit_positions_of(self.words@.take(i as int));
                    residue.push(self.words[i].clone());
                    proof {
                        assert(nonlit_positions_of(self.words@.take(i as int + 1))
                            =~= np_before.push(i as int));
                        assert(lit_texts_of(self.words@.take(i as int + 1)) =~= lit_texts_of(
                            self.words@.take(i as int),
                        ));
                        assert(lit_positions_of(self.words@.take(i as int + 1))
                            =~= lit_positions_of(self.words@.take(i as int)));
                        let np = nonlit_positions_of(self.words@.take(i as int + 1));
                        assert forall|t: int, h: Homograph|
                            0 <= t < residue@.len() implies #[trigger] query_allows(
                            residue@[t],
                            h,
                        ) == query_allows(self.words@[np[t]], h) by {
                            if t < residue@.len() - 1 {
                                assert(residue@[t] == res_before[t]);
                                assert(np[t] == np_before[t]);
                            } else {
                                assert(np[t] == i as int);
                                assert(residue@[t] == residue@.last());
                            }
                        }
                    }
                },
            }
            i = i + 1;
        }
        proof {
            assert(self.words@.take(n as int) =~= self.words@);
        }
        if literals.len() == 0 {
            proof {
                assert(lit_texts_of(self.words@).len() == 0);
            }
            return None;
        }
        match AnagramKey::from_str(combined.as_str()) {
            Ok(key) => {
                proof {
                    assert(prime_product(texts_letters(lit_texts_of(self.words@)))
                        <= u128::MAX);
                }
                Some((FixedLengthExpression { words: residue }, key, literals))
            },
            Err(_) => None,
        }
    }

    /// Gives every literal slot its dictionary entry; what the expression
    /// allows does not change.
    pub fn upgrade_literals(&mut self, dict: &WordContext)
        ensures
            forall|hs: Seq<Homograph>|
                fle_allows(*final(self), hs) == fle_allows(*old(self), hs),
    {
        let n = self.words.len();
        let mut i: usize = 0;
        #[verifier::loop_isolation(false)]
        while i < n
            invariant
                n == self.words@.len(),
                i <= n,
                forall|j: int, h: Homograph|
                    0 <= j < n ==> #[trigger] query_allows(self.words@[j], h) == query_allows(
                        old(self).words@[j],
                        h,
                    ),
            decreases n - i,
        {
            let ghost before = self.words@;
            let mut w = self.words.remove(i);
            w.upgrade_literals(&dict.term_dict);
            self.words.insert(i, w);
            proof {
                assert(self.words@.len() == before.len());
                assert forall|j: int, h: Homograph|
                    0 <= j < n implies #[trigger] query_allows(self.words@[j], h)
                    == query_allows(old(self).words@[j], h) by {
                    if j != i {
                        assert(self.words@[j] == before[j]);
                    }
                }
            }
            i = i + 1;
        }
        proof {
            assert forall|hs: Seq<Homograph>|
                fle_allows(*self, hs) == fle_allows(*old(self), hs) by {
                if fle_allows(*self, hs) {
                    assert forall|j: int| 0 <= j < hs.len() implies query_allows(
                        old(self).words@[j],
                        #[trigger] hs[j],
                    ) by {
                        assert(query_allows(self.words@[j], hs[j]));
                    }
                }
                if fle_allows(*old(self), hs) {
                    assert forall|j: int| 0 <= j < hs.len() implies query_allows(
                        self.words@[j],
                        #[trigger] hs[j],
                    ) by {
                        assert(query_allows(old(self).words@[j], hs[j]));
                    }
                }
            }
        }
    }
}

/// The mirror of the slot-count fold: the product of slot solution counts
/// accumulated left to right, `None` as soon as it overflows.
pub open spec fn fle_count_from(
    ws: Seq<WordQuery>,
    dict: crate::term_dict::TermDict,
    i: int,
    acc: nat,
) -> Option<nat>
    decreases ws.len() - i,
{
    if i < 0 || i >= ws.len() {
        Some(acc)
    } else {
        let o = crate::word_query::query_solution_view(ws[i], dict).len();
        if acc * o > usize::MAX {
            None
        } else {
            fle_count_from(ws, dict, i + 1, acc * o)
        }
    }
}

proof fn lemma_fle_lit_chars_take(ws: Seq<WordQuery>, i: int)
    requires
        0 <= i <= ws.len(),
    ensures
        i < ws.len() ==> fle_lit_chars(ws.take(i + 1)) == fle_lit_chars(ws.take(i)) + (
        match crate::word_query::query_spec_as_literal(ws[i]) {
            Some(l) => l.text@.len(),
            None => 0nat,
        }),
    decreases ws.len() - i,
{
    if i < ws.len() {
        lemma_fle_lit_chars_snoc(ws.take(i + 1));
        assert(ws.take(i + 1).drop_last() =~= ws.take(i));
        assert(ws.take(i + 1).last() == ws[i]);
    }
}

proof fn lemma_fle_lit_chars_snoc(ws: Seq<WordQuery>)
    requires
        ws.len() > 0,
    ensures
        fle_lit_chars(ws) == fle_lit_chars(ws.drop_last()) + (
        match crate::word_query::query_spec_as_literal(ws.last()) {
            Some(l) => l.text@.len(),
            None => 0nat,
        }),
    decreases ws.len(),
{
    if ws.len() == 1 {
        assert(ws.drop_last() =~= Seq::<WordQuery>::empty());
        assert(ws.drop_first() =~= Seq::<WordQuery>::empty());
        assert(fle_lit_chars(Seq::<WordQuery>::empty()) == 0);
        assert(ws[0] == ws.last());
    } else {
        lemma_fle_lit_chars_snoc(ws.drop_first());
        assert(ws.drop_first().drop_last() =~= ws.drop_last().drop_first());
        assert(ws.drop_first().last() == ws.last());
        assert(ws.drop_last()[0] == ws[0]);
        assert(fle_lit_chars(ws.drop_last()) == (match crate::word_query::query_spec_as_literal(
            ws[0],
        ) {
            Some(l) => l.text@.len(),
            None => 0nat,
        }) + fle_lit_chars(ws.drop_last().drop_first()));
    }
}

/// A vector of `n` false flags.
/// An arrangement: distinct picks from the tuple, one per slot, each
/// fitting its slot.
pub open spec fn arrangement_fits(
    e: FixedLengthExpression,
    hs: Seq<Homograph>,
    p: Seq<int>,
) -> bool {
    &&& p.len() == e.words@.len()
    &&& hs.len() == e.words@.len()
    &&& forall|t: int| 0 <= t < p.len() ==> 0 <= #[trigger] p[t] < hs.len()
    &&& forall|t1: int, t2: int| 0 <= t1 < t2 < p.len() ==> p[t1] != p[t2]
    &&& forall|t: int| 0 <= t < p.len() ==> query_allows(e.words@[t], hs[#[trigger] p[t]])
}

/// A permutation of `n` positions: distinct in-range picks, one each.
pub open spec fn is_perm_of(p: Seq<int>, n: int) -> bool {
    &&& p.len() == n
    &&& forall|t: int| 0 <= t < p.len() ==> 0 <= #[trigger] p[t] < n
    &&& forall|t1: int, t2: int| 0 <= t1 < t2 < p.len() ==> p[t1] != p[t2]
}

/// The tuple rearranged by an index pick.
pub open spec fn picks_of(hs: Seq<Homograph>, p: Seq<int>) -> Seq<Homograph> {
    Seq::new(p.len() as nat, |t: int| hs[p[t]])
}

/// Rearranging a tuple by a permutation keeps the multiset of words.
pub proof fn lemma_picks_views(hs: Seq<Homograph>, p: Seq<int>)
    requires
        is_perm_of(p, hs.len() as int),
    ensures
        hgs_view(picks_of(hs, p)).to_multiset() == hgs_view(hs).to_multiset(),
        picks_of(hs, p).len() == hs.len(),
{
    let v = hgs_view(hs);
    lemma_permuted_picks_multiset(v, p);
    assert(hgs_view(picks_of(hs, p)) =~= Seq::new(p.len() as nat, |t: int| v[p[t]]));
}

/// Distinct picks, none yet used, filling the slots from `slot` on.
pub open spec fn assign_extends(
    words: Seq<WordQuery>,
    hs: Seq<Homograph>,
    used: Seq<bool>,
    slot: int,
    p: Seq<int>,
) -> bool {
    &&& p.len() == words.len() - slot
    &&& forall|t: int| 0 <= t < p.len() ==> 0 <= #[trigger] p[t] < hs.len() && !used[p[t]]
    &&& forall|t1: int, t2: int| 0 <= t1 < t2 < p.len() ==> p[t1] != p[t2]
    &&& forall|t: int| 0 <= t < p.len() ==> query_allows(words[slot + t], hs[#[trigger] p[t]])
}

/// Picking every index of a sequence exactly once, in any order, keeps
/// the multiset of elements.
pub proof fn lemma_permuted_picks_multiset<A>(s: Seq<A>, p: Seq<int>)
    requires
        p.len() == s.len(),
        forall|t: int| 0 <= t < p.len() ==> 0 <= #[trigger] p[t] < s.len(),
        forall|t1: int, t2: int| 0 <= t1 < t2 < p.len() ==> p[t1] != p[t2],
    ensures
        Seq::new(p.len() as nat, |t: int| s[p[t]]).to_multiset() == s.to_multiset(),
    decreases s.len(),
{
    broadcast use vstd::seq_lib::group_to_multiset_ensures;

    let picks = Seq::new(p.len() as nat, |t: int| s[p[t]]);
    if s.len() == 0 {
        assert(picks =~= Seq::<A>::empty());
        assert(s =~= Seq::<A>::empty());
        assert(picks.to_multiset() =~= s.to_multiset());
    } else {
        let n = s.len() as int;
        assert(exists|t: int| 0 <= t < n && #[trigger] p[t] == n - 1) by {
            if forall|t: int| 0 <= t < n ==> #[trigger] p[t] != n - 1 {
                assert(p.no_duplicates()) by {
                    assert forall|i: int, j: int|
                        (0 <= i < p.len() && 0 <= j < p.len() && i != j) implies p[i] != p[j] by {
                        if i < j {
                            assert(p[i] != p[j]);
                        } else {
                            assert(p[j] != p[i]);
                        }
                    }
                }
                p.unique_seq_to_set();
                vstd::set_lib::lemma_int_range(0, n - 1);
                assert(p.to_set().subset_of(vstd::set_lib::set_int_range(0, n - 1))) by {
                    assert forall|x: int| #[trigger] p.to_set().contains(x) implies 0 <= x < n
                        - 1 by {
                        let t = choose|t: int| 0 <= t < p.len() && p[t] == x;
                        assert(p[t] == x);
                    }
                }
                vstd::set_lib::lemma_len_subset(
                    p.to_set(),
                    vstd::set_lib::set_int_range(0, n - 1),
                );
                assert(false);
            }
        }
        let t0 = choose|t: int| 0 <= t < n && #[trigger] p[t] == n - 1;
        let s1 = s.take(n - 1);
        let p1 = p.remove(t0);
        assert forall|t: int| 0 <= t < p1.len() implies 0 <= #[trigger] p1[t] < n - 1 by {
            if t < t0 {
                assert(p1[t] == p[t]);
                if p[t] == n - 1 {
                    assert(p[t] == p[t0]);
                    assert(false);
                }
            } else {
                assert(p1[t] == p[t + 1]);
                if p[t + 1] == n - 1 {
                    assert(p[t0] == p[t + 1]);
                    assert(false);
                }
            }
        }
        assert forall|t1: int, t2: int| 0 <= t1 < t2 < p1.len() implies p1[t1] != p1[t2] by {
            let u1 = if t1 < t0 {
                t1
            } else {
                t1 + 1
            };
            let u2 = if t2 < t0 {
                t2
            } else {
                t2 + 1
            };
            assert(p1[t1] == p[u1]);
            assert(p1[t2] == p[u2]);
        }
        lemma_permuted_picks_multiset(s1, p1);
        let picks1 = Seq::new(p1.len() as nat, |t: int| s1[p1[t]]);
        assert(picks.remove(t0) =~= picks1);
        assert(picks.remove(t0).to_multiset() == picks.to_multiset().remove(picks[t0]));
        assert(picks[t0] == s[n - 1]);
        assert(picks.to_multiset().contains(picks[t0])) by {
            assert(picks.contains(picks[t0]));
        }
        assert(picks.to_multiset() =~= picks.to_multiset().remove(s[n - 1]).insert(s[n - 1]));
        assert(s =~= s1.push(s[n - 1]));
        assert(s.to_multiset() == s1.to_multiset().insert(s[n - 1]));
        assert(picks.to_multiset() == s.to_multiset());
    }
}

fn make_false_vec(n: usize) -> (r: Vec<bool>)
    ensures
        r@.len() == n,
        forall|i: int| 0 <= i < n ==> !r@[i],
{
    let mut v: Vec<bool> = Vec::new();
    let mut i: usize = 0;
    while i < n
        invariant
            v@.len() == i,
            i <= n,
            forall|x: int| 0 <= x < i ==> !v@[x],
        decreases n - i,
    {
        v.push(false);
        i = i + 1;
    }
    v
}

/// A copy of a vector of flags.
fn clone_bools(v: &Vec<bool>) -> (r: Vec<bool>)
    ensures
        r@ == v@,
{
    let n = v.len();
    let mut out: Vec<bool> = Vec::new();
    let mut i: usize = 0;
    while i < n
        invariant
            i <= n,
            n == v@.len(),
            out@ == v@.take(i as int),
        decreases n - i,
    {
        out.push(v[i]);
        proof {
            assert(out@ =~= v@.take(i as int + 1));
        }
        i = i + 1;
    }
    proof {
        assert(v@.take(n as int) =~= v@);
    }
    out
}

} // verus!
