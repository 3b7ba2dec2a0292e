//! An expression over unordered tuples of a bounded width: every
//! constraint term must be met by some word of the tuple, and a `Phrase`
//! expression must additionally fit one of the catalogued skeletons.

use vstd::prelude::*;

use crate::anagram_settings::AnagramSettings;
use crate::fixed_length_expression::{fle_allows, FixedLengthExpression};
use crate::homograph::Homograph;
use crate::solution::{sol_texts, ExpressionSolution};
use crate::term_dict::{hg_view, hgs_view};
use crate::word_context::WordContext;
use crate::word_query::{lemma_query_allows_view, lemma_term_allows_view, query_allows, term_allows, WordQueryTerm};

verus! {

#[derive(Clone, Copy, PartialEq, Eq, Structural, Debug)]
pub enum ManyExpressionType {
    Any,
    Phrase,
}

#[derive(Debug)]
pub struct ManyExpression {
    pub t: ManyExpressionType,
    pub terms: Vec<WordQueryTerm>,
    pub min_words: usize,
    pub max_words: Option<usize>,
}

/// Whether a tuple of this many words fits the bounds.
pub open spec fn me_count_ok(e: ManyExpression, n: nat) -> bool {
    &&& e.min_words <= n
    &&& match e.max_words {
        Some(m) => n <= m,
        None => true,
    }
}

/// Whether some word of a tuple satisfies an atom.
pub open spec fn some_word_allows(t: WordQueryTerm, hs: Seq<Homograph>) -> bool {
    exists|hi: int| 0 <= hi < hs.len() && term_allows(t, #[trigger] hs[hi])
}

/// Whether every constraint term is met by some word of the tuple.
pub open spec fn me_terms_ok(e: ManyExpression, hs: Seq<Homograph>) -> bool {
    forall|ti: int| 0 <= ti < e.terms@.len() ==> some_word_allows(#[trigger] e.terms@[ti], hs)
}

/// Whether a tuple fits the expression: the bounds, every term, and for a
/// phrase one of the catalogued skeletons.
pub open spec fn me_allows(
    e: ManyExpression,
    hs: Seq<Homograph>,
    phrases: Seq<FixedLengthExpression>,
) -> bool {
    &&& me_count_ok(e, hs.len() as nat)
    &&& me_terms_ok(e, hs)
    &&& e.t is Phrase ==> exists|p: int|
        0 <= p < phrases.len() && fle_allows(#[trigger] phrases[p], hs)
}

/// Whether a tuple of word views fits the expression: some tuple of words
/// carrying these views does.  `me_allows` depends only on what the words
/// hold, so this is the same judgement lifted to views.
pub open spec fn me_allows_v(
    e: ManyExpression,
    hsv: Seq<
        (
            Seq<char>,
            bool,
            Seq<(crate::homograph::PartOfSpeech, crate::homograph::TagSet, Option<Seq<char>>)>,
        ),
    >,
    phrases: Seq<FixedLengthExpression>,
) -> bool {
    exists|hs: Seq<Homograph>| hgs_view(hs) == hsv && me_allows(e, hs, phrases)
}

/// The view-level filter an expression applies to candidate tuples.
pub open spec fn allowed_pred(e: ManyExpression, phrases: Seq<FixedLengthExpression>) -> spec_fn(
    Seq<
        (
            Seq<char>,
            bool,
            Seq<(crate::homograph::PartOfSpeech, crate::homograph::TagSet, Option<Seq<char>>)>,
        ),
    >,
) -> bool {
    |hsv: Seq<
        (
            Seq<char>,
            bool,
            Seq<(crate::homograph::PartOfSpeech, crate::homograph::TagSet, Option<Seq<char>>)>,
        ),
    >| me_allows_v(e, hsv, phrases)
}

/// The catalogue fold: each catalogued template's solutions, filtered by
/// the expression, appended in catalogue order.
pub open spec fn me_cat_fold(
    e: ManyExpression,
    dict: WordContext,
    cat: Seq<FixedLengthExpression>,
    c: int,
    acc: Seq<
        Seq<
            (
                Seq<char>,
                bool,
                Seq<(crate::homograph::PartOfSpeech, crate::homograph::TagSet, Option<Seq<char>>)>,
            ),
        >,
    >,
) -> Seq<
    Seq<
        (
            Seq<char>,
            bool,
            Seq<(crate::homograph::PartOfSpeech, crate::homograph::TagSet, Option<Seq<char>>)>,
        ),
    >,
>
    decreases cat.len() - c,
{
    if c < 0 || c >= cat.len() {
        acc
    } else {
        me_cat_fold(
            e,
            dict,
            cat,
            c + 1,
            acc + crate::fixed_length_expression::fle_solution_view(
                cat[c],
                dict.term_dict,
            ).filter(allowed_pred(e, dict.phrase_expressions@)),
        )
    }
}

/// What `solve` returns, viewed: the filtered solutions of every template
/// in the catalogue the expression draws from.
pub open spec fn me_solution_view(e: ManyExpression, dict: WordContext) -> Seq<
    Seq<
        (
            Seq<char>,
            bool,
            Seq<(crate::homograph::PartOfSpeech, crate::homograph::TagSet, Option<Seq<char>>)>,
        ),
    >,
> {
    let cat = match e.t {
        ManyExpressionType::Any => dict.many_any_expressions@,
        ManyExpressionType::Phrase => dict.phrase_expressions@,
    };
    me_cat_fold(e, dict, cat, 0, Seq::empty())
}

/// The longest skeleton's word count, zero when there are none.
pub open spec fn max_fle_len(phrases: Seq<FixedLengthExpression>) -> nat
    decreases phrases.len(),
{
    if phrases.len() == 0 {
        0
    } else {
        let rest = max_fle_len(phrases.drop_first());
        if phrases[0].words@.len() >= rest {
            phrases[0].words@.len() as nat
        } else {
            rest
        }
    }
}

impl Clone for ManyExpression {
    fn clone(&self) -> (r: Self)
        ensures
            r.t == self.t,
            r.min_words == self.min_words,
            r.max_words == self.max_words,
            r.terms@.len() == self.terms@.len(),
            forall|j: int, h: Homograph|
                0 <= j < r.terms@.len() ==> #[trigger] term_allows(r.terms@[j], h) == term_allows(
                    self.terms@[j],
                    h,
                ),
    {
        let n = self.terms.len();
        let mut terms: Vec<WordQueryTerm> = Vec::new();
        let mut i: usize = 0;
        #[verifier::loop_isolation(false)]
        while i < n
            invariant
                i <= n,
                terms@.len() == i,
                forall|j: int, h: Homograph|
                    0 <= j < i ==> #[trigger] term_allows(terms@[j], h) == term_allows(
                        self.terms@[j],
                        h,
                    ),
            decreases n - i,
        {
            terms.push(self.terms[i].clone());
            i = i + 1;
        }
        ManyExpression { t: self.t, terms, min_words: self.min_words, max_words: self.max_words }
    }
}

impl ManyExpression {
    /// Whether this many words fit the bounds.
    pub fn allow_number_of_words(&self, num_words: usize) -> (r: bool)
        ensures
            r == me_count_ok(*self, num_words as nat),
    {
        if self.min_words > num_words {
            return false;
        }
        match self.max_words {
            Some(max) => num_words <= max,
            None => true,
        }
    }

    /// Whether a tuple fits: bounds, every term, and for a phrase some
    /// skeleton.
    pub fn allow(&self, dict: &WordContext, solution: &ExpressionSolution) -> (r: bool)
        ensures
            r == me_allows(*self, solution.homographs@, dict.phrase_expressions@),
    {
        if !self.allow_number_of_words(solution.homographs.len()) {
            return false;
        }
        let tn = self.terms.len();
        let hn = solution.homographs.len();
        let mut ti: usize = 0;
        #[verifier::loop_isolation(false)]
        while ti < tn
            invariant
                ti <= tn,
                forall|j: int|
                    0 <= j < ti ==> some_word_allows(#[trigger] self.terms@[j], solution.homographs@),
            decreases tn - ti,
        {
            let mut found = false;
            let mut hi: usize = 0;
            #[verifier::loop_isolation(false)]
            while hi < hn && !found
                invariant
                    hi <= hn,
                    found ==> some_word_allows(self.terms@[ti as int], solution.homographs@),
                    !found ==> forall|k: int|
                        0 <= k < hi ==> !term_allows(
                            self.terms@[ti as int],
                            #[trigger] solution.homographs@[k],
                        ),
                decreases hn - hi + (if found {
                    0int
                } else {
                    1int
                }),
            {
                if self.terms[ti].allow(&solution.homographs[hi]) {
                    proof {
                        assert(0 <= hi < solution.homographs@.len() && term_allows(
                            self.terms@[ti as int],
                            solution.homographs@[hi as int],
                        ));
                    }
                    found = true;
                } else {
                    hi = hi + 1;
                }
            }
            if !found {
                proof {
                    if some_word_allows(self.terms@[ti as int], solution.homographs@) {
                        let w = choose|k: int|
                            0 <= k < solution.homographs@.len() && term_allows(
                                self.terms@[ti as int],
                                #[trigger] solution.homographs@[k],
                            );
                        assert(false);
                    }
                }
                return false;
            }
            ti = ti + 1;
        }
        if matches!(self.t, ManyExpressionType::Phrase) {
            let pn = dict.phrase_expressions.len();
            let mut p: usize = 0;
            #[verifier::loop_isolation(false)]
            while p < pn
                invariant
                    p <= pn,
                    forall|k: int|
                        0 <= k < p ==> !fle_allows(
                            #[trigger] dict.phrase_expressions@[k],
                            solution.homographs@,
                        ),
                decreases pn - p,
            {
                if dict.phrase_expressions[p].allow(solution) {
                    return true;
                }
                p = p + 1;
            }
            return false;
        }
        true
    }

    /// The longest literal term's character count; the planner prefers a
    /// literal-heavy side as consumer.
    pub fn count_literal_chars(&self) -> (r: usize)
        ensures
            r as nat == me_lit_chars(self.terms@),
    {
        let n = self.terms.len();
        let mut best: usize = 0;
        let mut i: usize = 0;
        proof {
            assert(self.terms@.take(0) =~= Seq::<WordQueryTerm>::empty());
        }
        #[verifier::loop_isolation(false)]
        while i < n
            invariant
                i <= n,
                best as nat == me_lit_chars(self.terms@.take(i as int)),
            decreases n - i,
        {
            proof {
                lemma_me_lit_chars_take(self.terms@, i as int);
            }
            match &self.terms[i] {
                WordQueryTerm::Literal(l) => {
                    let len = l.text.as_str().unicode_len();
                    if len > best {
                        best = len;
                    }
                },
                _ => {},
            }
            i = i + 1;
        }
        proof {
            assert(self.terms@.take(n as int) =~= self.terms@);
        }
        best
    }

    /// The enumerator settings: words of at least three letters; a phrase
    /// search is also capped by the longest skeleton.
    pub fn to_anagram_settings(&self, dict: &WordContext) -> (r: AnagramSettings)
        ensures
            r.min_word_length == 3,
            self.t is Any ==> r.max_words == self.max_words,
            self.t is Phrase ==> match self.max_words {
                None => r.max_words is None,
                Some(m) => r.max_words == Some(
                    (if m <= max_fle_len(dict.phrase_expressions@) {
                        m as nat
                    } else {
                        max_fle_len(dict.phrase_expressions@)
                    }) as usize,
                ),
            },
    {
        let max_words = match self.t {
            ManyExpressionType::Any => self.max_words,
            ManyExpressionType::Phrase => {
                match self.max_words {
                    None => None,
                    Some(m) => {
                        let cap = longest_fle(&dict.phrase_expressions);
                        Some(
                            if m <= cap {
                                m
                            } else {
                                cap
                            },
                        )
                    },
                }
            },
        };
        AnagramSettings { min_word_length: 3, max_words }
    }

    /// Every tuple from the catalogue this expression draws from that fits
    /// it: exactly each catalogued template's solutions, filtered by the
    /// expression itself, in catalogue order.
    pub fn solve(&self, dict: &WordContext) -> (r: Vec<ExpressionSolution>)
        requires
            dict.wf(),
        ensures
            crate::fixed_length_expression::sols_view(r@) == me_solution_view(*self, *dict),
            forall|s: int|
                0 <= s < r@.len() ==> me_allows(
                    *self,
                    (#[trigger] r@[s]).homographs@,
                    dict.phrase_expressions@,
                ),
    {
        let mut out: Vec<ExpressionSolution> = Vec::new();
        let catalogue = match self.t {
            ManyExpressionType::Any => &dict.many_any_expressions,
            ManyExpressionType::Phrase => &dict.phrase_expressions,
        };
        let ghost cat = catalogue@;
        let ghost pred = allowed_pred(*self, dict.phrase_expressions@);
        let cn = catalogue.len();
        let mut c: usize = 0;
        proof {
            assert(crate::fixed_length_expression::sols_view(out@) =~= Seq::empty());
        }
        #[verifier::loop_isolation(false)]
        while c < cn
            invariant
                c <= cn,
                cn == catalogue@.len(),
                cat == catalogue@,
                me_cat_fold(*self, *dict, cat, 0, Seq::empty()) == me_cat_fold(
                    *self,
                    *dict,
                    cat,
                    c as int,
                    crate::fixed_length_expression::sols_view(out@),
                ),
                forall|s: int|
                    0 <= s < out@.len() ==> me_allows(
                        *self,
                        (#[trigger] out@[s]).homographs@,
                        dict.phrase_expressions@,
                    ),
            decreases cn - c,
        {
            let sols = catalogue[c].solve(dict);
            let ghost slot_views = crate::fixed_length_expression::sols_view(sols@);
            let ghost acc_c = crate::fixed_length_expression::sols_view(out@);
            proof {
                assert(slot_views == crate::fixed_length_expression::fle_solution_view(
                    cat[c as int],
                    dict.term_dict,
                ));
                reveal(Seq::filter);
                assert(slot_views.take(0) =~= Seq::empty());
                assert(acc_c + slot_views.take(0).filter(pred) =~= acc_c);
            }
            let sn = sols.len();
            let mut s: usize = 0;
            #[verifier::loop_isolation(false)]
            while s < sn
                invariant
                    s <= sn,
                    sn == sols@.len(),
                    slot_views == crate::fixed_length_expression::sols_view(sols@),
                    crate::fixed_length_expression::sols_view(out@) == acc_c + slot_views.take(
                        s as int,
                    ).filter(pred),
                    forall|x: int|
                        0 <= x < out@.len() ==> me_allows(
                            *self,
                            (#[trigger] out@[x]).homographs@,
                            dict.phrase_expressions@,
                        ),
                decreases sn - s,
            {
                proof {
                    reveal(Seq::filter);
                    assert(slot_views.take(s as int + 1).drop_last() =~= slot_views.take(
                        s as int,
                    ));
                    assert(slot_views.take(s as int + 1).last() == slot_views[s as int]);
                    assert(slot_views[s as int] == hgs_view(sols@[s as int].homographs@));
                }
                if self.allow(dict, &sols[s]) {
                    let ghost out_before = out@;
                    out.push(sols[s].clone());
                    proof {
                        let a = out@.last().homographs@;
                        let b = sols@[s as int].homographs@;
                        assert(hgs_view(a).len() == hgs_view(b).len());
                        lemma_me_allows_view(*self, b, a, dict.phrase_expressions@);
                        // The view passes the view-level filter: this very
                        // tuple witnesses it.
                        assert(pred(slot_views[s as int])) by {
                            assert(hgs_view(b) == slot_views[s as int]);
                            assert(me_allows(*self, b, dict.phrase_expressions@));
                        }
                        assert(slot_views.take(s as int + 1).filter(pred) =~= slot_views.take(
                            s as int,
                        ).filter(pred).push(slot_views[s as int]));
                        assert(crate::fixed_length_expression::sols_view(out@)
                            =~= crate::fixed_length_expression::sols_view(out_before).push(
                            hgs_view(a),
                        )) by {
                            assert(crate::fixed_length_expression::sols_view(out@).len()
                                == out@.len());
                            assert forall|x: int|
                                0 <= x < out@.len() implies crate::fixed_length_expression::sols_view(
                                out@,
                            )[x] == crate::fixed_length_expression::sols_view(out_before).push(
                                hgs_view(a),
                            )[x] by {
                                assert(crate::fixed_length_expression::sols_view(out@)[x]
                                    == hgs_view(out@[x].homographs@));
                                if x < out@.len() - 1 {
                                    assert(out@[x] == out_before[x]);
                                    assert(crate::fixed_length_expression::sols_view(
                                        out_before,
                                    )[x] == hgs_view(out_before[x].homographs@));
                                }
                            }
                        }
                        assert(hgs_view(a) == slot_views[s as int]);
                        assert(crate::fixed_length_expression::sols_view(out@) =~= acc_c
                            + slot_views.take(s as int + 1).filter(pred));
                    }
                } else {
                    proof {
                        // No tuple carrying this view fits: any witness
                        // would fit this very tuple by view congruence.
                        assert(!pred(slot_views[s as int])) by {
                            if me_allows_v(*self, slot_views[s as int], dict.phrase_expressions@) {
                                let hs = choose|hs: Seq<Homograph>|
                                    hgs_view(hs) == slot_views[s as int] && me_allows(
                                        *self,
                                        hs,
                                        dict.phrase_expressions@,
                                    );
                                lemma_me_allows_view(
                                    *self,
                                    hs,
                                    sols@[s as int].homographs@,
                                    dict.phrase_expressions@,
                                );
                                assert(false);
                            }
                        }
                        assert(slot_views.take(s as int + 1).filter(pred) =~= slot_views.take(
                            s as int,
                        ).filter(pred));
                    }
                }
                s = s + 1;
            }
            proof {
                assert(slot_views.take(sn as int) =~= slot_views);
                assert(me_cat_fold(*self, *dict, cat, c as int, acc_c) == me_cat_fold(
                    *self,
                    *dict,
                    cat,
                    c as int + 1,
                    acc_c + slot_views.filter(pred),
                ));
            }
            c = c + 1;
        }
        out
    }

    /// Reorders an unordered tuple to fit: the bounds and terms checked as
    /// they stand, a phrase additionally rearranged to fit some skeleton.
    /// The result holds the same multiset of texts.
    pub fn order_to_allow(&self, dict: &WordContext, solution: ExpressionSolution) -> (r: Option<
        ExpressionSolution,
    >)
        ensures
            me_allows(*self, solution.homographs@, dict.phrase_expressions@) ==> (r matches Some(
                sol,
            ) && hgs_view(sol.homographs@) == hgs_view(solution.homographs@)),
            match r {
                Some(sol) => me_allows(*self, sol.homographs@, dict.phrase_expressions@)
                    && sol_texts(sol.homographs@).to_multiset() == sol_texts(
                    solution.homographs@,
                ).to_multiset(),
                None => forall|p2: Seq<int>|
                    crate::fixed_length_expression::is_perm_of(
                        p2,
                        solution.homographs@.len() as int,
                    ) ==> !me_allows(
                        *self,
                        #[trigger] crate::fixed_length_expression::picks_of(
                            solution.homographs@,
                            p2,
                        ),
                        dict.phrase_expressions@,
                    ),
            },
    {
        if self.allow(dict, &solution) {
            let out = solution.clone();
            proof {
                let a = out.homographs@;
                let b = solution.homographs@;
                assert(hgs_view(a).len() == hgs_view(b).len());
                assert forall|j: int| 0 <= j < a.len() implies (#[trigger] sol_texts(a)[j])
                    == sol_texts(b)[j] by {
                    assert(hgs_view(a)[j] == hg_view(a[j]));
                    assert(hgs_view(b)[j] == hg_view(b[j]));
                }
                assert(sol_texts(a) =~= sol_texts(b));
                lemma_me_allows_view(
                    *self,
                    solution.homographs@,
                    out.homographs@,
                    dict.phrase_expressions@,
                );
            }
            return Some(out);
        }
        // The tuple does not fit as it stands; only a phrase can mend it
        // by rearranging the words into a skeleton.
        match self.t {
            ManyExpressionType::Any => {
                proof {
                    let hs = solution.homographs@;
                    assert forall|p2: Seq<int>|
                        crate::fixed_length_expression::is_perm_of(
                            p2,
                            hs.len() as int,
                        ) implies !me_allows(
                        *self,
                        #[trigger] crate::fixed_length_expression::picks_of(hs, p2),
                        dict.phrase_expressions@,
                    ) by {
                        let picks = crate::fixed_length_expression::picks_of(hs, p2);
                        if me_allows(*self, picks, dict.phrase_expressions@) {
                            crate::fixed_length_expression::lemma_picks_views(hs, p2);
                            lemma_me_terms_multiset(*self, picks, hs);
                            assert(me_allows(*self, hs, dict.phrase_expressions@));
                            assert(false);
                        }
                    }
                }
                return None;
            },
            ManyExpressionType::Phrase => {},
        }
        let pn = dict.phrase_expressions.len();
        let mut p: usize = 0;
        #[verifier::loop_isolation(false)]
        while p < pn
            invariant
                p <= pn,
                pn == dict.phrase_expressions@.len(),
                forall|p2: Seq<int>, k: int|
                    crate::fixed_length_expression::is_perm_of(
                        p2,
                        solution.homographs@.len() as int,
                    ) && 0 <= k < p ==> !(me_allows(
                        *self,
                        crate::fixed_length_expression::picks_of(solution.homographs@, p2),
                        dict.phrase_expressions@,
                    ) && #[trigger] fle_allows(
                        dict.phrase_expressions@[k],
                        crate::fixed_length_expression::picks_of(solution.homographs@, p2),
                    )),
            decreases pn - p,
        {
            let copy = ExpressionSolution {
                homographs: crate::term_dict::clone_homographs(&solution.homographs),
            };
            let ghost cv = copy.homographs@;
            proof {
                let a = copy.homographs@;
                let b = solution.homographs@;
                assert(hgs_view(a).len() == hgs_view(b).len());
                assert forall|j: int| 0 <= j < a.len() implies (#[trigger] sol_texts(a)[j])
                    == sol_texts(b)[j] by {
                    assert(hgs_view(a)[j] == hg_view(a[j]));
                    assert(hgs_view(b)[j] == hg_view(b[j]));
                }
                assert(sol_texts(a) =~= sol_texts(b));
            }
            match dict.phrase_expressions[p].order_to_allow(copy) {
                Some(re) => {
                    if self.allow(dict, &re) {
                        return Some(re);
                    }
                    proof {
                        lemma_step_skeleton_blocked(
                            *self,
                            solution.homographs@,
                            cv,
                            re.homographs@,
                            dict.phrase_expressions@,
                            p as int,
                        );
                    }
                },
                None => {
                    proof {
                        let hs = solution.homographs@;
                        assert forall|p2: Seq<int>|
                            crate::fixed_length_expression::is_perm_of(
                                p2,
                                hs.len() as int,
                            ) implies !(#[trigger] fle_allows(
                            dict.phrase_expressions@[p as int],
                            crate::fixed_length_expression::picks_of(hs, p2),
                        )) by {
                            let picks = crate::fixed_length_expression::picks_of(hs, p2);
                            if fle_allows(dict.phrase_expressions@[p as int], picks) {
                                lemma_perm_fits_as_arrangement(
                                    dict.phrase_expressions@[p as int],
                                    hs,
                                    cv,
                                    p2,
                                );
                                assert(false);
                            }
                        }
                    }
                },
            }
            p = p + 1;
        }
        proof {
            let hs = solution.homographs@;
            assert forall|p2: Seq<int>|
                crate::fixed_length_expression::is_perm_of(p2, hs.len() as int) implies !me_allows(
                *self,
                #[trigger] crate::fixed_length_expression::picks_of(hs, p2),
                dict.phrase_expressions@,
            ) by {
                let picks = crate::fixed_length_expression::picks_of(hs, p2);
                if me_allows(*self, picks, dict.phrase_expressions@) {
                    let k = choose|k: int|
                        0 <= k < dict.phrase_expressions@.len() && fle_allows(
                            #[trigger] dict.phrase_expressions@[k],
                            picks,
                        );
                    assert(fle_allows(dict.phrase_expressions@[k], picks));
                    assert(false);
                }
            }
        }
        None
    }

    /// Gives every literal term its dictionary entry; what the expression
    /// allows does not change.
    pub fn upgrade_literals(&mut self, dict: &WordContext)
        ensures
            final(self).t == old(self).t,
            final(self).min_words == old(self).min_words,
            final(self).max_words == old(self).max_words,
            forall|hs: Seq<Homograph>, phrases: Seq<FixedLengthExpression>|
                #[trigger] me_allows(*final(self), hs, phrases) == me_allows(
                    *old(self),
                    hs,
                    phrases,
                ),
    {
        let n = self.terms.len();
        let mut i: usize = 0;
        #[verifier::loop_isolation(false)]
        while i < n
            invariant
                n == self.terms@.len(),
                i <= n,
                self.t == old(self).t,
                self.min_words == old(self).min_words,
                self.max_words == old(self).max_words,
                forall|j: int, h: Homograph|
                    0 <= j < n ==> #[trigger] term_allows(self.terms@[j], h) == term_allows(
                        old(self).terms@[j],
                        h,
                    ),
            decreases n - i,
        {
            let ghost before = self.terms@;
            let mut t = self.terms.remove(i);
            t.upgrade_literals(&dict.term_dict);
            self.terms.insert(i, t);
            proof {
                assert(self.terms@.len() == before.len());
                assert forall|j: int, h: Homograph|
                    0 <= j < n implies #[trigger] term_allows(self.terms@[j], h) == term_allows(
                    old(self).terms@[j],
                    h,
                ) by {
                    if j != i {
                        assert(self.terms@[j] == before[j]);
                    }
                }
            }
            i = i + 1;
        }
        proof {
            assert forall|hs: Seq<Homograph>, phrases: Seq<FixedLengthExpression>|
                #[trigger] me_allows(*self, hs, phrases) == me_allows(
                *old(self),
                hs,
                phrases,
            ) by {
                assert(me_terms_ok(*self, hs) == me_terms_ok(*old(self), hs)) by {
                    if me_terms_ok(*self, hs) {
                        assert forall|ti: int|
                            0 <= ti < old(self).terms@.len() implies some_word_allows(
                            #[trigger] old(self).terms@[ti],
                            hs,
                        ) by {
                            assert(some_word_allows(self.terms@[ti], hs));
                            let w = choose|hi: int|
                                0 <= hi < hs.len() && term_allows(
                                    self.terms@[ti],
                                    #[trigger] hs[hi],
                                );
                            assert(0 <= w < hs.len() && term_allows(
                                old(self).terms@[ti],
                                hs[w],
                            ));
                        }
                    }
                    if me_terms_ok(*old(self), hs) {
                        assert forall|ti: int|
                            0 <= ti < self.terms@.len() implies some_word_allows(
                            #[trigger] self.terms@[ti],
                            hs,
                        ) by {
                            assert(some_word_allows(old(self).terms@[ti], hs));
                            let w = choose|hi: int|
                                0 <= hi < hs.len() && term_allows(
                                    old(self).terms@[ti],
                                    #[trigger] hs[hi],
                                );
                            assert(0 <= w < hs.len() && term_allows(self.terms@[ti], hs[w]));
                        }
                    }
                }
            }
        }
    }
}

/// Tuples that hold the same words fit the same many-expressions.
/// A permutation of a tuple that fits a skeleton makes that permutation
/// an arrangement of any tuple holding the same words in the same order.
pub proof fn lemma_perm_fits_as_arrangement(
    f: FixedLengthExpression,
    hs: Seq<Homograph>,
    cv: Seq<Homograph>,
    p2: Seq<int>,
)
    requires
        hgs_view(cv) == hgs_view(hs),
        crate::fixed_length_expression::is_perm_of(p2, hs.len() as int),
        fle_allows(f, crate::fixed_length_expression::picks_of(hs, p2)),
    ensures
        crate::fixed_length_expression::arrangement_fits(f, cv, p2),
{
    let picks = crate::fixed_length_expression::picks_of(hs, p2);
    assert(hgs_view(cv).len() == cv.len());
    assert(hgs_view(hs).len() == hs.len());
    assert(picks.len() == f.words@.len());
    assert forall|t: int| 0 <= t < p2.len() implies query_allows(
        f.words@[t],
        cv[#[trigger] p2[t]],
    ) by {
        assert(picks[t] == hs[p2[t]]);
        assert(query_allows(f.words@[t], picks[t]));
        assert(hgs_view(cv)[p2[t]] == hg_view(cv[p2[t]]));
        assert(hgs_view(hs)[p2[t]] == hg_view(hs[p2[t]]));
        lemma_query_allows_view(f.words@[t], hs[p2[t]], cv[p2[t]]);
    }
}

/// A rearranged tuple the skeleton accepts but the expression refuses
/// blocks every permutation that fits the same skeleton.
proof fn lemma_step_skeleton_blocked(
    e: ManyExpression,
    hs: Seq<Homograph>,
    cv: Seq<Homograph>,
    rv: Seq<Homograph>,
    phrases: Seq<FixedLengthExpression>,
    k: int,
)
    requires
        0 <= k < phrases.len(),
        hgs_view(cv) == hgs_view(hs),
        fle_allows(phrases[k], rv),
        hgs_view(rv).to_multiset() == hgs_view(cv).to_multiset(),
        !me_allows(e, rv, phrases),
    ensures
        forall|p2: Seq<int>|
            crate::fixed_length_expression::is_perm_of(p2, hs.len() as int) ==> !(me_allows(
                e,
                crate::fixed_length_expression::picks_of(hs, p2),
                phrases,
            ) && #[trigger] fle_allows(
                phrases[k],
                crate::fixed_length_expression::picks_of(hs, p2),
            )),
{
    broadcast use vstd::seq_lib::group_to_multiset_ensures;

    assert forall|p2: Seq<int>|
        crate::fixed_length_expression::is_perm_of(p2, hs.len() as int) implies !(me_allows(
        e,
        crate::fixed_length_expression::picks_of(hs, p2),
        phrases,
    ) && #[trigger] fle_allows(
        phrases[k],
        crate::fixed_length_expression::picks_of(hs, p2),
    )) by {
        let picks = crate::fixed_length_expression::picks_of(hs, p2);
        if me_allows(e, picks, phrases) && fle_allows(phrases[k], picks) {
            crate::fixed_length_expression::lemma_picks_views(hs, p2);
            assert(hgs_view(picks).to_multiset() == hgs_view(rv).to_multiset());
            lemma_me_terms_multiset(e, picks, rv);
            assert(hgs_view(rv).to_multiset().len() == hgs_view(picks).to_multiset().len());
            assert(hgs_view(rv).len() == rv.len());
            assert(hgs_view(picks).len() == picks.len());
            assert(rv.len() == picks.len());
            assert(me_count_ok(e, rv.len() as nat));
            assert(me_allows(e, rv, phrases));
            assert(false);
        }
    }
}

/// The bounds and terms judge only which words a tuple holds: tuples
/// holding the same words, in any order, agree on every term.
pub proof fn lemma_me_terms_multiset(e: ManyExpression, a: Seq<Homograph>, b: Seq<Homograph>)
    requires
        hgs_view(a).to_multiset() == hgs_view(b).to_multiset(),
        me_terms_ok(e, a),
    ensures
        me_terms_ok(e, b),
{
    broadcast use vstd::seq_lib::group_to_multiset_ensures;

    assert(hgs_view(a).len() == a.len());
    assert(hgs_view(b).len() == b.len());
    assert forall|ti: int| 0 <= ti < e.terms@.len() implies some_word_allows(
        #[trigger] e.terms@[ti],
        b,
    ) by {
        let t = e.terms@[ti];
        let hi = choose|hi: int| 0 <= hi < a.len() && term_allows(t, #[trigger] a[hi]);
        assert(hgs_view(a)[hi] == hg_view(a[hi]));
        assert(hgs_view(a).contains(hg_view(a[hi])));
        assert(hgs_view(a).to_multiset().count(hg_view(a[hi])) > 0);
        assert(hgs_view(b).contains(hg_view(a[hi])));
        let j = choose|j: int|
            0 <= j < hgs_view(b).len() && #[trigger] hgs_view(b)[j] == hg_view(a[hi]);
        assert(hgs_view(b)[j] == hg_view(b[j]));
        lemma_term_allows_view(t, a[hi], b[j]);
        assert(term_allows(t, b[j]));
    }
}

pub proof fn lemma_me_allows_view(
    e: ManyExpression,
    a: Seq<Homograph>,
    b: Seq<Homograph>,
    phrases: Seq<FixedLengthExpression>,
)
    requires
        hgs_view(a) == hgs_view(b),
    ensures
        me_allows(e, a, phrases) == me_allows(e, b, phrases),
{
    assert(hgs_view(a).len() == a.len());
    assert(hgs_view(b).len() == b.len());
    assert forall|j: int| 0 <= j < a.len() implies hg_view(#[trigger] a[j]) == hg_view(b[j]) by {
        assert(hgs_view(a)[j] == hg_view(a[j]));
        assert(hgs_view(b)[j] == hg_view(b[j]));
    }
    assert(me_terms_ok(e, a) == me_terms_ok(e, b)) by {
        if me_terms_ok(e, a) {
            assert forall|ti: int| 0 <= ti < e.terms@.len() implies some_word_allows(
                #[trigger] e.terms@[ti],
                b,
            ) by {
                assert(some_word_allows(e.terms@[ti], a));
                let w = choose|hi: int|
                    0 <= hi < a.len() && term_allows(e.terms@[ti], #[trigger] a[hi]);
                lemma_term_allows_view(e.terms@[ti], a[w], b[w]);
                assert(0 <= w < b.len() && term_allows(e.terms@[ti], b[w]));
            }
        }
        if me_terms_ok(e, b) {
            assert forall|ti: int| 0 <= ti < e.terms@.len() implies some_word_allows(
                #[trigger] e.terms@[ti],
                a,
            ) by {
                assert(some_word_allows(e.terms@[ti], b));
                let w = choose|hi: int|
                    0 <= hi < b.len() && term_allows(e.terms@[ti], #[trigger] b[hi]);
                lemma_term_allows_view(e.terms@[ti], b[w], a[w]);
                assert(0 <= w < a.len() && term_allows(e.terms@[ti], a[w]));
            }
        }
    }
    assert forall|p: int| 0 <= p < phrases.len() implies #[trigger] fle_allows(phrases[p], a)
        == fle_allows(phrases[p], b) by {
        lemma_fle_allows_view(phrases[p], a, b);
    }
    if me_allows(e, a, phrases) && e.t is Phrase {
        let w = choose|p: int| 0 <= p < phrases.len() && fle_allows(#[trigger] phrases[p], a);
        assert(fle_allows(phrases[w], b));
    }
    if me_allows(e, b, phrases) && e.t is Phrase {
        let w = choose|p: int| 0 <= p < phrases.len() && fle_allows(#[trigger] phrases[p], b);
        assert(fle_allows(phrases[w], a));
    }
}

/// Tuples that hold the same words fit the same fixed-width expressions.
pub proof fn lemma_fle_allows_view(e: FixedLengthExpression, a: Seq<Homograph>, b: Seq<Homograph>)
    requires
        hgs_view(a) == hgs_view(b),
    ensures
        fle_allows(e, a) == fle_allows(e, b),
{
    assert(hgs_view(a).len() == a.len());
    assert(hgs_view(b).len() == b.len());
    assert forall|j: int|
        0 <= j < a.len() implies #[trigger] crate::word_query::query_allows(e.words@[j], a[j])
        == crate::word_query::query_allows(e.words@[j], b[j]) by {
        assert(hgs_view(a)[j] == hg_view(a[j]));
        assert(hgs_view(b)[j] == hg_view(b[j]));
        crate::word_query::lemma_query_allows_view(e.words@[j], a[j], b[j]);
    }
    if fle_allows(e, a) {
        assert forall|j: int| 0 <= j < b.len() implies crate::word_query::query_allows(
            e.words@[j],
            #[trigger] b[j],
        ) by {
            assert(crate::word_query::query_allows(e.words@[j], a[j]));
        }
    }
    if fle_allows(e, b) {
        assert forall|j: int| 0 <= j < a.len() implies crate::word_query::query_allows(
            e.words@[j],
            #[trigger] a[j],
        ) by {
            assert(crate::word_query::query_allows(e.words@[j], b[j]));
        }
    }
}

impl ManyExpressionType {
    /// Whether a tuple fits the form alone: any tuple for `Any`, a tuple
    /// matching some catalogued skeleton for `Phrase`.
    pub fn allow(&self, dict: &WordContext, solution: &ExpressionSolution) -> (r: bool)
        ensures
            r == match *self {
                ManyExpressionType::Any => true,
                ManyExpressionType::Phrase => exists|p: int|
                    0 <= p < dict.phrase_expressions@.len() && fle_allows(
                        #[trigger] dict.phrase_expressions@[p],
                        solution.homographs@,
                    ),
            },
    {
        match self {
            ManyExpressionType::Any => true,
            ManyExpressionType::Phrase => {
                let pn = dict.phrase_expressions.len();
                let mut p: usize = 0;
                #[verifier::loop_isolation(false)]
                while p < pn
                    invariant
                        p <= pn,
                        forall|k: int|
                            0 <= k < p ==> !fle_allows(
                                #[trigger] dict.phrase_expressions@[k],
                                solution.homographs@,
                            ),
                    decreases pn - p,
                {
                    if dict.phrase_expressions[p].allow(solution) {
                        return true;
                    }
                    p = p + 1;
                }
                false
            },
        }
    }
}

/// Many-expressions with atom-for-atom equal terms fit the same tuples.
pub proof fn lemma_me_allows_terms(
    e1: ManyExpression,
    e2: ManyExpression,
    hs: Seq<Homograph>,
    phrases: Seq<FixedLengthExpression>,
)
    requires
        e1.t == e2.t,
        e1.min_words == e2.min_words,
        e1.max_words == e2.max_words,
        e1.terms@.len() == e2.terms@.len(),
        forall|j: int, h: Homograph|
            0 <= j < e1.terms@.len() ==> #[trigger] term_allows(e1.terms@[j], h) == term_allows(
                e2.terms@[j],
                h,
            ),
    ensures
        me_allows(e1, hs, phrases) == me_allows(e2, hs, phrases),
{
    assert(me_terms_ok(e1, hs) == me_terms_ok(e2, hs)) by {
        if me_terms_ok(e1, hs) {
            assert forall|ti: int| 0 <= ti < e2.terms@.len() implies some_word_allows(
                #[trigger] e2.terms@[ti],
                hs,
            ) by {
                assert(some_word_allows(e1.terms@[ti], hs));
                let w = choose|hi: int|
                    0 <= hi < hs.len() && term_allows(e1.terms@[ti], #[trigger] hs[hi]);
                assert(0 <= w < hs.len() && term_allows(e2.terms@[ti], hs[w]));
            }
        }
        if me_terms_ok(e2, hs) {
            assert forall|ti: int| 0 <= ti < e1.terms@.len() implies some_word_allows(
                #[trigger] e1.terms@[ti],
                hs,
            ) by {
                assert(some_word_allows(e2.terms@[ti], hs));
                let w = choose|hi: int|
                    0 <= hi < hs.len() && term_allows(e2.terms@[ti], #[trigger] hs[hi]);
                assert(0 <= w < hs.len() && term_allows(e1.terms@[ti], hs[w]));
            }
        }
    }
}

/// A power accumulated by repeated multiplication, `None` once it passes
/// the machine bound.
pub open spec fn pow_acc(b: nat, k: nat, acc: nat) -> Option<nat>
    decreases k,
{
    if k == 0 {
        Some(acc)
    } else if acc * b > usize::MAX {
        None
    } else {
        pow_acc(b, (k - 1) as nat, acc * b)
    }
}

/// The wildcard count: for each admitted width below the cap, one word
/// choice per slot, summed; `None` on overflow.
pub open spec fn many_any_count(b: nat, p: nat, maxw: nat, acc: nat) -> Option<nat>
    decreases (if p <= maxw {
        maxw - p
    } else {
        0
    }) as nat,
{
    if p >= maxw {
        Some(acc)
    } else {
        match pow_acc(b, p, 1) {
            None => None,
            Some(s) => if acc + s > usize::MAX {
                None
            } else {
                many_any_count(b, p + 1, maxw, acc + s)
            },
        }
    }
}

/// The phrase count: admitted skeletons' counts summed; `None` as soon as
/// a skeleton's count or the sum is unbounded.
pub open spec fn many_phrase_count(
    e: ManyExpression,
    phrases: Seq<FixedLengthExpression>,
    dict: crate::term_dict::TermDict,
    i: int,
    acc: nat,
) -> Option<nat>
    decreases phrases.len() - i,
{
    if i < 0 || i >= phrases.len() {
        Some(acc)
    } else if !me_count_ok(e, phrases[i].words@.len() as nat) {
        many_phrase_count(e, phrases, dict, i + 1, acc)
    } else {
        let cnt = if phrases[i].words@.len() == 0 {
            Some(0nat)
        } else {
            crate::fixed_length_expression::fle_count_from(phrases[i].words@, dict, 0, 1)
        };
        match cnt {
            None => None,
            Some(c) => if acc + c > usize::MAX {
                None
            } else {
                many_phrase_count(e, phrases, dict, i + 1, acc + c)
            },
        }
    }
}

/// The expression's estimated solution count.
pub open spec fn me_count_options(e: ManyExpression, dict: WordContext) -> Option<nat> {
    match e.t {
        ManyExpressionType::Any => match e.max_words {
            None => None,
            Some(mx) => many_any_count(
                dict.term_dict.homographs@.len() as nat,
                e.min_words as nat,
                mx as nat,
                0,
            ),
        },
        ManyExpressionType::Phrase => many_phrase_count(
            e,
            dict.phrase_expressions@,
            dict.term_dict,
            0,
            0,
        ),
    }
}

impl ManyExpression {
    /// The estimated solution count: widths times word choices for the
    /// wildcard form, admitted skeleton counts summed for the phrase form;
    /// `None` when unbounded or overflowing.
    pub fn count_options(&self, dict: &WordContext) -> (r: Option<usize>)
        requires
            dict.wf(),
        ensures
            match r {
                Some(c) => me_count_options(*self, *dict) == Some(c as nat),
                None => me_count_options(*self, *dict) is None,
            },
    {
        match self.t {
            ManyExpressionType::Any => {
                let mx = match self.max_words {
                    None => {
                        return None;
                    },
                    Some(mx) => mx,
                };
                let b = dict.term_dict.homographs.len();
                let mut acc: usize = 0;
                let mut p: usize = self.min_words;
                #[verifier::loop_isolation(false)]
                while p < mx
                    invariant
                        many_any_count(b as nat, self.min_words as nat, mx as nat, 0)
                            == many_any_count(b as nat, p as nat, mx as nat, acc as nat),
                    decreases mx - p,
                {
                    let mut s: usize = 1;
                    let mut k: usize = 0;
                    #[verifier::loop_isolation(false)]
                    while k < p
                        invariant
                            k <= p,
                            pow_acc(b as nat, p as nat, 1) == pow_acc(
                                b as nat,
                                (p - k) as nat,
                                s as nat,
                            ),
                        decreases p - k,
                    {
                        s = match s.checked_mul(b) {
                            Some(x) => x,
                            None => {
                                return None;
                            },
                        };
                        k = k + 1;
                    }
                    acc = match acc.checked_add(s) {
                        Some(x) => x,
                        None => {
                            return None;
                        },
                    };
                    p = p + 1;
                }
                Some(acc)
            },
            ManyExpressionType::Phrase => {
                let pn = dict.phrase_expressions.len();
                let mut acc: usize = 0;
                let mut i: usize = 0;
                #[verifier::loop_isolation(false)]
                while i < pn
                    invariant
                        i <= pn,
                        many_phrase_count(*self, dict.phrase_expressions@, dict.term_dict, 0, 0)
                            == many_phrase_count(
                            *self,
                            dict.phrase_expressions@,
                            dict.term_dict,
                            i as int,
                            acc as nat,
                        ),
                    decreases pn - i,
                {
                    let pe = &dict.phrase_expressions[i];
                    if self.allow_number_of_words(pe.words.len()) {
                        let c = match pe.count_options(dict) {
                            Some(c) => c,
                            None => {
                                return None;
                            },
                        };
                        acc = match acc.checked_add(c) {
                            Some(x) => x,
                            None => {
                                return None;
                            },
                        };
                    }
                    i = i + 1;
                }
                Some(acc)
            },
        }
    }
}

/// The longest literal among constraint terms, zero when none.
pub open spec fn me_lit_chars(ts: Seq<WordQueryTerm>) -> nat
    decreases ts.len(),
{
    if ts.len() == 0 {
        0
    } else {
        let rest = me_lit_chars(ts.drop_last());
        match ts.last() {
            WordQueryTerm::Literal(l) => if l.text@.len() >= rest {
                l.text@.len() as nat
            } else {
                rest
            },
            _ => rest,
        }
    }
}

proof fn lemma_me_lit_chars_take(ts: Seq<WordQueryTerm>, i: int)
    requires
        0 <= i < ts.len(),
    ensures
        me_lit_chars(ts.take(i + 1)) == (match ts[i] {
            WordQueryTerm::Literal(l) => if l.text@.len() >= me_lit_chars(ts.take(i)) {
                l.text@.len() as nat
            } else {
                me_lit_chars(ts.take(i))
            },
            _ => me_lit_chars(ts.take(i)),
        }),
{
    assert(ts.take(i + 1).drop_last() =~= ts.take(i));
    assert(ts.take(i + 1).last() == ts[i]);
}

/// The word count of the longest catalogued skeleton.
fn longest_fle(phrases: &Vec<FixedLengthExpression>) -> (r: usize)
    ensures
        r as nat == max_fle_len(phrases@),
{
    let n = phrases.len();
    let mut best: usize = 0;
    let mut i: usize = n;
    #[verifier::loop_isolation(false)]
    while i > 0
        invariant
            i <= n,
            n == phrases@.len(),
            best as nat == max_fle_len(phrases@.skip(i as int)),
        decreases i,
    {
        i = i - 1;
        proof {
            assert(phrases@.skip(i as int)[0] == phrases@[i as int]);
            assert(phrases@.skip(i as int).drop_first() =~= phrases@.skip(i as int + 1));
        }
        let len = phrases[i].words.len();
        if len > best {
            best = len;
        }
    }
    proof {
        assert(phrases@.skip(0) =~= phrases@);
    }
    best
}

} // verus!
