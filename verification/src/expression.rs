//! The two expression forms under one roof: a fixed-width slot expression
//! or a bounded unordered one.

use vstd::prelude::*;

use crate::anagram_settings::AnagramSettings;
use crate::fixed_length_expression::{fle_allows, fle_count_from, FixedLengthExpression};
use crate::homograph::Homograph;
use crate::many_expression::{me_allows, me_count_ok, me_count_options, ManyExpression};
use crate::solution::{sol_texts, ExpressionSolution};
use crate::word_context::WordContext;

verus! {

#[derive(Debug)]
pub enum Expression {
    Many(ManyExpression),
    FixedLength(FixedLengthExpression),
}

/// Whether a tuple fits the expression.
pub open spec fn expr_allows(
    e: Expression,
    hs: Seq<Homograph>,
    phrases: Seq<FixedLengthExpression>,
) -> bool {
    match e {
        Expression::Many(m) => me_allows(m, hs, phrases),
        Expression::FixedLength(f) => fle_allows(f, hs),
    }
}

/// Whether a tuple of this many words can fit the expression.
pub open spec fn expr_count_words_ok(e: Expression, n: nat) -> bool {
    match e {
        Expression::Many(m) => me_count_ok(m, n),
        Expression::FixedLength(f) => f.words@.len() == n,
    }
}

/// What `solve` returns, viewed: the cartesian product for a fixed-width
/// expression, the filtered catalogue solutions for a bounded one.
pub open spec fn expr_solution_view(e: Expression, dict: WordContext) -> Seq<
    Seq<
        (
            Seq<char>,
            bool,
            Seq<
                (
                    crate::homograph::PartOfSpeech,
                    crate::homograph::TagSet,
                    Option<Seq<char>>,
                ),
            >,
        ),
    >,
> {
    match e {
        Expression::Many(m) => crate::many_expression::me_solution_view(m, dict),
        Expression::FixedLength(f) => crate::fixed_length_expression::fle_solution_view(
            f,
            dict.term_dict,
        ),
    }
}

/// The expression's estimated solution count, `None` when unbounded or
/// overflowing.
pub open spec fn expr_count_options(e: Expression, dict: WordContext) -> Option<nat> {
    match e {
        Expression::Many(m) => me_count_options(m, dict),
        Expression::FixedLength(f) => if f.words@.len() == 0 {
            Some(0nat)
        } else {
            fle_count_from(f.words@, dict.term_dict, 0, 1)
        },
    }
}

/// Tuples that hold the same words fit the same expressions.
pub proof fn lemma_expr_allows_view(
    e: Expression,
    a: Seq<Homograph>,
    b: Seq<Homograph>,
    phrases: Seq<FixedLengthExpression>,
)
    requires
        crate::term_dict::hgs_view(a) == crate::term_dict::hgs_view(b),
    ensures
        expr_allows(e, a, phrases) == expr_allows(e, b, phrases),
{
    match e {
        Expression::Many(m) => {
            crate::many_expression::lemma_me_allows_view(m, a, b, phrases);
        },
        Expression::FixedLength(f) => {
            crate::many_expression::lemma_fle_allows_view(f, a, b);
        },
    }
}

impl Clone for Expression {
    fn clone(&self) -> (r: Self)
        ensures
            (r is Many) == (*self is Many),
            forall|hs: Seq<Homograph>, phrases: Seq<FixedLengthExpression>|
                #[trigger] expr_allows(r, hs, phrases) == expr_allows(*self, hs, phrases),
            forall|n: nat| #[trigger] expr_count_words_ok(r, n) == expr_count_words_ok(*self, n),
    {
        match self {
            Expression::Many(m) => {
                let r = Expression::Many(m.clone());
                proof {
                    assert forall|hs: Seq<Homograph>, phrases: Seq<FixedLengthExpression>|
                        #[trigger] expr_allows(r, hs, phrases) == expr_allows(
                        *self,
                        hs,
                        phrases,
                    ) by {
                        crate::many_expression::lemma_me_allows_terms(
                            r->Many_0,
                            *m,
                            hs,
                            phrases,
                        );
                    }
                }
                r
            },
            Expression::FixedLength(f) => {
                let r = Expression::FixedLength(f.clone());
                proof {
                    assert forall|hs: Seq<Homograph>, phrases: Seq<FixedLengthExpression>|
                        #[trigger] expr_allows(r, hs, phrases) == expr_allows(
                        *self,
                        hs,
                        phrases,
                    ) by {
                        let rf = r->FixedLength_0;
                        if fle_allows(rf, hs) {
                            assert forall|j: int|
                                0 <= j < hs.len() implies crate::word_query::query_allows(
                                f.words@[j],
                                #[trigger] hs[j],
                            ) by {
                                assert(crate::word_query::query_allows(rf.words@[j], hs[j]));
                            }
                        }
                        if fle_allows(*f, hs) {
                            assert forall|j: int|
                                0 <= j < hs.len() implies crate::word_query::query_allows(
                                rf.words@[j],
                                #[trigger] hs[j],
                            ) by {
                                assert(crate::word_query::query_allows(f.words@[j], hs[j]));
                            }
                        }
                    }
                }
                r
            },
        }
    }
}

impl Expression {
    /// Every tuple the expression stands for, exactly; each returned
    /// tuple fits it.
    pub fn solve(&self, dict: &WordContext) -> (r: Vec<ExpressionSolution>)
        requires
            dict.wf(),
        ensures
            crate::fixed_length_expression::sols_view(r@) == expr_solution_view(*self, *dict),
            forall|s: int|
                0 <= s < r@.len() ==> expr_allows(
                    *self,
                    (#[trigger] r@[s]).homographs@,
                    dict.phrase_expressions@,
                ),
    {
        match self {
            Expression::Many(m) => m.solve(dict),
            Expression::FixedLength(f) => f.solve(dict),
        }
    }

    pub fn allow(&self, dict: &WordContext, solution: &ExpressionSolution) -> (r: bool)
        ensures
            r == expr_allows(*self, solution.homographs@, dict.phrase_expressions@),
    {
        match self {
            Expression::Many(m) => m.allow(dict, solution),
            Expression::FixedLength(f) => f.allow(solution),
        }
    }

    pub fn allow_number_of_words(&self, n: usize) -> (r: bool)
        ensures
            r == expr_count_words_ok(*self, n as nat),
    {
        match self {
            Expression::Many(m) => m.allow_number_of_words(n),
            Expression::FixedLength(f) => f.allow_number_of_words(n),
        }
    }

    /// Reorders an unordered tuple to fit the expression; the result holds
    /// the same multiset of texts.
    pub fn order_to_allow(&self, dict: &WordContext, solution: ExpressionSolution) -> (r: Option<
        ExpressionSolution,
    >)
        ensures
            expr_allows(*self, solution.homographs@, dict.phrase_expressions@) ==> (r matches Some(
                sol,
            ) && crate::term_dict::hgs_view(sol.homographs@) == crate::term_dict::hgs_view(
                solution.homographs@,
            )),
            match r {
                Some(sol) => expr_allows(*self, sol.homographs@, dict.phrase_expressions@)
                    && sol_texts(sol.homographs@).to_multiset() == sol_texts(
                    solution.homographs@,
                ).to_multiset(),
                None => forall|p2: Seq<int>|
                    crate::fixed_length_expression::is_perm_of(
                        p2,
                        solution.homographs@.len() as int,
                    ) ==> !expr_allows(
                        *self,
                        #[trigger] crate::fixed_length_expression::picks_of(
                            solution.homographs@,
                            p2,
                        ),
                        dict.phrase_expressions@,
                    ),
            },
    {
        let ghost hs = solution.homographs@;
        match self {
            Expression::Many(m) => m.order_to_allow(dict, solution),
            Expression::FixedLength(f) => {
                let r = f.order_to_allow(solution);
                proof {
                    if r is None {
                        assert forall|p2: Seq<int>|
                            crate::fixed_length_expression::is_perm_of(
                                p2,
                                hs.len() as int,
                            ) implies !expr_allows(
                            *self,
                            #[trigger] crate::fixed_length_expression::picks_of(hs, p2),
                            dict.phrase_expressions@,
                        ) by {
                            let picks = crate::fixed_length_expression::picks_of(hs, p2);
                            if expr_allows(*self, picks, dict.phrase_expressions@) {
                                crate::many_expression::lemma_perm_fits_as_arrangement(
                                    *f,
                                    hs,
                                    hs,
                                    p2,
                                );
                                assert(false);
                            }
                        }
                    }
                }
                r
            },
        }
    }

    /// The enumerator settings the expression asks for.
    pub fn to_anagram_settings(&self, dict: &WordContext) -> (r: AnagramSettings)
        ensures
            r.min_word_length == 3,
            self matches Expression::FixedLength(f) ==> r.max_words == Some(
                f.words@.len() as usize,
            ),
    {
        match self {
            Expression::Many(m) => m.to_anagram_settings(dict),
            Expression::FixedLength(f) => f.to_anagram_settings(),
        }
    }

    /// The estimated solution count for the planner.
    pub fn count_options(&self, dict: &WordContext) -> (r: Option<usize>)
        requires
            dict.wf(),
        ensures
            match r {
                Some(c) => expr_count_options(*self, *dict) == Some(c as nat),
                None => expr_count_options(*self, *dict) is None,
            },
    {
        match self {
            Expression::Many(m) => m.count_options(dict),
            Expression::FixedLength(f) => {
                let r = f.count_options(dict);
                proof {
                    if f.words@.len() == 0 {
                        assert(r == Some(0usize));
                    }
                }
                r
            },
        }
    }

    /// Gives every literal its dictionary entry; what the expression allows
    /// does not change.
    pub fn upgrade_literals(&mut self, dict: &WordContext)
        ensures
            forall|hs: Seq<Homograph>, phrases: Seq<FixedLengthExpression>|
                #[trigger] expr_allows(*final(self), hs, phrases) == expr_allows(
                    *old(self),
                    hs,
                    phrases,
                ),
    {
        match self {
            Expression::Many(m) => {
                m.upgrade_literals(dict);
            },
            Expression::FixedLength(f) => {
                f.upgrade_literals(dict);
            },
        }
    }
}

} // verus!
