//! A parsed query: a bare expression or an equation.

use vstd::prelude::*;

use crate::equation::{anagram_pair_ok, spec_too_difficult, spoon_solution_view, spoonerism_pair_ok, Equation};
use crate::expression::{expr_allows, Expression};
use crate::solution::QuestionSolution;
use crate::word_context::WordContext;

verus! {

#[derive(Debug)]
pub enum Question {
    Expression(Expression),
    Equation(Equation),
}

impl Clone for Question {
    fn clone(&self) -> (r: Self)
        ensures
            (r is Expression) == (*self is Expression),
    {
        match self {
            Question::Expression(e) => Question::Expression(e.clone()),
            Question::Equation(eq) => Question::Equation(eq.clone()),
        }
    }
}

impl Question {
    /// Every answer to the question: for a bare expression, exactly its
    /// solutions in order; for an equation, valid pairs.
    pub fn solve(&self, dict: &WordContext) -> (r: Vec<QuestionSolution>)
        requires
            dict.wf(),
        ensures
            *self matches Question::Expression(e) ==> (r@.len()
                == crate::expression::expr_solution_view(e, *dict).len() && forall|s: int|
                0 <= s < r@.len() ==> ((#[trigger] r@[s]) matches QuestionSolution::Expression(
                    es,
                ) && crate::term_dict::hgs_view(es.homographs@)
                    == crate::expression::expr_solution_view(e, *dict)[s])),
            forall|s: int|
                0 <= s < r@.len() ==> match #[trigger] r@[s] {
                    QuestionSolution::Expression(es) => *self matches Question::Expression(e)
                        && expr_allows(e, es.homographs@, dict.phrase_expressions@),
                    QuestionSolution::Anagram(a) => *self matches Question::Equation(eq) && (
                    eq.operator is Anagram && anagram_pair_ok(
                        eq.left,
                        eq.right,
                        a.left.homographs@,
                        a.right.homographs@,
                        dict.phrase_expressions@,
                    )),
                    QuestionSolution::Spoonerism(sp) => *self matches Question::Equation(eq) && (
                    eq.operator is Spoonerism && spoonerism_pair_ok(
                        eq.left,
                        eq.right,
                        sp.left.homographs@,
                        sp.right.homographs@,
                        dict.phrase_expressions@,
                        dict.term_dict,
                    )),
                },
            *self matches Question::Equation(eq) ==> (eq.operator is Spoonerism ==> r@.len()
                == spoon_solution_view(eq.left, eq.right, *dict).len() && forall|s: int|
                0 <= s < r@.len() ==> ((#[trigger] r@[s]) is Spoonerism
                    && crate::term_dict::hgs_view(r@[s]->Spoonerism_0.left.homographs@)
                    == spoon_solution_view(eq.left, eq.right, *dict)[s].0
                    && crate::term_dict::hgs_view(r@[s]->Spoonerism_0.right.homographs@)
                    == spoon_solution_view(eq.left, eq.right, *dict)[s].1)),
    {
        match self {
            Question::Expression(ex) => {
                let sols = ex.solve(dict);
                let n = sols.len();
                let mut out: Vec<QuestionSolution> = Vec::new();
                let mut i: usize = 0;
                #[verifier::loop_isolation(false)]
                while i < n
                    invariant
                        i <= n,
                        n == sols@.len(),
                        out@.len() == i,
                        forall|s: int|
                            0 <= s < out@.len() ==> ((#[trigger] out@[s]) matches
                                QuestionSolution::Expression(es)
                                && crate::term_dict::hgs_view(es.homographs@)
                                == crate::fixed_length_expression::sols_view(sols@)[s]),
                        forall|s: int|
                            0 <= s < out@.len() ==> match #[trigger] out@[s] {
                                QuestionSolution::Expression(es) => expr_allows(
                                    *ex,
                                    es.homographs@,
                                    dict.phrase_expressions@,
                                ),
                                QuestionSolution::Anagram(_) => false,
                                QuestionSolution::Spoonerism(_) => false,
                            },
                    decreases n - i,
                {
                    let es = sols[i].clone();
                    proof {
                        crate::expression::lemma_expr_allows_view(
                            *ex,
                            sols@[i as int].homographs@,
                            es.homographs@,
                            dict.phrase_expressions@,
                        );
                        assert(crate::fixed_length_expression::sols_view(sols@)[i as int]
                            == crate::term_dict::hgs_view(sols@[i as int].homographs@));
                    }
                    out.push(QuestionSolution::Expression(es));
                    i = i + 1;
                }
                out
            },
            Question::Equation(eq) => eq.solve(dict),
        }
    }

    /// Whether the cost gate refuses the question; a bare expression never
    /// is.
    pub fn is_too_difficult(&self, dict: &WordContext) -> (r: bool)
        requires
            dict.wf(),
        ensures
            r == match *self {
                Question::Expression(_) => false,
                Question::Equation(eq) => spec_too_difficult(eq, *dict),
            },
    {
        match self {
            Question::Expression(_) => false,
            Question::Equation(eq) => eq.is_too_difficult(dict),
        }
    }

    /// Gives every literal its dictionary entry; what the question's
    /// expressions allow does not change.
    pub fn upgrade_literals(&mut self, dict: &WordContext)
        ensures
            (*final(self) is Expression) == (*old(self) is Expression),
            *old(self) matches Question::Expression(e) ==> (*final(self) matches
                Question::Expression(e2) && forall|
                hs: Seq<crate::homograph::Homograph>,
                phrases: Seq<crate::fixed_length_expression::FixedLengthExpression>,
            |
                #[trigger] expr_allows(e2, hs, phrases) == expr_allows(e, hs, phrases)),
            *old(self) matches Question::Equation(eq) ==> (*final(self) matches
                Question::Equation(eq2) && eq2.operator == eq.operator && forall|
                hs: Seq<crate::homograph::Homograph>,
                phrases: Seq<crate::fixed_length_expression::FixedLengthExpression>,
            |
                #[trigger] expr_allows(eq2.left, hs, phrases) == expr_allows(eq.left, hs, phrases)
                    && expr_allows(eq2.right, hs, phrases) == expr_allows(
                    eq.right,
                    hs,
                    phrases,
                )),
    {
        match self {
            Question::Expression(e) => {
                e.upgrade_literals(dict);
            },
            Question::Equation(eq) => {
                eq.upgrade_literals(dict);
            },
        }
    }
}

} // verus!
