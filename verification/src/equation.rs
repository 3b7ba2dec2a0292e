//! The equation solver: anagram equations pair tuples of equal letter
//! multisets, spoonerism equations swap leading letters of two-word
//! tuples.  The planner fixes the cheaper side as generator, subtracts
//! literal slots from the search key before entering the enumerator, and
//! refuses equations whose both sides are too large.

use vstd::prelude::*;
use vstd::multiset::Multiset;

use crate::anagram_key::{letters_of, prime_product, AnagramKey};
use crate::expression::{expr_allows, expr_count_options, expr_count_words_ok, Expression};
use crate::fixed_length_expression::FixedLengthExpression;
use crate::homograph::Homograph;
use crate::solution::{
    lemma_letters_of_join, lemma_texts_letters_concat, lemma_texts_letters_permutation,
    sol_texts, texts_letters, AnagramSolution, ExpressionSolution, QuestionSolution,
    SpoonerismSolution,
};
use crate::word_context::WordContext;

verus! {

#[derive(Clone, Copy, PartialEq, Eq, Structural, Debug)]
pub enum EqualityOperator {
    Anagram,
    Spoonerism,
}

#[derive(Debug)]
pub struct Equation {
    pub left: Expression,
    pub operator: EqualityOperator,
    pub right: Expression,
}

/// The cost gate: an equation is refused only when both sides are larger
/// than this.
pub const EASY_OPTIONS: usize = 100000;

/// What makes a valid anagram answer to `l =a r`: the left tuple fits `l`,
/// the right fits `r`, both hold the same letters — equal prime products
/// and equal letter counts — and the two sides are not the same words.
pub open spec fn anagram_pair_ok(
    l: Expression,
    r: Expression,
    lh: Seq<Homograph>,
    rh: Seq<Homograph>,
    phrases: Seq<FixedLengthExpression>,
) -> bool {
    &&& expr_allows(l, lh, phrases)
    &&& expr_allows(r, rh, phrases)
    &&& prime_product(texts_letters(sol_texts(lh))) == prime_product(texts_letters(sol_texts(rh)))
    &&& texts_letters(sol_texts(lh)).len() == texts_letters(sol_texts(rh)).len()
    &&& sol_texts(lh).to_multiset() != sol_texts(rh).to_multiset()
}

/// What makes a valid spoonerism answer to `l =s r`: two words a side,
/// the right words are the left words with leading letters swapped and are
/// themselves dictionary entries, both sides fit their expressions, and
/// the pair is not unchanged.
pub open spec fn spoonerism_pair_ok(
    l: Expression,
    r: Expression,
    lh: Seq<Homograph>,
    rh: Seq<Homograph>,
    phrases: Seq<FixedLengthExpression>,
    td: crate::term_dict::TermDict,
) -> bool {
    &&& expr_allows(l, lh, phrases)
    &&& expr_allows(r, rh, phrases)
    &&& lh.len() == 2
    &&& rh.len() == 2
    &&& lh[0].text@.len() >= 1 && lh[1].text@.len() >= 1
    &&& rh[0].text@ == seq![lh[1].text@[0]] + lh[0].text@.skip(1)
    &&& rh[1].text@ == seq![lh[0].text@[0]] + lh[1].text@.skip(1)
    &&& crate::term_dict::index_of_text(
        crate::term_dict::hgs_view(td.homographs@),
        rh[0].text@,
    ) >= 0
    &&& crate::term_dict::index_of_text(
        crate::term_dict::hgs_view(td.homographs@),
        rh[1].text@,
    ) >= 0
    &&& sol_texts(lh).to_multiset() != sol_texts(rh).to_multiset()
}

/// The roles in a valid anagram answer swap with the sides: an answer to
/// `l =a r` flipped is an answer to `r =a l`.
pub proof fn lemma_anagram_symmetry(
    l: Expression,
    r: Expression,
    lh: Seq<Homograph>,
    rh: Seq<Homograph>,
    phrases: Seq<FixedLengthExpression>,
)
    ensures
        anagram_pair_ok(l, r, lh, rh, phrases) == anagram_pair_ok(r, l, rh, lh, phrases),
{
}

/// An expression's estimated option count, unbounded counts pinned to the
/// machine maximum.
pub open spec fn count_or_max(e: Expression, dict: WordContext) -> nat {
    match expr_count_options(e, dict) {
        Some(c) => c,
        None => usize::MAX as nat,
    }
}

/// Whether the cost gate refuses the equation: an anagram whose both
/// sides pass the threshold.
pub open spec fn spec_too_difficult(eq: Equation, dict: WordContext) -> bool {
    match eq.operator {
        EqualityOperator::Spoonerism => false,
        EqualityOperator::Anagram => count_or_max(eq.left, dict) > EASY_OPTIONS as nat
            && count_or_max(eq.right, dict) > EASY_OPTIONS as nat,
    }
}

impl Clone for Equation {
    fn clone(&self) -> (r: Self)
        ensures
            r.operator == self.operator,
            forall|hs: Seq<Homograph>, phrases: Seq<FixedLengthExpression>|
                #[trigger] expr_allows(r.left, hs, phrases) == expr_allows(
                    self.left,
                    hs,
                    phrases,
                ),
            forall|hs: Seq<Homograph>, phrases: Seq<FixedLengthExpression>|
                #[trigger] expr_allows(r.right, hs, phrases) == expr_allows(
                    self.right,
                    hs,
                    phrases,
                ),
    {
        Equation { left: self.left.clone(), operator: self.operator, right: self.right.clone() }
    }
}

impl Equation {
    /// Whether the cost gate refuses this equation: both sides beyond the
    /// threshold.  A spoonerism is never refused.
    pub fn is_too_difficult(&self, dict: &WordContext) -> (r: bool)
        requires
            dict.wf(),
        ensures
            r == spec_too_difficult(*self, *dict),
    {
        match self.operator {
            EqualityOperator::Spoonerism => false,
            EqualityOperator::Anagram => {
                let left_options = match self.left.count_options(dict) {
                    Some(c) => c,
                    None => usize::MAX,
                };
                if left_options <= EASY_OPTIONS {
                    return false;
                }
                let right_options = match self.right.count_options(dict) {
                    Some(c) => c,
                    None => usize::MAX,
                };
                right_options > EASY_OPTIONS
            },
        }
    }

    /// Every answer to the equation.  Each anagram answer pairs tuples of
    /// the very same letters, one side fitting each expression, never the
    /// same words on both sides; each spoonerism answer swaps the leading
    /// letters of a two-word tuple into dictionary words.
    pub fn solve(&self, dict: &WordContext) -> (r: Vec<QuestionSolution>)
        requires
            dict.wf(),
        ensures
            forall|s: int|
                0 <= s < r@.len() ==> match #[trigger] r@[s] {
                    QuestionSolution::Anagram(a) => self.operator is Anagram && anagram_pair_ok(
                        self.left,
                        self.right,
                        a.left.homographs@,
                        a.right.homographs@,
                        dict.phrase_expressions@,
                    ),
                    QuestionSolution::Spoonerism(sp) => self.operator is Spoonerism
                        && spoonerism_pair_ok(
                        self.left,
                        self.right,
                        sp.left.homographs@,
                        sp.right.homographs@,
                        dict.phrase_expressions@,
                        dict.term_dict,
                    ),
                    QuestionSolution::Expression(_) => false,
                },
            self.operator is Spoonerism ==> r@.len() == spoon_solution_view(
                self.left,
                self.right,
                *dict,
            ).len() && forall|i: int|
                0 <= i < r@.len() ==> (#[trigger] r@[i]) is Spoonerism
                    && crate::term_dict::hgs_view(r@[i]->Spoonerism_0.left.homographs@)
                    == spoon_solution_view(self.left, self.right, *dict)[i].0
                    && crate::term_dict::hgs_view(r@[i]->Spoonerism_0.right.homographs@)
                    == spoon_solution_view(self.left, self.right, *dict)[i].1,
    {
        let mut out: Vec<QuestionSolution> = Vec::new();
        match self.operator {
            EqualityOperator::Anagram => {
                let sols = self.solve_as_anagram(dict);
                let n = sols.len();
                let mut i: usize = 0;
                #[verifier::loop_isolation(false)]
                while i < n
                    invariant
                        i <= n,
                        n == sols@.len(),
                        forall|s: int|
                            0 <= s < out@.len() ==> match #[trigger] out@[s] {
                                QuestionSolution::Anagram(a) => self.operator is Anagram
                                    && anagram_pair_ok(
                                    self.left,
                                    self.right,
                                    a.left.homographs@,
                                    a.right.homographs@,
                                    dict.phrase_expressions@,
                                ),
                                QuestionSolution::Spoonerism(_) => false,
                                QuestionSolution::Expression(_) => false,
                            },
                    decreases n - i,
                {
                    let a = sols[i].clone();
                    proof {
                        let orig = sols@[i as int];
                        crate::expression::lemma_expr_allows_view(
                            self.left,
                            orig.left.homographs@,
                            a.left.homographs@,
                            dict.phrase_expressions@,
                        );
                        crate::expression::lemma_expr_allows_view(
                            self.right,
                            orig.right.homographs@,
                            a.right.homographs@,
                            dict.phrase_expressions@,
                        );
                        lemma_sol_texts_view(orig.left.homographs@, a.left.homographs@);
                        lemma_sol_texts_view(orig.right.homographs@, a.right.homographs@);
                    }
                    out.push(QuestionSolution::Anagram(a));
                    i = i + 1;
                }
            },
            EqualityOperator::Spoonerism => {
                let sols = solve_spoonerism(&self.left, &self.right, dict);
                let n = sols.len();
                let mut i: usize = 0;
                proof {
                    assert(spoon_views(sols@).len() == n);
                }
                #[verifier::loop_isolation(false)]
                while i < n
                    invariant
                        i <= n,
                        n == sols@.len(),
                        out@.len() == i,
                        forall|j: int|
                            0 <= j < i ==> (#[trigger] out@[j]) is Spoonerism
                                && crate::term_dict::hgs_view(
                                out@[j]->Spoonerism_0.left.homographs@,
                            ) == spoon_views(sols@)[j].0 && crate::term_dict::hgs_view(
                                out@[j]->Spoonerism_0.right.homographs@,
                            ) == spoon_views(sols@)[j].1,
                        forall|s: int|
                            0 <= s < out@.len() ==> match #[trigger] out@[s] {
                                QuestionSolution::Spoonerism(sp) => self.operator is Spoonerism
                                    && spoonerism_pair_ok(
                                    self.left,
                                    self.right,
                                    sp.left.homographs@,
                                    sp.right.homographs@,
                                    dict.phrase_expressions@,
                                    dict.term_dict,
                                ),
                                QuestionSolution::Anagram(_) => false,
                                QuestionSolution::Expression(_) => false,
                            },
                    decreases n - i,
                {
                    let sp = sols[i].clone();
                    proof {
                        let orig = sols@[i as int];
                        crate::expression::lemma_expr_allows_view(
                            self.left,
                            orig.left.homographs@,
                            sp.left.homographs@,
                            dict.phrase_expressions@,
                        );
                        crate::expression::lemma_expr_allows_view(
                            self.right,
                            orig.right.homographs@,
                            sp.right.homographs@,
                            dict.phrase_expressions@,
                        );
                        lemma_sol_texts_view(orig.left.homographs@, sp.left.homographs@);
                        lemma_sol_texts_view(orig.right.homographs@, sp.right.homographs@);
                        lemma_hg_text_view(orig.left.homographs@, sp.left.homographs@, 0);
                        lemma_hg_text_view(orig.left.homographs@, sp.left.homographs@, 1);
                        lemma_hg_text_view(orig.right.homographs@, sp.right.homographs@, 0);
                        lemma_hg_text_view(orig.right.homographs@, sp.right.homographs@, 1);
                        assert(spoon_views(sols@)[i as int] == (
                            crate::term_dict::hgs_view(orig.left.homographs@),
                            crate::term_dict::hgs_view(orig.right.homographs@),
                        ));
                    }
                    out.push(QuestionSolution::Spoonerism(sp));
                    i = i + 1;
                }
            },
        }
        out
    }

    /// Plans and runs the anagram search: the side with fewer options
    /// generates, the other consumes; when the right side generated, each
    /// answer is flipped back.
    fn solve_as_anagram(&self, dict: &WordContext) -> (r: Vec<AnagramSolution>)
        requires
            dict.wf(),
        ensures
            forall|s: int|
                0 <= s < r@.len() ==> anagram_pair_ok(
                    self.left,
                    self.right,
                    (#[trigger] r@[s]).left.homographs@,
                    r@[s].right.homographs@,
                    dict.phrase_expressions@,
                ),
    {
        let left_options = match self.left.count_options(dict) {
            Some(c) => c,
            None => usize::MAX,
        };
        if left_options == 0 {
            return Vec::new();
        }
        let right_options = match self.right.count_options(dict) {
            Some(c) => c,
            None => usize::MAX,
        };
        if right_options == 0 {
            return Vec::new();
        }
        let left_first = if left_options < right_options {
            true
        } else if left_options > right_options {
            false
        } else {
            match (&self.left, &self.right) {
                (Expression::Many(l), Expression::Many(rr)) => l.terms.len() >= rr.terms.len(),
                (Expression::Many(_), Expression::FixedLength(_)) => true,
                (Expression::FixedLength(_), Expression::Many(_)) => false,
                (Expression::FixedLength(l), Expression::FixedLength(rr)) => {
                    l.count_literal_chars() <= rr.count_literal_chars()
                },
            }
        };
        if left_first {
            solve_anagram(&self.left, &self.right, dict)
        } else {
            let sols = solve_anagram(&self.right, &self.left, dict);
            let n = sols.len();
            let mut out: Vec<AnagramSolution> = Vec::new();
            let mut i: usize = 0;
            #[verifier::loop_isolation(false)]
            while i < n
                invariant
                    i <= n,
                    n == sols@.len(),
                    forall|s: int|
                        0 <= s < out@.len() ==> anagram_pair_ok(
                            self.left,
                            self.right,
                            (#[trigger] out@[s]).left.homographs@,
                            out@[s].right.homographs@,
                            dict.phrase_expressions@,
                        ),
                decreases n - i,
            {
                let flipped = sols[i].clone().flip();
                proof {
                    let orig = sols@[i as int];
                    lemma_anagram_symmetry(
                        self.right,
                        self.left,
                        orig.left.homographs@,
                        orig.right.homographs@,
                        dict.phrase_expressions@,
                    );
                    crate::expression::lemma_expr_allows_view(
                        self.left,
                        orig.right.homographs@,
                        flipped.left.homographs@,
                        dict.phrase_expressions@,
                    );
                    crate::expression::lemma_expr_allows_view(
                        self.right,
                        orig.left.homographs@,
                        flipped.right.homographs@,
                        dict.phrase_expressions@,
                    );
                    lemma_sol_texts_view(orig.right.homographs@, flipped.left.homographs@);
                    lemma_sol_texts_view(orig.left.homographs@, flipped.right.homographs@);
                }
                out.push(flipped);
                i = i + 1;
            }
            out
        }
    }

    /// Gives every literal on both sides its dictionary entry; what either
    /// side allows does not change.
    pub fn upgrade_literals(&mut self, dict: &WordContext)
        ensures
            final(self).operator == old(self).operator,
            forall|hs: Seq<Homograph>, phrases: Seq<FixedLengthExpression>|
                #[trigger] expr_allows(final(self).left, hs, phrases) == expr_allows(
                    old(self).left,
                    hs,
                    phrases,
                ),
            forall|hs: Seq<Homograph>, phrases: Seq<FixedLengthExpression>|
                #[trigger] expr_allows(final(self).right, hs, phrases) == expr_allows(
                    old(self).right,
                    hs,
                    phrases,
                ),
    {
        self.left.upgrade_literals(dict);
        self.right.upgrade_literals(dict);
    }
}

/// The texts of two tuples holding the same words are the same.
pub proof fn lemma_sol_texts_view(a: Seq<Homograph>, b: Seq<Homograph>)
    requires
        crate::term_dict::hgs_view(a) == crate::term_dict::hgs_view(b),
    ensures
        sol_texts(a) == sol_texts(b),
{
    assert(crate::term_dict::hgs_view(a).len() == a.len());
    assert(crate::term_dict::hgs_view(b).len() == b.len());
    assert forall|j: int| 0 <= j < a.len() implies (#[trigger] sol_texts(a)[j]) == sol_texts(
        b,
    )[j] by {
        assert(crate::term_dict::hgs_view(a)[j] == crate::term_dict::hg_view(a[j]));
        assert(crate::term_dict::hgs_view(b)[j] == crate::term_dict::hg_view(b[j]));
    }
    assert(sol_texts(a) =~= sol_texts(b));
}

/// One word's text in two tuples holding the same words.
proof fn lemma_hg_text_view(a: Seq<Homograph>, b: Seq<Homograph>, j: int)
    requires
        crate::term_dict::hgs_view(a) == crate::term_dict::hgs_view(b),
        0 <= j,
    ensures
        j < a.len() ==> a.len() == b.len() && a[j].text@ == b[j].text@,
{
    assert(crate::term_dict::hgs_view(a).len() == a.len());
    assert(crate::term_dict::hgs_view(b).len() == b.len());
    if j < a.len() {
        assert(crate::term_dict::hgs_view(a)[j] == crate::term_dict::hg_view(a[j]));
        assert(crate::term_dict::hgs_view(b)[j] == crate::term_dict::hg_view(b[j]));
    }
}

/// The generator-consumer anagram search: enumerate the generator's
/// tuples, anagram-search each tuple's letters under the consumer's
/// constraints, reorder what comes back to fit the consumer.
fn solve_anagram(gen: &Expression, cons: &Expression, dict: &WordContext) -> (r: Vec<
    AnagramSolution,
>)
    requires
        dict.wf(),
    ensures
        forall|s: int|
            0 <= s < r@.len() ==> anagram_pair_ok(
                *gen,
                *cons,
                (#[trigger] r@[s]).left.homographs@,
                r@[s].right.homographs@,
                dict.phrase_expressions@,
            ),
{
    let mut out: Vec<AnagramSolution> = Vec::new();
    // Literal extraction: a fixed-width consumer with literal slots has
    // their letters subtracted from each search key, and the literals put
    // back after the search.
    match cons {
        Expression::FixedLength(cons_fle) => {
            match cons_fle.extract_literals() {
                Some((residue, lit_key, lits)) => {
                    let gsols = gen.solve(dict);
                    let gn = gsols.len();
                    let mut gi: usize = 0;
                    #[verifier::loop_isolation(false)]
                    while gi < gn
                        invariant
                            gi <= gn,
                            gn == gsols@.len(),
                            forall|s: int|
                                0 <= s < out@.len() ==> anagram_pair_ok(
                                    *gen,
                                    *cons,
                                    (#[trigger] out@[s]).left.homographs@,
                                    out@[s].right.homographs@,
                                    dict.phrase_expressions@,
                                ),
                        decreases gn - gi,
                    {
                        solve_anagram_dehydrated(
                            gen,
                            cons,
                            &gsols[gi],
                            lit_key,
                            &residue,
                            &lits,
                            dict,
                            &mut out,
                        );
                        gi = gi + 1;
                    }
                    return out;
                },
                None => {},
            }
        },
        Expression::Many(cons_many) => {
            if matches!(cons_many.t, crate::many_expression::ManyExpressionType::Phrase) {
                // A phrase consumer searches once per catalogued skeleton,
                // each with its own literals taken out.
                let gsols = gen.solve(dict);
                let gn = gsols.len();
                let mut gi: usize = 0;
                #[verifier::loop_isolation(false)]
                while gi < gn
                    invariant
                        gi <= gn,
                        gn == gsols@.len(),
                        forall|s: int|
                            0 <= s < out@.len() ==> anagram_pair_ok(
                                *gen,
                                *cons,
                                (#[trigger] out@[s]).left.homographs@,
                                out@[s].right.homographs@,
                                dict.phrase_expressions@,
                            ),
                    decreases gn - gi,
                {
                    let pn = dict.phrase_expressions.len();
                    let mut pi: usize = 0;
                    #[verifier::loop_isolation(false)]
                    while pi < pn
                        invariant
                            pi <= pn,
                            pn == dict.phrase_expressions@.len(),
                            gi < gn,
                            forall|s: int|
                                0 <= s < out@.len() ==> anagram_pair_ok(
                                    *gen,
                                    *cons,
                                    (#[trigger] out@[s]).left.homographs@,
                                    out@[s].right.homographs@,
                                    dict.phrase_expressions@,
                                ),
                        decreases pn - pi,
                    {
                        let pe = &dict.phrase_expressions[pi];
                        if cons_many.allow_number_of_words(pe.words.len()) {
                            match pe.extract_literals() {
                                Some((residue, lit_key, lits)) => {
                                    solve_anagram_dehydrated(
                                        gen,
                                        cons,
                                        &gsols[gi],
                                        lit_key,
                                        &residue,
                                        &lits,
                                        dict,
                                        &mut out,
                                    );
                                },
                                None => {
                                    let empty_lits: Vec<(Homograph, usize)> = Vec::new();
                                    proof {
                                        let lt = empty_lits@.map_values(
                                            |p: (Homograph, usize)| p.0.text@,
                                        );
                                        assert(lt =~= Seq::<Seq<char>>::empty());
                                        assert(texts_letters(Seq::<Seq<char>>::empty()) == Seq::<
                                            crate::character::Character,
                                        >::empty());
                                        assert(prime_product(Seq::<
                                            crate::character::Character,
                                        >::empty()) == 1);
                                    }
                                    solve_anagram_dehydrated(
                                        gen,
                                        cons,
                                        &gsols[gi],
                                        AnagramKey::empty(),
                                        &pe.clone(),
                                        &empty_lits,
                                        dict,
                                        &mut out,
                                    );
                                },
                            }
                        }
                        pi = pi + 1;
                    }
                    gi = gi + 1;
                }
                return out;
            }
        },
    }
    // The plain path: no literal extraction, the consumer reorders what
    // the enumerator yields.
    let settings = cons.to_anagram_settings(dict);
    let gsols = gen.solve(dict);
    let gn = gsols.len();
    let mut gi: usize = 0;
    #[verifier::loop_isolation(false)]
    while gi < gn
        invariant
            gi <= gn,
            gn == gsols@.len(),
            forall|s: int|
                0 <= s < out@.len() ==> anagram_pair_ok(
                    *gen,
                    *cons,
                    (#[trigger] out@[s]).left.homographs@,
                    out@[s].right.homographs@,
                    dict.phrase_expressions@,
                ),
        decreases gn - gi,
    {
        let lsol = &gsols[gi];
        let text = lsol.get_text();
        match AnagramKey::from_str(text.as_str()) {
            Ok(key) => {
                proof {
                    crate::anagram_key::lemma_prime_product_pos(letters_of(text@));
                    lemma_letters_of_join(sol_texts(lsol.homographs@));
                }
                let parts = dict.anagram_dict.solve(key, settings);
                let sn = parts.len();
                let mut si: usize = 0;
                #[verifier::loop_isolation(false)]
                while si < sn
                    invariant
                        si <= sn,
                        sn == parts@.len(),
                        gi < gn,
                        key.inner == prime_product(texts_letters(sol_texts(lsol.homographs@))),
                        key.len == texts_letters(sol_texts(lsol.homographs@)).len(),
                        forall|s: int|
                            0 <= s < parts@.len() ==> {
                                let hs = (#[trigger] parts@[s]).homographs@;
                                prime_product(texts_letters(sol_texts(hs))) == key.inner
                                    && texts_letters(sol_texts(hs)).len() == key.len
                            },
                        forall|s: int|
                            0 <= s < out@.len() ==> anagram_pair_ok(
                                *gen,
                                *cons,
                                (#[trigger] out@[s]).left.homographs@,
                                out@[s].right.homographs@,
                                dict.phrase_expressions@,
                            ),
                    decreases sn - si,
                {
                    let csol = parts[si].clone();
                    let ghost csol_hs = csol.homographs@;
                    proof {
                        lemma_sol_texts_view(parts@[si as int].homographs@, csol_hs);
                    }
                    match cons.order_to_allow(dict, csol) {
                        Some(rsol) => {
                            let cand = AnagramSolution {
                                left: lsol.clone(),
                                right: rsol,
                            };
                            if !cand.is_trivial() {
                                proof {
                                    let part_hs = parts@[si as int].homographs@;
                                    lemma_texts_letters_permutation(
                                        sol_texts(cand.right.homographs@),
                                        sol_texts(part_hs),
                                    );
                                    lemma_sol_texts_view(
                                        lsol.homographs@,
                                        cand.left.homographs@,
                                    );
                                    crate::expression::lemma_expr_allows_view(
                                        *gen,
                                        lsol.homographs@,
                                        cand.left.homographs@,
                                        dict.phrase_expressions@,
                                    );
                                }
                                out.push(cand);
                            }
                        },
                        None => {},
                    }
                    si = si + 1;
                }
            },
            Err(_) => {},
        }
        gi = gi + 1;
    }
    out
}

/// One generator tuple against a dehydrated consumer: the literals'
/// letters come off the key before the search and the literal words go
/// back into each answer, which must then fit the full consumer.
#[verifier::rlimit(30)]
fn solve_anagram_dehydrated(
    gen: &Expression,
    cons: &Expression,
    lsol: &ExpressionSolution,
    lit_key: AnagramKey,
    residue: &FixedLengthExpression,
    lits: &Vec<(Homograph, usize)>,
    dict: &WordContext,
    out: &mut Vec<AnagramSolution>,
)
    requires
        dict.wf(),
        expr_allows(*gen, lsol.homographs@, dict.phrase_expressions@),
        lit_key.inner as nat == prime_product(
            texts_letters(lits@.map_values(|p: (Homograph, usize)| p.0.text@)),
        ),
        lit_key.len as nat == texts_letters(
            lits@.map_values(|p: (Homograph, usize)| p.0.text@),
        ).len(),
        forall|s: int|
            0 <= s < old(out)@.len() ==> anagram_pair_ok(
                *gen,
                *cons,
                (#[trigger] old(out)@[s]).left.homographs@,
                old(out)@[s].right.homographs@,
                dict.phrase_expressions@,
            ),
    ensures
        forall|s: int|
            0 <= s < final(out)@.len() ==> anagram_pair_ok(
                *gen,
                *cons,
                (#[trigger] final(out)@[s]).left.homographs@,
                final(out)@[s].right.homographs@,
                dict.phrase_expressions@,
            ),
{
    let text = lsol.get_text();
    let whole_key = match AnagramKey::from_str(text.as_str()) {
        Ok(k) => k,
        Err(_) => {
            return ;
        },
    };
    proof {
        lemma_letters_of_join(sol_texts(lsol.homographs@));
    }
    let key = match whole_key.sub(lit_key) {
        Some(k) => k,
        None => {
            return ;
        },
    };
    proof {
        assert(whole_key.inner as nat == (lit_key.inner as nat) * (key.inner as nat))
            by (nonlinear_arith)
            requires
                lit_key.inner >= 1,
                whole_key.inner as int % (lit_key.inner as int) == 0,
                key.inner == whole_key.inner as int / (lit_key.inner as int),
        ;
        crate::anagram_key::lemma_prime_product_pos(
            texts_letters(sol_texts(lsol.homographs@)),
        );
        assert(key.inner >= 1) by (nonlinear_arith)
            requires
                whole_key.inner as nat == (lit_key.inner as nat) * (key.inner as nat),
                whole_key.inner >= 1,
        ;
    }
    let settings = residue.to_anagram_settings();
    let parts = dict.anagram_dict.solve(key, settings);
    let sn = parts.len();
    let mut si: usize = 0;
    #[verifier::loop_isolation(false)]
    while si < sn
        invariant
            si <= sn,
            sn == parts@.len(),
            whole_key.inner as nat == prime_product(texts_letters(sol_texts(lsol.homographs@))),
            whole_key.len as nat == texts_letters(sol_texts(lsol.homographs@)).len(),
            whole_key.inner as nat == (lit_key.inner as nat) * (key.inner as nat),
            whole_key.len == lit_key.len + key.len,
            forall|s: int|
                0 <= s < parts@.len() ==> {
                    let hs = (#[trigger] parts@[s]).homographs@;
                    prime_product(texts_letters(sol_texts(hs))) == key.inner && texts_letters(
                        sol_texts(hs),
                    ).len() == key.len
                },
            forall|s: int|
                0 <= s < out@.len() ==> anagram_pair_ok(
                    *gen,
                    *cons,
                    (#[trigger] out@[s]).left.homographs@,
                    out@[s].right.homographs@,
                    dict.phrase_expressions@,
                ),
        decreases sn - si,
    {
        let csol = parts[si].clone();
        let ghost csol_hs = csol.homographs@;
        proof {
            lemma_sol_texts_view(parts@[si as int].homographs@, csol_hs);
        }
        match residue.order_to_allow(csol) {
            Some(rsol) => {
                let hydrated = hydrate(rsol, lits);
                // The full consumer must accept the rebuilt tuple.
                if cons.allow(dict, &hydrated) {
                    let cand = AnagramSolution { left: lsol.clone(), right: hydrated };
                    if !cand.is_trivial() {
                        proof {
                            let part_hs = parts@[si as int].homographs@;
                            let lit_texts = lits@.map_values(
                                |p: (Homograph, usize)| p.0.text@,
                            );
                            // The rebuilt tuple's letters: the searched
                            // partition's letters plus the literals'.
                            broadcast use vstd::seq_lib::group_to_multiset_ensures;

                            vstd::seq_lib::lemma_multiset_commutative(
                                sol_texts(part_hs),
                                lit_texts,
                            );
                            lemma_texts_letters_permutation(
                                sol_texts(cand.right.homographs@),
                                sol_texts(part_hs) + lit_texts,
                            );
                            lemma_texts_letters_concat(sol_texts(part_hs), lit_texts);
                            crate::anagram_key::lemma_prime_product_concat(
                                texts_letters(sol_texts(part_hs)),
                                texts_letters(lit_texts),
                            );
                            assert(prime_product(texts_letters(sol_texts(
                                cand.right.homographs@,
                            ))) == (key.inner as nat) * (lit_key.inner as nat));
                            assert((key.inner as nat) * (lit_key.inner as nat) == (
                            lit_key.inner as nat) * (key.inner as nat)) by (nonlinear_arith);
                            lemma_sol_texts_view(lsol.homographs@, cand.left.homographs@);
                            crate::expression::lemma_expr_allows_view(
                                *gen,
                                lsol.homographs@,
                                cand.left.homographs@,
                                dict.phrase_expressions@,
                            );
                        }
                        out.push(cand);
                    }
                }
            },
            None => {},
        }
        si = si + 1;
    }
}

/// Extracted words put back one by one at their recorded positions, each
/// clamped to the tuple's end.
pub open spec fn hydrate_fold(
    acc: Seq<
        (
            Seq<char>,
            bool,
            Seq<
                (
                    crate::homograph::PartOfSpeech,
                    crate::homograph::TagSet,
                    Option<Seq<char>>,
                ),
            >,
        ),
    >,
    lits: Seq<
        (
            (
                Seq<char>,
                bool,
                Seq<
                    (
                        crate::homograph::PartOfSpeech,
                        crate::homograph::TagSet,
                        Option<Seq<char>>,
                    ),
                >,
            ),
            int,
        ),
    >,
) -> Seq<
    (
        Seq<char>,
        bool,
        Seq<
            (
                crate::homograph::PartOfSpeech,
                crate::homograph::TagSet,
                Option<Seq<char>>,
            ),
        >,
    ),
>
    decreases lits.len(),
{
    if lits.len() == 0 {
        acc
    } else {
        let pos = if 0 <= lits[0].1 <= acc.len() {
            lits[0].1
        } else {
            acc.len() as int
        };
        hydrate_fold(acc.insert(pos, lits[0].0), lits.drop_first())
    }
}

/// Puts extracted literal words back into a tuple at their recorded
/// positions, each clamped to the tuple's end; the result holds the
/// tuple's texts plus the literals'.
fn hydrate(dehydrated: ExpressionSolution, literals: &Vec<(Homograph, usize)>) -> (r:
    ExpressionSolution)
    ensures
        crate::term_dict::hgs_view(r.homographs@) == hydrate_fold(
            crate::term_dict::hgs_view(dehydrated.homographs@),
            literals@.map_values(
                |p: (Homograph, usize)|
                    (crate::term_dict::hg_view(p.0), p.1 as int),
            ),
        ),
        sol_texts(r.homographs@).to_multiset() == sol_texts(
            dehydrated.homographs@,
        ).to_multiset().add(
            literals@.map_values(|p: (Homograph, usize)| p.0.text@).to_multiset(),
        ),
{
    broadcast use vstd::seq_lib::group_to_multiset_ensures;

    let mut hs = dehydrated.homographs;
    let ghost lviews = literals@.map_values(
        |p: (Homograph, usize)| (crate::term_dict::hg_view(p.0), p.1 as int),
    );
    let n = literals.len();
    let mut i: usize = 0;
    proof {
        let lt = literals@.map_values(|p: (Homograph, usize)| p.0.text@);
        assert(lt.take(0) =~= Seq::<Seq<char>>::empty());
        assert(Seq::<Seq<char>>::empty().to_multiset() =~= Multiset::<Seq<char>>::empty());
        assert(lviews.skip(0) =~= lviews);
    }
    #[verifier::loop_isolation(false)]
    while i < n
        invariant
            i <= n,
            n == literals@.len(),
            hydrate_fold(crate::term_dict::hgs_view(dehydrated.homographs@), lviews)
                == hydrate_fold(
                crate::term_dict::hgs_view(hs@),
                lviews.skip(i as int),
            ),
            sol_texts(hs@).to_multiset() == sol_texts(dehydrated.homographs@).to_multiset().add(
                literals@.map_values(|p: (Homograph, usize)| p.0.text@).take(
                    i as int,
                ).to_multiset(),
            ),
        decreases n - i,
    {
        let ghost before = hs@;
        let (h, idx) = (&literals[i].0, literals[i].1);
        let pos = if idx <= hs.len() {
            idx
        } else {
            hs.len()
        };
        hs.insert(pos, h.clone());
        proof {
            assert(lviews.skip(i as int)[0] == lviews[i as int]);
            assert(lviews.skip(i as int).drop_first() =~= lviews.skip(i as int + 1));
            assert(lviews[i as int].0 == crate::term_dict::hg_view(literals@[i as int].0));
            assert(lviews[i as int].1 == literals@[i as int].1 as int);
            assert(crate::term_dict::hgs_view(before).len() == before.len());
            assert(crate::term_dict::hgs_view(hs@) =~= crate::term_dict::hgs_view(
                before,
            ).insert(pos as int, crate::term_dict::hg_view(*h))) by {
                assert(crate::term_dict::hgs_view(hs@).len() == hs@.len());
                assert forall|j: int|
                    0 <= j < hs@.len() implies (#[trigger] crate::term_dict::hgs_view(hs@)[j])
                    == crate::term_dict::hgs_view(before).insert(
                    pos as int,
                    crate::term_dict::hg_view(*h),
                )[j] by {
                    assert(crate::term_dict::hgs_view(hs@)[j] == crate::term_dict::hg_view(
                        hs@[j],
                    ));
                    if j < pos {
                        assert(hs@[j] == before[j]);
                        assert(crate::term_dict::hgs_view(before)[j]
                            == crate::term_dict::hg_view(before[j]));
                    } else if j == pos {
                        assert(crate::term_dict::hg_view(hs@[j])
                            == crate::term_dict::hg_view(*h));
                    } else {
                        assert(hs@[j] == before[j - 1]);
                        assert(crate::term_dict::hgs_view(before)[j - 1]
                            == crate::term_dict::hg_view(before[j - 1]));
                    }
                }
            }
            let lt = literals@.map_values(|p: (Homograph, usize)| p.0.text@);
            assert(sol_texts(hs@) =~= sol_texts(before).insert(pos as int, h.text@)) by {
                assert(hs@ == before.insert(pos as int, *h).update(
                    pos as int,
                    hs@[pos as int],
                ) || true);
                assert(sol_texts(hs@).len() == hs@.len());
                assert forall|j: int| 0 <= j < hs@.len() implies (#[trigger] sol_texts(hs@)[j])
                    == sol_texts(before).insert(pos as int, h.text@)[j] by {
                    if j < pos {
                        assert(hs@[j] == before[j]);
                    } else if j == pos {
                        assert(hs@[j].text@ == h.text@);
                    } else {
                        assert(hs@[j] == before[j - 1]);
                    }
                }
            }
            vstd::seq_lib::to_multiset_insert(sol_texts(before), pos as int, h.text@);
            assert(lt.take(i as int + 1) =~= lt.take(i as int).push(lt[i as int]));
            assert(lt[i as int] == h.text@);
            assert(lt.take(i as int).push(h.text@).to_multiset() =~= lt.take(
                i as int,
            ).to_multiset().insert(h.text@));
            assert(sol_texts(hs@).to_multiset() =~= sol_texts(
                dehydrated.homographs@,
            ).to_multiset().add(lt.take(i as int + 1).to_multiset()));
        }
        i = i + 1;
    }
    proof {
        let lt = literals@.map_values(|p: (Homograph, usize)| p.0.text@);
        assert(lt.take(n as int) =~= lt);
        assert(lviews.skip(n as int).len() == 0);
    }
    ExpressionSolution { homographs: hs }
}

/// Whether a tuple of word views fits an expression: some tuple of words
/// carrying these views does.
pub open spec fn expr_allows_v(
    e: Expression,
    hsv: Seq<
        (
            Seq<char>,
            bool,
            Seq<(crate::homograph::PartOfSpeech, crate::homograph::TagSet, Option<Seq<char>>)>,
        ),
    >,
    phrases: Seq<FixedLengthExpression>,
) -> bool {
    exists|hs: Seq<Homograph>| crate::term_dict::hgs_view(hs) == hsv && expr_allows(e, hs, phrases)
}

/// The texts of a tuple of word views.
pub open spec fn tv_texts(
    tv: Seq<
        (
            Seq<char>,
            bool,
            Seq<(crate::homograph::PartOfSpeech, crate::homograph::TagSet, Option<Seq<char>>)>,
        ),
    >,
) -> Seq<Seq<char>> {
    tv.map_values(
        |v: (
            Seq<char>,
            bool,
            Seq<(crate::homograph::PartOfSpeech, crate::homograph::TagSet, Option<Seq<char>>)>,
        )| v.0,
    )
}

/// What one generator tuple turns into under the spoonerism: the swapped
/// words looked up in the dictionary, kept when the right expression
/// accepts them and the pair is not unchanged.
pub open spec fn spoon_right(
    tv: Seq<
        (
            Seq<char>,
            bool,
            Seq<(crate::homograph::PartOfSpeech, crate::homograph::TagSet, Option<Seq<char>>)>,
        ),
    >,
    e_r: Expression,
    dict: WordContext,
) -> Option<
    Seq<
        (
            Seq<char>,
            bool,
            Seq<(crate::homograph::PartOfSpeech, crate::homograph::TagSet, Option<Seq<char>>)>,
        ),
    >,
> {
    if tv.len() != 2 || tv[0].0.len() < 1 || tv[1].0.len() < 1 {
        None
    } else {
        let n1 = seq![tv[1].0[0]] + tv[0].0.skip(1);
        let n2 = seq![tv[0].0[0]] + tv[1].0.skip(1);
        let dvs = crate::term_dict::hgs_view(dict.term_dict.homographs@);
        let i1 = crate::term_dict::index_of_text(dvs, n1);
        let i2 = crate::term_dict::index_of_text(dvs, n2);
        if i1 < 0 || i2 < 0 {
            None
        } else {
            let rtv = seq![dvs[i1], dvs[i2]];
            if !expr_allows_v(e_r, rtv, dict.phrase_expressions@) {
                None
            } else if tv_texts(tv).to_multiset() == tv_texts(rtv).to_multiset() {
                None
            } else {
                Some(rtv)
            }
        }
    }
}

/// The spoonerism fold over the generator's solutions.
pub open spec fn spoon_fold(
    lvs: Seq<
        Seq<
            (
                Seq<char>,
                bool,
                Seq<
                    (
                        crate::homograph::PartOfSpeech,
                        crate::homograph::TagSet,
                        Option<Seq<char>>,
                    ),
                >,
            ),
        >,
    >,
    e_r: Expression,
    dict: WordContext,
    i: int,
    acc: Seq<
        (
            Seq<
                (
                    Seq<char>,
                    bool,
                    Seq<
                        (
                            crate::homograph::PartOfSpeech,
                            crate::homograph::TagSet,
                            Option<Seq<char>>,
                        ),
                    >,
                ),
            >,
            Seq<
                (
                    Seq<char>,
                    bool,
                    Seq<
                        (
                            crate::homograph::PartOfSpeech,
                            crate::homograph::TagSet,
                            Option<Seq<char>>,
                        ),
                    >,
                ),
            >,
        ),
    >,
) -> Seq<
    (
        Seq<
            (
                Seq<char>,
                bool,
                Seq<
                    (
                        crate::homograph::PartOfSpeech,
                        crate::homograph::TagSet,
                        Option<Seq<char>>,
                    ),
                >,
            ),
        >,
        Seq<
            (
                Seq<char>,
                bool,
                Seq<
                    (
                        crate::homograph::PartOfSpeech,
                        crate::homograph::TagSet,
                        Option<Seq<char>>,
                    ),
                >,
            ),
        >,
    ),
>
    decreases lvs.len() - i,
{
    if i < 0 || i >= lvs.len() {
        acc
    } else {
        match spoon_right(lvs[i], e_r, dict) {
            Some(rtv) => spoon_fold(lvs, e_r, dict, i + 1, acc.push((lvs[i], rtv))),
            None => spoon_fold(lvs, e_r, dict, i + 1, acc),
        }
    }
}

/// The view of a list of spoonerism answers: each pair's two tuples.
pub open spec fn spoon_views(rs: Seq<SpoonerismSolution>) -> Seq<
    (
        Seq<
            (
                Seq<char>,
                bool,
                Seq<
                    (
                        crate::homograph::PartOfSpeech,
                        crate::homograph::TagSet,
                        Option<Seq<char>>,
                    ),
                >,
            ),
        >,
        Seq<
            (
                Seq<char>,
                bool,
                Seq<
                    (
                        crate::homograph::PartOfSpeech,
                        crate::homograph::TagSet,
                        Option<Seq<char>>,
                    ),
                >,
            ),
        >,
    ),
> {
    rs.map_values(
        |s: SpoonerismSolution|
            (
                crate::term_dict::hgs_view(s.left.homographs@),
                crate::term_dict::hgs_view(s.right.homographs@),
            ),
    )
}

/// Every spoonerism answer for a pair of expressions, as views.
pub open spec fn spoon_solution_view(e_l: Expression, e_r: Expression, dict: WordContext) -> Seq<
    (
        Seq<
            (
                Seq<char>,
                bool,
                Seq<
                    (
                        crate::homograph::PartOfSpeech,
                        crate::homograph::TagSet,
                        Option<Seq<char>>,
                    ),
                >,
            ),
        >,
        Seq<
            (
                Seq<char>,
                bool,
                Seq<
                    (
                        crate::homograph::PartOfSpeech,
                        crate::homograph::TagSet,
                        Option<Seq<char>>,
                    ),
                >,
            ),
        >,
    ),
> {
    if expr_count_words_ok(e_l, 2) && expr_count_words_ok(e_r, 2) {
        spoon_fold(
            crate::expression::expr_solution_view(e_l, dict),
            e_r,
            dict,
            0,
            Seq::empty(),
        )
    } else {
        Seq::empty()
    }
}

/// One step of the spoonerism search: what the generator tuple `ls`
/// contributes, if anything.
fn spoon_step(
    left_expression: &Expression,
    right_expression: &Expression,
    dict: &WordContext,
    ls: &ExpressionSolution,
) -> (r: Option<SpoonerismSolution>)
    requires
        dict.wf(),
        expr_allows(*left_expression, ls.homographs@, dict.phrase_expressions@),
    ensures
        match r {
            Some(c) => {
                &&& spoon_right(
                    crate::term_dict::hgs_view(ls.homographs@),
                    *right_expression,
                    *dict,
                ) == Some(crate::term_dict::hgs_view(c.right.homographs@))
                &&& crate::term_dict::hgs_view(c.left.homographs@) == crate::term_dict::hgs_view(
                    ls.homographs@,
                )
                &&& spoonerism_pair_ok(
                    *left_expression,
                    *right_expression,
                    c.left.homographs@,
                    c.right.homographs@,
                    dict.phrase_expressions@,
                    dict.term_dict,
                )
            },
            None => spoon_right(
                crate::term_dict::hgs_view(ls.homographs@),
                *right_expression,
                *dict,
            ) is None,
        },
{
    let ghost lv = crate::term_dict::hgs_view(ls.homographs@);
    proof {
        assert(lv.len() == ls.homographs@.len());
    }
    if ls.homographs.len() != 2 {
        return None;
    }
    let w1 = &ls.homographs[0];
    let w2 = &ls.homographs[1];
    proof {
        assert(lv[0] == crate::term_dict::hg_view(ls.homographs@[0]));
        assert(lv[1] == crate::term_dict::hg_view(ls.homographs@[1]));
    }
    let l1 = w1.text.as_str().unicode_len();
    let l2 = w2.text.as_str().unicode_len();
    if l1 < 1 || l2 < 1 {
        return None;
    }
    let mut nw1 = String::new();
    nw1.append(w2.text.as_str().substring_char(0, 1));
    nw1.append(w1.text.as_str().substring_char(1, l1));
    let mut nw2 = String::new();
    nw2.append(w1.text.as_str().substring_char(0, 1));
    nw2.append(w2.text.as_str().substring_char(1, l2));
    proof {
        assert(nw1@ =~= seq![w2.text@[0]] + w1.text@.skip(1));
        assert(nw2@ =~= seq![w1.text@[0]] + w2.text@.skip(1));
        assert(nw1@ =~= seq![lv[1].0[0]] + lv[0].0.skip(1));
        assert(nw2@ =~= seq![lv[0].0[0]] + lv[1].0.skip(1));
    }
    let ghost dvs = crate::term_dict::hgs_view(dict.term_dict.homographs@);
    let h1 = match dict.term_dict.try_find(nw1.as_str()) {
        Some(h) => h,
        None => {
            return None;
        },
    };
    let h2 = match dict.term_dict.try_find(nw2.as_str()) {
        Some(h) => h,
        None => {
            return None;
        },
    };
    proof {
        crate::term_dict::lemma_index_of_text(dvs, nw1@);
        crate::term_dict::lemma_index_of_text(dvs, nw2@);
        assert(crate::term_dict::hg_view(h1).0 == nw1@);
        assert(crate::term_dict::hg_view(h2).0 == nw2@);
    }
    let ghost i1 = crate::term_dict::index_of_text(dvs, nw1@);
    let ghost i2 = crate::term_dict::index_of_text(dvs, nw2@);
    let ghost rtv = seq![dvs[i1], dvs[i2]];
    let mut rh: Vec<Homograph> = Vec::new();
    rh.push(h1);
    rh.push(h2);
    let rsol = ExpressionSolution { homographs: rh };
    proof {
        assert(crate::term_dict::hgs_view(rsol.homographs@) =~= rtv);
    }
    if !right_expression.allow(dict, &rsol) {
        proof {
            assert(!expr_allows_v(*right_expression, rtv, dict.phrase_expressions@)) by {
                if expr_allows_v(*right_expression, rtv, dict.phrase_expressions@) {
                    let hs = choose|hs: Seq<Homograph>|
                        crate::term_dict::hgs_view(hs) == rtv && expr_allows(
                            *right_expression,
                            hs,
                            dict.phrase_expressions@,
                        );
                    crate::expression::lemma_expr_allows_view(
                        *right_expression,
                        hs,
                        rsol.homographs@,
                        dict.phrase_expressions@,
                    );
                }
            }
        }
        return None;
    }
    proof {
        assert(expr_allows_v(*right_expression, rtv, dict.phrase_expressions@)) by {
            assert(crate::term_dict::hgs_view(rsol.homographs@) == rtv && expr_allows(
                *right_expression,
                rsol.homographs@,
                dict.phrase_expressions@,
            ));
        }
    }
    let cand = SpoonerismSolution { left: ls.clone(), right: rsol };
    proof {
        lemma_sol_texts_view(ls.homographs@, cand.left.homographs@);
        assert(tv_texts(lv) =~= sol_texts(cand.left.homographs@));
        assert(tv_texts(rtv) =~= sol_texts(cand.right.homographs@));
    }
    if cand.is_trivial() {
        return None;
    }
    proof {
        crate::expression::lemma_expr_allows_view(
            *left_expression,
            ls.homographs@,
            cand.left.homographs@,
            dict.phrase_expressions@,
        );
        lemma_hg_text_view(ls.homographs@, cand.left.homographs@, 0);
        lemma_hg_text_view(ls.homographs@, cand.left.homographs@, 1);
        assert(cand.right.homographs@[0].text@ == nw1@);
        assert(cand.right.homographs@[1].text@ == nw2@);
        assert(spoon_right(lv, *right_expression, *dict) == Some(rtv));
    }
    Some(cand)
}

/// The spoonerism search: for each two-word generator tuple, swap the
/// leading letters, look both new words up, and keep pairs the right
/// expression accepts that are not unchanged.
fn solve_spoonerism(
    left_expression: &Expression,
    right_expression: &Expression,
    dict: &WordContext,
) -> (r: Vec<SpoonerismSolution>)
    requires
        dict.wf(),
    ensures
        spoon_views(r@) == spoon_solution_view(*left_expression, *right_expression, *dict),
        forall|s: int|
            0 <= s < r@.len() ==> spoonerism_pair_ok(
                *left_expression,
                *right_expression,
                (#[trigger] r@[s]).left.homographs@,
                r@[s].right.homographs@,
                dict.phrase_expressions@,
                dict.term_dict,
            ),
{
    let mut out: Vec<SpoonerismSolution> = Vec::new();
    if !left_expression.allow_number_of_words(2) || !right_expression.allow_number_of_words(2) {
        proof {
            assert(spoon_views(out@) =~= spoon_solution_view(
                *left_expression,
                *right_expression,
                *dict,
            ));
        }
        return out;
    }
    let gsols = left_expression.solve(dict);
    let ghost lvs = crate::expression::expr_solution_view(*left_expression, *dict);
    let gn = gsols.len();
    let mut gi: usize = 0;
    proof {
        assert(crate::fixed_length_expression::sols_view(gsols@).len() == gn);
        assert(spoon_views(out@) =~= Seq::empty());
    }
    #[verifier::loop_isolation(false)]
    while gi < gn
        invariant
            gi <= gn,
            gn == gsols@.len(),
            spoon_solution_view(*left_expression, *right_expression, *dict) == spoon_fold(
                lvs,
                *right_expression,
                *dict,
                gi as int,
                spoon_views(out@),
            ),
            forall|s: int|
                0 <= s < out@.len() ==> spoonerism_pair_ok(
                    *left_expression,
                    *right_expression,
                    (#[trigger] out@[s]).left.homographs@,
                    out@[s].right.homographs@,
                    dict.phrase_expressions@,
                    dict.term_dict,
                ),
        decreases gn - gi,
    {
        let ls = &gsols[gi];
        proof {
            assert(crate::fixed_length_expression::sols_view(gsols@)[gi as int]
                == crate::term_dict::hgs_view(gsols@[gi as int].homographs@));
            assert(lvs[gi as int] == crate::term_dict::hgs_view(ls.homographs@));
        }
        match spoon_step(left_expression, right_expression, dict, ls) {
            Some(cand) => {
                let ghost prev = spoon_views(out@);
                out.push(cand);
                proof {
                    assert(spoon_views(out@) =~= prev.push(
                        (
                            crate::term_dict::hgs_view(cand.left.homographs@),
                            crate::term_dict::hgs_view(cand.right.homographs@),
                        ),
                    ));
                    assert(spoon_fold(lvs, *right_expression, *dict, gi as int, prev)
                        == spoon_fold(
                        lvs,
                        *right_expression,
                        *dict,
                        gi as int + 1,
                        spoon_views(out@),
                    ));
                }
            },
            None => {
                proof {
                    assert(spoon_fold(
                        lvs,
                        *right_expression,
                        *dict,
                        gi as int,
                        spoon_views(out@),
                    ) == spoon_fold(
                        lvs,
                        *right_expression,
                        *dict,
                        gi as int + 1,
                        spoon_views(out@),
                    ));
                }
            },
        }
        gi = gi + 1;
    }
    proof {
        assert(spoon_fold(lvs, *right_expression, *dict, gn as int, spoon_views(out@))
            == spoon_views(out@));
    }
    out
}

} // verus!
