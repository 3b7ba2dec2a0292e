//! The incremental driver: holds the query text, the parsed question and
//! the answers surfaced so far, and serves them in bounded batches.  A
//! failed parse leaves the previous-good answers on show behind a
//! warning; the cost gate surfaces its refusal with none.

use vstd::prelude::*;

use crate::question::Question;
use crate::solution::QuestionSolution;
use crate::text::{dec_digits, is_ws, is_ws_char, usize_to_string};
use crate::word_context::WordContext;

verus! {

pub struct FullState {
    pub text: String,
    pub hot: bool,
    pub is_complete: bool,
    pub data: Vec<QuestionSolution>,
    pub question: Option<Question>,
    pub warning: Option<String>,
    pub pending: Vec<QuestionSolution>,
}

impl Default for FullState {
    /// A fresh driver showing the stock query, ready to run it.
    fn default() -> (r: Self)
        ensures
            r.hot,
            r.is_complete,
            r.data@.len() == 0,
            r.pending@.len() == 0,
            r.question is None,
            r.warning is None,
            r.text@ == "hello world =a !phrase"@,
    {
        let mut text = String::new();
        text.append("hello world =a !phrase");
        FullState {
            text,
            hot: true,
            is_complete: true,
            data: Vec::new(),
            question: None,
            warning: None,
            pending: Vec::new(),
        }
    }
}

impl FullState {
    /// What the status line shows: the warning verbatim, an ellipsis while
    /// a rerun is due, else how many answers were found and whether that
    /// is all of them.
    pub fn info_text(&self) -> (r: String)
        ensures
            match self.warning {
                Some(w) => r@ == w@,
                None => {
                    if self.hot {
                        r@ == "..."@
                    } else if self.is_complete {
                        r@ == "Found all "@ + dec_digits(self.data@.len() as nat) + " solutions"@
                    } else {
                        r@ == "Found "@ + dec_digits(self.data@.len() as nat) + " solutions"@
                    }
                },
            },
    {
        match &self.warning {
            Some(w) => w.clone(),
            None => {
                if self.hot {
                    let mut s = String::new();
                    s.append("...");
                    proof {
                        assert(s@ =~= "..."@);
                    }
                    s
                } else {
                    let count = usize_to_string(self.data.len());
                    let mut s = String::new();
                    if self.is_complete {
                        s.append("Found all ");
                    } else {
                        s.append("Found ");
                    }
                    s.append(count.as_str());
                    s.append(" solutions");
                    proof {
                        if self.is_complete {
                            assert(s@ =~= "Found all "@ + dec_digits(self.data@.len() as nat)
                                + " solutions"@);
                        } else {
                            assert(s@ =~= "Found "@ + dec_digits(self.data@.len() as nat)
                                + " solutions"@);
                        }
                    }
                    s
                }
            },
        }
    }

    /// Surfaces up to `number_to_load` more answers: they move from the
    /// pending queue to the shown data in order; running dry marks the
    /// state complete.  A state already complete, or without a question,
    /// is left alone.
    pub fn load_more(&mut self, number_to_load: usize)
        ensures
            final(self).text == old(self).text,
            final(self).hot == old(self).hot,
            final(self).warning == old(self).warning,
            old(self).is_complete ==> *final(self) == *old(self),
            !old(self).is_complete && old(self).question is None ==> *final(self) == *old(self),
            !old(self).is_complete && old(self).question is Some ==> {
                let k = if number_to_load <= old(self).pending@.len() {
                    number_to_load as int
                } else {
                    old(self).pending@.len() as int
                };
                &&& final(self).data@ == old(self).data@ + old(self).pending@.take(k)
                &&& final(self).pending@ == old(self).pending@.skip(k)
                &&& final(self).is_complete == (k < number_to_load)
                &&& final(self).question == old(self).question
            },
    {
        if self.is_complete {
            return ;
        }
        match &self.question {
            None => {
                return ;
            },
            Some(_) => {},
        }
        let ghost pending0 = self.pending@;
        let ghost data0 = self.data@;
        let mut moved: usize = 0;
        #[verifier::loop_isolation(false)]
        while moved < number_to_load && self.pending.len() > 0
            invariant
                moved <= number_to_load,
                moved <= pending0.len(),
                self.data@ == data0 + pending0.take(moved as int),
                self.pending@ == pending0.skip(moved as int),
                self.text == old(self).text,
                self.hot == old(self).hot,
                self.warning == old(self).warning,
                self.question == old(self).question,
                self.is_complete == old(self).is_complete,
            decreases number_to_load - moved,
        {
            let s = self.pending.remove(0);
            self.data.push(s);
            proof {
                assert(self.data@ =~= data0 + pending0.take(moved as int + 1));
                assert(self.pending@ =~= pending0.skip(moved as int + 1));
            }
            moved = moved + 1;
        }
        if moved < number_to_load {
            self.is_complete = true;
            proof {
                assert(pending0.skip(moved as int).len() == 0);
                assert(moved == if number_to_load <= pending0.len() {
                    number_to_load as int
                } else {
                    pending0.len() as int
                });
            }
        }
    }

    /// Reparses and re-solves the current text.  A failed parse leaves the
    /// previous-good shown answers in place behind the warning; the cost
    /// gate refuses with a warning and no answers; otherwise every answer
    /// is queued and nothing is surfaced yet.
    pub fn update(&mut self, dict: &WordContext)
        requires
            dict.wf(),
        ensures
            final(self).text == old(self).text,
            final(self).hot == old(self).hot,
            final(self).warning is None ==> (final(self).question is Some
                && final(self).data@.len() == 0 && !final(self).is_complete),
            // For a bare expression the queued answers are exactly its
            // solutions, wrapped in order.
            final(self).warning is None && (final(self).question matches Some(q)
                && q matches crate::question::Question::Expression(e))
                ==> (final(self).pending@.len()
                == crate::expression::expr_solution_view(
                final(self).question->Some_0->Expression_0,
                *dict,
            ).len() && forall|s: int|
                0 <= s < final(self).pending@.len() ==> ((#[trigger] final(self).pending@[s])
                    matches QuestionSolution::Expression(es) && crate::term_dict::hgs_view(
                    es.homographs@,
                ) == crate::expression::expr_solution_view(
                    final(self).question->Some_0->Expression_0,
                    *dict,
                )[s])),
            // For a spoonerism equation the queued answers are exactly the
            // swapped-and-looked-up pairs, in generator order.
            final(self).warning is None && (final(self).question matches Some(q)
                && q matches crate::question::Question::Equation(eq)
                && eq.operator is Spoonerism) ==> (final(self).pending@.len()
                == crate::equation::spoon_solution_view(
                final(self).question->Some_0->Equation_0.left,
                final(self).question->Some_0->Equation_0.right,
                *dict,
            ).len() && forall|s: int|
                0 <= s < final(self).pending@.len() ==> ((#[trigger] final(self).pending@[s])
                    is Spoonerism && crate::term_dict::hgs_view(
                    final(self).pending@[s]->Spoonerism_0.left.homographs@,
                ) == crate::equation::spoon_solution_view(
                    final(self).question->Some_0->Equation_0.left,
                    final(self).question->Some_0->Equation_0.right,
                    *dict,
                )[s].0 && crate::term_dict::hgs_view(
                    final(self).pending@[s]->Spoonerism_0.right.homographs@,
                ) == crate::equation::spoon_solution_view(
                    final(self).question->Some_0->Equation_0.left,
                    final(self).question->Some_0->Equation_0.right,
                    *dict,
                )[s].1)),
            final(self).warning is Some ==> (final(self).pending@.len() == 0
                && final(self).question is None && (final(self).data == old(self).data
                || final(self).data@.len() == 0)),
            // A warning is either the cost gate's refusal or a parse error,
            // told apart by their fixed texts: only the refusal clears the
            // previous-good answers.
            final(self).warning is Some ==> (final(self).warning->Some_0@
                == "Question is too difficult"@ || crate::parser::parse_error_text(
                final(self).warning->Some_0@,
            )),
            final(self).warning is Some && final(self).warning->Some_0@
                != "Question is too difficult"@ ==> (final(self).data == old(self).data
                && final(self).is_complete == old(self).is_complete),
            final(self).warning is Some && final(self).warning->Some_0@
                == "Question is too difficult"@ ==> (final(self).data@.len() == 0
                && !final(self).is_complete),
    {
        match crate::parser::question_parse(self.text.as_str()) {
            Ok(question) => {
                let mut question = question;
                if question.is_too_difficult(dict) {
                    self.data = Vec::new();
                    self.pending = Vec::new();
                    self.question = None;
                    let mut w = String::new();
                    w.append("Question is too difficult");
                    proof {
                        assert(w@ =~= "Question is too difficult"@);
                    }
                    self.warning = Some(w);
                    self.is_complete = false;
                } else {
                    question.upgrade_literals(dict);
                    let sols = question.solve(dict);
                    self.data = Vec::new();
                    self.pending = sols;
                    self.question = Some(question);
                    self.warning = None;
                    self.is_complete = false;
                }
            },
            Err(e) => {
                // The previous-good answers stay on show; only the warning
                // changes and paging stops.
                self.pending = Vec::new();
                self.question = None;
                let mut w = String::new();
                w.append(e);
                proof {
                    assert(w@ =~= e@);
                    crate::parser::lemma_parse_error_not_refusal(e@);
                }
                self.warning = Some(w);
            },
        }
    }

    /// Reruns the query once after a text change: parse, solve, surface
    /// the first ten answers, and cool down.  A warning means nothing was
    /// solved; without one, at most ten answers are on show.
    pub fn update_if_hot(&mut self, dict: &WordContext)
        requires
            dict.wf(),
        ensures
            !final(self).hot,
            !old(self).hot ==> *final(self) == *old(self),
            old(self).hot ==> final(self).text == old(self).text,
            old(self).hot && final(self).warning is Some ==> (final(self).question is None
                && final(self).pending@.len() == 0),
            old(self).hot && final(self).warning is None ==> (final(self).question is Some
                && final(self).data@.len() <= 10),
            // The warning causes and their effect on the previous-good
            // answers carry over from the rerun itself.
            old(self).hot && final(self).warning is Some ==> (final(self).warning->Some_0@
                == "Question is too difficult"@ || crate::parser::parse_error_text(
                final(self).warning->Some_0@,
            )),
            old(self).hot && final(self).warning is Some && final(self).warning->Some_0@
                != "Question is too difficult"@ ==> final(self).data == old(self).data,
            old(self).hot && final(self).warning is Some && final(self).warning->Some_0@
                == "Question is too difficult"@ ==> final(self).data@.len() == 0,
            // For a bare expression the shown answers are the first batch
            // of its solutions, the rest left queued.
            old(self).hot && final(self).warning is None && (final(self).question matches Some(q)
                && q matches crate::question::Question::Expression(e)) ==> {
                let vs = crate::expression::expr_solution_view(
                    final(self).question->Some_0->Expression_0,
                    *dict,
                );
                let k = if vs.len() <= 10 {
                    vs.len() as int
                } else {
                    10
                };
                &&& final(self).data@.len() == k
                &&& forall|s: int|
                    0 <= s < k ==> ((#[trigger] final(self).data@[s]) matches
                        QuestionSolution::Expression(es) && crate::term_dict::hgs_view(
                        es.homographs@,
                    ) == vs[s])
                &&& final(self).pending@.len() == vs.len() - k
                &&& final(self).is_complete == (vs.len() < 10)
            },
            // For a spoonerism equation likewise, pairwise.
            old(self).hot && final(self).warning is None && (final(self).question matches Some(q)
                && q matches crate::question::Question::Equation(eq)
                && eq.operator is Spoonerism) ==> {
                let vs = crate::equation::spoon_solution_view(
                    final(self).question->Some_0->Equation_0.left,
                    final(self).question->Some_0->Equation_0.right,
                    *dict,
                );
                let k = if vs.len() <= 10 {
                    vs.len() as int
                } else {
                    10
                };
                &&& final(self).data@.len() == k
                &&& forall|s: int|
                    0 <= s < k ==> ((#[trigger] final(self).data@[s]) is Spoonerism
                        && crate::term_dict::hgs_view(
                        final(self).data@[s]->Spoonerism_0.left.homographs@,
                    ) == vs[s].0 && crate::term_dict::hgs_view(
                        final(self).data@[s]->Spoonerism_0.right.homographs@,
                    ) == vs[s].1)
                &&& final(self).pending@.len() == vs.len() - k
                &&& final(self).is_complete == (vs.len() < 10)
            },
    {
        if self.hot {
            self.update(dict);
            let ghost mid = *self;
            self.load_more(10);
            self.hot = false;
            proof {
                if mid.warning is None {
                    assert(self.data@ == mid.data@ + mid.pending@.take(
                        if 10 <= mid.pending@.len() {
                            10
                        } else {
                            mid.pending@.len() as int
                        },
                    ));
                }
            }
        }
    }

    /// Takes new query text; anything but whitespace trim differences
    /// marks the state hot for the next rerun.
    pub fn change_text(&mut self, s: &str)
        ensures
            final(self).text@ == s@,
            final(self).hot == (old(self).hot || spec_trim(old(self).text@) != spec_trim(s@)),
            final(self).data == old(self).data,
            final(self).pending == old(self).pending,
            final(self).is_complete == old(self).is_complete,
            final(self).question == old(self).question,
            final(self).warning == old(self).warning,
    {
        if !trimmed_eq(self.text.as_str(), s) {
            self.hot = true;
        }
        let mut t = String::new();
        t.append(s);
        self.text = t;
    }
}

/// The text without its leading whitespace.
pub open spec fn trim_front(s: Seq<char>) -> Seq<char>
    decreases s.len(),
{
    if s.len() > 0 && is_ws(s[0]) {
        trim_front(s.drop_first())
    } else {
        s
    }
}

/// The text without its trailing whitespace.
pub open spec fn trim_back(s: Seq<char>) -> Seq<char>
    decreases s.len(),
{
    if s.len() > 0 && is_ws(s.last()) {
        trim_back(s.drop_last())
    } else {
        s
    }
}

/// The text without whitespace at either end.
pub open spec fn spec_trim(s: Seq<char>) -> Seq<char> {
    trim_back(trim_front(s))
}

/// Whether two texts are equal once leading and trailing whitespace is
/// dropped from each.
fn trimmed_eq(a: &str, b: &str) -> (r: bool)
    ensures
        r == (spec_trim(a@) == spec_trim(b@)),
{
    let ab = trim_bounds(a);
    let af = ab.0;
    let al = ab.1;
    let bb = trim_bounds(b);
    let bf = bb.0;
    let bl = bb.1;
    proof {
        assert(spec_trim(a@) == a@.subrange(af as int, al as int));
        assert(spec_trim(b@) == b@.subrange(bf as int, bl as int));
    }
    if al - af != bl - bf {
        proof {
            assert(spec_trim(a@).len() != spec_trim(b@).len());
        }
        return false;
    }
    let n = al - af;
    let mut i: usize = 0;
    while i < n
        invariant
            i <= n,
            af + n <= a@.len(),
            bf + n <= b@.len(),
            af + n <= usize::MAX,
            bf + n <= usize::MAX,
            spec_trim(a@) == a@.subrange(af as int, (af + n) as int),
            spec_trim(b@) == b@.subrange(bf as int, (bf + n) as int),
            forall|j: int| 0 <= j < i ==> spec_trim(a@)[j] == spec_trim(b@)[j],
        decreases n - i,
    {
        if a.get_char(af + i) != b.get_char(bf + i) {
            proof {
                assert(spec_trim(a@)[i as int] == a@[af + i]);
                assert(spec_trim(b@)[i as int] == b@[bf + i]);
            }
            return false;
        }
        proof {
            assert(spec_trim(a@)[i as int] == a@[af + i]);
            assert(spec_trim(b@)[i as int] == b@[bf + i]);
        }
        i = i + 1;
    }
    proof {
        assert(spec_trim(a@) =~= spec_trim(b@));
    }
    true
}

/// The first and one-past-last non-whitespace positions of a text: the
/// subrange they bound is the trimmed text.
fn trim_bounds(s: &str) -> (r: (usize, usize))
    ensures
        r.0 <= r.1 <= s@.len(),
        spec_trim(s@) == s@.subrange(r.0 as int, r.1 as int),
{
    let n = s.unicode_len();
    let mut f: usize = 0;
    proof {
        assert(s@.skip(0) =~= s@);
    }
    while f < n && is_ws_char(s.get_char(f))
        invariant
            f <= n,
            n == s@.len(),
            trim_front(s@) == trim_front(s@.skip(f as int)),
        decreases n - f,
    {
        proof {
            assert(s@.skip(f as int)[0] == s@[f as int]);
            assert(s@.skip(f as int).drop_first() =~= s@.skip(f as int + 1));
        }
        f = f + 1;
    }
    proof {
        if f < n {
            assert(s@.skip(f as int)[0] == s@[f as int]);
        }
        assert(trim_front(s@) == s@.skip(f as int));
    }
    let mut l: usize = n;
    proof {
        assert(s@.subrange(f as int, n as int) =~= s@.skip(f as int));
    }
    while l > f && is_ws_char(s.get_char(l - 1))
        invariant
            f <= l <= n,
            n == s@.len(),
            trim_back(s@.skip(f as int)) == trim_back(s@.subrange(f as int, l as int)),
        decreases l,
    {
        proof {
            let cur = s@.subrange(f as int, l as int);
            assert(cur.last() == s@[l - 1]);
            assert(cur.drop_last() =~= s@.subrange(f as int, l as int - 1));
        }
        l = l - 1;
    }
    proof {
        let cur = s@.subrange(f as int, l as int);
        if l > f {
            assert(cur.last() == s@[l - 1]);
        }
        assert(trim_back(cur) == cur);
        assert(spec_trim(s@) == s@.subrange(f as int, l as int));
    }
    (f, l)
}

} // verus!
