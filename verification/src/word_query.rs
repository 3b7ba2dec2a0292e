//! Word predicates: a query is a conjunction of disjunctions of atomic
//! predicates over single words.  A query allows a word when every
//! disjunction has at least one atom that does.

use vstd::prelude::*;

use crate::character::lower_seq;
use crate::homograph::{Homograph, PartOfSpeech, WordTag};
use crate::pattern::{is_alpha, lemma_any_lit_any, lemma_frame_pattern, Pattern, PatternComponent};
use crate::term_dict::{clone_homographs, hg_view, hgs_view, lemma_filter_equiv, TermDict};
use crate::text::eq_ignore_case;

verus! {

/// A conjunction of disjunctions of atomic word predicates.
#[derive(Debug)]
pub struct WordQuery {
    pub terms: Vec<WordQueryDisjunction>,
}

/// A non-empty choice of atomic word predicates.
#[derive(Debug)]
pub struct WordQueryDisjunction {
    pub terms: Vec<WordQueryTerm>,
}

/// One atomic word predicate.
#[derive(Debug)]
pub enum WordQueryTerm {
    Literal(Homograph),
    PartOfSpeech(PartOfSpeech),
    Tag(WordTag),
    Any,
    Range { min: usize, max: usize },
    Length(usize),
    Pattern(Pattern),
    Nested(Box<WordQuery>),
}

/// Whether an atom allows a word.
pub open spec fn term_allows(t: WordQueryTerm, h: Homograph) -> bool
    decreases t,
{
    match t {
        WordQueryTerm::Literal(l) => lower_seq(h.text@) == lower_seq(l.text@),
        WordQueryTerm::PartOfSpeech(pos) => h.spec_has_pos(pos),
        WordQueryTerm::Tag(tag) => h.spec_has_tag(tag),
        WordQueryTerm::Any => true,
        WordQueryTerm::Range { min, max } => min <= h.text@.len() && h.text@.len() <= max,
        WordQueryTerm::Length(len) => h.text@.len() == len,
        WordQueryTerm::Pattern(p) => p.spec_allows(h),
        WordQueryTerm::Nested(q) => query_allows(*q, h),
    }
}

/// Whether a disjunction allows a word: some atom does.
pub open spec fn disj_allows(d: WordQueryDisjunction, h: Homograph) -> bool
    decreases d,
{
    exists|i: int| 0 <= i < d.terms@.len() && term_allows(#[trigger] d.terms@[i], h)
}

/// Whether a query allows a word: every disjunction does.
pub open spec fn query_allows(q: WordQuery, h: Homograph) -> bool
    decreases q,
{
    forall|i: int| 0 <= i < q.terms@.len() ==> disj_allows(#[trigger] q.terms@[i], h)
}

/// Whether a disjunction holds the wildcard atom.
pub open spec fn disj_has_any(d: WordQueryDisjunction) -> bool {
    exists|j: int| 0 <= j < d.terms@.len() && (#[trigger] d.terms@[j]) is Any
}

/// The homograph a query literally is, when the query is one literal atom
/// in one disjunction.
pub open spec fn query_spec_as_literal(q: WordQuery) -> Option<Homograph> {
    if q.terms@.len() == 1 && q.terms@[0].terms@.len() == 1 {
        match q.terms@[0].terms@[0] {
            WordQueryTerm::Literal(h) => Some(h),
            _ => None,
        }
    } else {
        None
    }
}

impl Clone for WordQueryTerm {
    fn clone(&self) -> (r: Self)
        ensures
            forall|h: Homograph| term_allows(r, h) == term_allows(*self, h),
            (r is Literal) == (*self is Literal),
            r matches WordQueryTerm::Literal(l2) ==> (self matches WordQueryTerm::Literal(l)
                && hg_view(l2) == hg_view(*l)),
        decreases *self,
    {
        match self {
            WordQueryTerm::Literal(l) => {
                let r = WordQueryTerm::Literal(l.clone());
                proof {
                    assert forall|h: Homograph| term_allows(r, h) == term_allows(
                        *self,
                        h,
                    ) by {
                        assert(r->Literal_0.text@ == l.text@);
                    }
                }
                r
            },
            WordQueryTerm::PartOfSpeech(p) => WordQueryTerm::PartOfSpeech(*p),
            WordQueryTerm::Tag(t) => WordQueryTerm::Tag(*t),
            WordQueryTerm::Any => WordQueryTerm::Any,
            WordQueryTerm::Range { min, max } => WordQueryTerm::Range { min: *min, max: *max },
            WordQueryTerm::Length(n) => WordQueryTerm::Length(*n),
            WordQueryTerm::Pattern(p) => {
                let r = WordQueryTerm::Pattern(p.clone());
                proof {
                    assert forall|h: Homograph| term_allows(r, h) == term_allows(
                        *self,
                        h,
                    ) by {
                        assert(r->Pattern_0.components@ == p.components@);
                    }
                }
                r
            },
            WordQueryTerm::Nested(q) => {
                let nq = (**q).clone();
                let r = WordQueryTerm::Nested(Box::new(nq));
                proof {
                    assert forall|h: Homograph| term_allows(r, h) == term_allows(
                        *self,
                        h,
                    ) by {
                        assert(term_allows(r, h) == query_allows(*r->Nested_0, h));
                        assert(term_allows(*self, h) == query_allows(**q, h));
                    }
                }
                r
            },
        }
    }
}

impl Clone for WordQueryDisjunction {
    fn clone(&self) -> (r: Self)
        ensures
            forall|h: Homograph| disj_allows(r, h) == disj_allows(*self, h),
            r.terms@.len() == self.terms@.len(),
            forall|i: int|
                0 <= i < r.terms@.len() ==> ((#[trigger] r.terms@[i]) is Literal == self.terms@[i]
                    is Literal),
        decreases *self,
    {
        let n = self.terms.len();
        let mut terms: Vec<WordQueryTerm> = Vec::new();
        let mut i: usize = 0;
        #[verifier::loop_isolation(false)]
        while i < n
            invariant
                i <= n,
                terms@.len() == i,
                forall|j: int, h: Homograph|
                    0 <= j < i ==> #[trigger] term_allows(terms@[j], h) == term_allows(
                        self.terms@[j],
                        h,
                    ),
                forall|j: int|
                    0 <= j < i ==> ((#[trigger] terms@[j]) is Literal == self.terms@[j]
                        is Literal),
            decreases n - i,
        {
            terms.push(self.terms[i].clone());
            i = i + 1;
        }
        let r = WordQueryDisjunction { terms };
        proof {
            assert forall|h: Homograph| disj_allows(r, h) == disj_allows(*self, h) by {
                if disj_allows(r, h) {
                    let w = choose|k: int|
                        0 <= k < r.terms@.len() && term_allows(#[trigger] r.terms@[k], h);
                    assert(term_allows(self.terms@[w], h));
                }
                if disj_allows(*self, h) {
                    let w = choose|k: int|
                        0 <= k < self.terms@.len() && term_allows(#[trigger] self.terms@[k], h);
                    assert(term_allows(r.terms@[w], h));
                }
            }
        }
        r
    }
}

impl Clone for WordQuery {
    fn clone(&self) -> (r: Self)
        ensures
            forall|h: Homograph| query_allows(r, h) == query_allows(*self, h),
            r.terms@.len() == self.terms@.len(),
        decreases *self,
    {
        let n = self.terms.len();
        let mut terms: Vec<WordQueryDisjunction> = Vec::new();
        let mut i: usize = 0;
        #[verifier::loop_isolation(false)]
        while i < n
            invariant
                i <= n,
                terms@.len() == i,
                forall|j: int, h: Homograph|
                    0 <= j < i ==> #[trigger] disj_allows(terms@[j], h) == disj_allows(
                        self.terms@[j],
                        h,
                    ),
            decreases n - i,
        {
            terms.push(self.terms[i].clone());
            i = i + 1;
        }
        let r = WordQuery { terms };
        proof {
            assert forall|h: Homograph| query_allows(r, h) == query_allows(*self, h) by {
                if query_allows(r, h) {
                    assert forall|k: int| 0 <= k < self.terms@.len() implies disj_allows(
                        #[trigger] self.terms@[k],
                        h,
                    ) by {
                        assert(disj_allows(r.terms@[k], h));
                    }
                }
                if query_allows(*self, h) {
                    assert forall|k: int| 0 <= k < r.terms@.len() implies disj_allows(
                        #[trigger] r.terms@[k],
                        h,
                    ) by {
                        assert(disj_allows(self.terms@[k], h));
                    }
                }
            }
        }
        r
    }
}

impl WordQueryTerm {
    pub fn allow(&self, term: &Homograph) -> (r: bool)
        ensures
            r == term_allows(*self, *term),
        decreases *self,
    {
        match self {
            WordQueryTerm::Literal(l) => eq_ignore_case(term.text.as_str(), l.text.as_str()),
            WordQueryTerm::PartOfSpeech(pos) => term.has_pos(*pos),
            WordQueryTerm::Tag(tag) => term.has_tag(*tag),
            WordQueryTerm::Any => true,
            WordQueryTerm::Range { min, max } => {
                let n = term.text.as_str().unicode_len();
                *min <= n && n <= *max
            },
            WordQueryTerm::Length(len) => term.text.as_str().unicode_len() == *len,
            WordQueryTerm::Pattern(p) => p.allow(term),
            WordQueryTerm::Nested(q) => q.allow(term),
        }
    }

    /// The homograph this atom literally is, if it is a literal.
    pub fn as_literal(&self) -> (r: Option<&Homograph>)
        ensures
            match r {
                Some(h) => self matches WordQueryTerm::Literal(l) && h == l,
                None => !(self matches WordQueryTerm::Literal(_)),
            },
    {
        match self {
            WordQueryTerm::Literal(h) => Some(h),
            _ => None,
        }
    }
}

impl WordQueryDisjunction {
    pub fn allow(&self, term: &Homograph) -> (r: bool)
        ensures
            r == disj_allows(*self, *term),
        decreases *self,
    {
        let n = self.terms.len();
        let mut i: usize = 0;
        #[verifier::loop_isolation(false)]
        while i < n
            invariant
                i <= n,
                n == self.terms@.len(),
                forall|j: int| 0 <= j < i ==> !term_allows(#[trigger] self.terms@[j], *term),
            decreases n - i,
        {
            if self.terms[i].allow(term) {
                return true;
            }
            i = i + 1;
        }
        false
    }

    /// Whether some atom of this disjunction is the wildcard.
    pub fn has_any_term(&self) -> (r: bool)
        ensures
            r == disj_has_any(*self),
    {
        let n = self.terms.len();
        let mut j: usize = 0;
        #[verifier::loop_isolation(false)]
        while j < n
            invariant
                j <= n,
                n == self.terms@.len(),
                forall|k: int| 0 <= k < j ==> !((#[trigger] self.terms@[k]) is Any),
            decreases n - j,
        {
            match &self.terms[j] {
                WordQueryTerm::Any => {
                    return true;
                },
                _ => {},
            }
            j = j + 1;
        }
        false
    }

    /// The homograph this disjunction literally is: its single literal atom.
    pub fn as_literal(&self) -> (r: Option<&Homograph>)
        ensures
            match r {
                Some(h) => self.terms@.len() == 1 && (self.terms@[0] matches
                    WordQueryTerm::Literal(l) && h == l),
                None => !(self.terms@.len() == 1 && self.terms@[0] matches WordQueryTerm::Literal(
                    _,
                )),
            },
    {
        if self.terms.len() == 1 {
            self.terms[0].as_literal()
        } else {
            None
        }
    }
}

impl WordQuery {
    pub fn allow(&self, term: &Homograph) -> (r: bool)
        ensures
            r == query_allows(*self, *term),
        decreases *self,
    {
        let n = self.terms.len();
        let mut i: usize = 0;
        #[verifier::loop_isolation(false)]
        while i < n
            invariant
                i <= n,
                n == self.terms@.len(),
                forall|j: int| 0 <= j < i ==> disj_allows(#[trigger] self.terms@[j], *term),
            decreases n - i,
        {
            if !self.terms[i].allow(term) {
                return false;
            }
            i = i + 1;
        }
        true
    }

    /// The homograph this query literally is: one disjunction holding one
    /// literal atom.
    pub fn as_literal(&self) -> (r: Option<&Homograph>)
        ensures
            match r {
                Some(h) => query_spec_as_literal(*self) == Some(*h),
                None => query_spec_as_literal(*self) is None,
            },
    {
        if self.terms.len() == 1 {
            self.terms[0].as_literal()
        } else {
            None
        }
    }

    /// Whether every disjunction holds a wildcard atom, so that the query
    /// allows every word trivially.
    pub open spec fn spec_is_any(self) -> bool {
        forall|i: int| 0 <= i < self.terms@.len() ==> disj_has_any(#[trigger] self.terms@[i])
    }

    pub fn is_any(&self) -> (r: bool)
        ensures
            r == self.spec_is_any(),
    {
        let n = self.terms.len();
        let mut i: usize = 0;
        #[verifier::loop_isolation(false)]
        while i < n
            invariant
                i <= n,
                n == self.terms@.len(),
                forall|ii: int| 0 <= ii < i ==> disj_has_any(#[trigger] self.terms@[ii]),
            decreases n - i,
        {
            if !self.terms[i].has_any_term() {
                return false;
            }
            i = i + 1;
        }
        true
    }

    /// The words a query stands for: nothing for an empty query, the
    /// literal itself for a literal query, and otherwise every dictionary
    /// word the query allows, in dictionary order.
    pub fn solve(&self, dict: &TermDict) -> (r: Vec<Homograph>)
        requires
            dict.spec_buckets_ok(),
        ensures
            hgs_view(r@) == query_solution_view(*self, *dict),
            forall|g: int| 0 <= g < r@.len() ==> query_allows(*self, #[trigger] r@[g]),
    {
        if self.terms.len() == 0 {
            let r: Vec<Homograph> = Vec::new();
            proof {
                assert(hgs_view(r@) =~= Seq::<
                    (
                        Seq<char>,
                        bool,
                        Seq<
                            (
                                PartOfSpeech,
                                crate::homograph::TagSet,
                                Option<Seq<char>>,
                            ),
                        >,
                    ),
                >::empty());
            }
            return r;
        }
        match self.as_literal() {
            Some(l) => {
                let mut r: Vec<Homograph> = Vec::new();
                r.push(l.clone());
                proof {
                    assert(hgs_view(r@) =~= seq![hg_view(query_spec_as_literal(*self)->Some_0)]);
                    assert forall|g: int| 0 <= g < r@.len() implies query_allows(
                        *self,
                        #[trigger] r@[g],
                    ) by {
                        assert(self.terms@[0].terms@[0] == WordQueryTerm::Literal(*l));
                        assert(r@[g].text@ == l.text@);
                        assert(term_allows(self.terms@[0].terms@[0], r@[g]));
                        assert(disj_allows(self.terms@[0], r@[g]));
                        assert forall|i: int| 0 <= i < self.terms@.len() implies disj_allows(
                            #[trigger] self.terms@[i],
                            r@[g],
                        ) by {
                            assert(i == 0);
                        }
                    }
                }
                return r;
            },
            None => {},
        }
        if self.terms.len() == 1 && self.terms[0].terms.len() == 1 {
            match &self.terms[0].terms[0] {
                WordQueryTerm::PartOfSpeech(pos) => {
                    let bucket = dict.pos_bucket(*pos);
                    let r = clone_homographs(bucket);
                    proof {
                        let p1 = crate::term_dict::has_pos_pred(*pos);
                        let p2 = |h: Homograph| query_allows(*self, h);
                        assert forall|h: Homograph| #[trigger] p1(h) == p2(h) by {
                            assert(self.terms@[0].terms@[0] == WordQueryTerm::PartOfSpeech(
                                *pos,
                            ));
                            if p1(h) {
                                assert(term_allows(self.terms@[0].terms@[0], h));
                                assert(disj_allows(self.terms@[0], h));
                                assert forall|i: int| 0 <= i < self.terms@.len() implies
                                    disj_allows(#[trigger] self.terms@[i], h) by {
                                    assert(i == 0);
                                }
                            }
                            if p2(h) {
                                assert(disj_allows(self.terms@[0], h));
                                assert(term_allows(self.terms@[0].terms@[0], h));
                            }
                        }
                        lemma_filter_equiv(dict.homographs@, p1, p2);
                        let fl = dict.homographs@.filter(p2);
                        assert(hgs_view(r@) == hgs_view(fl));
                        assert(hgs_view(r@).len() == r@.len());
                        assert(hgs_view(fl).len() == fl.len());
                        assert forall|g: int| 0 <= g < r@.len() implies query_allows(
                            *self,
                            #[trigger] r@[g],
                        ) by {
                            dict.homographs@.lemma_filter_pred(p2, g);
                            assert(hgs_view(r@)[g] == hg_view(r@[g]));
                            assert(hgs_view(fl)[g] == hg_view(fl[g]));
                            lemma_query_allows_view(*self, fl[g], r@[g]);
                        }
                    }
                    return r;
                },
                _ => {},
            }
        }
        let n = dict.homographs.len();
        let mut r: Vec<Homograph> = Vec::new();
        let mut i: usize = 0;
        let ghost pred = |h: Homograph| query_allows(*self, h);
        proof {
            reveal(Seq::filter);
            assert(dict.homographs@.take(0) =~= Seq::<Homograph>::empty());
            assert(hgs_view(r@) =~= hgs_view(dict.homographs@.take(0).filter(pred)));
        }
        #[verifier::loop_isolation(false)]
        while i < n
            invariant
                i <= n,
                n == dict.homographs@.len(),
                hgs_view(r@) == hgs_view(dict.homographs@.take(i as int).filter(pred)),
            decreases n - i,
        {
            if self.allow(&dict.homographs[i]) {
                let ghost old_r = r@;
                let picked = dict.homographs[i].clone();
                r.push(picked);
                proof {
                    crate::term_dict::lemma_filter_scan_keep(
                        dict.homographs@,
                        i as int,
                        pred,
                        old_r,
                        r@,
                        picked,
                    );
                }
            } else {
                proof {
                    crate::term_dict::lemma_filter_scan_skip(dict.homographs@, i as int, pred);
                }
            }
            i = i + 1;
        }
        proof {
            assert(dict.homographs@.take(n as int) =~= dict.homographs@);
            let fl = dict.homographs@.filter(pred);
            assert(hgs_view(r@) == hgs_view(fl));
            assert(hgs_view(r@).len() == r@.len());
            assert(hgs_view(fl).len() == fl.len());
            assert forall|g: int| 0 <= g < r@.len() implies query_allows(
                *self,
                #[trigger] r@[g],
            ) by {
                dict.homographs@.lemma_filter_pred(pred, g);
                assert(hgs_view(r@)[g] == hg_view(r@[g]));
                assert(hgs_view(fl)[g] == hg_view(fl[g]));
                lemma_query_allows_view(*self, fl[g], r@[g]);
            }
        }
        r
    }

    /// How many words the query stands for: the length of its solution.
    pub fn count_options(&self, dict: &crate::word_context::WordContext) -> (r: usize)
        requires
            dict.term_dict.spec_buckets_ok(),
        ensures
            r == query_solution_view(*self, dict.term_dict).len(),
    {
        let sols = self.solve(&dict.term_dict);
        proof {
            assert(hgs_view(sols@).len() == sols@.len());
        }
        sols.len()
    }

    /// Replaces each literal atom that the dictionary knows with the
    /// dictionary's entry for the same text, giving literals their
    /// meanings.  What the query allows does not change.
    pub fn upgrade_literals(&mut self, dict: &TermDict)
        ensures
            forall|h: Homograph|
                query_allows(*final(self), h) == query_allows(*old(self), h),
        decreases old(self),
    {
        let n = self.terms.len();
        let mut i: usize = 0;
        #[verifier::loop_isolation(false)]
        while i < n
            invariant
                n == self.terms@.len(),
                i <= n,
                forall|h: Homograph|
                    #[trigger] query_allows(*self, h) == query_allows(*old(self), h),
            decreases n - i,
        {
            let ghost before = *self;
            let mut d = self.terms.remove(i);
            d.upgrade_literals(dict);
            self.terms.insert(i, d);
            proof {
                assert(self.terms@.len() == before.terms@.len());
                assert forall|h: Homograph|
                    #[trigger] query_allows(*self, h) == query_allows(before, h) by {
                    assert forall|j: int|
                        0 <= j < self.terms@.len() implies disj_allows(
                        #[trigger] self.terms@[j],
                        h,
                    ) == disj_allows(before.terms@[j], h) by {
                        if j != i {
                            assert(self.terms@[j] == before.terms@[j]);
                        }
                    }
                    if query_allows(before, h) {
                        assert forall|j: int| 0 <= j < self.terms@.len() implies disj_allows(
                            #[trigger] self.terms@[j],
                            h,
                        ) by {
                            assert(disj_allows(before.terms@[j], h));
                        }
                    }
                    if query_allows(*self, h) {
                        assert forall|j: int| 0 <= j < before.terms@.len() implies disj_allows(
                            #[trigger] before.terms@[j],
                            h,
                        ) by {
                            assert(disj_allows(self.terms@[j], h));
                        }
                    }
                }
            }
            i = i + 1;
        }
    }
}

impl WordQueryDisjunction {
    /// Replaces known literal atoms with their dictionary entries; what the
    /// disjunction allows does not change.
    pub fn upgrade_literals(&mut self, dict: &TermDict)
        ensures
            forall|h: Homograph| disj_allows(*final(self), h) == disj_allows(*old(self), h),
        decreases old(self),
    {
        let n = self.terms.len();
        let mut i: usize = 0;
        #[verifier::loop_isolation(false)]
        while i < n
            invariant
                n == self.terms@.len(),
                i <= n,
                forall|h: Homograph|
                    #[trigger] disj_allows(*self, h) == disj_allows(*old(self), h),
            decreases n - i,
        {
            let ghost before = *self;
            let mut t = self.terms.remove(i);
            t.upgrade_literals(dict);
            self.terms.insert(i, t);
            proof {
                assert(self.terms@.len() == before.terms@.len());
                assert forall|h: Homograph|
                    #[trigger] disj_allows(*self, h) == disj_allows(before, h) by {
                    assert forall|j: int|
                        0 <= j < self.terms@.len() implies term_allows(
                        #[trigger] self.terms@[j],
                        h,
                    ) == term_allows(before.terms@[j], h) by {
                        if j != i {
                            assert(self.terms@[j] == before.terms@[j]);
                        }
                    }
                    assert(disj_allows(*self, h) == disj_allows(before, h)) by {
                        if disj_allows(*self, h) {
                            let w = choose|k: int|
                                0 <= k < self.terms@.len() && term_allows(
                                    #[trigger] self.terms@[k],
                                    h,
                                );
                            assert(term_allows(before.terms@[w], h));
                        }
                        if disj_allows(before, h) {
                            let w = choose|k: int|
                                0 <= k < before.terms@.len() && term_allows(
                                    #[trigger] before.terms@[k],
                                    h,
                                );
                            assert(term_allows(self.terms@[w], h));
                        }
                    }
                }
            }
            i = i + 1;
        }
    }
}

impl WordQueryTerm {
    /// Replaces a known literal atom with its dictionary entry; what the
    /// atom allows does not change.
    pub fn upgrade_literals(&mut self, dict: &TermDict)
        ensures
            forall|h: Homograph| term_allows(*final(self), h) == term_allows(*old(self), h),
        decreases old(self),
    {
        match self {
            WordQueryTerm::Literal(l) => {
                match dict.try_find(l.text.as_str()) {
                    Some(h2) => {
                        proof {
                            crate::term_dict::lemma_index_of_text(
                                crate::term_dict::hgs_view(dict.homographs@),
                                l.text@,
                            );
                            assert(hg_view(h2).0 == l.text@);
                        }
                        *self = WordQueryTerm::Literal(h2);
                    },
                    None => {},
                }
            },
            _ => {},
        }
    }
}

/// Words that hold the same values hold the same predicates: whether a
/// query allows a word depends only on what the word holds, not on which
/// copy of it is asked.
pub proof fn lemma_query_allows_view(q: WordQuery, a: Homograph, b: Homograph)
    requires
        hg_view(a) == hg_view(b),
    ensures
        query_allows(q, a) == query_allows(q, b),
    decreases q,
{
    assert forall|i: int|
        0 <= i < q.terms@.len() implies disj_allows(#[trigger] q.terms@[i], a) == disj_allows(
        q.terms@[i],
        b,
    ) by {
        lemma_disj_allows_view(q.terms@[i], a, b);
    }
    if query_allows(q, a) {
        assert forall|i: int| 0 <= i < q.terms@.len() implies disj_allows(
            #[trigger] q.terms@[i],
            b,
        ) by {
            assert(disj_allows(q.terms@[i], a));
        }
    }
    if query_allows(q, b) {
        assert forall|i: int| 0 <= i < q.terms@.len() implies disj_allows(
            #[trigger] q.terms@[i],
            a,
        ) by {
            assert(disj_allows(q.terms@[i], b));
        }
    }
}

pub proof fn lemma_disj_allows_view(d: WordQueryDisjunction, a: Homograph, b: Homograph)
    requires
        hg_view(a) == hg_view(b),
    ensures
        disj_allows(d, a) == disj_allows(d, b),
    decreases d,
{
    assert forall|i: int|
        0 <= i < d.terms@.len() implies term_allows(#[trigger] d.terms@[i], a) == term_allows(
        d.terms@[i],
        b,
    ) by {
        lemma_term_allows_view(d.terms@[i], a, b);
    }
    if disj_allows(d, a) {
        let w = choose|i: int| 0 <= i < d.terms@.len() && term_allows(#[trigger] d.terms@[i], a);
        assert(term_allows(d.terms@[w], b));
    }
    if disj_allows(d, b) {
        let w = choose|i: int| 0 <= i < d.terms@.len() && term_allows(#[trigger] d.terms@[i], b);
        assert(term_allows(d.terms@[w], a));
    }
}

pub proof fn lemma_term_allows_view(t: WordQueryTerm, a: Homograph, b: Homograph)
    requires
        hg_view(a) == hg_view(b),
    ensures
        term_allows(t, a) == term_allows(t, b),
    decreases t,
{
    assert(a.text@ == b.text@);
    assert(a.meanings@.map_values(|m: crate::homograph::Meaning| crate::term_dict::meaning_view(
        m,
    )) == b.meanings@.map_values(
        |m: crate::homograph::Meaning| crate::term_dict::meaning_view(m),
    ));
    assert(a.meanings@.len() == b.meanings@.len()) by {
        assert(a.meanings@.map_values(
            |m: crate::homograph::Meaning| crate::term_dict::meaning_view(m),
        ).len() == a.meanings@.len());
        assert(b.meanings@.map_values(
            |m: crate::homograph::Meaning| crate::term_dict::meaning_view(m),
        ).len() == b.meanings@.len());
    }
    assert forall|i: int|
        0 <= i < a.meanings@.len() implies (#[trigger] a.meanings@[i]).part_of_speech
        == b.meanings@[i].part_of_speech && a.meanings@[i].tags == b.meanings@[i].tags by {
        assert(a.meanings@.map_values(
            |m: crate::homograph::Meaning| crate::term_dict::meaning_view(m),
        )[i] == crate::term_dict::meaning_view(a.meanings@[i]));
        assert(b.meanings@.map_values(
            |m: crate::homograph::Meaning| crate::term_dict::meaning_view(m),
        )[i] == crate::term_dict::meaning_view(b.meanings@[i]));
    }
    match t {
        WordQueryTerm::PartOfSpeech(pos) => {
            if a.spec_has_pos(pos) {
                let w = choose|i: int|
                    0 <= i < a.meanings@.len() && (#[trigger] a.meanings@[i]).part_of_speech
                        == pos;
                assert(b.meanings@[w].part_of_speech == pos);
            }
            if b.spec_has_pos(pos) {
                let w = choose|i: int|
                    0 <= i < b.meanings@.len() && (#[trigger] b.meanings@[i]).part_of_speech
                        == pos;
                assert(a.meanings@[w].part_of_speech == pos);
            }
        },
        WordQueryTerm::Tag(tag) => {
            if a.spec_has_tag(tag) {
                let w = choose|i: int|
                    0 <= i < a.meanings@.len() && (#[trigger] a.meanings@[i]).tags.spec_contains(
                        tag,
                    );
                assert(b.meanings@[w].tags.spec_contains(tag));
            }
            if b.spec_has_tag(tag) {
                let w = choose|i: int|
                    0 <= i < b.meanings@.len() && (#[trigger] b.meanings@[i]).tags.spec_contains(
                        tag,
                    );
                assert(a.meanings@[w].tags.spec_contains(tag));
            }
        },
        WordQueryTerm::Nested(q) => {
            lemma_query_allows_view(*q, a, b);
        },
        _ => {},
    }
}

/// What `WordQueryTerm::solve` returns, viewed: the literal itself for a
/// literal atom, the whole dictionary for the wildcard, and otherwise the
/// allowed subsequence of the dictionary.
pub open spec fn term_solution_view(t: WordQueryTerm, dict: TermDict) -> Seq<
    (
        Seq<char>,
        bool,
        Seq<(PartOfSpeech, crate::homograph::TagSet, Option<Seq<char>>)>,
    ),
> {
    match t {
        WordQueryTerm::Literal(l) => seq![hg_view(l)],
        WordQueryTerm::Any => hgs_view(dict.homographs@),
        _ => hgs_view(dict.homographs@.filter(|h: Homograph| term_allows(t, h))),
    }
}

impl WordQueryTerm {
    /// The words an atom stands for: the literal itself, a part-of-speech
    /// bucket, the whole dictionary for the wildcard, and otherwise a scan
    /// of the dictionary.
    pub fn solve(&self, dict: &TermDict) -> (r: Vec<Homograph>)
        requires
            dict.spec_buckets_ok(),
        ensures
            hgs_view(r@) == term_solution_view(*self, *dict),
    {
        match self {
            WordQueryTerm::Literal(l) => {
                let mut r: Vec<Homograph> = Vec::new();
                r.push(l.clone());
                proof {
                    assert(hgs_view(r@) =~= seq![hg_view(*l)]);
                }
                r
            },
            WordQueryTerm::Any => clone_homographs(&dict.homographs),
            WordQueryTerm::PartOfSpeech(pos) => {
                let bucket = dict.pos_bucket(*pos);
                let r = clone_homographs(bucket);
                proof {
                    let p1 = crate::term_dict::has_pos_pred(*pos);
                    let p2 = |h: Homograph| term_allows(*self, h);
                    assert forall|h: Homograph| #[trigger] p1(h) == p2(h) by {}
                    lemma_filter_equiv(dict.homographs@, p1, p2);
                }
                r
            },
            _ => {
                let n = dict.homographs.len();
                let mut r: Vec<Homograph> = Vec::new();
                let mut i: usize = 0;
                let ghost pred = |h: Homograph| term_allows(*self, h);
                proof {
                    reveal(Seq::filter);
                    assert(dict.homographs@.take(0) =~= Seq::<Homograph>::empty());
                    assert(hgs_view(r@) =~= hgs_view(dict.homographs@.take(0).filter(pred)));
                }
                #[verifier::loop_isolation(false)]
                while i < n
                    invariant
                        i <= n,
                        n == dict.homographs@.len(),
                        hgs_view(r@) == hgs_view(dict.homographs@.take(i as int).filter(pred)),
                    decreases n - i,
                {
                    if self.allow(&dict.homographs[i]) {
                        let ghost old_r = r@;
                        let picked = dict.homographs[i].clone();
                        r.push(picked);
                        proof {
                            crate::term_dict::lemma_filter_scan_keep(
                                dict.homographs@,
                                i as int,
                                pred,
                                old_r,
                                r@,
                                picked,
                            );
                        }
                    } else {
                        proof {
                            crate::term_dict::lemma_filter_scan_skip(
                                dict.homographs@,
                                i as int,
                                pred,
                            );
                        }
                    }
                    i = i + 1;
                }
                proof {
                    assert(dict.homographs@.take(n as int) =~= dict.homographs@);
                }
                r
            },
        }
    }
}

/// What `WordQueryDisjunction::solve` returns, viewed: its single atom's
/// words when it has one atom, else the allowed subsequence of the
/// dictionary.
pub open spec fn disj_solution_view(d: WordQueryDisjunction, dict: TermDict) -> Seq<
    (
        Seq<char>,
        bool,
        Seq<(PartOfSpeech, crate::homograph::TagSet, Option<Seq<char>>)>,
    ),
> {
    if d.terms@.len() == 1 {
        term_solution_view(d.terms@[0], dict)
    } else {
        hgs_view(dict.homographs@.filter(|h: Homograph| disj_allows(d, h)))
    }
}

impl WordQueryDisjunction {
    /// The words a disjunction stands for.
    pub fn solve(&self, dict: &TermDict) -> (r: Vec<Homograph>)
        requires
            dict.spec_buckets_ok(),
        ensures
            hgs_view(r@) == disj_solution_view(*self, *dict),
    {
        if self.terms.len() == 1 {
            return self.terms[0].solve(dict);
        }
        let n = dict.homographs.len();
        let mut r: Vec<Homograph> = Vec::new();
        let mut i: usize = 0;
        let ghost pred = |h: Homograph| disj_allows(*self, h);
        proof {
            reveal(Seq::filter);
            assert(dict.homographs@.take(0) =~= Seq::<Homograph>::empty());
            assert(hgs_view(r@) =~= hgs_view(dict.homographs@.take(0).filter(pred)));
        }
        #[verifier::loop_isolation(false)]
        while i < n
            invariant
                i <= n,
                n == dict.homographs@.len(),
                hgs_view(r@) == hgs_view(dict.homographs@.take(i as int).filter(pred)),
            decreases n - i,
        {
            if self.allow(&dict.homographs[i]) {
                let ghost old_r = r@;
                let picked = dict.homographs[i].clone();
                r.push(picked);
                proof {
                    crate::term_dict::lemma_filter_scan_keep(
                        dict.homographs@,
                        i as int,
                        pred,
                        old_r,
                        r@,
                        picked,
                    );
                }
            } else {
                proof {
                    crate::term_dict::lemma_filter_scan_skip(dict.homographs@, i as int, pred);
                }
            }
            i = i + 1;
        }
        proof {
            assert(dict.homographs@.take(n as int) =~= dict.homographs@);
        }
        r
    }
}

/// What `WordQuery::solve` returns, viewed: nothing for an empty query, the
/// literal alone for a literal query, and otherwise the allowed subsequence
/// of the dictionary.
pub open spec fn query_solution_view(q: WordQuery, dict: TermDict) -> Seq<
    (
        Seq<char>,
        bool,
        Seq<(PartOfSpeech, crate::homograph::TagSet, Option<Seq<char>>)>,
    ),
> {
    if q.terms@.len() == 0 {
        Seq::empty()
    } else {
        match query_spec_as_literal(q) {
            Some(l) => seq![hg_view(l)],
            None => hgs_view(dict.homographs@.filter(|h: Homograph| query_allows(q, h))),
        }
    }
}


/// The conjunction of a framed pattern `c???t` with a containment
/// pattern `*e*` allows exactly the five-letter all-letter words that
/// start with c, end with t and hold an e, all case-blind.
pub proof fn lemma_frame_and_contains_law(q: WordQuery, h: Homograph)
    requires
        q.terms@.len() == 2,
        q.terms@[0].terms@.len() == 1,
        q.terms@[1].terms@.len() == 1,
        q.terms@[0].terms@[0] matches WordQueryTerm::Pattern(p0) && (p0.components@.len() == 3 && (
        p0.components@[0] matches PatternComponent::Literal(l) && l@ == seq!['c'])
            && p0.components@[1] == PatternComponent::AnyChar(3) && (p0.components@[2] matches
        PatternComponent::Literal(l2) && l2@ == seq!['t'])),
        q.terms@[1].terms@[0] matches WordQueryTerm::Pattern(p1) && (p1.components@.len() == 3
            && p1.components@[0] is Any && (p1.components@[1] matches PatternComponent::Literal(
            l,
        ) && l@ == seq!['e']) && p1.components@[2] is Any),
    ensures
        query_allows(q, h) == (h.text@.len() == 5 && crate::character::spec_lower_char(
            h.text@[0],
        ) == 'c' && crate::character::spec_lower_char(h.text@[4]) == 't' && is_alpha(h.text@[1])
            && is_alpha(h.text@[2]) && is_alpha(h.text@[3]) && (exists|i: int|
            0 <= i < 5 && crate::character::spec_lower_char(#[trigger] h.text@[i]) == 'e')),
{
    let s = h.text@;
    let p0 = q.terms@[0].terms@[0]->Pattern_0;
    let p1 = q.terms@[1].terms@[0]->Pattern_0;
    lemma_frame_pattern(p0.components@, s, 'c', 't', 3);
    lemma_any_lit_any(p1.components@, s, 'e');
    assert(crate::character::spec_lower_char('c') == 'c');
    assert(crate::character::spec_lower_char('t') == 't');
    assert(crate::character::spec_lower_char('e') == 'e');
    assert(disj_allows(q.terms@[0], h) == term_allows(q.terms@[0].terms@[0], h)) by {
        if term_allows(q.terms@[0].terms@[0], h) {
            assert(disj_allows(q.terms@[0], h));
        }
        if disj_allows(q.terms@[0], h) {
            let i = choose|i: int|
                0 <= i < q.terms@[0].terms@.len() && term_allows(
                    #[trigger] q.terms@[0].terms@[i],
                    h,
                );
            assert(i == 0);
        }
    }
    assert(disj_allows(q.terms@[1], h) == term_allows(q.terms@[1].terms@[0], h)) by {
        if term_allows(q.terms@[1].terms@[0], h) {
            assert(disj_allows(q.terms@[1], h));
        }
        if disj_allows(q.terms@[1], h) {
            let i = choose|i: int|
                0 <= i < q.terms@[1].terms@.len() && term_allows(
                    #[trigger] q.terms@[1].terms@[i],
                    h,
                );
            assert(i == 0);
        }
    }
    assert(query_allows(q, h) == (disj_allows(q.terms@[0], h) && disj_allows(q.terms@[1], h)))
        by {
        if disj_allows(q.terms@[0], h) && disj_allows(q.terms@[1], h) {
            assert forall|i: int| 0 <= i < q.terms@.len() implies disj_allows(
                #[trigger] q.terms@[i],
                h,
            ) by {
                if i != 0 {
                    assert(i == 1);
                }
            }
        }
    }
    if query_allows(q, h) {
        let i = choose|i: int|
            0 <= i < s.len() && crate::character::spec_lower_char(#[trigger] s[i])
                == crate::character::spec_lower_char('e') && (forall|j: int|
                0 <= j < s.len() && j != i ==> is_alpha(#[trigger] s[j]));
        assert(0 <= i < 5 && crate::character::spec_lower_char(s[i]) == 'e');
    }
    if s.len() == 5 && crate::character::spec_lower_char(s[0]) == 'c'
        && crate::character::spec_lower_char(s[4]) == 't' && is_alpha(s[1]) && is_alpha(s[2])
        && is_alpha(s[3]) && (exists|i: int|
        0 <= i < 5 && crate::character::spec_lower_char(#[trigger] s[i]) == 'e') {
        assert(is_alpha(s[0])) by {
            if crate::character::spec_character_of_char(s[0]) is None {
                assert(crate::character::spec_lower_char(s[0]) == s[0]);
                assert(s[0] == 'c');
            }
        }
        assert(is_alpha(s[4])) by {
            if crate::character::spec_character_of_char(s[4]) is None {
                assert(crate::character::spec_lower_char(s[4]) == s[4]);
                assert(s[4] == 't');
            }
        }
        let i = choose|i: int|
            0 <= i < 5 && crate::character::spec_lower_char(#[trigger] s[i]) == 'e';
        assert(i != 0 && i != 4);
        assert(crate::character::spec_lower_char(s[i]) == crate::character::spec_lower_char('e')
            && (forall|j: int| 0 <= j < s.len() && j != i ==> is_alpha(#[trigger] s[j])));
        assert(term_allows(q.terms@[1].terms@[0], h));
        assert(term_allows(q.terms@[0].terms@[0], h)) by {
            assert forall|j: int| 1 <= j < 4 implies is_alpha(#[trigger] s[j]) by {}
        }
    }
}

} // verus!
