//! The built-in expression catalogues: the phrase skeletons that
//! `Many(Phrase, …)` draws from, and the one-word wildcard catalogue that
//! `Many(Any, …)` draws from.

use vstd::prelude::*;

use crate::character::lower_seq;
use crate::homograph::{Homograph, PartOfSpeech};
use crate::pattern::{pattern_matches, CharacterClass, Pattern, PatternComponent};
use crate::fixed_length_expression::FixedLengthExpression;
use crate::word_query::{query_allows, term_allows, WordQuery, WordQueryDisjunction,
    WordQueryTerm};

verus! {

/// A one-atom query: it allows exactly what the atom allows.
fn single_query(t: WordQueryTerm) -> (r: WordQuery)
    ensures
        r.words_len_one(),
        forall|h: Homograph| #[trigger] query_allows(r, h) == term_allows(r.first_term(), h),
        forall|h: Homograph| term_allows(#[trigger] r.first_term(), h) == term_allows(t, h),
{
    let r = WordQuery { terms: vec![WordQueryDisjunction { terms: vec![t] }] };
    proof {
        assert(r.terms@[0].terms@.len() == 1);
        assert forall|h: Homograph| #[trigger] query_allows(r, h) == term_allows(
            r.first_term(),
            h,
        ) by {
            lemma_single_query_collapse(r, h);
        }
    }
    r
}

/// A two-atom conjunction: it allows exactly what both atoms allow.
fn conj_query(a: WordQueryTerm, b: WordQueryTerm) -> (r: WordQuery)
    ensures
        forall|h: Homograph|
            #[trigger] query_allows(r, h) == (term_allows(r.conj_first(), h) && term_allows(
                r.conj_second(),
                h,
            )),
        forall|h: Homograph| term_allows(#[trigger] r.conj_first(), h) == term_allows(a, h),
        forall|h: Homograph| term_allows(#[trigger] r.conj_second(), h) == term_allows(b, h),
{
    let r = WordQuery {
        terms: vec![
            WordQueryDisjunction { terms: vec![a] },
            WordQueryDisjunction { terms: vec![b] },
        ],
    };
    proof {
        assert forall|h: Homograph| #[trigger] query_allows(r, h) == (term_allows(
            r.conj_first(),
            h,
        ) && term_allows(r.conj_second(), h)) by {
            lemma_conj_query_collapse(r, h);
        }
    }
    r
}

impl WordQuery {
    /// Whether this query is one disjunction holding one atom.
    pub open spec fn words_len_one(self) -> bool {
        self.terms@.len() == 1 && self.terms@[0].terms@.len() == 1
    }

    /// The single atom of a one-atom query.
    pub open spec fn first_term(self) -> WordQueryTerm {
        self.terms@[0].terms@[0]
    }

    /// The first atom of a two-singleton conjunction.
    pub open spec fn conj_first(self) -> WordQueryTerm {
        self.terms@[0].terms@[0]
    }

    /// The second atom of a two-singleton conjunction.
    pub open spec fn conj_second(self) -> WordQueryTerm {
        self.terms@[1].terms@[0]
    }
}

/// A one-atom query stands or falls with its atom.
proof fn lemma_single_query_collapse(q: WordQuery, h: Homograph)
    requires
        q.terms@.len() == 1,
        q.terms@[0].terms@.len() == 1,
    ensures
        query_allows(q, h) == term_allows(q.terms@[0].terms@[0], h),
{
    if term_allows(q.terms@[0].terms@[0], h) {
        assert(crate::word_query::disj_allows(q.terms@[0], h));
        assert forall|i: int| 0 <= i < q.terms@.len() implies crate::word_query::disj_allows(
            #[trigger] q.terms@[i],
            h,
        ) by {
            assert(i == 0);
        }
    }
    if query_allows(q, h) {
        assert(crate::word_query::disj_allows(q.terms@[0], h));
        let w = choose|i: int|
            0 <= i < q.terms@[0].terms@.len() && term_allows(
                #[trigger] q.terms@[0].terms@[i],
                h,
            );
        assert(w == 0);
    }
}

/// A conjunction of two singleton disjunctions stands or falls with its
/// two atoms.
proof fn lemma_conj_query_collapse(q: WordQuery, h: Homograph)
    requires
        q.terms@.len() == 2,
        q.terms@[0].terms@.len() == 1,
        q.terms@[1].terms@.len() == 1,
    ensures
        query_allows(q, h) == (term_allows(q.terms@[0].terms@[0], h) && term_allows(
            q.terms@[1].terms@[0],
            h,
        )),
{
    if term_allows(q.terms@[0].terms@[0], h) && term_allows(q.terms@[1].terms@[0], h) {
        assert(crate::word_query::disj_allows(q.terms@[0], h));
        assert(crate::word_query::disj_allows(q.terms@[1], h));
        assert forall|i: int| 0 <= i < q.terms@.len() implies crate::word_query::disj_allows(
            #[trigger] q.terms@[i],
            h,
        ) by {
            assert(i == 0 || i == 1);
        }
    }
    if query_allows(q, h) {
        assert(crate::word_query::disj_allows(q.terms@[0], h));
        assert(crate::word_query::disj_allows(q.terms@[1], h));
        let w0 = choose|i: int|
            0 <= i < q.terms@[0].terms@.len() && term_allows(
                #[trigger] q.terms@[0].terms@[i],
                h,
            );
        assert(w0 == 0);
        let w1 = choose|i: int|
            0 <= i < q.terms@[1].terms@.len() && term_allows(
                #[trigger] q.terms@[1].terms@[i],
                h,
            );
        assert(w1 == 0);
    }
}

/// A bare literal word: it allows exactly the words with its text,
/// case-blind.
fn lit_term(text: &str) -> (r: WordQueryTerm)
    ensures
        forall|h: Homograph|
            #[trigger] term_allows(r, h) == (lower_seq(h.text@) == lower_seq(text@)),
{
    let mut s = String::new();
    s.append(text);
    let r = WordQueryTerm::Literal(
        Homograph { text: s, is_single_word: true, meanings: Vec::new() },
    );
    proof {
        assert forall|h: Homograph| #[trigger] term_allows(r, h) == (lower_seq(h.text@)
            == lower_seq(text@)) by {
            assert(r->Literal_0.text@ == text@);
        }
    }
    r
}

/// A pattern of one leading character class followed by anything.
fn class_pattern(c: CharacterClass) -> (r: WordQueryTerm)
    ensures
        forall|h: Homograph|
            #[trigger] term_allows(r, h) == pattern_matches(
                seq![
                    PatternComponent::CharacterClass(c),
                    PatternComponent::Any,
                ],
                h.text@,
            ),
{
    let r = WordQueryTerm::Pattern(
        Pattern { components: vec![PatternComponent::CharacterClass(c), PatternComponent::Any] },
    );
    proof {
        assert forall|h: Homograph| #[trigger] term_allows(r, h) == pattern_matches(
            seq![PatternComponent::CharacterClass(c), PatternComponent::Any],
            h.text@,
        ) by {
            assert(r->Pattern_0.components@ =~= seq![
                PatternComponent::CharacterClass(c),
                PatternComponent::Any,
            ]);
        }
    }
    r
}

/// Whether a query slot allows exactly the words with a literal text.
pub open spec fn slot_is_literal(q: WordQuery, text: Seq<char>) -> bool {
    forall|h: Homograph|
        #[trigger] query_allows(q, h) == (lower_seq(h.text@) == lower_seq(text))
}

/// Whether a query slot allows exactly the words with a part of speech.
pub open spec fn slot_is_pos(q: WordQuery, pos: PartOfSpeech) -> bool {
    forall|h: Homograph| #[trigger] query_allows(q, h) == h.spec_has_pos(pos)
}

/// Whether a query slot allows every word.
pub open spec fn slot_is_any(q: WordQuery) -> bool {
    forall|h: Homograph| #[trigger] query_allows(q, h)
}

/// Whether a query slot allows exactly the words with a part of speech
/// whose text starts with a character of the class.
pub open spec fn slot_is_pos_class(q: WordQuery, pos: PartOfSpeech, c: CharacterClass) -> bool {
    forall|h: Homograph|
        #[trigger] query_allows(q, h) == (h.spec_has_pos(pos) && pattern_matches(
            seq![PatternComponent::CharacterClass(c), PatternComponent::Any],
            h.text@,
        ))
}

/// A one-atom wildcard query allows every word.
proof fn lemma_slot_single_any(q: WordQuery, t: WordQueryTerm)
    requires
        q.words_len_one(),
        forall|h: Homograph| #[trigger] query_allows(q, h) == term_allows(q.first_term(), h),
        forall|h: Homograph| term_allows(#[trigger] q.first_term(), h) == term_allows(t, h),
        t is Any,
    ensures
        slot_is_any(q),
{
    assert forall|h: Homograph| #[trigger] query_allows(q, h) by {
        assert(query_allows(q, h) == term_allows(q.first_term(), h));
        assert(term_allows(q.first_term(), h) == term_allows(t, h));
    }
}

/// A one-atom literal query allows exactly the words with the text.
proof fn lemma_slot_single_lit(q: WordQuery, t: WordQueryTerm, text: Seq<char>)
    requires
        q.words_len_one(),
        forall|h: Homograph| #[trigger] query_allows(q, h) == term_allows(q.first_term(), h),
        forall|h: Homograph| term_allows(#[trigger] q.first_term(), h) == term_allows(t, h),
        forall|h: Homograph|
            #[trigger] term_allows(t, h) == (lower_seq(h.text@) == lower_seq(text)),
    ensures
        slot_is_literal(q, text),
{
    assert forall|h: Homograph| #[trigger] query_allows(q, h) == (lower_seq(h.text@)
        == lower_seq(text)) by {
        assert(query_allows(q, h) == term_allows(q.first_term(), h));
        assert(term_allows(q.first_term(), h) == term_allows(t, h));
        assert(term_allows(t, h) == (lower_seq(h.text@) == lower_seq(text)));
    }
}

/// A one-atom part-of-speech query allows exactly the words with it.
proof fn lemma_slot_single_pos(q: WordQuery, t: WordQueryTerm, pos: PartOfSpeech)
    requires
        q.words_len_one(),
        forall|h: Homograph| #[trigger] query_allows(q, h) == term_allows(q.first_term(), h),
        forall|h: Homograph| term_allows(#[trigger] q.first_term(), h) == term_allows(t, h),
        t == WordQueryTerm::PartOfSpeech(pos),
    ensures
        slot_is_pos(q, pos),
{
    assert forall|h: Homograph| #[trigger] query_allows(q, h) == h.spec_has_pos(pos) by {
        assert(query_allows(q, h) == term_allows(q.first_term(), h));
        assert(term_allows(q.first_term(), h) == term_allows(t, h));
        assert(term_allows(t, h) == h.spec_has_pos(pos));
    }
}

/// A part-of-speech atom joined with a leading-class pattern allows
/// exactly the words with both.
proof fn lemma_slot_conj_pos_class(
    q: WordQuery,
    a: WordQueryTerm,
    b: WordQueryTerm,
    pos: PartOfSpeech,
    c: CharacterClass,
)
    requires
        forall|h: Homograph|
            #[trigger] query_allows(q, h) == (term_allows(q.conj_first(), h) && term_allows(
                q.conj_second(),
                h,
            )),
        forall|h: Homograph| term_allows(#[trigger] q.conj_first(), h) == term_allows(a, h),
        forall|h: Homograph| term_allows(#[trigger] q.conj_second(), h) == term_allows(b, h),
        a == WordQueryTerm::PartOfSpeech(pos),
        forall|h: Homograph|
            #[trigger] term_allows(b, h) == pattern_matches(
                seq![
                    PatternComponent::CharacterClass(c),
                    PatternComponent::Any,
                ],
                h.text@,
            ),
    ensures
        slot_is_pos_class(q, pos, c),
{
    assert forall|h: Homograph| #[trigger] query_allows(q, h) == (h.spec_has_pos(pos)
        && pattern_matches(
        seq![PatternComponent::CharacterClass(c), PatternComponent::Any],
        h.text@,
    )) by {
        assert(query_allows(q, h) == (term_allows(q.conj_first(), h) && term_allows(
            q.conj_second(),
            h,
        )));
        assert(term_allows(q.conj_first(), h) == term_allows(a, h));
        assert(term_allows(q.conj_second(), h) == term_allows(b, h));
        assert(term_allows(a, h) == h.spec_has_pos(pos));
    }
}

/// The phrase skeletons, in order: a bare word; `the` + noun;
/// adjective + noun; `a`/`an` + class-checked noun; `the` + adjective +
/// noun; `a`/`an` + class-checked adjective + noun; adverb + verb.
pub fn get_phrase_expressions() -> (r: Vec<FixedLengthExpression>)
    ensures
        r@.len() == 9,
        r@[0].words@.len() == 1 && slot_is_any(r@[0].words@[0]),
        r@[1].words@.len() == 2 && slot_is_literal(r@[1].words@[0], "the"@) && slot_is_pos(
            r@[1].words@[1],
            PartOfSpeech::Noun,
        ),
        r@[2].words@.len() == 2 && slot_is_pos(r@[2].words@[0], PartOfSpeech::Adjective)
            && slot_is_pos(r@[2].words@[1], PartOfSpeech::Noun),
        r@[3].words@.len() == 2 && slot_is_literal(r@[3].words@[0], "a"@) && slot_is_pos_class(
            r@[3].words@[1],
            PartOfSpeech::Noun,
            CharacterClass::Consonant,
        ),
        r@[4].words@.len() == 2 && slot_is_literal(r@[4].words@[0], "an"@) && slot_is_pos_class(
            r@[4].words@[1],
            PartOfSpeech::Noun,
            CharacterClass::Vowel,
        ),
        r@[5].words@.len() == 3 && slot_is_literal(r@[5].words@[0], "the"@) && slot_is_pos(
            r@[5].words@[1],
            PartOfSpeech::Adjective,
        ) && slot_is_pos(r@[5].words@[2], PartOfSpeech::Noun),
        r@[6].words@.len() == 3 && slot_is_literal(r@[6].words@[0], "a"@) && slot_is_pos_class(
            r@[6].words@[1],
            PartOfSpeech::Adjective,
            CharacterClass::Consonant,
        ) && slot_is_pos(r@[6].words@[2], PartOfSpeech::Noun),
        r@[7].words@.len() == 3 && slot_is_literal(r@[7].words@[0], "an"@) && slot_is_pos_class(
            r@[7].words@[1],
            PartOfSpeech::Adjective,
            CharacterClass::Vowel,
        ) && slot_is_pos(r@[7].words@[2], PartOfSpeech::Noun),
        r@[8].words@.len() == 2 && slot_is_pos(r@[8].words@[0], PartOfSpeech::Adverb)
            && slot_is_pos(r@[8].words@[1], PartOfSpeech::Verb),
{
    let mut v: Vec<FixedLengthExpression> = Vec::new();
    // *
    let t_any0 = WordQueryTerm::Any;
    let any0 = single_query(t_any0);
    v.push(FixedLengthExpression { words: vec![any0] });
    // the #n
    let lt_the1 = lit_term("the");
    let the1 = single_query(lt_the1);
    let t_noun1 = WordQueryTerm::PartOfSpeech(PartOfSpeech::Noun);
    let noun1 = single_query(t_noun1);
    v.push(FixedLengthExpression { words: vec![the1, noun1] });
    // #j #n
    let t_adj2 = WordQueryTerm::PartOfSpeech(PartOfSpeech::Adjective);
    let adj2 = single_query(t_adj2);
    let t_noun2 = WordQueryTerm::PartOfSpeech(PartOfSpeech::Noun);
    let noun2 = single_query(t_noun2);
    v.push(FixedLengthExpression { words: vec![adj2, noun2] });
    // a #n + @c*
    let lt_a3 = lit_term("a");
    let a3 = single_query(lt_a3);
    let t_noun3 = WordQueryTerm::PartOfSpeech(PartOfSpeech::Noun);
    let cp_noun3 = class_pattern(CharacterClass::Consonant);
    let noun3 = conj_query(t_noun3, cp_noun3);
    v.push(FixedLengthExpression { words: vec![a3, noun3] });
    // an #n + @v*
    let lt_an4 = lit_term("an");
    let an4 = single_query(lt_an4);
    let t_noun4 = WordQueryTerm::PartOfSpeech(PartOfSpeech::Noun);
    let cp_noun4 = class_pattern(CharacterClass::Vowel);
    let noun4 = conj_query(t_noun4, cp_noun4);
    v.push(FixedLengthExpression { words: vec![an4, noun4] });
    // the #j #n
    let lt_the5 = lit_term("the");
    let the5 = single_query(lt_the5);
    let t_adj5 = WordQueryTerm::PartOfSpeech(PartOfSpeech::Adjective);
    let adj5 = single_query(t_adj5);
    let t_noun5 = WordQueryTerm::PartOfSpeech(PartOfSpeech::Noun);
    let noun5 = single_query(t_noun5);
    v.push(FixedLengthExpression { words: vec![the5, adj5, noun5] });
    // a #j + @c* #n
    let lt_a6 = lit_term("a");
    let a6 = single_query(lt_a6);
    let t_adj6 = WordQueryTerm::PartOfSpeech(PartOfSpeech::Adjective);
    let cp_adj6 = class_pattern(CharacterClass::Consonant);
    let adj6 = conj_query(t_adj6, cp_adj6);
    let t_noun6 = WordQueryTerm::PartOfSpeech(PartOfSpeech::Noun);
    let noun6 = single_query(t_noun6);
    v.push(FixedLengthExpression { words: vec![a6, adj6, noun6] });
    // an #j + @v* #n
    let lt_an7 = lit_term("an");
    let an7 = single_query(lt_an7);
    let t_adj7 = WordQueryTerm::PartOfSpeech(PartOfSpeech::Adjective);
    let cp_adj7 = class_pattern(CharacterClass::Vowel);
    let adj7 = conj_query(t_adj7, cp_adj7);
    let t_noun7 = WordQueryTerm::PartOfSpeech(PartOfSpeech::Noun);
    let noun7 = single_query(t_noun7);
    v.push(FixedLengthExpression { words: vec![an7, adj7, noun7] });
    // #a #v
    let t_adv8 = WordQueryTerm::PartOfSpeech(PartOfSpeech::Adverb);
    let adv8 = single_query(t_adv8);
    let t_verb8 = WordQueryTerm::PartOfSpeech(PartOfSpeech::Verb);
    let verb8 = single_query(t_verb8);
    v.push(FixedLengthExpression { words: vec![adv8, verb8] });
    proof {
        assert(v@[0].words@[0] == any0);
        assert(v@[1].words@[0] == the1 && v@[1].words@[1] == noun1);
        assert(v@[2].words@[0] == adj2 && v@[2].words@[1] == noun2);
        assert(v@[3].words@[0] == a3 && v@[3].words@[1] == noun3);
        assert(v@[4].words@[0] == an4 && v@[4].words@[1] == noun4);
        assert(v@[5].words@[0] == the5 && v@[5].words@[1] == adj5 && v@[5].words@[2] == noun5);
        assert(v@[6].words@[0] == a6 && v@[6].words@[1] == adj6 && v@[6].words@[2] == noun6);
        assert(v@[7].words@[0] == an7 && v@[7].words@[1] == adj7 && v@[7].words@[2] == noun7);
        assert(v@[8].words@[0] == adv8 && v@[8].words@[1] == verb8);
        lemma_slot_single_any(any0, t_any0);
        lemma_slot_single_lit(the1, lt_the1, "the"@);
        lemma_slot_single_pos(noun1, t_noun1, PartOfSpeech::Noun);
        lemma_slot_single_pos(adj2, t_adj2, PartOfSpeech::Adjective);
        lemma_slot_single_pos(noun2, t_noun2, PartOfSpeech::Noun);
        lemma_slot_single_lit(a3, lt_a3, "a"@);
        lemma_slot_conj_pos_class(
            noun3,
            t_noun3,
            cp_noun3,
            PartOfSpeech::Noun,
            CharacterClass::Consonant,
        );
        lemma_slot_single_lit(an4, lt_an4, "an"@);
        lemma_slot_conj_pos_class(
            noun4,
            t_noun4,
            cp_noun4,
            PartOfSpeech::Noun,
            CharacterClass::Vowel,
        );
        lemma_slot_single_lit(the5, lt_the5, "the"@);
        lemma_slot_single_pos(adj5, t_adj5, PartOfSpeech::Adjective);
        lemma_slot_single_pos(noun5, t_noun5, PartOfSpeech::Noun);
        lemma_slot_single_lit(a6, lt_a6, "a"@);
        lemma_slot_conj_pos_class(
            adj6,
            t_adj6,
            cp_adj6,
            PartOfSpeech::Adjective,
            CharacterClass::Consonant,
        );
        lemma_slot_single_pos(noun6, t_noun6, PartOfSpeech::Noun);
        lemma_slot_single_lit(an7, lt_an7, "an"@);
        lemma_slot_conj_pos_class(
            adj7,
            t_adj7,
            cp_adj7,
            PartOfSpeech::Adjective,
            CharacterClass::Vowel,
        );
        lemma_slot_single_pos(noun7, t_noun7, PartOfSpeech::Noun);
        lemma_slot_single_pos(adv8, t_adv8, PartOfSpeech::Adverb);
        lemma_slot_single_pos(verb8, t_verb8, PartOfSpeech::Verb);
    }
    v
}

/// The wildcard catalogue: one template of one free word.
pub fn get_many_any_expressions() -> (r: Vec<FixedLengthExpression>)
    ensures
        r@.len() == 1,
        r@[0].words@.len() == 1 && slot_is_any(r@[0].words@[0]),
{
    let mut v: Vec<FixedLengthExpression> = Vec::new();
    let t_any0 = WordQueryTerm::Any;
    let any0 = single_query(t_any0);
    v.push(FixedLengthExpression { words: vec![any0] });
    proof {
        assert(v@[0].words@[0] == any0);
        lemma_slot_single_any(any0, t_any0);
    }
    v
}

} // verus!
