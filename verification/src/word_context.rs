//! Everything a solve needs, built once: the word dictionary, the anagram
//! index derived from it, and the built-in expression catalogues.

use vstd::prelude::*;

use crate::anagram_dict::AnagramDict;
use crate::fixed_length_expression::FixedLengthExpression;
use crate::homograph::Homograph;
use crate::term_dict::TermDict;

verus! {

pub struct WordContext {
    pub term_dict: TermDict,
    pub anagram_dict: AnagramDict,
    pub phrase_expressions: Vec<FixedLengthExpression>,
    pub many_any_expressions: Vec<FixedLengthExpression>,
}

impl WordContext {
    pub open spec fn wf(self) -> bool {
        &&& self.term_dict.spec_buckets_ok()
        &&& self.anagram_dict.wf()
    }

    /// Builds the context from a loaded dictionary: derives the anagram
    /// index and compiles the expression catalogues.
    pub fn from_term_dict(term_dict: TermDict) -> (r: WordContext)
        requires
            term_dict.spec_buckets_ok(),
        ensures
            r.wf(),
            r.term_dict == term_dict,
            forall|j: int|
                0 <= j < term_dict.homographs@.len() ==> crate::anagram_dict::text_filed(
                    r.anagram_dict.words,
                    (#[trigger] term_dict.homographs@[j]).text@,
                ),
            forall|hv: (
                Seq<char>,
                bool,
                Seq<
                    (
                        crate::homograph::PartOfSpeech,
                        crate::homograph::TagSet,
                        Option<Seq<char>>,
                    ),
                >,
            )|
                #[trigger] crate::anagram_dict::map_member(r.anagram_dict.words, hv)
                    ==> crate::term_dict::hgs_view(term_dict.homographs@).contains(hv),
            (forall|a: int, b: int|
                0 <= a < b < term_dict.homographs@.len() ==> (
                #[trigger] term_dict.homographs@[a]).text@ != (
                #[trigger] term_dict.homographs@[b]).text@)
                ==> crate::anagram_dict::map_texts_distinct(r.anagram_dict.words),
    {
        let anagram_dict = AnagramDict::from_term_dict(&term_dict);
        WordContext {
            term_dict,
            anagram_dict,
            phrase_expressions: crate::phrase_expressions::get_phrase_expressions(),
            many_any_expressions: crate::phrase_expressions::get_many_any_expressions(),
        }
    }

    /// Builds the context straight from tab-separated dictionary text.
    pub fn from_csv(s: &str) -> (r: Result<WordContext, &'static str>)
        ensures
            match r {
                Ok(ctx) => {
                    &&& ctx.wf()
                    &&& crate::term_dict::parse_rows(crate::term_dict::split_lines(s@)) is Some
                    &&& crate::term_dict::hgs_view(ctx.term_dict.homographs@)
                        == crate::term_dict::group_rows(
                        crate::term_dict::parse_rows(crate::term_dict::split_lines(s@))->Some_0,
                        Seq::empty(),
                    )
                    &&& forall|j: int|
                        0 <= j < ctx.term_dict.homographs@.len()
                            ==> crate::anagram_dict::text_filed(
                            ctx.anagram_dict.words,
                            (#[trigger] ctx.term_dict.homographs@[j]).text@,
                        )
                    &&& forall|hv: (
                        Seq<char>,
                        bool,
                        Seq<
                            (
                                crate::homograph::PartOfSpeech,
                                crate::homograph::TagSet,
                                Option<Seq<char>>,
                            ),
                        >,
                    )|
                        #[trigger] crate::anagram_dict::map_member(ctx.anagram_dict.words, hv)
                            ==> crate::term_dict::hgs_view(ctx.term_dict.homographs@).contains(hv)
                    &&& crate::anagram_dict::map_texts_distinct(ctx.anagram_dict.words)
                },
                Err(_) => crate::term_dict::parse_rows(crate::term_dict::split_lines(s@))
                    is None,
            },
    {
        match TermDict::from_csv(s) {
            Ok(td) => {
                let ghost tv = td.homographs@;
                let ctx = WordContext::from_term_dict(td);
                proof {
                    crate::term_dict::lemma_group_rows_distinct_texts(
                        crate::term_dict::parse_rows(crate::term_dict::split_lines(s@))->Some_0,
                        Seq::empty(),
                    );
                    assert forall|a: int, b: int| 0 <= a < b < tv.len() implies (
                    #[trigger] tv[a]).text@ != (#[trigger] tv[b]).text@ by {
                        assert(crate::term_dict::hgs_view(tv)[a] == crate::term_dict::hg_view(
                            tv[a],
                        ));
                        assert(crate::term_dict::hgs_view(tv)[b] == crate::term_dict::hg_view(
                            tv[b],
                        ));
                    }
                }
                Ok(ctx)
            },
            Err(e) => Err(e),
        }
    }

    /// The first dictionary word with exactly this text.
    pub fn try_get(&self, word: &str) -> (r: Option<Homograph>)
        ensures
            match r {
                Some(h) => {
                    let i = crate::term_dict::index_of_text(
                        crate::term_dict::hgs_view(self.term_dict.homographs@),
                        word@,
                    );
                    i >= 0 && crate::term_dict::hg_view(h) == crate::term_dict::hgs_view(
                        self.term_dict.homographs@,
                    )[i]
                },
                None => crate::term_dict::index_of_text(
                    crate::term_dict::hgs_view(self.term_dict.homographs@),
                    word@,
                ) == -1,
            },
    {
        self.term_dict.try_find(word)
    }
}

} // verus!
