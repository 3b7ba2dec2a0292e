//! The lexicon data model that the dictionary builder reads, and the rules
//! that turn its entries into dictionary rows.

use vstd::prelude::*;

use crate::character::spec_character_of_char;

verus! {

/// A whole lexical resource file.
pub struct LexicalResource {
    pub lexicon: Lexicon,
}

/// One lexicon: its descriptive header and its entries.
pub struct Lexicon {
    pub id: String,
    pub label: String,
    pub language: String,
    pub email: String,
    pub license: String,
    pub version: String,
    pub url: Option<String>,
    pub citation: Option<String>,
    pub lexical_entries: Vec<LexicalEntry>,
    pub synsets: Vec<Synset>,
    pub behaviours: Vec<SyntacticBehaviour>,
}

/// One entry: a lemma and its senses.
pub struct LexicalEntry {
    pub id: String,
    pub lemma: Lemma,
    pub senses: Vec<Sense>,
}

/// A written form with its part of speech.
pub struct Lemma {
    pub written_form: String,
    pub part_of_speech: PartOfSpeech,
    pub pronunciations: Vec<Pronunciation>,
}

pub struct Pronunciation {
    pub variety: Option<String>,
    pub text: String,
}

pub struct Sense {
    pub id: String,
    pub synset: String,
    pub sense_relations: Vec<Relation>,
}

pub struct Relation {
    pub rel_type: String,
    pub target: String,
}

pub struct Synset {
    pub id: String,
    pub ili: String,
    pub members: String,
    pub part_of_speech: PartOfSpeech,
    pub subject: Option<String>,
    pub definition: Option<String>,
    pub synset_relations: Vec<Relation>,
}

pub struct SyntacticBehaviour {}

/// The parts of speech the lexicon distinguishes.
#[derive(Clone, Copy, PartialEq, Eq, Structural, Debug)]
pub enum PartOfSpeech {
    Noun,
    Verb,
    Adjective,
    Adverb,
    AdjectiveSatellite,
    FirstName,
    LastName,
}

impl PartOfSpeech {
    /// The dictionary file's one-letter code: satellite adjectives file as
    /// plain adjectives.
    pub open spec fn spec_code(self) -> Seq<char> {
        match self {
            PartOfSpeech::Noun => "n"@,
            PartOfSpeech::Verb => "v"@,
            PartOfSpeech::Adjective => "j"@,
            PartOfSpeech::Adverb => "a"@,
            PartOfSpeech::AdjectiveSatellite => "j"@,
            PartOfSpeech::FirstName => "f"@,
            PartOfSpeech::LastName => "l"@,
        }
    }

    /// The dictionary file's one-letter code for this part of speech;
    /// satellite adjectives file as plain adjectives.
    pub fn to_str(&self) -> (r: &'static str)
        ensures
            r@ == self.spec_code(),
    {
        match self {
            PartOfSpeech::Noun => "n",
            PartOfSpeech::Verb => "v",
            PartOfSpeech::Adjective => "j",
            PartOfSpeech::Adverb => "a",
            PartOfSpeech::AdjectiveSatellite => "j",
            PartOfSpeech::FirstName => "f",
            PartOfSpeech::LastName => "l",
        }
    }
}

/// Whether every character is a lower-case ASCII letter.
pub open spec fn all_lower_alpha(s: Seq<char>) -> bool {
    forall|i: int|
        0 <= i < s.len() ==> (spec_character_of_char(#[trigger] s[i]) is Some && !('A' <= s[i]
            <= 'Z'))
}

impl Lemma {
    /// Whether the lemma belongs in the dictionary: more than two
    /// characters, all of them lower-case letters.
    pub fn is_dictionary_word(&self) -> (r: bool)
        ensures
            r == (self.written_form@.len() > 2 && all_lower_alpha(self.written_form@)),
    {
        let n = self.written_form.as_str().unicode_len();
        if n <= 2 {
            return false;
        }
        let mut i: usize = 0;
        #[verifier::loop_isolation(false)]
        while i < n
            invariant
                i <= n,
                n == self.written_form@.len(),
                forall|j: int|
                    0 <= j < i ==> (spec_character_of_char(
                        #[trigger] self.written_form@[j],
                    ) is Some && !('A' <= self.written_form@[j] <= 'Z')),
            decreases n - i,
        {
            let c = self.written_form.as_str().get_char(i);
            if !crate::pattern::is_alpha_char(c) {
                return false;
            }
            if 'A' <= c && c <= 'Z' {
                return false;
            }
            i = i + 1;
        }
        true
    }
}

/// One dictionary row ready to be written out.
pub struct Word {
    pub part_of_speech: PartOfSpeech,
    pub lemma: String,
    pub definition: String,
    pub tags: String,
}

impl Word {
    /// The row's tab-separated rendering: code, lemma, definition, tags.
    pub fn to_row(&self) -> (r: String)
        ensures
            r@ == self.part_of_speech.spec_code() + seq!['\t'] + self.lemma@ + seq!['\t']
                + self.definition@ + seq!['\t'] + self.tags@,
    {
        let mut s = String::new();
        s.append(self.part_of_speech.to_str());
        s.append("\t");
        s.append(self.lemma.as_str());
        s.append("\t");
        s.append(self.definition.as_str());
        s.append("\t");
        s.append(self.tags.as_str());
        proof {
            reveal_strlit("\t");
            assert("\t"@ =~= seq!['\t']);
            assert(s@ =~= self.part_of_speech.spec_code() + seq!['\t'] + self.lemma@ + seq![
                '\t',
            ] + self.definition@ + seq!['\t'] + self.tags@);
        }
        s
    }
}

} // verus!
