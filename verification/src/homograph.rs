//! Words and their meanings: a homograph groups every meaning that shares
//! one written form; each meaning carries a part of speech, a set of tags
//! and an optional definition.

use vstd::prelude::*;

use crate::character::lower_seq;

verus! {

#[derive(Clone, Copy, PartialEq, Eq, Structural, Debug, Hash)]
pub enum PartOfSpeech {
    Noun,
    Verb,
    Adjective,
    Adverb,
    Preposition,
    Interjection,
    Conjunction,
    Pronoun,
    FirstName,
    LastName,
}

/// The number of parts of speech; bucket vectors have this many slots.
pub const PART_OF_SPEECH_COUNT: usize = 10;

impl PartOfSpeech {
    /// The display name of this part of speech.
    pub open spec fn spec_name(self) -> Seq<char> {
        match self {
            PartOfSpeech::Noun => "Noun"@,
            PartOfSpeech::Verb => "Verb"@,
            PartOfSpeech::Adjective => "Adjective"@,
            PartOfSpeech::Adverb => "Adverb"@,
            PartOfSpeech::Preposition => "Preposition"@,
            PartOfSpeech::Interjection => "Interjection"@,
            PartOfSpeech::Conjunction => "Conjunction"@,
            PartOfSpeech::Pronoun => "Pronoun"@,
            PartOfSpeech::FirstName => "First Name"@,
            PartOfSpeech::LastName => "Last Name"@,
        }
    }

    pub fn name(&self) -> (r: &'static str)
        ensures
            r@ == self.spec_name(),
    {
        match self {
            PartOfSpeech::Noun => "Noun",
            PartOfSpeech::Verb => "Verb",
            PartOfSpeech::Adjective => "Adjective",
            PartOfSpeech::Adverb => "Adverb",
            PartOfSpeech::Preposition => "Preposition",
            PartOfSpeech::Interjection => "Interjection",
            PartOfSpeech::Conjunction => "Conjunction",
            PartOfSpeech::Pronoun => "Pronoun",
            PartOfSpeech::FirstName => "First Name",
            PartOfSpeech::LastName => "Last Name",
        }
    }

    /// A stable position for each part of speech, used to index bucket
    /// vectors.
    pub open spec fn spec_index(self) -> nat {
        match self {
            PartOfSpeech::Noun => 0,
            PartOfSpeech::Verb => 1,
            PartOfSpeech::Adjective => 2,
            PartOfSpeech::Adverb => 3,
            PartOfSpeech::Preposition => 4,
            PartOfSpeech::Interjection => 5,
            PartOfSpeech::Conjunction => 6,
            PartOfSpeech::Pronoun => 7,
            PartOfSpeech::FirstName => 8,
            PartOfSpeech::LastName => 9,
        }
    }

    pub fn index(&self) -> (r: usize)
        ensures
            r as nat == self.spec_index(),
            r < PART_OF_SPEECH_COUNT,
    {
        match self {
            PartOfSpeech::Noun => 0,
            PartOfSpeech::Verb => 1,
            PartOfSpeech::Adjective => 2,
            PartOfSpeech::Adverb => 3,
            PartOfSpeech::Preposition => 4,
            PartOfSpeech::Interjection => 5,
            PartOfSpeech::Conjunction => 6,
            PartOfSpeech::Pronoun => 7,
            PartOfSpeech::FirstName => 8,
            PartOfSpeech::LastName => 9,
        }
    }

    /// The part of speech a code names, case-blind: the one-letter file
    /// codes `n v j a p i c r f l` and the spelled-out names.
    pub open spec fn spec_of_code(s: Seq<char>) -> Option<PartOfSpeech> {
        let l = lower_seq(s);
        if l == "n"@ || l == "noun"@ {
            Some(PartOfSpeech::Noun)
        } else if l == "v"@ || l == "verb"@ {
            Some(PartOfSpeech::Verb)
        } else if l == "j"@ || l == "adjective"@ {
            Some(PartOfSpeech::Adjective)
        } else if l == "a"@ || l == "adverb"@ {
            Some(PartOfSpeech::Adverb)
        } else if l == "p"@ || l == "preposition"@ {
            Some(PartOfSpeech::Preposition)
        } else if l == "i"@ || l == "interjection"@ {
            Some(PartOfSpeech::Interjection)
        } else if l == "c"@ || l == "conjunction"@ {
            Some(PartOfSpeech::Conjunction)
        } else if l == "r"@ || l == "pronoun"@ {
            Some(PartOfSpeech::Pronoun)
        } else if l == "f"@ || l == "firstname"@ {
            Some(PartOfSpeech::FirstName)
        } else if l == "l"@ || l == "lastname"@ {
            Some(PartOfSpeech::LastName)
        } else {
            None
        }
    }

    pub fn from_str(s: &str) -> (r: Result<PartOfSpeech, &'static str>)
        ensures
            match PartOfSpeech::spec_of_code(s@) {
                Some(p) => r == Ok::<PartOfSpeech, &'static str>(p),
                None => r is Err,
            },
    {
        proof {
            reveal_strlit("n");
            reveal_strlit("noun");
            reveal_strlit("v");
            reveal_strlit("verb");
            reveal_strlit("j");
            reveal_strlit("adjective");
            reveal_strlit("a");
            reveal_strlit("adverb");
            reveal_strlit("p");
            reveal_strlit("preposition");
            reveal_strlit("i");
            reveal_strlit("interjection");
            reveal_strlit("c");
            reveal_strlit("conjunction");
            reveal_strlit("r");
            reveal_strlit("pronoun");
            reveal_strlit("f");
            reveal_strlit("firstname");
            reveal_strlit("l");
            reveal_strlit("lastname");
            assert(lower_seq("n"@) =~= "n"@);
            assert(lower_seq("noun"@) =~= "noun"@);
            assert(lower_seq("v"@) =~= "v"@);
            assert(lower_seq("verb"@) =~= "verb"@);
            assert(lower_seq("j"@) =~= "j"@);
            assert(lower_seq("adjective"@) =~= "adjective"@);
            assert(lower_seq("a"@) =~= "a"@);
            assert(lower_seq("adverb"@) =~= "adverb"@);
            assert(lower_seq("p"@) =~= "p"@);
            assert(lower_seq("preposition"@) =~= "preposition"@);
            assert(lower_seq("i"@) =~= "i"@);
            assert(lower_seq("interjection"@) =~= "interjection"@);
            assert(lower_seq("c"@) =~= "c"@);
            assert(lower_seq("conjunction"@) =~= "conjunction"@);
            assert(lower_seq("r"@) =~= "r"@);
            assert(lower_seq("pronoun"@) =~= "pronoun"@);
            assert(lower_seq("f"@) =~= "f"@);
            assert(lower_seq("firstname"@) =~= "firstname"@);
            assert(lower_seq("l"@) =~= "l"@);
            assert(lower_seq("lastname"@) =~= "lastname"@);
        }
        if crate::text::eq_ignore_case(s, "n") || crate::text::eq_ignore_case(s, "noun") {
            Ok(PartOfSpeech::Noun)
        } else if crate::text::eq_ignore_case(s, "v") || crate::text::eq_ignore_case(s, "verb") {
            Ok(PartOfSpeech::Verb)
        } else if crate::text::eq_ignore_case(s, "j") || crate::text::eq_ignore_case(
            s,
            "adjective",
        ) {
            Ok(PartOfSpeech::Adjective)
        } else if crate::text::eq_ignore_case(s, "a") || crate::text::eq_ignore_case(s, "adverb") {
            Ok(PartOfSpeech::Adverb)
        } else if crate::text::eq_ignore_case(s, "p") || crate::text::eq_ignore_case(
            s,
            "preposition",
        ) {
            Ok(PartOfSpeech::Preposition)
        } else if crate::text::eq_ignore_case(s, "i") || crate::text::eq_ignore_case(
            s,
            "interjection",
        ) {
            Ok(PartOfSpeech::Interjection)
        } else if crate::text::eq_ignore_case(s, "c") || crate::text::eq_ignore_case(
            s,
            "conjunction",
        ) {
            Ok(PartOfSpeech::Conjunction)
        } else if crate::text::eq_ignore_case(s, "r") || crate::text::eq_ignore_case(s, "pronoun") {
            Ok(PartOfSpeech::Pronoun)
        } else if crate::text::eq_ignore_case(s, "f") || crate::text::eq_ignore_case(
            s,
            "firstname",
        ) {
            Ok(PartOfSpeech::FirstName)
        } else if crate::text::eq_ignore_case(s, "l") || crate::text::eq_ignore_case(
            s,
            "lastname",
        ) {
            Ok(PartOfSpeech::LastName)
        } else {
            Err("Could not parse part of speech")
        }
    }
}

#[derive(Clone, Copy, PartialEq, Eq, Structural, Debug, Hash)]
pub enum WordTag {
    Masculine,
    Feminine,
    Positive,
    Negative,
}

impl WordTag {
    /// The tag a word names, case-blind.
    pub open spec fn spec_of_code(s: Seq<char>) -> Option<WordTag> {
        let l = lower_seq(s);
        if l == "masculine"@ {
            Some(WordTag::Masculine)
        } else if l == "feminine"@ {
            Some(WordTag::Feminine)
        } else if l == "positive"@ {
            Some(WordTag::Positive)
        } else if l == "negative"@ {
            Some(WordTag::Negative)
        } else {
            None
        }
    }

    pub fn from_str(s: &str) -> (r: Result<WordTag, &'static str>)
        ensures
            match WordTag::spec_of_code(s@) {
                Some(t) => r == Ok::<WordTag, &'static str>(t),
                None => r is Err,
            },
    {
        proof {
            reveal_strlit("masculine");
            reveal_strlit("feminine");
            reveal_strlit("positive");
            reveal_strlit("negative");
            assert(lower_seq("masculine"@) =~= "masculine"@);
            assert(lower_seq("feminine"@) =~= "feminine"@);
            assert(lower_seq("positive"@) =~= "positive"@);
            assert(lower_seq("negative"@) =~= "negative"@);
        }
        if crate::text::eq_ignore_case(s, "masculine") {
            Ok(WordTag::Masculine)
        } else if crate::text::eq_ignore_case(s, "feminine") {
            Ok(WordTag::Feminine)
        } else if crate::text::eq_ignore_case(s, "positive") {
            Ok(WordTag::Positive)
        } else if crate::text::eq_ignore_case(s, "negative") {
            Ok(WordTag::Negative)
        } else {
            Err("Could not parse tag")
        }
    }
}

/// A set of word tags.
#[derive(Clone, Copy, PartialEq, Eq, Structural, Debug)]
pub struct TagSet {
    pub masculine: bool,
    pub feminine: bool,
    pub positive: bool,
    pub negative: bool,
}

impl TagSet {
    pub open spec fn spec_contains(self, t: WordTag) -> bool {
        match t {
            WordTag::Masculine => self.masculine,
            WordTag::Feminine => self.feminine,
            WordTag::Positive => self.positive,
            WordTag::Negative => self.negative,
        }
    }

    pub fn empty() -> (r: TagSet)
        ensures
            r == (TagSet { masculine: false, feminine: false, positive: false, negative: false }),
    {
        TagSet { masculine: false, feminine: false, positive: false, negative: false }
    }

    pub fn contains(&self, t: WordTag) -> (r: bool)
        ensures
            r == self.spec_contains(t),
    {
        match t {
            WordTag::Masculine => self.masculine,
            WordTag::Feminine => self.feminine,
            WordTag::Positive => self.positive,
            WordTag::Negative => self.negative,
        }
    }

    /// The set with one more tag.
    pub open spec fn spec_insert(self, t: WordTag) -> TagSet {
        TagSet {
            masculine: self.masculine || t == WordTag::Masculine,
            feminine: self.feminine || t == WordTag::Feminine,
            positive: self.positive || t == WordTag::Positive,
            negative: self.negative || t == WordTag::Negative,
        }
    }

    pub fn insert(&mut self, t: WordTag)
        ensures
            *final(self) == old(self).spec_insert(t),
    {
        match t {
            WordTag::Masculine => {
                self.masculine = true;
            },
            WordTag::Feminine => {
                self.feminine = true;
            },
            WordTag::Positive => {
                self.positive = true;
            },
            WordTag::Negative => {
                self.negative = true;
            },
        }
    }
}

/// Two parts of speech with one bucket index are the same.
pub proof fn lemma_pos_index_injective(a: PartOfSpeech, b: PartOfSpeech)
    requires
        a.spec_index() == b.spec_index(),
    ensures
        a == b,
{
}

/// One meaning of a written form.
#[derive(Debug)]
pub struct Meaning {
    pub part_of_speech: PartOfSpeech,
    pub tags: TagSet,
    pub definition: Option<String>,
}

impl Clone for Meaning {
    fn clone(&self) -> (r: Self)
        ensures
            r == *self,
    {
        Meaning {
            part_of_speech: self.part_of_speech,
            tags: self.tags,
            definition: match &self.definition {
                Some(d) => Some(d.clone()),
                None => None,
            },
        }
    }
}

/// A written form together with all its meanings.  Two homographs count as
/// the same word when their texts are equal.
#[derive(Debug)]
pub struct Homograph {
    pub text: String,
    pub is_single_word: bool,
    pub meanings: Vec<Meaning>,
}

impl Clone for Homograph {
    fn clone(&self) -> (r: Self)
        ensures
            r.text == self.text,
            r.is_single_word == self.is_single_word,
            r.meanings@ == self.meanings@,
    {
        let n = self.meanings.len();
        let mut meanings: Vec<Meaning> = Vec::new();
        let mut i: usize = 0;
        while i < n
            invariant
                i <= n,
                n == self.meanings@.len(),
                meanings@ == self.meanings@.take(i as int),
            decreases n - i,
        {
            meanings.push(self.meanings[i].clone());
            proof {
                assert(meanings@ =~= self.meanings@.take(i as int + 1));
            }
            i = i + 1;
        }
        proof {
            assert(self.meanings@.take(n as int) =~= self.meanings@);
        }
        Homograph { text: self.text.clone(), is_single_word: self.is_single_word, meanings }
    }
}

/// The first definition in a list of meanings.
pub open spec fn first_def(ms: Seq<Meaning>) -> Option<Seq<char>>
    decreases ms.len(),
{
    if ms.len() == 0 {
        None
    } else {
        match ms[0].definition {
            Some(d) => Some(d@),
            None => first_def(ms.drop_first()),
        }
    }
}

impl Homograph {
    /// Whether any meaning has this part of speech.
    pub open spec fn spec_has_pos(self, pos: PartOfSpeech) -> bool {
        exists|i: int|
            0 <= i < self.meanings@.len() && self.meanings@[i].part_of_speech == pos
    }

    /// Whether any meaning carries this tag.
    pub open spec fn spec_has_tag(self, t: WordTag) -> bool {
        exists|i: int| 0 <= i < self.meanings@.len() && self.meanings@[i].tags.spec_contains(t)
    }

    /// What `first_definition` returns: the first recorded definition, else
    /// the first meaning's part-of-speech name, else a fixed placeholder.
    pub open spec fn spec_first_definition(self) -> Seq<char> {
        match first_def(self.meanings@) {
            Some(d) => d,
            None => if self.meanings@.len() > 0 {
                self.meanings@[0].part_of_speech.spec_name()
            } else {
                "Unknown Word"@
            },
        }
    }

    pub fn has_pos(&self, pos: PartOfSpeech) -> (r: bool)
        ensures
            r == self.spec_has_pos(pos),
    {
        let n = self.meanings.len();
        let mut i: usize = 0;
        while i < n
            invariant
                i <= n,
                n == self.meanings@.len(),
                forall|j: int| 0 <= j < i ==> self.meanings@[j].part_of_speech != pos,
            decreases n - i,
        {
            if self.meanings[i].part_of_speech == pos {
                return true;
            }
            i = i + 1;
        }
        false
    }

    pub fn has_tag(&self, t: WordTag) -> (r: bool)
        ensures
            r == self.spec_has_tag(t),
    {
        let n = self.meanings.len();
        let mut i: usize = 0;
        while i < n
            invariant
                i <= n,
                n == self.meanings@.len(),
                forall|j: int| 0 <= j < i ==> !self.meanings@[j].tags.spec_contains(t),
            decreases n - i,
        {
            if self.meanings[i].tags.contains(t) {
                return true;
            }
            i = i + 1;
        }
        false
    }

    /// The text shown for this word: its first recorded definition, or the
    /// name of its first part of speech, or a fixed placeholder when it has
    /// no meanings at all.
    pub fn first_definition(&self) -> (r: String)
        ensures
            r@ == self.spec_first_definition(),
    {
        let n = self.meanings.len();
        let mut i: usize = 0;
        proof {
            assert(self.meanings@.skip(0) =~= self.meanings@);
        }
        while i < n
            invariant
                i <= n,
                n == self.meanings@.len(),
                first_def(self.meanings@) == first_def(self.meanings@.skip(i as int)),
                forall|j: int| 0 <= j < i ==> self.meanings@[j].definition is None,
            decreases n - i,
        {
            proof {
                assert(self.meanings@.skip(i as int)[0] == self.meanings@[i as int]);
                assert(self.meanings@.skip(i as int).drop_first() =~= self.meanings@.skip(
                    i as int + 1,
                ));
            }
            match &self.meanings[i].definition {
                Some(d) => {
                    return d.clone();
                },
                None => {},
            }
            i = i + 1;
        }
        proof {
            assert(self.meanings@.skip(n as int).len() == 0);
        }
        if n > 0 {
            let mut s = String::new();
            s.append(self.meanings[0].part_of_speech.name());
            proof {
                assert(s@ =~= self.meanings@[0].part_of_speech.spec_name());
            }
            s
        } else {
            let mut s = String::new();
            s.append("Unknown Word");
            proof {
                assert(s@ =~= "Unknown Word"@);
            }
            s
        }
    }
}

} // verus!
