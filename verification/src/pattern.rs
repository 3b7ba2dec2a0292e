//! Glob-like character patterns: a sequence of components matched against a
//! whole word, case-blind and anchored at both ends.

use vstd::prelude::*;

use crate::character::{lower_seq, spec_character_of_char, spec_lower_char, to_lower_char};
use crate::homograph::Homograph;
use crate::text::{chars_of, dec_digits, eq_ignore_case, usize_to_string};

verus! {

/// Whether a character is an ASCII letter of either case.
pub open spec fn is_alpha(c: char) -> bool {
    spec_character_of_char(c) is Some
}

pub fn is_alpha_char(c: char) -> (r: bool)
    ensures
        r == is_alpha(c),
{
    match crate::character::Character::try_from(c) {
        Ok(_) => true,
        Err(_) => false,
    }
}

#[derive(Clone, Copy, PartialEq, Eq, Structural, Debug)]
pub enum CharacterClass {
    Vowel,
    Consonant,
}

impl CharacterClass {
    /// Whether the class admits a character, case-blind: vowels are
    /// `aeiou`, consonants every other letter.
    pub open spec fn spec_allows(self, c: char) -> bool {
        let l = spec_lower_char(c);
        match self {
            CharacterClass::Vowel => l == 'a' || l == 'e' || l == 'i' || l == 'o' || l == 'u',
            CharacterClass::Consonant => is_alpha(c) && !(l == 'a' || l == 'e' || l == 'i' || l
                == 'o' || l == 'u'),
        }
    }

    pub fn allows(self, c: char) -> (r: bool)
        ensures
            r == self.spec_allows(c),
    {
        let l = to_lower_char(c);
        let vowel = l == 'a' || l == 'e' || l == 'i' || l == 'o' || l == 'u';
        match self {
            CharacterClass::Vowel => vowel,
            CharacterClass::Consonant => is_alpha_char(c) && !vowel,
        }
    }

    /// The character class written as a regular-expression character set.
    pub fn regex_char(&self) -> (r: &'static str)
        ensures
            self is Vowel ==> r@ == "[aeiou]"@,
            self is Consonant ==> r@ == "[bcdfghjklmnpqrstvwxyz]"@,
    {
        match self {
            CharacterClass::Vowel => "[aeiou]",
            CharacterClass::Consonant => "[bcdfghjklmnpqrstvwxyz]",
        }
    }

    /// The class a token names, case-blind: `@v` or `@c`.
    pub open spec fn spec_of_code(s: Seq<char>) -> Option<CharacterClass> {
        let l = lower_seq(s);
        if l == "@v"@ {
            Some(CharacterClass::Vowel)
        } else if l == "@c"@ {
            Some(CharacterClass::Consonant)
        } else {
            None
        }
    }

    /// Reads `@v` or `@c`, case-blind; nothing else names a class.
    pub fn from_str(s: &str) -> (r: Result<CharacterClass, &'static str>)
        ensures
            match CharacterClass::spec_of_code(s@) {
                Some(c) => r == Ok::<CharacterClass, &'static str>(c),
                None => r is Err,
            },
            r matches Err(e) ==> e@ == "The only valid character classes are @v and @c"@,
    {
        proof {
            reveal_strlit("@v");
            reveal_strlit("@c");
            assert(lower_seq("@v"@) =~= "@v"@);
            assert(lower_seq("@c"@) =~= "@c"@);
        }
        if eq_ignore_case(s, "@v") {
            Ok(CharacterClass::Vowel)
        } else if eq_ignore_case(s, "@c") {
            Ok(CharacterClass::Consonant)
        } else {
            Err("The only valid character classes are @v and @c")
        }
    }
}

#[derive(Debug)]
pub enum PatternComponent {
    Any,
    AnyChar(usize),
    Literal(String),
    CharacterClass(CharacterClass),
}

impl Clone for PatternComponent {
    fn clone(&self) -> (r: Self)
        ensures
            r == *self,
    {
        match self {
            PatternComponent::Any => PatternComponent::Any,
            PatternComponent::AnyChar(k) => PatternComponent::AnyChar(*k),
            PatternComponent::Literal(s) => PatternComponent::Literal(s.clone()),
            PatternComponent::CharacterClass(c) => PatternComponent::CharacterClass(*c),
        }
    }
}

impl PatternComponent {
    /// The component written as a fragment of a regular expression.
    pub fn regex_str(&self) -> (r: String)
        ensures
            match self {
                PatternComponent::Any => r@ == "[[:alpha:]]*"@,
                PatternComponent::AnyChar(k) => r@ == "[[:alpha:]]{"@ + dec_digits(*k as nat)
                    + "}"@,
                PatternComponent::Literal(s) => r@ == s@,
                PatternComponent::CharacterClass(c) => r@ == (if c is Vowel {
                    "[aeiou]"@
                } else {
                    "[bcdfghjklmnpqrstvwxyz]"@
                }),
            },
    {
        match self {
            PatternComponent::Any => {
                let mut s = String::new();
                s.append("[[:alpha:]]*");
                proof {
                    assert(s@ =~= "[[:alpha:]]*"@);
                }
                s
            },
            PatternComponent::AnyChar(k) => {
                let mut s = String::new();
                s.append("[[:alpha:]]{");
                let digits = usize_to_string(*k);
                s.append(digits.as_str());
                s.append("}");
                proof {
                    assert(s@ =~= "[[:alpha:]]{"@ + dec_digits(*k as nat) + "}"@);
                }
                s
            },
            PatternComponent::Literal(lit) => lit.clone(),
            PatternComponent::CharacterClass(c) => {
                let mut s = String::new();
                s.append(c.regex_char());
                proof {
                    if c is Vowel {
                        assert(s@ =~= "[aeiou]"@);
                    } else {
                        assert(s@ =~= "[bcdfghjklmnpqrstvwxyz]"@);
                    }
                }
                s
            },
        }
    }
}

/// Whether a component sequence matches a character sequence in full.
/// `Any` matches any run of letters, `AnyChar(k)` exactly `k` letters,
/// `Literal` its own text case-blind, a class one admitted character.
pub open spec fn pattern_matches(cs: Seq<PatternComponent>, s: Seq<char>) -> bool
    decreases cs.len(), s.len(),
{
    if cs.len() == 0 {
        s.len() == 0
    } else {
        match cs[0] {
            PatternComponent::Any => pattern_matches(cs.drop_first(), s) || (s.len() > 0
                && is_alpha(s[0]) && pattern_matches(cs, s.drop_first())),
            PatternComponent::AnyChar(k) => if k == 0 {
                pattern_matches(cs.drop_first(), s)
            } else {
                s.len() > 0 && is_alpha(s[0]) && pattern_matches(
                    cs.update(0, PatternComponent::AnyChar((k - 1) as usize)),
                    s.drop_first(),
                )
            },
            PatternComponent::Literal(lit) => lit@.len() <= s.len() && lower_seq(
                s.take(lit@.len() as int),
            ) == lower_seq(lit@) && pattern_matches(cs.drop_first(), s.skip(lit@.len() as int)),
            PatternComponent::CharacterClass(c) => s.len() > 0 && c.spec_allows(s[0])
                && pattern_matches(cs.drop_first(), s.drop_first()),
        }
    }
}

/// A run of `k` letters matches `AnyChar(k)`: the one-letter-at-a-time
/// definition agrees with checking `k` letters at once.
proof fn lemma_anychar_matches(cs: Seq<PatternComponent>, s: Seq<char>, k: usize)
    requires
        cs.len() > 0,
        cs[0] == PatternComponent::AnyChar(k),
    ensures
        pattern_matches(cs, s) == (k <= s.len() && (forall|j: int|
            0 <= j < k ==> is_alpha(s[j])) && pattern_matches(cs.drop_first(), s.skip(k as int))),
    decreases k,
{
    if k == 0 {
        assert(s.skip(0) =~= s);
    } else {
        if s.len() > 0 {
            let cs2 = cs.update(0, PatternComponent::AnyChar((k - 1) as usize));
            let sd = s.drop_first();
            assert(cs2[0] == PatternComponent::AnyChar((k - 1) as usize));
            lemma_anychar_matches(cs2, sd, (k - 1) as usize);
            assert(cs2.drop_first() =~= cs.drop_first());
            if k <= s.len() {
                assert(sd.skip((k - 1) as int) =~= s.skip(k as int));
                if is_alpha(s[0]) {
                    if forall|j2: int| 0 <= j2 < k - 1 ==> is_alpha(#[trigger] sd[j2]) {
                        assert forall|j: int| 0 <= j < k implies is_alpha(#[trigger] s[j]) by {
                            if j > 0 {
                                assert(is_alpha(sd[j - 1]));
                                assert(sd[j - 1] == s[j]);
                            }
                        }
                    }
                    if forall|j: int| 0 <= j < k ==> is_alpha(#[trigger] s[j]) {
                        assert forall|j2: int| 0 <= j2 < k - 1 implies is_alpha(
                            #[trigger] sd[j2],
                        ) by {
                            assert(sd[j2] == s[j2 + 1]);
                            assert(is_alpha(s[j2 + 1]));
                        }
                    }
                }
            } else {
                assert((k - 1) as usize > sd.len());
            }
        }
    }
}

/// The matcher: walks the components from `ci` against the text from `si`,
/// backtracking over how much an `Any` swallows.
fn match_at(cs: &Vec<PatternComponent>, ci: usize, s: &Vec<char>, si: usize) -> (r: bool)
    requires
        ci <= cs@.len(),
        si <= s@.len(),
    ensures
        r == pattern_matches(cs@.skip(ci as int), s@.skip(si as int)),
    decreases cs@.len() - ci, s@.len() - si,
{
    let cn = cs.len();
    let sn = s.len();
    if ci == cn {
        proof {
            assert(cs@.skip(ci as int).len() == 0);
        }
        return si == sn;
    }
    proof {
        assert(cs@.skip(ci as int)[0] == cs@[ci as int]);
        assert(cs@.skip(ci as int).drop_first() =~= cs@.skip(ci as int + 1));
    }
    match &cs[ci] {
        PatternComponent::Any => {
            if match_at(cs, ci + 1, s, si) {
                return true;
            }
            if si < sn && is_alpha_char(s[si]) {
                proof {
                    assert(s@.skip(si as int)[0] == s@[si as int]);
                    assert(s@.skip(si as int).drop_first() =~= s@.skip(si as int + 1));
                }
                return match_at(cs, ci, s, si + 1);
            }
            proof {
                if s@.skip(si as int).len() > 0 {
                    assert(s@.skip(si as int)[0] == s@[si as int]);
                }
            }
            false
        },
        PatternComponent::AnyChar(k) => {
            let k = *k;
            proof {
                lemma_anychar_matches(cs@.skip(ci as int), s@.skip(si as int), k);
            }
            if k > sn - si {
                return false;
            }
            let mut j: usize = 0;
            #[verifier::loop_isolation(false)]
            while j < k
                invariant
                    j <= k,
                    si + k <= sn,
                    sn == s@.len(),
                    forall|j2: int| 0 <= j2 < j ==> is_alpha(#[trigger] s@[si + j2]),
                decreases k - j,
            {
                if !is_alpha_char(s[si + j]) {
                    proof {
                        assert(s@.skip(si as int)[j as int] == s@[si + j]);
                        assert(!is_alpha(s@.skip(si as int)[j as int]));
                    }
                    return false;
                }
                j = j + 1;
            }
            proof {
                assert(forall|j2: int|
                    0 <= j2 < k ==> s@.skip(si as int)[j2] == s@[si + j2]);
                assert(s@.skip(si as int).skip(k as int) =~= s@.skip((si + k) as int));
            }
            match_at(cs, ci + 1, s, si + k)
        },
        PatternComponent::Literal(lit) => {
            let litlen = lit.unicode_len();
            if litlen > sn - si {
                return false;
            }
            let mut j: usize = 0;
            #[verifier::loop_isolation(false)]
            while j < litlen
                invariant
                    j <= litlen,
                    si + litlen <= sn,
                    sn == s@.len(),
                    litlen == lit@.len(),
                    forall|j2: int|
                        0 <= j2 < j ==> spec_lower_char(#[trigger] s@[si + j2]) == spec_lower_char(
                            lit@[j2],
                        ),
                decreases litlen - j,
            {
                let sc = to_lower_char(s[si + j]);
                let lc = to_lower_char(lit.get_char(j));
                if sc != lc {
                    proof {
                        let taken = s@.skip(si as int).take(litlen as int);
                        assert(taken[j as int] == s@[si + j]);
                        assert(lower_seq(taken)[j as int] == spec_lower_char(s@[si + j]));
                        assert(lower_seq(lit@)[j as int] == spec_lower_char(lit@[j as int]));
                        assert(lower_seq(taken) != lower_seq(lit@));
                    }
                    return false;
                }
                j = j + 1;
            }
            proof {
                let taken = s@.skip(si as int).take(litlen as int);
                assert(forall|j2: int| 0 <= j2 < litlen ==> taken[j2] == s@[si + j2]);
                assert(lower_seq(taken) =~= lower_seq(lit@));
                assert(s@.skip(si as int).skip(litlen as int) =~= s@.skip((si + litlen) as int));
            }
            match_at(cs, ci + 1, s, si + litlen)
        },
        PatternComponent::CharacterClass(c) => {
            if si < sn && c.allows(s[si]) {
                proof {
                    assert(s@.skip(si as int)[0] == s@[si as int]);
                    assert(s@.skip(si as int).drop_first() =~= s@.skip(si as int + 1));
                }
                match_at(cs, ci + 1, s, si + 1)
            } else {
                proof {
                    if s@.skip(si as int).len() > 0 {
                        assert(s@.skip(si as int)[0] == s@[si as int]);
                    }
                }
                false
            }
        },
    }
}

/// A compiled pattern: the component sequence itself is the matcher.
#[derive(Debug)]
pub struct Pattern {
    pub components: Vec<PatternComponent>,
}

impl Clone for Pattern {
    fn clone(&self) -> (r: Self)
        ensures
            r.components@ == self.components@,
    {
        let n = self.components.len();
        let mut components: Vec<PatternComponent> = Vec::new();
        let mut i: usize = 0;
        while i < n
            invariant
                i <= n,
                n == self.components@.len(),
                components@ == self.components@.take(i as int),
            decreases n - i,
        {
            components.push(self.components[i].clone());
            proof {
                assert(components@ =~= self.components@.take(i as int + 1));
            }
            i = i + 1;
        }
        proof {
            assert(self.components@.take(n as int) =~= self.components@);
        }
        Pattern { components }
    }
}

impl Pattern {
    /// Whether the pattern matches a word: the whole text, anchored at both
    /// ends, case-blind.
    pub open spec fn spec_allows(self, h: Homograph) -> bool {
        pattern_matches(self.components@, h.text@)
    }

    pub fn allow(&self, term: &Homograph) -> (r: bool)
        ensures
            r == self.spec_allows(*term),
    {
        let chars = chars_of(term.text.as_str());
        proof {
            assert(self.components@.skip(0) =~= self.components@);
            assert(chars@.skip(0) =~= chars@);
        }
        match_at(&self.components, 0, &chars, 0)
    }
}


/// A lone `*` matches exactly the all-letter texts.
pub proof fn lemma_any_matches_all(cs: Seq<PatternComponent>, s: Seq<char>)
    requires
        cs.len() == 1,
        cs[0] is Any,
    ensures
        pattern_matches(cs, s) == (forall|j: int| 0 <= j < s.len() ==> is_alpha(#[trigger] s[j])),
    decreases s.len(),
{
    assert(cs.drop_first().len() == 0);
    assert(pattern_matches(cs.drop_first(), s) == (s.len() == 0));
    assert(pattern_matches(cs, s) == (pattern_matches(cs.drop_first(), s) || (s.len() > 0
        && is_alpha(s[0]) && pattern_matches(cs, s.drop_first()))));
    if s.len() == 0 {
    } else {
        lemma_any_matches_all(cs, s.drop_first());
        if is_alpha(s[0]) && (forall|j: int|
            0 <= j < s.drop_first().len() ==> is_alpha(#[trigger] s.drop_first()[j])) {
            assert forall|j: int| 0 <= j < s.len() implies is_alpha(#[trigger] s[j]) by {
                if j > 0 {
                    assert(s.drop_first()[j - 1] == s[j]);
                }
            }
        }
        if forall|j: int| 0 <= j < s.len() ==> is_alpha(#[trigger] s[j]) {
            assert forall|j: int|
                0 <= j < s.drop_first().len() implies is_alpha(#[trigger] s.drop_first()[j]) by {
                assert(s.drop_first()[j] == s[j + 1]);
            }
        }
    }
}

/// A single-letter literal then `*`: the head reads as that letter, the
/// rest are letters.
pub proof fn lemma_lit_any(cs: Seq<PatternComponent>, s: Seq<char>, c0: char)
    requires
        cs.len() == 2,
        cs[0] matches PatternComponent::Literal(l) && l@ == seq![c0],
        cs[1] is Any,
    ensures
        pattern_matches(cs, s) == (s.len() >= 1 && spec_lower_char(s[0]) == spec_lower_char(c0)
            && (forall|j: int| 1 <= j < s.len() ==> is_alpha(#[trigger] s[j]))),
{
    if s.len() >= 1 {
        assert(lower_seq(s.take(1)) =~= seq![spec_lower_char(s[0])]);
        assert(lower_seq(seq![c0]) =~= seq![spec_lower_char(c0)]);
        assert((lower_seq(s.take(1)) == lower_seq(seq![c0])) == (spec_lower_char(s[0])
            == spec_lower_char(c0))) by {
            if lower_seq(s.take(1)) == lower_seq(seq![c0]) {
                assert(lower_seq(s.take(1))[0] == lower_seq(seq![c0])[0]);
            }
        }
        lemma_any_matches_all(cs.drop_first(), s.skip(1));
        assert forall|j: int| 1 <= j < s.len() implies s.skip(1)[j - 1] == s[j] by {}
    }
}

/// `*x*` for one letter `x`: some position reads as `x`, every other is a
/// letter.
pub proof fn lemma_any_lit_any(cs: Seq<PatternComponent>, s: Seq<char>, c0: char)
    requires
        cs.len() == 3,
        cs[0] is Any,
        cs[1] matches PatternComponent::Literal(l) && l@ == seq![c0],
        cs[2] is Any,
    ensures
        pattern_matches(cs, s) == (exists|i: int|
            0 <= i < s.len() && spec_lower_char(#[trigger] s[i]) == spec_lower_char(c0) && (
            forall|j: int| 0 <= j < s.len() && j != i ==> is_alpha(#[trigger] s[j]))),
    decreases s.len(),
{
    lemma_lit_any(cs.drop_first(), s, c0);
    if s.len() == 0 {
    } else {
        lemma_any_lit_any(cs, s.drop_first(), c0);
        let t = s.drop_first();
        if pattern_matches(cs, s) {
            if pattern_matches(cs.drop_first(), s) {
                assert(spec_lower_char(s[0]) == spec_lower_char(c0) && (forall|j: int|
                    0 <= j < s.len() && j != 0 ==> is_alpha(#[trigger] s[j])));
            } else {
                assert(is_alpha(s[0]) && pattern_matches(cs, t));
                let i2 = choose|i2: int|
                    0 <= i2 < t.len() && spec_lower_char(#[trigger] t[i2]) == spec_lower_char(c0)
                        && (forall|j: int| 0 <= j < t.len() && j != i2 ==> is_alpha(
                        #[trigger] t[j],
                    ));
                assert(t[i2] == s[i2 + 1]);
                assert(spec_lower_char(s[i2 + 1]) == spec_lower_char(c0) && (forall|j: int|
                    0 <= j < s.len() && j != i2 + 1 ==> is_alpha(#[trigger] s[j]))) by {
                    assert forall|j: int|
                        0 <= j < s.len() && j != i2 + 1 implies is_alpha(#[trigger] s[j]) by {
                        if j > 0 {
                            assert(t[j - 1] == s[j]);
                        }
                    }
                }
            }
        }
        if exists|i: int|
            0 <= i < s.len() && spec_lower_char(#[trigger] s[i]) == spec_lower_char(c0) && (
            forall|j: int| 0 <= j < s.len() && j != i ==> is_alpha(#[trigger] s[j])) {
            let i = choose|i: int|
                0 <= i < s.len() && spec_lower_char(#[trigger] s[i]) == spec_lower_char(c0) && (
                forall|j: int| 0 <= j < s.len() && j != i ==> is_alpha(#[trigger] s[j]));
            if i == 0 {
                assert(pattern_matches(cs.drop_first(), s)) by {
                    assert forall|j: int| 1 <= j < s.len() implies is_alpha(#[trigger] s[j]) by {}
                }
            } else {
                assert(is_alpha(s[0]));
                assert(t[i - 1] == s[i]);
                assert(spec_lower_char(t[i - 1]) == spec_lower_char(c0) && (forall|j: int|
                    0 <= j < t.len() && j != i - 1 ==> is_alpha(#[trigger] t[j]))) by {
                    assert forall|j: int|
                        0 <= j < t.len() && j != i - 1 implies is_alpha(#[trigger] t[j]) by {
                        assert(t[j] == s[j + 1]);
                    }
                }
                assert(pattern_matches(cs, t));
            }
        }
    }
}

/// A letter run of fixed width then a single-letter literal.
pub proof fn lemma_anychar_lit(cs: Seq<PatternComponent>, s: Seq<char>, k: usize, c1: char)
    requires
        cs.len() == 2,
        cs[0] == PatternComponent::AnyChar(k),
        cs[1] matches PatternComponent::Literal(l) && l@ == seq![c1],
    ensures
        pattern_matches(cs, s) == (s.len() == k + 1 && (forall|j: int|
            0 <= j < k ==> is_alpha(#[trigger] s[j])) && spec_lower_char(s[k as int])
            == spec_lower_char(c1)),
    decreases k,
{
    if k == 0 {
        assert(pattern_matches(cs, s) == pattern_matches(cs.drop_first(), s));
        if s.len() >= 1 {
            assert(lower_seq(s.take(1)) =~= seq![spec_lower_char(s[0])]);
            assert(lower_seq(seq![c1]) =~= seq![spec_lower_char(c1)]);
            assert((lower_seq(s.take(1)) == lower_seq(seq![c1])) == (spec_lower_char(s[0])
                == spec_lower_char(c1))) by {
                if lower_seq(s.take(1)) == lower_seq(seq![c1]) {
                    assert(lower_seq(s.take(1))[0] == lower_seq(seq![c1])[0]);
                }
            }
            assert(cs.drop_first().drop_first().len() == 0);
            assert(pattern_matches(cs.drop_first().drop_first(), s.skip(1)) == (s.skip(1).len()
                == 0));
        }
    } else {
        let cs2 = cs.update(0, PatternComponent::AnyChar((k - 1) as usize));
        assert(cs2[1] == cs[1]);
        lemma_anychar_lit(cs2, s.drop_first(), (k - 1) as usize, c1);
        let t = s.drop_first();
        if pattern_matches(cs, s) {
            assert(is_alpha(s[0]) && pattern_matches(cs2, t));
            assert(t[k - 1] == s[k as int]);
            assert forall|j: int| 0 <= j < k implies is_alpha(#[trigger] s[j]) by {
                if j > 0 {
                    assert(t[j - 1] == s[j]);
                }
            }
        }
        if s.len() == k + 1 && (forall|j: int| 0 <= j < k ==> is_alpha(#[trigger] s[j]))
            && spec_lower_char(s[k as int]) == spec_lower_char(c1) {
            assert(is_alpha(s[0]));
            assert(t[k - 1] == s[k as int]);
            assert forall|j: int| 0 <= j < k - 1 implies is_alpha(#[trigger] t[j]) by {
                assert(t[j] == s[j + 1]);
            }
            assert(pattern_matches(cs2, t));
        }
    }
}

/// A single-letter literal, a letter run of fixed width, and a closing
/// single-letter literal: the text is framed by the two letters.
pub proof fn lemma_frame_pattern(cs: Seq<PatternComponent>, s: Seq<char>, c0: char, c1: char, k: usize)
    requires
        cs.len() == 3,
        cs[0] matches PatternComponent::Literal(l) && l@ == seq![c0],
        cs[1] == PatternComponent::AnyChar(k),
        cs[2] matches PatternComponent::Literal(l2) && l2@ == seq![c1],
    ensures
        pattern_matches(cs, s) == (s.len() == k + 2 && spec_lower_char(s[0])
            == spec_lower_char(c0) && (forall|j: int|
            1 <= j < k + 1 ==> is_alpha(#[trigger] s[j])) && spec_lower_char(s[k + 1])
            == spec_lower_char(c1)),
{
    lemma_anychar_lit(cs.drop_first(), s.skip(1), k, c1);
    if s.len() >= 1 {
        assert(lower_seq(s.take(1)) =~= seq![spec_lower_char(s[0])]);
        assert(lower_seq(seq![c0]) =~= seq![spec_lower_char(c0)]);
        assert((lower_seq(s.take(1)) == lower_seq(seq![c0])) == (spec_lower_char(s[0])
            == spec_lower_char(c0))) by {
            if lower_seq(s.take(1)) == lower_seq(seq![c0]) {
                assert(lower_seq(s.take(1))[0] == lower_seq(seq![c0])[0]);
            }
        }
        let t = s.skip(1);
        assert(t.len() == s.len() - 1);
        if t.len() == k + 1 {
            assert(t[k as int] == s[k + 1]);
        }
        assert forall|j: int| 1 <= j < k + 1 && j < s.len() implies s.skip(1)[j - 1] == s[j] by {}
        if pattern_matches(cs, s) {
            assert forall|j: int| 1 <= j < k + 1 implies is_alpha(#[trigger] s[j]) by {
                assert(t[j - 1] == s[j]);
            }
        }
        if s.len() == k + 2 && (forall|j: int| 1 <= j < k + 1 ==> is_alpha(#[trigger] s[j])) {
            assert forall|j: int| 0 <= j < k implies is_alpha(#[trigger] t[j]) by {
                assert(t[j] == s[j + 1]);
            }
        }
    }
}

} // verus!
