//! The query-language front end: turns query text into a `Question`.
//! The language is small: literal words, `*`, length and range atoms,
//! `#`-tags, glob patterns, `+` conjunction, `( / )` disjunction, `**` and
//! `!phrase` many-expressions, and the `=a` / `=s` equation operators.

use vstd::prelude::*;

use crate::equation::{EqualityOperator, Equation};
use crate::expression::Expression;
use crate::fixed_length_expression::FixedLengthExpression;
use crate::homograph::{Homograph, PartOfSpeech, WordTag};
use crate::many_expression::{ManyExpression, ManyExpressionType};
use crate::pattern::{CharacterClass, Pattern, PatternComponent};
use crate::question::Question;
use crate::text::{eq_ignore_case, is_ws_char};
use crate::word_query::{WordQuery, WordQueryDisjunction, WordQueryTerm};

verus! {

/// One token of the query text; words carry their character range.
enum Token {
    LParen,
    RParen,
    Plus,
    Slash,
    EqAnagram,
    EqSpoonerism,
    ManyAny,
    ManyTag(usize, usize),
    Word(usize, usize),
}

/// Whether a character ends a word token.
fn is_delimiter(c: char) -> (r: bool) {
    c == '(' || c == ')' || c == '+' || c == '/'
}

/// Splits the query text into tokens.
fn tokenize(s: &str) -> (r: Vec<Token>)
    ensures
        token_ranges_ok(r@, s@.len() as nat),
{
    let n = s.unicode_len();
    let mut tokens: Vec<Token> = Vec::new();
    let mut i: usize = 0;
    while i < n
        invariant
            i <= n,
            n == s@.len(),
            token_ranges_ok(tokens@, s@.len() as nat),
        decreases n - i,
    {
        let c = s.get_char(i);
        if is_ws_char(c) {
            i = i + 1;
        } else if c == '(' {
            tokens.push(Token::LParen);
            i = i + 1;
        } else if c == ')' {
            tokens.push(Token::RParen);
            i = i + 1;
        } else if c == '+' {
            tokens.push(Token::Plus);
            i = i + 1;
        } else if c == '/' {
            tokens.push(Token::Slash);
            i = i + 1;
        } else {
            let start = i;
            let mut j = i;
            while j < n
                invariant
                    i <= j <= n,
                    n == s@.len(),
                decreases n - j,
            {
                let cj = s.get_char(j);
                if is_ws_char(cj) || is_delimiter(cj) {
                    break ;
                }
                j = j + 1;
            }
            let word = s.substring_char(start, j);
            if crate::text::str_eq(word, "**") {
                tokens.push(Token::ManyAny);
            } else if eq_ignore_case(word, "=a") {
                tokens.push(Token::EqAnagram);
            } else if eq_ignore_case(word, "=s") {
                tokens.push(Token::EqSpoonerism);
            } else if word.unicode_len() >= 1 && word.get_char(0) == '!' {
                tokens.push(Token::ManyTag(start + 1, j));
            } else {
                tokens.push(Token::Word(start, j));
            }
            i = if j > i {
                j
            } else {
                j + 1
            };
        }
    }
    tokens
}

/// Whether a character is a decimal digit.
fn is_digit(c: char) -> (r: bool) {
    c == '0' || c == '1' || c == '2' || c == '3' || c == '4' || c == '5' || c == '6' || c == '7'
        || c == '8' || c == '9'
}

/// The digit's value.
fn digit_value(c: char) -> (r: usize) {
    if c == '0' {
        0
    } else if c == '1' {
        1
    } else if c == '2' {
        2
    } else if c == '3' {
        3
    } else if c == '4' {
        4
    } else if c == '5' {
        5
    } else if c == '6' {
        6
    } else if c == '7' {
        7
    } else if c == '8' {
        8
    } else {
        9
    }
}

/// Reads a decimal number from a character range; fails on overflow or a
/// non-digit.
/// The fixed texts a failed parse can report.
pub open spec fn parse_error_text(s: Seq<char>) -> bool {
    ||| s == "Expected a number"@
    ||| s == "Expected a digit"@
    ||| s == "Number too large"@
    ||| s == "The only valid character classes are @v and @c"@
    ||| s == "Empty term"@
    ||| s == "Not a valid tag"@
    ||| s == "Expected a term"@
    ||| s == "Unclosed parenthesis"@
    ||| s == "Expected / or )"@
    ||| s == "Expected an expression"@
    ||| s == "Not a many expression"@
    ||| s == "Expected an equation operator"@
    ||| s == "Unexpected trailing input"@
}

/// No parse error reads as the cost gate's refusal text.
pub proof fn lemma_parse_error_not_refusal(s: Seq<char>)
    requires
        parse_error_text(s),
    ensures
        s != "Question is too difficult"@,
{
    reveal_strlit("Question is too difficult");
    reveal_strlit("Expected a number");
    reveal_strlit("Expected a digit");
    reveal_strlit("Number too large");
    reveal_strlit("The only valid character classes are @v and @c");
    reveal_strlit("Empty term");
    reveal_strlit("Not a valid tag");
    reveal_strlit("Expected a term");
    reveal_strlit("Unclosed parenthesis");
    reveal_strlit("Expected / or )");
    reveal_strlit("Expected an expression");
    reveal_strlit("Not a many expression");
    reveal_strlit("Expected an equation operator");
    reveal_strlit("Unexpected trailing input");
    assert(("Question is too difficult"@)[0] == 'Q');
    assert(("Expected a number"@)[0] == 'E');
    assert(("Expected a digit"@)[0] == 'E');
    assert(("Number too large"@)[0] == 'N');
    assert(("The only valid character classes are @v and @c"@)[0] == 'T');
    assert(("Empty term"@)[0] == 'E');
    assert(("Not a valid tag"@)[0] == 'N');
    assert(("Expected a term"@)[0] == 'E');
    assert(("Unclosed parenthesis"@)[0] == 'U');
    assert(("Expected / or )"@)[0] == 'E');
    assert(("Expected an expression"@)[0] == 'E');
    assert(("Not a many expression"@)[0] == 'N');
    assert(("Expected an equation operator"@)[0] == 'E');
    assert(("Unexpected trailing input"@)[0] == 'U');
}

fn parse_number(s: &str, from: usize, to: usize) -> (r: Result<usize, &'static str>)
    requires
        from <= to <= s@.len(),
    ensures
        r matches Err(e) ==> parse_error_text(e@),
{
    if from == to {
        return Err("Expected a number");
    }
    let mut v: usize = 0;
    let mut i = from;
    while i < to
        invariant
            from <= i <= to,
            to <= s@.len(),
        decreases to - i,
    {
        let c = s.get_char(i);
        if !is_digit(c) {
            return Err("Expected a digit");
        }
        v = match v.checked_mul(10) {
            Some(x) => x,
            None => {
                return Err("Number too large");
            },
        };
        v = match v.checked_add(digit_value(c)) {
            Some(x) => x,
            None => {
                return Err("Number too large");
            },
        };
        i = i + 1;
    }
    Ok(v)
}

/// Whether the whole range is digits.
fn all_digits(s: &str, from: usize, to: usize) -> (r: bool)
    requires
        from <= to <= s@.len(),
{
    let mut i = from;
    while i < to
        invariant
            from <= i <= to,
            to <= s@.len(),
        decreases to - i,
    {
        if !is_digit(s.get_char(i)) {
            return false;
        }
        i = i + 1;
    }
    true
}

/// The position of `..` inside the range, if any.
fn find_dotdot(s: &str, from: usize, to: usize) -> (r: Option<usize>)
    requires
        from <= to <= s@.len(),
    ensures
        match r {
            Some(i) => from <= i && i + 2 <= to,
            None => true,
        },
{
    if to - from < 2 {
        return None;
    }
    let mut i = from;
    while i < to - 1
        invariant
            from <= i <= to,
            2 <= to <= s@.len(),
        decreases to - i,
    {
        if s.get_char(i) == '.' && s.get_char(i + 1) == '.' {
            return Some(i);
        }
        i = i + 1;
    }
    None
}

/// Whether the word holds a pattern character.
fn has_pattern_char(s: &str, from: usize, to: usize) -> (r: bool)
    requires
        from <= to <= s@.len(),
{
    let mut i = from;
    while i < to
        invariant
            from <= i <= to,
            to <= s@.len(),
        decreases to - i,
    {
        let c = s.get_char(i);
        if c == '?' || c == '*' || c == '@' {
            return true;
        }
        i = i + 1;
    }
    false
}

/// Reads a glob pattern: `?` runs, `*`, `@v` / `@c` classes and literal
/// stretches.
fn parse_pattern(s: &str, from: usize, to: usize) -> (r: Result<Pattern, &'static str>)
    requires
        from <= to <= s@.len(),
    ensures
        r matches Err(e) ==> parse_error_text(e@),
{
    let mut components: Vec<PatternComponent> = Vec::new();
    let mut i = from;
    while i < to
        invariant
            from <= i <= to,
            to <= s@.len(),
        decreases to - i,
    {
        let c = s.get_char(i);
        if c == '?' {
            let ghost i0 = i as int;
            let mut k: usize = 1;
            i = i + 1;
            while i < to && s.get_char(i) == '?'
                invariant
                    i0 < i <= to,
                    to <= s@.len(),
                decreases to - i,
            {
                i = i + 1;
                if k < usize::MAX {
                    k = k + 1;
                }
            }
            components.push(PatternComponent::AnyChar(k));
        } else if c == '*' {
            components.push(PatternComponent::Any);
            i = i + 1;
        } else if c == '@' {
            if i + 1 >= to {
                return Err("The only valid character classes are @v and @c");
            }
            let cls = CharacterClass::from_str(s.substring_char(i, i + 2))?;
            components.push(PatternComponent::CharacterClass(cls));
            i = i + 2;
        } else {
            let start = i;
            i = i + 1;
            while i < to && !(s.get_char(i) == '?' || s.get_char(i) == '*' || s.get_char(i)
                == '@')
                invariant
                    start < i <= to,
                    to <= s@.len(),
                decreases to - i,
            {
                i = i + 1;
            }
            components.push(
                PatternComponent::Literal(s.substring_char(start, i).to_owned()),
            );
        }
    }
    Ok(Pattern { components })
}

/// A literal homograph for a bare word.
fn literal_term(s: &str, from: usize, to: usize) -> (r: WordQueryTerm)
    requires
        from <= to <= s@.len(),
{
    WordQueryTerm::Literal(
        Homograph {
            text: s.substring_char(from, to).to_owned(),
            is_single_word: true,
            meanings: Vec::new(),
        },
    )
}

/// Classifies one word of the query into an atom: wildcard, length,
/// range, tag, pattern or literal.
fn classify_atom(s: &str, from: usize, to: usize) -> (r: Result<WordQueryTerm, &'static str>)
    requires
        from <= to <= s@.len(),
    ensures
        r matches Err(e) ==> parse_error_text(e@),
{
    if to == from {
        return Err("Empty term");
    }
    if to - from == 1 && s.get_char(from) == '*' {
        return Ok(WordQueryTerm::Any);
    }
    if all_digits(s, from, to) {
        let len = parse_number(s, from, to)?;
        return Ok(WordQueryTerm::Length(len));
    }
    match find_dotdot(s, from, to) {
        Some(dd) => {
            if all_digits(s, from, dd) && all_digits(s, dd + 2, to) && dd > from && dd + 2 < to {
                let min = parse_number(s, from, dd)?;
                let max = parse_number(s, dd + 2, to)?;
                return Ok(WordQueryTerm::Range { min, max });
            }
        },
        None => {},
    }
    if s.get_char(from) == '#' {
        let tag = s.substring_char(from + 1, to);
        match PartOfSpeech::from_str(tag) {
            Ok(pos) => {
                return Ok(WordQueryTerm::PartOfSpeech(pos));
            },
            Err(_) => {},
        }
        match WordTag::from_str(tag) {
            Ok(t) => {
                return Ok(WordQueryTerm::Tag(t));
            },
            Err(_) => {},
        }
        return Err("Not a valid tag");
    }
    if has_pattern_char(s, from, to) {
        let p = parse_pattern(s, from, to)?;
        return Ok(WordQueryTerm::Pattern(p));
    }
    Ok(literal_term(s, from, to))
}

/// Reads one unit of a conjunction: a parenthesised disjunction or a
/// single atom.
fn parse_unit(s: &str, tokens: &Vec<Token>, pos: &mut usize) -> (r: Result<
    WordQueryDisjunction,
    &'static str,
>)
    requires
        *old(pos) <= tokens@.len(),
        token_ranges_ok(tokens@, s@.len() as nat),
    ensures
        *old(pos) <= *final(pos) <= tokens@.len(),
        r is Ok ==> *final(pos) > *old(pos),
        r matches Err(e) ==> parse_error_text(e@),
{
    if *pos >= tokens.len() {
        return Err("Expected a term");
    }
    match tokens[*pos] {
        Token::LParen => {
            *pos = *pos + 1;
            let mut terms: Vec<WordQueryTerm> = Vec::new();
            let mut closed = false;
            #[verifier::loop_isolation(false)]
            while !closed
                invariant
                    *old(pos) < *pos,
                    *pos <= tokens@.len(),
                decreases tokens@.len() - *pos,
            {
                if *pos >= tokens.len() {
                    return Err("Unclosed parenthesis");
                }
                match tokens[*pos] {
                    Token::Word(f, t) => {
                        let atom = classify_atom(s, f, t)?;
                        terms.push(atom);
                        *pos = *pos + 1;
                    },
                    _ => {
                        return Err("Expected a term");
                    },
                }
                if *pos < tokens.len() {
                    match tokens[*pos] {
                        Token::Slash => {
                            *pos = *pos + 1;
                        },
                        Token::RParen => {
                            *pos = *pos + 1;
                            closed = true;
                        },
                        _ => {
                            return Err("Expected / or )");
                        },
                    }
                } else {
                    return Err("Unclosed parenthesis");
                }
            }
            Ok(WordQueryDisjunction { terms })
        },
        Token::Word(f, t) => {
            let atom = classify_atom(s, f, t)?;
            *pos = *pos + 1;
            Ok(WordQueryDisjunction { terms: vec![atom] })
        },
        _ => Err("Expected a term"),
    }
}

/// Whether every word token's range lies within the text.
spec fn token_ranges_ok(tokens: Seq<Token>, n: nat) -> bool {
    forall|i: int|
        0 <= i < tokens.len() ==> match #[trigger] tokens[i] {
            Token::Word(f, t) => f <= t <= n,
            Token::ManyTag(f, t) => f <= t <= n,
            _ => true,
        }
}

/// Reads one word query: units joined by `+`.
fn parse_conjunction(s: &str, tokens: &Vec<Token>, pos: &mut usize) -> (r: Result<
    WordQuery,
    &'static str,
>)
    requires
        *old(pos) <= tokens@.len(),
        token_ranges_ok(tokens@, s@.len() as nat),
    ensures
        *old(pos) <= *final(pos) <= tokens@.len(),
        r is Ok ==> *final(pos) > *old(pos),
        r matches Err(e) ==> parse_error_text(e@),
{
    let first = parse_unit(s, tokens, pos)?;
    let mut terms: Vec<WordQueryDisjunction> = Vec::new();
    terms.push(first);
    #[verifier::loop_isolation(false)]
    while *pos < tokens.len() && matches!(tokens[*pos], Token::Plus)
        invariant
            *old(pos) < *pos,
            *pos <= tokens@.len(),
        decreases tokens@.len() - *pos,
    {
        *pos = *pos + 1;
        let next = parse_unit(s, tokens, pos)?;
        terms.push(next);
    }
    Ok(WordQuery { terms })
}

/// Reads one expression: a many-expression led by `**` or `!phrase`, or a
/// row of word queries.
fn parse_expression(s: &str, tokens: &Vec<Token>, pos: &mut usize) -> (r: Result<
    Expression,
    &'static str,
>)
    requires
        *old(pos) <= tokens@.len(),
        token_ranges_ok(tokens@, s@.len() as nat),
    ensures
        *old(pos) <= *final(pos) <= tokens@.len(),
        r matches Err(e) ==> parse_error_text(e@),
{
    if *pos >= tokens.len() {
        return Err("Expected an expression");
    }
    let many_t: Option<ManyExpressionType> = match tokens[*pos] {
        Token::ManyAny => Some(ManyExpressionType::Any),
        Token::ManyTag(f, t) => {
            if eq_ignore_case(s.substring_char(f, t), "phrase") {
                Some(ManyExpressionType::Phrase)
            } else {
                return Err("Not a many expression");
            }
        },
        _ => None,
    };
    match many_t {
        Some(t) => {
            *pos = *pos + 1;
            let mut terms: Vec<WordQueryTerm> = Vec::new();
            #[verifier::loop_isolation(false)]
            while *pos < tokens.len() && matches!(tokens[*pos], Token::Plus)
                invariant
                    *old(pos) <= *pos,
                    *pos <= tokens@.len(),
                decreases tokens@.len() - *pos,
            {
                *pos = *pos + 1;
                if *pos >= tokens.len() {
                    return Err("Expected a term");
                }
                match tokens[*pos] {
                    Token::Word(f, tt) => {
                        let atom = classify_atom(s, f, tt)?;
                        terms.push(atom);
                        *pos = *pos + 1;
                    },
                    _ => {
                        return Err("Expected a term");
                    },
                }
            }
            Ok(
                Expression::Many(
                    ManyExpression { t, terms, min_words: 1, max_words: None },
                ),
            )
        },
        None => {
            let mut words: Vec<WordQuery> = Vec::new();
            let first = parse_conjunction(s, tokens, pos)?;
            words.push(first);
            #[verifier::loop_isolation(false)]
            while *pos < tokens.len() && !matches!(
                tokens[*pos],
                Token::EqAnagram,
            ) && !matches!(tokens[*pos], Token::EqSpoonerism)
                invariant
                    *old(pos) <= *pos,
                    *pos <= tokens@.len(),
                decreases tokens@.len() - *pos,
            {
                let next = parse_conjunction(s, tokens, pos)?;
                words.push(next);
            }
            Ok(Expression::FixedLength(FixedLengthExpression { words }))
        },
    }
}

/// Parses a whole query: one expression, or two joined by an equation
/// operator.  A spoonerism equation may leave its right side off: it then
/// reads as `* *`, any two words.  This is the front end the driver
/// calls; the language it reads is the surface described alongside the
/// solver.
pub fn question_parse(input: &str) -> (r: Result<Question, &'static str>)
    ensures
        r matches Err(e) ==> parse_error_text(e@),
{
    let tokens = tokenize(input);
    let mut pos: usize = 0;
    let left = parse_expression(input, &tokens, &mut pos)?;
    if pos >= tokens.len() {
        return Ok(Question::Expression(left));
    }
    let op = match tokens[pos] {
        Token::EqAnagram => EqualityOperator::Anagram,
        Token::EqSpoonerism => EqualityOperator::Spoonerism,
        _ => {
            return Err("Expected an equation operator");
        },
    };
    pos = pos + 1;
    if pos >= tokens.len() && matches!(op, EqualityOperator::Spoonerism) {
        let right = Expression::FixedLength(
            FixedLengthExpression {
                words: vec![
                    WordQuery { terms: vec![WordQueryDisjunction { terms: vec![WordQueryTerm::Any] }] },
                    WordQuery { terms: vec![WordQueryDisjunction { terms: vec![WordQueryTerm::Any] }] },
                ],
            },
        );
        return Ok(Question::Equation(Equation { left, operator: op, right }));
    }
    let right = parse_expression(input, &tokens, &mut pos)?;
    if pos < tokens.len() {
        return Err("Unexpected trailing input");
    }
    Ok(Question::Equation(Equation { left, operator: op, right }))
}

/// The same front end under the name the embedding uses.
pub fn word_lang_parse(input: &str) -> (r: Result<Question, &'static str>) {
    question_parse(input)
}

} // verus!
