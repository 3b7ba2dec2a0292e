use shrewd_orca::homograph::Homograph;
use shrewd_orca::pattern::{CharacterClass, Pattern, PatternComponent};

fn word(text: &str) -> Homograph {
    Homograph { text: text.to_string(), is_single_word: true, meanings: Vec::new() }
}

fn bqd() -> Pattern {
    Pattern {
        components: vec![
            PatternComponent::Literal("b".to_string()),
            PatternComponent::AnyChar(1),
            PatternComponent::Literal("d".to_string()),
        ],
    }
}

#[test]
fn test_pattern_one_any_char() {
    let p = bqd();
    assert!(p.allow(&word("bad")));
    assert!(p.allow(&word("bid")));
    assert!(p.allow(&word("bed")));
    assert!(!p.allow(&word("bold")));
    assert!(!p.allow(&word("bd")));
    assert!(!p.allow(&word("cat")));
}

#[test]
fn test_pattern_case_blind() {
    let p = bqd();
    assert!(p.allow(&word("BAD")));
    assert!(p.allow(&word("Bed")));
}

#[test]
fn test_pattern_star() {
    let p = Pattern {
        components: vec![
            PatternComponent::Literal("b".to_string()),
            PatternComponent::Any,
            PatternComponent::Literal("d".to_string()),
        ],
    };
    assert!(p.allow(&word("bd")));
    assert!(p.allow(&word("bad")));
    assert!(p.allow(&word("bound")));
    assert!(!p.allow(&word("bond!d")));
    assert!(!p.allow(&word("ban")));
}

#[test]
fn test_pattern_classes() {
    let p = Pattern {
        components: vec![
            PatternComponent::Literal("c".to_string()),
            PatternComponent::CharacterClass(CharacterClass::Vowel),
            PatternComponent::Literal("t".to_string()),
        ],
    };
    assert!(p.allow(&word("cat")));
    assert!(p.allow(&word("cut")));
    assert!(!p.allow(&word("cst")));

    let q = Pattern {
        components: vec![
            PatternComponent::CharacterClass(CharacterClass::Consonant),
            PatternComponent::Any,
        ],
    };
    assert!(q.allow(&word("dog")));
    assert!(!q.allow(&word("apple")));
}

#[test]
fn test_regex_str() {
    assert_eq!(PatternComponent::Any.regex_str(), "[[:alpha:]]*");
    assert_eq!(PatternComponent::AnyChar(3).regex_str(), "[[:alpha:]]{3}");
    assert_eq!(PatternComponent::Literal("bod".to_string()).regex_str(), "bod");
    assert_eq!(
        PatternComponent::CharacterClass(CharacterClass::Vowel).regex_str(),
        "[aeiou]"
    );
}

#[test]
fn test_regex_char() {
    assert_eq!(CharacterClass::Vowel.regex_char(), "[aeiou]");
    assert_eq!(CharacterClass::Consonant.regex_char(), "[bcdfghjklmnpqrstvwxyz]");
}

#[test]
fn test_character_class_from_str() {
    assert_eq!(CharacterClass::from_str("@v").unwrap(), CharacterClass::Vowel);
    assert_eq!(CharacterClass::from_str("@C").unwrap(), CharacterClass::Consonant);
    assert!(CharacterClass::from_str("@x").is_err());
}
