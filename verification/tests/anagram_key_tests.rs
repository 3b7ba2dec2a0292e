use shrewd_orca::anagram_key::AnagramKey;

#[test]
fn test_anagram_keys() {
    let clint_eastwood = AnagramKey::from_str("clint eastwood").unwrap();
    let old_west_action = AnagramKey::from_str("old west action").unwrap();
    assert_eq!(clint_eastwood, old_west_action);
}

#[test]
fn test_add() {
    let clint = AnagramKey::from_str("clint").unwrap();
    let eastwood = AnagramKey::from_str("eastwood").unwrap();

    let clint_eastwood = clint.add(eastwood).unwrap();

    let old_west_action = AnagramKey::from_str("old west action").unwrap();
    assert_eq!(clint_eastwood, old_west_action);
}

#[test]
fn test_sub() {
    let old_west_action = AnagramKey::from_str("old west action").unwrap();

    let eastwood = AnagramKey::from_str("eastwood").unwrap();

    let clint = AnagramKey::from_str("clint").unwrap();

    let subbed = old_west_action.sub(eastwood).unwrap();

    assert_eq!(clint, subbed);
}

#[test]
fn test_key_is_case_blind() {
    let a = AnagramKey::from_str("Cat").unwrap();
    let b = AnagramKey::from_str("tAc").unwrap();
    assert_eq!(a, b);
}

#[test]
fn test_key_ignores_non_letters() {
    let a = AnagramKey::from_str("c-a t!2").unwrap();
    let b = AnagramKey::from_str("cat").unwrap();
    assert_eq!(a, b);
}

#[test]
fn test_empty_key() {
    let e = AnagramKey::empty();
    assert_eq!(e.inner, 1);
    assert_eq!(e.len, 0);
    assert!(e.is_empty());
    assert_eq!(e.to_string(), "!");
    let parsed = AnagramKey::from_str("").unwrap();
    assert_eq!(parsed, e);
}

#[test]
fn test_exact_key_value() {
    // e -> 2, t -> 3, a -> 5: the three most frequent letters get the
    // three smallest primes.
    let k = AnagramKey::from_str("eta").unwrap();
    assert_eq!(k.inner, 30);
    assert_eq!(k.len, 3);
}

#[test]
fn test_render_order_is_frequency_order() {
    // Decoding walks the primes smallest first, so letters come out in
    // frequency order: e before t before a.
    let k = AnagramKey::from_str("ate").unwrap();
    assert_eq!(k.to_string(), "ETA");
}

#[test]
fn test_render_parse_round_trip() {
    let k = AnagramKey::from_str("clint eastwood").unwrap();
    let rendered = k.to_string();
    let back = AnagramKey::from_str(rendered.as_str()).unwrap();
    assert_eq!(back, k);

    let e = AnagramKey::empty();
    let back_e = AnagramKey::from_str(e.to_string().as_str()).unwrap();
    assert_eq!(back_e, e);
}

#[test]
fn test_add_sub_round_trip() {
    let a = AnagramKey::from_str("word").unwrap();
    let b = AnagramKey::from_str("play").unwrap();
    let c = a.add(b).unwrap();
    assert_eq!(c.sub(b).unwrap(), a);
    assert_eq!(c.sub(a).unwrap(), b);
}

#[test]
fn test_too_long_word_is_rejected() {
    // Forty z's multiply far past the encoding's range.
    let s = "zzzzzzzzzzzzzzzzzzzzzzzzzzzzzzzzzzzzzzzz";
    assert!(AnagramKey::from_str(s).is_err());
}

#[test]
fn test_sub_requires_containment() {
    let cat = AnagramKey::from_str("cat").unwrap();
    let dog = AnagramKey::from_str("dog").unwrap();
    assert!(cat.sub(dog).is_none());
}
