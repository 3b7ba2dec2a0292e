use shrewd_orca::homograph::{PartOfSpeech, WordTag};
use shrewd_orca::term_dict::TermDict;

const SMALL: &str = "n\tact\ta deed\t\nv\tact\tto do\t\nn\tcat\ta feline\t\nn\tire\tanger\tnegative\nf\tEmma\t\tfeminine\n";

#[test]
fn test_from_csv_groups_rows_by_text() {
    let td = TermDict::from_csv(SMALL).unwrap();
    // Five rows, but the two `act` rows collapse into one homograph.
    assert_eq!(td.homographs.len(), 4);
    let act = td.try_find("act").unwrap();
    assert_eq!(act.meanings.len(), 2);
    assert_eq!(act.meanings[0].part_of_speech, PartOfSpeech::Noun);
    assert_eq!(act.meanings[1].part_of_speech, PartOfSpeech::Verb);
    assert_eq!(act.first_definition(), "a deed");
}

#[test]
fn test_from_csv_keeps_first_seen_order() {
    let td = TermDict::from_csv(SMALL).unwrap();
    let texts: Vec<String> = td.homographs.iter().map(|h| h.text.clone()).collect();
    assert_eq!(texts, vec!["act", "cat", "ire", "Emma"]);
}

#[test]
fn test_from_csv_reads_tags() {
    let td = TermDict::from_csv(SMALL).unwrap();
    let ire = td.try_find("ire").unwrap();
    assert!(ire.meanings[0].tags.contains(WordTag::Negative));
    assert!(!ire.meanings[0].tags.contains(WordTag::Positive));
    let emma = td.try_find("Emma").unwrap();
    assert!(emma.meanings[0].tags.contains(WordTag::Feminine));
}

#[test]
fn test_from_csv_rejects_bad_part_of_speech() {
    assert!(TermDict::from_csv("x\tword\t\t\n").is_err());
}

#[test]
fn test_from_csv_rejects_short_rows() {
    assert!(TermDict::from_csv("n\tword\n").is_err());
}

#[test]
fn test_from_csv_rejects_bad_tag() {
    assert!(TermDict::from_csv("n\tword\t\tpurple\n").is_err());
}

#[test]
fn test_try_find_is_case_sensitive() {
    let td = TermDict::from_csv(SMALL).unwrap();
    assert!(td.try_find("Emma").is_some());
    assert!(td.try_find("emma").is_none());
}

#[test]
fn test_pos_buckets_keep_master_order() {
    let td = TermDict::from_csv(SMALL).unwrap();
    let nouns = td.pos_bucket(PartOfSpeech::Noun);
    let texts: Vec<String> = nouns.iter().map(|h| h.text.clone()).collect();
    assert_eq!(texts, vec!["act", "cat", "ire"]);
    let verbs = td.pos_bucket(PartOfSpeech::Verb);
    assert_eq!(verbs.len(), 1);
    assert_eq!(verbs[0].text, "act");
}

#[test]
fn test_part_of_speech_codes() {
    assert_eq!(PartOfSpeech::from_str("n").unwrap(), PartOfSpeech::Noun);
    assert_eq!(PartOfSpeech::from_str("J").unwrap(), PartOfSpeech::Adjective);
    assert_eq!(PartOfSpeech::from_str("a").unwrap(), PartOfSpeech::Adverb);
    assert_eq!(PartOfSpeech::from_str("i").unwrap(), PartOfSpeech::Interjection);
    assert_eq!(PartOfSpeech::from_str("c").unwrap(), PartOfSpeech::Conjunction);
    assert_eq!(PartOfSpeech::from_str("r").unwrap(), PartOfSpeech::Pronoun);
    assert_eq!(PartOfSpeech::from_str("firstname").unwrap(), PartOfSpeech::FirstName);
    assert!(PartOfSpeech::from_str("q").is_err());
}

#[test]
fn test_word_tag_codes() {
    assert_eq!(WordTag::from_str("masculine").unwrap(), WordTag::Masculine);
    assert_eq!(WordTag::from_str("Positive").unwrap(), WordTag::Positive);
    assert!(WordTag::from_str("blue").is_err());
}
