use shrewd_orca::examples::Example;
use shrewd_orca::full_state::FullState;
use shrewd_orca::word_context::WordContext;
use shrewd_orca::wordnet::{Lemma, PartOfSpeech, Word};

const WORDS: &str = "n\tact\t\t\nn\tcat\t\t\nn\ttac\t\t\nn\tire\t\t\nn\tcrest\t\t\nn\tthing\t\t\n";

#[test]
fn test_driver_runs_a_query() {
    let ctx = WordContext::from_csv(WORDS).unwrap();
    let mut state = FullState::default();
    state.change_text("5");
    assert!(state.hot);
    state.update_if_hot(&ctx);
    assert!(!state.hot);
    assert!(state.warning.is_none());
    let texts: Vec<String> = state.data.iter().map(|s| s.get_text()).collect();
    assert_eq!(texts, vec!["crest", "thing"]);
    assert!(state.is_complete);
    assert_eq!(state.info_text(), "Found all 2 solutions");
}

#[test]
fn test_driver_pages_in_batches() {
    let ctx = WordContext::from_csv(WORDS).unwrap();
    let mut state = FullState::default();
    state.change_text("3");
    state.update(&ctx);
    state.hot = false;
    state.load_more(2);
    assert_eq!(state.data.len(), 2);
    assert!(!state.is_complete);
    assert_eq!(state.info_text(), "Found 2 solutions");
    state.load_more(10);
    assert_eq!(state.data.len(), 4);
    assert!(state.is_complete);
    assert_eq!(state.info_text(), "Found all 4 solutions");
}

#[test]
fn test_driver_surfaces_parse_errors() {
    let ctx = WordContext::from_csv(WORDS).unwrap();
    let mut state = FullState::default();
    state.change_text("(unclosed");
    state.update_if_hot(&ctx);
    assert!(state.warning.is_some());
    assert_eq!(state.data.len(), 0);
}

#[test]
fn test_driver_keeps_results_on_parse_error() {
    // A failed parse leaves the previous-good answers on show behind the
    // warning.
    let ctx = WordContext::from_csv(WORDS).unwrap();
    let mut state = FullState::default();
    state.change_text("5");
    state.update_if_hot(&ctx);
    assert_eq!(state.data.len(), 2);
    state.change_text("(unclosed");
    state.update_if_hot(&ctx);
    assert!(state.warning.is_some());
    assert_eq!(state.data.len(), 2);
    let texts: Vec<String> = state.data.iter().map(|s| s.get_text()).collect();
    assert_eq!(texts, vec!["crest", "thing"]);
}

#[test]
fn test_driver_surfaces_the_cost_gate() {
    let ctx = WordContext::from_csv(WORDS).unwrap();
    let mut state = FullState::default();
    state.change_text("** =a **");
    state.update_if_hot(&ctx);
    assert_eq!(state.info_text(), "Question is too difficult");
    assert_eq!(state.data.len(), 0);
}

#[test]
fn test_change_text_trims_before_comparing() {
    let ctx = WordContext::from_csv(WORDS).unwrap();
    let mut state = FullState::default();
    state.change_text("5");
    state.update_if_hot(&ctx);
    assert!(!state.hot);
    // Only whitespace changed: no rerun is due.
    state.change_text("  5 ");
    assert!(!state.hot);
    state.change_text("4");
    assert!(state.hot);
}

#[test]
fn test_examples_list() {
    let list = Example::list();
    assert_eq!(list.len(), 10);
    assert_eq!(list[0].text, "*");
    assert_eq!(list[0].description, "Any word");
    assert_eq!(list[9].text, "5 + c???t + *e*");
}

#[test]
fn test_is_dictionary_word() {
    let lemma = |s: &str| Lemma {
        written_form: s.to_string(),
        part_of_speech: PartOfSpeech::Noun,
        pronunciations: Vec::new(),
    };
    assert!(lemma("cat").is_dictionary_word());
    assert!(!lemma("at").is_dictionary_word());
    assert!(!lemma("Cat").is_dictionary_word());
    assert!(!lemma("ca-t").is_dictionary_word());
}

#[test]
fn test_wordnet_codes() {
    assert_eq!(PartOfSpeech::Noun.to_str(), "n");
    assert_eq!(PartOfSpeech::Adjective.to_str(), "j");
    assert_eq!(PartOfSpeech::AdjectiveSatellite.to_str(), "j");
    assert_eq!(PartOfSpeech::Adverb.to_str(), "a");
}

#[test]
fn test_wordnet_row() {
    let w = Word {
        part_of_speech: PartOfSpeech::Noun,
        lemma: "cat".to_string(),
        definition: "a feline".to_string(),
        tags: "".to_string(),
    };
    assert_eq!(w.to_row(), "n\tcat\ta feline\t");
}
