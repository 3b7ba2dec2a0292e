use shrewd_orca::anagram_dict::AnagramDict;
use shrewd_orca::anagram_key::AnagramKey;
use shrewd_orca::anagram_settings::AnagramSettings;
use shrewd_orca::parser::question_parse;
use shrewd_orca::question::Question;
use shrewd_orca::solution::QuestionSolution;
use shrewd_orca::word_context::WordContext;

/// Runs a query against a dictionary given as tab-separated text and
/// joins the rendered solutions with `"; "`.
fn run(csv: &str, query: &str) -> String {
    let ctx = WordContext::from_csv(csv).unwrap();
    let q = question_parse(query).unwrap();
    let sols = q.solve(&ctx);
    let texts: Vec<String> = sols.iter().map(|s| s.get_text()).collect();
    texts.join("; ")
}

const WORDS: &str = "n\tact\ta deed\t\nn\tcat\ta feline\t\nn\ttac\ta fastener\t\nn\tire\tanger\tnegative\nn\tbad\t\t\nn\tbid\t\t\nn\tbed\t\t\nn\tbold\t\t\nn\tcrest\t\t\nn\tconst\t\t\nn\tcomet\t\t\nn\tcrust\t\t\nn\tthing\t\t\nn\twhole\t\t\n";

#[test]
fn test_length_query() {
    // `5` asks for one word of exactly five letters.
    let out = run(WORDS, "5");
    assert_eq!(out, "crest; const; comet; crust; thing; whole");
}

#[test]
fn test_pattern_query() {
    // `b?d` asks for three-letter words shaped b.d.
    let out = run(WORDS, "b?d");
    assert_eq!(out, "bad; bid; bed");
}

#[test]
fn test_conjunction_query() {
    // `c???t + *e*` asks for five-letter c…t words holding an e.
    let out = run(WORDS, "c???t + *e*");
    assert_eq!(out, "crest; comet");
}

#[test]
fn test_conjunction_needs_letters_between_the_frame() {
    // "c--et" is five characters framed by c and t and holds an e, but
    // `?` stands for a letter, so only "crest" comes out.
    let csv = "n\tc--et\t\t\nn\tcrest\t\t\n";
    let out = run(csv, "c???t + *e*");
    assert_eq!(out, "crest");
}

#[test]
fn test_literal_query() {
    let out = run(WORDS, "cat");
    assert_eq!(out, "cat");
}

#[test]
fn test_range_query() {
    let out = run("n\tab\t\t\nn\tcat\t\t\nn\tbold\t\t\nn\tcrest\t\t\n", "3..4");
    assert_eq!(out, "cat; bold");
}

#[test]
fn test_disjunction_query() {
    let out = run(WORDS, "(cat / ire)");
    assert_eq!(out, "cat; ire");
}

#[test]
fn test_anagram_of_literal() {
    // `cat =a *`: the multiset anagrams of "cat", the identity excluded.
    let out = run(WORDS, "cat =a *");
    assert_eq!(out, "cat : act; cat : tac");
}

#[test]
fn test_anagram_symmetry_by_flip() {
    // The same pairs come out of both orientations, flipped.
    let forward = run(WORDS, "cat =a *");
    let backward = run(WORDS, "* =a cat");
    assert_eq!(forward, "cat : act; cat : tac");
    assert_eq!(backward, "act : cat; tac : cat");
}

#[test]
fn test_anagram_two_words() {
    // Partitioning the letters of "i react" over the dictionary.
    let out = run(WORDS, "i react =a * *");
    assert_eq!(out, "i react : act ire; i react : cat ire; i react : tac ire");
}

#[test]
fn test_anagram_repeated_word() {
    // The bound is inclusive when the search goes deeper, so a word may
    // pair with itself.
    let ctx = WordContext::from_csv("n\tcha\t\t\n").unwrap();
    let dict = AnagramDict::from_term_dict(&ctx.term_dict);
    let sols = dict.solve_for_word(
        "chacha",
        AnagramSettings { min_word_length: 3, max_words: Some(3) },
    );
    let texts: Vec<String> = sols.iter().map(|s| s.get_text()).collect();
    assert_eq!(texts.join("; "), "cha cha");
}

#[test]
fn test_anagram_key_sum() {
    let ctx = WordContext::from_csv(WORDS).unwrap();
    let q = question_parse("i react =a * *").unwrap();
    let sols = q.solve(&ctx);
    assert!(sols.len() > 0);
    for s in sols.iter() {
        match s {
            QuestionSolution::Anagram(a) => {
                let lk = AnagramKey::from_str(&a.left.get_text()).unwrap();
                let rk = AnagramKey::from_str(&a.right.get_text()).unwrap();
                assert_eq!(lk, rk);
            },
            _ => panic!("expected an anagram solution"),
        }
    }
}

#[test]
fn test_anagram_min_word_length() {
    // Two-letter fragments never appear: every enumerated word has at
    // least three letters.
    let csv = "n\tat\t\t\nn\tc\t\t\nn\tact\t\t\nn\tire\t\t\nn\tcat\t\t\n";
    let out = run(csv, "i react =a * *");
    assert_eq!(out, "i react : act ire; i react : cat ire");
    for s in out.split("; ") {
        let right = s.split(" : ").nth(1).unwrap();
        for w in right.split(' ') {
            assert!(w.chars().filter(|c| c.is_ascii_alphabetic()).count() >= 3);
        }
    }
}

#[test]
fn test_anagram_no_trivial_solutions() {
    // A word is an anagram of itself, but the identity pair never comes
    // out.
    let out = run(WORDS, "cat =a *");
    for s in out.split("; ") {
        let mut halves = s.split(" : ");
        let left = halves.next().unwrap();
        let right = halves.next().unwrap();
        assert_ne!(left, right);
    }
}

#[test]
fn test_anagram_phrase() {
    // A whole-name anagram against the phrase catalogue: the single-word
    // skeleton matches the one word with the same letters.
    let csv = "n\toldwestaction\t\t\nn\tthe\t\t\n";
    let out = run(csv, "clint eastwood =a !phrase");
    assert_eq!(out, "clint eastwood : oldwestaction");
}

#[test]
fn test_determinism() {
    // The same query against the same dictionary twice gives the same
    // rendering in the same order.
    let a = run(WORDS, "i react =a * *");
    let b = run(WORDS, "i react =a * *");
    assert_eq!(a, b);
    let c = run(WORDS, "5");
    let d = run(WORDS, "5");
    assert_eq!(c, d);
}

#[test]
fn test_spoonerism() {
    let csv = "n\tmad\t\t\nn\tdear\t\t\nn\tdad\t\t\nn\tmear\t\t\n";
    let out = run(csv, "mad dear =s * *");
    assert_eq!(out, "mad dear : dad mear");
}

#[test]
fn test_spoonerism_rejects_identity() {
    // Swapping the leading letters of "bat cat" gives "cat bat": the same
    // words again, so nothing comes out.
    let csv = "n\tbat\t\t\nn\tcat\t\t\n";
    let out = run(csv, "bat cat =s * *");
    assert_eq!(out, "");
}

#[test]
fn test_spoonerism_order_follows_generator() {
    // Every workable pair comes out, once per generator tuple, in the
    // generator's own order.
    let csv = "n\tmad\t\t\nn\tdear\t\t\nn\tdad\t\t\nn\tmear\t\t\n";
    let out = run(csv, "* * =s * *");
    assert_eq!(
        out,
        "mad dear : dad mear; dear mad : mear dad; dad mear : mad dear; mear dad : dear mad"
    );
}

#[test]
fn test_spoonerism_implicit_right_side() {
    // A spoonerism equation without a right side reads as `=s * *`.
    let csv = "n\tmad\t\t\nn\tdear\t\t\nn\tdad\t\t\nn\tmear\t\t\n";
    let out = run(csv, "mad dear =s");
    assert_eq!(out, "mad dear : dad mear");
}

#[test]
fn test_anagram_still_needs_right_side() {
    assert!(question_parse("cat =a").is_err());
}

#[test]
fn test_spoonerism_needs_dictionary_words() {
    // "mear" is missing: the swapped pair cannot be looked up.
    let csv = "n\tmad\t\t\nn\tdear\t\t\nn\tdad\t\t\n";
    let out = run(csv, "mad dear =s * *");
    assert_eq!(out, "");
}

#[test]
fn test_order_to_allow_reorders_to_fit() {
    let ctx = shrewd_orca::word_context::WordContext::from_csv(WORDS).unwrap();
    let q = match question_parse("c?t 3").unwrap() {
        Question::Expression(e) => e,
        _ => panic!("expected an expression"),
    };
    let act = ctx.try_get("act").unwrap();
    let cat = ctx.try_get("cat").unwrap();
    let sol = shrewd_orca::solution::ExpressionSolution { homographs: vec![act, cat] };
    let r = q.order_to_allow(&ctx, sol).expect("a fitting arrangement exists");
    assert_eq!(r.get_text(), "cat act");
}

#[test]
fn test_order_to_allow_keeps_aligned_tuples() {
    let ctx = shrewd_orca::word_context::WordContext::from_csv(WORDS).unwrap();
    let q = match question_parse("c?t 3").unwrap() {
        Question::Expression(e) => e,
        _ => panic!("expected an expression"),
    };
    let cat = ctx.try_get("cat").unwrap();
    let act = ctx.try_get("act").unwrap();
    let sol = shrewd_orca::solution::ExpressionSolution { homographs: vec![cat, act] };
    let r = q.order_to_allow(&ctx, sol).expect("already aligned");
    assert_eq!(r.get_text(), "cat act");
}

#[test]
fn test_order_to_allow_none_when_nothing_fits() {
    let ctx = shrewd_orca::word_context::WordContext::from_csv(WORDS).unwrap();
    let q = match question_parse("c?t 3").unwrap() {
        Question::Expression(e) => e,
        _ => panic!("expected an expression"),
    };
    let act = ctx.try_get("act").unwrap();
    let ire = ctx.try_get("ire").unwrap();
    // Neither word matches `c?t`, so no arrangement fits.
    let sol = shrewd_orca::solution::ExpressionSolution { homographs: vec![act, ire] };
    assert!(q.order_to_allow(&ctx, sol).is_none());
}

#[test]
fn test_part_of_speech_query() {
    let csv = "n\tcat\t\t\nv\trun\t\t\nj\tbig\t\t\n";
    assert_eq!(run(csv, "#n"), "cat");
    assert_eq!(run(csv, "#v"), "run");
    assert_eq!(run(csv, "#j"), "big");
}

#[test]
fn test_tag_query() {
    let csv = "n\tire\t\tnegative\nn\tjoy\t\tpositive\n";
    assert_eq!(run(csv, "#negative"), "ire");
    assert_eq!(run(csv, "#positive"), "joy");
}

#[test]
fn test_upgrade_literals_brings_definitions() {
    let ctx = WordContext::from_csv(WORDS).unwrap();
    let mut q = question_parse("cat").unwrap();
    q.upgrade_literals(&ctx);
    let sols = q.solve(&ctx);
    assert_eq!(sols.len(), 1);
    match &sols[0] {
        QuestionSolution::Expression(e) => {
            assert_eq!(e.homographs[0].first_definition(), "a feline");
        },
        _ => panic!("expected an expression solution"),
    }
}

#[test]
fn test_too_difficult_gate() {
    let ctx = WordContext::from_csv(WORDS).unwrap();
    // Two unbounded sides: both option counts pass the threshold.
    let q = question_parse("** =a **").unwrap();
    assert!(q.is_too_difficult(&ctx));
    // A literal side keeps the equation easy.
    let q2 = question_parse("cat =a *").unwrap();
    assert!(!q2.is_too_difficult(&ctx));
    match q2 {
        Question::Equation(_) => {},
        _ => panic!("expected an equation"),
    }
}
