use wordnet_search::lexicon::{Lexicon, LoadError, Sense, WordEntry};
use wordnet_search::registry::Registry;
use wordnet_search::engine::WordNetSearcher;

fn strings(xs: &[&str]) -> Vec<String> {
    xs.iter().map(|s| s.to_string()).collect()
}

fn sense(id: &str, defs: &[&str], ex: &[&str], syns: &[&str], ants: &[&str]) -> Sense {
    Sense {
        id: id.to_string(),
        definitions: strings(defs),
        examples: strings(ex),
        synonym_refs: strings(syns),
        antonym_refs: strings(ants),
    }
}

fn word(w: &str) -> WordEntry {
    WordEntry {
        word: w.to_string(),
        p: None,
        n: None,
        u: None,
        v: None,
        x: None,
        a: None,
        r: None,
        s: None,
    }
}

fn word_a(w: &str, senses: &[&str]) -> WordEntry {
    let mut e = word(w);
    e.a = Some(strings(senses));
    e
}

fn word_n(w: &str, senses: &[&str]) -> WordEntry {
    let mut e = word(w);
    e.n = Some(strings(senses));
    e
}

#[test]
fn test_search_functionality() {
    // This test assumes you have a wordnet.json file
    // initialize_wordnet_index("wordnet.json").unwrap();

    // let results = search_words("happy", 5);
    // println!("Search results for 'happy': {:#?}", results);
}

#[test]
fn happy_scenario_returns_synonym() {
    let senses = vec![
        sense("s1", &["feeling joy"], &[], &["s2"], &[]),
        sense("s2", &["showing gladness"], &[], &["s1"], &[]),
    ];
    let words = vec![word_a("happy", &["s1"]), word_a("glad", &["s2"])];
    let mut reg = Registry::new();
    reg.initialize("en", senses, words).unwrap();
    let results = reg.query("happy", "en", 5);
    assert!(!results.is_empty());
    let first = &results[0];
    assert_eq!(first.word, "happy");
    assert_eq!(first.pos, "a");
    assert_eq!(first.definitions, strings(&["feeling joy"]));
    assert!(first.examples.is_empty());
    assert!(first.synonyms.contains(&"glad".to_string()));
}

#[test]
fn empty_lexicon_yields_empty_results() {
    let mut reg = Registry::new();
    reg.initialize("xx", vec![], vec![]).unwrap();
    let results = reg.query("x", "xx", 5);
    assert!(results.is_empty());
}

#[test]
fn absent_language_yields_empty_results() {
    let reg = Registry::new();
    let results = reg.query("anything", "zz", 10);
    assert!(results.is_empty());
}

#[test]
fn truncation_is_a_prefix_of_the_full_results() {
    let senses = vec![
        sense("s1", &["first"], &[], &[], &[]),
        sense("s2", &["second"], &[], &[], &[]),
        sense("s3", &["third"], &[], &[], &[]),
    ];
    let words = vec![
        word_n("alpha", &["s1"]),
        word_n("amber", &["s2"]),
        word_n("banana", &["s3"]),
    ];
    let mut reg = Registry::new();
    reg.initialize("en", senses, words).unwrap();
    let full = reg.query("a", "en", usize::MAX);
    let limited = reg.query("a", "en", 2);
    assert!(limited.len() <= 2);
    assert_eq!(limited.as_slice(), &full[..limited.len()]);
    let zero = reg.query("a", "en", 0);
    assert!(zero.is_empty());
}

#[test]
fn exact_match_ranks_first() {
    let senses = vec![
        sense("s1", &["a small animal"], &[], &[], &[]),
        sense("s2", &["a list of things"], &[], &[], &[]),
    ];
    let words = vec![word_n("catalog", &["s2"]), word_n("cat", &["s1"])];
    let mut reg = Registry::new();
    reg.initialize("en", senses, words).unwrap();
    let results = reg.query("cat", "en", 10);
    assert!(results.len() >= 2);
    assert_eq!(results[0].word, "cat");
}

#[test]
fn pos_code_breaks_final_ties() {
    let senses = vec![sense("s1", &["a meaning"], &[], &[], &[])];
    let mut e = word("tie");
    e.a = Some(strings(&["s1"]));
    e.n = Some(strings(&["s1"]));
    let mut reg = Registry::new();
    reg.initialize("en", senses, vec![e]).unwrap();
    let results = reg.query("tie", "en", 10);
    assert_eq!(results.len(), 2);
    assert_eq!(results[0].pos, "a");
    assert_eq!(results[1].pos, "n");
    assert_eq!(results[0].word, "tie");
    assert_eq!(results[1].word, "tie");
}

#[test]
fn no_match_yields_no_results() {
    let senses = vec![sense("s1", &["feeling joy"], &[], &[], &[])];
    let words = vec![word_a("happy", &["s1"])];
    let mut reg = Registry::new();
    reg.initialize("en", senses, words).unwrap();
    let results = reg.query("zzz", "en", 10);
    assert!(results.is_empty());
    let results = reg.query("happy", "en", 10);
    assert_eq!(results.len(), 1);
}

#[test]
fn duplicate_sense_id_is_rejected() {
    let senses = vec![
        sense("s1", &["one"], &[], &[], &[]),
        sense("s1", &["two"], &[], &[], &[]),
    ];
    let mut reg = Registry::new();
    let r = reg.initialize("en", senses, vec![]);
    assert_eq!(r, Err(LoadError::DuplicateSenseId));
}

#[test]
fn duplicate_word_is_rejected() {
    let senses = vec![sense("s1", &["one"], &[], &[], &[])];
    let words = vec![word_n("twin", &["s1"]), word_n("twin", &["s1"])];
    let mut reg = Registry::new();
    let r = reg.initialize("en", senses, words);
    assert_eq!(r, Err(LoadError::DuplicateWord));
}

#[test]
fn failed_initialize_leaves_prior_engine() {
    let mut reg = Registry::new();
    reg.initialize(
        "en",
        vec![sense("s1", &["feeling joy"], &[], &[], &[])],
        vec![word_a("happy", &["s1"])],
    )
    .unwrap();
    let bad = reg.initialize(
        "en",
        vec![
            sense("s1", &["one"], &[], &[], &[]),
            sense("s1", &["two"], &[], &[], &[]),
        ],
        vec![],
    );
    assert_eq!(bad, Err(LoadError::DuplicateSenseId));
    let results = reg.query("happy", "en", 10);
    assert_eq!(results.len(), 1);
    assert_eq!(results[0].word, "happy");
}

#[test]
fn reinitialize_replaces_the_lexicon() {
    let mut reg = Registry::new();
    reg.initialize(
        "en",
        vec![sense("s1", &["feeling joy"], &[], &[], &[])],
        vec![word_a("happy", &["s1"])],
    )
    .unwrap();
    reg.initialize(
        "en",
        vec![sense("s1", &["a small animal"], &[], &[], &[])],
        vec![word_n("cat", &["s1"])],
    )
    .unwrap();
    assert!(reg.query("happy", "en", 10).is_empty());
    assert_eq!(reg.query("cat", "en", 10).len(), 1);
}

#[test]
fn initialize_twice_with_same_source_is_idempotent() {
    let mk_senses = || {
        vec![
            sense("s1", &["feeling joy"], &[], &["s2"], &[]),
            sense("s2", &["showing gladness"], &[], &["s1"], &[]),
        ]
    };
    let mk_words = || vec![word_a("happy", &["s1"]), word_a("glad", &["s2"])];
    let mut once = Registry::new();
    once.initialize("en", mk_senses(), mk_words()).unwrap();
    let mut twice = Registry::new();
    twice.initialize("en", mk_senses(), mk_words()).unwrap();
    twice.initialize("en", mk_senses(), mk_words()).unwrap();
    assert_eq!(once.query("ha", "en", 10), twice.query("ha", "en", 10));
}

#[test]
fn identical_queries_return_identical_results() {
    let senses = vec![
        sense("s1", &["first"], &[], &[], &[]),
        sense("s2", &["second"], &[], &[], &[]),
    ];
    let words = vec![word_n("alpha", &["s1"]), word_n("amber", &["s2"])];
    let mut reg = Registry::new();
    reg.initialize("en", senses, words).unwrap();
    let r1 = reg.query("a", "en", 10);
    let r2 = reg.query("a", "en", 10);
    assert_eq!(r1, r2);
}

#[test]
fn synonyms_are_the_sorted_deduplicated_union() {
    // "joy" references s1 under two categories: it must appear once.
    let senses = vec![
        sense("s0", &["great cheer"], &[], &["s1"], &[]),
        sense("s1", &["a joyful meaning"], &[], &[], &[]),
    ];
    let mut joy = word("joy");
    joy.n = Some(strings(&["s1"]));
    joy.a = Some(strings(&["s1"]));
    let words = vec![word_a("cheer", &["s0"]), joy, word_n("glee", &["s1"])];
    let mut reg = Registry::new();
    reg.initialize("en", senses, words).unwrap();
    let results = reg.query("cheer", "en", 10);
    assert_eq!(results.len(), 1);
    assert_eq!(results[0].synonyms, strings(&["glee", "joy"]));
}

#[test]
fn antonyms_are_resolved_through_the_reverse_index() {
    let senses = vec![
        sense("s0", &["pleased"], &[], &[], &["s1"]),
        sense("s1", &["displeased"], &[], &[], &[]),
    ];
    let words = vec![word_a("happy", &["s0"]), word_a("sad", &["s1"])];
    let mut reg = Registry::new();
    reg.initialize("en", senses, words).unwrap();
    let results = reg.query("happy", "en", 10);
    assert_eq!(results.len(), 1);
    assert_eq!(results[0].antonyms, strings(&["sad"]));
}

#[test]
fn unknown_sense_reference_resolves_to_nothing() {
    let senses = vec![sense("s0", &["lonely meaning"], &[], &["missing"], &[])];
    let words = vec![word_a("alone", &["s0"])];
    let mut reg = Registry::new();
    reg.initialize("en", senses, words).unwrap();
    let results = reg.query("alone", "en", 10);
    assert_eq!(results.len(), 1);
    assert!(results[0].synonyms.is_empty());
}

#[test]
fn index_status_reports_initialization() {
    let mut reg = Registry::new();
    let st = reg.get_index_status("en");
    assert!(!st.is_initialized);
    assert_eq!(st.entry_count, 0);
    reg.initialize(
        "en",
        vec![sense("s1", &["first"], &[], &[], &[])],
        vec![word_n("alpha", &["s1"]), word_n("beta", &["s1"])],
    )
    .unwrap();
    let st = reg.get_index_status("en");
    assert!(st.is_initialized);
    assert_eq!(st.entry_count, 2);
}

#[test]
fn get_all_entries_hands_out_the_word_table() {
    let mut reg = Registry::new();
    assert!(reg.get_all_entries("en").is_none());
    reg.initialize(
        "en",
        vec![sense("s1", &["first"], &[], &[], &[])],
        vec![word_n("alpha", &["s1"])],
    )
    .unwrap();
    let entries = reg.get_all_entries("en").unwrap();
    assert_eq!(entries.len(), 1);
    assert_eq!(entries[0].word, "alpha");
    assert_eq!(entries[0].n, Some(strings(&["s1"])));
}

#[test]
fn languages_are_independent() {
    let mut reg = Registry::new();
    reg.initialize(
        "en",
        vec![sense("s1", &["feeling joy"], &[], &[], &[])],
        vec![word_a("happy", &["s1"])],
    )
    .unwrap();
    reg.initialize(
        "lv",
        vec![sense("s1", &["priecigs"], &[], &[], &[])],
        vec![word_a("laimigs", &["s1"])],
    )
    .unwrap();
    assert_eq!(reg.query("happy", "en", 10).len(), 1);
    assert!(reg.query("happy", "lv", 10).is_empty());
    assert_eq!(reg.query("laimigs", "lv", 10).len(), 1);
}

#[test]
fn searcher_resolves_sense_ids_to_sorted_words() {
    let senses = vec![sense("s1", &["a joyful meaning"], &[], &[], &[])];
    let words = vec![word_n("zeal", &["s1"]), word_n("ardor", &["s1"])];
    let lexicon = Lexicon::new(senses, words).unwrap();
    let searcher = WordNetSearcher::new(lexicon);
    let resolved = searcher.resolve_synset_ids_to_words(&strings(&["s1"]));
    assert_eq!(resolved, strings(&["ardor", "zeal"]));
}

#[test]
fn case_differs_only_in_exactness() {
    // "Cat" matches a lowercase query case-insensitively and counts as an
    // exact match through lowercasing.
    let senses = vec![sense("s1", &["a small animal"], &[], &[], &[])];
    let words = vec![word_n("Cat", &["s1"])];
    let mut reg = Registry::new();
    reg.initialize("en", senses, words).unwrap();
    let results = reg.query("cat", "en", 10);
    assert_eq!(results.len(), 1);
    assert_eq!(results[0].word, "Cat");
}

#[test]
fn pos_codes_spell_out_category_names() {
    assert_eq!(WordNetSearcher::get_pos_description("p"), "pronoun");
    assert_eq!(WordNetSearcher::get_pos_description("n"), "noun");
    assert_eq!(WordNetSearcher::get_pos_description("u"), "NULL/unknown");
    assert_eq!(WordNetSearcher::get_pos_description("v"), "verb");
    assert_eq!(WordNetSearcher::get_pos_description("x"), "other");
    assert_eq!(WordNetSearcher::get_pos_description("a"), "adjective");
    assert_eq!(WordNetSearcher::get_pos_description("r"), "adverb");
    assert_eq!(WordNetSearcher::get_pos_description("s"), "adj satellite");
    assert_eq!(WordNetSearcher::get_pos_description("q"), "unknown");
}

#[test]
fn empty_query_matches_every_word_with_baseline_score() {
    let senses = vec![sense("s1", &["a meaning"], &[], &[], &[])];
    let words = vec![word_n("beta", &["s1"]), word_n("alpha", &["s1"])];
    let mut reg = Registry::new();
    reg.initialize("en", senses, words).unwrap();
    let results = reg.query("", "en", 10);
    assert_eq!(results.len(), 2);
    assert_eq!(results[0].word, "alpha");
    assert_eq!(results[1].word, "beta");
    assert_eq!(results[0].match_score, 0);
    assert_eq!(results[1].match_score, 0);
}

#[test]
fn exactness_is_judged_case_insensitively() {
    // "X-Y" equals the query ignoring case and must rank first even though
    // the case-matched prefix of "x-yq" earns a higher fuzzy score.
    let senses = vec![
        sense("s1", &["first meaning"], &[], &[], &[]),
        sense("s2", &["second meaning"], &[], &[], &[]),
    ];
    let words = vec![word_n("x-yq", &["s2"]), word_n("X-Y", &["s1"])];
    let mut reg = Registry::new();
    reg.initialize("en", senses, words).unwrap();
    let results = reg.query("x-y", "en", 10);
    assert_eq!(results.len(), 2);
    assert_eq!(results[0].word, "X-Y");
    assert!(results[0].match_score < results[1].match_score);
}
