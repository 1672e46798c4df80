use nlprule::composition::{Composition, Matcher, Part};
use nlprule::engine::{Engine, TokenEngine};
use nlprule::rule::{Rule, Suggestion, Test};
use nlprule::rules::{Cache, Rules, RulesOptions};
use nlprule::synth::{Synthesizer, SynthesizerPart};
use nlprule::tagger::{Tagger, TokenizerOptions};
use nlprule::tokenizer::{Tokenizer, finalize};

fn options() -> TokenizerOptions {
    TokenizerOptions {
        always_add_lower_tags: false,
        use_compound_split_heuristic: false,
        retain_last: false,
        known_failures: Vec::new(),
    }
}

fn plain_tokenizer() -> Tokenizer {
    Tokenizer::new(Tagger::new(Vec::new(), Vec::new()), options(), Vec::new())
}

fn exact_part(text: &str) -> Part {
    Part { matcher: Matcher::Exact(String::from(text)), on_pos: false }
}

fn text_suggester(text: &str) -> Synthesizer {
    Synthesizer::new(false, vec![SynthesizerPart::Text(String::from(text))])
}

fn one_part_rule(id: &str, matched: &str, replacement: &str) -> Rule {
    Rule {
        id: String::from(id),
        engine: Engine::Token(TokenEngine::new(
            Composition::new(vec![exact_part(matched)]),
            Vec::new(),
        )),
        tests: Vec::new(),
        suggesters: vec![text_suggester(replacement)],
        message: text_suggester("a message"),
        start: 1,
        end: 2,
        on: true,
    }
}

#[test]
fn no_space_absorption() {
    // "Super , dass": a rule that matches "," and suggests "," absorbs the
    // space before it
    let tok = plain_tokenizer();
    let tokens = finalize(&tok.tokenize("Super , dass"));
    let rule = one_part_rule("COMMA", ",", ",");
    let sugs = rule.apply(&tokens, None, &tok);
    assert_eq!(sugs.len(), 1);
    assert_eq!(sugs[0].start, 5);
    assert_eq!(sugs[0].end, 7);
    assert_eq!(sugs[0].text[0], ",");
    let fixed = Rules::correct("Super , dass", &sugs);
    assert_eq!(fixed, "Super, dass");
}

#[test]
fn case_adjustment_at_sentence_start() {
    // the matched token starts at byte offset 0, so the suggestion's first
    // letter is uppercased
    let tok = plain_tokenizer();
    let tokens = finalize(&tok.tokenize("hello world"));
    let rule = one_part_rule("HELLO", "hello", "hey");
    let sugs = rule.apply(&tokens, None, &tok);
    assert_eq!(sugs.len(), 1);
    assert_eq!(sugs[0].text[0], "Hey");
}

#[test]
fn anti_pattern_gating() {
    let tok = plain_tokenizer();
    let mut rule = one_part_rule("BANK", "bank", "shore");
    match &mut rule.engine {
        Engine::Token(engine) => {
            engine.antipatterns.push(Composition::new(vec![
                exact_part("river"),
                exact_part("bank"),
            ]));
        },
        _ => unreachable!(),
    }
    let blocked = finalize(&tok.tokenize("river bank"));
    assert_eq!(rule.apply(&blocked, None, &tok).len(), 0);
    let free = finalize(&tok.tokenize("piggy bank"));
    assert_eq!(rule.apply(&free, None, &tok).len(), 1);
}

#[test]
fn overlap_dedup_across_rules() {
    // two enabled rules match the same span: only the first survives
    let tok = plain_tokenizer();
    let tokens = finalize(&tok.tokenize("pad abc def"));
    let opts = RulesOptions::new_default();
    let mut rules = Rules::new();
    rules.push_rule(one_part_rule("FIRST", "abc", "xyz"), &opts);
    rules.push_rule(one_part_rule("SECOND", "abc", "uvw"), &opts);
    let sugs = rules.apply(&tokens, &tok);
    assert_eq!(sugs.len(), 1);
    assert_eq!(sugs[0].source, "FIRST");
    assert_eq!(sugs[0].text[0], "xyz");
}

#[test]
fn suggestions_are_sorted_and_disjoint() {
    let tok = plain_tokenizer();
    let tokens = finalize(&tok.tokenize("pad b a"));
    let opts = RulesOptions::new_default();
    let mut rules = Rules::new();
    rules.push_rule(one_part_rule("A", "a", "x"), &opts);
    rules.push_rule(one_part_rule("B", "b", "y"), &opts);
    let sugs = rules.apply(&tokens, &tok);
    assert_eq!(sugs.len(), 2);
    assert!(sugs[0].start <= sugs[1].start);
    assert!(sugs[0].end <= sugs[1].start);
}

#[test]
fn correct_recomposes_with_length_delta() {
    let sugs = vec![Suggestion {
        source: String::from("r"),
        message: String::from("m"),
        start: 0,
        end: 3,
        text: vec![String::from("defgh")],
    }];
    let fixed = Rules::correct("abc xyz", &sugs);
    assert_eq!(fixed, "defgh xyz");
    assert_eq!(fixed.chars().count(), 7 + 5 - 3);
}

#[test]
fn rule_ids_and_switch() {
    let mut rule = one_part_rule("X", "a", "b");
    assert_eq!(rule.id(), "X");
    assert!(rule.on());
    rule.set_on(false);
    assert!(!rule.on());
    rule.set_id(String::from("Y"));
    assert_eq!(rule.id(), "Y");
}

#[test]
fn options_filter_rule_ids() {
    let mut opts = RulesOptions::new_default();
    opts.ignore_ids.push(String::from("BAD"));
    let mut rules = Rules::new();
    rules.push_rule(one_part_rule("GOOD", "a", "b"), &opts);
    rules.push_rule(one_part_rule("BAD", "a", "b"), &opts);
    assert_eq!(rules.rules().len(), 1);
    assert_eq!(rules.rules()[0].id(), "GOOD");
}

#[test]
fn cache_skips_impossible_anchors() {
    let tok = plain_tokenizer();
    let tokens = finalize(&tok.tokenize("pad abc def"));
    let opts = RulesOptions::new_default();
    let mut rules = Rules::new();
    rules.push_rule(one_part_rule("ABC", "abc", "x"), &opts);
    rules.populate_cache(&vec![
        String::from(""),
        String::from("abc"),
        String::from("def"),
    ]);
    // the cached bits still let the genuine match through
    let sugs = rules.apply(&tokens, &tok);
    assert_eq!(sugs.len(), 1);
    assert_eq!(sugs[0].text[0], "x");
}

#[test]
fn cache_appends_and_preserves_entries() {
    let abc_engine = Engine::Token(TokenEngine::new(
        Composition::new(vec![exact_part("abc")]),
        Vec::new(),
    ));
    let def_engine = Engine::Token(TokenEngine::new(
        Composition::new(vec![exact_part("def")]),
        Vec::new(),
    ));
    let mut cache = Cache::new();
    cache.populate(
        &vec![String::from("abc"), String::from("def")],
        &vec![&abc_engine],
    );
    // a second pass appends bits and leaves the word outside it untouched
    cache.populate(&vec![String::from("abc")], &vec![&def_engine]);
    assert_eq!(cache.words, vec![String::from("abc"), String::from("def")]);
    assert_eq!(cache.masks[0], vec![false, true]);
    assert_eq!(cache.masks[1], vec![true]);
}

#[test]
fn rule_self_tests_run() {
    let tok = plain_tokenizer();
    let mut rule = one_part_rule("ABC", "abc", "x");
    rule.tests.push(Test {
        text: String::from("say abc now"),
        suggestion: Some(Suggestion {
            source: String::from("ABC"),
            message: String::from("a message"),
            start: 4,
            end: 7,
            text: vec![String::from("x")],
        }),
    });
    rule.tests.push(Test { text: String::from("nothing here"), suggestion: None });
    assert!(rule.test(&tok));
    // a wrong expectation fails
    let mut bad = one_part_rule("ABC", "abc", "x");
    bad.tests.push(Test { text: String::from("say abc now"), suggestion: None });
    assert!(!bad.test(&tok));
}

#[test]
fn suggestion_equality_needs_shared_text() {
    let a = Suggestion {
        source: String::from("r"),
        message: String::from("m"),
        start: 1,
        end: 2,
        text: vec![String::from("x"), String::from("y")],
    };
    let b = Suggestion {
        source: String::from("other"),
        message: String::from("other"),
        start: 1,
        end: 2,
        text: vec![String::from("y")],
    };
    assert!(a.matches(&b));
    let c = Suggestion {
        source: String::from("r"),
        message: String::from("m"),
        start: 1,
        end: 2,
        text: vec![String::from("z")],
    };
    assert!(!a.matches(&c));
}
