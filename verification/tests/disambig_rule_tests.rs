use nlprule::composition::{Composition, Matcher, Part};
use nlprule::disambig::{DataOrFilter, Disambiguation};
use nlprule::engine::{Engine, TokenEngine};
use nlprule::rule::{DisambiguationChange, DisambiguationRule, DisambiguationTest};
use nlprule::tagger::{GroupEntry, TagEntry, Tagger, TokenizerOptions};
use nlprule::tokenizer::Tokenizer;
use nlprule::word::{Word, WordData};

fn options(retain_last: bool) -> TokenizerOptions {
    TokenizerOptions {
        always_add_lower_tags: false,
        use_compound_split_heuristic: false,
        retain_last,
        known_failures: Vec::new(),
    }
}

fn dog_tagger() -> Tagger {
    Tagger::new(
        vec![TagEntry {
            word: String::from("dogs"),
            tags: vec![WordData::new(String::from("dog"), String::from("NN"))],
        }],
        vec![GroupEntry {
            lemma: String::from("dog"),
            members: vec![String::from("dog"), String::from("dogs")],
        }],
    )
}

fn exact_part(text: &str) -> Part {
    Part { matcher: Matcher::Exact(String::from(text)), on_pos: false }
}

fn filter_rule(id: &str, matched: &str, pos: &str) -> DisambiguationRule {
    DisambiguationRule {
        id: String::from(id),
        engine: Engine::Token(TokenEngine::new(
            Composition::new(vec![exact_part(matched)]),
            Vec::new(),
        )),
        disambiguations: Disambiguation::Filter(vec![Some(DataOrFilter::Data(WordData::new(
            String::new(),
            String::from(pos),
        )))]),
        filter: None,
        start: 1,
        end: 2,
        tests: Vec::new(),
    }
}

#[test]
fn disambiguation_rewrites_matched_tokens() {
    let tok = Tokenizer::new(dog_tagger(), options(true), Vec::new());
    let tokens = tok.tokenize("the dogs bark");
    let n = tokens.len();
    let rule = filter_rule("DOGS", "dogs", "VB");
    let (after, complete) = rule.apply(tokens, &tok, vec![false; n], None);
    assert!(complete.is_none());
    assert_eq!(after[1].word.tags.len(), 1);
    assert_eq!(after[1].word.tags[0].lemma, "dog");
    assert_eq!(after[1].word.tags[0].pos, "VB");
    // the other tokens keep their words
    assert_eq!(after[0].word.text, "the");
    assert_eq!(after[2].word.text, "bark");
}

#[test]
fn nop_rule_returns_tokens_untouched() {
    let tok = Tokenizer::new(dog_tagger(), options(false), Vec::new());
    let tokens = tok.tokenize("the dogs");
    let n = tokens.len();
    let rule = DisambiguationRule {
        id: String::from("NOP"),
        engine: Engine::Token(TokenEngine::new(
            Composition::new(vec![exact_part("dogs")]),
            Vec::new(),
        )),
        disambiguations: Disambiguation::Nop,
        filter: None,
        start: 1,
        end: 2,
        tests: Vec::new(),
    };
    let (after, complete) = rule.apply(tokens, &tok, vec![false; n], None);
    assert!(complete.is_none());
    assert_eq!(after.len(), 2);
    assert_eq!(after[1].word.tags.len(), 1);
    assert_eq!(after[1].word.tags[0].pos, "NN");
}

#[test]
fn unchanged_self_test_round_trips() {
    // a rule that matches nothing in the test text leaves it bit-identical
    let mut rule = filter_rule("DOGS", "dogs", "VB");
    rule.tests.push(DisambiguationTest::Unchanged(String::from("no match here")));
    let tok = Tokenizer::new(dog_tagger(), options(true), Vec::new());
    assert!(rule.test(&tok));
}

#[test]
fn unchanged_self_test_fails_when_tokens_change() {
    let mut rule = filter_rule("DOGS", "dogs", "VB");
    rule.tests.push(DisambiguationTest::Unchanged(String::from("the dogs bark")));
    let tok = Tokenizer::new(dog_tagger(), options(true), Vec::new());
    assert!(!rule.test(&tok));
}

#[test]
fn changed_self_test_checks_tags_as_a_set() {
    let mut rule = filter_rule("DOGS", "dogs", "VB");
    rule.tests.push(DisambiguationTest::Changed(DisambiguationChange {
        text: String::from("the dogs bark"),
        char_span: (4, 8),
        before: Word {
            text: String::from("dogs"),
            tags: vec![WordData::new(String::from("dog"), String::from("NN"))],
        },
        after: Word {
            text: String::from("dogs"),
            tags: vec![WordData::new(String::from("dog"), String::from("VB"))],
        },
    }));
    let tok = Tokenizer::new(dog_tagger(), options(true), Vec::new());
    assert!(rule.test(&tok));
}

#[test]
fn disambiguation_chain_stops_before_id() {
    let first = filter_rule("FIRST", "dogs", "VB");
    let second = filter_rule("SECOND", "dogs", "JJ");
    let tok = Tokenizer::new(dog_tagger(), options(true), vec![first, second]);
    let up_to_second = tok.disambiguate_up_to_id(
        tok.tokenize("the dogs"),
        &String::from("SECOND"),
    );
    assert_eq!(up_to_second[1].word.tags[0].pos, "VB");
    let all = tok.disambiguate(tok.tokenize("the dogs"));
    assert_eq!(all[1].word.tags[0].pos, "JJ");
}
