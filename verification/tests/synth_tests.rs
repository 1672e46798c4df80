use nlprule::composition::{Composition, Matcher, Part};
use nlprule::engine::{Engine, TokenEngine};
use nlprule::outside::SerializeRegex;
use nlprule::rule::Rule;
use nlprule::synth::{Conversion, Match, PosReplacer, Synthesizer, SynthesizerPart};
use nlprule::tagger::{GroupEntry, TagEntry, Tagger, TokenizerOptions};
use nlprule::tokenizer::{Tokenizer, finalize};
use nlprule::word::WordData;

fn options() -> TokenizerOptions {
    TokenizerOptions {
        always_add_lower_tags: false,
        use_compound_split_heuristic: false,
        retain_last: false,
        known_failures: Vec::new(),
    }
}

fn run_tagger() -> Tagger {
    Tagger::new(
        vec![
            TagEntry {
                word: String::from("run"),
                tags: vec![
                    WordData::new(String::from("run"), String::from("NN")),
                    WordData::new(String::from("run"), String::from("VB")),
                ],
            },
            TagEntry {
                word: String::from("ran"),
                tags: vec![WordData::new(String::from("run"), String::from("VB"))],
            },
        ],
        vec![GroupEntry {
            lemma: String::from("run"),
            members: vec![String::from("run"), String::from("ran")],
        }],
    )
}

fn exact_part(text: &str) -> Part {
    Part { matcher: Matcher::Exact(String::from(text)), on_pos: false }
}

fn text_synth(text: &str) -> Synthesizer {
    Synthesizer::new(false, vec![SynthesizerPart::Text(String::from(text))])
}

#[test]
fn pos_replacer_picks_earliest_matching_family_member() {
    let tok = Tokenizer::new(run_tagger(), options(), Vec::new());
    let replacer = PosReplacer::new(Matcher::Exact(String::from("VB")));
    // "ran" is tagged VB at position 0, "run" only at position 1
    assert_eq!(replacer.apply("run", &tok), Some(String::from("ran")));
    assert_eq!(replacer.apply("unknown", &tok), None);
}

#[test]
fn regex_replacement_rewrites_group_text() {
    let tok = Tokenizer::new(Tagger::new(Vec::new(), Vec::new()), options(), Vec::new());
    let tokens = finalize(&tok.tokenize("pad abbbc"));
    let rule = Rule {
        id: String::from("REWRITE"),
        engine: Engine::Token(TokenEngine::new(
            Composition::new(vec![exact_part("abbbc")]),
            Vec::new(),
        )),
        tests: Vec::new(),
        suggesters: vec![Synthesizer::new(
            false,
            vec![SynthesizerPart::Match(Match::new(
                1,
                Conversion::Nop,
                None,
                Some((SerializeRegex::new("b+").unwrap(), String::from("X"))),
            ))],
        )],
        message: text_synth("a message"),
        start: 1,
        end: 2,
        on: true,
    };
    let sugs = rule.apply(&tokens, None, &tok);
    assert_eq!(sugs.len(), 1);
    assert_eq!(sugs[0].text[0], "aXc");
}

#[test]
fn conversion_on_match_part_suppresses_case_adjust() {
    let tok = Tokenizer::new(Tagger::new(Vec::new(), Vec::new()), options(), Vec::new());
    let tokens = finalize(&tok.tokenize("hello there"));
    // the leading reference converts, so no sentence-start uppercasing
    let rule = Rule {
        id: String::from("LOWER"),
        engine: Engine::Token(TokenEngine::new(
            Composition::new(vec![exact_part("hello")]),
            Vec::new(),
        )),
        tests: Vec::new(),
        suggesters: vec![Synthesizer::new(
            false,
            vec![SynthesizerPart::Match(Match::new(1, Conversion::AllLower, None, None))],
        )],
        message: text_synth("a message"),
        start: 1,
        end: 2,
        on: true,
    };
    let sugs = rule.apply(&tokens, None, &tok);
    assert_eq!(sugs.len(), 1);
    assert_eq!(sugs[0].text[0], "hello");
}

#[test]
fn text_engine_emits_one_graph_per_regex_match() {
    let tok = Tokenizer::new(Tagger::new(Vec::new(), Vec::new()), options(), Vec::new());
    let tokens = finalize(&tok.tokenize("abbb c"));
    let rule = Rule {
        id: String::from("TEXTRX"),
        engine: Engine::Text(SerializeRegex::new("b+").unwrap(), vec![(0, 0)]),
        tests: Vec::new(),
        suggesters: vec![text_synth("x")],
        message: text_synth("a message"),
        start: 0,
        end: 1,
        on: true,
    };
    let sugs = rule.apply(&tokens, None, &tok);
    assert_eq!(sugs.len(), 1);
    assert_eq!(sugs[0].start, 1);
    assert_eq!(sugs[0].end, 4);
    assert_eq!(sugs[0].text[0], "x");
}
