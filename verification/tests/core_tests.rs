use nlprule::composition::{Composition, Matcher, Part};
use nlprule::disambig::{DataOrFilter, Disambiguation, POSFilter};
use nlprule::engine::{Engine, TokenEngine};
use nlprule::outside::SerializeRegex;
use nlprule::synth::Conversion;
use nlprule::tagger::{Tagger, TokenizerOptions};
use nlprule::tokenizer::{Tokenizer, finalize};
use nlprule::word::{IncompleteToken, Word, WordData, tags_set_eq};

fn options() -> TokenizerOptions {
    TokenizerOptions {
        always_add_lower_tags: false,
        use_compound_split_heuristic: false,
        retain_last: false,
        known_failures: Vec::new(),
    }
}

fn plain_tokenizer() -> Tokenizer {
    Tokenizer::new(Tagger::new(Vec::new(), Vec::new()), options(), Vec::new())
}

fn exact_part(text: &str) -> Part {
    Part { matcher: Matcher::Exact(String::from(text)), on_pos: false }
}

fn one_word_token(text: &str, lemma: &str, pos: &str) -> IncompleteToken {
    IncompleteToken {
        text: String::from(text),
        word: Word {
            text: String::from(text),
            tags: vec![WordData::new(String::from(lemma), String::from(pos))],
        },
        char_span: (0, text.chars().count()),
        byte_span: (0, text.len()),
    }
}

#[test]
fn whitespace_is_normalized() {
    let out = nlprule::text::normalize_whitespace("  a  b \t c ");
    let s: String = out.into_iter().collect();
    assert_eq!(s, "a b c");
}

#[test]
fn stray_space_before_punctuation_is_dropped() {
    let cs: Vec<char> = "foo , bar".chars().collect();
    let out = nlprule::text::fix_nospace_chars(&cs);
    let s: String = out.into_iter().collect();
    assert_eq!(s, "foo, bar");
}

#[test]
fn dollar_references_expand() {
    let groups = vec![Some(String::from("whole")), Some(String::from("part"))];
    let out = nlprule::text::dollar_replace("<$1>", &groups);
    assert_eq!(out, "<part>");
}

#[test]
fn bad_pattern_is_rejected() {
    assert!(SerializeRegex::new("(unclosed").is_none());
    assert!(SerializeRegex::new("ab+").is_some());
}

#[test]
fn regex_matching_works() {
    // the backing engine matches the whole string
    let re = SerializeRegex::new("NN.*").unwrap();
    assert!(re.is_match("NN:sg"));
    assert!(!re.is_match("VB"));
    assert!(!re.is_match("aNN"));
}

#[test]
fn tokenize_splits_on_whitespace() {
    let tok = plain_tokenizer();
    let tokens = tok.tokenize("Super , dass");
    assert_eq!(tokens.len(), 3);
    assert_eq!(tokens[0].word.text, "Super");
    assert_eq!(tokens[0].char_span, (0, 5));
    assert_eq!(tokens[1].word.text, ",");
    assert_eq!(tokens[1].char_span, (6, 7));
    assert_eq!(tokens[2].word.text, "dass");
    assert_eq!(tokens[2].char_span, (8, 12));
}

#[test]
fn finalize_prepends_sentence_start() {
    let tok = plain_tokenizer();
    let tokens = finalize(&tok.tokenize("hello world"));
    assert_eq!(tokens.len(), 3);
    assert_eq!(tokens[0].word.text, "");
    assert_eq!(tokens[0].word.tags[0].pos, "SENT_START");
    assert_eq!(tokens[1].word.text, "hello");
}

#[test]
fn composition_matches_consecutive_tokens() {
    let tok = plain_tokenizer();
    let tokens = finalize(&tok.tokenize("river bank here"));
    let comp = Composition::new(vec![exact_part("river"), exact_part("bank")]);
    let graph = comp.apply(&tokens, 1).expect("must match at the anchor");
    assert_eq!(graph.groups.len(), 3);
    assert!(comp.apply(&tokens, 2).is_none());
    assert!(comp.apply(&tokens, 3).is_none());
}

#[test]
fn can_not_match_is_a_sound_filter() {
    let comp = Composition::new(vec![exact_part("bank")]);
    assert!(comp.can_not_match("river"));
    assert!(!comp.can_not_match("bank"));
}

#[test]
fn by_id_resolves_known_groups_only() {
    let tok = plain_tokenizer();
    let tokens = finalize(&tok.tokenize("bank"));
    let comp = Composition::new(vec![exact_part("bank")]);
    let graph = comp.apply(&tokens, 1).unwrap();
    assert!(graph.by_id(0).is_some());
    assert!(graph.by_id(1).is_some());
    assert!(graph.by_id(7).is_none());
}

#[test]
fn filter_with_limit_keeps_matching_pos() {
    // a token tagged only {NN, dog}: the limit empties the set, the
    // fallback steps in
    let mut tokens = vec![one_word_token("dogs", "dog", "NN")];
    let op = Disambiguation::Filter(vec![Some(DataOrFilter::Data(WordData::new(
        String::new(),
        String::from("VB"),
    )))]);
    let groups = vec![vec![0usize]];
    op.apply(&mut tokens, &groups, true);
    assert_eq!(tokens[0].word.tags.len(), 1);
    assert_eq!(tokens[0].word.tags[0].lemma, "dog");
    assert_eq!(tokens[0].word.tags[0].pos, "VB");

    let mut tokens2 = vec![one_word_token("dogs", "dog", "NN")];
    let op2 = Disambiguation::Filter(vec![Some(DataOrFilter::Data(WordData::new(
        String::new(),
        String::from("VB"),
    )))]);
    op2.apply(&mut tokens2, &groups, false);
    assert_eq!(tokens2[0].word.tags.len(), 1);
    assert_eq!(tokens2[0].word.tags[0].lemma, "dogs");
    assert_eq!(tokens2[0].word.tags[0].pos, "VB");
}

#[test]
fn remove_drops_matching_tags() {
    let mut tokens = vec![one_word_token("walk", "walk", "VB")];
    tokens[0].word.tags.push(WordData::new(String::from("walk"), String::from("NN")));
    let op = Disambiguation::Remove(vec![DataOrFilter::Data(WordData::new(
        String::new(),
        String::from("NN"),
    ))]);
    op.apply(&mut tokens, &vec![vec![0usize]], false);
    assert_eq!(tokens[0].word.tags.len(), 1);
    assert_eq!(tokens[0].word.tags[0].pos, "VB");
}

#[test]
fn add_appends_and_drops_empty_pos() {
    let mut tokens = vec![one_word_token("walk", "walk", "VB")];
    let op = Disambiguation::Add(vec![WordData::new(String::new(), String::from("NN"))]);
    op.apply(&mut tokens, &vec![vec![0usize]], false);
    assert_eq!(tokens[0].word.tags.len(), 2);
    assert_eq!(tokens[0].word.tags[1].lemma, "walk");
    assert_eq!(tokens[0].word.tags[1].pos, "NN");
}

#[test]
fn replace_clears_then_adds() {
    let mut tokens = vec![one_word_token("walk", "walk", "VB")];
    let op = Disambiguation::Replace(vec![WordData::new(
        String::from("go"),
        String::from("VBZ"),
    )]);
    op.apply(&mut tokens, &vec![vec![0usize]], false);
    assert_eq!(tokens[0].word.tags.len(), 1);
    assert_eq!(tokens[0].word.tags[0].lemma, "go");
    assert_eq!(tokens[0].word.tags[0].pos, "VBZ");
}

#[test]
fn nop_leaves_tokens_unchanged() {
    let mut tokens = vec![one_word_token("walk", "walk", "VB")];
    let op = Disambiguation::Nop;
    op.apply(&mut tokens, &vec![vec![0usize]], false);
    assert_eq!(tokens[0].word.tags.len(), 1);
    assert_eq!(tokens[0].word.tags[0].lemma, "walk");
    assert_eq!(tokens[0].word.tags[0].pos, "VB");
}

#[test]
fn unify_keeps_jointly_feasible_tags() {
    // tokens A = {sg.m, pl.f}, B = {sg.m, pl.m}: only sg.m survives both
    let mut a = one_word_token("A", "a", "sg.m");
    a.word.tags.push(WordData::new(String::from("a"), String::from("pl.f")));
    let mut b = one_word_token("B", "b", "sg.m");
    b.word.tags.push(WordData::new(String::from("b"), String::from("pl.m")));
    let mut tokens = vec![a, b];
    let number = vec![
        POSFilter::regex(SerializeRegex::new("sg\\..").unwrap()),
        POSFilter::regex(SerializeRegex::new("pl\\..").unwrap()),
    ];
    let gender = vec![
        POSFilter::regex(SerializeRegex::new("...m").unwrap()),
        POSFilter::regex(SerializeRegex::new("...f").unwrap()),
    ];
    let op = Disambiguation::Unify(vec![number, gender], vec![None, None], vec![true, true]);
    op.apply(&mut tokens, &vec![vec![0usize], vec![1usize]], false);
    assert_eq!(tokens[0].word.tags.len(), 1);
    assert_eq!(tokens[0].word.tags[0].pos, "sg.m");
    assert_eq!(tokens[1].word.tags.len(), 1);
    assert_eq!(tokens[1].word.tags[0].pos, "sg.m");
}

#[test]
fn unify_with_no_feasible_combination_changes_nothing() {
    let mut tokens = vec![one_word_token("A", "a", "xx")];
    let axes = vec![vec![POSFilter::string(String::from("sg"))]];
    let op = Disambiguation::Unify(axes, vec![None], vec![true]);
    op.apply(&mut tokens, &vec![vec![0usize]], false);
    assert_eq!(tokens[0].word.tags.len(), 1);
    assert_eq!(tokens[0].word.tags[0].pos, "xx");
}

#[test]
fn tag_set_equality_ignores_order() {
    let a = vec![
        WordData::new(String::from("x"), String::from("NN")),
        WordData::new(String::from("y"), String::from("VB")),
    ];
    let b = vec![
        WordData::new(String::from("y"), String::from("VB")),
        WordData::new(String::from("x"), String::from("NN")),
    ];
    assert!(tags_set_eq(&a, &b));
    let c = vec![WordData::new(String::from("x"), String::from("NN"))];
    assert!(!tags_set_eq(&a, &c));
}

#[test]
fn conversions_change_case() {
    assert_eq!(Conversion::AllUpper.convert("abc"), "ABC");
    assert_eq!(Conversion::AllLower.convert("AbC"), "abc");
    assert_eq!(Conversion::StartUpper.convert("abc"), "Abc");
    assert_eq!(Conversion::StartLower.convert("ABC"), "aBC");
    assert_eq!(Conversion::Nop.convert("aBc"), "aBc");
}

#[test]
fn anti_pattern_blocks_overlapping_match() {
    let tok = plain_tokenizer();
    let engine = TokenEngine::new(
        Composition::new(vec![exact_part("bank")]),
        vec![Composition::new(vec![exact_part("river"), exact_part("bank")])],
    );
    let blocked = finalize(&tok.tokenize("river bank"));
    assert!(engine.get_match(&blocked, 2).is_none());
    let free = finalize(&tok.tokenize("piggy bank"));
    assert!(engine.get_match(&free, 2).is_some());
}

#[test]
fn token_engine_matches_are_character_disjoint() {
    let tok = plain_tokenizer();
    let tokens = finalize(&tok.tokenize("a a a"));
    let engine = Engine::Token(TokenEngine::new(
        Composition::new(vec![exact_part("a")]),
        Vec::new(),
    ));
    let graphs = engine.get_matches(&tokens, None, 1, 2);
    assert_eq!(graphs.len(), 3);
}
