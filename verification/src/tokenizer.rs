use vstd::prelude::*;
use crate::tagger::{Tagger, TokenizerOptions, get_tags_spec};
use crate::text::{chars_of, is_whitespace, is_ws, sub_chars, utf8_len, utf8_seq_len};
use crate::outside::string_of;
use crate::word::{
    IncompleteToken, Token, TokenV, Word, WordData, WordDataV, itokens_view, tokens_view,
};

verus! {

/// What each token of a tokenized sentence satisfies: it carries the whole
/// sentence text, its character span lies inside it and holds its surface
/// text, its byte span is the span's UTF-8 image, and its tags are the
/// dictionary's row for its surface text.
pub open spec fn token_from_text(t: TokenV, text: Seq<char>, tagger: &Tagger, add_lower: bool) -> bool {
    &&& t.text == text
    &&& t.char_span.0 <= t.char_span.1 <= text.len()
    &&& t.word.text == text.subrange(t.char_span.0 as int, t.char_span.1 as int)
    &&& t.word.tags == get_tags_spec(tagger, t.word.text, add_lower)
    &&& t.byte_span.0 == utf8_seq_len(text.take(t.char_span.0 as int)) as usize
    &&& t.byte_span.1 == utf8_seq_len(text.take(t.char_span.1 as int)) as usize
}

/// Where the whitespace-free run starting at `i` ends.
pub open spec fn run_end(cs: Seq<char>, i: int) -> int
    decreases cs.len() - i, 0int when 0 <= i <= cs.len()
{
    if i >= cs.len() || is_ws(cs[i]) {
        i
    } else {
        run_end(cs, i + 1)
    }
}

/// A run end stays within the text and after its start.
pub proof fn lemma_run_end_bounds(cs: Seq<char>, i: int)
    requires
        0 <= i <= cs.len(),
    ensures
        i <= run_end(cs, i) <= cs.len(),
    decreases cs.len() - i,
{
    if !(i >= cs.len() || is_ws(cs[i])) {
        lemma_run_end_bounds(cs, i + 1);
    }
}

/// The character spans of the maximal whitespace-free runs from `i` on.
pub open spec fn tokenize_spans(cs: Seq<char>, i: int) -> Seq<(int, int)>
    decreases cs.len() - i, 1int when 0 <= i <= cs.len() via tokenize_spans_dec
{
    if i >= cs.len() {
        Seq::empty()
    } else if is_ws(cs[i]) {
        tokenize_spans(cs, i + 1)
    } else {
        seq![(i, run_end(cs, i))] + tokenize_spans(cs, run_end(cs, i))
    }
}

#[via_fn]
proof fn tokenize_spans_dec(cs: Seq<char>, i: int) {
    if 0 <= i < cs.len() && !is_ws(cs[i]) {
        lemma_run_end_bounds(cs, i + 1);
    }
}

/// The token one span yields.
pub open spec fn token_at_span(
    text: Seq<char>,
    sp: (int, int),
    tagger: &Tagger,
    add_lower: bool,
) -> TokenV {
    TokenV {
        text: text,
        word: crate::word::WordV {
            text: text.subrange(sp.0, sp.1),
            tags: get_tags_spec(tagger, text.subrange(sp.0, sp.1), add_lower),
        },
        char_span: (sp.0 as usize, sp.1 as usize),
        byte_span: (
            utf8_seq_len(text.take(sp.0)) as usize,
            utf8_seq_len(text.take(sp.1)) as usize,
        ),
    }
}

/// What tokenization yields: one token per whitespace-free run.
pub open spec fn tokenize_spec(text: Seq<char>, tagger: &Tagger, add_lower: bool) -> Seq<TokenV> {
    tokenize_spans(text, 0).map_values(|sp: (int, int)| token_at_span(text, sp, tagger, add_lower))
}

/// The synthetic sentence-start token finalization prepends.
pub open spec fn sent_start_spec(text: Seq<char>) -> TokenV {
    TokenV {
        text: text,
        word: sent_start_word(),
        char_span: (0, 0),
        byte_span: (0, 0),
    }
}

/// The sentence-start word: empty text, one synthetic tag.
pub open spec fn sent_start_word() -> crate::word::WordV {
    crate::word::WordV {
        text: Seq::empty(),
        tags: seq![WordDataV { lemma: Seq::empty(), pos: "SENT_START"@ }],
    }
}

/// The tokenizer collaborator: a dictionary, options, and the ordered
/// disambiguation rules it runs before correction rules see the tokens.
pub struct Tokenizer {
    pub tagger: Tagger,
    pub options: TokenizerOptions,
    pub rules: Vec<crate::rule::DisambiguationRule>,
}

impl Tokenizer {
    pub fn new(
        tagger: Tagger,
        options: TokenizerOptions,
        rules: Vec<crate::rule::DisambiguationRule>,
    ) -> (r: Tokenizer)
        ensures
            r.tagger == tagger,
            r.options == options,
            r.rules@ == rules@,
    {
        Tokenizer { tagger, options, rules }
    }

    pub fn tagger(&self) -> (r: &Tagger)
        ensures
            r == &self.tagger,
    {
        &self.tagger
    }

    pub fn options(&self) -> (r: &TokenizerOptions)
        ensures
            r == &self.options,
    {
        &self.options
    }

    /// Split the sentence on whitespace into tokens with character and byte
    /// spans and dictionary tags.
    pub fn tokenize(&self, text: &str) -> (r: Vec<IncompleteToken>)
        ensures
            itokens_view(r@) == tokenize_spec(
                text@,
                &self.tagger,
                self.options.always_add_lower_tags,
            ),
            forall|k: int|
                0 <= k < r@.len() ==> token_from_text(
                    #[trigger] itokens_view(r@)[k],
                    text@,
                    &self.tagger,
                    self.options.always_add_lower_tags,
                ),
    {
        let ghost add_lower = self.options.always_add_lower_tags;
        let cs = chars_of(text);
        let full = String::from_str(text);
        let mut out: Vec<IncompleteToken> = Vec::new();
        let mut i: usize = 0;
        let mut byte: u128 = 0;
        proof {
            assert(cs@.take(0) =~= Seq::<char>::empty());
            crate::engine::lemma_utf8_seq_len_bound(cs@.take(0));
            assert(Seq::<TokenV>::empty() + tokenize_spans(cs@, 0).map_values(
                |sp: (int, int)| token_at_span(text@, sp, &self.tagger, add_lower),
            ) =~= tokenize_spans(cs@, 0).map_values(
                |sp: (int, int)| token_at_span(text@, sp, &self.tagger, add_lower),
            ));
        }
        while i < cs.len()
            invariant
                i <= cs@.len(),
                cs@ == text@,
                full@ == text@,
                add_lower == self.options.always_add_lower_tags,
                byte == utf8_seq_len(cs@.take(i as int)) as u128,
                utf8_seq_len(cs@.take(i as int)) <= 4 * i,
                tokenize_spec(text@, &self.tagger, add_lower) == itokens_view(out@)
                    + tokenize_spans(cs@, i as int).map_values(
                    |sp: (int, int)| token_at_span(text@, sp, &self.tagger, add_lower),
                ),
                forall|k: int|
                    0 <= k < out@.len() ==> token_from_text(
                        #[trigger] itokens_view(out@)[k],
                        text@,
                        &self.tagger,
                        self.options.always_add_lower_tags,
                    ),
            decreases cs@.len() - i,
        {
            if is_whitespace(cs[i]) {
                proof {
                    assert(cs@.take(i + 1 as int) =~= cs@.take(i as int).push(cs@[i as int]));
                    crate::engine::lemma_utf8_seq_len_push(cs@.take(i as int), cs@[i as int]);
                }
                byte = byte + (utf8_len(cs[i]) as u128);
                i += 1;
            } else {
                let a = i;
                let byte_a = byte;
                while i < cs.len() && !is_whitespace(cs[i])
                    invariant
                        a <= i <= cs@.len(),
                        cs@ == text@,
                        byte == utf8_seq_len(cs@.take(i as int)) as u128,
                        utf8_seq_len(cs@.take(i as int)) <= 4 * i,
                        byte_a == utf8_seq_len(cs@.take(a as int)) as u128,
                        run_end(cs@, a as int) == run_end(cs@, i as int),
                    decreases cs@.len() - i,
                {
                    proof {
                        assert(cs@.take(i + 1 as int) =~= cs@.take(i as int).push(cs@[i as int]));
                        crate::engine::lemma_utf8_seq_len_push(cs@.take(i as int), cs@[i as int]);
                    }
                    byte = byte + (utf8_len(cs[i]) as u128);
                    i += 1;
                }
                let b = i;
                proof {
                    assert(run_end(cs@, b as int) == b);
                    assert(run_end(cs@, a as int) == b);
                }
                let word_chars = sub_chars(&cs, a, b);
                let word_text = string_of(&word_chars);
                let tags = self.tagger.get_tags(
                    word_text.as_str(),
                    self.options.always_add_lower_tags,
                    self.options.use_compound_split_heuristic,
                );
                let ghost prev = out@;
                let tok = IncompleteToken {
                    text: full.clone(),
                    word: Word { text: word_text, tags },
                    char_span: (a, b),
                    byte_span: (
                        #[verifier::truncate]
                        (byte_a as usize),
                        #[verifier::truncate]
                        (byte as usize),
                    ),
                };
                let ghost tokv = tok@;
                out.push(tok);
                proof {
                    assert(tokv.word.text =~= text@.subrange(a as int, b as int));
                    assert(token_from_text(
                        tokv,
                        text@,
                        &self.tagger,
                        self.options.always_add_lower_tags,
                    ));
                    assert forall|k: int| 0 <= k < out@.len() implies token_from_text(
                        #[trigger] itokens_view(out@)[k],
                        text@,
                        &self.tagger,
                        self.options.always_add_lower_tags,
                    ) by {
                        if k < prev.len() {
                            assert(out@[k] == prev[k]);
                            assert(itokens_view(prev)[k] == prev[k]@);
                        } else {
                            assert(out@[k] == out@.last());
                        }
                    }
                    assert(itokens_view(out@) =~= itokens_view(prev).push(tokv));
                    assert(tokv =~= token_at_span(
                        text@,
                        (a as int, b as int),
                        &self.tagger,
                        add_lower,
                    ));
                    assert(tokenize_spans(cs@, a as int) == seq![(a as int, b as int)]
                        + tokenize_spans(cs@, b as int));
                    assert(itokens_view(prev) + (seq![(a as int, b as int)] + tokenize_spans(
                        cs@,
                        b as int,
                    )).map_values(
                        |sp: (int, int)| token_at_span(text@, sp, &self.tagger, add_lower),
                    ) =~= itokens_view(out@) + tokenize_spans(cs@, b as int).map_values(
                        |sp: (int, int)| token_at_span(text@, sp, &self.tagger, add_lower),
                    ));
                }
            }
        }
        proof {
            assert(tokenize_spans(cs@, cs@.len() as int) =~= Seq::<(int, int)>::empty());
            assert(itokens_view(out@) + Seq::<(int, int)>::empty().map_values(
                |sp: (int, int)| token_at_span(text@, sp, &self.tagger, add_lower),
            ) =~= itokens_view(out@));
        }
        out
    }
}

/// What finalization yields: the sentence-start token, then each token
/// frozen unchanged.
pub open spec fn finalize_spec(tokens: Seq<TokenV>, text: Seq<char>) -> Seq<TokenV> {
    seq![sent_start_spec(text)] + tokens
}

/// Freeze the tokens, prepending the synthetic sentence-start token that
/// carries the sentence text of the first token (empty when there is none).
pub fn finalize(tokens: &Vec<IncompleteToken>) -> (r: Vec<Token>)
    ensures
        tokens_view(r@) == finalize_spec(
            itokens_view(tokens@),
            if tokens@.len() > 0 {
                tokens@[0].text@
            } else {
                Seq::empty()
            },
        ),
{
    let text: String = if tokens.len() > 0 {
        tokens[0].text.clone()
    } else {
        String::new()
    };
    let mut tags: Vec<WordData> = Vec::new();
    tags.push(WordData { lemma: String::new(), pos: String::from_str("SENT_START") });
    let start = Token {
        text,
        word: Word { text: String::new(), tags },
        char_span: (0, 0),
        byte_span: (0, 0),
    };
    let mut r: Vec<Token> = Vec::new();
    let ghost startv = start@;
    proof {
        assert(startv.word.tags =~= sent_start_word().tags);
        assert(startv.word =~= sent_start_word());
    }
    r.push(start);
    let mut i: usize = 0;
    while i < tokens.len()
        invariant
            i <= tokens@.len(),
            r@.len() == i + 1,
            tokens_view(r@)[0] == startv,
            startv == sent_start_spec(
                if tokens@.len() > 0 {
                    tokens@[0].text@
                } else {
                    Seq::empty()
                },
            ),
            forall|k: int| 0 <= k < i ==> tokens_view(r@)[k + 1] == itokens_view(tokens@)[k],
        decreases tokens@.len() - i,
    {
        let ghost prev = r@;
        let t = tokens[i].freeze();
        r.push(t);
        proof {
            assert forall|k: int| 0 <= k < i + 1 implies tokens_view(r@)[k + 1] == itokens_view(
                tokens@,
            )[k] by {
                if k < i {
                    assert(r@[k + 1] == prev[k + 1]);
                    assert(tokens_view(prev)[k + 1] == prev[k + 1]@);
                } else {
                    assert(r@[k + 1] == r@.last());
                    assert(itokens_view(tokens@)[k] == tokens@[k]@);
                }
            }
            assert(tokens_view(r@)[0] == r@[0]@);
            assert(r@[0] == prev[0]);
            assert(tokens_view(prev)[0] == prev[0]@);
        }
        i += 1;
    }
    proof {
        assert(tokens_view(r@) =~= finalize_spec(
            itokens_view(tokens@),
            if tokens@.len() > 0 {
                tokens@[0].text@
            } else {
                Seq::empty()
            },
        ));
    }
    r
}

} // verus!
