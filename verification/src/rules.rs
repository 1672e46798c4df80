use vstd::prelude::*;
use crate::engine::Engine;
use crate::outside::string_of;
use crate::rule::{Rule, Suggestion, SuggestionV, rule_apply_spec, suggestions_view};
use crate::text::{chars_of, push_range};
use crate::tokenizer::Tokenizer;
use crate::word::{Token, TokenV, tokens_view};

verus! {

/// How a rule set is filtered when it is built: explicit inclusion ids
/// (empty accepts all) and exclusion ids.
pub struct RulesOptions {
    pub allow_errors: bool,
    pub ids: Vec<String>,
    pub ignore_ids: Vec<String>,
}

/// Whether a list of ids holds this id.
pub open spec fn ids_contain(ids: Seq<String>, id: Seq<char>) -> bool {
    exists|k: int| 0 <= k < ids.len() && (#[trigger] ids[k])@ == id
}

/// Whether the options select a rule id: the inclusion list is empty or
/// holds it, and the exclusion list does not.
pub open spec fn rule_selected(opts: &RulesOptions, id: Seq<char>) -> bool {
    (opts.ids@.len() == 0 || ids_contain(opts.ids@, id)) && !ids_contain(opts.ignore_ids@, id)
}

/// Whether a list of ids holds this id.
fn ids_contain_exec(ids: &Vec<String>, id: &String) -> (r: bool)
    ensures
        r == ids_contain(ids@, id@),
{
    let mut k: usize = 0;
    while k < ids.len()
        invariant
            k <= ids@.len(),
            forall|p: int| 0 <= p < k ==> (#[trigger] ids@[p])@ != id@,
        decreases ids@.len() - k,
    {
        if ids[k] == *id {
            proof {
                assert(ids@[k as int]@ == id@);
            }
            return true;
        }
        k += 1;
    }
    proof {
        if ids_contain(ids@, id@) {
            let p = choose|p: int| 0 <= p < ids@.len() && (#[trigger] ids@[p])@ == id@;
        }
    }
    false
}

impl RulesOptions {
    /// The default options: errors allowed, every rule accepted.
    pub fn new_default() -> (r: RulesOptions)
        ensures
            r.allow_errors == true,
            r.ids@.len() == 0,
            r.ignore_ids@.len() == 0,
    {
        RulesOptions { allow_errors: true, ids: Vec::new(), ignore_ids: Vec::new() }
    }
}

/// The per-word skip bits: for each known word, one bit per rule saying the
/// rule can never match a token with that surface text.
pub struct Cache {
    pub words: Vec<String>,
    pub masks: Vec<Vec<bool>>,
}

/// The bits stored for a word, if any: the first entry with that word wins,
/// so a duplicated word reads as its first entry.
pub open spec fn cache_lookup(words: Seq<String>, masks: Seq<Vec<bool>>, w: Seq<char>) -> Option<
    Seq<bool>,
>
    decreases words.len(),
{
    if words.len() == 0 || masks.len() == 0 {
        None
    } else if words[0]@ == w {
        Some(masks[0]@)
    } else {
        cache_lookup(words.skip(1), masks.skip(1), w)
    }
}

/// The bit the skip mask takes for one token: the word's stored bit for
/// this rule, `false` for an unknown word (or a missing bit).
pub open spec fn skip_bit(c: &Cache, w: Seq<char>, i: usize) -> bool {
    match cache_lookup(c.words@, c.masks@, w) {
        Some(m) => if i < m.len() {
            m[i as int]
        } else {
            false
        },
        None => false,
    }
}

impl Cache {
    /// A cache with nothing stored.
    pub fn new() -> (r: Cache)
        ensures
            r.words@.len() == 0,
            r.masks@.len() == 0,
    {
        Cache { words: Vec::new(), masks: Vec::new() }
    }

    /// The bits stored for a word, if any.
    fn lookup(&self, w: &str) -> (r: Option<Vec<bool>>)
        ensures
            match cache_lookup(self.words@, self.masks@, w@) {
                Some(m) => r is Some && r->0@ == m,
                None => r is None,
            },
    {
        let ghost ws = self.words@;
        let ghost ms = self.masks@;
        let mut k: usize = 0;
        proof {
            assert(ws.skip(0) =~= ws);
            assert(ms.skip(0) =~= ms);
        }
        while k < self.words.len() && k < self.masks.len()
            invariant
                k <= ws.len(),
                k <= ms.len(),
                ws == self.words@,
                ms == self.masks@,
                cache_lookup(ws.skip(k as int), ms.skip(k as int), w@) == cache_lookup(ws, ms, w@),
            decreases ws.len() - k,
        {
            proof {
                assert(ws.skip(k as int)[0] == ws[k as int]);
                assert(ms.skip(k as int)[0] == ms[k as int]);
                assert(ws.skip(k as int).skip(1) =~= ws.skip(k + 1 as int));
                assert(ms.skip(k as int).skip(1) =~= ms.skip(k + 1 as int));
            }
            let t = String::from_str(w);
            if t == self.words[k] {
                let mut out: Vec<bool> = Vec::new();
                let src = &self.masks[k];
                let mut q: usize = 0;
                while q < src.len()
                    invariant
                        q <= src@.len(),
                        out@ == src@.subrange(0, q as int),
                    decreases src@.len() - q,
                {
                    out.push(src[q]);
                    proof {
                        assert(out@ =~= src@.subrange(0, q + 1 as int));
                    }
                    q += 1;
                }
                proof {
                    assert(src@.subrange(0, src@.len() as int) =~= src@);
                }
                return Some(out);
            }
            k += 1;
        }
        proof {
            if k >= ws.len() {
                assert(ws.skip(ws.len() as int) =~= Seq::<String>::empty());
                assert(cache_lookup(ws.skip(k as int), ms.skip(k as int), w@) is None);
            } else {
                assert(ms.skip(ms.len() as int) =~= Seq::<Vec<bool>>::empty());
                assert(cache_lookup(ws.skip(k as int), ms.skip(k as int), w@) is None);
            }
        }
        None
    }

    /// The skip mask of rule `i` over these tokens: one bit per token,
    /// looked up by surface text.
    pub fn get_skip_mask(&self, tokens: &Vec<Token>, i: usize) -> (r: Vec<bool>)
        ensures
            r@.len() == tokens@.len(),
            forall|k: int|
                0 <= k < tokens@.len() ==> r@[k] == skip_bit(
                    self,
                    (#[trigger] tokens_view(tokens@)[k]).word.text,
                    i,
                ),
    {
        let mut r: Vec<bool> = Vec::new();
        let mut k: usize = 0;
        while k < tokens.len()
            invariant
                k <= tokens@.len(),
                r@.len() == k,
                forall|p: int|
                    0 <= p < k ==> r@[p] == skip_bit(
                        self,
                        (#[trigger] tokens_view(tokens@)[p]).word.text,
                        i,
                    ),
            decreases tokens@.len() - k,
        {
            proof {
                assert(tokens_view(tokens@)[k as int] == tokens@[k as int]@);
            }
            let bit: bool = match self.lookup(tokens[k].word.text.as_str()) {
                Some(m) => if i < m.len() {
                    m[i]
                } else {
                    false
                },
                None => false,
            };
            r.push(bit);
            k += 1;
        }
        r
    }

    /// Append the bits of one pass over the engines: for each given word,
    /// one bit per engine, in engine order, appended to whatever bits the
    /// word already has (a word not yet stored gains a fresh entry);
    /// entries of words outside the given list are untouched. A text
    /// engine can never be ruled out.
    pub fn populate(&mut self, common_words: &Vec<String>, engines: &Vec<&Engine>)
        requires
            old(self).words@.len() == old(self).masks@.len(),
            forall|p: int, q: int|
                0 <= p < q < common_words@.len() ==> (#[trigger] common_words@[p])@ != (
                #[trigger] common_words@[q])@,
        ensures
            final(self).words@.len() == final(self).masks@.len(),
            forall|w: Seq<char>|
                ids_contain(common_words@, w) ==> #[trigger] cache_lookup(
                    final(self).words@,
                    final(self).masks@,
                    w,
                ) == Some(
                    lookup_or_empty(old(self).words@, old(self).masks@, w) + engine_bits(
                        engines@,
                        w,
                    ),
                ),
            forall|w: Seq<char>|
                !ids_contain(common_words@, w) ==> #[trigger] cache_lookup(
                    final(self).words@,
                    final(self).masks@,
                    w,
                ) == cache_lookup(old(self).words@, old(self).masks@, w),
    {
        let mut wi: usize = 0;
        while wi < common_words.len()
            invariant
                wi <= common_words@.len(),
                self.words@.len() == self.masks@.len(),
                forall|p: int, q: int|
                    0 <= p < q < common_words@.len() ==> (#[trigger] common_words@[p])@ != (
                    #[trigger] common_words@[q])@,
                forall|w: Seq<char>|
                    words_prefix_contain(common_words@, wi as int, w) ==> #[trigger] cache_lookup(
                        self.words@,
                        self.masks@,
                        w,
                    ) == Some(
                        lookup_or_empty(old(self).words@, old(self).masks@, w) + engine_bits(
                            engines@,
                            w,
                        ),
                    ),
                forall|w: Seq<char>|
                    !words_prefix_contain(common_words@, wi as int, w) ==> #[trigger] cache_lookup(
                        self.words@,
                        self.masks@,
                        w,
                    ) == cache_lookup(old(self).words@, old(self).masks@, w),
            decreases common_words@.len() - wi,
        {
            let word = &common_words[wi];
            // the bits this pass appends for the word, in engine order
            let mut bits: Vec<bool> = Vec::new();
            let mut e: usize = 0;
            while e < engines.len()
                invariant
                    e <= engines@.len(),
                    wi < common_words@.len(),
                    word == &common_words@[wi as int],
                    bits@ == engine_bits(engines@, common_words@[wi as int]@).subrange(
                        0,
                        e as int,
                    ),
                decreases engines@.len() - e,
            {
                let bit: bool = match engines[e] {
                    Engine::Token(te) => te.composition.can_not_match(word.as_str()),
                    Engine::Text(_, _) => false,
                };
                bits.push(bit);
                proof {
                    assert(bits@ =~= engine_bits(engines@, common_words@[wi as int]@).subrange(
                        0,
                        e + 1 as int,
                    ));
                }
                e += 1;
            }
            proof {
                assert(engine_bits(engines@, common_words@[wi as int]@).subrange(
                    0,
                    engines@.len() as int,
                ) =~= engine_bits(engines@, common_words@[wi as int]@));
            }
            let ghost pre_words = self.words@;
            let ghost pre_masks = self.masks@;
            let ghost wv = common_words@[wi as int]@;
            proof {
                if words_prefix_contain(common_words@, wi as int, wv) {
                    let k = choose|k: int|
                        0 <= k < wi && k < common_words@.len() && (#[trigger] common_words@[k])@
                            == wv;
                    assert(common_words@[k]@ != common_words@[wi as int]@);
                    assert(false);
                }
            }
            match self.find_word(word) {
                Some(idx) => {
                    // extend the word's stored bits, in place
                    let mut row: Vec<bool> = Vec::new();
                    let src = &self.masks[idx];
                    let mut q: usize = 0;
                    while q < src.len()
                        invariant
                            q <= src@.len(),
                            row@ == src@.subrange(0, q as int),
                        decreases src@.len() - q,
                    {
                        row.push(src[q]);
                        proof {
                            assert(row@ =~= src@.subrange(0, q + 1 as int));
                        }
                        q += 1;
                    }
                    proof {
                        assert(src@.subrange(0, src@.len() as int) =~= src@);
                    }
                    let mut b2: usize = 0;
                    while b2 < bits.len()
                        invariant
                            b2 <= bits@.len(),
                            idx < pre_masks.len(),
                            row@ == pre_masks[idx as int]@ + bits@.subrange(0, b2 as int),
                        decreases bits@.len() - b2,
                    {
                        row.push(bits[b2]);
                        proof {
                            assert(row@ =~= pre_masks[idx as int]@ + bits@.subrange(
                                0,
                                b2 + 1 as int,
                            ));
                        }
                        b2 += 1;
                    }
                    proof {
                        assert(bits@.subrange(0, bits@.len() as int) =~= bits@);
                        assert(row@ == pre_masks[idx as int]@ + bits@);
                    }
                    let ghost rowv = row@;
                    self.masks.set(idx, row);
                    proof {
                        assert(self.masks@ =~= pre_masks.update(
                            idx as int,
                            self.masks@[idx as int],
                        ));
                        assert(self.masks@[idx as int]@ == rowv);
                        assert forall|w: Seq<char>| true implies #[trigger] cache_lookup(
                            self.words@,
                            self.masks@,
                            w,
                        ) == (if pre_words[idx as int]@ == w {
                            Some(rowv)
                        } else {
                            cache_lookup(pre_words, pre_masks, w)
                        }) by {
                            lemma_lookup_update(
                                pre_words,
                                pre_masks,
                                idx as int,
                                self.masks@[idx as int],
                                w,
                            );
                        }
                        assert(cache_lookup(pre_words, pre_masks, wv) == Some(
                            pre_masks[idx as int]@,
                        ));
                        assert(cache_lookup(pre_words, pre_masks, wv) == cache_lookup(
                            old(self).words@,
                            old(self).masks@,
                            wv,
                        ));
                        assert(lookup_or_empty(old(self).words@, old(self).masks@, wv)
                            == pre_masks[idx as int]@);
                    }
                },
                None => {
                    self.words.push(word.clone());
                    self.masks.push(bits);
                    proof {
                        let w0 = self.words@.last();
                        let row0 = self.masks@.last();
                        assert(self.words@ =~= pre_words.push(w0));
                        assert(self.masks@ =~= pre_masks.push(row0));
                        assert(w0@ == wv);
                        assert forall|w: Seq<char>| true implies #[trigger] cache_lookup(
                            self.words@,
                            self.masks@,
                            w,
                        ) == (match cache_lookup(pre_words, pre_masks, w) {
                            Some(m) => Some(m),
                            None => if wv == w {
                                Some(row0@)
                            } else {
                                None
                            },
                        }) by {
                            lemma_lookup_push(pre_words, pre_masks, w0, row0, w);
                        }
                        assert(cache_lookup(pre_words, pre_masks, wv) is None);
                        assert(cache_lookup(old(self).words@, old(self).masks@, wv) is None);
                        assert(lookup_or_empty(old(self).words@, old(self).masks@, wv)
                            + engine_bits(engines@, wv) =~= engine_bits(engines@, wv));
                    }
                },
            }
            proof {
                assert forall|w: Seq<char>|
                    words_prefix_contain(common_words@, wi + 1, w) implies #[trigger] cache_lookup(
                    self.words@,
                    self.masks@,
                    w,
                ) == Some(
                    lookup_or_empty(old(self).words@, old(self).masks@, w) + engine_bits(
                        engines@,
                        w,
                    ),
                ) by {
                    if w != wv {
                        assert(words_prefix_contain(common_words@, wi as int, w));
                        assert(cache_lookup(pre_words, pre_masks, w) == Some(
                            lookup_or_empty(old(self).words@, old(self).masks@, w) + engine_bits(
                                engines@,
                                w,
                            ),
                        ));
                    }
                }
                assert forall|w: Seq<char>|
                    !words_prefix_contain(common_words@, wi + 1, w) implies #[trigger] cache_lookup(
                    self.words@,
                    self.masks@,
                    w,
                ) == cache_lookup(old(self).words@, old(self).masks@, w) by {
                    assert(w != wv);
                    assert(!words_prefix_contain(common_words@, wi as int, w));
                }
            }
            wi += 1;
        }
        proof {
            assert forall|w: Seq<char>| ids_contain(common_words@, w) implies words_prefix_contain(
                common_words@,
                common_words@.len() as int,
                w,
            ) by {
            }
        }
    }

    /// The first entry of a word, if any: the entry the lookup reads.
    fn find_word(&self, w: &String) -> (r: Option<usize>)
        requires
            self.words@.len() == self.masks@.len(),
        ensures
            match r {
                Some(idx) => idx < self.words@.len() && self.words@[idx as int]@ == w@ && (
                forall|p: int| 0 <= p < idx ==> (#[trigger] self.words@[p])@ != w@) && cache_lookup(
                    self.words@,
                    self.masks@,
                    w@,
                ) == Some(self.masks@[idx as int]@),
                None => cache_lookup(self.words@, self.masks@, w@) is None,
            },
    {
        let ghost ws = self.words@;
        let ghost ms = self.masks@;
        let mut k: usize = 0;
        proof {
            assert(ws.skip(0) =~= ws);
            assert(ms.skip(0) =~= ms);
        }
        while k < self.words.len()
            invariant
                k <= ws.len(),
                ws.len() == ms.len(),
                ws == self.words@,
                ms == self.masks@,
                cache_lookup(ws.skip(k as int), ms.skip(k as int), w@) == cache_lookup(ws, ms, w@),
                forall|p: int| 0 <= p < k ==> (#[trigger] ws[p])@ != w@,
            decreases ws.len() - k,
        {
            proof {
                assert(ws.skip(k as int)[0] == ws[k as int]);
                assert(ms.skip(k as int)[0] == ms[k as int]);
                assert(ws.skip(k as int).skip(1) =~= ws.skip(k + 1 as int));
                assert(ms.skip(k as int).skip(1) =~= ms.skip(k + 1 as int));
            }
            let t = String::from_str(w.as_str());
            if t == self.words[k] {
                return Some(k);
            }
            k += 1;
        }
        proof {
            assert(ws.skip(ws.len() as int) =~= Seq::<String>::empty());
        }
        None
    }
}

/// Whether one of the first `n` words reads as this text.
pub open spec fn words_prefix_contain(words: Seq<String>, n: int, w: Seq<char>) -> bool {
    exists|k: int| 0 <= k < n && k < words.len() && (#[trigger] words[k])@ == w
}

/// The bits one pass over the engines appends for a word: the token
/// pattern's negative filter per engine, `false` for a text engine.
pub open spec fn engine_bits(engines: Seq<&Engine>, w: Seq<char>) -> Seq<bool> {
    Seq::new(
        engines.len(),
        |e: int|
            match engines[e] {
                Engine::Token(te) => crate::composition::can_not_match_spec(&te.composition, w),
                Engine::Text(_, _) => false,
            },
    )
}

/// The bits one pass over the rule set appends for a word, in rule order.
pub open spec fn rule_bits(rules: Seq<Rule>, w: Seq<char>) -> Seq<bool> {
    Seq::new(
        rules.len(),
        |e: int|
            match rules[e].engine {
                Engine::Token(te) => crate::composition::can_not_match_spec(&te.composition, w),
                Engine::Text(_, _) => false,
            },
    )
}

/// The stored bits of a word, empty when none are stored.
pub open spec fn lookup_or_empty(words: Seq<String>, masks: Seq<Vec<bool>>, w: Seq<char>) -> Seq<
    bool,
> {
    match cache_lookup(words, masks, w) {
        Some(m) => m,
        None => Seq::empty(),
    }
}

/// Appending a fresh entry changes only the lookup of a word not yet
/// stored.
proof fn lemma_lookup_push(
    words: Seq<String>,
    masks: Seq<Vec<bool>>,
    w0: String,
    row: Vec<bool>,
    w: Seq<char>,
)
    requires
        words.len() == masks.len(),
    ensures
        cache_lookup(words.push(w0), masks.push(row), w) == (match cache_lookup(words, masks, w) {
            Some(m) => Some(m),
            None => if w0@ == w {
                Some(row@)
            } else {
                None
            },
        }),
    decreases words.len(),
{
    if words.len() == 0 {
        assert(words.push(w0)[0] == w0);
        assert(masks.push(row)[0] == row);
        assert(words.push(w0).skip(1) =~= Seq::<String>::empty());
        assert(masks.push(row).skip(1) =~= Seq::<Vec<bool>>::empty());
        assert(cache_lookup(words, masks, w) is None);
        assert(cache_lookup(Seq::<String>::empty(), Seq::<Vec<bool>>::empty(), w) is None);
    } else {
        assert(words.push(w0)[0] == words[0]);
        assert(masks.push(row)[0] == masks[0]);
        assert(words.push(w0).skip(1) =~= words.skip(1).push(w0));
        assert(masks.push(row).skip(1) =~= masks.skip(1).push(row));
        lemma_lookup_push(words.skip(1), masks.skip(1), w0, row, w);
    }
}

/// Replacing the row at the first entry of a word changes only that word's
/// lookup.
proof fn lemma_lookup_update(
    words: Seq<String>,
    masks: Seq<Vec<bool>>,
    idx: int,
    row: Vec<bool>,
    w: Seq<char>,
)
    requires
        words.len() == masks.len(),
        0 <= idx < words.len(),
        forall|p: int| 0 <= p < idx ==> (#[trigger] words[p])@ != words[idx]@,
    ensures
        cache_lookup(words, masks.update(idx, row), w) == (if words[idx]@ == w {
            Some(row@)
        } else {
            cache_lookup(words, masks, w)
        }),
    decreases idx,
{
    if idx == 0 {
        assert(masks.update(0, row)[0] == row);
        assert(masks.update(0, row).skip(1) =~= masks.skip(1));
    } else {
        assert(masks.update(idx, row)[0] == masks[0]);
        assert(masks.update(idx, row).skip(1) =~= masks.skip(1).update(idx - 1, row));
        assert(words.skip(1)[idx - 1] == words[idx]);
        assert(forall|p: int|
            0 <= p < idx - 1 ==> (#[trigger] words.skip(1)[p])@ != words.skip(1)[idx - 1]@);
        lemma_lookup_update(words.skip(1), masks.skip(1), idx - 1, row, w);
        assert(words[0]@ != words[idx]@);
    }
}


/// Insert a suggestion after every earlier one with the same or a smaller
/// start: the stable insertion step.
pub open spec fn insert_sugg(x: SuggestionV, s: Seq<SuggestionV>) -> Seq<SuggestionV>
    decreases s.len(),
{
    if s.len() == 0 {
        seq![x]
    } else if s[0].start <= x.start {
        seq![s[0]] + insert_sugg(x, s.skip(1))
    } else {
        seq![x] + s
    }
}

/// The first `k` suggestions, stably sorted ascending by start.
pub open spec fn sort_sugg_pref(s: Seq<SuggestionV>, k: int) -> Seq<SuggestionV>
    decreases k,
{
    if k <= 0 {
        Seq::empty()
    } else {
        insert_sugg(s[k - 1], sort_sugg_pref(s, k - 1))
    }
}

/// The suggestions stably sorted ascending by start.
pub open spec fn sort_sugg(s: Seq<SuggestionV>) -> Seq<SuggestionV> {
    sort_sugg_pref(s, s.len() as int)
}

/// Walk the sorted suggestions and keep each whose character span is still
/// free, taking its characters.
pub open spec fn dedup_sugg_rec(s: Seq<SuggestionV>, mask: Seq<bool>) -> Seq<SuggestionV>
    decreases s.len(),
{
    if s.len() == 0 {
        Seq::empty()
    } else {
        let st = s[0].start as int;
        let en = s[0].end as int;
        if st <= en <= mask.len() && crate::engine::all_false(mask, st, en) {
            seq![s[0]] + dedup_sugg_rec(s.skip(1), crate::engine::set_range(mask, st, en))
        } else {
            dedup_sugg_rec(s.skip(1), mask)
        }
    }
}

/// The suggestions of every enabled rule, in rule order.
pub open spec fn all_rule_suggestions(
    rules: Seq<Rule>,
    i: int,
    cache: &Cache,
    tokensv: Seq<TokenV>,
    tagger: &crate::tagger::Tagger,
    add_lower: bool,
) -> Seq<SuggestionV>
    decreases rules.len() - i,
{
    if i < 0 || i >= rules.len() {
        Seq::empty()
    } else {
        let rest = all_rule_suggestions(rules, i + 1, cache, tokensv, tagger, add_lower);
        if rules[i].on {
            rule_apply_spec(
                &rules[i],
                tokensv,
                Some(
                    Seq::new(
                        tokensv.len(),
                        |k: int| skip_bit(cache, tokensv[k].word.text, i as usize),
                    ),
                ),
                tagger,
                add_lower,
            ) + rest
        } else {
            rest
        }
    }
}

/// What the rule set yields: every enabled rule's suggestions, sorted
/// ascending by start, overlapping spans dropped first-come-first-kept.
pub open spec fn rules_apply_spec(
    rules: Seq<Rule>,
    cache: &Cache,
    tokensv: Seq<TokenV>,
    tagger: &crate::tagger::Tagger,
    add_lower: bool,
) -> Seq<SuggestionV> {
    if tokensv.len() == 0 {
        Seq::empty()
    } else {
        dedup_sugg_rec(
            sort_sugg(all_rule_suggestions(rules, 0, cache, tokensv, tagger, add_lower)),
            crate::engine::empty_mask(tokensv[0].text.len()),
        )
    }
}

/// An ordered collection of correction rules with its skip-bit cache.
pub struct Rules {
    pub rules: Vec<Rule>,
    pub cache: Cache,
}

/// Every rule's group window is sound.
pub open spec fn rules_wf(rules: Seq<Rule>) -> bool {
    forall|k: int| 0 <= k < rules.len() ==> (#[trigger] rules[k]).end > 0
}

/// Splitting an insertion at the first later start.
proof fn lemma_insert_sugg_at(s: Seq<SuggestionV>, x: SuggestionV, pos: int)
    requires
        0 <= pos <= s.len(),
        forall|k: int| 0 <= k < pos ==> (#[trigger] s[k]).start <= x.start,
        pos < s.len() ==> s[pos].start > x.start,
    ensures
        insert_sugg(x, s) == s.subrange(0, pos) + seq![x] + s.subrange(pos, s.len() as int),
    decreases pos,
{
    if pos == 0 {
        assert(insert_sugg(x, s) =~= s.subrange(0, 0) + seq![x] + s.subrange(0, s.len() as int));
    } else {
        assert(s[0].start <= x.start);
        assert(forall|k: int| 0 <= k < pos - 1 ==> (#[trigger] s.skip(1)[k]).start <= x.start);
        if pos - 1 < s.skip(1).len() {
            assert(s.skip(1)[pos - 1] == s[pos]);
        }
        lemma_insert_sugg_at(s.skip(1), x, pos - 1);
        assert(seq![s[0]] + (s.skip(1).subrange(0, pos - 1) + seq![x] + s.skip(1).subrange(
            pos - 1,
            s.skip(1).len() as int,
        )) =~= s.subrange(0, pos) + seq![x] + s.subrange(pos, s.len() as int));
    }
}

/// Inserting keeps sortedness by start.
proof fn lemma_insert_sugg_sorted(s: Seq<SuggestionV>, x: SuggestionV)
    requires
        forall|p: int, q: int| 0 <= p < q < s.len() ==> (#[trigger] s[p]).start <= (#[trigger] s[q]).start,
    ensures
        forall|p: int, q: int|
            0 <= p < q < insert_sugg(x, s).len() ==> (#[trigger] insert_sugg(x, s)[p]).start <= (
            #[trigger] insert_sugg(x, s)[q]).start,
    decreases s.len(),
{
    if s.len() == 0 {
    } else if s[0].start <= x.start {
        assert(forall|p: int, q: int|
            0 <= p < q < s.skip(1).len() ==> (#[trigger] s.skip(1)[p]).start <= (#[trigger] s.skip(
                1,
            )[q]).start);
        lemma_insert_sugg_sorted(s.skip(1), x);
        let r = insert_sugg(x, s);
        let r2 = insert_sugg(x, s.skip(1));
        assert(r =~= seq![s[0]] + r2);
        assert forall|p: int, q: int| 0 <= p < q < r.len() implies (#[trigger] r[p]).start <= (
        #[trigger] r[q]).start by {
            if p == 0 {
                // the head start is at most every start of the inserted tail
                if q >= 1 {
                    assert(r[q] == r2[q - 1]);
                    lemma_insert_sugg_members(s.skip(1), x, q - 1);
                }
            } else {
                assert(r[p] == r2[p - 1]);
                assert(r[q] == r2[q - 1]);
            }
        }
    } else {
    }
}

/// Every member of an insertion is the inserted value or an original.
proof fn lemma_insert_sugg_members(s: Seq<SuggestionV>, x: SuggestionV, k: int)
    requires
        0 <= k < insert_sugg(x, s).len(),
    ensures
        insert_sugg(x, s)[k] == x || exists|p: int|
            0 <= p < s.len() && (#[trigger] s[p]) == insert_sugg(x, s)[k],
    decreases s.len(),
{
    if s.len() == 0 {
    } else if s[0].start <= x.start {
        if k == 0 {
            assert(s[0] == insert_sugg(x, s)[0]);
        } else {
            lemma_insert_sugg_members(s.skip(1), x, k - 1);
            assert(insert_sugg(x, s)[k] == insert_sugg(x, s.skip(1))[k - 1]);
            if insert_sugg(x, s.skip(1))[k - 1] != x {
                let p = choose|p: int|
                    0 <= p < s.skip(1).len() && (#[trigger] s.skip(1)[p]) == insert_sugg(
                        x,
                        s.skip(1),
                    )[k - 1];
                assert(s[p + 1] == insert_sugg(x, s)[k]);
            }
        }
    } else {
        if k == 0 {
        } else {
            assert(s[k - 1] == insert_sugg(x, s)[k]);
        }
    }
}

/// The stable sort is sorted ascending by start.
proof fn lemma_sort_sugg_sorted(s: Seq<SuggestionV>, k: int)
    requires
        0 <= k <= s.len(),
    ensures
        forall|p: int, q: int|
            0 <= p < q < sort_sugg_pref(s, k).len() ==> (#[trigger] sort_sugg_pref(s, k)[p]).start
                <= (#[trigger] sort_sugg_pref(s, k)[q]).start,
    decreases k,
{
    if k > 0 {
        lemma_sort_sugg_sorted(s, k - 1);
        lemma_insert_sugg_sorted(sort_sugg_pref(s, k - 1), s[k - 1]);
    }
}

/// Suggestions a rule set returns stand sorted ascending by start and are
/// pairwise disjoint in their character spans.
pub proof fn lemma_rules_apply_ordered(
    rules: Seq<Rule>,
    cache: &Cache,
    tokensv: Seq<TokenV>,
    tagger: &crate::tagger::Tagger,
    add_lower: bool,
)
    ensures
        forall|p: int, q: int|
            0 <= p < q < rules_apply_spec(rules, cache, tokensv, tagger, add_lower).len() ==> (
            #[trigger] rules_apply_spec(rules, cache, tokensv, tagger, add_lower)[p]).start <= (
            #[trigger] rules_apply_spec(rules, cache, tokensv, tagger, add_lower)[q]).start,
        forall|p: int, q: int|
            0 <= p < q < rules_apply_spec(rules, cache, tokensv, tagger, add_lower).len() ==> crate::engine::ranges_disjoint(
                (#[trigger] rules_apply_spec(rules, cache, tokensv, tagger, add_lower)[p]).start as int,
                rules_apply_spec(rules, cache, tokensv, tagger, add_lower)[p].end as int,
                (#[trigger] rules_apply_spec(rules, cache, tokensv, tagger, add_lower)[q]).start as int,
                rules_apply_spec(rules, cache, tokensv, tagger, add_lower)[q].end as int,
            ),
{
    if tokensv.len() > 0 {
        let all = all_rule_suggestions(rules, 0, cache, tokensv, tagger, add_lower);
        let sorted = sort_sugg(all);
        let mask0 = crate::engine::empty_mask(tokensv[0].text.len());
        lemma_sort_sugg_sorted(all, all.len() as int);
        lemma_dedup_sorted(sorted, mask0);
        lemma_dedup_disjoint(sorted, mask0);
    }
}

/// Walking a sorted list, the kept suggestions stay sorted.
proof fn lemma_dedup_sorted(s: Seq<SuggestionV>, mask: Seq<bool>)
    requires
        forall|p: int, q: int| 0 <= p < q < s.len() ==> (#[trigger] s[p]).start <= (#[trigger] s[q]).start,
    ensures
        forall|p: int, q: int|
            0 <= p < q < dedup_sugg_rec(s, mask).len() ==> (#[trigger] dedup_sugg_rec(s, mask)[p]).start
                <= (#[trigger] dedup_sugg_rec(s, mask)[q]).start,
        forall|k: int|
            0 <= k < dedup_sugg_rec(s, mask).len() ==> exists|p: int|
                0 <= p < s.len() && (#[trigger] s[p]) == (#[trigger] dedup_sugg_rec(s, mask)[k]),
    decreases s.len(),
{
    if s.len() > 0 {
        let st = s[0].start as int;
        let en = s[0].end as int;
        assert(forall|p: int, q: int|
            0 <= p < q < s.skip(1).len() ==> (#[trigger] s.skip(1)[p]).start <= (#[trigger] s.skip(
                1,
            )[q]).start);
        if st <= en <= mask.len() && crate::engine::all_false(mask, st, en) {
            let mask2 = crate::engine::set_range(mask, st, en);
            lemma_dedup_sorted(s.skip(1), mask2);
            let r = dedup_sugg_rec(s, mask);
            let r2 = dedup_sugg_rec(s.skip(1), mask2);
            assert(r =~= seq![s[0]] + r2);
            assert forall|p: int, q: int| 0 <= p < q < r.len() implies (#[trigger] r[p]).start <= (
            #[trigger] r[q]).start by {
                if p == 0 {
                    assert(r[q] == r2[q - 1]);
                    assert(0 <= q - 1 < dedup_sugg_rec(s.skip(1), mask2).len());
                    let w = choose|w: int|
                        0 <= w < s.skip(1).len() && (#[trigger] s.skip(1)[w]) == (
                        #[trigger] dedup_sugg_rec(s.skip(1), mask2)[q - 1]);
                    assert(s.skip(1)[w] == s[w + 1]);
                } else {
                    assert(r[p] == r2[p - 1]);
                    assert(r[q] == r2[q - 1]);
                }
            }
            assert forall|k: int| 0 <= k < r.len() implies exists|p: int|
                0 <= p < s.len() && (#[trigger] s[p]) == (#[trigger] r[k]) by {
                if k == 0 {
                    assert(s[0] == r[0]);
                } else {
                    assert(r[k] == r2[k - 1]);
                    let w = choose|w: int|
                        0 <= w < s.skip(1).len() && (#[trigger] s.skip(1)[w]) == (
                        #[trigger] dedup_sugg_rec(s.skip(1), mask2)[k - 1]);
                    assert(s[w + 1] == r[k]);
                }
            }
        } else {
            lemma_dedup_sorted(s.skip(1), mask);
            assert(dedup_sugg_rec(s, mask) == dedup_sugg_rec(s.skip(1), mask));
            assert forall|k: int| 0 <= k < dedup_sugg_rec(s, mask).len() implies exists|p: int|
                0 <= p < s.len() && (#[trigger] s[p]) == (#[trigger] dedup_sugg_rec(s, mask)[k]) by {
                assert(0 <= k < dedup_sugg_rec(s.skip(1), mask).len());
                let w = choose|w: int|
                    0 <= w < s.skip(1).len() && (#[trigger] s.skip(1)[w]) == (
                    #[trigger] dedup_sugg_rec(s.skip(1), mask)[k]);
                assert(s[w + 1] == dedup_sugg_rec(s, mask)[k]);
            }
        }
    }
}

/// The rules the options select, in order.
pub open spec fn selected_rules(rules: Seq<Rule>, opts: &RulesOptions) -> Seq<Rule>
    decreases rules.len(),
{
    if rules.len() == 0 {
        Seq::empty()
    } else if rule_selected(opts, rules[0].id@) {
        seq![rules[0]] + selected_rules(rules.skip(1), opts)
    } else {
        selected_rules(rules.skip(1), opts)
    }
}

impl Rules {
    /// An empty rule set.
    pub fn new() -> (r: Rules)
        ensures
            r.rules@.len() == 0,
            r.cache.words@.len() == 0,
    {
        Rules { rules: Vec::new(), cache: Cache::new() }
    }

    /// Add a rule if the options select its id; an unselected rule is
    /// dropped.
    pub fn push_rule(&mut self, rule: Rule, options: &RulesOptions)
        ensures
            final(self).cache == old(self).cache,
            final(self).rules@ == (if rule_selected(options, rule.id@) {
                old(self).rules@.push(rule)
            } else {
                old(self).rules@
            }),
    {
        let selected = (options.ids.len() == 0 || ids_contain_exec(&options.ids, &rule.id))
            && !ids_contain_exec(&options.ignore_ids, &rule.id);
        if selected {
            self.rules.push(rule);
        }
    }

    /// A rule set holding exactly the rules the options select, in input
    /// order, with an empty cache.
    pub fn from_rules(rules: Vec<Rule>, options: &RulesOptions) -> (r: Rules)
        ensures
            r.cache.words@.len() == 0,
            r.rules@ == selected_rules(rules@, options),
    {
        let mut r = Rules::new();
        let ghost orig = rules@;
        let mut pending = rules;
        let mut taken: usize = 0;
        let n0 = pending.len();
        proof {
            assert(orig.skip(0) =~= orig);
            assert(Seq::<Rule>::empty() + selected_rules(orig, options) =~= selected_rules(
                orig,
                options,
            ));
        }
        while pending.len() > 0
            invariant
                taken + pending@.len() == orig.len() <= n0,
                pending@ =~= orig.skip(taken as int),
                r.cache.words@.len() == 0,
                selected_rules(orig, options) == r.rules@ + selected_rules(
                    orig.skip(taken as int),
                    options,
                ),
            decreases pending@.len(),
        {
            proof {
                assert(orig.skip(taken as int)[0] == orig[taken as int]);
                assert(orig.skip(taken as int).skip(1) =~= orig.skip(taken + 1 as int));
            }
            let ghost prev = r.rules@;
            let rule = pending.remove(0);
            proof {
                assert(rule == orig[taken as int]);
            }
            r.push_rule(rule, options);
            proof {
                if rule_selected(options, orig[taken as int].id@) {
                    assert(r.rules@ =~= prev.push(orig[taken as int]));
                    assert(prev + (seq![orig[taken as int]] + selected_rules(
                        orig.skip(taken + 1 as int),
                        options,
                    )) =~= r.rules@ + selected_rules(orig.skip(taken + 1 as int), options));
                }
            }
            taken += 1;
        }
        proof {
            assert(orig.skip(orig.len() as int) =~= Seq::<Rule>::empty());
            assert(r.rules@ + Seq::<Rule>::empty() =~= r.rules@);
            assert(r.rules@ == selected_rules(rules@, options));
        }
        r
    }

    /// The rules, in application order.
    pub fn rules(&self) -> (r: &Vec<Rule>)
        ensures
            r == &self.rules,
    {
        &self.rules
    }

    /// Append one pass of skip bits for these common words: one bit per
    /// rule of this set, in rule order, appended to whatever bits a word
    /// already has, true exactly where the rule's token pattern can never
    /// match the word; entries of other words are untouched.
    pub fn populate_cache(&mut self, common_words: &Vec<String>)
        requires
            old(self).cache.words@.len() == old(self).cache.masks@.len(),
            forall|p: int, q: int|
                0 <= p < q < common_words@.len() ==> (#[trigger] common_words@[p])@ != (
                #[trigger] common_words@[q])@,
        ensures
            final(self).rules == old(self).rules,
            final(self).cache.words@.len() == final(self).cache.masks@.len(),
            forall|w: Seq<char>|
                ids_contain(common_words@, w) ==> #[trigger] cache_lookup(
                    final(self).cache.words@,
                    final(self).cache.masks@,
                    w,
                ) == Some(
                    lookup_or_empty(old(self).cache.words@, old(self).cache.masks@, w)
                        + rule_bits(old(self).rules@, w),
                ),
            forall|w: Seq<char>|
                !ids_contain(common_words@, w) ==> #[trigger] cache_lookup(
                    final(self).cache.words@,
                    final(self).cache.masks@,
                    w,
                ) == cache_lookup(old(self).cache.words@, old(self).cache.masks@, w),
    {
        let mut engines: Vec<&Engine> = Vec::new();
        let mut k: usize = 0;
        while k < self.rules.len()
            invariant
                k <= self.rules@.len(),
                engines@.len() == k,
                forall|e: int| 0 <= e < k ==> (#[trigger] engines@[e]) == &self.rules@[e].engine,
            decreases self.rules@.len() - k,
        {
            engines.push(&self.rules[k].engine);
            k += 1;
        }
        proof {
            assert forall|w: Seq<char>| true implies #[trigger] engine_bits(engines@, w)
                == rule_bits(self.rules@, w) by {
                assert forall|e: int|
                    0 <= e < engines@.len() implies engine_bits(engines@, w)[e] == rule_bits(
                    self.rules@,
                    w,
                )[e] by {
                    assert(engines@[e] == &self.rules@[e].engine);
                }
                assert(engine_bits(engines@, w) =~= rule_bits(self.rules@, w));
            }
        }
        self.cache.populate(common_words, &engines);
    }

    /// Every enabled rule's suggestions over the sentence, sorted ascending
    /// by start, overlapping spans dropped first-come-first-kept. The
    /// result is a function of the inputs alone, and its entries are
    /// ordered and pairwise character-disjoint.
    pub fn apply(&self, tokens: &Vec<Token>, tokenizer: &Tokenizer) -> (r: Vec<Suggestion>)
        requires
            rules_wf(self.rules@),
        ensures
            suggestions_view(r@) == rules_apply_spec(
                self.rules@,
                &self.cache,
                tokens_view(tokens@),
                &tokenizer.tagger,
                tokenizer.options.always_add_lower_tags,
            ),
            forall|p: int, q: int|
                0 <= p < q < r@.len() ==> (#[trigger] r@[p]).start <= (#[trigger] r@[q]).start,
            forall|p: int, q: int|
                0 <= p < q < r@.len() ==> crate::engine::ranges_disjoint(
                    (#[trigger] r@[p]).start as int,
                    r@[p].end as int,
                    (#[trigger] r@[q]).start as int,
                    r@[q].end as int,
                ),
    {
        let ghost tv = tokens_view(tokens@);
        let ghost add_lower = tokenizer.options.always_add_lower_tags;
        proof {
            lemma_rules_apply_ordered(self.rules@, &self.cache, tv, &tokenizer.tagger, add_lower);
        }
        if tokens.len() == 0 {
            let r: Vec<Suggestion> = Vec::new();
            proof {
                assert(suggestions_view(r@) =~= rules_apply_spec(
                    self.rules@,
                    &self.cache,
                    tv,
                    &tokenizer.tagger,
                    add_lower,
                ));
            }
            return r;
        }
        // collect every enabled rule's suggestions, in rule order
        let mut all: Vec<Suggestion> = Vec::new();
        let mut i: usize = 0;
        proof {
            assert(suggestions_view(all@) + all_rule_suggestions(
                self.rules@,
                0,
                &self.cache,
                tv,
                &tokenizer.tagger,
                add_lower,
            ) =~= all_rule_suggestions(self.rules@, 0, &self.cache, tv, &tokenizer.tagger, add_lower));
        }
        while i < self.rules.len()
            invariant
                i <= self.rules@.len(),
                rules_wf(self.rules@),
                tokens@.len() > 0,
                tv == tokens_view(tokens@),
                add_lower == tokenizer.options.always_add_lower_tags,
                all_rule_suggestions(self.rules@, 0, &self.cache, tv, &tokenizer.tagger, add_lower)
                    == suggestions_view(all@) + all_rule_suggestions(
                    self.rules@,
                    i as int,
                    &self.cache,
                    tv,
                    &tokenizer.tagger,
                    add_lower,
                ),
            decreases self.rules@.len() - i,
        {
            let rule = &self.rules[i];
            let ghost prev = suggestions_view(all@);
            if rule.on() {
                let mask = self.cache.get_skip_mask(tokens, i);
                proof {
                    assert(mask@ =~= Seq::new(
                        tv.len(),
                        |k: int| skip_bit(&self.cache, tv[k].word.text, i),
                    ));
                }
                let mut sugs = rule.apply(tokens, Some(&mask), tokenizer);
                let ghost sugsv = suggestions_view(sugs@);
                let nsu = sugs.len();
                proof {
                    assert(sugsv.len() == nsu as int);
                }
                proof {
                    assert(sugsv == rule_apply_spec(
                        &self.rules@[i as int],
                        tv,
                        Some(
                            Seq::new(
                                tv.len(),
                                |k: int| skip_bit(&self.cache, tv[k].word.text, i),
                            ),
                        ),
                        &tokenizer.tagger,
                        add_lower,
                    ));
                }
                let mut moved: usize = 0;
                while sugs.len() > 0
                    invariant
                        moved + sugs@.len() == sugsv.len(),
                        sugsv.len() <= usize::MAX,
                        suggestions_view(sugs@) =~= sugsv.skip(moved as int),
                        suggestions_view(all@) == prev + sugsv.subrange(0, moved as int),
                    decreases sugs@.len(),
                {
                    proof {
                        assert(sugsv.skip(moved as int)[0] == sugsv[moved as int]);
                        assert(suggestions_view(sugs@)[0] == sugs@[0]@);
                    }
                    let ghost old_sugs = sugs@;
                    let s = sugs.remove(0);
                    proof {
                        assert forall|k2: int| 0 <= k2 < sugs@.len() implies suggestions_view(
                            sugs@,
                        )[k2] == sugsv.skip(moved + 1 as int)[k2] by {
                            assert(sugs@[k2] == old_sugs[k2 + 1]);
                            assert(suggestions_view(old_sugs)[k2 + 1] == old_sugs[k2 + 1]@);
                            assert(sugsv.skip(moved as int)[k2 + 1] == sugsv[moved + 1 + k2]);
                            assert(sugsv.skip(moved + 1 as int)[k2] == sugsv[moved + 1 + k2]);
                        }
                        assert(suggestions_view(sugs@) =~= sugsv.skip(moved + 1 as int));
                    }
                    let ghost prev_all = suggestions_view(all@);
                    all.push(s);
                    proof {
                        assert(suggestions_view(all@) =~= prev_all.push(sugsv[moved as int]));
                        assert(suggestions_view(all@) =~= prev + sugsv.subrange(
                            0,
                            moved + 1 as int,
                        ));
                    }
                    moved += 1;
                }
                proof {
                    assert(sugsv.subrange(0, sugsv.len() as int) =~= sugsv);
                    assert(suggestions_view(all@) =~= prev + sugsv);
                    assert(all_rule_suggestions(
                        self.rules@,
                        i as int,
                        &self.cache,
                        tv,
                        &tokenizer.tagger,
                        add_lower,
                    ) == sugsv + all_rule_suggestions(
                        self.rules@,
                        i + 1,
                        &self.cache,
                        tv,
                        &tokenizer.tagger,
                        add_lower,
                    ));
                    assert(prev + (sugsv + all_rule_suggestions(
                        self.rules@,
                        i + 1,
                        &self.cache,
                        tv,
                        &tokenizer.tagger,
                        add_lower,
                    )) =~= suggestions_view(all@) + all_rule_suggestions(
                        self.rules@,
                        i + 1,
                        &self.cache,
                        tv,
                        &tokenizer.tagger,
                        add_lower,
                    ));
                }
            }
            i += 1;
        }
        proof {
            assert(all_rule_suggestions(
                self.rules@,
                self.rules@.len() as int,
                &self.cache,
                tv,
                &tokenizer.tagger,
                add_lower,
            ) =~= Seq::<SuggestionV>::empty());
            assert(suggestions_view(all@) + Seq::<SuggestionV>::empty() =~= suggestions_view(
                all@,
            ));
        }
        let ghost collected = suggestions_view(all@);
        // stable insertion sort ascending by start
        let mut sorted: Vec<Suggestion> = Vec::new();
        let total = all.len();
        let mut k: usize = 0;
        while k < total
            invariant
                k <= total,
                all@.len() == total - k,
                collected.len() == total,
                suggestions_view(all@) == collected.skip(k as int),
                suggestions_view(sorted@) == sort_sugg_pref(collected, k as int),
            decreases total - k,
        {
            let ghost old_all = all@;
            let x = all.remove(0);
            proof {
                assert(collected.skip(k as int)[0] == collected[k as int]);
                assert(suggestions_view(old_all)[0] == old_all[0]@);
                assert(x@ == collected[k as int]);
                assert forall|j: int| 0 <= j < all@.len() implies suggestions_view(all@)[j]
                    == collected.skip(k + 1 as int)[j] by {
                    assert(all@[j] == old_all[j + 1]);
                    assert(suggestions_view(old_all)[j + 1] == old_all[j + 1]@);
                    assert(collected.skip(k as int)[j + 1] == collected[k + 1 + j]);
                    assert(collected.skip(k + 1 as int)[j] == collected[k + 1 + j]);
                }
                assert(suggestions_view(all@) =~= collected.skip(k + 1 as int));
            }
            let mut pos: usize = 0;
            while pos < sorted.len() && sorted[pos].start <= x.start
                invariant
                    pos <= sorted@.len(),
                    forall|q: int|
                        0 <= q < pos ==> (#[trigger] suggestions_view(sorted@)[q]).start <= x.start,
                decreases sorted@.len() - pos,
            {
                proof {
                    assert(suggestions_view(sorted@)[pos as int].start == sorted@[pos as int].start);
                }
                pos += 1;
            }
            proof {
                if (pos as int) < sorted@.len() {
                    assert(suggestions_view(sorted@)[pos as int].start == sorted@[pos as int].start);
                }
            }
            let ghost prev_sorted = suggestions_view(sorted@);
            let ghost xv = x@;
            sorted.insert(pos, x);
            proof {
                lemma_insert_sugg_at(prev_sorted, xv, pos as int);
                assert forall|j: int| 0 <= j < suggestions_view(sorted@).len() implies
                    suggestions_view(sorted@)[j] == (prev_sorted.subrange(0, pos as int) + seq![xv]
                    + prev_sorted.subrange(pos as int, prev_sorted.len() as int))[j] by {
                    if j < pos {
                        assert(suggestions_view(sorted@)[j] == sorted@[j]@);
                    } else if j == pos {
                        assert(suggestions_view(sorted@)[j] == sorted@[j]@);
                    } else {
                        assert(suggestions_view(sorted@)[j] == sorted@[j]@);
                    }
                }
                assert(suggestions_view(sorted@) =~= prev_sorted.subrange(0, pos as int) + seq![xv]
                    + prev_sorted.subrange(pos as int, prev_sorted.len() as int));
                assert(suggestions_view(sorted@) == insert_sugg(
                    collected[k as int],
                    sort_sugg_pref(collected, k as int),
                ));
            }
            k += 1;
        }
        proof {
            assert(suggestions_view(sorted@) == sort_sugg(collected));
        }
        // walk left to right and keep the character-disjoint suggestions
        let text_chars = chars_of(tokens[0].text.as_str());
        let mut mask: Vec<bool> = Vec::new();
        let mut c: usize = 0;
        while c < text_chars.len()
            invariant
                c <= text_chars@.len(),
                mask@.len() == c,
                forall|q: int| 0 <= q < c ==> !(#[trigger] mask@[q]),
            decreases text_chars@.len() - c,
        {
            mask.push(false);
            c += 1;
        }
        proof {
            assert(tv[0] == tokens@[0]@);
            assert(mask@ =~= crate::engine::empty_mask(tv[0].text.len()));
        }
        let ghost sorted_all = suggestions_view(sorted@);
        let mut out: Vec<Suggestion> = Vec::new();
        let mut t: usize = 0;
        proof {
            assert(sorted_all.skip(0) =~= sorted_all);
            assert(suggestions_view(out@) + dedup_sugg_rec(sorted_all, mask@) =~= dedup_sugg_rec(
                sorted_all,
                mask@,
            ));
        }
        while t < sorted.len()
            invariant
                t <= sorted@.len(),
                suggestions_view(sorted@) == sorted_all,
                mask@.len() == crate::engine::empty_mask(tv[0].text.len()).len(),
                dedup_sugg_rec(sorted_all, crate::engine::empty_mask(tv[0].text.len()))
                    == suggestions_view(out@) + dedup_sugg_rec(sorted_all.skip(t as int), mask@),
            decreases sorted@.len() - t,
        {
            proof {
                assert(sorted_all.skip(t as int)[0] == sorted_all[t as int]);
                assert(sorted_all[t as int] == sorted@[t as int]@);
                assert(sorted_all.skip(t as int).skip(1) =~= sorted_all.skip(t + 1 as int));
            }
            let st = sorted[t].start;
            let en = sorted[t].end;
            let mut free: bool = st <= en && en <= mask.len();
            if free {
                let mut q: usize = st;
                while q < en
                    invariant
                        st <= q <= en <= mask@.len(),
                        free == crate::engine::all_false(mask@, st as int, q as int),
                    decreases en - q,
                {
                    if mask[q] {
                        free = false;
                    }
                    q += 1;
                }
            }
            let ghost prev_mask = mask@;
            let ghost prev_out = suggestions_view(out@);
            if free {
                let mut q: usize = st;
                while q < en
                    invariant
                        st <= q <= en <= prev_mask.len(),
                        mask@.len() == prev_mask.len(),
                        forall|p: int|
                            0 <= p < mask@.len() ==> (#[trigger] mask@[p]) == (st <= p < q
                                || prev_mask[p]),
                    decreases en - q,
                {
                    mask.set(q, true);
                    q += 1;
                }
                proof {
                    assert(mask@ =~= crate::engine::set_range(prev_mask, st as int, en as int));
                }
                let s = &sorted[t];
                let copied = Suggestion {
                    source: s.source.clone(),
                    message: s.message.clone(),
                    start: s.start,
                    end: s.end,
                    text: copy_strings(&s.text),
                };
                proof {
                    assert(copied@ =~= sorted@[t as int]@);
                }
                out.push(copied);
                proof {
                    assert(suggestions_view(out@) =~= prev_out.push(sorted_all[t as int]));
                    assert(dedup_sugg_rec(sorted_all.skip(t as int), prev_mask) == seq![
                        sorted_all[t as int],
                    ] + dedup_sugg_rec(sorted_all.skip(t + 1 as int), mask@));
                    assert(prev_out + (seq![sorted_all[t as int]] + dedup_sugg_rec(
                        sorted_all.skip(t + 1 as int),
                        mask@,
                    )) =~= suggestions_view(out@) + dedup_sugg_rec(
                        sorted_all.skip(t + 1 as int),
                        mask@,
                    ));
                }
            } else {
                proof {
                    assert(dedup_sugg_rec(sorted_all.skip(t as int), mask@) == dedup_sugg_rec(
                        sorted_all.skip(t + 1 as int),
                        mask@,
                    ));
                }
            }
            t += 1;
        }
        proof {
            assert(sorted_all.skip(sorted@.len() as int) =~= Seq::<SuggestionV>::empty());
            assert(suggestions_view(out@) + Seq::<SuggestionV>::empty() =~= suggestions_view(
                out@,
            ));
            assert(suggestions_view(out@) == rules_apply_spec(
                self.rules@,
                &self.cache,
                tv,
                &tokenizer.tagger,
                add_lower,
            ));
            assert forall|p: int, q: int| 0 <= p < q < out@.len() implies (#[trigger] out@[p]).start
                <= (#[trigger] out@[q]).start by {
                assert(suggestions_view(out@)[p] == out@[p]@);
                assert(suggestions_view(out@)[q] == out@[q]@);
            }
            assert forall|p: int, q: int| 0 <= p < q < out@.len() implies crate::engine::ranges_disjoint(
                (#[trigger] out@[p]).start as int,
                out@[p].end as int,
                (#[trigger] out@[q]).start as int,
                out@[q].end as int,
            ) by {
                assert(suggestions_view(out@)[p] == out@[p]@);
                assert(suggestions_view(out@)[q] == out@[q]@);
            }
        }
        out
    }
}

/// A fresh copy of a string list.
fn copy_strings(v: &Vec<String>) -> (r: Vec<String>)
    ensures
        crate::word::strings_view(r@) == crate::word::strings_view(v@),
{
    let mut r: Vec<String> = Vec::new();
    let mut i: usize = 0;
    while i < v.len()
        invariant
            i <= v@.len(),
            crate::word::strings_view(r@) == crate::word::strings_view(v@).subrange(0, i as int),
        decreases v@.len() - i,
    {
        let ghost prev = r@;
        r.push(v[i].clone());
        proof {
            crate::word::lemma_strings_view_push(prev, r@.last());
            assert(prev.push(r@.last()) =~= r@);
            assert(crate::word::strings_view(v@)[i as int] == v@[i as int]@);
            assert(crate::word::strings_view(r@) =~= crate::word::strings_view(v@).subrange(
                0,
                i + 1 as int,
            ));
        }
        i += 1;
    }
    proof {
        assert(crate::word::strings_view(v@).subrange(0, v@.len() as int)
            =~= crate::word::strings_view(v@));
    }
    r
}

/// The spliced text: each suggestion's first replacement goes in over its
/// character span, shifted by the length change of the splices before it; a
/// splice that does not fit (or has no replacement) is skipped.
pub open spec fn correct_rec(chars: Seq<char>, sugs: Seq<SuggestionV>, offset: int) -> Seq<char>
    decreases sugs.len(),
{
    if sugs.len() == 0 {
        chars
    } else {
        let s = sugs[0];
        let a = s.start + offset;
        let b = s.end + offset;
        if 0 <= a <= b <= chars.len() && s.text.len() > 0 {
            correct_rec(
                chars.subrange(0, a) + s.text[0] + chars.subrange(b, chars.len() as int),
                sugs.skip(1),
                offset + s.text[0].len() - (s.end - s.start),
            )
        } else {
            correct_rec(chars, sugs.skip(1), offset)
        }
    }
}

/// What `correct` returns.
pub open spec fn correct_spec(text: Seq<char>, sugs: Seq<SuggestionV>) -> Seq<char> {
    correct_rec(text, sugs, 0)
}

impl Rules {
    /// Splice the suggestions' first replacements into the text, in order.
    /// Assumes the suggestions are already sorted and non-overlapping, as
    /// `apply` returns them.
    pub fn correct(text: &str, suggestions: &Vec<Suggestion>) -> (r: String)
        ensures
            r@ == correct_spec(text@, suggestions_view(suggestions@)),
    {
        let ghost sv = suggestions_view(suggestions@);
        let mut chars = chars_of(text);
        let cl0 = chars.len();
        let mut offset: i128 = 0;
        let mut i: usize = 0;
        proof {
            assert(sv.skip(0) =~= sv);
            assert(chars@.len() == cl0 as int);
        }
        while i < suggestions.len()
            invariant
                i <= sv.len(),
                sv == suggestions_view(suggestions@),
                correct_spec(text@, sv) == correct_rec(chars@, sv.skip(i as int), offset as int),
                offset == chars@.len() - text@.len(),
                chars@.len() <= usize::MAX,
            decreases sv.len() - i,
        {
            proof {
                assert(sv.skip(i as int)[0] == sv[i as int]);
                assert(sv[i as int] == suggestions@[i as int]@);
                assert(sv.skip(i as int).skip(1) =~= sv.skip(i + 1 as int));
            }
            let s = &suggestions[i];
            let a128: i128 = (s.start as i128) + offset;
            let b128: i128 = (s.end as i128) + offset;
            if 0 <= a128 && a128 <= b128 && b128 <= (chars.len() as i128) && s.text.len() > 0 {
                let a: usize = a128 as usize;
                let b: usize = b128 as usize;
                let rep = chars_of(s.text[0].as_str());
                proof {
                    assert(crate::word::strings_view(s.text@)[0] == s.text@[0]@);
                }
                let mut next: Vec<char> = Vec::new();
                push_range(&mut next, &chars, 0, a);
                push_range(&mut next, &rep, 0, rep.len());
                push_range(&mut next, &chars, b, chars.len());
                proof {
                    assert(rep@.subrange(0, rep@.len() as int) =~= rep@);
                    assert(next@ =~= chars@.subrange(0, a as int) + sv[i as int].text[0]
                        + chars@.subrange(b as int, chars@.len() as int));
                }
                proof {
                    assert(s.start <= s.end);
                    assert(next@.len() == a + rep@.len() + (chars@.len() - b));
                }
                let new_offset: i128 = offset + (rep.len() as i128) - ((s.end - s.start) as i128);
                chars = next;
                offset = new_offset;
                let cl2 = chars.len();
                proof {
                    assert(chars@.len() == cl2 as int);
                }
            }
            i += 1;
        }
        proof {
            assert(sv.skip(sv.len() as int) =~= Seq::<SuggestionV>::empty());
        }
        string_of(&chars)
    }

}

/// The total length change the splices make.
pub open spec fn splice_delta(sugs: Seq<SuggestionV>) -> int
    decreases sugs.len(),
{
    if sugs.len() == 0 {
        0
    } else {
        (sugs[0].text[0].len() - (sugs[0].end - sugs[0].start)) + splice_delta(sugs.skip(1))
    }
}

/// Every splice fits: each span, shifted by the changes before it, lies in
/// the text, and carries a replacement.
pub open spec fn splices_ok(chars_len: int, sugs: Seq<SuggestionV>, offset: int) -> bool
    decreases sugs.len(),
{
    if sugs.len() == 0 {
        true
    } else {
        let s = sugs[0];
        let a = s.start + offset;
        let b = s.end + offset;
        &&& 0 <= a <= b <= chars_len
        &&& s.text.len() > 0
        &&& splices_ok(
            chars_len + s.text[0].len() - (s.end - s.start),
            sugs.skip(1),
            offset + s.text[0].len() - (s.end - s.start),
        )
    }
}

/// Correcting recomposes a text whose length is the original's plus the sum
/// of the replacements' length changes.
pub proof fn lemma_correct_len(chars: Seq<char>, sugs: Seq<SuggestionV>, offset: int)
    requires
        splices_ok(chars.len() as int, sugs, offset),
    ensures
        correct_rec(chars, sugs, offset).len() == chars.len() + splice_delta(sugs),
    decreases sugs.len(),
{
    if sugs.len() > 0 {
        let s = sugs[0];
        let a = s.start + offset;
        let b = s.end + offset;
        let next = chars.subrange(0, a) + s.text[0] + chars.subrange(b, chars.len() as int);
        assert(next.len() == chars.len() + s.text[0].len() - (s.end - s.start));
        lemma_correct_len(next, sugs.skip(1), offset + s.text[0].len() - (s.end - s.start));
    }
}

/// The kept suggestions are pairwise disjoint, and each lies in free
/// characters of the incoming mask.
proof fn lemma_dedup_disjoint(s: Seq<SuggestionV>, mask: Seq<bool>)
    ensures
        forall|p: int, q: int|
            0 <= p < q < dedup_sugg_rec(s, mask).len() ==> crate::engine::ranges_disjoint(
                (#[trigger] dedup_sugg_rec(s, mask)[p]).start as int,
                dedup_sugg_rec(s, mask)[p].end as int,
                (#[trigger] dedup_sugg_rec(s, mask)[q]).start as int,
                dedup_sugg_rec(s, mask)[q].end as int,
            ),
        forall|p: int|
            0 <= p < dedup_sugg_rec(s, mask).len() ==> crate::engine::all_false(
                mask,
                (#[trigger] dedup_sugg_rec(s, mask)[p]).start as int,
                dedup_sugg_rec(s, mask)[p].end as int,
            ) && dedup_sugg_rec(s, mask)[p].start <= dedup_sugg_rec(s, mask)[p].end
                <= mask.len(),
    decreases s.len(),
{
    if s.len() > 0 {
        let st = s[0].start as int;
        let en = s[0].end as int;
        if st <= en <= mask.len() && crate::engine::all_false(mask, st, en) {
            let mask2 = crate::engine::set_range(mask, st, en);
            assert(mask2.len() == mask.len());
            lemma_dedup_disjoint(s.skip(1), mask2);
            let r = dedup_sugg_rec(s, mask);
            let r2 = dedup_sugg_rec(s.skip(1), mask2);
            assert(r =~= seq![s[0]] + r2);
            assert forall|p: int, q: int| 0 <= p < q < r.len() implies crate::engine::ranges_disjoint(
                (#[trigger] r[p]).start as int,
                r[p].end as int,
                (#[trigger] r[q]).start as int,
                r[q].end as int,
            ) by {
                if p == 0 {
                    assert(r[q] == r2[q - 1]);
                    assert(crate::engine::all_false(mask2, r[q].start as int, r[q].end as int));
                    let b1 = r[q].start as int;
                    let b2 = r[q].end as int;
                    if st < en && b1 < b2 && !(en <= b1) && !(b2 <= st) {
                        let w = if st <= b1 {
                            b1
                        } else {
                            st
                        };
                        assert(st <= w < en);
                        assert(b1 <= w < b2);
                        assert(mask2[w]);
                        assert(false);
                    }
                } else {
                    assert(r[p] == r2[p - 1]);
                    assert(r[q] == r2[q - 1]);
                }
            }
            assert forall|p: int| 0 <= p < r.len() implies crate::engine::all_false(
                mask,
                (#[trigger] r[p]).start as int,
                r[p].end as int,
            ) && r[p].start <= r[p].end <= mask.len() by {
                if p > 0 {
                    assert(r[p] == r2[p - 1]);
                    assert(crate::engine::all_false(mask2, r[p].start as int, r[p].end as int));
                    assert forall|w: int|
                        r[p].start as int <= w < r[p].end as int && 0 <= w
                            < mask.len() implies !mask[w] by {
                        assert(!mask2[w]);
                    }
                }
            }
        } else {
            lemma_dedup_disjoint(s.skip(1), mask);
            assert(dedup_sugg_rec(s, mask) == dedup_sugg_rec(s.skip(1), mask));
        }
    }
}

} // verus!
