use vstd::prelude::*;
use crate::composition::{MatchGraph, MatchGraphV, graph_index_of};
use crate::disambig::{Disambiguation, disamb_apply_spec, groups_view};
use crate::engine::{Engine, engine_matches_spec, graphs_view, opt_mask_view};
use crate::synth::{Synthesizer, synth_apply_spec};
use crate::tagger::Tagger;
use crate::text::{chars_of, fix_nospace_chars, fix_nospace_rec, is_no_space, is_no_space_char};
use crate::tokenizer::{Tokenizer, finalize, finalize_spec};
use crate::word::{
    IncompleteToken, Token, TokenV, itokens_view, strings_view, tags_view, tokens_view,
};

verus! {

/// A textual correction over a character span of the sentence.
pub struct Suggestion {
    pub source: String,
    pub message: String,
    pub start: usize,
    pub end: usize,
    pub text: Vec<String>,
}

/// The mathematical value of a suggestion.
#[verifier::ext_equal]
pub struct SuggestionV {
    pub source: Seq<char>,
    pub message: Seq<char>,
    pub start: usize,
    pub end: usize,
    pub text: Seq<Seq<char>>,
}

impl View for Suggestion {
    type V = SuggestionV;

    open spec fn view(&self) -> SuggestionV {
        SuggestionV {
            source: self.source@,
            message: self.message@,
            start: self.start,
            end: self.end,
            text: strings_view(self.text@),
        }
    }
}

/// The views of a suggestion list.
pub open spec fn suggestions_view(s: Seq<Suggestion>) -> Seq<SuggestionV> {
    s.map_values(|x: Suggestion| x@)
}

/// The harness's suggestion equality: same span and at least one shared
/// replacement text.
pub open spec fn suggestions_match(a: SuggestionV, b: SuggestionV) -> bool {
    a.start == b.start && a.end == b.end && exists|p: int, q: int|
        0 <= p < a.text.len() && 0 <= q < b.text.len() && (#[trigger] a.text[p]) == (
        #[trigger] b.text[q])
}

impl Suggestion {
    /// Whether the harness counts the two suggestions as equal.
    pub fn matches(&self, other: &Suggestion) -> (r: bool)
        ensures
            r == suggestions_match(self@, other@),
    {
        if self.start != other.start || self.end != other.end {
            return false;
        }
        let mut i: usize = 0;
        while i < self.text.len()
            invariant
                i <= self.text@.len(),
                self.start == other.start && self.end == other.end,
                forall|p: int, q: int|
                    0 <= p < i && 0 <= q < other@.text.len() ==> (#[trigger] strings_view(
                        self.text@,
                    )[p]) != (#[trigger] strings_view(other.text@)[q]),
            decreases self.text@.len() - i,
        {
            let mut j: usize = 0;
            while j < other.text.len()
                invariant
                    j <= other.text@.len(),
                    i < self.text@.len(),
                    self.start == other.start && self.end == other.end,
                    forall|q: int|
                        0 <= q < j ==> strings_view(self.text@)[i as int] != (#[trigger] strings_view(
                            other.text@,
                        )[q]),
                decreases other.text@.len() - j,
            {
                proof {
                    assert(strings_view(self.text@)[i as int] == self.text@[i as int]@);
                    assert(strings_view(other.text@)[j as int] == other.text@[j as int]@);
                }
                if self.text[i] == other.text[j] {
                    proof {
                        assert(self@.text[i as int] == other@.text[j as int]);
                        assert((i as int) < self@.text.len());
                        assert((j as int) < other@.text.len());
                        assert(suggestions_match(self@, other@));
                    }
                    return true;
                }
                j += 1;
            }
            i += 1;
        }
        false
    }
}

/// One self-test of a correction rule: a text and the suggestion it should
/// produce, none when the rule must stay silent.
pub struct Test {
    pub text: String,
    pub suggestion: Option<Suggestion>,
}

/// The expected change of one disambiguation self-test.
pub struct DisambiguationChange {
    pub text: String,
    pub char_span: (usize, usize),
    pub before: crate::word::Word,
    pub after: crate::word::Word,
}

/// One self-test of a disambiguation rule.
pub enum DisambiguationTest {
    Unchanged(String),
    Changed(DisambiguationChange),
}

/// The semantic filter a disambiguation rule may carry: a thin adapter
/// that here requires every token of one group to carry some tag with the
/// given part of speech.
pub struct Filter {
    pub id: usize,
    pub pos: String,
}

/// Whether some tag of the token carries this part of speech.
pub open spec fn token_has_pos(t: TokenV, pos: Seq<char>) -> bool {
    exists|q: int| 0 <= q < t.word.tags.len() && (#[trigger] t.word.tags[q]).pos == pos
}

/// Every token of the range has some tag with this part of speech.
pub open spec fn range_tokens_have_pos(
    tokensv: Seq<TokenV>,
    tr: (usize, usize),
    pos: Seq<char>,
) -> bool {
    forall|ti: int|
        tr.0 <= ti < tr.1 && 0 <= ti < tokensv.len() ==> token_has_pos(
            #[trigger] tokensv[ti],
            pos,
        )
}

/// What the filter accepts.
pub open spec fn filter_keep_spec(f: &Filter, g: MatchGraphV, tokensv: Seq<TokenV>) -> bool {
    match graph_index_of(g, f.id) {
        None => false,
        Some(idx) => range_tokens_have_pos(tokensv, g.groups[idx as int].token_range, f.pos@),
    }
}

impl Filter {
    /// Whether the filter keeps this match.
    pub fn keep(&self, graph: &MatchGraph, tokens: &Vec<Token>) -> (r: bool)
        ensures
            r == filter_keep_spec(self, graph@, tokens_view(tokens@)),
    {
        let ghost tv = tokens_view(tokens@);
        let idx = match graph.get_index(self.id) {
            Some(idx) => idx,
            None => {
                return false;
            },
        };
        let tr = graph.groups[idx].token_range;
        let mut ti: usize = tr.0;
        if ti >= tr.1 {
            proof {
                assert(range_tokens_have_pos(tv, tr, self.pos@));
            }
            return true;
        }
        while ti < tr.1
            invariant
                tr.0 <= ti <= tr.1,
                tv == tokens_view(tokens@),
                graph_index_of(graph@, self.id) == Some(idx),
                idx < graph@.groups.len(),
                tr == graph@.groups[idx as int].token_range,
                range_tokens_have_pos(tv, (tr.0, ti), self.pos@),
            decreases tr.1 - ti,
        {
            if ti < tokens.len() {
                proof {
                    assert(tv[ti as int] == tokens@[ti as int]@);
                }
                let tags = &tokens[ti].word.tags;
                let mut found: bool = false;
                let mut q: usize = 0;
                while q < tags.len()
                    invariant
                        q <= tags@.len(),
                        ti < tokens@.len(),
                        tags == &tokens@[ti as int].word.tags,
                        tv == tokens_view(tokens@),
                        tv[ti as int].word.tags == tags_view(tags@),
                        found == exists|p: int|
                            0 <= p < q && (#[trigger] tags_view(tags@)[p]).pos == self.pos@,
                    decreases tags@.len() - q,
                {
                    proof {
                        assert(tags_view(tags@)[q as int] == tags@[q as int]@);
                    }
                    if tags[q].pos == self.pos {
                        found = true;
                    }
                    q += 1;
                }
                if !found {
                    proof {
                        assert forall|q2: int|
                            0 <= q2 < tv[ti as int].word.tags.len() implies (#[trigger] tv[
                            ti as int
                        ].word.tags[q2]).pos != self.pos@ by {
                            assert(tags_view(tags@)[q2].pos != self.pos@);
                        }
                        assert(!token_has_pos(tv[ti as int], self.pos@));
                        assert(!range_tokens_have_pos(tv, tr, self.pos@));
                    }
                    return false;
                }
                proof {
                    let p = choose|p: int|
                        0 <= p < tags_view(tags@).len() && (#[trigger] tags_view(tags@)[p]).pos
                            == self.pos@;
                    assert((#[trigger] tv[ti as int].word.tags[p]).pos == self.pos@);
                    assert(token_has_pos(tv[ti as int], self.pos@));
                    assert forall|t2: int|
                        tr.0 <= t2 < ti + 1 && 0 <= t2 < tv.len() implies token_has_pos(
                        #[trigger] tv[t2],
                        self.pos@,
                    ) by {
                        if t2 < ti {
                            assert(range_tokens_have_pos(tv, (tr.0, ti), self.pos@));
                        }
                    }
                    assert(range_tokens_have_pos(tv, (tr.0, (ti + 1) as usize), self.pos@));
                }
            } else {
                proof {
                    assert forall|t2: int|
                        tr.0 <= t2 < ti + 1 && 0 <= t2 < tv.len() implies token_has_pos(
                        #[trigger] tv[t2],
                        self.pos@,
                    ) by {
                        if t2 < ti {
                            assert(range_tokens_have_pos(tv, (tr.0, ti), self.pos@));
                        }
                    }
                    assert(range_tokens_have_pos(tv, (tr.0, (ti + 1) as usize), self.pos@));
                }
            }
            ti += 1;
        }
        proof {
            assert(range_tokens_have_pos(tv, tr, self.pos@));
        }
        true
    }
}

/// The graphs the optional filter keeps.
pub open spec fn filter_graphs(
    f: &Option<Filter>,
    graphs: Seq<MatchGraphV>,
    tokensv: Seq<TokenV>,
) -> Seq<MatchGraphV>
    decreases graphs.len(),
{
    if graphs.len() == 0 {
        Seq::empty()
    } else {
        let rest = filter_graphs(f, graphs.skip(1), tokensv);
        match f {
            None => seq![graphs[0]] + rest,
            Some(flt) => if filter_keep_spec(flt, graphs[0], tokensv) {
                seq![graphs[0]] + rest
            } else {
                rest
            },
        }
    }
}

/// The byte spans of the tokens one rule group covers (empty when the id
/// does not resolve).
pub open spec fn group_byte_spans(
    g: MatchGraphV,
    id: usize,
    tokensv: Seq<TokenV>,
) -> Seq<(usize, usize)> {
    match graph_index_of(g, id) {
        None => Seq::empty(),
        Some(idx) => {
            let tr = g.groups[idx as int].token_range;
            Seq::new(
                if tr.0 <= tr.1 {
                    (tr.1 - tr.0) as nat
                } else {
                    0
                },
                |k: int|
                    if 0 <= tr.0 + k < tokensv.len() {
                        tokensv[tr.0 + k].byte_span
                    } else {
                        (0usize, 0usize)
                    },
            )
        },
    }
}

/// The byte-span sets of one graph's rule groups `start..end`.
pub open spec fn graph_byte_spans(
    g: MatchGraphV,
    start: usize,
    end: usize,
    tokensv: Seq<TokenV>,
) -> Seq<Seq<(usize, usize)>> {
    Seq::new(
        if start <= end {
            (end - start) as nat
        } else {
            0
        },
        |k: int| group_byte_spans(g, (start + k) as usize, tokensv),
    )
}

/// The indices of `remaining` whose token's byte span lies in the set.
pub open spec fn pick_indices(
    remaining: Seq<usize>,
    tokensv: Seq<TokenV>,
    set: Seq<(usize, usize)>,
) -> Seq<usize>
    decreases remaining.len(),
{
    if remaining.len() == 0 {
        Seq::empty()
    } else if 0 <= remaining[0] < tokensv.len() && set.contains(
        tokensv[remaining[0] as int].byte_span,
    ) {
        seq![remaining[0]] + pick_indices(remaining.skip(1), tokensv, set)
    } else {
        pick_indices(remaining.skip(1), tokensv, set)
    }
}

/// The indices of `remaining` the set does not pick.
pub open spec fn rest_indices(
    remaining: Seq<usize>,
    tokensv: Seq<TokenV>,
    set: Seq<(usize, usize)>,
) -> Seq<usize>
    decreases remaining.len(),
{
    if remaining.len() == 0 {
        Seq::empty()
    } else if 0 <= remaining[0] < tokensv.len() && set.contains(
        tokensv[remaining[0] as int].byte_span,
    ) {
        rest_indices(remaining.skip(1), tokensv, set)
    } else {
        seq![remaining[0]] + rest_indices(remaining.skip(1), tokensv, set)
    }
}

/// Pull one token group per byte-span set, greedily left to right; a token
/// taken once is gone.
pub open spec fn pull_groups_rec(
    remaining: Seq<usize>,
    tokensv: Seq<TokenV>,
    spans: Seq<Seq<(usize, usize)>>,
) -> Seq<Seq<usize>>
    decreases spans.len(),
{
    if spans.len() == 0 {
        Seq::empty()
    } else {
        seq![pick_indices(remaining, tokensv, spans[0])] + pull_groups_rec(
            rest_indices(remaining, tokensv, spans[0]),
            tokensv,
            spans.skip(1),
        )
    }
}

/// All token indices, in order.
pub open spec fn all_indices(n: nat) -> Seq<usize> {
    Seq::new(n, |k: int| k as usize)
}

/// Apply the operator once per matched graph, regrouping the tokens each
/// time by the graph's byte spans.
pub open spec fn apply_spans_fold(
    op: &Disambiguation,
    tokensv: Seq<TokenV>,
    all_spans: Seq<Seq<Seq<(usize, usize)>>>,
    retain_last: bool,
) -> Seq<TokenV>
    decreases all_spans.len(),
{
    if all_spans.len() == 0 {
        tokensv
    } else {
        apply_spans_fold(
            op,
            disamb_apply_spec(
                op,
                tokensv,
                pull_groups_rec(all_indices(tokensv.len()), tokensv, all_spans[0]),
                retain_last,
            ),
            all_spans.skip(1),
            retain_last,
        )
    }
}

/// The skip mask a disambiguation rule refines: where an anchor is still
/// live, a token pattern's negative filter may rule it out.
pub open spec fn refine_mask_spec(e: &Engine, tokensv: Seq<TokenV>, mask: Seq<bool>) -> Seq<bool> {
    Seq::new(
        mask.len(),
        |i: int|
            mask[i] || (match e {
                Engine::Token(te) => if 0 <= i < tokensv.len() {
                    crate::composition::can_not_match_spec(&te.composition, tokensv[i].word.text)
                } else {
                    false
                },
                Engine::Text(_, _) => false,
            }),
    )
}

/// A rule that narrows tokens' tag sets.
pub struct DisambiguationRule {
    pub id: String,
    pub engine: Engine,
    pub disambiguations: Disambiguation,
    pub filter: Option<Filter>,
    pub start: usize,
    pub end: usize,
    pub tests: Vec<DisambiguationTest>,
}

/// The byte-span sets of every surviving graph.
pub open spec fn graphs_byte_spans(
    graphs: Seq<MatchGraphV>,
    start: usize,
    end: usize,
    tokensv: Seq<TokenV>,
) -> Seq<Seq<Seq<(usize, usize)>>> {
    graphs.map_values(|g: MatchGraphV| graph_byte_spans(g, start, end, tokensv))
}

/// What applying a disambiguation rule yields: the rewritten tokens, and
/// the finalized tokens where they are still valid (`None` after any
/// mutation).
pub open spec fn disamb_rule_apply_spec(
    rule: &DisambiguationRule,
    tokensv: Seq<TokenV>,
    maskv: Seq<bool>,
    completev: Option<Seq<TokenV>>,
    retain_last: bool,
) -> (Seq<TokenV>, Option<Seq<TokenV>>) {
    if rule.disambiguations is Nop {
        (tokensv, None)
    } else {
        let refined = refine_mask_spec(&rule.engine, tokensv, maskv);
        if forall|i: int| 0 <= i < refined.len() ==> refined[i] {
            (tokensv, None)
        } else {
            let complete = match completev {
                Some(c) => c,
                None => finalize_spec(
                    tokensv,
                    if tokensv.len() > 0 {
                        tokensv[0].text
                    } else {
                        Seq::empty()
                    },
                ),
            };
            let full_mask = seq![false] + refined;
            let graphs = engine_matches_spec(
                &rule.engine,
                complete,
                Some(full_mask),
                rule.start,
                rule.end,
            );
            let kept = filter_graphs(&rule.filter, graphs, complete);
            if kept.len() == 0 {
                (tokensv, Some(complete))
            } else {
                (
                    apply_spans_fold(
                        &rule.disambiguations,
                        tokensv,
                        graphs_byte_spans(kept, rule.start, rule.end, complete),
                        retain_last,
                    ),
                    None,
                )
            }
        }
    }
}

/// Whether the set holds this byte span.
fn spans_contain(set: &Vec<(usize, usize)>, x: (usize, usize)) -> (r: bool)
    ensures
        r == set@.contains(x),
{
    let mut i: usize = 0;
    while i < set.len()
        invariant
            i <= set@.len(),
            forall|k: int| 0 <= k < i ==> set@[k] != x,
        decreases set@.len() - i,
    {
        if set[i].0 == x.0 && set[i].1 == x.1 {
            proof {
                assert(set@[i as int] == x);
            }
            return true;
        }
        i += 1;
    }
    proof {
        if set@.contains(x) {
            let k = choose|k: int| 0 <= k < set@.len() && set@[k] == x;
        }
    }
    false
}

/// Split the remaining indices into those whose token's byte span lies in
/// the set and the rest, keeping order.
fn partition_remaining(
    remaining: &Vec<usize>,
    tokens: &Vec<IncompleteToken>,
    set: &Vec<(usize, usize)>,
) -> (r: (Vec<usize>, Vec<usize>))
    ensures
        r.0@ == pick_indices(remaining@, itokens_view(tokens@), set@),
        r.1@ == rest_indices(remaining@, itokens_view(tokens@), set@),
{
    let ghost tv = itokens_view(tokens@);
    let ghost rv = remaining@;
    let mut picked: Vec<usize> = Vec::new();
    let mut rest: Vec<usize> = Vec::new();
    let mut i: usize = 0;
    proof {
        assert(rv.skip(0) =~= rv);
        assert(picked@ + pick_indices(rv, tv, set@) =~= pick_indices(rv, tv, set@));
        assert(rest@ + rest_indices(rv, tv, set@) =~= rest_indices(rv, tv, set@));
    }
    while i < remaining.len()
        invariant
            i <= rv.len(),
            rv == remaining@,
            tv == itokens_view(tokens@),
            pick_indices(rv, tv, set@) == picked@ + pick_indices(rv.skip(i as int), tv, set@),
            rest_indices(rv, tv, set@) == rest@ + rest_indices(rv.skip(i as int), tv, set@),
        decreases rv.len() - i,
    {
        proof {
            assert(rv.skip(i as int)[0] == rv[i as int]);
            assert(rv.skip(i as int).skip(1) =~= rv.skip(i + 1 as int));
        }
        let idx = remaining[i];
        let hit: bool;
        if idx < tokens.len() {
            proof {
                assert(tv[idx as int] == tokens@[idx as int]@);
            }
            hit = spans_contain(set, tokens[idx].byte_span);
        } else {
            hit = false;
        }
        let ghost prev_p = picked@;
        let ghost prev_r = rest@;
        if hit {
            picked.push(idx);
            proof {
                assert(prev_p + (seq![rv[i as int]] + pick_indices(
                    rv.skip(i + 1 as int),
                    tv,
                    set@,
                )) =~= picked@ + pick_indices(rv.skip(i + 1 as int), tv, set@));
            }
        } else {
            rest.push(idx);
            proof {
                assert(prev_r + (seq![rv[i as int]] + rest_indices(
                    rv.skip(i + 1 as int),
                    tv,
                    set@,
                )) =~= rest@ + rest_indices(rv.skip(i + 1 as int), tv, set@));
            }
        }
        i += 1;
    }
    proof {
        assert(rv.skip(rv.len() as int) =~= Seq::<usize>::empty());
        assert(picked@ + Seq::<usize>::empty() =~= picked@);
        assert(rest@ + Seq::<usize>::empty() =~= rest@);
    }
    (picked, rest)
}

/// The byte spans of one graph's rule groups, in group order.
fn collect_graph_spans(
    graph: &MatchGraph,
    start: usize,
    end: usize,
    complete: &Vec<Token>,
) -> (r: Vec<Vec<(usize, usize)>>)
    requires
        start <= end,
    ensures
        r@.map_values(|v: Vec<(usize, usize)>| v@) == graph_byte_spans(
            graph@,
            start,
            end,
            tokens_view(complete@),
        ),
{
    let ghost cv = tokens_view(complete@);
    let mut spans: Vec<Vec<(usize, usize)>> = Vec::new();
    let mut gid: usize = start;
    while gid < end
        invariant
            start <= gid <= end,
            cv == tokens_view(complete@),
            spans@.len() == gid - start,
            spans@.map_values(|v: Vec<(usize, usize)>| v@) == graph_byte_spans(
                graph@,
                start,
                end,
                cv,
            ).subrange(0, gid - start),
        decreases end - gid,
    {
        let mut one: Vec<(usize, usize)> = Vec::new();
        match graph.get_index(gid) {
            None => {},
            Some(idx) => {
                let tr = graph.groups[idx].token_range;
                if tr.0 <= tr.1 {
                    let mut k: usize = 0;
                    while k < tr.1 - tr.0
                        invariant
                            k <= tr.1 - tr.0,
                            tr.0 <= tr.1,
                            cv == tokens_view(complete@),
                            graph_index_of(graph@, gid) == Some(idx),
                            idx < graph@.groups.len(),
                            tr == graph@.groups[idx as int].token_range,
                            one@.len() == k,
                            one@ == group_byte_spans(graph@, gid, cv).subrange(0, k as int),
                        decreases tr.1 - tr.0 - k,
                    {
                        let t2 = tr.0 + k;
                        if t2 < complete.len() {
                            proof {
                                assert(cv[t2 as int] == complete@[t2 as int]@);
                            }
                            one.push(complete[t2].byte_span);
                        } else {
                            one.push((0, 0));
                        }
                        proof {
                            assert(one@ =~= group_byte_spans(graph@, gid, cv).subrange(
                                0,
                                k + 1 as int,
                            ));
                        }
                        k += 1;
                    }
                }
            },
        }
        proof {
            assert(one@ =~= group_byte_spans(graph@, gid, cv));
        }
        spans.push(one);
        proof {
            assert(graph_byte_spans(graph@, start, end, cv)[gid - start] == group_byte_spans(
                graph@,
                gid,
                cv,
            ));
            assert(spans@.map_values(|v: Vec<(usize, usize)>| v@) =~= graph_byte_spans(
                graph@,
                start,
                end,
                cv,
            ).subrange(0, gid + 1 - start));
        }
        gid += 1;
    }
    proof {
        assert(graph_byte_spans(graph@, start, end, cv).subrange(0, end - start)
            =~= graph_byte_spans(graph@, start, end, cv));
    }
    spans
}

impl DisambiguationRule {
    pub fn id(&self) -> (r: &str)
        ensures
            r@ == self.id@,
    {
        self.id.as_str()
    }

    pub fn set_id(&mut self, id: String)
        ensures
            final(self).id == id,
            final(self).engine == old(self).engine,
            final(self).disambiguations == old(self).disambiguations,
            final(self).filter == old(self).filter,
            final(self).start == old(self).start,
            final(self).end == old(self).end,
            final(self).tests == old(self).tests,
    {
        self.id = id;
    }

    /// Apply the rule: match the finalized tokens, group the incomplete
    /// tokens by the matches' byte spans, and run the operator on each
    /// group. The finalized tokens come back for reuse only when nothing
    /// was rewritten.
    pub fn apply(
        &self,
        tokens: Vec<IncompleteToken>,
        tokenizer: &Tokenizer,
        skip_mask: Vec<bool>,
        complete_tokens: Option<Vec<Token>>,
    ) -> (r: (Vec<IncompleteToken>, Option<Vec<Token>>))
        requires
            skip_mask@.len() == tokens@.len(),
            self.end > 0,
            self.start <= self.end,
            match complete_tokens {
                Some(c) => c@.len() > 0,
                None => true,
            },
        ensures
            ({
                let s = disamb_rule_apply_spec(
                    self,
                    itokens_view(tokens@),
                    skip_mask@,
                    match complete_tokens {
                        Some(c) => Some(tokens_view(c@)),
                        None => None,
                    },
                    tokenizer.options.retain_last,
                );
                itokens_view(r.0@) == s.0 && (match (r.1, s.1) {
                    (Some(c), Some(cv)) => tokens_view(c@) == cv,
                    (None, None) => true,
                    _ => false,
                })
            }),
    {
        let ghost tv0 = itokens_view(tokens@);
        let ghost maskv = skip_mask@;
        let retain_last = tokenizer.options.retain_last;
        let mut tokens = tokens;
        match &self.disambiguations {
            Disambiguation::Nop => {
                return (tokens, None);
            },
            _ => {},
        }
        // refine the skip mask with the pattern's negative filter
        let mut mask = skip_mask;
        let mut i: usize = 0;
        while i < mask.len()
            invariant
                i <= mask@.len(),
                mask@.len() == maskv.len() == tokens@.len(),
                tv0 == itokens_view(tokens@),
                forall|k: int|
                    0 <= k < i ==> mask@[k] == refine_mask_spec(&self.engine, tv0, maskv)[k],
                forall|k: int| i <= k < mask@.len() ==> mask@[k] == maskv[k],
            decreases mask@.len() - i,
        {
            if !mask[i] {
                let blocked: bool = match &self.engine {
                    Engine::Token(te) => te.composition.can_not_match(
                        tokens[i].word.text.as_str(),
                    ),
                    Engine::Text(_, _) => false,
                };
                proof {
                    assert(tv0[i as int] == tokens@[i as int]@);
                }
                mask.set(i, blocked);
            }
            i += 1;
        }
        proof {
            assert(mask@ =~= refine_mask_spec(&self.engine, tv0, maskv));
        }
        // all anchors ruled out: nothing to do
        let mut all_true: bool = true;
        let mut i2: usize = 0;
        while i2 < mask.len()
            invariant
                i2 <= mask@.len(),
                all_true == (forall|k: int| 0 <= k < i2 ==> mask@[k]),
            decreases mask@.len() - i2,
        {
            if !mask[i2] {
                all_true = false;
            }
            i2 += 1;
        }
        if all_true {
            return (tokens, None);
        }
        let complete: Vec<Token> = match complete_tokens {
            Some(c) => c,
            None => finalize(&tokens),
        };
        let ghost cv = tokens_view(complete@);
        proof {
            assert(cv.len() == complete@.len());
            assert(complete@.len() > 0);
        }
        // align the mask with the synthetic sentence-start token
        let mut full_mask: Vec<bool> = Vec::new();
        full_mask.push(false);
        let mut i3: usize = 0;
        while i3 < mask.len()
            invariant
                i3 <= mask@.len(),
                full_mask@ == seq![false] + mask@.subrange(0, i3 as int),
            decreases mask@.len() - i3,
        {
            full_mask.push(mask[i3]);
            proof {
                assert(full_mask@ =~= seq![false] + mask@.subrange(0, i3 + 1 as int));
            }
            i3 += 1;
        }
        proof {
            assert(mask@.subrange(0, mask@.len() as int) =~= mask@);
            assert(full_mask@ == seq![false] + mask@);
        }
        let graphs = self.engine.get_matches(&complete, Some(&full_mask), self.start, self.end);
        let ghost graphsv = engine_matches_spec(
            &self.engine,
            cv,
            Some(seq![false] + mask@),
            self.start,
            self.end,
        );
        // drop the matches the semantic filter rejects
        let mut kept: Vec<MatchGraph> = Vec::new();
        let mut gi: usize = 0;
        proof {
            assert(graphs_view(graphs@) == graphsv);
            assert(graphsv.skip(0) =~= graphsv);
            assert(graphs_view(kept@) + filter_graphs(&self.filter, graphsv, cv) =~= filter_graphs(
                &self.filter,
                graphsv,
                cv,
            ));
        }
        while gi < graphs.len()
            invariant
                gi <= graphs@.len(),
                graphs_view(graphs@) == graphsv,
                cv == tokens_view(complete@),
                filter_graphs(&self.filter, graphsv, cv) == graphs_view(kept@) + filter_graphs(
                    &self.filter,
                    graphsv.skip(gi as int),
                    cv,
                ),
            decreases graphs@.len() - gi,
        {
            proof {
                assert(graphsv.skip(gi as int)[0] == graphsv[gi as int]);
                assert(graphsv[gi as int] == graphs@[gi as int]@);
                assert(graphsv.skip(gi as int).skip(1) =~= graphsv.skip(gi + 1 as int));
            }
            let keep_it: bool = match &self.filter {
                None => true,
                Some(flt) => flt.keep(&graphs[gi], &complete),
            };
            let ghost prev = graphs_view(kept@);
            if keep_it {
                let g = &graphs[gi];
                let copied = MatchGraph {
                    groups: crate::engine::copy_groups(&g.groups),
                    id_to_index: crate::engine::copy_pairs(&g.id_to_index),
                    text: g.text.clone(),
                };
                proof {
                    assert(copied@ =~= graphs@[gi as int]@);
                }
                kept.push(copied);
                proof {
                    assert(graphs_view(kept@) =~= prev.push(graphsv[gi as int]));
                    assert(prev + (seq![graphsv[gi as int]] + filter_graphs(
                        &self.filter,
                        graphsv.skip(gi + 1 as int),
                        cv,
                    )) =~= graphs_view(kept@) + filter_graphs(
                        &self.filter,
                        graphsv.skip(gi + 1 as int),
                        cv,
                    ));
                }
            }
            gi += 1;
        }
        proof {
            assert(graphsv.skip(graphsv.len() as int) =~= Seq::<MatchGraphV>::empty());
            assert(graphs_view(kept@) + Seq::<MatchGraphV>::empty() =~= graphs_view(kept@));
        }
        if kept.len() == 0 {
            return (tokens, Some(complete));
        }
        let ghost keptv = graphs_view(kept@);
        let ghost all_spans = graphs_byte_spans(keptv, self.start, self.end, cv);
        // regroup and rewrite, one surviving match at a time
        let mut m: usize = 0;
        proof {
            assert(all_spans.skip(0) =~= all_spans);
        }
        while m < kept.len()
            invariant
                m <= kept@.len(),
                graphs_view(kept@) == keptv,
                cv == tokens_view(complete@),
                all_spans == graphs_byte_spans(keptv, self.start, self.end, cv),
                self.start <= self.end,
                retain_last == tokenizer.options.retain_last,
                apply_spans_fold(&self.disambiguations, tv0, all_spans, retain_last)
                    == apply_spans_fold(
                    &self.disambiguations,
                    itokens_view(tokens@),
                    all_spans.skip(m as int),
                    retain_last,
                ),
            decreases kept@.len() - m,
        {
            proof {
                assert(all_spans.skip(m as int)[0] == all_spans[m as int]);
                assert(all_spans[m as int] == graph_byte_spans(
                    keptv[m as int],
                    self.start,
                    self.end,
                    cv,
                ));
                assert(keptv[m as int] == kept@[m as int]@);
                assert(all_spans.skip(m as int).skip(1) =~= all_spans.skip(m + 1 as int));
            }
            let spans = collect_graph_spans(&kept[m], self.start, self.end, &complete);
            let ghost spansv = spans@.map_values(|v: Vec<(usize, usize)>| v@);
            let ghost cur = itokens_view(tokens@);
            // pull the token groups, greedily left to right
            let mut remaining: Vec<usize> = Vec::new();
            let mut ri: usize = 0;
            while ri < tokens.len()
                invariant
                    ri <= tokens@.len(),
                    remaining@ == all_indices(tokens@.len() as nat).subrange(0, ri as int),
                decreases tokens@.len() - ri,
            {
                remaining.push(ri);
                proof {
                    assert(remaining@ =~= all_indices(tokens@.len() as nat).subrange(
                        0,
                        ri + 1 as int,
                    ));
                }
                ri += 1;
            }
            proof {
                assert(all_indices(tokens@.len() as nat).subrange(
                    0,
                    tokens@.len() as int,
                ) =~= all_indices(tokens@.len() as nat));
            }
            let mut groups_vec: Vec<Vec<usize>> = Vec::new();
            let mut si: usize = 0;
            proof {
                assert(spansv.skip(0) =~= spansv);
                assert(groups_view(groups_vec@) + pull_groups_rec(remaining@, cur, spansv)
                    =~= pull_groups_rec(remaining@, cur, spansv));
            }
            while si < spans.len()
                invariant
                    si <= spansv.len(),
                    spansv == spans@.map_values(|v: Vec<(usize, usize)>| v@),
                    cur == itokens_view(tokens@),
                    pull_groups_rec(all_indices(tokens@.len() as nat), cur, spansv)
                        == groups_view(groups_vec@) + pull_groups_rec(
                        remaining@,
                        cur,
                        spansv.skip(si as int),
                    ),
                decreases spansv.len() - si,
            {
                proof {
                    assert(spansv.skip(si as int)[0] == spansv[si as int]);
                    assert(spansv[si as int] == spans@[si as int]@);
                    assert(spansv.skip(si as int).skip(1) =~= spansv.skip(si + 1 as int));
                }
                let ghost old_remaining = remaining@;
                let (picked, rest) = partition_remaining(&remaining, &tokens, &spans[si]);
                let ghost prev_groups = groups_view(groups_vec@);
                let ghost pickedv = picked@;
                groups_vec.push(picked);
                remaining = rest;
                proof {
                    assert(pickedv == pick_indices(old_remaining, cur, spansv[si as int]));
                    assert(remaining@ == rest_indices(old_remaining, cur, spansv[si as int]));
                    assert(groups_view(groups_vec@) =~= prev_groups.push(pickedv));
                    assert(pull_groups_rec(old_remaining, cur, spansv.skip(si as int)) == seq![
                        pickedv,
                    ] + pull_groups_rec(remaining@, cur, spansv.skip(si + 1 as int)));
                    assert(prev_groups + (seq![pickedv] + pull_groups_rec(
                        remaining@,
                        cur,
                        spansv.skip(si + 1 as int),
                    )) =~= groups_view(groups_vec@) + pull_groups_rec(
                        remaining@,
                        cur,
                        spansv.skip(si + 1 as int),
                    ));
                }
                si += 1;
            }
            proof {
                assert(spansv.skip(spansv.len() as int) =~= Seq::<Seq<(usize, usize)>>::empty());
                assert(groups_view(groups_vec@) + Seq::<Seq<usize>>::empty() =~= groups_view(
                    groups_vec@,
                ));
                assert(groups_view(groups_vec@) == pull_groups_rec(
                    all_indices(tokens@.len() as nat),
                    cur,
                    spansv,
                ));
            }
            self.disambiguations.apply(&mut tokens, &groups_vec, retain_last);
            m += 1;
        }
        proof {
            assert(all_spans.skip(all_spans.len() as int) =~= Seq::<Seq<Seq<(usize, usize)>>>::empty());
        }
        (tokens, None)
    }
}

/// Every disambiguation rule's group window is sound.
pub open spec fn drules_wf(rules: Seq<DisambiguationRule>) -> bool {
    forall|k: int|
        0 <= k < rules.len() ==> (#[trigger] rules[k]).end > 0 && rules[k].start <= rules[k].end
}

/// A mask that rules no anchor out.
pub open spec fn all_false_mask(n: nat) -> Seq<bool> {
    Seq::new(n, |k: int| false)
}

/// The tokens after the rules up to (but not including) the named one, each
/// applied with a fresh mask, the finalized tokens chained through.
pub open spec fn disambiguate_rec(
    rules: Seq<DisambiguationRule>,
    i: int,
    tv: Seq<TokenV>,
    cv: Option<Seq<TokenV>>,
    retain_last: bool,
    upto: Option<Seq<char>>,
) -> Seq<TokenV>
    decreases rules.len() - i,
{
    if i < 0 || i >= rules.len() {
        tv
    } else if (match upto {
        Some(id) => rules[i].id@ == id,
        None => false,
    }) {
        tv
    } else {
        let s = disamb_rule_apply_spec(&rules[i], tv, all_false_mask(tv.len()), cv, retain_last);
        disambiguate_rec(rules, i + 1, s.0, s.1, retain_last, upto)
    }
}

impl Tokenizer {
    /// Run the disambiguation rules in order, stopping before the named
    /// one when a stop id is given.
    fn disambiguate_inner(
        &self,
        tokens: &Vec<IncompleteToken>,
        upto: Option<&String>,
    ) -> (r: Vec<IncompleteToken>)
        requires
            drules_wf(self.rules@),
        ensures
            itokens_view(r@) == disambiguate_rec(
                self.rules@,
                0,
                itokens_view(tokens@),
                None,
                self.options.retain_last,
                match upto {
                    Some(id) => Some(id@),
                    None => None,
                },
            ),
    {
        let ghost tv0 = itokens_view(tokens@);
        let ghost uptov: Option<Seq<char>> = match upto {
            Some(id) => Some(id@),
            None => None,
        };
        let retain_last = self.options.retain_last;
        let mut cur = crate::word::duplicate_itokens(tokens);
        let mut complete: Option<Vec<Token>> = None;
        let mut i: usize = 0;
        while i < self.rules.len()
            invariant
                i <= self.rules@.len(),
                drules_wf(self.rules@),
                tv0 == itokens_view(tokens@),
                retain_last == self.options.retain_last,
                uptov == (match upto {
                    Some(id) => Some(id@),
                    None => None,
                }),
                match complete {
                    Some(ref c) => c@.len() > 0,
                    None => true,
                },
                disambiguate_rec(self.rules@, 0, tv0, None, retain_last, uptov)
                    == disambiguate_rec(
                    self.rules@,
                    i as int,
                    itokens_view(cur@),
                    match complete {
                        Some(ref c) => Some(tokens_view(c@)),
                        None => None,
                    },
                    retain_last,
                    uptov,
                ),
            decreases self.rules@.len() - i,
        {
            let rule = &self.rules[i];
            let stop: bool = match upto {
                Some(id) => rule.id == *id,
                None => false,
            };
            if stop {
                proof {
                    assert(self.rules@[i as int].id@ == uptov->0);
                    assert(disambiguate_rec(
                        self.rules@,
                        i as int,
                        itokens_view(cur@),
                        match complete {
                            Some(ref c) => Some(tokens_view(c@)),
                            None => None,
                        },
                        retain_last,
                        uptov,
                    ) == itokens_view(cur@));
                }
                return cur;
            }
            let mut mask: Vec<bool> = Vec::new();
            let mut k: usize = 0;
            while k < cur.len()
                invariant
                    k <= cur@.len(),
                    mask@.len() == k,
                    forall|p: int| 0 <= p < k ==> !(#[trigger] mask@[p]),
                decreases cur@.len() - k,
            {
                mask.push(false);
                k += 1;
            }
            proof {
                assert(mask@ =~= all_false_mask(itokens_view(cur@).len()));
            }
            let (t2, c2) = rule.apply(cur, self, mask, complete);
            cur = t2;
            complete = c2;
            proof {
                assert(match complete {
                    Some(ref c) => c@.len() > 0,
                    None => true,
                }) by {
                    if complete is Some {
                        assert(tokens_view(complete->0@).len() == complete->0@.len());
                    }
                }
            }
            i += 1;
        }
        cur
    }

    /// Run every disambiguation rule in order.
    pub fn disambiguate(&self, tokens: Vec<IncompleteToken>) -> (r: Vec<IncompleteToken>)
        requires
            drules_wf(self.rules@),
        ensures
            itokens_view(r@) == disambiguate_rec(
                self.rules@,
                0,
                itokens_view(tokens@),
                None,
                self.options.retain_last,
                None,
            ),
    {
        self.disambiguate_inner(&tokens, None)
    }

    /// Run the disambiguation rules up to (but not including) the one with
    /// this id.
    pub fn disambiguate_up_to_id(&self, tokens: Vec<IncompleteToken>, id: &String) -> (r: Vec<
        IncompleteToken,
    >)
        requires
            drules_wf(self.rules@),
        ensures
            itokens_view(r@) == disambiguate_rec(
                self.rules@,
                0,
                itokens_view(tokens@),
                None,
                self.options.retain_last,
                Some(id@),
            ),
    {
        self.disambiguate_inner(&tokens, Some(id))
    }
}

/// The first token whose character span equals the expected one.
pub open spec fn find_span(tv: Seq<TokenV>, span: (usize, usize)) -> Option<int>
    decreases tv.len(),
{
    if tv.len() == 0 {
        None
    } else if tv[0].char_span == span {
        Some(0int)
    } else {
        match find_span(tv.skip(1), span) {
            None => None,
            Some(i) => Some(i + 1),
        }
    }
}

/// Whether two token lists are identical, bit for bit.
fn tokens_identical(a: &Vec<IncompleteToken>, b: &Vec<IncompleteToken>) -> (r: bool)
    ensures
        r == (itokens_view(a@) == itokens_view(b@)),
{
    let ghost av = itokens_view(a@);
    let ghost bv = itokens_view(b@);
    if a.len() != b.len() {
        proof {
            assert(av.len() != bv.len());
        }
        return false;
    }
    let mut i: usize = 0;
    while i < a.len()
        invariant
            i <= a@.len(),
            a@.len() == b@.len(),
            av == itokens_view(a@),
            bv == itokens_view(b@),
            forall|k: int| 0 <= k < i ==> av[k] == bv[k],
        decreases a@.len() - i,
    {
        proof {
            assert(av[i as int] == a@[i as int]@);
            assert(bv[i as int] == b@[i as int]@);
        }
        let ta = &a[i];
        let tb = &b[i];
        let mut same: bool = ta.text == tb.text && ta.word.text == tb.word.text && ta.char_span.0
            == tb.char_span.0 && ta.char_span.1 == tb.char_span.1 && ta.byte_span.0
            == tb.byte_span.0 && ta.byte_span.1 == tb.byte_span.1 && ta.word.tags.len()
            == tb.word.tags.len();
        if same {
            let mut q: usize = 0;
            while q < ta.word.tags.len() && same
                invariant
                    q <= ta.word.tags@.len(),
                    ta.word.tags@.len() == tb.word.tags@.len(),
                    ta == &a@[i as int],
                    tb == &b@[i as int],
                    i < a@.len() == b@.len(),
                    same ==> (forall|p: int|
                        0 <= p < q ==> (#[trigger] tags_view(ta.word.tags@)[p]) == tags_view(
                            tb.word.tags@,
                        )[p]),
                    !same ==> tags_view(ta.word.tags@) != tags_view(tb.word.tags@),
                decreases ta.word.tags@.len() - q + (if same { 1int } else { 0int }),
            {
                proof {
                    assert(tags_view(ta.word.tags@)[q as int] == ta.word.tags@[q as int]@);
                    assert(tags_view(tb.word.tags@)[q as int] == tb.word.tags@[q as int]@);
                }
                if !ta.word.tags[q].matches(&tb.word.tags[q]) {
                    same = false;
                    proof {
                        assert(tags_view(ta.word.tags@)[q as int] != tags_view(tb.word.tags@)[
                            q as int
                        ]);
                    }
                } else {
                    q += 1;
                }
            }
            proof {
                if same {
                    assert(tags_view(ta.word.tags@) =~= tags_view(tb.word.tags@));
                }
            }
        }
        if !same {
            proof {
                if av[i as int] == bv[i as int] {
                    assert(ta.text@ == tb.text@);
                    assert(ta.word.text@ == tb.word.text@);
                    assert(ta.char_span == tb.char_span);
                    assert(ta.byte_span == tb.byte_span);
                    assert(tags_view(ta.word.tags@) == tags_view(tb.word.tags@));
                    assert(tags_view(ta.word.tags@).len() == ta.word.tags@.len());
                    assert(tags_view(tb.word.tags@).len() == tb.word.tags@.len());
                    assert(ta.word.tags@.len() == tb.word.tags@.len());
                    assert(false);
                }
                assert(av[i as int] != bv[i as int]);
            }
            return false;
        }
        proof {
            assert(av[i as int] =~= bv[i as int]);
        }
        i += 1;
    }
    proof {
        assert(av =~= bv);
    }
    true
}

/// The first token with the expected character span.
fn find_span_exec(tokens: &Vec<IncompleteToken>, span: (usize, usize)) -> (r: Option<usize>)
    ensures
        match find_span(itokens_view(tokens@), span) {
            None => r is None,
            Some(i) => r is Some && r->0 == i,
        },
        r is Some ==> r->0 < tokens@.len(),
{
    let ghost tv = itokens_view(tokens@);
    let mut k: usize = 0;
    proof {
        assert(tv.skip(0) =~= tv);
    }
    while k < tokens.len()
        invariant
            k <= tv.len(),
            tv == itokens_view(tokens@),
            find_span(tv, span) == (match find_span(tv.skip(k as int), span) {
                None => None::<int>,
                Some(i) => Some(i + k),
            }),
        decreases tv.len() - k,
    {
        proof {
            assert(tv.skip(k as int)[0] == tv[k as int]);
            assert(tv[k as int] == tokens@[k as int]@);
            assert(tv.skip(k as int).skip(1) =~= tv.skip(k + 1 as int));
        }
        if tokens[k].char_span.0 == span.0 && tokens[k].char_span.1 == span.1 {
            proof {
                assert(tv[k as int].char_span == span);
            }
            return Some(k);
        }
        k += 1;
    }
    proof {
        assert(tv.skip(tv.len() as int) =~= Seq::<TokenV>::empty());
    }
    None
}

/// The text one disambiguation self-test runs on.
pub open spec fn dtest_text(t: &DisambiguationTest) -> Seq<char> {
    match t {
        DisambiguationTest::Unchanged(x) => x@,
        DisambiguationTest::Changed(c) => c.text@,
    }
}

/// Whether one disambiguation self-test passes: tokenize, disambiguate up
/// to this rule, apply it with a fresh mask; an `Unchanged` test requires
/// the tokens bit-identical, a `Changed` test requires the token at the
/// expected span to carry the expected text and tag set (order ignored).
pub open spec fn dtest_pass(
    rule: &DisambiguationRule,
    tok: &Tokenizer,
    t: &DisambiguationTest,
) -> bool {
    let before = disambiguate_rec(
        tok.rules@,
        0,
        crate::tokenizer::tokenize_spec(
            dtest_text(t),
            &tok.tagger,
            tok.options.always_add_lower_tags,
        ),
        None,
        tok.options.retain_last,
        Some(rule.id@),
    );
    let after = disamb_rule_apply_spec(
        rule,
        before,
        all_false_mask(before.len()),
        None,
        tok.options.retain_last,
    ).0;
    match t {
        DisambiguationTest::Unchanged(_) => after == before,
        DisambiguationTest::Changed(c) => match (find_span(before, c.char_span), find_span(
            after,
            c.char_span,
        )) {
            (Some(_), Some(ai)) => after[ai].word.text == c.after@.text
                && crate::word::tags_set_eq_spec(after[ai].word.tags, c.after@.tags),
            _ => false,
        },
    }
}

/// Whether every self-test from `i` on passes.
pub open spec fn dtests_pass_from(rule: &DisambiguationRule, tok: &Tokenizer, i: int) -> bool
    decreases rule.tests@.len() - i,
{
    if i < 0 || i >= rule.tests@.len() {
        true
    } else {
        dtest_pass(rule, tok, &rule.tests@[i]) && dtests_pass_from(rule, tok, i + 1)
    }
}

/// Whether one correction self-test passes: the rule, run on the fully
/// disambiguated and finalized tokens, yields exactly the expected
/// suggestion (or none where none is expected); more than one suggestion
/// always fails.
pub open spec fn rtest_pass(rule: &Rule, tok: &Tokenizer, t: &Test) -> bool {
    let dis = disambiguate_rec(
        tok.rules@,
        0,
        crate::tokenizer::tokenize_spec(t.text@, &tok.tagger, tok.options.always_add_lower_tags),
        None,
        tok.options.retain_last,
        None,
    );
    let toks = finalize_spec(
        dis,
        if dis.len() > 0 {
            dis[0].text
        } else {
            Seq::empty()
        },
    );
    let sugs = rule_apply_spec(rule, toks, None, &tok.tagger, tok.options.always_add_lower_tags);
    if sugs.len() > 1 {
        false
    } else {
        match t.suggestion {
            Some(ref c) => sugs.len() == 1 && suggestions_match(c@, sugs[0]),
            None => sugs.len() == 0,
        }
    }
}

/// Whether every correction self-test from `i` on passes.
pub open spec fn rtests_pass_from(rule: &Rule, tok: &Tokenizer, i: int) -> bool
    decreases rule.tests@.len() - i,
{
    if i < 0 || i >= rule.tests@.len() {
        true
    } else {
        rtest_pass(rule, tok, &rule.tests@[i]) && rtests_pass_from(rule, tok, i + 1)
    }
}

/// The texts the rule's suggesters build for one match, in order; a failing
/// suggester contributes nothing.
pub open spec fn collect_texts(
    suggesters: Seq<Synthesizer>,
    g: MatchGraphV,
    tokensv: Seq<TokenV>,
    tagger: &Tagger,
    add_lower: bool,
    start: usize,
) -> Seq<Seq<char>>
    decreases suggesters.len(),
{
    if suggesters.len() == 0 {
        Seq::empty()
    } else {
        let rest = collect_texts(suggesters.skip(1), g, tokensv, tagger, add_lower, start);
        match synth_apply_spec(&suggesters[0], g, tokensv, tagger, add_lower, start) {
            Some(t) => seq![t] + rest,
            None => rest,
        }
    }
}

/// Whether every suggestion text begins with a no-space character.
pub open spec fn all_no_space(texts: Seq<Seq<char>>) -> bool {
    forall|k: int|
        0 <= k < texts.len() ==> (#[trigger] texts[k]).len() > 0 && is_no_space(texts[k][0])
}

/// The start the no-space absorption moves to: the end of the token before
/// the match's first token, where there is one.
pub open spec fn absorbed_start(
    g: MatchGraphV,
    si: int,
    tokensv: Seq<TokenV>,
    start0: usize,
) -> usize {
    match crate::synth::first_filled_group(g.groups, si) {
        None => start0,
        Some(gi) => {
            let ti = g.groups[gi].token_range.0 as int;
            if 0 < ti < tokensv.len() {
                tokensv[ti - 1].char_span.1
            } else {
                start0
            }
        },
    }
}

/// The suggestion texts with stray spaces before no-space characters
/// removed.
pub open spec fn fixed_texts(texts: Seq<Seq<char>>) -> Seq<Seq<char>> {
    texts.map_values(|t: Seq<char>| fix_nospace_rec(t))
}

/// A rule that proposes textual corrections.
pub struct Rule {
    pub id: String,
    pub engine: Engine,
    pub tests: Vec<Test>,
    pub suggesters: Vec<Synthesizer>,
    pub message: Synthesizer,
    pub start: usize,
    pub end: usize,
    pub on: bool,
}

/// The suggestion one match yields, if any: the suggesters' texts over the
/// span the rule's groups cover, the start absorbed backwards when every
/// text begins with a no-space character. A match without the rule's
/// groups or without a message is a rule authoring error and deliberately
/// yields nothing, since verified code cannot abort; so does a match
/// without any text, or with a backwards span.
pub open spec fn graph_suggestion(
    rule: &Rule,
    g: MatchGraphV,
    tokensv: Seq<TokenV>,
    tagger: &Tagger,
    add_lower: bool,
) -> Option<SuggestionV> {
    match (graph_index_of(g, rule.start), graph_index_of(g, (rule.end - 1) as usize)) {
        (Some(si), Some(ei)) => {
            let texts = collect_texts(rule.suggesters@, g, tokensv, tagger, add_lower, rule.start);
            if texts.len() == 0 {
                None
            } else {
                let start0 = g.groups[si as int].char_span.0;
                let start = if all_no_space(texts) {
                    absorbed_start(g, si as int, tokensv, start0)
                } else {
                    start0
                };
                let end = g.groups[ei as int].char_span.1;
                if start > end {
                    None
                } else {
                    match synth_apply_spec(&rule.message, g, tokensv, tagger, add_lower, rule.start) {
                        None => None,
                        Some(message) => Some(
                            SuggestionV {
                                source: rule.id@,
                                message,
                                start,
                                end,
                                text: fixed_texts(texts),
                            },
                        ),
                    }
                }
            }
        },
        _ => None,
    }
}

/// The suggestions of a list of matches.
pub open spec fn rule_apply_rec(
    rule: &Rule,
    graphs: Seq<MatchGraphV>,
    tokensv: Seq<TokenV>,
    tagger: &Tagger,
    add_lower: bool,
) -> Seq<SuggestionV>
    decreases graphs.len(),
{
    if graphs.len() == 0 {
        Seq::empty()
    } else {
        let rest = rule_apply_rec(rule, graphs.skip(1), tokensv, tagger, add_lower);
        match graph_suggestion(rule, graphs[0], tokensv, tagger, add_lower) {
            Some(s) => seq![s] + rest,
            None => rest,
        }
    }
}

/// What applying a correction rule yields.
pub open spec fn rule_apply_spec(
    rule: &Rule,
    tokensv: Seq<TokenV>,
    maskv: Option<Seq<bool>>,
    tagger: &Tagger,
    add_lower: bool,
) -> Seq<SuggestionV> {
    rule_apply_rec(
        rule,
        engine_matches_spec(&rule.engine, tokensv, maskv, rule.start, rule.end),
        tokensv,
        tagger,
        add_lower,
    )
}

impl Rule {
    pub fn id(&self) -> (r: &str)
        ensures
            r@ == self.id@,
    {
        self.id.as_str()
    }

    pub fn set_id(&mut self, id: String)
        ensures
            final(self).id == id,
            final(self).engine == old(self).engine,
            final(self).tests == old(self).tests,
            final(self).suggesters == old(self).suggesters,
            final(self).message == old(self).message,
            final(self).start == old(self).start,
            final(self).end == old(self).end,
            final(self).on == old(self).on,
    {
        self.id = id;
    }

    pub fn on(&self) -> (r: bool)
        ensures
            r == self.on,
    {
        self.on
    }

    pub fn set_on(&mut self, on: bool)
        ensures
            final(self).on == on,
            final(self).id == old(self).id,
            final(self).engine == old(self).engine,
            final(self).tests == old(self).tests,
            final(self).suggesters == old(self).suggesters,
            final(self).message == old(self).message,
            final(self).start == old(self).start,
            final(self).end == old(self).end,
    {
        self.on = on;
    }

    /// All suggestions of this rule over the sentence, in match order. No
    /// suggestion ever spans backwards.
    pub fn apply(
        &self,
        tokens: &Vec<Token>,
        skip_mask: Option<&Vec<bool>>,
        tokenizer: &Tokenizer,
    ) -> (r: Vec<Suggestion>)
        requires
            tokens@.len() > 0,
            self.end > 0,
        ensures
            suggestions_view(r@) == rule_apply_spec(
                self,
                tokens_view(tokens@),
                opt_mask_view(skip_mask),
                &tokenizer.tagger,
                tokenizer.options.always_add_lower_tags,
            ),
            forall|k: int| 0 <= k < r@.len() ==> (#[trigger] r@[k]).start <= r@[k].end,
    {
        let ghost tv = tokens_view(tokens@);
        let ghost add_lower = tokenizer.options.always_add_lower_tags;
        let graphs = self.engine.get_matches(tokens, skip_mask, self.start, self.end);
        let ghost graphsv = graphs_view(graphs@);
        let mut out: Vec<Suggestion> = Vec::new();
        let mut m: usize = 0;
        proof {
            assert(graphsv.skip(0) =~= graphsv);
            assert(suggestions_view(out@) + rule_apply_rec(self, graphsv, tv, &tokenizer.tagger, add_lower)
                =~= rule_apply_rec(self, graphsv, tv, &tokenizer.tagger, add_lower));
        }
        while m < graphs.len()
            invariant
                m <= graphs@.len(),
                graphs_view(graphs@) == graphsv,
                tv == tokens_view(tokens@),
                self.end > 0,
                tokens@.len() > 0,
                add_lower == tokenizer.options.always_add_lower_tags,
                rule_apply_rec(self, graphsv, tv, &tokenizer.tagger, add_lower)
                    == suggestions_view(out@) + rule_apply_rec(
                    self,
                    graphsv.skip(m as int),
                    tv,
                    &tokenizer.tagger,
                    add_lower,
                ),
                forall|k: int| 0 <= k < out@.len() ==> (#[trigger] out@[k]).start <= out@[k].end,
            decreases graphs@.len() - m,
        {
            proof {
                assert(graphsv.skip(m as int)[0] == graphsv[m as int]);
                assert(graphsv[m as int] == graphs@[m as int]@);
                assert(graphsv.skip(m as int).skip(1) =~= graphsv.skip(m + 1 as int));
            }
            let graph = &graphs[m];
            let ghost gv = graph@;
            let ghost prev = suggestions_view(out@);
            let start_idx = graph.get_index(self.start);
            let end_idx = graph.get_index(self.end - 1);
            if let (Some(si), Some(ei)) = (start_idx, end_idx) {
                // the suggesters' texts
                let mut texts: Vec<String> = Vec::new();
                let nsug = self.suggesters.len();
                let mut sg: usize = nsug;
                proof {
                    assert(self.suggesters@.skip(nsug as int) =~= Seq::<Synthesizer>::empty());
                    assert(strings_view(texts@) + Seq::<Seq<char>>::empty() =~= strings_view(
                        texts@,
                    ));
                }
                while sg > 0
                    invariant
                        sg <= nsug,
                        nsug == self.suggesters@.len(),
                        tv == tokens_view(tokens@),
                        gv == graph@,
                        add_lower == tokenizer.options.always_add_lower_tags,
                        strings_view(texts@) == collect_texts(
                            self.suggesters@.skip(sg as int),
                            gv,
                            tv,
                            &tokenizer.tagger,
                            add_lower,
                            self.start,
                        ),
                    decreases sg,
                {
                    sg -= 1;
                    proof {
                        assert(self.suggesters@.skip(sg as int)[0] == self.suggesters@[sg as int]);
                        assert(self.suggesters@.skip(sg as int).skip(1) =~= self.suggesters@.skip(
                            sg + 1 as int,
                        ));
                    }
                    if let Some(t) = self.suggesters[sg].apply(
                        graph,
                        tokens,
                        tokenizer,
                        self.start,
                        self.end,
                    ) {
                        let ghost prev_texts = strings_view(texts@);
                        let ghost prev_vec = texts@;
                        let ghost tvw = t@;
                        texts.insert(0, t);
                        proof {
                            assert(texts@ == prev_vec.insert(0, texts@[0]));
                            assert forall|k2: int| 0 <= k2 < strings_view(texts@).len() implies
                                strings_view(texts@)[k2] == (seq![tvw] + prev_texts)[k2] by {
                                assert(strings_view(texts@)[k2] == texts@[k2]@);
                                if k2 > 0 {
                                    assert(texts@[k2] == prev_vec[k2 - 1]);
                                    assert(prev_texts[k2 - 1] == prev_vec[k2 - 1]@);
                                } else {
                                    assert(texts@[0]@ == tvw);
                                }
                            }
                            assert(strings_view(texts@) =~= seq![tvw] + prev_texts);
                        }
                    }
                }
                proof {
                    assert(self.suggesters@.skip(0) =~= self.suggesters@);
                }
                if texts.len() > 0 {
                    let ghost textsv = strings_view(texts@);
                    // does every text begin with a no-space character?
                    let mut nospace: bool = true;
                    let mut k: usize = 0;
                    while k < texts.len() && nospace
                        invariant
                            k <= texts@.len(),
                            textsv == strings_view(texts@),
                            nospace ==> (forall|p: int|
                                0 <= p < k ==> (#[trigger] textsv[p]).len() > 0 && is_no_space(
                                    textsv[p][0],
                                )),
                            !nospace ==> !all_no_space(textsv),
                        decreases texts@.len() - k + (if nospace { 1int } else { 0int }),
                    {
                        proof {
                            assert(textsv[k as int] == texts@[k as int]@);
                        }
                        let tc = chars_of(texts[k].as_str());
                        if tc.len() == 0 || !is_no_space_char(tc[0]) {
                            nospace = false;
                        } else {
                            k += 1;
                        }
                    }
                    let start0 = graph.groups[si].char_span.0;
                    let mut start: usize = start0;
                    if nospace {
                        proof {
                            assert(all_no_space(textsv));
                        }
                        // absorb the preceding whitespace
                        let mut gi: usize = si;
                        while gi < graph.groups.len() && graph.groups[gi].token_range.0
                            >= graph.groups[gi].token_range.1
                            invariant
                                si <= gi <= graph@.groups.len(),
                                gv == graph@,
                                crate::synth::first_filled_group(gv.groups, si as int)
                                    == crate::synth::first_filled_group(gv.groups, gi as int),
                            decreases graph@.groups.len() - gi,
                        {
                            gi += 1;
                        }
                        if gi < graph.groups.len() {
                            let ti = graph.groups[gi].token_range.0;
                            if 0 < ti && ti < tokens.len() {
                                proof {
                                    assert(tv[ti - 1] == tokens@[ti - 1]@);
                                }
                                start = tokens[ti - 1].char_span.1;
                            }
                        }
                        proof {
                            assert(start == absorbed_start(gv, si as int, tv, start0));
                        }
                    }
                    let end = graph.groups[ei].char_span.1;
                    if start <= end {
                        if let Some(message) = self.message.apply(
                            graph,
                            tokens,
                            tokenizer,
                            self.start,
                            self.end,
                        ) {
                            // remove stray spaces before no-space characters
                            let mut fixed: Vec<String> = Vec::new();
                            let mut fi: usize = 0;
                            while fi < texts.len()
                                invariant
                                    fi <= texts@.len(),
                                    textsv == strings_view(texts@),
                                    strings_view(fixed@) == fixed_texts(textsv).subrange(
                                        0,
                                        fi as int,
                                    ),
                                decreases texts@.len() - fi,
                            {
                                let tc = chars_of(texts[fi].as_str());
                                let fc = fix_nospace_chars(&tc);
                                let ghost prev_fixed = strings_view(fixed@);
                                let ghost prev_vec = fixed@;
                                let fs = crate::outside::string_of(&fc);
                                let ghost fsv2 = fs@;
                                fixed.push(fs);
                                proof {
                                    crate::word::lemma_strings_view_push(prev_vec, fixed@.last());
                                    assert(prev_vec.push(fixed@.last()) =~= fixed@);
                                    assert(fixed@.last()@ == fsv2);
                                    assert(textsv[fi as int] == texts@[fi as int]@);
                                    assert(fsv2 == fix_nospace_rec(textsv[fi as int]));
                                    assert(fixed_texts(textsv)[fi as int] == fix_nospace_rec(
                                        textsv[fi as int],
                                    ));
                                    assert(strings_view(fixed@) =~= fixed_texts(textsv).subrange(
                                        0,
                                        fi + 1 as int,
                                    ));
                                }
                                fi += 1;
                            }
                            proof {
                                assert(fixed_texts(textsv).subrange(
                                    0,
                                    textsv.len() as int,
                                ) =~= fixed_texts(textsv));
                            }
                            let sug = Suggestion {
                                message,
                                source: self.id.clone(),
                                start,
                                end,
                                text: fixed,
                            };
                            let ghost sugv = sug@;
                            out.push(sug);
                            proof {
                                assert(sugv =~= graph_suggestion(
                                    self,
                                    gv,
                                    tv,
                                    &tokenizer.tagger,
                                    add_lower,
                                )->0);
                                assert(suggestions_view(out@) =~= prev.push(sugv));
                                assert(prev + (seq![sugv] + rule_apply_rec(
                                    self,
                                    graphsv.skip(m + 1 as int),
                                    tv,
                                    &tokenizer.tagger,
                                    add_lower,
                                )) =~= suggestions_view(out@) + rule_apply_rec(
                                    self,
                                    graphsv.skip(m + 1 as int),
                                    tv,
                                    &tokenizer.tagger,
                                    add_lower,
                                ));
                            }
                        }
                    }
                }
            }
            proof {
                assert(rule_apply_rec(self, graphsv.skip(m as int), tv, &tokenizer.tagger, add_lower)
                    == suggestions_view(out@).skip(prev.len() as int) + rule_apply_rec(
                    self,
                    graphsv.skip(m + 1 as int),
                    tv,
                    &tokenizer.tagger,
                    add_lower,
                ));
                assert(suggestions_view(out@) + rule_apply_rec(
                    self,
                    graphsv.skip(m + 1 as int),
                    tv,
                    &tokenizer.tagger,
                    add_lower,
                ) =~= prev + (suggestions_view(out@).skip(prev.len() as int) + rule_apply_rec(
                    self,
                    graphsv.skip(m + 1 as int),
                    tv,
                    &tokenizer.tagger,
                    add_lower,
                )));
            }
            m += 1;
        }
        proof {
            assert(graphsv.skip(graphsv.len() as int) =~= Seq::<MatchGraphV>::empty());
            assert(suggestions_view(out@) + Seq::<SuggestionV>::empty() =~= suggestions_view(
                out@,
            ));
        }
        out
    }
}

impl DisambiguationRule {
    /// Run the rule's self-tests; `true` when every one passes.
    pub fn test(&self, tokenizer: &Tokenizer) -> (r: bool)
        requires
            drules_wf(tokenizer.rules@),
            self.end > 0,
            self.start <= self.end,
        ensures
            r == dtests_pass_from(self, tokenizer, 0),
    {
        let mut all: bool = true;
        let mut i: usize = 0;
        while i < self.tests.len()
            invariant
                i <= self.tests@.len(),
                drules_wf(tokenizer.rules@),
                self.end > 0,
                self.start <= self.end,
                dtests_pass_from(self, tokenizer, 0) == (all && dtests_pass_from(
                    self,
                    tokenizer,
                    i as int,
                )),
            decreases self.tests@.len() - i,
        {
            let t = &self.tests[i];
            let text: &String = match t {
                DisambiguationTest::Unchanged(x) => x,
                DisambiguationTest::Changed(c) => &c.text,
            };
            let tokens_before = tokenizer.disambiguate_up_to_id(
                tokenizer.tokenize(text.as_str()),
                &self.id,
            );
            let copy = crate::word::duplicate_itokens(&tokens_before);
            let mut mask: Vec<bool> = Vec::new();
            let mut k: usize = 0;
            while k < copy.len()
                invariant
                    k <= copy@.len(),
                    mask@.len() == k,
                    forall|p: int| 0 <= p < k ==> !(#[trigger] mask@[p]),
                decreases copy@.len() - k,
            {
                mask.push(false);
                k += 1;
            }
            proof {
                assert(mask@ =~= all_false_mask(itokens_view(copy@).len()));
            }
            let (tokens_after, _unused) = self.apply(copy, tokenizer, mask, None);
            let pass: bool = match t {
                DisambiguationTest::Unchanged(_) => tokens_identical(&tokens_after, &tokens_before),
                DisambiguationTest::Changed(c) => {
                    let b = find_span_exec(&tokens_before, c.char_span);
                    let a = find_span_exec(&tokens_after, c.char_span);
                    match (b, a) {
                        (Some(_), Some(ai)) => {
                            proof {
                                assert(itokens_view(tokens_after@)[ai as int]
                                    == tokens_after@[ai as int]@);
                            }
                            tokens_after[ai].word.text == c.after.text && crate::word::tags_set_eq(
                                &tokens_after[ai].word.tags,
                                &c.after.tags,
                            )
                        },
                        _ => false,
                    }
                },
            };
            proof {
                assert(pass == dtest_pass(self, tokenizer, &self.tests@[i as int]));
            }
            if !pass {
                all = false;
            }
            i += 1;
        }
        all
    }
}

impl Rule {
    /// Run the rule's self-tests; `true` when every one passes.
    pub fn test(&self, tokenizer: &Tokenizer) -> (r: bool)
        requires
            drules_wf(tokenizer.rules@),
            self.end > 0,
        ensures
            r == rtests_pass_from(self, tokenizer, 0),
    {
        let mut all: bool = true;
        let mut i: usize = 0;
        while i < self.tests.len()
            invariant
                i <= self.tests@.len(),
                drules_wf(tokenizer.rules@),
                self.end > 0,
                rtests_pass_from(self, tokenizer, 0) == (all && rtests_pass_from(
                    self,
                    tokenizer,
                    i as int,
                )),
            decreases self.tests@.len() - i,
        {
            let t = &self.tests[i];
            let dis = tokenizer.disambiguate(tokenizer.tokenize(t.text.as_str()));
            let tokens = finalize(&dis);
            proof {
                assert(tokens_view(tokens@).len() == itokens_view(dis@).len() + 1);
            }
            let sugs = self.apply(&tokens, None, tokenizer);
            let pass: bool = if sugs.len() > 1 {
                false
            } else {
                match &t.suggestion {
                    Some(c) => {
                        if sugs.len() == 1 {
                            proof {
                                assert(suggestions_view(sugs@)[0] == sugs@[0]@);
                            }
                            c.matches(&sugs[0])
                        } else {
                            false
                        }
                    },
                    None => sugs.len() == 0,
                }
            };
            proof {
                assert(pass == rtest_pass(self, tokenizer, &self.tests@[i as int]));
            }
            if !pass {
                all = false;
            }
            i += 1;
        }
        all
    }
}

/// A rule whose operator is `Nop` leaves the tokens bit-identical and
/// never invalidates the finalized tokens.
pub proof fn lemma_nop_rule_identity(
    rule: &DisambiguationRule,
    tokensv: Seq<TokenV>,
    maskv: Seq<bool>,
    completev: Option<Seq<TokenV>>,
    retain_last: bool,
)
    requires
        rule.disambiguations is Nop,
    ensures
        disamb_rule_apply_spec(rule, tokensv, maskv, completev, retain_last).0 == tokensv,
        disamb_rule_apply_spec(rule, tokensv, maskv, completev, retain_last).1 is None,
{
}

} // verus!