use vstd::prelude::*;
use crate::composition::{
    Composition, Group, MatchGraph, MatchGraphV, comp_apply_spec, graph_index_of,
};
use crate::outside::{SerializeRegex, regex_captures};
use crate::text::{chars_of, utf8_len, utf8_len_spec, utf8_seq_len};
use crate::word::{Token, TokenV, tokens_view};

verus! {

/// A pattern together with the anti-patterns that may suppress its matches.
pub struct TokenEngine {
    pub composition: Composition,
    pub antipatterns: Vec<Composition>,
}

/// Closed-interval overlap of two matches' overall character spans: each
/// match reaches from its first group's start to its last group's end.
pub open spec fn graphs_overlap(a: MatchGraphV, g: MatchGraphV) -> bool {
    a.groups[0].char_span.0 <= g.groups[g.groups.len() - 1].char_span.1 && g.groups[0].char_span.0
        <= a.groups[a.groups.len() - 1].char_span.1
}

/// Whether anti-pattern `a` anchored at `j` yields a match overlapping `g`.
pub open spec fn anti_overlaps(
    e: &TokenEngine,
    tokens: Seq<TokenV>,
    g: MatchGraphV,
    j: int,
    a: int,
) -> bool {
    match comp_apply_spec(&e.antipatterns@[a], tokens, j) {
        Some(ag) => graphs_overlap(ag, g),
        None => false,
    }
}

/// Whether some anti-pattern anchored at `j` yields a match overlapping `g`.
pub open spec fn blocked_at(
    e: &TokenEngine,
    tokens: Seq<TokenV>,
    g: MatchGraphV,
    j: int,
) -> bool {
    exists|a: int| 0 <= a < e.antipatterns@.len() && anti_overlaps(e, tokens, g, j, a)
}

/// Whether any anti-pattern match anywhere overlaps `g`.
pub open spec fn blocked(e: &TokenEngine, tokens: Seq<TokenV>, g: MatchGraphV) -> bool {
    exists|j: int| 0 <= j < tokens.len() && blocked_at(e, tokens, g, j)
}

/// What `get_match` yields at an anchor: the pattern's graph, unless an
/// anti-pattern overlaps it.
pub open spec fn get_match_spec(e: &TokenEngine, tokens: Seq<TokenV>, i: int) -> Option<
    MatchGraphV,
> {
    match comp_apply_spec(&e.composition, tokens, i) {
        Some(g) => if blocked(e, tokens, g) {
            None
        } else {
            Some(g)
        },
        None => None,
    }
}

impl TokenEngine {
    pub fn new(composition: Composition, antipatterns: Vec<Composition>) -> (r: TokenEngine)
        ensures
            r.composition == composition,
            r.antipatterns@ == antipatterns@,
    {
        TokenEngine { composition, antipatterns }
    }

    /// Attempt the pattern at anchor `i`; an overlapping anti-pattern match
    /// anywhere in the sentence blocks it.
    pub fn get_match(&self, tokens: &Vec<Token>, i: usize) -> (r: Option<MatchGraph>)
        requires
            i < tokens@.len(),
        ensures
            match get_match_spec(self, tokens_view(tokens@), i as int) {
                Some(gv) => r is Some && r->0@ == gv,
                None => r is None,
            },
    {
        let ghost tv = tokens_view(tokens@);
        let graph = match self.composition.apply(tokens, i) {
            Some(g) => g,
            None => {
                return None;
            },
        };
        let rule_start = graph.by_index(0).char_span.0;
        let rule_end = graph.by_index(graph.groups.len() - 1).char_span.1;
        let mut j: usize = 0;
        while j < tokens.len()
            invariant
                j <= tokens@.len(),
                tv == tokens_view(tokens@),
                comp_apply_spec(&self.composition, tv, i as int) == Some(graph@),
                graph@.groups.len() > 0,
                rule_start == graph@.groups[0].char_span.0,
                rule_end == graph@.groups[graph@.groups.len() - 1].char_span.1,
                forall|q: int| 0 <= q < j ==> !blocked_at(self, tv, graph@, q),
            decreases tokens@.len() - j,
        {
            let mut a: usize = 0;
            while a < self.antipatterns.len()
                invariant
                    j < tokens@.len(),
                    a <= self.antipatterns@.len(),
                    tv == tokens_view(tokens@),
                    comp_apply_spec(&self.composition, tv, i as int) == Some(graph@),
                    graph@.groups.len() > 0,
                    rule_start == graph@.groups[0].char_span.0,
                    rule_end == graph@.groups[graph@.groups.len() - 1].char_span.1,
                    forall|b: int| 0 <= b < a ==> !anti_overlaps(self, tv, graph@, j as int, b),
                decreases self.antipatterns@.len() - a,
            {
                if let Some(anti_graph) = self.antipatterns[a].apply(tokens, j) {
                    let anti_start = anti_graph.by_index(0).char_span.0;
                    let anti_end = anti_graph.by_index(anti_graph.groups.len() - 1).char_span.1;
                    if anti_start <= rule_end && rule_start <= anti_end {
                        proof {
                            assert(graphs_overlap(anti_graph@, graph@));
                            assert(anti_overlaps(self, tv, graph@, j as int, a as int));
                            assert(blocked_at(self, tv, graph@, j as int));
                        }
                        return None;
                    }
                }
                proof {
                    assert(!anti_overlaps(self, tv, graph@, j as int, a as int));
                }
                a += 1;
            }
            proof {
                assert(!blocked_at(self, tv, graph@, j as int));
            }
            j += 1;
        }
        proof {
            assert(!blocked(self, tv, graph@));
        }
        Some(graph)
    }
}

/// Whether the skip mask rules anchor `i` out.
pub open spec fn mask_skips(mask: Option<Seq<bool>>, i: int) -> bool {
    match mask {
        None => false,
        Some(m) => 0 <= i < m.len() && m[i],
    }
}

/// The matches found from anchor `i` on, each with the character span its
/// rule groups `start..end` cover. A match whose graph lacks one of those
/// ids yields nothing.
pub open spec fn collect_rec(
    e: &TokenEngine,
    tokens: Seq<TokenV>,
    mask: Option<Seq<bool>>,
    start: usize,
    end: usize,
    i: int,
) -> Seq<(MatchGraphV, usize, usize)>
    decreases tokens.len() - i,
{
    if i < 0 || i >= tokens.len() {
        Seq::empty()
    } else {
        let rest = collect_rec(e, tokens, mask, start, end, i + 1);
        if mask_skips(mask, i) {
            rest
        } else {
            match get_match_spec(e, tokens, i) {
                None => rest,
                Some(g) => match (graph_index_of(g, start), graph_index_of(
                    g,
                    (end - 1) as usize,
                )) {
                    (Some(si), Some(ei)) => seq![
                        (g, g.groups[si as int].char_span.0, g.groups[ei as int].char_span.1),
                    ] + rest,
                    _ => rest,
                },
            }
        }
    }
}

/// Insert a match after every earlier match with the same or a smaller
/// start: the stable insertion step.
pub open spec fn insert_by_start(
    x: (MatchGraphV, usize, usize),
    s: Seq<(MatchGraphV, usize, usize)>,
) -> Seq<(MatchGraphV, usize, usize)>
    decreases s.len(),
{
    if s.len() == 0 {
        seq![x]
    } else if s[0].1 <= x.1 {
        seq![s[0]] + insert_by_start(x, s.skip(1))
    } else {
        seq![x] + s
    }
}

/// The first `k` matches, stably sorted ascending by start.
pub open spec fn sort_by_start_pref(s: Seq<(MatchGraphV, usize, usize)>, k: int) -> Seq<
    (MatchGraphV, usize, usize),
>
    decreases k,
{
    if k <= 0 {
        Seq::empty()
    } else {
        insert_by_start(s[k - 1], sort_by_start_pref(s, k - 1))
    }
}

/// The matches stably sorted ascending by start.
pub open spec fn sort_by_start(s: Seq<(MatchGraphV, usize, usize)>) -> Seq<
    (MatchGraphV, usize, usize),
> {
    sort_by_start_pref(s, s.len() as int)
}

/// No character in `[a, b)` is taken yet.
pub open spec fn all_false(mask: Seq<bool>, a: int, b: int) -> bool {
    forall|k: int| a <= k < b && 0 <= k < mask.len() ==> !mask[k]
}

/// The mask with `[a, b)` taken.
pub open spec fn set_range(mask: Seq<bool>, a: int, b: int) -> Seq<bool> {
    Seq::new(mask.len(), |k: int| a <= k < b || mask[k])
}

/// Walk the sorted matches and keep each whose span is still free, taking
/// its characters; keeps the spans beside the graphs.
pub open spec fn accept_rec(
    s: Seq<(MatchGraphV, usize, usize)>,
    mask: Seq<bool>,
) -> Seq<(MatchGraphV, usize, usize)>
    decreases s.len(),
{
    if s.len() == 0 {
        Seq::empty()
    } else {
        let st = s[0].1 as int;
        let en = s[0].2 as int;
        if st <= en <= mask.len() && all_false(mask, st, en) {
            seq![s[0]] + accept_rec(s.skip(1), set_range(mask, st, en))
        } else {
            accept_rec(s.skip(1), mask)
        }
    }
}

/// A mask with no character taken.
pub open spec fn empty_mask(n: nat) -> Seq<bool> {
    Seq::new(n, |k: int| false)
}

/// The matches a token engine accepts, with their spans.
pub open spec fn token_accepted_spec(
    e: &TokenEngine,
    tokens: Seq<TokenV>,
    mask: Option<Seq<bool>>,
    start: usize,
    end: usize,
) -> Seq<(MatchGraphV, usize, usize)> {
    accept_rec(
        sort_by_start(collect_rec(e, tokens, mask, start, end, 0)),
        empty_mask(tokens[0].text.len()),
    )
}

/// The pairs (byte position, character position) of a text, one per
/// character plus one for the end.
pub open spec fn bc_pairs(text: Seq<char>) -> Seq<(u128, usize)> {
    Seq::new(text.len() + 1, |k: int| ((utf8_seq_len(text.take(k)) as u128), k as usize))
}

/// The character position at a byte position, if the byte position starts a
/// character (or ends the text).
pub open spec fn bc_lookup(pairs: Seq<(u128, usize)>, b: u128) -> Option<usize>
    decreases pairs.len(),
{
    if pairs.len() == 0 {
        None
    } else if pairs[0].0 == b {
        Some(pairs[0].1)
    } else {
        bc_lookup(pairs.skip(1), b)
    }
}

/// The group one capture yields: its byte span mapped to characters; absent
/// captures, and byte spans that start no character, give `(0, 0)`.
pub open spec fn cap_group(text: Seq<char>, cap: Option<(usize, usize)>) -> Group {
    match cap {
        Some(span) => match (bc_lookup(bc_pairs(text), span.0 as u128), bc_lookup(
            bc_pairs(text),
            span.1 as u128,
        )) {
            (Some(cs), Some(ce)) => Group { char_span: (cs, ce), token_range: (0, 0) },
            _ => Group { char_span: (0, 0), token_range: (0, 0) },
        },
        None => Group { char_span: (0, 0), token_range: (0, 0) },
    }
}

/// The graph one regular-expression match yields.
pub open spec fn text_graph(
    text: Seq<char>,
    idmap: Seq<(usize, usize)>,
    caps: Seq<Option<(usize, usize)>>,
) -> MatchGraphV {
    MatchGraphV {
        groups: caps.map_values(|c: Option<(usize, usize)>| cap_group(text, c)),
        id_to_index: idmap,
        text: text,
    }
}

/// The graphs of every match of the expression over the sentence text.
pub open spec fn text_matches_spec(
    pat: Seq<char>,
    idmap: Seq<(usize, usize)>,
    text: Seq<char>,
) -> Seq<MatchGraphV> {
    regex_captures(pat, text).map_values(
        |caps: Seq<Option<(usize, usize)>>| text_graph(text, idmap, caps),
    )
}

/// A matching engine: a token pattern with anti-patterns, or a regular
/// expression over the sentence text with its group-id map.
pub enum Engine {
    Token(TokenEngine),
    Text(SerializeRegex, Vec<(usize, usize)>),
}

/// What `get_matches` yields.
pub open spec fn engine_matches_spec(
    e: &Engine,
    tokens: Seq<TokenV>,
    mask: Option<Seq<bool>>,
    start: usize,
    end: usize,
) -> Seq<MatchGraphV> {
    match e {
        Engine::Token(te) => token_accepted_spec(te, tokens, mask, start, end).map_values(
            |x: (MatchGraphV, usize, usize)| x.0,
        ),
        Engine::Text(re, idmap) => text_matches_spec(re@, idmap@, tokens[0].text),
    }
}

/// The view of the skip mask argument.
pub open spec fn opt_mask_view(mask: Option<&Vec<bool>>) -> Option<Seq<bool>> {
    match mask {
        None => None,
        Some(m) => Some(m@),
    }
}

/// The views of a graph list.
pub open spec fn graphs_view(s: Seq<MatchGraph>) -> Seq<MatchGraphV> {
    s.map_values(|g: MatchGraph| g@)
}

/// The views of collected match infos.
pub open spec fn infos_view(s: Seq<(MatchGraph, usize, usize)>) -> Seq<(MatchGraphV, usize, usize)> {
    s.map_values(|x: (MatchGraph, usize, usize)| (x.0@, x.1, x.2))
}

/// Splitting an insertion at the first later start.
proof fn lemma_insert_by_start_at(
    s: Seq<(MatchGraphV, usize, usize)>,
    x: (MatchGraphV, usize, usize),
    pos: int,
)
    requires
        0 <= pos <= s.len(),
        forall|k: int| 0 <= k < pos ==> (#[trigger] s[k]).1 <= x.1,
        pos < s.len() ==> s[pos].1 > x.1,
    ensures
        insert_by_start(x, s) == s.subrange(0, pos) + seq![x] + s.subrange(pos, s.len() as int),
    decreases pos,
{
    if pos == 0 {
        if s.len() == 0 {
            assert(insert_by_start(x, s) =~= s.subrange(0, 0) + seq![x] + s.subrange(
                0,
                s.len() as int,
            ));
        } else {
            assert(insert_by_start(x, s) =~= s.subrange(0, 0) + seq![x] + s.subrange(
                0,
                s.len() as int,
            ));
        }
    } else {
        assert(s[0].1 <= x.1);
        assert(forall|k: int| 0 <= k < pos - 1 ==> (#[trigger] s.skip(1)[k]).1 <= x.1);
        if pos - 1 < s.skip(1).len() {
            assert(s.skip(1)[pos - 1] == s[pos]);
        }
        lemma_insert_by_start_at(s.skip(1), x, pos - 1);
        assert(seq![s[0]] + (s.skip(1).subrange(0, pos - 1) + seq![x] + s.skip(1).subrange(
            pos - 1,
            s.skip(1).len() as int,
        )) =~= s.subrange(0, pos) + seq![x] + s.subrange(pos, s.len() as int));
    }
}

impl Engine {
    /// All matches of the engine over the tokens, in the engine's canonical
    /// order: a token engine anchors wherever the skip mask allows, sorts
    /// the matches ascending by start and keeps the character-disjoint ones;
    /// a text engine emits one graph per regular-expression match.
    #[verifier::rlimit(60)]
    pub fn get_matches(
        &self,
        tokens: &Vec<Token>,
        skip_mask: Option<&Vec<bool>>,
        start: usize,
        end: usize,
    ) -> (r: Vec<MatchGraph>)
        requires
            tokens@.len() > 0,
            0 < end,
        ensures
            graphs_view(r@) == engine_matches_spec(
                self,
                tokens_view(tokens@),
                opt_mask_view(skip_mask),
                start,
                end,
            ),
    {
        let ghost tv = tokens_view(tokens@);
        let ghost maskv = opt_mask_view(skip_mask);
        match self {
            Engine::Token(engine) => {
                // collect the matches with their rule-group spans
                let mut infos: Vec<(MatchGraph, usize, usize)> = Vec::new();
                let mut i: usize = 0;
                proof {
                    assert(tv[0] == tokens@[0]@);
                }
                while i < tokens.len()
                    invariant
                        i <= tokens@.len(),
                        0 < end,
                        tv == tokens_view(tokens@),
                        maskv == opt_mask_view(skip_mask),
                        collect_rec(engine, tv, maskv, start, end, 0) == infos_view(infos@)
                            + collect_rec(engine, tv, maskv, start, end, i as int),
                    decreases tokens@.len() - i,
                {
                    let skipped: bool = match skip_mask {
                        Some(m) => if i < m.len() {
                            m[i]
                        } else {
                            false
                        },
                        None => false,
                    };
                    let ghost prev = infos_view(infos@);
                    if !skipped {
                        if let Some(graph) = engine.get_match(tokens, i) {
                            let start_group = graph.get_index(start);
                            let end_group = graph.get_index(end - 1);
                            if let (Some(si), Some(ei)) = (start_group, end_group) {
                                let st = graph.groups[si].char_span.0;
                                let en = graph.groups[ei].char_span.1;
                                infos.push((graph, st, en));
                                proof {
                                    assert(infos_view(infos@) =~= prev.push(
                                        (infos@[infos@.len() - 1].0@, st, en),
                                    ));
                                }
                            }
                        }
                    }
                    proof {
                        assert(infos_view(infos@) + collect_rec(
                            engine,
                            tv,
                            maskv,
                            start,
                            end,
                            i + 1,
                        ) =~= prev + (infos_view(infos@).skip(prev.len() as int) + collect_rec(
                            engine,
                            tv,
                            maskv,
                            start,
                            end,
                            i + 1,
                        )));
                        assert(collect_rec(engine, tv, maskv, start, end, i as int)
                            == infos_view(infos@).skip(prev.len() as int) + collect_rec(
                            engine,
                            tv,
                            maskv,
                            start,
                            end,
                            i + 1,
                        ));
                    }
                    i += 1;
                }
                proof {
                    assert(collect_rec(engine, tv, maskv, start, end, tokens@.len() as int)
                        =~= Seq::<(MatchGraphV, usize, usize)>::empty());
                    assert(infos_view(infos@) + Seq::<(MatchGraphV, usize, usize)>::empty()
                        =~= infos_view(infos@));
                }
                let ghost collected = infos_view(infos@);
                // stable insertion sort ascending by start
                let mut sorted: Vec<(MatchGraph, usize, usize)> = Vec::new();
                let total = infos.len();
                let mut k: usize = 0;
                proof {
                    assert(collected == infos_view(infos@));
                }
                while k < total
                    invariant
                        k <= total,
                        infos@.len() == total - k,
                        collected.len() == total,
                        infos_view(infos@) == collected.skip(k as int),
                        infos_view(sorted@) == sort_by_start_pref(collected, k as int),
                    decreases total - k,
                {
                    let ghost old_infos = infos@;
                    let x = infos.remove(0);
                    proof {
                        assert(collected.skip(k as int)[0] == collected[k as int]);
                        assert(infos_view(old_infos)[0] == collected[k as int]);
                        assert((x.0@, x.1, x.2) == collected[k as int]);
                        assert forall|j: int| 0 <= j < infos@.len() implies infos_view(infos@)[j]
                            == collected.skip(k + 1 as int)[j] by {
                            assert(infos@[j] == old_infos[j + 1]);
                            assert(infos_view(old_infos)[j + 1] == collected.skip(k as int)[j + 1]);
                            assert(collected.skip(k as int)[j + 1] == collected[k + 1 + j]);
                            assert(collected.skip(k + 1 as int)[j] == collected[k + 1 + j]);
                        }
                        assert(infos_view(infos@) =~= collected.skip(k + 1 as int));
                    }
                    let mut pos: usize = 0;
                    while pos < sorted.len() && sorted[pos].1 <= x.1
                        invariant
                            pos <= sorted@.len(),
                            forall|q: int|
                                0 <= q < pos ==> (#[trigger] infos_view(sorted@)[q]).1 <= x.1,
                        decreases sorted@.len() - pos,
                    {
                        proof {
                            assert(infos_view(sorted@)[pos as int].1 == sorted@[pos as int].1);
                        }
                        pos += 1;
                    }
                    proof {
                        if (pos as int) < sorted@.len() {
                            assert(infos_view(sorted@)[pos as int].1 == sorted@[pos as int].1);
                        }
                    }
                    let ghost prev_sorted = infos_view(sorted@);
                    sorted.insert(pos, x);
                    proof {
                        lemma_insert_by_start_at(prev_sorted, (x.0@, x.1, x.2), pos as int);
                        assert(infos_view(sorted@) =~= prev_sorted.subrange(0, pos as int) + seq![
                            (x.0@, x.1, x.2),
                        ] + prev_sorted.subrange(pos as int, prev_sorted.len() as int));
                        assert(infos_view(sorted@) == insert_by_start(
                            collected[k as int],
                            sort_by_start_pref(collected, k as int),
                        ));
                    }
                    k += 1;
                }
                proof {
                    assert(infos_view(sorted@) == sort_by_start(collected));
                }
                // keep the character-disjoint matches, walking left to right
                let text_chars = chars_of(tokens[0].text.as_str());
                let mut mask: Vec<bool> = Vec::new();
                let mut c: usize = 0;
                while c < text_chars.len()
                    invariant
                        c <= text_chars@.len(),
                        mask@.len() == c,
                        forall|q: int| 0 <= q < c ==> !(#[trigger] mask@[q]),
                    decreases text_chars@.len() - c,
                {
                    mask.push(false);
                    c += 1;
                }
                proof {
                    assert(tv[0] == tokens@[0]@);
                    assert(mask@ =~= empty_mask(tv[0].text.len()));
                }
                let ghost sorted_all = infos_view(sorted@);
                let mut out: Vec<MatchGraph> = Vec::new();
                let ghost accepted_all = accept_rec(sorted_all, mask@);
                let mut t: usize = 0;
                proof {
                    assert(sorted_all.skip(0) =~= sorted_all);
                    assert(graphs_view(out@) + Seq::<MatchGraphV>::empty() =~= graphs_view(out@));
                }
                while t < sorted.len()
                    invariant
                        t <= sorted@.len(),
                        infos_view(sorted@) == sorted_all,
                        mask@.len() == empty_mask(tv[0].text.len()).len(),
                        accepted_all.map_values(|x: (MatchGraphV, usize, usize)| x.0)
                            == graphs_view(out@) + accept_rec(
                            sorted_all.skip(t as int),
                            mask@,
                        ).map_values(|x: (MatchGraphV, usize, usize)| x.0),
                    decreases sorted@.len() - t,
                {
                    proof {
                        assert(sorted_all.skip(t as int)[0] == sorted_all[t as int]);
                        assert(sorted_all[t as int] == (sorted@[t as int].0@, sorted@[t as int].1,
                        sorted@[t as int].2));
                        assert(sorted_all.skip(t as int).skip(1) =~= sorted_all.skip(t + 1 as int));
                    }
                    let st = sorted[t].1;
                    let en = sorted[t].2;
                    let mut free: bool = st <= en && en <= mask.len();
                    if free {
                        let mut q: usize = st;
                        while q < en
                            invariant
                                st <= q <= en <= mask@.len(),
                                free == all_false(mask@, st as int, q as int),
                            decreases en - q,
                        {
                            if mask[q] {
                                free = false;
                            }
                            q += 1;
                        }
                    }
                    let ghost prev_mask = mask@;
                    let ghost prev_out = graphs_view(out@);
                    if free {
                        // take the span and keep the match
                        let mut q: usize = st;
                        while q < en
                            invariant
                                st <= q <= en <= prev_mask.len(),
                                mask@.len() == prev_mask.len(),
                                forall|p: int|
                                    0 <= p < mask@.len() ==> (#[trigger] mask@[p]) == (st <= p < q
                                        || prev_mask[p]),
                            decreases en - q,
                        {
                            mask.set(q, true);
                            q += 1;
                        }
                        proof {
                            assert(mask@ =~= set_range(prev_mask, st as int, en as int));
                        }
                        let g = &sorted[t];
                        let copied = MatchGraph {
                            groups: copy_groups(&g.0.groups),
                            id_to_index: copy_pairs(&g.0.id_to_index),
                            text: g.0.text.clone(),
                        };
                        proof {
                            assert(copied@ =~= sorted@[t as int].0@);
                        }
                        out.push(copied);
                        proof {
                            assert(graphs_view(out@) =~= prev_out.push(sorted_all[t as int].0));
                            assert(accept_rec(sorted_all.skip(t as int), prev_mask) == seq![
                                sorted_all[t as int],
                            ] + accept_rec(sorted_all.skip(t + 1 as int), mask@));
                            assert(prev_out + (seq![sorted_all[t as int]] + accept_rec(
                                sorted_all.skip(t + 1 as int),
                                mask@,
                            )).map_values(|x: (MatchGraphV, usize, usize)| x.0) =~= graphs_view(
                                out@,
                            ) + accept_rec(sorted_all.skip(t + 1 as int), mask@).map_values(
                                |x: (MatchGraphV, usize, usize)| x.0,
                            ));
                        }
                    } else {
                        proof {
                            assert(accept_rec(sorted_all.skip(t as int), mask@) == accept_rec(
                                sorted_all.skip(t + 1 as int),
                                mask@,
                            ));
                        }
                    }
                    t += 1;
                }
                proof {
                    assert(sorted_all.skip(sorted@.len() as int) =~= Seq::<
                        (MatchGraphV, usize, usize),
                    >::empty());
                    assert(graphs_view(out@) + Seq::<(MatchGraphV, usize, usize)>::empty()
                        .map_values(|x: (MatchGraphV, usize, usize)| x.0) =~= graphs_view(out@));
                    assert(graphs_view(out@) =~= engine_matches_spec(self, tv, maskv, start, end));
                }
                out
            },
            Engine::Text(regex, id_to_idx) => {
                let text = &tokens[0].text;
                proof {
                    assert(tv[0] == tokens@[0]@);
                }
                let cs = chars_of(text.as_str());
                // the byte position of each character, and of the end
                let pairs = build_byte_pairs(&cs);
                let caps_list = regex.captures(text.as_str());
                let ghost capsv = regex_captures(regex@, text@);
                let mut out: Vec<MatchGraph> = Vec::new();
                let mut m: usize = 0;
                proof {
                    assert(caps_list@.map_values(|v: Vec<Option<(usize, usize)>>| v@) == capsv);
                }
                while m < caps_list.len()
                    invariant
                        m <= caps_list@.len(),
                        pairs@ == bc_pairs(text@),
                        cs@ == text@,
                        caps_list@.map_values(|v: Vec<Option<(usize, usize)>>| v@) == capsv,
                        capsv == regex_captures(regex@, text@),
                        graphs_view(out@) == text_matches_spec(regex@, id_to_idx@, text@).subrange(
                            0,
                            m as int,
                        ),
                        text == &tokens@[0].text,
                        tv == tokens_view(tokens@),
                    decreases caps_list@.len() - m,
                {
                    let caps = &caps_list[m];
                    let ghost capv = capsv[m as int];
                    proof {
                        assert(caps_list@.map_values(|v: Vec<Option<(usize, usize)>>| v@)[m as int]
                            == caps@);
                    }
                    let mut groups: Vec<Group> = Vec::new();
                    let mut gi: usize = 0;
                    while gi < caps.len()
                        invariant
                            gi <= caps@.len(),
                            caps@ == capv,
                            pairs@ == bc_pairs(text@),
                            cs@ == text@,
                            groups@ == capv.map_values(
                                |cc: Option<(usize, usize)>| cap_group(text@, cc),
                            ).subrange(0, gi as int),
                        decreases caps@.len() - gi,
                    {
                        let group: Group;
                        match caps[gi] {
                            Some(span) => {
                                let s_idx = find_char_idx(&pairs, span.0 as u128);
                                let e_idx = find_char_idx(&pairs, span.1 as u128);
                                match (s_idx, e_idx) {
                                    (Some(cs_i), Some(ce_i)) => {
                                        group = Group {
                                            char_span: (cs_i, ce_i),
                                            token_range: (0, 0),
                                        };
                                    },
                                    _ => {
                                        group = Group { char_span: (0, 0), token_range: (0, 0) };
                                    },
                                }
                            },
                            None => {
                                group = Group { char_span: (0, 0), token_range: (0, 0) };
                            },
                        }
                        groups.push(group);
                        proof {
                            assert(group == cap_group(text@, capv[gi as int]));
                            assert(groups@ =~= capv.map_values(
                                |cc: Option<(usize, usize)>| cap_group(text@, cc),
                            ).subrange(0, gi + 1 as int));
                        }
                        gi += 1;
                    }
                    let graph = MatchGraph {
                        groups,
                        id_to_index: copy_pairs(id_to_idx),
                        text: text.clone(),
                    };
                    proof {
                        assert(capv.map_values(
                            |cc: Option<(usize, usize)>| cap_group(text@, cc),
                        ).subrange(0, capv.len() as int) =~= capv.map_values(
                            |cc: Option<(usize, usize)>| cap_group(text@, cc),
                        ));
                        assert(graph@ =~= text_graph(text@, id_to_idx@, capv));
                    }
                    let ghost prev_out2 = graphs_view(out@);
                    let ghost graphv = graph@;
                    out.push(graph);
                    proof {
                        assert(graphs_view(out@) =~= prev_out2.push(graphv));
                        assert(capsv == regex_captures(regex@, text@));
                        assert(text_matches_spec(regex@, id_to_idx@, text@) == regex_captures(
                            regex@,
                            text@,
                        ).map_values(|caps2: Seq<Option<(usize, usize)>>| text_graph(text@, id_to_idx@, caps2)));
                        assert(text_matches_spec(regex@, id_to_idx@, text@).len() == capsv.len());
                        assert(capv == regex_captures(regex@, text@)[m as int]);
                        assert(text_matches_spec(regex@, id_to_idx@, text@)[m as int] == text_graph(
                            text@,
                            id_to_idx@,
                            capv,
                        ));
                        assert(graphs_view(out@) =~= text_matches_spec(
                            regex@,
                            id_to_idx@,
                            text@,
                        ).subrange(0, m + 1 as int));
                    }
                    m += 1;
                }
                proof {
                    assert(text_matches_spec(regex@, id_to_idx@, text@).subrange(
                        0,
                        caps_list@.len() as int,
                    ) =~= text_matches_spec(regex@, id_to_idx@, text@));
                    assert(tv[0].text == text@);
                }
                out
            },
        }
    }
}

/// A fresh copy of a group list.
pub fn copy_groups(v: &Vec<Group>) -> (r: Vec<Group>)
    ensures
        r@ == v@,
{
    let mut r: Vec<Group> = Vec::new();
    let mut i: usize = 0;
    while i < v.len()
        invariant
            i <= v@.len(),
            r@ == v@.subrange(0, i as int),
        decreases v@.len() - i,
    {
        r.push(v[i]);
        proof {
            assert(r@ =~= v@.subrange(0, i + 1 as int));
        }
        i += 1;
    }
    proof {
        assert(v@.subrange(0, v@.len() as int) =~= v@);
    }
    r
}

/// A fresh copy of an id map.
pub fn copy_pairs(v: &Vec<(usize, usize)>) -> (r: Vec<(usize, usize)>)
    ensures
        r@ == v@,
{
    let mut r: Vec<(usize, usize)> = Vec::new();
    let mut i: usize = 0;
    while i < v.len()
        invariant
            i <= v@.len(),
            r@ == v@.subrange(0, i as int),
        decreases v@.len() - i,
    {
        r.push(v[i]);
        proof {
            assert(r@ =~= v@.subrange(0, i + 1 as int));
        }
        i += 1;
    }
    proof {
        assert(v@.subrange(0, v@.len() as int) =~= v@);
    }
    r
}

/// The pairs (byte position, character position) of a character list.
pub(crate) fn build_byte_pairs(cs: &Vec<char>) -> (r: Vec<(u128, usize)>)
    ensures
        r@ == bc_pairs(cs@),
        r@.len() == cs@.len() + 1,
        r@[r@.len() - 1].0 == utf8_seq_len(cs@) as u128,
{
    let mut pairs: Vec<(u128, usize)> = Vec::new();
    let mut b: u128 = 0;
    let mut ci: usize = 0;
    proof {
        assert(cs@.take(0) =~= Seq::<char>::empty());
        lemma_utf8_seq_len_bound(cs@.take(0));
    }
    while ci < cs.len()
        invariant
            ci <= cs@.len(),
            b == utf8_seq_len(cs@.take(ci as int)) as u128,
            utf8_seq_len(cs@.take(ci as int)) <= 4 * ci,
            pairs@.len() == ci,
            pairs@ == bc_pairs(cs@).subrange(0, ci as int),
        decreases cs@.len() - ci,
    {
        pairs.push((b, ci));
        proof {
            assert(pairs@ =~= bc_pairs(cs@).subrange(0, ci + 1 as int));
            assert(cs@.take(ci + 1 as int) =~= cs@.take(ci as int).push(cs@[ci as int]));
            lemma_utf8_seq_len_push(cs@.take(ci as int), cs@[ci as int]);
        }
        let w = utf8_len(cs[ci]);
        b = b + (w as u128);
        ci += 1;
    }
    pairs.push((b, cs.len()));
    proof {
        assert(cs@.take(cs@.len() as int) =~= cs@);
        assert(pairs@ =~= bc_pairs(cs@));
    }
    pairs
}

/// The character position a byte position maps to.
pub(crate) fn find_char_idx(pairs: &Vec<(u128, usize)>, b: u128) -> (r: Option<usize>)
    ensures
        r == bc_lookup(pairs@, b),
{
    let mut k: usize = 0;
    let ghost m = pairs@;
    proof {
        assert(m.skip(0) =~= m);
    }
    while k < pairs.len()
        invariant
            k <= m.len(),
            m == pairs@,
            bc_lookup(m.skip(k as int), b) == bc_lookup(m, b),
        decreases m.len() - k,
    {
        proof {
            assert(m.skip(k as int)[0] == m[k as int]);
            assert(m.skip(k as int).skip(1) =~= m.skip(k + 1 as int));
        }
        if pairs[k].0 == b {
            return Some(pairs[k].1);
        }
        k += 1;
    }
    proof {
        assert(m.skip(m.len() as int) =~= Seq::<(u128, usize)>::empty());
    }
    None
}

/// A character sequence takes at most four bytes per character.
pub proof fn lemma_utf8_seq_len_bound(s: Seq<char>)
    ensures
        utf8_seq_len(s) <= 4 * s.len(),
    decreases s.len(),
{
    if s.len() > 0 {
        lemma_utf8_seq_len_bound(s.skip(1));
    }
}

/// Appending one character adds its width.
pub proof fn lemma_utf8_seq_len_push(s: Seq<char>, c: char)
    ensures
        utf8_seq_len(s.push(c)) == utf8_seq_len(s) + utf8_len_spec(c),
    decreases s.len(),
{
    if s.len() == 0 {
        assert(s.push(c)[0] == c);
        assert(s.push(c).skip(1) =~= Seq::<char>::empty());
        assert(utf8_seq_len(Seq::<char>::empty()) == 0);
        assert(utf8_seq_len(s) == 0);
        assert(utf8_seq_len(s.push(c)) == utf8_len_spec(c) + utf8_seq_len(s.push(c).skip(1)));
    } else {
        assert(s.push(c)[0] == s[0]);
        assert(s.push(c).skip(1) =~= s.skip(1).push(c));
        lemma_utf8_seq_len_push(s.skip(1), c);
    }
}

/// Overlap purity: within one rule the accepted matches are
/// character-disjoint, and each lies in characters free in the incoming
/// mask.
pub proof fn lemma_accept_disjoint(s: Seq<(MatchGraphV, usize, usize)>, mask: Seq<bool>)
    ensures
        forall|p: int, q: int|
            0 <= p < q < accept_rec(s, mask).len() ==> ranges_disjoint(
                (#[trigger] accept_rec(s, mask)[p]).1 as int,
                accept_rec(s, mask)[p].2 as int,
                (#[trigger] accept_rec(s, mask)[q]).1 as int,
                accept_rec(s, mask)[q].2 as int,
            ),
        forall|p: int|
            0 <= p < accept_rec(s, mask).len() ==> all_false(
                mask,
                (#[trigger] accept_rec(s, mask)[p]).1 as int,
                accept_rec(s, mask)[p].2 as int,
            ) && accept_rec(s, mask)[p].1 <= accept_rec(s, mask)[p].2 <= mask.len(),
    decreases s.len(),
{
    if s.len() > 0 {
        let st = s[0].1 as int;
        let en = s[0].2 as int;
        if st <= en <= mask.len() && all_false(mask, st, en) {
            let mask2 = set_range(mask, st, en);
            assert(mask2.len() == mask.len());
            lemma_accept_disjoint(s.skip(1), mask2);
            let acc = accept_rec(s, mask);
            let rest = accept_rec(s.skip(1), mask2);
            assert(acc =~= seq![s[0]] + rest);
            assert forall|p: int, q: int| 0 <= p < q < acc.len() implies ranges_disjoint(
                (#[trigger] acc[p]).1 as int,
                acc[p].2 as int,
                (#[trigger] acc[q]).1 as int,
                acc[q].2 as int,
            ) by {
                if p == 0 {
                    assert(acc[q] == rest[q - 1]);
                    assert(all_false(mask2, acc[q].1 as int, acc[q].2 as int));
                    let b1 = acc[q].1 as int;
                    let b2 = acc[q].2 as int;
                    if st < en && b1 < b2 && !(en <= b1) && !(b2 <= st) {
                        // some character of [st, en) lies in the later range
                        let w = if st <= b1 {
                            b1
                        } else {
                            st
                        };
                        assert(st <= w < en);
                        assert(b1 <= w < b2);
                        assert(mask2[w]);
                        assert(false);
                    }
                } else {
                    assert(acc[p] == rest[p - 1]);
                    assert(acc[q] == rest[q - 1]);
                }
            }
            assert forall|p: int| 0 <= p < acc.len() implies all_false(
                mask,
                (#[trigger] acc[p]).1 as int,
                acc[p].2 as int,
            ) && acc[p].1 <= acc[p].2 <= mask.len() by {
                if p > 0 {
                    assert(acc[p] == rest[p - 1]);
                    assert(all_false(mask2, acc[p].1 as int, acc[p].2 as int));
                    assert forall|w: int|
                        acc[p].1 as int <= w < acc[p].2 as int && 0 <= w
                            < mask.len() implies !mask[w] by {
                        assert(!mask2[w]);
                    }
                }
            }
        } else {
            lemma_accept_disjoint(s.skip(1), mask);
            assert(accept_rec(s, mask) == accept_rec(s.skip(1), mask));
        }
    }
}

/// Two half-open ranges share no position: one is empty or they do not
/// meet.
pub open spec fn ranges_disjoint(a1: int, a2: int, b1: int, b2: int) -> bool {
    a2 <= a1 || b2 <= b1 || a2 <= b1 || b2 <= a1
}

} // verus!
