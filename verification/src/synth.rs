use vstd::prelude::*;
use crate::composition::{Group, MatchGraph, MatchGraphV, Matcher, graph_index_of, graph_text_of,
    matcher_spec, no_graph};
use crate::outside::{SerializeRegex, char_is_upper, regex_replace, string_of, to_lowercase,
    to_uppercase};
use crate::tagger::{Tagger, get_tags_spec, members_lookup};
use crate::text::{chars_of, lower_first_spec, lowercase_first, normalize_whitespace,
    normalize_ws_spec, upper_first_spec, uppercase_first};
use crate::tokenizer::Tokenizer;
use crate::word::{Token, TokenV, WordDataV, tags_view, tokens_view};

verus! {

/// A case conversion a template part may apply to its text.
pub enum Conversion {
    Nop,
    AllLower,
    StartLower,
    AllUpper,
    StartUpper,
}

/// What each conversion returns.
pub open spec fn convert_spec(c: &Conversion, s: Seq<char>) -> Seq<char> {
    match c {
        Conversion::Nop => s,
        Conversion::AllLower => crate::outside::lower_of(s),
        Conversion::StartLower => lower_first_spec(s),
        Conversion::AllUpper => crate::outside::upper_of(s),
        Conversion::StartUpper => upper_first_spec(s),
    }
}

impl Conversion {
    /// Apply the conversion to a string; an empty input stays empty.
    pub fn convert(&self, input: &str) -> (r: String)
        ensures
            r@ == convert_spec(self, input@),
            input@.len() == 0 ==> r@.len() == 0,
    {
        match self {
            Conversion::Nop => String::from_str(input),
            Conversion::AllLower => to_lowercase(input),
            Conversion::AllUpper => to_uppercase(input),
            Conversion::StartLower => {
                let cs = chars_of(input);
                let out = lowercase_first(&cs);
                string_of(&out)
            },
            Conversion::StartUpper => {
                let cs = chars_of(input);
                let out = uppercase_first(&cs);
                string_of(&out)
            },
        }
    }

    /// Whether the conversion changes anything.
    pub fn is_nop(&self) -> (r: bool)
        ensures
            r == (self is Nop),
    {
        match self {
            Conversion::Nop => true,
            _ => false,
        }
    }
}

/// The position of the first tag whose part of speech the matcher accepts.
pub open spec fn first_pos_match(m: &Matcher, tags: Seq<WordDataV>) -> Option<int>
    decreases tags.len(),
{
    if tags.len() == 0 {
        None
    } else if matcher_spec(m, tags[0].pos, no_graph()) {
        Some(0int)
    } else {
        match first_pos_match(m, tags.skip(1)) {
            None => None,
            Some(i) => Some(i + 1),
        }
    }
}

/// The replacement candidates one morphological family yields: each member
/// word beside the position of its first accepted tag.
pub open spec fn pairs_for_members(
    t: &Tagger,
    m: &Matcher,
    members: Seq<Seq<char>>,
    add_lower: bool,
) -> Seq<(Seq<char>, int)>
    decreases members.len(),
{
    if members.len() == 0 {
        Seq::empty()
    } else {
        let rest = pairs_for_members(t, m, members.skip(1), add_lower);
        match first_pos_match(m, get_tags_spec(t, members[0], add_lower)) {
            Some(i) => seq![(members[0], i)] + rest,
            None => rest,
        }
    }
}

/// All replacement candidates, later taggings' families first.
pub open spec fn pr_pairs(
    t: &Tagger,
    m: &Matcher,
    taggings: Seq<WordDataV>,
    add_lower: bool,
) -> Seq<(Seq<char>, int)>
    decreases taggings.len(),
{
    if taggings.len() == 0 {
        Seq::empty()
    } else {
        pr_pairs(t, m, taggings.skip(1), add_lower) + pairs_for_members(
            t,
            m,
            members_lookup(t.groups@, taggings[0].lemma),
            add_lower,
        )
    }
}

/// The first candidate with the smallest tag position, scanning left to
/// right from `cur`.
pub open spec fn best_pair_from(s: Seq<(Seq<char>, int)>, cur: (Seq<char>, int)) -> (Seq<char>, int)
    decreases s.len(),
{
    if s.len() == 0 {
        cur
    } else {
        best_pair_from(
            s.skip(1),
            if s[0].1 < cur.1 {
                s[0]
            } else {
                cur
            },
        )
    }
}

/// What the replacer returns: the first candidate with the smallest tag
/// position, none when there are no candidates.
pub open spec fn pos_replacer_spec(
    t: &Tagger,
    m: &Matcher,
    text: Seq<char>,
    add_lower: bool,
) -> Option<Seq<char>> {
    let pairs = pr_pairs(t, m, get_tags_spec(t, text, add_lower), add_lower);
    if pairs.len() == 0 {
        None
    } else {
        Some(best_pair_from(pairs.skip(1), pairs[0]).0)
    }
}

/// The views of replacement candidates.
pub open spec fn pairs_view(s: Seq<(String, usize)>) -> Seq<(Seq<char>, int)> {
    s.map_values(|p: (String, usize)| (p.0@, p.1 as int))
}

/// Replaces a word with a family member whose part of speech the matcher
/// accepts.
pub struct PosReplacer {
    pub matcher: Matcher,
}

impl PosReplacer {
    pub fn new(matcher: Matcher) -> (r: Self)
        ensures
            r.matcher == matcher,
    {
        PosReplacer { matcher }
    }

    /// The position of the first tag whose part of speech the matcher
    /// accepts.
    fn first_match_idx(&self, tags: &Vec<crate::word::WordData>) -> (r: Option<usize>)
        ensures
            match first_pos_match(&self.matcher, tags_view(tags@)) {
                None => r is None,
                Some(i) => r is Some && r->0 == i,
            },
    {
        let ghost tv = tags_view(tags@);
        let empty = MatchGraph::empty();
        proof {
            assert(empty@ =~= no_graph());
        }
        let mut k: usize = 0;
        proof {
            assert(tv.skip(0) =~= tv);
        }
        while k < tags.len()
            invariant
                k <= tv.len(),
                tv == tags_view(tags@),
                empty@ == no_graph(),
                forall|q: int|
                    0 <= q < k ==> !matcher_spec(&self.matcher, (#[trigger] tv[q]).pos, no_graph()),
                first_pos_match(&self.matcher, tv) == match first_pos_match(
                    &self.matcher,
                    tv.skip(k as int),
                ) {
                    None => None::<int>,
                    Some(i) => Some(i + k),
                },
            decreases tv.len() - k,
        {
            proof {
                assert(tv.skip(k as int)[0] == tv[k as int]);
                assert(tv[k as int] == tags@[k as int]@);
                assert(tv.skip(k as int).skip(1) =~= tv.skip(k + 1 as int));
            }
            if self.matcher.is_match(tags[k].pos.as_str(), &empty) {
                return Some(k);
            }
            k += 1;
        }
        proof {
            assert(tv.skip(tv.len() as int) =~= Seq::<WordDataV>::empty());
        }
        None
    }

    /// The first family member, over all of the word's taggings, whose tag
    /// position is smallest; later taggings' candidates stand first.
    pub fn apply(&self, text: &str, tokenizer: &Tokenizer) -> (r: Option<String>)
        ensures
            match pos_replacer_spec(
                &tokenizer.tagger,
                &self.matcher,
                text@,
                tokenizer.options.always_add_lower_tags,
            ) {
                None => r is None,
                Some(v) => r is Some && r->0@ == v,
            },
    {
        let add_lower = tokenizer.options.always_add_lower_tags;
        let taggings = tokenizer.tagger.get_tags(
            text,
            add_lower,
            tokenizer.options.use_compound_split_heuristic,
        );
        let ghost tgv = tags_view(taggings@);
        let mut pairs: Vec<(String, usize)> = Vec::new();
        let mut ti: usize = taggings.len();
        proof {
            assert(tgv.skip(tgv.len() as int) =~= Seq::<WordDataV>::empty());
        }
        while ti > 0
            invariant
                ti <= tgv.len(),
                tgv == tags_view(taggings@),
                pairs_view(pairs@) == pr_pairs(
                    &tokenizer.tagger,
                    &self.matcher,
                    tgv.skip(ti as int),
                    add_lower,
                ),
            decreases ti,
        {
            ti -= 1;
            proof {
                assert(tgv.skip(ti as int)[0] == tgv[ti as int]);
                assert(tgv[ti as int] == taggings@[ti as int]@);
                assert(tgv.skip(ti as int).skip(1) =~= tgv.skip(ti + 1 as int));
            }
            let members = tokenizer.tagger.get_group_members(&taggings[ti].lemma);
            let ghost mv = crate::word::strings_view(members@);
            let mut w: usize = 0;
            proof {
                assert(mv.skip(0) =~= mv);
                assert(pairs_view(pairs@) + Seq::<(Seq<char>, int)>::empty() =~= pairs_view(
                    pairs@,
                ));
            }
            while w < members.len()
                invariant
                    w <= mv.len(),
                    mv == crate::word::strings_view(members@),
                    tgv == tags_view(taggings@),
                    ti < tgv.len(),
                    pairs_view(pairs@) == pr_pairs(
                        &tokenizer.tagger,
                        &self.matcher,
                        tgv.skip(ti + 1 as int),
                        add_lower,
                    ) + pairs_for_members(&tokenizer.tagger, &self.matcher, mv, add_lower).take(
                        pairs_for_members(&tokenizer.tagger, &self.matcher, mv, add_lower).len()
                            - pairs_for_members(
                            &tokenizer.tagger,
                            &self.matcher,
                            mv.skip(w as int),
                            add_lower,
                        ).len(),
                    ),
                    pairs_for_members(
                        &tokenizer.tagger,
                        &self.matcher,
                        mv.skip(w as int),
                        add_lower,
                    ).len() <= pairs_for_members(
                        &tokenizer.tagger,
                        &self.matcher,
                        mv,
                        add_lower,
                    ).len(),
                    pairs_for_members(&tokenizer.tagger, &self.matcher, mv, add_lower)
                        == pairs_for_members(&tokenizer.tagger, &self.matcher, mv, add_lower).take(
                        pairs_for_members(&tokenizer.tagger, &self.matcher, mv, add_lower).len()
                            - pairs_for_members(
                            &tokenizer.tagger,
                            &self.matcher,
                            mv.skip(w as int),
                            add_lower,
                        ).len(),
                    ) + pairs_for_members(
                        &tokenizer.tagger,
                        &self.matcher,
                        mv.skip(w as int),
                        add_lower,
                    ),
                decreases mv.len() - w,
            {
                proof {
                    assert(mv.skip(w as int)[0] == mv[w as int]);
                    assert(mv[w as int] == members@[w as int]@);
                    assert(mv.skip(w as int).skip(1) =~= mv.skip(w + 1 as int));
                }
                let word = &members[w];
                let word_tags = tokenizer.tagger.get_tags(
                    word.as_str(),
                    add_lower,
                    tokenizer.options.use_compound_split_heuristic,
                );
                let ghost prev = pairs_view(pairs@);
                if let Some(i) = self.first_match_idx(&word_tags) {
                    pairs.push((word.clone(), i));
                    proof {
                        assert(pairs_view(pairs@) =~= prev.push((mv[w as int], i as int)));
                        assert(pairs_for_members(
                            &tokenizer.tagger,
                            &self.matcher,
                            mv.skip(w as int),
                            add_lower,
                        ) == seq![(mv[w as int], i as int)] + pairs_for_members(
                            &tokenizer.tagger,
                            &self.matcher,
                            mv.skip(w + 1 as int),
                            add_lower,
                        ));
                    }
                }
                proof {
                    let full = pairs_for_members(&tokenizer.tagger, &self.matcher, mv, add_lower);
                    let rem = pairs_for_members(
                        &tokenizer.tagger,
                        &self.matcher,
                        mv.skip(w + 1 as int),
                        add_lower,
                    );
                    assert(full.take(full.len() - rem.len()) + rem =~= full);
                    assert(pairs_view(pairs@) =~= pr_pairs(
                        &tokenizer.tagger,
                        &self.matcher,
                        tgv.skip(ti + 1 as int),
                        add_lower,
                    ) + full.take(full.len() - rem.len()));
                }
                w += 1;
            }
            proof {
                assert(mv.skip(mv.len() as int) =~= Seq::<Seq<char>>::empty());
                let full = pairs_for_members(&tokenizer.tagger, &self.matcher, mv, add_lower);
                assert(full.take(full.len() - 0) =~= full);
                assert(pairs_view(pairs@) =~= pr_pairs(
                    &tokenizer.tagger,
                    &self.matcher,
                    tgv.skip(ti as int),
                    add_lower,
                ));
            }
        }
        proof {
            assert(tgv.skip(0) =~= tgv);
        }
        if pairs.len() == 0 {
            return None;
        }
        let ghost pv = pairs_view(pairs@);
        let mut best_word: String = pairs[0].0.clone();
        let mut best_i: usize = pairs[0].1;
        let mut j: usize = 1;
        proof {
            assert(pv[0] == (pairs@[0].0@, pairs@[0].1 as int));
        }
        while j < pairs.len()
            invariant
                1 <= j <= pv.len(),
                pv == pairs_view(pairs@),
                best_pair_from(pv.skip(1), pv[0]) == best_pair_from(
                    pv.skip(j as int),
                    (best_word@, best_i as int),
                ),
            decreases pv.len() - j,
        {
            proof {
                assert(pv.skip(j as int)[0] == pv[j as int]);
                assert(pv[j as int] == (pairs@[j as int].0@, pairs@[j as int].1 as int));
                assert(pv.skip(j as int).skip(1) =~= pv.skip(j + 1 as int));
            }
            if pairs[j].1 < best_i {
                best_word = pairs[j].0.clone();
                best_i = pairs[j].1;
            }
            j += 1;
        }
        proof {
            assert(pv.skip(pv.len() as int) =~= Seq::<(Seq<char>, int)>::empty());
        }
        Some(best_word)
    }
}

/// One template reference to a matched group, with optional replacement and
/// case conversion.
pub struct Match {
    pub id: usize,
    pub conversion: Conversion,
    pub pos_replacer: Option<PosReplacer>,
    pub regex_replacer: Option<(SerializeRegex, String)>,
}

/// What applying a template reference to a graph yields. The group's text
/// runs through the optional replacer (whose failure is the template's
/// failure), the optional regular-expression replacement, and the case
/// conversion. A reference to an id the graph does not map is a rule
/// authoring error; it deliberately reads as empty text, since verified
/// code cannot abort.
pub open spec fn match_apply_spec(
    m: &Match,
    g: MatchGraphV,
    t: &Tagger,
    add_lower: bool,
) -> Option<Seq<char>> {
    let text0 = graph_text_of(g, m.id);
    let after_pos = match &m.pos_replacer {
        Some(pr) => pos_replacer_spec(t, &pr.matcher, text0, add_lower),
        None => Some(text0),
    };
    match after_pos {
        None => None,
        Some(t1) => {
            let t2 = match &m.regex_replacer {
                Some(rr) => regex_replace(rr.0@, t1, rr.1@),
                None => t1,
            };
            Some(convert_spec(&m.conversion, t2))
        },
    }
}

impl Match {
    pub fn new(
        id: usize,
        conversion: Conversion,
        pos_replacer: Option<PosReplacer>,
        regex_replacer: Option<(SerializeRegex, String)>,
    ) -> (r: Self)
        ensures
            r.id == id,
            r.conversion == conversion,
            r.pos_replacer == pos_replacer,
            r.regex_replacer == regex_replacer,
    {
        Match { id, conversion, pos_replacer, regex_replacer }
    }

    /// Whether the reference carries a case conversion.
    pub fn has_conversion(&self) -> (r: bool)
        ensures
            r == !(self.conversion is Nop),
    {
        !self.conversion.is_nop()
    }

    /// Build this reference's text from the graph.
    pub fn apply(&self, graph: &MatchGraph, tokenizer: &Tokenizer) -> (r: Option<String>)
        ensures
            match match_apply_spec(
                self,
                graph@,
                &tokenizer.tagger,
                tokenizer.options.always_add_lower_tags,
            ) {
                None => r is None,
                Some(v) => r is Some && r->0@ == v,
            },
    {
        let text0 = graph.text_of(self.id);
        let t1: String = match &self.pos_replacer {
            Some(pr) => {
                match pr.apply(text0.as_str(), tokenizer) {
                    Some(t) => t,
                    None => {
                        return None;
                    },
                }
            },
            None => text0,
        };
        let t2: String = match &self.regex_replacer {
            Some(rr) => rr.0.replace_all_dollar(t1.as_str(), rr.1.as_str()),
            None => t1,
        };
        Some(self.conversion.convert(t2.as_str()))
    }
}

/// One part of a synthesizer template: literal text or a group reference.
pub enum SynthesizerPart {
    Text(String),
    Match(Match),
}

/// Builds replacement text from a match graph.
pub struct Synthesizer {
    pub use_titlecase_adjust: bool,
    pub parts: Vec<SynthesizerPart>,
}

/// A failing suffix fails every longer suffix of the template.
pub proof fn lemma_parts_concat_none(
    parts: Seq<SynthesizerPart>,
    g: MatchGraphV,
    t: &Tagger,
    add_lower: bool,
    q: int,
    p: int,
)
    requires
        0 <= q <= p <= parts.len(),
        parts_concat(parts.skip(p), g, t, add_lower) is None,
    ensures
        parts_concat(parts.skip(q), g, t, add_lower) is None,
    decreases p - q,
{
    if q < p {
        assert(parts.skip(q).skip(1) =~= parts.skip(q + 1));
        assert(parts.skip(q)[0] == parts[q]);
        lemma_parts_concat_none(parts, g, t, add_lower, q + 1, p);
    }
}

/// The concatenation of the parts' texts; one failing reference fails the
/// whole template.
pub open spec fn parts_concat(
    parts: Seq<SynthesizerPart>,
    g: MatchGraphV,
    t: &Tagger,
    add_lower: bool,
) -> Option<Seq<char>>
    decreases parts.len(),
{
    if parts.len() == 0 {
        Some(Seq::empty())
    } else {
        let rest = parts_concat(parts.skip(1), g, t, add_lower);
        match parts[0] {
            SynthesizerPart::Text(s) => match rest {
                Some(r) => Some(s@ + r),
                None => None,
            },
            SynthesizerPart::Match(m) => match (match_apply_spec(&m, g, t, add_lower), rest) {
                (Some(x), Some(r)) => Some(x + r),
                _ => None,
            },
        }
    }
}

/// Whether the template starts with a reference that converts case.
pub open spec fn starts_with_conversion(parts: Seq<SynthesizerPart>) -> bool {
    parts.len() > 0 && match parts[0] {
        SynthesizerPart::Match(m) => !(m.conversion is Nop),
        _ => false,
    }
}

/// The first group from `from` on that covers at least one token.
pub open spec fn first_filled_group(groups: Seq<Group>, from: int) -> Option<int>
    decreases groups.len() - from,
{
    if from < 0 || from >= groups.len() {
        None
    } else if groups[from].token_range.0 < groups[from].token_range.1 {
        Some(from)
    } else {
        first_filled_group(groups, from + 1)
    }
}

/// Whether the suggestion's first letter is uppercased: the first matched
/// token starts with an uppercase letter (and the adjustment is on), or it
/// stands at the very start of the sentence.
pub open spec fn case_adjust_spec(
    use_titlecase_adjust: bool,
    g: MatchGraphV,
    tokensv: Seq<TokenV>,
    start: usize,
) -> bool {
    match graph_index_of(g, start) {
        None => false,
        Some(idx0) => match first_filled_group(g.groups, idx0 as int) {
            None => false,
            Some(gi) => {
                let ti = g.groups[gi].token_range.0 as int;
                if 0 <= ti < tokensv.len() {
                    let ft = tokensv[ti];
                    (use_titlecase_adjust && ft.word.text.len() > 0 && char_is_upper(
                        ft.word.text[0],
                    )) || ft.byte_span.0 == 0
                } else {
                    false
                }
            },
        },
    }
}

/// What the synthesizer yields: the parts joined, whitespace normalized,
/// and the first letter uppercased where the case adjustment asks for it
/// (never after a leading case-converting reference).
pub open spec fn synth_apply_spec(
    sy: &Synthesizer,
    g: MatchGraphV,
    tokensv: Seq<TokenV>,
    t: &Tagger,
    add_lower: bool,
    start: usize,
) -> Option<Seq<char>> {
    match parts_concat(sy.parts@, g, t, add_lower) {
        None => None,
        Some(joined) => {
            let sug = normalize_ws_spec(joined);
            if !starts_with_conversion(sy.parts@) && case_adjust_spec(
                sy.use_titlecase_adjust,
                g,
                tokensv,
                start,
            ) {
                Some(upper_first_spec(sug))
            } else {
                Some(sug)
            }
        },
    }
}

impl Synthesizer {
    pub fn new(use_titlecase_adjust: bool, parts: Vec<SynthesizerPart>) -> (r: Self)
        ensures
            r.use_titlecase_adjust == use_titlecase_adjust,
            r.parts@ == parts@,
    {
        Synthesizer { use_titlecase_adjust, parts }
    }

    /// Build the replacement text for one match.
    pub fn apply(
        &self,
        graph: &MatchGraph,
        tokens: &Vec<Token>,
        tokenizer: &Tokenizer,
        start: usize,
        _end: usize,
    ) -> (r: Option<String>)
        ensures
            match synth_apply_spec(
                self,
                graph@,
                tokens_view(tokens@),
                &tokenizer.tagger,
                tokenizer.options.always_add_lower_tags,
                start,
            ) {
                None => r is None,
                Some(v) => r is Some && r->0@ == v,
            },
    {
        let ghost tv = tokens_view(tokens@);
        let ghost add_lower = tokenizer.options.always_add_lower_tags;
        let mut joined: Vec<char> = Vec::new();
        let n = self.parts.len();
        let mut p: usize = n;
        proof {
            assert(self.parts@.skip(n as int) =~= Seq::<SynthesizerPart>::empty());
        }
        // build the concatenation back to front, prepending each part
        while p > 0
            invariant
                p <= n,
                n == self.parts@.len(),
                match parts_concat(
                    self.parts@.skip(p as int),
                    graph@,
                    &tokenizer.tagger,
                    add_lower,
                ) {
                    Some(v) => joined@ == v,
                    None => false,
                },
                add_lower == tokenizer.options.always_add_lower_tags,
            decreases p,
        {
            p -= 1;
            proof {
                assert(self.parts@.skip(p as int)[0] == self.parts@[p as int]);
                assert(self.parts@.skip(p as int).skip(1) =~= self.parts@.skip(p + 1 as int));
            }
            let piece: String = match &self.parts[p] {
                SynthesizerPart::Text(t) => t.clone(),
                SynthesizerPart::Match(m) => {
                    match m.apply(graph, tokenizer) {
                        Some(t) => t,
                        None => {
                            proof {
                                assert(parts_concat(
                                    self.parts@.skip(p as int),
                                    graph@,
                                    &tokenizer.tagger,
                                    add_lower,
                                ) is None);
                                lemma_parts_concat_none(
                                    self.parts@,
                                    graph@,
                                    &tokenizer.tagger,
                                    add_lower,
                                    0,
                                    p as int,
                                );
                                assert(self.parts@.skip(0) =~= self.parts@);
                            }
                            return None;
                        },
                    }
                },
            };
            let piece_chars = chars_of(piece.as_str());
            let mut next: Vec<char> = piece_chars;
            crate::text::push_range(&mut next, &joined, 0, joined.len());
            proof {
                assert(joined@.subrange(0, joined@.len() as int) =~= joined@);
            }
            joined = next;
        }
        proof {
            assert(self.parts@.skip(0) =~= self.parts@);
        }
        let joined_str = string_of(&joined);
        let suggestion = normalize_whitespace(joined_str.as_str());
        let starts_conv: bool = if self.parts.len() > 0 {
            match &self.parts[0] {
                SynthesizerPart::Match(m) => m.has_conversion(),
                _ => false,
            }
        } else {
            false
        };
        let mut adjust: bool = false;
        if !starts_conv {
            if let Some(idx0) = graph.get_index(start) {
                // find the first group that covers a token
                let mut gi: usize = idx0;
                while gi < graph.groups.len() && graph.groups[gi].token_range.0
                    >= graph.groups[gi].token_range.1
                    invariant
                        idx0 <= gi <= graph@.groups.len(),
                        first_filled_group(graph@.groups, idx0 as int) == first_filled_group(
                            graph@.groups,
                            gi as int,
                        ),
                    decreases graph@.groups.len() - gi,
                {
                    gi += 1;
                }
                if gi < graph.groups.len() {
                    let ti = graph.groups[gi].token_range.0;
                    if ti < tokens.len() {
                        proof {
                            assert(tv[ti as int] == tokens@[ti as int]@);
                        }
                        let ft = &tokens[ti];
                        let mut cond: bool = ft.byte_span.0 == 0;
                        if !cond && self.use_titlecase_adjust {
                            let wchars = chars_of(ft.word.text.as_str());
                            if wchars.len() > 0 {
                                cond = crate::outside::is_uppercase_char(wchars[0]);
                            }
                        }
                        adjust = cond;
                        proof {
                            assert(adjust == case_adjust_spec(
                                self.use_titlecase_adjust,
                                graph@,
                                tv,
                                start,
                            ));
                        }
                    }
                }
            }
        }
        if adjust {
            let up = uppercase_first(&suggestion);
            Some(string_of(&up))
        } else {
            proof {
                if !starts_with_conversion(self.parts@) {
                    assert(!case_adjust_spec(self.use_titlecase_adjust, graph@, tv, start));
                }
            }
            Some(string_of(&suggestion))
        }
    }
}

} // verus!
