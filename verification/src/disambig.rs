use vstd::prelude::*;
use crate::outside::{SerializeRegex, regex_is_match, cartesian_indices, valid_combo};
use crate::word::{
    IncompleteToken, TokenV, Word, WordData, WordDataV, WordV, itokens_view, tags_view,
};

verus! {

/// A predicate over a part-of-speech tag: a literal or a regular expression.
pub enum POSFilter {
    Rx(SerializeRegex),
    Literal(String),
}

/// Whether the filter holds of one tag candidate.
pub open spec fn posfilter_matches(f: &POSFilter, d: WordDataV) -> bool {
    match f {
        POSFilter::Literal(s) => d.pos == s@,
        POSFilter::Rx(re) => regex_is_match(re@, d.pos),
    }
}

/// The tags of `w` the filter keeps.
pub open spec fn tags_kept(f: &POSFilter, tags: Seq<WordDataV>) -> Seq<WordDataV>
    decreases tags.len(),
{
    if tags.len() == 0 {
        Seq::empty()
    } else if posfilter_matches(f, tags[0]) {
        seq![tags[0]] + tags_kept(f, tags.skip(1))
    } else {
        tags_kept(f, tags.skip(1))
    }
}

/// The tags of `w` the filter does not match.
pub open spec fn tags_removed(f: &POSFilter, tags: Seq<WordDataV>) -> Seq<WordDataV>
    decreases tags.len(),
{
    if tags.len() == 0 {
        Seq::empty()
    } else if !posfilter_matches(f, tags[0]) {
        seq![tags[0]] + tags_removed(f, tags.skip(1))
    } else {
        tags_removed(f, tags.skip(1))
    }
}

impl POSFilter {
    pub fn regex(regex: SerializeRegex) -> (r: Self)
        ensures
            r == POSFilter::Rx(regex),
    {
        POSFilter::Rx(regex)
    }

    pub fn string(string: String) -> (r: Self)
        ensures
            r is Literal && r->Literal_0@ == string@,
    {
        POSFilter::Literal(string)
    }

    /// Whether the filter holds of this tag candidate.
    pub fn is_word_data_match(&self, data: &WordData) -> (r: bool)
        ensures
            r == posfilter_matches(self, data@),
    {
        match self {
            POSFilter::Literal(s) => {
                let r = data.pos == *s;
                r
            },
            POSFilter::Rx(re) => re.is_match(data.pos.as_str()),
        }
    }

    /// Retain only the tags the filter matches.
    pub fn keep(&self, data: &mut Word)
        ensures
            final(data)@.text == old(data)@.text,
            final(data)@.tags == tags_kept(self, old(data)@.tags),
    {
        let mut kept: Vec<WordData> = Vec::new();
        let ghost all = tags_view(data.tags@);
        let mut i: usize = 0;
        proof {
            assert(all.skip(0) =~= all);
            assert(Seq::<WordDataV>::empty() + tags_kept(self, all) =~= tags_kept(self, all));
        }
        while i < data.tags.len()
            invariant
                i <= data.tags@.len(),
                all == tags_view(data.tags@),
                tags_kept(self, all) == tags_view(kept@) + tags_kept(self, all.skip(i as int)),
            decreases data.tags@.len() - i,
        {
            proof {
                assert(all.skip(i as int)[0] == all[i as int]);
                assert(all[i as int] == data.tags@[i as int]@);
                assert(all.skip(i as int).skip(1) =~= all.skip(i + 1 as int));
            }
            let ghost prev = tags_view(kept@);
            if self.is_word_data_match(&data.tags[i]) {
                kept.push(data.tags[i].duplicate());
                proof {
                    assert(tags_view(kept@) =~= prev.push(all[i as int]));
                    assert(prev + (seq![all[i as int]] + tags_kept(self, all.skip(i + 1 as int)))
                        =~= tags_view(kept@) + tags_kept(self, all.skip(i + 1 as int)));
                }
            }
            i += 1;
        }
        proof {
            assert(all.skip(all.len() as int) =~= Seq::<WordDataV>::empty());
            assert(tags_view(kept@) + Seq::<WordDataV>::empty() =~= tags_view(kept@));
        }
        data.tags = kept;
    }

    /// Retain only the tags the filter does not match.
    pub fn remove(&self, data: &mut Word)
        ensures
            final(data)@.text == old(data)@.text,
            final(data)@.tags == tags_removed(self, old(data)@.tags),
    {
        let mut kept: Vec<WordData> = Vec::new();
        let ghost all = tags_view(data.tags@);
        let mut i: usize = 0;
        proof {
            assert(all.skip(0) =~= all);
            assert(Seq::<WordDataV>::empty() + tags_removed(self, all) =~= tags_removed(self, all));
        }
        while i < data.tags.len()
            invariant
                i <= data.tags@.len(),
                all == tags_view(data.tags@),
                tags_removed(self, all) == tags_view(kept@) + tags_removed(self, all.skip(i as int)),
            decreases data.tags@.len() - i,
        {
            proof {
                assert(all.skip(i as int)[0] == all[i as int]);
                assert(all[i as int] == data.tags@[i as int]@);
                assert(all.skip(i as int).skip(1) =~= all.skip(i + 1 as int));
            }
            let ghost prev = tags_view(kept@);
            if !self.is_word_data_match(&data.tags[i]) {
                kept.push(data.tags[i].duplicate());
                proof {
                    assert(tags_view(kept@) =~= prev.push(all[i as int]));
                    assert(prev + (seq![all[i as int]] + tags_removed(self, all.skip(i + 1 as int)))
                        =~= tags_view(kept@) + tags_removed(self, all.skip(i + 1 as int)));
                }
            }
            i += 1;
        }
        proof {
            assert(all.skip(all.len() as int) =~= Seq::<WordDataV>::empty());
            assert(tags_view(kept@) + Seq::<WordDataV>::empty() =~= tags_view(kept@));
        }
        data.tags = kept;
    }

    /// Whether some tag of the word satisfies every filter of the list.
    pub fn and(filters: &Vec<&POSFilter>, data: &Word) -> (r: bool)
        ensures
            r == and_matches_some(filters@, data@.tags),
    {
        let mut t: usize = 0;
        while t < data.tags.len()
            invariant
                t <= data.tags@.len(),
                forall|q: int|
                    0 <= q < t ==> !all_filters_match(filters@, (#[trigger] tags_view(
                        data.tags@,
                    )[q])),
            decreases data.tags@.len() - t,
        {
            let mut all: bool = true;
            let mut k: usize = 0;
            while k < filters.len() && all
                invariant
                    k <= filters@.len(),
                    t < data.tags@.len(),
                    all ==> (forall|j: int|
                        0 <= j < k ==> posfilter_matches(
                            #[trigger] filters@[j],
                            tags_view(data.tags@)[t as int],
                        )),
                    !all ==> !all_filters_match(filters@, tags_view(data.tags@)[t as int]),
                decreases filters@.len() - k + (if all { 1int } else { 0int }),
            {
                proof {
                    assert(tags_view(data.tags@)[t as int] == data.tags@[t as int]@);
                }
                if !filters[k].is_word_data_match(&data.tags[t]) {
                    all = false;
                    proof {
                        assert(!posfilter_matches(
                            filters@[k as int],
                            tags_view(data.tags@)[t as int],
                        ));
                    }
                } else {
                    k += 1;
                }
            }
            if all {
                proof {
                    assert(all_filters_match(filters@, tags_view(data.tags@)[t as int]));
                }
                return true;
            }
            t += 1;
        }
        false
    }

    /// Retain only the tags some filter list fully matches (an OR of ANDs).
    pub fn apply(filters: &Vec<Vec<&POSFilter>>, data: &mut Word)
        ensures
            final(data)@.text == old(data)@.text,
            final(data)@.tags == dnf_kept(filters@, old(data)@.tags),
    {
        let ghost fsv = filters@;
        let mut kept: Vec<WordData> = Vec::new();
        let ghost all = tags_view(data.tags@);
        let mut i: usize = 0;
        proof {
            assert(all.skip(0) =~= all);
            assert(Seq::<WordDataV>::empty() + dnf_kept(fsv, all) =~= dnf_kept(fsv, all));
        }
        while i < data.tags.len()
            invariant
                i <= data.tags@.len(),
                fsv == filters@,
                all == tags_view(data.tags@),
                dnf_kept(fsv, all) == tags_view(kept@) + dnf_kept(fsv, all.skip(i as int)),
            decreases data.tags@.len() - i,
        {
            proof {
                assert(all.skip(i as int)[0] == all[i as int]);
                assert(all[i as int] == data.tags@[i as int]@);
                assert(all.skip(i as int).skip(1) =~= all.skip(i + 1 as int));
            }
            let ghost prev = tags_view(kept@);
            let mut hit: bool = false;
            let mut g: usize = 0;
            while g < filters.len() && !hit
                invariant
                    g <= filters@.len(),
                    fsv == filters@,
                    i < data.tags@.len(),
                    all == tags_view(data.tags@),
                    !hit ==> (forall|q: int|
                        0 <= q < g ==> !all_filters_match(#[trigger] filters@[q]@, all[i as int])),
                    hit ==> dnf_matches(fsv, all[i as int]),
                decreases filters@.len() - g + (if hit { 0int } else { 1int }),
            {
                let group = &filters[g];
                let mut allm: bool = true;
                let mut k: usize = 0;
                while k < group.len() && allm
                    invariant
                        k <= group@.len(),
                        i < data.tags@.len(),
                        all == tags_view(data.tags@),
                        group == &filters@[g as int],
                        allm ==> (forall|j: int|
                            0 <= j < k ==> posfilter_matches(
                                #[trigger] group@[j],
                                all[i as int],
                            )),
                        !allm ==> !all_filters_match(group@, all[i as int]),
                    decreases group@.len() - k + (if allm { 1int } else { 0int }),
                {
                    proof {
                        assert(all[i as int] == data.tags@[i as int]@);
                    }
                    if !group[k].is_word_data_match(&data.tags[i]) {
                        allm = false;
                        proof {
                            assert(!posfilter_matches(group@[k as int], all[i as int]));
                        }
                    } else {
                        k += 1;
                    }
                }
                if allm {
                    hit = true;
                    proof {
                        assert(all_filters_match(filters@[g as int]@, all[i as int]));
                    }
                } else {
                    g += 1;
                }
            }
            if hit {
                kept.push(data.tags[i].duplicate());
                proof {
                    assert(dnf_matches(fsv, all[i as int]));
                    assert(tags_view(kept@) =~= prev.push(all[i as int]));
                    assert(prev + (seq![all[i as int]] + dnf_kept(fsv, all.skip(i + 1 as int)))
                        =~= tags_view(kept@) + dnf_kept(fsv, all.skip(i + 1 as int)));
                }
            } else {
                proof {
                    assert(!dnf_matches(fsv, all[i as int]));
                }
            }
            i += 1;
        }
        proof {
            assert(all.skip(all.len() as int) =~= Seq::<WordDataV>::empty());
            assert(tags_view(kept@) + Seq::<WordDataV>::empty() =~= tags_view(kept@));
        }
        data.tags = kept;
    }
}

/// Whether every filter of the list holds of the tag.
pub open spec fn all_filters_match(fs: Seq<&POSFilter>, d: WordDataV) -> bool {
    forall|j: int| 0 <= j < fs.len() ==> posfilter_matches(#[trigger] fs[j], d)
}

/// Whether some tag satisfies every filter of the list.
pub open spec fn and_matches_some(fs: Seq<&POSFilter>, tags: Seq<WordDataV>) -> bool {
    exists|q: int| 0 <= q < tags.len() && all_filters_match(fs, #[trigger] tags[q])
}

/// Whether some filter list fully matches the tag.
pub open spec fn dnf_matches(groups: Seq<Vec<&POSFilter>>, d: WordDataV) -> bool {
    exists|q: int| 0 <= q < groups.len() && all_filters_match(#[trigger] groups[q]@, d)
}

/// The tags some filter list fully matches.
pub open spec fn dnf_kept(groups: Seq<Vec<&POSFilter>>, tags: Seq<WordDataV>) -> Seq<WordDataV>
    decreases tags.len(),
{
    if tags.len() == 0 {
        Seq::empty()
    } else if dnf_matches(groups, tags[0]) {
        seq![tags[0]] + dnf_kept(groups, tags.skip(1))
    } else {
        dnf_kept(groups, tags.skip(1))
    }
}

// ---------------------------------------------------------------------------
// The disambiguation operators
// ---------------------------------------------------------------------------

/// A per-group parameter that is either a concrete tag or a filter.
pub enum DataOrFilter {
    Data(WordData),
    Filter(POSFilter),
}

/// The operator a disambiguation rule applies to its groups' tokens.
pub enum Disambiguation {
    Remove(Vec<DataOrFilter>),
    Add(Vec<WordData>),
    Replace(Vec<WordData>),
    Filter(Vec<Option<DataOrFilter>>),
    Unify(Vec<Vec<POSFilter>>, Vec<Option<POSFilter>>, Vec<bool>),
    Nop,
}

/// Whether `Remove` with this parameter drops the tag: the part of speech
/// agrees, and the lemma agrees or the parameter leaves it open.
pub open spec fn wd_removes(d: WordDataV, limit: WordDataV) -> bool {
    d.pos == limit.pos && (limit.lemma.len() == 0 || d.lemma == limit.lemma)
}

/// The tags `Remove` with a concrete parameter keeps.
pub open spec fn tags_without_data(tags: Seq<WordDataV>, limit: WordDataV) -> Seq<WordDataV>
    decreases tags.len(),
{
    if tags.len() == 0 {
        Seq::empty()
    } else if !wd_removes(tags[0], limit) {
        seq![tags[0]] + tags_without_data(tags.skip(1), limit)
    } else {
        tags_without_data(tags.skip(1), limit)
    }
}

/// The tags whose part of speech is not empty.
pub open spec fn tags_nonempty_pos(tags: Seq<WordDataV>) -> Seq<WordDataV>
    decreases tags.len(),
{
    if tags.len() == 0 {
        Seq::empty()
    } else if tags[0].pos.len() > 0 {
        seq![tags[0]] + tags_nonempty_pos(tags.skip(1))
    } else {
        tags_nonempty_pos(tags.skip(1))
    }
}

/// The tags whose part of speech equals `pos`.
pub open spec fn tags_pos_eq(tags: Seq<WordDataV>, pos: Seq<char>) -> Seq<WordDataV>
    decreases tags.len(),
{
    if tags.len() == 0 {
        Seq::empty()
    } else if tags[0].pos == pos {
        seq![tags[0]] + tags_pos_eq(tags.skip(1), pos)
    } else {
        tags_pos_eq(tags.skip(1), pos)
    }
}

/// The tag `Add` and `Replace` build: the parameter's lemma, or the token's
/// own text when the parameter leaves the lemma empty.
pub open spec fn added_tag(w: WordV, d: WordDataV) -> WordDataV {
    WordDataV {
        lemma: if d.lemma.len() == 0 {
            w.text
        } else {
            d.lemma
        },
        pos: d.pos,
    }
}

/// `Remove` with a concrete tag.
pub open spec fn word_remove_data(w: WordV, limit: WordDataV) -> WordV {
    WordV { text: w.text, tags: tags_without_data(w.tags, limit) }
}

/// `Add`: append the new tag, then drop tags with an empty part of speech.
pub open spec fn word_add(w: WordV, d: WordDataV) -> WordV {
    WordV { text: w.text, tags: tags_nonempty_pos(w.tags.push(added_tag(w, d))) }
}

/// `Replace`: the new tag alone.
pub open spec fn word_replace(w: WordV, d: WordDataV) -> WordV {
    WordV { text: w.text, tags: seq![added_tag(w, d)] }
}

/// `Filter` with a concrete limit: keep the tags with the limit's part of
/// speech; were that to empty the tag set, fall back to one tag whose lemma
/// is the remembered last lemma (`retain_last`) or the token's text.
pub open spec fn word_filter_limit(w: WordV, limit: WordDataV, retain_last: bool) -> WordV {
    let last = if w.tags.len() > 0 {
        w.tags[0].lemma
    } else {
        w.text
    };
    let kept = tags_pos_eq(w.tags, limit.pos);
    if kept.len() == 0 {
        WordV {
            text: w.text,
            tags: seq![
                WordDataV {
                    lemma: if retain_last {
                        last
                    } else {
                        w.text
                    },
                    pos: limit.pos,
                },
            ],
        }
    } else {
        WordV { text: w.text, tags: kept }
    }
}

/// Whether every filter of the tuple the index combination picks holds of
/// the tag.
pub open spec fn combo_all_match(
    filters: Seq<Vec<POSFilter>>,
    combo: Seq<usize>,
    d: WordDataV,
) -> bool {
    forall|j: int|
        0 <= j < filters.len() ==> posfilter_matches(&(#[trigger] filters[j])@[combo[j] as int], d)
}

/// Whether some tag of the list satisfies the combination.
pub open spec fn combo_word_match(
    filters: Seq<Vec<POSFilter>>,
    combo: Seq<usize>,
    tags: Seq<WordDataV>,
) -> bool {
    exists|q: int| 0 <= q < tags.len() && combo_all_match(filters, combo, #[trigger] tags[q])
}

/// The tags of the token at an index, empty out of range.
pub open spec fn token_tags_at(tokens: Seq<TokenV>, idx: int) -> Seq<WordDataV> {
    if 0 <= idx < tokens.len() {
        tokens[idx].word.tags
    } else {
        Seq::empty()
    }
}

/// The lengths of the filter axes.
pub open spec fn axis_lens(filters: Seq<Vec<POSFilter>>) -> Seq<usize> {
    filters.map_values(|v: Vec<POSFilter>| v.len() as usize)
}

/// Whether a combination survives discovery: every token of every masked
/// group has some tag it fully matches.
pub open spec fn combo_active(
    filters: Seq<Vec<POSFilter>>,
    combo: Seq<usize>,
    tokens: Seq<TokenV>,
    groups: Seq<Seq<usize>>,
    mask: Seq<bool>,
) -> bool {
    forall|g: int, k: int|
        0 <= g < groups.len() && g < mask.len() && mask[g] && 0 <= k < (
        #[trigger] groups[g]).len() ==> combo_word_match(
            filters,
            combo,
            token_tags_at(tokens, #[trigger] groups[g][k] as int),
        )
}

/// Whether any valid combination survives discovery.
pub open spec fn unify_any_active(
    filters: Seq<Vec<POSFilter>>,
    tokens: Seq<TokenV>,
    groups: Seq<Seq<usize>>,
    mask: Seq<bool>,
) -> bool {
    exists|combo: Seq<usize>|
        valid_combo(combo, axis_lens(filters)) && combo_active(filters, combo, tokens, groups, mask)
}

/// Whether `Unify` retains the tag: some surviving combination fully
/// matches it.
pub open spec fn unify_tag_ok(
    filters: Seq<Vec<POSFilter>>,
    tokens: Seq<TokenV>,
    groups: Seq<Seq<usize>>,
    mask: Seq<bool>,
    d: WordDataV,
) -> bool {
    exists|combo: Seq<usize>|
        valid_combo(combo, axis_lens(filters)) && combo_active(filters, combo, tokens, groups, mask)
            && combo_all_match(filters, combo, d)
}

/// The tags `Unify` retains.
pub open spec fn unify_kept(
    filters: Seq<Vec<POSFilter>>,
    tokens: Seq<TokenV>,
    groups: Seq<Seq<usize>>,
    mask: Seq<bool>,
    tags: Seq<WordDataV>,
) -> Seq<WordDataV>
    decreases tags.len(),
{
    if tags.len() == 0 {
        Seq::empty()
    } else if unify_tag_ok(filters, tokens, groups, mask, tags[0]) {
        seq![tags[0]] + unify_kept(filters, tokens, groups, mask, tags.skip(1))
    } else {
        unify_kept(filters, tokens, groups, mask, tags.skip(1))
    }
}

/// `Unify` on one word: retain the jointly feasible tags, then apply the
/// group's own filter; an emptied tag set is restored whole.
pub open spec fn word_unify(
    w: WordV,
    filters: Seq<Vec<POSFilter>>,
    tokens: Seq<TokenV>,
    groups: Seq<Seq<usize>>,
    mask: Seq<bool>,
    disambig: &Option<POSFilter>,
) -> WordV {
    let kept1 = unify_kept(filters, tokens, groups, mask, w.tags);
    let kept2 = match disambig {
        Some(f) => tags_kept(f, kept1),
        None => kept1,
    };
    if kept2.len() == 0 {
        w
    } else {
        WordV { text: w.text, tags: kept2 }
    }
}

/// How many groups the operator walks: the shorter of the group list and
/// its own per-group parameters.
pub open spec fn op_group_count(op: &Disambiguation, groups: Seq<Seq<usize>>) -> int {
    match op {
        Disambiguation::Remove(list) => if groups.len() <= list@.len() {
            groups.len() as int
        } else {
            list@.len() as int
        },
        Disambiguation::Add(list) => if groups.len() <= list@.len() {
            groups.len() as int
        } else {
            list@.len() as int
        },
        Disambiguation::Replace(list) => if groups.len() <= list@.len() {
            groups.len() as int
        } else {
            list@.len() as int
        },
        Disambiguation::Filter(list) => if groups.len() <= list@.len() {
            groups.len() as int
        } else {
            list@.len() as int
        },
        Disambiguation::Unify(_, disambigs, mask) => {
            let m = if disambigs@.len() <= mask@.len() {
                disambigs@.len() as int
            } else {
                mask@.len() as int
            };
            if groups.len() <= m {
                groups.len() as int
            } else {
                m
            }
        },
        Disambiguation::Nop => 0,
    }
}

/// What the operator does to one word of group `g`. `old_tokens` is the
/// token sequence as it stood when the operator started: `Unify` discovery
/// reads it.
pub open spec fn disamb_word(
    op: &Disambiguation,
    g: int,
    w: WordV,
    retain_last: bool,
    old_tokens: Seq<TokenV>,
    groups: Seq<Seq<usize>>,
) -> WordV {
    match op {
        Disambiguation::Remove(list) => match list@[g] {
            DataOrFilter::Data(d) => word_remove_data(w, d@),
            DataOrFilter::Filter(f) => WordV { text: w.text, tags: tags_removed(&f, w.tags) },
        },
        Disambiguation::Add(list) => word_add(w, list@[g]@),
        Disambiguation::Replace(list) => word_replace(w, list@[g]@),
        Disambiguation::Filter(list) => match list@[g] {
            None => w,
            Some(DataOrFilter::Data(limit)) => word_filter_limit(w, limit@, retain_last),
            Some(DataOrFilter::Filter(f)) => WordV { text: w.text, tags: tags_kept(&f, w.tags) },
        },
        Disambiguation::Unify(filters, disambigs, mask) => if 0 <= g < mask@.len() && mask@[g] {
            word_unify(w, filters@, old_tokens, groups, mask@, &disambigs@[g])
        } else {
            w
        },
        Disambiguation::Nop => w,
    }
}

/// The token sequence with the word at `idx` replaced (unchanged out of
/// range).
pub open spec fn set_word(tokens: Seq<TokenV>, idx: int, w: WordV) -> Seq<TokenV> {
    if 0 <= idx < tokens.len() {
        tokens.update(
            idx,
            TokenV {
                text: tokens[idx].text,
                word: w,
                char_span: tokens[idx].char_span,
                byte_span: tokens[idx].byte_span,
            },
        )
    } else {
        tokens
    }
}

/// The word at an index (empty out of range).
pub open spec fn word_at(tokens: Seq<TokenV>, idx: int) -> WordV {
    if 0 <= idx < tokens.len() {
        tokens[idx].word
    } else {
        WordV { text: Seq::empty(), tags: Seq::empty() }
    }
}

/// Apply the operator to the listed tokens of group `g`, left to right.
pub open spec fn apply_idx_fold(
    op: &Disambiguation,
    tokens: Seq<TokenV>,
    old_tokens: Seq<TokenV>,
    groups: Seq<Seq<usize>>,
    g: int,
    idxs: Seq<usize>,
    retain_last: bool,
) -> Seq<TokenV>
    decreases idxs.len(),
{
    if idxs.len() == 0 {
        tokens
    } else {
        let idx = idxs[0] as int;
        let w2 = disamb_word(op, g, word_at(tokens, idx), retain_last, old_tokens, groups);
        apply_idx_fold(
            op,
            set_word(tokens, idx, w2),
            old_tokens,
            groups,
            g,
            idxs.skip(1),
            retain_last,
        )
    }
}

/// Apply the operator to groups `g..gmax` in order.
pub open spec fn apply_group_fold(
    op: &Disambiguation,
    tokens: Seq<TokenV>,
    old_tokens: Seq<TokenV>,
    groups: Seq<Seq<usize>>,
    g: int,
    gmax: int,
    retain_last: bool,
) -> Seq<TokenV>
    decreases gmax - g,
{
    if g < 0 || g >= gmax {
        tokens
    } else {
        apply_group_fold(
            op,
            apply_idx_fold(op, tokens, old_tokens, groups, g, groups[g], retain_last),
            old_tokens,
            groups,
            g + 1,
            gmax,
            retain_last,
        )
    }
}

/// What applying the operator to the grouped tokens yields. `Nop` changes
/// nothing; `Unify` with no surviving combination changes nothing.
pub open spec fn disamb_apply_spec(
    op: &Disambiguation,
    tokens: Seq<TokenV>,
    groups: Seq<Seq<usize>>,
    retain_last: bool,
) -> Seq<TokenV> {
    match op {
        Disambiguation::Nop => tokens,
        Disambiguation::Unify(filters, _, mask) => if !unify_any_active(
            filters@,
            tokens,
            groups,
            mask@,
        ) {
            tokens
        } else {
            apply_group_fold(op, tokens, tokens, groups, 0, op_group_count(op, groups), retain_last)
        },
        _ => apply_group_fold(op, tokens, tokens, groups, 0, op_group_count(op, groups), retain_last),
    }
}

/// The views of grouped token indices.
pub open spec fn groups_view(groups: Seq<Vec<usize>>) -> Seq<Seq<usize>> {
    groups.map_values(|v: Vec<usize>| v@)
}

/// Whether `Remove` with this parameter drops the tag.
fn wd_removes_exec(d: &WordData, limit: &WordData) -> (r: bool)
    ensures
        r == wd_removes(d@, limit@),
{
    d.pos == limit.pos && (limit.lemma.as_str().is_empty() || d.lemma == limit.lemma)
}

/// `Remove` with a concrete tag, on one word.
fn do_remove_data(w: &Word, limit: &WordData) -> (r: Word)
    ensures
        r@ == word_remove_data(w@, limit@),
{
    let ghost all = tags_view(w.tags@);
    let mut kept: Vec<WordData> = Vec::new();
    let mut i: usize = 0;
    proof {
        assert(all.skip(0) =~= all);
        assert(Seq::<WordDataV>::empty() + tags_without_data(all, limit@) =~= tags_without_data(
            all,
            limit@,
        ));
    }
    while i < w.tags.len()
        invariant
            i <= w.tags@.len(),
            all == tags_view(w.tags@),
            tags_without_data(all, limit@) == tags_view(kept@) + tags_without_data(
                all.skip(i as int),
                limit@,
            ),
        decreases w.tags@.len() - i,
    {
        proof {
            assert(all.skip(i as int)[0] == all[i as int]);
            assert(all[i as int] == w.tags@[i as int]@);
            assert(all.skip(i as int).skip(1) =~= all.skip(i + 1 as int));
        }
        let ghost prev = tags_view(kept@);
        if !wd_removes_exec(&w.tags[i], limit) {
            kept.push(w.tags[i].duplicate());
            proof {
                assert(tags_view(kept@) =~= prev.push(all[i as int]));
                assert(prev + (seq![all[i as int]] + tags_without_data(
                    all.skip(i + 1 as int),
                    limit@,
                )) =~= tags_view(kept@) + tags_without_data(all.skip(i + 1 as int), limit@));
            }
        }
        i += 1;
    }
    proof {
        assert(all.skip(all.len() as int) =~= Seq::<WordDataV>::empty());
        assert(tags_view(kept@) + Seq::<WordDataV>::empty() =~= tags_view(kept@));
    }
    let r = Word { text: w.text.clone(), tags: kept };
    proof {
        assert(r@ =~= word_remove_data(w@, limit@));
    }
    r
}

/// The tag `Add` and `Replace` build, on one word.
fn make_added_tag(w: &Word, d: &WordData) -> (r: WordData)
    ensures
        r@ == added_tag(w@, d@),
{
    let lemma = if d.lemma.as_str().is_empty() {
        w.text.clone()
    } else {
        d.lemma.clone()
    };
    let r = WordData { lemma, pos: d.pos.clone() };
    proof {
        assert(r@ =~= added_tag(w@, d@));
    }
    r
}

/// `Add` on one word.
fn do_add(w: &Word, d: &WordData) -> (r: Word)
    ensures
        r@ == word_add(w@, d@),
{
    let mut wd = w.duplicate();
    let tag = make_added_tag(w, d);
    let ghost before = tags_view(wd.tags@);
    wd.tags.push(tag);
    let ghost all = tags_view(wd.tags@);
    proof {
        crate::word::lemma_tags_view_push(wd.tags@.drop_last(), wd.tags@.last());
        assert(wd.tags@.drop_last().push(wd.tags@.last()) =~= wd.tags@);
        assert(all =~= w@.tags.push(added_tag(w@, d@)));
    }
    let mut kept: Vec<WordData> = Vec::new();
    let mut i: usize = 0;
    proof {
        assert(all.skip(0) =~= all);
        assert(Seq::<WordDataV>::empty() + tags_nonempty_pos(all) =~= tags_nonempty_pos(all));
    }
    while i < wd.tags.len()
        invariant
            i <= wd.tags@.len(),
            all == tags_view(wd.tags@),
            tags_nonempty_pos(all) == tags_view(kept@) + tags_nonempty_pos(all.skip(i as int)),
        decreases wd.tags@.len() - i,
    {
        proof {
            assert(all.skip(i as int)[0] == all[i as int]);
            assert(all[i as int] == wd.tags@[i as int]@);
            assert(all.skip(i as int).skip(1) =~= all.skip(i + 1 as int));
        }
        let ghost prev = tags_view(kept@);
        if !wd.tags[i].pos.as_str().is_empty() {
            kept.push(wd.tags[i].duplicate());
            proof {
                assert(tags_view(kept@) =~= prev.push(all[i as int]));
                assert(prev + (seq![all[i as int]] + tags_nonempty_pos(all.skip(i + 1 as int)))
                    =~= tags_view(kept@) + tags_nonempty_pos(all.skip(i + 1 as int)));
            }
        }
        i += 1;
    }
    proof {
        assert(all.skip(all.len() as int) =~= Seq::<WordDataV>::empty());
        assert(tags_view(kept@) + Seq::<WordDataV>::empty() =~= tags_view(kept@));
    }
    let r = Word { text: w.text.clone(), tags: kept };
    proof {
        assert(r@ =~= word_add(w@, d@));
    }
    r
}

/// `Replace` on one word.
fn do_replace(w: &Word, d: &WordData) -> (r: Word)
    ensures
        r@ == word_replace(w@, d@),
{
    let tag = make_added_tag(w, d);
    let mut tags: Vec<WordData> = Vec::new();
    tags.push(tag);
    let r = Word { text: w.text.clone(), tags };
    proof {
        assert(tags_view(r.tags@) =~= seq![added_tag(w@, d@)]);
        assert(r@ =~= word_replace(w@, d@));
    }
    r
}

/// `Filter` with a concrete limit, on one word.
fn do_filter_limit(w: &Word, limit: &WordData, retain_last: bool) -> (r: Word)
    ensures
        r@ == word_filter_limit(w@, limit@, retain_last),
{
    let last: String = if w.tags.len() > 0 {
        w.tags[0].lemma.clone()
    } else {
        w.text.clone()
    };
    let ghost all = tags_view(w.tags@);
    let mut kept: Vec<WordData> = Vec::new();
    let mut i: usize = 0;
    proof {
        assert(all.skip(0) =~= all);
        assert(Seq::<WordDataV>::empty() + tags_pos_eq(all, limit@.pos) =~= tags_pos_eq(
            all,
            limit@.pos,
        ));
    }
    while i < w.tags.len()
        invariant
            i <= w.tags@.len(),
            all == tags_view(w.tags@),
            tags_pos_eq(all, limit@.pos) == tags_view(kept@) + tags_pos_eq(
                all.skip(i as int),
                limit@.pos,
            ),
        decreases w.tags@.len() - i,
    {
        proof {
            assert(all.skip(i as int)[0] == all[i as int]);
            assert(all[i as int] == w.tags@[i as int]@);
            assert(all.skip(i as int).skip(1) =~= all.skip(i + 1 as int));
        }
        let ghost prev = tags_view(kept@);
        if w.tags[i].pos == limit.pos {
            kept.push(w.tags[i].duplicate());
            proof {
                assert(tags_view(kept@) =~= prev.push(all[i as int]));
                assert(prev + (seq![all[i as int]] + tags_pos_eq(
                    all.skip(i + 1 as int),
                    limit@.pos,
                )) =~= tags_view(kept@) + tags_pos_eq(all.skip(i + 1 as int), limit@.pos));
            }
        }
        i += 1;
    }
    proof {
        assert(all.skip(all.len() as int) =~= Seq::<WordDataV>::empty());
        assert(tags_view(kept@) + Seq::<WordDataV>::empty() =~= tags_view(kept@));
    }
    if kept.len() == 0 {
        let lemma = if retain_last {
            last
        } else {
            w.text.clone()
        };
        let mut tags: Vec<WordData> = Vec::new();
        tags.push(WordData { lemma, pos: limit.pos.clone() });
        let r = Word { text: w.text.clone(), tags };
        proof {
            assert(tags_view(r.tags@) =~= word_filter_limit(w@, limit@, retain_last).tags);
            assert(r@ =~= word_filter_limit(w@, limit@, retain_last));
        }
        r
    } else {
        let r = Word { text: w.text.clone(), tags: kept };
        proof {
            assert(r@ =~= word_filter_limit(w@, limit@, retain_last));
        }
        r
    }
}

/// The kept combinations are exactly the valid ones that survived
/// discovery.
pub open spec fn to_apply_ok(
    to_apply: Seq<Vec<usize>>,
    filters: Seq<Vec<POSFilter>>,
    tokens: Seq<TokenV>,
    groups: Seq<Seq<usize>>,
    mask: Seq<bool>,
) -> bool {
    &&& forall|t: int|
        0 <= t < to_apply.len() ==> valid_combo((#[trigger] to_apply[t])@, axis_lens(filters))
            && combo_active(filters, to_apply[t]@, tokens, groups, mask)
    &&& forall|c: Seq<usize>|
        valid_combo(c, axis_lens(filters)) && combo_active(filters, c, tokens, groups, mask)
            ==> exists|t: int| 0 <= t < to_apply.len() && (#[trigger] to_apply[t])@ == c
}

/// Whether every filter the combination picks holds of the tag.
fn combo_matches_tag(
    filters: &Vec<Vec<POSFilter>>,
    combo: &Vec<usize>,
    d: &WordData,
) -> (r: bool)
    requires
        valid_combo(combo@, axis_lens(filters@)),
    ensures
        r == combo_all_match(filters@, combo@, d@),
{
    let mut allm: bool = true;
    let mut j: usize = 0;
    while j < filters.len() && allm
        invariant
            j <= filters@.len(),
            combo@.len() == filters@.len(),
            valid_combo(combo@, axis_lens(filters@)),
            allm ==> (forall|q: int|
                0 <= q < j ==> posfilter_matches(&(#[trigger] filters@[q])@[combo@[q] as int], d@)),
            !allm ==> !combo_all_match(filters@, combo@, d@),
        decreases filters@.len() - j + (if allm { 1int } else { 0int }),
    {
        proof {
            assert(axis_lens(filters@)[j as int] == filters@[j as int].len());
        }
        if !filters[j][combo[j]].is_word_data_match(d) {
            allm = false;
            proof {
                assert(!posfilter_matches(&filters@[j as int]@[combo@[j as int] as int], d@));
            }
        } else {
            j += 1;
        }
    }
    allm
}

/// Whether some tag of the word satisfies the combination.
fn combo_matches_word(
    filters: &Vec<Vec<POSFilter>>,
    combo: &Vec<usize>,
    tags: &Vec<WordData>,
) -> (r: bool)
    requires
        valid_combo(combo@, axis_lens(filters@)),
    ensures
        r == combo_word_match(filters@, combo@, tags_view(tags@)),
{
    let mut q: usize = 0;
    while q < tags.len()
        invariant
            q <= tags@.len(),
            valid_combo(combo@, axis_lens(filters@)),
            forall|p: int|
                0 <= p < q ==> !combo_all_match(filters@, combo@, #[trigger] tags_view(tags@)[p]),
        decreases tags@.len() - q,
    {
        proof {
            assert(tags_view(tags@)[q as int] == tags@[q as int]@);
        }
        if combo_matches_tag(filters, combo, &tags[q]) {
            return true;
        }
        q += 1;
    }
    false
}

/// Whether the combination survives discovery over the masked groups.
fn check_active(
    filters: &Vec<Vec<POSFilter>>,
    combo: &Vec<usize>,
    tokens: &Vec<IncompleteToken>,
    groups: &Vec<Vec<usize>>,
    mask: &Vec<bool>,
) -> (r: bool)
    requires
        valid_combo(combo@, axis_lens(filters@)),
    ensures
        r == combo_active(filters@, combo@, itokens_view(tokens@), groups_view(groups@), mask@),
{
    let ghost tv = itokens_view(tokens@);
    let ghost gv = groups_view(groups@);
    let empty_tags: Vec<WordData> = Vec::new();
    let mut g: usize = 0;
    while g < groups.len()
        invariant
            g <= groups@.len(),
            tv == itokens_view(tokens@),
            gv == groups_view(groups@),
            empty_tags@.len() == 0,
            valid_combo(combo@, axis_lens(filters@)),
            forall|gg: int, kk: int|
                0 <= gg < g && gg < mask@.len() && mask@[gg] && 0 <= kk < (
                #[trigger] gv[gg]).len() ==> combo_word_match(
                    filters@,
                    combo@,
                    token_tags_at(tv, #[trigger] gv[gg][kk] as int),
                ),
        decreases groups@.len() - g,
    {
        if g < mask.len() && mask[g] {
            let row = &groups[g];
            let mut k: usize = 0;
            while k < row.len()
                invariant
                    k <= row@.len(),
                    g < groups@.len(),
                    g < mask@.len(),
                    mask@[g as int],
                    row == &groups@[g as int],
                    gv[g as int] == row@,
                    tv == itokens_view(tokens@),
                    gv == groups_view(groups@),
                    empty_tags@.len() == 0,
                    valid_combo(combo@, axis_lens(filters@)),
                    forall|kk: int|
                        0 <= kk < k ==> combo_word_match(
                            filters@,
                            combo@,
                            token_tags_at(tv, (#[trigger] row@[kk]) as int),
                        ),
                decreases row@.len() - k,
            {
                let idx = row[k];
                let ok: bool;
                if idx < tokens.len() {
                    proof {
                        assert(tv[idx as int] == tokens@[idx as int]@);
                        assert(token_tags_at(tv, idx as int) == tags_view(
                            tokens@[idx as int].word.tags@,
                        ));
                    }
                    ok = combo_matches_word(filters, combo, &tokens[idx].word.tags);
                } else {
                    proof {
                        assert(token_tags_at(tv, idx as int) =~= tags_view(empty_tags@));
                    }
                    ok = combo_matches_word(filters, combo, &empty_tags);
                }
                if !ok {
                    proof {
                        assert(gv[g as int][k as int] == idx);
                        assert(!combo_word_match(filters@, combo@, token_tags_at(tv, idx as int)));
                        assert(!combo_active(filters@, combo@, tv, gv, mask@));
                    }
                    return false;
                }
                k += 1;
            }
        }
        g += 1;
    }
    true
}

/// A fresh copy of an index list.
fn copy_usizes(v: &Vec<usize>) -> (r: Vec<usize>)
    ensures
        r@ == v@,
{
    let mut r: Vec<usize> = Vec::new();
    let mut i: usize = 0;
    while i < v.len()
        invariant
            i <= v@.len(),
            r@ == v@.subrange(0, i as int),
        decreases v@.len() - i,
    {
        r.push(v[i]);
        proof {
            assert(r@ =~= v@.subrange(0, i + 1 as int));
        }
        i += 1;
    }
    proof {
        assert(v@.subrange(0, v@.len() as int) =~= v@);
    }
    r
}

/// `Unify` on one word, given the surviving combinations.
fn do_unify_word(
    w: &Word,
    filters: &Vec<Vec<POSFilter>>,
    to_apply: &Vec<Vec<usize>>,
    disambig: &Option<POSFilter>,
    Ghost(origv): Ghost<Seq<TokenV>>,
    Ghost(groupsv): Ghost<Seq<Seq<usize>>>,
    Ghost(maskv): Ghost<Seq<bool>>,
) -> (r: Word)
    requires
        to_apply_ok(to_apply@, filters@, origv, groupsv, maskv),
    ensures
        r@ == word_unify(w@, filters@, origv, groupsv, maskv, disambig),
{
    let ghost all = tags_view(w.tags@);
    let mut kept: Vec<WordData> = Vec::new();
    let mut i: usize = 0;
    proof {
        assert(all.skip(0) =~= all);
        assert(Seq::<WordDataV>::empty() + unify_kept(filters@, origv, groupsv, maskv, all)
            =~= unify_kept(filters@, origv, groupsv, maskv, all));
    }
    while i < w.tags.len()
        invariant
            i <= w.tags@.len(),
            all == tags_view(w.tags@),
            to_apply_ok(to_apply@, filters@, origv, groupsv, maskv),
            unify_kept(filters@, origv, groupsv, maskv, all) == tags_view(kept@) + unify_kept(
                filters@,
                origv,
                groupsv,
                maskv,
                all.skip(i as int),
            ),
        decreases w.tags@.len() - i,
    {
        proof {
            assert(all.skip(i as int)[0] == all[i as int]);
            assert(all[i as int] == w.tags@[i as int]@);
            assert(all.skip(i as int).skip(1) =~= all.skip(i + 1 as int));
        }
        let ghost prev = tags_view(kept@);
        let mut hit: bool = false;
        let mut t: usize = 0;
        while t < to_apply.len() && !hit
            invariant
                t <= to_apply@.len(),
                i < w.tags@.len(),
                all == tags_view(w.tags@),
                to_apply_ok(to_apply@, filters@, origv, groupsv, maskv),
                !hit ==> (forall|q: int|
                    0 <= q < t ==> !combo_all_match(
                        filters@,
                        (#[trigger] to_apply@[q])@,
                        all[i as int],
                    )),
                hit ==> unify_tag_ok(filters@, origv, groupsv, maskv, all[i as int]),
            decreases to_apply@.len() - t + (if hit { 0int } else { 1int }),
        {
            if combo_matches_tag(filters, &to_apply[t], &w.tags[i]) {
                hit = true;
                proof {
                    assert(valid_combo(to_apply@[t as int]@, axis_lens(filters@)));
                    assert(combo_active(filters@, to_apply@[t as int]@, origv, groupsv, maskv));
                    assert(unify_tag_ok(filters@, origv, groupsv, maskv, all[i as int]));
                }
            } else {
                t += 1;
            }
        }
        if hit {
            kept.push(w.tags[i].duplicate());
            proof {
                assert(tags_view(kept@) =~= prev.push(all[i as int]));
                assert(prev + (seq![all[i as int]] + unify_kept(
                    filters@,
                    origv,
                    groupsv,
                    maskv,
                    all.skip(i + 1 as int),
                )) =~= tags_view(kept@) + unify_kept(
                    filters@,
                    origv,
                    groupsv,
                    maskv,
                    all.skip(i + 1 as int),
                ));
            }
        } else {
            proof {
                if unify_tag_ok(filters@, origv, groupsv, maskv, all[i as int]) {
                    let c = choose|c: Seq<usize>|
                        valid_combo(c, axis_lens(filters@)) && combo_active(
                            filters@,
                            c,
                            origv,
                            groupsv,
                            maskv,
                        ) && combo_all_match(filters@, c, all[i as int]);
                    let t0 = choose|t0: int|
                        0 <= t0 < to_apply@.len() && (#[trigger] to_apply@[t0])@ == c;
                    assert(combo_all_match(filters@, to_apply@[t0]@, all[i as int]));
                    assert(false);
                }
            }
        }
        i += 1;
    }
    proof {
        assert(all.skip(all.len() as int) =~= Seq::<WordDataV>::empty());
        assert(tags_view(kept@) + Seq::<WordDataV>::empty() =~= tags_view(kept@));
    }
    let mut w2 = Word { text: w.text.clone(), tags: kept };
    match disambig {
        Some(f) => {
            f.keep(&mut w2);
        },
        None => {},
    }
    if w2.tags.len() == 0 {
        let r = w.duplicate();
        proof {
            assert(r@ =~= word_unify(w@, filters@, origv, groupsv, maskv, disambig));
        }
        r
    } else {
        proof {
            assert(w2@ =~= word_unify(w@, filters@, origv, groupsv, maskv, disambig));
        }
        w2
    }
}

/// Replace the word of the token at `idx` (out of range: no change).
fn set_token_word(tokens: &mut Vec<IncompleteToken>, idx: usize, w: Word)
    ensures
        itokens_view(final(tokens)@) == set_word(itokens_view(old(tokens)@), idx as int, w@),
        final(tokens)@.len() == old(tokens)@.len(),
{
    if idx < tokens.len() {
        let t = &tokens[idx];
        let newt = IncompleteToken {
            text: t.text.clone(),
            word: w,
            char_span: t.char_span,
            byte_span: t.byte_span,
        };
        let ghost newv = newt@;
        tokens.set(idx, newt);
        proof {
            assert(itokens_view(tokens@) =~= set_word(
                itokens_view(old(tokens)@),
                idx as int,
                newv.word,
            ));
        }
    }
}

impl Disambiguation {
    /// Apply the operator to the grouped tokens, group by group, left to
    /// right. `Nop` changes nothing; `Unify` with no feasible combination
    /// changes nothing.
    pub fn apply(
        &self,
        tokens: &mut Vec<IncompleteToken>,
        groups: &Vec<Vec<usize>>,
        retain_last: bool,
    )
        ensures
            itokens_view(final(tokens)@) == disamb_apply_spec(
                self,
                itokens_view(old(tokens)@),
                groups_view(groups@),
                retain_last,
            ),
            final(tokens)@.len() == old(tokens)@.len(),
    {
        let ghost origv = itokens_view(tokens@);
        let ghost groupsv = groups_view(groups@);
        let mut to_apply: Vec<Vec<usize>> = Vec::new();
        match self {
            Disambiguation::Nop => {
                return ;
            },
            Disambiguation::Unify(filters, _disambigs, mask) => {
                let mut lens: Vec<usize> = Vec::new();
                let mut j: usize = 0;
                while j < filters.len()
                    invariant
                        j <= filters@.len(),
                        lens@ == axis_lens(filters@).subrange(0, j as int),
                    decreases filters@.len() - j,
                {
                    lens.push(filters[j].len());
                    proof {
                        assert(lens@ =~= axis_lens(filters@).subrange(0, j + 1 as int));
                    }
                    j += 1;
                }
                proof {
                    assert(axis_lens(filters@).subrange(0, filters@.len() as int) =~= axis_lens(
                        filters@,
                    ));
                }
                let all_combos = cartesian_indices(&lens);
                let mut c: usize = 0;
                while c < all_combos.len()
                    invariant
                        c <= all_combos@.len(),
                        lens@ == axis_lens(filters@),
                        origv == itokens_view(tokens@),
                        groupsv == groups_view(groups@),
                        forall|k: int|
                            0 <= k < all_combos@.len() ==> valid_combo(
                                (#[trigger] all_combos@[k])@,
                                lens@,
                            ),
                        forall|cc: Seq<usize>|
                            valid_combo(cc, lens@) ==> exists|k: int|
                                0 <= k < all_combos@.len() && (#[trigger] all_combos@[k])@ == cc,
                        forall|t: int|
                            0 <= t < to_apply@.len() ==> valid_combo(
                                (#[trigger] to_apply@[t])@,
                                axis_lens(filters@),
                            ) && combo_active(filters@, to_apply@[t]@, origv, groupsv, mask@),
                        forall|k: int|
                            0 <= k < c && combo_active(
                                filters@,
                                (#[trigger] all_combos@[k])@,
                                origv,
                                groupsv,
                                mask@,
                            ) ==> exists|t: int|
                                0 <= t < to_apply@.len() && (#[trigger] to_apply@[t])@
                                    == all_combos@[k]@,
                    decreases all_combos@.len() - c,
                {
                    let combo = &all_combos[c];
                    proof {
                        assert(combo@ == all_combos@[c as int]@);
                    }
                    if check_active(filters, combo, tokens, groups, mask) {
                        let ghost old_ta = to_apply@;
                        let copied = copy_usizes(combo);
                        to_apply.push(copied);
                        proof {
                            assert(to_apply@[to_apply@.len() - 1]@ == all_combos@[c as int]@);
                            assert forall|k2: int|
                                0 <= k2 < c + 1 && combo_active(
                                    filters@,
                                    (#[trigger] all_combos@[k2])@,
                                    origv,
                                    groupsv,
                                    mask@,
                                ) implies exists|t: int|
                                0 <= t < to_apply@.len() && (#[trigger] to_apply@[t])@
                                    == all_combos@[k2]@ by {
                                if k2 < c {
                                    let t0 = choose|t0: int|
                                        0 <= t0 < old_ta.len() && (#[trigger] old_ta[t0])@
                                            == all_combos@[k2]@;
                                    assert(to_apply@[t0]@ == all_combos@[k2]@);
                                } else {
                                    assert(to_apply@[to_apply@.len() - 1]@ == all_combos@[k2]@);
                                }
                            }
                        }
                    } else {
                        proof {
                            assert(!combo_active(
                                filters@,
                                all_combos@[c as int]@,
                                origv,
                                groupsv,
                                mask@,
                            ));
                        }
                    }
                    c += 1;
                }
                if to_apply.len() == 0 {
                    proof {
                        if unify_any_active(filters@, origv, groupsv, mask@) {
                            let cc = choose|cc: Seq<usize>|
                                valid_combo(cc, axis_lens(filters@)) && combo_active(
                                    filters@,
                                    cc,
                                    origv,
                                    groupsv,
                                    mask@,
                                );
                            let k = choose|k: int|
                                0 <= k < all_combos@.len() && (#[trigger] all_combos@[k])@ == cc;
                            assert(combo_active(filters@, all_combos@[k]@, origv, groupsv, mask@));
                            assert(false);
                        }
                    }
                    return ;
                }
                proof {
                    assert(valid_combo(to_apply@[0]@, axis_lens(filters@)) && combo_active(
                        filters@,
                        to_apply@[0]@,
                        origv,
                        groupsv,
                        mask@,
                    ));
                    assert(unify_any_active(filters@, origv, groupsv, mask@));
                    assert(to_apply_ok(to_apply@, filters@, origv, groupsv, mask@));
                }
            },
            _ => {},
        }
        let gmax: usize = match self {
            Disambiguation::Remove(list) => if groups.len() <= list.len() {
                groups.len()
            } else {
                list.len()
            },
            Disambiguation::Add(list) => if groups.len() <= list.len() {
                groups.len()
            } else {
                list.len()
            },
            Disambiguation::Replace(list) => if groups.len() <= list.len() {
                groups.len()
            } else {
                list.len()
            },
            Disambiguation::Filter(list) => if groups.len() <= list.len() {
                groups.len()
            } else {
                list.len()
            },
            Disambiguation::Unify(_, disambigs, mask) => {
                let m = if disambigs.len() <= mask.len() {
                    disambigs.len()
                } else {
                    mask.len()
                };
                if groups.len() <= m {
                    groups.len()
                } else {
                    m
                }
            },
            Disambiguation::Nop => 0,
        };
        proof {
            assert(gmax == op_group_count(self, groupsv));
        }
        let mut g: usize = 0;
        while g < gmax
            invariant
                g <= gmax,
                gmax == op_group_count(self, groupsv),
                groupsv == groups_view(groups@),
                tokens@.len() == old(tokens)@.len(),
                !(self is Nop),
                self is Unify ==> to_apply_ok(
                    to_apply@,
                    self->Unify_0@,
                    origv,
                    groupsv,
                    self->Unify_2@,
                ),
                apply_group_fold(self, origv, origv, groupsv, 0, gmax as int, retain_last)
                    == apply_group_fold(
                    self,
                    itokens_view(tokens@),
                    origv,
                    groupsv,
                    g as int,
                    gmax as int,
                    retain_last,
                ),
            decreases gmax - g,
        {
            let row = &groups[g];
            let ghost row_entry = itokens_view(tokens@);
            let mut k: usize = 0;
            proof {
                assert(groupsv[g as int] == row@);
                assert(row@.skip(0) =~= row@);
            }
            while k < row.len()
                invariant
                    k <= row@.len(),
                    g < gmax,
                    gmax == op_group_count(self, groupsv),
                    groupsv == groups_view(groups@),
                    row == &groups@[g as int],
                    groupsv[g as int] == row@,
                    tokens@.len() == old(tokens)@.len(),
                    !(self is Nop),
                    self is Unify ==> to_apply_ok(
                        to_apply@,
                        self->Unify_0@,
                        origv,
                        groupsv,
                        self->Unify_2@,
                    ),
                    apply_idx_fold(self, row_entry, origv, groupsv, g as int, row@, retain_last)
                        == apply_idx_fold(
                        self,
                        itokens_view(tokens@),
                        origv,
                        groupsv,
                        g as int,
                        row@.skip(k as int),
                        retain_last,
                    ),
                decreases row@.len() - k,
            {
                proof {
                    assert(row@.skip(k as int)[0] == row@[k as int]);
                    assert(row@.skip(k as int).skip(1) =~= row@.skip(k + 1 as int));
                }
                let idx = row[k];
                let ghost curv = itokens_view(tokens@);
                if idx < tokens.len() {
                    proof {
                        assert(curv[idx as int] == tokens@[idx as int]@);
                        assert(word_at(curv, idx as int) == tokens@[idx as int].word@);
                    }
                    let w2: Word = match self {
                        Disambiguation::Remove(list) => {
                            match &list[g] {
                                DataOrFilter::Data(d) => do_remove_data(&tokens[idx].word, d),
                                DataOrFilter::Filter(f) => {
                                    let mut wx = tokens[idx].word.duplicate();
                                    f.remove(&mut wx);
                                    wx
                                },
                            }
                        },
                        Disambiguation::Add(list) => do_add(&tokens[idx].word, &list[g]),
                        Disambiguation::Replace(list) => do_replace(&tokens[idx].word, &list[g]),
                        Disambiguation::Filter(list) => {
                            match &list[g] {
                                None => tokens[idx].word.duplicate(),
                                Some(DataOrFilter::Data(limit)) => do_filter_limit(
                                    &tokens[idx].word,
                                    limit,
                                    retain_last,
                                ),
                                Some(DataOrFilter::Filter(f)) => {
                                    let mut wx = tokens[idx].word.duplicate();
                                    f.keep(&mut wx);
                                    wx
                                },
                            }
                        },
                        Disambiguation::Unify(filters, disambigs, mask) => {
                            if mask[g] {
                                do_unify_word(
                                    &tokens[idx].word,
                                    filters,
                                    &to_apply,
                                    &disambigs[g],
                                    Ghost(origv),
                                    Ghost(groupsv),
                                    Ghost(mask@),
                                )
                            } else {
                                tokens[idx].word.duplicate()
                            }
                        },
                        Disambiguation::Nop => tokens[idx].word.duplicate(),
                    };
                    proof {
                        assert(w2@ == disamb_word(
                            self,
                            g as int,
                            word_at(curv, idx as int),
                            retain_last,
                            origv,
                            groupsv,
                        ));
                    }
                    set_token_word(tokens, idx, w2);
                } else {
                    proof {
                        assert(set_word(
                            curv,
                            idx as int,
                            disamb_word(
                                self,
                                g as int,
                                word_at(curv, idx as int),
                                retain_last,
                                origv,
                                groupsv,
                            ),
                        ) == curv);
                    }
                }
                k += 1;
            }
            proof {
                assert(row@.skip(row@.len() as int) =~= Seq::<usize>::empty());
            }
            g += 1;
        }
        proof {
            assert(apply_group_fold(
                self,
                itokens_view(tokens@),
                origv,
                groupsv,
                gmax as int,
                gmax as int,
                retain_last,
            ) == itokens_view(tokens@));
        }
    }
}

/// With a concrete limit, `Filter` never leaves a token tagless: the
/// fallback tag steps in where the retention would empty the set.
pub proof fn lemma_filter_limit_nonempty(w: WordV, limit: WordDataV, retain_last: bool)
    ensures
        word_filter_limit(w, limit, retain_last).tags.len() > 0,
{
}

/// `Unify` never empties a non-empty tag set: an emptied set is restored
/// whole.
pub proof fn lemma_unify_preserves_tags(
    w: WordV,
    filters: Seq<Vec<POSFilter>>,
    tokens: Seq<TokenV>,
    groups: Seq<Seq<usize>>,
    mask: Seq<bool>,
    disambig: &Option<POSFilter>,
)
    requires
        w.tags.len() > 0,
    ensures
        word_unify(w, filters, tokens, groups, mask, disambig).tags.len() > 0,
{
}

} // verus!
