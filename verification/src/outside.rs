use vstd::prelude::*;
use itertools::Itertools;
use crate::engine::{bc_lookup, bc_pairs, build_byte_pairs, find_char_idx};
use crate::text::{chars_of, dollar_rec, dollar_replace, opt_texts_view, push_range, sub_chars,
    sub_chars_spec, utf8_len, utf8_len_spec, utf8_seq_len};

verus! {

// ---------------------------------------------------------------------------
// Characters and case folding (std, where vstd gives no specification)
// ---------------------------------------------------------------------------

/// A string built from these characters.
#[verifier::external_body]
pub fn string_of(v: &Vec<char>) -> (r: String)
    ensures
        r@ == v@,
{
    v.iter().collect()
}

/// What `str::to_lowercase` returns: a function of the characters alone.
pub uninterp spec fn lower_of(s: Seq<char>) -> Seq<char>;

/// Relies on str::to_lowercase: the result depends on the characters alone.
#[verifier::external_body]
pub fn to_lowercase(s: &str) -> (r: String)
    ensures
        r@ == lower_of(s@),
        s@.len() == 0 ==> r@.len() == 0,
{
    s.to_lowercase()
}

/// What `str::to_uppercase` returns: a function of the characters alone.
pub uninterp spec fn upper_of(s: Seq<char>) -> Seq<char>;

/// Relies on str::to_uppercase: the result depends on the characters alone.
#[verifier::external_body]
pub fn to_uppercase(s: &str) -> (r: String)
    ensures
        r@ == upper_of(s@),
        s@.len() == 0 ==> r@.len() == 0,
{
    s.to_uppercase()
}

/// What `char::to_lowercase` yields for one character.
pub uninterp spec fn char_lower(c: char) -> Seq<char>;

/// Relies on char::to_lowercase: the lowercase mapping of one character.
#[verifier::external_body]
pub fn char_to_lowercase(c: char) -> (r: Vec<char>)
    ensures
        r@ == char_lower(c),
{
    c.to_lowercase().collect()
}

/// What `char::to_uppercase` yields for one character.
pub uninterp spec fn char_upper(c: char) -> Seq<char>;

/// Relies on char::to_uppercase: the uppercase mapping of one character.
#[verifier::external_body]
pub fn char_to_uppercase(c: char) -> (r: Vec<char>)
    ensures
        r@ == char_upper(c),
{
    c.to_uppercase().collect()
}

/// Whether `char::is_uppercase` holds of one character.
pub uninterp spec fn char_is_upper(c: char) -> bool;

/// Relies on char::is_uppercase.
#[verifier::external_body]
pub fn is_uppercase_char(c: char) -> (r: bool)
    ensures
        r == char_is_upper(c),
{
    c.is_uppercase()
}

// ---------------------------------------------------------------------------
// Regular expressions (onig)
// ---------------------------------------------------------------------------

#[verifier::external_type_specification]
#[verifier::external_body]
pub struct ExOnigRegex(onig::Regex);

/// A compiled regular expression together with the pattern it was built from.
pub struct SerializeRegex {
    pattern: String,
    inner: onig::Regex,
}

impl View for SerializeRegex {
    type V = Seq<char>;

    closed spec fn view(&self) -> Seq<char> {
        self.pattern@
    }
}

/// Relies on onig::Regex::new: on success the pattern compiled.
#[verifier::external_body]
fn compile_onig(pattern: &str) -> (r: Option<SerializeRegex>)
    ensures
        match r {
            Some(re) => re@ == pattern@,
            None => true,
        },
{
    match onig::Regex::new(pattern) {
        Ok(inner) => Some(SerializeRegex { pattern: pattern.to_string(), inner }),
        Err(_) => None,
    }
}

/// Whether the pattern matches the whole text, where a failed search (for
/// example Oniguruma's retry limit) counts as no match: a function of both
/// alone under the engine's default match parameters.
pub uninterp spec fn regex_is_match(pat: Seq<char>, text: Seq<char>) -> bool;

/// The first match of the pattern at or after byte position `from`: one
/// byte span per group of the pattern, `None` for a group that did not take
/// part; `None` when nothing matches or the search fails. A function of
/// pattern, text and position alone under the default match parameters.
pub uninterp spec fn regex_search(pat: Seq<char>, text: Seq<char>, from: usize) -> Option<
    Seq<Option<(usize, usize)>>,
>;

impl SerializeRegex {
    /// Compile a pattern; `None` when the pattern is rejected.
    pub fn new(pattern: &str) -> (r: Option<SerializeRegex>)
        ensures
            match r {
                Some(re) => re@ == pattern@,
                None => true,
            },
    {
        compile_onig(pattern)
    }

    /// Relies on onig::Regex::match_with_param with default parameters and
    /// the whole-string option, as onig's own is_match uses them: whether
    /// the pattern matches the whole text. A match error counts as no
    /// match, so the call never panics.
    #[verifier::external_body]
    pub fn is_match(&self, text: &str) -> (r: bool)
        ensures
            r == regex_is_match(self@, text@),
    {
        let hit = self.inner.match_with_param(
            text,
            0,
            onig::SearchOptions::SEARCH_OPTION_WHOLE_STRING,
            None,
            onig::MatchParam::default(),
        );
        match hit {
            Ok(Some(n)) => n == text.len(),
            _ => false,
        }
    }

    /// Relies on onig::Regex::search_with_param with default parameters:
    /// the first match at or after the byte position, its groups' byte
    /// spans read from the region. A search error counts as no match, so
    /// the call never panics. The match's own span starts at or after the
    /// search position and lies within the text; every group span runs
    /// forwards.
    #[verifier::external_body]
    fn search_step(&self, text: &str, from: usize) -> (r: Option<Vec<Option<(usize, usize)>>>)
        ensures
            match regex_search(self@, text@, from) {
                None => r is None,
                Some(v) => r is Some && r->0@ == v,
            },
            r is Some ==> r->0@.len() >= 1 && r->0@[0] is Some,
            r is Some ==> from <= (r->0@[0]->0).0 && (r->0@[0]->0).0 <= (r->0@[0]->0).1
                && (r->0@[0]->0).1 <= utf8_seq_len(text@),
            forall|j: int|
                r is Some && 0 <= j < r->0@.len() && (#[trigger] r->0@[j]) is Some ==> (r->0@[
                    j
                ]->0).0 <= (r->0@[j]->0).1,
    {
        let mut region = onig::Region::new();
        let hit = self.inner.search_with_param(
            text,
            from,
            text.len(),
            onig::SearchOptions::SEARCH_OPTION_NONE,
            Some(&mut region),
            onig::MatchParam::default(),
        );
        match hit {
            Ok(Some(_)) => Some((0..region.len()).map(|i| region.pos(i)).collect()),
            _ => None,
        }
    }
}

/// The byte width of the character starting at byte position `b` of the
/// text, 1 when no character starts there.
pub open spec fn byte_width_at(text: Seq<char>, b: int) -> int {
    if b < 0 {
        1
    } else {
        match bc_lookup(bc_pairs(text), b as u128) {
            Some(ci) => if ci < text.len() {
                utf8_len_spec(text[ci as int]) as int
            } else {
                1
            },
            None => 1,
        }
    }
}

/// The matches of the pattern over the text, walked as the engine's match
/// iterator walks them: search from `last_end`, skip an empty match that
/// immediately follows the last one by stepping over one character,
/// otherwise yield and continue at the match's end.
pub open spec fn captures_loop(
    pat: Seq<char>,
    text: Seq<char>,
    last_end: int,
    lme: Option<int>,
    fuel: nat,
) -> Seq<Seq<Option<(usize, usize)>>>
    decreases fuel,
{
    if fuel == 0 || last_end < 0 || last_end > utf8_seq_len(text) || last_end >= usize::MAX {
        Seq::empty()
    } else {
        match regex_search(pat, text, last_end as usize) {
            None => Seq::empty(),
            Some(groups) => {
                let s = (groups[0]->0).0 as int;
                let e = (groups[0]->0).1 as int;
                if e == s && lme == Some(s) {
                    captures_loop(
                        pat,
                        text,
                        last_end + byte_width_at(text, last_end),
                        lme,
                        (fuel - 1) as nat,
                    )
                } else {
                    seq![groups] + captures_loop(pat, text, e, Some(e), (fuel - 1) as nat)
                }
            },
        }
    }
}

/// The capture positions of every match, in match order.
pub open spec fn regex_captures(pat: Seq<char>, text: Seq<char>) -> Seq<
    Seq<Option<(usize, usize)>>,
> {
    captures_loop(pat, text, 0, None, (2 * utf8_seq_len(text) + 2) as nat)
}

/// How many iterations the match walk can still take.
pub open spec fn caps_phi(bl: int, last_end: int, lme: Option<int>) -> int {
    2 * (bl - last_end) + 2 - (if lme == Some(last_end) {
        1int
    } else {
        0int
    })
}

impl SerializeRegex {
    /// All matches of the pattern over the text, in match order.
    pub fn captures(&self, text: &str) -> (r: Vec<Vec<Option<(usize, usize)>>>)
        ensures
            r@.map_values(|v: Vec<Option<(usize, usize)>>| v@) == regex_captures(self@, text@),
            forall|i: int, j: int|
                0 <= i < r@.len() && 0 <= j < r@[i]@.len() && r@[i]@[j] is Some ==> (r@[i]@[j]->0).0
                    <= (r@[i]@[j]->0).1,
    {
        let cs = chars_of(text);
        let pairs = build_byte_pairs(&cs);
        let bl: u128 = pairs[pairs.len() - 1].0;
        proof {
            assert(bl == utf8_seq_len(text@) as u128);
            crate::engine::lemma_utf8_seq_len_bound(text@);
        }
        let mut out: Vec<Vec<Option<(usize, usize)>>> = Vec::new();
        let mut last_end: u128 = 0;
        let mut lme: Option<u128> = None;
        let ghost mut lmev: Option<int> = None;
        let ghost mut fuel_rem: int = 2 * (utf8_seq_len(text@) as int) + 2;
        proof {
            assert(Seq::<Seq<Option<(usize, usize)>>>::empty() + regex_captures(self@, text@)
                =~= regex_captures(self@, text@));
        }
        while last_end <= bl && last_end < (usize::MAX as u128)
            invariant
                cs@ == text@,
                pairs@ == bc_pairs(text@),
                bl == utf8_seq_len(text@) as u128,
                utf8_seq_len(text@) <= 4 * text@.len(),
                (match lme {
                    Some(v) => lmev == Some(v as int),
                    None => lmev is None,
                }),
                fuel_rem >= caps_phi(bl as int, last_end as int, lmev),
                fuel_rem >= 0,
                regex_captures(self@, text@) == out@.map_values(
                    |v: Vec<Option<(usize, usize)>>| v@,
                ) + captures_loop(self@, text@, last_end as int, lmev, fuel_rem as nat),
                forall|i: int, j: int|
                    0 <= i < out@.len() && 0 <= j < out@[i]@.len() && out@[i]@[j] is Some ==> (out@[
                        i
                    ]@[j]->0).0 <= (out@[i]@[j]->0).1,
            decreases fuel_rem,
        {
            proof {
                assert(caps_phi(bl as int, last_end as int, lmev) >= 1);
                assert(fuel_rem >= 1);
            }
            let from: usize = #[verifier::truncate] (last_end as usize);
            proof {
                assert(last_end < usize::MAX as u128);
                assert(from as int == last_end as int);
                assert((last_end as int) as usize == from);
            }
            let step = self.search_step(text, from);
            let ghost srch = regex_search(self@, text@, from);
            match step {
                None => {
                    proof {
                        assert(captures_loop(self@, text@, last_end as int, lmev, fuel_rem as nat)
                            =~= Seq::<Seq<Option<(usize, usize)>>>::empty());
                        assert(out@.map_values(|v: Vec<Option<(usize, usize)>>| v@) + Seq::<
                            Seq<Option<(usize, usize)>>,
                        >::empty() =~= out@.map_values(|v: Vec<Option<(usize, usize)>>| v@));
                    }
                    return out;
                },
                Some(groups) => {
                    let ghost groupsv = groups@;
                    proof {
                        assert(srch is Some && srch->0 == groupsv);
                    }
                    let (ms, me): (usize, usize) = match groups[0] {
                        Some(p) => p,
                        None => {
                            proof {
                                assert(false);
                            }
                            (0, 0)
                        },
                    };
                    proof {
                        assert(groupsv[0] == Some((ms, me)));
                        assert((groupsv[0]->0).0 == ms && (groupsv[0]->0).1 == me);
                        assert(from <= ms && ms <= me);
                        assert(me <= utf8_seq_len(text@));
                        assert(last_end as int <= ms as int);
                    }
                    let is_bump: bool = me == ms && (match lme {
                        Some(l) => l == (ms as u128),
                        None => false,
                    });
                    let ghost old_fuel = fuel_rem;
                    let ghost old_le = last_end as int;
                    let ghost old_lmev = lmev;
                    if is_bump {
                        proof {
                            assert(lme is Some && lme->0 == ms as u128);
                            assert(lmev == Some((ms as u128) as int));
                            assert((ms as u128) as int == ms as int);
                            assert(old_lmev == Some(ms as int));
                        }
                        let w: usize = match find_char_idx(&pairs, last_end) {
                            Some(ci) => if ci < cs.len() {
                                utf8_len(cs[ci])
                            } else {
                                1
                            },
                            None => 1,
                        };
                        proof {
                            assert((old_le as u128) == last_end);
                            assert(w as int == byte_width_at(text@, old_le));
                            assert(w >= 1);
                        }
                        last_end = last_end + (w as u128);
                        proof {
                            fuel_rem = fuel_rem - 1;
                            // the walk steps over one character
                            assert(captures_loop(self@, text@, old_le, old_lmev, old_fuel as nat)
                                == captures_loop(
                                self@,
                                text@,
                                old_le + byte_width_at(text@, old_le),
                                old_lmev,
                                (old_fuel - 1) as nat,
                            ));
                            assert(last_end as int == old_le + byte_width_at(text@, old_le));
                            assert(caps_phi(bl as int, old_le, old_lmev) >= 2 * (bl as int
                                - old_le) + 1);
                            assert(caps_phi(bl as int, last_end as int, lmev) <= 2 * (bl as int
                                - last_end as int) + 2);
                            assert(caps_phi(bl as int, last_end as int, lmev) <= old_fuel - 1);
                        }
                    } else {
                        let ghost prev_out = out@.map_values(|v: Vec<Option<(usize, usize)>>| v@);
                        let ghost old_lme = lme;
                        out.push(groups);
                        lme = Some(me as u128);
                        last_end = me as u128;
                        proof {
                            lmev = Some(me as int);
                            fuel_rem = fuel_rem - 1;
                            // the walk yields this match and continues at its end
                            if me as int == ms as int {
                                assert(me == ms);
                                assert(!(match old_lme {
                                    Some(l) => l == (ms as u128),
                                    None => false,
                                }));
                                if old_lmev is Some {
                                    if old_lme is Some && old_lme->0 == (ms as u128) {
                                        assert(false);
                                    }
                                    assert(old_lmev == Some(old_lme->0 as int));
                                    assert(old_lme->0 as int != (ms as u128) as int);
                                }
                                assert(old_lmev != Some(ms as int));
                            }
                            assert(!(me as int == ms as int && old_lmev == Some(ms as int)));
                            assert(captures_loop(self@, text@, old_le, old_lmev, old_fuel as nat)
                                == seq![groupsv] + captures_loop(
                                self@,
                                text@,
                                me as int,
                                Some(me as int),
                                (old_fuel - 1) as nat,
                            ));
                            assert(out@.map_values(|v: Vec<Option<(usize, usize)>>| v@)
                                =~= prev_out.push(groupsv));
                            assert(prev_out + (seq![groupsv] + captures_loop(
                                self@,
                                text@,
                                me as int,
                                Some(me as int),
                                fuel_rem as nat,
                            )) =~= out@.map_values(|v: Vec<Option<(usize, usize)>>| v@)
                                + captures_loop(
                                self@,
                                text@,
                                me as int,
                                Some(me as int),
                                fuel_rem as nat,
                            ));
                            if me as int > old_le {
                                assert(caps_phi(bl as int, last_end as int, lmev) <= old_fuel - 1);
                            } else {
                                assert(old_le <= ms as int && ms as int <= me as int);
                                assert(me as int == old_le && ms as int == old_le);
                                assert(old_lmev != Some(old_le));
                                assert(caps_phi(bl as int, old_le, old_lmev) == 2 * (bl as int
                                    - old_le) + 2);
                                assert(caps_phi(bl as int, last_end as int, lmev) <= old_fuel - 1);
                            }
                        }
                    }
                },
            }
        }
        proof {
            assert(captures_loop(self@, text@, last_end as int, lmev, fuel_rem as nat) =~= Seq::<
                Seq<Option<(usize, usize)>>,
            >::empty());
            assert(out@.map_values(|v: Vec<Option<(usize, usize)>>| v@) + Seq::<
                Seq<Option<(usize, usize)>>,
            >::empty() =~= out@.map_values(|v: Vec<Option<(usize, usize)>>| v@));
        }
        out
    }
}

/// A looked-up character position stays within the entries' bound.
proof fn lemma_bc_lookup_bound(pairs: Seq<(u128, usize)>, b: u128, n: int)
    requires
        bc_lookup(pairs, b) is Some,
        forall|k: int| 0 <= k < pairs.len() ==> (#[trigger] pairs[k]).1 <= n,
    ensures
        bc_lookup(pairs, b)->0 <= n,
    decreases pairs.len(),
{
    if pairs.len() > 0 && pairs[0].0 != b {
        assert(forall|k: int|
            0 <= k < pairs.skip(1).len() ==> (#[trigger] pairs.skip(1)[k]).1 <= n);
        lemma_bc_lookup_bound(pairs.skip(1), b, n);
    }
}

/// The character position a byte position of the text names, if any.
pub open spec fn byte_to_char(text: Seq<char>, b: int) -> Option<usize> {
    if b < 0 {
        None
    } else {
        bc_lookup(bc_pairs(text), b as u128)
    }
}

/// The text under one byte span, where both ends start characters.
pub open spec fn span_chars(text: Seq<char>, s: int, e: int) -> Option<Seq<char>> {
    match (byte_to_char(text, s), byte_to_char(text, e)) {
        (Some(cs2), Some(ce)) => Some(sub_chars_spec(text, cs2 as int, ce as int)),
        _ => None,
    }
}

/// The texts one match's groups cover (absent or unmappable groups give
/// nothing).
pub open spec fn groups_texts(text: Seq<char>, groups: Seq<Option<(usize, usize)>>) -> Seq<
    Option<Seq<char>>,
> {
    groups.map_values(
        |g: Option<(usize, usize)>|
            match g {
                Some(p) => span_chars(text, p.0 as int, p.1 as int),
                None => None,
            },
    )
}

/// Splice the dollar-expanded template over every match, walking the
/// matches left to right by their byte spans; a match whose span does not
/// start characters is passed over.
pub open spec fn replace_fold(
    text: Seq<char>,
    template: Seq<char>,
    caps: Seq<Seq<Option<(usize, usize)>>>,
    last: int,
) -> Seq<char>
    decreases caps.len(),
{
    if caps.len() == 0 {
        match byte_to_char(text, last) {
            Some(ci) => text.skip(ci as int),
            None => Seq::empty(),
        }
    } else {
        let groups = caps[0];
        if groups.len() >= 1 && groups[0] is Some {
            let s = (groups[0]->0).0 as int;
            let e = (groups[0]->0).1 as int;
            match (byte_to_char(text, last), byte_to_char(text, s)) {
                (Some(cl), Some(cs2)) => sub_chars_spec(text, cl as int, cs2 as int) + dollar_rec(
                    template,
                    groups_texts(text, groups),
                ) + replace_fold(text, template, caps.skip(1), e),
                _ => replace_fold(text, template, caps.skip(1), last),
            }
        } else {
            replace_fold(text, template, caps.skip(1), last)
        }
    }
}

/// What replacing every match with the dollar-expanded template returns.
pub open spec fn regex_replace(pat: Seq<char>, text: Seq<char>, template: Seq<char>) -> Seq<
    char,
> {
    replace_fold(text, template, regex_captures(pat, text), 0)
}

impl SerializeRegex {
    /// Replace every match with the dollar-expanded template.
    pub fn replace_all_dollar(&self, text: &str, template: &str) -> (r: String)
        ensures
            r@ == regex_replace(self@, text@, template@),
    {
        let cs = chars_of(text);
        let pairs = build_byte_pairs(&cs);
        let caps_list = self.captures(text);
        let ghost capsv = regex_captures(self@, text@);
        let mut out: Vec<char> = Vec::new();
        let mut last: u128 = 0;
        let mut i: usize = 0;
        proof {
            assert(capsv.skip(0) =~= capsv);
            assert(Seq::<char>::empty() + replace_fold(text@, template@, capsv, 0)
                =~= replace_fold(text@, template@, capsv, 0));
        }
        while i < caps_list.len()
            invariant
                i <= caps_list@.len(),
                cs@ == text@,
                pairs@ == bc_pairs(text@),
                caps_list@.map_values(|v: Vec<Option<(usize, usize)>>| v@) == capsv,
                capsv == regex_captures(self@, text@),
                last <= usize::MAX as u128,
                regex_replace(self@, text@, template@) == out@ + replace_fold(
                    text@,
                    template@,
                    capsv.skip(i as int),
                    last as int,
                ),
            decreases caps_list@.len() - i,
        {
            proof {
                assert(capsv.skip(i as int)[0] == capsv[i as int]);
                assert(capsv[i as int] == caps_list@[i as int]@);
                assert(capsv.skip(i as int).skip(1) =~= capsv.skip(i + 1 as int));
            }
            let groups = &caps_list[i];
            let ghost groupsv = groups@;
            let ghost prev_out = out@;
            let head: Option<(usize, usize)> = if groups.len() >= 1 {
                groups[0]
            } else {
                None
            };
            match head {
                Some(span) => {
                    let cl = find_char_idx(&pairs, last);
                    let cs2 = find_char_idx(&pairs, span.0 as u128);
                    match (cl, cs2) {
                        (Some(cl2), Some(cs3)) => {
                            let seg = sub_chars(&cs, cl2, cs3);
                            push_range(&mut out, &seg, 0, seg.len());
                            proof {
                                assert(seg@.subrange(0, seg@.len() as int) =~= seg@);
                            }
                            // the groups' texts for the dollar expansion
                            let mut gtexts: Vec<Option<String>> = Vec::new();
                            let mut j: usize = 0;
                            while j < groups.len()
                                invariant
                                    j <= groupsv.len(),
                                    groupsv == groups@,
                                    cs@ == text@,
                                    pairs@ == bc_pairs(text@),
                                    opt_texts_view(gtexts@) == groups_texts(text@, groupsv)
                                        .subrange(0, j as int),
                                decreases groupsv.len() - j,
                            {
                                let gt: Option<String> = match groups[j] {
                                    Some(gp) => {
                                        match (find_char_idx(&pairs, gp.0 as u128), find_char_idx(
                                            &pairs,
                                            gp.1 as u128,
                                        )) {
                                            (Some(a), Some(b)) => Some(string_of(&sub_chars(
                                                &cs,
                                                a,
                                                b,
                                            ))),
                                            _ => None,
                                        }
                                    },
                                    None => None,
                                };
                                let ghost prev_g = gtexts@;
                                let ghost gtv: Option<Seq<char>> = match gt {
                                    Some(ref v) => Some(v@),
                                    None => None,
                                };
                                gtexts.push(gt);
                                proof {
                                    crate::text::lemma_opt_texts_view_push(prev_g, gtexts@.last());
                                    assert(prev_g.push(gtexts@.last()) =~= gtexts@);
                                    assert(groups_texts(text@, groupsv)[j as int] == gtv);
                                    assert(opt_texts_view(gtexts@) =~= groups_texts(
                                        text@,
                                        groupsv,
                                    ).subrange(0, j + 1 as int));
                                }
                                j += 1;
                            }
                            proof {
                                assert(groups_texts(text@, groupsv).subrange(
                                    0,
                                    groupsv.len() as int,
                                ) =~= groups_texts(text@, groupsv));
                            }
                            let exp = dollar_replace(template, &gtexts);
                            let expc = chars_of(exp.as_str());
                            push_range(&mut out, &expc, 0, expc.len());
                            proof {
                                assert(expc@.subrange(0, expc@.len() as int) =~= expc@);
                            }
                            last = span.1 as u128;
                            proof {
                                assert(prev_out + (sub_chars_spec(
                                    text@,
                                    cl2 as int,
                                    cs3 as int,
                                ) + dollar_rec(template@, groups_texts(text@, groupsv))
                                    + replace_fold(
                                    text@,
                                    template@,
                                    capsv.skip(i + 1 as int),
                                    last as int,
                                )) =~= out@ + replace_fold(
                                    text@,
                                    template@,
                                    capsv.skip(i + 1 as int),
                                    last as int,
                                ));
                            }
                        },
                        _ => {},
                    }
                },
                None => {},
            }
            i += 1;
        }
        proof {
            assert(capsv.skip(capsv.len() as int) =~= Seq::<Seq<Option<(usize, usize)>>>::empty());
        }
        // the tail after the last match
        let n_chars = cs.len();
        proof {
            assert(cs@.len() == n_chars as int);
            assert forall|k: int| 0 <= k < pairs@.len() implies (#[trigger] pairs@[k]).1
                <= cs@.len() by {
                assert(pairs@[k] == bc_pairs(text@)[k]);
                assert(pairs@[k].1 == (k as usize));
            }
            assert((last as int) as u128 == last);
        }
        match find_char_idx(&pairs, last) {
            Some(ci) => {
                proof {
                    lemma_bc_lookup_bound(pairs@, last, cs@.len() as int);
                    assert(ci <= cs@.len());
                    assert(byte_to_char(text@, last as int) == Some(ci));
                    assert(text@.skip(ci as int) =~= text@.subrange(ci as int, text@.len() as int));
                }
                let ghost prev_out = out@;
                push_range(&mut out, &cs, ci, n_chars);
                proof {
                    assert(out@ =~= prev_out + text@.skip(ci as int));
                    assert(out@ =~= regex_replace(self@, text@, template@));
                }
            },
            None => {
                proof {
                    assert(byte_to_char(text@, last as int) is None);
                    assert(replace_fold(
                        text@,
                        template@,
                        capsv.skip(capsv.len() as int),
                        last as int,
                    ) =~= Seq::<char>::empty());
                    assert(out@ + Seq::<char>::empty() =~= out@);
                }
            },
        }
        string_of(&out)
    }
}

// ---------------------------------------------------------------------------
// Cartesian products (itertools)
// ---------------------------------------------------------------------------

/// An index tuple drawing one entry from each of the given list lengths.
pub open spec fn valid_combo(c: Seq<usize>, lens: Seq<usize>) -> bool {
    c.len() == lens.len() && (forall|j: int| 0 <= j < c.len() ==> c[j] < lens[j])
}

/// Relies on itertools' multi_cartesian_product over index ranges: the result
/// holds exactly the tuples that pick one index below each given length
/// (a single empty tuple when no lengths are given).
#[verifier::external_body]
pub fn cartesian_indices(lens: &Vec<usize>) -> (r: Vec<Vec<usize>>)
    ensures
        forall|k: int| 0 <= k < r@.len() ==> valid_combo(#[trigger] r@[k]@, lens@),
        forall|c: Seq<usize>| valid_combo(c, lens@) ==> exists|k: int|
            0 <= k < r@.len() && #[trigger] r@[k]@ == c,
{
    lens.iter().map(|n: &usize| 0..*n).multi_cartesian_product().collect()
}

} // verus!
