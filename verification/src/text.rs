use vstd::prelude::*;
use vstd::string::*;
use crate::outside::{char_to_lowercase, char_to_uppercase, char_lower, char_upper};

verus! {

/// Width in bytes of one character when encoded as UTF-8.
pub open spec fn utf8_len_spec(c: char) -> nat {
    if (c as u32) < 0x80 {
        1
    } else if (c as u32) < 0x800 {
        2
    } else if (c as u32) < 0x10000 {
        3
    } else {
        4
    }
}

/// Number of bytes of a character sequence when encoded as UTF-8.
pub open spec fn utf8_seq_len(s: Seq<char>) -> nat
    decreases s.len(),
{
    if s.len() == 0 {
        0
    } else {
        utf8_len_spec(s[0]) + utf8_seq_len(s.skip(1))
    }
}

/// Executable counterpart of `utf8_len_spec`.
pub fn utf8_len(c: char) -> (r: usize)
    ensures
        r == utf8_len_spec(c),
{
    let u = c as u32;
    if u < 0x80 {
        1
    } else if u < 0x800 {
        2
    } else if u < 0x10000 {
        3
    } else {
        4
    }
}

/// The characters the whitespace normalizer collapses.
pub open spec fn is_ws(c: char) -> bool {
    c == ' ' || c == '\t' || c == '\n' || c == '\r' || c == '\u{c}'
}

/// Executable counterpart of `is_ws`.
pub fn is_whitespace(c: char) -> (r: bool)
    ensures
        r == is_ws(c),
{
    c == ' ' || c == '\t' || c == '\n' || c == '\r' || c == '\u{c}'
}

/// Punctuation that suppresses a preceding space when inserted.
pub open spec fn is_no_space(c: char) -> bool {
    c == ',' || c == '.' || c == ';' || c == ':' || c == '!' || c == '?' || c == ')'
}

/// Executable counterpart of `is_no_space`.
pub fn is_no_space_char(c: char) -> (r: bool)
    ensures
        r == is_no_space(c),
{
    c == ',' || c == '.' || c == ';' || c == ':' || c == '!' || c == '?' || c == ')'
}

/// The characters of a string slice, as a vector.
pub fn chars_of(s: &str) -> (r: Vec<char>)
    ensures
        r@ == s@,
{
    let n = s.unicode_len();
    let mut r: Vec<char> = Vec::new();
    let mut i: usize = 0;
    while i < n
        invariant
            i <= n,
            n == s@.len(),
            r@ == s@.subrange(0, i as int),
        decreases n - i,
    {
        r.push(s.get_char(i));
        proof {
            assert(s@.subrange(0, i as int).push(s@[i as int]) =~= s@.subrange(0, i + 1 as int));
        }
        i += 1;
    }
    proof {
        assert(s@.subrange(0, n as int) =~= s@);
    }
    r
}

/// Whitespace normalization: runs of whitespace become a single space and
/// the edges are trimmed. `pending` records that a space is owed before the
/// next non-whitespace character, `acc` the output built so far.
pub open spec fn norm_ws_rec(s: Seq<char>, pending: bool, acc: Seq<char>) -> Seq<char>
    decreases s.len(),
{
    if s.len() == 0 {
        acc
    } else if is_ws(s[0]) {
        norm_ws_rec(s.skip(1), acc.len() > 0, acc)
    } else if pending {
        norm_ws_rec(s.skip(1), false, acc + seq![' ', s[0]])
    } else {
        norm_ws_rec(s.skip(1), false, acc.push(s[0]))
    }
}

/// What whitespace normalization returns on a whole string.
pub open spec fn normalize_ws_spec(s: Seq<char>) -> Seq<char> {
    norm_ws_rec(s, false, Seq::empty())
}

/// Collapse runs of whitespace to one space and trim the edges.
pub fn normalize_whitespace(s: &str) -> (r: Vec<char>)
    ensures
        r@ == normalize_ws_spec(s@),
{
    let cs = chars_of(s);
    let mut out: Vec<char> = Vec::new();
    let mut pending: bool = false;
    let mut i: usize = 0;
    proof {
        assert(cs@.skip(0) =~= cs@);
    }
    while i < cs.len()
        invariant
            i <= cs@.len(),
            cs@ == s@,
            norm_ws_rec(cs@.skip(i as int), pending, out@) == normalize_ws_spec(s@),
        decreases cs@.len() - i,
    {
        let c = cs[i];
        proof {
            assert(cs@.skip(i as int)[0] == cs@[i as int]);
            assert(cs@.skip(i as int).skip(1) =~= cs@.skip(i + 1 as int));
        }
        let ghost prev_out = out@;
        if is_whitespace(c) {
            pending = out.len() > 0;
        } else if pending {
            out.push(' ');
            out.push(c);
            pending = false;
            proof {
                assert(out@ =~= prev_out + seq![' ', c]);
            }
        } else {
            out.push(c);
            proof {
                assert(out@ =~= prev_out.push(c));
            }
        }
        i += 1;
    }
    proof {
        assert(cs@.skip(cs@.len() as int) =~= Seq::<char>::empty());
    }
    out
}

/// Append the characters `v[from..to]` to `out`.
pub fn push_range(out: &mut Vec<char>, v: &Vec<char>, from: usize, to: usize)
    requires
        from <= to <= v@.len(),
    ensures
        final(out)@ == old(out)@ + v@.subrange(from as int, to as int),
{
    let mut i: usize = from;
    while i < to
        invariant
            from <= i <= to <= v@.len(),
            out@ == old(out)@ + v@.subrange(from as int, i as int),
        decreases to - i,
    {
        out.push(v[i]);
        proof {
            assert((old(out)@ + v@.subrange(from as int, i as int)).push(v@[i as int]) =~= old(out)@
                + v@.subrange(from as int, i + 1 as int));
        }
        i += 1;
    }
}

/// The characters `v[from..to]`, or the empty sequence when the span does not
/// fit inside `v`.
pub open spec fn sub_chars_spec(v: Seq<char>, from: int, to: int) -> Seq<char> {
    if 0 <= from <= to <= v.len() {
        v.subrange(from, to)
    } else {
        Seq::empty()
    }
}

/// Executable counterpart of `sub_chars_spec`.
pub fn sub_chars(v: &Vec<char>, from: usize, to: usize) -> (r: Vec<char>)
    ensures
        r@ == sub_chars_spec(v@, from as int, to as int),
{
    let mut out: Vec<char> = Vec::new();
    if from <= to && to <= v.len() {
        push_range(&mut out, v, from, to);
    }
    out
}

/// Space-before-punctuation repair: a space that stands right before a
/// no-space character is dropped.
pub open spec fn fix_nospace_rec(s: Seq<char>) -> Seq<char>
    decreases s.len(),
{
    if s.len() == 0 {
        Seq::empty()
    } else if s.len() >= 2 && s[0] == ' ' && is_no_space(s[1]) {
        fix_nospace_rec(s.skip(1))
    } else {
        seq![s[0]] + fix_nospace_rec(s.skip(1))
    }
}

/// Drop every space that stands right before a no-space character.
pub fn fix_nospace_chars(v: &Vec<char>) -> (r: Vec<char>)
    ensures
        r@ == fix_nospace_rec(v@),
{
    let mut out: Vec<char> = Vec::new();
    let mut i: usize = 0;
    proof {
        assert(v@.skip(0) =~= v@);
        assert(Seq::<char>::empty() + fix_nospace_rec(v@) =~= fix_nospace_rec(v@));
    }
    while i < v.len()
        invariant
            i <= v@.len(),
            fix_nospace_rec(v@) == out@ + fix_nospace_rec(v@.skip(i as int)),
        decreases v@.len() - i,
    {
        proof {
            assert(v@.skip(i as int)[0] == v@[i as int]);
            assert(v@.skip(i as int).skip(1) =~= v@.skip(i + 1 as int));
            if i + 1 < v@.len() {
                assert(v@.skip(i as int)[1] == v@[i + 1 as int]);
            }
        }
        let ghost prev_out = out@;
        let c = v[i];
        if c == ' ' && i + 1 < v.len() && is_no_space_char(v[i + 1]) {
            // dropped
        } else {
            out.push(c);
            proof {
                assert(prev_out + (seq![c] + fix_nospace_rec(v@.skip(i + 1 as int))) =~= out@
                    + fix_nospace_rec(v@.skip(i + 1 as int)));
            }
        }
        i += 1;
    }
    proof {
        assert(v@.skip(v@.len() as int) =~= Seq::<char>::empty());
        assert(out@ + Seq::<char>::empty() =~= out@);
    }
    out
}

/// Whether the character is an ASCII digit.
pub open spec fn is_digit(c: char) -> bool {
    48 <= (c as u32) <= 57
}

/// The group text that a dollar reference picks, empty when the group is
/// absent or out of range.
pub open spec fn group_or_empty(gs: Seq<Option<Seq<char>>>, d: int) -> Seq<char> {
    if 0 <= d < gs.len() && gs[d] is Some {
        gs[d]->0
    } else {
        Seq::empty()
    }
}

/// Dollar expansion: `$0` to `$9` in the template stand for the matched
/// groups' texts.
pub open spec fn dollar_rec(t: Seq<char>, gs: Seq<Option<Seq<char>>>) -> Seq<char>
    decreases t.len(),
{
    if t.len() == 0 {
        Seq::empty()
    } else if t[0] == '$' && t.len() >= 2 && is_digit(t[1]) {
        group_or_empty(gs, (t[1] as u32) - 48) + dollar_rec(t.skip(2), gs)
    } else {
        seq![t[0]] + dollar_rec(t.skip(1), gs)
    }
}

/// The spec-level view of optional group texts.
pub open spec fn opt_texts_view(gs: Seq<Option<String>>) -> Seq<Option<Seq<char>>> {
    gs.map_values(
        |o: Option<String>|
            match o {
                Some(s) => Some(s@),
                None => None,
            },
    )
}

/// Appending an optional group text appends its view.
pub proof fn lemma_opt_texts_view_push(s: Seq<Option<String>>, x: Option<String>)
    ensures
        opt_texts_view(s.push(x)) == opt_texts_view(s).push(
            match x {
                Some(v) => Some(v@),
                None => None,
            },
        ),
{
    assert forall|k: int| 0 <= k < s.push(x).len() implies opt_texts_view(s.push(x))[k]
        == opt_texts_view(s).push(
        match x {
            Some(v) => Some(v@),
            None => None,
        },
    )[k] by {
        if k < s.len() {
            assert(s.push(x)[k] == s[k]);
        } else {
            assert(s.push(x)[k] == x);
        }
    }
    assert(opt_texts_view(s.push(x)) =~= opt_texts_view(s).push(
        match x {
            Some(v) => Some(v@),
            None => None,
        },
    ));
}

/// Expand `$0` to `$9` in the template with the groups' texts.
pub fn dollar_replace(template: &str, groups: &Vec<Option<String>>) -> (r: String)
    ensures
        r@ == dollar_rec(template@, opt_texts_view(groups@)),
{
    let t = chars_of(template);
    let ghost gsv = opt_texts_view(groups@);
    let mut out: Vec<char> = Vec::new();
    let mut i: usize = 0;
    proof {
        assert(t@.skip(0) =~= t@);
        assert(Seq::<char>::empty() + dollar_rec(t@, gsv) =~= dollar_rec(t@, gsv));
    }
    while i < t.len()
        invariant
            i <= t@.len(),
            t@ == template@,
            dollar_rec(t@, gsv) == out@ + dollar_rec(t@.skip(i as int), gsv),
            gsv == opt_texts_view(groups@),
        decreases t@.len() - i,
    {
        proof {
            assert(t@.skip(i as int)[0] == t@[i as int]);
            assert(t@.skip(i as int).skip(1) =~= t@.skip(i + 1 as int));
            if i + 1 < t@.len() {
                assert(t@.skip(i as int)[1] == t@[i + 1 as int]);
                assert(t@.skip(i as int).skip(2) =~= t@.skip(i + 2 as int));
            }
        }
        let ghost prev_out = out@;
        let c = t[i];
        if c == '$' && i + 1 < t.len() && {
            let d = t[i + 1] as u32;
            48 <= d && d <= 57
        } {
            let d: usize = ((t[i + 1] as u32) - 48) as usize;
            if d < groups.len() {
                match &groups[d] {
                    Some(s) => {
                        let sc = chars_of(s.as_str());
                        push_range(&mut out, &sc, 0, sc.len());
                        proof {
                            assert(sc@.subrange(0, sc@.len() as int) =~= sc@);
                            assert(gsv[d as int] is Some && gsv[d as int]->0 == s@);
                            assert(out@ =~= prev_out + group_or_empty(gsv, d as int));
                        }
                    },
                    None => {
                        proof {
                            assert(group_or_empty(gsv, d as int) =~= Seq::<char>::empty());
                            assert(out@ =~= prev_out + group_or_empty(gsv, d as int));
                        }
                    },
                }
            } else {
                proof {
                    assert(group_or_empty(gsv, d as int) =~= Seq::<char>::empty());
                    assert(out@ =~= prev_out + group_or_empty(gsv, d as int));
                }
            }
            proof {
                assert(dollar_rec(t@.skip(i as int), gsv) == group_or_empty(gsv, d as int)
                    + dollar_rec(t@.skip(i + 2 as int), gsv));
                assert(prev_out + (group_or_empty(gsv, d as int) + dollar_rec(
                    t@.skip(i + 2 as int),
                    gsv,
                )) =~= out@ + dollar_rec(t@.skip(i + 2 as int), gsv));
            }
            i += 2;
        } else {
            out.push(c);
            proof {
                assert(prev_out + (seq![c] + dollar_rec(t@.skip(i + 1 as int), gsv)) =~= out@
                    + dollar_rec(t@.skip(i + 1 as int), gsv));
            }
            i += 1;
        }
    }
    proof {
        assert(t@.skip(t@.len() as int) =~= Seq::<char>::empty());
        assert(out@ + Seq::<char>::empty() =~= out@);
    }
    crate::outside::string_of(&out)
}

/// The uppercase expansion of the first character, the rest unchanged.
pub open spec fn upper_first_spec(s: Seq<char>) -> Seq<char> {
    if s.len() == 0 {
        s
    } else {
        char_upper(s[0]) + s.skip(1)
    }
}

/// The lowercase expansion of the first character, the rest unchanged.
pub open spec fn lower_first_spec(s: Seq<char>) -> Seq<char> {
    if s.len() == 0 {
        s
    } else {
        char_lower(s[0]) + s.skip(1)
    }
}

/// Uppercase the first character only.
pub fn uppercase_first(v: &Vec<char>) -> (r: Vec<char>)
    ensures
        r@ == upper_first_spec(v@),
{
    if v.len() == 0 {
        let out: Vec<char> = Vec::new();
        proof {
            assert(out@ =~= v@);
        }
        out
    } else {
        let mut out = char_to_uppercase(v[0]);
        push_range(&mut out, v, 1, v.len());
        proof {
            assert(v@.subrange(1, v@.len() as int) =~= v@.skip(1));
        }
        out
    }
}

/// Lowercase the first character only.
pub fn lowercase_first(v: &Vec<char>) -> (r: Vec<char>)
    ensures
        r@ == lower_first_spec(v@),
{
    if v.len() == 0 {
        let out: Vec<char> = Vec::new();
        proof {
            assert(out@ =~= v@);
        }
        out
    } else {
        let mut out = char_to_lowercase(v[0]);
        push_range(&mut out, v, 1, v.len());
        proof {
            assert(v@.subrange(1, v@.len() as int) =~= v@.skip(1));
        }
        out
    }
}

} // verus!
