use vstd::prelude::*;
use crate::outside::{SerializeRegex, regex_is_match, string_of};
use crate::text::{chars_of, sub_chars, sub_chars_spec};
use crate::word::{Token, TokenV, tokens_view};

verus! {

/// A numbered capture region: a character span in the sentence text and the
/// range of token indices it covers. An empty token range stands for an
/// optional capture that is absent.
#[derive(Clone, Copy)]
pub struct Group {
    pub char_span: (usize, usize),
    pub token_range: (usize, usize),
}

impl Group {
    pub fn new(char_span: (usize, usize), token_range: (usize, usize)) -> (r: Group)
        ensures
            r.char_span == char_span,
            r.token_range == token_range,
    {
        Group { char_span, token_range }
    }
}

/// The mathematical value of a match graph.
#[verifier::ext_equal]
pub struct MatchGraphV {
    pub groups: Seq<Group>,
    pub id_to_index: Seq<(usize, usize)>,
    pub text: Seq<char>,
}

/// The numbered groups of one match over a token sequence.
pub struct MatchGraph {
    pub groups: Vec<Group>,
    pub id_to_index: Vec<(usize, usize)>,
    pub text: String,
}

impl View for MatchGraph {
    type V = MatchGraphV;

    open spec fn view(&self) -> MatchGraphV {
        MatchGraphV { groups: self.groups@, id_to_index: self.id_to_index@, text: self.text@ }
    }
}

/// The first position an id is mapped to, if any.
pub open spec fn assoc_find(m: Seq<(usize, usize)>, id: usize) -> Option<usize>
    decreases m.len(),
{
    if m.len() == 0 {
        None
    } else if m[0].0 == id {
        Some(m[0].1)
    } else {
        assoc_find(m.skip(1), id)
    }
}

/// Where `by_id` resolves: the id is mapped and its position is in range.
pub open spec fn graph_index_of(g: MatchGraphV, id: usize) -> Option<usize> {
    match assoc_find(g.id_to_index, id) {
        None => None,
        Some(idx) => if idx < g.groups.len() {
            Some(idx)
        } else {
            None
        },
    }
}

/// The sentence text under a group, found by id; empty when the id does not
/// resolve or the span does not fit.
pub open spec fn graph_text_of(g: MatchGraphV, id: usize) -> Seq<char> {
    match graph_index_of(g, id) {
        None => Seq::empty(),
        Some(idx) => sub_chars_spec(
            g.text,
            g.groups[idx as int].char_span.0 as int,
            g.groups[idx as int].char_span.1 as int,
        ),
    }
}

/// Every mapped position points at a group.
pub open spec fn graph_wf(g: MatchGraphV) -> bool {
    forall|k: int|
        0 <= k < g.id_to_index.len() ==> (#[trigger] g.id_to_index[k]).1 < g.groups.len()
}

impl MatchGraph {
    /// A graph with no groups.
    pub fn empty() -> (r: MatchGraph)
        ensures
            r@.groups.len() == 0,
            r@.id_to_index.len() == 0,
            r@.text.len() == 0,
    {
        MatchGraph { groups: Vec::new(), id_to_index: Vec::new(), text: String::new() }
    }

    /// The position a group id resolves to.
    pub fn get_index(&self, id: usize) -> (r: Option<usize>)
        ensures
            r == graph_index_of(self@, id),
    {
        let mut k: usize = 0;
        let ghost m = self.id_to_index@;
        proof {
            assert(m.skip(0) =~= m);
        }
        while k < self.id_to_index.len()
            invariant
                k <= m.len(),
                m == self.id_to_index@,
                assoc_find(m.skip(k as int), id) == assoc_find(m, id),
                forall|j: int| 0 <= j < k ==> (#[trigger] m[j]).0 != id,
            decreases m.len() - k,
        {
            proof {
                assert(m.skip(k as int)[0] == m[k as int]);
                assert(m.skip(k as int).skip(1) =~= m.skip(k + 1 as int));
            }
            let entry = self.id_to_index[k];
            if entry.0 == id {
                if entry.1 < self.groups.len() {
                    return Some(entry.1);
                } else {
                    return None;
                }
            }
            k += 1;
        }
        proof {
            assert(m.skip(m.len() as int) =~= Seq::<(usize, usize)>::empty());
        }
        None
    }

    /// The group a rule id names. `None` exactly when the id is not mapped
    /// (or, on a malformed graph, mapped out of range): an id a rule author
    /// got wrong is deliberately read as no group, since verified code
    /// cannot abort; `lemma_by_id_none_iff_unmapped` and
    /// `lemma_comp_graph_wf` pin the none-iff-unmapped reading down for
    /// every graph a token pattern builds.
    pub fn by_id(&self, id: usize) -> (r: Option<&Group>)
        ensures
            match graph_index_of(self@, id) {
                None => r is None,
                Some(idx) => r is Some && *r->0 == self@.groups[idx as int],
            },
    {
        match self.get_index(id) {
            None => None,
            Some(idx) => Some(&self.groups[idx]),
        }
    }

    /// The group at a position.
    pub fn by_index(&self, idx: usize) -> (r: &Group)
        requires
            idx < self@.groups.len(),
        ensures
            *r == self@.groups[idx as int],
    {
        &self.groups[idx]
    }

    /// The sentence text under the group an id names.
    pub fn text_of(&self, id: usize) -> (r: String)
        ensures
            r@ == graph_text_of(self@, id),
    {
        match self.get_index(id) {
            None => String::new(),
            Some(idx) => {
                let cs = chars_of(self.text.as_str());
                let g = self.groups[idx];
                let sub = sub_chars(&cs, g.char_span.0, g.char_span.1);
                string_of(&sub)
            },
        }
    }
}

/// `by_id` is `None` exactly when the id is not mapped, on any well-formed
/// graph.
pub proof fn lemma_by_id_none_iff_unmapped(g: MatchGraphV, id: usize)
    requires
        graph_wf(g),
    ensures
        graph_index_of(g, id) is None <==> assoc_find(g.id_to_index, id) is None,
{
    if assoc_find(g.id_to_index, id) is Some {
        lemma_assoc_find_in_range(g.id_to_index, id, g.groups.len() as int);
    }
}

/// On a well-formed map every found position is in range.
proof fn lemma_assoc_find_in_range(m: Seq<(usize, usize)>, id: usize, n: int)
    requires
        assoc_find(m, id) is Some,
        forall|k: int| 0 <= k < m.len() ==> (#[trigger] m[k]).1 < n,
    ensures
        assoc_find(m, id)->0 < n,
    decreases m.len(),
{
    if m.len() > 0 && m[0].0 != id {
        assert(forall|k: int|
            0 <= k < m.skip(1).len() ==> (#[trigger] m.skip(1)[k]).1 < n);
        lemma_assoc_find_in_range(m.skip(1), id, n);
    }
}

/// A predicate over one token field: literal equality, a regular expression,
/// or a back-reference to the text an earlier group matched.
pub enum Matcher {
    Exact(String),
    Rx(SerializeRegex),
    GroupRef(usize),
}

/// What a matcher says of a field, given the graph matched so far.
pub open spec fn matcher_spec(m: &Matcher, field: Seq<char>, g: MatchGraphV) -> bool {
    match m {
        Matcher::Exact(s) => field == s@,
        Matcher::Rx(re) => regex_is_match(re@, field),
        Matcher::GroupRef(id) => field == graph_text_of(g, *id),
    }
}

impl Matcher {
    /// Whether the field satisfies this matcher under the graph.
    pub fn is_match(&self, field: &str, graph: &MatchGraph) -> (r: bool)
        ensures
            r == matcher_spec(self, field@, graph@),
    {
        match self {
            Matcher::Exact(s) => {
                let f = String::from_str(field);
                f == *s
            },
            Matcher::Rx(re) => re.is_match(field),
            Matcher::GroupRef(id) => {
                let t = graph.text_of(*id);
                let f = String::from_str(field);
                f == t
            },
        }
    }
}

/// One step of a pattern: a matcher applied either to the token's surface
/// text or to its part-of-speech tags.
pub struct Part {
    pub matcher: Matcher,
    pub on_pos: bool,
}

/// Whether some tag's part-of-speech satisfies the matcher (back-references
/// see no graph while a pattern is still being matched).
pub open spec fn some_pos_matches(m: &Matcher, t: TokenV, empty: MatchGraphV) -> bool {
    exists|k: int| 0 <= k < t.word.tags.len() && matcher_spec(m, (#[trigger] t.word.tags[k]).pos, empty)
}

/// The graph a part's matcher sees while the pattern is still being matched.
pub open spec fn no_graph() -> MatchGraphV {
    MatchGraphV { groups: Seq::empty(), id_to_index: Seq::empty(), text: Seq::empty() }
}

/// Whether part `j` of a pattern anchored at `i` holds of its token. A
/// back-reference names an earlier part and compares surface texts.
pub open spec fn part_token_match(p: &Part, tokens: Seq<TokenV>, i: int, j: int) -> bool {
    let t = tokens[i + j];
    match &p.matcher {
        Matcher::GroupRef(gid) => 1 <= *gid <= j && t.word.text == tokens[i + *gid - 1].word.text,
        _ => if p.on_pos {
            some_pos_matches(&p.matcher, t, no_graph())
        } else {
            matcher_spec(&p.matcher, t.word.text, no_graph())
        },
    }
}

/// An ordered pattern over consecutive tokens.
pub struct Composition {
    pub parts: Vec<Part>,
}

/// Whether the whole pattern holds anchored at token `i`.
pub open spec fn comp_match_at(c: &Composition, tokens: Seq<TokenV>, i: int) -> bool {
    &&& c.parts@.len() > 0
    &&& i + c.parts@.len() <= tokens.len()
    &&& 0 <= i
    &&& forall|j: int| 0 <= j < c.parts@.len() ==> part_token_match(&c.parts@[j], tokens, i, j)
}

/// The graph a successful match builds: group 0 spans the whole match, group
/// `j` of `1..=n` covers the token part `j` matched; ids equal positions.
pub open spec fn comp_graph_spec(c: &Composition, tokens: Seq<TokenV>, i: int) -> MatchGraphV {
    let n = c.parts@.len() as int;
    MatchGraphV {
        groups: Seq::new(
            (n + 1) as nat,
            |k: int|
                if k == 0 {
                    Group {
                        char_span: (
                            tokens[i].char_span.0,
                            tokens[i + n - 1].char_span.1,
                        ),
                        token_range: (i as usize, (i + n) as usize),
                    }
                } else {
                    Group {
                        char_span: tokens[i + k - 1].char_span,
                        token_range: ((i + k - 1) as usize, (i + k) as usize),
                    }
                },
        ),
        id_to_index: Seq::new((n + 1) as nat, |k: int| (k as usize, k as usize)),
        text: tokens[0].text,
    }
}

/// What applying a pattern at an anchor yields.
pub open spec fn comp_apply_spec(c: &Composition, tokens: Seq<TokenV>, i: int) -> Option<
    MatchGraphV,
> {
    if comp_match_at(c, tokens, i) {
        Some(comp_graph_spec(c, tokens, i))
    } else {
        None
    }
}

/// A sound negative filter: it may only say `true` of a surface text no
/// anchoring on which can ever match.
pub open spec fn can_not_match_spec(c: &Composition, text: Seq<char>) -> bool {
    c.parts@.len() > 0 && match &c.parts@[0].matcher {
        Matcher::Exact(s) => !c.parts@[0].on_pos && text != s@,
        _ => false,
    }
}

impl Composition {
    pub fn new(parts: Vec<Part>) -> (r: Composition)
        ensures
            r.parts@ == parts@,
    {
        Composition { parts }
    }

    /// Attempt the pattern anchored at token `i`.
    pub fn apply(&self, tokens: &Vec<Token>, i: usize) -> (r: Option<MatchGraph>)
        requires
            i < tokens@.len(),
        ensures
            match comp_apply_spec(self, tokens_view(tokens@), i as int) {
                Some(gv) => r is Some && r->0@ == gv,
                None => r is None,
            },
    {
        let ghost tv = tokens_view(tokens@);
        let n = self.parts.len();
        if n == 0 || n > tokens.len() || i > tokens.len() - n {
            return None;
        }
        let mut j: usize = 0;
        while j < n
            invariant
                0 < n == self.parts@.len(),
                i + n <= tokens@.len() <= usize::MAX,
                j <= n,
                tv == tokens_view(tokens@),
                forall|k: int| 0 <= k < j ==> part_token_match(&self.parts@[k], tv, i as int, k),
            decreases n - j,
        {
            let t = &tokens[i + j];
            proof {
                assert(tv[i + j] == tokens@[i + j]@);
            }
            let part = &self.parts[j];
            let ok: bool;
            match &part.matcher {
                Matcher::GroupRef(gid) => {
                    let g = *gid;
                    if 1 <= g && g <= j {
                        let other = &tokens[i + g - 1];
                        proof {
                            assert(tv[i + g - 1] == tokens@[i + g - 1]@);
                        }
                        ok = t.word.text == other.word.text;
                    } else {
                        ok = false;
                    }
                },
                _ => {
                    if part.on_pos {
                        let empty = MatchGraph::empty();
                        proof {
                            assert(empty@ =~= no_graph());
                        }
                        let mut found: bool = false;
                        let mut k: usize = 0;
                        while k < t.word.tags.len()
                            invariant
                                k <= t.word.tags@.len(),
                                empty@ == no_graph(),
                                tv[i + j].word == tokens@[i + j]@.word,
                                t == &tokens@[i + j as int],
                                found == exists|q: int|
                                    0 <= q < k && matcher_spec(
                                        &part.matcher,
                                        (#[trigger] tv[i + j].word.tags[q]).pos,
                                        no_graph(),
                                    ),
                            decreases t.word.tags@.len() - k,
                        {
                            if part.matcher.is_match(t.word.tags[k].pos.as_str(), &empty) {
                                found = true;
                                proof {
                                    assert(tv[i + j].word.tags[k as int]
                                        == t.word.tags@[k as int]@);
                                }
                            }
                            k += 1;
                        }
                        ok = found;
                        proof {
                            if found {
                                assert(some_pos_matches(&part.matcher, tv[i + j], no_graph()));
                            }
                        }
                    } else {
                        let empty = MatchGraph::empty();
                        proof {
                            assert(empty@ =~= no_graph());
                        }
                        ok = part.matcher.is_match(t.word.text.as_str(), &empty);
                    }
                },
            }
            if !ok {
                proof {
                    assert(!part_token_match(&self.parts@[j as int], tv, i as int, j as int));
                }
                return None;
            }
            proof {
                assert(part_token_match(&self.parts@[j as int], tv, i as int, j as int));
            }
            j += 1;
        }
        // the pattern holds: build the graph
        proof {
            assert(comp_match_at(self, tv, i as int));
        }
        let mut groups: Vec<Group> = Vec::new();
        let mut id_to_index: Vec<(usize, usize)> = Vec::new();
        groups.push(
            Group {
                char_span: (tokens[i].char_span.0, tokens[i + n - 1].char_span.1),
                token_range: (i, i + n),
            },
        );
        id_to_index.push((0, 0));
        let mut k: usize = 0;
        while k < n
            invariant
                k <= n,
                0 < n == self.parts@.len(),
                i + n <= tokens@.len() <= usize::MAX,
                tv == tokens_view(tokens@),
                groups@.len() == k + 1,
                id_to_index@.len() == k + 1,
                groups@ == comp_graph_spec(self, tv, i as int).groups.subrange(0, k + 1 as int),
                id_to_index@ == comp_graph_spec(self, tv, i as int).id_to_index.subrange(
                    0,
                    k + 1 as int,
                ),
            decreases n - k,
        {
            groups.push(Group { char_span: tokens[i + k].char_span, token_range: (i + k, i + k + 1) });
            id_to_index.push((k + 1, k + 1));
            proof {
                assert(tv[i + k] == tokens@[i + k]@);
                assert(groups@ =~= comp_graph_spec(self, tv, i as int).groups.subrange(
                    0,
                    k + 2 as int,
                ));
                assert(id_to_index@ =~= comp_graph_spec(self, tv, i as int).id_to_index.subrange(
                    0,
                    k + 2 as int,
                ));
            }
            k += 1;
        }
        let r = MatchGraph { groups, id_to_index, text: tokens[0].text.clone() };
        proof {
            assert(tv[0] == tokens@[0]@);
            assert(comp_graph_spec(self, tv, i as int).groups.subrange(0, (n + 1) as int)
                =~= comp_graph_spec(self, tv, i as int).groups);
            assert(comp_graph_spec(self, tv, i as int).id_to_index.subrange(0, (n + 1) as int)
                =~= comp_graph_spec(self, tv, i as int).id_to_index);
            assert(r@ =~= comp_graph_spec(self, tv, i as int));
        }
        Some(r)
    }

    /// The fast negative filter over a surface text.
    pub fn can_not_match(&self, text: &str) -> (r: bool)
        ensures
            r == can_not_match_spec(self, text@),
    {
        if self.parts.len() == 0 {
            return false;
        }
        let part = &self.parts[0];
        if part.on_pos {
            return false;
        }
        match &part.matcher {
            Matcher::Exact(s) => {
                let f = String::from_str(text);
                f != *s
            },
            _ => false,
        }
    }
}

/// Every graph a token pattern builds is well-formed: its id map sends each
/// id to one of its groups. A rule that names an id outside the pattern's
/// groups therefore gets no match, and never a malformed read: the verified
/// engine turns such authoring errors into silence, never a panic.
pub proof fn lemma_comp_graph_wf(c: &Composition, tokens: Seq<TokenV>, i: int)
    requires
        c.parts@.len() <= usize::MAX,
        comp_apply_spec(c, tokens, i) is Some,
    ensures
        graph_wf(comp_apply_spec(c, tokens, i)->0),
{
    let g = comp_apply_spec(c, tokens, i)->0;
    assert forall|k: int| 0 <= k < g.id_to_index.len() implies (#[trigger] g.id_to_index[k]).1
        < g.groups.len() by {
        assert(g.id_to_index[k] == (k as usize, k as usize));
    }
}

/// Soundness of the negative filter: where it says `true` of a surface text,
/// no anchoring at a token with that text ever matches.
pub proof fn lemma_can_not_match_sound(c: &Composition, tokens: Seq<TokenV>, i: int, w: Seq<char>)
    requires
        can_not_match_spec(c, w),
        0 <= i < tokens.len(),
        tokens[i].word.text == w,
    ensures
        comp_apply_spec(c, tokens, i) is None,
{
    if comp_match_at(c, tokens, i) {
        assert(part_token_match(&c.parts@[0], tokens, i, 0));
    }
}

} // verus!
