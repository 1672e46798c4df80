use vstd::prelude::*;

verus! {

/// One tag candidate of a token: a lemma and a part-of-speech tag.
pub struct WordData {
    pub lemma: String,
    pub pos: String,
}

/// The mathematical value of a `WordData`.
#[verifier::ext_equal]
pub struct WordDataV {
    pub lemma: Seq<char>,
    pub pos: Seq<char>,
}

impl View for WordData {
    type V = WordDataV;

    open spec fn view(&self) -> WordDataV {
        WordDataV { lemma: self.lemma@, pos: self.pos@ }
    }
}

impl WordData {
    pub fn new(lemma: String, pos: String) -> (r: WordData)
        ensures
            r@ == (WordDataV { lemma: lemma@, pos: pos@ }),
    {
        WordData { lemma, pos }
    }

    /// A fresh value with the same lemma and tag.
    pub fn duplicate(&self) -> (r: WordData)
        ensures
            r@ == self@,
    {
        let r = WordData { lemma: self.lemma.clone(), pos: self.pos.clone() };
        proof {
            assert(r@ =~= self@);
        }
        r
    }

    /// Whether the two values agree on lemma and tag.
    pub fn matches(&self, other: &WordData) -> (r: bool)
        ensures
            r == (self@ == other@),
    {
        let r = self.lemma == other.lemma && self.pos == other.pos;
        proof {
            if self.lemma@ == other.lemma@ && self.pos@ == other.pos@ {
                assert(self@ =~= other@);
            }
        }
        r
    }
}

/// The surface text of a token together with its tag candidates.
pub struct Word {
    pub text: String,
    pub tags: Vec<WordData>,
}

/// The mathematical value of a `Word`.
#[verifier::ext_equal]
pub struct WordV {
    pub text: Seq<char>,
    pub tags: Seq<WordDataV>,
}

/// The views of a list of tag candidates.
pub open spec fn tags_view(tags: Seq<WordData>) -> Seq<WordDataV> {
    tags.map_values(|d: WordData| d@)
}

/// Appending a tag appends its view.
pub proof fn lemma_tags_view_push(s: Seq<WordData>, x: WordData)
    ensures
        tags_view(s.push(x)) == tags_view(s).push(x@),
{
    assert forall|k: int| 0 <= k < s.push(x).len() implies tags_view(s.push(x))[k] == tags_view(
        s,
    ).push(x@)[k] by {
        if k < s.len() {
            assert(s.push(x)[k] == s[k]);
        } else {
            assert(s.push(x)[k] == x);
        }
    }
    assert(tags_view(s.push(x)) =~= tags_view(s).push(x@));
}

impl View for Word {
    type V = WordV;

    open spec fn view(&self) -> WordV {
        WordV { text: self.text@, tags: tags_view(self.tags@) }
    }
}

impl Word {
    pub fn new(text: String, tags: Vec<WordData>) -> (r: Word)
        ensures
            r@ == (WordV { text: text@, tags: tags_view(tags@) }),
    {
        Word { text, tags }
    }

    /// A fresh value with the same text and tags.
    pub fn duplicate(&self) -> (r: Word)
        ensures
            r@ == self@,
    {
        let mut tags: Vec<WordData> = Vec::new();
        let mut i: usize = 0;
        while i < self.tags.len()
            invariant
                i <= self.tags@.len(),
                tags_view(tags@) == tags_view(self.tags@).subrange(0, i as int),
            decreases self.tags@.len() - i,
        {
            let ghost prev = tags@;
            let d = self.tags[i].duplicate();
            tags.push(d);
            proof {
                lemma_tags_view_push(prev, d);
                assert(tags_view(self.tags@)[i as int] == self.tags@[i as int]@);
                assert(tags_view(tags@) =~= tags_view(self.tags@).subrange(0, i + 1 as int));
            }
            i += 1;
        }
        let r = Word { text: self.text.clone(), tags };
        proof {
            assert(tags_view(self.tags@).subrange(0, self.tags@.len() as int) =~= tags_view(
                self.tags@,
            ));
            assert(r@ =~= self@);
        }
        r
    }
}

/// Whether a tag list holds this value.
pub fn tags_contain(tags: &Vec<WordData>, d: &WordData) -> (r: bool)
    ensures
        r == tags_view(tags@).contains(d@),
{
    let mut i: usize = 0;
    let mut found: bool = false;
    while i < tags.len()
        invariant
            i <= tags@.len(),
            found == exists|k: int| 0 <= k < i && tags_view(tags@)[k] == d@,
        decreases tags@.len() - i,
    {
        if tags[i].matches(d) {
            found = true;
            proof {
                assert(tags_view(tags@)[i as int] == d@);
            }
        }
        i += 1;
    }
    proof {
        if found {
            let k = choose|k: int| 0 <= k < tags@.len() && tags_view(tags@)[k] == d@;
            assert(tags_view(tags@).contains(tags_view(tags@)[k]));
        }
        if tags_view(tags@).contains(d@) {
            let k = choose|k: int| 0 <= k < tags_view(tags@).len() && tags_view(tags@)[k] == d@;
            assert(0 <= k < tags@.len());
        }
    }
    found
}

/// Set equality of tag lists: each holds every value of the other,
/// whatever the order and multiplicity.
pub open spec fn tags_set_eq_spec(a: Seq<WordDataV>, b: Seq<WordDataV>) -> bool {
    (forall|i: int| 0 <= i < a.len() ==> b.contains(#[trigger] a[i])) && (forall|j: int|
        0 <= j < b.len() ==> a.contains(#[trigger] b[j]))
}

/// Whether the two tag lists hold the same set of values.
pub fn tags_set_eq(a: &Vec<WordData>, b: &Vec<WordData>) -> (r: bool)
    ensures
        r == tags_set_eq_spec(tags_view(a@), tags_view(b@)),
{
    let mut i: usize = 0;
    while i < a.len()
        invariant
            i <= a@.len(),
            forall|k: int| 0 <= k < i ==> tags_view(b@).contains(#[trigger] tags_view(a@)[k]),
        decreases a@.len() - i,
    {
        if !tags_contain(b, &a[i]) {
            proof {
                assert(tags_view(a@)[i as int] == a@[i as int]@);
            }
            return false;
        }
        i += 1;
    }
    let mut j: usize = 0;
    while j < b.len()
        invariant
            j <= b@.len(),
            forall|k: int| 0 <= k < a@.len() ==> tags_view(b@).contains(#[trigger] tags_view(a@)[k]),
            forall|k: int| 0 <= k < j ==> tags_view(a@).contains(#[trigger] tags_view(b@)[k]),
        decreases b@.len() - j,
    {
        if !tags_contain(a, &b[j]) {
            proof {
                assert(tags_view(b@)[j as int] == b@[j as int]@);
            }
            return false;
        }
        j += 1;
    }
    true
}

/// Reordering tags never changes set equality: two lists with the same
/// members, in any order, are equal to the harness.
pub proof fn lemma_tags_set_eq_ignores_order(a: Seq<WordDataV>, b: Seq<WordDataV>)
    requires
        forall|x: WordDataV| a.contains(x) <==> b.contains(x),
    ensures
        tags_set_eq_spec(a, b),
{
    assert forall|i: int| 0 <= i < a.len() implies b.contains(#[trigger] a[i]) by {
        assert(a.contains(a[i]));
    }
    assert forall|j: int| 0 <= j < b.len() implies a.contains(#[trigger] b[j]) by {
        assert(b.contains(b[j]));
    }
}

/// A token before disambiguation is final: surface word, the sentence text it
/// came from, and its character and byte spans there.
pub struct IncompleteToken {
    pub text: String,
    pub word: Word,
    pub char_span: (usize, usize),
    pub byte_span: (usize, usize),
}

/// The mathematical value of a token.
#[verifier::ext_equal]
pub struct TokenV {
    pub text: Seq<char>,
    pub word: WordV,
    pub char_span: (usize, usize),
    pub byte_span: (usize, usize),
}

impl View for IncompleteToken {
    type V = TokenV;

    open spec fn view(&self) -> TokenV {
        TokenV { text: self.text@, word: self.word@, char_span: self.char_span, byte_span: self.byte_span }
    }
}

/// A finalized token: same shape, frozen tags.
pub struct Token {
    pub text: String,
    pub word: Word,
    pub char_span: (usize, usize),
    pub byte_span: (usize, usize),
}

impl View for Token {
    type V = TokenV;

    open spec fn view(&self) -> TokenV {
        TokenV { text: self.text@, word: self.word@, char_span: self.char_span, byte_span: self.byte_span }
    }
}

impl IncompleteToken {
    /// A fresh value with the same fields.
    pub fn duplicate(&self) -> (r: IncompleteToken)
        ensures
            r@ == self@,
    {
        let r = IncompleteToken {
            text: self.text.clone(),
            word: self.word.duplicate(),
            char_span: self.char_span,
            byte_span: self.byte_span,
        };
        proof {
            assert(r@ =~= self@);
        }
        r
    }

    /// The same token, frozen.
    pub fn freeze(&self) -> (r: Token)
        ensures
            r@ == self@,
    {
        let r = Token {
            text: self.text.clone(),
            word: self.word.duplicate(),
            char_span: self.char_span,
            byte_span: self.byte_span,
        };
        proof {
            assert(r@ =~= self@);
        }
        r
    }
}

/// The views of a token list.
pub open spec fn itokens_view(tokens: Seq<IncompleteToken>) -> Seq<TokenV> {
    tokens.map_values(|t: IncompleteToken| t@)
}

/// Appending a token appends its view.
pub proof fn lemma_itokens_view_push(s: Seq<IncompleteToken>, x: IncompleteToken)
    ensures
        itokens_view(s.push(x)) == itokens_view(s).push(x@),
{
    assert forall|k: int| 0 <= k < s.push(x).len() implies itokens_view(s.push(x))[k]
        == itokens_view(s).push(x@)[k] by {
        if k < s.len() {
            assert(s.push(x)[k] == s[k]);
        } else {
            assert(s.push(x)[k] == x);
        }
    }
    assert(itokens_view(s.push(x)) =~= itokens_view(s).push(x@));
}

/// The views of a finalized token list.
pub open spec fn tokens_view(tokens: Seq<Token>) -> Seq<TokenV> {
    tokens.map_values(|t: Token| t@)
}

/// A fresh copy of a token list.
pub fn duplicate_itokens(tokens: &Vec<IncompleteToken>) -> (r: Vec<IncompleteToken>)
    ensures
        itokens_view(r@) == itokens_view(tokens@),
{
    let mut r: Vec<IncompleteToken> = Vec::new();
    let mut i: usize = 0;
    while i < tokens.len()
        invariant
            i <= tokens@.len(),
            itokens_view(r@) == itokens_view(tokens@).subrange(0, i as int),
        decreases tokens@.len() - i,
    {
        let ghost prev = r@;
        let t = tokens[i].duplicate();
        r.push(t);
        proof {
            lemma_itokens_view_push(prev, t);
            assert(itokens_view(tokens@)[i as int] == tokens@[i as int]@);
            assert(itokens_view(r@) =~= itokens_view(tokens@).subrange(0, i + 1 as int));
        }
        i += 1;
    }
    proof {
        assert(itokens_view(tokens@).subrange(0, tokens@.len() as int) =~= itokens_view(tokens@));
    }
    r
}

/// The views of a list of strings.
pub open spec fn strings_view(s: Seq<String>) -> Seq<Seq<char>> {
    s.map_values(|x: String| x@)
}

/// Appending a string appends its view.
pub proof fn lemma_strings_view_push(s: Seq<String>, x: String)
    ensures
        strings_view(s.push(x)) == strings_view(s).push(x@),
{
    assert forall|k: int| 0 <= k < s.push(x).len() implies strings_view(s.push(x))[k]
        == strings_view(s).push(x@)[k] by {
        if k < s.len() {
            assert(s.push(x)[k] == s[k]);
        } else {
            assert(s.push(x)[k] == x);
        }
    }
    assert(strings_view(s.push(x)) =~= strings_view(s).push(x@));
}

} // verus!
