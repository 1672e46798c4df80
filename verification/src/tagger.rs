use vstd::prelude::*;
use crate::outside::{lower_of, to_lowercase};
use crate::word::{WordData, WordDataV, lemma_strings_view_push, strings_view, tags_view};

verus! {

/// The options the tokenizer collaborator is configured with.
pub struct TokenizerOptions {
    pub always_add_lower_tags: bool,
    pub use_compound_split_heuristic: bool,
    pub retain_last: bool,
    pub known_failures: Vec<String>,
}

/// One dictionary row: a surface word and its tag candidates.
pub struct TagEntry {
    pub word: String,
    pub tags: Vec<WordData>,
}

/// One morphological family: a lemma and the words of its group.
pub struct GroupEntry {
    pub lemma: String,
    pub members: Vec<String>,
}

/// The dictionary collaborator: tag candidates per word and morphological
/// families per lemma.
pub struct Tagger {
    pub entries: Vec<TagEntry>,
    pub groups: Vec<GroupEntry>,
}

/// The tags of the first row for a word (empty when none).
pub open spec fn tags_lookup(entries: Seq<TagEntry>, word: Seq<char>) -> Seq<WordDataV>
    decreases entries.len(),
{
    if entries.len() == 0 {
        Seq::empty()
    } else if entries[0].word@ == word {
        tags_view(entries[0].tags@)
    } else {
        tags_lookup(entries.skip(1), word)
    }
}

/// What `get_tags` returns: the word's own row; where that is empty and
/// lowercase fallback is on, the lowercased word's row.
pub open spec fn get_tags_spec(t: &Tagger, word: Seq<char>, add_lower: bool) -> Seq<WordDataV> {
    let direct = tags_lookup(t.entries@, word);
    if direct.len() > 0 {
        direct
    } else if add_lower {
        tags_lookup(t.entries@, lower_of(word))
    } else {
        direct
    }
}

/// The members of the first family for a lemma (empty when none).
pub open spec fn members_lookup(groups: Seq<GroupEntry>, lemma: Seq<char>) -> Seq<Seq<char>>
    decreases groups.len(),
{
    if groups.len() == 0 {
        Seq::empty()
    } else if groups[0].lemma@ == lemma {
        strings_view(groups[0].members@)
    } else {
        members_lookup(groups.skip(1), lemma)
    }
}

impl Tagger {
    pub fn new(entries: Vec<TagEntry>, groups: Vec<GroupEntry>) -> (r: Tagger)
        ensures
            r.entries@ == entries@,
            r.groups@ == groups@,
    {
        Tagger { entries, groups }
    }

    /// The tags of the first row for this word.
    fn lookup_tags(&self, text: &str) -> (r: Vec<WordData>)
        ensures
            tags_view(r@) == tags_lookup(self.entries@, text@),
    {
        let ghost es = self.entries@;
        let mut i: usize = 0;
        proof {
            assert(es.skip(0) =~= es);
        }
        while i < self.entries.len()
            invariant
                i <= es.len(),
                es == self.entries@,
                tags_lookup(es.skip(i as int), text@) == tags_lookup(es, text@),
            decreases es.len() - i,
        {
            proof {
                assert(es.skip(i as int)[0] == es[i as int]);
                assert(es.skip(i as int).skip(1) =~= es.skip(i + 1 as int));
            }
            let entry = &self.entries[i];
            let t = String::from_str(text);
            if t == entry.word {
                let mut out: Vec<WordData> = Vec::new();
                let mut k: usize = 0;
                while k < entry.tags.len()
                    invariant
                        k <= entry.tags@.len(),
                        tags_view(out@) == tags_view(entry.tags@).subrange(0, k as int),
                    decreases entry.tags@.len() - k,
                {
                    let ghost prev = out@;
                    let d = entry.tags[k].duplicate();
                    out.push(d);
                    proof {
                        crate::word::lemma_tags_view_push(prev, d);
                        assert(tags_view(entry.tags@)[k as int] == entry.tags@[k as int]@);
                        assert(tags_view(out@) =~= tags_view(entry.tags@).subrange(
                            0,
                            k + 1 as int,
                        ));
                    }
                    k += 1;
                }
                proof {
                    assert(tags_view(entry.tags@).subrange(0, entry.tags@.len() as int)
                        =~= tags_view(entry.tags@));
                }
                return out;
            }
            i += 1;
        }
        proof {
            assert(es.skip(es.len() as int) =~= Seq::<TagEntry>::empty());
        }
        Vec::new()
    }

    /// The tag candidates of a word; an empty row falls back to the
    /// lowercased word where the first flag asks for it. The second flag is
    /// part of the collaborator's shape and changes nothing here.
    pub fn get_tags(
        &self,
        text: &str,
        always_add_lower_tags: bool,
        _use_compound_split_heuristic: bool,
    ) -> (r: Vec<WordData>)
        ensures
            tags_view(r@) == get_tags_spec(self, text@, always_add_lower_tags),
    {
        let direct = self.lookup_tags(text);
        if direct.len() > 0 {
            direct
        } else if always_add_lower_tags {
            let lower = to_lowercase(text);
            self.lookup_tags(lower.as_str())
        } else {
            direct
        }
    }

    /// The morphological family of a lemma.
    pub fn get_group_members(&self, lemma: &String) -> (r: Vec<String>)
        ensures
            strings_view(r@) == members_lookup(self.groups@, lemma@),
    {
        let ghost gs = self.groups@;
        let mut i: usize = 0;
        proof {
            assert(gs.skip(0) =~= gs);
        }
        while i < self.groups.len()
            invariant
                i <= gs.len(),
                gs == self.groups@,
                members_lookup(gs.skip(i as int), lemma@) == members_lookup(gs, lemma@),
            decreases gs.len() - i,
        {
            proof {
                assert(gs.skip(i as int)[0] == gs[i as int]);
                assert(gs.skip(i as int).skip(1) =~= gs.skip(i + 1 as int));
            }
            let entry = &self.groups[i];
            if *lemma == entry.lemma {
                let mut out: Vec<String> = Vec::new();
                let mut k: usize = 0;
                while k < entry.members.len()
                    invariant
                        k <= entry.members@.len(),
                        strings_view(out@) == strings_view(entry.members@).subrange(0, k as int),
                    decreases entry.members@.len() - k,
                {
                    let ghost prev = out@;
                    let m = entry.members[k].clone();
                    out.push(m);
                    proof {
                        lemma_strings_view_push(prev, out@.last());
                        assert(prev.push(out@.last()) =~= out@);
                        assert(strings_view(entry.members@)[k as int] == entry.members@[
                            k as int
                        ]@);
                        assert(strings_view(out@) =~= strings_view(entry.members@).subrange(
                            0,
                            k + 1 as int,
                        ));
                    }
                    k += 1;
                }
                proof {
                    assert(strings_view(entry.members@).subrange(
                        0,
                        entry.members@.len() as int,
                    ) =~= strings_view(entry.members@));
                }
                return out;
            }
            i += 1;
        }
        proof {
            assert(gs.skip(gs.len() as int) =~= Seq::<GroupEntry>::empty());
        }
        Vec::new()
    }
}

} // verus!
