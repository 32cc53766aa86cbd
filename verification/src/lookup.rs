//! Lookup of the denormalized entries of a surface word: for each word row
//! with the queried text, the entry carries its senses in table order —
//! which, in a store built by the importer, is ascending `relevance` order —
//! with their examples, synonyms and tags, and the word's forms and
//! pronunciations.

use vstd::prelude::*;

use crate::entry::{Entry, Example, Form, Pronunciation, Sense};
use crate::lexicon::{clone_opt, Lexicon, LexiconV};
use crate::text::str_eq;

verus! {

/// The positions in `[0, n)` satisfying `pred`, in ascending order.
pub open spec fn matching_ids(n: int, pred: spec_fn(int) -> bool) -> Seq<int>
    decreases n,
{
    if n <= 0 {
        Seq::<int>::empty()
    } else if pred(n - 1) {
        matching_ids(n - 1, pred).push(n - 1)
    } else {
        matching_ids(n - 1, pred)
    }
}

/// Every position listed by [`matching_ids`] is in range and satisfies the
/// predicate.
pub proof fn lemma_matching_ids_props(n: int, pred: spec_fn(int) -> bool)
    ensures
        forall|k: int|
            0 <= k < matching_ids(n, pred).len() ==> 0 <= #[trigger] matching_ids(n, pred)[k] < n
                && pred(matching_ids(n, pred)[k]),
        forall|k: int, l: int|
            0 <= k < l < matching_ids(n, pred).len() ==> matching_ids(n, pred)[k] < matching_ids(
                n,
                pred,
            )[l],
    decreases n,
{
    if n <= 0 {
    } else {
        lemma_matching_ids_props(n - 1, pred);
        let ids = matching_ids(n, pred);
        let prev = matching_ids(n - 1, pred);
        assert forall|k: int| 0 <= k < ids.len() implies 0 <= #[trigger] ids[k] < n && pred(
            ids[k],
        ) by {
            if k < prev.len() {
                assert(ids[k] == prev[k]);
            } else {
                assert(pred(n - 1) && ids[k] == n - 1);
            }
        }
        assert forall|k: int, l: int| 0 <= k < l < ids.len() implies ids[k] < ids[l] by {
            if l < prev.len() {
                assert(ids[k] == prev[k] && ids[l] == prev[l]);
            } else {
                assert(pred(n - 1) && ids[l] == n - 1);
                assert(ids[k] == prev[k] && prev[k] < n - 1);
            }
        }
    }
}

/// Word rows among the first `n` whose surface form is `q`.
pub open spec fn word_ids_upto(v: LexiconV, q: Seq<char>, n: int) -> Seq<int> {
    matching_ids(n, |w: int| v.words[w].word@ == q)
}

/// All word rows whose surface form is `q`.
pub open spec fn word_ids_of(v: LexiconV, q: Seq<char>) -> Seq<int> {
    word_ids_upto(v, q, v.words.len() as int)
}

/// Sense rows among the first `n` that belong to word `w`.
pub open spec fn sense_ids_upto(v: LexiconV, w: int, n: int) -> Seq<int> {
    matching_ids(n, |i: int| v.senses[i].word_id as int == w)
}

/// All sense rows of word `w`, in table order.
pub open spec fn sense_ids_of(v: LexiconV, w: int) -> Seq<int> {
    sense_ids_upto(v, w, v.senses.len() as int)
}

/// Example rows among the first `n` that belong to sense `i`.
pub open spec fn example_ids_upto(v: LexiconV, i: int, n: int) -> Seq<int> {
    matching_ids(n, |j: int| v.examples[j].sense_id as int == i)
}

/// All example rows of sense `i`.
pub open spec fn example_ids_of(v: LexiconV, i: int) -> Seq<int> {
    example_ids_upto(v, i, v.examples.len() as int)
}

/// Tag rows among the first `n` that belong to sense `i`.
pub open spec fn sense_tag_ids_upto(v: LexiconV, i: int, n: int) -> Seq<int> {
    matching_ids(n, |j: int| v.sense_tags[j].owner_id as int == i)
}

/// All tag rows of sense `i`.
pub open spec fn sense_tag_ids_of(v: LexiconV, i: int) -> Seq<int> {
    sense_tag_ids_upto(v, i, v.sense_tags.len() as int)
}

/// Synonym links among the first `n` that belong to sense `i`.
pub open spec fn link_ids_upto(v: LexiconV, i: int, n: int) -> Seq<int> {
    matching_ids(n, |j: int| v.sense_synonyms[j].sense_id as int == i)
}

/// All synonym links of sense `i`.
pub open spec fn link_ids_of(v: LexiconV, i: int) -> Seq<int> {
    link_ids_upto(v, i, v.sense_synonyms.len() as int)
}

/// Form rows among the first `n` that belong to word `w`.
pub open spec fn form_ids_upto(v: LexiconV, w: int, n: int) -> Seq<int> {
    matching_ids(n, |i: int| v.forms[i].word_id as int == w)
}

/// All form rows of word `w`.
pub open spec fn form_ids_of(v: LexiconV, w: int) -> Seq<int> {
    form_ids_upto(v, w, v.forms.len() as int)
}

/// Form-tag rows among the first `n` that belong to form `i`.
pub open spec fn form_tag_ids_upto(v: LexiconV, i: int, n: int) -> Seq<int> {
    matching_ids(n, |j: int| v.form_tags[j].owner_id as int == i)
}

/// All tag rows of form `i`.
pub open spec fn form_tag_ids_of(v: LexiconV, i: int) -> Seq<int> {
    form_tag_ids_upto(v, i, v.form_tags.len() as int)
}

/// Pronunciation rows among the first `n` that belong to word `w`.
pub open spec fn pron_ids_upto(v: LexiconV, w: int, n: int) -> Seq<int> {
    matching_ids(n, |i: int| v.pronunciations[i].word_id as int == w)
}

/// All pronunciation rows of word `w`.
pub open spec fn pron_ids_of(v: LexiconV, w: int) -> Seq<int> {
    pron_ids_upto(v, w, v.pronunciations.len() as int)
}

/// Pronunciation-tag rows among the first `n` that belong to pronunciation
/// `i`.
pub open spec fn pron_tag_ids_upto(v: LexiconV, i: int, n: int) -> Seq<int> {
    matching_ids(n, |j: int| v.pronunciation_tags[j].owner_id as int == i)
}

/// All tag rows of pronunciation `i`.
pub open spec fn pron_tag_ids_of(v: LexiconV, i: int) -> Seq<int> {
    pron_tag_ids_upto(v, i, v.pronunciation_tags.len() as int)
}

/// The example mirrors example row `j`.
pub open spec fn example_matches(v: LexiconV, e: Example, j: int) -> bool {
    &&& e.text == v.examples[j].text
    &&& e.english == v.examples[j].english
}

/// The sense mirrors sense row `i` with all its children.
pub open spec fn sense_matches(v: LexiconV, s: Sense, i: int) -> bool {
    &&& s.sense == v.senses[i].gloss
    &&& s.examples@.len() == example_ids_of(v, i).len()
    &&& forall|k: int|
        0 <= k < s.examples@.len() ==> example_matches(v, #[trigger] s.examples@[k], example_ids_of(v, i)[k])
    &&& s.tags@.len() == sense_tag_ids_of(v, i).len()
    &&& forall|k: int|
        0 <= k < s.tags@.len() ==> #[trigger] s.tags@[k] == v.sense_tags[sense_tag_ids_of(
            v,
            i,
        )[k]].tag
    &&& s.synonyms@.len() == link_ids_of(v, i).len()
    &&& forall|k: int|
        0 <= k < s.synonyms@.len() ==> #[trigger] s.synonyms@[k] == v.synonyms[v.sense_synonyms[link_ids_of(
            v,
            i,
        )[k]].synonym_id as int]
}

/// The form mirrors form row `i` with its tags.
pub open spec fn form_matches(v: LexiconV, f: Form, i: int) -> bool {
    &&& f.form == v.forms[i].form
    &&& f.tags@.len() == form_tag_ids_of(v, i).len()
    &&& forall|k: int|
        0 <= k < f.tags@.len() ==> #[trigger] f.tags@[k] == v.form_tags[form_tag_ids_of(
            v,
            i,
        )[k]].tag
}

/// The pronunciation mirrors pronunciation row `i` with its tags.
pub open spec fn pronunciation_matches(v: LexiconV, p: Pronunciation, i: int) -> bool {
    &&& p.ipa == v.pronunciations[i].ipa
    &&& p.tags@.len() == pron_tag_ids_of(v, i).len()
    &&& forall|k: int|
        0 <= k < p.tags@.len() ==> #[trigger] p.tags@[k] == v.pronunciation_tags[pron_tag_ids_of(
            v,
            i,
        )[k]].tag
}

/// The entry mirrors word row `w` with all its senses, forms and
/// pronunciations, each child list in table order.
pub open spec fn entry_matches(v: LexiconV, e: Entry, w: int) -> bool {
    &&& e.word == v.words[w].word
    &&& e.pos == v.words[w].pos
    &&& e.etymology == v.words[w].etymology
    &&& e.expansion == v.words[w].expansion
    &&& e.senses@.len() == sense_ids_of(v, w).len()
    &&& forall|k: int|
        0 <= k < e.senses@.len() ==> sense_matches(v, #[trigger] e.senses@[k], sense_ids_of(v, w)[k])
    &&& e.forms@.len() == form_ids_of(v, w).len()
    &&& forall|k: int|
        0 <= k < e.forms@.len() ==> form_matches(v, #[trigger] e.forms@[k], form_ids_of(v, w)[k])
    &&& e.pronunciations@.len() == pron_ids_of(v, w).len()
    &&& forall|k: int|
        0 <= k < e.pronunciations@.len() ==> pronunciation_matches(
            v,
            #[trigger] e.pronunciations@[k],
            pron_ids_of(v, w)[k],
        )
}

impl Lexicon {
    /// Collect the example list of sense `i`.
    fn collect_examples(&self, i: usize) -> (out: Vec<Example>)
        ensures
            out@.len() == example_ids_of(self@, i as int).len(),
            forall|k: int|
                0 <= k < out@.len() ==> example_matches(
                    self@,
                    #[trigger] out@[k],
                    example_ids_of(self@, i as int)[k],
                ),
    {
        let mut out: Vec<Example> = Vec::new();
        let mut j: usize = 0;
        while j < self.examples.len()
            invariant
                j <= self@.examples.len(),
                out@.len() == example_ids_upto(self@, i as int, j as int).len(),
                forall|k: int|
                    0 <= k < out@.len() ==> example_matches(
                        self@,
                        #[trigger] out@[k],
                        example_ids_upto(self@, i as int, j as int)[k],
                    ),
            decreases self@.examples.len() - j,
        {
            if self.examples[j].sense_id == i {
                out.push(
                    Example {
                        text: self.examples[j].text.clone(),
                        english: clone_opt(&self.examples[j].english),
                    },
                );
            }
            j = j + 1;
        }
        out
    }

    /// Collect the tag list of sense `i`.
    fn collect_sense_tags(&self, i: usize) -> (out: Vec<String>)
        ensures
            out@.len() == sense_tag_ids_of(self@, i as int).len(),
            forall|k: int|
                0 <= k < out@.len() ==> #[trigger] out@[k] == self@.sense_tags[sense_tag_ids_of(
                    self@,
                    i as int,
                )[k]].tag,
    {
        let mut out: Vec<String> = Vec::new();
        let mut j: usize = 0;
        while j < self.sense_tags.len()
            invariant
                j <= self@.sense_tags.len(),
                out@.len() == sense_tag_ids_upto(self@, i as int, j as int).len(),
                forall|k: int|
                    0 <= k < out@.len() ==> #[trigger] out@[k] == self@.sense_tags[sense_tag_ids_upto(
                        self@,
                        i as int,
                        j as int,
                    )[k]].tag,
            decreases self@.sense_tags.len() - j,
        {
            if self.sense_tags[j].owner_id == i {
                out.push(self.sense_tags[j].tag.clone());
            }
            j = j + 1;
        }
        out
    }

    /// Collect the synonym list of sense `i`.
    fn collect_synonyms(&self, i: usize) -> (out: Vec<String>)
        requires
            self@.wf(),
        ensures
            out@.len() == link_ids_of(self@, i as int).len(),
            forall|k: int|
                0 <= k < out@.len() ==> #[trigger] out@[k] == self@.synonyms[self@.sense_synonyms[link_ids_of(
                    self@,
                    i as int,
                )[k]].synonym_id as int],
    {
        let mut out: Vec<String> = Vec::new();
        let mut j: usize = 0;
        while j < self.sense_synonyms.len()
            invariant
                self@.wf(),
                j <= self@.sense_synonyms.len(),
                out@.len() == link_ids_upto(self@, i as int, j as int).len(),
                forall|k: int|
                    0 <= k < out@.len() ==> #[trigger] out@[k] == self@.synonyms[self@.sense_synonyms[link_ids_upto(
                        self@,
                        i as int,
                        j as int,
                    )[k]].synonym_id as int],
            decreases self@.sense_synonyms.len() - j,
        {
            if self.sense_synonyms[j].sense_id == i {
                let sid = self.sense_synonyms[j].synonym_id;
                out.push(self.synonyms[sid].clone());
            }
            j = j + 1;
        }
        out
    }

    /// Collect sense `i` with its children.
    fn collect_sense(&self, i: usize) -> (s: Sense)
        requires
            self@.wf(),
            i < self@.senses.len(),
        ensures
            sense_matches(self@, s, i as int),
    {
        Sense {
            sense: clone_opt(&self.senses[i].gloss),
            examples: self.collect_examples(i),
            synonyms: self.collect_synonyms(i),
            tags: self.collect_sense_tags(i),
        }
    }

    /// Collect form `i` with its tags.
    fn collect_form(&self, i: usize) -> (f: Form)
        requires
            i < self@.forms.len(),
        ensures
            form_matches(self@, f, i as int),
    {
        let mut tags: Vec<String> = Vec::new();
        let mut j: usize = 0;
        while j < self.form_tags.len()
            invariant
                j <= self@.form_tags.len(),
                tags@.len() == form_tag_ids_upto(self@, i as int, j as int).len(),
                forall|k: int|
                    0 <= k < tags@.len() ==> #[trigger] tags@[k] == self@.form_tags[form_tag_ids_upto(
                        self@,
                        i as int,
                        j as int,
                    )[k]].tag,
            decreases self@.form_tags.len() - j,
        {
            if self.form_tags[j].owner_id == i {
                tags.push(self.form_tags[j].tag.clone());
            }
            j = j + 1;
        }
        Form { form: self.forms[i].form.clone(), tags }
    }

    /// Collect pronunciation `i` with its tags.
    fn collect_pronunciation(&self, i: usize) -> (p: Pronunciation)
        requires
            i < self@.pronunciations.len(),
        ensures
            pronunciation_matches(self@, p, i as int),
    {
        let mut tags: Vec<String> = Vec::new();
        let mut j: usize = 0;
        while j < self.pronunciation_tags.len()
            invariant
                j <= self@.pronunciation_tags.len(),
                tags@.len() == pron_tag_ids_upto(self@, i as int, j as int).len(),
                forall|k: int|
                    0 <= k < tags@.len() ==> #[trigger] tags@[k] == self@.pronunciation_tags[pron_tag_ids_upto(
                        self@,
                        i as int,
                        j as int,
                    )[k]].tag,
            decreases self@.pronunciation_tags.len() - j,
        {
            if self.pronunciation_tags[j].owner_id == i {
                tags.push(self.pronunciation_tags[j].tag.clone());
            }
            j = j + 1;
        }
        Pronunciation { ipa: self.pronunciations[i].ipa.clone(), tags }
    }

    /// Collect the entry of word `w`.
    fn collect_entry(&self, w: usize) -> (e: Entry)
        requires
            self@.wf(),
            w < self@.words.len(),
        ensures
            entry_matches(self@, e, w as int),
    {
        let mut senses: Vec<Sense> = Vec::new();
        let mut i: usize = 0;
        while i < self.senses.len()
            invariant
                self@.wf(),
                w < self@.words.len(),
                i <= self@.senses.len(),
                senses@.len() == sense_ids_upto(self@, w as int, i as int).len(),
                forall|k: int|
                    0 <= k < senses@.len() ==> sense_matches(
                        self@,
                        #[trigger] senses@[k],
                        sense_ids_upto(self@, w as int, i as int)[k],
                    ),
            decreases self@.senses.len() - i,
        {
            if self.senses[i].word_id == w {
                let s = self.collect_sense(i);
                senses.push(s);
            }
            i = i + 1;
        }

        let mut forms: Vec<Form> = Vec::new();
        let mut i: usize = 0;
        while i < self.forms.len()
            invariant
                self@.wf(),
                w < self@.words.len(),
                i <= self@.forms.len(),
                forms@.len() == form_ids_upto(self@, w as int, i as int).len(),
                forall|k: int|
                    0 <= k < forms@.len() ==> form_matches(
                        self@,
                        #[trigger] forms@[k],
                        form_ids_upto(self@, w as int, i as int)[k],
                    ),
            decreases self@.forms.len() - i,
        {
            if self.forms[i].word_id == w {
                let f = self.collect_form(i);
                forms.push(f);
            }
            i = i + 1;
        }

        let mut pronunciations: Vec<Pronunciation> = Vec::new();
        let mut i: usize = 0;
        while i < self.pronunciations.len()
            invariant
                self@.wf(),
                w < self@.words.len(),
                i <= self@.pronunciations.len(),
                pronunciations@.len() == pron_ids_upto(self@, w as int, i as int).len(),
                forall|k: int|
                    0 <= k < pronunciations@.len() ==> pronunciation_matches(
                        self@,
                        #[trigger] pronunciations@[k],
                        pron_ids_upto(self@, w as int, i as int)[k],
                    ),
            decreases self@.pronunciations.len() - i,
        {
            if self.pronunciations[i].word_id == w {
                let p = self.collect_pronunciation(i);
                pronunciations.push(p);
            }
            i = i + 1;
        }

        Entry {
            word: self.words[w].word.clone(),
            pos: self.words[w].pos,
            etymology: clone_opt(&self.words[w].etymology),
            expansion: clone_opt(&self.words[w].expansion),
            senses,
            forms,
            pronunciations,
        }
    }

    /// The full denormalized view of every word row whose surface form is
    /// `word`: one entry per matching row, senses, forms and pronunciations
    /// in table order.
    pub fn read_entries(&self, word: &str) -> (r: Vec<Entry>)
        requires
            self@.wf(),
        ensures
            r@.len() == word_ids_of(self@, word@).len(),
            forall|k: int|
                0 <= k < r@.len() ==> entry_matches(
                    self@,
                    #[trigger] r@[k],
                    word_ids_of(self@, word@)[k],
                ),
    {
        let mut r: Vec<Entry> = Vec::new();
        let mut w: usize = 0;
        while w < self.words.len()
            invariant
                self@.wf(),
                w <= self@.words.len(),
                r@.len() == word_ids_upto(self@, word@, w as int).len(),
                forall|k: int|
                    0 <= k < r@.len() ==> entry_matches(
                        self@,
                        #[trigger] r@[k],
                        word_ids_upto(self@, word@, w as int)[k],
                    ),
            decreases self@.words.len() - w,
        {
            if str_eq(self.words[w].word.as_str(), word) {
                let e = self.collect_entry(w);
                r.push(e);
            }
            w = w + 1;
        }
        r
    }
}

} // verus!
