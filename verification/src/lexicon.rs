//! The Lexicon Store: relational tables for words, senses, examples, forms,
//! pronunciations, synonyms and corpus frequency, held in memory as plain
//! rows.  Row ids are positions in the owning table, so a freshly inserted
//! row's id is the table's previous length, mirroring a store that hands out
//! consecutive identities.

use vstd::prelude::*;

use crate::dictionary::{strip_accents, word_class_of, WordClass};
use crate::text::str_eq;
use crate::record::{
    all_senses_form_of, form_survives, form_survives_exec, sense_form_of, sense_is_form_of,
    RawExample, RawForm, RawRecord, RawSense, RawSound,
};

verus! {

/// A dictionary word: surface form, class, optional etymology and optional
/// head-template expansion.  Immutable once created.
#[derive(Debug, Clone)]
pub struct WordRow {
    pub word: String,
    pub pos: WordClass,
    pub etymology: Option<String>,
    pub expansion: Option<String>,
}

/// A sense of a word: optional gloss and its order in the source record.
#[derive(Debug, Clone)]
pub struct SenseRow {
    pub word_id: usize,
    pub gloss: Option<String>,
    pub relevance: usize,
}

/// An example quoted under a sense.
#[derive(Debug, Clone)]
pub struct ExampleRow {
    pub sense_id: usize,
    pub text: String,
    pub english: Option<String>,
}

/// A free-text tag attached to a sense, form or pronunciation row.
#[derive(Debug, Clone)]
pub struct TagRow {
    pub owner_id: usize,
    pub tag: String,
}

/// A link from a sense to a row of the synonym table.
#[derive(Debug, Clone)]
pub struct LinkRow {
    pub sense_id: usize,
    pub synonym_id: usize,
}

/// An inflected form of a word.  The accent-stripped normalized form is
/// derived data — `strip_accents` of the literal form — and is recomputed
/// where needed rather than stored.
#[derive(Debug, Clone)]
pub struct FormRow {
    pub word_id: usize,
    pub form: String,
}

/// An IPA pronunciation of a word.
#[derive(Debug, Clone)]
pub struct PronunciationRow {
    pub word_id: usize,
    pub ipa: String,
}

/// The corpus rank of a word; lower means more frequent.
#[derive(Debug, Clone)]
pub struct FrequencyRow {
    pub word_id: usize,
    pub rank: usize,
}

/// The Lexicon Store.
#[derive(Debug)]
pub struct Lexicon {
    pub words: Vec<WordRow>,
    pub senses: Vec<SenseRow>,
    pub examples: Vec<ExampleRow>,
    pub sense_tags: Vec<TagRow>,
    pub synonyms: Vec<String>,
    pub sense_synonyms: Vec<LinkRow>,
    pub forms: Vec<FormRow>,
    pub form_tags: Vec<TagRow>,
    pub pronunciations: Vec<PronunciationRow>,
    pub pronunciation_tags: Vec<TagRow>,
    pub frequency: Vec<FrequencyRow>,
}

/// The mathematical value of the store: one sequence per table.
#[verifier::ext_equal]
pub ghost struct LexiconV {
    pub words: Seq<WordRow>,
    pub senses: Seq<SenseRow>,
    pub examples: Seq<ExampleRow>,
    pub sense_tags: Seq<TagRow>,
    pub synonyms: Seq<String>,
    pub sense_synonyms: Seq<LinkRow>,
    pub forms: Seq<FormRow>,
    pub form_tags: Seq<TagRow>,
    pub pronunciations: Seq<PronunciationRow>,
    pub pronunciation_tags: Seq<TagRow>,
    pub frequency: Seq<FrequencyRow>,
}

impl View for Lexicon {
    type V = LexiconV;

    open spec fn view(&self) -> LexiconV {
        LexiconV {
            words: self.words@,
            senses: self.senses@,
            examples: self.examples@,
            sense_tags: self.sense_tags@,
            synonyms: self.synonyms@,
            sense_synonyms: self.sense_synonyms@,
            forms: self.forms@,
            form_tags: self.form_tags@,
            pronunciations: self.pronunciations@,
            pronunciation_tags: self.pronunciation_tags@,
            frequency: self.frequency@,
        }
    }
}

impl LexiconV {
    /// Referential integrity and orderliness of the store.
    ///
    /// Every child row points at an existing parent; synonym texts are kept
    /// distinct so that insert-or-reuse is unambiguous; the senses of one
    /// word sit in the table in strictly ascending `relevance` order; and
    /// each word has at most one frequency row.
    pub open spec fn wf(self) -> bool {
        &&& forall|i: int|
            0 <= i < self.senses.len() ==> (#[trigger] self.senses[i]).word_id < self.words.len()
        &&& forall|i: int|
            0 <= i < self.examples.len() ==> (#[trigger] self.examples[i]).sense_id
                < self.senses.len()
        &&& forall|i: int|
            0 <= i < self.sense_tags.len() ==> (#[trigger] self.sense_tags[i]).owner_id
                < self.senses.len()
        &&& forall|i: int|
            0 <= i < self.sense_synonyms.len() ==> (#[trigger] self.sense_synonyms[i]).sense_id
                < self.senses.len() && self.sense_synonyms[i].synonym_id < self.synonyms.len()
        &&& forall|i: int|
            0 <= i < self.forms.len() ==> (#[trigger] self.forms[i]).word_id < self.words.len()
        &&& forall|i: int|
            0 <= i < self.form_tags.len() ==> (#[trigger] self.form_tags[i]).owner_id
                < self.forms.len()
        &&& forall|i: int|
            0 <= i < self.pronunciations.len() ==> (#[trigger] self.pronunciations[i]).word_id
                < self.words.len()
        &&& forall|i: int|
            0 <= i < self.pronunciation_tags.len() ==> (
            #[trigger] self.pronunciation_tags[i]).owner_id < self.pronunciations.len()
        &&& forall|i: int|
            0 <= i < self.frequency.len() ==> (#[trigger] self.frequency[i]).word_id
                < self.words.len()
        &&& forall|i: int, j: int|
            0 <= i < j < self.frequency.len() ==> (#[trigger] self.frequency[i]).word_id != (
            #[trigger] self.frequency[j]).word_id
        &&& synonyms_distinct(self)
        &&& forall|i: int, j: int|
            0 <= i < j < self.senses.len() && (#[trigger] self.senses[i]).word_id == (
            #[trigger] self.senses[j]).word_id ==> self.senses[i].relevance
                < self.senses[j].relevance
    }
}

/// No two rows of the synonym table hold the same text.
pub open spec fn synonyms_distinct(v: LexiconV) -> bool {
    forall|i: int, j: int|
        0 <= i < j < v.synonyms.len() ==> (#[trigger] v.synonyms[i])@ != (
        #[trigger] v.synonyms[j])@
}

// ---------------------------------------------------------------------------
// The importer's per-record effect on the store, as spec-level folds.
// ---------------------------------------------------------------------------

/// The tag rows for one owning row.
pub open spec fn tag_rows(owner_id: usize, tags: Seq<String>) -> Seq<TagRow> {
    tags.map_values(|t: String| TagRow { owner_id, tag: t })
}

/// The example rows for one sense.
pub open spec fn example_rows_of(sense_id: usize, examples: Seq<RawExample>) -> Seq<ExampleRow> {
    examples.map_values(|e: RawExample| ExampleRow { sense_id, text: e.text, english: e.english })
}

/// Pointwise reading of [`tag_rows`].
pub proof fn lemma_tag_rows_index(owner_id: usize, tags: Seq<String>)
    ensures
        tag_rows(owner_id, tags).len() == tags.len(),
        forall|i: int|
            0 <= i < tags.len() ==> #[trigger] tag_rows(owner_id, tags)[i] == (TagRow {
                owner_id,
                tag: tags[i],
            }),
{
}

/// Pointwise reading of [`example_rows_of`].
pub proof fn lemma_example_rows_index(sense_id: usize, examples: Seq<RawExample>)
    ensures
        example_rows_of(sense_id, examples).len() == examples.len(),
        forall|i: int|
            0 <= i < examples.len() ==> #[trigger] example_rows_of(sense_id, examples)[i]
                == (ExampleRow {
                sense_id,
                text: examples[i].text,
                english: examples[i].english,
            }),
{
}

/// Position of the first synonym row holding the given text, or -1 when none
/// does.
pub open spec fn spec_synonym_index(syns: Seq<String>, syn: Seq<char>) -> int
    decreases syns.len(),
{
    if syns.len() == 0 {
        -1
    } else if syns[0]@ == syn {
        0
    } else {
        let r = spec_synonym_index(syns.drop_first(), syn);
        if r == -1 {
            -1
        } else {
            r + 1
        }
    }
}

/// [`spec_synonym_index`] finds exactly the first matching row.
pub proof fn lemma_synonym_index_char(syns: Seq<String>, key: Seq<char>)
    ensures
        ({
            let r = spec_synonym_index(syns, key);
            &&& (r == -1 <==> forall|k: int| 0 <= k < syns.len() ==> (#[trigger] syns[k])@ != key)
            &&& (r != -1 ==> 0 <= r < syns.len() && syns[r]@ == key && forall|k: int|
                0 <= k < r ==> (#[trigger] syns[k])@ != key)
        }),
    decreases syns.len(),
{
    if syns.len() == 0 {
    } else if syns[0]@ == key {
    } else {
        lemma_synonym_index_char(syns.drop_first(), key);
        let r0 = spec_synonym_index(syns.drop_first(), key);
        if r0 == -1 {
            assert forall|k: int| 0 <= k < syns.len() implies (#[trigger] syns[k])@ != key by {
                if k > 0 {
                    assert(syns.drop_first()[k - 1] == syns[k]);
                }
            }
        } else {
            assert(syns.drop_first()[r0] == syns[r0 + 1]);
            assert forall|k: int| 0 <= k < r0 + 1 implies (#[trigger] syns[k])@ != key by {
                if k > 0 {
                    assert(syns.drop_first()[k - 1] == syns[k]);
                }
            }
        }
    }
}

/// Insert one synonym under a sense: reuse the first synonym row with the
/// same text if one exists, else append a new one, and link the sense to it.
pub open spec fn spec_add_synonym(v: LexiconV, sense_id: usize, syn: String) -> LexiconV {
    let j = spec_synonym_index(v.synonyms, syn@);
    if j != -1 {
        LexiconV {
            sense_synonyms: v.sense_synonyms.push(LinkRow { sense_id, synonym_id: j as usize }),
            ..v
        }
    } else {
        LexiconV {
            synonyms: v.synonyms.push(syn),
            sense_synonyms: v.sense_synonyms.push(
                LinkRow { sense_id, synonym_id: v.synonyms.len() as usize },
            ),
            ..v
        }
    }
}

/// Insert the synonyms of a sense, left to right.
pub open spec fn spec_add_synonyms(v: LexiconV, sense_id: usize, syns: Seq<String>) -> LexiconV
    decreases syns.len(),
{
    if syns.len() == 0 {
        v
    } else {
        spec_add_synonyms(spec_add_synonym(v, sense_id, syns[0]), sense_id, syns.drop_first())
    }
}

/// Insert one retained sense with its tags, examples and synonyms;
/// `relevance` is the sense's position in the source record.
pub open spec fn spec_add_sense(
    v: LexiconV,
    word_id: usize,
    relevance: usize,
    s: RawSense,
) -> LexiconV {
    let sense_id = v.senses.len() as usize;
    let v1 = LexiconV {
        senses: v.senses.push(SenseRow { word_id, gloss: s.gloss, relevance }),
        ..v
    };
    let v2 = LexiconV { sense_tags: v1.sense_tags + tag_rows(sense_id, s.tags@), ..v1 };
    let v3 = LexiconV { examples: v2.examples + example_rows_of(sense_id, s.examples@), ..v2 };
    spec_add_synonyms(v3, sense_id, s.synonyms@)
}

/// Walk the senses of a record, inserting every sense that is not a form-of
/// reference and keeping its original position as `relevance`.
pub open spec fn spec_add_senses(
    v: LexiconV,
    word_id: usize,
    senses: Seq<RawSense>,
    idx: int,
) -> LexiconV
    decreases senses.len(),
{
    if senses.len() == 0 {
        v
    } else {
        let v1 = if sense_is_form_of(senses[0]) {
            v
        } else {
            spec_add_sense(v, word_id, idx as usize, senses[0])
        };
        spec_add_senses(v1, word_id, senses.drop_first(), idx + 1)
    }
}

/// Insert one form entry if it survives the source/tag filter.
pub open spec fn spec_add_form(v: LexiconV, word_id: usize, f: RawForm) -> LexiconV {
    if form_survives(f) {
        let form_id = v.forms.len() as usize;
        LexiconV {
            forms: v.forms.push(FormRow { word_id, form: f.form }),
            form_tags: v.form_tags + tag_rows(form_id, (f.tags->0)@),
            ..v
        }
    } else {
        v
    }
}

/// Walk the form entries of a record.
pub open spec fn spec_add_forms(v: LexiconV, word_id: usize, forms: Seq<RawForm>) -> LexiconV
    decreases forms.len(),
{
    if forms.len() == 0 {
        v
    } else {
        spec_add_forms(spec_add_form(v, word_id, forms[0]), word_id, forms.drop_first())
    }
}

/// Insert one sound entry if it carries an IPA field.
pub open spec fn spec_add_sound(v: LexiconV, word_id: usize, s: RawSound) -> LexiconV {
    if s.ipa is Some {
        let pronunciation_id = v.pronunciations.len() as usize;
        LexiconV {
            pronunciations: v.pronunciations.push(
                PronunciationRow { word_id, ipa: s.ipa->0 },
            ),
            pronunciation_tags: v.pronunciation_tags + tag_rows(pronunciation_id, s.tags@),
            ..v
        }
    } else {
        v
    }
}

/// Walk the sound entries of a record.
pub open spec fn spec_add_sounds(v: LexiconV, word_id: usize, sounds: Seq<RawSound>) -> LexiconV
    decreases sounds.len(),
{
    if sounds.len() == 0 {
        v
    } else {
        spec_add_sounds(spec_add_sound(v, word_id, sounds[0]), word_id, sounds.drop_first())
    }
}

/// Whether the importer stores a record at all: its class must be one of the
/// ten word classes and at least one sense must be an independent meaning.
pub open spec fn record_applies(rec: RawRecord) -> bool {
    word_class_of(rec.pos@) != WordClass::Unknown && !all_senses_form_of(rec.senses@)
}

/// The full effect of one dictionary record on the store.
pub open spec fn spec_insert_record(v: LexiconV, rec: RawRecord) -> LexiconV {
    if !record_applies(rec) {
        v
    } else {
        let word_id = v.words.len() as usize;
        let v1 = LexiconV {
            words: v.words.push(
                WordRow {
                    word: rec.word,
                    pos: word_class_of(rec.pos@),
                    etymology: rec.etymology,
                    expansion: rec.expansion,
                },
            ),
            ..v
        };
        let v2 = spec_add_senses(v1, word_id, rec.senses@, 0);
        let v3 = spec_add_forms(v2, word_id, rec.forms@);
        spec_add_sounds(v3, word_id, rec.sounds@)
    }
}

// ---------------------------------------------------------------------------
// Exact characterizations of the rows a record contributes.
// ---------------------------------------------------------------------------

/// The sense rows a record contributes: one row per sense that is not a
/// form-of reference, carrying the sense's position in the record as
/// `relevance`.
pub open spec fn sense_rows(senses: Seq<RawSense>, word_id: usize, idx: int) -> Seq<SenseRow>
    decreases senses.len(),
{
    if senses.len() == 0 {
        Seq::<SenseRow>::empty()
    } else if sense_is_form_of(senses[0]) {
        sense_rows(senses.drop_first(), word_id, idx + 1)
    } else {
        seq![SenseRow { word_id, gloss: senses[0].gloss, relevance: idx as usize }]
            + sense_rows(senses.drop_first(), word_id, idx + 1)
    }
}

/// The form rows a record contributes: one row per surviving form entry, in
/// order.
pub open spec fn form_rows(forms: Seq<RawForm>, word_id: usize) -> Seq<FormRow>
    decreases forms.len(),
{
    if forms.len() == 0 {
        Seq::<FormRow>::empty()
    } else {
        let rest = form_rows(forms.drop_first(), word_id);
        if form_survives(forms[0]) {
            seq![FormRow { word_id, form: forms[0].form }] + rest
        } else {
            rest
        }
    }
}

/// The pronunciation rows a record contributes: one row per sound entry with
/// an IPA field, in order.
pub open spec fn pronunciation_rows(sounds: Seq<RawSound>, word_id: usize) -> Seq<
    PronunciationRow,
>
    decreases sounds.len(),
{
    if sounds.len() == 0 {
        Seq::<PronunciationRow>::empty()
    } else {
        let rest = pronunciation_rows(sounds.drop_first(), word_id);
        if sounds[0].ipa is Some {
            seq![PronunciationRow { word_id, ipa: sounds[0].ipa->0 }] + rest
        } else {
            rest
        }
    }
}

/// The rows of [`sense_rows`] all belong to the given word, and their
/// `relevance` values are the retained source positions: at least `idx` and
/// strictly increasing.
pub proof fn lemma_sense_rows_props(senses: Seq<RawSense>, word_id: usize, idx: int)
    requires
        0 <= idx,
        idx + senses.len() <= usize::MAX,
    ensures
        sense_rows(senses, word_id, idx).len() <= senses.len(),
        forall|k: int|
            0 <= k < sense_rows(senses, word_id, idx).len() ==> (#[trigger] sense_rows(
                senses,
                word_id,
                idx,
            )[k]).word_id == word_id && idx <= sense_rows(senses, word_id, idx)[k].relevance
                < idx + senses.len(),
        forall|k: int, l: int|
            0 <= k < l < sense_rows(senses, word_id, idx).len() ==> (#[trigger] sense_rows(
                senses,
                word_id,
                idx,
            )[k]).relevance < (#[trigger] sense_rows(senses, word_id, idx)[l]).relevance,
    decreases senses.len(),
{
    if senses.len() == 0 {
    } else {
        lemma_sense_rows_props(senses.drop_first(), word_id, idx + 1);
    }
}

/// Every row of [`form_rows`] belongs to the given word and stems from a
/// surviving form entry.
pub proof fn lemma_form_rows_props(forms: Seq<RawForm>, word_id: usize)
    ensures
        forall|k: int|
            0 <= k < form_rows(forms, word_id).len() ==> (#[trigger] form_rows(forms, word_id)[k]).word_id
                == word_id,
        forall|k: int|
            #![trigger form_rows(forms, word_id)[k]]
            0 <= k < form_rows(forms, word_id).len() ==> exists|j: int|
                0 <= j < forms.len() && form_survives(#[trigger] forms[j]) && form_rows(
                    forms,
                    word_id,
                )[k].form == forms[j].form,
    decreases forms.len(),
{
    if forms.len() == 0 {
    } else {
        lemma_form_rows_props(forms.drop_first(), word_id);
        let rows = form_rows(forms, word_id);
        let rest = form_rows(forms.drop_first(), word_id);
        let base: int = if form_survives(forms[0]) {
            1
        } else {
            0
        };
        if form_survives(forms[0]) {
            assert(rows == seq![FormRow { word_id, form: forms[0].form }] + rest);
            assert(rows[0] == (seq![FormRow { word_id, form: forms[0].form }] + rest)[0]);
        } else {
            assert(rows == rest);
        }
        assert forall|k: int| 0 <= k < rows.len() implies (#[trigger] rows[k]).word_id
            == word_id by {
            if k >= base {
                assert(rows[k] == rest[k - base]);
            }
        }
        assert forall|k: int| #![trigger rows[k]] 0 <= k < rows.len() implies exists|j: int|
            0 <= j < forms.len() && form_survives(#[trigger] forms[j]) && rows[k].form
                == forms[j].form by {
            if k < base {
                assert(form_survives(forms[0]) && rows[k].form == forms[0].form);
            } else {
                assert(rows[k] == rest[k - base]);
                let j0 = choose|j: int|
                    0 <= j < forms.drop_first().len() && form_survives(
                        #[trigger] forms.drop_first()[j],
                    ) && rest[k - base].form == forms.drop_first()[j].form;
                assert(forms.drop_first()[j0] == forms[j0 + 1]);
                assert(form_survives(forms[j0 + 1]) && rows[k].form == forms[j0 + 1].form);
            }
        }
    }
}

/// Every row of [`pronunciation_rows`] belongs to the given word.
pub proof fn lemma_pronunciation_rows_props(sounds: Seq<RawSound>, word_id: usize)
    ensures
        forall|k: int|
            0 <= k < pronunciation_rows(sounds, word_id).len() ==> (#[trigger] pronunciation_rows(
                sounds,
                word_id,
            )[k]).word_id == word_id,
    decreases sounds.len(),
{
    if sounds.len() == 0 {
    } else {
        lemma_pronunciation_rows_props(sounds.drop_first(), word_id);
        let rows = pronunciation_rows(sounds, word_id);
        let rest = pronunciation_rows(sounds.drop_first(), word_id);
        assert forall|k: int| 0 <= k < rows.len() implies (#[trigger] rows[k]).word_id
            == word_id by {
            let base: int = if sounds[0].ipa is Some {
                1
            } else {
                0
            };
            if k >= base {
                assert(rows[k] == rest[k - base]);
            }
        }
    }
}

// ---------------------------------------------------------------------------
// Frame and shape lemmas for the insertion folds.
// ---------------------------------------------------------------------------

/// What one synonym insertion does: every other table is untouched, the
/// synonym table at most gains the new text at its end, one link row is
/// appended for this sense, and distinctness of the synonym texts is kept.
pub proof fn lemma_add_synonym_props(v: LexiconV, sense_id: usize, syn: String)
    requires
        spec_add_synonym(v, sense_id, syn).synonyms.len() <= usize::MAX,
    ensures
        ({
            let r = spec_add_synonym(v, sense_id, syn);
            &&& r.words == v.words
            &&& r.senses == v.senses
            &&& r.examples == v.examples
            &&& r.sense_tags == v.sense_tags
            &&& r.forms == v.forms
            &&& r.form_tags == v.form_tags
            &&& r.pronunciations == v.pronunciations
            &&& r.pronunciation_tags == v.pronunciation_tags
            &&& r.frequency == v.frequency
            &&& r.synonyms == v.synonyms || r.synonyms == v.synonyms.push(syn)
            &&& r.synonyms.len() >= v.synonyms.len()
            &&& forall|i: int| 0 <= i < v.synonyms.len() ==> r.synonyms[i] == v.synonyms[i]
            &&& r.sense_synonyms.len() == v.sense_synonyms.len() + 1
            &&& forall|i: int|
                0 <= i < v.sense_synonyms.len() ==> r.sense_synonyms[i] == v.sense_synonyms[i]
            &&& r.sense_synonyms.last().sense_id == sense_id
            &&& r.sense_synonyms.last().synonym_id < r.synonyms.len()
            &&& (synonyms_distinct(v) ==> synonyms_distinct(r))
        }),
{
    let r = spec_add_synonym(v, sense_id, syn);
    lemma_synonym_index_char(v.synonyms, syn@);
    if spec_synonym_index(v.synonyms, syn@) != -1 {
    } else {
        if synonyms_distinct(v) {
            assert forall|i: int, j: int| 0 <= i < j < r.synonyms.len() implies (
            #[trigger] r.synonyms[i])@ != (#[trigger] r.synonyms[j])@ by {
                if j == v.synonyms.len() {
                    assert(r.synonyms[i] == v.synonyms[i]);
                    assert(r.synonyms[j] == syn);
                }
            }
        }
    }
}

/// What inserting all synonyms of a sense does, accumulated over the fold.
pub proof fn lemma_add_synonyms_props(v: LexiconV, sense_id: usize, syns: Seq<String>)
    requires
        spec_add_synonyms(v, sense_id, syns).synonyms.len() <= usize::MAX,
    ensures
        ({
            let r = spec_add_synonyms(v, sense_id, syns);
            &&& r.words == v.words
            &&& r.senses == v.senses
            &&& r.examples == v.examples
            &&& r.sense_tags == v.sense_tags
            &&& r.forms == v.forms
            &&& r.form_tags == v.form_tags
            &&& r.pronunciations == v.pronunciations
            &&& r.pronunciation_tags == v.pronunciation_tags
            &&& r.frequency == v.frequency
            &&& r.synonyms.len() >= v.synonyms.len()
            &&& forall|i: int| 0 <= i < v.synonyms.len() ==> r.synonyms[i] == v.synonyms[i]
            &&& r.sense_synonyms.len() >= v.sense_synonyms.len()
            &&& forall|i: int|
                0 <= i < v.sense_synonyms.len() ==> r.sense_synonyms[i] == v.sense_synonyms[i]
            &&& forall|k: int|
                v.sense_synonyms.len() <= k < r.sense_synonyms.len() ==> (
                #[trigger] r.sense_synonyms[k]).sense_id == sense_id
                    && r.sense_synonyms[k].synonym_id < r.synonyms.len()
            &&& (synonyms_distinct(v) ==> synonyms_distinct(r))
        }),
    decreases syns.len(),
{
    if syns.len() == 0 {
    } else {
        let v1 = spec_add_synonym(v, sense_id, syns[0]);
        lemma_add_synonyms_props(v1, sense_id, syns.drop_first());
        lemma_add_synonym_props(v, sense_id, syns[0]);
    }
}

/// What inserting one retained sense does: one sense row is appended, its
/// tags and examples are appended with the fresh sense id, and the synonym
/// tables grow as the synonym fold says.
pub proof fn lemma_add_sense_props(v: LexiconV, word_id: usize, relevance: usize, s: RawSense)
    requires
        spec_add_sense(v, word_id, relevance, s).senses.len() <= usize::MAX,
        spec_add_sense(v, word_id, relevance, s).synonyms.len() <= usize::MAX,
    ensures
        ({
            let r = spec_add_sense(v, word_id, relevance, s);
            let sense_id = v.senses.len() as usize;
            &&& r.words == v.words
            &&& r.forms == v.forms
            &&& r.form_tags == v.form_tags
            &&& r.pronunciations == v.pronunciations
            &&& r.pronunciation_tags == v.pronunciation_tags
            &&& r.frequency == v.frequency
            &&& r.senses == v.senses.push(SenseRow { word_id, gloss: s.gloss, relevance })
            &&& r.sense_tags == v.sense_tags + tag_rows(sense_id, s.tags@)
            &&& r.examples == v.examples + example_rows_of(sense_id, s.examples@)
            &&& r.synonyms.len() >= v.synonyms.len()
            &&& forall|i: int| 0 <= i < v.synonyms.len() ==> r.synonyms[i] == v.synonyms[i]
            &&& r.sense_synonyms.len() >= v.sense_synonyms.len()
            &&& forall|i: int|
                0 <= i < v.sense_synonyms.len() ==> r.sense_synonyms[i] == v.sense_synonyms[i]
            &&& forall|k: int|
                v.sense_synonyms.len() <= k < r.sense_synonyms.len() ==> (
                #[trigger] r.sense_synonyms[k]).sense_id == sense_id
                    && r.sense_synonyms[k].synonym_id < r.synonyms.len()
            &&& (synonyms_distinct(v) ==> synonyms_distinct(r))
        }),
{
    let sense_id = v.senses.len() as usize;
    let v1 = LexiconV {
        senses: v.senses.push(SenseRow { word_id, gloss: s.gloss, relevance }),
        ..v
    };
    let v2 = LexiconV { sense_tags: v1.sense_tags + tag_rows(sense_id, s.tags@), ..v1 };
    let v3 = LexiconV { examples: v2.examples + example_rows_of(sense_id, s.examples@), ..v2 };
    lemma_add_synonyms_props(v3, sense_id, s.synonyms@);
}

/// What walking the senses of a record does: exactly [`sense_rows`] is
/// appended to the sense table, child rows always point below the final
/// table lengths, and the untouched tables stay as they were.
pub proof fn lemma_add_senses_props(v: LexiconV, word_id: usize, senses: Seq<RawSense>, idx: int)
    requires
        0 <= idx,
        idx + senses.len() <= usize::MAX,
        spec_add_senses(v, word_id, senses, idx).senses.len() <= usize::MAX,
        spec_add_senses(v, word_id, senses, idx).synonyms.len() <= usize::MAX,
    ensures
        ({
            let r = spec_add_senses(v, word_id, senses, idx);
            &&& r.words == v.words
            &&& r.forms == v.forms
            &&& r.form_tags == v.form_tags
            &&& r.pronunciations == v.pronunciations
            &&& r.pronunciation_tags == v.pronunciation_tags
            &&& r.frequency == v.frequency
            &&& r.senses == v.senses + sense_rows(senses, word_id, idx)
            &&& r.examples.len() >= v.examples.len()
            &&& forall|i: int| 0 <= i < v.examples.len() ==> r.examples[i] == v.examples[i]
            &&& forall|k: int|
                v.examples.len() <= k < r.examples.len() ==> v.senses.len() <= (
                #[trigger] r.examples[k]).sense_id < r.senses.len()
            &&& r.sense_tags.len() >= v.sense_tags.len()
            &&& forall|i: int| 0 <= i < v.sense_tags.len() ==> r.sense_tags[i] == v.sense_tags[i]
            &&& forall|k: int|
                v.sense_tags.len() <= k < r.sense_tags.len() ==> v.senses.len() <= (
                #[trigger] r.sense_tags[k]).owner_id < r.senses.len()
            &&& r.synonyms.len() >= v.synonyms.len()
            &&& forall|i: int| 0 <= i < v.synonyms.len() ==> r.synonyms[i] == v.synonyms[i]
            &&& r.sense_synonyms.len() >= v.sense_synonyms.len()
            &&& forall|i: int|
                0 <= i < v.sense_synonyms.len() ==> r.sense_synonyms[i] == v.sense_synonyms[i]
            &&& forall|k: int|
                v.sense_synonyms.len() <= k < r.sense_synonyms.len() ==> v.senses.len() <= (
                #[trigger] r.sense_synonyms[k]).sense_id < r.senses.len()
                    && r.sense_synonyms[k].synonym_id < r.synonyms.len()
            &&& (synonyms_distinct(v) ==> synonyms_distinct(r))
        }),
    decreases senses.len(),
{
    if senses.len() == 0 {
        assert(v.senses + sense_rows(senses, word_id, idx) =~= v.senses);
    } else {
        let s = senses[0];
        let form_of = sense_is_form_of(s);
        let v1 = if form_of {
            v
        } else {
            spec_add_sense(v, word_id, idx as usize, s)
        };
        lemma_add_senses_props(v1, word_id, senses.drop_first(), idx + 1);
        if !form_of {
            lemma_add_sense_props(v, word_id, idx as usize, s);
        }
        let r = spec_add_senses(v, word_id, senses, idx);
        assert(r == spec_add_senses(v1, word_id, senses.drop_first(), idx + 1));
        assert(r.senses =~= v.senses + sense_rows(senses, word_id, idx));
        assert(v.senses.len() <= v1.senses.len() <= r.senses.len());
        assert forall|i: int| 0 <= i < v.examples.len() implies r.examples[i] == v.examples[i] by {
            assert(v1.examples[i] == v.examples[i]);
        }
        assert forall|k: int|
            v.examples.len() <= k < r.examples.len() implies v.senses.len() <= (
        #[trigger] r.examples[k]).sense_id < r.senses.len() by {
            if k < v1.examples.len() {
                assert(r.examples[k] == v1.examples[k]);
                let m = k - v.examples.len();
                let rows = example_rows_of(v.senses.len() as usize, s.examples@);
                lemma_example_rows_index(v.senses.len() as usize, s.examples@);
                assert((v.examples + rows)[k] == rows[m]);
                assert(v1.examples[k] == rows[m]);
                assert(v1.examples[k].sense_id == v.senses.len());
            } else {
                assert(v1.senses.len() <= r.examples[k].sense_id < r.senses.len());
            }
        }
        assert forall|i: int|
            0 <= i < v.sense_tags.len() implies r.sense_tags[i] == v.sense_tags[i] by {
            assert(v1.sense_tags[i] == v.sense_tags[i]);
        }
        assert forall|k: int|
            v.sense_tags.len() <= k < r.sense_tags.len() implies v.senses.len() <= (
        #[trigger] r.sense_tags[k]).owner_id < r.senses.len() by {
            if k < v1.sense_tags.len() {
                assert(r.sense_tags[k] == v1.sense_tags[k]);
                let m = k - v.sense_tags.len();
                let rows = tag_rows(v.senses.len() as usize, s.tags@);
                lemma_tag_rows_index(v.senses.len() as usize, s.tags@);
                assert((v.sense_tags + rows)[k] == rows[m]);
                assert(v1.sense_tags[k] == rows[m]);
                assert(v1.sense_tags[k].owner_id == v.senses.len());
            } else {
                assert(v1.senses.len() <= r.sense_tags[k].owner_id < r.senses.len());
            }
        }
        assert forall|i: int| 0 <= i < v.synonyms.len() implies r.synonyms[i] == v.synonyms[i] by {
            assert(v1.synonyms[i] == v.synonyms[i]);
        }
        assert forall|i: int|
            0 <= i < v.sense_synonyms.len() implies r.sense_synonyms[i] == v.sense_synonyms[i] by {
            assert(v1.sense_synonyms[i] == v.sense_synonyms[i]);
        }
        assert forall|k: int|
            v.sense_synonyms.len() <= k < r.sense_synonyms.len() implies v.senses.len() <= (
        #[trigger] r.sense_synonyms[k]).sense_id < r.senses.len() && r.sense_synonyms[k].synonym_id
            < r.synonyms.len() by {
            assert(v1.synonyms.len() <= r.synonyms.len());
            if k < v1.sense_synonyms.len() {
                assert(r.sense_synonyms[k] == v1.sense_synonyms[k]);
                assert(v1.sense_synonyms[k].sense_id == v.senses.len());
                assert(v1.sense_synonyms[k].synonym_id < v1.synonyms.len());
            } else {
                assert(v1.senses.len() <= r.sense_synonyms[k].sense_id < r.senses.len());
            }
        }
    }
}

/// What walking the form entries does: exactly [`form_rows`] is appended, and
/// the appended form tags point at rows of the final form table.
pub proof fn lemma_add_forms_props(v: LexiconV, word_id: usize, forms: Seq<RawForm>)
    requires
        spec_add_forms(v, word_id, forms).forms.len() <= usize::MAX,
    ensures
        ({
            let r = spec_add_forms(v, word_id, forms);
            &&& r.words == v.words
            &&& r.senses == v.senses
            &&& r.examples == v.examples
            &&& r.sense_tags == v.sense_tags
            &&& r.synonyms == v.synonyms
            &&& r.sense_synonyms == v.sense_synonyms
            &&& r.pronunciations == v.pronunciations
            &&& r.pronunciation_tags == v.pronunciation_tags
            &&& r.frequency == v.frequency
            &&& r.forms == v.forms + form_rows(forms, word_id)
            &&& r.form_tags.len() >= v.form_tags.len()
            &&& forall|i: int| 0 <= i < v.form_tags.len() ==> r.form_tags[i] == v.form_tags[i]
            &&& forall|k: int|
                v.form_tags.len() <= k < r.form_tags.len() ==> v.forms.len() <= (
                #[trigger] r.form_tags[k]).owner_id < r.forms.len()
        }),
    decreases forms.len(),
{
    if forms.len() == 0 {
        assert(v.forms + form_rows(forms, word_id) =~= v.forms);
    } else {
        let v1 = spec_add_form(v, word_id, forms[0]);
        lemma_add_forms_props(v1, word_id, forms.drop_first());
        let r = spec_add_forms(v, word_id, forms);
        assert(r == spec_add_forms(v1, word_id, forms.drop_first()));
        assert(r.forms =~= v.forms + form_rows(forms, word_id));
        assert(v.forms.len() <= v1.forms.len() <= r.forms.len());
        assert forall|i: int| 0 <= i < v.form_tags.len() implies r.form_tags[i]
            == v.form_tags[i] by {
            assert(v1.form_tags[i] == v.form_tags[i]);
        }
        assert forall|k: int|
            v.form_tags.len() <= k < r.form_tags.len() implies v.forms.len() <= (
        #[trigger] r.form_tags[k]).owner_id < r.forms.len() by {
            if k < v1.form_tags.len() {
                assert(r.form_tags[k] == v1.form_tags[k]);
                let m = k - v.form_tags.len();
                assert(form_survives(forms[0]));
                let rows = tag_rows(v.forms.len() as usize, (forms[0].tags->0)@);
                lemma_tag_rows_index(v.forms.len() as usize, (forms[0].tags->0)@);
                assert((v.form_tags + rows)[k] == rows[m]);
                assert(v1.form_tags[k] == rows[m]);
                assert(v1.form_tags[k].owner_id == v.forms.len());
            } else {
                assert(v1.forms.len() <= r.form_tags[k].owner_id < r.forms.len());
            }
        }
    }
}

/// What walking the sound entries does: exactly [`pronunciation_rows`] is
/// appended, and the appended tags point at rows of the final table.
pub proof fn lemma_add_sounds_props(v: LexiconV, word_id: usize, sounds: Seq<RawSound>)
    requires
        spec_add_sounds(v, word_id, sounds).pronunciations.len() <= usize::MAX,
    ensures
        ({
            let r = spec_add_sounds(v, word_id, sounds);
            &&& r.words == v.words
            &&& r.senses == v.senses
            &&& r.examples == v.examples
            &&& r.sense_tags == v.sense_tags
            &&& r.synonyms == v.synonyms
            &&& r.sense_synonyms == v.sense_synonyms
            &&& r.forms == v.forms
            &&& r.form_tags == v.form_tags
            &&& r.frequency == v.frequency
            &&& r.pronunciations == v.pronunciations + pronunciation_rows(sounds, word_id)
            &&& r.pronunciation_tags.len() >= v.pronunciation_tags.len()
            &&& forall|i: int|
                0 <= i < v.pronunciation_tags.len() ==> r.pronunciation_tags[i]
                    == v.pronunciation_tags[i]
            &&& forall|k: int|
                v.pronunciation_tags.len() <= k < r.pronunciation_tags.len()
                    ==> v.pronunciations.len() <= (#[trigger] r.pronunciation_tags[k]).owner_id
                    < r.pronunciations.len()
        }),
    decreases sounds.len(),
{
    if sounds.len() == 0 {
        assert(v.pronunciations + pronunciation_rows(sounds, word_id) =~= v.pronunciations);
    } else {
        let v1 = spec_add_sound(v, word_id, sounds[0]);
        lemma_add_sounds_props(v1, word_id, sounds.drop_first());
        let r = spec_add_sounds(v, word_id, sounds);
        assert(r == spec_add_sounds(v1, word_id, sounds.drop_first()));
        assert(r.pronunciations =~= v.pronunciations + pronunciation_rows(sounds, word_id));
        assert(v.pronunciations.len() <= v1.pronunciations.len() <= r.pronunciations.len());
        assert forall|i: int|
            0 <= i < v.pronunciation_tags.len() implies r.pronunciation_tags[i]
            == v.pronunciation_tags[i] by {
            assert(v1.pronunciation_tags[i] == v.pronunciation_tags[i]);
        }
        assert forall|k: int|
            v.pronunciation_tags.len() <= k < r.pronunciation_tags.len()
            implies v.pronunciations.len() <= (#[trigger] r.pronunciation_tags[k]).owner_id
            < r.pronunciations.len() by {
            if k < v1.pronunciation_tags.len() {
                assert(r.pronunciation_tags[k] == v1.pronunciation_tags[k]);
                let m = k - v.pronunciation_tags.len();
                assert(sounds[0].ipa is Some);
                let rows = tag_rows(v.pronunciations.len() as usize, sounds[0].tags@);
                lemma_tag_rows_index(v.pronunciations.len() as usize, sounds[0].tags@);
                assert((v.pronunciation_tags + rows)[k] == rows[m]);
                assert(v1.pronunciation_tags[k] == rows[m]);
                assert(v1.pronunciation_tags[k].owner_id == v.pronunciations.len());
            } else {
                assert(v1.pronunciations.len() <= r.pronunciation_tags[k].owner_id
                    < r.pronunciations.len());
            }
        }
    }
}

/// What one record does to the store, and that it keeps the store well
/// formed.  An inapplicable record leaves the store untouched; an applicable
/// one appends one word row and exactly the record's sense, form and
/// pronunciation rows, and never touches the frequency table.
pub proof fn lemma_insert_record_props(v: LexiconV, rec: RawRecord)
    requires
        rec.senses@.len() <= usize::MAX,
        spec_insert_record(v, rec).words.len() <= usize::MAX,
        spec_insert_record(v, rec).senses.len() <= usize::MAX,
        spec_insert_record(v, rec).synonyms.len() <= usize::MAX,
        spec_insert_record(v, rec).forms.len() <= usize::MAX,
        spec_insert_record(v, rec).pronunciations.len() <= usize::MAX,
    ensures
        ({
            let r = spec_insert_record(v, rec);
            let word_id = v.words.len() as usize;
            &&& (!record_applies(rec) ==> r == v)
            &&& (record_applies(rec) ==> {
                &&& r.words == v.words.push(
                    WordRow {
                        word: rec.word,
                        pos: word_class_of(rec.pos@),
                        etymology: rec.etymology,
                        expansion: rec.expansion,
                    },
                )
                &&& r.senses == v.senses + sense_rows(rec.senses@, word_id, 0)
                &&& r.forms == v.forms + form_rows(rec.forms@, word_id)
                &&& r.pronunciations == v.pronunciations + pronunciation_rows(
                    rec.sounds@,
                    word_id,
                )
                &&& r.frequency == v.frequency
            })
            &&& (v.wf() ==> r.wf())
        }),
{
    let r = spec_insert_record(v, rec);
    if record_applies(rec) {
        let word_id = v.words.len() as usize;
        let v1 = LexiconV {
            words: v.words.push(
                WordRow {
                    word: rec.word,
                    pos: word_class_of(rec.pos@),
                    etymology: rec.etymology,
                    expansion: rec.expansion,
                },
            ),
            ..v
        };
        let v2 = spec_add_senses(v1, word_id, rec.senses@, 0);
        let v3 = spec_add_forms(v2, word_id, rec.forms@);
        lemma_add_sounds_props(v3, word_id, rec.sounds@);
        lemma_add_forms_props(v2, word_id, rec.forms@);
        lemma_add_senses_props(v1, word_id, rec.senses@, 0);
        lemma_sense_rows_props(rec.senses@, word_id, 0);
        lemma_form_rows_props(rec.forms@, word_id);
        lemma_pronunciation_rows_props(rec.sounds@, word_id);
        if v.wf() {
            let new_senses = sense_rows(rec.senses@, word_id, 0);
            assert forall|i: int, j: int|
                0 <= i < j < r.senses.len() && (#[trigger] r.senses[i]).word_id == (
                #[trigger] r.senses[j]).word_id implies r.senses[i].relevance
                < r.senses[j].relevance by {
                if j >= v.senses.len() && i < v.senses.len() {
                    assert(r.senses[j] == new_senses[j - v.senses.len()]);
                    assert(r.senses[j].word_id == word_id);
                    assert(r.senses[i].word_id < v.words.len());
                } else if i >= v.senses.len() {
                    assert(r.senses[i] == new_senses[i - v.senses.len()]);
                    assert(r.senses[j] == new_senses[j - v.senses.len()]);
                }
            }
            assert(r.wf());
        }
    } else {
        assert(r == v);
    }
}

/// Whether word `w` already has a row in the frequency table.
pub open spec fn has_frequency(v: LexiconV, w: int) -> bool {
    exists|j: int| 0 <= j < v.frequency.len() && (#[trigger] v.frequency[j]).word_id as int == w
}

/// The corpus rank recorded for word `w` (the first matching row's).
pub open spec fn frequency_rank_of(v: LexiconV, w: int) -> usize {
    v.frequency[choose|j: int|
        0 <= j < v.frequency.len() && (#[trigger] v.frequency[j]).word_id as int == w].rank
}

/// The effect of indexing one corpus token with rank `rank`: every word row
/// whose surface form equals the token and that has no frequency row yet
/// gains one, walked in id order from position `w`.
pub open spec fn spec_index_token_from(v: LexiconV, tok: Seq<char>, rank: usize, w: int) -> LexiconV
    decreases v.words.len() - w,
{
    if w < 0 || w >= v.words.len() {
        v
    } else {
        let v1 = if v.words[w].word@ == tok && !has_frequency(v, w) {
            LexiconV { frequency: v.frequency.push(FrequencyRow { word_id: w as usize, rank }), ..v }
        } else {
            v
        };
        spec_index_token_from(v1, tok, rank, w + 1)
    }
}

/// The effect of a whole token stream: token `i` carries rank `rank + i`.
pub open spec fn spec_index_tokens_from(v: LexiconV, toks: Seq<String>, rank: int) -> LexiconV
    decreases toks.len(),
{
    if toks.len() == 0 {
        v
    } else {
        spec_index_tokens_from(
            spec_index_token_from(v, toks[0]@, rank as usize, 0),
            toks.drop_first(),
            rank + 1,
        )
    }
}

/// The synonym fold never touches the word table.
proof fn lemma_add_synonyms_words(v: LexiconV, sense_id: usize, syns: Seq<String>)
    ensures
        spec_add_synonyms(v, sense_id, syns).words == v.words,
    decreases syns.len(),
{
    if syns.len() > 0 {
        lemma_add_synonyms_words(spec_add_synonym(v, sense_id, syns[0]), sense_id, syns.drop_first());
    }
}

/// The sense fold never touches the word table.
proof fn lemma_add_senses_words(v: LexiconV, word_id: usize, senses: Seq<RawSense>, idx: int)
    ensures
        spec_add_senses(v, word_id, senses, idx).words == v.words,
    decreases senses.len(),
{
    if senses.len() > 0 {
        let v1 = if sense_is_form_of(senses[0]) {
            v
        } else {
            spec_add_sense(v, word_id, idx as usize, senses[0])
        };
        if !sense_is_form_of(senses[0]) {
            let sense_id = v.senses.len() as usize;
            let v1a = LexiconV {
                senses: v.senses.push(
                    SenseRow { word_id, gloss: senses[0].gloss, relevance: idx as usize },
                ),
                ..v
            };
            let v2a = LexiconV {
                sense_tags: v1a.sense_tags + tag_rows(sense_id, senses[0].tags@),
                ..v1a
            };
            let v3a = LexiconV {
                examples: v2a.examples + example_rows_of(sense_id, senses[0].examples@),
                ..v2a
            };
            lemma_add_synonyms_words(v3a, sense_id, senses[0].synonyms@);
        }
        lemma_add_senses_words(v1, word_id, senses.drop_first(), idx + 1);
    }
}

/// The form fold never touches the word table.
proof fn lemma_add_forms_words(v: LexiconV, word_id: usize, forms: Seq<RawForm>)
    ensures
        spec_add_forms(v, word_id, forms).words == v.words,
    decreases forms.len(),
{
    if forms.len() > 0 {
        lemma_add_forms_words(spec_add_form(v, word_id, forms[0]), word_id, forms.drop_first());
    }
}

/// The sound fold never touches the word table.
proof fn lemma_add_sounds_words(v: LexiconV, word_id: usize, sounds: Seq<RawSound>)
    ensures
        spec_add_sounds(v, word_id, sounds).words == v.words,
    decreases sounds.len(),
{
    if sounds.len() > 0 {
        lemma_add_sounds_words(spec_add_sound(v, word_id, sounds[0]), word_id, sounds.drop_first());
    }
}

/// One record's effect on the word table alone, with no side conditions: an
/// applicable record appends exactly its word row; any other record leaves
/// the table as it was.
pub proof fn lemma_insert_record_words(v: LexiconV, rec: RawRecord)
    ensures
        record_applies(rec) ==> spec_insert_record(v, rec).words == v.words.push(
            WordRow {
                word: rec.word,
                pos: word_class_of(rec.pos@),
                etymology: rec.etymology,
                expansion: rec.expansion,
            },
        ),
        !record_applies(rec) ==> spec_insert_record(v, rec).words == v.words,
{
    if record_applies(rec) {
        let word_id = v.words.len() as usize;
        let v1 = LexiconV {
            words: v.words.push(
                WordRow {
                    word: rec.word,
                    pos: word_class_of(rec.pos@),
                    etymology: rec.etymology,
                    expansion: rec.expansion,
                },
            ),
            ..v
        };
        let v2 = spec_add_senses(v1, word_id, rec.senses@, 0);
        let v3 = spec_add_forms(v2, word_id, rec.forms@);
        lemma_add_senses_words(v1, word_id, rec.senses@, 0);
        lemma_add_forms_words(v2, word_id, rec.forms@);
        lemma_add_sounds_words(v3, word_id, rec.sounds@);
    }
}

/// Appending one tag extends [`tag_rows`] of a prefix by one row.
proof fn lemma_tag_rows_take_step(owner_id: usize, tags: Seq<String>, i: int)
    requires
        0 <= i < tags.len(),
    ensures
        tag_rows(owner_id, tags.take(i + 1)) == tag_rows(owner_id, tags.take(i)).push(
            TagRow { owner_id, tag: tags[i] },
        ),
{
    lemma_tag_rows_index(owner_id, tags.take(i + 1));
    lemma_tag_rows_index(owner_id, tags.take(i));
    assert(tag_rows(owner_id, tags.take(i + 1)) =~= tag_rows(owner_id, tags.take(i)).push(
        TagRow { owner_id, tag: tags[i] },
    ));
}

/// Appending one example extends [`example_rows_of`] of a prefix by one row.
proof fn lemma_example_rows_take_step(sense_id: usize, examples: Seq<RawExample>, i: int)
    requires
        0 <= i < examples.len(),
    ensures
        example_rows_of(sense_id, examples.take(i + 1)) == example_rows_of(
            sense_id,
            examples.take(i),
        ).push(ExampleRow { sense_id, text: examples[i].text, english: examples[i].english }),
{
    lemma_example_rows_index(sense_id, examples.take(i + 1));
    lemma_example_rows_index(sense_id, examples.take(i));
    assert(example_rows_of(sense_id, examples.take(i + 1)) =~= example_rows_of(
        sense_id,
        examples.take(i),
    ).push(ExampleRow { sense_id, text: examples[i].text, english: examples[i].english }));
}

/// Clone an optional string.
pub(crate) fn clone_opt(o: &Option<String>) -> (r: Option<String>)
    ensures
        r == *o,
{
    match o {
        Some(s) => Some(s.clone()),
        None => None,
    }
}

impl Lexicon {
    /// An empty store: the state after the schema is (re)built and before any
    /// record is inserted.
    pub fn new() -> (r: Lexicon)
        ensures
            r@.words.len() == 0,
            r@.senses.len() == 0,
            r@.examples.len() == 0,
            r@.sense_tags.len() == 0,
            r@.synonyms.len() == 0,
            r@.sense_synonyms.len() == 0,
            r@.forms.len() == 0,
            r@.form_tags.len() == 0,
            r@.pronunciations.len() == 0,
            r@.pronunciation_tags.len() == 0,
            r@.frequency.len() == 0,
            r@.wf(),
    {
        Lexicon {
            words: Vec::new(),
            senses: Vec::new(),
            examples: Vec::new(),
            sense_tags: Vec::new(),
            synonyms: Vec::new(),
            sense_synonyms: Vec::new(),
            forms: Vec::new(),
            form_tags: Vec::new(),
            pronunciations: Vec::new(),
            pronunciation_tags: Vec::new(),
            frequency: Vec::new(),
        }
    }

    /// Insert one synonym under a sense, reusing the first row with the same
    /// text.
    fn add_synonym(&mut self, sense_id: usize, syn: &String)
        ensures
            final(self)@ == spec_add_synonym(old(self)@, sense_id, *syn),
    {
        let n = self.synonyms.len();
        let mut j: usize = 0;
        while j < n
            invariant
                *self == *old(self),
                n == self.synonyms@.len(),
                j <= n,
                forall|k: int| 0 <= k < j ==> (#[trigger] self.synonyms@[k])@ != syn@,
            decreases n - j,
        {
            if self.synonyms[j] == *syn {
                self.sense_synonyms.push(LinkRow { sense_id, synonym_id: j });
                proof {
                    lemma_synonym_index_char(old(self)@.synonyms, syn@);
                    assert(spec_synonym_index(old(self)@.synonyms, syn@) == j as int);
                    assert(self@ =~= spec_add_synonym(old(self)@, sense_id, *syn));
                }
                return;
            }
            j = j + 1;
        }
        let id = self.synonyms.len();
        self.synonyms.push(syn.clone());
        self.sense_synonyms.push(LinkRow { sense_id, synonym_id: id });
        proof {
            lemma_synonym_index_char(old(self)@.synonyms, syn@);
            assert(spec_synonym_index(old(self)@.synonyms, syn@) == -1);
            assert(self@ =~= spec_add_synonym(old(self)@, sense_id, *syn));
        }
    }

    /// Insert one retained sense with its tags, examples and synonyms.
    fn add_sense(&mut self, word_id: usize, relevance: usize, s: &RawSense)
        ensures
            final(self)@ == spec_add_sense(old(self)@, word_id, relevance, *s),
    {
        let sense_id = self.senses.len();
        self.senses.push(SenseRow { word_id, gloss: clone_opt(&s.gloss), relevance });
        let ghost v1 = self@;

        let mut i: usize = 0;
        proof {
            assert(s.tags@.take(0) =~= Seq::<String>::empty());
            assert(v1.sense_tags + tag_rows(sense_id, s.tags@.take(0)) =~= v1.sense_tags);
        }
        while i < s.tags.len()
            invariant
                i <= s.tags@.len(),
                self@ == (LexiconV {
                    sense_tags: v1.sense_tags + tag_rows(sense_id, s.tags@.take(i as int)),
                    ..v1
                }),
            decreases s.tags@.len() - i,
        {
            self.sense_tags.push(TagRow { owner_id: sense_id, tag: s.tags[i].clone() });
            proof {
                lemma_tag_rows_take_step(sense_id, s.tags@, i as int);
                assert(self@ =~= (LexiconV {
                    sense_tags: v1.sense_tags + tag_rows(sense_id, s.tags@.take(i + 1)),
                    ..v1
                }));
            }
            i = i + 1;
        }
        proof {
            assert(s.tags@.take(s.tags@.len() as int) =~= s.tags@);
        }
        let ghost v2 = self@;

        let mut i: usize = 0;
        proof {
            assert(s.examples@.take(0) =~= Seq::<RawExample>::empty());
            assert(v2.examples + example_rows_of(sense_id, s.examples@.take(0)) =~= v2.examples);
        }
        while i < s.examples.len()
            invariant
                i <= s.examples@.len(),
                self@ == (LexiconV {
                    examples: v2.examples + example_rows_of(sense_id, s.examples@.take(i as int)),
                    ..v2
                }),
            decreases s.examples@.len() - i,
        {
            self.examples.push(
                ExampleRow {
                    sense_id,
                    text: s.examples[i].text.clone(),
                    english: clone_opt(&s.examples[i].english),
                },
            );
            proof {
                lemma_example_rows_take_step(sense_id, s.examples@, i as int);
                assert(self@ =~= (LexiconV {
                    examples: v2.examples + example_rows_of(sense_id, s.examples@.take(i + 1)),
                    ..v2
                }));
            }
            i = i + 1;
        }
        proof {
            assert(s.examples@.take(s.examples@.len() as int) =~= s.examples@);
        }
        let ghost v3 = self@;

        let mut i: usize = 0;
        proof {
            assert(s.synonyms@.skip(0) =~= s.synonyms@);
        }
        while i < s.synonyms.len()
            invariant
                i <= s.synonyms@.len(),
                spec_add_synonyms(self@, sense_id, s.synonyms@.skip(i as int))
                    == spec_add_synonyms(v3, sense_id, s.synonyms@),
            decreases s.synonyms@.len() - i,
        {
            let ghost pre = self@;
            self.add_synonym(sense_id, &s.synonyms[i]);
            proof {
                assert(s.synonyms@.skip(i as int).drop_first() =~= s.synonyms@.skip(i + 1));
                assert(s.synonyms@.skip(i as int)[0] == s.synonyms@[i as int]);
                assert(spec_add_synonyms(pre, sense_id, s.synonyms@.skip(i as int))
                    == spec_add_synonyms(self@, sense_id, s.synonyms@.skip(i + 1)));
            }
            i = i + 1;
        }
        proof {
            assert(s.synonyms@.skip(s.synonyms@.len() as int) =~= Seq::<String>::empty());
            assert(v3 =~= (LexiconV {
                examples: v2.examples + example_rows_of(sense_id, s.examples@),
                ..v2
            }));
            assert(self@ =~= spec_add_sense(old(self)@, word_id, relevance, *s));
        }
    }

    /// Walk the senses of a record, inserting every independent meaning with
    /// its source position as `relevance`.
    fn add_senses(&mut self, word_id: usize, senses: &Vec<RawSense>)
        ensures
            final(self)@ == spec_add_senses(old(self)@, word_id, senses@, 0),
    {
        let ghost orig = self@;
        proof {
            assert(senses@.skip(0) =~= senses@);
        }
        let mut i: usize = 0;
        while i < senses.len()
            invariant
                i <= senses@.len(),
                spec_add_senses(self@, word_id, senses@.skip(i as int), i as int)
                    == spec_add_senses(orig, word_id, senses@, 0),
            decreases senses@.len() - i,
        {
            let ghost pre = self@;
            if !sense_form_of(&senses[i]) {
                self.add_sense(word_id, i, &senses[i]);
            }
            proof {
                assert(senses@.skip(i as int).drop_first() =~= senses@.skip(i + 1));
                assert(senses@.skip(i as int)[0] == senses@[i as int]);
                assert(spec_add_senses(pre, word_id, senses@.skip(i as int), i as int)
                    == spec_add_senses(self@, word_id, senses@.skip(i + 1), i + 1));
            }
            i = i + 1;
        }
        proof {
            assert(senses@.skip(senses@.len() as int) =~= Seq::<RawSense>::empty());
        }
    }

    /// Walk the form entries of a record, inserting the surviving ones with
    /// their tags.
    fn add_forms(&mut self, word_id: usize, forms: &Vec<RawForm>)
        ensures
            final(self)@ == spec_add_forms(old(self)@, word_id, forms@),
    {
        let ghost orig = self@;
        proof {
            assert(forms@.skip(0) =~= forms@);
        }
        let mut i: usize = 0;
        while i < forms.len()
            invariant
                i <= forms@.len(),
                spec_add_forms(self@, word_id, forms@.skip(i as int)) == spec_add_forms(
                    orig,
                    word_id,
                    forms@,
                ),
            decreases forms@.len() - i,
        {
            let ghost pre = self@;
            if form_survives_exec(&forms[i]) {
                let form_id = self.forms.len();
                self.forms.push(FormRow { word_id, form: forms[i].form.clone() });
                let ghost mid = self@;
                let tags = forms[i].tags.as_ref().unwrap();
                let mut k: usize = 0;
                proof {
                    assert(tags@.take(0) =~= Seq::<String>::empty());
                    assert(mid.form_tags + tag_rows(form_id, tags@.take(0)) =~= mid.form_tags);
                }
                while k < tags.len()
                    invariant
                        k <= tags@.len(),
                        tags == &(forms@[i as int].tags->0),
                        self@ == (LexiconV {
                            form_tags: mid.form_tags + tag_rows(form_id, tags@.take(k as int)),
                            ..mid
                        }),
                    decreases tags@.len() - k,
                {
                    self.form_tags.push(TagRow { owner_id: form_id, tag: tags[k].clone() });
                    proof {
                        lemma_tag_rows_take_step(form_id, tags@, k as int);
                        assert(self@ =~= (LexiconV {
                            form_tags: mid.form_tags + tag_rows(form_id, tags@.take(k + 1)),
                            ..mid
                        }));
                    }
                    k = k + 1;
                }
                proof {
                    assert(tags@.take(tags@.len() as int) =~= tags@);
                    assert(self@ =~= spec_add_form(pre, word_id, forms@[i as int]));
                }
            }
            proof {
                assert(forms@.skip(i as int).drop_first() =~= forms@.skip(i + 1));
                assert(forms@.skip(i as int)[0] == forms@[i as int]);
                assert(spec_add_forms(pre, word_id, forms@.skip(i as int)) == spec_add_forms(
                    self@,
                    word_id,
                    forms@.skip(i + 1),
                ));
            }
            i = i + 1;
        }
        proof {
            assert(forms@.skip(forms@.len() as int) =~= Seq::<RawForm>::empty());
        }
    }

    /// Walk the sound entries of a record, inserting the ones that carry an
    /// IPA field, with their tags.
    fn add_sounds(&mut self, word_id: usize, sounds: &Vec<RawSound>)
        ensures
            final(self)@ == spec_add_sounds(old(self)@, word_id, sounds@),
    {
        let ghost orig = self@;
        proof {
            assert(sounds@.skip(0) =~= sounds@);
        }
        let mut i: usize = 0;
        while i < sounds.len()
            invariant
                i <= sounds@.len(),
                spec_add_sounds(self@, word_id, sounds@.skip(i as int)) == spec_add_sounds(
                    orig,
                    word_id,
                    sounds@,
                ),
            decreases sounds@.len() - i,
        {
            let ghost pre = self@;
            if sounds[i].ipa.is_some() {
                let pronunciation_id = self.pronunciations.len();
                let ipa = sounds[i].ipa.as_ref().unwrap();
                self.pronunciations.push(PronunciationRow { word_id, ipa: ipa.clone() });
                let ghost mid = self@;
                let tags = &sounds[i].tags;
                let mut k: usize = 0;
                proof {
                    assert(tags@.take(0) =~= Seq::<String>::empty());
                    assert(mid.pronunciation_tags + tag_rows(pronunciation_id, tags@.take(0))
                        =~= mid.pronunciation_tags);
                }
                while k < tags.len()
                    invariant
                        k <= tags@.len(),
                        tags == &(sounds@[i as int].tags),
                        self@ == (LexiconV {
                            pronunciation_tags: mid.pronunciation_tags + tag_rows(
                                pronunciation_id,
                                tags@.take(k as int),
                            ),
                            ..mid
                        }),
                    decreases tags@.len() - k,
                {
                    self.pronunciation_tags.push(
                        TagRow { owner_id: pronunciation_id, tag: tags[k].clone() },
                    );
                    proof {
                        lemma_tag_rows_take_step(pronunciation_id, tags@, k as int);
                        assert(self@ =~= (LexiconV {
                            pronunciation_tags: mid.pronunciation_tags + tag_rows(
                                pronunciation_id,
                                tags@.take(k + 1),
                            ),
                            ..mid
                        }));
                    }
                    k = k + 1;
                }
                proof {
                    assert(tags@.take(tags@.len() as int) =~= tags@);
                    assert(self@ =~= spec_add_sound(pre, word_id, sounds@[i as int]));
                }
            }
            proof {
                assert(sounds@.skip(i as int).drop_first() =~= sounds@.skip(i + 1));
                assert(sounds@.skip(i as int)[0] == sounds@[i as int]);
                assert(spec_add_sounds(pre, word_id, sounds@.skip(i as int)) == spec_add_sounds(
                    self@,
                    word_id,
                    sounds@.skip(i + 1),
                ));
            }
            i = i + 1;
        }
        proof {
            assert(sounds@.skip(sounds@.len() as int) =~= Seq::<RawSound>::empty());
        }
    }

    /// The corpus rank stored for word `w`.
    pub(crate) fn frequency_rank(&self, w: usize) -> (r: usize)
        requires
            self@.wf(),
            has_frequency(self@, w as int),
        ensures
            r == frequency_rank_of(self@, w as int),
    {
        let mut j: usize = 0;
        while j < self.frequency.len()
            invariant
                self@.wf(),
                has_frequency(self@, w as int),
                j <= self@.frequency.len(),
                forall|k: int| 0 <= k < j ==> (#[trigger] self@.frequency[k]).word_id != w,
            decreases self@.frequency.len() - j,
        {
            if self.frequency[j].word_id == w {
                proof {
                    let c = choose|t: int|
                        0 <= t < self@.frequency.len() && (#[trigger] self@.frequency[t]).word_id
                            as int == w as int;
                    assert(c == j as int);
                }
                return self.frequency[j].rank;
            }
            j = j + 1;
        }
        proof {
            let c = choose|t: int|
                0 <= t < self@.frequency.len() && (#[trigger] self@.frequency[t]).word_id as int
                    == w as int;
            assert(false);
        }
        0
    }

    /// Decide [`LexiconV::wf`] at run time, so state produced outside the
    /// library — say, reloaded from disk — can be validated before any
    /// operation that requires it.
    pub fn check_wf(&self) -> (r: bool)
        ensures
            r == self@.wf(),
    {
        let n_words = self.words.len();
        let n_senses = self.senses.len();
        let n_forms = self.forms.len();
        let n_prons = self.pronunciations.len();
        let n_syns = self.synonyms.len();

        let mut i: usize = 0;
        while i < self.senses.len()
            invariant
                n_words == self@.words.len(),
                i <= self@.senses.len(),
                forall|k: int|
                    0 <= k < i ==> (#[trigger] self@.senses[k]).word_id < self@.words.len(),
            decreases self@.senses.len() - i,
        {
            if self.senses[i].word_id >= n_words {
                return false;
            }
            i = i + 1;
        }
        let mut i: usize = 0;
        while i < self.examples.len()
            invariant
                n_senses == self@.senses.len(),
                i <= self@.examples.len(),
                forall|k: int|
                    0 <= k < i ==> (#[trigger] self@.examples[k]).sense_id < self@.senses.len(),
            decreases self@.examples.len() - i,
        {
            if self.examples[i].sense_id >= n_senses {
                return false;
            }
            i = i + 1;
        }
        let mut i: usize = 0;
        while i < self.sense_tags.len()
            invariant
                n_senses == self@.senses.len(),
                i <= self@.sense_tags.len(),
                forall|k: int|
                    0 <= k < i ==> (#[trigger] self@.sense_tags[k]).owner_id < self@.senses.len(),
            decreases self@.sense_tags.len() - i,
        {
            if self.sense_tags[i].owner_id >= n_senses {
                return false;
            }
            i = i + 1;
        }
        let mut i: usize = 0;
        while i < self.sense_synonyms.len()
            invariant
                n_senses == self@.senses.len(),
                n_syns == self@.synonyms.len(),
                i <= self@.sense_synonyms.len(),
                forall|k: int|
                    0 <= k < i ==> (#[trigger] self@.sense_synonyms[k]).sense_id
                        < self@.senses.len() && self@.sense_synonyms[k].synonym_id
                        < self@.synonyms.len(),
            decreases self@.sense_synonyms.len() - i,
        {
            if self.sense_synonyms[i].sense_id >= n_senses || self.sense_synonyms[i].synonym_id
                >= n_syns {
                return false;
            }
            i = i + 1;
        }
        let mut i: usize = 0;
        while i < self.forms.len()
            invariant
                n_words == self@.words.len(),
                i <= self@.forms.len(),
                forall|k: int|
                    0 <= k < i ==> (#[trigger] self@.forms[k]).word_id < self@.words.len(),
            decreases self@.forms.len() - i,
        {
            if self.forms[i].word_id >= n_words {
                return false;
            }
            i = i + 1;
        }
        let mut i: usize = 0;
        while i < self.form_tags.len()
            invariant
                n_forms == self@.forms.len(),
                i <= self@.form_tags.len(),
                forall|k: int|
                    0 <= k < i ==> (#[trigger] self@.form_tags[k]).owner_id < self@.forms.len(),
            decreases self@.form_tags.len() - i,
        {
            if self.form_tags[i].owner_id >= n_forms {
                return false;
            }
            i = i + 1;
        }
        let mut i: usize = 0;
        while i < self.pronunciations.len()
            invariant
                n_words == self@.words.len(),
                i <= self@.pronunciations.len(),
                forall|k: int|
                    0 <= k < i ==> (#[trigger] self@.pronunciations[k]).word_id
                        < self@.words.len(),
            decreases self@.pronunciations.len() - i,
        {
            if self.pronunciations[i].word_id >= n_words {
                return false;
            }
            i = i + 1;
        }
        let mut i: usize = 0;
        while i < self.pronunciation_tags.len()
            invariant
                n_prons == self@.pronunciations.len(),
                i <= self@.pronunciation_tags.len(),
                forall|k: int|
                    0 <= k < i ==> (#[trigger] self@.pronunciation_tags[k]).owner_id
                        < self@.pronunciations.len(),
            decreases self@.pronunciation_tags.len() - i,
        {
            if self.pronunciation_tags[i].owner_id >= n_prons {
                return false;
            }
            i = i + 1;
        }
        let mut i: usize = 0;
        while i < self.frequency.len()
            invariant
                n_words == self@.words.len(),
                i <= self@.frequency.len(),
                forall|k: int|
                    0 <= k < i ==> (#[trigger] self@.frequency[k]).word_id < self@.words.len(),
                forall|a: int, b: int|
                    0 <= a < b < i ==> (#[trigger] self@.frequency[a]).word_id != (
                    #[trigger] self@.frequency[b]).word_id,
            decreases self@.frequency.len() - i,
        {
            if self.frequency[i].word_id >= n_words {
                return false;
            }
            let mut j: usize = 0;
            while j < i
                invariant
                    j <= i < self@.frequency.len(),
                    forall|a: int|
                        0 <= a < j ==> (#[trigger] self@.frequency[a]).word_id
                            != self@.frequency[i as int].word_id,
                decreases i - j,
            {
                if self.frequency[j].word_id == self.frequency[i].word_id {
                    return false;
                }
                j = j + 1;
            }
            i = i + 1;
        }
        let mut i: usize = 0;
        while i < self.synonyms.len()
            invariant
                i <= self@.synonyms.len(),
                forall|a: int, b: int|
                    0 <= a < b < i ==> (#[trigger] self@.synonyms[a])@ != (
                    #[trigger] self@.synonyms[b])@,
            decreases self@.synonyms.len() - i,
        {
            let mut j: usize = 0;
            while j < i
                invariant
                    j <= i < self@.synonyms.len(),
                    forall|a: int|
                        0 <= a < j ==> (#[trigger] self@.synonyms[a])@
                            != self@.synonyms[i as int]@,
                decreases i - j,
            {
                if self.synonyms[j] == self.synonyms[i] {
                    return false;
                }
                j = j + 1;
            }
            i = i + 1;
        }
        let mut i: usize = 0;
        while i < self.senses.len()
            invariant
                i <= self@.senses.len(),
                forall|a: int, b: int|
                    0 <= a < b < i && (#[trigger] self@.senses[a]).word_id == (
                    #[trigger] self@.senses[b]).word_id ==> self@.senses[a].relevance
                        < self@.senses[b].relevance,
            decreases self@.senses.len() - i,
        {
            let mut j: usize = 0;
            while j < i
                invariant
                    j <= i < self@.senses.len(),
                    forall|a: int|
                        0 <= a < j && (#[trigger] self@.senses[a]).word_id
                            == self@.senses[i as int].word_id ==> self@.senses[a].relevance
                            < self@.senses[i as int].relevance,
                decreases i - j,
            {
                if self.senses[j].word_id == self.senses[i].word_id && self.senses[j].relevance
                    >= self.senses[i].relevance {
                    return false;
                }
                j = j + 1;
            }
            i = i + 1;
        }
        true
    }

    /// Whether word `w` already has a frequency row.
    pub(crate) fn has_frequency_row(&self, w: usize) -> (r: bool)
        ensures
            r == has_frequency(self@, w as int),
    {
        let mut j: usize = 0;
        while j < self.frequency.len()
            invariant
                j <= self@.frequency.len(),
                forall|k: int| 0 <= k < j ==> (#[trigger] self@.frequency[k]).word_id != w,
            decreases self@.frequency.len() - j,
        {
            if self.frequency[j].word_id == w {
                return true;
            }
            j = j + 1;
        }
        false
    }

    /// Index one corpus token: every word row with this surface form and no
    /// frequency row yet gains one with the token's rank.
    fn index_token(&mut self, tok: &String, rank: usize)
        requires
            old(self)@.wf(),
        ensures
            final(self)@ == spec_index_token_from(old(self)@, tok@, rank, 0),
            final(self)@.wf(),
    {
        let mut w: usize = 0;
        while w < self.words.len()
            invariant
                self@.wf(),
                w <= self@.words.len(),
                self@.words == old(self)@.words,
                spec_index_token_from(self@, tok@, rank, w as int) == spec_index_token_from(
                    old(self)@,
                    tok@,
                    rank,
                    0,
                ),
            decreases self@.words.len() - w,
        {
            let ghost pre = self@;
            if str_eq(self.words[w].word.as_str(), tok.as_str()) && !self.has_frequency_row(w) {
                self.frequency.push(FrequencyRow { word_id: w, rank });
                proof {
                    assert forall|i: int, j: int|
                        0 <= i < j < self@.frequency.len() implies (
                    #[trigger] self@.frequency[i]).word_id != (
                    #[trigger] self@.frequency[j]).word_id by {
                        if j == pre.frequency.len() {
                            assert(self@.frequency[i] == pre.frequency[i]);
                            assert(!has_frequency(pre, w as int));
                        }
                    }
                    assert(self@.wf());
                }
            }
            proof {
                assert(spec_index_token_from(pre, tok@, rank, w as int)
                    == spec_index_token_from(self@, tok@, rank, w + 1));
            }
            w = w + 1;
        }
    }

    /// Index a whitespace-tokenized frequency corpus: token `i` (0-based)
    /// carries rank `i`; a token absent from the lexicon is silently
    /// skipped; a word already ranked keeps its first (lowest) rank.
    pub fn insert_frequencies(&mut self, tokens: &Vec<String>)
        requires
            old(self)@.wf(),
        ensures
            final(self)@ == spec_index_tokens_from(old(self)@, tokens@, 0),
            final(self)@.wf(),
    {
        let ghost orig = self@;
        proof {
            assert(tokens@.skip(0) =~= tokens@);
        }
        let mut i: usize = 0;
        while i < tokens.len()
            invariant
                i <= tokens@.len(),
                self@.wf(),
                spec_index_tokens_from(self@, tokens@.skip(i as int), i as int)
                    == spec_index_tokens_from(orig, tokens@, 0),
            decreases tokens@.len() - i,
        {
            let ghost pre = self@;
            self.index_token(&tokens[i], i);
            proof {
                assert(tokens@.skip(i as int).drop_first() =~= tokens@.skip(i + 1));
                assert(tokens@.skip(i as int)[0] == tokens@[i as int]);
                assert(spec_index_tokens_from(pre, tokens@.skip(i as int), i as int)
                    == spec_index_tokens_from(self@, tokens@.skip(i + 1), i + 1));
            }
            i = i + 1;
        }
        proof {
            assert(tokens@.skip(tokens@.len() as int) =~= Seq::<String>::empty());
        }
    }

    /// Insert one decoded dictionary record, applying the per-record policy:
    /// a record whose class is outside the ten word classes, or whose senses
    /// are all form-of references, leaves the store untouched.
    pub fn insert_record(&mut self, rec: &RawRecord)
        requires
            old(self)@.wf(),
        ensures
            final(self)@ == spec_insert_record(old(self)@, *rec),
            final(self)@.wf(),
    {
        let pos_class = WordClass::from_tag(rec.pos.as_str());
        if pos_class == WordClass::Unknown {
            proof {
                assert(self@ =~= spec_insert_record(old(self)@, *rec));
            }
            return;
        }
        let mut retained = false;
        let mut i: usize = 0;
        while i < rec.senses.len() && !retained
            invariant
                self@ == old(self)@,
                i <= rec.senses@.len(),
                retained ==> !all_senses_form_of(rec.senses@),
                !retained ==> forall|j: int|
                    0 <= j < i ==> sense_is_form_of(#[trigger] rec.senses@[j]),
            decreases rec.senses@.len() - i,
        {
            if !sense_form_of(&rec.senses[i]) {
                retained = true;
            }
            i = i + 1;
        }
        if !retained {
            proof {
                assert(all_senses_form_of(rec.senses@));
                assert(self@ =~= spec_insert_record(old(self)@, *rec));
            }
            return;
        }
        let word_id = self.words.len();
        self.words.push(
            WordRow {
                word: rec.word.clone(),
                pos: pos_class,
                etymology: clone_opt(&rec.etymology),
                expansion: clone_opt(&rec.expansion),
            },
        );
        let ghost v1 = self@;
        self.add_senses(word_id, &rec.senses);
        self.add_forms(word_id, &rec.forms);
        self.add_sounds(word_id, &rec.sounds);
        proof {
            assert(record_applies(*rec));
            assert(v1 =~= (LexiconV {
                words: old(self)@.words.push(
                    WordRow {
                        word: rec.word,
                        pos: word_class_of(rec.pos@),
                        etymology: rec.etymology,
                        expansion: rec.expansion,
                    },
                ),
                ..old(self)@
            }));
            assert(self@ == spec_insert_record(old(self)@, *rec));
            vstd::std_specs::vec::axiom_spec_len(&self.words);
            vstd::std_specs::vec::axiom_spec_len(&self.senses);
            vstd::std_specs::vec::axiom_spec_len(&self.synonyms);
            vstd::std_specs::vec::axiom_spec_len(&self.forms);
            vstd::std_specs::vec::axiom_spec_len(&self.pronunciations);
            vstd::std_specs::vec::axiom_spec_len(&rec.senses);
            lemma_insert_record_props(old(self)@, *rec);
        }
    }
}

} // verus!
