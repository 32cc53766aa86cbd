//! Schema-validated decoding of one line of the dictionary dump into a
//! strongly-typed raw record.  Every "missing field / wrong type / empty
//! array" condition becomes a typed error carrying the line number; the
//! decisions to *skip* a record or one of its parts are taken later, over the
//! decoded plain data.  The whole decode is specified against the parsed
//! line's [`JsonV`] model: [`spec_decode`] says, for every model, exactly
//! which record or which error comes back.

use vstd::prelude::*;

use crate::dictionary::{word_class_of, WordClass};
use crate::error::Error;
use crate::jsonval::{
    jfield, json_as_array, json_as_str, json_get, json_model, lemma_models_of_index, models_of,
    JsonV,
};
use crate::text::str_eq;

verus! {

/// An example quoted under a sense: source text and optional translation.
#[derive(Debug, Clone)]
pub struct RawExample {
    pub text: String,
    pub english: Option<String>,
}

/// One sense of a record, fully decoded.
#[derive(Debug, Clone)]
pub struct RawSense {
    /// The source object carried a `form_of` field.
    pub has_form_of: bool,
    pub tags: Vec<String>,
    /// First gloss string, when the record carried any glosses.
    pub gloss: Option<String>,
    pub examples: Vec<RawExample>,
    pub synonyms: Vec<String>,
}

/// One inflected-form entry of a record.  `source` is kept verbatim; `tags`
/// is decoded only for entries whose source marks a declension or
/// conjugation table, since only those can survive the import filter.
#[derive(Debug, Clone)]
pub struct RawForm {
    pub form: String,
    pub source: Option<String>,
    pub tags: Option<Vec<String>>,
}

/// One sound entry of a record; entries without an IPA field are recorded
/// empty and never stored.
#[derive(Debug, Clone)]
pub struct RawSound {
    pub ipa: Option<String>,
    pub tags: Vec<String>,
}

/// A dictionary record decoded from one line of the dump.
#[derive(Debug, Clone)]
pub struct RawRecord {
    pub word: String,
    pub pos: String,
    pub etymology: Option<String>,
    pub expansion: Option<String>,
    pub senses: Vec<RawSense>,
    pub forms: Vec<RawForm>,
    pub sounds: Vec<RawSound>,
}

// ---------------------------------------------------------------------------
// Text-level views of the decoded data.
// ---------------------------------------------------------------------------

/// An example, by text alone.
pub ghost struct ExampleV {
    pub text: Seq<char>,
    pub english: Option<Seq<char>>,
}

/// A sense, by text alone.
pub ghost struct SenseV {
    pub has_form_of: bool,
    pub tags: Seq<Seq<char>>,
    pub gloss: Option<Seq<char>>,
    pub examples: Seq<ExampleV>,
    pub synonyms: Seq<Seq<char>>,
}

/// A form entry, by text alone.
pub ghost struct FormV {
    pub form: Seq<char>,
    pub source: Option<Seq<char>>,
    pub tags: Option<Seq<Seq<char>>>,
}

/// A sound entry, by text alone.
pub ghost struct SoundV {
    pub ipa: Option<Seq<char>>,
    pub tags: Seq<Seq<char>>,
}

/// A record, by text alone.
pub ghost struct RecV {
    pub word: Seq<char>,
    pub pos: Seq<char>,
    pub etymology: Option<Seq<char>>,
    pub expansion: Option<Seq<char>>,
    pub senses: Seq<SenseV>,
    pub forms: Seq<FormV>,
    pub sounds: Seq<SoundV>,
}

/// View of an optional string.
pub open spec fn opt_view(o: Option<String>) -> Option<Seq<char>> {
    match o {
        Some(s) => Some(s@),
        None => None,
    }
}

/// Views of a string list.
pub open spec fn strs_view(v: Seq<String>) -> Seq<Seq<char>> {
    v.map_values(|s: String| s@)
}

/// Pointwise reading of [`strs_view`].
pub proof fn lemma_strs_view_index(v: Seq<String>)
    ensures
        strs_view(v).len() == v.len(),
        forall|k: int| 0 <= k < v.len() ==> #[trigger] strs_view(v)[k] == v[k]@,
{
}

/// View of an example.
pub open spec fn example_view(e: RawExample) -> ExampleV {
    ExampleV { text: e.text@, english: opt_view(e.english) }
}

/// View of a sense.
pub open spec fn sense_view(s: RawSense) -> SenseV {
    SenseV {
        has_form_of: s.has_form_of,
        tags: strs_view(s.tags@),
        gloss: opt_view(s.gloss),
        examples: s.examples@.map_values(|e: RawExample| example_view(e)),
        synonyms: strs_view(s.synonyms@),
    }
}

/// View of a form entry.
pub open spec fn form_view(f: RawForm) -> FormV {
    FormV {
        form: f.form@,
        source: opt_view(f.source),
        tags: match f.tags {
            Some(t) => Some(strs_view(t@)),
            None => None,
        },
    }
}

/// View of a sound entry.
pub open spec fn sound_view(s: RawSound) -> SoundV {
    SoundV { ipa: opt_view(s.ipa), tags: strs_view(s.tags@) }
}

/// View of a record.
pub open spec fn record_view(r: RawRecord) -> RecV {
    RecV {
        word: r.word@,
        pos: r.pos@,
        etymology: opt_view(r.etymology),
        expansion: opt_view(r.expansion),
        senses: r.senses@.map_values(|s: RawSense| sense_view(s)),
        forms: r.forms@.map_values(|f: RawForm| form_view(f)),
        sounds: r.sounds@.map_values(|s: RawSound| sound_view(s)),
    }
}

// ---------------------------------------------------------------------------
// Filter predicates.
// ---------------------------------------------------------------------------

/// True when the sense is an inflectional cross-reference rather than an
/// independent meaning: it carries a `form_of` field or a `form-of` tag.
pub open spec fn sense_is_form_of(s: RawSense) -> bool {
    s.has_form_of || exists|i: int|
        0 <= i < s.tags@.len() && (#[trigger] s.tags@[i])@ == "form-of"@
}

/// True when every sense of the record is a form-of reference, so the record
/// carries no independent meaning and is skipped.
pub open spec fn all_senses_form_of(senses: Seq<RawSense>) -> bool {
    forall|i: int| 0 <= i < senses.len() ==> sense_is_form_of(#[trigger] senses[i])
}

/// Exec mirror of [`sense_is_form_of`].
pub fn sense_form_of(s: &RawSense) -> (r: bool)
    ensures
        r == sense_is_form_of(*s),
{
    if s.has_form_of {
        return true;
    }
    let mut i: usize = 0;
    while i < s.tags.len()
        invariant
            i <= s.tags@.len(),
            forall|j: int| 0 <= j < i ==> (#[trigger] s.tags@[j])@ != "form-of"@,
        decreases s.tags@.len() - i,
    {
        if str_eq(s.tags[i].as_str(), "form-of") {
            return true;
        }
        i = i + 1;
    }
    false
}

/// The tags that mark a form entry as a template artifact; such entries never
/// become Form rows.
pub open spec fn is_excluded_form_tag(t: Seq<char>) -> bool {
    t == "inflection-template"@ || t == "table-tags"@ || t == "class"@
}

/// A form entry survives import when its source marks a declension or
/// conjugation table, it carries a tag list, and none of its tags is a
/// template artifact.
pub open spec fn form_survives(f: RawForm) -> bool {
    &&& f.source is Some
    &&& ((f.source->0)@ == "declension"@ || (f.source->0)@ == "conjugation"@)
    &&& f.tags is Some
    &&& forall|i: int|
        0 <= i < (f.tags->0)@.len() ==> !is_excluded_form_tag((#[trigger] (f.tags->0)@[i])@)
}

/// Exec mirror of [`form_survives`].
pub fn form_survives_exec(f: &RawForm) -> (r: bool)
    ensures
        r == form_survives(*f),
{
    let source_ok = match &f.source {
        Some(s) => str_eq(s.as_str(), "declension") || str_eq(s.as_str(), "conjugation"),
        None => false,
    };
    if !source_ok {
        return false;
    }
    if f.tags.is_none() {
        return false;
    }
    let tags = f.tags.as_ref().unwrap();
    let mut i: usize = 0;
    while i < tags.len()
        invariant
            f.tags is Some,
            tags == &(f.tags->0),
            i <= tags@.len(),
            forall|j: int| 0 <= j < i ==> !is_excluded_form_tag((#[trigger] tags@[j])@),
        decreases tags@.len() - i,
    {
        let t = tags[i].as_str();
        if str_eq(t, "inflection-template") || str_eq(t, "table-tags") || str_eq(t, "class") {
            proof {
                assert(is_excluded_form_tag((f.tags->0)@[i as int]@));
            }
            return false;
        }
        i = i + 1;
    }
    true
}

// ---------------------------------------------------------------------------
// The decode, as a specification over the line's JSON model.
// ---------------------------------------------------------------------------

/// Smallest position in `[i, n)` whose element fails `ok`, or `n` if none
/// does.
pub open spec fn first_not_from(n: int, ok: spec_fn(int) -> bool, i: int) -> int
    decreases n - i,
{
    if i < 0 || i >= n {
        n
    } else if !ok(i) {
        i
    } else {
        first_not_from(n, ok, i + 1)
    }
}

/// Smallest position in `[0, n)` whose element fails `ok`, or `n`.
pub open spec fn first_not(n: int, ok: spec_fn(int) -> bool) -> int {
    first_not_from(n, ok, 0)
}

proof fn lemma_first_not_from_char(n: int, ok: spec_fn(int) -> bool, i: int)
    requires
        0 <= i <= n,
    ensures
        i <= first_not_from(n, ok, i) <= n,
        forall|k: int| i <= k < first_not_from(n, ok, i) ==> #[trigger] ok(k),
        first_not_from(n, ok, i) < n ==> !ok(first_not_from(n, ok, i)),
    decreases n - i,
{
    if i < n && ok(i) {
        lemma_first_not_from_char(n, ok, i + 1);
    }
}

/// [`first_not`] is exactly the first failing position.
pub proof fn lemma_first_not_char(n: int, ok: spec_fn(int) -> bool)
    requires
        0 <= n,
    ensures
        0 <= first_not(n, ok) <= n,
        forall|k: int| 0 <= k < first_not(n, ok) ==> #[trigger] ok(k),
        first_not(n, ok) < n ==> !ok(first_not(n, ok)),
{
    lemma_first_not_from_char(n, ok, 0);
}

/// Every element of the array is a JSON string.
pub open spec fn str_items_ok(a: Seq<JsonV>) -> bool {
    forall|k: int| 0 <= k < a.len() ==> (#[trigger] a[k]) is Str
}

/// The strings of an all-string array.
pub open spec fn str_items(a: Seq<JsonV>) -> Seq<Seq<char>> {
    a.map_values(|e: JsonV| e->Str_0)
}

/// Pointwise reading of [`str_items`].
pub proof fn lemma_str_items_index(a: Seq<JsonV>)
    ensures
        str_items(a).len() == a.len(),
        forall|k: int| 0 <= k < a.len() ==> #[trigger] str_items(a)[k] == a[k]->Str_0,
{
}

/// Decode of an array that must hold only strings.
pub open spec fn spec_str_array(a: Seq<JsonV>, line: usize) -> Result<Seq<Seq<char>>, Error> {
    if str_items_ok(a) {
        Ok(str_items(a))
    } else {
        Err(Error::ValueConversionFailed { line })
    }
}

/// First pass over a sense: is it marked as a form-of reference?  A sense
/// with a `form_of` field is flagged without looking at its tags.
pub open spec fn spec_marker(m: JsonV, line: usize) -> Result<bool, Error> {
    if jfield(m, "form_of"@) is Some {
        Ok(true)
    } else {
        match jfield(m, "tags"@) {
            None => Ok(false),
            Some(t) => if !(t is Arr) {
                Err(Error::ValueConversionFailed { line })
            } else {
                match spec_str_array(t->Arr_0, line) {
                    Err(e) => Err(e),
                    Ok(tags) => Ok(tags.contains("form-of"@)),
                }
            },
        }
    }
}

/// Decode of one example object.
pub open spec fn spec_example(m: JsonV, line: usize) -> Result<ExampleV, Error> {
    match jfield(m, "text"@) {
        None => Err(Error::GetValueFailed { line }),
        Some(t) => if !(t is Str) {
            Err(Error::ValueConversionFailed { line })
        } else {
            match jfield(m, "english"@) {
                None => Ok(ExampleV { text: t->Str_0, english: None }),
                Some(e) => if !(e is Str) {
                    Err(Error::ValueConversionFailed { line })
                } else {
                    Ok(ExampleV { text: t->Str_0, english: Some(e->Str_0) })
                },
            }
        },
    }
}

/// The decoded examples of an all-decodable array.
pub open spec fn example_items(a: Seq<JsonV>, line: usize) -> Seq<ExampleV> {
    a.map_values(|e: JsonV| spec_example(e, line)->Ok_0)
}

/// Decode of an example array: the first failing element's error wins.
pub open spec fn spec_examples(a: Seq<JsonV>, line: usize) -> Result<Seq<ExampleV>, Error> {
    let k = first_not(a.len() as int, |j: int| spec_example(a[j], line) is Ok);
    if k == a.len() {
        Ok(example_items(a, line))
    } else {
        Err(spec_example(a[k], line)->Err_0)
    }
}

/// Decode of one synonym object: its `word` field.
pub open spec fn spec_synonym(m: JsonV, line: usize) -> Result<Seq<char>, Error> {
    match jfield(m, "word"@) {
        None => Err(Error::GetValueFailed { line }),
        Some(w) => if !(w is Str) {
            Err(Error::ValueConversionFailed { line })
        } else {
            Ok(w->Str_0)
        },
    }
}

/// The decoded synonyms of an all-decodable array.
pub open spec fn synonym_items(a: Seq<JsonV>, line: usize) -> Seq<Seq<char>> {
    a.map_values(|e: JsonV| spec_synonym(e, line)->Ok_0)
}

/// Decode of a synonym array.
pub open spec fn spec_synonyms(a: Seq<JsonV>, line: usize) -> Result<Seq<Seq<char>>, Error> {
    let k = first_not(a.len() as int, |j: int| spec_synonym(a[j], line) is Ok);
    if k == a.len() {
        Ok(synonym_items(a, line))
    } else {
        Err(spec_synonym(a[k], line)->Err_0)
    }
}

/// Full decode of one sense object: first gloss, tags, examples, synonyms,
/// in that order.
pub open spec fn spec_sense(m: JsonV, line: usize) -> Result<SenseV, Error> {
    let has_form_of = jfield(m, "form_of"@) is Some;
    let gl = jfield(m, "glosses"@);
    if gl is Some && !(gl->0 is Arr) {
        Err(Error::ValueConversionFailed { line })
    } else if gl is Some && gl->0->Arr_0.len() == 0 {
        Err(Error::EmptyJSONArray { line })
    } else if gl is Some && !(gl->0->Arr_0[0] is Str) {
        Err(Error::ValueConversionFailed { line })
    } else {
        let gloss = if gl is Some {
            Some(gl->0->Arr_0[0]->Str_0)
        } else {
            None
        };
        let tg = jfield(m, "tags"@);
        if tg is Some && !(tg->0 is Arr) {
            Err(Error::ValueConversionFailed { line })
        } else if tg is Some && !str_items_ok(tg->0->Arr_0) {
            Err(Error::ValueConversionFailed { line })
        } else {
            let tags = if tg is Some {
                str_items(tg->0->Arr_0)
            } else {
                Seq::<Seq<char>>::empty()
            };
            let ex = jfield(m, "examples"@);
            if ex is Some && !(ex->0 is Arr) {
                Err(Error::ValueConversionFailed { line })
            } else {
                let exr = if ex is Some {
                    spec_examples(ex->0->Arr_0, line)
                } else {
                    Ok(Seq::<ExampleV>::empty())
                };
                match exr {
                    Err(e) => Err(e),
                    Ok(examples) => {
                        let sy = jfield(m, "synonyms"@);
                        if sy is Some && !(sy->0 is Arr) {
                            Err(Error::ValueConversionFailed { line })
                        } else {
                            let syr = if sy is Some {
                                spec_synonyms(sy->0->Arr_0, line)
                            } else {
                                Ok(Seq::<Seq<char>>::empty())
                            };
                            match syr {
                                Err(e) => Err(e),
                                Ok(synonyms) => Ok(
                                    SenseV { has_form_of, tags, gloss, examples, synonyms },
                                ),
                            }
                        }
                    },
                }
            }
        }
    }
}

/// The decoded senses of an all-decodable array.
pub open spec fn sense_items(a: Seq<JsonV>, line: usize) -> Seq<SenseV> {
    a.map_values(|e: JsonV| spec_sense(e, line)->Ok_0)
}

/// Decode of one form entry.  Its tag list is examined only when the source
/// marks an inflection table, as a malformed tag elsewhere is not an error.
pub open spec fn spec_form(m: JsonV, line: usize) -> Result<FormV, Error> {
    match jfield(m, "form"@) {
        None => Err(Error::GetValueFailed { line }),
        Some(f) => if !(f is Str) {
            Err(Error::ValueConversionFailed { line })
        } else {
            match jfield(m, "source"@) {
                None => Ok(FormV { form: f->Str_0, source: None, tags: None }),
                Some(s) => if !(s is Str) {
                    Err(Error::ValueConversionFailed { line })
                } else if s->Str_0 == "declension"@ || s->Str_0 == "conjugation"@ {
                    match jfield(m, "tags"@) {
                        None => Ok(FormV { form: f->Str_0, source: Some(s->Str_0), tags: None }),
                        Some(t) => if !(t is Arr) {
                            Err(Error::ValueConversionFailed { line })
                        } else {
                            match spec_str_array(t->Arr_0, line) {
                                Err(e) => Err(e),
                                Ok(tags) => Ok(
                                    FormV {
                                        form: f->Str_0,
                                        source: Some(s->Str_0),
                                        tags: Some(tags),
                                    },
                                ),
                            }
                        },
                    }
                } else {
                    Ok(FormV { form: f->Str_0, source: Some(s->Str_0), tags: None })
                },
            }
        },
    }
}

/// The decoded form entries of an all-decodable array.
pub open spec fn form_items(a: Seq<JsonV>, line: usize) -> Seq<FormV> {
    a.map_values(|e: JsonV| spec_form(e, line)->Ok_0)
}

/// Decode of the form array.
pub open spec fn spec_forms(a: Seq<JsonV>, line: usize) -> Result<Seq<FormV>, Error> {
    let k = first_not(a.len() as int, |j: int| spec_form(a[j], line) is Ok);
    if k == a.len() {
        Ok(form_items(a, line))
    } else {
        Err(spec_form(a[k], line)->Err_0)
    }
}

/// Decode of the `forms` field: absent means no entries.
pub open spec fn spec_forms_field(m: JsonV, line: usize) -> Result<Seq<FormV>, Error> {
    match jfield(m, "forms"@) {
        None => Ok(Seq::<FormV>::empty()),
        Some(f) => if !(f is Arr) {
            Err(Error::ValueConversionFailed { line })
        } else {
            spec_forms(f->Arr_0, line)
        },
    }
}

/// Decode of one sound entry; entries without an IPA field are kept empty
/// and their tags are not examined.
pub open spec fn spec_sound(m: JsonV, line: usize) -> Result<SoundV, Error> {
    match jfield(m, "ipa"@) {
        None => Ok(SoundV { ipa: None, tags: Seq::<Seq<char>>::empty() }),
        Some(ip) => if !(ip is Str) {
            Err(Error::ValueConversionFailed { line })
        } else {
            match jfield(m, "tags"@) {
                None => Ok(SoundV { ipa: Some(ip->Str_0), tags: Seq::<Seq<char>>::empty() }),
                Some(t) => if !(t is Arr) {
                    Err(Error::ValueConversionFailed { line })
                } else {
                    match spec_str_array(t->Arr_0, line) {
                        Err(e) => Err(e),
                        Ok(tags) => Ok(SoundV { ipa: Some(ip->Str_0), tags }),
                    }
                },
            }
        },
    }
}

/// The decoded sound entries of an all-decodable array.
pub open spec fn sound_items(a: Seq<JsonV>, line: usize) -> Seq<SoundV> {
    a.map_values(|e: JsonV| spec_sound(e, line)->Ok_0)
}

/// Decode of the sound array.
pub open spec fn spec_sounds(a: Seq<JsonV>, line: usize) -> Result<Seq<SoundV>, Error> {
    let k = first_not(a.len() as int, |j: int| spec_sound(a[j], line) is Ok);
    if k == a.len() {
        Ok(sound_items(a, line))
    } else {
        Err(spec_sound(a[k], line)->Err_0)
    }
}

/// Decode of the `sounds` field: absent means no entries.
pub open spec fn spec_sounds_field(m: JsonV, line: usize) -> Result<Seq<SoundV>, Error> {
    match jfield(m, "sounds"@) {
        None => Ok(Seq::<SoundV>::empty()),
        Some(s) => if !(s is Arr) {
            Err(Error::ValueConversionFailed { line })
        } else {
            spec_sounds(s->Arr_0, line)
        },
    }
}

/// The whole decode of one parsed line: `Ok(None)` for an inapplicable
/// record (unknown word class, or every sense a form-of reference),
/// `Ok(Some(..))` with the record's text-level content, or the first shape
/// error encountered, in the exact order the importer reads the fields.
pub open spec fn spec_decode(m: JsonV, line: usize) -> Result<Option<RecV>, Error> {
    match jfield(m, "word"@) {
        None => Err(Error::GetValueFailed { line }),
        Some(w) => if !(w is Str) {
            Err(Error::ValueConversionFailed { line })
        } else {
            match jfield(m, "pos"@) {
                None => Err(Error::GetValueFailed { line }),
                Some(p) => if !(p is Str) {
                    Err(Error::ValueConversionFailed { line })
                } else {
                    let et = jfield(m, "etymology_text"@);
                    if et is Some && !(et->0 is Str) {
                        Err(Error::ValueConversionFailed { line })
                    } else if word_class_of(p->Str_0) == WordClass::Unknown {
                        Ok(None)
                    } else {
                        let etymology = if et is Some {
                            Some(et->0->Str_0)
                        } else {
                            None
                        };
                        let ht = jfield(m, "head_templates"@);
                        if ht is Some && !(ht->0 is Arr) {
                            Err(Error::ValueConversionFailed { line })
                        } else if ht is Some && ht->0->Arr_0.len() == 0 {
                            Err(Error::EmptyJSONArray { line })
                        } else if ht is Some && jfield(ht->0->Arr_0[0], "expansion"@) is None {
                            Err(Error::GetValueFailed { line })
                        } else {
                            let expansion = if ht is Some && jfield(
                                ht->0->Arr_0[0],
                                "expansion"@,
                            )->0 is Str {
                                Some(jfield(ht->0->Arr_0[0], "expansion"@)->0->Str_0)
                            } else {
                                None
                            };
                            match jfield(m, "senses"@) {
                                None => Err(Error::GetValueFailed { line }),
                                Some(sv) => if !(sv is Arr) {
                                    Err(Error::ValueConversionFailed { line })
                                } else {
                                    spec_decode_senses(
                                        m,
                                        w->Str_0,
                                        p->Str_0,
                                        etymology,
                                        expansion,
                                        sv->Arr_0,
                                        line,
                                    )
                                },
                            }
                        }
                    }
                },
            }
        },
    }
}

/// The sense passes and the trailing forms/sounds decode of a record whose
/// head fields are already in hand.
pub open spec fn spec_decode_senses(
    m: JsonV,
    word: Seq<char>,
    pos: Seq<char>,
    etymology: Option<Seq<char>>,
    expansion: Option<Seq<char>>,
    sarr: Seq<JsonV>,
    line: usize,
) -> Result<Option<RecV>, Error> {
    // First pass, mirroring the import filter: walk the markers until one
    // names an independent meaning; its shape errors fire in walk order.
    let k1 = first_not(
        sarr.len() as int,
        |j: int| spec_marker(sarr[j], line) is Ok && spec_marker(sarr[j], line)->Ok_0,
    );
    if k1 == sarr.len() {
        Ok(None)
    } else if spec_marker(sarr[k1], line) is Err {
        Err(spec_marker(sarr[k1], line)->Err_0)
    } else {
        // Second pass: decode every sense in full.
        let k2 = first_not(sarr.len() as int, |j: int| spec_sense(sarr[j], line) is Ok);
        if k2 < sarr.len() {
            Err(spec_sense(sarr[k2], line)->Err_0)
        } else {
            match spec_forms_field(m, line) {
                Err(e) => Err(e),
                Ok(forms) => match spec_sounds_field(m, line) {
                    Err(e) => Err(e),
                    Ok(sounds) => Ok(
                        Some(
                            RecV {
                                word,
                                pos,
                                etymology,
                                expansion,
                                senses: sense_items(sarr, line),
                                forms,
                                sounds,
                            },
                        ),
                    ),
                },
            }
        }
    }
}

// ---------------------------------------------------------------------------
// The executable decode, verified against the specification above.
// ---------------------------------------------------------------------------

/// Decode a string field that must be present on `v`.
fn required_str(v: &serde_json::Value, key: &str, line: usize) -> (r: Result<String, Error>)
    ensures
        r is Err ==> (r->Err_0).spec_line() == line && !(r->Err_0 is SerdeFailed),
        ({
            let f = jfield(json_model(*v), key@);
            match r {
                Ok(s) => f is Some && f->0 is Str && s@ == f->0->Str_0,
                Err(e) => (f is None && e == (Error::GetValueFailed { line })) || (f is Some && !(
                f->0 is Str) && e == (Error::ValueConversionFailed { line })),
            }
        }),
{
    match json_get(v, key) {
        None => Err(Error::GetValueFailed { line }),
        Some(field) => match json_as_str(field) {
            None => Err(Error::ValueConversionFailed { line }),
            Some(s) => Ok(s),
        },
    }
}

/// Decode a string field that may be absent but must be a string when
/// present.
fn optional_str(v: &serde_json::Value, key: &str, line: usize) -> (r: Result<
    Option<String>,
    Error,
>)
    ensures
        r is Err ==> (r->Err_0).spec_line() == line && !(r->Err_0 is SerdeFailed),
        ({
            let f = jfield(json_model(*v), key@);
            match r {
                Ok(o) => (f is None && o is None) || (f is Some && f->0 is Str && o is Some && (
                o->0)@ == f->0->Str_0),
                Err(e) => f is Some && !(f->0 is Str) && e == (Error::ValueConversionFailed {
                    line,
                }),
            }
        }),
{
    match json_get(v, key) {
        None => Ok(None),
        Some(field) => match json_as_str(field) {
            None => Err(Error::ValueConversionFailed { line }),
            Some(s) => Ok(Some(s)),
        },
    }
}

/// Decode an array of strings.
fn string_array(arr: &Vec<serde_json::Value>, line: usize) -> (r: Result<Vec<String>, Error>)
    ensures
        r is Err ==> (r->Err_0).spec_line() == line && !(r->Err_0 is SerdeFailed),
        ({
            let sm = spec_str_array(models_of(arr@), line);
            match r {
                Ok(out) => sm is Ok && strs_view(out@) == sm->Ok_0,
                Err(e) => sm is Err && e == sm->Err_0,
            }
        }),
{
    let ghost ms = models_of(arr@);
    let mut out: Vec<String> = Vec::new();
    let mut i: usize = 0;
    while i < arr.len()
        invariant
            ms == models_of(arr@),
            i <= arr@.len(),
            out@.len() == i,
            forall|k: int|
                0 <= k < i ==> (#[trigger] ms[k]) is Str && out@[k]@ == ms[k]->Str_0,
        decreases arr@.len() - i,
    {
        proof {
            lemma_models_of_index(arr@);
        }
        match json_as_str(&arr[i]) {
            None => {
                proof {
                    assert(!(ms[i as int] is Str));
                    assert(!str_items_ok(ms));
                }
                return Err(Error::ValueConversionFailed { line });
            },
            Some(s) => out.push(s),
        }
        i = i + 1;
    }
    proof {
        assert(str_items_ok(ms));
        lemma_strs_view_index(out@);
        lemma_str_items_index(ms);
        assert(strs_view(out@) =~= str_items(ms));
    }
    Ok(out)
}

/// First pass over a sense object, mirroring [`spec_marker`].
fn sense_form_of_marker(sense: &serde_json::Value, line: usize) -> (r: Result<bool, Error>)
    ensures
        r is Err ==> (r->Err_0).spec_line() == line && !(r->Err_0 is SerdeFailed),
        ({
            let sm = spec_marker(json_model(*sense), line);
            match r {
                Ok(b) => sm is Ok && b == sm->Ok_0,
                Err(e) => sm is Err && e == sm->Err_0,
            }
        }),
{
    if json_get(sense, "form_of").is_some() {
        return Ok(true);
    }
    match json_get(sense, "tags") {
        None => Ok(false),
        Some(tags_val) => match json_as_array(tags_val) {
            None => Err(Error::ValueConversionFailed { line }),
            Some(arr) => {
                let tags = string_array(arr, line)?;
                let ghost titems = str_items(models_of(arr@));
                proof {
                    lemma_strs_view_index(tags@);
                }
                let mut i: usize = 0;
                while i < tags.len()
                    invariant
                        strs_view(tags@) == titems,
                        spec_marker(json_model(*sense), line) is Ok && spec_marker(
                            json_model(*sense),
                            line,
                        )->Ok_0 == titems.contains("form-of"@),
                        i <= tags@.len(),
                        forall|k: int| 0 <= k < i ==> (#[trigger] tags@[k])@ != "form-of"@,
                    decreases tags@.len() - i,
                {
                    if str_eq(tags[i].as_str(), "form-of") {
                        proof {
                            lemma_strs_view_index(tags@);
                            assert(titems[i as int] == "form-of"@);
                        }
                        return Ok(true);
                    }
                    i = i + 1;
                }
                proof {
                    lemma_strs_view_index(tags@);
                    assert forall|k: int| 0 <= k < titems.len() implies #[trigger] titems[k]
                        != "form-of"@ by {
                        assert(titems[k] == tags@[k]@);
                    }
                    assert(!titems.contains("form-of"@));
                }
                Ok(false)
            },
        },
    }
}

/// Decode an example array, mirroring [`spec_examples`].
fn decode_examples(arr: &Vec<serde_json::Value>, line: usize) -> (r: Result<
    Vec<RawExample>,
    Error,
>)
    ensures
        r is Err ==> (r->Err_0).spec_line() == line && !(r->Err_0 is SerdeFailed),
        ({
            let sm = spec_examples(models_of(arr@), line);
            match r {
                Ok(out) => sm is Ok && out@.map_values(|e: RawExample| example_view(e))
                    == sm->Ok_0,
                Err(e) => sm is Err && e == sm->Err_0,
            }
        }),
{
    let ghost ms = models_of(arr@);
    let ghost okf = |j: int| spec_example(ms[j], line) is Ok;
    let mut out: Vec<RawExample> = Vec::new();
    let mut i: usize = 0;
    while i < arr.len()
        invariant
            ms == models_of(arr@),
            okf == (|j: int| spec_example(ms[j], line) is Ok),
            i <= arr@.len(),
            out@.len() == i,
            forall|k: int|
                0 <= k < i ==> spec_example(#[trigger] ms[k], line) is Ok && example_view(
                    out@[k],
                ) == spec_example(ms[k], line)->Ok_0,
        decreases arr@.len() - i,
    {
        proof {
            lemma_models_of_index(arr@);
        }
        let text = match required_str(&arr[i], "text", line) {
            Ok(t) => t,
            Err(e) => {
                proof {
                    lemma_first_not_char(ms.len() as int, okf);
                    assert(!okf(i as int));
                    assert(first_not(ms.len() as int, okf) == i as int);
                }
                return Err(e);
            },
        };
        let english = match optional_str(&arr[i], "english", line) {
            Ok(o) => o,
            Err(e) => {
                proof {
                    lemma_first_not_char(ms.len() as int, okf);
                    assert(!okf(i as int));
                    assert(first_not(ms.len() as int, okf) == i as int);
                }
                return Err(e);
            },
        };
        out.push(RawExample { text, english });
        i = i + 1;
    }
    proof {
        lemma_first_not_char(ms.len() as int, okf);
        if first_not(ms.len() as int, okf) < ms.len() {
            assert(okf(first_not(ms.len() as int, okf)));
        }
        assert(first_not(ms.len() as int, okf) == ms.len());
        assert(out@.map_values(|e: RawExample| example_view(e)) =~= example_items(ms, line));
    }
    Ok(out)
}

/// Decode a synonym array, mirroring [`spec_synonyms`].
fn decode_synonyms(arr: &Vec<serde_json::Value>, line: usize) -> (r: Result<Vec<String>, Error>)
    ensures
        r is Err ==> (r->Err_0).spec_line() == line && !(r->Err_0 is SerdeFailed),
        ({
            let sm = spec_synonyms(models_of(arr@), line);
            match r {
                Ok(out) => sm is Ok && strs_view(out@) == sm->Ok_0,
                Err(e) => sm is Err && e == sm->Err_0,
            }
        }),
{
    let ghost ms = models_of(arr@);
    let ghost okf = |j: int| spec_synonym(ms[j], line) is Ok;
    let mut out: Vec<String> = Vec::new();
    let mut i: usize = 0;
    while i < arr.len()
        invariant
            ms == models_of(arr@),
            okf == (|j: int| spec_synonym(ms[j], line) is Ok),
            i <= arr@.len(),
            out@.len() == i,
            forall|k: int|
                0 <= k < i ==> spec_synonym(#[trigger] ms[k], line) is Ok && out@[k]@
                    == spec_synonym(ms[k], line)->Ok_0,
        decreases arr@.len() - i,
    {
        proof {
            lemma_models_of_index(arr@);
        }
        let word = match required_str(&arr[i], "word", line) {
            Ok(w) => w,
            Err(e) => {
                proof {
                    lemma_first_not_char(ms.len() as int, okf);
                    assert(!okf(i as int));
                    assert(first_not(ms.len() as int, okf) == i as int);
                }
                return Err(e);
            },
        };
        out.push(word);
        i = i + 1;
    }
    proof {
        lemma_first_not_char(ms.len() as int, okf);
        if first_not(ms.len() as int, okf) < ms.len() {
            assert(okf(first_not(ms.len() as int, okf)));
        }
        assert(first_not(ms.len() as int, okf) == ms.len());
        lemma_strs_view_index(out@);
        assert(strs_view(out@) =~= synonym_items(ms, line));
    }
    Ok(out)
}

/// Full decode of a sense object, mirroring [`spec_sense`].
fn decode_sense(sense: &serde_json::Value, line: usize) -> (r: Result<RawSense, Error>)
    ensures
        r is Err ==> (r->Err_0).spec_line() == line && !(r->Err_0 is SerdeFailed),
        ({
            let sm = spec_sense(json_model(*sense), line);
            match r {
                Ok(s) => sm is Ok && sense_view(s) == sm->Ok_0,
                Err(e) => sm is Err && e == sm->Err_0,
            }
        }),
{
    let ghost m = json_model(*sense);
    let has_form_of = json_get(sense, "form_of").is_some();

    let gloss = match json_get(sense, "glosses") {
        None => None,
        Some(glosses_val) => match json_as_array(glosses_val) {
            None => {
                return Err(Error::ValueConversionFailed { line });
            },
            Some(glosses) => {
                if glosses.len() == 0 {
                    proof {
                        lemma_models_of_index(glosses@);
                    }
                    return Err(Error::EmptyJSONArray { line });
                }
                proof {
                    lemma_models_of_index(glosses@);
                }
                match json_as_str(&glosses[0]) {
                    None => {
                        return Err(Error::ValueConversionFailed { line });
                    },
                    Some(g) => Some(g),
                }
            },
        },
    };

    let tags = match json_get(sense, "tags") {
        None => Vec::new(),
        Some(tags_val) => match json_as_array(tags_val) {
            None => {
                return Err(Error::ValueConversionFailed { line });
            },
            Some(arr) => string_array(arr, line)?,
        },
    };

    let examples = match json_get(sense, "examples") {
        None => Vec::new(),
        Some(examples_val) => match json_as_array(examples_val) {
            None => {
                return Err(Error::ValueConversionFailed { line });
            },
            Some(arr) => decode_examples(arr, line)?,
        },
    };

    let synonyms = match json_get(sense, "synonyms") {
        None => Vec::new(),
        Some(synonyms_val) => match json_as_array(synonyms_val) {
            None => {
                return Err(Error::ValueConversionFailed { line });
            },
            Some(arr) => decode_synonyms(arr, line)?,
        },
    };

    let result = RawSense { has_form_of, tags, gloss, examples, synonyms };
    proof {
        let sm = spec_sense(m, line);
        lemma_strs_view_index(result.tags@);
        if jfield(m, "tags"@) is Some {
            lemma_str_items_index(jfield(m, "tags"@)->0->Arr_0);
            assert(strs_view(result.tags@) =~= str_items(jfield(m, "tags"@)->0->Arr_0));
        } else {
            assert(strs_view(result.tags@) =~= Seq::<Seq<char>>::empty());
        }
        if jfield(m, "examples"@) is None {
            assert(result.examples@.map_values(|e: RawExample| example_view(e)) =~= Seq::<
                ExampleV,
            >::empty());
        }
        if jfield(m, "synonyms"@) is None {
            assert(strs_view(result.synonyms@) =~= Seq::<Seq<char>>::empty());
        }
        assert(sm is Ok && sense_view(result) =~= sm->Ok_0);
    }
    Ok(result)
}

/// Decode the form entries of a record, mirroring [`spec_forms_field`].
fn decode_forms(record: &serde_json::Value, line: usize) -> (r: Result<Vec<RawForm>, Error>)
    ensures
        r is Err ==> (r->Err_0).spec_line() == line && !(r->Err_0 is SerdeFailed),
        ({
            let sm = spec_forms_field(json_model(*record), line);
            match r {
                Ok(out) => sm is Ok && out@.map_values(|f: RawForm| form_view(f)) == sm->Ok_0,
                Err(e) => sm is Err && e == sm->Err_0,
            }
        }),
{
    let mut forms: Vec<RawForm> = Vec::new();
    let arr = match json_get(record, "forms") {
        None => {
            proof {
                assert(forms@.map_values(|f: RawForm| form_view(f)) =~= Seq::<FormV>::empty());
            }
            return Ok(forms);
        },
        Some(forms_val) => match json_as_array(forms_val) {
            None => {
                return Err(Error::ValueConversionFailed { line });
            },
            Some(arr) => arr,
        },
    };
    let ghost ms = models_of(arr@);
    let ghost okf = |j: int| spec_form(ms[j], line) is Ok;
    let mut i: usize = 0;
    while i < arr.len()
        invariant
            ms == models_of(arr@),
            okf == (|j: int| spec_form(ms[j], line) is Ok),
            jfield(json_model(*record), "forms"@) is Some && jfield(
                json_model(*record),
                "forms"@,
            )->0 is Arr && jfield(json_model(*record), "forms"@)->0->Arr_0 == ms,
            i <= arr@.len(),
            forms@.len() == i,
            forall|k: int|
                0 <= k < i ==> spec_form(#[trigger] ms[k], line) is Ok && form_view(forms@[k])
                    == spec_form(ms[k], line)->Ok_0,
        decreases arr@.len() - i,
    {
        proof {
            lemma_models_of_index(arr@);
        }
        let form = match required_str(&arr[i], "form", line) {
            Ok(f) => f,
            Err(e) => {
                proof {
                    lemma_first_not_char(ms.len() as int, okf);
                    assert(!okf(i as int));
                    assert(first_not(ms.len() as int, okf) == i as int);
                }
                return Err(e);
            },
        };
        let source = match json_get(&arr[i], "source") {
            None => None,
            Some(source_val) => match json_as_str(source_val) {
                None => {
                    proof {
                        lemma_first_not_char(ms.len() as int, okf);
                        assert(!okf(i as int));
                        assert(first_not(ms.len() as int, okf) == i as int);
                    }
                    return Err(Error::ValueConversionFailed { line });
                },
                Some(s) => Some(s),
            },
        };
        let source_ok = match &source {
            Some(s) => str_eq(s.as_str(), "declension") || str_eq(s.as_str(), "conjugation"),
            None => false,
        };
        let tags = if source_ok {
            match json_get(&arr[i], "tags") {
                None => None,
                Some(tags_val) => match json_as_array(tags_val) {
                    None => {
                        proof {
                            lemma_first_not_char(ms.len() as int, okf);
                            assert(!okf(i as int));
                            assert(first_not(ms.len() as int, okf) == i as int);
                        }
                        return Err(Error::ValueConversionFailed { line });
                    },
                    Some(tags_arr) => {
                        match string_array(tags_arr, line) {
                            Ok(t) => Some(t),
                            Err(e) => {
                                proof {
                                    lemma_first_not_char(ms.len() as int, okf);
                                    assert(!okf(i as int));
                                    assert(first_not(ms.len() as int, okf) == i as int);
                                }
                                return Err(e);
                            },
                        }
                    },
                },
            }
        } else {
            None
        };
        forms.push(RawForm { form, source, tags });
        i = i + 1;
    }
    proof {
        lemma_first_not_char(ms.len() as int, okf);
        if first_not(ms.len() as int, okf) < ms.len() {
            assert(okf(first_not(ms.len() as int, okf)));
        }
        assert(first_not(ms.len() as int, okf) == ms.len());
        assert(forms@.map_values(|f: RawForm| form_view(f)) =~= form_items(ms, line));
    }
    Ok(forms)
}

/// Decode the sound entries of a record, mirroring [`spec_sounds_field`].
fn decode_sounds(record: &serde_json::Value, line: usize) -> (r: Result<Vec<RawSound>, Error>)
    ensures
        r is Err ==> (r->Err_0).spec_line() == line && !(r->Err_0 is SerdeFailed),
        ({
            let sm = spec_sounds_field(json_model(*record), line);
            match r {
                Ok(out) => sm is Ok && out@.map_values(|s: RawSound| sound_view(s)) == sm->Ok_0,
                Err(e) => sm is Err && e == sm->Err_0,
            }
        }),
{
    let mut sounds: Vec<RawSound> = Vec::new();
    let arr = match json_get(record, "sounds") {
        None => {
            proof {
                assert(sounds@.map_values(|s: RawSound| sound_view(s)) =~= Seq::<SoundV>::empty());
            }
            return Ok(sounds);
        },
        Some(sounds_val) => match json_as_array(sounds_val) {
            None => {
                return Err(Error::ValueConversionFailed { line });
            },
            Some(arr) => arr,
        },
    };
    let ghost ms = models_of(arr@);
    let ghost okf = |j: int| spec_sound(ms[j], line) is Ok;
    let mut i: usize = 0;
    while i < arr.len()
        invariant
            ms == models_of(arr@),
            okf == (|j: int| spec_sound(ms[j], line) is Ok),
            jfield(json_model(*record), "sounds"@) is Some && jfield(
                json_model(*record),
                "sounds"@,
            )->0 is Arr && jfield(json_model(*record), "sounds"@)->0->Arr_0 == ms,
            i <= arr@.len(),
            sounds@.len() == i,
            forall|k: int|
                0 <= k < i ==> spec_sound(#[trigger] ms[k], line) is Ok && sound_view(sounds@[k])
                    == spec_sound(ms[k], line)->Ok_0,
        decreases arr@.len() - i,
    {
        proof {
            lemma_models_of_index(arr@);
        }
        match json_get(&arr[i], "ipa") {
            None => {
                sounds.push(RawSound { ipa: None, tags: Vec::new() });
                proof {
                    assert(strs_view(Seq::<String>::empty()) =~= Seq::<Seq<char>>::empty());
                }
            },
            Some(ipa_val) => {
                let ipa = match json_as_str(ipa_val) {
                    None => {
                        proof {
                            lemma_first_not_char(ms.len() as int, okf);
                            assert(!okf(i as int));
                            assert(first_not(ms.len() as int, okf) == i as int);
                        }
                        return Err(Error::ValueConversionFailed { line });
                    },
                    Some(s) => s,
                };
                let tags = match json_get(&arr[i], "tags") {
                    None => Vec::new(),
                    Some(tags_val) => match json_as_array(tags_val) {
                        None => {
                            proof {
                                lemma_first_not_char(ms.len() as int, okf);
                                assert(!okf(i as int));
                                assert(first_not(ms.len() as int, okf) == i as int);
                            }
                            return Err(Error::ValueConversionFailed { line });
                        },
                        Some(tags_arr) => {
                            match string_array(tags_arr, line) {
                                Ok(t) => t,
                                Err(e) => {
                                    proof {
                                        lemma_first_not_char(ms.len() as int, okf);
                                        assert(!okf(i as int));
                                        assert(first_not(ms.len() as int, okf) == i as int);
                                    }
                                    return Err(e);
                                },
                            }
                        },
                    },
                };
                sounds.push(RawSound { ipa: Some(ipa), tags });
                proof {
                    assert(strs_view(sounds@.last().tags@) == spec_sound(
                        ms[i as int],
                        line,
                    )->Ok_0.tags);
                }
            },
        }
        i = i + 1;
    }
    proof {
        lemma_first_not_char(ms.len() as int, okf);
        if first_not(ms.len() as int, okf) < ms.len() {
            assert(okf(first_not(ms.len() as int, okf)));
        }
        assert(first_not(ms.len() as int, okf) == ms.len());
        assert(sounds@.map_values(|s: RawSound| sound_view(s)) =~= sound_items(ms, line));
    }
    Ok(sounds)
}

/// Decode one parsed line of the dump: exactly [`spec_decode`] of the line's
/// model.  `Ok(None)` means the record is inapplicable and skipped; `Err`
/// means the dump is malformed at this line and the whole import must fail.
pub fn decode_record(record: &serde_json::Value, line: usize) -> (r: Result<
    Option<RawRecord>,
    Error,
>)
    ensures
        r is Err ==> (r->Err_0).spec_line() == line && !(r->Err_0 is SerdeFailed),
        ({
            let sd = spec_decode(json_model(*record), line);
            match r {
                Ok(Some(rec)) => sd is Ok && sd->Ok_0 is Some && record_view(rec) == sd->Ok_0->0,
                Ok(None) => sd is Ok && sd->Ok_0 is None,
                Err(e) => sd is Err && e == sd->Err_0,
            }
        }),
{
    let ghost m = json_model(*record);
    let word = required_str(record, "word", line)?;
    let pos = required_str(record, "pos", line)?;
    let etymology = optional_str(record, "etymology_text", line)?;

    if WordClass::from_tag(pos.as_str()) == WordClass::Unknown {
        return Ok(None);
    }

    let expansion = match json_get(record, "head_templates") {
        None => None,
        Some(templates_val) => match json_as_array(templates_val) {
            None => {
                return Err(Error::ValueConversionFailed { line });
            },
            Some(templates) => {
                if templates.len() == 0 {
                    proof {
                        lemma_models_of_index(templates@);
                    }
                    return Err(Error::EmptyJSONArray { line });
                }
                proof {
                    lemma_models_of_index(templates@);
                }
                match json_get(&templates[0], "expansion") {
                    None => {
                        return Err(Error::GetValueFailed { line });
                    },
                    Some(expansion_val) => json_as_str(expansion_val),
                }
            },
        },
    };

    let senses_arr = match json_get(record, "senses") {
        None => {
            return Err(Error::GetValueFailed { line });
        },
        Some(senses_val) => match json_as_array(senses_val) {
            None => {
                return Err(Error::ValueConversionFailed { line });
            },
            Some(arr) => arr,
        },
    };
    let ghost sarr = models_of(senses_arr@);
    let ghost sd = spec_decode(m, line);
    let ghost okm = |j: int|
        spec_marker(sarr[j], line) is Ok && spec_marker(sarr[j], line)->Ok_0;
    let ghost okf2 = |j: int| spec_sense(sarr[j], line) is Ok;
    proof {
        assert(sd == spec_decode_senses(
            m,
            word@,
            pos@,
            opt_view(etymology),
            opt_view(expansion),
            sarr,
            line,
        ));
    }

    // First pass, mirroring the import filter: find whether any sense is an
    // independent meaning, raising the same shape errors the filter would.
    let mut any_retained = false;
    let mut i: usize = 0;
    while i < senses_arr.len() && !any_retained
        invariant
            sarr == models_of(senses_arr@),
            sd == spec_decode(json_model(*record), line),
            sd == spec_decode_senses(
                json_model(*record),
                word@,
                pos@,
                opt_view(etymology),
                opt_view(expansion),
                sarr,
                line,
            ),
            okm == (|j: int|
                spec_marker(sarr[j], line) is Ok && spec_marker(sarr[j], line)->Ok_0),
            i <= sarr.len(),
            forall|k: int|
                0 <= k < i - (if any_retained {
                    1int
                } else {
                    0int
                }) ==> spec_marker(#[trigger] sarr[k], line) is Ok && spec_marker(
                    sarr[k],
                    line,
                )->Ok_0,
            any_retained ==> i >= 1 && spec_marker(sarr[i - 1], line) is Ok && !spec_marker(
                sarr[i - 1],
                line,
            )->Ok_0,
        decreases sarr.len() - i,
    {
        proof {
            lemma_models_of_index(senses_arr@);
        }
        let flagged = match sense_form_of_marker(&senses_arr[i], line) {
            Ok(b) => b,
            Err(e) => {
                proof {
                    lemma_first_not_char(sarr.len() as int, okm);
                    assert(!okm(i as int));
                    assert forall|k: int| 0 <= k < i implies #[trigger] okm(k) by {}
                    assert(first_not(sarr.len() as int, okm) == i as int);
                }
                return Err(e);
            },
        };
        if !flagged {
            any_retained = true;
        }
        i = i + 1;
    }
    proof {
        lemma_first_not_char(sarr.len() as int, okm);
    }
    if !any_retained {
        proof {
            assert forall|k: int| 0 <= k < sarr.len() implies #[trigger] okm(k) by {}
            if first_not(sarr.len() as int, okm) < sarr.len() {
                assert(okm(first_not(sarr.len() as int, okm)));
            }
            assert(first_not(sarr.len() as int, okm) == sarr.len());
        }
        return Ok(None);
    }
    proof {
        assert(!okm(i - 1));
        assert forall|k: int| 0 <= k < i - 1 implies #[trigger] okm(k) by {}
        assert(first_not(sarr.len() as int, okm) == i - 1);
        assert(spec_marker(sarr[first_not(sarr.len() as int, okm)], line) is Ok);
    }

    // Second pass: decode every sense in full.
    let mut senses: Vec<RawSense> = Vec::new();
    let mut i: usize = 0;
    while i < senses_arr.len()
        invariant
            sarr == models_of(senses_arr@),
            sd == spec_decode(json_model(*record), line),
            sd == spec_decode_senses(
                json_model(*record),
                word@,
                pos@,
                opt_view(etymology),
                opt_view(expansion),
                sarr,
                line,
            ),
            okm == (|j: int|
                spec_marker(sarr[j], line) is Ok && spec_marker(sarr[j], line)->Ok_0),
            okf2 == (|j: int| spec_sense(sarr[j], line) is Ok),
            first_not(sarr.len() as int, okm) < sarr.len(),
            spec_marker(sarr[first_not(sarr.len() as int, okm)], line) is Ok,
            i <= sarr.len(),
            senses@.len() == i,
            forall|k: int|
                0 <= k < i ==> spec_sense(#[trigger] sarr[k], line) is Ok && sense_view(senses@[k])
                    == spec_sense(sarr[k], line)->Ok_0,
        decreases sarr.len() - i,
    {
        proof {
            lemma_models_of_index(senses_arr@);
        }
        let sense = match decode_sense(&senses_arr[i], line) {
            Ok(s) => s,
            Err(e) => {
                proof {
                    lemma_first_not_char(sarr.len() as int, okf2);
                    assert(!okf2(i as int));
                    assert forall|k: int| 0 <= k < i implies #[trigger] okf2(k) by {}
                    assert(first_not(sarr.len() as int, okf2) == i as int);
                }
                return Err(e);
            },
        };
        senses.push(sense);
        i = i + 1;
    }
    proof {
        lemma_first_not_char(sarr.len() as int, okf2);
        assert forall|k: int| 0 <= k < sarr.len() implies #[trigger] okf2(k) by {}
        if first_not(sarr.len() as int, okf2) < sarr.len() {
            assert(okf2(first_not(sarr.len() as int, okf2)));
        }
        assert(first_not(sarr.len() as int, okf2) == sarr.len());
    }

    let forms = decode_forms(record, line)?;
    let sounds = decode_sounds(record, line)?;

    let result = RawRecord { word, pos, etymology, expansion, senses, forms, sounds };
    proof {
        assert(result.senses@.map_values(|s: RawSense| sense_view(s)) =~= sense_items(sarr, line));
        assert(sd is Ok && sd->Ok_0 is Some && record_view(result) =~= sd->Ok_0->0);
    }
    Ok(Some(result))
}

} // verus!
