//! The dictionary importer: rebuild the Lexicon Store from scratch and
//! populate it from a line-delimited JSON dump, all or nothing.  A record
//! that is merely inapplicable is skipped; a malformed line fails the whole
//! import and leaves the store in its rebuilt, empty state.
//! [`spec_import_outcome`] fixes, for every dump, whether the import
//! succeeds, which records it keeps, and which error it reports.

use vstd::prelude::*;

use crate::error::Error;
use crate::jsonval::{json_of, json_ok};
use crate::lexicon::{spec_insert_record, Lexicon, LexiconV};
use crate::record::{
    decode_record, first_not, lemma_first_not_char, lemma_strs_view_index, record_view,
    spec_decode, strs_view, RawRecord, RecV,
};

verus! {

/// The value of a store with no rows at all.
pub open spec fn empty_lexicon() -> LexiconV {
    LexiconV {
        words: Seq::empty(),
        senses: Seq::empty(),
        examples: Seq::empty(),
        sense_tags: Seq::empty(),
        synonyms: Seq::empty(),
        sense_synonyms: Seq::empty(),
        forms: Seq::empty(),
        form_tags: Seq::empty(),
        pronunciations: Seq::empty(),
        pronunciation_tags: Seq::empty(),
        frequency: Seq::empty(),
    }
}

/// The effect of a whole record stream on a store, record by record.
pub open spec fn spec_import(v: LexiconV, recs: Seq<RawRecord>) -> LexiconV
    decreases recs.len(),
{
    if recs.len() == 0 {
        v
    } else {
        spec_import(spec_insert_record(v, recs[0]), recs.drop_first())
    }
}

/// The word rows a record stream creates: one per applicable record, in
/// stream order.
pub open spec fn stream_word_rows(recs: Seq<RawRecord>) -> Seq<crate::lexicon::WordRow>
    decreases recs.len(),
{
    if recs.len() == 0 {
        Seq::<crate::lexicon::WordRow>::empty()
    } else {
        let head = if crate::lexicon::record_applies(recs[0]) {
            seq![
                (crate::lexicon::WordRow {
                    word: recs[0].word,
                    pos: crate::dictionary::word_class_of(recs[0].pos@),
                    etymology: recs[0].etymology,
                    expansion: recs[0].expansion,
                }),
            ]
        } else {
            Seq::<crate::lexicon::WordRow>::empty()
        };
        head + stream_word_rows(recs.drop_first())
    }
}

/// The text-level views of a record stream.
pub open spec fn recs_view(recs: Seq<RawRecord>) -> Seq<RecV> {
    recs.map_values(|x: RawRecord| record_view(x))
}

/// Pointwise reading of [`recs_view`].
pub proof fn lemma_recs_view_index(recs: Seq<RawRecord>)
    ensures
        recs_view(recs).len() == recs.len(),
        forall|k: int| 0 <= k < recs.len() ==> #[trigger] recs_view(recs)[k] == record_view(
            recs[k],
        ),
{
}

/// Decode of one dump line: a parse failure naming the line, or the record
/// decode of the parsed model.
pub open spec fn spec_decode_line(s: Seq<char>, i: usize) -> Result<Option<RecV>, Error> {
    if !json_ok(s) {
        Err(Error::SerdeFailed { line: i })
    } else {
        spec_decode(json_of(s), i)
    }
}

/// The applicable records of the lines from position `k` on, in dump order.
pub open spec fn collect_recs(lines: Seq<Seq<char>>, k: int) -> Seq<RecV>
    decreases lines.len() - k,
{
    if k < 0 || k >= lines.len() {
        Seq::<RecV>::empty()
    } else {
        let head = match spec_decode_line(lines[k], k as usize) {
            Ok(Some(rv)) => seq![rv],
            _ => Seq::<RecV>::empty(),
        };
        head + collect_recs(lines, k + 1)
    }
}

/// Whole-dump outcome: the first failing line's error — with its category
/// and line number — or every applicable record, in dump order.
pub open spec fn spec_import_outcome(lines: Seq<Seq<char>>) -> Result<Seq<RecV>, Error> {
    let k = first_not(lines.len() as int, |j: int| spec_decode_line(lines[j], j as usize) is Ok);
    if k == lines.len() {
        Ok(collect_recs(lines, 0))
    } else {
        Err(spec_decode_line(lines[k], k as usize)->Err_0)
    }
}

/// Insert a stream of decoded records into the store, in order.
pub fn import_records(lex: &mut Lexicon, recs: &Vec<RawRecord>)
    requires
        old(lex)@.wf(),
    ensures
        final(lex)@ == spec_import(old(lex)@, recs@),
        final(lex)@.wf(),
{
    let ghost orig = lex@;
    proof {
        assert(recs@.skip(0) =~= recs@);
    }
    let mut i: usize = 0;
    while i < recs.len()
        invariant
            i <= recs@.len(),
            lex@.wf(),
            spec_import(lex@, recs@.skip(i as int)) == spec_import(orig, recs@),
        decreases recs@.len() - i,
    {
        let ghost pre = lex@;
        lex.insert_record(&recs[i]);
        proof {
            assert(recs@.skip(i as int).drop_first() =~= recs@.skip(i + 1));
            assert(recs@.skip(i as int)[0] == recs@[i as int]);
            assert(spec_import(pre, recs@.skip(i as int)) == spec_import(
                lex@,
                recs@.skip(i + 1),
            ));
        }
        i = i + 1;
    }
    proof {
        assert(recs@.skip(recs@.len() as int) =~= Seq::<RawRecord>::empty());
    }
}

/// Rebuild the store and import a dictionary dump, one JSON record per line.
///
/// The store is first reset to its freshly-built, empty state.  The call
/// fails exactly when [`spec_import_outcome`] of the line texts does, with
/// that outcome's error — the first malformed line's categorized error —
/// and the store is then observably in its pre-import (empty, rebuilt)
/// state.  On success the store is the [`spec_import`] of records whose
/// text-level content is exactly the outcome's applicable records, in dump
/// order.
pub fn import_dictionary(lex: &mut Lexicon, lines: &Vec<String>) -> (r: Result<(), Error>)
    ensures
        final(lex)@.wf(),
        r is Err ==> final(lex)@ == empty_lexicon(),
        r is Err <==> spec_import_outcome(strs_view(lines@)) is Err,
        r is Err ==> r->Err_0 == spec_import_outcome(strs_view(lines@))->Err_0,
        r is Err ==> (r->Err_0).spec_line() < lines@.len(),
        (r is Err && r->Err_0 is SerdeFailed) ==> !json_ok(
            lines@[(r->Err_0).spec_line() as int]@,
        ),
        (exists|i: int| 0 <= i < lines@.len() && !json_ok((#[trigger] lines@[i])@)) ==> r is Err,
        r is Ok ==> exists|recs: Seq<RawRecord>|
            recs_view(recs) == spec_import_outcome(strs_view(lines@))->Ok_0 && final(lex)@
                == spec_import(empty_lexicon(), recs),
{
    *lex = Lexicon::new();
    proof {
        assert(lex@ =~= empty_lexicon());
        lemma_strs_view_index(lines@);
    }
    let ghost lv = strs_view(lines@);
    let ghost okl = |j: int| spec_decode_line(lv[j], j as usize) is Ok;
    let mut recs: Vec<RawRecord> = Vec::new();
    let mut i: usize = 0;
    proof {
        assert(recs_view(recs@) + collect_recs(lv, 0) =~= collect_recs(lv, 0));
    }
    while i < lines.len()
        invariant
            i <= lines@.len(),
            lex@ == empty_lexicon(),
            lex@.wf(),
            lv == strs_view(lines@),
            lv.len() == lines@.len(),
            okl == (|j: int| spec_decode_line(lv[j], j as usize) is Ok),
            forall|t: int| 0 <= t < i ==> #[trigger] okl(t),
            recs_view(recs@) + collect_recs(lv, i as int) == collect_recs(lv, 0),
        decreases lines@.len() - i,
    {
        proof {
            lemma_strs_view_index(lines@);
        }
        match parse_json_line(lines, i) {
            None => {
                proof {
                    assert(!json_ok(lv[i as int]));
                    assert(!okl(i as int));
                    lemma_first_not_char(lv.len() as int, okl);
                    assert(first_not(lv.len() as int, okl) == i as int);
                }
                return Err(Error::SerdeFailed { line: i });
            },
            Some(value) => {
                match decode_record(&value, i) {
                    Err(e) => {
                        proof {
                            assert(spec_decode_line(lv[i as int], i) == Err::<
                                Option<RecV>,
                                Error,
                            >(e));
                            assert(!okl(i as int));
                            lemma_first_not_char(lv.len() as int, okl);
                            assert(first_not(lv.len() as int, okl) == i as int);
                        }
                        return Err(e);
                    },
                    Ok(None) => {
                        proof {
                            assert(okl(i as int));
                            assert(collect_recs(lv, i as int) == collect_recs(lv, i + 1));
                        }
                    },
                    Ok(Some(rec)) => {
                        proof {
                            assert(okl(i as int));
                            assert(collect_recs(lv, i as int) == seq![record_view(rec)]
                                + collect_recs(lv, i + 1));
                            lemma_recs_view_index(recs@);
                            lemma_recs_view_index(recs@.push(rec));
                            assert(recs_view(recs@.push(rec)) =~= recs_view(recs@).push(
                                record_view(rec),
                            ));
                            assert(recs_view(recs@.push(rec)) + collect_recs(lv, i + 1)
                                =~= recs_view(recs@) + collect_recs(lv, i as int));
                        }
                        recs.push(rec);
                    },
                }
            },
        }
        i = i + 1;
    }
    proof {
        lemma_first_not_char(lv.len() as int, okl);
        if first_not(lv.len() as int, okl) < lv.len() {
            assert(okl(first_not(lv.len() as int, okl)));
        }
        assert(first_not(lv.len() as int, okl) == lv.len());
        assert forall|t: int| 0 <= t < lines@.len() implies json_ok((#[trigger] lines@[t])@) by {
            lemma_strs_view_index(lines@);
            assert(okl(t));
            assert(spec_decode_line(lv[t], t as usize) is Ok);
        }
        assert(collect_recs(lv, lv.len() as int) =~= Seq::<RecV>::empty());
        assert(recs_view(recs@) =~= recs_view(recs@) + collect_recs(lv, lv.len() as int));
        assert(recs_view(recs@) == spec_import_outcome(lv)->Ok_0);
    }
    import_records(lex, &recs);
    Ok(())
}

/// Parse one line of the dump, tying the parsed value to the line's text.
fn parse_json_line(lines: &Vec<String>, i: usize) -> (r: Option<serde_json::Value>)
    requires
        i < lines@.len(),
    ensures
        r is Some <==> json_ok(lines@[i as int]@),
        r is Some ==> crate::jsonval::json_model(r->0) == json_of(lines@[i as int]@),
{
    crate::jsonval::parse_json(lines[i].as_str())
}

} // verus!
