//! The engine's cross-cutting guarantees, stated and proved over the same
//! specification functions that the executable operations are verified
//! against: what the importer never stores, how the ledger only ever grows,
//! and what the queue can never surface.

use vstd::prelude::*;

use vstd::seq_lib::group_to_multiset_ensures;

use crate::dictionary::{word_class_of, WordClass};
use crate::ledger::{
    sent_views, sentence_count, spec_blacklist, spec_record_form_from, spec_record_tokens_from,
    spec_upsert, lemma_index, lemma_lemma_index_char, lemma_spec_blacklist_index, LedgerV,
    LemmaRow, sat_add, spec_lemmatize_sentences_from, spec_capture_form_from,
    spec_capture_tokens_from,
};
use crate::lemmatize::word_forms_of;
use crate::importer::{spec_import, stream_word_rows};
use crate::lexicon::{
    sense_rows, spec_insert_record, record_applies, lemma_insert_record_props,
    lemma_sense_rows_props, lemma_insert_record_words, LexiconV,
};
use crate::lookup::{
    lemma_matching_ids_props, matching_ids, sense_ids_of, word_ids_of, word_ids_upto,
};
use crate::queue::{
    eligible_ids, queue_eligible, queue_ids, queue_scores, queue_sorted, score_of, score_order,
    spec_queue_page, lemma_queue_scores_index, lemma_score_order_total,
    lemma_page_of_ids_index, PAGE_SIZE,
};
use crate::record::{RawForm, RawRecord, form_survives, is_excluded_form_tag};

verus! {

// ---------------------------------------------------------------------------
// Importer laws.
// ---------------------------------------------------------------------------

/// A dictionary record whose part of speech lies outside the ten word
/// classes creates no row in any table: the store is untouched.
pub proof fn law_unknown_class_creates_nothing(v: LexiconV, rec: RawRecord)
    requires
        word_class_of(rec.pos@) == WordClass::Unknown,
    ensures
        spec_insert_record(v, rec) == v,
{
}

/// A record whose senses are all form-of references creates no row either.
pub proof fn law_form_of_only_creates_nothing(v: LexiconV, rec: RawRecord)
    requires
        crate::record::all_senses_form_of(rec.senses@),
    ensures
        spec_insert_record(v, rec) == v,
{
}

/// A form entry whose tags intersect the template-artifact set never
/// survives the import filter, whatever its source says — and every form
/// row a record creates stems from a surviving entry
/// ([`crate::lexicon::lemma_form_rows_props`] names the witness).
pub proof fn law_template_artifact_forms_dropped(f: RawForm, t: int)
    requires
        f.tags is Some,
        0 <= t < (f.tags->0)@.len(),
        is_excluded_form_tag((f.tags->0)@[t]@),
    ensures
        !form_survives(f),
{
}

/// The positions in `[0, n)` where a predicate flips from all-false to
/// all-true list exactly the true range.
proof fn lemma_matching_ids_range(n: int, pred: spec_fn(int) -> bool, a: int)
    requires
        0 <= a <= n,
        forall|t: int| 0 <= t < a ==> !#[trigger] pred(t),
        forall|t: int| a <= t < n ==> #[trigger] pred(t),
    ensures
        matching_ids(n, pred) == Seq::new((n - a) as nat, |k: int| a + k),
    decreases n,
{
    if n <= 0 {
        assert(matching_ids(n, pred) =~= Seq::new((n - a) as nat, |k: int| a + k));
    } else if n <= a {
        lemma_matching_ids_range(n - 1, pred, n - 1);
        assert(!pred(n - 1));
        assert(matching_ids(n, pred) =~= Seq::new((n - a) as nat, |k: int| a + k));
    } else {
        lemma_matching_ids_range(n - 1, pred, a);
        assert(pred(n - 1));
        assert(matching_ids(n, pred) =~= Seq::new((n - a) as nat, |k: int| a + k));
    }
}

/// Round trip through the store: inserting an applicable record and looking
/// its word up returns the new word's senses as exactly the record's
/// non-form-of senses, one sense row per retained sense, in source order,
/// with strictly ascending `relevance` equal to each sense's original
/// position.
///
/// Concretely: the new word row's id is `w`; it is the last entry the word's
/// text now resolves to; its sense ids are the freshly appended range, whose
/// rows are [`sense_rows`] of the record — and [`lemma_sense_rows_props`]
/// pins their order.  Together with the contract of
/// [`crate::lexicon::Lexicon::read_entries`], whose entries present each
/// word's sense rows in table order, the looked-up entry lists exactly the
/// retained senses, by ascending relevance.
pub proof fn law_import_lookup_round_trip(v: LexiconV, rec: RawRecord)
    requires
        v.wf(),
        record_applies(rec),
        rec.senses@.len() <= usize::MAX,
        spec_insert_record(v, rec).words.len() <= usize::MAX,
        spec_insert_record(v, rec).senses.len() <= usize::MAX,
        spec_insert_record(v, rec).synonyms.len() <= usize::MAX,
        spec_insert_record(v, rec).forms.len() <= usize::MAX,
        spec_insert_record(v, rec).pronunciations.len() <= usize::MAX,
    ensures
        ({
            let w = v.words.len() as int;
            let v2 = spec_insert_record(v, rec);
            let fresh = sense_rows(rec.senses@, v.words.len() as usize, 0);
            &&& v2.wf()
            &&& word_ids_of(v2, rec.word@) == word_ids_upto(v2, rec.word@, w).push(w)
            &&& sense_ids_of(v2, w) == Seq::new(fresh.len(), |k: int| v.senses.len() + k)
            &&& forall|k: int|
                0 <= k < fresh.len() ==> v2.senses[v.senses.len() + k] == #[trigger] fresh[k]
            &&& forall|k: int, l: int|
                0 <= k < l < fresh.len() ==> (#[trigger] fresh[k]).relevance < (
                #[trigger] fresh[l]).relevance
        }),
{
    let w = v.words.len() as int;
    let v2 = spec_insert_record(v, rec);
    let fresh = sense_rows(rec.senses@, v.words.len() as usize, 0);
    lemma_insert_record_props(v, rec);
    lemma_sense_rows_props(rec.senses@, v.words.len() as usize, 0);
    assert(v2.words[w].word == rec.word);
    assert(word_ids_of(v2, rec.word@) =~= word_ids_upto(v2, rec.word@, w).push(w));
    let pred = |i: int| v2.senses[i].word_id as int == w;
    assert forall|t: int| 0 <= t < v.senses.len() implies !#[trigger] pred(t) by {
        assert(v2.senses[t] == v.senses[t]);
        assert(v.senses[t].word_id < v.words.len());
    }
    assert forall|t: int| v.senses.len() <= t < v2.senses.len() implies #[trigger] pred(t) by {
        assert(v2.senses[t] == fresh[t - v.senses.len()]);
    }
    lemma_matching_ids_range(v2.senses.len() as int, pred, v.senses.len() as int);
    assert(sense_ids_of(v2, w) =~= Seq::new(fresh.len(), |k: int| v.senses.len() + k));
}

/// An import creates exactly one word row per applicable record of the
/// stream, in stream order, whatever else each record carries.
pub proof fn law_import_one_word_per_applicable_record(v: LexiconV, recs: Seq<RawRecord>)
    ensures
        spec_import(v, recs).words == v.words + stream_word_rows(recs),
    decreases recs.len(),
{
    if recs.len() == 0 {
        assert(spec_import(v, recs).words =~= v.words + stream_word_rows(recs));
    } else {
        let v1 = spec_insert_record(v, recs[0]);
        lemma_insert_record_words(v, recs[0]);
        law_import_one_word_per_applicable_record(v1, recs.drop_first());
        assert(spec_import(v, recs).words =~= v.words + stream_word_rows(recs));
    }
}

/// In a well-formed store, the sense rows of any word sit in the table in
/// strictly ascending `relevance` order, so lookup — which presents them in
/// table order — lists every entry's senses by ascending relevance.
pub proof fn law_lookup_senses_sorted(v: LexiconV, w: int)
    ensures
        v.wf() ==> forall|k: int, l: int|
            0 <= k < l < sense_ids_of(v, w).len() ==> v.senses[#[trigger] sense_ids_of(v, w)[k]].relevance
                < v.senses[#[trigger] sense_ids_of(v, w)[l]].relevance,
{
    if v.wf() {
        let pred = |i: int| v.senses[i].word_id as int == w;
        lemma_matching_ids_props(v.senses.len() as int, pred);
        assert forall|k: int, l: int|
            0 <= k < l < sense_ids_of(v, w).len() implies v.senses[#[trigger] sense_ids_of(
            v,
            w,
        )[k]].relevance < v.senses[#[trigger] sense_ids_of(v, w)[l]].relevance by {
            let a = sense_ids_of(v, w)[k];
            let b = sense_ids_of(v, w)[l];
            assert(0 <= a < v.senses.len() && pred(a));
            assert(0 <= b < v.senses.len() && pred(b));
            assert(a < b);
        }
    }
}

// ---------------------------------------------------------------------------
// Ledger laws.
// ---------------------------------------------------------------------------

/// The new table extends the old: every existing row keeps its text,
/// blacklist flag, first position and corpus frequency, and its cumulative
/// frequency never shrinks; appended rows start at or above `floor`.
pub open spec fn rows_extended(old_rows: Seq<LemmaRow>, new_rows: Seq<LemmaRow>, floor: usize) -> bool {
    &&& new_rows.len() >= old_rows.len()
    &&& forall|i: int|
        0 <= i < old_rows.len() ==> {
            &&& (#[trigger] new_rows[i]).lemma == old_rows[i].lemma
            &&& new_rows[i].frequency >= old_rows[i].frequency
            &&& new_rows[i].blacklisted == old_rows[i].blacklisted
            &&& new_rows[i].first_occurence == old_rows[i].first_occurence
            &&& new_rows[i].general_frequency == old_rows[i].general_frequency
        }
    &&& forall|i: int|
        old_rows.len() <= i < new_rows.len() ==> (#[trigger] new_rows[i]).first_occurence >= floor
}

/// One upsert extends the table in the sense of [`rows_extended`].
proof fn lemma_upsert_extends(
    ls: Seq<LemmaRow>,
    lemma: String,
    count: usize,
    general: Option<usize>,
    first: usize,
    floor: usize,
)
    requires
        first >= floor,
    ensures
        rows_extended(ls, spec_upsert(ls, lemma, count, general, first), floor),
{
    lemma_lemma_index_char(ls, lemma@);
    let r = spec_upsert(ls, lemma, count, general, first);
    let j = lemma_index(ls, lemma@);
    if j != -1 {
        assert forall|i: int| 0 <= i < ls.len() implies (#[trigger] r[i]).lemma == ls[i].lemma
            && r[i].frequency >= ls[i].frequency && r[i].blacklisted == ls[i].blacklisted
            && r[i].first_occurence == ls[i].first_occurence && r[i].general_frequency
            == ls[i].general_frequency by {
            if i != j {
                assert(r[i] == ls[i]);
            }
        }
    }
}

/// [`rows_extended`] composes.
proof fn lemma_rows_extended_trans(a: Seq<LemmaRow>, b: Seq<LemmaRow>, c: Seq<LemmaRow>, floor: usize)
    requires
        rows_extended(a, b, floor),
        rows_extended(b, c, floor),
    ensures
        rows_extended(a, c, floor),
{
    assert forall|i: int| 0 <= i < a.len() implies (#[trigger] c[i]).lemma == a[i].lemma
        && c[i].frequency >= a[i].frequency && c[i].blacklisted == a[i].blacklisted
        && c[i].first_occurence == a[i].first_occurence && c[i].general_frequency
        == a[i].general_frequency by {
        assert(b[i].lemma == a[i].lemma);
    }
}

/// One form sighting extends the table.
proof fn lemma_record_form_extends(
    ls: Seq<LemmaRow>,
    xv: LexiconV,
    q: Seq<char>,
    count: usize,
    first: usize,
    w: int,
    floor: usize,
)
    requires
        first >= floor,
    ensures
        rows_extended(ls, spec_record_form_from(ls, xv, q, count, first, w), floor),
    decreases xv.words.len() - w,
{
    if w < 0 || w >= xv.words.len() {
    } else {
        let ls1 = if crate::ledger::lemma_candidate(xv, w, q) {
            spec_upsert(ls, xv.words[w].word, count, Some(crate::lexicon::frequency_rank_of(xv, w)), first)
        } else {
            ls
        };
        if crate::ledger::lemma_candidate(xv, w, q) {
            lemma_upsert_extends(
                ls,
                xv.words[w].word,
                count,
                Some(crate::lexicon::frequency_rank_of(xv, w)),
                first,
                floor,
            );
        }
        lemma_record_form_extends(ls1, xv, q, count, first, w + 1, floor);
        lemma_rows_extended_trans(ls, ls1, spec_record_form_from(ls, xv, q, count, first, w), floor);
    }
}

/// Ledger monotonicity: a whole lemmatizer batch only ever raises cumulative
/// frequencies, never touches an existing row's text, blacklist flag, first
/// position or corpus frequency, and every newly created row's first
/// position lies at or above `max0`, the high-water mark the batch started
/// from.
pub proof fn law_ledger_monotonic(
    ls: Seq<LemmaRow>,
    xv: LexiconV,
    toks: Seq<Seq<char>>,
    max0: usize,
    pos: usize,
    k: int,
)
    ensures
        rows_extended(ls, spec_record_tokens_from(ls, xv, toks, max0, pos, k), max0),
    decreases toks.len() - k,
{
    if k < 0 || k >= toks.len() {
    } else {
        let first = sat_add(max0, sat_add(pos, k as usize));
        let ls1 = spec_record_form_from(ls, xv, toks[k], 1, first, 0);
        lemma_record_form_extends(ls, xv, toks[k], 1, first, 0, max0);
        law_ledger_monotonic(ls1, xv, toks, max0, pos, k + 1);
        lemma_rows_extended_trans(
            ls,
            ls1,
            spec_record_tokens_from(ls, xv, toks, max0, pos, k),
            max0,
        );
    }
}

/// Ledger monotonicity holds for sentence-mode batches too.
pub proof fn law_ledger_monotonic_sentences(
    ls: Seq<LemmaRow>,
    sv: Seq<crate::ledger::SentV>,
    xv: LexiconV,
    sents: Seq<Seq<char>>,
    max0: usize,
    pos: usize,
    k: int,
)
    ensures
        rows_extended(
            ls,
            spec_lemmatize_sentences_from(ls, sv, xv, sents, max0, pos, k).0,
            max0,
        ),
    decreases sents.len() - k,
{
    if k < 0 || k >= sents.len() {
    } else {
        let toks = word_forms_of(sents[k]);
        let ls1 = spec_record_tokens_from(ls, xv, toks, max0, pos, 0);
        let sv1 = if 3 <= toks.len() < 20 {
            spec_capture_tokens_from(sv, xv, toks, sents[k], 0)
        } else {
            sv
        };
        law_ledger_monotonic(ls, xv, toks, max0, pos, 0);
        law_ledger_monotonic_sentences(
            ls1,
            sv1,
            xv,
            sents,
            max0,
            sat_add(pos, toks.len() as usize),
            k + 1,
        );
        lemma_rows_extended_trans(
            ls,
            ls1,
            spec_lemmatize_sentences_from(ls, sv, xv, sents, max0, pos, k).0,
            max0,
        );
    }
}

/// Sentence cap and distinctness: in a well-formed ledger every lemma has at
/// most five stored sentences, no (lemma, sentence) pair twice, and every
/// stored sentence's token count lies in [3, 20).
pub proof fn law_sentence_invariants(lv: LedgerV)
    requires
        lv.wf(),
    ensures
        forall|l: Seq<char>| #[trigger] sentence_count(sent_views(lv.sentences), l) <= 5,
        forall|i: int, j: int|
            0 <= i < j < lv.sentences.len() ==> !((#[trigger] lv.sentences[i]).lemma@ == (
            #[trigger] lv.sentences[j]).lemma@ && lv.sentences[i].sentence@
                == lv.sentences[j].sentence@),
        forall|i: int|
            0 <= i < lv.sentences.len() ==> 3 <= word_forms_of(
                (#[trigger] lv.sentences[i]).sentence@,
            ).len() < 20,
{
}

// ---------------------------------------------------------------------------
// Queue laws.
// ---------------------------------------------------------------------------

/// Every row the queue order lists is an eligible row of the ledger.
pub proof fn lemma_queue_ids_eligible(
    lv: Seq<LemmaRow>,
    xv: LexiconV,
    classes: Seq<WordClass>,
    f: bool,
    g: bool,
    o: bool,
)
    requires
        lv.len() <= usize::MAX,
    ensures
        forall|t: int|
            0 <= t < queue_ids(lv, xv, classes, f, g, o).len() ==> {
                let id = #[trigger] queue_ids(lv, xv, classes, f, g, o)[t];
                0 <= id < lv.len() && queue_eligible(lv, xv, classes, id)
            },
{
    broadcast use group_to_multiset_ensures;

    lemma_matching_ids_props(lv.len() as int, |i: int| queue_eligible(lv, xv, classes, i));
    if !f && !g && !o {
    } else {
        let scores = queue_scores(lv, xv, classes, f, g, o);
        let sorted = queue_sorted(lv, xv, classes, f, g, o);
        scores.lemma_sort_by_ensures(score_order());
        lemma_queue_scores_index(lv, xv, classes, f, g, o);
        assert forall|t: int|
            0 <= t < queue_ids(lv, xv, classes, f, g, o).len() implies {
            let id = #[trigger] queue_ids(lv, xv, classes, f, g, o)[t];
            0 <= id < lv.len() && queue_eligible(lv, xv, classes, id)
        } by {
            assert(queue_ids(lv, xv, classes, f, g, o)[t] == sorted[t].idx as int);
            assert(sorted.contains(sorted[t]));
            assert(sorted.to_multiset().contains(sorted[t]));
            assert(scores.contains(sorted[t]));
            let s0 = choose|s0: int| 0 <= s0 < scores.len() && scores[s0] == sorted[t];
            assert(scores[s0] == score_of(
                lv,
                xv,
                classes,
                f,
                g,
                o,
                eligible_ids(lv, xv, classes)[s0],
            ));
            assert(0 <= eligible_ids(lv, xv, classes)[s0] < lv.len());
            assert(sorted[t].idx as int == eligible_ids(lv, xv, classes)[s0]);
        }
    }
}

/// Blacklist exclusion: once a ledger row is blacklisted, its lemma text
/// appears in no queue page, whatever the signals, classes and offset.
pub proof fn law_blacklisted_never_queued(
    lv: Seq<LemmaRow>,
    xv: LexiconV,
    classes: Seq<WordClass>,
    f: bool,
    g: bool,
    o: bool,
    start: int,
    i: int,
)
    requires
        lv.len() <= usize::MAX,
        crate::ledger::lemmas_distinct(lv),
        0 <= i < lv.len(),
        lv[i].blacklisted,
        0 <= start,
    ensures
        forall|k: int|
            0 <= k < spec_queue_page(lv, xv, classes, f, g, o, start).len() ==> (
            #[trigger] spec_queue_page(lv, xv, classes, f, g, o, start)[k])@ != lv[i].lemma@,
{
    let ids = queue_ids(lv, xv, classes, f, g, o);
    lemma_queue_ids_eligible(lv, xv, classes, f, g, o);
    lemma_page_of_ids_index(lv, ids, start);
    let lo = if start <= ids.len() {
        start
    } else {
        ids.len() as int
    };
    assert forall|k: int|
        0 <= k < spec_queue_page(lv, xv, classes, f, g, o, start).len() implies (
    #[trigger] spec_queue_page(lv, xv, classes, f, g, o, start)[k])@ != lv[i].lemma@ by {
        assert(spec_queue_page(lv, xv, classes, f, g, o, start)[k] == lv[ids[lo + k]].lemma);
        let id = ids[lo + k];
        assert(queue_eligible(lv, xv, classes, id));
        assert(!lv[id].blacklisted);
        assert(id != i);
        if id < i {
            assert(lv[id].lemma@ != lv[i].lemma@);
        } else {
            assert(lv[i].lemma@ != lv[id].lemma@);
        }
    }
}

/// Blacklisting marks exactly the named lemma's row and nothing else; in
/// particular the flag only ever turns on.
pub proof fn law_blacklist_only_sets(ls: Seq<LemmaRow>, l: Seq<char>)
    ensures
        spec_blacklist(ls, l).len() == ls.len(),
        forall|i: int|
            0 <= i < ls.len() ==> {
                let r = #[trigger] spec_blacklist(ls, l)[i];
                &&& r.lemma == ls[i].lemma
                &&& r.frequency == ls[i].frequency
                &&& r.general_frequency == ls[i].general_frequency
                &&& r.first_occurence == ls[i].first_occurence
                &&& r.blacklisted == (ls[i].blacklisted || ls[i].lemma@ == l)
            },
{
    lemma_spec_blacklist_index(ls, l);
}

/// Ranking determinism and totality: the queue order lists pairwise distinct
/// ledger rows, so no lemma text repeats across the concatenated pages of
/// one fixed ledger, and the page at a given offset is a pure function of
/// the ledger, lexicon, classes and signals.
pub proof fn law_queue_total_no_duplicates(
    lv: Seq<LemmaRow>,
    xv: LexiconV,
    classes: Seq<WordClass>,
    f: bool,
    g: bool,
    o: bool,
)
    requires
        lv.len() <= usize::MAX,
        crate::ledger::lemmas_distinct(lv),
    ensures
        forall|a: int, b: int|
            0 <= a < b < queue_ids(lv, xv, classes, f, g, o).len() ==> lv[#[trigger] queue_ids(
                lv,
                xv,
                classes,
                f,
                g,
                o,
            )[a]].lemma@ != lv[#[trigger] queue_ids(lv, xv, classes, f, g, o)[b]].lemma@,
{
    broadcast use group_to_multiset_ensures;
    broadcast use vstd::multiset::group_multiset_axioms;

    let ids = queue_ids(lv, xv, classes, f, g, o);
    let elig = eligible_ids(lv, xv, classes);
    lemma_matching_ids_props(lv.len() as int, |i: int| queue_eligible(lv, xv, classes, i));
    lemma_queue_ids_eligible(lv, xv, classes, f, g, o);
    if !f && !g && !o {
        assert forall|a: int, b: int| 0 <= a < b < ids.len() implies lv[#[trigger] ids[a]].lemma@
            != lv[#[trigger] ids[b]].lemma@ by {
            assert(elig[a] < elig[b]);
        }
    } else {
        let scores = queue_scores(lv, xv, classes, f, g, o);
        let sorted = queue_sorted(lv, xv, classes, f, g, o);
        scores.lemma_sort_by_ensures(score_order());
        lemma_queue_scores_index(lv, xv, classes, f, g, o);
        // Scores carry pairwise distinct values, so each appears once in the
        // multiset, on either side of the sort.
        assert forall|x: int, y: int| 0 <= x < y < scores.len() implies #[trigger] scores[x] != (
        #[trigger] scores[y]) by {
            assert(scores[x] == score_of(lv, xv, classes, f, g, o, elig[x]));
            assert(scores[y] == score_of(lv, xv, classes, f, g, o, elig[y]));
            assert(elig[x] < elig[y]);
            assert(0 <= elig[x] < lv.len() && 0 <= elig[y] < lv.len());
            assert(scores[x].idx as int == elig[x]);
            assert(scores[y].idx as int == elig[y]);
        }
        assert(scores.no_duplicates()) by {
            assert forall|x: int, y: int|
                0 <= x < scores.len() && 0 <= y < scores.len() && x != y implies scores[x]
                != scores[y] by {
                if x < y {
                } else {
                }
            }
        }
        scores.lemma_multiset_has_no_duplicates();
        assert forall|a: int, b: int| 0 <= a < b < ids.len() implies lv[#[trigger] ids[a]].lemma@
            != lv[#[trigger] ids[b]].lemma@ by {
            assert(ids[a] == sorted[a].idx as int);
            assert(ids[b] == sorted[b].idx as int);
            if sorted[a] == sorted[b] {
                // The same score value twice would need multiset count two,
                // but every score occurs exactly once.
                assert(sorted.remove(a).to_multiset() =~= sorted.to_multiset().remove(sorted[a]));
                assert(sorted.remove(a).contains(sorted[b])) by {
                    if b < a {
                        assert(sorted.remove(a)[b] == sorted[b]);
                    } else {
                        assert(sorted.remove(a)[b - 1] == sorted[b]);
                    }
                }
                assert(sorted.remove(a).to_multiset().contains(sorted[b]));
                assert(sorted.remove(a).to_multiset().count(sorted[a]) >= 1);
                assert(sorted.to_multiset().count(sorted[a]) >= 2);
                assert(scores.to_multiset().count(sorted[a]) >= 2);
                let xa = choose|x: int| 0 <= x < scores.len() && scores[x] == sorted[a];
                assert(scores.remove(xa).to_multiset() =~= scores.to_multiset().remove(
                    sorted[a],
                ));
                assert(scores.remove(xa).to_multiset().count(sorted[a]) >= 1);
                assert(scores.remove(xa).contains(sorted[a]));
                let xb0 = choose|x: int|
                    0 <= x < scores.remove(xa).len() && scores.remove(xa)[x] == sorted[a];
                let xb = if xb0 < xa {
                    xb0
                } else {
                    xb0 + 1
                };
                assert(scores[xb] == sorted[a]);
                assert(xa != xb);
                assert(scores[xa].idx as int == elig[xa]);
                assert(scores[xb].idx as int == elig[xb]);
                assert(0 <= elig[xa] < lv.len() && 0 <= elig[xb] < lv.len());
                if xa < xb {
                    assert(elig[xa] < elig[xb]);
                } else {
                    assert(elig[xb] < elig[xa]);
                }
                assert(false);
            } else {
                if sorted[a].idx == sorted[b].idx {
                    assert(sorted.to_multiset().contains(sorted[a]));
                    assert(scores.contains(sorted[a]));
                    assert(sorted.to_multiset().contains(sorted[b]));
                    assert(scores.contains(sorted[b]));
                    let xa = choose|x: int| 0 <= x < scores.len() && scores[x] == sorted[a];
                    let xb = choose|x: int| 0 <= x < scores.len() && scores[x] == sorted[b];
                    assert(scores[xa].idx as int == elig[xa]);
                    assert(scores[xb].idx as int == elig[xb]);
                    assert(xa != xb);
                    if xa < xb {
                        assert(elig[xa] < elig[xb]);
                    } else {
                        assert(elig[xb] < elig[xa]);
                    }
                    assert(false);
                }
                assert(ids[a] != ids[b]);
                assert(queue_eligible(lv, xv, classes, ids[a]));
                assert(queue_eligible(lv, xv, classes, ids[b]));
                if ids[a] < ids[b] {
                    assert(lv[ids[a]].lemma@ != lv[ids[b]].lemma@);
                } else {
                    assert(lv[ids[b]].lemma@ != lv[ids[a]].lemma@);
                }
            }
        }
    }
}


/// Pagination never repeats: two pages whose offsets lie a full page apart
/// share no lemma text, so walking the queue page by page (0, 200, 400, …)
/// enumerates each eligible lemma at most once.
pub proof fn law_pages_disjoint(
    lv: Seq<LemmaRow>,
    xv: LexiconV,
    classes: Seq<WordClass>,
    f: bool,
    g: bool,
    o: bool,
    s1: int,
    s2: int,
)
    requires
        lv.len() <= usize::MAX,
        crate::ledger::lemmas_distinct(lv),
        0 <= s1,
        s1 + PAGE_SIZE <= s2,
    ensures
        forall|k1: int, k2: int|
            0 <= k1 < spec_queue_page(lv, xv, classes, f, g, o, s1).len() && 0 <= k2
                < spec_queue_page(lv, xv, classes, f, g, o, s2).len() ==> (
            #[trigger] spec_queue_page(lv, xv, classes, f, g, o, s1)[k1])@ != (
            #[trigger] spec_queue_page(lv, xv, classes, f, g, o, s2)[k2])@,
{
    let ids = queue_ids(lv, xv, classes, f, g, o);
    law_queue_total_no_duplicates(lv, xv, classes, f, g, o);
    lemma_page_of_ids_index(lv, ids, s1);
    lemma_page_of_ids_index(lv, ids, s2);
    assert forall|k1: int, k2: int|
        0 <= k1 < spec_queue_page(lv, xv, classes, f, g, o, s1).len() && 0 <= k2
            < spec_queue_page(lv, xv, classes, f, g, o, s2).len() implies (
    #[trigger] spec_queue_page(lv, xv, classes, f, g, o, s1)[k1])@ != (
    #[trigger] spec_queue_page(lv, xv, classes, f, g, o, s2)[k2])@ by {
        // A non-empty page at offset `s` starts exactly at position `s` of
        // the order, so the first page ends at or before `s2` and the
        // second begins at `s2`.
        assert(s1 <= ids.len() && s2 <= ids.len());
        let p1 = s1 + k1;
        let p2 = s2 + k2;
        assert(spec_queue_page(lv, xv, classes, f, g, o, s1)[k1] == lv[ids[p1]].lemma);
        assert(spec_queue_page(lv, xv, classes, f, g, o, s2)[k2] == lv[ids[p2]].lemma);
        assert(p1 < s1 + PAGE_SIZE <= p2);
        assert(lv[ids[p1]].lemma@ != lv[ids[p2]].lemma@);
    }
}

} // verus!
