//! The Lemma Ledger: the candidate study queue (one row per distinct lemma
//! text, with cumulative and corpus frequency, first-occurrence position and
//! blacklist flag) and up to five example sentences per lemma.  The
//! lemmatizer feeds it; the queue ranker reads it.

use vstd::prelude::*;

use crate::dictionary::{remove_accents, strip_accents};
use crate::lemmatize::{sentences_of, split_sentences, tokenize, word_forms_of};
use crate::lexicon::{has_frequency, frequency_rank_of, Lexicon, LexiconV};
use crate::lookup::matching_ids;

verus! {

/// The most sentences ever stored for one lemma.
pub const SENTENCE_CAP: usize = 5;

/// A candidate study lemma.
#[derive(Debug, Clone)]
pub struct LemmaRow {
    pub lemma: String,
    /// Times seen in user-supplied text; only ever grows.
    pub frequency: usize,
    /// Corpus rank copied from the lexicon at first sight.
    pub general_frequency: Option<usize>,
    pub blacklisted: bool,
    /// Lowest word position at which the lemma was first seen, offset so
    /// that later batches always start above earlier ones.
    pub first_occurence: usize,
}

/// One example sentence stored for a lemma.
#[derive(Debug, Clone)]
pub struct SentenceRow {
    pub lemma: String,
    pub sentence: String,
}

/// The ledger itself.
#[derive(Debug)]
pub struct Ledger {
    pub lemmas: Vec<LemmaRow>,
    pub sentences: Vec<SentenceRow>,
}

/// Mathematical value of the ledger.
#[verifier::ext_equal]
pub ghost struct LedgerV {
    pub lemmas: Seq<LemmaRow>,
    pub sentences: Seq<SentenceRow>,
}

impl View for Ledger {
    type V = LedgerV;

    open spec fn view(&self) -> LedgerV {
        LedgerV { lemmas: self.lemmas@, sentences: self.sentences@ }
    }
}

/// A sentence row, by text alone.
#[verifier::ext_equal]
pub ghost struct SentV {
    pub lemma: Seq<char>,
    pub sentence: Seq<char>,
}

/// The sentences as plain text pairs.
pub open spec fn sent_views(ss: Seq<SentenceRow>) -> Seq<SentV> {
    ss.map_values(|r: SentenceRow| SentV { lemma: r.lemma@, sentence: r.sentence@ })
}

/// Pointwise reading of [`sent_views`].
pub proof fn lemma_sent_views_index(ss: Seq<SentenceRow>)
    ensures
        sent_views(ss).len() == ss.len(),
        forall|i: int|
            0 <= i < ss.len() ==> #[trigger] sent_views(ss)[i] == (SentV {
                lemma: ss[i].lemma@,
                sentence: ss[i].sentence@,
            }),
{
}

/// How many of the stored sentences belong to the given lemma, among the
/// first `n`.
pub open spec fn sentence_count_upto(sv: Seq<SentV>, l: Seq<char>, n: int) -> nat
    decreases n,
{
    if n <= 0 || n > sv.len() {
        0
    } else {
        sentence_count_upto(sv, l, n - 1) + (if sv[n - 1].lemma == l {
            1nat
        } else {
            0nat
        })
    }
}

/// How many of the stored sentences belong to the given lemma.
pub open spec fn sentence_count(sv: Seq<SentV>, l: Seq<char>) -> nat {
    sentence_count_upto(sv, l, sv.len() as int)
}

/// Whether this exact (lemma, sentence) pair is already stored.
pub open spec fn has_sentence(sv: Seq<SentV>, l: Seq<char>, s: Seq<char>) -> bool {
    exists|j: int| 0 <= j < sv.len() && (#[trigger] sv[j]).lemma == l && sv[j].sentence == s
}

/// Position of the first ledger row holding the given lemma text, or -1.
pub open spec fn lemma_index(ls: Seq<LemmaRow>, l: Seq<char>) -> int
    decreases ls.len(),
{
    if ls.len() == 0 {
        -1
    } else if ls[0].lemma@ == l {
        0
    } else {
        let r = lemma_index(ls.drop_first(), l);
        if r == -1 {
            -1
        } else {
            r + 1
        }
    }
}

/// [`lemma_index`] finds exactly the first matching row.
pub proof fn lemma_lemma_index_char(ls: Seq<LemmaRow>, l: Seq<char>)
    ensures
        ({
            let r = lemma_index(ls, l);
            &&& (r == -1 <==> forall|k: int| 0 <= k < ls.len() ==> (#[trigger] ls[k]).lemma@ != l)
            &&& (r != -1 ==> 0 <= r < ls.len() && ls[r].lemma@ == l && forall|k: int|
                0 <= k < r ==> (#[trigger] ls[k]).lemma@ != l)
        }),
    decreases ls.len(),
{
    if ls.len() == 0 {
    } else if ls[0].lemma@ == l {
    } else {
        lemma_lemma_index_char(ls.drop_first(), l);
        let r0 = lemma_index(ls.drop_first(), l);
        if r0 == -1 {
            assert forall|k: int| 0 <= k < ls.len() implies (#[trigger] ls[k]).lemma@ != l by {
                if k > 0 {
                    assert(ls.drop_first()[k - 1] == ls[k]);
                }
            }
        } else {
            assert(ls.drop_first()[r0] == ls[r0 + 1]);
            assert forall|k: int| 0 <= k < r0 + 1 implies (#[trigger] ls[k]).lemma@ != l by {
                if k > 0 {
                    assert(ls.drop_first()[k - 1] == ls[k]);
                }
            }
        }
    }
}

/// Addition that stops at the top of the machine range instead of wrapping.
pub open spec fn sat_add(a: usize, b: usize) -> usize {
    if a + b <= usize::MAX {
        (a + b) as usize
    } else {
        usize::MAX
    }
}

/// Exec mirror of [`sat_add`].
#[verifier::when_used_as_spec(sat_add)]
pub fn sat_add_exec(a: usize, b: usize) -> (r: usize)
    ensures
        r == sat_add(a, b),
{
    if a <= usize::MAX - b {
        a + b
    } else {
        usize::MAX
    }
}

/// Upsert one sighting of a lemma: an existing row only gains `count` on its
/// cumulative frequency; a new row records the corpus frequency, first
/// position, and starts un-blacklisted.
pub open spec fn spec_upsert(
    ls: Seq<LemmaRow>,
    lemma: String,
    count: usize,
    general: Option<usize>,
    first: usize,
) -> Seq<LemmaRow> {
    let j = lemma_index(ls, lemma@);
    if j != -1 {
        ls.update(j, LemmaRow { frequency: sat_add(ls[j].frequency, count), ..ls[j] })
    } else {
        ls.push(
            LemmaRow {
                lemma,
                frequency: count,
                general_frequency: general,
                blacklisted: false,
                first_occurence: first,
            },
        )
    }
}

/// Whether word `w` of the lexicon resolves the normalized form `q`: it has
/// a corpus frequency row and an inflected form whose accent-stripped
/// spelling is `q`.
pub open spec fn lemma_candidate(xv: LexiconV, w: int, q: Seq<char>) -> bool {
    has_frequency(xv, w) && exists|f: int|
        0 <= f < xv.forms.len() && (#[trigger] xv.forms[f]).word_id as int == w && strip_accents(
            xv.forms[f].form@,
        ) == q
}

/// One (form, position) sighting applied to the lemma table: every matching
/// word of the lexicon, in id order, contributes an upsert of its word text.
pub open spec fn spec_record_form_from(
    ls: Seq<LemmaRow>,
    xv: LexiconV,
    q: Seq<char>,
    count: usize,
    first: usize,
    w: int,
) -> Seq<LemmaRow>
    decreases xv.words.len() - w,
{
    if w < 0 || w >= xv.words.len() {
        ls
    } else {
        let ls1 = if lemma_candidate(xv, w, q) {
            spec_upsert(ls, xv.words[w].word, count, Some(frequency_rank_of(xv, w)), first)
        } else {
            ls
        };
        spec_record_form_from(ls1, xv, q, count, first, w + 1)
    }
}

/// A token stream applied to the lemma table: token `k` counts once and
/// carries absolute position `max0 + pos + k`, saturating at the machine
/// range.
pub open spec fn spec_record_tokens_from(
    ls: Seq<LemmaRow>,
    xv: LexiconV,
    toks: Seq<Seq<char>>,
    max0: usize,
    pos: usize,
    k: int,
) -> Seq<LemmaRow>
    decreases toks.len() - k,
{
    if k < 0 || k >= toks.len() {
        ls
    } else {
        let ls1 = spec_record_form_from(
            ls,
            xv,
            toks[k],
            1,
            sat_add(max0, sat_add(pos, k as usize)),
            0,
        );
        spec_record_tokens_from(ls1, xv, toks, max0, pos, k + 1)
    }
}

/// Store one example sentence for one lemma, unless the lemma already has
/// five or already has this exact sentence.
pub open spec fn spec_capture(sv: Seq<SentV>, l: Seq<char>, s: Seq<char>) -> Seq<SentV> {
    if sentence_count(sv, l) < SENTENCE_CAP && !has_sentence(sv, l, s) {
        sv.push(SentV { lemma: l, sentence: s })
    } else {
        sv
    }
}

/// Offer the sentence to every lemma that resolves the form `q`, in word id
/// order.
pub open spec fn spec_capture_form_from(
    sv: Seq<SentV>,
    xv: LexiconV,
    q: Seq<char>,
    s: Seq<char>,
    w: int,
) -> Seq<SentV>
    decreases xv.words.len() - w,
{
    if w < 0 || w >= xv.words.len() {
        sv
    } else {
        let sv1 = if lemma_candidate(xv, w, q) {
            spec_capture(sv, xv.words[w].word@, s)
        } else {
            sv
        };
        spec_capture_form_from(sv1, xv, q, s, w + 1)
    }
}

/// Offer the sentence through each of its tokens.
pub open spec fn spec_capture_tokens_from(
    sv: Seq<SentV>,
    xv: LexiconV,
    toks: Seq<Seq<char>>,
    s: Seq<char>,
    k: int,
) -> Seq<SentV>
    decreases toks.len() - k,
{
    if k < 0 || k >= toks.len() {
        sv
    } else {
        spec_capture_tokens_from(spec_capture_form_from(sv, xv, toks[k], s, 0), xv, toks, s, k + 1)
    }
}

/// One sentence of a batch: its tokens update the lemma table; the sentence
/// itself is stored only when its token count lies in [3, 20).
pub open spec fn spec_lemmatize_sentences_from(
    ls: Seq<LemmaRow>,
    sv: Seq<SentV>,
    xv: LexiconV,
    sents: Seq<Seq<char>>,
    max0: usize,
    pos: usize,
    k: int,
) -> (Seq<LemmaRow>, Seq<SentV>)
    decreases sents.len() - k,
{
    if k < 0 || k >= sents.len() {
        (ls, sv)
    } else {
        let toks = word_forms_of(sents[k]);
        let ls1 = spec_record_tokens_from(ls, xv, toks, max0, pos, 0);
        let sv1 = if 3 <= toks.len() < 20 {
            spec_capture_tokens_from(sv, xv, toks, sents[k], 0)
        } else {
            sv
        };
        spec_lemmatize_sentences_from(
            ls1,
            sv1,
            xv,
            sents,
            max0,
            sat_add(pos, toks.len() as usize),
            k + 1,
        )
    }
}

/// The highest first-occurrence position among the first `n` rows.
pub open spec fn max_first_upto(ls: Seq<LemmaRow>, n: int) -> usize
    decreases n,
{
    if n <= 0 || n > ls.len() {
        0
    } else {
        let rest = max_first_upto(ls, n - 1);
        if ls[n - 1].first_occurence > rest {
            ls[n - 1].first_occurence
        } else {
            rest
        }
    }
}

/// The highest first-occurrence position stored, 0 for an empty table.
pub open spec fn spec_max_first(ls: Seq<LemmaRow>) -> usize {
    max_first_upto(ls, ls.len() as int)
}

/// Blacklist every row holding the given (already normalized) lemma text.
pub open spec fn spec_blacklist(ls: Seq<LemmaRow>, l: Seq<char>) -> Seq<LemmaRow> {
    ls.map_values(
        |r: LemmaRow| if r.lemma@ == l {
            LemmaRow { blacklisted: true, ..r }
        } else {
            r
        },
    )
}

/// Pointwise reading of [`spec_blacklist`].
pub proof fn lemma_spec_blacklist_index(ls: Seq<LemmaRow>, l: Seq<char>)
    ensures
        spec_blacklist(ls, l).len() == ls.len(),
        forall|i: int|
            0 <= i < ls.len() ==> #[trigger] spec_blacklist(ls, l)[i] == (if ls[i].lemma@ == l {
                LemmaRow { blacklisted: true, ..ls[i] }
            } else {
                ls[i]
            }),
{
}

/// The rows that survive a rebuild that keeps the blacklist.
pub open spec fn blacklisted_rows(ls: Seq<LemmaRow>) -> Seq<LemmaRow>
    decreases ls.len(),
{
    if ls.len() == 0 {
        Seq::<LemmaRow>::empty()
    } else {
        let rest = blacklisted_rows(ls.drop_first());
        if ls[0].blacklisted {
            seq![ls[0]] + rest
        } else {
            rest
        }
    }
}

/// No two ledger rows hold the same lemma text.
pub open spec fn lemmas_distinct(ls: Seq<LemmaRow>) -> bool {
    forall|i: int, j: int|
        0 <= i < j < ls.len() ==> (#[trigger] ls[i]).lemma@ != (#[trigger] ls[j]).lemma@
}

impl LedgerV {
    /// Well-formedness: one row per distinct lemma text; for every lemma at
    /// most five stored sentences and no duplicated (lemma, sentence) pair;
    /// every stored sentence has a token count in [3, 20).
    pub open spec fn wf(self) -> bool {
        &&& lemmas_distinct(self.lemmas)
        &&& forall|l: Seq<char>| #[trigger] sentence_count(sent_views(self.sentences), l) <= 5
        &&& forall|i: int, j: int|
            0 <= i < j < self.sentences.len() ==> !((#[trigger] self.sentences[i]).lemma@ == (
            #[trigger] self.sentences[j]).lemma@ && self.sentences[i].sentence@
                == self.sentences[j].sentence@)
        &&& forall|i: int|
            0 <= i < self.sentences.len() ==> 3 <= word_forms_of(
                (#[trigger] self.sentences[i]).sentence@,
            ).len() < 20
    }
}

/// A prefix count ignores a pushed element.
proof fn lemma_count_upto_push(sv: Seq<SentV>, x: SentV, l: Seq<char>, n: int)
    requires
        0 <= n <= sv.len(),
    ensures
        sentence_count_upto(sv.push(x), l, n) == sentence_count_upto(sv, l, n),
    decreases n,
{
    if n > 0 {
        lemma_count_upto_push(sv, x, l, n - 1);
        assert(sv.push(x)[n - 1] == sv[n - 1]);
    }
}

/// Pushing one sentence raises exactly its own lemma's count by one.
pub proof fn lemma_sentence_count_push(sv: Seq<SentV>, x: SentV, l: Seq<char>)
    ensures
        sentence_count(sv.push(x), l) == sentence_count(sv, l) + (if x.lemma == l {
            1nat
        } else {
            0nat
        }),
{
    lemma_count_upto_push(sv, x, l, sv.len() as int);
    assert(sv.push(x)[sv.len() as int] == x);
}

/// An empty table has no sentences for any lemma.
pub proof fn lemma_sentence_count_empty(sv: Seq<SentV>, l: Seq<char>)
    requires
        sv.len() == 0,
    ensures
        sentence_count(sv, l) == 0,
{
}

/// Sentence ids of one lemma among the first `n` rows, in storage order.
pub open spec fn sentence_row_ids_upto(ss: Seq<SentenceRow>, l: Seq<char>, n: int) -> Seq<int> {
    matching_ids(n, |j: int| ss[j].lemma@ == l)
}

/// All sentence ids of one lemma.
pub open spec fn sentence_row_ids_of(ss: Seq<SentenceRow>, l: Seq<char>) -> Seq<int> {
    sentence_row_ids_upto(ss, l, ss.len() as int)
}

/// Row `k` of [`blacklisted_rows`] stems from a blacklisted row of `ls`.
pub open spec fn row_sourced(ls: Seq<LemmaRow>, k: int) -> bool {
    exists|j: int|
        0 <= j < ls.len() && blacklisted_rows(ls)[k] == ls[j] && (#[trigger] ls[j]).blacklisted
}

/// Every row of [`blacklisted_rows`] is a blacklisted row of the input, and
/// distinct lemma texts stay distinct.
pub proof fn lemma_blacklisted_rows_props(ls: Seq<LemmaRow>)
    ensures
        forall|k: int| 0 <= k < blacklisted_rows(ls).len() ==> #[trigger] row_sourced(ls, k),
        lemmas_distinct(ls) ==> lemmas_distinct(blacklisted_rows(ls)),
    decreases ls.len(),
{
    if ls.len() == 0 {
    } else {
        lemma_blacklisted_rows_props(ls.drop_first());
        let rows = blacklisted_rows(ls);
        let rest = blacklisted_rows(ls.drop_first());
        let base: int = if ls[0].blacklisted {
            1
        } else {
            0
        };
        assert forall|k: int| 0 <= k < blacklisted_rows(ls).len() implies #[trigger] row_sourced(
            ls,
            k,
        ) by {
            if k < base {
                assert(blacklisted_rows(ls)[k] == ls[0] && ls[0].blacklisted);
            } else {
                assert(blacklisted_rows(ls)[k] == rest[k - base]);
                assert(row_sourced(ls.drop_first(), k - base));
                let j0 = choose|j: int|
                    0 <= j < ls.drop_first().len() && blacklisted_rows(ls.drop_first())[k - base]
                        == ls.drop_first()[j] && (#[trigger] ls.drop_first()[j]).blacklisted;
                assert(ls.drop_first()[j0] == ls[j0 + 1]);
                assert(blacklisted_rows(ls)[k] == ls[j0 + 1] && ls[j0 + 1].blacklisted);
            }
        }
        if lemmas_distinct(ls) {
            assert(lemmas_distinct(ls.drop_first())) by {
                assert forall|i: int, j: int|
                    0 <= i < j < ls.drop_first().len() implies (
                #[trigger] ls.drop_first()[i]).lemma@ != (#[trigger] ls.drop_first()[j]).lemma@ by {
                    assert(ls.drop_first()[i] == ls[i + 1]);
                    assert(ls.drop_first()[j] == ls[j + 1]);
                }
            }
            assert forall|i: int, j: int|
                0 <= i < j < rows.len() implies (#[trigger] rows[i]).lemma@ != (
            #[trigger] rows[j]).lemma@ by {
                if i >= base {
                    assert(rows[i] == rest[i - base]);
                    assert(rows[j] == rest[j - base]);
                } else {
                    assert(rows[i] == ls[0]);
                    assert(rows[j] == rest[j - 1]);
                    assert(row_sourced(ls.drop_first(), j - 1));
                    let j0 = choose|t: int|
                        0 <= t < ls.drop_first().len() && blacklisted_rows(ls.drop_first())[j - 1]
                            == ls.drop_first()[t] && (#[trigger] ls.drop_first()[t]).blacklisted;
                    assert(ls.drop_first()[j0] == ls[j0 + 1]);
                    assert(rows[j].lemma@ == ls[j0 + 1].lemma@);
                }
            }
        }
    }
}

impl LemmaRow {
    /// A copy of the row.
    fn duplicate(&self) -> (r: LemmaRow)
        ensures
            r == *self,
    {
        LemmaRow {
            lemma: self.lemma.clone(),
            frequency: self.frequency,
            general_frequency: self.general_frequency,
            blacklisted: self.blacklisted,
            first_occurence: self.first_occurence,
        }
    }
}

/// A positive sentence count has a stored row to show for it.
proof fn lemma_count_pos(sv: Seq<SentV>, l: Seq<char>, n: int)
    requires
        0 <= n <= sv.len(),
        sentence_count_upto(sv, l, n) > 0,
    ensures
        exists|j: int| 0 <= j < n && (#[trigger] sv[j]).lemma == l,
    decreases n,
{
    if n > 0 {
        if sv[n - 1].lemma == l {
        } else {
            lemma_count_pos(sv, l, n - 1);
        }
    }
}

impl Ledger {
    /// Decide [`LedgerV::wf`] at run time, so state produced outside the
    /// library — say, reloaded from disk — can be validated before any
    /// operation that requires it.
    pub fn check_wf(&self) -> (r: bool)
        ensures
            r == self@.wf(),
    {
        let mut i: usize = 0;
        while i < self.lemmas.len()
            invariant
                i <= self@.lemmas.len(),
                forall|a: int, b: int|
                    0 <= a < b < i ==> (#[trigger] self@.lemmas[a]).lemma@ != (
                    #[trigger] self@.lemmas[b]).lemma@,
            decreases self@.lemmas.len() - i,
        {
            let mut j: usize = 0;
            while j < i
                invariant
                    j <= i < self@.lemmas.len(),
                    forall|a: int|
                        0 <= a < j ==> (#[trigger] self@.lemmas[a]).lemma@
                            != self@.lemmas[i as int].lemma@,
                decreases i - j,
            {
                if self.lemmas[j].lemma == self.lemmas[i].lemma {
                    return false;
                }
                j = j + 1;
            }
            i = i + 1;
        }

        let mut i: usize = 0;
        while i < self.sentences.len()
            invariant
                i <= self@.sentences.len(),
                forall|k: int|
                    0 <= k < i ==> sentence_count(
                        sent_views(self@.sentences),
                        (#[trigger] self@.sentences[k]).lemma@,
                    ) <= 5,
                forall|a: int, b: int|
                    0 <= a < b < i ==> !((#[trigger] self@.sentences[a]).lemma@ == (
                    #[trigger] self@.sentences[b]).lemma@ && self@.sentences[a].sentence@
                        == self@.sentences[b].sentence@),
                forall|k: int|
                    0 <= k < i ==> 3 <= word_forms_of(
                        (#[trigger] self@.sentences[k]).sentence@,
                    ).len() < 20,
            decreases self@.sentences.len() - i,
        {
            let c = self.count_for(&self.sentences[i].lemma);
            if c > SENTENCE_CAP {
                return false;
            }
            let forms = tokenize(self.sentences[i].sentence.as_str());
            if forms.len() < 3 || forms.len() >= 20 {
                return false;
            }
            let mut j: usize = 0;
            while j < i
                invariant
                    j <= i < self@.sentences.len(),
                    forall|a: int|
                        0 <= a < j ==> !((#[trigger] self@.sentences[a]).lemma@
                            == self@.sentences[i as int].lemma@ && self@.sentences[a].sentence@
                            == self@.sentences[i as int].sentence@),
                decreases i - j,
            {
                if self.sentences[j].lemma == self.sentences[i].lemma
                    && self.sentences[j].sentence == self.sentences[i].sentence {
                    return false;
                }
                j = j + 1;
            }
            i = i + 1;
        }
        proof {
            let sv = sent_views(self@.sentences);
            lemma_sent_views_index(self@.sentences);
            assert forall|l: Seq<char>| #[trigger] sentence_count(sv, l) <= 5 by {
                if sentence_count(sv, l) > 0 {
                    lemma_count_pos(sv, l, sv.len() as int);
                    let j = choose|j: int| 0 <= j < sv.len() && (#[trigger] sv[j]).lemma == l;
                    assert(self@.sentences[j].lemma@ == l);
                }
            }
        }
        true
    }

    /// An empty ledger: the state after a full rebuild.
    pub fn new() -> (r: Ledger)
        ensures
            r@.lemmas.len() == 0,
            r@.sentences.len() == 0,
            r@.wf(),
    {
        let r = Ledger { lemmas: Vec::new(), sentences: Vec::new() };
        proof {
            assert forall|l: Seq<char>| #[trigger] sentence_count(sent_views(r@.sentences), l)
                <= 5 by {
                lemma_sent_views_index(r@.sentences);
                lemma_sentence_count_empty(sent_views(r@.sentences), l);
            }
        }
        r
    }

    /// The highest first-occurrence position stored so far, 0 when the
    /// table is empty.
    pub fn max_first_occurence(&self) -> (r: usize)
        ensures
            r == spec_max_first(self@.lemmas),
    {
        let mut best: usize = 0;
        let mut j: usize = 0;
        while j < self.lemmas.len()
            invariant
                j <= self@.lemmas.len(),
                best == max_first_upto(self@.lemmas, j as int),
            decreases self@.lemmas.len() - j,
        {
            if self.lemmas[j].first_occurence > best {
                best = self.lemmas[j].first_occurence;
            }
            j = j + 1;
        }
        best
    }

    /// Upsert one sighting of a lemma.
    fn upsert_lemma(&mut self, lemma: &String, count: usize, general: Option<usize>, first: usize)
        ensures
            final(self)@.lemmas == spec_upsert(old(self)@.lemmas, *lemma, count, general, first),
            final(self)@.sentences == old(self)@.sentences,
            lemmas_distinct(old(self)@.lemmas) ==> lemmas_distinct(final(self)@.lemmas),
    {
        let n = self.lemmas.len();
        let mut j: usize = 0;
        while j < n
            invariant
                *self == *old(self),
                n == self@.lemmas.len(),
                j <= n,
                forall|k: int| 0 <= k < j ==> (#[trigger] self@.lemmas[k]).lemma@ != lemma@,
            decreases n - j,
        {
            if self.lemmas[j].lemma == *lemma {
                let f = self.lemmas[j].frequency;
                let nf = sat_add_exec(f, count);
                self.lemmas[j].frequency = nf;
                proof {
                    lemma_lemma_index_char(old(self)@.lemmas, lemma@);
                    assert(lemma_index(old(self)@.lemmas, lemma@) == j as int);
                    assert(self@.lemmas =~= spec_upsert(
                        old(self)@.lemmas,
                        *lemma,
                        count,
                        general,
                        first,
                    ));
                    if lemmas_distinct(old(self)@.lemmas) {
                        assert forall|a: int, b: int|
                            0 <= a < b < self@.lemmas.len() implies (
                        #[trigger] self@.lemmas[a]).lemma@ != (
                        #[trigger] self@.lemmas[b]).lemma@ by {
                            assert(self@.lemmas[a].lemma == old(self)@.lemmas[a].lemma);
                            assert(self@.lemmas[b].lemma == old(self)@.lemmas[b].lemma);
                        }
                    }
                }
                return;
            }
            j = j + 1;
        }
        self.lemmas.push(
            LemmaRow {
                lemma: lemma.clone(),
                frequency: count,
                general_frequency: general,
                blacklisted: false,
                first_occurence: first,
            },
        );
        proof {
            lemma_lemma_index_char(old(self)@.lemmas, lemma@);
            assert(lemma_index(old(self)@.lemmas, lemma@) == -1);
            assert(self@.lemmas =~= spec_upsert(old(self)@.lemmas, *lemma, count, general, first));
            if lemmas_distinct(old(self)@.lemmas) {
                assert forall|a: int, b: int|
                    0 <= a < b < self@.lemmas.len() implies (#[trigger] self@.lemmas[a]).lemma@
                    != (#[trigger] self@.lemmas[b]).lemma@ by {
                    if b == old(self)@.lemmas.len() {
                        assert(self@.lemmas[a] == old(self)@.lemmas[a]);
                    }
                }
            }
        }
    }

    /// One (form, position) sighting: upsert every lemma of the lexicon that
    /// resolves the form.
    fn record_form(&mut self, lex: &Lexicon, q: &String, count: usize, first: usize)
        requires
            lex@.wf(),
        ensures
            final(self)@.lemmas == spec_record_form_from(
                old(self)@.lemmas,
                lex@,
                q@,
                count,
                first,
                0,
            ),
            final(self)@.sentences == old(self)@.sentences,
            lemmas_distinct(old(self)@.lemmas) ==> lemmas_distinct(final(self)@.lemmas),
    {
        let ghost orig = self@.lemmas;
        let mut w: usize = 0;
        while w < lex.words.len()
            invariant
                lex@.wf(),
                w <= lex@.words.len(),
                self@.sentences == old(self)@.sentences,
                spec_record_form_from(self@.lemmas, lex@, q@, count, first, w as int)
                    == spec_record_form_from(orig, lex@, q@, count, first, 0),
                lemmas_distinct(orig) ==> lemmas_distinct(self@.lemmas),
            decreases lex@.words.len() - w,
        {
            let ghost pre = self@.lemmas;
            if lex.has_frequency_row(w) && word_resolves(lex, w, q) {
                let rank = lex.frequency_rank(w);
                self.upsert_lemma(&lex.words[w].word, count, Some(rank), first);
            }
            proof {
                assert(spec_record_form_from(pre, lex@, q@, count, first, w as int)
                    == spec_record_form_from(self@.lemmas, lex@, q@, count, first, w + 1));
            }
            w = w + 1;
        }
    }

    /// How many sentences are stored for a lemma.
    fn count_for(&self, lemma: &String) -> (r: usize)
        ensures
            r == sentence_count(sent_views(self@.sentences), lemma@),
    {
        proof {
            lemma_sent_views_index(self@.sentences);
        }
        let mut c: usize = 0;
        let mut j: usize = 0;
        while j < self.sentences.len()
            invariant
                j <= self@.sentences.len(),
                c <= j,
                c == sentence_count_upto(sent_views(self@.sentences), lemma@, j as int),
            decreases self@.sentences.len() - j,
        {
            proof {
                lemma_sent_views_index(self@.sentences);
            }
            if self.sentences[j].lemma == *lemma {
                c = c + 1;
            }
            j = j + 1;
        }
        c
    }

    /// Whether this exact (lemma, sentence) pair is stored.
    fn has_pair(&self, lemma: &String, sentence: &String) -> (r: bool)
        ensures
            r == has_sentence(sent_views(self@.sentences), lemma@, sentence@),
    {
        proof {
            lemma_sent_views_index(self@.sentences);
        }
        let mut j: usize = 0;
        while j < self.sentences.len()
            invariant
                j <= self@.sentences.len(),
                forall|k: int|
                    0 <= k < j ==> !((#[trigger] self@.sentences[k]).lemma@ == lemma@
                        && self@.sentences[k].sentence@ == sentence@),
            decreases self@.sentences.len() - j,
        {
            if self.sentences[j].lemma == *lemma && self.sentences[j].sentence == *sentence {
                proof {
                    lemma_sent_views_index(self@.sentences);
                    assert(sent_views(self@.sentences)[j as int].lemma == lemma@);
                }
                return true;
            }
            j = j + 1;
        }
        proof {
            lemma_sent_views_index(self@.sentences);
            assert forall|k: int|
                0 <= k < sent_views(self@.sentences).len() implies !((#[trigger] sent_views(
                self@.sentences,
            )[k]).lemma == lemma@ && sent_views(self@.sentences)[k].sentence == sentence@) by {
                assert(sent_views(self@.sentences)[k].lemma == self@.sentences[k].lemma@);
            }
        }
        false
    }

    /// Offer one sentence to one lemma, honoring the cap and the duplicate
    /// check.
    fn capture_one(&mut self, lemma: &String, sentence: &String)
        requires
            3 <= word_forms_of(sentence@).len() < 20,
        ensures
            sent_views(final(self)@.sentences) == spec_capture(
                sent_views(old(self)@.sentences),
                lemma@,
                sentence@,
            ),
            final(self)@.lemmas == old(self)@.lemmas,
            old(self)@.wf() ==> final(self)@.wf(),
    {
        let c = self.count_for(lemma);
        let dup = self.has_pair(lemma, sentence);
        if c < SENTENCE_CAP && !dup {
            self.sentences.push(
                SentenceRow { lemma: lemma.clone(), sentence: sentence.clone() },
            );
            proof {
                lemma_sent_views_index(old(self)@.sentences);
                lemma_sent_views_index(self@.sentences);
                assert(sent_views(self@.sentences) =~= sent_views(old(self)@.sentences).push(
                    SentV { lemma: lemma@, sentence: sentence@ },
                ));
                if old(self)@.wf() {
                    let osv = sent_views(old(self)@.sentences);
                    assert forall|l: Seq<char>| #[trigger] sentence_count(
                        sent_views(self@.sentences),
                        l,
                    ) <= 5 by {
                        lemma_sentence_count_push(
                            osv,
                            SentV { lemma: lemma@, sentence: sentence@ },
                            l,
                        );
                    }
                    assert forall|i: int, j: int|
                        0 <= i < j < self@.sentences.len() implies !((
                    #[trigger] self@.sentences[i]).lemma@ == (
                    #[trigger] self@.sentences[j]).lemma@ && self@.sentences[i].sentence@
                        == self@.sentences[j].sentence@) by {
                        if j == old(self)@.sentences.len() {
                            assert(self@.sentences[i] == old(self)@.sentences[i]);
                            assert(!has_sentence(osv, lemma@, sentence@));
                            assert(osv[i].lemma == old(self)@.sentences[i].lemma@);
                        }
                    }
                    assert(self@.wf());
                }
            }
        }
    }

    /// Offer one sentence through one of its forms: every lemma that
    /// resolves the form may store it.
    fn capture_form(&mut self, lex: &Lexicon, q: &String, sentence: &String)
        requires
            lex@.wf(),
            3 <= word_forms_of(sentence@).len() < 20,
        ensures
            sent_views(final(self)@.sentences) == spec_capture_form_from(
                sent_views(old(self)@.sentences),
                lex@,
                q@,
                sentence@,
                0,
            ),
            final(self)@.lemmas == old(self)@.lemmas,
            old(self)@.wf() ==> final(self)@.wf(),
    {
        let ghost orig = sent_views(self@.sentences);
        let mut w: usize = 0;
        while w < lex.words.len()
            invariant
                lex@.wf(),
                3 <= word_forms_of(sentence@).len() < 20,
                w <= lex@.words.len(),
                self@.lemmas == old(self)@.lemmas,
                spec_capture_form_from(sent_views(self@.sentences), lex@, q@, sentence@, w as int)
                    == spec_capture_form_from(orig, lex@, q@, sentence@, 0),
                old(self)@.wf() ==> self@.wf(),
            decreases lex@.words.len() - w,
        {
            let ghost pre = sent_views(self@.sentences);
            if lex.has_frequency_row(w) && word_resolves(lex, w, q) {
                self.capture_one(&lex.words[w].word, sentence);
            }
            proof {
                assert(spec_capture_form_from(pre, lex@, q@, sentence@, w as int)
                    == spec_capture_form_from(
                    sent_views(self@.sentences),
                    lex@,
                    q@,
                    sentence@,
                    w + 1,
                ));
            }
            w = w + 1;
        }
    }
}

impl Ledger {
    /// Record a token stream against the lemma table: token `k` counts once
    /// at absolute position `max0 + pos + k`.
    fn record_tokens(&mut self, lex: &Lexicon, forms: &Vec<String>, max0: usize, pos: usize)
        requires
            lex@.wf(),
        ensures
            final(self)@.lemmas == spec_record_tokens_from(
                old(self)@.lemmas,
                lex@,
                forms@.map_values(|t: String| t@),
                max0,
                pos,
                0,
            ),
            final(self)@.sentences == old(self)@.sentences,
            lemmas_distinct(old(self)@.lemmas) ==> lemmas_distinct(final(self)@.lemmas),
    {
        let ghost toks = forms@.map_values(|t: String| t@);
        let ghost orig = self@.lemmas;
        let mut k: usize = 0;
        while k < forms.len()
            invariant
                lex@.wf(),
                k <= forms@.len(),
                toks == forms@.map_values(|t: String| t@),
                toks.len() == forms@.len(),
                self@.sentences == old(self)@.sentences,
                spec_record_tokens_from(self@.lemmas, lex@, toks, max0, pos, k as int)
                    == spec_record_tokens_from(orig, lex@, toks, max0, pos, 0),
                lemmas_distinct(orig) ==> lemmas_distinct(self@.lemmas),
            decreases forms@.len() - k,
        {
            let ghost pre = self@.lemmas;
            let first = sat_add_exec(max0, sat_add_exec(pos, k));
            self.record_form(lex, &forms[k], 1, first);
            proof {
                assert(toks[k as int] == forms@[k as int]@);
                assert(spec_record_tokens_from(pre, lex@, toks, max0, pos, k as int)
                    == spec_record_tokens_from(self@.lemmas, lex@, toks, max0, pos, k + 1));
            }
            k = k + 1;
        }
    }

    /// Offer one sentence through all its tokens.
    fn capture_tokens(&mut self, lex: &Lexicon, forms: &Vec<String>, sentence: &String)
        requires
            lex@.wf(),
            3 <= word_forms_of(sentence@).len() < 20,
        ensures
            sent_views(final(self)@.sentences) == spec_capture_tokens_from(
                sent_views(old(self)@.sentences),
                lex@,
                forms@.map_values(|t: String| t@),
                sentence@,
                0,
            ),
            final(self)@.lemmas == old(self)@.lemmas,
            old(self)@.wf() ==> final(self)@.wf(),
    {
        let ghost toks = forms@.map_values(|t: String| t@);
        let ghost orig = sent_views(self@.sentences);
        let mut k: usize = 0;
        while k < forms.len()
            invariant
                lex@.wf(),
                3 <= word_forms_of(sentence@).len() < 20,
                k <= forms@.len(),
                toks == forms@.map_values(|t: String| t@),
                toks.len() == forms@.len(),
                self@.lemmas == old(self)@.lemmas,
                spec_capture_tokens_from(
                    sent_views(self@.sentences),
                    lex@,
                    toks,
                    sentence@,
                    k as int,
                ) == spec_capture_tokens_from(orig, lex@, toks, sentence@, 0),
                old(self)@.wf() ==> self@.wf(),
            decreases forms@.len() - k,
        {
            let ghost pre = sent_views(self@.sentences);
            self.capture_form(lex, &forms[k], sentence);
            proof {
                assert(toks[k as int] == forms@[k as int]@);
                assert(spec_capture_tokens_from(pre, lex@, toks, sentence@, k as int)
                    == spec_capture_tokens_from(
                    sent_views(self@.sentences),
                    lex@,
                    toks,
                    sentence@,
                    k + 1,
                ));
            }
            k = k + 1;
        }
    }

    /// Lemmatize a batch of free text against the lexicon.
    ///
    /// The text is tokenized into lowercased Cyrillic word forms; each form
    /// resolves through the lexicon's inflected forms (by accent-stripped
    /// spelling) to lemmas with a corpus frequency, and each sighting
    /// upserts the lemma's row.  New rows start above every prior batch's
    /// positions.  With `capture_sentences`, the text is first split into
    /// sentences, positions run across them, and a sentence whose token
    /// count lies in [3, 20) is stored (at most five distinct sentences per
    /// lemma).
    pub fn lemmatize(&mut self, lex: &Lexicon, text: &str, capture_sentences: bool)
        requires
            lex@.wf(),
            old(self)@.wf(),
        ensures
            final(self)@.wf(),
            !capture_sentences ==> final(self)@.lemmas == spec_record_tokens_from(
                old(self)@.lemmas,
                lex@,
                word_forms_of(text@),
                spec_max_first(old(self)@.lemmas),
                0,
                0,
            ) && final(self)@.sentences == old(self)@.sentences,
            capture_sentences ==> (final(self)@.lemmas, sent_views(final(self)@.sentences))
                == spec_lemmatize_sentences_from(
                old(self)@.lemmas,
                sent_views(old(self)@.sentences),
                lex@,
                sentences_of(text@),
                spec_max_first(old(self)@.lemmas),
                0,
                0,
            ),
    {
        let max0 = self.max_first_occurence();
        if !capture_sentences {
            let forms = tokenize(text);
            proof {
                assert(forms@.map_values(|t: String| t@) =~= word_forms_of(text@));
            }
            self.record_tokens(lex, &forms, max0, 0);
            return;
        }
        let sentences = split_sentences(text);
        let ghost sents = sentences_of(text@);
        let ghost orig_l = self@.lemmas;
        let ghost orig_s = sent_views(self@.sentences);
        let mut pos: usize = 0;
        let mut s: usize = 0;
        while s < sentences.len()
            invariant
                lex@.wf(),
                self@.wf(),
                s <= sentences@.len(),
                sents == sentences_of(text@),
                sents.len() == sentences@.len(),
                forall|k: int| 0 <= k < sents.len() ==> (#[trigger] sentences@[k])@ == sents[k],
                spec_lemmatize_sentences_from(
                    self@.lemmas,
                    sent_views(self@.sentences),
                    lex@,
                    sents,
                    max0,
                    pos,
                    s as int,
                ) == spec_lemmatize_sentences_from(orig_l, orig_s, lex@, sents, max0, 0, 0),
            decreases sentences@.len() - s,
        {
            let ghost pre_l = self@.lemmas;
            let ghost pre_s = sent_views(self@.sentences);
            let forms = tokenize(sentences[s].as_str());
            proof {
                assert(sentences@[s as int]@ == sents[s as int]);
                assert(forms@.map_values(|t: String| t@) =~= word_forms_of(sents[s as int]));
            }
            self.record_tokens(lex, &forms, max0, pos);
            if 3 <= forms.len() && forms.len() < 20 {
                self.capture_tokens(lex, &forms, &sentences[s]);
            }
            proof {
                let toks = word_forms_of(sents[s as int]);
                assert(spec_lemmatize_sentences_from(
                    pre_l,
                    pre_s,
                    lex@,
                    sents,
                    max0,
                    pos,
                    s as int,
                ) == spec_lemmatize_sentences_from(
                    self@.lemmas,
                    sent_views(self@.sentences),
                    lex@,
                    sents,
                    max0,
                    sat_add(pos, toks.len() as usize),
                    s + 1,
                ));
            }
            pos = sat_add_exec(pos, forms.len());
            s = s + 1;
        }
        proof {
            assert((self@.lemmas, sent_views(self@.sentences)) == spec_lemmatize_sentences_from(
                orig_l,
                orig_s,
                lex@,
                sents,
                max0,
                0,
                0,
            ));
        }
    }

    /// Blacklist a lemma so it never again surfaces in the queue.  The text
    /// is accent-normalized first; a lemma that is not in the ledger is a
    /// no-op.
    pub fn blacklist_lemma(&mut self, lemma: String)
        requires
            old(self)@.wf(),
        ensures
            final(self)@.lemmas == spec_blacklist(old(self)@.lemmas, strip_accents(lemma@)),
            final(self)@.sentences == old(self)@.sentences,
            final(self)@.wf(),
    {
        let normalized = remove_accents(lemma);
        let ghost l = strip_accents(lemma@);
        proof {
            lemma_spec_blacklist_index(old(self)@.lemmas, l);
        }
        let n = self.lemmas.len();
        let mut j: usize = 0;
        while j < n
            invariant
                n == self@.lemmas.len(),
                n == old(self)@.lemmas.len(),
                j <= n,
                normalized@ == l,
                self@.sentences == old(self)@.sentences,
                forall|k: int|
                    0 <= k < j ==> #[trigger] self@.lemmas[k] == spec_blacklist(
                        old(self)@.lemmas,
                        l,
                    )[k],
                forall|k: int| j <= k < n ==> #[trigger] self@.lemmas[k] == old(self)@.lemmas[k],
            decreases n - j,
        {
            if self.lemmas[j].lemma == normalized {
                self.lemmas[j].blacklisted = true;
            }
            proof {
                lemma_spec_blacklist_index(old(self)@.lemmas, l);
            }
            j = j + 1;
        }
        proof {
            lemma_spec_blacklist_index(old(self)@.lemmas, l);
            assert(self@.lemmas =~= spec_blacklist(old(self)@.lemmas, l));
            assert forall|a: int, b: int|
                0 <= a < b < self@.lemmas.len() implies (#[trigger] self@.lemmas[a]).lemma@ != (
            #[trigger] self@.lemmas[b]).lemma@ by {
                assert(self@.lemmas[a].lemma == old(self)@.lemmas[a].lemma
                    || self@.lemmas[a].lemma == old(self)@.lemmas[a].lemma);
                assert(self@.lemmas[a].lemma@ == old(self)@.lemmas[a].lemma@);
                assert(self@.lemmas[b].lemma@ == old(self)@.lemmas[b].lemma@);
            }
            assert(self@.wf());
        }
    }

    /// The stored example sentences of a lemma, in insertion order.
    pub fn get_sentences(&self, lemma: String) -> (r: Vec<String>)
        ensures
            r@.len() == sentence_row_ids_of(self@.sentences, lemma@).len(),
            forall|k: int|
                0 <= k < r@.len() ==> (#[trigger] r@[k])@ == self@.sentences[sentence_row_ids_of(
                    self@.sentences,
                    lemma@,
                )[k]].sentence@,
    {
        let mut r: Vec<String> = Vec::new();
        let mut j: usize = 0;
        while j < self.sentences.len()
            invariant
                j <= self@.sentences.len(),
                r@.len() == sentence_row_ids_upto(self@.sentences, lemma@, j as int).len(),
                forall|k: int|
                    0 <= k < r@.len() ==> (#[trigger] r@[k])@ == self@.sentences[sentence_row_ids_upto(
                        self@.sentences,
                        lemma@,
                        j as int,
                    )[k]].sentence@,
            decreases self@.sentences.len() - j,
        {
            if self.sentences[j].lemma == lemma {
                r.push(self.sentences[j].sentence.clone());
            }
            j = j + 1;
        }
        r
    }

    /// Rebuild the ledger: the sentence table is always cleared; the lemma
    /// table is cleared too unless `keep_blacklist`, which retains exactly
    /// the blacklisted rows.
    pub fn reset(&mut self, keep_blacklist: bool)
        requires
            old(self)@.wf(),
        ensures
            final(self)@.sentences.len() == 0,
            keep_blacklist ==> final(self)@.lemmas == blacklisted_rows(old(self)@.lemmas),
            !keep_blacklist ==> final(self)@.lemmas.len() == 0,
            final(self)@.wf(),
    {
        self.sentences = Vec::new();
        if keep_blacklist {
            let ghost orig = self@.lemmas;
            let mut kept: Vec<LemmaRow> = Vec::new();
            let mut j: usize = 0;
            proof {
                assert(orig.skip(0) =~= orig);
                assert(Seq::<LemmaRow>::empty() + blacklisted_rows(orig) =~= blacklisted_rows(
                    orig,
                ));
            }
            while j < self.lemmas.len()
                invariant
                    j <= self@.lemmas.len(),
                    self@.lemmas == orig,
                    kept@ + blacklisted_rows(orig.skip(j as int)) == blacklisted_rows(orig),
                decreases self@.lemmas.len() - j,
            {
                proof {
                    assert(orig.skip(j as int).drop_first() =~= orig.skip(j + 1));
                    assert(orig.skip(j as int)[0] == orig[j as int]);
                }
                if self.lemmas[j].blacklisted {
                    kept.push(self.lemmas[j].duplicate());
                    proof {
                        assert(kept@ + blacklisted_rows(orig.skip(j + 1)) =~= blacklisted_rows(
                            orig,
                        ));
                    }
                } else {
                    proof {
                        assert(kept@ + blacklisted_rows(orig.skip(j + 1)) =~= blacklisted_rows(
                            orig,
                        ));
                    }
                }
                j = j + 1;
            }
            proof {
                assert(blacklisted_rows(orig.skip(orig.len() as int)) =~= Seq::<
                    LemmaRow,
                >::empty());
                assert(kept@ =~= blacklisted_rows(orig));
                lemma_blacklisted_rows_props(orig);
            }
            self.lemmas = kept;
        } else {
            self.lemmas = Vec::new();
        }
        proof {
            assert forall|l: Seq<char>| #[trigger] sentence_count(sent_views(self@.sentences), l)
                <= 5 by {
                lemma_sent_views_index(self@.sentences);
                lemma_sentence_count_empty(sent_views(self@.sentences), l);
            }
            assert(self@.wf());
        }
    }
}

/// Whether word `w` of the lexicon has an inflected form whose
/// accent-stripped spelling is `q`.
fn word_resolves(lex: &Lexicon, w: usize, q: &String) -> (r: bool)
    ensures
        r == (exists|f: int|
            0 <= f < lex@.forms.len() && (#[trigger] lex@.forms[f]).word_id as int == w as int
                && strip_accents(lex@.forms[f].form@) == q@),
{
    let mut f: usize = 0;
    while f < lex.forms.len()
        invariant
            f <= lex@.forms.len(),
            forall|k: int|
                0 <= k < f ==> !((#[trigger] lex@.forms[k]).word_id as int == w as int
                    && strip_accents(lex@.forms[k].form@) == q@),
        decreases lex@.forms.len() - f,
    {
        if lex.forms[f].word_id == w {
            let normalized = remove_accents(lex.forms[f].form.clone());
            if normalized == *q {
                return true;
            }
        }
        f = f + 1;
    }
    false
}

} // verus!
