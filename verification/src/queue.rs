//! The Queue Ranker: a paginated, priority-ordered stream of un-blacklisted
//! lemmas.  Each enabled signal (frequency seen, corpus frequency, first
//! occurrence) ranks every eligible lemma; the orderings merge by comparing
//! each lemma's best rank first, then — with all three signals on — the rank
//! that lies strictly between best and worst, then the worst rank, and
//! finally the storage position, which makes the order total and the result
//! deterministic.

use vstd::prelude::*;

use vstd::multiset::Multiset;
use vstd::relations::{sorted_by, total_ordering};
use vstd::seq_lib::group_to_multiset_ensures;
use vstd::seq_lib::lemma_sorted_unique;

use crate::dictionary::WordClass;
use crate::ledger::{Ledger, LemmaRow};
use crate::lexicon::{Lexicon, LexiconV};
use crate::lookup::{lemma_matching_ids_props, matching_ids};
use crate::text::str_eq;

verus! {

/// How many lemmas one queue page holds.
pub const PAGE_SIZE: usize = 200;

/// The ranking keys of one eligible lemma: best, middle and worst weighted
/// rank, and the storage position as the final tie break.
#[derive(Clone, Copy, PartialEq, Eq, Structural, Debug)]
pub struct Score {
    pub smallest: u128,
    pub median: u128,
    pub largest: u128,
    pub idx: usize,
}

/// Whether a class is in the requested set.
pub open spec fn class_listed(classes: Seq<WordClass>, c: WordClass) -> bool {
    exists|k: int| 0 <= k < classes.len() && #[trigger] classes[k] == c
}

/// A ledger row is eligible when it is not blacklisted and, if a class
/// filter is given, some word of the lexicon with the same text has a
/// requested class.
pub open spec fn queue_eligible(
    lv: Seq<LemmaRow>,
    xv: LexiconV,
    classes: Seq<WordClass>,
    i: int,
) -> bool {
    &&& !lv[i].blacklisted
    &&& (classes.len() == 0 || exists|w: int|
        0 <= w < xv.words.len() && (#[trigger] xv.words[w]).word@ == lv[i].lemma@ && class_listed(
            classes,
            xv.words[w].pos,
        ))
}

/// Eligible rows among the first `n`, in storage order.
pub open spec fn eligible_ids_upto(
    lv: Seq<LemmaRow>,
    xv: LexiconV,
    classes: Seq<WordClass>,
    n: int,
) -> Seq<int> {
    matching_ids(n, |i: int| queue_eligible(lv, xv, classes, i))
}

/// All eligible rows, in storage order.
pub open spec fn eligible_ids(lv: Seq<LemmaRow>, xv: LexiconV, classes: Seq<WordClass>) -> Seq<
    int,
> {
    eligible_ids_upto(lv, xv, classes, lv.len() as int)
}

/// Row `j` strictly precedes row `i` in the most-seen-first ordering.
pub open spec fn freq_before(lv: Seq<LemmaRow>, j: int, i: int) -> bool {
    lv[j].frequency > lv[i].frequency || (lv[j].frequency == lv[i].frequency && j < i)
}

/// Corpus-rank key order: a ranked word precedes an unranked one, lower
/// rank first.
pub open spec fn gf_key_lt(a: Option<usize>, b: Option<usize>) -> bool {
    match (a, b) {
        (Some(x), Some(y)) => x < y,
        (Some(_), None) => true,
        (None, _) => false,
    }
}

/// Row `j` strictly precedes row `i` in the corpus-frequency ordering.
pub open spec fn general_before(lv: Seq<LemmaRow>, j: int, i: int) -> bool {
    gf_key_lt(lv[j].general_frequency, lv[i].general_frequency) || (lv[j].general_frequency
        == lv[i].general_frequency && j < i)
}

/// Row `j` strictly precedes row `i` in the first-occurrence ordering.
pub open spec fn occ_before(lv: Seq<LemmaRow>, j: int, i: int) -> bool {
    lv[j].first_occurence < lv[i].first_occurence || (lv[j].first_occurence
        == lv[i].first_occurence && j < i)
}

/// Eligible rows among the first `n` that strictly precede row `i` by
/// frequency.
pub open spec fn freq_rank_ids(
    lv: Seq<LemmaRow>,
    xv: LexiconV,
    classes: Seq<WordClass>,
    i: int,
    n: int,
) -> Seq<int> {
    matching_ids(n, |j: int| queue_eligible(lv, xv, classes, j) && freq_before(lv, j, i))
}

/// Eligible rows among the first `n` that strictly precede row `i` by
/// corpus frequency.
pub open spec fn general_rank_ids(
    lv: Seq<LemmaRow>,
    xv: LexiconV,
    classes: Seq<WordClass>,
    i: int,
    n: int,
) -> Seq<int> {
    matching_ids(n, |j: int| queue_eligible(lv, xv, classes, j) && general_before(lv, j, i))
}

/// Eligible rows among the first `n` that strictly precede row `i` by first
/// occurrence.
pub open spec fn occ_rank_ids(
    lv: Seq<LemmaRow>,
    xv: LexiconV,
    classes: Seq<WordClass>,
    i: int,
    n: int,
) -> Seq<int> {
    matching_ids(n, |j: int| queue_eligible(lv, xv, classes, j) && occ_before(lv, j, i))
}

/// The row number of row `i` under the frequency signal.
pub open spec fn rank_by_frequency(
    lv: Seq<LemmaRow>,
    xv: LexiconV,
    classes: Seq<WordClass>,
    i: int,
) -> nat {
    1 + freq_rank_ids(lv, xv, classes, i, lv.len() as int).len()
}

/// The row number of row `i` under the corpus-frequency signal.
pub open spec fn rank_by_general(
    lv: Seq<LemmaRow>,
    xv: LexiconV,
    classes: Seq<WordClass>,
    i: int,
) -> nat {
    1 + general_rank_ids(lv, xv, classes, i, lv.len() as int).len()
}

/// The row number of row `i` under the first-occurrence signal.
pub open spec fn rank_by_occurrence(
    lv: Seq<LemmaRow>,
    xv: LexiconV,
    classes: Seq<WordClass>,
    i: int,
) -> nat {
    1 + occ_rank_ids(lv, xv, classes, i, lv.len() as int).len()
}

/// Smallest enabled weighted rank.
pub open spec fn enabled_min(f: bool, g: bool, o: bool, wf_: u128, wg: u128, wo: u128) -> u128 {
    let m1 = if f {
        wf_
    } else {
        u128::MAX
    };
    let m2 = if g && wg < m1 {
        wg
    } else {
        m1
    };
    if o && wo < m2 {
        wo
    } else {
        m2
    }
}

/// Largest enabled weighted rank.
pub open spec fn enabled_max(f: bool, g: bool, o: bool, wf_: u128, wg: u128, wo: u128) -> u128 {
    let m1 = if f {
        wf_
    } else {
        0
    };
    let m2 = if g && wg > m1 {
        wg
    } else {
        m1
    };
    if o && wo > m2 {
        wo
    } else {
        m2
    }
}

/// The full ranking key of eligible row `i`.  The frequency and
/// corpus-frequency ranks are doubled and the first-occurrence rank tripled,
/// which keeps the published one-and-a-half weighting of the latter in whole
/// numbers.  The middle key participates only when all three signals are
/// enabled: it is the rank strictly between best and worst, falling back to
/// the worst rank when no rank lies strictly between.
pub open spec fn score_of(
    lv: Seq<LemmaRow>,
    xv: LexiconV,
    classes: Seq<WordClass>,
    f: bool,
    g: bool,
    o: bool,
    i: int,
) -> Score {
    let wf_ = (2 * rank_by_frequency(lv, xv, classes, i)) as u128;
    let wg = (2 * rank_by_general(lv, xv, classes, i)) as u128;
    let wo = (3 * rank_by_occurrence(lv, xv, classes, i)) as u128;
    let smallest = enabled_min(f, g, o, wf_, wg, wo);
    let largest = enabled_max(f, g, o, wf_, wg, wo);
    let median = if f && g && o {
        if smallest < wf_ && wf_ < largest {
            wf_
        } else if smallest < wg && wg < largest {
            wg
        } else if smallest < wo && wo < largest {
            wo
        } else {
            largest
        }
    } else {
        0
    };
    Score { smallest, median, largest, idx: i as usize }
}

/// Lexicographic order on ranking keys; the storage position makes it total
/// and antisymmetric.
pub open spec fn score_le(a: Score, b: Score) -> bool {
    if a.smallest != b.smallest {
        a.smallest < b.smallest
    } else if a.median != b.median {
        a.median < b.median
    } else if a.largest != b.largest {
        a.largest < b.largest
    } else {
        a.idx <= b.idx
    }
}

/// The comparator as a first-class order.
pub open spec fn score_order() -> spec_fn(Score, Score) -> bool {
    |a: Score, b: Score| score_le(a, b)
}

/// The comparator is a total order.
pub proof fn lemma_score_order_total()
    ensures
        total_ordering(score_order()),
{
}

/// The scores of the eligible rows, in storage order.
pub open spec fn queue_scores(
    lv: Seq<LemmaRow>,
    xv: LexiconV,
    classes: Seq<WordClass>,
    f: bool,
    g: bool,
    o: bool,
) -> Seq<Score> {
    eligible_ids(lv, xv, classes).map_values(|i: int| score_of(lv, xv, classes, f, g, o, i))
}

/// Pointwise reading of [`queue_scores`].
pub proof fn lemma_queue_scores_index(
    lv: Seq<LemmaRow>,
    xv: LexiconV,
    classes: Seq<WordClass>,
    f: bool,
    g: bool,
    o: bool,
)
    ensures
        queue_scores(lv, xv, classes, f, g, o).len() == eligible_ids(lv, xv, classes).len(),
        forall|k: int|
            0 <= k < eligible_ids(lv, xv, classes).len() ==> #[trigger] queue_scores(
                lv,
                xv,
                classes,
                f,
                g,
                o,
            )[k] == score_of(lv, xv, classes, f, g, o, eligible_ids(lv, xv, classes)[k]),
{
}

/// The eligible scores, ordered by the comparator.
pub open spec fn queue_sorted(
    lv: Seq<LemmaRow>,
    xv: LexiconV,
    classes: Seq<WordClass>,
    f: bool,
    g: bool,
    o: bool,
) -> Seq<Score> {
    queue_scores(lv, xv, classes, f, g, o).sort_by(score_order())
}

/// The row order the queue presents: storage order when no signal is
/// enabled, else the merged ranking order.
pub open spec fn queue_ids(
    lv: Seq<LemmaRow>,
    xv: LexiconV,
    classes: Seq<WordClass>,
    f: bool,
    g: bool,
    o: bool,
) -> Seq<int> {
    if !f && !g && !o {
        eligible_ids(lv, xv, classes)
    } else {
        queue_sorted(lv, xv, classes, f, g, o).map_values(|sc: Score| sc.idx as int)
    }
}

/// One page of lemma texts out of an ordered row list: rows `start` up to
/// `start + 200`, clipped to the list.
pub open spec fn page_of_ids(lv: Seq<LemmaRow>, ids: Seq<int>, start: int) -> Seq<String> {
    let lo = if start <= ids.len() {
        start
    } else {
        ids.len() as int
    };
    let hi = if start + PAGE_SIZE <= ids.len() {
        start + PAGE_SIZE
    } else {
        ids.len() as int
    };
    ids.subrange(lo, hi).map_values(|i: int| lv[i].lemma)
}

/// Pointwise reading of [`page_of_ids`].
pub proof fn lemma_page_of_ids_index(lv: Seq<LemmaRow>, ids: Seq<int>, start: int)
    requires
        0 <= start,
    ensures
        ({
            let lo = if start <= ids.len() {
                start
            } else {
                ids.len() as int
            };
            let hi = if start + PAGE_SIZE <= ids.len() {
                start + PAGE_SIZE
            } else {
                ids.len() as int
            };
            &&& page_of_ids(lv, ids, start).len() == hi - lo
            &&& forall|k: int|
                0 <= k < hi - lo ==> #[trigger] page_of_ids(lv, ids, start)[k] == lv[ids[lo
                    + k]].lemma
        }),
{
}

/// The queue page starting at `start`.
pub open spec fn spec_queue_page(
    lv: Seq<LemmaRow>,
    xv: LexiconV,
    classes: Seq<WordClass>,
    f: bool,
    g: bool,
    o: bool,
    start: int,
) -> Seq<String> {
    page_of_ids(lv, queue_ids(lv, xv, classes, f, g, o), start)
}

/// Whether a class is in the requested set.
fn class_contains(classes: &Vec<WordClass>, c: WordClass) -> (r: bool)
    ensures
        r == class_listed(classes@, c),
{
    let mut k: usize = 0;
    while k < classes.len()
        invariant
            k <= classes@.len(),
            forall|t: int| 0 <= t < k ==> #[trigger] classes@[t] != c,
        decreases classes@.len() - k,
    {
        if classes[k] == c {
            return true;
        }
        k = k + 1;
    }
    false
}

/// Exec mirror of [`queue_eligible`].
fn is_eligible(ledger: &Ledger, lex: &Lexicon, classes: &Vec<WordClass>, i: usize) -> (r: bool)
    requires
        i < ledger@.lemmas.len(),
    ensures
        r == queue_eligible(ledger@.lemmas, lex@, classes@, i as int),
{
    if ledger.lemmas[i].blacklisted {
        return false;
    }
    if classes.len() == 0 {
        return true;
    }
    let mut w: usize = 0;
    while w < lex.words.len()
        invariant
            i < ledger@.lemmas.len(),
            !ledger@.lemmas[i as int].blacklisted,
            classes@.len() != 0,
            w <= lex@.words.len(),
            forall|t: int|
                0 <= t < w ==> !((#[trigger] lex@.words[t]).word@ == ledger@.lemmas[i as int].lemma@
                    && class_listed(classes@, lex@.words[t].pos)),
        decreases lex@.words.len() - w,
    {
        if str_eq(lex.words[w].word.as_str(), ledger.lemmas[i].lemma.as_str()) && class_contains(
            classes,
            lex.words[w].pos,
        ) {
            proof {
                assert(0 <= w < lex@.words.len() && lex@.words[w as int].word@
                    == ledger@.lemmas[i as int].lemma@ && class_listed(
                    classes@,
                    lex@.words[w as int].pos,
                ));
                assert(!ledger@.lemmas[i as int].blacklisted);
                assert(queue_eligible(ledger@.lemmas, lex@, classes@, i as int));
            }
            return true;
        }
        w = w + 1;
    }
    false
}

/// Exec mirror of [`freq_before`].
fn freq_before_exec(ledger: &Ledger, j: usize, i: usize) -> (r: bool)
    requires
        j < ledger@.lemmas.len(),
        i < ledger@.lemmas.len(),
    ensures
        r == freq_before(ledger@.lemmas, j as int, i as int),
{
    ledger.lemmas[j].frequency > ledger.lemmas[i].frequency || (ledger.lemmas[j].frequency
        == ledger.lemmas[i].frequency && j < i)
}

/// Exec mirror of [`general_before`].
fn general_before_exec(ledger: &Ledger, j: usize, i: usize) -> (r: bool)
    requires
        j < ledger@.lemmas.len(),
        i < ledger@.lemmas.len(),
    ensures
        r == general_before(ledger@.lemmas, j as int, i as int),
{
    let a = &ledger.lemmas[j].general_frequency;
    let b = &ledger.lemmas[i].general_frequency;
    let lt = match (a, b) {
        (Some(x), Some(y)) => *x < *y,
        (Some(_), None) => true,
        (None, _) => false,
    };
    let eq = match (a, b) {
        (Some(x), Some(y)) => *x == *y,
        (None, None) => true,
        _ => false,
    };
    lt || (eq && j < i)
}

/// Exec mirror of [`occ_before`].
fn occ_before_exec(ledger: &Ledger, j: usize, i: usize) -> (r: bool)
    requires
        j < ledger@.lemmas.len(),
        i < ledger@.lemmas.len(),
    ensures
        r == occ_before(ledger@.lemmas, j as int, i as int),
{
    ledger.lemmas[j].first_occurence < ledger.lemmas[i].first_occurence || (
    ledger.lemmas[j].first_occurence == ledger.lemmas[i].first_occurence && j < i)
}

/// How many eligible rows strictly precede row `i` by frequency.
fn count_freq_before(ledger: &Ledger, lex: &Lexicon, classes: &Vec<WordClass>, i: usize) -> (r:
    usize)
    requires
        i < ledger@.lemmas.len(),
    ensures
        r == freq_rank_ids(
            ledger@.lemmas,
            lex@,
            classes@,
            i as int,
            ledger@.lemmas.len() as int,
        ).len(),
{
    let mut count: usize = 0;
    let mut j: usize = 0;
    while j < ledger.lemmas.len()
        invariant
            i < ledger@.lemmas.len(),
            j <= ledger@.lemmas.len(),
            count == freq_rank_ids(ledger@.lemmas, lex@, classes@, i as int, j as int).len(),
            count <= j,
        decreases ledger@.lemmas.len() - j,
    {
        if is_eligible(ledger, lex, classes, j) && freq_before_exec(ledger, j, i) {
            count = count + 1;
        }
        j = j + 1;
    }
    count
}

/// How many eligible rows strictly precede row `i` by corpus frequency.
fn count_general_before(ledger: &Ledger, lex: &Lexicon, classes: &Vec<WordClass>, i: usize) -> (r:
    usize)
    requires
        i < ledger@.lemmas.len(),
    ensures
        r == general_rank_ids(
            ledger@.lemmas,
            lex@,
            classes@,
            i as int,
            ledger@.lemmas.len() as int,
        ).len(),
{
    let mut count: usize = 0;
    let mut j: usize = 0;
    while j < ledger.lemmas.len()
        invariant
            i < ledger@.lemmas.len(),
            j <= ledger@.lemmas.len(),
            count == general_rank_ids(ledger@.lemmas, lex@, classes@, i as int, j as int).len(),
            count <= j,
        decreases ledger@.lemmas.len() - j,
    {
        if is_eligible(ledger, lex, classes, j) && general_before_exec(ledger, j, i) {
            count = count + 1;
        }
        j = j + 1;
    }
    count
}

/// How many eligible rows strictly precede row `i` by first occurrence.
fn count_occ_before(ledger: &Ledger, lex: &Lexicon, classes: &Vec<WordClass>, i: usize) -> (r:
    usize)
    requires
        i < ledger@.lemmas.len(),
    ensures
        r == occ_rank_ids(
            ledger@.lemmas,
            lex@,
            classes@,
            i as int,
            ledger@.lemmas.len() as int,
        ).len(),
{
    let mut count: usize = 0;
    let mut j: usize = 0;
    while j < ledger.lemmas.len()
        invariant
            i < ledger@.lemmas.len(),
            j <= ledger@.lemmas.len(),
            count == occ_rank_ids(ledger@.lemmas, lex@, classes@, i as int, j as int).len(),
            count <= j,
        decreases ledger@.lemmas.len() - j,
    {
        if is_eligible(ledger, lex, classes, j) && occ_before_exec(ledger, j, i) {
            count = count + 1;
        }
        j = j + 1;
    }
    count
}

/// Exec mirror of [`score_of`].
fn compute_score(
    ledger: &Ledger,
    lex: &Lexicon,
    classes: &Vec<WordClass>,
    f: bool,
    g: bool,
    o: bool,
    i: usize,
) -> (r: Score)
    requires
        i < ledger@.lemmas.len(),
    ensures
        r == score_of(ledger@.lemmas, lex@, classes@, f, g, o, i as int),
{
    let cf = count_freq_before(ledger, lex, classes, i);
    let cg = count_general_before(ledger, lex, classes, i);
    let co = count_occ_before(ledger, lex, classes, i);
    let wf_: u128 = 2u128 * (cf as u128) + 2u128;
    let wg: u128 = 2u128 * (cg as u128) + 2u128;
    let wo: u128 = 3u128 * (co as u128) + 3u128;
    let m1: u128 = if f {
        wf_
    } else {
        u128::MAX
    };
    let m2: u128 = if g && wg < m1 {
        wg
    } else {
        m1
    };
    let smallest: u128 = if o && wo < m2 {
        wo
    } else {
        m2
    };
    let x1: u128 = if f {
        wf_
    } else {
        0
    };
    let x2: u128 = if g && wg > x1 {
        wg
    } else {
        x1
    };
    let largest: u128 = if o && wo > x2 {
        wo
    } else {
        x2
    };
    let median: u128 = if f && g && o {
        if smallest < wf_ && wf_ < largest {
            wf_
        } else if smallest < wg && wg < largest {
            wg
        } else if smallest < wo && wo < largest {
            wo
        } else {
            largest
        }
    } else {
        0
    };
    Score { smallest, median, largest, idx: i }
}

/// Exec mirror of [`score_le`].
fn score_le_exec(a: &Score, b: &Score) -> (r: bool)
    ensures
        r == score_le(*a, *b),
{
    if a.smallest != b.smallest {
        a.smallest < b.smallest
    } else if a.median != b.median {
        a.median < b.median
    } else if a.largest != b.largest {
        a.largest < b.largest
    } else {
        a.idx <= b.idx
    }
}

/// Sort scores by the comparator: the result is the unique sorted
/// arrangement of the same multiset of keys.
fn sort_scores(scores: Vec<Score>) -> (r: Vec<Score>)
    ensures
        sorted_by(r@, score_order()),
        r@.to_multiset() == scores@.to_multiset(),
{
    proof {
        broadcast use group_to_multiset_ensures;

    }
    let mut rest = scores;
    let mut out: Vec<Score> = Vec::new();
    proof {
        assert(out@.to_multiset().add(rest@.to_multiset()) =~= scores@.to_multiset());
    }
    while rest.len() > 0
        invariant
            out@.to_multiset().add(rest@.to_multiset()) == scores@.to_multiset(),
            sorted_by(out@, score_order()),
            forall|x: Score, y: Score|
                #[trigger] out@.contains(x) && #[trigger] rest@.contains(y) ==> score_le(x, y),
        decreases rest@.len(),
    {
        let mut m: usize = 0;
        let mut j: usize = 1;
        while j < rest.len()
            invariant
                m < j <= rest@.len() || (j <= rest@.len() && m == 0),
                m < rest@.len(),
                j <= rest@.len(),
                forall|t: int| 0 <= t < j ==> score_le(rest@[m as int], #[trigger] rest@[t]),
            decreases rest@.len() - j,
        {
            if !score_le_exec(&rest[m], &rest[j]) {
                proof {
                    lemma_score_order_total();
                    assert forall|t: int| 0 <= t < j + 1 implies score_le(
                        rest@[j as int],
                        #[trigger] rest@[t],
                    ) by {
                        assert(score_le(rest@[j as int], rest@[m as int]));
                        if t < j {
                            assert(score_le(rest@[m as int], rest@[t]));
                        }
                    }
                }
                m = j;
            }
            j = j + 1;
        }
        let picked = rest[m];
        let ghost pre_rest = rest@;
        let ghost pre_out = out@;
        rest.remove(m);
        out.push(picked);
        proof {
            broadcast use group_to_multiset_ensures;

            assert(rest@ == pre_rest.remove(m as int));
            assert(rest@.to_multiset() =~= pre_rest.to_multiset().remove(picked));
            assert(out@.to_multiset() =~= pre_out.to_multiset().insert(picked));
            assert(pre_rest.to_multiset().contains(picked));
            assert(out@.to_multiset().add(rest@.to_multiset()) =~= scores@.to_multiset());
            // The picked element is a lower bound of everything left.
            assert forall|y: Score| #[trigger] rest@.contains(y) implies score_le(picked, y) by {
                let t = choose|t: int| 0 <= t < rest@.len() && rest@[t] == y;
                if t < m {
                    assert(pre_rest[t] == y);
                } else {
                    assert(pre_rest[t + 1] == y);
                }
            }
            assert forall|x: Score, y: Score|
                #[trigger] out@.contains(x) && #[trigger] rest@.contains(y) implies score_le(
                x,
                y,
            ) by {
                lemma_score_order_total();
                if x == picked {
                } else {
                    assert(pre_out.contains(x));
                    assert(pre_rest.contains(y));
                }
            }
            assert forall|a: int, b: int| 0 <= a < b < out@.len() implies score_order()(
                out@[a],
                out@[b],
            ) by {
                if b == out@.len() - 1 {
                    assert(pre_out.contains(out@[a]));
                    assert(pre_rest.contains(picked));
                } else {
                    assert(out@[a] == pre_out[a] && out@[b] == pre_out[b]);
                }
            }
        }
    }
    proof {
        assert(rest@.to_multiset() =~= Multiset::<Score>::empty());
        assert(out@.to_multiset() =~= scores@.to_multiset());
    }
    out
}

/// One priority-ordered page of the study queue: the eligible, un-blacklisted
/// lemmas (optionally restricted to the requested word classes), ordered by
/// the enabled signals as the merged ranking says, 200 per page, `start`
/// rows skipped.  With no signal enabled the rows come in storage order.
pub fn get_lemmas_queue(
    ledger: &Ledger,
    lex: &Lexicon,
    start: usize,
    by_frequency: bool,
    by_general_frequency: bool,
    by_first_occurence: bool,
    word_classes: &Vec<WordClass>,
) -> (r: Vec<String>)
    ensures
        r@ == spec_queue_page(
            ledger@.lemmas,
            lex@,
            word_classes@,
            by_frequency,
            by_general_frequency,
            by_first_occurence,
            start as int,
        ),
{
    let ghost lv = ledger@.lemmas;
    let ghost xv = lex@;
    let ghost classes = word_classes@;
    let f = by_frequency;
    let g = by_general_frequency;
    let o = by_first_occurence;

    let mut elig: Vec<usize> = Vec::new();
    let mut i: usize = 0;
    while i < ledger.lemmas.len()
        invariant
            lv == ledger@.lemmas,
            xv == lex@,
            classes == word_classes@,
            i <= lv.len(),
            elig@.len() == eligible_ids_upto(lv, xv, classes, i as int).len(),
            forall|k: int|
                0 <= k < elig@.len() ==> (#[trigger] elig@[k]) as int == eligible_ids_upto(
                    lv,
                    xv,
                    classes,
                    i as int,
                )[k],
        decreases lv.len() - i,
    {
        if is_eligible(ledger, lex, word_classes, i) {
            elig.push(i);
        }
        i = i + 1;
    }
    proof {
        lemma_matching_ids_props(
            lv.len() as int,
            |t: int| queue_eligible(lv, xv, classes, t),
        );
    }

    if !f && !g && !o {
        let ghost ids = queue_ids(lv, xv, classes, f, g, o);
        proof {
            lemma_page_of_ids_index(lv, ids, start as int);
        }
        let mut r: Vec<String> = Vec::new();
        let mut k: usize = start;
        while k < elig.len() && k - start < PAGE_SIZE
            invariant
                lv == ledger@.lemmas,
                xv == lex@,
                classes == word_classes@,
                start <= k,
                elig@.len() == ids.len(),
                forall|t: int| 0 <= t < elig@.len() ==> (#[trigger] elig@[t]) as int == ids[t],
                forall|t: int| 0 <= t < ids.len() ==> 0 <= #[trigger] ids[t] < lv.len(),
                ids == queue_ids(lv, xv, classes, f, g, o),
                k <= ids.len() || k == start,
                k - start == r@.len(),
                r@.len() <= PAGE_SIZE,
                forall|t: int|
                    0 <= t < r@.len() ==> (#[trigger] r@[t]) == lv[ids[start + t]].lemma,
            decreases elig@.len() + PAGE_SIZE - k,
        {
            let id = elig[k];
            r.push(ledger.lemmas[id].lemma.clone());
            k = k + 1;
        }
        proof {
            lemma_page_of_ids_index(lv, ids, start as int);
            assert(r@ =~= page_of_ids(lv, ids, start as int));
        }
        return r;
    }

    let mut scores: Vec<Score> = Vec::new();
    let mut k: usize = 0;
    proof {
        lemma_queue_scores_index(lv, xv, classes, f, g, o);
    }
    while k < elig.len()
        invariant
            lv == ledger@.lemmas,
            xv == lex@,
            classes == word_classes@,
            k <= elig@.len(),
            elig@.len() == eligible_ids(lv, xv, classes).len(),
            forall|t: int|
                0 <= t < elig@.len() ==> (#[trigger] elig@[t]) as int == eligible_ids(
                    lv,
                    xv,
                    classes,
                )[t],
            forall|t: int|
                0 <= t < eligible_ids(lv, xv, classes).len() ==> 0 <= #[trigger] eligible_ids(
                    lv,
                    xv,
                    classes,
                )[t] < lv.len(),
            scores@.len() == k,
            forall|t: int|
                0 <= t < k ==> #[trigger] scores@[t] == queue_scores(lv, xv, classes, f, g, o)[t],
        decreases elig@.len() - k,
    {
        let sc = compute_score(ledger, lex, word_classes, f, g, o, elig[k]);
        proof {
            lemma_queue_scores_index(lv, xv, classes, f, g, o);
        }
        scores.push(sc);
        k = k + 1;
    }
    proof {
        assert(scores@ =~= queue_scores(lv, xv, classes, f, g, o));
    }

    let sorted = sort_scores(scores);
    proof {
        lemma_score_order_total();
        queue_scores(lv, xv, classes, f, g, o).lemma_sort_by_ensures(score_order());
        lemma_sorted_unique(
            sorted@,
            queue_scores(lv, xv, classes, f, g, o).sort_by(score_order()),
            score_order(),
        );
        assert(sorted@ == queue_sorted(lv, xv, classes, f, g, o));
    }

    let ghost ids = queue_ids(lv, xv, classes, f, g, o);
    proof {
        assert(ids == queue_sorted(lv, xv, classes, f, g, o).map_values(
            |sc: Score| sc.idx as int,
        ));
        assert(ids.len() == sorted@.len());
        assert forall|t: int| 0 <= t < ids.len() implies #[trigger] ids[t] == sorted@[t].idx
            as int by {
        }
        // Every sorted score stems from an eligible row, so its index is in
        // range.
        broadcast use group_to_multiset_ensures;

        assert forall|t: int| 0 <= t < sorted@.len() implies 0 <= (#[trigger] sorted@[t]).idx
            < lv.len() by {
            assert(sorted@.contains(sorted@[t]));
            assert(sorted@.to_multiset().contains(sorted@[t]));
            assert(queue_scores(lv, xv, classes, f, g, o).contains(sorted@[t]));
            let s0 = choose|s0: int|
                0 <= s0 < queue_scores(lv, xv, classes, f, g, o).len() && queue_scores(
                    lv,
                    xv,
                    classes,
                    f,
                    g,
                    o,
                )[s0] == sorted@[t];
            lemma_queue_scores_index(lv, xv, classes, f, g, o);
            assert(queue_scores(lv, xv, classes, f, g, o)[s0] == score_of(
                lv,
                xv,
                classes,
                f,
                g,
                o,
                eligible_ids(lv, xv, classes)[s0],
            ));
        }
        lemma_page_of_ids_index(lv, ids, start as int);
    }

    let mut r: Vec<String> = Vec::new();
    let mut k: usize = start;
    while k < sorted.len() && k - start < PAGE_SIZE
        invariant
            lv == ledger@.lemmas,
            start <= k,
            ids.len() == sorted@.len(),
            forall|t: int| 0 <= t < ids.len() ==> #[trigger] ids[t] == sorted@[t].idx as int,
            forall|t: int| 0 <= t < sorted@.len() ==> 0 <= (#[trigger] sorted@[t]).idx < lv.len(),
            k <= ids.len() || k == start,
            k - start == r@.len(),
            r@.len() <= PAGE_SIZE,
            forall|t: int| 0 <= t < r@.len() ==> (#[trigger] r@[t]) == lv[ids[start + t]].lemma,
        decreases sorted@.len() + PAGE_SIZE - k,
    {
        let id = sorted[k].idx;
        r.push(ledger.lemmas[id].lemma.clone());
        k = k + 1;
    }
    proof {
        lemma_page_of_ids_index(lv, ids, start as int);
        assert(r@ =~= page_of_ids(lv, ids, start as int));
    }
    r
}

} // verus!
