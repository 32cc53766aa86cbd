//! Turning free text into word forms: everything outside the Russian
//! alphabet (and ё) separates tokens, tokens are lowercased, and an optional
//! sentence pass cuts the text into sentences — a run of characters up to a
//! terminal `.?!…` group with any trailing closing guillemets — before
//! tokenizing each sentence separately.

use vstd::prelude::*;

use crate::text::{chars_to_string, str_chars};

verus! {

/// A letter of the Russian alphabet block used by the tokenizer: А..я plus
/// both cases of ё.
pub open spec fn is_russian_letter(c: char) -> bool {
    (0x410 <= c as u32 && c as u32 <= 0x44F) || c as u32 == 0x451 || c as u32 == 0x401
}

/// Exec mirror of [`is_russian_letter`].
#[verifier::when_used_as_spec(is_russian_letter)]
pub fn russian_letter(c: char) -> (r: bool)
    ensures
        r == is_russian_letter(c),
{
    (0x410 <= c as u32 && c as u32 <= 0x44F) || c as u32 == 0x451 || c as u32 == 0x401
}

/// Lowercase of one Russian letter; anything else passes through.
pub open spec fn lower_char(c: char) -> char {
    match c {
        'А' => 'а',
        'Б' => 'б',
        'В' => 'в',
        'Г' => 'г',
        'Д' => 'д',
        'Е' => 'е',
        'Ж' => 'ж',
        'З' => 'з',
        'И' => 'и',
        'Й' => 'й',
        'К' => 'к',
        'Л' => 'л',
        'М' => 'м',
        'Н' => 'н',
        'О' => 'о',
        'П' => 'п',
        'Р' => 'р',
        'С' => 'с',
        'Т' => 'т',
        'У' => 'у',
        'Ф' => 'ф',
        'Х' => 'х',
        'Ц' => 'ц',
        'Ч' => 'ч',
        'Ш' => 'ш',
        'Щ' => 'щ',
        'Ъ' => 'ъ',
        'Ы' => 'ы',
        'Ь' => 'ь',
        'Э' => 'э',
        'Ю' => 'ю',
        'Я' => 'я',
        'Ё' => 'ё',
        _ => c,
    }
}

/// Exec mirror of [`lower_char`].
#[verifier::when_used_as_spec(lower_char)]
pub fn lower_char_exec(c: char) -> (r: char)
    ensures
        r == lower_char(c),
{
    match c {
        'А' => 'а',
        'Б' => 'б',
        'В' => 'в',
        'Г' => 'г',
        'Д' => 'д',
        'Е' => 'е',
        'Ж' => 'ж',
        'З' => 'з',
        'И' => 'и',
        'Й' => 'й',
        'К' => 'к',
        'Л' => 'л',
        'М' => 'м',
        'Н' => 'н',
        'О' => 'о',
        'П' => 'п',
        'Р' => 'р',
        'С' => 'с',
        'Т' => 'т',
        'У' => 'у',
        'Ф' => 'ф',
        'Х' => 'х',
        'Ц' => 'ц',
        'Ч' => 'ч',
        'Ш' => 'ш',
        'Щ' => 'щ',
        'Ъ' => 'ъ',
        'Ы' => 'ы',
        'Ь' => 'ь',
        'Э' => 'э',
        'Ю' => 'ю',
        'Я' => 'я',
        'Ё' => 'ё',
        _ => c,
    }
}

/// A sequence of characters, lowercased letterwise.
pub open spec fn lower_seq(t: Seq<char>) -> Seq<char> {
    t.map_values(|c: char| lower_char(c))
}

/// Pointwise reading of [`lower_seq`].
pub proof fn lemma_lower_seq_index(t: Seq<char>)
    ensures
        lower_seq(t).len() == t.len(),
        forall|i: int| 0 <= i < t.len() ==> #[trigger] lower_seq(t)[i] == lower_char(t[i]),
{
}

/// Length of the run of Russian letters at the head of `s`.
pub open spec fn run_len(s: Seq<char>) -> nat
    decreases s.len(),
{
    if s.len() == 0 || !is_russian_letter(s[0]) {
        0
    } else {
        1 + run_len(s.drop_first())
    }
}

/// The run at the head of a letter-led sequence is never empty.
pub proof fn lemma_run_len_pos(s: Seq<char>)
    requires
        s.len() > 0,
        is_russian_letter(s[0]),
    ensures
        1 <= run_len(s) <= s.len(),
    decreases s.len(),
{
    let d = s.drop_first();
    if d.len() > 0 && is_russian_letter(d[0]) {
        lemma_run_len_pos(d);
    } else {
        assert(run_len(d) == 0);
    }
    assert(run_len(s) == 1 + run_len(d));
}

/// The maximal runs of Russian letters in `s`, in order, not yet lowercased.
pub open spec fn tokens_of(s: Seq<char>) -> Seq<Seq<char>>
    decreases s.len(),
    via tokens_of_dec
{
    if s.len() == 0 {
        Seq::<Seq<char>>::empty()
    } else if !is_russian_letter(s[0]) {
        tokens_of(s.drop_first())
    } else {
        seq![s.take(run_len(s) as int)] + tokens_of(s.skip(run_len(s) as int))
    }
}

#[via_fn]
proof fn tokens_of_dec(s: Seq<char>) {
    if s.len() > 0 && is_russian_letter(s[0]) {
        lemma_run_len_pos(s);
    }
}

/// The word forms of a text: its tokens, lowercased.
pub open spec fn word_forms_of(s: Seq<char>) -> Seq<Seq<char>> {
    tokens_of(s).map_values(|t: Seq<char>| lower_seq(t))
}

/// Pointwise reading of [`word_forms_of`].
pub proof fn lemma_word_forms_index(s: Seq<char>)
    ensures
        word_forms_of(s).len() == tokens_of(s).len(),
        forall|i: int|
            0 <= i < tokens_of(s).len() ==> #[trigger] word_forms_of(s)[i] == lower_seq(
                tokens_of(s)[i],
            ),
{
}

/// A run of letters bounded on both sides is exactly the head run.
proof fn lemma_run_len_exact(s: Seq<char>, m: int)
    requires
        0 <= m <= s.len(),
        forall|t: int| 0 <= t < m ==> is_russian_letter(#[trigger] s[t]),
        m == s.len() || !is_russian_letter(s[m]),
    ensures
        run_len(s) == m,
    decreases m,
{
    if m == 0 {
    } else {
        assert(is_russian_letter(s[0]));
        assert forall|t: int| 0 <= t < m - 1 implies is_russian_letter(
            #[trigger] s.drop_first()[t],
        ) by {
            assert(s.drop_first()[t] == s[t + 1]);
        }
        if m < s.len() {
            assert(s.drop_first()[m - 1] == s[m]);
        }
        lemma_run_len_exact(s.drop_first(), m - 1);
    }
}

/// Tokenize a text into lowercased word forms: maximal runs of Russian
/// letters, with every other character acting as a separator.
pub fn tokenize(text: &str) -> (r: Vec<String>)
    ensures
        r@.len() == word_forms_of(text@).len(),
        forall|k: int| 0 <= k < r@.len() ==> (#[trigger] r@[k])@ == word_forms_of(text@)[k],
{
    let chars = str_chars(text);
    let n = chars.len();
    let mut out: Vec<String> = Vec::new();
    let mut i: usize = 0;
    proof {
        lemma_word_forms_index(chars@);
        assert(chars@.skip(0) =~= chars@);
        assert(tokens_of(chars@).skip(0) =~= tokens_of(chars@));
    }
    while i < n
        invariant
            n == chars@.len(),
            i <= n,
            tokens_of(chars@.skip(i as int)) == tokens_of(chars@).skip(out@.len() as int),
            out@.len() <= tokens_of(chars@).len(),
            forall|k: int|
                0 <= k < out@.len() ==> (#[trigger] out@[k])@ == lower_seq(tokens_of(chars@)[k]),
        decreases n - i,
    {
        if !russian_letter(chars[i]) {
            proof {
                assert(chars@.skip(i as int).drop_first() =~= chars@.skip(i + 1));
            }
            i = i + 1;
        } else {
            let start = i;
            let mut cur: Vec<char> = Vec::new();
            let mut j: usize = i;
            proof {
                assert(chars@.subrange(i as int, i as int) =~= Seq::<char>::empty());
                assert(lower_seq(Seq::<char>::empty()) =~= Seq::<char>::empty());
            }
            while j < n && russian_letter(chars[j])
                invariant
                    n == chars@.len(),
                    start <= j <= n,
                    start == i,
                    i < n,
                    cur@ == lower_seq(chars@.subrange(start as int, j as int)),
                    forall|t: int|
                        start <= t < j ==> is_russian_letter(#[trigger] chars@[t]),
                decreases n - j,
            {
                cur.push(lower_char_exec(chars[j]));
                proof {
                    lemma_lower_seq_index(chars@.subrange(start as int, j as int));
                    lemma_lower_seq_index(chars@.subrange(start as int, j + 1));
                    assert(lower_seq(chars@.subrange(start as int, j + 1)) =~= lower_seq(
                        chars@.subrange(start as int, j as int),
                    ).push(lower_char(chars@[j as int])));
                }
                j = j + 1;
            }
            let token = chars_to_string(&cur);
            proof {
                let rest = chars@.skip(i as int);
                assert forall|t: int| 0 <= t < j - i implies is_russian_letter(
                    #[trigger] rest[t],
                ) by {
                    assert(rest[t] == chars@[i + t]);
                }
                if j < n {
                    assert(rest[j - i] == chars@[j as int]);
                }
                lemma_run_len_exact(rest, j - i);
                assert(rest.take(j - i) =~= chars@.subrange(i as int, j as int));
                assert(rest.skip(j - i) =~= chars@.skip(j as int));
                // tokens_of(rest) unfolds to the collected run plus the rest.
                assert(tokens_of(rest) == seq![chars@.subrange(i as int, j as int)] + tokens_of(
                    chars@.skip(j as int),
                ));
                let full = tokens_of(chars@);
                let done = out@.len() as int;
                assert(full.skip(done) == tokens_of(rest));
                assert(full.skip(done).len() >= 1);
                assert(full.skip(done)[0] == full[done]);
                assert(full[done] == chars@.subrange(i as int, j as int));
                assert(token@ == lower_seq(full[done]));
                assert(full.skip(done).drop_first() =~= full.skip(done + 1));
                assert(tokens_of(chars@.skip(j as int)) == full.skip(done + 1));
            }
            out.push(token);
            i = j;
        }
    }
    proof {
        assert(chars@.skip(n as int) =~= Seq::<char>::empty());
        assert(tokens_of(chars@).skip(out@.len() as int) =~= Seq::<Seq<char>>::empty());
        lemma_word_forms_index(chars@);
    }
    out
}

// ---------------------------------------------------------------------------
// Sentence splitting.
// ---------------------------------------------------------------------------

/// Unicode whitespace, as the sentence scanner's separator class.
pub open spec fn is_sentence_space(c: char) -> bool {
    ||| (0x09 <= c as u32 && c as u32 <= 0x0D)
    ||| c as u32 == 0x20
    ||| c as u32 == 0x85
    ||| c as u32 == 0xA0
    ||| c as u32 == 0x1680
    ||| (0x2000 <= c as u32 && c as u32 <= 0x200A)
    ||| c as u32 == 0x2028
    ||| c as u32 == 0x2029
    ||| c as u32 == 0x202F
    ||| c as u32 == 0x205F
    ||| c as u32 == 0x3000
}

/// Exec mirror of [`is_sentence_space`].
#[verifier::when_used_as_spec(is_sentence_space)]
pub fn sentence_space(c: char) -> (r: bool)
    ensures
        r == is_sentence_space(c),
{
    (0x09 <= c as u32 && c as u32 <= 0x0D) || c as u32 == 0x20 || c as u32 == 0x85 || c as u32
        == 0xA0 || c as u32 == 0x1680 || (0x2000 <= c as u32 && c as u32 <= 0x200A) || c as u32
        == 0x2028 || c as u32 == 0x2029 || c as u32 == 0x202F || c as u32 == 0x205F || c as u32
        == 0x3000
}

/// A sentence terminator.
pub open spec fn is_terminator(c: char) -> bool {
    c == '.' || c == '?' || c == '!' || c == '…'
}

/// Exec mirror of [`is_terminator`].
#[verifier::when_used_as_spec(is_terminator)]
pub fn terminator(c: char) -> (r: bool)
    ensures
        r == is_terminator(c),
{
    c == '.' || c == '?' || c == '!' || c == '…'
}

/// Characters that end the body of a sentence: line breaks and terminators.
pub open spec fn is_body_break(c: char) -> bool {
    (0x09 <= c as u32 && c as u32 <= 0x0D) || is_terminator(c)
}

/// Exec mirror of [`is_body_break`].
#[verifier::when_used_as_spec(is_body_break)]
pub fn body_break(c: char) -> (r: bool)
    ensures
        r == is_body_break(c),
{
    (0x09 <= c as u32 && c as u32 <= 0x0D) || terminator(c)
}

/// A character at which a sentence may begin.
pub open spec fn is_sentence_start(c: char) -> bool {
    !is_sentence_space(c) && c != '»' && c != '—'
}

/// Exec mirror of [`is_sentence_start`].
#[verifier::when_used_as_spec(is_sentence_start)]
pub fn sentence_start(c: char) -> (r: bool)
    ensures
        r == is_sentence_start(c),
{
    !sentence_space(c) && c != '»' && c != '—'
}

/// First position at or after `j` that breaks a sentence body.
pub open spec fn body_end(s: Seq<char>, j: int) -> int
    decreases s.len() - j,
{
    if j < 0 || j >= s.len() {
        s.len() as int
    } else if is_body_break(s[j]) {
        j
    } else {
        body_end(s, j + 1)
    }
}

/// End of the run of terminators starting at `j`.
pub open spec fn term_end(s: Seq<char>, j: int) -> int
    decreases s.len() - j,
{
    if j < 0 || j >= s.len() {
        s.len() as int
    } else if is_terminator(s[j]) {
        term_end(s, j + 1)
    } else {
        j
    }
}

/// End of the run of closing guillemets starting at `j`.
pub open spec fn trail_end(s: Seq<char>, j: int) -> int
    decreases s.len() - j,
{
    if j < 0 || j >= s.len() {
        s.len() as int
    } else if s[j] == '»' {
        trail_end(s, j + 1)
    } else {
        j
    }
}

/// Where the sentence starting at `i` ends, or -1 when no sentence starts
/// there: the body runs to the first break, at least one terminator must
/// follow, and trailing guillemets are included.
pub open spec fn sentence_end_at(s: Seq<char>, i: int) -> int {
    let b = body_end(s, i + 1);
    let t = term_end(s, b);
    if t == b {
        -1
    } else {
        trail_end(s, t)
    }
}

/// The sentences found scanning from position `i`.
pub open spec fn sentences_from(s: Seq<char>, i: int) -> Seq<Seq<char>>
    decreases s.len() - i,
{
    if i < 0 || i >= s.len() {
        Seq::<Seq<char>>::empty()
    } else if !is_sentence_start(s[i]) {
        sentences_from(s, i + 1)
    } else {
        let e = sentence_end_at(s, i);
        if e == -1 {
            sentences_from(s, i + 1)
        } else if e <= i || e > s.len() {
            Seq::<Seq<char>>::empty()
        } else {
            seq![s.subrange(i, e)] + sentences_from(s, e)
        }
    }
}

/// The sentences of a text, leftmost first, non-overlapping.
pub open spec fn sentences_of(s: Seq<char>) -> Seq<Seq<char>> {
    sentences_from(s, 0)
}

/// Bounds of [`body_end`], [`term_end`] and [`trail_end`], and hence of a
/// sentence match: the end lies strictly beyond the start.
proof fn lemma_scan_bounds(s: Seq<char>, j: int)
    requires
        0 <= j <= s.len(),
    ensures
        j <= body_end(s, j) <= s.len(),
        j <= term_end(s, j) <= s.len(),
        j <= trail_end(s, j) <= s.len(),
    decreases s.len() - j,
{
    if j < s.len() {
        lemma_scan_bounds(s, j + 1);
    }
}

/// Exec scan for [`body_end`].
fn find_body_end(chars: &Vec<char>, j: usize) -> (r: usize)
    requires
        j <= chars@.len(),
    ensures
        r == body_end(chars@, j as int),
        j <= r <= chars@.len(),
    decreases chars@.len() - j,
{
    if j == chars.len() {
        return j;
    }
    if body_break(chars[j]) {
        return j;
    }
    find_body_end(chars, j + 1)
}

/// Exec scan for [`term_end`].
fn find_term_end(chars: &Vec<char>, j: usize) -> (r: usize)
    requires
        j <= chars@.len(),
    ensures
        r == term_end(chars@, j as int),
        j <= r <= chars@.len(),
    decreases chars@.len() - j,
{
    if j == chars.len() {
        return j;
    }
    if terminator(chars[j]) {
        return find_term_end(chars, j + 1);
    }
    j
}

/// Exec scan for [`trail_end`].
fn find_trail_end(chars: &Vec<char>, j: usize) -> (r: usize)
    requires
        j <= chars@.len(),
    ensures
        r == trail_end(chars@, j as int),
        j <= r <= chars@.len(),
    decreases chars@.len() - j,
{
    if j == chars.len() {
        return j;
    }
    if chars[j] == '»' {
        return find_trail_end(chars, j + 1);
    }
    j
}

/// Split a text into sentences: each is a run of characters from a
/// non-space, non-guillemet, non-dash start up to and including a group of
/// terminal `.?!…` characters and any closing guillemets after them.
pub fn split_sentences(text: &str) -> (r: Vec<String>)
    ensures
        r@.len() == sentences_of(text@).len(),
        forall|k: int| 0 <= k < r@.len() ==> (#[trigger] r@[k])@ == sentences_of(text@)[k],
{
    let chars = str_chars(text);
    let n = chars.len();
    let mut out: Vec<String> = Vec::new();
    let mut i: usize = 0;
    proof {
        assert(sentences_of(chars@).skip(0) =~= sentences_of(chars@));
    }
    while i < n
        invariant
            n == chars@.len(),
            i <= n,
            sentences_from(chars@, i as int) == sentences_of(chars@).skip(out@.len() as int),
            out@.len() <= sentences_of(chars@).len(),
            forall|k: int|
                0 <= k < out@.len() ==> (#[trigger] out@[k])@ == sentences_of(chars@)[k],
        decreases n - i,
    {
        if !sentence_start(chars[i]) {
            i = i + 1;
        } else {
            let b = find_body_end(&chars, i + 1);
            let t = find_term_end(&chars, b);
            if t == b {
                proof {
                    assert(sentence_end_at(chars@, i as int) == -1);
                }
                i = i + 1;
            } else {
                let e = find_trail_end(&chars, t);
                proof {
                    lemma_scan_bounds(chars@, i + 1);
                    lemma_scan_bounds(chars@, b as int);
                    lemma_scan_bounds(chars@, t as int);
                    assert(sentence_end_at(chars@, i as int) == e as int);
                    assert(i < e <= n);
                    assert(sentences_from(chars@, i as int) == seq![chars@.subrange(
                        i as int,
                        e as int,
                    )] + sentences_from(chars@, e as int));
                    let full = sentences_of(chars@);
                    let done = out@.len() as int;
                    assert(full.skip(done)[0] == full[done]);
                    assert(full.skip(done).drop_first() =~= full.skip(done + 1));
                }
                let mut cur: Vec<char> = Vec::new();
                let mut j: usize = i;
                while j < e
                    invariant
                        i <= j <= e,
                        e <= n,
                        n == chars@.len(),
                        cur@ == chars@.subrange(i as int, j as int),
                    decreases e - j,
                {
                    cur.push(chars[j]);
                    proof {
                        assert(chars@.subrange(i as int, j + 1) =~= chars@.subrange(
                            i as int,
                            j as int,
                        ).push(chars@[j as int]));
                    }
                    j = j + 1;
                }
                let sentence = chars_to_string(&cur);
                proof {
                    assert(sentence@ == sentences_of(chars@)[out@.len() as int]);
                }
                out.push(sentence);
                i = e;
            }
        }
    }
    proof {
        assert(sentences_from(chars@, n as int) =~= Seq::<Seq<char>>::empty());
        assert(sentences_of(chars@).skip(out@.len() as int) =~= Seq::<Seq<char>>::empty());
    }
    out
}

} // verus!
