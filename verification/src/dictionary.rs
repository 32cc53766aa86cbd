//! The closed set of word classes and the stress-accent normalization used as
//! the lemmatization lookup key.

use vstd::prelude::*;

use crate::text::{chars_to_string, str_chars, str_eq};

verus! {

/// The combining acute accent that marks stress on a Russian vowel.
pub const ACUTE_ACCENT: char = '\u{301}';

/// Part-of-speech tag of a dictionary word: a closed enumeration.  A record
/// whose tag falls outside the ten named classes maps to `Unknown` and is
/// skipped by the importer.
#[derive(Clone, Copy, PartialEq, Eq, Structural, Debug)]
pub enum WordClass {
    Noun,
    Verb,
    Adjective,
    Adverb,
    Determiner,
    Particle,
    Interjection,
    Conjunction,
    Pronoun,
    Preposition,
    Unknown,
}

/// The word class a part-of-speech tag denotes, accepting both the short and
/// the long spelling of each tag.
pub open spec fn word_class_of(s: Seq<char>) -> WordClass {
    if s == "noun"@ {
        WordClass::Noun
    } else if s == "verb"@ {
        WordClass::Verb
    } else if s == "adj"@ || s == "adjective"@ {
        WordClass::Adjective
    } else if s == "adv"@ || s == "adverb"@ {
        WordClass::Adverb
    } else if s == "intj"@ || s == "interjection"@ {
        WordClass::Interjection
    } else if s == "pron"@ || s == "pronoun"@ {
        WordClass::Pronoun
    } else if s == "prep"@ || s == "preposition"@ {
        WordClass::Preposition
    } else if s == "det"@ || s == "determiner"@ {
        WordClass::Determiner
    } else if s == "particle"@ {
        WordClass::Particle
    } else if s == "conj"@ || s == "conjunction"@ {
        WordClass::Conjunction
    } else {
        WordClass::Unknown
    }
}

impl WordClass {
    /// Parse a part-of-speech tag.
    pub fn from_tag(value: &str) -> (r: WordClass)
        ensures
            r == word_class_of(value@),
    {
        if str_eq(value, "noun") {
            WordClass::Noun
        } else if str_eq(value, "verb") {
            WordClass::Verb
        } else if str_eq(value, "adj") || str_eq(value, "adjective") {
            WordClass::Adjective
        } else if str_eq(value, "adv") || str_eq(value, "adverb") {
            WordClass::Adverb
        } else if str_eq(value, "intj") || str_eq(value, "interjection") {
            WordClass::Interjection
        } else if str_eq(value, "pron") || str_eq(value, "pronoun") {
            WordClass::Pronoun
        } else if str_eq(value, "prep") || str_eq(value, "preposition") {
            WordClass::Preposition
        } else if str_eq(value, "det") || str_eq(value, "determiner") {
            WordClass::Determiner
        } else if str_eq(value, "particle") {
            WordClass::Particle
        } else if str_eq(value, "conj") || str_eq(value, "conjunction") {
            WordClass::Conjunction
        } else {
            WordClass::Unknown
        }
    }

    /// The canonical (long) name of the class.
    pub open spec fn spec_name(self) -> Seq<char> {
        match self {
            WordClass::Noun => "noun"@,
            WordClass::Verb => "verb"@,
            WordClass::Adjective => "adjective"@,
            WordClass::Adverb => "adverb"@,
            WordClass::Determiner => "determiner"@,
            WordClass::Particle => "particle"@,
            WordClass::Interjection => "interjection"@,
            WordClass::Conjunction => "conjunction"@,
            WordClass::Pronoun => "pronoun"@,
            WordClass::Preposition => "preposition"@,
            WordClass::Unknown => "unknown"@,
        }
    }

    /// The canonical (long) name of the class, as the stored text.
    pub fn to_string(self) -> (r: String)
        ensures
            r@ == self.spec_name(),
    {
        match self {
            WordClass::Noun => "noun".to_owned(),
            WordClass::Verb => "verb".to_owned(),
            WordClass::Adjective => "adjective".to_owned(),
            WordClass::Adverb => "adverb".to_owned(),
            WordClass::Determiner => "determiner".to_owned(),
            WordClass::Particle => "particle".to_owned(),
            WordClass::Interjection => "interjection".to_owned(),
            WordClass::Conjunction => "conjunction".to_owned(),
            WordClass::Pronoun => "pronoun".to_owned(),
            WordClass::Preposition => "preposition".to_owned(),
            WordClass::Unknown => "unknown".to_owned(),
        }
    }
}

/// The nine lowercase vowels that can carry a written stress accent.
pub open spec fn is_stress_vowel(c: char) -> bool {
    c == 'а' || c == 'е' || c == 'и' || c == 'о' || c == 'у' || c == 'э' || c == 'ы' || c == 'ю'
        || c == 'я'
}

/// Exec mirror of [`is_stress_vowel`].
#[verifier::when_used_as_spec(is_stress_vowel)]
pub fn stress_vowel(c: char) -> (r: bool)
    ensures
        r == is_stress_vowel(c),
{
    c == 'а' || c == 'е' || c == 'и' || c == 'о' || c == 'у' || c == 'э' || c == 'ы' || c == 'ю'
        || c == 'я'
}

/// Accent stripping: every vowel-plus-acute-accent digraph maps to the bare
/// vowel; all other characters pass through unchanged.
pub open spec fn strip_accents(s: Seq<char>) -> Seq<char>
    decreases s.len(),
{
    if s.len() == 0 {
        Seq::<char>::empty()
    } else if s.len() >= 2 && is_stress_vowel(s[0]) && s[1] == ACUTE_ACCENT {
        seq![s[0]] + strip_accents(s.skip(2))
    } else {
        seq![s[0]] + strip_accents(s.skip(1))
    }
}

/// Strip written stress accents from an inflected form, producing the
/// normalized form used as the lemmatization lookup key.
pub fn remove_accents(word: String) -> (r: String)
    ensures
        r@ == strip_accents(word@),
{
    let chars = str_chars(word.as_str());
    let mut out: Vec<char> = Vec::new();
    let mut i: usize = 0;
    proof {
        assert(chars@.skip(0) =~= chars@);
        assert(Seq::<char>::empty() + strip_accents(chars@) =~= strip_accents(chars@));
    }
    while i < chars.len()
        invariant
            i <= chars.len(),
            out@ + strip_accents(chars@.skip(i as int)) == strip_accents(chars@),
        decreases chars.len() - i,
    {
        let c = chars[i];
        if i + 1 < chars.len() && stress_vowel(c) && chars[i + 1] == ACUTE_ACCENT {
            proof {
                assert(chars@.skip(i as int).skip(2) =~= chars@.skip(i + 2));
                assert(chars@.skip(i as int)[0] == chars@[i as int]);
            }
            out.push(c);
            i = i + 2;
        } else {
            proof {
                assert(chars@.skip(i as int).skip(1) =~= chars@.skip(i + 1));
                assert(chars@.skip(i as int)[0] == chars@[i as int]);
            }
            out.push(c);
            i = i + 1;
        }
    }
    proof {
        assert(chars@.skip(chars@.len() as int) =~= Seq::<char>::empty());
        assert(out@ =~= out@ + Seq::<char>::empty());
    }
    chars_to_string(&out)
}

/// A sequence is free of stress digraphs when no accent immediately follows a
/// stressable vowel.
pub open spec fn accent_free(s: Seq<char>) -> bool {
    forall|i: int|
        0 <= i && i + 1 < s.len() ==> !(is_stress_vowel(s[i]) && s[i + 1] == ACUTE_ACCENT)
}

/// A sequence has no doubled accent mark: no acute accent immediately
/// follows another.
pub open spec fn no_double_accent(s: Seq<char>) -> bool {
    forall|i: int|
        0 <= i && i + 1 < s.len() ==> !((#[trigger] s[i]) == ACUTE_ACCENT && s[i + 1]
            == ACUTE_ACCENT)
}

/// Accent stripping leaves a form without stress digraphs unchanged.
pub proof fn lemma_strip_accents_fixed(s: Seq<char>)
    requires
        accent_free(s),
    ensures
        strip_accents(s) == s,
    decreases s.len(),
{
    if s.len() == 0 {
        assert(strip_accents(s) =~= s);
    } else {
        assert(accent_free(s.skip(1))) by {
            assert forall|i: int| 0 <= i && i + 1 < s.skip(1).len() implies !(is_stress_vowel(
                s.skip(1)[i],
            ) && s.skip(1)[i + 1] == ACUTE_ACCENT) by {
                assert(s.skip(1)[i] == s[i + 1]);
                assert(s.skip(1)[i + 1] == s[i + 2]);
            }
        }
        lemma_strip_accents_fixed(s.skip(1));
        assert(strip_accents(s) =~= s);
    }
}

/// On input without doubled accent marks, stripping accents is idempotent:
/// the result carries no stress digraph, so a second pass returns it
/// unchanged.
pub proof fn lemma_strip_accents_idempotent(s: Seq<char>)
    requires
        no_double_accent(s),
    ensures
        strip_accents(strip_accents(s)) == strip_accents(s),
{
    lemma_strip_accents_no_digraph(s);
    lemma_strip_accents_fixed(strip_accents(s));
}

/// Helper for idempotence: without doubled accents in the input, the stripped
/// output has no stress digraph left.
proof fn lemma_strip_accents_no_digraph(s: Seq<char>)
    requires
        no_double_accent(s),
    ensures
        accent_free(strip_accents(s)),
    decreases s.len(),
{
    if s.len() == 0 {
    } else if s.len() >= 2 && is_stress_vowel(s[0]) && s[1] == ACUTE_ACCENT {
        assert(no_double_accent(s.skip(2))) by {
            assert forall|i: int|
                0 <= i && i + 1 < s.skip(2).len() implies !((#[trigger] s.skip(2)[i])
                == ACUTE_ACCENT && s.skip(2)[i + 1] == ACUTE_ACCENT) by {
                assert(s.skip(2)[i] == s[i + 2]);
                assert(s.skip(2)[i + 1] == s[i + 3]);
            }
        }
        lemma_strip_accents_no_digraph(s.skip(2));
        let tail = strip_accents(s.skip(2));
        // The first character of the tail is not an accent: it is either the
        // first character of `s.skip(2)`, which cannot be an accent because
        // `s[1]` is one and doubles are excluded, or the tail is empty.
        if tail.len() > 0 {
            lemma_strip_accents_head(s.skip(2));
            assert(s.skip(2)[0] == s[2]);
            assert(s[2] != ACUTE_ACCENT);
        }
        assert(strip_accents(s) == seq![s[0]] + tail);
    } else {
        assert(no_double_accent(s.skip(1))) by {
            assert forall|i: int|
                0 <= i && i + 1 < s.skip(1).len() implies !((#[trigger] s.skip(1)[i])
                == ACUTE_ACCENT && s.skip(1)[i + 1] == ACUTE_ACCENT) by {
                assert(s.skip(1)[i] == s[i + 1]);
                assert(s.skip(1)[i + 1] == s[i + 2]);
            }
        }
        lemma_strip_accents_no_digraph(s.skip(1));
        let tail = strip_accents(s.skip(1));
        if tail.len() > 0 {
            lemma_strip_accents_head(s.skip(1));
            if is_stress_vowel(s[0]) {
                // Here either `s` has no second character, or the digraph test
                // failed, so `s[1]` is not an accent; the head of the tail is
                // `s[1]`.
                assert(tail[0] != ACUTE_ACCENT);
            }
        }
        assert(strip_accents(s) == seq![s[0]] + tail);
    }
}

/// The first character of a stripped non-empty sequence is its original first
/// character.
proof fn lemma_strip_accents_head(s: Seq<char>)
    requires
        s.len() > 0,
    ensures
        strip_accents(s).len() > 0,
        strip_accents(s)[0] == s[0],
{
}

} // verus!
