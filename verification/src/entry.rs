//! The denormalized view of one dictionary word that lookup returns: the
//! word row together with its senses (ordered by relevance), forms and
//! pronunciations.

use vstd::prelude::*;

use crate::dictionary::WordClass;

verus! {

/// An example quoted under a sense.
#[derive(Debug, Clone)]
pub struct Example {
    pub text: String,
    pub english: Option<String>,
}

/// A sense with its examples, synonyms and tags.
#[derive(Debug, Clone)]
pub struct Sense {
    pub sense: Option<String>,
    pub examples: Vec<Example>,
    pub synonyms: Vec<String>,
    pub tags: Vec<String>,
}

/// An inflected form with its tags.
#[derive(Debug, Clone)]
pub struct Form {
    pub form: String,
    pub tags: Vec<String>,
}

/// An IPA pronunciation with its tags.
#[derive(Debug, Clone)]
pub struct Pronunciation {
    pub ipa: String,
    pub tags: Vec<String>,
}

/// One dictionary word, fully denormalized.
#[derive(Debug, Clone)]
pub struct Entry {
    pub word: String,
    pub pos: WordClass,
    pub etymology: Option<String>,
    pub expansion: Option<String>,
    pub senses: Vec<Sense>,
    pub forms: Vec<Form>,
    pub pronunciations: Vec<Pronunciation>,
}

} // verus!
