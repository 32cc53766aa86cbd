//! The queue ranker: single signals, merged signals, pagination, the class
//! filter and blacklist exclusion.

use lexicon::dictionary::WordClass;
use lexicon::importer::import_dictionary;
use lexicon::ledger::{Ledger, LemmaRow};
use lexicon::lexicon::Lexicon;
use lexicon::queue::get_lemmas_queue;

fn row(lemma: &str, frequency: usize, general: Option<usize>, first: usize) -> LemmaRow {
    LemmaRow {
        lemma: lemma.to_string(),
        frequency,
        general_frequency: general,
        blacklisted: false,
        first_occurence: first,
    }
}

/// Three lemmas with deliberately conflicting signals.
fn sample_ledger() -> Ledger {
    Ledger {
        lemmas: vec![
            row("альфа", 5, Some(10), 1),
            row("бета", 3, Some(2), 0),
            row("гамма", 5, None, 2),
        ],
        sentences: Vec::new(),
    }
}

fn page(ledger: &Ledger, f: bool, g: bool, o: bool) -> Vec<String> {
    get_lemmas_queue(ledger, &Lexicon::new(), 0, f, g, o, &Vec::new())
}

#[test]
fn storage_order_without_signals() {
    let ledger = sample_ledger();
    assert_eq!(page(&ledger, false, false, false), vec!["альфа", "бета", "гамма"]);
}

#[test]
fn single_signal_orderings() {
    let ledger = sample_ledger();
    // Most seen first; equal counts keep storage order.
    assert_eq!(page(&ledger, true, false, false), vec!["альфа", "гамма", "бета"]);
    // Most common in the corpus first; a missing rank sorts last.
    assert_eq!(page(&ledger, false, true, false), vec!["бета", "альфа", "гамма"]);
    // Earliest first occurrence first.
    assert_eq!(page(&ledger, false, false, true), vec!["бета", "альфа", "гамма"]);
}

#[test]
fn two_signals_merge_by_best_then_worst() {
    let ledger = sample_ledger();
    assert_eq!(page(&ledger, true, true, false), vec!["альфа", "бета", "гамма"]);
}

#[test]
fn three_signals_use_the_median_tie_break() {
    // альфа: ranks (1,2,2) weighted (2,4,6): best 2, median 4, worst 6.
    // бета: ranks (3,1,1) weighted (6,2,3): best 2, worst 6, and the
    // weighted first-occurrence rank 3 lies strictly between, so it is the
    // median — which puts бета ahead of альфа.
    // гамма: ranks (2,3,3) weighted (4,6,9): best 4, median 6, worst 9.
    let ledger = sample_ledger();
    assert_eq!(page(&ledger, true, true, true), vec!["бета", "альфа", "гамма"]);
}

#[test]
fn ranking_is_deterministic_and_pages_do_not_overlap() {
    let mut rows = Vec::new();
    for k in 0..450 {
        rows.push(row(&format!("лемма{k}"), k % 7, Some(900 - k), k));
    }
    let ledger = Ledger { lemmas: rows, sentences: Vec::new() };
    let lex = Lexicon::new();
    let empty: Vec<WordClass> = Vec::new();
    let first = get_lemmas_queue(&ledger, &lex, 0, true, true, true, &empty);
    let first_again = get_lemmas_queue(&ledger, &lex, 0, true, true, true, &empty);
    assert_eq!(first, first_again);
    assert_eq!(first.len(), 200);
    let second = get_lemmas_queue(&ledger, &lex, 200, true, true, true, &empty);
    let third = get_lemmas_queue(&ledger, &lex, 400, true, true, true, &empty);
    assert_eq!(second.len(), 200);
    assert_eq!(third.len(), 50);
    let mut all: Vec<String> = Vec::new();
    all.extend(first);
    all.extend(second);
    all.extend(third);
    let total = all.len();
    all.sort();
    all.dedup();
    assert_eq!(all.len(), total);
}

#[test]
fn blacklisted_lemmas_never_surface() {
    let mut ledger = sample_ledger();
    ledger.blacklist_lemma("бета".to_string());
    for (f, g, o) in [(false, false, false), (true, false, false), (true, true, true)] {
        let p = page(&ledger, f, g, o);
        assert!(!p.contains(&"бета".to_string()));
    }
}

#[test]
fn class_filter_restricts_to_matching_words() {
    let lines = vec![
        r#"{"word":"альфа","pos":"noun","senses":[{"glosses":["a"]}]}"#.to_string(),
        r#"{"word":"бета","pos":"verb","senses":[{"glosses":["b"]}]}"#.to_string(),
    ];
    let mut lex = Lexicon::new();
    import_dictionary(&mut lex, &lines).unwrap();
    let ledger = sample_ledger();
    let nouns = vec![WordClass::Noun];
    let p = get_lemmas_queue(&ledger, &lex, 0, false, false, false, &nouns);
    assert_eq!(p, vec!["альфа"]);
    let both = vec![WordClass::Noun, WordClass::Verb];
    let p2 = get_lemmas_queue(&ledger, &lex, 0, false, false, false, &both);
    assert_eq!(p2, vec!["альфа", "бета"]);
}

#[test]
fn offset_beyond_the_end_gives_an_empty_page() {
    let ledger = sample_ledger();
    let p = get_lemmas_queue(&ledger, &Lexicon::new(), 10, true, false, false, &Vec::new());
    assert!(p.is_empty());
}
