//! Lemmatization, the ledger invariants, and text processing.

use lexicon::dictionary::remove_accents;
use lexicon::importer::import_dictionary;
use lexicon::ledger::Ledger;
use lexicon::lemmatize::{split_sentences, tokenize};
use lexicon::lexicon::Lexicon;

/// A small lexicon: lemma "дом" with inflected forms, lemma "вода" with one
/// form, plus a frequency corpus ranking both.
fn fixture() -> Lexicon {
    let lines = vec![
        r#"{"word":"дом","pos":"noun","senses":[{"glosses":["house"]}],"forms":[{"form":"дом","source":"declension","tags":["nominative"]},{"form":"дома́","source":"declension","tags":["genitive"]}]}"#.to_string(),
        r#"{"word":"вода","pos":"noun","senses":[{"glosses":["water"]}],"forms":[{"form":"вода","source":"declension","tags":["nominative"]},{"form":"во́ду","source":"declension","tags":["accusative"]}]}"#.to_string(),
    ];
    let mut lex = Lexicon::new();
    import_dictionary(&mut lex, &lines).unwrap();
    let tokens: Vec<String> = vec!["дом".to_string(), "вода".to_string()];
    lex.insert_frequencies(&tokens);
    lex
}

#[test]
fn accent_stripping_maps_every_stressed_vowel() {
    let pairs = [
        ("а́", "а"),
        ("е́", "е"),
        ("и́", "и"),
        ("о́", "о"),
        ("у́", "у"),
        ("э́", "э"),
        ("ы́", "ы"),
        ("ю́", "ю"),
        ("я́", "я"),
    ];
    for (accented, plain) in pairs {
        assert_eq!(remove_accents(accented.to_string()), plain);
    }
    assert_eq!(remove_accents("дома́".to_string()), "дома");
    // Idempotence: an already-normalized form comes back unchanged.
    let once = remove_accents("до́ма́".to_string());
    assert_eq!(remove_accents(once.clone()), once);
    assert_eq!(remove_accents("дом".to_string()), "дом");
}

#[test]
fn tokenizer_lowercases_and_splits_on_non_cyrillic() {
    assert_eq!(tokenize("Привет, мир!"), vec!["привет", "мир"]);
    assert_eq!(tokenize("Ёлка 2024 ёлки"), vec!["ёлка", "ёлки"]);
    assert_eq!(tokenize("abc 123 ..."), Vec::<String>::new());
    assert_eq!(tokenize(""), Vec::<String>::new());
}

#[test]
fn sentence_splitter_finds_terminated_runs() {
    assert_eq!(
        split_sentences("Привет. Как дела?"),
        vec!["Привет.", "Как дела?"]
    );
    // A trailing fragment without a terminator is dropped; ellipses and
    // closing guillemets belong to the sentence.
    assert_eq!(
        split_sentences("«Так сказал он…» А потом ушёл"),
        vec!["«Так сказал он…»"]
    );
    assert_eq!(split_sentences("без конца"), Vec::<String>::new());
}

#[test]
fn lemmatizer_counts_and_positions() {
    let lex = fixture();
    let mut ledger = Ledger::new();
    ledger.lemmatize(&lex, "Дома́ дом вода", false);
    assert_eq!(ledger.lemmas.len(), 2);
    let dom = &ledger.lemmas[0];
    assert_eq!(dom.lemma, "дом");
    assert_eq!(dom.frequency, 2);
    assert_eq!(dom.first_occurence, 0);
    assert_eq!(dom.general_frequency, Some(0));
    assert!(!dom.blacklisted);
    let voda = &ledger.lemmas[1];
    assert_eq!(voda.lemma, "вода");
    assert_eq!(voda.frequency, 1);
    assert_eq!(voda.first_occurence, 2);
    assert_eq!(voda.general_frequency, Some(1));
}

#[test]
fn homograph_fan_out_counts_every_match() {
    // Two dictionary words share the text "печь"; a form resolving to both
    // contributes to the shared ledger row once per matching word.
    let lines = vec![
        r#"{"word":"печь","pos":"noun","senses":[{"glosses":["oven"]}],"forms":[{"form":"печь","source":"declension","tags":["nominative"]}]}"#.to_string(),
        r#"{"word":"печь","pos":"verb","senses":[{"glosses":["to bake"]}],"forms":[{"form":"печь","source":"conjugation","tags":["infinitive"]}]}"#.to_string(),
    ];
    let mut lex = Lexicon::new();
    import_dictionary(&mut lex, &lines).unwrap();
    let tokens: Vec<String> = vec!["печь".to_string()];
    lex.insert_frequencies(&tokens);
    let mut ledger = Ledger::new();
    ledger.lemmatize(&lex, "печь", false);
    assert_eq!(ledger.lemmas.len(), 1);
    assert_eq!(ledger.lemmas[0].frequency, 2);
}

#[test]
fn repeated_batches_only_grow() {
    let lex = fixture();
    let mut ledger = Ledger::new();
    ledger.lemmatize(&lex, "дом", false);
    let f1 = ledger.lemmas[0].frequency;
    let max1 = ledger.lemmas[0].first_occurence;
    ledger.lemmatize(&lex, "дом дом вода", false);
    assert!(ledger.lemmas[0].frequency > f1);
    assert_eq!(ledger.lemmas[0].first_occurence, max1);
    // The new lemma's first position starts above the prior batch's maximum.
    assert!(ledger.lemmas[1].first_occurence >= max1);
}

#[test]
fn sentence_capture_honors_length_window() {
    let lex = fixture();
    let mut ledger = Ledger::new();
    // Two tokens: below the [3, 20) window — not stored.
    ledger.lemmatize(&lex, "Дом вода.", true);
    assert_eq!(ledger.sentences.len(), 0);
    // Three tokens: stored for both resolved lemmas.
    ledger.lemmatize(&lex, "Дом дом вода.", true);
    assert_eq!(ledger.sentences.len(), 2);
    assert_eq!(ledger.sentences[0].lemma, "дом");
    assert_eq!(ledger.sentences[0].sentence, "Дом дом вода.");
    assert_eq!(ledger.sentences[1].lemma, "вода");
}

#[test]
fn sentence_cap_and_no_duplicates() {
    let lex = fixture();
    let mut ledger = Ledger::new();
    for k in 0..7 {
        let text = format!("Дом вода вода номер{k}.");
        ledger.lemmatize(&lex, &text, true);
    }
    // Seven distinct sentences were offered; only five stick per lemma.
    let dom = ledger.get_sentences("дом".to_string());
    assert_eq!(dom.len(), 5);
    // The same sentence offered twice is stored once.
    ledger.lemmatize(&lex, "Дом вода снова здесь.", true);
    ledger.lemmatize(&lex, "Дом вода снова здесь.", true);
    let all = ledger.get_sentences("вода".to_string());
    assert_eq!(all.len(), 5);
    let mut seen = all.clone();
    seen.sort();
    seen.dedup();
    assert_eq!(seen.len(), all.len());
}

#[test]
fn reset_keeps_only_the_blacklist() {
    let lex = fixture();
    let mut ledger = Ledger::new();
    ledger.lemmatize(&lex, "Дом дом вода дом.", true);
    ledger.blacklist_lemma("дом".to_string());
    assert!(ledger.lemmas[0].blacklisted);
    ledger.reset(true);
    assert_eq!(ledger.lemmas.len(), 1);
    assert_eq!(ledger.lemmas[0].lemma, "дом");
    assert_eq!(ledger.sentences.len(), 0);
    ledger.reset(false);
    assert_eq!(ledger.lemmas.len(), 0);
}

#[test]
fn validators_accept_engine_state_and_reject_corruption() {
    let mut lex = fixture();
    let mut ledger = Ledger::new();
    ledger.lemmatize(&lex, "Дом дом вода вода.", true);
    assert!(lex.check_wf());
    assert!(ledger.check_wf());
    // A sense row pointing past the word table breaks referential integrity.
    let stray = lexicon::lexicon::SenseRow {
        word_id: lex.words.len(),
        gloss: None,
        relevance: 0,
    };
    lex.senses.push(stray);
    assert!(!lex.check_wf());
    // A duplicated lemma row breaks the one-row-per-lemma invariant.
    let copy = ledger.lemmas[0].clone();
    ledger.lemmas.push(copy);
    assert!(!ledger.check_wf());
}

#[test]
fn blacklist_normalizes_accents_and_is_idempotent() {
    let lex = fixture();
    let mut ledger = Ledger::new();
    ledger.lemmatize(&lex, "дом", false);
    ledger.blacklist_lemma("до́м".to_string());
    assert!(ledger.lemmas[0].blacklisted);
    ledger.blacklist_lemma("дом".to_string());
    assert!(ledger.lemmas[0].blacklisted);
    // Absent lemma: a no-op.
    ledger.blacklist_lemma("нету".to_string());
    assert_eq!(ledger.lemmas.len(), 1);
}
