//! Dictionary import, lookup and frequency indexing, through real JSON.

use lexicon::dictionary::WordClass;
use lexicon::error::Error;
use lexicon::importer::import_dictionary;
use lexicon::lexicon::Lexicon;

fn import(lines: &[&str]) -> Result<Lexicon, Error> {
    let mut lex = Lexicon::new();
    let owned: Vec<String> = lines.iter().map(|s| s.to_string()).collect();
    import_dictionary(&mut lex, &owned).map(|_| lex)
}

#[test]
fn round_trip_senses_in_source_order() {
    let line = r#"{"word":"замок","pos":"noun","senses":[{"glosses":["castle"]},{"form_of":[{"word":"x"}],"glosses":["form reference"]},{"glosses":["lock"],"tags":["colloquial"]}]}"#;
    let lex = import(&[line]).unwrap();
    let entries = lex.read_entries("замок");
    assert_eq!(entries.len(), 1);
    let entry = &entries[0];
    assert_eq!(entry.word, "замок");
    assert!(matches!(entry.pos, WordClass::Noun));
    // The form-of sense is dropped; the others keep their source order.
    assert_eq!(entry.senses.len(), 2);
    assert_eq!(entry.senses[0].sense.as_deref(), Some("castle"));
    assert_eq!(entry.senses[1].sense.as_deref(), Some("lock"));
    assert_eq!(entry.senses[1].tags, vec!["colloquial".to_string()]);
    // Relevance keeps the original positions 0 and 2.
    assert_eq!(lex.senses[0].relevance, 0);
    assert_eq!(lex.senses[1].relevance, 2);
}

#[test]
fn unknown_word_class_creates_no_word() {
    let lex = import(&[
        r#"{"word":"и","pos":"conj","senses":[{"glosses":["and"]}]}"#,
        r#"{"word":"ой","pos":"mystery","senses":[{"glosses":["oops"]}]}"#,
    ])
    .unwrap();
    assert_eq!(lex.words.len(), 1);
    assert_eq!(lex.words[0].word, "и");
    assert!(lex.read_entries("ой").is_empty());
}

#[test]
fn all_form_of_senses_creates_no_word() {
    let lex = import(&[
        r#"{"word":"дома","pos":"noun","senses":[{"form_of":[{"word":"дом"}]}]}"#,
        r#"{"word":"рук","pos":"noun","senses":[{"tags":["form-of"],"glosses":["of hands"]}]}"#,
    ])
    .unwrap();
    assert_eq!(lex.words.len(), 0);
}

#[test]
fn template_artifact_forms_are_dropped() {
    let line = r#"{"word":"дом","pos":"noun","senses":[{"glosses":["house"]}],"forms":[{"form":"дома́","source":"declension","tags":["genitive","singular"]},{"form":"x-template","source":"declension","tags":["inflection-template"]},{"form":"таблица","source":"declension","tags":["table-tags"]},{"form":"класс","source":"declension","tags":["class"]},{"form":"домы","source":"etymology","tags":["nominative"]},{"form":"дому","source":"declension"}]}"#;
    let lex = import(&[line]).unwrap();
    // Only the first entry survives: artifact tags, a non-inflection source
    // and a missing tag list all drop the entry.
    assert_eq!(lex.forms.len(), 1);
    assert_eq!(lex.forms[0].form, "дома́");
    let entries = lex.read_entries("дом");
    assert_eq!(entries[0].forms.len(), 1);
    assert_eq!(
        entries[0].forms[0].tags,
        vec!["genitive".to_string(), "singular".to_string()]
    );
}

#[test]
fn word_columns_and_children() {
    let line = r#"{"word":"вода","pos":"noun","etymology_text":"from Proto-Slavic","head_templates":[{"expansion":"вода́ f"}],"senses":[{"glosses":["water"],"examples":[{"text":"вода холодная","english":"the water is cold"},{"text":"без перевода"}],"synonyms":[{"word":"влага"}]}],"sounds":[{"ipa":"vɐˈda","tags":["standard"]},{"other":"no ipa here"}]}"#;
    let lex = import(&[line]).unwrap();
    let entries = lex.read_entries("вода");
    let entry = &entries[0];
    assert_eq!(entry.etymology.as_deref(), Some("from Proto-Slavic"));
    assert_eq!(entry.expansion.as_deref(), Some("вода́ f"));
    let sense = &entry.senses[0];
    assert_eq!(sense.examples.len(), 2);
    assert_eq!(sense.examples[0].text, "вода холодная");
    assert_eq!(sense.examples[0].english.as_deref(), Some("the water is cold"));
    assert_eq!(sense.examples[1].english, None);
    assert_eq!(sense.synonyms, vec!["влага".to_string()]);
    assert_eq!(entry.pronunciations.len(), 1);
    assert_eq!(entry.pronunciations[0].ipa, "vɐˈda");
    assert_eq!(entry.pronunciations[0].tags, vec!["standard".to_string()]);
}

#[test]
fn homographs_become_separate_entries() {
    let lex = import(&[
        r#"{"word":"печь","pos":"noun","senses":[{"glosses":["oven"]}]}"#,
        r#"{"word":"печь","pos":"verb","senses":[{"glosses":["to bake"]}]}"#,
    ])
    .unwrap();
    let entries = lex.read_entries("печь");
    assert_eq!(entries.len(), 2);
    assert!(matches!(entries[0].pos, WordClass::Noun));
    assert!(matches!(entries[1].pos, WordClass::Verb));
    assert_eq!(entries[0].senses[0].sense.as_deref(), Some("oven"));
    assert_eq!(entries[1].senses[0].sense.as_deref(), Some("to bake"));
}

#[test]
fn synonym_rows_are_reused() {
    let lex = import(&[
        r#"{"word":"большой","pos":"adj","senses":[{"glosses":["big"],"synonyms":[{"word":"крупный"}]}]}"#,
        r#"{"word":"огромный","pos":"adj","senses":[{"glosses":["huge"],"synonyms":[{"word":"крупный"}]}]}"#,
    ])
    .unwrap();
    assert_eq!(lex.synonyms.len(), 1);
    assert_eq!(lex.sense_synonyms.len(), 2);
}

#[test]
fn malformed_json_line_aborts_import_atomically() {
    let mut lines = Vec::new();
    lines.push(r#"{"word":"один","pos":"noun","senses":[{"glosses":["one"]}]}"#);
    lines.push(r#"{"word":"два","pos":"noun","senses":[{"glosses":"#);
    lines.push(r#"{"word":"три","pos":"noun","senses":[{"glosses":["three"]}]}"#);
    let err = import(&lines).unwrap_err();
    assert_eq!(err, Error::SerdeFailed { line: 1 });
    // The store is left in its rebuilt, empty state.
    let mut lex = Lexicon::new();
    lex.insert_frequencies(&vec!["потом".to_string()]);
    let owned: Vec<String> = lines.iter().map(|s| s.to_string()).collect();
    assert!(import_dictionary(&mut lex, &owned).is_err());
    assert_eq!(lex.words.len(), 0);
    assert_eq!(lex.senses.len(), 0);
    assert_eq!(lex.frequency.len(), 0);
}

#[test]
fn shape_errors_carry_their_line() {
    assert_eq!(
        import(&[r#"{"pos":"noun","senses":[{"glosses":["x"]}]}"#]).unwrap_err(),
        Error::GetValueFailed { line: 0 }
    );
    assert_eq!(
        import(&[
            r#"{"word":"а","pos":"conj","senses":[{"glosses":["but"]}]}"#,
            r#"{"word":5,"pos":"noun","senses":[{"glosses":["x"]}]}"#,
        ])
        .unwrap_err(),
        Error::ValueConversionFailed { line: 1 }
    );
    assert_eq!(
        import(&[r#"{"word":"б","pos":"noun","senses":[{"glosses":[]}]}"#]).unwrap_err(),
        Error::EmptyJSONArray { line: 0 }
    );
    assert_eq!(
        import(&[r#"{"word":"в","pos":"noun","head_templates":[],"senses":[{"glosses":["x"]}]}"#])
            .unwrap_err(),
        Error::EmptyJSONArray { line: 0 }
    );
}

#[test]
fn error_messages_name_the_failure() {
    let e = Error::SerdeFailed { line: 7 };
    assert_eq!(e.line(), 7);
    assert!(e.message().contains("jsonl"));
}

#[test]
fn frequency_indexing_ranks_by_position() {
    let mut lex = import(&[
        r#"{"word":"дом","pos":"noun","senses":[{"glosses":["house"]}]}"#,
        r#"{"word":"вода","pos":"noun","senses":[{"glosses":["water"]}]}"#,
        r#"{"word":"дом","pos":"verb","senses":[{"glosses":["homograph"]}]}"#,
    ])
    .unwrap();
    let tokens: Vec<String> = vec!["вода".to_string(), "нигде".to_string(), "дом".to_string()];
    lex.insert_frequencies(&tokens);
    // "вода" gets rank 0; both homograph rows of "дом" get rank 2; the
    // unknown token is skipped; a repeated token keeps the first rank.
    assert_eq!(lex.frequency.len(), 3);
    assert_eq!(lex.frequency[0].word_id, 1);
    assert_eq!(lex.frequency[0].rank, 0);
    assert_eq!(lex.frequency[1].word_id, 0);
    assert_eq!(lex.frequency[1].rank, 2);
    assert_eq!(lex.frequency[2].word_id, 2);
    assert_eq!(lex.frequency[2].rank, 2);
    let again: Vec<String> = vec!["дом".to_string()];
    lex.insert_frequencies(&again);
    assert_eq!(lex.frequency.len(), 3);
}
