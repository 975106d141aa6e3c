// Scenarios of a learner's attempt against required concepts, over a small
// dictionary built here.

use rc_calque::concept::{ConceptId, Realization};
use rc_calque::lex::{Cefr, Dict, Kind, Lexeme};
use rc_calque::observe::{
    classify, corrects, matched_realization, meaning_conveyed, mentions, normalize, said_units,
    Correction, Impact, LexicalErrorKind, Use,
};

fn lexeme(id: &str, unit: &str, kind: Kind, cefr: Cefr) -> Lexeme {
    Lexeme {
        id: id.to_string(),
        unit: unit.to_string(),
        kind,
        pos: id.split('|').nth(1).map(str::to_string),
        cefr,
        cefr_derived: false,
        frequency_rank: 0,
        frequency_band: None,
    }
}

fn dict() -> Dict {
    Dict::from_lexemes(vec![
        lexeme("w:i|pron", "i", Kind::Word, Cefr::A1),
        lexeme("w:he|pron", "he", Kind::Word, Cefr::A1),
        lexeme("w:make|verb", "make", Kind::Word, Cefr::A1),
        lexeme("w:a|det", "a", Kind::Word, Cefr::A1),
        lexeme("w:decision|noun", "decision", Kind::Word, Cefr::A2),
        lexeme("w:coffee|noun", "coffee", Kind::Word, Cefr::A1),
        lexeme("w:the|det", "the", Kind::Word, Cefr::A1),
        lexeme("pv:move_in", "move in", Kind::PhrasalVerb, Cefr::B1),
        lexeme("w:pay|verb", "pay", Kind::Word, Cefr::A1),
        lexeme("w:deposit|noun", "deposit", Kind::Word, Cefr::B1),
        lexeme("pv:turn_down", "turn down", Kind::PhrasalVerb, Cefr::B1),
        lexeme("w:offer|noun", "offer", Kind::Word, Cefr::A2),
        lexeme("w:reject|verb", "reject", Kind::Word, Cefr::B1),
        lexeme("w:decline|verb", "decline", Kind::Word, Cefr::B2),
    ])
}

fn realizations(texts: &[&str]) -> Vec<Realization> {
    texts.iter().map(|t| Realization::new(t)).collect()
}

fn classify_in(transcript: &str, id: &str, texts: &[&str], corrections: &[Correction]) -> Use {
    let d = dict();
    let said = said_units(&d, transcript);
    classify(&d, &ConceptId::from(id), &realizations(texts), &said, transcript, corrections)
}

#[test]
fn normalization_lowercases_and_collapses_spaces() {
    assert_eq!(normalize("move  In "), " move in ");
    assert_eq!(normalize("Move in!"), " move in ");
    assert_eq!(normalize(""), "  ");
}

#[test]
fn an_inflected_form_counts_as_the_unit() {
    let u = classify_in("When can I moved in?", "MOVE_IN", &["move in"], &[]);
    assert_eq!(u, Use::Expressed { realization: "move in".to_string() });
    assert_eq!(u.error_kind(), None);
}

#[test]
fn any_acceptable_realization_counts_as_success() {
    let u = classify_in(
        "He turned down the offer politely.",
        "REJECT_OFFER",
        &["reject the offer", "decline the offer", "turn down the offer"],
        &[],
    );
    assert_eq!(u, Use::Expressed { realization: "turn down the offer".to_string() });
}

#[test]
fn scattered_words_still_count_as_a_collocation() {
    let u = classify_in(
        "I make coffee every morning and the decision was hard.",
        "MAKE_DECISION",
        &["make a decision"],
        &[],
    );
    assert!(matches!(u, Use::Expressed { .. }));
}

#[test]
fn avoiding_a_unit_while_conveying_meaning_is_a_workaround() {
    let corrections = [Correction { item: Some("deposit"), correct: "I pay a deposit", impact: Impact::Distortion }];
    let t = "Is water and light included? I pay a pledge.";
    assert_eq!(classify_in(t, "UTILITIES", &["utilities"], &corrections), Use::Workaround);
    assert_eq!(Use::Workaround.error_kind(), Some(LexicalErrorKind::Workaround));
    let dep = classify_in(t, "DEPOSIT", &["deposit"], &corrections);
    assert_eq!(dep, Use::WrongChoice { impact: Impact::Distortion, correction_index: 0 });
    assert_eq!(dep.error_kind(), Some(LexicalErrorKind::WrongChoice));
}

#[test]
fn avoiding_a_unit_amid_a_breakdown_is_a_miss() {
    let corrections = [Correction { item: None, correct: "I want to understand the date", impact: Impact::Breakdown }];
    let u = classify_in("I no understand when live.", "UTILITIES", &["utilities"], &corrections);
    assert_eq!(u, Use::Skipped);
    assert_eq!(u.error_kind(), Some(LexicalErrorKind::Skipped));
    assert!(!meaning_conveyed(&corrections));
    assert!(meaning_conveyed(&[]));
}

#[test]
fn a_correction_names_the_concept_by_id_or_realization() {
    let d = dict();
    let id = ConceptId::from("DEPOSIT");
    let rs = realizations(&["deposit"]);
    let by_id = Correction { item: Some("  DEPOSIT "), correct: "x", impact: Impact::NoHarm };
    let by_text = Correction { item: Some("deposit"), correct: "x", impact: Impact::NoHarm };
    let by_reference = Correction { item: None, correct: "You should pay a deposit.", impact: Impact::MinorNoise };
    let other = Correction { item: Some("rent"), correct: "the rent", impact: Impact::MinorNoise };
    assert!(corrects(&d, &by_id, &id, &rs));
    assert!(corrects(&d, &by_text, &id, &rs));
    assert!(corrects(&d, &by_reference, &id, &rs));
    assert!(!corrects(&d, &other, &id, &rs));
    let u = classify(&d, &id, &rs, &[], "nothing here", &[other.clone(), by_reference.clone()]);
    assert_eq!(u, Use::WrongChoice { impact: Impact::MinorNoise, correction_index: 1 });
}

#[test]
fn a_realization_is_mentioned_literally_or_by_its_content_units() {
    let d = dict();
    let said = said_units(&d, "He turned down the offer.");
    assert_eq!(said, vec!["he", "turn down", "the", "offer"]);
    let nt = normalize("He turned down the offer.");
    assert!(mentions(&d, "the offer", &said, &nt));
    assert!(mentions(&d, "turn down the offer", &said, &nt));
    assert!(!mentions(&d, "make a decision", &said, &nt));
    // Only function words and nothing literal: nothing to go by.
    assert!(!mentions(&d, "a", &said, &nt));
}

#[test]
fn the_first_listed_realization_said_is_the_match() {
    let d = dict();
    let t = "I make a decision and pay a deposit.";
    let said = said_units(&d, t);
    let rs = realizations(&["pay a deposit", "make a decision"]);
    assert_eq!(matched_realization(&d, &rs, &said, t), Some("pay a deposit".to_string()));
    assert_eq!(matched_realization(&d, &realizations(&["turn down"]), &said, t), None);
}

#[test]
fn a_requirement_without_realizations_is_never_expressed() {
    let u = classify_in("I said something entirely different.", "MYSTERY", &[], &[]);
    assert_eq!(u, Use::Workaround);
}
