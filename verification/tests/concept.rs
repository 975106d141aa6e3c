use rc_calque::concept::{derived_groups, effective_groups, ConceptId, ConceptKind, GroupId, Realization};
use rc_calque::lex::{Cefr, Kind, Lexeme};

#[test]
fn multiword_kinds_are_marked_as_such() {
    assert!(!ConceptKind::Lemma.is_multiword());
    assert!(ConceptKind::Collocation.is_multiword());
    assert!(ConceptKind::PhrasalVerb.is_multiword());
    assert!(ConceptKind::Idiom.is_multiword());
}

#[test]
fn effective_groups_are_sorted_deduped_and_include_derived_ones() {
    let groups = effective_groups(
        &[GroupId::family("offer"), GroupId::family("offer")],
        ConceptKind::Collocation,
        Some(Cefr::B2),
    );
    assert_eq!(
        groups,
        vec![
            GroupId("cefr:B2".into()),
            GroupId("family:offer".into()),
            GroupId("kind:collocation".into()),
        ]
    );
}

/// A dictionary unit to group. Built here rather than looked up: the tests are
/// about the grouping logic, not about what the dictionary holds.
fn lex(unit: &str, kind: Kind, cefr: Cefr, zipf: f32) -> Lexeme {
    Lexeme {
        id: format!("w:{unit}"),
        unit: unit.to_string(),
        kind,
        pos: None,
        cefr,
        cefr_derived: false,
        frequency_rank: (zipf * 100.0).round() as u32,
        frequency_band: if zipf > 0.0 { Some(zipf.trunc() as i32) } else { None },
    }
}

fn family_of(unit: &str) -> GroupId {
    derived_groups(&lex(unit, Kind::Word, Cefr::B1, 4.0))
        .into_iter()
        .find(|g| g.as_str().starts_with("family:"))
        .unwrap_or_else(|| panic!("no family for {unit}"))
}

#[test]
fn related_words_share_a_derivational_family() {
    assert_eq!(family_of("develop"), family_of("developer"));
    assert_eq!(family_of("develop"), family_of("development"));
    assert_eq!(family_of("perform"), family_of("performance"));
    assert_ne!(family_of("develop"), family_of("weather"));
}

#[test]
fn porter_misses_many_derivations() {
    assert_ne!(family_of("pay"), family_of("payment"));
    assert_ne!(family_of("decide"), family_of("decision"));
    assert_ne!(family_of("special"), family_of("specialist"));
}

#[test]
fn a_multiword_unit_joins_the_family_of_its_head() {
    let g = derived_groups(&lex("move in", Kind::PhrasalVerb, Cefr::B1, 3.5));
    assert!(g.iter().any(|x| x.as_str() == "family:move"), "{g:?}");
    assert!(g.iter().any(|x| x.as_str() == "kind:phrasal_verb"), "{g:?}");
}

#[test]
fn derived_groups_span_several_dimensions() {
    let g = derived_groups(&lex("utility", Kind::Word, Cefr::B2, 4.31));
    let has = |p: &str| g.iter().any(|x| x.as_str().starts_with(p));
    assert!(has("cefr:"), "{g:?}");
    assert!(has("kind:"), "{g:?}");
    assert!(has("zipf:"), "{g:?}");
    assert!(has("family:"), "{g:?}");
}

#[test]
fn a_unit_without_frequency_gets_no_band() {
    let g = derived_groups(&lex("kropotkin", Kind::Word, Cefr::C2, 0.0));
    assert!(!g.iter().any(|x| x.as_str().starts_with("zipf:")), "{g:?}");
}

#[test]
fn derived_groups_are_exactly_these_in_order() {
    let g = derived_groups(&lex("utility", Kind::Word, Cefr::B2, 4.31));
    let keys: Vec<&str> = g.iter().map(GroupId::as_str).collect();
    assert_eq!(keys, vec!["cefr:B2", "family:util", "kind:lemma", "zipf:4"]);
    let g = derived_groups(&lex("   ", Kind::Idiom, Cefr::C1, 0.0));
    let keys: Vec<&str> = g.iter().map(GroupId::as_str).collect();
    assert_eq!(keys, vec!["cefr:C1", "kind:idiom"]);
}

#[test]
fn the_head_is_lowercased_before_stemming() {
    let g = derived_groups(&lex("Developers", Kind::Word, Cefr::B2, 3.0));
    assert!(g.iter().any(|x| x.as_str() == "family:develop"), "{g:?}");
}

#[test]
fn group_ids_name_their_dimension() {
    assert_eq!(GroupId::kind(ConceptKind::PhrasalVerb).as_str(), "kind:phrasal_verb");
    assert_eq!(GroupId::cefr(Cefr::A1).as_str(), "cefr:A1");
    assert_eq!(GroupId::frequency_band(4).as_str(), "zipf:4");
    assert_eq!(GroupId::frequency_band(-12).as_str(), "zipf:-12");
    assert_eq!(GroupId::frequency_band(0).as_str(), "zipf:0");
    assert_eq!(GroupId::frequency_band(i32::MIN).as_str(), "zipf:-2147483648");
    assert_eq!(GroupId::family("offer").as_str(), "family:offer");
}

#[test]
fn concept_kinds_follow_dictionary_kinds() {
    assert_eq!(ConceptKind::from_lex(Kind::Word), ConceptKind::Lemma);
    assert_eq!(ConceptKind::from_lex(Kind::PhrasalVerb), ConceptKind::PhrasalVerb);
    assert_eq!(ConceptKind::from_lex(Kind::Idiom), ConceptKind::Idiom);
    assert_eq!(ConceptKind::Collocation.as_str(), "collocation");
    assert!(!ConceptKind::Family.is_multiword());
}

#[test]
fn concept_ids_and_realizations_keep_their_text() {
    let id = ConceptId::from("MAKE_DECISION");
    assert_eq!(id.as_str(), "MAKE_DECISION");
    assert_eq!(ConceptId::from(String::from("A")), ConceptId("A".into()));
    let r = Realization::new("make a decision");
    assert_eq!(r.text, "make a decision");
    assert_eq!(r.lexeme_id, None);
    let r = Realization::from_lexeme("turn down", "pv:turn_down");
    assert_eq!(r.lexeme_id.as_deref(), Some("pv:turn_down"));
}
