// The dictionary these tests read is a small one built here, with the entries
// the texts below need, at the levels the dictionary of forms gives them.

use rc_calque::lex::{
    parse_lexicon, parse_lexicon_line, rank, tokenize, Analysis, Cefr, Dict, Found, Kind, Lexeme,
};

fn lexeme(id: &str, unit: &str, kind: Kind, cefr: Cefr, derived: bool, zipf: f32) -> Lexeme {
    let pos = id.split('|').nth(1).map(str::to_string);
    Lexeme {
        id: id.to_string(),
        unit: unit.to_string(),
        kind,
        pos,
        cefr,
        cefr_derived: derived,
        // Zipf values here have at most two decimals: a hundredfold is an exact key.
        frequency_rank: (zipf * 100.0).round() as u32,
        frequency_band: if zipf > 0.0 { Some(zipf.trunc() as i32) } else { None },
    }
}

fn dict() -> Dict {
    Dict::from_lexemes(vec![
        lexeme("w:when|adv", "when", Kind::Word, Cefr::A1, false, 6.3),
        lexeme("w:can|verb", "can", Kind::Word, Cefr::A1, false, 6.5),
        lexeme("w:i|pron", "i", Kind::Word, Cefr::A1, false, 7.1),
        lexeme("w:he|pron", "he", Kind::Word, Cefr::A1, false, 6.9),
        lexeme("w:move|verb", "move", Kind::Word, Cefr::A1, false, 5.2),
        lexeme("pv:move_in", "move in", Kind::PhrasalVerb, Cefr::B1, true, 0.0),
        lexeme("w:be|verb", "be", Kind::Word, Cefr::A1, false, 6.9),
        lexeme("w:utility|noun", "utility", Kind::Word, Cefr::B2, false, 4.31),
        lexeme("w:internet|noun", "internet", Kind::Word, Cefr::A2, false, 5.1),
        lexeme("w:and|conj", "and", Kind::Word, Cefr::A1, false, 7.4),
        lexeme("w:heating|noun", "heating", Kind::Word, Cefr::B1, false, 4.2),
        lexeme("w:include|verb", "include", Kind::Word, Cefr::A2, false, 5.3),
        lexeme("w:in|prep", "in", Kind::Word, Cefr::A1, false, 7.3),
        lexeme("w:the|det", "the", Kind::Word, Cefr::A1, false, 7.7),
        lexeme("w:rent|noun", "rent", Kind::Word, Cefr::A2, false, 4.6),
        lexeme("w:go|verb", "go", Kind::Word, Cefr::A1, false, 6.2),
        lexeme("id:go_to", "go to", Kind::Idiom, Cefr::B2, true, 0.0),
        lexeme("pv:go_to", "go to", Kind::PhrasalVerb, Cefr::A2, true, 0.0),
        lexeme("w:to|prep", "to", Kind::Word, Cefr::A1, false, 7.4),
        lexeme("w:shop|noun", "shop", Kind::Word, Cefr::B1, false, 4.9),
        lexeme("pv:get_up", "get up", Kind::PhrasalVerb, Cefr::A2, true, 0.0),
        lexeme("pv:put_up_with", "put up with", Kind::PhrasalVerb, Cefr::B2, true, 0.0),
        lexeme("w:cover|verb", "cover", Kind::Word, Cefr::B1, false, 4.8),
        lexeme("w:cover|noun", "cover", Kind::Word, Cefr::B1, false, 4.6),
    ])
}

/// A text from the renting deck: simple grammar, less simple vocabulary.
const RENT: &str = "When can I move in? Are utilities, internet and heating included in the rent?";

fn found<'a>(a: &'a Analysis, unit: &str) -> &'a Found {
    a.units
        .iter()
        .find(|u| u.unit == unit)
        .unwrap_or_else(|| panic!("no unit {unit}: {:?}", a.units))
}

#[test]
fn phrasal_verb_is_one_unit_not_two_words() {
    let a = dict().analyze(RENT);
    let pv = found(&a, "move in");
    assert_eq!(pv.kind, Kind::PhrasalVerb);
    assert_eq!(pv.id, "pv:move_in");
    assert!(!a.units.iter().any(|u| u.unit == "move"));
}

#[test]
fn literal_use_of_a_prepositional_verb_over_matches() {
    let a = dict().analyze("I can go to the shop.");
    assert_eq!(found(&a, "go to").kind, Kind::PhrasalVerb);
}

#[test]
fn inflected_forms_map_to_the_canonical_unit() {
    let d = dict();
    let a = d.analyze(RENT);
    assert_eq!(found(&a, "utility").surface, "utilities");
    assert_eq!(found(&a, "utility").id, "w:utility|noun");
    assert_eq!(d.analyze("He moved in yesterday.").units[1].unit, "move in");
}

#[test]
fn lexical_difficulty_is_driven_by_the_rare_word() {
    let a = dict().analyze(RENT);
    assert_eq!(found(&a, "utility").cefr, Cefr::B2);
    assert_eq!(found(&a, "rent").cefr, Cefr::A2);
    assert_eq!(a.difficulty(), Some(Cefr::B2));
}

#[test]
fn function_words_do_not_drive_difficulty() {
    let a = dict().analyze("I can go to the shop.");
    assert_eq!(found(&a, "the").cefr, Cefr::A1);
    assert_eq!(a.difficulty(), Some(Cefr::B1));
}

#[test]
fn unknown_words_are_reported_not_swallowed() {
    let a = dict().analyze("Kropotkin visited Tbilisi.");
    assert!(a.unknown.iter().any(|w| w == "kropotkin"));
}

#[test]
fn phrasal_verb_level_follows_its_own_frequency() {
    let d = dict();
    let level = |unit: &str| d.lookup(unit).unwrap().cefr;
    assert_eq!(level("get up"), Cefr::A2);
    assert_eq!(level("move in"), Cefr::B1);
    assert_eq!(level("put up with"), Cefr::B2);
    assert!(level("get up") < level("move in"));
    assert!(level("move in") < level("put up with"));
}

#[test]
fn mwe_level_is_marked_as_derived() {
    let d = dict();
    assert!(found(&d.analyze(RENT), "move in").cefr_derived);
    assert!(!found(&d.analyze(RENT), "utility").cefr_derived);
}

#[test]
fn units_come_in_order_once_each() {
    let a = dict().analyze(RENT);
    let units: Vec<&str> = a.units.iter().map(|u| u.unit.as_str()).collect();
    assert_eq!(
        units,
        vec!["when", "can", "i", "move in", "be", "utility", "internet", "and", "heating", "include", "in", "the", "rent"]
    );
    let a = dict().analyze("the the cat the cat");
    assert_eq!(a.units.len(), 1);
    assert_eq!(a.unknown, vec!["cat"]);
}

#[test]
fn the_most_frequent_reading_wins_then_the_kind() {
    let d = dict();
    assert_eq!(d.lookup("cover").unwrap().id, "w:cover|verb");
    assert_eq!(d.lookup("go to").unwrap().id, "pv:go_to");
    assert!(d.lookup("nothing").is_none());
    assert!(rank(Kind::Word) < rank(Kind::PhrasalVerb));
    assert!(rank(Kind::PhrasalVerb) < rank(Kind::Idiom));
}

#[test]
fn tokens_are_lowercased_words_keeping_apostrophes() {
    assert_eq!(tokenize("Don't STOP, O'Brien!"), vec!["don't", "stop", "o'brien"]);
    assert!(tokenize(" ,.; ").is_empty());
}

#[test]
fn difficulty_is_the_ninetieth_percentile_of_content_units() {
    let d = dict();
    assert_eq!(d.analyze("the in and").difficulty(), None);
    let a = d.analyze("when rent shop utility");
    assert_eq!(a.difficulty(), Some(Cefr::B2));
    let a = d.analyze("when can be go move internet include rent heating shop utility");
    // Eleven content units: the tenth smallest level, B1, not the rare B2.
    assert_eq!(a.difficulty(), Some(Cefr::B1));
}

#[test]
fn cefr_levels_parse_exactly() {
    assert_eq!(Cefr::parse("B2"), Some(Cefr::B2));
    assert_eq!(Cefr::parse("b2"), None);
    assert_eq!(Cefr::parse("B2 "), None);
    assert_eq!(Cefr::C1.as_str(), "C1");
    assert!(Cefr::A1.at_most(Cefr::C2));
    assert!(!Cefr::C2.at_most(Cefr::A1));
}

#[test]
fn lexicon_lines_parse_into_rows() {
    let row = parse_lexicon_line("pv:move_in\tmove in\tphrasal_verb\t\tB1\tderived\t0").unwrap();
    assert_eq!(row.id, "pv:move_in");
    assert_eq!(row.unit, "move in");
    assert_eq!(row.kind, Kind::PhrasalVerb);
    assert_eq!(row.pos, None);
    assert_eq!(row.cefr, Cefr::B1);
    assert!(row.cefr_derived);
    assert_eq!(row.zipf, "0");
    let row = parse_lexicon_line("w:utility|noun\tutility\tword\tnoun\tB2\tcefrj\t4.31").unwrap();
    assert_eq!(row.pos.as_deref(), Some("noun"));
    assert!(!row.cefr_derived);
    assert_eq!(row.kind, Kind::Word);
    assert!(parse_lexicon_line("w:x\tx\tword\t\tZ9\t\t1").is_none());
    assert!(parse_lexicon_line("w:x\tx\tword\t\tA1\t").is_none());
}

#[test]
fn a_lexicon_file_skips_its_header_and_bad_lines() {
    let tsv = "id\tunit\tkind\tpos\tcefr\tsource\tzipf\n\
               w:rent|noun\trent\tword\tnoun\tA2\tcefrj\t4.6\n\
               broken line\n\
               pv:get_up\tget up\tphrasal_verb\t\tA2\tderived\t0\r\n";
    let rows = parse_lexicon(tsv);
    assert_eq!(rows.len(), 2);
    assert_eq!(rows[0].unit, "rent");
    assert_eq!(rows[1].unit, "get up");
    assert_eq!(rows[1].zipf, "0");
    assert!(parse_lexicon("").is_empty());
}

#[test]
fn dictionary_lists_its_entries_in_order() {
    let d = dict();
    assert_eq!(d.lexemes().len(), 24);
    assert_eq!(d.lexemes()[0].unit, "when");
}

#[test]
fn content_units_exclude_function_words() {
    let a = dict().analyze("the shop");
    assert!(!a.units[0].is_content());
    assert!(a.units[1].is_content());
}
