// The inventory these tests read is a small one built here, with entries in
// the shape of the English Grammar Profile's; the counts asserted are this
// inventory's.

use rc_calque::gram::{jsonl_records, Aspect, Example, Feature, Grain, Group, Inventory, SkillId};
use rc_calque::lex::Cefr;

fn example(text: &str, pass: Option<bool>) -> Example {
    Example {
        text: text.to_string(),
        level: None,
        l1: None,
        pass,
    }
}

#[allow(clippy::too_many_arguments)]
fn feature(
    n: usize,
    id: &str,
    level: Cefr,
    category: &str,
    subcategory: &str,
    aspect: Aspect,
    topic: &str,
    can_do: &str,
    examples: Vec<Example>,
) -> Feature {
    Feature {
        id: id.to_string(),
        src_id: format!("EGP-{n:04}"),
        level,
        category: category.to_string(),
        subcategory: subcategory.to_string(),
        aspect,
        topic: topic.to_string(),
        can_do: can_do.to_string(),
        lexical_range: None,
        examples,
    }
}

fn inv() -> Inventory {
    let ok = |t: &str| vec![example(t, Some(true))];
    Inventory::from_features(vec![
        feature(1, "egp:conjunctions.coordinating.c2.02", Cefr::C2, "CONJUNCTIONS", "coordinating", Aspect::FormUse,
            "'AND YET', CONCESSIVE", "Can use 'And yet' to introduce a contrast.",
            ok("And yet, I still love the city.")),
        feature(2, "egp:conjunctions.coordinating.c1.04", Cefr::C1, "CONJUNCTIONS", "coordinating", Aspect::Form,
            "'NOT ONLY … BUT ALSO'", "Can use 'not only … but also' to join two ideas.",
            vec![
                example("Not only is it cheap, but it is also fast.", Some(true)),
                example("Not only it is cheap but also is fast.", Some(false)),
            ]),
        feature(3, "egp:adjectives.compound.b1.01", Cefr::B1, "ADJECTIVES", "compound", Aspect::Form,
            "COMPOUND ADJECTIVES", "Can form compound adjectives.", ok("She is a well-known writer.")),
        feature(4, "egp:clauses.conditional.a2.01", Cefr::A2, "CLAUSES", "conditional", Aspect::Form,
            "'IF', REAL CONDITIONS", "Can use 'if' with the present.", ok("If it rains, we stay in.")),
        feature(5, "egp:clauses.conditional.b1.01", Cefr::B1, "CLAUSES", "conditional", Aspect::Use,
            "REQUESTS", "Can use conditionals to make polite requests.",
            vec![example("If you could call me, I would be glad.", None)]),
        feature(6, "egp:clauses.conditional.b2.01", Cefr::B2, "CLAUSES", "conditional", Aspect::FormUse,
            "'UNLESS'", "Can use 'unless'.", ok("Unless you hurry, you will miss it.")),
        feature(7, "egp:clauses.conditional.c1.01", Cefr::C1, "CLAUSES", "conditional", Aspect::Form,
            "'WERE TO'", "Can use 'were to' for unlikely conditions.", ok("If he were to leave, I would cry.")),
        feature(8, "egp:clauses.conditional.c2.01", Cefr::C2, "CLAUSES", "conditional", Aspect::Form,
            "'SHOULD', INVERSION", "Can use inverted 'should'.", ok("Should you need help, call me.")),
        feature(9, "egp:clauses.conditional.c2.02", Cefr::C2, "CLAUSES", "conditional", Aspect::Use,
            "FOCUS", "Can use conditionals for focus.", vec![]),
        feature(10, "egp:past.past_simple.a2.01", Cefr::A2, "PAST", "past_simple", Aspect::Form,
            "REGULAR '-ED'", "Can use regular past forms.", ok("We walked home.")),
        feature(11, "egp:past.past_continuous.b1.01", Cefr::B1, "PAST", "past_continuous", Aspect::FormUse,
            "'WAS' + -ING", "Can use the past continuous.", ok("I was reading when he came.")),
        feature(12, "egp:passives.passives_form.b1.01", Cefr::B1, "PASSIVES", "passives_form", Aspect::Form,
            "'BE' + PAST PARTICIPLE", "Can form the passive.", ok("The house was built in 1900.")),
        feature(13, "egp:modality.ability.a1.01", Cefr::A1, "MODALITY", "ability", Aspect::Form,
            "'CAN'", "Can use 'can' for ability.", ok("I can swim.")),
        feature(14, "egp:modality.obligation.b1.01", Cefr::B1, "MODALITY", "obligation", Aspect::FormUse,
            "'HAVE TO'", "Can use 'have to' for obligation.", ok("I have to go.")),
        feature(15, "egp:modality.obligation.b2.01", Cefr::B2, "MODALITY", "obligation", Aspect::Use,
            "EMPHASIS", "Can use modals for emphasis.", ok("You really must come.")),
        feature(16, "egp:modality.possibility.c1.01", Cefr::C1, "MODALITY", "possibility", Aspect::Other,
            "MIGHT AS WELL?", "Can use 'might as well'.", ok("We might as well go.")),
    ])
}

#[test]
fn inventory_covers_the_expected_scale() {
    let inv = inv();
    assert_eq!(inv.len(), 16);
    assert_eq!(inv.categories().len(), 6);
    assert_eq!(inv.all().iter().filter(|f| !f.examples.is_empty()).count(), 15);
}

#[test]
fn a_feature_carries_level_category_and_corpus_examples() {
    let inv = inv();
    let f = inv.get("egp:conjunctions.coordinating.c2.02").unwrap();
    assert_eq!(f.level, Cefr::C2);
    assert_eq!(f.category, "CONJUNCTIONS");
    assert_eq!(f.subcategory, "coordinating");
    assert_eq!(f.aspect, Aspect::FormUse);
    assert!(f.can_do.starts_with("Can use 'And yet'"));
    assert!(f.examples.iter().any(|e| e.text.contains("And yet")));
}

#[test]
fn markers_extract_the_literals_egp_names_itself() {
    let inv = inv();
    let f = inv.get("egp:conjunctions.coordinating.c1.04").unwrap();
    assert_eq!(f.markers(), vec!["NOT ONLY … BUT ALSO"]);
    let descriptive = inv
        .all()
        .iter()
        .find(|f| f.topic == "COMPOUND ADJECTIVES")
        .unwrap();
    assert!(descriptive.markers().is_empty());
    let with_markers = inv.all().iter().filter(|f| !f.markers().is_empty()).count();
    assert_eq!(with_markers, 11, "literals in {with_markers} entries");
}

#[test]
fn next_step_after_a_level_is_a_finite_answer() {
    let inv = inv();
    let b1 = inv.at_level(Cefr::B1);
    let b2 = inv.at_level(Cefr::B2);
    assert_eq!(b1.len(), 5);
    assert_eq!(b2.len(), 2);
    assert!(b1.iter().all(|f| f.level == Cefr::B1));
    assert_eq!(inv.up_to(Cefr::A2).len(), 1 + 2);
    assert_eq!(inv.up_to(Cefr::C2).len(), inv.len());
}

#[test]
fn modality_is_the_biggest_category_and_is_queryable() {
    let inv = inv();
    let m = inv.in_category("MODALITY");
    assert_eq!(m.len(), 4);
    assert_eq!(inv.in_category("modality").len(), 4, "case does not matter");
    assert!(inv.in_category("NOSUCHTHING").is_empty());
}

#[test]
fn use_features_are_marked_as_never_detectable() {
    let inv = inv();
    let total = inv.len();
    let detectable = inv
        .all()
        .iter()
        .filter(|f| f.aspect.is_detectable_in_principle())
        .count();
    assert_eq!(inv.all().iter().filter(|f| f.aspect == Aspect::Use).count(), 3);
    assert_eq!(detectable, 8 + 4);
    assert!(detectable * 100 / total < 80, "a detector cannot reach 100%");
}

#[test]
fn failed_scripts_are_excluded_from_model_examples() {
    let inv = inv();
    let failed: Vec<_> = inv
        .all()
        .iter()
        .filter(|f| f.examples.iter().any(|e| e.pass == Some(false)))
        .collect();
    assert!(!failed.is_empty());
    let f = failed[0];
    assert!(f.model_examples().iter().all(|e| e.pass == Some(true)));
    assert!(f.model_examples().len() < f.examples.len());
}

#[test]
fn rollup_gives_every_resolution_from_the_same_data() {
    let inv = inv();
    assert_eq!(inv.rollup(Grain::Category).len(), 6);
    assert_eq!(inv.rollup(Grain::Node).len(), 9);
    assert_eq!(inv.rollup(Grain::Rung).len(), 15);
    assert_eq!(inv.rollup(Grain::Feature).len(), 16);
    for g in [Grain::Category, Grain::Node, Grain::Rung] {
        let total: usize = inv.rollup(g).iter().map(Group::len).sum();
        assert_eq!(total, inv.len(), "resolution {g:?} lost entries");
    }
}

#[test]
fn a_coarse_key_addresses_the_precise_ones() {
    let inv = inv();
    let node = SkillId::from("egp:clauses.conditional");
    let rung = SkillId::from("egp:clauses.conditional.c2");
    let feat = SkillId::from("egp:clauses.conditional.c2.01");

    assert_eq!(node.grain(), Some(Grain::Node));
    assert_eq!(feat.grain(), Some(Grain::Feature));
    assert_eq!(feat.truncate(Grain::Node), Some(node.clone()));
    assert_eq!(feat.truncate(Grain::Rung), Some(rung.clone()));
    assert_eq!(node.truncate(Grain::Feature), None);

    assert!(node.covers(&feat));
    assert!(rung.covers(&feat));
    assert!(!rung.covers(&SkillId::from("egp:clauses.conditional.b1.01")));
    assert_eq!(inv.under(&node).len(), 6);
    assert_eq!(inv.under(&rung).len(), 2);
    assert_eq!(inv.under(&feat).len(), 1);
}

#[test]
fn prefix_matching_respects_segment_boundaries() {
    let inv = inv();
    let past = SkillId::from("egp:past");
    assert!(!past.covers(&SkillId::from("egp:passives.passives_form.b1.01")));
    assert!(past.covers(&SkillId::from("egp:past.past_simple.a2.01")));
    assert_eq!(inv.under(&past).len(), 2);
    assert_eq!(inv.under(&SkillId::from("egp:passives")).len(), 1);
}

#[test]
fn a_node_is_a_ladder_of_rungs_bottom_up() {
    let inv = inv();
    let rungs = inv.ladder(&SkillId::from("egp:clauses.conditional"));
    let levels: Vec<Cefr> = rungs.iter().map(|g| g.level_span().unwrap().0).collect();
    assert_eq!(levels, vec![Cefr::A2, Cefr::B1, Cefr::B2, Cefr::C1, Cefr::C2]);
    assert!(levels.windows(2).all(|w| w[0] < w[1]));
    for g in &rungs {
        let (lo, hi) = g.level_span().unwrap();
        assert_eq!(lo, hi);
    }
}

#[test]
fn a_node_without_a_level_spans_the_whole_scale() {
    let inv = inv();
    let nodes = inv.rollup(Grain::Node);
    let wide = nodes
        .iter()
        .filter(|g| {
            let (lo, hi) = g.level_span().unwrap();
            (hi as u8) - (lo as u8) >= 3
        })
        .count();
    assert_eq!(wide, 1, "nodes spanning 3 or more levels");
}

#[test]
fn source_ids_are_preserved_and_unique() {
    let inv = inv();
    let n = inv.all().iter().map(|f| f.src_id.as_str()).collect::<Vec<_>>();
    let uniq: std::collections::HashSet<_> = n.iter().collect();
    assert_eq!(uniq.len(), inv.len());
    assert!(n.iter().all(|s| !s.is_empty()));
}

#[test]
fn a_later_duplicate_key_wins_a_lookup() {
    let mut fs: Vec<Feature> = Vec::new();
    for (n, can_do) in [(1, "first"), (2, "second")] {
        fs.push(feature(n, "egp:past.past_simple.a2.01", Cefr::A2, "PAST", "past_simple",
            Aspect::Form, "'-ED'", can_do, vec![]));
    }
    let inv = Inventory::from_features(fs);
    assert_eq!(inv.get("egp:past.past_simple.a2.01").unwrap().can_do, "second");
    assert!(inv.get("egp:past").is_none());
}

#[test]
fn rollup_groups_are_sorted_by_key_and_lose_nothing() {
    let inv = inv();
    let groups = inv.rollup(Grain::Category);
    let keys: Vec<&str> = groups.iter().map(|g| g.id.as_str()).collect();
    assert_eq!(
        keys,
        vec!["egp:adjectives", "egp:clauses", "egp:conjunctions", "egp:modality", "egp:passives", "egp:past"]
    );
    let clauses = &groups[1];
    assert_eq!(clauses.len(), 6);
    assert_eq!(clauses.level_span(), Some((Cefr::A2, Cefr::C2)));
}

#[test]
fn keys_outside_the_namespace_have_no_grain() {
    assert_eq!(SkillId::from("clauses.conditional").grain(), None);
    assert_eq!(SkillId::from("egp:").grain(), None);
    assert_eq!(SkillId::from("egp:a.b.c.d.e").grain(), None);
    assert_eq!(SkillId::from("egp:a.b.c.d.e").truncate(Grain::Rung), Some(SkillId::from("egp:a.b.c")));
    assert!(SkillId::from("egp:past").covers(&SkillId::from("egp:past")));
}

#[test]
fn categories_are_sorted_and_distinct() {
    let inv = inv();
    assert_eq!(
        inv.categories(),
        vec!["ADJECTIVES", "CLAUSES", "CONJUNCTIONS", "MODALITY", "PASSIVES", "PAST"]
    );
}

#[test]
fn markers_are_trimmed_and_empty_ones_dropped() {
    let f = feature(1, "egp:x.y.a1.01", Cefr::A1, "X", "y", Aspect::Form, "' A ', '', 'B'", "", vec![]);
    assert_eq!(f.markers(), vec!["A", "B"]);
}

#[test]
fn jsonl_records_are_the_non_blank_lines() {
    let text = "{\"a\":1}\n\n   \r\n{\"b\":2}\r\n{\"c\":3}";
    assert_eq!(jsonl_records(text), vec!["{\"a\":1}", "{\"b\":2}", "{\"c\":3}"]);
    assert!(jsonl_records("").is_empty());
}

#[test]
fn markers_of_a_lowercase_topic_are_uppercased() {
    let f = feature(1, "egp:conjunctions.coordinating.c1.04", Cefr::C1, "CONJUNCTIONS", "coordinating",
        Aspect::Form, "'not only … but also'", "", vec![]);
    assert_eq!(f.markers(), vec!["NOT ONLY … BUT ALSO"]);
    let g = feature(2, "egp:x.y.a1.01", Cefr::A1, "X", "y", Aspect::Form, "FORM: ' and yet ', 'straße'", "", vec![]);
    assert_eq!(g.markers(), vec!["AND YET", "STRASSE"]);
}
