use crt_core::ids::{id_string, next_index, suffix_of, IdAllocator};
use crt_core::refinement::{
    apply_mapping, dedup, extract_entity_ids, extract_link_ids, sanitize_entities_and_links,
    AgentRefinement, CrtEntity, CrtLink, CrtRestatement, IdMapping, LeapAnalysisEntry,
};

fn s(text: &str) -> String {
    text.to_string()
}

fn strings(items: &[&str]) -> Vec<String> {
    items.iter().map(|x| x.to_string()).collect()
}

fn entity(id: &str, text: &str, added: bool) -> CrtEntity {
    CrtEntity { id: s(id), text: s(text), added }
}

fn link(id: &str, added: bool) -> CrtLink {
    CrtLink {
        id: s(id),
        from: None,
        to: None,
        kind: None,
        added,
        entities: vec![],
        source_entities: vec![],
        target_entities: vec![],
        expressions: vec![],
        line: None,
        text: None,
    }
}

fn proposal(entities: Vec<CrtEntity>, links: Vec<CrtLink>) -> AgentRefinement {
    AgentRefinement {
        crt_restatement: CrtRestatement { entities, links },
        leap_analysis: vec![LeapAnalysisEntry {
            link: Some(s("L1")),
            clr_finding: None,
            why_its_a_leap: Some(s("E1 does not lead to E2 by itself")),
            bridging_proposal: strings(&["E1"]),
            rewritten_micro_chain: None,
        }],
        suggested_edits: strings(&["rename E1"]),
        quick_consistency_checks: vec![],
        run_id: Some(s("run-7")),
    }
}

fn mapping(pairs: &[(&str, &str)]) -> IdMapping {
    let mut m = IdMapping::new();
    for (old, new) in pairs {
        m.insert(s(old), s(new));
    }
    m
}

#[test]
fn new_entity_under_a_taken_id_moves_and_references_follow() {
    let mut l = link("L1", false);
    l.from = Some(s("E1"));
    l.to = Some(s("E2"));
    l.entities = strings(&["E1", "E2"]);
    l.source_entities = strings(&["E1"]);
    l.target_entities = strings(&["E2"]);
    l.expressions = strings(&["E1 → E2", "NOT E1"]);
    l.line = Some(s("L1. E1 → E2"));
    let mut p = proposal(vec![entity("E1", "a new cause", true)], vec![l]);
    p.sanitize(&strings(&["E1", "E2"]), &strings(&["L1"]));
    let r = &p.crt_restatement;
    assert_eq!(r.entities, vec![entity("E3", "a new cause", true)]);
    let out = &r.links[0];
    assert_eq!(out.id, "L1");
    assert_eq!(out.from, Some(s("E3")));
    assert_eq!(out.to, Some(s("E2")));
    assert_eq!(out.entities, strings(&["E3", "E2"]));
    assert_eq!(out.source_entities, strings(&["E3"]));
    assert_eq!(out.target_entities, strings(&["E2"]));
    assert_eq!(out.expressions, strings(&["E3 → E2", "NOT E3"]));
    assert_eq!(out.line, Some(s("L1. E3 → E2")));
    assert_eq!(out.added, false);
}

#[test]
fn analysis_is_carried_through() {
    let before = proposal(vec![entity("E1", "x", true)], vec![]);
    let mut after = before.clone();
    after.sanitize(&strings(&["E1"]), &vec![]);
    assert_eq!(after.leap_analysis, before.leap_analysis);
    assert_eq!(after.suggested_edits, before.suggested_edits);
    assert_eq!(after.quick_consistency_checks, before.quick_consistency_checks);
    assert_eq!(after.run_id, before.run_id);
    assert_eq!(after.crt_restatement.entities, vec![entity("E2", "x", true)]);
}

#[test]
fn sanitizing_twice_from_the_same_input_gives_the_same_output() {
    let make = || {
        let mut l = link("bad id", true);
        l.entities = strings(&["E1", "E9", "X"]);
        l.text = Some(s("E1 AND X → E2"));
        proposal(
            vec![entity("E1", "a", true), entity("X", "b", false), entity("E2", "c", false)],
            vec![l, link("L1", false)],
        )
    };
    let existing = strings(&["E2", "E1", "E5"]);
    let links = strings(&["L1", "L2"]);
    let mut a = make();
    let mut b = make();
    a.sanitize(&existing, &links);
    b.sanitize(&existing, &links);
    assert_eq!(a, b);
    assert_eq!(format!("{:?}", a), format!("{:?}", b));
}

#[test]
fn dangling_reference_is_dropped() {
    let mut l = link("L1", false);
    l.from = Some(s("E7"));
    l.to = Some(s("E1"));
    l.entities = strings(&["E1", "E7", "E2"]);
    l.source_entities = strings(&["E7"]);
    l.target_entities = strings(&["E1", "nonsense"]);
    let mut r = CrtRestatement { entities: vec![entity("E2", "kept", false)], links: vec![l] };
    sanitize_entities_and_links(&mut r, &strings(&["E1"]), &strings(&["L1"]));
    let out = &r.links[0];
    assert_eq!(out.from, None);
    assert_eq!(out.to, Some(s("E1")));
    assert_eq!(out.entities, strings(&["E1", "E2"]));
    assert_eq!(out.source_entities, Vec::<String>::new());
    assert_eq!(out.target_entities, strings(&["E1"]));
}

#[test]
fn entity_ids_fresh_where_needed_and_kept_where_not() {
    let mut r = CrtRestatement {
        entities: vec![
            entity("E1", "restated", false),
            entity("E1", "repeats the first", false),
            entity("e4", "malformed", false),
            entity("E7", "unknown but well formed", true),
            entity("E2", "new under a taken id", true),
            entity("E7", "repeats an earlier new one", true),
            entity("E10", "taken by the one before", false),
        ],
        links: vec![],
    };
    sanitize_entities_and_links(&mut r, &strings(&["E1", "E2", "E8"]), &vec![]);
    let ids: Vec<&str> = r.entities.iter().map(|x| x.id.as_str()).collect();
    assert_eq!(ids, vec!["E1", "E9", "E10", "E7", "E11", "E12", "E13"]);
    let texts: Vec<&str> = r.entities.iter().map(|x| x.text.as_str()).collect();
    assert_eq!(texts[2], "malformed");
    assert_eq!(r.entities[4].added, true);
}

#[test]
fn fresh_index_skips_ids_in_use() {
    let mut r = CrtRestatement {
        entities: vec![entity("E5", "kept", false), entity("x", "a", true), entity("y", "b", true)],
        links: vec![],
    };
    sanitize_entities_and_links(&mut r, &strings(&["E3", "EE4"]), &vec![]);
    let ids: Vec<&str> = r.entities.iter().map(|x| x.id.as_str()).collect();
    assert_eq!(ids, vec!["E5", "E6", "E7"]);
}

#[test]
fn link_ids_new_links_always_move() {
    let mut r = CrtRestatement {
        entities: vec![],
        links: vec![
            link("L1", false),
            link("L9", true),
            link("link", false),
            link("L1", false),
            link("L4", false),
            link("L2", true),
        ],
    };
    sanitize_entities_and_links(&mut r, &vec![], &strings(&["L1", "L2"]));
    let ids: Vec<&str> = r.links.iter().map(|x| x.id.as_str()).collect();
    assert_eq!(ids, vec!["L1", "L3", "L4", "L5", "L6", "L7"]);
}

#[test]
fn endpoints_are_added_to_the_lists_once() {
    let mut l = link("L1", false);
    l.from = Some(s("E1"));
    l.to = Some(s("E2"));
    l.entities = strings(&["E2", "E2"]);
    l.source_entities = strings(&["E1", "E1"]);
    let mut r = CrtRestatement { entities: vec![], links: vec![l] };
    sanitize_entities_and_links(&mut r, &strings(&["E1", "E2"]), &vec![]);
    let out = &r.links[0];
    assert_eq!(out.entities, strings(&["E2", "E1"]));
    assert_eq!(out.source_entities, strings(&["E1"]));
    assert_eq!(out.target_entities, strings(&["E2"]));
}

#[test]
fn line_is_rebuilt_from_text_or_from_its_own_suffix() {
    let mut with_text = link("L1", true);
    with_text.text = Some(s("E1 → E2"));
    with_text.line = Some(s("whatever was here"));
    let mut with_line = link("L2", true);
    with_line.line = Some(s("L2.   E1 → E2.  "));
    let mut no_dot = link("L3", true);
    no_dot.line = Some(s("  E1 leads on  "));
    let bare = link("L4", true);
    let mut r = CrtRestatement {
        entities: vec![entity("E1", "moved", true)],
        links: vec![with_text, with_line, no_dot, bare],
    };
    sanitize_entities_and_links(&mut r, &strings(&["E1", "E2"]), &strings(&["L1"]));
    assert_eq!(r.links[0].id, "L2");
    assert_eq!(r.links[0].text, Some(s("E3 → E2")));
    assert_eq!(r.links[0].line, Some(s("L2. E3 → E2")));
    assert_eq!(r.links[1].line, Some(s("L3. E3 → E2.")));
    assert_eq!(r.links[2].line, Some(s("L4. E3 leads on")));
    assert_eq!(r.links[3].line, None);
    assert_eq!(r.links[3].id, "L5");
}

#[test]
fn empty_proposal_stays_empty() {
    let mut r = CrtRestatement { entities: vec![], links: vec![] };
    sanitize_entities_and_links(&mut r, &strings(&["E1"]), &strings(&["L1"]));
    assert_eq!(r, CrtRestatement { entities: vec![], links: vec![] });
}

#[test]
fn mapping_replaces_whole_words_only() {
    let m = mapping(&[("E1", "E3")]);
    assert_eq!(apply_mapping("E1 and E10, not E11; (E1)", &m), "E3 and E10, not E11; (E3)");
    assert_eq!(apply_mapping("xE1 E1x E1", &m), "xE1 E1x E3");
    assert_eq!(apply_mapping("", &m), "");
    assert_eq!(apply_mapping("E1", &IdMapping::new()), "E1");
}

#[test]
fn mapping_applies_pairs_in_order() {
    let m = mapping(&[("E1", "E2"), ("E2", "E5")]);
    assert_eq!(apply_mapping("E1 E2", &m), "E5 E5");
    let n = mapping(&[("E2", "E5"), ("E1", "E2")]);
    assert_eq!(apply_mapping("E1 E2", &n), "E2 E5");
}

#[test]
fn mapping_takes_old_ids_literally() {
    let m = mapping(&[("a.b", "E1"), ("x+y", "E2")]);
    assert_eq!(apply_mapping("a.b axb x+y xxy", &m), "E1 axb E2 xxy");
}

#[test]
fn mapping_insert_replaces_and_keeps_place() {
    let mut m = mapping(&[("a", "E1"), ("b", "E2")]);
    m.insert(s("a"), s("E9"));
    assert_eq!(m.pairs, vec![(s("a"), s("E9")), (s("b"), s("E2"))]);
    assert_eq!(m.get(&s("a")), Some(s("E9")));
    assert_eq!(m.get(&s("c")), None);
    assert_eq!(m.resolve(&s("b")), "E2");
    assert_eq!(m.resolve(&s("c")), "c");
}

#[test]
fn dedup_keeps_first_occurrences_in_order() {
    let mut v = strings(&["E2", "E1", "E2", "E3", "E1", "E2"]);
    dedup(&mut v);
    assert_eq!(v, strings(&["E2", "E1", "E3"]));
    let mut empty: Vec<String> = vec![];
    dedup(&mut empty);
    assert_eq!(empty, Vec::<String>::new());
}

#[test]
fn ids_are_found_in_text() {
    let text = "E1. one\nE22. two\nL1. E1 → E22 // see E1, LE3 and L04";
    assert_eq!(extract_entity_ids(text), strings(&["E1", "E22", "E3"]));
    assert_eq!(extract_link_ids(text), strings(&["L1", "L04"]));
    assert_eq!(extract_entity_ids("nothing here"), Vec::<String>::new());
}

#[test]
fn id_writing_and_reading() {
    assert_eq!(id_string('E', 0), "E0");
    assert_eq!(id_string('L', 4294967296), "L4294967296");
    assert_eq!(id_string('E', u128::MAX), "E340282366920938463463374607431768211455");
    assert_eq!(suffix_of(&s("E12"), 'E'), Some(12));
    assert_eq!(suffix_of(&s("EEE7"), 'E'), Some(7));
    assert_eq!(suffix_of(&s("E+7"), 'E'), Some(7));
    assert_eq!(suffix_of(&s("007"), 'E'), Some(7));
    assert_eq!(suffix_of(&s("E"), 'E'), None);
    assert_eq!(suffix_of(&s("E-1"), 'E'), None);
    assert_eq!(suffix_of(&s("L3"), 'E'), None);
    assert_eq!(suffix_of(&s("E4294967296"), 'E'), None);
    assert_eq!(suffix_of(&s("E12"), 'E'), "E12".trim_start_matches('E').parse::<u32>().ok());
    assert_eq!(next_index(&strings(&["E3", "x", "E10", "E9"]), 'E'), 11);
    assert_eq!(next_index(&vec![], 'L'), 1);
    assert_eq!(next_index(&strings(&["E4294967295"]), 'E'), 4294967296);
}

#[test]
fn allocator_hands_out_the_smallest_free_id() {
    let mut a = IdAllocator::new('E', &strings(&["E1", "E4", "junk"]));
    assert_eq!(a.next, 5);
    assert!(a.contains(&s("E4")));
    a.keep(&s("E6"));
    assert_eq!(a.allocate(), "E5");
    assert_eq!(a.allocate(), "E7");
    assert_eq!(a.next, 8);
    assert!(a.contains(&s("E7")));
}

#[test]
fn order_of_the_documents_ids_does_not_matter() {
    let make = || {
        let mut l = link("L2", true);
        l.entities = strings(&["E1", "E2", "E9"]);
        l.line = Some(s("L2. E1 → E2"));
        CrtRestatement {
            entities: vec![entity("E1", "a", true), entity("E9", "b", false), entity("?", "c", false)],
            links: vec![l, link("L1", false)],
        }
    };
    let mut a = make();
    let mut b = make();
    sanitize_entities_and_links(&mut a, &strings(&["E1", "E2", "E4"]), &strings(&["L1", "L2"]));
    sanitize_entities_and_links(
        &mut b,
        &strings(&["E4", "E2", "E1", "E2", "E4"]),
        &strings(&["L2", "L2", "L1"]),
    );
    assert_eq!(a, b);
    let ids: Vec<&str> = a.entities.iter().map(|x| x.id.as_str()).collect();
    assert_eq!(ids, vec!["E5", "E9", "E6"]);
    assert_eq!(a.links[0].id, "L3");
    assert_eq!(a.links[0].entities, strings(&["E5", "E2", "E9"]));
    assert_eq!(a.links[0].line, Some(s("L3. E5 → E2")));
}

#[test]
fn the_engine_decides_what_an_identifier_is() {
    let mut r = CrtRestatement {
        entities: vec![
            entity("E٣", "digits of another script", false),
            entity("E1\n", "trailing line break", false),
            entity(" E1", "leading blank", false),
            entity("E", "no digits", false),
            entity("E007", "leading zeros", false),
        ],
        links: vec![link("L٣", false), link("l1", false)],
    };
    sanitize_entities_and_links(&mut r, &vec![], &vec![]);
    let ids: Vec<&str> = r.entities.iter().map(|x| x.id.as_str()).collect();
    assert_eq!(ids, vec!["E٣", "E1", "E2", "E3", "E007"]);
    let link_ids: Vec<&str> = r.links.iter().map(|x| x.id.as_str()).collect();
    assert_eq!(link_ids, vec!["L٣", "L1"]);
}
