use experiment::meta_lang::parse_entities;
use experiment::supercompiler::{body_key, simplify_sources, SimplifyConfig};

fn cfg() -> SimplifyConfig {
    SimplifyConfig { min_occurrences: 2, max_hot: 3 }
}

#[test]
fn body_key_joins_trimmed_tokens() {
    assert_eq!(body_key("  a();  b() ; "), "a();b()");
    assert_eq!(body_key(""), "");
    assert_eq!(body_key(";;"), "");
}

#[test]
fn repeated_body_earns_a_helper() {
    let corpus = vec![
        "entity A { on Tick() { move(velocity * dt); collide(); } }".to_string(),
        "entity B { on Step() { move(velocity * dt); collide(); } }".to_string(),
    ];
    let (rep, hot, outs, helpers) = simplify_sources(&corpus, &cfg()).unwrap();
    assert_eq!(rep.helper_count, 1);
    assert_eq!(rep.total_replacements, 2);
    assert_eq!(outs.len(), 2);
    // both bodies now call the helper
    let back_a = parse_entities(&outs[0]);
    assert_eq!(back_a[0].events[0].body, "helper_0();");
    let back_b = parse_entities(&outs[1]);
    assert_eq!(back_b[0].events[0].body, "helper_0();");
    // the helper records the original sequence
    assert_eq!(helpers.len(), 1);
    assert!(helpers.contains("helper_0"));
    assert_eq!(hot.len(), 1);
    assert_eq!(hot[0].helper_name, "helper_0");
    assert_eq!(hot[0].token_sequence, "move(velocity * dt);collide()");
}

#[test]
fn below_threshold_keeps_bodies() {
    let corpus = vec![
        "entity A { on Tick() { move(velocity * dt); } }".to_string(),
        "entity B { on Step() { patrol(); } }".to_string(),
    ];
    let (rep, hot, outs, helpers) = simplify_sources(&corpus, &cfg()).unwrap();
    assert_eq!(rep.helper_count, 0);
    assert_eq!(rep.total_replacements, 0);
    assert_eq!(hot.len(), 0);
    assert_eq!(helpers.len(), 0);
    let back = parse_entities(&outs[0]);
    assert_eq!(back[0].events[0].body, "move(velocity * dt);");
}

#[test]
fn round_trip_preserves_structure() {
    let corpus = vec![
        "entity A { components: [X]; on Tick() { foo(); } on Hit(o) { bar(); } }".to_string(),
        "entity B { components: [X, Y]; on Tick() { foo(); } }".to_string(),
    ];
    let (_rep, _hot, outs, _helpers) = simplify_sources(&corpus, &cfg()).unwrap();
    for (orig, out) in corpus.iter().zip(outs.iter()) {
        let before = parse_entities(orig);
        let after = parse_entities(out);
        assert_eq!(before.len(), after.len());
        for (eb, ea) in before.iter().zip(after.iter()) {
            assert_eq!(eb.name, ea.name);
            assert_eq!(eb.components, ea.components);
            assert_eq!(eb.events.len(), ea.events.len());
            for (vb, va) in eb.events.iter().zip(ea.events.iter()) {
                assert_eq!(vb.name, va.name);
            }
        }
    }
}

#[test]
fn helper_names_avoid_corpus_identifiers() {
    // the corpus already calls something named helper_0
    let corpus = vec![
        "entity A { on Tick() { helper_0(); go(); } }".to_string(),
        "entity B { on Step() { helper_0(); go(); } }".to_string(),
    ];
    let (rep, _hot, outs, helpers) = simplify_sources(&corpus, &cfg()).unwrap();
    assert_eq!(rep.helper_count, 1);
    assert!(!helpers.contains("helper_0"));
    assert!(helpers.contains("helper_1"));
    let back = parse_entities(&outs[0]);
    assert_eq!(back[0].events[0].body, "helper_1();");
}

#[test]
fn replacement_counts_rank_hot_sequences() {
    let corpus = vec![
        "entity A { on E1() { x(); } on E2() { x(); } on E3() { x(); } }".to_string(),
        "entity B { on E4() { y(); } on E5() { y(); } }".to_string(),
    ];
    let (rep, hot, _outs, _helpers) = simplify_sources(&corpus, &cfg()).unwrap();
    assert_eq!(rep.helper_count, 2);
    assert_eq!(rep.total_replacements, 5);
    assert_eq!(hot.len(), 2);
    assert_eq!(hot[0].token_sequence, "x()");
    assert_eq!(hot[1].token_sequence, "y()");
    let (_rep2, hot2, _o2, _h2) =
        simplify_sources(&corpus, &SimplifyConfig { min_occurrences: 2, max_hot: 1 }).unwrap();
    assert_eq!(hot2.len(), 1);
    assert_eq!(hot2[0].token_sequence, "x()");
}
