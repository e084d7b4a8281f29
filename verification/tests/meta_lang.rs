use experiment::meta_lang::{parse_entities, render_entity, Entity};

#[test]
fn parse_sample_entity() {
    let s = r#"entity A { components: [X, Y]; on Tick() { do(); } }"#;
    let es: Vec<Entity> = parse_entities(s);
    assert_eq!(es.len(), 1);
    let e = &es[0];
    assert_eq!(e.name, "A");
    assert_eq!(e.events.len(), 1);
    assert_eq!(e.events[0].name, "Tick");
}

#[test]
fn meta_lang_parse_sample_entity() {
    let s = r#"entity A { components: [X, Y]; on Tick() { do(); } }"#;
    let es = parse_entities(s);
    assert_eq!(es.len(), 1);
    let e = &es[0];
    assert_eq!(e.name, "A");
    assert_eq!(e.components, vec!["X", "Y"]);
    assert_eq!(e.events.len(), 1);
    assert_eq!(e.events[0].name, "Tick");
}

#[test]
fn body_is_trimmed_and_brace_free() {
    let s = "entity A { components: [X, Y]; on Tick() { do(); } }";
    let es = parse_entities(s);
    assert_eq!(es[0].events[0].body, "do();");
    assert_eq!(es[0].events[0].params.as_deref(), Some(""));
}

#[test]
fn nested_braces_captured_whole() {
    let s = "entity A { on Hit(other) { if (other.tag == \"Enemy\") { takeDamage(10); } log(); } }";
    let es = parse_entities(s);
    assert_eq!(es.len(), 1);
    assert_eq!(es[0].events.len(), 1);
    assert_eq!(
        es[0].events[0].body,
        "if (other.tag == \"Enemy\") { takeDamage(10); } log();"
    );
}

#[test]
fn deeper_nesting_still_balanced() {
    let s = "entity A { on E() { if (a) { if (b) { x(); } y(); } z(); } }";
    let es = parse_entities(s);
    assert_eq!(es[0].events[0].body, "if (a) { if (b) { x(); } y(); } z();");
}

#[test]
fn player_sample_shape() {
    let s = "\nentity Player {\n    components: [Transform, Sprite, Physics, Input];\n\n    on Update(dt) {\n        move(velocity * dt);\n        collide();\n    }\n\n    on Collision(other) {\n        if (other.tag == \"Enemy\") {\n            takeDamage(10);\n        }\n    }\n}\n";
    let es = parse_entities(s);
    assert_eq!(es.len(), 1);
    let e = &es[0];
    assert_eq!(e.name, "Player");
    assert_eq!(e.components, vec!["Transform", "Sprite", "Physics", "Input"]);
    assert_eq!(e.events.len(), 2);
    assert_eq!(e.events[0].name, "Update");
    assert_eq!(e.events[0].params.as_deref(), Some("dt"));
    assert_eq!(e.events[1].name, "Collision");
    assert_eq!(e.events[1].params.as_deref(), Some("other"));
}

#[test]
fn malformed_input_never_fails() {
    assert_eq!(parse_entities("").len(), 0);
    assert_eq!(parse_entities("entity").len(), 0);
    assert_eq!(parse_entities("entity A").len(), 0);
    // unmatched braces stop at end of input, the entity is still produced
    let bare = parse_entities("entity A {");
    assert_eq!(bare.len(), 1);
    assert_eq!(bare[0].name, "A");
    assert_eq!(bare[0].components.len(), 0);
    let es = parse_entities("entity A { components: [X]; ");
    assert_eq!(es.len(), 1);
    assert_eq!(es[0].name, "A");
}

#[test]
fn two_entities_in_order() {
    let s = "entity A { on E() { x(); } } entity B { components: [Q]; }";
    let es = parse_entities(s);
    assert_eq!(es.len(), 2);
    assert_eq!(es[0].name, "A");
    assert_eq!(es[1].name, "B");
    assert_eq!(es[1].components, vec!["Q"]);
    assert_eq!(es[1].events.len(), 0);
}

#[test]
fn render_then_parse_keeps_structure() {
    let s = "entity A { components: [X, Y]; on Tick(dt) { move(velocity * dt); } }";
    let es = parse_entities(s);
    let text = render_entity(&es[0]);
    let back = parse_entities(&text);
    assert_eq!(back.len(), 1);
    assert_eq!(back[0].name, "A");
    assert_eq!(back[0].components, vec!["X", "Y"]);
    assert_eq!(back[0].events.len(), 1);
    assert_eq!(back[0].events[0].name, "Tick");
    assert_eq!(back[0].events[0].body, "move(velocity * dt);");
}

#[test]
fn trim_semicolon_drops_one_trailing() {
    assert_eq!(experiment::meta_lang::trim_semicolon("  do();  "), "do()");
    assert_eq!(experiment::meta_lang::trim_semicolon("do()"), "do()");
    assert_eq!(experiment::meta_lang::trim_semicolon("a();;"), "a();");
}
