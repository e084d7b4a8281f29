use experiment::analyzer::{analyze_sources, top_n, CountMap};

#[test]
fn smoke() {
    // an in-memory corpus stands in for a directory of script files
    let corpus = vec![
        "entity A { components:[X]; on Tick(){ foo(); } }".to_string(),
    ];
    let stats = analyze_sources(&corpus);
    assert_eq!(stats.components.get("X"), 1);
    assert_eq!(stats.events.get("Tick"), 1);
    assert_eq!(stats.calls.get("foo"), 1);
}

#[test]
fn two_file_corpus_counts() {
    let corpus = vec![
        "entity A { components:[X]; on Tick(){ foo(); } }".to_string(),
        "entity B { components:[X,Y]; on Tick(){ foo(); bar(); } }".to_string(),
    ];
    let stats = analyze_sources(&corpus);
    assert_eq!(stats.components.get("X"), 2);
    assert_eq!(stats.components.get("Y"), 1);
    assert_eq!(stats.events.get("Tick"), 2);
    assert_eq!(stats.calls.get("foo"), 2);
    assert_eq!(stats.calls.get("bar"), 1);
    assert_eq!(stats.components.get("Z"), 0);
}

#[test]
fn call_scanner_sees_idents_before_parens() {
    let corpus = vec![
        "entity A { on E() { alpha(1); beta (2); if (gamma(x)) { delta(); } } }".to_string(),
    ];
    let stats = analyze_sources(&corpus);
    assert_eq!(stats.calls.get("alpha"), 1);
    // whitespace between the name and `(` still counts
    assert_eq!(stats.calls.get("beta"), 1);
    assert_eq!(stats.calls.get("gamma"), 1);
    assert_eq!(stats.calls.get("delta"), 1);
    // `if` is followed by a space and `(`, so the scanner counts it too
    assert_eq!(stats.calls.get("if"), 1);
}

#[test]
fn top_n_orders_by_count_then_first_seen() {
    let mut m = CountMap::new();
    m.bump("low");
    m.bump("high");
    m.bump("high");
    m.bump("high");
    m.bump("mid");
    m.bump("mid");
    m.bump("tied");
    let ranked = top_n(&m, 10);
    assert_eq!(ranked.len(), 4);
    assert_eq!(ranked[0], ("high".to_string(), 3));
    assert_eq!(ranked[1], ("mid".to_string(), 2));
    // `low` was seen before `tied`, both have count one
    assert_eq!(ranked[2], ("low".to_string(), 1));
    assert_eq!(ranked[3], ("tied".to_string(), 1));
    let two = top_n(&m, 2);
    assert_eq!(two.len(), 2);
    assert_eq!(two[0].0, "high");
    assert_eq!(two[1].0, "mid");
}

#[test]
fn ident_character_classes() {
    assert!(experiment::analyzer::is_ident_start('a'));
    assert!(experiment::analyzer::is_ident_start('Z'));
    assert!(experiment::analyzer::is_ident_start('_'));
    assert!(!experiment::analyzer::is_ident_start('1'));
    assert!(experiment::analyzer::is_ident_continue('1'));
    assert!(!experiment::analyzer::is_ident_continue('('));
}
