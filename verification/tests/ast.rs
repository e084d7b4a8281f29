use experiment::ast::{
    dce, expr_to_string, fold_constants, inline_helpers, parse_statements, resolve_wrappers,
    stmt_to_string, Expr, HelperTable, Stmt,
};

fn render(stmts: &Vec<Stmt>) -> Vec<String> {
    let mut out = Vec::new();
    let mut i = 0;
    while i < stmts.len() {
        out.push(stmt_to_string(&stmts[i]));
        i += 1;
    }
    out
}

#[test]
fn parse_simple_statements() {
    let stmts = parse_statements("move(velocity * dt); collide();");
    assert_eq!(render(&stmts), vec!["move(velocity * dt);", "collide();"]);
}

#[test]
fn parse_if_block() {
    let stmts = parse_statements("if (other.tag == \"Enemy\") { takeDamage(10); }");
    assert_eq!(stmts.len(), 1);
    assert!(matches!(&stmts[0], Stmt::If { .. }));
    assert_eq!(
        stmt_to_string(&stmts[0]),
        "if (other.tag == \"Enemy\") { takeDamage(10);  }"
    );
}

#[test]
fn if_condition_runs_to_matching_paren() {
    // the condition holds a call: its `)` must not end the condition
    let stmts = parse_statements("if (f(x)) { a(); }");
    assert_eq!(stmts.len(), 1);
    assert_eq!(stmt_to_string(&stmts[0]), "if (f(x)) { a();  }");
}

#[test]
fn call_arguments_run_to_matching_paren() {
    // a nested call inside the argument list stays whole, and the comma
    // inside it does not split the arguments
    let stmts = parse_statements("g(f(x, y), z);");
    assert_eq!(stmts.len(), 1);
    match &stmts[0] {
        Stmt::Expr(Expr::Call { name, args }) => {
            assert_eq!(name, "g");
            assert_eq!(args.len(), 2);
            assert_eq!(expr_to_string(&args[0]), "f(x, y)");
            assert_eq!(expr_to_string(&args[1]), "z");
        }
        _ => unreachable!(),
    }
    assert_eq!(render(&stmts), vec!["g(f(x, y), z);"]);
}

#[test]
fn call_name_must_be_a_bare_identifier() {
    let stmts = parse_statements("a.b(x);");
    assert!(matches!(&stmts[0], Stmt::Expr(Expr::Ident(_))));
    assert_eq!(render(&stmts), vec!["a.b(x);"]);
    let ok = parse_statements("take_Damage2(x);");
    assert!(matches!(&ok[0], Stmt::Expr(Expr::Call { .. })));
}

#[test]
fn parse_trailing_statement_without_semicolon() {
    let stmts = parse_statements("a(); b()");
    assert_eq!(render(&stmts), vec!["a();", "b();"]);
}

#[test]
fn parse_empty_statement() {
    let stmts = parse_statements("; a();");
    assert_eq!(stmts.len(), 2);
    assert!(matches!(stmts[0], Stmt::Empty));
}

#[test]
fn parse_number_literals() {
    let stmts = parse_statements("42; -7; 3.5; 1e3; \"hi\"; name;");
    assert_eq!(
        render(&stmts),
        vec!["42;", "-7;", "3.5;", "1e3;", "\"hi\";", "name;"]
    );
    assert!(matches!(stmts[0], Stmt::Expr(Expr::Int(42))));
    assert!(matches!(stmts[1], Stmt::Expr(Expr::Int(-7))));
    assert!(matches!(&stmts[2], Stmt::Expr(Expr::Float(_))));
    assert!(matches!(&stmts[3], Stmt::Expr(Expr::Float(_))));
    assert!(matches!(&stmts[4], Stmt::Expr(Expr::Str(_))));
    assert!(matches!(&stmts[5], Stmt::Expr(Expr::Ident(_))));
}

#[test]
fn huge_numeral_reads_as_float_literal() {
    // one past the largest i64: not an integer literal, but float syntax
    let stmts = parse_statements("9223372036854775808;");
    assert!(matches!(&stmts[0], Stmt::Expr(Expr::Float(_))));
    assert_eq!(render(&stmts), vec!["9223372036854775808;"]);
}

#[test]
fn binary_operator_priority_order() {
    // the first `*` splits before any `+`
    let e = match &parse_statements("a + b * c;")[0] {
        Stmt::Expr(e) => expr_to_string(e),
        _ => unreachable!(),
    };
    assert_eq!(e, "a + b * c");
}

#[test]
fn fold_adds_literals() {
    let mut stmts = parse_statements("2 + 3;");
    fold_constants(&mut stmts);
    assert_eq!(render(&stmts), vec!["5;"]);
}

#[test]
fn fold_division_by_zero_keeps_left_operand() {
    let mut stmts = parse_statements("10 / 0;");
    fold_constants(&mut stmts);
    assert_eq!(render(&stmts), vec!["10;"]);
}

#[test]
fn fold_twice_equals_fold_once() {
    let mut once = parse_statements("1 + 2; move(3 * 4); if (x) { 5 - 2; }");
    fold_constants(&mut once);
    let mut twice = parse_statements("1 + 2; move(3 * 4); if (x) { 5 - 2; }");
    fold_constants(&mut twice);
    fold_constants(&mut twice);
    assert_eq!(render(&once), render(&twice));
    assert_eq!(render(&once), vec!["3;", "move(12);", "if (x) { 3;  }"]);
}

#[test]
fn fold_overflow_left_unfolded() {
    let mut stmts = parse_statements("9223372036854775807 + 1;");
    fold_constants(&mut stmts);
    assert_eq!(render(&stmts), vec!["9223372036854775807 + 1;"]);
}

#[test]
fn dce_drops_literals_and_empties_only() {
    let mut stmts = parse_statements("1; \"x\"; ; call(); 2.5;");
    dce(&mut stmts);
    assert_eq!(render(&stmts), vec!["call();"]);
}

#[test]
fn dce_drops_if_with_empty_body_and_is_idempotent() {
    let mut stmts = parse_statements("if (c) { 1; } keep(); if (d) { go(); }");
    dce(&mut stmts);
    assert_eq!(render(&stmts), vec!["keep();", "if (d) { go();  }"]);
    dce(&mut stmts);
    assert_eq!(render(&stmts), vec!["keep();", "if (d) { go();  }"]);
}

#[test]
fn inline_splices_helper_body_in_order() {
    let mut helpers = HelperTable::new();
    helpers.insert("h".to_string(), parse_statements("a(); b();"));
    let mut stmts = parse_statements("before(); h(); after();");
    inline_helpers(&mut stmts, &helpers);
    assert_eq!(render(&stmts), vec!["before();", "a();", "b();", "after();"]);
}

#[test]
fn inline_recurses_into_if_bodies() {
    let mut helpers = HelperTable::new();
    helpers.insert("h".to_string(), parse_statements("a();"));
    let mut stmts = parse_statements("if (c) { h(); }");
    inline_helpers(&mut stmts, &helpers);
    assert_eq!(render(&stmts), vec!["if (c) { a();  }"]);
}

#[test]
fn inline_then_dce_removes_zero_effect_expansion() {
    let mut helpers = HelperTable::new();
    helpers.insert("pure".to_string(), parse_statements("1; 2;"));
    let mut stmts = parse_statements("pure();");
    inline_helpers(&mut stmts, &helpers);
    dce(&mut stmts);
    assert_eq!(stmts.len(), 0);
}

#[test]
fn wrapper_chain_collapses_transitively() {
    let mut helpers = HelperTable::new();
    helpers.insert("h1".to_string(), parse_statements("h2();"));
    helpers.insert("h2".to_string(), parse_statements("h3();"));
    helpers.insert("h3".to_string(), parse_statements("real(); real2();"));
    let r = resolve_wrappers(&mut helpers);
    assert!(r.is_ok());
    let b1 = render(helpers.get("h1").unwrap());
    let b2 = render(helpers.get("h2").unwrap());
    let b3 = render(helpers.get("h3").unwrap());
    assert_eq!(b1, vec!["real();", "real2();"]);
    assert_eq!(b2, vec!["real();", "real2();"]);
    assert_eq!(b3, vec!["real();", "real2();"]);
}

#[test]
fn wrapper_cycle_is_reported_not_looped() {
    let mut helpers = HelperTable::new();
    helpers.insert("a".to_string(), parse_statements("b();"));
    helpers.insert("b".to_string(), parse_statements("a();"));
    let r = resolve_wrappers(&mut helpers);
    assert!(r.is_err());
    assert_eq!(r.unwrap_err().describe(), "wrapper cycle detected");
    // the table is left as it stood
    assert_eq!(render(helpers.get("a").unwrap()), vec!["b();"]);
}

#[test]
fn self_referential_wrapper_is_a_cycle() {
    let mut helpers = HelperTable::new();
    helpers.insert("a".to_string(), parse_statements("a();"));
    let r = resolve_wrappers(&mut helpers);
    assert!(r.is_err());
}

#[test]
fn round_trip_statement_text() {
    let stmts = parse_statements("move(velocity * dt); collide();");
    let mut text = String::new();
    for st in &stmts {
        text.push_str(&stmt_to_string(st));
        text.push(' ');
    }
    let again = parse_statements(&text);
    assert_eq!(render(&again), render(&stmts));
}
