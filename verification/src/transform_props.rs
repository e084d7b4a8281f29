//! Proved laws of the transformation passes: constant folding and dead-code
//! elimination are idempotent, dead-code elimination keeps every call
//! statement, and inlining a helper whose body cleans to nothing leaves
//! nothing behind after cleaning.

use vstd::prelude::*;

use crate::ast::{
    is_call_stmt, is_literal_expr, spec_dce, spec_expand_stmt, spec_fold_expr, spec_fold_exprs,
    spec_fold_stmt, spec_fold_stmts, spec_inline, spec_lookup, ExprView, StmtView,
};

verus! {

/// Dead-code elimination distributes over concatenation.
pub proof fn lemma_dce_concat(a: Seq<StmtView>, b: Seq<StmtView>)
    ensures
        spec_dce(a + b) == spec_dce(a) + spec_dce(b),
    decreases a.len(),
{
    if a.len() == 0 {
        assert(a + b =~= b);
        assert(spec_dce(a) + spec_dce(b) =~= spec_dce(b));
    } else {
        assert((a + b).len() > 0);
        assert((a + b)[0] == a[0]);
        assert((a + b).drop_first() =~= a.drop_first() + b);
        lemma_dce_concat(a.drop_first(), b);
        assert(spec_dce(a + b) =~= spec_dce(a) + spec_dce(b));
    }
}

/// Folding a second time changes nothing on an expression.
pub proof fn lemma_fold_expr_idempotent(e: ExprView)
    ensures
        spec_fold_expr(spec_fold_expr(e)) == spec_fold_expr(e),
    decreases e,
{
    match e {
        ExprView::BinaryOp { op, lhs, rhs } => {
            lemma_fold_expr_idempotent(*lhs);
            lemma_fold_expr_idempotent(*rhs);
        },
        ExprView::Call { name, args } => {
            lemma_fold_exprs_idempotent(args);
        },
        _ => {},
    }
}

/// Folding a second time changes nothing on an argument list.
pub proof fn lemma_fold_exprs_idempotent(s: Seq<ExprView>)
    ensures
        spec_fold_exprs(spec_fold_exprs(s)) == spec_fold_exprs(s),
    decreases s,
{
    if s.len() > 0 {
        lemma_fold_expr_idempotent(s[0]);
        lemma_fold_exprs_idempotent(s.drop_first());
        assert(spec_fold_exprs(s)[0] == spec_fold_expr(s[0]));
        assert(spec_fold_exprs(s).drop_first() =~= spec_fold_exprs(s.drop_first()));
        assert(spec_fold_exprs(spec_fold_exprs(s)) =~= spec_fold_exprs(s));
    }
}

/// Folding a second time changes nothing on a statement.
pub proof fn lemma_fold_stmt_idempotent(st: StmtView)
    ensures
        spec_fold_stmt(spec_fold_stmt(st)) == spec_fold_stmt(st),
    decreases st,
{
    match st {
        StmtView::Expr(e) => {
            lemma_fold_expr_idempotent(e);
        },
        StmtView::If { cond, body } => {
            lemma_fold_expr_idempotent(cond);
            lemma_fold_stmts_idempotent(body);
        },
        StmtView::Empty => {},
    }
}

/// Constant folding is idempotent: folding a statement sequence twice yields
/// the same sequence as folding it once.
pub proof fn lemma_fold_stmts_idempotent(s: Seq<StmtView>)
    ensures
        spec_fold_stmts(spec_fold_stmts(s)) == spec_fold_stmts(s),
    decreases s,
{
    if s.len() > 0 {
        lemma_fold_stmt_idempotent(s[0]);
        lemma_fold_stmts_idempotent(s.drop_first());
        assert(spec_fold_stmts(s)[0] == spec_fold_stmt(s[0]));
        assert(spec_fold_stmts(s).drop_first() =~= spec_fold_stmts(s.drop_first()));
        assert(spec_fold_stmts(spec_fold_stmts(s)) =~= spec_fold_stmts(s));
    }
}

/// Dead-code elimination is idempotent: cleaning a statement sequence twice
/// yields the same sequence as cleaning it once.
pub proof fn lemma_dce_idempotent(s: Seq<StmtView>)
    ensures
        spec_dce(spec_dce(s)) == spec_dce(s),
    decreases s,
{
    if s.len() > 0 {
        lemma_dce_idempotent(s.drop_first());
        match s[0] {
            StmtView::Empty => {},
            StmtView::Expr(e) => {
                if !is_literal_expr(e) {
                    assert(spec_dce(s) =~= seq![s[0]] + spec_dce(s.drop_first()));
                    lemma_dce_concat(seq![s[0]], spec_dce(s.drop_first()));
                    assert(seq![s[0]].drop_first() =~= Seq::<StmtView>::empty());
                    assert(spec_dce(Seq::<StmtView>::empty()) == Seq::<StmtView>::empty());
                    assert(spec_dce(seq![s[0]]) =~= seq![s[0]]);
                }
            },
            StmtView::If { cond, body } => {
                lemma_dce_idempotent(body);
                let nb = spec_dce(body);
                if nb.len() > 0 {
                    let h = StmtView::If { cond, body: nb };
                    assert(spec_dce(s) =~= seq![h] + spec_dce(s.drop_first()));
                    lemma_dce_concat(seq![h], spec_dce(s.drop_first()));
                    assert(seq![h].drop_first() =~= Seq::<StmtView>::empty());
                    assert(spec_dce(Seq::<StmtView>::empty()) == Seq::<StmtView>::empty());
                    assert(spec_dce(seq![h]) =~= seq![h]);
                }
            },
        }
        assert(spec_dce(spec_dce(s)) =~= spec_dce(s));
    }
}

/// The call statements of a sequence, in order.
pub open spec fn calls_of(s: Seq<StmtView>) -> Seq<StmtView>
    decreases s,
{
    if s.len() == 0 {
        Seq::empty()
    } else {
        (if is_call_stmt(s[0]) {
            seq![s[0]]
        } else {
            Seq::<StmtView>::empty()
        }) + calls_of(s.drop_first())
    }
}

pub proof fn lemma_calls_of_concat(a: Seq<StmtView>, b: Seq<StmtView>)
    ensures
        calls_of(a + b) == calls_of(a) + calls_of(b),
    decreases a.len(),
{
    if a.len() == 0 {
        assert(a + b =~= b);
        assert(calls_of(a) + calls_of(b) =~= calls_of(b));
    } else {
        assert((a + b)[0] == a[0]);
        assert((a + b).drop_first() =~= a.drop_first() + b);
        lemma_calls_of_concat(a.drop_first(), b);
        assert(calls_of(a + b) =~= calls_of(a) + calls_of(b));
    }
}

/// Dead-code elimination never removes a call statement: the cleaned
/// sequence holds exactly the call statements of the original, in order.
pub proof fn lemma_dce_keeps_calls(s: Seq<StmtView>)
    ensures
        calls_of(spec_dce(s)) == calls_of(s),
    decreases s,
{
    if s.len() > 0 {
        lemma_dce_keeps_calls(s.drop_first());
        match s[0] {
            StmtView::Empty => {},
            StmtView::Expr(e) => {
                if !is_literal_expr(e) {
                    assert(spec_dce(s) =~= seq![s[0]] + spec_dce(s.drop_first()));
                    lemma_calls_of_concat(seq![s[0]], spec_dce(s.drop_first()));
                    assert(seq![s[0]].drop_first() =~= Seq::<StmtView>::empty());
                    assert(calls_of(Seq::<StmtView>::empty()) == Seq::<StmtView>::empty());
                } else {
                    // a literal-only statement is not a call
                    assert(!is_call_stmt(s[0]));
                }
            },
            StmtView::If { cond, body } => {
                let nb = spec_dce(body);
                if nb.len() > 0 {
                    let h = StmtView::If { cond, body: nb };
                    assert(spec_dce(s) =~= seq![h] + spec_dce(s.drop_first()));
                    lemma_calls_of_concat(seq![h], spec_dce(s.drop_first()));
                    assert(seq![h].drop_first() =~= Seq::<StmtView>::empty());
                    assert(calls_of(Seq::<StmtView>::empty()) == Seq::<StmtView>::empty());
                    assert(!is_call_stmt(h));
                }
            },
        }
        assert(calls_of(spec_dce(s)) =~= calls_of(s));
    }
}

/// `s` with every call statement to a helper of the table deleted, at any
/// depth: what is left of a sequence once its helper expansions are taken
/// as having no effect.
pub open spec fn spec_prune_calls(
    s: Seq<StmtView>,
    t: Seq<(Seq<char>, Seq<StmtView>)>,
) -> Seq<StmtView>
    decreases s,
{
    if s.len() == 0 {
        Seq::empty()
    } else {
        let rest = spec_prune_calls(s.drop_first(), t);
        match s[0] {
            StmtView::Expr(e) => match e {
                ExprView::Call { name, args } => if spec_lookup(t, name) is Some {
                    rest
                } else {
                    seq![s[0]] + rest
                },
                _ => seq![s[0]] + rest,
            },
            StmtView::If { cond, body } => seq![
                StmtView::If { cond, body: spec_prune_calls(body, t) },
            ] + rest,
            StmtView::Empty => seq![s[0]] + rest,
        }
    }
}

/// Inlining a table whose every helper body cleans to nothing, then
/// cleaning, removes the expansions entirely: at every call site and at
/// every nesting depth, the result is as if the helper calls had simply
/// been deleted before cleaning.
pub proof fn lemma_inline_zero_effect_table(s: Seq<StmtView>, t: Seq<(Seq<char>, Seq<StmtView>)>)
    requires
        forall|n: Seq<char>|
            #[trigger] spec_lookup(t, n) is Some ==> spec_dce(spec_lookup(t, n)->Some_0) == Seq::<
                StmtView,
            >::empty(),
    ensures
        spec_dce(spec_inline(s, t)) == spec_dce(spec_prune_calls(s, t)),
    decreases s,
{
    if s.len() > 0 {
        lemma_inline_zero_effect_table(s.drop_first(), t);
        let rest_i = spec_inline(s.drop_first(), t);
        let rest_p = spec_prune_calls(s.drop_first(), t);
        assert(spec_inline(s, t) == spec_expand_stmt(s[0], t) + rest_i);
        lemma_dce_concat(spec_expand_stmt(s[0], t), rest_i);
        match s[0] {
            StmtView::Expr(e) => match e {
                ExprView::Call { name, args } => {
                    if spec_lookup(t, name) is Some {
                        // the expansion is the helper's body, which cleans away
                        assert(spec_expand_stmt(s[0], t) == spec_lookup(t, name)->Some_0);
                        assert(spec_prune_calls(s, t) == rest_p);
                        assert(spec_dce(spec_inline(s, t)) =~= spec_dce(spec_prune_calls(s, t)));
                    } else {
                        assert(spec_expand_stmt(s[0], t) == seq![s[0]]);
                        assert(spec_prune_calls(s, t) == seq![s[0]] + rest_p);
                        lemma_dce_concat(seq![s[0]], rest_p);
                        assert(spec_dce(spec_inline(s, t)) =~= spec_dce(spec_prune_calls(s, t)));
                    }
                },
                _ => {
                    assert(spec_expand_stmt(s[0], t) == seq![s[0]]);
                    assert(spec_prune_calls(s, t) == seq![s[0]] + rest_p);
                    lemma_dce_concat(seq![s[0]], rest_p);
                    assert(spec_dce(spec_inline(s, t)) =~= spec_dce(spec_prune_calls(s, t)));
                },
            },
            StmtView::If { cond, body } => {
                lemma_inline_zero_effect_table(body, t);
                let hi = StmtView::If { cond, body: spec_inline(body, t) };
                let hp = StmtView::If { cond, body: spec_prune_calls(body, t) };
                assert(spec_expand_stmt(s[0], t) == seq![hi]);
                assert(spec_prune_calls(s, t) == seq![hp] + rest_p);
                lemma_dce_concat(seq![hp], rest_p);
                assert(seq![hi].drop_first() =~= Seq::<StmtView>::empty());
                assert(seq![hp].drop_first() =~= Seq::<StmtView>::empty());
                assert(spec_dce(Seq::<StmtView>::empty()) == Seq::<StmtView>::empty());
                assert(spec_dce(seq![hi]) =~= spec_dce(seq![hp]));
                assert(spec_dce(spec_inline(s, t)) =~= spec_dce(spec_prune_calls(s, t)));
            },
            StmtView::Empty => {
                assert(spec_expand_stmt(s[0], t) == seq![s[0]]);
                assert(spec_prune_calls(s, t) == seq![s[0]] + rest_p);
                lemma_dce_concat(seq![s[0]], rest_p);
                assert(spec_dce(spec_inline(s, t)) =~= spec_dce(spec_prune_calls(s, t)));
            },
        }
    }
}

/// Inlining a helper whose body cleans to nothing, then cleaning, leaves
/// nothing of the expansion: the whole call site disappears.
pub proof fn lemma_inline_pure_helper_vanishes(
    t: Seq<(Seq<char>, Seq<StmtView>)>,
    name: Seq<char>,
    args: Seq<ExprView>,
)
    requires
        spec_lookup(t, name) is Some,
        spec_dce(spec_lookup(t, name)->Some_0) == Seq::<StmtView>::empty(),
    ensures
        spec_dce(spec_inline(seq![StmtView::Expr(ExprView::Call { name, args })], t)) == Seq::<
            StmtView,
        >::empty(),
{
    let call = StmtView::Expr(ExprView::Call { name, args });
    let b = spec_lookup(t, name)->Some_0;
    assert(seq![call].drop_first() =~= Seq::<StmtView>::empty());
    assert(spec_inline(Seq::<StmtView>::empty(), t) == Seq::<StmtView>::empty());
    assert(spec_expand_stmt(call, t) == b);
    assert(spec_inline(seq![call], t) =~= b);
}

} // verus!
