//! Statement and expression trees for event bodies, the builder that parses
//! a body into a tree, the renderer that turns a tree back into source text,
//! and the transformation passes: constant folding, helper inlining,
//! dead-code elimination and wrapper-chain resolution.

use vstd::prelude::*;

use crate::num_text::{
    check_float_literal, int_literal_value, is_float_literal, parse_i64, push_i64_chars,
    spec_i64_to_chars,
};
use crate::analyzer::{check_bare_ident, is_bare_ident};
use crate::text::{
    at_match, brace_end, chars_to_string, lemma_match_paren_bounds, lemma_scan_to_bounds,
    match_paren, scan_to, skip_ws, spec_brace_end, spec_match_paren, spec_scan_to, spec_skip_ws,
    spec_split_top, spec_trim, split_top, starts_with_at, str_to_chars, subvec, trim_vec,
};

verus! {

/// An expression: a call, a bare identifier, an integer, floating-point or
/// string literal, or a single binary operation. A floating-point literal
/// keeps its source text.
pub enum Expr {
    Call { name: String, args: Vec<Expr> },
    Ident(String),
    Int(i64),
    Float(String),
    Str(String),
    BinaryOp { op: char, lhs: Box<Expr>, rhs: Box<Expr> },
}

/// A statement: an expression statement, a one-level `if` with a condition
/// and a body, or an empty statement.
pub enum Stmt {
    Expr(Expr),
    If { cond: Expr, body: Vec<Stmt> },
    Empty,
}

/// The mathematical shape of an expression.
pub enum ExprView {
    Call { name: Seq<char>, args: Seq<ExprView> },
    Ident(Seq<char>),
    Int(int),
    Float(Seq<char>),
    Str(Seq<char>),
    BinaryOp { op: char, lhs: Box<ExprView>, rhs: Box<ExprView> },
}

/// The mathematical shape of a statement.
pub enum StmtView {
    Expr(ExprView),
    If { cond: ExprView, body: Seq<StmtView> },
    Empty,
}

pub open spec fn expr_view(e: Expr) -> ExprView
    decreases e,
{
    match e {
        Expr::Call { name, args } => ExprView::Call { name: name@, args: exprs_view(args@) },
        Expr::Ident(s) => ExprView::Ident(s@),
        Expr::Int(i) => ExprView::Int(i as int),
        Expr::Float(t) => ExprView::Float(t@),
        Expr::Str(s) => ExprView::Str(s@),
        Expr::BinaryOp { op, lhs, rhs } => ExprView::BinaryOp {
            op,
            lhs: Box::new(expr_view(*lhs)),
            rhs: Box::new(expr_view(*rhs)),
        },
    }
}

pub open spec fn exprs_view(s: Seq<Expr>) -> Seq<ExprView>
    decreases s,
{
    if s.len() == 0 {
        Seq::empty()
    } else {
        seq![expr_view(s[0])] + exprs_view(s.drop_first())
    }
}

pub open spec fn stmt_view(st: Stmt) -> StmtView
    decreases st,
{
    match st {
        Stmt::Expr(e) => StmtView::Expr(expr_view(e)),
        Stmt::If { cond, body } => StmtView::If { cond: expr_view(cond), body: stmts_view(body@) },
        Stmt::Empty => StmtView::Empty,
    }
}

pub open spec fn stmts_view(s: Seq<Stmt>) -> Seq<StmtView>
    decreases s,
{
    if s.len() == 0 {
        Seq::empty()
    } else {
        seq![stmt_view(s[0])] + stmts_view(s.drop_first())
    }
}

pub broadcast proof fn lemma_exprs_view_len(s: Seq<Expr>)
    ensures
        #[trigger] exprs_view(s).len() == s.len(),
    decreases s.len(),
{
    if s.len() > 0 {
        lemma_exprs_view_len(s.drop_first());
    }
}

pub broadcast proof fn lemma_exprs_view_index(s: Seq<Expr>, i: int)
    requires
        0 <= i < s.len(),
    ensures
        #[trigger] exprs_view(s)[i] == expr_view(s[i]),
    decreases s.len(),
{
    broadcast use lemma_exprs_view_len;

    if i > 0 {
        lemma_exprs_view_index(s.drop_first(), i - 1);
    }
}

pub broadcast proof fn lemma_stmts_view_len(s: Seq<Stmt>)
    ensures
        #[trigger] stmts_view(s).len() == s.len(),
    decreases s.len(),
{
    if s.len() > 0 {
        lemma_stmts_view_len(s.drop_first());
    }
}

pub broadcast proof fn lemma_stmts_view_index(s: Seq<Stmt>, i: int)
    requires
        0 <= i < s.len(),
    ensures
        #[trigger] stmts_view(s)[i] == stmt_view(s[i]),
    decreases s.len(),
{
    broadcast use lemma_stmts_view_len;

    if i > 0 {
        lemma_stmts_view_index(s.drop_first(), i - 1);
    }
}

pub broadcast proof fn lemma_stmts_view_push(s: Seq<Stmt>, x: Stmt)
    ensures
        #[trigger] stmts_view(s.push(x)) == stmts_view(s).push(stmt_view(x)),
{
    broadcast use lemma_stmts_view_len, lemma_stmts_view_index;

    assert forall|i: int| 0 <= i < s.len() + 1 implies stmts_view(s.push(x))[i] == stmts_view(
        s,
    ).push(stmt_view(x))[i] by {
        lemma_stmts_view_index(s.push(x), i);
        if i < s.len() {
            lemma_stmts_view_index(s, i);
        }
    }
    assert(stmts_view(s.push(x)) =~= stmts_view(s).push(stmt_view(x)));
}

pub broadcast proof fn lemma_exprs_view_push(s: Seq<Expr>, x: Expr)
    ensures
        #[trigger] exprs_view(s.push(x)) == exprs_view(s).push(expr_view(x)),
{
    broadcast use lemma_exprs_view_len, lemma_exprs_view_index;

    assert forall|i: int| 0 <= i < s.len() + 1 implies exprs_view(s.push(x))[i] == exprs_view(
        s,
    ).push(expr_view(x))[i] by {
        lemma_exprs_view_index(s.push(x), i);
        if i < s.len() {
            lemma_exprs_view_index(s, i);
        }
    }
    assert(exprs_view(s.push(x)) =~= exprs_view(s).push(expr_view(x)));
}

pub broadcast proof fn lemma_stmts_view_concat(a: Seq<Stmt>, b: Seq<Stmt>)
    ensures
        #[trigger] stmts_view(a + b) == stmts_view(a) + stmts_view(b),
{
    broadcast use lemma_stmts_view_len, lemma_stmts_view_index;

    assert forall|i: int| 0 <= i < a.len() + b.len() implies stmts_view(a + b)[i] == (stmts_view(a)
        + stmts_view(b))[i] by {
        lemma_stmts_view_index(a + b, i);
        if i < a.len() {
            lemma_stmts_view_index(a, i);
        } else {
            lemma_stmts_view_index(b, i - a.len());
        }
    }
    assert(stmts_view(a + b) =~= stmts_view(a) + stmts_view(b));
}

/// Structure-preserving copy of an expression.
pub fn clone_expr(e: &Expr) -> (r: Expr)
    ensures
        expr_view(r) == expr_view(*e),
    decreases *e,
{
    broadcast use lemma_exprs_view_push;

    match e {
        Expr::Call { name, args } => Expr::Call { name: name.clone(), args: clone_exprs(args) },
        Expr::Ident(s) => Expr::Ident(s.clone()),
        Expr::Int(i) => Expr::Int(*i),
        Expr::Float(t) => Expr::Float(t.clone()),
        Expr::Str(s) => Expr::Str(s.clone()),
        Expr::BinaryOp { op, lhs, rhs } => Expr::BinaryOp {
            op: *op,
            lhs: Box::new(clone_expr(lhs)),
            rhs: Box::new(clone_expr(rhs)),
        },
    }
}

/// Structure-preserving copy of an argument list.
pub fn clone_exprs(v: &Vec<Expr>) -> (r: Vec<Expr>)
    ensures
        exprs_view(r@) == exprs_view(v@),
    decreases v@,
{
    let mut r2: Vec<Expr> = Vec::new();
    let mut i: usize = 0;
    while i < v.len()
        invariant
            0 <= i <= v.len(),
            exprs_view(r2@) == exprs_view(v@.subrange(0, i as int)),
        decreases v.len() - i,
    {
        let c = clone_expr(&v[i]);
        r2.push(c);
        proof {
            broadcast use lemma_exprs_view_push;

            assert(v@.subrange(0, i + 1) =~= v@.subrange(0, i as int).push(v@[i as int]));
        }
        i = i + 1;
    }
    proof {
        assert(v@.subrange(0, v@.len() as int) =~= v@);
    }
    r2
}

/// Structure-preserving copy of a statement.
pub fn clone_stmt(st: &Stmt) -> (r: Stmt)
    ensures
        stmt_view(r) == stmt_view(*st),
    decreases *st,
{
    match st {
        Stmt::Expr(e) => Stmt::Expr(clone_expr(e)),
        Stmt::If { cond, body } => Stmt::If { cond: clone_expr(cond), body: clone_stmts(body) },
        Stmt::Empty => Stmt::Empty,
    }
}

/// Structure-preserving copy of a statement sequence.
pub fn clone_stmts(v: &Vec<Stmt>) -> (r: Vec<Stmt>)
    ensures
        stmts_view(r@) == stmts_view(v@),
    decreases v@,
{
    let mut r2: Vec<Stmt> = Vec::new();
    let mut i: usize = 0;
    while i < v.len()
        invariant
            0 <= i <= v.len(),
            stmts_view(r2@) == stmts_view(v@.subrange(0, i as int)),
        decreases v.len() - i,
    {
        let c = clone_stmt(&v[i]);
        r2.push(c);
        proof {
            broadcast use lemma_stmts_view_push;

            assert(v@.subrange(0, i + 1) =~= v@.subrange(0, i as int).push(v@[i as int]));
        }
        i = i + 1;
    }
    proof {
        assert(v@.subrange(0, v@.len() as int) =~= v@);
    }
    r2
}

/// What parsing an atom yields: a quoted string, an integer or
/// floating-point literal, a binary operation split at the first operator
/// character in the priority order `*`, `/`, `+`, `-`, or a bare identifier.
pub open spec fn spec_parse_atom(s: Seq<char>) -> ExprView
    decreases s.len(),
{
    let t = spec_trim(s);
    if t.len() >= 2 && t[0] == '"' && t[t.len() - 1] == '"' {
        ExprView::Str(t.subrange(1, t.len() - 1))
    } else if int_literal_value(t) is Some {
        ExprView::Int(int_literal_value(t)->Some_0)
    } else if is_float_literal(t) {
        ExprView::Float(t)
    } else {
        let p_mul = spec_scan_to(t, 0, '*');
        let p_div = spec_scan_to(t, 0, '/');
        let p_add = spec_scan_to(t, 0, '+');
        let p_sub = spec_scan_to(t, 0, '-');
        if 0 <= p_mul < t.len() {
            spec_binop_at(t, '*', p_mul)
        } else if 0 <= p_div < t.len() {
            spec_binop_at(t, '/', p_div)
        } else if 0 <= p_add < t.len() {
            spec_binop_at(t, '+', p_add)
        } else if 0 <= p_sub < t.len() {
            spec_binop_at(t, '-', p_sub)
        } else {
            ExprView::Ident(t)
        }
    }
}

/// The binary node an atom splits into at operator position `idx`.
pub open spec fn spec_binop_at(t: Seq<char>, op: char, idx: int) -> ExprView
    recommends
        0 <= idx < t.len(),
    decreases t.len(), idx,
{
    if 0 <= idx < t.len() {
        ExprView::BinaryOp {
            op,
            lhs: Box::new(spec_parse_atom(t.subrange(0, idx))),
            rhs: Box::new(spec_parse_atom(t.subrange(idx + 1, t.len() as int))),
        }
    } else {
        ExprView::Ident(t)
    }
}

/// Parses one atom from `v`.
pub fn parse_atom_vec(v: &Vec<char>) -> (r: Expr)
    ensures
        expr_view(r) == spec_parse_atom(v@),
    decreases v@.len(),
{
    let t = trim_vec(v);
    if t.len() >= 2 && t[0] == '"' && t[t.len() - 1] == '"' {
        return Expr::Str(chars_to_string(&subvec(&t, 1, t.len() - 1)));
    }
    match parse_i64(&t) {
        Some(x) => {
            return Expr::Int(x);
        },
        None => {},
    }
    if check_float_literal(&t) {
        return Expr::Float(chars_to_string(&t));
    }
    let p_mul = scan_to(&t, 0, '*');
    if p_mul < t.len() {
        let lhs = parse_atom_vec(&subvec(&t, 0, p_mul));
        let rhs = parse_atom_vec(&subvec(&t, p_mul + 1, t.len()));
        return Expr::BinaryOp { op: '*', lhs: Box::new(lhs), rhs: Box::new(rhs) };
    }
    let p_div = scan_to(&t, 0, '/');
    if p_div < t.len() {
        let lhs = parse_atom_vec(&subvec(&t, 0, p_div));
        let rhs = parse_atom_vec(&subvec(&t, p_div + 1, t.len()));
        return Expr::BinaryOp { op: '/', lhs: Box::new(lhs), rhs: Box::new(rhs) };
    }
    let p_add = scan_to(&t, 0, '+');
    if p_add < t.len() {
        let lhs = parse_atom_vec(&subvec(&t, 0, p_add));
        let rhs = parse_atom_vec(&subvec(&t, p_add + 1, t.len()));
        return Expr::BinaryOp { op: '+', lhs: Box::new(lhs), rhs: Box::new(rhs) };
    }
    let p_sub = scan_to(&t, 0, '-');
    if p_sub < t.len() {
        let lhs = parse_atom_vec(&subvec(&t, 0, p_sub));
        let rhs = parse_atom_vec(&subvec(&t, p_sub + 1, t.len()));
        return Expr::BinaryOp { op: '-', lhs: Box::new(lhs), rhs: Box::new(rhs) };
    }
    Expr::Ident(chars_to_string(&t))
}

/// The argument expressions of a call: pieces split on commas, trimmed,
/// empties dropped, each parsed as an atom.
pub open spec fn spec_parse_args(ps: Seq<Seq<char>>) -> Seq<ExprView>
    decreases ps.len(),
{
    if ps.len() == 0 {
        Seq::empty()
    } else {
        let ta = spec_trim(ps[0]);
        let rest = spec_parse_args(ps.drop_first());
        if ta.len() == 0 {
            rest
        } else {
            seq![spec_parse_atom(ta)] + rest
        }
    }
}

fn parse_args_vec(a: &Vec<char>) -> (r: Vec<Expr>)
    ensures
        exprs_view(r@) == spec_parse_args(spec_split_top(a@)),
{
    let pieces = split_top(a);
    let mut r: Vec<Expr> = Vec::new();
    let mut idx: usize = 0;
    proof {
        assert(pieces.deep_view().subrange(0, pieces.deep_view().len() as int)
            =~= pieces.deep_view());
        assert(exprs_view(r@) + spec_parse_args(pieces.deep_view()) =~= spec_parse_args(
            pieces.deep_view(),
        ));
    }
    while idx < pieces.len()
        invariant
            0 <= idx <= pieces.len(),
            pieces.deep_view() == spec_split_top(a@),
            pieces.deep_view().len() == pieces.len(),
            spec_parse_args(pieces.deep_view()) == exprs_view(r@) + spec_parse_args(
                pieces.deep_view().subrange(idx as int, pieces.len() as int),
            ),
        decreases pieces.len() - idx,
    {
        let ghost rem = pieces.deep_view().subrange(idx as int, pieces.len() as int);
        let t = trim_vec(&pieces[idx]);
        proof {
            assert(pieces.deep_view()[idx as int] == pieces@[idx as int]@);
            assert(rem[0] == pieces.deep_view()[idx as int]);
            assert(rem.drop_first() =~= pieces.deep_view().subrange(idx + 1, pieces.len() as int));
        }
        if t.len() > 0 {
            let ghost r0 = exprs_view(r@);
            let e = parse_atom_vec(&t);
            r.push(e);
            proof {
                broadcast use lemma_exprs_view_push;

                assert(exprs_view(r@) + spec_parse_args(
                    pieces.deep_view().subrange(idx + 1, pieces.len() as int),
                ) =~= r0 + (seq![spec_parse_atom(t@)] + spec_parse_args(
                    pieces.deep_view().subrange(idx + 1, pieces.len() as int),
                )));
            }
        }
        idx = idx + 1;
    }
    proof {
        assert(pieces.deep_view().subrange(idx as int, pieces.len() as int) =~= Seq::<
            Seq<char>,
        >::empty());
        assert(exprs_view(r@) =~= spec_parse_args(pieces.deep_view()));
    }
    r
}

/// The statement a single trimmed, nonempty piece parses to: a call when a
/// `(` is present and the text before it trims to a bare identifier, the
/// arguments running up to the `)` matching that `(` (none when the parens
/// never balance) and split on top-level commas; anything else is one atom.
pub open spec fn spec_stmt_of_piece(p: Seq<char>) -> StmtView {
    let pp = spec_scan_to(p, 0, '(');
    if 0 <= pp < p.len() && is_bare_ident(spec_trim(p.subrange(0, pp))) {
        let name = spec_trim(p.subrange(0, pp));
        let args = match spec_match_paren(p, pp + 1, 1) {
            Some(pc) => if pp < pc <= p.len() {
                spec_parse_args(spec_split_top(p.subrange(pp + 1, pc)))
            } else {
                Seq::<ExprView>::empty()
            },
            None => Seq::<ExprView>::empty(),
        };
        StmtView::Expr(ExprView::Call { name, args })
    } else {
        StmtView::Expr(spec_parse_atom(p))
    }
}

fn stmt_of_piece_vec(p: &Vec<char>) -> (r: Stmt)
    requires
        p.len() < usize::MAX,
    ensures
        stmt_view(r) == spec_stmt_of_piece(p@),
{
    let pp = scan_to(p, 0, '(');
    if pp < p.len() {
        let name_chars = trim_vec(&subvec(p, 0, pp));
        if check_bare_ident(&name_chars) {
            let name = chars_to_string(&name_chars);
            let mut args: Vec<Expr> = Vec::new();
            let ghost spec_args = match spec_match_paren(p@, pp + 1, 1) {
                Some(pc) => if pp < pc <= p@.len() {
                    spec_parse_args(spec_split_top(p@.subrange(pp + 1, pc)))
                } else {
                    Seq::<ExprView>::empty()
                },
                None => Seq::<ExprView>::empty(),
            };
            match match_paren(p, pp + 1, 1) {
                Some(pc) => {
                    proof {
                        lemma_match_paren_bounds(p@, pp + 1, 1);
                    }
                    args = parse_args_vec(&subvec(p, pp + 1, pc));
                },
                None => {},
            }
            proof {
                assert(exprs_view(args@) == spec_args);
                assert(spec_stmt_of_piece(p@) == StmtView::Expr(
                    ExprView::Call { name: spec_trim(p@.subrange(0, pp as int)), args: spec_args },
                ));
            }
            return Stmt::Expr(Expr::Call { name, args });
        }
    }
    Stmt::Expr(parse_atom_vec(p))
}

/// The three positions an `if` head needs, scanning from `w`: the first
/// `(`, the `)` matching it, and the first `{` after that; `None` when any
/// is missing, in which case the text is parsed as an ordinary statement.
pub open spec fn spec_if_positions(s: Seq<char>, w: int) -> Option<(int, int, int)> {
    let op = spec_scan_to(s, w, '(');
    if w <= op < s.len() {
        match spec_match_paren(s, op + 1, 1) {
            None => None,
            Some(cp) => {
                if op < cp < s.len() {
                    let open = spec_scan_to(s, cp, '{');
                    if cp <= open < s.len() {
                        Some((op, cp, open))
                    } else {
                        None
                    }
                } else {
                    None
                }
            },
        }
    } else {
        None
    }
}

/// The statements of `s` from position `i` on: split on `;` at top level,
/// with `if (...) { ... }` consumed as a single statement whose body is
/// parsed recursively, and any trailing text without a `;` parsed as one
/// final statement.
pub open spec fn spec_parse_stmts_from(s: Seq<char>, i: int) -> Seq<StmtView>
    decreases s.len(), s.len() - i,
{
    if i < 0 || i >= s.len() {
        Seq::empty()
    } else {
        let w0 = spec_skip_ws(s, i);
        let w = if i <= w0 <= s.len() {
            w0
        } else {
            i
        };
        if w >= s.len() {
            Seq::empty()
        } else if starts_with_at(s, w, "if "@) && spec_if_positions(s, w) is Some {
            let (op, cp, open) = spec_if_positions(s, w)->Some_0;
            let start = open + 1;
            let close = spec_brace_end(s, start, 1);
            let bend = if start <= close - 1 <= s.len() {
                close - 1
            } else {
                start
            };
            let inner = s.subrange(start, bend);
            let cond = s.subrange(op + 1, cp);
            let cont = if w < close <= s.len() {
                close
            } else {
                s.len() as int
            };
            seq![
                StmtView::If {
                    cond: spec_parse_atom(cond),
                    body: spec_parse_stmts_from(inner, 0),
                },
            ] + spec_parse_stmts_from(s, cont)
        } else {
            let sc0 = spec_scan_to(s, w, ';');
            let sc = if w <= sc0 <= s.len() {
                sc0
            } else {
                w
            };
            if sc < s.len() {
                let piece = spec_trim(s.subrange(w, sc));
                let st = if piece.len() == 0 {
                    StmtView::Empty
                } else {
                    spec_stmt_of_piece(piece)
                };
                seq![st] + spec_parse_stmts_from(s, sc + 1)
            } else {
                let piece = spec_trim(s.subrange(w, s.len() as int));
                if piece.len() == 0 {
                    Seq::empty()
                } else {
                    seq![spec_stmt_of_piece(piece)]
                }
            }
        }
    }
}

/// What parsing a whole event body yields.
pub open spec fn spec_parse_statements(s: Seq<char>) -> Seq<StmtView> {
    spec_parse_stmts_from(s, 0)
}

fn try_parse_if(v: &Vec<char>, w: usize) -> (r: Option<(Stmt, usize)>)
    requires
        w < v.len(),
        v.len() < usize::MAX,
    ensures
        r is Some <==> spec_if_positions(v@, w as int) is Some,
        r is Some ==> {
            let (st, close) = r->Some_0;
            let (op, cp, open) = spec_if_positions(v@, w as int)->Some_0;
            let start = open + 1;
            let sclose = spec_brace_end(v@, start, 1);
            let bend = if start <= sclose - 1 <= v@.len() {
                sclose - 1
            } else {
                start
            };
            &&& stmt_view(st) == StmtView::If {
                cond: spec_parse_atom(v@.subrange(op + 1, cp)),
                body: spec_parse_stmts_from(v@.subrange(start, bend), 0),
            }
            &&& close as int == sclose
            &&& w < close <= v.len()
        },
    decreases v@.len(), 0int,
{
    let op = scan_to(v, w, '(');
    if op >= v.len() {
        return None;
    }
    let cp = match match_paren(v, op + 1, 1) {
        None => {
            return None;
        },
        Some(cp) => cp,
    };
    proof {
        lemma_match_paren_bounds(v@, op + 1, 1);
    }
    let open = scan_to(v, cp, '{');
    if open >= v.len() {
        return None;
    }
    let close = brace_end(v, open + 1, 1);
    let start = open + 1;
    let inner = if start <= close - 1 {
        subvec(v, start, close - 1)
    } else {
        Vec::new()
    };
    let cond = subvec(v, op + 1, cp);
    let body = parse_stmts_vec(&inner);
    let cond_expr = parse_atom_vec(&cond);
    Some((Stmt::If { cond: cond_expr, body }, close))
}

#[verifier::rlimit(60)]
fn parse_stmts_vec(v: &Vec<char>) -> (r: Vec<Stmt>)
    requires
        v.len() < usize::MAX,
    ensures
        stmts_view(r@) == spec_parse_stmts_from(v@, 0),
    decreases v@.len(), 1int,
{
    let mut r: Vec<Stmt> = Vec::new();
    let mut i: usize = 0;
    while i < v.len()
        invariant
            0 <= i <= v.len(),
            v.len() < usize::MAX,
            spec_parse_stmts_from(v@, 0) == stmts_view(r@) + spec_parse_stmts_from(v@, i as int),
        decreases v.len() - i,
    {
        broadcast use lemma_stmts_view_push;

        let ghost i0 = i as int;
        let w = skip_ws(v, i);
        if w >= v.len() {
            proof {
                assert(stmts_view(r@) + spec_parse_stmts_from(v@, i0) =~= stmts_view(r@));
            }
            return r;
        }
        let mut done_if = false;
        if at_match(v, w, "if ") {
            match try_parse_if(v, w) {
                Some((st, close)) => {
                    r.push(st);
                    i = close;
                    done_if = true;
                    proof {
                        assert(stmts_view(r@) + spec_parse_stmts_from(v@, i as int)
                            =~= spec_parse_stmts_from(v@, 0));
                    }
                },
                None => {},
            }
        }
        if !done_if {
            let sc = scan_to(v, w, ';');
            if sc < v.len() {
                let piece = trim_vec(&subvec(v, w, sc));
                let st = if piece.len() == 0 {
                    Stmt::Empty
                } else {
                    stmt_of_piece_vec(&piece)
                };
                r.push(st);
                i = sc + 1;
                proof {
                    assert(stmts_view(r@) + spec_parse_stmts_from(v@, i as int)
                        =~= spec_parse_stmts_from(v@, 0));
                }
            } else {
                let piece = trim_vec(&subvec(v, w, v.len()));
                if piece.len() > 0 {
                    let st = stmt_of_piece_vec(&piece);
                    r.push(st);
                }
                proof {
                    assert(stmts_view(r@) =~= spec_parse_stmts_from(v@, 0));
                }
                return r;
            }
        }
    }
    proof {
        assert(stmts_view(r@) + spec_parse_stmts_from(v@, i as int) =~= stmts_view(r@));
    }
    r
}

/// The source text of an expression: calls as `name(a, b)`, literals by
/// value (floating-point literals by their kept text), binary operations as
/// `lhs op rhs` with single spaces.
pub open spec fn spec_expr_to_chars(e: ExprView) -> Seq<char>
    decreases e,
{
    match e {
        ExprView::Call { name, args } => name + "("@ + spec_args_to_chars(args) + ")"@,
        ExprView::Ident(s) => s,
        ExprView::Int(i) => spec_i64_to_chars(i),
        ExprView::Float(t) => t,
        ExprView::Str(s) => seq!['"'] + s + seq!['"'],
        ExprView::BinaryOp { op, lhs, rhs } => spec_expr_to_chars(*lhs) + seq![' '] + seq![op]
            + seq![' '] + spec_expr_to_chars(*rhs),
    }
}

/// Argument list text, `", "`-separated.
pub open spec fn spec_args_to_chars(args: Seq<ExprView>) -> Seq<char>
    decreases args,
{
    if args.len() == 0 {
        Seq::empty()
    } else {
        spec_expr_to_chars(args[0]) + spec_args_tail_chars(args.drop_first())
    }
}

pub open spec fn spec_args_tail_chars(args: Seq<ExprView>) -> Seq<char>
    decreases args,
{
    if args.len() == 0 {
        Seq::empty()
    } else {
        ", "@ + spec_expr_to_chars(args[0]) + spec_args_tail_chars(args.drop_first())
    }
}

/// The source text of one statement: expression statements end in `;`, an
/// `if` renders as `if (cond) { body }` with its body in block form.
pub open spec fn spec_stmt_to_chars(st: StmtView) -> Seq<char>
    decreases st,
{
    match st {
        StmtView::Empty => Seq::empty(),
        StmtView::Expr(e) => spec_expr_to_chars(e) + seq![';'],
        StmtView::If { cond, body } => "if ("@ + spec_expr_to_chars(cond) + ") { "@
            + spec_block_to_chars(body) + " }"@,
    }
}

/// Statement text inside an `if` block: each expression statement ends in
/// `"; "` and a nested `if` ends in `"} "`.
pub open spec fn spec_block_stmt_to_chars(st: StmtView) -> Seq<char>
    decreases st,
{
    match st {
        StmtView::Empty => Seq::empty(),
        StmtView::Expr(e) => spec_expr_to_chars(e) + "; "@,
        StmtView::If { cond, body } => "if ("@ + spec_expr_to_chars(cond) + ") { "@
            + spec_block_to_chars(body) + "} "@,
    }
}

pub open spec fn spec_block_to_chars(body: Seq<StmtView>) -> Seq<char>
    decreases body,
{
    if body.len() == 0 {
        Seq::empty()
    } else {
        spec_block_stmt_to_chars(body[0]) + spec_block_to_chars(body.drop_first())
    }
}

/// Appends the characters of `s` to `out`.
pub fn push_str_chars(out: &mut Vec<char>, s: &str)
    ensures
        final(out)@ == old(out)@ + s@,
{
    let n = s.unicode_len();
    let mut k: usize = 0;
    while k < n
        invariant
            0 <= k <= n,
            n == s@.len(),
            out@ == old(out)@ + s@.subrange(0, k as int),
        decreases n - k,
    {
        let c = s.get_char(k);
        out.push(c);
        proof {
            assert(out@ =~= old(out)@ + s@.subrange(0, k + 1));
        }
        k = k + 1;
    }
    proof {
        assert(out@ =~= old(out)@ + s@);
    }
}

fn push_expr_chars(e: &Expr, out: &mut Vec<char>)
    ensures
        final(out)@ == old(out)@ + spec_expr_to_chars(expr_view(*e)),
    decreases *e,
{
    match e {
        Expr::Call { name, args } => {
            push_str_chars(out, name.as_str());
            push_str_chars(out, "(");
            push_args_chars(args, out);
            push_str_chars(out, ")");
            proof {
                assert(out@ =~= old(out)@ + spec_expr_to_chars(expr_view(*e)));
            }
        },
        Expr::Ident(s) => {
            push_str_chars(out, s.as_str());
        },
        Expr::Int(i) => {
            push_i64_chars(*i, out);
        },
        Expr::Float(t) => {
            push_str_chars(out, t.as_str());
        },
        Expr::Str(s) => {
            out.push('"');
            push_str_chars(out, s.as_str());
            out.push('"');
            proof {
                assert(out@ =~= old(out)@ + spec_expr_to_chars(expr_view(*e)));
            }
        },
        Expr::BinaryOp { op, lhs, rhs } => {
            push_expr_chars(lhs, out);
            out.push(' ');
            out.push(*op);
            out.push(' ');
            push_expr_chars(rhs, out);
            proof {
                assert(out@ =~= old(out)@ + spec_expr_to_chars(expr_view(*e)));
            }
        },
    }
}

fn push_args_chars(args: &Vec<Expr>, out: &mut Vec<char>)
    ensures
        final(out)@ == old(out)@ + spec_args_to_chars(exprs_view(args@)),
    decreases args@,
{
    broadcast use lemma_exprs_view_len, lemma_exprs_view_index;

    if args.len() == 0 {
        proof {
            assert(out@ =~= old(out)@ + spec_args_to_chars(exprs_view(args@)));
        }
        return ;
    }
    push_expr_chars(&args[0], out);
    let ghost all = exprs_view(args@);
    let mut i: usize = 1;
    proof {
        assert(all.subrange(1, all.len() as int) =~= all.drop_first());
        assert(out@ + spec_args_tail_chars(all.subrange(i as int, all.len() as int)) =~= old(out)@
            + spec_args_to_chars(all));
    }
    while i < args.len()
        invariant
            1 <= i <= args.len(),
            all == exprs_view(args@),
            all.len() == args@.len(),
            out@ + spec_args_tail_chars(all.subrange(i as int, all.len() as int)) == old(out)@
                + spec_args_to_chars(all),
        decreases args.len() - i,
    {
        broadcast use lemma_exprs_view_len, lemma_exprs_view_index;

        let ghost rem = all.subrange(i as int, all.len() as int);
        push_str_chars(out, ", ");
        push_expr_chars(&args[i], out);
        proof {
            assert(rem[0] == all[i as int]);
            assert(rem.drop_first() =~= all.subrange(i + 1, all.len() as int));
            assert(out@ + spec_args_tail_chars(all.subrange(i + 1, all.len() as int)) =~= old(out)@
                + spec_args_to_chars(all));
        }
        i = i + 1;
    }
    proof {
        assert(all.subrange(i as int, all.len() as int) =~= Seq::<ExprView>::empty());
        assert(out@ =~= old(out)@ + spec_args_to_chars(all));
    }
}

fn push_block_chars(body: &Vec<Stmt>, out: &mut Vec<char>)
    ensures
        final(out)@ == old(out)@ + spec_block_to_chars(stmts_view(body@)),
    decreases body@,
{
    broadcast use lemma_stmts_view_len, lemma_stmts_view_index;

    let ghost all = stmts_view(body@);
    let mut i: usize = 0;
    proof {
        assert(all.subrange(0, all.len() as int) =~= all);
    }
    while i < body.len()
        invariant
            0 <= i <= body.len(),
            all == stmts_view(body@),
            all.len() == body@.len(),
            out@ + spec_block_to_chars(all.subrange(i as int, all.len() as int)) == old(out)@
                + spec_block_to_chars(all),
        decreases body.len() - i,
    {
        broadcast use lemma_stmts_view_len, lemma_stmts_view_index;

        let ghost rem = all.subrange(i as int, all.len() as int);
        push_block_stmt_chars(&body[i], out);
        proof {
            assert(rem[0] == all[i as int]);
            assert(rem.drop_first() =~= all.subrange(i + 1, all.len() as int));
            assert(out@ + spec_block_to_chars(all.subrange(i + 1, all.len() as int)) =~= old(out)@
                + spec_block_to_chars(all));
        }
        i = i + 1;
    }
    proof {
        assert(all.subrange(i as int, all.len() as int) =~= Seq::<StmtView>::empty());
        assert(out@ =~= old(out)@ + spec_block_to_chars(all));
    }
}

fn push_block_stmt_chars(st: &Stmt, out: &mut Vec<char>)
    ensures
        final(out)@ == old(out)@ + spec_block_stmt_to_chars(stmt_view(*st)),
    decreases *st,
{
    match st {
        Stmt::Empty => {
            proof {
                assert(out@ =~= old(out)@ + spec_block_stmt_to_chars(stmt_view(*st)));
            }
        },
        Stmt::Expr(e) => {
            push_expr_chars(e, out);
            push_str_chars(out, "; ");
            proof {
                assert(out@ =~= old(out)@ + spec_block_stmt_to_chars(stmt_view(*st)));
            }
        },
        Stmt::If { cond, body } => {
            push_str_chars(out, "if (");
            push_expr_chars(cond, out);
            push_str_chars(out, ") { ");
            push_block_chars(body, out);
            push_str_chars(out, "} ");
            proof {
                assert(out@ =~= old(out)@ + spec_block_stmt_to_chars(stmt_view(*st)));
            }
        },
    }
}

/// Appends the source text of one statement to `out`.
pub fn push_stmt_chars(st: &Stmt, out: &mut Vec<char>)
    ensures
        final(out)@ == old(out)@ + spec_stmt_to_chars(stmt_view(*st)),
{
    match st {
        Stmt::Empty => {
            proof {
                assert(out@ =~= old(out)@ + spec_stmt_to_chars(stmt_view(*st)));
            }
        },
        Stmt::Expr(e) => {
            push_expr_chars(e, out);
            out.push(';');
            proof {
                assert(out@ =~= old(out)@ + spec_stmt_to_chars(stmt_view(*st)));
            }
        },
        Stmt::If { cond, body } => {
            push_str_chars(out, "if (");
            push_expr_chars(cond, out);
            push_str_chars(out, ") { ");
            push_block_chars(body, out);
            push_str_chars(out, " }");
            proof {
                assert(out@ =~= old(out)@ + spec_stmt_to_chars(stmt_view(*st)));
            }
        },
    }
}

/// The source text of one expression.
pub fn expr_to_string(e: &Expr) -> (r: String)
    ensures
        r@ == spec_expr_to_chars(expr_view(*e)),
{
    let mut out: Vec<char> = Vec::new();
    push_expr_chars(e, &mut out);
    chars_to_string(&out)
}

/// The source text of one statement.
pub fn stmt_to_string(stmt: &Stmt) -> (r: String)
    ensures
        r@ == spec_stmt_to_chars(stmt_view(*stmt)),
{
    let mut out: Vec<char> = Vec::new();
    push_stmt_chars(stmt, &mut out);
    chars_to_string(&out)
}

pub open spec fn in_i64(x: int) -> bool {
    i64::MIN <= x <= i64::MAX
}

/// Division truncating toward zero, as the machine division does.
pub open spec fn trunc_div(a: int, b: int) -> int
    recommends
        b != 0,
{
    if a == 0 {
        0
    } else if a > 0 && b > 0 {
        a / b
    } else if a < 0 && b < 0 {
        (a * -1) / (b * -1)
    } else if a < 0 {
        ((a * -1) / b) * -1
    } else {
        (a / (b * -1)) * -1
    }
}

/// What a binary node with two integer literal operands folds to. Division
/// by zero yields the left operand unchanged; a result outside the `i64`
/// range yields `None`, and the node is left unfolded. An operator other
/// than the four arithmetic ones folds to the left operand.
pub open spec fn fold_binop_int(op: char, a: int, b: int) -> Option<int> {
    if op == '+' {
        if in_i64(a + b) {
            Some(a + b)
        } else {
            None
        }
    } else if op == '-' {
        if in_i64(a - b) {
            Some(a - b)
        } else {
            None
        }
    } else if op == '*' {
        if in_i64(a * b) {
            Some(a * b)
        } else {
            None
        }
    } else if op == '/' {
        if b == 0 {
            Some(a)
        } else if in_i64(trunc_div(a, b)) {
            Some(trunc_div(a, b))
        } else {
            None
        }
    } else {
        Some(a)
    }
}

/// Constant folding on one expression: a binary node whose folded operands
/// are both integer literals becomes a single literal; everything else keeps
/// its shape with folded children. Pairs of floating-point literals are left
/// unfolded.
pub open spec fn spec_fold_expr(e: ExprView) -> ExprView
    decreases e,
{
    match e {
        ExprView::BinaryOp { op, lhs, rhs } => {
            let l = spec_fold_expr(*lhs);
            let r = spec_fold_expr(*rhs);
            if l is Int && r is Int {
                match fold_binop_int(op, l->Int_0, r->Int_0) {
                    Some(v) => ExprView::Int(v),
                    None => ExprView::BinaryOp { op, lhs: Box::new(l), rhs: Box::new(r) },
                }
            } else {
                ExprView::BinaryOp { op, lhs: Box::new(l), rhs: Box::new(r) }
            }
        },
        ExprView::Call { name, args } => ExprView::Call { name, args: spec_fold_exprs(args) },
        _ => e,
    }
}

pub open spec fn spec_fold_exprs(s: Seq<ExprView>) -> Seq<ExprView>
    decreases s,
{
    if s.len() == 0 {
        Seq::empty()
    } else {
        seq![spec_fold_expr(s[0])] + spec_fold_exprs(s.drop_first())
    }
}

/// Constant folding on one statement: expression statements and `if`
/// conditions are folded, and folding recurses into `if` bodies.
pub open spec fn spec_fold_stmt(st: StmtView) -> StmtView
    decreases st,
{
    match st {
        StmtView::Expr(e) => StmtView::Expr(spec_fold_expr(e)),
        StmtView::If { cond, body } => StmtView::If {
            cond: spec_fold_expr(cond),
            body: spec_fold_stmts(body),
        },
        StmtView::Empty => StmtView::Empty,
    }
}

pub open spec fn spec_fold_stmts(s: Seq<StmtView>) -> Seq<StmtView>
    decreases s,
{
    if s.len() == 0 {
        Seq::empty()
    } else {
        seq![spec_fold_stmt(s[0])] + spec_fold_stmts(s.drop_first())
    }
}

fn fold_expr(e: &Expr) -> (r: Expr)
    ensures
        expr_view(r) == spec_fold_expr(expr_view(*e)),
    decreases *e,
{
    match e {
        Expr::BinaryOp { op, lhs, rhs } => {
            let l = fold_expr(lhs);
            let r = fold_expr(rhs);
            let folded: Option<i64> = match (&l, &r) {
                (Expr::Int(a), Expr::Int(b)) => {
                    if *op == '+' {
                        a.checked_add(*b)
                    } else if *op == '-' {
                        a.checked_sub(*b)
                    } else if *op == '*' {
                        a.checked_mul(*b)
                    } else if *op == '/' {
                        if *b == 0 {
                            Some(*a)
                        } else {
                            a.checked_div(*b)
                        }
                    } else {
                        Some(*a)
                    }
                },
                _ => None,
            };
            match folded {
                Some(v) => Expr::Int(v),
                None => Expr::BinaryOp { op: *op, lhs: Box::new(l), rhs: Box::new(r) },
            }
        },
        Expr::Call { name, args } => Expr::Call { name: name.clone(), args: fold_exprs(args) },
        Expr::Ident(s) => Expr::Ident(s.clone()),
        Expr::Int(i) => Expr::Int(*i),
        Expr::Float(t) => Expr::Float(t.clone()),
        Expr::Str(s) => Expr::Str(s.clone()),
    }
}

fn fold_exprs(v: &Vec<Expr>) -> (r: Vec<Expr>)
    ensures
        exprs_view(r@) == spec_fold_exprs(exprs_view(v@)),
    decreases v@,
{
    broadcast use lemma_exprs_view_len, lemma_exprs_view_index;

    let mut r2: Vec<Expr> = Vec::new();
    let mut i: usize = 0;
    let ghost all = exprs_view(v@);
    proof {
        assert(all.subrange(0, all.len() as int) =~= all);
        assert(exprs_view(r2@) + spec_fold_exprs(all) =~= spec_fold_exprs(all));
    }
    while i < v.len()
        invariant
            0 <= i <= v.len(),
            all == exprs_view(v@),
            all.len() == v@.len(),
            spec_fold_exprs(all) == exprs_view(r2@) + spec_fold_exprs(
                all.subrange(i as int, all.len() as int),
            ),
        decreases v.len() - i,
    {
        broadcast use lemma_exprs_view_len, lemma_exprs_view_index, lemma_exprs_view_push;

        let ghost rem = all.subrange(i as int, all.len() as int);
        let c = fold_expr(&v[i]);
        r2.push(c);
        proof {
            assert(rem[0] == all[i as int]);
            assert(rem.drop_first() =~= all.subrange(i + 1, all.len() as int));
            assert(exprs_view(r2@) + spec_fold_exprs(all.subrange(i + 1, all.len() as int))
                =~= spec_fold_exprs(all));
        }
        i = i + 1;
    }
    proof {
        assert(all.subrange(i as int, all.len() as int) =~= Seq::<ExprView>::empty());
        assert(exprs_view(r2@) =~= spec_fold_exprs(all));
    }
    r2
}

fn fold_stmt(st: &Stmt) -> (r: Stmt)
    ensures
        stmt_view(r) == spec_fold_stmt(stmt_view(*st)),
    decreases *st,
{
    match st {
        Stmt::Expr(e) => Stmt::Expr(fold_expr(e)),
        Stmt::If { cond, body } => Stmt::If { cond: fold_expr(cond), body: fold_stmts_ref(body) },
        Stmt::Empty => Stmt::Empty,
    }
}

fn fold_stmts_ref(v: &Vec<Stmt>) -> (r: Vec<Stmt>)
    ensures
        stmts_view(r@) == spec_fold_stmts(stmts_view(v@)),
    decreases v@,
{
    broadcast use lemma_stmts_view_len, lemma_stmts_view_index;

    let mut r2: Vec<Stmt> = Vec::new();
    let mut i: usize = 0;
    let ghost all = stmts_view(v@);
    proof {
        assert(all.subrange(0, all.len() as int) =~= all);
        assert(stmts_view(r2@) + spec_fold_stmts(all) =~= spec_fold_stmts(all));
    }
    while i < v.len()
        invariant
            0 <= i <= v.len(),
            all == stmts_view(v@),
            all.len() == v@.len(),
            spec_fold_stmts(all) == stmts_view(r2@) + spec_fold_stmts(
                all.subrange(i as int, all.len() as int),
            ),
        decreases v.len() - i,
    {
        broadcast use lemma_stmts_view_len, lemma_stmts_view_index, lemma_stmts_view_push;

        let ghost rem = all.subrange(i as int, all.len() as int);
        let c = fold_stmt(&v[i]);
        r2.push(c);
        proof {
            assert(rem[0] == all[i as int]);
            assert(rem.drop_first() =~= all.subrange(i + 1, all.len() as int));
            assert(stmts_view(r2@) + spec_fold_stmts(all.subrange(i + 1, all.len() as int))
                =~= spec_fold_stmts(all));
        }
        i = i + 1;
    }
    proof {
        assert(all.subrange(i as int, all.len() as int) =~= Seq::<StmtView>::empty());
        assert(stmts_view(r2@) =~= spec_fold_stmts(all));
    }
    r2
}

/// Folds constants everywhere in the statement sequence, in place.
pub fn fold_constants(stmts: &mut Vec<Stmt>)
    ensures
        stmts_view(final(stmts)@) == spec_fold_stmts(stmts_view(old(stmts)@)),
{
    let folded = fold_stmts_ref(stmts);
    *stmts = folded;
}

/// A literal-only expression, which has no effect as a statement.
pub open spec fn is_literal_expr(e: ExprView) -> bool {
    e is Int || e is Float || e is Str
}

/// A call expression statement.
pub open spec fn is_call_stmt(st: StmtView) -> bool {
    match st {
        StmtView::Expr(e) => e is Call,
        _ => false,
    }
}

/// Dead-code elimination: drops `Empty` statements and literal-only
/// expression statements, cleans `if` bodies recursively, and drops an `if`
/// whose cleaned body is empty.
pub open spec fn spec_dce(s: Seq<StmtView>) -> Seq<StmtView>
    decreases s,
{
    if s.len() == 0 {
        Seq::empty()
    } else {
        let rest = spec_dce(s.drop_first());
        match s[0] {
            StmtView::Empty => rest,
            StmtView::Expr(e) => if is_literal_expr(e) {
                rest
            } else {
                seq![s[0]] + rest
            },
            StmtView::If { cond, body } => {
                let nb = spec_dce(body);
                if nb.len() == 0 {
                    rest
                } else {
                    seq![StmtView::If { cond, body: nb }] + rest
                }
            },
        }
    }
}

fn dce_ref(v: &Vec<Stmt>) -> (r: Vec<Stmt>)
    ensures
        stmts_view(r@) == spec_dce(stmts_view(v@)),
    decreases v@,
{
    broadcast use lemma_stmts_view_len, lemma_stmts_view_index, lemma_stmts_view_push;

    let mut out: Vec<Stmt> = Vec::new();
    let mut i: usize = 0;
    let ghost all = stmts_view(v@);
    proof {
        assert(all.subrange(0, all.len() as int) =~= all);
        assert(stmts_view(out@) + spec_dce(all) =~= spec_dce(all));
    }
    while i < v.len()
        invariant
            0 <= i <= v.len(),
            all == stmts_view(v@),
            all.len() == v@.len(),
            spec_dce(all) == stmts_view(out@) + spec_dce(all.subrange(i as int, all.len() as int)),
        decreases v.len() - i,
    {
        broadcast use lemma_stmts_view_len, lemma_stmts_view_index, lemma_stmts_view_push;

        let ghost rem = all.subrange(i as int, all.len() as int);
        proof {
            assert(rem[0] == all[i as int]);
            assert(rem.drop_first() =~= all.subrange(i + 1, all.len() as int));
        }
        match &v[i] {
            Stmt::Empty => {},
            Stmt::Expr(e) => {
                let keep = match e {
                    Expr::Int(_) => false,
                    Expr::Float(_) => false,
                    Expr::Str(_) => false,
                    _ => true,
                };
                if keep {
                    let c = clone_stmt(&v[i]);
                    out.push(c);
                    proof {
                        assert(stmts_view(out@) + spec_dce(
                            all.subrange(i + 1, all.len() as int),
                        ) =~= spec_dce(all));
                    }
                }
            },
            Stmt::If { cond, body } => {
                let nb = dce_ref(body);
                if nb.len() > 0 {
                    let c = clone_expr(cond);
                    out.push(Stmt::If { cond: c, body: nb });
                    proof {
                        assert(stmts_view(out@) + spec_dce(
                            all.subrange(i + 1, all.len() as int),
                        ) =~= spec_dce(all));
                    }
                }
            },
        }
        i = i + 1;
    }
    proof {
        assert(all.subrange(i as int, all.len() as int) =~= Seq::<StmtView>::empty());
        assert(stmts_view(out@) =~= spec_dce(all));
    }
    out
}

/// Removes dead code from the statement sequence, in place: `Empty`
/// statements, literal-only expression statements, and `if` statements whose
/// recursively cleaned body becomes empty. Call statements are never
/// removed.
pub fn dce(stmts: &mut Vec<Stmt>)
    ensures
        stmts_view(final(stmts)@) == spec_dce(stmts_view(old(stmts)@)),
{
    let cleaned = dce_ref(stmts);
    *stmts = cleaned;
}

/// First body recorded under `k`, scanning the table front to back.
pub open spec fn spec_lookup(t: Seq<(Seq<char>, Seq<StmtView>)>, k: Seq<char>) -> Option<
    Seq<StmtView>,
>
    decreases t.len(),
{
    if t.len() == 0 {
        None
    } else if t[0].0 == k {
        Some(t[0].1)
    } else {
        spec_lookup(t.drop_first(), k)
    }
}

/// The table with `k` bound to `b`: the first entry holding `k` is replaced,
/// or a new entry is appended.
pub open spec fn spec_table_insert(
    t: Seq<(Seq<char>, Seq<StmtView>)>,
    k: Seq<char>,
    b: Seq<StmtView>,
) -> Seq<(Seq<char>, Seq<StmtView>)>
    decreases t.len(),
{
    if t.len() == 0 {
        seq![(k, b)]
    } else if t[0].0 == k {
        seq![(k, b)] + t.drop_first()
    } else {
        seq![t[0]] + spec_table_insert(t.drop_first(), k, b)
    }
}

pub open spec fn table_entries_view(es: Seq<(String, Vec<Stmt>)>) -> Seq<(Seq<char>, Seq<StmtView>)>
    decreases es,
{
    if es.len() == 0 {
        Seq::empty()
    } else {
        seq![(es[0].0@, stmts_view(es[0].1@))] + table_entries_view(es.drop_first())
    }
}

pub broadcast proof fn lemma_table_view_len(es: Seq<(String, Vec<Stmt>)>)
    ensures
        #[trigger] table_entries_view(es).len() == es.len(),
    decreases es.len(),
{
    if es.len() > 0 {
        lemma_table_view_len(es.drop_first());
    }
}

pub broadcast proof fn lemma_table_view_index(es: Seq<(String, Vec<Stmt>)>, i: int)
    requires
        0 <= i < es.len(),
    ensures
        #[trigger] table_entries_view(es)[i] == (es[i].0@, stmts_view(es[i].1@)),
    decreases es.len(),
{
    broadcast use lemma_table_view_len;

    if i > 0 {
        lemma_table_view_index(es.drop_first(), i - 1);
    }
}

pub broadcast proof fn lemma_table_view_push(es: Seq<(String, Vec<Stmt>)>, x: (String, Vec<Stmt>))
    ensures
        #[trigger] table_entries_view(es.push(x)) == table_entries_view(es).push(
            (x.0@, stmts_view(x.1@)),
        ),
{
    broadcast use lemma_table_view_len, lemma_table_view_index;

    assert forall|i: int| 0 <= i < es.len() + 1 implies table_entries_view(es.push(x))[i]
        == table_entries_view(es).push((x.0@, stmts_view(x.1@)))[i] by {
        lemma_table_view_index(es.push(x), i);
        if i < es.len() {
            lemma_table_view_index(es, i);
        }
    }
    assert(table_entries_view(es.push(x)) =~= table_entries_view(es).push(
        (x.0@, stmts_view(x.1@)),
    ));
}

/// The table of synthesized helpers: each name bound to its canonical
/// statement sequence. Lookups find the first entry with the name; the
/// entries keep insertion order.
pub struct HelperTable {
    entries: Vec<(String, Vec<Stmt>)>,
}

impl View for HelperTable {
    type V = Seq<(Seq<char>, Seq<StmtView>)>;

    closed spec fn view(&self) -> Seq<(Seq<char>, Seq<StmtView>)> {
        table_entries_view(self.entries@)
    }
}

impl HelperTable {
    /// An empty table.
    pub fn new() -> (r: Self)
        ensures
            r@ == Seq::<(Seq<char>, Seq<StmtView>)>::empty(),
    {
        let r = HelperTable { entries: Vec::new() };
        proof {
            assert(r@ =~= Seq::<(Seq<char>, Seq<StmtView>)>::empty());
        }
        r
    }

    /// The number of entries.
    pub fn len(&self) -> (n: usize)
        ensures
            n == self@.len(),
    {
        proof {
            broadcast use lemma_table_view_len;

        }
        self.entries.len()
    }

    /// The name of the entry at `i`, in insertion order.
    pub fn key_at(&self, i: usize) -> (r: &String)
        requires
            i < self@.len(),
        ensures
            r@ == self@[i as int].0,
    {
        proof {
            broadcast use lemma_table_view_len, lemma_table_view_index;

        }
        &self.entries[i].0
    }

    /// The body of the entry at `i`, in insertion order.
    pub fn body_at(&self, i: usize) -> (r: &Vec<Stmt>)
        requires
            i < self@.len(),
        ensures
            stmts_view(r@) == self@[i as int].1,
    {
        proof {
            broadcast use lemma_table_view_len, lemma_table_view_index;

        }
        &self.entries[i].1
    }

    /// The first body recorded under `name`, if any.
    pub fn get(&self, name: &str) -> (r: Option<&Vec<Stmt>>)
        ensures
            match r {
                Some(b) => spec_lookup(self@, name@) == Some(stmts_view(b@)),
                None => spec_lookup(self@, name@) is None,
            },
    {
        broadcast use lemma_table_view_len, lemma_table_view_index;

        let key = name.to_owned();
        let mut i: usize = 0;
        proof {
            assert(self@.subrange(0, self@.len() as int) =~= self@);
        }
        while i < self.entries.len()
            invariant
                0 <= i <= self.entries.len(),
                key@ == name@,
                spec_lookup(self@, name@) == spec_lookup(
                    self@.subrange(i as int, self@.len() as int),
                    name@,
                ),
                self@.len() == self.entries@.len(),
            decreases self.entries.len() - i,
        {
            broadcast use lemma_table_view_len;

            let ghost rem = self@.subrange(i as int, self@.len() as int);
            proof {
                lemma_table_view_index(self.entries@, i as int);
                assert(rem[0] == self@[i as int]);
                assert(rem.drop_first() =~= self@.subrange(i + 1, self@.len() as int));
            }
            if self.entries[i].0 == key {
                return Some(&self.entries[i].1);
            }
            i = i + 1;
        }
        proof {
            assert(self@.subrange(i as int, self@.len() as int) =~= Seq::<
                (Seq<char>, Seq<StmtView>),
            >::empty());
        }
        None
    }

    /// Whether `name` is recorded.
    pub fn contains(&self, name: &str) -> (r: bool)
        ensures
            r == (spec_lookup(self@, name@) is Some),
    {
        match self.get(name) {
            Some(_) => true,
            None => false,
        }
    }

    /// Binds `name` to `body`, replacing the first entry with that name or
    /// appending a new one.
    pub fn insert(&mut self, name: String, body: Vec<Stmt>)
        ensures
            final(self)@ == spec_table_insert(old(self)@, name@, stmts_view(body@)),
    {
        broadcast use lemma_table_view_len, lemma_table_view_index, lemma_table_view_push;

        let ghost t0 = self@;
        let mut out: Vec<(String, Vec<Stmt>)> = Vec::new();
        let mut replaced = false;
        let mut i: usize = 0;
        proof {
            assert(t0.subrange(0, t0.len() as int) =~= t0);
            assert(table_entries_view(out@) + spec_table_insert(t0, name@, stmts_view(body@))
                =~= spec_table_insert(t0, name@, stmts_view(body@)));
        }
        while i < self.entries.len()
            invariant
                0 <= i <= self.entries.len(),
                t0 == self@,
                t0.len() == self.entries@.len(),
                if replaced {
                    spec_table_insert(t0, name@, stmts_view(body@)) == table_entries_view(out@)
                        + t0.subrange(i as int, t0.len() as int)
                } else {
                    spec_table_insert(t0, name@, stmts_view(body@)) == table_entries_view(out@)
                        + spec_table_insert(
                        t0.subrange(i as int, t0.len() as int),
                        name@,
                        stmts_view(body@),
                    )
                },
            decreases self.entries.len() - i,
        {
            broadcast use lemma_table_view_len, lemma_table_view_index, lemma_table_view_push;

            let ghost rem = t0.subrange(i as int, t0.len() as int);
            let ghost out0 = out@;
            proof {
                lemma_table_view_index(self.entries@, i as int);
                assert(rem[0] == t0[i as int]);
                assert(rem.drop_first() =~= t0.subrange(i + 1, t0.len() as int));
            }
            let same = self.entries[i].0 == name;
            if !replaced && same {
                let k2 = name.clone();
                let b2 = clone_stmts(&body);
                let ghost gx = (k2, b2);
                out.push((k2, b2));
                replaced = true;
                proof {
                    lemma_table_view_push(out0, gx);
                    assert(out@ == out0.push(gx));
                    assert(table_entries_view(out@) + t0.subrange(i + 1, t0.len() as int)
                        =~= spec_table_insert(t0, name@, stmts_view(body@)));
                }
            } else {
                let k2 = self.entries[i].0.clone();
                let b2 = clone_stmts(&self.entries[i].1);
                let ghost gx = (k2, b2);
                out.push((k2, b2));
                proof {
                    lemma_table_view_push(out0, gx);
                    assert(out@ == out0.push(gx));
                    if replaced {
                        assert(table_entries_view(out@) + t0.subrange(i + 1, t0.len() as int)
                            =~= spec_table_insert(t0, name@, stmts_view(body@)));
                    } else {
                        assert(table_entries_view(out@) + spec_table_insert(
                            t0.subrange(i + 1, t0.len() as int),
                            name@,
                            stmts_view(body@),
                        ) =~= spec_table_insert(t0, name@, stmts_view(body@)));
                    }
                }
            }
            i = i + 1;
        }
        proof {
            assert(t0.subrange(i as int, t0.len() as int) =~= Seq::<
                (Seq<char>, Seq<StmtView>),
            >::empty());
        }
        if !replaced {
            let ghost out0 = out@;
            let ghost gx = (name, body);
            out.push((name, body));
            proof {
                lemma_table_view_push(out0, gx);
                assert(out@ == out0.push(gx));
                assert(table_entries_view(out@) =~= spec_table_insert(
                    t0,
                    gx.0@,
                    stmts_view(gx.1@),
                ));
            }
        } else {
            proof {
                assert(table_entries_view(out@) =~= spec_table_insert(
                    t0,
                    name@,
                    stmts_view(body@),
                ));
            }
        }
        self.entries = out;
    }
}

/// The splice one statement expands to: a call statement whose name is in
/// the table becomes that helper's whole body; an `if` keeps its shape with
/// an inlined body; everything else stays.
pub open spec fn spec_expand_stmt(st: StmtView, t: Seq<(Seq<char>, Seq<StmtView>)>) -> Seq<
    StmtView,
>
    decreases st,
{
    match st {
        StmtView::Expr(e) => match e {
            ExprView::Call { name, args } => match spec_lookup(t, name) {
                Some(b) => b,
                None => seq![st],
            },
            _ => seq![st],
        },
        StmtView::If { cond, body } => seq![StmtView::If { cond, body: spec_inline(body, t) }],
        StmtView::Empty => seq![st],
    }
}

/// Helper inlining over a statement sequence: each statement is replaced by
/// its expansion, in order.
pub open spec fn spec_inline(s: Seq<StmtView>, t: Seq<(Seq<char>, Seq<StmtView>)>) -> Seq<StmtView>
    decreases s,
{
    if s.len() == 0 {
        Seq::empty()
    } else {
        spec_expand_stmt(s[0], t) + spec_inline(s.drop_first(), t)
    }
}

fn inline_stmts_ref(v: &Vec<Stmt>, helpers: &HelperTable) -> (r: Vec<Stmt>)
    ensures
        stmts_view(r@) == spec_inline(stmts_view(v@), helpers@),
    decreases v@,
{
    broadcast use lemma_stmts_view_len, lemma_stmts_view_index, lemma_stmts_view_push,
        lemma_stmts_view_concat;

    let mut out: Vec<Stmt> = Vec::new();
    let mut i: usize = 0;
    let ghost all = stmts_view(v@);
    proof {
        assert(all.subrange(0, all.len() as int) =~= all);
        assert(stmts_view(out@) + spec_inline(all, helpers@) =~= spec_inline(all, helpers@));
    }
    while i < v.len()
        invariant
            0 <= i <= v.len(),
            all == stmts_view(v@),
            all.len() == v@.len(),
            spec_inline(all, helpers@) == stmts_view(out@) + spec_inline(
                all.subrange(i as int, all.len() as int),
                helpers@,
            ),
        decreases v.len() - i,
    {
        broadcast use lemma_stmts_view_len, lemma_stmts_view_index, lemma_stmts_view_push,
            lemma_stmts_view_concat;

        let ghost rem = all.subrange(i as int, all.len() as int);
        proof {
            assert(rem[0] == all[i as int]);
            assert(rem.drop_first() =~= all.subrange(i + 1, all.len() as int));
        }
        let mut expanded = false;
        match &v[i] {
            Stmt::Expr(e) => match e {
                Expr::Call { name, args } => {
                    match helpers.get(name.as_str()) {
                        Some(b) => {
                            let mut cb = clone_stmts(b);
                            let ghost out0 = out@;
                            let ghost cb0 = cb@;
                            out.append(&mut cb);
                            expanded = true;
                            proof {
                                lemma_stmts_view_concat(out0, cb0);
                                assert(out@ == out0 + cb0);
                                lemma_stmts_view_index(v@, i as int);
                                assert(rem[0] == stmt_view(v@[i as int]));
                                assert(stmts_view(cb0) == stmts_view(b@));
                                assert(spec_lookup(helpers@, name@) == Some(stmts_view(b@)));
                                assert(spec_expand_stmt(rem[0], helpers@) == stmts_view(b@));
                                assert(spec_inline(rem, helpers@) == spec_expand_stmt(
                                    rem[0],
                                    helpers@,
                                ) + spec_inline(rem.drop_first(), helpers@));
                                assert(stmts_view(out@) + spec_inline(
                                    all.subrange(i + 1, all.len() as int),
                                    helpers@,
                                ) =~= spec_inline(all, helpers@));
                            }
                        },
                        None => {},
                    }
                },
                _ => {},
            },
            Stmt::If { cond, body } => {
                let nb = inline_stmts_ref(body, helpers);
                let c = clone_expr(cond);
                let ghost out0 = out@;
                let ghost gx = Stmt::If { cond: c, body: nb };
                out.push(Stmt::If { cond: c, body: nb });
                expanded = true;
                proof {
                    lemma_stmts_view_push(out0, gx);
                    assert(out@ == out0.push(gx));
                    lemma_stmts_view_index(v@, i as int);
                    assert(rem[0] == stmt_view(v@[i as int]));
                    assert(spec_expand_stmt(rem[0], helpers@) == seq![stmt_view(gx)]);
                    assert(spec_inline(rem, helpers@) == spec_expand_stmt(rem[0], helpers@)
                        + spec_inline(rem.drop_first(), helpers@));
                    assert(stmts_view(out@) + spec_inline(
                        all.subrange(i + 1, all.len() as int),
                        helpers@,
                    ) =~= spec_inline(all, helpers@));
                }
            },
            _ => {},
        }
        if !expanded {
            let c = clone_stmt(&v[i]);
            let ghost out0 = out@;
            let ghost gx = c;
            out.push(c);
            proof {
                lemma_stmts_view_push(out0, gx);
                assert(out@ == out0.push(gx));
                lemma_stmts_view_index(v@, i as int);
                assert(rem[0] == stmt_view(v@[i as int]));
                assert(spec_expand_stmt(rem[0], helpers@) == seq![rem[0]]);
                assert(spec_inline(rem, helpers@) == spec_expand_stmt(rem[0], helpers@)
                    + spec_inline(rem.drop_first(), helpers@));
                assert(stmts_view(out@) + spec_inline(
                    all.subrange(i + 1, all.len() as int),
                    helpers@,
                ) =~= spec_inline(all, helpers@));
            }
        }
        i = i + 1;
    }
    proof {
        assert(all.subrange(i as int, all.len() as int) =~= Seq::<StmtView>::empty());
        assert(stmts_view(out@) =~= spec_inline(all, helpers@));
    }
    out
}

/// Replaces every call statement whose name the table records with a copy
/// of that helper's statement sequence, splicing it in place, and recurses
/// into `if` bodies. Other statements pass through unchanged.
pub fn inline_helpers(stmts: &mut Vec<Stmt>, helpers: &HelperTable)
    ensures
        stmts_view(final(stmts)@) == spec_inline(stmts_view(old(stmts)@), helpers@),
{
    let expanded = inline_stmts_ref(stmts, helpers);
    *stmts = expanded;
}

/// The helper another helper's body merely wraps: the body is exactly one
/// call statement whose name the table records.
pub open spec fn wrapper_target(t: Seq<(Seq<char>, Seq<StmtView>)>, body: Seq<StmtView>) -> Option<
    Seq<char>,
> {
    if body.len() == 1 {
        match body[0] {
            StmtView::Expr(e) => match e {
                ExprView::Call { name, args } => if spec_lookup(t, name) is Some {
                    Some(name)
                } else {
                    None
                },
                _ => None,
            },
            _ => None,
        }
    } else {
        None
    }
}

/// The body a wrapper chain ends at, following at most `fuel` hops through
/// the table; `None` when the chain does not settle within the fuel, which
/// on a full table's worth of fuel means a cycle.
pub open spec fn spec_chase(
    t: Seq<(Seq<char>, Seq<StmtView>)>,
    body: Seq<StmtView>,
    fuel: nat,
) -> Option<Seq<StmtView>>
    decreases fuel,
{
    match wrapper_target(t, body) {
        None => Some(body),
        Some(k) => {
            if fuel == 0 {
                None
            } else {
                spec_chase(t, spec_lookup(t, k)->Some_0, (fuel - 1) as nat)
            }
        },
    }
}

/// The error wrapper-chain resolution reports on a cyclic chain.
#[derive(Debug)]
pub struct WrapperCycleError;

impl WrapperCycleError {
    /// A fixed description of the failure.
    pub fn describe(&self) -> (r: &'static str)
        ensures
            r@ == "wrapper cycle detected"@,
    {
        "wrapper cycle detected"
    }
}

/// Collapses wrapper chains: every helper whose body is exactly one call to
/// another helper is rebound to the body its chain ends at, transitively,
/// judged against the table as it stood on entry. A cyclic chain is
/// reported as an error and leaves the table unchanged.
pub fn resolve_wrappers(table: &mut HelperTable) -> (r: Result<(), WrapperCycleError>)
    ensures
        r is Ok <==> (forall|i: int|
            0 <= i < old(table)@.len() ==> spec_chase(
                old(table)@,
                old(table)@[i].1,
                old(table)@.len() as nat,
            ) is Some),
        r is Ok ==> {
            &&& final(table)@.len() == old(table)@.len()
            &&& forall|i: int|
                0 <= i < old(table)@.len() ==> (#[trigger] final(table)@[i]).0 == old(
                    table,
                )@[i].0 && Some(final(table)@[i].1) == spec_chase(
                    old(table)@,
                    old(table)@[i].1,
                    old(table)@.len() as nat,
                )
        },
        r is Err ==> final(table)@ == old(table)@,
{
    broadcast use lemma_table_view_len, lemma_table_view_index, lemma_table_view_push;

    let ghost t0 = table@;
    let n = table.len();
    let mut out: Vec<(String, Vec<Stmt>)> = Vec::new();
    let mut idx: usize = 0;
    while idx < n
        invariant
            0 <= idx <= n,
            t0 == old(table)@,
            table@ == t0,
            n == t0.len(),
            table_entries_view(out@).len() == idx,
            forall|j: int|
                0 <= j < idx ==> (#[trigger] table_entries_view(out@)[j]).0 == t0[j].0 && Some(
                    table_entries_view(out@)[j].1,
                ) == spec_chase(t0, t0[j].1, n as nat),
        decreases n - idx,
    {
        broadcast use lemma_table_view_len, lemma_table_view_index, lemma_table_view_push;

        let key = table.key_at(idx).clone();
        let mut cur = clone_stmts(table.body_at(idx));
        let mut fuel = n;
        loop
            invariant
                t0 == old(table)@,
                table@ == t0,
                n == t0.len(),
                0 <= idx < n,
                fuel <= n,
                key@ == t0[idx as int].0,
                spec_chase(t0, t0[idx as int].1, n as nat) == spec_chase(
                    t0,
                    stmts_view(cur@),
                    fuel as nat,
                ),
            ensures
                t0 == old(table)@,
                table@ == t0,
                key@ == t0[idx as int].0,
                spec_chase(t0, t0[idx as int].1, n as nat) == Some(stmts_view(cur@)),
            decreases fuel,
        {
            broadcast use lemma_stmts_view_len, lemma_stmts_view_index;

            let mut target: Option<String> = None;
            if cur.len() == 1 {
                match &cur[0] {
                    Stmt::Expr(e) => match e {
                        Expr::Call { name, args } => {
                            if table.contains(name.as_str()) {
                                target = Some(name.clone());
                            }
                        },
                        _ => {},
                    },
                    _ => {},
                }
            }
            match target {
                None => {
                    proof {
                        if cur.len() > 0 {
                            lemma_stmts_view_index(cur@, 0);
                        }
                        assert(wrapper_target(t0, stmts_view(cur@)) is None);
                    }
                    break ;
                },
                Some(nm) => {
                    proof {
                        lemma_stmts_view_index(cur@, 0);
                        assert(wrapper_target(t0, stmts_view(cur@)) == Some(nm@));
                    }
                    if fuel == 0 {
                        proof {
                            assert(spec_chase(t0, t0[idx as int].1, n as nat) is None);
                        }
                        return Err(WrapperCycleError);
                    }
                    match table.get(nm.as_str()) {
                        Some(b) => {
                            cur = clone_stmts(b);
                            fuel = fuel - 1;
                        },
                        None => {
                            // contains said the name is recorded
                            proof {
                                assert(false);
                            }
                        },
                    }
                },
            }
        }
        let ghost out0 = out@;
        let ghost gx = (key, cur);
        out.push((key, cur));
        proof {
            lemma_table_view_push(out0, gx);
            assert(out@ == out0.push(gx));
            assert forall|j: int| 0 <= j < idx + 1 implies (#[trigger] table_entries_view(
                out@,
            )[j]).0 == t0[j].0 && Some(table_entries_view(out@)[j].1) == spec_chase(
                t0,
                t0[j].1,
                n as nat,
            ) by {
                if j < idx {
                    assert(table_entries_view(out@)[j] == table_entries_view(out0)[j]);
                }
            }
        }
        idx = idx + 1;
    }
    proof {
        assert(table_entries_view(out@).len() == t0.len());
        assert forall|i: int| 0 <= i < t0.len() implies spec_chase(
            t0,
            t0[i].1,
            t0.len() as nat,
        ) is Some by {
            assert(table_entries_view(out@)[i].0 == t0[i].0);
        }
    }
    table.entries = out;
    proof {
        assert forall|i: int| 0 <= i < t0.len() implies (#[trigger] table@[i]).0 == t0[i].0 && Some(
            table@[i].1,
        ) == spec_chase(t0, t0[i].1, n as nat) by {
            assert(table@[i] == table_entries_view(out@)[i]);
        }
    }
    Ok(())
}

/// Parses an event body into its statement tree. Splits on top-level `;`,
/// consumes `if (...) { ... }` whole, and parses any trailing text as one
/// final statement; never fails.
pub fn parse_statements(body: &str) -> (r: Vec<Stmt>)
    requires
        body@.len() < usize::MAX,
    ensures
        stmts_view(r@) == spec_parse_statements(body@),
{
    let v = str_to_chars(body);
    parse_stmts_vec(&v)
}

} // verus!
