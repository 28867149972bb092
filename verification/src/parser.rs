use vstd::prelude::*;

use crate::ast::{
    Expr, Op, SpecExpr, SpecStmt, Stmt, expr_view, exprs_view, lemma_expr_view, lemma_stmt_view,
    names_view, stmt_view, stmts_view,
};
use crate::lex::{SpecSymbol, Symbol, SymbolKind, symbols_view};

verus! {

// ----------------------------------------------------------------------------
// The grammar, as functions from a token position to what is read there and
// the position after it. `None` marks input the parser rejects.
// ----------------------------------------------------------------------------

/// The kind of the token at `pos`, or `Eof` past the end.
pub open spec fn kind_at(ts: Seq<SpecSymbol>, pos: int) -> SymbolKind {
    if 0 <= pos < ts.len() {
        ts[pos].kind
    } else {
        SymbolKind::Eof
    }
}

/// The text of the token at `pos`.
pub open spec fn text_at(ts: Seq<SpecSymbol>, pos: int) -> Seq<char> {
    ts[pos].text
}

/// A position that a sub-parse may return after starting at `pos`.
pub open spec fn advanced(ts: Seq<SpecSymbol>, pos: int, q: int) -> bool {
    pos < q <= ts.len()
}

/// The comparison operator a token kind denotes, if any.
pub open spec fn comparison_op(k: SymbolKind) -> Option<Op> {
    match k {
        SymbolKind::Lt => Some(Op::Lt),
        SymbolKind::Gt => Some(Op::Gt),
        SymbolKind::Equal => Some(Op::Equal),
        SymbolKind::Lte => Some(Op::Lte),
        SymbolKind::Gte => Some(Op::Gte),
        SymbolKind::NotEqual => Some(Op::NotEqual),
        _ => None,
    }
}

/// expr := or
pub open spec fn p_expr(ts: Seq<SpecSymbol>, pos: int) -> Option<(SpecExpr, int)>
    decreases ts.len() - pos, 20int,
{
    p_or(ts, pos)
}

/// or := and ('||' and)*
pub open spec fn p_or(ts: Seq<SpecSymbol>, pos: int) -> Option<(SpecExpr, int)>
    decreases ts.len() - pos, 19int,
{
    match p_and(ts, pos) {
        Some((l, p)) => if advanced(ts, pos, p) {
            p_or_rest(ts, p, l)
        } else {
            None
        },
        None => None,
    }
}

pub open spec fn p_or_rest(ts: Seq<SpecSymbol>, pos: int, left: SpecExpr) -> Option<(SpecExpr, int)>
    decreases ts.len() - pos, 18int,
{
    if kind_at(ts, pos) == SymbolKind::Or {
        match p_and(ts, pos + 1) {
            Some((r, p)) => if advanced(ts, pos, p) {
                p_or_rest(
                    ts,
                    p,
                    SpecExpr::Bool { op: Op::Or, left: Box::new(left), right: Box::new(r) },
                )
            } else {
                None
            },
            None => None,
        }
    } else {
        Some((left, pos))
    }
}

/// and := cmp ('&&' cmp)*
pub open spec fn p_and(ts: Seq<SpecSymbol>, pos: int) -> Option<(SpecExpr, int)>
    decreases ts.len() - pos, 17int,
{
    match p_compare(ts, pos) {
        Some((l, p)) => if advanced(ts, pos, p) {
            p_and_rest(ts, p, l)
        } else {
            None
        },
        None => None,
    }
}

pub open spec fn p_and_rest(ts: Seq<SpecSymbol>, pos: int, left: SpecExpr) -> Option<(SpecExpr, int)>
    decreases ts.len() - pos, 16int,
{
    if kind_at(ts, pos) == SymbolKind::And {
        match p_compare(ts, pos + 1) {
            Some((r, p)) => if advanced(ts, pos, p) {
                p_and_rest(
                    ts,
                    p,
                    SpecExpr::Bool { op: Op::And, left: Box::new(left), right: Box::new(r) },
                )
            } else {
                None
            },
            None => None,
        }
    } else {
        Some((left, pos))
    }
}

/// cmp := add (cmp_op add)?
pub open spec fn p_compare(ts: Seq<SpecSymbol>, pos: int) -> Option<(SpecExpr, int)>
    decreases ts.len() - pos, 15int,
{
    match p_add(ts, pos) {
        Some((l, p)) => if !advanced(ts, pos, p) {
            None
        } else {
            match comparison_op(kind_at(ts, p)) {
                Some(op) => match p_add(ts, p + 1) {
                    Some((r, q)) => Some(
                        (SpecExpr::Bool { op, left: Box::new(l), right: Box::new(r) }, q),
                    ),
                    None => None,
                },
                None => Some((l, p)),
            }
        },
        None => None,
    }
}

/// add := term (('+' | '-') term)*
pub open spec fn p_add(ts: Seq<SpecSymbol>, pos: int) -> Option<(SpecExpr, int)>
    decreases ts.len() - pos, 14int,
{
    match p_term(ts, pos) {
        Some((l, p)) => if advanced(ts, pos, p) {
            p_add_rest(ts, p, l)
        } else {
            None
        },
        None => None,
    }
}

pub open spec fn p_add_rest(ts: Seq<SpecSymbol>, pos: int, left: SpecExpr) -> Option<(SpecExpr, int)>
    decreases ts.len() - pos, 13int,
{
    let k = kind_at(ts, pos);
    if k == SymbolKind::Add || k == SymbolKind::Sub {
        let op = if k == SymbolKind::Add {
            Op::Add
        } else {
            Op::Sub
        };
        match p_term(ts, pos + 1) {
            Some((r, p)) => if advanced(ts, pos, p) {
                p_add_rest(ts, p, SpecExpr::Binary { op, left: Box::new(left), right: Box::new(r) })
            } else {
                None
            },
            None => None,
        }
    } else {
        Some((left, pos))
    }
}

/// term := factor (('*' | '/') factor)*
pub open spec fn p_term(ts: Seq<SpecSymbol>, pos: int) -> Option<(SpecExpr, int)>
    decreases ts.len() - pos, 12int,
{
    match p_factor(ts, pos) {
        Some((l, p)) => if advanced(ts, pos, p) {
            p_term_rest(ts, p, l)
        } else {
            None
        },
        None => None,
    }
}

pub open spec fn p_term_rest(ts: Seq<SpecSymbol>, pos: int, left: SpecExpr) -> Option<(SpecExpr, int)>
    decreases ts.len() - pos, 11int,
{
    let k = kind_at(ts, pos);
    if k == SymbolKind::Mul || k == SymbolKind::Div {
        let op = if k == SymbolKind::Mul {
            Op::Mul
        } else {
            Op::Div
        };
        match p_factor(ts, pos + 1) {
            Some((r, p)) => if advanced(ts, pos, p) {
                p_term_rest(ts, p, SpecExpr::Binary { op, left: Box::new(left), right: Box::new(r) })
            } else {
                None
            },
            None => None,
        }
    } else {
        Some((left, pos))
    }
}

/// The arguments after the first, each preceded by a comma.
pub open spec fn p_args_rest(ts: Seq<SpecSymbol>, pos: int, acc: Seq<SpecExpr>) -> Option<(Seq<SpecExpr>, int)>
    decreases ts.len() - pos, 21int,
{
    if kind_at(ts, pos) == SymbolKind::Comma {
        match p_expr(ts, pos + 1) {
            Some((e, p)) => if advanced(ts, pos, p) {
                p_args_rest(ts, p, acc.push(e))
            } else {
                None
            },
            None => None,
        }
    } else {
        Some((acc, pos))
    }
}

/// The argument list of a call, starting after its '(' and ending after its ')'.
pub open spec fn p_args(ts: Seq<SpecSymbol>, pos: int) -> Option<(Seq<SpecExpr>, int)>
    decreases ts.len() - pos, 22int,
{
    if kind_at(ts, pos) == SymbolKind::RPar {
        Some((Seq::empty(), pos + 1))
    } else {
        match p_expr(ts, pos) {
            Some((e, p)) => if !advanced(ts, pos, p) {
                None
            } else {
                match p_args_rest(ts, p, seq![e]) {
                    Some((args, q)) => if kind_at(ts, q) == SymbolKind::RPar {
                        Some((args, q + 1))
                    } else {
                        None
                    },
                    None => None,
                }
            },
            None => None,
        }
    }
}

/// factor := string | number | ident | ident '(' args ')' | '!' factor | '(' expr ')'
pub open spec fn p_factor(ts: Seq<SpecSymbol>, pos: int) -> Option<(SpecExpr, int)>
    decreases ts.len() - pos, 10int,
{
    let k = kind_at(ts, pos);
    if k == SymbolKind::Str {
        Some((SpecExpr::StringLit(text_at(ts, pos)), pos + 1))
    } else if k == SymbolKind::Smi {
        match ts[pos].int_val {
            Some(n) => Some((SpecExpr::NumberLit(n), pos + 1)),
            None => None,
        }
    } else if k == SymbolKind::Ident {
        if kind_at(ts, pos + 1) == SymbolKind::LPar {
            match p_args(ts, pos + 2) {
                Some((args, q)) => Some((SpecExpr::Call { func: text_at(ts, pos), args }, q)),
                None => None,
            }
        } else {
            Some((SpecExpr::Ident(text_at(ts, pos)), pos + 1))
        }
    } else if k == SymbolKind::Not {
        match p_factor(ts, pos + 1) {
            Some((e, q)) => Some((SpecExpr::Not(Box::new(e)), q)),
            None => None,
        }
    } else if k == SymbolKind::LPar {
        match p_expr(ts, pos + 1) {
            Some((e, q)) => if kind_at(ts, q) == SymbolKind::RPar {
                Some((e, q + 1))
            } else {
                None
            },
            None => None,
        }
    } else {
        None
    }
}

/// The multiplicative loop ends no earlier than where it starts.
proof fn lemma_term_rest_advances(ts: Seq<SpecSymbol>, pos: int, left: SpecExpr)
    requires
        p_term_rest(ts, pos, left) is Some,
    ensures
        (p_term_rest(ts, pos, left)->0).1 >= pos,
        pos <= ts.len() ==> (p_term_rest(ts, pos, left)->0).1 <= ts.len(),
    decreases ts.len() - pos,
{
    let k = kind_at(ts, pos);
    if k == SymbolKind::Mul || k == SymbolKind::Div {
        let op = if k == SymbolKind::Mul {
            Op::Mul
        } else {
            Op::Div
        };
        let (r, p) = p_factor(ts, pos + 1)->0;
        lemma_term_rest_advances(ts, p, SpecExpr::Binary { op, left: Box::new(left), right: Box::new(r) });
    }
}

/// The additive operator a token kind denotes.
pub open spec fn additive_op(k: SymbolKind) -> Option<Op> {
    match k {
        SymbolKind::Add => Some(Op::Add),
        SymbolKind::Sub => Some(Op::Sub),
        _ => None,
    }
}

/// `+` and `-` associate to the left: three terms joined by two additive
/// operators, with no further additive operator after them, read as the
/// first two terms combined by the first operator, then combined with the
/// third by the second, so `10 - 3 - 2` reads as `(10 - 3) - 2`.
pub proof fn lemma_additive_left_associative(
    ts: Seq<SpecSymbol>,
    pos: int,
    t1: SpecExpr,
    p1: int,
    t2: SpecExpr,
    p2: int,
    t3: SpecExpr,
    p3: int,
)
    requires
        p_term(ts, pos) == Some((t1, p1)),
        additive_op(kind_at(ts, p1)) is Some,
        p_term(ts, p1 + 1) == Some((t2, p2)),
        additive_op(kind_at(ts, p2)) is Some,
        p_term(ts, p2 + 1) == Some((t3, p3)),
        additive_op(kind_at(ts, p3)) is None,
    ensures
        p_add(ts, pos) == Some(
            (
                SpecExpr::Binary {
                    op: additive_op(kind_at(ts, p2))->0,
                    left: Box::new(
                        SpecExpr::Binary { op: additive_op(kind_at(ts, p1))->0, left: Box::new(t1), right: Box::new(t2) },
                    ),
                    right: Box::new(t3),
                },
                p3,
            ),
        ),
{
    let (f1, q1) = p_factor(ts, pos)->0;
    lemma_term_rest_advances(ts, q1, f1);
    let (f2, q2) = p_factor(ts, p1 + 1)->0;
    lemma_term_rest_advances(ts, q2, f2);
    let (f3, q3) = p_factor(ts, p2 + 1)->0;
    lemma_term_rest_advances(ts, q3, f3);
    let e1 = SpecExpr::Binary { op: additive_op(kind_at(ts, p1))->0, left: Box::new(t1), right: Box::new(t2) };
    let e2 = SpecExpr::Binary { op: additive_op(kind_at(ts, p2))->0, left: Box::new(e1), right: Box::new(t3) };
    assert(p_add_rest(ts, p3, e2) == Some((e2, p3)));
    assert(p_add_rest(ts, p2, e1) == p_add_rest(ts, p3, e2));
    assert(p_add_rest(ts, p1, t1) == p_add_rest(ts, p2, e1));
}

/// The multiplicative operator a token kind denotes.
pub open spec fn multiplicative_op(k: SymbolKind) -> Option<Op> {
    match k {
        SymbolKind::Mul => Some(Op::Mul),
        SymbolKind::Div => Some(Op::Div),
        _ => None,
    }
}

/// `*` and `/` associate to the left: three factors joined by two
/// multiplicative operators, with no further one after them, read as
/// `(f1 o1 f2) o2 f3`, so `12 / 3 / 2` reads as `(12 / 3) / 2`.
pub proof fn lemma_multiplicative_left_associative(
    ts: Seq<SpecSymbol>,
    pos: int,
    f1: SpecExpr,
    p1: int,
    f2: SpecExpr,
    p2: int,
    f3: SpecExpr,
    p3: int,
)
    requires
        p_factor(ts, pos) == Some((f1, p1)),
        pos < p1 <= ts.len(),
        multiplicative_op(kind_at(ts, p1)) is Some,
        p_factor(ts, p1 + 1) == Some((f2, p2)),
        p1 < p2 <= ts.len(),
        multiplicative_op(kind_at(ts, p2)) is Some,
        p_factor(ts, p2 + 1) == Some((f3, p3)),
        p2 < p3 <= ts.len(),
        multiplicative_op(kind_at(ts, p3)) is None,
    ensures
        p_term(ts, pos) == Some(
            (
                SpecExpr::Binary {
                    op: multiplicative_op(kind_at(ts, p2))->0,
                    left: Box::new(
                        SpecExpr::Binary {
                            op: multiplicative_op(kind_at(ts, p1))->0,
                            left: Box::new(f1),
                            right: Box::new(f2),
                        },
                    ),
                    right: Box::new(f3),
                },
                p3,
            ),
        ),
{
    let e1 = SpecExpr::Binary { op: multiplicative_op(kind_at(ts, p1))->0, left: Box::new(f1), right: Box::new(f2) };
    let e2 = SpecExpr::Binary { op: multiplicative_op(kind_at(ts, p2))->0, left: Box::new(e1), right: Box::new(f3) };
    assert(p_term_rest(ts, p3, e2) == Some((e2, p3)));
    assert(p_term_rest(ts, p2, e1) == p_term_rest(ts, p3, e2));
    assert(p_term_rest(ts, p1, f1) == p_term_rest(ts, p2, e1));
}

/// `||` associates to the left, and each of its operands is a whole `&&`
/// chain: `a || b || c` reads as `(a || b) || c`.
pub proof fn lemma_or_left_associative(
    ts: Seq<SpecSymbol>,
    pos: int,
    a1: SpecExpr,
    p1: int,
    a2: SpecExpr,
    p2: int,
    a3: SpecExpr,
    p3: int,
)
    requires
        p_and(ts, pos) == Some((a1, p1)),
        pos < p1 <= ts.len(),
        kind_at(ts, p1) == SymbolKind::Or,
        p_and(ts, p1 + 1) == Some((a2, p2)),
        p1 < p2 <= ts.len(),
        kind_at(ts, p2) == SymbolKind::Or,
        p_and(ts, p2 + 1) == Some((a3, p3)),
        p2 < p3 <= ts.len(),
        kind_at(ts, p3) != SymbolKind::Or,
    ensures
        p_or(ts, pos) == Some(
            (
                SpecExpr::Bool {
                    op: Op::Or,
                    left: Box::new(SpecExpr::Bool { op: Op::Or, left: Box::new(a1), right: Box::new(a2) }),
                    right: Box::new(a3),
                },
                p3,
            ),
        ),
{
    let e1 = SpecExpr::Bool { op: Op::Or, left: Box::new(a1), right: Box::new(a2) };
    let e2 = SpecExpr::Bool { op: Op::Or, left: Box::new(e1), right: Box::new(a3) };
    assert(p_or_rest(ts, p3, e2) == Some((e2, p3)));
    assert(p_or_rest(ts, p2, e1) == p_or_rest(ts, p3, e2));
    assert(p_or_rest(ts, p1, a1) == p_or_rest(ts, p2, e1));
}

/// `&&` associates to the left, and each of its operands is a whole
/// comparison: `a && b && c` reads as `(a && b) && c`.
pub proof fn lemma_and_left_associative(
    ts: Seq<SpecSymbol>,
    pos: int,
    c1: SpecExpr,
    p1: int,
    c2: SpecExpr,
    p2: int,
    c3: SpecExpr,
    p3: int,
)
    requires
        p_compare(ts, pos) == Some((c1, p1)),
        pos < p1 <= ts.len(),
        kind_at(ts, p1) == SymbolKind::And,
        p_compare(ts, p1 + 1) == Some((c2, p2)),
        p1 < p2 <= ts.len(),
        kind_at(ts, p2) == SymbolKind::And,
        p_compare(ts, p2 + 1) == Some((c3, p3)),
        p2 < p3 <= ts.len(),
        kind_at(ts, p3) != SymbolKind::And,
    ensures
        p_and(ts, pos) == Some(
            (
                SpecExpr::Bool {
                    op: Op::And,
                    left: Box::new(SpecExpr::Bool { op: Op::And, left: Box::new(c1), right: Box::new(c2) }),
                    right: Box::new(c3),
                },
                p3,
            ),
        ),
{
    let e1 = SpecExpr::Bool { op: Op::And, left: Box::new(c1), right: Box::new(c2) };
    let e2 = SpecExpr::Bool { op: Op::And, left: Box::new(e1), right: Box::new(c3) };
    assert(p_and_rest(ts, p3, e2) == Some((e2, p3)));
    assert(p_and_rest(ts, p2, e1) == p_and_rest(ts, p3, e2));
    assert(p_and_rest(ts, p1, c1) == p_and_rest(ts, p2, e1));
}

/// The statements of a block up to (not including) its closing '}'.
pub open spec fn p_block(ts: Seq<SpecSymbol>, pos: int, acc: Seq<SpecStmt>) -> Option<(Seq<SpecStmt>, int)>
    decreases ts.len() - pos, 31int,
{
    if kind_at(ts, pos) == SymbolKind::RBrace {
        Some((acc, pos))
    } else {
        match p_stmt(ts, pos) {
            Some((s, p)) => if advanced(ts, pos, p) {
                p_block(ts, p, acc.push(s))
            } else {
                None
            },
            None => None,
        }
    }
}

/// '{' block '}' starting at `pos`.
pub open spec fn p_braced(ts: Seq<SpecSymbol>, pos: int) -> Option<(Seq<SpecStmt>, int)>
    decreases ts.len() - pos, 32int,
{
    if kind_at(ts, pos) != SymbolKind::LBrace {
        None
    } else {
        match p_block(ts, pos + 1, Seq::empty()) {
            Some((body, q)) => if kind_at(ts, q) == SymbolKind::RBrace {
                Some((body, q + 1))
            } else {
                None
            },
            None => None,
        }
    }
}

/// ('let' | 'const' | 'var') ident '=' expr ';'
pub open spec fn p_var_decl(ts: Seq<SpecSymbol>, pos: int) -> Option<(SpecStmt, int)>
    decreases ts.len() - pos, 29int,
{
    let k = kind_at(ts, pos);
    if !(k == SymbolKind::Let || k == SymbolKind::Const || k == SymbolKind::Var) {
        None
    } else if kind_at(ts, pos + 1) != SymbolKind::Ident || kind_at(ts, pos + 2) != SymbolKind::Assign {
        None
    } else {
        match p_expr(ts, pos + 3) {
            Some((value, q)) => if kind_at(ts, q) == SymbolKind::Semi {
                Some(
                    (
                        SpecStmt::VarDecl { kind: ts[pos].kind, name: text_at(ts, pos + 1), value },
                        q + 1,
                    ),
                )
            } else {
                None
            },
            None => None,
        }
    }
}

/// '(' expr ')' starting at `pos`.
pub open spec fn p_paren_expr(ts: Seq<SpecSymbol>, pos: int) -> Option<(SpecExpr, int)>
    decreases ts.len() - pos, 29int,
{
    if kind_at(ts, pos) != SymbolKind::LPar {
        None
    } else {
        match p_expr(ts, pos + 1) {
            Some((e, q)) => if kind_at(ts, q) == SymbolKind::RPar {
                Some((e, q + 1))
            } else {
                None
            },
            None => None,
        }
    }
}

/// 'if' '(' expr ')' braced ('else' braced)?
pub open spec fn p_conditional(ts: Seq<SpecSymbol>, pos: int) -> Option<(SpecStmt, int)>
    decreases ts.len() - pos, 29int,
{
    if kind_at(ts, pos) != SymbolKind::If {
        None
    } else {
    match p_paren_expr(ts, pos + 1) {
        Some((condition, p)) => if !advanced(ts, pos, p) {
            None
        } else {
            match p_braced(ts, p) {
                Some((body, q)) => if !advanced(ts, pos, q) {
                    None
                } else if kind_at(ts, q) == SymbolKind::Else {
                    match p_braced(ts, q + 1) {
                        Some((alt, r)) => Some(
                            (SpecStmt::Cond { condition, body, alternate: Some(alt) }, r),
                        ),
                        None => None,
                    }
                } else {
                    Some((SpecStmt::Cond { condition, body, alternate: None }, q))
                },
                None => None,
            }
        },
        None => None,
    }
    }
}

/// 'while' '(' expr ')' braced
pub open spec fn p_while(ts: Seq<SpecSymbol>, pos: int) -> Option<(SpecStmt, int)>
    decreases ts.len() - pos, 29int,
{
    if kind_at(ts, pos) != SymbolKind::While {
        None
    } else {
    match p_paren_expr(ts, pos + 1) {
        Some((condition, p)) => if !advanced(ts, pos, p) {
            None
        } else {
            match p_braced(ts, p) {
                Some((body, q)) => Some((SpecStmt::WhileLoop { condition, body }, q)),
                None => None,
            }
        },
        None => None,
    }
    }
}

/// The update clause of a `for` loop: an assignment or an expression, no ';'.
pub open spec fn p_for_update(ts: Seq<SpecSymbol>, pos: int) -> Option<(SpecStmt, int)>
    decreases ts.len() - pos, 28int,
{
    if kind_at(ts, pos) == SymbolKind::Ident && kind_at(ts, pos + 1) == SymbolKind::Assign {
        match p_expr(ts, pos + 2) {
            Some((value, q)) => Some((SpecStmt::Assign { name: text_at(ts, pos), value }, q)),
            None => None,
        }
    } else {
        match p_expr(ts, pos) {
            Some((e, q)) => Some((SpecStmt::ExprStmt(e), q)),
            None => None,
        }
    }
}

/// 'for' '(' stmt expr ';' update ')' braced
pub open spec fn p_for(ts: Seq<SpecSymbol>, pos: int) -> Option<(SpecStmt, int)>
    decreases ts.len() - pos, 29int,
{
    if kind_at(ts, pos) != SymbolKind::For || kind_at(ts, pos + 1) != SymbolKind::LPar {
        None
    } else {
        match p_stmt(ts, pos + 2) {
            Some((init, p)) => if !advanced(ts, pos, p) {
                None
            } else {
                match p_expr(ts, p) {
                    Some((condition, p2)) => if !advanced(ts, pos, p2) || kind_at(ts, p2)
                        != SymbolKind::Semi {
                        None
                    } else {
                        match p_for_update(ts, p2 + 1) {
                            Some((update, p3)) => if !advanced(ts, pos, p3) || kind_at(ts, p3)
                                != SymbolKind::RPar {
                                None
                            } else {
                                match p_braced(ts, p3 + 1) {
                                    Some((body, q)) => Some(
                                        (
                                            SpecStmt::ForLoop {
                                                init: Box::new(init),
                                                condition,
                                                body,
                                                update: Box::new(update),
                                            },
                                            q,
                                        ),
                                    ),
                                    None => None,
                                }
                            },
                            None => None,
                        }
                    },
                    None => None,
                }
            },
            None => None,
        }
    }
}

/// The parameter names after the first, each preceded by a comma.
pub open spec fn p_params_rest(ts: Seq<SpecSymbol>, pos: int, acc: Seq<Seq<char>>) -> Option<(Seq<Seq<char>>, int)>
    decreases ts.len() - pos,
{
    if kind_at(ts, pos) == SymbolKind::Comma {
        if kind_at(ts, pos + 1) == SymbolKind::Ident {
            p_params_rest(ts, pos + 2, acc.push(text_at(ts, pos + 1)))
        } else {
            None
        }
    } else {
        Some((acc, pos))
    }
}

/// The parameter list of a function, starting after '(' and ending after ')'.
pub open spec fn p_params(ts: Seq<SpecSymbol>, pos: int) -> Option<(Seq<Seq<char>>, int)> {
    if kind_at(ts, pos) == SymbolKind::RPar {
        Some((Seq::empty(), pos + 1))
    } else if kind_at(ts, pos) != SymbolKind::Ident {
        None
    } else {
        match p_params_rest(ts, pos + 1, seq![text_at(ts, pos)]) {
            Some((ps, q)) => if kind_at(ts, q) == SymbolKind::RPar {
                Some((ps, q + 1))
            } else {
                None
            },
            None => None,
        }
    }
}

/// 'function' ident '(' params ')' braced
pub open spec fn p_func_decl(ts: Seq<SpecSymbol>, pos: int) -> Option<(SpecStmt, int)>
    decreases ts.len() - pos, 29int,
{
    if kind_at(ts, pos) != SymbolKind::Function || kind_at(ts, pos + 1) != SymbolKind::Ident
        || kind_at(ts, pos + 2) != SymbolKind::LPar {
        None
    } else {
        match p_params(ts, pos + 3) {
            Some((params, p)) => if !advanced(ts, pos, p) {
                None
            } else {
                match p_braced(ts, p) {
                    Some((body, q)) => Some(
                        (SpecStmt::FuncDecl { name: text_at(ts, pos + 1), params, body }, q),
                    ),
                    None => None,
                }
            },
            None => None,
        }
    }
}

/// 'return' expr ';'
pub open spec fn p_return(ts: Seq<SpecSymbol>, pos: int) -> Option<(SpecStmt, int)>
    decreases ts.len() - pos, 29int,
{
    if kind_at(ts, pos) != SymbolKind::Return {
        None
    } else {
    match p_expr(ts, pos + 1) {
        Some((e, q)) => if kind_at(ts, q) == SymbolKind::Semi {
            Some((SpecStmt::Return(e), q + 1))
        } else {
            None
        },
        None => None,
    }
    }
}

/// ident '=' expr ';'  |  expr ';'
pub open spec fn p_expr_stmt(ts: Seq<SpecSymbol>, pos: int) -> Option<(SpecStmt, int)>
    decreases ts.len() - pos, 29int,
{
    match p_for_update(ts, pos) {
        Some((s, q)) => if kind_at(ts, q) == SymbolKind::Semi {
            Some((s, q + 1))
        } else {
            None
        },
        None => None,
    }
}

/// A statement, chosen by its first token.
pub open spec fn p_stmt(ts: Seq<SpecSymbol>, pos: int) -> Option<(SpecStmt, int)>
    decreases ts.len() - pos, 30int,
{
    let k = kind_at(ts, pos);
    if k == SymbolKind::Let || k == SymbolKind::Const || k == SymbolKind::Var {
        p_var_decl(ts, pos)
    } else if k == SymbolKind::If {
        p_conditional(ts, pos)
    } else if k == SymbolKind::While {
        p_while(ts, pos)
    } else if k == SymbolKind::For {
        p_for(ts, pos)
    } else if k == SymbolKind::Function {
        p_func_decl(ts, pos)
    } else if k == SymbolKind::Return {
        p_return(ts, pos)
    } else {
        p_expr_stmt(ts, pos)
    }
}

/// The statements from `pos` to the end of the tokens, appended to `acc`.
pub open spec fn p_program(ts: Seq<SpecSymbol>, pos: int, acc: Seq<SpecStmt>) -> Option<Seq<SpecStmt>>
    decreases ts.len() - pos,
{
    if pos < 0 || pos >= ts.len() {
        Some(acc)
    } else {
        match p_stmt(ts, pos) {
            Some((s, p)) => if advanced(ts, pos, p) {
                p_program(ts, p, acc.push(s))
            } else {
                None
            },
            None => None,
        }
    }
}

// ----------------------------------------------------------------------------
// The recursive-descent parser.
// ----------------------------------------------------------------------------

/// What a sub-parse for an expression returns, as a view.
pub open spec fn expr_result(r: Option<(Expr, usize)>) -> Option<(SpecExpr, int)> {
    match r {
        Some((e, p)) => Some((expr_view(&e), p as int)),
        None => None,
    }
}

/// What a sub-parse for a statement returns, as a view.
pub open spec fn stmt_result(r: Option<(Stmt, usize)>) -> Option<(SpecStmt, int)> {
    match r {
        Some((s, p)) => Some((stmt_view(&s), p as int)),
        None => None,
    }
}

/// What a sub-parse for a statement list returns, as a view.
pub open spec fn stmts_result(r: Option<(Vec<Stmt>, usize)>) -> Option<(Seq<SpecStmt>, int)> {
    match r {
        Some((ss, p)) => Some((stmts_view(ss@), p as int)),
        None => None,
    }
}

/// The comparison operator a token kind denotes, if any.
fn comparison_op_of(k: SymbolKind) -> (r: Option<Op>)
    ensures
        r == comparison_op(k),
{
    match k {
        SymbolKind::Lt => Some(Op::Lt),
        SymbolKind::Gt => Some(Op::Gt),
        SymbolKind::Equal => Some(Op::Equal),
        SymbolKind::Lte => Some(Op::Lte),
        SymbolKind::Gte => Some(Op::Gte),
        SymbolKind::NotEqual => Some(Op::NotEqual),
        _ => None,
    }
}

/// A parser over a token sequence, with a current position.
pub struct Parser {
    syms: Vec<Symbol>,
    pos: usize,
}

impl Parser {
    /// The views of the tokens being parsed.
    pub closed spec fn tokens(&self) -> Seq<SpecSymbol> {
        symbols_view(self.syms@)
    }

    /// The current position.
    pub closed spec fn position(&self) -> int {
        self.pos as int
    }

    pub fn new(syms: Vec<Symbol>) -> (p: Self)
        ensures
            p.tokens() == symbols_view(syms@),
            p.position() == 0,
    {
        Parser { syms, pos: 0 }
    }

    /// The kind of the token at `pos`, or `Eof` past the end.
    fn peek(&self, pos: usize) -> (k: SymbolKind)
        ensures
            k == kind_at(self.tokens(), pos as int),
    {
        if pos >= self.syms.len() {
            SymbolKind::Eof
        } else {
            self.syms[pos].kind
        }
    }

    /// A copy of the token at `pos`.
    fn pop(&self, pos: usize) -> (s: Symbol)
        requires
            pos < self.syms.len(),
        ensures
            s@ == self.tokens()[pos as int],
    {
        self.syms[pos].duplicate()
    }

    /// The text of the token at `pos`, which must be of kind `kind`.
    fn expect(&self, pos: usize, kind: SymbolKind) -> (r: Option<String>)
        ensures
            match r {
                Some(t) => kind_at(self.tokens(), pos as int) == kind && kind != SymbolKind::Eof
                    && t@ == text_at(self.tokens(), pos as int),
                None => kind_at(self.tokens(), pos as int) != kind || kind == SymbolKind::Eof,
            },
    {
        if kind == SymbolKind::Eof || self.peek(pos) != kind {
            None
        } else {
            Some(self.pop(pos).str_val)
        }
    }

    /// Parses every remaining statement; the tokens must form a program.
    pub fn parse(&mut self) -> (r: Vec<Stmt>)
        requires
            p_program(old(self).tokens(), old(self).position(), Seq::empty()) is Some,
        ensures
            p_program(old(self).tokens(), old(self).position(), Seq::empty()) == Some(stmts_view(r@)),
            final(self).tokens() == old(self).tokens(),
            final(self).position() == if old(self).position() < old(self).tokens().len() {
                old(self).tokens().len() as int
            } else {
                old(self).position()
            },
    {
        match self.try_parse() {
            Some(v) => v,
            None => vstd::pervasive::unreached(),
        }
    }

    /// Parses every remaining statement, or returns `None` where the tokens do not form a program
    /// (the position is then left where it was).
    pub fn try_parse(&mut self) -> (r: Option<Vec<Stmt>>)
        ensures
            match r {
                Some(v) => p_program(old(self).tokens(), old(self).position(), Seq::empty()) == Some(
                    stmts_view(v@),
                ) && final(self).position() == if old(self).position() < old(self).tokens().len() {
                    old(self).tokens().len() as int
                } else {
                    old(self).position()
                },
                None => p_program(old(self).tokens(), old(self).position(), Seq::empty()) is None
                    && final(self).position() == old(self).position(),
            },
            final(self).tokens() == old(self).tokens(),
    {
        let ghost ts = self.tokens();
        let mut stmts: Vec<Stmt> = Vec::new();
        let mut p = self.pos;
        assert(stmts_view(stmts@) =~= Seq::<SpecStmt>::empty());
        while p < self.syms.len()
            invariant
                ts == self.tokens(),
                self.pos <= p,
                p <= self.syms.len() || p == self.pos,
                p_program(ts, p as int, stmts_view(stmts@)) == p_program(ts, self.pos as int, Seq::empty()),
            decreases self.syms.len() - p,
        {
            match self.parse_stmt(p) {
                None => {
                    return None;
                },
                Some((st, q)) => {
                    let ghost before = stmts@;
                    stmts.push(st);
                    assert(stmts_view(stmts@) =~= stmts_view(before).push(stmt_view(&st)));
                    p = q;
                },
            }
        }
        self.pos = p;
        Some(stmts)
    }

    fn parse_stmt(&self, pos: usize) -> (r: Option<(Stmt, usize)>)
        requires
            pos <= self.syms.len(),
        ensures
            stmt_result(r) == p_stmt(self.tokens(), pos as int),
            r matches Some((_, q)) ==> pos < q <= self.syms.len(),
        decreases self.syms.len() - pos, 30int,
    {
        let k = self.peek(pos);
        if k == SymbolKind::Let || k == SymbolKind::Const || k == SymbolKind::Var {
            self.parse_var_decl(pos)
        } else if k == SymbolKind::If {
            self.parse_conditional(pos)
        } else if k == SymbolKind::While {
            self.parse_while_loop(pos)
        } else if k == SymbolKind::For {
            self.parse_for_loop(pos)
        } else if k == SymbolKind::Function {
            self.parse_func_decl(pos)
        } else if k == SymbolKind::Return {
            self.parse_return_stmt(pos)
        } else {
            self.parse_expr_stmt(pos)
        }
    }

    fn parse_block(&self, pos: usize) -> (r: Option<(Vec<Stmt>, usize)>)
        requires
            pos <= self.syms.len(),
        ensures
            stmts_result(r) == p_block(self.tokens(), pos as int, Seq::empty()),
            r matches Some((_, q)) ==> pos <= q <= self.syms.len(),
        decreases self.syms.len() - pos, 31int,
    {
        let ghost ts = self.tokens();
        let mut body: Vec<Stmt> = Vec::new();
        let mut p = pos;
        assert(stmts_view(body@) =~= Seq::<SpecStmt>::empty());
        while self.peek(p) != SymbolKind::RBrace
            invariant
                ts == self.tokens(),
                pos <= p <= self.syms.len(),
                p_block(ts, p as int, stmts_view(body@)) == p_block(ts, pos as int, Seq::empty()),
            decreases self.syms.len() - p,
        {
            match self.parse_stmt(p) {
                None => {
                    return None;
                },
                Some((st, q)) => {
                    let ghost before = body@;
                    body.push(st);
                    assert(stmts_view(body@) =~= stmts_view(before).push(stmt_view(&st)));
                    p = q;
                },
            }
        }
        Some((body, p))
    }

    fn parse_braced(&self, pos: usize) -> (r: Option<(Vec<Stmt>, usize)>)
        requires
            pos <= self.syms.len(),
        ensures
            stmts_result(r) == p_braced(self.tokens(), pos as int),
            r matches Some((_, q)) ==> pos < q <= self.syms.len(),
        decreases self.syms.len() - pos, 32int,
    {
        if self.peek(pos) != SymbolKind::LBrace {
            return None;
        }
        match self.parse_block(pos + 1) {
            None => None,
            Some((body, q)) => {
                if self.peek(q) == SymbolKind::RBrace {
                    Some((body, q + 1))
                } else {
                    None
                }
            },
        }
    }

    fn parse_var_decl(&self, pos: usize) -> (r: Option<(Stmt, usize)>)
        requires
            pos <= self.syms.len(),
        ensures
            stmt_result(r) == p_var_decl(self.tokens(), pos as int),
            r matches Some((_, q)) ==> pos < q <= self.syms.len(),
        decreases self.syms.len() - pos, 29int,
    {
        let k = self.peek(pos);
        if !(k == SymbolKind::Let || k == SymbolKind::Const || k == SymbolKind::Var) {
            return None;
        }
        let name = match self.expect(pos + 1, SymbolKind::Ident) {
            Some(t) => t,
            None => {
                return None;
            },
        };
        if self.peek(pos + 2) != SymbolKind::Assign {
            return None;
        }
        match self.parse_expr(pos + 3) {
            None => None,
            Some((value, q)) => {
                if self.peek(q) == SymbolKind::Semi {
                    {
                    let s = Stmt::VarDecl { kind: k, name, value };
                    proof { lemma_stmt_view(&s); }
                    Some((s, q + 1))
                }
                } else {
                    None
                }
            },
        }
    }

    fn parse_paren_expr(&self, pos: usize) -> (r: Option<(Expr, usize)>)
        requires
            pos <= self.syms.len(),
        ensures
            expr_result(r) == p_paren_expr(self.tokens(), pos as int),
            r matches Some((_, q)) ==> pos < q <= self.syms.len(),
        decreases self.syms.len() - pos, 29int,
    {
        if self.peek(pos) != SymbolKind::LPar {
            return None;
        }
        match self.parse_expr(pos + 1) {
            None => None,
            Some((e, q)) => {
                if self.peek(q) == SymbolKind::RPar {
                    Some((e, q + 1))
                } else {
                    None
                }
            },
        }
    }

    fn parse_conditional(&self, pos: usize) -> (r: Option<(Stmt, usize)>)
        requires
            pos <= self.syms.len(),
        ensures
            stmt_result(r) == p_conditional(self.tokens(), pos as int),
            r matches Some((_, q)) ==> pos < q <= self.syms.len(),
        decreases self.syms.len() - pos, 29int,
    {
        if self.peek(pos) != SymbolKind::If {
            return None;
        }
        let (condition, p) = match self.parse_paren_expr(pos + 1) {
            Some(x) => x,
            None => {
                return None;
            },
        };
        let (body, q) = match self.parse_braced(p) {
            Some(x) => x,
            None => {
                return None;
            },
        };
        if self.peek(q) == SymbolKind::Else {
            match self.parse_braced(q + 1) {
                Some((alt, r)) => {
                    let s = Stmt::Cond { condition, body, alternate: Some(alt) };
                    proof { lemma_stmt_view(&s); }
                    Some((s, r))
                },
                None => None,
            }
        } else {
            let s = Stmt::Cond { condition, body, alternate: None };
            proof { lemma_stmt_view(&s); }
            Some((s, q))
        }
    }

    fn parse_while_loop(&self, pos: usize) -> (r: Option<(Stmt, usize)>)
        requires
            pos <= self.syms.len(),
        ensures
            stmt_result(r) == p_while(self.tokens(), pos as int),
            r matches Some((_, q)) ==> pos < q <= self.syms.len(),
        decreases self.syms.len() - pos, 29int,
    {
        if self.peek(pos) != SymbolKind::While {
            return None;
        }
        let (condition, p) = match self.parse_paren_expr(pos + 1) {
            Some(x) => x,
            None => {
                return None;
            },
        };
        match self.parse_braced(p) {
            Some((body, q)) => {
                let s = Stmt::WhileLoop { condition, body };
                proof { lemma_stmt_view(&s); }
                Some((s, q))
            },
            None => None,
        }
    }

    fn parse_for_update(&self, pos: usize) -> (r: Option<(Stmt, usize)>)
        requires
            pos <= self.syms.len(),
        ensures
            stmt_result(r) == p_for_update(self.tokens(), pos as int),
            r matches Some((_, q)) ==> pos < q <= self.syms.len(),
        decreases self.syms.len() - pos, 28int,
    {
        if self.peek(pos) == SymbolKind::Ident && self.peek(pos + 1) == SymbolKind::Assign {
            let name = self.pop(pos).str_val;
            match self.parse_expr(pos + 2) {
                Some((value, q)) => {
                    let s = Stmt::Assign { name, value };
                    proof { lemma_stmt_view(&s); }
                    Some((s, q))
                },
                None => None,
            }
        } else {
            match self.parse_expr(pos) {
                Some((e, q)) => {
                    let s = Stmt::ExprStmt(e);
                    proof { lemma_stmt_view(&s); }
                    Some((s, q))
                },
                None => None,
            }
        }
    }

    fn parse_for_loop(&self, pos: usize) -> (r: Option<(Stmt, usize)>)
        requires
            pos <= self.syms.len(),
        ensures
            stmt_result(r) == p_for(self.tokens(), pos as int),
            r matches Some((_, q)) ==> pos < q <= self.syms.len(),
        decreases self.syms.len() - pos, 29int,
    {
        if self.peek(pos) != SymbolKind::For || self.peek(pos + 1) != SymbolKind::LPar {
            return None;
        }
        let (init, p) = match self.parse_stmt(pos + 2) {
            Some(x) => x,
            None => {
                return None;
            },
        };
        let (condition, p2) = match self.parse_expr(p) {
            Some(x) => x,
            None => {
                return None;
            },
        };
        if self.peek(p2) != SymbolKind::Semi {
            return None;
        }
        let (update, p3) = match self.parse_for_update(p2 + 1) {
            Some(x) => x,
            None => {
                return None;
            },
        };
        if self.peek(p3) != SymbolKind::RPar {
            return None;
        }
        match self.parse_braced(p3 + 1) {
            Some((body, q)) => {
                let s = Stmt::ForLoop { init: Box::new(init), condition, body, update: Box::new(update) };
                proof { lemma_stmt_view(&s); }
                Some((s, q))
            },
            None => None,
        }
    }

    fn parse_params(&self, pos: usize) -> (r: Option<(Vec<String>, usize)>)
        requires
            pos <= self.syms.len(),
        ensures
            match r {
                Some((ps, q)) => p_params(self.tokens(), pos as int) == Some((names_view(ps@), q as int))
                    && pos < q <= self.syms.len(),
                None => p_params(self.tokens(), pos as int) is None,
            },
    {
        let ghost ts = self.tokens();
        if self.peek(pos) == SymbolKind::RPar {
            let ps: Vec<String> = Vec::new();
            assert(names_view(ps@) =~= Seq::<Seq<char>>::empty());
            return Some((ps, pos + 1));
        }
        let first = match self.expect(pos, SymbolKind::Ident) {
            Some(t) => t,
            None => {
                return None;
            },
        };
        let mut ps: Vec<String> = Vec::new();
        ps.push(first);
        assert(names_view(ps@) =~= seq![text_at(ts, pos as int)]);
        let mut p = pos + 1;
        while self.peek(p) == SymbolKind::Comma
            invariant
                ts == self.tokens(),
                pos < p <= self.syms.len(),
                kind_at(ts, pos as int) == SymbolKind::Ident,
                p_params_rest(ts, p as int, names_view(ps@)) == p_params_rest(
                    ts,
                    pos + 1,
                    seq![text_at(ts, pos as int)],
                ),
            decreases self.syms.len() - p,
        {
            match self.expect(p + 1, SymbolKind::Ident) {
                Some(t) => {
                    let ghost before = ps@;
                    ps.push(t);
                    assert(names_view(ps@) =~= names_view(before).push(text_at(ts, p + 1)));
                    p = p + 2;
                },
                None => {
                    return None;
                },
            }
        }
        if self.peek(p) == SymbolKind::RPar {
            Some((ps, p + 1))
        } else {
            None
        }
    }

    fn parse_func_decl(&self, pos: usize) -> (r: Option<(Stmt, usize)>)
        requires
            pos <= self.syms.len(),
        ensures
            stmt_result(r) == p_func_decl(self.tokens(), pos as int),
            r matches Some((_, q)) ==> pos < q <= self.syms.len(),
        decreases self.syms.len() - pos, 29int,
    {
        if self.peek(pos) != SymbolKind::Function {
            return None;
        }
        let name = match self.expect(pos + 1, SymbolKind::Ident) {
            Some(t) => t,
            None => {
                return None;
            },
        };
        if self.peek(pos + 2) != SymbolKind::LPar {
            return None;
        }
        let (params, p) = match self.parse_params(pos + 3) {
            Some(x) => x,
            None => {
                return None;
            },
        };
        match self.parse_braced(p) {
            Some((body, q)) => {
                let s = Stmt::FuncDecl { name, params, body };
                proof { lemma_stmt_view(&s); }
                Some((s, q))
            },
            None => None,
        }
    }

    fn parse_return_stmt(&self, pos: usize) -> (r: Option<(Stmt, usize)>)
        requires
            pos <= self.syms.len(),
        ensures
            stmt_result(r) == p_return(self.tokens(), pos as int),
            r matches Some((_, q)) ==> pos < q <= self.syms.len(),
        decreases self.syms.len() - pos, 29int,
    {
        if self.peek(pos) != SymbolKind::Return {
            return None;
        }
        match self.parse_expr(pos + 1) {
            Some((e, q)) => {
                if self.peek(q) == SymbolKind::Semi {
                    let s = Stmt::Return(e);
                    proof { lemma_stmt_view(&s); }
                    Some((s, q + 1))
                } else {
                    None
                }
            },
            None => None,
        }
    }

    fn parse_expr_stmt(&self, pos: usize) -> (r: Option<(Stmt, usize)>)
        requires
            pos <= self.syms.len(),
        ensures
            stmt_result(r) == p_expr_stmt(self.tokens(), pos as int),
            r matches Some((_, q)) ==> pos < q <= self.syms.len(),
        decreases self.syms.len() - pos, 29int,
    {
        match self.parse_for_update(pos) {
            Some((s, q)) => {
                if self.peek(q) == SymbolKind::Semi {
                    Some((s, q + 1))
                } else {
                    None
                }
            },
            None => None,
        }
    }

    fn parse_expr(&self, pos: usize) -> (r: Option<(Expr, usize)>)
        requires
            pos <= self.syms.len(),
        ensures
            expr_result(r) == p_expr(self.tokens(), pos as int),
            r matches Some((_, q)) ==> pos < q <= self.syms.len(),
        decreases self.syms.len() - pos, 20int,
    {
        self.parse_logical_or(pos)
    }

    fn parse_logical_or(&self, pos: usize) -> (r: Option<(Expr, usize)>)
        requires
            pos <= self.syms.len(),
        ensures
            expr_result(r) == p_or(self.tokens(), pos as int),
            r matches Some((_, q)) ==> pos < q <= self.syms.len(),
        decreases self.syms.len() - pos, 19int,
    {
        let ghost ts = self.tokens();
        let (mut left, mut p) = match self.parse_logical_and(pos) {
            Some(x) => x,
            None => {
                return None;
            },
        };
        while self.peek(p) == SymbolKind::Or
            invariant
                ts == self.tokens(),
                pos < p <= self.syms.len(),
                p_or_rest(ts, p as int, expr_view(&left)) == p_or(ts, pos as int),
            decreases self.syms.len() - p,
        {
            match self.parse_logical_and(p + 1) {
                None => {
                    return None;
                },
                Some((right, q)) => {
                    left = Expr::Bool { op: Op::Or, left: Box::new(left), right: Box::new(right) };
                    proof { lemma_expr_view(&left); }
                    p = q;
                },
            }
        }
        Some((left, p))
    }

    fn parse_logical_and(&self, pos: usize) -> (r: Option<(Expr, usize)>)
        requires
            pos <= self.syms.len(),
        ensures
            expr_result(r) == p_and(self.tokens(), pos as int),
            r matches Some((_, q)) ==> pos < q <= self.syms.len(),
        decreases self.syms.len() - pos, 17int,
    {
        let ghost ts = self.tokens();
        let (mut left, mut p) = match self.parse_comparison(pos) {
            Some(x) => x,
            None => {
                return None;
            },
        };
        while self.peek(p) == SymbolKind::And
            invariant
                ts == self.tokens(),
                pos < p <= self.syms.len(),
                p_and_rest(ts, p as int, expr_view(&left)) == p_and(ts, pos as int),
            decreases self.syms.len() - p,
        {
            match self.parse_comparison(p + 1) {
                None => {
                    return None;
                },
                Some((right, q)) => {
                    left = Expr::Bool { op: Op::And, left: Box::new(left), right: Box::new(right) };
                    proof { lemma_expr_view(&left); }
                    p = q;
                },
            }
        }
        Some((left, p))
    }

    fn parse_comparison(&self, pos: usize) -> (r: Option<(Expr, usize)>)
        requires
            pos <= self.syms.len(),
        ensures
            expr_result(r) == p_compare(self.tokens(), pos as int),
            r matches Some((_, q)) ==> pos < q <= self.syms.len(),
        decreases self.syms.len() - pos, 15int,
    {
        let (left, p) = match self.parse_additive(pos) {
            Some(x) => x,
            None => {
                return None;
            },
        };
        let op = match comparison_op_of(self.peek(p)) {
            Some(op) => op,
            None => {
                return Some((left, p));
            },
        };
        match self.parse_additive(p + 1) {
            Some((right, q)) => {
                let e = Expr::Bool { op, left: Box::new(left), right: Box::new(right) };
                proof { lemma_expr_view(&e); }
                Some((e, q))
            },
            None => None,
        }
    }

    fn parse_additive(&self, pos: usize) -> (r: Option<(Expr, usize)>)
        requires
            pos <= self.syms.len(),
        ensures
            expr_result(r) == p_add(self.tokens(), pos as int),
            r matches Some((_, q)) ==> pos < q <= self.syms.len(),
        decreases self.syms.len() - pos, 14int,
    {
        let ghost ts = self.tokens();
        let (mut left, mut p) = match self.parse_term(pos) {
            Some(x) => x,
            None => {
                return None;
            },
        };
        while self.peek(p) == SymbolKind::Add || self.peek(p) == SymbolKind::Sub
            invariant
                ts == self.tokens(),
                pos < p <= self.syms.len(),
                p_add_rest(ts, p as int, expr_view(&left)) == p_add(ts, pos as int),
            decreases self.syms.len() - p,
        {
            let op = if self.peek(p) == SymbolKind::Add {
                Op::Add
            } else {
                Op::Sub
            };
            match self.parse_term(p + 1) {
                None => {
                    return None;
                },
                Some((right, q)) => {
                    left = Expr::Binary { op, left: Box::new(left), right: Box::new(right) };
                    proof { lemma_expr_view(&left); }
                    p = q;
                },
            }
        }
        Some((left, p))
    }

    fn parse_term(&self, pos: usize) -> (r: Option<(Expr, usize)>)
        requires
            pos <= self.syms.len(),
        ensures
            expr_result(r) == p_term(self.tokens(), pos as int),
            r matches Some((_, q)) ==> pos < q <= self.syms.len(),
        decreases self.syms.len() - pos, 12int,
    {
        let ghost ts = self.tokens();
        let (mut left, mut p) = match self.parse_factor(pos) {
            Some(x) => x,
            None => {
                return None;
            },
        };
        while self.peek(p) == SymbolKind::Mul || self.peek(p) == SymbolKind::Div
            invariant
                ts == self.tokens(),
                pos < p <= self.syms.len(),
                p_term_rest(ts, p as int, expr_view(&left)) == p_term(ts, pos as int),
            decreases self.syms.len() - p,
        {
            let op = if self.peek(p) == SymbolKind::Mul {
                Op::Mul
            } else {
                Op::Div
            };
            match self.parse_factor(p + 1) {
                None => {
                    return None;
                },
                Some((right, q)) => {
                    left = Expr::Binary { op, left: Box::new(left), right: Box::new(right) };
                    proof { lemma_expr_view(&left); }
                    p = q;
                },
            }
        }
        Some((left, p))
    }

    fn parse_args(&self, pos: usize) -> (r: Option<(Vec<Expr>, usize)>)
        requires
            pos <= self.syms.len(),
        ensures
            match r {
                Some((args, q)) => p_args(self.tokens(), pos as int) == Some((exprs_view(args@), q as int))
                    && pos < q <= self.syms.len(),
                None => p_args(self.tokens(), pos as int) is None,
            },
        decreases self.syms.len() - pos, 22int,
    {
        let ghost ts = self.tokens();
        if self.peek(pos) == SymbolKind::RPar {
            let args: Vec<Expr> = Vec::new();
            assert(exprs_view(args@) =~= Seq::<SpecExpr>::empty());
            return Some((args, pos + 1));
        }
        let (first, mut p) = match self.parse_expr(pos) {
            Some(x) => x,
            None => {
                return None;
            },
        };
        let ghost fv = expr_view(&first);
        let ghost p0 = p;
        let mut args: Vec<Expr> = Vec::new();
        args.push(first);
        assert(exprs_view(args@) =~= seq![fv]);
        while self.peek(p) == SymbolKind::Comma
            invariant
                ts == self.tokens(),
                pos < p <= self.syms.len(),
                p_args_rest(ts, p as int, exprs_view(args@)) == p_args_rest(ts, p0 as int, seq![fv]),
                p_expr(ts, pos as int) == Some((fv, p0 as int)),
                pos < p0 <= self.syms.len(),
                kind_at(ts, pos as int) != SymbolKind::RPar,
            decreases self.syms.len() - p,
        {
            match self.parse_expr(p + 1) {
                None => {
                    return None;
                },
                Some((e, q)) => {
                    let ghost before = args@;
                    let ghost ev = expr_view(&e);
                    args.push(e);
                    assert(exprs_view(args@) =~= exprs_view(before).push(ev));
                    p = q;
                },
            }
        }
        if self.peek(p) == SymbolKind::RPar {
            Some((args, p + 1))
        } else {
            None
        }
    }

    fn parse_factor(&self, pos: usize) -> (r: Option<(Expr, usize)>)
        requires
            pos <= self.syms.len(),
        ensures
            expr_result(r) == p_factor(self.tokens(), pos as int),
            r matches Some((_, q)) ==> pos < q <= self.syms.len(),
        decreases self.syms.len() - pos, 10int,
    {
        let k = self.peek(pos);
        if k == SymbolKind::Str {
            let s = self.pop(pos);
            let e = Expr::StringLit(s.str_val);
            proof { lemma_expr_view(&e); }
            Some((e, pos + 1))
        } else if k == SymbolKind::Smi {
            match self.syms[pos].int_val {
                Some(n) => {
                    let e = Expr::NumberLit(n);
                    proof { lemma_expr_view(&e); }
                    Some((e, pos + 1))
                },
                None => None,
            }
        } else if k == SymbolKind::Ident {
            let s = self.pop(pos);
            if self.peek(pos + 1) == SymbolKind::LPar {
                match self.parse_args(pos + 2) {
                    Some((args, q)) => {
                        let e = Expr::Call { func: s.str_val, args };
                        proof { lemma_expr_view(&e); }
                        Some((e, q))
                    },
                    None => None,
                }
            } else {
                let e = Expr::Ident(s.str_val);
                proof { lemma_expr_view(&e); }
                Some((e, pos + 1))
            }
        } else if k == SymbolKind::Not {
            match self.parse_factor(pos + 1) {
                Some((e, q)) => {
                    let e2 = Expr::Not(Box::new(e));
                    proof { lemma_expr_view(&e2); }
                    Some((e2, q))
                },
                None => None,
            }
        } else if k == SymbolKind::LPar {
            match self.parse_expr(pos + 1) {
                Some((e, q)) => {
                    if self.peek(q) == SymbolKind::RPar {
                        Some((e, q + 1))
                    } else {
                        None
                    }
                },
                None => None,
            }
        } else {
            None
        }
    }
}

} // verus!
