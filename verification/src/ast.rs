use vstd::prelude::*;

use crate::lex::{SymbolKind, kind_text};
use crate::text::{decimal, decimal_string, push_str};

verus! {

/// Binary operators of the language.
#[derive(Debug, Clone, Copy, PartialEq, Eq, Structural)]
pub enum Op {
    Add,
    Sub,
    Mul,
    Div,
    Lt,
    Gt,
    Equal,
    Lte,
    Gte,
    NotEqual,
    And,
    Or,
}

/// Expressions.
#[derive(Debug, PartialEq, Eq)]
pub enum Expr {
    NumberLit(i64),
    StringLit(String),
    Ident(String),
    Bool { op: Op, left: Box<Expr>, right: Box<Expr> },
    Binary { op: Op, left: Box<Expr>, right: Box<Expr> },
    Call { func: String, args: Vec<Expr> },
    Not(Box<Expr>),
}

/// Statements.
#[derive(Debug, PartialEq, Eq)]
pub enum Stmt {
    VarDecl { kind: SymbolKind, name: String, value: Expr },
    Assign { name: String, value: Expr },
    Cond { condition: Expr, body: Vec<Stmt>, alternate: Option<Vec<Stmt>> },
    WhileLoop { condition: Expr, body: Vec<Stmt> },
    ForLoop { init: Box<Stmt>, condition: Expr, body: Vec<Stmt>, update: Box<Stmt> },
    FuncDecl { name: String, params: Vec<String>, body: Vec<Stmt> },
    Return(Expr),
    ExprStmt(Expr),
}

/// The mathematical form of an expression: names are character sequences.
pub enum SpecExpr {
    NumberLit(i64),
    StringLit(Seq<char>),
    Ident(Seq<char>),
    Bool { op: Op, left: Box<SpecExpr>, right: Box<SpecExpr> },
    Binary { op: Op, left: Box<SpecExpr>, right: Box<SpecExpr> },
    Call { func: Seq<char>, args: Seq<SpecExpr> },
    Not(Box<SpecExpr>),
}

/// The mathematical form of a statement.
pub enum SpecStmt {
    VarDecl { kind: SymbolKind, name: Seq<char>, value: SpecExpr },
    Assign { name: Seq<char>, value: SpecExpr },
    Cond { condition: SpecExpr, body: Seq<SpecStmt>, alternate: Option<Seq<SpecStmt>> },
    WhileLoop { condition: SpecExpr, body: Seq<SpecStmt> },
    ForLoop {
        init: Box<SpecStmt>,
        condition: SpecExpr,
        body: Seq<SpecStmt>,
        update: Box<SpecStmt>,
    },
    FuncDecl { name: Seq<char>, params: Seq<Seq<char>>, body: Seq<SpecStmt> },
    Return(SpecExpr),
    ExprStmt(SpecExpr),
}

/// The view of an expression.
#[verifier::opaque]
pub open spec fn expr_view(e: &Expr) -> SpecExpr
    decreases e,
{
    match e {
        Expr::NumberLit(n) => SpecExpr::NumberLit(*n),
        Expr::StringLit(s) => SpecExpr::StringLit(s@),
        Expr::Ident(s) => SpecExpr::Ident(s@),
        Expr::Bool { op, left, right } => SpecExpr::Bool {
            op: *op,
            left: Box::new(expr_view(left)),
            right: Box::new(expr_view(right)),
        },
        Expr::Binary { op, left, right } => SpecExpr::Binary {
            op: *op,
            left: Box::new(expr_view(left)),
            right: Box::new(expr_view(right)),
        },
        Expr::Call { func, args } => SpecExpr::Call {
            func: func@,
            args: Seq::new(args@.len(), |i: int| if 0 <= i < args@.len() { expr_view(&args@[i]) } else { SpecExpr::NumberLit(0) }),
        },
        Expr::Not(inner) => SpecExpr::Not(Box::new(expr_view(inner))),
    }
}

/// The views of a sequence of expressions.
pub open spec fn exprs_view(es: Seq<Expr>) -> Seq<SpecExpr> {
    Seq::new(es.len(), |i: int| expr_view(&es[i]))
}

/// The view of a statement.
#[verifier::opaque]
pub open spec fn stmt_view(s: &Stmt) -> SpecStmt
    decreases s,
{
    match s {
        Stmt::VarDecl { kind, name, value } => SpecStmt::VarDecl {
            kind: *kind,
            name: name@,
            value: expr_view(value),
        },
        Stmt::Assign { name, value } => SpecStmt::Assign { name: name@, value: expr_view(value) },
        Stmt::Cond { condition, body, alternate } => SpecStmt::Cond {
            condition: expr_view(condition),
            body: Seq::new(body@.len(), |i: int| if 0 <= i < body@.len() { stmt_view(&body@[i]) } else { SpecStmt::ExprStmt(SpecExpr::NumberLit(0)) }),
            alternate: match alternate {
                Some(alt) => Some(Seq::new(alt@.len(), |i: int| if 0 <= i < alt@.len() { stmt_view(&alt@[i]) } else { SpecStmt::ExprStmt(SpecExpr::NumberLit(0)) })),
                None => None,
            },
        },
        Stmt::WhileLoop { condition, body } => SpecStmt::WhileLoop {
            condition: expr_view(condition),
            body: Seq::new(body@.len(), |i: int| if 0 <= i < body@.len() { stmt_view(&body@[i]) } else { SpecStmt::ExprStmt(SpecExpr::NumberLit(0)) }),
        },
        Stmt::ForLoop { init, condition, body, update } => SpecStmt::ForLoop {
            init: Box::new(stmt_view(init)),
            condition: expr_view(condition),
            body: Seq::new(body@.len(), |i: int| if 0 <= i < body@.len() { stmt_view(&body@[i]) } else { SpecStmt::ExprStmt(SpecExpr::NumberLit(0)) }),
            update: Box::new(stmt_view(update)),
        },
        Stmt::FuncDecl { name, params, body } => SpecStmt::FuncDecl {
            name: name@,
            params: Seq::new(params@.len(), |i: int| params@[i]@),
            body: Seq::new(body@.len(), |i: int| if 0 <= i < body@.len() { stmt_view(&body@[i]) } else { SpecStmt::ExprStmt(SpecExpr::NumberLit(0)) }),
        },
        Stmt::Return(e) => SpecStmt::Return(expr_view(e)),
        Stmt::ExprStmt(e) => SpecStmt::ExprStmt(expr_view(e)),
    }
}

/// The views of a sequence of statements.
pub open spec fn stmts_view(ss: Seq<Stmt>) -> Seq<SpecStmt> {
    Seq::new(ss.len(), |i: int| stmt_view(&ss[i]))
}

/// The views of a sequence of names.
pub open spec fn names_view(ns: Seq<String>) -> Seq<Seq<char>> {
    Seq::new(ns.len(), |i: int| ns[i]@)
}

impl View for Expr {
    type V = SpecExpr;

    open spec fn view(&self) -> SpecExpr {
        expr_view(self)
    }
}

impl View for Stmt {
    type V = SpecStmt;

    open spec fn view(&self) -> SpecStmt {
        stmt_view(self)
    }
}

/// How each kind of expression is viewed.
pub proof fn lemma_expr_view(e: &Expr)
    ensures
        match e {
            Expr::NumberLit(n) => expr_view(e) == SpecExpr::NumberLit(*n),
            Expr::StringLit(s) => expr_view(e) == SpecExpr::StringLit(s@),
            Expr::Ident(s) => expr_view(e) == SpecExpr::Ident(s@),
            Expr::Bool { op, left, right } => expr_view(e) == SpecExpr::Bool {
                op: *op,
                left: Box::new(expr_view(left)),
                right: Box::new(expr_view(right)),
            },
            Expr::Binary { op, left, right } => expr_view(e) == SpecExpr::Binary {
                op: *op,
                left: Box::new(expr_view(left)),
                right: Box::new(expr_view(right)),
            },
            Expr::Call { func, args } => expr_view(e) == SpecExpr::Call {
                func: func@,
                args: exprs_view(args@),
            },
            Expr::Not(inner) => expr_view(e) == SpecExpr::Not(Box::new(expr_view(inner))),
        },
{
    reveal(expr_view);
    match e {
        Expr::Call { func, args } => {
            assert(expr_view(e)->args =~= exprs_view(args@));
        },
        _ => {},
    }
}

/// How each kind of statement is viewed.
pub proof fn lemma_stmt_view(s: &Stmt)
    ensures
        match s {
            Stmt::VarDecl { kind, name, value } => stmt_view(s) == SpecStmt::VarDecl {
                kind: *kind,
                name: name@,
                value: expr_view(value),
            },
            Stmt::Assign { name, value } => stmt_view(s) == SpecStmt::Assign {
                name: name@,
                value: expr_view(value),
            },
            Stmt::Cond { condition, body, alternate } => stmt_view(s) == SpecStmt::Cond {
                condition: expr_view(condition),
                body: stmts_view(body@),
                alternate: match alternate {
                    Some(alt) => Some(stmts_view(alt@)),
                    None => None,
                },
            },
            Stmt::WhileLoop { condition, body } => stmt_view(s) == SpecStmt::WhileLoop {
                condition: expr_view(condition),
                body: stmts_view(body@),
            },
            Stmt::ForLoop { init, condition, body, update } => stmt_view(s) == SpecStmt::ForLoop {
                init: Box::new(stmt_view(init)),
                condition: expr_view(condition),
                body: stmts_view(body@),
                update: Box::new(stmt_view(update)),
            },
            Stmt::FuncDecl { name, params, body } => stmt_view(s) == SpecStmt::FuncDecl {
                name: name@,
                params: names_view(params@),
                body: stmts_view(body@),
            },
            Stmt::Return(e) => stmt_view(s) == SpecStmt::Return(expr_view(e)),
            Stmt::ExprStmt(e) => stmt_view(s) == SpecStmt::ExprStmt(expr_view(e)),
        },
{
    reveal(stmt_view);
    match s {
        Stmt::Cond { condition, body, alternate } => {
            assert(stmt_view(s)->Cond_body =~= stmts_view(body@));
            match alternate {
                Some(alt) => {
                    assert(stmt_view(s)->alternate->0 =~= stmts_view(alt@));
                },
                None => {},
            }
        },
        Stmt::WhileLoop { condition, body } => {
            assert(stmt_view(s)->WhileLoop_body =~= stmts_view(body@));
        },
        Stmt::ForLoop { init, condition, body, update } => {
            assert(stmt_view(s)->ForLoop_body =~= stmts_view(body@));
        },
        Stmt::FuncDecl { name, params, body } => {
            assert(stmt_view(s)->FuncDecl_body =~= stmts_view(body@));
            assert(stmt_view(s)->params =~= names_view(params@));
        },
        _ => {},
    }
}

// ----------------------------------------------------------------------------
// How the syntax tree prints.
// ----------------------------------------------------------------------------

/// The text an operator prints as.
pub open spec fn op_text(op: Op) -> Seq<char> {
    match op {
        Op::Add => "+"@,
        Op::Sub => "-"@,
        Op::Mul => "*"@,
        Op::Div => "/"@,
        Op::Lt => "<"@,
        Op::Gt => ">"@,
        Op::Equal => "=="@,
        Op::Lte => "<="@,
        Op::Gte => ">="@,
        Op::NotEqual => "!="@,
        Op::And => "&&"@,
        Op::Or => "||"@,
    }
}

/// How an expression prints: binary and comparison expressions fully
/// parenthesised, a call with its arguments separated by ", ".
pub open spec fn expr_text(e: SpecExpr) -> Seq<char>
    decreases e,
{
    match e {
        SpecExpr::NumberLit(n) => decimal(n as int),
        SpecExpr::StringLit(v) => "\""@ + v + "\""@,
        SpecExpr::Ident(name) => name,
        SpecExpr::Bool { op, left, right } => "("@ + expr_text(*left) + " "@ + op_text(op) + " "@ + expr_text(*right)
            + ")"@,
        SpecExpr::Binary { op, left, right } => "("@ + expr_text(*left) + " "@ + op_text(op) + " "@ + expr_text(
            *right,
        ) + ")"@,
        SpecExpr::Call { func, args } => func + "("@ + args_text(args) + ")"@,
        SpecExpr::Not(inner) => "!"@ + expr_text(*inner),
    }
}

/// The arguments of a call, separated by ", ".
pub open spec fn args_text(args: Seq<SpecExpr>) -> Seq<char>
    decreases args,
{
    if args.len() == 0 {
        Seq::empty()
    } else if args.len() == 1 {
        expr_text(args[0])
    } else {
        args_text(args.drop_last()) + ", "@ + expr_text(args.last())
    }
}

/// Names separated by ", ".
pub open spec fn names_text(names: Seq<Seq<char>>) -> Seq<char>
    decreases names.len(),
{
    if names.len() == 0 {
        Seq::empty()
    } else if names.len() == 1 {
        names[0]
    } else {
        names_text(names.drop_last()) + ", "@ + names.last()
    }
}

/// How a statement prints.
pub open spec fn stmt_text(s: SpecStmt) -> Seq<char>
    decreases s,
{
    match s {
        SpecStmt::VarDecl { kind, name, value } => kind_text(kind) + " "@ + name + " = "@ + expr_text(value) + ";"@,
        SpecStmt::Assign { name, value } => name + " = "@ + expr_text(value) + ";"@,
        SpecStmt::Cond { condition, body, alternate } => "if ("@ + expr_text(condition) + ") {"@ + stmts_text(body)
            + " }"@ + match alternate {
            Some(alt) => "else {"@ + stmts_text(alt) + " }"@,
            None => Seq::empty(),
        },
        SpecStmt::WhileLoop { condition, body } => "while ("@ + expr_text(condition) + ") {"@ + stmts_text(body)
            + " }"@,
        SpecStmt::ForLoop { init, condition, body, update } => "for ("@ + stmt_text(*init) + " "@ + expr_text(
            condition,
        ) + "; "@ + stmt_text(*update) + ") {"@ + stmts_text(body) + " }"@,
        SpecStmt::FuncDecl { name, params, body } => "function "@ + name + "("@ + names_text(params) + ") {"@
            + stmts_text(body) + " }"@,
        SpecStmt::Return(e) => "return "@ + expr_text(e) + ";"@,
        SpecStmt::ExprStmt(e) => expr_text(e) + ";"@,
    }
}

/// Statements, each after a space.
pub open spec fn stmts_text(ss: Seq<SpecStmt>) -> Seq<char>
    decreases ss,
{
    if ss.len() == 0 {
        Seq::empty()
    } else {
        stmts_text(ss.drop_last()) + " "@ + stmt_text(ss.last())
    }
}

impl Op {
    /// The text this operator prints as.
    pub fn display(self) -> (r: &'static str)
        ensures
            r@ == op_text(self),
    {
        match self {
            Op::Add => "+",
            Op::Sub => "-",
            Op::Mul => "*",
            Op::Div => "/",
            Op::Lt => "<",
            Op::Gt => ">",
            Op::Equal => "==",
            Op::Lte => "<=",
            Op::Gte => ">=",
            Op::NotEqual => "!=",
            Op::And => "&&",
            Op::Or => "||",
        }
    }
}

impl Expr {
    /// This expression as it prints.
    pub fn display(&self) -> (r: String)
        ensures
            r@ == expr_text(expr_view(self)),
    {
        let mut s = String::new();
        self.write_to(&mut s);
        s
    }

    /// Appends this expression as it prints.
    pub fn write_to(&self, s: &mut String)
        ensures
            final(s)@ == old(s)@ + expr_text(expr_view(self)),
        decreases self,
    {
        proof {
            lemma_expr_view(self);
        }
        match self {
            Expr::NumberLit(n) => {
                let t = decimal_string(*n);
                push_str(s, t.as_str());
            },
            Expr::StringLit(v) => {
                push_str(s, "\"");
                push_str(s, v.as_str());
                push_str(s, "\"");
            },
            Expr::Ident(name) => {
                push_str(s, name.as_str());
            },
            Expr::Bool { op, left, right } | Expr::Binary { op, left, right } => {
                push_str(s, "(");
                left.write_to(s);
                push_str(s, " ");
                push_str(s, op.display());
                push_str(s, " ");
                right.write_to(s);
                push_str(s, ")");
            },
            Expr::Call { func, args } => {
                push_str(s, func.as_str());
                push_str(s, "(");
                let ghost full = exprs_view(args@);
                let ghost before = s@;
                let mut i: usize = 0;
                #[verifier::loop_isolation(false)]
                while i < args.len()
                    invariant
                        0 <= i <= args.len(),
                        full == exprs_view(args@),
                        s@ == before + args_text(full.take(i as int)),
                    decreases args.len() - i,
                {
                    proof {
                        assert(decreases_to!(*self => *args));
                        assert(decreases_to!(args => args[i as int]));
                        assert(full.take(i + 1).drop_last() =~= full.take(i as int));
                        assert(full.take(i + 1).last() == expr_view(&args@[i as int]));
                    }
                    if i > 0 {
                        push_str(s, ", ");
                    } else {
                        assert(full.take(1)[0] == expr_view(&args@[0]));
                    }
                    args[i].write_to(s);
                    i += 1;
                }
                assert(full.take(i as int) =~= full);
                push_str(s, ")");
            },
            Expr::Not(inner) => {
                push_str(s, "!");
                inner.write_to(s);
            },
        }
    }
}

/// Appends `names` separated by ", ".
fn write_names(names: &Vec<String>, s: &mut String)
    ensures
        final(s)@ == old(s)@ + names_text(names_view(names@)),
{
    let ghost full = names_view(names@);
    let mut i: usize = 0;
    while i < names.len()
        invariant
            0 <= i <= names.len(),
            full == names_view(names@),
            s@ == old(s)@ + names_text(full.take(i as int)),
        decreases names.len() - i,
    {
        assert(full.take(i + 1).drop_last() =~= full.take(i as int));
        if i > 0 {
            push_str(s, ", ");
        } else {
            assert(full.take(1)[0] == names@[0]@);
        }
        push_str(s, names[i].as_str());
        i += 1;
    }
    assert(full.take(i as int) =~= full);
}

impl Stmt {
    /// This statement as it prints.
    pub fn display(&self) -> (r: String)
        ensures
            r@ == stmt_text(stmt_view(self)),
    {
        let mut s = String::new();
        self.write_to(&mut s);
        s
    }

    /// Appends the statements of `body`, each after a space.
    fn write_body(body: &Vec<Stmt>, s: &mut String)
        ensures
            final(s)@ == old(s)@ + stmts_text(stmts_view(body@)),
        decreases body@, 0int,
    {
        let ghost full = stmts_view(body@);
        let mut i: usize = 0;
        while i < body.len()
            invariant
                0 <= i <= body.len(),
                full == stmts_view(body@),
                s@ == old(s)@ + stmts_text(full.take(i as int)),
            decreases body.len() - i,
        {
            proof {
                assert(decreases_to!(body@ => body@[i as int]));
                assert(full.take(i + 1).drop_last() =~= full.take(i as int));
            }
            push_str(s, " ");
            body[i].write_to(s);
            i += 1;
        }
        assert(full.take(i as int) =~= full);
    }

    /// Appends this statement as it prints.
    pub fn write_to(&self, s: &mut String)
        ensures
            final(s)@ == old(s)@ + stmt_text(stmt_view(self)),
        decreases self, 1int,
    {
        proof {
            lemma_stmt_view(self);
        }
        match self {
            Stmt::VarDecl { kind, name, value } => {
                push_str(s, kind.display());
                push_str(s, " ");
                push_str(s, name.as_str());
                push_str(s, " = ");
                value.write_to(s);
                push_str(s, ";");
            },
            Stmt::Assign { name, value } => {
                push_str(s, name.as_str());
                push_str(s, " = ");
                value.write_to(s);
                push_str(s, ";");
            },
            Stmt::Cond { condition, body, alternate } => {
                push_str(s, "if (");
                condition.write_to(s);
                push_str(s, ") {");
                Self::write_body(body, s);
                push_str(s, " }");
                match alternate {
                    Some(alt) => {
                        push_str(s, "else {");
                        Self::write_body(alt, s);
                        push_str(s, " }");
                    },
                    None => {},
                }
            },
            Stmt::WhileLoop { condition, body } => {
                push_str(s, "while (");
                condition.write_to(s);
                push_str(s, ") {");
                Self::write_body(body, s);
                push_str(s, " }");
            },
            Stmt::ForLoop { init, condition, body, update } => {
                push_str(s, "for (");
                init.write_to(s);
                push_str(s, " ");
                condition.write_to(s);
                push_str(s, "; ");
                update.write_to(s);
                push_str(s, ") {");
                Self::write_body(body, s);
                push_str(s, " }");
            },
            Stmt::FuncDecl { name, params, body } => {
                push_str(s, "function ");
                push_str(s, name.as_str());
                push_str(s, "(");
                write_names(params, s);
                push_str(s, ") {");
                Self::write_body(body, s);
                push_str(s, " }");
            },
            Stmt::Return(e) => {
                push_str(s, "return ");
                e.write_to(s);
                push_str(s, ";");
            },
            Stmt::ExprStmt(e) => {
                e.write_to(s);
                push_str(s, ";");
            },
        }
    }
}

} // verus!
