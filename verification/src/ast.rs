//! Abstract syntax of the tensor language, with every node carrying the
//! half-open byte range of the source text it was parsed from.

use vstd::prelude::*;

verus! {

/// Half-open byte-offset range `[start, end)` into the source text.
/// Attached to every AST node; used only for diagnostics, never for
/// semantics.
#[derive(Clone, Copy, Debug, PartialEq, Eq, Structural)]
pub struct Span {
    pub start: usize,
    pub end: usize,
}

/// A value paired with the span of the source text it originated from.
#[derive(Clone, Debug, PartialEq, Eq)]
pub struct Loc<T>(pub T, pub Span);

impl<T> Loc<T> {
    /// Transforms the carried value while preserving the span.
    pub fn map<U, F: FnOnce(T) -> U>(self, f: F) -> (r: Loc<U>)
        requires
            call_requires(f, (self.0,)),
        ensures
            r.1 == self.1,
            call_ensures(f, (self.0,), r.0),
    {
        Loc(f(self.0), self.1)
    }
}

/// Element data type tag of a tensor or scalar. The checker defaults an
/// unspecified tensor data type to `F32`; range tensors are always `I64`.
#[derive(Clone, Copy, Debug, PartialEq, Eq, Structural)]
pub enum DataType {
    F32,
    F64,
    I64,
    U32,
    U8,
    BF16,
    F16,
}

/// Binary operators the AST can model. The grammar currently only ever
/// constructs `Mul` nodes.
#[derive(Clone, Copy, Debug, PartialEq, Eq, Structural)]
pub enum BinaryOp {
    Add,
    Sub,
    Mul,
}

/// An expression. Identifiers are carried as their raw source bytes.
#[derive(Debug, PartialEq, Eq)]
pub enum Expr {
    /// A tensor of the given shape filled with `fill`, e.g. `[2 x 3; 0]`.
    FillTensor {
        fill: Loc<i32>,
        shape: Vec<Loc<usize>>,
        data_type: Option<Loc<DataType>>,
    },
    /// A 1-D integer tensor over `[start, stop)`, e.g. `[0..10]` or
    /// `[2..20; 2]` with an explicit step.
    RangeTensor {
        start: Loc<i32>,
        stop: Loc<i32>,
        step: Option<Loc<i32>>,
    },
    /// A reference to a previously assigned name.
    Variable(Vec<u8>),
    /// A binary combination of two expressions.
    Binary {
        lhs: Box<Loc<Expr>>,
        rhs: Box<Loc<Expr>>,
        op: Loc<BinaryOp>,
    },
}

/// A statement: a bare expression evaluated for emission, or a binding of
/// a name to an expression's result.
#[derive(Debug, PartialEq, Eq)]
pub enum Stmt {
    Expr(Loc<Expr>),
    Assign { lhs: Loc<Vec<u8>>, rhs: Loc<Expr> },
}

/// An ordered sequence of statements; insertion order is emission order.
#[derive(Debug)]
pub struct Program {
    pub stmts: Vec<Loc<Stmt>>,
}

/// Mathematical mirror of [`Expr`]: sequences in place of vectors.
pub enum ExprV {
    FillTensor {
        fill: Loc<i32>,
        shape: Seq<Loc<usize>>,
        data_type: Option<Loc<DataType>>,
    },
    RangeTensor {
        start: Loc<i32>,
        stop: Loc<i32>,
        step: Option<Loc<i32>>,
    },
    Variable(Seq<u8>),
    Binary {
        lhs: Box<Loc<ExprV>>,
        rhs: Box<Loc<ExprV>>,
        op: Loc<BinaryOp>,
    },
}

/// Mathematical mirror of [`Stmt`].
pub enum StmtV {
    Expr(Loc<ExprV>),
    Assign { lhs: Loc<Seq<u8>>, rhs: Loc<ExprV> },
}

/// Mathematical mirror of [`Program`].
pub struct ProgramV {
    pub stmts: Seq<Loc<StmtV>>,
}

/// The mathematical value of an expression.
pub open spec fn view_expr(e: Expr) -> ExprV
    decreases e,
{
    match e {
        Expr::FillTensor { fill, shape, data_type } => ExprV::FillTensor {
            fill,
            shape: shape@,
            data_type,
        },
        Expr::RangeTensor { start, stop, step } => ExprV::RangeTensor { start, stop, step },
        Expr::Variable(name) => ExprV::Variable(name@),
        Expr::Binary { lhs, rhs, op } => ExprV::Binary {
            lhs: Box::new(view_lexpr(*lhs)),
            rhs: Box::new(view_lexpr(*rhs)),
            op,
        },
    }
}

/// The mathematical value of a spanned expression.
pub open spec fn view_lexpr(l: Loc<Expr>) -> Loc<ExprV>
    decreases l,
{
    Loc(view_expr(l.0), l.1)
}

/// The mathematical value of a spanned statement.
pub open spec fn view_lstmt(l: Loc<Stmt>) -> Loc<StmtV> {
    Loc(
        match l.0 {
            Stmt::Expr(e) => StmtV::Expr(view_lexpr(e)),
            Stmt::Assign { lhs, rhs } => StmtV::Assign {
                lhs: Loc(lhs.0@, lhs.1),
                rhs: view_lexpr(rhs),
            },
        },
        l.1,
    )
}

/// The mathematical value of a statement sequence.
pub open spec fn view_stmts(v: Seq<Loc<Stmt>>) -> Seq<Loc<StmtV>> {
    v.map_values(|ls: Loc<Stmt>| view_lstmt(ls))
}

/// The mathematical value of a program.
pub open spec fn view_program(p: Program) -> ProgramV {
    ProgramV { stmts: view_stmts(p.stmts@) }
}

} // verus!
