//! Shape-and-dtype inference over a parsed program.
//!
//! Statements are processed strictly in order; assignments extend a symbol
//! table whose entries keep the span of the defining right-hand side, so
//! that later diagnostics about a variable point at its definition site.
//! Diagnostics are accumulated and never halt checking. A reference to an
//! unbound name yields no type and no diagnostic: it only stops further
//! inference for the enclosing expression.
//!
//! The spec functions in this module define the checker exactly; the
//! executable methods are proved to emit precisely the diagnostics and
//! symbol table those functions give.

use vstd::prelude::*;

use crate::ast::{DataType, Expr, ExprV, Loc, Program, Span, Stmt, StmtV, BinaryOp};
use crate::ast::{view_lexpr, view_lstmt, view_program, view_stmts};

verus! {

/// The inferred type of an expression: a tensor of known shape, or a
/// scalar. Both carry an element data type.
#[derive(Clone, Debug, PartialEq, Eq)]
pub enum Type {
    Tensor { shape: Vec<usize>, dtype: DataType },
    Scalar(DataType),
}

/// Mathematical mirror of [`Type`].
pub enum TypeV {
    Tensor { shape: Seq<usize>, dtype: DataType },
    Scalar(DataType),
}

pub open spec fn view_type(t: Type) -> TypeV {
    match t {
        Type::Tensor { shape, dtype } => TypeV::Tensor { shape: shape@, dtype },
        Type::Scalar(d) => TypeV::Scalar(d),
    }
}

/// A diagnostic. Each kind carries the data types or shapes that clashed
/// and one labeled span for each operand.
#[derive(Clone, Debug, PartialEq, Eq)]
pub enum TypeError {
    /// The operands of a multiplication carry different data types.
    IncompatibleDataTypes { lhs: DataType, rhs: DataType, lhs_span: Span, rhs_span: Span },
    /// Tensor shapes that cannot be multiplied: rank below two, unequal
    /// ranks, or mismatched contraction or batch dimensions.
    CannotMultiply { lhs_shape: Vec<usize>, rhs_shape: Vec<usize>, lhs_span: Span, rhs_span: Span },
}

/// Mathematical mirror of [`TypeError`].
pub enum TypeErrorV {
    IncompatibleDataTypes { lhs: DataType, rhs: DataType, lhs_span: Span, rhs_span: Span },
    CannotMultiply { lhs_shape: Seq<usize>, rhs_shape: Seq<usize>, lhs_span: Span, rhs_span: Span },
}

pub open spec fn view_terror(e: TypeError) -> TypeErrorV {
    match e {
        TypeError::IncompatibleDataTypes { lhs, rhs, lhs_span, rhs_span } =>
            TypeErrorV::IncompatibleDataTypes { lhs, rhs, lhs_span, rhs_span },
        TypeError::CannotMultiply { lhs_shape, rhs_shape, lhs_span, rhs_span } =>
            TypeErrorV::CannotMultiply { lhs_shape: lhs_shape@, rhs_shape: rhs_shape@, lhs_span, rhs_span },
    }
}

pub open spec fn view_terrors(v: Seq<TypeError>) -> Seq<TypeErrorV> {
    v.map_values(|e: TypeError| view_terror(e))
}

/// A symbol table entry: the inferred type of the bound name, and the span
/// of the expression that produced it.
#[derive(Clone, Debug, PartialEq, Eq)]
pub struct SymbolEntry {
    pub ty: Type,
    pub span: Span,
}

/// Mathematical mirror of [`SymbolEntry`].
pub struct EntryV {
    pub ty: TypeV,
    pub span: Span,
}

pub open spec fn view_entry(e: SymbolEntry) -> EntryV {
    EntryV { ty: view_type(e.ty), span: e.span }
}

/// The symbol table as a mapping: later bindings of a name win.
pub open spec fn sym_map(v: Seq<(Vec<u8>, SymbolEntry)>) -> Map<Seq<u8>, EntryV>
    decreases v.len(),
{
    if v.len() == 0 {
        Map::empty()
    } else {
        sym_map(v.drop_last()).insert(v.last().0@, view_entry(v.last().1))
    }
}

// ---------------------------------------------------------------------------
// The checker, as spec functions
// ---------------------------------------------------------------------------

/// An unspecified tensor data type defaults to a 32-bit float.
pub open spec fn dtype_or_default(dt: Option<Loc<DataType>>) -> DataType {
    match dt {
        Some(l) => l.0,
        None => DataType::F32,
    }
}

/// An absent range step defaults to one.
pub open spec fn step_or_1(step: Option<Loc<i32>>) -> int {
    match step {
        Some(l) => l.0 as int,
        None => 1,
    }
}

/// The quotient of `a` by `b`, rounded toward negative infinity.
pub open spec fn floor_div(a: int, b: int) -> int
    recommends
        b != 0,
{
    let am = if a < 0 { -a } else { a };
    let bm = if b < 0 { -b } else { b };
    let m = am / bm;
    if (a < 0) != (b < 0) {
        if am % bm == 0 {
            -m
        } else {
            -(m + 1)
        }
    } else {
        m
    }
}

/// The single dimension of a range tensor: the floor of the range width
/// over the step, read back as a machine word (a negative quotient wraps,
/// as a two's-complement conversion does). A zero step yields an empty
/// dimension.
pub open spec fn range_dim(start: int, stop: int, step: int) -> usize {
    if step == 0 {
        0usize
    } else {
        let q = floor_div(stop - start, step);
        if q >= 0 {
            q as usize
        } else {
            (usize::MAX + 1 + q) as usize
        }
    }
}

/// Product of a sequence of dimensions, taken left to right, saturating
/// at the machine-word bound.
pub open spec fn prod(s: Seq<usize>) -> int
    decreases s.len(),
{
    if s.len() == 0 {
        1
    } else {
        let p = prod(s.drop_last()) * s.last();
        if p > usize::MAX {
            usize::MAX as int
        } else {
            p
        }
    }
}

pub proof fn lemma_prod_bounds(s: Seq<usize>)
    ensures
        0 <= prod(s) <= usize::MAX,
    decreases s.len(),
{
    if s.len() > 0 {
        lemma_prod_bounds(s.drop_last());
        assert(prod(s.drop_last()) * s.last() >= 0) by (nonlinear_arith)
            requires prod(s.drop_last()) >= 0 && s.last() >= 0;
    }
}

/// The span a diagnostic about an expression is anchored to: the
/// definition site for a bound variable, the expression itself otherwise.
pub open spec fn spec_span_of(sym: Map<Seq<u8>, EntryV>, e: Loc<ExprV>) -> Span {
    match e.0 {
        ExprV::Variable(name) => if sym.contains_key(name) {
            sym[name].span
        } else {
            e.1
        },
        _ => e.1,
    }
}

/// Multiplication of two tensors as (batched) matrices. The checks run in
/// order: data types, rank at least two, equal ranks, then contraction
/// dimension and collapsed batch size. The result collapses the leading
/// batch dimensions into one.
pub open spec fn spec_check_matmul(
    lshape: Seq<usize>,
    ld: DataType,
    ls: Span,
    rshape: Seq<usize>,
    rd: DataType,
    rs: Span,
) -> (Option<TypeV>, Seq<TypeErrorV>) {
    if ld != rd {
        (
            None,
            seq![TypeErrorV::IncompatibleDataTypes { lhs: ld, rhs: rd, lhs_span: ls, rhs_span: rs }],
        )
    } else if lshape.len() < 2 || lshape.len() != rshape.len() {
        (
            None,
            seq![
                TypeErrorV::CannotMultiply {
                    lhs_shape: lshape,
                    rhs_shape: rshape,
                    lhs_span: ls,
                    rhs_span: rs,
                }
            ],
        )
    } else {
        let d = lshape.len() as int;
        let lk = lshape[d - 1];
        let rk = rshape[d - 2];
        let lb = prod(lshape.subrange(0, d - 2));
        let rb = prod(rshape.subrange(0, d - 2));
        if lk != rk || lb != rb {
            (
                None,
                seq![
                    TypeErrorV::CannotMultiply {
                        lhs_shape: lshape,
                        rhs_shape: rshape,
                        lhs_span: ls,
                        rhs_span: rs,
                    }
                ],
            )
        } else {
            (
                Some(
                    TypeV::Tensor {
                        shape: seq![lb as usize, lshape[d - 2], rshape[d - 1]],
                        dtype: ld,
                    },
                ),
                Seq::empty(),
            )
        }
    }
}

/// Multiplication of two inferred types.
pub open spec fn spec_check_mul(lty: TypeV, rty: TypeV, ls: Span, rs: Span) -> (
    Option<TypeV>,
    Seq<TypeErrorV>,
) {
    match (lty, rty) {
        (TypeV::Tensor { shape, dtype }, TypeV::Scalar(sd)) => if sd != dtype {
            (
                None,
                seq![
                    TypeErrorV::IncompatibleDataTypes {
                        lhs: dtype,
                        rhs: sd,
                        lhs_span: ls,
                        rhs_span: rs,
                    }
                ],
            )
        } else {
            (Some(TypeV::Tensor { shape, dtype }), Seq::empty())
        },
        (TypeV::Scalar(sd), TypeV::Tensor { shape, dtype }) => if sd != dtype {
            (
                None,
                seq![
                    TypeErrorV::IncompatibleDataTypes {
                        lhs: sd,
                        rhs: dtype,
                        lhs_span: ls,
                        rhs_span: rs,
                    }
                ],
            )
        } else {
            (Some(TypeV::Tensor { shape, dtype }), Seq::empty())
        },
        (TypeV::Scalar(a), TypeV::Scalar(b)) => if a != b {
            (
                None,
                seq![
                    TypeErrorV::IncompatibleDataTypes {
                        lhs: a,
                        rhs: b,
                        lhs_span: ls,
                        rhs_span: rs,
                    }
                ],
            )
        } else {
            (Some(TypeV::Scalar(a)), Seq::empty())
        },
        (TypeV::Tensor { shape: a, dtype: ad }, TypeV::Tensor { shape: b, dtype: bd }) =>
            spec_check_matmul(a, ad, ls, b, bd, rs),
    }
}

/// The type of an expression under a symbol table, with the diagnostics it
/// emits, in order. An operand whose type is unknown stops inference for
/// the enclosing multiplication: its sibling is not checked.
pub open spec fn spec_check_lexpr(sym: Map<Seq<u8>, EntryV>, e: Loc<ExprV>) -> (
    Option<TypeV>,
    Seq<TypeErrorV>,
)
    decreases e,
{
    match e.0 {
        ExprV::FillTensor { fill, shape, data_type } => (
            Some(
                TypeV::Tensor {
                    shape: shape.map_values(|d: Loc<usize>| d.0),
                    dtype: dtype_or_default(data_type),
                },
            ),
            Seq::empty(),
        ),
        ExprV::RangeTensor { start, stop, step } => (
            Some(
                TypeV::Tensor {
                    shape: seq![range_dim(start.0 as int, stop.0 as int, step_or_1(step))],
                    dtype: DataType::I64,
                },
            ),
            Seq::empty(),
        ),
        ExprV::Variable(name) => (
            if sym.contains_key(name) {
                Some(sym[name].ty)
            } else {
                None
            },
            Seq::empty(),
        ),
        ExprV::Binary { lhs, rhs, op } => match op.0 {
            BinaryOp::Mul => {
                let (lt, le) = spec_check_lexpr(sym, *lhs);
                match lt {
                    None => (None, le),
                    Some(lty) => {
                        let (rt, re) = spec_check_lexpr(sym, *rhs);
                        match rt {
                            None => (None, le + re),
                            Some(rty) => {
                                let (res, me) = spec_check_mul(
                                    lty,
                                    rty,
                                    spec_span_of(sym, *lhs),
                                    spec_span_of(sym, *rhs),
                                );
                                (res, le + re + me)
                            },
                        }
                    },
                }
            },
            _ => (None, Seq::empty()),
        },
    }
}

/// One statement: an assignment binds its name when the right-hand side
/// has a type, anchored at the right-hand side's span.
pub open spec fn spec_check_lstmt(sym: Map<Seq<u8>, EntryV>, st: Loc<StmtV>) -> (
    Map<Seq<u8>, EntryV>,
    Seq<TypeErrorV>,
) {
    match st.0 {
        StmtV::Expr(e) => (sym, spec_check_lexpr(sym, e).1),
        StmtV::Assign { lhs, rhs } => {
            let (t, errs) = spec_check_lexpr(sym, rhs);
            match t {
                Some(ty) => (sym.insert(lhs.0, EntryV { ty, span: rhs.1 }), errs),
                None => (sym, errs),
            }
        },
    }
}

/// A statement sequence, threaded left to right.
pub open spec fn spec_check_stmts(sym: Map<Seq<u8>, EntryV>, stmts: Seq<Loc<StmtV>>) -> (
    Map<Seq<u8>, EntryV>,
    Seq<TypeErrorV>,
)
    decreases stmts.len(),
{
    if stmts.len() == 0 {
        (sym, Seq::empty())
    } else {
        let (sym1, e1) = spec_check_lstmt(sym, stmts[0]);
        let (sym2, e2) = spec_check_stmts(sym1, stmts.drop_first());
        (sym2, e1 + e2)
    }
}

// ---------------------------------------------------------------------------
// The domain the checker is defined on
// ---------------------------------------------------------------------------

/// Only multiplication nodes: the grammar never produces `Add` or `Sub`,
/// and the checker does not support them.
pub open spec fn mul_only_lexpr(e: Loc<ExprV>) -> bool
    decreases e,
{
    match e.0 {
        ExprV::Binary { lhs, rhs, op } => op.0 == BinaryOp::Mul && mul_only_lexpr(*lhs)
            && mul_only_lexpr(*rhs),
        _ => true,
    }
}

pub open spec fn mul_only_lstmt(st: Loc<StmtV>) -> bool {
    match st.0 {
        StmtV::Expr(e) => mul_only_lexpr(e),
        StmtV::Assign { lhs, rhs } => mul_only_lexpr(rhs),
    }
}

pub open spec fn mul_only_stmts(stmts: Seq<Loc<StmtV>>) -> bool {
    forall|k: int| 0 <= k < stmts.len() ==> mul_only_lstmt(#[trigger] stmts[k])
}

// ---------------------------------------------------------------------------
// Symbol table representation
// ---------------------------------------------------------------------------

/// Index of the last binding of `n`, or a negative value when none exists.
pub open spec fn find_last(v: Seq<(Vec<u8>, SymbolEntry)>, n: Seq<u8>) -> int
    decreases v.len(),
{
    if v.len() == 0 {
        -1
    } else if v.last().0@ == n {
        v.len() - 1
    } else {
        find_last(v.drop_last(), n)
    }
}

proof fn lemma_find_last(v: Seq<(Vec<u8>, SymbolEntry)>, n: Seq<u8>)
    ensures
        find_last(v, n) >= 0 ==> {
            &&& find_last(v, n) < v.len()
            &&& v[find_last(v, n)].0@ == n
            &&& sym_map(v).contains_key(n)
            &&& sym_map(v)[n] == view_entry(v[find_last(v, n)].1)
        },
        find_last(v, n) < 0 ==> !sym_map(v).contains_key(n),
    decreases v.len(),
{
    if v.len() > 0 && v.last().0@ != n {
        lemma_find_last(v.drop_last(), n);
    }
}

proof fn lemma_find_last_at(v: Seq<(Vec<u8>, SymbolEntry)>, n: Seq<u8>, j: int)
    requires
        0 <= j < v.len(),
        v[j].0@ == n,
        forall|k: int| j < k < v.len() ==> #[trigger] v[k].0@ != n,
    ensures
        find_last(v, n) == j,
    decreases v.len(),
{
    if j < v.len() - 1 {
        lemma_find_last_at(v.drop_last(), n, j);
    }
}

proof fn lemma_find_last_none(v: Seq<(Vec<u8>, SymbolEntry)>, n: Seq<u8>)
    requires
        forall|k: int| 0 <= k < v.len() ==> #[trigger] v[k].0@ != n,
    ensures
        find_last(v, n) < 0,
    decreases v.len(),
{
    if v.len() > 0 {
        lemma_find_last_none(v.drop_last(), n);
    }
}

fn bytes_eq(a: &Vec<u8>, b: &Vec<u8>) -> (r: bool)
    ensures
        r == (a@ == b@),
{
    if a.len() != b.len() {
        return false;
    }
    let mut k: usize = 0;
    while k < a.len()
        invariant
            a@.len() == b@.len(),
            k <= a@.len(),
            forall|i: int| 0 <= i < k ==> a@[i] == b@[i],
        decreases a@.len() - k,
    {
        if a[k] != b[k] {
            return false;
        }
        k = k + 1;
    }
    proof {
        assert(a@ =~= b@);
    }
    true
}

/// The entry of the last binding of `name`, if any.
fn lookup<'a>(symbols: &'a Vec<(Vec<u8>, SymbolEntry)>, name: &Vec<u8>) -> (r: Option<
    &'a SymbolEntry,
>)
    ensures
        match r {
            Some(e) => sym_map(symbols@).contains_key(name@) && view_entry(*e) == sym_map(
                symbols@,
            )[name@],
            None => !sym_map(symbols@).contains_key(name@),
        },
{
    let mut j = symbols.len();
    while j > 0
        invariant
            j <= symbols@.len(),
            forall|k: int| j <= k < symbols@.len() ==> #[trigger] symbols@[k].0@ != name@,
        decreases j,
    {
        j = j - 1;
        if bytes_eq(&symbols[j].0, name) {
            proof {
                lemma_find_last_at(symbols@, name@, j as int);
                lemma_find_last(symbols@, name@);
            }
            return Some(&symbols[j].1);
        }
    }
    proof {
        lemma_find_last_none(symbols@, name@);
        lemma_find_last(symbols@, name@);
    }
    None
}

fn clone_type(t: &Type) -> (r: Type)
    ensures
        view_type(r) == view_type(*t),
{
    match t {
        Type::Tensor { shape, dtype } => {
            let s2 = shape.clone();
            proof {
                assert(s2@ =~= shape@);
            }
            Type::Tensor { shape: s2, dtype: *dtype }
        },
        Type::Scalar(d) => Type::Scalar(*d),
    }
}

/// Product of the first `n` dimensions, left to right, saturating at the
/// machine-word bound.
fn prod_prefix(s: &Vec<usize>, n: usize) -> (r: usize)
    requires
        n <= s@.len(),
    ensures
        r as int == prod(s@.subrange(0, n as int)),
{
    let mut acc: usize = 1;
    let mut k: usize = 0;
    proof {
        assert(s@.subrange(0, 0) =~= Seq::<usize>::empty());
    }
    while k < n
        invariant
            k <= n <= s@.len(),
            acc as int == prod(s@.subrange(0, k as int)),
        decreases n - k,
    {
        let d = s[k];
        proof {
            assert(s@.subrange(0, k as int + 1).drop_last() =~= s@.subrange(0, k as int));
            assert(s@.subrange(0, k as int + 1).last() == s@[k as int]);
            if d >= 1 {
                lemma_mul_within(acc as int, d as int, usize::MAX as int);
            }
        }
        if d != 0 && acc > usize::MAX / d {
            acc = usize::MAX;
        } else {
            acc = acc * d;
        }
        k = k + 1;
    }
    acc
}

/// `a <= m / d` decides whether `a * d` stays within `m`.
proof fn lemma_mul_within(a: int, d: int, m: int)
    requires
        a >= 0,
        d >= 1,
        m >= 0,
    ensures
        a <= m / d ==> a * d <= m,
        a > m / d ==> a * d > m,
{
    let q = m / d;
    assert(m == d * q + m % d && 0 <= m % d < d) by {
        vstd::arithmetic::div_mod::lemma_fundamental_div_mod(m, d);
    }
    if a <= q {
        assert(a * d <= m) by (nonlinear_arith)
            requires a <= q && d >= 1 && m == d * q + m % d && m % d >= 0;
    } else {
        assert(a * d > m) by (nonlinear_arith)
            requires a >= q + 1 && d >= 1 && m == d * q + m % d && m % d < d;
    }
}

// ---------------------------------------------------------------------------
// The checker
// ---------------------------------------------------------------------------

/// The single-pass checker: a symbol table built by assignments and the
/// diagnostics accumulated so far.
pub struct TypeChecker {
    symbols: Vec<(Vec<u8>, SymbolEntry)>,
    errors: Vec<TypeError>,
}

impl TypeChecker {
    /// The symbol table as a mapping from names to entries.
    pub closed spec fn symbols_view(self) -> Map<Seq<u8>, EntryV> {
        sym_map(self.symbols@)
    }

    /// The diagnostics accumulated so far, in emission order.
    pub closed spec fn errors_seq(self) -> Seq<TypeError> {
        self.errors@
    }

    /// The diagnostics' mathematical values, in emission order.
    pub open spec fn errors_view(self) -> Seq<TypeErrorV> {
        view_terrors(self.errors_seq())
    }

    /// Surrenders the accumulated diagnostics.
    pub fn into_errors(self) -> (r: Vec<TypeError>)
        ensures
            r@ == self.errors_seq(),
    {
        self.errors
    }

    /// The entry bound to `name`, if any.
    pub fn symbol(&self, name: &Vec<u8>) -> (r: Option<&SymbolEntry>)
        ensures
            match r {
                Some(e) => self.symbols_view().contains_key(name@) && view_entry(*e)
                    == self.symbols_view()[name@],
                None => !self.symbols_view().contains_key(name@),
            },
    {
        lookup(&self.symbols, name)
    }

    /// The span diagnostics about `expr` are anchored to.
    fn span_for(&self, expr: &Loc<Expr>) -> (r: Span)
        ensures
            r == spec_span_of(sym_map(self.symbols@), view_lexpr(*expr)),
    {
        match &expr.0 {
            Expr::Variable(name) => match lookup(&self.symbols, name) {
                Some(e) => e.span,
                None => expr.1,
            },
            _ => expr.1,
        }
    }

    fn push_error(&mut self, e: TypeError)
        ensures
            final(self).symbols == old(self).symbols,
            final(self).errors@ == old(self).errors@.push(e),
            view_terrors(final(self).errors@) == view_terrors(old(self).errors@) + seq![
                view_terror(e),
            ],
    {
        let ghost ev = view_terror(e);
        self.errors.push(e);
        proof {
            assert(view_terrors(self.errors@) =~= view_terrors(old(self).errors@) + seq![ev]);
        }
    }

    fn check_mul(&mut self, lty: Type, rty: Type, ls: Span, rs: Span) -> (r: Option<Type>)
        ensures
            final(self).symbols == old(self).symbols,
            ({
                let (t, errs) = spec_check_mul(view_type(lty), view_type(rty), ls, rs);
                &&& (match (r, t) {
                    (Some(a), Some(b)) => view_type(a) == b,
                    (None, None) => true,
                    _ => false,
                })
                &&& view_terrors(final(self).errors@) == view_terrors(old(self).errors@) + errs
            }),
    {
        match (lty, rty) {
            (Type::Tensor { shape, dtype }, Type::Scalar(sd)) => {
                if sd != dtype {
                    self.push_error(
                        TypeError::IncompatibleDataTypes {
                            lhs: dtype,
                            rhs: sd,
                            lhs_span: ls,
                            rhs_span: rs,
                        },
                    );
                    None
                } else {
                    proof {
                        lemma_add_empty(view_terrors(self.errors@));
                    }
                    Some(Type::Tensor { shape, dtype })
                }
            },
            (Type::Scalar(sd), Type::Tensor { shape, dtype }) => {
                if sd != dtype {
                    self.push_error(
                        TypeError::IncompatibleDataTypes {
                            lhs: sd,
                            rhs: dtype,
                            lhs_span: ls,
                            rhs_span: rs,
                        },
                    );
                    None
                } else {
                    proof {
                        lemma_add_empty(view_terrors(self.errors@));
                    }
                    Some(Type::Tensor { shape, dtype })
                }
            },
            (Type::Scalar(a), Type::Scalar(b)) => {
                if a != b {
                    self.push_error(
                        TypeError::IncompatibleDataTypes {
                            lhs: a,
                            rhs: b,
                            lhs_span: ls,
                            rhs_span: rs,
                        },
                    );
                    None
                } else {
                    proof {
                        lemma_add_empty(view_terrors(self.errors@));
                    }
                    Some(Type::Scalar(a))
                }
            },
            (
                Type::Tensor { shape: a, dtype: ad },
                Type::Tensor { shape: b, dtype: bd },
            ) => self.check_matrix_multiply(a, ad, ls, b, bd, rs),
        }
    }

    /// Batched matrix multiplication of two tensor shapes. Leading batch
    /// dimensions are collapsed into one aggregate dimension in the result.
    fn check_matrix_multiply(
        &mut self,
        lshape: Vec<usize>,
        ld: DataType,
        ls: Span,
        rshape: Vec<usize>,
        rd: DataType,
        rs: Span,
    ) -> (r: Option<Type>)
        ensures
            final(self).symbols == old(self).symbols,
            ({
                let (t, errs) = spec_check_matmul(lshape@, ld, ls, rshape@, rd, rs);
                &&& (match (r, t) {
                    (Some(a), Some(b)) => view_type(a) == b,
                    (None, None) => true,
                    _ => false,
                })
                &&& view_terrors(final(self).errors@) == view_terrors(old(self).errors@) + errs
            }),
    {
        if ld != rd {
            self.push_error(
                TypeError::IncompatibleDataTypes { lhs: ld, rhs: rd, lhs_span: ls, rhs_span: rs },
            );
            return None;
        }
        if lshape.len() < 2 || lshape.len() != rshape.len() {
            self.push_error(
                TypeError::CannotMultiply {
                    lhs_shape: lshape,
                    rhs_shape: rshape,
                    lhs_span: ls,
                    rhs_span: rs,
                },
            );
            return None;
        }
        let d = lshape.len();
        let lk = lshape[d - 1];
        let rk = rshape[d - 2];
        let lb = prod_prefix(&lshape, d - 2);
        let rb = prod_prefix(&rshape, d - 2);
        if lk != rk || lb != rb {
            let ls2 = lshape.clone();
            let rs2 = rshape.clone();
            proof {
                assert(ls2@ =~= lshape@);
                assert(rs2@ =~= rshape@);
            }
            self.push_error(
                TypeError::CannotMultiply {
                    lhs_shape: ls2,
                    rhs_shape: rs2,
                    lhs_span: ls,
                    rhs_span: rs,
                },
            );
            None
        } else {
            let mut sh: Vec<usize> = Vec::new();
            sh.push(lb);
            sh.push(lshape[d - 2]);
            sh.push(rshape[d - 1]);
            proof {
                lemma_prod_bounds(lshape@.subrange(0, lshape@.len() - 2));
                let dd = lshape@.len() as int;
                assert(sh@ =~= seq![
                    prod(lshape@.subrange(0, dd - 2)) as usize,
                    lshape@[dd - 2],
                    rshape@[dd - 1],
                ]);
                lemma_add_empty(view_terrors(self.errors@));
            }
            Some(Type::Tensor { shape: sh, dtype: ld })
        }
    }

    fn check_expr(&mut self, expr: &Loc<Expr>) -> (r: Option<Type>)
        requires
            mul_only_lexpr(view_lexpr(*expr)),
        ensures
            final(self).symbols == old(self).symbols,
            ({
                let (t, errs) = spec_check_lexpr(sym_map(old(self).symbols@), view_lexpr(*expr));
                &&& (match (r, t) {
                    (Some(a), Some(b)) => view_type(a) == b,
                    (None, None) => true,
                    _ => false,
                })
                &&& view_terrors(final(self).errors@) == view_terrors(old(self).errors@) + errs
            }),
        decreases *expr,
    {
        match &expr.0 {
            Expr::FillTensor { fill, shape, data_type } => {
                let dtype = match data_type {
                    Some(l) => l.0,
                    None => DataType::F32,
                };
                let mut dims: Vec<usize> = Vec::new();
                let mut k: usize = 0;
                while k < shape.len()
                    invariant
                        k <= shape@.len(),
                        dims@.len() == k,
                        forall|i: int| 0 <= i < k ==> dims@[i] == shape@[i].0,
                    decreases shape@.len() - k,
                {
                    let dim = &shape[k];
                    dims.push(dim.0);
                    k = k + 1;
                }
                proof {
                    let sv = match view_lexpr(*expr).0 {
                        ExprV::FillTensor { shape: sv, .. } => sv,
                        _ => arbitrary(),
                    };
                    assert(dims@ =~= sv.map_values(|d: Loc<usize>| d.0));
                    lemma_add_empty(view_terrors(self.errors@));
                }
                Some(Type::Tensor { shape: dims, dtype })
            },
            Expr::RangeTensor { start, stop, step } => {
                let stepv: i32 = match step {
                    Some(l) => l.0,
                    None => 1,
                };
                let diff: i64 = (stop.0 as i64) - (start.0 as i64);
                let sv: i64 = stepv as i64;
                let dim: usize = if sv == 0 {
                    0
                } else {
                    let ad: u64 = if diff < 0 {
                        (-diff) as u64
                    } else {
                        diff as u64
                    };
                    let astep: u64 = if sv < 0 {
                        (-sv) as u64
                    } else {
                        sv as u64
                    };
                    let m: u64 = ad / astep;
                    let rem: u64 = ad % astep;
                    proof {
                        vstd::arithmetic::div_mod::lemma_div_nonincreasing(ad as int, astep as int);
                    }
                    let neg = (diff < 0) != (sv < 0);
                    if !neg {
                        m as usize
                    } else if rem == 0 {
                        if m == 0 {
                            0
                        } else {
                            usize::MAX - (m as usize) + 1
                        }
                    } else {
                        proof {
                            assert(m <= m * astep) by (nonlinear_arith)
                                requires m >= 0 && astep >= 1;
                            assert(m * astep + rem == ad) by {
                                vstd::arithmetic::div_mod::lemma_fundamental_div_mod(
                                    ad as int,
                                    astep as int,
                                );
                            }
                        }
                        usize::MAX - (m as usize)
                    }
                };
                let mut sh: Vec<usize> = Vec::new();
                sh.push(dim);
                proof {
                    assert(sh@ =~= seq![
                        range_dim(start.0 as int, stop.0 as int, step_or_1(match view_lexpr(
                            *expr,
                        ).0 {
                            ExprV::RangeTensor { step: stv, .. } => stv,
                            _ => arbitrary(),
                        })),
                    ]);
                    lemma_add_empty(view_terrors(self.errors@));
                }
                Some(Type::Tensor { shape: sh, dtype: DataType::I64 })
            },
            Expr::Variable(name) => {
                let r = match lookup(&self.symbols, name) {
                    Some(e) => Some(clone_type(&e.ty)),
                    None => None,
                };
                proof {
                    lemma_add_empty(view_terrors(self.errors@));
                }
                r
            },
            Expr::Binary { lhs, rhs, op } => match op.0 {
                BinaryOp::Mul => {
                    let ghost sym = sym_map(self.symbols@);
                    let ghost e0 = view_terrors(self.errors@);
                    let ghost lres = spec_check_lexpr(sym, view_lexpr(**lhs));
                    let ghost rres = spec_check_lexpr(sym, view_lexpr(**rhs));
                    let lt = match self.check_expr(lhs) {
                        Some(t) => t,
                        None => {
                            return None;
                        },
                    };
                    let rt = match self.check_expr(rhs) {
                        Some(t) => t,
                        None => {
                            proof {
                                assert(view_terrors(self.errors@) =~= e0 + (lres.1 + rres.1));
                            }
                            return None;
                        },
                    };
                    let ls = self.span_for(lhs);
                    let rs = self.span_for(rhs);
                    let r = self.check_mul(lt, rt, ls, rs);
                    proof {
                        let mres = spec_check_mul(
                            view_type(lt),
                            view_type(rt),
                            spec_span_of(sym, view_lexpr(**lhs)),
                            spec_span_of(sym, view_lexpr(**rhs)),
                        );
                        assert(view_terrors(self.errors@) =~= e0 + (lres.1 + rres.1 + mres.1));
                    }
                    r
                },
                _ => {
                    proof {
                        assert(false);
                    }
                    None
                },
            },
        }
    }

    fn check_stmt(&mut self, stmt: &Loc<Stmt>)
        requires
            mul_only_lstmt(view_lstmt(*stmt)),
        ensures
            ({
                let (m2, errs) = spec_check_lstmt(sym_map(old(self).symbols@), view_lstmt(*stmt));
                &&& sym_map(final(self).symbols@) == m2
                &&& view_terrors(final(self).errors@) == view_terrors(old(self).errors@) + errs
            }),
    {
        match &stmt.0 {
            Stmt::Expr(e) => {
                self.check_expr(e);
            },
            Stmt::Assign { lhs, rhs } => {
                match self.check_expr(rhs) {
                    Some(t) => {
                        let nm = lhs.0.clone();
                        proof {
                            assert(nm@ =~= lhs.0@);
                        }
                        self.symbols.push((nm, SymbolEntry { ty: t, span: rhs.1 }));
                        proof {
                            assert(self.symbols@.drop_last() =~= old(self).symbols@);
                        }
                    },
                    None => {},
                }
            },
        }
    }

    /// Checks every statement of the program, in order, extending the
    /// symbol table and accumulating diagnostics. Checking never stops at
    /// an error.
    pub fn check_program(&mut self, program: &Loc<Program>)
        requires
            mul_only_stmts(view_program(program.0).stmts),
        ensures
            ({
                let (m2, errs) = spec_check_stmts(
                    old(self).symbols_view(),
                    view_program(program.0).stmts,
                );
                &&& final(self).symbols_view() == m2
                &&& final(self).errors_view() == old(self).errors_view() + errs
            }),
    {
        let stmts = &program.0.stmts;
        let ghost sv = view_program(program.0).stmts;
        let ghost sym0 = sym_map(old(self).symbols@);
        let mut k: usize = 0;
        proof {
            assert(sv.skip(0) =~= sv);
        }
        while k < stmts.len()
            invariant
                k <= stmts@.len(),
                sv == view_stmts(program.0.stmts@),
                stmts@ == program.0.stmts@,
                sv.len() == stmts@.len(),
                mul_only_stmts(sv),
                spec_check_stmts(sym0, sv).0 == spec_check_stmts(
                    sym_map(self.symbols@),
                    sv.skip(k as int),
                ).0,
                view_terrors(old(self).errors@) + spec_check_stmts(sym0, sv).1 == view_terrors(
                    self.errors@,
                ) + spec_check_stmts(sym_map(self.symbols@), sv.skip(k as int)).1,
            decreases stmts@.len() - k,
        {
            let ghost symc = sym_map(self.symbols@);
            let ghost rest = sv.skip(k as int);
            proof {
                assert(rest[0] == sv[k as int]);
                assert(sv[k as int] == view_lstmt(stmts@[k as int]));
                assert(rest.drop_first() =~= sv.skip(k as int + 1));
            }
            let st = &stmts[k];
            self.check_stmt(st);
            proof {
                let (m1, e1) = spec_check_lstmt(symc, rest[0]);
                let (m2, e2) = spec_check_stmts(m1, rest.drop_first());
                assert(spec_check_stmts(symc, rest).0 == m2);
                assert(spec_check_stmts(symc, rest).1 == e1 + e2);
                assert(view_terrors(old(self).errors@) + spec_check_stmts(sym0, sv).1
                    =~= view_terrors(self.errors@) + spec_check_stmts(
                    sym_map(self.symbols@),
                    sv.skip(k as int + 1),
                ).1);
            }
            k = k + 1;
        }
        proof {
            assert(sv.skip(sv.len() as int) =~= Seq::<Loc<StmtV>>::empty());
            assert(view_terrors(old(self).errors@) + spec_check_stmts(sym0, sv).1 =~= view_terrors(
                self.errors@,
            ));
        }
    }
}

impl Default for TypeChecker {
    /// A checker with an empty symbol table and no diagnostics.
    fn default() -> (r: Self)
        ensures
            r.symbols_view() == Map::<Seq<u8>, EntryV>::empty(),
            r.errors_seq() == Seq::<TypeError>::empty(),
    {
        TypeChecker { symbols: Vec::new(), errors: Vec::new() }
    }
}

proof fn lemma_add_empty(s: Seq<TypeErrorV>)
    ensures
        s == s + Seq::<TypeErrorV>::empty(),
{
    assert(s =~= s + Seq::<TypeErrorV>::empty());
}


/// Whether every binary node of the expression is a multiplication.
fn mul_only_expr_exec(e: &Loc<Expr>) -> (r: bool)
    ensures
        r == mul_only_lexpr(view_lexpr(*e)),
    decreases *e,
{
    match &e.0 {
        Expr::Binary { lhs, rhs, op } => op.0 == BinaryOp::Mul && mul_only_expr_exec(lhs)
            && mul_only_expr_exec(rhs),
        _ => true,
    }
}

/// Whether the program multiplies and does nothing else: the domain the
/// checker is defined on. The grammar only produces such programs; a
/// program assembled by hand can be tested here first.
pub fn multiplies_only(program: &Loc<Program>) -> (r: bool)
    ensures
        r == mul_only_stmts(view_program(program.0).stmts),
{
    let ghost sv = view_program(program.0).stmts;
    let stmts = &program.0.stmts;
    let mut k: usize = 0;
    while k < stmts.len()
        invariant
            k <= stmts@.len(),
            sv == view_stmts(program.0.stmts@),
            stmts@ == program.0.stmts@,
            sv.len() == stmts@.len(),
            forall|i: int| 0 <= i < k ==> mul_only_lstmt(#[trigger] sv[i]),
        decreases stmts@.len() - k,
    {
        proof {
            assert(sv[k as int] == view_lstmt(stmts@[k as int]));
        }
        let ok = match &stmts[k].0 {
            Stmt::Expr(e) => mul_only_expr_exec(e),
            Stmt::Assign { lhs, rhs } => mul_only_expr_exec(rhs),
        };
        if !ok {
            proof {
                assert(!mul_only_lstmt(sv[k as int]));
            }
            return false;
        }
        k = k + 1;
    }
    true
}


/// Multiplying tensors whose declared data types differ yields exactly
/// one diagnostic: an incompatible-data-types report naming the left
/// operand's data type and then the right one's, at the given spans, and
/// no result type.
pub proof fn lemma_mismatched_dtypes_one_diagnostic(
    lshape: Seq<usize>,
    ld: DataType,
    ls: Span,
    rshape: Seq<usize>,
    rd: DataType,
    rs: Span,
)
    requires
        ld != rd,
    ensures
        spec_check_matmul(lshape, ld, ls, rshape, rd, rs).0 is None,
        spec_check_matmul(lshape, ld, ls, rshape, rd, rs).1 == seq![
            TypeErrorV::IncompatibleDataTypes { lhs: ld, rhs: rd, lhs_span: ls, rhs_span: rs },
        ],
{
}

/// Multiplying tensors of equal data types when the left operand's rank
/// is below two, or the ranks differ — as when a one-dimensional tensor
/// stands on either side — yields exactly one cannot-multiply diagnostic
/// carrying both shapes, and no result type.
pub proof fn lemma_low_rank_one_diagnostic(
    lshape: Seq<usize>,
    ld: DataType,
    ls: Span,
    rshape: Seq<usize>,
    rd: DataType,
    rs: Span,
)
    requires
        ld == rd,
        lshape.len() < 2 || lshape.len() != rshape.len(),
    ensures
        spec_check_matmul(lshape, ld, ls, rshape, rd, rs).0 is None,
        spec_check_matmul(lshape, ld, ls, rshape, rd, rs).1 == seq![
            TypeErrorV::CannotMultiply {
                lhs_shape: lshape,
                rhs_shape: rshape,
                lhs_span: ls,
                rhs_span: rs,
            },
        ],
{
}

// ---------------------------------------------------------------------------
// Clean programs are diagnosed clean
// ---------------------------------------------------------------------------

/// Two inferred types a multiplication accepts without complaint.
pub open spec fn mul_ok(lt: TypeV, rt: TypeV) -> bool {
    match (lt, rt) {
        (TypeV::Tensor { shape, dtype }, TypeV::Scalar(sd)) => sd == dtype,
        (TypeV::Scalar(sd), TypeV::Tensor { shape, dtype }) => sd == dtype,
        (TypeV::Scalar(a), TypeV::Scalar(b)) => a == b,
        (TypeV::Tensor { shape: a, dtype: ad }, TypeV::Tensor { shape: b, dtype: bd }) => {
            &&& ad == bd
            &&& a.len() >= 2
            &&& a.len() == b.len()
            &&& a[a.len() - 1] == b[b.len() - 2]
            &&& prod(a.subrange(0, a.len() - 2)) == prod(b.subrange(0, b.len() - 2))
        },
    }
}

/// No multiplication the checker reaches in this expression has
/// mismatched data types or shapes. An operand the checker never reaches
/// is not constrained, mirroring the short-circuit on unknown types.
pub open spec fn clean_lexpr(sym: Map<Seq<u8>, EntryV>, e: Loc<ExprV>) -> bool
    decreases e,
{
    match e.0 {
        ExprV::Binary { lhs, rhs, op } => clean_lexpr(sym, *lhs) && match spec_check_lexpr(
            sym,
            *lhs,
        ).0 {
            None => true,
            Some(lt) => clean_lexpr(sym, *rhs) && match spec_check_lexpr(sym, *rhs).0 {
                None => true,
                Some(rt) => op.0 == BinaryOp::Mul ==> mul_ok(lt, rt),
            },
        },
        _ => true,
    }
}

pub open spec fn clean_lstmt(sym: Map<Seq<u8>, EntryV>, st: Loc<StmtV>) -> bool {
    match st.0 {
        StmtV::Expr(e) => clean_lexpr(sym, e),
        StmtV::Assign { lhs, rhs } => clean_lexpr(sym, rhs),
    }
}

pub open spec fn clean_stmts(sym: Map<Seq<u8>, EntryV>, stmts: Seq<Loc<StmtV>>) -> bool
    decreases stmts.len(),
{
    stmts.len() == 0 || (clean_lstmt(sym, stmts[0]) && clean_stmts(
        spec_check_lstmt(sym, stmts[0]).0,
        stmts.drop_first(),
    ))
}

proof fn lemma_clean_lexpr(sym: Map<Seq<u8>, EntryV>, e: Loc<ExprV>)
    requires
        clean_lexpr(sym, e),
    ensures
        spec_check_lexpr(sym, e).1 == Seq::<TypeErrorV>::empty(),
    decreases e,
{
    match e.0 {
        ExprV::Binary { lhs, rhs, op } => {
            lemma_clean_lexpr(sym, *lhs);
            match spec_check_lexpr(sym, *lhs).0 {
                None => {
                    assert(spec_check_lexpr(sym, e).1 =~= Seq::<TypeErrorV>::empty());
                },
                Some(lt) => {
                    lemma_clean_lexpr(sym, *rhs);
                    match spec_check_lexpr(sym, *rhs).0 {
                        None => {
                            assert(spec_check_lexpr(sym, e).1 =~= Seq::<TypeErrorV>::empty());
                        },
                        Some(rt) => {
                            match op.0 {
                                BinaryOp::Mul => {
                                    assert(spec_check_mul(
                                        lt,
                                        rt,
                                        spec_span_of(sym, *lhs),
                                        spec_span_of(sym, *rhs),
                                    ).1 =~= Seq::<TypeErrorV>::empty());
                                    assert(spec_check_lexpr(sym, e).1
                                        =~= Seq::<TypeErrorV>::empty());
                                },
                                _ => {},
                            }
                        },
                    }
                },
            }
        },
        _ => {},
    }
}

/// A program in which every multiplication the checker reaches combines
/// matching data types and multiplicable shapes is diagnosed clean: the
/// checker emits no diagnostics for it, whether or not it would be
/// well-typed under any stricter notion of correctness.
pub proof fn lemma_clean_program_no_diagnostics(sym: Map<Seq<u8>, EntryV>, stmts: Seq<Loc<StmtV>>)
    requires
        clean_stmts(sym, stmts),
    ensures
        spec_check_stmts(sym, stmts).1 == Seq::<TypeErrorV>::empty(),
    decreases stmts.len(),
{
    if stmts.len() > 0 {
        match stmts[0].0 {
            StmtV::Expr(e) => {
                lemma_clean_lexpr(sym, e);
            },
            StmtV::Assign { lhs, rhs } => {
                lemma_clean_lexpr(sym, rhs);
            },
        }
        lemma_clean_program_no_diagnostics(spec_check_lstmt(sym, stmts[0]).0, stmts.drop_first());
        assert(spec_check_stmts(sym, stmts).1 =~= Seq::<TypeErrorV>::empty());
    }
}

} // verus!

