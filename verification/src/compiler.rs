//! Code generator: depth-first lowering of a (possibly ill-typed) program
//! into a sequence of construction-call token fragments against the target
//! numeric tensor runtime, followed by a syntactic well-formedness pass
//! over the rendered text.
//!
//! Lowering is independent of type checking and never blocked by
//! diagnostics. The token sequence is specified exactly; so are the bytes
//! of its rendered form, which is wrapped in a synthetic enclosing
//! function and handed to the external formatter.

use vstd::prelude::*;
use vstd::string::StringSliceAdditionalSpecFns;

use crate::ast::{BinaryOp, DataType, Expr, ExprV, Loc, Program, Stmt, StmtV};
use crate::ast::{view_lexpr, view_lstmt, view_program};
use crate::parser::{is_ident_cont, is_ident_start};
use crate::type_checker::dtype_or_default;

verus! {

/// One emitted fragment: a whole construction call, an identifier, an
/// operator, the head of a binding, or a statement terminator.
#[derive(Clone, Debug, PartialEq, Eq)]
pub enum Token {
    Zeros { shape: Vec<usize>, dtype: DataType },
    Ones { shape: Vec<usize>, dtype: DataType },
    Full { shape: Vec<usize>, fill: i32, dtype: DataType },
    Arange { start: i32, stop: i32 },
    ArangeStep { start: i32, stop: i32, step: i32 },
    Ident(Vec<u8>),
    Op(BinaryOp),
    Let(Vec<u8>),
    Semi,
}

/// Mathematical mirror of [`Token`].
pub enum TokenV {
    Zeros { shape: Seq<usize>, dtype: DataType },
    Ones { shape: Seq<usize>, dtype: DataType },
    Full { shape: Seq<usize>, fill: i32, dtype: DataType },
    Arange { start: i32, stop: i32 },
    ArangeStep { start: i32, stop: i32, step: i32 },
    Ident(Seq<u8>),
    Op(BinaryOp),
    Let(Seq<u8>),
    Semi,
}

pub open spec fn view_token(t: Token) -> TokenV {
    match t {
        Token::Zeros { shape, dtype } => TokenV::Zeros { shape: shape@, dtype },
        Token::Ones { shape, dtype } => TokenV::Ones { shape: shape@, dtype },
        Token::Full { shape, fill, dtype } => TokenV::Full { shape: shape@, fill, dtype },
        Token::Arange { start, stop } => TokenV::Arange { start, stop },
        Token::ArangeStep { start, stop, step } => TokenV::ArangeStep { start, stop, step },
        Token::Ident(n) => TokenV::Ident(n@),
        Token::Op(op) => TokenV::Op(op),
        Token::Let(n) => TokenV::Let(n@),
        Token::Semi => TokenV::Semi,
    }
}

pub open spec fn view_tokens(v: Seq<Token>) -> Seq<TokenV> {
    v.map_values(|t: Token| view_token(t))
}

// ---------------------------------------------------------------------------
// Lowering, as spec functions
// ---------------------------------------------------------------------------

/// The fragments of one expression, left to right. A fill value of zero or
/// one selects the dedicated construction call.
pub open spec fn spec_compile_lexpr(e: Loc<ExprV>) -> Seq<TokenV>
    decreases e,
{
    match e.0 {
        ExprV::FillTensor { fill, shape, data_type } => {
            let dims = shape.map_values(|d: Loc<usize>| d.0);
            let dt = dtype_or_default(data_type);
            if fill.0 == 0 {
                seq![TokenV::Zeros { shape: dims, dtype: dt }]
            } else if fill.0 == 1 {
                seq![TokenV::Ones { shape: dims, dtype: dt }]
            } else {
                seq![TokenV::Full { shape: dims, fill: fill.0, dtype: dt }]
            }
        },
        ExprV::RangeTensor { start, stop, step } => match step {
            Some(st) => seq![TokenV::ArangeStep { start: start.0, stop: stop.0, step: st.0 }],
            None => seq![TokenV::Arange { start: start.0, stop: stop.0 }],
        },
        ExprV::Variable(n) => seq![TokenV::Ident(n)],
        ExprV::Binary { lhs, rhs, op } => spec_compile_lexpr(*lhs) + seq![TokenV::Op(op.0)]
            + spec_compile_lexpr(*rhs),
    }
}

/// The fragments of one statement.
pub open spec fn spec_compile_lstmt(st: Loc<StmtV>) -> Seq<TokenV> {
    match st.0 {
        StmtV::Expr(e) => spec_compile_lexpr(e) + seq![TokenV::Semi],
        StmtV::Assign { lhs, rhs } => seq![TokenV::Let(lhs.0)] + spec_compile_lexpr(rhs) + seq![
            TokenV::Semi,
        ],
    }
}

/// The fragments of a statement sequence, in order.
pub open spec fn spec_compile_stmts(stmts: Seq<Loc<StmtV>>) -> Seq<TokenV>
    decreases stmts.len(),
{
    if stmts.len() == 0 {
        Seq::empty()
    } else {
        spec_compile_stmts(stmts.drop_last()) + spec_compile_lstmt(stmts.last())
    }
}

// ---------------------------------------------------------------------------
// Identifier well-formedness
// ---------------------------------------------------------------------------

/// A name the renderer can emit as an identifier token.
pub open spec fn name_ok(n: Seq<u8>) -> bool {
    n.len() > 0 && is_ident_start(n[0]) && forall|k: int|
        1 <= k < n.len() ==> is_ident_cont(#[trigger] n[k])
}

pub open spec fn names_ok_lexpr(e: Loc<ExprV>) -> bool
    decreases e,
{
    match e.0 {
        ExprV::Variable(n) => name_ok(n),
        ExprV::Binary { lhs, rhs, op } => names_ok_lexpr(*lhs) && names_ok_lexpr(*rhs),
        _ => true,
    }
}

pub open spec fn names_ok_lstmt(st: Loc<StmtV>) -> bool {
    match st.0 {
        StmtV::Expr(e) => names_ok_lexpr(e),
        StmtV::Assign { lhs, rhs } => name_ok(lhs.0) && names_ok_lexpr(rhs),
    }
}

pub open spec fn names_ok_stmts(stmts: Seq<Loc<StmtV>>) -> bool {
    forall|k: int| 0 <= k < stmts.len() ==> names_ok_lstmt(#[trigger] stmts[k])
}

/// Every identifier carried by a fragment is a well-formed name.
pub open spec fn tokens_named_ok(toks: Seq<TokenV>) -> bool {
    forall|k: int| 0 <= k < toks.len() ==> match #[trigger] toks[k] {
        TokenV::Ident(n) => name_ok(n),
        TokenV::Let(n) => name_ok(n),
        _ => true,
    }
}

// ---------------------------------------------------------------------------
// Rendered bytes
// ---------------------------------------------------------------------------

/// The bytes of `fn main() { `.
pub open spec fn lit_fn_open() -> Seq<u8> {
    Seq::new(12, |i: int| if i == 0 { 102u8 } else if i == 1 { 110u8 } else if i == 2 { 32u8 } else if i == 3 { 109u8 } else if i == 4 { 97u8 } else if i == 5 { 105u8 } else if i == 6 { 110u8 } else if i == 7 { 40u8 } else if i == 8 { 41u8 } else if i == 9 { 32u8 } else if i == 10 { 123u8 } else { 32u8 })
}

/// The bytes of ` }`.
pub open spec fn lit_fn_close() -> Seq<u8> {
    Seq::new(2, |i: int| if i == 0 { 32u8 } else { 125u8 })
}

/// The bytes of ` `.
pub open spec fn lit_sp() -> Seq<u8> {
    Seq::new(1, |i: int| 32u8)
}

/// The bytes of `Tensor::zeros((`.
pub open spec fn lit_zeros() -> Seq<u8> {
    Seq::new(15, |i: int| if i == 0 { 84u8 } else if i == 1 { 101u8 } else if i == 2 { 110u8 } else if i == 3 { 115u8 } else if i == 4 { 111u8 } else if i == 5 { 114u8 } else if i == 6 { 58u8 } else if i == 7 { 58u8 } else if i == 8 { 122u8 } else if i == 9 { 101u8 } else if i == 10 { 114u8 } else if i == 11 { 111u8 } else if i == 12 { 115u8 } else if i == 13 { 40u8 } else { 40u8 })
}

/// The bytes of `Tensor::ones((`.
pub open spec fn lit_ones() -> Seq<u8> {
    Seq::new(14, |i: int| if i == 0 { 84u8 } else if i == 1 { 101u8 } else if i == 2 { 110u8 } else if i == 3 { 115u8 } else if i == 4 { 111u8 } else if i == 5 { 114u8 } else if i == 6 { 58u8 } else if i == 7 { 58u8 } else if i == 8 { 111u8 } else if i == 9 { 110u8 } else if i == 10 { 101u8 } else if i == 11 { 115u8 } else if i == 12 { 40u8 } else { 40u8 })
}

/// The bytes of `Tensor::full((`.
pub open spec fn lit_full() -> Seq<u8> {
    Seq::new(14, |i: int| if i == 0 { 84u8 } else if i == 1 { 101u8 } else if i == 2 { 110u8 } else if i == 3 { 115u8 } else if i == 4 { 111u8 } else if i == 5 { 114u8 } else if i == 6 { 58u8 } else if i == 7 { 58u8 } else if i == 8 { 102u8 } else if i == 9 { 117u8 } else if i == 10 { 108u8 } else if i == 11 { 108u8 } else if i == 12 { 40u8 } else { 40u8 })
}

/// The bytes of `), `.
pub open spec fn lit_close_shape() -> Seq<u8> {
    Seq::new(3, |i: int| if i == 0 { 41u8 } else if i == 1 { 44u8 } else { 32u8 })
}

/// The bytes of `, `.
pub open spec fn lit_comma() -> Seq<u8> {
    Seq::new(2, |i: int| if i == 0 { 44u8 } else { 32u8 })
}

/// The bytes of `, &Device::Cpu)`.
pub open spec fn lit_dev() -> Seq<u8> {
    Seq::new(15, |i: int| if i == 0 { 44u8 } else if i == 1 { 32u8 } else if i == 2 { 38u8 } else if i == 3 { 68u8 } else if i == 4 { 101u8 } else if i == 5 { 118u8 } else if i == 6 { 105u8 } else if i == 7 { 99u8 } else if i == 8 { 101u8 } else if i == 9 { 58u8 } else if i == 10 { 58u8 } else if i == 11 { 67u8 } else if i == 12 { 112u8 } else if i == 13 { 117u8 } else { 41u8 })
}

/// The bytes of `Tensor::arange(`.
pub open spec fn lit_arange() -> Seq<u8> {
    Seq::new(15, |i: int| if i == 0 { 84u8 } else if i == 1 { 101u8 } else if i == 2 { 110u8 } else if i == 3 { 115u8 } else if i == 4 { 111u8 } else if i == 5 { 114u8 } else if i == 6 { 58u8 } else if i == 7 { 58u8 } else if i == 8 { 97u8 } else if i == 9 { 114u8 } else if i == 10 { 97u8 } else if i == 11 { 110u8 } else if i == 12 { 103u8 } else if i == 13 { 101u8 } else { 40u8 })
}

/// The bytes of `Tensor::arange_step(`.
pub open spec fn lit_arange_step() -> Seq<u8> {
    Seq::new(20, |i: int| if i == 0 { 84u8 } else if i == 1 { 101u8 } else if i == 2 { 110u8 } else if i == 3 { 115u8 } else if i == 4 { 111u8 } else if i == 5 { 114u8 } else if i == 6 { 58u8 } else if i == 7 { 58u8 } else if i == 8 { 97u8 } else if i == 9 { 114u8 } else if i == 10 { 97u8 } else if i == 11 { 110u8 } else if i == 12 { 103u8 } else if i == 13 { 101u8 } else if i == 14 { 95u8 } else if i == 15 { 115u8 } else if i == 16 { 116u8 } else if i == 17 { 101u8 } else if i == 18 { 112u8 } else { 40u8 })
}

/// The bytes of `, DType::I64, &Device::Cpu)`.
pub open spec fn lit_i64_dev() -> Seq<u8> {
    Seq::new(27, |i: int| if i == 0 { 44u8 } else if i == 1 { 32u8 } else if i == 2 { 68u8 } else if i == 3 { 84u8 } else if i == 4 { 121u8 } else if i == 5 { 112u8 } else if i == 6 { 101u8 } else if i == 7 { 58u8 } else if i == 8 { 58u8 } else if i == 9 { 73u8 } else if i == 10 { 54u8 } else if i == 11 { 52u8 } else if i == 12 { 44u8 } else if i == 13 { 32u8 } else if i == 14 { 38u8 } else if i == 15 { 68u8 } else if i == 16 { 101u8 } else if i == 17 { 118u8 } else if i == 18 { 105u8 } else if i == 19 { 99u8 } else if i == 20 { 101u8 } else if i == 21 { 58u8 } else if i == 22 { 58u8 } else if i == 23 { 67u8 } else if i == 24 { 112u8 } else if i == 25 { 117u8 } else { 41u8 })
}

/// The bytes of `usize`.
pub open spec fn lit_usize_suffix() -> Seq<u8> {
    Seq::new(5, |i: int| if i == 0 { 117u8 } else if i == 1 { 115u8 } else if i == 2 { 105u8 } else if i == 3 { 122u8 } else { 101u8 })
}

/// The bytes of `i32`.
pub open spec fn lit_i32_suffix() -> Seq<u8> {
    Seq::new(3, |i: int| if i == 0 { 105u8 } else if i == 1 { 51u8 } else { 50u8 })
}

/// The bytes of `let `.
pub open spec fn lit_let_kw() -> Seq<u8> {
    Seq::new(4, |i: int| if i == 0 { 108u8 } else if i == 1 { 101u8 } else if i == 2 { 116u8 } else { 32u8 })
}

/// The bytes of ` =`.
pub open spec fn lit_eq() -> Seq<u8> {
    Seq::new(2, |i: int| if i == 0 { 32u8 } else { 61u8 })
}

/// The bytes of `;`.
pub open spec fn lit_semi() -> Seq<u8> {
    Seq::new(1, |i: int| 59u8)
}

/// The bytes of `-`.
pub open spec fn lit_minus() -> Seq<u8> {
    Seq::new(1, |i: int| 45u8)
}

/// The bytes of `+`.
pub open spec fn lit_plus() -> Seq<u8> {
    Seq::new(1, |i: int| 43u8)
}

/// The bytes of `*`.
pub open spec fn lit_star() -> Seq<u8> {
    Seq::new(1, |i: int| 42u8)
}

/// The bytes of `DType::F32`.
pub open spec fn lit_dt_f32() -> Seq<u8> {
    Seq::new(10, |i: int| if i == 0 { 68u8 } else if i == 1 { 84u8 } else if i == 2 { 121u8 } else if i == 3 { 112u8 } else if i == 4 { 101u8 } else if i == 5 { 58u8 } else if i == 6 { 58u8 } else if i == 7 { 70u8 } else if i == 8 { 51u8 } else { 50u8 })
}

/// The bytes of `DType::F64`.
pub open spec fn lit_dt_f64() -> Seq<u8> {
    Seq::new(10, |i: int| if i == 0 { 68u8 } else if i == 1 { 84u8 } else if i == 2 { 121u8 } else if i == 3 { 112u8 } else if i == 4 { 101u8 } else if i == 5 { 58u8 } else if i == 6 { 58u8 } else if i == 7 { 70u8 } else if i == 8 { 54u8 } else { 52u8 })
}

/// The bytes of `DType::I64`.
pub open spec fn lit_dt_i64() -> Seq<u8> {
    Seq::new(10, |i: int| if i == 0 { 68u8 } else if i == 1 { 84u8 } else if i == 2 { 121u8 } else if i == 3 { 112u8 } else if i == 4 { 101u8 } else if i == 5 { 58u8 } else if i == 6 { 58u8 } else if i == 7 { 73u8 } else if i == 8 { 54u8 } else { 52u8 })
}

/// The bytes of `DType::U32`.
pub open spec fn lit_dt_u32() -> Seq<u8> {
    Seq::new(10, |i: int| if i == 0 { 68u8 } else if i == 1 { 84u8 } else if i == 2 { 121u8 } else if i == 3 { 112u8 } else if i == 4 { 101u8 } else if i == 5 { 58u8 } else if i == 6 { 58u8 } else if i == 7 { 85u8 } else if i == 8 { 51u8 } else { 50u8 })
}

/// The bytes of `DType::U8`.
pub open spec fn lit_dt_u8() -> Seq<u8> {
    Seq::new(9, |i: int| if i == 0 { 68u8 } else if i == 1 { 84u8 } else if i == 2 { 121u8 } else if i == 3 { 112u8 } else if i == 4 { 101u8 } else if i == 5 { 58u8 } else if i == 6 { 58u8 } else if i == 7 { 85u8 } else { 56u8 })
}

/// The bytes of `DType::BF16`.
pub open spec fn lit_dt_bf16() -> Seq<u8> {
    Seq::new(11, |i: int| if i == 0 { 68u8 } else if i == 1 { 84u8 } else if i == 2 { 121u8 } else if i == 3 { 112u8 } else if i == 4 { 101u8 } else if i == 5 { 58u8 } else if i == 6 { 58u8 } else if i == 7 { 66u8 } else if i == 8 { 70u8 } else if i == 9 { 49u8 } else { 54u8 })
}

/// The bytes of `DType::F16`.
pub open spec fn lit_dt_f16() -> Seq<u8> {
    Seq::new(10, |i: int| if i == 0 { 68u8 } else if i == 1 { 84u8 } else if i == 2 { 121u8 } else if i == 3 { 112u8 } else if i == 4 { 101u8 } else if i == 5 { 58u8 } else if i == 6 { 58u8 } else if i == 7 { 70u8 } else if i == 8 { 49u8 } else { 54u8 })
}

/// Decimal digits of `n`, most significant first.
pub open spec fn dec(n: int) -> Seq<u8>
    recommends
        n >= 0,
    decreases n,
{
    if n < 10 {
        seq![(48 + n) as u8]
    } else {
        dec(n / 10).push((48 + n % 10) as u8)
    }
}

/// A `usize` literal with its suffix.
pub open spec fn usize_lit(d: usize) -> Seq<u8> {
    dec(d as int) + lit_usize_suffix()
}

/// An `i32` literal with its suffix, negative values signed.
pub open spec fn i32_lit(v: i32) -> Seq<u8> {
    if v >= 0 {
        dec(v as int) + lit_i32_suffix()
    } else {
        lit_minus() + dec(-(v as int)) + lit_i32_suffix()
    }
}

/// The dimensions of a shape tuple, comma-separated.
pub open spec fn dims_bytes(shape: Seq<usize>) -> Seq<u8>
    decreases shape.len(),
{
    if shape.len() == 0 {
        Seq::empty()
    } else if shape.len() == 1 {
        usize_lit(shape[0])
    } else {
        dims_bytes(shape.drop_last()) + lit_comma() + usize_lit(shape.last())
    }
}

pub open spec fn dtype_bytes(dt: DataType) -> Seq<u8> {
    match dt {
        DataType::F32 => lit_dt_f32(),
        DataType::F64 => lit_dt_f64(),
        DataType::I64 => lit_dt_i64(),
        DataType::U32 => lit_dt_u32(),
        DataType::U8 => lit_dt_u8(),
        DataType::BF16 => lit_dt_bf16(),
        DataType::F16 => lit_dt_f16(),
    }
}

pub open spec fn op_bytes(op: BinaryOp) -> Seq<u8> {
    match op {
        BinaryOp::Add => lit_plus(),
        BinaryOp::Sub => lit_minus(),
        BinaryOp::Mul => lit_star(),
    }
}

/// The text of one fragment.
pub open spec fn token_bytes(t: TokenV) -> Seq<u8> {
    match t {
        TokenV::Zeros { shape, dtype } => lit_zeros() + dims_bytes(shape) + lit_close_shape()
            + dtype_bytes(dtype) + lit_dev(),
        TokenV::Ones { shape, dtype } => lit_ones() + dims_bytes(shape) + lit_close_shape()
            + dtype_bytes(dtype) + lit_dev(),
        TokenV::Full { shape, fill, dtype } => lit_full() + dims_bytes(shape) + lit_close_shape()
            + i32_lit(fill) + lit_comma() + dtype_bytes(dtype) + lit_dev(),
        TokenV::Arange { start, stop } => lit_arange() + i32_lit(start) + lit_comma() + i32_lit(
            stop,
        ) + lit_i64_dev(),
        TokenV::ArangeStep { start, stop, step } => lit_arange_step() + i32_lit(start)
            + lit_comma() + i32_lit(stop) + lit_comma() + i32_lit(step) + lit_i64_dev(),
        TokenV::Ident(n) => n,
        TokenV::Op(op) => op_bytes(op),
        TokenV::Let(n) => lit_let_kw() + n + lit_eq(),
        TokenV::Semi => lit_semi(),
    }
}

/// The fragments joined by single spaces.
pub open spec fn joined(toks: Seq<TokenV>) -> Seq<u8>
    decreases toks.len(),
{
    if toks.len() == 0 {
        Seq::empty()
    } else if toks.len() == 1 {
        token_bytes(toks[0])
    } else {
        joined(toks.drop_last()) + lit_sp() + token_bytes(toks.last())
    }
}

/// The whole rendered source: the joined fragments inside a synthetic
/// enclosing function.
pub open spec fn spec_rendered(toks: Seq<TokenV>) -> Seq<u8> {
    lit_fn_open() + joined(toks) + lit_fn_close()
}

pub open spec fn ascii_seq(s: Seq<u8>) -> bool {
    forall|i: int| 0 <= i < s.len() ==> #[trigger] s[i] < 128
}

fn push_fn_open(out: &mut Vec<u8>)
    ensures
        final(out)@ == old(out)@ + lit_fn_open(),
{
    out.push(102);
    out.push(110);
    out.push(32);
    out.push(109);
    out.push(97);
    out.push(105);
    out.push(110);
    out.push(40);
    out.push(41);
    out.push(32);
    out.push(123);
    out.push(32);
    proof {
        assert(out@ =~= old(out)@ + lit_fn_open());
    }
}

fn push_fn_close(out: &mut Vec<u8>)
    ensures
        final(out)@ == old(out)@ + lit_fn_close(),
{
    out.push(32);
    out.push(125);
    proof {
        assert(out@ =~= old(out)@ + lit_fn_close());
    }
}

fn push_sp(out: &mut Vec<u8>)
    ensures
        final(out)@ == old(out)@ + lit_sp(),
{
    out.push(32);
    proof {
        assert(out@ =~= old(out)@ + lit_sp());
    }
}

fn push_zeros(out: &mut Vec<u8>)
    ensures
        final(out)@ == old(out)@ + lit_zeros(),
{
    out.push(84);
    out.push(101);
    out.push(110);
    out.push(115);
    out.push(111);
    out.push(114);
    out.push(58);
    out.push(58);
    out.push(122);
    out.push(101);
    out.push(114);
    out.push(111);
    out.push(115);
    out.push(40);
    out.push(40);
    proof {
        assert(out@ =~= old(out)@ + lit_zeros());
    }
}

fn push_ones(out: &mut Vec<u8>)
    ensures
        final(out)@ == old(out)@ + lit_ones(),
{
    out.push(84);
    out.push(101);
    out.push(110);
    out.push(115);
    out.push(111);
    out.push(114);
    out.push(58);
    out.push(58);
    out.push(111);
    out.push(110);
    out.push(101);
    out.push(115);
    out.push(40);
    out.push(40);
    proof {
        assert(out@ =~= old(out)@ + lit_ones());
    }
}

fn push_full(out: &mut Vec<u8>)
    ensures
        final(out)@ == old(out)@ + lit_full(),
{
    out.push(84);
    out.push(101);
    out.push(110);
    out.push(115);
    out.push(111);
    out.push(114);
    out.push(58);
    out.push(58);
    out.push(102);
    out.push(117);
    out.push(108);
    out.push(108);
    out.push(40);
    out.push(40);
    proof {
        assert(out@ =~= old(out)@ + lit_full());
    }
}

fn push_close_shape(out: &mut Vec<u8>)
    ensures
        final(out)@ == old(out)@ + lit_close_shape(),
{
    out.push(41);
    out.push(44);
    out.push(32);
    proof {
        assert(out@ =~= old(out)@ + lit_close_shape());
    }
}

fn push_comma(out: &mut Vec<u8>)
    ensures
        final(out)@ == old(out)@ + lit_comma(),
{
    out.push(44);
    out.push(32);
    proof {
        assert(out@ =~= old(out)@ + lit_comma());
    }
}

fn push_dev(out: &mut Vec<u8>)
    ensures
        final(out)@ == old(out)@ + lit_dev(),
{
    out.push(44);
    out.push(32);
    out.push(38);
    out.push(68);
    out.push(101);
    out.push(118);
    out.push(105);
    out.push(99);
    out.push(101);
    out.push(58);
    out.push(58);
    out.push(67);
    out.push(112);
    out.push(117);
    out.push(41);
    proof {
        assert(out@ =~= old(out)@ + lit_dev());
    }
}

fn push_arange(out: &mut Vec<u8>)
    ensures
        final(out)@ == old(out)@ + lit_arange(),
{
    out.push(84);
    out.push(101);
    out.push(110);
    out.push(115);
    out.push(111);
    out.push(114);
    out.push(58);
    out.push(58);
    out.push(97);
    out.push(114);
    out.push(97);
    out.push(110);
    out.push(103);
    out.push(101);
    out.push(40);
    proof {
        assert(out@ =~= old(out)@ + lit_arange());
    }
}

fn push_arange_step(out: &mut Vec<u8>)
    ensures
        final(out)@ == old(out)@ + lit_arange_step(),
{
    out.push(84);
    out.push(101);
    out.push(110);
    out.push(115);
    out.push(111);
    out.push(114);
    out.push(58);
    out.push(58);
    out.push(97);
    out.push(114);
    out.push(97);
    out.push(110);
    out.push(103);
    out.push(101);
    out.push(95);
    out.push(115);
    out.push(116);
    out.push(101);
    out.push(112);
    out.push(40);
    proof {
        assert(out@ =~= old(out)@ + lit_arange_step());
    }
}

fn push_i64_dev(out: &mut Vec<u8>)
    ensures
        final(out)@ == old(out)@ + lit_i64_dev(),
{
    out.push(44);
    out.push(32);
    out.push(68);
    out.push(84);
    out.push(121);
    out.push(112);
    out.push(101);
    out.push(58);
    out.push(58);
    out.push(73);
    out.push(54);
    out.push(52);
    out.push(44);
    out.push(32);
    out.push(38);
    out.push(68);
    out.push(101);
    out.push(118);
    out.push(105);
    out.push(99);
    out.push(101);
    out.push(58);
    out.push(58);
    out.push(67);
    out.push(112);
    out.push(117);
    out.push(41);
    proof {
        assert(out@ =~= old(out)@ + lit_i64_dev());
    }
}

fn push_usize_suffix(out: &mut Vec<u8>)
    ensures
        final(out)@ == old(out)@ + lit_usize_suffix(),
{
    out.push(117);
    out.push(115);
    out.push(105);
    out.push(122);
    out.push(101);
    proof {
        assert(out@ =~= old(out)@ + lit_usize_suffix());
    }
}

fn push_i32_suffix(out: &mut Vec<u8>)
    ensures
        final(out)@ == old(out)@ + lit_i32_suffix(),
{
    out.push(105);
    out.push(51);
    out.push(50);
    proof {
        assert(out@ =~= old(out)@ + lit_i32_suffix());
    }
}

fn push_let_kw(out: &mut Vec<u8>)
    ensures
        final(out)@ == old(out)@ + lit_let_kw(),
{
    out.push(108);
    out.push(101);
    out.push(116);
    out.push(32);
    proof {
        assert(out@ =~= old(out)@ + lit_let_kw());
    }
}

fn push_eq(out: &mut Vec<u8>)
    ensures
        final(out)@ == old(out)@ + lit_eq(),
{
    out.push(32);
    out.push(61);
    proof {
        assert(out@ =~= old(out)@ + lit_eq());
    }
}

fn push_semi(out: &mut Vec<u8>)
    ensures
        final(out)@ == old(out)@ + lit_semi(),
{
    out.push(59);
    proof {
        assert(out@ =~= old(out)@ + lit_semi());
    }
}

fn push_minus(out: &mut Vec<u8>)
    ensures
        final(out)@ == old(out)@ + lit_minus(),
{
    out.push(45);
    proof {
        assert(out@ =~= old(out)@ + lit_minus());
    }
}

fn push_plus(out: &mut Vec<u8>)
    ensures
        final(out)@ == old(out)@ + lit_plus(),
{
    out.push(43);
    proof {
        assert(out@ =~= old(out)@ + lit_plus());
    }
}

fn push_star(out: &mut Vec<u8>)
    ensures
        final(out)@ == old(out)@ + lit_star(),
{
    out.push(42);
    proof {
        assert(out@ =~= old(out)@ + lit_star());
    }
}

fn push_dt_f32(out: &mut Vec<u8>)
    ensures
        final(out)@ == old(out)@ + lit_dt_f32(),
{
    out.push(68);
    out.push(84);
    out.push(121);
    out.push(112);
    out.push(101);
    out.push(58);
    out.push(58);
    out.push(70);
    out.push(51);
    out.push(50);
    proof {
        assert(out@ =~= old(out)@ + lit_dt_f32());
    }
}

fn push_dt_f64(out: &mut Vec<u8>)
    ensures
        final(out)@ == old(out)@ + lit_dt_f64(),
{
    out.push(68);
    out.push(84);
    out.push(121);
    out.push(112);
    out.push(101);
    out.push(58);
    out.push(58);
    out.push(70);
    out.push(54);
    out.push(52);
    proof {
        assert(out@ =~= old(out)@ + lit_dt_f64());
    }
}

fn push_dt_i64(out: &mut Vec<u8>)
    ensures
        final(out)@ == old(out)@ + lit_dt_i64(),
{
    out.push(68);
    out.push(84);
    out.push(121);
    out.push(112);
    out.push(101);
    out.push(58);
    out.push(58);
    out.push(73);
    out.push(54);
    out.push(52);
    proof {
        assert(out@ =~= old(out)@ + lit_dt_i64());
    }
}

fn push_dt_u32(out: &mut Vec<u8>)
    ensures
        final(out)@ == old(out)@ + lit_dt_u32(),
{
    out.push(68);
    out.push(84);
    out.push(121);
    out.push(112);
    out.push(101);
    out.push(58);
    out.push(58);
    out.push(85);
    out.push(51);
    out.push(50);
    proof {
        assert(out@ =~= old(out)@ + lit_dt_u32());
    }
}

fn push_dt_u8(out: &mut Vec<u8>)
    ensures
        final(out)@ == old(out)@ + lit_dt_u8(),
{
    out.push(68);
    out.push(84);
    out.push(121);
    out.push(112);
    out.push(101);
    out.push(58);
    out.push(58);
    out.push(85);
    out.push(56);
    proof {
        assert(out@ =~= old(out)@ + lit_dt_u8());
    }
}

fn push_dt_bf16(out: &mut Vec<u8>)
    ensures
        final(out)@ == old(out)@ + lit_dt_bf16(),
{
    out.push(68);
    out.push(84);
    out.push(121);
    out.push(112);
    out.push(101);
    out.push(58);
    out.push(58);
    out.push(66);
    out.push(70);
    out.push(49);
    out.push(54);
    proof {
        assert(out@ =~= old(out)@ + lit_dt_bf16());
    }
}

fn push_dt_f16(out: &mut Vec<u8>)
    ensures
        final(out)@ == old(out)@ + lit_dt_f16(),
{
    out.push(68);
    out.push(84);
    out.push(121);
    out.push(112);
    out.push(101);
    out.push(58);
    out.push(58);
    out.push(70);
    out.push(49);
    out.push(54);
    proof {
        assert(out@ =~= old(out)@ + lit_dt_f16());
    }
}

// ---------------------------------------------------------------------------
// Executable rendering
// ---------------------------------------------------------------------------

pub(crate) fn push_dec(out: &mut Vec<u8>, v: u64)
    ensures
        final(out)@ == old(out)@ + dec(v as int),
    decreases v,
{
    if v < 10 {
        out.push(48 + v as u8);
        proof {
            assert(out@ =~= old(out)@ + dec(v as int));
        }
    } else {
        push_dec(out, v / 10);
        out.push(48 + (v % 10) as u8);
        proof {
            assert(out@ =~= old(out)@ + dec(v as int));
        }
    }
}

fn push_usize_lit(out: &mut Vec<u8>, d: usize)
    ensures
        final(out)@ == old(out)@ + usize_lit(d),
{
    push_dec(out, d as u64);
    push_usize_suffix(out);
    proof {
        assert(out@ =~= old(out)@ + usize_lit(d));
    }
}

fn push_i32_lit(out: &mut Vec<u8>, v: i32)
    ensures
        final(out)@ == old(out)@ + i32_lit(v),
{
    if v >= 0 {
        push_dec(out, v as u64);
        push_i32_suffix(out);
    } else {
        push_minus(out);
        let m: i64 = -(v as i64);
        push_dec(out, m as u64);
        push_i32_suffix(out);
    }
    proof {
        assert(out@ =~= old(out)@ + i32_lit(v));
    }
}

fn push_dims(out: &mut Vec<u8>, shape: &Vec<usize>)
    ensures
        final(out)@ == old(out)@ + dims_bytes(shape@),
{
    let mut k: usize = 0;
    proof {
        assert(shape@.subrange(0, 0) =~= Seq::<usize>::empty());
        assert(out@ =~= old(out)@ + dims_bytes(shape@.subrange(0, 0)));
    }
    while k < shape.len()
        invariant
            k <= shape@.len(),
            out@ == old(out)@ + dims_bytes(shape@.subrange(0, k as int)),
        decreases shape@.len() - k,
    {
        if k > 0 {
            push_comma(out);
        }
        push_usize_lit(out, shape[k]);
        proof {
            assert(shape@.subrange(0, k as int + 1).drop_last() =~= shape@.subrange(0, k as int));
            assert(shape@.subrange(0, k as int + 1).last() == shape@[k as int]);
            assert(out@ =~= old(out)@ + dims_bytes(shape@.subrange(0, k as int + 1)));
        }
        k = k + 1;
    }
    proof {
        assert(shape@.subrange(0, shape@.len() as int) =~= shape@);
    }
}

fn push_dtype(out: &mut Vec<u8>, dt: DataType)
    ensures
        final(out)@ == old(out)@ + dtype_bytes(dt),
{
    match dt {
        DataType::F32 => push_dt_f32(out),
        DataType::F64 => push_dt_f64(out),
        DataType::I64 => push_dt_i64(out),
        DataType::U32 => push_dt_u32(out),
        DataType::U8 => push_dt_u8(out),
        DataType::BF16 => push_dt_bf16(out),
        DataType::F16 => push_dt_f16(out),
    }
}

fn push_name(out: &mut Vec<u8>, n: &Vec<u8>)
    ensures
        final(out)@ == old(out)@ + n@,
{
    let mut k: usize = 0;
    while k < n.len()
        invariant
            k <= n@.len(),
            out@ == old(out)@ + n@.subrange(0, k as int),
        decreases n@.len() - k,
    {
        out.push(n[k]);
        proof {
            assert(out@ =~= old(out)@ + n@.subrange(0, k as int + 1));
        }
        k = k + 1;
    }
    proof {
        assert(n@.subrange(0, n@.len() as int) =~= n@);
    }
}

fn push_token(out: &mut Vec<u8>, t: &Token)
    ensures
        final(out)@ == old(out)@ + token_bytes(view_token(*t)),
{
    match t {
        Token::Zeros { shape, dtype } => {
            push_zeros(out);
            push_dims(out, shape);
            push_close_shape(out);
            push_dtype(out, *dtype);
            push_dev(out);
        },
        Token::Ones { shape, dtype } => {
            push_ones(out);
            push_dims(out, shape);
            push_close_shape(out);
            push_dtype(out, *dtype);
            push_dev(out);
        },
        Token::Full { shape, fill, dtype } => {
            push_full(out);
            push_dims(out, shape);
            push_close_shape(out);
            push_i32_lit(out, *fill);
            push_comma(out);
            push_dtype(out, *dtype);
            push_dev(out);
        },
        Token::Arange { start, stop } => {
            push_arange(out);
            push_i32_lit(out, *start);
            push_comma(out);
            push_i32_lit(out, *stop);
            push_i64_dev(out);
        },
        Token::ArangeStep { start, stop, step } => {
            push_arange_step(out);
            push_i32_lit(out, *start);
            push_comma(out);
            push_i32_lit(out, *stop);
            push_comma(out);
            push_i32_lit(out, *step);
            push_i64_dev(out);
        },
        Token::Ident(n) => {
            push_name(out, n);
        },
        Token::Op(op) => match op {
            BinaryOp::Add => push_plus(out),
            BinaryOp::Sub => push_minus(out),
            BinaryOp::Mul => push_star(out),
        },
        Token::Let(n) => {
            push_let_kw(out);
            push_name(out, n);
            push_eq(out);
        },
        Token::Semi => {
            push_semi(out);
        },
    }
    proof {
        assert(out@ =~= old(out)@ + token_bytes(view_token(*t)));
    }
}

// ---------------------------------------------------------------------------
// Trusted items for the external well-formedness pass
// ---------------------------------------------------------------------------

#[verifier::external_type_specification]
#[verifier::external_body]
pub struct ExSynFile(syn::File);

#[verifier::external_type_specification]
#[verifier::external_body]
pub struct ExSynError(syn::Error);

/// Whether a source text parses as a Rust file: a function of the text
/// alone.
pub uninterp spec fn syn_parses(src: Seq<u8>) -> bool;

/// Relies on syn::parse_file: parses the content of a file of Rust source
/// text, succeeding exactly on syntactically valid files.
#[verifier::external_body]
fn parse_rust_file(src: &str) -> (r: Result<syn::File, syn::Error>)
    ensures
        r is Ok <==> syn_parses(src.spec_bytes()),
{
    syn::parse_file(src)
}

/// Relies on prettyplease::unparse for the formatted text of a parsed
/// file.
#[verifier::external_body]
fn pretty_unparse(file: &syn::File) -> (r: String) {
    prettyplease::unparse(file)
}

/// Relies on syn::Error's rendering of its message.
#[verifier::external_body]
fn syn_error_text(e: &syn::Error) -> (r: String) {
    format!("{}", e)
}

/// Relies on String::from_utf8: a string holding exactly the given bytes,
/// owed whenever they are ASCII.
#[verifier::external_body]
fn bytes_to_string(b: Vec<u8>) -> (r: Option<String>)
    ensures
        (match r {
            Some(s) => vstd::utf8::encode_utf8(s@) == b@,
            None => true,
        }),
        ascii_seq(b@) ==> r is Some,
{
    match String::from_utf8(b) {
        Ok(s) => Some(s),
        Err(_) => None,
    }
}

// ---------------------------------------------------------------------------
// The compiler
// ---------------------------------------------------------------------------

/// The code generator: the fragments emitted so far, in order.
pub struct Compiler {
    output: Vec<Token>,
}

impl Compiler {
    /// The emitted fragments.
    pub closed spec fn output_view(self) -> Seq<TokenV> {
        view_tokens(self.output@)
    }

    /// The emitted fragments, for a caller that wants to walk them.
    pub fn output(&self) -> (r: &Vec<Token>)
        ensures
            view_tokens(r@) == self.output_view(),
    {
        &self.output
    }

    fn emit(&mut self, t: Token)
        ensures
            final(self).output_view() == old(self).output_view() + seq![view_token(t)],
    {
        let ghost tv = view_token(t);
        self.output.push(t);
        proof {
            assert(view_tokens(self.output@) =~= view_tokens(old(self).output@) + seq![tv]);
        }
    }

    fn compile_expr(&mut self, expr: Loc<Expr>)
        ensures
            final(self).output_view() == old(self).output_view() + spec_compile_lexpr(
                view_lexpr(expr),
            ),
        decreases expr,
    {
        match expr.0 {
            Expr::FillTensor { fill, shape, data_type } => {
                let dtype = match data_type {
                    Some(l) => l.0,
                    None => DataType::F32,
                };
                let mut dims: Vec<usize> = Vec::new();
                let mut k: usize = 0;
                while k < shape.len()
                    invariant
                        k <= shape@.len(),
                        dims@.len() == k,
                        forall|i: int| 0 <= i < k ==> dims@[i] == shape@[i].0,
                    decreases shape@.len() - k,
                {
                    let dim = &shape[k];
                    dims.push(dim.0);
                    k = k + 1;
                }
                proof {
                    assert(dims@ =~= shape@.map_values(|d: Loc<usize>| d.0));
                }
                if fill.0 == 0 {
                    self.emit(Token::Zeros { shape: dims, dtype });
                } else if fill.0 == 1 {
                    self.emit(Token::Ones { shape: dims, dtype });
                } else {
                    self.emit(Token::Full { shape: dims, fill: fill.0, dtype });
                }
            },
            Expr::RangeTensor { start, stop, step } => match step {
                Some(st) => {
                    self.emit(Token::ArangeStep { start: start.0, stop: stop.0, step: st.0 });
                },
                None => {
                    self.emit(Token::Arange { start: start.0, stop: stop.0 });
                },
            },
            Expr::Variable(n) => {
                self.emit(Token::Ident(n));
            },
            Expr::Binary { lhs, rhs, op } => {
                let ghost e0 = self.output_view();
                self.compile_expr(*lhs);
                self.emit(Token::Op(op.0));
                self.compile_expr(*rhs);
                proof {
                    assert(self.output_view() =~= e0 + spec_compile_lexpr(view_lexpr(expr)));
                }
            },
        }
    }

    fn compile_stmt(&mut self, stmt: Loc<Stmt>)
        ensures
            final(self).output_view() == old(self).output_view() + spec_compile_lstmt(
                view_lstmt(stmt),
            ),
    {
        let ghost e0 = self.output_view();
        match stmt.0 {
            Stmt::Expr(e) => {
                self.compile_expr(e);
                self.emit(Token::Semi);
                proof {
                    assert(self.output_view() =~= e0 + spec_compile_lstmt(view_lstmt(stmt)));
                }
            },
            Stmt::Assign { lhs, rhs } => {
                self.emit(Token::Let(lhs.0));
                self.compile_expr(rhs);
                self.emit(Token::Semi);
                proof {
                    assert(self.output_view() =~= e0 + spec_compile_lstmt(view_lstmt(stmt)));
                }
            },
        }
    }

    /// Lowers every statement of the program, in order, appending its
    /// fragments to the output. Runs regardless of type diagnostics.
    pub fn compile_program(&mut self, program: Loc<Program>)
        ensures
            final(self).output_view() == old(self).output_view() + spec_compile_stmts(
                view_program(program.0).stmts,
            ),
    {
        let ghost sv = view_program(program.0).stmts;
        let mut stmts = program.0.stmts;
        let ghost all = stmts@;
        let mut k: usize = 0;
        proof {
            assert(sv.subrange(0, 0) =~= Seq::<Loc<StmtV>>::empty());
        }
        let n = stmts.len();
        while k < n
            invariant
                k <= all.len(),
                n == all.len(),
                stmts@ == all.skip(k as int),
                sv.len() == all.len(),
                forall|i: int| 0 <= i < all.len() ==> sv[i] == view_lstmt(#[trigger] all[i]),
                self.output_view() == old(self).output_view() + spec_compile_stmts(
                    sv.subrange(0, k as int),
                ),
            decreases all.len() - k,
        {
            let st = stmts.remove(0);
            proof {
                assert(all.skip(k as int)[0] == all[k as int]);
                assert(all.skip(k as int).drop_first() =~= all.skip(k as int + 1));
            }
            self.compile_stmt(st);
            proof {
                assert(sv.subrange(0, k as int + 1).drop_last() =~= sv.subrange(0, k as int));
                assert(sv.subrange(0, k as int + 1).last() == sv[k as int]);
                assert(self.output_view() =~= old(self).output_view() + spec_compile_stmts(
                    sv.subrange(0, k as int + 1),
                ));
            }
            k = k + 1;
        }
        proof {
            assert(sv.subrange(0, sv.len() as int) =~= sv);
        }
    }

    /// The rendered source text: the fragments joined by spaces inside a
    /// synthetic `main`.
    pub fn rendered(&self) -> (r: Vec<u8>)
        ensures
            r@ == spec_rendered(self.output_view()),
    {
        let mut out: Vec<u8> = Vec::new();
        push_fn_open(&mut out);
        let ghost toks = self.output_view();
        let mut k: usize = 0;
        proof {
            assert(toks.subrange(0, 0) =~= Seq::<TokenV>::empty());
            assert(out@ =~= lit_fn_open() + joined(toks.subrange(0, 0)));
        }
        while k < self.output.len()
            invariant
                k <= self.output@.len(),
                toks == view_tokens(self.output@),
                toks.len() == self.output@.len(),
                out@ == lit_fn_open() + joined(toks.subrange(0, k as int)),
            decreases self.output@.len() - k,
        {
            if k > 0 {
                push_sp(&mut out);
            }
            push_token(&mut out, &self.output[k]);
            proof {
                assert(toks.subrange(0, k as int + 1).drop_last() =~= toks.subrange(0, k as int));
                assert(toks.subrange(0, k as int + 1).last() == view_token(self.output@[k as int]));
                assert(out@ =~= lit_fn_open() + joined(toks.subrange(0, k as int + 1)));
            }
            k = k + 1;
        }
        push_fn_close(&mut out);
        proof {
            assert(toks.subrange(0, toks.len() as int) =~= toks);
            assert(out@ =~= spec_rendered(self.output_view()));
        }
        out
    }

    /// Renders the output, checks that it is syntactically valid target
    /// source, and hands it to the external formatter. Fails exactly when
    /// the check fails, for output whose identifiers are well-formed
    /// names; the error carries the underlying message.
    pub fn pretty(&self) -> (r: Result<String, String>)
        ensures
            r is Ok ==> syn_parses(spec_rendered(self.output_view())),
            tokens_named_ok(self.output_view()) ==> (r is Ok <==> syn_parses(
                spec_rendered(self.output_view()),
            )),
    {
        let bytes = self.rendered();
        proof {
            if tokens_named_ok(self.output_view()) {
                lemma_rendered_ascii(self.output_view());
            }
        }
        let s = match bytes_to_string(bytes) {
            Some(s) => s,
            None => {
                return Err("emitted identifiers are not text".to_owned());
            },
        };
        match parse_rust_file(s.as_str()) {
            Ok(f) => Ok(pretty_unparse(&f)),
            Err(e) => Err(syn_error_text(&e)),
        }
    }
}

impl Default for Compiler {
    /// A generator with no fragments emitted yet.
    fn default() -> (r: Self)
        ensures
            r.output_view() == Seq::<TokenV>::empty(),
    {
        Compiler { output: Vec::new() }
    }
}

// ---------------------------------------------------------------------------
// ASCII facts about the rendered bytes
// ---------------------------------------------------------------------------

proof fn lemma_ascii_concat(a: Seq<u8>, b: Seq<u8>)
    requires
        ascii_seq(a),
        ascii_seq(b),
    ensures
        ascii_seq(a + b),
{
    assert forall|i: int| 0 <= i < (a + b).len() implies (a + b)[i] < 128 by {
        if i < a.len() {
            assert((a + b)[i] == a[i]);
        } else {
            assert((a + b)[i] == b[i - a.len()]);
        }
    }
}

proof fn lemma_ascii_dec(n: int)
    requires
        n >= 0,
    ensures
        ascii_seq(dec(n)),
    decreases n,
{
    if n >= 10 {
        lemma_ascii_dec(n / 10);
        assert forall|i: int| 0 <= i < dec(n).len() implies dec(n)[i] < 128 by {
            if i < dec(n / 10).len() {
                assert(dec(n)[i] == dec(n / 10)[i]);
            }
        }
    }
}

proof fn lemma_ascii_dims(shape: Seq<usize>)
    ensures
        ascii_seq(dims_bytes(shape)),
    decreases shape.len(),
{
    if shape.len() == 1 {
        lemma_ascii_dec(shape[0] as int);
        lemma_ascii_concat(dec(shape[0] as int), lit_usize_suffix());
    } else if shape.len() > 1 {
        lemma_ascii_dims(shape.drop_last());
        lemma_ascii_concat(dims_bytes(shape.drop_last()), lit_comma());
        lemma_ascii_dec(shape.last() as int);
        lemma_ascii_concat(dec(shape.last() as int), lit_usize_suffix());
        lemma_ascii_concat(dims_bytes(shape.drop_last()) + lit_comma(), usize_lit(shape.last()));
    }
}

proof fn lemma_ascii_i32(v: i32)
    ensures
        ascii_seq(i32_lit(v)),
{
    if v >= 0 {
        lemma_ascii_dec(v as int);
        lemma_ascii_concat(dec(v as int), lit_i32_suffix());
    } else {
        lemma_ascii_dec(-(v as int));
        lemma_ascii_concat(lit_minus(), dec(-(v as int)));
        lemma_ascii_concat(lit_minus() + dec(-(v as int)), lit_i32_suffix());
    }
}

proof fn lemma_ascii_name(n: Seq<u8>)
    requires
        name_ok(n),
    ensures
        ascii_seq(n),
{
    assert forall|i: int| 0 <= i < n.len() implies n[i] < 128 by {
        if i == 0 {
            assert(is_ident_start(n[0]));
        } else {
            assert(is_ident_cont(n[i]));
        }
    }
}

proof fn lemma_ascii_token(t: TokenV)
    requires
        match t {
            TokenV::Ident(n) => name_ok(n),
            TokenV::Let(n) => name_ok(n),
            _ => true,
        },
    ensures
        ascii_seq(token_bytes(t)),
{
    match t {
        TokenV::Zeros { shape, dtype } => {
            lemma_ascii_dims(shape);
            lemma_ascii_concat(lit_zeros(), dims_bytes(shape));
            lemma_ascii_concat(lit_zeros() + dims_bytes(shape), lit_close_shape());
            lemma_ascii_concat(
                lit_zeros() + dims_bytes(shape) + lit_close_shape(),
                dtype_bytes(dtype),
            );
            lemma_ascii_concat(
                lit_zeros() + dims_bytes(shape) + lit_close_shape() + dtype_bytes(dtype),
                lit_dev(),
            );
        },
        TokenV::Ones { shape, dtype } => {
            lemma_ascii_dims(shape);
            lemma_ascii_concat(lit_ones(), dims_bytes(shape));
            lemma_ascii_concat(lit_ones() + dims_bytes(shape), lit_close_shape());
            lemma_ascii_concat(
                lit_ones() + dims_bytes(shape) + lit_close_shape(),
                dtype_bytes(dtype),
            );
            lemma_ascii_concat(
                lit_ones() + dims_bytes(shape) + lit_close_shape() + dtype_bytes(dtype),
                lit_dev(),
            );
        },
        TokenV::Full { shape, fill, dtype } => {
            lemma_ascii_dims(shape);
            lemma_ascii_i32(fill);
            lemma_ascii_concat(lit_full(), dims_bytes(shape));
            lemma_ascii_concat(lit_full() + dims_bytes(shape), lit_close_shape());
            lemma_ascii_concat(lit_full() + dims_bytes(shape) + lit_close_shape(), i32_lit(fill));
            lemma_ascii_concat(
                lit_full() + dims_bytes(shape) + lit_close_shape() + i32_lit(fill),
                lit_comma(),
            );
            lemma_ascii_concat(
                lit_full() + dims_bytes(shape) + lit_close_shape() + i32_lit(fill) + lit_comma(),
                dtype_bytes(dtype),
            );
            lemma_ascii_concat(
                lit_full() + dims_bytes(shape) + lit_close_shape() + i32_lit(fill) + lit_comma()
                    + dtype_bytes(dtype),
                lit_dev(),
            );
        },
        TokenV::Arange { start, stop } => {
            lemma_ascii_i32(start);
            lemma_ascii_i32(stop);
            lemma_ascii_concat(lit_arange(), i32_lit(start));
            lemma_ascii_concat(lit_arange() + i32_lit(start), lit_comma());
            lemma_ascii_concat(lit_arange() + i32_lit(start) + lit_comma(), i32_lit(stop));
            lemma_ascii_concat(
                lit_arange() + i32_lit(start) + lit_comma() + i32_lit(stop),
                lit_i64_dev(),
            );
        },
        TokenV::ArangeStep { start, stop, step } => {
            lemma_ascii_i32(start);
            lemma_ascii_i32(stop);
            lemma_ascii_i32(step);
            lemma_ascii_concat(lit_arange_step(), i32_lit(start));
            lemma_ascii_concat(lit_arange_step() + i32_lit(start), lit_comma());
            lemma_ascii_concat(lit_arange_step() + i32_lit(start) + lit_comma(), i32_lit(stop));
            lemma_ascii_concat(
                lit_arange_step() + i32_lit(start) + lit_comma() + i32_lit(stop),
                lit_comma(),
            );
            lemma_ascii_concat(
                lit_arange_step() + i32_lit(start) + lit_comma() + i32_lit(stop) + lit_comma(),
                i32_lit(step),
            );
            lemma_ascii_concat(
                lit_arange_step() + i32_lit(start) + lit_comma() + i32_lit(stop) + lit_comma()
                    + i32_lit(step),
                lit_i64_dev(),
            );
        },
        TokenV::Ident(n) => {
            lemma_ascii_name(n);
        },
        TokenV::Op(op) => {},
        TokenV::Let(n) => {
            lemma_ascii_name(n);
            lemma_ascii_concat(lit_let_kw(), n);
            lemma_ascii_concat(lit_let_kw() + n, lit_eq());
        },
        TokenV::Semi => {},
    }
}

proof fn lemma_ascii_joined(toks: Seq<TokenV>)
    requires
        tokens_named_ok(toks),
    ensures
        ascii_seq(joined(toks)),
    decreases toks.len(),
{
    if toks.len() == 1 {
        lemma_ascii_token(toks[0]);
    } else if toks.len() > 1 {
        assert(tokens_named_ok(toks.drop_last())) by {
            assert(forall|k: int|
                0 <= k < toks.len() - 1 ==> toks.drop_last()[k] == #[trigger] toks[k]);
        }
        lemma_ascii_joined(toks.drop_last());
        lemma_ascii_token(toks.last());
        lemma_ascii_concat(joined(toks.drop_last()), lit_sp());
        lemma_ascii_concat(joined(toks.drop_last()) + lit_sp(), token_bytes(toks.last()));
    }
}

/// Output whose identifiers are well-formed names renders to ASCII text.
pub proof fn lemma_rendered_ascii(toks: Seq<TokenV>)
    requires
        tokens_named_ok(toks),
    ensures
        ascii_seq(spec_rendered(toks)),
{
    lemma_ascii_joined(toks);
    lemma_ascii_concat(lit_fn_open(), joined(toks));
    lemma_ascii_concat(lit_fn_open() + joined(toks), lit_fn_close());
}

} // verus!
