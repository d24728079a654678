//! Parser for the tensor language.
//!
//! The grammar is a deterministic PEG over the input bytes; ordered choice
//! decides the ambiguous bracketed literals (a fill tensor is attempted
//! before a range tensor, as a first-class grammar rule). The spec functions
//! in this module *are* the grammar: the executable parser is proved to
//! return exactly their value.
//!
//! Grammar (ws = ASCII whitespace, consumed where shown):
//! - `uint`        := `0` | nonzero digit followed by digits (maximal run)
//! - `fill_tensor` := ws `[` ws uint (ws `x` ws uint)* ws `;` ws uint ws `]` ws
//! - `range_tensor`:= ws `[` ws uint ws `..` ws uint (ws `;` ws uint)? ws `]` ws
//! - `ident`       := `[a-zA-Z_][a-zA-Z0-9_]*` (maximal run, no padding)
//! - `atom`        := fill_tensor / range_tensor / ident
//! - `expr`        := atom (ws `*` ws atom)*, folded left-associatively
//! - `stmt`        := expr ws `;` ws / ident ws `=` ws expr ws `;` ws
//! - `program`     := stmt* end-of-input
//!
//! A numeric literal out of range of its machine type makes the enclosing
//! alternative fail. Any failure to consume the whole input aborts the
//! parse with the offset the last statement attempt stopped at; no partial
//! program is ever produced.

use vstd::prelude::*;
use vstd::string::StringSliceAdditionalSpecFns;

use crate::ast::{BinaryOp, Expr, ExprV, Loc, Program, ProgramV, Span, Stmt, StmtV};
use crate::ast::{view_expr, view_lexpr, view_lstmt, view_program, view_stmts};

verus! {

/// A failed parse: no statement could be read at byte offset `pos`, and
/// `pos` is not the end of the input.
#[derive(Clone, Copy, Debug, PartialEq, Eq, Structural)]
pub struct ParseError {
    pub pos: usize,
}

// ---------------------------------------------------------------------------
// Character classes
// ---------------------------------------------------------------------------

/// ASCII whitespace: space, tab, line feed, form feed, carriage return.
pub open spec fn is_ws(b: u8) -> bool {
    b == 32 || b == 9 || b == 10 || b == 12 || b == 13
}

pub open spec fn is_digit(b: u8) -> bool {
    48 <= b <= 57
}

pub open spec fn is_ident_start(b: u8) -> bool {
    (65 <= b <= 90) || (97 <= b <= 122) || b == 95
}

pub open spec fn is_ident_cont(b: u8) -> bool {
    is_ident_start(b) || is_digit(b)
}

// ---------------------------------------------------------------------------
// Scanning
// ---------------------------------------------------------------------------

/// First offset at or after `i` that does not hold whitespace.
pub open spec fn ws_end(s: Seq<u8>, i: int) -> int
    decreases s.len() - i,
{
    if 0 <= i < s.len() && is_ws(s[i]) {
        ws_end(s, i + 1)
    } else {
        i
    }
}

/// End of the maximal digit run starting at `i`.
pub open spec fn digits_end(s: Seq<u8>, i: int) -> int
    decreases s.len() - i,
{
    if 0 <= i < s.len() && is_digit(s[i]) {
        digits_end(s, i + 1)
    } else {
        i
    }
}

/// End of the maximal identifier-continuation run starting at `i`.
pub open spec fn ident_end(s: Seq<u8>, i: int) -> int
    decreases s.len() - i,
{
    if 0 <= i < s.len() && is_ident_cont(s[i]) {
        ident_end(s, i + 1)
    } else {
        i
    }
}

/// Decimal value of the digits `s[i..j)`.
pub open spec fn digits_val(s: Seq<u8>, i: int, j: int) -> int
    decreases j - i,
{
    if i < j {
        digits_val(s, i, j - 1) * 10 + (s[j - 1] - 48)
    } else {
        0
    }
}

/// An unsigned integer literal at `i`: a lone `0`, or a maximal digit run
/// not starting with `0`. Yields its value and end offset.
pub open spec fn uint_at(s: Seq<u8>, i: int) -> Option<(int, int)> {
    if 0 <= i < s.len() && is_digit(s[i]) {
        if s[i] == 48 {
            Some((0, i + 1))
        } else {
            let j = digits_end(s, i);
            Some((digits_val(s, i, j), j))
        }
    } else {
        None
    }
}

pub open spec fn span_of(i: int, j: int) -> Span {
    Span { start: i as usize, end: j as usize }
}

// ---------------------------------------------------------------------------
// Atoms
// ---------------------------------------------------------------------------

/// The shape items of a fill tensor after the first: `(ws x ws uint)*`,
/// appended to `acc`. A separator whose item is missing is not consumed.
/// A dimension too large for `usize` fails the whole alternative.
pub open spec fn shape_more(s: Seq<u8>, pos: int, acc: Seq<Loc<usize>>) -> Option<
    (Seq<Loc<usize>>, int),
>
    decreases s.len() - pos,
{
    let t = ws_end(s, pos);
    if t < s.len() && s[t] == 120 {  // 'x'
        let u = ws_end(s, t + 1);
        match uint_at(s, u) {
            Some((v, e)) => {
                if v > usize::MAX {
                    None
                } else if pos < e <= s.len() {
                    shape_more(s, e, acc.push(Loc(v as usize, span_of(u, e))))
                } else {
                    Some((acc, pos))
                }
            },
            None => Some((acc, pos)),
        }
    } else {
        Some((acc, pos))
    }
}

/// The shape list of a fill tensor: one or more `uint`s separated by `x`.
pub open spec fn shape_items(s: Seq<u8>, i: int) -> Option<(Seq<Loc<usize>>, int)> {
    match uint_at(s, i) {
        Some((v, e)) => {
            if v > usize::MAX {
                None
            } else {
                shape_more(s, e, seq![Loc(v as usize, span_of(i, e))])
            }
        },
        None => None,
    }
}

/// A fill tensor literal at `i`, trailing whitespace included.
pub open spec fn fill_at(s: Seq<u8>, i: int) -> Option<(ExprV, int)> {
    let a = ws_end(s, i);
    if a < s.len() && s[a] == 91 {  // '['
        match shape_items(s, ws_end(s, a + 1)) {
            Some((shape, p)) => {
                let c = ws_end(s, p);
                if c < s.len() && s[c] == 59 {  // ';'
                    let d = ws_end(s, c + 1);
                    match uint_at(s, d) {
                        Some((v, e)) => {
                            if v > i32::MAX {
                                None
                            } else {
                                let f = ws_end(s, e);
                                if f < s.len() && s[f] == 93 {  // ']'
                                    Some(
                                        (
                                            ExprV::FillTensor {
                                                fill: Loc(v as i32, span_of(d, e)),
                                                shape,
                                                data_type: None,
                                            },
                                            ws_end(s, f + 1),
                                        ),
                                    )
                                } else {
                                    None
                                }
                            }
                        },
                        None => None,
                    }
                } else {
                    None
                }
            },
            None => None,
        }
    } else {
        None
    }
}

/// A range tensor literal at `i`, trailing whitespace included.
pub open spec fn range_at(s: Seq<u8>, i: int) -> Option<(ExprV, int)> {
    let a = ws_end(s, i);
    if a < s.len() && s[a] == 91 {  // '['
        let b = ws_end(s, a + 1);
        match uint_at(s, b) {
            Some((v1, e1)) => {
                if v1 > i32::MAX {
                    None
                } else {
                    let c = ws_end(s, e1);
                    if c + 1 < s.len() && s[c] == 46 && s[c + 1] == 46 {  // '..'
                        let d = ws_end(s, c + 2);
                        match uint_at(s, d) {
                            Some((v2, e2)) => {
                                if v2 > i32::MAX {
                                    None
                                } else {
                                    let start = Loc(v1 as i32, span_of(b, e1));
                                    let stop = Loc(v2 as i32, span_of(d, e2));
                                    let t = ws_end(s, e2);
                                    if t < s.len() && s[t] == 59 {  // ';' then a step
                                        let u = ws_end(s, t + 1);
                                        match uint_at(s, u) {
                                            Some((v3, e3)) => {
                                                if v3 > i32::MAX {
                                                    None
                                                } else {
                                                    let f = ws_end(s, e3);
                                                    if f < s.len() && s[f] == 93 {  // ']'
                                                        Some(
                                                            (
                                                                ExprV::RangeTensor {
                                                                    start,
                                                                    stop,
                                                                    step: Some(
                                                                        Loc(
                                                                            v3 as i32,
                                                                            span_of(u, e3),
                                                                        ),
                                                                    ),
                                                                },
                                                                ws_end(s, f + 1),
                                                            ),
                                                        )
                                                    } else {
                                                        None
                                                    }
                                                }
                                            },
                                            None => None,
                                        }
                                    } else if t < s.len() && s[t] == 93 {  // ']'
                                        Some(
                                            (
                                                ExprV::RangeTensor { start, stop, step: None },
                                                ws_end(s, t + 1),
                                            ),
                                        )
                                    } else {
                                        None
                                    }
                                }
                            },
                            None => None,
                        }
                    } else {
                        None
                    }
                }
            },
            None => None,
        }
    } else {
        None
    }
}

/// An identifier at `i`: no padding on either side.
pub open spec fn ident_at(s: Seq<u8>, i: int) -> Option<(Seq<u8>, int)> {
    if 0 <= i < s.len() && is_ident_start(s[i]) {
        let j = ident_end(s, i + 1);
        Some((s.subrange(i, j), j))
    } else {
        None
    }
}

/// An atom: fill tensor, else range tensor, else identifier, in that order.
/// Its span is exactly the bytes the winning alternative consumed.
pub open spec fn atom_at(s: Seq<u8>, i: int) -> Option<(Loc<ExprV>, int)> {
    match fill_at(s, i) {
        Some((e, j)) => Some((Loc(e, span_of(i, j)), j)),
        None => match range_at(s, i) {
            Some((e, j)) => Some((Loc(e, span_of(i, j)), j)),
            None => match ident_at(s, i) {
                Some((name, j)) => Some((Loc(ExprV::Variable(name), span_of(i, j)), j)),
                None => None,
            },
        },
    }
}

/// The multiplication chain after a first atom, folded left-associatively.
/// The span of a folded node is the union of its operands' spans; the span
/// of the operator covers the `*` and its surrounding whitespace.
pub open spec fn expr_more(s: Seq<u8>, pos: int, acc: Loc<ExprV>) -> (Loc<ExprV>, int)
    decreases s.len() - pos,
{
    let t = ws_end(s, pos);
    if t < s.len() && s[t] == 42 {  // '*'
        let u = ws_end(s, t + 1);
        match atom_at(s, u) {
            Some((rhs, q)) => {
                if pos < q <= s.len() {
                    let folded = Loc(
                        ExprV::Binary {
                            lhs: Box::new(acc),
                            rhs: Box::new(rhs),
                            op: Loc(BinaryOp::Mul, span_of(pos, u)),
                        },
                        Span { start: acc.1.start, end: rhs.1.end },
                    );
                    expr_more(s, q, folded)
                } else {
                    (acc, pos)
                }
            },
            None => (acc, pos),
        }
    } else {
        (acc, pos)
    }
}

/// An expression: a left-associative chain of atoms separated by `*`.
pub open spec fn expr_at(s: Seq<u8>, i: int) -> Option<(Loc<ExprV>, int)> {
    match atom_at(s, i) {
        Some((a, p)) => Some(expr_more(s, p, a)),
        None => None,
    }
}

/// An assignment statement at `i`: `ident ws = ws expr ws ; ws`.
pub open spec fn assign_at(s: Seq<u8>, i: int) -> Option<(Loc<StmtV>, int)> {
    match ident_at(s, i) {
        Some((name, j)) => {
            let t = ws_end(s, j);
            if t < s.len() && s[t] == 61 {  // '='
                match expr_at(s, ws_end(s, t + 1)) {
                    Some((e, p)) => {
                        let t2 = ws_end(s, p);
                        if t2 < s.len() && s[t2] == 59 {  // ';'
                            let k = ws_end(s, t2 + 1);
                            Some(
                                (
                                    Loc(
                                        StmtV::Assign { lhs: Loc(name, span_of(i, j)), rhs: e },
                                        span_of(i, k),
                                    ),
                                    k,
                                ),
                            )
                        } else {
                            None
                        }
                    },
                    None => None,
                }
            } else {
                None
            }
        },
        None => None,
    }
}

/// A statement: an expression statement, else an assignment.
pub open spec fn stmt_at(s: Seq<u8>, i: int) -> Option<(Loc<StmtV>, int)> {
    match expr_at(s, i) {
        Some((e, p)) => {
            let t = ws_end(s, p);
            if t < s.len() && s[t] == 59 {  // ';'
                let j = ws_end(s, t + 1);
                Some((Loc(StmtV::Expr(e), span_of(i, j)), j))
            } else {
                assign_at(s, i)
            }
        },
        None => assign_at(s, i),
    }
}

/// As many statements as can be read from `i`, and where they stop.
pub open spec fn stmts_at(s: Seq<u8>, i: int) -> (Seq<Loc<StmtV>>, int)
    decreases s.len() - i,
{
    match stmt_at(s, i) {
        Some((st, j)) => {
            if i < j <= s.len() {
                let (rest, k) = stmts_at(s, j);
                (seq![st] + rest, k)
            } else {
                (seq![st], j)
            }
        },
        None => (Seq::empty(), i),
    }
}

/// The whole input as a program. The parse fails, with the offset the
/// statement list stopped at, unless the statements consume every byte.
pub open spec fn spec_parse(s: Seq<u8>) -> Result<Loc<ProgramV>, ParseError> {
    let (stmts, n) = stmts_at(s, 0);
    if n == s.len() {
        Ok(Loc(ProgramV { stmts }, span_of(0, n)))
    } else {
        Err(ParseError { pos: n as usize })
    }
}

// ---------------------------------------------------------------------------
// Bounds of the spec parser
// ---------------------------------------------------------------------------

pub proof fn lemma_ws_end(s: Seq<u8>, i: int)
    requires
        0 <= i <= s.len(),
    ensures
        i <= ws_end(s, i) <= s.len(),
    decreases s.len() - i,
{
    if i < s.len() && is_ws(s[i]) {
        lemma_ws_end(s, i + 1);
    }
}

pub proof fn lemma_digits_end(s: Seq<u8>, i: int)
    requires
        0 <= i <= s.len(),
    ensures
        i <= digits_end(s, i) <= s.len(),
        forall|k: int| i <= k < digits_end(s, i) ==> is_digit(#[trigger] s[k]),
    decreases s.len() - i,
{
    if i < s.len() && is_digit(s[i]) {
        lemma_digits_end(s, i + 1);
    }
}

pub proof fn lemma_ident_end(s: Seq<u8>, i: int)
    requires
        0 <= i <= s.len(),
    ensures
        i <= ident_end(s, i) <= s.len(),
        forall|k: int| i <= k < ident_end(s, i) ==> is_ident_cont(#[trigger] s[k]),
    decreases s.len() - i,
{
    if i < s.len() && is_ident_cont(s[i]) {
        lemma_ident_end(s, i + 1);
    }
}

pub proof fn lemma_digits_val_nonneg(s: Seq<u8>, i: int, j: int)
    requires
        forall|k: int| i <= k < j ==> is_digit(#[trigger] s[k]),
    ensures
        digits_val(s, i, j) >= 0,
    decreases j - i,
{
    if i < j {
        lemma_digits_val_nonneg(s, i, j - 1);
    }
}

pub proof fn lemma_uint_at(s: Seq<u8>, i: int)
    requires
        0 <= i <= s.len(),
    ensures
        match uint_at(s, i) {
            Some((v, e)) => i < e <= s.len() && v >= 0,
            None => true,
        },
{
    if i < s.len() && is_digit(s[i]) && s[i] != 48 {
        lemma_digits_end(s, i);
        lemma_digits_val_nonneg(s, i, digits_end(s, i));
        lemma_digits_end(s, i + 1);
        assert(digits_end(s, i) == digits_end(s, i + 1));
    }
}

pub proof fn lemma_shape_more(s: Seq<u8>, pos: int, acc: Seq<Loc<usize>>)
    requires
        0 <= pos <= s.len(),
    ensures
        match shape_more(s, pos, acc) {
            Some((sh, p)) => pos <= p <= s.len() && sh.len() >= acc.len(),
            None => true,
        },
    decreases s.len() - pos,
{
    let t = ws_end(s, pos);
    lemma_ws_end(s, pos);
    if t < s.len() && s[t] == 120 {
        let u = ws_end(s, t + 1);
        lemma_ws_end(s, t + 1);
        lemma_uint_at(s, u);
        match uint_at(s, u) {
            Some((v, e)) => {
                if v <= usize::MAX && pos < e <= s.len() {
                    lemma_shape_more(s, e, acc.push(Loc(v as usize, span_of(u, e))));
                }
            },
            None => {},
        }
    }
}

pub proof fn lemma_fill_at(s: Seq<u8>, i: int)
    requires
        0 <= i <= s.len(),
    ensures
        match fill_at(s, i) {
            Some((e, j)) => i < j <= s.len(),
            None => true,
        },
{
    let a = ws_end(s, i);
    lemma_ws_end(s, i);
    if a < s.len() && s[a] == 91 {
        lemma_ws_end(s, a + 1);
        lemma_uint_at(s, ws_end(s, a + 1));
        lemma_shape_more_from_items(s, ws_end(s, a + 1));
        match shape_items(s, ws_end(s, a + 1)) {
            Some((shape, p)) => {
                let c = ws_end(s, p);
                lemma_ws_end(s, p);
                if c < s.len() && s[c] == 59 {
                    let d = ws_end(s, c + 1);
                    lemma_ws_end(s, c + 1);
                    lemma_uint_at(s, d);
                    match uint_at(s, d) {
                        Some((v, e)) => {
                            if v <= i32::MAX {
                                let f = ws_end(s, e);
                                lemma_ws_end(s, e);
                                if f < s.len() && s[f] == 93 {
                                    lemma_ws_end(s, f + 1);
                                }
                            }
                        },
                        None => {},
                    }
                }
            },
            None => {},
        }
    }
}

/// Bounds of a whole shape list.
pub proof fn lemma_shape_more_from_items(s: Seq<u8>, i: int)
    requires
        0 <= i <= s.len(),
    ensures
        match shape_items(s, i) {
            Some((sh, p)) => i <= p <= s.len() && sh.len() >= 1,
            None => true,
        },
{
    lemma_uint_at(s, i);
    match uint_at(s, i) {
        Some((v, e)) => {
            if v <= usize::MAX {
                lemma_shape_more(s, e, seq![Loc(v as usize, span_of(i, e))]);
            }
        },
        None => {},
    }
}

pub proof fn lemma_range_at(s: Seq<u8>, i: int)
    requires
        0 <= i <= s.len(),
    ensures
        match range_at(s, i) {
            Some((e, j)) => i < j <= s.len(),
            None => true,
        },
{
    let a = ws_end(s, i);
    lemma_ws_end(s, i);
    if a < s.len() && s[a] == 91 {
        let b = ws_end(s, a + 1);
        lemma_ws_end(s, a + 1);
        lemma_uint_at(s, b);
        match uint_at(s, b) {
            Some((v1, e1)) => {
                if v1 <= i32::MAX {
                    let c = ws_end(s, e1);
                    lemma_ws_end(s, e1);
                    if c + 1 < s.len() && s[c] == 46 && s[c + 1] == 46 {
                        let d = ws_end(s, c + 2);
                        lemma_ws_end(s, c + 2);
                        lemma_uint_at(s, d);
                        match uint_at(s, d) {
                            Some((v2, e2)) => {
                                if v2 <= i32::MAX {
                                    let t = ws_end(s, e2);
                                    lemma_ws_end(s, e2);
                                    if t < s.len() && s[t] == 59 {
                                        let u = ws_end(s, t + 1);
                                        lemma_ws_end(s, t + 1);
                                        lemma_uint_at(s, u);
                                        match uint_at(s, u) {
                                            Some((v3, e3)) => {
                                                if v3 <= i32::MAX {
                                                    let f = ws_end(s, e3);
                                                    lemma_ws_end(s, e3);
                                                    if f < s.len() && s[f] == 93 {
                                                        lemma_ws_end(s, f + 1);
                                                    }
                                                }
                                            },
                                            None => {},
                                        }
                                    } else if t < s.len() && s[t] == 93 {
                                        lemma_ws_end(s, t + 1);
                                    }
                                }
                            },
                            None => {},
                        }
                    }
                }
            },
            None => {},
        }
    }
}

pub proof fn lemma_ident_at(s: Seq<u8>, i: int)
    requires
        0 <= i <= s.len(),
    ensures
        match ident_at(s, i) {
            Some((name, j)) => i < j <= s.len() && name.len() == j - i,
            None => true,
        },
{
    if i < s.len() && is_ident_start(s[i]) {
        lemma_ident_end(s, i + 1);
    }
}

pub proof fn lemma_atom_at(s: Seq<u8>, i: int)
    requires
        0 <= i <= s.len(),
    ensures
        match atom_at(s, i) {
            Some((a, j)) => i < j <= s.len(),
            None => true,
        },
{
    lemma_fill_at(s, i);
    lemma_range_at(s, i);
    lemma_ident_at(s, i);
}

pub proof fn lemma_expr_more(s: Seq<u8>, pos: int, acc: Loc<ExprV>)
    requires
        0 <= pos <= s.len(),
    ensures
        pos <= expr_more(s, pos, acc).1 <= s.len(),
    decreases s.len() - pos,
{
    let t = ws_end(s, pos);
    lemma_ws_end(s, pos);
    if t < s.len() && s[t] == 42 {
        let u = ws_end(s, t + 1);
        lemma_ws_end(s, t + 1);
        lemma_atom_at(s, u);
        match atom_at(s, u) {
            Some((rhs, q)) => {
                if pos < q <= s.len() {
                    let folded = Loc(
                        ExprV::Binary {
                            lhs: Box::new(acc),
                            rhs: Box::new(rhs),
                            op: Loc(BinaryOp::Mul, span_of(pos, u)),
                        },
                        Span { start: acc.1.start, end: rhs.1.end },
                    );
                    lemma_expr_more(s, q, folded);
                }
            },
            None => {},
        }
    }
}

pub proof fn lemma_expr_at(s: Seq<u8>, i: int)
    requires
        0 <= i <= s.len(),
    ensures
        match expr_at(s, i) {
            Some((e, p)) => i < p <= s.len(),
            None => true,
        },
{
    lemma_atom_at(s, i);
    match atom_at(s, i) {
        Some((a, p)) => {
            lemma_expr_more(s, p, a);
        },
        None => {},
    }
}

pub proof fn lemma_assign_at(s: Seq<u8>, i: int)
    requires
        0 <= i <= s.len(),
    ensures
        match assign_at(s, i) {
            Some((st, j)) => i < j <= s.len(),
            None => true,
        },
{
    lemma_ident_at(s, i);
    match ident_at(s, i) {
        Some((name, j)) => {
            let t = ws_end(s, j);
            lemma_ws_end(s, j);
            if t < s.len() && s[t] == 61 {
                let u = ws_end(s, t + 1);
                lemma_ws_end(s, t + 1);
                lemma_expr_at(s, u);
                match expr_at(s, u) {
                    Some((e, p)) => {
                        let t2 = ws_end(s, p);
                        lemma_ws_end(s, p);
                        if t2 < s.len() && s[t2] == 59 {
                            lemma_ws_end(s, t2 + 1);
                        }
                    },
                    None => {},
                }
            }
        },
        None => {},
    }
}

pub proof fn lemma_stmt_at(s: Seq<u8>, i: int)
    requires
        0 <= i <= s.len(),
    ensures
        match stmt_at(s, i) {
            Some((st, j)) => i < j <= s.len(),
            None => true,
        },
{
    lemma_expr_at(s, i);
    lemma_assign_at(s, i);
    match expr_at(s, i) {
        Some((e, p)) => {
            let t = ws_end(s, p);
            lemma_ws_end(s, p);
            if t < s.len() && s[t] == 59 {
                lemma_ws_end(s, t + 1);
            }
        },
        None => {},
    }
}

pub proof fn lemma_stmts_at(s: Seq<u8>, i: int)
    requires
        0 <= i <= s.len(),
    ensures
        i <= stmts_at(s, i).1 <= s.len(),
    decreases s.len() - i,
{
    lemma_stmt_at(s, i);
    match stmt_at(s, i) {
        Some((st, j)) => {
            lemma_stmts_at(s, j);
        },
        None => {},
    }
}

// ---------------------------------------------------------------------------
// Executable scanners
// ---------------------------------------------------------------------------

fn ws_byte(b: u8) -> (r: bool)
    ensures
        r == is_ws(b),
{
    b == 32 || b == 9 || b == 10 || b == 12 || b == 13
}

fn digit_byte(b: u8) -> (r: bool)
    ensures
        r == is_digit(b),
{
    48 <= b && b <= 57
}

fn ident_start_byte(b: u8) -> (r: bool)
    ensures
        r == is_ident_start(b),
{
    (65 <= b && b <= 90) || (97 <= b && b <= 122) || b == 95
}

fn ident_cont_byte(b: u8) -> (r: bool)
    ensures
        r == is_ident_cont(b),
{
    ident_start_byte(b) || digit_byte(b)
}

/// Skips whitespace from `i`.
fn ws_to(s: &Vec<u8>, i: usize) -> (r: usize)
    requires
        i <= s@.len(),
    ensures
        r as int == ws_end(s@, i as int),
        i <= r <= s@.len(),
{
    let mut j = i;
    while j < s.len() && ws_byte(s[j])
        invariant
            i <= j <= s@.len(),
            ws_end(s@, i as int) == ws_end(s@, j as int),
        decreases s@.len() - j,
    {
        j = j + 1;
    }
    j
}

/// Reads an unsigned integer literal. On a match, the value is `None`
/// when it exceeds `u64::MAX`.
fn scan_uint(s: &Vec<u8>, i: usize) -> (r: Option<(Option<u64>, usize)>)
    requires
        i <= s@.len(),
    ensures
        match uint_at(s@, i as int) {
            Some((v, e)) => {
                &&& r matches Some((ov, ee))
                &&& ee as int == e
                &&& i < ee <= s@.len()
                &&& (match ov {
                    Some(x) => x == v,
                    None => v > u64::MAX,
                })
            },
            None => r is None,
        },
{
    proof {
        lemma_uint_at(s@, i as int);
    }
    if !(i < s.len() && digit_byte(s[i])) {
        return None;
    }
    if s[i] == 48 {
        return Some((Some(0), i + 1));
    }
    let ghost gend = digits_end(s@, i as int);
    proof {
        lemma_digits_end(s@, i as int);
    }
    let mut j = i;
    let mut acc: Option<u64> = Some(0);
    while j < s.len() && digit_byte(s[j])
        invariant
            i <= j <= s@.len(),
            digits_end(s@, i as int) == digits_end(s@, j as int),
            forall|k: int| i <= k < j ==> is_digit(#[trigger] s@[k]),
            match acc {
                Some(a) => a == digits_val(s@, i as int, j as int),
                None => digits_val(s@, i as int, j as int) > u64::MAX,
            },
        decreases s@.len() - j,
    {
        let d: u64 = (s[j] - 48) as u64;
        acc = match acc {
            Some(a) => {
                let q: u64 = (u64::MAX - d) / 10;
                proof {
                    lemma_mul_10_bound(a as int, q as int, d as int, u64::MAX as int);
                }
                if a <= q {
                    Some(a * 10 + d)
                } else {
                    None
                }
            },
            None => None,
        };
        j = j + 1;
    }
    Some((acc, j))
}

/// `a <= (m - d) / 10` decides whether `a * 10 + d` stays within `m`.
proof fn lemma_mul_10_bound(a: int, q: int, d: int, m: int)
    requires
        a >= 0,
        0 <= d <= 9,
        d <= m,
        q == (m - d) / 10,
    ensures
        a <= q ==> a * 10 + d <= m,
        a > q ==> a * 10 + d > m,
{
    assert((m - d) == 10 * q + (m - d) % 10 && 0 <= (m - d) % 10 < 10) by {
        vstd::arithmetic::div_mod::lemma_fundamental_div_mod(m - d, 10);
    }
    if a <= q {
        assert(a * 10 <= q * 10) by (nonlinear_arith)
            requires a <= q;
    } else {
        assert(a * 10 >= (q + 1) * 10) by (nonlinear_arith)
            requires a >= q + 1;
    }
}

/// Reads an identifier, returning its bytes.
fn scan_ident(s: &Vec<u8>, i: usize) -> (r: Option<(Vec<u8>, usize)>)
    requires
        i <= s@.len(),
    ensures
        match ident_at(s@, i as int) {
            Some((name, e)) => {
                &&& r matches Some((nm, ee))
                &&& ee as int == e
                &&& i < ee <= s@.len()
                &&& nm@ == name
            },
            None => r is None,
        },
{
    proof {
        lemma_ident_at(s@, i as int);
    }
    if !(i < s.len() && ident_start_byte(s[i])) {
        return None;
    }
    let mut j = i + 1;
    proof {
        lemma_ident_end(s@, i as int + 1);
    }
    while j < s.len() && ident_cont_byte(s[j])
        invariant
            i + 1 <= j <= s@.len(),
            ident_end(s@, i as int + 1) == ident_end(s@, j as int),
        decreases s@.len() - j,
    {
        j = j + 1;
    }
    let mut name: Vec<u8> = Vec::new();
    let mut k = i;
    while k < j
        invariant
            i <= k <= j <= s@.len(),
            name@ == s@.subrange(i as int, k as int),
        decreases j - k,
    {
        name.push(s[k]);
        proof {
            assert(name@ =~= s@.subrange(i as int, k as int + 1));
        }
        k = k + 1;
    }
    Some((name, j))
}

// ---------------------------------------------------------------------------
// Executable parser
// ---------------------------------------------------------------------------

/// The shape items after the first, pushed onto `shape`; yields the offset
/// the list stops at, or nothing when a dimension does not fit `usize`.
fn parse_shape_more(s: &Vec<u8>, pos: usize, shape: &mut Vec<Loc<usize>>) -> (r: Option<usize>)
    requires
        pos <= s@.len(),
    ensures
        match shape_more(s@, pos as int, old(shape)@) {
            Some((sh, p)) => {
                &&& r matches Some(pp)
                &&& pp as int == p
                &&& pos <= pp <= s@.len()
                &&& final(shape)@ == sh
            },
            None => r is None,
        },
    decreases s@.len() - pos,
{
    proof {
        lemma_shape_more(s@, pos as int, shape@);
    }
    let t = ws_to(s, pos);
    if t < s.len() && s[t] == 120 {
        let u = ws_to(s, t + 1);
        match scan_uint(s, u) {
            Some((ov, e)) => {
                let x = match ov {
                    Some(x) => x,
                    None => {
                        return None;
                    },
                };
                if x > usize::MAX as u64 {
                    return None;
                }
                shape.push(Loc(x as usize, Span { start: u, end: e }));
                parse_shape_more(s, e, shape)
            },
            None => Some(pos),
        }
    } else {
        Some(pos)
    }
}

/// A fill tensor at `i`.
fn parse_fill(s: &Vec<u8>, i: usize) -> (r: Option<(Expr, usize)>)
    requires
        i <= s@.len(),
    ensures
        match fill_at(s@, i as int) {
            Some((ev, j)) => {
                &&& r matches Some(p)
                &&& p.1 as int == j
                &&& i < p.1 <= s@.len()
                &&& view_expr(p.0) == ev
            },
            None => r is None,
        },
{
    proof {
        lemma_fill_at(s@, i as int);
    }
    let a = ws_to(s, i);
    if !(a < s.len() && s[a] == 91) {
        return None;
    }
    let b = ws_to(s, a + 1);
    let mut shape: Vec<Loc<usize>> = Vec::new();
    let mut pos: usize = b;
    match scan_uint(s, b) {
        None => {
            return None;
        },
        Some((ov, e)) => {
            let x = match ov {
                Some(x) => x,
                None => {
                    return None;
                },
            };
            if x > usize::MAX as u64 {
                return None;
            }
            shape.push(Loc(x as usize, Span { start: b, end: e }));
            match parse_shape_more(s, e, &mut shape) {
                Some(p2) => {
                    pos = p2;
                },
                None => {
                    return None;
                },
            }
        },
    }
    let c = ws_to(s, pos);
    if !(c < s.len() && s[c] == 59) {
        return None;
    }
    let d = ws_to(s, c + 1);
    match scan_uint(s, d) {
        None => None,
        Some((ov, e)) => {
            let x = match ov {
                Some(x) => x,
                None => {
                    return None;
                },
            };
            if x > i32::MAX as u64 {
                return None;
            }
            let f = ws_to(s, e);
            if f < s.len() && s[f] == 93 {
                let j = ws_to(s, f + 1);
                Some(
                    (
                        Expr::FillTensor {
                            fill: Loc(x as i32, Span { start: d, end: e }),
                            shape,
                            data_type: None,
                        },
                        j,
                    ),
                )
            } else {
                None
            }
        },
    }
}

/// A range tensor at `i`.
fn parse_range(s: &Vec<u8>, i: usize) -> (r: Option<(Expr, usize)>)
    requires
        i <= s@.len(),
    ensures
        match range_at(s@, i as int) {
            Some((ev, j)) => {
                &&& r matches Some(p)
                &&& p.1 as int == j
                &&& i < p.1 <= s@.len()
                &&& view_expr(p.0) == ev
            },
            None => r is None,
        },
{
    proof {
        lemma_range_at(s@, i as int);
    }
    let a = ws_to(s, i);
    if !(a < s.len() && s[a] == 91) {
        return None;
    }
    let b = ws_to(s, a + 1);
    let (ov1, e1) = match scan_uint(s, b) {
        Some(p) => p,
        None => {
            return None;
        },
    };
    let x1 = match ov1 {
        Some(x) => x,
        None => {
            return None;
        },
    };
    if x1 > i32::MAX as u64 {
        return None;
    }
    let c = ws_to(s, e1);
    if !(c < s.len() && c + 1 < s.len() && s[c] == 46 && s[c + 1] == 46) {
        return None;
    }
    let d = ws_to(s, c + 2);
    let (ov2, e2) = match scan_uint(s, d) {
        Some(p) => p,
        None => {
            return None;
        },
    };
    let x2 = match ov2 {
        Some(x) => x,
        None => {
            return None;
        },
    };
    if x2 > i32::MAX as u64 {
        return None;
    }
    let start = Loc(x1 as i32, Span { start: b, end: e1 });
    let stop = Loc(x2 as i32, Span { start: d, end: e2 });
    let t = ws_to(s, e2);
    if t < s.len() && s[t] == 59 {
        let u = ws_to(s, t + 1);
        let (ov3, e3) = match scan_uint(s, u) {
            Some(p) => p,
            None => {
                return None;
            },
        };
        let x3 = match ov3 {
            Some(x) => x,
            None => {
                return None;
            },
        };
        if x3 > i32::MAX as u64 {
            return None;
        }
        let f = ws_to(s, e3);
        if f < s.len() && s[f] == 93 {
            let j = ws_to(s, f + 1);
            Some(
                (
                    Expr::RangeTensor {
                        start,
                        stop,
                        step: Some(Loc(x3 as i32, Span { start: u, end: e3 })),
                    },
                    j,
                ),
            )
        } else {
            None
        }
    } else if t < s.len() && s[t] == 93 {
        let j = ws_to(s, t + 1);
        Some((Expr::RangeTensor { start, stop, step: None }, j))
    } else {
        None
    }
}

/// An atom at `i`: fill tensor, else range tensor, else identifier.
fn parse_atom(s: &Vec<u8>, i: usize) -> (r: Option<(Loc<Expr>, usize)>)
    requires
        i <= s@.len(),
    ensures
        match atom_at(s@, i as int) {
            Some((av, j)) => {
                &&& r matches Some(p)
                &&& p.1 as int == j
                &&& i < p.1 <= s@.len()
                &&& view_lexpr(p.0) == av
            },
            None => r is None,
        },
{
    match parse_fill(s, i) {
        Some((e, j)) => Some((Loc(e, Span { start: i, end: j }), j)),
        None => match parse_range(s, i) {
            Some((e, j)) => Some((Loc(e, Span { start: i, end: j }), j)),
            None => match scan_ident(s, i) {
                Some((name, j)) => Some(
                    (Loc(Expr::Variable(name), Span { start: i, end: j }), j),
                ),
                None => None,
            },
        },
    }
}

/// The multiplication chain after a first atom, folded left-associatively.
fn parse_expr_more(s: &Vec<u8>, pos: usize, acc: Loc<Expr>) -> (r: (Loc<Expr>, usize))
    requires
        pos <= s@.len(),
    ensures
        r.1 as int == expr_more(s@, pos as int, view_lexpr(acc)).1,
        view_lexpr(r.0) == expr_more(s@, pos as int, view_lexpr(acc)).0,
        pos <= r.1 <= s@.len(),
    decreases s@.len() - pos,
{
    proof {
        lemma_expr_more(s@, pos as int, view_lexpr(acc));
    }
    let t = ws_to(s, pos);
    if t < s.len() && s[t] == 42 {
        let u = ws_to(s, t + 1);
        match parse_atom(s, u) {
            Some((rhs, q)) => {
                let start = acc.1.start;
                let end = rhs.1.end;
                let folded = Loc(
                    Expr::Binary {
                        lhs: Box::new(acc),
                        rhs: Box::new(rhs),
                        op: Loc(BinaryOp::Mul, Span { start: pos, end: u }),
                    },
                    Span { start, end },
                );
                parse_expr_more(s, q, folded)
            },
            None => (acc, pos),
        }
    } else {
        (acc, pos)
    }
}

/// An expression at `i`.
fn parse_expr(s: &Vec<u8>, i: usize) -> (r: Option<(Loc<Expr>, usize)>)
    requires
        i <= s@.len(),
    ensures
        match expr_at(s@, i as int) {
            Some((ev, p)) => {
                &&& r matches Some(x)
                &&& x.1 as int == p
                &&& i < x.1 <= s@.len()
                &&& view_lexpr(x.0) == ev
            },
            None => r is None,
        },
{
    match parse_atom(s, i) {
        Some((a, p)) => Some(parse_expr_more(s, p, a)),
        None => None,
    }
}

/// An assignment statement at `i`.
fn parse_assign(s: &Vec<u8>, i: usize) -> (r: Option<(Loc<Stmt>, usize)>)
    requires
        i <= s@.len(),
    ensures
        match assign_at(s@, i as int) {
            Some((sv, j)) => {
                &&& r matches Some(p)
                &&& p.1 as int == j
                &&& i < p.1 <= s@.len()
                &&& view_lstmt(p.0) == sv
            },
            None => r is None,
        },
{
    let (name, j) = match scan_ident(s, i) {
        Some(p) => p,
        None => {
            return None;
        },
    };
    let t = ws_to(s, j);
    if !(t < s.len() && s[t] == 61) {
        return None;
    }
    let u = ws_to(s, t + 1);
    let (e, p) = match parse_expr(s, u) {
        Some(x) => x,
        None => {
            return None;
        },
    };
    let t2 = ws_to(s, p);
    if t2 < s.len() && s[t2] == 59 {
        let k = ws_to(s, t2 + 1);
        Some(
            (
                Loc(
                    Stmt::Assign { lhs: Loc(name, Span { start: i, end: j }), rhs: e },
                    Span { start: i, end: k },
                ),
                k,
            ),
        )
    } else {
        None
    }
}

/// A statement at `i`: an expression statement, else an assignment.
fn parse_stmt(s: &Vec<u8>, i: usize) -> (r: Option<(Loc<Stmt>, usize)>)
    requires
        i <= s@.len(),
    ensures
        match stmt_at(s@, i as int) {
            Some((sv, j)) => {
                &&& r matches Some(p)
                &&& p.1 as int == j
                &&& i < p.1 <= s@.len()
                &&& view_lstmt(p.0) == sv
            },
            None => r is None,
        },
{
    proof {
        lemma_stmt_at(s@, i as int);
    }
    match parse_expr(s, i) {
        Some((e, p)) => {
            let t = ws_to(s, p);
            if t < s.len() && s[t] == 59 {
                let j = ws_to(s, t + 1);
                Some((Loc(Stmt::Expr(e), Span { start: i, end: j }), j))
            } else {
                parse_assign(s, i)
            }
        },
        None => parse_assign(s, i),
    }
}

/// All statements from `i`, appended to `stmts`; yields where they stop.
fn parse_stmts(s: &Vec<u8>, i: usize, stmts: &mut Vec<Loc<Stmt>>) -> (r: usize)
    requires
        i <= s@.len(),
    ensures
        r as int == stmts_at(s@, i as int).1,
        view_stmts(final(stmts)@) == view_stmts(old(stmts)@) + stmts_at(s@, i as int).0,
        i <= r <= s@.len(),
    decreases s@.len() - i,
{
    proof {
        lemma_stmts_at(s@, i as int);
    }
    match parse_stmt(s, i) {
        Some((st, j)) => {
            let ghost stv = view_lstmt(st);
            let ghost before = view_stmts(stmts@);
            stmts.push(st);
            proof {
                assert(view_stmts(stmts@) =~= before.push(stv));
            }
            let r = parse_stmts(s, j, stmts);
            proof {
                assert(view_stmts(stmts@) =~= before + (seq![stv] + stmts_at(s@, j as int).0));
            }
            r
        },
        None => {
            proof {
                assert(view_stmts(stmts@) =~= view_stmts(stmts@) + Seq::<Loc<StmtV>>::empty());
            }
            i
        },
    }
}

/// Parses one whole program. Yields exactly the value of [`spec_parse`] on
/// the input's bytes: the spanned program when the grammar consumes every
/// byte, and otherwise the offset at which reading statements stopped.
pub fn parse(code: &str) -> (r: Result<Loc<Program>, ParseError>)
    ensures
        match spec_parse(code.spec_bytes()) {
            Ok(lp) => {
                &&& r matches Ok(p)
                &&& Loc(view_program(p.0), p.1) == lp
            },
            Err(pe) => r matches Err(q) && q == pe,
        },
{
    let v: Vec<u8> = vstd::slice::slice_to_vec(code.as_bytes());
    let mut stmts: Vec<Loc<Stmt>> = Vec::new();
    let n = parse_stmts(&v, 0, &mut stmts);
    proof {
        assert(view_stmts(stmts@) =~= stmts_at(v@, 0).0);
    }
    if n == v.len() {
        Ok(Loc(Program { stmts }, Span { start: 0, end: n }))
    } else {
        Err(ParseError { pos: n })
    }
}

// ---------------------------------------------------------------------------
// What every parsed program looks like
// ---------------------------------------------------------------------------

/// The invariants of everything the parser can produce: literals are
/// nonnegative and carry no data type, identifiers have identifier shape,
/// every operator is a multiplication, and the right operand of a binary
/// node is an atom, so chains lean left.
pub open spec fn parsed_lexpr_wf(e: Loc<ExprV>) -> bool
    decreases e,
{
    match e.0 {
        ExprV::FillTensor { fill, shape, data_type } => fill.0 >= 0 && data_type is None
            && shape.len() >= 1,
        ExprV::RangeTensor { start, stop, step } => start.0 >= 0 && stop.0 >= 0 && match step {
            Some(l) => l.0 >= 0,
            None => true,
        },
        ExprV::Variable(n) => crate::compiler::name_ok(n),
        ExprV::Binary { lhs, rhs, op } => {
            &&& op.0 == BinaryOp::Mul
            &&& parsed_lexpr_wf(*lhs)
            &&& parsed_lexpr_wf(*rhs)
            &&& !((*rhs).0 is Binary)
        },
    }
}

pub open spec fn parsed_lstmt_wf(st: Loc<StmtV>) -> bool {
    match st.0 {
        StmtV::Expr(e) => parsed_lexpr_wf(e),
        StmtV::Assign { lhs, rhs } => crate::compiler::name_ok(lhs.0) && parsed_lexpr_wf(rhs),
    }
}

pub open spec fn parsed_stmts_wf(stmts: Seq<Loc<StmtV>>) -> bool {
    forall|k: int| 0 <= k < stmts.len() ==> parsed_lstmt_wf(#[trigger] stmts[k])
}

proof fn lemma_ident_wf(s: Seq<u8>, i: int)
    requires
        0 <= i <= s.len(),
    ensures
        match ident_at(s, i) {
            Some((name, j)) => crate::compiler::name_ok(name),
            None => true,
        },
{
    if i < s.len() && is_ident_start(s[i]) {
        lemma_ident_end(s, i + 1);
        let j = ident_end(s, i + 1);
        let name = s.subrange(i, j);
        assert(name[0] == s[i]);
        assert(forall|k: int| 1 <= k < name.len() ==> name[k] == #[trigger] s[i + k]);
    }
}

proof fn lemma_fill_wf(s: Seq<u8>, i: int)
    requires
        0 <= i <= s.len(),
    ensures
        match fill_at(s, i) {
            Some((ev, j)) => parsed_lexpr_wf(Loc(ev, span_of(i, j))),
            None => true,
        },
{
    let a = ws_end(s, i);
    lemma_ws_end(s, i);
    if a < s.len() && s[a] == 91 {
        lemma_ws_end(s, a + 1);
        lemma_shape_more_from_items(s, ws_end(s, a + 1));
        match shape_items(s, ws_end(s, a + 1)) {
            Some((shape, p)) => {
                let c = ws_end(s, p);
                lemma_ws_end(s, p);
                if c < s.len() && s[c] == 59 {
                    let d = ws_end(s, c + 1);
                    lemma_ws_end(s, c + 1);
                    lemma_uint_at(s, d);
                }
            },
            None => {},
        }
    }
}

proof fn lemma_range_wf(s: Seq<u8>, i: int)
    requires
        0 <= i <= s.len(),
    ensures
        match range_at(s, i) {
            Some((ev, j)) => parsed_lexpr_wf(Loc(ev, span_of(i, j))),
            None => true,
        },
{
    let a = ws_end(s, i);
    lemma_ws_end(s, i);
    if a < s.len() && s[a] == 91 {
        let b = ws_end(s, a + 1);
        lemma_ws_end(s, a + 1);
        lemma_uint_at(s, b);
        match uint_at(s, b) {
            Some((v1, e1)) => {
                if v1 <= i32::MAX {
                    let c = ws_end(s, e1);
                    lemma_ws_end(s, e1);
                    if c + 1 < s.len() && s[c] == 46 && s[c + 1] == 46 {
                        let d = ws_end(s, c + 2);
                        lemma_ws_end(s, c + 2);
                        lemma_uint_at(s, d);
                        match uint_at(s, d) {
                            Some((v2, e2)) => {
                                if v2 <= i32::MAX {
                                    let t = ws_end(s, e2);
                                    lemma_ws_end(s, e2);
                                    if t < s.len() && s[t] == 59 {
                                        let u = ws_end(s, t + 1);
                                        lemma_ws_end(s, t + 1);
                                        lemma_uint_at(s, u);
                                    }
                                }
                            },
                            None => {},
                        }
                    }
                }
            },
            None => {},
        }
    }
}

proof fn lemma_atom_wf(s: Seq<u8>, i: int)
    requires
        0 <= i <= s.len(),
    ensures
        match atom_at(s, i) {
            Some((a, j)) => parsed_lexpr_wf(a) && !(a.0 is Binary),
            None => true,
        },
{
    lemma_fill_wf(s, i);
    lemma_range_wf(s, i);
    lemma_ident_wf(s, i);
}

proof fn lemma_expr_more_wf(s: Seq<u8>, pos: int, acc: Loc<ExprV>)
    requires
        0 <= pos <= s.len(),
        parsed_lexpr_wf(acc),
    ensures
        parsed_lexpr_wf(expr_more(s, pos, acc).0),
    decreases s.len() - pos,
{
    let t = ws_end(s, pos);
    lemma_ws_end(s, pos);
    if t < s.len() && s[t] == 42 {
        let u = ws_end(s, t + 1);
        lemma_ws_end(s, t + 1);
        lemma_atom_at(s, u);
        lemma_atom_wf(s, u);
        match atom_at(s, u) {
            Some((rhs, q)) => {
                if pos < q <= s.len() {
                    let folded = Loc(
                        ExprV::Binary {
                            lhs: Box::new(acc),
                            rhs: Box::new(rhs),
                            op: Loc(BinaryOp::Mul, span_of(pos, u)),
                        },
                        Span { start: acc.1.start, end: rhs.1.end },
                    );
                    lemma_expr_more_wf(s, q, folded);
                }
            },
            None => {},
        }
    }
}

proof fn lemma_expr_wf(s: Seq<u8>, i: int)
    requires
        0 <= i <= s.len(),
    ensures
        match expr_at(s, i) {
            Some((e, p)) => parsed_lexpr_wf(e),
            None => true,
        },
{
    lemma_atom_at(s, i);
    lemma_atom_wf(s, i);
    match atom_at(s, i) {
        Some((a, p)) => {
            lemma_expr_more_wf(s, p, a);
        },
        None => {},
    }
}

proof fn lemma_stmt_wf(s: Seq<u8>, i: int)
    requires
        0 <= i <= s.len(),
    ensures
        match stmt_at(s, i) {
            Some((st, j)) => parsed_lstmt_wf(st),
            None => true,
        },
{
    lemma_expr_wf(s, i);
    lemma_expr_at(s, i);
    lemma_ident_wf(s, i);
    lemma_ident_at(s, i);
    match ident_at(s, i) {
        Some((name, j)) => {
            let t = ws_end(s, j);
            lemma_ws_end(s, j);
            if t < s.len() && s[t] == 61 {
                lemma_ws_end(s, t + 1);
                lemma_expr_wf(s, ws_end(s, t + 1));
            }
        },
        None => {},
    }
}

proof fn lemma_stmts_wf(s: Seq<u8>, i: int)
    requires
        0 <= i <= s.len(),
    ensures
        parsed_stmts_wf(stmts_at(s, i).0),
    decreases s.len() - i,
{
    lemma_stmt_at(s, i);
    lemma_stmt_wf(s, i);
    match stmt_at(s, i) {
        Some((st, j)) => {
            lemma_stmts_wf(s, j);
            let (rest, k) = stmts_at(s, j);
            assert(forall|k2: int|
                1 <= k2 < stmts_at(s, i).0.len() ==> stmts_at(s, i).0[k2] == #[trigger] rest[k2
                    - 1]);
        },
        None => {},
    }
}

/// Everything a successful parse yields satisfies the parsed-program
/// invariants, only multiplies, and names only well-formed identifiers.
pub proof fn lemma_parse_wf(s: Seq<u8>)
    ensures
        match spec_parse(s) {
            Ok(lp) => {
                &&& parsed_stmts_wf(lp.0.stmts)
                &&& crate::type_checker::mul_only_stmts(lp.0.stmts)
                &&& crate::compiler::names_ok_stmts(lp.0.stmts)
            },
            Err(_) => true,
        },
{
    lemma_stmts_wf(s, 0);
    match spec_parse(s) {
        Ok(lp) => {
            assert forall|k: int| 0 <= k < lp.0.stmts.len() implies crate::type_checker::mul_only_lstmt(
                #[trigger] lp.0.stmts[k],
            ) && crate::compiler::names_ok_lstmt(lp.0.stmts[k]) by {
                lemma_wf_bridge_stmt(lp.0.stmts[k]);
            }
        },
        Err(_) => {},
    }
}

proof fn lemma_wf_bridge_stmt(st: Loc<StmtV>)
    requires
        parsed_lstmt_wf(st),
    ensures
        crate::type_checker::mul_only_lstmt(st),
        crate::compiler::names_ok_lstmt(st),
{
    match st.0 {
        StmtV::Expr(e) => {
            lemma_wf_bridge_expr(e);
        },
        StmtV::Assign { lhs, rhs } => {
            lemma_wf_bridge_expr(rhs);
        },
    }
}

proof fn lemma_wf_bridge_expr(e: Loc<ExprV>)
    requires
        parsed_lexpr_wf(e),
    ensures
        crate::type_checker::mul_only_lexpr(e),
        crate::compiler::names_ok_lexpr(e),
    decreases e,
{
    match e.0 {
        ExprV::Binary { lhs, rhs, op } => {
            lemma_wf_bridge_expr(*lhs);
            lemma_wf_bridge_expr(*rhs);
        },
        _ => {},
    }
}

// ---------------------------------------------------------------------------
// Serializing literal forms back to source
// ---------------------------------------------------------------------------

/// The serialized dimensions of a fill tensor, `x`-separated.
pub open spec fn u_dims(shape: Seq<Loc<usize>>) -> Seq<u8>
    decreases shape.len(),
{
    if shape.len() == 0 {
        Seq::empty()
    } else if shape.len() == 1 {
        crate::compiler::dec(shape[0].0 as int)
    } else {
        u_dims(shape.drop_last()) + seq![32u8, 120u8, 32u8] + crate::compiler::dec(
            shape.last().0 as int,
        )
    }
}

/// The canonical source text of an expression's literal forms.
pub open spec fn u_expr(e: Loc<ExprV>) -> Seq<u8>
    decreases e,
{
    match e.0 {
        ExprV::FillTensor { fill, shape, data_type } => seq![91u8] + u_dims(shape) + seq![
            59u8,
            32u8,
        ] + crate::compiler::dec(fill.0 as int) + seq![93u8],
        ExprV::RangeTensor { start, stop, step } => seq![91u8] + crate::compiler::dec(
            start.0 as int,
        ) + seq![46u8, 46u8] + crate::compiler::dec(stop.0 as int) + (match step {
            Some(st) => seq![59u8, 32u8] + crate::compiler::dec(st.0 as int),
            None => Seq::<u8>::empty(),
        }) + seq![93u8],
        ExprV::Variable(n) => n,
        ExprV::Binary { lhs, rhs, op } => u_expr(*lhs) + seq![32u8, 42u8, 32u8] + u_expr(*rhs),
    }
}

/// The canonical source text of a statement.
pub open spec fn u_stmt(st: Loc<StmtV>) -> Seq<u8> {
    match st.0 {
        StmtV::Expr(e) => u_expr(e) + seq![59u8],
        StmtV::Assign { lhs, rhs } => lhs.0 + seq![32u8, 61u8, 32u8] + u_expr(rhs) + seq![59u8],
    }
}

/// The canonical source text of a statement sequence, space-separated.
pub open spec fn u_stmts(stmts: Seq<Loc<StmtV>>) -> Seq<u8>
    decreases stmts.len(),
{
    if stmts.len() == 0 {
        Seq::empty()
    } else if stmts.len() == 1 {
        u_stmt(stmts[0])
    } else {
        u_stmts(stmts.drop_last()) + seq![32u8] + u_stmt(stmts.last())
    }
}

// ---------------------------------------------------------------------------
// The serialized text parses back
// ---------------------------------------------------------------------------

proof fn lemma_dec_shape(n: int)
    requires
        n >= 0,
    ensures
        crate::compiler::dec(n).len() >= 1,
        forall|i: int|
            0 <= i < crate::compiler::dec(n).len() ==> is_digit(
                #[trigger] crate::compiler::dec(n)[i],
            ),
        n > 0 ==> crate::compiler::dec(n)[0] != 48,
        n < 10 ==> crate::compiler::dec(n).len() == 1,
    decreases n,
{
    if n >= 10 {
        lemma_dec_shape(n / 10);
    }
}

proof fn lemma_digits_end_exact(s: Seq<u8>, i: int, j: int)
    requires
        0 <= i <= j <= s.len(),
        forall|k: int| i <= k < j ==> is_digit(#[trigger] s[k]),
        j == s.len() || !is_digit(s[j]),
    ensures
        digits_end(s, i) == j,
    decreases j - i,
{
    if i < j {
        lemma_digits_end_exact(s, i + 1, j);
    }
}

proof fn lemma_digits_val_exact(s: Seq<u8>, i: int, n: int)
    requires
        n >= 0,
        0 <= i,
        i + crate::compiler::dec(n).len() <= s.len(),
        s.subrange(i, i + crate::compiler::dec(n).len()) == crate::compiler::dec(n),
    ensures
        digits_val(s, i, i + crate::compiler::dec(n).len()) == n,
    decreases n,
{
    let d = crate::compiler::dec(n);
    let l = d.len() as int;
    assert(l >= 1) by {
        lemma_dec_shape(n);
    }
    if n < 10 {
        assert(s.subrange(i, i + 1)[0] == s[i]);
        assert(digits_val(s, i, i) == 0);
        assert(digits_val(s, i, i + 1) == s[i] - 48);
    } else {
        let dp = crate::compiler::dec(n / 10);
        lemma_dec_shape(n / 10);
        assert(d == dp.push((48 + n % 10) as u8));
        assert(dp =~= d.drop_last());
        assert(s.subrange(i, i + l - 1) =~= s.subrange(i, i + l).drop_last());
        lemma_digits_val_exact(s, i, n / 10);
        assert(s.subrange(i, i + l)[l - 1] == s[i + l - 1]);
        assert(d[l - 1] == 48 + n % 10);
        assert(digits_val(s, i, i + l) == digits_val(s, i, i + l - 1) * 10 + (s[i + l - 1] - 48));
        vstd::arithmetic::div_mod::lemma_fundamental_div_mod(n, 10);
    }
}

proof fn lemma_uint_exact(s: Seq<u8>, i: int, n: int)
    requires
        0 <= n <= usize::MAX,
        0 <= i,
        i + crate::compiler::dec(n).len() <= s.len(),
        s.subrange(i, i + crate::compiler::dec(n).len()) == crate::compiler::dec(n),
        i + crate::compiler::dec(n).len() == s.len() || !is_digit(
            s[i + crate::compiler::dec(n).len()],
        ),
    ensures
        uint_at(s, i) == Some((n, i + crate::compiler::dec(n).len())),
{
    let d = crate::compiler::dec(n);
    let l = d.len() as int;
    lemma_dec_shape(n);
    assert(s.subrange(i, i + l)[0] == s[i]);
    if n == 0 {
        assert(l == 1);
        assert(d[0] == 48);
    } else {
        assert(s[i] != 48);
        assert forall|k: int| i <= k < i + l implies is_digit(#[trigger] s[k]) by {
            assert(s.subrange(i, i + l)[k - i] == s[k]);
        }
        lemma_digits_end_exact(s, i, i + l);
        lemma_digits_val_exact(s, i, n);
    }
}


/// Serializes one expression's literal forms.
fn unparse_expr(out: &mut Vec<u8>, e: &Loc<Expr>)
    requires
        parsed_lexpr_wf(view_lexpr(*e)),
    ensures
        final(out)@ == old(out)@ + u_expr(view_lexpr(*e)),
    decreases *e,
{
    match &e.0 {
        Expr::FillTensor { fill, shape, data_type } => {
            out.push(91);
            let ghost dims = match view_lexpr(*e).0 {
                ExprV::FillTensor { shape: sv, .. } => sv,
                _ => arbitrary(),
            };
            let mut k: usize = 0;
            proof {
                assert(dims =~= shape@);
                assert(dims.subrange(0, 0) =~= Seq::<Loc<usize>>::empty());
                assert(out@ =~= old(out)@ + seq![91u8] + u_dims(dims.subrange(0, 0)));
            }
            while k < shape.len()
                invariant
                    k <= shape@.len(),
                    dims == shape@,
                    out@ == old(out)@ + seq![91u8] + u_dims(dims.subrange(0, k as int)),
                decreases shape@.len() - k,
            {
                if k > 0 {
                    out.push(32);
                    out.push(120);
                    out.push(32);
                }
                let dim = &shape[k];
                crate::compiler::push_dec(out, dim.0 as u64);
                proof {
                    assert(dims.subrange(0, k as int + 1).drop_last() =~= dims.subrange(
                        0,
                        k as int,
                    ));
                    assert(dims.subrange(0, k as int + 1).last() == dims[k as int]);
                    assert(out@ =~= old(out)@ + seq![91u8] + u_dims(dims.subrange(0, k as int + 1)));
                }
                k = k + 1;
            }
            out.push(59);
            out.push(32);
            crate::compiler::push_dec(out, fill.0 as u64);
            out.push(93);
            proof {
                assert(dims.subrange(0, dims.len() as int) =~= dims);
                assert(out@ =~= old(out)@ + u_expr(view_lexpr(*e)));
            }
        },
        Expr::RangeTensor { start, stop, step } => {
            out.push(91);
            crate::compiler::push_dec(out, start.0 as u64);
            out.push(46);
            out.push(46);
            crate::compiler::push_dec(out, stop.0 as u64);
            match step {
                Some(st) => {
                    out.push(59);
                    out.push(32);
                    crate::compiler::push_dec(out, st.0 as u64);
                },
                None => {},
            }
            out.push(93);
            proof {
                assert(out@ =~= old(out)@ + u_expr(view_lexpr(*e)));
            }
        },
        Expr::Variable(n) => {
            let mut k: usize = 0;
            while k < n.len()
                invariant
                    k <= n@.len(),
                    out@ == old(out)@ + n@.subrange(0, k as int),
                decreases n@.len() - k,
            {
                out.push(n[k]);
                proof {
                    assert(out@ =~= old(out)@ + n@.subrange(0, k as int + 1));
                }
                k = k + 1;
            }
            proof {
                assert(n@.subrange(0, n@.len() as int) =~= n@);
            }
        },
        Expr::Binary { lhs, rhs, op } => {
            unparse_expr(out, lhs);
            out.push(32);
            out.push(42);
            out.push(32);
            unparse_expr(out, rhs);
            proof {
                assert(out@ =~= old(out)@ + u_expr(view_lexpr(*e)));
            }
        },
    }
}

/// Serializes one statement.
fn unparse_stmt(out: &mut Vec<u8>, st: &Loc<Stmt>)
    requires
        parsed_lstmt_wf(view_lstmt(*st)),
    ensures
        final(out)@ == old(out)@ + u_stmt(view_lstmt(*st)),
{
    match &st.0 {
        Stmt::Expr(e) => {
            unparse_expr(out, e);
            out.push(59);
            proof {
                assert(out@ =~= old(out)@ + u_stmt(view_lstmt(*st)));
            }
        },
        Stmt::Assign { lhs, rhs } => {
            let n = &lhs.0;
            let mut k: usize = 0;
            while k < n.len()
                invariant
                    k <= n@.len(),
                    out@ == old(out)@ + n@.subrange(0, k as int),
                decreases n@.len() - k,
            {
                out.push(n[k]);
                proof {
                    assert(out@ =~= old(out)@ + n@.subrange(0, k as int + 1));
                }
                k = k + 1;
            }
            out.push(32);
            out.push(61);
            out.push(32);
            unparse_expr(out, rhs);
            out.push(59);
            proof {
                assert(n@.subrange(0, n@.len() as int) =~= n@);
                assert(out@ =~= old(out)@ + u_stmt(view_lstmt(*st)));
            }
        },
    }
}

/// Serializes a program's literal forms back to canonical source text.
/// Re-parsing the result reproduces the program up to spans; see
/// [`lemma_unparse_reparse`].
pub fn unparse(program: &Loc<Program>) -> (r: Vec<u8>)
    requires
        parsed_stmts_wf(view_program(program.0).stmts),
    ensures
        r@ == u_stmts(view_program(program.0).stmts),
{
    let ghost sv = view_program(program.0).stmts;
    let stmts = &program.0.stmts;
    let mut out: Vec<u8> = Vec::new();
    let mut k: usize = 0;
    proof {
        assert(sv.subrange(0, 0) =~= Seq::<Loc<StmtV>>::empty());
        assert(out@ =~= u_stmts(sv.subrange(0, 0)));
    }
    while k < stmts.len()
        invariant
            k <= stmts@.len(),
            sv == view_stmts(program.0.stmts@),
            stmts@ == program.0.stmts@,
            sv.len() == stmts@.len(),
            parsed_stmts_wf(sv),
            out@ == u_stmts(sv.subrange(0, k as int)),
        decreases stmts@.len() - k,
    {
        if k > 0 {
            out.push(32);
        }
        proof {
            assert(sv[k as int] == view_lstmt(stmts@[k as int]));
            assert(parsed_lstmt_wf(sv[k as int]));
        }
        unparse_stmt(&mut out, &stmts[k]);
        proof {
            assert(sv.subrange(0, k as int + 1).drop_last() =~= sv.subrange(0, k as int));
            assert(sv.subrange(0, k as int + 1).last() == sv[k as int]);
            assert(out@ =~= u_stmts(sv.subrange(0, k as int + 1)));
        }
        k = k + 1;
    }
    proof {
        assert(sv.subrange(0, sv.len() as int) =~= sv);
    }
    out
}


// ---------------------------------------------------------------------------
// Round trip: spans erased
// ---------------------------------------------------------------------------

pub open spec fn zspan() -> Span {
    Span { start: 0, end: 0 }
}

/// The expression with every span erased.
pub open spec fn strip_expr(e: Loc<ExprV>) -> Loc<ExprV>
    decreases e,
{
    Loc(
        match e.0 {
            ExprV::FillTensor { fill, shape, data_type } => ExprV::FillTensor {
                fill: Loc(fill.0, zspan()),
                shape: shape.map_values(|d: Loc<usize>| Loc(d.0, zspan())),
                data_type: match data_type {
                    Some(l) => Some(Loc(l.0, zspan())),
                    None => None,
                },
            },
            ExprV::RangeTensor { start, stop, step } => ExprV::RangeTensor {
                start: Loc(start.0, zspan()),
                stop: Loc(stop.0, zspan()),
                step: match step {
                    Some(l) => Some(Loc(l.0, zspan())),
                    None => None,
                },
            },
            ExprV::Variable(n) => ExprV::Variable(n),
            ExprV::Binary { lhs, rhs, op } => ExprV::Binary {
                lhs: Box::new(strip_expr(*lhs)),
                rhs: Box::new(strip_expr(*rhs)),
                op: Loc(op.0, zspan()),
            },
        },
        zspan(),
    )
}

/// The statement with every span erased.
pub open spec fn strip_stmt(st: Loc<StmtV>) -> Loc<StmtV> {
    Loc(
        match st.0 {
            StmtV::Expr(e) => StmtV::Expr(strip_expr(e)),
            StmtV::Assign { lhs, rhs } => StmtV::Assign {
                lhs: Loc(lhs.0, zspan()),
                rhs: strip_expr(rhs),
            },
        },
        zspan(),
    )
}

pub open spec fn strip_stmts(v: Seq<Loc<StmtV>>) -> Seq<Loc<StmtV>> {
    v.map_values(|st: Loc<StmtV>| strip_stmt(st))
}

// ---------------------------------------------------------------------------
// Round trip: helper facts
// ---------------------------------------------------------------------------

proof fn lemma_ws_end_prop(s: Seq<u8>, i: int)
    requires
        0 <= i <= s.len(),
    ensures
        i <= ws_end(s, i) <= s.len(),
        ws_end(s, i) == s.len() || !is_ws(s[ws_end(s, i)]),
        ws_end(s, ws_end(s, i)) == ws_end(s, i),
    decreases s.len() - i,
{
    if i < s.len() && is_ws(s[i]) {
        lemma_ws_end_prop(s, i + 1);
    }
}

/// Splits a subrange equality over a concatenation.
proof fn lemma_split(s: Seq<u8>, i: int, a: Seq<u8>, b: Seq<u8>)
    requires
        0 <= i,
        i + a.len() + b.len() <= s.len(),
        s.subrange(i, i + a.len() + b.len()) == a + b,
    ensures
        s.subrange(i, i + a.len() as int) == a,
        s.subrange(i + a.len() as int, i + a.len() + b.len()) == b,
{
    let whole = s.subrange(i, i + a.len() + b.len());
    assert forall|k: int| 0 <= k < a.len() implies s.subrange(i, i + a.len() as int)[k] == a[k] by {
        assert(s.subrange(i, i + a.len() as int)[k] == s[i + k]);
        assert(whole[k] == s[i + k]);
        assert(whole[k] == a[k]);
    }
    assert(s.subrange(i, i + a.len() as int) =~= a);
    assert forall|k: int|
        0 <= k < b.len() implies s.subrange(i + a.len() as int, i + a.len() + b.len())[k]
        == b[k] by {
        assert(s.subrange(i + a.len() as int, i + a.len() + b.len())[k] == s[i + a.len() + k]);
        assert(whole[a.len() + k] == s[i + a.len() + k]);
        assert(whole[a.len() + k] == b[k]);
    }
    assert(s.subrange(i + a.len() as int, i + a.len() + b.len()) =~= b);
}

proof fn lemma_byte_at(s: Seq<u8>, i: int, t: Seq<u8>, off: int)
    requires
        0 <= i,
        i + t.len() <= s.len(),
        s.subrange(i, i + t.len() as int) == t,
        0 <= off < t.len(),
    ensures
        s[i + off] == t[off],
{
    assert(s.subrange(i, i + t.len() as int)[off] == s[i + off]);
}

proof fn lemma_ident_end_exact(s: Seq<u8>, i: int, j: int)
    requires
        0 <= i <= j <= s.len(),
        forall|k: int| i <= k < j ==> is_ident_cont(#[trigger] s[k]),
        j == s.len() || !is_ident_cont(s[j]),
    ensures
        ident_end(s, i) == j,
    decreases j - i,
{
    if i < j {
        lemma_ident_end_exact(s, i + 1, j);
    }
}

// ---------------------------------------------------------------------------
// Round trip: dimension lists
// ---------------------------------------------------------------------------

/// The serialized dimensions after the first, from index `k` on.
pub open spec fn u_dims_from(shape: Seq<Loc<usize>>, k: int) -> Seq<u8>
    decreases shape.len() - k,
{
    if k < 0 || k >= shape.len() {
        Seq::empty()
    } else {
        seq![32u8, 120u8, 32u8] + crate::compiler::dec(shape[k].0 as int) + u_dims_from(
            shape,
            k + 1,
        )
    }
}

proof fn lemma_u_dims_snoc(xs: Seq<Loc<usize>>, y: Loc<usize>, k: int)
    requires
        0 <= k <= xs.len(),
    ensures
        u_dims_from(xs.push(y), k) == u_dims_from(xs, k) + seq![32u8, 120u8, 32u8]
            + crate::compiler::dec(y.0 as int),
    decreases xs.len() - k,
{
    let sep = seq![32u8, 120u8, 32u8];
    let ys = xs.push(y);
    if k == xs.len() {
        assert(ys[k] == y);
        assert(u_dims_from(ys, k + 1) =~= Seq::<u8>::empty());
        assert(u_dims_from(ys, k) =~= u_dims_from(xs, k) + sep + crate::compiler::dec(y.0 as int));
    } else {
        assert(ys[k] == xs[k]);
        lemma_u_dims_snoc(xs, y, k + 1);
        assert(u_dims_from(ys, k) =~= u_dims_from(xs, k) + sep + crate::compiler::dec(y.0 as int));
    }
}

proof fn lemma_u_dims_alt(shape: Seq<Loc<usize>>)
    requires
        shape.len() >= 1,
    ensures
        u_dims(shape) == crate::compiler::dec(shape[0].0 as int) + u_dims_from(shape, 1),
    decreases shape.len(),
{
    if shape.len() == 1 {
        assert(u_dims_from(shape, 1) =~= Seq::<u8>::empty());
        assert(u_dims(shape) =~= crate::compiler::dec(shape[0].0 as int) + u_dims_from(shape, 1));
    } else {
        let xs = shape.drop_last();
        let y = shape.last();
        assert(shape =~= xs.push(y));
        lemma_u_dims_alt(xs);
        lemma_u_dims_snoc(xs, y, 1);
        assert(xs[0] == shape[0]);
        assert(u_dims(shape) =~= crate::compiler::dec(shape[0].0 as int) + u_dims_from(shape, 1));
    }
}

proof fn lemma_dims_tail(s: Seq<u8>, pos: int, shape: Seq<Loc<usize>>, k: int, acc: Seq<
    Loc<usize>,
>)
    requires
        1 <= k <= shape.len(),
        0 <= pos,
        pos + u_dims_from(shape, k).len() < s.len(),
        s.subrange(pos, pos + u_dims_from(shape, k).len() as int) == u_dims_from(shape, k),
        s[pos + u_dims_from(shape, k).len()] == 59,
    ensures
        match shape_more(s, pos, acc) {
            Some((sh, p)) => {
                &&& p == pos + u_dims_from(shape, k).len()
                &&& sh.len() == acc.len() + shape.len() - k
                &&& (forall|j: int| 0 <= j < acc.len() ==> sh[j] == #[trigger] acc[j])
                &&& (forall|j: int|
                    acc.len() <= j < sh.len() ==> (#[trigger] sh[j]).0 == shape[j - acc.len()
                        + k].0)
            },
            None => false,
        },
    decreases shape.len() - k,
{
    let t0 = u_dims_from(shape, k);
    let l = t0.len() as int;
    if k == shape.len() {
        assert(l == 0);
        lemma_ws_end_prop(s, pos);
        assert(ws_end(s, pos) == pos);
        assert(shape_more(s, pos, acc) == Some((acc, pos)));
    } else {
        let sep = seq![32u8, 120u8, 32u8];
        let d = crate::compiler::dec(shape[k].0 as int);
        let rest = u_dims_from(shape, k + 1);
        lemma_dec_shape(shape[k].0 as int);
        assert(t0 == sep + d + rest);
        lemma_split(s, pos, sep + d, rest);
        assert(t0 =~= sep + (d + rest));
        lemma_split(s, pos, sep, d + rest);
        lemma_split(s, pos + 3, d, rest);
        lemma_byte_at(s, pos, sep, 0);
        lemma_byte_at(s, pos, sep, 1);
        lemma_byte_at(s, pos, sep, 2);
        assert(s[pos] == 32 && s[pos + 1] == 120 && s[pos + 2] == 32);
        assert(ws_end(s, pos) == pos + 1) by {
            lemma_ws_end_prop(s, pos + 1);
            assert(!is_ws(120));
        }
        let u = pos + 3;
        let e = u + d.len() as int;
        assert(ws_end(s, pos + 2) == u) by {
            lemma_byte_at(s, u, d + rest, 0);
            assert(is_digit(s[u]));
            lemma_ws_end_prop(s, u);
        }
        // the byte after the digits is an `x` separator or the closing `;`
        assert(e == s.len() || !is_digit(s[e])) by {
            if k + 1 < shape.len() {
                lemma_byte_at(s, e, rest, 0);
            } else {
                assert(rest =~= Seq::<u8>::empty());
            }
        }
        lemma_uint_exact(s, u, shape[k].0 as int);
        assert(uint_at(s, u) == Some((shape[k].0 as int, e)));
        let pushed = acc.push(Loc(shape[k].0, span_of(u, e)));
        assert((shape[k].0 as int) as usize == shape[k].0);
        assert(shape_more(s, pos, acc) == shape_more(s, e, pushed));
        lemma_dims_tail(s, e, shape, k + 1, pushed);
        match shape_more(s, e, pushed) {
            Some((sh, p)) => {
                assert(forall|j: int| 0 <= j < acc.len() ==> pushed[j] == #[trigger] acc[j]);
                assert(sh[acc.len() as int] == pushed[acc.len() as int]);
            },
            None => {},
        }
    }
}


/// What may follow an atom in serialized text.
pub open spec fn atom_follow(s: Seq<u8>, j: int) -> bool {
    j == s.len() || s[j] == 32 || s[j] == 59
}

proof fn lemma_fill_roundtrip(s: Seq<u8>, i: int, e: Loc<ExprV>)
    requires
        parsed_lexpr_wf(e),
        e.0 is FillTensor,
        0 <= i,
        i + u_expr(e).len() <= s.len(),
        s.subrange(i, i + u_expr(e).len() as int) == u_expr(e),
    ensures
        match fill_at(s, i) {
            Some((e2, end)) => {
                &&& strip_expr(Loc(e2, zspan())) == strip_expr(Loc(e.0, zspan()))
                &&& end == ws_end(s, i + u_expr(e).len())
            },
            None => false,
        },
{
    let t0 = u_expr(e);
    let l = t0.len() as int;
    match e.0 {
        ExprV::FillTensor { fill, shape, data_type } => {
            let dd = u_dims(shape);
            let ff = crate::compiler::dec(fill.0 as int);
            let dl = dd.len() as int;
            let fl = ff.len() as int;
            lemma_dec_shape(fill.0 as int);
            assert(t0 == seq![91u8] + dd + seq![59u8, 32u8] + ff + seq![93u8]);
            assert(t0 =~= seq![91u8] + (dd + seq![59u8, 32u8] + ff + seq![93u8]));
            lemma_split(s, i, seq![91u8], dd + seq![59u8, 32u8] + ff + seq![93u8]);
            assert(dd + seq![59u8, 32u8] + ff + seq![93u8] =~= dd + (seq![59u8, 32u8] + ff + seq![
                93u8,
            ]));
            lemma_split(s, i + 1, dd, seq![59u8, 32u8] + ff + seq![93u8]);
            let p = i + 1 + dl;
            assert(seq![59u8, 32u8] + ff + seq![93u8] =~= seq![59u8, 32u8] + (ff + seq![93u8]));
            lemma_split(s, p, seq![59u8, 32u8], ff + seq![93u8]);
            lemma_split(s, p + 2, ff, seq![93u8]);
            lemma_byte_at(s, i, seq![91u8], 0);
            lemma_byte_at(s, p, seq![59u8, 32u8], 0);
            lemma_byte_at(s, p, seq![59u8, 32u8], 1);
            lemma_byte_at(s, p + 2 + fl, seq![93u8], 0);
            assert(s[i] == 91 && s[p] == 59 && s[p + 1] == 32 && s[p + 2 + fl] == 93);
            assert(ws_end(s, i) == i);
            let b = i + 1;
            assert(ws_end(s, i + 1) == b) by {
                if dl == 0 {
                    assert(s[b] == 59);
                } else {
                    lemma_byte_at(s, i + 1, dd, 0);
                    lemma_u_dims_alt(shape);
                    lemma_dec_shape(shape[0].0 as int);
                    assert(dd[0] == crate::compiler::dec(shape[0].0 as int)[0]);
                    assert(is_digit(s[b]));
                }
            }
            if shape.len() == 0 {
                assert(false);
            } else {
                lemma_u_dims_alt(shape);
                let d0 = crate::compiler::dec(shape[0].0 as int);
                let restd = u_dims_from(shape, 1);
                lemma_split(s, b, d0, restd);
                lemma_dec_shape(shape[0].0 as int);
                let e0 = b + d0.len() as int;
                assert(e0 == s.len() || !is_digit(s[e0])) by {
                    if shape.len() > 1 {
                        lemma_byte_at(s, e0, restd, 0);
                    } else {
                        assert(restd =~= Seq::<u8>::empty());
                        assert(e0 == p);
                    }
                }
                lemma_uint_exact(s, b, shape[0].0 as int);
                assert((shape[0].0 as int) as usize == shape[0].0);
                assert(e0 + restd.len() == p);
                lemma_dims_tail(s, e0, shape, 1, seq![Loc(shape[0].0, span_of(b, e0))]);
            }
            match shape_items(s, b) {
                Some((sh, pp)) => {
                    assert(pp == p);
                    assert(sh.len() == shape.len());
                    assert forall|j: int| 0 <= j < sh.len() implies (#[trigger] sh[j]).0
                        == shape[j].0 by {
                        if shape.len() > 0 && j == 0 {
                            let first = seq![Loc(shape[0].0, span_of(b, b + crate::compiler::dec(
                                shape[0].0 as int,
                            ).len()))];
                            assert(sh[0] == first[0]);
                        }
                    }
                    assert(ws_end(s, p) == p);
                    let dpos = p + 2;
                    assert(ws_end(s, p + 1) == dpos) by {
                        lemma_byte_at(s, dpos, ff, 0);
                        assert(is_digit(s[dpos]));
                        assert(ws_end(s, dpos) == dpos);
                        assert(ws_end(s, p + 1) == ws_end(s, dpos));
                    }
                    let e2 = dpos + fl;
                    assert(s[e2] == 93);
                    assert(!is_digit(93u8));
                    lemma_uint_exact(s, dpos, fill.0 as int);
                    assert((fill.0 as int) as i32 == fill.0);
                    assert(ws_end(s, e2) == e2);
                    assert(e2 + 1 == i + l);
                    match fill_at(s, i) {
                        Some((r, end)) => {
                            assert(end == ws_end(s, i + l));
                            let sm = sh.map_values(|d: Loc<usize>| Loc(d.0, zspan()));
                            let shm = shape.map_values(|d: Loc<usize>| Loc(d.0, zspan()));
                            assert(sm =~= shm);
                        },
                        None => {
                            assert(false);
                        },
                    }
                },
                None => {
                    assert(false);
                },
            }
        },
        _ => {},
    }
}


proof fn lemma_range_roundtrip(s: Seq<u8>, i: int, e: Loc<ExprV>)
    requires
        parsed_lexpr_wf(e),
        e.0 is RangeTensor,
        0 <= i,
        i + u_expr(e).len() <= s.len(),
        s.subrange(i, i + u_expr(e).len() as int) == u_expr(e),
    ensures
        fill_at(s, i) is None,
        match range_at(s, i) {
            Some((e2, end)) => {
                &&& strip_expr(Loc(e2, zspan())) == strip_expr(Loc(e.0, zspan()))
                &&& end == ws_end(s, i + u_expr(e).len())
            },
            None => false,
        },
{
    let t0 = u_expr(e);
    let l = t0.len() as int;
    match e.0 {
        ExprV::RangeTensor { start, stop, step } => {
            let aa = crate::compiler::dec(start.0 as int);
            let bb = crate::compiler::dec(stop.0 as int);
            let stail = (match step {
                Some(st) => seq![59u8, 32u8] + crate::compiler::dec(st.0 as int),
                None => Seq::<u8>::empty(),
            }) + seq![93u8];
            lemma_dec_shape(start.0 as int);
            lemma_dec_shape(stop.0 as int);
            assert(t0 =~= seq![91u8] + (aa + (seq![46u8, 46u8] + (bb + stail))));
            lemma_split(s, i, seq![91u8], aa + (seq![46u8, 46u8] + (bb + stail)));
            let b = i + 1;
            lemma_split(s, b, aa, seq![46u8, 46u8] + (bb + stail));
            let ea = b + aa.len() as int;
            lemma_split(s, ea, seq![46u8, 46u8], bb + stail);
            let dpos = ea + 2;
            lemma_split(s, dpos, bb, stail);
            let eb = dpos + bb.len() as int;
            lemma_byte_at(s, i, seq![91u8], 0);
            lemma_byte_at(s, ea, seq![46u8, 46u8], 0);
            lemma_byte_at(s, ea, seq![46u8, 46u8], 1);
            lemma_byte_at(s, b, aa, 0);
            lemma_byte_at(s, dpos, bb, 0);
            assert(s[i] == 91 && s[ea] == 46 && s[ea + 1] == 46);
            assert(is_digit(s[b]) && is_digit(s[dpos]));
            assert(ws_end(s, i) == i);
            assert(ws_end(s, i + 1) == b);
            assert(ws_end(s, ea) == ea);
            // the fill alternative stops at the first dot
            lemma_uint_exact(s, b, start.0 as int);
            assert((start.0 as int) as usize == start.0 as usize);
            assert(shape_more(s, ea, seq![Loc(start.0 as usize, span_of(b, ea))]) == Some(
                (seq![Loc(start.0 as usize, span_of(b, ea))], ea),
            ));
            assert(fill_at(s, i) is None);
            // the range alternative reads both bounds
            assert((start.0 as int) as i32 == start.0);
            assert(ws_end(s, ea + 2) == dpos);
            match step {
                Some(st) => {
                    lemma_dec_shape(st.0 as int);
                    let cc = crate::compiler::dec(st.0 as int);
                    assert(stail =~= seq![59u8, 32u8] + (cc + seq![93u8]));
                    lemma_split(s, eb, seq![59u8, 32u8], cc + seq![93u8]);
                    let upos = eb + 2;
                    lemma_split(s, upos, cc, seq![93u8]);
                    let ec = upos + cc.len() as int;
                    lemma_byte_at(s, eb, seq![59u8, 32u8], 0);
                    lemma_byte_at(s, eb, seq![59u8, 32u8], 1);
                    lemma_byte_at(s, upos, cc, 0);
                    lemma_byte_at(s, ec, seq![93u8], 0);
                    assert(s[eb] == 59 && s[eb + 1] == 32 && s[ec] == 93);
                    assert(is_digit(s[upos]));
                    assert(!is_digit(59u8));
                    lemma_uint_exact(s, dpos, stop.0 as int);
                    assert((stop.0 as int) as i32 == stop.0);
                    assert(ws_end(s, eb) == eb);
                    assert(ws_end(s, eb + 1) == upos) by {
                        assert(ws_end(s, upos) == upos);
                        assert(ws_end(s, eb + 1) == ws_end(s, upos));
                    }
                    assert(!is_digit(93u8));
                    lemma_uint_exact(s, upos, st.0 as int);
                    assert((st.0 as int) as i32 == st.0);
                    assert(ws_end(s, ec) == ec);
                    assert(ec + 1 == i + l);
                },
                None => {
                    lemma_byte_at(s, eb, seq![93u8], 0);
                    assert(s[eb] == 93);
                    assert(!is_digit(93u8));
                    lemma_uint_exact(s, dpos, stop.0 as int);
                    assert((stop.0 as int) as i32 == stop.0);
                    assert(ws_end(s, eb) == eb);
                    assert(eb + 1 == i + l);
                },
            }
        },
        _ => {},
    }
}

proof fn lemma_atom_roundtrip(s: Seq<u8>, i: int, e: Loc<ExprV>)
    requires
        parsed_lexpr_wf(e),
        !(e.0 is Binary),
        0 <= i,
        i + u_expr(e).len() <= s.len(),
        s.subrange(i, i + u_expr(e).len() as int) == u_expr(e),
        atom_follow(s, i + u_expr(e).len()),
    ensures
        match atom_at(s, i) {
            Some((e2, end)) => {
                &&& strip_expr(e2) == strip_expr(e)
                &&& i < end <= s.len()
                &&& ws_end(s, end) == ws_end(s, i + u_expr(e).len())
            },
            None => false,
        },
{
    let t0 = u_expr(e);
    let l = t0.len() as int;
    lemma_atom_at(s, i);
    lemma_ws_end_prop(s, i + l);
    match e.0 {
        ExprV::FillTensor { .. } => {
            lemma_fill_roundtrip(s, i, e);
        },
        ExprV::RangeTensor { .. } => {
            lemma_range_roundtrip(s, i, e);
        },
        ExprV::Variable(n) => {
            lemma_byte_at(s, i, n, 0);
            assert(is_ident_start(s[i]));
            assert(ws_end(s, i) == i);
            assert(s[i] != 91);
            assert(fill_at(s, i) is None);
            assert(range_at(s, i) is None);
            assert forall|k: int| i + 1 <= k < i + l implies is_ident_cont(#[trigger] s[k]) by {
                lemma_byte_at(s, i, n, k - i);
            }
            assert(i + l == s.len() || !is_ident_cont(s[i + l])) by {
                if i + l < s.len() {
                    assert(s[i + l] == 32 || s[i + l] == 59);
                }
            }
            lemma_ident_end_exact(s, i + 1, i + l);
            assert(s.subrange(i, i + l) == n);
            assert(ws_end(s, i + l) == ws_end(s, i + l));
        },
        _ => {},
    }
}


// ---------------------------------------------------------------------------
// Round trip: multiplication chains
// ---------------------------------------------------------------------------

/// The leaves of a left-leaning multiplication chain, left to right.
pub open spec fn atoms_of(e: Loc<ExprV>) -> Seq<Loc<ExprV>>
    decreases e,
{
    match e.0 {
        ExprV::Binary { lhs, rhs, op } => atoms_of(*lhs).push(*rhs),
        _ => seq![e],
    }
}

proof fn lemma_atoms_of(e: Loc<ExprV>)
    requires
        parsed_lexpr_wf(e),
    ensures
        atoms_of(e).len() >= 1,
        forall|j: int|
            0 <= j < atoms_of(e).len() ==> parsed_lexpr_wf(#[trigger] atoms_of(e)[j]) && !(
            atoms_of(e)[j].0 is Binary),
    decreases e,
{
    match e.0 {
        ExprV::Binary { lhs, rhs, op } => {
            lemma_atoms_of(*lhs);
            assert(forall|j: int|
                0 <= j < atoms_of(*lhs).len() ==> #[trigger] atoms_of(e)[j] == atoms_of(*lhs)[j]);
            assert(atoms_of(e).last() == *rhs);
        },
        _ => {},
    }
}

/// The serialized chain after the first atom, from leaf `k` on.
pub open spec fn u_chain_tail(atoms: Seq<Loc<ExprV>>, k: int) -> Seq<u8>
    decreases atoms.len() - k,
{
    if k < 0 || k >= atoms.len() {
        Seq::empty()
    } else {
        seq![32u8, 42u8, 32u8] + u_expr(atoms[k]) + u_chain_tail(atoms, k + 1)
    }
}

proof fn lemma_u_chain_snoc(xs: Seq<Loc<ExprV>>, y: Loc<ExprV>, k: int)
    requires
        0 <= k <= xs.len(),
    ensures
        u_chain_tail(xs.push(y), k) == u_chain_tail(xs, k) + seq![32u8, 42u8, 32u8] + u_expr(y),
    decreases xs.len() - k,
{
    let sep = seq![32u8, 42u8, 32u8];
    let ys = xs.push(y);
    if k == xs.len() {
        assert(ys[k] == y);
        assert(u_chain_tail(ys, k + 1) =~= Seq::<u8>::empty());
        assert(u_chain_tail(ys, k) =~= u_chain_tail(xs, k) + sep + u_expr(y));
    } else {
        assert(ys[k] == xs[k]);
        lemma_u_chain_snoc(xs, y, k + 1);
        assert(u_chain_tail(ys, k) =~= u_chain_tail(xs, k) + sep + u_expr(y));
    }
}

proof fn lemma_u_expr_alt(e: Loc<ExprV>)
    requires
        parsed_lexpr_wf(e),
    ensures
        u_expr(e) == u_expr(atoms_of(e)[0]) + u_chain_tail(atoms_of(e), 1),
    decreases e,
{
    lemma_atoms_of(e);
    match e.0 {
        ExprV::Binary { lhs, rhs, op } => {
            let al = atoms_of(*lhs);
            lemma_atoms_of(*lhs);
            lemma_u_expr_alt(*lhs);
            lemma_u_chain_snoc(al, *rhs, 1);
            assert(atoms_of(e)[0] == al[0]);
            assert(u_expr(e) =~= u_expr(atoms_of(e)[0]) + u_chain_tail(atoms_of(e), 1));
        },
        _ => {
            assert(u_chain_tail(atoms_of(e), 1) =~= Seq::<u8>::empty());
            assert(atoms_of(e)[0] == e);
            assert(u_expr(e) =~= u_expr(atoms_of(e)[0]) + u_chain_tail(atoms_of(e), 1));
        },
    }
}

/// The left fold that re-assembles a chain from its leaves.
pub open spec fn fold_from(acc: Loc<ExprV>, atoms: Seq<Loc<ExprV>>, k: int) -> Loc<ExprV>
    decreases atoms.len() - k,
{
    if k < 0 || k >= atoms.len() {
        acc
    } else {
        fold_from(
            Loc(
                ExprV::Binary {
                    lhs: Box::new(acc),
                    rhs: Box::new(atoms[k]),
                    op: Loc(BinaryOp::Mul, zspan()),
                },
                zspan(),
            ),
            atoms,
            k + 1,
        )
    }
}

proof fn lemma_fold_cong(a1: Loc<ExprV>, a2: Loc<ExprV>, atoms1: Seq<Loc<ExprV>>, atoms2: Seq<
    Loc<ExprV>,
>, k: int)
    requires
        strip_expr(a1) == strip_expr(a2),
        atoms1.len() == atoms2.len(),
        forall|j: int|
            0 <= j < atoms1.len() ==> strip_expr(#[trigger] atoms1[j]) == strip_expr(atoms2[j]),
    ensures
        strip_expr(fold_from(a1, atoms1, k)) == strip_expr(fold_from(a2, atoms2, k)),
    decreases atoms1.len() - k,
{
    if 0 <= k < atoms1.len() {
        let b1 = Loc(
            ExprV::Binary {
                lhs: Box::new(a1),
                rhs: Box::new(atoms1[k]),
                op: Loc(BinaryOp::Mul, zspan()),
            },
            zspan(),
        );
        let b2 = Loc(
            ExprV::Binary {
                lhs: Box::new(a2),
                rhs: Box::new(atoms2[k]),
                op: Loc(BinaryOp::Mul, zspan()),
            },
            zspan(),
        );
        assert(strip_expr(b1) == strip_expr(b2));
        lemma_fold_cong(b1, b2, atoms1, atoms2, k + 1);
    }
}

proof fn lemma_fold_push(x: Loc<ExprV>, xs: Seq<Loc<ExprV>>, y: Loc<ExprV>, k: int)
    requires
        0 <= k <= xs.len(),
    ensures
        fold_from(x, xs.push(y), k) == Loc(
            ExprV::Binary {
                lhs: Box::new(fold_from(x, xs, k)),
                rhs: Box::new(y),
                op: Loc(BinaryOp::Mul, zspan()),
            },
            zspan(),
        ),
    decreases xs.len() - k,
{
    let ys = xs.push(y);
    if k == xs.len() {
        assert(ys[k] == y);
        let b = Loc(
            ExprV::Binary { lhs: Box::new(x), rhs: Box::new(y), op: Loc(BinaryOp::Mul, zspan()) },
            zspan(),
        );
        assert(fold_from(x, xs, k) == x);
        assert(fold_from(b, ys, k + 1) == b);
        assert(fold_from(x, ys, k) == fold_from(b, ys, k + 1));
    } else {
        assert(ys[k] == xs[k]);
        let bx = Loc(
            ExprV::Binary {
                lhs: Box::new(x),
                rhs: Box::new(xs[k]),
                op: Loc(BinaryOp::Mul, zspan()),
            },
            zspan(),
        );
        lemma_fold_push(bx, xs, y, k + 1);
        assert(fold_from(x, ys, k) == fold_from(bx, ys, k + 1));
        assert(fold_from(x, xs, k) == fold_from(bx, xs, k + 1));
    }
}

proof fn lemma_fold_rebuild(e: Loc<ExprV>)
    requires
        parsed_lexpr_wf(e),
    ensures
        strip_expr(fold_from(atoms_of(e)[0], atoms_of(e), 1)) == strip_expr(e),
    decreases e,
{
    lemma_atoms_of(e);
    match e.0 {
        ExprV::Binary { lhs, rhs, op } => {
            let al = atoms_of(*lhs);
            lemma_atoms_of(*lhs);
            lemma_fold_rebuild(*lhs);
            assert(atoms_of(e)[0] == al[0]);
            lemma_fold_push(al[0], al, *rhs, 1);
        },
        _ => {},
    }
}

proof fn lemma_atom_text_head(e: Loc<ExprV>)
    requires
        parsed_lexpr_wf(e),
        !(e.0 is Binary),
    ensures
        u_expr(e).len() >= 1,
        !is_ws(u_expr(e)[0]),
        !is_digit(u_expr(e)[0]) || e.0 is Variable,
{
    match e.0 {
        ExprV::Variable(n) => {
            assert(u_expr(e)[0] == n[0]);
        },
        ExprV::FillTensor { .. } => {
            assert(u_expr(e)[0] == 91);
        },
        ExprV::RangeTensor { .. } => {
            assert(u_expr(e)[0] == 91);
        },
        _ => {},
    }
}

proof fn lemma_chain_tail(s: Seq<u8>, pos: int, p0: int, acc: Loc<ExprV>, atoms: Seq<Loc<ExprV>>, k: int)
    requires
        0 <= pos <= s.len(),
        0 <= p0,
        ws_end(s, pos) == ws_end(s, p0),
        p0 + u_chain_tail(atoms, k).len() < s.len(),
        s.subrange(p0, p0 + u_chain_tail(atoms, k).len() as int) == u_chain_tail(atoms, k),
        s[p0 + u_chain_tail(atoms, k).len()] == 59,
        1 <= k <= atoms.len(),
        forall|j: int|
            k <= j < atoms.len() ==> parsed_lexpr_wf(#[trigger] atoms[j]) && !(
            atoms[j].0 is Binary),
    ensures
        strip_expr(expr_more(s, pos, acc).0) == strip_expr(fold_from(acc, atoms, k)),
        ws_end(s, expr_more(s, pos, acc).1) == p0 + u_chain_tail(atoms, k).len(),
        pos <= expr_more(s, pos, acc).1 <= s.len(),
    decreases atoms.len() - k,
{
    lemma_expr_more(s, pos, acc);
    lemma_ws_end_prop(s, pos);
    let t0 = u_chain_tail(atoms, k);
    let l = t0.len() as int;
    if k == atoms.len() {
        assert(l == 0);
        assert(ws_end(s, p0) == p0);
        assert(expr_more(s, pos, acc) == (acc, pos));
    } else {
        let sep = seq![32u8, 42u8, 32u8];
        let at = u_expr(atoms[k]);
        let rest = u_chain_tail(atoms, k + 1);
        lemma_atom_text_head(atoms[k]);
        assert(t0 =~= sep + (at + rest));
        lemma_split(s, p0, sep, at + rest);
        lemma_split(s, p0 + 3, at, rest);
        lemma_byte_at(s, p0, sep, 0);
        lemma_byte_at(s, p0, sep, 1);
        lemma_byte_at(s, p0, sep, 2);
        assert(s[p0] == 32 && s[p0 + 1] == 42 && s[p0 + 2] == 32);
        let t = p0 + 1;
        assert(ws_end(s, p0) == t) by {
            assert(ws_end(s, t) == t);
            assert(ws_end(s, p0) == ws_end(s, t));
        }
        let u = p0 + 3;
        let aend = u + at.len() as int;
        lemma_byte_at(s, u, at, 0);
        assert(ws_end(s, p0 + 2) == u) by {
            assert(ws_end(s, u) == u);
            assert(ws_end(s, p0 + 2) == ws_end(s, u));
        }
        assert(atom_follow(s, aend)) by {
            if k + 1 < atoms.len() {
                lemma_byte_at(s, aend, rest, 0);
            } else {
                assert(rest =~= Seq::<u8>::empty());
            }
        }
        lemma_atom_roundtrip(s, u, atoms[k]);
        match atom_at(s, u) {
            Some((rhs_e, q)) => {
                let folded = Loc(
                    ExprV::Binary {
                        lhs: Box::new(acc),
                        rhs: Box::new(rhs_e),
                        op: Loc(BinaryOp::Mul, span_of(pos, u)),
                    },
                    Span { start: acc.1.start, end: rhs_e.1.end },
                );
                assert(pos < q <= s.len());
                assert(expr_more(s, pos, acc) == expr_more(s, q, folded));
                lemma_chain_tail(s, q, aend, folded, atoms, k + 1);
                let zfold = Loc(
                    ExprV::Binary {
                        lhs: Box::new(acc),
                        rhs: Box::new(atoms[k]),
                        op: Loc(BinaryOp::Mul, zspan()),
                    },
                    zspan(),
                );
                assert(strip_expr(folded) == strip_expr(zfold));
                lemma_fold_cong(folded, zfold, atoms, atoms, k + 1);
                assert(fold_from(acc, atoms, k) == fold_from(zfold, atoms, k + 1));
            },
            None => {
                assert(false);
            },
        }
    }
}

proof fn lemma_expr_roundtrip(s: Seq<u8>, i: int, e: Loc<ExprV>)
    requires
        parsed_lexpr_wf(e),
        0 <= i,
        i + u_expr(e).len() < s.len(),
        s.subrange(i, i + u_expr(e).len() as int) == u_expr(e),
        s[i + u_expr(e).len()] == 59,
    ensures
        match expr_at(s, i) {
            Some((ev, p)) => {
                &&& strip_expr(ev) == strip_expr(e)
                &&& i < p <= s.len()
                &&& ws_end(s, p) == i + u_expr(e).len()
            },
            None => false,
        },
{
    let atoms = atoms_of(e);
    lemma_atoms_of(e);
    lemma_u_expr_alt(e);
    let a0 = atoms[0];
    let l0 = u_expr(a0).len() as int;
    let tl = u_chain_tail(atoms, 1);
    let l = u_expr(e).len() as int;
    lemma_split(s, i, u_expr(a0), tl);
    assert(atom_follow(s, i + l0)) by {
        if atoms.len() > 1 {
            lemma_byte_at(s, i + l0, tl, 0);
            assert(u_chain_tail(atoms, 1)[0] == 32);
        } else {
            assert(tl =~= Seq::<u8>::empty());
        }
    }
    lemma_atom_roundtrip(s, i, a0);
    lemma_atom_at(s, i);
    match atom_at(s, i) {
        Some((a0p, p)) => {
            lemma_chain_tail(s, p, i + l0, a0p, atoms, 1);
            lemma_fold_cong(a0p, a0, atoms, atoms, 1);
            lemma_fold_rebuild(e);
            assert(ws_end(s, i + l) == i + l) by {
                assert(!is_ws(59u8));
            }
            lemma_expr_more(s, p, a0p);
        },
        None => {
            assert(false);
        },
    }
}


// ---------------------------------------------------------------------------
// Round trip: statements and programs
// ---------------------------------------------------------------------------

/// The serialized statements from index `k` on, space-separated.
pub open spec fn u_stmts_from(stmts: Seq<Loc<StmtV>>, k: int) -> Seq<u8>
    decreases stmts.len() - k,
{
    if k < 0 || k >= stmts.len() {
        Seq::empty()
    } else if k == stmts.len() - 1 {
        u_stmt(stmts[k])
    } else {
        u_stmt(stmts[k]) + seq![32u8] + u_stmts_from(stmts, k + 1)
    }
}

proof fn lemma_u_stmts_snoc(xs: Seq<Loc<StmtV>>, y: Loc<StmtV>, k: int)
    requires
        xs.len() >= 1,
        0 <= k <= xs.len() - 1,
    ensures
        u_stmts_from(xs.push(y), k) == u_stmts_from(xs, k) + seq![32u8] + u_stmt(y),
    decreases xs.len() - k,
{
    let ys = xs.push(y);
    if k == xs.len() - 1 {
        assert(ys[k] == xs[k]);
        assert(ys[k + 1] == y);
        assert(u_stmts_from(ys, k + 1) == u_stmt(y));
        assert(u_stmts_from(ys, k) =~= u_stmts_from(xs, k) + seq![32u8] + u_stmt(y));
    } else {
        assert(ys[k] == xs[k]);
        lemma_u_stmts_snoc(xs, y, k + 1);
        assert(u_stmts_from(ys, k) =~= u_stmts_from(xs, k) + seq![32u8] + u_stmt(y));
    }
}

proof fn lemma_u_stmts_alt(stmts: Seq<Loc<StmtV>>)
    requires
        stmts.len() >= 1,
    ensures
        u_stmts(stmts) == u_stmts_from(stmts, 0),
    decreases stmts.len(),
{
    if stmts.len() == 1 {
    } else {
        let xs = stmts.drop_last();
        let y = stmts.last();
        assert(stmts =~= xs.push(y));
        lemma_u_stmts_alt(xs);
        lemma_u_stmts_snoc(xs, y, 0);
    }
}

proof fn lemma_stmt_text_head(st: Loc<StmtV>)
    requires
        parsed_lstmt_wf(st),
    ensures
        u_stmt(st).len() >= 1,
        !is_ws(u_stmt(st)[0]),
    decreases st,
{
    match st.0 {
        StmtV::Expr(e) => {
            lemma_atoms_of(e);
            lemma_u_expr_alt(e);
            lemma_atom_text_head(atoms_of(e)[0]);
            assert(u_stmt(st)[0] == u_expr(atoms_of(e)[0])[0]);
        },
        StmtV::Assign { lhs, rhs } => {
            assert(u_stmt(st)[0] == lhs.0[0]);
            assert(is_ident_start(lhs.0[0]));
        },
    }
}

proof fn lemma_expr_text_head(e: Loc<ExprV>)
    requires
        parsed_lexpr_wf(e),
    ensures
        u_expr(e).len() >= 1,
        !is_ws(u_expr(e)[0]),
{
    lemma_atoms_of(e);
    lemma_u_expr_alt(e);
    lemma_atom_text_head(atoms_of(e)[0]);
    assert(u_expr(e)[0] == u_expr(atoms_of(e)[0])[0]);
}

#[verifier::rlimit(60)]
proof fn lemma_stmt_roundtrip(s: Seq<u8>, i: int, st: Loc<StmtV>)
    requires
        parsed_lstmt_wf(st),
        0 <= i,
        i + u_stmt(st).len() <= s.len(),
        s.subrange(i, i + u_stmt(st).len() as int) == u_stmt(st),
        i + u_stmt(st).len() == s.len() || s[i + u_stmt(st).len()] == 32,
    ensures
        match stmt_at(s, i) {
            Some((st2, j)) => {
                &&& strip_stmt(st2) == strip_stmt(st)
                &&& i < j <= s.len()
                &&& j == ws_end(s, i + u_stmt(st).len())
            },
            None => false,
        },
{
    let t0 = u_stmt(st);
    let l = t0.len() as int;
    lemma_stmt_at(s, i);
    lemma_ws_end_prop(s, i + l);
    match st.0 {
        StmtV::Expr(e) => {
            let le = u_expr(e).len() as int;
            assert(t0 =~= u_expr(e) + seq![59u8]);
            lemma_split(s, i, u_expr(e), seq![59u8]);
            lemma_byte_at(s, i + le, seq![59u8], 0);
            assert(s[i + le] == 59);
            lemma_expr_roundtrip(s, i, e);
            match expr_at(s, i) {
                Some((ev, p)) => {
                    assert(ws_end(s, p) == i + le);
                },
                None => {
                    assert(false);
                },
            }
        },
        StmtV::Assign { lhs, rhs } => {
            let n = lhs.0;
            let nl = n.len() as int;
            let lr = u_expr(rhs).len() as int;
            assert(t0 =~= n + (seq![32u8, 61u8, 32u8] + (u_expr(rhs) + seq![59u8])));
            lemma_split(s, i, n, seq![32u8, 61u8, 32u8] + (u_expr(rhs) + seq![59u8]));
            lemma_split(s, i + nl, seq![32u8, 61u8, 32u8], u_expr(rhs) + seq![59u8]);
            let u = i + nl + 3;
            lemma_split(s, u, u_expr(rhs), seq![59u8]);
            lemma_byte_at(s, i + nl, seq![32u8, 61u8, 32u8], 0);
            lemma_byte_at(s, i + nl, seq![32u8, 61u8, 32u8], 1);
            lemma_byte_at(s, i + nl, seq![32u8, 61u8, 32u8], 2);
            lemma_byte_at(s, u + lr, seq![59u8], 0);
            assert(s[i + nl] == 32 && s[i + nl + 1] == 61 && s[i + nl + 2] == 32);
            assert(s[u + lr] == 59);
            // the expression-statement attempt reads the name and stops
            let evar = Loc(ExprV::Variable(n), zspan());
            assert(u_expr(evar) == n);
            assert(atom_follow(s, i + nl));
            lemma_atom_roundtrip(s, i, evar);
            lemma_expr_text_head(rhs);
            lemma_byte_at(s, u, u_expr(rhs), 0);
            assert(ws_end(s, i + nl) == i + nl + 1) by {
                assert(ws_end(s, i + nl + 1) == i + nl + 1);
                assert(ws_end(s, i + nl) == ws_end(s, i + nl + 1));
            }
            match atom_at(s, i) {
                Some((a0p, q)) => {
                    assert(ws_end(s, q) == i + nl + 1);
                    assert(expr_more(s, q, a0p) == (a0p, q));
                    assert(expr_at(s, i) == Some((a0p, q)));
                    assert(s[ws_end(s, q)] == 61);
                },
                None => {
                    assert(false);
                },
            }
            // the assignment rule
            assert forall|k: int| i + 1 <= k < i + nl implies is_ident_cont(#[trigger] s[k]) by {
                lemma_byte_at(s, i, n, k - i);
            }
            lemma_ident_end_exact(s, i + 1, i + nl);
            lemma_byte_at(s, i, n, 0);
            assert(is_ident_start(s[i]));
            assert(ident_at(s, i) == Some((s.subrange(i, i + nl), i + nl)));
            assert(s.subrange(i, i + nl) == n);
            assert(ws_end(s, i + nl + 2) == u) by {
                assert(ws_end(s, u) == u);
                assert(ws_end(s, i + nl + 2) == ws_end(s, u));
            }
            lemma_expr_roundtrip(s, u, rhs);
            match expr_at(s, u) {
                Some((ev, p)) => {
                    assert(ws_end(s, p) == u + lr);
                    assert(s[ws_end(s, p)] == 59);
                },
                None => {
                    assert(false);
                },
            }
        },
    }
}

proof fn lemma_no_stmt_at_end(s: Seq<u8>, i: int)
    requires
        i == s.len(),
    ensures
        stmt_at(s, i) is None,
{
    assert(ws_end(s, i) == i);
    assert(fill_at(s, i) is None);
    assert(range_at(s, i) is None);
    assert(ident_at(s, i) is None);
    assert(atom_at(s, i) is None);
    assert(expr_at(s, i) is None);
    assert(assign_at(s, i) is None);
}

#[verifier::rlimit(100)]
proof fn lemma_stmts_roundtrip(s: Seq<u8>, i: int, stmts: Seq<Loc<StmtV>>, k: int)
    requires
        0 <= k <= stmts.len(),
        0 <= i,
        i + u_stmts_from(stmts, k).len() == s.len(),
        s.subrange(i, s.len() as int) == u_stmts_from(stmts, k),
        forall|j: int| k <= j < stmts.len() ==> parsed_lstmt_wf(#[trigger] stmts[j]),
    ensures
        ({
            let (ps, n) = stmts_at(s, i);
            &&& n == s.len()
            &&& ps.len() == stmts.len() - k
            &&& forall|j: int|
                0 <= j < ps.len() ==> strip_stmt(#[trigger] ps[j]) == strip_stmt(stmts[k + j])
        }),
    decreases stmts.len() - k,
{
    lemma_stmts_at(s, i);
    if k == stmts.len() {
        assert(i == s.len());
        lemma_no_stmt_at_end(s, i);
    } else {
        let ls = u_stmt(stmts[k]).len() as int;
        if k == stmts.len() - 1 {
            assert(u_stmts_from(stmts, k) == u_stmt(stmts[k]));
            lemma_stmt_roundtrip(s, i, stmts[k]);
        } else {
            let rest = u_stmts_from(stmts, k + 1);
            assert(u_stmts_from(stmts, k) =~= u_stmt(stmts[k]) + (seq![32u8] + rest));
            lemma_split(s, i, u_stmt(stmts[k]), seq![32u8] + rest);
            lemma_split(s, i + ls, seq![32u8], rest);
            lemma_byte_at(s, i + ls, seq![32u8], 0);
            assert(s[i + ls] == 32);
            lemma_stmt_roundtrip(s, i, stmts[k]);
        }
        match stmt_at(s, i) {
            Some((st2, j)) => {
                if k == stmts.len() - 1 {
                    assert(j == ws_end(s, i + ls));
                    assert(i + ls == s.len());
                    assert(ws_end(s, i + ls) == i + ls);
                    assert(s.subrange(j, s.len() as int) =~= Seq::<u8>::empty());
                    assert(u_stmts_from(stmts, k + 1) =~= Seq::<u8>::empty());
                    lemma_stmts_roundtrip(s, j, stmts, k + 1);
                } else {
                    let rest = u_stmts_from(stmts, k + 1);
                    assert(rest.len() >= 1) by {
                        lemma_stmt_text_head(stmts[k + 1]);
                    }
                    assert(!is_ws(s[i + ls + 1])) by {
                        lemma_stmt_text_head(stmts[k + 1]);
                        lemma_byte_at(s, i + ls + 1, rest, 0);
                        assert(rest[0] == u_stmt(stmts[k + 1])[0]);
                    }
                    assert(j == i + ls + 1) by {
                        assert(ws_end(s, i + ls + 1) == i + ls + 1);
                        assert(ws_end(s, i + ls) == ws_end(s, i + ls + 1));
                    }
                    assert(s.subrange(j, s.len() as int) == rest);
                    lemma_stmts_roundtrip(s, j, stmts, k + 1);
                }
                let (ps, n) = stmts_at(s, j);
                assert(stmts_at(s, i) == (seq![st2] + ps, n));
                assert forall|j2: int|
                    0 <= j2 < (seq![st2] + ps).len() implies strip_stmt(
                    #[trigger] (seq![st2] + ps)[j2],
                ) == strip_stmt(stmts[k + j2]) by {
                    if j2 == 0 {
                        assert((seq![st2] + ps)[0] == st2);
                    } else {
                        assert((seq![st2] + ps)[j2] == ps[j2 - 1]);
                    }
                }
            },
            None => {
                assert(false);
            },
        }
    }
}

/// Re-parsing the canonical serialization of a parsed program yields the
/// program again, up to the freshly computed spans: for every statement
/// sequence with the parsed-program invariants, parsing
/// [`u_stmts`] of it succeeds, and the result equals the original once
/// every span is erased.
pub proof fn lemma_unparse_reparse(stmts: Seq<Loc<StmtV>>)
    requires
        parsed_stmts_wf(stmts),
    ensures
        match spec_parse(u_stmts(stmts)) {
            Ok(lp) => strip_stmts(lp.0.stmts) == strip_stmts(stmts),
            Err(_) => false,
        },
{
    let s = u_stmts(stmts);
    if stmts.len() == 0 {
        assert(s =~= Seq::<u8>::empty());
        lemma_no_stmt_at_end(s, 0);
        match spec_parse(s) {
            Ok(lp) => {
                assert(strip_stmts(lp.0.stmts) =~= strip_stmts(stmts));
            },
            Err(_) => {},
        }
    } else {
        lemma_u_stmts_alt(stmts);
        assert(s.subrange(0, s.len() as int) =~= s);
        lemma_stmts_roundtrip(s, 0, stmts, 0);
        match spec_parse(s) {
            Ok(lp) => {
                assert(strip_stmts(lp.0.stmts) =~= strip_stmts(stmts));
            },
            Err(_) => {},
        }
    }
}


} // verus!

