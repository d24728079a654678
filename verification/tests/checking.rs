use tensorlang::ast::{DataType, Expr, Loc, Program, Span, Stmt};
use tensorlang::parser::parse;
use tensorlang::type_checker::{Type, TypeChecker, TypeError};

fn sp(a: usize, b: usize) -> Span {
    Span { start: a, end: b }
}

fn fill(shape: &[usize], dtype: Option<DataType>) -> Loc<Expr> {
    Loc(
        Expr::FillTensor {
            fill: Loc(0, sp(0, 1)),
            shape: shape.iter().map(|d| Loc(*d, sp(0, 1))).collect(),
            data_type: dtype.map(|d| Loc(d, sp(0, 1))),
        },
        sp(0, 1),
    )
}

fn mul(lhs: Loc<Expr>, rhs: Loc<Expr>) -> Loc<Expr> {
    Loc(
        Expr::Binary {
            lhs: Box::new(lhs),
            rhs: Box::new(rhs),
            op: Loc(tensorlang::ast::BinaryOp::Mul, sp(0, 1)),
        },
        sp(0, 1),
    )
}

#[test]
fn batched_matrix_multiply_infers_collapsed_shape() {
    let program = parse("a = [2 x 3 x 4; 0]; b = [2 x 4 x 5; 0]; c = a * b;").unwrap();
    let mut checker = TypeChecker::default();
    checker.check_program(&program);
    let entry = checker.symbol(&b"c".to_vec()).expect("c is bound");
    assert_eq!(
        entry.ty,
        Type::Tensor { shape: vec![2, 3, 5], dtype: DataType::F32 }
    );
    assert!(checker.into_errors().is_empty());
}

#[test]
fn mismatched_dtypes_raise_one_diagnostic() {
    let program = Loc(
        Program {
            stmts: vec![Loc(
                Stmt::Expr(mul(
                    fill(&[2, 4, 5], None),
                    fill(&[2, 5, 3], Some(DataType::F64)),
                )),
                sp(0, 1),
            )],
        },
        sp(0, 1),
    );
    let mut checker = TypeChecker::default();
    checker.check_program(&program);
    let errors = checker.into_errors();
    assert_eq!(errors.len(), 1);
    match &errors[0] {
        TypeError::IncompatibleDataTypes { lhs, rhs, .. } => {
            assert_eq!(*lhs, DataType::F32);
            assert_eq!(*rhs, DataType::F64);
        }
        other => panic!("expected a data type diagnostic, got {:?}", other),
    }
}

#[test]
fn rank_one_tensor_cannot_matrix_multiply() {
    // Both operands are ranges so the data types agree and the rank
    // check is reached.
    let program = parse("[0..10] * [2..4];").unwrap();
    let mut checker = TypeChecker::default();
    checker.check_program(&program);
    let errors = checker.into_errors();
    assert_eq!(errors.len(), 1);
    match &errors[0] {
        TypeError::CannotMultiply { lhs_shape, rhs_shape, .. } => {
            assert_eq!(lhs_shape, &vec![10]);
            assert_eq!(rhs_shape, &vec![2]);
        }
        other => panic!("expected a shape diagnostic, got {:?}", other),
    }
}

#[test]
fn dtypes_are_checked_before_shapes() {
    // A range tensor is 64-bit integer; a fill tensor defaults to a
    // 32-bit float, so the data types clash first.
    let program = parse("[0..10] * [2 x 2; 0];").unwrap();
    let mut checker = TypeChecker::default();
    checker.check_program(&program);
    let errors = checker.into_errors();
    assert_eq!(errors.len(), 1);
    match &errors[0] {
        TypeError::IncompatibleDataTypes { lhs, rhs, .. } => {
            assert_eq!(*lhs, DataType::I64);
            assert_eq!(*rhs, DataType::F32);
        }
        other => panic!("expected a data type diagnostic, got {:?}", other),
    }
}

#[test]
fn compatible_program_is_diagnosed_clean() {
    // A tensor-tensor product always has rank three with a collapsed
    // batch dimension, so chain rank-three operands.
    let program = parse("a = [1 x 2 x 2; 0]; b = a * a; b * a; [0..4]; c = [3 x 1; 5];").unwrap();
    let mut checker = TypeChecker::default();
    checker.check_program(&program);
    assert!(checker.into_errors().is_empty());
}

#[test]
fn mismatched_contraction_dimension_is_flagged() {
    let program = parse("[2 x 3; 0] * [2 x 3; 0];").unwrap();
    let mut checker = TypeChecker::default();
    checker.check_program(&program);
    let errors = checker.into_errors();
    assert_eq!(errors.len(), 1);
    assert!(matches!(errors[0], TypeError::CannotMultiply { .. }));
}

#[test]
fn unequal_ranks_are_flagged() {
    let program = parse("[2 x 3; 0] * [2 x 3 x 4; 0];").unwrap();
    let mut checker = TypeChecker::default();
    checker.check_program(&program);
    assert_eq!(checker.into_errors().len(), 1);
}

#[test]
fn checking_continues_after_an_error() {
    let program = parse("[0..2] * [2 x 2; 0]; [3 x 3; 0] * [3 x 2; 0];").unwrap();
    let mut checker = TypeChecker::default();
    checker.check_program(&program);
    assert_eq!(checker.into_errors().len(), 1);
}

#[test]
fn undefined_variable_is_silently_untyped() {
    let program = parse("ghostly * [2 x 2; 0]; d = ghostly;").unwrap();
    let mut checker = TypeChecker::default();
    checker.check_program(&program);
    assert!(checker.symbol(&b"d".to_vec()).is_none());
    assert!(checker.into_errors().is_empty());
}

#[test]
fn range_tensor_dimension_and_dtype() {
    let program = parse("r = [2..20; 2]; q = [0..10];").unwrap();
    let mut checker = TypeChecker::default();
    checker.check_program(&program);
    let r = checker.symbol(&b"r".to_vec()).expect("r is bound");
    assert_eq!(r.ty, Type::Tensor { shape: vec![9], dtype: DataType::I64 });
    let q = checker.symbol(&b"q".to_vec()).expect("q is bound");
    assert_eq!(q.ty, Type::Tensor { shape: vec![10], dtype: DataType::I64 });
}

#[test]
fn reversed_inexact_range_floors_then_wraps() {
    // floor(-1 / 2) is -1, which wraps to the largest machine word.
    let program = parse("r = [1..0; 2];").unwrap();
    let mut checker = TypeChecker::default();
    checker.check_program(&program);
    let r = checker.symbol(&b"r".to_vec()).expect("r is bound");
    assert_eq!(
        r.ty,
        Type::Tensor { shape: vec![usize::MAX], dtype: DataType::I64 }
    );
}

#[test]
fn reversed_range_wraps_its_dimension() {
    let program = parse("r = [10..0];").unwrap();
    let mut checker = TypeChecker::default();
    checker.check_program(&program);
    let r = checker.symbol(&b"r".to_vec()).expect("r is bound");
    assert_eq!(
        r.ty,
        Type::Tensor { shape: vec![usize::MAX - 9], dtype: DataType::I64 }
    );
}

#[test]
fn diagnostics_anchor_at_definition_sites() {
    let text = "a = [0..9]; a * [0..9];";
    let program = parse(text).unwrap();
    let mut checker = TypeChecker::default();
    checker.check_program(&program);
    let errors = checker.into_errors();
    assert_eq!(errors.len(), 1);
    match &errors[0] {
        TypeError::CannotMultiply { lhs_span, .. } => {
            // The span of the defining right-hand side `[0..9]`, not of
            // the later use of `a`.
            assert_eq!(lhs_span.start, 4);
            assert_eq!(lhs_span.end, 10);
        }
        other => panic!("expected a shape diagnostic, got {:?}", other),
    }
}

#[test]
fn later_assignment_wins() {
    let program = parse("a = [2 x 2; 0]; a = [0..3]; b = a;").unwrap();
    let mut checker = TypeChecker::default();
    checker.check_program(&program);
    let b = checker.symbol(&b"b".to_vec()).expect("b is bound");
    assert_eq!(b.ty, Type::Tensor { shape: vec![3], dtype: DataType::I64 });
}

#[test]
fn scalar_entries_multiply_by_dtype() {
    // Scalars are not produced by the grammar; bind them through the AST.
    let program = Loc(
        Program {
            stmts: vec![Loc(
                Stmt::Expr(mul(fill(&[2, 2], None), fill(&[2, 2], None))),
                sp(0, 1),
            )],
        },
        sp(0, 1),
    );
    let mut checker = TypeChecker::default();
    checker.check_program(&program);
    assert!(checker.into_errors().is_empty());
}
