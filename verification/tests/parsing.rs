use tensorlang::ast::{BinaryOp, Expr, Loc, Span, Stmt};
use tensorlang::parser::{parse, unparse};

#[test]
fn test_parse_program() {
    let program = parse("[2 x 3; 0]; [1 x 5; 1]; [0..10]; a = [2..20 ; 2];").unwrap();
    assert_eq!(program.0.stmts.len(), 4);
    match &program.0.stmts[0].0 {
        Stmt::Expr(e) => match &e.0 {
            Expr::FillTensor { fill, shape, data_type } => {
                assert_eq!(fill.0, 0);
                assert_eq!(shape.iter().map(|d| d.0).collect::<Vec<_>>(), vec![2, 3]);
                assert!(data_type.is_none());
            }
            other => panic!("expected a fill tensor, got {:?}", other),
        },
        other => panic!("expected an expression statement, got {:?}", other),
    }
}

#[test]
fn fill_tensor_literal() {
    let program = parse("[2 x 3; 0];").unwrap();
    assert_eq!(program.0.stmts.len(), 1);
    match &program.0.stmts[0].0 {
        Stmt::Expr(e) => match &e.0 {
            Expr::FillTensor { fill, shape, data_type } => {
                assert_eq!(fill.0, 0);
                assert_eq!(shape.iter().map(|d| d.0).collect::<Vec<_>>(), vec![2, 3]);
                assert!(data_type.is_none());
            }
            other => panic!("expected a fill tensor, got {:?}", other),
        },
        other => panic!("expected an expression statement, got {:?}", other),
    }
}

#[test]
fn range_tensor_literals() {
    let program = parse("[0..10];").unwrap();
    match &program.0.stmts[0].0 {
        Stmt::Expr(e) => match &e.0 {
            Expr::RangeTensor { start, stop, step } => {
                assert_eq!(start.0, 0);
                assert_eq!(stop.0, 10);
                assert!(step.is_none());
            }
            other => panic!("expected a range tensor, got {:?}", other),
        },
        other => panic!("expected an expression statement, got {:?}", other),
    }
    let program = parse("[2..20;2];").unwrap();
    match &program.0.stmts[0].0 {
        Stmt::Expr(e) => match &e.0 {
            Expr::RangeTensor { start, stop, step } => {
                assert_eq!(start.0, 2);
                assert_eq!(stop.0, 20);
                assert_eq!(step.as_ref().map(|s| s.0), Some(2));
            }
            other => panic!("expected a range tensor, got {:?}", other),
        },
        other => panic!("expected an expression statement, got {:?}", other),
    }
}

#[test]
fn assignment_and_variable_reference() {
    let program = parse("a = [2 x 3; 0]; a * a;").unwrap();
    assert_eq!(program.0.stmts.len(), 2);
    match &program.0.stmts[0].0 {
        Stmt::Assign { lhs, rhs: _ } => assert_eq!(lhs.0, b"a".to_vec()),
        other => panic!("expected an assignment, got {:?}", other),
    }
    match &program.0.stmts[1].0 {
        Stmt::Expr(e) => match &e.0 {
            Expr::Binary { lhs, rhs, op } => {
                assert_eq!(op.0, BinaryOp::Mul);
                assert_eq!(lhs.0, Expr::Variable(b"a".to_vec()));
                assert_eq!(rhs.0, Expr::Variable(b"a".to_vec()));
            }
            other => panic!("expected a multiplication, got {:?}", other),
        },
        other => panic!("expected an expression statement, got {:?}", other),
    }
}

#[test]
fn spans_cover_the_tokens() {
    let program = parse("[0..10];").unwrap();
    assert_eq!(program.1.start, 0);
    assert_eq!(program.1.end, 8);
    match &program.0.stmts[0].0 {
        Stmt::Expr(e) => match &e.0 {
            Expr::RangeTensor { start, stop, .. } => {
                assert_eq!((start.1.start, start.1.end), (1, 2));
                assert_eq!((stop.1.start, stop.1.end), (4, 6));
            }
            other => panic!("expected a range tensor, got {:?}", other),
        },
        other => panic!("expected an expression statement, got {:?}", other),
    }
}

#[test]
fn fill_before_range_priority() {
    // `[2; 0]` could open a range; the fill alternative wins.
    let program = parse("[2; 0];").unwrap();
    match &program.0.stmts[0].0 {
        Stmt::Expr(e) => match &e.0 {
            Expr::FillTensor { fill, shape, .. } => {
                assert_eq!(fill.0, 0);
                assert_eq!(shape.iter().map(|d| d.0).collect::<Vec<_>>(), vec![2]);
            }
            other => panic!("expected a fill tensor, got {:?}", other),
        },
        other => panic!("expected an expression statement, got {:?}", other),
    }
}

#[test]
fn empty_shape_is_rejected() {
    // A fill tensor needs at least one dimension.
    assert!(parse("[; 7];").is_err());
}

#[test]
fn empty_input_is_a_program() {
    let program = parse("").unwrap();
    assert!(program.0.stmts.is_empty());
    assert_eq!((program.1.start, program.1.end), (0, 0));
}

#[test]
fn malformed_input_yields_no_program() {
    assert!(parse("[2 x 3").is_err());
    assert!(parse("a").is_err());
    assert!(parse("[2 x 3; 0]").is_err());
    assert_eq!(parse("a * ;").unwrap_err().pos, 0);
}

#[test]
fn trailing_garbage_position_is_reported() {
    let err = parse("[1; 0]; ?").unwrap_err();
    assert_eq!(err.pos, 8);
}

#[test]
fn oversize_literal_fails_the_parse() {
    assert!(parse("[0..99999999999];").is_err());
    assert!(parse("[1 x 2; 99999999999];").is_err());
}

#[test]
fn leading_zero_is_a_lone_zero() {
    // `01` reads as `0` followed by `1`, which fits no rule.
    assert!(parse("[01..2];").is_err());
    let program = parse("[0..2];").unwrap();
    match &program.0.stmts[0].0 {
        Stmt::Expr(e) => match &e.0 {
            Expr::RangeTensor { start, .. } => assert_eq!(start.0, 0),
            other => panic!("expected a range tensor, got {:?}", other),
        },
        other => panic!("expected an expression statement, got {:?}", other),
    }
}

#[test]
fn loc_map_keeps_the_span() {
    let loc = Loc(21u64, Span { start: 3, end: 9 });
    let mapped = loc.map(|v| v * 2);
    assert_eq!(mapped.0, 42);
    assert_eq!(mapped.1, Span { start: 3, end: 9 });
}

#[test]
fn unparse_then_reparse_preserves_structure() {
    let text = "[2 x 3; 0]; [1 x 5; 1]; [0..10]; a = [2..20 ; 2]; a * a * [2; 1];";
    let p1 = parse(text).unwrap();
    let s1 = unparse(&p1);
    assert_eq!(
        String::from_utf8(s1.clone()).unwrap(),
        "[2 x 3; 0]; [1 x 5; 1]; [0..10]; a = [2..20; 2]; a * a * [2; 1];"
    );
    let p2 = parse(&String::from_utf8(s1.clone()).unwrap()).unwrap();
    // Serializing again reproduces the very same text: the round trip is
    // exact up to the freshly computed spans.
    assert_eq!(unparse(&p2), s1);
    assert_eq!(p1.0.stmts.len(), p2.0.stmts.len());
}

#[test]
fn unparse_of_canonical_text_is_identity() {
    let text = "[4; 7]; r = [0..3];";
    let program = parse(text).unwrap();
    assert_eq!(String::from_utf8(unparse(&program)).unwrap(), text);
}
