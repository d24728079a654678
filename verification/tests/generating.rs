use tensorlang::ast::BinaryOp;
use tensorlang::compiler::{Compiler, Token};
use tensorlang::parser::parse;

#[test]
fn fill_tensors_pick_their_construction_call() {
    let program = parse("[2 x 3; 0]; [1 x 5; 1]; [4; 9];").unwrap();
    let mut compiler = Compiler::default();
    compiler.compile_program(program);
    let toks = compiler.output();
    assert_eq!(toks.len(), 6);
    assert!(matches!(&toks[0], Token::Zeros { shape, .. } if shape == &vec![2, 3]));
    assert!(matches!(&toks[1], Token::Semi));
    assert!(matches!(&toks[2], Token::Ones { shape, .. } if shape == &vec![1, 5]));
    assert!(matches!(&toks[4], Token::Full { shape, fill: 9, .. } if shape == &vec![4]));
}

#[test]
fn range_tensors_pick_their_construction_call() {
    let program = parse("[0..10]; [2..20; 2];").unwrap();
    let mut compiler = Compiler::default();
    compiler.compile_program(program);
    let toks = compiler.output();
    assert!(matches!(&toks[0], Token::Arange { start: 0, stop: 10 }));
    assert!(matches!(
        &toks[2],
        Token::ArangeStep { start: 2, stop: 20, step: 2 }
    ));
}

#[test]
fn assignments_and_references_lower_in_order() {
    let program = parse("a = [2 x 2; 0]; a * a;").unwrap();
    let mut compiler = Compiler::default();
    compiler.compile_program(program);
    let toks = compiler.output();
    assert!(matches!(&toks[0], Token::Let(n) if n == &b"a".to_vec()));
    assert!(matches!(&toks[1], Token::Zeros { .. }));
    assert!(matches!(&toks[2], Token::Semi));
    assert!(matches!(&toks[3], Token::Ident(n) if n == &b"a".to_vec()));
    assert!(matches!(&toks[4], Token::Op(BinaryOp::Mul)));
    assert!(matches!(&toks[5], Token::Ident(n) if n == &b"a".to_vec()));
    assert!(matches!(&toks[6], Token::Semi));
}

#[test]
fn rendered_text_is_the_wrapped_token_join() {
    let program = parse("[2 x 3; 0];").unwrap();
    let mut compiler = Compiler::default();
    compiler.compile_program(program);
    let text = String::from_utf8(compiler.rendered()).unwrap();
    assert_eq!(
        text,
        "fn main() { Tensor::zeros((2usize, 3usize), DType::F32, &Device::Cpu) ; }"
    );
}

#[test]
fn rendered_range_carries_suffixed_literals() {
    let program = parse("[2..20; 2];").unwrap();
    let mut compiler = Compiler::default();
    compiler.compile_program(program);
    let text = String::from_utf8(compiler.rendered()).unwrap();
    assert_eq!(
        text,
        "fn main() { Tensor::arange_step(2i32, 20i32, 2i32, DType::I64, &Device::Cpu) ; }"
    );
}

#[test]
fn empty_program_renders_an_empty_body() {
    let compiler = Compiler::default();
    let text = String::from_utf8(compiler.rendered()).unwrap();
    assert_eq!(text, "fn main() {  }");
}

#[test]
fn pretty_formats_well_formed_output() {
    let program = parse("a = [2 x 2; 0]; a * [0..4];").unwrap();
    let mut compiler = Compiler::default();
    compiler.compile_program(program);
    let pretty = compiler.pretty().expect("output is well-formed");
    assert!(pretty.contains("fn main()"));
    assert!(pretty.contains("Tensor::zeros"));
    assert!(pretty.contains("Tensor::arange(0i32, 4i32, DType::I64, &Device::Cpu)"));
}

#[test]
fn pretty_rejects_a_keyword_identifier() {
    // `fn` parses as an identifier but collides with the target language.
    let program = parse("fn = [2 x 2; 0];").unwrap();
    let mut compiler = Compiler::default();
    compiler.compile_program(program);
    assert!(compiler.pretty().is_err());
}

#[test]
fn generation_ignores_type_errors() {
    let program = parse("[0..2] * [2 x 2; 0];").unwrap();
    let mut compiler = Compiler::default();
    compiler.compile_program(program);
    assert!(compiler.pretty().is_ok());
}
