use sanskod::interpreter::{Interpreter, Value};
use sanskod::parser::ASTNode;
use sanskod::token::Token;

fn num(n: i64) -> Box<ASTNode> {
    Box::new(ASTNode::Number(n))
}

fn binop(l: i64, op: Token, r: i64) -> ASTNode {
    ASTNode::BinaryOp(num(l), op, num(r))
}

#[test]
fn test_interpret_print() {
    let node = ASTNode::Print("Hello".to_string());
    let mut interpreter = Interpreter::new();
    assert_eq!(interpreter.run(&node), None);
    assert_eq!(interpreter.take_output(), vec!["Hello".to_string()]);
}

#[test]
fn test_interpret_number() {
    let node = ASTNode::Number(42);
    let mut interpreter = Interpreter::new();
    assert_eq!(interpreter.run(&node), Some(Value::Number(42)));
}

#[test]
fn number_prints_nothing() {
    let mut interpreter = Interpreter::new();
    interpreter.run(&ASTNode::Number(7));
    assert!(interpreter.take_output().is_empty());
}

#[test]
fn declaration_then_reference() {
    let mut interpreter = Interpreter::new();
    assert_eq!(interpreter.run(&ASTNode::VarDeclaration("x".to_string(), num(5))), None);
    assert_eq!(interpreter.run(&ASTNode::VarReference("x".to_string())), Some(Value::Number(5)));
}

#[test]
fn redeclaration_overwrites() {
    let mut interpreter = Interpreter::new();
    interpreter.run(&ASTNode::VarDeclaration("x".to_string(), num(5)));
    interpreter.run(&ASTNode::VarDeclaration("y".to_string(), num(1)));
    interpreter.run(&ASTNode::VarDeclaration("x".to_string(), num(9)));
    assert_eq!(interpreter.run(&ASTNode::VarReference("x".to_string())), Some(Value::Number(9)));
    assert_eq!(interpreter.run(&ASTNode::VarReference("y".to_string())), Some(Value::Number(1)));
}

#[test]
fn unbound_reference_has_no_value() {
    let mut interpreter = Interpreter::new();
    assert_eq!(interpreter.run(&ASTNode::VarReference("nope".to_string())), None);
}

#[test]
fn declaration_without_value_keeps_binding() {
    let mut interpreter = Interpreter::new();
    interpreter.run(&ASTNode::VarDeclaration("x".to_string(), num(5)));
    let init = Box::new(ASTNode::VarReference("missing".to_string()));
    interpreter.run(&ASTNode::VarDeclaration("x".to_string(), init));
    assert_eq!(interpreter.run(&ASTNode::VarReference("x".to_string())), Some(Value::Number(5)));
}

#[test]
fn arithmetic_operators() {
    let mut interpreter = Interpreter::new();
    assert_eq!(interpreter.run(&binop(3, Token::Plus, 4)), Some(Value::Number(7)));
    assert_eq!(interpreter.run(&binop(3, Token::Minus, 4)), Some(Value::Number(-1)));
    assert_eq!(interpreter.run(&binop(3, Token::Multiply, 4)), Some(Value::Number(12)));
    assert_eq!(interpreter.run(&binop(7, Token::Divide, 2)), Some(Value::Number(3)));
    assert_eq!(interpreter.run(&binop(-7, Token::Divide, 2)), Some(Value::Number(-3)));
}

#[test]
fn division_by_zero_has_no_value() {
    let mut interpreter = Interpreter::new();
    assert_eq!(interpreter.run(&binop(3, Token::Divide, 0)), None);
}

#[test]
fn overflow_has_no_value() {
    let mut interpreter = Interpreter::new();
    assert_eq!(interpreter.run(&binop(i64::MAX, Token::Plus, 1)), None);
    assert_eq!(interpreter.run(&binop(i64::MIN, Token::Minus, 1)), None);
    assert_eq!(interpreter.run(&binop(i64::MAX, Token::Multiply, 2)), None);
    assert_eq!(interpreter.run(&binop(i64::MIN, Token::Divide, -1)), None);
}

#[test]
fn non_arithmetic_operator_has_no_value() {
    let mut interpreter = Interpreter::new();
    assert_eq!(interpreter.run(&binop(3, Token::Equals, 3)), None);
    assert_eq!(interpreter.run(&binop(3, Token::GreaterThan, 1)), None);
}

#[test]
fn non_number_operand_has_no_value() {
    let mut interpreter = Interpreter::new();
    let print = Box::new(ASTNode::Print("p".to_string()));
    assert_eq!(interpreter.run(&ASTNode::BinaryOp(print, Token::Plus, num(1))), None);
    let unbound = Box::new(ASTNode::VarReference("u".to_string()));
    assert_eq!(interpreter.run(&ASTNode::BinaryOp(num(1), Token::Plus, unbound)), None);
}

#[test]
fn nested_operations_and_variables() {
    let mut interpreter = Interpreter::new();
    interpreter.run(&ASTNode::VarDeclaration("x".to_string(), Box::new(binop(2, Token::Multiply, 5))));
    let sum = ASTNode::BinaryOp(Box::new(ASTNode::VarReference("x".to_string())), Token::Plus, num(1));
    assert_eq!(interpreter.run(&sum), Some(Value::Number(11)));
}

#[test]
fn prints_are_kept_in_order() {
    let mut interpreter = Interpreter::new();
    interpreter.run(&ASTNode::Print("a".to_string()));
    interpreter.run(&ASTNode::Print("b".to_string()));
    assert_eq!(interpreter.take_output(), vec!["a".to_string(), "b".to_string()]);
    assert!(interpreter.take_output().is_empty());
}

#[test]
fn value_copy_is_equal() {
    let v = Value::String("t".to_string());
    assert_eq!(v.duplicate(), v);
    assert_eq!(Value::Boolean(true).duplicate(), Value::Boolean(true));
}
