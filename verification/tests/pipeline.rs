use jitcalc::JitError;
use jitcalc::codegen::generate_machine_code;
use jitcalc::eval::eval_postfix;
use jitcalc::host::{compile, plan_mapping, MAX_CODE_LEN};
use jitcalc::machine::run_code;
use jitcalc::tokens::{Oper, Token};
use jitcalc::translate::translate;

fn num(s: &str) -> Token {
    Token::Num(s.chars().collect())
}

fn evaluate(expr: &str) -> Option<i32> {
    let code = compile(expr).expect("expression should compile");
    run_code(&code)
}

#[test]
fn precedence_postfix_order() {
    let postfix = translate("1 + 2 * 3").unwrap();
    let expected = vec![
        num("1"),
        num("2"),
        num("3"),
        Token::Op(Oper::Mul),
        Token::Op(Oper::Add),
    ];
    assert_eq!(postfix, expected);
}

#[test]
fn precedence_evaluation() {
    assert_eq!(evaluate("1 + 2 * 3"), Some(7));
    let postfix = translate("1 + 2 * 3").unwrap();
    assert_eq!(eval_postfix(&postfix), Some(7));
}

#[test]
fn left_associativity_postfix_order() {
    let postfix = translate("8 - 3 - 2").unwrap();
    let expected = vec![
        num("8"),
        num("3"),
        Token::Op(Oper::Sub),
        num("2"),
        Token::Op(Oper::Sub),
    ];
    assert_eq!(postfix, expected);
}

#[test]
fn left_associativity_evaluation() {
    assert_eq!(evaluate("8 - 3 - 2"), Some(3));
    assert_ne!(evaluate("8 - 3 - 2"), Some(7));
}

#[test]
fn parentheses_override_precedence() {
    assert_eq!(evaluate("( 1 + 2 ) * 3"), Some(9));
    assert_eq!(evaluate("1 + 2 * 3"), Some(7));
}

#[test]
fn division_truncates_toward_zero() {
    assert_eq!(evaluate("7 / 2"), Some(3));
    assert_eq!(evaluate("-7 / 2"), Some(-3));
    assert_eq!(evaluate("7 / -2"), Some(-3));
    assert_eq!(evaluate("-7 / -2"), Some(3));
}

#[test]
fn pipeline_is_repeatable() {
    let first = compile("( 4 + 5 ) * 2 - 18 / 3").unwrap();
    let second = compile("( 4 + 5 ) * 2 - 18 / 3").unwrap();
    assert_eq!(first, second);
    assert_eq!(run_code(&first), Some(12));
    assert_eq!(run_code(&second), Some(12));
}

#[test]
fn malformed_operator_sequence_is_rejected() {
    assert_eq!(translate("1 + + 2"), Err(JitError::MalformedExpression));
    assert_eq!(compile("1 + + 2"), Err(JitError::MalformedExpression));
}

#[test]
fn unbalanced_parentheses_are_rejected() {
    assert_eq!(translate("(1 + 2"), Err(JitError::MalformedExpression));
    assert_eq!(translate("1 + 2)"), Err(JitError::MalformedExpression));
    assert_eq!(compile("(1 + 2"), Err(JitError::MalformedExpression));
}

#[test]
fn foreign_character_is_rejected() {
    assert_eq!(translate("1 $ 2"), Err(JitError::MalformedExpression));
    assert_eq!(translate("two + 2"), Err(JitError::MalformedExpression));
}

#[test]
fn empty_input_is_rejected() {
    assert_eq!(translate(""), Err(JitError::MalformedExpression));
    assert_eq!(translate("   "), Err(JitError::MalformedExpression));
}

#[test]
fn rejection_happens_before_any_code_exists() {
    // A rejected expression yields no code image at all, so there is
    // nothing whose mapping could even be requested.
    assert!(compile("1 + + 2").is_err());
    assert!(compile("(1 + 2").is_err());
}

#[test]
fn impossible_mapping_request_fails_cleanly() {
    assert_eq!(plan_mapping(usize::MAX), Err(JitError::MemoryAllocationFailure));
    assert_eq!(plan_mapping(MAX_CODE_LEN + 1), Err(JitError::MemoryAllocationFailure));
    assert_eq!(plan_mapping(0), Err(JitError::MemoryAllocationFailure));
    assert_eq!(plan_mapping(17), Ok(17));
}

#[test]
fn generated_bytes_for_addition() {
    let postfix = vec![num("1"), num("2"), Token::Op(Oper::Add)];
    let code = generate_machine_code(&postfix).unwrap();
    let expected: Vec<u8> = vec![
        0x68, 0x01, 0x00, 0x00, 0x00, // push 1
        0x68, 0x02, 0x00, 0x00, 0x00, // push 2
        0x5a, 0x58, 0x01, 0xd0, 0x50, // pop rdx; pop rax; add eax, edx; push rax
        0x58, 0xc3, // pop rax; ret
    ];
    assert_eq!(code, expected);
}

#[test]
fn generated_bytes_for_negative_literal() {
    let postfix = vec![num("-1")];
    let code = generate_machine_code(&postfix).unwrap();
    let expected: Vec<u8> = vec![0x68, 0xff, 0xff, 0xff, 0xff, 0x58, 0xc3];
    assert_eq!(code, expected);
}

#[test]
fn operand_outside_range_is_invalid() {
    let postfix = vec![num("99999999999")];
    assert_eq!(generate_machine_code(&postfix), Err(JitError::InvalidOperand));
    assert_eq!(compile("2147483648"), Err(JitError::InvalidOperand));
    assert_eq!(evaluate("2147483647"), Some(2147483647));
    assert_eq!(evaluate("-2147483648"), Some(-2147483648));
}

#[test]
fn grouping_mark_in_postfix_is_unsupported() {
    let postfix = vec![num("1"), Token::Open];
    assert_eq!(generate_machine_code(&postfix), Err(JitError::UnsupportedOperator));
    let postfix = vec![Token::Close];
    assert_eq!(generate_machine_code(&postfix), Err(JitError::UnsupportedOperator));
}

#[test]
fn arithmetic_wraps_at_32_bits() {
    assert_eq!(evaluate("2147483647 + 1"), Some(-2147483648));
    assert_eq!(evaluate("-2147483648 - 1"), Some(2147483647));
    assert_eq!(evaluate("65536 * 65536"), Some(0));
}

#[test]
fn trapping_division_has_no_value() {
    let code = compile("1 / 0").unwrap();
    assert_eq!(run_code(&code), None);
    let code = compile("-2147483648 / -1").unwrap();
    assert_eq!(run_code(&code), None);
    let postfix = translate("1 / 0").unwrap();
    assert_eq!(eval_postfix(&postfix), None);
}

#[test]
fn tokens_need_no_separators() {
    assert_eq!(translate("1+2*3").unwrap(), translate("1 + 2 * 3").unwrap());
    assert_eq!(evaluate("(1+2)*3"), Some(9));
}

#[test]
fn minus_binds_to_a_literal_in_operand_position() {
    assert_eq!(evaluate("(-3+5)*2"), Some(4));
    assert_eq!(evaluate("2--3"), Some(5));
    let postfix = translate("-7 / 2").unwrap();
    let expected = vec![num("-7"), num("2"), Token::Op(Oper::Div)];
    assert_eq!(postfix, expected);
}

#[test]
fn evaluator_reports_underflow_and_leftover() {
    let postfix = vec![Token::Op(Oper::Add)];
    assert_eq!(eval_postfix(&postfix), None);
    let postfix = vec![num("1"), num("2")];
    assert_eq!(eval_postfix(&postfix), None);
    let empty: Vec<Token> = vec![];
    assert_eq!(eval_postfix(&empty), None);
}

#[test]
fn interpreter_rejects_foreign_bytes() {
    let code: Vec<u8> = vec![0x90, 0x58, 0xc3];
    assert_eq!(run_code(&code), None);
    let empty: Vec<u8> = vec![];
    assert_eq!(run_code(&empty), None);
}

#[test]
fn extra_parentheses_change_nothing() {
    assert_eq!(translate("(1 + 2 * 3)").unwrap(), translate("1 + 2 * 3").unwrap());
    assert_eq!(translate("((8 - 3 - 2))").unwrap(), translate("8 - 3 - 2").unwrap());
    assert_eq!(evaluate("((7)) / ((2))"), Some(3));
}

#[test]
fn longer_expression_end_to_end() {
    assert_eq!(evaluate("2 * (3 + 4 * (5 - 2)) / 5"), Some(6));
    assert_eq!(evaluate("100 / 10 / 2"), Some(5));
}
