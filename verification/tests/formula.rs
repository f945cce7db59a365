use rpn_logic::rpn_formula::{
    eval, is_binary_operator, is_operand, is_operator, is_unary_operator, parse, read_operation,
    FormulaError,
};

#[test]
fn classifier_operands() {
    assert!(is_operand('0'));
    assert!(is_operand('1'));
    assert!(is_operand('A'));
    assert!(is_operand('z'));
    assert!(!is_operand('&'));
    assert!(!is_operand('!'));
    assert!(!is_operand('2'));
}

#[test]
fn classifier_operators() {
    assert!(is_operator('&'));
    assert!(is_operator('%'));
    assert!(!is_operator('B'));
    assert!(is_unary_operator('!'));
    assert!(!is_unary_operator('&'));
    assert!(is_binary_operator('&'));
    assert!(is_binary_operator('>'));
    assert!(!is_binary_operator('!'));
    assert!(!is_binary_operator('A'));
    assert!(is_binary_operator('%'));
}

#[test]
fn parse_builds_binary_tree() {
    let t = parse("AB&").unwrap();
    assert_eq!(t.token, '&');
    assert_eq!(t.a.as_ref().unwrap().token, 'A');
    assert_eq!(t.b.as_ref().unwrap().token, 'B');
}

#[test]
fn parse_builds_unary_tree() {
    let t = parse("A!").unwrap();
    assert_eq!(t.token, '!');
    assert_eq!(t.a.as_ref().unwrap().token, 'A');
    assert!(t.b.is_none());
}

#[test]
fn print_inverts_parse() {
    for f in ["0", "A", "A!", "AB&", "AB&C|", "AB|C&!", "10|1&", "AB>C=D^!", "AB&CD|^E="] {
        let t = parse(f).unwrap();
        assert_eq!(read_operation(&t), f);
    }
}

#[test]
fn parse_takes_rightmost_expression() {
    let t = parse("AB").unwrap();
    assert_eq!(t.token, 'B');
    assert_eq!(read_operation(&t), "B");
}

#[test]
fn parse_rejects_empty_and_short_formulas() {
    assert_eq!(parse("").map(|_| ()), Err(FormulaError::MalformedFormula));
    assert_eq!(parse("&").map(|_| ()), Err(FormulaError::MalformedFormula));
    assert_eq!(parse("A&").map(|_| ()), Err(FormulaError::MalformedFormula));
    assert_eq!(parse("!").map(|_| ()), Err(FormulaError::MalformedFormula));
}

#[test]
fn parse_rejects_unknown_operator() {
    assert_eq!(parse("0%").map(|_| ()), Err(FormulaError::UnknownOperator));
    assert_eq!(parse("AB+").map(|_| ()), Err(FormulaError::UnknownOperator));
}

#[test]
fn eval_table() {
    assert_eq!(eval("01&"), Ok(false));
    assert_eq!(eval("01|"), Ok(true));
    assert_eq!(eval("0!"), Ok(true));
    assert_eq!(eval("11&"), Ok(true));
    assert_eq!(eval("10>"), Ok(false));
    assert_eq!(eval("10="), Ok(false));
    assert_eq!(eval("11="), Ok(true));
}

#[test]
fn eval_longer_formulas() {
    assert_eq!(eval("10|1&"), Ok(true));
    assert_eq!(eval("101|&"), Ok(true));
    assert_eq!(eval("00>"), Ok(true));
    assert_eq!(eval("110!&>"), Ok(true));
    assert_eq!(eval("110&>"), Ok(false));
    assert_eq!(eval("010&>"), Ok(true));
    assert_eq!(eval("00="), Ok(true));
    assert_eq!(eval("10&1="), Ok(false));
    assert_eq!(eval("10|1="), Ok(true));
    assert_eq!(eval("01|1&"), Ok(true));
    assert_eq!(eval("01^"), Ok(true));
    assert_eq!(eval("11^"), Ok(false));
}

#[test]
fn eval_errors() {
    assert_eq!(eval(""), Err(FormulaError::MalformedFormula));
    assert_eq!(eval("!"), Err(FormulaError::MalformedFormula));
    assert_eq!(eval("1&"), Err(FormulaError::MalformedFormula));
    assert_eq!(eval("A1&"), Err(FormulaError::UnboundVariable));
    assert_eq!(eval("1%"), Err(FormulaError::UnknownOperator));
}

#[test]
fn eval_ignores_values_below_the_top() {
    assert_eq!(eval("01"), Ok(true));
    assert_eq!(eval("10"), Ok(false));
    assert_eq!(eval("110!"), Ok(true));
}
