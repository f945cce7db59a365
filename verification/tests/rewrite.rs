use rpn_logic::ast::Node;
use rpn_logic::rpn_formula::{eval, parse, read_operation, FormulaError};
use rpn_logic::rpn_rewrite::{
    negation_normal_form, parse_rewrite, rewrite, tree_rewrite, PropositionalCapture, RewriteRule,
};

fn is_operand_char(c: char) -> bool {
    c == '0' || c == '1' || c.is_ascii_alphabetic()
}

fn check_nnf_shape(t: &Node) {
    assert!(t.token != '>' && t.token != '=' && t.token != '^');
    if t.token == '!' {
        let a = t.a.as_ref().unwrap();
        assert!(is_operand_char(a.token));
        assert!(a.a.is_none() && a.b.is_none());
        assert!(t.b.is_none());
    } else {
        if let Some(a) = &t.a {
            check_nnf_shape(a);
        }
        if let Some(b) = &t.b {
            check_nnf_shape(b);
        }
    }
}

fn substitute(f: &str, env: &[(char, bool)]) -> String {
    f.chars()
        .map(|c| {
            for (v, val) in env {
                if c == *v {
                    return if *val { '1' } else { '0' };
                }
            }
            c
        })
        .collect()
}

#[test]
fn nnf_implication() {
    assert_eq!(negation_normal_form("AB>").unwrap(), "A!B|");
}

#[test]
fn nnf_negated_conjunction() {
    assert_eq!(negation_normal_form("AB&!").unwrap(), "A!B!|");
}

#[test]
fn nnf_double_negation() {
    assert_eq!(negation_normal_form("A!!").unwrap(), "A");
}

#[test]
fn nnf_equivalence_and_xor() {
    assert_eq!(negation_normal_form("AB=").unwrap(), "A!B|AB!|&");
    assert_eq!(negation_normal_form("AB^").unwrap(), "A!B&AB!&|");
}

#[test]
fn nnf_negated_disjunction() {
    assert_eq!(negation_normal_form("AB|!").unwrap(), "A!B!&");
}

#[test]
fn nnf_nested() {
    assert_eq!(negation_normal_form("AB&C|!").unwrap(), "A!B!|C!&");
    assert_eq!(negation_normal_form("AB>CD>&").unwrap(), "A!B|C!D|&");
}

#[test]
fn nnf_leaves_normal_formulas_alone() {
    for f in ["A", "0", "A!", "AB&", "A!B|", "A!B!|C!&"] {
        assert_eq!(negation_normal_form(f).unwrap(), f);
    }
}

#[test]
fn nnf_shape_holds_on_mixed_formulas() {
    for f in ["AB>C=D^!", "AB=C^!", "AB>!!", "AB&CD|^E=", "PQ>QR>&PR>!|!"] {
        let g = negation_normal_form(f).unwrap();
        assert!(!g.contains('>') && !g.contains('=') && !g.contains('^'));
        let t = parse(&g).unwrap();
        check_nnf_shape(&t);
        assert_eq!(read_operation(&t), g);
    }
}

#[test]
fn nnf_is_idempotent_on_samples() {
    for f in ["AB>", "AB=", "AB^", "AB|!", "AB&!", "A!!", "AB>C=D^!", "PQ>QR>&PR>!|!"] {
        let g = negation_normal_form(f).unwrap();
        assert_eq!(negation_normal_form(&g).unwrap(), g);
    }
}

#[test]
fn nnf_preserves_truth_tables() {
    for f in ["AB>", "AB=", "AB^", "AB|!", "AB&!", "A!!", "AB>C=D^!", "ABC&|!"] {
        let g = negation_normal_form(f).unwrap();
        for bits in 0..16u32 {
            let env = [
                ('A', bits & 1 != 0),
                ('B', bits & 2 != 0),
                ('C', bits & 4 != 0),
                ('D', bits & 8 != 0),
            ];
            let vf = eval(&substitute(f, &env)).unwrap();
            let vg = eval(&substitute(&g, &env)).unwrap();
            assert_eq!(vf, vg, "formula {} and its normal form {} differ", f, g);
        }
    }
}

#[test]
fn nnf_keeps_the_verdict_of_substituted_formulas() {
    for f in ["01&", "10>", "11=", "01^!", "10>0=!", "01|10&>!"] {
        let g = negation_normal_form(f).unwrap();
        assert_eq!(eval(&g), eval(f));
    }
}

#[test]
fn nnf_propagates_parse_errors() {
    assert_eq!(negation_normal_form(""), Err(FormulaError::MalformedFormula).map(|v: String| v));
    assert_eq!(negation_normal_form("AB+"), Err(FormulaError::UnknownOperator));
    assert_eq!(negation_normal_form("A&"), Err(FormulaError::MalformedFormula));
}

#[test]
fn parse_rewrite_builds_both_trees() {
    let rule = parse_rewrite("AB>", "A!B|").unwrap();
    assert_eq!(rule.pattern.token, '>');
    assert_eq!(rule.pattern.a.as_ref().unwrap().token, 'A');
    assert_eq!(rule.substitute.token, '|');
    assert_eq!(rule.substitute.a.as_ref().unwrap().token, '!');
}

#[test]
fn parse_rewrite_reports_bad_texts() {
    assert_eq!(
        parse_rewrite("", "A").map(|_| ()),
        Err(FormulaError::MalformedFormula)
    );
    assert_eq!(
        parse_rewrite("A", "%0&").map(|_| ()),
        Err(FormulaError::UnknownOperator)
    );
}

#[test]
fn rewrite_applies_rule_to_other_letters() {
    let rule = parse_rewrite("AB>", "A!B|").unwrap();
    let rules = [rule];
    assert_eq!(rewrite("CD>", &rules).unwrap(), "C!D|");
    assert_eq!(rewrite("xy>", &rules).unwrap(), "x!y|");
}

#[test]
fn rewrite_captures_whole_subtrees() {
    let rule = parse_rewrite("AB>", "A!B|").unwrap();
    let rules = [rule];
    assert_eq!(rewrite("CD&EF|>", &rules).unwrap(), "CD&!EF||");
}

#[test]
fn rewrite_without_match_returns_formula() {
    let rule = parse_rewrite("AB>", "A!B|").unwrap();
    let rules = [rule];
    assert_eq!(rewrite("AB&", &rules).unwrap(), "AB&");
}

#[test]
fn tree_rewrite_reaches_a_fixpoint_in_place() {
    let rule = parse_rewrite("A!!", "A").unwrap();
    let rules = [rule];
    let mut t = parse("C!!!!").unwrap();
    assert_eq!(tree_rewrite(&mut t, &rules), Ok(()));
    assert_eq!(read_operation(&t), "C");
}

#[test]
fn capture_map_keeps_the_last_binding() {
    let mut caps = PropositionalCapture::new();
    assert!(caps.get('A').is_none());
    caps.insert('A', Node { token: 'x', a: None, b: None });
    caps.insert('B', Node { token: 'y', a: None, b: None });
    caps.insert('A', Node { token: 'z', a: None, b: None });
    assert_eq!(caps.get('A').unwrap().token, 'z');
    assert_eq!(caps.get('B').unwrap().token, 'y');
    assert!(caps.get('C').is_none());
}

#[test]
fn rules_can_be_built_by_hand() {
    let rule = RewriteRule {
        pattern: parse("AB&").unwrap(),
        substitute: parse("BA&").unwrap(),
    };
    let rules = [rule];
    assert_eq!(rewrite("01&", &rules).map(|_| ()), Err(FormulaError::NonTerminatingRewrite));
}
