//! Parsing, printing and evaluation of postfix boolean formulas.
//!
//! A formula is a string without separators; each character is an operand
//! (`0`, `1`, or an ASCII letter naming a free variable) or an operator
//! (`!` unary; `& | ^ > =` binary).  The parser consumes the string from
//! its right end, where the root operator of a postfix expression stands;
//! the printer is its inverse.  The evaluator reads the string from the
//! left with a stack of bits.

use vstd::prelude::*;

use crate::bitstack::{stack_bits, BitStack};
use crate::ast::{
    bin_sem, sem, print_tree, spec_is_binary, spec_is_operand, spec_is_unary, spec_is_variable, var_free, wf,
    Node,
};

verus! {

/// The ways a formula can be rejected.
#[derive(Clone, Copy, Debug, PartialEq, Eq, Structural)]
pub enum FormulaError {
    /// An operator found too few operands, or a formula was empty.
    MalformedFormula,
    /// A character outside the recognized alphabet.
    UnknownOperator,
    /// A free variable reached the evaluator, which handles only bits.
    UnboundVariable,
    /// The rewrite engine exhausted its step bound before a fixpoint.
    NonTerminatingRewrite,
}

/// True for `0`, `1`, or an ASCII letter (a free propositional variable).
pub fn is_operand(token: char) -> (r: bool)
    ensures
        r == spec_is_operand(token),
{
    let u = token as u32;
    token == '0' || token == '1' || ('a' as u32 <= u && u <= 'z' as u32) || ('A' as u32 <= u
        && u <= 'Z' as u32)
}

/// The complement of `is_operand`: every non-operand character is
/// classified as an operator, recognized or not.
pub fn is_operator(token: char) -> (r: bool)
    ensures
        r == !spec_is_operand(token),
{
    !is_operand(token)
}

/// True only for `!`.
pub fn is_unary_operator(token: char) -> (r: bool)
    ensures
        r == spec_is_unary(token),
{
    token == '!'
}

/// An operator other than the unary one.
pub fn is_binary_operator(token: char) -> (r: bool)
    ensures
        r == (!spec_is_operand(token) && !spec_is_unary(token)),
{
    is_operator(token) && !is_unary_operator(token)
}

/// One of the recognized binary connectives.
fn is_connective(token: char) -> (r: bool)
    ensures
        r == spec_is_binary(token),
{
    token == '&' || token == '|' || token == '^' || token == '>' || token == '='
}

/// The result of parsing one postfix expression from the right end of `s`:
/// the tree and the unconsumed prefix, or the error.  The guard on the
/// second recursive call only serves termination checking; by
/// [`lemma_parse_at_sound`] the remainder always shrinks, so the guard
/// never fails.
pub open spec fn parse_at(s: Seq<char>) -> Result<(Node, Seq<char>), FormulaError>
    decreases s.len(),
{
    if s.len() == 0 {
        Err(FormulaError::MalformedFormula)
    } else {
        let t = s.last();
        let rest = s.drop_last();
        if spec_is_operand(t) {
            Ok((Node { token: t, a: None, b: None }, rest))
        } else if spec_is_unary(t) {
            match parse_at(rest) {
                Ok((a, r1)) => Ok((Node { token: t, a: Some(Box::new(a)), b: None }, r1)),
                Err(e) => Err(e),
            }
        } else if spec_is_binary(t) {
            match parse_at(rest) {
                Ok((b, r1)) => if r1.len() < s.len() {
                    match parse_at(r1) {
                        Ok(
                            (a, r2),
                        ) => Ok(
                            (Node { token: t, a: Some(Box::new(a)), b: Some(Box::new(b)) }, r2),
                        ),
                        Err(e) => Err(e),
                    }
                } else {
                    Err(FormulaError::MalformedFormula)
                },
                Err(e) => Err(e),
            }
        } else {
            Err(FormulaError::UnknownOperator)
        }
    }
}

/// A serialized tree is never empty: it ends with the root token.
pub proof fn lemma_print_tree_len(t: Node)
    ensures
        print_tree(t).len() >= 1,
        print_tree(t).last() == t.token,
{
}

/// Soundness of the parser: a parse yields a well-formed tree whose
/// serialization is exactly the consumed suffix.
pub proof fn lemma_parse_at_sound(s: Seq<char>)
    ensures
        parse_at(s) matches Ok(p) ==> wf(p.0) && p.1.len() < s.len() && s == p.1 + print_tree(p.0),
    decreases s.len(),
{
    if s.len() == 0 {
    } else {
        let t = s.last();
        let rest = s.drop_last();
        if spec_is_operand(t) {
            match parse_at(s) {
                Ok(p) => {
                    assert(s =~= rest + print_tree(p.0));
                },
                Err(_) => {},
            }
        } else if spec_is_unary(t) {
            lemma_parse_at_sound(rest);
            match parse_at(rest) {
                Ok(p) => {
                    let n = Node { token: t, a: Some(Box::new(p.0)), b: None };
                    assert(s =~= rest.push(t));
                    assert(rest == p.1 + print_tree(p.0));
                    assert(print_tree(n) == print_tree(p.0) + seq![t]);
                    assert(s =~= p.1 + print_tree(n));
                },
                Err(_) => {},
            }
        } else if spec_is_binary(t) {
            lemma_parse_at_sound(rest);
            match parse_at(rest) {
                Ok(p) => {
                    let b = p.0;
                    let r1 = p.1;
                    lemma_parse_at_sound(r1);
                    match parse_at(r1) {
                        Ok(q) => {
                            let n = Node {
                                token: t,
                                a: Some(Box::new(q.0)),
                                b: Some(Box::new(b)),
                            };
                            assert(s =~= rest.push(t));
                            assert(rest == r1 + print_tree(b));
                            assert(r1 == q.1 + print_tree(q.0));
                            assert(print_tree(n) == print_tree(q.0) + print_tree(b) + seq![t]);
                            assert(s =~= q.1 + print_tree(n));
                        },
                        Err(_) => {},
                    }
                },
                Err(_) => {},
            }
        }
    }
}

/// Completeness of the parser: the serialization of a well-formed tree,
/// after any prefix, parses back to exactly that tree and that prefix.
pub proof fn lemma_parse_at_complete(t: Node, r: Seq<char>)
    requires
        wf(t),
    ensures
        parse_at(r + print_tree(t)) == Ok::<(Node, Seq<char>), FormulaError>((t, r)),
    decreases t,
{
    let s = r + print_tree(t);
    lemma_print_tree_len(t);
    assert(s.last() == t.token);
    if spec_is_operand(t.token) {
        assert(s.drop_last() =~= r);
        assert(parse_at(s)->Ok_0.0 == t);
    } else if spec_is_unary(t.token) {
        let a = *t.a->Some_0;
        lemma_print_tree_len(a);
        assert(s.drop_last() =~= r + print_tree(a));
        lemma_parse_at_complete(a, r);
        assert(parse_at(s)->Ok_0.0 == t);
    } else {
        let a = *t.a->Some_0;
        let b = *t.b->Some_0;
        lemma_print_tree_len(a);
        lemma_print_tree_len(b);
        assert(s.drop_last() =~= (r + print_tree(a)) + print_tree(b));
        lemma_parse_at_complete(b, r + print_tree(a));
        lemma_parse_at_complete(a, r);
        assert(parse_at(s)->Ok_0.0 == t);
    }
}

/// A well-formed tree's own text parses back to exactly that tree with
/// nothing left over: the printer inverts the parser.
pub proof fn lemma_text_parses_to(t: Node)
    requires
        wf(t),
    ensures
        parse_at(print_tree(t)) == Ok::<(Node, Seq<char>), FormulaError>((t, Seq::<char>::empty())),
{
    lemma_parse_at_complete(t, Seq::<char>::empty());
    assert(Seq::<char>::empty() + print_tree(t) =~= print_tree(t));
}

/// The round trip stated at the level of strings: a string that parses
/// with nothing left over is exactly the serialization of its tree.
pub proof fn lemma_round_trip(s: Seq<char>)
    requires
        parse_at(s) matches Ok(p) && p.1.len() == 0,
    ensures
        parse_at(s) matches Ok(p) ==> print_tree(p.0) == s && wf(p.0),
{
    lemma_parse_at_sound(s);
    match parse_at(s) {
        Ok(p) => {
            assert(p.1 + print_tree(p.0) =~= print_tree(p.0));
        },
        Err(_) => {},
    }
}

/// Parses one expression from the right end of `chars`, removing what it
/// consumes.  Mirrors [`parse_at`] exactly, error for error.
fn parse_operation(chars: &mut Vec<char>) -> (r: Result<Node, FormulaError>)
    ensures
        match parse_at(old(chars)@) {
            Ok(p) => r == Ok::<Node, FormulaError>(p.0) && final(chars)@ == p.1,
            Err(e) => r == Err::<Node, FormulaError>(e),
        },
    decreases old(chars)@.len(),
{
    match chars.pop() {
        None => Err(FormulaError::MalformedFormula),
        Some(t) => {
            proof {
                assert(old(chars)@.drop_last() =~= chars@);
            }
            if is_operand(t) {
                Ok(Node::leaf(t))
            } else if is_unary_operator(t) {
                match parse_operation(chars) {
                    Ok(a) => Ok(Node { token: t, a: Some(Box::new(a)), b: None }),
                    Err(e) => Err(e),
                }
            } else if is_connective(t) {
                proof {
                    lemma_parse_at_sound(chars@);
                }
                match parse_operation(chars) {
                    Ok(b) => {
                        match parse_operation(chars) {
                            Ok(a) => Ok(
                                Node { token: t, a: Some(Box::new(a)), b: Some(Box::new(b)) },
                            ),
                            Err(e) => Err(e),
                        }
                    },
                    Err(e) => Err(e),
                }
            } else {
                Err(FormulaError::UnknownOperator)
            }
        },
    }
}

/// Parses a postfix formula into its expression tree.
///
/// The rightmost character is the root of the formula; see [`parse_at`]
/// for the exact consumption order.  Characters to the left of one
/// complete expression are ignored, as in the evaluator's counterpart
/// (see `spec_eval` on leftover stack values).  Fails with
/// `MalformedFormula` when the string is exhausted while an operand is
/// still expected, and with `UnknownOperator` on a character outside the
/// alphabet.
pub fn parse(input: &str) -> (r: Result<Node, FormulaError>)
    ensures
        match parse_at(input@) {
            Ok(p) => r == Ok::<Node, FormulaError>(p.0),
            Err(e) => r == Err::<Node, FormulaError>(e),
        },
        r matches Ok(t) ==> wf(t),
{
    let mut chars = str_to_chars(input);
    let r = parse_operation(&mut chars);
    proof {
        lemma_parse_at_sound(input@);
    }
    r
}

/// Collects the characters of a string slice into a vector.
fn str_to_chars(input: &str) -> (r: Vec<char>)
    ensures
        r@ == input@,
{
    let n = input.unicode_len();
    let mut chars: Vec<char> = Vec::new();
    let mut i: usize = 0;
    while i < n
        invariant
            i <= n,
            n == input@.len(),
            chars@ == input@.take(i as int),
        decreases n - i,
    {
        chars.push(input.get_char(i));
        proof {
            assert(chars@ =~= input@.take(i + 1 as int));
        }
        i += 1;
    }
    proof {
        assert(chars@ =~= input@);
    }
    chars
}

/// Appends the postfix serialization of `node` to `out`.
fn push_postfix(node: &Node, out: &mut Vec<char>)
    ensures
        final(out)@ == old(out)@ + print_tree(*node),
    decreases *node,
{
    if is_unary_operator(node.token) {
        match &node.a {
            Some(a) => {
                push_postfix(a, out);
            },
            None => {},
        }
        out.push(node.token);
    } else if is_connective(node.token) {
        match (&node.a, &node.b) {
            (Some(a), Some(b)) => {
                push_postfix(a, out);
                push_postfix(b, out);
            },
            _ => {},
        }
        out.push(node.token);
    } else {
        out.push(node.token);
    }
    proof {
        assert(out@ =~= old(out)@ + print_tree(*node));
    }
}

/// One step of the stack machine: the effect of the character `c` on the
/// stack `st`, or the error it raises.  Literal bits are pushed; `!` pops
/// one value and pushes its negation; a binary connective pops the second
/// operand, then the first, and pushes the connective's value; a variable
/// cannot be interpreted as a bit, and any other character is outside the
/// alphabet.
pub open spec fn eval_step(c: char, st: Seq<bool>) -> Result<Seq<bool>, FormulaError> {
    if c == '0' {
        Ok(st.push(false))
    } else if c == '1' {
        Ok(st.push(true))
    } else if spec_is_variable(c) {
        Err(FormulaError::UnboundVariable)
    } else if spec_is_unary(c) {
        if st.len() >= 1 {
            Ok(st.drop_last().push(!st.last()))
        } else {
            Err(FormulaError::MalformedFormula)
        }
    } else if spec_is_binary(c) {
        if st.len() >= 2 {
            Ok(st.drop_last().drop_last().push(bin_sem(c, st[st.len() - 2], st.last())))
        } else {
            Err(FormulaError::MalformedFormula)
        }
    } else {
        Err(FormulaError::UnknownOperator)
    }
}

/// The stack machine run over all of `s`, starting from the stack `st`.
pub open spec fn eval_steps(s: Seq<char>, st: Seq<bool>) -> Result<Seq<bool>, FormulaError>
    decreases s.len(),
{
    if s.len() == 0 {
        Ok(st)
    } else {
        match eval_step(s.first(), st) {
            Ok(st1) => eval_steps(s.drop_first(), st1),
            Err(e) => Err(e),
        }
    }
}

/// The value of a formula: the top of the stack once every character is
/// consumed.  Values left below the top are ignored rather than
/// rejected; an empty stack at the end is a malformed formula.
pub open spec fn spec_eval(s: Seq<char>) -> Result<bool, FormulaError> {
    match eval_steps(s, Seq::<bool>::empty()) {
        Ok(st) => if st.len() >= 1 {
            Ok(st.last())
        } else {
            Err(FormulaError::MalformedFormula)
        },
        Err(e) => Err(e),
    }
}

/// Running the machine over `s1 + s2` is running it over `s1`, then over
/// `s2` from the stack `s1` left.
pub proof fn lemma_eval_steps_app(s1: Seq<char>, s2: Seq<char>, st: Seq<bool>)
    ensures
        eval_steps(s1 + s2, st) == (match eval_steps(s1, st) {
            Ok(m) => eval_steps(s2, m),
            Err(e) => Err(e),
        }),
    decreases s1.len(),
{
    if s1.len() == 0 {
        assert(s1 + s2 =~= s2);
    } else {
        assert((s1 + s2).first() == s1.first());
        assert((s1 + s2).drop_first() =~= s1.drop_first() + s2);
        match eval_step(s1.first(), st) {
            Ok(st1) => {
                lemma_eval_steps_app(s1.drop_first(), s2, st1);
            },
            Err(_) => {},
        }
    }
}

/// The stack machine agrees with the tree semantics: running the
/// serialization of a well-formed, variable-free tree pushes exactly the
/// tree's value.
pub proof fn lemma_eval_agrees_with_sem(t: Node, st: Seq<bool>, env: Map<char, bool>)
    requires
        wf(t),
        var_free(t),
    ensures
        eval_steps(print_tree(t), st) == Ok::<Seq<bool>, FormulaError>(st.push(sem(t, env))),
    decreases t,
{
    if spec_is_operand(t.token) {
        let c = t.token;
        let st1 = st.push(sem(t, env));
        assert(eval_step(c, st) == Ok::<Seq<bool>, FormulaError>(st1));
        assert(eval_steps(Seq::<char>::empty(), st1) == Ok::<Seq<bool>, FormulaError>(st1));
        assert(print_tree(t).drop_first() =~= Seq::<char>::empty());
        assert(print_tree(t).first() == c);
    } else if spec_is_unary(t.token) {
        let a = *t.a->Some_0;
        lemma_eval_agrees_with_sem(a, st, env);
        lemma_eval_steps_app(print_tree(a), seq![t.token], st);
        let st1 = st.push(sem(a, env));
        let st2 = st.push(sem(t, env));
        assert(st1.drop_last() =~= st);
        assert(eval_step(t.token, st1) == Ok::<Seq<bool>, FormulaError>(st2));
        assert(eval_steps(Seq::<char>::empty(), st2) == Ok::<Seq<bool>, FormulaError>(st2));
        assert(seq![t.token].drop_first() =~= Seq::<char>::empty());
        assert(eval_steps(seq![t.token], st1) == Ok::<Seq<bool>, FormulaError>(st2));
    } else {
        let a = *t.a->Some_0;
        let b = *t.b->Some_0;
        lemma_eval_agrees_with_sem(a, st, env);
        let st1 = st.push(sem(a, env));
        lemma_eval_agrees_with_sem(b, st1, env);
        let st2 = st1.push(sem(b, env));
        lemma_eval_steps_app(print_tree(a), print_tree(b) + seq![t.token], st);
        lemma_eval_steps_app(print_tree(b), seq![t.token], st1);
        assert(print_tree(t) =~= print_tree(a) + (print_tree(b) + seq![t.token]));
        let st3 = st.push(sem(t, env));
        assert(st2.drop_last().drop_last() =~= st);
        assert(st2[st2.len() - 2] == sem(a, env));
        assert(eval_step(t.token, st2) == Ok::<Seq<bool>, FormulaError>(st3));
        assert(eval_steps(Seq::<char>::empty(), st3) == Ok::<Seq<bool>, FormulaError>(st3));
        assert(seq![t.token].drop_first() =~= Seq::<char>::empty());
        assert(eval_steps(seq![t.token], st2) == Ok::<Seq<bool>, FormulaError>(st3));
    }
}

/// The two directions of the string convention meet: evaluating the
/// printed form of a variable-free tree yields the tree's value.
pub proof fn lemma_eval_of_printed(t: Node, env: Map<char, bool>)
    requires
        wf(t),
        var_free(t),
    ensures
        spec_eval(print_tree(t)) == Ok::<bool, FormulaError>(sem(t, env)),
{
    lemma_eval_agrees_with_sem(t, Seq::<bool>::empty(), env);
}

/// The truth table of one recognized connective, executably.
fn apply_binary(op: char, a: bool, b: bool) -> (r: bool)
    requires
        spec_is_binary(op),
    ensures
        r == bin_sem(op, a, b),
{
    if op == '&' {
        a && b
    } else if op == '|' {
        a || b
    } else if op == '^' {
        a != b
    } else if op == '>' {
        !a || b
    } else {
        a == b
    }
}

/// Evaluates a formula whose operands are all literal bits, reading it
/// left to right over a stack of bits.
///
/// The result is the top of the stack after the last character; see
/// [`spec_eval`].  The length bound keeps the bit stack below the
/// capacity its vector can encode.
pub fn eval(input: &str) -> (r: Result<bool, FormulaError>)
    requires
        input@.len() < 0x1fff_ffff,
    ensures
        r == spec_eval(input@),
{
    let n = input.unicode_len();
    let mut bits = BitStack::new();
    let mut i: usize = 0;
    while i < n
        invariant
            i <= n,
            n == input@.len(),
            n < 0x1fff_ffff,
            eval_steps(input@.take(i as int), Seq::<bool>::empty()) == Ok::<
                Seq<bool>,
                FormulaError,
            >(stack_bits(bits)),
            stack_bits(bits).len() <= i,
        decreases n - i,
    {
        let c = input.get_char(i);
        let ghost st = stack_bits(bits);
        proof {
            assert(input@.take(i + 1 as int) =~= input@.take(i as int) + seq![input@[i as int]]);
            lemma_eval_steps_app(input@.take(i as int), seq![input@[i as int]], Seq::empty());
            assert(seq![input@[i as int]].drop_first() =~= Seq::<char>::empty());
            match eval_step(c, st) {
                Ok(st1) => {
                    assert(eval_steps(Seq::<char>::empty(), st1) == Ok::<Seq<bool>, FormulaError>(
                        st1,
                    ));
                    assert(seq![c].drop_first() =~= Seq::<char>::empty());
                    assert(eval_steps(seq![c], st) == Ok::<Seq<bool>, FormulaError>(st1));
                },
                Err(e) => {
                    assert(eval_steps(seq![c], st) == Err::<Seq<bool>, FormulaError>(e));
                },
            }
            assert(input@ =~= input@.take(i as int) + input@.skip(i as int));
            lemma_eval_steps_app(input@.take(i as int), input@.skip(i as int), Seq::empty());
            assert(input@.skip(i as int).len() > 0);
            assert(input@.skip(i as int).first() == c);
            match eval_step(c, st) {
                Ok(_) => {},
                Err(e) => {
                    assert(eval_steps(input@.skip(i as int), st) == Err::<Seq<bool>, FormulaError>(
                        e,
                    ));
                },
            }
        }
        if c == '0' || c == '1' {
            bits.push(c == '1');
        } else if is_operand(c) {
            return Err(FormulaError::UnboundVariable);
        } else if is_unary_operator(c) {
            match bits.pop() {
                Some(top) => bits.push(!top),
                None => {
                    return Err(FormulaError::MalformedFormula);
                },
            }
        } else if is_connective(c) {
            let second = match bits.pop() {
                Some(top) => top,
                None => {
                    return Err(FormulaError::MalformedFormula);
                },
            };
            let first = match bits.pop() {
                Some(top) => top,
                None => {
                    return Err(FormulaError::MalformedFormula);
                },
            };
            bits.push(apply_binary(c, first, second));
        } else {
            return Err(FormulaError::UnknownOperator);
        }
        i += 1;
    }
    proof {
        assert(input@.take(n as int) =~= input@);
    }
    match bits.pop() {
        Some(top) => Ok(top),
        None => Err(FormulaError::MalformedFormula),
    }
}

/// The index of the first occurrence of `c` in `s`, or `-1`.
pub open spec fn var_index(s: Seq<char>, c: char) -> int
    decreases s.len(),
{
    if s.len() == 0 {
        -1
    } else if s.first() == c {
        0
    } else {
        let r = var_index(s.drop_first(), c);
        if r == -1 {
            -1
        } else {
            r + 1
        }
    }
}

proof fn lemma_var_index_at(s: Seq<char>, c: char, j: int)
    requires
        0 <= j < s.len(),
        s[j] == c,
        forall|k: int| 0 <= k < j ==> s[k] != c,
    ensures
        var_index(s, c) == j,
    decreases j,
{
    if j == 0 {
    } else {
        assert forall|k: int| 0 <= k < j - 1 implies s.drop_first()[k] != c by {
            assert(s.drop_first()[k] == s[k + 1]);
        }
        assert(s.drop_first()[j - 1] == s[j]);
        lemma_var_index_at(s.drop_first(), c, j - 1);
    }
}

proof fn lemma_var_index_none(s: Seq<char>, c: char)
    requires
        forall|k: int| 0 <= k < s.len() ==> s[k] != c,
    ensures
        var_index(s, c) == -1,
    decreases s.len(),
{
    if s.len() > 0 {
        assert forall|k: int| 0 <= k < s.len() - 1 implies s.drop_first()[k] != c by {
            assert(s.drop_first()[k] == s[k + 1]);
        }
        lemma_var_index_none(s.drop_first(), c);
    }
}

/// Bit `j` of a non-negative combination number: the value assigned to
/// the variable at index `j` of the unique-variable list.
pub open spec fn comb_bit(comb: int, j: nat) -> int
    decreases j,
{
    if j == 0 {
        comb % 2
    } else {
        comb_bit(comb / 2, (j - 1) as nat)
    }
}

/// One character of a substituted formula: a listed variable becomes its
/// bit, every other character stands unchanged.
pub open spec fn subst_char(c: char, unique: Seq<char>, comb: int) -> char {
    if var_index(unique, c) >= 0 {
        if comb_bit(comb, var_index(unique, c) as nat) == 1 {
            '1'
        } else {
            '0'
        }
    } else {
        c
    }
}

/// The position of `c` in the unique-variable list, executably.
fn find_var_index(unique: &Vec<char>, c: char) -> (r: Option<usize>)
    ensures
        match r {
            Some(j) => var_index(unique@, c) == j as int,
            None => var_index(unique@, c) == -1,
        },
{
    let n = unique.len();
    let mut i: usize = 0;
    while i < n
        invariant
            i <= n,
            n == unique@.len(),
            forall|k: int| 0 <= k < i ==> unique@[k] != c,
        decreases n - i,
    {
        if unique[i] == c {
            proof {
                lemma_var_index_at(unique@, c, i as int);
            }
            return Some(i);
        }
        i += 1;
    }
    proof {
        lemma_var_index_none(unique@, c);
    }
    None
}

/// Bit `j` of the combination number, executably.
fn comb_bit_exec(combination: i32, j: usize) -> (r: i32)
    requires
        combination >= 0,
    ensures
        r == comb_bit(combination as int, j as nat),
        r == 0 || r == 1,
{
    let mut c = combination;
    let mut i: usize = 0;
    while i < j
        invariant
            0 <= c,
            i <= j,
            comb_bit(combination as int, j as nat) == comb_bit(c as int, (j - i) as nat),
        decreases j - i,
    {
        c = c / 2;
        i += 1;
    }
    c % 2
}

/// Substitutes the listed variables of a formula with the bits of one
/// combination number: the variable at index `j` of the deduplicated
/// list gets bit `j`.  The value of each variable of `variables` is also
/// written to the same index of `values`, for the caller's table row.
pub fn subst_variables(
    formula: &str,
    variables: &Vec<char>,
    unique_variables: &Vec<char>,
    values: &mut Vec<i32>,
    combination: i32,
) -> (r: String)
    requires
        combination >= 0,
        old(values)@.len() >= variables@.len(),
        forall|i: int|
            0 <= i < variables@.len() ==> var_index(unique_variables@, #[trigger] variables@[i])
                >= 0,
    ensures
        r@.len() == formula@.len(),
        forall|i: int|
            0 <= i < formula@.len() ==> r@[i] == subst_char(
                #[trigger] formula@[i],
                unique_variables@,
                combination as int,
            ),
        final(values)@.len() == old(values)@.len(),
        forall|i: int|
            0 <= i < variables@.len() ==> final(values)@[i] == comb_bit(
                combination as int,
                var_index(unique_variables@, #[trigger] variables@[i]) as nat,
            ),
        forall|i: int|
            variables@.len() <= i < old(values)@.len() ==> final(values)@[i] == old(values)@[i],
{
    let n = formula.unicode_len();
    let mut out: Vec<char> = Vec::new();
    let mut i: usize = 0;
    while i < n
        invariant
            i <= n,
            n == formula@.len(),
            combination >= 0,
            out@.len() == i,
            forall|k: int|
                0 <= k < i ==> out@[k] == subst_char(
                    #[trigger] formula@[k],
                    unique_variables@,
                    combination as int,
                ),
        decreases n - i,
    {
        let c = formula.get_char(i);
        match find_var_index(unique_variables, c) {
            Some(j) => {
                let bit = comb_bit_exec(combination, j);
                out.push(if bit == 1 {
                    '1'
                } else {
                    '0'
                });
            },
            None => {
                out.push(c);
            },
        }
        i += 1;
    }
    let mut i: usize = 0;
    while i < variables.len()
        invariant
            i <= variables@.len(),
            variables@.len() <= values@.len(),
            values@.len() == old(values)@.len(),
            combination >= 0,
            forall|k: int|
                0 <= k < variables@.len() ==> var_index(
                    unique_variables@,
                    #[trigger] variables@[k],
                ) >= 0,
            forall|k: int|
                0 <= k < i ==> values@[k] == comb_bit(
                    combination as int,
                    var_index(unique_variables@, #[trigger] variables@[k]) as nat,
                ),
            forall|k: int| i <= k < values@.len() ==> values@[k] == old(values)@[k],
        decreases variables@.len() - i,
    {
        let c = variables[i];
        match find_var_index(unique_variables, c) {
            Some(j) => {
                let bit = comb_bit_exec(combination, j);
                values.set(i, bit);
            },
            None => {
                proof {
                    assert(false);
                }
            },
        }
        i += 1;
    }
    chars_to_string(&out)
}

/// Relies on `String::from_iter` over `&char`: the characters are
/// concatenated in order into a fresh string.
#[verifier::external_body]
fn chars_to_string(v: &Vec<char>) -> (s: String)
    ensures
        s@ == v@,
{
    String::from_iter(v.iter())
}

/// Serializes a tree back to its postfix text; the inverse of [`parse`]
/// on well-formed trees.
pub fn read_operation(node: &Node) -> (r: String)
    ensures
        r@ == print_tree(*node),
{
    let mut out: Vec<char> = Vec::new();
    push_postfix(node, &mut out);
    chars_to_string(&out)
}

} // verus!
