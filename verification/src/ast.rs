//! The binary expression tree for postfix boolean formulas, together with
//! the specification-level notions the rest of the crate is proved against:
//! token classification, well-formedness, semantics, serialization and the
//! negation-normal-form shape.

use vstd::prelude::*;

verus! {

/// A node of the binary expression tree.
///
/// `token` is a single symbol: `'0'`, `'1'` or an ASCII letter for an
/// operand, `'!'` for negation, or one of `'&' '|' '^' '>' '='` for a
/// binary connective.  An operand node has no children, a `'!'` node has
/// exactly the child `a`, and a binary node has both `a` and `b`.  Each
/// child is exclusively owned: trees are never shared or cyclic.
#[derive(Debug)]
pub struct Node {
    pub token: char,
    pub a: Option<Box<Node>>,
    pub b: Option<Box<Node>>,
}

/// An ASCII lower-case letter.
pub open spec fn spec_is_lower(c: char) -> bool {
    'a' as u32 <= c as u32 && c as u32 <= 'z' as u32
}

/// An ASCII upper-case letter.
pub open spec fn spec_is_upper(c: char) -> bool {
    'A' as u32 <= c as u32 && c as u32 <= 'Z' as u32
}

/// A free propositional variable: an ASCII letter.
pub open spec fn spec_is_variable(c: char) -> bool {
    spec_is_lower(c) || spec_is_upper(c)
}

/// An operand token: a literal bit or a variable letter.
pub open spec fn spec_is_operand(c: char) -> bool {
    c == '0' || c == '1' || spec_is_variable(c)
}

/// The unary operator.
pub open spec fn spec_is_unary(c: char) -> bool {
    c == '!'
}

/// A recognized binary connective.
pub open spec fn spec_is_binary(c: char) -> bool {
    c == '&' || c == '|' || c == '^' || c == '>' || c == '='
}

/// A well-formed tree: the shape of every node agrees with its token, and
/// every token belongs to the recognized alphabet.
pub open spec fn wf(n: Node) -> bool
    decreases n,
{
    if spec_is_operand(n.token) {
        n.a is None && n.b is None
    } else if spec_is_unary(n.token) {
        n.b is None && match n.a {
            Some(a) => wf(*a),
            None => false,
        }
    } else if spec_is_binary(n.token) {
        match (n.a, n.b) {
            (Some(a), Some(b)) => wf(*a) && wf(*b),
            _ => false,
        }
    } else {
        false
    }
}

/// The truth table of one binary connective.
pub open spec fn bin_sem(op: char, x: bool, y: bool) -> bool {
    if op == '&' {
        x && y
    } else if op == '|' {
        x || y
    } else if op == '^' {
        x != y
    } else if op == '>' {
        !x || y
    } else if op == '=' {
        x == y
    } else {
        false
    }
}

/// The boolean value of a tree under an assignment `env` of its free
/// variables.  On ill-formed trees the value is a fixed default; every
/// claim of the crate about `sem` is made under `wf`.
pub open spec fn sem(n: Node, env: Map<char, bool>) -> bool
    decreases n,
{
    if n.token == '0' {
        false
    } else if n.token == '1' {
        true
    } else if spec_is_variable(n.token) {
        env[n.token]
    } else if spec_is_unary(n.token) {
        match n.a {
            Some(a) => !sem(*a, env),
            None => false,
        }
    } else {
        match (n.a, n.b) {
            (Some(a), Some(b)) => bin_sem(n.token, sem(*a, env), sem(*b, env)),
            _ => false,
        }
    }
}

/// Two trees that evaluate alike under every assignment.
pub open spec fn equivalent(x: Node, y: Node) -> bool {
    forall|env: Map<char, bool>| sem(x, env) == sem(y, env)
}

/// The postfix serialization of a tree: for a binary node the first
/// operand, then the second, then the operator; the token alone for a leaf.
pub open spec fn print_tree(n: Node) -> Seq<char>
    decreases n,
{
    if spec_is_unary(n.token) {
        match n.a {
            Some(a) => print_tree(*a) + seq![n.token],
            None => seq![n.token],
        }
    } else if spec_is_binary(n.token) {
        match (n.a, n.b) {
            (Some(a), Some(b)) => print_tree(*a) + print_tree(*b) + seq![n.token],
            _ => seq![n.token],
        }
    } else {
        seq![n.token]
    }
}

/// Negation normal form: only `&`, `|` and `!` appear, and `!` is applied
/// to operands only.
pub open spec fn is_nnf(n: Node) -> bool
    decreases n,
{
    if spec_is_operand(n.token) {
        true
    } else if spec_is_unary(n.token) {
        match n.a {
            Some(a) => spec_is_operand(a.token) && a.a is None && a.b is None,
            None => false,
        }
    } else if n.token == '&' || n.token == '|' {
        match (n.a, n.b) {
            (Some(a), Some(b)) => is_nnf(*a) && is_nnf(*b),
            _ => false,
        }
    } else {
        false
    }
}

/// A tree without free variables: every operand is a literal bit.
pub open spec fn var_free(n: Node) -> bool
    decreases n,
{
    if spec_is_operand(n.token) {
        !spec_is_variable(n.token)
    } else {
        (match n.a {
            Some(a) => var_free(*a),
            None => true,
        }) && (match n.b {
            Some(b) => var_free(*b),
            None => true,
        })
    }
}

impl Node {
    /// A leaf node holding one operand token.
    pub fn leaf(token: char) -> (r: Node)
        ensures
            r == (Node { token, a: None, b: None }),
    {
        Node { token, a: None, b: None }
    }

    /// A structurally equal copy of the tree.
    pub fn duplicate(&self) -> (r: Node)
        ensures
            r == *self,
        decreases *self,
    {
        Node {
            token: self.token,
            a: match &self.a {
                Some(a) => Some(Box::new(a.duplicate())),
                None => None,
            },
            b: match &self.b {
                Some(b) => Some(Box::new(b.duplicate())),
                None => None,
            },
        }
    }
}

impl Clone for Node {
    fn clone(&self) -> (r: Node)
        ensures
            r == *self,
    {
        self.duplicate()
    }
}

} // verus!
