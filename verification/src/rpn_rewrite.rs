//! Pattern-based tree rewriting, and negation normal form as its main
//! client.
//!
//! A rule is a pair of trees.  In a pattern, every letter is a
//! placeholder that matches an arbitrary subtree and captures it; an
//! operator matches only a node with the same token and matching
//! children.  Applying a rule replaces the first matched node (depth
//! first, the node itself before child `a` before child `b`) with the
//! rule's substitute, each placeholder resolved to its captured subtree.
//! The engine repeats the first applicable rule of an ordered table until
//! none matches anywhere; a step bound makes it answer even on a rule
//! table that never reaches a fixpoint.

use vstd::prelude::*;

use crate::ast::{bin_sem, is_nnf, print_tree, sem, spec_is_operand, spec_is_unary, spec_is_variable, var_free, wf, Node};
use crate::rpn_formula::{is_operand, lemma_text_parses_to, parse, parse_at, read_operation, FormulaError};

verus! {

/// An ordered rewrite rule: a pattern and the template that replaces
/// what the pattern matched.
pub struct RewriteRule {
    pub pattern: Node,
    pub substitute: Node,
}

/// Whether `p` matches the tree `n` at its root: a placeholder letter
/// matches anything, a literal bit only the same leaf, and an operator
/// only the same token with children matching child for child; a child
/// present on one side only is an arity mismatch.
pub open spec fn pat_matches(p: Node, n: Node) -> bool
    decreases p,
{
    if spec_is_variable(p.token) {
        true
    } else if spec_is_operand(p.token) {
        n.token == p.token && n.a is None && n.b is None
    } else {
        n.token == p.token && (match (p.a, n.a) {
            (None, None) => true,
            (Some(pa), Some(na)) => pat_matches(*pa, *na),
            _ => false,
        }) && (match (p.b, n.b) {
            (None, None) => true,
            (Some(pb), Some(nb)) => pat_matches(*pb, *nb),
            _ => false,
        })
    }
}

/// The capture map produced by matching `p` against `n`, extending `m`:
/// each placeholder is bound to the subtree standing where it stands,
/// child `a` before child `b`, a later occurrence overwriting an earlier
/// one.
pub open spec fn pat_captures(p: Node, n: Node, m: Map<char, Node>) -> Map<char, Node>
    decreases p,
{
    if spec_is_variable(p.token) {
        m.insert(p.token, n)
    } else if spec_is_operand(p.token) {
        m
    } else {
        let m1 = match (p.a, n.a) {
            (Some(pa), Some(na)) => pat_captures(*pa, *na, m),
            _ => m,
        };
        match (p.b, n.b) {
            (Some(pb), Some(nb)) => pat_captures(*pb, *nb, m1),
            _ => m1,
        }
    }
}

/// The template `t` with every placeholder bound in `m` replaced by its
/// captured subtree; unbound tokens are kept as they stand.
pub open spec fn subst_template(t: Node, m: Map<char, Node>) -> Node
    decreases t,
{
    if spec_is_variable(t.token) && m.contains_key(t.token) {
        m[t.token]
    } else {
        Node {
            token: t.token,
            a: match t.a {
                Some(a) => Some(Box::new(subst_template(*a, m))),
                None => None,
            },
            b: match t.b {
                Some(b) => Some(Box::new(subst_template(*b, m))),
                None => None,
            },
        }
    }
}

/// Whether `p` matches anywhere in `n`, in the search order of the
/// engine: the node itself, then inside child `a`, then inside child
/// `b`.
pub open spec fn matches_in(p: Node, n: Node) -> bool
    decreases n,
{
    pat_matches(p, n) || (match n.a {
        Some(a) => matches_in(p, *a),
        None => false,
    }) || (match n.b {
        Some(b) => matches_in(p, *b),
        None => false,
    })
}

/// The tree after one application of the rule `(p, tmpl)` at the first
/// matching position; `n` unchanged when nothing matches.
pub open spec fn rewrite_at_first(p: Node, tmpl: Node, n: Node) -> Node
    decreases n,
{
    if pat_matches(p, n) {
        subst_template(tmpl, pat_captures(p, n, Map::<char, Node>::empty()))
    } else if (match n.a {
        Some(a) => matches_in(p, *a),
        None => false,
    }) {
        Node {
            token: n.token,
            a: Some(Box::new(rewrite_at_first(p, tmpl, *n.a->Some_0))),
            b: n.b,
        }
    } else if (match n.b {
        Some(b) => matches_in(p, *b),
        None => false,
    }) {
        Node {
            token: n.token,
            a: n.a,
            b: Some(Box::new(rewrite_at_first(p, tmpl, *n.b->Some_0))),
        }
    } else {
        n
    }
}

/// The bindings of placeholder letters to captured subtrees during one
/// match and substitute cycle; discarded afterwards.
pub struct PropositionalCapture {
    entries: Vec<(char, Node)>,
}

/// The map described by an ordered list of bindings; a later binding for
/// the same letter wins.
pub open spec fn entries_map(s: Seq<(char, Node)>) -> Map<char, Node>
    decreases s.len(),
{
    if s.len() == 0 {
        Map::<char, Node>::empty()
    } else {
        entries_map(s.drop_last()).insert(s.last().0, s.last().1)
    }
}

impl View for PropositionalCapture {
    type V = Map<char, Node>;

    closed spec fn view(&self) -> Map<char, Node> {
        entries_map(self.entries@)
    }
}

impl PropositionalCapture {
    /// An empty capture map.
    pub fn new() -> (r: PropositionalCapture)
        ensures
            r@ == Map::<char, Node>::empty(),
    {
        let r = PropositionalCapture { entries: Vec::new() };
        proof {
            assert(r@ =~= Map::<char, Node>::empty());
        }
        r
    }

    /// Binds `token` to the subtree `n`, replacing an earlier binding.
    pub fn insert(&mut self, token: char, n: Node)
        ensures
            final(self)@ == old(self)@.insert(token, n),
    {
        self.entries.push((token, n));
        proof {
            assert(self.entries@.drop_last() =~= old(self).entries@);
        }
    }

    /// The subtree bound to `token`, as its own copy.
    pub fn get(&self, token: char) -> (r: Option<Node>)
        ensures
            match r {
                Some(n) => self@.contains_key(token) && n == self@[token],
                None => !self@.contains_key(token),
            },
    {
        let mut i: usize = self.entries.len();
        proof {
            assert(self.entries@.take(i as int) =~= self.entries@);
        }
        while i > 0
            invariant
                i <= self.entries@.len(),
                self@.contains_key(token) == entries_map(self.entries@.take(i as int)).contains_key(
                    token,
                ),
                self@.contains_key(token) ==> self@[token] == entries_map(
                    self.entries@.take(i as int),
                )[token],
            decreases i,
        {
            i = i - 1;
            proof {
                assert(self.entries@.take(i + 1 as int).drop_last() =~= self.entries@.take(i as int));
                assert(self.entries@.take(i + 1 as int).last() == self.entries@[i as int]);
            }
            if self.entries[i].0 == token {
                return Some(self.entries[i].1.duplicate());
            }
        }
        proof {
            assert(self.entries@.take(0) =~= Seq::<(char, Node)>::empty());
        }
        None
    }
}

/// A placeholder letter.
fn is_placeholder(token: char) -> (r: bool)
    ensures
        r == spec_is_variable(token),
{
    is_operand(token) && token != '0' && token != '1'
}

/// Matches the pattern against the node at its root, recording captures.
/// When the match fails, the captures recorded so far are meaningless and
/// the caller starts over with a fresh map.
fn try_match(pattern: &Node, node: &Node, caps: &mut PropositionalCapture) -> (r: bool)
    ensures
        r == pat_matches(*pattern, *node),
        r ==> final(caps)@ == pat_captures(*pattern, *node, old(caps)@),
    decreases *pattern,
{
    if is_placeholder(pattern.token) {
        caps.insert(pattern.token, node.duplicate());
        true
    } else if is_operand(pattern.token) {
        node.token == pattern.token && node.a.is_none() && node.b.is_none()
    } else {
        if node.token != pattern.token {
            return false;
        }
        let ok_a = match (&pattern.a, &node.a) {
            (None, None) => true,
            (Some(pa), Some(na)) => try_match(pa, na, caps),
            _ => false,
        };
        if !ok_a {
            return false;
        }
        match (&pattern.b, &node.b) {
            (None, None) => true,
            (Some(pb), Some(nb)) => try_match(pb, nb, caps),
            _ => false,
        }
    }
}

/// Builds the substitute tree: the template with each captured
/// placeholder replaced by a copy of its captured subtree.
fn rewrite_operands(template: &Node, caps: &PropositionalCapture) -> (r: Node)
    ensures
        r == subst_template(*template, caps@),
    decreases *template,
{
    if is_placeholder(template.token) {
        match caps.get(template.token) {
            Some(sub) => {
                return sub;
            },
            None => {},
        }
    }
    Node {
        token: template.token,
        a: match &template.a {
            Some(a) => Some(Box::new(rewrite_operands(a, caps))),
            None => None,
        },
        b: match &template.b {
            Some(b) => Some(Box::new(rewrite_operands(b, caps))),
            None => None,
        },
    }
}

/// A copy of an optional child.
fn clone_child(x: &Option<Box<Node>>) -> (r: Option<Box<Node>>)
    ensures
        r == *x,
{
    match x {
        Some(n) => Some(Box::new(n.duplicate())),
        None => None,
    }
}

/// Applies one rule at the first position where its pattern matches,
/// searching the node before child `a` before child `b`; `None` when the
/// pattern matches nowhere in the tree.
fn apply_first(node: &Node, pattern: &Node, substitute: &Node) -> (r: Option<Node>)
    ensures
        r is Some == matches_in(*pattern, *node),
        r matches Some(t) ==> t == rewrite_at_first(*pattern, *substitute, *node),
    decreases *node,
{
    let mut caps = PropositionalCapture::new();
    if try_match(pattern, node, &mut caps) {
        return Some(rewrite_operands(substitute, &caps));
    }
    match &node.a {
        Some(a) => match apply_first(a, pattern, substitute) {
            Some(a2) => {
                return Some(
                    Node { token: node.token, a: Some(Box::new(a2)), b: clone_child(&node.b) },
                );
            },
            None => {},
        },
        None => {},
    }
    match &node.b {
        Some(b) => match apply_first(b, pattern, substitute) {
            Some(b2) => {
                return Some(
                    Node { token: node.token, a: clone_child(&node.a), b: Some(Box::new(b2)) },
                );
            },
            None => {},
        },
        None => {},
    }
    None
}

/// The rewrite of one pass start: the first rule of the table whose
/// pattern matches somewhere, applied at its first position; `None` at a
/// fixpoint.
pub open spec fn first_rule_rewrite(rules: Seq<RewriteRule>, t: Node) -> Option<Node>
    decreases rules.len(),
{
    if rules.len() == 0 {
        None
    } else if matches_in(rules[0].pattern, t) {
        Some(rewrite_at_first(rules[0].pattern, rules[0].substitute, t))
    } else {
        first_rule_rewrite(rules.drop_first(), t)
    }
}

/// The engine run for at most `fuel` rule applications: the tree it
/// stops at, and whether it stopped at a fixpoint (rather than by
/// exhausting the bound).
pub open spec fn rewrite_run(rules: Seq<RewriteRule>, t: Node, fuel: nat) -> (Node, bool)
    decreases fuel,
{
    match first_rule_rewrite(rules, t) {
        None => (t, true),
        Some(t2) => if fuel == 0 {
            (t, false)
        } else {
            rewrite_run(rules, t2, (fuel - 1) as nat)
        },
    }
}

/// The bound on rule applications in one normalization: the rule table
/// alone decides whether a fixpoint exists, so the engine refuses to
/// search for one forever.
pub const MAX_REWRITE_STEPS: usize = 100000;

proof fn lemma_first_rule_rewrite_some(rules: Seq<RewriteRule>, t: Node, j: int)
    requires
        0 <= j < rules.len(),
        matches_in(rules[j].pattern, t),
        forall|k: int| 0 <= k < j ==> !matches_in(#[trigger] rules[k].pattern, t),
    ensures
        first_rule_rewrite(rules, t) == Some(
            rewrite_at_first(rules[j].pattern, rules[j].substitute, t),
        ),
    decreases j,
{
    if j == 0 {
    } else {
        assert(!matches_in(rules[0].pattern, t));
        assert forall|k: int| 0 <= k < j - 1 implies !matches_in(
            #[trigger] rules.drop_first()[k].pattern,
            t,
        ) by {
            assert(rules.drop_first()[k] == rules[k + 1]);
        }
        assert(rules.drop_first()[j - 1] == rules[j]);
        lemma_first_rule_rewrite_some(rules.drop_first(), t, j - 1);
    }
}

proof fn lemma_first_rule_rewrite_none(rules: Seq<RewriteRule>, t: Node)
    requires
        forall|k: int| 0 <= k < rules.len() ==> !matches_in(#[trigger] rules[k].pattern, t),
    ensures
        first_rule_rewrite(rules, t) is None,
    decreases rules.len(),
{
    if rules.len() == 0 {
    } else {
        assert forall|k: int| 0 <= k < rules.len() - 1 implies !matches_in(
            #[trigger] rules.drop_first()[k].pattern,
            t,
        ) by {
            assert(rules.drop_first()[k] == rules[k + 1]);
        }
        lemma_first_rule_rewrite_none(rules.drop_first(), t);
    }
}

/// Rewrites the tree in place until no rule of the table matches
/// anywhere, restarting the scan from the first rule after every
/// application; see [`rewrite_run`].  After `MAX_REWRITE_STEPS`
/// applications it stops where it stands and reports
/// `NonTerminatingRewrite`; the table decides whether the bound can be
/// reached, so the engine promises a fixpoint only on `Ok`.
pub fn tree_rewrite(node: &mut Node, rules: &[RewriteRule]) -> (r: Result<(), FormulaError>)
    ensures
        *final(node) == rewrite_run(rules@, *old(node), MAX_REWRITE_STEPS as nat).0,
        r == (if rewrite_run(rules@, *old(node), MAX_REWRITE_STEPS as nat).1 {
            Ok::<(), FormulaError>(())
        } else {
            Err::<(), FormulaError>(FormulaError::NonTerminatingRewrite)
        }),
        r is Ok ==> forall|i: int|
            0 <= i < rules@.len() ==> !matches_in(#[trigger] rules@[i].pattern, *final(node)),
{
    let mut steps: usize = 0;
    loop
        invariant
            steps <= MAX_REWRITE_STEPS,
            rewrite_run(rules@, *old(node), MAX_REWRITE_STEPS as nat) == rewrite_run(
                rules@,
                *node,
                (MAX_REWRITE_STEPS - steps) as nat,
            ),
        decreases MAX_REWRITE_STEPS - steps,
    {
        let mut j: usize = 0;
        let mut found: Option<Node> = None;
        while j < rules.len() && found.is_none()
            invariant
                j <= rules@.len(),
                found is None ==> forall|k: int| 0 <= k < j ==> !matches_in(
                    #[trigger] rules@[k].pattern,
                    *node,
                ),
                found matches Some(t2) ==> j < rules@.len() && matches_in(
                    rules@[j as int].pattern,
                    *node,
                ) && t2 == rewrite_at_first(
                    rules@[j as int].pattern,
                    rules@[j as int].substitute,
                    *node,
                ) && (forall|k: int| 0 <= k < j ==> !matches_in(#[trigger] rules@[k].pattern, *node)),
            decreases rules@.len() - j + (if found is None { 1int } else { 0int }),
        {
            match apply_first(&*node, &rules[j].pattern, &rules[j].substitute) {
                Some(t2) => {
                    found = Some(t2);
                },
                None => {
                    j += 1;
                },
            }
        }
        match found {
            None => {
                proof {
                    lemma_first_rule_rewrite_none(rules@, *node);
                }
                return Ok(());
            },
            Some(t2) => {
                proof {
                    lemma_first_rule_rewrite_some(rules@, *node, j as int);
                }
                if steps == MAX_REWRITE_STEPS {
                    return Err(FormulaError::NonTerminatingRewrite);
                }
                *node = t2;
                steps += 1;
            },
        }
    }
}

/// A leaf with the token `c`.
pub open spec fn leaf(c: char) -> Node {
    Node { token: c, a: None, b: None }
}

/// A unary node.
pub open spec fn un(c: char, a: Node) -> Node {
    Node { token: c, a: Some(Box::new(a)), b: None }
}

/// A binary node.
pub open spec fn bin(c: char, a: Node, b: Node) -> Node {
    Node { token: c, a: Some(Box::new(a)), b: Some(Box::new(b)) }
}

/// `A > B  =>  !A | B`
pub open spec fn rule_impl() -> RewriteRule {
    RewriteRule {
        pattern: bin('>', leaf('A'), leaf('B')),
        substitute: bin('|', un('!', leaf('A')), leaf('B')),
    }
}

/// `A = B  =>  (!A | B) & (A | !B)`
pub open spec fn rule_eqv() -> RewriteRule {
    RewriteRule {
        pattern: bin('=', leaf('A'), leaf('B')),
        substitute: bin(
            '&',
            bin('|', un('!', leaf('A')), leaf('B')),
            bin('|', leaf('A'), un('!', leaf('B'))),
        ),
    }
}

/// `A ^ B  =>  (!A & B) | (A & !B)`
pub open spec fn rule_xor() -> RewriteRule {
    RewriteRule {
        pattern: bin('^', leaf('A'), leaf('B')),
        substitute: bin(
            '|',
            bin('&', un('!', leaf('A')), leaf('B')),
            bin('&', leaf('A'), un('!', leaf('B'))),
        ),
    }
}

/// `!(A | B)  =>  !A & !B`
pub open spec fn rule_neg_or() -> RewriteRule {
    RewriteRule {
        pattern: un('!', bin('|', leaf('A'), leaf('B'))),
        substitute: bin('&', un('!', leaf('A')), un('!', leaf('B'))),
    }
}

/// `!(A & B)  =>  !A | !B`
pub open spec fn rule_neg_and() -> RewriteRule {
    RewriteRule {
        pattern: un('!', bin('&', leaf('A'), leaf('B'))),
        substitute: bin('|', un('!', leaf('A')), un('!', leaf('B'))),
    }
}

/// `!!A  =>  A`
pub open spec fn rule_neg_neg() -> RewriteRule {
    RewriteRule { pattern: un('!', un('!', leaf('A'))), substitute: leaf('A') }
}

/// The fixed table that drives negation normal form, in its order.
pub open spec fn nnf_rules_spec() -> Seq<RewriteRule> {
    seq![
        rule_impl(),
        rule_eqv(),
        rule_xor(),
        rule_neg_or(),
        rule_neg_and(),
        rule_neg_neg(),
    ]
}

/// The tree that one application of the rule `(p, tmpl)` puts in place
/// of a node the pattern matched.
pub open spec fn rule_app(p: Node, tmpl: Node, n: Node) -> Node {
    subst_template(tmpl, pat_captures(p, n, Map::<char, Node>::empty()))
}

/// Applying the rule to a matched well-formed node yields a well-formed
/// tree.
pub open spec fn rule_preserves_wf(p: Node, tmpl: Node) -> bool {
    forall|n: Node| wf(n) && pat_matches(p, n) ==> wf(#[trigger] rule_app(p, tmpl, n))
}

/// Applying the rule to a matched well-formed node preserves the value
/// under every assignment.
pub open spec fn rule_preserves_sem(p: Node, tmpl: Node) -> bool {
    forall|n: Node, env: Map<char, bool>|
        wf(n) && pat_matches(p, n) ==> #[trigger] sem(rule_app(p, tmpl, n), env) == sem(n, env)
}

/// Applying the rule to a matched node without free variables yields a
/// tree without free variables.
pub open spec fn rule_preserves_var_free(p: Node, tmpl: Node) -> bool {
    forall|n: Node|
        wf(n) && var_free(n) && pat_matches(p, n) ==> var_free(#[trigger] rule_app(p, tmpl, n))
}

/// A semantics-preserving rule.
pub open spec fn rule_sound(p: Node, tmpl: Node) -> bool {
    rule_preserves_wf(p, tmpl) && rule_preserves_sem(p, tmpl) && rule_preserves_var_free(p, tmpl)
}

/// A table of semantics-preserving rules.
pub open spec fn rules_sound(rules: Seq<RewriteRule>) -> bool {
    forall|i: int|
        0 <= i < rules.len() ==> rule_sound(
            #[trigger] rules[i].pattern,
            rules[i].substitute,
        )
}

/// Congruence: one application of a sound rule at the first matching
/// position keeps the tree well-formed and its value unchanged.
proof fn lemma_rewrite_at_first_sound(p: Node, tmpl: Node, n: Node)
    requires
        wf(n),
        rule_sound(p, tmpl),
        matches_in(p, n),
    ensures
        wf(rewrite_at_first(p, tmpl, n)),
        var_free(n) ==> var_free(rewrite_at_first(p, tmpl, n)),
        forall|env: Map<char, bool>| #[trigger] sem(rewrite_at_first(p, tmpl, n), env) == sem(
            n,
            env,
        ),
    decreases n,
{
    let r = rewrite_at_first(p, tmpl, n);
    if pat_matches(p, n) {
        assert(r == rule_app(p, tmpl, n));
        assert forall|env: Map<char, bool>| #[trigger] sem(r, env) == sem(n, env) by {
            assert(sem(rule_app(p, tmpl, n), env) == sem(n, env));
        }
    } else if (match n.a {
        Some(a) => matches_in(p, *a),
        None => false,
    }) {
        let a = *n.a->Some_0;
        lemma_rewrite_at_first_sound(p, tmpl, a);
        let a2 = rewrite_at_first(p, tmpl, a);
        assert(r == (Node { token: n.token, a: Some(Box::new(a2)), b: n.b }));
        assert(wf(r));
        assert(var_free(n) ==> var_free(r));
        assert forall|env: Map<char, bool>| #[trigger] sem(r, env) == sem(n, env) by {
            assert(sem(a2, env) == sem(a, env));
        }
    } else {
        let b = *n.b->Some_0;
        lemma_rewrite_at_first_sound(p, tmpl, b);
        let b2 = rewrite_at_first(p, tmpl, b);
        assert(r == (Node { token: n.token, a: n.a, b: Some(Box::new(b2)) }));
        assert(wf(r));
        assert(var_free(n) ==> var_free(r));
        assert forall|env: Map<char, bool>| #[trigger] sem(r, env) == sem(n, env) by {
            assert(sem(b2, env) == sem(b, env));
        }
    }
}

/// The captures of a pattern `op(A, B)` with two distinct placeholders:
/// exactly the two children of the matched node.
proof fn lemma_caps_two(p: Node, n: Node)
    requires
        p.a == Some(Box::new(leaf('A'))),
        p.b == Some(Box::new(leaf('B'))),
        !spec_is_operand(p.token),
        pat_matches(p, n),
    ensures
        n.a is Some && n.b is Some && n.token == p.token,
        pat_captures(p, n, Map::<char, Node>::empty()) == Map::<char, Node>::empty().insert(
            'A',
            *n.a->Some_0,
        ).insert('B', *n.b->Some_0),
{
    let na = *n.a->Some_0;
    let nb = *n.b->Some_0;
    assert(pat_captures(leaf('A'), na, Map::<char, Node>::empty())
        == Map::<char, Node>::empty().insert('A', na));
    assert(pat_captures(leaf('B'), nb, Map::<char, Node>::empty().insert('A', na))
        == Map::<char, Node>::empty().insert('A', na).insert('B', nb));
}

/// The substitution of a two-placeholder capture map into the templates
/// the table uses, spelled out leaf by leaf.
proof fn lemma_subst_two(tmpl: Node, x: Node, y: Node)
    requires
        tmpl == rule_impl().substitute || tmpl == rule_eqv().substitute || tmpl
            == rule_xor().substitute || tmpl == rule_neg_or().substitute || tmpl
            == rule_neg_and().substitute,
    ensures
        subst_template(tmpl, Map::<char, Node>::empty().insert('A', x).insert('B', y)) == (if tmpl
            == rule_impl().substitute {
            bin('|', un('!', x), y)
        } else if tmpl == rule_eqv().substitute {
            bin('&', bin('|', un('!', x), y), bin('|', x, un('!', y)))
        } else if tmpl == rule_xor().substitute {
            bin('|', bin('&', un('!', x), y), bin('&', x, un('!', y)))
        } else if tmpl == rule_neg_or().substitute {
            bin('&', un('!', x), un('!', y))
        } else {
            bin('|', un('!', x), un('!', y))
        }),
{
    let m = Map::<char, Node>::empty().insert('A', x).insert('B', y);
    assert(subst_template(leaf('A'), m) == x);
    assert(subst_template(leaf('B'), m) == y);
    assert(subst_template(un('!', leaf('A')), m) == un('!', x));
    assert(subst_template(un('!', leaf('B')), m) == un('!', y));
    assert(subst_template(bin('|', un('!', leaf('A')), leaf('B')), m) == bin('|', un('!', x), y));
    assert(subst_template(bin('|', leaf('A'), un('!', leaf('B'))), m) == bin('|', x, un('!', y)));
    assert(subst_template(bin('&', un('!', leaf('A')), leaf('B')), m) == bin('&', un('!', x), y));
    assert(subst_template(bin('&', leaf('A'), un('!', leaf('B'))), m) == bin('&', x, un('!', y)));
    assert(subst_template(bin('&', un('!', leaf('A')), un('!', leaf('B'))), m) == bin(
        '&',
        un('!', x),
        un('!', y),
    ));
    assert(subst_template(bin('|', un('!', leaf('A')), un('!', leaf('B'))), m) == bin(
        '|',
        un('!', x),
        un('!', y),
    ));
}

/// Soundness of the three binary-connective rules: the rewrite of a
/// matched `> = ^` node is well-formed and keeps the node's value.
proof fn lemma_rule_bin_sound(rule: RewriteRule)
    requires
        rule == rule_impl() || rule == rule_eqv() || rule == rule_xor(),
    ensures
        rule_sound(rule.pattern, rule.substitute),
{
    let p = rule.pattern;
    let tmpl = rule.substitute;
    assert forall|n: Node| wf(n) && pat_matches(p, n) implies wf(#[trigger] rule_app(p, tmpl, n))
        && (forall|env: Map<char, bool>| #[trigger] sem(rule_app(p, tmpl, n), env) == sem(
        n,
        env,
    )) by {
        lemma_caps_two(p, n);
        let x = *n.a->Some_0;
        let y = *n.b->Some_0;
        lemma_subst_two(tmpl, x, y);
        let r = rule_app(p, tmpl, n);
        assert(wf(x));
        assert(wf(y));
        assert(wf(un('!', x)));
        assert(wf(un('!', y)));
        assert(wf(bin('|', un('!', x), y)));
        assert(wf(bin('|', x, un('!', y))));
        assert(wf(bin('&', un('!', x), y)));
        assert(wf(bin('&', x, un('!', y))));
        assert(wf(r));
        assert forall|env: Map<char, bool>| #[trigger] sem(rule_app(p, tmpl, n), env) == sem(
            n,
            env,
        ) by {
            let sx = sem(x, env);
            let sy = sem(y, env);
            assert(sem(n, env) == bin_sem(n.token, sx, sy));
            assert(sem(un('!', x), env) == !sx);
            assert(sem(un('!', y), env) == !sy);
            if rule == rule_impl() {
                assert(sem(r, env) == (!sx || sy));
            } else if rule == rule_eqv() {
                assert(sem(bin('|', un('!', x), y), env) == (!sx || sy));
                assert(sem(bin('|', x, un('!', y)), env) == (sx || !sy));
                assert(sem(r, env) == ((!sx || sy) && (sx || !sy)));
            } else {
                assert(sem(bin('&', un('!', x), y), env) == (!sx && sy));
                assert(sem(bin('&', x, un('!', y)), env) == (sx && !sy));
                assert(sem(r, env) == ((!sx && sy) || (sx && !sy)));
            }
        }
    }
    assert forall|n: Node| wf(n) && var_free(n) && pat_matches(p, n) implies var_free(
        #[trigger] rule_app(p, tmpl, n),
    ) by {
        lemma_caps_two(p, n);
        let x = *n.a->Some_0;
        let y = *n.b->Some_0;
        lemma_subst_two(tmpl, x, y);
        assert(var_free(x));
        assert(var_free(y));
        assert(var_free(un('!', x)));
        assert(var_free(un('!', y)));
        assert(var_free(bin('|', un('!', x), y)));
        assert(var_free(bin('|', x, un('!', y))));
        assert(var_free(bin('&', un('!', x), y)));
        assert(var_free(bin('&', x, un('!', y))));
        assert(var_free(rule_app(p, tmpl, n)));
    }
    assert(rule_preserves_wf(p, tmpl));
    assert(rule_preserves_sem(p, tmpl));
    assert(rule_preserves_var_free(p, tmpl));
}

/// Soundness of the two De Morgan rules: the rewrite of a matched
/// negated conjunction or disjunction keeps the value.
proof fn lemma_rule_neg_sound(rule: RewriteRule)
    requires
        rule == rule_neg_or() || rule == rule_neg_and(),
    ensures
        rule_sound(rule.pattern, rule.substitute),
{
    let p = rule.pattern;
    let tmpl = rule.substitute;
    let inner = *p.a->Some_0;
    assert forall|n: Node| wf(n) && pat_matches(p, n) implies wf(#[trigger] rule_app(p, tmpl, n))
        && (forall|env: Map<char, bool>| #[trigger] sem(rule_app(p, tmpl, n), env) == sem(
        n,
        env,
    )) by {
        let na = *n.a->Some_0;
        assert(pat_matches(inner, na));
        lemma_caps_two(inner, na);
        let x = *na.a->Some_0;
        let y = *na.b->Some_0;
        assert(pat_captures(p, n, Map::<char, Node>::empty()) == Map::<char, Node>::empty().insert(
            'A',
            x,
        ).insert('B', y));
        lemma_subst_two(tmpl, x, y);
        let r = rule_app(p, tmpl, n);
        assert(wf(na));
        assert(wf(x));
        assert(wf(y));
        assert(wf(un('!', x)));
        assert(wf(un('!', y)));
        assert(wf(r));
        assert forall|env: Map<char, bool>| #[trigger] sem(rule_app(p, tmpl, n), env) == sem(
            n,
            env,
        ) by {
            let sx = sem(x, env);
            let sy = sem(y, env);
            assert(sem(na, env) == bin_sem(na.token, sx, sy));
            assert(sem(n, env) == !sem(na, env));
            assert(sem(un('!', x), env) == !sx);
            assert(sem(un('!', y), env) == !sy);
            if rule == rule_neg_or() {
                assert(sem(r, env) == (!sx && !sy));
            } else {
                assert(sem(r, env) == (!sx || !sy));
            }
        }
    }
    assert forall|n: Node| wf(n) && var_free(n) && pat_matches(p, n) implies var_free(
        #[trigger] rule_app(p, tmpl, n),
    ) by {
        let na = *n.a->Some_0;
        assert(pat_matches(inner, na));
        lemma_caps_two(inner, na);
        let x = *na.a->Some_0;
        let y = *na.b->Some_0;
        assert(pat_captures(p, n, Map::<char, Node>::empty()) == Map::<char, Node>::empty().insert(
            'A',
            x,
        ).insert('B', y));
        lemma_subst_two(tmpl, x, y);
        assert(var_free(na));
        assert(var_free(x));
        assert(var_free(y));
        assert(var_free(un('!', x)));
        assert(var_free(un('!', y)));
        assert(var_free(rule_app(p, tmpl, n)));
    }
    assert(rule_preserves_wf(p, tmpl));
    assert(rule_preserves_sem(p, tmpl));
    assert(rule_preserves_var_free(p, tmpl));
}

/// Soundness of double-negation elimination.
proof fn lemma_rule_neg_neg_sound()
    ensures
        rule_sound(rule_neg_neg().pattern, rule_neg_neg().substitute),
{
    let p = rule_neg_neg().pattern;
    let tmpl = rule_neg_neg().substitute;
    assert forall|n: Node| wf(n) && pat_matches(p, n) implies wf(#[trigger] rule_app(p, tmpl, n))
        && (forall|env: Map<char, bool>| #[trigger] sem(rule_app(p, tmpl, n), env) == sem(
        n,
        env,
    )) by {
        let na = *n.a->Some_0;
        assert(pat_matches(un('!', leaf('A')), na));
        let x = *na.a->Some_0;
        assert(pat_matches(leaf('A'), x));
        assert(pat_captures(leaf('A'), x, Map::<char, Node>::empty())
            == Map::<char, Node>::empty().insert('A', x));
        assert(pat_captures(un('!', leaf('A')), na, Map::<char, Node>::empty())
            == Map::<char, Node>::empty().insert('A', x));
        assert(pat_captures(p, n, Map::<char, Node>::empty()) == Map::<char, Node>::empty().insert(
            'A',
            x,
        ));
        assert(rule_app(p, tmpl, n) == x);
        assert(wf(na));
        assert(wf(x));
        assert forall|env: Map<char, bool>| #[trigger] sem(rule_app(p, tmpl, n), env) == sem(
            n,
            env,
        ) by {
            assert(sem(n, env) == !sem(na, env));
            assert(sem(na, env) == !sem(x, env));
        }
    }
    assert forall|n: Node| wf(n) && var_free(n) && pat_matches(p, n) implies var_free(
        #[trigger] rule_app(p, tmpl, n),
    ) by {
        let na = *n.a->Some_0;
        assert(pat_matches(un('!', leaf('A')), na));
        let x = *na.a->Some_0;
        assert(pat_captures(leaf('A'), x, Map::<char, Node>::empty())
            == Map::<char, Node>::empty().insert('A', x));
        assert(pat_captures(un('!', leaf('A')), na, Map::<char, Node>::empty())
            == Map::<char, Node>::empty().insert('A', x));
        assert(pat_captures(p, n, Map::<char, Node>::empty()) == Map::<char, Node>::empty().insert(
            'A',
            x,
        ));
        assert(rule_app(p, tmpl, n) == x);
        assert(var_free(na));
        assert(var_free(x));
    }
    assert(rule_preserves_wf(p, tmpl));
    assert(rule_preserves_sem(p, tmpl));
    assert(rule_preserves_var_free(p, tmpl));
}

/// The whole table is semantics preserving.
pub proof fn lemma_nnf_rules_sound()
    ensures
        rules_sound(nnf_rules_spec()),
{
    lemma_rule_bin_sound(rule_impl());
    lemma_rule_bin_sound(rule_eqv());
    lemma_rule_bin_sound(rule_xor());
    lemma_rule_neg_sound(rule_neg_or());
    lemma_rule_neg_sound(rule_neg_and());
    lemma_rule_neg_neg_sound();
    assert forall|i: int| 0 <= i < nnf_rules_spec().len() implies rule_sound(
        #[trigger] nnf_rules_spec()[i].pattern,
        nnf_rules_spec()[i].substitute,
    ) by {
        if i == 0 {
            assert(nnf_rules_spec()[i] == rule_impl());
        } else if i == 1 {
            assert(nnf_rules_spec()[i] == rule_eqv());
        } else if i == 2 {
            assert(nnf_rules_spec()[i] == rule_xor());
        } else if i == 3 {
            assert(nnf_rules_spec()[i] == rule_neg_or());
        } else if i == 4 {
            assert(nnf_rules_spec()[i] == rule_neg_and());
        } else {
            assert(nnf_rules_spec()[i] == rule_neg_neg());
        }
    }
}

proof fn lemma_first_rule_rewrite_is_sound(rules: Seq<RewriteRule>, t: Node)
    requires
        wf(t),
        rules_sound(rules),
        first_rule_rewrite(rules, t) is Some,
    ensures
        wf(first_rule_rewrite(rules, t)->Some_0),
        var_free(t) ==> var_free(first_rule_rewrite(rules, t)->Some_0),
        forall|env: Map<char, bool>| #[trigger] sem(first_rule_rewrite(rules, t)->Some_0, env)
            == sem(t, env),
    decreases rules.len(),
{
    if matches_in(rules[0].pattern, t) {
        assert(rule_sound(rules[0].pattern, rules[0].substitute));
        lemma_rewrite_at_first_sound(rules[0].pattern, rules[0].substitute, t);
    } else {
        assert forall|i: int| 0 <= i < rules.drop_first().len() implies rule_sound(
            #[trigger] rules.drop_first()[i].pattern,
            rules.drop_first()[i].substitute,
        ) by {
            assert(rules.drop_first()[i] == rules[i + 1]);
        }
        lemma_first_rule_rewrite_is_sound(rules.drop_first(), t);
    }
}

/// The engine's run keeps the tree well-formed and its value unchanged,
/// and stops at a genuine fixpoint whenever it reports completion.
pub proof fn lemma_rewrite_run_sound(rules: Seq<RewriteRule>, t: Node, fuel: nat)
    requires
        wf(t),
        rules_sound(rules),
    ensures
        wf(rewrite_run(rules, t, fuel).0),
        var_free(t) ==> var_free(rewrite_run(rules, t, fuel).0),
        forall|env: Map<char, bool>| #[trigger] sem(rewrite_run(rules, t, fuel).0, env) == sem(
            t,
            env,
        ),
        rewrite_run(rules, t, fuel).1 ==> first_rule_rewrite(
            rules,
            rewrite_run(rules, t, fuel).0,
        ) is None,
    decreases fuel,
{
    match first_rule_rewrite(rules, t) {
        None => {},
        Some(t2) => {
            if fuel > 0 {
                lemma_first_rule_rewrite_is_sound(rules, t);
                lemma_rewrite_run_sound(rules, t2, (fuel - 1) as nat);
            }
        },
    }
}

/// All twelve trees of the table are well-formed.
proof fn lemma_nnf_rule_trees_wf()
    ensures
        wf(rule_impl().pattern) && wf(rule_impl().substitute),
        wf(rule_eqv().pattern) && wf(rule_eqv().substitute),
        wf(rule_xor().pattern) && wf(rule_xor().substitute),
        wf(rule_neg_or().pattern) && wf(rule_neg_or().substitute),
        wf(rule_neg_and().pattern) && wf(rule_neg_and().substitute),
        wf(rule_neg_neg().pattern) && wf(rule_neg_neg().substitute),
{
    assert(wf(leaf('A')));
    assert(wf(leaf('B')));
    assert(wf(un('!', leaf('A'))));
    assert(wf(un('!', leaf('B'))));
    assert(wf(un('!', un('!', leaf('A')))));
    assert(wf(bin('>', leaf('A'), leaf('B'))));
    assert(wf(bin('=', leaf('A'), leaf('B'))));
    assert(wf(bin('^', leaf('A'), leaf('B'))));
    assert(wf(bin('|', leaf('A'), leaf('B'))));
    assert(wf(bin('&', leaf('A'), leaf('B'))));
    assert(wf(un('!', bin('|', leaf('A'), leaf('B')))));
    assert(wf(un('!', bin('&', leaf('A'), leaf('B')))));
    assert(wf(bin('|', un('!', leaf('A')), leaf('B'))));
    assert(wf(bin('|', leaf('A'), un('!', leaf('B')))));
    assert(wf(bin('&', un('!', leaf('A')), leaf('B'))));
    assert(wf(bin('&', leaf('A'), un('!', leaf('B')))));
    assert(wf(bin('&', bin('|', un('!', leaf('A')), leaf('B')), bin('|', leaf('A'), un('!', leaf('B'))))));
    assert(wf(bin('|', bin('&', un('!', leaf('A')), leaf('B')), bin('&', leaf('A'), un('!', leaf('B'))))));
    assert(wf(bin('&', un('!', leaf('A')), un('!', leaf('B')))));
    assert(wf(bin('|', un('!', leaf('A')), un('!', leaf('B')))));
}

/// The postfix texts of the twelve trees of the table.
proof fn lemma_nnf_rule_prints()
    ensures
        print_tree(rule_impl().pattern) == seq!['A', 'B', '>'],
        print_tree(rule_impl().substitute) == seq!['A', '!', 'B', '|'],
        print_tree(rule_eqv().pattern) == seq!['A', 'B', '='],
        print_tree(rule_eqv().substitute) == seq!['A', '!', 'B', '|', 'A', 'B', '!', '|', '&'],
        print_tree(rule_xor().pattern) == seq!['A', 'B', '^'],
        print_tree(rule_xor().substitute) == seq!['A', '!', 'B', '&', 'A', 'B', '!', '&', '|'],
        print_tree(rule_neg_or().pattern) == seq!['A', 'B', '|', '!'],
        print_tree(rule_neg_or().substitute) == seq!['A', '!', 'B', '!', '&'],
        print_tree(rule_neg_and().pattern) == seq!['A', 'B', '&', '!'],
        print_tree(rule_neg_and().substitute) == seq!['A', '!', 'B', '!', '|'],
        print_tree(rule_neg_neg().pattern) == seq!['A', '!', '!'],
        print_tree(rule_neg_neg().substitute) == seq!['A'],
{
    assert(print_tree(leaf('A')) == seq!['A']);
    assert(print_tree(leaf('B')) == seq!['B']);
    assert(print_tree(un('!', leaf('A'))) =~= seq!['A', '!']);
    assert(print_tree(un('!', leaf('B'))) =~= seq!['B', '!']);
    assert(print_tree(un('!', un('!', leaf('A')))) =~= seq!['A', '!', '!']);
    assert(print_tree(bin('>', leaf('A'), leaf('B'))) =~= seq!['A', 'B', '>']);
    assert(print_tree(bin('=', leaf('A'), leaf('B'))) =~= seq!['A', 'B', '=']);
    assert(print_tree(bin('^', leaf('A'), leaf('B'))) =~= seq!['A', 'B', '^']);
    assert(print_tree(bin('|', leaf('A'), leaf('B'))) =~= seq!['A', 'B', '|']);
    assert(print_tree(bin('&', leaf('A'), leaf('B'))) =~= seq!['A', 'B', '&']);
    assert(print_tree(un('!', bin('|', leaf('A'), leaf('B'))))
        =~= seq!['A', 'B', '|', '!']);
    assert(print_tree(un('!', bin('&', leaf('A'), leaf('B'))))
        =~= seq!['A', 'B', '&', '!']);
    assert(print_tree(bin('|', un('!', leaf('A')), leaf('B')))
        =~= seq!['A', '!', 'B', '|']);
    assert(print_tree(bin('|', leaf('A'), un('!', leaf('B'))))
        =~= seq!['A', 'B', '!', '|']);
    assert(print_tree(bin('&', un('!', leaf('A')), leaf('B')))
        =~= seq!['A', '!', 'B', '&']);
    assert(print_tree(bin('&', leaf('A'), un('!', leaf('B'))))
        =~= seq!['A', 'B', '!', '&']);
    assert(print_tree(bin('&', bin('|', un('!', leaf('A')), leaf('B')), bin('|', leaf('A'), un('!', leaf('B')))))
        =~= seq!['A', '!', 'B', '|', 'A', 'B', '!', '|', '&']);
    assert(print_tree(bin('|', bin('&', un('!', leaf('A')), leaf('B')), bin('&', leaf('A'), un('!', leaf('B')))))
        =~= seq!['A', '!', 'B', '&', 'A', 'B', '!', '&', '|']);
    assert(print_tree(bin('&', un('!', leaf('A')), un('!', leaf('B'))))
        =~= seq!['A', '!', 'B', '!', '&']);
    assert(print_tree(bin('|', un('!', leaf('A')), un('!', leaf('B'))))
        =~= seq!['A', '!', 'B', '!', '|']);
}

proof fn lemma_first_rule_rewrite_none_inv(rules: Seq<RewriteRule>, t: Node)
    requires
        first_rule_rewrite(rules, t) is None,
    ensures
        forall|i: int| 0 <= i < rules.len() ==> !matches_in(#[trigger] rules[i].pattern, t),
    decreases rules.len(),
{
    if rules.len() == 0 {
    } else {
        lemma_first_rule_rewrite_none_inv(rules.drop_first(), t);
        assert forall|i: int| 0 <= i < rules.len() implies !matches_in(
            #[trigger] rules[i].pattern,
            t,
        ) by {
            if i > 0 {
                assert(rules.drop_first()[i - 1] == rules[i]);
            }
        }
    }
}

/// A well-formed tree that no rule of the table matches is in negation
/// normal form.
proof fn lemma_fixpoint_is_nnf(t: Node)
    requires
        wf(t),
        !matches_in(rule_impl().pattern, t),
        !matches_in(rule_eqv().pattern, t),
        !matches_in(rule_xor().pattern, t),
        !matches_in(rule_neg_or().pattern, t),
        !matches_in(rule_neg_and().pattern, t),
        !matches_in(rule_neg_neg().pattern, t),
    ensures
        is_nnf(t),
    decreases t,
{
    if spec_is_operand(t.token) {
    } else if spec_is_unary(t.token) {
        let a = *t.a->Some_0;
        assert(wf(a));
        lemma_fixpoint_is_nnf(a);
        if !spec_is_operand(a.token) {
            if spec_is_unary(a.token) {
                assert(pat_matches(leaf('A'), *a.a->Some_0));
                assert(pat_matches(un('!', leaf('A')), a));
                assert(pat_matches(rule_neg_neg().pattern, t));
            } else if a.token == '&' {
                assert(pat_matches(leaf('A'), *a.a->Some_0));
                assert(pat_matches(leaf('B'), *a.b->Some_0));
                assert(pat_matches(bin('&', leaf('A'), leaf('B')), a));
                assert(pat_matches(rule_neg_and().pattern, t));
            } else {
                assert(a.token == '|');
                assert(pat_matches(leaf('A'), *a.a->Some_0));
                assert(pat_matches(leaf('B'), *a.b->Some_0));
                assert(pat_matches(bin('|', leaf('A'), leaf('B')), a));
                assert(pat_matches(rule_neg_or().pattern, t));
            }
            assert(false);
        }
    } else {
        let a = *t.a->Some_0;
        let b = *t.b->Some_0;
        if t.token == '>' {
            assert(pat_matches(leaf('A'), a));
            assert(pat_matches(leaf('B'), b));
            assert(pat_matches(rule_impl().pattern, t));
            assert(false);
        } else if t.token == '=' {
            assert(pat_matches(leaf('A'), a));
            assert(pat_matches(leaf('B'), b));
            assert(pat_matches(rule_eqv().pattern, t));
            assert(false);
        } else if t.token == '^' {
            assert(pat_matches(leaf('A'), a));
            assert(pat_matches(leaf('B'), b));
            assert(pat_matches(rule_xor().pattern, t));
            assert(false);
        } else {
            lemma_fixpoint_is_nnf(a);
            lemma_fixpoint_is_nnf(b);
        }
    }
}

/// No rule of the table matches anywhere in a well-formed tree in
/// negation normal form.
proof fn lemma_is_nnf_fixpoint(t: Node)
    requires
        wf(t),
        is_nnf(t),
    ensures
        !matches_in(rule_impl().pattern, t),
        !matches_in(rule_eqv().pattern, t),
        !matches_in(rule_xor().pattern, t),
        !matches_in(rule_neg_or().pattern, t),
        !matches_in(rule_neg_and().pattern, t),
        !matches_in(rule_neg_neg().pattern, t),
    decreases t,
{
    if spec_is_operand(t.token) {
        assert(!pat_matches(rule_impl().pattern, t));
        assert(!pat_matches(rule_eqv().pattern, t));
        assert(!pat_matches(rule_xor().pattern, t));
        assert(!pat_matches(rule_neg_or().pattern, t));
        assert(!pat_matches(rule_neg_and().pattern, t));
        assert(!pat_matches(rule_neg_neg().pattern, t));
    } else if spec_is_unary(t.token) {
        let a = *t.a->Some_0;
        lemma_is_nnf_fixpoint(a);
        assert(!pat_matches(bin('|', leaf('A'), leaf('B')), a));
        assert(!pat_matches(bin('&', leaf('A'), leaf('B')), a));
        assert(!pat_matches(un('!', leaf('A')), a));
        assert(!pat_matches(rule_neg_or().pattern, t));
        assert(!pat_matches(rule_neg_and().pattern, t));
        assert(!pat_matches(rule_neg_neg().pattern, t));
    } else {
        let a = *t.a->Some_0;
        let b = *t.b->Some_0;
        lemma_is_nnf_fixpoint(a);
        lemma_is_nnf_fixpoint(b);
        assert(!pat_matches(rule_impl().pattern, t));
        assert(!pat_matches(rule_eqv().pattern, t));
        assert(!pat_matches(rule_xor().pattern, t));
        assert(!pat_matches(rule_neg_or().pattern, t));
        assert(!pat_matches(rule_neg_and().pattern, t));
        assert(!pat_matches(rule_neg_neg().pattern, t));
    }
}

/// A well-formed tree is a fixpoint of the table exactly when it is in
/// negation normal form.
pub proof fn lemma_nnf_fixpoint_iff(t: Node)
    requires
        wf(t),
    ensures
        first_rule_rewrite(nnf_rules_spec(), t) is None <==> is_nnf(t),
{
    let rules = nnf_rules_spec();
    assert(rules[0] == rule_impl());
    assert(rules[1] == rule_eqv());
    assert(rules[2] == rule_xor());
    assert(rules[3] == rule_neg_or());
    assert(rules[4] == rule_neg_and());
    assert(rules[5] == rule_neg_neg());
    if first_rule_rewrite(rules, t) is None {
        lemma_first_rule_rewrite_none_inv(rules, t);
        assert(!matches_in(rules[0].pattern, t));
        assert(!matches_in(rules[1].pattern, t));
        assert(!matches_in(rules[2].pattern, t));
        assert(!matches_in(rules[3].pattern, t));
        assert(!matches_in(rules[4].pattern, t));
        assert(!matches_in(rules[5].pattern, t));
        lemma_fixpoint_is_nnf(t);
    }
    if is_nnf(t) {
        lemma_is_nnf_fixpoint(t);
        assert forall|i: int| 0 <= i < rules.len() implies !matches_in(
            #[trigger] rules[i].pattern,
            t,
        ) by {
            if i == 0 {
            } else if i == 1 {
            } else if i == 2 {
            } else if i == 3 {
            } else if i == 4 {
            } else {
                assert(rules[i] == rule_neg_neg());
            }
        }
        lemma_first_rule_rewrite_none(rules, t);
    }
}

/// Builds one rule from the postfix texts of its pattern and its
/// substitute; the error of the pattern wins when both texts are bad.
pub fn parse_rewrite(pattern: &str, substitute: &str) -> (r: Result<RewriteRule, FormulaError>)
    ensures
        match (parse_at(pattern@), parse_at(substitute@)) {
            (Ok(p), Ok(q)) => r matches Ok(rule) && rule.pattern == p.0 && rule.substitute == q.0,
            (Err(e), _) => r == Err::<RewriteRule, FormulaError>(e),
            (_, Err(e)) => r == Err::<RewriteRule, FormulaError>(e),
        },
{
    let pat = match parse(pattern) {
        Ok(t) => t,
        Err(e) => {
            return Err(e);
        },
    };
    let sub = match parse(substitute) {
        Ok(t) => t,
        Err(e) => {
            return Err(e);
        },
    };
    Ok(RewriteRule { pattern: pat, substitute: sub })
}

/// The fixed table that rewrites a formula into negation normal form,
/// compiled from its postfix texts, in their order of application.
fn nnf_rules() -> (r: Vec<RewriteRule>)
    ensures
        r@ == nnf_rules_spec(),
{
    proof {
        lemma_nnf_rule_trees_wf();
        lemma_nnf_rule_prints();
        reveal_strlit("AB>");
        reveal_strlit("A!B|");
        reveal_strlit("AB=");
        reveal_strlit("A!B|AB!|&");
        reveal_strlit("AB^");
        reveal_strlit("A!B&AB!&|");
        reveal_strlit("AB|!");
        reveal_strlit("A!B!&");
        reveal_strlit("AB&!");
        reveal_strlit("A!B!|");
        reveal_strlit("A!!");
        reveal_strlit("A");
        assert("AB>"@ =~= print_tree(rule_impl().pattern));
        assert("A!B|"@ =~= print_tree(rule_impl().substitute));
        assert("AB="@ =~= print_tree(rule_eqv().pattern));
        assert("A!B|AB!|&"@ =~= print_tree(rule_eqv().substitute));
        assert("AB^"@ =~= print_tree(rule_xor().pattern));
        assert("A!B&AB!&|"@ =~= print_tree(rule_xor().substitute));
        assert("AB|!"@ =~= print_tree(rule_neg_or().pattern));
        assert("A!B!&"@ =~= print_tree(rule_neg_or().substitute));
        assert("AB&!"@ =~= print_tree(rule_neg_and().pattern));
        assert("A!B!|"@ =~= print_tree(rule_neg_and().substitute));
        assert("A!!"@ =~= print_tree(rule_neg_neg().pattern));
        assert("A"@ =~= print_tree(rule_neg_neg().substitute));
        lemma_text_parses_to(rule_impl().pattern);
        lemma_text_parses_to(rule_impl().substitute);
        lemma_text_parses_to(rule_eqv().pattern);
        lemma_text_parses_to(rule_eqv().substitute);
        lemma_text_parses_to(rule_xor().pattern);
        lemma_text_parses_to(rule_xor().substitute);
        lemma_text_parses_to(rule_neg_or().pattern);
        lemma_text_parses_to(rule_neg_or().substitute);
        lemma_text_parses_to(rule_neg_and().pattern);
        lemma_text_parses_to(rule_neg_and().substitute);
        lemma_text_parses_to(rule_neg_neg().pattern);
        lemma_text_parses_to(rule_neg_neg().substitute);
    }
    let mut v: Vec<RewriteRule> = Vec::new();
    match parse_rewrite("AB>", "A!B|") {
        Ok(rule) => v.push(rule),
        Err(_) => {
            return vstd::pervasive::unreached();
        },
    }
    match parse_rewrite("AB=", "A!B|AB!|&") {
        Ok(rule) => v.push(rule),
        Err(_) => {
            return vstd::pervasive::unreached();
        },
    }
    match parse_rewrite("AB^", "A!B&AB!&|") {
        Ok(rule) => v.push(rule),
        Err(_) => {
            return vstd::pervasive::unreached();
        },
    }
    match parse_rewrite("AB|!", "A!B!&") {
        Ok(rule) => v.push(rule),
        Err(_) => {
            return vstd::pervasive::unreached();
        },
    }
    match parse_rewrite("AB&!", "A!B!|") {
        Ok(rule) => v.push(rule),
        Err(_) => {
            return vstd::pervasive::unreached();
        },
    }
    match parse_rewrite("A!!", "A") {
        Ok(rule) => v.push(rule),
        Err(_) => {
            return vstd::pervasive::unreached();
        },
    }
    proof {
        assert(v@ =~= nnf_rules_spec());
    }
    v
}

/// The result of [`rewrite`]: the parsed formula run through the engine
/// and printed again, or the error that stopped it.
pub open spec fn spec_rewrite_result(f: Seq<char>, rules: Seq<RewriteRule>) -> Result<
    Seq<char>,
    FormulaError,
> {
    match parse_at(f) {
        Err(e) => Err(e),
        Ok(p) => {
            let run = rewrite_run(rules, p.0, MAX_REWRITE_STEPS as nat);
            if run.1 {
                Ok(print_tree(run.0))
            } else {
                Err(FormulaError::NonTerminatingRewrite)
            }
        },
    }
}

/// Parses the formula, rewrites it to the fixpoint of the table, and
/// prints the result.
pub fn rewrite(formula: &str, rules: &[RewriteRule]) -> (r: Result<String, FormulaError>)
    ensures
        match (r, spec_rewrite_result(formula@, rules@)) {
            (Ok(s), Ok(g)) => s@ == g,
            (Err(e1), Err(e2)) => e1 == e2,
            _ => false,
        },
{
    let mut root = match parse(formula) {
        Ok(t) => t,
        Err(e) => {
            return Err(e);
        },
    };
    match tree_rewrite(&mut root, rules) {
        Ok(()) => Ok(read_operation(&root)),
        Err(e) => Err(e),
    }
}

/// The result of [`negation_normal_form`]: the formula's tree rewritten
/// by the fixed table to a fixpoint and printed again.
pub open spec fn spec_nnf(f: Seq<char>) -> Result<Seq<char>, FormulaError> {
    spec_rewrite_result(f, nnf_rules_spec())
}

/// Rewrites a formula into negation normal form: only `&`, `|` and `!`
/// remain, and `!` stands over operands alone.  Fails exactly as the
/// parser fails on the input, or with `NonTerminatingRewrite` when the
/// step bound runs out first.
pub fn negation_normal_form(formula: &str) -> (r: Result<String, FormulaError>)
    ensures
        match (r, spec_nnf(formula@)) {
            (Ok(s), Ok(g)) => s@ == g,
            (Err(e1), Err(e2)) => e1 == e2,
            _ => false,
        },
{
    let rules = nnf_rules();
    rewrite(formula, rules.as_slice())
}

} // verus!
