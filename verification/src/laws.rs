//! The headline laws of the crate, stated over its public spec functions
//! and proved once: semantic preservation, the negation-normal-form
//! shape, and idempotence of normalization.  The round trip of parsing
//! and printing stands beside them in `rpn_formula`
//! (`lemma_round_trip`, `lemma_text_parses_to`).

use vstd::prelude::*;

use crate::ast::{is_nnf, print_tree, sem, var_free, wf, Node};
use crate::rpn_formula::{
    lemma_eval_of_printed, lemma_parse_at_sound, lemma_text_parses_to, parse_at, spec_eval,
    FormulaError,
};
use crate::rpn_rewrite::{
    first_rule_rewrite, lemma_nnf_fixpoint_iff, lemma_nnf_rules_sound, lemma_rewrite_run_sound,
    nnf_rules_spec, rewrite_run, spec_nnf, MAX_REWRITE_STEPS,
};

verus! {

/// Semantic preservation: under every assignment of its free variables,
/// a formula and its negation normal form evaluate identically.
pub proof fn lemma_nnf_preserves_semantics(f: Seq<char>, g: Seq<char>, env: Map<char, bool>)
    requires
        spec_nnf(f) == Ok::<Seq<char>, FormulaError>(g),
    ensures
        parse_at(f) is Ok,
        parse_at(g) is Ok,
        sem(parse_at(g)->Ok_0.0, env) == sem(parse_at(f)->Ok_0.0, env),
{
    let t0 = parse_at(f)->Ok_0.0;
    lemma_parse_at_sound(f);
    lemma_nnf_rules_sound();
    lemma_rewrite_run_sound(nnf_rules_spec(), t0, MAX_REWRITE_STEPS as nat);
    let t1 = rewrite_run(nnf_rules_spec(), t0, MAX_REWRITE_STEPS as nat).0;
    lemma_text_parses_to(t1);
}

/// The shape of a normalized formula: its tree holds no `>`, `=` or `^`
/// and negates operands only, and the printed text itself is free of
/// those three characters.
pub proof fn lemma_nnf_shape(f: Seq<char>, g: Seq<char>)
    requires
        spec_nnf(f) == Ok::<Seq<char>, FormulaError>(g),
    ensures
        parse_at(g) matches Ok(p) && p.1.len() == 0 && wf(p.0) && is_nnf(p.0),
        forall|i: int| 0 <= i < g.len() ==> g[i] != '>' && g[i] != '=' && g[i] != '^',
{
    let t0 = parse_at(f)->Ok_0.0;
    lemma_parse_at_sound(f);
    lemma_nnf_rules_sound();
    lemma_rewrite_run_sound(nnf_rules_spec(), t0, MAX_REWRITE_STEPS as nat);
    let t1 = rewrite_run(nnf_rules_spec(), t0, MAX_REWRITE_STEPS as nat).0;
    lemma_nnf_fixpoint_iff(t1);
    lemma_text_parses_to(t1);
    lemma_nnf_print_chars(t1);
}

/// Idempotence: normalizing a normalized formula returns it unchanged.
pub proof fn lemma_nnf_idempotent(f: Seq<char>, g: Seq<char>)
    requires
        spec_nnf(f) == Ok::<Seq<char>, FormulaError>(g),
    ensures
        spec_nnf(g) == Ok::<Seq<char>, FormulaError>(g),
{
    let t0 = parse_at(f)->Ok_0.0;
    lemma_parse_at_sound(f);
    lemma_nnf_rules_sound();
    lemma_rewrite_run_sound(nnf_rules_spec(), t0, MAX_REWRITE_STEPS as nat);
    let t1 = rewrite_run(nnf_rules_spec(), t0, MAX_REWRITE_STEPS as nat).0;
    lemma_text_parses_to(t1);
    assert(first_rule_rewrite(nnf_rules_spec(), t1) is None);
    assert(rewrite_run(nnf_rules_spec(), t1, MAX_REWRITE_STEPS as nat) == (t1, true));
}

/// Evaluation preservation: a formula whose operands are all literal
/// bits gives the evaluator the same verdict before and after
/// normalization.
pub proof fn lemma_nnf_preserves_evaluation(f: Seq<char>, g: Seq<char>)
    requires
        spec_nnf(f) == Ok::<Seq<char>, FormulaError>(g),
        parse_at(f) matches Ok(p) && p.1.len() == 0 && var_free(p.0),
    ensures
        spec_eval(f) is Ok,
        spec_eval(g) == spec_eval(f),
{
    let t0 = parse_at(f)->Ok_0.0;
    lemma_parse_at_sound(f);
    assert(parse_at(f)->Ok_0.1 + print_tree(t0) =~= print_tree(t0));
    assert(f == print_tree(t0));
    lemma_nnf_rules_sound();
    lemma_rewrite_run_sound(nnf_rules_spec(), t0, MAX_REWRITE_STEPS as nat);
    let t1 = rewrite_run(nnf_rules_spec(), t0, MAX_REWRITE_STEPS as nat).0;
    let env = Map::<char, bool>::empty();
    lemma_eval_of_printed(t0, env);
    lemma_eval_of_printed(t1, env);
    assert(sem(t1, env) == sem(t0, env));
}

/// The printed text of a tree in negation normal form holds none of the
/// three rewritten connectives.
proof fn lemma_nnf_print_chars(t: Node)
    requires
        wf(t),
        is_nnf(t),
    ensures
        forall|i: int|
            0 <= i < print_tree(t).len() ==> print_tree(t)[i] != '>' && print_tree(t)[i] != '='
                && print_tree(t)[i] != '^',
    decreases t,
{
    let s = print_tree(t);
    if crate::ast::spec_is_operand(t.token) {
    } else if crate::ast::spec_is_unary(t.token) {
        let a = *t.a->Some_0;
        lemma_nnf_print_chars(a);
        assert forall|i: int| 0 <= i < s.len() implies s[i] != '>' && s[i] != '=' && s[i]
            != '^' by {
            if i < print_tree(a).len() {
                assert(s[i] == print_tree(a)[i]);
            }
        }
    } else {
        let a = *t.a->Some_0;
        let b = *t.b->Some_0;
        lemma_nnf_print_chars(a);
        lemma_nnf_print_chars(b);
        let pa = print_tree(a);
        let pb = print_tree(b);
        assert(s == pa + pb + seq![t.token]);
        assert forall|i: int| 0 <= i < s.len() implies s[i] != '>' && s[i] != '=' && s[i]
            != '^' by {
            if i < pa.len() {
                assert(s[i] == pa[i]);
            } else if i < pa.len() + pb.len() {
                assert(s[i] == pb[i - pa.len()]);
            } else {
                assert(s[i] == t.token);
            }
        }
    }
}

} // verus!
