//! Properties of the parser as a whole.
use vstd::prelude::*;
use crate::ast::{Error, Node, Regexp, is_tree, lemma_all_trees};
use crate::parser::{
    alternate_of, alternate_stack, bar_below_top, close_stack, concat_of, concat_stack, finish, outcome,
    lemma_collapse_not_marker, lemma_operand_start, operand_start, operands_from, parse_result,
    repeat_of, scan, step, swap_top,
};

verus! {

/// Every operand on the stack is a finished expression tree.
pub open spec fn operands_are_trees(st: Seq<Node>) -> bool {
    forall|j: int| 0 <= j < st.len() && !(#[trigger] st[j]).is_marker() ==> is_tree(st[j])
}

/// Collapse law: collecting operands wraps them in a `Concat` or an
/// `Alternate` only when there are at least two; a single operand is kept as
/// it is, and no operand at all concatenates to `Empty`.
pub proof fn lemma_collapse(ops: Seq<Node>)
    ensures
        ops.len() == 0 ==> concat_of(ops) == Node::Empty,
        ops.len() == 1 ==> concat_of(ops) == ops[0] && alternate_of(ops) == ops[0],
        ops.len() >= 2 ==> concat_of(ops) == Node::Concat(ops) && alternate_of(ops)
            == Node::Alternate(ops),
{
}

/// The operand that collects the pending operands of a stack of trees is a
/// tree.
proof fn lemma_collect_trees(st: Seq<Node>)
    requires
        operands_are_trees(st),
    ensures
        operands_are_trees(concat_stack(st)),
        operand_start(st) < st.len() ==> operands_are_trees(alternate_stack(st)),
{
    lemma_operand_start(st);
    lemma_collapse_not_marker(st);
    let i = operand_start(st) as int;
    let ops = operands_from(st, i);
    assert forall|j: int| 0 <= j < ops.len() implies is_tree(#[trigger] ops[j]) by {
        assert(ops[j] == st[i + j]);
    }
    lemma_all_trees(ops);
    let c = concat_stack(st);
    assert forall|j: int| 0 <= j < c.len() && !(#[trigger] c[j]).is_marker() implies is_tree(
        c[j],
    ) by {
        if j < c.len() - 1 {
            assert(c[j] == st[j]);
        } else if ops.len() == 1 {
            assert(ops[0] == st[i]);
        }
    }
    if i < st.len() {
        let a = alternate_stack(st);
        assert forall|j: int| 0 <= j < a.len() && !(#[trigger] a[j]).is_marker() implies is_tree(
            a[j],
        ) by {
            if j < a.len() - 1 {
                assert(a[j] == st[j]);
            }
        }
    }
}

/// Closing an alternation keeps the operands trees and leaves an operand
/// on top.
proof fn lemma_close_trees(st: Seq<Node>)
    requires
        operands_are_trees(st),
    ensures
        operands_are_trees(close_stack(st)),
        close_stack(st).len() > 0,
        !close_stack(st).last().is_marker(),
{
    lemma_collect_trees(st);
    lemma_collapse_not_marker(st);
    let t = concat_stack(st);
    if bar_below_top(t) {
        let u = swap_top(t).drop_last();
        assert(u =~= t.take(t.len() - 2).push(t.last()));
        assert forall|j: int| 0 <= j < u.len() && !(#[trigger] u[j]).is_marker() implies is_tree(
            u[j],
        ) by {
            if j < u.len() - 1 {
                assert(u[j] == t[j]);
            }
        }
        lemma_operand_start(u);
        lemma_collect_trees(u);
        lemma_collapse_not_marker(u);
    }
}

/// One step of the scan keeps the operands trees.
proof fn lemma_step_trees(st: Seq<Node>, ncap: nat, c: char)
    requires
        operands_are_trees(st),
    ensures
        step(st, ncap, c) matches Ok((st2, _)) ==> operands_are_trees(st2),
{
    lemma_collect_trees(st);
    lemma_close_trees(st);
    lemma_collapse_not_marker(st);
    if let Ok((st2, _)) = step(st, ncap, c) {
        assert forall|j: int| 0 <= j < st2.len() && !(#[trigger] st2[j]).is_marker() implies is_tree(
            st2[j],
        ) by {
            let t = concat_stack(st);
            let u = close_stack(st);
            if c == '|' {
                if bar_below_top(t) {
                    assert(j == t.len() - 1 || j == t.len() - 2 || st2[j] == t[j]);
                    assert(j == t.len() - 2 ==> st2[j] == t[t.len() - 1]);
                } else if j < t.len() {
                    assert(st2[j] == t[j]);
                }
            } else if c == ')' {
                if j < u.len() - 2 {
                    assert(st2[j] == u[j]);
                }
            } else if c == '*' || c == '+' || c == '?' {
                if j < st.len() - 1 {
                    assert(st2[j] == st[j]);
                } else {
                    assert(st2[j] == repeat_of(c, st.last()));
                    assert(is_tree(st[st.len() - 1]));
                }
            } else if j < st.len() {
                assert(st2[j] == st[j]);
            }
        }
    }
}

/// Every successful scan leaves a stack whose operands are trees.
proof fn lemma_scan_trees(s: Seq<char>)
    ensures
        scan(s) matches Ok((st, _)) ==> operands_are_trees(st),
    decreases s.len(),
{
    if s.len() > 0 {
        lemma_scan_trees(s.drop_last());
        if let Ok((st, n)) = scan(s.drop_last()) {
            lemma_step_trees(st, n, s.last());
        }
    }
}

/// What a successful parse returns is a finished tree: no sentinel in it,
/// and no `Concat` or `Alternate` with fewer than two children.
pub proof fn lemma_parse_gives_tree(s: Seq<char>)
    ensures
        parse_result(s) matches Ok(n) ==> is_tree(n),
{
    lemma_scan_trees(s);
    if let Ok((st, _)) = scan(s) {
        lemma_close_trees(st);
        let t = close_stack(st);
        if t.len() == 1 {
            assert(finish(st) == Ok::<Node, Error>(t[0]));
        }
    }
}

/// Determinism: two outcomes that meet the contract of `parse` for the same
/// characters are the same tree, or the same error.
pub proof fn lemma_parse_deterministic(
    s1: Seq<char>,
    s2: Seq<char>,
    r1: Result<Regexp, Error>,
    r2: Result<Regexp, Error>,
)
    requires
        s1 == s2,
        outcome(r1) == parse_result(s1),
        outcome(r2) == parse_result(s2),
    ensures
        outcome(r1) == outcome(r2),
{
}

} // verus!
