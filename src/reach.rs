//! Which sequences read which, and the ranks that keep those reads acyclic.
//!
//! A sequence may read only sequences of lower rank. When a slot is defined
//! again, the definition is refused if it would read the slot itself, directly
//! or through others; otherwise the slot and every sequence that reads it are
//! raised together, far enough for the slot's new reads.

use crate::eval::entry_ok;
use crate::eval::reads_ok;
use crate::eval::table_ok;
use crate::expr::target;
use crate::expr::well_formed;
use crate::expr::Expr;
use crate::expr::NodeView;
use crate::variable::var_views;
use crate::variable::VarView;
use crate::variable::Variable;
use vstd::prelude::*;

verus! {

/// Whether nodes `j..` of `e`, an expression of rank `bound`, read sequence
/// `k`, directly or through other sequences.
pub open spec fn expr_reaches(vars: Seq<VarView>, e: Seq<NodeView>, j: nat, k: int, bound: nat) -> bool
    decreases bound, e.len() - j,
{
    if j >= e.len() {
        false
    } else {
        let here = match target(e[j as int].kind) {
            Some(x) => x == k || (x < vars.len() && vars[x as int].depth < bound && expr_reaches(
                vars,
                vars[x as int].expr,
                0,
                k,
                vars[x as int].depth,
            )),
            None => false,
        };
        here || expr_reaches(vars, e, j + 1, k, bound)
    }
}

/// Whether sequence `u` reads sequence `k`, directly or through others.
pub open spec fn reaches(vars: Seq<VarView>, u: int, k: int) -> bool {
    0 <= u < vars.len() && expr_reaches(vars, vars[u].expr, 0, k, vars[u].depth)
}

/// One more than the highest rank that nodes `j..` of `e` read (0 if they
/// read none).
pub open spec fn level(vars: Seq<VarView>, e: Seq<NodeView>, j: nat) -> nat
    decreases e.len() - j,
{
    if j >= e.len() {
        0
    } else {
        let here: nat = match target(e[j as int].kind) {
            Some(x) => if x < vars.len() {
                vars[x as int].depth + 1
            } else {
                0
            },
            None => 0,
        };
        let rest = level(vars, e, j + 1);
        if here >= rest {
            here
        } else {
            rest
        }
    }
}

/// Whether `e`, as the definition of slot `k`, would read slot `k`.
pub open spec fn closes_cycle(vars: Seq<VarView>, e: Seq<NodeView>, k: int) -> bool {
    expr_reaches(vars, e, 0, k, level(vars, e, 0))
}

/// Every node of `e` that reads a sequence reads one of the table.
pub open spec fn reads_within(vars: Seq<VarView>, e: Seq<NodeView>) -> bool {
    forall|j: int|
        0 <= j < e.len() ==> match #[trigger] target(e[j].kind) {
            Some(x) => x < vars.len(),
            None => true,
        }
}

/// The rank that slot `k` takes when it is defined as `e`.
pub open spec fn new_depth(vars: Seq<VarView>, e: Seq<NodeView>, k: int) -> nat {
    if 0 <= k < vars.len() && vars[k].depth >= level(vars, e, 0) {
        vars[k].depth
    } else {
        level(vars, e, 0)
    }
}

/// The table after slot `k` (a new slot if `k` is the table's length) is
/// defined as `e` with the random state `rng`.
pub open spec fn defined(vars: Seq<VarView>, k: int, e: Seq<NodeView>, rng: u64) -> Seq<VarView> {
    let d = new_depth(vars, e, k);
    let entry = VarView { expr: e, definition: e, rng, depth: d };
    if k == vars.len() {
        vars.push(entry)
    } else {
        let delta = d - vars[k].depth;
        Seq::new(
            vars.len(),
            |u: int|
                if u == k {
                    entry
                } else if reaches(vars, u, k) {
                    VarView {
                        expr: vars[u].expr,
                        definition: vars[u].definition,
                        rng: vars[u].rng,
                        depth: (vars[u].depth + delta) as nat,
                    }
                } else {
                    vars[u]
                },
        )
    }
}

/// A node that reads `k`, or reads a sequence that reaches `k`, makes the
/// expression reach `k`.
pub proof fn lemma_reaches_at(
    vars: Seq<VarView>,
    e: Seq<NodeView>,
    j0: nat,
    j: nat,
    k: int,
    bound: nat,
    y: usize,
)
    requires
        j0 <= j < e.len(),
        target(e[j as int].kind) == Some(y),
        y < vars.len(),
        vars[y as int].depth < bound,
        y == k || reaches(vars, y as int, k),
    ensures
        expr_reaches(vars, e, j0, k, bound),
    decreases j - j0,
{
    if j0 < j {
        lemma_reaches_at(vars, e, j0 + 1, j, k, bound, y);
    }
}

/// Every sequence that nodes `j..` of `e` read has a rank below their level.
pub proof fn lemma_level(vars: Seq<VarView>, e: Seq<NodeView>, j: nat, i: int)
    requires
        j <= i < e.len(),
        target(e[i].kind) matches Some(x) && x < vars.len(),
    ensures
        vars[target(e[i].kind)->0 as int].depth < level(vars, e, j),
    decreases i - j,
{
    if j < i {
        lemma_level(vars, e, j + 1, i);
    }
}

/// Defining a slot without closing a cycle keeps the table sound.
pub proof fn lemma_defined_ok(vars: Seq<VarView>, k: int, e: Seq<NodeView>, rng: u64)
    requires
        table_ok(vars),
        0 <= k <= vars.len(),
        well_formed(e),
        reads_within(vars, e),
        !closes_cycle(vars, e, k),
    ensures
        table_ok(defined(vars, k, e, rng)),
        k == vars.len() ==> defined(vars, k, e, rng).len() == vars.len() + 1,
        k < vars.len() ==> defined(vars, k, e, rng).len() == vars.len(),
{
    let nv = defined(vars, k, e, rng);
    let d = new_depth(vars, e, k);
    assert forall|u: int| 0 <= u < nv.len() implies #[trigger] entry_ok(nv, u) by {
        if u == k {
            assert forall|j: int| 0 <= j < nv[u].expr.len() implies match #[trigger] target(
                nv[u].expr[j].kind,
            ) {
                Some(x) => x < nv.len() && nv[x as int].depth < nv[u].depth,
                None => true,
            } by {
                match target(e[j].kind) {
                    Some(x) => {
                        lemma_level(vars, e, 0, j);
                        if k < vars.len() {
                            if x == k || reaches(vars, x as int, k) {
                                lemma_reaches_at(vars, e, 0, j as nat, k, level(vars, e, 0), x);
                            }
                            assert(nv[x as int] == vars[x as int]);
                        } else {
                            assert(nv[x as int] == vars[x as int]);
                        }
                    },
                    None => {},
                }
            }
        } else {
            assert(entry_ok(vars, u));
            assert(nv[u].expr == vars[u].expr);
            assert forall|j: int| 0 <= j < nv[u].expr.len() implies match #[trigger] target(
                nv[u].expr[j].kind,
            ) {
                Some(x) => x < nv.len() && nv[x as int].depth < nv[u].depth,
                None => true,
            } by {
                match target(vars[u].expr[j].kind) {
                    Some(y) => {
                        assert(vars[y as int].depth < vars[u].depth);
                        if k < vars.len() {
                            if y == k || reaches(vars, y as int, k) {
                                lemma_reaches_at(vars, vars[u].expr, 0, j as nat, k, vars[u].depth, y);
                                assert(reaches(vars, u, k));
                            }
                        }
                    },
                    None => {},
                }
            }
        }
    }
}

/// Whether nodes `j..` of `e`, of rank `bound`, read slot `k`.
fn expr_reaches_exec(table: &Vec<Variable>, e: &Expr, k: usize, Ghost(bound): Ghost<nat>) -> (r:
    bool)
    requires
        table_ok(var_views(table@)),
        forall|j: int|
            0 <= j < e@.len() ==> match #[trigger] target(e@[j].kind) {
                Some(x) => x < table@.len() && table@[x as int].depth@ < bound,
                None => true,
            },
    ensures
        r == expr_reaches(var_views(table@), e@, 0, k as int, bound),
    decreases bound,
{
    let ghost vars = var_views(table@);
    let mut j: usize = 0;
    while j < e.nodes.len()
        invariant
            j <= e@.len(),
            vars == var_views(table@),
            table_ok(vars),
            forall|i: int|
                0 <= i < e@.len() ==> match #[trigger] target(e@[i].kind) {
                    Some(x) => x < table@.len() && table@[x as int].depth@ < bound,
                    None => true,
                },
            expr_reaches(vars, e@, 0, k as int, bound) == expr_reaches(vars, e@, j as nat, k as int, bound),
        decreases e@.len() - j,
    {
        let x = match &e.nodes[j].kind {
            crate::expr::Kind::Next(x) => Some(*x),
            crate::expr::Kind::Prev(x) => Some(*x),
            _ => None,
        };
        assert(x == target(e@[j as int].kind));
        match x {
            Some(x) => {
                if x == k {
                    return true;
                }
                assert(vars[x as int] == table@[x as int]@);
                assert(entry_ok(vars, x as int));
                assert(reads_ok(vars, x as int));
                if expr_reaches_exec(table, &table[x].expr, k, Ghost(table@[x as int].depth@)) {
                    return true;
                }
            },
            None => {},
        }
        j = j + 1;
    }
    false
}

/// Whether `e`, as the definition of slot `k`, would read slot `k`.
pub(crate) fn closes_cycle_exec(table: &Vec<Variable>, e: &Expr, k: usize) -> (r: bool)
    requires
        table_ok(var_views(table@)),
        reads_within(var_views(table@), e@),
    ensures
        r == closes_cycle(var_views(table@), e@, k as int),
{
    let ghost vars = var_views(table@);
    proof {
        assert forall|j: int| 0 <= j < e@.len() implies match #[trigger] target(e@[j].kind) {
            Some(x) => x < table@.len() && table@[x as int].depth@ < level(vars, e@, 0),
            None => true,
        } by {
            if target(e@[j].kind) is Some {
                lemma_level(vars, e@, 0, j);
                assert(vars[target(e@[j].kind)->0 as int] == table@[target(e@[j].kind)->0 as int]@);
            }
        }
    }
    expr_reaches_exec(table, e, k, Ghost(level(vars, e@, 0)))
}

} // verus!
