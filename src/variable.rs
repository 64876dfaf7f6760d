//! Named sequences: an expression with its own random source.

use crate::eval::entry_ok;
use crate::eval::eval_var;
use crate::eval::root_kind;
use crate::eval::within_range;
use crate::eval::reads_ok;
use crate::eval::step_var;
use crate::expr::target;
use crate::expr::well_formed;
use crate::expr::Expr;
use crate::expr::NodeView;
use vstd::prelude::*;

verus! {

/// A sequence as a mathematical value: its live expression, the expression
/// as it was defined, its random state and its rank. A sequence reads only
/// sequences of lower rank, which is what keeps evaluation from looping.
pub struct VarView {
    pub expr: Seq<NodeView>,
    pub definition: Seq<NodeView>,
    pub rng: u64,
    pub depth: nat,
}

/// A sequence: an expression that owns its state, the expression as it was
/// defined, and the state of its random source.
pub struct Variable {
    pub expr: Expr,
    pub definition: Expr,
    pub rng: u64,
    pub depth: Ghost<nat>,
}

impl View for Variable {
    type V = VarView;

    open spec fn view(&self) -> VarView {
        VarView {
            expr: self.expr@,
            definition: self.definition@,
            rng: self.rng,
            depth: self.depth@,
        }
    }
}

/// The views of a table of sequences.
pub open spec fn var_views(s: Seq<Variable>) -> Seq<VarView> {
    s.map_values(|v: Variable| v@)
}

/// The value a sequence produced last (0 before its first step).
pub open spec fn var_prev(v: VarView) -> u32 {
    if v.expr.len() > 0 {
        v.expr.last().prev
    } else {
        0
    }
}

/// Whether the last step of a sequence completed a cycle.
pub open spec fn var_done(v: VarView) -> bool {
    if v.expr.len() > 0 {
        v.expr.last().done
    } else {
        false
    }
}

/// The expression reads no other sequence.
pub open spec fn self_contained(e: Seq<NodeView>) -> bool {
    forall|j: int| 0 <= j < e.len() ==> #[trigger] target(e[j].kind) is None
}

impl Variable {
    /// A sequence defined by `expr`, drawing from the random state `rng`.
    pub fn new(expr: Expr, rng: u64) -> (v: Variable)
        ensures
            v@ == (VarView { expr: expr@, definition: expr@, rng, depth: 0 }),
    {
        let definition = expr.duplicate();
        Variable { expr, definition, rng, depth: Ghost(0) }
    }

    /// A fresh copy of the expression as it was defined, without the state
    /// it has gathered since.
    pub fn clone_expr(&self) -> (e: Expr)
        ensures
            e@ == self@.definition,
    {
        self.definition.duplicate()
    }

    /// Steps a sequence that reads no other one and returns its value.
    pub fn next(&mut self) -> (r: u32)
        requires
            well_formed(old(self)@.expr),
            self_contained(old(self)@.expr),
        ensures
            final(self)@ == eval_var(seq![old(self)@], 0).vars[0],
            r == eval_var(seq![old(self)@], 0).value,
            within_range(root_kind(old(self)@), r),
    {
        let mut taken = Variable {
            expr: Expr::constant(0),
            definition: Expr::constant(0),
            rng: 0,
            depth: Ghost(0),
        };
        std::mem::swap(self, &mut taken);
        let ghost start = taken@;
        let mut table: Vec<Variable> = Vec::new();
        table.push(taken);
        proof {
            let vars = var_views(table@);
            assert(vars =~= seq![start]);
            assert(reads_ok(vars, 0));
            assert(entry_ok(vars, 0));
        }
        let r = step_var(&mut table, 0);
        let ghost after = var_views(table@);
        let mut back = table.pop().unwrap();
        proof {
            assert(back@ == after[0]);
        }
        std::mem::swap(self, &mut back);
        r
    }

    /// The value produced last; 0 before the first step.
    pub fn prev(&self) -> (r: u32)
        ensures
            r == var_prev(self@),
    {
        let n = self.expr.nodes.len();
        if n > 0 {
            self.expr.nodes[n - 1].prev
        } else {
            0
        }
    }

    /// Whether the last step completed a cycle; false before the first step.
    pub fn done(&self) -> (r: bool)
        ensures
            r == var_done(self@),
    {
        let n = self.expr.nodes.len();
        if n > 0 {
            self.expr.nodes[n - 1].done
        } else {
            false
        }
    }
}

} // verus!
