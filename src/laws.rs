//! Properties of sessions that relate several calls.

use crate::ast::Item;
use crate::ast::Node;
use crate::bind::bind_all;
use crate::bind::bind_statement;
use crate::bind::first_failure;
use crate::bind::lemma_bind_all_concat;
use crate::bind::statements;
use crate::bind::statements_of;
use crate::bind::bound;
use crate::context::distinct;
use crate::context::handle_of;
use crate::context::valid_handle;
use crate::context::ContextView;
use crate::eval::eval_node;
use crate::eval::eval_var;
use crate::eval::record;
use crate::eval::root_kind;
use crate::eval::entry_ok;
use crate::expr::identity;
use crate::expr::is_permutation;
use crate::expr::node_ok;
use crate::expr::KindView;
use crate::random::shuffle_state;
use crate::random::shuffle_value;
use crate::variable::var_done;
use crate::variable::VarView;
use vstd::prelude::*;

verus! {

/// The session after binding `entries` one after the other; an entry that
/// fails leaves what its contract says and the next one is bound all the same.
pub open spec fn bind_entries(c: ContextView, entries: Seq<Item>) -> ContextView
    decreases entries.len(),
{
    if entries.len() == 0 {
        c
    } else {
        bound(bind_entries(c, entries.drop_last()), entries.last()).0
    }
}

/// The session after stepping `handles` one after the other, and what each
/// step gave (`None` for a handle that names no sequence).
pub open spec fn step_values(c: ContextView, handles: Seq<usize>) -> (ContextView, Seq<Option<u32>>)
    decreases handles.len(),
{
    if handles.len() == 0 {
        (c, Seq::empty())
    } else {
        let (c1, values) = step_values(c, handles.drop_last());
        let h = handles.last();
        if valid_handle(c1.vars.len(), h) {
            (c1.stepped(h), values.push(Some(eval_var(c1.vars, h - 1).value)))
        } else {
            (c1, values.push(None))
        }
    }
}

/// A session that holds nothing yet.
pub open spec fn is_empty(c: ContextView) -> bool {
    c.names.len() == 0 && c.vars.len() == 0 && c.enums.len() == 0
}

/// Reproducibility: two empty sessions with the same master seed are the same
/// session, so binding one program into each and stepping the same handles
/// gives the same values, call for call.
pub proof fn lemma_reproducible(
    a: ContextView,
    b: ContextView,
    entries: Seq<Item>,
    handles: Seq<usize>,
)
    requires
        is_empty(a),
        is_empty(b),
        a.seeder == b.seeder,
    ensures
        step_values(bind_entries(a, entries), handles) == step_values(
            bind_entries(b, entries),
            handles,
        ),
{
    assert(a.names =~= b.names);
    assert(a.vars =~= b.vars);
    assert(a.enums =~= b.enums);
    assert(a == b);
}

/// A range sequence stays a range with the same bounds after a step. With
/// the bound on each value that `next` gives, a range `[v, v]` gives `v` on
/// every step.
pub proof fn lemma_range_keeps_bounds(vars: Seq<VarView>, u: int, lo: u32, hi: u32)
    requires
        0 <= u < vars.len(),
        vars[u].expr.len() > 0,
        root_kind(vars[u]) == KindView::Range(lo, hi),
    ensures
        root_kind(eval_var(vars, u).vars[u]) == KindView::Range(lo, hi),
        eval_var(vars, u).vars[u].expr.len() == vars[u].expr.len(),
{
}

/// Binding a statement never moves a handle: every name that had a handle
/// keeps it, also the name that the statement defines again.
pub proof fn lemma_handles_stable(c: ContextView, n: Node, x: Seq<char>)
    requires
        c.wf(),
        bind_statement(c, n) is Ok,
        handle_of(c.names, x) is Some,
    ensures
        handle_of(bind_statement(c, n)->Ok_0.names, x) == handle_of(c.names, x),
{
    let c2 = bind_statement(c, n)->Ok_0;
    if c2.names != c.names {
        let name = c2.names.last();
        assert(c2.names == c.names.push(name));
        assert(handle_of(c.names, name) is None);
        let i = choose|i: int| 0 <= i < c.names.len() && c.names[i] == x;
        assert(c2.names[i] == x);
        let j = choose|j: int| 0 <= j < c2.names.len() && c2.names[j] == x;
        if j == c.names.len() {
            assert(c.names[i] == name);
        }
        assert(c.names[j] == x);
    }
}


/// Sequence `u` stepped `m` times: the table afterwards, and each step's
/// value and whether it completed a cycle.
pub open spec fn run_var(vars: Seq<VarView>, u: int, m: nat) -> (Seq<VarView>, Seq<(u32, bool)>)
    decreases m,
{
    if m == 0 {
        (vars, Seq::empty())
    } else {
        let (v1, out) = run_var(vars, u, (m - 1) as nat);
        let o = eval_var(v1, u);
        (o.vars, out.push((o.value, var_done(o.vars[u]))))
    }
}

/// `order` visits each of `0..n` once.
pub open spec fn is_order(order: Seq<usize>, n: nat) -> bool {
    &&& order.len() == n
    &&& forall|i: int| 0 <= i < n ==> #[trigger] order[i] < n
    &&& distinct(order)
}

/// The sequence is a round without replacement over the constants `vals`: the
/// constants, then a `Unique` node over all of them, at position `cursor` of
/// `order`.
pub open spec fn unique_over(v: VarView, vals: Seq<u32>, order: Seq<usize>, cursor: nat) -> bool {
    let n = vals.len();
    &&& v.expr.len() == n + 1
    &&& forall|k: int| 0 <= k < n ==> #[trigger] v.expr[k].kind == KindView::Constant(vals[k])
    &&& v.expr[n as int].kind == KindView::Unique(identity(n), order, cursor as usize)
}

proof fn lemma_round_prefix(vars: Seq<VarView>, u: int, vals: Seq<u32>, order: Seq<usize>, m: nat)
    requires
        0 <= u < vars.len(),
        0 < vals.len() < usize::MAX,
        is_order(order, vals.len()),
        unique_over(vars[u], vals, order, 0),
        m <= vals.len(),
    ensures
        run_var(vars, u, m).0.len() == vars.len(),
        run_var(vars, u, m).1.len() == m,
        m < vals.len() ==> unique_over(run_var(vars, u, m).0[u], vals, order, m),
        forall|j: int|
            0 <= j < m ==> #[trigger] run_var(vars, u, m).1[j] == (
                vals[order[j] as int],
                j == vals.len() - 1,
            ),
    decreases m,
{
    let n = vals.len();
    if m > 0 {
        let pm = (m - 1) as nat;
        lemma_round_prefix(vars, u, vals, order, pm);
        let (v1, out) = run_var(vars, u, pm);
        let x = v1[u];
        let bound = x.depth;
        let c = order[pm as int];
        assert(c < n);
        assert(identity(n)[c as int] == c);
        let inner = record(v1, u, c as int, KindView::Constant(vals[c as int]), vals[c as int], true, x.rng);
        assert(eval_node(v1, u, c as nat, bound) == inner);
        let a = inner.vars;
        assert(a[u].expr[c as int].done);
        let o = eval_var(v1, u);
        if pm + 1 < n {
            assert(o == record(
                a,
                u,
                n as int,
                KindView::Unique(identity(n), order, (pm + 1) as usize),
                vals[c as int],
                false,
                a[u].rng,
            ));
            assert forall|k: int| 0 <= k < n implies #[trigger] o.vars[u].expr[k].kind
                == KindView::Constant(vals[k]) by {
                assert(v1[u].expr[k].kind == KindView::Constant(vals[k]));
            }
        } else {
            assert(o == record(
                a,
                u,
                n as int,
                KindView::Unique(identity(n), shuffle_value(order, a[u].rng), 0),
                vals[c as int],
                true,
                shuffle_state(order, a[u].rng),
            ));
        }
        assert(var_done(o.vars[u]) == (pm == n - 1));
        assert forall|j: int| 0 <= j < m implies #[trigger] run_var(vars, u, m).1[j] == (
            vals[order[j] as int],
            j == vals.len() - 1,
        ) by {
            if j < pm {
                assert(run_var(vars, u, m).1[j] == out[j]);
            }
        }
    }
}

/// Sampling without replacement, over one round: a `Unique` node over `n`
/// constants, at the start of a round whose order visits each child once,
/// gives in its next `n` steps each constant exactly once, in that order, and
/// reports a completed cycle on the last of those steps only.
pub proof fn lemma_unique_round(vars: Seq<VarView>, u: int, vals: Seq<u32>, order: Seq<usize>)
    requires
        0 <= u < vars.len(),
        0 < vals.len() < usize::MAX,
        is_order(order, vals.len()),
        unique_over(vars[u], vals, order, 0),
    ensures
        run_var(vars, u, vals.len()).1 == order.map_values(|i: usize| (vals[i as int], false)).update(
            vals.len() - 1,
            (vals[order[vals.len() - 1] as int], true),
        ),
{
    lemma_round_prefix(vars, u, vals, order, vals.len());
    let n = vals.len();
    let expected = order.map_values(|i: usize| (vals[i as int], false)).update(
        n - 1,
        (vals[order[n - 1] as int], true),
    );
    assert(run_var(vars, u, n).1 =~= expected);
}


/// A permutation of `0..n`, as a multiset, visits each position once.
pub proof fn lemma_permutation_is_order(order: Seq<usize>, n: nat)
    requires
        is_permutation(order, n),
        n <= usize::MAX,
    ensures
        is_order(order, n),
{
    broadcast use vstd::seq_lib::group_to_multiset_ensures;

    let id = identity(n);
    assert forall|i: int, j: int| 0 <= i < id.len() && 0 <= j < id.len() && i != j implies id[i]
        != id[j] by {
        assert(id[i] == i);
        assert(id[j] == j);
    }
    assert(id.no_duplicates());
    id.lemma_multiset_has_no_duplicates();
    order.lemma_multiset_has_no_duplicates_conv();
    assert(order.len() == order.to_multiset().len());
    assert(id.len() == id.to_multiset().len());
    assert forall|i: int| 0 <= i < n implies #[trigger] order[i] < n by {
        assert(order.contains(order[i]));
        assert(order.to_multiset().count(order[i]) > 0);
        assert(id.contains(order[i]));
        let k = choose|k: int| 0 <= k < id.len() && id[k] == order[i];
        assert(id[k] == k);
    }
}

/// Sampling without replacement in a session: every round of a `Unique`
/// sequence over constants gives each constant exactly once, in the round's
/// order, and reports a completed cycle on the round's last step only.
pub proof fn lemma_session_round(c: ContextView, u: int, vals: Seq<u32>, order: Seq<usize>)
    requires
        c.wf(),
        0 <= u < c.vars.len(),
        0 < vals.len() < usize::MAX,
        unique_over(c.vars[u], vals, order, 0),
    ensures
        is_order(order, vals.len()),
        run_var(c.vars, u, vals.len()).1 == order.map_values(|i: usize| (vals[i as int], false)).update(
            vals.len() - 1,
            (vals[order[vals.len() - 1] as int], true),
        ),
{
    let n = vals.len();
    assert(entry_ok(c.vars, u));
    assert(node_ok(c.vars[u].expr[n as int].kind, n as int));
    assert(identity(n).len() == n);
    lemma_permutation_is_order(order, n);
    lemma_unique_round(c.vars, u, vals, order);
}


/// Binds the statements of `items` one item after the other, up to the first
/// statement that fails.
pub open spec fn bind_in_turn(c: ContextView, items: Seq<Item>) -> (ContextView, Result<(), crate::bind::BindError>)
    decreases items.len(),
{
    if items.len() == 0 {
        (c, Ok(()))
    } else {
        let (c1, r1) = bind_in_turn(c, items.drop_last());
        if r1 is Err {
            (c1, r1)
        } else {
            bind_all(c1, statements(items.last()))
        }
    }
}

/// A `require` is flattened in place: binding the expansion of a file, with
/// no failed `require` in it, binds its items one after the other, as if they
/// stood where the `require` does.
pub proof fn lemma_require_in_place(c: ContextView, v: Vec<Item>)
    requires
        first_failure(Item::Multiple(v)) is None,
    ensures
        bound(c, Item::Multiple(v)) == bind_in_turn(c, v@),
{
    lemma_in_turn(c, v@);
}

proof fn lemma_in_turn(c: ContextView, items: Seq<Item>)
    ensures
        bind_all(c, statements_of(items)) == bind_in_turn(c, items),
    decreases items.len(),
{
    if items.len() > 0 {
        lemma_in_turn(c, items.drop_last());
        lemma_bind_all_concat(c, statements_of(items.drop_last()), statements(items.last()));
    }
}

} // verus!
