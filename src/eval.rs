//! Stepping sequences.
//!
//! All sequences of a session stand in one table, and a node that reads
//! another sequence names its slot there. One step of a sequence is a
//! function of the table: it gives the value and the table afterwards.

use crate::expr::apply_binary;
use crate::expr::apply_unary;
use crate::expr::links;
use crate::expr::node_ok;
use crate::expr::round_ok;
use crate::expr::target;
use crate::expr::well_formed;
use crate::expr::Kind;
use crate::expr::KindView;
use crate::expr::Node;
use crate::expr::NodeView;
use crate::expr::binary;
use crate::expr::unary;
use crate::random::draw_index;
use crate::random::draw_uniform;
use crate::random::draw_weighted;
use crate::random::shuffle;
use crate::random::index_state;
use crate::random::index_value;
use crate::random::shuffle_state;
use crate::random::shuffle_value;
use crate::random::uniform_state;
use crate::random::uniform_value;
use crate::random::weighted_state;
use crate::random::weighted_value;
use crate::variable::var_done;
use crate::variable::var_prev;
use crate::variable::var_views;
use crate::variable::Variable;
use crate::variable::VarView;
use vstd::prelude::*;

verus! {

/// The table after a step, and the value the step gave.
pub struct Outcome {
    pub vars: Seq<VarView>,
    pub value: u32,
}

/// Node `i` of sequence `t` gave `value` and `done`, and now is `kind`; the
/// sequence's random state is `rng`.
pub open spec fn record(
    vars: Seq<VarView>,
    t: int,
    i: int,
    kind: KindView,
    value: u32,
    done: bool,
    rng: u64,
) -> Outcome {
    let v = vars[t];
    Outcome {
        vars: vars.update(
            t,
            VarView {
                expr: v.expr.update(i, NodeView { prev: value, done, kind }),
                definition: v.definition,
                rng,
                depth: v.depth,
            },
        ),
        value,
    }
}

/// The table with the random state of sequence `t` set to `rng`.
pub open spec fn with_rng(vars: Seq<VarView>, t: int, rng: u64) -> Seq<VarView> {
    vars.update(
        t,
        VarView { expr: vars[t].expr, definition: vars[t].definition, rng, depth: vars[t].depth },
    )
}

/// One step of node `i` of sequence `t`. `bound` is the rank of `t`: a node
/// steps only sequences of lower rank. Where a node does not fit its
/// expression, nothing changes.
pub open spec fn eval_node(vars: Seq<VarView>, t: int, i: nat, bound: nat) -> Outcome
    decreases bound, i, 0nat,
{
    if !(0 <= t < vars.len() && i < vars[t].expr.len()) {
        Outcome { vars, value: 0 }
    } else {
        let node = vars[t].expr[i as int];
        let rng = vars[t].rng;
        let same = Outcome { vars, value: node.prev };
        match node.kind {
            KindView::Constant(v) => record(vars, t, i as int, node.kind, v, true, rng),
            KindView::Range(lo, hi) => {
                if lo <= hi {
                    record(
                        vars,
                        t,
                        i as int,
                        node.kind,
                        uniform_value(rng, lo, hi),
                        true,
                        uniform_state(rng, lo, hi),
                    )
                } else {
                    same
                }
            },
            KindView::Pattern(lo, hi, cur) => {
                let after = if cur >= hi {
                    lo
                } else {
                    (cur + 1) as u32
                };
                record(vars, t, i as int, KindView::Pattern(lo, hi, after), cur, cur == hi, rng)
            },
            KindView::Unary(op, c) => {
                if c < i {
                    let a = eval_node(vars, t, c as nat, bound);
                    record(
                        a.vars,
                        t,
                        i as int,
                        node.kind,
                        apply_unary(op, a.value),
                        a.vars[t].expr[c as int].done,
                        a.vars[t].rng,
                    )
                } else {
                    same
                }
            },
            KindView::Binary(l, op, r) => {
                if l < i && r < i {
                    let a = eval_node(vars, t, l as nat, bound);
                    let b = eval_node(a.vars, t, r as nat, bound);
                    record(
                        b.vars,
                        t,
                        i as int,
                        node.kind,
                        apply_binary(op, a.value, b.value),
                        a.vars[t].expr[l as int].done || b.vars[t].expr[r as int].done,
                        b.vars[t].rng,
                    )
                } else {
                    same
                }
            },
            KindView::Sample(cs, cur) => {
                let k = match cur {
                    Some(k) => k,
                    None => index_value(rng, cs.len() as usize),
                };
                let rng1 = match cur {
                    Some(_) => rng,
                    None => index_state(rng, cs.len() as usize),
                };
                if k < cs.len() && cs[k as int] < i {
                    let c = cs[k as int];
                    let a = eval_node(with_rng(vars, t, rng1), t, c as nat, bound);
                    let d = a.vars[t].expr[c as int].done;
                    record(
                        a.vars,
                        t,
                        i as int,
                        KindView::Sample(
                            cs,
                            if d {
                                None
                            } else {
                                Some(k)
                            },
                        ),
                        a.value,
                        d,
                        a.vars[t].rng,
                    )
                } else {
                    same
                }
            },
            KindView::Weighted(cs, ws, cur) => {
                let k = match cur {
                    Some(k) => k,
                    None => weighted_value(ws, rng),
                };
                let rng1 = match cur {
                    Some(_) => rng,
                    None => weighted_state(ws, rng),
                };
                if k < cs.len() && cs[k as int] < i {
                    let c = cs[k as int];
                    let a = eval_node(with_rng(vars, t, rng1), t, c as nat, bound);
                    let d = a.vars[t].expr[c as int].done;
                    record(
                        a.vars,
                        t,
                        i as int,
                        KindView::Weighted(
                            cs,
                            ws,
                            if d {
                                None
                            } else {
                                Some(k)
                            },
                        ),
                        a.value,
                        d,
                        a.vars[t].rng,
                    )
                } else {
                    same
                }
            },
            KindView::Unique(cs, order, cursor) => {
                if cursor < order.len() && order[cursor as int] < cs.len()
                    && cs[order[cursor as int] as int] < i {
                    let c = cs[order[cursor as int] as int];
                    let a = eval_node(vars, t, c as nat, bound);
                    let arng = a.vars[t].rng;
                    if !a.vars[t].expr[c as int].done {
                        record(a.vars, t, i as int, node.kind, a.value, false, arng)
                    } else if cursor + 1 < cs.len() {
                        record(
                            a.vars,
                            t,
                            i as int,
                            KindView::Unique(cs, order, (cursor + 1) as usize),
                            a.value,
                            false,
                            arng,
                        )
                    } else {
                        record(
                            a.vars,
                            t,
                            i as int,
                            KindView::Unique(cs, shuffle_value(order, arng), 0),
                            a.value,
                            true,
                            shuffle_state(order, arng),
                        )
                    }
                } else {
                    same
                }
            },
            KindView::Next(u) => {
                if 0 <= u < vars.len() && vars[u as int].depth < bound {
                    let a = eval_var(vars, u as int);
                    record(
                        a.vars,
                        t,
                        i as int,
                        node.kind,
                        a.value,
                        var_done(a.vars[u as int]),
                        a.vars[t].rng,
                    )
                } else {
                    same
                }
            },
            KindView::Prev(u) => {
                if 0 <= u < vars.len() {
                    record(
                        vars,
                        t,
                        i as int,
                        node.kind,
                        var_prev(vars[u as int]),
                        var_done(vars[u as int]),
                        rng,
                    )
                } else {
                    same
                }
            },
        }
    }
}

/// A value drawn by a range node lies between its bounds.
pub open spec fn within_range(k: KindView, r: u32) -> bool {
    match k {
        KindView::Range(lo, hi) => lo <= hi ==> lo <= r && r <= hi,
        _ => true,
    }
}

/// The root of a sequence's expression.
pub open spec fn root_kind(v: VarView) -> KindView {
    v.expr.last().kind
}

/// One step of sequence `u`: a step of its root.
pub open spec fn eval_var(vars: Seq<VarView>, u: int) -> Outcome
    decreases vars[u].depth, vars[u].expr.len(), 1nat,
{
    if 0 <= u < vars.len() && vars[u].expr.len() > 0 {
        eval_node(vars, u, (vars[u].expr.len() - 1) as nat, vars[u].depth)
    } else {
        Outcome { vars, value: 0 }
    }
}


/// A node's kind without its running state.
pub open spec fn skeleton(k: KindView) -> KindView {
    match k {
        KindView::Pattern(lo, hi, _) => KindView::Pattern(lo, hi, lo),
        KindView::Sample(cs, _) => KindView::Sample(cs, None),
        KindView::Unique(cs, _, _) => KindView::Unique(cs, Seq::empty(), 0),
        KindView::Weighted(cs, ws, _) => KindView::Weighted(cs, ws, None),
        _ => k,
    }
}

/// Every node of sequence `u` that reads a sequence reads one of the table of
/// lower rank.
pub open spec fn reads_ok(vars: Seq<VarView>, u: int) -> bool {
    forall|j: int|
        0 <= j < vars[u].expr.len() ==> match #[trigger] target(vars[u].expr[j].kind) {
            Some(x) => x < vars.len() && vars[x as int].depth < vars[u].depth,
            None => true,
        }
}

/// A table whose sequences are well formed and read only sequences of lower
/// rank.
pub open spec fn table_ok(vars: Seq<VarView>) -> bool {
    forall|u: int| 0 <= u < vars.len() ==> #[trigger] entry_ok(vars, u)
}

/// Sequence `u` is well formed and reads only sequences of lower rank.
pub open spec fn entry_ok(vars: Seq<VarView>, u: int) -> bool {
    well_formed(vars[u].expr) && reads_ok(vars, u)
}

/// Two entries that differ in running state only, the second one's rounds
/// valid.
pub open spec fn same_entry(x: VarView, y: VarView) -> bool {
    &&& y.depth == x.depth
    &&& y.definition == x.definition
    &&& y.expr.len() == x.expr.len()
    &&& forall|j: int|
        #![trigger y.expr[j]]
        0 <= j < x.expr.len() ==> skeleton(y.expr[j].kind) == skeleton(x.expr[j].kind) && round_ok(
            y.expr[j].kind,
        )
}

/// Two tables that differ in running state only.
pub open spec fn same_shape(a: Seq<VarView>, b: Seq<VarView>) -> bool {
    &&& a.len() == b.len()
    &&& forall|u: int| #![trigger b[u]] 0 <= u < a.len() ==> same_entry(a[u], b[u])
}

pub proof fn lemma_skeleton(a: KindView, b: KindView, i: int)
    requires
        skeleton(a) == skeleton(b),
        round_ok(a),
        round_ok(b),
    ensures
        links(a) == links(b),
        target(a) == target(b),
        node_ok(a, i) == node_ok(b, i),
{
    assert(links(a) == links(b));
    match a {
        KindView::Weighted(cs, ws, _) => {
            assert(b matches KindView::Weighted(cs2, ws2, _) && cs2 == cs && ws2 == ws);
        },
        _ => {
            assert(!(b is Weighted));
        },
    }
}

pub proof fn lemma_same_shape_refl(a: Seq<VarView>)
    requires
        table_ok(a),
    ensures
        same_shape(a, a),
{
    assert forall|u: int| 0 <= u < a.len() implies same_entry(a[u], #[trigger] a[u]) by {
        assert(entry_ok(a, u));
        assert forall|j: int| 0 <= j < a[u].expr.len() implies round_ok(#[trigger] a[u].expr[j].kind) by {
            assert(node_ok(a[u].expr[j].kind, j));
        }
    }
}

pub proof fn lemma_same_shape_trans(a: Seq<VarView>, b: Seq<VarView>, c: Seq<VarView>)
    requires
        same_shape(a, b),
        same_shape(b, c),
    ensures
        same_shape(a, c),
{
    assert forall|u: int| 0 <= u < a.len() implies same_entry(a[u], #[trigger] c[u]) by {
        assert(same_entry(a[u], b[u]));
        assert(same_entry(b[u], c[u]));
        assert forall|j: int| 0 <= j < a[u].expr.len() implies skeleton(
            #[trigger] c[u].expr[j].kind,
        ) == skeleton(a[u].expr[j].kind) by {
            assert(skeleton(b[u].expr[j].kind) == skeleton(a[u].expr[j].kind));
        }
    }
}

/// A table of the same shape as a sound one is sound.
pub proof fn lemma_same_shape_ok(a: Seq<VarView>, b: Seq<VarView>)
    requires
        table_ok(a),
        same_shape(a, b),
    ensures
        table_ok(b),
{
    assert forall|u: int| 0 <= u < b.len() implies #[trigger] entry_ok(b, u) by {
        assert(entry_ok(a, u));
        assert(same_entry(a[u], b[u]));
        assert forall|j: int| 0 <= j < b[u].expr.len() implies #[trigger] node_ok(
            b[u].expr[j].kind,
            j,
        ) by {
            assert(skeleton(b[u].expr[j].kind) == skeleton(a[u].expr[j].kind));
            assert(node_ok(a[u].expr[j].kind, j));
            lemma_skeleton(b[u].expr[j].kind, a[u].expr[j].kind, j);
        }
        assert forall|j: int| 0 <= j < b[u].expr.len() implies match #[trigger] target(
            b[u].expr[j].kind,
        ) {
            Some(x) => x < b.len() && b[x as int].depth < b[u].depth,
            None => true,
        } by {
            assert(skeleton(b[u].expr[j].kind) == skeleton(a[u].expr[j].kind));
            assert(node_ok(a[u].expr[j].kind, j));
            lemma_skeleton(b[u].expr[j].kind, a[u].expr[j].kind, j);
            match target(a[u].expr[j].kind) {
                Some(x) => {
                    assert(same_entry(a[x as int], b[x as int]));
                },
                None => {},
            }
        }
    }
}

/// Writes what node `i` of sequence `t` gave, and the sequence's random state.
fn store(table: &mut Vec<Variable>, t: usize, i: usize, kind: Kind, value: u32, done: bool, rng: u64)
    requires
        t < old(table)@.len(),
        i < old(table)@[t as int].expr@.len(),
    ensures
        var_views(final(table)@) =~= record(
            var_views(old(table)@),
            t as int,
            i as int,
            kind@,
            value,
            done,
            rng,
        ).vars,
{
    let ghost kv = kind@;
    let ghost before = old(table)@[t as int];
    let var = &mut table[t];
    var.expr.nodes.set(i, Node { prev: value, done, kind });
    var.rng = rng;
    proof {
        assert(var.expr@ =~= before.expr@.update(i as int, NodeView { prev: value, done, kind: kv }));
    }
}

/// Sets the random state of sequence `t`.
fn store_rng(table: &mut Vec<Variable>, t: usize, rng: u64)
    requires
        t < old(table)@.len(),
    ensures
        var_views(final(table)@) =~= with_rng(var_views(old(table)@), t as int, rng),
{
    let var = &mut table[t];
    var.rng = rng;
}


pub proof fn lemma_record_shape(
    vars: Seq<VarView>,
    t: int,
    i: int,
    kind: KindView,
    value: u32,
    done: bool,
    rng: u64,
)
    requires
        table_ok(vars),
        0 <= t < vars.len(),
        0 <= i < vars[t].expr.len(),
        skeleton(kind) == skeleton(vars[t].expr[i].kind),
        round_ok(kind),
    ensures
        same_shape(vars, record(vars, t, i, kind, value, done, rng).vars),
{
    let b = record(vars, t, i, kind, value, done, rng).vars;
    lemma_same_shape_refl(vars);
    assert forall|u: int| 0 <= u < vars.len() implies same_entry(vars[u], #[trigger] b[u]) by {
        assert(same_entry(vars[u], vars[u]));
        if u == t {
            assert forall|j: int| 0 <= j < vars[u].expr.len() implies skeleton(
                #[trigger] b[u].expr[j].kind,
            ) == skeleton(vars[u].expr[j].kind) by {
                if j == i {
                }
            }
        }
    }
}

pub proof fn lemma_with_rng_shape(vars: Seq<VarView>, t: int, rng: u64)
    requires
        table_ok(vars),
        0 <= t < vars.len(),
    ensures
        same_shape(vars, with_rng(vars, t, rng)),
{
    let b = with_rng(vars, t, rng);
    lemma_same_shape_refl(vars);
    assert forall|u: int| 0 <= u < vars.len() implies same_entry(vars[u], #[trigger] b[u]) by {
        assert(same_entry(vars[u], vars[u]));
    }
}

/// One step of node `i` of sequence `t`, whose rank is `bound`.
fn step_node(table: &mut Vec<Variable>, t: usize, i: usize, Ghost(bound): Ghost<nat>) -> (r: u32)
    requires
        table_ok(var_views(old(table)@)),
        t < old(table)@.len(),
        i < old(table)@[t as int].expr@.len(),
        old(table)@[t as int].depth@ == bound,
    ensures
        var_views(final(table)@) == eval_node(
            var_views(old(table)@),
            t as int,
            i as nat,
            bound,
        ).vars,
        r == eval_node(var_views(old(table)@), t as int, i as nat, bound).value,
        within_range(var_views(old(table)@)[t as int].expr[i as int].kind, r),
        same_shape(var_views(old(table)@), var_views(final(table)@)),
    decreases bound, i, 0nat,
{
    let ghost vars = var_views(table@);
    let kind = table[t].expr.nodes[i].kind.duplicate();
    let prev = table[t].expr.nodes[i].prev;
    let rng = table[t].rng;
    proof {
        assert(vars[t as int] == table@[t as int]@);
        assert(vars[t as int].expr[i as int] == table@[t as int].expr.nodes@[i as int]@);
        assert(entry_ok(vars, t as int));
        assert(node_ok(vars[t as int].expr[i as int].kind, i as int));
        lemma_same_shape_refl(vars);
    }
    match kind {
        Kind::Constant(v) => {
            proof {
                lemma_record_shape(vars, t as int, i as int, kind@, v, true, rng);
            }
            store(table, t, i, Kind::Constant(v), v, true, rng);
            v
        },
        Kind::Range(lo, hi) => {
            if lo <= hi {
                let (v, next) = draw_uniform(rng, lo, hi);
                proof {
                    lemma_record_shape(vars, t as int, i as int, kind@, v, true, next);
                }
                store(table, t, i, Kind::Range(lo, hi), v, true, next);
                v
            } else {
                prev
            }
        },
        Kind::Pattern(lo, hi, cur) => {
            let after = if cur >= hi {
                lo
            } else {
                cur + 1
            };
            proof {
                lemma_record_shape(
                    vars,
                    t as int,
                    i as int,
                    KindView::Pattern(lo, hi, after),
                    cur,
                    cur == hi,
                    rng,
                );
            }
            store(table, t, i, Kind::Pattern(lo, hi, after), cur, cur == hi, rng);
            cur
        },
        Kind::Unary(op, c) => {
            if c < i {
                let v0 = step_node(table, t, c, Ghost(bound));
                let ghost a = var_views(table@);
                proof {
                    assert(a[t as int] == table@[t as int]@);
                }
                let d = table[t].expr.nodes[c].done;
                let arng = table[t].rng;
                let v = unary(op, v0);
                proof {
                    assert(a[t as int] == table@[t as int]@);
                    lemma_same_shape_ok(vars, a);
                    lemma_record_shape(a, t as int, i as int, kind@, v, d, arng);
                    lemma_same_shape_trans(vars, a, record(a, t as int, i as int, kind@, v, d, arng).vars);
                }
                store(table, t, i, Kind::Unary(op, c), v, d, arng);
                v
            } else {
                prev
            }
        },
        Kind::Binary(l, op, r) => {
            if l < i && r < i {
                let v1 = step_node(table, t, l, Ghost(bound));
                let ghost a = var_views(table@);
                proof {
                    assert(a[t as int] == table@[t as int]@);
                }
                let d1 = table[t].expr.nodes[l].done;
                proof {
                    assert(a[t as int] == table@[t as int]@);
                    lemma_same_shape_ok(vars, a);
                }
                let v2 = step_node(table, t, r, Ghost(bound));
                let ghost b = var_views(table@);
                proof {
                    assert(b[t as int] == table@[t as int]@);
                }
                let d2 = table[t].expr.nodes[r].done;
                let brng = table[t].rng;
                let v = binary(op, v1, v2);
                proof {
                    assert(b[t as int] == table@[t as int]@);
                    lemma_same_shape_trans(vars, a, b);
                    lemma_same_shape_ok(vars, b);
                    lemma_record_shape(b, t as int, i as int, kind@, v, d1 || d2, brng);
                    lemma_same_shape_trans(vars, b, record(b, t as int, i as int, kind@, v, d1 || d2, brng).vars);
                }
                store(table, t, i, Kind::Binary(l, op, r), v, d1 || d2, brng);
                v
            } else {
                prev
            }
        },
        Kind::Sample(cs, cur) => {
            if cs.len() == 0 {
                return prev;
            }
            let (k, rng1) = match cur {
                Some(k) => (k, rng),
                None => draw_index(rng, cs.len()),
            };
            if k < cs.len() && cs[k] < i {
                let c = cs[k];
                proof {
                    lemma_with_rng_shape(vars, t as int, rng1);
                    lemma_same_shape_ok(vars, with_rng(vars, t as int, rng1));
                }
                store_rng(table, t, rng1);
                let ghost w = var_views(table@);
                proof {
                    assert(w[t as int] == table@[t as int]@);
                }
                let v = step_node(table, t, c, Ghost(bound));
                let ghost a = var_views(table@);
                proof {
                    assert(a[t as int] == table@[t as int]@);
                }
                let d = table[t].expr.nodes[c].done;
                let arng = table[t].rng;
                let after = if d {
                    None
                } else {
                    Some(k)
                };
                proof {
                    assert(a[t as int] == table@[t as int]@);
                    lemma_same_shape_trans(vars, w, a);
                    lemma_same_shape_ok(vars, a);
                    lemma_record_shape(a, t as int, i as int, KindView::Sample(cs@, after), v, d, arng);
                    lemma_same_shape_trans(vars, a, record(a, t as int, i as int, KindView::Sample(cs@, after), v, d, arng).vars);
                }
                store(table, t, i, Kind::Sample(cs, after), v, d, arng);
                v
            } else {
                prev
            }
        },
        Kind::Weighted(cs, ws, cur) => {
            let (k, rng1) = match cur {
                Some(k) => (k, rng),
                None => draw_weighted(&ws, rng),
            };
            if k < cs.len() && cs[k] < i {
                let c = cs[k];
                proof {
                    lemma_with_rng_shape(vars, t as int, rng1);
                    lemma_same_shape_ok(vars, with_rng(vars, t as int, rng1));
                }
                store_rng(table, t, rng1);
                let ghost w = var_views(table@);
                proof {
                    assert(w[t as int] == table@[t as int]@);
                }
                let v = step_node(table, t, c, Ghost(bound));
                let ghost a = var_views(table@);
                proof {
                    assert(a[t as int] == table@[t as int]@);
                }
                let d = table[t].expr.nodes[c].done;
                let arng = table[t].rng;
                let after = if d {
                    None
                } else {
                    Some(k)
                };
                let ghost nk = KindView::Weighted(cs@, ws@, after);
                proof {
                    assert(a[t as int] == table@[t as int]@);
                    lemma_same_shape_trans(vars, w, a);
                    lemma_same_shape_ok(vars, a);
                    lemma_record_shape(a, t as int, i as int, nk, v, d, arng);
                    lemma_same_shape_trans(vars, a, record(a, t as int, i as int, nk, v, d, arng).vars);
                }
                store(table, t, i, Kind::Weighted(cs, ws, after), v, d, arng);
                v
            } else {
                prev
            }
        },
        Kind::Unique(cs, order, cursor) => {
            if cursor < order.len() && order[cursor] < cs.len() && cs[order[cursor]] < i {
                let c = cs[order[cursor]];
                let v = step_node(table, t, c, Ghost(bound));
                let ghost a = var_views(table@);
                proof {
                    assert(a[t as int] == table@[t as int]@);
                }
                let d = table[t].expr.nodes[c].done;
                let arng = table[t].rng;
                proof {
                    assert(a[t as int] == table@[t as int]@);
                }
                if !d {
                    let ghost nk = KindView::Unique(cs@, order@, cursor);
                    proof {
                        lemma_same_shape_ok(vars, a);
                        lemma_record_shape(a, t as int, i as int, nk, v, false, arng);
                        lemma_same_shape_trans(vars, a, record(a, t as int, i as int, nk, v, false, arng).vars);
                    }
                    store(table, t, i, Kind::Unique(cs, order, cursor), v, false, arng);
                } else if cursor + 1 < cs.len() {
                    let ghost nk = KindView::Unique(cs@, order@, (cursor + 1) as usize);
                    proof {
                        lemma_same_shape_ok(vars, a);
                        lemma_record_shape(a, t as int, i as int, nk, v, false, arng);
                        lemma_same_shape_trans(vars, a, record(a, t as int, i as int, nk, v, false, arng).vars);
                    }
                    store(table, t, i, Kind::Unique(cs, order, cursor + 1), v, false, arng);
                } else {
                    let (shuffled, next) = shuffle(order, arng);
                    let ghost nk = KindView::Unique(cs@, shuffled@, 0);
                    proof {
                        lemma_same_shape_ok(vars, a);
                        lemma_record_shape(a, t as int, i as int, nk, v, true, next);
                        lemma_same_shape_trans(vars, a, record(a, t as int, i as int, nk, v, true, next).vars);
                    }
                    store(table, t, i, Kind::Unique(cs, shuffled, 0), v, true, next);
                }
                v
            } else {
                prev
            }
        },
        Kind::Next(u) => {
            proof {
                assert(reads_ok(vars, t as int));
                assert(target(vars[t as int].expr[i as int].kind) == Some(u));
            }
            let v = step_var(table, u);
            let ghost a = var_views(table@);
            proof {
                assert(a[u as int] == table@[u as int]@);
                assert(a[t as int] == table@[t as int]@);
                lemma_same_shape_ok(vars, a);
                assert(entry_ok(a, u as int));
            }
            let last = table[u].expr.nodes.len() - 1;
            let d = table[u].expr.nodes[last].done;
            let arng = table[t].rng;
            proof {
                lemma_same_shape_ok(vars, a);
                lemma_record_shape(a, t as int, i as int, kind@, v, d, arng);
                lemma_same_shape_trans(vars, a, record(a, t as int, i as int, kind@, v, d, arng).vars);
            }
            store(table, t, i, Kind::Next(u), v, d, arng);
            v
        },
        Kind::Prev(u) => {
            proof {
                assert(reads_ok(vars, t as int));
                assert(target(vars[t as int].expr[i as int].kind) == Some(u));
                assert(vars[u as int] == table@[u as int]@);
                assert(entry_ok(vars, u as int));
            }
            let last = table[u].expr.nodes.len() - 1;
            let p = table[u].expr.nodes[last].prev;
            let d = table[u].expr.nodes[last].done;
            proof {
                lemma_record_shape(vars, t as int, i as int, kind@, p, d, rng);
            }
            store(table, t, i, Kind::Prev(u), p, d, rng);
            p
        },
    }
}

/// One step of sequence `u`.
pub(crate) fn step_var(table: &mut Vec<Variable>, u: usize) -> (r: u32)
    requires
        table_ok(var_views(old(table)@)),
        u < old(table)@.len(),
    ensures
        var_views(final(table)@) == eval_var(var_views(old(table)@), u as int).vars,
        r == eval_var(var_views(old(table)@), u as int).value,
        within_range(root_kind(var_views(old(table)@)[u as int]), r),
        same_shape(var_views(old(table)@), var_views(final(table)@)),
    decreases old(table)@[u as int].depth@, old(table)@[u as int].expr@.len(), 1nat,
{
    let ghost vars = var_views(table@);
    proof {
        assert(vars[u as int] == table@[u as int]@);
        assert(entry_ok(vars, u as int));
    }
    let last = table[u].expr.nodes.len() - 1;
    step_node(table, u, last, Ghost(table@[u as int].depth@))
}

} // verus!
