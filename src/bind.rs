//! Binding: statement trees become sequences of a session.
//!
//! Each assignment lowers its expression into nodes, drawing the new
//! sequence's random source from the session's seeding state, and defines the
//! name. Identifiers resolve to sequences already bound; forward references do
//! not resolve. An entry that holds a failed `require` anywhere is refused
//! before anything of it is bound; otherwise its statements are bound in
//! order up to the first that fails, and those before it stay bound.

use crate::ast::Function;
use crate::ast::Item;
use crate::ast::Method;
use crate::ast::Node;
use crate::context::enum_first_result;
use crate::context::enum_item_result;
use crate::context::handle_of;
use crate::context::item_names;
use crate::context::with_enum;
use crate::context::Context;
use crate::context::ContextView;
use crate::context::EnumDef;
use crate::context::EnumItem;
use crate::context::EnumView;
use crate::expr::all_well_formed;
use crate::expr::expr_views;
use crate::expr::fresh;
use crate::expr::gather;
use crate::expr::identity;
use crate::expr::lemma_shift_links;
use crate::expr::shift;
use crate::expr::target;
use crate::expr::well_formed;
use crate::expr::Expr;
use crate::expr::KindView;
use crate::expr::spec_binary;
use crate::expr::spec_constant;
use crate::expr::spec_next_of;
use crate::expr::spec_pattern;
use crate::expr::spec_prev_of;
use crate::expr::spec_range;
use crate::expr::spec_sample;
use crate::expr::spec_unary;
use crate::expr::spec_unique;
use crate::expr::spec_weighted;
use crate::expr::total_len;
use crate::expr::NodeView;
use crate::reach::reads_within;
use crate::variable::VarView;
use crate::random::fork_state;
use crate::random::fork_value;
use crate::random::shuffle_state;
use vstd::prelude::*;

verus! {

broadcast use vstd::std_specs::vec::group_vec_axioms, vstd::seq::group_seq_axioms;

/// Why an entry could not be bound.
#[derive(Debug, PartialEq, Eq)]
pub enum BindError {
    /// A name that no sequence or enumeration has (yet).
    UnresolvedIdentifier(String),
    /// A `require` whose file could not be read: its path and the cause.
    RequireIO(String, String),
    /// An enumeration that declares one item twice: the enumeration and item.
    DuplicateEnumItem(String, String),
    /// A definition that would read the sequence it defines.
    CyclicReference(String),
    /// A tree of a shape that the grammar does not produce.
    Malformed,
    /// An expression too large to lay out in memory.
    TooLarge,
}

/// The value of a node that must be a constant: a number or an enumeration
/// item.
pub open spec fn const_of(c: ContextView, n: Node) -> Result<u32, BindError> {
    match n {
        Node::Number(v) => Ok(v),
        Node::EnumItemInst(en, item) => enum_item_result(c.enums, en, item),
        Node::EnumInst(en) => enum_first_result(c.enums, en),
        _ => Err(BindError::Malformed),
    }
}

/// What an expression node lowers to in session `c`, drawing from `rng`: its
/// nodes and the random state afterwards, or why it cannot be lowered.
pub open spec fn lower(c: ContextView, n: Node, rng: u64) -> Result<(Seq<NodeView>, u64), BindError>
    decreases n,
{
    match n {
        Node::Number(v) => Ok((spec_constant(v), rng)),
        Node::EnumItemInst(en, item) => match enum_item_result(c.enums, en, item) {
            Ok(v) => Ok((spec_constant(v), rng)),
            Err(x) => Err(x),
        },
        Node::EnumInst(en) => match enum_first_result(c.enums, en) {
            Ok(v) => Ok((spec_constant(v), rng)),
            Err(x) => Err(x),
        },
        Node::Identifier(name) => match handle_of(c.names, name@) {
            Some(h) => Ok((spec_next_of((h - 1) as usize), rng)),
            None => Err(BindError::UnresolvedIdentifier(name)),
        },
        Node::VariableMethodCall(name, m) => match handle_of(c.names, name@) {
            Some(h) => match m {
                Method::Next => Ok((spec_next_of((h - 1) as usize), rng)),
                Method::Prev => Ok((spec_prev_of((h - 1) as usize), rng)),
                Method::Copy => Ok((c.vars[h - 1].definition, rng)),
            },
            None => Err(BindError::UnresolvedIdentifier(name)),
        },
        Node::UnaryOperation(op, a) => match lower(c, *a, rng) {
            Ok((e, r)) => if e.len() < usize::MAX {
                Ok((spec_unary(op, e), r))
            } else {
                Err(BindError::TooLarge)
            },
            Err(x) => Err(x),
        },
        Node::BinaryOperation(a, op, b) => match lower(c, *a, rng) {
            Ok((l, r1)) => match lower(c, *b, r1) {
                Ok((r, r2)) => if l.len() + r.len() < usize::MAX {
                    Ok((spec_binary(l, op, r), r2))
                } else {
                    Err(BindError::TooLarge)
                },
                Err(x) => Err(x),
            },
            Err(x) => Err(x),
        },
        Node::Function(f, args) => match f {
            Function::Range => bounds(c, args@, rng, false),
            Function::Pattern => bounds(c, args@, rng, true),
            _ => match lower_args(c, args@, rng, f == Function::WeightedSample) {
                Ok((es, ws, r)) => if es.len() == 0 {
                    Err(BindError::Malformed)
                } else if total_len(es) >= usize::MAX || es.len() > u32::MAX {
                    Err(BindError::TooLarge)
                } else {
                    match f {
                        Function::Sample => Ok((spec_sample(es), r)),
                        Function::Unique => Ok(
                            (spec_unique(es, r), shuffle_state(identity(es.len()), r)),
                        ),
                        _ => Ok((spec_weighted(es, ws), r)),
                    }
                },
                Err(x) => Err(x),
            },
        },
        _ => Err(BindError::Malformed),
    }
}

/// A range, or a pattern, between the two constant arguments.
pub open spec fn bounds(c: ContextView, args: Seq<Box<Node>>, rng: u64, pattern: bool) -> Result<
    (Seq<NodeView>, u64),
    BindError,
> {
    if args.len() == 2 {
        match const_of(c, *args[0]) {
            Ok(lo) => match const_of(c, *args[1]) {
                Ok(hi) => Ok(
                    (
                        if pattern {
                            spec_pattern(lo, hi)
                        } else {
                            spec_range(lo, hi)
                        },
                        rng,
                    ),
                ),
                Err(x) => Err(x),
            },
            Err(x) => Err(x),
        }
    } else {
        Err(BindError::Malformed)
    }
}

/// The arguments of a sampling function lowered left to right, with their
/// weights (each a `WeightedPair` of positive weight where `weighted`, else 1
/// each).
pub open spec fn lower_args(c: ContextView, args: Seq<Box<Node>>, rng: u64, weighted: bool) -> Result<
    (Seq<Seq<NodeView>>, Seq<u32>, u64),
    BindError,
>
    decreases args,
{
    if args.len() == 0 {
        Ok((Seq::empty(), Seq::empty(), rng))
    } else {
        match lower_args(c, args.drop_last(), rng, weighted) {
            Ok((es, ws, r)) => if weighted {
                match *args.last() {
                    Node::WeightedPair(w, child) => if w == 0 {
                        Err(BindError::Malformed)
                    } else {
                        match lower(c, *child, r) {
                            Ok((e, r2)) => Ok((es.push(e), ws.push(w), r2)),
                            Err(x) => Err(x),
                        }
                    },
                    _ => Err(BindError::Malformed),
                }
            } else {
                match lower(c, *args.last(), r) {
                    Ok((e, r2)) => Ok((es.push(e), ws.push(1u32), r2)),
                    Err(x) => Err(x),
                }
            },
            Err(x) => Err(x),
        }
    }
}


/// `r` is what `s` says, and a lowered expression is well formed and reads
/// only sequences of the table `vars`.
pub open spec fn lowered_as(
    r: Result<(Expr, u64), BindError>,
    s: Result<(Seq<NodeView>, u64), BindError>,
    vars: Seq<VarView>,
) -> bool {
    match r {
        Ok((e, rng)) => {
            &&& s == Ok::<(Seq<NodeView>, u64), BindError>((e@, rng))
            &&& well_formed(e@)
            &&& reads_within(vars, e@)
        },
        Err(x) => s == Err::<(Seq<NodeView>, u64), BindError>(x),
    }
}

pub proof fn lemma_reads_single(vars: Seq<VarView>, k: KindView)
    requires
        target(k) matches Some(x) ==> x < vars.len(),
    ensures
        reads_within(vars, seq![fresh(k)]),
{
    assert forall|j: int| 0 <= j < 1 implies match #[trigger] target(seq![fresh(k)][j].kind) {
        Some(x) => x < vars.len(),
        None => true,
    } by {
        assert(seq![fresh(k)][j] == fresh(k));
    }
}

pub proof fn lemma_reads_shift(vars: Seq<VarView>, e: Seq<NodeView>, d: nat)
    requires
        reads_within(vars, e),
    ensures
        reads_within(vars, shift(e, d)),
{
    assert forall|j: int| 0 <= j < shift(e, d).len() implies match #[trigger] target(
        shift(e, d)[j].kind,
    ) {
        Some(x) => x < vars.len(),
        None => true,
    } by {
        lemma_shift_links(e[j].kind, d);
        assert(match target(e[j].kind) {
            Some(x) => x < vars.len(),
            None => true,
        });
    }
}

pub proof fn lemma_reads_concat(vars: Seq<VarView>, a: Seq<NodeView>, b: Seq<NodeView>)
    requires
        reads_within(vars, a),
        reads_within(vars, b),
    ensures
        reads_within(vars, a + b),
{
    assert forall|j: int| 0 <= j < (a + b).len() implies match #[trigger] target((a + b)[j].kind) {
        Some(x) => x < vars.len(),
        None => true,
    } by {
        if j < a.len() {
            assert((a + b)[j] == a[j]);
            assert(match target(a[j].kind) {
                Some(x) => x < vars.len(),
                None => true,
            });
        } else {
            assert((a + b)[j] == b[j - a.len()]);
            assert(match target(b[j - a.len()].kind) {
                Some(x) => x < vars.len(),
                None => true,
            });
        }
    }
}

/// Each of several expressions reads only sequences of the table.
pub open spec fn all_read_within(vars: Seq<VarView>, es: Seq<Seq<NodeView>>) -> bool {
    forall|j: int| 0 <= j < es.len() ==> #[trigger] reads_within(vars, es[j])
}

pub proof fn lemma_reads_gather(vars: Seq<VarView>, es: Seq<Seq<NodeView>>)
    requires
        all_read_within(vars, es),
    ensures
        reads_within(vars, gather(es).0),
    decreases es.len(),
{
    if es.len() > 0 {
        let (nodes, _) = gather(es.drop_last());
        assert(all_read_within(vars, es.drop_last())) by {
            assert forall|j: int| 0 <= j < es.drop_last().len() implies #[trigger] reads_within(
                vars,
                es.drop_last()[j],
            ) by {
                assert(es.drop_last()[j] == es[j]);
            }
        }
        lemma_reads_gather(vars, es.drop_last());
        assert(reads_within(vars, es[es.len() - 1]));
        lemma_reads_shift(vars, es.last(), nodes.len());
        lemma_reads_concat(vars, nodes, shift(es.last(), nodes.len()));
    } else {
        assert(gather(es).0 =~= Seq::<NodeView>::empty());
    }
}

pub proof fn lemma_reads_push(vars: Seq<VarView>, e: Seq<NodeView>, k: KindView)
    requires
        reads_within(vars, e),
        target(k) is None,
    ensures
        reads_within(vars, e.push(fresh(k))),
{
    lemma_reads_single(vars, k);
    assert(e.push(fresh(k)) =~= e + seq![fresh(k)]);
    lemma_reads_concat(vars, e, seq![fresh(k)]);
}

/// An argument that cannot be lowered decides the result of the whole list.
pub proof fn lemma_args_prefix_err(
    c: ContextView,
    args: Seq<Box<Node>>,
    k: int,
    rng: u64,
    weighted: bool,
)
    requires
        0 <= k <= args.len(),
        lower_args(c, args.subrange(0, k), rng, weighted) is Err,
    ensures
        lower_args(c, args, rng, weighted) == lower_args(c, args.subrange(0, k), rng, weighted),
    decreases args.len() - k,
{
    if k == args.len() {
        assert(args.subrange(0, k) =~= args);
    } else {
        assert(args.drop_last().subrange(0, k) =~= args.subrange(0, k));
        lemma_args_prefix_err(c, args.drop_last(), k, rng, weighted);
    }
}

/// The total size of `es`, if it is below `usize::MAX`.
fn total_size(es: &Vec<Expr>) -> (r: Option<usize>)
    ensures
        r matches Some(n) ==> n == total_len(expr_views(es@)) && n < usize::MAX,
        r is None ==> total_len(expr_views(es@)) >= usize::MAX,
{
    let ghost all = expr_views(es@);
    let mut total: usize = 0;
    let mut k: usize = 0;
    while k < es.len()
        invariant
            k <= es@.len(),
            all == expr_views(es@),
            total == total_len(all.subrange(0, k as int)),
            total < usize::MAX,
        decreases es@.len() - k,
    {
        let ghost sub = all.subrange(0, k + 1);
        assert(sub.drop_last() =~= all.subrange(0, k as int));
        assert(sub.last() == es@[k as int]@);
        let n = es[k].nodes.len();
        if n >= usize::MAX - total {
            proof {
                crate::expr::lemma_total_len_prefix(all, k + 1);
            }
            return None;
        }
        total = total + n;
        k = k + 1;
    }
    assert(all.subrange(0, k as int) =~= all);
    Some(total)
}

impl Context {
    fn const_value(&self, n: &Node) -> (r: Result<u32, BindError>)
        requires
            self@.wf(),
        ensures
            r == const_of(self@, *n),
    {
        match n {
            Node::Number(v) => Ok(*v),
            Node::EnumItemInst(en, item) => self.enum_item_value(en, item),
            Node::EnumInst(en) => self.enum_first_value(en),
            _ => Err(BindError::Malformed),
        }
    }

    fn lower_bounds(&self, args: &Vec<Box<Node>>, rng: u64, pattern: bool) -> (r: Result<
        (Expr, u64),
        BindError,
    >)
        requires
            self@.wf(),
        ensures
            lowered_as(r, bounds(self@, args@, rng, pattern), self@.vars),
    {
        if args.len() != 2 {
            return Err(BindError::Malformed);
        }
        let lo = match self.const_value(&args[0]) {
            Ok(v) => v,
            Err(x) => {
                return Err(x);
            },
        };
        let hi = match self.const_value(&args[1]) {
            Ok(v) => v,
            Err(x) => {
                return Err(x);
            },
        };
        let e = if pattern {
            Expr::pattern(lo, hi)
        } else {
            Expr::range(lo, hi)
        };
        proof {
            lemma_reads_single(self@.vars, e@[0].kind);
            assert(e@ =~= seq![fresh(e@[0].kind)]);
        }
        Ok((e, rng))
    }

    /// Lowers the arguments of a sampling function, left to right.
    fn lower_args_exec(&self, args: &Vec<Box<Node>>, rng: u64, weighted: bool) -> (r: Result<
        (Vec<Expr>, Vec<u32>, u64),
        BindError,
    >)
        requires
            self@.wf(),
        ensures
            match r {
                Ok((es, ws, s)) => {
                    &&& lower_args(self@, args@, rng, weighted) == Ok::<
                        (Seq<Seq<NodeView>>, Seq<u32>, u64),
                        BindError,
                    >((expr_views(es@), ws@, s))
                    &&& all_well_formed(expr_views(es@))
                    &&& all_read_within(self@.vars, expr_views(es@))
                    &&& ws@.len() == es@.len()
                    &&& weighted ==> forall|j: int| 0 <= j < ws@.len() ==> ws@[j] > 0
                },
                Err(x) => lower_args(self@, args@, rng, weighted) == Err::<
                    (Seq<Seq<NodeView>>, Seq<u32>, u64),
                    BindError,
                >(x),
            },
        decreases args,
    {
        let mut es: Vec<Expr> = Vec::new();
        let mut ws: Vec<u32> = Vec::new();
        let mut state = rng;
        let mut k: usize = 0;
        assert(args@.subrange(0, 0) =~= Seq::<Box<Node>>::empty());
        assert(expr_views(es@) =~= Seq::<Seq<NodeView>>::empty());
        assert(ws@ =~= Seq::<u32>::empty());
        while k < args.len()
            invariant
                self@.wf(),
                k <= args@.len(),
                lower_args(self@, args@.subrange(0, k as int), rng, weighted) == Ok::<
                    (Seq<Seq<NodeView>>, Seq<u32>, u64),
                    BindError,
                >((expr_views(es@), ws@, state)),
                all_well_formed(expr_views(es@)),
                all_read_within(self@.vars, expr_views(es@)),
                ws@.len() == es@.len(),
                weighted ==> forall|j: int| 0 <= j < ws@.len() ==> ws@[j] > 0,
            decreases args@.len() - k,
        {
            let ghost sub = args@.subrange(0, k + 1);
            assert(sub.drop_last() =~= args@.subrange(0, k as int));
            assert(sub.last() == args@[k as int]);
            let (child, w): (&Node, u32) = if weighted {
                match &*args[k] {
                    Node::WeightedPair(w, child) => {
                        if *w == 0 {
                            proof {
                                lemma_args_prefix_err(self@, args@, k + 1, rng, weighted);
                            }
                            return Err(BindError::Malformed);
                        }
                        (&**child, *w)
                    },
                    _ => {
                        proof {
                            lemma_args_prefix_err(self@, args@, k + 1, rng, weighted);
                        }
                        return Err(BindError::Malformed);
                    },
                }
            } else {
                (&*args[k], 1)
            };
            match self.lower_node(child, state) {
                Ok((e, next)) => {
                    let ghost before = expr_views(es@);
                    let ghost ev = e@;
                    es.push(e);
                    ws.push(w);
                    state = next;
                    proof {
                        assert(expr_views(es@) =~= before.push(ev));
                    }
                },
                Err(x) => {
                    proof {
                        lemma_args_prefix_err(self@, args@, k + 1, rng, weighted);
                    }
                    return Err(x);
                },
            }
            k = k + 1;
        }
        assert(args@.subrange(0, k as int) =~= args@);
        Ok((es, ws, state))
    }

    /// Lowers an expression node, drawing from `rng`.
    fn lower_node(&self, n: &Node, rng: u64) -> (r: Result<(Expr, u64), BindError>)
        requires
            self@.wf(),
        ensures
            lowered_as(r, lower(self@, *n, rng), self@.vars),
        decreases n,
    {
        let ghost vars = self@.vars;
        match n {
            Node::Number(v) => {
                let e = Expr::constant(*v);
                proof {
                    lemma_reads_single(vars, KindView::Constant(*v));
                }
                Ok((e, rng))
            },
            Node::EnumItemInst(en, item) => match self.enum_item_value(en, item) {
                Ok(v) => {
                    let e = Expr::constant(v);
                    proof {
                        lemma_reads_single(vars, KindView::Constant(v));
                    }
                    Ok((e, rng))
                },
                Err(x) => Err(x),
            },
            Node::EnumInst(en) => match self.enum_first_value(en) {
                Ok(v) => {
                    let e = Expr::constant(v);
                    proof {
                        lemma_reads_single(vars, KindView::Constant(v));
                    }
                    Ok((e, rng))
                },
                Err(x) => Err(x),
            },
            Node::Identifier(name) => match self.lookup(name.as_str()) {
                Some(h) => {
                    let e = Expr::next_of(h - 1);
                    proof {
                        lemma_reads_single(vars, KindView::Next((h - 1) as usize));
                    }
                    Ok((e, rng))
                },
                None => Err(BindError::UnresolvedIdentifier(name.clone())),
            },
            Node::VariableMethodCall(name, m) => match self.lookup(name.as_str()) {
                Some(h) => match m {
                    Method::Next => {
                        let e = Expr::next_of(h - 1);
                        proof {
                            lemma_reads_single(vars, KindView::Next((h - 1) as usize));
                        }
                        Ok((e, rng))
                    },
                    Method::Prev => {
                        let e = Expr::prev_of(h - 1);
                        proof {
                            lemma_reads_single(vars, KindView::Prev((h - 1) as usize));
                        }
                        Ok((e, rng))
                    },
                    Method::Copy => Ok((self.definition_of(h), rng)),
                },
                None => Err(BindError::UnresolvedIdentifier(name.clone())),
            },
            Node::UnaryOperation(op, a) => match self.lower_node(&**a, rng) {
                Ok((e, r)) => {
                    if e.nodes.len() < usize::MAX {
                        let ghost ev = e@;
                        let u = Expr::unary(*op, e);
                        proof {
                            lemma_reads_push(
                                vars,
                                ev,
                                KindView::Unary(*op, (ev.len() - 1) as usize),
                            );
                        }
                        Ok((u, r))
                    } else {
                        Err(BindError::TooLarge)
                    }
                },
                Err(x) => Err(x),
            },
            Node::BinaryOperation(a, op, b) => match self.lower_node(&**a, rng) {
                Ok((l, r1)) => match self.lower_node(&**b, r1) {
                    Ok((r, r2)) => {
                        if l.nodes.len() < usize::MAX - r.nodes.len() {
                            let ghost lv = l@;
                            let ghost rv = r@;
                            let e = Expr::new(l, *op, r);
                            proof {
                                lemma_reads_shift(vars, rv, lv.len());
                                lemma_reads_concat(vars, lv, shift(rv, lv.len()));
                                lemma_reads_push(
                                    vars,
                                    lv + shift(rv, lv.len()),
                                    KindView::Binary(
                                        (lv.len() - 1) as usize,
                                        *op,
                                        (lv.len() + rv.len() - 1) as usize,
                                    ),
                                );
                            }
                            Ok((e, r2))
                        } else {
                            Err(BindError::TooLarge)
                        }
                    },
                    Err(x) => Err(x),
                },
                Err(x) => Err(x),
            },
            Node::Function(f, args) => match f {
                Function::Range => self.lower_bounds(args, rng, false),
                Function::Pattern => self.lower_bounds(args, rng, true),
                _ => {
                    let weighted = match f {
                        Function::WeightedSample => true,
                        _ => false,
                    };
                    match self.lower_args_exec(args, rng, weighted) {
                        Ok((es, ws, r)) => {
                            let ghost evs = expr_views(es@);
                            if es.len() == 0 {
                                return Err(BindError::Malformed);
                            }
                            match total_size(&es) {
                                None => {
                                    return Err(BindError::TooLarge);
                                },
                                Some(_) => {},
                            }
                            if es.len() > u32::MAX as usize {
                                return Err(BindError::TooLarge);
                            }
                            proof {
                                lemma_reads_gather(vars, evs);
                            }
                            match f {
                                Function::Sample => {
                                    let e = Expr::sample(es);
                                    proof {
                                        lemma_reads_push(
                                            vars,
                                            gather(evs).0,
                                            KindView::Sample(gather(evs).1, None),
                                        );
                                    }
                                    Ok((e, r))
                                },
                                Function::Unique => {
                                    let mut state = r;
                                    let e = Expr::unique(es, &mut state);
                                    proof {
                                        lemma_reads_push(
                                            vars,
                                            gather(evs).0,
                                            KindView::Unique(
                                                gather(evs).1,
                                                crate::random::shuffle_value(identity(evs.len()), r),
                                                0,
                                            ),
                                        );
                                    }
                                    Ok((e, state))
                                },
                                _ => {
                                    assert(ws@[0] > 0);
                                    let ghost wv = ws@;
                                    let e = Expr::weighted(es, ws);
                                    proof {
                                        lemma_reads_push(
                                            vars,
                                            gather(evs).0,
                                            KindView::Weighted(gather(evs).1, wv, None),
                                        );
                                    }
                                    Ok((e, r))
                                },
                            }
                        },
                        Err(x) => Err(x),
                    }
                },
            },
            _ => Err(BindError::Malformed),
        }
    }
}


/// The items of an enumeration declaration: each takes its explicit value, or
/// one more than the item before it (0 for the first, wrapping after
/// `u32::MAX`).
pub open spec fn enum_items(items: Seq<Box<Node>>, en: String) -> Result<
    Seq<(Seq<char>, u32)>,
    BindError,
>
    decreases items.len(),
{
    if items.len() == 0 {
        Ok(Seq::empty())
    } else {
        match enum_items(items.drop_last(), en) {
            Ok(list) => match *items.last() {
                Node::EnumItem(name, value) => {
                    let v: Result<u32, BindError> = match value {
                        Some(b) => match *b {
                            Node::Number(v) => Ok(v),
                            _ => Err(BindError::Malformed),
                        },
                        None => if list.len() == 0 {
                            Ok(0u32)
                        } else if list.last().1 == u32::MAX {
                            Ok(0u32)
                        } else {
                            Ok((list.last().1 + 1) as u32)
                        },
                    };
                    match v {
                        Ok(v) => if item_names(list).contains(name@) {
                            Err(BindError::DuplicateEnumItem(en, name))
                        } else {
                            Ok(list.push((name@, v)))
                        },
                        Err(x) => Err(x),
                    }
                },
                _ => Err(BindError::Malformed),
            },
            Err(x) => Err(x),
        }
    }
}

/// What binding one statement makes of session `c`, or why it fails (and
/// then `c` stays as it was).
pub open spec fn bind_statement(c: ContextView, n: Node) -> Result<ContextView, BindError> {
    match n {
        Node::Assignment(target, value) => match *target {
            Node::Identifier(name) => match lower(c, *value, fork_value(c.seeder)) {
                Ok((e, rng)) => if c.refuses(name@, e) {
                    Err(BindError::CyclicReference(name))
                } else {
                    Ok(c.with_definition(name@, e, rng, fork_state(c.seeder)))
                },
                Err(x) => Err(x),
            },
            _ => Err(BindError::Malformed),
        },
        Node::Enum(name, items) => match enum_items(items@, name) {
            Ok(list) => Ok(
                ContextView { enums: with_enum(c.enums, EnumView { name: name@, items: list }), ..c },
            ),
            Err(x) => Err(x),
        },
        _ => Err(BindError::Malformed),
    }
}

/// The first failed `require` of an entry, depth first: its path and cause.
pub open spec fn first_failure(item: Item) -> Option<(String, String)>
    decreases item,
{
    match item {
        Item::Single(_) => None,
        Item::RequireError(path, cause) => Some((path, cause)),
        Item::Multiple(v) => first_failure_of(v@),
    }
}

pub open spec fn first_failure_of(items: Seq<Item>) -> Option<(String, String)>
    decreases items,
{
    if items.len() == 0 {
        None
    } else {
        match first_failure_of(items.drop_last()) {
            Some(f) => Some(f),
            None => first_failure(items.last()),
        }
    }
}

/// The statements of an entry, in order, with every `require` expanded in
/// place.
pub open spec fn statements(item: Item) -> Seq<Node>
    decreases item,
{
    match item {
        Item::Single(n) => seq![*n],
        Item::RequireError(_, _) => Seq::empty(),
        Item::Multiple(v) => statements_of(v@),
    }
}

pub open spec fn statements_of(items: Seq<Item>) -> Seq<Node>
    decreases items,
{
    if items.len() == 0 {
        Seq::empty()
    } else {
        statements_of(items.drop_last()) + statements(items.last())
    }
}

/// Binds statements in order up to the first that fails: the session reached
/// and the outcome.
pub open spec fn bind_all(c: ContextView, stmts: Seq<Node>) -> (ContextView, Result<(), BindError>)
    decreases stmts.len(),
{
    if stmts.len() == 0 {
        (c, Ok(()))
    } else {
        let (c1, r1) = bind_all(c, stmts.drop_last());
        if r1 is Err {
            (c1, r1)
        } else {
            match bind_statement(c1, stmts.last()) {
                Ok(c2) => (c2, Ok(())),
                Err(x) => (c1, Err(x)),
            }
        }
    }
}

/// What binding an entry makes of session `c`, and the outcome. An entry with
/// a failed `require` binds nothing.
pub open spec fn bound(c: ContextView, item: Item) -> (ContextView, Result<(), BindError>) {
    match first_failure(item) {
        Some((path, cause)) => (c, Err(BindError::RequireIO(path, cause))),
        None => bind_all(c, statements(item)),
    }
}

/// Binding `a + b` binds `a`, then `b` if `a` bound in full.
pub proof fn lemma_bind_all_concat(c: ContextView, a: Seq<Node>, b: Seq<Node>)
    ensures
        bind_all(c, a + b) == ({
            let (c1, r1) = bind_all(c, a);
            if r1 is Err {
                (c1, r1)
            } else {
                bind_all(c1, b)
            }
        }),
    decreases b.len(),
{
    if b.len() == 0 {
        assert(a + b =~= a);
    } else {
        assert((a + b).drop_last() =~= a + b.drop_last());
        assert((a + b).last() == b.last());
        lemma_bind_all_concat(c, a, b.drop_last());
    }
}

/// Whether `list` has an item called `name`.
fn contains_name(list: &Vec<EnumItem>, name: &String) -> (r: bool)
    ensures
        r == item_names(list@.map_values(|i: EnumItem| (i.name@, i.value))).contains(name@),
{
    let ghost lv = list@.map_values(|i: EnumItem| (i.name@, i.value));
    let mut j: usize = 0;
    while j < list.len()
        invariant
            j <= list@.len(),
            lv == list@.map_values(|i: EnumItem| (i.name@, i.value)),
            forall|i: int| 0 <= i < j ==> item_names(lv)[i] != name@,
        decreases list@.len() - j,
    {
        assert(item_names(lv)[j as int] == list@[j as int].name@);
        if list[j].name.eq(name) {
            assert(item_names(lv)[j as int] == name@);
            return true;
        }
        j = j + 1;
    }
    assert(!item_names(lv).contains(name@)) by {
        if item_names(lv).contains(name@) {
            let i = choose|i: int| 0 <= i < item_names(lv).len() && item_names(lv)[i] == name@;
            assert(item_names(lv)[i] != name@);
        }
    }
    false
}

/// Builds the items of an enumeration declaration.
fn enum_list(items: &Vec<Box<Node>>, en: &String) -> (r: Result<Vec<EnumItem>, BindError>)
    ensures
        match r {
            Ok(list) => enum_items(items@, *en) == Ok::<Seq<(Seq<char>, u32)>, BindError>(
                list@.map_values(|i: EnumItem| (i.name@, i.value)),
            ),
            Err(x) => enum_items(items@, *en) == Err::<Seq<(Seq<char>, u32)>, BindError>(x),
        },
    decreases items@.len(),
{
    let mut list: Vec<EnumItem> = Vec::new();
    let mut k: usize = 0;
    assert(items@.subrange(0, 0) =~= Seq::<Box<Node>>::empty());
    assert(list@.map_values(|i: EnumItem| (i.name@, i.value)) =~= Seq::<(Seq<char>, u32)>::empty());
    while k < items.len()
        invariant
            k <= items@.len(),
            enum_items(items@.subrange(0, k as int), *en) == Ok::<
                Seq<(Seq<char>, u32)>,
                BindError,
            >(list@.map_values(|i: EnumItem| (i.name@, i.value))),
        decreases items@.len() - k,
    {
        let ghost sub = items@.subrange(0, k + 1);
        let ghost lv = list@.map_values(|i: EnumItem| (i.name@, i.value));
        assert(sub.drop_last() =~= items@.subrange(0, k as int));
        assert(sub.last() == items@[k as int]);
        let (name, value) = match &*items[k] {
            Node::EnumItem(name, value) => (name, value),
            _ => {
                proof {
                    lemma_enum_prefix_err(items@, k + 1, *en);
                }
                return Err(BindError::Malformed);
            },
        };
        let v: u32 = match value {
            Some(b) => match &**b {
                Node::Number(v) => *v,
                _ => {
                    proof {
                        lemma_enum_prefix_err(items@, k + 1, *en);
                    }
                    return Err(BindError::Malformed);
                },
            },
            None => {
                if list.len() == 0 {
                    0
                } else {
                    let last = list[list.len() - 1].value;
                    assert(lv.last().1 == last);
                    if last == u32::MAX {
                        0
                    } else {
                        last + 1
                    }
                }
            },
        };
        if contains_name(&list, name) {
            proof {
                lemma_enum_prefix_err(items@, k + 1, *en);
            }
            return Err(BindError::DuplicateEnumItem(en.clone(), name.clone()));
        }
        assert(!item_names(lv).contains(name@));
        list.push(EnumItem { name: name.clone(), value: v });
        assert(list@.map_values(|i: EnumItem| (i.name@, i.value)) =~= lv.push((name@, v)));
        k = k + 1;
    }
    assert(items@.subrange(0, k as int) =~= items@);
    Ok(list)
}

/// An item that fails decides the result of the whole declaration.
pub proof fn lemma_enum_prefix_err(items: Seq<Box<Node>>, k: int, en: String)
    requires
        0 <= k <= items.len(),
        enum_items(items.subrange(0, k), en) is Err,
    ensures
        enum_items(items, en) == enum_items(items.subrange(0, k), en),
    decreases items.len() - k,
{
    if k == items.len() {
        assert(items.subrange(0, k) =~= items);
    } else {
        assert(items.drop_last().subrange(0, k) =~= items.subrange(0, k));
        lemma_enum_prefix_err(items.drop_last(), k, en);
    }
}

/// The first failed `require` of an entry.
fn failure_of(item: &Item) -> (r: Option<(String, String)>)
    ensures
        r == first_failure(*item),
    decreases item,
{
    match item {
        Item::Single(_) => None,
        Item::RequireError(path, cause) => Some((path.clone(), cause.clone())),
        Item::Multiple(v) => {
            let mut k: usize = 0;
            assert(v@.subrange(0, 0) =~= Seq::<Item>::empty());
            while k < v.len()
                invariant
                    k <= v@.len(),
                    *item == Item::Multiple(*v),
                    first_failure_of(v@.subrange(0, k as int)) is None,
                decreases v@.len() - k,
            {
                let ghost sub = v@.subrange(0, k + 1);
                assert(sub.drop_last() =~= v@.subrange(0, k as int));
                assert(sub.last() == v@[k as int]);
                proof {
                    assert(decreases_to!(*item => *v));
                    assert(decreases_to!(*v => v[k as int]));
                    assert(decreases_to!(*item => v[k as int]));
                }
                let f = failure_of(&v[k]);
                if f.is_some() {
                    proof {
                        lemma_failure_prefix(v@, k + 1);
                    }
                    return f;
                }
                k = k + 1;
            }
            assert(v@.subrange(0, k as int) =~= v@);
            None
        },
    }
}

/// A failure in a prefix is the first failure of the whole list.
pub proof fn lemma_failure_prefix(items: Seq<Item>, k: int)
    requires
        0 <= k <= items.len(),
        first_failure_of(items.subrange(0, k)) is Some,
    ensures
        first_failure_of(items) == first_failure_of(items.subrange(0, k)),
    decreases items.len() - k,
{
    if k == items.len() {
        assert(items.subrange(0, k) =~= items);
    } else {
        assert(items.drop_last().subrange(0, k) =~= items.subrange(0, k));
        lemma_failure_prefix(items.drop_last(), k);
    }
}

impl Context {
    /// Binds one statement: an assignment or an enumeration declaration.
    fn bind_node(&mut self, n: &Node) -> (r: Result<(), BindError>)
        requires
            old(self)@.wf(),
        ensures
            final(self)@.wf(),
            match bind_statement(old(self)@, *n) {
                Ok(c) => r == Ok::<(), BindError>(()) && final(self)@ == c,
                Err(x) => r == Err::<(), BindError>(x) && final(self)@ == old(self)@,
            },
    {
        match n {
            Node::Assignment(target, value) => match &**target {
                Node::Identifier(name) => {
                    let (seed, seeder) = self.next_seed();
                    match self.lower_node(&**value, seed) {
                        Ok((e, rng)) => match self.define(name.clone(), e, rng, seeder) {
                            Ok(_) => Ok(()),
                            Err(x) => Err(x),
                        },
                        Err(x) => Err(x),
                    }
                },
                _ => Err(BindError::Malformed),
            },
            Node::Enum(name, items) => match enum_list(items, name) {
                Ok(list) => {
                    let ghost lv = list@.map_values(|i: EnumItem| (i.name@, i.value));
                    let def = EnumDef { name: name.clone(), items: list };
                    assert(def@.items =~= lv);
                    proof {
                        lemma_enum_items_distinct(items@, *name);
                    }
                    self.declare_enum(def);
                    Ok(())
                },
                Err(x) => Err(x),
            },
            _ => Err(BindError::Malformed),
        }
    }

    /// Binds one top-level entry.
    ///
    /// An entry with a failed `require` anywhere in it is refused with
    /// `RequireIO` before anything of it is bound. Otherwise its statements
    /// are bound in order; at the first that fails binding stops with that
    /// error, and the statements before it stay bound.
    pub fn bind(&mut self, entry: &Item) -> (r: Result<(), BindError>)
        requires
            old(self)@.wf(),
        ensures
            final(self)@.wf(),
            (final(self)@, r) == bound(old(self)@, *entry),
    {
        match failure_of(entry) {
            Some((path, cause)) => Err(BindError::RequireIO(path, cause)),
            None => bind_item(self, entry),
        }
    }
}

/// Binds the statements of an entry that holds no failed `require`, up to
/// the first that fails.
fn bind_item(ctx: &mut Context, item: &Item) -> (r: Result<(), BindError>)
    requires
        old(ctx)@.wf(),
    ensures
        final(ctx)@.wf(),
        (final(ctx)@, r) == bind_all(old(ctx)@, statements(*item)),
    decreases item,
{
    match item {
        Item::Single(n) => {
            let ghost c = ctx@;
            let r = ctx.bind_node(&**n);
            proof {
                let st = statements(*item);
                assert(st == seq![**n]);
                assert(st.drop_last() =~= Seq::<Node>::empty());
                assert(st.last() == **n);
                assert(bind_all(c, st.drop_last()) == (c, Ok::<(), BindError>(())));
                match bind_statement(c, **n) {
                    Ok(c2) => {
                        assert(bind_all(c, st) == (c2, Ok::<(), BindError>(())));
                    },
                    Err(x) => {
                        assert(bind_all(c, st) == (c, Err::<(), BindError>(x)));
                    },
                }
            }
            r
        },
        Item::RequireError(_, _) => Ok(()),
        Item::Multiple(v) => {
            let ghost c = ctx@;
            let mut k: usize = 0;
            assert(v@.subrange(0, 0) =~= Seq::<Item>::empty());
            assert(decreases_to!(*item => *v));
            assert forall|i: int| 0 <= i < v@.len() implies decreases_to!(*item => #[trigger] v[i]) by {
                assert(decreases_to!(*v => v[i]));
            }
            while k < v.len()
                invariant
                    k <= v@.len(),
                    *item == Item::Multiple(*v),
                    forall|i: int| 0 <= i < v@.len() ==> decreases_to!(*item => #[trigger] v[i]),
                    c == old(ctx)@,
                    ctx@.wf(),
                    (ctx@, Ok::<(), BindError>(())) == bind_all(
                        c,
                        statements_of(v@.subrange(0, k as int)),
                    ),
                decreases v@.len() - k,
            {
                let ghost sub = v@.subrange(0, k + 1);
                assert(sub.drop_last() =~= v@.subrange(0, k as int));
                assert(sub.last() == v@[k as int]);
                proof {
                    lemma_bind_all_concat(
                        c,
                        statements_of(v@.subrange(0, k as int)),
                        statements(v@[k as int]),
                    );
                }
                assert(decreases_to!(*item => v[k as int]));
                let ghost ck = ctx@;
                let r = bind_item(ctx, &v[k]);
                proof {
                    assert(statements_of(sub) == statements_of(v@.subrange(0, k as int))
                        + statements(v@[k as int]));
                    assert(bind_all(c, statements_of(sub)) == bind_all(
                        ck,
                        statements(v@[k as int]),
                    ));
                }
                if r.is_err() {
                    proof {
                        lemma_statements_prefix(c, v@, k + 1);
                    }
                    return r;
                }
                k = k + 1;
            }
            assert(v@.subrange(0, k as int) =~= v@);
            Ok(())
        },
    }
}

/// Once a prefix of the items fails, binding the rest changes nothing.
pub proof fn lemma_statements_prefix(c: ContextView, items: Seq<Item>, k: int)
    requires
        0 <= k <= items.len(),
        bind_all(c, statements_of(items.subrange(0, k))).1 is Err,
    ensures
        bind_all(c, statements_of(items)) == bind_all(c, statements_of(items.subrange(0, k))),
    decreases items.len() - k,
{
    if k == items.len() {
        assert(items.subrange(0, k) =~= items);
    } else {
        assert(items.drop_last().subrange(0, k) =~= items.subrange(0, k));
        lemma_statements_prefix(c, items.drop_last(), k);
        lemma_bind_all_concat(c, statements_of(items.drop_last()), statements(items.last()));
    }
}

/// The items that a declaration lists have distinct names.
pub proof fn lemma_enum_items_distinct(items: Seq<Box<Node>>, en: String)
    requires
        enum_items(items, en) is Ok,
    ensures
        crate::context::distinct(item_names(enum_items(items, en)->Ok_0)),
    decreases items.len(),
{
    if items.len() > 0 {
        lemma_enum_items_distinct(items.drop_last(), en);
        let list = enum_items(items.drop_last(), en)->Ok_0;
        let full = enum_items(items, en)->Ok_0;
        assert(item_names(full) =~= item_names(list).push(full.last().0));
    } else {
        assert(item_names(enum_items(items, en)->Ok_0) =~= Seq::<Seq<char>>::empty());
    }
}

} // verus!
