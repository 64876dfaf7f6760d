//! Expressions: the runtime nodes of a sequence.
//!
//! An expression is a flat list of nodes in post-order: every node's children
//! stand before it and the root is the last node. A node records the value it
//! produced last and whether that value completed a cycle.

use crate::ast::BinaryOpcode;
use crate::ast::UnaryOpcode;
use crate::random::shuffle;
use crate::random::shuffle_value;
use vstd::prelude::*;

verus! {

/// What a node is, with its own state, as a mathematical value.
pub enum KindView {
    Constant(u32),
    Range(u32, u32),
    Pattern(u32, u32, u32),
    Unary(UnaryOpcode, usize),
    Binary(usize, BinaryOpcode, usize),
    Sample(Seq<usize>, Option<usize>),
    Unique(Seq<usize>, Seq<usize>, usize),
    Weighted(Seq<usize>, Seq<u32>, Option<usize>),
    Next(usize),
    Prev(usize),
}

/// A node as a mathematical value.
pub struct NodeView {
    pub prev: u32,
    pub done: bool,
    pub kind: KindView,
}

/// What a node is, with its own state.
///
/// `Range` and `Pattern` hold their bounds low first; `Pattern` also holds the
/// value it returns next. `Sample` and `Weighted` hold their children and the
/// child they are delegating to, if any. `Unique` holds its children, the
/// order of the current round and the position in it. `Next` and `Prev` hold
/// the slot of the sequence they read.
pub enum Kind {
    Constant(u32),
    Range(u32, u32),
    Pattern(u32, u32, u32),
    Unary(UnaryOpcode, usize),
    Binary(usize, BinaryOpcode, usize),
    Sample(Vec<usize>, Option<usize>),
    Unique(Vec<usize>, Vec<usize>, usize),
    Weighted(Vec<usize>, Vec<u32>, Option<usize>),
    Next(usize),
    Prev(usize),
}

/// A node of an expression.
pub struct Node {
    pub prev: u32,
    pub done: bool,
    pub kind: Kind,
}

/// An expression: nodes in post-order, the root last.
pub struct Expr {
    pub nodes: Vec<Node>,
}

impl View for Kind {
    type V = KindView;

    open spec fn view(&self) -> KindView {
        match self {
            Kind::Constant(v) => KindView::Constant(*v),
            Kind::Range(lo, hi) => KindView::Range(*lo, *hi),
            Kind::Pattern(lo, hi, cur) => KindView::Pattern(*lo, *hi, *cur),
            Kind::Unary(op, c) => KindView::Unary(*op, *c),
            Kind::Binary(l, op, r) => KindView::Binary(*l, *op, *r),
            Kind::Sample(cs, cur) => KindView::Sample(cs@, *cur),
            Kind::Unique(cs, order, cursor) => KindView::Unique(cs@, order@, *cursor),
            Kind::Weighted(cs, ws, cur) => KindView::Weighted(cs@, ws@, *cur),
            Kind::Next(t) => KindView::Next(*t),
            Kind::Prev(t) => KindView::Prev(*t),
        }
    }
}

impl View for Node {
    type V = NodeView;

    open spec fn view(&self) -> NodeView {
        NodeView { prev: self.prev, done: self.done, kind: self.kind@ }
    }
}

/// The views of a list of nodes.
pub open spec fn views(s: Seq<Node>) -> Seq<NodeView> {
    s.map_values(|n: Node| n@)
}

impl View for Expr {
    type V = Seq<NodeView>;

    open spec fn view(&self) -> Seq<NodeView> {
        views(self.nodes@)
    }
}

/// A node that has not produced a value yet.
pub open spec fn fresh(kind: KindView) -> NodeView {
    NodeView { prev: 0, done: false, kind }
}

/// The children of a node, in order.
pub open spec fn links(k: KindView) -> Seq<usize> {
    match k {
        KindView::Unary(_, c) => seq![c],
        KindView::Binary(l, _, r) => seq![l, r],
        KindView::Sample(cs, _) => cs,
        KindView::Unique(cs, _, _) => cs,
        KindView::Weighted(cs, _, _) => cs,
        _ => Seq::empty(),
    }
}

/// The slot of the sequence that a node reads, if it reads one.
pub open spec fn target(k: KindView) -> Option<usize> {
    match k {
        KindView::Next(t) => Some(t),
        KindView::Prev(t) => Some(t),
        _ => None,
    }
}

/// Every child of the node at `i` stands before it.
pub open spec fn links_below(k: KindView, i: int) -> bool {
    forall|j: int| 0 <= j < links(k).len() ==> links(k)[j] < i
}

/// Weights that a weighted draw accepts: one for each child, at least one of
/// them positive, and fewer than `2^32` of them.
pub open spec fn weights_ok(cs: Seq<usize>, ws: Seq<u32>) -> bool {
    &&& ws.len() == cs.len()
    &&& 0 < ws.len() <= u32::MAX
    &&& exists|j: int| 0 <= j < ws.len() && ws[j] > 0
}

/// `order` is a permutation of the positions `0..n`.
pub open spec fn is_permutation(order: Seq<usize>, n: nat) -> bool {
    order.to_multiset() == identity(n).to_multiset()
}

/// A `Unique` node's order is a permutation of its children and its position
/// lies in that order.
pub open spec fn round_ok(k: KindView) -> bool {
    match k {
        KindView::Unique(cs, order, cursor) => is_permutation(order, cs.len()) && (cs.len() > 0
            ==> cursor < cs.len()),
        _ => true,
    }
}

/// The node at `i` is in post-order, a weighted node has usable weights and
/// a `Unique` node a valid round.
pub open spec fn node_ok(k: KindView, i: int) -> bool {
    &&& links_below(k, i)
    &&& (k matches KindView::Weighted(cs, ws, _) ==> weights_ok(cs, ws))
    &&& round_ok(k)
}

/// A well-formed expression: it has a root, is in post-order and its weighted
/// nodes have usable weights.
pub open spec fn well_formed(e: Seq<NodeView>) -> bool {
    &&& e.len() > 0
    &&& forall|i: int| 0 <= i < e.len() ==> #[trigger] node_ok(e[i].kind, i)
}

pub open spec fn shift_links(cs: Seq<usize>, d: nat) -> Seq<usize> {
    cs.map_values(|c: usize| (c + d) as usize)
}

/// A node's kind with its children moved `d` places on.
pub open spec fn shift_kind(k: KindView, d: nat) -> KindView {
    match k {
        KindView::Unary(op, c) => KindView::Unary(op, (c + d) as usize),
        KindView::Binary(l, op, r) => KindView::Binary((l + d) as usize, op, (r + d) as usize),
        KindView::Sample(cs, cur) => KindView::Sample(shift_links(cs, d), cur),
        KindView::Unique(cs, order, cursor) => KindView::Unique(shift_links(cs, d), order, cursor),
        KindView::Weighted(cs, ws, cur) => KindView::Weighted(shift_links(cs, d), ws, cur),
        _ => k,
    }
}

pub open spec fn shift_node(n: NodeView, d: nat) -> NodeView {
    NodeView { prev: n.prev, done: n.done, kind: shift_kind(n.kind, d) }
}

/// An expression moved `d` places on, to stand after `d` other nodes.
pub open spec fn shift(e: Seq<NodeView>, d: nat) -> Seq<NodeView> {
    e.map_values(|n: NodeView| shift_node(n, d))
}

/// The nodes of several expressions placed one after the other, and the
/// position of each one's root.
pub open spec fn gather(es: Seq<Seq<NodeView>>) -> (Seq<NodeView>, Seq<usize>)
    decreases es.len(),
{
    if es.len() == 0 {
        (Seq::empty(), Seq::empty())
    } else {
        let (nodes, roots) = gather(es.drop_last());
        (
            nodes + shift(es.last(), nodes.len()),
            roots.push((nodes.len() + es.last().len() - 1) as usize),
        )
    }
}

/// The positions `0..n` in order.
pub open spec fn identity(n: nat) -> Seq<usize> {
    Seq::new(n, |i: int| i as usize)
}

pub open spec fn spec_constant(v: u32) -> Seq<NodeView> {
    seq![fresh(KindView::Constant(v))]
}

pub open spec fn spec_range(lo: u32, hi: u32) -> Seq<NodeView> {
    if lo <= hi {
        seq![fresh(KindView::Range(lo, hi))]
    } else {
        seq![fresh(KindView::Range(hi, lo))]
    }
}

pub open spec fn spec_pattern(lo: u32, hi: u32) -> Seq<NodeView> {
    if lo <= hi {
        seq![fresh(KindView::Pattern(lo, hi, lo))]
    } else {
        seq![fresh(KindView::Pattern(hi, lo, hi))]
    }
}

pub open spec fn spec_unary(op: UnaryOpcode, e: Seq<NodeView>) -> Seq<NodeView> {
    e.push(fresh(KindView::Unary(op, (e.len() - 1) as usize)))
}

pub open spec fn spec_binary(l: Seq<NodeView>, op: BinaryOpcode, r: Seq<NodeView>) -> Seq<
    NodeView,
> {
    (l + shift(r, l.len())).push(
        fresh(KindView::Binary((l.len() - 1) as usize, op, (l.len() + r.len() - 1) as usize)),
    )
}

pub open spec fn spec_sample(es: Seq<Seq<NodeView>>) -> Seq<NodeView> {
    gather(es).0.push(fresh(KindView::Sample(gather(es).1, None)))
}

pub open spec fn spec_unique(es: Seq<Seq<NodeView>>, state: u64) -> Seq<NodeView> {
    gather(es).0.push(
        fresh(KindView::Unique(gather(es).1, shuffle_value(identity(es.len()), state), 0)),
    )
}

pub open spec fn spec_weighted(es: Seq<Seq<NodeView>>, weights: Seq<u32>) -> Seq<NodeView> {
    gather(es).0.push(fresh(KindView::Weighted(gather(es).1, weights, None)))
}

pub open spec fn spec_next_of(t: usize) -> Seq<NodeView> {
    seq![fresh(KindView::Next(t))]
}

pub open spec fn spec_prev_of(t: usize) -> Seq<NodeView> {
    seq![fresh(KindView::Prev(t))]
}

/// The total size of several expressions.
pub open spec fn total_len(es: Seq<Seq<NodeView>>) -> nat
    decreases es.len(),
{
    if es.len() == 0 {
        0
    } else {
        total_len(es.drop_last()) + es.last().len()
    }
}

/// What a binary operator gives on two values: 32-bit wrapping arithmetic;
/// shifts by 32 or more give 0; division by zero gives 0 and the remainder
/// by zero is the dividend, so that `(l / r) * r + l % r == l` always holds.
pub open spec fn apply_binary(op: BinaryOpcode, l: u32, r: u32) -> u32 {
    match op {
        BinaryOpcode::Or => l | r,
        BinaryOpcode::Xor => l ^ r,
        BinaryOpcode::And => l & r,
        BinaryOpcode::Shl => if r < 32 { l << r } else { 0 },
        BinaryOpcode::Shr => if r < 32 { l >> r } else { 0 },
        BinaryOpcode::Add => ((l + r) % 0x1_0000_0000) as u32,
        BinaryOpcode::Sub => ((l - r) % 0x1_0000_0000) as u32,
        BinaryOpcode::Mul => ((l * r) % 0x1_0000_0000) as u32,
        BinaryOpcode::Div => if r == 0 { 0 } else { l / r },
        BinaryOpcode::Mod => if r == 0 { l } else { l % r },
    }
}

/// What a unary operator gives on a value.
pub open spec fn apply_unary(op: UnaryOpcode, v: u32) -> u32 {
    match op {
        UnaryOpcode::Neg => !v,
    }
}

pub fn binary(op: BinaryOpcode, l: u32, r: u32) -> (v: u32)
    ensures
        v == apply_binary(op, l, r),
{
    match op {
        BinaryOpcode::Or => l | r,
        BinaryOpcode::Xor => l ^ r,
        BinaryOpcode::And => l & r,
        BinaryOpcode::Shl => if r < 32 { l << r } else { 0 },
        BinaryOpcode::Shr => if r < 32 { l >> r } else { 0 },
        BinaryOpcode::Add => l.wrapping_add(r),
        BinaryOpcode::Sub => l.wrapping_sub(r),
        BinaryOpcode::Mul => l.wrapping_mul(r),
        BinaryOpcode::Div => if r == 0 { 0 } else { l / r },
        BinaryOpcode::Mod => if r == 0 { l } else { l % r },
    }
}

pub fn unary(op: UnaryOpcode, v: u32) -> (r: u32)
    ensures
        r == apply_unary(op, v),
{
    match op {
        UnaryOpcode::Neg => !v,
    }
}


pub proof fn lemma_shift_links(k: KindView, d: nat)
    ensures
        links(shift_kind(k, d)) =~= shift_links(links(k), d),
        target(shift_kind(k, d)) == target(k),
{
}

/// Moving an expression on keeps its nodes in post-order relative to where it
/// now stands.
pub proof fn lemma_shift_below(e: Seq<NodeView>, d: nat)
    requires
        well_formed(e),
    ensures
        shift(e, d).len() == e.len(),
        forall|i: int|
            0 <= i < e.len() ==> #[trigger] node_ok(shift(e, d)[i].kind, i + d) && (
            d + e.len() <= usize::MAX ==> shift(e, d)[i].kind == shift_kind(e[i].kind, d)),
{
    assert forall|i: int| 0 <= i < e.len() implies #[trigger] node_ok(
        shift(e, d)[i].kind,
        i + d,
    ) by {
        lemma_shift_links(e[i].kind, d);
        assert(node_ok(e[i].kind, i));
        let ls = links(e[i].kind);
        assert forall|j: int| 0 <= j < links(shift(e, d)[i].kind).len() implies links(
            shift(e, d)[i].kind,
        )[j] < i + d by {
            assert(ls[j] < i);
        }
    }
}

fn copy_links(v: &Vec<usize>) -> (r: Vec<usize>)
    ensures
        r@ == v@,
{
    let mut r: Vec<usize> = Vec::new();
    let mut k: usize = 0;
    while k < v.len()
        invariant
            k <= v@.len(),
            r@ =~= v@.subrange(0, k as int),
        decreases v@.len() - k,
    {
        r.push(v[k]);
        k = k + 1;
    }
    r
}

fn copy_weights(v: &Vec<u32>) -> (r: Vec<u32>)
    ensures
        r@ == v@,
{
    let mut r: Vec<u32> = Vec::new();
    let mut k: usize = 0;
    while k < v.len()
        invariant
            k <= v@.len(),
            r@ =~= v@.subrange(0, k as int),
        decreases v@.len() - k,
    {
        r.push(v[k]);
        k = k + 1;
    }
    r
}

fn shift_link_vec(v: &Vec<usize>, d: usize) -> (r: Vec<usize>)
    requires
        forall|j: int| 0 <= j < v@.len() ==> v@[j] + d <= usize::MAX,
    ensures
        r@ == shift_links(v@, d as nat),
{
    let mut r: Vec<usize> = Vec::new();
    let mut k: usize = 0;
    while k < v.len()
        invariant
            k <= v@.len(),
            forall|j: int| 0 <= j < v@.len() ==> v@[j] + d <= usize::MAX,
            r@ =~= shift_links(v@, d as nat).subrange(0, k as int),
        decreases v@.len() - k,
    {
        r.push(v[k] + d);
        k = k + 1;
    }
    assert(r@ =~= shift_links(v@, d as nat));
    r
}

impl Kind {
    /// A copy of this kind.
    pub fn duplicate(&self) -> (r: Kind)
        ensures
            r@ == self@,
    {
        match self {
            Kind::Constant(v) => Kind::Constant(*v),
            Kind::Range(lo, hi) => Kind::Range(*lo, *hi),
            Kind::Pattern(lo, hi, cur) => Kind::Pattern(*lo, *hi, *cur),
            Kind::Unary(op, c) => Kind::Unary(*op, *c),
            Kind::Binary(l, op, r) => Kind::Binary(*l, *op, *r),
            Kind::Sample(cs, cur) => Kind::Sample(copy_links(cs), *cur),
            Kind::Unique(cs, order, cursor) => Kind::Unique(
                copy_links(cs),
                copy_links(order),
                *cursor,
            ),
            Kind::Weighted(cs, ws, cur) => Kind::Weighted(copy_links(cs), copy_weights(ws), *cur),
            Kind::Next(t) => Kind::Next(*t),
            Kind::Prev(t) => Kind::Prev(*t),
        }
    }

    /// This kind with its children moved `d` places on.
    pub fn shifted(&self, d: usize) -> (r: Kind)
        requires
            forall|j: int| 0 <= j < links(self@).len() ==> links(self@)[j] + d <= usize::MAX,
        ensures
            r@ == shift_kind(self@, d as nat),
    {
        match self {
            Kind::Unary(op, c) => {
                assert(links(self@)[0] == *c);
                Kind::Unary(*op, *c + d)
            },
            Kind::Binary(l, op, r) => {
                assert(links(self@)[0] == *l);
                assert(links(self@)[1] == *r);
                Kind::Binary(*l + d, *op, *r + d)
            },
            Kind::Sample(cs, cur) => {
                assert(links(self@) == cs@);
                Kind::Sample(shift_link_vec(cs, d), *cur)
            },
            Kind::Unique(cs, order, cursor) => Kind::Unique(
                {
                    assert(links(self@) == cs@);
                    shift_link_vec(cs, d)
                },
                copy_links(order),
                *cursor,
            ),
            Kind::Weighted(cs, ws, cur) => Kind::Weighted(
                {
                    assert(links(self@) == cs@);
                    shift_link_vec(cs, d)
                },
                copy_weights(ws),
                *cur,
            ),
            _ => self.duplicate(),
        }
    }
}

impl Node {
    /// A copy of this node.
    pub fn duplicate(&self) -> (r: Node)
        ensures
            r@ == self@,
    {
        Node { prev: self.prev, done: self.done, kind: self.kind.duplicate() }
    }
}

/// Appends the nodes of `src` to `dst`, moved on past the nodes already there.
fn append_shifted(dst: &mut Vec<Node>, src: &Expr)
    requires
        well_formed(src@),
        old(dst)@.len() + src@.len() <= usize::MAX,
    ensures
        views(final(dst)@) =~= views(old(dst)@) + shift(src@, old(dst)@.len()),
{
    let d = dst.len();
    let ghost start = views(dst@);
    proof {
        lemma_shift_below(src@, d as nat);
    }
    let mut k: usize = 0;
    while k < src.nodes.len()
        invariant
            k <= src@.len(),
            d == old(dst)@.len(),
            start == views(old(dst)@),
            well_formed(src@),
            d + src@.len() <= usize::MAX,
            views(dst@) =~= start + shift(src@, d as nat).subrange(0, k as int),
        decreases src@.len() - k,
    {
        let node = &src.nodes[k];
        assert(node_ok(src@[k as int].kind, k as int));
        assert(node.kind@ == src@[k as int].kind);
        let kind = node.kind.shifted(d);
        let ghost before = dst@;
        let pushed = Node { prev: node.prev, done: node.done, kind };
        assert(pushed@ == shift(src@, d as nat)[k as int]);
        dst.push(pushed);
        proof {
            assert(views(dst@) =~= views(before).push(pushed@));
            assert(shift(src@, d as nat).subrange(0, k + 1) =~= shift(src@, d as nat).subrange(
                0,
                k as int,
            ).push(pushed@));
        }
        k = k + 1;
    }
    assert(shift(src@, d as nat).subrange(0, k as int) =~= shift(src@, d as nat));
}

impl Expr {
    /// A copy of this expression.
    pub fn duplicate(&self) -> (r: Expr)
        ensures
            r@ == self@,
    {
        let mut nodes: Vec<Node> = Vec::new();
        let mut k: usize = 0;
        while k < self.nodes.len()
            invariant
                k <= self@.len(),
                views(nodes@) =~= self@.subrange(0, k as int),
            decreases self@.len() - k,
        {
            let ghost before = nodes@;
            let n = self.nodes[k].duplicate();
            nodes.push(n);
            proof {
                assert(views(nodes@) =~= views(before).push(n@));
                assert(self@.subrange(0, k + 1) =~= self@.subrange(0, k as int).push(n@));
            }
            k = k + 1;
        }
        assert(self@.subrange(0, k as int) =~= self@);
        Expr { nodes }
    }

    fn single(kind: Kind) -> (e: Expr)
        ensures
            e@ == seq![fresh(kind@)],
    {
        let mut nodes: Vec<Node> = Vec::new();
        nodes.push(Node { prev: 0, done: false, kind });
        assert(views(nodes@) =~= seq![fresh(kind@)]);
        Expr { nodes }
    }

    /// An expression that always gives `v`.
    pub fn constant(v: u32) -> (e: Expr)
        ensures
            e@ == spec_constant(v),
            well_formed(e@),
    {
        let e = Expr::single(Kind::Constant(v));
        assert(node_ok(e@[0].kind, 0));
        e
    }

    /// A uniform draw between two bounds, in either order, both included.
    pub fn range(lo: u32, hi: u32) -> (e: Expr)
        ensures
            e@ == spec_range(lo, hi),
            well_formed(e@),
    {
        let e = if lo <= hi {
            Expr::single(Kind::Range(lo, hi))
        } else {
            Expr::single(Kind::Range(hi, lo))
        };
        assert(node_ok(e@[0].kind, 0));
        e
    }

    /// The values from the lower bound to the upper one, over and over.
    pub fn pattern(lo: u32, hi: u32) -> (e: Expr)
        ensures
            e@ == spec_pattern(lo, hi),
            well_formed(e@),
    {
        let e = if lo <= hi {
            Expr::single(Kind::Pattern(lo, hi, lo))
        } else {
            Expr::single(Kind::Pattern(hi, lo, hi))
        };
        assert(node_ok(e@[0].kind, 0));
        e
    }

    /// Reads the sequence in slot `t`, advancing it.
    pub fn next_of(t: usize) -> (e: Expr)
        ensures
            e@ == spec_next_of(t),
            well_formed(e@),
    {
        let e = Expr::single(Kind::Next(t));
        assert(node_ok(e@[0].kind, 0));
        e
    }

    /// Reads the last value of the sequence in slot `t`.
    pub fn prev_of(t: usize) -> (e: Expr)
        ensures
            e@ == spec_prev_of(t),
            well_formed(e@),
    {
        let e = Expr::single(Kind::Prev(t));
        assert(node_ok(e@[0].kind, 0));
        e
    }
}


/// The views of a list of expressions.
pub open spec fn expr_views(s: Seq<Expr>) -> Seq<Seq<NodeView>> {
    s.map_values(|e: Expr| e@)
}

/// Every expression of the list is well formed.
pub open spec fn all_well_formed(es: Seq<Seq<NodeView>>) -> bool {
    forall|j: int| 0 <= j < es.len() ==> #[trigger] well_formed(es[j])
}

pub proof fn lemma_total_len_prefix(es: Seq<Seq<NodeView>>, k: int)
    requires
        0 <= k <= es.len(),
    ensures
        total_len(es.subrange(0, k)) <= total_len(es),
    decreases es.len(),
{
    if k < es.len() {
        assert(es.drop_last().subrange(0, k) =~= es.subrange(0, k));
        lemma_total_len_prefix(es.drop_last(), k);
    } else {
        assert(es.subrange(0, k) =~= es);
    }
}

/// Places the nodes of `children` one after the other.
fn gather_exprs(children: &Vec<Expr>) -> (r: (Vec<Node>, Vec<usize>))
    requires
        all_well_formed(expr_views(children@)),
        total_len(expr_views(children@)) < usize::MAX,
    ensures
        (views(r.0@), r.1@) == gather(expr_views(children@)),
        views(r.0@).len() == total_len(expr_views(children@)),
        r.1@.len() == children@.len(),
        forall|i: int| 0 <= i < r.0@.len() ==> #[trigger] node_ok(views(r.0@)[i].kind, i),
        forall|j: int| 0 <= j < r.1@.len() ==> #[trigger] r.1@[j] < r.0@.len(),
{
    let ghost es = expr_views(children@);
    let mut nodes: Vec<Node> = Vec::new();
    let mut roots: Vec<usize> = Vec::new();
    let mut k: usize = 0;
    while k < children.len()
        invariant
            k <= children@.len(),
            es == expr_views(children@),
            all_well_formed(es),
            total_len(es) < usize::MAX,
            (views(nodes@), roots@) == gather(es.subrange(0, k as int)),
            views(nodes@).len() == total_len(es.subrange(0, k as int)),
            roots@.len() == k,
            forall|i: int| 0 <= i < nodes@.len() ==> #[trigger] node_ok(views(nodes@)[i].kind, i),
            forall|j: int| 0 <= j < roots@.len() ==> #[trigger] roots@[j] < nodes@.len(),
        decreases children@.len() - k,
    {
        let ghost before = views(nodes@);
        let ghost sub = es.subrange(0, k + 1);
        proof {
            assert(sub.drop_last() =~= es.subrange(0, k as int));
            assert(sub.last() == es[k as int]);
            lemma_total_len_prefix(es, k + 1);
            assert(well_formed(es[k as int]));
            lemma_shift_below(es[k as int], before.len());
        }
        append_shifted(&mut nodes, &children[k]);
        let root = nodes.len() - 1;
        roots.push(root);
        proof {
            assert forall|i: int| 0 <= i < nodes@.len() implies #[trigger] node_ok(
                views(nodes@)[i].kind,
                i,
            ) by {
                if i >= before.len() {
                    let j = i - before.len();
                    assert(views(nodes@)[i] == shift(es[k as int], before.len())[j]);
                    assert(node_ok(shift(es[k as int], before.len())[j].kind, j + before.len()));
                } else {
                    assert(views(nodes@)[i] == before[i]);
                }
            }
        }
        k = k + 1;
    }
    assert(es.subrange(0, k as int) =~= es);
    (nodes, roots)
}

impl Expr {
    /// Applies a unary operator to every value of `operand`.
    pub fn unary(operation: UnaryOpcode, operand: Expr) -> (e: Expr)
        requires
            well_formed(operand@),
            operand@.len() < usize::MAX,
        ensures
            e@ == spec_unary(operation, operand@),
            well_formed(e@),
    {
        let mut nodes = operand.nodes;
        let c = nodes.len() - 1;
        let ghost before = views(nodes@);
        let node = Node { prev: 0, done: false, kind: Kind::Unary(operation, c) };
        nodes.push(node);
        let e = Expr { nodes };
        assert(e@ =~= spec_unary(operation, operand@));
        assert forall|i: int| 0 <= i < e@.len() implies #[trigger] node_ok(e@[i].kind, i) by {
            if i < before.len() {
                assert(node_ok(before[i].kind, i));
            } else {
                assert(links(e@[i].kind)[0] == c);
            }
        }
        e
    }

    /// Combines the values of `l` and `r`, both advanced on every step, with a
    /// binary operator.
    pub fn new(l: Expr, operation: BinaryOpcode, r: Expr) -> (e: Expr)
        requires
            well_formed(l@),
            well_formed(r@),
            l@.len() + r@.len() < usize::MAX,
        ensures
            e@ == spec_binary(l@, operation, r@),
            well_formed(e@),
    {
        let ghost lv = l@;
        let ghost rv = r@;
        let mut nodes = l.nodes;
        let left = nodes.len() - 1;
        proof {
            lemma_shift_below(rv, lv.len());
        }
        append_shifted(&mut nodes, &r);
        let right = nodes.len() - 1;
        let ghost before = views(nodes@);
        nodes.push(Node { prev: 0, done: false, kind: Kind::Binary(left, operation, right) });
        let e = Expr { nodes };
        assert(e@ =~= spec_binary(lv, operation, rv));
        assert forall|i: int| 0 <= i < e@.len() implies #[trigger] node_ok(e@[i].kind, i) by {
            if i < lv.len() {
                assert(e@[i] == lv[i]);
                assert(node_ok(lv[i].kind, i));
            } else if i < before.len() {
                let j = i - lv.len();
                assert(e@[i] == shift(rv, lv.len())[j]);
                assert(node_ok(shift(rv, lv.len())[j].kind, j + lv.len()));
            } else {
                assert(links(e@[i].kind)[0] == left);
                assert(links(e@[i].kind)[1] == right);
            }
        }
        e
    }

    /// Picks a child uniformly, with replacement, whenever the one it follows
    /// completes a cycle.
    pub fn sample(children: Vec<Expr>) -> (e: Expr)
        requires
            all_well_formed(expr_views(children@)),
            total_len(expr_views(children@)) < usize::MAX,
        ensures
            e@ == spec_sample(expr_views(children@)),
            well_formed(e@),
    {
        let (mut nodes, roots) = gather_exprs(&children);
        let ghost before = views(nodes@);
        let ghost rs = roots@;
        nodes.push(Node { prev: 0, done: false, kind: Kind::Sample(roots, None) });
        let e = Expr { nodes };
        assert(e@ =~= spec_sample(expr_views(children@)));
        assert(node_ok(e@[before.len() as int].kind, before.len() as int));
        assert forall|i: int| 0 <= i < e@.len() implies #[trigger] node_ok(e@[i].kind, i) by {
            if i < before.len() {
                assert(node_ok(before[i].kind, i));
            }
        }
        e
    }

    /// Visits every child once per round, in an order shuffled afresh for every
    /// round; the first order is drawn from `state`.
    pub fn unique(children: Vec<Expr>, state: &mut u64) -> (e: Expr)
        requires
            all_well_formed(expr_views(children@)),
            total_len(expr_views(children@)) < usize::MAX,
        ensures
            e@ == spec_unique(expr_views(children@), *old(state)),
            *final(state) == crate::random::shuffle_state(identity(children@.len()), *old(state)),
            well_formed(e@),
    {
        let (mut nodes, roots) = gather_exprs(&children);
        let mut order: Vec<usize> = Vec::new();
        let mut k: usize = 0;
        while k < children.len()
            invariant
                k <= children@.len(),
                order@ =~= identity(k as nat),
            decreases children@.len() - k,
        {
            order.push(k);
            k = k + 1;
        }
        let ghost start = order@;
        let (order, next) = shuffle(order, *state);
        *state = next;
        assert(start =~= identity(children@.len()));
        assert(roots@.len() == children@.len());
        let ghost before = views(nodes@);
        nodes.push(Node { prev: 0, done: false, kind: Kind::Unique(roots, order, 0) });
        let e = Expr { nodes };
        assert(e@ =~= spec_unique(expr_views(children@), *old(state)));
        assert(node_ok(e@[before.len() as int].kind, before.len() as int));
        assert forall|i: int| 0 <= i < e@.len() implies #[trigger] node_ok(e@[i].kind, i) by {
            if i < before.len() {
                assert(node_ok(before[i].kind, i));
            }
        }
        e
    }

    /// Picks a child with a probability proportional to its weight whenever
    /// the one it follows completes a cycle.
    pub fn weighted(children: Vec<Expr>, weights: Vec<u32>) -> (e: Expr)
        requires
            all_well_formed(expr_views(children@)),
            total_len(expr_views(children@)) < usize::MAX,
            weights@.len() == children@.len(),
            0 < weights@.len() <= u32::MAX,
            exists|j: int| 0 <= j < weights@.len() && weights@[j] > 0,
        ensures
            e@ == spec_weighted(expr_views(children@), weights@),
            well_formed(e@),
    {
        let (mut nodes, roots) = gather_exprs(&children);
        let ghost before = views(nodes@);
        let ghost ws = weights@;
        nodes.push(Node { prev: 0, done: false, kind: Kind::Weighted(roots, weights, None) });
        let e = Expr { nodes };
        assert(e@ =~= spec_weighted(expr_views(children@), ws));
        assert(node_ok(e@[before.len() as int].kind, before.len() as int));
        assert forall|i: int| 0 <= i < e@.len() implies #[trigger] node_ok(e@[i].kind, i) by {
            if i < before.len() {
                assert(node_ok(before[i].kind, i));
            }
        }
        e
    }
}

} // verus!
