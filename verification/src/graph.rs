//! The graph flattener: lowers a tree's boolean endpoints into directed,
//! polarity-tagged edges between entities.

use vstd::prelude::*;
use crate::expr::{Expr, ExprView};
use crate::order::{ascending, lemma_increasing_is_ascending};
use crate::parser::{link_views, parse_crt, parse_document, EntityView, Link, LinkView, CRT};

verus! {

broadcast use vstd::std_specs::btree::group_btree_axioms;

// ---------------------------------------------------------------------
// Leaves
// ---------------------------------------------------------------------

/// An entity as it occurs in an endpoint: its number and whether it stands
/// under an odd number of negations.
#[derive(Debug, Clone, Copy, PartialEq, Eq, PartialOrd, Ord)]
pub struct Leaf {
    pub id: u32,
    pub negated: bool,
}

/// The leaves of `e`, left to right, where `negated` tells whether `e` itself
/// stands under an odd number of negations. A `Not` flips the flag for what
/// is below it; an `And` hands it on unchanged.
pub open spec fn leaves(e: ExprView, negated: bool) -> Seq<Leaf>
    decreases e, 0nat,
{
    match e {
        ExprView::EntityRef(id) => seq![Leaf { id, negated }],
        ExprView::Not(inner) => leaves(*inner, !negated),
        ExprView::And(items) => leaves_upto(items, negated, items.len()),
    }
}

/// The leaves of the first `n` of `items`.
pub open spec fn leaves_upto(items: Seq<ExprView>, negated: bool, n: nat) -> Seq<Leaf>
    decreases items, n,
{
    if n == 0 || n > items.len() {
        Seq::empty()
    } else {
        leaves_upto(items, negated, (n - 1) as nat) + leaves(items[n - 1], negated)
    }
}

/// The order of leaves: by number, and at the same number the plain leaf
/// before the negated one.
pub open spec fn leaf_lt(a: Leaf, b: Leaf) -> bool {
    a.id < b.id || (a.id == b.id && !a.negated && b.negated)
}

/// Whether `s` ascends strictly in the order of leaves.
pub open spec fn leaves_sorted(s: Seq<Leaf>) -> bool {
    forall|i: int, j: int| 0 <= i < j < s.len() ==> leaf_lt(s[i], s[j])
}

/// `t` with `x` put in its place, unless `t` holds it already.
pub open spec fn insert_leaf(t: Seq<Leaf>, x: Leaf) -> Seq<Leaf>
    decreases t.len(),
{
    if t.len() == 0 || leaf_lt(t.last(), x) {
        t.push(x)
    } else if t.last() == x {
        t
    } else {
        insert_leaf(t.drop_last(), x).push(t.last())
    }
}

/// `t` after each of `s` has been put in its place, first to last.
pub open spec fn insert_leaves(t: Seq<Leaf>, s: Seq<Leaf>) -> Seq<Leaf>
    decreases s.len(),
{
    if s.len() == 0 {
        t
    } else {
        insert_leaf(insert_leaves(t, s.drop_last()), s.last())
    }
}

/// The leaves of `s` in ascending order, each once.
pub open spec fn leaf_set(s: Seq<Leaf>) -> Seq<Leaf> {
    insert_leaves(Seq::empty(), s)
}

/// The sorted, deduplicated leaves of an endpoint.
pub open spec fn flat_leaves(e: ExprView) -> Seq<Leaf> {
    leaf_set(leaves(e, false))
}

/// Putting a leaf in its place keeps the order, adds the leaf and nothing else.
pub proof fn lemma_insert_leaf(t: Seq<Leaf>, x: Leaf)
    requires
        leaves_sorted(t),
    ensures
        leaves_sorted(insert_leaf(t, x)),
        forall|y: Leaf| #[trigger] insert_leaf(t, x).contains(y) <==> t.contains(y) || y == x,
    decreases t.len(),
{
    let r = insert_leaf(t, x);
    if t.len() == 0 || leaf_lt(t.last(), x) {
        assert forall|i: int, j: int| 0 <= i < j < r.len() implies leaf_lt(r[i], r[j]) by {
            if j == t.len() {
                if i < t.len() - 1 {
                    assert(leaf_lt(t[i], t[t.len() - 1]));
                }
            }
        }
        assert forall|y: Leaf| r.contains(y) <==> t.contains(y) || y == x by {
            if r.contains(y) {
                let i = choose|i: int| 0 <= i < r.len() && r[i] == y;
                if i < t.len() {
                    assert(t[i] == y);
                }
            }
            if t.contains(y) {
                let i = choose|i: int| 0 <= i < t.len() && t[i] == y;
                assert(r[i] == y);
            }
            if y == x {
                assert(r[t.len() as int] == y);
            }
        }
    } else if t.last() == x {
        assert(t[t.len() - 1] == x);
    } else {
        let p = t.drop_last();
        let q = insert_leaf(p, x);
        assert forall|i: int, j: int| 0 <= i < j < p.len() implies leaf_lt(p[i], p[j]) by {
            assert(leaf_lt(t[i], t[j]));
        }
        lemma_insert_leaf(p, x);
        assert(leaf_lt(x, t.last()));
        assert forall|i: int, j: int| 0 <= i < j < r.len() implies leaf_lt(r[i], r[j]) by {
            if j == q.len() {
                assert(q.contains(q[i]));
                if q[i] != x {
                    assert(p.contains(q[i]));
                    let k = choose|k: int| 0 <= k < p.len() && p[k] == q[i];
                    assert(leaf_lt(t[k], t[t.len() - 1]));
                }
            } else {
                assert(leaf_lt(q[i], q[j]));
            }
        }
        assert forall|y: Leaf| r.contains(y) <==> t.contains(y) || y == x by {
            if r.contains(y) {
                let i = choose|i: int| 0 <= i < r.len() && r[i] == y;
                if i < q.len() {
                    assert(q.contains(y));
                    if y != x {
                        assert(p.contains(y));
                        let k = choose|k: int| 0 <= k < p.len() && p[k] == y;
                        assert(t[k] == y);
                    }
                } else {
                    assert(t[t.len() - 1] == y);
                }
            }
            if t.contains(y) {
                let i = choose|i: int| 0 <= i < t.len() && t[i] == y;
                if i < p.len() {
                    assert(p[i] == y);
                    assert(p.contains(y));
                    assert(q.contains(y));
                    let k = choose|k: int| 0 <= k < q.len() && q[k] == y;
                    assert(r[k] == y);
                } else {
                    assert(r[q.len() as int] == y);
                }
            }
            if y == x {
                assert(q.contains(x));
                let k = choose|k: int| 0 <= k < q.len() && q[k] == x;
                assert(r[k] == y);
            }
        }
    }
}

/// Putting leaves in their places keeps the order and adds exactly them.
pub proof fn lemma_insert_leaves(t: Seq<Leaf>, s: Seq<Leaf>)
    requires
        leaves_sorted(t),
    ensures
        leaves_sorted(insert_leaves(t, s)),
        forall|y: Leaf|
            #[trigger] insert_leaves(t, s).contains(y) <==> t.contains(y) || s.contains(y),
    decreases s.len(),
{
    if s.len() == 0 {
    } else {
        let p = s.drop_last();
        lemma_insert_leaves(t, p);
        lemma_insert_leaf(insert_leaves(t, p), s.last());
        assert forall|y: Leaf| insert_leaves(t, s).contains(y) <==> t.contains(y) || s.contains(
            y,
        ) by {
            if p.contains(y) {
                let i = choose|i: int| 0 <= i < p.len() && p[i] == y;
                assert(s[i] == y);
            }
            if s.contains(y) {
                let i = choose|i: int| 0 <= i < s.len() && s[i] == y;
                if i < p.len() {
                    assert(p[i] == y);
                }
            }
            assert(s[s.len() - 1] == s.last());
        }
    }
}

/// The flattened leaves of an endpoint ascend strictly, so none occurs
/// twice, and they are the leaves that the endpoint holds.
pub proof fn lemma_leaf_set(s: Seq<Leaf>)
    ensures
        leaves_sorted(leaf_set(s)),
        leaf_set(s).no_duplicates(),
        forall|y: Leaf| #[trigger] leaf_set(s).contains(y) <==> s.contains(y),
{
    lemma_insert_leaves(Seq::empty(), s);
    let r = leaf_set(s);
    assert forall|i: int, j: int| 0 <= i < r.len() && 0 <= j < r.len() && i != j implies r[i]
        != r[j] by {
        if i < j {
            assert(leaf_lt(r[i], r[j]));
        } else {
            assert(leaf_lt(r[j], r[i]));
        }
    }
}

/// Putting in two runs of leaves, one after the other, is putting in their
/// concatenation.
pub proof fn lemma_insert_leaves_concat(t: Seq<Leaf>, a: Seq<Leaf>, b: Seq<Leaf>)
    ensures
        insert_leaves(insert_leaves(t, a), b) == insert_leaves(t, a + b),
    decreases b.len(),
{
    if b.len() == 0 {
        assert(a + b == a);
    } else {
        lemma_insert_leaves_concat(t, a, b.drop_last());
        assert((a + b).drop_last() == a + b.drop_last());
        assert((a + b).last() == b.last());
    }
}

/// Two negations cancel: the leaves are those of the expression below them.
pub proof fn lemma_double_negation(e: ExprView, negated: bool)
    ensures
        leaves(ExprView::Not(Box::new(ExprView::Not(Box::new(e)))), negated) == leaves(e, negated),
{
    reveal_with_fuel(leaves, 3);
}

// ---------------------------------------------------------------------
// The graph
// ---------------------------------------------------------------------

/// What a node stands for.
#[derive(Debug, Clone, Copy, PartialEq, Eq)]
pub enum NodeKind {
    /// The synthetic root.
    Start,
    /// An entity of the document.
    Normal,
}

/// The name of a node: the synthetic root, or an entity by its number.
#[derive(Debug, Clone, Copy, PartialEq, Eq)]
pub enum NodeId {
    Start,
    Entity(u32),
}

#[derive(Debug, Clone, PartialEq, Eq)]
pub struct Node {
    pub id: NodeId,
    pub label: String,
    pub kind: NodeKind,
}

pub struct NodeView {
    pub id: NodeId,
    pub label: Seq<char>,
    pub kind: NodeKind,
}

impl View for Node {
    type V = NodeView;

    open spec fn view(&self) -> NodeView {
        NodeView { id: self.id, label: self.label@, kind: self.kind }
    }
}

/// How the source of an edge bears on its target.
#[derive(Debug, Clone, Copy, PartialEq, Eq)]
pub enum Relation {
    /// The source is one conjunct of several.
    And,
    /// The source alone leads to the target.
    Then,
    /// The source is the synthetic root.
    If,
}

#[derive(Debug, Clone, Copy, PartialEq, Eq)]
pub struct Edge {
    pub source: NodeId,
    pub target: u32,
    pub relation: Relation,
    pub source_negated: bool,
    pub target_negated: bool,
}

#[derive(Debug, Clone, PartialEq, Eq)]
pub struct Graph {
    pub nodes: Vec<Node>,
    pub edges: Vec<Edge>,
}

pub struct GraphView {
    pub nodes: Seq<NodeView>,
    pub edges: Seq<Edge>,
}

pub open spec fn node_views(nodes: Seq<Node>) -> Seq<NodeView> {
    Seq::new(nodes.len(), |i: int| nodes[i]@)
}

impl View for Graph {
    type V = GraphView;

    open spec fn view(&self) -> GraphView {
        GraphView { nodes: node_views(self.nodes@), edges: self.edges@ }
    }
}

/// The label of the synthetic root.
pub open spec fn start_label() -> Seq<char> {
    seq!['I', 'F']
}

pub open spec fn start_node() -> NodeView {
    NodeView { id: NodeId::Start, label: start_label(), kind: NodeKind::Start }
}

pub open spec fn entity_node(e: EntityView) -> NodeView {
    NodeView { id: NodeId::Entity(e.id), label: e.text, kind: NodeKind::Normal }
}

/// Whether `nodes` is the node list of a tree with these entities: the
/// synthetic root, then one node for each entity, by ascending key.
pub open spec fn is_node_list(nodes: Seq<NodeView>, entities: Map<u32, EntityView>) -> bool {
    &&& nodes.len() >= 1
    &&& nodes[0] == start_node()
    &&& exists|keys: Seq<u32>|
        {
            &&& ascending(keys)
            &&& keys.to_set() == entities.dom()
            &&& #[trigger] keys.len() + 1 == nodes.len()
            &&& forall|i: int| 0 <= i < keys.len() ==> nodes[i + 1] == entity_node(entities[keys[i]])
        }
}

/// `And` where the source endpoint is a conjunction, `Then` otherwise.
pub open spec fn relation_of(source: ExprView) -> Relation {
    if source is And {
        Relation::And
    } else {
        Relation::Then
    }
}

pub open spec fn edge_between(s: Leaf, t: Leaf, relation: Relation) -> Edge {
    Edge {
        source: NodeId::Entity(s.id),
        target: t.id,
        relation,
        source_negated: s.negated,
        target_negated: t.negated,
    }
}

/// The edges from one source leaf to every target leaf.
pub open spec fn row(s: Leaf, dst: Seq<Leaf>, relation: Relation) -> Seq<Edge> {
    Seq::new(dst.len(), |j: int| edge_between(s, dst[j], relation))
}

/// The edges from the first `n` source leaves, source by source.
pub open spec fn rows_upto(src: Seq<Leaf>, dst: Seq<Leaf>, relation: Relation, n: nat) -> Seq<Edge>
    decreases n,
{
    if n == 0 || n > src.len() {
        Seq::empty()
    } else {
        rows_upto(src, dst, relation, (n - 1) as nat) + row(src[n - 1], dst, relation)
    }
}

/// The edges of one adjacent pair of segments: one for each pair of a source
/// leaf and a target leaf.
pub open spec fn pair_edges(source: ExprView, target: ExprView) -> Seq<Edge> {
    let src = flat_leaves(source);
    rows_upto(src, flat_leaves(target), relation_of(source), src.len())
}

/// The edges of the first `n` adjacent pairs of a chain.
pub open spec fn chain_edges_upto(segments: Seq<ExprView>, n: nat) -> Seq<Edge>
    decreases n,
{
    if n == 0 || n + 1 > segments.len() {
        Seq::empty()
    } else {
        chain_edges_upto(segments, (n - 1) as nat) + pair_edges(segments[n - 1], segments[n as int])
    }
}

/// The leaves on the source side of the first `n` adjacent pairs.
pub open spec fn chain_sources_upto(segments: Seq<ExprView>, n: nat) -> Seq<Leaf>
    decreases n,
{
    if n == 0 || n + 1 > segments.len() {
        Seq::empty()
    } else {
        chain_sources_upto(segments, (n - 1) as nat) + leaves(segments[n - 1], false)
    }
}

/// The leaves on the target side of the first `n` adjacent pairs.
pub open spec fn chain_targets_upto(segments: Seq<ExprView>, n: nat) -> Seq<Leaf>
    decreases n,
{
    if n == 0 || n + 1 > segments.len() {
        Seq::empty()
    } else {
        chain_targets_upto(segments, (n - 1) as nat) + leaves(segments[n as int], false)
    }
}

/// The number of adjacent pairs in a chain.
pub open spec fn pair_count(link: LinkView) -> nat {
    if link.segments.len() < 2 {
        0
    } else {
        (link.segments.len() - 1) as nat
    }
}

pub open spec fn link_edges(link: LinkView) -> Seq<Edge> {
    chain_edges_upto(link.segments, pair_count(link))
}

pub open spec fn link_sources(link: LinkView) -> Seq<Leaf> {
    chain_sources_upto(link.segments, pair_count(link))
}

pub open spec fn link_targets(link: LinkView) -> Seq<Leaf> {
    chain_targets_upto(link.segments, pair_count(link))
}

/// The edges of all links, in the order of the links.
pub open spec fn links_edges(links: Seq<LinkView>) -> Seq<Edge>
    decreases links.len(),
{
    if links.len() == 0 {
        Seq::empty()
    } else {
        links_edges(links.drop_last()) + link_edges(links.last())
    }
}

/// Every leaf that stands on the source side of some pair.
pub open spec fn all_sources(links: Seq<LinkView>) -> Seq<Leaf>
    decreases links.len(),
{
    if links.len() == 0 {
        Seq::empty()
    } else {
        all_sources(links.drop_last()) + link_sources(links.last())
    }
}

/// Every leaf that stands on the target side of some pair.
pub open spec fn all_targets(links: Seq<LinkView>) -> Seq<Leaf>
    decreases links.len(),
{
    if links.len() == 0 {
        Seq::empty()
    } else {
        all_targets(links.drop_last()) + link_targets(links.last())
    }
}

/// The edge from the synthetic root to a leaf; only the target side carries
/// the leaf's negation.
pub open spec fn start_edge(leaf: Leaf) -> Edge {
    Edge {
        source: NodeId::Start,
        target: leaf.id,
        relation: Relation::If,
        source_negated: false,
        target_negated: leaf.negated,
    }
}

/// The root's edges to those of the first `n` of `sources` that `targets`
/// does not hold.
pub open spec fn start_edges_upto(sources: Seq<Leaf>, targets: Seq<Leaf>, n: nat) -> Seq<Edge>
    decreases n,
{
    if n == 0 || n > sources.len() {
        Seq::empty()
    } else {
        let before = start_edges_upto(sources, targets, (n - 1) as nat);
        if targets.contains(sources[n - 1]) {
            before
        } else {
            before.push(start_edge(sources[n - 1]))
        }
    }
}

/// The root's edges: one to every leaf that is a source somewhere and a
/// target nowhere, in the order of leaves.
pub open spec fn start_edges(links: Seq<LinkView>) -> Seq<Edge> {
    let sources = leaf_set(all_sources(links));
    start_edges_upto(sources, all_targets(links), sources.len())
}

/// All edges of the graph: those of the links in document order, then the
/// root's.
pub open spec fn flat_edges(links: Seq<LinkView>) -> Seq<Edge> {
    links_edges(links) + start_edges(links)
}

// ---------------------------------------------------------------------
// Flattening
// ---------------------------------------------------------------------

/// The leaves of an endpoint, left to right, repeats included.
pub fn flatten_expr(expr: &Expr) -> (out: Vec<Leaf>)
    ensures
        out@ == leaves(expr@, false),
{
    let mut out: Vec<Leaf> = Vec::new();
    flatten_expr_inner(expr, false, &mut out);
    assert(Seq::<Leaf>::empty() + leaves(expr@, false) == leaves(expr@, false));
    out
}

/// Appends the leaves of `expr` to `out`.
pub fn flatten_expr_inner(expr: &Expr, negated: bool, out: &mut Vec<Leaf>)
    ensures
        final(out)@ == old(out)@ + leaves(expr@, negated),
    decreases expr,
{
    match expr {
        Expr::EntityRef(id) => {
            let leaf = Leaf { id: *id, negated };
            out.push(leaf);
            assert(old(out)@.push(leaf) == old(out)@ + seq![leaf]);
        },
        Expr::Not(inner) => {
            flatten_expr_inner(inner, !negated, out);
        },
        Expr::And(items) => {
            let ghost views = expr@->And_0;
            let mut i: usize = 0;
            assert(old(out)@ + Seq::<Leaf>::empty() == old(out)@);
            while i < items.len()
                invariant
                    i <= items.len(),
                    decreases_to!(*expr => *items),
                    views.len() == items.len(),
                    forall|j: int| 0 <= j < items.len() ==> views[j] == (#[trigger] items@[j])@,
                    out@ == old(out)@ + leaves_upto(views, negated, i as nat),
                decreases items.len() - i,
            {
                let ghost sofar = leaves_upto(views, negated, i as nat);
                flatten_expr_inner(&items[i], negated, out);
                assert(old(out)@ + sofar + leaves(views[i as int], negated) == old(out)@ + (sofar
                    + leaves(views[i as int], negated)));
                i += 1;
            }
        },
    }
}

fn leaf_before(a: Leaf, b: Leaf) -> (out: bool)
    ensures
        out == leaf_lt(a, b),
{
    a.id < b.id || (a.id == b.id && !a.negated && b.negated)
}

fn same_leaf(a: Leaf, b: Leaf) -> (out: bool)
    ensures
        out == (a == b),
{
    a.id == b.id && a.negated == b.negated
}

/// Puts `x` in its place in `v`, unless `v` holds it already.
pub fn insert_sorted(v: &mut Vec<Leaf>, x: Leaf)
    ensures
        final(v)@ == insert_leaf(old(v)@, x),
{
    let mut p: usize = v.len();
    assert(v@.take(p as int) + v@.skip(p as int) == v@);
    assert(v@.take(p as int) == v@);
    assert(v@.skip(p as int) == Seq::<Leaf>::empty());
    assert(insert_leaf(v@, x) + Seq::<Leaf>::empty() == insert_leaf(v@, x));
    while p > 0 && !leaf_before(v[p - 1], x)
        invariant
            p <= v.len(),
            v@ == old(v)@,
            insert_leaf(v@, x) == insert_leaf(v@.take(p as int), x) + v@.skip(p as int),
        decreases p,
    {
        let ghost head = v@.take(p as int);
        assert(head.last() == v@[p - 1]);
        assert(head.drop_last() == v@.take(p - 1));
        if same_leaf(v[p - 1], x) {
            assert(insert_leaf(head, x) == head);
            assert(head + v@.skip(p as int) == v@);
            return ;
        }
        assert(insert_leaf(head, x) == insert_leaf(v@.take(p - 1), x).push(v@[p - 1]));
        assert(insert_leaf(v@.take(p - 1), x).push(v@[p - 1]) + v@.skip(p as int) == insert_leaf(
            v@.take(p - 1),
            x,
        ) + v@.skip(p - 1));
        p -= 1;
    }
    proof {
        let head = v@.take(p as int);
        if p > 0 {
            assert(head.last() == v@[p - 1]);
        }
        assert(insert_leaf(head, x) == head.push(x));
        assert(head.push(x) + v@.skip(p as int) == v@.insert(p as int, x));
    }
    v.insert(p, x);
}

/// Puts every leaf of `raw` in its place in `set`.
pub fn insert_all(set: &mut Vec<Leaf>, raw: &Vec<Leaf>)
    ensures
        final(set)@ == insert_leaves(old(set)@, raw@),
{
    let mut i: usize = 0;
    assert(raw@.take(0) == Seq::<Leaf>::empty());
    while i < raw.len()
        invariant
            i <= raw.len(),
            set@ == insert_leaves(old(set)@, raw@.take(i as int)),
        decreases raw.len() - i,
    {
        assert(raw@.take(i + 1).drop_last() == raw@.take(i as int));
        assert(raw@.take(i + 1).last() == raw@[i as int]);
        insert_sorted(set, raw[i]);
        i += 1;
    }
    assert(raw@.take(raw.len() as int) == raw@);
}

/// Appends one edge for each pair of a source leaf and a target leaf.
fn push_pair_edges(edges: &mut Vec<Edge>, from: &Vec<Leaf>, to: &Vec<Leaf>, relation: Relation)
    ensures
        final(edges)@ == old(edges)@ + rows_upto(from@, to@, relation, from@.len()),
{
    let mut i: usize = 0;
    assert(old(edges)@ + Seq::<Edge>::empty() == old(edges)@);
    while i < from.len()
        invariant
            i <= from.len(),
            edges@ == old(edges)@ + rows_upto(from@, to@, relation, i as nat),
        decreases from.len() - i,
    {
        let source = from[i];
        let ghost before = edges@;
        let mut j: usize = 0;
        assert(before + row(source, to@, relation).take(0) == before);
        while j < to.len()
            invariant
                j <= to.len(),
                source == from@[i as int],
                edges@ == before + row(source, to@, relation).take(j as int),
            decreases to.len() - j,
        {
            let target = to[j];
            let edge = Edge {
                source: NodeId::Entity(source.id),
                target: target.id,
                relation,
                source_negated: source.negated,
                target_negated: target.negated,
            };
            edges.push(edge);
            assert(row(source, to@, relation).take(j + 1) == row(source, to@, relation).take(
                j as int,
            ).push(edge));
            assert((before + row(source, to@, relation).take(j as int)).push(edge) == before
                + row(source, to@, relation).take(j as int).push(edge));
            j += 1;
        }
        assert(row(source, to@, relation).take(to.len() as int) == row(source, to@, relation));
        assert(old(edges)@ + rows_upto(from@, to@, relation, i as nat) + row(
            source,
            to@,
            relation,
        ) == old(edges)@ + (rows_upto(from@, to@, relation, i as nat) + row(
            source,
            to@,
            relation,
        )));
        i += 1;
    }
}

fn is_conjunction(e: &Expr) -> (out: bool)
    ensures
        out == (e@ is And),
{
    match e {
        Expr::And(_) => true,
        _ => false,
    }
}

/// Appends the edges of one link and records its source and target leaves.
fn add_link(link: &Link, edges: &mut Vec<Edge>, sources: &mut Vec<Leaf>, targets: &mut Vec<Leaf>)
    ensures
        final(edges)@ == old(edges)@ + link_edges(link@),
        final(sources)@ == insert_leaves(old(sources)@, link_sources(link@)),
        final(targets)@ == insert_leaves(old(targets)@, link_targets(link@)),
{
    let ghost segs = link@.segments;
    assert(old(edges)@ + Seq::<Edge>::empty() == old(edges)@);
    if link.segments.len() < 2 {
        return ;
    }
    let pairs: usize = link.segments.len() - 1;
    let mut p: usize = 0;
    while p < pairs
        invariant
            p <= pairs,
            pairs + 1 == link.segments.len(),
            segs == link@.segments,
            edges@ == old(edges)@ + chain_edges_upto(segs, p as nat),
            sources@ == insert_leaves(old(sources)@, chain_sources_upto(segs, p as nat)),
            targets@ == insert_leaves(old(targets)@, chain_targets_upto(segs, p as nat)),
        decreases pairs - p,
    {
        let source_expr = &link.segments[p];
        let target_expr = &link.segments[p + 1];
        assert(segs[p as int] == source_expr@);
        assert(segs[p + 1] == target_expr@);
        let raw_from = flatten_expr(source_expr);
        let raw_to = flatten_expr(target_expr);
        let mut from_terms: Vec<Leaf> = Vec::new();
        insert_all(&mut from_terms, &raw_from);
        let mut to_terms: Vec<Leaf> = Vec::new();
        insert_all(&mut to_terms, &raw_to);
        proof {
            lemma_insert_leaves_concat(
                old(sources)@,
                chain_sources_upto(segs, p as nat),
                raw_from@,
            );
            lemma_insert_leaves_concat(old(targets)@, chain_targets_upto(segs, p as nat), raw_to@);
        }
        insert_all(sources, &raw_from);
        insert_all(targets, &raw_to);
        let relation = if is_conjunction(source_expr) {
            Relation::And
        } else {
            Relation::Then
        };
        let ghost before = chain_edges_upto(segs, p as nat);
        push_pair_edges(edges, &from_terms, &to_terms, relation);
        assert(old(edges)@ + before + pair_edges(source_expr@, target_expr@) == old(edges)@ + (
        before + pair_edges(source_expr@, target_expr@)));
        p += 1;
    }
}

fn contains_leaf(set: &Vec<Leaf>, x: Leaf) -> (found: bool)
    ensures
        found == set@.contains(x),
{
    let mut i: usize = 0;
    while i < set.len()
        invariant
            i <= set.len(),
            forall|j: int| 0 <= j < i ==> set@[j] != x,
        decreases set.len() - i,
    {
        if same_leaf(set[i], x) {
            return true;
        }
        i += 1;
    }
    false
}

/// The start edges computed against the sorted targets are those computed
/// against the targets as they come.
proof fn lemma_start_edges_targets(sources: Seq<Leaf>, raw: Seq<Leaf>, n: nat)
    ensures
        start_edges_upto(sources, leaf_set(raw), n) == start_edges_upto(sources, raw, n),
    decreases n,
{
    if n == 0 || n > sources.len() {
    } else {
        lemma_start_edges_targets(sources, raw, (n - 1) as nat);
        lemma_leaf_set(raw);
    }
}

/// Lowers a tree into its graph: the synthetic root and one node for each
/// entity; for each link, in document order, and each adjacent pair of its
/// segments, one edge for each pair of a source leaf and a target leaf; and
/// one edge from the root to each leaf that is a source somewhere and a
/// target nowhere.
pub fn flatten(tree: &CRT) -> (graph: Graph)
    ensures
        is_node_list(graph@.nodes, tree@.entities),
        graph@.edges == flat_edges(tree@.links),
{
    let mut nodes: Vec<Node> = Vec::new();
    nodes.push(Node { id: NodeId::Start, label: start_label_string(), kind: NodeKind::Start });
    let values = tree.entities.values();
    let ghost keys: Seq<u32> = choose|keys: Seq<u32>|
        {
            &&& vstd::std_specs::btree::increasing_seq(keys)
            &&& keys.to_set() == tree.entities@.dom()
            &&& keys.no_duplicates()
            &&& vstd::std_specs::iter::IteratorSpec::remaining(&values) == keys.map(
                |i: int, k: u32| &tree.entities@[k],
            )
        };
    for entity in it: values
        invariant
            it.seq() == keys.map(|i: int, k: u32| &tree.entities@[k]),
            nodes.len() == it.index() + 1,
            nodes@[0]@ == start_node(),
            forall|i: int|
                0 <= i < it.index() ==> (#[trigger] nodes@[i + 1])@ == entity_node(
                    tree.entities@[keys[i]]@,
                ),
    {
        nodes.push(
            Node { id: NodeId::Entity(entity.id), label: entity.text.clone(), kind: NodeKind::Normal },
        );
    }
    proof {
        lemma_increasing_is_ascending(keys);
        let views = node_views(nodes@);
        let entities = tree@.entities;
        assert(entities.dom() == tree.entities@.dom());
        assert(keys.len() + 1 == views.len());
        assert forall|i: int| 0 <= i < keys.len() implies views[i + 1] == entity_node(
            entities[keys[i]],
        ) by {
            assert(keys.contains(keys[i]));
            assert(nodes@[i + 1]@ == entity_node(tree.entities@[keys[i]]@));
        }
        assert(is_node_list(views, entities));
    }
    let mut edges: Vec<Edge> = Vec::new();
    let mut sources: Vec<Leaf> = Vec::new();
    let mut targets: Vec<Leaf> = Vec::new();
    let ghost links = tree@.links;
    let mut i: usize = 0;
    assert(links.take(0) == Seq::<LinkView>::empty());
    while i < tree.links.len()
        invariant
            i <= tree.links.len(),
            links == link_views(tree.links@),
            edges@ == links_edges(links.take(i as int)),
            sources@ == leaf_set(all_sources(links.take(i as int))),
            targets@ == leaf_set(all_targets(links.take(i as int))),
        decreases tree.links.len() - i,
    {
        let link = &tree.links[i];
        proof {
            assert(links.take(i + 1).drop_last() == links.take(i as int));
            assert(links.take(i + 1).last() == link@);
            lemma_insert_leaves_concat(
                Seq::empty(),
                all_sources(links.take(i as int)),
                link_sources(link@),
            );
            lemma_insert_leaves_concat(
                Seq::empty(),
                all_targets(links.take(i as int)),
                link_targets(link@),
            );
        }
        add_link(link, &mut edges, &mut sources, &mut targets);
        i += 1;
    }
    assert(links.take(tree.links.len() as int) == links);
    let ghost link_part = edges@;
    let mut k: usize = 0;
    assert(link_part + Seq::<Edge>::empty() == link_part);
    while k < sources.len()
        invariant
            k <= sources.len(),
            edges@ == link_part + start_edges_upto(sources@, targets@, k as nat),
        decreases sources.len() - k,
    {
        let leaf = sources[k];
        let ghost before = start_edges_upto(sources@, targets@, k as nat);
        if !contains_leaf(&targets, leaf) {
            edges.push(
                Edge {
                    source: NodeId::Start,
                    target: leaf.id,
                    relation: Relation::If,
                    source_negated: false,
                    target_negated: leaf.negated,
                },
            );
            assert((link_part + before).push(start_edge(leaf)) == link_part + before.push(
                start_edge(leaf),
            ));
        }
        k += 1;
    }
    proof {
        lemma_start_edges_targets(sources@, all_targets(links), sources@.len());
    }
    Graph { nodes, edges }
}

fn start_label_string() -> (out: String)
    ensures
        out@ == start_label(),
{
    let mut out = String::new();
    out.push('I');
    out.push('F');
    assert(out@ == start_label());
    out
}

/// The number of entities that a document declares, or 0 where the document
/// does not parse.
pub fn get_node_count(content: &str) -> (count: usize)
    ensures
        count == match parse_document(content@) {
            Ok(tree) => tree.entities.dom().len(),
            Err(_) => 0,
        },
{
    match parse_crt(content) {
        Ok(tree) => {
            assert(tree@.entities.dom() == tree.entities@.dom());
            tree.entities.len()
        },
        Err(_) => 0,
    }
}

/// The number of links that a document declares, or 0 where the document
/// does not parse.
pub fn get_relationship_count(content: &str) -> (count: usize)
    ensures
        count == match parse_document(content@) {
            Ok(tree) => tree.links.len(),
            Err(_) => 0,
        },
{
    match parse_crt(content) {
        Ok(tree) => tree.links.len(),
        Err(_) => 0,
    }
}

// ---------------------------------------------------------------------
// What flattening guarantees
// ---------------------------------------------------------------------

/// The leaf that an edge points at.
pub open spec fn target_leaf(e: Edge) -> Leaf {
    Leaf { id: e.target, negated: e.target_negated }
}

proof fn lemma_start_edges_upto(sources: Seq<Leaf>, targets: Seq<Leaf>, n: nat)
    requires
        sources.no_duplicates(),
        n <= sources.len(),
    ensures
        forall|i: int|
            0 <= i < start_edges_upto(sources, targets, n).len() ==> {
                let e = #[trigger] start_edges_upto(sources, targets, n)[i];
                &&& e == start_edge(target_leaf(e))
                &&& sources.take(n as int).contains(target_leaf(e))
                &&& !targets.contains(target_leaf(e))
            },
        forall|k: int|
            0 <= k < n && !targets.contains(sources[k]) ==> start_edges_upto(
                sources,
                targets,
                n,
            ).contains(start_edge(#[trigger] sources[k])),
        start_edges_upto(sources, targets, n).no_duplicates(),
    decreases n,
{
    if n > 0 {
        let m = (n - 1) as nat;
        let before = start_edges_upto(sources, targets, m);
        let now = start_edges_upto(sources, targets, n);
        let last = sources[n - 1];
        lemma_start_edges_upto(sources, targets, m);
        assert forall|i: int| 0 <= i < now.len() implies ({
            let e = #[trigger] now[i];
            &&& e == start_edge(target_leaf(e))
            &&& sources.take(n as int).contains(target_leaf(e))
            &&& !targets.contains(target_leaf(e))
        }) by {
            let e = now[i];
            if i < before.len() {
                assert(e == before[i]);
                let k = choose|k: int|
                    0 <= k < sources.take(m as int).len() && sources.take(m as int)[k]
                        == target_leaf(e);
                assert(sources.take(n as int)[k] == target_leaf(e));
            } else {
                assert(sources.take(n as int)[n - 1] == last);
            }
        }
        assert forall|k: int| 0 <= k < n && !targets.contains(sources[k]) implies now.contains(
            start_edge(#[trigger] sources[k]),
        ) by {
            if k < m {
                let i = choose|i: int|
                    0 <= i < before.len() && before[i] == start_edge(sources[k]);
                assert(now[i] == start_edge(sources[k]));
            } else {
                assert(now[before.len() as int] == start_edge(last));
            }
        }
        if !targets.contains(last) {
            assert forall|i: int, j: int|
                0 <= i < now.len() && 0 <= j < now.len() && i != j implies now[i] != now[j] by {
                if i < before.len() && j < before.len() {
                    assert(before[i] != before[j]);
                } else {
                    let other = if i < before.len() {
                        i
                    } else {
                        j
                    };
                    let e = before[other];
                    let k = choose|k: int|
                        0 <= k < sources.take(m as int).len() && sources.take(m as int)[k]
                            == target_leaf(e);
                    assert(sources[k] != sources[n - 1]);
                }
            }
        }
    }
}

/// The root's edges are exactly these: one `If` edge, never negated on the
/// source side, to each leaf that stands on the source side of some pair
/// and on the target side of none; no leaf gets two.
pub proof fn lemma_start_edges(links: Seq<LinkView>)
    ensures
        start_edges(links).no_duplicates(),
        forall|i: int|
            0 <= i < start_edges(links).len() ==> {
                let e = #[trigger] start_edges(links)[i];
                &&& e.source == NodeId::Start
                &&& e.relation == Relation::If
                &&& !e.source_negated
                &&& all_sources(links).contains(target_leaf(e))
                &&& !all_targets(links).contains(target_leaf(e))
            },
        forall|leaf: Leaf|
            all_sources(links).contains(leaf) && !all_targets(links).contains(leaf)
                ==> #[trigger] start_edges(links).contains(start_edge(leaf)),
        forall|leaf: Leaf|
            all_targets(links).contains(leaf) ==> !(#[trigger] start_edges(links).contains(
                start_edge(leaf),
            )),
{
    let raw = all_sources(links);
    let sources = leaf_set(raw);
    let targets = all_targets(links);
    let edges = start_edges(links);
    lemma_leaf_set(raw);
    lemma_start_edges_upto(sources, targets, sources.len());
    assert(sources.take(sources.len() as int) == sources);
    assert forall|i: int| 0 <= i < edges.len() implies ({
        let e = #[trigger] edges[i];
        &&& e.source == NodeId::Start
        &&& e.relation == Relation::If
        &&& !e.source_negated
        &&& raw.contains(target_leaf(e))
        &&& !targets.contains(target_leaf(e))
    }) by {
        let e = edges[i];
        assert(sources.contains(target_leaf(e)));
    }
    assert forall|leaf: Leaf| raw.contains(leaf) && !targets.contains(leaf) implies #[trigger]
        edges.contains(start_edge(leaf)) by {
        assert(sources.contains(leaf));
        let k = choose|k: int| 0 <= k < sources.len() && sources[k] == leaf;
        assert(edges.contains(start_edge(sources[k])));
    }
    assert forall|leaf: Leaf| targets.contains(leaf) implies !(#[trigger] edges.contains(
        start_edge(leaf),
    )) by {
        if edges.contains(start_edge(leaf)) {
            let i = choose|i: int| 0 <= i < edges.len() && edges[i] == start_edge(leaf);
            assert(target_leaf(edges[i]) == leaf);
        }
    }
}

proof fn lemma_rows_from_entities(src: Seq<Leaf>, dst: Seq<Leaf>, relation: Relation, n: nat)
    requires
        relation != Relation::If,
    ensures
        forall|i: int|
            0 <= i < rows_upto(src, dst, relation, n).len() ==> (#[trigger] rows_upto(
                src,
                dst,
                relation,
                n,
            )[i]).source != NodeId::Start && rows_upto(src, dst, relation, n)[i].relation
                != Relation::If,
    decreases n,
{
    if n == 0 || n > src.len() {
    } else {
        lemma_rows_from_entities(src, dst, relation, (n - 1) as nat);
    }
}

proof fn lemma_chain_from_entities(segments: Seq<ExprView>, n: nat)
    ensures
        forall|i: int|
            0 <= i < chain_edges_upto(segments, n).len() ==> (#[trigger] chain_edges_upto(
                segments,
                n,
            )[i]).source != NodeId::Start && chain_edges_upto(segments, n)[i].relation
                != Relation::If,
    decreases n,
{
    if n == 0 || n + 1 > segments.len() {
    } else {
        lemma_chain_from_entities(segments, (n - 1) as nat);
        let src = flat_leaves(segments[n - 1]);
        lemma_rows_from_entities(
            src,
            flat_leaves(segments[n as int]),
            relation_of(segments[n - 1]),
            src.len(),
        );
    }
}

/// No edge of a link comes from the root or is an `If` edge: the root's
/// edges are the only ones of that kind.
pub proof fn lemma_link_edges_from_entities(links: Seq<LinkView>)
    ensures
        forall|i: int|
            0 <= i < links_edges(links).len() ==> (#[trigger] links_edges(links)[i]).source
                != NodeId::Start && links_edges(links)[i].relation != Relation::If,
    decreases links.len(),
{
    if links.len() > 0 {
        lemma_link_edges_from_entities(links.drop_last());
        lemma_chain_from_entities(links.last().segments, pair_count(links.last()));
    }
}

/// Whether the entity `id` stands, under either polarity, among `leaves`.
pub open spec fn has_entity(leaves: Seq<Leaf>, id: u32) -> bool {
    leaves.contains(Leaf { id, negated: false }) || leaves.contains(Leaf { id, negated: true })
}

/// Whether the polarities of the entity `id` agree well enough for it to be
/// judged by its number alone: where it is a target nowhere, it is a source
/// under one polarity only; where it is a target, it is a source only under
/// polarities under which it is a target too.
pub open spec fn polarity_settled(links: Seq<LinkView>, id: u32) -> bool {
    let sources = all_sources(links);
    let targets = all_targets(links);
    let plain = Leaf { id, negated: false };
    let negated = Leaf { id, negated: true };
    if has_entity(targets, id) {
        (sources.contains(plain) ==> targets.contains(plain)) && (sources.contains(negated)
            ==> targets.contains(negated))
    } else {
        !(sources.contains(plain) && sources.contains(negated))
    }
}

/// An entity that is a source somewhere and a target nowhere gets exactly
/// one edge from the root; an entity that is a target somewhere gets none.
pub proof fn lemma_start_edges_by_entity(links: Seq<LinkView>, id: u32)
    requires
        polarity_settled(links, id),
    ensures
        has_entity(all_sources(links), id) && !has_entity(all_targets(links), id) ==> exists|
            i: int,
        |
            0 <= i < start_edges(links).len() && (#[trigger] start_edges(links)[i]).target == id
                && forall|j: int|
                0 <= j < start_edges(links).len() && j != i ==> (#[trigger] start_edges(
                    links,
                )[j]).target != id,
        has_entity(all_targets(links), id) ==> forall|i: int|
            0 <= i < start_edges(links).len() ==> (#[trigger] start_edges(links)[i]).target != id,
{
    let sources = all_sources(links);
    let targets = all_targets(links);
    let edges = start_edges(links);
    lemma_start_edges(links);
    if has_entity(targets, id) {
        assert forall|i: int| 0 <= i < edges.len() implies (#[trigger] edges[i]).target != id by {
            let e = edges[i];
            if e.target == id {
                assert(sources.contains(target_leaf(e)));
                assert(target_leaf(e) == Leaf { id, negated: e.target_negated });
            }
        }
    } else if has_entity(sources, id) {
        let leaf = if sources.contains(Leaf { id, negated: false }) {
            Leaf { id, negated: false }
        } else {
            Leaf { id, negated: true }
        };
        assert(edges.contains(start_edge(leaf)));
        let i = choose|i: int| 0 <= i < edges.len() && edges[i] == start_edge(leaf);
        assert forall|j: int| 0 <= j < edges.len() && j != i implies (#[trigger] edges[j]).target
            != id by {
            let e = edges[j];
            if e.target == id {
                assert(sources.contains(target_leaf(e)));
                assert(target_leaf(e) == Leaf { id, negated: e.target_negated });
                assert(target_leaf(e) == leaf);
                assert(e == start_edge(target_leaf(e)));
                assert(edges[j] == edges[i]);
            }
        }
        assert(edges[i].target == id);
    }
}

/// The rows of the first `n` sources, by position.
proof fn lemma_rows_upto(src: Seq<Leaf>, dst: Seq<Leaf>, relation: Relation, n: nat)
    requires
        n <= src.len(),
    ensures
        rows_upto(src, dst, relation, n).len() == n * dst.len(),
        forall|i: int, j: int|
            0 <= i < n && 0 <= j < dst.len() ==> 0 <= i * dst.len() + j < n * dst.len()
                && rows_upto(src, dst, relation, n)[i * dst.len() + j] == edge_between(
                #[trigger] src[i],
                #[trigger] dst[j],
                relation,
            ),
    decreases n,
{
    let m = dst.len() as int;
    if n > 0 {
        let before = rows_upto(src, dst, relation, (n - 1) as nat);
        lemma_rows_upto(src, dst, relation, (n - 1) as nat);
        assert((n - 1) * m + m == n * m) by (nonlinear_arith);
        assert forall|i: int, j: int| 0 <= i < n && 0 <= j < m implies 0 <= i * m + j < n * m
            && rows_upto(src, dst, relation, n)[i * m + j] == edge_between(
            #[trigger] src[i],
            #[trigger] dst[j],
            relation,
        ) by {
            assert(0 <= i * m && i * m + m <= n * m) by (nonlinear_arith)
                requires
                    0 <= i < n,
                    0 <= m,
            ;
            if i == n - 1 {
                assert(row(src[i], dst, relation)[j] == edge_between(src[i], dst[j], relation));
            } else {
                assert(i * m + m <= (n - 1) * m) by (nonlinear_arith)
                    requires
                        0 <= i < n - 1,
                        0 <= m,
                ;
            }
        }
    }
}

/// A pair of segments gives the product of its leaves: one edge from each
/// source leaf to each target leaf, source by source, each with the relation
/// that the source expression calls for.
pub proof fn lemma_pair_edges(source: ExprView, target: ExprView)
    ensures
        pair_edges(source, target).len() == flat_leaves(source).len() * flat_leaves(target).len(),
        forall|i: int, j: int|
            0 <= i < flat_leaves(source).len() && 0 <= j < flat_leaves(target).len() ==> 0 <= i
                * flat_leaves(target).len() + j < pair_edges(source, target).len() && pair_edges(
                source,
                target,
            )[i * flat_leaves(target).len() + j] == edge_between(
                #[trigger] flat_leaves(source)[i],
                #[trigger] flat_leaves(target)[j],
                relation_of(source),
            ),
{
    let src = flat_leaves(source);
    lemma_rows_upto(src, flat_leaves(target), relation_of(source), src.len());
}

} // verus!
