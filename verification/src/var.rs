//! The computation graph: an arena of nodes and the index handles into it.
//!
//! A [`Graph`] owns every node; a [`Var`] is a stable index into the arena,
//! so node identity is index identity.  A derived node records its operand
//! nodes ("parents") and its operation; because a new node can only point at
//! nodes that already exist, every parent index is strictly smaller than the
//! node's own index and the graph is acyclic by construction.  Only a node's
//! value and gradient ever change after construction; the shape of the graph
//! is immutable.

use crate::ops::Op;
use crate::scalar::{lemma_wrapping_add, wrap};
use vstd::prelude::*;

verus! {

/// A handle to one node of a [`Graph`]: its index in the arena.
///
/// Equality of handles is identity of nodes; two nodes holding the same
/// numeric value are still different nodes.
#[derive(Clone, Copy, PartialEq, Eq, Structural, Hash, Debug)]
pub struct Var {
    id: usize,
}

impl View for Var {
    type V = int;

    closed spec fn view(&self) -> int {
        self.id as int
    }
}

impl Var {
    /// Whether this handle points into `g`.
    pub open spec fn in_graph(&self, g: &Graph) -> bool {
        0 <= self@ < g.node_count()
    }
}

/// The arena that owns every node of one computation graph.
///
/// A node consists of a current value, an accumulated gradient, an optional
/// operation (absent exactly for leaf nodes) and the ordered operand handles
/// the operation was applied to.  The four fields of a node are stored in
/// parallel columns indexed by the node's id.
pub struct Graph {
    vals: Vec<i64>,
    grads: Vec<i64>,
    ops: Vec<Option<Op>>,
    parents: Vec<Vec<Var>>,
}

impl Graph {
    /// How many nodes the arena holds.
    pub closed spec fn node_count(&self) -> int {
        self.vals@.len() as int
    }

    /// The values of all nodes, by node id.
    pub closed spec fn val_seq(&self) -> Seq<i64> {
        self.vals@
    }

    /// The accumulated gradients of all nodes, by node id.
    pub closed spec fn grad_seq(&self) -> Seq<i64> {
        self.grads@
    }

    /// The operation of node `i`, `None` for a leaf.
    pub closed spec fn op_at(&self, i: int) -> Option<Op> {
        self.ops@[i]
    }

    /// The ordered operand ids of node `i`; empty for a leaf.
    pub closed spec fn parents_at(&self, i: int) -> Seq<int> {
        self.parents@[i]@.map_values(|v: Var| v@)
    }

    /// The current value of node `i`.
    pub open spec fn val_at(&self, i: int) -> i64 {
        self.val_seq()[i]
    }

    /// The accumulated gradient of node `i`.
    pub open spec fn grad_at(&self, i: int) -> i64 {
        self.grad_seq()[i]
    }

    /// The parallel columns of the arena agree in length.
    pub closed spec fn columns_ok(&self) -> bool {
        &&& self.grads@.len() == self.vals@.len()
        &&& self.ops@.len() == self.vals@.len()
        &&& self.parents@.len() == self.vals@.len()
    }

    /// Well-formedness of one node: a derived node has exactly as many
    /// parents as its operation's arity and every parent has a strictly
    /// smaller id; a leaf has none.
    pub open spec fn node_wf(&self, i: int) -> bool {
        match self.op_at(i) {
            Some(op) => {
                &&& self.parents_at(i).len() == op.arity()
                &&& forall|s: int|
                    0 <= s < self.parents_at(i).len() ==> 0 <= #[trigger] self.parents_at(i)[s] < i
            },
            None => self.parents_at(i).len() == 0,
        }
    }

    /// Well-formedness of the whole graph.
    pub open spec fn wf(&self) -> bool {
        &&& self.columns_ok()
        &&& self.val_seq().len() == self.node_count()
        &&& self.grad_seq().len() == self.node_count()
        &&& forall|i: int| 0 <= i < self.node_count() ==> #[trigger] self.node_wf(i)
    }

    /// Creates an empty graph.
    pub fn new() -> (g: Graph)
        ensures
            g.wf(),
            g.node_count() == 0,
    {
        Graph { vals: Vec::new(), grads: Vec::new(), ops: Vec::new(), parents: Vec::new() }
    }
}

/// The shape of the graph — node count, operations and parent edges — is
/// the same in `a` and `b`.
pub open spec fn same_structure(a: &Graph, b: &Graph) -> bool {
    &&& a.node_count() == b.node_count()
    &&& forall|i: int| 0 <= i < a.node_count() ==> #[trigger] a.op_at(i) == b.op_at(i)
    &&& forall|i: int| 0 <= i < a.node_count() ==> #[trigger] a.parents_at(i) == b.parents_at(i)
}

/// Nodes `0 .. n` of `a` and `b` agree in value, gradient, operation and
/// parent edges.
pub open spec fn nodes_eq_upto(a: &Graph, b: &Graph, n: int) -> bool {
    &&& forall|i: int| 0 <= i < n ==> #[trigger] a.val_at(i) == b.val_at(i)
    &&& forall|i: int| 0 <= i < n ==> #[trigger] a.grad_at(i) == b.grad_at(i)
    &&& forall|i: int| 0 <= i < n ==> #[trigger] a.op_at(i) == b.op_at(i)
    &&& forall|i: int| 0 <= i < n ==> #[trigger] a.parents_at(i) == b.parents_at(i)
}

impl Var {
    /// Creates a leaf node holding `val`: gradient `0`, no operation, no
    /// parents.  Existing nodes are untouched.
    pub fn new(g: &mut Graph, val: i64) -> (v: Var)
        requires
            old(g).wf(),
        ensures
            final(g).wf(),
            final(g).node_count() == old(g).node_count() + 1,
            v@ == old(g).node_count(),
            v.in_graph(final(g)),
            final(g).val_at(v@) == val,
            final(g).grad_at(v@) == 0,
            final(g).op_at(v@) is None,
            final(g).parents_at(v@) == Seq::<int>::empty(),
            nodes_eq_upto(final(g), old(g), old(g).node_count()),
    {
        let id = g.vals.len();
        g.vals.push(val);
        g.grads.push(0);
        g.ops.push(None);
        g.parents.push(Vec::new());
        proof {
            assert(g.parents_at(id as int) =~= Seq::<int>::empty());
            assert forall|i: int| 0 <= i < g.node_count() implies #[trigger] g.node_wf(i) by {
                if i < old(g).node_count() {
                    assert(old(g).node_wf(i));
                    assert(g.op_at(i) == old(g).op_at(i));
                    assert(g.parents_at(i) == old(g).parents_at(i));
                }
            }
        }
        Var { id }
    }

    /// The node's current value.
    pub fn value(&self, g: &Graph) -> (r: i64)
        requires
            self.in_graph(g),
            g.wf(),
        ensures
            r == g.val_at(self@),
    {
        g.vals[self.id]
    }

    /// The node's current value (alias of [`Var::value`]).
    pub fn val(&self, g: &Graph) -> (r: i64)
        requires
            self.in_graph(g),
            g.wf(),
        ensures
            r == g.val_at(self@),
    {
        g.vals[self.id]
    }

    /// The node's accumulated gradient.
    pub fn grad(&self, g: &Graph) -> (r: i64)
        requires
            self.in_graph(g),
            g.wf(),
        ensures
            r == g.grad_at(self@),
    {
        g.grads[self.id]
    }

    /// The node's operation, `None` for a leaf.
    pub(crate) fn op_of(&self, g: &Graph) -> (o: Option<Op>)
        requires
            self.in_graph(g),
            g.wf(),
        ensures
            o == g.op_at(self@),
    {
        g.ops[self.id]
    }

    /// The node's operand in the given slot.
    pub(crate) fn parent(&self, g: &Graph, s: usize) -> (p: Var)
        requires
            self.in_graph(g),
            g.wf(),
            s < g.parents_at(self@).len(),
        ensures
            p@ == g.parents_at(self@)[s as int],
    {
        g.parents[self.id][s]
    }

    /// Overwrites the node's value.  Nothing else changes.
    pub fn set_val(&self, g: &mut Graph, val: i64)
        requires
            self.in_graph(old(g)),
            old(g).wf(),
        ensures
            final(g).wf(),
            same_structure(final(g), old(g)),
            final(g).grad_seq() == old(g).grad_seq(),
            final(g).val_seq() == old(g).val_seq().update(self@, val),
    {
        g.vals.set(self.id, val);
        proof {
            lemma_shape_mutation_wf(*g, *old(g));
        }
    }

    /// Accumulates `delta` into the node's gradient: the new gradient is the
    /// wrapped sum of the old gradient and `delta`.  This accumulation — not
    /// overwriting — is what lets several downstream edges sum their
    /// contributions at a shared ancestor.  Nothing else changes.
    pub fn add_grad(&self, g: &mut Graph, delta: i64)
        requires
            self.in_graph(old(g)),
            old(g).wf(),
        ensures
            final(g).wf(),
            same_structure(final(g), old(g)),
            final(g).val_seq() == old(g).val_seq(),
            final(g).grad_seq() == old(g).grad_seq().update(
                self@,
                wrap(old(g).grad_at(self@) + delta),
            ),
    {
        let old_grad = g.grads[self.id];
        proof {
            lemma_wrapping_add(old_grad, delta);
        }
        g.grads.set(self.id, old_grad.wrapping_add(delta));
        proof {
            lemma_shape_mutation_wf(*g, *old(g));
        }
    }

    /// Overwrites the node's gradient; used to seed the root of a backward
    /// pass and by the reset.  Nothing else changes.
    pub(crate) fn set_grad(&self, g: &mut Graph, val: i64)
        requires
            self.in_graph(old(g)),
            old(g).wf(),
        ensures
            final(g).wf(),
            same_structure(final(g), old(g)),
            final(g).val_seq() == old(g).val_seq(),
            final(g).grad_seq() == old(g).grad_seq().update(self@, val),
    {
        g.grads.set(self.id, val);
        proof {
            lemma_shape_mutation_wf(*g, *old(g));
        }
    }

    /// The node's operand handles, in operand order; empty for a leaf.
    pub fn parents(&self, g: &Graph) -> (ps: Vec<Var>)
        requires
            self.in_graph(g),
            g.wf(),
        ensures
            ps@.len() == g.parents_at(self@).len(),
            forall|s: int| 0 <= s < ps@.len() ==> (#[trigger] ps@[s])@ == g.parents_at(self@)[s],
    {
        let src = &g.parents[self.id];
        let mut ps: Vec<Var> = Vec::new();
        let n = src.len();
        let mut s: usize = 0;
        while s < n
            invariant
                s <= n,
                n == src@.len(),
                src@ == g.parents@[self@]@,
                self.in_graph(g),
                g.wf(),
                ps@.len() == s,
                forall|t: int| 0 <= t < s ==> (#[trigger] ps@[t])@ == g.parents_at(self@)[t],
            decreases n - s,
        {
            ps.push(src[s]);
            s = s + 1;
        }
        ps
    }

    /// Applies `op` to the given operand nodes: allocates a new node whose
    /// value is `op`'s forward evaluation of the operands' current values,
    /// whose gradient is `0`, whose parents are exactly the operands in
    /// order, and whose operation is `op`.  Existing nodes are untouched.
    pub fn apply_op(g: &mut Graph, op: Op, operands: &Vec<Var>) -> (v: Var)
        requires
            old(g).wf(),
            operands@.len() == op.arity(),
            forall|s: int| 0 <= s < operands@.len() ==> (#[trigger] operands@[s]).in_graph(old(g)),
        ensures
            final(g).wf(),
            final(g).node_count() == old(g).node_count() + 1,
            v@ == old(g).node_count(),
            v.in_graph(final(g)),
            final(g).val_at(v@) == op.forward_spec(
                old(g).val_at(operands@[0]@) as int,
                old(g).val_at(operands@[1]@) as int,
            ),
            final(g).grad_at(v@) == 0,
            final(g).op_at(v@) == Some(op),
            final(g).parents_at(v@) == operands@.map_values(|o: Var| o@),
            nodes_eq_upto(final(g), old(g), old(g).node_count()),
    {
        let a = operands[0].value(g);
        let b = operands[1].value(g);
        let val = op.forward(a, b);
        let id = g.vals.len();
        let mut ps: Vec<Var> = Vec::new();
        ps.push(operands[0]);
        ps.push(operands[1]);
        g.vals.push(val);
        g.grads.push(0);
        g.ops.push(Some(op));
        g.parents.push(ps);
        proof {
            assert(g.parents_at(id as int) =~= operands@.map_values(|o: Var| o@));
            assert forall|i: int| 0 <= i < g.node_count() implies #[trigger] g.node_wf(i) by {
                if i < old(g).node_count() {
                    assert(old(g).node_wf(i));
                    assert(g.op_at(i) == old(g).op_at(i));
                    assert(g.parents_at(i) == old(g).parents_at(i));
                } else {
                    assert(g.parents_at(i)[0] == operands@[0]@);
                    assert(g.parents_at(i)[1] == operands@[1]@);
                }
            }
        }
        Var { id }
    }

    /// Builds the node `self + other`: a new addition node whose operands
    /// are `self` and `other`, with the wrapped sum of their current values.
    pub fn add(&self, g: &mut Graph, other: Var) -> (v: Var)
        requires
            old(g).wf(),
            self.in_graph(old(g)),
            other.in_graph(old(g)),
        ensures
            final(g).wf(),
            final(g).node_count() == old(g).node_count() + 1,
            v@ == old(g).node_count(),
            v.in_graph(final(g)),
            final(g).val_at(v@) == wrap(old(g).val_at(self@) + old(g).val_at(other@)),
            final(g).grad_at(v@) == 0,
            final(g).op_at(v@) == Some(Op::Add),
            final(g).parents_at(v@) == seq![self@, other@],
            nodes_eq_upto(final(g), old(g), old(g).node_count()),
    {
        let mut operands: Vec<Var> = Vec::new();
        operands.push(*self);
        operands.push(other);
        let v = Var::apply_op(g, Op::Add, &operands);
        proof {
            assert(g.parents_at(v@) =~= seq![self@, other@]);
        }
        v
    }

    /// Builds the node `self * other`: a new multiplication node whose
    /// operands are `self` and `other`, with the wrapped product of their
    /// current values.
    pub fn mul(&self, g: &mut Graph, other: Var) -> (v: Var)
        requires
            old(g).wf(),
            self.in_graph(old(g)),
            other.in_graph(old(g)),
        ensures
            final(g).wf(),
            final(g).node_count() == old(g).node_count() + 1,
            v@ == old(g).node_count(),
            v.in_graph(final(g)),
            final(g).val_at(v@) == wrap(old(g).val_at(self@) * old(g).val_at(other@)),
            final(g).grad_at(v@) == 0,
            final(g).op_at(v@) == Some(Op::Mul),
            final(g).parents_at(v@) == seq![self@, other@],
            nodes_eq_upto(final(g), old(g), old(g).node_count()),
    {
        let mut operands: Vec<Var> = Vec::new();
        operands.push(*self);
        operands.push(other);
        let v = Var::apply_op(g, Op::Mul, &operands);
        proof {
            assert(g.parents_at(v@) =~= seq![self@, other@]);
        }
        v
    }
}

/// A mutation that leaves the `ops` and `parents` columns and the node count
/// unchanged preserves well-formedness.
proof fn lemma_shape_mutation_wf(g: Graph, g0: Graph)
    requires
        g0.wf(),
        g.node_count() == g0.node_count(),
        g.ops@ == g0.ops@,
        g.parents@ == g0.parents@,
        g.vals@.len() == g0.vals@.len(),
        g.grads@.len() == g0.grads@.len(),
    ensures
        g.wf(),
        same_structure(&g, &g0),
{
    assert forall|i: int| 0 <= i < g.node_count() implies #[trigger] g.node_wf(i) by {
        assert(g0.node_wf(i));
        assert(g.op_at(i) == g0.op_at(i));
        assert(g.parents_at(i) == g0.parents_at(i));
    }
    assert forall|i: int| 0 <= i < g.node_count() implies #[trigger] g.parents_at(i) == g0.parents_at(
        i,
    ) by {}
}


/// Node `to` is reachable from node `from` along parent edges; a node
/// reaches itself.  Reachability only ever descends to strictly smaller
/// ids, since every parent edge does.
pub open spec fn reach(g: &Graph, from: int, to: int) -> bool
    decreases from,
{
    ||| from == to
    ||| exists|s: int|
        0 <= s < g.parents_at(from).len() && 0 <= #[trigger] g.parents_at(from)[s] < from
            && reach(g, g.parents_at(from)[s], to)
}

/// Whatever is reachable from `from` has an id no larger than `from`.
pub proof fn lemma_reach_bound(g: &Graph, from: int, to: int)
    requires
        reach(g, from, to),
    ensures
        to <= from,
    decreases from,
{
    if from != to {
        let s = choose|s: int|
            0 <= s < g.parents_at(from).len() && 0 <= #[trigger] g.parents_at(from)[s] < from
                && reach(g, g.parents_at(from)[s], to);
        lemma_reach_bound(g, g.parents_at(from)[s], to);
    }
}

/// Reachability in two graphs of the same structure is the same relation.
pub proof fn lemma_reach_same_structure(a: &Graph, b: &Graph, from: int, to: int)
    requires
        same_structure(a, b),
        0 <= from < a.node_count() || from == to,
        reach(a, from, to),
    ensures
        reach(b, from, to),
    decreases from,
{
    if from != to {
        let s = choose|s: int|
            0 <= s < a.parents_at(from).len() && 0 <= #[trigger] a.parents_at(from)[s] < from
                && reach(a, a.parents_at(from)[s], to);
        let p = a.parents_at(from)[s];
        if p != to {
            lemma_reach_same_structure(a, b, p, to);
        }
        assert(b.parents_at(from)[s] == p);
        assert(reach(b, b.parents_at(from)[s], to));
    }
}

/// The sequence `order` holds some node with id `i`.
pub open spec fn order_contains(order: Seq<Var>, i: int) -> bool {
    exists|p: int| 0 <= p < order.len() && (#[trigger] order[p])@ == i
}

/// The sequence `order` holds some node with id `i` before position `bound`.
pub open spec fn order_contains_before(order: Seq<Var>, i: int, bound: int) -> bool {
    exists|p: int| 0 <= p < bound && p < order.len() && (#[trigger] order[p])@ == i
}

/// The invariant tying a visited map to the order built so far: the order
/// holds exactly the visited nodes, each exactly once, and every node's
/// parents stand at strictly earlier positions than the node itself.
pub open spec fn order_ok(g: &Graph, visited: Seq<bool>, order: Seq<Var>) -> bool {
    &&& visited.len() == g.node_count()
    &&& forall|p: int| 0 <= p < order.len() ==> 0 <= (#[trigger] order[p])@ < g.node_count()
    &&& forall|p: int, q: int|
        0 <= p < q < order.len() ==> (#[trigger] order[p])@ != (#[trigger] order[q])@
    &&& forall|i: int| 0 <= i < g.node_count() ==> (#[trigger] visited[i] <==> order_contains(order, i))
    &&& forall|p: int, s: int|
        0 <= p < order.len() && 0 <= s < g.parents_at((#[trigger] order[p])@).len()
            ==> order_contains_before(order, #[trigger] g.parents_at(order[p]@)[s], p)
}

/// A well-formed order is closed under parents: every parent of a node the
/// order visits is visited too.
pub proof fn lemma_order_closed(g: &Graph, visited: Seq<bool>, order: Seq<Var>, i: int, s: int)
    requires
        order_ok(g, visited, order),
        0 <= i < g.node_count(),
        visited[i],
        0 <= s < g.parents_at(i).len(),
    ensures
        0 <= g.parents_at(i)[s] < g.node_count() ==> visited[g.parents_at(i)[s]],
{
    let p = choose|p: int| 0 <= p < order.len() && (#[trigger] order[p])@ == i;
    assert(order_contains_before(order, g.parents_at(order[p]@)[s], p));
    let q = choose|q: int|
        0 <= q < p && q < order.len() && (#[trigger] order[q])@ == g.parents_at(i)[s];
    assert(order_contains(order, g.parents_at(i)[s]));
}

/// Every node reachable from a visited node is visited, because the visited
/// set is closed under parents.
pub proof fn lemma_visited_reach(g: &Graph, visited: Seq<bool>, order: Seq<Var>, from: int, to: int)
    requires
        g.wf(),
        order_ok(g, visited, order),
        0 <= from < g.node_count(),
        visited[from],
        reach(g, from, to),
    ensures
        0 <= to < g.node_count(),
        visited[to],
    decreases from,
{
    if from != to {
        let s = choose|s: int|
            0 <= s < g.parents_at(from).len() && 0 <= #[trigger] g.parents_at(from)[s] < from
                && reach(g, g.parents_at(from)[s], to);
        lemma_order_closed(g, visited, order, from, s);
        lemma_visited_reach(g, visited, order, g.parents_at(from)[s], to);
    }
}

impl Var {
    /// Depth-first post-order traversal: recurses into the node's parents,
    /// then appends the node itself, skipping anything already visited.
    fn dfs(&self, g: &Graph, visited: &mut Vec<bool>, order: &mut Vec<Var>)
        requires
            g.wf(),
            self.in_graph(g),
            order_ok(g, old(visited)@, old(order)@),
        ensures
            order_ok(g, final(visited)@, final(order)@),
            final(visited)@[self@],
            forall|i: int| 0 <= i < g.node_count() && old(visited)@[i] ==> final(visited)@[i],
            forall|i: int|
                0 <= i < g.node_count() && final(visited)@[i] && !old(visited)@[i] ==> reach(
                    g,
                    self@,
                    i,
                ),
            old(order)@.is_prefix_of(final(order)@),
        decreases self@,
    {
        let id = self.id;
        let ghost id_int = id as int;
        if visited[id] {
            return ;
        }
        let ghost vis0 = visited@;
        let ghost ord0 = order@;
        let ps = &g.parents[id];
        let n = ps.len();
        let mut s: usize = 0;
        while s < n
            invariant
                g.wf(),
                0 <= id_int < g.node_count(),
                id_int == id as int,
                id_int == self@,
                self.in_graph(g),
                ps@ == g.parents@[id_int]@,
                n == ps@.len(),
                s <= n,
                order_ok(g, visited@, order@),
                !visited@[id_int],
                forall|i: int| 0 <= i < g.node_count() && vis0[i] ==> visited@[i],
                forall|i: int|
                    0 <= i < g.node_count() && visited@[i] && !vis0[i] ==> reach(g, id_int, i),
                forall|t: int| 0 <= t < s ==> visited@[#[trigger] g.parents_at(id_int)[t]],
                ord0.is_prefix_of(order@),
            decreases n - s,
        {
            let p = ps[s];
            proof {
                assert(g.node_wf(id_int));
                assert(g.parents_at(id_int)[s as int] == p@);
                assert(0 <= p@ < id_int);
            }
            let ghost vis_pre = visited@;
            let ghost ord_pre = order@;
            p.dfs(g, visited, order);
            proof {
                if visited@[id_int] {
                    assert(reach(g, p@, id_int));
                    lemma_reach_bound(g, p@, id_int);
                    assert(false);
                }
                assert forall|i: int|
                    0 <= i < g.node_count() && visited@[i] && !vis0[i] implies reach(
                    g,
                    id_int,
                    i,
                ) by {
                    if !vis_pre[i] {
                        assert(reach(g, p@, i));
                        assert(0 <= g.parents_at(id_int)[s as int] < id_int);
                        assert(reach(g, g.parents_at(id_int)[s as int], i));
                    }
                }
            }
            s = s + 1;
        }
        let ghost ord_pre = order@;
        let ghost vis_pre = visited@;
        order.push(Var { id });
        visited.set(id, true);
        proof {
            let ordn = order@;
            let visn = visited@;
            assert(ordn == ord_pre.push(Var { id }));
            assert(ordn[ordn.len() - 1]@ == id_int);
            // each id occurs at most once
            assert forall|p: int, q: int| 0 <= p < q < ordn.len() implies (#[trigger] ordn[p])@
                != (#[trigger] ordn[q])@ by {
                if q == ordn.len() - 1 {
                    if ordn[p]@ == id_int {
                        assert(order_contains(ord_pre, id_int));
                        assert(vis_pre[id_int]);
                    }
                } else {
                    assert(ord_pre[p]@ != ord_pre[q]@);
                }
            }
            // visited and order membership agree
            assert forall|i: int| 0 <= i < g.node_count() implies (#[trigger] visn[i]
                <==> order_contains(ordn, i)) by {
                if i == id_int {
                    assert(ordn[ordn.len() - 1]@ == i);
                } else {
                    if visn[i] {
                        assert(vis_pre[i]);
                        let p = choose|p: int|
                            0 <= p < ord_pre.len() && (#[trigger] ord_pre[p])@ == i;
                        assert(ordn[p]@ == i);
                    }
                    if order_contains(ordn, i) {
                        let p = choose|p: int| 0 <= p < ordn.len() && (#[trigger] ordn[p])@ == i;
                        assert(p < ordn.len() - 1);
                        assert(ord_pre[p]@ == i);
                        assert(order_contains(ord_pre, i));
                    }
                }
            }
            // parents stand strictly earlier in the order
            assert forall|p: int, s2: int|
                0 <= p < ordn.len() && 0 <= s2 < g.parents_at((#[trigger] ordn[p])@).len()
                    implies order_contains_before(
                ordn,
                #[trigger] g.parents_at(ordn[p]@)[s2],
                p,
            ) by {
                if p < ordn.len() - 1 {
                    assert(order_contains_before(ord_pre, g.parents_at(ord_pre[p]@)[s2], p));
                    let q = choose|q: int|
                        0 <= q < p && q < ord_pre.len() && (#[trigger] ord_pre[q])@
                            == g.parents_at(ord_pre[p]@)[s2];
                    assert(ordn[q]@ == g.parents_at(ordn[p]@)[s2]);
                } else {
                    assert(ordn[p]@ == id_int);
                    assert(vis_pre[#[trigger] g.parents_at(id_int)[s2]]);
                    let x = g.parents_at(id_int)[s2];
                    assert(g.node_wf(id_int));
                    assert(0 <= x < g.node_count());
                    assert(order_contains(ord_pre, x));
                    let q = choose|q: int| 0 <= q < ord_pre.len() && (#[trigger] ord_pre[q])@ == x;
                    assert(ordn[q]@ == x);
                }
            }
            // everything newly visited is reachable from this node
            assert forall|i: int|
                0 <= i < g.node_count() && visn[i] && !vis0[i] implies reach(g, id_int, i) by {
                if i != id_int {
                    assert(vis_pre[i]);
                }
            }
        }
    }

    /// The topological order of the subgraph reachable from this node:
    /// exactly the reachable nodes, each exactly once, every node after all
    /// of its parents.  Consumed back-to-front it yields each node before
    /// any of its parents.
    pub fn topo_sort(&self, g: &Graph) -> (order: Vec<Var>)
        requires
            g.wf(),
            self.in_graph(g),
        ensures
            topo_ok(g, self@, order@),
    {
        let mut order: Vec<Var> = Vec::new();
        let mut visited: Vec<bool> = Vec::new();
        let n = g.vals.len();
        let mut k: usize = 0;
        while k < n
            invariant
                n == g.node_count(),
                k <= n,
                visited@.len() == k,
                forall|i: int| 0 <= i < k ==> !(#[trigger] visited@[i]),
            decreases n - k,
        {
            visited.push(false);
            k = k + 1;
        }
        proof {
            assert forall|i: int| 0 <= i < g.node_count() implies (#[trigger] visited@[i]
                <==> order_contains(order@, i)) by {
                assert(!visited@[i]);
                if order_contains(order@, i) {
                    let p = choose|p: int| 0 <= p < order@.len() && (#[trigger] order@[p])@ == i;
                }
            }
        }
        self.dfs(g, &mut visited, &mut order);
        proof {
            assert forall|i: int| 0 <= i < g.node_count() implies ((#[trigger] order_contains(
                order@,
                i,
            )) <==> reach(g, self@, i)) by {
                if order_contains(order@, i) {
                    assert(visited@[i]);
                }
                if reach(g, self@, i) {
                    lemma_visited_reach(g, visited@, order@, self@, i);
                }
            }
        }
        order
    }

    /// Resets this node's gradient and the gradient of every node reachable
    /// from it (its whole ancestor subgraph) to `0`; every other node, and
    /// every value, is untouched.
    pub fn zero_grad(&self, g: &mut Graph)
        requires
            old(g).wf(),
            self.in_graph(old(g)),
        ensures
            final(g).wf(),
            same_structure(final(g), old(g)),
            final(g).val_seq() == old(g).val_seq(),
            final(g).grad_seq().len() == old(g).grad_seq().len(),
            forall|i: int|
                0 <= i < old(g).node_count() ==> final(g).grad_at(i) == (if reach(
                    old(g),
                    self@,
                    i,
                ) {
                    0i64
                } else {
                    old(g).grad_at(i)
                }),
    {
        let order = self.topo_sort(g);
        let n = order.len();
        let mut k: usize = 0;
        while k < n
            invariant
                g.wf(),
                self.in_graph(g),
                n == order@.len(),
                k <= n,
                topo_ok(g, self@, order@),
                same_structure(g, old(g)),
                g.val_seq() == old(g).val_seq(),
                g.grad_seq().len() == old(g).grad_seq().len(),
                forall|i: int|
                    0 <= i < g.node_count() ==> #[trigger] g.grad_at(i) == (
                    if order_contains_before(order@, i, k as int) {
                        0i64
                    } else {
                        old(g).grad_at(i)
                    }),
            decreases n - k,
        {
            let v = order[k];
            let ghost gpre = *g;
            v.set_grad(g, 0);
            proof {
                assert forall|i: int| 0 <= i < g.node_count() implies #[trigger] g.grad_at(i) == (
                    if order_contains_before(order@, i, k + 1) {
                    0i64
                } else {
                    old(g).grad_at(i)
                }) by {
                    if i == v@ {
                        assert(order@[k as int]@ == i);
                        assert(order_contains_before(order@, i, k + 1));
                    } else {
                        assert(g.grad_at(i) == gpre.grad_at(i));
                        if order_contains_before(order@, i, k + 1) {
                            let p = choose|p: int|
                                0 <= p < k + 1 && p < order@.len() && (#[trigger] order@[p])@ == i;
                            assert(p < k);
                            assert(order_contains_before(order@, i, k as int));
                        } else {
                            if order_contains_before(order@, i, k as int) {
                                let p = choose|p: int|
                                    0 <= p < k && p < order@.len() && (#[trigger] order@[p])@
                                        == i;
                                assert(order_contains_before(order@, i, k + 1));
                            }
                        }
                    }
                }
                lemma_topo_same_structure(&gpre, g, self@, order@);
            }
            k = k + 1;
        }
        proof {
            assert forall|i: int| 0 <= i < old(g).node_count() implies #[trigger] g.grad_at(i) == (
                if reach(old(g), self@, i) {
                0i64
            } else {
                old(g).grad_at(i)
            }) by {
                if reach(old(g), self@, i) {
                    lemma_reach_same_structure(old(g), g, self@, i);
                    assert(order_contains(order@, i));
                    let p = choose|p: int| 0 <= p < order@.len() && (#[trigger] order@[p])@ == i;
                    assert(order_contains_before(order@, i, n as int));
                } else {
                    if order_contains_before(order@, i, n as int) {
                        let p = choose|p: int|
                            0 <= p < n && p < order@.len() && (#[trigger] order@[p])@ == i;
                        assert(order_contains(order@, i));
                        assert(reach(g, self@, i));
                        lemma_reach_same_structure(g, old(g), self@, i);
                    }
                }
            }
        }
    }
}

/// What [`Var::topo_sort`] guarantees of the order it returns: valid ids,
/// no node twice, membership is exactly reachability from `root`, and every
/// node's parents stand at strictly earlier positions.
pub open spec fn topo_ok(g: &Graph, root: int, order: Seq<Var>) -> bool {
    &&& forall|p: int| 0 <= p < order.len() ==> 0 <= (#[trigger] order[p])@ < g.node_count()
    &&& forall|p: int, q: int|
        0 <= p < q < order.len() ==> (#[trigger] order[p])@ != (#[trigger] order[q])@
    &&& forall|i: int|
        0 <= i < g.node_count() ==> ((#[trigger] order_contains(order, i)) <==> reach(g, root, i))
    &&& forall|p: int, s: int|
        0 <= p < order.len() && 0 <= s < g.parents_at((#[trigger] order[p])@).len()
            ==> order_contains_before(order, #[trigger] g.parents_at(order[p]@)[s], p)
}

/// A topological order stays valid under mutations that keep the graph's
/// structure.
pub proof fn lemma_topo_same_structure(a: &Graph, b: &Graph, root: int, order: Seq<Var>)
    requires
        same_structure(a, b),
        0 <= root < a.node_count(),
        topo_ok(a, root, order),
    ensures
        topo_ok(b, root, order),
{
    assert forall|i: int|
        0 <= i < b.node_count() implies ((#[trigger] order_contains(order, i)) <==> reach(
        b,
        root,
        i,
    )) by {
        if order_contains(order, i) {
            assert(reach(a, root, i));
            lemma_reach_same_structure(a, b, root, i);
        }
        if reach(b, root, i) {
            lemma_reach_same_structure(b, a, root, i);
        }
    }
    assert forall|p: int, s: int|
        0 <= p < order.len() && 0 <= s < b.parents_at((#[trigger] order[p])@).len()
            implies order_contains_before(order, #[trigger] b.parents_at(order[p]@)[s], p) by {
        assert(a.parents_at(order[p]@) == b.parents_at(order[p]@));
        assert(order_contains_before(order, a.parents_at(order[p]@)[s], p));
    }
}

} // verus!
