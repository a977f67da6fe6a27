//! The backward pass: reverse-mode gradient propagation.
//!
//! Differentiating a root node seeds its gradient with `1`, computes the
//! topological order of its reachable subgraph and walks that order in
//! reverse, letting every derived node push its accumulated gradient into
//! its operands through its operation's backward rule.
//!
//! The result is pinned down by an order-free recurrence: the final
//! gradient of a node `i` below the root is the wrapped sum of its prior
//! gradient and one contribution per parent edge from every reachable
//! derived node `k` that uses `i` as an operand — the contribution being
//! `k`'s own final gradient put through `k`'s backward rule.  The
//! recurrence is well-founded because every edge descends to a strictly
//! smaller id.

use crate::ops::Op;
use crate::scalar::{lemma_wrap_absorb, lemma_wrap_absorb_mul, lemma_wrap_id, wrap};
use crate::var::{
    lemma_reach_bound, lemma_topo_same_structure, order_contains, order_contains_before, reach,
    same_structure, topo_ok, Graph, Var,
};
use vstd::prelude::*;

verus! {

/// The gradient a node starts the backward pass with: `1` at the root (the
/// derivative of the output with respect to itself), the node's prior
/// gradient everywhere else.
pub open spec fn seeded(g: &Graph, r: int, i: int) -> int {
    if i == r {
        1
    } else {
        g.grad_at(i) as int
    }
}

/// The gradient node `i` holds once the backward pass from root `r` is
/// complete.  The root ends at exactly `1`; every other node ends at the
/// wrapped sum of its prior gradient and the contributions of all
/// reachable derived nodes above it that use it as an operand.
pub open spec fn back_grad(g: &Graph, r: int, i: int) -> i64
    decreases r - i, 1int, 0int,
{
    if !(0 <= i <= r) {
        g.grad_at(i)
    } else if i == r {
        1
    } else {
        wrap(g.grad_at(i) + back_sum(g, r, i, i + 1))
    }
}

/// The total contribution into node `i` from the reachable nodes with ids
/// in `k .. r + 1`.
pub open spec fn back_sum(g: &Graph, r: int, i: int, k: int) -> int
    decreases r - i, 0int, r + 1 - k,
{
    if !(0 <= i < r && i < k <= r) {
        0
    } else {
        (if reach(g, r, k) {
            node_contrib(g, r, k, i)
        } else {
            0
        }) + back_sum(g, r, i, k + 1)
    }
}

/// The contribution node `k` pushes into node `i` when the backward pass
/// processes it: `k`'s final gradient put through its operation's backward
/// rule, once per parent edge of `k` that points at `i`.  A leaf pushes
/// nothing.
pub open spec fn node_contrib(g: &Graph, r: int, k: int, i: int) -> int
    decreases r - k, 1int, 1int,
{
    if !(0 <= k <= r) {
        0
    } else {
        match g.op_at(k) {
            Some(op) => {
                let t = back_grad(g, r, k);
                let a = g.val_at(g.parents_at(k)[0]);
                let b = g.val_at(g.parents_at(k)[1]);
                (if g.parents_at(k)[0] == i {
                    op.backward_spec_0(t, a, b) as int
                } else {
                    0
                }) + (if g.parents_at(k)[1] == i {
                    op.backward_spec_1(t, a, b) as int
                } else {
                    0
                })
            },
            None => 0,
        }
    }
}

/// The total contribution into node `i` from the order's positions
/// `q .. order.len()`, each position contributing what its node pushes
/// when processed.
pub open spec fn pos_sum(g: &Graph, r: int, order: Seq<Var>, q: int, i: int) -> int
    decreases order.len() - q,
{
    if !(0 <= q < order.len()) {
        0
    } else {
        node_contrib(g, r, order[q]@, i) + pos_sum(g, r, order, q + 1, i)
    }
}

/// The total contribution into node `i` from the nodes with ids in
/// `k .. r + 1` that the sequence `order` holds.
pub open spec fn id_sum(g: &Graph, r: int, order: Seq<Var>, i: int, k: int) -> int
    decreases r + 1 - k,
{
    if !(0 <= i < r && i < k <= r) {
        0
    } else {
        (if order_contains(order, k) {
            node_contrib(g, r, k, i)
        } else {
            0
        }) + id_sum(g, r, order, i, k + 1)
    }
}


/// Every parent of a node reachable from `r` is itself reachable from `r`.
pub proof fn lemma_reach_parent(g: &Graph, r: int, k: int, s: int)
    requires
        g.wf(),
        0 <= r < g.node_count(),
        0 <= k < g.node_count(),
        reach(g, r, k),
        0 <= s < g.parents_at(k).len(),
    ensures
        reach(g, r, g.parents_at(k)[s]),
    decreases r,
{
    assert(g.node_wf(k));
    let p = g.parents_at(k)[s];
    if r == k {
        assert(reach(g, p, p));
        assert(0 <= g.parents_at(k)[s] < k && reach(g, g.parents_at(k)[s], p));
    } else {
        let s2 = choose|s2: int|
            0 <= s2 < g.parents_at(r).len() && 0 <= #[trigger] g.parents_at(r)[s2] < r
                && reach(g, g.parents_at(r)[s2], k);
        lemma_reach_parent(g, g.parents_at(r)[s2], k, s);
        assert(0 <= g.parents_at(r)[s2] < r && reach(g, g.parents_at(r)[s2], p));
    }
}

/// A node pushes contributions only to strictly smaller ids: into `i >= k`
/// it pushes nothing.
pub proof fn lemma_contrib_low(g: &Graph, r: int, k: int, i: int)
    requires
        g.wf(),
        0 <= k < g.node_count(),
        i >= k,
    ensures
        node_contrib(g, r, k, i) == 0,
{
    assert(g.node_wf(k));
}

/// Appending one node to the order appends its contribution to the
/// position-sum.
proof fn lemma_pos_sum_push(g: &Graph, r: int, order: Seq<Var>, o: Var, q: int, i: int)
    requires
        0 <= q <= order.len(),
    ensures
        pos_sum(g, r, order.push(o), q, i) == pos_sum(g, r, order, q, i) + node_contrib(
            g,
            r,
            o@,
            i,
        ),
    decreases order.len() - q,
{
    if q == order.len() {
        assert(order.push(o)[q] == o);
        assert(pos_sum(g, r, order.push(o), q + 1, i) == 0);
    } else {
        assert(order.push(o)[q] == order[q]);
        lemma_pos_sum_push(g, r, order, o, q + 1, i);
    }
}

/// An order with no members sums to nothing.
proof fn lemma_id_sum_empty(g: &Graph, r: int, order: Seq<Var>, i: int, k: int)
    requires
        order.len() == 0,
    ensures
        id_sum(g, r, order, i, k) == 0,
    decreases r + 1 - k,
{
    if 0 <= i < r && i < k <= r {
        assert(!order_contains(order, k));
        lemma_id_sum_empty(g, r, order, i, k + 1);
    }
}

/// Removing one member from the order removes exactly its term from the
/// id-sum.
proof fn lemma_id_sum_toggle(
    g: &Graph,
    r: int,
    order: Seq<Var>,
    rest: Seq<Var>,
    o: Var,
    i: int,
    k: int,
)
    requires
        forall|j: int| order_contains(order, j) <==> (order_contains(rest, j) || j == o@),
        !order_contains(rest, o@),
        0 <= i < r,
        i < k <= r + 1,
    ensures
        id_sum(g, r, order, i, k) == id_sum(g, r, rest, i, k) + (if k <= o@ <= r {
            node_contrib(g, r, o@, i)
        } else {
            0
        }),
    decreases r + 1 - k,
{
    if k == r + 1 {
    } else {
        lemma_id_sum_toggle(g, r, order, rest, o, i, k + 1);
        if k == o@ {
            assert(order_contains(order, k));
            assert(!order_contains(rest, k));
        } else {
            assert(order_contains(order, k) <==> order_contains(rest, k));
        }
    }
}

/// The position-sum over a duplicate-free order of reachable nodes equals
/// the id-sum over its membership.
proof fn lemma_pos_eq_id(g: &Graph, r: int, order: Seq<Var>, i: int)
    requires
        g.wf(),
        0 <= r < g.node_count(),
        0 <= i < r,
        forall|p: int, q: int|
            0 <= p < q < order.len() ==> (#[trigger] order[p])@ != (#[trigger] order[q])@,
        forall|p: int|
            0 <= p < order.len() ==> 0 <= (#[trigger] order[p])@ < g.node_count() && reach(
                g,
                r,
                order[p]@,
            ),
    ensures
        pos_sum(g, r, order, 0, i) == id_sum(g, r, order, i, i + 1),
    decreases order.len(),
{
    if order.len() == 0 {
        lemma_id_sum_empty(g, r, order, i, i + 1);
    } else {
        let o = order.last();
        let rest = order.drop_last();
        assert(order =~= rest.push(o));
        lemma_pos_sum_push(g, r, rest, o, 0, i);
        assert(pos_sum(g, r, order, 0, i) == pos_sum(g, r, rest, 0, i) + node_contrib(
            g,
            r,
            o@,
            i,
        ));
        assert forall|p: int, q: int|
            0 <= p < q < rest.len() implies (#[trigger] rest[p])@ != (#[trigger] rest[q])@ by {
            assert(order[p] == rest[p] && order[q] == rest[q]);
        }
        assert forall|p: int|
            0 <= p < rest.len() implies 0 <= (#[trigger] rest[p])@ < g.node_count() && reach(
            g,
            r,
            rest[p]@,
        ) by {
            assert(order[p] == rest[p]);
        }
        lemma_pos_eq_id(g, r, rest, i);
        assert forall|j: int|
            order_contains(order, j) <==> (order_contains(rest, j) || j == o@) by {
            if order_contains(order, j) {
                let p = choose|p: int| 0 <= p < order.len() && (#[trigger] order[p])@ == j;
                if p < order.len() - 1 {
                    assert(rest[p]@ == j);
                    assert(order_contains(rest, j));
                }
            }
            if order_contains(rest, j) {
                let p = choose|p: int| 0 <= p < rest.len() && (#[trigger] rest[p])@ == j;
                assert(order[p]@ == j);
                assert(order_contains(order, j));
            }
            if j == o@ {
                assert(order[order.len() - 1]@ == j);
                assert(order_contains(order, j));
            }
        }
        assert(!order_contains(rest, o@)) by {
            if order_contains(rest, o@) {
                let p = choose|p: int| 0 <= p < rest.len() && (#[trigger] rest[p])@ == o@;
                assert(order[p]@ == order[order.len() - 1]@);
            }
        }
        lemma_id_sum_toggle(g, r, order, rest, o, i, i + 1);
        assert(reach(g, r, o@)) by {
            assert(order[order.len() - 1] == o);
        }
        lemma_reach_bound(g, r, o@);
        if o@ <= i {
            lemma_contrib_low(g, r, o@, i);
        }
    }
}

/// The id-sum over an order whose membership is exactly reachability from
/// `r` is the reachable sum of the backward recurrence.
proof fn lemma_id_eq_back(g: &Graph, r: int, order: Seq<Var>, i: int, k: int)
    requires
        0 <= r < g.node_count(),
        forall|j: int|
            0 <= j < g.node_count() ==> ((#[trigger] order_contains(order, j)) <==> reach(
                g,
                r,
                j,
            )),
    ensures
        id_sum(g, r, order, i, k) == back_sum(g, r, i, k),
    decreases r + 1 - k,
{
    if 0 <= i < r && i < k <= r {
        assert(order_contains(order, k) <==> reach(g, r, k));
        lemma_id_eq_back(g, r, order, i, k + 1);
    }
}

/// Below the position of a node in the order, no earlier position pushes
/// anything into it: all of a node's users stand at strictly later
/// positions than the node's parents, so its contributions are already
/// complete when the reverse walk reaches it.
proof fn lemma_pos_sum_settled(
    g: &Graph,
    r: int,
    order: Seq<Var>,
    qa: int,
    qb: int,
    k: int,
    qk: int,
)
    requires
        g.wf(),
        0 <= r < g.node_count(),
        topo_ok(g, r, order),
        0 <= qk < order.len(),
        order[qk]@ == k,
        0 <= qa <= qb <= qk + 1,
    ensures
        pos_sum(g, r, order, qa, k) == pos_sum(g, r, order, qb, k),
    decreases qb - qa,
{
    if qa < qb {
        let m = order[qa]@;
        assert(node_contrib(g, r, m, k) == 0) by {
            if 0 <= m <= r && g.op_at(m) is Some {
                assert(g.node_wf(m));
                if g.parents_at(m)[0] == k || g.parents_at(m)[1] == k {
                    let s: int = if g.parents_at(m)[0] == k {
                        0
                    } else {
                        1
                    };
                    assert(g.parents_at(order[qa]@)[s] == k);
                    assert(order_contains_before(order, k, qa));
                    let p = choose|p: int|
                        0 <= p < qa && p < order.len() && (#[trigger] order[p])@ == k;
                    assert(p < qk);
                    assert(order[p]@ == order[qk]@);
                }
            }
        }
        lemma_pos_sum_settled(g, r, order, qa + 1, qb, k, qk);
    }
}

/// Nothing ever pushes into the root.
proof fn lemma_pos_sum_root(g: &Graph, r: int, order: Seq<Var>, q: int)
    requires
        g.wf(),
        0 <= r < g.node_count(),
        topo_ok(g, r, order),
        0 <= q,
    ensures
        pos_sum(g, r, order, q, r) == 0,
    decreases order.len() - q,
{
    if q < order.len() {
        let m = order[q]@;
        assert(order_contains(order, m));
        assert(reach(g, r, m));
        lemma_reach_bound(g, r, m);
        lemma_contrib_low(g, r, m, r);
        lemma_pos_sum_root(g, r, order, q + 1);
    }
}


impl Var {
    /// Differentiates this node with respect to every node it reaches:
    /// seeds this node's gradient to `1` (the derivative of the output with
    /// respect to itself), computes the topological order of the reachable
    /// subgraph, and walks it in reverse so that every node's gradient is
    /// complete before the node pushes it into its operands.  On return,
    /// this node's gradient is exactly `1`, every other reachable node
    /// holds [`back_grad`] — its prior gradient plus the wrapped sum of the
    /// contributions along every edge that reaches it — and unreachable
    /// nodes, and all values, are untouched.
    #[verifier::rlimit(100)]
    pub fn backward(&self, g: &mut Graph)
        requires
            old(g).wf(),
            self.in_graph(old(g)),
        ensures
            final(g).wf(),
            same_structure(final(g), old(g)),
            final(g).val_seq() == old(g).val_seq(),
            final(g).grad_seq().len() == old(g).grad_seq().len(),
            final(g).grad_at(self@) == 1,
            forall|i: int|
                0 <= i < old(g).node_count() ==> final(g).grad_at(i) == (if reach(
                    old(g),
                    self@,
                    i,
                ) {
                    back_grad(old(g), self@, i)
                } else {
                    old(g).grad_at(i)
                }),
    {
        let ghost r = self@;
        let ghost g0 = *old(g);
        self.set_grad(g, 1);
        let order = self.topo_sort(g);
        proof {
            lemma_topo_same_structure(g, &g0, r, order@);
        }
        let n = order.len();
        let mut q: usize = n;
        proof {
            assert forall|i: int| 0 <= i < g0.node_count() implies #[trigger] g.grad_at(i) == (
                if reach(&g0, r, i) {
                wrap(seeded(&g0, r, i) + pos_sum(&g0, r, order@, n as int, i))
            } else {
                g0.grad_at(i)
            }) by {
                lemma_wrap_id(seeded(&g0, r, i));
            }
        }
        while q > 0
            invariant
                g.wf(),
                g0.wf(),
                0 <= r < g0.node_count(),
                r == self@,
                same_structure(g, &g0),
                g.val_seq() == g0.val_seq(),
                g.grad_seq().len() == g0.grad_seq().len(),
                n == order@.len(),
                q <= n,
                topo_ok(&g0, r, order@),
                forall|i: int|
                    0 <= i < g0.node_count() ==> #[trigger] g.grad_at(i) == (if reach(
                        &g0,
                        r,
                        i,
                    ) {
                        wrap(seeded(&g0, r, i) + pos_sum(&g0, r, order@, q as int, i))
                    } else {
                        g0.grad_at(i)
                    }),
            decreases q,
        {
            q = q - 1;
            let v = order[q];
            let ghost k = v@;
            let ghost qi = q as int;
            proof {
                assert(order@[qi]@ == k);
                assert(order_contains(order@, k));
                assert(reach(&g0, r, k));
                lemma_reach_bound(&g0, r, k);
                assert(0 <= k < g0.node_count());
                assert(g.grad_at(k) == wrap(seeded(&g0, r, k) + pos_sum(&g0, r, order@, qi + 1, k)));
            }
            let t = v.grad(g);
            proof {
                lemma_grad_is_final(&g0, r, order@, qi, k);
                assert(t == back_grad(&g0, r, k));
            }
            let o = v.op_of(g);
            match o {
                Some(op) => {
                    proof {
                        assert(g0.op_at(k) == Some(op));
                        assert(g0.node_wf(k));
                    }
                    let p0 = v.parent(g, 0);
                    let p1 = v.parent(g, 1);
                    let a = p0.value(g);
                    let b = p1.value(g);
                    let (d0, d1) = op.backward(t, a, b);
                    proof {
                        lemma_reach_parent(&g0, r, k, 0);
                        lemma_reach_parent(&g0, r, k, 1);
                        assert(p0@ == g0.parents_at(k)[0]);
                        assert(p1@ == g0.parents_at(k)[1]);
                        assert(reach(&g0, r, p0@));
                        assert(reach(&g0, r, p1@));
                        assert(0 <= p0@ < g0.node_count() && 0 <= p1@ < g0.node_count());
                    }
                    let ghost gmid = *g;
                    p0.add_grad(g, d0);
                    let ghost gmid2 = *g;
                    p1.add_grad(g, d1);
                    proof {
                        assert(g0.val_at(g0.parents_at(k)[0]) == a);
                        assert(g0.val_at(g0.parents_at(k)[1]) == b);
                        assert forall|i: int|
                            0 <= i < g0.node_count() implies #[trigger] g.grad_at(i) == (
                        if reach(&g0, r, i) {
                            wrap(seeded(&g0, r, i) + pos_sum(&g0, r, order@, qi, i))
                        } else {
                            g0.grad_at(i)
                        }) by {
                            let base = seeded(&g0, r, i);
                            let tail = pos_sum(&g0, r, order@, qi + 1, i);
                            assert(pos_sum(&g0, r, order@, qi, i) == node_contrib(&g0, r, k, i)
                                + tail);
                            if i == p0@ && i == p1@ {
                                assert(node_contrib(&g0, r, k, i) == d0 + d1);
                                assert(gmid.grad_at(i) == wrap(base + tail));
                                assert(gmid2.grad_at(i) == wrap(gmid.grad_at(i) + d0));
                                assert(gmid2.grad_at(i) == wrap(wrap(base + tail) + d0));
                                lemma_wrap_absorb(base + tail, d0 as int);
                                assert(g.grad_at(i) == wrap(wrap(base + tail + d0) + d1));
                                lemma_wrap_absorb(base + tail + d0, d1 as int);
                            } else if i == p0@ {
                                assert(node_contrib(&g0, r, k, i) == d0);
                                assert(g.grad_at(i) == wrap(wrap(base + tail) + d0));
                                lemma_wrap_absorb(base + tail, d0 as int);
                            } else if i == p1@ {
                                assert(node_contrib(&g0, r, k, i) == d1);
                                assert(gmid2.grad_at(i) == gmid.grad_at(i));
                                assert(gmid.grad_at(i) == wrap(base + tail));
                                assert(g.grad_at(i) == wrap(gmid2.grad_at(i) + d1));
                                assert(g.grad_at(i) == wrap(wrap(base + tail) + d1));
                                lemma_wrap_absorb(base + tail, d1 as int);
                            } else {
                                assert(node_contrib(&g0, r, k, i) == 0);
                                assert(g.grad_at(i) == gmid.grad_at(i));
                            }
                        }
                    }
                },
                None => {
                    proof {
                        assert(g0.op_at(k) is None);
                        assert forall|i: int|
                            0 <= i < g0.node_count() implies #[trigger] g.grad_at(i) == (
                        if reach(&g0, r, i) {
                            wrap(seeded(&g0, r, i) + pos_sum(&g0, r, order@, qi, i))
                        } else {
                            g0.grad_at(i)
                        }) by {
                            assert(node_contrib(&g0, r, k, i) == 0);
                            assert(pos_sum(&g0, r, order@, qi, i) == pos_sum(
                                &g0,
                                r,
                                order@,
                                qi + 1,
                                i,
                            ));
                        }
                    }
                },
            }
        }
        proof {
            assert forall|i: int|
                0 <= i < g0.node_count() implies #[trigger] g.grad_at(i) == (if reach(
                &g0,
                r,
                i,
            ) {
                back_grad(&g0, r, i)
            } else {
                g0.grad_at(i)
            }) by {
                if reach(&g0, r, i) {
                    lemma_reach_bound(&g0, r, i);
                    if i == r {
                        lemma_pos_sum_root(&g0, r, order@, 0);
                        lemma_wrap_id(1);
                    } else {
                        lemma_order_reachable(&g0, r, order@);
                        lemma_pos_eq_id(&g0, r, order@, i);
                        lemma_id_eq_back(&g0, r, order@, i, i + 1);
                    }
                }
            }
        }
    }
}

/// While the reverse walk stands at position `q` of the order, the node at
/// that position already holds its final gradient: all of its users stand
/// at later positions and have pushed their contributions.
proof fn lemma_grad_is_final(g0: &Graph, r: int, order: Seq<Var>, qi: int, k: int)
    requires
        g0.wf(),
        0 <= r < g0.node_count(),
        topo_ok(g0, r, order),
        0 <= qi < order.len(),
        order[qi]@ == k,
        0 <= k < g0.node_count(),
    ensures
        wrap(seeded(g0, r, k) + pos_sum(g0, r, order, qi + 1, k)) == back_grad(g0, r, k),
{
    assert(order_contains(order, k));
    assert(reach(g0, r, k));
    lemma_reach_bound(g0, r, k);
    lemma_pos_sum_settled(g0, r, order, 0, qi + 1, k, qi);
    if k == r {
        lemma_pos_sum_root(g0, r, order, qi + 1);
        lemma_wrap_id(1);
    } else {
        lemma_order_reachable(g0, r, order);
        lemma_pos_eq_id(g0, r, order, k);
        lemma_id_eq_back(g0, r, order, k, k + 1);
    }
}

/// Every member of a topological order from `r` is a valid, reachable id.
proof fn lemma_order_reachable(g0: &Graph, r: int, order: Seq<Var>)
    requires
        0 <= r < g0.node_count(),
        topo_ok(g0, r, order),
    ensures
        forall|p: int|
            0 <= p < order.len() ==> 0 <= (#[trigger] order[p])@ < g0.node_count() && reach(
                g0,
                r,
                order[p]@,
            ),
{
    assert forall|p: int|
        0 <= p < order.len() implies 0 <= (#[trigger] order[p])@ < g0.node_count() && reach(
        g0,
        r,
        order[p]@,
    ) by {
        assert(order_contains(order, order[p]@));
    }
}


/// The gradient law of addition.  For a sum node `z = x + y` over two
/// leaves, differentiating `z` leaves both operands with gradient exactly
/// `1`, whatever values the leaves hold.
pub proof fn law_backward_add(g: &Graph, x: Var, y: Var, z: Var)
    requires
        g.wf(),
        g.node_count() >= 3,
        x@ == 0,
        y@ == 1,
        z@ == 2,
        g.op_at(1) is None,
        g.op_at(2) == Some(Op::Add),
        g.parents_at(2) == seq![0int, 1int],
        g.grad_at(0) == 0,
        g.grad_at(1) == 0,
    ensures
        reach(g, z@, x@),
        reach(g, z@, y@),
        back_grad(g, z@, z@) == 1,
        back_grad(g, z@, x@) == 1,
        back_grad(g, z@, y@) == 1,
{
    assert(reach(g, 2, 0)) by {
        assert(0 <= g.parents_at(2)[0] < 2 && reach(g, g.parents_at(2)[0], 0));
    }
    assert(reach(g, 2, 1)) by {
        assert(0 <= g.parents_at(2)[1] < 2 && reach(g, g.parents_at(2)[1], 1));
    }
    assert(back_grad(g, 2, 2) == 1);
    assert(node_contrib(g, 2, 2, 0) == 1) by {
        assert(g.parents_at(2)[0] == 0 && g.parents_at(2)[1] == 1);
    }
    assert(node_contrib(g, 2, 2, 1) == 1) by {
        assert(g.parents_at(2)[0] == 0 && g.parents_at(2)[1] == 1);
    }
    assert(node_contrib(g, 2, 1, 0) == 0);
    assert(back_sum(g, 2, 0, 3) == 0);
    assert(back_sum(g, 2, 1, 3) == 0);
    assert(back_sum(g, 2, 1, 2) == 1);
    assert(back_sum(g, 2, 0, 2) == 1);
    assert(back_sum(g, 2, 0, 1) == 1);
    lemma_wrap_id(1);
    assert(back_grad(g, 2, 0) == wrap(0 + 1int));
    assert(back_grad(g, 2, 1) == wrap(0 + 1int));
}

/// The gradient law of multiplication.  For a product node `z = x * y`
/// over two distinct leaves, differentiating `z` leaves each operand with
/// exactly the other operand's value as its gradient, whatever values the
/// leaves hold.
pub proof fn law_backward_mul(g: &Graph, x: Var, y: Var, z: Var)
    requires
        g.wf(),
        g.node_count() >= 3,
        x@ == 0,
        y@ == 1,
        z@ == 2,
        g.op_at(1) is None,
        g.op_at(2) == Some(Op::Mul),
        g.parents_at(2) == seq![0int, 1int],
        g.grad_at(0) == 0,
        g.grad_at(1) == 0,
    ensures
        reach(g, z@, x@),
        reach(g, z@, y@),
        back_grad(g, z@, x@) == g.val_at(y@),
        back_grad(g, z@, y@) == g.val_at(x@),
{
    let a = g.val_at(0);
    let b = g.val_at(1);
    assert(reach(g, 2, 0)) by {
        assert(0 <= g.parents_at(2)[0] < 2 && reach(g, g.parents_at(2)[0], 0));
    }
    assert(reach(g, 2, 1)) by {
        assert(0 <= g.parents_at(2)[1] < 2 && reach(g, g.parents_at(2)[1], 1));
    }
    assert(back_grad(g, 2, 2) == 1);
    lemma_wrap_id(a as int);
    lemma_wrap_id(b as int);
    assert(node_contrib(g, 2, 2, 0) == b) by {
        assert(g.parents_at(2)[0] == 0 && g.parents_at(2)[1] == 1);
        assert(g.val_at(g.parents_at(2)[0]) == a && g.val_at(g.parents_at(2)[1]) == b);
        assert(Op::Mul.backward_spec_0(1, a, b) == wrap(b * 1));
        assert(b * 1 == b);
    }
    assert(node_contrib(g, 2, 2, 1) == a) by {
        assert(g.parents_at(2)[0] == 0 && g.parents_at(2)[1] == 1);
        assert(g.val_at(g.parents_at(2)[0]) == a && g.val_at(g.parents_at(2)[1]) == b);
        assert(Op::Mul.backward_spec_1(1, a, b) == wrap(a * 1));
        assert(a * 1 == a);
    }
    assert(node_contrib(g, 2, 1, 0) == 0);
    assert(back_sum(g, 2, 0, 3) == 0);
    assert(back_sum(g, 2, 1, 3) == 0);
    assert(back_sum(g, 2, 1, 2) == a);
    assert(back_sum(g, 2, 0, 2) == b);
    assert(back_sum(g, 2, 0, 1) == b);
    assert(back_grad(g, 2, 0) == wrap(0 + b));
    assert(back_grad(g, 2, 1) == wrap(0 + a));
}

/// The shared-operand accumulation law.  For a square node `z = x * x`,
/// whose two operand edges reach the same leaf, differentiating `z` leaves
/// the leaf with the wrapped sum of both edges' contributions,
/// `2 * x` — not one edge's worth — whatever value the leaf holds.
pub proof fn law_backward_square(g: &Graph, x: Var, z: Var)
    requires
        g.wf(),
        g.node_count() >= 2,
        x@ == 0,
        z@ == 1,
        g.op_at(1) == Some(Op::Mul),
        g.parents_at(1) == seq![0int, 0int],
        g.grad_at(0) == 0,
    ensures
        reach(g, z@, x@),
        back_grad(g, z@, x@) == wrap(2 * g.val_at(x@)),
{
    let a = g.val_at(0);
    assert(reach(g, 1, 0)) by {
        assert(0 <= g.parents_at(1)[0] < 1 && reach(g, g.parents_at(1)[0], 0));
    }
    assert(back_grad(g, 1, 1) == 1);
    lemma_wrap_id(a as int);
    assert(node_contrib(g, 1, 1, 0) == a + a) by {
        assert(g.parents_at(1)[0] == 0 && g.parents_at(1)[1] == 0);
        assert(g.val_at(g.parents_at(1)[0]) == a);
        assert(Op::Mul.backward_spec_0(1, a, a) == wrap(a * 1));
        assert(a * 1 == a);
    }
    assert(back_sum(g, 1, 0, 2) == 0);
    assert(back_sum(g, 1, 0, 1) == a + a);
    assert(back_grad(g, 1, 0) == wrap(0 + (a + a)));
    assert(wrap(0 + (a + a)) == wrap(2 * a));
}

/// The gradient of a squared difference.  Build `d = x + m` on two leaves
/// and square it into `l = d * d`; differentiating `l` leaves `x` with the
/// gradient `2 * (x + m)`, wrapped — for every pair of leaf values.  With
/// `m` holding the negated target, `l` is the squared loss
/// `(x - target) * (x - target)` and the gradient of `x` is
/// `2 * (x - target)`: what one gradient-descent iteration on that loss
/// consumes.
pub proof fn law_square_loss_gradient(g: &Graph, x: Var, m: Var, d: Var, l: Var)
    requires
        g.wf(),
        g.node_count() >= 4,
        x@ == 0,
        m@ == 1,
        d@ == 2,
        l@ == 3,
        g.op_at(1) is None,
        g.op_at(2) == Some(Op::Add),
        g.parents_at(2) == seq![0int, 1int],
        g.op_at(3) == Some(Op::Mul),
        g.parents_at(3) == seq![2int, 2int],
        g.grad_at(0) == 0,
        g.grad_at(2) == 0,
        g.val_at(2) == wrap(g.val_at(0) + g.val_at(1)),
    ensures
        reach(g, l@, x@),
        back_grad(g, l@, x@) == wrap(2 * (g.val_at(0) + g.val_at(1))),
{
    let w = g.val_at(2);
    assert(reach(g, 2, 2));
    assert(reach(g, 3, 2)) by {
        assert(0 <= g.parents_at(3)[0] < 3 && reach(g, g.parents_at(3)[0], 2));
    }
    assert(reach(g, 2, 0)) by {
        assert(0 <= g.parents_at(2)[0] < 2 && reach(g, g.parents_at(2)[0], 0));
    }
    assert(reach(g, 3, 0)) by {
        assert(0 <= g.parents_at(3)[0] < 3 && reach(g, g.parents_at(3)[0], 0));
    }
    assert(back_grad(g, 3, 3) == 1);
    lemma_wrap_id(w as int);
    assert(node_contrib(g, 3, 3, 2) == w + w) by {
        assert(g.val_at(g.parents_at(3)[0]) == w);
        assert(g.val_at(g.parents_at(3)[1]) == w);
        assert(Op::Mul.backward_spec_0(1, w, w) == wrap(w * 1));
        assert(w * 1 == w);
    }
    assert(back_sum(g, 3, 2, 4) == 0);
    assert(back_sum(g, 3, 2, 3) == w + w);
    assert(back_grad(g, 3, 2) == wrap(0 + (w + w)));
    assert(node_contrib(g, 3, 2, 0) == back_grad(g, 3, 2)) by {
        assert(g.parents_at(2)[0] == 0 && g.parents_at(2)[1] == 1);
        assert(Op::Add.backward_spec_0(back_grad(g, 3, 2), g.val_at(0), g.val_at(1))
            == back_grad(g, 3, 2));
    }
    assert(node_contrib(g, 3, 1, 0) == 0);
    assert(node_contrib(g, 3, 3, 0) == 0) by {
        assert(g.parents_at(3)[0] == 2 && g.parents_at(3)[1] == 2);
    }
    assert(back_sum(g, 3, 0, 4) == 0);
    assert(back_sum(g, 3, 0, 3) == 0);
    assert(back_sum(g, 3, 0, 2) == back_grad(g, 3, 2) + 0);
    assert(back_sum(g, 3, 0, 1) == back_grad(g, 3, 2) + 0);
    assert(back_grad(g, 3, 0) == wrap(0 + back_grad(g, 3, 2)));
    assert(w + w == 2 * w);
    assert(back_grad(g, 3, 2) == wrap(2 * w));
    lemma_wrap_absorb(0, 2 * w);
    assert(back_grad(g, 3, 0) == wrap(2 * w));
    lemma_wrap_absorb_mul(2, g.val_at(0) + g.val_at(1));
    assert(wrap(2 * w) == wrap(2 * (g.val_at(0) + g.val_at(1))));
}



} // verus!
