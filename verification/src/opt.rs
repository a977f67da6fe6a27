//! The gradient-descent optimizer step.
//!
//! The step consumes the gradients a backward pass accumulated: each listed
//! parameter node's value moves against its gradient, scaled by the
//! learning rate.  Nothing else in the graph is touched, and no gradient is
//! reset — the caller resets gradients between iterations.

use crate::scalar::{lemma_wrap_absorb, lemma_wrapping_sub, wrap};
use crate::var::{same_structure, Graph, Var};
use vstd::prelude::*;

verus! {

/// The ids of the listed parameter nodes, in order.
pub open spec fn param_ids(params: Seq<Var>) -> Seq<int> {
    params.map_values(|v: Var| v@)
}

/// No node is listed twice.
pub open spec fn params_distinct(params: Seq<Var>) -> bool {
    forall|a: int, b: int|
        0 <= a < b < params.len() ==> (#[trigger] params[a])@ != (#[trigger] params[b])@
}

/// The values column after one update of parameter `p`: its value moves
/// against its gradient scaled by the learning rate, wrapped.
pub open spec fn step_update(vals: Seq<i64>, grads: Seq<i64>, p: int, lr: i64) -> Seq<i64> {
    vals.update(p, wrap(vals[p] - grads[p] * lr))
}

/// The values column after the first `n` listed parameters have been
/// updated, in list order.
pub open spec fn step_fold(vals: Seq<i64>, grads: Seq<i64>, params: Seq<Var>, lr: i64, n: int) -> Seq<
    i64,
>
    decreases n,
{
    if n <= 0 {
        vals
    } else {
        step_update(step_fold(vals, grads, params, lr, n - 1), grads, params[n - 1]@, lr)
    }
}

/// The fold never changes the length of the values column.
proof fn lemma_step_fold_len(vals: Seq<i64>, grads: Seq<i64>, params: Seq<Var>, lr: i64, n: int)
    requires
        forall|t: int| 0 <= t < n ==> 0 <= (#[trigger] params[t])@ < vals.len(),
    ensures
        step_fold(vals, grads, params, lr, n).len() == vals.len(),
    decreases n,
{
    if n > 0 {
        lemma_step_fold_len(vals, grads, params, lr, n - 1);
    }
}

/// A node listed by none of the first `n` parameters keeps its value.
proof fn lemma_step_fold_frame(
    vals: Seq<i64>,
    grads: Seq<i64>,
    params: Seq<Var>,
    lr: i64,
    n: int,
    i: int,
)
    requires
        0 <= i < vals.len(),
        forall|j: int| 0 <= j < n ==> (#[trigger] params[j])@ != i,
        forall|t: int| 0 <= t < n ==> 0 <= (#[trigger] params[t])@ < vals.len(),
    ensures
        step_fold(vals, grads, params, lr, n)[i] == vals[i],
    decreases n,
{
    if n > 0 {
        lemma_step_fold_frame(vals, grads, params, lr, n - 1, i);
        lemma_step_fold_len(vals, grads, params, lr, n - 1);
        assert(params[n - 1]@ != i);
    }
}

/// When no node is listed twice, each listed node's value after the fold
/// is its prior value moved once against its gradient.
proof fn lemma_step_fold_distinct(
    vals: Seq<i64>,
    grads: Seq<i64>,
    params: Seq<Var>,
    lr: i64,
    n: int,
    j: int,
)
    requires
        params_distinct(params),
        n <= params.len(),
        0 <= j < n,
        forall|t: int| 0 <= t < params.len() ==> 0 <= (#[trigger] params[t])@ < vals.len(),
    ensures
        step_fold(vals, grads, params, lr, n)[params[j]@] == wrap(
            vals[params[j]@] - grads[params[j]@] * lr,
        ),
    decreases n,
{
    lemma_step_fold_len(vals, grads, params, lr, n - 1);
    if j == n - 1 {
        lemma_step_fold_frame(vals, grads, params, lr, n - 1, params[j]@);
    } else {
        lemma_step_fold_distinct(vals, grads, params, lr, n - 1, j);
    }
}

/// Applies one vanilla gradient-descent update to each listed parameter, in
/// list order: the parameter's value becomes the wrapped value of
/// `value - gradient * lr`.  Gradients, the graph's shape and every other
/// node's value are untouched; the step performs no gradient reset.
pub fn step(g: &mut Graph, params: &Vec<Var>, lr: i64)
    requires
        old(g).wf(),
        forall|j: int| 0 <= j < params@.len() ==> (#[trigger] params@[j]).in_graph(old(g)),
    ensures
        final(g).wf(),
        same_structure(final(g), old(g)),
        final(g).grad_seq() == old(g).grad_seq(),
        final(g).val_seq() == step_fold(
            old(g).val_seq(),
            old(g).grad_seq(),
            params@,
            lr,
            params@.len() as int,
        ),
        forall|i: int|
            0 <= i < old(g).node_count() && !param_ids(params@).contains(i)
                ==> final(g).val_at(i) == old(g).val_at(i),
        params_distinct(params@) ==> forall|j: int|
            0 <= j < params@.len() ==> final(g).val_at((#[trigger] params@[j])@) == wrap(
                old(g).val_at(params@[j]@) - old(g).grad_at(params@[j]@) * lr,
            ),
{
    let ghost g0 = *old(g);
    let n = params.len();
    let mut j: usize = 0;
    while j < n
        invariant
            g.wf(),
            g0.wf(),
            same_structure(g, &g0),
            g.grad_seq() == g0.grad_seq(),
            g.val_seq() == step_fold(g0.val_seq(), g0.grad_seq(), params@, lr, j as int),
            forall|t: int| 0 <= t < params@.len() ==> (#[trigger] params@[t]).in_graph(&g0),
            n == params@.len(),
            j <= n,
        decreases n - j,
    {
        let p = params[j];
        proof {
            lemma_step_fold_len(g0.val_seq(), g0.grad_seq(), params@, lr, j as int);
        }
        let v = p.val(g);
        let d = p.grad(g).wrapping_mul(lr);
        let newval = v.wrapping_sub(d);
        proof {
            lemma_wrapping_sub(v, d);
            lemma_wrap_absorb(v as int, (g.grad_at(p@) * lr) as int);
            assert(d == wrap(g.grad_at(p@) * lr));
            assert(newval == wrap(v - g.grad_at(p@) * lr));
        }
        p.set_val(g, newval);
        proof {
            assert(g.val_seq() =~= step_fold(
                g0.val_seq(),
                g0.grad_seq(),
                params@,
                lr,
                j as int + 1,
            ));
        }
        j = j + 1;
    }
    proof {
        assert forall|i: int|
            0 <= i < g0.node_count() && !param_ids(params@).contains(i) implies g.val_at(i)
            == g0.val_at(i) by {
            assert forall|t: int| 0 <= t < params@.len() implies (#[trigger] params@[t])@ != i by {
                if params@[t]@ == i {
                    assert(param_ids(params@)[t] == i);
                }
            }
            lemma_step_fold_frame(g0.val_seq(), g0.grad_seq(), params@, lr, n as int, i);
        }
        if params_distinct(params@) {
            assert forall|j2: int| 0 <= j2 < params@.len() implies g.val_at(
                (#[trigger] params@[j2])@,
            ) == wrap(g0.val_at(params@[j2]@) - g0.grad_at(params@[j2]@) * lr) by {
                lemma_step_fold_distinct(
                    g0.val_seq(),
                    g0.grad_seq(),
                    params@,
                    lr,
                    n as int,
                    j2,
                );
            }
        }
    }
}

} // verus!
