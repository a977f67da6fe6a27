use autograd::ops::Op;
use autograd::var::{Graph, Var};

#[test]
fn test_into() {
    let mut g = Graph::new();
    let var = Var::new(&mut g, 3);
    assert_eq!(var.value(&g), 3);
}

#[test]
fn test_add_sets_parents() {
    let mut g = Graph::new();
    let x = Var::new(&mut g, 2);
    let y = Var::new(&mut g, 3);
    let z = x.add(&mut g, y);

    let parents = z.parents(&g);
    assert_eq!(parents.len(), 2);
    assert_eq!(parents[0].value(&g), 2);
    assert_eq!(parents[1].value(&g), 3);
}

#[test]
fn test_backwards_sum() {
    let mut g = Graph::new();
    let x = Var::new(&mut g, 2);
    let y = Var::new(&mut g, 3);
    let z = x.add(&mut g, y);
    z.backward(&mut g);
    assert_eq!(x.grad(&g), 1);
    assert_eq!(y.grad(&g), 1);
}

#[test]
fn leaf_holds_value_and_zero_gradient() {
    let mut g = Graph::new();
    for v in [0i64, 1, -1, 42, -1000, i64::MAX, i64::MIN] {
        let leaf = Var::new(&mut g, v);
        assert_eq!(leaf.value(&g), v);
        assert_eq!(leaf.val(&g), v);
        assert_eq!(leaf.grad(&g), 0);
    }
}

#[test]
fn forward_values_of_add_and_mul() {
    let mut g = Graph::new();
    let x = Var::new(&mut g, 2);
    let y = Var::new(&mut g, 3);
    let s = x.add(&mut g, y);
    let p = x.mul(&mut g, y);
    assert_eq!(s.value(&g), 5);
    assert_eq!(p.value(&g), 6);
}

#[test]
fn apply_op_records_operands_in_order() {
    let mut g = Graph::new();
    let x = Var::new(&mut g, 7);
    let y = Var::new(&mut g, 5);
    let p = Var::apply_op(&mut g, Op::Mul, &vec![x, y]);
    assert_eq!(p.value(&g), 35);
    let parents = p.parents(&g);
    assert_eq!(parents.len(), 2);
    assert!(parents[0] == x);
    assert!(parents[1] == y);
}

#[test]
fn backward_mul_gives_each_operand_the_other_value() {
    let mut g = Graph::new();
    let x = Var::new(&mut g, 2);
    let y = Var::new(&mut g, 3);
    let z = x.mul(&mut g, y);
    z.backward(&mut g);
    assert_eq!(x.grad(&g), 3);
    assert_eq!(y.grad(&g), 2);
    assert_eq!(z.grad(&g), 1);
}

#[test]
fn shared_operand_sums_both_edges() {
    let mut g = Graph::new();
    let x = Var::new(&mut g, 5);
    let z = x.mul(&mut g, x);
    z.backward(&mut g);
    assert_eq!(z.value(&g), 25);
    assert_eq!(x.grad(&g), 10);
}

#[test]
fn shared_subexpression_is_visited_once_and_accumulates() {
    let mut g = Graph::new();
    let x = Var::new(&mut g, 2);
    let y = Var::new(&mut g, 3);
    let s = x.mul(&mut g, y);
    let t = s.add(&mut g, s);
    let order = t.topo_sort(&g);
    assert_eq!(order.len(), 4);
    assert!(order[3] == t);
    t.backward(&mut g);
    assert_eq!(s.grad(&g), 2);
    assert_eq!(x.grad(&g), 6);
    assert_eq!(y.grad(&g), 4);
}

#[test]
fn equal_valued_leaves_stay_distinct_nodes() {
    let mut g = Graph::new();
    let x = Var::new(&mut g, 5);
    let y = Var::new(&mut g, 5);
    assert!(x != y);
    let z = x.mul(&mut g, y);
    z.backward(&mut g);
    assert_eq!(x.grad(&g), 5);
    assert_eq!(y.grad(&g), 5);
}

#[test]
fn topo_order_puts_parents_first() {
    let mut g = Graph::new();
    let x = Var::new(&mut g, 5);
    let z = x.mul(&mut g, x);
    let order = z.topo_sort(&g);
    assert_eq!(order.len(), 2);
    assert!(order[0] == x);
    assert!(order[1] == z);
}

#[test]
fn backward_accumulates_on_prior_gradients() {
    let mut g = Graph::new();
    let x = Var::new(&mut g, 2);
    let y = Var::new(&mut g, 3);
    let z = x.mul(&mut g, y);
    z.backward(&mut g);
    z.backward(&mut g);
    assert_eq!(x.grad(&g), 6);
    assert_eq!(y.grad(&g), 4);
    assert_eq!(z.grad(&g), 1);
}

#[test]
fn zero_grad_resets_the_reachable_subgraph_only() {
    let mut g = Graph::new();
    let x = Var::new(&mut g, 2);
    let y = Var::new(&mut g, 3);
    let other = Var::new(&mut g, 9);
    other.add_grad(&mut g, 7);
    let s = x.add(&mut g, y);
    let z = s.mul(&mut g, x);
    z.backward(&mut g);
    assert!(x.grad(&g) != 0);
    z.zero_grad(&mut g);
    assert_eq!(z.grad(&g), 0);
    assert_eq!(s.grad(&g), 0);
    assert_eq!(x.grad(&g), 0);
    assert_eq!(y.grad(&g), 0);
    assert_eq!(other.grad(&g), 7);
}

#[test]
fn zero_grad_on_a_leaf() {
    let mut g = Graph::new();
    let x = Var::new(&mut g, 4);
    x.add_grad(&mut g, 11);
    assert_eq!(x.grad(&g), 11);
    x.zero_grad(&mut g);
    assert_eq!(x.grad(&g), 0);
}

#[test]
fn add_grad_accumulates_and_set_val_overwrites() {
    let mut g = Graph::new();
    let x = Var::new(&mut g, 1);
    x.add_grad(&mut g, 4);
    x.add_grad(&mut g, -1);
    assert_eq!(x.grad(&g), 3);
    x.set_val(&mut g, 17);
    assert_eq!(x.value(&g), 17);
    assert_eq!(x.grad(&g), 3);
}

#[test]
fn arithmetic_wraps_around_the_i64_range() {
    let mut g = Graph::new();
    let a = Var::new(&mut g, i64::MAX);
    let one = Var::new(&mut g, 1);
    let s = a.add(&mut g, one);
    assert_eq!(s.value(&g), i64::MIN);

    let b = Var::new(&mut g, i64::MAX);
    let two = Var::new(&mut g, 2);
    let p = b.mul(&mut g, two);
    assert_eq!(p.value(&g), -2);

    let c = Var::new(&mut g, 0);
    c.add_grad(&mut g, i64::MAX);
    c.add_grad(&mut g, i64::MAX);
    assert_eq!(c.grad(&g), -2);
}
