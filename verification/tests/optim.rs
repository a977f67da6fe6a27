use autograd::opt::step;
use autograd::var::{Graph, Var};

#[test]
fn step_moves_each_parameter_against_its_gradient() {
    let mut g = Graph::new();
    let x = Var::new(&mut g, 10);
    let y = Var::new(&mut g, -4);
    x.add_grad(&mut g, 3);
    y.add_grad(&mut g, -2);
    step(&mut g, &vec![x, y], 2);
    assert_eq!(x.value(&g), 4);
    assert_eq!(y.value(&g), 0);
    assert_eq!(x.grad(&g), 3);
    assert_eq!(y.grad(&g), -2);
}

#[test]
fn step_with_no_parameters_changes_nothing() {
    let mut g = Graph::new();
    let x = Var::new(&mut g, 10);
    x.add_grad(&mut g, 3);
    step(&mut g, &Vec::new(), 5);
    assert_eq!(x.value(&g), 10);
    assert_eq!(x.grad(&g), 3);
}

#[test]
fn step_touches_only_the_listed_nodes() {
    let mut g = Graph::new();
    let x = Var::new(&mut g, 10);
    let y = Var::new(&mut g, 20);
    x.add_grad(&mut g, 1);
    y.add_grad(&mut g, 1);
    step(&mut g, &vec![x], 1);
    assert_eq!(x.value(&g), 9);
    assert_eq!(y.value(&g), 20);
}

#[test]
fn step_applies_once_per_listing() {
    let mut g = Graph::new();
    let x = Var::new(&mut g, 10);
    x.add_grad(&mut g, 3);
    step(&mut g, &vec![x, x], 1);
    assert_eq!(x.value(&g), 4);
}

#[test]
fn one_training_iteration_reduces_a_squared_loss() {
    let mut g = Graph::new();
    // loss = (x + (-target))^2 with x = 10, target = 4
    let x = Var::new(&mut g, 10);
    let neg_target = Var::new(&mut g, -4);
    let diff = x.add(&mut g, neg_target);
    let loss = diff.mul(&mut g, diff);
    assert_eq!(loss.value(&g), 36);
    loss.backward(&mut g);
    assert_eq!(x.grad(&g), 12);
    // an integer learning rate cannot stay below one, so a single unit step
    // overshoots monotone convergence; it still moves x against the gradient
    step(&mut g, &vec![x], 1);
    assert_eq!(x.value(&g), -2);
}
