use dezero::function::{exp, square, Add, Exp, Square};
use dezero::scalar::Scalar;
use dezero::tape::{OpKind, Tape, Variable};
use ndarray::{arr0, Array, Array0};
use ndarray_rand::rand_distr::Uniform;
use ndarray_rand::RandomExt;

#[derive(Clone, Debug, PartialEq)]
struct Data(Array0<f64>);

impl Scalar for Data {
    fn ones_like(&self) -> Self {
        Data(Array::ones(self.0.raw_dim()))
    }

    fn plus(&self, other: &Self) -> Self {
        Data(&self.0 + &other.0)
    }

    fn times(&self, other: &Self) -> Self {
        Data(&self.0 * &other.0)
    }

    fn twice(&self) -> Self {
        Data(2.0 * &self.0)
    }

    fn exp(&self) -> Self {
        Data(self.0.mapv(f64::exp))
    }
}

fn leaf(tape: &mut Tape<Data>, x: f64) -> Variable {
    Variable::new(tape, Data(arr0(x)))
}

fn value(tape: &Tape<Data>, x: &Variable) -> f64 {
    x.get_data(tape).0.into_scalar()
}

fn gradient(tape: &Tape<Data>, x: &Variable) -> f64 {
    x.get_grad(tape).unwrap().0.into_scalar()
}

fn numerical_diff(f: fn(&mut Tape<Data>, &Variable) -> Variable, x: Array0<f64>) -> Array0<f64> {
    let e = arr0(1e-4);
    let mut tape: Tape<Data> = Tape::new();
    let x0 = Variable::new(&mut tape, Data(&x - &e));
    let x1 = Variable::new(&mut tape, Data(&x + &e));
    let y0 = f(&mut tape, &x0);
    let y1 = f(&mut tape, &x1);
    (y1.get_data(&tape).0 - y0.get_data(&tape).0) / (2.0 * e)
}

#[test]
fn test_forward() {
    let mut tape: Tape<Data> = Tape::new();
    let x = Variable::new(&mut tape, Data(arr0(2.0)));
    let y = square(&mut tape, &x);
    let expected = arr0(4.0);
    assert_eq!(y.get_data(&tape).0, expected);
}

#[test]
fn test_backward() {
    let mut tape: Tape<Data> = Tape::new();
    let x = Variable::new(&mut tape, Data(arr0(3.0)));
    let y = square(&mut tape, &x);
    y.backward(&mut tape);
    let expected = arr0(6.0);
    assert_eq!(x.get_grad(&tape).unwrap().0, expected);
}

#[test]
fn test_gradient_check() {
    let arr = Array::random((), Uniform::new(0., 1.));
    let mut tape: Tape<Data> = Tape::new();
    let x = Variable::new(&mut tape, Data(arr.clone()));
    let y = square(&mut tape, &x);
    y.backward(&mut tape);
    let num_grad = numerical_diff(square, arr);
    assert!(x.get_grad(&tape).unwrap().0.abs_diff_eq(&num_grad, 1e-6));
}

#[test]
fn new_variable_is_a_leaf_without_gradient() {
    let mut tape: Tape<Data> = Tape::new();
    let x = leaf(&mut tape, 1.25);
    let y = leaf(&mut tape, -7.0);
    assert_eq!(tape.vars_len(), 2);
    assert_eq!(tape.funcs_len(), 0);
    assert_eq!(x.id(), 0);
    assert_eq!(y.id(), 1);
    assert!(tape.contains(&x));
    assert_eq!(value(&tape, &x), 1.25);
    assert_eq!(value(&tape, &y), -7.0);
    assert_eq!(x.get_grad(&tape), None);
    assert_eq!(tape.generation_of(x.id()), 0);
}

#[test]
fn handle_of_a_longer_tape_is_not_held() {
    let mut long: Tape<Data> = Tape::new();
    leaf(&mut long, 1.0);
    let second = leaf(&mut long, 2.0);
    let mut short: Tape<Data> = Tape::new();
    leaf(&mut short, 1.0);
    assert!(long.contains(&second));
    assert!(!short.contains(&second));
}

#[test]
fn set_and_clear_grad() {
    let mut tape: Tape<Data> = Tape::new();
    let x = leaf(&mut tape, 1.0);
    x.set_grad(&mut tape, Data(arr0(5.0)));
    assert_eq!(gradient(&tape, &x), 5.0);
    x.set_grad(&mut tape, Data(arr0(-2.0)));
    assert_eq!(gradient(&tape, &x), -2.0);
    x.clear_grad(&mut tape);
    assert_eq!(x.get_grad(&tape), None);
    assert_eq!(value(&tape, &x), 1.0);
}

#[test]
fn square_and_exp_values() {
    let mut tape: Tape<Data> = Tape::new();
    let x = leaf(&mut tape, -3.0);
    let y = square(&mut tape, &x);
    assert_eq!(value(&tape, &y), 9.0);
    let z = exp(&mut tape, &x);
    assert_eq!(value(&tape, &z), (-3.0f64).exp());
    let w = dezero::function::add(&mut tape, &y, &x);
    assert_eq!(value(&tape, &w), 6.0);
}

#[test]
fn operator_count_of_inputs() {
    assert_eq!(OpKind::Square.input_count(), 1);
    assert_eq!(OpKind::Exp.input_count(), 1);
    assert_eq!(OpKind::Add.input_count(), 2);
}

#[test]
fn generations_grow_along_the_graph() {
    let mut tape: Tape<Data> = Tape::new();
    let x = leaf(&mut tape, 2.0);
    let a = square(&mut tape, &x);
    let b = dezero::function::add(&mut tape, &a, &x);
    let c = exp(&mut tape, &x);
    assert_eq!(tape.generation_of(x.id()), 0);
    assert_eq!(tape.generation_of(a.id()), 2);
    assert_eq!(tape.generation_of(b.id()), 4);
    assert_eq!(tape.generation_of(c.id()), 2);
    assert_eq!(tape.funcs_len(), 3);
}

#[test]
fn forward_chain_value() {
    let mut tape: Tape<Data> = Tape::new();
    let x = leaf(&mut tape, 0.5);
    let a = square(&mut tape, &x);
    let b = exp(&mut tape, &a);
    let y = square(&mut tape, &b);
    let a_ = 0.5f64 * 0.5;
    let b_ = a_.exp();
    assert_eq!(value(&tape, &y), b_ * b_);
}

#[test]
fn chain_rule() {
    let mut tape: Tape<Data> = Tape::new();
    let x = leaf(&mut tape, 0.5);
    let a = square(&mut tape, &x);
    let b = exp(&mut tape, &a);
    let y = square(&mut tape, &b);
    y.backward(&mut tape);
    let a_ = 0.5f64 * 0.5;
    let b_ = a_.exp();
    let gb = 2.0 * b_ * 1.0;
    let ga = a_.exp() * gb;
    let gx = 2.0 * 0.5 * ga;
    assert_eq!(gradient(&tape, &y), 1.0);
    assert_eq!(gradient(&tape, &b), gb);
    assert_eq!(gradient(&tape, &a), ga);
    assert_eq!(gradient(&tape, &x), gx);
    assert!((gradient(&tape, &x) - 3.297442541400256).abs() < 1e-12);
}

#[test]
fn sum_of_squares() {
    let mut tape: Tape<Data> = Tape::new();
    let x = leaf(&mut tape, 2.0);
    let y = leaf(&mut tape, 3.0);
    let sx = square(&mut tape, &x);
    let sy = square(&mut tape, &y);
    let z = dezero::function::add(&mut tape, &sx, &sy);
    z.backward(&mut tape);
    assert_eq!(value(&tape, &z), 13.0);
    assert_eq!(gradient(&tape, &x), 4.0);
    assert_eq!(gradient(&tape, &y), 6.0);
}

#[test]
fn diamond_accumulates() {
    let mut tape: Tape<Data> = Tape::new();
    let x = leaf(&mut tape, 3.0);
    let y = dezero::function::add(&mut tape, &x, &x);
    y.backward(&mut tape);
    assert_eq!(value(&tape, &y), 6.0);
    assert_eq!(gradient(&tape, &x), 2.0);

    x.clear_grad(&mut tape);
    let inner = dezero::function::add(&mut tape, &x, &x);
    let y = dezero::function::add(&mut tape, &x, &inner);
    y.backward(&mut tape);
    assert_eq!(gradient(&tape, &x), 3.0);
}

#[test]
fn diamond_at_other_points() {
    for v in [-1.5, 0.0, 1e300] {
        let mut tape: Tape<Data> = Tape::new();
        let x = leaf(&mut tape, v);
        let y = dezero::function::add(&mut tape, &x, &x);
        y.backward(&mut tape);
        assert_eq!(gradient(&tape, &x), 2.0);
    }
}

#[test]
fn replay_after_clearing_gives_the_same_gradient() {
    let mut tape: Tape<Data> = Tape::new();
    let x = leaf(&mut tape, 3.0);
    let a = square(&mut tape, &x);
    let y = dezero::function::add(&mut tape, &a, &x);
    y.backward(&mut tape);
    let first = gradient(&tape, &x);
    assert_eq!(first, 7.0);
    x.clear_grad(&mut tape);
    a.clear_grad(&mut tape);
    y.clear_grad(&mut tape);
    y.backward(&mut tape);
    assert_eq!(gradient(&tape, &x), first);
}

#[test]
fn gradients_that_are_kept_accumulate_on_replay() {
    let mut tape: Tape<Data> = Tape::new();
    let x = leaf(&mut tape, 3.0);
    let a = square(&mut tape, &x);
    let y = square(&mut tape, &a);
    y.backward(&mut tape);
    assert_eq!(gradient(&tape, &x), 108.0);
    x.clear_grad(&mut tape);
    y.backward(&mut tape);
    assert_eq!(gradient(&tape, &a), 36.0);
    assert_eq!(gradient(&tape, &x), 216.0);
}

#[test]
fn shared_operation_is_visited_once() {
    let mut tape: Tape<Data> = Tape::new();
    let x = leaf(&mut tape, 2.0);
    let a = square(&mut tape, &x);
    let p = square(&mut tape, &a);
    let q = square(&mut tape, &a);
    let r = exp(&mut tape, &a);
    let pq = dezero::function::add(&mut tape, &p, &q);
    let y = dezero::function::add(&mut tape, &pq, &r);
    y.backward(&mut tape);
    let a_ = 4.0f64;
    let ga = (2.0 * a_ + a_.exp()) + 2.0 * a_;
    assert_eq!(gradient(&tape, &a), ga);
    assert_eq!(gradient(&tape, &x), 2.0 * 2.0 * ga);
}

#[test]
fn deeper_branch_is_visited_first() {
    let mut tape: Tape<Data> = Tape::new();
    let x = leaf(&mut tape, 2.0);
    let a = square(&mut tape, &x);
    let b = square(&mut tape, &a);
    let c = square(&mut tape, &a);
    let y = dezero::function::add(&mut tape, &b, &c);
    y.backward(&mut tape);
    assert_eq!(value(&tape, &y), 32.0);
    assert_eq!(gradient(&tape, &x), 64.0);
}

#[test]
fn branches_of_unequal_depth() {
    let mut tape: Tape<Data> = Tape::new();
    let x = leaf(&mut tape, 2.0);
    let a = square(&mut tape, &x);
    let b = square(&mut tape, &a);
    let c = square(&mut tape, &b);
    let y = dezero::function::add(&mut tape, &a, &c);
    y.backward(&mut tape);
    assert_eq!(value(&tape, &y), 260.0);
    assert_eq!(gradient(&tape, &a), 257.0);
    assert_eq!(gradient(&tape, &x), 1028.0);
}

#[test]
fn backward_on_a_leaf_only_seeds() {
    let mut tape: Tape<Data> = Tape::new();
    let x = leaf(&mut tape, 4.0);
    let y = leaf(&mut tape, 5.0);
    x.backward(&mut tape);
    assert_eq!(gradient(&tape, &x), 1.0);
    assert_eq!(y.get_grad(&tape), None);
}

#[test]
fn seed_that_is_set_is_kept() {
    let mut tape: Tape<Data> = Tape::new();
    let x = leaf(&mut tape, 3.0);
    let y = square(&mut tape, &x);
    y.set_grad(&mut tape, Data(arr0(10.0)));
    y.backward(&mut tape);
    assert_eq!(gradient(&tape, &y), 10.0);
    assert_eq!(gradient(&tape, &x), 60.0);
}

#[test]
fn backward_leaves_the_forward_graph_alone() {
    let mut tape: Tape<Data> = Tape::new();
    let x = leaf(&mut tape, 3.0);
    let y = square(&mut tape, &x);
    y.backward(&mut tape);
    assert_eq!(value(&tape, &x), 3.0);
    assert_eq!(value(&tape, &y), 9.0);
    assert_eq!(tape.vars_len(), 2);
    assert_eq!(tape.funcs_len(), 1);
    assert_eq!(tape.generation_of(y.id()), 2);
}

#[test]
fn variables_downstream_are_not_touched() {
    let mut tape: Tape<Data> = Tape::new();
    let x = leaf(&mut tape, 3.0);
    let a = square(&mut tape, &x);
    let b = square(&mut tape, &a);
    a.backward(&mut tape);
    assert_eq!(gradient(&tape, &x), 6.0);
    assert_eq!(b.get_grad(&tape), None);
}

#[test]
fn accumulate_sets_then_sums() {
    let mut tape: Tape<Data> = Tape::new();
    let x = leaf(&mut tape, 0.0);
    tape.accumulate(x.id(), Data(arr0(1.5)));
    assert_eq!(gradient(&tape, &x), 1.5);
    tape.accumulate(x.id(), Data(arr0(2.0)));
    assert_eq!(gradient(&tape, &x), 3.5);
}

#[test]
fn seed_gives_one_where_no_gradient_is_held() {
    let mut tape: Tape<Data> = Tape::new();
    let x = leaf(&mut tape, 7.0);
    tape.seed(x.id());
    assert_eq!(gradient(&tape, &x), 1.0);
    x.set_grad(&mut tape, Data(arr0(4.0)));
    tape.seed(x.id());
    assert_eq!(gradient(&tape, &x), 4.0);
}

#[test]
fn operator_objects() {
    let mut tape: Tape<Data> = Tape::new();
    let x = leaf(&mut tape, 3.0);
    let mut f = Square::new();
    let y = f.call(&mut tape, &x);
    assert_eq!(value(&tape, &y), 9.0);
    assert_eq!(f.backward(&tape, Data(arr0(1.0))).0, arr0(6.0));
    assert_eq!(f.backward(&tape, Data(arr0(0.5))).0, arr0(3.0));

    let mut g = Exp::new();
    let z = g.call(&mut tape, &x);
    assert_eq!(value(&tape, &z), 3.0f64.exp());
    assert_eq!(g.backward(&tape, Data(arr0(2.0))).0, arr0(3.0f64.exp() * 2.0));

    let mut h = Add::new();
    let w = h.call(&mut tape, &y, &z);
    assert_eq!(value(&tape, &w), 9.0 + 3.0f64.exp());
    let (g1, g0) = h.backward(&tape, Data(arr0(4.0)));
    assert_eq!(g1.0, arr0(4.0));
    assert_eq!(g0.0, arr0(4.0));
}

#[test]
fn operator_object_follows_its_last_call() {
    let mut tape: Tape<Data> = Tape::new();
    let x = leaf(&mut tape, 3.0);
    let y = leaf(&mut tape, 5.0);
    let mut f = Square::new();
    f.call(&mut tape, &x);
    f.call(&mut tape, &y);
    assert_eq!(f.backward(&tape, Data(arr0(1.0))).0, arr0(10.0));
}

#[test]
fn operator_object_knows_whether_it_was_applied() {
    let mut tape: Tape<Data> = Tape::new();
    let x = leaf(&mut tape, 3.0);
    let mut f = Square::new();
    let mut g = Exp::new();
    let mut h = Add::new();
    assert!(!f.is_bound(&tape));
    assert!(!g.is_bound(&tape));
    assert!(!h.is_bound(&tape));
    let y = f.call(&mut tape, &x);
    g.call(&mut tape, &y);
    h.call(&mut tape, &x, &y);
    assert!(f.is_bound(&tape));
    assert!(g.is_bound(&tape));
    assert!(h.is_bound(&tape));
    assert_eq!(tape.kind_of(0), OpKind::Square);
    assert_eq!(tape.kind_of(1), OpKind::Exp);
    assert_eq!(tape.kind_of(2), OpKind::Add);
    let other: Tape<Data> = Tape::new();
    assert!(!f.is_bound(&other));
}
