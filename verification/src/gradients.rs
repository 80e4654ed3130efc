//! What a backward pass leaves in the inputs of a square and of sums that
//! use one variable several times.

use crate::function::{backward_rel, input_data, recorded};
use crate::laws::{
    lemma_path_descends, lemma_schedule_in_range, lemma_schedule_starts_at_creator, lemma_settled,
    lemma_schedule_visits_once,
};
use crate::scalar::{is_ones_like, is_product, is_sum, is_twice, Scalar};
use crate::scheduler::{
    absorbed, backpropagated, feeds, feeds_slot, gathered, held_grads, is_path,
    is_schedule, lemma_reaches_step, outranks, propagated, ran, reaches, stepped,
};
use crate::tape::{
    deposited, func_wf, graph_wf, lemma_grads_keep_wf, seeded, var_wf, FunctionCell, OpKind,
    VariableCell,
};
use vstd::prelude::*;

verus! {

/// Cloning a value of `V` yields an equal value.
pub open spec fn clone_is_copy<V: Scalar>() -> bool {
    forall|a: V, b: V| #[trigger] cloned(a, b) ==> a == b
}

/// Every input of operation `k` is the variable `x` or the variable `t`.
pub open spec fn consumes_only(funcs: Seq<FunctionCell>, k: int, x: int, t: int) -> bool {
    forall|slot: int|
        0 <= slot < funcs[k].inputs@.len() ==> (#[trigger] funcs[k].inputs@[slot]) == x
            || funcs[k].inputs@[slot] == t
}

/// Visiting a square whose output holds the gradient `u` accumulates into its
/// input the product of twice the input's datum with `u`.
pub proof fn lemma_step_on_square<V: Scalar>(
    before: Seq<VariableCell<V>>,
    f: FunctionCell,
    after: Seq<VariableCell<V>>,
    u: V,
) -> (g: V)
    requires
        clone_is_copy::<V>(),
        stepped(before, f, after),
        f.kind == OpKind::Square,
        f.inputs@.len() == 1,
        f.outputs@.len() == 1,
        before[f.outputs@[0] as int].grad == Some(u),
    ensures
        exists|t: V| is_twice(before[f.inputs@[0] as int].data, t)
            && #[trigger] is_product(t, u, g),
        deposited(before, f.inputs@[0] as int, g, after),
{
    let (gys, gxs, trace) = choose|gys: Seq<V>, gxs: Seq<V>, trace: Seq<Seq<VariableCell<V>>>|
        #![trigger absorbed(before, f.inputs@, gxs, after, trace),
            gathered(before, f.outputs@, gys)]
        {
            &&& gathered(before, f.outputs@, gys)
            &&& gys.len() > 0
            &&& backward_rel(f.kind, input_data(before, f.inputs@), gys[0], gxs)
            &&& absorbed(before, f.inputs@, gxs, after, trace)
        };
    assert(f.outputs@.drop_last() =~= Seq::<usize>::empty());
    assert(held_grads(before, f.outputs@.drop_last()) =~= Seq::<V>::empty());
    assert(held_grads(before, f.outputs@) =~= seq![u]);
    assert(cloned(held_grads(before, f.outputs@)[0], gys[0]));
    assert(deposited(trace[0], f.inputs@[0] as int, gxs[0], trace[1]));
    let t = choose|t: V|
        is_twice(input_data(before, f.inputs@)[0], t) && #[trigger] is_product(t, gys[0], gxs[0]);
    assert(is_twice(before[f.inputs@[0] as int].data, t) && is_product(t, u, gxs[0]));
    gxs[0]
}

/// Visiting an addition whose output holds the gradient `u` accumulates `u`
/// into its first input and then into its second.
pub proof fn lemma_step_on_add<V: Scalar>(
    before: Seq<VariableCell<V>>,
    f: FunctionCell,
    after: Seq<VariableCell<V>>,
    u: V,
) -> (mid: Seq<VariableCell<V>>)
    requires
        clone_is_copy::<V>(),
        stepped(before, f, after),
        f.kind == OpKind::Add,
        f.inputs@.len() == 2,
        f.outputs@.len() == 1,
        before[f.outputs@[0] as int].grad == Some(u),
    ensures
        deposited(before, f.inputs@[0] as int, u, mid),
        deposited(mid, f.inputs@[1] as int, u, after),
{
    let (gys, gxs, trace) = choose|gys: Seq<V>, gxs: Seq<V>, trace: Seq<Seq<VariableCell<V>>>|
        #![trigger absorbed(before, f.inputs@, gxs, after, trace),
            gathered(before, f.outputs@, gys)]
        {
            &&& gathered(before, f.outputs@, gys)
            &&& gys.len() > 0
            &&& backward_rel(f.kind, input_data(before, f.inputs@), gys[0], gxs)
            &&& absorbed(before, f.inputs@, gxs, after, trace)
        };
    assert(f.outputs@.drop_last() =~= Seq::<usize>::empty());
    assert(held_grads(before, f.outputs@.drop_last()) =~= Seq::<V>::empty());
    assert(held_grads(before, f.outputs@) =~= seq![u]);
    assert(cloned(held_grads(before, f.outputs@)[0], gys[0]));
    assert(cloned(gys[0], gxs[0]) && cloned(gys[0], gxs[1]));
    assert(deposited(trace[0], f.inputs@[0] as int, gxs[0], trace[1]));
    assert(deposited(trace[1], f.inputs@[1] as int, gxs[1], trace[2]));
    trace[1]
}

/// Where the creator `k` of the root consumes nothing but `x`, every other
/// operation upstream of the root lies below the generation of `x`.
pub proof fn lemma_rest_below<V>(
    vars: Seq<VariableCell<V>>,
    funcs: Seq<FunctionCell>,
    root: int,
    k: int,
    x: int,
    r: int,
)
    requires
        graph_wf(vars, funcs),
        0 <= k < funcs.len(),
        0 <= x < vars.len(),
        vars[root].creator matches Some(c) && c == k,
        consumes_only(funcs, k, x, x),
        reaches(vars, funcs, root, r),
        r != k,
    ensures
        funcs[r].generation < vars[x].generation,
{
    let path = choose|path: Seq<int>|
        #![trigger is_path(vars, funcs, path)]
        is_path(vars, funcs, path) && (vars[root].creator matches Some(u) && u == path[0])
            && path.last() == r;
    assert(feeds(vars, funcs, path[1], path[1 - 1]));
    let slot = choose|slot: int| feeds_slot(vars, funcs, path[1], k, slot);
    assert(funcs[k].inputs@[slot] == x);
    assert(var_wf(vars, funcs, x));
    lemma_path_descends(vars, funcs, path, 1, path.len() - 1);
}

/// Where the creator `k2` of the root consumes nothing but `x` and `t`, and
/// the creator `k1` of `t` nothing but `x`, every operation upstream of the
/// root but these two lies below the generation of `x`.
pub proof fn lemma_rest_below_two<V>(
    vars: Seq<VariableCell<V>>,
    funcs: Seq<FunctionCell>,
    root: int,
    k2: int,
    k1: int,
    x: int,
    t: int,
    r: int,
)
    requires
        graph_wf(vars, funcs),
        0 <= k2 < funcs.len(),
        0 <= k1 < funcs.len(),
        0 <= x < vars.len(),
        0 <= t < vars.len(),
        vars[root].creator matches Some(c) && c == k2,
        vars[t].creator matches Some(c) && c == k1,
        consumes_only(funcs, k2, x, t),
        consumes_only(funcs, k1, x, x),
        reaches(vars, funcs, root, r),
        r != k2,
        r != k1,
    ensures
        funcs[r].generation < vars[x].generation,
{
    let path = choose|path: Seq<int>|
        #![trigger is_path(vars, funcs, path)]
        is_path(vars, funcs, path) && (vars[root].creator matches Some(u) && u == path[0])
            && path.last() == r;
    assert(feeds(vars, funcs, path[1], path[1 - 1]));
    let slot = choose|slot: int| feeds_slot(vars, funcs, path[1], k2, slot);
    assert(funcs[k2].inputs@[slot] == x || funcs[k2].inputs@[slot] == t);
    assert(var_wf(vars, funcs, x));
    if funcs[k2].inputs@[slot] == x {
        lemma_path_descends(vars, funcs, path, 1, path.len() - 1);
    } else {
        assert(path[1] == k1);
        assert(feeds(vars, funcs, path[2], path[2 - 1]));
        let slot = choose|slot: int| feeds_slot(vars, funcs, path[2], k1, slot);
        assert(funcs[k1].inputs@[slot] == x);
        lemma_path_descends(vars, funcs, path, 2, path.len() - 1);
    }
}

/// Where the creator `k` of the root consumes nothing but `x`, the pass
/// leaves in `x` what the visit of `k` left there.
pub proof fn lemma_settled_after_one<V: Scalar>(
    vars: Seq<VariableCell<V>>,
    funcs: Seq<FunctionCell>,
    root: int,
    k: int,
    x: int,
    order: Seq<int>,
    end: Seq<VariableCell<V>>,
    states: Seq<Seq<VariableCell<V>>>,
)
    requires
        graph_wf(vars, funcs),
        0 <= k < funcs.len(),
        0 <= x < vars.len(),
        vars[root].creator matches Some(c) && c == k,
        consumes_only(funcs, k, x, x),
        is_schedule(vars, funcs, root, order),
        ran(vars, funcs, order, end, states),
    ensures
        order.len() >= 1,
        order[0] == k,
        stepped(vars, funcs[k], states[1]),
        end[x] == states[1][x],
{
    lemma_schedule_starts_at_creator(vars, funcs, root, k, order);
    lemma_schedule_visits_once(vars, funcs, root, order);
    assert forall|i: int| 1 <= i < order.len() implies funcs[#[trigger] order[i]].generation
        <= vars[x].generation by {
        assert(order.contains(order[i]));
        lemma_rest_below(vars, funcs, root, k, x, order[i]);
    }
    lemma_settled(vars, funcs, root, order, end, states, x, 1, order.len() as int);
    assert(stepped(states[0], funcs[order[0]], states[1]));
}

/// With `y = x * x`, where `x` holds no gradient, the backward pass from `y`
/// leaves in `x` the product of twice the datum of `x` with the seed.
pub proof fn lemma_square_gradient<V: Scalar>(
    vars0: Seq<VariableCell<V>>,
    funcs0: Seq<FunctionCell>,
    x: usize,
    vars1: Seq<VariableCell<V>>,
    funcs1: Seq<FunctionCell>,
    after: Seq<VariableCell<V>>,
)
    requires
        clone_is_copy::<V>(),
        x < vars0.len(),
        vars0[x as int].grad is None,
        recorded(vars0, funcs0, OpKind::Square, seq![x], vars1, funcs1),
        graph_wf(vars1, funcs1),
        backpropagated(vars1, funcs1, vars0.len() as int, after),
    ensures
        exists|u: V, t: V, g: V|
            {
                &&& is_ones_like(vars1[vars0.len() as int].data, u)
                &&& is_twice(vars0[x as int].data, t)
                &&& #[trigger] is_product(t, u, g)
                &&& after[x as int].grad == Some(g)
            },
{
    let y = vars0.len() as int;
    let k = funcs0.len() as int;
    let f = funcs1[k];
    assert(vars1[x as int] == vars1.drop_last()[x as int]);
    let start = choose|start: Seq<VariableCell<V>>|
        #![trigger seeded(vars1, y, start)]
        seeded(vars1, y, start) && propagated(start, funcs1, y, after);
    let (order, states) = choose|order: Seq<int>, states: Seq<Seq<VariableCell<V>>>|
        #![trigger ran(start, funcs1, order, after, states)]
        is_schedule(start, funcs1, y, order) && ran(start, funcs1, order, after, states);
    let u = start[y].grad.unwrap();
    assert(start[x as int] == vars1[x as int]);
    lemma_keeps_graph(vars1, funcs1, y, start);
    lemma_settled_after_one(start, funcs1, y, k, x as int, order, after, states);
    let g = lemma_step_on_square(start, f, states[1], u);
    let t = choose|t: V|
        is_twice(start[f.inputs@[0] as int].data, t)
        && #[trigger] is_product(t, u, g);
    assert(is_ones_like(vars1[y].data, u) && is_twice(vars0[x as int].data, t)
        && is_product(t, u, g)
        && after[x as int].grad == Some(g));
}

/// Seeding a variable keeps the graph consistent.
pub proof fn lemma_keeps_graph<V: Scalar>(
    vars: Seq<VariableCell<V>>,
    funcs: Seq<FunctionCell>,
    root: int,
    start: Seq<VariableCell<V>>,
)
    requires
        graph_wf(vars, funcs),
        seeded(vars, root, start),
    ensures
        graph_wf(start, funcs),
{
    assert forall|v: int| 0 <= v < vars.len() implies (#[trigger] vars[v]).data == start[v].data
        && vars[v].creator == start[v].creator && vars[v].generation == start[v].generation by {
        if v != root {
            assert(start[v] == vars[v]);
        }
    }
    lemma_grads_keep_wf(vars, start, funcs);
    assert forall|k: int| 0 <= k < funcs.len() implies #[trigger] func_wf(start, funcs, k) by {
        assert(func_wf(vars, funcs, k));
    }
    assert forall|v: int| 0 <= v < start.len() implies #[trigger] var_wf(start, funcs, v) by {
        assert(var_wf(vars, funcs, v));
    }
}

/// With `y = x + x`, where `x` holds no gradient, the backward pass from `y`
/// leaves in `x` the sum of the seed with itself: the two uses of `x` both
/// contribute.
pub proof fn lemma_diamond_twice<V: Scalar>(
    vars0: Seq<VariableCell<V>>,
    funcs0: Seq<FunctionCell>,
    x: usize,
    vars1: Seq<VariableCell<V>>,
    funcs1: Seq<FunctionCell>,
    after: Seq<VariableCell<V>>,
)
    requires
        clone_is_copy::<V>(),
        x < vars0.len(),
        vars0[x as int].grad is None,
        recorded(vars0, funcs0, OpKind::Add, seq![x, x], vars1, funcs1),
        graph_wf(vars1, funcs1),
        backpropagated(vars1, funcs1, vars0.len() as int, after),
    ensures
        exists|u: V, s: V|
            {
                &&& is_ones_like(vars1[vars0.len() as int].data, u)
                &&& #[trigger] is_sum(u, u, s)
                &&& after[x as int].grad == Some(s)
            },
{
    let y = vars0.len() as int;
    let k = funcs0.len() as int;
    let f = funcs1[k];
    assert(vars1[x as int] == vars1.drop_last()[x as int]);
    let start = choose|start: Seq<VariableCell<V>>|
        #![trigger seeded(vars1, y, start)]
        seeded(vars1, y, start) && propagated(start, funcs1, y, after);
    let (order, states) = choose|order: Seq<int>, states: Seq<Seq<VariableCell<V>>>|
        #![trigger ran(start, funcs1, order, after, states)]
        is_schedule(start, funcs1, y, order) && ran(start, funcs1, order, after, states);
    let u = start[y].grad.unwrap();
    assert(start[x as int] == vars1[x as int]);
    lemma_keeps_graph(vars1, funcs1, y, start);
    lemma_settled_after_one(start, funcs1, y, k, x as int, order, after, states);
    let mid = lemma_step_on_add(start, f, states[1], u);
    let s = after[x as int].grad.unwrap();
    assert(mid[x as int].grad == Some(u));
    assert(is_ones_like(vars1[y].data, u) && is_sum(u, u, s) && after[x as int].grad == Some(s));
}

/// With `t = x + x` and `y = x + t`, where `x` holds no gradient, the
/// backward pass from `y` leaves in `x` the seed added to itself and then
/// once more: the three uses of `x` all contribute.
pub proof fn lemma_diamond_thrice<V: Scalar>(
    vars0: Seq<VariableCell<V>>,
    funcs0: Seq<FunctionCell>,
    x: usize,
    vars1: Seq<VariableCell<V>>,
    funcs1: Seq<FunctionCell>,
    t: usize,
    vars2: Seq<VariableCell<V>>,
    funcs2: Seq<FunctionCell>,
    after: Seq<VariableCell<V>>,
)
    requires
        clone_is_copy::<V>(),
        x < vars0.len(),
        t == vars0.len(),
        vars0[x as int].grad is None,
        recorded(vars0, funcs0, OpKind::Add, seq![x, x], vars1, funcs1),
        recorded(vars1, funcs1, OpKind::Add, seq![x, t], vars2, funcs2),
        graph_wf(vars2, funcs2),
        backpropagated(vars2, funcs2, vars1.len() as int, after),
    ensures
        exists|u: V, s: V, r: V|
            {
                &&& is_ones_like(vars2[vars1.len() as int].data, u)
                &&& #[trigger] is_sum(u, u, s)
                &&& #[trigger] is_sum(s, u, r)
                &&& after[x as int].grad == Some(r)
            },
{
    let x = x as int;
    let t = t as int;
    let y = vars1.len() as int;
    let k1 = funcs0.len() as int;
    let k2 = funcs1.len() as int;
    let f1 = funcs2[k1];
    let f2 = funcs2[k2];
    assert(funcs2[k1] == funcs2.drop_last()[k1]);
    assert(vars2[x] == vars2.drop_last()[x]);
    assert(vars1[x] == vars1.drop_last()[x]);
    assert(vars2[t] == vars2.drop_last()[t]);
    let start = choose|start: Seq<VariableCell<V>>|
        #![trigger seeded(vars2, y, start)]
        seeded(vars2, y, start) && propagated(start, funcs2, y, after);
    let (order, states) = choose|order: Seq<int>, states: Seq<Seq<VariableCell<V>>>|
        #![trigger ran(start, funcs2, order, after, states)]
        is_schedule(start, funcs2, y, order) && ran(start, funcs2, order, after, states);
    let u = start[y].grad.unwrap();
    assert(start[x] == vars2[x]);
    assert(start[t] == vars2[t]);
    lemma_keeps_graph(vars2, funcs2, y, start);
    lemma_schedule_of_two(start, funcs2, y, k2, k1, x, t, order, after, states);
    let mid2 = lemma_step_on_add(start, f2, states[1], u);
    assert(mid2[x].grad == Some(u));
    assert(states[1][t].grad == Some(u));
    assert(states[1][x].grad == Some(u));
    let mid1 = lemma_step_on_add(states[1], f1, states[2], u);
    let s = mid1[x].grad.unwrap();
    let r = after[x].grad.unwrap();
    assert(is_ones_like(vars2[y].data, u) && is_sum(u, u, s) && is_sum(s, u, r) && after[x].grad
        == Some(r));
}

/// Where the creator `k2` of the root consumes nothing but `x` and `t`, and
/// the creator `k1` of `t` nothing but `x`, the pass visits `k2`, then `k1`,
/// and leaves in `x` what these two visits left there.
pub proof fn lemma_schedule_of_two<V: Scalar>(
    vars: Seq<VariableCell<V>>,
    funcs: Seq<FunctionCell>,
    root: int,
    k2: int,
    k1: int,
    x: int,
    t: int,
    order: Seq<int>,
    end: Seq<VariableCell<V>>,
    states: Seq<Seq<VariableCell<V>>>,
)
    requires
        graph_wf(vars, funcs),
        0 <= k2 < funcs.len(),
        0 <= k1 < funcs.len(),
        k1 != k2,
        0 <= x < vars.len(),
        0 <= t < vars.len(),
        vars[root].creator matches Some(c) && c == k2,
        vars[t].creator matches Some(c) && c == k1,
        consumes_only(funcs, k2, x, t),
        consumes_only(funcs, k1, x, x),
        funcs[k2].inputs@.len() == 2,
        funcs[k2].inputs@[1] == t,
        funcs[k1].inputs@.len() == 2,
        is_schedule(vars, funcs, root, order),
        ran(vars, funcs, order, end, states),
    ensures
        order.len() >= 2,
        stepped(vars, funcs[k2], states[1]),
        stepped(states[1], funcs[k1], states[2]),
        end[x] == states[2][x],
{
    lemma_schedule_starts_at_creator(vars, funcs, root, k2, order);
    lemma_schedule_visits_once(vars, funcs, root, order);
    lemma_schedule_in_range(vars, funcs, root, order);
    assert(feeds_slot(vars, funcs, k1, k2, 1));
    crate::scheduler::lemma_reaches_start(vars, funcs, root, k2);
    lemma_reaches_step(vars, funcs, root, k2, k1);
    assert(order.contains(k1));
    let b = choose|b: int| 0 <= b < order.len() && order[b] == k1;
    assert(func_wf(vars, funcs, k1));
    assert(vars[funcs[k1].inputs@[0] as int].generation < funcs[k1].generation);
    assert(funcs[k1].inputs@[0] == x);
    if b > 1 {
        assert(order.contains(order[1]));
        lemma_rest_below_two(vars, funcs, root, k2, k1, x, t, order[1]);
        assert(outranks(funcs, order[1], order[b]));
    }
    assert(order[1] == k1);
    assert forall|i: int| 2 <= i < order.len() implies funcs[#[trigger] order[i]].generation
        <= vars[x].generation by {
        assert(order.contains(order[i]));
        lemma_rest_below_two(vars, funcs, root, k2, k1, x, t, order[i]);
    }
    lemma_settled(vars, funcs, root, order, end, states, x, 2, order.len() as int);
    assert(stepped(states[0], funcs[order[0]], states[1]));
    assert(stepped(states[1], funcs[order[1]], states[2]));
}

} // verus!
