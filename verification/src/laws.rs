//! What holds of every backward pass: the order of its visits, and that its
//! result is a function of the tape it starts from.

use crate::function::{backward_rel, input_data};
use crate::scalar::{deterministic, is_exp, is_ones_like, is_product, is_sum, is_twice, Scalar};
use crate::scheduler::{
    absorbed, backpropagated, feeds, feeds_slot, gathered, held_grads, is_path,
    is_schedule, lemma_feeds_lower, outranks, propagated, ran, reaches, stepped,
};
use crate::tape::{
    deposited, func_wf, graph_wf, same_forward, seeded, FunctionCell, OpKind, VariableCell,
};
use vstd::prelude::*;

verus! {

/// Every operation of a schedule is an operation of the graph.
pub proof fn lemma_schedule_in_range<V>(
    vars: Seq<VariableCell<V>>,
    funcs: Seq<FunctionCell>,
    root: int,
    order: Seq<int>,
)
    requires
        is_schedule(vars, funcs, root, order),
    ensures
        forall|i: int| 0 <= i < order.len() ==> 0 <= #[trigger] order[i] < funcs.len(),
{
    assert forall|i: int| 0 <= i < order.len() implies 0 <= #[trigger] order[i] < funcs.len() by {
        let k = order[i];
        assert(order.contains(k));
        let path = choose|path: Seq<int>|
            #![trigger is_path(vars, funcs, path)]
            is_path(vars, funcs, path) && (vars[root].creator matches Some(u) && u == path[0])
                && path.last() == k;
        assert(0 <= path[path.len() - 1] < funcs.len());
    }
}

/// Along a schedule the generation never increases: an operation of a higher
/// generation is visited before every operation of a lower one.
pub proof fn lemma_schedule_descends<V>(
    vars: Seq<VariableCell<V>>,
    funcs: Seq<FunctionCell>,
    root: int,
    order: Seq<int>,
)
    requires
        is_schedule(vars, funcs, root, order),
    ensures
        forall|i: int, j: int|
            0 <= i < j < order.len() ==> funcs[#[trigger] order[i]].generation >= funcs[
                #[trigger] order[j]
            ].generation,
{
    assert forall|i: int, j: int| 0 <= i < j < order.len()
        implies funcs[#[trigger] order[i]].generation
        >= funcs[#[trigger] order[j]].generation by {
        assert(outranks(funcs, order[i], order[j]));
    }
}

/// A schedule visits every operation upstream of the root exactly once, and
/// no other operation: however many paths lead to an operation, it occurs at
/// one position only.
pub proof fn lemma_schedule_visits_once<V>(
    vars: Seq<VariableCell<V>>,
    funcs: Seq<FunctionCell>,
    root: int,
    order: Seq<int>,
)
    requires
        is_schedule(vars, funcs, root, order),
    ensures
        order.no_duplicates(),
        forall|k: int|
            reaches(vars, funcs, root, k) <==> exists|i: int|
                0 <= i < order.len() && #[trigger] order[i] == k,
{
    assert forall|i: int, j: int| 0 <= i < order.len() && 0 <= j < order.len()
        && i != j implies order[i]
        != order[j] by {
        if i < j {
            assert(outranks(funcs, order[i], order[j]));
        } else {
            assert(outranks(funcs, order[j], order[i]));
        }
    }
    assert forall|k: int|
            reaches(vars, funcs, root, k) <==> exists|i: int|
                0 <= i < order.len() && #[trigger] order[i] == k by {
        assert(order.contains(k) <==> reaches(vars, funcs, root, k));
    }
}

/// An operation is visited only after every operation upstream of the root
/// that consumes one of its outputs: when its turn comes, each of its
/// consumers has made its contribution.
pub proof fn lemma_consumers_first<V>(
    vars: Seq<VariableCell<V>>,
    funcs: Seq<FunctionCell>,
    root: int,
    order: Seq<int>,
    j: int,
    c: int,
)
    requires
        graph_wf(vars, funcs),
        is_schedule(vars, funcs, root, order),
        0 <= j < order.len(),
        reaches(vars, funcs, root, c),
        feeds(vars, funcs, order[j], c),
    ensures
        exists|i: int| 0 <= i < j && #[trigger] order[i] == c,
{
    lemma_schedule_in_range(vars, funcs, root, order);
    assert(order.contains(c));
    let i = choose|i: int| 0 <= i < order.len() && order[i] == c;
    assert(0 <= order[i] < funcs.len());
    lemma_feeds_lower(vars, funcs, order[j], c);
    if i > j {
        assert(outranks(funcs, order[j], order[i]));
    }
    assert(i < j);
}

/// Along a path the generation falls with every step.
pub proof fn lemma_path_descends<V>(
    vars: Seq<VariableCell<V>>,
    funcs: Seq<FunctionCell>,
    path: Seq<int>,
    i: int,
    j: int,
)
    requires
        graph_wf(vars, funcs),
        is_path(vars, funcs, path),
        0 <= i <= j < path.len(),
    ensures
        funcs[path[j]].generation + (j - i) <= funcs[path[i]].generation,
    decreases j - i,
{
    if i < j {
        lemma_path_descends(vars, funcs, path, i, j - 1);
        assert(feeds(vars, funcs, path[j], path[j - 1]));
        assert(0 <= path[j - 1] < funcs.len());
        lemma_feeds_lower(vars, funcs, path[j], path[j - 1]);
    }
}

/// No path leads back to an operation that it has passed: the graph has no
/// cycle.
pub proof fn lemma_no_cycle<V>(
    vars: Seq<VariableCell<V>>,
    funcs: Seq<FunctionCell>,
    path: Seq<int>,
    i: int,
    j: int,
)
    requires
        graph_wf(vars, funcs),
        is_path(vars, funcs, path),
        0 <= i < j < path.len(),
    ensures
        path[i] != path[j],
{
    lemma_path_descends(vars, funcs, path, i, j);
}

/// A pass from a variable with a creator visits that creator first.
pub proof fn lemma_schedule_starts_at_creator<V>(
    vars: Seq<VariableCell<V>>,
    funcs: Seq<FunctionCell>,
    root: int,
    k: int,
    order: Seq<int>,
)
    requires
        graph_wf(vars, funcs),
        is_schedule(vars, funcs, root, order),
        0 <= k < funcs.len(),
        vars[root].creator matches Some(c) && c == k,
    ensures
        order.len() > 0,
        order[0] == k,
{
    crate::scheduler::lemma_reaches_start(vars, funcs, root, k);
    assert(order.contains(k));
    let a = choose|a: int| 0 <= a < order.len() && order[a] == k;
    if a > 0 {
        let r = order[0];
        assert(order.contains(r));
        assert(outranks(funcs, order[0], order[a]));
        let path = choose|path: Seq<int>|
            #![trigger is_path(vars, funcs, path)]
            is_path(vars, funcs, path) && (vars[root].creator matches Some(u) && u == path[0])
                && path.last() == r;
        lemma_path_descends(vars, funcs, path, 0, path.len() - 1);
    }
}

/// Accumulating into the variables `inputs` leaves every other variable as
/// it was, and the number of variables too.
pub proof fn lemma_absorbed_frame<V: Scalar>(
    before: Seq<VariableCell<V>>,
    inputs: Seq<usize>,
    gxs: Seq<V>,
    after: Seq<VariableCell<V>>,
    trace: Seq<Seq<VariableCell<V>>>,
    n: int,
)
    requires
        absorbed(before, inputs, gxs, after, trace),
        0 <= n <= inputs.len(),
    ensures
        trace[n].len() == before.len(),
        forall|v: int|
            0 <= v < before.len() && !inputs.contains(v as usize) ==> #[trigger] trace[n][v]
                == before[v],
    decreases n,
{
    if n > 0 {
        lemma_absorbed_frame(before, inputs, gxs, after, trace, n - 1);
        assert(deposited(trace[n - 1], inputs[n - 1] as int, gxs[n - 1], trace[n - 1 + 1]));
        assert forall|v: int| 0 <= v < before.len() && !inputs.contains(v as usize)
            implies #[trigger] trace[n][v]
            == before[v] by {
            assert(inputs[n - 1] != v as usize);
            assert(trace[n][v] == trace[n - 1][v]);
        }
    }
}

/// Visiting an operation changes none of the variables that are not among
/// its inputs.
pub proof fn lemma_stepped_frame<V: Scalar>(
    before: Seq<VariableCell<V>>,
    f: FunctionCell,
    after: Seq<VariableCell<V>>,
)
    requires
        stepped(before, f, after),
    ensures
        after.len() == before.len(),
        forall|v: int|
            0 <= v < before.len() && !f.inputs@.contains(v as usize) ==> #[trigger] after[v]
                == before[v],
{
    let (gys, gxs, trace) = choose|gys: Seq<V>, gxs: Seq<V>, trace: Seq<Seq<VariableCell<V>>>|
        #![trigger absorbed(before, f.inputs@, gxs, after, trace),
            gathered(before, f.outputs@, gys)]
        {
            &&& gathered(before, f.outputs@, gys)
            &&& gys.len() > 0
            &&& backward_rel(f.kind, input_data(before, f.inputs@), gys[0], gxs)
            &&& absorbed(before, f.inputs@, gxs, after, trace)
        };
    lemma_absorbed_frame(before, f.inputs@, gxs, after, trace, f.inputs@.len() as int);
}

/// Once an operation has been visited, the variables it produced are not
/// touched again: the gradients that its backward formula read were complete.
pub proof fn lemma_visited_outputs_are_final<V: Scalar>(
    vars: Seq<VariableCell<V>>,
    funcs: Seq<FunctionCell>,
    root: int,
    order: Seq<int>,
    end: Seq<VariableCell<V>>,
    states: Seq<Seq<VariableCell<V>>>,
    j: int,
    m: int,
)
    requires
        graph_wf(vars, funcs),
        0 <= root < vars.len(),
        is_schedule(vars, funcs, root, order),
        ran(vars, funcs, order, end, states),
        0 <= j < order.len(),
        j <= m <= order.len(),
    ensures
        states[m].len() == vars.len(),
        forall|o: int|
            0 <= o < funcs[order[j]].outputs@.len()
                ==> states[m][#[trigger] funcs[order[j]].outputs@[o] as int]
                == states[j][funcs[order[j]].outputs@[o] as int],
    decreases m,
{
    lemma_schedule_in_range(vars, funcs, root, order);
    lemma_states_keep_length(vars, funcs, order, end, states, m);
    if m > j {
        lemma_visited_outputs_are_final(vars, funcs, root, order, end, states, j, m - 1);
        lemma_states_keep_length(vars, funcs, order, end, states, m - 1);
        let f = funcs[order[m - 1]];
        let p = order[j];
        assert(0 <= order[m - 1] < funcs.len());
        assert(0 <= order[j] < funcs.len());
        assert(stepped(states[m - 1], f, states[m - 1 + 1]));
        lemma_stepped_frame(states[m - 1], f, states[m]);
        assert(func_wf(vars, funcs, p));
        assert forall|o: int| 0 <= o < funcs[p].outputs@.len()
            implies states[m][#[trigger] funcs[p].outputs@[o] as int]
            == states[j][funcs[p].outputs@[o] as int] by {
            let v = funcs[p].outputs@[o];
            assert(v < vars.len());
            if f.inputs@.contains(v) {
                let slot = choose|slot: int| 0 <= slot < f.inputs@.len() && f.inputs@[slot] == v;
                assert(feeds_slot(vars, funcs, p, order[m - 1], slot));
                assert(order.contains(order[m - 1]));
                lemma_consumers_first(vars, funcs, root, order, j, order[m - 1]);
                let i = choose|i: int| 0 <= i < j && #[trigger] order[i] == order[m - 1];
                assert(outranks(funcs, order[i], order[m - 1]));
            }
            assert(states[m][v as int] == states[m - 1][v as int]);
        }
    }
}

/// From the position in a schedule behind which no operation lies above the
/// generation of variable `x`, the pass leaves `x` as it is: only an
/// operation of a higher generation can consume `x`.
pub proof fn lemma_settled<V: Scalar>(
    vars: Seq<VariableCell<V>>,
    funcs: Seq<FunctionCell>,
    root: int,
    order: Seq<int>,
    end: Seq<VariableCell<V>>,
    states: Seq<Seq<VariableCell<V>>>,
    x: int,
    j: int,
    m: int,
)
    requires
        graph_wf(vars, funcs),
        is_schedule(vars, funcs, root, order),
        ran(vars, funcs, order, end, states),
        0 <= x < vars.len(),
        0 <= j <= m <= order.len(),
        forall|i: int|
            j <= i < order.len() ==> funcs[#[trigger] order[i]].generation <= vars[x].generation,
    ensures
        states[m][x] == states[j][x],
    decreases m - j,
{
    if m > j {
        lemma_settled(vars, funcs, root, order, end, states, x, j, m - 1);
        lemma_schedule_in_range(vars, funcs, root, order);
        lemma_states_keep_length(vars, funcs, order, end, states, m - 1);
        let f = funcs[order[m - 1]];
        assert(0 <= order[m - 1] < funcs.len());
        assert(stepped(states[m - 1], f, states[m - 1 + 1]));
        lemma_stepped_frame(states[m - 1], f, states[m]);
        assert(func_wf(vars, funcs, order[m - 1]));
        if f.inputs@.contains(x as usize) {
            let slot = choose|slot: int|
                0 <= slot < f.inputs@.len()
                && f.inputs@[slot] == x as usize;
            assert(vars[f.inputs@[slot] as int].generation < f.generation);
        }
        assert(states[m][x] == states[m - 1][x]);
    }
}

/// A pass neither adds nor removes variables.
pub proof fn lemma_states_keep_length<V: Scalar>(
    vars: Seq<VariableCell<V>>,
    funcs: Seq<FunctionCell>,
    order: Seq<int>,
    end: Seq<VariableCell<V>>,
    states: Seq<Seq<VariableCell<V>>>,
    m: int,
)
    requires
        ran(vars, funcs, order, end, states),
        0 <= m <= order.len(),
    ensures
        states[m].len() == vars.len(),
    decreases m,
{
    if m > 0 {
        lemma_states_keep_length(vars, funcs, order, end, states, m - 1);
        assert(stepped(states[m - 1], funcs[order[m - 1]], states[m - 1 + 1]));
        lemma_stepped_frame(states[m - 1], funcs[order[m - 1]], states[m]);
    }
}

/// Where the operations of `V` are functions, accumulating a gradient into
/// a variable has one outcome.
pub proof fn lemma_deposited_unique<V: Scalar>(
    before: Seq<VariableCell<V>>,
    v: int,
    g: V,
    a: Seq<VariableCell<V>>,
    b: Seq<VariableCell<V>>,
)
    requires
        deterministic::<V>(),
        deposited(before, v, g, a),
        deposited(before, v, g, b),
    ensures
        a == b,
{
    assert forall|u: int| 0 <= u < a.len() implies a[u] == b[u] by {
        if u != v {
            assert(a[u] == before[u]);
            assert(b[u] == before[u]);
        } else {
            match before[v].grad {
                None => {},
                Some(held) => {
                    assert(is_sum(held, g, a[v].grad.unwrap())
                        && is_sum(held, g, b[v].grad.unwrap()));
                },
            }
        }
    }
    assert(a =~= b);
}

/// Where the operations of `V` are functions, two traces of the same
/// accumulation agree state by state.
pub proof fn lemma_absorbed_unique<V: Scalar>(
    before: Seq<VariableCell<V>>,
    inputs: Seq<usize>,
    gxs: Seq<V>,
    a: Seq<VariableCell<V>>,
    ta: Seq<Seq<VariableCell<V>>>,
    b: Seq<VariableCell<V>>,
    tb: Seq<Seq<VariableCell<V>>>,
    n: int,
)
    requires
        deterministic::<V>(),
        absorbed(before, inputs, gxs, a, ta),
        absorbed(before, inputs, gxs, b, tb),
        0 <= n <= inputs.len(),
    ensures
        ta[n] == tb[n],
    decreases n,
{
    if n > 0 {
        lemma_absorbed_unique(before, inputs, gxs, a, ta, b, tb, n - 1);
        assert(deposited(ta[n - 1], inputs[n - 1] as int, gxs[n - 1], ta[n - 1 + 1]));
        assert(deposited(tb[n - 1], inputs[n - 1] as int, gxs[n - 1], tb[n - 1 + 1]));
        lemma_deposited_unique(ta[n - 1], inputs[n - 1] as int, gxs[n - 1], ta[n], tb[n]);
    }
}

/// Where the operations of `V` are functions, the backward formula of an
/// operator has one outcome.
pub proof fn lemma_backward_unique<V: Scalar>(
    kind: OpKind,
    xs: Seq<V>,
    gy: V,
    a: Seq<V>,
    b: Seq<V>,
)
    requires
        deterministic::<V>(),
        backward_rel(kind, xs, gy, a),
        backward_rel(kind, xs, gy, b),
    ensures
        a == b,
{
    match kind {
        OpKind::Square => {
            let s = choose|t: V| is_twice(xs[0], t) && #[trigger] is_product(t, gy, a[0]);
            let t = choose|t: V| is_twice(xs[0], t) && #[trigger] is_product(t, gy, b[0]);
            assert(is_twice(xs[0], s) && is_twice(xs[0], t));
            assert(is_product(s, gy, a[0]) && is_product(s, gy, b[0]));
        },
        OpKind::Exp => {
            let s = choose|e: V| is_exp(xs[0], e) && #[trigger] is_product(e, gy, a[0]);
            let t = choose|e: V| is_exp(xs[0], e) && #[trigger] is_product(e, gy, b[0]);
            assert(is_exp(xs[0], s) && is_exp(xs[0], t));
            assert(is_product(s, gy, a[0]) && is_product(s, gy, b[0]));
        },
        OpKind::Add => {
            assert(cloned(gy, a[0]) && cloned(gy, b[0]));
            assert(cloned(gy, a[1]) && cloned(gy, b[1]));
        },
    }
    assert(a =~= b);
}

/// Where the operations of `V` are functions, visiting an operation has one
/// outcome.
pub proof fn lemma_stepped_unique<V: Scalar>(
    before: Seq<VariableCell<V>>,
    f: FunctionCell,
    a: Seq<VariableCell<V>>,
    b: Seq<VariableCell<V>>,
)
    requires
        deterministic::<V>(),
        stepped(before, f, a),
        stepped(before, f, b),
    ensures
        a == b,
{
    let (gya, gxa, ta) = choose|gys: Seq<V>, gxs: Seq<V>, trace: Seq<Seq<VariableCell<V>>>|
        #![trigger absorbed(before, f.inputs@, gxs, a, trace), gathered(before, f.outputs@, gys)]
        {
            &&& gathered(before, f.outputs@, gys)
            &&& gys.len() > 0
            &&& backward_rel(f.kind, input_data(before, f.inputs@), gys[0], gxs)
            &&& absorbed(before, f.inputs@, gxs, a, trace)
        };
    let (gyb, gxb, tb) = choose|gys: Seq<V>, gxs: Seq<V>, trace: Seq<Seq<VariableCell<V>>>|
        #![trigger absorbed(before, f.inputs@, gxs, b, trace), gathered(before, f.outputs@, gys)]
        {
            &&& gathered(before, f.outputs@, gys)
            &&& gys.len() > 0
            &&& backward_rel(f.kind, input_data(before, f.inputs@), gys[0], gxs)
            &&& absorbed(before, f.inputs@, gxs, b, trace)
        };
    let held = held_grads(before, f.outputs@);
    assert(cloned(held[0], gya[0]) && cloned(held[0], gyb[0]));
    lemma_backward_unique(f.kind, input_data(before, f.inputs@), gya[0], gxa, gxb);
    lemma_absorbed_unique(before, f.inputs@, gxa, a, ta, b, tb, f.inputs@.len() as int);
}

/// Two schedules of the same pass agree up to position `n`.
proof fn lemma_schedules_agree<V>(
    vars: Seq<VariableCell<V>>,
    funcs: Seq<FunctionCell>,
    root: int,
    a: Seq<int>,
    b: Seq<int>,
    n: int,
)
    requires
        is_schedule(vars, funcs, root, a),
        is_schedule(vars, funcs, root, b),
        0 <= n <= a.len(),
    ensures
        n <= b.len(),
        forall|i: int| 0 <= i < n ==> a[i] == b[i],
    decreases n,
{
    if n > 0 {
        lemma_schedules_agree(vars, funcs, root, a, b, n - 1);
        let i = n - 1;
        let k = a[i];
        assert(a.contains(k));
        assert(b.contains(k));
        let m = choose|m: int| 0 <= m < b.len() && b[m] == k;
        if m < i {
            assert(a[m] == b[m]);
            assert(outranks(funcs, a[m], a[i]));
        }
        assert(i < b.len());
        let h = b[i];
        assert(b.contains(h));
        assert(a.contains(h));
        let w = choose|w: int| 0 <= w < a.len() && a[w] == h;
        if w < i {
            assert(a[w] == b[w]);
            assert(outranks(funcs, b[w], b[i]));
        }
        if m > i {
            assert(outranks(funcs, b[i], b[m]));
        }
        if w > i {
            assert(outranks(funcs, a[i], a[w]));
        }
        assert(a[i] == b[i]);
    }
}

/// A backward pass has one schedule: the order of its visits is fixed by the
/// graph.
pub proof fn lemma_schedule_unique<V>(
    vars: Seq<VariableCell<V>>,
    funcs: Seq<FunctionCell>,
    root: int,
    a: Seq<int>,
    b: Seq<int>,
)
    requires
        is_schedule(vars, funcs, root, a),
        is_schedule(vars, funcs, root, b),
    ensures
        a == b,
{
    lemma_schedules_agree(vars, funcs, root, a, b, a.len() as int);
    lemma_schedules_agree(vars, funcs, root, b, a, b.len() as int);
    assert(a =~= b);
}

/// Where the operations of `V` are functions, two runs over the same order
/// agree state by state.
pub proof fn lemma_ran_unique<V: Scalar>(
    start: Seq<VariableCell<V>>,
    funcs: Seq<FunctionCell>,
    order: Seq<int>,
    a: Seq<VariableCell<V>>,
    sa: Seq<Seq<VariableCell<V>>>,
    b: Seq<VariableCell<V>>,
    sb: Seq<Seq<VariableCell<V>>>,
    n: int,
)
    requires
        deterministic::<V>(),
        ran(start, funcs, order, a, sa),
        ran(start, funcs, order, b, sb),
        0 <= n <= order.len(),
    ensures
        sa[n] == sb[n],
    decreases n,
{
    if n > 0 {
        lemma_ran_unique(start, funcs, order, a, sa, b, sb, n - 1);
        assert(stepped(sa[n - 1], funcs[order[n - 1]], sa[n - 1 + 1]));
        assert(stepped(sb[n - 1], funcs[order[n - 1]], sb[n - 1 + 1]));
        lemma_stepped_unique(sa[n - 1], funcs[order[n - 1]], sa[n], sb[n]);
    }
}

/// Where the operations of `V` are functions, so is the backward pass: from
/// one state of the tape it leads to one state only. Running it again from
/// the state it started in reproduces every gradient.
pub proof fn lemma_backward_is_a_function<V: Scalar>(
    before: Seq<VariableCell<V>>,
    funcs: Seq<FunctionCell>,
    root: int,
    a: Seq<VariableCell<V>>,
    b: Seq<VariableCell<V>>,
)
    requires
        deterministic::<V>(),
        backpropagated(before, funcs, root, a),
        backpropagated(before, funcs, root, b),
    ensures
        a == b,
{
    let sa = choose|start: Seq<VariableCell<V>>|
        #![trigger seeded(before, root, start)]
        seeded(before, root, start) && propagated(start, funcs, root, a);
    let sb = choose|start: Seq<VariableCell<V>>|
        #![trigger seeded(before, root, start)]
        seeded(before, root, start) && propagated(start, funcs, root, b);
    assert forall|u: int| 0 <= u < sa.len() implies sa[u] == sb[u] by {
        if u != root {
            assert(sa[u] == before[u]);
            assert(sb[u] == before[u]);
        } else {
            match before[root].grad {
                None => {
                    assert(is_ones_like(before[root].data, sa[root].grad.unwrap()) && is_ones_like(
                        before[root].data,
                        sb[root].grad.unwrap(),
                    ));
                },
                Some(held) => {},
            }
        }
    }
    assert(sa =~= sb);
    let (oa, ta) = choose|order: Seq<int>, states: Seq<Seq<VariableCell<V>>>|
        #![trigger ran(sa, funcs, order, a, states)]
        is_schedule(sa, funcs, root, order) && ran(sa, funcs, order, a, states);
    let (ob, tb) = choose|order: Seq<int>, states: Seq<Seq<VariableCell<V>>>|
        #![trigger ran(sb, funcs, order, b, states)]
        is_schedule(sb, funcs, root, order) && ran(sb, funcs, order, b, states);
    lemma_schedule_unique(sa, funcs, root, oa, ob);
    lemma_ran_unique(sa, funcs, oa, a, ta, b, tb, oa.len() as int);
}

/// All gradients of `vars` are cleared.
pub open spec fn cleared<V>(vars: Seq<VariableCell<V>>) -> bool {
    forall|v: int| 0 <= v < vars.len() ==> (#[trigger] vars[v]).grad is None
}

/// Clearing the gradients and running the backward pass again over the same
/// forward graph reproduces the gradients of the first run: where a pass
/// from `root` leads from a tape without gradients to `first`, a pass from
/// `root` over `first` with every gradient cleared leads to `first` again.
pub proof fn lemma_replay_reproduces<V: Scalar>(
    before: Seq<VariableCell<V>>,
    funcs: Seq<FunctionCell>,
    root: int,
    first: Seq<VariableCell<V>>,
    again: Seq<VariableCell<V>>,
    second: Seq<VariableCell<V>>,
)
    requires
        deterministic::<V>(),
        cleared(before),
        backpropagated(before, funcs, root, first),
        same_forward(first, again),
        cleared(again),
        backpropagated(again, funcs, root, second),
    ensures
        second == first,
{
    lemma_backpropagated_keeps_forward(before, funcs, root, first);
    assert forall|v: int| 0 <= v < before.len() implies before[v] == again[v] by {
        assert(before[v].grad is None);
        assert(again[v].grad is None);
        assert(first[v].data == again[v].data);
    }
    assert(before =~= again);
    lemma_backward_is_a_function(before, funcs, root, first, second);
}

/// A backward pass changes nothing but gradients.
pub proof fn lemma_backpropagated_keeps_forward<V: Scalar>(
    before: Seq<VariableCell<V>>,
    funcs: Seq<FunctionCell>,
    root: int,
    after: Seq<VariableCell<V>>,
)
    requires
        backpropagated(before, funcs, root, after),
    ensures
        same_forward(before, after),
{
    let start = choose|start: Seq<VariableCell<V>>|
        #![trigger seeded(before, root, start)]
        seeded(before, root, start) && propagated(start, funcs, root, after);
    let (order, states) = choose|order: Seq<int>, states: Seq<Seq<VariableCell<V>>>|
        #![trigger ran(start, funcs, order, after, states)]
        is_schedule(start, funcs, root, order) && ran(start, funcs, order, after, states);
    lemma_ran_keeps_forward(start, funcs, order, after, states, order.len() as int);
    assert forall|v: int| 0 <= v < before.len() implies (#[trigger] before[v]).data == after[v].data
        && before[v].creator == after[v].creator && before[v].generation == after[v].generation by {
        assert(start[v].data == after[v].data);
    }
}

/// No state of a run differs from the first in anything but gradients.
pub proof fn lemma_ran_keeps_forward<V: Scalar>(
    start: Seq<VariableCell<V>>,
    funcs: Seq<FunctionCell>,
    order: Seq<int>,
    end: Seq<VariableCell<V>>,
    states: Seq<Seq<VariableCell<V>>>,
    n: int,
)
    requires
        ran(start, funcs, order, end, states),
        0 <= n <= order.len(),
    ensures
        same_forward(start, states[n]),
    decreases n,
{
    if n > 0 {
        lemma_ran_keeps_forward(start, funcs, order, end, states, n - 1);
        assert(stepped(states[n - 1], funcs[order[n - 1]], states[n - 1 + 1]));
        lemma_stepped_keeps_forward(states[n - 1], funcs[order[n - 1]], states[n]);
        assert forall|v: int| 0 <= v < start.len()
            implies (#[trigger] start[v]).data == states[n][v].data
            && start[v].creator == states[n][v].creator && start[v].generation
            == states[n][v].generation by {
            assert(states[n - 1][v].data == states[n][v].data);
        }
    }
}

/// Visiting an operation changes nothing but gradients.
pub proof fn lemma_stepped_keeps_forward<V: Scalar>(
    before: Seq<VariableCell<V>>,
    f: FunctionCell,
    after: Seq<VariableCell<V>>,
)
    requires
        stepped(before, f, after),
    ensures
        same_forward(before, after),
{
    let (gys, gxs, trace) = choose|gys: Seq<V>, gxs: Seq<V>, trace: Seq<Seq<VariableCell<V>>>|
        #![trigger absorbed(before, f.inputs@, gxs, after, trace),
            gathered(before, f.outputs@, gys)]
        {
            &&& gathered(before, f.outputs@, gys)
            &&& gys.len() > 0
            &&& backward_rel(f.kind, input_data(before, f.inputs@), gys[0], gxs)
            &&& absorbed(before, f.inputs@, gxs, after, trace)
        };
    lemma_absorbed_keeps_forward(before, f.inputs@, gxs, after, trace, f.inputs@.len() as int);
}

/// No state of an accumulation differs from the first in anything but
/// gradients.
pub proof fn lemma_absorbed_keeps_forward<V: Scalar>(
    before: Seq<VariableCell<V>>,
    inputs: Seq<usize>,
    gxs: Seq<V>,
    after: Seq<VariableCell<V>>,
    trace: Seq<Seq<VariableCell<V>>>,
    n: int,
)
    requires
        absorbed(before, inputs, gxs, after, trace),
        0 <= n <= inputs.len(),
    ensures
        same_forward(before, trace[n]),
    decreases n,
{
    if n > 0 {
        lemma_absorbed_keeps_forward(before, inputs, gxs, after, trace, n - 1);
        assert(deposited(trace[n - 1], inputs[n - 1] as int, gxs[n - 1], trace[n - 1 + 1]));
        assert forall|v: int| 0 <= v < before.len()
            implies (#[trigger] before[v]).data == trace[n][v].data
            && before[v].creator == trace[n][v].creator && before[v].generation
            == trace[n][v].generation by {
            assert(trace[n - 1][v].data == before[v].data);
            if v != inputs[n - 1] {
                assert(trace[n][v] == trace[n - 1][v]);
            }
        }
    }
}

} // verus!
