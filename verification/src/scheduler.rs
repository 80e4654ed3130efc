//! The backward pass: which operations it visits, in which order, and what it
//! leaves in the gradients.

use crate::function::{backward_rel, input_data};
use crate::scalar::Scalar;
use crate::tape::{
    deposited, func_wf, graph_wf, lemma_grads_keep_wf, same_forward, seeded, var_wf, FunctionCell,
    Tape, Variable, VariableCell,
};
use vstd::prelude::*;

verus! {

/// Operation `a` is visited before operation `b`: it lies in a higher
/// generation, or in the same generation and was recorded later.
pub open spec fn outranks(funcs: Seq<FunctionCell>, a: int, b: int) -> bool {
    funcs[a].generation > funcs[b].generation || (funcs[a].generation == funcs[b].generation && a
        > b)
}

/// Operation `c` produced the variable in input slot `slot` of operation `f`.
pub open spec fn feeds_slot<V>(
    vars: Seq<VariableCell<V>>,
    funcs: Seq<FunctionCell>,
    c: int,
    f: int,
    slot: int,
) -> bool {
    &&& 0 <= slot < funcs[f].inputs@.len()
    &&& vars[funcs[f].inputs@[slot] as int].creator matches Some(u) && u == c
}

/// Operation `c` produced one of the inputs of operation `f`.
pub open spec fn feeds<V>(vars: Seq<VariableCell<V>>, funcs: Seq<FunctionCell>, c: int,
    f: int) -> bool {
    exists|slot: int| feeds_slot(vars, funcs, c, f, slot)
}

/// `path` walks the graph upstream: each operation on it produced an input of
/// the operation before it.
pub open spec fn is_path<V>(vars: Seq<VariableCell<V>>, funcs: Seq<FunctionCell>,
    path: Seq<int>) -> bool {
    &&& path.len() > 0
    &&& forall|i: int| 0 <= i < path.len() ==> 0 <= #[trigger] path[i] < funcs.len()
    &&& forall|i: int| 1 <= i < path.len() ==> feeds(vars, funcs, #[trigger] path[i], path[i - 1])
}

/// Operation `k` lies upstream of variable `root`: a path leads from the
/// creator of `root` to `k`.
pub open spec fn reaches<V>(
    vars: Seq<VariableCell<V>>,
    funcs: Seq<FunctionCell>,
    root: int,
    k: int,
) -> bool {
    exists|path: Seq<int>|
        #![trigger is_path(vars, funcs, path)]
        is_path(vars, funcs, path) && (vars[root].creator matches Some(u) && u == path[0])
            && path.last() == k
}

/// `order` is the order in which a backward pass from `root` visits
/// operations: it holds exactly the operations upstream of `root`, each
/// before every operation that it outranks.
pub open spec fn is_schedule<V>(
    vars: Seq<VariableCell<V>>,
    funcs: Seq<FunctionCell>,
    root: int,
    order: Seq<int>,
) -> bool {
    &&& forall|i: int, j: int|
        0 <= i < j < order.len() ==> outranks(funcs, #[trigger] order[i], #[trigger] order[j])
    &&& forall|k: int| #[trigger] order.contains(k) <==> reaches(vars, funcs, root, k)
}

/// The gradients held by the variables `outputs`, in order; a variable
/// without gradient contributes nothing.
pub open spec fn held_grads<V>(vars: Seq<VariableCell<V>>, outputs: Seq<usize>) -> Seq<V>
    decreases outputs.len(),
{
    if outputs.len() == 0 {
        Seq::empty()
    } else {
        let rest = held_grads(vars, outputs.drop_last());
        match vars[outputs.last() as int].grad {
            Some(g) => rest.push(g),
            None => rest,
        }
    }
}

/// `gys` holds a clone of each gradient held by the variables `outputs`.
pub open spec fn gathered<V: Scalar>(
    vars: Seq<VariableCell<V>>,
    outputs: Seq<usize>,
    gys: Seq<V>,
) -> bool {
    let held = held_grads(vars, outputs);
    &&& gys.len() == held.len()
    &&& forall|i: int| 0 <= i < gys.len() ==> cloned(held[i], #[trigger] gys[i])
}

/// Accumulating `gxs[i]` into the variable `inputs[i]`, for each `i` in
/// order, leads from `before` to `after` through the states `trace`.
pub open spec fn absorbed<V: Scalar>(
    before: Seq<VariableCell<V>>,
    inputs: Seq<usize>,
    gxs: Seq<V>,
    after: Seq<VariableCell<V>>,
    trace: Seq<Seq<VariableCell<V>>>,
) -> bool {
    &&& gxs.len() == inputs.len()
    &&& trace.len() == inputs.len() + 1
    &&& trace[0] == before
    &&& trace.last() == after
    &&& forall|i: int|
        0 <= i < inputs.len()
            ==> deposited(#[trigger] trace[i], inputs[i] as int, gxs[i], trace[i + 1])
}

/// Visiting operation `f` leads from `before` to `after`: the gradients of
/// its outputs are gathered, its backward formula turns the first of them
/// into one gradient for each input, and these are accumulated into the
/// inputs in order.
pub open spec fn stepped<V: Scalar>(
    before: Seq<VariableCell<V>>,
    f: FunctionCell,
    after: Seq<VariableCell<V>>,
) -> bool {
    exists|gys: Seq<V>, gxs: Seq<V>, trace: Seq<Seq<VariableCell<V>>>|
        #![trigger absorbed(before, f.inputs@, gxs, after, trace),
            gathered(before, f.outputs@, gys)]
        {
            &&& gathered(before, f.outputs@, gys)
            &&& gys.len() > 0
            &&& backward_rel(f.kind, input_data(before, f.inputs@), gys[0], gxs)
            &&& absorbed(before, f.inputs@, gxs, after, trace)
        }
}

/// Visiting the operations `order` one after another leads from `start` to
/// `end` through the states `states`.
pub open spec fn ran<V: Scalar>(
    start: Seq<VariableCell<V>>,
    funcs: Seq<FunctionCell>,
    order: Seq<int>,
    end: Seq<VariableCell<V>>,
    states: Seq<Seq<VariableCell<V>>>,
) -> bool {
    &&& states.len() == order.len() + 1
    &&& states[0] == start
    &&& states.last() == end
    &&& forall|i: int|
        0 <= i < order.len() ==> stepped(#[trigger] states[i], funcs[order[i]], states[i + 1])
}

/// A backward pass from `root`, which holds a gradient, leads from `start`
/// to `end`: the operations upstream of `root` are visited in schedule
/// order.
pub open spec fn propagated<V: Scalar>(
    start: Seq<VariableCell<V>>,
    funcs: Seq<FunctionCell>,
    root: int,
    end: Seq<VariableCell<V>>,
) -> bool {
    exists|order: Seq<int>, states: Seq<Seq<VariableCell<V>>>|
        #![trigger ran(start, funcs, order, end, states)]
        is_schedule(start, funcs, root, order) && ran(start, funcs, order, end, states)
}

/// Removes from `queue` the operation that outranks all others in it, and
/// returns it.
fn pop_highest(queue: &mut Vec<usize>, funcs: &Vec<FunctionCell>) -> (k: usize)
    requires
        old(queue)@.len() > 0,
        forall|j: int| 0 <= j < old(queue)@.len() ==> (#[trigger] old(queue)@[j]) < funcs@.len(),
        old(queue)@.no_duplicates(),
    ensures
        old(queue)@.contains(k),
        final(queue)@.len() + 1 == old(queue)@.len(),
        final(queue)@.no_duplicates(),
        forall|x: usize| #[trigger] final(queue)@.contains(x)
            <==> old(queue)@.contains(x) && x != k,
        forall|j: int|
            0 <= j < final(queue)@.len()
                ==> outranks(funcs@, k as int, (#[trigger] final(queue)@[j]) as int),
{
    let mut best: usize = 0;
    let mut i: usize = 1;
    while i < queue.len()
        invariant
            queue@ == old(queue)@,
            1 <= i <= queue@.len(),
            best < i,
            forall|j: int| 0 <= j < queue@.len() ==> (#[trigger] queue@[j]) < funcs@.len(),
            queue@.no_duplicates(),
            forall|j: int|
                0 <= j < i && j != best
                    ==> outranks(funcs@, queue@[best as int] as int, (#[trigger] queue@[j]) as int),
        decreases queue@.len() - i,
    {
        let a: usize = queue[i];
        let b: usize = queue[best];
        let ga: u128 = funcs[a].generation;
        let gb: u128 = funcs[b].generation;
        if ga > gb || (ga == gb && a > b) {
            assert forall|j: int| 0 <= j < i + 1 && j != i implies outranks(
                funcs@,
                a as int,
                (#[trigger] queue@[j]) as int,
            ) by {
                if j != best {
                    assert(outranks(funcs@, b as int, queue@[j] as int));
                }
            }
            best = i;
        } else {
            assert(a != b);
        }
        i = i + 1;
    }
    let ghost before = queue@;
    let k: usize = queue.remove(best);
    proof {
        assert(before[best as int] == k);
        assert forall|x: usize| #[trigger] queue@.contains(x) <==> before.contains(x) && x != k by {
            if queue@.contains(x) {
                let j = choose|j: int| 0 <= j < queue@.len() && queue@[j] == x;
                if j < best {
                    assert(before[j] == x);
                } else {
                    assert(before[j + 1] == x);
                }
            }
            if before.contains(x) && x != k {
                let j = choose|j: int| 0 <= j < before.len() && before[j] == x;
                if j < best {
                    assert(queue@[j] == x);
                } else {
                    assert(queue@[j - 1] == x);
                }
            }
        }
        assert forall|j: int| 0 <= j < queue@.len() implies outranks(
            funcs@,
            k as int,
            (#[trigger] queue@[j]) as int,
        ) by {
            if j < best {
                assert(queue@[j] == before[j]);
            } else {
                assert(queue@[j] == before[j + 1]);
            }
        }
        assert forall|i: int, j: int|
            0 <= i < queue@.len() && 0 <= j < queue@.len() && i != j implies
            queue@[i] != queue@[j] by {
            let a = if i < best { i } else { i + 1 };
            let b = if j < best { j } else { j + 1 };
            assert(queue@[i] == before[a] && queue@[j] == before[b]);
        }
    }
    k
}

/// Clones of the gradients held by the outputs of operation `k`.
fn gather<V: Scalar>(tape: &Tape<V>, k: usize) -> (gys: Vec<V>)
    requires
        k < tape.funcs().len(),
        forall|j: int|
            0 <= j < tape.funcs()[k as int].outputs@.len()
                ==> (#[trigger] tape.funcs()[k as int].outputs@[j])
                < tape.vars().len(),
    ensures
        gathered(tape.vars(), tape.funcs()[k as int].outputs@, gys@),
{
    proof {
        tape.lemma_views();
    }
    let outputs = &tape.funcs[k].outputs;
    let mut gys: Vec<V> = Vec::new();
    let mut j: usize = 0;
    while j < outputs.len()
        invariant
            j <= outputs@.len(),
            tape.vars() == tape.vars@,
            forall|i: int| 0 <= i < outputs@.len() ==> (#[trigger] outputs@[i]) < tape.vars().len(),
            gathered(tape.vars(), outputs@.subrange(0, j as int), gys@),
        decreases outputs@.len() - j,
    {
        let ghost prefix = outputs@.subrange(0, j as int);
        let ghost longer = outputs@.subrange(0, j + 1);
        assert(longer.drop_last() =~= prefix);
        match &tape.vars[outputs[j]].grad {
            Some(g) => {
                gys.push(g.clone());
            },
            None => {},
        }
        j = j + 1;
    }
    assert(outputs@.subrange(0, j as int) =~= outputs@);
    gys
}

/// The bookkeeping of a pass that has visited `order` and holds `queue`:
/// every operation marked in `seen` is visited or queued and lies upstream of
/// `root`, no operation is queued twice, and every visited operation
/// outranks the visited ones after it and all queued ones.
spec fn frontier<V>(
    vars: Seq<VariableCell<V>>,
    funcs: Seq<FunctionCell>,
    root: int,
    seen: Seq<bool>,
    queue: Seq<usize>,
    order: Seq<int>,
) -> bool {
    &&& seen.len() == funcs.len()
    &&& funcs.len() <= usize::MAX
    &&& queue.no_duplicates()
    &&& forall|j: int| 0 <= j < queue.len() ==> (#[trigger] queue[j]) < funcs.len()
    &&& forall|i: int| 0 <= i < order.len() ==> 0 <= #[trigger] order[i] < funcs.len()
    &&& forall|k: int|
        0 <= k < funcs.len() ==> (#[trigger] seen[k] <==> (order.contains(k) || queue.contains(
            k as usize,
        )))
    &&& forall|i: int, j: int|
        0 <= i < j < order.len() ==> outranks(funcs, #[trigger] order[i], #[trigger] order[j])
    &&& forall|i: int, j: int|
        0 <= i < order.len() && 0 <= j < queue.len() ==> outranks(
            funcs,
            #[trigger] order[i],
            (#[trigger] queue[j]) as int,
        )
    &&& forall|k: int| 0 <= k < funcs.len() && #[trigger] seen[k] ==> reaches(vars, funcs, root, k)
    &&& vars[root].creator matches Some(c) ==> c < funcs.len() && seen[c as int]
}

/// The creators of the first `slots` inputs of operation `k` are marked in
/// `seen`.
spec fn closed_at<V>(
    vars: Seq<VariableCell<V>>,
    funcs: Seq<FunctionCell>,
    seen: Seq<bool>,
    k: int,
    slots: int,
) -> bool {
    forall|s: int|
        0 <= s < slots ==> (vars[#[trigger] funcs[k].inputs@[s] as int].creator matches Some(c)
            ==> c < seen.len() && seen[c as int])
}

/// Every output of operation `k` holds a gradient.
spec fn ready<V>(vars: Seq<VariableCell<V>>, funcs: Seq<FunctionCell>, k: int) -> bool {
    forall|j: int|
        0 <= j < funcs[k].outputs@.len()
            ==> vars[#[trigger] funcs[k].outputs@[j] as int].grad is Some
}

/// Operation `k` comes below the rank `(generation, id)`.
spec fn below(funcs: Seq<FunctionCell>, k: int, generation: int, id: int) -> bool {
    funcs[k].generation < generation || (funcs[k].generation == generation && k < id)
}

/// An operation that feeds another lies in a lower generation.
pub proof fn lemma_feeds_lower<V>(
    vars: Seq<VariableCell<V>>,
    funcs: Seq<FunctionCell>,
    c: int,
    f: int,
)
    requires
        graph_wf(vars, funcs),
        0 <= f < funcs.len(),
        feeds(vars, funcs, c, f),
    ensures
        0 <= c < funcs.len(),
        funcs[c].generation < funcs[f].generation,
        funcs[c].outputs@.len() == 1,
        exists|slot: int|
            feeds_slot(vars, funcs, c, f, slot) && funcs[c].outputs@[0] == funcs[f].inputs@[slot],
{
    let slot = choose|slot: int| feeds_slot(vars, funcs, c, f, slot);
    assert(func_wf(vars, funcs, f));
    let x = funcs[f].inputs@[slot];
    assert(x < vars.len());
    assert(var_wf(vars, funcs, x as int));
    assert(func_wf(vars, funcs, c));
    let j = choose|j: int| 0 <= j < funcs[c].outputs@.len() && #[trigger] funcs[c].outputs@[j] == x;
    assert(j == 0);
    assert(feeds_slot(vars, funcs, c, f, slot) && funcs[c].outputs@[0] == funcs[f].inputs@[slot]);
}

/// An operation that feeds an operation upstream of `root` lies upstream of
/// `root` too.
pub proof fn lemma_reaches_step<V>(
    vars: Seq<VariableCell<V>>,
    funcs: Seq<FunctionCell>,
    root: int,
    f: int,
    c: int,
)
    requires
        reaches(vars, funcs, root, f),
        feeds(vars, funcs, c, f),
        0 <= c < funcs.len(),
    ensures
        reaches(vars, funcs, root, c),
{
    let path = choose|path: Seq<int>|
        #![trigger is_path(vars, funcs, path)]
        is_path(vars, funcs, path) && (vars[root].creator matches Some(u) && u == path[0])
            && path.last() == f;
    let longer = path.push(c);
    assert forall|i: int| 1 <= i < longer.len() implies feeds(
        vars,
        funcs,
        #[trigger] longer[i],
        longer[i - 1],
    ) by {
        if i < path.len() {
            assert(longer[i] == path[i]);
            assert(feeds(vars, funcs, path[i], path[i - 1]));
        }
    }
    assert forall|i: int| 0 <= i < longer.len() implies 0 <= #[trigger] longer[i] < funcs.len() by {
        if i < path.len() {
            assert(longer[i] == path[i]);
        }
    }
    assert(is_path(vars, funcs, longer));
    assert(longer[0] == path[0]);
    assert(longer.last() == c);
}

/// The creator of `root` lies upstream of `root`.
pub proof fn lemma_reaches_start<V>(
    vars: Seq<VariableCell<V>>,
    funcs: Seq<FunctionCell>,
    root: int,
    c: int,
)
    requires
        0 <= c < funcs.len(),
        vars[root].creator matches Some(u) && u == c,
    ensures
        reaches(vars, funcs, root, c),
{
    let path = seq![c];
    assert(is_path(vars, funcs, path));
    assert(path[0] == c && path.last() == c);
}

/// Once nothing is queued, every operation on a path from the creator of
/// `root` has been visited.
proof fn lemma_path_visited<V>(
    vars: Seq<VariableCell<V>>,
    funcs: Seq<FunctionCell>,
    root: int,
    seen: Seq<bool>,
    order: Seq<int>,
    path: Seq<int>,
    n: int,
)
    requires
        frontier(vars, funcs, root, seen, Seq::<usize>::empty(), order),
        forall|i: int|
            0 <= i < order.len() ==> closed_at(
                vars,
                funcs,
                seen,
                #[trigger] order[i],
                funcs[order[i]].inputs@.len() as int,
            ),
        is_path(vars, funcs, path),
        vars[root].creator matches Some(u) && u == path[0],
        0 <= n < path.len(),
    ensures
        order.contains(path[n]),
    decreases n,
{
    let c = path[n];
    assert(0 <= c < funcs.len());
    if n == 0 {
        assert(seen[c]);
    } else {
        lemma_path_visited(vars, funcs, root, seen, order, path, n - 1);
        let f = path[n - 1];
        assert(feeds(vars, funcs, c, f));
        let slot = choose|slot: int| feeds_slot(vars, funcs, c, f, slot);
        let i = choose|i: int| 0 <= i < order.len() && order[i] == f;
        assert(closed_at(vars, funcs, seen, order[i], funcs[order[i]].inputs@.len() as int));
        assert(seen[c]);
    }
    assert(!Seq::<usize>::empty().contains(c as usize));
}

/// Once nothing is queued, the visited operations are exactly those upstream
/// of `root`, in schedule order.
proof fn lemma_frontier_complete<V>(
    vars: Seq<VariableCell<V>>,
    funcs: Seq<FunctionCell>,
    root: int,
    seen: Seq<bool>,
    order: Seq<int>,
)
    requires
        frontier(vars, funcs, root, seen, Seq::<usize>::empty(), order),
        forall|i: int|
            0 <= i < order.len() ==> closed_at(
                vars,
                funcs,
                seen,
                #[trigger] order[i],
                funcs[order[i]].inputs@.len() as int,
            ),
    ensures
        is_schedule(vars, funcs, root, order),
{
    assert forall|k: int| #[trigger] order.contains(k) implies reaches(vars, funcs, root, k) by {
        let i = choose|i: int| 0 <= i < order.len() && order[i] == k;
        assert(0 <= order[i] < funcs.len());
        assert(seen[k]);
    }
    assert forall|k: int| reaches(vars, funcs, root, k) implies #[trigger] order.contains(k) by {
        let path = choose|path: Seq<int>|
            #![trigger is_path(vars, funcs, path)]
            is_path(vars, funcs, path) && (vars[root].creator matches Some(u) && u == path[0])
                && path.last() == k;
        lemma_path_visited(vars, funcs, root, seen, order, path, path.len() - 1);
    }
}

/// Taking the queued operation `k` that outranks the rest of the queue, and
/// visiting it next, keeps the bookkeeping sound.
proof fn lemma_frontier_pop<V>(
    vars: Seq<VariableCell<V>>,
    funcs: Seq<FunctionCell>,
    root: int,
    seen: Seq<bool>,
    queue: Seq<usize>,
    rest: Seq<usize>,
    order: Seq<int>,
    k: usize,
)
    requires
        frontier(vars, funcs, root, seen, queue, order),
        queue.contains(k),
        rest.no_duplicates(),
        forall|x: usize| #[trigger] rest.contains(x) <==> queue.contains(x) && x != k,
        forall|j: int|
            0 <= j < rest.len() ==>
                outranks(funcs, k as int, (#[trigger] rest[j]) as int),
    ensures
        frontier(vars, funcs, root, seen, rest, order.push(k as int)),
        k < funcs.len(),
{
    let longer = order.push(k as int);
    let at = choose|j: int| 0 <= j < queue.len() && queue[j] == k;
    assert(queue[at] < funcs.len());
    assert forall|j: int| 0 <= j < rest.len() implies (#[trigger] rest[j]) < funcs.len() by {
        assert(rest.contains(rest[j]));
        let i = choose|i: int| 0 <= i < queue.len() && queue[i] == rest[j];
        assert(queue[i] < funcs.len());
    }
    assert forall|n: int| 0 <= n < funcs.len() implies (#[trigger] seen[n] <==> (longer.contains(n)
        || rest.contains(n as usize))) by {
        if order.contains(n) {
            let i = choose|i: int| 0 <= i < order.len() && order[i] == n;
            assert(longer[i] == n);
        }
        if n == k {
            assert(longer[order.len() as int] == n);
        }
        if longer.contains(n) {
            let i = choose|i: int| 0 <= i < longer.len() && longer[i] == n;
            if i < order.len() {
                assert(order[i] == n);
            }
        }
        if queue.contains(n as usize) && n != k {
            assert(rest.contains(n as usize));
        }
    }
    assert forall|i: int, j: int| 0 <= i < j < longer.len() implies outranks(
        funcs,
        #[trigger] longer[i],
        #[trigger] longer[j],
    ) by {
        assert(longer[i] == order[i]);
        if j < order.len() {
            assert(longer[j] == order[j]);
        } else {
            assert(outranks(funcs, order[i], queue[at] as int));
        }
    }
    assert forall|i: int, j: int| 0 <= i < longer.len() && 0 <= j < rest.len() implies outranks(
        funcs,
        #[trigger] longer[i],
        (#[trigger] rest[j]) as int,
    ) by {
        assert(rest.contains(rest[j]));
        let m = choose|m: int| 0 <= m < queue.len() && queue[m] == rest[j];
        if i < order.len() {
            assert(longer[i] == order[i]);
            assert(outranks(funcs, order[i], queue[m] as int));
        }
    }
    assert forall|i: int| 0 <= i < longer.len() implies 0 <= #[trigger] longer[i] < funcs.len() by {
        if i < order.len() {
            assert(longer[i] == order[i]);
        }
    }
}

/// Marking and queueing an unseen operation `c` that feeds the operation
/// visited last keeps the bookkeeping sound.
proof fn lemma_frontier_push<V>(
    vars: Seq<VariableCell<V>>,
    funcs: Seq<FunctionCell>,
    root: int,
    seen: Seq<bool>,
    queue: Seq<usize>,
    order: Seq<int>,
    c: usize,
)
    requires
        graph_wf(vars, funcs),
        frontier(vars, funcs, root, seen, queue, order),
        order.len() > 0,
        feeds(vars, funcs, c as int, order.last()),
        c < funcs.len(),
        !seen[c as int],
    ensures
        frontier(vars, funcs, root, seen.update(c as int, true), queue.push(c), order),
        funcs[c as int].generation < funcs[order.last()].generation,
{
    let k = order.last();
    let marked = seen.update(c as int, true);
    let longer = queue.push(c);
    assert(0 <= order[order.len() - 1] < funcs.len());
    lemma_feeds_lower(vars, funcs, c as int, k);
    assert(seen[k]) by {
        assert(order.contains(order[order.len() - 1]));
    }
    lemma_reaches_step(vars, funcs, root, k, c as int);
    assert(!queue.contains(c));
    assert(longer.no_duplicates()) by {
        assert forall|i: int, j: int|
            0 <= i < longer.len() && 0 <= j < longer.len() && i != j implies
            longer[i] != longer[j] by {
            if i < queue.len() && j < queue.len() {
                assert(queue[i] != queue[j]);
            } else if i < queue.len() {
                assert(queue.contains(queue[i]));
            } else {
                assert(queue.contains(queue[j]));
            }
        }
    }
    assert forall|j: int| 0 <= j < longer.len() implies (#[trigger] longer[j]) < funcs.len() by {
        if j < queue.len() {
            assert(longer[j] == queue[j]);
        }
    }
    assert forall|n: int| 0 <= n < funcs.len() implies (#[trigger] marked[n] <==> (order.contains(n)
        || longer.contains(n as usize))) by {
        assert(seen[n] <==> (order.contains(n) || queue.contains(n as usize)));
        if queue.contains(n as usize) {
            let i = choose|i: int| 0 <= i < queue.len() && queue[i] == n as usize;
            assert(longer[i] == n as usize);
        }
        if n == c {
            assert(longer[queue.len() as int] == c);
        }
        if longer.contains(n as usize) {
            let i = choose|i: int| 0 <= i < longer.len() && longer[i] == n as usize;
            if i < queue.len() {
                assert(queue[i] == n as usize);
            }
        }
    }
    assert forall|i: int, j: int| 0 <= i < order.len() && 0 <= j < longer.len() implies outranks(
        funcs,
        #[trigger] order[i],
        (#[trigger] longer[j]) as int,
    ) by {
        if j < queue.len() {
            assert(longer[j] == queue[j]);
            assert(outranks(funcs, order[i], queue[j] as int));
        } else {
            if i < order.len() - 1 {
                assert(outranks(funcs, order[i], order[order.len() - 1]));
            }
        }
    }
    assert forall|n: int| 0 <= n < funcs.len() && #[trigger] marked[n] implies reaches(
        vars,
        funcs,
        root,
        n,
    ) by {
        if n != c {
            assert(seen[n]);
        }
    }
}

/// Marking one more operation keeps the creators that were marked, marked.
proof fn lemma_closed_grows<V>(
    vars: Seq<VariableCell<V>>,
    funcs: Seq<FunctionCell>,
    seen: Seq<bool>,
    c: int,
    k: int,
    slots: int,
)
    requires
        0 <= c < seen.len(),
        closed_at(vars, funcs, seen, k, slots),
    ensures
        closed_at(vars, funcs, seen.update(c, true), k, slots),
{
}

/// Accumulating a gradient into a variable leaves every gradient that was
/// held, held.
proof fn lemma_deposit_keeps_ready<V: Scalar>(
    before: Seq<VariableCell<V>>,
    x: int,
    g: V,
    after: Seq<VariableCell<V>>,
    funcs: Seq<FunctionCell>,
    k: int,
)
    requires
        deposited(before, x, g, after),
        ready(before, funcs, k),
        forall|j: int|
            0 <= j < funcs[k].outputs@.len() ==> (#[trigger] funcs[k].outputs@[j]) < before.len(),
    ensures
        ready(after, funcs, k),
{
    assert forall|j: int|
        0 <= j < funcs[k].outputs@.len() implies
        after[#[trigger] funcs[k].outputs@[j] as int].grad is Some by {
        let o = funcs[k].outputs@[j] as int;
        if o != x {
            assert(after[o] == before[o]);
        }
    }
}

impl<V: Scalar> Tape<V> {
    /// Propagates the gradient held by variable `root` to every variable
    /// upstream of it.
    ///
    /// The operations upstream of `root` are visited once each, an operation
    /// of a higher generation before one of a lower generation. A visit
    /// gathers the gradients of the operation's outputs, applies its backward
    /// formula and accumulates the result into its inputs. Only gradients
    /// change.
    pub fn backward(&mut self, root: usize)
        requires
            old(self).wf(),
            root < old(self).vars().len(),
            old(self).vars()[root as int].grad is Some,
        ensures
            final(self).wf(),
            final(self).funcs() == old(self).funcs(),
            same_forward(old(self).vars(), final(self).vars()),
            propagated(old(self).vars(), old(self).funcs(), root as int, final(self).vars()),
    {
        proof {
            self.lemma_views();
        }
        let ghost vars0 = self.vars();
        let ghost funcs = self.funcs();
        let n: usize = self.funcs.len();
        let mut seen: Vec<bool> = vec![false; n];
        let mut queue: Vec<usize> = Vec::new();
        let ghost mut order: Seq<int> = Seq::empty();
        let ghost mut states: Seq<Seq<VariableCell<V>>> = seq![vars0];
        let ghost mut top_generation: int = 0;
        let ghost mut top_id: int = 0;
        assert(var_wf(vars0, funcs, root as int));
        match self.vars[root].creator {
            Some(c) => {
                seen[c] = true;
                queue.push(c);
                proof {
                    top_generation = funcs[c as int].generation + 1;
                    lemma_reaches_start(vars0, funcs, root as int, c as int);
                    assert(func_wf(vars0, funcs, c as int));
                    let j = choose|j: int|
                        0 <= j < funcs[c as int].outputs@.len()
                            && #[trigger] funcs[c as int].outputs@[j]
                            == root;
                    assert(queue@[0] == c);
                    assert forall|k: int|
                        0 <= k < funcs.len() implies
                        (#[trigger] seen@[k]
                            <==> (order.contains(k) || queue@.contains(k as usize))) by {
                        if k == c {
                            assert(queue@[0] == k as usize);
                        }
                    }
                }
            },
            None => {},
        }
        while queue.len() > 0
            invariant
                self.funcs() == funcs,
                self.funcs@ == funcs,
                self.vars() == self.vars@,
                graph_wf(vars0, funcs),
                root < vars0.len(),
                same_forward(vars0, self.vars()),
                frontier(vars0, funcs, root as int, seen@, queue@, order),
                forall|i: int|
                    0 <= i < order.len() ==> closed_at(
                        vars0,
                        funcs,
                        seen@,
                        #[trigger] order[i],
                        funcs[order[i]].inputs@.len() as int,
                    ),
                forall|j: int|
                    0 <= j < queue@.len()
                        ==> ready(self.vars(), funcs, (#[trigger] queue@[j]) as int),
                forall|j: int|
                    0 <= j < queue@.len() ==> below(
                        funcs,
                        (#[trigger] queue@[j]) as int,
                        top_generation,
                        top_id,
                    ),
                ran(vars0, funcs, order, self.vars(), states),
                top_generation >= 0,
                top_id >= 0,
            decreases top_generation, top_id,
        {
            let ghost queued = queue@;
            let ghost visited = order;
            let k: usize = pop_highest(&mut queue, &self.funcs);
            let ghost before = self.vars();
            proof {
                lemma_frontier_pop(vars0, funcs, root as int, seen@, queued, queue@, visited, k);
                order = visited.push(k as int);
                let at = choose|j: int| 0 <= j < queued.len() && queued[j] == k;
                assert(ready(before, funcs, queued[at] as int));
                assert(below(funcs, queued[at] as int, top_generation, top_id));
                assert(func_wf(vars0, funcs, k as int));
                assert forall|j: int|
                    0 <= j < queue@.len() implies
                    ready(before, funcs, (#[trigger] queue@[j]) as int) by {
                    assert(queue@.contains(queue@[j]));
                    let m = choose|m: int| 0 <= m < queued.len() && queued[m] == queue@[j];
                    assert(ready(before, funcs, queued[m] as int));
                }
            }
            let gys = gather(&*self, k);
            proof {
                let outputs = funcs[k as int].outputs@;
                assert(outputs.drop_last() =~= Seq::<usize>::empty());
                assert(before[outputs[0] as int].grad is Some);
                assert(held_grads(before, outputs.drop_last()) =~= Seq::<V>::empty());
                assert(held_grads(before, outputs).len() == 1);
            }
            let mut gxs = self.funcs[k].backward(&*self, &gys);
            let ghost gxs0 = gxs@;
            let ghost mut trace: Seq<Seq<VariableCell<V>>> = seq![before];
            let arity: usize = self.funcs[k].inputs.len();
            let mut i: usize = 0;
            proof {
                top_generation = funcs[k as int].generation as int;
                top_id = k as int;
            }
            while i < arity
                invariant
                    self.funcs() == funcs,
                    self.funcs@ == funcs,
                    self.vars() == self.vars@,
                    graph_wf(vars0, funcs),
                    root < vars0.len(),
                    same_forward(vars0, self.vars()),
                    k < funcs.len(),
                    order.len() > 0,
                    order.last() == k,
                    arity == funcs[k as int].inputs@.len(),
                    i <= arity,
                    frontier(vars0, funcs, root as int, seen@, queue@, order),
                    forall|n: int|
                        0 <= n < order.len() - 1 ==> closed_at(
                            vars0,
                            funcs,
                            seen@,
                            #[trigger] order[n],
                            funcs[order[n]].inputs@.len() as int,
                        ),
                    closed_at(vars0, funcs, seen@, k as int, i as int),
                    forall|j: int|
                        0 <= j < queue@.len()
                            ==> ready(self.vars(), funcs, (#[trigger] queue@[j]) as int),
                    forall|j: int|
                        0 <= j < queue@.len() ==> below(
                            funcs,
                            (#[trigger] queue@[j]) as int,
                            funcs[k as int].generation as int,
                            k as int,
                        ),
                    trace.len() == i + 1,
                    trace[0] == before,
                    trace.last() == self.vars(),
                    forall|j: int|
                        0 <= j < i ==> deposited(
                            #[trigger] trace[j],
                            funcs[k as int].inputs@[j] as int,
                            gxs0[j],
                            trace[j + 1],
                        ),
                    gxs0.len() == arity,
                    gxs@ == gxs0.subrange(i as int, arity as int),
                decreases arity - i,
            {
                let x: usize = self.funcs[k].inputs[i];
                let g = gxs.remove(0);
                let ghost held = self.vars();
                let ghost marked = seen@;
                let ghost waiting = queue@;
                assert(func_wf(vars0, funcs, k as int));
                assert(funcs[k as int].inputs@[i as int] < vars0.len());
                self.accumulate(x, g);
                proof {
                    self.lemma_views();
                    trace = trace.push(self.vars());
                    assert(gxs@ =~= gxs0.subrange(i + 1, arity as int));
                    assert forall|j: int|
                        0 <= j < queue@.len() implies
                        ready(self.vars(), funcs, (#[trigger] queue@[j]) as int) by {
                        assert(func_wf(vars0, funcs, queue@[j] as int));
                        lemma_deposit_keeps_ready(held, x as int, g, self.vars(), funcs,
                            queue@[j] as int);
                    }
                    assert(var_wf(vars0, funcs, x as int));
                }
                match self.vars[x].creator {
                    Some(c) => {
                        assert(feeds_slot(vars0, funcs, c as int, k as int, i as int));
                        if !seen[c] {
                            seen[c] = true;
                            queue.push(c);
                            proof {
                                lemma_frontier_push(vars0, funcs, root as int, marked, waiting,
                                    order, c);
                                lemma_feeds_lower(vars0, funcs, c as int, k as int);
                                assert forall|n: int| 0 <= n < order.len() - 1 implies closed_at(
                                    vars0,
                                    funcs,
                                    seen@,
                                    #[trigger] order[n],
                                    funcs[order[n]].inputs@.len() as int,
                                ) by {
                                    lemma_closed_grows(vars0, funcs, marked, c as int, order[n],
                                        funcs[order[n]].inputs@.len() as int);
                                }
                                lemma_closed_grows(vars0, funcs, marked, c as int, k as int,
                                    i as int);
                                assert(func_wf(vars0, funcs, c as int));
                                let j = choose|j: int|
                                    0 <= j < funcs[c as int].outputs@.len()
                                        && #[trigger] funcs[c as int].outputs@[j]
                                        == x;
                                assert(ready(self.vars(), funcs, c as int));
                                assert forall|j: int|
                                    0 <= j < queue@.len() implies
                                    ready(self.vars(), funcs, (#[trigger] queue@[j]) as int) by {
                                    if j < waiting.len() {
                                        assert(queue@[j] == waiting[j]);
                                    }
                                }
                                assert forall|j: int| 0 <= j < queue@.len() implies below(
                                    funcs,
                                    (#[trigger] queue@[j]) as int,
                                    funcs[k as int].generation as int,
                                    k as int,
                                ) by {
                                    if j < waiting.len() {
                                        assert(queue@[j] == waiting[j]);
                                    }
                                }
                            }
                        }
                    },
                    None => {},
                }
                i = i + 1;
            }
            proof {
                assert(absorbed(before, funcs[k as int].inputs@, gxs0, self.vars(), trace));
                assert(stepped(before, funcs[k as int], self.vars()));
                let longer = states.push(self.vars());
                assert forall|m: int| 0 <= m < order.len() implies stepped(
                    #[trigger] longer[m],
                    funcs[order[m]],
                    longer[m + 1],
                ) by {
                    if m < visited.len() {
                        assert(longer[m] == states[m]);
                        assert(longer[m + 1] == states[m + 1]);
                        assert(order[m] == visited[m]);
                    }
                }
                states = longer;
            }
        }
        proof {
            assert(queue@ =~= Seq::<usize>::empty());
            lemma_frontier_complete(vars0, funcs, root as int, seen@, order);
            lemma_grads_keep_wf(vars0, self.vars(), funcs);
        }
    }
}

/// A backward pass from `root` leads from `before` to `after`: `root` is
/// seeded, and its gradient is propagated upstream.
pub open spec fn backpropagated<V: Scalar>(
    before: Seq<VariableCell<V>>,
    funcs: Seq<FunctionCell>,
    root: int,
    after: Seq<VariableCell<V>>,
) -> bool {
    exists|start: Seq<VariableCell<V>>|
        #![trigger seeded(before, root, start)]
        seeded(before, root, start) && propagated(start, funcs, root, after)
}

impl Variable {
    /// Computes the gradient of this variable with respect to every variable
    /// upstream of it.
    ///
    /// Where the variable holds no gradient it is given the multiplicative
    /// identity; a gradient that it holds is kept as the seed. The seed is
    /// then propagated upstream. On a leaf nothing but the seeding happens.
    pub fn backward<V: Scalar>(&self, tape: &mut Tape<V>)
        requires
            old(tape).wf(),
            old(tape).holds(*self),
        ensures
            final(tape).wf(),
            final(tape).funcs() == old(tape).funcs(),
            same_forward(old(tape).vars(), final(tape).vars()),
            backpropagated(
                old(tape).vars(),
                old(tape).funcs(),
                self.index() as int,
                final(tape).vars(),
            ),
    {
        let root: usize = self.id();
        tape.seed(root);
        proof {
            lemma_grads_keep_wf(old(tape).vars(), tape.vars(), tape.funcs());
        }
        let ghost start = tape.vars();
        tape.backward(root);
        assert(seeded(old(tape).vars(), root as int, start) && propagated(
            start,
            old(tape).funcs(),
            root as int,
            tape.vars(),
        ));
    }
}

} // verus!
