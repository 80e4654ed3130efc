//! The operators: their formulas, and the protocol that records an applied
//! operator on a tape.

use crate::scalar::{is_exp, is_product, is_sum, is_twice, Scalar};
use crate::tape::{func_wf, var_wf, FunctionCell, OpKind, Tape, Variable, VariableCell};
use vstd::prelude::*;

verus! {

/// The data of the variables `inputs`, in order.
pub open spec fn input_data<V>(vars: Seq<VariableCell<V>>, inputs: Seq<usize>) -> Seq<V> {
    Seq::new(inputs.len(), |i: int| vars[inputs[i] as int].data)
}

/// `y` is a value of operator `kind` on the inputs `xs`.
pub open spec fn forward_rel<V: Scalar>(kind: OpKind, xs: Seq<V>, y: V) -> bool {
    match kind {
        OpKind::Square => is_product(xs[0], xs[0], y),
        OpKind::Exp => is_exp(xs[0], y),
        OpKind::Add => is_sum(xs[0], xs[1], y),
    }
}

/// `gxs` holds gradients of operator `kind` with respect to its inputs `xs`,
/// one for each input, for the output gradient `gy`.
pub open spec fn backward_rel<V: Scalar>(kind: OpKind, xs: Seq<V>, gy: V, gxs: Seq<V>) -> bool {
    match kind {
        OpKind::Square => gxs.len() == 1 && exists|t: V|
            is_twice(xs[0], t) && #[trigger] is_product(t, gy, gxs[0]),
        OpKind::Exp => gxs.len() == 1 && exists|e: V|
            is_exp(xs[0], e) && #[trigger] is_product(e, gy, gxs[0]),
        OpKind::Add => gxs.len() == 2 && cloned(gy, gxs[0]) && cloned(gy, gxs[1]),
    }
}

/// The graph `(vars1, funcs1)` is the graph `(vars0, funcs0)` with one
/// application of operator `kind` to the variables `inputs` appended: the
/// operation itself, and its value as a new variable without gradient that
/// names the operation as its creator.
pub open spec fn recorded<V: Scalar>(
    vars0: Seq<VariableCell<V>>,
    funcs0: Seq<FunctionCell>,
    kind: OpKind,
    inputs: Seq<usize>,
    vars1: Seq<VariableCell<V>>,
    funcs1: Seq<FunctionCell>,
) -> bool {
    &&& funcs1.len() == funcs0.len() + 1
    &&& funcs1.drop_last() == funcs0
    &&& funcs1.last().kind == kind
    &&& funcs1.last().inputs@ == inputs
    &&& funcs1.last().outputs@.len() == 1
    &&& funcs1.last().outputs@[0] == vars0.len()
    &&& vars1.len() == vars0.len() + 1
    &&& vars1.drop_last() == vars0
    &&& vars1.last().grad is None
    &&& (vars1.last().creator matches Some(k) && k == funcs0.len())
    &&& vars1.last().generation == funcs1.last().generation + 1
    &&& forward_rel(kind, input_data(vars0, inputs), vars1.last().data)
}

/// The indices of the handles `inputs`, in order.
pub open spec fn indices(inputs: Seq<&Variable>) -> Seq<usize> {
    Seq::new(inputs.len(), |i: int| inputs[i].index())
}

impl OpKind {
    /// Applies the operator to the data of `inputs`.
    pub fn forward<V: Scalar>(self, tape: &Tape<V>, inputs: &Vec<usize>) -> (y: V)
        requires
            inputs@.len() == self.arity(),
            forall|i: int| 0 <= i < inputs@.len() ==> inputs@[i] < tape.vars().len(),
        ensures
            forward_rel(self, input_data(tape.vars(), inputs@), y),
    {
        match self {
            OpKind::Square => {
                let x = tape.datum(inputs[0]);
                x.times(x)
            },
            OpKind::Exp => tape.datum(inputs[0]).exp(),
            OpKind::Add => tape.datum(inputs[0]).plus(tape.datum(inputs[1])),
        }
    }

    /// The gradients with respect to the data of `inputs`, for the output
    /// gradient `gy`.
    pub fn backward<V: Scalar>(self, tape: &Tape<V>, inputs: &Vec<usize>, gy: &V) -> (gxs: Vec<V>)
        requires
            inputs@.len() == self.arity(),
            forall|i: int| 0 <= i < inputs@.len() ==> inputs@[i] < tape.vars().len(),
        ensures
            gxs@.len() == self.arity(),
            backward_rel(self, input_data(tape.vars(), inputs@), *gy, gxs@),
    {
        let mut gxs: Vec<V> = Vec::new();
        match self {
            OpKind::Square => {
                let t = tape.datum(inputs[0]).twice();
                let gx = t.times(gy);
                gxs.push(gx);
                assert(is_twice(input_data(tape.vars(), inputs@)[0], t) && is_product(
                    t,
                    *gy,
                    gxs@[0],
                ));
            },
            OpKind::Exp => {
                let e = tape.datum(inputs[0]).exp();
                let gx = e.times(gy);
                gxs.push(gx);
                assert(is_exp(input_data(tape.vars(), inputs@)[0], e) && is_product(
                    e,
                    *gy,
                    gxs@[0],
                ));
            },
            OpKind::Add => {
                let g0 = gy.clone();
                let g1 = gy.clone();
                gxs.push(g0);
                gxs.push(g1);
                assert(cloned(*gy, gxs@[0]) && cloned(*gy, gxs@[1]));
            },
        }
        gxs
    }
}

impl FunctionCell {
    /// A cell for operator `kind` that is not wired to any variable yet.
    pub fn new(kind: OpKind) -> (cell: Self)
        ensures
            cell.kind == kind,
            cell.inputs@.len() == 0,
            cell.outputs@.len() == 0,
            cell.generation == 0,
    {
        FunctionCell { kind, inputs: Vec::new(), outputs: Vec::new(), generation: 0 }
    }

    /// The gradients with respect to the inputs of this operation, one for
    /// each input, for the output gradients `gys`, of which the first counts.
    pub fn backward<V: Scalar>(&self, tape: &Tape<V>, gys: &Vec<V>) -> (gxs: Vec<V>)
        requires
            gys@.len() > 0,
            self.inputs@.len() == self.kind.arity(),
            forall|i: int| 0 <= i < self.inputs@.len() ==> self.inputs@[i] < tape.vars().len(),
        ensures
            gxs@.len() == self.inputs@.len(),
            backward_rel(self.kind, input_data(tape.vars(), self.inputs@), gys@[0], gxs@),
    {
        self.kind.backward(tape, &self.inputs, &gys[0])
    }

    /// Applies operator `kind` to `inputs` and records the application on the
    /// tape.
    ///
    /// The operation is appended with the inputs in the order given, one
    /// generation above the deepest of them; its value is appended as a new
    /// variable without gradient, created by the operation and one generation
    /// above it. Nothing else on the tape changes. The handle of the new
    /// variable is returned.
    pub fn cons<V: Scalar>(tape: &mut Tape<V>, kind: OpKind, inputs: Vec<&Variable>) -> (outputs:
        Vec<Variable>)
        requires
            old(tape).wf(),
            inputs@.len() == kind.arity(),
            forall|i: int| 0 <= i < inputs@.len() ==> old(tape).holds(*#[trigger] inputs@[i]),
        ensures
            final(tape).wf(),
            outputs@.len() == 1,
            outputs@[0].index() == old(tape).vars().len(),
            recorded(
                old(tape).vars(),
                old(tape).funcs(),
                kind,
                indices(inputs@),
                final(tape).vars(),
                final(tape).funcs(),
            ),
    {
        let mut cell = FunctionCell::new(kind);
        let mut depth: u128 = 0;
        let mut i: usize = 0;
        proof {
            tape.lemma_generation_bound();
        }
        while i < inputs.len()
            invariant
                tape == old(tape),
                i <= inputs@.len(),
                cell.inputs@ == indices(inputs@).subrange(0, i as int),
                cell.kind == kind,
                cell.outputs@.len() == 0,
                forall|j: int| 0 <= j < inputs@.len() ==> tape.holds(*#[trigger] inputs@[j]),
                forall|v: int|
                    0 <= v < tape.vars().len() ==>
                        (#[trigger] tape.vars()[v]).generation <= 2 * tape.funcs().len(),
                forall|j: int|
                    0 <= j < i ==>
                        tape.vars()[#[trigger] inputs@[j].index() as int].generation <= depth,
                i > 0 ==> exists|j: int| 0 <= j < i
                    && tape.vars()[#[trigger] inputs@[j].index() as int].generation == depth,
                depth <= 2 * tape.funcs().len(),
            decreases inputs@.len() - i,
        {
            let id: usize = inputs[i].id();
            let g: u128 = tape.generation_of(id);
            if i == 0 || g > depth {
                depth = g;
            }
            cell.inputs.push(id);
            i = i + 1;
            assert(cell.inputs@ =~= indices(inputs@).subrange(0, i as int));
        }
        assert(cell.inputs@ =~= indices(inputs@));
        assert(kind.arity() >= 1);
        assert forall|j: int| 0 <= j < cell.inputs@.len() implies (#[trigger] cell.inputs@[j])
            == inputs@[j].index() && cell.inputs@[j] < tape.vars().len() by {
            assert(tape.holds(*inputs@[j]));
        }
        let ghost wired = cell.inputs@;
        let y = kind.forward(&*tape, &cell.inputs);
        let out: usize = tape.vars_len();
        let k: usize = tape.funcs_len();
        cell.generation = depth + 1;
        cell.outputs.push(out);
        tape.record(cell, VariableCell { data: y, grad: None, creator: Some(k),
            generation: depth + 2 });
        proof {
            let vars = tape.vars();
            let funcs = tape.funcs();
            let f = funcs[k as int];
            assert(f.inputs@ == wired);
            assert(f.outputs@ =~= seq![out]);
            assert(funcs.last() == f);
            assert(vars.last().generation == f.generation + 1);
            assert(old(tape).vars() =~= vars.drop_last());
            assert(old(tape).funcs() =~= funcs.drop_last());
            assert forall|n: int|
                0 <= n < funcs.len() implies
                #[trigger] func_wf(vars, funcs, n) by {
                if n < k {
                    assert(func_wf(old(tape).vars(), old(tape).funcs(), n));
                    let h = funcs[n];
                    let w = choose|w: int|
                        0 <= w < h.inputs@.len()
                            && old(tape).vars()[#[trigger] h.inputs@[w] as int].generation + 1 == h.generation;
                    assert(vars[h.inputs@[w] as int].generation + 1 == h.generation);
                } else {
                    let w = choose|j: int|
                        0 <= j < inputs@.len()
                        && old(tape).vars()[#[trigger] inputs@[j].index() as int].generation
                            == depth;
                    assert(wired[w] == inputs@[w].index());
                    assert(vars[f.inputs@[w] as int].generation + 1 == f.generation);
                    assert forall|j: int|
                        0 <= j < f.inputs@.len() implies
                        (#[trigger] f.inputs@[j]) < vars.len()
                            && vars[f.inputs@[j] as int].generation < f.generation by {
                        assert(wired[j] == inputs@[j].index());
                        assert(old(tape).vars()[inputs@[j].index() as int].generation <= depth);
                    }
                }
            }
            assert forall|v: int| 0 <= v < vars.len() implies #[trigger] var_wf(vars, funcs, v) by {
                if v < out {
                    assert(var_wf(old(tape).vars(), old(tape).funcs(), v));
                } else {
                    assert(f.outputs@[0] == v as usize);
                }
            }
        }
        let mut outputs: Vec<Variable> = Vec::new();
        outputs.push(Variable::at(out));
        outputs
    }
}

/// An operator object whose last call recorded operation `applied` stands
/// for an operation of `tape` with operator `kind`.
pub open spec fn bound_to<V>(applied: Option<usize>, kind: OpKind, tape: &Tape<V>) -> bool {
    applied matches Some(k) && k < tape.funcs().len() && tape.funcs()[k as int].kind == kind
}

/// The operator `y = x * x`.
pub struct Square {
    inner: Option<usize>,
}

impl Square {
    /// The operation that the last call recorded, by its position on the
    /// tape.
    pub closed spec fn applied(&self) -> Option<usize> {
        self.inner
    }

    /// An operator that has not been applied yet.
    pub fn new() -> (f: Self)
        ensures
            f.applied() is None,
    {
        Square { inner: None }
    }

    /// Whether the last call recorded its operation on this tape, so that
    /// `backward` can be asked for its gradient.
    pub fn is_bound<V>(&self, tape: &Tape<V>) -> (b: bool)
        ensures
            b == bound_to(self.applied(), OpKind::Square, tape),
    {
        match self.inner {
            None => false,
            Some(k) => k < tape.funcs_len() && tape.kind_of(k) == OpKind::Square,
        }
    }

    /// Applies the operator to `input`, records the application on the tape
    /// and returns the handle of the result.
    pub fn call<V: Scalar>(&mut self, tape: &mut Tape<V>, input: &Variable) -> (y: Variable)
        requires
            old(tape).wf(),
            old(tape).holds(*input),
        ensures
            final(tape).wf(),
            final(self).applied() matches Some(k) && k == old(tape).funcs().len(),
            y.index() == old(tape).vars().len(),
            recorded(
                old(tape).vars(),
                old(tape).funcs(),
                OpKind::Square,
                seq![input.index()],
                final(tape).vars(),
                final(tape).funcs(),
            ),
    {
        let k: usize = tape.funcs_len();
        let mut inputs: Vec<&Variable> = Vec::new();
        inputs.push(input);
        assert(indices(inputs@) =~= seq![input.index()]);
        let mut outputs = FunctionCell::cons(tape, OpKind::Square, inputs);
        self.inner = Some(k);
        let y = outputs.pop();
        y.unwrap()
    }

    /// The gradient with respect to the input of the last call, for the
    /// output gradient `gy`.
    pub fn backward<V: Scalar>(&self, tape: &Tape<V>, gy: V) -> (gx: V)
        requires
            tape.wf(),
            bound_to(self.applied(), OpKind::Square, tape),
        ensures
            backward_rel(
                OpKind::Square,
                input_data(tape.vars(), tape.funcs()[self.applied().unwrap() as int].inputs@),
                gy,
                seq![gx],
            ),
    {
        let mut gxs = backward_of(tape, self.inner.unwrap(), gy);
        let ghost all = gxs@;
        let gx = gxs.pop().unwrap();
        assert(all =~= seq![gx]);
        gx
    }
}

/// The operator `y = exp(x)`.
pub struct Exp {
    inner: Option<usize>,
}

impl Exp {
    /// The operation that the last call recorded, by its position on the
    /// tape.
    pub closed spec fn applied(&self) -> Option<usize> {
        self.inner
    }

    /// An operator that has not been applied yet.
    pub fn new() -> (f: Self)
        ensures
            f.applied() is None,
    {
        Exp { inner: None }
    }

    /// Whether the last call recorded its operation on this tape, so that
    /// `backward` can be asked for its gradient.
    pub fn is_bound<V>(&self, tape: &Tape<V>) -> (b: bool)
        ensures
            b == bound_to(self.applied(), OpKind::Exp, tape),
    {
        match self.inner {
            None => false,
            Some(k) => k < tape.funcs_len() && tape.kind_of(k) == OpKind::Exp,
        }
    }

    /// Applies the operator to `input`, records the application on the tape
    /// and returns the handle of the result.
    pub fn call<V: Scalar>(&mut self, tape: &mut Tape<V>, input: &Variable) -> (y: Variable)
        requires
            old(tape).wf(),
            old(tape).holds(*input),
        ensures
            final(tape).wf(),
            final(self).applied() matches Some(k) && k == old(tape).funcs().len(),
            y.index() == old(tape).vars().len(),
            recorded(
                old(tape).vars(),
                old(tape).funcs(),
                OpKind::Exp,
                seq![input.index()],
                final(tape).vars(),
                final(tape).funcs(),
            ),
    {
        let k: usize = tape.funcs_len();
        let mut inputs: Vec<&Variable> = Vec::new();
        inputs.push(input);
        assert(indices(inputs@) =~= seq![input.index()]);
        let mut outputs = FunctionCell::cons(tape, OpKind::Exp, inputs);
        self.inner = Some(k);
        let y = outputs.pop();
        y.unwrap()
    }

    /// The gradient with respect to the input of the last call, for the
    /// output gradient `gy`.
    pub fn backward<V: Scalar>(&self, tape: &Tape<V>, gy: V) -> (gx: V)
        requires
            tape.wf(),
            bound_to(self.applied(), OpKind::Exp, tape),
        ensures
            backward_rel(
                OpKind::Exp,
                input_data(tape.vars(), tape.funcs()[self.applied().unwrap() as int].inputs@),
                gy,
                seq![gx],
            ),
    {
        let mut gxs = backward_of(tape, self.inner.unwrap(), gy);
        let ghost all = gxs@;
        let gx = gxs.pop().unwrap();
        assert(all =~= seq![gx]);
        gx
    }
}

/// The operator `y = x0 + x1`.
pub struct Add {
    inner: Option<usize>,
}

impl Add {
    /// The operation that the last call recorded, by its position on the
    /// tape.
    pub closed spec fn applied(&self) -> Option<usize> {
        self.inner
    }

    /// An operator that has not been applied yet.
    pub fn new() -> (f: Self)
        ensures
            f.applied() is None,
    {
        Add { inner: None }
    }

    /// Whether the last call recorded its operation on this tape, so that
    /// `backward` can be asked for its gradient.
    pub fn is_bound<V>(&self, tape: &Tape<V>) -> (b: bool)
        ensures
            b == bound_to(self.applied(), OpKind::Add, tape),
    {
        match self.inner {
            None => false,
            Some(k) => k < tape.funcs_len() && tape.kind_of(k) == OpKind::Add,
        }
    }

    /// Applies the operator to `x` and `y`, records the application on the
    /// tape and returns the handle of the result.
    pub fn call<V: Scalar>(&mut self, tape: &mut Tape<V>, x: &Variable, y: &Variable) -> (z:
        Variable)
        requires
            old(tape).wf(),
            old(tape).holds(*x),
            old(tape).holds(*y),
        ensures
            final(tape).wf(),
            final(self).applied() matches Some(k) && k == old(tape).funcs().len(),
            z.index() == old(tape).vars().len(),
            recorded(
                old(tape).vars(),
                old(tape).funcs(),
                OpKind::Add,
                seq![x.index(), y.index()],
                final(tape).vars(),
                final(tape).funcs(),
            ),
    {
        let k: usize = tape.funcs_len();
        let mut inputs: Vec<&Variable> = Vec::new();
        inputs.push(x);
        inputs.push(y);
        assert(indices(inputs@) =~= seq![x.index(), y.index()]);
        let mut outputs = FunctionCell::cons(tape, OpKind::Add, inputs);
        self.inner = Some(k);
        let z = outputs.pop();
        z.unwrap()
    }

    /// The gradients with respect to the inputs of the last call, for the
    /// output gradient `gy`: that of the second input, then that of the
    /// first.
    pub fn backward<V: Scalar>(&self, tape: &Tape<V>, gy: V) -> (gxs: (V, V))
        requires
            tape.wf(),
            bound_to(self.applied(), OpKind::Add, tape),
        ensures
            backward_rel(
                OpKind::Add,
                input_data(tape.vars(), tape.funcs()[self.applied().unwrap() as int].inputs@),
                gy,
                seq![gxs.1, gxs.0],
            ),
    {
        let mut gxs = backward_of(tape, self.inner.unwrap(), gy);
        let ghost all = gxs@;
        let last = gxs.pop().unwrap();
        let first = gxs.pop().unwrap();
        assert(all =~= seq![first, last]);
        (last, first)
    }
}

/// The gradients with respect to the inputs of operation `k`, for the output
/// gradient `gy`.
fn backward_of<V: Scalar>(tape: &Tape<V>, k: usize, gy: V) -> (gxs: Vec<V>)
    requires
        tape.wf(),
        k < tape.funcs().len(),
    ensures
        gxs@.len() == tape.funcs()[k as int].kind.arity(),
        backward_rel(
            tape.funcs()[k as int].kind,
            input_data(tape.vars(), tape.funcs()[k as int].inputs@),
            gy,
            gxs@,
        ),
{
    proof {
        tape.lemma_views();
        assert(func_wf(tape.vars(), tape.funcs(), k as int));
    }
    let mut gys: Vec<V> = Vec::new();
    gys.push(gy);
    tape.funcs[k].backward(tape, &gys)
}

/// Records `y = x * x` on the tape and returns the handle of `y`.
pub fn square<V: Scalar>(tape: &mut Tape<V>, x: &Variable) -> (y: Variable)
    requires
        old(tape).wf(),
        old(tape).holds(*x),
    ensures
        final(tape).wf(),
        y.index() == old(tape).vars().len(),
        recorded(
            old(tape).vars(),
            old(tape).funcs(),
            OpKind::Square,
            seq![x.index()],
            final(tape).vars(),
            final(tape).funcs(),
        ),
{
    let mut f = Square::new();
    f.call(tape, x)
}

/// Records `y = exp(x)` on the tape and returns the handle of `y`.
pub fn exp<V: Scalar>(tape: &mut Tape<V>, x: &Variable) -> (y: Variable)
    requires
        old(tape).wf(),
        old(tape).holds(*x),
    ensures
        final(tape).wf(),
        y.index() == old(tape).vars().len(),
        recorded(
            old(tape).vars(),
            old(tape).funcs(),
            OpKind::Exp,
            seq![x.index()],
            final(tape).vars(),
            final(tape).funcs(),
        ),
{
    let mut f = Exp::new();
    f.call(tape, x)
}

/// Records `z = x + y` on the tape and returns the handle of `z`.
pub fn add<V: Scalar>(tape: &mut Tape<V>, x: &Variable, y: &Variable) -> (z: Variable)
    requires
        old(tape).wf(),
        old(tape).holds(*x),
        old(tape).holds(*y),
    ensures
        final(tape).wf(),
        z.index() == old(tape).vars().len(),
        recorded(
            old(tape).vars(),
            old(tape).funcs(),
            OpKind::Add,
            seq![x.index(), y.index()],
            final(tape).vars(),
            final(tape).funcs(),
        ),
{
    let mut f = Add::new();
    f.call(tape, x, y)
}

} // verus!
