//! The arena that holds a computation graph, and the handles into it.

use crate::scalar::{is_ones_like, is_sum, Scalar};
use vstd::prelude::*;

verus! {

/// The operators that can be recorded on a tape.
#[derive(Clone, Copy, Debug, PartialEq, Eq, Structural)]
pub enum OpKind {
    /// `y = x * x`
    Square,
    /// `y = exp(x)`
    Exp,
    /// `y = x0 + x1`
    Add,
}

impl OpKind {
    /// The number of inputs that the operator consumes.
    pub open spec fn arity(self) -> nat {
        match self {
            OpKind::Square => 1,
            OpKind::Exp => 1,
            OpKind::Add => 2,
        }
    }

    /// The number of inputs that the operator consumes.
    pub fn input_count(self) -> (n: usize)
        ensures
            n == self.arity(),
    {
        match self {
            OpKind::Square => 1,
            OpKind::Exp => 1,
            OpKind::Add => 2,
        }
    }
}

/// One value of the graph: its datum, the gradient accumulated so far, the
/// operation that produced it and its depth.
pub struct VariableCell<V> {
    pub data: V,
    pub grad: Option<V>,
    pub creator: Option<usize>,
    pub generation: u128,
}

impl<V> VariableCell<V> {
    /// A leaf: no gradient, no creator, generation 0.
    pub fn new(data: V) -> (cell: Self)
        ensures
            cell == (VariableCell { data, grad: None, creator: None, generation: 0 }),
    {
        VariableCell { data, grad: None, creator: None, generation: 0 }
    }
}

/// One applied operator: the variables it consumed and produced, by index,
/// and its depth.
pub struct FunctionCell {
    pub kind: OpKind,
    pub inputs: Vec<usize>,
    pub outputs: Vec<usize>,
    pub generation: u128,
}

/// A handle to one variable of a tape.
#[derive(Debug)]
pub struct Variable {
    id: usize,
}

/// A computation graph, grown by appending: variables and operations are
/// addressed by the order in which they were created.
pub struct Tape<V> {
    pub(crate) vars: Vec<VariableCell<V>>,
    pub(crate) funcs: Vec<FunctionCell>,
}

/// Operation `k` is recorded consistently: it has as many inputs as its
/// operator consumes and one output, its inputs and its output exist, its
/// output names it as its creator, and its generation is one more than the
/// greatest generation among its inputs. The last clause bounds the
/// generation by what `k` earlier operations can build.
pub open spec fn func_wf<V>(vars: Seq<VariableCell<V>>, funcs: Seq<FunctionCell>, k: int) -> bool {
    let f = funcs[k];
    &&& f.inputs@.len() == f.kind.arity()
    &&& f.outputs@.len() == 1
    &&& forall|i: int|
        0 <= i < f.inputs@.len()
            ==> (#[trigger] f.inputs@[i]) < vars.len() && vars[f.inputs@[i] as int].generation
            < f.generation
    &&& exists|i: int|
        0 <= i < f.inputs@.len() && vars[#[trigger] f.inputs@[i] as int].generation + 1
            == f.generation
    &&& forall|j: int|
        0 <= j < f.outputs@.len()
            ==> (#[trigger] f.outputs@[j]) < vars.len()
                && (vars[f.outputs@[j] as int].creator matches Some(
            u,
        ) && u == k)
    &&& f.generation <= 2 * k + 1
}

/// Variable `v` is among the outputs of operation `f`.
pub open spec fn produces(f: FunctionCell, v: int) -> bool {
    exists|j: int| 0 <= j < f.outputs@.len() && #[trigger] f.outputs@[j] == v
}

/// Variable `v` is recorded consistently: a leaf has generation 0, any other
/// variable is an output of its creator and lies one generation above it.
pub open spec fn var_wf<V>(vars: Seq<VariableCell<V>>, funcs: Seq<FunctionCell>, v: int) -> bool {
    match vars[v].creator {
        None => vars[v].generation == 0,
        Some(k) => {
            &&& k < funcs.len()
            &&& vars[v].generation == funcs[k as int].generation + 1
            &&& produces(funcs[k as int], v)
        },
    }
}

/// Every node of the graph is recorded consistently. Generations then fall
/// along every edge from an operation to an input and from a variable to its
/// creator, so the graph has no cycle.
pub open spec fn graph_wf<V>(vars: Seq<VariableCell<V>>, funcs: Seq<FunctionCell>) -> bool {
    &&& forall|k: int| 0 <= k < funcs.len() ==> #[trigger] func_wf(vars, funcs, k)
    &&& forall|v: int| 0 <= v < vars.len() ==> #[trigger] var_wf(vars, funcs, v)
}

impl<V> Tape<V> {
    /// The variables of the tape, in order of creation.
    pub closed spec fn vars(&self) -> Seq<VariableCell<V>> {
        self.vars@
    }

    /// The operations of the tape, in order of creation.
    pub closed spec fn funcs(&self) -> Seq<FunctionCell> {
        self.funcs@
    }

    /// Every node of the tape is recorded consistently.
    pub open spec fn wf(&self) -> bool {
        graph_wf(self.vars(), self.funcs())
    }

    /// The handle `x` names a variable of this tape.
    pub open spec fn holds(&self, x: Variable) -> bool {
        x.index() < self.vars().len()
    }

    /// An empty tape.
    pub fn new() -> (tape: Self)
        ensures
            tape.wf(),
            tape.vars().len() == 0,
            tape.funcs().len() == 0,
    {
        Tape { vars: Vec::new(), funcs: Vec::new() }
    }

    /// The number of variables on the tape.
    pub fn vars_len(&self) -> (n: usize)
        ensures
            n == self.vars().len(),
    {
        self.vars.len()
    }

    /// The number of operations on the tape.
    pub fn funcs_len(&self) -> (n: usize)
        ensures
            n == self.funcs().len(),
    {
        self.funcs.len()
    }

    /// The datum of variable `v`.
    pub fn datum(&self, v: usize) -> (data: &V)
        requires
            v < self.vars().len(),
        ensures
            *data == self.vars()[v as int].data,
    {
        &self.vars[v].data
    }

    /// The generation of variable `v`.
    pub fn generation_of(&self, v: usize) -> (g: u128)
        requires
            v < self.vars().len(),
        ensures
            g == self.vars()[v as int].generation,
    {
        self.vars[v].generation
    }

    /// The operator of operation `k`.
    pub fn kind_of(&self, k: usize) -> (kind: OpKind)
        requires
            k < self.funcs().len(),
        ensures
            kind == self.funcs()[k as int].kind,
    {
        self.funcs[k].kind
    }

    /// What the closed views stand for.
    pub(crate) proof fn lemma_views(&self)
        ensures
            self.vars() == self.vars@,
            self.funcs() == self.funcs@,
    {
    }

    /// Accumulates the gradient `g` into variable `v`.
    pub fn accumulate(&mut self, v: usize, g: V) where V: Scalar
        requires
            v < old(self).vars().len(),
        ensures
            deposited(old(self).vars(), v as int, g, final(self).vars()),
            final(self).funcs() == old(self).funcs(),
    {
        let sum = match &self.vars[v].grad {
            Some(held) => held.plus(&g),
            None => g,
        };
        self.vars[v].grad = Some(sum);
    }

    /// Gives variable `v` the multiplicative identity as its gradient unless
    /// it holds a gradient already.
    pub fn seed(&mut self, v: usize) where V: Scalar
        requires
            v < old(self).vars().len(),
        ensures
            seeded(old(self).vars(), v as int, final(self).vars()),
            final(self).funcs() == old(self).funcs(),
    {
        if self.vars[v].grad.is_none() {
            let unit = self.vars[v].data.ones_like();
            self.vars[v].grad = Some(unit);
        }
    }

    /// Appends an operation and the variable that it produced.
    pub(crate) fn record(&mut self, cell: FunctionCell, out: VariableCell<V>)
        ensures
            final(self).funcs() == old(self).funcs().push(cell),
            final(self).vars() == old(self).vars().push(out),
    {
        self.funcs.push(cell);
        self.vars.push(out);
    }

    /// On a consistent tape no generation exceeds twice the number of
    /// operations.
    pub proof fn lemma_generation_bound(&self)
        requires
            self.wf(),
        ensures
            forall|v: int|
                0 <= v < self.vars().len() ==> (#[trigger] self.vars()[v]).generation <= 2
                    * self.funcs().len(),
    {
        assert forall|v: int| 0 <= v < self.vars().len()
            implies (#[trigger] self.vars()[v]).generation
            <= 2 * self.funcs().len() by {
            assert(var_wf(self.vars(), self.funcs(), v));
            match self.vars()[v].creator {
                None => {},
                Some(k) => {
                    assert(func_wf(self.vars(), self.funcs(), k as int));
                },
            }
        }
    }

    /// Whether the handle `x` names a variable of this tape.
    pub fn contains(&self, x: &Variable) -> (b: bool)
        ensures
            b == self.holds(*x),
    {
        x.id < self.vars.len()
    }
}

impl Variable {
    /// The position of the variable on its tape.
    pub closed spec fn index(self) -> usize {
        self.id
    }

    /// The position of the variable on its tape, unique among the variables
    /// of that tape.
    pub fn id(&self) -> (i: usize)
        ensures
            i == self.index(),
    {
        self.id
    }

    /// The handle of the variable at position `id`.
    pub(crate) fn at(id: usize) -> (x: Variable)
        ensures
            x.index() == id,
    {
        Variable { id }
    }

    /// Appends a leaf that carries `data` to the tape and returns its handle.
    pub fn new<V>(tape: &mut Tape<V>, data: V) -> (x: Variable)
        requires
            old(tape).wf(),
        ensures
            final(tape).wf(),
            x.index() == old(tape).vars().len(),
            final(tape).vars() == old(tape).vars().push(
                VariableCell { data, grad: None, creator: None, generation: 0 },
            ),
            final(tape).funcs() == old(tape).funcs(),
    {
        let id: usize = tape.vars.len();
        tape.vars.push(VariableCell::new(data));
        proof {
            let vars = tape.vars@;
            let funcs = tape.funcs@;
            assert(funcs == old(tape).funcs());
            assert forall|k: int|
                0 <= k < funcs.len() implies
                #[trigger] func_wf(vars, funcs, k) by {
                assert(func_wf(old(tape).vars(), funcs, k));
            }
            assert forall|v: int| 0 <= v < vars.len() implies #[trigger] var_wf(vars, funcs, v) by {
                if v < id {
                    assert(var_wf(old(tape).vars(), funcs, v));
                }
            }
        }
        Variable { id }
    }

    /// A clone of the datum that the variable carries.
    pub fn get_data<V: Clone>(&self, tape: &Tape<V>) -> (data: V)
        requires
            tape.holds(*self),
        ensures
            cloned(tape.vars()[self.index() as int].data, data),
    {
        tape.vars[self.id].data.clone()
    }

    /// A clone of the gradient accumulated in the variable, or `None` while
    /// it holds none.
    pub fn get_grad<V: Clone>(&self, tape: &Tape<V>) -> (grad: Option<V>)
        requires
            tape.holds(*self),
        ensures
            match tape.vars()[self.index() as int].grad {
                None => grad is None,
                Some(g) => grad matches Some(c) && cloned(g, c),
            },
    {
        match &tape.vars[self.id].grad {
            None => None,
            Some(g) => Some(g.clone()),
        }
    }

    /// Overwrites the gradient of the variable with `grad`.
    pub fn set_grad<V>(&self, tape: &mut Tape<V>, grad: V)
        requires
            old(tape).holds(*self),
        ensures
            final(tape).vars() == old(tape).vars().update(
                self.index() as int,
                VariableCell { grad: Some(grad), ..old(tape).vars()[self.index() as int] },
            ),
            final(tape).funcs() == old(tape).funcs(),
            old(tape).wf() ==> final(tape).wf(),
    {
        tape.vars[self.id].grad = Some(grad);
        proof {
            lemma_grads_keep_wf(old(tape).vars(), tape.vars(), tape.funcs());
        }
    }

    /// Resets the gradient of the variable to `None`, so that a later
    /// backward pass starts afresh at this variable.
    pub fn clear_grad<V>(&self, tape: &mut Tape<V>)
        requires
            old(tape).holds(*self),
        ensures
            final(tape).vars() == old(tape).vars().update(
                self.index() as int,
                VariableCell { grad: None, ..old(tape).vars()[self.index() as int] },
            ),
            final(tape).funcs() == old(tape).funcs(),
            old(tape).wf() ==> final(tape).wf(),
    {
        tape.vars[self.id].grad = None;
        proof {
            lemma_grads_keep_wf(old(tape).vars(), tape.vars(), tape.funcs());
        }
    }
}

/// The two sequences hold the same variables but for their gradients.
pub open spec fn same_forward<V>(a: Seq<VariableCell<V>>, b: Seq<VariableCell<V>>) -> bool {
    &&& a.len() == b.len()
    &&& forall|v: int|
        0 <= v < a.len() ==> (#[trigger] a[v]).data == b[v].data && a[v].creator == b[v].creator
            && a[v].generation == b[v].generation
}

/// The variables `after` are the variables `before` with the gradient `g`
/// accumulated into variable `v`: where `v` held no gradient it now holds
/// `g`, and where it held one it now holds the sum of that one and `g`.
pub open spec fn deposited<V: Scalar>(
    before: Seq<VariableCell<V>>,
    v: int,
    g: V,
    after: Seq<VariableCell<V>>,
) -> bool {
    &&& 0 <= v < before.len()
    &&& after.len() == before.len()
    &&& forall|u: int| 0 <= u < before.len() && u != v ==> #[trigger] after[u] == before[u]
    &&& after[v].data == before[v].data
    &&& after[v].creator == before[v].creator
    &&& after[v].generation == before[v].generation
    &&& match before[v].grad {
        None => after[v].grad == Some(g),
        Some(held) => after[v].grad matches Some(s) && is_sum(held, g, s),
    }
}

/// The variables `after` are the variables `before` with variable `v` made
/// ready to start a backward pass: a gradient that it holds is kept, and
/// where it holds none it receives the multiplicative identity in the shape
/// of its datum.
pub open spec fn seeded<V: Scalar>(
    before: Seq<VariableCell<V>>,
    v: int,
    after: Seq<VariableCell<V>>,
) -> bool {
    &&& 0 <= v < before.len()
    &&& after.len() == before.len()
    &&& forall|u: int| 0 <= u < before.len() && u != v ==> #[trigger] after[u] == before[u]
    &&& after[v].data == before[v].data
    &&& after[v].creator == before[v].creator
    &&& after[v].generation == before[v].generation
    &&& match before[v].grad {
        None => after[v].grad matches Some(u) && is_ones_like(before[v].data, u),
        Some(held) => after[v].grad == Some(held),
    }
}

/// Consistency of a tape does not depend on the gradients it holds.
pub proof fn lemma_grads_keep_wf<V>(
    a: Seq<VariableCell<V>>,
    b: Seq<VariableCell<V>>,
    funcs: Seq<FunctionCell>,
)
    requires
        same_forward(a, b),
    ensures
        forall|k: int| func_wf(a, funcs, k) ==> func_wf(b, funcs, k),
        forall|v: int| 0 <= v < a.len() && var_wf(a, funcs, v) ==> var_wf(b, funcs, v),
{
    assert forall|k: int| func_wf(a, funcs, k) implies func_wf(b, funcs, k) by {
        let f = funcs[k];
        let i = choose|i: int|
            0 <= i < f.inputs@.len() && a[#[trigger] f.inputs@[i] as int].generation + 1
                == f.generation;
        assert(b[f.inputs@[i] as int].generation + 1 == f.generation);
    }
}

} // verus!
