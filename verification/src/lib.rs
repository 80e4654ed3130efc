//! A reverse-mode automatic-differentiation engine over an arena of nodes,
//! together with a small sequence container.
//!
//! A [`Tape`] records variables and the operations applied to them. A
//! [`Variable`] is a handle into a tape; `Variable::backward` walks the graph
//! upstream of a variable, an operation of a higher generation before one of
//! a lower, and accumulates gradients. The values are any type with the
//! arithmetic of [`Scalar`].

pub mod function;
pub mod gradients;
pub mod laws;
pub mod linked_list;
pub mod scalar;
pub mod scheduler;
pub mod tape;

pub use function::{Add, Exp, Square};
pub use linked_list::{Iter, LinkedList};
pub use scalar::Scalar;
pub use tape::{FunctionCell, OpKind, Tape, Variable, VariableCell};
