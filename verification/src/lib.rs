//! The circuit of one light client step over a chain of block headers.
//!
//! A step shows that a run of headers extends an already verified head block, header by
//! header, and that the last of them is finalized. [`step`] lays the step out on a
//! [`builder::CircuitBuilder`], which records the gadgets in order; [`meaning`] says what
//! values the recorded gadgets let through, and [`laws`] proves that these are exactly the
//! values of a properly linked, justified subchain. [`plain`] says the same in plain numbers,
//! [`positions`] says what is recorded where, and [`order`] that nothing is used before it is
//! there.

pub mod bits;
pub mod builder;
pub mod gadget;
pub mod layout;
pub mod laws;
mod lemmas;
pub mod meaning;
pub mod order;
pub mod plain;
pub mod positions;
pub mod step;
pub mod target;
