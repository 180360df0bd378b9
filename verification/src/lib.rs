//! A fine-grained reactive runtime: signals (mutable state cells) and effects
//! (derived computations) form a dependency graph that is kept consistent
//! under mutation without recomputing unaffected nodes.
//!
//! The [`runtime::Runtime`] owns every node and drives dirty propagation,
//! lazy (pull) resolution and scope-based disposal. [`signal::Signal`] and
//! [`effect::Effect`] are the typed handles over it.

pub mod effect;
pub mod node;
pub mod runtime;
pub mod signal;
pub mod value;

pub use effect::create_effect;
pub use effect::Effect;
pub use signal::create_signal;
pub use signal::Signal;
pub use value::wrap_value;
pub use value::SignalValue;
pub use value::Value;
