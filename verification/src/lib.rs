//! Extended finite state machines (EFSMs) used as runtime property monitors.
//!
//! A [`Machine`](machine::Machine) is a finite directed multigraph of named
//! locations whose edges carry a guard, an interval bound over the `u32`
//! register, and a register update.  The library answers two questions about
//! such a machine: whether a finite input word drives it from an initial
//! configuration into an accepting location ([`machine::Machine::exec`]), and,
//! as inputs arrive one by one, whether a verdict can already be committed
//! ([`monitor::Monitor`]).

pub mod analysis;
pub mod bound;
pub mod machine;
pub mod mon;
pub mod monitor;

pub use analysis::PathNode;
pub use bound::TransitionBound;
pub use machine::AddUpdate;
pub use machine::Machine;
pub use machine::MachineBuilder;
pub use machine::MachineError;
pub use machine::RuleUpdate;
pub use machine::State;
pub use machine::StateInterval;
pub use machine::Transition;
pub use machine::Update;
