//! An event-driven finite state machine: it holds a current state and an
//! ordered registry of callbacks, each bound to one state, and on every
//! transition it invokes, in registration order, the callbacks bound to the
//! state it enters.
//!
//! States are values of any type with `==`; an enum declared without
//! discriminants serves, each variant's ordinal being its position in the
//! declaration, and enums of different declarations being distinct types.

pub mod dispatch;
pub mod machine;

pub use machine::StateMachine;

