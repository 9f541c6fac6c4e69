//! Hierarchical state machines in the UML statechart style.
//!
//! A user type holds the machine's data and implements [`ProtoStateMachine`]
//! (the hierarchy and the topmost initial transition) and [`State`] (the
//! entry, exit, initial-transition and event hooks of every state). The
//! engine in this crate runs the initial descent, propagates events from the
//! current leaf upward, and performs transitions through the least common
//! ancestor of source and target.
//!
//! The engine keeps a ghost record of the hooks it calls, beside the user's
//! data as it stood before each call. The hooks' own contracts name what each
//! one decides and does to the data ([`State::handle_of`], [`State::entered`],
//! ...), and the engine's contracts tie every record to the call it stands
//! for and state the sequence of records exactly.
pub mod state;
pub mod hierarchy;
pub mod sm_business_logic;
pub mod init_state_machine;
pub mod state_machine;
pub mod laws;

pub use hierarchy::HookCall;
pub use init_state_machine::InitStateMachine;
pub use sm_business_logic::{LCANature, Link};
pub use state_machine::StateMachine;
pub use state::{
    core_handle, CoreEvt, CoreHandleResult, HandleResult, InitResult, ParentState,
    ProtoStateMachine, State, StateId,
};
