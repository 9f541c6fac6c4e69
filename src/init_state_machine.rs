//! A state machine before its initial transition.
use vstd::prelude::*;
use crate::hierarchy::{init_trace, leaf_of, logged, HookCall};
use crate::state::{ProtoStateMachine, State};
use crate::state_machine::StateMachine;

verus! {

/// The precursor of a state machine: it holds the user's data and can only
/// be started, which turns it into a running [`StateMachine`] that can only
/// take events.
pub struct InitStateMachine<UserStateMachine: State> {
    user_state_machine: UserStateMachine,
}

impl<UserStateMachine: State> InitStateMachine<UserStateMachine> {
    /// The user's data held by the precursor.
    pub closed spec fn user_state_machine(&self) -> UserStateMachine {
        self.user_state_machine
    }

    /// Wrap the user's data; no hook runs.
    pub fn from(user_state_machine: UserStateMachine) -> (r: InitStateMachine<UserStateMachine>)
        ensures
            r.user_state_machine() == user_state_machine,
    {
        InitStateMachine { user_state_machine }
    }

    /// Run the topmost initial transition, enter its target and descend
    /// through initial transitions to a leaf; the precursor is consumed.
    pub fn init(self) -> (r: StateMachine<UserStateMachine>)
        ensures
            r.wf(),
            r.trace() == init_trace::<UserStateMachine>(),
            r.current() == leaf_of::<UserStateMachine>(UserStateMachine::top_initial()),
            logged::<UserStateMachine>(
                Seq::<HookCall>::empty(),
                Seq::<UserStateMachine>::empty(),
                self.user_state_machine(),
                r.trace(),
                r.snapshots(),
                r.user(),
                None,
            ),
    {
        let mut state_machine = StateMachine::from(self.user_state_machine);
        state_machine.init();
        proof {
            assert(state_machine.trace() =~= init_trace::<UserStateMachine>());
        }
        state_machine
    }
}

} // verus!
