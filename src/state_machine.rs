//! The state machine: built from the user's data, started once, then driven
//! by events.
use vstd::prelude::*;
use crate::hierarchy::{
    dispatched, fired_at, init_trace, is_ancestor_or_self, is_leaf, leaf_of, lemma_ancestry_step,
    lemma_dispatched_leaf, lemma_leaf_of_is_leaf, lemma_logged_one, lemma_logged_trans, logged,
    net_entries, HookCall,
};
use crate::laws::{entries_balanced, ind, lemma_net_concat, lemma_net_dispatched, lemma_net_init};
use crate::sm_business_logic::{dispatch_evt_to_current_state, init};
use crate::state::{CoreEvt, ParentState, ProtoStateMachine, State, StateId};

verus! {

/// A state machine over the user's data. Once started by [`StateMachine::init`]
/// (or obtained from [`crate::InitStateMachine::init`]) it rests in a leaf
/// state between events.
pub struct StateMachine<UserStateMachine: State> {
    user_state_machine: UserStateMachine,
    curr_state: Option<StateId>,
    trace: Ghost<Seq<HookCall>>,
    snapshots: Ghost<Seq<UserStateMachine>>,
}

impl<UserStateMachine: State> StateMachine<UserStateMachine> {
    /// The machine has run its topmost initial transition.
    pub closed spec fn is_started(&self) -> bool {
        self.curr_state is Some
    }

    /// The state the machine rests in, once started.
    pub closed spec fn current(&self) -> StateId {
        self.curr_state->0
    }

    /// Every hook fired since the machine was built, in order.
    pub closed spec fn trace(&self) -> Seq<HookCall> {
        self.trace@
    }

    /// The user's data as it stood before each hook of `trace()` ran.
    pub closed spec fn snapshots(&self) -> Seq<UserStateMachine> {
        self.snapshots@
    }

    /// The user's data held by the machine.
    pub closed spec fn user(&self) -> UserStateMachine {
        self.user_state_machine
    }

    /// A started machine rests in a leaf, and every state has been entered
    /// once more than exited if it is the current state or an ancestor of
    /// it, and as often as exited otherwise.
    pub open spec fn wf(&self) -> bool {
        &&& self.is_started()
        &&& is_leaf::<UserStateMachine>(self.current())
        &&& entries_balanced::<UserStateMachine>(self.trace(), self.current())
        &&& self.snapshots().len() == self.trace().len()
    }

    /// `after` is what one dispatch makes of this started machine: the trace
    /// grew by what the event fired, as `dispatched` describes it.
    pub open spec fn steps_to(&self, after: &Self) -> bool {
        &&& self.wf()
        &&& self.trace().is_prefix_of(after.trace())
        &&& dispatched::<UserStateMachine>(
            self.current(),
            ParentState::Exists(self.current()),
            after.trace().skip(self.trace().len() as int),
            after.current(),
        )
    }

    /// Build a machine over the user's data; no hook runs.
    pub fn from(user_state_machine: UserStateMachine) -> (r: StateMachine<UserStateMachine>)
        ensures
            !r.is_started(),
            r.trace() == Seq::<HookCall>::empty(),
            r.snapshots() == Seq::<UserStateMachine>::empty(),
            r.user() == user_state_machine,
    {
        StateMachine {
            user_state_machine,
            curr_state: None,
            trace: Ghost(Seq::empty()),
            snapshots: Ghost(Seq::empty()),
        }
    }

    /// Run the topmost initial transition, enter its target and descend
    /// through initial transitions to a leaf.
    pub fn init(&mut self)
        requires
            !old(self).is_started(),
            old(self).trace() == Seq::<HookCall>::empty(),
            old(self).snapshots() == Seq::<UserStateMachine>::empty(),
        ensures
            final(self).wf(),
            final(self).trace() == init_trace::<UserStateMachine>(),
            final(self).current() == leaf_of::<UserStateMachine>(
                UserStateMachine::top_initial(),
            ),
            logged::<UserStateMachine>(
                old(self).trace(),
                old(self).snapshots(),
                old(self).user(),
                final(self).trace(),
                final(self).snapshots(),
                final(self).user(),
                None,
            ),
    {
        let ghost start = self.trace@;
        let ghost start_snapshots = self.snapshots@;
        let ghost before = self.user_state_machine;
        // Call the user's topmost initial transition
        let init_result = self.user_state_machine.top_init();
        proof {
            lemma_logged_one::<UserStateMachine>(
                start,
                start_snapshots,
                before,
                HookCall::TopInit,
                self.user_state_machine,
                None,
            );
        }
        self.trace = Ghost(self.trace@.push(HookCall::TopInit));
        self.snapshots = Ghost(self.snapshots@.push(before));
        let ghost t1 = self.trace@;
        let ghost d1 = self.snapshots@;
        let ghost m1 = self.user_state_machine;
        let curr_state = init(
            &mut self.user_state_machine,
            &mut self.trace,
            &mut self.snapshots,
            &init_result,
        );
        self.curr_state = Some(curr_state);
        proof {
            lemma_logged_trans::<UserStateMachine>(
                start,
                start_snapshots,
                before,
                t1,
                d1,
                m1,
                self.trace@,
                self.snapshots@,
                self.user_state_machine,
                None,
            );
            lemma_leaf_of_is_leaf::<UserStateMachine>(UserStateMachine::top_initial());
            assert(self.trace@ =~= start + init_trace::<UserStateMachine>());
            assert forall|s: StateId|
                net_entries(self.trace(), s) == ind(
                    is_ancestor_or_self::<UserStateMachine>(s, self.current()),
                ) by {
                lemma_net_init::<UserStateMachine>(s);
                lemma_net_concat(start, init_trace::<UserStateMachine>(), s);
                assert(net_entries(start, s) == 0) by {
                    assert(start =~= Seq::<HookCall>::empty());
                }
            }
        }
    }

    /// Dispatch an event: it goes to the current state, climbs to the parent
    /// while it is ignored, and may trigger a transition, after which the
    /// machine rests in a leaf again.
    ///
    /// The machine must have been started: [`crate::InitStateMachine`] makes
    /// that a matter of types. Called on a machine built by `from` and never
    /// started (which the precondition excludes), it runs no hook.
    pub fn dispatch(&mut self, user_evt: &UserStateMachine::Evt)
        requires
            old(self).wf(),
        ensures
            final(self).wf(),
            old(self).steps_to(final(self)),
            old(self).trace().is_prefix_of(final(self).trace()),
            dispatched::<UserStateMachine>(
                old(self).current(),
                ParentState::Exists(old(self).current()),
                final(self).trace().skip(old(self).trace().len() as int),
                final(self).current(),
            ),
            logged::<UserStateMachine>(
                old(self).trace(),
                old(self).snapshots(),
                old(self).user(),
                final(self).trace(),
                final(self).snapshots(),
                final(self).user(),
                Some(*user_evt),
            ),
            final(self).trace()[old(self).trace().len() as int] == HookCall::Handle(
                old(self).current(),
                old(self).user().handle_of(old(self).current(), user_evt),
            ),
    {
        let evt = CoreEvt::UserEvt { user_evt };
        if let Some(current_state) = self.curr_state {
            let mut current_state = current_state;
            dispatch_evt_to_current_state(
                &mut self.user_state_machine,
                &mut self.trace,
                &mut self.snapshots,
                &mut current_state,
                &evt,
                Ghost(Some(*user_evt)),
            );
            self.curr_state = Some(current_state);
            proof {
                let delta = self.trace().skip(old(self).trace().len() as int);
                let n = old(self).trace().len() as int;
                assert(fired_at::<UserStateMachine>(
                    self.trace(),
                    self.snapshots(),
                    n,
                    self.user(),
                    Some(*user_evt),
                ));
                assert(self.trace()[n] == delta[0]);
                lemma_dispatched_leaf::<UserStateMachine>(
                    old(self).current(),
                    ParentState::Exists(old(self).current()),
                    delta,
                    self.current(),
                );
                assert(self.trace() =~= old(self).trace() + delta);
                lemma_ancestry_step::<UserStateMachine>(old(self).current());
                assert forall|s: StateId|
                    net_entries(self.trace(), s) == ind(
                        is_ancestor_or_self::<UserStateMachine>(s, self.current()),
                    ) by {
                    lemma_net_concat(old(self).trace(), delta, s);
                    lemma_net_dispatched::<UserStateMachine>(
                        old(self).current(),
                        ParentState::Exists(old(self).current()),
                        delta,
                        self.current(),
                        s,
                    );
                }
            }
        }
    }
}

} // verus!
