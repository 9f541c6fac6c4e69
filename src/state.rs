//! States, the results their hooks return, and the traits a user type
//! implements to become a state machine.
use vstd::prelude::*;

verus! {

/// A stable, comparable name for one user state.
#[derive(Clone, Copy, PartialEq, Eq, Structural, Debug)]
pub struct StateId(pub u32);

/// What a state answers when asked for its parent: the implicit top state,
/// or another user state.
#[derive(Clone, Copy, PartialEq, Eq, Structural, Debug)]
pub enum ParentState {
    TopReached,
    Exists(StateId),
}

/// The initial transition of a state: none (the state is a leaf), or the
/// child state to enter.
#[derive(Clone, Copy, PartialEq, Eq, Structural, Debug)]
pub enum InitResult {
    NotImplemented,
    TargetState(StateId),
}

/// What a state's event hook decides: pass the event to the parent
/// (`Ignored`), consume it (`Handled`), or take a transition.
#[derive(Clone, Copy, PartialEq, Eq, Structural, Debug)]
pub enum HandleResult {
    Ignored,
    Handled,
    Transition(StateId),
}

/// The answer of the per-state dispatcher [`core_handle`] to one query.
#[derive(Clone, Copy, PartialEq, Eq, Structural, Debug)]
pub enum CoreHandleResult {
    Ignored(ParentState),
    Handled,
    Transition(StateId),
    GetParentStateResult(ParentState),
    InitResult(InitResult),
}

/// The queries the engine puts to a state through [`core_handle`].
pub enum CoreEvt<'a, UserEvtT> {
    InitEvt,
    EntryEvt,
    ExitEvt,
    GetParentStateEvt,
    UserEvt { user_evt: &'a UserEvtT },
}

/// The user type that holds the machine's data. It names the event type,
/// describes the state hierarchy, and runs the topmost initial transition.
///
/// The hierarchy is static: `parent_of` and `initial_of` depend on the state
/// alone. Parent chains strictly lose depth and so end at the top state, an
/// initial transition targets a direct child, and the topmost initial
/// transition targets a child of the top state.
pub trait ProtoStateMachine: Sized {
    type Evt;

    /// The parent of `state`.
    spec fn parent_of(state: StateId) -> ParentState;

    /// The initial transition of `state`.
    spec fn initial_of(state: StateId) -> InitResult;

    /// The target of the topmost initial transition.
    spec fn top_initial() -> StateId;

    /// A depth measure: a parent is strictly shallower than its child.
    spec fn depth_of(state: StateId) -> u32;

    /// A bound on `depth_of` over all states.
    spec fn max_depth() -> u32;

    /// The shape of the hierarchy that the engine relies on.
    proof fn lemma_hierarchy(state: StateId)
        ensures
            Self::depth_of(state) <= Self::max_depth(),
            Self::parent_of(state) matches ParentState::Exists(p) ==> Self::depth_of(p)
                < Self::depth_of(state),
            Self::initial_of(state) matches InitResult::TargetState(t) ==> Self::parent_of(t)
                == ParentState::Exists(state),
            Self::parent_of(Self::top_initial()) is TopReached,
    ;

    /// What the topmost initial transition does to the machine's data: it
    /// turns `self` into `after`.
    spec fn top_initialised(&self, after: &Self) -> bool;

    /// The topmost initial transition, run once when the machine starts.
    fn top_init(&mut self) -> (r: InitResult)
        ensures
            r == InitResult::TargetState(Self::top_initial()),
            old(self).top_initialised(final(self)),
    ;

    /// The result of an event hook that takes a transition to `target`.
    fn transition(target: StateId) -> (r: HandleResult)
        ensures
            r == HandleResult::Transition(target),
    {
        HandleResult::Transition(target)
    }

    /// The result of an initial transition to `target`.
    fn init_transition(target: StateId) -> (r: InitResult)
        ensures
            r == InitResult::TargetState(target),
    {
        InitResult::TargetState(target)
    }

    /// The result of an event hook that passes the event to the parent.
    fn ignored() -> (r: HandleResult)
        ensures
            r == HandleResult::Ignored,
    {
        HandleResult::Ignored
    }

    /// The result of an event hook that consumes the event.
    fn handled() -> (r: HandleResult)
        ensures
            r == HandleResult::Handled,
    {
        HandleResult::Handled
    }

    /// The parent of a state that lies directly under the top state.
    fn return_top_state() -> (r: ParentState)
        ensures
            r == ParentState::TopReached,
    {
        ParentState::TopReached
    }

    /// The parent of a state that lies under the user state `parent`.
    fn return_parent_state(parent: StateId) -> (r: ParentState)
        ensures
            r == ParentState::Exists(parent),
    {
        ParentState::Exists(parent)
    }
}

/// The hooks of the user states, each addressed by a [`StateId`].
///
/// Each hook has a name for what it does to the machine's data (and, for
/// `handle`, for what it decides), so that the engine's contracts can say
/// which hook ran on which data.
pub trait State: ProtoStateMachine {
    /// What the event hook of `state` decides for `evt` on this data.
    spec fn handle_of(&self, state: StateId, evt: &Self::Evt) -> HandleResult;

    /// What the event hook of `state` does with `evt`: it turns `self` into
    /// `after`.
    spec fn reacted(&self, state: StateId, evt: &Self::Evt, after: &Self) -> bool;

    /// What the entry hook of `state` does: it turns `self` into `after`.
    spec fn entered(&self, state: StateId, after: &Self) -> bool;

    /// What the exit hook of `state` does: it turns `self` into `after`.
    spec fn exited(&self, state: StateId, after: &Self) -> bool;

    /// What the initial-transition hook of `state` does: it turns `self` into
    /// `after`.
    spec fn initialised(&self, state: StateId, after: &Self) -> bool;

    /// The parent of `state`; it does not depend on the machine's data.
    fn get_parent_state(state: StateId) -> (r: ParentState)
        ensures
            r == Self::parent_of(state),
    ;

    /// The initial transition of `state`, run right after `state` is entered
    /// as the target of a transition.
    fn init(&mut self, state: StateId) -> (r: InitResult)
        ensures
            r == Self::initial_of(state),
            old(self).initialised(state, final(self)),
    ;

    /// Run when the machine enters `state`.
    fn entry(&mut self, state: StateId)
        ensures
            old(self).entered(state, final(self)),
    ;

    /// Run when the machine leaves `state`.
    fn exit(&mut self, state: StateId)
        ensures
            old(self).exited(state, final(self)),
    ;

    /// Decide what `state` does with `evt`.
    fn handle(&mut self, state: StateId, evt: &Self::Evt) -> (r: HandleResult)
        ensures
            r == old(self).handle_of(state, evt),
            old(self).reacted(state, evt, final(self)),
    ;
}

/// What the per-state dispatcher answers when the event hook of `state`
/// decides `r`.
pub open spec fn core_result_of<M: ProtoStateMachine>(state: StateId, r: HandleResult) -> CoreHandleResult {
    match r {
        HandleResult::Ignored => CoreHandleResult::Ignored(M::parent_of(state)),
        HandleResult::Handled => CoreHandleResult::Handled,
        HandleResult::Transition(target) => CoreHandleResult::Transition(target),
    }
}

/// The single entry point of a state: route one query to the matching hook.
/// The parent query runs no hook and leaves the data as it is.
pub fn core_handle<M: State>(
    user_state_machine: &mut M,
    state: StateId,
    evt: &CoreEvt<M::Evt>,
) -> (r: CoreHandleResult)
    ensures
        match evt {
            CoreEvt::InitEvt => r == CoreHandleResult::InitResult(M::initial_of(state))
                && old(user_state_machine).initialised(state, final(user_state_machine)),
            CoreEvt::EntryEvt => r == CoreHandleResult::Handled && old(
                user_state_machine,
            ).entered(state, final(user_state_machine)),
            CoreEvt::ExitEvt => r == CoreHandleResult::Handled && old(
                user_state_machine,
            ).exited(state, final(user_state_machine)),
            CoreEvt::GetParentStateEvt => r == CoreHandleResult::GetParentStateResult(
                M::parent_of(state),
            ) && *final(user_state_machine) == *old(user_state_machine),
            CoreEvt::UserEvt { user_evt } => r == core_result_of::<M>(
                state,
                old(user_state_machine).handle_of(state, user_evt),
            ) && old(user_state_machine).reacted(state, user_evt, final(user_state_machine)),
        },
{
    match evt {
        CoreEvt::InitEvt => CoreHandleResult::InitResult(<M as State>::init(user_state_machine, state)),
        CoreEvt::EntryEvt => {
            <M as State>::entry(user_state_machine, state);
            CoreHandleResult::Handled
        },
        CoreEvt::ExitEvt => {
            <M as State>::exit(user_state_machine, state);
            CoreHandleResult::Handled
        },
        CoreEvt::GetParentStateEvt => CoreHandleResult::GetParentStateResult(
            M::get_parent_state(state),
        ),
        CoreEvt::UserEvt { user_evt } => match <M as State>::handle(user_state_machine, state, user_evt) {
            HandleResult::Ignored => CoreHandleResult::Ignored(M::get_parent_state(state)),
            HandleResult::Handled => CoreHandleResult::Handled,
            HandleResult::Transition(target) => CoreHandleResult::Transition(target),
        },
    }
}

} // verus!
