//! The engine: initial descent, event propagation and transitions.
//!
//! Every function takes the user's machine, the ghost trace of the hooks it
//! calls and the ghost record of the data each of them ran on. It states
//! exactly what it appends to the trace, and (through `logged`) that each new
//! record is what the hook's contract says of that call.
use vstd::prelude::*;
use crate::hierarchy::{
    ancestry, descent, entries, exits_to_lca, exits_up, is_ancestor_or_self, lca,
    lemma_ancestor_parent, lemma_ancestry_step, lemma_path_from_top, lemma_path_split, leaf_of,
    path_between, transition_trace, dispatched, parent_depth, logged, lemma_logged_none,
    lemma_logged_one, lemma_logged_trans, HookCall,
};
use crate::state::{
    core_handle, CoreEvt, CoreHandleResult, HandleResult, InitResult, ParentState,
    ProtoStateMachine, State, StateId,
};

verus! {

/// One frame of the chain from a target state up to the top, built on the
/// call stack while a transition looks for the least common ancestor. Each
/// frame points to the frame of its child on the way down to the target.
pub struct Link<'a> {
    state: StateId,
    next_link: Option<&'a Link<'a>>,
}

/// Where the least common ancestor of a transition lies: at the top state,
/// or at one frame of the target's chain.
pub enum LCANature<'a> {
    TopState,
    State(&'a Link<'a>),
}

impl<'a> Link<'a> {
    /// The states of this frame and of the frames below it, outermost first.
    pub closed spec fn path(&self) -> Seq<StateId>
        decreases self,
    {
        match self.next_link {
            Some(n) => seq![self.state] + n.path(),
            None => seq![self.state],
        }
    }

    /// Every frame from this one down is an ancestor of `t` whose next frame
    /// is its child, and the last frame is `t`.
    pub closed spec fn leads_to<M: ProtoStateMachine>(&self, t: StateId) -> bool
        decreases self,
    {
        &&& is_ancestor_or_self::<M>(self.state, t)
        &&& match self.next_link {
            Some(n) => M::parent_of(n.state) == ParentState::Exists(self.state)
                && n.leads_to::<M>(t),
            None => self.state == t,
        }
    }
}

/// The frames below a frame that leads to `t` are the states strictly below
/// it on the way down to `t`.
proof fn lemma_link_path<M: ProtoStateMachine>(link: &Link, t: StateId)
    requires
        link.leads_to::<M>(t),
    ensures
        is_ancestor_or_self::<M>(link.state, t),
        link.path().len() >= 1,
        link.path()[0] == link.state,
        link.path().skip(1) == path_between::<M>(ParentState::Exists(link.state), t),
    decreases link,
{
    match link.next_link {
        Some(n) => {
            lemma_link_path::<M>(n, t);
            lemma_path_split::<M>(n.state, t);
            assert(link.path().skip(1) =~= n.path());
            assert(n.path() =~= seq![n.state] + n.path().skip(1));
        },
        None => {
            assert(link.path().skip(1) =~= Seq::<StateId>::empty());
        },
    }
}

/// Run the exit hook of `state`.
fn dispatch_exit_evt<M: State>(
    user_state_machine: &mut M,
    trace: &mut Ghost<Seq<HookCall>>,
    data: &mut Ghost<Seq<M>>,
    state: StateId,
    Ghost(event): Ghost<Option<M::Evt>>,
)
    requires
        old(data)@.len() == old(trace)@.len(),
    ensures
        final(trace)@ == old(trace)@.push(HookCall::Exit(state)),
        logged::<M>(
            old(trace)@,
            old(data)@,
            *old(user_state_machine),
            final(trace)@,
            final(data)@,
            *final(user_state_machine),
            event,
        ),
{
    let ghost before = *user_state_machine;
    let exit_evt = CoreEvt::<M::Evt>::ExitEvt;
    let _ = core_handle(user_state_machine, state, &exit_evt);
    proof {
        lemma_logged_one::<M>(trace@, data@, before, HookCall::Exit(state), *user_state_machine, event);
    }
    *trace = Ghost(trace@.push(HookCall::Exit(state)));
    *data = Ghost(data@.push(before));
}

/// Run the entry hook of `state`.
fn dispatch_entry_evt<M: State>(
    user_state_machine: &mut M,
    trace: &mut Ghost<Seq<HookCall>>,
    data: &mut Ghost<Seq<M>>,
    state: StateId,
    Ghost(event): Ghost<Option<M::Evt>>,
)
    requires
        old(data)@.len() == old(trace)@.len(),
    ensures
        final(trace)@ == old(trace)@.push(HookCall::Entry(state)),
        logged::<M>(
            old(trace)@,
            old(data)@,
            *old(user_state_machine),
            final(trace)@,
            final(data)@,
            *final(user_state_machine),
            event,
        ),
{
    let ghost before = *user_state_machine;
    let entry_evt = CoreEvt::<M::Evt>::EntryEvt;
    let _ = core_handle(user_state_machine, state, &entry_evt);
    proof {
        lemma_logged_one::<M>(trace@, data@, before, HookCall::Entry(state), *user_state_machine, event);
    }
    *trace = Ghost(trace@.push(HookCall::Entry(state)));
    *data = Ghost(data@.push(before));
}

/// Run the initial-transition hook of `state`.
fn dispatch_init_evt<M: State>(
    user_state_machine: &mut M,
    trace: &mut Ghost<Seq<HookCall>>,
    data: &mut Ghost<Seq<M>>,
    state: StateId,
    Ghost(event): Ghost<Option<M::Evt>>,
) -> (r: InitResult)
    requires
        old(data)@.len() == old(trace)@.len(),
    ensures
        r == M::initial_of(state),
        final(trace)@ == old(trace)@.push(HookCall::Init(state)),
        logged::<M>(
            old(trace)@,
            old(data)@,
            *old(user_state_machine),
            final(trace)@,
            final(data)@,
            *final(user_state_machine),
            event,
        ),
{
    let ghost before = *user_state_machine;
    let init_evt = CoreEvt::<M::Evt>::InitEvt;
    let core_handle_result = core_handle(user_state_machine, state, &init_evt);
    proof {
        lemma_logged_one::<M>(trace@, data@, before, HookCall::Init(state), *user_state_machine, event);
    }
    *trace = Ghost(trace@.push(HookCall::Init(state)));
    *data = Ghost(data@.push(before));
    match core_handle_result {
        CoreHandleResult::InitResult(init_result) => init_result,
        _ => vstd::pervasive::unreached(),
    }
}

/// Ask `state` for its parent; no hook with effects runs.
fn dispatch_get_super_state<M: State>(user_state_machine: &mut M, state: StateId) -> (r:
    ParentState)
    ensures
        r == M::parent_of(state),
        *final(user_state_machine) == *old(user_state_machine),
{
    let get_parent_state_evt = CoreEvt::<M::Evt>::GetParentStateEvt;
    match core_handle(user_state_machine, state, &get_parent_state_evt) {
        CoreHandleResult::GetParentStateResult(parent_state) => parent_state,
        _ => vstd::pervasive::unreached(),
    }
}

/// Follow initial transitions from `target_state`, already entered, entering
/// each target, until a leaf; return that leaf.
fn reach_init_target<M: State>(
    user_state_machine: &mut M,
    trace: &mut Ghost<Seq<HookCall>>,
    data: &mut Ghost<Seq<M>>,
    target_state: StateId,
    Ghost(event): Ghost<Option<M::Evt>>,
) -> (r: StateId)
    requires
        old(data)@.len() == old(trace)@.len(),
    ensures
        r == leaf_of::<M>(target_state),
        final(trace)@ == old(trace)@ + descent::<M>(target_state),
        logged::<M>(
            old(trace)@,
            old(data)@,
            *old(user_state_machine),
            final(trace)@,
            final(data)@,
            *final(user_state_machine),
            event,
        ),
{
    let mut current_target_state = target_state;
    proof {
        M::lemma_hierarchy(target_state);
        lemma_logged_none::<M>(trace@, data@, *user_state_machine, event);
    }
    loop
        invariant
            old(trace)@ + descent::<M>(target_state) == trace@ + descent::<M>(
                current_target_state,
            ),
            leaf_of::<M>(target_state) == leaf_of::<M>(current_target_state),
            M::depth_of(current_target_state) <= M::max_depth(),
            logged::<M>(old(trace)@, old(data)@, *old(user_state_machine), trace@, data@, *user_state_machine, event),
        decreases M::max_depth() - M::depth_of(current_target_state),
    {
        let ghost before = trace@;
        let ghost t1 = trace@;
        let ghost d1 = data@;
        let ghost m1 = *user_state_machine;
        let init_result = dispatch_init_evt(user_state_machine, trace, data, current_target_state, Ghost(event));
        proof {
            lemma_logged_trans::<M>(old(trace)@, old(data)@, *old(user_state_machine), t1, d1, m1, trace@, data@, *user_state_machine, event);
        }
        match init_result {
            InitResult::TargetState(next_target_state) => {
                proof {
                    M::lemma_hierarchy(current_target_state);
                    M::lemma_hierarchy(next_target_state);
                    assert(before + descent::<M>(current_target_state) =~= before.push(
                        HookCall::Init(current_target_state),
                    ).push(HookCall::Entry(next_target_state)) + descent::<M>(next_target_state));
                }
                current_target_state = next_target_state;
                let ghost t1 = trace@;
                let ghost d1 = data@;
                let ghost m1 = *user_state_machine;
                dispatch_entry_evt(user_state_machine, trace, data, current_target_state, Ghost(event));
                proof {
                    lemma_logged_trans::<M>(old(trace)@, old(data)@, *old(user_state_machine), t1, d1, m1, trace@, data@, *user_state_machine, event);
                }
            },
            InitResult::NotImplemented => {
                proof {
                    assert(before + descent::<M>(current_target_state) =~= trace@);
                }
                return current_target_state;
            },
        }
    }
}

/// Exit every state from `source_state` up to `lca_state`, excluded.
fn exit_substates<M: State>(
    user_state_machine: &mut M,
    trace: &mut Ghost<Seq<HookCall>>,
    data: &mut Ghost<Seq<M>>,
    source_state: StateId,
    lca_state: StateId,
    Ghost(event): Ghost<Option<M::Evt>>,
)
    requires
        is_ancestor_or_self::<M>(lca_state, source_state),
        old(data)@.len() == old(trace)@.len(),
    ensures
        final(trace)@ == old(trace)@ + exits_up::<M>(source_state, lca_state),
        logged::<M>(
            old(trace)@,
            old(data)@,
            *old(user_state_machine),
            final(trace)@,
            final(data)@,
            *final(user_state_machine),
            event,
        ),
{
    let mut next_state = source_state;
    proof {
        lemma_logged_none::<M>(trace@, data@, *user_state_machine, event);
    }
    while next_state != lca_state
        invariant
            is_ancestor_or_self::<M>(lca_state, next_state),
            old(trace)@ + exits_up::<M>(source_state, lca_state) == trace@ + exits_up::<M>(
                next_state,
                lca_state,
            ),
            logged::<M>(old(trace)@, old(data)@, *old(user_state_machine), trace@, data@, *user_state_machine, event),
        decreases M::depth_of(next_state),
    {
        proof {
            lemma_ancestry_step::<M>(next_state);
            M::lemma_hierarchy(next_state);
        }
        match dispatch_get_super_state(user_state_machine, next_state) {
            ParentState::Exists(parent_state) => {
                let ghost before = trace@;
                proof {
                    let i = choose|i: int|
                        0 <= i < ancestry::<M>(next_state).len() && ancestry::<M>(next_state)[i]
                            == lca_state;
                    assert(ancestry::<M>(parent_state)[i - 1] == lca_state);
                    assert(before + exits_up::<M>(next_state, lca_state) =~= before.push(
                        HookCall::Exit(next_state),
                    ) + exits_up::<M>(parent_state, lca_state));
                }
                let ghost t1 = trace@;
                let ghost d1 = data@;
                let ghost m1 = *user_state_machine;
                dispatch_exit_evt(user_state_machine, trace, data, next_state, Ghost(event));
                proof {
                    lemma_logged_trans::<M>(old(trace)@, old(data)@, *old(user_state_machine), t1, d1, m1, trace@, data@, *user_state_machine, event);
                }
                next_state = parent_state;
            },
            ParentState::TopReached => {
                proof {
                    assert(ancestry::<M>(next_state) =~= seq![next_state]);
                }
                vstd::pervasive::unreached::<()>();
            },
        }
    }
    proof {
        assert(trace@ + exits_up::<M>(next_state, lca_state) =~= trace@);
    }
}

/// Enter every state of the frames below `lca_state_link`, outermost first.
fn enter_substates<M: State>(
    user_state_machine: &mut M,
    trace: &mut Ghost<Seq<HookCall>>,
    data: &mut Ghost<Seq<M>>,
    lca_state_link: &Link,
    Ghost(event): Ghost<Option<M::Evt>>,
)
    requires
        old(data)@.len() == old(trace)@.len(),
    ensures
        final(trace)@ == old(trace)@ + entries(lca_state_link.path().skip(1)),
        logged::<M>(
            old(trace)@,
            old(data)@,
            *old(user_state_machine),
            final(trace)@,
            final(data)@,
            *final(user_state_machine),
            event,
        ),
{
    let mut state_link = lca_state_link;
    proof {
        lemma_logged_none::<M>(trace@, data@, *user_state_machine, event);
    }
    loop
        invariant
            old(trace)@ + entries(lca_state_link.path().skip(1)) == trace@ + entries(
                state_link.path().skip(1),
            ),
            logged::<M>(old(trace)@, old(data)@, *old(user_state_machine), trace@, data@, *user_state_machine, event),
        decreases state_link.path().len(),
    {
        match state_link.next_link {
            Some(child_state_link) => {
                let ghost before = trace@;
                proof {
                    let rest = child_state_link.path();
                    assert(state_link.path().skip(1) =~= rest);
                    if child_state_link.next_link.is_some() {
                        assert(rest =~= seq![child_state_link.state] + rest.skip(1));
                    } else {
                        assert(rest =~= seq![child_state_link.state]);
                    }
                    assert(rest[0] == child_state_link.state);
                    assert(before + entries(rest) =~= before.push(
                        HookCall::Entry(child_state_link.state),
                    ) + entries(rest.skip(1)));
                }
                let ghost t1 = trace@;
                let ghost d1 = data@;
                let ghost m1 = *user_state_machine;
                dispatch_entry_evt(user_state_machine, trace, data, child_state_link.state, Ghost(event));
                proof {
                    lemma_logged_trans::<M>(old(trace)@, old(data)@, *old(user_state_machine), t1, d1, m1, trace@, data@, *user_state_machine, event);
                }
                state_link = child_state_link;
            },
            None => {
                proof {
                    assert(state_link.path().skip(1) =~= Seq::<StateId>::empty());
                    assert(trace@ + entries(state_link.path().skip(1)) =~= trace@);
                }
                return ;
            },
        }
    }
}

/// Climb from `source_state` until a state of the target's chain (whose
/// topmost frame is `last_state_link`) is met, exiting every state passed;
/// return the frame of that state, or the top state if none is met.
fn search_lca_state<'a, M: State>(
    user_state_machine: &mut M,
    trace: &mut Ghost<Seq<HookCall>>,
    data: &mut Ghost<Seq<M>>,
    last_state_link: &'a Link<'a>,
    source_state: StateId,
    Ghost(target_state): Ghost<StateId>,
    Ghost(event): Ghost<Option<M::Evt>>,
) -> (r: LCANature<'a>)
    requires
        last_state_link.leads_to::<M>(target_state),
        M::parent_of(last_state_link.state) is TopReached,
        old(data)@.len() == old(trace)@.len(),
    ensures
        final(trace)@ == old(trace)@ + exits_to_lca::<M>(source_state, target_state),
        logged::<M>(
            old(trace)@,
            old(data)@,
            *old(user_state_machine),
            final(trace)@,
            final(data)@,
            *final(user_state_machine),
            event,
        ),
        match r {
            LCANature::State(link) => lca::<M>(source_state, target_state) == ParentState::Exists(
                link.state,
            ) && link.leads_to::<M>(target_state),
            LCANature::TopState => lca::<M>(source_state, target_state) is TopReached,
        },
{
    let ghost full = last_state_link.path();
    proof {
        lemma_link_path::<M>(last_state_link, target_state);
        lemma_path_split::<M>(last_state_link.state, target_state);
        assert(full =~= path_between::<M>(ParentState::TopReached, target_state));
        lemma_logged_none::<M>(trace@, data@, *user_state_machine, event);
    }
    let mut upward_state = source_state;
    loop
        invariant
            last_state_link.leads_to::<M>(target_state),
            full == last_state_link.path(),
            full == path_between::<M>(ParentState::TopReached, target_state),
            old(trace)@ + exits_to_lca::<M>(source_state, target_state) == trace@
                + exits_to_lca::<M>(upward_state, target_state),
            lca::<M>(source_state, target_state) == lca::<M>(upward_state, target_state),
            logged::<M>(old(trace)@, old(data)@, *old(user_state_machine), trace@, data@, *user_state_machine, event),
        decreases M::depth_of(upward_state),
    {
        let mut state_link = last_state_link;
        let ghost mut idx: int = 0;
        loop
            invariant
                state_link.leads_to::<M>(target_state),
                0 <= idx < full.len(),
                state_link.path() == full.skip(idx),
                !full.take(idx).contains(upward_state),
                full == path_between::<M>(ParentState::TopReached, target_state),
                old(trace)@ + exits_to_lca::<M>(source_state, target_state) == trace@
                    + exits_to_lca::<M>(upward_state, target_state),
                lca::<M>(source_state, target_state) == lca::<M>(upward_state, target_state),
                logged::<M>(old(trace)@, old(data)@, *old(user_state_machine), trace@, data@, *user_state_machine, event),
            ensures
                !full.contains(upward_state),
            decreases full.len() - idx,
        {
            proof {
                lemma_link_path::<M>(state_link, target_state);
            }
            if state_link.state == upward_state {
                proof {
                    assert(exits_to_lca::<M>(upward_state, target_state) =~= Seq::<
                        HookCall,
                    >::empty());
                    assert(trace@ + exits_to_lca::<M>(upward_state, target_state) =~= trace@);
                }
                return LCANature::State(state_link);
            }
            match state_link.next_link {
                Some(next) => {
                    proof {
                        assert(full.take(idx + 1) =~= full.take(idx).push(state_link.state));
                        assert(full.skip(idx + 1) =~= state_link.path().skip(1));
                        assert(next.path() =~= state_link.path().skip(1));
                        idx = idx + 1;
                    }
                    state_link = next;
                },
                None => {
                    proof {
                        assert(full =~= full.take(idx).push(state_link.state));
                        if full.contains(upward_state) {
                            let j = choose|j: int| 0 <= j < full.len() && full[j] == upward_state;
                            if j < idx {
                                assert(full.take(idx)[j] == upward_state);
                            }
                        }
                    }
                    break ;
                },
            }
        }
        proof {
            lemma_path_from_top::<M>(target_state, upward_state);
            M::lemma_hierarchy(upward_state);
        }
        let ghost before = trace@;
        let ghost t1 = trace@;
        let ghost d1 = data@;
        let ghost m1 = *user_state_machine;
        dispatch_exit_evt(user_state_machine, trace, data, upward_state, Ghost(event));
        proof {
            lemma_logged_trans::<M>(old(trace)@, old(data)@, *old(user_state_machine), t1, d1, m1, trace@, data@, *user_state_machine, event);
        }
        match dispatch_get_super_state(user_state_machine, upward_state) {
            ParentState::Exists(parent_state) => {
                proof {
                    assert(before + exits_to_lca::<M>(upward_state, target_state) =~= trace@
                        + exits_to_lca::<M>(parent_state, target_state));
                }
                upward_state = parent_state;
            },
            ParentState::TopReached => {
                proof {
                    assert(before + exits_to_lca::<M>(upward_state, target_state) =~= trace@);
                }
                return LCANature::TopState;
            },
        }
    }
}

/// Build, frame by frame on the call stack, the chain from the target up to
/// the top state; then find the least common ancestor with `source_state`,
/// exiting on the way, and enter every state below it down to the target.
fn reach_target_state<M: State>(
    user_state_machine: &mut M,
    target_state_link: Link,
    source_state: StateId,
    trace: &mut Ghost<Seq<HookCall>>,
    data: &mut Ghost<Seq<M>>,
    Ghost(target_state): Ghost<StateId>,
    Ghost(event): Ghost<Option<M::Evt>>,
)
    requires
        target_state_link.leads_to::<M>(target_state),
        old(data)@.len() == old(trace)@.len(),
    ensures
        final(trace)@ == old(trace)@ + exits_to_lca::<M>(source_state, target_state) + entries(
            path_between::<M>(lca::<M>(source_state, target_state), target_state),
        ),
        logged::<M>(
            old(trace)@,
            old(data)@,
            *old(user_state_machine),
            final(trace)@,
            final(data)@,
            *final(user_state_machine),
            event,
        ),
    decreases M::depth_of(target_state_link.state),
{
    proof {
        lemma_logged_none::<M>(trace@, data@, *user_state_machine, event);
        lemma_link_path::<M>(&target_state_link, target_state);
        M::lemma_hierarchy(target_state_link.state);
    }
    match dispatch_get_super_state(user_state_machine, target_state_link.state) {
        ParentState::Exists(parent_state) => {
            proof {
                lemma_ancestor_parent::<M>(
                    target_state_link.state,
                    target_state,
                    parent_state,
                );
            }
            let parent_state_link = Link {
                state: parent_state,
                next_link: Some(&target_state_link),
            };
            let ghost t1 = trace@;
            let ghost d1 = data@;
            let ghost m1 = *user_state_machine;
            reach_target_state(user_state_machine, parent_state_link, source_state, trace, data, Ghost(target_state), Ghost(event));
            proof {
                lemma_logged_trans::<M>(old(trace)@, old(data)@, *old(user_state_machine), t1, d1, m1, trace@, data@, *user_state_machine, event);
            }
        },
        ParentState::TopReached => {
            let ghost t1 = trace@;
            let ghost d1 = data@;
            let ghost m1 = *user_state_machine;
            let lca_nature = search_lca_state(user_state_machine, trace, data, &target_state_link, source_state, Ghost(target_state), Ghost(event));
            proof {
                lemma_logged_trans::<M>(old(trace)@, old(data)@, *old(user_state_machine), t1, d1, m1, trace@, data@, *user_state_machine, event);
            }
            match lca_nature {
                LCANature::State(state_link) => {
                    proof {
                        lemma_link_path::<M>(state_link, target_state);
                    }
                    let ghost t1 = trace@;
                    let ghost d1 = data@;
                    let ghost m1 = *user_state_machine;
                    enter_substates(user_state_machine, trace, data, state_link, Ghost(event));
                    proof {
                        lemma_logged_trans::<M>(old(trace)@, old(data)@, *old(user_state_machine), t1, d1, m1, trace@, data@, *user_state_machine, event);
                    }
                },
                LCANature::TopState => {
                    let ghost middle = trace@;
                    proof {
                        lemma_path_split::<M>(target_state_link.state, target_state);
                        let p = target_state_link.path();
                        assert(p =~= seq![p[0]] + p.skip(1));
                        assert(entries(p) =~= seq![HookCall::Entry(p[0])] + entries(p.skip(1)));
                    }
                    let ghost t1 = trace@;
                    let ghost d1 = data@;
                    let ghost m1 = *user_state_machine;
                    dispatch_entry_evt(user_state_machine, trace, data, target_state_link.state, Ghost(event));
                    proof {
                        lemma_logged_trans::<M>(old(trace)@, old(data)@, *old(user_state_machine), t1, d1, m1, trace@, data@, *user_state_machine, event);
                    }
                    let ghost t1 = trace@;
                    let ghost d1 = data@;
                    let ghost m1 = *user_state_machine;
                    enter_substates(user_state_machine, trace, data, &target_state_link, Ghost(event));
                    proof {
                        lemma_logged_trans::<M>(old(trace)@, old(data)@, *old(user_state_machine), t1, d1, m1, trace@, data@, *user_state_machine, event);
                    }
                    proof {
                        assert(trace@ =~= middle + entries(target_state_link.path()));
                    }
                },
            }
        },
    }
}

/// Take the transition decided by `handling_state` to `target_state`, and
/// leave the machine in the leaf that the initial descent from the target
/// reaches.
fn handle_transition<M: State>(
    user_state_machine: &mut M,
    trace: &mut Ghost<Seq<HookCall>>,
    data: &mut Ghost<Seq<M>>,
    current_state: &mut StateId,
    handling_state: StateId,
    target_state: StateId,
    Ghost(event): Ghost<Option<M::Evt>>,
)
    requires
        is_ancestor_or_self::<M>(handling_state, *old(current_state)),
        old(data)@.len() == old(trace)@.len(),
    ensures
        final(trace)@ == old(trace)@ + transition_trace::<M>(
            *old(current_state),
            handling_state,
            target_state,
        ),
        *final(current_state) == leaf_of::<M>(target_state),
        logged::<M>(
            old(trace)@,
            old(data)@,
            *old(user_state_machine),
            final(trace)@,
            final(data)@,
            *final(user_state_machine),
            event,
        ),
{
    let ghost start = trace@;
    proof {
        lemma_logged_none::<M>(trace@, data@, *user_state_machine, event);
    }
    let ghost t1 = trace@;
    let ghost d1 = data@;
    let ghost m1 = *user_state_machine;
    exit_substates(user_state_machine, trace, data, *current_state, handling_state, Ghost(event));
    proof {
        lemma_logged_trans::<M>(old(trace)@, old(data)@, *old(user_state_machine), t1, d1, m1, trace@, data@, *user_state_machine, event);
    }
    let ghost exited = trace@;
    // Special handling in case of targetting the handling state itself
    if handling_state == target_state {
        let ghost t1 = trace@;
        let ghost d1 = data@;
        let ghost m1 = *user_state_machine;
        dispatch_exit_evt(user_state_machine, trace, data, handling_state, Ghost(event));
        proof {
            lemma_logged_trans::<M>(old(trace)@, old(data)@, *old(user_state_machine), t1, d1, m1, trace@, data@, *user_state_machine, event);
        }
        let ghost t1 = trace@;
        let ghost d1 = data@;
        let ghost m1 = *user_state_machine;
        dispatch_entry_evt(user_state_machine, trace, data, handling_state, Ghost(event));
        proof {
            lemma_logged_trans::<M>(old(trace)@, old(data)@, *old(user_state_machine), t1, d1, m1, trace@, data@, *user_state_machine, event);
        }
    } else {
        let target_state_link = Link { state: target_state, next_link: None };
        proof {
            lemma_ancestry_step::<M>(target_state);
        }
        let ghost t1 = trace@;
        let ghost d1 = data@;
        let ghost m1 = *user_state_machine;
        reach_target_state(user_state_machine, target_state_link, handling_state, trace, data, Ghost(target_state), Ghost(event));
        proof {
            lemma_logged_trans::<M>(old(trace)@, old(data)@, *old(user_state_machine), t1, d1, m1, trace@, data@, *user_state_machine, event);
        }
    }
    let ghost crossed = trace@;
    let ghost t1 = trace@;
    let ghost d1 = data@;
    let ghost m1 = *user_state_machine;
    *current_state = reach_init_target(user_state_machine, trace, data, target_state, Ghost(event));
    proof {
        lemma_logged_trans::<M>(old(trace)@, old(data)@, *old(user_state_machine), t1, d1, m1, trace@, data@, *user_state_machine, event);
    }
    proof {
        assert(trace@ =~= start + transition_trace::<M>(
            *old(current_state),
            handling_state,
            target_state,
        ));
    }
}

/// Deliver a user event to the current state.
pub(crate) fn dispatch_evt_to_current_state<M: State>(
    user_state_machine: &mut M,
    trace: &mut Ghost<Seq<HookCall>>,
    data: &mut Ghost<Seq<M>>,
    current_state: &mut StateId,
    evt: &CoreEvt<M::Evt>,
    Ghost(event): Ghost<Option<M::Evt>>,
)
    requires
        evt matches CoreEvt::UserEvt { user_evt } && event == Some(**user_evt),
        old(data)@.len() == old(trace)@.len(),
    ensures
        old(trace)@.is_prefix_of(final(trace)@),
        dispatched::<M>(
            *old(current_state),
            ParentState::Exists(*old(current_state)),
            final(trace)@.skip(old(trace)@.len() as int),
            *final(current_state),
        ),
        logged::<M>(
            old(trace)@,
            old(data)@,
            *old(user_state_machine),
            final(trace)@,
            final(data)@,
            *final(user_state_machine),
            event,
        ),
{
    proof {
        lemma_ancestry_step::<M>(*current_state);
    }
    let handling_state = *current_state;
    dispatch_evt_to_handling_state(
        user_state_machine,
        trace,
        data,
        current_state,
        handling_state,
        evt,
        Ghost(event),
    );
}

/// Deliver a user event to `handling_state`, the current state or one of its
/// ancestors; on `Ignored` go on with the parent, on a transition take it.
fn dispatch_evt_to_handling_state<M: State>(
    user_state_machine: &mut M,
    trace: &mut Ghost<Seq<HookCall>>,
    data: &mut Ghost<Seq<M>>,
    current_state: &mut StateId,
    handling_state: StateId,
    evt: &CoreEvt<M::Evt>,
    Ghost(event): Ghost<Option<M::Evt>>,
)
    requires
        evt matches CoreEvt::UserEvt { user_evt } && event == Some(**user_evt),
        is_ancestor_or_self::<M>(handling_state, *old(current_state)),
        old(data)@.len() == old(trace)@.len(),
    ensures
        old(trace)@.is_prefix_of(final(trace)@),
        dispatched::<M>(
            *old(current_state),
            ParentState::Exists(handling_state),
            final(trace)@.skip(old(trace)@.len() as int),
            *final(current_state),
        ),
        logged::<M>(
            old(trace)@,
            old(data)@,
            *old(user_state_machine),
            final(trace)@,
            final(data)@,
            *final(user_state_machine),
            event,
        ),
    decreases parent_depth::<M>(ParentState::Exists(handling_state)), 1nat,
{
    let ghost start = trace@;
    let ghost c = *current_state;
    let ghost before = *user_state_machine;
    let core_handle_result = core_handle(user_state_machine, handling_state, evt);
    // Treat result of the event dispatch
    match core_handle_result {
        CoreHandleResult::Handled => {
            let ghost call = HookCall::Handle(handling_state, HandleResult::Handled);
            proof {
                lemma_logged_one::<M>(trace@, data@, before, call, *user_state_machine, event);
            }
            *trace = Ghost(trace@.push(call));
            *data = Ghost(data@.push(before));
            proof {
                let delta = trace@.skip(start.len() as int);
                assert(delta =~= seq![HookCall::Handle(handling_state, HandleResult::Handled)]);
                assert(start =~= trace@.subrange(0, start.len() as int));
            }
        },
        CoreHandleResult::Ignored(parent_state) => {
            let ghost call = HookCall::Handle(handling_state, HandleResult::Ignored);
            proof {
                lemma_logged_one::<M>(trace@, data@, before, call, *user_state_machine, event);
            }
            *trace = Ghost(trace@.push(call));
            *data = Ghost(data@.push(before));
            let ghost handled = trace@;
            proof {
                M::lemma_hierarchy(handling_state);
                if let ParentState::Exists(p) = parent_state {
                    lemma_ancestor_parent::<M>(handling_state, c, p);
                }
            }
            let ghost t1 = trace@;
            let ghost d1 = data@;
            let ghost m1 = *user_state_machine;
            dispatch_evt_to_parent(user_state_machine, trace, data, current_state, parent_state, evt, Ghost(event));
            proof {
                lemma_logged_trans::<M>(old(trace)@, old(data)@, *old(user_state_machine), t1, d1, m1, trace@, data@, *user_state_machine, event);
            }
            proof {
                let delta = trace@.skip(start.len() as int);
                assert(trace@.subrange(0, handled.len() as int) =~= handled);
                assert(trace@[start.len() as int] == handled[start.len() as int]);
                assert(delta[0] == HookCall::Handle(handling_state, HandleResult::Ignored));
                assert(start =~= trace@.subrange(0, start.len() as int));
                assert(delta.skip(1) =~= trace@.skip(handled.len() as int));
            }
        },
        CoreHandleResult::Transition(target_state) => {
            let ghost call = HookCall::Handle(handling_state, HandleResult::Transition(target_state));
            proof {
                lemma_logged_one::<M>(trace@, data@, before, call, *user_state_machine, event);
            }
            *trace = Ghost(trace@.push(call));
            *data = Ghost(data@.push(before));
            let ghost handled = trace@;
            let ghost t1 = trace@;
            let ghost d1 = data@;
            let ghost m1 = *user_state_machine;
            handle_transition(user_state_machine, trace, data, current_state, handling_state, target_state, Ghost(event));
            proof {
                lemma_logged_trans::<M>(old(trace)@, old(data)@, *old(user_state_machine), t1, d1, m1, trace@, data@, *user_state_machine, event);
            }
            proof {
                let delta = trace@.skip(start.len() as int);
                assert(trace@.subrange(0, start.len() as int) =~= start);
                assert(delta[0] == HookCall::Handle(
                    handling_state,
                    HandleResult::Transition(target_state),
                ));
                assert(delta.skip(1) =~= trace@.skip(handled.len() as int));
                assert(trace@.skip(handled.len() as int) =~= transition_trace::<M>(
                    c,
                    handling_state,
                    target_state,
                ));
            }
        },
        _ => vstd::pervasive::unreached(),
    }
}

/// Deliver a user event ignored by a state to its parent, unless that parent
/// is the top state, where the event is dropped.
fn dispatch_evt_to_parent<M: State>(
    user_state_machine: &mut M,
    trace: &mut Ghost<Seq<HookCall>>,
    data: &mut Ghost<Seq<M>>,
    current_state: &mut StateId,
    parent_state_variant: ParentState,
    evt: &CoreEvt<M::Evt>,
    Ghost(event): Ghost<Option<M::Evt>>,
)
    requires
        evt matches CoreEvt::UserEvt { user_evt } && event == Some(**user_evt),
        parent_state_variant matches ParentState::Exists(p) ==> is_ancestor_or_self::<M>(
            p,
            *old(current_state),
        ),
        old(data)@.len() == old(trace)@.len(),
    ensures
        old(trace)@.is_prefix_of(final(trace)@),
        dispatched::<M>(
            *old(current_state),
            parent_state_variant,
            final(trace)@.skip(old(trace)@.len() as int),
            *final(current_state),
        ),
        logged::<M>(
            old(trace)@,
            old(data)@,
            *old(user_state_machine),
            final(trace)@,
            final(data)@,
            *final(user_state_machine),
            event,
        ),
    decreases parent_depth::<M>(parent_state_variant), 2nat,
{
    match parent_state_variant {
        ParentState::Exists(super_state) => {
            dispatch_evt_to_handling_state(
                user_state_machine,
                trace,
                data,
                current_state,
                super_state,
                evt,
                Ghost(event),
            )
        },
        ParentState::TopReached => {
            proof {
                assert(trace@.skip(trace@.len() as int) =~= Seq::<HookCall>::empty());
                lemma_logged_none::<M>(trace@, data@, *user_state_machine, event);
            }
        },
    }
}

/// Start the machine from the result of its topmost initial transition:
/// enter the target and descend to a leaf, which is returned.
pub(crate) fn init<M: State>(
    user_state_machine: &mut M,
    trace: &mut Ghost<Seq<HookCall>>,
    data: &mut Ghost<Seq<M>>,
    init_result: &InitResult,
) -> (r: StateId)
    requires
        *init_result == InitResult::TargetState(M::top_initial()),
        old(data)@.len() == old(trace)@.len(),
    ensures
        r == leaf_of::<M>(M::top_initial()),
        final(trace)@ == old(trace)@ + seq![HookCall::Entry(M::top_initial())] + descent::<M>(
            M::top_initial(),
        ),
        logged::<M>(
            old(trace)@,
            old(data)@,
            *old(user_state_machine),
            final(trace)@,
            final(data)@,
            *final(user_state_machine),
            None,
        ),
{
    let ghost event: Option<M::Evt> = None;
    match init_result {
        InitResult::TargetState(topmost_init_target_state) => {
            let ghost start = trace@;
            proof {
                lemma_logged_none::<M>(trace@, data@, *user_state_machine, event);
            }
            let ghost t1 = trace@;
            let ghost d1 = data@;
            let ghost m1 = *user_state_machine;
            dispatch_entry_evt(user_state_machine, trace, data, *topmost_init_target_state, Ghost(event));
            proof {
                lemma_logged_trans::<M>(old(trace)@, old(data)@, *old(user_state_machine), t1, d1, m1, trace@, data@, *user_state_machine, event);
            }
            let ghost t1 = trace@;
            let ghost d1 = data@;
            let ghost m1 = *user_state_machine;
            let leaf = reach_init_target(user_state_machine, trace, data, *topmost_init_target_state, Ghost(event));
            proof {
                lemma_logged_trans::<M>(old(trace)@, old(data)@, *old(user_state_machine), t1, d1, m1, trace@, data@, *user_state_machine, event);
            }
            proof {
                assert(trace@ =~= start + seq![HookCall::Entry(M::top_initial())] + descent::<M>(
                    M::top_initial(),
                ));
            }
            leaf
        },
        InitResult::NotImplemented => vstd::pervasive::unreached(),
    }
}

} // verus!
