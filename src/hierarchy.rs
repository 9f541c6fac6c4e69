//! The mathematical model of a hierarchy: ancestor chains, least common
//! ancestors, and the exact sequence of hooks that initialisation, event
//! propagation and transitions fire.
use vstd::prelude::*;
use crate::state::{HandleResult, InitResult, ParentState, ProtoStateMachine, State, StateId};

verus! {

/// One hook firing, as the engine records it.
#[derive(Clone, Copy, PartialEq, Eq, Structural, Debug)]
pub enum HookCall {
    /// The topmost initial transition.
    TopInit,
    /// The initial transition of a state.
    Init(StateId),
    /// The entry hook of a state.
    Entry(StateId),
    /// The exit hook of a state.
    Exit(StateId),
    /// The event hook of a state, with what it decided.
    Handle(StateId, HandleResult),
}

/// The chain `[s, parent of s, ..., child of the top state]`.
pub open spec fn ancestry<M: ProtoStateMachine>(s: StateId) -> Seq<StateId>
    decreases M::depth_of(s),
{
    match M::parent_of(s) {
        ParentState::Exists(p) => if M::depth_of(p) < M::depth_of(s) {
            seq![s] + ancestry::<M>(p)
        } else {
            seq![s]
        },
        ParentState::TopReached => seq![s],
    }
}

/// `a` is `s` or one of its ancestors.
pub open spec fn is_ancestor_or_self<M: ProtoStateMachine>(a: StateId, s: StateId) -> bool {
    ancestry::<M>(s).contains(a)
}

/// `a` is a proper ancestor of `s`.
pub open spec fn is_strict_ancestor<M: ProtoStateMachine>(a: StateId, s: StateId) -> bool {
    ancestry::<M>(s).contains(a) && a != s
}

/// The exits fired while climbing from `from` up to `to`, `to` excluded.
pub open spec fn exits_up<M: ProtoStateMachine>(from: StateId, to: StateId) -> Seq<HookCall>
    decreases M::depth_of(from),
{
    if from == to {
        seq![]
    } else {
        match M::parent_of(from) {
            ParentState::Exists(p) => if M::depth_of(p) < M::depth_of(from) {
                seq![HookCall::Exit(from)] + exits_up::<M>(p, to)
            } else {
                seq![HookCall::Exit(from)]
            },
            ParentState::TopReached => seq![HookCall::Exit(from)],
        }
    }
}

/// The least common ancestor of `h` and `t`: the first state on the way up
/// from `h` that is `t` or an ancestor of `t`; the top state if there is none.
pub open spec fn lca<M: ProtoStateMachine>(h: StateId, t: StateId) -> ParentState
    decreases M::depth_of(h),
{
    if is_ancestor_or_self::<M>(h, t) {
        ParentState::Exists(h)
    } else {
        match M::parent_of(h) {
            ParentState::Exists(p) => if M::depth_of(p) < M::depth_of(h) {
                lca::<M>(p, t)
            } else {
                ParentState::TopReached
            },
            ParentState::TopReached => ParentState::TopReached,
        }
    }
}

/// The exits fired while climbing from `h` up to `lca(h, t)`, excluded.
pub open spec fn exits_to_lca<M: ProtoStateMachine>(h: StateId, t: StateId) -> Seq<HookCall>
    decreases M::depth_of(h),
{
    if is_ancestor_or_self::<M>(h, t) {
        seq![]
    } else {
        match M::parent_of(h) {
            ParentState::Exists(p) => if M::depth_of(p) < M::depth_of(h) {
                seq![HookCall::Exit(h)] + exits_to_lca::<M>(p, t)
            } else {
                seq![HookCall::Exit(h)]
            },
            ParentState::TopReached => seq![HookCall::Exit(h)],
        }
    }
}

/// The states strictly below `x` on the way down to `t`, outermost first.
pub open spec fn path_between<M: ProtoStateMachine>(x: ParentState, t: StateId) -> Seq<StateId>
    decreases M::depth_of(t),
{
    if x == ParentState::Exists(t) {
        seq![]
    } else {
        match M::parent_of(t) {
            ParentState::Exists(p) => if M::depth_of(p) < M::depth_of(t) {
                path_between::<M>(x, p).push(t)
            } else {
                seq![t]
            },
            ParentState::TopReached => seq![t],
        }
    }
}

/// Entry firings for `states`, in order.
pub open spec fn entries(states: Seq<StateId>) -> Seq<HookCall>
    decreases states.len(),
{
    if states.len() == 0 {
        seq![]
    } else {
        seq![HookCall::Entry(states[0])] + entries(states.skip(1))
    }
}

/// The initial descent from `t`, already entered: its initial transition,
/// then the entry and the descent of its target, until a leaf.
pub open spec fn descent<M: ProtoStateMachine>(t: StateId) -> Seq<HookCall>
    decreases M::max_depth() - M::depth_of(t),
{
    match M::initial_of(t) {
        InitResult::TargetState(c) => if M::depth_of(t) < M::depth_of(c) <= M::max_depth() {
            seq![HookCall::Init(t), HookCall::Entry(c)] + descent::<M>(c)
        } else {
            seq![HookCall::Init(t)]
        },
        InitResult::NotImplemented => seq![HookCall::Init(t)],
    }
}

/// The leaf that the initial descent from `t` ends in.
pub open spec fn leaf_of<M: ProtoStateMachine>(t: StateId) -> StateId
    decreases M::max_depth() - M::depth_of(t),
{
    match M::initial_of(t) {
        InitResult::TargetState(c) => if M::depth_of(t) < M::depth_of(c) <= M::max_depth() {
            leaf_of::<M>(c)
        } else {
            t
        },
        InitResult::NotImplemented => t,
    }
}

/// The hooks fired by the transition from handling state `h` to target `t`
/// while the machine rests in `c`: exits from `c` up to `h`; for `h == t`
/// an exit and an entry of `h`, otherwise exits from `h` up to the least
/// common ancestor and entries from there down to `t`; then the initial
/// descent from `t`.
pub open spec fn transition_trace<M: ProtoStateMachine>(
    c: StateId,
    h: StateId,
    t: StateId,
) -> Seq<HookCall> {
    exits_up::<M>(c, h) + (if h == t {
        seq![HookCall::Exit(h), HookCall::Entry(h)]
    } else {
        exits_to_lca::<M>(h, t) + entries(path_between::<M>(lca::<M>(h, t), t))
    }) + descent::<M>(t)
}

/// The hooks fired by the start of the machine, which then rests in
/// `leaf_of(top_initial())`.
pub open spec fn init_trace<M: ProtoStateMachine>() -> Seq<HookCall> {
    seq![HookCall::TopInit, HookCall::Entry(M::top_initial())] + descent::<M>(M::top_initial())
}

/// The depth of a parent, zero for the top state.
pub open spec fn parent_depth<M: ProtoStateMachine>(p: ParentState) -> nat {
    match p {
        ParentState::Exists(s) => (M::depth_of(s) + 1) as nat,
        ParentState::TopReached => 0,
    }
}

/// `delta` is what an event fires when it reaches `h` (the top state, or a
/// state on the chain of the current leaf `c`), and `next` is the state the
/// machine then rests in. An ignored event climbs on to the parent; a handled
/// one stops; a transition fires `transition_trace`.
pub open spec fn dispatched<M: ProtoStateMachine>(
    c: StateId,
    h: ParentState,
    delta: Seq<HookCall>,
    next: StateId,
) -> bool
    decreases parent_depth::<M>(h),
{
    match h {
        ParentState::TopReached => delta.len() == 0 && next == c,
        ParentState::Exists(s) => {
            &&& delta.len() >= 1
            &&& delta[0] matches HookCall::Handle(hs, r)
            &&& hs == s
            &&& match r {
                HandleResult::Ignored => match M::parent_of(s) {
                    ParentState::Exists(p) => M::depth_of(p) < M::depth_of(s) && dispatched::<M>(
                        c,
                        ParentState::Exists(p),
                        delta.skip(1),
                        next,
                    ),
                    ParentState::TopReached => delta.len() == 1 && next == c,
                },
                HandleResult::Handled => delta.len() == 1 && next == c,
                HandleResult::Transition(t) => delta.skip(1) == transition_trace::<M>(c, s, t)
                    && next == leaf_of::<M>(t),
            }
        },
    }
}

/// Entries minus exits of `s` in `trace`.
pub open spec fn net_entries(trace: Seq<HookCall>, s: StateId) -> int
    decreases trace.len(),
{
    if trace.len() == 0 {
        0
    } else {
        net_entries(trace.drop_last(), s) + match trace.last() {
            HookCall::Entry(x) => if x == s { 1int } else { 0 },
            HookCall::Exit(x) => if x == s { -1int } else { 0 },
            _ => 0,
        }
    }
}

/// Unfold `ancestry` one step.
pub proof fn lemma_ancestry_step<M: ProtoStateMachine>(s: StateId)
    ensures
        ancestry::<M>(s).len() >= 1,
        ancestry::<M>(s)[0] == s,
        ancestry::<M>(s) == match M::parent_of(s) {
            ParentState::Exists(p) => seq![s] + ancestry::<M>(p),
            ParentState::TopReached => seq![s],
        },
{
    M::lemma_hierarchy(s);
}

/// An ancestor of `t` is no deeper than `t`, and a proper one is shallower.
pub proof fn lemma_ancestor_depth<M: ProtoStateMachine>(x: StateId, t: StateId)
    requires
        is_ancestor_or_self::<M>(x, t),
    ensures
        M::depth_of(x) <= M::depth_of(t),
        x != t ==> M::depth_of(x) < M::depth_of(t),
    decreases M::depth_of(t),
{
    lemma_ancestry_step::<M>(t);
    if x != t {
        match M::parent_of(t) {
            ParentState::Exists(q) => {
                M::lemma_hierarchy(t);
                assert(ancestry::<M>(q).contains(x)) by {
                    let i = choose|i: int| 0 <= i < ancestry::<M>(t).len() && ancestry::<M>(t)[i] == x;
                    assert(ancestry::<M>(q)[i - 1] == x);
                }
                lemma_ancestor_depth::<M>(x, q);
            },
            ParentState::TopReached => {},
        }
    }
}

/// The parent of an ancestor of `t` is an ancestor of `t` too.
pub proof fn lemma_ancestor_parent<M: ProtoStateMachine>(x: StateId, t: StateId, p: StateId)
    requires
        is_ancestor_or_self::<M>(x, t),
        M::parent_of(x) == ParentState::Exists(p),
    ensures
        is_ancestor_or_self::<M>(p, t),
    decreases M::depth_of(t),
{
    lemma_ancestry_step::<M>(t);
    lemma_ancestry_step::<M>(p);
    if x == t {
        assert(ancestry::<M>(t)[1] == p);
    } else {
        match M::parent_of(t) {
            ParentState::Exists(q) => {
                M::lemma_hierarchy(t);
                assert(ancestry::<M>(q).contains(x)) by {
                    let i = choose|i: int| 0 <= i < ancestry::<M>(t).len() && ancestry::<M>(t)[i] == x;
                    assert(ancestry::<M>(q)[i - 1] == x);
                }
                lemma_ancestor_parent::<M>(x, q, p);
                let j = choose|j: int| 0 <= j < ancestry::<M>(q).len() && ancestry::<M>(q)[j] == p;
                assert(ancestry::<M>(t)[j + 1] == p);
            },
            ParentState::TopReached => {},
        }
    }
}

/// Splitting the way down to `t` at its ancestor `x`.
pub proof fn lemma_path_split<M: ProtoStateMachine>(x: StateId, t: StateId)
    requires
        is_ancestor_or_self::<M>(x, t),
    ensures
        path_between::<M>(M::parent_of(x), t) == seq![x] + path_between::<M>(
            ParentState::Exists(x),
            t,
        ),
    decreases M::depth_of(t),
{
    lemma_ancestry_step::<M>(t);
    M::lemma_hierarchy(t);
    M::lemma_hierarchy(x);
    if x == t {
        if let ParentState::Exists(p) = M::parent_of(x) {
            assert(path_between::<M>(ParentState::Exists(p), p) == Seq::<StateId>::empty());
        }
        assert(path_between::<M>(M::parent_of(x), t) =~= seq![x]);
    } else {
        match M::parent_of(t) {
            ParentState::Exists(q) => {
                assert(ancestry::<M>(q).contains(x)) by {
                    let i = choose|i: int| 0 <= i < ancestry::<M>(t).len() && ancestry::<M>(t)[i] == x;
                    assert(ancestry::<M>(q)[i - 1] == x);
                }
                lemma_ancestor_depth::<M>(x, t);
                lemma_path_split::<M>(x, q);
                assert(path_between::<M>(M::parent_of(x), t) =~= seq![x] + path_between::<M>(
                    ParentState::Exists(x),
                    t,
                ));
            },
            ParentState::TopReached => {},
        }
    }
}

/// The way down from the top state to `t` passes exactly the ancestors of `t`.
pub proof fn lemma_path_from_top<M: ProtoStateMachine>(t: StateId, s: StateId)
    ensures
        path_between::<M>(ParentState::TopReached, t).contains(s) <==> is_ancestor_or_self::<M>(s, t),
    decreases M::depth_of(t),
{
    lemma_ancestry_step::<M>(t);
    M::lemma_hierarchy(t);
    match M::parent_of(t) {
        ParentState::Exists(q) => {
            lemma_path_from_top::<M>(q, s);
            let a = path_between::<M>(ParentState::TopReached, q);
            assert(path_between::<M>(ParentState::TopReached, t) == a.push(t));
            if a.push(t).contains(s) && s != t {
                let i = choose|i: int| 0 <= i < a.push(t).len() && a.push(t)[i] == s;
                assert(a[i] == s);
            }
            if a.contains(s) {
                let i = choose|i: int| 0 <= i < a.len() && a[i] == s;
                assert(a.push(t)[i] == s);
            }
            assert(a.push(t)[a.len() as int] == t);
            if ancestry::<M>(t).contains(s) && s != t {
                let i = choose|i: int| 0 <= i < ancestry::<M>(t).len() && ancestry::<M>(t)[i] == s;
                assert(ancestry::<M>(q)[i - 1] == s);
            }
            if ancestry::<M>(q).contains(s) {
                let i = choose|i: int| 0 <= i < ancestry::<M>(q).len() && ancestry::<M>(q)[i] == s;
                assert(ancestry::<M>(t)[i + 1] == s);
            }
        },
        ParentState::TopReached => {
            assert(path_between::<M>(ParentState::TopReached, t) == seq![t]);
        },
    }
}

/// `s` has no initial transition.
pub open spec fn is_leaf<M: ProtoStateMachine>(s: StateId) -> bool {
    M::initial_of(s) is NotImplemented
}

/// The initial descent ends in a leaf.
pub proof fn lemma_leaf_of_is_leaf<M: ProtoStateMachine>(t: StateId)
    ensures
        is_leaf::<M>(leaf_of::<M>(t)),
    decreases M::max_depth() - M::depth_of(t),
{
    M::lemma_hierarchy(t);
    if let InitResult::TargetState(c) = M::initial_of(t) {
        M::lemma_hierarchy(c);
        lemma_leaf_of_is_leaf::<M>(c);
    }
}

/// An event leaves a machine resting in a leaf resting in a leaf.
pub proof fn lemma_dispatched_leaf<M: ProtoStateMachine>(
    c: StateId,
    h: ParentState,
    delta: Seq<HookCall>,
    next: StateId,
)
    requires
        dispatched::<M>(c, h, delta, next),
        is_leaf::<M>(c),
    ensures
        is_leaf::<M>(next),
    decreases parent_depth::<M>(h),
{
    if let ParentState::Exists(s) = h {
        if let HookCall::Handle(_, r) = delta[0] {
            match r {
                HandleResult::Ignored => {
                    if let ParentState::Exists(p) = M::parent_of(s) {
                        lemma_dispatched_leaf::<M>(c, ParentState::Exists(p), delta.skip(1), next);
                    }
                },
                HandleResult::Transition(t) => lemma_leaf_of_is_leaf::<M>(t),
                HandleResult::Handled => {},
            }
        }
    }
}

/// The hook of `call`, run on the data `before` while `evt` is dispatched
/// (none during the start), decided what `call` records and left `after`.
pub open spec fn fires<M: State>(before: M, call: HookCall, after: M, evt: Option<M::Evt>) -> bool {
    match call {
        HookCall::TopInit => before.top_initialised(&after),
        HookCall::Init(s) => before.initialised(s, &after),
        HookCall::Entry(s) => before.entered(s, &after),
        HookCall::Exit(s) => before.exited(s, &after),
        HookCall::Handle(s, r) => evt matches Some(e) && r == before.handle_of(s, &e)
            && before.reacted(s, &e, &after),
    }
}

/// Going from `trace0`, `data0` and the data `m0` to `trace1`, `data1` and
/// `m1`, each new record of the trace was fired on the data stored beside it
/// in `data1`, and the data left by one record is the data of the next (or
/// `m1` after the last).
pub open spec fn logged<M: State>(
    trace0: Seq<HookCall>,
    data0: Seq<M>,
    m0: M,
    trace1: Seq<HookCall>,
    data1: Seq<M>,
    m1: M,
    evt: Option<M::Evt>,
) -> bool {
    &&& data1.len() == trace1.len()
    &&& trace0.is_prefix_of(trace1)
    &&& data0.is_prefix_of(data1)
    &&& trace0.len() == trace1.len() ==> m0 == m1
    &&& trace0.len() < trace1.len() ==> data1[trace0.len() as int] == m0
    &&& forall|i: int|
        trace0.len() <= i < trace1.len() ==> #[trigger] fired_at::<M>(trace1, data1, i, m1, evt)
}

/// Record `i` of `trace` was fired on `data[i]` and left the data of the next
/// record, or `last` after the last one.
pub open spec fn fired_at<M: State>(
    trace: Seq<HookCall>,
    data: Seq<M>,
    i: int,
    last: M,
    evt: Option<M::Evt>,
) -> bool {
    fires::<M>(
        data[i],
        trace[i],
        if i + 1 < trace.len() {
            data[i + 1]
        } else {
            last
        },
        evt,
    )
}

/// Nothing fired.
pub proof fn lemma_logged_none<M: State>(t: Seq<HookCall>, d: Seq<M>, m: M, evt: Option<M::Evt>)
    requires
        d.len() == t.len(),
    ensures
        logged::<M>(t, d, m, t, d, m, evt),
{
    assert(t =~= t.subrange(0, t.len() as int));
    assert(d =~= d.subrange(0, d.len() as int));
}

/// One hook fired.
pub proof fn lemma_logged_one<M: State>(
    t: Seq<HookCall>,
    d: Seq<M>,
    m: M,
    call: HookCall,
    after: M,
    evt: Option<M::Evt>,
)
    requires
        d.len() == t.len(),
        fires::<M>(m, call, after, evt),
    ensures
        logged::<M>(t, d, m, t.push(call), d.push(m), after, evt),
{
    assert(t =~= t.push(call).subrange(0, t.len() as int));
    assert(d =~= d.push(m).subrange(0, d.len() as int));
    assert forall|i: int|
        t.len() <= i < t.push(call).len() implies #[trigger] fired_at::<M>(
            t.push(call),
            d.push(m),
            i,
            after,
            evt,
        ) by {
        assert(i == t.len());
    }
}

/// Two stretches of firings in a row make one.
pub proof fn lemma_logged_trans<M: State>(
    t0: Seq<HookCall>,
    d0: Seq<M>,
    m0: M,
    t1: Seq<HookCall>,
    d1: Seq<M>,
    m1: M,
    t2: Seq<HookCall>,
    d2: Seq<M>,
    m2: M,
    evt: Option<M::Evt>,
)
    requires
        logged::<M>(t0, d0, m0, t1, d1, m1, evt),
        logged::<M>(t1, d1, m1, t2, d2, m2, evt),
    ensures
        logged::<M>(t0, d0, m0, t2, d2, m2, evt),
{
    assert(t0 =~= t2.subrange(0, t0.len() as int)) by {
        assert forall|i: int| 0 <= i < t0.len() implies t0[i] == t2[i] by {
            assert(t0[i] == t1.subrange(0, t0.len() as int)[i]);
            assert(t1[i] == t2.subrange(0, t1.len() as int)[i]);
        }
    }
    assert(d0 =~= d2.subrange(0, d0.len() as int)) by {
        assert forall|i: int| 0 <= i < d0.len() implies d0[i] == d2[i] by {
            assert(d0[i] == d1.subrange(0, d0.len() as int)[i]);
            assert(d1[i] == d2.subrange(0, d1.len() as int)[i]);
        }
    }
    assert forall|i: int| 0 <= i < t1.len() implies t1[i] == t2[i] && d1[i] == d2[i] by {
        assert(t1[i] == t2.subrange(0, t1.len() as int)[i]);
        assert(d1[i] == d2.subrange(0, d1.len() as int)[i]);
    }
    if t0.len() < t1.len() {
        assert(d2[t0.len() as int] == d1[t0.len() as int]);
    }
    assert forall|i: int|
        t0.len() <= i < t2.len() implies #[trigger] fired_at::<M>(t2, d2, i, m2, evt) by {
        if i < t1.len() {
            assert(fired_at::<M>(t1, d1, i, m1, evt));
            if i + 1 == t1.len() && t1.len() < t2.len() {
                assert(d2[i + 1] == m1);
            }
        } else {
            assert(fired_at::<M>(t2, d2, i, m2, evt));
        }
    }
}

} // verus!
