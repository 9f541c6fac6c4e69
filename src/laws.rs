//! Properties of the hook sequences that the engine fires, proved from the
//! model in [`crate::hierarchy`] that the engine's contracts are stated in.
use vstd::prelude::*;
use crate::hierarchy::{
    ancestry, descent, dispatched, entries, exits_to_lca, exits_up, init_trace,
    is_ancestor_or_self, is_strict_ancestor, lca, leaf_of, lemma_ancestor_depth,
    lemma_ancestry_step, net_entries, path_between, transition_trace, HookCall,
};
use crate::state::{HandleResult, InitResult, ParentState, ProtoStateMachine, State, StateId};
use crate::state_machine::StateMachine;

verus! {

/// No record of `trace` is an event-hook firing.
pub open spec fn no_handles(trace: Seq<HookCall>) -> bool {
    forall|i: int| 0 <= i < trace.len() ==> !(#[trigger] trace[i] is Handle)
}

/// Every state that `trace` enters or exits has depth at least `d`.
pub open spec fn touches_at_depth<M: ProtoStateMachine>(trace: Seq<HookCall>, d: int) -> bool {
    forall|i: int|
        0 <= i < trace.len() ==> match #[trigger] trace[i] {
            HookCall::Entry(x) => M::depth_of(x) >= d,
            HookCall::Exit(x) => M::depth_of(x) >= d,
            _ => true,
        }
}

proof fn lemma_concat<M: ProtoStateMachine>(a: Seq<HookCall>, b: Seq<HookCall>, d: int)
    ensures
        no_handles(a) && no_handles(b) ==> no_handles(a + b),
        touches_at_depth::<M>(a, d) && touches_at_depth::<M>(b, d) ==> touches_at_depth::<M>(
            a + b,
            d,
        ),
{
    assert forall|i: int| 0 <= i < (a + b).len() implies (a + b)[i] == if i < a.len() {
        a[i]
    } else {
        b[i - a.len()]
    } by {}
    if no_handles(a) && no_handles(b) {
        assert forall|i: int| 0 <= i < (a + b).len() implies !(#[trigger] (a + b)[i] is Handle) by {
            if i < a.len() {
                assert(!(a[i] is Handle));
            } else {
                assert(!(b[i - a.len()] is Handle));
            }
        }
    }
    if touches_at_depth::<M>(a, d) && touches_at_depth::<M>(b, d) {
        assert forall|i: int| 0 <= i < (a + b).len() implies match #[trigger] (a + b)[i] {
            HookCall::Entry(x) => M::depth_of(x) >= d,
            HookCall::Exit(x) => M::depth_of(x) >= d,
            _ => true,
        } by {
            if i < a.len() {
                let _ = a[i];
            } else {
                let _ = b[i - a.len()];
            }
        }
    }
}

proof fn lemma_exits_up<M: ProtoStateMachine>(from: StateId, to: StateId)
    requires
        is_ancestor_or_self::<M>(to, from),
    ensures
        no_handles(exits_up::<M>(from, to)),
        touches_at_depth::<M>(exits_up::<M>(from, to), M::depth_of(to) + 1),
    decreases M::depth_of(from),
{
    lemma_ancestry_step::<M>(from);
    M::lemma_hierarchy(from);
    if from != to {
        match M::parent_of(from) {
            ParentState::Exists(p) => {
                let i = choose|i: int|
                    0 <= i < ancestry::<M>(from).len() && ancestry::<M>(from)[i] == to;
                assert(ancestry::<M>(p)[i - 1] == to);
                lemma_exits_up::<M>(p, to);
                lemma_ancestor_depth::<M>(to, from);
                lemma_concat::<M>(
                    seq![HookCall::Exit(from)],
                    exits_up::<M>(p, to),
                    M::depth_of(to) + 1,
                );
            },
            ParentState::TopReached => {
                assert(ancestry::<M>(from) =~= seq![from]);
            },
        }
    }
}

/// `lca(h, t)`, when it is a state, is an ancestor of both `h` and `t`.
pub proof fn lemma_lca_is_common<M: ProtoStateMachine>(h: StateId, t: StateId)
    ensures
        lca::<M>(h, t) matches ParentState::Exists(l) ==> is_ancestor_or_self::<M>(l, h)
            && is_ancestor_or_self::<M>(l, t),
    decreases M::depth_of(h),
{
    lemma_ancestry_step::<M>(h);
    M::lemma_hierarchy(h);
    if !is_ancestor_or_self::<M>(h, t) {
        if let ParentState::Exists(p) = M::parent_of(h) {
            lemma_lca_is_common::<M>(p, t);
            if let ParentState::Exists(l) = lca::<M>(p, t) {
                let i = choose|i: int| 0 <= i < ancestry::<M>(p).len() && ancestry::<M>(p)[i] == l;
                assert(ancestry::<M>(h)[i + 1] == l);
            }
        }
    }
}

proof fn lemma_exits_to_lca<M: ProtoStateMachine>(h: StateId, t: StateId)
    ensures
        no_handles(exits_to_lca::<M>(h, t)),
        touches_at_depth::<M>(exits_to_lca::<M>(h, t), match lca::<M>(h, t) {
            ParentState::Exists(l) => M::depth_of(l) + 1,
            ParentState::TopReached => 0,
        }),
    decreases M::depth_of(h),
{
    lemma_ancestry_step::<M>(h);
    M::lemma_hierarchy(h);
    if !is_ancestor_or_self::<M>(h, t) {
        let d = match lca::<M>(h, t) {
            ParentState::Exists(l) => M::depth_of(l) + 1,
            ParentState::TopReached => 0,
        };
        lemma_lca_is_common::<M>(h, t);
        if let ParentState::Exists(l) = lca::<M>(h, t) {
            lemma_ancestor_depth::<M>(l, h);
        }
        match M::parent_of(h) {
            ParentState::Exists(p) => {
                lemma_exits_to_lca::<M>(p, t);
                lemma_concat::<M>(seq![HookCall::Exit(h)], exits_to_lca::<M>(p, t), d);
            },
            ParentState::TopReached => {},
        }
    }
}

proof fn lemma_entries<M: ProtoStateMachine>(states: Seq<StateId>, d: int)
    requires
        forall|i: int| 0 <= i < states.len() ==> M::depth_of(#[trigger] states[i]) >= d,
    ensures
        no_handles(entries(states)),
        touches_at_depth::<M>(entries(states), d),
    decreases states.len(),
{
    if states.len() > 0 {
        assert forall|i: int| 0 <= i < states.skip(1).len() implies M::depth_of(
            #[trigger] states.skip(1)[i],
        ) >= d by {
            assert(states.skip(1)[i] == states[i + 1]);
        }
        lemma_entries::<M>(states.skip(1), d);
        lemma_concat::<M>(seq![HookCall::Entry(states[0])], entries(states.skip(1)), d);
    }
}

proof fn lemma_path_between_depth<M: ProtoStateMachine>(l: StateId, t: StateId)
    requires
        is_ancestor_or_self::<M>(l, t),
    ensures
        forall|i: int|
            0 <= i < path_between::<M>(ParentState::Exists(l), t).len() ==> M::depth_of(
                #[trigger] path_between::<M>(ParentState::Exists(l), t)[i],
            ) > M::depth_of(l),
    decreases M::depth_of(t),
{
    lemma_ancestry_step::<M>(t);
    M::lemma_hierarchy(t);
    if l != t {
        lemma_ancestor_depth::<M>(l, t);
        if let ParentState::Exists(p) = M::parent_of(t) {
            let i = choose|i: int| 0 <= i < ancestry::<M>(t).len() && ancestry::<M>(t)[i] == l;
            assert(ancestry::<M>(p)[i - 1] == l);
            lemma_path_between_depth::<M>(l, p);
            let a = path_between::<M>(ParentState::Exists(l), p);
            assert forall|i: int| 0 <= i < a.push(t).len() implies M::depth_of(
                #[trigger] a.push(t)[i],
            ) > M::depth_of(l) by {
                if i < a.len() {
                    assert(a.push(t)[i] == a[i]);
                }
            }
        } else {
            assert(ancestry::<M>(t) =~= seq![t]);
        }
    }
}

proof fn lemma_descent<M: ProtoStateMachine>(t: StateId)
    ensures
        no_handles(descent::<M>(t)),
        touches_at_depth::<M>(descent::<M>(t), M::depth_of(t) + 1),
    decreases M::max_depth() - M::depth_of(t),
{
    M::lemma_hierarchy(t);
    if let InitResult::TargetState(c) = M::initial_of(t) {
        M::lemma_hierarchy(c);
        lemma_descent::<M>(c);
        lemma_concat::<M>(
            seq![HookCall::Init(t), HookCall::Entry(c)],
            descent::<M>(c),
            M::depth_of(t) + 1,
        );
    }
}

/// A transition fires no event hook, and touches no state above the least
/// common ancestor of its source and target.
proof fn lemma_transition_shape<M: ProtoStateMachine>(c: StateId, h: StateId, t: StateId)
    requires
        is_ancestor_or_self::<M>(h, c),
    ensures
        no_handles(transition_trace::<M>(c, h, t)),
        lca::<M>(h, t) matches ParentState::Exists(l) ==> touches_at_depth::<M>(
            transition_trace::<M>(c, h, t),
            M::depth_of(l) as int,
        ),
{
    lemma_exits_up::<M>(c, h);
    lemma_descent::<M>(t);
    lemma_lca_is_common::<M>(h, t);
    lemma_ancestry_step::<M>(h);
    let middle = if h == t {
        seq![HookCall::Exit(h), HookCall::Entry(h)]
    } else {
        exits_to_lca::<M>(h, t) + entries(path_between::<M>(lca::<M>(h, t), t))
    };
    let d: int = match lca::<M>(h, t) {
        ParentState::Exists(l) => M::depth_of(l) as int,
        ParentState::TopReached => 0,
    };
    if let ParentState::Exists(l) = lca::<M>(h, t) {
        lemma_ancestor_depth::<M>(l, h);
        lemma_ancestor_depth::<M>(l, t);
    }
    if h == t {
        assert(lca::<M>(h, t) == ParentState::Exists(h));
        assert(no_handles(middle));
        assert(touches_at_depth::<M>(middle, d));
    } else {
        lemma_exits_to_lca::<M>(h, t);
        match lca::<M>(h, t) {
            ParentState::Exists(l) => {
                lemma_path_between_depth::<M>(l, t);
                lemma_entries::<M>(path_between::<M>(lca::<M>(h, t), t), d);
            },
            ParentState::TopReached => {
                lemma_entries::<M>(path_between::<M>(lca::<M>(h, t), t), d);
            },
        }
        lemma_concat::<M>(
            exits_to_lca::<M>(h, t),
            entries(path_between::<M>(lca::<M>(h, t), t)),
            d,
        );
    }
    lemma_concat::<M>(exits_up::<M>(c, h), middle, d);
    lemma_concat::<M>(exits_up::<M>(c, h) + middle, descent::<M>(t), d);
}

/// During a transition from `h` to `t`, no state strictly above their least
/// common ancestor is exited or entered.
pub proof fn lemma_lca_is_highest<M: ProtoStateMachine>(
    c: StateId,
    h: StateId,
    t: StateId,
    x: StateId,
)
    requires
        is_ancestor_or_self::<M>(h, c),
        lca::<M>(h, t) is Exists,
        is_strict_ancestor::<M>(x, lca::<M>(h, t)->0),
    ensures
        !transition_trace::<M>(c, h, t).contains(HookCall::Exit(x)),
        !transition_trace::<M>(c, h, t).contains(HookCall::Entry(x)),
{
    let tr = transition_trace::<M>(c, h, t);
    lemma_transition_shape::<M>(c, h, t);
    lemma_ancestor_depth::<M>(x, lca::<M>(h, t)->0);
    if tr.contains(HookCall::Exit(x)) {
        let i = choose|i: int| 0 <= i < tr.len() && tr[i] == HookCall::Exit(x);
        let _ = tr[i];
    }
    if tr.contains(HookCall::Entry(x)) {
        let i = choose|i: int| 0 <= i < tr.len() && tr[i] == HookCall::Entry(x);
        let _ = tr[i];
    }
}

/// A transition of a state to itself exits the state, enters it again, and
/// then runs the initial descent from it; before that it exits the states
/// below it, innermost first.
pub proof fn lemma_self_transition<M: ProtoStateMachine>(c: StateId, h: StateId)
    requires
        is_ancestor_or_self::<M>(h, c),
    ensures
        transition_trace::<M>(c, h, h) == exits_up::<M>(c, h) + seq![
            HookCall::Exit(h),
            HookCall::Entry(h),
        ] + descent::<M>(h),
        no_handles(exits_up::<M>(c, h)),
        touches_at_depth::<M>(exits_up::<M>(c, h), M::depth_of(h) + 1),
{
    lemma_exits_up::<M>(c, h);
}

/// An event visits the current state and then its ancestors, innermost
/// first, each once: every event-hook firing of a dispatch is the i-th state
/// of the current state's chain, after i ignored firings. A dispatch whose
/// last firing is an ignored event hook has climbed the whole chain.
pub proof fn lemma_propagation_order<M: ProtoStateMachine>(
    s: StateId,
    c: StateId,
    delta: Seq<HookCall>,
    next: StateId,
)
    requires
        dispatched::<M>(c, ParentState::Exists(s), delta, next),
        is_ancestor_or_self::<M>(s, c),
    ensures
        delta.len() >= 1,
        delta[0] is Handle,
        forall|i: int|
            0 <= i < delta.len() && (#[trigger] delta[i] is Handle) ==> i < ancestry::<M>(s).len()
                && delta[i]->Handle_0 == ancestry::<M>(s)[i] && forall|j: int|
                0 <= j < i ==> delta[j] == HookCall::Handle(
                    ancestry::<M>(s)[j],
                    HandleResult::Ignored,
                ),
        delta.last() == HookCall::Handle(ancestry::<M>(s).last(), HandleResult::Ignored)
            ==> delta.len() == ancestry::<M>(s).len(),
    decreases M::depth_of(s),
{
    lemma_ancestry_step::<M>(s);
    M::lemma_hierarchy(s);
    let anc = ancestry::<M>(s);
    if let HookCall::Handle(_, r) = delta[0] {
        match r {
            HandleResult::Ignored => {
                match M::parent_of(s) {
                    ParentState::Exists(p) => {
                        let rest = delta.skip(1);
                        crate::hierarchy::lemma_ancestor_parent::<M>(s, c, p);
                        lemma_propagation_order::<M>(p, c, rest, next);
                        assert forall|i: int|
                            0 <= i < delta.len() && (#[trigger] delta[i] is Handle) implies i
                            < anc.len() && delta[i]->Handle_0 == anc[i] && forall|j: int|
                            0 <= j < i ==> delta[j] == HookCall::Handle(
                                anc[j],
                                HandleResult::Ignored,
                            ) by {
                            if i > 0 {
                                assert(delta[i] == rest[i - 1]);
                                assert forall|j: int| 0 <= j < i implies delta[j] == HookCall::Handle(
                                    anc[j],
                                    HandleResult::Ignored,
                                ) by {
                                    if j > 0 {
                                        assert(delta[j] == rest[j - 1]);
                                    }
                                }
                            }
                        }
                        if delta.last() == HookCall::Handle(anc.last(), HandleResult::Ignored) {
                            assert(rest.last() == delta.last());
                            assert(anc.last() == ancestry::<M>(p).last());
                        }
                    },
                    ParentState::TopReached => {
                        assert(anc =~= seq![s]);
                    },
                }
            },
            HandleResult::Handled => {},
            HandleResult::Transition(t) => {
                lemma_transition_shape::<M>(c, s, t);
                let rest = delta.skip(1);
                assert forall|i: int|
                    0 <= i < delta.len() && (#[trigger] delta[i] is Handle) implies i == 0 by {
                    if i > 0 {
                        assert(delta[i] == rest[i - 1]);
                    }
                }
            },
        }
    }
}

/// The event-hook firings of a dispatch all come before its exits and
/// entries: no transition effect fires before the hook that asked for the
/// transition has returned.
pub proof fn lemma_handle_before_effects<M: ProtoStateMachine>(
    c: StateId,
    delta: Seq<HookCall>,
    next: StateId,
)
    requires
        dispatched::<M>(c, ParentState::Exists(c), delta, next),
    ensures
        forall|i: int, j: int|
            0 <= i < delta.len() && 0 <= j < delta.len() && (#[trigger] delta[i] is Handle) && (
            #[trigger] delta[j] is Entry || delta[j] is Exit) ==> i < j,
{
    lemma_ancestry_step::<M>(c);
    lemma_propagation_order::<M>(c, c, delta, next);
    assert forall|i: int, j: int|
        0 <= i < delta.len() && 0 <= j < delta.len() && (#[trigger] delta[i] is Handle) && (
        #[trigger] delta[j] is Entry || delta[j] is Exit) implies i < j by {
        if j < i {
            assert(delta[j] is Handle);
        }
    }
}

/// One if `b` holds, zero otherwise.
pub open spec fn ind(b: bool) -> int {
    if b {
        1
    } else {
        0
    }
}

/// Every state has been entered once more than exited if it is the current
/// state `c` or an ancestor of it, and as often as exited otherwise.
pub open spec fn entries_balanced<M: ProtoStateMachine>(trace: Seq<HookCall>, c: StateId) -> bool {
    forall|s: StateId| net_entries(trace, s) == ind(is_ancestor_or_self::<M>(s, c))
}

/// `s` is the state `p` or one of its ancestors; never the top state.
pub open spec fn at_or_above<M: ProtoStateMachine>(s: StateId, p: ParentState) -> bool {
    match p {
        ParentState::Exists(l) => is_ancestor_or_self::<M>(s, l),
        ParentState::TopReached => false,
    }
}

pub(crate) proof fn lemma_net_concat(a: Seq<HookCall>, b: Seq<HookCall>, s: StateId)
    ensures
        net_entries(a + b, s) == net_entries(a, s) + net_entries(b, s),
    decreases b.len(),
{
    if b.len() == 0 {
        assert(a + b =~= a);
    } else {
        lemma_net_concat(a, b.drop_last(), s);
        assert((a + b).drop_last() =~= a + b.drop_last());
        assert((a + b).last() == b.last());
    }
}

proof fn lemma_net_one(h: HookCall, s: StateId)
    ensures
        net_entries(seq![h], s) == match h {
            HookCall::Entry(x) => ind(x == s),
            HookCall::Exit(x) => -ind(x == s),
            _ => 0,
        },
{
    assert(seq![h].drop_last() =~= Seq::<HookCall>::empty());
    assert(net_entries(Seq::<HookCall>::empty(), s) == 0);
    assert(seq![h].last() == h);
}

pub(crate) proof fn lemma_ancestor_trans<M: ProtoStateMachine>(a: StateId, b: StateId, c: StateId)
    requires
        is_ancestor_or_self::<M>(a, b),
        is_ancestor_or_self::<M>(b, c),
    ensures
        is_ancestor_or_self::<M>(a, c),
    decreases M::depth_of(c),
{
    lemma_ancestry_step::<M>(c);
    M::lemma_hierarchy(c);
    if b != c {
        if let ParentState::Exists(q) = M::parent_of(c) {
            let i = choose|i: int| 0 <= i < ancestry::<M>(c).len() && ancestry::<M>(c)[i] == b;
            assert(ancestry::<M>(q)[i - 1] == b);
            lemma_ancestor_trans::<M>(a, b, q);
            let j = choose|j: int| 0 <= j < ancestry::<M>(q).len() && ancestry::<M>(q)[j] == a;
            assert(ancestry::<M>(c)[j + 1] == a);
        } else {
            assert(ancestry::<M>(c) =~= seq![c]);
        }
    }
}

/// Membership in a chain, one step up.
proof fn lemma_ancestor_step<M: ProtoStateMachine>(s: StateId, c: StateId)
    ensures
        is_ancestor_or_self::<M>(s, c) <==> (s == c || match M::parent_of(c) {
            ParentState::Exists(p) => is_ancestor_or_self::<M>(s, p),
            ParentState::TopReached => false,
        }),
{
    lemma_ancestry_step::<M>(c);
    if let ParentState::Exists(p) = M::parent_of(c) {
        if is_ancestor_or_self::<M>(s, c) && s != c {
            let i = choose|i: int| 0 <= i < ancestry::<M>(c).len() && ancestry::<M>(c)[i] == s;
            assert(ancestry::<M>(p)[i - 1] == s);
        }
        if is_ancestor_or_self::<M>(s, p) {
            let i = choose|i: int| 0 <= i < ancestry::<M>(p).len() && ancestry::<M>(p)[i] == s;
            assert(ancestry::<M>(c)[i + 1] == s);
        }
    } else {
        assert(ancestry::<M>(c) =~= seq![c]);
    }
}

proof fn lemma_net_exits_up<M: ProtoStateMachine>(c: StateId, h: StateId, s: StateId)
    requires
        is_ancestor_or_self::<M>(h, c),
    ensures
        net_entries(exits_up::<M>(c, h), s) == -ind(
            is_ancestor_or_self::<M>(s, c) && !is_ancestor_or_self::<M>(s, h),
        ),
    decreases M::depth_of(c),
{
    lemma_ancestry_step::<M>(c);
    M::lemma_hierarchy(c);
    lemma_ancestor_step::<M>(s, c);
    if c == h {
        assert(net_entries(Seq::<HookCall>::empty(), s) == 0);
    } else {
        match M::parent_of(c) {
            ParentState::Exists(p) => {
                lemma_ancestor_step::<M>(h, c);
                lemma_net_exits_up::<M>(p, h, s);
                lemma_net_concat(seq![HookCall::Exit(c)], exits_up::<M>(p, h), s);
                lemma_net_one(HookCall::Exit(c), s);
                if s == c {
                    lemma_ancestor_depth::<M>(h, c);
                    if is_ancestor_or_self::<M>(c, p) {
                        lemma_ancestor_depth::<M>(c, p);
                    }
                    if is_ancestor_or_self::<M>(c, h) {
                        lemma_ancestor_depth::<M>(c, h);
                    }
                }
            },
            ParentState::TopReached => {
                lemma_ancestor_step::<M>(h, c);
            },
        }
    }
}

proof fn lemma_net_exits_to_lca<M: ProtoStateMachine>(h: StateId, t: StateId, s: StateId)
    ensures
        net_entries(exits_to_lca::<M>(h, t), s) == -ind(
            is_ancestor_or_self::<M>(s, h) && !at_or_above::<M>(s, lca::<M>(h, t)),
        ),
    decreases M::depth_of(h),
{
    lemma_ancestry_step::<M>(h);
    M::lemma_hierarchy(h);
    lemma_ancestor_step::<M>(s, h);
    if is_ancestor_or_self::<M>(h, t) {
        assert(net_entries(Seq::<HookCall>::empty(), s) == 0);
    } else {
        lemma_net_one(HookCall::Exit(h), s);
        lemma_lca_is_common::<M>(h, t);
        match M::parent_of(h) {
            ParentState::Exists(p) => {
                lemma_net_exits_to_lca::<M>(p, t, s);
                lemma_net_concat(seq![HookCall::Exit(h)], exits_to_lca::<M>(p, t), s);
                if s == h {
                    if is_ancestor_or_self::<M>(h, p) {
                        lemma_ancestor_depth::<M>(h, p);
                    }
                    if let ParentState::Exists(l) = lca::<M>(h, t) {
                        if is_ancestor_or_self::<M>(h, l) {
                            lemma_ancestor_trans::<M>(h, l, t);
                        }
                    }
                }
            },
            ParentState::TopReached => {
                lemma_net_one(HookCall::Exit(h), s);
            },
        }
    }
}

proof fn lemma_net_entries_path<M: ProtoStateMachine>(x: ParentState, t: StateId, s: StateId)
    requires
        x matches ParentState::Exists(l) ==> is_ancestor_or_self::<M>(l, t),
    ensures
        net_entries(entries(path_between::<M>(x, t)), s) == ind(
            is_ancestor_or_self::<M>(s, t) && !at_or_above::<M>(s, x),
        ),
    decreases M::depth_of(t),
{
    lemma_ancestry_step::<M>(t);
    M::lemma_hierarchy(t);
    lemma_ancestor_step::<M>(s, t);
    if x == ParentState::Exists(t) {
        assert(entries(path_between::<M>(x, t)) =~= Seq::<HookCall>::empty());
        assert(net_entries(Seq::<HookCall>::empty(), s) == 0);
    } else {
        match M::parent_of(t) {
            ParentState::Exists(p) => {
                if let ParentState::Exists(l) = x {
                    lemma_ancestor_step::<M>(l, t);
                }
                lemma_net_entries_path::<M>(x, p, s);
                let a = path_between::<M>(x, p);
                lemma_entries_push(a, t);
                lemma_net_concat(entries(a), seq![HookCall::Entry(t)], s);
                lemma_net_one(HookCall::Entry(t), s);
                if s == t {
                    if is_ancestor_or_self::<M>(t, p) {
                        lemma_ancestor_depth::<M>(t, p);
                    }
                    if let ParentState::Exists(l) = x {
                        if is_ancestor_or_self::<M>(t, l) {
                            lemma_ancestor_depth::<M>(t, l);
                            lemma_ancestor_depth::<M>(l, t);
                        }
                    }
                }
            },
            ParentState::TopReached => {
                assert(path_between::<M>(x, t) =~= seq![t]);
                assert(entries(seq![t]) =~= seq![HookCall::Entry(t)]) by {
                    assert(seq![t].skip(1) =~= Seq::<StateId>::empty());
                    assert(entries(Seq::<StateId>::empty()) =~= Seq::<HookCall>::empty());
                }
                lemma_net_one(HookCall::Entry(t), s);
                if let ParentState::Exists(l) = x {
                    lemma_ancestor_step::<M>(l, t);
                    lemma_ancestor_step::<M>(s, l);
                    if is_ancestor_or_self::<M>(s, l) {
                        lemma_ancestor_trans::<M>(s, l, t);
                    }
                }
            },
        }
    }
}

proof fn lemma_entries_push(a: Seq<StateId>, t: StateId)
    ensures
        entries(a.push(t)) == entries(a) + seq![HookCall::Entry(t)],
    decreases a.len(),
{
    if a.len() == 0 {
        assert(a.push(t) =~= seq![t]);
        assert(seq![t].skip(1) =~= Seq::<StateId>::empty());
        assert(entries(Seq::<StateId>::empty()) =~= Seq::<HookCall>::empty());
        assert(entries(a) =~= Seq::<HookCall>::empty());
        assert(entries(a.push(t)) =~= seq![HookCall::Entry(t)]);
    } else {
        lemma_entries_push(a.skip(1), t);
        assert(a.push(t).skip(1) =~= a.skip(1).push(t));
        assert(entries(a.push(t)) =~= entries(a) + seq![HookCall::Entry(t)]);
    }
}

/// The initial descent from `t` ends below `t`.
pub proof fn lemma_leaf_below<M: ProtoStateMachine>(t: StateId)
    ensures
        is_ancestor_or_self::<M>(t, leaf_of::<M>(t)),
    decreases M::max_depth() - M::depth_of(t),
{
    M::lemma_hierarchy(t);
    lemma_ancestry_step::<M>(t);
    if let InitResult::TargetState(c) = M::initial_of(t) {
        M::lemma_hierarchy(c);
        lemma_leaf_below::<M>(c);
        lemma_ancestor_step::<M>(t, c);
        lemma_ancestor_trans::<M>(t, c, leaf_of::<M>(c));
    }
}

proof fn lemma_net_descent<M: ProtoStateMachine>(t: StateId, s: StateId)
    ensures
        net_entries(descent::<M>(t), s) == ind(
            is_ancestor_or_self::<M>(s, leaf_of::<M>(t)) && !is_ancestor_or_self::<M>(s, t),
        ),
    decreases M::max_depth() - M::depth_of(t),
{
    M::lemma_hierarchy(t);
    match M::initial_of(t) {
        InitResult::TargetState(c) => {
            M::lemma_hierarchy(c);
            let pre = seq![HookCall::Init(t), HookCall::Entry(c)];
            assert(descent::<M>(t) == pre + descent::<M>(c));
            assert(leaf_of::<M>(t) == leaf_of::<M>(c));
            lemma_net_descent::<M>(c, s);
            lemma_net_concat(pre, descent::<M>(c), s);
            assert(net_entries(pre, s) == ind(c == s)) by {
                assert(pre.drop_last() =~= seq![HookCall::Init(t)]);
                lemma_net_one(HookCall::Init(t), s);
            }
            lemma_ancestor_step::<M>(s, c);
            if s == c {
                lemma_leaf_below::<M>(c);
                if is_ancestor_or_self::<M>(c, t) {
                    lemma_ancestor_depth::<M>(c, t);
                }
            }
        },
        InitResult::NotImplemented => {
            lemma_net_one(HookCall::Init(t), s);
        },
    }
}

/// A transition moves the balance of entries and exits from the chain of `c`
/// to the chain of the leaf it ends in.
proof fn lemma_net_transition<M: ProtoStateMachine>(c: StateId, h: StateId, t: StateId, s: StateId)
    requires
        is_ancestor_or_self::<M>(h, c),
    ensures
        ind(is_ancestor_or_self::<M>(s, c)) + net_entries(transition_trace::<M>(c, h, t), s)
            == ind(is_ancestor_or_self::<M>(s, leaf_of::<M>(t))),
{
    lemma_net_exits_up::<M>(c, h, s);
    lemma_net_descent::<M>(t, s);
    lemma_leaf_below::<M>(t);
    if is_ancestor_or_self::<M>(s, h) {
        lemma_ancestor_trans::<M>(s, h, c);
    }
    if is_ancestor_or_self::<M>(s, t) {
        lemma_ancestor_trans::<M>(s, t, leaf_of::<M>(t));
    }
    let middle = if h == t {
        seq![HookCall::Exit(h), HookCall::Entry(h)]
    } else {
        exits_to_lca::<M>(h, t) + entries(path_between::<M>(lca::<M>(h, t), t))
    };
    if h == t {
        lemma_net_concat(seq![HookCall::Exit(h)], seq![HookCall::Entry(h)], s);
        assert(seq![HookCall::Exit(h)] + seq![HookCall::Entry(h)] =~= middle);
        lemma_net_one(HookCall::Exit(h), s);
        lemma_net_one(HookCall::Entry(h), s);
    } else {
        lemma_lca_is_common::<M>(h, t);
        lemma_net_exits_to_lca::<M>(h, t, s);
        lemma_net_entries_path::<M>(lca::<M>(h, t), t, s);
        lemma_net_concat(
            exits_to_lca::<M>(h, t),
            entries(path_between::<M>(lca::<M>(h, t), t)),
            s,
        );
        if let ParentState::Exists(l) = lca::<M>(h, t) {
            if is_ancestor_or_self::<M>(s, l) {
                lemma_ancestor_trans::<M>(s, l, h);
                lemma_ancestor_trans::<M>(s, l, t);
            }
        }
    }
    lemma_net_concat(exits_up::<M>(c, h), middle, s);
    lemma_net_concat(exits_up::<M>(c, h) + middle, descent::<M>(t), s);
}

/// What an event fires moves the balance of entries and exits from the chain
/// of the state the machine rested in to the chain of the one it rests in.
pub proof fn lemma_net_dispatched<M: ProtoStateMachine>(
    c: StateId,
    h: ParentState,
    delta: Seq<HookCall>,
    next: StateId,
    s: StateId,
)
    requires
        dispatched::<M>(c, h, delta, next),
        h matches ParentState::Exists(x) ==> is_ancestor_or_self::<M>(x, c),
    ensures
        ind(is_ancestor_or_self::<M>(s, c)) + net_entries(delta, s) == ind(
            is_ancestor_or_self::<M>(s, next),
        ),
    decreases crate::hierarchy::parent_depth::<M>(h),
{
    match h {
        ParentState::TopReached => {},
        ParentState::Exists(x) => {
            M::lemma_hierarchy(x);
            assert(delta =~= seq![delta[0]] + delta.skip(1));
            lemma_net_concat(seq![delta[0]], delta.skip(1), s);
            lemma_net_one(delta[0], s);
            if let HookCall::Handle(_, r) = delta[0] {
                match r {
                    HandleResult::Ignored => {
                        if let ParentState::Exists(p) = M::parent_of(x) {
                            crate::hierarchy::lemma_ancestor_parent::<M>(x, c, p);
                            lemma_net_dispatched::<M>(c, ParentState::Exists(p), delta.skip(1), next, s);
                        } else {
                            assert(delta.skip(1) =~= Seq::<HookCall>::empty());
                        }
                    },
                    HandleResult::Handled => {
                        assert(delta.skip(1) =~= Seq::<HookCall>::empty());
                    },
                    HandleResult::Transition(t) => {
                        lemma_net_transition::<M>(c, x, t, s);
                    },
                }
            }
        },
    }
}

/// Starting the machine enters exactly the chain of the leaf it rests in.
pub proof fn lemma_net_init<M: ProtoStateMachine>(s: StateId)
    ensures
        net_entries(init_trace::<M>(), s) == ind(
            is_ancestor_or_self::<M>(s, leaf_of::<M>(M::top_initial())),
        ),
{
    let t = M::top_initial();
    M::lemma_hierarchy(t);
    lemma_ancestor_step::<M>(s, t);
    lemma_net_descent::<M>(t, s);
    lemma_net_concat(seq![HookCall::TopInit, HookCall::Entry(t)], descent::<M>(t), s);
    lemma_net_concat(seq![HookCall::TopInit], seq![HookCall::Entry(t)], s);
    assert(seq![HookCall::TopInit] + seq![HookCall::Entry(t)] =~= seq![
        HookCall::TopInit,
        HookCall::Entry(t),
    ]);
    lemma_net_one(HookCall::TopInit, s);
    lemma_net_one(HookCall::Entry(t), s);
    lemma_leaf_below::<M>(t);
    if is_ancestor_or_self::<M>(s, t) {
        lemma_ancestor_trans::<M>(s, t, leaf_of::<M>(t));
    }
}

/// Where a dispatch records a transition from `h` to `t`: `h` is on the
/// chain of the current state, every earlier record is an ignored event
/// hook, and what follows is exactly `transition_trace(c, h, t)`.
pub proof fn lemma_dispatched_transition<M: ProtoStateMachine>(
    s: StateId,
    c: StateId,
    delta: Seq<HookCall>,
    next: StateId,
    k: int,
    h: StateId,
    t: StateId,
)
    requires
        dispatched::<M>(c, ParentState::Exists(s), delta, next),
        is_ancestor_or_self::<M>(s, c),
        0 <= k < delta.len(),
        delta[k] == HookCall::Handle(h, HandleResult::Transition(t)),
    ensures
        is_ancestor_or_self::<M>(h, c),
        delta.skip(k + 1) == transition_trace::<M>(c, h, t),
        next == leaf_of::<M>(t),
        forall|j: int| 0 <= j < k ==> (#[trigger] delta[j]) is Handle,
    decreases M::depth_of(s),
{
    M::lemma_hierarchy(s);
    if let HookCall::Handle(_, r) = delta[0] {
        match r {
            HandleResult::Ignored => {
                if let ParentState::Exists(p) = M::parent_of(s) {
                    crate::hierarchy::lemma_ancestor_parent::<M>(s, c, p);
                    let rest = delta.skip(1);
                    assert(rest[k - 1] == delta[k]);
                    lemma_dispatched_transition::<M>(p, c, rest, next, k - 1, h, t);
                    assert(delta.skip(k + 1) =~= rest.skip(k));
                    assert forall|j: int| 0 <= j < k implies (#[trigger] delta[j]) is Handle by {
                        if j > 0 {
                            assert(delta[j] == rest[j - 1]);
                        }
                    }
                }
            },
            HandleResult::Handled => {},
            HandleResult::Transition(t0) => {
                lemma_transition_shape::<M>(c, s, t0);
                if k > 0 {
                    assert(delta[k] == delta.skip(1)[k - 1]);
                }
            },
        }
    }
}

/// During a dispatch that takes a transition from `h` to `t`, no state
/// strictly above their least common ancestor is exited or entered.
pub proof fn lemma_dispatch_lca_is_highest<M: State>(
    before: StateMachine<M>,
    after: StateMachine<M>,
    k: int,
    h: StateId,
    t: StateId,
    x: StateId,
)
    requires
        before.steps_to(&after),
        0 <= k < after.trace().skip(before.trace().len() as int).len(),
        after.trace().skip(before.trace().len() as int)[k] == HookCall::Handle(
            h,
            HandleResult::Transition(t),
        ),
        lca::<M>(h, t) is Exists,
        is_strict_ancestor::<M>(x, lca::<M>(h, t)->0),
    ensures
        !after.trace().skip(before.trace().len() as int).contains(HookCall::Exit(x)),
        !after.trace().skip(before.trace().len() as int).contains(HookCall::Entry(x)),
{
    let c = before.current();
    let delta = after.trace().skip(before.trace().len() as int);
    lemma_ancestry_step::<M>(c);
    lemma_dispatched_transition::<M>(c, c, delta, after.current(), k, h, t);
    lemma_lca_is_highest::<M>(c, h, t, x);
    let tr = transition_trace::<M>(c, h, t);
    if delta.contains(HookCall::Exit(x)) {
        let i = choose|i: int| 0 <= i < delta.len() && delta[i] == HookCall::Exit(x);
        if i > k {
            assert(tr[i - k - 1] == delta[i]);
        } else if i < k {
            assert(delta[i] is Handle);
        }
    }
    if delta.contains(HookCall::Entry(x)) {
        let i = choose|i: int| 0 <= i < delta.len() && delta[i] == HookCall::Entry(x);
        if i > k {
            assert(tr[i - k - 1] == delta[i]);
        } else if i < k {
            assert(delta[i] is Handle);
        }
    }
}

/// A dispatch whose handling state `h` takes a transition to itself exits
/// the states below `h`, innermost first, then exits `h`, enters it again,
/// and runs the initial descent from it.
pub proof fn lemma_dispatch_self_transition<M: State>(
    before: StateMachine<M>,
    after: StateMachine<M>,
    k: int,
    h: StateId,
)
    requires
        before.steps_to(&after),
        0 <= k < after.trace().skip(before.trace().len() as int).len(),
        after.trace().skip(before.trace().len() as int)[k] == HookCall::Handle(
            h,
            HandleResult::Transition(h),
        ),
    ensures
        after.trace().skip(before.trace().len() as int).skip(k + 1) == exits_up::<M>(
            before.current(),
            h,
        ) + seq![HookCall::Exit(h), HookCall::Entry(h)] + descent::<M>(h),
        after.current() == leaf_of::<M>(h),
{
    let c = before.current();
    lemma_ancestry_step::<M>(c);
    lemma_dispatched_transition::<M>(
        c,
        c,
        after.trace().skip(before.trace().len() as int),
        after.current(),
        k,
        h,
        h,
    );
    lemma_self_transition::<M>(c, h);
}

/// The event hooks fired by a dispatch all come before its exits and
/// entries, and climb the chain of the current state from the current state
/// up, each state at most once, each after only ignored firings.
pub proof fn lemma_dispatch_order<M: State>(before: StateMachine<M>, after: StateMachine<M>)
    requires
        before.steps_to(&after),
    ensures
        forall|i: int, j: int|
            0 <= i < after.trace().skip(before.trace().len() as int).len() && 0 <= j
                < after.trace().skip(before.trace().len() as int).len() && (#[trigger] after.trace().skip(
                before.trace().len() as int,
            )[i] is Handle) && (#[trigger] after.trace().skip(before.trace().len() as int)[j] is Entry
                || after.trace().skip(before.trace().len() as int)[j] is Exit) ==> i < j,
        forall|i: int|
            0 <= i < after.trace().skip(before.trace().len() as int).len() && (
            #[trigger] after.trace().skip(before.trace().len() as int)[i] is Handle) ==> i
                < ancestry::<M>(before.current()).len() && after.trace().skip(
                before.trace().len() as int,
            )[i]->Handle_0 == ancestry::<M>(before.current())[i] && forall|j: int|
                0 <= j < i ==> after.trace().skip(before.trace().len() as int)[j]
                    == HookCall::Handle(ancestry::<M>(before.current())[j], HandleResult::Ignored),
{
    let c = before.current();
    let delta = after.trace().skip(before.trace().len() as int);
    lemma_ancestry_step::<M>(c);
    lemma_handle_before_effects::<M>(c, delta, after.current());
    lemma_propagation_order::<M>(c, c, delta, after.current());
}

} // verus!
