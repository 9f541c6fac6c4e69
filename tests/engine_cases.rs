use std::cell::RefCell;
use std::rc::Rc;

use kaori_hsm::{
    core_handle, CoreEvt, CoreHandleResult, HandleResult, InitResult, InitStateMachine,
    ParentState, ProtoStateMachine, State, StateId,
};

// Two trees under the top state:
//   A -> A1
//   B -> B1 -> B11
const A: StateId = StateId(1);
const A1: StateId = StateId(2);
const B: StateId = StateId(3);
const B1: StateId = StateId(4);
const B11: StateId = StateId(5);

fn name(state: StateId) -> &'static str {
    match state {
        A => "A",
        A1 => "A1",
        B => "B",
        B1 => "B1",
        B11 => "B11",
        _ => "?",
    }
}

#[derive(Debug)]
enum Evt {
    ToB11,
    ToB,
    ToA,
    Stay,
    Nothing,
}

struct Forest {
    log: Rc<RefCell<Vec<String>>>,
}

impl Forest {
    fn post(&self, s: String) {
        self.log.borrow_mut().push(s);
    }
}

impl ProtoStateMachine for Forest {
    type Evt = Evt;

    fn parent_of(state: StateId) -> ParentState {
        match state {
            A1 => Self::return_parent_state(A),
            B1 => Self::return_parent_state(B),
            B11 => Self::return_parent_state(B1),
            _ => Self::return_top_state(),
        }
    }

    fn initial_of(state: StateId) -> InitResult {
        match state {
            A => InitResult::TargetState(A1),
            B => InitResult::TargetState(B1),
            B1 => InitResult::TargetState(B11),
            _ => InitResult::NotImplemented,
        }
    }

    fn top_initial() -> StateId {
        A
    }

    fn depth_of(state: StateId) -> u32 {
        match state {
            A1 | B1 => 1,
            B11 => 2,
            _ => 0,
        }
    }

    fn max_depth() -> u32 {
        2
    }

    fn lemma_hierarchy(_state: StateId) {}

    fn top_initialised(&self, _after: &Self) -> bool {
        true
    }

    fn top_init(&mut self) -> InitResult {
        self.post(String::from("!Top"));
        Self::init_transition(A)
    }
}

impl State for Forest {
    fn get_parent_state(state: StateId) -> ParentState {
        Self::parent_of(state)
    }

    fn init(&mut self, state: StateId) -> InitResult {
        self.post(format!("!{}", name(state)));
        Self::initial_of(state)
    }

    fn entry(&mut self, state: StateId) {
        self.post(format!("+{}", name(state)));
    }

    fn exit(&mut self, state: StateId) {
        self.post(format!("-{}", name(state)));
    }

    fn handle_of(&self, state: StateId, evt: &Evt) -> HandleResult {
        match (state, evt) {
            (A1, Evt::ToB11) => Self::transition(B11),
            (B11, Evt::ToB) => Self::transition(B),
            (B, Evt::ToA) => Self::transition(A),
            (B11, Evt::Stay) => Self::handled(),
            _ => Self::ignored(),
        }
    }

    fn reacted(&self, _state: StateId, _evt: &Evt, _after: &Self) -> bool {
        true
    }

    fn entered(&self, _state: StateId, _after: &Self) -> bool {
        true
    }

    fn exited(&self, _state: StateId, _after: &Self) -> bool {
        true
    }

    fn initialised(&self, _state: StateId, _after: &Self) -> bool {
        true
    }

    fn handle(&mut self, state: StateId, evt: &Evt) -> HandleResult {
        self.post(format!("={}", name(state)));
        self.handle_of(state, evt)
    }
}

fn strs(v: &[&str]) -> Vec<String> {
    v.iter().map(|s| s.to_string()).collect()
}

fn drain(log: &Rc<RefCell<Vec<String>>>) -> Vec<String> {
    std::mem::take(&mut *log.borrow_mut())
}

#[test]
fn init_descends_to_leaf_calling_leaf_init() {
    let log = Rc::new(RefCell::new(Vec::new()));
    let _sm = InitStateMachine::from(Forest { log: log.clone() }).init();
    assert_eq!(drain(&log), strs(&["!Top", "+A", "!A", "+A1", "!A1"]));
}

#[test]
fn transition_across_the_top_state() {
    let log = Rc::new(RefCell::new(Vec::new()));
    let mut sm = InitStateMachine::from(Forest { log: log.clone() }).init();
    drain(&log);
    sm.dispatch(&Evt::ToB11);
    // No common ancestor: every state of the source chain exits and every
    // state of the target chain enters, outermost first.
    assert_eq!(
        drain(&log),
        strs(&["=A1", "-A1", "-A", "+B", "+B1", "+B11", "!B11"])
    );
}

#[test]
fn transition_to_ancestor_runs_its_initial_descent() {
    let log = Rc::new(RefCell::new(Vec::new()));
    let mut sm = InitStateMachine::from(Forest { log: log.clone() }).init();
    sm.dispatch(&Evt::ToB11);
    drain(&log);
    sm.dispatch(&Evt::ToB);
    assert_eq!(
        drain(&log),
        strs(&["=B11", "-B11", "-B1", "!B", "+B1", "!B1", "+B11", "!B11"])
    );
}

#[test]
fn ignored_event_handled_by_ancestor_exits_from_leaf() {
    let log = Rc::new(RefCell::new(Vec::new()));
    let mut sm = InitStateMachine::from(Forest { log: log.clone() }).init();
    sm.dispatch(&Evt::ToB11);
    drain(&log);
    sm.dispatch(&Evt::ToA);
    assert_eq!(
        drain(&log),
        strs(&["=B11", "=B1", "=B", "-B11", "-B1", "-B", "+A", "!A", "+A1", "!A1"])
    );
}

#[test]
fn handled_event_fires_nothing_else() {
    let log = Rc::new(RefCell::new(Vec::new()));
    let mut sm = InitStateMachine::from(Forest { log: log.clone() }).init();
    sm.dispatch(&Evt::ToB11);
    drain(&log);
    sm.dispatch(&Evt::Stay);
    assert_eq!(drain(&log), strs(&["=B11"]));
}

#[test]
fn event_ignored_up_to_top_is_dropped() {
    let log = Rc::new(RefCell::new(Vec::new()));
    let mut sm = InitStateMachine::from(Forest { log: log.clone() }).init();
    sm.dispatch(&Evt::ToB11);
    drain(&log);
    sm.dispatch(&Evt::Nothing);
    assert_eq!(drain(&log), strs(&["=B11", "=B1", "=B"]));
    // The machine still rests in B11.
    sm.dispatch(&Evt::Stay);
    assert_eq!(drain(&log), strs(&["=B11"]));
}

#[test]
fn core_handle_routes_each_query() {
    let log = Rc::new(RefCell::new(Vec::new()));
    let mut forest = Forest { log: log.clone() };
    assert_eq!(
        core_handle(&mut forest, B1, &CoreEvt::InitEvt),
        CoreHandleResult::InitResult(InitResult::TargetState(B11))
    );
    assert_eq!(
        core_handle(&mut forest, B1, &CoreEvt::EntryEvt),
        CoreHandleResult::Handled
    );
    assert_eq!(
        core_handle(&mut forest, B1, &CoreEvt::ExitEvt),
        CoreHandleResult::Handled
    );
    assert_eq!(
        core_handle(&mut forest, B1, &CoreEvt::GetParentStateEvt),
        CoreHandleResult::GetParentStateResult(ParentState::Exists(B))
    );
    assert_eq!(
        core_handle(&mut forest, B1, &CoreEvt::UserEvt { user_evt: &Evt::Nothing }),
        CoreHandleResult::Ignored(ParentState::Exists(B))
    );
    assert_eq!(
        core_handle(&mut forest, B11, &CoreEvt::UserEvt { user_evt: &Evt::Stay }),
        CoreHandleResult::Handled
    );
    assert_eq!(
        core_handle(&mut forest, A1, &CoreEvt::UserEvt { user_evt: &Evt::ToB11 }),
        CoreHandleResult::Transition(B11)
    );
    assert_eq!(drain(&log), strs(&["!B1", "+B1", "-B1", "=B1", "=B11", "=A1"]));
}

// A flat machine whose states have empty entry and exit hooks.
struct Flat {
    count: Rc<RefCell<u32>>,
}

const S0: StateId = StateId(0);
const S1: StateId = StateId(1);

impl ProtoStateMachine for Flat {
    type Evt = bool;

    fn parent_of(_state: StateId) -> ParentState {
        ParentState::TopReached
    }

    fn initial_of(_state: StateId) -> InitResult {
        InitResult::NotImplemented
    }

    fn top_initial() -> StateId {
        S0
    }

    fn depth_of(_state: StateId) -> u32 {
        0
    }

    fn max_depth() -> u32 {
        0
    }

    fn lemma_hierarchy(_state: StateId) {}

    fn top_initialised(&self, _after: &Self) -> bool {
        true
    }

    fn top_init(&mut self) -> InitResult {
        Self::init_transition(S0)
    }
}

impl State for Flat {
    fn get_parent_state(state: StateId) -> ParentState {
        Self::parent_of(state)
    }

    fn init(&mut self, state: StateId) -> InitResult {
        Self::initial_of(state)
    }

    fn handle_of(&self, state: StateId, evt: &bool) -> HandleResult {
        match (state, *evt) {
            (S0, true) => Self::transition(S1),
            (S1, true) => Self::transition(S0),
            _ => Self::ignored(),
        }
    }

    fn reacted(&self, _state: StateId, _evt: &bool, _after: &Self) -> bool {
        true
    }

    fn entered(&self, _state: StateId, _after: &Self) -> bool {
        true
    }

    fn exited(&self, _state: StateId, _after: &Self) -> bool {
        true
    }

    fn initialised(&self, _state: StateId, _after: &Self) -> bool {
        true
    }

    fn entry(&mut self, _state: StateId) {}

    fn exit(&mut self, _state: StateId) {}

    fn handle(&mut self, state: StateId, evt: &bool) -> HandleResult {
        *self.count.borrow_mut() += 1;
        self.handle_of(state, evt)
    }
}

#[test]
fn flat_machine_with_empty_hooks() {
    let count = Rc::new(RefCell::new(0));
    let mut sm = InitStateMachine::from(Flat { count: count.clone() }).init();
    sm.dispatch(&true);
    sm.dispatch(&false);
    sm.dispatch(&true);
    assert_eq!(*count.borrow(), 3);
}

#[test]
fn result_builders() {
    assert_eq!(Forest::transition(B), HandleResult::Transition(B));
    assert_eq!(Forest::init_transition(A1), InitResult::TargetState(A1));
    assert_eq!(Forest::ignored(), HandleResult::Ignored);
    assert_eq!(Forest::handled(), HandleResult::Handled);
}

#[test]
fn entries_and_exits_balance_on_the_current_chain() {
    let log = Rc::new(RefCell::new(Vec::new()));
    let mut sm = InitStateMachine::from(Forest { log: log.clone() }).init();
    sm.dispatch(&Evt::ToB11);
    sm.dispatch(&Evt::ToB);
    sm.dispatch(&Evt::Nothing);
    let net = |log: &Vec<String>, state: &str| -> i32 {
        let entered = log.iter().filter(|s| **s == format!("+{}", state)).count() as i32;
        let exited = log.iter().filter(|s| **s == format!("-{}", state)).count() as i32;
        entered - exited
    };
    // The machine rests in B11, below B1 and B.
    {
        let l = log.borrow();
        assert_eq!(net(&l, "B11"), 1);
        assert_eq!(net(&l, "B1"), 1);
        assert_eq!(net(&l, "B"), 1);
        assert_eq!(net(&l, "A1"), 0);
        assert_eq!(net(&l, "A"), 0);
    }
    sm.dispatch(&Evt::ToA);
    let l = log.borrow();
    assert_eq!(net(&l, "B11"), 0);
    assert_eq!(net(&l, "B1"), 0);
    assert_eq!(net(&l, "B"), 0);
    assert_eq!(net(&l, "A1"), 1);
    assert_eq!(net(&l, "A"), 1);
}

#[test]
fn parent_builders() {
    assert_eq!(Forest::return_top_state(), ParentState::TopReached);
    assert_eq!(Forest::return_parent_state(B1), ParentState::Exists(B1));
}
