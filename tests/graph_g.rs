use std::cell::RefCell;
use std::rc::Rc;

use kaori_hsm::{
    HandleResult, InitResult, InitStateMachine, ParentState, ProtoStateMachine, State, StateId,
    StateMachine,
};

#[derive(Debug, Clone, Copy)]
enum Evt {
    A,
    B,
    C,
    D,
    E,
}

const S1: StateId = StateId(1);
const S11: StateId = StateId(11);
const S12: StateId = StateId(12);
const S121: StateId = StateId(121);
const S122: StateId = StateId(122);

fn name(state: StateId) -> &'static str {
    match state {
        S1 => "S1",
        S11 => "S11",
        S12 => "S12",
        S121 => "S121",
        S122 => "S122",
        _ => "?",
    }
}

struct GraphG {
    log: Rc<RefCell<Vec<String>>>,
}

impl GraphG {
    fn post(&self, s: String) {
        self.log.borrow_mut().push(s);
    }
}

impl ProtoStateMachine for GraphG {
    type Evt = Evt;

    fn parent_of(state: StateId) -> ParentState {
        match state {
            S11 | S12 => Self::return_parent_state(S1),
            S121 | S122 => Self::return_parent_state(S12),
            _ => Self::return_top_state(),
        }
    }

    fn initial_of(state: StateId) -> InitResult {
        match state {
            S1 => InitResult::TargetState(S11),
            S12 => InitResult::TargetState(S121),
            _ => InitResult::NotImplemented,
        }
    }

    fn top_initial() -> StateId {
        S1
    }

    fn depth_of(state: StateId) -> u32 {
        match state {
            S11 | S12 => 1,
            S121 | S122 => 2,
            _ => 0,
        }
    }

    fn max_depth() -> u32 {
        2
    }

    fn lemma_hierarchy(_state: StateId) {}

    fn top_initialised(&self, _after: &Self) -> bool {
        true
    }

    fn top_init(&mut self) -> InitResult {
        self.post(String::from("!Top"));
        Self::init_transition(S1)
    }
}

impl State for GraphG {
    fn get_parent_state(state: StateId) -> ParentState {
        Self::parent_of(state)
    }

    fn init(&mut self, state: StateId) -> InitResult {
        let r = Self::initial_of(state);
        if let InitResult::TargetState(_) = r {
            self.post(format!("!{}", name(state)));
        }
        r
    }

    fn entry(&mut self, state: StateId) {
        self.post(format!("+{}", name(state)));
    }

    fn exit(&mut self, state: StateId) {
        self.post(format!("-{}", name(state)));
    }

    fn handle_of(&self, state: StateId, evt: &Evt) -> HandleResult {
        match (state, evt) {
            (S11, Evt::A) => Self::transition(S121),
            (S11, Evt::B) => Self::transition(S12),
            (S12, Evt::D) => Self::transition(S121),
            (S121, Evt::C) => Self::transition(S11),
            (S1, Evt::C) => Self::transition(S122),
            (S1, Evt::A) => Self::handled(),
            (S1, Evt::E) => Self::transition(S1),
            (S122, Evt::D) => Self::transition(S1),
            _ => Self::ignored(),
        }
    }

    fn reacted(&self, _state: StateId, _evt: &Evt, _after: &Self) -> bool {
        true
    }

    fn entered(&self, _state: StateId, _after: &Self) -> bool {
        true
    }

    fn exited(&self, _state: StateId, _after: &Self) -> bool {
        true
    }

    fn initialised(&self, _state: StateId, _after: &Self) -> bool {
        true
    }

    fn handle(&mut self, state: StateId, evt: &Evt) -> HandleResult {
        let r = self.handle_of(state, evt);
        match r {
            HandleResult::Ignored => self.post(format!("={}:ignored", name(state))),
            _ => self.post(format!("={}:{:?}", name(state), evt)),
        }
        r
    }
}

struct Harness {
    sm: StateMachine<GraphG>,
    log: Rc<RefCell<Vec<String>>>,
}

impl Harness {
    fn start() -> (Harness, Vec<String>) {
        let log = Rc::new(RefCell::new(Vec::new()));
        let sm = InitStateMachine::from(GraphG { log: log.clone() }).init();
        let mut h = Harness { sm, log };
        let out = h.take();
        (h, out)
    }

    fn take(&mut self) -> Vec<String> {
        std::mem::take(&mut *self.log.borrow_mut())
    }

    fn send(&mut self, evt: Evt) -> Vec<String> {
        self.sm.dispatch(&evt);
        self.take()
    }
}

fn strs(v: &[&str]) -> Vec<String> {
    v.iter().map(|s| s.to_string()).collect()
}

#[test]
fn graph_g_init() {
    let (_, out) = Harness::start();
    assert_eq!(out, strs(&["!Top", "+S1", "!S1", "+S11"]));
}

#[test]
fn graph_g_a_from_s11() {
    let (mut h, _) = Harness::start();
    assert_eq!(h.send(Evt::A), strs(&["=S11:A", "-S11", "+S12", "+S121"]));
}

#[test]
fn graph_g_b_ignored_everywhere() {
    let (mut h, _) = Harness::start();
    h.send(Evt::A);
    assert_eq!(h.send(Evt::B), strs(&["=S121:ignored", "=S12:ignored", "=S1:ignored"]));
    // Nothing moved: S121 still handles C.
    assert_eq!(h.send(Evt::C), strs(&["=S121:C", "-S121", "-S12", "+S11"]));
}

#[test]
fn graph_g_d_from_s121() {
    let (mut h, _) = Harness::start();
    h.send(Evt::A);
    assert_eq!(h.send(Evt::D), strs(&["=S121:ignored", "=S12:D", "-S121", "+S121"]));
}

#[test]
fn graph_g_c_from_s121() {
    let (mut h, _) = Harness::start();
    h.send(Evt::A);
    h.send(Evt::D);
    assert_eq!(h.send(Evt::C), strs(&["=S121:C", "-S121", "-S12", "+S11"]));
}

#[test]
fn graph_g_c_from_s11() {
    let (mut h, _) = Harness::start();
    h.send(Evt::A);
    h.send(Evt::C);
    assert_eq!(
        h.send(Evt::C),
        strs(&["=S11:ignored", "=S1:C", "-S11", "+S12", "+S122"])
    );
}

#[test]
fn graph_g_e_from_s122() {
    let (mut h, _) = Harness::start();
    h.send(Evt::C);
    assert_eq!(
        h.send(Evt::E),
        strs(&[
            "=S122:ignored",
            "=S12:ignored",
            "=S1:E",
            "-S122",
            "-S12",
            "-S1",
            "+S1",
            "!S1",
            "+S11"
        ])
    );
}

#[test]
fn graph_g_s1_handles_a() {
    let (mut h, _) = Harness::start();
    h.send(Evt::C);
    assert_eq!(h.send(Evt::A), strs(&["=S122:ignored", "=S12:ignored", "=S1:A"]));
}

#[test]
fn graph_g_s122_d_to_ancestor() {
    let (mut h, _) = Harness::start();
    h.send(Evt::C);
    assert_eq!(h.send(Evt::D), strs(&["=S122:D", "-S122", "-S12", "!S1", "+S11"]));
}

#[test]
fn graph_g_s11_b_to_parent_sibling() {
    let (mut h, _) = Harness::start();
    assert_eq!(h.send(Evt::B), strs(&["=S11:B", "-S11", "+S12", "!S12", "+S121"]));
}
