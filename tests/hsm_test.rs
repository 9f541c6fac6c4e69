use std::sync::mpsc::channel;
use std::sync::mpsc::Receiver;
use std::sync::mpsc::Sender;
use std::sync::mpsc::TryRecvError;

use kaori_hsm::{
    HandleResult, InitResult, ParentState, ProtoStateMachine, State, StateId, StateMachine,
};

// Evt definition
#[derive(Debug)]
enum BasicEvt {
    A,
    B,
    C,
    D,
    E,
}

const S1: StateId = StateId(1);
const S11: StateId = StateId(11);
const S12: StateId = StateId(12);
const S121: StateId = StateId(121);
const S122: StateId = StateId(122);

fn name(state: StateId) -> &'static str {
    match state {
        S1 => "S1",
        S11 => "S11",
        S12 => "S12",
        S121 => "S121",
        S122 => "S122",
        _ => "?",
    }
}

struct BasicStateMachine {
    sender: Sender<String>,
}

impl BasicStateMachine {
    pub fn new(sender: Sender<String>) -> BasicStateMachine {
        BasicStateMachine { sender }
    }
}

impl BasicStateMachine {
    fn post_string(&self, s: &str) {
        self.sender.send(String::from(s)).unwrap();
    }
}

impl ProtoStateMachine for BasicStateMachine {
    type Evt = BasicEvt;

    fn parent_of(state: StateId) -> ParentState {
        match state {
            S11 | S12 => Self::return_parent_state(S1),
            S121 | S122 => Self::return_parent_state(S12),
            _ => Self::return_top_state(),
        }
    }

    fn initial_of(state: StateId) -> InitResult {
        match state {
            S1 => InitResult::TargetState(S11),
            S12 => InitResult::TargetState(S121),
            _ => InitResult::NotImplemented,
        }
    }

    fn top_initial() -> StateId {
        S1
    }

    fn depth_of(state: StateId) -> u32 {
        match state {
            S11 | S12 => 1,
            S121 | S122 => 2,
            _ => 0,
        }
    }

    fn max_depth() -> u32 {
        2
    }

    fn lemma_hierarchy(_state: StateId) {}

    fn top_initialised(&self, _after: &Self) -> bool {
        true
    }

    fn top_init(&mut self) -> InitResult {
        self.post_string("TOP_INIT");
        Self::init_transition(S1)
    }
}

impl State for BasicStateMachine {
    fn get_parent_state(state: StateId) -> ParentState {
        Self::parent_of(state)
    }

    fn init(&mut self, state: StateId) -> InitResult {
        match state {
            S1 => self.post_string("S1-INIT"),
            S12 => self.post_string("S12-INIT"),
            _ => {}
        }
        Self::initial_of(state)
    }

    fn entry(&mut self, state: StateId) {
        match state {
            S1 => self.post_string("S1-ENTRY"),
            S11 => self.post_string("S11-ENTRY"),
            S12 => self.post_string("S12-ENTRY"),
            S121 => self.post_string("S121-ENTRY"),
            S122 => self.post_string("S122-ENTRY"),
            _ => {}
        }
    }

    fn exit(&mut self, state: StateId) {
        match state {
            S1 => self.post_string("S1-EXIT"),
            S11 => self.post_string("S11-EXIT"),
            S12 => self.post_string("S12-EXIT"),
            S121 => self.post_string("S121-EXIT"),
            S122 => self.post_string("S122-EXIT"),
            _ => {}
        }
    }

    fn handle_of(&self, state: StateId, evt: &BasicEvt) -> HandleResult {
        match (state, evt) {
            (S1, BasicEvt::A) => Self::handled(),
            (S1, BasicEvt::C) => Self::transition(S122),
            (S1, BasicEvt::E) => Self::transition(S1),
            (S11, BasicEvt::A) => Self::transition(S121),
            (S11, BasicEvt::B) => Self::transition(S12),
            (S12, BasicEvt::B) => Self::handled(),
            (S12, BasicEvt::D) => Self::transition(S121),
            (S121, BasicEvt::A) => Self::transition(S122),
            (S121, BasicEvt::B) => Self::transition(S12),
            (S121, BasicEvt::C) => Self::transition(S11),
            (S122, BasicEvt::B) => Self::handled(),
            (S122, BasicEvt::C) => Self::transition(S122),
            (S122, BasicEvt::D) => Self::transition(S1),
            _ => Self::ignored(),
        }
    }
    fn reacted(&self, _state: StateId, _evt: &BasicEvt, _after: &Self) -> bool {
        true
    }

    fn entered(&self, _state: StateId, _after: &Self) -> bool {
        true
    }

    fn exited(&self, _state: StateId, _after: &Self) -> bool {
        true
    }

    fn initialised(&self, _state: StateId, _after: &Self) -> bool {
        true
    }

    fn handle(&mut self, state: StateId, evt: &BasicEvt) -> HandleResult {
        let r = self.handle_of(state, evt);
        if !matches!(r, HandleResult::Ignored) {
            self.post_string(&format!("{}-HANDLES-{:?}", name(state), evt));
        }
        r
    }
}

fn collect_sm_output(receiver: &mut Receiver<String>) -> String {
    receiver.try_recv().unwrap_or_else(|err| match err {
        TryRecvError::Empty => panic!("Too many expectations for the SM output"),
        TryRecvError::Disconnected => panic!("Disconnected"),
    })
}

fn expect_output_series(receiver: &mut Receiver<String>, expectations: Vec<&str>) {
    for (index, expectation) in expectations.into_iter().enumerate() {
        let sm_output = collect_sm_output(receiver);
        if expectation != sm_output {
            panic!(
                "Expectation index {},  expected : {},  got: {}",
                index, expectation, sm_output
            )
        }
    }

    // Check that we have expected all the output of the SM
    match receiver.try_recv().err() {
        Some(TryRecvError::Empty) => { /* OK */ }
        Some(TryRecvError::Disconnected) => {
            panic!(" Sender is dead")
        }
        None => {
            panic!("Too few expectations for the SM output")
        }
    }
}

fn test_evt_injection(
    sm: &mut StateMachine<BasicStateMachine>,
    receiver: &mut Receiver<String>,
    evt: BasicEvt,
    expectations: Vec<&str>,
) {
    sm.dispatch(&evt);
    expect_output_series(receiver, expectations);
}

fn test_sm_init(
    sm: &mut StateMachine<BasicStateMachine>,
    receiver: &mut Receiver<String>,
    expectations: Vec<&str>,
) {
    sm.init();
    expect_output_series(receiver, expectations);
}

#[test]
fn hsm_test() {
    let (sender, mut receiver) = channel();

    let basic_state_machine = BasicStateMachine::new(sender);

    let mut sm = StateMachine::from(basic_state_machine);

    test_sm_init(
        &mut sm,
        &mut receiver,
        vec!["TOP_INIT", "S1-ENTRY", "S1-INIT", "S11-ENTRY"],
    );
    test_evt_injection(
        &mut sm,
        &mut receiver,
        BasicEvt::A,
        vec!["S11-HANDLES-A", "S11-EXIT", "S12-ENTRY", "S121-ENTRY"],
    );
    test_evt_injection(
        &mut sm,
        &mut receiver,
        BasicEvt::B,
        vec!["S121-HANDLES-B", "S121-EXIT", "S12-INIT", "S121-ENTRY"],
    );
    test_evt_injection(
        &mut sm,
        &mut receiver,
        BasicEvt::D,
        vec!["S12-HANDLES-D", "S121-EXIT", "S121-ENTRY"],
    );
    test_evt_injection(
        &mut sm,
        &mut receiver,
        BasicEvt::C,
        vec!["S121-HANDLES-C", "S121-EXIT", "S12-EXIT", "S11-ENTRY"],
    );
    test_evt_injection(
        &mut sm,
        &mut receiver,
        BasicEvt::C,
        vec!["S1-HANDLES-C", "S11-EXIT", "S12-ENTRY", "S122-ENTRY"],
    );
    test_evt_injection(
        &mut sm,
        &mut receiver,
        BasicEvt::C,
        vec!["S122-HANDLES-C", "S122-EXIT", "S122-ENTRY"],
    );
    test_evt_injection(&mut sm, &mut receiver, BasicEvt::A, vec!["S1-HANDLES-A"]);
    test_evt_injection(
        &mut sm,
        &mut receiver,
        BasicEvt::D,
        vec![
            "S122-HANDLES-D",
            "S122-EXIT",
            "S12-EXIT",
            "S1-INIT",
            "S11-ENTRY",
        ],
    );
    test_evt_injection(
        &mut sm,
        &mut receiver,
        BasicEvt::B,
        vec![
            "S11-HANDLES-B",
            "S11-EXIT",
            "S12-ENTRY",
            "S12-INIT",
            "S121-ENTRY",
        ],
    );
    test_evt_injection(
        &mut sm,
        &mut receiver,
        BasicEvt::A,
        vec!["S121-HANDLES-A", "S121-EXIT", "S122-ENTRY"],
    );
    test_evt_injection(&mut sm, &mut receiver, BasicEvt::B, vec!["S122-HANDLES-B"]);
    test_evt_injection(
        &mut sm,
        &mut receiver,
        BasicEvt::E,
        vec![
            "S1-HANDLES-E",
            "S122-EXIT",
            "S12-EXIT",
            "S1-EXIT",
            "S1-ENTRY",
            "S1-INIT",
            "S11-ENTRY",
        ],
    );
}

#[test]
fn it_works() {}
