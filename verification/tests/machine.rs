use rust_efsm::AddUpdate;
use rust_efsm::Update;
use rust_efsm::Machine;
use rust_efsm::MachineBuilder;
use rust_efsm::RuleUpdate;
use rust_efsm::Transition;
use rust_efsm::TransitionBound;

fn rule() -> RuleUpdate {
    RuleUpdate::identity()
}

/// One location `Count`, accepting, with a self-loop that adds the input to
/// the register.
fn counting_machine() -> Machine<RuleUpdate> {
    MachineBuilder::new()
        .with_transition(
            "Count",
            Transition {
                to_location: "Count".into(),
                bound: TransitionBound::unbounded(),
                update: RuleUpdate {
                    add_input: true,
                    ..rule()
                },
            },
        )
        .with_accepting("Count")
        .build()
}

const INIT: u32 = 0;
const SPAWN: u32 = 1;
const OTHER: u32 = 2;

/// "Not spawn until init": boolean register (0/1), single accepting
/// location `Accept`, three self-loops.
fn spawn_machine() -> Machine<RuleUpdate> {
    MachineBuilder::new()
        .with_transition(
            "Accept",
            Transition {
                to_location: "Accept".into(),
                bound: TransitionBound::unbounded(),
                update: RuleUpdate {
                    input_eq: Some(OTHER),
                    ..rule()
                },
            },
        )
        .with_transition(
            "Accept",
            Transition {
                to_location: "Accept".into(),
                bound: TransitionBound::unbounded(),
                update: RuleUpdate {
                    input_eq: Some(INIT),
                    set: Some(1),
                    ..rule()
                },
            },
        )
        .with_transition(
            "Accept",
            Transition {
                to_location: "Accept".into(),
                bound: TransitionBound::unbounded(),
                update: RuleUpdate {
                    input_eq: Some(SPAWN),
                    data_min: Some(1),
                    set: Some(1),
                    ..rule()
                },
            },
        )
        .with_accepting("Accept")
        .build()
}

const B: u32 = 98;
const C: u32 = 99;

/// Two locations `s0` (non-accepting) and `s1` (accepting), a bounded edge
/// into `s1`, and a bounded escape into the sink `s3`.
fn bounded_machine() -> Machine<RuleUpdate> {
    MachineBuilder::new()
        .with_transition(
            "s0",
            Transition {
                to_location: "s0".into(),
                bound: TransitionBound {
                    lower: None,
                    upper: Some(10),
                },
                update: RuleUpdate {
                    input_ne: Some(B),
                    ..rule()
                },
            },
        )
        .with_transition(
            "s0",
            Transition {
                to_location: "s1".into(),
                bound: TransitionBound {
                    lower: None,
                    upper: Some(3),
                },
                update: RuleUpdate {
                    input_eq: Some(B),
                    add: 1,
                    ..rule()
                },
            },
        )
        .with_transition(
            "s1",
            Transition {
                to_location: "s1".into(),
                bound: TransitionBound::unbounded(),
                update: RuleUpdate {
                    input_eq: Some(B),
                    add: 1,
                    ..rule()
                },
            },
        )
        .with_transition(
            "s1",
            Transition {
                to_location: "s3".into(),
                bound: TransitionBound {
                    lower: None,
                    upper: Some(3),
                },
                update: RuleUpdate {
                    input_ne: Some(B),
                    ..rule()
                },
            },
        )
        .with_accepting("s1")
        .build()
}

#[test]
fn counting_acceptor_accepts() {
    let machine = counting_machine();
    assert!(machine.exec("Count", 0, vec![1, 2, 3]));
}

#[test]
fn counting_acceptor_final_register() {
    let machine = counting_machine();
    let mut states = vec![rust_efsm::State {
        location: "Count".into(),
        data: 0,
    }];
    for i in [1_u32, 2, 3] {
        states = machine.transition(&i, states);
    }
    assert_eq!(states.len(), 1);
    assert!(states[0].location == "Count");
    assert_eq!(states[0].data, 6);
}

#[test]
fn exec_other_init_spawn() {
    let machine = spawn_machine();
    assert!(machine.exec("Accept", 0, vec![OTHER, INIT, SPAWN]));
}

#[test]
fn exec_init_other_spawn_other() {
    let machine = spawn_machine();
    assert!(machine.exec("Accept", 0, vec![INIT, OTHER, SPAWN, OTHER]));
}

#[test]
fn exec_spawn_before_init_rejects() {
    let machine = spawn_machine();
    // The first `Spawn` has no enabled transition; the frontier empties.
    assert!(!machine.exec("Accept", 0, vec![SPAWN, OTHER, OTHER, INIT]));
}

#[test]
fn bounded_acceptor() {
    let machine = bounded_machine();
    assert!(!machine.exec("s0", 0, vec![C, B, C]));
    assert!(machine.exec("s0", 0, vec![C, B]));
}

#[test]
fn exec_empty_word_accepting_start() {
    let machine = spawn_machine();
    assert!(machine.exec("Accept", 0, vec![]));
}

#[test]
fn exec_empty_word_non_accepting_start() {
    let machine = bounded_machine();
    assert!(!machine.exec("s0", 0, vec![]));
}

#[test]
fn exec_deterministic() {
    let machine = bounded_machine();
    let first = machine.exec("s0", 0, vec![C, B]);
    let second = machine.exec("s0", 0, vec![C, B]);
    assert_eq!(first, second);

    let mut a = vec![rust_efsm::State {
        location: "s0".into(),
        data: 0,
    }];
    let mut b = vec![rust_efsm::State {
        location: "s0".into(),
        data: 0,
    }];
    a = machine.transition(&C, a);
    b = machine.transition(&C, b);
    assert_eq!(a.len(), b.len());
    for (x, y) in a.iter().zip(b.iter()) {
        assert!(x.location == y.location);
        assert_eq!(x.data, y.data);
    }
}

#[test]
fn adding_transition_keeps_accepting_runs() {
    // Monotonicity of fan-out: the word is accepted before, and still
    // accepted after another transition is added.
    let builder = MachineBuilder::new()
        .with_transition(
            "a",
            Transition {
                to_location: "b".into(),
                bound: TransitionBound::unbounded(),
                update: RuleUpdate {
                    input_eq: Some(7),
                    ..rule()
                },
            },
        )
        .with_accepting("b");
    let small = MachineBuilder::new()
        .with_transition(
            "a",
            Transition {
                to_location: "b".into(),
                bound: TransitionBound::unbounded(),
                update: RuleUpdate {
                    input_eq: Some(7),
                    ..rule()
                },
            },
        )
        .with_accepting("b")
        .build();
    assert!(small.exec("a", 0, vec![7]));
    let bigger = builder
        .with_transition(
            "a",
            Transition {
                to_location: "c".into(),
                bound: TransitionBound::unbounded(),
                update: rule(),
            },
        )
        .build();
    assert!(bigger.exec("a", 0, vec![7]));
}

#[test]
fn transition_order_is_insertion_order() {
    let machine = MachineBuilder::new()
        .with_transition(
            "a",
            Transition {
                to_location: "first".into(),
                bound: TransitionBound::unbounded(),
                update: rule(),
            },
        )
        .with_transition(
            "a",
            Transition {
                to_location: "second".into(),
                bound: TransitionBound::unbounded(),
                update: rule(),
            },
        )
        .build();
    let states = machine.transition(
        &0,
        vec![rust_efsm::State {
            location: "a".into(),
            data: 0,
        }],
    );
    assert_eq!(states.len(), 2);
    assert!(states[0].location == "first");
    assert!(states[1].location == "second");
}

#[test]
fn complement_swaps_accepting() {
    // Every location mentioned in the transition graph counts: the sink
    // `s3` appears only as a transition target and becomes accepting too.
    let machine = bounded_machine();
    let complement = machine.complement().unwrap();
    let accepting = complement.get_accepting();
    assert_eq!(accepting.len(), 2);
    assert!(accepting.iter().any(|l| l == "s0"));
    assert!(accepting.iter().any(|l| l == "s3"));
    assert!(!accepting.iter().any(|l| l == "s1"));
}

#[test]
fn getters_expose_graph() {
    let machine = bounded_machine();
    assert_eq!(machine.get_locations().len(), 2);
    let ts = machine.get_transitions(&String::from("s0")).unwrap();
    assert_eq!(ts.len(), 2);
    assert!(ts[0].to_location == "s0");
    assert!(ts[1].to_location == "s1");
    let ts2 = machine.get_transitions_from(&String::from("s1")).unwrap();
    assert_eq!(ts2.len(), 2);
    assert!(machine.get_transitions(&String::from("s3")).is_none());
    assert!(machine.is_accepting(&String::from("s1")));
    assert!(!machine.is_accepting(&String::from("s0")));
}

#[test]
fn clone_preserves_language() {
    let machine = bounded_machine();
    let copy = machine.clone();
    assert_eq!(machine.exec("s0", 0, vec![C, B]), copy.exec("s0", 0, vec![C, B]));
    assert_eq!(machine.exec("s0", 0, vec![C, B, C]), copy.exec("s0", 0, vec![C, B, C]));
}

#[test]
fn add_update_saturates() {
    let u: AddUpdate<u32> = AddUpdate::new(10);
    assert_eq!(u.update(5, &0), 15);
    assert_eq!(u.update(u32::MAX - 3, &0), u32::MAX);
    let lifted = u.update_interval(TransitionBound {
        lower: Some(1),
        upper: Some(u32::MAX - 5),
    });
    assert_eq!(lifted.lower, Some(11));
    assert_eq!(lifted.upper, None);
}

#[test]
fn rule_update_guards() {
    let u = RuleUpdate {
        input_eq: Some(SPAWN),
        data_min: Some(1),
        ..rule()
    };
    assert!(!u.enable(&0, &SPAWN));
    assert!(u.enable(&1, &SPAWN));
    assert!(!u.enable(&1, &OTHER));
    assert_eq!(u.update(4, &SPAWN), 4);
}

#[test]
fn exec_from_unknown_location() {
    let machine = bounded_machine();
    assert!(!machine.exec("nowhere", 0, vec![]));
    assert!(!machine.exec("nowhere", 0, vec![B, C]));
}

#[test]
fn rule_update_interval_lift() {
    let u = RuleUpdate {
        add: 2,
        ..rule()
    };
    let lifted = u.update_interval(TransitionBound {
        lower: Some(1),
        upper: Some(5),
    });
    assert_eq!(lifted.lower, Some(3));
    assert_eq!(lifted.upper, Some(7));

    let set = RuleUpdate {
        set: Some(9),
        ..rule()
    };
    let pinned = set.update_interval(TransitionBound::unbounded());
    assert_eq!(pinned.lower, Some(9));
    assert_eq!(pinned.upper, Some(9));

    let by_input = RuleUpdate {
        add_input: true,
        ..rule()
    };
    let open_above = by_input.update_interval(TransitionBound {
        lower: Some(4),
        upper: Some(6),
    });
    assert_eq!(open_above.lower, Some(4));
    assert_eq!(open_above.upper, None);
}

#[test]
fn state_interval_holds_parts() {
    let si = rust_efsm::StateInterval {
        location: "s0".into(),
        interval: TransitionBound::unbounded(),
    };
    let copy = si.clone();
    assert!(copy.location == "s0");
    assert_eq!(copy.interval.lower, None);
}
