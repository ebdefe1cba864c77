use rust_efsm::machine::Machine;
use rust_efsm::machine::MachineBuilder;
use rust_efsm::machine::RuleUpdate;
use rust_efsm::machine::Transition;
use rust_efsm::monitor::Monitor;
use rust_efsm::monitor::MonitorError;
use rust_efsm::TransitionBound;
use rust_efsm::PathNode;

fn rule() -> RuleUpdate {
    RuleUpdate::identity()
}

const B: u32 = 98;
const C: u32 = 99;

/// The bounded acceptor: `s0` (non-accepting), `s1` (accepting), with a
/// sink `s3`.  Not total: `s3` has no outgoing transitions.
fn bounded_machine() -> Machine<RuleUpdate> {
    MachineBuilder::new()
        .with_transition(
            "s0",
            Transition {
                to_location: "s0".into(),
                bound: TransitionBound {
                    lower: None,
                    upper: Some(10),
                },
                update: RuleUpdate {
                    input_ne: Some(B),
                    ..rule()
                },
            },
        )
        .with_transition(
            "s0",
            Transition {
                to_location: "s1".into(),
                bound: TransitionBound {
                    lower: None,
                    upper: Some(3),
                },
                update: RuleUpdate {
                    input_eq: Some(B),
                    add: 1,
                    ..rule()
                },
            },
        )
        .with_transition(
            "s1",
            Transition {
                to_location: "s1".into(),
                bound: TransitionBound::unbounded(),
                update: RuleUpdate {
                    input_eq: Some(B),
                    add: 1,
                    ..rule()
                },
            },
        )
        .with_transition(
            "s1",
            Transition {
                to_location: "s3".into(),
                bound: TransitionBound {
                    lower: None,
                    upper: Some(3),
                },
                update: RuleUpdate {
                    input_ne: Some(B),
                    ..rule()
                },
            },
        )
        .with_accepting("s1")
        .build()
}

/// A total, deterministic machine: `a` (accepting) keeps itself while the
/// input is `1` and falls into the rejecting sink `b` otherwise; `b` loops
/// on every input.
fn total_machine() -> Machine<RuleUpdate> {
    MachineBuilder::new()
        .with_transition(
            "a",
            Transition {
                to_location: "a".into(),
                bound: TransitionBound::unbounded(),
                update: RuleUpdate {
                    input_eq: Some(1),
                    ..rule()
                },
            },
        )
        .with_transition(
            "a",
            Transition {
                to_location: "b".into(),
                bound: TransitionBound::unbounded(),
                update: RuleUpdate {
                    input_ne: Some(1),
                    ..rule()
                },
            },
        )
        .with_transition(
            "b",
            Transition {
                to_location: "b".into(),
                bound: TransitionBound::unbounded(),
                update: rule(),
            },
        )
        .with_accepting("a")
        .build()
}

#[test]
fn find_non_empty_bounded_machine() {
    let machine = bounded_machine();
    let safe = machine.find_non_empty("s0").unwrap();

    let s1 = safe.iter().find(|e| e.0 == "s1").expect("s1 must be safe");
    assert_eq!(s1.1.lower, None);
    assert_eq!(s1.1.upper, None);

    let s0 = safe.iter().find(|e| e.0 == "s0").expect("s0 must be safe");
    assert!(s0.1.contains(&0));
}

#[test]
fn find_non_empty_seeds_accepting_unbounded() {
    let machine = total_machine();
    let safe = machine.find_non_empty("a").unwrap();
    let a = safe.iter().find(|e| e.0 == "a").expect("a must be safe");
    assert_eq!(a.1.as_explicit(), (0, u32::MAX));
}

#[test]
fn monitor_commits_false_on_total_machine() {
    let machine = total_machine();
    let mut monitor = Monitor::new("a", 0, machine).unwrap();
    assert_eq!(monitor.next(&1).unwrap(), None);
    assert_eq!(monitor.next(&1).unwrap(), None);
    assert_eq!(monitor.next(&2).unwrap(), Some(false));
}

#[test]
fn monitor_commits_true_when_always_accepting() {
    let machine = MachineBuilder::new()
        .with_transition(
            "a",
            Transition {
                to_location: "a".into(),
                bound: TransitionBound::unbounded(),
                update: rule(),
            },
        )
        .with_accepting("a")
        .build();
    let mut monitor = Monitor::new("a", 0, machine).unwrap();
    assert_eq!(monitor.next(&5).unwrap(), Some(true));
}

#[test]
fn monitor_on_bounded_machine() {
    // The monitor stays inconclusive while acceptance is still reachable;
    // the last input drops into the sink `s3`, and the falsifier commits.
    let machine = bounded_machine();
    let mut monitor = Monitor::new("s0", 0, machine).unwrap();
    assert_eq!(monitor.next(&C).unwrap(), None);
    assert_eq!(monitor.next(&B).unwrap(), None);
    assert_eq!(monitor.next(&C).unwrap(), Some(false));
}

#[test]
fn monitor_errors_on_non_deterministic_machine() {
    let machine = MachineBuilder::new()
        .with_transition(
            "a",
            Transition {
                to_location: "a".into(),
                bound: TransitionBound::unbounded(),
                update: rule(),
            },
        )
        .with_transition(
            "a",
            Transition {
                to_location: "b".into(),
                bound: TransitionBound::unbounded(),
                update: rule(),
            },
        )
        .with_transition(
            "b",
            Transition {
                to_location: "b".into(),
                bound: TransitionBound::unbounded(),
                update: rule(),
            },
        )
        .with_accepting("a")
        .build();
    let mut monitor = Monitor::new("a", 0, machine).unwrap();
    let verdict = monitor.next(&0);
    assert!(matches!(verdict, Err(MonitorError::TransitionFailed(_))));
}

#[test]
fn monitor_errors_on_empty_frontier() {
    // `a` has no transition enabled on input 9: the frontier empties, which
    // the partial monitor reports as a failed transition.
    let machine = MachineBuilder::new()
        .with_transition(
            "a",
            Transition {
                to_location: "a".into(),
                bound: TransitionBound::unbounded(),
                update: RuleUpdate {
                    input_eq: Some(1),
                    ..rule()
                },
            },
        )
        .with_accepting("a")
        .build();
    let mut monitor = Monitor::new("a", 0, machine).unwrap();
    let verdict = monitor.next(&9);
    assert!(matches!(verdict, Err(MonitorError::TransitionFailed(_))));
}

#[test]
fn sketch_monitor_returns_none() {
    let machine = total_machine();
    let sketch = rust_efsm::mon::Monitor::from_machine(machine).unwrap();
    assert_eq!(sketch.next(&1), None);
}

#[test]
fn path_to_follows_parents() {
    let table = vec![
        PathNode {
            idx: 0,
            parent: None,
            location: "root".into(),
            interval: TransitionBound::unbounded(),
        },
        PathNode {
            idx: 1,
            parent: Some((0, TransitionBound::unbounded())),
            location: "mid".into(),
            interval: TransitionBound::unbounded(),
        },
        PathNode {
            idx: 2,
            parent: Some((1, TransitionBound::unbounded())),
            location: "leaf".into(),
            interval: TransitionBound::unbounded(),
        },
    ];
    let path = table[2].path_to(&table);
    assert_eq!(path, vec![0, 1, 2]);
    let root_path = table[0].path_to(&table);
    assert_eq!(root_path, vec![0]);
}
