use cpu_api::action::{parse_action, Action};
use cpu_api::generator::{ActionGenerator, CHANCE_SCALE};
use cpu_api::names::{process_name, ROOT};
use cpu_api::seed::{choice, randint};
use cpu_api::simulator::{apply, find_process, ExitRules, Outcome};
use cpu_api::tree::{ActionError, ProcessTree, Reparent};

const LOCAL: ExitRules = ExitRules { leaf_only: false, policy: Reparent::Local };
const LEAF: ExitRules = ExitRules { leaf_only: true, policy: Reparent::Local };

fn run(t: &mut ProcessTree, text: &str, rules: ExitRules) -> Result<Outcome, ActionError> {
    apply(t, &parse_action(text).unwrap(), rules)
}

#[test]
fn names_follow_enumeration() {
    assert_eq!(process_name(0), "a");
    assert_eq!(process_name(1), "b");
    assert_eq!(process_name(25), "z");
    assert_eq!(process_name(26), "A");
    assert_eq!(process_name(51), "Z");
    assert_eq!(process_name(52), "aa");
    assert_eq!(process_name(53), "ab");
    assert_eq!(process_name(103), "aZ");
    assert_eq!(process_name(104), "ba");
    assert_eq!(process_name(2755), "ZZ");
    assert_eq!(process_name(2756), "aaa");
}

#[test]
fn find_process_by_name() {
    let mut t = ProcessTree::new();
    run(&mut t, "a+b", LOCAL).unwrap();
    assert_eq!(find_process(&t, &"b".to_string()), Some(1));
    assert_eq!(find_process(&t, &"a".to_string()), Some(ROOT));
    assert_eq!(find_process(&t, &"c".to_string()), None);
}

#[test]
fn apply_fork_and_exit() {
    let mut t = ProcessTree::new();
    assert_eq!(run(&mut t, "a+b", LOCAL), Ok(Outcome::Forked { parent: 0, child: 1 }));
    assert_eq!(run(&mut t, "b+c", LOCAL), Ok(Outcome::Forked { parent: 1, child: 2 }));
    assert_eq!(run(&mut t, "b-", LOCAL), Ok(Outcome::Exited { process: 1 }));
    assert_eq!(t.children_of(ROOT), &vec![2]);
}

#[test]
fn apply_unknown_process() {
    let mut t = ProcessTree::new();
    assert_eq!(run(&mut t, "q+b", LOCAL), Err(ActionError::UnknownProcess));
    assert_eq!(run(&mut t, "q-", LOCAL), Err(ActionError::UnknownProcess));
    assert_eq!(t.allocated_count(), 1);
}

#[test]
fn apply_root_exit_rejected() {
    let mut t = ProcessTree::new();
    run(&mut t, "a+b", LOCAL).unwrap();
    assert_eq!(run(&mut t, "a-", LOCAL), Err(ActionError::CannotExitRoot));
    assert_eq!(t.children_of(ROOT), &vec![1]);
}

#[test]
fn leaf_only_rejects_parent_exit() {
    let mut t = ProcessTree::new();
    run(&mut t, "a+b", LEAF).unwrap();
    run(&mut t, "b+c", LEAF).unwrap();
    assert_eq!(run(&mut t, "b-", LEAF), Err(ActionError::RejectedLeafExit));
    assert!(t.is_alive(1));
    assert_eq!(t.children_of(1), &vec![2]);
    assert_eq!(run(&mut t, "b-", LOCAL), Ok(Outcome::Exited { process: 1 }));
    assert_eq!(t.children_of(ROOT), &vec![2]);
}

#[test]
fn leaf_only_allows_leaf_exit() {
    let mut t = ProcessTree::new();
    run(&mut t, "a+b", LEAF).unwrap();
    assert_eq!(run(&mut t, "b-", LEAF), Ok(Outcome::Exited { process: 1 }));
}

#[test]
fn generator_step_decisions() {
    let mut g = ActionGenerator::new(CHANCE_SCALE / 2);
    assert_eq!(g.step(CHANCE_SCALE - 1, 0), None);
    assert_eq!(g.len(), 0);
    let a = g.step(0, 0).unwrap();
    assert_eq!(a, Action::Fork { parent: "a".to_string(), child: "b".to_string() });
    let a = g.step(0, 1).unwrap();
    assert_eq!(a, Action::Fork { parent: "b".to_string(), child: "c".to_string() });
    let a = g.step(CHANCE_SCALE / 2, 1).unwrap();
    assert_eq!(a, Action::Exit { process: "b".to_string() });
    assert_eq!(g.len(), 3);
}

#[test]
fn generated_log_never_exits_root_and_replays() {
    let mut g = ActionGenerator::new(CHANCE_SCALE / 3);
    while g.len() < 200 {
        g.draw();
    }
    let mut t = ProcessTree::new();
    for a in g.actions() {
        assert_ne!(a, &Action::Exit { process: "a".to_string() });
        assert!(apply(&mut t, a, LOCAL).is_ok());
    }
}

#[test]
fn random_helpers_stay_in_range() {
    for _ in 0..100 {
        let v = randint(-3, 4);
        assert!((-3..=4).contains(&v));
        assert_eq!(randint(7, 7), 7);
    }
    let list = vec![10, 20, 30];
    for _ in 0..100 {
        assert!(list.contains(choice(&list)));
    }
    assert_eq!(*choice(&vec![5]), 5);
}

#[test]
fn full_chance_always_forks() {
    let mut g = ActionGenerator::new(CHANCE_SCALE);
    for _ in 0..50 {
        match g.draw() {
            Some(Action::Fork { .. }) => {}
            other => panic!("expected a fork, got {:?}", other),
        }
    }
    assert_eq!(g.len(), 50);
    assert_eq!(g.next_child_id(), 51);
}
