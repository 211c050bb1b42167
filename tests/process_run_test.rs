use std::collections::HashMap;

use cpu_api::process_run::{unit_is_compute, ProcessState, ProcessStructure, Scheduler};

#[test]
fn test_load_program() {
    let program = "c7,i,c1,i,c33,i";
    for inst in program.split(',') {
        let opcode = inst.chars().nth(0).unwrap();
        println!("opcode: {}", opcode);
        match opcode {
            'c' => {
                let reg = inst[1..].parse::<i32>().unwrap();
                println!("reg: {}", reg)
            }
            'i' => {
                println!("immediate");
            }
            _ => {
                panic!("invalid opcode");
            }
        }
    }
}

#[test]
fn test_new_process_basic() {
    let mut manager = Scheduler::new();
    let proc_id = manager.new_process();

    assert_eq!(proc_id, 0);
    assert_eq!(manager.proc_info.len(), 1);
    assert_eq!(manager.proc_info[&proc_id].proc_id, 0);
    assert_eq!(manager.proc_info[&proc_id].proc_pc, 0);
    assert_eq!(manager.proc_info[&proc_id].proc_code.len(), 0);
    assert_eq!(manager.proc_info[&proc_id].proc_state, ProcessState::Ready);
}

#[test]
fn load_program_expands_instructions() {
    let mut manager = Scheduler::new();
    manager.load_program("c7,i,c1,i,c33,i");
    let pid = 0;
    assert_eq!(manager.get_num_instructions(pid), 7 + 2 + 1 + 2 + 33 + 2);
    let code: &ProcessStructure = &manager.proc_info[&pid];
    assert_eq!(&code.proc_code[..3], &["cpu", "cpu", "cpu"]);
    assert_eq!(&code.proc_code[7..9], &["io", "io_done"]);
    assert_eq!(code.proc_state, ProcessState::Ready);
}

#[test]
fn load_program_second_process_gets_next_id() {
    let mut manager = Scheduler::new();
    manager.new_process();
    manager.load_program("i");
    let pid = 1;
    assert_eq!(manager.get_num_processes(), 2);
    assert_eq!(manager.proc_info[&pid].proc_code, vec!["io", "io_done"]);
}

#[test]
fn load_all_compute_and_all_io() {
    let mut manager = Scheduler::new();
    manager.load("5:100");
    let a = 0;
    assert_eq!(manager.proc_info[&a].proc_code, vec!["cpu"; 5]);
    manager.load("3:0");
    let b = 1;
    assert_eq!(manager.get_num_instructions(b), 6);
    assert_eq!(manager.proc_info[&b].proc_code[..2], ["io", "io_done"]);
}

#[test]
fn load_mixed_has_units() {
    let mut manager = Scheduler::new();
    manager.load("10:50");
    let a = 0;
    let code = &manager.proc_info[&a].proc_code;
    let computes = code.iter().filter(|c| **c == "cpu").count();
    let ios = code.iter().filter(|c| **c == "io").count();
    assert_eq!(computes + ios, 10);
    assert_eq!(code.len(), computes + 2 * ios);
}

#[test]
fn counts_follow_states() {
    let mut manager = Scheduler::new();
    for _ in 0..3 {
        manager.new_process();
    }
    assert_eq!(manager.get_num_actives(), 3);
    assert_eq!(manager.get_num_runnable(), 3);
    manager.curr_proc = 1;
    manager.move_to_running(ProcessState::Ready);
    assert_eq!(manager.proc_info[&1].proc_state, ProcessState::Running);
    assert_eq!(manager.get_num_runnable(), 3);
    manager.move_to_done(ProcessState::Running);
    assert_eq!(manager.get_num_actives(), 2);
    assert_eq!(manager.get_num_runnable(), 2);
    manager.move_to_ready(1, ProcessState::Terminated);
    assert_eq!(manager.get_num_actives(), 3);
}

#[test]
fn ready_to_running_picks_first_ready() {
    let mut manager = Scheduler::new();
    for _ in 0..4 {
        manager.new_process();
    }
    manager.curr_proc = 0;
    manager.move_to_done(ProcessState::Ready);
    manager.state_ready_to_running(0, 4);
    assert_eq!(manager.curr_proc, 1);
    assert_eq!(manager.proc_info[&1].proc_state, ProcessState::Running);
    let before: HashMap<i32, ProcessState> =
        manager.proc_info.iter().map(|(k, v)| (*k, v.proc_state)).collect();
    manager.state_ready_to_running(0, 2);
    let after: HashMap<i32, ProcessState> =
        manager.proc_info.iter().map(|(k, v)| (*k, v.proc_state)).collect();
    assert_eq!(before, after);
    assert_eq!(manager.curr_proc, 1);
}

#[test]
fn unit_decision_is_draw_modulo_hundred() {
    // i32::MIN counts as 0, i32::MIN + 57 as 57
    assert!(unit_is_compute(i32::MIN, 1));
    assert!(!unit_is_compute(i32::MIN, 0));
    assert!(unit_is_compute(i32::MIN + 57, 58));
    assert!(!unit_is_compute(i32::MIN + 57, 57));
    assert!(!unit_is_compute(i32::MIN + 157, 57));
    assert!(unit_is_compute(i32::MAX, 100));
}

#[test]
fn load_keeps_current_process() {
    let mut manager = Scheduler::new();
    manager.new_process();
    manager.curr_proc = 0;
    manager.load("2:100");
    assert_eq!(manager.curr_proc, 0);
    assert_eq!(manager.proc_info[&1].proc_code, vec!["cpu", "cpu"]);
}
