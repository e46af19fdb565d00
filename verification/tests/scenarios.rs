//! The executor's scenarios, driven by a simulated executor: every task takes
//! the same time, so the running tasks finish in the order in which they
//! started.

use std::collections::VecDeque;

use graph_executor::{DependencyGraph, ExecOptions, Launch, Schedule, TaskFailed};

struct Outcome {
    names: Vec<&'static str>,
    called: Vec<bool>,
    exec_records: Vec<&'static str>,
    max_call: usize,
    result: Result<(), TaskFailed>,
}

impl Outcome {
    fn called(&self, id: &str) -> bool {
        self.called[self.names.iter().position(|n| *n == id).unwrap()]
    }
}

fn run(
    names: &[&'static str],
    rejected: &[&'static str],
    edges: &[(&'static str, &'static str)],
    options: ExecOptions,
) -> Outcome {
    let number = |key: &str| names.iter().position(|n| *n == key).unwrap();
    let numbered: Vec<(usize, usize)> = edges.iter().map(|(s, d)| (number(s), number(d))).collect();
    let graph = DependencyGraph::new(names.len(), numbered);
    let mut schedule = Schedule::start(&graph, &options);
    let mut running: VecDeque<Launch> = VecDeque::new();
    let mut outcome = Outcome {
        names: names.to_vec(),
        called: vec![false; names.len()],
        exec_records: vec![],
        max_call: 0,
        result: Ok(()),
    };
    loop {
        for launch in schedule.launch_ready() {
            if launch.execute {
                assert!(!outcome.called[launch.task]);
                outcome.called[launch.task] = true;
            }
            running.push_back(launch);
        }
        let lived = running.iter().filter(|l| l.execute).count();
        outcome.max_call = outcome.max_call.max(lived);
        if schedule.is_complete() {
            break;
        }
        let launch = running.pop_front().unwrap();
        let rejects = rejected.contains(&names[launch.task]);
        if launch.execute && !rejects {
            outcome.exec_records.push(names[launch.task]);
        }
        let succeeded = !(launch.execute && rejects);
        if let Err(e) = schedule.finish(launch.task, succeeded) {
            outcome.result = Err(e);
            break;
        }
    }
    outcome
}

fn assert_ordering(records: &[&str], first: &str, second: &str) {
    assert!(first != second);
    let first_idx = records.iter().position(|s| *s == first);
    let second_idx = records.iter().position(|s| *s == second);
    assert!(first_idx.unwrap() < second_idx.unwrap())
}

#[test]
fn asynced_basic_basic() {
    //       putOnShorts         putOnShirt
    //       /         \          /
    //  putOnShoes      putOnJacket
    //           \
    //            tieShoes
    let t = run(
        &["putOnShirt", "putOnShorts", "putOnJacket", "putOnShoes", "tieShoes"],
        &[],
        &[
            ("putOnShirt", "putOnJacket"),
            ("putOnShoes", "tieShoes"),
            ("putOnShorts", "putOnJacket"),
            ("putOnShorts", "putOnShoes"),
        ],
        ExecOptions::default(),
    );
    assert!(t.result.is_ok());
    assert_ordering(&t.exec_records, "putOnShoes", "tieShoes");
    assert_ordering(&t.exec_records, "putOnShirt", "putOnJacket");
    assert_ordering(&t.exec_records, "putOnShorts", "putOnJacket");
    assert_ordering(&t.exec_records, "putOnShorts", "putOnShoes");
}

#[test]
fn resolves_an_empty_dependnecy_graph() {
    let t = run(&[], &[], &[], ExecOptions::default());
    assert!(t.result.is_ok());
    assert!(t.exec_records.is_empty())
}

#[test]
fn throws_an_exception_but_continues_to_run_the_entire_graph() {
    let t = run(
        &["A", "B", "D", "E", "F", "C"],
        &["C"],
        &[("A", "B"), ("A", "C"), ("A", "D"), ("C", "D"), ("A", "E"), ("E", "F")],
        ExecOptions::default(),
    );
    assert!(t.result.is_ok());
    assert!(t.called("A"));
    assert!(t.called("B"));
    assert!(t.called("E"));
    assert!(t.called("F"));
    assert!(t.called("C"));
    assert!(!t.called("D"));
}

#[test]
fn should_run_all_dependencies_for_disconnected_graphs() {
    let t = run(
        &["A", "B", "C", "D"],
        &[],
        &[("A", "B"), ("A", "C")],
        ExecOptions::default(),
    );
    assert!(t.called("A"));
    assert!(t.called("B"));
    assert!(t.called("C"));
    assert!(t.called("D"));
}

#[test]
fn should_be_able_to_run_more_than_one_task_at_a_time() {
    let t = run(
        &["A", "B", "C"],
        &[],
        &[("A", "B"), ("A", "C")],
        ExecOptions::default(),
    );
    assert_eq!(t.max_call, 2);
}

#[test]
fn should_not_exceed_maximum_concurrency() {
    let t = run(
        &["A", "B", "C", "D", "E"],
        &[],
        &[("A", "B"), ("A", "C"), ("A", "D"), ("A", "E")],
        ExecOptions {
            concurrency: 3,
            ..Default::default()
        },
    );
    assert_eq!(t.max_call, 3);
}

#[test]
fn correctly_schedules_tasks_that_have_more_than_one_dependency() {
    // All nodes depend on A, D depends on C and B as well
    let t = run(
        &["A", "B", "C", "D", "E"],
        &[],
        &[("A", "B"), ("A", "C"), ("A", "D"), ("A", "E"), ("C", "D"), ("B", "D")],
        ExecOptions::default(),
    );
    assert_ordering(&t.exec_records, "A", "B");
    assert_ordering(&t.exec_records, "A", "C");
    assert_ordering(&t.exec_records, "A", "D");
    assert_ordering(&t.exec_records, "A", "E");
    assert_ordering(&t.exec_records, "B", "D");
    assert_ordering(&t.exec_records, "C", "D");
}

#[test]
fn basic_basic() {
    // The same dressing graph, run as the threaded executor runs it: no
    // limit on concurrency, and tasks that cannot fail.
    let t = run(
        &["putOnShirt", "putOnShorts", "putOnJacket", "putOnShoes", "tieShoes"],
        &[],
        &[
            ("putOnShirt", "putOnJacket"),
            ("putOnShoes", "tieShoes"),
            ("putOnShorts", "putOnJacket"),
            ("putOnShorts", "putOnShoes"),
        ],
        ExecOptions::default(),
    );
    assert_eq!(t.exec_records.len(), 5);
    assert_ordering(&t.exec_records, "putOnShoes", "tieShoes");
    assert_ordering(&t.exec_records, "putOnShirt", "putOnJacket");
    assert_ordering(&t.exec_records, "putOnShorts", "putOnJacket");
    assert_ordering(&t.exec_records, "putOnShorts", "putOnShoes");
}
