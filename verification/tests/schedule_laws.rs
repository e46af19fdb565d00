//! The schedule's laws and edge cases on concrete graphs.

use graph_executor::{DependencyGraph, ExecOptions, Launch, Schedule};

fn options(concurrency: usize, continue_on_fail: bool) -> ExecOptions {
    ExecOptions { concurrency, continue_on_fail }
}

fn tasks(launched: &[Launch]) -> Vec<usize> {
    let mut t: Vec<usize> = launched.iter().map(|l| l.task).collect();
    t.sort();
    t
}

#[test]
fn default_options_do_not_limit_and_continue() {
    let o = ExecOptions::default();
    assert_eq!(o.concurrency, usize::MAX);
    assert!(o.continue_on_fail);
}

#[test]
fn graph_counts_its_tasks() {
    let g = DependencyGraph::new(4, vec![(0, 1)]);
    assert_eq!(g.len(), 4);
    assert_eq!(DependencyGraph::new(0, vec![]).len(), 0);
}

#[test]
fn run_starts_with_the_tasks_without_dependencies() {
    let g = DependencyGraph::new(4, vec![(0, 1), (2, 1), (1, 3)]);
    let mut s = Schedule::start(&g, &ExecOptions::default());
    let first = s.launch_ready();
    assert_eq!(tasks(&first), vec![0, 2]);
    assert!(first.iter().all(|l| l.execute));
    assert!(!s.is_complete());
}

#[test]
fn dependent_waits_for_all_dependencies() {
    let g = DependencyGraph::new(3, vec![(0, 2), (1, 2)]);
    let mut s = Schedule::start(&g, &ExecOptions::default());
    assert_eq!(tasks(&s.launch_ready()), vec![0, 1]);
    assert!(s.finish(0, true).is_ok());
    assert!(s.launch_ready().is_empty());
    assert!(s.finish(1, true).is_ok());
    assert_eq!(tasks(&s.launch_ready()), vec![2]);
    assert!(s.finish(2, true).is_ok());
    assert!(s.launch_ready().is_empty());
    assert!(s.is_complete());
}

#[test]
fn concurrency_limits_the_tasks_handed_out() {
    let g = DependencyGraph::new(5, vec![]);
    let mut s = Schedule::start(&g, &options(2, true));
    assert_eq!(s.launch_ready().len(), 2);
    assert!(s.launch_ready().is_empty());
    // one slot frees up, one more task starts
    let g2 = DependencyGraph::new(3, vec![]);
    let mut s2 = Schedule::start(&g2, &options(1, true));
    let a = s2.launch_ready();
    assert_eq!(a.len(), 1);
    assert!(s2.finish(a[0].task, true).is_ok());
    let b = s2.launch_ready();
    assert_eq!(b.len(), 1);
    assert_ne!(a[0].task, b[0].task);
}

#[test]
fn failure_spreads_to_dependents_transitively() {
    // 0 -> 1 -> 2, and 3 independent
    let g = DependencyGraph::new(4, vec![(0, 1), (1, 2)]);
    let mut s = Schedule::start(&g, &ExecOptions::default());
    assert_eq!(tasks(&s.launch_ready()), vec![0, 3]);
    assert!(s.finish(0, false).is_ok());
    assert!(s.finish(3, true).is_ok());
    let second = s.launch_ready();
    assert_eq!(second.len(), 1);
    assert_eq!(second[0].task, 1);
    assert!(!second[0].execute);
    // a skipped task stays failed whatever is reported for it
    assert!(s.finish(1, true).is_ok());
    let third = s.launch_ready();
    assert_eq!(third.len(), 1);
    assert_eq!(third[0].task, 2);
    assert!(!third[0].execute);
    assert!(s.finish(2, true).is_ok());
    assert!(s.launch_ready().is_empty());
    assert!(s.is_complete());
}

#[test]
fn failure_stops_a_run_that_does_not_continue() {
    let g = DependencyGraph::new(2, vec![(0, 1)]);
    let mut s = Schedule::start(&g, &options(4, false));
    assert_eq!(tasks(&s.launch_ready()), vec![0]);
    let e = s.finish(0, false).unwrap_err();
    assert_eq!(e.task, 0);
    // nothing changed: the task still runs
    assert!(!s.is_complete());
}

#[test]
fn success_continues_a_run_that_does_not_continue_past_failures() {
    let g = DependencyGraph::new(2, vec![(0, 1)]);
    let mut s = Schedule::start(&g, &options(4, false));
    s.launch_ready();
    assert!(s.finish(0, true).is_ok());
    assert_eq!(tasks(&s.launch_ready()), vec![1]);
}

#[test]
fn cycle_never_starts_but_the_run_completes() {
    let g = DependencyGraph::new(3, vec![(0, 1), (1, 0)]);
    let mut s = Schedule::start(&g, &ExecOptions::default());
    assert_eq!(tasks(&s.launch_ready()), vec![2]);
    assert!(s.finish(2, true).is_ok());
    assert!(s.launch_ready().is_empty());
    assert!(s.is_complete());
}

#[test]
fn task_depending_on_itself_never_starts() {
    let g = DependencyGraph::new(2, vec![(0, 0)]);
    let mut s = Schedule::start(&g, &ExecOptions::default());
    assert_eq!(tasks(&s.launch_ready()), vec![1]);
    assert!(s.finish(1, true).is_ok());
    assert!(s.is_complete());
}

#[test]
fn repeated_edge_counts_once() {
    let g = DependencyGraph::new(2, vec![(0, 1), (0, 1)]);
    let mut s = Schedule::start(&g, &ExecOptions::default());
    assert_eq!(tasks(&s.launch_ready()), vec![0]);
    assert!(s.finish(0, true).is_ok());
    assert_eq!(tasks(&s.launch_ready()), vec![1]);
    assert!(s.finish(1, true).is_ok());
    assert!(s.launch_ready().is_empty());
    assert!(s.is_complete());
}

#[test]
fn acyclic_run_finishes_every_task_once() {
    let g = DependencyGraph::new(6, vec![(0, 1), (0, 2), (1, 3), (2, 3), (3, 4), (5, 4)]);
    let mut s = Schedule::start(&g, &options(2, true));
    let mut order: Vec<usize> = vec![];
    let mut running: Vec<usize> = vec![];
    loop {
        for l in s.launch_ready() {
            running.push(l.task);
        }
        assert!(running.len() <= 2);
        if s.is_complete() {
            break;
        }
        let t = running.remove(0);
        order.push(t);
        assert!(s.finish(t, true).is_ok());
    }
    let mut sorted = order.clone();
    sorted.sort();
    assert_eq!(sorted, vec![0, 1, 2, 3, 4, 5]);
    let pos = |x: usize| order.iter().position(|y| *y == x).unwrap();
    for (a, b) in [(0, 1), (0, 2), (1, 3), (2, 3), (3, 4), (5, 4)] {
        assert!(pos(a) < pos(b));
    }
}
