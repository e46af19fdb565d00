use vstd::prelude::*;

use crate::lists::{lemma_push_contains, list_contains, lists_mirror, lists_well_formed, remove_value};
use crate::shared::ExecOptions;

verus! {

/// The dependency structure of a set of tasks numbered `0..task_count()`.
///
/// Each task keeps the set of tasks it depends on and the set of tasks that
/// depend on it, each without repetition, so that an edge given twice counts
/// once.
pub struct DependencyGraph {
    depends_on: Vec<Vec<usize>>,
    depended_on_by: Vec<Vec<usize>>,
    roots: Vec<usize>,
}

impl DependencyGraph {
    #[verifier::type_invariant]
    closed spec fn inv(self) -> bool {
        let n = self.depends_on@.len();
        &&& lists_well_formed(self.depends_on@, n)
        &&& lists_well_formed(self.depended_on_by@, n)
        &&& lists_mirror(self.depends_on@, self.depended_on_by@, n)
        &&& self.roots@.no_duplicates()
        &&& forall|t: usize|
            #![trigger self.roots@.contains(t)]
            self.roots@.contains(t) <==> (t < n && self.depends_on@[t as int]@.len() == 0)
    }

    /// The number of tasks.
    pub closed spec fn task_count(self) -> nat {
        self.depends_on@.len()
    }

    /// `task` may start only after `dependency` has finished.
    pub closed spec fn depends(self, task: int, dependency: int) -> bool {
        &&& 0 <= task < self.task_count()
        &&& 0 <= dependency < self.task_count()
        &&& self.depends_on@[task]@.contains(dependency as usize)
    }

    /// `task` depends on nothing, so a run starts with it.
    pub open spec fn is_root(self, task: int) -> bool {
        &&& 0 <= task < self.task_count()
        &&& forall|p: int| !#[trigger] self.depends(task, p)
    }

    /// The number of tasks.
    pub fn len(&self) -> (n: usize)
        ensures
            n == self.task_count(),
    {
        self.depends_on.len()
    }

    /// Builds the graph of `task_count` tasks in which, for each edge
    /// `(subject, dependent)`, `dependent` depends on `subject`.
    pub fn new(task_count: usize, edges: Vec<(usize, usize)>) -> (graph: Self)
        requires
            forall|i: int|
                0 <= i < edges.len() ==> (#[trigger] edges@[i]).0 < task_count && edges@[i].1
                    < task_count,
        ensures
            graph.task_count() == task_count,
            forall|t: int, p: int|
                #![trigger graph.depends(t, p)]
                graph.depends(t, p) <==> (0 <= t < task_count && 0 <= p < task_count
                    && edges@.contains((p as usize, t as usize))),
    {
        let mut depends_on: Vec<Vec<usize>> = Vec::new();
        let mut depended_on_by: Vec<Vec<usize>> = Vec::new();
        let mut k: usize = 0;
        while k < task_count
            invariant
                k <= task_count,
                depends_on@.len() == k,
                depended_on_by@.len() == k,
                forall|t: int| 0 <= t < k ==> (#[trigger] depends_on@[t])@.len() == 0,
                forall|t: int| 0 <= t < k ==> (#[trigger] depended_on_by@[t])@.len() == 0,
            decreases task_count - k,
        {
            depends_on.push(Vec::new());
            depended_on_by.push(Vec::new());
            k = k + 1;
        }
        let n = task_count;
        proof {
            assert forall|t: int, p: int|
                0 <= t < n && 0 <= p < n implies ((#[trigger] depends_on@[t])@.contains(
                p as usize) <==> (#[trigger] depended_on_by@[p])@.contains(t as usize)) by {
                assert(depends_on@[t]@.len() == 0);
                assert(depended_on_by@[p]@.len() == 0);
            }
        }
        let mut i: usize = 0;
        while i < edges.len()
            invariant
                n == task_count,
                i <= edges.len(),
                forall|j: int|
                    0 <= j < edges.len() ==> (#[trigger] edges@[j]).0 < n && edges@[j].1 < n,
                lists_well_formed(depends_on@, n as nat),
                lists_well_formed(depended_on_by@, n as nat),
                lists_mirror(depends_on@, depended_on_by@, n as nat),
                forall|t: int, p: int|
                    #![trigger depends_on@[t]@.contains(p as usize)]
                    0 <= t < n && 0 <= p < n ==> (depends_on@[t]@.contains(p as usize)
                        <==> edges@.subrange(0, i as int).contains((p as usize, t as usize))),
            decreases edges.len() - i,
        {
            let (subject, dependent) = edges[i];
            let ghost old_on = depends_on@;
            let ghost old_by = depended_on_by@;
            let ghost added = !old_by[subject as int]@.contains(dependent);
            if !list_contains(&depended_on_by[subject], dependent) {
                let mut by_list = depended_on_by[subject].clone();
                assert(by_list@ =~= old_by[subject as int]@);
                by_list.push(dependent);
                depended_on_by.set(subject, by_list);
                let mut on_list = depends_on[dependent].clone();
                assert(on_list@ =~= old_on[dependent as int]@);
                on_list.push(subject);
                depends_on.set(dependent, on_list);
                proof {
                    assert(old_on[dependent as int]@.contains(subject) <==> old_by[subject as int]@.contains(
                        dependent,
                    ));
                }
            }
            proof {
                let pair = (subject, dependent);
                let seen = edges@.subrange(0, i as int);
                let now = edges@.subrange(0, i + 1);
                assert(now =~= seen.push(pair));
                assert(old_on[dependent as int]@.contains(subject) <==> old_by[subject as int]@.contains(
                    dependent,
                ));
                assert forall|t: int|
                    0 <= t < n implies #[trigger] depends_on@[t]@ == (if t == dependent as int
                    && added {
                    old_on[t]@.push(subject)
                } else {
                    old_on[t]@
                }) by {}
                assert forall|t: int|
                    0 <= t < n implies #[trigger] depended_on_by@[t]@ == (if t == subject as int
                    && added {
                    old_by[t]@.push(dependent)
                } else {
                    old_by[t]@
                }) by {}
                assert forall|t: int, p: int|
                    #![trigger depends_on@[t]@.contains(p as usize)]
                    0 <= t < n && 0 <= p < n implies (depends_on@[t]@.contains(p as usize) <==> (
                    old_on[t]@.contains(p as usize) || (t == dependent as int && p
                        == subject as int))) by {
                    lemma_push_contains(old_on[t]@, subject, p as usize);
                }
                assert forall|t: int, p: int|
                    #![trigger depended_on_by@[p]@.contains(t as usize)]
                    0 <= t < n && 0 <= p < n implies (depended_on_by@[p]@.contains(t as usize) <==> (
                    old_by[p]@.contains(t as usize) || (t == dependent as int && p
                        == subject as int))) by {
                    lemma_push_contains(old_by[p]@, dependent, t as usize);
                }
                assert forall|t: int, p: int|
                    #![trigger depends_on@[t]@.contains(p as usize)]
                    0 <= t < n && 0 <= p < n implies (depends_on@[t]@.contains(p as usize)
                    <==> now.contains((p as usize, t as usize))) by {
                    lemma_push_contains(seen, pair, (p as usize, t as usize));
                    assert(old_on[t]@.contains(p as usize) <==> seen.contains(
                        (p as usize, t as usize),
                    ));
                }
                assert forall|t: int, p: int|
                    0 <= t < n && 0 <= p < n implies ((#[trigger] depends_on@[t])@.contains(
                    p as usize) <==> (#[trigger] depended_on_by@[p])@.contains(t as usize)) by {
                    assert(old_on[t]@.contains(p as usize) <==> old_by[p]@.contains(t as usize));
                }
                assert forall|t: int|
                    0 <= t < n implies (#[trigger] depends_on@[t])@.no_duplicates() by {
                    assert(old_on[t]@.no_duplicates());
                }
                assert forall|t: int|
                    0 <= t < n implies (#[trigger] depended_on_by@[t])@.no_duplicates() by {
                    assert(old_by[t]@.no_duplicates());
                }
                assert forall|t: int, j: int|
                    0 <= t < n && 0 <= j < depends_on@[t]@.len() implies (
                    #[trigger] depends_on@[t]@[j]) < n by {
                    if !(t == dependent as int && added && j == old_on[t]@.len()) {
                        assert(depends_on@[t]@[j] == old_on[t]@[j]);
                    }
                }
                assert forall|t: int, j: int|
                    0 <= t < n && 0 <= j < depended_on_by@[t]@.len() implies (
                    #[trigger] depended_on_by@[t]@[j]) < n by {
                    if !(t == subject as int && added && j == old_by[t]@.len()) {
                        assert(depended_on_by@[t]@[j] == old_by[t]@[j]);
                    }
                }
            }
            i = i + 1;
        }
        assert(edges@.subrange(0, edges.len() as int) =~= edges@);
        let mut roots: Vec<usize> = Vec::new();
        let mut t: usize = 0;
        while t < n
            invariant
                t <= n,
                depends_on@.len() == n,
                roots@.no_duplicates(),
                forall|j: int| 0 <= j < roots@.len() ==> (#[trigger] roots@[j]) < t,
                forall|u: usize|
                    #![trigger roots@.contains(u)]
                    roots@.contains(u) <==> (u < t && depends_on@[u as int]@.len() == 0),
            decreases n - t,
        {
            if depends_on[t].len() == 0 {
                let ghost old_roots = roots@;
                proof {
                    lemma_push_contains(roots@, t, t);
                }
                roots.push(t);
                proof {
                    assert forall|u: usize| #[trigger] roots@.contains(u) <==> (u <= t
                        && depends_on@[u as int]@.len() == 0) by {
                        lemma_push_contains(old_roots, t, u);
                        assert(old_roots.contains(u) <==> (u < t && depends_on@[u as int]@.len()
                            == 0));
                    }
                }
            }
            t = t + 1;
        }
        DependencyGraph { depends_on, depended_on_by, roots }
    }
}

/// Where a task stands in a run.
enum Phase {
    /// Some dependency has not finished yet.
    Waiting,
    /// Ready to start, in the queue.
    Queued,
    /// Handed out for execution, not reported back yet.
    Running,
    /// Reported back.
    Finished,
}

/// A task handed out for execution.
#[derive(Clone, Copy, Debug)]
pub struct Launch {
    /// The task's number.
    pub task: usize,
    /// False when one of the task's dependencies failed: the task is then
    /// not executed, only reported back, so that its own dependents learn of
    /// the failure in turn.
    pub execute: bool,
}

/// A task failed in a run that does not continue past a failure.
#[derive(Clone, Copy, Debug)]
pub struct TaskFailed {
    /// The number of the task that failed.
    pub task: usize,
}

/// One run over a [`DependencyGraph`].
///
/// A task starts only when every task it depends on has finished; at most
/// `concurrency` tasks run at the same time; a task one of whose
/// dependencies failed is failed too and is not executed.
pub struct Schedule<'a> {
    graph: &'a DependencyGraph,
    /// For each task, its dependencies that it has not yet seen finish.
    waiting_on: Vec<Vec<usize>>,
    phase: Vec<Phase>,
    failed: Vec<bool>,
    /// The queued tasks.
    todo: Vec<usize>,
    /// The running tasks.
    running: Vec<usize>,
    concurrency: usize,
    continue_on_fail: bool,
}

impl<'a> Schedule<'a> {
    /// The graph that this run goes over.
    pub closed spec fn graph(self) -> DependencyGraph {
        *self.graph
    }

    /// The largest number of tasks that may run at the same time.
    pub closed spec fn concurrency(self) -> nat {
        self.concurrency as nat
    }

    /// Whether the run goes on after a task failed.
    pub closed spec fn continue_on_fail(self) -> bool {
        self.continue_on_fail
    }

    closed spec fn in_range(self, t: int) -> bool {
        0 <= t < self.phase@.len()
    }

    /// `t` waits for some dependency to finish.
    pub closed spec fn waiting(self, t: int) -> bool {
        self.in_range(t) && self.phase@[t] is Waiting
    }

    /// `t` may start and waits for a free slot.
    pub closed spec fn queued(self, t: int) -> bool {
        self.in_range(t) && self.phase@[t] is Queued
    }

    /// `t` has been handed out and not yet reported back.
    pub closed spec fn running(self, t: int) -> bool {
        self.in_range(t) && self.phase@[t] is Running
    }

    /// `t` has been reported back.
    pub closed spec fn finished(self, t: int) -> bool {
        self.in_range(t) && self.phase@[t] is Finished
    }

    /// `t` is marked failed: it failed itself, or a dependency of it did.
    pub closed spec fn failed(self, t: int) -> bool {
        self.in_range(t) && self.failed@[t]
    }

    /// The number of running tasks.
    pub closed spec fn running_count(self) -> nat {
        self.running@.len()
    }

    /// `t` has been handed out, in this run, for execution.
    pub open spec fn started(self, t: int) -> bool {
        self.running(t) || self.finished(t)
    }

    /// The running tasks.
    pub open spec fn running_tasks(self) -> Set<int> {
        Set::new(|t: int| self.running(t))
    }

    /// The finished tasks.
    pub open spec fn finished_tasks(self) -> Set<int> {
        Set::new(|t: int| self.finished(t))
    }

    /// Nothing is queued and nothing is running: the run is over.
    pub open spec fn complete(self) -> bool {
        forall|t: int|
            #![trigger self.queued(t)]
            #![trigger self.running(t)]
            !self.queued(t) && !self.running(t)
    }

    /// Whether dependent `c` has already learned that `p` finished, while
    /// the dependents of `task` that are not in `told` have not learned it
    /// of `task` yet.
    closed spec fn learned(c: int, p: int, task: int, told: Seq<usize>) -> bool {
        p != task || told.contains(c as usize)
    }

    /// The invariant of a run, while the dependents of `task` that are not in
    /// `told` have not yet been told that `task` finished.
    closed spec fn consistent(self, task: int, told: Seq<usize>) -> bool {
        let g = self.graph();
        let n = g.task_count();
        &&& g.inv()
        &&& lists_well_formed(self.waiting_on@, n)
        &&& self.phase@.len() == n
        &&& n <= usize::MAX
        &&& self.failed@.len() == n
        &&& forall|c: int, p: int|
            #![trigger self.waiting_on@[c]@.contains(p as usize)]
            0 <= c < n && 0 <= p < n ==> (self.waiting_on@[c]@.contains(p as usize) <==> (
            g.depends(c, p) && !(self.finished(p) && Self::learned(c, p, task, told))))
        &&& forall|c: int|
            0 <= c < n ==> (#[trigger] self.waiting(c) <==> self.waiting_on@[c]@.len() > 0)
        &&& self.todo@.no_duplicates()
        &&& forall|i: int| 0 <= i < self.todo@.len() ==> self.queued(#[trigger] self.todo@[i] as int)
        &&& forall|c: int| #[trigger] self.queued(c) ==> self.todo@.contains(c as usize)
        &&& self.running@.no_duplicates()
        &&& forall|i: int|
            0 <= i < self.running@.len() ==> self.running(#[trigger] self.running@[i] as int)
        &&& forall|c: int| #[trigger] self.running(c) ==> self.running@.contains(c as usize)
        &&& 0 < self.concurrency
        &&& self.running@.len() <= self.concurrency
        &&& forall|c: int|
            0 <= c < n && !self.finished(c) ==> (#[trigger] self.failed(c) <==> exists|p: int|
                #![trigger g.depends(c, p)]
                g.depends(c, p) && self.finished(p) && self.failed(p) && Self::learned(
                    c,
                    p,
                    task,
                    told,
                ))
        &&& forall|c: int, p: int|
            #![trigger g.depends(c, p), self.failed(c)]
            g.depends(c, p) && self.finished(p) && self.failed(p) && Self::learned(c, p, task, told)
                ==> self.failed(c)
    }

    /// The invariant of a run.
    pub closed spec fn wf(self) -> bool {
        self.consistent(-1, Seq::empty())
    }

    /// Starts a run over `graph`: the tasks that depend on nothing are
    /// queued, every other task waits, and nothing has failed yet.
    pub fn start(graph: &'a DependencyGraph, options: &ExecOptions) -> (run: Self)
        requires
            options.concurrency > 0,
        ensures
            run.wf(),
            run.graph() == *graph,
            run.concurrency() == options.concurrency,
            run.continue_on_fail() == options.continue_on_fail,
            run.running_count() == 0,
            forall|t: int|
                0 <= t < graph.task_count() ==> (#[trigger] run.queued(t) <==> graph.is_root(t)),
            forall|t: int|
                0 <= t < graph.task_count() ==> (#[trigger] run.waiting(t) <==> !graph.is_root(t)),
            forall|t: int| !#[trigger] run.running(t) && !run.finished(t) && !run.failed(t),
    {
        proof {
            use_type_invariant(graph);
        }
        let n = graph.depends_on.len();
        let mut waiting_on: Vec<Vec<usize>> = Vec::new();
        let mut phase: Vec<Phase> = Vec::new();
        let mut failed: Vec<bool> = Vec::new();
        let mut t: usize = 0;
        while t < n
            invariant
                n == graph.depends_on@.len(),
                graph.inv(),
                t <= n,
                waiting_on@.len() == t,
                phase@.len() == t,
                failed@.len() == t,
                forall|c: int| 0 <= c < t ==> (#[trigger] waiting_on@[c])@ == graph.depends_on@[c]@,
                forall|c: int|
                    0 <= c < t ==> ((#[trigger] phase@[c] is Waiting) <==> graph.depends_on@[c]@.len()
                        > 0),
                forall|c: int|
                    0 <= c < t ==> ((#[trigger] phase@[c] is Queued) <==> graph.depends_on@[c]@.len()
                        == 0),
                forall|c: int| 0 <= c < t ==> !(#[trigger] failed@[c]),
            decreases n - t,
        {
            let list = graph.depends_on[t].clone();
            assert(list@ =~= graph.depends_on@[t as int]@);
            if list.len() == 0 {
                phase.push(Phase::Queued);
            } else {
                phase.push(Phase::Waiting);
            }
            waiting_on.push(list);
            failed.push(false);
            t = t + 1;
        }
        let todo = graph.roots.clone();
        assert(todo@ =~= graph.roots@);
        let run = Schedule {
            graph,
            waiting_on,
            phase,
            failed,
            todo,
            running: Vec::new(),
            concurrency: options.concurrency,
            continue_on_fail: options.continue_on_fail,
        };
        proof {
            assert forall|c: int| 0 <= c < n implies (#[trigger] run.waiting_on@[c])@.no_duplicates() by {
                assert(graph.depends_on@[c]@.no_duplicates());
            }
            assert forall|c: int, i: int|
                0 <= c < n && 0 <= i < run.waiting_on@[c]@.len() implies (
                #[trigger] run.waiting_on@[c]@[i]) < n by {
                assert(graph.depends_on@[c]@[i] < n);
            }
            assert forall|i: int| 0 <= i < run.todo@.len() implies run.queued(
                #[trigger] run.todo@[i] as int,
            ) by {
                assert(graph.roots@.contains(run.todo@[i]));
            }
            assert forall|c: int| #[trigger] run.queued(c) implies run.todo@.contains(c as usize) by {
                assert(graph.roots@.contains(c as usize) <==> (c < n && graph.depends_on@[c]@.len()
                    == 0));
            }
            assert forall|c: int| 0 <= c < n implies (#[trigger] run.queued(c) <==> graph.is_root(c)) by {
                if !run.queued(c) {
                    let p = graph.depends_on@[c]@[0] as int;
                    assert(graph.depends(c, p));
                }
                if !graph.is_root(c) {
                    let p = choose|p: int| graph.depends(c, p);
                    assert(graph.depends_on@[c]@.contains(p as usize));
                }
            }
            assert forall|c: int| 0 <= c < n implies (#[trigger] run.waiting(c) <==> !graph.is_root(c)) by {
                assert(run.queued(c) <==> graph.is_root(c));
            }
        }
        run
    }

    /// Hands out queued tasks while fewer than `concurrency` tasks run and
    /// the queue is not empty. Each task handed out is marked running; it is
    /// to be executed unless one of its dependencies failed.
    pub fn launch_ready(&mut self) -> (launched: Vec<Launch>)
        requires
            old(self).wf(),
        ensures
            final(self).wf(),
            final(self).graph() == old(self).graph(),
            final(self).concurrency() == old(self).concurrency(),
            final(self).continue_on_fail() == old(self).continue_on_fail(),
            forall|i: int|
                #![trigger launched@[i]]
                0 <= i < launched@.len() ==> {
                    let t = launched@[i].task as int;
                    &&& old(self).queued(t)
                    &&& final(self).running(t)
                    &&& launched@[i].execute == !old(self).failed(t)
                    &&& launched@[i].execute <==> forall|p: int|
                        #[trigger] old(self).graph().depends(t, p) ==> !old(self).failed(p)
                },
            forall|i: int, j: int|
                0 <= i < j < launched@.len() ==> launched@[i].task != launched@[j].task,
            forall|t: int|
                #[trigger] final(self).running(t) <==> (old(self).running(t) || exists|i: int|
                    0 <= i < launched@.len() && launched@[i].task == t),
            forall|t: int|
                #[trigger] final(self).queued(t) <==> (old(self).queued(t) && !final(self).running(
                    t,
                )),
            forall|t: int|
                #![trigger final(self).waiting(t)]
                #![trigger final(self).finished(t)]
                #![trigger final(self).failed(t)]
                final(self).waiting(t) == old(self).waiting(t) && final(self).finished(t) == old(
                    self,
                ).finished(t) && final(self).failed(t) == old(self).failed(t),
            forall|i: int| 0 <= i < launched@.len() ==> !old(self).started(#[trigger] launched@[i].task as int),
            forall|t: int| #[trigger] old(self).started(t) ==> final(self).started(t),
            final(self).finished_tasks() == old(self).finished_tasks(),
            final(self).running_count() == old(self).running_count() + launched@.len(),
            final(self).running_count() < final(self).concurrency() ==> forall|t: int|
                !#[trigger] final(self).queued(t),
            !final(self).complete() ==> final(self).running_count() > 0,
    {
        let mut launched: Vec<Launch> = Vec::new();
        let ghost start = *self;
        while self.running.len() < self.concurrency && self.todo.len() > 0
            invariant
                self.wf(),
                self.graph == start.graph,
                self.concurrency == start.concurrency,
                self.continue_on_fail == start.continue_on_fail,
                self.failed@ == start.failed@,
                self.waiting_on@ == start.waiting_on@,
                forall|i: int|
                    #![trigger launched@[i]]
                    0 <= i < launched@.len() ==> {
                        let t = launched@[i].task as int;
                        &&& start.queued(t)
                        &&& self.running(t)
                        &&& launched@[i].execute == !start.failed(t)
                    },
                forall|i: int, j: int|
                    0 <= i < j < launched@.len() ==> launched@[i].task != launched@[j].task,
                forall|t: int|
                    #[trigger] self.running(t) <==> (start.running(t) || exists|i: int|
                        0 <= i < launched@.len() && launched@[i].task == t),
                forall|t: int|
                    #[trigger] self.queued(t) <==> (start.queued(t) && !self.running(t)),
                forall|t: int|
                    #![trigger self.waiting(t)]
                    #![trigger self.finished(t)]
                    self.waiting(t) == start.waiting(t) && self.finished(t) == start.finished(t),
                self.running@.len() == start.running@.len() + launched@.len(),
            decreases self.todo@.len(),
        {
            let ghost before = *self;
            let t = match self.todo.pop() {
                Some(t) => t,
                None => {
                    return launched;
                }
            };
            proof {
                assert(before.todo@[before.todo@.len() - 1] == t);
                assert(before.queued(t as int));
                assert forall|i: int| 0 <= i < self.todo@.len() implies self.todo@[i] != t by {
                    assert(before.todo@[i] == self.todo@[i]);
                }
            }
            self.phase.set(t, Phase::Running);
            self.running.push(t);
            let execute = !self.failed[t];
            let ghost old_launched = launched@;
            launched.push(Launch { task: t, execute });
            proof {
                assert(launched@ == old_launched.push(Launch { task: t, execute }));
                assert(!before.waiting(t as int));
                assert(before.waiting_on@[t as int]@.len() == 0);
                assert forall|c: int|
                    0 <= c < self.phase@.len() implies (#[trigger] self.waiting(c) <==> self.waiting_on@[c]@.len() > 0) by {
                    assert(before.waiting(c) <==> before.waiting_on@[c]@.len() > 0);
                }
                assert forall|c: int, p: usize|
                    #![trigger self.waiting_on@[c]@.contains(p)]
                    0 <= c < self.phase@.len() && p < self.phase@.len() implies (self.waiting_on@[c]@.contains(p) <==> (
                    self.graph().depends(c, p as int) && !(self.finished(p as int) && Self::learned(c, p as int, -1, Seq::empty())))) by {
                    assert(before.waiting_on@[c]@.contains((p as int) as usize) <==> (
                    before.graph().depends(c, p as int) && !(before.finished(p as int) && Self::learned(c, p as int, -1, Seq::empty()))));
                }
                assert forall|i: int, j: int| 0 <= i < j < self.running@.len() implies self.running@[i]
                    != self.running@[j] by {
                    if j == self.running@.len() - 1 {
                        assert(before.running@.contains(self.running@[i]));
                    }
                }
                assert forall|i: int, j: int| 0 <= i < j < self.todo@.len() implies self.todo@[i]
                    != self.todo@[j] by {
                    assert(self.todo@[i] == before.todo@[i] && self.todo@[j] == before.todo@[j]);
                }
                assert forall|c: int|
                    0 <= c < self.phase@.len() && !self.finished(c) implies (#[trigger] self.failed(c)
                    <==> exists|p: int|
                    #![trigger self.graph().depends(c, p)]
                    self.graph().depends(c, p) && self.finished(p) && self.failed(p)
                        && Self::learned(c, p, -1, Seq::empty())) by {
                    assert(!before.finished(c));
                    assert(self.failed@ == before.failed@);
                    assert(self.graph() == before.graph());
                    assert(self.failed(c) == before.failed(c));
                    assert(before.failed(c) <==> exists|p: int|
                        #![trigger before.graph().depends(c, p)]
                        before.graph().depends(c, p) && before.finished(p) && before.failed(p)
                            && Self::learned(c, p, -1, Seq::empty()));
                    if before.failed(c) {
                        let p = choose|p: int|
                            #![trigger before.graph().depends(c, p)]
                            before.graph().depends(c, p) && before.finished(p) && before.failed(p)
                                && Self::learned(c, p, -1, Seq::empty());
                        assert(self.finished(p));
                        assert(self.failed(p));
                        assert(self.graph().depends(c, p));
                    }
                    if exists|p: int|
                        #![trigger self.graph().depends(c, p)]
                        self.graph().depends(c, p) && self.finished(p) && self.failed(p)
                            && Self::learned(c, p, -1, Seq::empty()) {
                        let p = choose|p: int|
                            #![trigger self.graph().depends(c, p)]
                            self.graph().depends(c, p) && self.finished(p) && self.failed(p)
                                && Self::learned(c, p, -1, Seq::empty());
                        assert(before.finished(p));
                    }
                }
                assert forall|c: int, p: int|
                    #![trigger self.graph().depends(c, p), self.failed(c)]
                    self.graph().depends(c, p) && self.finished(p) && self.failed(p)
                        && Self::learned(c, p, -1, Seq::empty()) implies self.failed(c) by {
                    assert(before.finished(p));
                    assert(before.graph().depends(c, p) && before.finished(p) && before.failed(p)
                        && Self::learned(c, p, -1, Seq::empty()) ==> before.failed(c));
                }
                assert(self.phase@ == before.phase@.update(t as int, Phase::Running));
                assert(self.running@ == before.running@.push(t));
                assert forall|c: int| #![trigger self.queued(c)] #![trigger self.running(c)] #![trigger self.waiting(c)] #![trigger self.finished(c)]
                    c != t as int implies (self.queued(c) == before.queued(c) && self.running(c) == before.running(c)
                    && self.waiting(c) == before.waiting(c) && self.finished(c) == before.finished(c)) by {
                    assert(self.in_range(c) == before.in_range(c));
                }
                assert(self.running(t as int) && !self.queued(t as int) && !self.waiting(t as int) && !self.finished(t as int));
                lemma_push_contains(before.running@, t, t);
                assert(!before.running@.contains(t));
                assert forall|c: int| #[trigger] self.queued(c) implies self.todo@.contains(c as usize) by {
                    assert(before.queued(c));
                    assert(before.todo@.contains(c as usize));
                    let j = choose|j: int| 0 <= j < before.todo@.len() && before.todo@[j] == c as usize;
                    assert(j != before.todo@.len() - 1);
                    assert(self.todo@[j] == c as usize);
                }
                assert forall|i: int| 0 <= i < self.todo@.len() implies self.queued(
                    #[trigger] self.todo@[i] as int,
                ) by {
                    assert(before.todo@[i] == self.todo@[i]);
                }
                assert forall|c: int| #[trigger] self.running(c) implies self.running@.contains(c as usize) by {
                    lemma_push_contains(before.running@, t, c as usize);
                    if c != t as int {
                        assert(before.running(c));
                        assert(before.running@.contains(c as usize));
                    }
                }
                assert forall|i: int| 0 <= i < self.running@.len() implies self.running(
                    #[trigger] self.running@[i] as int,
                ) by {
                    if i < before.running@.len() {
                        assert(before.running@[i] == self.running@[i]);
                    }
                }
                assert forall|c: int| #[trigger] self.running(c) <==> (start.running(c) || exists|i: int|
                    0 <= i < launched@.len() && launched@[i].task == c) by {
                    if c == t as int {
                        assert(launched@[launched@.len() - 1].task == t);
                    } else {
                        if exists|i: int| 0 <= i < launched@.len() && launched@[i].task == c {
                            let i = choose|i: int| 0 <= i < launched@.len() && launched@[i].task == c;
                            assert(i < launched@.len() - 1);
                            assert(old_launched[i].task == c);
                        }
                        if exists|i: int| 0 <= i < old_launched.len() && old_launched[i].task == c {
                            let i = choose|i: int| 0 <= i < old_launched.len() && old_launched[i].task == c;
                            assert(launched@[i].task == c);
                        }
                    }
                }
                assert forall|c: int, p: int|
                    0 <= c < self.phase@.len() && 0 <= p < self.phase@.len() implies (
                    self.waiting_on@[c]@.contains(p as usize) <==> (self.graph().depends(c, p)
                        && !self.finished(p))) by {
                    assert(before.waiting_on@[c]@.contains(p as usize) <==> (before.graph().depends(c, p)
                        && !before.finished(p)));
                }
            }
        }
        proof {
            assert forall|i: int|
                #![trigger launched@[i]]
                0 <= i < launched@.len() implies (launched@[i].execute <==> forall|p: int|
                #[trigger] start.graph().depends(launched@[i].task as int, p) ==> !start.failed(p)) by {
                let t = launched@[i].task as int;
                assert(!start.waiting(t));
                assert(start.waiting_on@[t]@.len() == 0);
                if launched@[i].execute {
                    assert forall|p: int| #[trigger] start.graph().depends(t, p) implies !start.failed(p) by {
                        if start.failed(p) {
                            assert(!start.waiting_on@[t]@.contains(p as usize));
                        }
                    }
                } else {
                    let p = choose|p: int|
                        start.graph().depends(t, p) && start.finished(p) && start.failed(p)
                            && Self::learned(t, p, -1, Seq::empty());
                }
            }
            if self.running@.len() == 0 {
                assert forall|t: int| !#[trigger] self.queued(t) by {
                    if self.queued(t) {
                        assert(self.todo@.contains(t as usize));
                    }
                }
            }
            if self.running@.len() < self.concurrency {
                assert forall|t: int| !#[trigger] self.queued(t) by {
                    if self.queued(t) {
                        assert(self.todo@.contains(t as usize));
                    }
                }
            }
            assert(self.finished_tasks() =~= start.finished_tasks());
            if !self.complete() {
                let t = choose|t: int| !(!#[trigger] self.queued(t) && !self.running(t));
                if self.running(t) {
                    assert(self.running@.contains(t as usize));
                }
            }
        }
        launched
    }

    /// Marking a running task finished keeps the run consistent, while none
    /// of its dependents has been told yet.
    proof fn lemma_mark_finished(pre: Self, post: Self, task: int, failed_now: bool)
        requires
            pre.wf(),
            pre.running(task),
            pre.failed(task) ==> failed_now,
            post.graph == pre.graph,
            post.waiting_on == pre.waiting_on,
            post.todo == pre.todo,
            post.concurrency == pre.concurrency,
            post.phase@ == pre.phase@.update(task, Phase::Finished),
            post.failed@ == pre.failed@.update(task, failed_now),
            post.running@.no_duplicates(),
            post.running@.len() == pre.running@.len() - 1,
            forall|y: usize| #[trigger]
                post.running@.contains(y) <==> (pre.running@.contains(y) && y != task),
            forall|j: int|
                0 <= j < post.running@.len() ==> pre.running@.contains(#[trigger] post.running@[j]),
        ensures
            post.consistent(task, Seq::empty()),
    {
        let n = pre.graph().task_count();
        let told = Seq::<usize>::empty();
        assert forall|c: int| #![trigger post.phase@[c]] 0 <= c < n && c != task implies post.phase@[c] == pre.phase@[c] by {}
        assert forall|c: int|
            #![trigger post.queued(c)]
            #![trigger post.running(c)]
            #![trigger post.waiting(c)]
            #![trigger post.finished(c)]
            c != task implies (post.queued(c) == pre.queued(c) && post.running(c) == pre.running(
                c,
            ) && post.waiting(c) == pre.waiting(c) && post.finished(c) == pre.finished(c)) by {
            assert(post.in_range(c) == pre.in_range(c));
        }
        assert(post.finished(task) && !post.running(task) && !post.waiting(task) && !post.queued(task));
        assert(!pre.waiting(task));
        assert forall|c: int, p: int|
            #![trigger post.waiting_on@[c]@.contains(p as usize)]
            0 <= c < n && 0 <= p < n implies (post.waiting_on@[c]@.contains(p as usize) <==> (
            post.graph().depends(c, p) && !(post.finished(p) && Self::learned(c, p, task, told)))) by {
            assert(pre.waiting_on@[c]@.contains(p as usize) <==> (pre.graph().depends(c, p) && !(
            pre.finished(p) && Self::learned(c, p, -1, Seq::empty()))));
        }
        assert forall|c: int| 0 <= c < n implies (#[trigger] post.waiting(c) <==> post.waiting_on@[c]@.len() > 0) by {
            assert(pre.waiting(c) <==> pre.waiting_on@[c]@.len() > 0);
        }
        assert forall|i: int| 0 <= i < post.todo@.len() implies post.queued(#[trigger] post.todo@[i] as int) by {
            assert(pre.queued(pre.todo@[i] as int));
        }
        assert forall|c: int| #[trigger] post.queued(c) implies post.todo@.contains(c as usize) by {
            assert(pre.queued(c));
        }
        assert forall|i: int| 0 <= i < post.running@.len() implies post.running(#[trigger] post.running@[i] as int) by {
            let y = post.running@[i];
            assert(post.running@.contains(y));
            assert(pre.running@.contains(y));
            let k = choose|k: int| 0 <= k < pre.running@.len() && pre.running@[k] == y;
            assert(pre.running(pre.running@[k] as int));
        }
        assert forall|c: int| #[trigger] post.running(c) implies post.running@.contains(c as usize) by {
            assert(pre.running(c));
            assert(pre.running@.contains(c as usize));
        }
        assert forall|c: int|
            0 <= c < n && !post.finished(c) implies (#[trigger] post.failed(c) <==> exists|p: int|
            #![trigger post.graph().depends(c, p)]
            post.graph().depends(c, p) && post.finished(p) && post.failed(p) && Self::learned(
                c,
                p,
                task,
                told,
            )) by {
            assert(c != task);
            assert(!pre.finished(c));
            assert(post.failed(c) == pre.failed(c));
            assert(pre.failed(c) <==> exists|p: int|
                #![trigger pre.graph().depends(c, p)]
                pre.graph().depends(c, p) && pre.finished(p) && pre.failed(p) && Self::learned(
                    c,
                    p,
                    -1,
                    Seq::empty(),
                ));
            if pre.failed(c) {
                let p = choose|p: int|
                    #![trigger pre.graph().depends(c, p)]
                    pre.graph().depends(c, p) && pre.finished(p) && pre.failed(p) && Self::learned(
                        c,
                        p,
                        -1,
                        Seq::empty(),
                    );
                assert(p != task);
                assert(post.finished(p) && post.failed(p));
                assert(post.graph().depends(c, p));
            }
            if exists|p: int|
                #![trigger post.graph().depends(c, p)]
                post.graph().depends(c, p) && post.finished(p) && post.failed(p) && Self::learned(
                    c,
                    p,
                    task,
                    told,
                ) {
                let p = choose|p: int|
                    #![trigger post.graph().depends(c, p)]
                    post.graph().depends(c, p) && post.finished(p) && post.failed(p)
                        && Self::learned(c, p, task, told);
                assert(p != task);
                assert(pre.finished(p) && pre.failed(p));
            }
        }
        assert forall|c: int, p: int|
            #![trigger post.graph().depends(c, p), post.failed(c)]
            post.graph().depends(c, p) && post.finished(p) && post.failed(p) && Self::learned(
                c,
                p,
                task,
                told,
            ) implies post.failed(c) by {
            assert(p != task);
            assert(pre.finished(p) && pre.failed(p));
            assert(pre.graph().depends(c, p) && pre.finished(p) && pre.failed(p) && Self::learned(
                c,
                p,
                -1,
                Seq::empty(),
            ) ==> pre.failed(c));
        }
    }

    /// Telling one more dependent `c` that `task` finished keeps the run
    /// consistent: `task` leaves what `c` waits on, `c` takes over a failure
    /// of `task`, and `c` is queued once it waits on nothing.
    proof fn lemma_tell_dependent(
        pre: Self,
        post: Self,
        task: int,
        told: Seq<usize>,
        c: usize,
        emptied: bool,
    )
        requires
            pre.consistent(task, told),
            pre.finished(task),
            pre.graph().depends(c as int, task),
            !told.contains(c),
            pre.waiting(c as int),
            post.graph == pre.graph,
            post.running == pre.running,
            post.concurrency == pre.concurrency,
            post.failed@ == (if pre.failed(task) {
                pre.failed@.update(c as int, true)
            } else {
                pre.failed@
            }),
            post.waiting_on@.len() == pre.waiting_on@.len(),
            forall|x: int|
                #![trigger post.waiting_on@[x]]
                0 <= x < pre.waiting_on@.len() && x != c ==> post.waiting_on@[x] == pre.waiting_on@[x],
            post.waiting_on@[c as int]@.no_duplicates(),
            forall|y: usize| #[trigger]
                post.waiting_on@[c as int]@.contains(y) <==> (pre.waiting_on@[c as int]@.contains(y)
                    && y != task),
            forall|j: int|
                0 <= j < post.waiting_on@[c as int]@.len() ==> pre.waiting_on@[c as int]@.contains(
                    #[trigger] post.waiting_on@[c as int]@[j],
                ),
            emptied == (post.waiting_on@[c as int]@.len() == 0),
            post.phase@ == (if emptied {
                pre.phase@.update(c as int, Phase::Queued)
            } else {
                pre.phase@
            }),
            post.todo@ == (if emptied {
                pre.todo@.push(c)
            } else {
                pre.todo@
            }),
        ensures
            post.consistent(task, told.push(c)),
    {
        let n = pre.graph().task_count();
        let told2 = told.push(c);
        let ci = c as int;
        assert forall|x: usize| #[trigger] told2.contains(x) <==> (told.contains(x) || x == c) by {
            lemma_push_contains(told, c, x);
        }
        assert forall|x: int, p: int|
            #![trigger Self::learned(x, p, task, told2)]
            0 <= x < n implies (Self::learned(x, p, task, told2) <==> (Self::learned(x, p, task, told)
                || (p == task && x == ci))) by {
            assert(told2.contains(x as usize) <==> (told.contains(x as usize) || x as usize == c));
        }
        assert(ci != task);
        assert forall|x: int|
            #![trigger post.queued(x)]
            #![trigger post.running(x)]
            #![trigger post.waiting(x)]
            #![trigger post.finished(x)]
            #![trigger post.failed(x)]
            x != ci implies (post.queued(x) == pre.queued(x) && post.running(x) == pre.running(x)
                && post.waiting(x) == pre.waiting(x) && post.finished(x) == pre.finished(x)
                && post.failed(x) == pre.failed(x)) by {
            assert(post.in_range(x) == pre.in_range(x));
        }
        assert(post.finished(ci) == false && post.running(ci) == false);
        assert(post.failed(ci) == (pre.failed(ci) || pre.failed(task)));
        assert(post.waiting(ci) == !emptied);
        assert(post.queued(ci) == emptied);
        assert(!pre.queued(ci));
        assert(!pre.todo@.contains(c));
        // what each task waits on
        assert forall|x: int, p: int|
            #![trigger post.waiting_on@[x]@.contains(p as usize)]
            0 <= x < n && 0 <= p < n implies (post.waiting_on@[x]@.contains(p as usize) <==> (
            post.graph().depends(x, p) && !(post.finished(p) && Self::learned(x, p, task, told2)))) by {
            assert(pre.waiting_on@[x]@.contains(p as usize) <==> (pre.graph().depends(x, p) && !(
            pre.finished(p) && Self::learned(x, p, task, told))));
            assert(post.finished(p) == pre.finished(p));
            assert(Self::learned(x, p, task, told2) <==> (Self::learned(x, p, task, told) || (p
                == task && x == ci)));
        }
        assert forall|x: int, j: int|
            0 <= x < n && 0 <= j < post.waiting_on@[x]@.len() implies (
            #[trigger] post.waiting_on@[x]@[j]) < n by {
            if x == ci {
                let y = post.waiting_on@[x]@[j];
                assert(pre.waiting_on@[x]@.contains(y));
                let k = choose|k: int| 0 <= k < pre.waiting_on@[x]@.len() && pre.waiting_on@[x]@[k] == y;
                assert(pre.waiting_on@[x]@[k] < n);
            } else {
                assert(pre.waiting_on@[x]@[j] < n);
            }
        }
        assert forall|x: int| 0 <= x < n implies (#[trigger] post.waiting_on@[x])@.no_duplicates() by {
            if x != ci {
                assert(pre.waiting_on@[x]@.no_duplicates());
            }
        }
        assert forall|x: int| 0 <= x < n implies (#[trigger] post.waiting(x) <==> post.waiting_on@[x]@.len() > 0) by {
            assert(pre.waiting(x) <==> pre.waiting_on@[x]@.len() > 0);
        }
        // the queue
        assert forall|i: int, j: int| 0 <= i < j < post.todo@.len() implies post.todo@[i] != post.todo@[j] by {
            if emptied && j == post.todo@.len() - 1 {
                assert(pre.todo@.contains(post.todo@[i]));
            } else {
                assert(post.todo@[i] == pre.todo@[i] && post.todo@[j] == pre.todo@[j]);
            }
        }
        assert forall|i: int| 0 <= i < post.todo@.len() implies post.queued(#[trigger] post.todo@[i] as int) by {
            if !(emptied && i == post.todo@.len() - 1) {
                assert(post.todo@[i] == pre.todo@[i]);
                assert(pre.queued(pre.todo@[i] as int));
            }
        }
        assert forall|x: int| #[trigger] post.queued(x) implies post.todo@.contains(x as usize) by {
            if x != ci {
                assert(pre.queued(x));
                assert(pre.todo@.contains(x as usize));
                if emptied {
                    lemma_push_contains(pre.todo@, c, x as usize);
                }
            } else {
                lemma_push_contains(pre.todo@, c, c);
            }
        }
        // the running tasks
        assert forall|i: int| 0 <= i < post.running@.len() implies post.running(#[trigger] post.running@[i] as int) by {
            assert(pre.running(pre.running@[i] as int));
        }
        assert forall|x: int| #[trigger] post.running(x) implies post.running@.contains(x as usize) by {
            assert(pre.running(x));
        }
        // failures
        assert forall|x: int|
            0 <= x < n && !post.finished(x) implies (#[trigger] post.failed(x) <==> exists|p: int|
            #![trigger post.graph().depends(x, p)]
            post.graph().depends(x, p) && post.finished(p) && post.failed(p) && Self::learned(
                x,
                p,
                task,
                told2,
            )) by {
            assert(!pre.finished(x));
            assert(pre.failed(x) <==> exists|p: int|
                #![trigger pre.graph().depends(x, p)]
                pre.graph().depends(x, p) && pre.finished(p) && pre.failed(p) && Self::learned(
                    x,
                    p,
                    task,
                    told,
                ));
            if pre.failed(x) {
                let p = choose|p: int|
                    #![trigger pre.graph().depends(x, p)]
                    pre.graph().depends(x, p) && pre.finished(p) && pre.failed(p) && Self::learned(
                        x,
                        p,
                        task,
                        told,
                    );
                assert(p != ci);
                assert(post.finished(p) && post.failed(p));
                assert(Self::learned(x, p, task, told2));
                assert(post.graph().depends(x, p));
            }
            if x == ci && pre.failed(task) {
                assert(post.failed(task));
                assert(Self::learned(x, task, task, told2));
                assert(post.graph().depends(x, task));
            }
            if exists|p: int|
                #![trigger post.graph().depends(x, p)]
                post.graph().depends(x, p) && post.finished(p) && post.failed(p) && Self::learned(
                    x,
                    p,
                    task,
                    told2,
                ) {
                let p = choose|p: int|
                    #![trigger post.graph().depends(x, p)]
                    post.graph().depends(x, p) && post.finished(p) && post.failed(p)
                        && Self::learned(x, p, task, told2);
                assert(p != ci);
                assert(pre.finished(p) && pre.failed(p));
                if !(p == task && x == ci) {
                    assert(Self::learned(x, p, task, told));
                }
            }
        }
        assert forall|x: int, p: int|
            #![trigger post.graph().depends(x, p), post.failed(x)]
            post.graph().depends(x, p) && post.finished(p) && post.failed(p) && Self::learned(
                x,
                p,
                task,
                told2,
            ) implies post.failed(x) by {
            assert(p != ci);
            assert(pre.finished(p) && pre.failed(p));
            if !(p == task && x == ci) {
                assert(Self::learned(x, p, task, told));
                assert(pre.graph().depends(x, p) && pre.finished(p) && pre.failed(p)
                    && Self::learned(x, p, task, told) ==> pre.failed(x));
            }
        }
    }

    /// Once every dependent of `task` has been told, the run is consistent
    /// again.
    proof fn lemma_all_told(s: Self, task: int, told: Seq<usize>)
        requires
            s.consistent(task, told),
            forall|x: int| #[trigger] s.graph().depends(x, task) ==> told.contains(x as usize),
        ensures
            s.wf(),
    {
        let n = s.graph().task_count();
        let e = Seq::<usize>::empty();
        assert forall|x: int, p: int|
            #![trigger Self::learned(x, p, task, told)]
            s.graph().depends(x, p) implies Self::learned(x, p, task, told) && Self::learned(x, p, -1, e) by {
            if p == task {
                assert(told.contains(x as usize));
            }
        }
        assert forall|c: int, p: int|
            #![trigger s.waiting_on@[c]@.contains(p as usize)]
            0 <= c < n && 0 <= p < n implies (s.waiting_on@[c]@.contains(p as usize) <==> (
            s.graph().depends(c, p) && !(s.finished(p) && Self::learned(c, p, -1, e)))) by {
            if s.graph().depends(c, p) {
                assert(Self::learned(c, p, task, told));
            }
        }
        assert forall|c: int|
            0 <= c < n && !s.finished(c) implies (#[trigger] s.failed(c) <==> exists|p: int|
            #![trigger s.graph().depends(c, p)]
            s.graph().depends(c, p) && s.finished(p) && s.failed(p) && Self::learned(c, p, -1, e)) by {
            if s.failed(c) {
                let p = choose|p: int|
                    #![trigger s.graph().depends(c, p)]
                    s.graph().depends(c, p) && s.finished(p) && s.failed(p) && Self::learned(
                        c,
                        p,
                        task,
                        told,
                    );
                assert(Self::learned(c, p, -1, e));
            }
            if exists|p: int|
                #![trigger s.graph().depends(c, p)]
                s.graph().depends(c, p) && s.finished(p) && s.failed(p) && Self::learned(c, p, -1, e) {
                let p = choose|p: int|
                    #![trigger s.graph().depends(c, p)]
                    s.graph().depends(c, p) && s.finished(p) && s.failed(p) && Self::learned(c, p, -1, e);
                assert(Self::learned(c, p, task, told));
            }
        }
        assert forall|c: int, p: int|
            #![trigger s.graph().depends(c, p), s.failed(c)]
            s.graph().depends(c, p) && s.finished(p) && s.failed(p) && Self::learned(c, p, -1, e)
                implies s.failed(c) by {
            assert(Self::learned(c, p, task, told));
        }
    }

    /// Records that the running `task` is over; `succeeded` says whether its
    /// execution went well (it is not looked at when the task was not
    /// executed because a dependency failed: such a task stays failed).
    ///
    /// A failed task makes each of its dependents failed. A dependent
    /// waiting on nothing any more is queued. When the task failed and the
    /// run does not continue past failures, `Err` comes back and the
    /// schedule is left as it was.
    pub fn finish(&mut self, task: usize, succeeded: bool) -> (outcome: Result<(), TaskFailed>)
        requires
            old(self).wf(),
            old(self).running(task as int),
        ensures
            final(self).graph() == old(self).graph(),
            final(self).concurrency() == old(self).concurrency(),
            final(self).continue_on_fail() == old(self).continue_on_fail(),
            outcome is Err <==> ((old(self).failed(task as int) || !succeeded)
                && !old(self).continue_on_fail()),
            outcome matches Err(e) ==> e.task == task && *final(self) == *old(self),
            outcome is Ok ==> {
                let failed_now = old(self).failed(task as int) || !succeeded;
                &&& final(self).wf()
                &&& final(self).failed(task as int) == failed_now
                &&& final(self).running_count() == old(self).running_count() - 1
                &&& !old(self).finished_tasks().contains(task as int)
                &&& final(self).finished_tasks() == old(self).finished_tasks().insert(task as int)
                &&& forall|t: int| #[trigger] old(self).started(t) ==> final(self).started(t)
                &&& forall|t: int|
                    #[trigger] final(self).finished(t) <==> (old(self).finished(t) || t == task)
                &&& forall|t: int|
                    #[trigger] final(self).running(t) <==> (old(self).running(t) && t != task)
                &&& forall|t: int|
                    #[trigger] final(self).queued(t) <==> (old(self).queued(t) || (old(self).waiting(
                        t,
                    ) && forall|p: int|
                        #[trigger] old(self).graph().depends(t, p) ==> final(self).finished(p)))
                &&& forall|t: int|
                    #[trigger] final(self).waiting(t) <==> (old(self).waiting(t) && exists|p: int|
                        #[trigger] old(self).graph().depends(t, p) && !final(self).finished(p))
                &&& forall|t: int|
                    t != task ==> (#[trigger] final(self).failed(t) <==> (old(self).failed(t) || (
                    failed_now && old(self).graph().depends(t, task as int))))
            },
    {
        let failed_now = self.failed[task] || !succeeded;
        if failed_now && !self.continue_on_fail {
            return Err(TaskFailed { task });
        }
        let ghost start = *self;
        let ghost ti = task as int;
        proof {
            assert(start.running@.contains(task));
        }
        remove_value(&mut self.running, task);
        self.phase.set(task, Phase::Finished);
        self.failed.set(task, failed_now);
        proof {
            Self::lemma_mark_finished(start, *self, ti, failed_now);
        }
        let ghost mid = *self;
        let graph = self.graph;
        proof {
            use_type_invariant(graph);
        }
        let dependents = &graph.depended_on_by[task];
        let ghost n = start.graph().task_count();
        proof {
            assert(dependents@.no_duplicates());
            assert forall|x: int| 0 <= x < n implies (#[trigger] start.graph().depends(x, ti)
                <==> dependents@.contains(x as usize)) by {
                assert(graph.depends_on@[x]@.contains(task) <==> graph.depended_on_by@[ti]@.contains(
                    x as usize,
                ));
            }
        }
        let mut j: usize = 0;
        while j < dependents.len()
            invariant
                start.wf(),
                start.running(ti),
                ti == task as int,
                n == start.graph().task_count(),
                *graph == start.graph(),
                dependents@ == graph.depended_on_by@[ti]@,
                dependents@.no_duplicates(),
                forall|i: int| 0 <= i < dependents@.len() ==> (#[trigger] dependents@[i]) < n,
                forall|x: int| 0 <= x < n ==> (#[trigger] start.graph().depends(x, ti)
                    <==> dependents@.contains(x as usize)),
                j <= dependents@.len(),
                self.consistent(ti, dependents@.subrange(0, j as int)),
                self.graph == start.graph,
                self.concurrency == start.concurrency,
                self.continue_on_fail == start.continue_on_fail,
                self.running == mid.running,
                self.finished(ti),
                self.failed(ti) == failed_now,
                forall|x: int|
                    #![trigger self.phase@[x]]
                    0 <= x < n && x != ti ==> (self.phase@[x] == start.phase@[x] || (
                    start.phase@[x] is Waiting && self.phase@[x] is Queued)),
                forall|x: int|
                    #![trigger self.failed@[x]]
                    0 <= x < n && x != ti ==> self.failed@[x] == (start.failed@[x] || (failed_now
                        && dependents@.subrange(0, j as int).contains(x as usize))),
            decreases dependents@.len() - j,
        {
            let c = dependents[j];
            let ghost pre = *self;
            let ghost told = dependents@.subrange(0, j as int);
            proof {
                assert(start.graph().depends(c as int, ti));
                if told.contains(c) {
                    let k = choose|k: int| 0 <= k < told.len() && told[k] == c;
                    assert(dependents@[k] == dependents@[j as int]);
                }
                assert(pre.waiting_on@[c as int]@.contains(ti as usize));
                assert(pre.waiting(c as int));
                assert(c as int != ti);
            }
            if failed_now {
                self.failed.set(c, true);
            }
            let mut list = self.waiting_on[c].clone();
            assert(list@ =~= pre.waiting_on@[c as int]@);
            assert(list@.no_duplicates());
            remove_value(&mut list, task);
            let emptied = list.len() == 0;
            self.waiting_on.set(c, list);
            if emptied {
                self.phase.set(c, Phase::Queued);
                self.todo.push(c);
            }
            proof {
                Self::lemma_tell_dependent(pre, *self, ti, told, c, emptied);
                let told2 = dependents@.subrange(0, j + 1);
                assert(told2 =~= told.push(c));
                assert forall|x: int|
                    0 <= x < n && x != ti implies #[trigger] self.failed@[x] == (start.failed@[x] || (
                    failed_now && told2.contains(x as usize))) by {
                    lemma_push_contains(told, c, x as usize);
                }
            }
            j = j + 1;
        }
        proof {
            let told = dependents@.subrange(0, j as int);
            assert(told =~= dependents@);
            Self::lemma_all_told(*self, ti, told);
            let fin = *self;
            assert forall|t: int|
                #![trigger fin.finished(t)]
                #![trigger fin.running(t)]
                #![trigger fin.queued(t)]
                #![trigger fin.waiting(t)]
                0 <= t < n && t != ti implies (fin.finished(t) == start.finished(t) && fin.running(t)
                == start.running(t) && (fin.queued(t) <==> (start.queued(t) || (start.waiting(t)
                && fin.queued(t)))) && (fin.waiting(t) ==> start.waiting(t))) by {
                assert(fin.phase@[t] == start.phase@[t] || (start.phase@[t] is Waiting
                    && fin.phase@[t] is Queued));
            }
            assert forall|t: int|
                #[trigger] fin.queued(t) <==> (start.queued(t) || (start.waiting(t) && forall|p: int|
                    #[trigger] start.graph().depends(t, p) ==> fin.finished(p))) by {
                if 0 <= t < n && t != ti && start.waiting(t) {
                    assert(fin.waiting(t) || fin.queued(t));
                    assert(fin.waiting(t) <==> fin.waiting_on@[t]@.len() > 0);
                    if fin.waiting(t) {
                        let p = fin.waiting_on@[t]@[0];
                        assert(p < n);
                        assert(fin.waiting_on@[t]@.contains(p));
                        assert(fin.waiting_on@[t]@.contains((p as int) as usize));
                        assert(start.graph().depends(t, p as int) && !fin.finished(p as int));
                    } else {
                        assert forall|p: int| #[trigger] start.graph().depends(t, p) implies fin.finished(p) by {
                            if !fin.finished(p) {
                                assert(fin.waiting_on@[t]@.contains(p as usize));
                            }
                        }
                    }
                }
            }
            assert forall|t: int|
                #[trigger] fin.waiting(t) <==> (start.waiting(t) && exists|p: int|
                    #[trigger] start.graph().depends(t, p) && !fin.finished(p)) by {
                if 0 <= t < n && t != ti && start.waiting(t) {
                    assert(fin.waiting(t) <==> fin.waiting_on@[t]@.len() > 0);
                    if fin.waiting(t) {
                        let p = fin.waiting_on@[t]@[0];
                        assert(fin.waiting_on@[t]@.contains(p));
                        assert(fin.waiting_on@[t]@.contains((p as int) as usize));
                        assert(start.graph().depends(t, p as int) && !fin.finished(p as int));
                    } else {
                        if exists|p: int| #[trigger] start.graph().depends(t, p) && !fin.finished(p) {
                            let p = choose|p: int| #[trigger] start.graph().depends(t, p) && !fin.finished(p);
                            assert(fin.waiting_on@[t]@.contains(p as usize));
                        }
                    }
                }
                if t == ti {
                    assert(!start.waiting(t));
                }
            }
            assert forall|t: int|
                t != ti implies (#[trigger] fin.failed(t) <==> (start.failed(t) || (failed_now
                && start.graph().depends(t, ti)))) by {
                if 0 <= t < n {
                    assert(fin.failed@[t] == (start.failed@[t] || (failed_now && told.contains(t as usize))));
                }
            }
            assert(fin.running_count() == start.running_count() - 1);
            assert(fin.finished_tasks() =~= start.finished_tasks().insert(ti));
        }
        Ok(())
    }

    /// Whether the run is over: nothing is queued and nothing runs.
    pub fn is_complete(&self) -> (done: bool)
        requires
            self.wf(),
        ensures
            done == self.complete(),
    {
        let done = self.todo.len() == 0 && self.running.len() == 0;
        proof {
            assert(done == (self.todo@.len() == 0 && self.running@.len() == 0));
            if done {
                assert forall|t: int| !#[trigger] self.queued(t) && !self.running(t) by {
                    if self.queued(t) {
                        assert(self.todo@.contains(t as usize));
                    }
                    if self.running(t) {
                        assert(self.running@.contains(t as usize));
                    }
                }
            } else if self.todo@.len() > 0 {
                let t = self.todo@[0] as int;
                assert(self.queued(t));
                assert(!(!self.queued(t) && !self.running(t)));
                assert(!self.complete());
            } else {
                let t = self.running@[0] as int;
                assert(self.running(t));
                assert(!(!self.queued(t) && !self.running(t)));
                assert(!self.complete());
            }
            assert(done ==> self.complete());
            assert(!done ==> !self.complete());
        }
        done
    }

    /// Each task of the graph is in exactly one of the four phases, and
    /// nothing else is in any.
    pub proof fn lemma_one_phase(s: Self, t: int)
        requires
            s.wf(),
        ensures
            0 <= t < s.graph().task_count() ==> (s.waiting(t) || s.queued(t) || s.running(t)
                || s.finished(t)),
            !(s.waiting(t) && s.queued(t)),
            !(s.waiting(t) && s.running(t)),
            !(s.waiting(t) && s.finished(t)),
            !(s.queued(t) && s.running(t)),
            !(s.queued(t) && s.finished(t)),
            !(s.running(t) && s.finished(t)),
            s.waiting(t) || s.queued(t) || s.running(t) || s.finished(t) ==> 0 <= t
                < s.graph().task_count(),
    {
    }

    /// A task that is queued, running or finished has seen every task it
    /// depends on finish first.
    pub proof fn lemma_started_after_dependencies(s: Self, t: int, p: int)
        requires
            s.wf(),
            s.queued(t) || s.running(t) || s.finished(t),
            s.graph().depends(t, p),
        ensures
            s.finished(p),
    {
        assert(!s.waiting(t));
        assert(s.waiting_on@[t]@.len() == 0);
        if !s.finished(p) {
            assert(s.waiting_on@[t]@.contains(p as usize));
        }
    }

    /// A task that has not finished is failed exactly when a task it
    /// depends on has finished failed.
    pub proof fn lemma_failed_iff_dependency_failed(s: Self, t: int)
        requires
            s.wf(),
            0 <= t < s.graph().task_count(),
            !s.finished(t),
        ensures
            s.failed(t) <==> exists|p: int|
                #[trigger] s.graph().depends(t, p) && s.finished(p) && s.failed(p),
    {
        let e = Seq::<usize>::empty();
        if s.failed(t) {
            let p = choose|p: int|
                #![trigger s.graph().depends(t, p)]
                s.graph().depends(t, p) && s.finished(p) && s.failed(p) && Self::learned(t, p, -1, e);
        }
        if exists|p: int| #[trigger] s.graph().depends(t, p) && s.finished(p) && s.failed(p) {
            let p = choose|p: int| #[trigger] s.graph().depends(t, p) && s.finished(p) && s.failed(p);
            assert(Self::learned(t, p, -1, e));
        }
    }

    /// A task depending on a task that finished failed is failed too.
    pub proof fn lemma_failure_spreads(s: Self, t: int, p: int)
        requires
            s.wf(),
            s.graph().depends(t, p),
            s.finished(p),
            s.failed(p),
        ensures
            s.failed(t),
    {
        assert(Self::learned(t, p, -1, Seq::empty()));
    }

    /// No more tasks run at a time than the concurrency allows, and the
    /// running count is the number of running tasks.
    pub proof fn lemma_within_concurrency(s: Self)
        requires
            s.wf(),
        ensures
            s.running_tasks().finite(),
            s.running_tasks().len() == s.running_count(),
            s.running_count() <= s.concurrency(),
            s.concurrency() > 0,
    {
        let ints = s.running@.map_values(|x: usize| x as int);
        assert forall|i: int, j: int| 0 <= i < ints.len() && 0 <= j < ints.len() && i != j implies ints[i] != ints[j] by {
            assert(s.running@[i] != s.running@[j]);
        }
        assert(ints.no_duplicates());
        ints.unique_seq_to_set();
        vstd::seq_lib::seq_to_set_is_finite(ints);
        assert forall|t: int| #[trigger] s.running_tasks().contains(t) <==> ints.to_set().contains(t) by {
            if s.running(t) {
                assert(s.running@.contains(t as usize));
                let k = choose|k: int| 0 <= k < s.running@.len() && s.running@[k] == t as usize;
                assert(ints[k] == t);
            }
            if ints.to_set().contains(t) {
                let k = choose|k: int| 0 <= k < ints.len() && ints[k] == t;
                assert(s.running(s.running@[k] as int));
            }
        }
        assert(s.running_tasks() =~= ints.to_set());
    }

    /// Only tasks of the graph finish, so the finished tasks never outnumber
    /// them: as each report adds one finished task, a run ends after at most
    /// as many reports as the graph has tasks.
    pub proof fn lemma_finished_tasks_bounded(s: Self)
        requires
            s.wf(),
        ensures
            s.finished_tasks().finite(),
            s.finished_tasks().len() <= s.graph().task_count(),
    {
        let n = s.graph().task_count();
        let all = vstd::set_lib::set_int_range(0, n as int);
        vstd::set_lib::lemma_int_range(0, n as int);
        assert(s.finished_tasks().subset_of(all));
        vstd::set_lib::lemma_len_subset(s.finished_tasks(), all);
    }

    /// When a run is over, every task that did not finish depends on a task
    /// that did not finish either: it was never started.
    pub proof fn lemma_complete_unfinished_blocked(s: Self, t: int)
        requires
            s.wf(),
            s.complete(),
            0 <= t < s.graph().task_count(),
            !s.finished(t),
        ensures
            s.waiting(t),
            exists|p: int| #[trigger] s.graph().depends(t, p) && !s.finished(p),
    {
        assert(!s.queued(t) && !s.running(t));
        assert(s.waiting(t));
        assert(s.waiting_on@[t]@.len() > 0);
        let p = s.waiting_on@[t]@[0];
        assert(s.waiting_on@[t]@.contains(p));
        assert(s.waiting_on@[t]@.contains((p as int) as usize));
        assert(s.graph().depends(t, p as int) && !s.finished(p as int));
    }

    /// When a run over a graph without cycles is over, every task has
    /// finished. A graph is without cycles when some ranking of the tasks
    /// puts every dependency below the task depending on it.
    pub proof fn lemma_complete_acyclic_all_finished(s: Self, rank: spec_fn(int) -> nat)
        requires
            s.wf(),
            s.complete(),
            forall|t: int, p: int| #[trigger] s.graph().depends(t, p) ==> rank(p) < rank(t),
        ensures
            forall|t: int| 0 <= t < s.graph().task_count() ==> #[trigger] s.finished(t),
    {
        assert forall|t: int| 0 <= t < s.graph().task_count() implies #[trigger] s.finished(t) by {
            Self::lemma_ranked_finished(s, rank, rank(t), t);
        }
    }

    proof fn lemma_ranked_finished(s: Self, rank: spec_fn(int) -> nat, k: nat, t: int)
        requires
            s.wf(),
            s.complete(),
            forall|t: int, p: int| #[trigger] s.graph().depends(t, p) ==> rank(p) < rank(t),
            0 <= t < s.graph().task_count(),
            rank(t) <= k,
        ensures
            s.finished(t),
        decreases k,
    {
        if !s.finished(t) {
            Self::lemma_complete_unfinished_blocked(s, t);
            let p = choose|p: int| #[trigger] s.graph().depends(t, p) && !s.finished(p);
            assert(rank(p) < rank(t));
            assert(k > 0);
            Self::lemma_ranked_finished(s, rank, (k - 1) as nat, p);
        }
    }
}

} // verus!
