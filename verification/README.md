# graph_executor

Runs tasks that depend on one another: a task starts only once every task it
depends on has finished, at most a given number of tasks run at the same
time, and a task whose dependency failed is marked failed and skipped, so that
the failure reaches everything downstream of it.

- `src/` is the verified library. `DependencyGraph` holds which task depends
  on which; `Schedule` is one run over it, a state machine that hands out
  ready tasks (`launch_ready`), takes their outcomes back (`finish`) and says
  when the run is over (`is_complete`). Its laws (dependencies finish first,
  the concurrency bound, how failures spread, what is left when a run ends)
  are proof functions beside it.
- `app/` is the asynchronous executor around it: it keys tasks by any hashable
  key, awaits the tasks the schedule hands out and reports each outcome back.
- `tests/` drive the schedule with a simulated executor.
