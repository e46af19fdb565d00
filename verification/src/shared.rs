use vstd::prelude::*;

verus! {

/// How a run of the graph behaves.
pub struct ExecOptions {
    /// The largest number of tasks that may be executing at the same time.
    /// By default the number is not limited, and a task starts as soon as
    /// nothing blocks it any more.
    pub concurrency: usize,
    /// Whether the rest of the graph still runs after a task has failed.
    pub continue_on_fail: bool,
}

impl Default for ExecOptions {
    fn default() -> (options: Self)
        ensures
            options.concurrency == usize::MAX,
            options.continue_on_fail,
    {
        ExecOptions { concurrency: usize::MAX, continue_on_fail: true }
    }
}

} // verus!
