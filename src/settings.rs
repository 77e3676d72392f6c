use vstd::prelude::*;

verus! {

/// How many workers each stage runs and how many copy tasks may wait at once.
#[derive(Clone, Copy, Debug)]
pub struct TokioSettings {
    pub compare_workers_count: usize,
    pub copy_queue_size: usize,
    pub copy_workers_count: usize,
}

impl TokioSettings {
    /// Without recursion only the root level is compared, so one compare
    /// worker is enough; with it sixteen share the discovered directories.
    /// The copy queue is bounded at 1024 waiting tasks.
    pub fn new(recursive: bool) -> (r: TokioSettings)
        ensures
            r.compare_workers_count == if recursive { 16usize } else { 1usize },
            r.copy_queue_size == 1024,
            r.copy_workers_count == 16,
    {
        TokioSettings {
            compare_workers_count: if recursive { 16 } else { 1 },
            copy_queue_size: 1024,
            copy_workers_count: 16,
        }
    }
}

} // verus!
