use vstd::prelude::*;
use crate::entry::{names_equal, views, Entry, EntryKind, EntryView};

verus! {

/// What a compare pass does with one entry of the source directory.
#[derive(Clone, Copy, Debug, PartialEq, Eq, Structural)]
pub enum Step {
    /// The name is absent from the target: hand the entry to the copy stage.
    /// `track` is set when the copy will create a directory whose contents
    /// need a compare pass of their own, which is then counted before the copy
    /// is queued.
    Copy { track: bool },
    /// Both sides hold a directory of that name and recursion is on: count and
    /// queue a compare pass of the pair (`target` indexes the target listing).
    Descend { target: usize },
    /// One side holds a file and the other a directory: report and skip.
    Conflict { target: usize },
    /// Already present by name: nothing to do.
    Skip,
}

impl Step {
    /// Whether acting on this decision creates a compare pass, which the
    /// activity counter must count before the decision is acted on.
    pub open spec fn counts(self) -> bool {
        match self {
            Step::Copy { track } => track,
            Step::Descend { .. } => true,
            _ => false,
        }
    }

    pub fn counts_pass(&self) -> (r: bool)
        ensures
            r == self.counts(),
    {
        match self {
            Step::Copy { track } => *track,
            Step::Descend { .. } => true,
            _ => false,
        }
    }
}

/// The last entry among the first `n` of `tgt` named `name`: an index of a
/// target listing keyed by name keeps the entry inserted last.
pub open spec fn last_match(tgt: Seq<EntryView>, name: Seq<u8>, n: int) -> Option<int>
    decreases n,
{
    if n <= 0 {
        None
    } else if tgt[n - 1].name == name {
        Some(n - 1)
    } else {
        last_match(tgt, name, n - 1)
    }
}

/// The decision for source entry `e` against the target listing `tgt`.
pub open spec fn step_of(e: EntryView, tgt: Seq<EntryView>, recursive: bool) -> Step {
    match last_match(tgt, e.name, tgt.len() as int) {
        None => Step::Copy { track: recursive && e.kind == EntryKind::Dir },
        Some(j) => {
            if e.kind != tgt[j].kind {
                Step::Conflict { target: j as usize }
            } else if e.kind == EntryKind::Dir && recursive {
                Step::Descend { target: j as usize }
            } else {
                Step::Skip
            }
        },
    }
}

pub(crate) proof fn lemma_last_match(tgt: Seq<EntryView>, name: Seq<u8>, n: int)
    requires
        0 <= n <= tgt.len(),
    ensures
        match last_match(tgt, name, n) {
            Some(j) => 0 <= j < n && tgt[j].name == name,
            None => forall|k: int| 0 <= k < n ==> tgt[k].name != name,
        },
    decreases n,
{
    if n > 0 {
        lemma_last_match(tgt, name, n - 1);
    }
}

/// Looks `name` up in a target listing; where names repeat, the last entry wins.
pub fn find_by_name(tgt: &Vec<Entry>, name: &Vec<u8>) -> (r: Option<usize>)
    ensures
        last_match(views(tgt@), name@, tgt@.len() as int) == match r {
            Some(j) => Some(j as int),
            None => None::<int>,
        },
{
    let mut i: usize = tgt.len();
    while i > 0
        invariant
            i <= tgt@.len(),
            last_match(views(tgt@), name@, tgt@.len() as int) == last_match(views(tgt@), name@, i as int),
        decreases i,
    {
        if names_equal(&tgt[i - 1].name, name) {
            return Some(i - 1);
        }
        i -= 1;
    }
    None
}

/// The decision for one source entry.
pub fn classify(e: &Entry, tgt: &Vec<Entry>, recursive: bool) -> (r: Step)
    ensures
        r == step_of(e@, views(tgt@), recursive),
{
    proof {
        lemma_last_match(views(tgt@), e.name@, tgt@.len() as int);
    }
    match find_by_name(tgt, &e.name) {
        None => Step::Copy { track: recursive && e.kind == EntryKind::Dir },
        Some(j) => {
            if e.kind != tgt[j].kind {
                Step::Conflict { target: j }
            } else if e.kind == EntryKind::Dir && recursive {
                Step::Descend { target: j }
            } else {
                Step::Skip
            }
        },
    }
}

/// One compare pass: the decision for each entry of the source listing, in
/// the listing's order.
pub fn compare_listing(src: &Vec<Entry>, tgt: &Vec<Entry>, recursive: bool) -> (r: Vec<Step>)
    ensures
        r@.len() == src@.len(),
        forall|i: int| 0 <= i < src@.len() ==> r@[i] == step_of(#[trigger] src@[i]@, views(tgt@), recursive),
{
    let mut steps: Vec<Step> = Vec::new();
    let mut i: usize = 0;
    while i < src.len()
        invariant
            0 <= i <= src@.len(),
            steps@.len() == i,
            forall|k: int| 0 <= k < i ==> steps@[k] == step_of(#[trigger] src@[k]@, views(tgt@), recursive),
        decreases src@.len() - i,
    {
        let s = classify(&src[i], tgt, recursive);
        steps.push(s);
        i += 1;
    }
    steps
}

} // verus!
