use vstd::prelude::*;

verus! {

/// What is found at a path before a run starts.
#[derive(Clone, Copy, Debug, PartialEq, Eq, Structural)]
pub enum PathState {
    Missing,
    File,
    Dir,
}

/// Why a run cannot start.
#[derive(Clone, Copy, Debug, PartialEq, Eq, Structural)]
pub enum PreflightError {
    /// The source root does not exist.
    SourceMissing,
    /// A component of the destination path is a file; `index` counts from
    /// the destination root itself (zero) towards the filesystem root.
    NotADirectory { index: usize },
    /// More than the destination root itself is missing and missing
    /// components may not be created.
    ParentMissing,
}

/// The index of the first component, from the destination root upwards,
/// that exists; the number of components when none does.
pub open spec fn first_existing(ancestors: Seq<PathState>) -> int
    decreases ancestors.len(),
{
    if ancestors.len() == 0 {
        0
    } else if ancestors[0] != PathState::Missing {
        0
    } else {
        1 + first_existing(ancestors.drop_first())
    }
}

/// The outcome of the checks before a run: how many components, counted from
/// the destination root upwards, must be created, or why the run is refused.
pub open spec fn preflight_of(source: PathState, ancestors: Seq<PathState>, mkpath: bool) -> Result<usize, PreflightError> {
    let k = first_existing(ancestors);
    if source == PathState::Missing {
        Err(PreflightError::SourceMissing)
    } else if k < ancestors.len() && ancestors[k] == PathState::File {
        Err(PreflightError::NotADirectory { index: k as usize })
    } else if mkpath || k <= 1 {
        Ok(k as usize)
    } else {
        Err(PreflightError::ParentMissing)
    }
}

proof fn lemma_first_existing(ancestors: Seq<PathState>)
    ensures
        0 <= first_existing(ancestors) <= ancestors.len(),
        forall|i: int| 0 <= i < first_existing(ancestors) ==> ancestors[i] == PathState::Missing,
        first_existing(ancestors) < ancestors.len() ==> ancestors[first_existing(ancestors)] != PathState::Missing,
    decreases ancestors.len(),
{
    if ancestors.len() > 0 && ancestors[0] == PathState::Missing {
        let rest = ancestors.drop_first();
        lemma_first_existing(rest);
        assert forall|i: int| 0 <= i < first_existing(ancestors) implies ancestors[i] == PathState::Missing by {
            if i > 0 {
                assert(ancestors[i] == rest[i - 1]);
            }
        }
    }
}

/// Checks a run's roots before any worker starts. `ancestors` lists the
/// state of the destination root, then of its parent, and so on up to the
/// filesystem root. With `mkpath` every missing component may be created;
/// without it, only the destination root itself. On success the result is
/// the number of components, from the destination root upwards, to create;
/// they are exactly the missing ones below the first that exists.
pub fn preflight(source: PathState, ancestors: &Vec<PathState>, mkpath: bool) -> (r: Result<usize, PreflightError>)
    ensures
        r == preflight_of(source, ancestors@, mkpath),
        r matches Ok(k) ==> {
            &&& k <= ancestors@.len()
            &&& forall|i: int| 0 <= i < k ==> ancestors@[i] == PathState::Missing
            &&& k < ancestors@.len() ==> ancestors@[k as int] == PathState::Dir
        },
{
    proof {
        lemma_first_existing(ancestors@);
    }
    let mut k: usize = 0;
    while k < ancestors.len() && ancestors[k] == PathState::Missing
        invariant
            0 <= k <= ancestors@.len(),
            forall|i: int| 0 <= i < k ==> ancestors@[i] == PathState::Missing,
            first_existing(ancestors@) >= k,
        decreases ancestors@.len() - k,
    {
        k += 1;
        proof {
            lemma_first_existing_from(ancestors@, k as int);
        }
    }
    proof {
        lemma_first_existing_from(ancestors@, k as int);
    }
    if source == PathState::Missing {
        Err(PreflightError::SourceMissing)
    } else if k < ancestors.len() && ancestors[k] == PathState::File {
        Err(PreflightError::NotADirectory { index: k })
    } else if mkpath || k <= 1 {
        Ok(k)
    } else {
        Err(PreflightError::ParentMissing)
    }
}

proof fn lemma_first_existing_from(ancestors: Seq<PathState>, k: int)
    requires
        0 <= k <= ancestors.len(),
        forall|i: int| 0 <= i < k ==> ancestors[i] == PathState::Missing,
    ensures
        first_existing(ancestors) >= k,
        (k == ancestors.len() || ancestors[k] != PathState::Missing) ==> first_existing(ancestors) == k,
    decreases k,
{
    lemma_first_existing(ancestors);
    if k > 0 {
        let rest = ancestors.drop_first();
        assert(ancestors[0] == PathState::Missing);
        assert forall|i: int| 0 <= i < k - 1 implies rest[i] == PathState::Missing by {
            assert(rest[i] == ancestors[i + 1]);
        }
        if k - 1 < rest.len() {
            assert(rest[k - 1] == ancestors[k]);
        }
        lemma_first_existing_from(rest, k - 1);
    }
}

} // verus!
