//! Sequential, fail-fast execution planning.
//!
//! Starting child processes is the caller's business; this module decides the
//! schedule: compiled invocations run strictly one after another, and the
//! first non-zero exit stops the run. Commands already completed are not
//! rolled back.

use vstd::prelude::*;

verus! {

/// How many commands of a list actually run under the fail-fast rule, given
/// the success of each command as the run would observe it: every command up
/// to and including the first failing one.
pub open spec fn fail_fast_count(exits: Seq<bool>) -> int
    decreases exits.len(),
{
    if exits.len() == 0 {
        0
    } else if exits[0] {
        1 + fail_fast_count(exits.drop_first())
    } else {
        1
    }
}

/// The fail-fast rule: a command runs exactly when it exists and every
/// earlier command succeeded. In particular everything up to and including
/// the first failure runs, and nothing after it.
pub proof fn lemma_fail_fast(exits: Seq<bool>, k: int)
    requires
        0 <= k <= exits.len(),
    ensures
        0 <= fail_fast_count(exits) <= exits.len(),
        k < fail_fast_count(exits) <==> (k < exits.len() && (forall|j: int|
            0 <= j < k ==> exits[j])),
    decreases exits.len(),
{
    if exits.len() > 0 {
        let tail = exits.drop_first();
        if exits[0] {
            if k > 0 {
                lemma_fail_fast(tail, k - 1);
                assert forall|j: int| 0 <= j < k - 1 implies tail[j] == exits[j + 1] by {}
                if k - 1 < fail_fast_count(tail) {
                    assert forall|j: int| 0 <= j < k implies exits[j] by {
                        if j > 0 {
                            assert(tail[j - 1]);
                        }
                    }
                } else if k < exits.len() && (forall|j: int| 0 <= j < k ==> exits[j]) {
                    assert forall|j: int| 0 <= j < k - 1 implies tail[j] by {
                        assert(exits[j + 1]);
                    }
                }
            } else {
                lemma_fail_fast(tail, 0);
            }
        } else {
            if k >= 1 {
                assert(!exits[0]);
            }
        }
    }
}

/// The next command to start under the fail-fast rule: the one after the
/// commands already finished, provided all of them succeeded and commands
/// remain; otherwise the run is over.
pub fn next_command_index(results: &Vec<bool>, total: usize) -> (r: Option<usize>)
    ensures
        r == (if results@.len() < total && (forall|j: int|
            0 <= j < results@.len() ==> results@[j]) {
            Some(results@.len() as usize)
        } else {
            None::<usize>
        }),
{
    if results.len() >= total {
        return None;
    }
    let mut i: usize = 0;
    while i < results.len()
        invariant
            i <= results@.len(),
            forall|j: int| 0 <= j < i ==> results@[j],
        decreases results@.len() - i,
    {
        if !results[i] {
            return None;
        }
        i += 1;
    }
    Some(results.len())
}

} // verus!
