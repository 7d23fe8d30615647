//! Attempts to open a volume system in several ways.

use vstd::prelude::*;

use crate::error::DriverError;

verus! {

/// The outcome of the first of several attempts that succeeded, or of the last one.
pub open spec fn first_opened<V>(outcomes: Seq<Result<V, DriverError>>) -> Result<V, DriverError>
    decreases outcomes.len(),
{
    if outcomes.len() <= 1 || outcomes[0] is Ok {
        outcomes[0]
    } else {
        first_opened(outcomes.skip(1))
    }
}

/// The attempt that counts is the first one that succeeded, or the last one.
pub proof fn lemma_first_opened<V>(outcomes: Seq<Result<V, DriverError>>, index: int)
    requires
        0 <= index < outcomes.len(),
        forall|i: int| 0 <= i < index ==> (#[trigger] outcomes[i]) is Err,
        outcomes[index] is Ok || index == outcomes.len() - 1,
    ensures
        first_opened(outcomes) == outcomes[index],
    decreases index,
{
    if index > 0 {
        assert(outcomes[0] is Err);
        let rest = outcomes.skip(1);
        assert forall|i: int| 0 <= i < index - 1 implies (#[trigger] rest[i]) is Err by {
            assert(outcomes[i + 1] is Err);
        }
        lemma_first_opened(rest, index - 1);
    }
}

} // verus!
