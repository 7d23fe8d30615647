//! The outcome of checking a list of items in order.

use vstd::prelude::*;

use crate::error::DriverError;

verus! {

/// The failure of the first of `count` items that fails, if one does.
pub open spec fn first_failure(
    count: nat,
    failure: spec_fn(int) -> Option<DriverError>,
) -> Option<DriverError>
    decreases count,
{
    if count == 0 {
        None
    } else {
        match first_failure((count - 1) as nat, failure) {
            Some(error) => Some(error),
            None => failure(count - 1),
        }
    }
}

/// An item that fails after items that do not decides the outcome.
pub proof fn lemma_first_failure_at(
    count: nat,
    failure: spec_fn(int) -> Option<DriverError>,
    index: nat,
)
    requires
        index < count,
        first_failure(index, failure) is None,
        failure(index as int) is Some,
    ensures
        first_failure(count, failure) == failure(index as int),
    decreases count,
{
    if count > index + 1 {
        lemma_first_failure_at((count - 1) as nat, failure, index);
    }
}

/// No item fails exactly when the first failure is absent.
pub proof fn lemma_first_failure_none(count: nat, failure: spec_fn(int) -> Option<DriverError>)
    ensures
        first_failure(count, failure) is None <==> forall|i: int|
            0 <= i < count ==> #[trigger] failure(i) is None,
    decreases count,
{
    if count > 0 {
        lemma_first_failure_none((count - 1) as nat, failure);
        if first_failure(count, failure) is None {
            assert forall|i: int| 0 <= i < count implies #[trigger] failure(i) is None by {
                if i < count - 1 {
                }
            }
        } else if first_failure((count - 1) as nat, failure) is None {
            assert(failure(count - 1) is Some);
        }
    }
}

} // verus!
