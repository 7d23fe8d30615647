//! Nodes that were visited already.

use std::collections::HashSet;

use vstd::prelude::*;

verus! {

/// Whether the way to a node leads through the node itself.
pub open spec fn is_cycle(path: Seq<u64>, number: u64) -> bool {
    path.contains(number) || path.len() > u64::MAX
}

/// The number of nodes that the way to a node can lead through yet.
pub open spec fn nodes_left(path: Seq<u64>) -> int {
    u64::MAX + 1 - path.len()
}

/// Determines whether a node was visited already.
pub fn was_visited(path: &Vec<u64>, number: u64) -> (found: bool)
    ensures
        found == is_cycle(path@, number),
{
    let mut index: usize = 0;
    while index < path.len()
        invariant
            index <= path@.len(),
            forall|i: int| 0 <= i < index ==> path@[i] != number,
        decreases path@.len() - index,
    {
        if path[index] == number {
            assert(path@.contains(number));
            return true;
        }
        index += 1;
    }
    let count: usize = path.len();
    assert(count <= u64::MAX);
    false
}

/// The nodes on a way that leads through each of them once.
pub struct VisitedNodes {
    numbers: HashSet<u64>,
    path: Ghost<Seq<u64>>,
}

impl VisitedNodes {
    /// The nodes, in the order in which they were visited.
    pub closed spec fn view(&self) -> Seq<u64> {
        self.path@
    }

    #[verifier::type_invariant]
    spec fn well_formed(self) -> bool {
        &&& self.numbers@ == self.path@.to_set()
        &&& self.numbers@.len() == self.path@.len()
    }

    /// Starts with no node.
    pub fn new() -> (visited: Self)
        ensures
            visited@ == Seq::<u64>::empty(),
    {
        broadcast use vstd::std_specs::hash::group_hash_axioms;

        let numbers: HashSet<u64> = HashSet::new();
        assert(numbers@ =~= Seq::<u64>::empty().to_set());
        VisitedNodes { numbers, path: Ghost(Seq::empty()) }
    }

    /// Determines whether a node was visited already.
    pub fn contains(&self, number: u64) -> (found: bool)
        ensures
            found == is_cycle(self@, number),
    {
        broadcast use vstd::std_specs::hash::group_hash_axioms;

        proof {
            use_type_invariant(self);
        }
        let count: usize = self.numbers.len();
        assert(self.numbers@.contains(number) == self.path@.contains(number));
        self.numbers.contains(&number)
    }

    /// Goes on to a node that was not visited.
    pub fn add(self, number: u64) -> (visited: Self)
        requires
            !is_cycle(self@, number),
        ensures
            visited@ == self@.push(number),
            visited@.len() <= u64::MAX,
    {
        broadcast use vstd::std_specs::hash::group_hash_axioms;

        proof {
            use_type_invariant(&self);
        }
        let VisitedNodes { mut numbers, path } = self;
        let ghost before = path@;
        let _added: bool = numbers.insert(number);
        proof {
            assert(before.push(number).to_set() =~= before.to_set().insert(number)) by {
                assert forall|n: u64|
                    before.push(number).contains(n) == (before.contains(n) || n == number) by {
                    if before.contains(n) {
                        let i = choose|i: int| 0 <= i < before.len() && before[i] == n;
                        assert(before.push(number)[i] == n);
                    }
                    assert(before.push(number)[before.len() as int] == number);
                }
            }
            assert(!before.to_set().contains(number));
        }
        let count: usize = numbers.len();
        VisitedNodes { numbers, path: Ghost(path@.push(number)) }
    }
}

/// Whether no node occurs twice.
pub open spec fn are_distinct(path: Seq<u64>) -> bool {
    forall|i: int, j: int| 0 <= i < j < path.len() ==> path[i] != path[j]
}

/// Going on to a node that was not visited keeps nodes distinct.
pub proof fn lemma_distinct_push(path: Seq<u64>, number: u64)
    requires
        are_distinct(path),
        !is_cycle(path, number),
    ensures
        are_distinct(path.push(number)),
{
    let longer = path.push(number);
    assert forall|i: int, j: int| 0 <= i < j < longer.len() implies longer[i] != longer[j] by {
        if j == path.len() {
            assert(path[i] != number) by {
                if path[i] == number {
                    assert(path.contains(number));
                }
            }
        }
    }
}

} // verus!
