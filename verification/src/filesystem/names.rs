//! Names of directory entries.

use vstd::prelude::*;

use crate::scan::{same_text, texts_view};

verus! {

/// The position of the last name that equals `name`. An entry replaces an earlier one with the
/// same name.
pub open spec fn last_named(names: Seq<Seq<char>>, name: Seq<char>) -> Option<int>
    decreases names.len(),
{
    if names.len() == 0 {
        None
    } else if names.last() == name {
        Some(names.len() - 1)
    } else {
        last_named(names.drop_last(), name)
    }
}

/// The number of different names.
pub open spec fn distinct_count(names: Seq<Seq<char>>) -> nat
    decreases names.len(),
{
    if names.len() == 0 {
        0
    } else if last_named(names.drop_last(), names.last()) is Some {
        distinct_count(names.drop_last())
    } else {
        distinct_count(names.drop_last()) + 1
    }
}

/// The name that is found is the one that was looked for, and none behind it is.
pub proof fn lemma_last_named(names: Seq<Seq<char>>, name: Seq<char>)
    ensures
        match last_named(names, name) {
            Some(at) => {
                &&& 0 <= at < names.len()
                &&& names[at] == name
                &&& forall|i: int| at < i < names.len() ==> names[i] != name
            },
            None => forall|i: int| 0 <= i < names.len() ==> names[i] != name,
        },
    decreases names.len(),
{
    if names.len() > 0 && names.last() != name {
        let front = names.drop_last();
        lemma_last_named(front, name);
        assert(forall|i: int| 0 <= i < front.len() ==> front[i] == names[i]);
        assert(names[names.len() - 1] == names.last());
    }
}

/// A name that stands behind all equal ones is the one that is found.
pub proof fn lemma_last_named_at(names: Seq<Seq<char>>, at: int)
    requires
        0 <= at < names.len(),
        forall|i: int| at < i < names.len() ==> #[trigger] names[i] != names[at],
    ensures
        last_named(names, names[at]) == Some(at),
    decreases names.len(),
{
    if at < names.len() - 1 {
        let front = names.drop_last();
        assert(names[names.len() - 1] != names[at]);
        assert forall|i: int| at < i < front.len() implies #[trigger] front[i] != front[at] by {
            assert(names[i] != names[at]);
        }
        lemma_last_named_at(front, at);
    }
}

/// The number of different names is that of the set of names.
pub proof fn lemma_distinct_names(names: Seq<Seq<char>>)
    ensures
        distinct_count(names) == names.to_set().len(),
    decreases names.len(),
{
    if names.len() == 0 {
        assert(names.to_set() =~= Set::empty());
    } else {
        let front = names.drop_last();
        let name = names.last();
        lemma_distinct_names(front);
        lemma_last_named(front, name);
        assert(names.to_set() =~= front.to_set().insert(name)) by {
            assert forall|n: Seq<char>| names.contains(n) == (front.contains(n) || n == name) by {
                if names.contains(n) {
                    let i = choose|i: int| 0 <= i < names.len() && names[i] == n;
                    if i < front.len() {
                        assert(front[i] == n);
                    }
                }
                if front.contains(n) {
                    let i = choose|i: int| 0 <= i < front.len() && front[i] == n;
                    assert(names[i] == n);
                }
                assert(names[names.len() - 1] == name);
            }
        }
        if last_named(front, name) is Some {
            let at = last_named(front, name)->0;
            assert(front[at] == name);
            assert(front.to_set().insert(name) =~= front.to_set());
        } else {
            assert(!front.contains(name));
        }
        front.lemma_cardinality_of_set();
    }
}

/// There are no more different names than names.
pub proof fn lemma_distinct_count(names: Seq<Seq<char>>)
    ensures
        distinct_count(names) <= names.len(),
    decreases names.len(),
{
    if names.len() > 0 {
        lemma_distinct_count(names.drop_last());
    }
}

/// Determines the position of the last of the first `count` names that equals `name`.
fn find_among(names: &Vec<Vec<char>>, count: usize, name: &[char]) -> (at: Option<usize>)
    requires
        count <= names@.len(),
    ensures
        match at {
            Some(at) => {
                &&& last_named(texts_view(names@).take(count as int), name@) == Some(at as int)
                &&& at < count
            },
            None => last_named(texts_view(names@).take(count as int), name@) is None,
        },
{
    let ghost views = texts_view(names@);
    let mut end: usize = count;
    while end > 0
        invariant
            end <= count <= names@.len(),
            views == texts_view(names@),
            last_named(views.take(count as int), name@) == last_named(
                views.take(end as int),
                name@,
            ),
        decreases end,
    {
        let ghost taken = views.take(end as int);
        assert(taken.drop_last() =~= views.take(end - 1));
        assert(taken.last() == names@[end - 1]@);
        if same_text(names[end - 1].as_slice(), name) {
            return Some(end - 1);
        }
        end -= 1;
    }
    None
}

/// Determines the position of the last name that equals `name`.
pub fn find_last_named(names: &Vec<Vec<char>>, name: &[char]) -> (at: Option<usize>)
    ensures
        match at {
            Some(at) => {
                &&& last_named(texts_view(names@), name@) == Some(at as int)
                &&& at < names@.len()
            },
            None => last_named(texts_view(names@), name@) is None,
        },
{
    assert(texts_view(names@).take(names@.len() as int) =~= texts_view(names@));
    find_among(names, names.len(), name)
}

/// Counts the different names.
pub fn count_distinct(names: &Vec<Vec<char>>) -> (count: usize)
    ensures
        count == distinct_count(texts_view(names@)),
{
    let ghost views = texts_view(names@);
    let mut count: usize = 0;
    let mut index: usize = 0;
    while index < names.len()
        invariant
            index <= names@.len(),
            views == texts_view(names@),
            count == distinct_count(views.take(index as int)),
            count <= index,
        decreases names@.len() - index,
    {
        let ghost taken = views.take(index + 1);
        assert(taken.drop_last() =~= views.take(index as int));
        assert(taken.last() == names@[index as int]@);
        if find_among(names, index, names[index].as_slice()).is_none() {
            count += 1;
        }
        index += 1;
    }
    assert(views.take(index as int) =~= views);
    count
}

/// Whether a name stands for neither a directory itself nor its parent.
pub open spec fn is_proper_name(name: Seq<char>) -> bool {
    name != seq!['.'] && name != seq!['.', '.']
}

/// Whether no name stands for a directory itself or its parent.
pub open spec fn are_proper_names(names: Seq<Seq<char>>) -> bool {
    forall|i: int| 0 <= i < names.len() ==> is_proper_name(#[trigger] names[i])
}

/// Another proper name keeps names proper.
pub proof fn lemma_proper_names_push(names: Seq<Seq<char>>, name: Seq<char>)
    requires
        are_proper_names(names),
        is_proper_name(name),
    ensures
        are_proper_names(names.push(name)),
{
    let longer = names.push(name);
    assert forall|i: int| 0 <= i < longer.len() implies is_proper_name(#[trigger] longer[i]) by {
        if i < names.len() {
            assert(longer[i] == names[i]);
        }
    }
}

} // verus!
