//! Relative paths that stay below the directory they are relative to.

use vstd::prelude::*;

use crate::error::DriverError;

verus! {

/// Component of a path.
#[derive(Debug)]
pub enum PathComponent {
    /// A prefix, such as the letter of a drive.
    Prefix,
    /// The root directory.
    RootDir,
    /// The directory itself.
    CurDir,
    /// The parent directory.
    ParentDir,
    /// An entry of a directory.
    Normal(String),
}

/// Whether a component stays in the directory, or leads to an entry of it.
pub open spec fn is_safe(component: PathComponent) -> bool {
    component is CurDir || component is Normal
}

/// The names of the entries that components lead through.
pub open spec fn entry_names(components: Seq<PathComponent>) -> Seq<Seq<char>>
    decreases components.len(),
{
    if components.len() == 0 {
        Seq::empty()
    } else {
        match components.last() {
            PathComponent::Normal(name) => entry_names(components.drop_last()).push(name@),
            _ => entry_names(components.drop_last()),
        }
    }
}

/// The names of the entries that a relative path leads through, which stays below the directory it
/// is relative to. An absolute path, one that leads to a parent directory and one that leads to no
/// entry are refused.
pub open spec fn safe_path(components: Seq<PathComponent>) -> Result<Seq<Seq<char>>, DriverError> {
    if !(forall|i: int| 0 <= i < components.len() ==> is_safe(#[trigger] components[i])) {
        Err(DriverError::Invalid)
    } else if entry_names(components).len() == 0 {
        Err(DriverError::Invalid)
    } else {
        Ok(entry_names(components))
    }
}

/// A path that is accepted leads on after a path that is accepted: both together are accepted, and
/// lead through the entries of the one and then those of the other.
pub proof fn lemma_safe_path_joined(first: Seq<PathComponent>, second: Seq<PathComponent>)
    requires
        safe_path(first) is Ok,
        safe_path(second) is Ok,
    ensures
        safe_path(first + second) == Ok::<Seq<Seq<char>>, DriverError>(
            safe_path(first)->Ok_0 + safe_path(second)->Ok_0,
        ),
{
    lemma_entry_names_joined(first, second);
    let joined = first + second;
    assert forall|i: int| 0 <= i < joined.len() implies is_safe(#[trigger] joined[i]) by {
        if i < first.len() {
            assert(is_safe(first[i]));
        } else {
            assert(is_safe(second[i - first.len()]));
        }
    }
}

proof fn lemma_entry_names_joined(first: Seq<PathComponent>, second: Seq<PathComponent>)
    ensures
        entry_names(first + second) == entry_names(first) + entry_names(second),
    decreases second.len(),
{
    if second.len() == 0 {
        assert(first + second =~= first);
        assert(entry_names(first) + entry_names(second) =~= entry_names(first));
    } else {
        lemma_entry_names_joined(first, second.drop_last());
        assert((first + second).drop_last() =~= first + second.drop_last());
        assert(entry_names(first + second) =~= entry_names(first) + entry_names(second));
    }
}

/// A path that leads to a parent directory is refused, wherever it does.
pub proof fn lemma_parent_refused(components: Seq<PathComponent>, index: int)
    requires
        0 <= index < components.len(),
        components[index] is ParentDir,
    ensures
        safe_path(components) is Err,
{
    assert(!is_safe(components[index]));
}

/// The characters of each of a list of texts.
pub open spec fn strings_view(texts: Seq<String>) -> Seq<Seq<char>> {
    Seq::new(texts.len(), |i: int| texts[i]@)
}

/// Determines the names of the entries that a relative path leads through, which stays below the
/// directory it is relative to.
pub fn sanitize_relative_path(components: Vec<PathComponent>) -> (result: Result<
    Vec<String>,
    DriverError,
>)
    ensures
        match result {
            Ok(names) => safe_path(components@) == Ok::<Seq<Seq<char>>, DriverError>(
                strings_view(names@),
            ),
            Err(error) => safe_path(components@) == Err::<Seq<Seq<char>>, DriverError>(error),
        },
{
    let mut names: Vec<String> = Vec::new();
    let mut index: usize = 0;
    assert(strings_view(names@) =~= entry_names(components@.take(0)));
    while index < components.len()
        invariant
            index <= components@.len(),
            strings_view(names@) == entry_names(components@.take(index as int)),
            forall|i: int| 0 <= i < index ==> is_safe(#[trigger] components@[i]),
        decreases components@.len() - index,
    {
        let ghost before = strings_view(names@);
        let ghost taken = components@.take(index + 1);
        proof {
            assert(taken.drop_last() =~= components@.take(index as int));
            assert(taken.last() == components@[index as int]);
        }
        match &components[index] {
            PathComponent::CurDir => {},
            PathComponent::Normal(name) => {
                names.push(name.clone());
                assert(strings_view(names@) =~= before.push(name@));
            },
            PathComponent::ParentDir | PathComponent::RootDir | PathComponent::Prefix => {
                assert(!is_safe(components@[index as int]));
                return Err(DriverError::Invalid);
            },
        }
        index += 1;
    }
    assert(components@.take(index as int) =~= components@);
    if names.len() == 0 {
        return Err(DriverError::Invalid);
    }
    Ok(names)
}

} // verus!
