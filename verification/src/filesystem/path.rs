//! Absolute paths in file systems.

use vstd::prelude::*;

use crate::scan::{
    copy_text, find_from, find_pattern, lemma_find_from, matches_at, same_text, texts_view,
};
use crate::text::text_chars;

verus! {

/// The end of the path component that starts at a position.
pub open spec fn component_end(path: Seq<char>, start: int) -> int {
    match find_from(path, seq!['/'], start) {
        Some(end) => end,
        None => path.len() as int,
    }
}

/// The components of a path from a position on, after those before it. An empty component does not
/// count.
pub open spec fn parts_from(path: Seq<char>, start: int, parts: Seq<Seq<char>>) -> Seq<Seq<char>>
    decreases path.len() + 1 - start,
{
    if start < 0 || start >= path.len() {
        parts
    } else {
        proof {
            lemma_find_from(path, seq!['/'], start);
        }
        let end = component_end(path, start);
        let part = path.subrange(start, end);
        parts_from(
            path,
            end + 1,
            if part.len() == 0 {
                parts
            } else {
                parts.push(part)
            },
        )
    }
}

/// The components of a path.
pub open spec fn path_parts(path: Seq<char>) -> Seq<Seq<char>> {
    parts_from(path, 0, Seq::empty())
}

/// Whether a path is absolute.
pub open spec fn is_absolute(path: Seq<char>) -> bool {
    path.len() > 0 && path[0] == '/'
}

/// The components that are reached from `base` by following components from `index` on: one dot
/// stays, two dots lead to the parent.
pub open spec fn followed_from(
    base: Seq<Seq<char>>,
    parts: Seq<Seq<char>>,
    index: int,
) -> Seq<Seq<char>>
    decreases parts.len() - index,
{
    if index < 0 || index >= parts.len() {
        base
    } else {
        followed_from(
            if parts[index] == seq!['.'] {
                base
            } else if parts[index] == seq!['.', '.'] {
                if base.len() == 0 {
                    base
                } else {
                    base.drop_last()
                }
            } else {
                base.push(parts[index])
            },
            parts,
            index + 1,
        )
    }
}

/// The components of a path in which a symbolic link is replaced by its target. A relative target
/// starts from the directory of the link.
pub open spec fn rewritten_parts(
    current: Seq<Seq<char>>,
    target: Seq<char>,
    remaining: Seq<Seq<char>>,
) -> Seq<Seq<char>> {
    (if is_absolute(target) {
        path_parts(target)
    } else {
        followed_from(current, path_parts(target), 0)
    }) + remaining
}

/// A dot behind components leads nowhere else, two dots lead to the parent of where they lead, except at
/// the root, and another name leads to the entry with that name.
pub proof fn lemma_followed(base: Seq<Seq<char>>, parts: Seq<Seq<char>>, name: Seq<char>)
    ensures
        followed_from(base, parts.push(seq!['.']), 0) == followed_from(base, parts, 0),
        followed_from(base, parts.push(seq!['.', '.']), 0) == (if followed_from(
            base,
            parts,
            0,
        ).len() == 0 {
            followed_from(base, parts, 0)
        } else {
            followed_from(base, parts, 0).drop_last()
        }),
        name != seq!['.'] && name != seq!['.', '.'] ==> followed_from(base, parts.push(name), 0)
            == followed_from(base, parts, 0).push(name),
        followed_from(base, Seq::empty(), 0) == base,
{
    assert(seq!['.'] != seq!['.', '.']) by {
        assert(seq!['.'].len() == 1 && seq!['.', '.'].len() == 2);
    }
    lemma_followed_from(base, parts, seq!['.'], 0);
    lemma_followed_from(base, parts, seq!['.', '.'], 0);
    lemma_followed_from(base, parts, name, 0);
}

proof fn lemma_followed_from(
    base: Seq<Seq<char>>,
    parts: Seq<Seq<char>>,
    name: Seq<char>,
    index: int,
)
    requires
        0 <= index <= parts.len(),
    ensures
        followed_from(base, parts.push(name), index) == ({
            let reached = followed_from(base, parts, index);
            if name == seq!['.'] {
                reached
            } else if name == seq!['.', '.'] {
                if reached.len() == 0 {
                    reached
                } else {
                    reached.drop_last()
                }
            } else {
                reached.push(name)
            }
        }),
    decreases parts.len() - index,
{
    let longer = parts.push(name);
    if index < parts.len() {
        assert(longer[index] == parts[index]);
        let next = if parts[index] == seq!['.'] {
            base
        } else if parts[index] == seq!['.', '.'] {
            if base.len() == 0 {
                base
            } else {
                base.drop_last()
            }
        } else {
            base.push(parts[index])
        };
        lemma_followed_from(next, parts, name, index + 1);
    } else {
        assert(longer[index] == name);
        reveal_with_fuel(followed_from, 2);
    }
}

/// A link with an absolute target leads to the target, wherever the link is, and one with a relative
/// target to where the target leads from the directory of the link. What follows the link in a path
/// follows its target.
pub proof fn lemma_rewritten(
    current: Seq<Seq<char>>,
    target: Seq<char>,
    name: Seq<char>,
    remaining: Seq<Seq<char>>,
)
    ensures
        target.len() > 0 && target[0] == '/' ==> rewritten_parts(current, target, remaining)
            == path_parts(target) + remaining,
        target == name && name.len() > 0 && !name.contains('/') && name != seq!['.'] && name != seq![
            '.',
            '.',
        ] ==> rewritten_parts(current, target, remaining) == current.push(name) + remaining,
{
    if target == name && name.len() > 0 && !name.contains('/') && name != seq!['.'] && name != seq![
        '.',
        '.',
    ] {
        assert(name[0] != '/') by {
            if name[0] == '/' {
                assert(name.contains(name[0]));
            }
        }
        lemma_single_part(name);
        lemma_followed(current, Seq::empty(), name);
        assert(Seq::<Seq<char>>::empty().push(name) =~= seq![name]);
    }
}

proof fn lemma_single_part(name: Seq<char>)
    requires
        name.len() > 0,
        !name.contains('/'),
    ensures
        path_parts(name) == seq![name],
{
    lemma_find_from(name, seq!['/'], 0);
    if let Some(at) = find_from(name, seq!['/'], 0) {
        assert(name.subrange(at, at + 1)[0] == '/');
        assert(name.contains(name[at]));
    }
    assert(name.subrange(0, name.len() as int) =~= name);
    assert(Seq::<Seq<char>>::empty().push(name) =~= seq![name]);
    reveal_with_fuel(parts_from, 2);
}

/// Splits a path into its components.
pub fn split_path(path: &[char]) -> (parts: Vec<Vec<char>>)
    ensures
        texts_view(parts@) == path_parts(path@),
{
    let separator: Vec<char> = vec!['/'];
    assert(separator@ =~= seq!['/']);
    let length: usize = path.len();
    let mut parts: Vec<Vec<char>> = Vec::new();
    let mut start: usize = 0;
    assert(texts_view(parts@) =~= Seq::<Seq<char>>::empty());
    while start < length
        invariant
            length == path@.len(),
            start <= length,
            separator@ == seq!['/'],
            path_parts(path@) == parts_from(path@, start as int, texts_view(parts@)),
        decreases length - start,
    {
        let end: usize = match find_pattern(path, separator.as_slice(), start) {
            Some(end) => end,
            None => length,
        };
        let part: &[char] = vstd::slice::slice_subrange(path, start, end);
        let ghost before = texts_view(parts@);
        if part.len() > 0 {
            parts.push(copy_text(part));
            assert(texts_view(parts@) =~= before.push(part@));
        }
        if end == length {
            assert(parts_from(path@, end + 1, texts_view(parts@)) == texts_view(parts@));
            return parts;
        }
        start = end + 1;
    }
    parts
}

/// Determines the components of a path in which a symbolic link is replaced by its target.
pub fn rewrite_path_parts(
    parts: &Vec<Vec<char>>,
    link_index: usize,
    target: &[char],
) -> (rewritten: Vec<Vec<char>>)
    requires
        link_index < parts@.len(),
    ensures
        texts_view(rewritten@) == rewritten_parts(
            texts_view(parts@).take(link_index as int),
            target@,
            texts_view(parts@).skip(link_index + 1),
        ),
{
    let ghost views = texts_view(parts@);
    let target_parts: Vec<Vec<char>> = split_path(target);
    let mut rewritten: Vec<Vec<char>> = Vec::new();
    assert(texts_view(rewritten@) =~= Seq::<Seq<char>>::empty());
    if target.len() > 0 && target[0] == '/' {
        rewritten = target_parts;
    } else {
        let mut index: usize = 0;
        assert(views.take(0) =~= Seq::<Seq<char>>::empty());
        while index < link_index
            invariant
                index <= link_index < parts@.len(),
                views == texts_view(parts@),
                texts_view(rewritten@) == views.take(index as int),
            decreases link_index - index,
        {
            let ghost before = texts_view(rewritten@);
            assert(views[index as int] == parts@[index as int]@);
            rewritten.push(copy_text(parts[index].as_slice()));
            assert(texts_view(rewritten@) =~= before.push(views[index as int]));
            index += 1;
            assert(texts_view(rewritten@) =~= views.take(index as int));
        }
        rewritten = follow_parts(rewritten, &target_parts);
    }
    let ghost front = texts_view(rewritten@);
    let count: usize = parts.len();
    assert(link_index < count);
    let mut index: usize = link_index + 1;
    assert(front + views.subrange(link_index + 1, index as int) =~= front);
    while index < parts.len()
        invariant
            link_index < index <= parts@.len(),
            views == texts_view(parts@),
            texts_view(rewritten@) == front + views.subrange(link_index + 1, index as int),
        decreases parts@.len() - index,
    {
        let ghost before = texts_view(rewritten@);
        assert(views[index as int] == parts@[index as int]@);
        rewritten.push(copy_text(parts[index].as_slice()));
        assert(texts_view(rewritten@) =~= before.push(views[index as int]));
        index += 1;
        assert(texts_view(rewritten@) =~= front + views.subrange(link_index + 1, index as int));
    }
    assert(views.subrange(link_index + 1, index as int) =~= views.skip(link_index + 1));
    rewritten
}

fn follow_parts(base: Vec<Vec<char>>, parts: &Vec<Vec<char>>) -> (followed: Vec<Vec<char>>)
    ensures
        texts_view(followed@) == followed_from(texts_view(base@), texts_view(parts@), 0),
{
    let current: Vec<char> = vec!['.'];
    let parent: Vec<char> = vec!['.', '.'];
    assert(current@ =~= seq!['.']);
    assert(parent@ =~= seq!['.', '.']);
    let ghost views = texts_view(parts@);
    let ghost whole = followed_from(texts_view(base@), views, 0);
    let mut followed: Vec<Vec<char>> = base;
    let mut index: usize = 0;
    while index < parts.len()
        invariant
            index <= parts@.len(),
            current@ == seq!['.'],
            parent@ == seq!['.', '.'],
            views == texts_view(parts@),
            whole == followed_from(texts_view(followed@), views, index as int),
        decreases parts@.len() - index,
    {
        let part: &[char] = parts[index].as_slice();
        let ghost before = texts_view(followed@);
        proof {
            assert(views[index as int] == part@);
            assert(seq!['.', '.'].len() == 2 && seq!['.'].len() == 1);
            assert(before.len() == followed@.len());
        }
        if same_text(part, parent.as_slice()) {
            if followed.len() > 0 {
                let _last = followed.pop();
                assert(texts_view(followed@) =~= before.drop_last());
            }
        } else if !same_text(part, current.as_slice()) {
            followed.push(copy_text(part));
            assert(texts_view(followed@) =~= before.push(part@));
        }
        index += 1;
    }
    followed
}

/// Splits an absolute path into its components.
pub fn split_absolute_path(path: &str) -> (parts: Option<Vec<Vec<char>>>)
    ensures
        match parts {
            Some(parts) => is_absolute(path@) && texts_view(parts@) == path_parts(path@),
            None => !is_absolute(path@),
        },
{
    let chars: Vec<char> = text_chars(path);
    if chars.len() == 0 || chars[0] != '/' {
        return None;
    }
    Some(split_path(chars.as_slice()))
}

/// The root path has no parts.
pub proof fn lemma_root_parts()
    ensures
        is_absolute(seq!['/']),
        path_parts(seq!['/']) == Seq::<Seq<char>>::empty(),
{
    let path = seq!['/'];
    lemma_find_from(path, seq!['/'], 0);
    assert(path.subrange(0, 1) =~= seq!['/']);
    assert(matches_at(path, seq!['/'], 0));
    assert(component_end(path, 0) == 0);
    assert(parts_from(path, 1, Seq::empty()) == Seq::<Seq<char>>::empty());
}

/// A path that a separator and a name are added to has that name as one more part.
pub proof fn lemma_child_parts(path: Seq<char>, name: Seq<char>)
    requires
        name.len() > 0,
        !name.contains('/'),
    ensures
        path_parts(path + seq!['/'] + name) == path_parts(path).push(name),
{
    lemma_child_parts_from(path, name, 0, Seq::empty());
}

/// The part of a path that starts at a position ends at the first separator from there on.
proof fn lemma_component_end(path: Seq<char>, start: int, end: int)
    requires
        0 <= start <= end <= path.len(),
        forall|i: int| start <= i < end ==> path[i] != '/',
        end == path.len() || path[end] == '/',
    ensures
        component_end(path, start) == end,
{
    let separator = seq!['/'];
    lemma_find_from(path, separator, start);
    assert forall|i: int| start <= i < end implies !#[trigger] matches_at(path, separator, i) by {
        if matches_at(path, separator, i) {
            assert(path.subrange(i, i + 1)[0] == path[i]);
        }
    }
    if end < path.len() {
        assert(path.subrange(end, end + 1) =~= separator);
        assert(matches_at(path, separator, end));
    }
}

/// The first separator from a position on, or the end.
proof fn lemma_separator(path: Seq<char>, start: int)
    requires
        0 <= start <= path.len(),
    ensures
        start <= component_end(path, start) <= path.len(),
        forall|i: int| start <= i < component_end(path, start) ==> path[i] != '/',
        component_end(path, start) == path.len() || path[component_end(path, start)] == '/',
{
    let separator = seq!['/'];
    let end = component_end(path, start);
    lemma_find_from(path, separator, start);
    assert forall|i: int| start <= i < end implies path[i] != '/' by {
        if path[i] == '/' && i < path.len() {
            assert(path.subrange(i, i + 1) =~= separator);
            assert(matches_at(path, separator, i));
        }
    }
    if find_from(path, separator, start) is Some {
        assert(path.subrange(end, end + 1)[0] == path[end]);
    }
}

proof fn lemma_child_parts_from(
    path: Seq<char>,
    name: Seq<char>,
    start: int,
    parts: Seq<Seq<char>>,
)
    requires
        name.len() > 0,
        !name.contains('/'),
        0 <= start <= path.len() + 1,
    ensures
        parts_from(path + seq!['/'] + name, start, parts) == parts_from(path, start, parts).push(
            name,
        ),
    decreases path.len() + 1 - start,
{
    let longer = path + seq!['/'] + name;
    let count = path.len() as int;
    assert(longer[count] == '/');
    if start == count + 1 {
        assert forall|i: int| start <= i < longer.len() implies longer[i] != '/' by {
            assert(longer[i] == name[i - start]);
        }
        lemma_component_end(longer, start, longer.len() as int);
        assert(longer.subrange(start, longer.len() as int) =~= name);
        assert(parts_from(longer, longer.len() as int + 1, parts.push(name)) == parts.push(name));
    } else if start == count {
        lemma_component_end(longer, start, count);
        lemma_child_parts_from(path, name, start + 1, parts);
    } else {
        lemma_separator(path, start);
        let end = component_end(path, start);
        assert forall|i: int| start <= i < end implies longer[i] != '/' by {
            assert(longer[i] == path[i]);
        }
        assert(end < count ==> longer[end] == path[end]);
        lemma_component_end(longer, start, end);
        let part = path.subrange(start, end);
        assert(longer.subrange(start, end) =~= part);
        lemma_child_parts_from(
            path,
            name,
            end + 1,
            if part.len() == 0 {
                parts
            } else {
                parts.push(part)
            },
        );
    }
}

} // verus!
