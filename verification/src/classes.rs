//! Class names and the positions that stand for them.
//!
//! A label is a position in a list of class names. Two datasets number their
//! classes independently, so a class is identified by its name: the exact
//! sequence of characters, with no folding of case or of Unicode forms.

use vstd::prelude::*;
use crate::table::names_of;

verus! {

/// The most classes that a dataset can name.
pub const MAX_CLASSES: usize = 65535;

/// The most bytes that the UTF-8 form of a class name can take.
pub const MAX_NAME_BYTES: usize = 65534;

/// The first position of `name` in `names`, or the length of `names` if the
/// name does not occur.
pub open spec fn index_of(names: Seq<Seq<char>>, name: Seq<char>) -> int
    decreases names.len(),
{
    if names.len() == 0 || names[0] == name {
        0
    } else {
        1 + index_of(names.drop_first(), name)
    }
}

/// Whether `name` occurs in `names`.
pub open spec fn has_name(names: Seq<Seq<char>>, name: Seq<char>) -> bool {
    index_of(names, name) < names.len()
}

/// The list after `name` has been looked up in it: unchanged if the name
/// occurs, with the name added at the end if it does not.
pub open spec fn with_name(names: Seq<Seq<char>>, name: Seq<char>) -> Seq<Seq<char>> {
    if has_name(names, name) {
        names
    } else {
        names.push(name)
    }
}

/// `index_of` lies within the list or just behind it, no earlier entry is
/// the name, and the entry at it is.
pub proof fn lemma_index_of(names: Seq<Seq<char>>, name: Seq<char>)
    ensures
        0 <= index_of(names, name) <= names.len(),
        forall|i: int| 0 <= i < index_of(names, name) ==> names[i] != name,
        has_name(names, name) ==> names[index_of(names, name)] == name,
        has_name(names, name) <==> names.contains(name),
    decreases names.len(),
{
    if names.len() == 0 {
    } else if names[0] == name {
        assert(names.contains(name));
    } else {
        let tail = names.drop_first();
        lemma_index_of(tail, name);
        let at = index_of(names, name);
        assert forall|i: int| 0 <= i < at implies names[i] != name by {
            if i > 0 {
                assert(names[i] == tail[i - 1]);
            }
        }
        if has_name(names, name) {
            assert(names[at] == tail[at - 1]);
            assert(names.contains(name));
        }
        if names.contains(name) {
            let i = choose|i: int| 0 <= i < names.len() && names[i] == name;
            assert(tail[i - 1] == name);
            assert(tail.contains(name));
        }
    }
}

/// A position that has the name at it and not before it is `index_of`.
pub proof fn lemma_index_of_is(names: Seq<Seq<char>>, name: Seq<char>, at: int)
    requires
        0 <= at <= names.len(),
        forall|i: int| 0 <= i < at ==> names[i] != name,
        at < names.len() ==> names[at] == name,
    ensures
        index_of(names, name) == at,
    decreases names.len(),
{
    if at > 0 {
        let tail = names.drop_first();
        assert forall|i: int| 0 <= i < at - 1 implies tail[i] != name by {
            assert(tail[i] == names[i + 1]);
        }
        lemma_index_of_is(tail, name, at - 1);
    }
}

/// In a list without repetition every entry is found at its own position.
pub proof fn lemma_index_of_own(names: Seq<Seq<char>>, at: int)
    requires
        names.no_duplicates(),
        0 <= at < names.len(),
    ensures
        index_of(names, names[at]) == at,
{
    lemma_index_of_is(names, names[at], at);
}

/// Looking a name up keeps every earlier entry where it was, keeps a list
/// without repetition free of it, and leaves the name in the list.
pub proof fn lemma_with_name(names: Seq<Seq<char>>, name: Seq<char>)
    ensures
        names.len() <= with_name(names, name).len() <= names.len() + 1,
        with_name(names, name).subrange(0, names.len() as int) == names,
        has_name(with_name(names, name), name),
        index_of(with_name(names, name), name) == index_of(names, name),
        names.no_duplicates() ==> with_name(names, name).no_duplicates(),
        forall|other: Seq<char>|
            has_name(names, other) ==> #[trigger] index_of(with_name(names, name), other)
                == index_of(names, other),
{
    let after = with_name(names, name);
    lemma_index_of(names, name);
    assert(after.subrange(0, names.len() as int) =~= names);
    lemma_index_of_is(after, name, index_of(names, name));
    assert forall|other: Seq<char>| has_name(names, other) implies #[trigger] index_of(
        after,
        other,
    ) == index_of(names, other) by {
        lemma_index_of(names, other);
        lemma_index_of_is(after, other, index_of(names, other));
    }
}

/// Finds the first class with the given name.
pub fn find_class(classes: &Vec<String>, name: &String) -> (found: Option<usize>)
    ensures
        match found {
            Some(at) => has_name(names_of(classes@), name@) && at == index_of(
                names_of(classes@),
                name@,
            ),
            None => !has_name(names_of(classes@), name@),
        },
{
    let ghost names = names_of(classes@);
    let mut i: usize = 0;
    while i < classes.len()
        invariant
            i <= classes.len(),
            names == names_of(classes@),
            forall|j: int| 0 <= j < i ==> names[j] != name@,
        decreases classes.len() - i,
    {
        if classes[i] == *name {
            proof {
                lemma_index_of_is(names, name@, i as int);
            }
            return Some(i);
        }
        i += 1;
    }
    proof {
        lemma_index_of_is(names, name@, names.len() as int);
    }
    None
}

} // verus!
