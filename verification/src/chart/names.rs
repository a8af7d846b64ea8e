//! Sorted lists of names without repetition.
use vstd::prelude::*;

use super::words::{lemma_total, lemma_transitive, precedes, same_text, text_precedes};

verus! {

/// Whether the names stand in ascending order, each once.
pub open spec fn ascending(names: Seq<Seq<char>>) -> bool {
    forall|i: int, j: int|
        0 <= i < j < names.len() ==> precedes(#[trigger] names[i], #[trigger] names[j])
}

/// How many names at the front come before `name`.
pub open spec fn place(names: Seq<Seq<char>>, name: Seq<char>) -> int
    decreases names.len(),
{
    if names.len() == 0 || !precedes(names[0], name) {
        0
    } else {
        1 + place(names.skip(1), name)
    }
}

/// The names with one more, unless it is there already.
pub open spec fn with_name(names: Seq<Seq<char>>, name: Seq<char>) -> Seq<Seq<char>> {
    let p = place(names, name);
    if p < names.len() && names[p] == name {
        names
    } else {
        names.insert(p, name)
    }
}

/// The names in a list in ascending order, each once.
pub open spec fn sorted_names(list: Seq<Seq<char>>) -> Seq<Seq<char>>
    decreases list.len(),
{
    if list.len() == 0 {
        Seq::empty()
    } else {
        with_name(sorted_names(list.drop_last()), list.last())
    }
}

/// The place of a name divides the list.
pub proof fn lemma_place(names: Seq<Seq<char>>, name: Seq<char>)
    ensures
        0 <= place(names, name) <= names.len(),
        forall|i: int| 0 <= i < place(names, name) ==> precedes(#[trigger] names[i], name),
        place(names, name) < names.len() ==> !precedes(names[place(names, name)], name),
    decreases names.len(),
{
    if names.len() > 0 && precedes(names[0], name) {
        let rest = names.skip(1);
        lemma_place(rest, name);
        assert forall|i: int| 0 <= i < place(names, name) implies precedes(
            #[trigger] names[i],
            name,
        ) by {
            if i > 0 {
                assert(rest[i - 1] == names[i]);
            }
        }
    }
}

/// Adding a name keeps the order.
proof fn lemma_with_name(names: Seq<Seq<char>>, name: Seq<char>)
    requires
        ascending(names),
    ensures
        ascending(with_name(names, name)),
        forall|x: Seq<char>| #[trigger]
            with_name(names, name).contains(x) <==> names.contains(x) || x == name,
{
    let p = place(names, name);
    let more = with_name(names, name);
    lemma_place(names, name);
    if p < names.len() && names[p] == name {
        assert(names.contains(name));
    } else {
        if p < names.len() {
            lemma_total(names[p], name);
        }
        assert forall|j: int| p <= j < names.len() implies precedes(name, #[trigger] names[j]) by {
            if j > p {
                lemma_transitive(name, names[p], names[j]);
            }
        }
        assert forall|i: int, j: int| 0 <= i < j < more.len() implies precedes(
            #[trigger] more[i],
            #[trigger] more[j],
        ) by {
            let a = if i < p {
                i
            } else {
                i - 1
            };
            let b = if j < p {
                j
            } else {
                j - 1
            };
            if i != p {
                assert(more[i] == names[a]);
            }
            if j != p {
                assert(more[j] == names[b]);
            }
        }
        assert(more[p] == name);
        assert forall|x: Seq<char>| #[trigger] more.contains(x) <==> names.contains(x) || x
            == name by {
            if more.contains(x) && x != name {
                let i = choose|i: int| 0 <= i < more.len() && more[i] == x;
                if i < p {
                    assert(names[i] == x);
                } else {
                    assert(names[i - 1] == x);
                }
            }
            if names.contains(x) {
                let i = choose|i: int| 0 <= i < names.len() && names[i] == x;
                if i < p {
                    assert(more[i] == x);
                } else {
                    assert(more[i + 1] == x);
                }
            }
        }
    }
}

/// The sorted names are in ascending order and are those of the list.
pub proof fn lemma_sorted_names(list: Seq<Seq<char>>)
    ensures
        ascending(sorted_names(list)),
        forall|x: Seq<char>| #[trigger] sorted_names(list).contains(x) <==> list.contains(x),
    decreases list.len(),
{
    if list.len() > 0 {
        let fewer = list.drop_last();
        lemma_sorted_names(fewer);
        lemma_with_name(sorted_names(fewer), list.last());
        assert forall|x: Seq<char>| #[trigger] sorted_names(list).contains(x) <==> list.contains(
            x,
        ) by {
            if list.contains(x) && x != list.last() {
                let i = choose|i: int| 0 <= i < list.len() && list[i] == x;
                assert(fewer[i] == x);
            }
            if fewer.contains(x) {
                let i = choose|i: int| 0 <= i < fewer.len() && fewer[i] == x;
                assert(list[i] == x);
            }
            if x == list.last() {
                assert(list[list.len() - 1] == x);
            }
        }
    }
}

/// What a list of texts holds.
pub open spec fn texts(list: Seq<String>) -> Seq<Seq<char>> {
    Seq::new(list.len(), |i: int| list[i]@)
}

/// Add a name to a sorted list, unless it is there already.
pub fn add_name(names: &mut Vec<String>, name: &str)
    ensures
        texts(final(names)@) == with_name(texts(old(names)@), name@),
{
    let ghost all = texts(names@);
    let mut i: usize = 0;
    assert(all.skip(0) =~= all);
    while i < names.len() && text_precedes(names[i].as_str(), name)
        invariant
            i <= names@.len(),
            all == texts(names@),
            i + place(all.skip(i as int), name@) == place(all, name@),
        decreases names@.len() - i,
    {
        assert(all.skip(i as int).skip(1) =~= all.skip(i + 1));
        i += 1;
    }
    assert(place(all.skip(i as int), name@) == 0) by {
        if i < all.len() {
            assert(all.skip(i as int)[0] == all[i as int]);
        }
    }
    if i < names.len() && same_text(names[i].as_str(), name) {
        return;
    }
    names.insert(i, name.to_owned());
    assert(texts(names@) =~= all.insert(i as int, name@));
}

} // verus!
