//! Lists of names that are in order and hold each name once.
use crate::text::{
    before, is_before, lemma_before_irreflexive, lemma_before_total, lemma_before_transitive, texts,
};
use vstd::prelude::*;

verus! {

broadcast use vstd::string::group_string_axioms;

/// The place of a name in a list that is in order: after all that come before it.
pub open spec fn place_of(names: Seq<Seq<char>>, name: Seq<char>) -> int
    decreases names.len(),
{
    if names.len() == 0 || !before(names[0], name) {
        0
    } else {
        1 + place_of(names.skip(1), name)
    }
}

/// A list in order with one more name, unless it holds the name already.
pub open spec fn with_name(names: Seq<Seq<char>>, name: Seq<char>) -> Seq<Seq<char>> {
    if names.contains(name) {
        names
    } else {
        names.insert(place_of(names, name), name)
    }
}

/// Whether each name comes before the next.
pub open spec fn in_order(names: Seq<Seq<char>>) -> bool {
    forall|i: int, j: int| 0 <= i < j < names.len() ==> before(#[trigger] names[i], #[trigger] names[j])
}

proof fn lemma_place_of(names: Seq<Seq<char>>, name: Seq<char>)
    ensures
        0 <= place_of(names, name) <= names.len(),
        forall|i: int| 0 <= i < place_of(names, name) ==> before(#[trigger] names[i], name),
        place_of(names, name) < names.len() ==> !before(names[place_of(names, name)], name),
    decreases names.len(),
{
    if names.len() > 0 && before(names[0], name) {
        let rest = names.skip(1);
        lemma_place_of(rest, name);
        assert forall|i: int| 0 <= i < place_of(names, name) implies before(
            #[trigger] names[i],
            name,
        ) by {
            if i > 0 {
                assert(names[i] == rest[i - 1]);
            }
        }
    }
}

/// The first place whose name does not come before the given one is `place_of`.
proof fn lemma_place_of_unique(names: Seq<Seq<char>>, name: Seq<char>, k: int)
    requires
        0 <= k <= names.len(),
        forall|i: int| 0 <= i < k ==> before(#[trigger] names[i], name),
        k < names.len() ==> !before(names[k], name),
    ensures
        place_of(names, name) == k,
{
    lemma_place_of(names, name);
    let p = place_of(names, name);
    if p < k {
        assert(before(names[p], name));
    }
    if k < p {
        assert(before(names[k], name));
    }
}

/// Adding a name keeps the order and adds no other name.
pub proof fn lemma_with_name(names: Seq<Seq<char>>, name: Seq<char>)
    requires
        in_order(names),
    ensures
        in_order(with_name(names, name)),
        forall|x: Seq<char>|
            with_name(names, name).contains(x) <==> names.contains(x) || x == name,
        with_name(names, name).len() <= names.len() + 1,
{
    if !names.contains(name) {
        lemma_place_of(names, name);
        let p = place_of(names, name);
        let all = with_name(names, name);
        assert forall|i: int| p <= i < names.len() implies before(name, #[trigger] names[i]) by {
            lemma_before_total(names[p], name);
            assert(names[p] != name);
            assert(before(name, names[p]));
            if i > p {
                assert(before(names[p], names[i]));
                lemma_before_transitive(name, names[p], names[i]);
            }
        }
        assert forall|i: int, j: int| 0 <= i < j < all.len() implies before(
            #[trigger] all[i],
            #[trigger] all[j],
        ) by {
            if i < p {
                assert(all[i] == names[i]);
            }
            if i > p {
                assert(all[i] == names[i - 1]);
            }
            if j < p {
                assert(all[j] == names[j]);
            }
            if j > p {
                assert(all[j] == names[j - 1]);
            }
        }
        assert forall|x: Seq<char>| all.contains(x) <==> names.contains(x) || x == name by {
            if all.contains(x) {
                let i = choose|i: int| 0 <= i < all.len() && all[i] == x;
                if i < p {
                    assert(names[i] == x);
                } else if i > p {
                    assert(names[i - 1] == x);
                }
            }
            if names.contains(x) {
                let i = choose|i: int| 0 <= i < names.len() && names[i] == x;
                if i < p {
                    assert(all[i] == x);
                } else {
                    assert(all[i + 1] == x);
                }
            }
            assert(all[p] == name);
        }
    }
}

/// Adds a name to a list that is in order, unless it is there already.
pub(crate) fn insert_name(names: &mut Vec<String>, name: &String)
    requires
        in_order(texts(old(names)@)),
    ensures
        texts(final(names)@) == with_name(texts(old(names)@), name@),
        in_order(texts(final(names)@)),
{
    let ghost all = texts(names@);
    proof {
        lemma_with_name(all, name@);
    }
    let mut i: usize = 0;
    while i < names.len() && is_before(names[i].as_str(), name.as_str())
        invariant
            i <= names.len(),
            all == texts(names@),
            forall|j: int| 0 <= j < i ==> before(#[trigger] all[j], name@),
        decreases names.len() - i,
    {
        assert(all[i as int] == names@[i as int]@);
        i = i + 1;
    }
    if i < names.len() && *names[i].as_str() == *name.as_str() {
        assert(all[i as int] == name@);
        assert(all.contains(name@));
        return;
    }
    proof {
        if i < names.len() {
            assert(all[i as int] == names@[i as int]@);
        }
        lemma_place_of_unique(all, name@, i as int);
        if all.contains(name@) {
            let j = choose|j: int| 0 <= j < all.len() && all[j] == name@;
            lemma_before_irreflexive(name@);
            if j > i {
                assert(before(all[i as int], all[j]));
            }
        }
    }
    names.insert(i, name.clone());
    assert(texts(names@) == all.insert(i as int, name@));
}

} // verus!
