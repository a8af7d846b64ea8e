//! Sums of multisets.
use vstd::multiset::Multiset;
use vstd::prelude::*;

verus! {

/// All bags together.
pub open spec fn total<V>(bags: Seq<Multiset<V>>) -> Multiset<V>
    decreases bags.len(),
{
    if bags.len() == 0 {
        Multiset::empty()
    } else {
        total(bags.drop_last()).add(bags.last())
    }
}

/// One bag more.
pub proof fn lemma_total_push<V>(bags: Seq<Multiset<V>>, bag: Multiset<V>)
    ensures
        total(bags.push(bag)) == total(bags).add(bag),
{
    assert(bags.push(bag).drop_last() =~= bags);
}

/// One bag exchanged.
pub proof fn lemma_total_update<V>(bags: Seq<Multiset<V>>, i: int, bag: Multiset<V>)
    requires
        0 <= i < bags.len(),
    ensures
        forall|v: V| #[trigger]
            total(bags.update(i, bag)).count(v) + bags[i].count(v) == total(bags).count(v)
                + bag.count(v),
    decreases bags.len(),
{
    let changed = bags.update(i, bag);
    if i == bags.len() - 1 {
        assert(changed.drop_last() =~= bags.drop_last());
    } else {
        lemma_total_update(bags.drop_last(), i, bag);
        assert(changed.drop_last() =~= bags.drop_last().update(i, bag));
        assert forall|v: V| #[trigger]
            total(changed).count(v) + bags[i].count(v) == total(bags).count(v) + bag.count(v) by {
            assert(total(changed.drop_last()).count(v) + bags[i].count(v) == total(
                bags.drop_last(),
            ).count(v) + bag.count(v));
        }
    }
}

/// What is in two bags is in all of them together, as often as in both.
pub proof fn lemma_total_members<V>(bags: Seq<Multiset<V>>, i: int, j: int, v: V)
    requires
        0 <= i < bags.len(),
        0 <= j < bags.len(),
    ensures
        bags[i].count(v) <= total(bags).count(v),
        i != j ==> bags[i].count(v) + bags[j].count(v) <= total(bags).count(v),
    decreases bags.len(),
{
    let last = bags.len() - 1;
    if i < last && j < last {
        lemma_total_members(bags.drop_last(), i, j, v);
    } else if i < last {
        lemma_total_members(bags.drop_last(), i, i, v);
    } else if j < last {
        lemma_total_members(bags.drop_last(), j, j, v);
    }
}

/// What is in all bags together is in one of them.
pub proof fn lemma_total_source<V>(bags: Seq<Multiset<V>>, v: V) -> (i: int)
    requires
        total(bags).count(v) > 0,
    ensures
        0 <= i < bags.len(),
        bags[i].count(v) > 0,
    decreases bags.len(),
{
    if bags.last().count(v) > 0 {
        bags.len() - 1
    } else {
        lemma_total_source(bags.drop_last(), v)
    }
}

/// Empty bags make an empty bag.
pub proof fn lemma_total_empty<V>(bags: Seq<Multiset<V>>)
    requires
        forall|i: int| 0 <= i < bags.len() ==> #[trigger] bags[i] == Multiset::<V>::empty(),
    ensures
        total(bags) == Multiset::<V>::empty(),
{
    assert forall|v: V| total(bags).count(v) == 0 by {
        if total(bags).count(v) > 0 {
            let i = lemma_total_source(bags, v);
        }
    }
    assert(total(bags) =~= Multiset::<V>::empty());
}

/// The bag of a sequence without its first member.
pub proof fn lemma_bag_front<V>(s: Seq<V>)
    requires
        s.len() > 0,
    ensures
        forall|v: V| #[trigger]
            s.to_multiset().count(v) == s.drop_first().to_multiset().count(v) + if v == s[0] {
                1nat
            } else {
                0nat
            },
{
    broadcast use vstd::seq_lib::group_to_multiset_ensures;

    assert(s.remove(0) =~= s.drop_first());
    assert(s.to_multiset().contains(s[0]));
}

/// The bag of a sequence with one member more.
pub proof fn lemma_bag_push<V>(s: Seq<V>, x: V)
    ensures
        forall|v: V| #[trigger]
            s.push(x).to_multiset().count(v) == s.to_multiset().count(v) + if v == x {
                1nat
            } else {
                0nat
            },
{
    broadcast use vstd::seq_lib::group_to_multiset_ensures;

}

/// The bag of two sequences.
pub proof fn lemma_bag_concat<V>(a: Seq<V>, b: Seq<V>)
    ensures
        forall|v: V| #[trigger]
            (a + b).to_multiset().count(v) == a.to_multiset().count(v) + b.to_multiset().count(v),
{
    vstd::seq_lib::lemma_multiset_commutative(a, b);
}

/// What stands at a place of a sequence is in its bag, and twice if it stands at
/// another place too.
pub proof fn lemma_bag_places<V>(s: Seq<V>, a: int, b: int)
    requires
        0 <= a < s.len(),
        0 <= b < s.len(),
    ensures
        s.to_multiset().count(s[a]) > 0,
        a != b && s[a] == s[b] ==> s.to_multiset().count(s[a]) > 1,
    decreases s.len(),
{
    broadcast use vstd::seq_lib::group_to_multiset_ensures;

    assert(s.to_multiset().contains(s[a]));
    if a != b && s[a] == s[b] {
        let rest = s.remove(a);
        let place = if b < a {
            b
        } else {
            b - 1
        };
        assert(rest[place] == s[b]);
        assert(rest.to_multiset().contains(s[b]));
        assert(rest.to_multiset() =~= s.to_multiset().remove(s[a]));
    }
}

/// The values among the results.
pub open spec fn values_of<V, E>(results: Seq<Result<V, E>>) -> Multiset<V>
    decreases results.len(),
{
    if results.len() == 0 {
        Multiset::empty()
    } else {
        let earlier = values_of(results.drop_last());
        match results.last() {
            Ok(value) => earlier.insert(value),
            Err(_) => earlier,
        }
    }
}

/// The bag of no sequence.
pub proof fn lemma_bag_empty<V>()
    ensures
        Seq::<V>::empty().to_multiset() == Multiset::<V>::empty(),
{
    broadcast use vstd::seq_lib::group_to_multiset_ensures;

    assert(Seq::<V>::empty().to_multiset() =~= Multiset::<V>::empty());
}

} // verus!
