//! Counting the members of a sequence that satisfy a condition.
use vstd::prelude::*;

verus! {

/// How many flags are set.
pub open spec fn count(flags: Seq<bool>) -> nat
    decreases flags.len(),
{
    if flags.len() == 0 {
        0
    } else {
        count(flags.drop_last()) + if flags.last() {
            1nat
        } else {
            0nat
        }
    }
}

/// One flag more.
pub proof fn lemma_count_push(flags: Seq<bool>, flag: bool)
    ensures
        count(flags.push(flag)) == count(flags) + if flag {
            1nat
        } else {
            0nat
        },
{
    assert(flags.push(flag).drop_last() =~= flags);
}

/// One flag changed.
pub proof fn lemma_count_update(flags: Seq<bool>, i: int, flag: bool)
    requires
        0 <= i < flags.len(),
    ensures
        count(flags.update(i, flag)) + if flags[i] {
            1nat
        } else {
            0nat
        } == count(flags) + if flag {
            1nat
        } else {
            0nat
        },
    decreases flags.len(),
{
    let updated = flags.update(i, flag);
    if i == flags.len() - 1 {
        assert(updated.drop_last() =~= flags.drop_last());
    } else {
        lemma_count_update(flags.drop_last(), i, flag);
        assert(updated.drop_last() =~= flags.drop_last().update(i, flag));
    }
}

/// At most all flags are set.
pub proof fn lemma_count_bound(flags: Seq<bool>)
    ensures
        count(flags) <= flags.len(),
    decreases flags.len(),
{
    if flags.len() > 0 {
        lemma_count_bound(flags.drop_last());
    }
}

/// The count is zero exactly when no flag is set.
pub proof fn lemma_count_zero(flags: Seq<bool>)
    ensures
        count(flags) == 0 <==> forall|i: int| 0 <= i < flags.len() ==> !#[trigger] flags[i],
    decreases flags.len(),
{
    if flags.len() > 0 {
        let rest = flags.drop_last();
        lemma_count_zero(rest);
        if count(flags) == 0 {
            assert forall|i: int| 0 <= i < flags.len() implies !#[trigger] flags[i] by {
                if i < rest.len() {
                    assert(rest[i] == flags[i]);
                }
            }
        }
        if forall|i: int| 0 <= i < flags.len() ==> !#[trigger] flags[i] {
            assert forall|i: int| 0 <= i < rest.len() implies !#[trigger] rest[i] by {
                assert(rest[i] == flags[i]);
            }
        }
    }
}

/// The count is the length exactly when every flag is set.
pub proof fn lemma_count_full(flags: Seq<bool>)
    ensures
        count(flags) == flags.len() <==> forall|i: int|
            0 <= i < flags.len() ==> #[trigger] flags[i],
    decreases flags.len(),
{
    if flags.len() > 0 {
        let rest = flags.drop_last();
        lemma_count_full(rest);
        lemma_count_bound(rest);
        if count(flags) == flags.len() {
            assert forall|i: int| 0 <= i < flags.len() implies #[trigger] flags[i] by {
                if i < rest.len() {
                    assert(rest[i] == flags[i]);
                }
            }
        }
        if forall|i: int| 0 <= i < flags.len() ==> #[trigger] flags[i] {
            assert forall|i: int| 0 <= i < rest.len() implies #[trigger] rest[i] by {
                assert(rest[i] == flags[i]);
            }
        }
    }
}

/// Fewer flags count less.
pub proof fn lemma_count_within(fewer: Seq<bool>, more: Seq<bool>)
    requires
        fewer.len() == more.len(),
        forall|i: int| 0 <= i < fewer.len() && #[trigger] fewer[i] ==> more[i],
    ensures
        count(fewer) <= count(more),
    decreases fewer.len(),
{
    if fewer.len() > 0 {
        let a = fewer.drop_last();
        let b = more.drop_last();
        assert forall|i: int| 0 <= i < a.len() && #[trigger] a[i] implies b[i] by {
            assert(fewer[i]);
        }
        lemma_count_within(a, b);
        assert(fewer[fewer.len() - 1] ==> more[fewer.len() - 1]);
    }
}

} // verus!
