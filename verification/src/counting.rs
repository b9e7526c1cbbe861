//! Counting the members of a sequence that have a property.
use vstd::prelude::*;

verus! {

/// How many members of `s` have the property `p`.
pub open spec fn count<A>(s: Seq<A>, p: spec_fn(A) -> bool) -> nat
    decreases s.len(),
{
    if s.len() == 0 {
        0
    } else {
        count(s.drop_last(), p) + if p(s.last()) {
            1nat
        } else {
            0nat
        }
    }
}

/// The sum of a sequence of numbers.
pub open spec fn sum(s: Seq<nat>) -> nat
    decreases s.len(),
{
    if s.len() == 0 {
        0
    } else {
        sum(s.drop_last()) + s.last()
    }
}

/// A count is never larger than the sequence.
pub proof fn lemma_count_at_most_len<A>(s: Seq<A>, p: spec_fn(A) -> bool)
    ensures
        count(s, p) <= s.len(),
    decreases s.len(),
{
    if s.len() > 0 {
        lemma_count_at_most_len(s.drop_last(), p);
    }
}

/// A member with the property makes the count positive.
pub proof fn lemma_count_positive<A>(s: Seq<A>, p: spec_fn(A) -> bool, i: int)
    requires
        0 <= i < s.len(),
        p(s[i]),
    ensures
        count(s, p) > 0,
    decreases s.len(),
{
    if i < s.len() - 1 {
        lemma_count_positive(s.drop_last(), p, i);
    }
}

/// Without a member that has the property the count is zero.
pub proof fn lemma_count_zero<A>(s: Seq<A>, p: spec_fn(A) -> bool)
    requires
        forall|i: int| 0 <= i < s.len() ==> !p(#[trigger] s[i]),
    ensures
        count(s, p) == 0,
    decreases s.len(),
{
    if s.len() > 0 {
        lemma_count_zero(s.drop_last(), p);
    }
}

/// The count is the length of the sequence exactly if every member has the property.
pub proof fn lemma_count_full<A>(s: Seq<A>, p: spec_fn(A) -> bool)
    ensures
        count(s, p) == s.len() <==> forall|i: int| 0 <= i < s.len() ==> p(#[trigger] s[i]),
    decreases s.len(),
{
    if s.len() > 0 {
        let shorter = s.drop_last();
        lemma_count_full(shorter, p);
        lemma_count_at_most_len(shorter, p);
        if count(s, p) == s.len() {
            assert forall|i: int| 0 <= i < s.len() implies p(#[trigger] s[i]) by {
                if i < s.len() - 1 {
                    assert(shorter[i] == s[i]);
                }
            }
        }
        if forall|i: int| 0 <= i < s.len() ==> p(#[trigger] s[i]) {
            assert forall|i: int| 0 <= i < shorter.len() implies p(#[trigger] shorter[i]) by {
                assert(shorter[i] == s[i]);
            }
            assert(p(s[s.len() - 1]));
        }
    }
}

/// Replacing one member changes the count by that member alone.
pub proof fn lemma_count_update<A>(s: Seq<A>, p: spec_fn(A) -> bool, i: int, a: A)
    requires
        0 <= i < s.len(),
    ensures
        count(s.update(i, a), p) == count(s, p) - (if p(s[i]) {
            1int
        } else {
            0int
        }) + (if p(a) {
            1int
        } else {
            0int
        }),
    decreases s.len(),
{
    let t = s.update(i, a);
    if i == s.len() - 1 {
        assert(t.drop_last() =~= s.drop_last());
    } else {
        lemma_count_update(s.drop_last(), p, i, a);
        assert(t.drop_last() =~= s.drop_last().update(i, a));
    }
}

/// Replacing one term changes the sum by that term alone.
pub proof fn lemma_sum_update(s: Seq<nat>, i: int, a: nat)
    requires
        0 <= i < s.len(),
    ensures
        sum(s.update(i, a)) == sum(s) - s[i] + a,
    decreases s.len(),
{
    let t = s.update(i, a);
    if i == s.len() - 1 {
        assert(t.drop_last() =~= s.drop_last());
    } else {
        lemma_sum_update(s.drop_last(), i, a);
        assert(t.drop_last() =~= s.drop_last().update(i, a));
    }
}

/// Counting goes element by element, and counts one exactly if it is looked for.
pub proof fn law_counting_goes_element_by_element<A>(s: Seq<A>, p: spec_fn(A) -> bool, a: A)
    ensures
        count(Seq::<A>::empty(), p) == 0,
        p(a) ==> count(s.push(a), p) == count(s, p) + 1,
        !p(a) ==> count(s.push(a), p) == count(s, p),
{
    assert(s.push(a).drop_last() =~= s);
}

} // verus!
