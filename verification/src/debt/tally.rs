//! Counting the entries of a sequence that have a property.

use vstd::prelude::*;

verus! {

/// How many entries of `s` have the property.
pub open spec fn tally<A>(s: Seq<A>, property: spec_fn(A) -> bool) -> nat
    decreases s.len(),
{
    if s.len() == 0 {
        0
    } else {
        tally(s.drop_last(), property) + one_if(property(s.last()))
    }
}

/// One if the condition holds, else zero.
pub open spec fn one_if(condition: bool) -> nat {
    if condition {
        1
    } else {
        0
    }
}

/// A new entry counts for itself.
pub proof fn lemma_push<A>(s: Seq<A>, a: A, property: spec_fn(A) -> bool)
    ensures
        tally(s.push(a), property) == tally(s, property) + one_if(property(a)),
{
    assert(s.push(a).drop_last() =~= s);
}

/// A replaced entry counts for itself in place of the old one.
pub proof fn lemma_update<A>(s: Seq<A>, i: int, a: A, property: spec_fn(A) -> bool)
    requires
        0 <= i < s.len(),
    ensures
        tally(s.update(i, a), property) + one_if(property(s[i])) == tally(s, property) + one_if(
            property(a),
        ),
    decreases s.len(),
{
    let n = s.len() - 1;
    if i == n {
        assert(s.update(i, a).drop_last() =~= s.drop_last());
    } else {
        assert(s.update(i, a).drop_last() =~= s.drop_last().update(i, a));
        lemma_update(s.drop_last(), i, a, property);
    }
}

/// A wider property counts at least as many entries.
pub proof fn lemma_wider<A>(s: Seq<A>, narrow: spec_fn(A) -> bool, wide: spec_fn(A) -> bool)
    requires
        forall|i: int| 0 <= i < s.len() && narrow(#[trigger] s[i]) ==> wide(s[i]),
    ensures
        tally(s, narrow) <= tally(s, wide),
    decreases s.len(),
{
    if s.len() > 0 {
        assert forall|i: int| 0 <= i < s.drop_last().len() && narrow(#[trigger] s.drop_last()[i])
            implies wide(s.drop_last()[i]) by {
            assert(s.drop_last()[i] == s[i]);
        }
        lemma_wider(s.drop_last(), narrow, wide);
        assert(s[s.len() - 1] == s.last());
    }
}

/// A property that an entry has besides those that a narrower one counts, counts more entries.
pub proof fn lemma_strictly_wider<A>(
    s: Seq<A>,
    narrow: spec_fn(A) -> bool,
    wide: spec_fn(A) -> bool,
    k: int,
)
    requires
        forall|i: int| 0 <= i < s.len() && narrow(#[trigger] s[i]) ==> wide(s[i]),
        0 <= k < s.len(),
        wide(s[k]),
        !narrow(s[k]),
    ensures
        tally(s, narrow) < tally(s, wide),
    decreases s.len(),
{
    let init = s.drop_last();
    assert forall|i: int| 0 <= i < init.len() && narrow(#[trigger] init[i]) implies wide(
        init[i],
    ) by {
        assert(init[i] == s[i]);
    }
    assert(s[s.len() - 1] == s.last());
    if k == s.len() - 1 {
        lemma_wider(init, narrow, wide);
    } else {
        assert(init[k] == s[k]);
        lemma_strictly_wider(init, narrow, wide, k);
    }
}

/// The entries of two sequences are counted one after the other.
pub proof fn lemma_append<A>(s: Seq<A>, more: Seq<A>, property: spec_fn(A) -> bool)
    ensures
        tally(s + more, property) == tally(s, property) + tally(more, property),
    decreases more.len(),
{
    if more.len() == 0 {
        assert(s + more =~= s);
    } else {
        assert((s + more).drop_last() =~= s + more.drop_last());
        lemma_append(s, more.drop_last(), property);
    }
}

/// No more is counted than there is.
pub proof fn lemma_bound<A>(s: Seq<A>, property: spec_fn(A) -> bool)
    ensures
        tally(s, property) <= s.len(),
    decreases s.len(),
{
    if s.len() > 0 {
        lemma_bound(s.drop_last(), property);
    }
}

/// Where nothing has the property, nothing is counted.
pub proof fn lemma_none<A>(s: Seq<A>, property: spec_fn(A) -> bool)
    requires
        forall|i: int| 0 <= i < s.len() ==> !property(#[trigger] s[i]),
    ensures
        tally(s, property) == 0,
    decreases s.len(),
{
    if s.len() > 0 {
        assert forall|i: int| 0 <= i < s.drop_last().len() implies !property(
            #[trigger] s.drop_last()[i],
        ) by {
            assert(s.drop_last()[i] == s[i]);
        }
        lemma_none(s.drop_last(), property);
        assert(s[s.len() - 1] == s.last());
    }
}

/// Where an entry has the property, it is counted.
pub proof fn lemma_some<A>(s: Seq<A>, property: spec_fn(A) -> bool, k: int)
    requires
        0 <= k < s.len(),
        property(s[k]),
    ensures
        tally(s, property) >= 1,
{
    let none = |a: A| false;
    lemma_strictly_wider(s, none, property, k);
}

} // verus!
