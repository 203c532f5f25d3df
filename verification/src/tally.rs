use vstd::prelude::*;

verus! {

/// The number of elements of `s` that satisfy `p`.
pub open spec fn tally<T>(s: Seq<T>, p: spec_fn(T) -> bool) -> nat
    decreases s.len(),
{
    if s.len() == 0 {
        0
    } else {
        tally(s.drop_last(), p) + if p(s.last()) {
            1nat
        } else {
            0nat
        }
    }
}

/// What `v` adds to a tally of `p`.
pub open spec fn unit<T>(p: spec_fn(T) -> bool, v: T) -> int {
    if p(v) {
        1
    } else {
        0
    }
}

/// A tally counts no more elements than there are.
pub proof fn tally_bound<T>(s: Seq<T>, p: spec_fn(T) -> bool)
    ensures
        tally(s, p) <= s.len(),
    decreases s.len(),
{
    if s.len() > 0 {
        tally_bound(s.drop_last(), p);
    }
}

/// Replacing one element changes the tally by what the new element adds
/// less what the old one added.
pub proof fn tally_update<T>(s: Seq<T>, p: spec_fn(T) -> bool, i: int, v: T)
    requires
        0 <= i < s.len(),
    ensures
        tally(s.update(i, v), p) == tally(s, p) - unit(p, s[i]) + unit(p, v),
    decreases s.len(),
{
    let t = s.update(i, v);
    if i == s.len() - 1 {
        assert(t.drop_last() =~= s.drop_last());
    } else {
        tally_update(s.drop_last(), p, i, v);
        assert(t.drop_last() =~= s.drop_last().update(i, v));
    }
}

/// Appending one element adds what the element adds.
pub proof fn tally_push<T>(s: Seq<T>, p: spec_fn(T) -> bool, v: T)
    ensures
        tally(s.push(v), p) == tally(s, p) + unit(p, v),
{
    assert(s.push(v).drop_last() =~= s);
}

/// A sequence that satisfies `p` wherever another does, and at `j` where
/// the other does not, has the larger tally.
pub proof fn tally_grows<T>(s: Seq<T>, t: Seq<T>, p: spec_fn(T) -> bool, j: int)
    requires
        s.len() == t.len(),
        forall|i: int| 0 <= i < s.len() && p(s[i]) ==> p(t[i]),
        0 <= j < s.len(),
        !p(s[j]),
        p(t[j]),
    ensures
        tally(s, p) < tally(t, p),
    decreases s.len(),
{
    if j == s.len() - 1 {
        tally_never_shrinks(s.drop_last(), t.drop_last(), p);
    } else {
        tally_grows(s.drop_last(), t.drop_last(), p, j);
    }
}

/// A sequence that satisfies `p` wherever another does has at least the
/// tally of the other.
pub proof fn tally_never_shrinks<T>(s: Seq<T>, t: Seq<T>, p: spec_fn(T) -> bool)
    requires
        s.len() == t.len(),
        forall|i: int| 0 <= i < s.len() && p(s[i]) ==> p(t[i]),
    ensures
        tally(s, p) <= tally(t, p),
    decreases s.len(),
{
    if s.len() > 0 {
        tally_never_shrinks(s.drop_last(), t.drop_last(), p);
    }
}

/// The tally of two sequences, one after the other, is the sum of their
/// tallies.
pub proof fn tally_concat<T>(a: Seq<T>, b: Seq<T>, p: spec_fn(T) -> bool)
    ensures
        tally(a + b, p) == tally(a, p) + tally(b, p),
    decreases b.len(),
{
    if b.len() == 0 {
        assert(a + b =~= a);
    } else {
        assert((a + b).drop_last() =~= a + b.drop_last());
        tally_concat(a, b.drop_last(), p);
    }
}

} // verus!
