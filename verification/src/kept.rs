//! Where what is kept of a list stands among itself: behind as many others as are
//! kept before it.
use vstd::prelude::*;

verus! {

/// How many of the first values are kept.
pub open spec fn count_kept<A>(s: Seq<A>, keep: spec_fn(A) -> bool, n: int) -> int
    decreases n,
{
    if n <= 0 {
        0
    } else {
        count_kept(s, keep, n - 1) + if keep(s[n - 1]) {
            1int
        } else {
            0int
        }
    }
}

/// The count grows with the list, by one at most for each value.
pub proof fn count_kept_grows<A>(s: Seq<A>, keep: spec_fn(A) -> bool, a: int, b: int)
    requires
        0 <= a <= b,
    ensures
        0 <= count_kept(s, keep, a) <= count_kept(s, keep, b) <= count_kept(s, keep, a) + b - a,
        count_kept(s, keep, a) <= a,
        a < b && keep(s[a]) ==> count_kept(s, keep, a) < count_kept(s, keep, b),
    decreases b,
{
    if b > a {
        count_kept_grows(s, keep, a, b - 1);
    } else if a > 0 {
        count_kept_grows(s, keep, a - 1, a - 1);
    }
}

/// The count of the first values speaks of no others.
pub proof fn count_kept_of_prefix<A>(s: Seq<A>, t: Seq<A>, keep: spec_fn(A) -> bool, n: int)
    requires
        forall|i: int| 0 <= i < n ==> s[i] == t[i],
    ensures
        count_kept(s, keep, n) == count_kept(t, keep, n),
    decreases n,
{
    if n > 0 {
        count_kept_of_prefix(s, t, keep, n - 1);
    }
}

/// Filtering keeps as many values as there are to keep, each of them, and in
/// their order: a value comes out behind as many as are kept before it.
pub proof fn filtering_keeps_in_order<A>(s: Seq<A>, keep: spec_fn(A) -> bool, i: int)
    ensures
        s.filter(keep).len() == count_kept(s, keep, s.len() as int),
        0 <= i < s.len() && keep(s[i]) ==> 0 <= count_kept(s, keep, i) < s.filter(keep).len()
            && s.filter(keep)[count_kept(s, keep, i)] == s[i],
    decreases s.len(),
{
    reveal(Seq::filter);
    if s.len() > 0 {
        let t = s.drop_last();
        filtering_keeps_in_order(t, keep, i);
        count_kept_of_prefix(s, t, keep, t.len() as int);
        if 0 <= i < s.len() {
            count_kept_of_prefix(s, t, keep, i);
            count_kept_grows(s, keep, i, s.len() as int);
        }
    }
}

} // verus!
