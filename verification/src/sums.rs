//! Sums over finite sets, and the bookkeeping for computing one by a walk
//! through a list of the set's members.

use vstd::prelude::*;

verus! {

/// The sum of `f` over the members of a finite set.
pub open spec fn set_sum<A>(s: Set<A>, f: spec_fn(A) -> int) -> int {
    s.fold(0int, |acc: int, a: A| acc + f(a))
}

/// The members of `s` among its first `n` positions.
pub open spec fn prefix_set<A>(s: Seq<A>, n: int) -> Set<A> {
    Set::new(|a: A| exists|i: int| 0 <= i < n && i < s.len() && #[trigger] s[i] == a)
}

/// The sum over no members is 0.
pub proof fn lemma_set_sum_empty<A>(f: spec_fn(A) -> int)
    ensures
        set_sum(Set::<A>::empty(), f) == 0,
{
    vstd::set::fold::lemma_fold_empty(0int, |acc: int, a: A| acc + f(a));
}

/// A new member adds its own term to the sum.
pub proof fn lemma_set_sum_insert<A>(s: Set<A>, f: spec_fn(A) -> int, a: A)
    requires
        s.finite(),
        !s.contains(a),
    ensures
        set_sum(s.insert(a), f) == set_sum(s, f) + f(a),
{
    let step = |acc: int, a: A| acc + f(a);
    assert(vstd::set::fold::is_fun_commutative(step));
    vstd::set::fold::lemma_fold_insert(s, 0int, step, a);
}

/// A member can be split off the sum.
pub proof fn lemma_set_sum_remove<A>(s: Set<A>, f: spec_fn(A) -> int, a: A)
    requires
        s.finite(),
        s.contains(a),
    ensures
        set_sum(s, f) == set_sum(s.remove(a), f) + f(a),
{
    lemma_set_sum_insert(s.remove(a), f, a);
    assert(s.remove(a).insert(a) =~= s);
}

/// Two functions that agree on every member have the same sum.
pub proof fn lemma_set_sum_agree<A>(s: Set<A>, f: spec_fn(A) -> int, h: spec_fn(A) -> int)
    requires
        s.finite(),
        forall|a: A| s.contains(a) ==> #[trigger] f(a) == h(a),
    ensures
        set_sum(s, f) == set_sum(s, h),
    decreases s.len(),
{
    if s.len() == 0 {
        assert(s =~= Set::<A>::empty());
        lemma_set_sum_empty(f);
        lemma_set_sum_empty(h);
    } else {
        let a = s.choose();
        lemma_set_sum_agree(s.remove(a), f, h);
        lemma_set_sum_remove(s, f, a);
        lemma_set_sum_remove(s, h, a);
    }
}

/// A sum of terms between `lo` and `hi` lies between `lo` and `hi` times the
/// number of members.
pub proof fn lemma_set_sum_bounds<A>(s: Set<A>, f: spec_fn(A) -> int, lo: int, hi: int)
    requires
        s.finite(),
        forall|a: A| s.contains(a) ==> lo <= #[trigger] f(a) <= hi,
    ensures
        lo * s.len() <= set_sum(s, f) <= hi * s.len(),
    decreases s.len(),
{
    if s.len() == 0 {
        assert(s =~= Set::<A>::empty());
        lemma_set_sum_empty(f);
    } else {
        let a = s.choose();
        lemma_set_sum_bounds(s.remove(a), f, lo, hi);
        lemma_set_sum_remove(s, f, a);
        assert(lo * s.len() == lo * (s.len() - 1) + lo) by (nonlinear_arith);
        assert(hi * s.len() == hi * (s.len() - 1) + hi) by (nonlinear_arith);
    }
}

/// A sum of terms that are not negative is not negative, and no smaller
/// than any of its terms.
pub proof fn lemma_set_sum_nonnegative<A>(s: Set<A>, f: spec_fn(A) -> int)
    requires
        s.finite(),
        forall|a: A| s.contains(a) ==> 0 <= #[trigger] f(a),
    ensures
        0 <= set_sum(s, f),
        forall|a: A| s.contains(a) ==> #[trigger] f(a) <= set_sum(s, f),
    decreases s.len(),
{
    if s.len() == 0 {
        assert(s =~= Set::<A>::empty());
        lemma_set_sum_empty(f);
    } else {
        let b = s.choose();
        lemma_set_sum_nonnegative(s.remove(b), f);
        lemma_set_sum_remove(s, f, b);
        assert forall|a: A| s.contains(a) implies #[trigger] f(a) <= set_sum(s, f) by {
            if a != b {
                assert(s.remove(b).contains(a));
            }
        }
    }
}

/// The sum of a weighted combination of three functions is the same
/// combination of their sums.
pub proof fn lemma_set_sum_combine<A>(
    s: Set<A>,
    f1: spec_fn(A) -> int,
    f2: spec_fn(A) -> int,
    f3: spec_fn(A) -> int,
    c1: int,
    c2: int,
    c3: int,
    h: spec_fn(A) -> int,
)
    requires
        s.finite(),
        forall|a: A| s.contains(a) ==> #[trigger] h(a) == c1 * f1(a) + c2 * f2(a) + c3 * f3(a),
    ensures
        set_sum(s, h) == c1 * set_sum(s, f1) + c2 * set_sum(s, f2) + c3 * set_sum(s, f3),
    decreases s.len(),
{
    if s.len() == 0 {
        assert(s =~= Set::<A>::empty());
        lemma_set_sum_empty(f1);
        lemma_set_sum_empty(f2);
        lemma_set_sum_empty(f3);
        lemma_set_sum_empty(h);
    } else {
        let a = s.choose();
        let rest = s.remove(a);
        lemma_set_sum_combine(rest, f1, f2, f3, c1, c2, c3, h);
        lemma_set_sum_remove(s, f1, a);
        lemma_set_sum_remove(s, f2, a);
        lemma_set_sum_remove(s, f3, a);
        lemma_set_sum_remove(s, h, a);
        assert(c1 * (set_sum(rest, f1) + f1(a)) == c1 * set_sum(rest, f1) + c1 * f1(a))
            by (nonlinear_arith);
        assert(c2 * (set_sum(rest, f2) + f2(a)) == c2 * set_sum(rest, f2) + c2 * f2(a))
            by (nonlinear_arith);
        assert(c3 * (set_sum(rest, f3) + f3(a)) == c3 * set_sum(rest, f3) + c3 * f3(a))
            by (nonlinear_arith);
    }
}

/// No member lies among the first 0 positions.
pub proof fn lemma_prefix_set_start<A>(s: Seq<A>)
    ensures
        prefix_set(s, 0) == Set::<A>::empty(),
{
    assert(prefix_set(s, 0) =~= Set::<A>::empty());
}

/// Going one position further in a list without repetitions adds one new
/// member.
pub proof fn lemma_prefix_set_step<A>(s: Seq<A>, n: int)
    requires
        s.no_duplicates(),
        0 <= n < s.len(),
        prefix_set(s, n).finite(),
    ensures
        !prefix_set(s, n).contains(s[n]),
        prefix_set(s, n + 1) == prefix_set(s, n).insert(s[n]),
        prefix_set(s, n + 1).finite(),
        prefix_set(s, n + 1).len() == prefix_set(s, n).len() + 1,
{
    assert(prefix_set(s, n + 1) =~= prefix_set(s, n).insert(s[n]));
}

/// All positions together hold every member of the list.
pub proof fn lemma_prefix_set_whole<A>(s: Seq<A>, whole: Set<A>)
    requires
        forall|a: A| s.contains(a) <==> whole.contains(a),
    ensures
        prefix_set(s, s.len() as int) == whole,
{
    assert forall|a: A| prefix_set(s, s.len() as int).contains(a) <==> whole.contains(a) by {
        if whole.contains(a) {
            assert(s.contains(a));
            let i = choose|i: int| 0 <= i < s.len() && s[i] == a;
            assert(s[i] == a);
        }
        if prefix_set(s, s.len() as int).contains(a) {
            let i = choose|i: int| 0 <= i < s.len() && i < s.len() && #[trigger] s[i] == a;
            assert(s.contains(a));
        }
    }
    assert(prefix_set(s, s.len() as int) =~= whole);
}

} // verus!
