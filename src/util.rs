use vstd::prelude::*;

verus! {

broadcast use vstd::seq_lib::group_to_multiset_ensures, vstd::multiset::group_multiset_axioms;

/// `n!`.
pub open spec fn factorial_spec(n: nat) -> nat
    decreases n,
{
    if n == 0 {
        1
    } else {
        n * factorial_spec((n - 1) as nat)
    }
}

/// `n!`, for an `n` whose factorial fits in a `usize`.
pub fn factorial(n: usize) -> (r: usize)
    requires
        factorial_spec(n as nat) <= usize::MAX,
    ensures
        r == factorial_spec(n as nat),
{
    let mut acc: usize = 1;
    let mut k: usize = 0;
    while k < n
        invariant
            0 <= k <= n,
            acc == factorial_spec(k as nat),
            factorial_spec(n as nat) <= usize::MAX,
        decreases n - k,
    {
        k += 1;
        proof {
            lemma_factorial_monotone(k as nat, n as nat);
            assert(factorial_spec(k as nat) == k * factorial_spec((k - 1) as nat));
            let f = factorial_spec(k as nat);
            assert(acc * k == f) by (nonlinear_arith)
                requires
                    acc == factorial_spec((k - 1) as nat),
                    f == k * factorial_spec((k - 1) as nat),
            ;
        }
        acc = acc * k;
    }
    acc
}

/// `n!`, or `usize::MAX` where that does not fit.
pub fn saturating_factorial(n: usize) -> (r: usize)
    ensures
        factorial_spec(n as nat) <= usize::MAX ==> r == factorial_spec(n as nat),
        factorial_spec(n as nat) > usize::MAX ==> r == usize::MAX,
{
    let mut acc: usize = 1;
    let mut k: usize = 0;
    while k < n
        invariant
            0 <= k <= n,
            acc == factorial_spec(k as nat),
        decreases n - k,
    {
        k += 1;
        if acc > usize::MAX / k {
            proof {
                assert(acc * k > usize::MAX) by (nonlinear_arith)
                    requires
                        acc > usize::MAX / k,
                        k >= 1,
                ;
                assert(factorial_spec(k as nat) == k * factorial_spec((k - 1) as nat));
                lemma_factorial_monotone(k as nat, n as nat);
                assert(factorial_spec(k as nat) > usize::MAX);
            }
            return usize::MAX;
        }
        proof {
            assert(acc * k <= usize::MAX) by (nonlinear_arith)
                requires
                    acc <= usize::MAX / k,
                    k >= 1,
            ;
        }
        acc = acc * k;
    }
    acc
}

proof fn lemma_factorial_monotone(a: nat, b: nat)
    requires
        a <= b,
    ensures
        factorial_spec(a) <= factorial_spec(b),
        factorial_spec(a) >= 1,
    decreases b,
{
    if b > 0 {
        if a < b {
            lemma_factorial_monotone(a, (b - 1) as nat);
        } else {
            lemma_factorial_monotone((a - 1) as nat, (b - 1) as nat);
        }
        assert(factorial_spec(b) == b * factorial_spec((b - 1) as nat));
        assert(b * factorial_spec((b - 1) as nat) >= factorial_spec((b - 1) as nat)) by (nonlinear_arith)
            requires
                b >= 1,
        ;
    }
}

/// Exchanges the elements at `i` and `j`.
pub fn swap_at<T: Copy>(v: &mut Vec<T>, i: usize, j: usize)
    requires
        i < old(v).len(),
        j < old(v).len(),
    ensures
        final(v)@ == old(v)@.update(i as int, old(v)@[j as int]).update(j as int, old(v)@[i as int]),
        final(v)@.to_multiset() == old(v)@.to_multiset(),
{
    let a = v[i];
    let b = v[j];
    let ghost s = v@;
    v.set(i, b);
    v.set(j, a);
    proof {
        let s1 = s.update(i as int, b);
        assert(s1.to_multiset() == s.to_multiset().insert(b).remove(a));
        assert(s1[j as int] == b);
        assert(s1.update(j as int, a).to_multiset() == s1.to_multiset().insert(a).remove(b));
        assert(s.to_multiset().contains(a));
        assert(s.to_multiset().insert(b).remove(a).insert(a).remove(b) =~= s.to_multiset());
    }
}

} // verus!
