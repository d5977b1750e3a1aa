use vstd::prelude::*;
use vstd::arithmetic::power::pow;
use crate::counting::{count_of, is_count_listing, value_counts, lemma_count_of_push, lemma_count_of_bound};
use vstd::arithmetic::power::{lemma_pow0, lemma_pow_adds, lemma_pow1, lemma_pow_increases};

verus! {

/// `n!`
pub open spec fn fact_spec(n: nat) -> nat
    decreases n,
{
    if n <= 1 {
        1
    } else {
        n * fact_spec((n - 1) as nat)
    }
}

pub proof fn lemma_fact_positive(n: nat)
    ensures
        fact_spec(n) >= 1,
    decreases n,
{
    if n > 1 {
        lemma_fact_positive((n - 1) as nat);
        assert(n * fact_spec((n - 1) as nat) >= 1) by (nonlinear_arith)
            requires
                n > 1,
                fact_spec((n - 1) as nat) >= 1,
        ;
    }
}

pub proof fn lemma_fact_monotone(a: nat, b: nat)
    requires
        a <= b,
    ensures
        fact_spec(a) <= fact_spec(b),
    decreases b,
{
    if a < b {
        lemma_fact_monotone(a, (b - 1) as nat);
        lemma_fact_positive((b - 1) as nat);
        if b > 1 {
            assert(fact_spec((b - 1) as nat) <= b * fact_spec((b - 1) as nat)) by (nonlinear_arith)
                requires
                    b >= 1,
            ;
        }
    }
}

/// `a! * b! <= (a + b)!`
pub proof fn lemma_fact_product(a: nat, b: nat)
    ensures
        fact_spec(a) * fact_spec(b) <= fact_spec(a + b),
    decreases b,
{
    lemma_fact_positive(a);
    if b <= 1 {
        lemma_fact_monotone(a, a + b);
        assert(fact_spec(b) == 1);
        assert(fact_spec(a) * 1 == fact_spec(a));
    } else {
        let b1 = (b - 1) as nat;
        lemma_fact_product(a, b1);
        lemma_fact_positive(b1);
        let fa = fact_spec(a);
        let fb1 = fact_spec(b1);
        let fab1 = fact_spec(a + b1);
        assert(fact_spec(b) == b * fb1);
        assert(fact_spec(a + b) == (a + b) * fab1);
        assert(fa * (b * fb1) <= (a + b) * fab1) by (nonlinear_arith)
            requires
                fa * fb1 <= fab1,
                b <= a + b,
                fa >= 1,
                fb1 >= 1,
        ;
    }
}

pub proof fn lemma_fact_20()
    ensures
        fact_spec(20) == 2432902008176640000,
{
    reveal_with_fuel(fact_spec, 21);
}

/// `n!`, for `n` up to 20.
pub fn fact(n: u8) -> (r: u64)
    requires
        n <= 20,
    ensures
        r == fact_spec(n as nat),
    decreases n,
{
    if n <= 1 {
        1
    } else {
        let f = fact(n - 1);
        proof {
            lemma_fact_20();
            lemma_fact_monotone(n as nat, 20);
        }
        (n as u64) * f
    }
}

/// The number of ways to take `r` of `n` items: permutations when order
/// matters, combinations when it does not, with or without replacement.
pub open spec fn n_take_r_spec(n: nat, r: nat, order_matters: bool, with_replacement: bool) -> int {
    if order_matters {
        if with_replacement {
            pow(n as int, r)
        } else {
            fact_spec(n) as int / fact_spec((n - r) as nat) as int
        }
    } else {
        if with_replacement {
            fact_spec((n + r - 1) as nat) as int / (fact_spec(r) * fact_spec((n - 1) as nat)) as int
        } else {
            fact_spec(n) as int / (fact_spec(r) * fact_spec((n - r) as nat)) as int
        }
    }
}

/// When `n_take_r` is defined: the factorials it reads stay within 20! and
/// the power fits in 64 bits.
pub open spec fn n_take_r_defined(n: nat, r: nat, order_matters: bool, with_replacement: bool) -> bool {
    if order_matters && with_replacement {
        pow(n as int, (r as u32) as nat) <= u64::MAX
    } else if order_matters {
        r <= n <= 20
    } else if with_replacement {
        n >= 1 && n + r - 1 <= 20
    } else {
        r <= n <= 20
    }
}

/// `base` raised to `exp`.
pub fn power(base: u64, exp: u32) -> (r: u64)
    requires
        pow(base as int, exp as nat) <= u64::MAX,
    ensures
        r == pow(base as int, exp as nat),
{
    let mut acc: u64 = 1;
    let mut i: u32 = 0;
    proof {
        lemma_pow0(base as int);
    }
    while i < exp
        invariant
            i <= exp,
            acc == pow(base as int, i as nat),
            pow(base as int, exp as nat) <= u64::MAX,
        decreases exp - i,
    {
        proof {
            lemma_pow1(base as int);
            lemma_pow_adds(base as int, i as nat, 1);
            if base > 0 {
                lemma_pow_increases(base as nat, (i + 1) as nat, exp as nat);
            } else {
                assert(pow(base as int, (i + 1) as nat) == 0) by (nonlinear_arith)
                    requires
                        pow(base as int, (i + 1) as nat) == pow(base as int, i as nat) * base,
                        base == 0,
                ;
            }
        }
        acc = acc * base;
        i = i + 1;
    }
    acc
}

/// Count of arrangements of `r` selections from `n` items, where order does
/// or does not matter, with or without replacement.
pub fn n_take_r(n: usize, r: usize, order_matters: bool, with_replacement: bool) -> (res: u64)
    requires
        n_take_r_defined(n as nat, r as nat, order_matters, with_replacement),
    ensures
        order_matters && with_replacement ==> res == pow(n as int, (r as u32) as nat),
        !(order_matters && with_replacement) ==> res == n_take_r_spec(
            n as nat,
            r as nat,
            order_matters,
            with_replacement,
        ),
{
    if order_matters {
        if with_replacement {
            power(n as u64, r as u32)
        } else {
            proof {
                lemma_fact_positive((n - r) as nat);
            }
            fact(n as u8) / fact((n - r) as u8)
        }
    } else {
        if with_replacement {
            proof {
                lemma_fact_positive(r as nat);
                lemma_fact_positive((n - 1) as nat);
                lemma_fact_product(r as nat, (n - 1) as nat);
                lemma_fact_20();
                lemma_fact_monotone((r + n - 1) as nat, 20);
                assert(fact_spec(r as nat) * fact_spec((n - 1) as nat) >= 1) by (nonlinear_arith)
                    requires
                        fact_spec(r as nat) >= 1,
                        fact_spec((n - 1) as nat) >= 1,
                ;
            }
            fact((n + r - 1) as u8) / (fact(r as u8) * fact((n - 1) as u8))
        } else {
            proof {
                lemma_fact_positive(r as nat);
                lemma_fact_positive((n - r) as nat);
                lemma_fact_product(r as nat, (n - r) as nat);
                lemma_fact_20();
                lemma_fact_monotone(n as nat, 20);
                assert(fact_spec(r as nat) * fact_spec((n - r) as nat) >= 1) by (nonlinear_arith)
                    requires
                        fact_spec(r as nat) >= 1,
                        fact_spec((n - r) as nat) >= 1,
                ;
            }
            fact(n as u8) / (fact(r as u8) * fact((n - r) as u8))
        }
    }
}

/// Product of `(count of v)!` over the values `v` in `1 .. hi`.
pub open spec fn multiplicity_product(s: Seq<u8>, hi: int) -> nat
    decreases hi,
{
    if hi <= 1 {
        1
    } else {
        multiplicity_product(s, hi - 1) * fact_spec(count_of(s, (hi - 1) as u8))
    }
}

/// Number of distinct orders of the nonzero dice of `s`: the multinomial
/// coefficient `m! / (c1! * ... * c6!)`, where `m` counts the nonzero dice;
/// results above 255 read as 255.
pub open spec fn arrangements_spec(s: Seq<u8>) -> int {
    let q = fact_spec((s.len() - count_of(s, 0)) as nat) as int / multiplicity_product(s, 256) as int;
    if q > 255 {
        255
    } else {
        q
    }
}

/// Whether the pairs of `c` list value `v`.
pub open spec fn listed(c: Seq<(u8, usize)>, v: u8) -> bool {
    exists|i: int| 0 <= i < c.len() && #[trigger] c[i].0 == v
}

/// Product of `(count of v)!` over the values `v` in `1 .. hi` that `c` lists.
pub open spec fn listed_product(s: Seq<u8>, c: Seq<(u8, usize)>, hi: int) -> nat
    decreases hi,
{
    if hi <= 1 {
        1
    } else {
        listed_product(s, c, hi - 1) * if listed(c, (hi - 1) as u8) {
            fact_spec(count_of(s, (hi - 1) as u8))
        } else {
            1
        }
    }
}

/// Product of the factorials of the counts of `c` whose value is nonzero.
pub open spec fn pair_product(c: Seq<(u8, usize)>) -> nat
    decreases c.len(),
{
    if c.len() == 0 {
        1
    } else {
        pair_product(c.drop_last()) * if c.last().0 != 0 {
            fact_spec(c.last().1 as nat)
        } else {
            1
        }
    }
}

/// Sum of the counts of `c` whose value is nonzero.
pub open spec fn pair_sum(c: Seq<(u8, usize)>) -> int
    decreases c.len(),
{
    if c.len() == 0 {
        0
    } else {
        pair_sum(c.drop_last()) + if c.last().0 != 0 {
            c.last().1 as int
        } else {
            0
        }
    }
}

/// Sum of the counts of the values `0 .. hi` that `c` lists.
pub open spec fn listed_sum(s: Seq<u8>, c: Seq<(u8, usize)>, hi: int) -> int
    decreases hi,
{
    if hi <= 0 {
        0
    } else {
        listed_sum(s, c, hi - 1) + if listed(c, (hi - 1) as u8) {
            count_of(s, (hi - 1) as u8) as int
        } else {
            0
        }
    }
}

/// Sum of the counts of the values `0 .. hi`.
pub open spec fn count_sum(s: Seq<u8>, hi: int) -> int
    decreases hi,
{
    if hi <= 0 {
        0
    } else {
        count_sum(s, hi - 1) + count_of(s, (hi - 1) as u8)
    }
}

proof fn lemma_listed_push(s: Seq<u8>, c: Seq<(u8, usize)>, p: (u8, usize), hi: int)
    requires
        !listed(c, p.0),
        0 <= hi <= 256,
    ensures
        listed_product(s, c.push(p), hi) == listed_product(s, c, hi) * if 1 <= p.0 < hi {
            fact_spec(count_of(s, p.0))
        } else {
            1
        },
        listed_sum(s, c.push(p), hi) == listed_sum(s, c, hi) + if p.0 < hi {
            count_of(s, p.0) as int
        } else {
            0
        },
    decreases hi,
{
    if hi > 0 {
        lemma_listed_push(s, c, p, hi - 1);
        let v = (hi - 1) as u8;
        let c2 = c.push(p);
        if listed(c, v) {
            let i = choose|i: int| 0 <= i < c.len() && #[trigger] c[i].0 == v;
            assert(c2[i].0 == v);
        }
        if v == p.0 {
            assert(c2[c.len() as int].0 == v);
        }
        if listed(c2, v) && v != p.0 {
            let i = choose|i: int| 0 <= i < c2.len() && #[trigger] c2[i].0 == v;
            assert(i < c.len());
            assert(c[i].0 == v);
        }
        let a = listed_product(s, c, hi - 1);
        let f = fact_spec(count_of(s, p.0));
        if 1 <= v && v == p.0 {
            assert(a * 1 * f == a * f) by (nonlinear_arith);
        }
        if hi - 1 >= 1 && p.0 < hi - 1 && 1 <= p.0 {
            let g = if listed(c, v) {
                fact_spec(count_of(s, v))
            } else {
                1
            };
            assert(a * f * g == a * g * f) by (nonlinear_arith);
        }
    }
}

/// For a full listing, the products and sums over the pairs equal those
/// over all values.
proof fn lemma_pair_listing(s: Seq<u8>, c: Seq<(u8, usize)>, n: int)
    requires
        is_count_listing(s, c),
        0 <= n <= c.len(),
    ensures
        pair_product(c.subrange(0, n)) == listed_product(s, c.subrange(0, n), 256),
        pair_sum(c.subrange(0, n)) == listed_sum(s, c.subrange(0, n), 256) - if listed(
            c.subrange(0, n),
            0,
        ) {
            count_of(s, 0) as int
        } else {
            0
        },
    decreases n,
{
    let cn = c.subrange(0, n);
    if n == 0 {
        lemma_listed_none(s, cn, 256);
        assert(!listed(cn, 0));
    } else {
        lemma_pair_listing(s, c, n - 1);
        let cm = c.subrange(0, n - 1);
        let p = c[n - 1];
        assert(cn =~= cm.push(p));
        assert(cn.drop_last() =~= cm);
        assert(!listed(cm, p.0)) by {
            if listed(cm, p.0) {
                let i = choose|i: int| 0 <= i < cm.len() && #[trigger] cm[i].0 == p.0;
                assert(c[i].0 == c[n - 1].0);
            }
        }
        lemma_listed_push(s, cm, p, 256);
        assert(p.1 == count_of(s, p.0));
        if listed(cn, 0) && p.0 != 0 {
            let i = choose|i: int| 0 <= i < cn.len() && #[trigger] cn[i].0 == 0;
            assert(i < n - 1);
            assert(cm[i].0 == 0);
        }
        if listed(cm, 0) {
            let i = choose|i: int| 0 <= i < cm.len() && #[trigger] cm[i].0 == 0;
            assert(cn[i].0 == 0);
        }
        if p.0 == 0 {
            assert(cn[n - 1].0 == 0);
        }
    }
}

proof fn lemma_listed_none(s: Seq<u8>, c: Seq<(u8, usize)>, hi: int)
    requires
        c.len() == 0,
        hi >= 0,
    ensures
        listed_product(s, c, hi) == 1,
        listed_sum(s, c, hi) == 0,
    decreases hi,
{
    if hi > 0 {
        lemma_listed_none(s, c, hi - 1);
    }
}

/// Listing every value of `s` is as good as running over all values.
proof fn lemma_listed_full(s: Seq<u8>, c: Seq<(u8, usize)>, hi: int)
    requires
        is_count_listing(s, c),
        0 <= hi <= 256,
    ensures
        listed_product(s, c, hi) == multiplicity_product(s, hi),
        listed_sum(s, c, hi) == count_sum(s, hi),
    decreases hi,
{
    if hi > 0 {
        lemma_listed_full(s, c, hi - 1);
        let v = (hi - 1) as u8;
        lemma_count_of_bound(s, v);
        if !listed(c, v) {
            assert(!s.contains(v));
            assert(count_of(s, v) == 0);
        }
    }
}

/// The counts of all values add up to the length.
proof fn lemma_count_sum(s: Seq<u8>)
    ensures
        count_sum(s, 256) == s.len(),
    decreases s.len(),
{
    if s.len() == 0 {
        lemma_count_sum_empty(s, 256);
    } else {
        let t = s.drop_last();
        lemma_count_sum(t);
        assert(s =~= t.push(s.last()));
        lemma_count_sum_push(t, s.last(), 256);
    }
}

proof fn lemma_count_sum_empty(s: Seq<u8>, hi: int)
    requires
        s.len() == 0,
    ensures
        count_sum(s, hi) == 0,
    decreases hi,
{
    if hi > 0 {
        lemma_count_sum_empty(s, hi - 1);
    }
}

proof fn lemma_count_sum_push(t: Seq<u8>, x: u8, hi: int)
    requires
        0 <= hi <= 256,
    ensures
        count_sum(t.push(x), hi) == count_sum(t, hi) + if x < hi {
            1int
        } else {
            0
        },
    decreases hi,
{
    if hi > 0 {
        lemma_count_sum_push(t, x, hi - 1);
        lemma_count_of_push(t, x, (hi - 1) as u8);
    }
}

/// A prefix of the pairs sums to no more than all of them.
proof fn lemma_pair_prefix(c: Seq<(u8, usize)>, k: int)
    requires
        0 <= k <= c.len(),
    ensures
        pair_sum(c.subrange(0, k)) <= pair_sum(c),
        pair_sum(c) >= 0,
    decreases c.len(),
{
    if c.len() > 0 {
        if k < c.len() {
            lemma_pair_prefix(c.drop_last(), k);
            assert(c.drop_last().subrange(0, k) =~= c.subrange(0, k));
        } else {
            assert(c.subrange(0, k) =~= c);
            lemma_pair_prefix(c.drop_last(), 0);
        }
    }
}

/// The product of factorials of the counts is at most the factorial of
/// their sum.
proof fn lemma_pair_bounds(c: Seq<(u8, usize)>)
    ensures
        pair_product(c) <= fact_spec(pair_sum(c) as nat),
        pair_product(c) >= 1,
        pair_sum(c) >= 0,
    decreases c.len(),
{
    if c.len() > 0 {
        let d = c.drop_last();
        lemma_pair_bounds(d);
        let p = c.last();
        if p.0 != 0 {
            let a = pair_product(d);
            let big = fact_spec(pair_sum(d) as nat);
            let f = fact_spec(p.1 as nat);
            lemma_fact_positive(p.1 as nat);
            lemma_fact_product(pair_sum(d) as nat, p.1 as nat);
            assert(a * f <= big * f && a * f >= 1) by (nonlinear_arith)
                requires
                    a <= big,
                    a >= 1,
                    f >= 1,
            ;
        }
    }
}

/// How many indistinguishable orders the nonzero dice of `dieval_vec` have:
/// the multinomial coefficient of their multiplicities.
pub fn distinct_arrangements_for(dieval_vec: Vec<u8>) -> (r: u8)
    requires
        dieval_vec@.len() - count_of(dieval_vec@, 0) <= 20,
    ensures
        r == arrangements_spec(dieval_vec@),
{
    let ghost s = dieval_vec@;
    let counts = value_counts(dieval_vec);
    let ghost c = counts@;
    let mut divisor: u64 = 1;
    let mut non_zero_dievals: u8 = 0;
    let mut i: usize = 0;
    proof {
        lemma_count_sum(s);
        lemma_listed_full(s, c, 256);
        lemma_pair_listing(s, c, c.len() as int);
        assert(c.subrange(0, c.len() as int) =~= c);
        assert(c.subrange(0, 0) =~= Seq::<(u8, usize)>::empty());
        lemma_count_of_bound(s, 0);
        if !listed(c, 0) {
            assert(!s.contains(0));
        }
        assert(pair_sum(c) == s.len() - count_of(s, 0));
    }
    while i < counts.len()
        invariant
            i <= counts.len(),
            c == counts@,
            is_count_listing(s, c),
            divisor == pair_product(c.subrange(0, i as int)),
            non_zero_dievals == pair_sum(c.subrange(0, i as int)),
            pair_sum(c) <= 20,
        decreases counts.len() - i,
    {
        let (v, n) = counts[i];
        proof {
            assert(c.subrange(0, i + 1).drop_last() =~= c.subrange(0, i as int));
            assert(c.subrange(0, i + 1).last() == c[i as int]);
            lemma_fact_20();
            lemma_pair_prefix(c, i + 1);
            lemma_pair_bounds(c.subrange(0, i + 1));
            lemma_fact_monotone(pair_sum(c.subrange(0, i + 1)) as nat, 20);
        }
        if v != 0 {
            proof {
                lemma_pair_bounds(c.subrange(0, i as int));
                assert(n <= pair_sum(c.subrange(0, i + 1)));
            }
            divisor = divisor * fact(n as u8);
            non_zero_dievals = non_zero_dievals + (n as u8);
        }
        i = i + 1;
    }
    proof {
        assert(c.subrange(0, c.len() as int) =~= c);
        lemma_pair_bounds(c);
        lemma_fact_positive(pair_sum(c) as nat);
        assert(divisor == multiplicity_product(s, 256));
        lemma_count_of_bound(s, 0);
        if !listed(c, 0) {
            assert(!s.contains(0));
        }
        assert(non_zero_dievals == s.len() - count_of(s, 0));
    }
    let q = fact(non_zero_dievals) / divisor;
    if q > 255 {
        255
    } else {
        q as u8
    }
}

} // verus!
