use vstd::prelude::*;
use vstd::arithmetic::power::pow;
use crate::combinatorics::{fact_spec, multiplicity_product, lemma_fact_positive};
use crate::counting::{count_of, lemma_count_of_split, lemma_count_of_bound};
use crate::enumeration::{combos_rep, prepend_all, binom, strictly_increasing, lemma_combos_rep_sound};

verus! {

/// Number of distinct orders of the dice `c`: `|c|!` over the product of
/// the factorials of the multiplicities.
pub open spec fn weight(c: Seq<u8>) -> int {
    fact_spec(c.len()) as int / multiplicity_product(c, 256) as int
}

/// Sum of the weights of `p + c` over the sequences `c` of `cs`.
pub open spec fn prefixed_sum(p: Seq<u8>, cs: Seq<Seq<u8>>) -> int
    decreases cs.len(),
{
    if cs.len() == 0 {
        0
    } else {
        prefixed_sum(p, cs.drop_last()) + weight(p + cs.last())
    }
}

/// `j` copies of `x`.
pub open spec fn copies(x: u8, j: nat) -> Seq<u8> {
    Seq::new(j, |i: int| x)
}

/// `sum_{i < t} binom(k, i) * x^(k - i)`
pub open spec fn bsum(k: nat, x: int, t: nat) -> int
    decreases t,
{
    if t == 0 {
        0
    } else {
        bsum(k, x, (t - 1) as nat) + binom(k, (t - 1) as nat) * pow(x, (k - (t - 1)) as nat)
    }
}

/// `mp(c) * weight(c) == |c|!`: the weight divides exactly.
pub open spec fn exact(c: Seq<u8>) -> bool {
    multiplicity_product(c, 256) * weight(c) == fact_spec(c.len())
}

proof fn lemma_prefixed_sum_concat(p: Seq<u8>, a: Seq<Seq<u8>>, b: Seq<Seq<u8>>)
    ensures
        prefixed_sum(p, a + b) == prefixed_sum(p, a) + prefixed_sum(p, b),
    decreases b.len(),
{
    if b.len() == 0 {
        assert(a + b =~= a);
    } else {
        lemma_prefixed_sum_concat(p, a, b.drop_last());
        assert((a + b).drop_last() =~= a + b.drop_last());
        assert((a + b).last() == b.last());
    }
}

proof fn lemma_prefixed_sum_prepend(p: Seq<u8>, x: u8, cs: Seq<Seq<u8>>)
    ensures
        prefixed_sum(p, prepend_all(x, cs)) == prefixed_sum(p.push(x), cs),
    decreases cs.len(),
{
    if cs.len() > 0 {
        lemma_prefixed_sum_prepend(p, x, cs.drop_last());
        assert(prepend_all(x, cs).drop_last() =~= prepend_all(x, cs.drop_last()));
        assert(prepend_all(x, cs).last() == seq![x] + cs.last());
        assert(p + (seq![x] + cs.last()) =~= p.push(x) + cs.last());
    }
}

proof fn lemma_prefixed_sum_scale(p: Seq<u8>, cs: Seq<Seq<u8>>, f: int)
    requires
        forall|i: int| 0 <= i < cs.len() ==> weight(p + #[trigger] cs[i]) == f * weight(cs[i]),
    ensures
        prefixed_sum(p, cs) == f * prefixed_sum(Seq::empty(), cs),
    decreases cs.len(),
{
    if cs.len() > 0 {
        let d = cs.drop_last();
        assert forall|i: int| 0 <= i < d.len() implies weight(p + #[trigger] d[i]) == f * weight(d[i]) by {
            assert(d[i] == cs[i]);
        }
        lemma_prefixed_sum_scale(p, d, f);
        let c = cs.last();
        assert(cs[cs.len() - 1] == c);
        assert(Seq::<u8>::empty() + c =~= c);
        let a = prefixed_sum(Seq::empty(), d);
        assert(f * a + f * weight(c) == f * (a + weight(c))) by (nonlinear_arith);
    }
}

proof fn lemma_binom_edges(n: nat, k: nat)
    ensures
        k > n ==> binom(n, k) == 0,
        binom(n, n) == 1,
        binom(n, 0) == 1,
    decreases n,
{
    if n > 0 {
        lemma_binom_edges((n - 1) as nat, (k - 1) as nat);
        lemma_binom_edges((n - 1) as nat, k);
        lemma_binom_edges((n - 1) as nat, n);
        lemma_binom_edges((n - 1) as nat, (n - 1) as nat);
    }
}

/// Pascal's rule under the sum: `bsum(k, x, t) = bsum(k-1, x, t-1) + x * bsum(k-1, x, t)`.
proof fn lemma_bsum_pascal(k: nat, x: int, t: nat)
    requires
        k >= 1,
        1 <= t <= k + 1,
    ensures
        bsum(k, x, t) == bsum((k - 1) as nat, x, (t - 1) as nat) + x * bsum((k - 1) as nat, x, t),
    decreases t,
{
    let k1 = (k - 1) as nat;
    if t == 1 {
        lemma_binom_edges(k, 0);
        lemma_binom_edges(k1, 0);
        assert(pow(x, k) == x * pow(x, k1)) by {
            vstd::arithmetic::power::lemma_pow_adds(x, 1, k1);
            vstd::arithmetic::power::lemma_pow1(x);
        }
        assert(bsum(k, x, 1) == bsum(k, x, 0) + binom(k, 0) * pow(x, (k - 0) as nat));
        assert(bsum(k1, x, 1) == bsum(k1, x, 0) + binom(k1, 0) * pow(x, (k1 - 0) as nat));
        assert(bsum(k, x, 1) == pow(x, k));
        assert(bsum(k1, x, 1) == pow(x, k1));
    } else {
        let t1 = (t - 1) as nat;
        let t2 = (t - 2) as nat;
        lemma_bsum_pascal(k, x, t1);
        lemma_binom_edges(k1, t1);
        let e = (k - t1) as nat;
        assert(binom(k, t1) == binom(k1, t2) + binom(k1, t1));
        assert(bsum(k, x, t) == bsum(k, x, t1) + binom(k, t1) * pow(x, e));
        assert(bsum(k1, x, t1) == bsum(k1, x, t2) + binom(k1, t2) * pow(x, (k1 - t2) as nat));
        assert((k1 - t2) as nat == e);
        assert(bsum(k1, x, t) == bsum(k1, x, t1) + binom(k1, t1) * pow(x, (k1 - t1) as nat));
        if t1 <= k1 {
            assert(pow(x, e) == x * pow(x, (k1 - t1) as nat)) by {
                vstd::arithmetic::power::lemma_pow_adds(x, 1, (k1 - t1) as nat);
                vstd::arithmetic::power::lemma_pow1(x);
            }
            let b1 = binom(k1, t2);
            let b2 = binom(k1, t1);
            let pe = pow(x, e);
            let pr = pow(x, (k1 - t1) as nat);
            assert((b1 + b2) * pe == b1 * pe + x * (b2 * pr)) by (nonlinear_arith)
                requires
                    pe == x * pr,
            ;
            assert(x * (bsum(k1, x, t1) + b2 * pr) == x * bsum(k1, x, t1) + x * (b2 * pr)) by (nonlinear_arith);
        } else {
            assert(binom(k1, t1) == 0);
            let b1 = binom(k1, t2);
            let pe = pow(x, e);
            assert((b1 + 0) * pe == b1 * pe);
            assert(0 * pow(x, (k1 - t1) as nat) == 0);
            assert(x * (bsum(k1, x, t1) + 0) == x * bsum(k1, x, t1));
        }
    }
}

/// The binomial theorem: `sum_{i <= k} binom(k, i) * x^(k - i) = (x + 1)^k`.
proof fn lemma_binomial_theorem(k: nat, x: int)
    ensures
        bsum(k, x, k + 1) == pow(x + 1, k),
    decreases k,
{
    if k == 0 {
        lemma_binom_edges(0, 0);
        assert(bsum(0, x, 1) == bsum(0, x, 0) + binom(0, 0) * pow(x, 0));
        assert(pow(x, 0) == 1) by {
            vstd::arithmetic::power::lemma_pow0(x);
        }
        vstd::arithmetic::power::lemma_pow0(x + 1);
    } else {
        let k1 = (k - 1) as nat;
        lemma_bsum_pascal(k, x, k + 1);
        lemma_binomial_theorem(k1, x);
        lemma_binom_edges(k1, k);
        assert(bsum(k1, x, k + 1) == bsum(k1, x, k) + binom(k1, k) * pow(x, (k1 - k) as nat));
        assert(binom(k1, k) * pow(x, (k1 - k) as nat) == 0);
        let b = bsum(k1, x, k);
        assert(b + x * b == (x + 1) * b) by (nonlinear_arith);
        vstd::arithmetic::power::lemma_pow_adds(x + 1, 1, k1);
        vstd::arithmetic::power::lemma_pow1(x + 1);
    }
}

proof fn lemma_fact_step(n: nat)
    requires
        n >= 1,
    ensures
        fact_spec(n) == n * fact_spec((n - 1) as nat),
{
    if n == 1 {
        assert(fact_spec(0) == 1);
        assert(fact_spec(1) == 1);
    }
}

/// `(a + b)! = binom(a + b, a) * a! * b!`
proof fn lemma_binom_fact(a: nat, b: nat)
    ensures
        fact_spec(a + b) == binom(a + b, a) * fact_spec(a) * fact_spec(b),
    decreases a + b,
{
    let n = a + b;
    if a == 0 {
        lemma_binom_edges(n, 0);
        assert(fact_spec(0) == 1);
    } else if b == 0 {
        lemma_binom_edges(n, n);
        assert(fact_spec(0) == 1);
    } else {
        let a1 = (a - 1) as nat;
        let b1 = (b - 1) as nat;
        lemma_binom_fact(a1, b);
        lemma_binom_fact(a, b1);
        let n1 = (n - 1) as nat;
        assert(a1 + b == n1 && a + b1 == n1);
        assert(binom(n, a) == binom(n1, a1) + binom(n1, a));
        let fa = fact_spec(a);
        let fa1 = fact_spec(a1);
        let fb = fact_spec(b);
        let fb1 = fact_spec(b1);
        let fn1 = fact_spec(n1);
        let c1 = binom(n1, a1);
        let c2 = binom(n1, a);
        lemma_fact_step(a);
        lemma_fact_step(b);
        lemma_fact_step(n);
        assert((c1 + c2) * fa * fb == n * fn1) by (nonlinear_arith)
            requires
                fn1 == c1 * fa1 * fb,
                fn1 == c2 * fa * fb1,
                fa == a * fa1,
                fb == b * fb1,
                n == a + b,
        ;
    }
}

proof fn lemma_mp_positive(c: Seq<u8>, hi: int)
    ensures
        multiplicity_product(c, hi) >= 1,
    decreases hi,
{
    if hi > 1 {
        lemma_mp_positive(c, hi - 1);
        let a = multiplicity_product(c, hi - 1);
        let f = fact_spec(count_of(c, (hi - 1) as u8));
        lemma_fact_positive(count_of(c, (hi - 1) as u8));
        assert(a * f >= 1) by (nonlinear_arith)
            requires
                a >= 1,
                f >= 1,
        ;
    }
}

/// Two sequences whose counts differ only at `x` have multiplicity products
/// that differ only in the factor of `x`.
proof fn lemma_mp_update(c1: Seq<u8>, c2: Seq<u8>, x: u8, hi: int)
    requires
        1 <= x,
        0 <= hi <= 256,
        forall|v: u8| v != x ==> count_of(c1, v) == count_of(c2, v),
    ensures
        multiplicity_product(c1, hi) * (if x < hi {
            fact_spec(count_of(c2, x))
        } else {
            1
        }) == multiplicity_product(c2, hi) * (if x < hi {
            fact_spec(count_of(c1, x))
        } else {
            1
        }),
    decreases hi,
{
    if hi > 1 {
        lemma_mp_update(c1, c2, x, hi - 1);
        let v = (hi - 1) as u8;
        let a1 = multiplicity_product(c1, hi - 1);
        let a2 = multiplicity_product(c2, hi - 1);
        let f1 = fact_spec(count_of(c1, v));
        let f2 = fact_spec(count_of(c2, v));
        let g1 = fact_spec(count_of(c1, x));
        let g2 = fact_spec(count_of(c2, x));
        if v == x {
            assert(a1 == a2);
            assert(a1 * f1 * g2 == a2 * f2 * g1) by (nonlinear_arith)
                requires
                    a1 == a2,
                    f1 == g1,
                    f2 == g2,
            ;
        } else if x < hi - 1 {
            assert(f1 == f2);
            assert(a1 * f1 * g2 == a2 * f2 * g1) by (nonlinear_arith)
                requires
                    a1 * g2 == a2 * g1,
                    f1 == f2,
            ;
        } else {
            assert(f1 == f2);
            assert(a1 * f1 == a2 * f2) by (nonlinear_arith)
                requires
                    a1 == a2,
                    f1 == f2,
            ;
        }
    } else {
        assert(multiplicity_product(c1, hi) == 1);
        assert(multiplicity_product(c2, hi) == 1);
    }
}

proof fn lemma_count_copies(x: u8, j: nat, v: u8)
    ensures
        count_of(copies(x, j), v) == if v == x {
            j
        } else {
            0
        },
    decreases j,
{
    if j > 0 {
        lemma_count_copies(x, (j - 1) as nat, v);
        assert(copies(x, j).drop_last() =~= copies(x, (j - 1) as nat));
    }
}

/// Putting `j` copies of a face that `d` lacks in front of `d` multiplies
/// its weight by `binom(j + |d|, j)`.
proof fn lemma_weight_prefix(x: u8, j: nat, d: Seq<u8>)
    requires
        1 <= x,
        count_of(d, x) == 0,
        exact(d),
    ensures
        weight(copies(x, j) + d) == binom(j + d.len(), j) * weight(d),
        exact(copies(x, j) + d),
{
    let c = copies(x, j) + d;
    let m = d.len();
    assert forall|v: u8| v != x implies count_of(c, v) == count_of(d, v) by {
        lemma_count_of_split(c, j as int, v);
        assert(c.subrange(0, j as int) =~= copies(x, j));
        assert(c.subrange(j as int, c.len() as int) =~= d);
        lemma_count_copies(x, j, v);
    }
    lemma_count_of_split(c, j as int, x);
    assert(c.subrange(0, j as int) =~= copies(x, j));
    assert(c.subrange(j as int, c.len() as int) =~= d);
    lemma_count_copies(x, j, x);
    assert(count_of(c, x) == j);
    lemma_mp_update(c, d, x, 256);
    assert(fact_spec(0) == 1);
    let mpc = multiplicity_product(c, 256) as int;
    let mpd = multiplicity_product(d, 256) as int;
    let fj = fact_spec(j) as int;
    assert(mpc * 1 == mpd * fj);
    assert(mpc == mpd * fj) by (nonlinear_arith)
        requires
            mpc * 1 == mpd * fj,
    ;
    lemma_binom_fact(j, m);
    let b = binom(j + m, j);
    let wd = weight(d);
    assert(c.len() == j + m);
    assert(fact_spec(j + m) == b * fj * fact_spec(m));
    assert(mpd * wd == fact_spec(m));
    lemma_mp_positive(c, 256);
    assert(fact_spec(j + m) == (b * wd) * mpc) by (nonlinear_arith)
        requires
            fact_spec(j + m) == b * fj * fact_spec(m),
            mpd * wd == fact_spec(m),
            mpc == mpd * fj,
    ;
    assert(((b * wd) * mpc) / mpc == b * wd) by (nonlinear_arith)
        requires
            mpc >= 1,
    ;
    assert(mpc * (b * wd) == (b * wd) * mpc) by (nonlinear_arith);
}

/// Each combination with repetition of `s` is some copies of its first
/// element followed by a combination with repetition of the rest.
proof fn lemma_combos_rep_split(s: Seq<u8>, k: nat, i: int)
    requires
        s.len() >= 1,
        0 <= i < combos_rep(s, k).len(),
    ensures
        exists|j: nat, i2: int|
            j <= k && 0 <= i2 < combos_rep(s.drop_first(), (k - j) as nat).len() && combos_rep(s, k)[i]
                == copies(s[0], j) + #[trigger] combos_rep(s.drop_first(), (k - j) as nat)[i2],
    decreases k,
{
    let t = s.drop_first();
    if k == 0 {
        assert(combos_rep(s, 0)[i] == Seq::<u8>::empty());
        assert(combos_rep(t, 0)[0] == Seq::<u8>::empty());
        assert(combos_rep(s, k)[i] =~= copies(s[0], 0) + combos_rep(t, 0)[0]);
    } else {
        let a = prepend_all(s[0], combos_rep(s, (k - 1) as nat));
        let b = combos_rep(t, k);
        assert(combos_rep(s, k) == a + b);
        if i < a.len() {
            lemma_combos_rep_split(s, (k - 1) as nat, i);
            let (j, i2) = choose|j: nat, i2: int|
                j <= (k - 1) as nat && 0 <= i2 < combos_rep(t, ((k - 1) as nat - j) as nat).len()
                    && combos_rep(s, (k - 1) as nat)[i] == copies(s[0], j) + #[trigger] combos_rep(
                    t,
                    ((k - 1) as nat - j) as nat,
                )[i2];
            assert(((k - 1) as nat - j) as nat == (k - (j + 1)) as nat);
            assert(combos_rep(s, k)[i] == seq![s[0]] + combos_rep(s, (k - 1) as nat)[i]);
            assert(combos_rep(s, k)[i] =~= copies(s[0], j + 1) + combos_rep(t, (k - (j + 1)) as nat)[i2]);
        } else {
            assert(combos_rep(s, k)[i] == b[i - a.len()]);
            assert(combos_rep(s, k)[i] =~= copies(s[0], 0) + combos_rep(t, (k - 0) as nat)[i - a.len()]);
        }
    }
}

proof fn lemma_mp_empty(hi: int)
    ensures
        multiplicity_product(Seq::<u8>::empty(), hi) == 1,
    decreases hi,
{
    if hi > 1 {
        lemma_mp_empty(hi - 1);
        assert(count_of(Seq::<u8>::empty(), (hi - 1) as u8) == 0);
        assert(fact_spec(0) == 1);
    }
}

proof fn lemma_weight_empty()
    ensures
        weight(Seq::<u8>::empty()) == 1,
        exact(Seq::<u8>::empty()),
{
    lemma_mp_empty(256);
    assert(fact_spec(0) == 1);
}

/// The weights over the combinations with repetition of `s`, each prefixed
/// with `j` copies of its first element, add up to the tail
/// `sum_{j <= i <= m + j} binom(m + j, i) * (|s| - 1)^(m + j - i)`.
proof fn lemma_prefixed_sum_unrolled(s: Seq<u8>, m: nat, j: nat)
    requires
        s.len() >= 1,
        strictly_increasing(s),
        forall|i: int| 0 <= i < s.len() ==> 1 <= #[trigger] s[i],
        forall|r: nat|
            #[trigger] prefixed_sum(Seq::empty(), combos_rep(s.drop_first(), r)) == pow(
                (s.len() - 1) as int,
                r,
            ),
        forall|r: nat, i: int|
            0 <= i < combos_rep(s.drop_first(), r).len() ==> exact(#[trigger] combos_rep(s.drop_first(), r)[i]),
    ensures
        prefixed_sum(copies(s[0], j), combos_rep(s, m)) == bsum(m + j, (s.len() - 1) as int, m + j + 1) - bsum(
            m + j,
            (s.len() - 1) as int,
            j,
        ),
    decreases m,
{
    let t = s.drop_first();
    let x = (s.len() - 1) as int;
    let p = copies(s[0], j);
    if m == 0 {
        lemma_weight_empty();
        assert(count_of(Seq::<u8>::empty(), s[0]) == 0);
        lemma_weight_prefix(s[0], j, Seq::empty());
        lemma_binom_edges(j, j);
        assert(combos_rep(s, 0) == seq![Seq::<u8>::empty()]);
        assert(combos_rep(s, 0).drop_last() =~= Seq::<Seq<u8>>::empty());
        assert(p + Seq::<u8>::empty() =~= p);
        assert(prefixed_sum(p, Seq::<Seq<u8>>::empty()) == 0);
        assert(combos_rep(s, 0).last() == Seq::<u8>::empty());
        assert(prefixed_sum(p, combos_rep(s, 0)) == weight(p));
        assert(bsum(j, x, j + 1) == bsum(j, x, j) + binom(j, j) * pow(x, (j - j) as nat));
        vstd::arithmetic::power::lemma_pow0(x);
    } else {
        let a = prepend_all(s[0], combos_rep(s, (m - 1) as nat));
        let b = combos_rep(t, m);
        assert(combos_rep(s, m) == a + b);
        lemma_prefixed_sum_concat(p, a, b);
        lemma_prefixed_sum_prepend(p, s[0], combos_rep(s, (m - 1) as nat));
        assert(p.push(s[0]) =~= copies(s[0], j + 1));
        lemma_prefixed_sum_unrolled(s, (m - 1) as nat, j + 1);
        assert((m - 1) as nat + (j + 1) == m + j);
        let f = binom(m + j, j) as int;
        lemma_combos_rep_sound(t, m);
        assert forall|i: int| 0 <= i < b.len() implies weight(p + #[trigger] b[i]) == f * weight(b[i]) by {
            let d = b[i];
            assert(d.len() == m);
            assert(count_of(d, s[0]) == 0) by {
                lemma_count_of_bound(d, s[0]);
                if d.contains(s[0]) {
                    let q = choose|q: int| 0 <= q < d.len() && d[q] == s[0];
                    assert(t.contains(d[q]));
                    let r = choose|r: int| 0 <= r < t.len() && t[r] == d[q];
                    assert(s[0] < s[r + 1]);
                }
            }
            assert(exact(d));
            lemma_weight_prefix(s[0], j, d);
            assert(j + d.len() == m + j);
        }
        lemma_prefixed_sum_scale(p, b, f);
        assert(prefixed_sum(Seq::empty(), b) == pow(x, m));
        assert(bsum(m + j, x, j + 1) == bsum(m + j, x, j) + binom(m + j, j) * pow(x, ((m + j) - j) as nat));
        assert(((m + j) - j) as nat == m);
    }
}

/// The weights of the combinations with repetition of `k` elements of `s`
/// add up to `|s|^k`, and each weight divides exactly.
pub proof fn lemma_weight_total(s: Seq<u8>, k: nat)
    requires
        strictly_increasing(s),
        forall|i: int| 0 <= i < s.len() ==> 1 <= #[trigger] s[i],
    ensures
        prefixed_sum(Seq::empty(), combos_rep(s, k)) == pow(s.len() as int, k),
        forall|i: int| 0 <= i < combos_rep(s, k).len() ==> exact(#[trigger] combos_rep(s, k)[i]),
    decreases s.len(),
{
    if s.len() == 0 {
        if k == 0 {
            lemma_weight_empty();
            assert(combos_rep(s, 0) == seq![Seq::<u8>::empty()]);
            assert(combos_rep(s, 0).drop_last() =~= Seq::<Seq<u8>>::empty());
            assert(Seq::<u8>::empty() + Seq::<u8>::empty() =~= Seq::<u8>::empty());
            assert(prefixed_sum(Seq::empty(), Seq::<Seq<u8>>::empty()) == 0);
            assert(combos_rep(s, 0).last() == Seq::<u8>::empty());
            vstd::arithmetic::power::lemma_pow0(0);
            assert(combos_rep(s, 0)[0] == Seq::<u8>::empty());
        } else {
            assert(combos_rep(s, k).len() == 0);
            vstd::arithmetic::power::lemma_pow_adds(0, 1, (k - 1) as nat);
            vstd::arithmetic::power::lemma_pow1(0);
            assert(pow(0, k) == 0 * pow(0, (k - 1) as nat));
        }
    } else {
        let t = s.drop_first();
        assert(strictly_increasing(t));
        assert forall|r: nat| #[trigger] prefixed_sum(Seq::empty(), combos_rep(t, r)) == pow((s.len() - 1) as int, r) by {
            lemma_weight_total(t, r);
        }
        assert forall|r: nat, i: int| 0 <= i < combos_rep(t, r).len() implies exact(#[trigger] combos_rep(t, r)[i]) by {
            lemma_weight_total(t, r);
        }
        lemma_prefixed_sum_unrolled(s, k, 0);
        assert(copies(s[0], 0) =~= Seq::<u8>::empty());
        lemma_binomial_theorem(k, (s.len() - 1) as int);
        assert(bsum(k, (s.len() - 1) as int, 0) == 0);
        assert forall|i: int| 0 <= i < combos_rep(s, k).len() implies exact(#[trigger] combos_rep(s, k)[i]) by {
            lemma_combos_rep_split(s, k, i);
            let (j, i2) = choose|j: nat, i2: int|
                j <= k && 0 <= i2 < combos_rep(t, (k - j) as nat).len() && combos_rep(s, k)[i]
                    == copies(s[0], j) + #[trigger] combos_rep(t, (k - j) as nat)[i2];
            let d = combos_rep(t, (k - j) as nat)[i2];
            lemma_combos_rep_sound(t, (k - j) as nat);
            assert(count_of(d, s[0]) == 0) by {
                lemma_count_of_bound(d, s[0]);
                if d.contains(s[0]) {
                    let q = choose|q: int| 0 <= q < d.len() && d[q] == s[0];
                    assert(t.contains(d[q]));
                    let r = choose|r: int| 0 <= r < t.len() && t[r] == d[q];
                    assert(s[0] < s[r + 1]);
                }
            }
            lemma_weight_prefix(s[0], j, d);
        }
    }
}

/// For up to five dice showing faces from 1 up, the arrangement count is
/// the weight.
pub proof fn lemma_weight_is_arrangements(v: Seq<u8>)
    requires
        v.len() <= 5,
        forall|i: int| 0 <= i < v.len() ==> 1 <= #[trigger] v[i],
    ensures
        weight(v) == crate::combinatorics::arrangements_spec(v),
        0 <= weight(v) <= 120,
{
    lemma_count_of_bound(v, 0);
    if v.contains(0) {
        let q = choose|q: int| 0 <= q < v.len() && v[q] == 0;
        assert(1 <= v[q]);
    }
    lemma_mp_positive(v, 256);
    crate::combinatorics::lemma_fact_monotone(v.len(), 5);
    reveal_with_fuel(fact_spec, 6);
    assert(fact_spec(5) == 120);
    let f = fact_spec(v.len()) as int;
    let mpv = multiplicity_product(v, 256) as int;
    assert(0 <= f / mpv <= f) by (nonlinear_arith)
        requires
            mpv >= 1,
            f >= 0,
    ;
}

} // verus!
