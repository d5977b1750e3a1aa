use vstd::prelude::*;
use crate::counting::{
    count_of, sum_of, is_count_listing, value_counts, lemma_count_of_push, lemma_count_of_bound,
    lemma_count_of_two, lemma_sum_of_push, lemma_count_of_split,
};
use crate::dievals::DieVals;
use crate::sorted_slots::Slot;
use crate::enumeration::nondecreasing;

verus! {

/// Length of the run of equal, nonzero dice that ends at position `b`
/// (a lone die, or a zero, is a run of one).
pub open spec fn run_ending(s: Seq<u8>, b: int) -> int
    decreases b,
{
    if b <= 0 {
        1
    } else if s[b] == s[b - 1] && s[b] != 0 {
        run_ending(s, b - 1) + 1
    } else {
        1
    }
}

/// Longest run of equal, nonzero dice among the first `k` positions
/// (at least 1).
pub open spec fn max_run(s: Seq<u8>, k: int) -> int
    decreases k,
{
    if k <= 0 {
        1
    } else {
        let m = max_run(s, k - 1);
        let r = run_ending(s, k - 1);
        if r > m {
            r
        } else {
            m
        }
    }
}

/// Length of the straight that ends at position `b`: each step to the next
/// die either repeats the value or raises it by one, and only raises count.
pub open spec fn chain_ending(s: Seq<u8>, b: int) -> int
    decreases b,
{
    if b <= 0 {
        1
    } else if s[b] == s[b - 1] + 1 {
        chain_ending(s, b - 1) + 1
    } else if s[b] != s[b - 1] {
        1
    } else {
        chain_ending(s, b - 1)
    }
}

/// Longest straight among the first `k` positions (at least 1).
pub open spec fn max_chain(s: Seq<u8>, k: int) -> int
    decreases k,
{
    if k <= 0 {
        1
    } else {
        let m = max_chain(s, k - 1);
        let r = chain_ending(s, k - 1);
        if r > m {
            r
        } else {
            m
        }
    }
}

/// Three dice of one nonzero value and two of another.
pub open spec fn is_full_house(s: Seq<u8>) -> bool {
    exists|a: u8, b: u8|
        a != 0 && b != 0 && a != b && #[trigger] count_of(s, a) == 3 && #[trigger] count_of(s, b)
            == 2
}

/// Score of the upper box `n`: `n` for each die showing `n`.
pub open spec fn upperbox_spec(n: u8, s: Seq<u8>) -> int {
    n * count_of(s, n)
}

/// The n-of-a-kind score: the dice total when a run of `n` equal nonzero
/// dice occurs, else 0.
pub open spec fn n_of_a_kind_spec(n: u8, s: Seq<u8>) -> int {
    if max_run(s, 5) >= n {
        sum_of(s)
    } else {
        0
    }
}

pub open spec fn yahtzee_spec(s: Seq<u8>) -> int {
    if s[0] == s[4] && s[0] != 0 {
        50
    } else {
        0
    }
}

/// Score of `slot` for the dice `s`, without regard to bonuses or jokers.
pub open spec fn slot_score(slot: u8, s: Seq<u8>) -> int {
    if 1 <= slot <= 6 {
        upperbox_spec(slot, s)
    } else if slot == 7 {
        n_of_a_kind_spec(3, s)
    } else if slot == 8 {
        n_of_a_kind_spec(4, s)
    } else if slot == 9 {
        if is_full_house(s) {
            25
        } else {
            0
        }
    } else if slot == 10 {
        if max_chain(s, 5) >= 4 {
            30
        } else {
            0
        }
    } else if slot == 11 {
        if max_chain(s, 5) == 5 {
            40
        } else {
            0
        }
    } else if slot == 12 {
        yahtzee_spec(s)
    } else {
        sum_of(s)
    }
}

proof fn lemma_run_bounds(s: Seq<u8>, k: int)
    requires
        0 <= k,
    ensures
        1 <= run_ending(s, k) <= k + 1,
        1 <= max_run(s, k) <= if k == 0 { 1 } else { k },
        1 <= chain_ending(s, k) <= k + 1,
        1 <= max_chain(s, k) <= if k == 0 { 1 } else { k },
    decreases k,
{
    if k > 0 {
        lemma_run_bounds(s, k - 1);
    }
}

/// For sorted dice, the Yahtzee score is 50 exactly when all five dice show
/// the same nonzero face.
pub proof fn lemma_yahtzee_sorted(s: Seq<u8>)
    requires
        s.len() == 5,
        nondecreasing(s),
    ensures
        yahtzee_spec(s) == 50 <==> (s[0] != 0 && forall|i: int| 0 <= i < 5 ==> #[trigger] s[i] == s[0]),
{
    if s[0] == s[4] {
        assert forall|i: int| 0 <= i < 5 implies #[trigger] s[i] == s[0] by {
            if 0 < i < 4 {
                assert(s[0] <= s[i] && s[i] <= s[4]);
            }
        }
    }
}

/// In sorted dice, a run of equal nonzero dice ending at `b` is as long as
/// the number of dice up to `b` showing that face.
proof fn lemma_run_counts(s: Seq<u8>, b: int)
    requires
        nondecreasing(s),
        0 <= b < s.len(),
        s[b] != 0,
    ensures
        run_ending(s, b) == count_of(s.subrange(0, b + 1), s[b]),
    decreases b,
{
    let t = s.subrange(0, b + 1);
    assert(t.drop_last() =~= s.subrange(0, b));
    if b == 0 {
        assert(s.subrange(0, 0) =~= Seq::<u8>::empty());
    } else if s[b] == s[b - 1] {
        lemma_run_counts(s, b - 1);
    } else {
        assert(s[b - 1] < s[b]);
        lemma_count_of_bound(s.subrange(0, b), s[b]);
        if s.subrange(0, b).contains(s[b]) {
            let m = choose|m: int| 0 <= m < b && s.subrange(0, b)[m] == s[b];
            assert(s[m] <= s[b - 1]);
        }
    }
}

proof fn lemma_max_run_witness(s: Seq<u8>, k: int, n: int)
    requires
        0 <= k,
        n >= 2,
    ensures
        max_run(s, k) >= n <==> exists|b: int| 0 <= b < k && #[trigger] run_ending(s, b) >= n,
    decreases k,
{
    if k > 0 {
        lemma_max_run_witness(s, k - 1, n);
        if exists|b: int| 0 <= b < k - 1 && #[trigger] run_ending(s, b) >= n {
            let b = choose|b: int| 0 <= b < k - 1 && #[trigger] run_ending(s, b) >= n;
            assert(0 <= b < k);
        }
        if exists|b: int| 0 <= b < k && #[trigger] run_ending(s, b) >= n {
            let b = choose|b: int| 0 <= b < k && #[trigger] run_ending(s, b) >= n;
            if b < k - 1 {
                assert(max_run(s, k - 1) >= n);
            }
        }
    }
}

/// For sorted dice and `n >= 2`, the n-of-a-kind score is the dice total
/// exactly when some nonzero face shows on at least `n` dice (else 0).
pub proof fn lemma_n_of_a_kind_sorted(n: u8, s: Seq<u8>)
    requires
        s.len() == 5,
        nondecreasing(s),
        n >= 2,
    ensures
        n_of_a_kind_spec(n, s) == if exists|v: u8| v != 0 && #[trigger] count_of(s, v) >= n {
            sum_of(s)
        } else {
            0
        },
{
    lemma_max_run_witness(s, 5, n as int);
    if max_run(s, 5) >= n {
        let b = choose|b: int| 0 <= b < 5 && #[trigger] run_ending(s, b) >= n;
        lemma_run_bounds(s, b);
        assert(s[b] != 0);
        lemma_run_counts(s, b);
        lemma_count_of_split(s, b + 1, s[b]);
        assert(count_of(s, s[b]) >= n);
    }
    if exists|v: u8| v != 0 && #[trigger] count_of(s, v) >= n {
        let v = choose|v: u8| v != 0 && #[trigger] count_of(s, v) >= n;
        lemma_count_of_bound(s, v);
        let b = choose|b: int| 0 <= b < s.len() && s[b] == v && forall|c: int| b < c < s.len() ==> s[c] != v;
        lemma_run_counts(s, b);
        lemma_count_of_split(s, b + 1, v);
        let rest = s.subrange(b + 1, s.len() as int);
        lemma_count_of_bound(rest, v);
        if rest.contains(v) {
            let m = choose|m: int| 0 <= m < rest.len() && rest[m] == v;
            assert(s[b + 1 + m] == v);
        }
        assert(run_ending(s, b) >= n);
    }
}

/// The faces `a .. a + len` all show among the dice, for some face `a` from
/// 1 with `a + len - 1` at most 6.
pub open spec fn has_straight(s: Seq<u8>, len: int) -> bool {
    exists|a: int| 1 <= a && a + len - 1 <= 6 && #[trigger] faces_show(s, a, len)
}

/// The faces `a .. a + len` all show among the dice.
pub open spec fn faces_show(s: Seq<u8>, a: int, len: int) -> bool {
    forall|v: int| a <= v < a + len ==> #[trigger] s.contains(v as u8)
}

/// Every face between the start and the end of the straight ending at `b`
/// shows among the dice up to `b`.
proof fn lemma_chain_values(s: Seq<u8>, b: int)
    requires
        0 <= b < s.len(),
    ensures
        chain_ending(s, b) <= s[b] + 1,
        forall|v: int|
            s[b] - chain_ending(s, b) + 1 <= v <= s[b] ==> #[trigger] s.subrange(0, b + 1).contains(v as u8),
    decreases b,
{
    let t = s.subrange(0, b + 1);
    assert(t[b] == s[b]);
    if b > 0 {
        lemma_chain_values(s, b - 1);
        let p = s.subrange(0, b);
        assert(s.subrange(0, b - 1 + 1) =~= p);
        assert forall|v: int| s[b] - chain_ending(s, b) + 1 <= v <= s[b] implies #[trigger] t.contains(v as u8) by {
            if v != s[b] {
                assert(s[b - 1] - chain_ending(s, b - 1) + 1 <= v <= s[b - 1]);
                assert(p.contains(v as u8));
                let m = choose|m: int| 0 <= m < p.len() && p[m] == v as u8;
                assert(t[m] == v as u8);
            }
        }
    }
}

/// In sorted dice, when every face from `x` to the face at `b` shows up to
/// `b`, the straight ending at `b` is at least that long.
proof fn lemma_chain_from_values(s: Seq<u8>, b: int, x: int)
    requires
        nondecreasing(s),
        0 <= b < s.len(),
        0 <= x <= s[b],
        forall|v: int| x <= v <= s[b] ==> #[trigger] s.subrange(0, b + 1).contains(v as u8),
    ensures
        chain_ending(s, b) >= s[b] - x + 1,
    decreases b,
{
    let w = s[b] as int;
    lemma_run_bounds(s, b);
    if w > x {
        let t = s.subrange(0, b + 1);
        assert(t.contains((w - 1) as u8));
        let m = choose|m: int| 0 <= m < t.len() && t[m] == (w - 1) as u8;
        assert(t[b] == s[b]);
        assert(m < b);
        assert(b > 0);
        assert(s[m] <= s[b - 1]);
        let p = s.subrange(0, b);
        assert(s.subrange(0, b - 1 + 1) =~= p);
        assert(s[m] <= s[b - 1] && s[b - 1] <= s[b]);
        assert forall|v: int| x <= v <= s[b - 1] implies #[trigger] p.contains(v as u8) by {
            assert(t.contains(v as u8));
            let k = choose|k: int| 0 <= k < t.len() && t[k] == v as u8;
            if k == b {
                assert(v == w);
                assert(s[b - 1] == w);
                assert(p[b - 1] == v as u8);
            } else {
                assert(p[k] == v as u8);
            }
        }
        lemma_chain_from_values(s, b - 1, x);
    }
}

proof fn lemma_max_chain_witness(s: Seq<u8>, k: int, n: int)
    requires
        0 <= k,
        n >= 2,
    ensures
        max_chain(s, k) >= n <==> exists|b: int| 0 <= b < k && #[trigger] chain_ending(s, b) >= n,
    decreases k,
{
    if k > 0 {
        lemma_max_chain_witness(s, k - 1, n);
        if exists|b: int| 0 <= b < k - 1 && #[trigger] chain_ending(s, b) >= n {
            let b = choose|b: int| 0 <= b < k - 1 && #[trigger] chain_ending(s, b) >= n;
            assert(0 <= b < k);
        }
        if exists|b: int| 0 <= b < k && #[trigger] chain_ending(s, b) >= n {
            let b = choose|b: int| 0 <= b < k && #[trigger] chain_ending(s, b) >= n;
            if b < k - 1 {
                assert(max_chain(s, k - 1) >= n);
            }
        }
    }
}

/// The longest straight is at least 1.
proof fn lemma_max_chain_pos(s: Seq<u8>, k: int)
    ensures
        max_chain(s, k) >= 1,
    decreases k,
{
    if k > 0 {
        lemma_max_chain_pos(s, k - 1);
    }
}

/// For sorted dice showing faces 1 to 6, a straight of at least `len` (1 to
/// 5) in the dice as they stand is the same as `len` consecutive faces
/// showing: so `straight_len` is the longest run of consecutive faces that
/// show, and the small straight scores 30 exactly when four consecutive
/// faces show, the large straight 40 exactly when five do.
pub proof fn lemma_straight_sorted(s: Seq<u8>, len: int)
    requires
        s.len() == 5,
        nondecreasing(s),
        forall|i: int| 0 <= i < 5 ==> 1 <= #[trigger] s[i] <= 6,
        1 <= len <= 5,
    ensures
        max_chain(s, 5) >= len <==> has_straight(s, len),
{
    if len == 1 {
        lemma_max_chain_pos(s, 5);
        assert(s.contains(s[0]));
        assert(faces_show(s, s[0] as int, 1));
    } else {
        lemma_straight_sorted_long(s, len);
    }
}

proof fn lemma_straight_sorted_long(s: Seq<u8>, len: int)
    requires
        s.len() == 5,
        nondecreasing(s),
        forall|i: int| 0 <= i < 5 ==> 1 <= #[trigger] s[i] <= 6,
        2 <= len <= 5,
    ensures
        max_chain(s, 5) >= len <==> has_straight(s, len),
{
    lemma_max_chain_witness(s, 5, len);
    if max_chain(s, 5) >= len {
        let b = choose|b: int| 0 <= b < 5 && #[trigger] chain_ending(s, b) >= len;
        lemma_chain_values(s, b);
        let a = s[b] - len + 1;
        assert(s.subrange(0, b + 1).contains(a as u8));
        let m = choose|m: int| 0 <= m < b + 1 && #[trigger] s.subrange(0, b + 1)[m] == a as u8;
        assert(s[m] == a);
        assert forall|v: int| a <= v < a + len implies #[trigger] s.contains(v as u8) by {
            assert(s.subrange(0, b + 1).contains(v as u8));
            let k = choose|k: int| 0 <= k < b + 1 && #[trigger] s.subrange(0, b + 1)[k] == v as u8;
            assert(s[k] == v as u8);
        }
        assert(1 <= a && a + len - 1 <= 6);
        assert(faces_show(s, a, len));
    }
    if has_straight(s, len) {
        let a = choose|a: int| 1 <= a && a + len - 1 <= 6 && #[trigger] faces_show(s, a, len);
        let top = a + len - 1;
        assert(s.contains(top as u8));
        let i = choose|i: int| 0 <= i < 5 && s[i] == top as u8;
        assert forall|v: int| a <= v <= s[i] implies #[trigger] s.subrange(0, i + 1).contains(v as u8) by {
            assert(s.contains(v as u8));
            let j = choose|j: int| 0 <= j < 5 && s[j] == v as u8;
            if j > i {
                assert(s[i] <= s[j]);
            }
            assert(s.subrange(0, i + 1)[j] == v as u8);
        }
        lemma_chain_from_values(s, i, a);
        assert(chain_ending(s, i) >= len);
    }
}

/// The scoring rules of each scorecard slot.
pub struct Score;

impl Score {
    /// Total of the dice showing `boxnum`.
    pub fn upperbox(boxnum: Slot, sorted_dievals: DieVals) -> (r: u8)
        ensures
            r == upperbox_spec(boxnum, sorted_dievals@),
    {
        let ghost s = sorted_dievals@;
        let mut sum: u8 = 0;
        let mut i: u8 = 0;
        assert(count_of(s.subrange(0, 0), boxnum) == 0);
        assert(boxnum * count_of(s.subrange(0, 0), boxnum) == 0) by (nonlinear_arith)
            requires
                count_of(s.subrange(0, 0), boxnum) == 0,
        ;
        while i < 5
            invariant
                i <= 5,
                s == sorted_dievals@,
                sum == boxnum * count_of(s.subrange(0, i as int), boxnum),
                sum <= 7 * i,
            decreases 5 - i,
        {
            let x = sorted_dievals.get(i);
            proof {
                assert(s.subrange(0, i + 1) =~= s.subrange(0, i as int).push(x));
                lemma_count_of_push(s.subrange(0, i as int), x, boxnum);
            }
            if x == boxnum {
                let ghost c = count_of(s.subrange(0, i as int), boxnum);
                assert(boxnum * (c + 1) == boxnum * c + boxnum) by (nonlinear_arith);
                sum = sum + x;
            }
            i = i + 1;
        }
        assert(s.subrange(0, 5) =~= s);
        sum
    }

    /// The dice total when `n` equal nonzero dice stand in a row, else 0.
    pub fn n_of_a_kind(n: u8, sorted_dievals: DieVals) -> (r: u8)
        ensures
            r == n_of_a_kind_spec(n, sorted_dievals@),
    {
        let ghost s = sorted_dievals@;
        let mut inarow: u8 = 1;
        let mut maxinarow: u8 = 1;
        let mut lastval: u8 = 100;
        let mut sum: u8 = 0;
        let mut i: u8 = 0;
        while i < 5
            invariant
                i <= 5,
                s == sorted_dievals@,
                s.len() == 5,
                i == 0 ==> lastval == 100 && inarow == 1,
                i > 0 ==> lastval == s[i - 1] && inarow == run_ending(s, i - 1),
                maxinarow == max_run(s, i as int),
                sum == sum_of(s.subrange(0, i as int)),
                sum <= 7 * i,
            decreases 5 - i,
        {
            let x = sorted_dievals.get(i);
            proof {
                lemma_run_bounds(s, i as int);
                assert(s.subrange(0, i + 1) =~= s.subrange(0, i as int).push(x));
                lemma_sum_of_push(s.subrange(0, i as int), x);
            }
            if x == lastval && x != 0 {
                inarow = inarow + 1;
            } else {
                inarow = 1;
            }
            if inarow > maxinarow {
                maxinarow = inarow;
            }
            lastval = x;
            sum = sum + x;
            i = i + 1;
        }
        assert(s.subrange(0, 5) =~= s);
        if maxinarow >= n {
            sum
        } else {
            0
        }
    }

    /// Length of the longest straight among the dice as they stand.
    pub fn straight_len(sorted_dievals: DieVals) -> (r: u8)
        ensures
            r == max_chain(sorted_dievals@, 5),
            1 <= r <= 5,
    {
        let ghost s = sorted_dievals@;
        let mut inarow: u8 = 1;
        let mut maxinarow: u8 = 1;
        let mut lastval: u8 = 254;
        let mut i: u8 = 0;
        while i < 5
            invariant
                i <= 5,
                s == sorted_dievals@,
                s.len() == 5,
                lastval <= 254,
                i == 0 ==> lastval == 254 && inarow == 1,
                i > 0 ==> lastval == s[i - 1] && inarow == chain_ending(s, i - 1),
                maxinarow == max_chain(s, i as int),
            decreases 5 - i,
        {
            let x = sorted_dievals.get(i);
            proof {
                lemma_run_bounds(s, i as int);
            }
            if x == lastval + 1 && x != 0 {
                inarow = inarow + 1;
            } else if x != lastval {
                inarow = 1;
            }
            if inarow > maxinarow {
                maxinarow = inarow;
            }
            lastval = x;
            i = i + 1;
        }
        proof {
            lemma_run_bounds(s, 5);
        }
        maxinarow
    }

    pub fn aces(sorted_dievals: DieVals) -> (r: u8)
        ensures
            r == upperbox_spec(1, sorted_dievals@),
    {
        Score::upperbox(1, sorted_dievals)
    }

    pub fn twos(sorted_dievals: DieVals) -> (r: u8)
        ensures
            r == upperbox_spec(2, sorted_dievals@),
    {
        Score::upperbox(2, sorted_dievals)
    }

    pub fn threes(sorted_dievals: DieVals) -> (r: u8)
        ensures
            r == upperbox_spec(3, sorted_dievals@),
    {
        Score::upperbox(3, sorted_dievals)
    }

    pub fn fours(sorted_dievals: DieVals) -> (r: u8)
        ensures
            r == upperbox_spec(4, sorted_dievals@),
    {
        Score::upperbox(4, sorted_dievals)
    }

    pub fn fives(sorted_dievals: DieVals) -> (r: u8)
        ensures
            r == upperbox_spec(5, sorted_dievals@),
    {
        Score::upperbox(5, sorted_dievals)
    }

    pub fn sixes(sorted_dievals: DieVals) -> (r: u8)
        ensures
            r == upperbox_spec(6, sorted_dievals@),
    {
        Score::upperbox(6, sorted_dievals)
    }

    pub fn three_of_a_kind(sorted_dievals: DieVals) -> (r: u8)
        ensures
            r == n_of_a_kind_spec(3, sorted_dievals@),
    {
        Score::n_of_a_kind(3, sorted_dievals)
    }

    pub fn four_of_a_kind(sorted_dievals: DieVals) -> (r: u8)
        ensures
            r == n_of_a_kind_spec(4, sorted_dievals@),
    {
        Score::n_of_a_kind(4, sorted_dievals)
    }

    pub fn sm_str8(sorted_dievals: DieVals) -> (r: u8)
        ensures
            r == if max_chain(sorted_dievals@, 5) >= 4 {
                30int
            } else {
                0int
            },
    {
        if Score::straight_len(sorted_dievals) >= 4 {
            30
        } else {
            0
        }
    }

    pub fn lg_str8(sorted_dievals: DieVals) -> (r: u8)
        ensures
            r == if max_chain(sorted_dievals@, 5) == 5 {
                40int
            } else {
                0int
            },
    {
        if Score::straight_len(sorted_dievals) == 5 {
            40
        } else {
            0
        }
    }

    /// 25 for three dice of one nonzero value and two of another, else 0.
    pub fn fullhouse(sorted_dievals: DieVals) -> (r: u8)
        ensures
            r == if is_full_house(sorted_dievals@) {
                25int
            } else {
                0int
            },
    {
        let ghost s = sorted_dievals@;
        let counts = value_counts(sorted_dievals.values());
        proof {
            Score::lemma_full_house_listing(s, counts@);
        }
        if counts.len() != 2 {
            return 0;
        }
        let (val1, val1count) = counts[0];
        let (val2, val2count) = counts[1];
        if val1 == 0 || val2 == 0 {
            return 0;
        }
        if (val1count == 3 && val2count == 2) || (val2count == 3 && val1count == 2) {
            25
        } else {
            0
        }
    }

    /// How a full house shows in a listing of value counts.
    proof fn lemma_full_house_listing(s: Seq<u8>, c: Seq<(u8, usize)>)
        requires
            s.len() == 5,
            is_count_listing(s, c),
        ensures
            is_full_house(s) <==> (c.len() == 2 && c[0].0 != 0 && c[1].0 != 0 && ((c[0].1 == 3
                && c[1].1 == 2) || (c[1].1 == 3 && c[0].1 == 2))),
    {
        if c.len() == 2 && c[0].0 != 0 && c[1].0 != 0 && ((c[0].1 == 3 && c[1].1 == 2) || (c[1].1
            == 3 && c[0].1 == 2)) {
            assert(c[0].0 != c[1].0);
            assert(c[0].1 == count_of(s, c[0].0));
            assert(c[1].1 == count_of(s, c[1].0));
            if c[0].1 == 3 {
                assert(count_of(s, c[0].0) == 3 && count_of(s, c[1].0) == 2);
            } else {
                assert(count_of(s, c[1].0) == 3 && count_of(s, c[0].0) == 2);
            }
        }
        if is_full_house(s) {
            let (a, b) = choose|a: u8, b: u8|
                a != 0 && b != 0 && a != b && #[trigger] count_of(s, a) == 3 && #[trigger] count_of(
                    s,
                    b,
                ) == 2;
            lemma_count_of_bound(s, a);
            lemma_count_of_bound(s, b);
            lemma_count_of_two(s, a, b);
            assert forall|i: int| 0 <= i < c.len() implies #[trigger] c[i].0 == a || c[i].0 == b by {
                assert(s.contains(c[i].0));
                let k = choose|k: int| 0 <= k < s.len() && s[k] == c[i].0;
                assert(s[k] == c[i].0);
            }
            let ia = choose|i: int| 0 <= i < c.len() && #[trigger] c[i].0 == a;
            let ib = choose|i: int| 0 <= i < c.len() && #[trigger] c[i].0 == b;
            assert(ia != ib);
            if c.len() > 2 {
                let third: int = if ia != 0 && ib != 0 {
                    0
                } else if ia != 1 && ib != 1 {
                    1
                } else {
                    2
                };
                assert(c[third].0 == a || c[third].0 == b);
                if c[third].0 == a {
                    if third < ia {
                        assert(c[third].0 != c[ia].0);
                    } else {
                        assert(c[ia].0 != c[third].0);
                    }
                } else {
                    if third < ib {
                        assert(c[third].0 != c[ib].0);
                    } else {
                        assert(c[ib].0 != c[third].0);
                    }
                }
            }
            assert(c.len() == 2);
            assert(c[0].1 == count_of(s, c[0].0));
            assert(c[1].1 == count_of(s, c[1].0));
        }
    }

    /// Total of all dice.
    pub fn chance(sorted_dievals: DieVals) -> (r: u8)
        ensures
            r == sum_of(sorted_dievals@),
    {
        let ghost s = sorted_dievals@;
        let mut sum: u8 = 0;
        let mut i: u8 = 0;
        while i < 5
            invariant
                i <= 5,
                s == sorted_dievals@,
                sum == sum_of(s.subrange(0, i as int)),
                sum <= 7 * i,
            decreases 5 - i,
        {
            let x = sorted_dievals.get(i);
            proof {
                assert(s.subrange(0, i + 1) =~= s.subrange(0, i as int).push(x));
                lemma_sum_of_push(s.subrange(0, i as int), x);
            }
            sum = sum + x;
            i = i + 1;
        }
        assert(s.subrange(0, 5) =~= s);
        sum
    }

    /// 50 when the first and last dice agree and are nonzero (for sorted dice:
    /// all five equal), else 0.
    pub fn yahtzee(sorted_dievals: DieVals) -> (r: u8)
        ensures
            r == yahtzee_spec(sorted_dievals@),
    {
        if sorted_dievals.get(0) == sorted_dievals.get(4) && sorted_dievals.get(0) != 0 {
            50
        } else {
            0
        }
    }

    /// The score of `slot` for the dice, without regard to bonuses or jokers.
    pub fn slot_with_dice(slot: Slot, sorted_dievals: DieVals) -> (r: u8)
        requires
            1 <= slot <= 13,
        ensures
            r == slot_score(slot, sorted_dievals@),
    {
        match slot {
            1 => Score::aces(sorted_dievals),
            2 => Score::twos(sorted_dievals),
            3 => Score::threes(sorted_dievals),
            4 => Score::fours(sorted_dievals),
            5 => Score::fives(sorted_dievals),
            6 => Score::sixes(sorted_dievals),
            7 => Score::three_of_a_kind(sorted_dievals),
            8 => Score::four_of_a_kind(sorted_dievals),
            9 => Score::fullhouse(sorted_dievals),
            10 => Score::sm_str8(sorted_dievals),
            11 => Score::lg_str8(sorted_dievals),
            12 => Score::yahtzee(sorted_dievals),
            _ => Score::chance(sorted_dievals),
        }
    }
}

} // verus!
