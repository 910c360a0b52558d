//! The ordering indexer: a dense integer index for every possible
//! party-preference ordering over a configured group set.
//!
//! An ordering is a sequence of distinct group indices drawn from
//! `0..groups_count`.  The universe of orderings is enumerated in a fixed
//! canonical order: the empty ordering first, then all orderings of length 1,
//! then length 2, and so on; within one length, orderings appear in
//! lexicographic order.  `calculate_index` computes the position of an
//! ordering in that enumeration arithmetically, without materialising it.

use vstd::prelude::*;
use vstd::string::StringExecFns;

verus! {

/// The falling factorial `n * (n-1) * ... * (n-k+1)`, with value 1 when
/// `k == 0`.  This counts the orderings of length `k` over `n` groups.
pub open spec fn falling_factorial(n: nat, k: nat) -> nat
    decreases k,
{
    if k == 0 {
        1
    } else {
        n * falling_factorial((n - 1) as nat, (k - 1) as nat)
    }
}

/// Number of orderings of length shorter than `len` over `n` groups:
/// the sum of `falling_factorial(n, i)` for `i < len`.
pub open spec fn skip_shorter(n: nat, len: nat) -> nat
    decreases len,
{
    if len == 0 {
        0
    } else {
        skip_shorter(n, (len - 1) as nat) + falling_factorial(n, (len - 1) as nat)
    }
}

/// How many values `x < v` do not occur in `e`.
///
/// When `e` holds the ordering's earlier entries, this is the position of
/// `v` among the group indices still unused — the standard factorial-number-
/// system digit.
pub open spec fn count_missing(e: Seq<usize>, v: nat) -> nat
    decreases v,
{
    if v == 0 {
        0
    } else {
        count_missing(e, (v - 1) as nat) + if e.contains(((v - 1) as nat) as usize) {
            0nat
        } else {
            1nat
        }
    }
}

/// The within-length part of the rank: the sum over positions `o' < o` of
/// `digit(o') * falling_factorial(n - o' - 1, len - o' - 1)`.
pub open spec fn pos_sum_pre(order: Seq<usize>, n: nat, o: nat) -> nat
    decreases o,
{
    if o == 0 || o > order.len() || order.len() > n {
        0
    } else {
        pos_sum_pre(order, n, (o - 1) as nat) + count_missing(
            order.take(o - 1),
            order[o - 1] as nat,
        ) * falling_factorial((n - o) as nat, (order.len() - o) as nat)
    }
}

/// The canonical rank of an ordering over `n` groups.
pub open spec fn spec_rank(order: Seq<usize>, n: nat) -> nat {
    if order.len() == 0 || n == 0 {
        0
    } else {
        skip_shorter(n, order.len()) + pos_sum_pre(order, n, order.len())
    }
}

/// An ordering is valid for `n` groups when its entries are distinct group
/// indices below `n`.
pub open spec fn valid_ordering(order: Seq<usize>, n: nat) -> bool {
    &&& order.len() <= n
    &&& forall|i: int| 0 <= i < order.len() ==> order[i] < n
    &&& forall|i: int, j: int| 0 <= i < j < order.len() ==> order[i] != order[j]
}

/// The empty ordering ranks first, whatever the group count.
pub proof fn lemma_rank_empty(n: nat)
    ensures
        spec_rank(Seq::<usize>::empty(), n) == 0,
{
}

proof fn lemma_ff_step(n: nat, k: nat)
    requires
        k < n,
    ensures
        falling_factorial(n, k + 1) == falling_factorial(n, k) * (n - k),
    decreases k,
{
    if k == 0 {
        assert(falling_factorial(n, 1) == n * falling_factorial((n - 1) as nat, 0));
        assert(falling_factorial((n - 1) as nat, 0) == 1);
        assert(falling_factorial(n, 0) == 1);
        assert(n * falling_factorial((n - 1) as nat, 0) == n) by (nonlinear_arith)
            requires
                falling_factorial((n - 1) as nat, 0) == 1,
        ;
        assert(falling_factorial(n, 0) * (n - 0) == n) by (nonlinear_arith)
            requires
                falling_factorial(n, 0) == 1,
        ;
        assert(falling_factorial(n, k + 1) == falling_factorial(n, k) * (n - k));
    } else {
        lemma_ff_step((n - 1) as nat, (k - 1) as nat);
        assert(falling_factorial(n, k + 1) == n * falling_factorial((n - 1) as nat, k));
        assert(falling_factorial((n - 1) as nat, k) == falling_factorial(
            (n - 1) as nat,
            (k - 1) as nat,
        ) * (n - k));
        assert(n * (falling_factorial((n - 1) as nat, (k - 1) as nat) * (n - k)) == (n
            * falling_factorial((n - 1) as nat, (k - 1) as nat)) * (n - k)) by (nonlinear_arith);
        assert(falling_factorial(n, k) == n * falling_factorial((n - 1) as nat, (k - 1) as nat));
        assert(falling_factorial(n, k) * (n - k) == (n * falling_factorial(
            (n - 1) as nat,
            (k - 1) as nat,
        )) * (n - k));
        assert(falling_factorial(n, k + 1) == falling_factorial(n, k) * (n - k));
    }
}

proof fn lemma_ff_mono_n(n1: nat, n2: nat, k: nat)
    requires
        n1 <= n2,
    ensures
        falling_factorial(n1, k) <= falling_factorial(n2, k),
    decreases k,
{
    if k > 0 {
        if n1 == 0 {
            assert(falling_factorial(0, k) == 0 * falling_factorial((0 - 1) as nat, (k - 1) as nat));
        } else {
            lemma_ff_mono_n((n1 - 1) as nat, (n2 - 1) as nat, (k - 1) as nat);
            assert(n1 * falling_factorial((n1 - 1) as nat, (k - 1) as nat) <= n2
                * falling_factorial((n2 - 1) as nat, (k - 1) as nat)) by (nonlinear_arith)
                requires
                    n1 <= n2,
                    falling_factorial((n1 - 1) as nat, (k - 1) as nat) <= falling_factorial(
                        (n2 - 1) as nat,
                        (k - 1) as nat,
                    ),
            ;
        }
    }
}

proof fn lemma_ff_mono_k(n: nat, k1: nat, k2: nat)
    requires
        k1 <= k2 <= n,
    ensures
        falling_factorial(n, k1) <= falling_factorial(n, k2),
    decreases k2 - k1,
{
    if k1 < k2 {
        lemma_ff_step(n, k1);
        assert(falling_factorial(n, k1) * (n - k1) >= falling_factorial(n, k1) * 1)
            by (nonlinear_arith)
            requires
                n - k1 >= 1,
                falling_factorial(n, k1) >= 0,
        ;
        lemma_ff_mono_k(n, (k1 + 1) as nat, k2);
    }
}

proof fn lemma_skip_mono(n1: nat, n2: nat, l1: nat, l2: nat)
    requires
        n1 <= n2,
        l1 <= l2,
    ensures
        skip_shorter(n1, l1) <= skip_shorter(n2, l2),
    decreases l2,
{
    if l2 > 0 {
        if l1 == l2 {
            lemma_skip_mono(n1, n2, (l1 - 1) as nat, (l2 - 1) as nat);
            lemma_ff_mono_n(n1, n2, (l1 - 1) as nat);
        } else {
            lemma_skip_mono(n1, n2, l1, (l2 - 1) as nat);
        }
    }
}

/// Sum of `falling_factorial(j, j)` for `j < k`.
spec fn sum_ffkk(k: nat) -> nat
    decreases k,
{
    if k == 0 {
        0
    } else {
        sum_ffkk((k - 1) as nat) + falling_factorial((k - 1) as nat, (k - 1) as nat)
    }
}

/// Bound used to show `calculate_index` cannot overflow: with at most 12
/// groups every partial sum stays far below `2^31`.
proof fn lemma_pos_sum_pre_bound(order: Seq<usize>, n: nat, o: nat)
    requires
        valid_ordering(order, n),
        n <= 12,
        o <= order.len(),
    ensures
        pos_sum_pre(order, n, o) <= 11 * sum_ffkk(12),
{
    lemma_pos_sum_pre_partial(order, n, o);
    assert(sum_ffkk(12) - sum_ffkk((12 - o) as nat) <= sum_ffkk(12));
    assert(11 * (sum_ffkk(12) - sum_ffkk((12 - o) as nat)) <= 11 * sum_ffkk(12))
        by (nonlinear_arith)
        requires
            sum_ffkk(12) - sum_ffkk((12 - o) as nat) <= sum_ffkk(12),
    ;
}

proof fn lemma_sum_ffkk_mono(k1: nat, k2: nat)
    requires
        k1 <= k2,
    ensures
        sum_ffkk(k1) <= sum_ffkk(k2),
    decreases k2,
{
    if k1 < k2 {
        lemma_sum_ffkk_mono(k1, (k2 - 1) as nat);
    }
}

/// The concrete sizes for the 12-group cap, by evaluation.
#[verifier::rlimit(100)]
proof fn lemma_concrete_bounds()
    ensures
        skip_shorter(12, 12) < 0x3200_0000,
        11 * sum_ffkk(12) < 0x2000_0000,
        falling_factorial(12, 12) < 0x3200_0000,
{
    assert(falling_factorial(0, 0) == 1);
    assert(falling_factorial(1, 1) == 1 * falling_factorial(0, 0));
    assert(falling_factorial(1, 1) == 1);
    assert(falling_factorial(2, 2) == 2 * falling_factorial(1, 1));
    assert(falling_factorial(2, 2) == 2);
    assert(falling_factorial(3, 3) == 3 * falling_factorial(2, 2));
    assert(falling_factorial(3, 3) == 6);
    assert(falling_factorial(4, 4) == 4 * falling_factorial(3, 3));
    assert(falling_factorial(4, 4) == 24);
    assert(falling_factorial(5, 5) == 5 * falling_factorial(4, 4));
    assert(falling_factorial(5, 5) == 120);
    assert(falling_factorial(6, 6) == 6 * falling_factorial(5, 5));
    assert(falling_factorial(6, 6) == 720);
    assert(falling_factorial(7, 7) == 7 * falling_factorial(6, 6));
    assert(falling_factorial(7, 7) == 5040);
    assert(falling_factorial(8, 8) == 8 * falling_factorial(7, 7));
    assert(falling_factorial(8, 8) == 40320);
    assert(falling_factorial(9, 9) == 9 * falling_factorial(8, 8));
    assert(falling_factorial(9, 9) == 362880);
    assert(falling_factorial(10, 10) == 10 * falling_factorial(9, 9));
    assert(falling_factorial(10, 10) == 3628800);
    assert(falling_factorial(11, 11) == 11 * falling_factorial(10, 10));
    assert(falling_factorial(11, 11) == 39916800);
    assert(falling_factorial(12, 12) == 12 * falling_factorial(11, 11));
    assert(falling_factorial(12, 12) == 479001600);
    assert(sum_ffkk(0) == 0);
    assert(sum_ffkk(1) == 1);
    assert(sum_ffkk(2) == 2);
    assert(sum_ffkk(3) == 4);
    assert(sum_ffkk(4) == 10);
    assert(sum_ffkk(5) == 34);
    assert(sum_ffkk(6) == 154);
    assert(sum_ffkk(7) == 874);
    assert(sum_ffkk(8) == 5914);
    assert(sum_ffkk(9) == 46234);
    assert(sum_ffkk(10) == 409114);
    assert(sum_ffkk(11) == 4037914);
    assert(sum_ffkk(12) == 43954714);
    assert(falling_factorial(12, 0) == 1);
    lemma_ff_step(12, 0);
    assert(falling_factorial(12, 1) == 12);
    lemma_ff_step(12, 1);
    assert(falling_factorial(12, 2) == 132);
    lemma_ff_step(12, 2);
    assert(falling_factorial(12, 3) == 1320);
    lemma_ff_step(12, 3);
    assert(falling_factorial(12, 4) == 11880);
    lemma_ff_step(12, 4);
    assert(falling_factorial(12, 5) == 95040);
    lemma_ff_step(12, 5);
    assert(falling_factorial(12, 6) == 665280);
    lemma_ff_step(12, 6);
    assert(falling_factorial(12, 7) == 3991680);
    lemma_ff_step(12, 7);
    assert(falling_factorial(12, 8) == 19958400);
    lemma_ff_step(12, 8);
    assert(falling_factorial(12, 9) == 79833600);
    lemma_ff_step(12, 9);
    assert(falling_factorial(12, 10) == 239500800);
    lemma_ff_step(12, 10);
    assert(falling_factorial(12, 11) == 479001600);
    assert(skip_shorter(12, 0) == 0);
    assert(skip_shorter(12, 1) == 1);
    assert(skip_shorter(12, 2) == 13);
    assert(skip_shorter(12, 3) == 145);
    assert(skip_shorter(12, 4) == 1465);
    assert(skip_shorter(12, 5) == 13345);
    assert(skip_shorter(12, 6) == 108385);
    assert(skip_shorter(12, 7) == 773665);
    assert(skip_shorter(12, 8) == 4765345);
    assert(skip_shorter(12, 9) == 24723745);
    assert(skip_shorter(12, 10) == 104557345);
    assert(skip_shorter(12, 11) == 344058145);
    assert(skip_shorter(12, 12) == 823059745);
}

proof fn lemma_count_missing_le(e: Seq<usize>, v: nat)
    ensures
        count_missing(e, v) <= v,
    decreases v,
{
    if v > 0 {
        lemma_count_missing_le(e, (v - 1) as nat);
    }
}

proof fn lemma_pos_sum_pre_partial(order: Seq<usize>, n: nat, o: nat)
    requires
        valid_ordering(order, n),
        n <= 12,
        o <= order.len(),
    ensures
        pos_sum_pre(order, n, o) <= 11 * (sum_ffkk(12) - sum_ffkk((12 - o) as nat)),
        sum_ffkk((12 - o) as nat) <= sum_ffkk(12),
    decreases o,
{
    lemma_sum_ffkk_mono((12 - o) as nat, 12);
    if o > 0 {
        lemma_pos_sum_pre_partial(order, n, (o - 1) as nat);
        let a = count_missing(order.take(o - 1), order[o - 1] as nat);
        let f = falling_factorial((n - o) as nat, (order.len() - o) as nat);
        lemma_count_missing_le(order.take(o - 1), order[o - 1] as nat);
        assert(a <= 11);
        lemma_ff_mono_k((n - o) as nat, (order.len() - o) as nat, (n - o) as nat);
        lemma_ff_mono_n((n - o) as nat, (12 - o) as nat, (n - o) as nat);
        lemma_ff_mono_k((12 - o) as nat, (n - o) as nat, (12 - o) as nat);
        assert(f <= falling_factorial((12 - o) as nat, (12 - o) as nat));
        assert(a * f <= 11 * falling_factorial((12 - o) as nat, (12 - o) as nat))
            by (nonlinear_arith)
            requires
                a <= 11,
                0 <= f,
                f <= falling_factorial((12 - o) as nat, (12 - o) as nat),
        ;
        assert(sum_ffkk((13 - o) as nat) == sum_ffkk((12 - o) as nat) + falling_factorial(
            (12 - o) as nat,
            (12 - o) as nat,
        ));
        lemma_mul_sub_helper(
            11,
            sum_ffkk(12),
            sum_ffkk((13 - o) as nat),
            sum_ffkk((12 - o) as nat),
        );
    }
}

proof fn lemma_mul_sub_helper(c: nat, s: nat, b: nat, a: nat)
    requires
        a <= b <= s,
    ensures
        c * (s - b) + c * (b - a) == c * (s - a),
{
    assert(c * (s - b) + c * (b - a) == c * (s - a)) by (nonlinear_arith)
        requires
            a <= b <= s,
    ;
}

/// Calculate an ordering's index in the canonical enumeration.
///
/// The empty ordering ranks 0 for every group count.  For non-empty
/// orderings the group count is capped so that every intermediate sum
/// provably fits in a `usize` even on a 32-bit machine; the enumeration
/// for 12 groups already has more than a billion entries.
pub fn calculate_index(order: &[usize], groups_count: usize) -> (idx: usize)
    requires
        order@.len() > 0 ==> groups_count <= 12,
        valid_ordering(order@, groups_count as nat),
    ensures
        idx == spec_rank(order@, groups_count as nat),
{
    let order_len: usize = order.len();
    if order_len == 0 || groups_count == 0 {
        return 0;
    }
    let mut idx: usize = 0;

    proof {
        lemma_skip_mono(groups_count as nat, 12, 0, 12);
        lemma_concrete_bounds();
    }

    // Skip all shorter orderings.
    let mut i: usize = 0;
    while i < order_len
        invariant
            order_len == order@.len(),
            0 < order_len <= groups_count <= 12,
            i <= order_len,
            idx == skip_shorter(groups_count as nat, i as nat),
            skip_shorter(12, 12) < 0x3200_0000,
        decreases order_len - i,
    {
        let mut q: usize = 1;
        let mut j: usize = 0;
        proof {
            lemma_skip_mono(groups_count as nat, 12, i as nat, 12);
        }
        while j < i
            invariant
                i < order_len <= groups_count <= 12,
                j <= i,
                q == falling_factorial(groups_count as nat, j as nat),
                skip_shorter(12, 12) < 0x3200_0000,
            decreases i - j,
        {
            proof {
                lemma_ff_step(groups_count as nat, j as nat);
                lemma_ff_mono_n(groups_count as nat, 12, (j + 1) as nat);
                lemma_ff_mono_k(12, (j + 1) as nat, 12);
                lemma_concrete_bounds();
            }
            q = q * (groups_count - j);
            j = j + 1;
        }
        proof {
            lemma_skip_mono(groups_count as nat, 12, (i + 1) as nat, 12);
        }
        idx = idx + q;
        i = i + 1;
    }

    proof {
        lemma_skip_mono(groups_count as nat, 12, order_len as nat, 12);
        lemma_concrete_bounds();
    }

    // Position within this length.
    let mut o: usize = 0;
    while o < order_len
        invariant
            order_len == order@.len(),
            0 < order_len <= groups_count <= 12,
            valid_ordering(order@, groups_count as nat),
            o <= order_len,
            idx == skip_shorter(groups_count as nat, order_len as nat) + pos_sum_pre(
                order@,
                groups_count as nat,
                o as nat,
            ),
            skip_shorter(groups_count as nat, order_len as nat) < 0x3200_0000,
            11 * sum_ffkk(12) < 0x2000_0000,
        decreases order_len - o,
    {
        let v: usize = order[o];
        // The factorial-number-system digit: how many still-unused group
        // indices are smaller than this entry.
        let mut a: usize = 0;
        let mut x: usize = 0;
        while x < v
            invariant
                o < order_len == order@.len(),
                v == order@[o as int],
                x <= v,
                a == count_missing(order@.take(o as int), x as nat),
                a <= x,
            decreases v - x,
        {
            let mut seen: bool = false;
            let mut k: usize = 0;
            while k < o
                invariant
                    o < order_len == order@.len(),
                    k <= o,
                    seen == exists|t: int| 0 <= t < k && order@[t] == x,
                decreases o - k,
            {
                if order[k] == x {
                    seen = true;
                }
                k = k + 1;
            }
            proof {
                assert(seen == order@.take(o as int).contains(x)) by {
                    if seen {
                        let t = choose|t: int| 0 <= t < o && order@[t] == x;
                        assert(order@.take(o as int)[t] == x);
                    } else {
                        if order@.take(o as int).contains(x) {
                            let t = choose|t: int|
                                0 <= t < o && order@.take(o as int)[t] == x;
                            assert(order@[t] == x);
                        }
                    }
                }
            }
            if !seen {
                a = a + 1;
            }
            x = x + 1;
        }

        if a > 0 {
            let n: usize = groups_count - o;
            let l: usize = order_len - o;
            let mut t: usize = a;
            let mut i2: usize = 1;
            proof {
                lemma_term_bound(order@, groups_count as nat, o as nat, 0);
                assert(falling_factorial((n - 1) as nat, 0) == 1);
                assert(a * falling_factorial((n - 1) as nat, 0) == a) by (nonlinear_arith)
                    requires
                        falling_factorial((n - 1) as nat, 0) == 1,
                ;
            }
            while i2 < l
                invariant
                    o < order_len == order@.len(),
                    order_len <= groups_count <= 12,
                    valid_ordering(order@, groups_count as nat),
                    n == groups_count - o,
                    l == order_len - o,
                    v == order@[o as int],
                    1 <= i2 <= l,
                    a == count_missing(order@.take(o as int), v as nat),
                    a <= 11,
                    t == a * falling_factorial((n - 1) as nat, (i2 - 1) as nat),
                    11 * sum_ffkk(12) < 0x2000_0000,
                decreases l - i2,
            {
                proof {
                    lemma_ff_step((n - 1) as nat, (i2 - 1) as nat);
                    lemma_term_bound(order@, groups_count as nat, o as nat, i2 as nat);
                    assert(a * (falling_factorial((n - 1) as nat, (i2 - 1) as nat) * (n - i2))
                        == (a * falling_factorial((n - 1) as nat, (i2 - 1) as nat)) * (n - i2))
                        by (nonlinear_arith);
                }
                t = t * (n - i2);
                i2 = i2 + 1;
            }
            proof {
                lemma_pos_sum_pre_bound(order@, groups_count as nat, (o + 1) as nat);
                assert(pos_sum_pre(order@, groups_count as nat, (o + 1) as nat) == pos_sum_pre(
                    order@,
                    groups_count as nat,
                    o as nat,
                ) + a * falling_factorial((n - 1) as nat, (l - 1) as nat));
            }
            idx = idx + t;
        } else {
            proof {
                assert(pos_sum_pre(order@, groups_count as nat, (o + 1) as nat) == pos_sum_pre(
                    order@,
                    groups_count as nat,
                    o as nat,
                ) + count_missing(order@.take(o as int), order@[o as int] as nat)
                    * falling_factorial(
                    (groups_count - o - 1) as nat,
                    (order_len - o - 1) as nat,
                ));
                assert(count_missing(order@.take(o as int), order@[o as int] as nat) == 0);
                assert(count_missing(order@.take(o as int), order@[o as int] as nat)
                    * falling_factorial(
                    (groups_count - o - 1) as nat,
                    (order_len - o - 1) as nat,
                ) == 0) by (nonlinear_arith)
                    requires
                        count_missing(order@.take(o as int), order@[o as int] as nat) == 0,
                ;
            }
        }
        o = o + 1;
    }
    idx
}

/// Bound on the per-position term `a * ff(n-o-1, i)` for `n <= 12`.
proof fn lemma_term_bound(order: Seq<usize>, n: nat, o: nat, i: nat)
    requires
        valid_ordering(order, n),
        n <= 12,
        o < order.len(),
        i <= order.len() - o - 1,
    ensures
        count_missing(order.take(o as int), order[o as int] as nat) * falling_factorial(
            (n - o - 1) as nat,
            i,
        ) <= 11 * sum_ffkk(12),
{
    let a = count_missing(order.take(o as int), order[o as int] as nat);
    lemma_count_missing_le(order.take(o as int), order[o as int] as nat);
    lemma_ff_mono_k((n - o - 1) as nat, i, (n - o - 1) as nat);
    lemma_ff_mono_n((n - o - 1) as nat, 11, (n - o - 1) as nat);
    lemma_ff_mono_k(11, (n - o - 1) as nat, 11);
    assert(falling_factorial((n - o - 1) as nat, i) <= falling_factorial(11, 11));
    assert(a * falling_factorial((n - o - 1) as nat, i) <= 11 * falling_factorial(11, 11))
        by (nonlinear_arith)
        requires
            a <= 11,
            0 <= falling_factorial((n - o - 1) as nat, i),
            falling_factorial((n - o - 1) as nat, i) <= falling_factorial(11, 11),
    ;
    assert(sum_ffkk(12) == sum_ffkk(11) + falling_factorial(11, 11));
    assert(11 * falling_factorial(11, 11) <= 11 * sum_ffkk(12)) by (nonlinear_arith)
        requires
            falling_factorial(11, 11) <= sum_ffkk(12),
    ;
}

/// The group indices `0, 1, ..., n-1` in order: the sorted pool that the
/// enumeration draws from.
pub open spec fn seq_range(n: nat) -> Seq<usize> {
    Seq::new(n, |i: int| i as usize)
}

/// Prepend `x` to every sequence in `ps`.
pub open spec fn prefix_each(x: usize, ps: Seq<Seq<usize>>) -> Seq<Seq<usize>> {
    ps.map_values(|p: Seq<usize>| seq![x] + p)
}

/// All arrangements of `k` elements drawn from `pool`, in lexicographic
/// order of the positions chosen from `pool`.
pub open spec fn perms_of(pool: Seq<usize>, k: nat) -> Seq<Seq<usize>>
    decreases k, pool.len() + 1,
{
    if k == 0 {
        seq![Seq::<usize>::empty()]
    } else {
        perms_branch(pool, k, 0)
    }
}

/// The tail of `perms_of` from branch `i` on: arrangements whose first
/// element is `pool[i]` or later.
pub open spec fn perms_branch(pool: Seq<usize>, k: nat, i: nat) -> Seq<Seq<usize>>
    decreases k, pool.len() - i,
{
    if k == 0 || i >= pool.len() {
        Seq::<Seq<usize>>::empty()
    } else {
        prefix_each(pool[i as int], perms_of(pool.remove(i as int), (k - 1) as nat))
            + perms_branch(pool, k, (i + 1) as nat)
    }
}

/// All orderings over `pool` of length `0..=len`, shortest first.
pub open spec fn orderings_upto(pool: Seq<usize>, len: nat) -> Seq<Seq<usize>>
    decreases len,
{
    if len == 0 {
        perms_of(pool, 0)
    } else {
        orderings_upto(pool, (len - 1) as nat) + perms_of(pool, len)
    }
}

/// The complete canonical enumeration of orderings over `n` groups:
/// the universe that `calculate_index` ranks into.
pub open spec fn all_orderings(n: nat) -> Seq<Seq<usize>> {
    orderings_upto(seq_range(n), n)
}

/// The element-wise views of a sequence of vectors.
pub open spec fn views(s: Seq<Vec<usize>>) -> Seq<Seq<usize>> {
    Seq::new(s.len(), |i: int| s[i]@)
}

/// `deep_view` of a vector of vectors is exactly the element-wise views.
proof fn lemma_deep_is_views(r: &Vec<Vec<usize>>)
    ensures
        r.deep_view() == views(r@),
{
    assert forall|i: int| 0 <= i < r@.len() implies r.deep_view()[i] == views(r@)[i] by {
        assert(r@[i].deep_view() =~= r@[i]@);
    }
    assert(r.deep_view() =~= views(r@));
}

/// A copy of `v` with the element at `i` removed.
fn remove_at(v: &Vec<usize>, i: usize) -> (r: Vec<usize>)
    requires
        i < v@.len(),
    ensures
        r@ == v@.remove(i as int),
{
    let mut r: Vec<usize> = Vec::new();
    let mut j: usize = 0;
    while j < v.len()
        invariant
            i < v@.len(),
            j <= v@.len(),
            r@ == if j <= i {
                v@.take(j as int)
            } else {
                v@.take(i as int) + v@.subrange(i + 1, j as int)
            },
        decreases v@.len() - j,
    {
        if j != i {
            r.push(v[j]);
        }
        proof {
            if j < i {
                assert(r@ =~= v@.take(j + 1));
            } else if j == i {
                assert(r@ =~= v@.take(i as int) + v@.subrange(i + 1, j + 1));
            } else {
                assert(r@ =~= v@.take(i as int) + v@.subrange(i + 1, j + 1));
            }
        }
        j = j + 1;
    }
    proof {
        assert(r@ =~= v@.remove(i as int));
    }
    r
}

/// All arrangements of `k` of the elements of `pool`, in enumeration order.
fn perms_exec(pool: &Vec<usize>, k: usize) -> (r: Vec<Vec<usize>>)
    ensures
        r.deep_view() == perms_of(pool@, k as nat),
    decreases k,
{
    let mut r: Vec<Vec<usize>> = Vec::new();
    if k == 0 {
        let empty: Vec<usize> = Vec::new();
        r.push(empty);
        proof {
            lemma_deep_is_views(&r);
            assert(views(r@) =~= perms_of(pool@, 0));
        }
        return r;
    }
    let mut i: usize = 0;
    while i < pool.len()
        invariant
            k >= 1,
            i <= pool@.len(),
            views(r@) + perms_branch(pool@, k as nat, i as nat) == perms_branch(
                pool@,
                k as nat,
                0,
            ),
        decreases pool@.len() - i,
    {
        let shorter: Vec<usize> = remove_at(pool, i);
        let sub: Vec<Vec<usize>> = perms_exec(&shorter, k - 1);
        proof {
            lemma_deep_is_views(&sub);
        }
        let ghost r_before = views(r@);
        let ghost sub_views = views(sub@);
        let head: usize = pool[i];
        let mut j: usize = 0;
        proof {
            assert(r_before + prefix_each(head, sub_views).take(0) =~= r_before);
        }
        while j < sub.len()
            invariant
                j <= sub@.len(),
                head == pool@[i as int],
                sub_views == views(sub@),
                sub_views == perms_of(pool@.remove(i as int), (k - 1) as nat),
                views(r@) == r_before + prefix_each(head, sub_views).take(j as int),
            decreases sub@.len() - j,
        {
            let mut one: Vec<usize> = Vec::new();
            one.push(head);
            let mut m: usize = 0;
            let subj: &Vec<usize> = &sub[j];
            while m < subj.len()
                invariant
                    m <= subj@.len(),
                    subj@ == sub@[j as int]@,
                    one@ == seq![head].add(subj@.take(m as int)),
                decreases subj@.len() - m,
            {
                one.push(subj[m]);
                proof {
                    assert(one@ =~= seq![head].add(subj@.take(m + 1)));
                }
                m = m + 1;
            }
            proof {
                assert(subj@.take(subj@.len() as int) =~= subj@);
                assert(one@ =~= seq![head] + sub_views[j as int]);
            }
            let ghost one_view = one@;
            let ghost prev = r@;
            r.push(one);
            proof {
                let ghost pre = prefix_each(head, sub_views);
                assert(pre[j as int] == seq![head] + sub_views[j as int]);
                assert(pre.len() == sub_views.len());
                assert(pre.take(j as int).len() == j);
                assert(views(prev).len() == prev.len());
                assert(prev.len() == r_before.len() + j);
                assert(r@.len() == prev.len() + 1);
                let ghost target = r_before + pre.take(j + 1);
                assert forall|idx: int| 0 <= idx < r@.len() implies views(r@)[idx] == target[idx]
                    by {
                    assert(views(r@)[idx] == r@[idx]@);
                    if idx < prev.len() {
                        assert(r@[idx] == prev[idx]);
                        assert(views(prev)[idx] == prev[idx]@);
                        assert(views(prev)[idx] == (r_before + pre.take(j as int))[idx]);
                        if idx < r_before.len() {
                            assert(target[idx] == r_before[idx]);
                        } else {
                            assert(target[idx] == pre.take(j + 1)[idx - r_before.len()]);
                            assert(pre.take(j + 1)[idx - r_before.len()] == pre[idx
                                - r_before.len()]);
                            assert((r_before + pre.take(j as int))[idx] == pre.take(j as int)[idx
                                - r_before.len()]);
                        }
                    } else {
                        assert(idx == r_before.len() + j);
                        assert(r@[idx]@ == one_view);
                        assert(one_view == pre[j as int]);
                        assert(target[idx] == pre.take(j + 1)[j as int]);
                        assert(pre.take(j + 1)[j as int] == pre[j as int]);
                    }
                }
                assert(views(r@).len() == target.len());
                assert(views(r@) =~= target);
            }
            j = j + 1;
        }
        proof {
            assert(prefix_each(head, sub_views).take(sub_views.len() as int) =~= prefix_each(
                head,
                sub_views,
            ));
            assert(perms_branch(pool@, k as nat, i as nat) == prefix_each(
                pool@[i as int],
                perms_of(pool@.remove(i as int), (k - 1) as nat),
            ) + perms_branch(pool@, k as nat, (i + 1) as nat));
            assert(views(r@) + perms_branch(pool@, k as nat, (i + 1) as nat) =~= perms_branch(
                pool@,
                k as nat,
                0,
            ));
        }
        i = i + 1;
    }
    proof {
        assert(perms_branch(pool@, k as nat, pool@.len() as nat)
            == Seq::<Seq<usize>>::empty());
        assert(views(r@) + Seq::<Seq<usize>>::empty() =~= views(r@));
        lemma_deep_is_views(&r);
        assert(views(r@) =~= perms_of(pool@, k as nat));
    }
    r
}

/// Materialise the canonical enumeration for `groups_count` groups: the
/// ordering at position `i` has rank `i`.
pub fn make_combo_tree(groups_count: usize) -> (r: Vec<Vec<usize>>)
    requires
        groups_count < usize::MAX,
    ensures
        r.deep_view() == all_orderings(groups_count as nat),
{
    let mut pool: Vec<usize> = Vec::new();
    let mut g: usize = 0;
    while g < groups_count
        invariant
            g <= groups_count,
            pool@ == seq_range(g as nat),
        decreases groups_count - g,
    {
        pool.push(g);
        proof {
            assert(pool@ =~= seq_range((g + 1) as nat));
        }
        g = g + 1;
    }
    let mut r: Vec<Vec<usize>> = perms_exec(&pool, 0);
    proof {
        lemma_deep_is_views(&r);
    }
    let mut len: usize = 1;
    while len <= groups_count
        invariant
            groups_count < usize::MAX,
            1 <= len <= groups_count + 1,
            pool@ == seq_range(groups_count as nat),
            views(r@) == orderings_upto(pool@, (len - 1) as nat),
        decreases groups_count + 1 - len,
    {
        let more: Vec<Vec<usize>> = perms_exec(&pool, len);
        proof {
            lemma_deep_is_views(&more);
        }
        let ghost r_before = views(r@);
        let ghost more_view = views(more@);
        let mut j: usize = 0;
        proof {
            assert(r_before + more_view.take(0) =~= r_before);
        }
        while j < more.len()
            invariant
                j <= more@.len(),
                more_view == views(more@),
                views(r@) == r_before + more_view.take(j as int),
            decreases more@.len() - j,
        {
            let one: Vec<usize> = more[j].clone();
            proof {
                assert(one@ =~= more@[j as int]@);
                assert(more_view[j as int] == more@[j as int]@);
            }
            let ghost one_view = one@;
            let ghost prev = r@;
            r.push(one);
            proof {
                assert(more_view.take(j as int).len() == j);
                assert(views(prev).len() == prev.len());
                assert(prev.len() == r_before.len() + j);
                assert(r@.len() == prev.len() + 1);
                let ghost target = r_before + more_view.take(j + 1);
                assert forall|idx: int| 0 <= idx < r@.len() implies views(r@)[idx] == target[idx]
                    by {
                    assert(views(r@)[idx] == r@[idx]@);
                    if idx < prev.len() {
                        assert(r@[idx] == prev[idx]);
                        assert(views(prev)[idx] == prev[idx]@);
                        assert(views(prev)[idx] == (r_before + more_view.take(j as int))[idx]);
                        if idx < r_before.len() {
                            assert(target[idx] == r_before[idx]);
                        } else {
                            assert(target[idx] == more_view.take(j + 1)[idx - r_before.len()]);
                            assert(more_view.take(j + 1)[idx - r_before.len()] == more_view[idx
                                - r_before.len()]);
                            assert((r_before + more_view.take(j as int))[idx] == more_view.take(
                                j as int,
                            )[idx - r_before.len()]);
                        }
                    } else {
                        assert(idx == r_before.len() + j);
                        assert(r@[idx]@ == one_view);
                        assert(one_view == more_view[j as int]);
                        assert(target[idx] == more_view.take(j + 1)[j as int]);
                        assert(more_view.take(j + 1)[j as int] == more_view[j as int]);
                    }
                }
                assert(views(r@).len() == target.len());
                assert(views(r@) =~= target);
            }
            j = j + 1;
        }
        proof {
            assert(more_view.take(more_view.len() as int) =~= more_view);
            assert(views(r@) =~= orderings_upto(pool@, len as nat));
        }
        len = len + 1;
    }
    proof {
        lemma_deep_is_views(&r);
    }
    r
}

/// Sum of k! for k in 1..=input.
pub open spec fn spec_factsum(input: nat) -> nat
    decreases input,
{
    if input == 0 {
        0
    } else {
        spec_factsum((input - 1) as nat) + spec_factorial(input)
    }
}

/// k! as a specification function.
pub open spec fn spec_factorial(k: nat) -> nat
    decreases k,
{
    if k == 0 {
        1
    } else {
        k * spec_factorial((k - 1) as nat)
    }
}

/// Returns the sum of (1!, ..., input!).
pub fn factsum(input: usize) -> (output: usize)
    requires
        spec_factsum(input as nat) <= usize::MAX,
    ensures
        output == spec_factsum(input as nat),
{
    let mut output: usize = 0;
    let mut fact: usize = 1;
    let mut i: usize = 0;
    while i < input
        invariant
            i <= input,
            fact == spec_factorial(i as nat),
            output == spec_factsum(i as nat),
            spec_factsum(input as nat) <= usize::MAX,
        decreases input - i,
    {
        i = i + 1;
        proof {
            lemma_factsum_bounds(i as nat, input as nat);
            assert(spec_factorial(i as nat) == i * spec_factorial((i - 1) as nat));
            assert(fact * i == i * fact) by (nonlinear_arith);
        }
        fact = fact * i;
        output = output + fact;
    }
    output
}

/// Each stage of the factorial sum is bounded by the whole.
proof fn lemma_factsum_bounds(i: nat, n: nat)
    requires
        1 <= i <= n,
    ensures
        spec_factsum((i - 1) as nat) + spec_factorial(i) <= spec_factsum(n),
    decreases n,
{
    if i < n {
        lemma_factsum_bounds(i, (n - 1) as nat);
        assert(spec_factorial(n) >= 0) by {
            lemma_factorial_pos(n);
        }
    }
}

proof fn lemma_factorial_pos(k: nat)
    ensures
        spec_factorial(k) >= 1,
    decreases k,
{
    if k > 0 {
        lemma_factorial_pos((k - 1) as nat);
        assert(k * spec_factorial((k - 1) as nat) >= 1) by (nonlinear_arith)
            requires
                k >= 1,
                spec_factorial((k - 1) as nat) >= 1,
        ;
    }
}

/// Every enumerated arrangement has the requested length and draws its
/// entries from the pool.
pub open spec fn perm_ok(e: Seq<usize>, pool: Seq<usize>, k: nat) -> bool {
    &&& e.len() == k
    &&& forall|t: int| 0 <= t < e.len() ==> pool.contains(#[trigger] e[t])
}

proof fn lemma_remove_contains(pool: Seq<usize>, i: int, x: usize)
    requires
        0 <= i < pool.len(),
        pool.remove(i).contains(x),
    ensures
        pool.contains(x),
{
    pool.remove_ensures(i);
    let t = choose|t: int| 0 <= t < pool.remove(i).len() && pool.remove(i)[t] == x;
    if t < i {
        assert(pool[t] == x);
    } else {
        assert(pool[t + 1] == x);
    }
}

pub proof fn lemma_perms_of_wf(pool: Seq<usize>, k: nat)
    ensures
        forall|m: int|
            0 <= m < perms_of(pool, k).len() ==> perm_ok(#[trigger] perms_of(pool, k)[m], pool, k),
    decreases k, pool.len() + 1,
{
    if k == 0 {
        assert(perms_of(pool, 0)[0] =~= Seq::<usize>::empty());
        assert(perm_ok(perms_of(pool, 0)[0], pool, 0));
    } else {
        lemma_perms_branch_wf(pool, k, 0);
        assert(perms_of(pool, k) == perms_branch(pool, k, 0));
        assert forall|m: int| 0 <= m < perms_of(pool, k).len() implies perm_ok(
            #[trigger] perms_of(pool, k)[m],
            pool,
            k,
        ) by {
            assert(perms_branch(pool, k, 0)[m] == perms_of(pool, k)[m]);
            assert(perm_ok(perms_branch(pool, k, 0)[m], pool, k));
        }
    }
}

proof fn lemma_perms_branch_wf(pool: Seq<usize>, k: nat, i: nat)
    requires
        k >= 1,
    ensures
        forall|m: int|
            0 <= m < perms_branch(pool, k, i).len() ==> perm_ok(
                #[trigger] perms_branch(pool, k, i)[m],
                pool,
                k,
            ),
    decreases k, pool.len() - i,
{
    if i >= pool.len() {
    } else {
        let sub = perms_of(pool.remove(i as int), (k - 1) as nat);
        let pre = prefix_each(pool[i as int], sub);
        lemma_perms_of_wf(pool.remove(i as int), (k - 1) as nat);
        lemma_perms_branch_wf(pool, k, (i + 1) as nat);
        assert forall|m: int| 0 <= m < perms_branch(pool, k, i).len() implies perm_ok(
            #[trigger] perms_branch(pool, k, i)[m],
            pool,
            k,
        ) by {
            if m < pre.len() {
                let e = pre[m];
                assert(e == seq![pool[i as int]] + sub[m]);
                assert(perm_ok(sub[m], pool.remove(i as int), (k - 1) as nat));
                assert forall|t: int| 0 <= t < e.len() implies pool.contains(#[trigger] e[t]) by {
                    if t == 0 {
                        assert(pool[i as int] == e[0]);
                    } else {
                        assert(e[t] == sub[m][t - 1]);
                        assert(pool.remove(i as int).contains(sub[m][t - 1]));
                        lemma_remove_contains(pool, i as int, sub[m][t - 1]);
                    }
                }
                assert(perms_branch(pool, k, i)[m] == e);
            } else {
                assert(perms_branch(pool, k, i)[m] == perms_branch(pool, k, (i + 1) as nat)[m
                    - pre.len()]);
            }
        }
    }
}

/// Length at most `n` and every entry below `n`.
pub open spec fn valid_len_bounded(e: Seq<usize>, n: nat) -> bool {
    &&& e.len() <= n
    &&& forall|t: int| 0 <= t < e.len() ==> #[trigger] e[t] < n
}

/// Length at most `len` and every entry drawn from the pool.
spec fn perm_bounded(e: Seq<usize>, pool: Seq<usize>, len: nat) -> bool {
    &&& e.len() <= len
    &&& forall|t: int| 0 <= t < e.len() ==> pool.contains(#[trigger] e[t])
}

/// Entries of the canonical enumeration are group indices below `n`.
pub proof fn lemma_all_orderings_wf(n: nat)
    ensures
        all_orderings(n).len() >= 1,
        forall|m: int|
            0 <= m < all_orderings(n).len() ==> valid_len_bounded(
                #[trigger] all_orderings(n)[m],
                n,
            ),
{
    lemma_orderings_upto_wf(seq_range(n), n);
    assert(all_orderings(n) == orderings_upto(seq_range(n), n));
    assert forall|m: int| 0 <= m < all_orderings(n).len() implies valid_len_bounded(
        #[trigger] all_orderings(n)[m],
        n,
    ) by {
        assert(perm_bounded(orderings_upto(seq_range(n), n)[m], seq_range(n), n));
        let e = all_orderings(n)[m];
        assert forall|t: int| 0 <= t < e.len() implies #[trigger] e[t] < n by {
            assert(seq_range(n).contains(e[t]));
            let u = choose|u: int| 0 <= u < seq_range(n).len() && seq_range(n)[u] == e[t];
        }
    }
}

proof fn lemma_orderings_upto_wf(pool: Seq<usize>, len: nat)
    ensures
        orderings_upto(pool, len).len() >= 1,
        forall|m: int|
            0 <= m < orderings_upto(pool, len).len() ==> perm_bounded(
                #[trigger] orderings_upto(pool, len)[m],
                pool,
                len,
            ),
    decreases len,
{
    lemma_perms_of_wf(pool, len);
    if len > 0 {
        lemma_orderings_upto_wf(pool, (len - 1) as nat);
        assert forall|m: int| 0 <= m < orderings_upto(pool, len).len() implies perm_bounded(
            #[trigger] orderings_upto(pool, len)[m],
            pool,
            len,
        ) by {
            let shorter = orderings_upto(pool, (len - 1) as nat);
            if m < shorter.len() {
                assert(orderings_upto(pool, len)[m] == shorter[m]);
                assert(perm_bounded(shorter[m], pool, (len - 1) as nat));
            } else {
                assert(orderings_upto(pool, len)[m] == perms_of(pool, len)[m - shorter.len()]);
                assert(perm_ok(perms_of(pool, len)[m - shorter.len()], pool, len));
            }
        }
    } else {
        assert forall|m: int| 0 <= m < orderings_upto(pool, 0).len() implies perm_bounded(
            #[trigger] orderings_upto(pool, 0)[m],
            pool,
            0,
        ) by {
            assert(perm_ok(orderings_upto(pool, 0)[m], pool, 0));
        }
    }
}

/// The label of an ordering: its group names joined in sequence.
pub open spec fn spec_label(ord: Seq<usize>, names: Seq<Seq<char>>) -> Seq<char>
    decreases ord.len(),
{
    if ord.len() == 0 {
        Seq::<char>::empty()
    } else {
        spec_label(ord.drop_last(), names) + names[ord.last() as int]
    }
}

/// Construct all the ordering labels for the given group names, in
/// canonical enumeration order: "None" first, then the concatenated
/// group names of each non-empty ordering.
pub fn group_combos(groups: &[&str]) -> (r: Vec<String>)
    requires
        groups@.len() < usize::MAX,
    ensures
        r@.len() == all_orderings(groups@.len() as nat).len(),
        r@.len() >= 1,
        r@[0]@ == "None"@,
        forall|m: int|
            1 <= m < r@.len() ==> r@[m as int]@ == spec_label(
                all_orderings(groups@.len() as nat)[m],
                Seq::new(groups@.len(), |t: int| groups@[t]@),
            ),
{
    let ghost names = Seq::new(groups@.len(), |t: int| groups@[t]@);
    let tree: Vec<Vec<usize>> = make_combo_tree(groups.len());
    proof {
        lemma_all_orderings_wf(groups@.len() as nat);
        lemma_deep_is_views(&tree);
        assert(views(tree@).len() == tree@.len());
    }
    let mut r: Vec<String> = Vec::new();
    let none_label: &str = "None";
    r.push(none_label.to_owned());
    let mut m: usize = 1;
    while m < tree.len()
        invariant
            1 <= m <= tree@.len(),
            views(tree@) == all_orderings(groups@.len() as nat),
            names == Seq::new(groups@.len(), |t: int| groups@[t]@),
            forall|mm: int|
                0 <= mm < views(tree@).len() ==> valid_len_bounded(
                    #[trigger] views(tree@)[mm],
                    groups@.len() as nat,
                ),
            r@.len() == m,
            r@[0]@ == "None"@,
            forall|mm: int|
                1 <= mm < m ==> r@[mm]@ == spec_label(views(tree@)[mm], names),
        decreases tree@.len() - m,
    {
        let ord: &Vec<usize> = &tree[m];
        proof {
            assert(views(tree@)[m as int] == ord@);
        }
        let mut lab: String = String::new();
        let mut t: usize = 0;
        while t < ord.len()
            invariant
                t <= ord@.len(),
                names == Seq::new(groups@.len(), |tt: int| groups@[tt]@),
                valid_len_bounded(ord@, groups@.len() as nat),
                lab@ == spec_label(ord@.take(t as int), names),
            decreases ord@.len() - t,
        {
            let g: usize = ord[t];
            lab.append(groups[g]);
            proof {
                assert(ord@.take(t + 1).drop_last() =~= ord@.take(t as int));
                assert(ord@.take(t + 1).last() == ord@[t as int]);
            }
            t = t + 1;
        }
        proof {
            assert(ord@.take(ord@.len() as int) =~= ord@);
        }
        r.push(lab);
        m = m + 1;
    }
    r
}


/// How many values `x` in `v..n` do not occur in `e`.
spec fn count_missing_above(e: Seq<usize>, v: nat, n: nat) -> nat
    decreases n - v,
{
    if n <= v {
        0
    } else {
        count_missing_above(e, v, (n - 1) as nat) + if e.contains(((n - 1) as nat) as usize) {
            0nat
        } else {
            1nat
        }
    }
}

proof fn lemma_push_contains(e: Seq<usize>, x: usize, y: usize)
    ensures
        e.push(x).contains(y) <==> e.contains(y) || y == x,
{
    if e.push(x).contains(y) {
        let t = choose|t: int| 0 <= t < e.push(x).len() && e.push(x)[t] == y;
        if t < e.len() {
            assert(e[t] == y);
        }
    }
    if e.contains(y) {
        let t = choose|t: int| 0 <= t < e.len() && e[t] == y;
        assert(e.push(x)[t] == y);
    }
    if y == x {
        assert(e.push(x)[e.len() as int] == x);
    }
}

proof fn lemma_count_missing_split(e: Seq<usize>, v: nat, n: nat)
    requires
        v <= n,
    ensures
        count_missing(e, n) == count_missing(e, v) + count_missing_above(e, v, n),
    decreases n - v,
{
    if n > v {
        lemma_count_missing_split(e, v, (n - 1) as nat);
    }
}

proof fn lemma_count_missing_above_pos(e: Seq<usize>, v: nat, n: nat)
    requires
        v < n,
        v <= usize::MAX,
        !e.contains(v as usize),
    ensures
        count_missing_above(e, v, n) >= 1,
    decreases n - v,
{
    if n == v + 1 {
        assert(count_missing_above(e, v, n) == count_missing_above(e, v, v) + 1);
    } else {
        lemma_count_missing_above_pos(e, v, (n - 1) as nat);
    }
}

proof fn lemma_count_missing_push(e: Seq<usize>, x: usize, v: nat)
    requires
        !e.contains(x),
        v <= usize::MAX,
    ensures
        count_missing(e.push(x), v) + if (x as nat) < v {
            1nat
        } else {
            0nat
        } == count_missing(e, v),
    decreases v,
{
    if v > 0 {
        lemma_count_missing_push(e, x, (v - 1) as nat);
        lemma_push_contains(e, x, ((v - 1) as nat) as usize);
    }
}

proof fn lemma_count_missing_empty(v: nat)
    ensures
        count_missing(Seq::<usize>::empty(), v) == v,
    decreases v,
{
    if v > 0 {
        lemma_count_missing_empty((v - 1) as nat);
        assert(!Seq::<usize>::empty().contains(((v - 1) as nat) as usize));
    }
}

/// With `o` distinct entries below `n` used up, `n - o` values remain.
proof fn lemma_count_missing_total(order: Seq<usize>, n: nat, o: int)
    requires
        valid_ordering(order, n),
        n <= usize::MAX,
        0 <= o <= order.len(),
    ensures
        count_missing(order.take(o), n) == n - o,
    decreases o,
{
    if o == 0 {
        assert(order.take(0) =~= Seq::<usize>::empty());
        lemma_count_missing_empty(n);
    } else {
        lemma_count_missing_total(order, n, o - 1);
        assert(order.take(o) =~= order.take(o - 1).push(order[o - 1]));
        assert(!order.take(o - 1).contains(order[o - 1])) by {
            if order.take(o - 1).contains(order[o - 1]) {
                let t = choose|t: int|
                    0 <= t < order.take(o - 1).len() && (#[trigger] order.take(o - 1)[t])
                        == order[o - 1];
                assert(order[t] == order[o - 1]);
            }
        }
        lemma_count_missing_push(order.take(o - 1), order[o - 1], n);
    }
}

/// The factorial-number-system digit at position `o` is at most `n - o - 1`.
proof fn lemma_digit_bound(order: Seq<usize>, n: nat, o: int)
    requires
        valid_ordering(order, n),
        n <= usize::MAX,
        0 <= o < order.len(),
    ensures
        count_missing(order.take(o), order[o] as nat) <= n - o - 1,
{
    lemma_count_missing_total(order, n, o);
    lemma_count_missing_split(order.take(o), order[o] as nat, n);
    assert(!order.take(o).contains(order[o])) by {
        if order.take(o).contains(order[o]) {
            let t = choose|t: int| 0 <= t < order.take(o).len() && order.take(o)[t] == order[o];
            assert(order[t] == order[o]);
        }
    }
    lemma_count_missing_above_pos(order.take(o), order[o] as nat, n);
}

/// The within-length sum over positions `o..len` adds less than
/// `falling_factorial(n - o, len - o)`.
proof fn lemma_pos_tail_bound(order: Seq<usize>, n: nat, o: int)
    requires
        valid_ordering(order, n),
        n <= usize::MAX,
        0 <= o <= order.len(),
    ensures
        pos_sum_pre(order, n, order.len() as nat) - pos_sum_pre(order, n, o as nat)
            <= falling_factorial((n - o) as nat, (order.len() - o) as nat) - 1,
    decreases order.len() - o,
{
    let len = order.len() as int;
    if o == len {
        assert(falling_factorial((n - o) as nat, 0) == 1);
    } else {
        lemma_pos_tail_bound(order, n, o + 1);
        assert(pos_sum_pre(order, n, (o + 1) as nat) == pos_sum_pre(order, n, o as nat)
            + count_missing(order.take(o), order[o] as nat) * falling_factorial(
            (n - o - 1) as nat,
            (len - o - 1) as nat,
        ));
        let a = count_missing(order.take(o), order[o] as nat);
        let f = falling_factorial((n - o - 1) as nat, (len - o - 1) as nat);
        lemma_digit_bound(order, n, o);
        assert(a * f <= (n - o - 1) * f) by (nonlinear_arith)
            requires
                a <= n - o - 1,
                f >= 0,
        ;
        assert(falling_factorial((n - o) as nat, (len - o) as nat) == (n - o) * falling_factorial(
            (n - o - 1) as nat,
            (len - o - 1) as nat,
        ));
        assert((n - o) * f == (n - o - 1) * f + f) by (nonlinear_arith);
    }
}

/// An ordering's rank lies below the total count of orderings.
pub proof fn lemma_rank_bound(order: Seq<usize>, n: nat)
    requires
        valid_ordering(order, n),
        n <= usize::MAX,
    ensures
        spec_rank(order, n) < skip_shorter(n, n + 1),
{
    let len = order.len() as int;
    lemma_skip_mono(n, n, (len + 1) as nat, (n + 1) as nat);
    if order.len() == 0 || n == 0 {
        assert(skip_shorter(n, 1) == skip_shorter(n, 0) + falling_factorial(n, 0));
        lemma_skip_mono(n, n, 1, (n + 1) as nat);
    } else {
        lemma_pos_tail_bound(order, n, 0);
        assert(pos_sum_pre(order, n, 0) == 0);
        assert(pos_sum_pre(order, n, order.len() as nat) <= falling_factorial(
            n,
            order.len() as nat,
        ) - 1);
        assert(skip_shorter(n, (len + 1) as nat) == skip_shorter(n, order.len() as nat)
            + falling_factorial(n, order.len() as nat));
    }
}

/// With at most 12 groups, every rank fits comfortably in a `usize`.
pub proof fn lemma_rank_bound_12(order: Seq<usize>, n: nat)
    requires
        valid_ordering(order, n),
        n <= 12,
    ensures
        spec_rank(order, n) < skip_shorter(n, n + 1),
        skip_shorter(n, n + 1) <= 0x6000_0000,
{
    lemma_rank_bound(order, n);
    lemma_skip_mono(n, 12, (n + 1) as nat, 13);
    lemma_concrete_bounds();
    assert(skip_shorter(12, 13) == skip_shorter(12, 12) + falling_factorial(12, 12));
}

proof fn lemma_perms_len(pool: Seq<usize>, k: nat)
    ensures
        perms_of(pool, k).len() == falling_factorial(pool.len(), k),
    decreases k, pool.len() + 1,
{
    if k == 0 {
    } else {
        lemma_perms_branch_len(pool, k, 0);
        assert(falling_factorial(pool.len(), k) == pool.len() * falling_factorial(
            (pool.len() - 1) as nat,
            (k - 1) as nat,
        ));
    }
}

proof fn lemma_perms_branch_len(pool: Seq<usize>, k: nat, i: nat)
    requires
        k >= 1,
        i <= pool.len(),
    ensures
        perms_branch(pool, k, i).len() == (pool.len() - i) * falling_factorial(
            (pool.len() - 1) as nat,
            (k - 1) as nat,
        ),
    decreases k, pool.len() - i,
{
    let f = falling_factorial((pool.len() - 1) as nat, (k - 1) as nat);
    if i == pool.len() {
        assert(perms_branch(pool, k, i).len() == 0);
        assert((pool.len() - i) * f == 0) by (nonlinear_arith)
            requires
                pool.len() - i == 0,
        ;
    } else {
        lemma_perms_branch_len(pool, k, (i + 1) as nat);
        lemma_perms_len(pool.remove(i as int), (k - 1) as nat);
        assert(pool.remove(i as int).len() == pool.len() - 1);
        assert(prefix_each(pool[i as int], perms_of(pool.remove(i as int), (k - 1) as nat)).len()
            == f);
        assert((pool.len() - i - 1) * f + f == (pool.len() - i) * f) by (nonlinear_arith);
    }
}

/// The canonical enumeration for `n` groups has exactly
/// `skip_shorter(n, n + 1)` entries: one per possible ordering.
pub proof fn lemma_all_orderings_len(n: nat)
    ensures
        all_orderings(n).len() == skip_shorter(n, n + 1),
{
    lemma_orderings_upto_len(seq_range(n), n);
}

proof fn lemma_orderings_upto_len(pool: Seq<usize>, len: nat)
    ensures
        orderings_upto(pool, len).len() == skip_shorter(pool.len(), len + 1),
    decreases len,
{
    lemma_perms_len(pool, len);
    if len == 0 {
        assert(skip_shorter(pool.len(), 1) == skip_shorter(pool.len(), 0) + falling_factorial(
            pool.len(),
            0,
        ));
    } else {
        lemma_orderings_upto_len(pool, (len - 1) as nat);
    }
}


/// The pool is strictly increasing.
pub open spec fn sorted_strict(pool: Seq<usize>) -> bool {
    forall|i: int, j: int| 0 <= i < j < pool.len() ==> pool[i] < pool[j]
}

/// How many values `x < v` occur in the pool.
spec fn count_present(pool: Seq<usize>, v: nat) -> nat
    decreases v,
{
    if v == 0 {
        0
    } else {
        count_present(pool, (v - 1) as nat) + if pool.contains(((v - 1) as nat) as usize) {
            1nat
        } else {
            0nat
        }
    }
}

/// How many values in `lo..hi` occur in the pool.
spec fn count_present_range(pool: Seq<usize>, lo: nat, hi: nat) -> nat
    decreases hi - lo,
{
    if hi <= lo {
        0
    } else {
        count_present_range(pool, lo, (hi - 1) as nat) + if pool.contains(
            ((hi - 1) as nat) as usize,
        ) {
            1nat
        } else {
            0nat
        }
    }
}

proof fn lemma_count_present_split(pool: Seq<usize>, lo: nat, hi: nat)
    requires
        lo <= hi,
    ensures
        count_present(pool, hi) == count_present(pool, lo) + count_present_range(pool, lo, hi),
    decreases hi - lo,
{
    if hi > lo {
        lemma_count_present_split(pool, lo, (hi - 1) as nat);
    }
}

/// When the pool mirrors the complement of the used values below `n`,
/// present and missing counts agree.
proof fn lemma_count_present_is_missing(pool: Seq<usize>, used: Seq<usize>, n: nat, v: nat)
    requires
        v <= n,
        forall|x: usize| pool.contains(x) <==> (x < n && !used.contains(x)),
    ensures
        count_present(pool, v) == count_missing(used, v),
    decreases v,
{
    if v > 0 {
        lemma_count_present_is_missing(pool, used, n, (v - 1) as nat);
    }
}

proof fn lemma_count_present_none(pool: Seq<usize>, v: nat)
    requires
        forall|x: usize| pool.contains(x) ==> x as nat >= v,
    ensures
        count_present(pool, v) == 0,
    decreases v,
{
    if v > 0 {
        lemma_count_present_none(pool, (v - 1) as nat);
    }
}

proof fn lemma_count_present_range_single(pool: Seq<usize>, lo: nat, hi: nat, y: usize)
    requires
        hi <= usize::MAX as nat + 1,
        lo <= y as nat && (y as nat) < hi,
        pool.contains(y),
        forall|x: usize| pool.contains(x) && lo <= x as nat && (x as nat) < hi ==> x == y,
    ensures
        count_present_range(pool, lo, hi) == 1,
    decreases hi - lo,
{
    if (hi - 1) as nat == y as nat {
        assert(((hi - 1) as nat) as usize == y);
        assert(pool.contains(((hi - 1) as nat) as usize));
        assert forall|x: usize| pool.contains(x) implies !(lo <= x as nat && (x as nat) < (hi
            - 1) as nat) by {
            if lo <= x as nat && (x as nat) < (hi - 1) as nat {
                assert(x == y);
            }
        }
        lemma_cpr_none(pool, lo, (hi - 1) as nat);
    } else {
        let xv = ((hi - 1) as nat) as usize;
        assert(xv as nat == hi - 1);
        assert(!pool.contains(xv)) by {
            if pool.contains(xv) {
                assert(lo <= xv as nat && (xv as nat) < hi);
                assert(xv == y);
            }
        }
        lemma_count_present_range_single(pool, lo, (hi - 1) as nat, y);
    }
}

proof fn lemma_cpr_none(pool: Seq<usize>, lo: nat, hi: nat)
    requires
        hi <= usize::MAX as nat + 1,
        forall|x: usize| pool.contains(x) ==> !(lo <= x as nat && (x as nat) < hi),
    ensures
        count_present_range(pool, lo, hi) == 0,
    decreases hi - lo,
{
    if hi > lo {
        assert((((hi - 1) as nat) as usize) as nat == hi - 1);
        lemma_cpr_none(pool, lo, (hi - 1) as nat);
    }
}

/// In a strictly sorted pool, the values below `pool[t]` are exactly the
/// `t` earlier entries.
proof fn lemma_count_present_at(pool: Seq<usize>, t: int)
    requires
        sorted_strict(pool),
        0 <= t < pool.len(),
    ensures
        count_present(pool, pool[t] as nat) == t,
    decreases t,
{
    if t == 0 {
        assert forall|x: usize| pool.contains(x) implies x as nat >= pool[0] as nat by {
            let u = choose|u: int| 0 <= u < pool.len() && pool[u] == x;
            if u > 0 {
                assert(pool[0] < pool[u]);
            }
        }
        lemma_count_present_none(pool, pool[0] as nat);
    } else {
        lemma_count_present_at(pool, t - 1);
        lemma_count_present_split(pool, pool[t - 1] as nat, pool[t] as nat);
        assert(pool.contains(pool[t - 1]));
        assert forall|x: usize|
            pool.contains(x) && pool[t - 1] as nat <= x as nat && (x as nat) < pool[t] as nat
            implies x == pool[t - 1] by {
            let u = choose|u: int| 0 <= u < pool.len() && pool[u] == x;
            if u < t - 1 {
                assert(pool[u] < pool[t - 1]);
            }
            if u > t - 1 {
                assert(pool[t] <= pool[u] || u < t);
                if u < t {
                } else {
                    assert(pool[t] <= pool[u]) by {
                        if u > t {
                            assert(pool[t] < pool[u]);
                        }
                    }
                }
            }
        }
        lemma_count_present_range_single(
            pool,
            pool[t - 1] as nat,
            pool[t] as nat,
            pool[t - 1],
        );
    }
}

/// In a strictly sorted pool, a value's first index is its only index.
proof fn lemma_index_of_first_sorted(pool: Seq<usize>, t: int)
    requires
        sorted_strict(pool),
        0 <= t < pool.len(),
    ensures
        pool.index_of_first(pool[t]) == Some(t),
{
    pool.index_of_first_ensures(pool[t]);
    assert(pool.contains(pool[t]));
    let f = pool.index_of_first(pool[t]).unwrap();
    assert(pool[f] == pool[t]);
    if f < t {
        assert(pool[f] < pool[t]);
    }
    if f > t {
        assert(pool[t] < pool[f]);
    }
}

/// Removing one entry of a strictly sorted pool keeps it strictly
/// sorted and removes exactly that value.
proof fn lemma_remove_sorted(pool: Seq<usize>, idx: int)
    requires
        sorted_strict(pool),
        0 <= idx < pool.len(),
    ensures
        sorted_strict(pool.remove(idx)),
        forall|x: usize|
            pool.remove(idx).contains(x) <==> (pool.contains(x) && x != pool[idx]),
{
    pool.remove_ensures(idx);
    let p2 = pool.remove(idx);
    assert forall|i: int, j: int| 0 <= i < j < p2.len() implies p2[i] < p2[j] by {
        let i2 = if i < idx {
            i
        } else {
            i + 1
        };
        let j2 = if j < idx {
            j
        } else {
            j + 1
        };
        assert(p2[i] == pool[i2]);
        assert(p2[j] == pool[j2]);
    }
    assert forall|x: usize| p2.contains(x) implies pool.contains(x) && x != pool[idx] by {
        let u = choose|u: int| 0 <= u < p2.len() && p2[u] == x;
        let u2 = if u < idx {
            u
        } else {
            u + 1
        };
        assert(pool[u2] == x);
        if u2 < idx {
            assert(pool[u2] < pool[idx]);
        } else {
            assert(pool[idx] < pool[u2]);
        }
    }
    assert forall|x: usize| pool.contains(x) && x != pool[idx] implies p2.contains(x) by {
        let u = choose|u: int| 0 <= u < pool.len() && pool[u] == x;
        if u < idx {
            assert(p2[u] == x);
        } else {
            assert(u != idx);
            assert(p2[u - 1] == x);
        }
    }
}


/// The rank of an arrangement within the enumeration over its pool: the
/// first element's pool position weighs one block of shorter
/// arrangements, and the rest rank within the reduced pool.
spec fn pool_rank(pool: Seq<usize>, w: Seq<usize>) -> int
    decreases w.len(),
{
    if w.len() == 0 {
        0
    } else {
        match pool.index_of_first(w[0]) {
            None => 0,
            Some(idx) => idx * falling_factorial(
                (pool.len() - 1) as nat,
                (w.len() - 1) as nat,
            ) + pool_rank(pool.remove(idx), w.drop_first()),
        }
    }
}

/// Each arrangement's pool rank is its position in the enumeration.
proof fn lemma_perms_rank(pool: Seq<usize>, k: nat)
    requires
        sorted_strict(pool),
    ensures
        forall|m: int|
            0 <= m < perms_of(pool, k).len() ==> pool_rank(pool, #[trigger] perms_of(pool, k)[m])
                == m,
    decreases k, pool.len() + 1,
{
    if k == 0 {
        assert(perms_of(pool, 0)[0] =~= Seq::<usize>::empty());
    } else {
        lemma_perms_branch_rank(pool, k, 0);
        let f = falling_factorial((pool.len() - 1) as nat, (k - 1) as nat);
        assert(0 * f == 0) by (nonlinear_arith);
        assert forall|m: int| 0 <= m < perms_of(pool, k).len() implies pool_rank(
            pool,
            #[trigger] perms_of(pool, k)[m],
        ) == m by {
            assert(perms_of(pool, k)[m] == perms_branch(pool, k, 0)[m]);
            assert(pool_rank(pool, perms_branch(pool, k, 0)[m]) == 0 * f + m);
        }
    }
}

proof fn lemma_perms_branch_rank(pool: Seq<usize>, k: nat, i: nat)
    requires
        sorted_strict(pool),
        k >= 1,
        i <= pool.len(),
    ensures
        forall|m: int|
            0 <= m < perms_branch(pool, k, i).len() ==> pool_rank(
                pool,
                #[trigger] perms_branch(pool, k, i)[m],
            ) == i * falling_factorial((pool.len() - 1) as nat, (k - 1) as nat) + m,
    decreases k, pool.len() - i,
{
    let f = falling_factorial((pool.len() - 1) as nat, (k - 1) as nat);
    if i == pool.len() {
    } else {
        let shorter = pool.remove(i as int);
        let sub = perms_of(shorter, (k - 1) as nat);
        let pre = prefix_each(pool[i as int], sub);
        lemma_remove_sorted(pool, i as int);
        lemma_perms_len(shorter, (k - 1) as nat);
        assert(shorter.len() == pool.len() - 1);
        assert(sub.len() == f);
        assert(pre.len() == f);
        lemma_perms_rank(shorter, (k - 1) as nat);
        lemma_perms_branch_rank(pool, k, (i + 1) as nat);
        lemma_perms_of_wf(shorter, (k - 1) as nat);
        lemma_index_of_first_sorted(pool, i as int);
        assert forall|m: int| 0 <= m < perms_branch(pool, k, i as nat).len() implies pool_rank(
            pool,
            #[trigger] perms_branch(pool, k, i as nat)[m],
        ) == i * f + m by {
            if m < pre.len() {
                let e = pre[m];
                assert(perms_branch(pool, k, i as nat)[m] == e);
                assert(e == seq![pool[i as int]] + sub[m]);
                assert(perm_ok(sub[m], shorter, (k - 1) as nat));
                assert(e.len() == k);
                assert(e[0] == pool[i as int]);
                assert(e.drop_first() =~= sub[m]);
                assert(pool.index_of_first(e[0]) == Some(i as int));
                assert(pool_rank(pool, e) == i * falling_factorial(
                    (pool.len() - 1) as nat,
                    (e.len() - 1) as nat,
                ) + pool_rank(shorter, sub[m]));
                assert(pool_rank(shorter, sub[m]) == m);
            } else {
                assert(perms_branch(pool, k, i as nat)[m] == perms_branch(
                    pool,
                    k,
                    (i + 1) as nat,
                )[m - pre.len()]);
                assert(pool_rank(pool, perms_branch(pool, k, (i + 1) as nat)[m - f]) == (i + 1)
                    * f + (m - f));
                assert((i + 1) * f == i * f + f) by (nonlinear_arith);
            }
        }
    }
}


/// Enumerated arrangements never repeat a pool element.
proof fn lemma_perms_distinct(pool: Seq<usize>, k: nat)
    requires
        sorted_strict(pool),
    ensures
        forall|m: int|
            0 <= m < perms_of(pool, k).len() ==> no_repeats(#[trigger] perms_of(pool, k)[m]),
    decreases k, pool.len() + 1,
{
    if k == 0 {
        assert(perms_of(pool, 0)[0] =~= Seq::<usize>::empty());
        assert(no_repeats(perms_of(pool, 0)[0]));
    } else {
        lemma_perms_branch_distinct(pool, k, 0);
        assert forall|m: int| 0 <= m < perms_of(pool, k).len() implies no_repeats(
            #[trigger] perms_of(pool, k)[m],
        ) by {
            assert(perms_of(pool, k)[m] == perms_branch(pool, k, 0)[m]);
            assert(no_repeats(perms_branch(pool, k, 0)[m]));
        }
    }
}

/// No element occurs twice.
pub open spec fn no_repeats(e: Seq<usize>) -> bool {
    forall|t1: int, t2: int| 0 <= t1 < t2 < e.len() ==> e[t1] != e[t2]
}

proof fn lemma_perms_branch_distinct(pool: Seq<usize>, k: nat, i: nat)
    requires
        sorted_strict(pool),
        k >= 1,
        i <= pool.len(),
    ensures
        forall|m: int|
            0 <= m < perms_branch(pool, k, i).len() ==> no_repeats(
                #[trigger] perms_branch(pool, k, i)[m],
            ),
    decreases k, pool.len() - i,
{
    if i == pool.len() {
    } else {
        let shorter = pool.remove(i as int);
        let sub = perms_of(shorter, (k - 1) as nat);
        let pre = prefix_each(pool[i as int], sub);
        lemma_remove_sorted(pool, i as int);
        lemma_perms_distinct(shorter, (k - 1) as nat);
        lemma_perms_of_wf(shorter, (k - 1) as nat);
        lemma_perms_branch_distinct(pool, k, (i + 1) as nat);
        assert forall|m: int| 0 <= m < perms_branch(pool, k, i as nat).len() implies no_repeats(
            #[trigger] perms_branch(pool, k, i as nat)[m],
        ) by {
            if m < pre.len() {
                let e = pre[m];
                assert(perms_branch(pool, k, i as nat)[m] == e);
                assert(e == seq![pool[i as int]] + sub[m]);
                assert(perm_ok(sub[m], shorter, (k - 1) as nat));
                assert(no_repeats(sub[m]));
                assert forall|t1: int, t2: int| 0 <= t1 < t2 < e.len() implies e[t1] != e[t2] by {
                    if t1 == 0 {
                        assert(e[t2] == sub[m][t2 - 1]);
                        assert(shorter.contains(sub[m][t2 - 1]));
                        if e[t2] == pool[i as int] {
                            assert(shorter.contains(pool[i as int]));
                            lemma_remove_sorted(pool, i as int);
                        }
                    } else {
                        assert(e[t1] == sub[m][t1 - 1]);
                        assert(e[t2] == sub[m][t2 - 1]);
                    }
                }
            } else {
                assert(perms_branch(pool, k, i as nat)[m] == perms_branch(
                    pool,
                    k,
                    (i + 1) as nat,
                )[m - pre.len()]);
            }
        }
    }
}

/// Over a pool standing for the still-unused group indices, the pool
/// rank of the rest of an ordering is exactly the remaining part of the
/// arithmetic rank formula.
proof fn lemma_pool_rank_pos(w: Seq<usize>, n: nat, o: int, pool: Seq<usize>)
    requires
        valid_ordering(w, n),
        n <= usize::MAX,
        0 <= o <= w.len(),
        sorted_strict(pool),
        pool.len() == n - o,
        forall|x: usize| pool.contains(x) <==> ((x as nat) < n && !w.take(o).contains(x)),
    ensures
        pool_rank(pool, w.skip(o)) == pos_sum_pre(w, n, w.len() as nat) - pos_sum_pre(
            w,
            n,
            o as nat,
        ),
    decreases w.len() - o,
{
    let len = w.len() as int;
    if o == len {
        assert(w.skip(o) =~= Seq::<usize>::empty());
    } else {
        let v = w[o];
        assert(v < n);
        assert(!w.take(o).contains(v)) by {
            if w.take(o).contains(v) {
                let t = choose|t: int|
                    0 <= t < w.take(o).len() && (#[trigger] w.take(o)[t]) == v;
                assert(w[t] == w[o]);
            }
        }
        assert(pool.contains(v));
        pool.index_of_first_ensures(v);
        let t = pool.index_of_first(v).unwrap();
        assert(pool[t] == v);
        lemma_index_of_first_sorted(pool, t);
        lemma_count_present_at(pool, t);
        lemma_count_present_is_missing(pool, w.take(o), n, v as nat);
        assert(t == count_missing(w.take(o), v as nat));
        assert(w.skip(o)[0] == v);
        assert(w.skip(o).drop_first() =~= w.skip(o + 1));
        let pool2 = pool.remove(t);
        lemma_remove_sorted(pool, t);
        assert(w.take(o + 1) =~= w.take(o).push(v));
        assert forall|x: usize| pool2.contains(x) <==> ((x as nat) < n && !w.take(o + 1).contains(
            x,
        )) by {
            assert(pool2.contains(x) <==> (pool.contains(x) && x != pool[t]));
            assert(pool.contains(x) <==> ((x as nat) < n && !w.take(o).contains(x)));
            lemma_push_contains(w.take(o), v, x);
            assert(w.take(o).push(v).contains(x) <==> (w.take(o).contains(x) || x == v));
            assert(w.take(o + 1).contains(x) <==> (w.take(o).contains(x) || x == v));
        }
        lemma_pool_rank_pos(w, n, o + 1, pool2);
        assert(pos_sum_pre(w, n, (o + 1) as nat) == pos_sum_pre(w, n, o as nat) + count_missing(
            w.take(o),
            w[o] as nat,
        ) * falling_factorial((n - o - 1) as nat, (len - o - 1) as nat));
        assert(pool_rank(pool, w.skip(o)) == t * falling_factorial(
            (pool.len() - 1) as nat,
            (w.skip(o).len() - 1) as nat,
        ) + pool_rank(pool2, w.skip(o + 1)));
        assert(pool.len() - 1 == n - o - 1);
        assert(w.skip(o).len() - 1 == len - o - 1);
    }
}

/// The group indices in ascending order form a strictly sorted pool
/// holding exactly the values below `n`.
proof fn lemma_seq_range_pool(n: nat)
    requires
        n <= usize::MAX,
    ensures
        sorted_strict(seq_range(n)),
        forall|x: usize| seq_range(n).contains(x) <==> (x as nat) < n,
{
    assert forall|x: usize| seq_range(n).contains(x) implies (x as nat) < n by {
        let u = choose|u: int| 0 <= u < seq_range(n).len() && seq_range(n)[u] == x;
    }
    assert forall|x: usize| (x as nat) < n implies seq_range(n).contains(x) by {
        assert(seq_range(n)[x as int] == x);
    }
}

/// The defining property of the indexer: the ordering at position `m`
/// of the canonical enumeration has rank exactly `m`.  `enumerate` and
/// `rank` agree on every ordering.
pub proof fn lemma_rank_enumerate(n: nat, m: int)
    requires
        n <= usize::MAX,
        0 <= m < all_orderings(n).len(),
    ensures
        spec_rank(all_orderings(n)[m], n) == m,
{
    lemma_upto_rank(n, n);
}

proof fn lemma_upto_rank(n: nat, len: nat)
    requires
        len <= n,
        n <= usize::MAX,
    ensures
        forall|m: int|
            0 <= m < orderings_upto(seq_range(n), len).len() ==> spec_rank(
                #[trigger] orderings_upto(seq_range(n), len)[m],
                n,
            ) == m,
    decreases len,
{
    let pool0 = seq_range(n);
    lemma_seq_range_pool(n);
    if len == 0 {
        assert(orderings_upto(pool0, 0)[0] =~= Seq::<usize>::empty());
        assert forall|m: int| 0 <= m < orderings_upto(pool0, 0).len() implies spec_rank(
            #[trigger] orderings_upto(pool0, 0)[m],
            n,
        ) == m by {
            assert(orderings_upto(pool0, 0).len() == 1);
            assert(orderings_upto(pool0, 0)[m].len() == 0);
        }
    } else {
        lemma_upto_rank(n, (len - 1) as nat);
        let shorter = orderings_upto(pool0, (len - 1) as nat);
        lemma_orderings_upto_len(pool0, (len - 1) as nat);
        assert(shorter.len() == skip_shorter(n, len));
        lemma_perms_rank(pool0, len);
        lemma_perms_distinct(pool0, len);
        lemma_perms_of_wf(pool0, len);
        assert forall|m: int| 0 <= m < orderings_upto(pool0, len).len() implies spec_rank(
            #[trigger] orderings_upto(pool0, len)[m],
            n,
        ) == m by {
            if m < shorter.len() {
                assert(orderings_upto(pool0, len)[m] == shorter[m]);
                assert(spec_rank(shorter[m], n) == m);
            } else {
                let w = perms_of(pool0, len)[m - shorter.len()];
                assert(orderings_upto(pool0, len)[m] == w);
                assert(perm_ok(w, pool0, len));
                assert(no_repeats(w));
                assert(pool_rank(pool0, w) == m - skip_shorter(n, len));
                assert(valid_ordering(w, n)) by {
                    assert forall|t: int| 0 <= t < w.len() implies w[t] < n by {
                        assert(pool0.contains(w[t]));
                    }
                }
                assert(w.take(0) =~= Seq::<usize>::empty());
                lemma_pool_rank_pos(w, n, 0, pool0);
                assert(w.skip(0) =~= w);
                assert(pos_sum_pre(w, n, 0) == 0);
                assert(pool_rank(pool0, w) == pos_sum_pre(w, n, w.len() as nat));
                assert(w.len() == len);
                assert(spec_rank(w, n) == skip_shorter(n, len) + pos_sum_pre(
                    w,
                    n,
                    w.len() as nat,
                ));
            }
        }
    }
}

} // verus!
