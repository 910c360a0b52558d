//! Per-ballot classification: the fast-path digit parser, the statutory
//! below-the-line formality test, and the reduction of one ballot record to
//! an ordering rank.
//!
//! A ballot record is modelled as the cells of one CSV row, each a byte
//! string.  Cells hold either nothing or a 1-based preference number.

use crate::indexer::{calculate_index, lemma_rank_bound_12, skip_shorter, spec_rank, valid_ordering};
use vstd::arithmetic::div_mod::lemma_fundamental_div_mod;
use vstd::prelude::*;

verus! {

/// The value of the ASCII digits of `s` read left to right in base 10,
/// with every non-digit byte skipped.
pub open spec fn parse_digits(s: Seq<u8>) -> nat {
    parse_digits_acc(s, 0)
}

pub open spec fn parse_digits_acc(s: Seq<u8>, acc: nat) -> nat
    decreases s.len(),
{
    if s.len() == 0 {
        acc
    } else {
        parse_digits_acc(
            s.drop_first(),
            if 48 <= s[0] <= 57 {
                acc * 10 + ((s[0] - 48) as nat)
            } else {
                acc
            },
        )
    }
}

/// The digit value of a cell as the hot loop sees it: exact whenever it
/// fits a `usize`, pinned to `usize::MAX` beyond that.
pub open spec fn cell_value(s: Seq<u8>) -> usize {
    if parse_digits(s) <= usize::MAX {
        parse_digits(s) as usize
    } else {
        usize::MAX
    }
}

/// Parse a byte string as a base-10 ASCII number, skipping any byte that
/// is not an ASCII digit.  A value too large for `usize` comes back as
/// `usize::MAX`.
pub fn parse_u8_b10(input: &[u8]) -> (acc: usize)
    ensures
        acc == cell_value(input@),
{
    let mut acc: usize = 0;
    let ghost mut v: nat = 0nat;
    let mut k: usize = 0;
    proof {
        assert(input@.skip(0) =~= input@);
    }
    while k < input.len()
        invariant
            k <= input@.len(),
            parse_digits(input@) == parse_digits_acc(input@.skip(k as int), v),
            acc == if v <= usize::MAX {
                v as usize
            } else {
                usize::MAX
            },
        decreases input@.len() - k,
    {
        let c: u8 = input[k];
        proof {
            assert(input@.skip(k as int)[0] == input@[k as int]);
            assert(input@.skip(k as int).drop_first() =~= input@.skip(k + 1));
        }
        if c >= 48 && c <= 57 {
            let d: usize = (c - 48) as usize;
            proof {
                lemma_fundamental_div_mod((usize::MAX - d) as int, 10);
            }
            if acc > (usize::MAX - d) / 10 {
                acc = usize::MAX;
            } else {
                acc = acc * 10 + d;
            }
            proof {
                v = v * 10 + d as nat;
            }
        }
        k = k + 1;
    }
    proof {
        assert(input@.skip(input@.len() as int) =~= Seq::<u8>::empty());
    }
    acc
}


/// Order on (preference value, group index) pairs: by value, then group.
pub open spec fn pair_le(a: (usize, usize), b: (usize, usize)) -> bool {
    a.0 < b.0 || (a.0 == b.0 && a.1 <= b.1)
}

/// Index of the least pair, earliest occurrence winning.
pub open spec fn min_index(s: Seq<(usize, usize)>) -> int
    recommends
        s.len() >= 1,
    decreases s.len(),
{
    if s.len() <= 1 {
        0
    } else {
        let m = min_index(s.drop_first()) + 1;
        if pair_le(s[0], s[m]) {
            0
        } else {
            m
        }
    }
}

proof fn lemma_min_index_in_range(s: Seq<(usize, usize)>)
    requires
        s.len() >= 1,
    ensures
        0 <= min_index(s) < s.len(),
    decreases s.len(),
{
    if s.len() > 1 {
        lemma_min_index_in_range(s.drop_first());
    }
}

/// Selection sort: repeatedly take the least remaining pair.
pub open spec fn sel_sort(s: Seq<(usize, usize)>) -> Seq<(usize, usize)>
    decreases s.len(),
{
    if s.len() == 0 {
        s
    } else {
        let m = min_index(s);
        if 0 <= m < s.len() {
            seq![s[m]] + sel_sort(s.remove(m))
        } else {
            s
        }
    }
}

proof fn lemma_sel_sort_len(s: Seq<(usize, usize)>)
    ensures
        sel_sort(s).len() == s.len(),
    decreases s.len(),
{
    if s.len() > 0 {
        lemma_min_index_in_range(s);
        lemma_sel_sort_len(s.remove(min_index(s)));
    }
}

proof fn lemma_sel_sort_contains(s: Seq<(usize, usize)>, x: (usize, usize))
    requires
        sel_sort(s).contains(x),
    ensures
        s.contains(x),
    decreases s.len(),
{
    if s.len() > 0 {
        lemma_min_index_in_range(s);
        let m = min_index(s);
        let t = choose|t: int| 0 <= t < sel_sort(s).len() && sel_sort(s)[t] == x;
        if t == 0 {
            assert(s[m] == x);
        } else {
            assert(sel_sort(s.remove(m))[t - 1] == x);
            lemma_sel_sort_contains(s.remove(m), x);
            s.remove_ensures(m);
            let u = choose|u: int| 0 <= u < s.remove(m).len() && s.remove(m)[u] == x;
            if u < m {
                assert(s[u] == x);
            } else {
                assert(s[u + 1] == x);
            }
        }
    }
}

proof fn lemma_min_index_is_min(s: Seq<(usize, usize)>, t: int)
    requires
        s.len() >= 1,
        0 <= t < s.len(),
    ensures
        pair_le(s[min_index(s)], s[t]),
    decreases s.len(),
{
    lemma_min_index_in_range(s);
    if s.len() > 1 {
        let m = min_index(s.drop_first()) + 1;
        lemma_min_index_in_range(s.drop_first());
        if t == 0 {
            if !pair_le(s[0], s[m]) {
                assert(s.drop_first()[m - 1] == s[m]);
                assert(pair_le(s[m], s[0]));
            }
        } else {
            lemma_min_index_is_min(s.drop_first(), t - 1);
            assert(s.drop_first()[t - 1] == s[t]);
            assert(s.drop_first()[min_index(s.drop_first())] == s[m]);
            if pair_le(s[0], s[m]) {
                assert(pair_le(s[m], s[t]));
            }
        }
    }
}

/// Selection sort leaves the pairs in ascending order: the sorted pairs
/// are what the statute's "sort ascending by preference value" asks for.
pub proof fn lemma_sel_sort_sorted(s: Seq<(usize, usize)>)
    ensures
        forall|i: int, j: int|
            0 <= i < j < sel_sort(s).len() ==> pair_le(
                #[trigger] sel_sort(s)[i],
                #[trigger] sel_sort(s)[j],
            ),
    decreases s.len(),
{
    if s.len() > 0 {
        lemma_min_index_in_range(s);
        let m = min_index(s);
        let rest = s.remove(m);
        lemma_sel_sort_sorted(rest);
        lemma_sel_sort_len(rest);
        assert forall|i: int, j: int| 0 <= i < j < sel_sort(s).len() implies pair_le(
            #[trigger] sel_sort(s)[i],
            #[trigger] sel_sort(s)[j],
        ) by {
            if i == 0 {
                assert(sel_sort(s)[0] == s[m]);
                assert(sel_sort(s)[j] == sel_sort(rest)[j - 1]);
                assert(sel_sort(rest).contains(sel_sort(rest)[j - 1]));
                lemma_sel_sort_contains(rest, sel_sort(rest)[j - 1]);
                let u = choose|u: int|
                    0 <= u < rest.len() && (#[trigger] rest[u]) == sel_sort(rest)[j - 1];
                s.remove_ensures(m);
                let u2 = if u < m {
                    u
                } else {
                    u + 1
                };
                assert(s[u2] == rest[u]) by {
                    s.remove_ensures(m);
                }
                lemma_min_index_is_min(s, u2);
            } else {
                assert(sel_sort(s)[i] == sel_sort(rest)[i - 1]);
                assert(sel_sort(s)[j] == sel_sort(rest)[j - 1]);
            }
        }
    }
}

/// Group indices occur at most once among the pairs.
pub open spec fn distinct_groups(s: Seq<(usize, usize)>) -> bool {
    forall|i: int, j: int| 0 <= i < j < s.len() ==> (#[trigger] s[i]).1 != (#[trigger] s[j]).1
}

proof fn lemma_remove_distinct_groups(s: Seq<(usize, usize)>, m: int)
    requires
        distinct_groups(s),
        0 <= m < s.len(),
    ensures
        distinct_groups(s.remove(m)),
        forall|x: (usize, usize)| s.remove(m).contains(x) ==> s.contains(x) && x.1 != s[m].1,
{
    s.remove_ensures(m);
    assert forall|x: (usize, usize)| s.remove(m).contains(x) implies s.contains(x) && x.1
        != s[m].1 by {
        let u = choose|u: int| 0 <= u < s.remove(m).len() && s.remove(m)[u] == x;
        if u < m {
            assert(s[u] == x);
        } else {
            assert(s[u + 1] == x);
        }
    }
    assert forall|i: int, j: int| 0 <= i < j < s.remove(m).len() implies (#[trigger] s.remove(
        m,
    )[i]).1 != (#[trigger] s.remove(m)[j]).1 by {
        let i2 = if i < m {
            i
        } else {
            i + 1
        };
        let j2 = if j < m {
            j
        } else {
            j + 1
        };
        assert(s.remove(m)[i] == s[i2]);
        assert(s.remove(m)[j] == s[j2]);
    }
}

proof fn lemma_sel_sort_distinct(s: Seq<(usize, usize)>)
    requires
        distinct_groups(s),
    ensures
        distinct_groups(sel_sort(s)),
        forall|i: int, j: int|
            0 <= i < j < sel_sort(s).len() ==> (#[trigger] sel_sort(s)[i]).1
                != (#[trigger] sel_sort(s)[j]).1,
    decreases s.len(),
{
    if s.len() > 0 {
        lemma_min_index_in_range(s);
        let m = min_index(s);
        lemma_remove_distinct_groups(s, m);
        lemma_sel_sort_distinct(s.remove(m));
        assert forall|i: int, j: int| 0 <= i < j < sel_sort(s).len() implies (
        #[trigger] sel_sort(s)[i]).1 != (#[trigger] sel_sort(s)[j]).1 by {
            if i == 0 {
                assert(sel_sort(s)[0] == s[m]);
                assert(sel_sort(s)[j] == sel_sort(s.remove(m))[j - 1]);
                assert(sel_sort(s.remove(m)).contains(sel_sort(s.remove(m))[j - 1]));
                lemma_sel_sort_contains(s.remove(m), sel_sort(s.remove(m))[j - 1]);
            } else {
                assert(sel_sort(s)[i] == sel_sort(s.remove(m))[i - 1]);
                assert(sel_sort(s)[j] == sel_sort(s.remove(m))[j - 1]);
            }
        }
    }
}

/// The group indices of the pairs, in sorted pair order: the ordering that
/// one ballot reduces to.
pub open spec fn pairs_to_order(s: Seq<(usize, usize)>) -> Seq<usize> {
    sel_sort(s).map_values(|p: (usize, usize)| p.1)
}

/// Sort pairs of (preference value, group index) ascending.
fn sel_sort_exec(v: Vec<(usize, usize)>) -> (r: Vec<(usize, usize)>)
    ensures
        r@ == sel_sort(v@),
    decreases v@.len(),
{
    let mut v = v;
    let ghost orig = v@;
    let mut out: Vec<(usize, usize)> = Vec::new();
    proof {
        assert(out@ + sel_sort(v@) =~= sel_sort(orig));
    }
    while v.len() > 0
        invariant
            out@ + sel_sort(v@) == sel_sort(orig),
        decreases v@.len(),
    {
        proof {
            lemma_min_index_in_range(v@);
        }
        let mut m: usize = v.len() - 1;
        let mut i: usize = v.len() - 1;
        proof {
            assert(v@.skip(i as int).len() == 1);
            assert(min_index(v@.skip(i as int)) == 0);
            assert(v@.skip(i as int)[0] == v@[i as int]);
        }
        while i > 0
            invariant
                v@.len() >= 1,
                0 <= i < v@.len(),
                i <= m < v@.len(),
                m == i + min_index(v@.skip(i as int)),
            decreases i,
        {
            i = i - 1;
            proof {
                assert(v@.skip(i as int).drop_first() =~= v@.skip(i + 1));
                assert(v@.skip(i as int)[0] == v@[i as int]);
                lemma_min_index_in_range(v@.skip(i + 1));
                assert(v@.skip(i + 1)[min_index(v@.skip(i + 1))] == v@[i + 1 + min_index(
                    v@.skip(i + 1),
                )]);
            }
            let vi = v[i];
            let vm = v[m];
            if vi.0 < vm.0 || (vi.0 == vm.0 && vi.1 <= vm.1) {
                m = i;
            }
        }
        proof {
            assert(v@.skip(0) =~= v@);
            assert(m == min_index(v@));
        }
        let ghost v_before = v@;
        let ghost out_before = out@;
        let least: (usize, usize) = v.remove(m);
        out.push(least);
        proof {
            assert(sel_sort(v_before) == seq![v_before[m as int]] + sel_sort(v_before.remove(
                m as int,
            )));
            assert(out@ + sel_sort(v@) =~= sel_sort(orig));
        }
    }
    proof {
        assert(out@ + sel_sort(v@) =~= out@);
    }
    out
}


/// How many cells in `record[start..end]` hold the preference number `v`.
pub open spec fn count_pref(record: Seq<Seq<u8>>, start: int, end: int, v: nat) -> nat
    decreases end - start,
{
    if end <= start {
        0
    } else {
        count_pref(record, start, end - 1, v) + if 0 <= end - 1 < record.len() && parse_digits(
            record[end - 1],
        ) == v {
            1nat
        } else {
            0nat
        }
    }
}

/// The statutory below-the-line formality test: each of the preferences
/// 1 through 6 occurs exactly once among the below-the-line cells.
pub open spec fn btl_formal(record: Seq<Seq<u8>>, below_start: int) -> bool {
    forall|v: nat| 1 <= v <= 6 ==> count_pref(record, below_start, record.len() as int, v) == 1
}

/// The least preference value among the non-empty below-the-line cells of
/// group `g` with column index below `i`; `usize::MAX` when there is none.
pub open spec fn group_min_upto(
    record: Seq<Seq<u8>>,
    bg: Seq<usize>,
    g: usize,
    below_start: int,
    i: int,
) -> usize
    decreases i - below_start,
{
    if i <= below_start {
        usize::MAX
    } else {
        let rest = group_min_upto(record, bg, g, below_start, i - 1);
        if 0 <= i - 1 < record.len() && i - 1 < bg.len() && record[i - 1].len() > 0 && bg[i - 1]
            == g && cell_value(record[i - 1]) < rest {
            cell_value(record[i - 1])
        } else {
            rest
        }
    }
}

/// The (least preference, group) pairs of the groups `0..g_hi` that got a
/// below-the-line preference, in group order.
pub open spec fn btl_pairs(
    record: Seq<Seq<u8>>,
    bg: Seq<usize>,
    below_start: int,
    g_hi: int,
) -> Seq<(usize, usize)>
    decreases g_hi,
{
    if g_hi <= 0 {
        Seq::<(usize, usize)>::empty()
    } else {
        let m = group_min_upto(record, bg, (g_hi - 1) as usize, below_start, record.len() as int);
        btl_pairs(record, bg, below_start, g_hi - 1) + if m < usize::MAX {
            seq![(m, (g_hi - 1) as usize)]
        } else {
            Seq::<(usize, usize)>::empty()
        }
    }
}

/// What `handle_below` returns: the rank of the ballot's below-the-line
/// ordering when the ballot is BTL-formal, and nothing otherwise.
pub open spec fn spec_handle_below(
    record: Seq<Seq<u8>>,
    below_start: int,
    bg: Seq<usize>,
    n: nat,
) -> Option<usize> {
    if record.len() > below_start && btl_formal(record, below_start) {
        Some(spec_rank(pairs_to_order(btl_pairs(record, bg, below_start, n as int)), n) as usize)
    } else {
        None
    }
}

proof fn lemma_btl_pairs_wf(record: Seq<Seq<u8>>, bg: Seq<usize>, below_start: int, g_hi: int)
    requires
        0 <= g_hi <= usize::MAX,
    ensures
        btl_pairs(record, bg, below_start, g_hi).len() <= g_hi,
        forall|t: int|
            0 <= t < btl_pairs(record, bg, below_start, g_hi).len() ==> (#[trigger] btl_pairs(
                record,
                bg,
                below_start,
                g_hi,
            )[t]).1 < g_hi,
        distinct_groups(btl_pairs(record, bg, below_start, g_hi)),
        forall|t1: int, t2: int|
            0 <= t1 < t2 < btl_pairs(record, bg, below_start, g_hi).len() ==> (#[trigger] btl_pairs(
                record,
                bg,
                below_start,
                g_hi,
            )[t1]).1 < (#[trigger] btl_pairs(record, bg, below_start, g_hi)[t2]).1,
    decreases g_hi,
{
    if g_hi > 0 {
        lemma_btl_pairs_wf(record, bg, below_start, g_hi - 1);
        let p = btl_pairs(record, bg, below_start, g_hi);
        let q = btl_pairs(record, bg, below_start, g_hi - 1);
        assert forall|t1: int, t2: int| 0 <= t1 < t2 < p.len() implies (#[trigger] p[t1]).1 < (
        #[trigger] p[t2]).1 by {
            if t2 < q.len() {
                assert(p[t1] == q[t1]);
                assert(p[t2] == q[t2]);
            } else {
                let m = group_min_upto(
                    record,
                    bg,
                    (g_hi - 1) as usize,
                    below_start,
                    record.len() as int,
                );
                assert(m < usize::MAX);
                assert(p[t2] == (m, (g_hi - 1) as usize));
                assert(p[t1] == q[t1]);
            }
        }
        assert forall|t1: int, t2: int| 0 <= t1 < t2 < p.len() implies (#[trigger] p[t1]).1 != (
        #[trigger] p[t2]).1 by {
            assert(p[t1].1 < p[t2].1);
        }
    }
}

/// Rank the ordering that a set of (preference, group) pairs sorts into.
fn rank_from_pairs(pairs: Vec<(usize, usize)>, groups_count: usize) -> (idx: usize)
    requires
        groups_count <= 12,
        pairs@.len() <= groups_count,
        distinct_groups(pairs@),
        forall|t: int| 0 <= t < pairs@.len() ==> (#[trigger] pairs@[t]).1 < groups_count,
    ensures
        idx == spec_rank(pairs_to_order(pairs@), groups_count as nat),
{
    let ghost pairs_view = pairs@;
    let sorted: Vec<(usize, usize)> = sel_sort_exec(pairs);
    proof {
        lemma_sel_sort_len(pairs_view);
        lemma_sel_sort_distinct(pairs_view);
        assert forall|t: int| 0 <= t < sorted@.len() implies (#[trigger] sorted@[t]).1
            < groups_count by {
            assert(sorted@.contains(sorted@[t]));
            lemma_sel_sort_contains(pairs_view, sorted@[t]);
        }
    }
    let mut order: Vec<usize> = Vec::new();
    let mut j: usize = 0;
    proof {
        assert(order@ =~= pairs_to_order(pairs_view).take(0));
    }
    while j < sorted.len()
        invariant
            j <= sorted@.len(),
            sorted@ == sel_sort(pairs_view),
            order@ == pairs_to_order(pairs_view).take(j as int),
        decreases sorted@.len() - j,
    {
        let p: (usize, usize) = sorted[j];
        order.push(p.1);
        proof {
            assert(pairs_to_order(pairs_view)[j as int] == sorted@[j as int].1);
            assert(order@ =~= pairs_to_order(pairs_view).take(j + 1));
        }
        j = j + 1;
    }
    proof {
        assert(pairs_to_order(pairs_view).take(sel_sort(pairs_view).len() as int)
            =~= pairs_to_order(pairs_view));
        assert forall|t: int| 0 <= t < order@.len() implies order@[t] < groups_count by {
            assert(order@[t] == sel_sort(pairs_view)[t].1);
        }
        assert forall|t1: int, t2: int| 0 <= t1 < t2 < order@.len() implies order@[t1]
            != order@[t2] by {
            assert(order@[t1] == sel_sort(pairs_view)[t1].1);
            assert(order@[t2] == sel_sort(pairs_view)[t2].1);
        }
        assert(valid_ordering(order@, groups_count as nat));
    }
    calculate_index(order.as_slice(), groups_count)
}

/// Determine whether a ballot record is below-the-line formal, and if so
/// reduce it to its ordering's rank.
///
/// `below_groups` maps each column index to the group of that column's
/// BTL candidate, with `usize::MAX` marking columns that belong to no
/// configured group.
pub fn handle_below(
    record: &Vec<Vec<u8>>,
    below_start: usize,
    below_groups: &Vec<usize>,
    groups_count: usize,
) -> (r: Option<usize>)
    requires
        groups_count <= 12,
        record@.len() <= below_groups@.len(),
        forall|t: int|
            0 <= t < below_groups@.len() ==> #[trigger] below_groups@[t] == usize::MAX
                || below_groups@[t] < groups_count,
    ensures
        r == spec_handle_below(
            record.deep_view(),
            below_start as int,
            below_groups@,
            groups_count as nat,
        ),
{
    let ghost rec = record.deep_view();
    proof {
        assert(rec.len() == record@.len());
        assert(forall|t: int| 0 <= t < rec.len() ==> rec[t] == #[trigger] record@[t]@);
    }
    if record.len() <= below_start {
        return None;
    }
    let mut counts: [usize; 6] = [0, 0, 0, 0, 0, 0];
    let mut order: Vec<usize> = Vec::new();
    let mut g: usize = 0;
    while g < groups_count
        invariant
            g <= groups_count,
            order@.len() == g,
            forall|t: int| 0 <= t < g ==> order@[t] == usize::MAX,
        decreases groups_count - g,
    {
        order.push(usize::MAX);
        g = g + 1;
    }
    let mut i: usize = below_start;
    while i < record.len()
        invariant
            rec == record.deep_view(),
            rec.len() == record@.len(),
            forall|t: int| 0 <= t < rec.len() ==> rec[t] == #[trigger] record@[t]@,
            below_start <= i <= record@.len(),
            record@.len() <= below_groups@.len(),
            forall|t: int|
                0 <= t < below_groups@.len() ==> #[trigger] below_groups@[t] == usize::MAX
                    || below_groups@[t] < groups_count,
            order@.len() == groups_count,
            forall|gg: usize|
                gg < groups_count ==> #[trigger] order@[gg as int] == group_min_upto(
                    rec,
                    below_groups@,
                    gg,
                    below_start as int,
                    i as int,
                ),
            forall|v: nat|
                1 <= v <= 6 ==> #[trigger] count_pref(rec, below_start as int, i as int, v)
                    == counts@[v - 1],
            forall|v: int| 0 <= v < 6 ==> #[trigger] counts@[v] <= i,
        decreases record@.len() - i,
    {
        let cell: &Vec<u8> = &record[i];
        proof {
            assert(rec[i as int] == record@[i as int]@);
            assert(cell@ == rec[i as int]);
        }
        if cell.len() > 0 {
            let v: usize = parse_u8_b10(cell.as_slice());
            proof {
                assert(v == cell_value(rec[i as int]));
            }
            let ghost counts_before = counts@;
            if v >= 1 && v <= 6 {
                counts[v - 1] = counts[v - 1] + 1;
            }
            proof {
                assert forall|vv: nat| 1 <= vv <= 6 implies #[trigger] count_pref(
                    rec,
                    below_start as int,
                    i + 1,
                    vv,
                ) == counts@[vv - 1] by {
                    assert(count_pref(rec, below_start as int, i + 1, vv) == count_pref(
                        rec,
                        below_start as int,
                        i as int,
                        vv,
                    ) + if parse_digits(rec[i as int]) == vv {
                        1nat
                    } else {
                        0nat
                    });
                    if parse_digits(rec[i as int]) <= usize::MAX {
                        assert(v == parse_digits(rec[i as int]));
                    } else {
                        assert(v == usize::MAX);
                        assert(usize::MAX > 6);
                        assert(parse_digits(rec[i as int]) > 6);
                    }
                }
            }
            let ghost order_before = order@;
            let gi: usize = below_groups[i];
            if gi < usize::MAX {
                let cur: usize = order[gi];
                if v < cur {
                    order.set(gi, v);
                }
            }
            proof {
                assert forall|gg: usize| gg < groups_count implies #[trigger] order@[gg as int]
                    == group_min_upto(
                    rec,
                    below_groups@,
                    gg,
                    below_start as int,
                    i + 1,
                ) by {
                    assert(order_before[gg as int] == group_min_upto(
                        rec,
                        below_groups@,
                        gg,
                        below_start as int,
                        i as int,
                    ));
                }
            }
        } else {
            proof {
                assert(rec[i as int].len() == 0);
                assert forall|vv: nat| 1 <= vv <= 6 implies #[trigger] count_pref(
                    rec,
                    below_start as int,
                    i + 1,
                    vv,
                ) == counts@[vv - 1] by {
                    assert(parse_digits(rec[i as int]) == 0);
                    assert(count_pref(rec, below_start as int, i as int, vv) == counts@[vv - 1]);
                    assert(count_pref(rec, below_start as int, i + 1, vv) == count_pref(
                        rec,
                        below_start as int,
                        i as int,
                        vv,
                    ) + if 0 <= i < rec.len() && parse_digits(rec[i as int]) == vv {
                        1nat
                    } else {
                        0nat
                    });
                }
                assert forall|gg: usize| gg < groups_count implies #[trigger] order@[gg as int]
                    == group_min_upto(
                    rec,
                    below_groups@,
                    gg,
                    below_start as int,
                    i + 1,
                ) by {}
            }
        }
        i = i + 1;
    }
    let formal: bool = counts[0] == 1 && counts[1] == 1 && counts[2] == 1 && counts[3] == 1
        && counts[4] == 1 && counts[5] == 1;
    if !formal {
        proof {
            assert(!btl_formal(rec, below_start as int)) by {
                if btl_formal(rec, below_start as int) {
                    assert(count_pref(rec, below_start as int, rec.len() as int, 1) == 1);
                    assert(count_pref(rec, below_start as int, rec.len() as int, 2) == 1);
                    assert(count_pref(rec, below_start as int, rec.len() as int, 3) == 1);
                    assert(count_pref(rec, below_start as int, rec.len() as int, 4) == 1);
                    assert(count_pref(rec, below_start as int, rec.len() as int, 5) == 1);
                    assert(count_pref(rec, below_start as int, rec.len() as int, 6) == 1);
                }
            }
        }
        return None;
    }
    proof {
        assert forall|v: nat| 1 <= v <= 6 implies count_pref(
            rec,
            below_start as int,
            rec.len() as int,
            v,
        ) == 1 by {
            assert(count_pref(rec, below_start as int, rec.len() as int, v) == counts@[v - 1]);
            if v == 1 {
            } else if v == 2 {
            } else if v == 3 {
            } else if v == 4 {
            } else if v == 5 {
            } else {
                assert(v == 6);
            }
        }
        assert(btl_formal(rec, below_start as int));
    }
    let mut pairs: Vec<(usize, usize)> = Vec::new();
    let mut g2: usize = 0;
    proof {
        assert(pairs@ =~= btl_pairs(rec, below_groups@, below_start as int, 0));
    }
    while g2 < groups_count
        invariant
            g2 <= groups_count,
            rec == record.deep_view(),
            order@.len() == groups_count,
            forall|gg: usize|
                gg < groups_count ==> #[trigger] order@[gg as int] == group_min_upto(
                    rec,
                    below_groups@,
                    gg,
                    below_start as int,
                    rec.len() as int,
                ),
            pairs@ == btl_pairs(rec, below_groups@, below_start as int, g2 as int),
        decreases groups_count - g2,
    {
        let m: usize = order[g2];
        if m < usize::MAX {
            pairs.push((m, g2));
            proof {
                assert(pairs@ =~= btl_pairs(rec, below_groups@, below_start as int, g2 + 1));
            }
        } else {
            proof {
                assert(pairs@ =~= btl_pairs(rec, below_groups@, below_start as int, g2 + 1));
            }
        }
        g2 = g2 + 1;
    }
    proof {
        lemma_btl_pairs_wf(rec, below_groups@, below_start as int, groups_count as int);
    }
    let idx: usize = rank_from_pairs(pairs, groups_count);
    Some(idx)
}


/// The least preference among the first `j` configured candidates of one
/// group's above-the-line columns, starting from the sentinel
/// `cands_count`; values at or above the sentinel never count.
pub open spec fn atl_min_upto(
    record: Seq<Seq<u8>>,
    cands: Seq<usize>,
    above_start: int,
    cands_count: usize,
    j: int,
) -> usize
    decreases j,
{
    if j <= 0 {
        cands_count
    } else {
        let rest = atl_min_upto(record, cands, above_start, cands_count, j - 1);
        let col = cands[j - 1] + above_start - 1;
        if 0 <= j - 1 < cands.len() && 0 <= col < record.len() && record[col].len() > 0
            && cell_value(record[col]) < rest {
            cell_value(record[col])
        } else {
            rest
        }
    }
}

/// The (least preference, group) pairs of the groups `0..g_hi` whose
/// above-the-line columns hold a preference, in group order.
pub open spec fn atl_pairs(
    record: Seq<Seq<u8>>,
    groups: Seq<Seq<usize>>,
    above_start: int,
    cands_count: usize,
    g_hi: int,
) -> Seq<(usize, usize)>
    decreases g_hi,
{
    if g_hi <= 0 {
        Seq::<(usize, usize)>::empty()
    } else {
        let m = atl_min_upto(
            record,
            groups[g_hi - 1],
            above_start,
            cands_count,
            groups[g_hi - 1].len() as int,
        );
        atl_pairs(record, groups, above_start, cands_count, g_hi - 1) + if m < cands_count {
            seq![(m, (g_hi - 1) as usize)]
        } else {
            Seq::<(usize, usize)>::empty()
        }
    }
}

/// What `distribute_preference` returns: the rank of the ordering that the
/// ballot's above-the-line preferences sort into.
pub open spec fn spec_distribute(
    record: Seq<Seq<u8>>,
    groups: Seq<Seq<usize>>,
    above_start: int,
    cands_count: usize,
) -> nat {
    spec_rank(
        pairs_to_order(atl_pairs(record, groups, above_start, cands_count, groups.len() as int)),
        groups.len() as nat,
    )
}

proof fn lemma_atl_pairs_wf(
    record: Seq<Seq<u8>>,
    groups: Seq<Seq<usize>>,
    above_start: int,
    cands_count: usize,
    g_hi: int,
)
    requires
        0 <= g_hi <= usize::MAX,
    ensures
        atl_pairs(record, groups, above_start, cands_count, g_hi).len() <= g_hi,
        forall|t: int|
            0 <= t < atl_pairs(record, groups, above_start, cands_count, g_hi).len() ==> (
            #[trigger] atl_pairs(record, groups, above_start, cands_count, g_hi)[t]).1 < g_hi,
        distinct_groups(atl_pairs(record, groups, above_start, cands_count, g_hi)),
    decreases g_hi,
{
    if g_hi > 0 {
        lemma_atl_pairs_wf(record, groups, above_start, cands_count, g_hi - 1);
        let p = atl_pairs(record, groups, above_start, cands_count, g_hi);
        let q = atl_pairs(record, groups, above_start, cands_count, g_hi - 1);
        assert forall|t1: int, t2: int| 0 <= t1 < t2 < p.len() implies (#[trigger] p[t1]).1 != (
        #[trigger] p[t2]).1 by {
            if t2 < q.len() {
                assert(p[t1] == q[t1]);
                assert(p[t2] == q[t2]);
            } else {
                let m = atl_min_upto(
                    record,
                    groups[g_hi - 1],
                    above_start,
                    cands_count,
                    groups[g_hi - 1].len() as int,
                );
                assert(m < cands_count);
                assert(p[t2] == (m, (g_hi - 1) as usize));
                assert(p[t1] == q[t1]);
            }
        }
    }
}

/// Reduce one ballot to an ordering of the configured groups by their
/// best above-the-line preference, and rank that ordering.
///
/// `groups[g]` lists the 1-based above-the-line column numbers of group
/// `g`, relative to `above_start`.
pub fn distribute_preference(
    record: &Vec<Vec<u8>>,
    groups: &Vec<Vec<usize>>,
    above_start: usize,
    cands_count: usize,
) -> (idx: usize)
    requires
        groups@.len() <= 12,
        forall|g: int, j: int|
            0 <= g < groups@.len() && 0 <= j < groups@[g]@.len() ==> 1 <= #[trigger] groups@[g]@[j]
                && groups@[g]@[j] + above_start <= usize::MAX,
    ensures
        idx == spec_distribute(
            record.deep_view(),
            groups.deep_view(),
            above_start as int,
            cands_count,
        ),
{
    let ghost rec = record.deep_view();
    let ghost grp = groups.deep_view();
    proof {
        assert(rec.len() == record@.len());
        assert(forall|t: int| 0 <= t < rec.len() ==> rec[t] == #[trigger] record@[t]@);
        assert(grp.len() == groups@.len());
        assert(forall|t: int| 0 <= t < grp.len() ==> grp[t] =~= #[trigger] groups@[t]@);
    }
    let mut pairs: Vec<(usize, usize)> = Vec::new();
    let mut g: usize = 0;
    proof {
        assert(pairs@ =~= atl_pairs(rec, grp, above_start as int, cands_count, 0));
    }
    while g < groups.len()
        invariant
            g <= groups@.len(),
            groups@.len() <= 12,
            rec == record.deep_view(),
            grp == groups.deep_view(),
            rec.len() == record@.len(),
            forall|t: int| 0 <= t < rec.len() ==> rec[t] == #[trigger] record@[t]@,
            grp.len() == groups@.len(),
            forall|t: int| 0 <= t < grp.len() ==> grp[t] == #[trigger] groups@[t]@,
            forall|gg: int, j: int|
                0 <= gg < groups@.len() && 0 <= j < groups@[gg]@.len() ==> 1 <= #[trigger] groups@[gg]@[j]
                    && groups@[gg]@[j] + above_start <= usize::MAX,
            pairs@ == atl_pairs(rec, grp, above_start as int, cands_count, g as int),
        decreases groups@.len() - g,
    {
        let cands: &Vec<usize> = &groups[g];
        let mut cur_best: usize = cands_count;
        let mut j: usize = 0;
        while j < cands.len()
            invariant
                j <= cands@.len(),
                cands@ == groups@[g as int]@,
                g < groups@.len(),
                rec == record.deep_view(),
                grp == groups.deep_view(),
                rec.len() == record@.len(),
                forall|t: int| 0 <= t < rec.len() ==> rec[t] == #[trigger] record@[t]@,
                grp[g as int] == cands@,
                forall|jj: int|
                    0 <= jj < cands@.len() ==> 1 <= #[trigger] cands@[jj] && cands@[jj]
                        + above_start <= usize::MAX,
                cur_best == atl_min_upto(rec, grp[g as int], above_start as int, cands_count,
                j as int),
            decreases cands@.len() - j,
        {
            let c: usize = cands[j];
            let col: usize = c - 1 + above_start;
            if col < record.len() {
                let cell: &Vec<u8> = &record[col];
                if cell.len() > 0 {
                    let bal: usize = parse_u8_b10(cell.as_slice());
                    proof {
                        assert(cell@ == rec[col as int]);
                    }
                    if bal < cur_best {
                        cur_best = bal;
                    }
                }
            }
            proof {
                assert(grp[g as int][j as int] + above_start as int - 1 == col as int);
            }
            j = j + 1;
        }
        proof {
            assert(cands@.len() == grp[g as int].len());
        }
        if cur_best < cands_count {
            pairs.push((cur_best, g));
            proof {
                assert(pairs@ =~= atl_pairs(rec, grp, above_start as int, cands_count, g + 1));
            }
        } else {
            proof {
                assert(pairs@ =~= atl_pairs(rec, grp, above_start as int, cands_count, g + 1));
            }
        }
        g = g + 1;
    }
    proof {
        lemma_atl_pairs_wf(rec, grp, above_start as int, cands_count, grp.len() as int);
    }
    rank_from_pairs(pairs, groups.len())
}


/// A formal ballot's rank lies inside the enumeration for its group count.
pub proof fn lemma_handle_below_in_range(
    record: Seq<Seq<u8>>,
    below_start: int,
    bg: Seq<usize>,
    n: nat,
)
    requires
        n <= 12,
    ensures
        spec_handle_below(record, below_start, bg, n) matches Some(i) ==> i < skip_shorter(
            n,
            n + 1,
        ),
        skip_shorter(n, n + 1) <= 0x6000_0000,
{
    let pairs = btl_pairs(record, bg, below_start, n as int);
    lemma_btl_pairs_wf(record, bg, below_start, n as int);
    lemma_order_valid(pairs, n);
    lemma_rank_bound_12(pairs_to_order(pairs), n);
}

/// Any ballot's above-the-line rank lies inside the enumeration.
pub proof fn lemma_distribute_in_range(
    record: Seq<Seq<u8>>,
    groups: Seq<Seq<usize>>,
    above_start: int,
    cands_count: usize,
)
    requires
        groups.len() <= 12,
    ensures
        spec_distribute(record, groups, above_start, cands_count) < skip_shorter(
            groups.len(),
            groups.len() + 1,
        ),
        skip_shorter(groups.len(), groups.len() + 1) <= 0x6000_0000,
{
    let pairs = atl_pairs(record, groups, above_start, cands_count, groups.len() as int);
    lemma_atl_pairs_wf(record, groups, above_start, cands_count, groups.len() as int);
    lemma_order_valid(pairs, groups.len());
    lemma_rank_bound_12(pairs_to_order(pairs), groups.len());
}

/// Distinct bounded pairs sort into a valid ordering.
proof fn lemma_order_valid(pairs: Seq<(usize, usize)>, n: nat)
    requires
        pairs.len() <= n,
        distinct_groups(pairs),
        forall|t: int| 0 <= t < pairs.len() ==> (#[trigger] pairs[t]).1 < n,
    ensures
        valid_ordering(pairs_to_order(pairs), n),
{
    lemma_sel_sort_len(pairs);
    lemma_sel_sort_distinct(pairs);
    assert forall|t: int| 0 <= t < sel_sort(pairs).len() implies (#[trigger] sel_sort(pairs)[t]).1
        < n by {
        assert(sel_sort(pairs).contains(sel_sort(pairs)[t]));
        lemma_sel_sort_contains(pairs, sel_sort(pairs)[t]);
    }
    assert forall|t: int| 0 <= t < pairs_to_order(pairs).len() implies #[trigger] pairs_to_order(
        pairs,
    )[t] < n by {
        assert(pairs_to_order(pairs)[t] == sel_sort(pairs)[t].1);
    }
    assert forall|t1: int, t2: int| 0 <= t1 < t2 < pairs_to_order(pairs).len()
        implies pairs_to_order(pairs)[t1] != pairs_to_order(pairs)[t2] by {
        assert(pairs_to_order(pairs)[t1] == sel_sort(pairs)[t1].1);
        assert(pairs_to_order(pairs)[t2] == sel_sort(pairs)[t2].1);
    }
}

} // verus!
