//! The combination engine: scales each SA1's weights to its population
//! share of a district and aggregates them per district.
//!
//! Weights stay in the projection's fixed-point micro-units.  An SA1
//! split over districts without population data is assigned wholly to
//! the first district encountered; that first-seen rule reproduces the
//! reference behaviour and is a documented limitation.

use crate::projection::{table_find, table_views, zero_cells, Sa1Cells, Sa1Table, SCALE};
use vstd::prelude::*;

verus! {

/// Why a combination run must abort.
#[derive(Debug, PartialEq, Eq, Structural, Clone, Copy)]
pub enum CombineError {
    /// An accumulated weight left the fixed-point range.
    Overflow,
}

/// One SA1-to-district correspondence row.
pub struct DistRow {
    pub sa1: Vec<u8>,
    pub dist: Vec<u8>,
    pub pop: u64,
    pub has_pop: bool,
}

/// The district totals: same shape as the SA1 table, keyed by district
/// name.
pub type DistTable = Sa1Table;

pub open spec fn dist_row_view(r: DistRow) -> (Seq<u8>, Seq<u8>, u64, bool) {
    (r.sa1@, r.dist@, r.pop, r.has_pop)
}

/// Add an SA1's population-scaled weights to a district's cells, cell by
/// cell: `cur[c] + sv[c] * pop * SCALE / total`, with a zero total
/// contributing nothing.
pub open spec fn spec_scale_cells(
    cur: Seq<u64>,
    sv: Seq<u64>,
    pop: u64,
    total: u64,
    c: int,
) -> Result<Seq<u64>, CombineError>
    decreases c,
{
    if c <= 0 {
        Ok(Seq::<u64>::empty())
    } else {
        match spec_scale_cells(cur, sv, pop, total, c - 1) {
            Err(e) => Err(e),
            Ok(pre) => {
                let prod = sv[c - 1] * pop * SCALE;
                if prod > u128::MAX {
                    Err(CombineError::Overflow)
                } else {
                    let q = if total == 0 {
                        0int
                    } else {
                        prod / (total as int)
                    };
                    if cur[c - 1] + q > u64::MAX {
                        Err(CombineError::Overflow)
                    } else {
                        Ok(pre.push((cur[c - 1] + q) as u64))
                    }
                }
            },
        }
    }
}

/// Add an SA1's weights to a district's cells unscaled (multiplier one).
pub open spec fn spec_plain_cells(cur: Seq<u64>, sv: Seq<u64>, c: int) -> Result<
    Seq<u64>,
    CombineError,
>
    decreases c,
{
    if c <= 0 {
        Ok(Seq::<u64>::empty())
    } else {
        match spec_plain_cells(cur, sv, c - 1) {
            Err(e) => Err(e),
            Ok(pre) => {
                if cur[c - 1] + sv[c - 1] > u64::MAX {
                    Err(CombineError::Overflow)
                } else {
                    Ok(pre.push((cur[c - 1] + sv[c - 1]) as u64))
                }
            },
        }
    }
}

/// What one correspondence row does to the district table and the set of
/// SA1s already assigned by the first-seen rule.
pub open spec fn spec_combine_step(
    state: (Seq<(Seq<u8>, Seq<u64>)>, Seq<Seq<u8>>),
    sa1s: Seq<(Seq<u8>, Seq<u64>)>,
    row: (Seq<u8>, Seq<u8>, u64, bool),
    n_cols: int,
) -> Result<(Seq<(Seq<u8>, Seq<u64>)>, Seq<Seq<u8>>), CombineError> {
    let table = state.0;
    let seen = state.1;
    match table_find(sa1s, row.0, 0) {
        None => Ok(state),
        Some(si) => {
            let sv = sa1s[si].1;
            let cur = match table_find(table, row.1, 0) {
                Some(ti) => table[ti].1,
                None => zero_cells(n_cols),
            };
            if row.3 {
                let total = sv.last();
                match spec_scale_cells(cur, sv, row.2, total, n_cols) {
                    Err(e) => Err(e),
                    Ok(nc) => Ok(
                        (
                            match table_find(table, row.1, 0) {
                                Some(ti) => table.update(ti, (row.1, nc)),
                                None => table.push((row.1, nc)),
                            },
                            seen,
                        ),
                    ),
                }
            } else {
                if seen.contains(row.0) {
                    Ok(state)
                } else {
                    match spec_plain_cells(cur, sv, n_cols) {
                        Err(e) => Err(e),
                        Ok(nc) => Ok(
                            (
                                match table_find(table, row.1, 0) {
                                    Some(ti) => table.update(ti, (row.1, nc)),
                                    None => table.push((row.1, nc)),
                                },
                                seen.push(row.0),
                            ),
                        ),
                    }
                }
            }
        },
    }
}

/// The whole combination as a fold over the correspondence rows.
pub open spec fn spec_combine(
    sa1s: Seq<(Seq<u8>, Seq<u64>)>,
    rows: Seq<(Seq<u8>, Seq<u8>, u64, bool)>,
    n_cols: int,
    i: int,
) -> Result<(Seq<(Seq<u8>, Seq<u64>)>, Seq<Seq<u8>>), CombineError>
    decreases i,
{
    if i <= 0 {
        Ok((Seq::<(Seq<u8>, Seq<u64>)>::empty(), Seq::<Seq<u8>>::empty()))
    } else {
        match spec_combine(sa1s, rows, n_cols, i - 1) {
            Err(e) => Err(e),
            Ok(state) => spec_combine_step(state, sa1s, rows[i - 1], n_cols),
        }
    }
}

/// Aggregate SA1 weights into district totals.
pub fn make_districts(sa1_prefs: &Sa1Table, rows: &Vec<DistRow>) -> (r: Result<
    DistTable,
    CombineError,
>)
    requires
        sa1_prefs.wf(),
        sa1_prefs.n_cols >= 1,
    ensures
        match r {
            Ok(table) => {
                &&& table.wf()
                &&& table.n_cols == sa1_prefs.n_cols
                &&& spec_combine(
                    table_views(sa1_prefs.rows@),
                    Seq::new(rows@.len(), |i: int| dist_row_view(rows@[i])),
                    sa1_prefs.n_cols as int,
                    rows@.len() as int,
                ) matches Ok(st) && st.0 == table_views(table.rows@)
            },
            Err(e) => Err::<(Seq<(Seq<u8>, Seq<u64>)>, Seq<Seq<u8>>), CombineError>(e)
                == spec_combine(
                table_views(sa1_prefs.rows@),
                Seq::new(rows@.len(), |i: int| dist_row_view(rows@[i])),
                sa1_prefs.n_cols as int,
                rows@.len() as int,
            ),
        },
{
    let ghost sviews = table_views(sa1_prefs.rows@);
    let ghost rviews = Seq::new(rows@.len(), |i: int| dist_row_view(rows@[i]));
    let n_cols: usize = sa1_prefs.n_cols;
    let mut out: DistTable = Sa1Table { rows: Vec::new(), n_cols };
    let mut seen: Vec<Vec<u8>> = Vec::new();
    proof {
        assert(table_views(out.rows@) =~= Seq::<(Seq<u8>, Seq<u64>)>::empty());
        assert(crate::booths::byte_views(seen@) =~= Seq::<Seq<u8>>::empty());
    }
    let mut i: usize = 0;
    while i < rows.len()
        invariant
            sa1_prefs.wf(),
            n_cols == sa1_prefs.n_cols,
            n_cols >= 1,
            sviews == table_views(sa1_prefs.rows@),
            rviews == Seq::new(rows@.len(), |t: int| dist_row_view(rows@[t])),
            i <= rows@.len(),
            out.n_cols == n_cols,
            out.wf(),
            spec_combine(sviews, rviews, n_cols as int, i as int) == Ok::<_, CombineError>(
                (table_views(out.rows@), crate::booths::byte_views(seen@)),
            ),
        decreases rows@.len() - i,
    {
        let row: &DistRow = &rows[i];
        proof {
            assert(rviews[i as int] == dist_row_view(rows@[i as int]));
        }
        // Find the SA1's weights.
        let mut si: usize = 0;
        let mut sfound: bool = false;
        while si < sa1_prefs.rows.len() && !sfound
            invariant
                sviews == table_views(sa1_prefs.rows@),
                si <= sa1_prefs.rows@.len(),
                sfound ==> si < sa1_prefs.rows@.len()
                    && sa1_prefs.rows@[si as int].id@ == rows@[i as int].sa1@,
                table_find(sviews, rows@[i as int].sa1@, 0) == table_find(
                    sviews,
                    rows@[i as int].sa1@,
                    si as int,
                ),
                i < rows@.len(),
            decreases sa1_prefs.rows@.len() - si + (if sfound {
                0int
            } else {
                1int
            }),
        {
            proof {
                assert(sviews[si as int].0 == sa1_prefs.rows@[si as int].id@);
            }
            if crate::booths::bytes_eq(&sa1_prefs.rows[si].id, &rows[i].sa1) {
                sfound = true;
            } else {
                si = si + 1;
            }
        }
        if !sfound {
            proof {
                assert(table_find(sviews, rviews[i as int].0, 0) is None);
            }
            i = i + 1;
            continue;
        }
        proof {
            assert(table_find(sviews, rviews[i as int].0, si as int) == Some(si as int)) by {
                assert(sviews[si as int].0 == sa1_prefs.rows@[si as int].id@);
            }
        }
        let sv: &Vec<u64> = &sa1_prefs.rows[si].cells;
        proof {
            assert(sv@ == sviews[si as int].1);
            assert(sv@.len() == n_cols);
        }
        // First-seen rule for rows without population data.
        let mut skip_row: bool = false;
        if !row.has_pop {
            let mut k: usize = 0;
            let mut in_seen: bool = false;
            while k < seen.len() && !in_seen
                invariant
                    k <= seen@.len(),
                    in_seen ==> exists|t: int|
                        0 <= t < seen@.len() && crate::booths::byte_views(seen@)[t]
                            == rows@[i as int].sa1@,
                    !in_seen ==> forall|t: int|
                        0 <= t < k ==> crate::booths::byte_views(seen@)[t] != rows@[i as int].sa1@,
                    i < rows@.len(),
                decreases seen@.len() - k + (if in_seen {
                    0int
                } else {
                    1int
                }),
            {
                proof {
                    assert(crate::booths::byte_views(seen@)[k as int] == seen@[k as int]@);
                }
                if crate::booths::bytes_eq(&seen[k], &rows[i].sa1) {
                    in_seen = true;
                } else {
                    k = k + 1;
                }
            }
            if in_seen {
                skip_row = true;
                proof {
                    assert(crate::booths::byte_views(seen@).contains(rviews[i as int].0));
                }
            } else {
                proof {
                    assert(!crate::booths::byte_views(seen@).contains(rviews[i as int].0)) by {
                        if crate::booths::byte_views(seen@).contains(rviews[i as int].0) {
                            let t = choose|t: int|
                                0 <= t < seen@.len() && crate::booths::byte_views(seen@)[t]
                                    == rviews[i as int].0;
                        }
                    }
                }
            }
        }
        if skip_row {
            i = i + 1;
            continue;
        }
        // Find or create the district's row.
        let mut ti: usize = 0;
        let mut tfound: bool = false;
        while ti < out.rows.len() && !tfound
            invariant
                ti <= out.rows@.len(),
                tfound ==> ti < out.rows@.len() && out.rows@[ti as int].id@ == rows@[i as int].dist@,
                table_find(table_views(out.rows@), rows@[i as int].dist@, 0) == table_find(
                    table_views(out.rows@),
                    rows@[i as int].dist@,
                    ti as int,
                ),
                i < rows@.len(),
            decreases out.rows@.len() - ti + (if tfound {
                0int
            } else {
                1int
            }),
        {
            proof {
                assert(table_views(out.rows@)[ti as int].0 == out.rows@[ti as int].id@);
            }
            if crate::booths::bytes_eq(&out.rows[ti].id, &rows[i].dist) {
                tfound = true;
            } else {
                ti = ti + 1;
            }
        }
        let ghost tbl = table_views(out.rows@);
        proof {
            if tfound {
                assert(table_find(tbl, rviews[i as int].1, ti as int) == Some(ti as int)) by {
                    assert(tbl[ti as int].0 == out.rows@[ti as int].id@);
                }
            }
        }
        let mut cur: Vec<u64> = Vec::new();
        if tfound {
            let existing: &Vec<u64> = &out.rows[ti].cells;
            let mut c: usize = 0;
            while c < existing.len()
                invariant
                    c <= existing@.len(),
                    cur@ == existing@.take(c as int),
                decreases existing@.len() - c,
            {
                cur.push(existing[c]);
                proof {
                    assert(cur@ =~= existing@.take(c + 1));
                }
                c = c + 1;
            }
            proof {
                assert(cur@ =~= existing@);
                assert(cur@ == tbl[ti as int].1);
            }
        } else {
            let mut c: usize = 0;
            while c < n_cols
                invariant
                    c <= n_cols,
                    cur@.len() == c,
                    forall|t: int| 0 <= t < c ==> #[trigger] cur@[t] == 0u64,
                decreases n_cols - c,
            {
                cur.push(0);
                c = c + 1;
            }
            proof {
                assert(cur@ =~= zero_cells(n_cols as int));
            }
        }
        let ghost cur0 = cur@;
        let mut c: usize = 0;
        let mut overflowed: bool = false;
        let has_pop: bool = row.has_pop;
        let pop: u64 = row.pop;
        let total: u64 = if has_pop {
            sv[sv.len() - 1]
        } else {
            0
        };
        proof {
            assert(cur@.take(0) =~= Seq::<u64>::empty());
            if has_pop {
                assert(total == sviews[si as int].1.last());
            }
        }
        while c < n_cols && !overflowed
            invariant
                sa1_prefs.wf(),
                sviews == table_views(sa1_prefs.rows@),
                si < sa1_prefs.rows@.len(),
                sv@ == sviews[si as int].1,
                sv@.len() == n_cols,
                i < rows@.len(),
                has_pop == rviews[i as int].3,
                pop == rviews[i as int].2,
                has_pop ==> total == sviews[si as int].1.last(),
                c <= n_cols,
                cur@.len() == n_cols,
                cur0.len() == n_cols,
                !overflowed && has_pop ==> Ok::<_, CombineError>(cur@.take(c as int))
                    == spec_scale_cells(cur0, sv@, pop, total, c as int) && cur@.skip(c as int)
                    == cur0.skip(c as int),
                !overflowed && !has_pop ==> Ok::<_, CombineError>(cur@.take(c as int))
                    == spec_plain_cells(cur0, sv@, c as int) && cur@.skip(c as int) == cur0.skip(
                    c as int,
                ),
                overflowed && has_pop ==> spec_scale_cells(cur0, sv@, pop, total, n_cols as int)
                    == Err::<Seq<u64>, CombineError>(CombineError::Overflow),
                overflowed && !has_pop ==> spec_plain_cells(cur0, sv@, n_cols as int) == Err::<
                    Seq<u64>,
                    CombineError,
                >(CombineError::Overflow),
            decreases n_cols - c + (if overflowed {
                0int
            } else {
                1int
            }),
        {
            let base: u64 = cur[c];
            proof {
                assert(cur@[c as int] == cur0[c as int]) by {
                    assert(cur@.skip(c as int)[0] == cur@[c as int]);
                    assert(cur0.skip(c as int)[0] == cur0[c as int]);
                }
            }
            let svc: u64 = sv[c];
            let mut step_err: bool = false;
            let mut add: u64 = 0;
            if has_pop {
                proof {
                    assert((svc as int) * (pop as int) <= 0xFFFF_FFFF_FFFF_FFFF
                        * 0xFFFF_FFFF_FFFF_FFFF) by (nonlinear_arith)
                        requires
                            0 <= svc as int <= 0xFFFF_FFFF_FFFF_FFFF,
                            0 <= pop as int <= 0xFFFF_FFFF_FFFF_FFFF,
                    ;
                }
                let prod1: u128 = (svc as u128) * (pop as u128);
                match prod1.checked_mul(SCALE as u128) {
                    None => {
                        step_err = true;
                        proof {
                            assert(spec_scale_cells(cur0, sv@, pop, total, c + 1) == Err::<
                                Seq<u64>,
                                CombineError,
                            >(CombineError::Overflow));
                        }
                    },
                    Some(p) => {
                        let q128: u128 = if total == 0 {
                            0
                        } else {
                            p / (total as u128)
                        };
                        proof {
                            if total != 0 {
                                vstd::arithmetic::div_mod::lemma_div_is_ordered(
                                    0,
                                    p as int,
                                    total as int,
                                );
                            }
                        }
                        if q128 > (u64::MAX as u128) || (base as u128) + q128 > (
                        u64::MAX as u128) {
                            step_err = true;
                            proof {
                                assert(spec_scale_cells(cur0, sv@, pop, total, c + 1) == Err::<
                                    Seq<u64>,
                                    CombineError,
                                >(CombineError::Overflow));
                            }
                        } else {
                            add = base + (q128 as u64);
                        }
                    },
                }
            } else {
                if base as u128 + svc as u128 > u64::MAX as u128 {
                    step_err = true;
                    proof {
                        assert(spec_plain_cells(cur0, sv@, c + 1) == Err::<
                            Seq<u64>,
                            CombineError,
                        >(CombineError::Overflow));
                    }
                } else {
                    add = base + svc;
                }
            }
            if step_err {
                overflowed = true;
                proof {
                    if has_pop {
                        lemma_scale_cells_err(cur0, sv@, pop, total, c + 1, n_cols as int);
                    } else {
                        lemma_plain_cells_err(cur0, sv@, c + 1, n_cols as int);
                    }
                }
            } else {
                let ghost prev_cur = cur@;
                cur.set(c, add);
                proof {
                    assert(cur@.take(c as int) =~= prev_cur.take(c as int));
                    assert(cur@.take(c + 1) =~= prev_cur.take(c as int).push(add));
                    assert forall|t: int| 0 <= t < cur@.len() - (c + 1)
                        implies #[trigger] cur@.skip(c + 1)[t] == cur0.skip(c + 1)[t] by {
                        assert(cur@[c + 1 + t] == prev_cur[c + 1 + t]);
                        assert(prev_cur.skip(c as int)[t + 1] == prev_cur[c + 1 + t]);
                        assert(cur0.skip(c as int)[t + 1] == cur0[c + 1 + t]);
                        assert(cur0.skip(c + 1)[t] == cur0[c + 1 + t]);
                    }
                    assert(cur@.skip(c + 1) =~= cur0.skip(c + 1));
                }
                c = c + 1;
            }
        }
        if overflowed {
            proof {
                lemma_combine_err_stays(sviews, rviews, n_cols as int, i + 1, rows@.len() as int);
            }
            return Err(CombineError::Overflow);
        }
        proof {
            assert(cur@.take(n_cols as int) =~= cur@);
        }
        let new_row = Sa1Cells { id: crate::utils::copy_bytes(&rows[i].dist), cells: cur };
        if tfound {
            let ghost prev = out.rows@;
            out.rows.set(ti, new_row);
            proof {
                assert forall|t: int| 0 <= t < out.rows@.len() implies table_views(out.rows@)[t]
                    == tbl.update(ti as int, (rviews[i as int].1, out.rows@[ti as int].cells@))[t]
                    by {
                    if t != ti {
                        assert(out.rows@[t] == prev[t]);
                        assert(tbl[t] == (prev[t].id@, prev[t].cells@));
                    }
                }
                assert(table_views(out.rows@) =~= tbl.update(
                    ti as int,
                    (rviews[i as int].1, out.rows@[ti as int].cells@),
                ));
            }
        } else {
            let ghost prev = out.rows@;
            out.rows.push(new_row);
            proof {
                assert forall|t: int| 0 <= t < out.rows@.len() implies table_views(out.rows@)[t]
                    == tbl.push((rviews[i as int].1, out.rows@.last().cells@))[t] by {
                    if t < prev.len() {
                        assert(out.rows@[t] == prev[t]);
                        assert(tbl[t] == (prev[t].id@, prev[t].cells@));
                    }
                }
                assert(table_views(out.rows@) =~= tbl.push(
                    (rviews[i as int].1, out.rows@.last().cells@),
                ));
            }
        }
        if !row.has_pop {
            let ghost prev_seen = seen@;
            seen.push(crate::utils::copy_bytes(&rows[i].sa1));
            proof {
                crate::booths::lemma_byte_views_push(
                    prev_seen,
                    seen@,
                    rviews[i as int].0,
                );
            }
        }
        proof {
            assert(spec_combine(sviews, rviews, n_cols as int, i + 1) == Ok::<_, CombineError>(
                (table_views(out.rows@), crate::booths::byte_views(seen@)),
            ));
        }
        i = i + 1;
    }
    Ok(out)
}

proof fn lemma_combine_err_stays(
    sa1s: Seq<(Seq<u8>, Seq<u64>)>,
    rows: Seq<(Seq<u8>, Seq<u8>, u64, bool)>,
    n_cols: int,
    i: int,
    j: int,
)
    requires
        0 <= i <= j,
        spec_combine(sa1s, rows, n_cols, i) is Err,
    ensures
        spec_combine(sa1s, rows, n_cols, j) == spec_combine(sa1s, rows, n_cols, i),
    decreases j - i,
{
    if i < j {
        lemma_combine_err_stays(sa1s, rows, n_cols, i, j - 1);
    }
}

proof fn lemma_scale_cells_err(
    cur: Seq<u64>,
    sv: Seq<u64>,
    pop: u64,
    total: u64,
    i: int,
    j: int,
)
    requires
        0 < i <= j,
        spec_scale_cells(cur, sv, pop, total, i) is Err,
    ensures
        spec_scale_cells(cur, sv, pop, total, j) == spec_scale_cells(cur, sv, pop, total, i),
    decreases j - i,
{
    if i < j {
        lemma_scale_cells_err(cur, sv, pop, total, i + 1, j);
    }
}

proof fn lemma_plain_cells_err(cur: Seq<u64>, sv: Seq<u64>, i: int, j: int)
    requires
        0 < i <= j,
        spec_plain_cells(cur, sv, i) is Err,
    ensures
        spec_plain_cells(cur, sv, j) == spec_plain_cells(cur, sv, i),
    decreases j - i,
{
    if i < j {
        lemma_plain_cells_err(cur, sv, i + 1, j);
    }
}

} // verus!
