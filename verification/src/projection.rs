//! The projection engine: redistributes each booth's ordering tally over
//! the SA1 regions whose voters attended it, proportionally to the votes
//! the correspondence file records there.
//!
//! Fractional weights are carried in fixed-point micro-units: a stored
//! value `v` stands for `v / SCALE` votes.  Every division is exact
//! integer arithmetic, floored at micro-unit precision and guarded
//! against a zero booth total.

use crate::utils::{spec_state_bytes, StateAb};
use vstd::prelude::*;

verus! {

/// One stored unit is one millionth of a vote.
pub const SCALE: u64 = 1_000_000;

/// One booth's loaded ordering-count row: the counts and trailing total.
pub struct BoothVotes {
    pub div: Vec<u8>,
    pub booth: Vec<u8>,
    pub votes: Vec<u64>,
}

/// The booth-level data the projection redistributes.
pub struct BoothData {
    pub rows: Vec<BoothVotes>,
    pub n_cols: usize,
}

/// One correspondence row: how many formal votes one SA1's residents
/// cast at one booth of one division.
pub struct Sa1Row {
    pub year: Vec<u8>,
    pub state: Vec<u8>,
    pub div: Vec<u8>,
    pub sa1: Vec<u8>,
    pub booth: Vec<u8>,
    pub votes: u64,
}

/// One SA1's accumulated weights, in micro-units.
pub struct Sa1Cells {
    pub id: Vec<u8>,
    pub cells: Vec<u64>,
}

/// The projection output: weights per SA1.
pub struct Sa1Table {
    pub rows: Vec<Sa1Cells>,
    pub n_cols: usize,
}

/// Why a projection run must abort.
#[derive(Debug, PartialEq, Eq, Structural, Clone, Copy)]
pub enum ProjError {
    /// A correspondence row for this jurisdiction names a different
    /// election year: the wrong input file was supplied.
    YearMismatch,
    /// An accumulated weight left the fixed-point range.
    Overflow,
}

/// The abstract value of a booth row.
pub open spec fn booth_view(b: BoothVotes) -> (Seq<u8>, Seq<u8>, Seq<u64>) {
    (b.div@, b.booth@, b.votes@)
}

pub open spec fn booth_views(rows: Seq<BoothVotes>) -> Seq<(Seq<u8>, Seq<u8>, Seq<u64>)> {
    Seq::new(rows.len(), |i: int| booth_view(rows[i]))
}

/// The abstract value of the output table.
pub open spec fn table_views(rows: Seq<Sa1Cells>) -> Seq<(Seq<u8>, Seq<u64>)> {
    Seq::new(rows.len(), |i: int| (rows[i].id@, rows[i].cells@))
}

/// First booth row keyed by this (division, booth) pair.
pub open spec fn booth_find(
    rows: Seq<(Seq<u8>, Seq<u8>, Seq<u64>)>,
    div: Seq<u8>,
    booth: Seq<u8>,
    i: int,
) -> Option<int>
    decreases rows.len() - i,
{
    if i < 0 || i >= rows.len() {
        None
    } else if rows[i].0 == div && rows[i].1 == booth {
        Some(i)
    } else {
        booth_find(rows, div, booth, i + 1)
    }
}

/// First output row keyed by this SA1 id.
pub open spec fn table_find(rows: Seq<(Seq<u8>, Seq<u64>)>, id: Seq<u8>, i: int) -> Option<int>
    decreases rows.len() - i,
{
    if i < 0 || i >= rows.len() {
        None
    } else if rows[i].0 == id {
        Some(i)
    } else {
        table_find(rows, id, i + 1)
    }
}

pub open spec fn zero_cells(n: int) -> Seq<u64> {
    Seq::new(n as nat, |i: int| 0u64)
}

/// Add one booth's weighted contribution to an SA1's cells, cell by
/// cell: `cur[c] + bv[c] * votes * SCALE / total`, exactly, or an error
/// where a step leaves the machine range.
pub open spec fn spec_add_cells(
    cur: Seq<u64>,
    bv: Seq<u64>,
    votes: u64,
    total: u64,
    c: int,
) -> Result<Seq<u64>, ProjError>
    decreases c,
{
    if c <= 0 {
        Ok(Seq::<u64>::empty())
    } else {
        match spec_add_cells(cur, bv, votes, total, c - 1) {
            Err(e) => Err(e),
            Ok(pre) => {
                let prod = bv[c - 1] * votes * SCALE;
                if prod > u128::MAX {
                    Err(ProjError::Overflow)
                } else {
                    let q = prod / (total as int);
                    if cur[c - 1] + q > u64::MAX {
                        Err(ProjError::Overflow)
                    } else {
                        Ok(pre.push((cur[c - 1] + q) as u64))
                    }
                }
            },
        }
    }
}

/// What one correspondence row does to the output table: rows for other
/// jurisdictions are skipped, a wrong year is fatal, booths without
/// loaded data are skipped, and a zero booth total contributes nothing.
pub open spec fn spec_project_step(
    table: Seq<(Seq<u8>, Seq<u64>)>,
    booths: Seq<(Seq<u8>, Seq<u8>, Seq<u64>)>,
    row: (Seq<u8>, Seq<u8>, Seq<u8>, Seq<u8>, Seq<u8>, u64),
    state: StateAb,
    year: Seq<u8>,
    n_cols: int,
) -> Result<Seq<(Seq<u8>, Seq<u64>)>, ProjError> {
    if row.1 != spec_state_bytes(state) {
        Ok(table)
    } else if row.0 != year {
        Err(ProjError::YearMismatch)
    } else {
        match booth_find(booths, row.2, row.4, 0) {
            None => Ok(table),
            Some(bi) => {
                let bv = booths[bi].2;
                let total = bv.last();
                let cur = match table_find(table, row.3, 0) {
                    Some(ti) => table[ti].1,
                    None => zero_cells(n_cols),
                };
                let newcells = if total == 0 {
                    Ok(cur)
                } else {
                    spec_add_cells(cur, bv, row.5, total, n_cols)
                };
                match newcells {
                    Err(e) => Err(e),
                    Ok(nc) => Ok(
                        match table_find(table, row.3, 0) {
                            Some(ti) => table.update(ti, (row.3, nc)),
                            None => table.push((row.3, nc)),
                        },
                    ),
                }
            },
        }
    }
}

pub open spec fn row_view(r: Sa1Row) -> (Seq<u8>, Seq<u8>, Seq<u8>, Seq<u8>, Seq<u8>, u64) {
    (r.year@, r.state@, r.div@, r.sa1@, r.booth@, r.votes)
}

/// The whole projection as a fold over the correspondence rows.
pub open spec fn spec_project(
    booths: Seq<(Seq<u8>, Seq<u8>, Seq<u64>)>,
    rows: Seq<(Seq<u8>, Seq<u8>, Seq<u8>, Seq<u8>, Seq<u8>, u64)>,
    state: StateAb,
    year: Seq<u8>,
    n_cols: int,
    i: int,
) -> Result<Seq<(Seq<u8>, Seq<u64>)>, ProjError>
    decreases i,
{
    if i <= 0 {
        Ok(Seq::<(Seq<u8>, Seq<u64>)>::empty())
    } else {
        match spec_project(booths, rows, state, year, n_cols, i - 1) {
            Err(e) => Err(e),
            Ok(table) => spec_project_step(table, booths, rows[i - 1], state, year, n_cols),
        }
    }
}

/// A booth with a recorded total of zero feeds nothing into any SA1: the
/// step leaves every existing weight unchanged and can only add an
/// all-zero row.
pub proof fn lemma_zero_total_contributes_nothing(
    table: Seq<(Seq<u8>, Seq<u64>)>,
    booths: Seq<(Seq<u8>, Seq<u8>, Seq<u64>)>,
    row: (Seq<u8>, Seq<u8>, Seq<u8>, Seq<u8>, Seq<u8>, u64),
    state: StateAb,
    year: Seq<u8>,
    n_cols: int,
    bi: int,
)
    requires
        booth_find(booths, row.2, row.4, 0) == Some(bi),
        0 <= bi < booths.len(),
        booths[bi].2.last() == 0,
        row.1 == spec_state_bytes(state),
        row.0 == year,
    ensures
        spec_project_step(table, booths, row, state, year, n_cols) matches Ok(t2) && {
            ||| t2 == table
            ||| t2 == table.push((row.3, zero_cells(n_cols)))
        },
{
    let r = spec_project_step(table, booths, row, state, year, n_cols);
    match table_find(table, row.3, 0) {
        Some(ti) => {
            lemma_table_find_range(table, row.3, 0);
            assert(table[ti].0 == row.3);
            assert(r == Ok::<_, ProjError>(table.update(ti, (row.3, table[ti].1))));
            assert(table.update(ti, (row.3, table[ti].1)) =~= table);
        },
        None => {
            assert(r == Ok::<_, ProjError>(table.push((row.3, zero_cells(n_cols)))));
        },
    }
}

proof fn lemma_table_find_range(table: Seq<(Seq<u8>, Seq<u64>)>, id: Seq<u8>, i: int)
    requires
        0 <= i <= table.len(),
    ensures
        table_find(table, id, i) matches Some(ti) ==> i <= ti < table.len() && table[ti].0 == id,
    decreases table.len() - i,
{
    if i < table.len() {
        lemma_table_find_range(table, id, i + 1);
    }
}

proof fn lemma_booth_find_range(
    rows: Seq<(Seq<u8>, Seq<u8>, Seq<u64>)>,
    div: Seq<u8>,
    booth: Seq<u8>,
    i: int,
)
    requires
        0 <= i <= rows.len(),
    ensures
        booth_find(rows, div, booth, i) matches Some(bi) ==> i <= bi < rows.len() && rows[bi].0
            == div && rows[bi].1 == booth,
    decreases rows.len() - i,
{
    if i < rows.len() {
        lemma_booth_find_range(rows, div, booth, i + 1);
    }
}

impl BoothData {
    pub open spec fn wf(&self) -> bool {
        &&& self.n_cols >= 1
        &&& forall|t: int|
            0 <= t < self.rows@.len() ==> (#[trigger] self.rows@[t]).votes@.len() == self.n_cols
    }
}

impl Sa1Table {
    pub open spec fn wf(&self) -> bool {
        forall|t: int|
            0 <= t < self.rows@.len() ==> (#[trigger] self.rows@[t]).cells@.len() == self.n_cols
    }
}

/// Project booth-level tallies onto SA1 regions.
///
/// Rows for other jurisdictions are skipped; a row for this jurisdiction
/// whose year differs from the configured year aborts the run; booths
/// absent from the loaded data are skipped; a booth whose recorded total
/// is zero contributes nothing, with no division by zero.
pub fn project(booths: &BoothData, rows: &Vec<Sa1Row>, state: StateAb, year: &Vec<u8>) -> (r:
    Result<Sa1Table, ProjError>)
    requires
        booths.wf(),
    ensures
        match r {
            Ok(table) => {
                &&& table.wf()
                &&& table.n_cols == booths.n_cols
                &&& Ok::<_, ProjError>(table_views(table.rows@)) == spec_project(
                    booth_views(booths.rows@),
                    Seq::new(rows@.len(), |i: int| row_view(rows@[i])),
                    state,
                    year@,
                    booths.n_cols as int,
                    rows@.len() as int,
                )
            },
            Err(e) => Err::<Seq<(Seq<u8>, Seq<u64>)>, ProjError>(e) == spec_project(
                booth_views(booths.rows@),
                Seq::new(rows@.len(), |i: int| row_view(rows@[i])),
                state,
                year@,
                booths.n_cols as int,
                rows@.len() as int,
            ),
        },
{
    let ghost bviews = booth_views(booths.rows@);
    let ghost rviews = Seq::new(rows@.len(), |i: int| row_view(rows@[i]));
    let state_bytes: Vec<u8> = state.name_bytes();
    let mut out: Sa1Table = Sa1Table { rows: Vec::new(), n_cols: booths.n_cols };
    proof {
        assert(table_views(out.rows@) =~= Seq::<(Seq<u8>, Seq<u64>)>::empty());
    }
    let mut i: usize = 0;
    while i < rows.len()
        invariant
            booths.wf(),
            bviews == booth_views(booths.rows@),
            rviews == Seq::new(rows@.len(), |t: int| row_view(rows@[t])),
            state_bytes@ == spec_state_bytes(state),
            i <= rows@.len(),
            out.n_cols == booths.n_cols,
            out.wf(),
            Ok::<_, ProjError>(table_views(out.rows@)) == spec_project(
                bviews,
                rviews,
                state,
                year@,
                booths.n_cols as int,
                i as int,
            ),
        decreases rows@.len() - i,
    {
        let row: &Sa1Row = &rows[i];
        proof {
            assert(rviews[i as int] == row_view(rows@[i as int]));
        }
        if !crate::booths::bytes_eq(&row.state, &state_bytes) {
            proof {
                assert(spec_project(bviews, rviews, state, year@, booths.n_cols as int, i + 1)
                    == Ok::<_, ProjError>(table_views(out.rows@)));
            }
            i = i + 1;
            continue;
        }
        if !crate::booths::bytes_eq(&row.year, year) {
            proof {
                assert(spec_project(bviews, rviews, state, year@, booths.n_cols as int, i + 1)
                    == Err::<Seq<(Seq<u8>, Seq<u64>)>, ProjError>(ProjError::YearMismatch));
                assert(spec_project(
                    bviews,
                    rviews,
                    state,
                    year@,
                    booths.n_cols as int,
                    rows@.len() as int,
                ) == Err::<Seq<(Seq<u8>, Seq<u64>)>, ProjError>(ProjError::YearMismatch)) by {
                    lemma_project_err_stays(
                        bviews,
                        rviews,
                        state,
                        year@,
                        booths.n_cols as int,
                        i + 1,
                        rows@.len() as int,
                    );
                }
            }
            return Err(ProjError::YearMismatch);
        }
        // Find the booth this row refers to.
        let mut bi: usize = 0;
        let mut bfound: bool = false;
        while bi < booths.rows.len() && !bfound
            invariant
                bviews == booth_views(booths.rows@),
                bi <= booths.rows@.len(),
                bfound ==> bi < booths.rows@.len() && bviews[bi as int].0 == rows@[i as int].div@
                    && bviews[bi as int].1 == rows@[i as int].booth@,
                booth_find(bviews, rows@[i as int].div@, rows@[i as int].booth@, 0) == booth_find(
                    bviews,
                    rows@[i as int].div@,
                    rows@[i as int].booth@,
                    bi as int,
                ),
                i < rows@.len(),
            decreases booths.rows@.len() - bi + (if bfound {
                0int
            } else {
                1int
            }),
        {
            if crate::booths::bytes_eq(&booths.rows[bi].div, &rows[i].div) && crate::booths::bytes_eq(
                &booths.rows[bi].booth,
                &rows[i].booth,
            ) {
                bfound = true;
                proof {
                    assert(bviews[bi as int] == booth_view(booths.rows@[bi as int]));
                }
            } else {
                proof {
                    assert(bviews[bi as int] == booth_view(booths.rows@[bi as int]));
                }
                bi = bi + 1;
            }
        }
        if !bfound {
            proof {
                assert(booth_find(bviews, rviews[i as int].2, rviews[i as int].4, 0) is None);
                assert(spec_project(bviews, rviews, state, year@, booths.n_cols as int, i + 1)
                    == Ok::<_, ProjError>(table_views(out.rows@)));
            }
            i = i + 1;
            continue;
        }
        proof {
            assert(booth_find(bviews, rviews[i as int].2, rviews[i as int].4, bi as int) == Some(
                bi as int,
            ));
        }
        let bv: &Vec<u64> = &booths.rows[bi].votes;
        proof {
            assert(bv@ == bviews[bi as int].2);
            assert(bv@.len() == booths.n_cols);
        }
        let total: u64 = bv[bv.len() - 1];
        proof {
            assert(total == bviews[bi as int].2.last());
        }
        // Find or create the SA1's output row.
        let mut ti: usize = 0;
        let mut tfound: bool = false;
        while ti < out.rows.len() && !tfound
            invariant
                ti <= out.rows@.len(),
                tfound ==> ti < out.rows@.len() && out.rows@[ti as int].id@ == rows@[i as int].sa1@,
                table_find(table_views(out.rows@), rows@[i as int].sa1@, 0) == table_find(
                    table_views(out.rows@),
                    rows@[i as int].sa1@,
                    ti as int,
                ),
                i < rows@.len(),
            decreases out.rows@.len() - ti + (if tfound {
                0int
            } else {
                1int
            }),
        {
            if crate::booths::bytes_eq(&out.rows[ti].id, &rows[i].sa1) {
                tfound = true;
                proof {
                    assert(table_views(out.rows@)[ti as int].0 == out.rows@[ti as int].id@);
                }
            } else {
                proof {
                    assert(table_views(out.rows@)[ti as int].0 == out.rows@[ti as int].id@);
                }
                ti = ti + 1;
            }
        }
        let ghost tbl = table_views(out.rows@);
        proof {
            if tfound {
                assert(table_find(tbl, rviews[i as int].3, ti as int) == Some(ti as int)) by {
                    assert(tbl[ti as int].0 == out.rows@[ti as int].id@);
                }
                assert(table_find(tbl, rviews[i as int].3, 0) == Some(ti as int));
            } else {
                assert(table_find(tbl, rviews[i as int].3, 0) is None);
            }
        }
        // Current cells for this SA1: the existing row or zeros.
        let mut cur: Vec<u64> = Vec::new();
        if tfound {
            let existing: &Vec<u64> = &out.rows[ti].cells;
            let mut c: usize = 0;
            while c < existing.len()
                invariant
                    c <= existing@.len(),
                    cur@ == existing@.take(c as int),
                decreases existing@.len() - c,
            {
                cur.push(existing[c]);
                proof {
                    assert(cur@ =~= existing@.take(c + 1));
                }
                c = c + 1;
            }
            proof {
                assert(cur@ =~= existing@);
                assert(cur@ == tbl[ti as int].1);
            }
        } else {
            let mut c: usize = 0;
            while c < booths.n_cols
                invariant
                    c <= booths.n_cols,
                    cur@.len() == c,
                    forall|t: int| 0 <= t < c ==> #[trigger] cur@[t] == 0u64,
                decreases booths.n_cols - c,
            {
                cur.push(0);
                c = c + 1;
            }
            proof {
                assert(cur@ =~= zero_cells(booths.n_cols as int));
            }
        }
        let ghost cur0 = cur@;
        // Add this booth's contribution, unless its total is zero.
        if total != 0 {
            let mut c: usize = 0;
            let mut overflowed: bool = false;
            proof {
                assert(cur@.take(0) =~= Seq::<u64>::empty());
            }
            while c < booths.n_cols && !overflowed
                invariant
                    booths.wf(),
                    bviews == booth_views(booths.rows@),
                    bi < booths.rows@.len(),
                    bv@ == bviews[bi as int].2,
                    bv@.len() == booths.n_cols,
                    total == bviews[bi as int].2.last(),
                    total != 0,
                    i < rows@.len(),
                    c <= booths.n_cols,
                    cur@.len() == booths.n_cols,
                    cur0.len() == booths.n_cols,
                    !overflowed ==> Ok::<_, ProjError>(cur@.take(c as int)) == spec_add_cells(
                        cur0,
                        bv@,
                        rows@[i as int].votes,
                        total,
                        c as int,
                    ) && cur@.skip(c as int) == cur0.skip(c as int),
                    overflowed ==> spec_add_cells(
                        cur0,
                        bv@,
                        rows@[i as int].votes,
                        total,
                        booths.n_cols as int,
                    ) == Err::<Seq<u64>, ProjError>(ProjError::Overflow),
                decreases booths.n_cols - c + (if overflowed {
                    0int
                } else {
                    1int
                }),
            {
                let count: u64 = bv[c];
                let votes: u64 = rows[i].votes;
                proof {
                    assert((count as int) * (votes as int) <= 0xFFFF_FFFF_FFFF_FFFF
                        * 0xFFFF_FFFF_FFFF_FFFF) by (nonlinear_arith)
                        requires
                            0 <= count as int <= 0xFFFF_FFFF_FFFF_FFFF,
                            0 <= votes as int <= 0xFFFF_FFFF_FFFF_FFFF,
                    ;
                }
                let prod1: u128 = (count as u128) * (votes as u128);
                let prod2: Option<u128> = prod1.checked_mul(SCALE as u128);
                match prod2 {
                    None => {
                        overflowed = true;
                        proof {
                            assert(spec_add_cells(cur0, bv@, rows@[i as int].votes, total, c + 1)
                                == Err::<Seq<u64>, ProjError>(ProjError::Overflow));
                            lemma_add_cells_err(
                                cur0,
                                bv@,
                                rows@[i as int].votes,
                                total,
                                c + 1,
                                booths.n_cols as int,
                            );
                        }
                    },
                    Some(p) => {
                        let q128: u128 = p / (total as u128);
                        let base: u64 = cur[c];
                        proof {
                            assert(cur@[c as int] == cur0[c as int]) by {
                                assert(cur@.skip(c as int)[0] == cur@[c as int]);
                                assert(cur0.skip(c as int)[0] == cur0[c as int]);
                            }
                            assert(p == bv@[c as int] * rows@[i as int].votes * SCALE);
                            assert(q128 == p as int / (total as int));
                            vstd::arithmetic::div_mod::lemma_div_is_ordered(
                                0,
                                p as int,
                                total as int,
                            );
                        }
                        if q128 > (u64::MAX as u128) || (base as u128) + q128 > (u64::MAX as u128) {
                            overflowed = true;
                            proof {
                                assert(spec_add_cells(
                                    cur0,
                                    bv@,
                                    rows@[i as int].votes,
                                    total,
                                    c + 1,
                                ) == Err::<Seq<u64>, ProjError>(ProjError::Overflow));
                                lemma_add_cells_err(
                                    cur0,
                                    bv@,
                                    rows@[i as int].votes,
                                    total,
                                    c + 1,
                                    booths.n_cols as int,
                                );
                            }
                        } else {
                            let add: u64 = base + (q128 as u64);
                            let ghost prev_cur = cur@;
                            cur.set(c, add);
                            proof {
                                assert(cur@.take(c as int) =~= prev_cur.take(c as int));
                                assert(cur@.take(c + 1) =~= prev_cur.take(c as int).push(add));
                                assert forall|t: int| 0 <= t < cur@.len() - (c + 1)
                                    implies #[trigger] cur@.skip(c + 1)[t] == cur0.skip(c + 1)[t]
                                    by {
                                    assert(cur@[c + 1 + t] == prev_cur[c + 1 + t]);
                                    assert(prev_cur.skip(c as int)[t + 1] == prev_cur[c + 1 + t]);
                                    assert(cur0.skip(c as int)[t + 1] == cur0[c + 1 + t]);
                                    assert(cur0.skip(c + 1)[t] == cur0[c + 1 + t]);
                                }
                                assert(cur@.skip(c + 1) =~= cur0.skip(c + 1));
                            }
                            c = c + 1;
                        }
                    },
                }
            }
            if overflowed {
                proof {
                    assert(spec_project_step(
                        tbl,
                        bviews,
                        rviews[i as int],
                        state,
                        year@,
                        booths.n_cols as int,
                    ) == Err::<Seq<(Seq<u8>, Seq<u64>)>, ProjError>(ProjError::Overflow));
                    lemma_project_err_stays(
                        bviews,
                        rviews,
                        state,
                        year@,
                        booths.n_cols as int,
                        i + 1,
                        rows@.len() as int,
                    );
                }
                return Err(ProjError::Overflow);
            }
            proof {
                assert(cur@.take(booths.n_cols as int) =~= cur@);
            }
        }
        // Store the updated cells.
        let new_row = Sa1Cells { id: crate::utils::copy_bytes(&rows[i].sa1), cells: cur };
        if tfound {
            let ghost prev = out.rows@;
            out.rows.set(ti, new_row);
            proof {
                assert forall|t: int| 0 <= t < out.rows@.len() implies table_views(out.rows@)[t]
                    == tbl.update(ti as int, (rviews[i as int].3, out.rows@[ti as int].cells@))[t]
                    by {
                    if t != ti {
                        assert(out.rows@[t] == prev[t]);
                        assert(tbl[t] == (prev[t].id@, prev[t].cells@));
                    }
                }
                assert(table_views(out.rows@) =~= tbl.update(
                    ti as int,
                    (rviews[i as int].3, out.rows@[ti as int].cells@),
                ));
            }
        } else {
            let ghost prev = out.rows@;
            out.rows.push(new_row);
            proof {
                assert forall|t: int| 0 <= t < out.rows@.len() implies table_views(out.rows@)[t]
                    == tbl.push((rviews[i as int].3, out.rows@.last().cells@))[t] by {
                    if t < prev.len() {
                        assert(out.rows@[t] == prev[t]);
                        assert(tbl[t] == (prev[t].id@, prev[t].cells@));
                    }
                }
                assert(table_views(out.rows@) =~= tbl.push(
                    (rviews[i as int].3, out.rows@.last().cells@),
                ));
            }
        }
        proof {
            assert(spec_project(bviews, rviews, state, year@, booths.n_cols as int, i + 1)
                == Ok::<_, ProjError>(table_views(out.rows@)));
        }
        i = i + 1;
    }
    Ok(out)
}

/// A correspondence row for this jurisdiction whose year differs from
/// the configured year aborts the whole projection; it is never a
/// silent skip.
pub proof fn lemma_year_mismatch_aborts(
    booths: Seq<(Seq<u8>, Seq<u8>, Seq<u64>)>,
    rows: Seq<(Seq<u8>, Seq<u8>, Seq<u8>, Seq<u8>, Seq<u8>, u64)>,
    state: StateAb,
    year: Seq<u8>,
    n_cols: int,
    i: int,
)
    requires
        0 <= i < rows.len(),
        rows[i].1 == spec_state_bytes(state),
        rows[i].0 != year,
        spec_project(booths, rows, state, year, n_cols, i) is Ok,
    ensures
        spec_project(booths, rows, state, year, n_cols, rows.len() as int) == Err::<
            Seq<(Seq<u8>, Seq<u64>)>,
            ProjError,
        >(ProjError::YearMismatch),
{
    assert(spec_project(booths, rows, state, year, n_cols, i + 1) == Err::<
        Seq<(Seq<u8>, Seq<u64>)>,
        ProjError,
    >(ProjError::YearMismatch));
    lemma_project_err_stays(booths, rows, state, year, n_cols, i + 1, rows.len() as int);
}

/// Once a prefix of the rows has failed, the whole fold fails the same
/// way.
proof fn lemma_project_err_stays(
    booths: Seq<(Seq<u8>, Seq<u8>, Seq<u64>)>,
    rows: Seq<(Seq<u8>, Seq<u8>, Seq<u8>, Seq<u8>, Seq<u8>, u64)>,
    state: StateAb,
    year: Seq<u8>,
    n_cols: int,
    i: int,
    j: int,
)
    requires
        0 <= i <= j,
        spec_project(booths, rows, state, year, n_cols, i) is Err,
    ensures
        spec_project(booths, rows, state, year, n_cols, j) == spec_project(
            booths,
            rows,
            state,
            year,
            n_cols,
            i,
        ),
    decreases j - i,
{
    if i < j {
        lemma_project_err_stays(booths, rows, state, year, n_cols, i, j - 1);
    }
}

proof fn lemma_add_cells_err(
    cur: Seq<u64>,
    bv: Seq<u64>,
    votes: u64,
    total: u64,
    i: int,
    j: int,
)
    requires
        0 < i <= j,
        spec_add_cells(cur, bv, votes, total, i) is Err,
    ensures
        spec_add_cells(cur, bv, votes, total, j) == spec_add_cells(cur, bv, votes, total, i),
    decreases j - i,
{
    if i < j {
        lemma_add_cells_err(cur, bv, votes, total, i + 1, j);
    }
}


/// Where a row belongs among those already sorted by id.
pub open spec fn table_ins_pos(s: Seq<(Seq<u8>, Seq<u64>)>, id: Seq<u8>) -> int
    decreases s.len(),
{
    if s.len() == 0 {
        0
    } else if crate::booths::lex_le(s[0].0, id) {
        1 + table_ins_pos(s.drop_first(), id)
    } else {
        0
    }
}

/// Insertion sort of table rows by id.
pub open spec fn table_ins_sort(s: Seq<(Seq<u8>, Seq<u64>)>) -> Seq<(Seq<u8>, Seq<u64>)>
    decreases s.len(),
{
    if s.len() == 0 {
        s
    } else {
        let sorted = table_ins_sort(s.drop_last());
        sorted.insert(table_ins_pos(sorted, s.last().0), s.last())
    }
}

proof fn lemma_table_ins_pos_range(s: Seq<(Seq<u8>, Seq<u64>)>, id: Seq<u8>)
    ensures
        0 <= table_ins_pos(s, id) <= s.len(),
    decreases s.len(),
{
    if s.len() > 0 {
        lemma_table_ins_pos_range(s.drop_first(), id);
    }
}

/// Order a table's rows by id, as the output files list them.
#[verifier::loop_isolation(false)]
pub fn sort_table(table: Sa1Table) -> (r: Sa1Table)
    ensures
        table_views(r.rows@) == table_ins_sort(table_views(table.rows@)),
        r.n_cols == table.n_cols,
{
    let ghost orig = table_views(table.rows@);
    let n_cols = table.n_cols;
    let mut rows = table.rows;
    let n_rows: usize = rows.len();
    let mut out: Vec<Sa1Cells> = Vec::new();
    let mut i: usize = 0;
    proof {
        assert(orig.len() == n_rows);
        assert(table_views(out@) =~= table_ins_sort(orig.take(0)));
    }
    while rows.len() > 0
        invariant
            i == orig.len() - rows@.len(),
            0 <= i <= orig.len(),
            forall|t: int|
                0 <= t < rows@.len() ==> ((#[trigger] rows@[t]).id@, rows@[t].cells@) == orig[i
                    + t],
            table_views(out@) == table_ins_sort(orig.take(i as int)),
        decreases rows@.len(),
    {
        let ghost out_before = table_views(out@);
        let x: Sa1Cells = rows.remove(0);
        proof {
            assert((x.id@, x.cells@) == orig[i as int]);
            assert(forall|t: int|
                0 <= t < rows@.len() ==> ((#[trigger] rows@[t]).id@, rows@[t].cells@) == orig[i + 1
                    + t]);
            lemma_table_ins_pos_range(out_before, x.id@);
            assert(out_before.skip(0) =~= out_before);
        }
        let mut pos: usize = 0;
        let mut stop: bool = false;
        while pos < out.len() && !stop
            invariant
                pos <= out@.len(),
                table_ins_pos(out_before, x.id@) == pos + table_ins_pos(
                    out_before.skip(pos as int),
                    x.id@,
                ),
                stop ==> pos < out@.len() && !crate::booths::lex_le(
                    out_before[pos as int].0,
                    x.id@,
                ),
            decreases out@.len() - pos + (if stop {
                0int
            } else {
                1int
            }),
        {
            proof {
                assert(out_before.skip(pos as int)[0] == out_before[pos as int]);
                assert(out_before.skip(pos as int).drop_first() =~= out_before.skip(pos + 1));
                assert(table_views(out@)[pos as int] == (
                    out@[pos as int].id@,
                    out@[pos as int].cells@,
                ));
            }
            if !crate::booths::bytes_le(&out[pos].id, &x.id) {
                stop = true;
            } else {
                pos = pos + 1;
            }
        }
        proof {
            if stop {
                assert(table_ins_pos(out_before.skip(pos as int), x.id@) == 0);
            } else {
                assert(out_before.skip(pos as int).len() == 0);
            }
            assert(table_ins_pos(out_before, x.id@) == pos as int);
        }
        let ghost prev = out@;
        let ghost xv = (x.id@, x.cells@);
        out.insert(pos, x);
        proof {
            assert forall|t: int| 0 <= t < out@.len() implies table_views(out@)[t]
                == out_before.insert(pos as int, xv)[t] by {
                if t < pos {
                    assert(out@[t] == prev[t]);
                    assert(out_before[t] == (prev[t].id@, prev[t].cells@));
                } else if t == pos {
                    assert(out@[t] == prev.insert(pos as int, out@[pos as int])[t]);
                } else {
                    assert(out@[t] == prev[t - 1]);
                    assert(out_before[t - 1] == (prev[t - 1].id@, prev[t - 1].cells@));
                }
            }
            assert(table_views(out@) =~= out_before.insert(pos as int, xv));
            assert(orig.take(i + 1).drop_last() =~= orig.take(i as int));
            assert(orig.take(i + 1).last() == orig[i as int]);
            assert(table_views(out@) =~= table_ins_sort(orig.take(i + 1)));
        }
        i = i + 1;
    }
    proof {
        assert(orig.take(orig.len() as int) =~= orig);
    }
    Sa1Table { rows: out, n_cols }
}

/// The decimal form of a fixed-point weight: the whole part, and when
/// the fraction is not zero, a point and the six fractional digits with
/// trailing zeros removed.
pub open spec fn spec_micro_bytes(v: u64) -> Seq<u8> {
    let whole = v as int / SCALE as int;
    let frac = v as int % SCALE as int;
    if frac == 0 {
        crate::booths::spec_dec_bytes(whole as nat)
    } else {
        crate::booths::spec_dec_bytes(whole as nat) + seq![46u8] + trim_zeros(
            pad_digits(frac as nat),
        )
    }
}

/// The six fractional digits, zero-padded on the left.
pub open spec fn pad_digits(frac: nat) -> Seq<u8> {
    zero_bytes((6 - crate::booths::spec_dec_bytes(frac).len()) as nat)
        + crate::booths::spec_dec_bytes(frac)
}

pub open spec fn zero_bytes(n: nat) -> Seq<u8> {
    Seq::new(n, |i: int| 48u8)
}

/// Drop trailing ASCII zeroes.
pub open spec fn trim_zeros(s: Seq<u8>) -> Seq<u8>
    decreases s.len(),
{
    if s.len() > 0 && s.last() == 48 {
        trim_zeros(s.drop_last())
    } else {
        s
    }
}

/// Format a fixed-point weight as decimal text.
#[verifier::loop_isolation(false)]
pub fn micro_bytes(v: u64) -> (r: Vec<u8>)
    ensures
        r@ == spec_micro_bytes(v),
{
    proof {
        vstd::arithmetic::div_mod::lemma_fundamental_div_mod(v as int, SCALE as int);
    }
    let whole: u64 = v / SCALE;
    let frac: u64 = v % SCALE;
    let mut r: Vec<u8> = crate::booths::dec_bytes(whole);
    if frac == 0 {
        return r;
    }
    r.push(46);
    let digits: Vec<u8> = crate::booths::dec_bytes(frac);
    proof {
        lemma_dec_len_bound(frac);
    }
    let mut padded: Vec<u8> = Vec::new();
    let mut p: usize = 0;
    let pad: usize = 6 - digits.len();
    while p < pad
        invariant
            p <= pad,
            padded@ =~= zero_bytes(p as nat),
        decreases pad - p,
    {
        padded.push(48);
        proof {
            assert(padded@ =~= zero_bytes((p + 1) as nat));
        }
        p = p + 1;
    }
    let mut q: usize = 0;
    while q < digits.len()
        invariant
            q <= digits@.len(),
            padded@ == zero_bytes(pad as nat) + digits@.take(q as int),
        decreases digits@.len() - q,
    {
        padded.push(digits[q]);
        proof {
            assert(padded@ =~= zero_bytes(pad as nat) + digits@.take(q + 1));
        }
        q = q + 1;
    }
    proof {
        assert(digits@.take(digits@.len() as int) =~= digits@);
        assert(padded@ == pad_digits(frac as nat));
    }
    while padded.len() > 0 && padded[padded.len() - 1] == 48
        invariant
            trim_zeros(padded@) == trim_zeros(pad_digits(frac as nat)),
        decreases padded@.len(),
    {
        let ghost before = padded@;
        padded.pop();
        proof {
            assert(padded@ =~= before.drop_last());
        }
    }
    proof {
        assert(trim_zeros(padded@) == padded@);
    }
    let mut t: usize = 0;
    let ghost mid = r@;
    while t < padded.len()
        invariant
            t <= padded@.len(),
            r@ == mid + padded@.take(t as int),
        decreases padded@.len() - t,
    {
        r.push(padded[t]);
        proof {
            assert(r@ =~= mid + padded@.take(t + 1));
        }
        t = t + 1;
    }
    proof {
        assert(padded@.take(padded@.len() as int) =~= padded@);
        assert(r@ =~= spec_micro_bytes(v));
    }
    r
}

/// A fraction below one million prints in at most six digits.
proof fn lemma_dec_len_bound(frac: u64)
    requires
        frac < 1000000,
    ensures
        1 <= crate::booths::spec_dec_bytes(frac as nat).len() <= 6,
{
    assert(pow10(0) == 1);
    assert(pow10(1) == 10);
    assert(pow10(2) == 100);
    assert(pow10(3) == 1000);
    assert(pow10(4) == 10000);
    assert(pow10(5) == 100000);
    assert(pow10(6) == 1000000);
    lemma_dec_len(frac as nat, 6, 1000000);
}

proof fn lemma_dec_len(n: nat, d: nat, cap: nat)
    requires
        n < cap,
        d >= 1,
        cap == pow10(d),
    ensures
        1 <= crate::booths::spec_dec_bytes(n).len() <= d,
    decreases d,
{
    if n < 10 {
    } else {
        assert(d >= 2) by {
            if d == 1 {
                assert(pow10(0) == 1);
                assert(pow10(1) == 10 * pow10(0));
            }
        }
        let p = pow10((d - 1) as nat);
        lemma_pow10_pos((d - 1) as nat);
        assert(cap == 10 * p);
        vstd::arithmetic::div_mod::lemma_div_multiples_vanish(p as int, 10);
        assert(cap as int / 10 == p);
        vstd::arithmetic::div_mod::lemma_div_is_ordered(n as int, 10 * p - 1, 10);
        vstd::arithmetic::div_mod::lemma_fundamental_div_mod_converse(
            10 * (p as int) - 1,
            10,
            p as int - 1,
            9,
        );
        assert(n / 10 < p);
        lemma_dec_len(n / 10, (d - 1) as nat, (cap / 10) as nat);
    }
}

proof fn lemma_pow10_pos(d: nat)
    ensures
        pow10(d) >= 1,
    decreases d,
{
    if d > 0 {
        lemma_pow10_pos((d - 1) as nat);
        assert(10 * pow10((d - 1) as nat) >= 1) by (nonlinear_arith)
            requires
                pow10((d - 1) as nat) >= 1,
        ;
    }
}

pub open spec fn pow10(d: nat) -> nat
    decreases d,
{
    if d == 0 {
        1
    } else {
        10 * pow10((d - 1) as nat)
    }
}


/// Position of the first decimal point at or after `i`.
pub open spec fn dot_pos(s: Seq<u8>, i: int) -> Option<int>
    decreases s.len() - i,
{
    if i < 0 || i >= s.len() {
        None
    } else if s[i] == 46 {
        Some(i)
    } else {
        dot_pos(s, i + 1)
    }
}

/// The first `k` ASCII digits of `s`, other bytes skipped.
pub open spec fn first_digits(s: Seq<u8>, k: nat) -> Seq<u8>
    decreases s.len(),
{
    if s.len() == 0 || k == 0 {
        Seq::<u8>::empty()
    } else if 48 <= s[0] <= 57 {
        seq![s[0]] + first_digits(s.drop_first(), (k - 1) as nat)
    } else {
        first_digits(s.drop_first(), k)
    }
}

/// A well-formed decimal numeral: nothing but digits and at most one
/// decimal point, with at least one digit.
pub open spec fn well_formed_micro(s: Seq<u8>) -> bool {
    &&& forall|i: int| 0 <= i < s.len() ==> (48 <= #[trigger] s[i] <= 57 || s[i] == 46)
    &&& forall|i: int, j: int| 0 <= i < j < s.len() ==> !(#[trigger] s[i] == 46 && #[trigger] s[j] == 46)
    &&& exists|i: int| 0 <= i < s.len() && 48 <= #[trigger] s[i] <= 57
}

/// The fixed-point weight a decimal string denotes: zero unless the
/// cell is a well-formed numeral, as the reference loaders read it;
/// otherwise the digits before the point are the whole part and the
/// first six digits after it the fraction (shorter fractions scale up),
/// with values beyond the machine range pinned to `u64::MAX`.
pub open spec fn spec_parse_micro(s: Seq<u8>) -> u64 {
    if !well_formed_micro(s) {
        0
    } else {
        let whole = match dot_pos(s, 0) {
            None => s,
            Some(d) => s.take(d),
        };
        let frac = match dot_pos(s, 0) {
            None => Seq::<u8>::empty(),
            Some(d) => s.skip(d + 1),
        };
        let fd = first_digits(frac, 6);
        let v = crate::ballot::parse_digits(whole) * (SCALE as nat) + crate::ballot::parse_digits(
            fd,
        ) * pow10((6 - fd.len()) as nat);
        if v <= u64::MAX {
            v as u64
        } else {
            u64::MAX
        }
    }
}

/// Read a fixed-point weight back from its decimal text.
#[verifier::loop_isolation(false)]
pub fn parse_micro(s: &[u8]) -> (r: u64)
    ensures
        r == spec_parse_micro(s@),
{
    // A malformed cell reads as zero, never as a partial number.
    let mut seen_dot: bool = false;
    let mut seen_digit: bool = false;
    let mut v0: usize = 0;
    while v0 < s.len()
        invariant
            v0 <= s@.len(),
            forall|i: int| 0 <= i < v0 ==> (48 <= #[trigger] s@[i] <= 57 || s@[i] == 46),
            seen_dot == exists|i: int| 0 <= i < v0 && #[trigger] s@[i] == 46,
            seen_digit == exists|i: int| 0 <= i < v0 && 48 <= #[trigger] s@[i] <= 57,
            forall|i: int, j: int|
                0 <= i < j < v0 ==> !(#[trigger] s@[i] == 46 && #[trigger] s@[j] == 46),
        decreases s@.len() - v0,
    {
        let c: u8 = s[v0];
        if c == 46 {
            if seen_dot {
                proof {
                    let i0 = choose|i: int| 0 <= i < v0 && #[trigger] s@[i] == 46;
                    assert(s@[i0] == 46 && s@[v0 as int] == 46);
                    assert(!well_formed_micro(s@));
                }
                return 0;
            }
            seen_dot = true;
        } else if c >= 48 && c <= 57 {
            seen_digit = true;
        } else {
            proof {
                assert(!(48 <= s@[v0 as int] <= 57 || s@[v0 as int] == 46));
                assert(!well_formed_micro(s@));
            }
            return 0;
        }
        v0 = v0 + 1;
    }
    if !seen_digit {
        proof {
            assert(!well_formed_micro(s@));
        }
        return 0;
    }
    proof {
        assert(well_formed_micro(s@));
    }
    // Find the decimal point, if any.
    let mut dot: usize = 0;
    let mut has_dot: bool = false;
    while dot < s.len() && !has_dot
        invariant
            dot <= s@.len(),
            dot_pos(s@, 0) == dot_pos(s@, dot as int),
            has_dot ==> dot < s@.len() && s@[dot as int] == 46,
        decreases s@.len() - dot + (if has_dot {
            0int
        } else {
            1int
        }),
    {
        if s[dot] == 46 {
            has_dot = true;
        } else {
            dot = dot + 1;
        }
    }
    let ghost whole_seq = if has_dot {
        s@.take(dot as int)
    } else {
        s@
    };
    proof {
        if has_dot {
            assert(dot_pos(s@, dot as int) == Some(dot as int));
        } else {
            assert(dot_pos(s@, dot as int) is None);
        }
        if !has_dot {
            assert(whole_seq =~= s@);
        }
    }
    // Whole part: saturating base-10 accumulation over its digits.
    let wlen: usize = dot;
    let mut acc: u64 = 0;
    let ghost mut v: nat = 0nat;
    let mut i: usize = 0;
    proof {
        assert(whole_seq.skip(0) =~= whole_seq);
    }
    while i < wlen
        invariant
            wlen <= s@.len(),
            wlen == whole_seq.len(),
            forall|t: int| 0 <= t < wlen ==> whole_seq[t] == s@[t],
            i <= wlen,
            crate::ballot::parse_digits(whole_seq) == crate::ballot::parse_digits_acc(
                whole_seq.skip(i as int),
                v,
            ),
            acc == if v <= u64::MAX {
                v as u64
            } else {
                u64::MAX
            },
        decreases wlen - i,
    {
        let c: u8 = s[i];
        proof {
            assert(whole_seq.skip(i as int)[0] == whole_seq[i as int]);
            assert(whole_seq.skip(i as int).drop_first() =~= whole_seq.skip(i + 1));
        }
        if c >= 48 && c <= 57 {
            let d: u64 = (c - 48) as u64;
            proof {
                vstd::arithmetic::div_mod::lemma_fundamental_div_mod((u64::MAX - d) as int, 10);
            }
            if acc > (u64::MAX - d) / 10 {
                acc = u64::MAX;
            } else {
                acc = acc * 10 + d;
            }
            proof {
                v = v * 10 + d as nat;
            }
        }
        i = i + 1;
    }
    proof {
        assert(whole_seq.skip(wlen as int) =~= Seq::<u8>::empty());
    }
    // Fraction: the first six digits after the point.
    let ghost frac_seq = if has_dot {
        s@.skip(dot + 1)
    } else {
        Seq::<u8>::empty()
    };
    let mut fd: Vec<u8> = Vec::new();
    if has_dot {
        let mut j: usize = dot + 1;
        proof {
            assert(frac_seq.skip(0) =~= frac_seq);
        }
        while j < s.len() && fd.len() < 6
            invariant
                dot < s@.len(),
                frac_seq == s@.skip(dot + 1),
                dot + 1 <= j <= s@.len(),
                fd@.len() <= 6,
                forall|t: int| 0 <= t < fd@.len() ==> 48 <= #[trigger] fd@[t] <= 57,
                first_digits(frac_seq, 6) == fd@ + first_digits(
                    s@.skip(j as int),
                    (6 - fd@.len()) as nat,
                ),
            decreases s@.len() - j,
        {
            let c: u8 = s[j];
            proof {
                assert(s@.skip(j as int)[0] == s@[j as int]);
                assert(s@.skip(j as int).drop_first() =~= s@.skip(j + 1));
            }
            if c >= 48 && c <= 57 {
                let ghost fd_before = fd@;
                fd.push(c);
                proof {
                    assert(fd@ + first_digits(s@.skip(j + 1), (6 - fd@.len()) as nat)
                        =~= fd_before + (seq![c] + first_digits(
                        s@.skip(j + 1),
                        (6 - fd@.len()) as nat,
                    )));
                }
            }
            j = j + 1;
        }
        proof {
            if j >= s@.len() {
                assert(s@.skip(j as int).len() == 0);
                assert(first_digits(s@.skip(j as int), (6 - fd@.len()) as nat)
                    =~= Seq::<u8>::empty());
            }
            assert(fd@ + Seq::<u8>::empty() =~= fd@);
            assert(first_digits(frac_seq, 6) == fd@);
        }
    } else {
        proof {
            assert(first_digits(frac_seq, 6) =~= Seq::<u8>::empty());
            assert(fd@ =~= first_digits(frac_seq, 6));
        }
    }
    // Scale the fraction up to six digits.
    let pad: u64 = match 6 - fd.len() {
        0 => 1,
        1 => 10,
        2 => 100,
        3 => 1000,
        4 => 10000,
        5 => 100000,
        _ => 1000000,
    };
    proof {
        assert(pow10(0) == 1);
        assert(pow10(1) == 10);
        assert(pow10(2) == 100);
        assert(pow10(3) == 1000);
        assert(pow10(4) == 10000);
        assert(pow10(5) == 100000);
        assert(pow10(6) == 1000000);
        assert(pad == pow10((6 - fd@.len()) as nat));
    }
    let mut fracv: u64 = 0;
    let ghost mut fv: nat = 0nat;
    let mut q: usize = 0;
    proof {
        assert(fd@.skip(0) =~= fd@);
        assert(pow10(0) == 1);
    }
    while q < fd.len()
        invariant
            fd@.len() <= 6,
            forall|t: int| 0 <= t < fd@.len() ==> 48 <= #[trigger] fd@[t] <= 57,
            q <= fd@.len(),
            crate::ballot::parse_digits(fd@) == crate::ballot::parse_digits_acc(
                fd@.skip(q as int),
                fv,
            ),
            fracv == fv,
            fv < pow10(q as nat),
        decreases fd@.len() - q,
    {
        let c: u8 = fd[q];
        proof {
            assert(fd@.skip(q as int)[0] == fd@[q as int]);
            assert(fd@.skip(q as int).drop_first() =~= fd@.skip(q + 1));
            assert(fv * 10 + (c - 48) < pow10((q + 1) as nat)) by (nonlinear_arith)
                requires
                    fv < pow10(q as nat),
                    48 <= c <= 57,
                    pow10((q + 1) as nat) == 10 * pow10(q as nat),
            ;
            lemma_pow10_mono((q + 1) as nat, 6);
            assert(pow10(1) == 10);
            assert(pow10(2) == 100);
            assert(pow10(3) == 1000);
            assert(pow10(4) == 10000);
            assert(pow10(5) == 100000);
            assert(pow10(6) == 1000000);
        }
        fracv = fracv * 10 + ((c - 48) as u64);
        proof {
            fv = fv * 10 + (c - 48) as nat;
        }
        q = q + 1;
    }
    proof {
        assert(fd@.skip(fd@.len() as int) =~= Seq::<u8>::empty());
        lemma_pow10_mono(fd@.len(), 6);
        assert(pow10(6) == 1000000) by {
            assert(pow10(0) == 1);
            assert(pow10(1) == 10);
            assert(pow10(2) == 100);
            assert(pow10(3) == 1000);
            assert(pow10(4) == 10000);
            assert(pow10(5) == 100000);
        }
        assert(fv < 1000000);
    }
    // Combine, saturating at the machine range.
    proof {
        assert((acc as int) * (SCALE as int) <= 0xFFFF_FFFF_FFFF_FFFF * 1000000)
            by (nonlinear_arith)
            requires
                0 <= acc as int <= 0xFFFF_FFFF_FFFF_FFFF,
        ;
        assert((fracv as int) * (pad as int) <= 1000000 * 1000000) by (nonlinear_arith)
            requires
                0 <= fracv as int && (fracv as int) < 1000000,
                0 <= pad as int <= 1000000,
        ;
    }
    let total: u128 = (acc as u128) * (SCALE as u128) + (fracv as u128) * (pad as u128);
    proof {
        let spec_v = crate::ballot::parse_digits(whole_seq) * (SCALE as nat)
            + crate::ballot::parse_digits(fd@) * pow10((6 - fd@.len()) as nat);
        if v <= u64::MAX {
            assert(total as int == spec_v);
        } else {
            assert(acc == u64::MAX);
            assert(total as int >= 0xFFFF_FFFF_FFFF_FFFF * 1000000) by (nonlinear_arith)
                requires
                    total as int >= (acc as int) * (SCALE as int),
                    acc as int == 0xFFFF_FFFF_FFFF_FFFF,
            ;
            assert(spec_v > u64::MAX) by (nonlinear_arith)
                requires
                    spec_v >= v * (SCALE as nat),
                    v > 0xFFFF_FFFF_FFFF_FFFF,
            ;
        }
    }
    if total > u64::MAX as u128 {
        u64::MAX
    } else {
        total as u64
    }
}

proof fn lemma_pow10_mono(a: nat, b: nat)
    requires
        a <= b,
    ensures
        pow10(a) <= pow10(b),
    decreases b,
{
    if a < b {
        lemma_pow10_mono(a, (b - 1) as nat);
        lemma_pow10_pos((b - 1) as nat);
        assert(10 * pow10((b - 1) as nat) >= pow10((b - 1) as nat)) by (nonlinear_arith)
            requires
                pow10((b - 1) as nat) >= 1,
        ;
    }
}


} // verus!
