//! Assembly of the distribution phase's output: special-vote booths are
//! merged into per-division category rows, ordinary booths are sorted by
//! name, and every tally becomes a row of decimal cells.

use crate::booths::{
    byte_views, bytes_eq, bytes_le, contains_sub, dec_bytes, lex_le, spec_dec_bytes, spec_marker,
    spec_marker_name, sum64, BoothInfo, DistError, Interner, TallyRow,
};
use crate::projection::{table_find, zero_cells};
use vstd::prelude::*;

verus! {

/// One merged special-vote tally: a division and category pair.
pub struct SpecialRow {
    pub div: Vec<u8>,
    pub cat: Vec<u8>,
    pub counts: Vec<u64>,
    pub total: u64,
}

pub open spec fn special_view(r: SpecialRow) -> (Seq<u8>, Seq<u8>, Seq<u64>, u64) {
    (r.div@, r.cat@, r.counts@, r.total)
}

pub open spec fn special_views(s: Seq<SpecialRow>) -> Seq<(Seq<u8>, Seq<u8>, Seq<u64>, u64)> {
    Seq::new(s.len(), |i: int| special_view(s[i]))
}

/// First special row keyed by this (division, category) pair.
pub open spec fn special_find(
    s: Seq<(Seq<u8>, Seq<u8>, Seq<u64>, u64)>,
    div: Seq<u8>,
    cat: Seq<u8>,
    i: int,
) -> Option<int>
    decreases s.len() - i,
{
    if i < 0 || i >= s.len() {
        None
    } else if s[i].0 == div && s[i].1 == cat {
        Some(i)
    } else {
        special_find(s, div, cat, i + 1)
    }
}

/// A booth name marks a special-vote collection when it mentions any of
/// the four markers.
pub open spec fn is_special_name(name: Seq<u8>) -> bool {
    exists|w: int| 0 <= w < 4 && contains_sub(name, #[trigger] spec_marker(w))
}

/// Elementwise checked addition of a booth's counts into a category row,
/// plus its total.
pub open spec fn spec_merge_counts(cur: Seq<u64>, add: Seq<u64>, c: int) -> Result<
    Seq<u64>,
    DistError,
>
    decreases c,
{
    if c <= 0 {
        Ok(Seq::<u64>::empty())
    } else {
        match spec_merge_counts(cur, add, c - 1) {
            Err(e) => Err(e),
            Ok(pre) => {
                if 0 <= c - 1 < cur.len() && 0 <= c - 1 < add.len() && cur[c - 1] + add[c - 1]
                    <= u64::MAX {
                    Ok(pre.push((cur[c - 1] + add[c - 1]) as u64))
                } else {
                    Err(DistError::CountOverflow)
                }
            },
        }
    }
}

/// Merging one special booth into the category rows: an entry is created
/// for each marker tried, and the booth's counts land on the first
/// marker its name mentions.
pub open spec fn spec_specials_step(
    sp: Seq<(Seq<u8>, Seq<u8>, Seq<u64>, u64)>,
    div: Seq<u8>,
    name: Seq<u8>,
    counts: Seq<u64>,
    total: u64,
    n_cells: int,
    w: int,
) -> Result<Seq<(Seq<u8>, Seq<u8>, Seq<u64>, u64)>, DistError>
    decreases 4 - w,
{
    if w >= 4 {
        Ok(sp)
    } else {
        let cat = spec_marker_name(w);
        let sp1 = match special_find(sp, div, cat, 0) {
            Some(_) => sp,
            None => sp.push((div, cat, zero_cells(n_cells), 0u64)),
        };
        if contains_sub(name, spec_marker(w)) {
            let i = special_find(sp1, div, cat, 0).unwrap();
            match spec_merge_counts(sp1[i].2, counts, n_cells) {
                Err(e) => Err(e),
                Ok(nc) => {
                    if sp1[i].3 + total <= u64::MAX {
                        Ok(sp1.update(i, (div, cat, nc, (sp1[i].3 + total) as u64)))
                    } else {
                        Err(DistError::CountOverflow)
                    }
                },
            }
        } else {
            spec_specials_step(sp1, div, name, counts, total, n_cells, w + 1)
        }
    }
}

/// The whole aggregation as a fold over the tally rows: special booths
/// are merged per division and category, ordinary booths kept.
pub open spec fn spec_aggregate(
    rows: Seq<TallyRow>,
    syms: Seq<Seq<u8>>,
    n_cells: int,
    i: int,
) -> Result<(Seq<TallyRow>, Seq<(Seq<u8>, Seq<u8>, Seq<u64>, u64)>), DistError>
    decreases i,
{
    if i <= 0 {
        Ok((Seq::<TallyRow>::empty(), Seq::<(Seq<u8>, Seq<u8>, Seq<u64>, u64)>::empty()))
    } else {
        match spec_aggregate(rows, syms, n_cells, i - 1) {
            Err(e) => Err(e),
            Ok(state) => {
                let row = rows[i - 1];
                let name = syms[row.booth as int];
                match spec_specials_step(
                    state.1,
                    syms[row.div as int],
                    name,
                    row.counts@,
                    row.total,
                    n_cells,
                    0,
                ) {
                    Err(e) => Err(e),
                    Ok(sp) => Ok(
                        (
                            if is_special_name(name) {
                                state.0
                            } else {
                                state.0.push(row)
                            },
                            sp,
                        ),
                    ),
                }
            },
        }
    }
}

/// Aggregate the special-vote booths by division, removing them from the
/// ordinary booth tallies.
#[verifier::loop_isolation(false)]
pub fn aggregate_specials(rows: Vec<TallyRow>, interner: &Interner, n_cells: usize) -> (r: Result<
    (Vec<TallyRow>, Vec<SpecialRow>),
    DistError,
>)
    requires
        forall|t: int|
            0 <= t < rows@.len() ==> (#[trigger] rows@[t]).div < interner.symbols().len()
                && rows@[t].booth < interner.symbols().len(),
        forall|t: int| 0 <= t < rows@.len() ==> (#[trigger] rows@[t]).counts@.len() == n_cells,
    ensures
        match r {
            Ok((rem, sp)) => Ok::<_, DistError>((rem@, special_views(sp@))) == spec_aggregate(
                rows@,
                interner.symbols(),
                n_cells as int,
                rows@.len() as int,
            ),
            Err(e) => Err::<(Seq<TallyRow>, Seq<(Seq<u8>, Seq<u8>, Seq<u64>, u64)>), DistError>(e)
                == spec_aggregate(rows@, interner.symbols(), n_cells as int, rows@.len() as int),
        },
{
    let ghost all = rows@;
    let ghost syms = interner.symbols();
    let mut rows = rows;
    let n_rows: usize = rows.len();
    proof {
        assert(all.len() == n_rows);
    }
    let mut rem: Vec<TallyRow> = Vec::new();
    let mut sp: Vec<SpecialRow> = Vec::new();
    let mut i: usize = 0;
    proof {
        assert(special_views(sp@) =~= Seq::<(Seq<u8>, Seq<u8>, Seq<u64>, u64)>::empty());
        assert(rem@ =~= Seq::<TallyRow>::empty());
    }
    while rows.len() > 0
        invariant
            syms == interner.symbols(),
            i == all.len() - rows@.len(),
            0 <= i <= all.len(),
            all.len() <= usize::MAX,
            forall|t: int| 0 <= t < rows@.len() ==> #[trigger] rows@[t] == all[i + t],
            forall|t: int|
                0 <= t < all.len() ==> (#[trigger] all[t]).div < syms.len() && all[t].booth
                    < syms.len(),
            forall|t: int| 0 <= t < all.len() ==> (#[trigger] all[t]).counts@.len() == n_cells,
            Ok::<_, DistError>((rem@, special_views(sp@))) == spec_aggregate(
                all,
                syms,
                n_cells as int,
                i as int,
            ),
        decreases rows@.len(),
    {
        let row: TallyRow = rows.remove(0);
        proof {
            assert(row == all[i as int]);
            assert(forall|t: int| 0 <= t < rows@.len() ==> #[trigger] rows@[t] == all[i + 1 + t]);
        }
        let name: &Vec<u8> = interner.resolve(row.booth);
        let div_name: &Vec<u8> = interner.resolve(row.div);
        // Which marker, if any, does the booth name mention first?
        let mut matched: bool = false;
        let mut w: usize = 0;
        let ghost sp_start = special_views(sp@);
        while w < 4 && !matched
            invariant
                syms == interner.symbols(),
                i < all.len(),
                all.len() <= usize::MAX,
                row == all[i as int],
                name@ == syms[row.booth as int],
                div_name@ == syms[row.div as int],
                row.counts@.len() == n_cells,
                w <= 4,
                Ok::<_, DistError>((rem@, sp_start)) == spec_aggregate(
                    all,
                    syms,
                    n_cells as int,
                    i as int,
                ),
                !matched ==> spec_specials_step(
                    sp_start,
                    div_name@,
                    name@,
                    row.counts@,
                    row.total,
                    n_cells as int,
                    0,
                ) == spec_specials_step(
                    special_views(sp@),
                    div_name@,
                    name@,
                    row.counts@,
                    row.total,
                    n_cells as int,
                    w as int,
                ),
                !matched ==> forall|w2: int|
                    0 <= w2 < w ==> !contains_sub(name@, #[trigger] spec_marker(w2)),
                matched ==> Ok::<_, DistError>(special_views(sp@)) == spec_specials_step(
                    sp_start,
                    div_name@,
                    name@,
                    row.counts@,
                    row.total,
                    n_cells as int,
                    0,
                ) && is_special_name(name@),
            decreases 4 - w + (if matched {
                0int
            } else {
                1int
            }),
        {
            let cat: Vec<u8> = crate::booths::non_booth_convert(w);
            let marker: Vec<u8> = crate::booths::marker_bytes(w);
            let ghost sp_before = special_views(sp@);
            // Create this (division, category) row if it is new.
            let mut fi: usize = 0;
            let mut found: bool = false;
            while fi < sp.len() && !found
                invariant
                    sp_before == special_views(sp@),
                    fi <= sp@.len(),
                    found ==> fi < sp@.len() && sp_before[fi as int].0 == div_name@
                        && sp_before[fi as int].1 == cat@,
                    special_find(sp_before, div_name@, cat@, 0) == special_find(
                        sp_before,
                        div_name@,
                        cat@,
                        fi as int,
                    ),
                decreases sp@.len() - fi + (if found {
                    0int
                } else {
                    1int
                }),
            {
                proof {
                    assert(special_views(sp@)[fi as int] == special_view(sp@[fi as int]));
                }
                if bytes_eq(&sp[fi].div, div_name) && bytes_eq(&sp[fi].cat, &cat) {
                    found = true;
                } else {
                    fi = fi + 1;
                }
            }
            if !found {
                let mut zeros: Vec<u64> = Vec::new();
                let mut c: usize = 0;
                while c < n_cells
                    invariant
                        c <= n_cells,
                        zeros@.len() == c,
                        forall|t: int| 0 <= t < c ==> #[trigger] zeros@[t] == 0u64,
                    decreases n_cells - c,
                {
                    zeros.push(0);
                    c = c + 1;
                }
                proof {
                    assert(zeros@ =~= zero_cells(n_cells as int));
                }
                fi = sp.len();
                let ghost prev = sp@;
                sp.push(
                    SpecialRow {
                        div: crate::utils::copy_bytes(div_name),
                        cat: crate::utils::copy_bytes(&cat),
                        counts: zeros,
                        total: 0,
                    },
                );
                proof {
                    assert forall|t: int| 0 <= t < sp@.len() implies special_views(sp@)[t]
                        == sp_before.push(
                        (div_name@, cat@, zero_cells(n_cells as int), 0u64),
                    )[t] by {
                        if t < prev.len() {
                            assert(sp@[t] == prev[t]);
                            assert(sp_before[t] == special_view(prev[t]));
                        }
                    }
                    assert(special_views(sp@) =~= sp_before.push(
                        (div_name@, cat@, zero_cells(n_cells as int), 0u64),
                    ));
                    assert(special_views(sp@)[fi as int].0 == div_name@);
                    assert(special_views(sp@)[fi as int].1 == cat@);
                }
            }
            let ghost sp_created = special_views(sp@);
            proof {
                if found {
                    assert(special_find(sp_before, div_name@, cat@, fi as int) == Some(fi as int));
                    assert(sp_created == sp_before);
                } else {
                    assert(special_find(sp_before, div_name@, cat@, sp_before.len() as int)
                        is None);
                    assert(special_find(sp_created, div_name@, cat@, 0) == Some(fi as int)) by {
                        lemma_special_find_push(
                            sp_before,
                            (div_name@, cat@, zero_cells(n_cells as int), 0u64),
                            0,
                        );
                    }
                }
                assert(special_find(sp_created, div_name@, cat@, 0) == Some(fi as int));
                assert(sp_created[fi as int].0 == div_name@);
                assert(sp_created[fi as int].1 == cat@);
            }
            if crate::booths::bytes_contains(name, &marker) {
                // Merge this booth's counts into the category row.
                let target: &SpecialRow = &sp[fi];
                let mut merged: Vec<u64> = Vec::new();
                let mut c: usize = 0;
                let mut over: bool = false;
                while c < n_cells && !over
                    invariant
                        fi < sp@.len(),
                        sp_created == special_views(sp@),
                        target == sp@[fi as int],
                        target.counts@ == sp_created[fi as int].2,
                        row.counts@.len() == n_cells,
                        c <= n_cells,
                        !over ==> Ok::<_, DistError>(merged@) == spec_merge_counts(
                            sp_created[fi as int].2,
                            row.counts@,
                            c as int,
                        ),
                        over ==> spec_merge_counts(
                            sp_created[fi as int].2,
                            row.counts@,
                            n_cells as int,
                        ) == Err::<Seq<u64>, DistError>(DistError::CountOverflow),
                    decreases n_cells - c + (if over {
                        0int
                    } else {
                        1int
                    }),
                {
                    if c >= target.counts.len() {
                        over = true;
                        proof {
                            assert(spec_merge_counts(
                                sp_created[fi as int].2,
                                row.counts@,
                                c + 1,
                            ) == Err::<Seq<u64>, DistError>(DistError::CountOverflow));
                            lemma_merge_err(
                                sp_created[fi as int].2,
                                row.counts@,
                                c + 1,
                                n_cells as int,
                            );
                        }
                    } else {
                        let a: u64 = target.counts[c];
                        let b: u64 = row.counts[c];
                        if a as u128 + b as u128 > u64::MAX as u128 {
                            over = true;
                            proof {
                                assert(spec_merge_counts(
                                    sp_created[fi as int].2,
                                    row.counts@,
                                    c + 1,
                                ) == Err::<Seq<u64>, DistError>(DistError::CountOverflow));
                                lemma_merge_err(
                                    sp_created[fi as int].2,
                                    row.counts@,
                                    c + 1,
                                    n_cells as int,
                                );
                            }
                        } else {
                            merged.push(a + b);
                            proof {
                                assert(merged@ =~= spec_merge_counts(
                                    sp_created[fi as int].2,
                                    row.counts@,
                                    c + 1,
                                ).unwrap());
                            }
                            c = c + 1;
                        }
                    }
                }
                if over {
                    proof {
                        assert(cat@ == spec_marker_name(w as int));
                        assert(contains_sub(name@, spec_marker(w as int)));
                        assert(special_find(sp_created, div_name@, spec_marker_name(w as int), 0)
                            == Some(fi as int));
                        let ghost sp1 = match special_find(
                            sp_created,
                            div_name@,
                            spec_marker_name(w as int),
                            0,
                        ) {
                            Some(_) => sp_created,
                            None => sp_created.push(
                                (
                                    div_name@,
                                    spec_marker_name(w as int),
                                    zero_cells(n_cells as int),
                                    0u64,
                                ),
                            ),
                        };
                        assert(sp1 == sp_created);
                        assert(spec_specials_step(
                            sp_created,
                            div_name@,
                            name@,
                            row.counts@,
                            row.total,
                            n_cells as int,
                            w as int,
                        ) == Err::<Seq<(Seq<u8>, Seq<u8>, Seq<u64>, u64)>, DistError>(
                            DistError::CountOverflow,
                        ));
                        assert(spec_specials_step(
                            sp_before,
                            div_name@,
                            name@,
                            row.counts@,
                            row.total,
                            n_cells as int,
                            w as int,
                        ) == Err::<Seq<(Seq<u8>, Seq<u8>, Seq<u64>, u64)>, DistError>(
                            DistError::CountOverflow,
                        ));
                        assert(spec_specials_step(
                            sp_start,
                            div_name@,
                            name@,
                            row.counts@,
                            row.total,
                            n_cells as int,
                            0,
                        ) == Err::<Seq<(Seq<u8>, Seq<u8>, Seq<u64>, u64)>, DistError>(
                            DistError::CountOverflow,
                        ));
                        assert(spec_aggregate(all, syms, n_cells as int, i + 1) == Err::<
                            (Seq<TallyRow>, Seq<(Seq<u8>, Seq<u8>, Seq<u64>, u64)>),
                            DistError,
                        >(DistError::CountOverflow));
                        lemma_aggregate_err(all, syms, n_cells as int, i + 1, all.len() as int);
                    }
                    return Err(DistError::CountOverflow);
                }
                let new_total_wide: u128 = sp[fi].total as u128 + row.total as u128;
                if new_total_wide > u64::MAX as u128 {
                    proof {
                        assert(cat@ == spec_marker_name(w as int));
                        assert(contains_sub(name@, spec_marker(w as int)));
                        assert(special_find(sp_created, div_name@, spec_marker_name(w as int), 0)
                            == Some(fi as int));
                        let ghost sp1 = match special_find(
                            sp_created,
                            div_name@,
                            spec_marker_name(w as int),
                            0,
                        ) {
                            Some(_) => sp_created,
                            None => sp_created.push(
                                (
                                    div_name@,
                                    spec_marker_name(w as int),
                                    zero_cells(n_cells as int),
                                    0u64,
                                ),
                            ),
                        };
                        assert(sp1 == sp_created);
                        assert(spec_merge_counts(sp_created[fi as int].2, row.counts@,
                            n_cells as int) == Ok::<Seq<u64>, DistError>(merged@));
                        assert(sp_created[fi as int].3 == sp@[fi as int].total);
                        assert(spec_specials_step(
                            sp_created,
                            div_name@,
                            name@,
                            row.counts@,
                            row.total,
                            n_cells as int,
                            w as int,
                        ) == Err::<Seq<(Seq<u8>, Seq<u8>, Seq<u64>, u64)>, DistError>(
                            DistError::CountOverflow,
                        ));
                        assert(spec_specials_step(
                            sp_before,
                            div_name@,
                            name@,
                            row.counts@,
                            row.total,
                            n_cells as int,
                            w as int,
                        ) == Err::<Seq<(Seq<u8>, Seq<u8>, Seq<u64>, u64)>, DistError>(
                            DistError::CountOverflow,
                        ));
                        assert(spec_specials_step(
                            sp_start,
                            div_name@,
                            name@,
                            row.counts@,
                            row.total,
                            n_cells as int,
                            0,
                        ) == Err::<Seq<(Seq<u8>, Seq<u8>, Seq<u64>, u64)>, DistError>(
                            DistError::CountOverflow,
                        ));
                        assert(spec_aggregate(all, syms, n_cells as int, i + 1) == Err::<
                            (Seq<TallyRow>, Seq<(Seq<u8>, Seq<u8>, Seq<u64>, u64)>),
                            DistError,
                        >(DistError::CountOverflow));
                        lemma_aggregate_err(all, syms, n_cells as int, i + 1, all.len() as int);
                    }
                    return Err(DistError::CountOverflow);
                }
                let new_total: u64 = new_total_wide as u64;
                let ghost prev = sp@;
                let new_row = SpecialRow {
                    div: crate::utils::copy_bytes(div_name),
                    cat: crate::utils::copy_bytes(&cat),
                    counts: merged,
                    total: new_total,
                };
                sp.set(fi, new_row);
                proof {
                    assert forall|t: int| 0 <= t < sp@.len() implies special_views(sp@)[t]
                        == sp_created.update(
                        fi as int,
                        (div_name@, cat@, special_views(sp@)[fi as int].2, new_total),
                    )[t] by {
                        if t != fi {
                            assert(sp@[t] == prev[t]);
                            assert(sp_created[t] == special_view(prev[t]));
                        }
                    }
                    assert(special_views(sp@) =~= sp_created.update(
                        fi as int,
                        (div_name@, cat@, special_views(sp@)[fi as int].2, new_total),
                    ));
                    assert(special_views(sp@)[fi as int].2 == merged@);
                    assert(spec_merge_counts(
                        sp_created[fi as int].2,
                        row.counts@,
                        n_cells as int,
                    ) == Ok::<Seq<u64>, DistError>(merged@));
                    assert(spec_specials_step(
                        sp_before,
                        div_name@,
                        name@,
                        row.counts@,
                        row.total,
                        n_cells as int,
                        w as int,
                    ) == Ok::<Seq<(Seq<u8>, Seq<u8>, Seq<u64>, u64)>, DistError>(
                        special_views(sp@),
                    ));
                    assert(spec_specials_step(
                        sp_start,
                        div_name@,
                        name@,
                        row.counts@,
                        row.total,
                        n_cells as int,
                        0,
                    ) == Ok::<Seq<(Seq<u8>, Seq<u8>, Seq<u64>, u64)>, DistError>(
                        special_views(sp@),
                    ));
                }
                matched = true;
            } else {
                proof {
                    assert(spec_specials_step(
                        sp_before,
                        div_name@,
                        name@,
                        row.counts@,
                        row.total,
                        n_cells as int,
                        w as int,
                    ) == spec_specials_step(
                        sp_created,
                        div_name@,
                        name@,
                        row.counts@,
                        row.total,
                        n_cells as int,
                        w + 1,
                    ));
                }
                w = w + 1;
            }
        }
        if matched {
            proof {
                assert(Ok::<_, DistError>((rem@, special_views(sp@))) == spec_aggregate(
                    all,
                    syms,
                    n_cells as int,
                    i + 1,
                ));
            }
        } else {
            proof {
                assert(!is_special_name(name@)) by {
                    if is_special_name(name@) {
                        let w2 = choose|w2: int|
                            0 <= w2 < 4 && contains_sub(name@, #[trigger] spec_marker(w2));
                    }
                }
                assert(spec_specials_step(
                    special_views(sp@),
                    div_name@,
                    name@,
                    row.counts@,
                    row.total,
                    n_cells as int,
                    4,
                ) == Ok::<Seq<(Seq<u8>, Seq<u8>, Seq<u64>, u64)>, DistError>(special_views(sp@)));
                assert(spec_specials_step(
                    sp_start,
                    div_name@,
                    name@,
                    row.counts@,
                    row.total,
                    n_cells as int,
                    0,
                ) == Ok::<Seq<(Seq<u8>, Seq<u8>, Seq<u64>, u64)>, DistError>(special_views(sp@)));
            }
            let ghost rem_before = rem@;
            rem.push(row);
            proof {
                assert(rem@ =~= rem_before.push(all[i as int]));
                assert(Ok::<_, DistError>((rem@, special_views(sp@))) == spec_aggregate(
                    all,
                    syms,
                    n_cells as int,
                    i + 1,
                ));
            }
        }
        i = i + 1;
    }
    Ok((rem, sp))
}

proof fn lemma_special_find_push(
    s: Seq<(Seq<u8>, Seq<u8>, Seq<u64>, u64)>,
    x: (Seq<u8>, Seq<u8>, Seq<u64>, u64),
    i: int,
)
    requires
        0 <= i <= s.len(),
        special_find(s, x.0, x.1, i) is None,
    ensures
        special_find(s.push(x), x.0, x.1, i) == Some(s.len() as int),
    decreases s.len() - i,
{
    if i == s.len() {
        assert(s.push(x)[i] == x);
    } else {
        assert(s.push(x)[i] == s[i]);
        lemma_special_find_push(s, x, i + 1);
    }
}

proof fn lemma_merge_err(cur: Seq<u64>, add: Seq<u64>, i: int, j: int)
    requires
        0 < i <= j,
        spec_merge_counts(cur, add, i) is Err,
    ensures
        spec_merge_counts(cur, add, j) == spec_merge_counts(cur, add, i),
    decreases j - i,
{
    if i < j {
        lemma_merge_err(cur, add, i + 1, j);
    }
}

proof fn lemma_aggregate_err(rows: Seq<TallyRow>, syms: Seq<Seq<u8>>, n_cells: int, i: int, j: int)
    requires
        0 <= i <= j,
        spec_aggregate(rows, syms, n_cells, i) is Err,
    ensures
        spec_aggregate(rows, syms, n_cells, j) == spec_aggregate(rows, syms, n_cells, i),
    decreases j - i,
{
    if i < j {
        lemma_aggregate_err(rows, syms, n_cells, i, j - 1);
    }
}


/// The element-wise views of a sequence of output rows.
pub open spec fn row_views(s: Seq<Vec<Vec<u8>>>) -> Seq<Seq<Seq<u8>>> {
    Seq::new(s.len(), |i: int| byte_views(s[i]@))
}

/// Output-row order: by the division cell, then the booth cell.
pub open spec fn row_le(a: Seq<Seq<u8>>, b: Seq<Seq<u8>>) -> bool {
    if a[1] != b[1] {
        lex_le(a[1], b[1])
    } else {
        lex_le(a[2], b[2])
    }
}

/// Where an output row belongs among those already sorted.
pub open spec fn row_ins_pos(s: Seq<Seq<Seq<u8>>>, x: Seq<Seq<u8>>) -> int
    decreases s.len(),
{
    if s.len() == 0 {
        0
    } else if row_le(s[0], x) {
        1 + row_ins_pos(s.drop_first(), x)
    } else {
        0
    }
}

/// Insertion sort of output rows by (division, booth) cells.
pub open spec fn row_ins_sort(s: Seq<Seq<Seq<u8>>>) -> Seq<Seq<Seq<u8>>>
    decreases s.len(),
{
    if s.len() == 0 {
        s
    } else {
        let sorted = row_ins_sort(s.drop_last());
        sorted.insert(row_ins_pos(sorted, s.last()), s.last())
    }
}

proof fn lemma_row_ins_pos_range(s: Seq<Seq<Seq<u8>>>, x: Seq<Seq<u8>>)
    ensures
        0 <= row_ins_pos(s, x) <= s.len(),
    decreases s.len(),
{
    if s.len() > 0 {
        lemma_row_ins_pos_range(s.drop_first(), x);
    }
}

/// Sort output rows by their division and booth cells.
#[verifier::loop_isolation(false)]
pub fn sort_rows(rows: Vec<Vec<Vec<u8>>>) -> (r: Vec<Vec<Vec<u8>>>)
    requires
        forall|t: int| 0 <= t < rows@.len() ==> (#[trigger] rows@[t])@.len() >= 3,
    ensures
        row_views(r@) == row_ins_sort(row_views(rows@)),
{
    let ghost orig = row_views(rows@);
    let mut rows = rows;
    let n_rows: usize = rows.len();
    let mut out: Vec<Vec<Vec<u8>>> = Vec::new();
    let mut i: usize = 0;
    proof {
        assert(orig.len() == n_rows);
        assert(row_views(out@) =~= row_ins_sort(orig.take(0)));
    }
    while rows.len() > 0
        invariant
            i == orig.len() - rows@.len(),
            0 <= i <= orig.len(),
            forall|t: int| 0 <= t < rows@.len() ==> byte_views((#[trigger] rows@[t])@) == orig[i
                + t] && rows@[t]@.len() >= 3,
            row_views(out@) == row_ins_sort(orig.take(i as int)),
            forall|t: int| 0 <= t < out@.len() ==> (#[trigger] out@[t])@.len() >= 3,
        decreases rows@.len(),
    {
        let ghost out_before = row_views(out@);
        let x: Vec<Vec<u8>> = rows.remove(0);
        proof {
            assert(byte_views(x@) == orig[i as int]);
            assert(forall|t: int|
                0 <= t < rows@.len() ==> byte_views((#[trigger] rows@[t])@) == orig[i + 1 + t]
                    && rows@[t]@.len() >= 3);
            lemma_row_ins_pos_range(out_before, byte_views(x@));
            assert(out_before.skip(0) =~= out_before);
        }
        let mut pos: usize = 0;
        let mut stop: bool = false;
        while pos < out.len() && !stop
            invariant
                pos <= out@.len(),
                row_ins_pos(out_before, byte_views(x@)) == pos + row_ins_pos(
                    out_before.skip(pos as int),
                    byte_views(x@),
                ),
                stop ==> pos < out@.len() && !row_le(out_before[pos as int], byte_views(x@)),
            decreases out@.len() - pos + (if stop {
                0int
            } else {
                1int
            }),
        {
            proof {
                assert(out_before.skip(pos as int)[0] == out_before[pos as int]);
                assert(out_before.skip(pos as int).drop_first() =~= out_before.skip(pos + 1));
                assert(row_views(out@)[pos as int] == byte_views(out@[pos as int]@));
                assert(byte_views(out@[pos as int]@)[1] == out@[pos as int]@[1]@);
                assert(byte_views(out@[pos as int]@)[2] == out@[pos as int]@[2]@);
                assert(byte_views(x@)[1] == x@[1]@);
                assert(byte_views(x@)[2] == x@[2]@);
            }
            let cur: &Vec<Vec<u8>> = &out[pos];
            let le: bool = if !bytes_eq(&cur[1], &x[1]) {
                bytes_le(&cur[1], &x[1])
            } else {
                bytes_le(&cur[2], &x[2])
            };
            if !le {
                stop = true;
            } else {
                pos = pos + 1;
            }
        }
        proof {
            if stop {
                assert(out_before.skip(pos as int)[0] == out_before[pos as int]);
                assert(row_ins_pos(out_before.skip(pos as int), byte_views(x@)) == 0);
            } else {
                assert(out_before.skip(pos as int).len() == 0);
            }
            assert(row_ins_pos(out_before, byte_views(x@)) == pos as int);
        }
        let ghost prev = out@;
        let ghost xv = byte_views(x@);
        out.insert(pos, x);
        proof {
            assert forall|t: int| 0 <= t < out@.len() implies row_views(out@)[t]
                == out_before.insert(pos as int, xv)[t] by {
                if t < pos {
                    assert(out@[t] == prev[t]);
                    assert(out_before[t] == byte_views(prev[t]@));
                } else if t == pos {
                    assert(out@[t] == prev.insert(pos as int, out@[pos as int])[t]);
                } else {
                    assert(out@[t] == prev[t - 1]);
                    assert(out_before[t - 1] == byte_views(prev[t - 1]@));
                }
            }
            assert(row_views(out@) =~= out_before.insert(pos as int, xv));
            assert(orig.take(i + 1).drop_last() =~= orig.take(i as int));
            assert(orig.take(i + 1).last() == orig[i as int]);
            assert(row_views(out@) =~= row_ins_sort(orig.take(i + 1)));
        }
        i = i + 1;
    }
    proof {
        assert(orig.take(orig.len() as int) =~= orig);
    }
    out
}

/// The decimal cells of a tally: one per count.
pub open spec fn spec_dec_cells(counts: Seq<u64>) -> Seq<Seq<u8>> {
    Seq::new(counts.len(), |c: int| spec_dec_bytes(counts[c] as nat))
}

/// One formatted output row: the metadata cells, a decimal cell per
/// count, and the decimal total.
pub open spec fn spec_format_row(meta: Seq<Seq<u8>>, counts: Seq<u64>, total: u64) -> Seq<
    Seq<u8>,
> {
    meta + spec_dec_cells(counts) + seq![spec_dec_bytes(total as nat)]
}

/// Format a row from its metadata cells and counts.
#[verifier::loop_isolation(false)]
pub fn format_row(meta: Vec<Vec<u8>>, counts: &Vec<u64>, total: u64) -> (r: Vec<Vec<u8>>)
    ensures
        byte_views(r@) == spec_format_row(byte_views(meta@), counts@, total),
{
    let ghost mviews = byte_views(meta@);
    let mut r: Vec<Vec<u8>> = meta;
    let mut c: usize = 0;
    while c < counts.len()
        invariant
            c <= counts@.len(),
            byte_views(r@) == mviews + spec_dec_cells(counts@).take(c as int),
        decreases counts@.len() - c,
    {
        let ghost prev = r@;
        r.push(dec_bytes(counts[c]));
        proof {
            crate::booths::lemma_byte_views_push(
                prev,
                r@,
                spec_dec_bytes(counts@[c as int] as nat),
            );
            assert(byte_views(r@) =~= mviews + spec_dec_cells(counts@).take(c + 1));
        }
        c = c + 1;
    }
    let ghost prev = r@;
    r.push(dec_bytes(total));
    proof {
        crate::booths::lemma_byte_views_push(prev, r@, spec_dec_bytes(total as nat));
        assert(spec_dec_cells(counts@).take(counts@.len() as int) =~= spec_dec_cells(counts@));
        assert(byte_views(r@) =~= spec_format_row(mviews, counts@, total));
    }
    r
}

/// The output header: the five fixed columns, one column per ordering
/// label, and the total.
pub open spec fn spec_header(labels: Seq<Seq<u8>>) -> Seq<Seq<u8>> {
    seq![
        seq![73u8, 68u8],
        seq![68u8, 105u8, 118u8, 105u8, 115u8, 105u8, 111u8, 110u8],
        seq![66u8, 111u8, 111u8, 116u8, 104u8],
        seq![76u8, 97u8, 116u8, 105u8, 116u8, 117u8, 100u8, 101u8],
        seq![76u8, 111u8, 110u8, 103u8, 105u8, 116u8, 117u8, 100u8, 101u8],
    ] + labels + seq![seq![84u8, 111u8, 116u8, 97u8, 108u8]]
}

/// One of the fixed header cells, by position: ID, Division, Booth,
/// Latitude, Longitude, and lastly Total.
pub open spec fn spec_header_cell(which: int) -> Seq<u8> {
    if which == 0 {
        seq![73u8, 68u8]
    } else if which == 1 {
        seq![68u8, 105u8, 118u8, 105u8, 115u8, 105u8, 111u8, 110u8]
    } else if which == 2 {
        seq![66u8, 111u8, 111u8, 116u8, 104u8]
    } else if which == 3 {
        seq![76u8, 97u8, 116u8, 105u8, 116u8, 117u8, 100u8, 101u8]
    } else if which == 4 {
        seq![76u8, 111u8, 110u8, 103u8, 105u8, 116u8, 117u8, 100u8, 101u8]
    } else {
        seq![84u8, 111u8, 116u8, 97u8, 108u8]
    }
}

fn header_cell(which: usize) -> (r: Vec<u8>)
    requires
        which <= 5,
    ensures
        r@ == spec_header_cell(which as int),
{
    let mut v: Vec<u8> = Vec::new();
    if which == 0 {
        v.push(73);
        v.push(68);
    } else if which == 1 {
        v.push(68);
        v.push(105);
        v.push(118);
        v.push(105);
        v.push(115);
        v.push(105);
        v.push(111);
        v.push(110);
    } else if which == 2 {
        v.push(66);
        v.push(111);
        v.push(111);
        v.push(116);
        v.push(104);
    } else if which == 3 {
        v.push(76);
        v.push(97);
        v.push(116);
        v.push(105);
        v.push(116);
        v.push(117);
        v.push(100);
        v.push(101);
    } else if which == 4 {
        v.push(76);
        v.push(111);
        v.push(110);
        v.push(103);
        v.push(105);
        v.push(116);
        v.push(117);
        v.push(100);
        v.push(101);
    } else {
        v.push(84);
        v.push(111);
        v.push(116);
        v.push(97);
        v.push(108);
    }
    proof {
        assert(v@ =~= spec_header_cell(which as int));
    }
    v
}

/// Assemble the distribution phase's output rows: the header, the
/// ordinary booths sorted by division and booth name, then the merged
/// special-vote categories sorted by division and category.
///
/// A tallied booth missing from the polling-place reference is an
/// inconsistency between the input files and aborts the run.
#[verifier::loop_isolation(false)]
pub fn write_output(
    rows: &Vec<TallyRow>,
    specials: &Vec<SpecialRow>,
    booths: &Vec<BoothInfo>,
    interner: &Interner,
    labels: &Vec<Vec<u8>>,
) -> (r: Result<Vec<Vec<Vec<u8>>>, DistError>)
    requires
        forall|t: int|
            0 <= t < rows@.len() ==> (#[trigger] rows@[t]).div < interner.symbols().len()
                && rows@[t].booth < interner.symbols().len(),
        forall|t: int| 0 <= t < rows@.len() ==> (#[trigger] rows@[t]).total == sum64(
            rows@[t].counts@,
        ),
        forall|t: int| 0 <= t < specials@.len() ==> (#[trigger] specials@[t]).total == sum64(
            specials@[t].counts@,
        ),
    ensures
        match r {
            Ok(out) => {
                &&& out@.len() == 1 + rows@.len() + specials@.len()
                &&& forall|t: int|
                    0 <= t < rows@.len() ==> crate::projection::booth_find(
                        Seq::new(
                            booths@.len(),
                            |b: int|
                                (
                                    booths@[b].record.division_nm@,
                                    booths@[b].record.polling_place_nm@,
                                    Seq::<u64>::empty(),
                                ),
                        ),
                        interner.symbols()[(#[trigger] rows@[t]).div as int],
                        interner.symbols()[rows@[t].booth as int],
                        0,
                    ) is Some
                &&& byte_views(out@[0]@) == spec_header(byte_views(labels@))
                &&& row_views(out@.subrange(1, 1 + rows@.len() as int)) == row_ins_sort(
                    Seq::new(rows@.len(), |t: int| spec_booth_row(rows@[t], booths@, interner.symbols())),
                )
                &&& row_views(out@.subrange(1 + rows@.len() as int, out@.len() as int))
                    == row_ins_sort(
                    Seq::new(specials@.len(), |t: int| spec_special_row(special_view(specials@[t]))),
                )
            },
            Err(e) => {
                &&& e == DistError::UnknownBooth
                &&& exists|t: int|
                    0 <= t < rows@.len() && crate::projection::booth_find(
                        Seq::new(
                            booths@.len(),
                            |b: int|
                                (
                                    booths@[b].record.division_nm@,
                                    booths@[b].record.polling_place_nm@,
                                    Seq::<u64>::empty(),
                                ),
                        ),
                        interner.symbols()[(#[trigger] rows@[t]).div as int],
                        interner.symbols()[rows@[t].booth as int],
                        0,
                    ) is None
            },
        },
{
    let ghost syms = interner.symbols();
    let ghost bmeta = Seq::new(
        booths@.len(),
        |b: int|
            (
                booths@[b].record.division_nm@,
                booths@[b].record.polling_place_nm@,
                Seq::<u64>::empty(),
            ),
    );
    // Format the ordinary booth rows.
    let mut formatted: Vec<Vec<Vec<u8>>> = Vec::new();
    let mut t: usize = 0;
    while t < rows.len()
        invariant
            t <= rows@.len(),
            formatted@.len() == t,
            forall|t2: int|
                0 <= t2 < t ==> byte_views((#[trigger] formatted@[t2])@) == spec_booth_row(
                    rows@[t2],
                    booths@,
                    syms,
                ) && formatted@[t2]@.len() >= 3,
            forall|t2: int|
                0 <= t2 < t ==> crate::projection::booth_find(
                    bmeta,
                    syms[(#[trigger] rows@[t2]).div as int],
                    syms[rows@[t2].booth as int],
                    0,
                ) is Some,
        decreases rows@.len() - t,
    {
        let row: &TallyRow = &rows[t];
        let div_name: &Vec<u8> = interner.resolve(row.div);
        let booth_name: &Vec<u8> = interner.resolve(row.booth);
        // Find the booth's reference record.
        let mut b: usize = 0;
        let mut found: bool = false;
        while b < booths.len() && !found
            invariant
                b <= booths@.len(),
                found ==> b < booths@.len() && booths@[b as int].record.division_nm@ == div_name@
                    && booths@[b as int].record.polling_place_nm@ == booth_name@,
                crate::projection::booth_find(bmeta, div_name@, booth_name@, 0)
                    == crate::projection::booth_find(bmeta, div_name@, booth_name@, b as int),
            decreases booths@.len() - b + (if found {
                0int
            } else {
                1int
            }),
        {
            proof {
                assert(bmeta[b as int].0 == booths@[b as int].record.division_nm@);
                assert(bmeta[b as int].1 == booths@[b as int].record.polling_place_nm@);
            }
            if bytes_eq(&booths[b].record.division_nm, div_name) && bytes_eq(
                &booths[b].record.polling_place_nm,
                booth_name,
            ) {
                found = true;
            } else {
                b = b + 1;
            }
        }
        if !found {
            proof {
                assert(crate::projection::booth_find(bmeta, div_name@, booth_name@, 0) is None);
            }
            return Err(DistError::UnknownBooth);
        }
        proof {
            assert(crate::projection::booth_find(bmeta, div_name@, booth_name@, b as int)
                == Some(b as int));
        }
        let record = &booths[b].record;
        let mut meta: Vec<Vec<u8>> = Vec::new();
        meta.push(dec_bytes(record.polling_place_id));
        meta.push(crate::utils::copy_bytes(&record.division_nm));
        meta.push(crate::utils::copy_bytes(&record.polling_place_nm));
        meta.push(crate::utils::copy_bytes(&record.latitude));
        meta.push(crate::utils::copy_bytes(&record.longitude));
        proof {
            assert(byte_views(meta@) =~= seq![
                spec_dec_bytes(record.polling_place_id as nat),
                record.division_nm@,
                record.polling_place_nm@,
                record.latitude@,
                record.longitude@,
            ]);
        }
        let formatted_row: Vec<Vec<u8>> = format_row(meta, &row.counts, row.total);
        formatted.push(formatted_row);
        proof {
            assert(byte_views(formatted@.last()@) =~= spec_booth_row(
                rows@[t as int],
                booths@,
                syms,
            ));
        }
        t = t + 1;
    }
    proof {
        assert(Seq::new(formatted@.len(), |t2: int| byte_views(formatted@[t2]@)) =~= Seq::new(
            rows@.len(),
            |t2: int| spec_booth_row(rows@[t2], booths@, syms),
        ));
        assert(row_views(formatted@) =~= Seq::new(
            rows@.len(),
            |t2: int| spec_booth_row(rows@[t2], booths@, syms),
        ));
    }
    let sorted: Vec<Vec<Vec<u8>>> = sort_rows(formatted);
    // Format and sort the special-vote rows.
    let mut sformatted: Vec<Vec<Vec<u8>>> = Vec::new();
    let mut t2: usize = 0;
    while t2 < specials.len()
        invariant
            t2 <= specials@.len(),
            sformatted@.len() == t2,
            forall|t3: int|
                0 <= t3 < t2 ==> byte_views((#[trigger] sformatted@[t3])@) == spec_special_row(
                    special_view(specials@[t3]),
                ) && sformatted@[t3]@.len() >= 3,
        decreases specials@.len() - t2,
    {
        let srow: &SpecialRow = &specials[t2];
        let mut meta: Vec<Vec<u8>> = Vec::new();
        meta.push(Vec::new());
        meta.push(crate::utils::copy_bytes(&srow.div));
        meta.push(crate::utils::copy_bytes(&srow.cat));
        meta.push(Vec::new());
        meta.push(Vec::new());
        proof {
            assert(byte_views(meta@) =~= seq![
                Seq::<u8>::empty(),
                srow.div@,
                srow.cat@,
                Seq::<u8>::empty(),
                Seq::<u8>::empty(),
            ]);
        }
        let formatted_row: Vec<Vec<u8>> = format_row(meta, &srow.counts, srow.total);
        sformatted.push(formatted_row);
        proof {
            assert(byte_views(sformatted@.last()@) =~= spec_special_row(
                special_view(specials@[t2 as int]),
            ));
        }
        t2 = t2 + 1;
    }
    proof {
        assert(row_views(sformatted@) =~= Seq::new(
            specials@.len(),
            |t3: int| spec_special_row(special_view(specials@[t3])),
        ));
    }
    let ssorted: Vec<Vec<Vec<u8>>> = sort_rows(sformatted);
    // Assemble: header, booths, specials.
    let mut out: Vec<Vec<Vec<u8>>> = Vec::new();
    let mut header: Vec<Vec<u8>> = Vec::new();
    header.push(header_cell(0));
    header.push(header_cell(1));
    header.push(header_cell(2));
    header.push(header_cell(3));
    header.push(header_cell(4));
    proof {
        assert(byte_views(header@) =~= spec_header(byte_views(labels@)).take(5));
    }
    let mut li: usize = 0;
    while li < labels.len()
        invariant
            li <= labels@.len(),
            header@.len() == 5 + li,
            byte_views(header@) == spec_header(byte_views(labels@)).take(5 + li as int).take(
                5 + li as int,
            ),
            byte_views(header@) == spec_header(byte_views(labels@)).take(5 + li as int),
        decreases labels@.len() - li,
    {
        let ghost prev = header@;
        header.push(crate::utils::copy_bytes(&labels[li]));
        proof {
            crate::booths::lemma_byte_views_push(prev, header@, labels@[li as int]@);
            assert(byte_views(header@) =~= spec_header(byte_views(labels@)).take(5 + li + 1));
        }
        li = li + 1;
    }
    let ghost prev = header@;
    header.push(header_cell(5));
    proof {
        crate::booths::lemma_byte_views_push(prev, header@, seq![84u8, 111u8, 116u8, 97u8, 108u8]);
        assert(spec_header(byte_views(labels@)).take(5 + labels@.len() as int) =~= spec_header(
            byte_views(labels@),
        ).drop_last());
        assert(byte_views(header@) =~= spec_header(byte_views(labels@)));
    }
    out.push(header);
    let mut si: usize = 0;
    let ghost sorted_views = row_views(sorted@);
    while si < sorted.len()
        invariant
            si <= sorted@.len(),
            out@.len() == 1 + si,
            byte_views(out@[0]@) == spec_header(byte_views(labels@)),
            forall|t3: int|
                0 <= t3 < si ==> byte_views((#[trigger] out@[1 + t3])@) == sorted_views[t3],
        decreases sorted@.len() - si,
    {
        out.push(crate::utils::copy_row_cells(&sorted[si]));
        proof {
            assert(byte_views(out@.last()@) =~= sorted_views[si as int]);
        }
        si = si + 1;
    }
    let mut s2: usize = 0;
    let ghost ssorted_views = row_views(ssorted@);
    while s2 < ssorted.len()
        invariant
            s2 <= ssorted@.len(),
            out@.len() == 1 + sorted@.len() + s2,
            byte_views(out@[0]@) == spec_header(byte_views(labels@)),
            forall|t3: int|
                0 <= t3 < sorted@.len() ==> byte_views((#[trigger] out@[1 + t3])@)
                    == sorted_views[t3],
            forall|t3: int|
                0 <= t3 < s2 ==> byte_views((#[trigger] out@[1 + sorted@.len() + t3])@)
                    == ssorted_views[t3],
        decreases ssorted@.len() - s2,
    {
        out.push(crate::utils::copy_row_cells(&ssorted[s2]));
        proof {
            assert(byte_views(out@.last()@) =~= ssorted_views[s2 as int]);
        }
        s2 = s2 + 1;
    }
    proof {
        assert(sorted_views == row_ins_sort(
            Seq::new(rows@.len(), |t4: int| spec_booth_row(rows@[t4], booths@, syms)),
        ));
        assert(ssorted_views == row_ins_sort(
            Seq::new(specials@.len(), |t4: int| spec_special_row(special_view(specials@[t4]))),
        ));
        assert forall|t3: int| 0 <= t3 < rows@.len() implies #[trigger] row_views(
            out@.subrange(1, 1 + rows@.len() as int),
        )[t3] == row_ins_sort(
            Seq::new(rows@.len(), |t4: int| spec_booth_row(rows@[t4], booths@, syms)),
        )[t3] by {
            lemma_row_ins_sort_len(
                Seq::new(rows@.len(), |t4: int| spec_booth_row(rows@[t4], booths@, syms)),
            );
            assert(sorted_views.len() == rows@.len());
            assert(sorted@.len() == rows@.len());
            assert(byte_views(out@[1 + t3]@) == sorted_views[t3]);
            assert(out@.subrange(1, 1 + rows@.len() as int)[t3] == out@[1 + t3]);
            assert(row_views(out@.subrange(1, 1 + rows@.len() as int))[t3] == byte_views(
                out@.subrange(1, 1 + rows@.len() as int)[t3]@,
            ));
        }
        lemma_row_ins_sort_len(
            Seq::new(rows@.len(), |t4: int| spec_booth_row(rows@[t4], booths@, syms)),
        );
        lemma_row_ins_sort_len(
            Seq::new(specials@.len(), |t4: int| spec_special_row(special_view(specials@[t4]))),
        );
        assert(row_views(out@.subrange(1, 1 + rows@.len() as int)) =~= row_ins_sort(
            Seq::new(rows@.len(), |t4: int| spec_booth_row(rows@[t4], booths@, syms)),
        ));
        assert forall|t3: int| 0 <= t3 < specials@.len() implies #[trigger] row_views(
            out@.subrange(1 + rows@.len() as int, out@.len() as int),
        )[t3] == row_ins_sort(
            Seq::new(specials@.len(), |t4: int| spec_special_row(special_view(specials@[t4]))),
        )[t3] by {
            assert(ssorted_views.len() == specials@.len());
            assert(ssorted@.len() == specials@.len());
            assert(sorted@.len() == rows@.len());
            assert(byte_views(out@[1 + rows@.len() + t3]@) == ssorted_views[t3]);
            assert(out@.subrange(1 + rows@.len() as int, out@.len() as int)[t3] == out@[1
                + rows@.len() + t3]);
            assert(row_views(out@.subrange(1 + rows@.len() as int, out@.len() as int))[t3]
                == byte_views(out@.subrange(1 + rows@.len() as int, out@.len() as int)[t3]@));
        }
        assert(row_views(out@.subrange(1 + rows@.len() as int, out@.len() as int))
            =~= row_ins_sort(
            Seq::new(specials@.len(), |t4: int| spec_special_row(special_view(specials@[t4]))),
        ));
    }
    Ok(out)
}

proof fn lemma_row_ins_sort_len(s: Seq<Seq<Seq<u8>>>)
    ensures
        row_ins_sort(s).len() == s.len(),
    decreases s.len(),
{
    if s.len() > 0 {
        lemma_row_ins_sort_len(s.drop_last());
        lemma_row_ins_pos_range(row_ins_sort(s.drop_last()), s.last());
    }
}

/// The formatted row of one ordinary booth: its reference metadata, its
/// counts in decimal, and its total.
pub open spec fn spec_booth_row(row: TallyRow, booths: Seq<BoothInfo>, syms: Seq<Seq<u8>>) -> Seq<
    Seq<u8>,
> {
    let b = crate::projection::booth_find(
        Seq::new(
            booths.len(),
            |t: int| (booths[t].record.division_nm@, booths[t].record.polling_place_nm@, Seq::<u64>::empty()),
        ),
        syms[row.div as int],
        syms[row.booth as int],
        0,
    ).unwrap();
    spec_format_row(
        seq![
            spec_dec_bytes(booths[b].record.polling_place_id as nat),
            booths[b].record.division_nm@,
            booths[b].record.polling_place_nm@,
            booths[b].record.latitude@,
            booths[b].record.longitude@,
        ],
        row.counts@,
        row.total,
    )
}

/// The formatted row of one special-vote category: blank metadata, the
/// division and category, the counts and total.
pub open spec fn spec_special_row(v: (Seq<u8>, Seq<u8>, Seq<u64>, u64)) -> Seq<Seq<u8>> {
    spec_format_row(
        seq![Seq::<u8>::empty(), v.0, v.1, Seq::<u8>::empty(), Seq::<u8>::empty()],
        v.2,
        v.3,
    )
}

} // verus!
