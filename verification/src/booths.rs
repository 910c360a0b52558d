//! The distribution engine: reduces a stream of ballot records to
//! per-booth tallies of ordering counts.
//!
//! Division and booth names are interned to small integer symbols so the
//! hot loop never allocates for a repeated name; tallies are kept per
//! `(division symbol, booth symbol)` pair.

use crate::ballot::{
    distribute_preference, handle_below, lemma_distribute_in_range, lemma_handle_below_in_range,
    spec_distribute, spec_handle_below,
};
use crate::indexer::{falling_factorial, skip_shorter, spec_rank};
use crate::projection::booth_find;
use crate::utils::StateAb;
use vstd::prelude::*;

verus! {

/// The element-wise views of a sequence of byte vectors.
pub open spec fn byte_views(s: Seq<Vec<u8>>) -> Seq<Seq<u8>> {
    Seq::new(s.len(), |i: int| s[i]@)
}


/// Pushing one byte vector appends its view.
pub proof fn lemma_byte_views_push(prev: Seq<Vec<u8>>, cur: Seq<Vec<u8>>, x: Seq<u8>)
    requires
        cur.len() == prev.len() + 1,
        forall|t: int| 0 <= t < prev.len() ==> cur[t] == prev[t],
        cur.last()@ == x,
    ensures
        byte_views(cur) == byte_views(prev).push(x),
{
    assert forall|t: int| 0 <= t < cur.len() implies byte_views(cur)[t] == byte_views(prev).push(
        x,
    )[t] by {
        if t < prev.len() {
            assert(byte_views(prev)[t] == prev[t]@);
        }
    }
    assert(byte_views(cur) =~= byte_views(prev).push(x));
}

/// A prefix of the vectors is a prefix of the views.
pub proof fn lemma_byte_views_prefix(prev: Seq<Vec<u8>>, cur: Seq<Vec<u8>>)
    requires
        cur.len() <= prev.len(),
        forall|t: int| 0 <= t < cur.len() ==> cur[t] == prev[t],
    ensures
        byte_views(cur) == byte_views(prev).take(cur.len() as int),
{
    assert forall|t: int| 0 <= t < cur.len() implies byte_views(cur)[t] == byte_views(prev).take(
        cur.len() as int,
    )[t] by {
        assert(byte_views(prev)[t] == prev[t]@);
    }
    assert(byte_views(cur) =~= byte_views(prev).take(cur.len() as int));
}

/// Compare two byte strings for equality.
pub fn bytes_eq(a: &Vec<u8>, b: &Vec<u8>) -> (r: bool)
    ensures
        r == (a@ == b@),
{
    if a.len() != b.len() {
        return false;
    }
    let mut i: usize = 0;
    while i < a.len()
        invariant
            a@.len() == b@.len(),
            i <= a@.len(),
            forall|t: int| 0 <= t < i ==> a@[t] == b@[t],
        decreases a@.len() - i,
    {
        if a[i] != b[i] {
            return false;
        }
        i = i + 1;
    }
    proof {
        assert(a@ =~= b@);
    }
    true
}

/// What interning a name does: an already-known name keeps the symbol
/// table and yields its first index; a new name is appended.
pub open spec fn spec_intern(syms: Seq<Seq<u8>>, name: Seq<u8>) -> (Seq<Seq<u8>>, int) {
    match syms.index_of_first(name) {
        Some(j) => (syms, j),
        None => (syms.push(name), syms.len() as int),
    }
}

/// A string interner: names in, dense integer symbols out.
///
/// Owned by one distribution pass and discarded with it.
pub struct Interner {
    names: Vec<Vec<u8>>,
}

impl Interner {
    /// The symbol table: symbol `s` stands for `self.symbols()[s]`.
    pub closed spec fn symbols(&self) -> Seq<Seq<u8>> {
        byte_views(self.names@)
    }

    /// No name is interned twice.
    pub closed spec fn wf(&self) -> bool {
        forall|i: int, j: int|
            0 <= i < j < self.symbols().len() ==> #[trigger] self.symbols()[i]
                != #[trigger] self.symbols()[j]
    }

    pub fn new() -> (r: Interner)
        ensures
            r.wf(),
            r.symbols() == Seq::<Seq<u8>>::empty(),
    {
        let r = Interner { names: Vec::new() };
        proof {
            assert(r.symbols() =~= Seq::<Seq<u8>>::empty());
        }
        r
    }

    /// Intern a name, returning its symbol.
    pub fn intern(&mut self, name: &Vec<u8>) -> (sym: usize)
        requires
            old(self).wf(),
        ensures
            final(self).wf(),
            (final(self).symbols(), sym as int) == spec_intern(old(self).symbols(), name@),
            sym < final(self).symbols().len(),
            final(self).symbols()[sym as int] == name@,
    {
        let ghost old_syms = self.symbols();
        let mut j: usize = 0;
        while j < self.names.len()
            invariant
                old(self).wf(),
                old_syms == old(self).symbols(),
                self.symbols() == old_syms,
                self.names@.len() == old_syms.len(),
                j <= old_syms.len(),
                forall|t: int| 0 <= t < old_syms.len() ==> old_syms[t] == #[trigger] self.names@[t]@,
                forall|t: int| 0 <= t < j ==> old_syms[t] != name@,
            decreases old_syms.len() - j,
        {
            if bytes_eq(&self.names[j], name) {
                proof {
                    assert(old_syms[j as int] == name@);
                    assert(old_syms.index_of_first(name@) == Some(j as int)) by {
                        old_syms.index_of_first_ensures(name@);
                        assert(old_syms.contains(name@)) by {
                            assert(old_syms[j as int] == name@);
                        }
                        let f = old_syms.index_of_first(name@).unwrap();
                        assert(old_syms[f] == name@);
                        if f < j {
                            assert(old_syms[f] != name@);
                        }
                        if f > j {
                            assert(old_syms[j as int] != name@);
                        }
                    }
                }
                return j;
            }
            j = j + 1;
        }
        proof {
            assert(old_syms.index_of_first(name@) is None) by {
                old_syms.index_of_first_ensures(name@);
                if old_syms.contains(name@) {
                    let f = choose|f: int| 0 <= f < old_syms.len() && old_syms[f] == name@;
                    assert(old_syms[f] != name@);
                }
            }
        }
        let sym: usize = self.names.len();
        let mut copy: Vec<u8> = Vec::new();
        let mut c: usize = 0;
        while c < name.len()
            invariant
                c <= name@.len(),
                copy@ == name@.take(c as int),
            decreases name@.len() - c,
        {
            copy.push(name[c]);
            proof {
                assert(copy@ =~= name@.take(c + 1));
            }
            c = c + 1;
        }
        proof {
            assert(copy@ =~= name@);
        }
        self.names.push(copy);
        proof {
            assert(self.symbols() =~= old_syms.push(name@));
            assert forall|i: int, j2: int| 0 <= i < j2 < self.symbols().len() implies (
            #[trigger] self.symbols()[i]) != (#[trigger] self.symbols()[j2]) by {
                if j2 < old_syms.len() {
                    assert(self.symbols()[i] == old_syms[i]);
                    assert(self.symbols()[j2] == old_syms[j2]);
                } else {
                    assert(self.symbols()[j2] == name@);
                    assert(self.symbols()[i] == old_syms[i]);
                    assert(old_syms[i] != name@);
                }
            }
        }
        sym
    }

    /// Look a symbol back up.
    pub fn resolve(&self, sym: usize) -> (r: &Vec<u8>)
        requires
            sym < self.symbols().len(),
        ensures
            r@ == self.symbols()[sym as int],
    {
        &self.names[sym]
    }

    pub fn len(&self) -> (r: usize)
        ensures
            r == self.symbols().len(),
    {
        self.names.len()
    }
}


/// Why a distribution run must abort.
#[derive(Debug, PartialEq, Eq, Structural, Clone, Copy)]
pub enum DistError {
    /// The ballot file is in the superseded layout whose rows begin with
    /// a `---` marker; it must be upgraded before this run.
    LegacyFormat,
    /// A row is missing expected columns or has more cells than the
    /// header row declared.
    MalformedRecord,
    /// A merged count left the machine range.
    CountOverflow,
    /// A tallied booth is absent from the polling-place reference: the
    /// input files are inconsistent.
    UnknownBooth,
}

/// One booth's tally: a count per ordering and the running total.
pub struct TallyRow {
    pub div: usize,
    pub booth: usize,
    pub counts: Vec<u64>,
    pub total: u64,
}

pub open spec fn sum64(s: Seq<u64>) -> int
    decreases s.len(),
{
    if s.len() == 0 {
        0
    } else {
        sum64(s.drop_last()) + s.last()
    }
}

pub open spec fn sum_totals(rows: Seq<TallyRow>) -> int
    decreases rows.len(),
{
    if rows.len() == 0 {
        0
    } else {
        sum_totals(rows.drop_last()) + rows.last().total
    }
}

proof fn lemma_sum64_update(s: Seq<u64>, i: int, v: u64)
    requires
        0 <= i < s.len(),
    ensures
        sum64(s.update(i, v)) == sum64(s) - s[i] + v,
    decreases s.len(),
{
    if i == s.len() - 1 {
        assert(s.update(i, v).drop_last() =~= s.drop_last());
        assert(s.update(i, v).last() == v);
    } else {
        lemma_sum64_update(s.drop_last(), i, v);
        assert(s.update(i, v).drop_last() =~= s.drop_last().update(i, v));
        assert(s.update(i, v).last() == s.last());
    }
}

proof fn lemma_sum64_elem(s: Seq<u64>, i: int)
    requires
        0 <= i < s.len(),
    ensures
        s[i] <= sum64(s),
    decreases s.len(),
{
    lemma_sum64_nonneg(s);
    if i == s.len() - 1 {
        lemma_sum64_nonneg(s.drop_last());
    } else {
        lemma_sum64_elem(s.drop_last(), i);
    }
}

proof fn lemma_sum64_nonneg(s: Seq<u64>)
    ensures
        sum64(s) >= 0,
    decreases s.len(),
{
    if s.len() > 0 {
        lemma_sum64_nonneg(s.drop_last());
    }
}

proof fn lemma_sum_totals_update(rows: Seq<TallyRow>, i: int, r: TallyRow)
    requires
        0 <= i < rows.len(),
    ensures
        sum_totals(rows.update(i, r)) == sum_totals(rows) - rows[i].total + r.total,
    decreases rows.len(),
{
    if i == rows.len() - 1 {
        assert(rows.update(i, r).drop_last() =~= rows.drop_last());
        assert(rows.update(i, r).last() == r);
    } else {
        lemma_sum_totals_update(rows.drop_last(), i, r);
        assert(rows.update(i, r).drop_last() =~= rows.drop_last().update(i, r));
        assert(rows.update(i, r).last() == rows.last());
    }
}

proof fn lemma_sum_totals_push(rows: Seq<TallyRow>, r: TallyRow)
    ensures
        sum_totals(rows.push(r)) == sum_totals(rows) + r.total,
{
    assert(rows.push(r).drop_last() =~= rows);
    assert(rows.push(r).last() == r);
}

/// The first tally row for the given (division, booth) key, if any.
pub open spec fn row_find(rows: Seq<TallyRow>, div: int, booth: int, i: int) -> Option<int>
    decreases rows.len() - i,
{
    if i < 0 || i >= rows.len() {
        None
    } else if rows[i].div == div && rows[i].booth == booth {
        Some(i)
    } else {
        row_find(rows, div, booth, i + 1)
    }
}

proof fn lemma_row_find_from(rows: Seq<TallyRow>, div: int, booth: int, j: int)
    requires
        0 <= j <= rows.len(),
        forall|t: int| 0 <= t < j ==> !((#[trigger] rows[t]).div == div && rows[t].booth == booth),
    ensures
        row_find(rows, div, booth, 0) == row_find(rows, div, booth, j),
    decreases j,
{
    if j > 0 {
        lemma_row_find_from(rows, div, booth, j - 1);
        assert(row_find(rows, div, booth, j - 1) == row_find(rows, div, booth, j));
    }
}


/// One ballot's effect on the tally rows: the booth's row (created with
/// zeroed counts if new) gains exactly 1 at the ballot's ordering index
/// and 1 on its total; every other row and cell is untouched.
pub open spec fn tally_step(
    pre: Seq<TallyRow>,
    post: Seq<TallyRow>,
    d: int,
    b: int,
    idx: int,
    n_cells: int,
) -> bool {
    match row_find(pre, d, b, 0) {
        Some(ri) => {
            &&& post.len() == pre.len()
            &&& forall|t: int| 0 <= t < pre.len() && t != ri ==> post[t] == pre[t]
            &&& post[ri].div == d
            &&& post[ri].booth == b
            &&& 0 <= idx < pre[ri].counts@.len()
            &&& post[ri].counts@ == pre[ri].counts@.update(
                idx,
                (pre[ri].counts@[idx] + 1) as u64,
            )
            &&& post[ri].total == pre[ri].total + 1
        },
        None => {
            &&& post.len() == pre.len() + 1
            &&& forall|t: int| 0 <= t < pre.len() ==> post[t] == pre[t]
            &&& post.last().div == d
            &&& post.last().booth == b
            &&& post.last().total == 1
            &&& post.last().counts@.len() == n_cells
            &&& 0 <= idx < n_cells
            &&& forall|c: int|
                0 <= c < n_cells ==> post.last().counts@[c] == (if c == idx {
                    1u64
                } else {
                    0u64
                })
        },
    }
}

/// Interning the division and booth names of one record.
pub open spec fn spec_intern_key(syms: Seq<Seq<u8>>, rec: Seq<Seq<u8>>) -> (Seq<Seq<u8>>, int, int) {
    let s1 = spec_intern(syms, rec[1]);
    let s2 = spec_intern(s1.0, rec[2]);
    (s2.0, s1.1, s2.1)
}

/// A row of the superseded ballot format: its division cell starts `---`.
pub open spec fn legacy_marker(cell: Seq<u8>) -> bool {
    cell.len() >= 3 && cell[0] == 45 && cell[1] == 45 && cell[2] == 45
}

/// The ordering index a ballot record reduces to: its below-the-line rank
/// when BTL-formal, its above-the-line rank otherwise.
pub open spec fn spec_ballot_index(
    rec: Seq<Seq<u8>>,
    below_start: int,
    bg: Seq<usize>,
    ga: Seq<Seq<usize>>,
    above_start: int,
    cands_count: usize,
    n: nat,
) -> nat {
    match spec_handle_below(rec, below_start, bg, n) {
        Some(i) => i as nat,
        None => spec_distribute(rec, ga, above_start, cands_count),
    }
}

/// The distribution engine: per-booth ordering tallies over a ballot
/// stream, together with the run's candidate-column configuration.
pub struct Distributor {
    pub interner: Interner,
    pub rows: Vec<TallyRow>,
    pub below_start: usize,
    pub below_groups: Vec<usize>,
    pub groups_above: Vec<Vec<usize>>,
    pub above_start: usize,
    pub cands_count: usize,
    pub groups_count: usize,
    pub n_cells: usize,
    pub ballots: u64,
    pub btl_count: u64,
}

impl Distributor {
    /// Everything `process_ballot` preserves.
    pub open spec fn wf(&self) -> bool {
        &&& self.interner.wf()
        &&& self.groups_count <= 12
        &&& self.n_cells == skip_shorter(self.groups_count as nat, self.groups_count as nat + 1)
        &&& self.groups_above@.len() == self.groups_count
        &&& forall|t: int|
            0 <= t < self.below_groups@.len() ==> #[trigger] self.below_groups@[t] == usize::MAX
                || self.below_groups@[t] < self.groups_count
        &&& forall|g: int, j: int|
            0 <= g < self.groups_above@.len() && 0 <= j < self.groups_above@[g]@.len() ==> 1 <= (
            #[trigger] self.groups_above@[g]@[j]) && self.groups_above@[g]@[j] + self.above_start
                <= usize::MAX
        &&& forall|t: int|
            0 <= t < self.rows@.len() ==> (#[trigger] self.rows@[t]).counts@.len() == self.n_cells
        &&& forall|t: int|
            0 <= t < self.rows@.len() ==> (#[trigger] self.rows@[t]).total == sum64(
                self.rows@[t].counts@,
            )
        &&& forall|t: int|
            0 <= t < self.rows@.len() ==> (#[trigger] self.rows@[t]).total <= self.ballots
        &&& forall|t: int|
            0 <= t < self.rows@.len() ==> (#[trigger] self.rows@[t]).div
                < self.interner.symbols().len() && self.rows@[t].booth
                < self.interner.symbols().len()
        &&& forall|i: int, j: int|
            0 <= i < j < self.rows@.len() ==> !((#[trigger] self.rows@[i]).div == (
            #[trigger] self.rows@[j]).div && self.rows@[i].booth == self.rows@[j].booth)
        &&& sum_totals(self.rows@) == self.ballots
        &&& self.btl_count <= self.ballots
    }

    /// The configuration half of the state, unchanged by processing.
    pub open spec fn same_config(&self, other: &Distributor) -> bool {
        &&& self.below_start == other.below_start
        &&& self.below_groups@ == other.below_groups@
        &&& self.groups_above@ == other.groups_above@
        &&& self.above_start == other.above_start
        &&& self.cands_count == other.cands_count
        &&& self.groups_count == other.groups_count
        &&& self.n_cells == other.n_cells
    }

    /// Classify one ballot record and add it to its booth's tally.
    ///
    /// Exactly one cell of exactly one tally row gains exactly 1, at the
    /// ordering index the ballot reduces to; every other cell of every
    /// row is untouched.
    pub fn process_ballot(&mut self, record: &Vec<Vec<u8>>) -> (r: Result<(), DistError>)
        requires
            old(self).wf(),
            old(self).ballots < u64::MAX,
        ensures
            final(self).wf(),
            old(self).same_config(final(self)),
            r is Err ==> final(self).rows@ == old(self).rows@ && final(self).interner.symbols()
                == old(self).interner.symbols() && final(self).ballots == old(self).ballots
                && final(self).btl_count == old(self).btl_count,
            record.deep_view().len() < 3 ==> r == Err::<(), DistError>(DistError::MalformedRecord),
            record.deep_view().len() >= 3 && legacy_marker(record.deep_view()[1]) ==> r == Err::<(), DistError>(
                DistError::LegacyFormat,
            ),
            record.deep_view().len() >= 3 && !legacy_marker(record.deep_view()[1])
                && record.deep_view().len() > old(self).below_groups@.len() ==> r == Err::<(), DistError>(
                DistError::MalformedRecord,
            ),
            record.deep_view().len() >= 3 && !legacy_marker(record.deep_view()[1])
                && record.deep_view().len() <= old(self).below_groups@.len() ==> r is Ok && ({
                let rec = record.deep_view();
                let key = spec_intern_key(old(self).interner.symbols(), rec);
                let idx = spec_ballot_index(
                    rec,
                    old(self).below_start as int,
                    old(self).below_groups@,
                    old(self).groups_above.deep_view(),
                    old(self).above_start as int,
                    old(self).cands_count,
                    old(self).groups_count as nat,
                );
                &&& final(self).interner.symbols() == key.0
                &&& final(self).ballots == old(self).ballots + 1
                &&& final(self).btl_count == old(self).btl_count + (
                if spec_handle_below(
                    rec,
                    old(self).below_start as int,
                    old(self).below_groups@,
                    old(self).groups_count as nat,
                ) is Some {
                    1int
                } else {
                    0int
                })
                &&& tally_step(
                    old(self).rows@,
                    final(self).rows@,
                    key.1,
                    key.2,
                    idx as int,
                    old(self).n_cells as int,
                )
                &&& match row_find(old(self).rows@, key.1, key.2, 0) {
                    Some(ri) => {
                        &&& final(self).rows@.len() == old(self).rows@.len()
                        &&& forall|t: int|
                            0 <= t < old(self).rows@.len() && t != ri ==> final(self).rows@[t]
                                == old(self).rows@[t]
                        &&& final(self).rows@[ri].div == key.1
                        &&& final(self).rows@[ri].booth == key.2
                        &&& final(self).rows@[ri].counts@ == old(self).rows@[ri].counts@.update(
                            idx as int,
                            (old(self).rows@[ri].counts@[idx as int] + 1) as u64,
                        )
                        &&& final(self).rows@[ri].total == old(self).rows@[ri].total + 1
                    },
                    None => {
                        &&& final(self).rows@.len() == old(self).rows@.len() + 1
                        &&& forall|t: int|
                            0 <= t < old(self).rows@.len() ==> final(self).rows@[t] == old(
                                self,
                            ).rows@[t]
                        &&& final(self).rows@.last().div == key.1
                        &&& final(self).rows@.last().booth == key.2
                        &&& final(self).rows@.last().total == 1
                        &&& final(self).rows@.last().counts@.len() == old(self).n_cells
                        &&& forall|c: int|
                            0 <= c < old(self).n_cells ==> final(self).rows@.last().counts@[c] == (
                            if c == idx {
                                1u64
                            } else {
                                0u64
                            })
                    },
                }
            }),
    {
        let ghost rec = record.deep_view();
        proof {
            assert(rec.len() == record@.len());
            assert(forall|t: int| 0 <= t < rec.len() ==> rec[t] == #[trigger] record@[t]@);
        }
        if record.len() < 3 {
            return Err(DistError::MalformedRecord);
        }
        let div_cell: &Vec<u8> = &record[1];
        proof {
            assert(div_cell@ == rec[1]);
        }
        if div_cell.len() >= 3 {
            if div_cell[0] == 45 && div_cell[1] == 45 && div_cell[2] == 45 {
                return Err(DistError::LegacyFormat);
            }
        }
        if record.len() > self.below_groups.len() {
            return Err(DistError::MalformedRecord);
        }
        let dsym: usize = self.interner.intern(&record[1]);
        let bsym: usize = self.interner.intern(&record[2]);
        let below_result: Option<usize> = handle_below(
            record,
            self.below_start,
            &self.below_groups,
            self.groups_count,
        );
        let is_btl: bool = below_result.is_some();
        let pref_idx: usize = match below_result {
            Some(i) => i,
            None => distribute_preference(
                record,
                &self.groups_above,
                self.above_start,
                self.cands_count,
            ),
        };
        proof {
            lemma_handle_below_in_range(
                rec,
                self.below_start as int,
                self.below_groups@,
                self.groups_count as nat,
            );
            lemma_distribute_in_range(
                rec,
                self.groups_above.deep_view(),
                self.above_start as int,
                self.cands_count,
            );
            assert(self.groups_above.deep_view().len() == self.groups_count);
            assert(pref_idx < self.n_cells);
        }
        let mut ri: usize = 0;
        let mut found: bool = false;
        while ri < self.rows.len() && !found
            invariant
                ri <= self.rows@.len(),
                found ==> ri < self.rows@.len() && self.rows@[ri as int].div == dsym
                    && self.rows@[ri as int].booth == bsym,
                !found ==> forall|t: int|
                    0 <= t < ri ==> !((#[trigger] self.rows@[t]).div == dsym
                        && self.rows@[t].booth == bsym),
            decreases self.rows@.len() - ri + (if found {
                0int
            } else {
                1int
            }),
        {
            if self.rows[ri].div == dsym && self.rows[ri].booth == bsym {
                found = true;
            } else {
                ri = ri + 1;
            }
        }
        let ghost rows_before = self.rows@;
        if found {
            proof {
                lemma_row_find_from(rows_before, dsym as int, bsym as int, ri as int);
                assert(row_find(rows_before, dsym as int, bsym as int, 0) == Some(ri as int));
                lemma_sum64_elem(rows_before[ri as int].counts@, pref_idx as int);
            }
            // Update the hit cell in place: the row moves out and back,
            // with no per-ballot copy of its counts vector.
            let mut row: TallyRow = self.rows.remove(ri);
            let cur: u64 = row.counts[pref_idx];
            row.counts.set(pref_idx, cur + 1);
            row.total = row.total + 1;
            self.rows.insert(ri, row);
            proof {
                assert(self.rows@ =~= rows_before.update(ri as int, self.rows@[ri as int]));
                lemma_sum64_update(
                    rows_before[ri as int].counts@,
                    pref_idx as int,
                    (rows_before[ri as int].counts@[pref_idx as int] + 1) as u64,
                );
                lemma_sum_totals_update(rows_before, ri as int, self.rows@[ri as int]);
            }
        } else {
            let mut zero_counts: Vec<u64> = Vec::new();
            let mut c: usize = 0;
            while c < self.n_cells
                invariant
                    c <= self.n_cells,
                    zero_counts@.len() == c,
                    forall|t: int| 0 <= t < c ==> #[trigger] zero_counts@[t] == 0u64,
                    sum64(zero_counts@) == 0,
                decreases self.n_cells - c,
            {
                let ghost before = zero_counts@;
                zero_counts.push(0);
                proof {
                    assert(zero_counts@.drop_last() =~= before);
                }
                c = c + 1;
            }
            let ghost zeros = zero_counts@;
            zero_counts.set(pref_idx, 1);
            let new_row = TallyRow { div: dsym, booth: bsym, counts: zero_counts, total: 1 };
            self.rows.push(new_row);
            proof {
                lemma_row_find_from(rows_before, dsym as int, bsym as int, rows_before.len() as int);
                assert(row_find(rows_before, dsym as int, bsym as int, 0) is None);
                lemma_sum64_update(zeros, pref_idx as int, 1);
                lemma_sum_totals_push(rows_before, self.rows@.last());
            }
        }
        self.ballots = self.ballots + 1;
        if is_btl {
            self.btl_count = self.btl_count + 1;
        }
        proof {
            assert forall|t: int| 0 <= t < self.rows@.len() implies (#[trigger] self.rows@[t]).total
                <= self.ballots by {
                if found && t == ri {
                } else if !found && t == self.rows@.len() - 1 {
                } else {
                    assert(self.rows@[t] == rows_before[t]);
                }
            }
        }
        Ok(())
    }
}


/// Byte-string order: shorter-prefix-first lexicographic.
pub open spec fn lex_le(a: Seq<u8>, b: Seq<u8>) -> bool
    decreases a.len(),
{
    if a.len() == 0 {
        true
    } else if b.len() == 0 {
        false
    } else if a[0] < b[0] {
        true
    } else if a[0] > b[0] {
        false
    } else {
        lex_le(a.drop_first(), b.drop_first())
    }
}

/// Compare two byte strings lexicographically.
pub fn bytes_le(a: &Vec<u8>, b: &Vec<u8>) -> (r: bool)
    ensures
        r == lex_le(a@, b@),
{
    let mut i: usize = 0;
    proof {
        assert(a@.skip(0) =~= a@);
        assert(b@.skip(0) =~= b@);
    }
    while i < a.len() && i < b.len()
        invariant
            i <= a@.len(),
            i <= b@.len(),
            forall|t: int| 0 <= t < i ==> a@[t] == b@[t],
            lex_le(a@, b@) == lex_le(a@.skip(i as int), b@.skip(i as int)),
        decreases a@.len() - i,
    {
        proof {
            assert(a@.skip(i as int)[0] == a@[i as int]);
            assert(b@.skip(i as int)[0] == b@[i as int]);
            assert(a@.skip(i as int).drop_first() =~= a@.skip(i + 1));
            assert(b@.skip(i as int).drop_first() =~= b@.skip(i + 1));
        }
        if a[i] < b[i] {
            return true;
        }
        if a[i] > b[i] {
            return false;
        }
        i = i + 1;
    }
    proof {
        if i >= a@.len() {
            assert(a@.skip(i as int).len() == 0);
        } else {
            assert(b@.skip(i as int).len() == 0);
            assert(a@.skip(i as int).len() > 0);
        }
    }
    a.len() <= b.len()
}

/// `w` occurs as a contiguous substring of `s`.
pub open spec fn contains_sub(s: Seq<u8>, w: Seq<u8>) -> bool {
    exists|k: int| 0 <= k <= s.len() - w.len() && #[trigger] s.subrange(k, k + w.len()) == w
}

/// Substring search.
pub fn bytes_contains(s: &Vec<u8>, w: &Vec<u8>) -> (r: bool)
    ensures
        r == contains_sub(s@, w@),
{
    if w.len() > s.len() {
        proof {
            assert(!contains_sub(s@, w@)) by {
                if contains_sub(s@, w@) {
                    let k = choose|k: int|
                        0 <= k <= s@.len() - w@.len() && #[trigger] s@.subrange(k, k + w@.len())
                            == w@;
                }
            }
        }
        return false;
    }
    let mut k: usize = 0;
    let limit: usize = s.len() - w.len();
    while k <= limit
        invariant
            w@.len() <= s@.len(),
            s@.len() <= usize::MAX,
            limit == s@.len() - w@.len(),
            k <= limit + 1,
            forall|t: int| 0 <= t < k ==> #[trigger] s@.subrange(t, t + w@.len()) != w@,
        decreases limit + 1 - k,
    {
        let mut m: usize = 0;
        let mut same: bool = true;
        while m < w.len() && same
            invariant
                k + w@.len() <= s@.len(),
                s@.len() <= usize::MAX,
                m <= w@.len(),
                same ==> forall|t: int| 0 <= t < m ==> s@[k + t] == w@[t],
                !same ==> s@.subrange(k as int, k + w@.len()) != w@,
            decreases w@.len() - m + (if same {
                1int
            } else {
                0int
            }),
        {
            proof {
                assert(k + m < s@.len());
            }
            if s[k + m] != w[m] {
                proof {
                    assert(s@.subrange(k as int, k + w@.len())[m as int] == s@[k + m]);
                }
                same = false;
            } else {
                m = m + 1;
            }
        }
        if same {
            proof {
                assert(s@.subrange(k as int, k + w@.len()) =~= w@);
            }
            return true;
        }
        proof {
            if w@.len() == 0 {
                assert(s@.subrange(k as int, k as int) =~= w@);
                assert(false);
            }
        }
        k = k + 1;
    }
    proof {
        assert(!contains_sub(s@, w@)) by {
            if contains_sub(s@, w@) {
                let t = choose|t: int|
                    0 <= t <= s@.len() - w@.len() && #[trigger] s@.subrange(t, t + w@.len())
                        == w@;
            }
        }
    }
    false
}

/// The decimal representation of a count, as ASCII bytes.
pub open spec fn spec_dec_bytes(n: nat) -> Seq<u8>
    decreases n,
{
    if n < 10 {
        seq![(48 + n) as u8]
    } else {
        spec_dec_bytes(n / 10) + seq![(48 + n % 10) as u8]
    }
}

/// Format a count in decimal.
pub fn dec_bytes(n: u64) -> (r: Vec<u8>)
    ensures
        r@ == spec_dec_bytes(n as nat),
    decreases n,
{
    if n < 10 {
        let mut r: Vec<u8> = Vec::new();
        r.push((48 + n) as u8);
        proof {
            assert(r@ =~= spec_dec_bytes(n as nat));
        }
        r
    } else {
        proof {
            vstd::arithmetic::div_mod::lemma_fundamental_div_mod(n as int, 10);
        }
        let mut r: Vec<u8> = dec_bytes(n / 10);
        r.push((48 + (n % 10)) as u8);
        proof {
            assert(r@ =~= spec_dec_bytes(n as nat));
        }
        r
    }
}

/// The four special-vote markers, in the order they are tried.
pub open spec fn spec_marker(w: int) -> Seq<u8> {
    if w == 0 {
        seq![65u8, 66u8, 83u8, 69u8, 78u8, 84u8]  // ABSENT
    } else if w == 1 {
        seq![80u8, 79u8, 83u8, 84u8, 65u8, 76u8]  // POSTAL
    } else if w == 2 {
        seq![80u8, 82u8, 69u8, 95u8, 80u8, 79u8, 76u8, 76u8]  // PRE_POLL
    } else {
        seq![80u8, 82u8, 79u8, 86u8, 73u8, 83u8, 73u8, 79u8, 78u8, 65u8, 76u8]  // PROVISIONAL
    }
}

/// The display name of a special-vote category.
pub open spec fn spec_marker_name(w: int) -> Seq<u8> {
    if w == 0 {
        seq![65u8, 98u8, 115u8, 101u8, 110u8, 116u8]  // Absent
    } else if w == 1 {
        seq![80u8, 111u8, 115u8, 116u8, 97u8, 108u8]  // Postal
    } else if w == 2 {
        seq![80u8, 114u8, 101u8, 45u8, 80u8, 111u8, 108u8, 108u8]  // Pre-Poll
    } else {
        seq![80u8, 114u8, 111u8, 118u8, 105u8, 115u8, 105u8, 111u8, 110u8, 97u8, 108u8]
        // Provisional
    }
}

pub fn marker_bytes(w: usize) -> (r: Vec<u8>)
    requires
        w < 4,
    ensures
        r@ == spec_marker(w as int),
{
    let mut r: Vec<u8> = Vec::new();
    if w == 0 {
        r.push(65);
        r.push(66);
        r.push(83);
        r.push(69);
        r.push(78);
        r.push(84);
    } else if w == 1 {
        r.push(80);
        r.push(79);
        r.push(83);
        r.push(84);
        r.push(65);
        r.push(76);
    } else if w == 2 {
        r.push(80);
        r.push(82);
        r.push(69);
        r.push(95);
        r.push(80);
        r.push(79);
        r.push(76);
        r.push(76);
    } else {
        r.push(80);
        r.push(82);
        r.push(79);
        r.push(86);
        r.push(73);
        r.push(83);
        r.push(73);
        r.push(79);
        r.push(78);
        r.push(65);
        r.push(76);
    }
    proof {
        assert(r@ =~= spec_marker(w as int));
    }
    r
}

/// Convert a special-vote marker to its display name; anything else is
/// "Other".
pub fn non_booth_convert(w: usize) -> (r: Vec<u8>)
    requires
        w < 4,
    ensures
        r@ == spec_marker_name(w as int),
{
    let mut r: Vec<u8> = Vec::new();
    if w == 0 {
        r.push(65);
        r.push(98);
        r.push(115);
        r.push(101);
        r.push(110);
        r.push(116);
    } else if w == 1 {
        r.push(80);
        r.push(111);
        r.push(115);
        r.push(116);
        r.push(97);
        r.push(108);
    } else if w == 2 {
        r.push(80);
        r.push(114);
        r.push(101);
        r.push(45);
        r.push(80);
        r.push(111);
        r.push(108);
        r.push(108);
    } else {
        r.push(80);
        r.push(114);
        r.push(111);
        r.push(118);
        r.push(105);
        r.push(115);
        r.push(105);
        r.push(111);
        r.push(110);
        r.push(97);
        r.push(108);
    }
    proof {
        assert(r@ =~= spec_marker_name(w as int));
    }
    r
}

/// One row of the polling-places reference file, as this system reads it.
pub struct BoothRecord {
    pub state: StateAb,
    pub division_id: u64,
    pub division_nm: Vec<u8>,
    pub polling_place_id: u64,
    pub polling_place_type_id: u64,
    pub polling_place_nm: Vec<u8>,
    pub latitude: Vec<u8>,
    pub longitude: Vec<u8>,
}

/// Booth metadata keyed by interned (division, booth) symbols.
pub struct BoothInfo {
    pub div: usize,
    pub booth: usize,
    pub record: BoothRecord,
}

/// The metadata a booth contributes to an output row.
pub open spec fn booth_meta_view(b: BoothInfo) -> (Seq<u8>, Seq<u8>, Seq<u8>, int) {
    (b.record.division_nm@, b.record.polling_place_nm@, b.record.latitude@, b.record.polling_place_id as int)
}

/// The abstract value of the loaded booth reference: interned key
/// symbols and the record itself.
pub open spec fn booth_infos_view(s: Seq<BoothInfo>) -> Seq<(int, int, BoothRecord)> {
    Seq::new(s.len(), |i: int| (s[i].div as int, s[i].booth as int, s[i].record))
}

/// First loaded entry with this (division, booth) symbol pair.
pub open spec fn pp_find(entries: Seq<(int, int, BoothRecord)>, d: int, b: int, i: int) -> Option<
    int,
>
    decreases entries.len() - i,
{
    if i < 0 || i >= entries.len() {
        None
    } else if entries[i].0 == d && entries[i].1 == b {
        Some(i)
    } else {
        pp_find(entries, d, b, i + 1)
    }
}

/// What loading the polling places does: each record of the chosen
/// jurisdiction is keyed by its interned (division, booth) names and
/// stored, a later record replacing an earlier one with the same key;
/// records of other jurisdictions are skipped.
pub open spec fn spec_load_pp(
    records: Seq<BoothRecord>,
    state: StateAb,
    syms0: Seq<Seq<u8>>,
    i: int,
) -> (Seq<(int, int, BoothRecord)>, Seq<Seq<u8>>)
    decreases i,
{
    if i <= 0 {
        (Seq::<(int, int, BoothRecord)>::empty(), syms0)
    } else {
        let st = spec_load_pp(records, state, syms0, i - 1);
        let r = records[i - 1];
        if r.state != state {
            st
        } else {
            let s1 = spec_intern(st.1, r.division_nm@);
            let s2 = spec_intern(s1.0, r.polling_place_nm@);
            match pp_find(st.0, s1.1, s2.1, 0) {
                Some(f) => (st.0.update(f, (s1.1, s2.1, r)), s2.0),
                None => (st.0.push((s1.1, s2.1, r)), s2.0),
            }
        }
    }
}

/// Load the polling-place records of one jurisdiction, interning their
/// names: later rows replace earlier ones with the same key, as a map
/// insert would.
#[verifier::loop_isolation(false)]
pub fn load_polling_places(
    state: StateAb,
    records: Vec<BoothRecord>,
    interner: &mut Interner,
) -> (booths: Vec<BoothInfo>)
    requires
        old(interner).wf(),
    ensures
        final(interner).wf(),
        (booth_infos_view(booths@), final(interner).symbols()) == spec_load_pp(
            records@,
            state,
            old(interner).symbols(),
            records@.len() as int,
        ),
{
    let ghost all = records@;
    let ghost syms0 = interner.symbols();
    let mut records = records;
    let n_records: usize = records.len();
    proof {
        assert(all.len() == n_records);
    }
    let mut booths: Vec<BoothInfo> = Vec::new();
    let mut i: usize = 0;
    proof {
        assert(booth_infos_view(booths@) =~= Seq::<(int, int, BoothRecord)>::empty());
    }
    while records.len() > 0
        invariant
            interner.wf(),
            i == all.len() - records@.len(),
            0 <= i <= all.len(),
            forall|t: int| 0 <= t < records@.len() ==> #[trigger] records@[t] == all[i + t],
            (booth_infos_view(booths@), interner.symbols()) == spec_load_pp(
                all,
                state,
                syms0,
                i as int,
            ),
        decreases records@.len(),
    {
        let record: BoothRecord = records.remove(0);
        proof {
            assert(record == all[i as int]);
            assert(forall|t: int|
                0 <= t < records@.len() ==> #[trigger] records@[t] == all[i + 1 + t]);
        }
        if !state_eq(record.state, state) {
            i = i + 1;
            continue;
        }
        let div: usize = interner.intern(&record.division_nm);
        let booth: usize = interner.intern(&record.polling_place_nm);
        let ghost es = booth_infos_view(booths@);
        // Replace any earlier entry with the same key.
        let mut found: bool = false;
        let mut fi: usize = 0;
        while fi < booths.len() && !found
            invariant
                es == booth_infos_view(booths@),
                fi <= booths@.len(),
                found ==> fi < booths@.len() && booths@[fi as int].div == div
                    && booths@[fi as int].booth == booth,
                pp_find(es, div as int, booth as int, 0) == pp_find(
                    es,
                    div as int,
                    booth as int,
                    fi as int,
                ),
            decreases booths@.len() - fi + (if found {
                0int
            } else {
                1int
            }),
        {
            proof {
                assert(es[fi as int] == (booths@[fi as int].div as int,
                    booths@[fi as int].booth as int, booths@[fi as int].record));
            }
            if booths[fi].div == div && booths[fi].booth == booth {
                found = true;
            } else {
                fi = fi + 1;
            }
        }
        let info = BoothInfo { div, booth, record };
        if found {
            proof {
                assert(pp_find(es, div as int, booth as int, fi as int) == Some(fi as int)) by {
                    assert(es[fi as int].0 == div as int);
                    assert(es[fi as int].1 == booth as int);
                }
            }
            let ghost prev = booths@;
            booths.set(fi, info);
            proof {
                assert forall|t: int| 0 <= t < booths@.len() implies booth_infos_view(booths@)[t]
                    == es.update(
                    fi as int,
                    (div as int, booth as int, all[i as int]),
                )[t] by {
                    if t != fi {
                        assert(booths@[t] == prev[t]);
                        assert(es[t] == (prev[t].div as int, prev[t].booth as int, prev[t].record));
                    }
                }
                assert(booth_infos_view(booths@) =~= es.update(
                    fi as int,
                    (div as int, booth as int, all[i as int]),
                ));
            }
        } else {
            proof {
                assert(pp_find(es, div as int, booth as int, booths@.len() as int) is None);
            }
            let ghost prev = booths@;
            booths.push(info);
            proof {
                assert forall|t: int| 0 <= t < booths@.len() implies booth_infos_view(booths@)[t]
                    == es.push((div as int, booth as int, all[i as int]))[t] by {
                    if t < prev.len() {
                        assert(booths@[t] == prev[t]);
                        assert(es[t] == (prev[t].div as int, prev[t].booth as int, prev[t].record));
                    }
                }
                assert(booth_infos_view(booths@) =~= es.push(
                    (div as int, booth as int, all[i as int]),
                ));
            }
        }
        proof {
            assert((booth_infos_view(booths@), interner.symbols()) == spec_load_pp(
                all,
                state,
                syms0,
                i + 1,
            ));
        }
        i = i + 1;
    }
    booths
}

/// Structural equality of jurisdictions.
fn state_eq(a: StateAb, b: StateAb) -> (r: bool)
    ensures
        r == (a == b),
{
    a == b
}



/// The worked distribution case: three ballots of one booth at the rank
/// of the ordering A-then-B over two groups, and one ballot at the rank
/// of the empty ordering, leave exactly one tally row for that booth:
/// count 3 at the A-then-B rank, 1 at rank 0, zero elsewhere, total 4.
pub proof fn lemma_worked_distribution_case(
    s0: Seq<TallyRow>,
    s1: Seq<TallyRow>,
    s2: Seq<TallyRow>,
    s3: Seq<TallyRow>,
    s4: Seq<TallyRow>,
    d: int,
    b: int,
)
    requires
        s0 == Seq::<TallyRow>::empty(),
        tally_step(s0, s1, d, b, spec_rank(seq![0usize, 1usize], 2) as int, 5),
        tally_step(s1, s2, d, b, spec_rank(seq![0usize, 1usize], 2) as int, 5),
        tally_step(s2, s3, d, b, spec_rank(seq![0usize, 1usize], 2) as int, 5),
        tally_step(s3, s4, d, b, spec_rank(Seq::<usize>::empty(), 2) as int, 5),
    ensures
        s4.len() == 1,
        s4[0].div == d,
        s4[0].booth == b,
        s4[0].counts@ == seq![1u64, 0u64, 0u64, 3u64, 0u64],
        s4[0].total == 4,
{
    lemma_rank_ab_two_groups();
    crate::indexer::lemma_rank_empty(2);
    assert(row_find(s0, d, b, 0) is None);
    assert(s1.len() == 1);
    assert(s1[0] == s1.last());
    assert(row_find(s1, d, b, 0) == Some(0int));
    assert(s2[0].counts@ == s1[0].counts@.update(3, (s1[0].counts@[3] + 1) as u64));
    assert(row_find(s2, d, b, 0) == Some(0int));
    assert(s3[0].counts@ == s2[0].counts@.update(3, (s2[0].counts@[3] + 1) as u64));
    assert(row_find(s3, d, b, 0) == Some(0int));
    assert(s4[0].counts@ == s3[0].counts@.update(0, (s3[0].counts@[0] + 1) as u64));
    assert(s4[0].counts@ =~= seq![1u64, 0u64, 0u64, 3u64, 0u64]);
}

/// Over two groups, the ordering A-then-B ranks 3: after the empty
/// ordering and the two singletons.
proof fn lemma_rank_ab_two_groups()
    ensures
        spec_rank(seq![0usize, 1usize], 2) == 3,
{
    let s = seq![0usize, 1usize];
    assert(skip_shorter(2, 0) == 0);
    assert(falling_factorial(2, 0) == 1);
    assert(falling_factorial(1, 0) == 1);
    assert(falling_factorial(0, 0) == 1);
    assert(falling_factorial(2, 1) == 2 * falling_factorial(1, 0));
    assert(falling_factorial(1, 1) == 1 * falling_factorial(0, 0));
    assert(skip_shorter(2, 1) == skip_shorter(2, 0) + falling_factorial(2, 0));
    assert(skip_shorter(2, 2) == skip_shorter(2, 1) + falling_factorial(2, 1));
    assert(skip_shorter(2, 2) == 3);
    assert(s.take(0) =~= Seq::<usize>::empty());
    assert(s.take(1) =~= seq![0usize]);
    assert(crate::indexer::count_missing(s.take(0), 0) == 0);
    assert(seq![0usize].contains(0usize)) by {
        assert(seq![0usize][0] == 0usize);
    }
    assert(crate::indexer::count_missing(s.take(1), 0) == 0);
    assert(crate::indexer::count_missing(s.take(1), 1) == crate::indexer::count_missing(
        s.take(1),
        0,
    ) + 0);
    assert(crate::indexer::pos_sum_pre(s, 2, 0) == 0);
    assert(crate::indexer::pos_sum_pre(s, 2, 1) == crate::indexer::pos_sum_pre(s, 2, 0)
        + crate::indexer::count_missing(s.take(0), 0) * falling_factorial(1, 1));
    assert(crate::indexer::pos_sum_pre(s, 2, 2) == crate::indexer::pos_sum_pre(s, 2, 1)
        + crate::indexer::count_missing(s.take(1), 1) * falling_factorial(0, 0));
    assert(0 * falling_factorial(1, 1) == 0) by (nonlinear_arith);
    assert(0 * falling_factorial(0, 0) == 0) by (nonlinear_arith);
    assert(crate::indexer::pos_sum_pre(s, 2, 2) == 0);
}

/// Each booth's recorded total is the sum of its per-ordering counts,
/// and the totals across all booths account for every ballot processed:
/// every ballot landed in exactly one cell of exactly one booth's tally.
pub proof fn lemma_tally_totals(d: &Distributor)
    requires
        d.wf(),
    ensures
        forall|t: int|
            0 <= t < d.rows@.len() ==> (#[trigger] d.rows@[t]).total == sum64(d.rows@[t].counts@),
        sum_totals(d.rows@) == d.ballots,
{
}


/// Values written by the column-to-group map are group indices.
proof fn lemma_below_groups_bounded(
    groups_below: Seq<Seq<usize>>,
    above_start: int,
    n_cols: int,
    g: int,
)
    requires
        0 <= g <= groups_below.len(),
    ensures
        forall|t: int|
            0 <= t < crate::parties::spec_below_groups(groups_below, above_start, n_cols, g).len()
                ==> #[trigger] crate::parties::spec_below_groups(
                groups_below,
                above_start,
                n_cols,
                g,
            )[t] == usize::MAX || crate::parties::spec_below_groups(
                groups_below,
                above_start,
                n_cols,
                g,
            )[t] < g,
    decreases g,
{
    if g > 0 {
        lemma_below_groups_bounded(groups_below, above_start, n_cols, g - 1);
        lemma_write_group_bounded(
            crate::parties::spec_below_groups(groups_below, above_start, n_cols, g - 1),
            groups_below[g - 1],
            above_start,
            (g - 1) as usize,
            groups_below[g - 1].len() as int,
            g,
        );
    }
}

proof fn lemma_write_group_bounded(
    bg: Seq<usize>,
    cands: Seq<usize>,
    above_start: int,
    g: usize,
    j: int,
    bound: int,
)
    requires
        (g as int) < bound,
        forall|t: int|
            0 <= t < bg.len() ==> #[trigger] bg[t] == usize::MAX || (bg[t] as int) < bound - 1,
    ensures
        forall|t: int|
            0 <= t < crate::parties::spec_write_group(bg, cands, above_start, g, j).len() ==> (
            #[trigger] crate::parties::spec_write_group(bg, cands, above_start, g, j)[t]
                == usize::MAX || (crate::parties::spec_write_group(
                bg,
                cands,
                above_start,
                g,
                j,
            )[t] as int) < bound),
    decreases j,
{
    let cur = crate::parties::spec_write_group(bg, cands, above_start, g, j);
    if j <= 0 {
        assert forall|t: int| 0 <= t < cur.len() implies (#[trigger] cur[t] == usize::MAX || (
        cur[t] as int) < bound) by {
            assert(cur[t] == bg[t]);
        }
    } else {
        lemma_write_group_bounded(bg, cands, above_start, g, j - 1, bound);
        let pre = crate::parties::spec_write_group(bg, cands, above_start, g, j - 1);
        assert forall|t: int| 0 <= t < cur.len() implies (#[trigger] cur[t] == usize::MAX || (
        cur[t] as int) < bound) by {
            let pos = cands[j - 1] + above_start - 1;
            if 0 <= pos < pre.len() {
                assert(cur == pre.update(pos, g));
                if t == pos {
                    assert(cur[t] == g);
                } else {
                    assert(cur[t] == pre[t]);
                }
            } else {
                assert(cur == pre);
            }
        }
    }
}

/// Assemble a distribution engine from the configured groups and the
/// repaired ballot header, with the interner that already holds the
/// polling-place names.
///
/// Fails when a configured candidate is missing from the header, or
/// when more groups are configured than the rank arithmetic supports.
pub fn build_distributor(
    parties: &crate::parties::Parties,
    prefs_headers_fixed: &Vec<Vec<u8>>,
    above_start: usize,
    interner: Interner,
) -> (r: Result<(Distributor, crate::parties::Parties), crate::parties::SetupError>)
    requires
        interner.wf(),
        above_start <= prefs_headers_fixed@.len(),
        prefs_headers_fixed@.len() < usize::MAX,
    ensures
        r == Err::<(Distributor, crate::parties::Parties), crate::parties::SetupError>(
            crate::parties::SetupError::TooManyGroups,
        ) <==> parties@.len() > 12,
        r == Err::<(Distributor, crate::parties::Parties), crate::parties::SetupError>(
            crate::parties::SetupError::MissingCandidate,
        ) <==> parties@.len() <= 12 && exists|g: int, j: int|
            0 <= g < crate::parties::party_views(parties@).len() && 0 <= j
                < crate::parties::party_views(parties@)[g].1.len() && crate::parties::spec_cand_num(
                byte_views(prefs_headers_fixed@),
                above_start as int,
                #[trigger] crate::parties::party_views(parties@)[g].1[j],
                prefs_headers_fixed@.len() as int,
            ) is None,
        r matches Ok(pair) ==> ({
            let headers = byte_views(prefs_headers_fixed@);
            let sortedv = crate::parties::ins_sort(crate::parties::party_views(parties@));
            let boundary = crate::parties::spec_below_start(headers, above_start as int);
            &&& pair.0.wf()
            &&& pair.0.rows@.len() == 0
            &&& pair.0.ballots == 0
            &&& pair.0.btl_count == 0
            &&& pair.0.interner == interner
            &&& crate::parties::party_views(pair.1@) == sortedv
            &&& pair.0.groups_count == pair.1@.len()
            &&& pair.0.above_start == above_start
            &&& pair.0.cands_count == prefs_headers_fixed@.len() - above_start
            &&& pair.0.below_start as int == boundary
            &&& pair.0.groups_above.deep_view() == crate::parties::spec_groups_split(
                sortedv,
                headers,
                above_start as int,
                boundary,
                true,
            )
            &&& pair.0.below_groups@ == crate::parties::spec_below_groups(
                crate::parties::spec_groups_split(
                    sortedv,
                    headers,
                    above_start as int,
                    boundary,
                    false,
                ),
                above_start as int,
                prefs_headers_fixed@.len() as int,
                sortedv.len() as int,
            )
            &&& pair.0.n_cells == skip_shorter(
                pair.0.groups_count as nat,
                pair.0.groups_count as nat + 1,
            )
        }),
{
    if parties.len() > 12 {
        return Err(crate::parties::SetupError::TooManyGroups);
    }
    let info = match crate::parties::make_candidate_info(parties, prefs_headers_fixed, above_start)
    {
        Ok(i) => i,
        Err(e) => {
            return Err(e);
        },
    };
    let groups_count: usize = info.sorted.len();
    proof {
        crate::parties::lemma_ins_sort_len_pub(crate::parties::party_views(parties@));
    }
    let below_groups: Vec<usize> = crate::parties::make_below_groups(
        &info.groups_below,
        above_start,
        prefs_headers_fixed.len(),
    );
    proof {
        lemma_below_groups_bounded(
            info.groups_below.deep_view(),
            above_start as int,
            prefs_headers_fixed@.len() as int,
            info.groups_below.deep_view().len() as int,
        );
        assert(info.groups_below.deep_view().len() == info.groups_below@.len());
        let headers = byte_views(prefs_headers_fixed@);
        let sortedv = crate::parties::ins_sort(crate::parties::party_views(parties@));
        let boundary = crate::parties::spec_below_start(headers, above_start as int);
        assert forall|g: int| 0 <= g < info.groups_above@.len()
            implies #[trigger] info.groups_above.deep_view()[g] == crate::parties::spec_groups_split(
            sortedv,
            headers,
            above_start as int,
            boundary,
            true,
        )[g] by {
            assert(info.groups_above@[g].deep_view() =~= info.groups_above@[g]@);
            assert(crate::parties::party_views(info.sorted@)[g] == sortedv[g]);
        }
        assert(info.groups_above.deep_view() =~~= crate::parties::spec_groups_split(
            sortedv,
            headers,
            above_start as int,
            boundary,
            true,
        ));
        assert forall|g: int| 0 <= g < info.groups_below@.len()
            implies #[trigger] info.groups_below.deep_view()[g] == crate::parties::spec_groups_split(
            sortedv,
            headers,
            above_start as int,
            boundary,
            false,
        )[g] by {
            assert(info.groups_below@[g].deep_view() =~= info.groups_below@[g]@);
            assert(crate::parties::party_views(info.sorted@)[g] == sortedv[g]);
        }
        assert(info.groups_below.deep_view() =~~= crate::parties::spec_groups_split(
            sortedv,
            headers,
            above_start as int,
            boundary,
            false,
        ));
    }
    let tree: Vec<Vec<usize>> = crate::indexer::make_combo_tree(groups_count);
    let n_cells: usize = tree.len();
    proof {
        crate::indexer::lemma_all_orderings_len(groups_count as nat);
        assert(tree.deep_view().len() == tree@.len());
        assert(n_cells == skip_shorter(groups_count as nat, groups_count as nat + 1));
    }
    let d = Distributor {
        interner,
        rows: Vec::new(),
        below_start: info.below_start,
        below_groups,
        groups_above: info.groups_above,
        above_start,
        cands_count: prefs_headers_fixed.len() - above_start,
        groups_count,
        n_cells,
        ballots: 0,
        btl_count: 0,
    };
    proof {
        assert(sum_totals(d.rows@) == 0);
        assert(d.groups_above@.len() == d.groups_count);
    }
    Ok((d, info.sorted))
}

} // verus!
