//! The run's party configuration: group names mapped to candidate
//! columns of the ballot header.
//!
//! Group names, sorted, define the stable group index every phase uses.

use crate::booths::{byte_views, bytes_eq, lex_le};
use crate::utils::{bytes_has_prefix, copy_bytes, has_prefix};
use vstd::prelude::*;

verus! {

/// One configured group: a name and its candidate identifiers, each of
/// the form `TICKET:LABEL`.
pub struct Party {
    pub name: Vec<u8>,
    pub cands: Vec<Vec<u8>>,
}

/// The configured groups of one scenario.
pub type Parties = Vec<Party>;

/// The abstract value of one party.
pub open spec fn party_view(p: Party) -> (Seq<u8>, Seq<Seq<u8>>) {
    (p.name@, byte_views(p.cands@))
}

pub open spec fn party_views(s: Seq<Party>) -> Seq<(Seq<u8>, Seq<Seq<u8>>)> {
    Seq::new(s.len(), |i: int| party_view(s[i]))
}

/// Where a party belongs among those already sorted: before the first
/// name that does not precede it.
pub open spec fn ins_pos(s: Seq<(Seq<u8>, Seq<Seq<u8>>)>, key: Seq<u8>) -> int
    decreases s.len(),
{
    if s.len() == 0 {
        0
    } else if lex_le(s[0].0, key) {
        1 + ins_pos(s.drop_first(), key)
    } else {
        0
    }
}

/// Insertion sort of parties by name.
pub open spec fn ins_sort(s: Seq<(Seq<u8>, Seq<Seq<u8>>)>) -> Seq<(Seq<u8>, Seq<Seq<u8>>)>
    decreases s.len(),
{
    if s.len() == 0 {
        s
    } else {
        let sorted = ins_sort(s.drop_last());
        sorted.insert(ins_pos(sorted, s.last().0), s.last())
    }
}

proof fn lemma_ins_pos_range(s: Seq<(Seq<u8>, Seq<Seq<u8>>)>, key: Seq<u8>)
    ensures
        0 <= ins_pos(s, key) <= s.len(),
    decreases s.len(),
{
    if s.len() > 0 {
        lemma_ins_pos_range(s.drop_first(), key);
    }
}

/// Order the groups by name: the sorted positions are the group indices.
pub fn sort_parties(parties: Parties) -> (r: Parties)
    ensures
        party_views(r@) == ins_sort(party_views(parties@)),
{
    let ghost orig = party_views(parties@);
    let mut parties = parties;
    let total: usize = parties.len();
    proof {
        assert(orig.len() == total);
    }
    let mut out: Parties = Vec::new();
    let mut i: usize = 0;
    proof {
        assert(party_views(out@) =~= ins_sort(orig.take(0)));
    }
    while parties.len() > 0
        invariant
            orig.len() <= usize::MAX,
            i == orig.len() - parties@.len(),
            0 <= i <= orig.len(),
            forall|t: int| 0 <= t < parties@.len() ==> party_view(#[trigger] parties@[t]) == orig[i + t],
            party_views(out@) == ins_sort(orig.take(i as int)),
        decreases parties@.len(),
    {
        let ghost out_before = party_views(out@);
        let p: Party = parties.remove(0);
        proof {
            assert(party_view(p) == orig[i as int]);
            assert forall|t: int| 0 <= t < parties@.len() implies party_view(
                #[trigger] parties@[t],
            ) == orig[i + 1 + t] by {}
            lemma_ins_pos_range(out_before, p.name@);
        }
        let mut pos: usize = 0;
        let mut stop: bool = false;
        proof {
            assert(out_before.skip(0) =~= out_before);
        }
        while pos < out.len() && !stop
            invariant
                out_before == party_views(out@),
                pos <= out@.len(),
                ins_pos(out_before, p.name@) == pos + ins_pos(out_before.skip(pos as int), p.name@),
                stop ==> pos < out@.len() && !lex_le(out_before[pos as int].0, p.name@),
            decreases out@.len() - pos + (if stop {
                0int
            } else {
                1int
            }),
        {
            proof {
                assert(out_before.skip(pos as int)[0] == out_before[pos as int]);
                assert(out_before.skip(pos as int).drop_first() =~= out_before.skip(pos + 1));
                assert(party_views(out@)[pos as int] == party_view(out@[pos as int]));
            }
            if !crate::booths::bytes_le(&out[pos].name, &p.name) {
                stop = true;
            } else {
                pos = pos + 1;
            }
        }
        proof {
            if stop {
                assert(out_before.skip(pos as int)[0] == out_before[pos as int]);
                assert(ins_pos(out_before.skip(pos as int), p.name@) == 0);
            } else {
                assert(out_before.skip(pos as int).len() == 0);
            }
            assert(ins_pos(out_before, p.name@) == pos as int);
        }
        let ghost prev = out@;
        let ghost pv = party_view(p);
        out.insert(pos, p);
        proof {
            assert forall|t: int| 0 <= t < out@.len() implies party_views(out@)[t]
                == out_before.insert(pos as int, pv)[t] by {
                if t < pos {
                    assert(out@[t] == prev[t]);
                    assert(out_before[t] == party_view(prev[t]));
                } else if t == pos {
                    assert(out@[t] == prev.insert(pos as int, out@[pos as int])[t]);
                } else {
                    assert(out@[t] == prev[t - 1]);
                    assert(out_before[t - 1] == party_view(prev[t - 1]));
                }
            }
            assert(party_views(out@) =~= out_before.insert(pos as int, pv));
            assert(orig.take(i + 1).drop_last() =~= orig.take(i as int));
            assert(orig.take(i + 1).last() == orig[i as int]);
            assert(party_views(out@) =~= ins_sort(orig.take(i + 1)));
        }
        i = i + 1;
    }
    proof {
        assert(orig.take(orig.len() as int) =~= orig);
    }
    out
}


/// A fresh copy of the configured groups.
pub fn copy_parties(parties: &Parties) -> (r: Parties)
    ensures
        party_views(r@) == party_views(parties@),
{
    let mut r: Parties = Vec::new();
    let mut i: usize = 0;
    while i < parties.len()
        invariant
            i <= parties@.len(),
            r@.len() == i,
            forall|t: int| 0 <= t < i ==> party_view(#[trigger] r@[t]) == party_view(parties@[t]),
        decreases parties@.len() - i,
    {
        let src: &Party = &parties[i];
        let name: Vec<u8> = copy_bytes(&src.name);
        let mut cands: Vec<Vec<u8>> = Vec::new();
        let mut j: usize = 0;
        while j < src.cands.len()
            invariant
                j <= src.cands@.len(),
                cands@.len() == j,
                forall|t: int| 0 <= t < j ==> #[trigger] cands@[t]@ == src.cands@[t]@,
            decreases src.cands@.len() - j,
        {
            cands.push(copy_bytes(&src.cands[j]));
            j = j + 1;
        }
        proof {
            assert(byte_views(cands@) =~= byte_views(src.cands@));
        }
        r.push(Party { name, cands });
        i = i + 1;
    }
    proof {
        assert(party_views(r@) =~= party_views(parties@));
    }
    r
}


/// Every candidate of an input party survives into the sorted parties.
proof fn lemma_ins_sort_covers(orig: Seq<(Seq<u8>, Seq<Seq<u8>>)>, g: int, j: int)
    requires
        0 <= g < orig.len(),
        0 <= j < orig[g].1.len(),
    ensures
        exists|g2: int, j2: int|
            0 <= g2 < ins_sort(orig).len() && 0 <= j2 < ins_sort(orig)[g2].1.len() && (
            #[trigger] ins_sort(orig)[g2].1[j2]) == orig[g].1[j],
    decreases orig.len(),
{
    let sorted = ins_sort(orig.drop_last());
    let pos = ins_pos(sorted, orig.last().0);
    lemma_ins_pos_range(sorted, orig.last().0);
    lemma_ins_sort_len(orig.drop_last());
    sorted.insert_ensures(pos, orig.last());
    if g == orig.len() - 1 {
        assert(ins_sort(orig)[pos] == orig.last());
        assert(ins_sort(orig)[pos].1[j] == orig[g].1[j]);
    } else {
        assert(orig.drop_last()[g].1[j] == orig[g].1[j]);
        lemma_ins_sort_covers(orig.drop_last(), g, j);
        let (g2, j2) = choose|g2: int, j2: int|
            0 <= g2 < sorted.len() && 0 <= j2 < sorted[g2].1.len()
                && (#[trigger] sorted[g2].1[j2]) == orig.drop_last()[g].1[j];
        let g3 = if g2 < pos {
            g2
        } else {
            g2 + 1
        };
        assert(ins_sort(orig)[g3] == sorted[g2]);
        assert(ins_sort(orig)[g3].1[j2] == orig[g].1[j]);
    }
}

/// The 1-based candidate number of a configured candidate identifier:
/// one past the distance from `above_start` to the identifier's last
/// occurrence among the header cells, if it occurs at all.
pub open spec fn spec_cand_num(
    headers: Seq<Seq<u8>>,
    above_start: int,
    cand: Seq<u8>,
    end: int,
) -> Option<int>
    decreases end - above_start,
{
    if end <= above_start {
        None
    } else if 0 <= end - 1 < headers.len() && headers[end - 1] == cand {
        Some(end - above_start)
    } else {
        spec_cand_num(headers, above_start, cand, end - 1)
    }
}

/// Where the below-the-line columns start: the first header cell past
/// `above_start` that begins a second `A:` run, or `above_start` when
/// the ballot has no grouped candidates.
pub open spec fn spec_below_start(headers: Seq<Seq<u8>>, above_start: int) -> int {
    spec_below_from(headers, above_start, above_start + 1)
}

pub open spec fn spec_below_from(headers: Seq<Seq<u8>>, above_start: int, i: int) -> int
    decreases headers.len() - i,
{
    if i >= headers.len() || i <= above_start {
        above_start
    } else if has_prefix(headers[i], seq![65u8, 58u8]) {
        i
    } else {
        spec_below_from(headers, above_start, i + 1)
    }
}

/// The candidate numbers of one party that sit at or before the
/// below-the-line boundary, in configuration order.
pub open spec fn spec_cands_split(
    cands: Seq<Seq<u8>>,
    headers: Seq<Seq<u8>>,
    above_start: int,
    boundary: int,
    above: bool,
    j: int,
) -> Seq<usize>
    decreases j,
{
    if j <= 0 {
        Seq::<usize>::empty()
    } else {
        let pre = spec_cands_split(cands, headers, above_start, boundary, above, j - 1);
        match spec_cand_num(headers, above_start, cands[j - 1], headers.len() as int) {
            None => pre,
            Some(cn) => {
                if (cn <= boundary - above_start) == above {
                    pre.push(cn as usize)
                } else {
                    pre
                }
            },
        }
    }
}


/// The per-group candidate-number lists of the sorted parties, split at
/// the below-the-line boundary.
pub open spec fn spec_groups_split(
    sorted: Seq<(Seq<u8>, Seq<Seq<u8>>)>,
    headers: Seq<Seq<u8>>,
    above_start: int,
    boundary: int,
    above: bool,
) -> Seq<Seq<usize>> {
    Seq::new(
        sorted.len(),
        |g: int|
            spec_cands_split(
                sorted[g].1,
                headers,
                above_start,
                boundary,
                above,
                sorted[g].1.len() as int,
            ),
    )
}

/// Why the candidate configuration cannot be matched to the ballot.
#[derive(Debug, PartialEq, Eq, Structural, Clone, Copy)]
pub enum SetupError {
    /// A configured candidate identifier does not occur among the ballot
    /// header's candidate columns.
    MissingCandidate,
    /// More groups are configured than the rank arithmetic supports.
    TooManyGroups,
}

/// The candidate-column map of one run, derived from the configured
/// groups and the repaired ballot header.
pub struct CandidateInfo {
    /// The groups sorted by name: position is the group index.
    pub sorted: Parties,
    /// Absolute index of the first below-the-line column.
    pub below_start: usize,
    /// Above-the-line candidate numbers per group.
    pub groups_above: Vec<Vec<usize>>,
    /// Below-the-line candidate numbers per group.
    pub groups_below: Vec<Vec<usize>>,
}

/// Match the configured groups against the ballot header: sort the
/// groups, find each candidate's column, and split each group's columns
/// into above-the-line and below-the-line.
///
/// Fails, before any ballot is read, exactly when some configured
/// candidate identifier is missing from the header.
pub fn make_candidate_info(
    parties: &Parties,
    prefs_headers_fixed: &Vec<Vec<u8>>,
    above_start: usize,
) -> (r: Result<CandidateInfo, SetupError>)
    requires
        above_start <= prefs_headers_fixed@.len(),
        prefs_headers_fixed@.len() < usize::MAX,
    ensures
        match r {
            Ok(info) => {
                let headers = byte_views(prefs_headers_fixed@);
                &&& party_views(info.sorted@) == ins_sort(party_views(parties@))
                &&& forall|g: int, j: int|
                    0 <= g < party_views(parties@).len() && 0 <= j < party_views(
                        parties@,
                    )[g].1.len() ==> spec_cand_num(
                        headers,
                        above_start as int,
                        #[trigger] party_views(parties@)[g].1[j],
                        prefs_headers_fixed@.len() as int,
                    ) is Some
                &&& info.below_start as int == spec_below_start(headers, above_start as int)
                &&& info.groups_above@.len() == info.sorted@.len()
                &&& info.groups_below@.len() == info.sorted@.len()
                &&& forall|g: int|
                    0 <= g < info.sorted@.len() ==> (#[trigger] info.groups_above@[g])@
                        == spec_cands_split(
                        party_views(info.sorted@)[g].1,
                        headers,
                        above_start as int,
                        info.below_start as int,
                        true,
                        party_views(info.sorted@)[g].1.len() as int,
                    )
                &&& forall|g: int|
                    0 <= g < info.sorted@.len() ==> (#[trigger] info.groups_below@[g])@
                        == spec_cands_split(
                        party_views(info.sorted@)[g].1,
                        headers,
                        above_start as int,
                        info.below_start as int,
                        false,
                        party_views(info.sorted@)[g].1.len() as int,
                    )
                &&& forall|g: int, j: int|
                    0 <= g < info.groups_above@.len() && 0 <= j < info.groups_above@[g]@.len()
                        ==> 1 <= #[trigger] info.groups_above@[g]@[j] && info.groups_above@[g]@[j]
                        + above_start <= prefs_headers_fixed@.len() + 1
                &&& forall|g: int, j: int|
                    0 <= g < info.groups_below@.len() && 0 <= j < info.groups_below@[g]@.len()
                        ==> 1 <= #[trigger] info.groups_below@[g]@[j] && info.groups_below@[g]@[j]
                        + above_start <= prefs_headers_fixed@.len() + 1
            },
            Err(e) => {
                &&& e == SetupError::MissingCandidate
                &&& exists|g: int, j: int|
                    0 <= g < party_views(parties@).len() && 0 <= j < party_views(parties@)[g].1.len()
                        && spec_cand_num(
                        byte_views(prefs_headers_fixed@),
                        above_start as int,
                        #[trigger] party_views(parties@)[g].1[j],
                        prefs_headers_fixed@.len() as int,
                    ) is None
            },
        },
{
    let ghost headers = byte_views(prefs_headers_fixed@);
    let ghost orig_views = party_views(parties@);
    let sorted: Parties = sort_parties(copy_parties(parties));
    // The first ticket is labelled A and all tickets precede all
    // candidates, so the second cell starting `A:` is the first BTL
    // column; without one, only ungrouped candidates exist.
    let mut below_start: usize = above_start;
    let mut i: usize = above_start + 1;
    let a_colon: Vec<u8> = vec![65u8, 58u8];
    proof {
        assert(a_colon@ =~= seq![65u8, 58u8]);
    }
    let mut found_below: bool = false;
    while i < prefs_headers_fixed.len() && !found_below
        invariant
            above_start < i,
            headers == byte_views(prefs_headers_fixed@),
            a_colon@ == seq![65u8, 58u8],
            i <= headers.len() || i == above_start + 1,
            found_below ==> i < headers.len() && below_start == i && has_prefix(
                headers[i as int],
                seq![65u8, 58u8],
            ) && spec_below_from(headers, above_start as int, i as int) == spec_below_start(
                headers,
                above_start as int,
            ),
            !found_below ==> below_start == above_start && spec_below_from(
                headers,
                above_start as int,
                i as int,
            ) == spec_below_start(headers, above_start as int),
        decreases headers.len() - i + (if found_below {
            0int
        } else {
            1int
        }),
    {
        proof {
            assert(headers[i as int] == prefs_headers_fixed@[i as int]@);
        }
        if bytes_has_prefix(&prefs_headers_fixed[i], &a_colon) {
            below_start = i;
            found_below = true;
        } else {
            i = i + 1;
        }
    }
    proof {
        if found_below {
            assert(spec_below_from(headers, above_start as int, i as int) == i);
        } else {
            assert(spec_below_from(headers, above_start as int, i as int) == above_start);
        }
        assert(below_start as int == spec_below_start(headers, above_start as int));
    }
    // Split each group's candidates into ticket and candidate columns.
    let mut groups_above: Vec<Vec<usize>> = Vec::new();
    let mut groups_below: Vec<Vec<usize>> = Vec::new();
    let mut g: usize = 0;
    while g < sorted.len()
        invariant
            headers == byte_views(prefs_headers_fixed@),
            above_start <= prefs_headers_fixed@.len(),
            prefs_headers_fixed@.len() < usize::MAX,
            below_start as int == spec_below_start(headers, above_start as int),
            above_start <= below_start,
            orig_views == party_views(parties@),
            party_views(sorted@) == ins_sort(orig_views),
            g <= sorted@.len(),
            groups_above@.len() == g,
            groups_below@.len() == g,
            forall|g2: int, j2: int|
                0 <= g2 < g && 0 <= j2 < party_views(sorted@)[g2].1.len() ==> spec_cand_num(
                    headers,
                    above_start as int,
                    #[trigger] party_views(sorted@)[g2].1[j2],
                    prefs_headers_fixed@.len() as int,
                ) is Some,
            forall|g2: int|
                0 <= g2 < g ==> (#[trigger] groups_above@[g2])@ == spec_cands_split(
                    party_views(sorted@)[g2].1,
                    headers,
                    above_start as int,
                    below_start as int,
                    true,
                    party_views(sorted@)[g2].1.len() as int,
                ),
            forall|g2: int|
                0 <= g2 < g ==> (#[trigger] groups_below@[g2])@ == spec_cands_split(
                    party_views(sorted@)[g2].1,
                    headers,
                    above_start as int,
                    below_start as int,
                    false,
                    party_views(sorted@)[g2].1.len() as int,
                ),
            forall|g2: int, j: int|
                0 <= g2 < g && 0 <= j < groups_above@[g2]@.len()
                    ==> 1 <= #[trigger] groups_above@[g2]@[j]
                    && groups_above@[g2]@[j] + above_start <= prefs_headers_fixed@.len() + 1,
            forall|g2: int, j: int|
                0 <= g2 < g && 0 <= j < groups_below@[g2]@.len()
                    ==> 1 <= #[trigger] groups_below@[g2]@[j]
                    && groups_below@[g2]@[j] + above_start <= prefs_headers_fixed@.len() + 1,
        decreases sorted@.len() - g,
    {
        let cands: &Vec<Vec<u8>> = &sorted[g].cands;
        let ghost cviews = byte_views(cands@);
        proof {
            assert(party_views(sorted@)[g as int].1 == cviews);
        }
        let mut above_cands: Vec<usize> = Vec::new();
        let mut below_cands: Vec<usize> = Vec::new();
        let mut j: usize = 0;
        while j < cands.len()
            invariant
                headers == byte_views(prefs_headers_fixed@),
                above_start <= prefs_headers_fixed@.len(),
                prefs_headers_fixed@.len() < usize::MAX,
                above_start <= below_start,
                below_start as int == spec_below_start(headers, above_start as int),
                orig_views == party_views(parties@),
                party_views(sorted@) == ins_sort(orig_views),
                g < sorted@.len(),
                cviews == byte_views(cands@),
                cviews == party_views(sorted@)[g as int].1,
                j <= cviews.len(),
                forall|j2: int|
                    0 <= j2 < j ==> spec_cand_num(
                        headers,
                        above_start as int,
                        #[trigger] cviews[j2],
                        prefs_headers_fixed@.len() as int,
                    ) is Some,
                above_cands@ == spec_cands_split(
                    cviews,
                    headers,
                    above_start as int,
                    below_start as int,
                    true,
                    j as int,
                ),
                below_cands@ == spec_cands_split(
                    cviews,
                    headers,
                    above_start as int,
                    below_start as int,
                    false,
                    j as int,
                ),
                forall|t: int|
                    0 <= t < above_cands@.len() ==> 1 <= #[trigger] above_cands@[t]
                        && above_cands@[t] + above_start <= prefs_headers_fixed@.len() + 1,
                forall|t: int|
                    0 <= t < below_cands@.len() ==> 1 <= #[trigger] below_cands@[t]
                        && below_cands@[t] + above_start <= prefs_headers_fixed@.len() + 1,
            decreases cviews.len() - j,
        {
            let cand: &Vec<u8> = &cands[j];
            proof {
                assert(cviews[j as int] == cand@);
            }
            // Find the candidate's last occurrence in the header.
            let mut cn: usize = 0;
            let mut found: bool = false;
            let mut k: usize = prefs_headers_fixed.len();
            while k > above_start && !found
                invariant
                    headers == byte_views(prefs_headers_fixed@),
                    above_start <= k <= headers.len(),
                    found ==> above_start < k && 0 <= k - 1 < headers.len() && headers[k - 1]
                        == cand@ && cn == k - above_start && spec_cand_num(
                        headers,
                        above_start as int,
                        cand@,
                        headers.len() as int,
                    ) == spec_cand_num(headers, above_start as int, cand@, k as int),
                    !found ==> spec_cand_num(
                        headers,
                        above_start as int,
                        cand@,
                        headers.len() as int,
                    ) == spec_cand_num(headers, above_start as int, cand@, k as int),
                decreases k + (if found {
                    0int
                } else {
                    1int
                }),
            {
                proof {
                    assert(headers[k - 1] == prefs_headers_fixed@[k - 1]@);
                }
                if bytes_eq(&prefs_headers_fixed[k - 1], cand) {
                    cn = k - above_start;
                    found = true;
                } else {
                    k = k - 1;
                }
            }
            if !found {
                proof {
                    assert(spec_cand_num(headers, above_start as int, cand@, above_start as int)
                        is None);
                    assert(spec_cand_num(
                        headers,
                        above_start as int,
                        cviews[j as int],
                        headers.len() as int,
                    ) is None);
                    assert(exists|g2: int, j2: int|
                        0 <= g2 < party_views(parties@).len() && 0 <= j2 < party_views(
                            parties@,
                        )[g2].1.len() && spec_cand_num(
                            headers,
                            above_start as int,
                            #[trigger] party_views(parties@)[g2].1[j2],
                            headers.len() as int,
                        ) is None) by {
                        lemma_ins_sort_source(orig_views, g as int, j as int, cviews[j as int]);
                        let (g2, j2) = choose|g2: int, j2: int|
                            0 <= g2 < orig_views.len() && 0 <= j2 < orig_views[g2].1.len() && (
                            #[trigger] orig_views[g2].1[j2]) == cviews[j as int];
                        assert(party_views(parties@)[g2].1[j2] == cviews[j as int]);
                    }
                }
                return Err(SetupError::MissingCandidate);
            }
            proof {
                assert(spec_cand_num(headers, above_start as int, cand@, k as int) == Some(
                    k - above_start,
                ));
                assert(spec_cand_num(
                    headers,
                    above_start as int,
                    cviews[j as int],
                    prefs_headers_fixed@.len() as int,
                ) is Some);
            }
            if cn > below_start - above_start {
                below_cands.push(cn);
                proof {
                    assert(below_cands@ =~= spec_cands_split(
                        cviews,
                        headers,
                        above_start as int,
                        below_start as int,
                        false,
                        j + 1,
                    ));
                    assert(above_cands@ =~= spec_cands_split(
                        cviews,
                        headers,
                        above_start as int,
                        below_start as int,
                        true,
                        j + 1,
                    ));
                }
            } else {
                above_cands.push(cn);
                proof {
                    assert(above_cands@ =~= spec_cands_split(
                        cviews,
                        headers,
                        above_start as int,
                        below_start as int,
                        true,
                        j + 1,
                    ));
                    assert(below_cands@ =~= spec_cands_split(
                        cviews,
                        headers,
                        above_start as int,
                        below_start as int,
                        false,
                        j + 1,
                    ));
                }
            }
            j = j + 1;
        }
        groups_above.push(above_cands);
        groups_below.push(below_cands);
        g = g + 1;
    }
    proof {
        assert forall|g2: int, j2: int|
            0 <= g2 < party_views(parties@).len() && 0 <= j2 < party_views(parties@)[g2].1.len()
            implies spec_cand_num(
            headers,
            above_start as int,
            #[trigger] party_views(parties@)[g2].1[j2],
            prefs_headers_fixed@.len() as int,
        ) is Some by {
            lemma_ins_sort_covers(orig_views, g2, j2);
            let (g3, j3) = choose|g3: int, j3: int|
                0 <= g3 < ins_sort(orig_views).len() && 0 <= j3 < ins_sort(orig_views)[g3].1.len()
                    && (#[trigger] ins_sort(orig_views)[g3].1[j3]) == orig_views[g2].1[j2];
            assert(party_views(sorted@)[g3].1[j3] == orig_views[g2].1[j2]);
        }
    }
    Ok(
        CandidateInfo {
            sorted,
            below_start,
            groups_above,
            groups_below,
        },
    )
}

/// Every candidate of a sorted party came from some input party.
proof fn lemma_ins_sort_source(orig: Seq<(Seq<u8>, Seq<Seq<u8>>)>, g: int, j: int, cand: Seq<u8>)
    requires
        0 <= g < ins_sort(orig).len(),
        0 <= j < ins_sort(orig)[g].1.len(),
        ins_sort(orig)[g].1[j] == cand,
    ensures
        exists|g2: int, j2: int|
            0 <= g2 < orig.len() && 0 <= j2 < orig[g2].1.len() && #[trigger] orig[g2].1[j2] == cand,
    decreases orig.len(),
{
    if orig.len() > 0 {
        let sorted = ins_sort(orig.drop_last());
        let pos = ins_pos(sorted, orig.last().0);
        lemma_ins_pos_range(sorted, orig.last().0);
        lemma_ins_sort_len(orig.drop_last());
        if g == pos {
            assert(ins_sort(orig)[g] == orig.last());
            assert(orig[orig.len() - 1].1[j] == cand);
        } else {
            let g_in = if g < pos {
                g
            } else {
                g - 1
            };
            assert(ins_sort(orig)[g] == sorted[g_in]);
            lemma_ins_sort_source(orig.drop_last(), g_in, j, cand);
            let (g2, j2) = choose|g2: int, j2: int|
                0 <= g2 < orig.drop_last().len() && 0 <= j2 < orig.drop_last()[g2].1.len()
                    && #[trigger] orig.drop_last()[g2].1[j2] == cand;
            assert(orig[g2].1[j2] == cand);
        }
    }
}

proof fn lemma_ins_sort_len(s: Seq<(Seq<u8>, Seq<Seq<u8>>)>)
    ensures
        ins_sort(s).len() == s.len(),
    decreases s.len(),
{
    if s.len() > 0 {
        lemma_ins_sort_len(s.drop_last());
        lemma_ins_pos_range(ins_sort(s.drop_last()), s.last().0);
    }
}

/// Sorting the groups keeps their number.
pub proof fn lemma_ins_sort_len_pub(s: Seq<(Seq<u8>, Seq<Seq<u8>>)>)
    ensures
        ins_sort(s).len() == s.len(),
{
    lemma_ins_sort_len(s);
}

/// The column-to-group map the hot loop indexes by: each below-the-line
/// column of a configured group maps to that group, every other column
/// to `usize::MAX`.
pub open spec fn spec_below_groups(
    groups_below: Seq<Seq<usize>>,
    above_start: int,
    n_cols: int,
    g: int,
) -> Seq<usize>
    decreases g,
{
    if g <= 0 {
        Seq::new(n_cols as nat, |t: int| usize::MAX)
    } else {
        spec_write_group(
            spec_below_groups(groups_below, above_start, n_cols, g - 1),
            groups_below[g - 1],
            above_start,
            (g - 1) as usize,
            groups_below[g - 1].len() as int,
        )
    }
}

pub open spec fn spec_write_group(
    bg: Seq<usize>,
    cands: Seq<usize>,
    above_start: int,
    g: usize,
    j: int,
) -> Seq<usize>
    decreases j,
{
    if j <= 0 {
        bg
    } else {
        let pre = spec_write_group(bg, cands, above_start, g, j - 1);
        let pos = cands[j - 1] + above_start - 1;
        if 0 <= pos < pre.len() {
            pre.update(pos, g)
        } else {
            pre
        }
    }
}

/// Build the column-to-group map for the below-the-line hot loop.
pub fn make_below_groups(
    groups_below: &Vec<Vec<usize>>,
    above_start: usize,
    n_cols: usize,
) -> (bg: Vec<usize>)
    requires
        forall|g: int, j: int|
            0 <= g < groups_below@.len() && 0 <= j < groups_below@[g]@.len() ==> 1 <= (
            #[trigger] groups_below@[g]@[j]) && groups_below@[g]@[j] + above_start <= usize::MAX,
    ensures
        bg@ == spec_below_groups(
            groups_below.deep_view(),
            above_start as int,
            n_cols as int,
            groups_below@.len() as int,
        ),
        bg@.len() == n_cols,
{
    let ghost gviews = groups_below.deep_view();
    proof {
        assert(gviews.len() == groups_below@.len());
        assert(forall|t: int| 0 <= t < gviews.len() ==> gviews[t] =~= #[trigger] groups_below@[t]@);
    }
    let mut bg: Vec<usize> = Vec::new();
    let mut t: usize = 0;
    while t < n_cols
        invariant
            t <= n_cols,
            bg@.len() == t,
            forall|t2: int| 0 <= t2 < t ==> #[trigger] bg@[t2] == usize::MAX,
        decreases n_cols - t,
    {
        bg.push(usize::MAX);
        t = t + 1;
    }
    proof {
        assert(bg@ =~= spec_below_groups(gviews, above_start as int, n_cols as int, 0));
    }
    let mut g: usize = 0;
    while g < groups_below.len()
        invariant
            gviews == groups_below.deep_view(),
            gviews.len() == groups_below@.len(),
            forall|t2: int| 0 <= t2 < gviews.len() ==> gviews[t2] == #[trigger] groups_below@[t2]@,
            forall|g2: int, j: int|
                0 <= g2 < groups_below@.len() && 0 <= j < groups_below@[g2]@.len() ==> 1 <= (
                #[trigger] groups_below@[g2]@[j]) && groups_below@[g2]@[j] + above_start
                    <= usize::MAX,
            g <= gviews.len(),
            bg@.len() == n_cols,
            bg@ == spec_below_groups(gviews, above_start as int, n_cols as int, g as int),
        decreases gviews.len() - g,
    {
        let cands: &Vec<usize> = &groups_below[g];
        proof {
            assert(cands@ == gviews[g as int]);
        }
        let mut j: usize = 0;
        while j < cands.len()
            invariant
                cands@ == gviews[g as int],
                g < gviews.len(),
                gviews.len() == groups_below@.len(),
                forall|j2: int|
                    0 <= j2 < cands@.len() ==> 1 <= #[trigger] cands@[j2] && cands@[j2]
                        + above_start <= usize::MAX,
                j <= cands@.len(),
                bg@.len() == n_cols,
                bg@ == spec_write_group(
                    spec_below_groups(gviews, above_start as int, n_cols as int, g as int),
                    gviews[g as int],
                    above_start as int,
                    g,
                    j as int,
                ),
            decreases cands@.len() - j,
        {
            let c: usize = cands[j];
            let pos: usize = c - 1 + above_start;
            if pos < bg.len() {
                bg.set(pos, g);
            }
            j = j + 1;
        }
        proof {
            assert(bg@ == spec_below_groups(gviews, above_start as int, n_cols as int, g + 1));
        }
        g = g + 1;
    }
    bg
}

} // verus!
