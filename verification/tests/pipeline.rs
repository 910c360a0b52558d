//! The three pipeline phases on small worked examples.

use nparty::ballot::handle_below;
use nparty::booths::{DistError, Distributor, Interner};
use nparty::districts::{make_districts, CombineError, DistRow};
use nparty::projection::{project, BoothData, BoothVotes, ProjError, Sa1Cells, Sa1Row, Sa1Table, SCALE};
use nparty::utils::{fix_prefs_headers, StateAb};

const MAX: usize = usize::MAX;

/// Column layout shared by the distribution tests: six metadata cells,
/// two ATL ticket cells, then six BTL candidate cells, of which the
/// first two belong to the configured groups A and B.
fn below_groups() -> Vec<usize> {
    vec![MAX, MAX, MAX, MAX, MAX, MAX, MAX, MAX, 0, 1, MAX, MAX, MAX, MAX]
}

fn fresh_distributor() -> Distributor {
    Distributor {
        interner: Interner::new(),
        rows: Vec::new(),
        below_start: 8,
        below_groups: below_groups(),
        groups_above: vec![vec![1], vec![2]],
        above_start: 6,
        cands_count: 8,
        groups_count: 2,
        // One cell per ordering over two groups: None, A, B, AB, BA.
        n_cells: 5,
        ballots: 0,
        btl_count: 0,
    }
}

fn record(cells: &[&str]) -> Vec<Vec<u8>> {
    cells.iter().map(|c| c.as_bytes().to_vec()).collect()
}

/// A BTL-formal ballot preferencing b1 first and a1 second reduces to
/// the ordering B-then-A, which ranks 4 among the five orderings.
#[test]
fn round_trip_btl_ordering() {
    let rec = record(&[
        "VIC", "Div", "Booth", "1", "1", "1", "", "", "2", "1", "3", "4", "5", "6",
    ]);
    let idx = handle_below(&rec, 8, &below_groups(), 2);
    assert_eq!(idx, Some(4));
}

/// Three formal BTL ballots reducing to A-then-B and one blank ballot:
/// the booth's row holds count 3 at that ordering, count 1 at None, and
/// total 4.
#[test]
fn worked_distribution_case() {
    let mut d = fresh_distributor();
    let ab = record(&[
        "VIC", "Div", "Booth", "1", "1", "1", "", "", "1", "2", "3", "4", "5", "6",
    ]);
    let blank = record(&[
        "VIC", "Div", "Booth", "1", "1", "1", "", "", "", "", "", "", "", "",
    ]);
    assert!(d.process_ballot(&ab).is_ok());
    assert!(d.process_ballot(&ab).is_ok());
    assert!(d.process_ballot(&ab).is_ok());
    assert!(d.process_ballot(&blank).is_ok());
    assert_eq!(d.rows.len(), 1);
    // Orderings: None(0), A(1), B(2), AB(3), BA(4).
    assert_eq!(d.rows[0].counts, vec![1, 0, 0, 3, 0]);
    assert_eq!(d.rows[0].total, 4);
    assert_eq!(d.ballots, 4);
    assert_eq!(d.btl_count, 3);
    // Every ballot went to exactly one cell: the counts sum to the total.
    let sum: u64 = d.rows[0].counts.iter().sum();
    assert_eq!(sum, d.rows[0].total);
}

/// Ballots from different booths land in different tally rows.
#[test]
fn distribution_separates_booths() {
    let mut d = fresh_distributor();
    let one = record(&[
        "VIC", "DivA", "Booth1", "1", "1", "1", "", "", "1", "2", "3", "4", "5", "6",
    ]);
    let two = record(&[
        "VIC", "DivA", "Booth2", "1", "1", "1", "", "", "", "", "", "", "", "",
    ]);
    assert!(d.process_ballot(&one).is_ok());
    assert!(d.process_ballot(&two).is_ok());
    assert_eq!(d.rows.len(), 2);
    assert_eq!(d.rows[0].total, 1);
    assert_eq!(d.rows[1].total, 1);
}

/// An ATL-only ballot is reduced from the ticket cells.
#[test]
fn atl_fallback() {
    let mut d = fresh_distributor();
    // ATL cells: A gets 2, B gets 1: ordering B-then-A, rank 4.
    let rec = record(&[
        "VIC", "Div", "Booth", "1", "1", "1", "2", "1", "", "", "", "", "", "",
    ]);
    assert!(d.process_ballot(&rec).is_ok());
    assert_eq!(d.rows[0].counts, vec![0, 0, 0, 0, 1]);
}

/// The superseded ballot layout aborts the run at once.
#[test]
fn legacy_format_is_fatal() {
    let mut d = fresh_distributor();
    let rec = record(&["foo", "---", "bar"]);
    assert_eq!(d.process_ballot(&rec), Err(DistError::LegacyFormat));
    let short = record(&["foo"]);
    assert_eq!(d.process_ballot(&short), Err(DistError::MalformedRecord));
}

fn booth_data() -> BoothData {
    BoothData {
        rows: vec![BoothVotes {
            div: b"Div".to_vec(),
            booth: b"Booth".to_vec(),
            votes: vec![3, 1, 4],
        }],
        n_cols: 3,
    }
}

fn sa1_row(year: &str, state: &str, sa1: &str, votes: u64) -> Sa1Row {
    Sa1Row {
        year: year.as_bytes().to_vec(),
        state: state.as_bytes().to_vec(),
        div: b"Div".to_vec(),
        sa1: sa1.as_bytes().to_vec(),
        booth: b"Booth".to_vec(),
        votes,
    }
}

/// Booth weights are redistributed proportionally, in micro-units.
#[test]
fn projection_weights() {
    let booths = booth_data();
    let rows = vec![sa1_row("2022", "VIC", "100", 2)];
    let out = project(&booths, &rows, StateAb::VIC, &b"2022".to_vec()).unwrap();
    assert_eq!(out.rows.len(), 1);
    assert_eq!(out.rows[0].id, b"100".to_vec());
    // 3 * 2/4, 1 * 2/4 and 4 * 2/4 votes, in millionths.
    assert_eq!(out.rows[0].cells, vec![1_500_000, 500_000, 2_000_000]);
}

/// A booth whose recorded total is zero contributes nothing to any SA1
/// it would otherwise feed: no division by zero, no panic.
#[test]
fn zero_total_booth_contributes_nothing() {
    let booths = BoothData {
        rows: vec![BoothVotes {
            div: b"Div".to_vec(),
            booth: b"Booth".to_vec(),
            votes: vec![0, 0, 0],
        }],
        n_cols: 3,
    };
    let rows = vec![sa1_row("2022", "VIC", "100", 2)];
    let out = project(&booths, &rows, StateAb::VIC, &b"2022".to_vec()).unwrap();
    assert_eq!(out.rows.len(), 1);
    assert_eq!(out.rows[0].cells, vec![0, 0, 0]);
}

/// A correspondence row for this jurisdiction with the wrong year aborts
/// the projection; a wrong-jurisdiction row is merely skipped.
#[test]
fn year_mismatch_is_fatal() {
    let booths = booth_data();
    let bad_year = vec![sa1_row("2019", "VIC", "100", 2)];
    assert!(matches!(
        project(&booths, &bad_year, StateAb::VIC, &b"2022".to_vec()),
        Err(ProjError::YearMismatch)
    ));
    // The same year mismatch on another jurisdiction's row is benign.
    let other_state = vec![sa1_row("2019", "NSW", "100", 2)];
    let out = project(&booths, &other_state, StateAb::VIC, &b"2022".to_vec()).unwrap();
    assert_eq!(out.rows.len(), 0);
}

/// A booth absent from the loaded data is silently skipped.
#[test]
fn missing_booth_skipped() {
    let booths = booth_data();
    let mut row = sa1_row("2022", "VIC", "100", 2);
    row.booth = b"Elsewhere".to_vec();
    let out = project(&booths, &vec![row], StateAb::VIC, &b"2022".to_vec()).unwrap();
    assert_eq!(out.rows.len(), 0);
}

/// SA1 "100" with weights [10, 5] and total 15 feeds district "X" with
/// population 30: multiplier 2, so the district gains [20, 10].
#[test]
fn worked_combination_case() {
    let sa1s = Sa1Table {
        rows: vec![Sa1Cells {
            id: b"100".to_vec(),
            cells: vec![10 * SCALE, 5 * SCALE, 15 * SCALE],
        }],
        n_cols: 3,
    };
    let rows = vec![DistRow {
        sa1: b"100".to_vec(),
        dist: b"X".to_vec(),
        pop: 30,
        has_pop: true,
    }];
    let out = make_districts(&sa1s, &rows).unwrap();
    assert_eq!(out.rows.len(), 1);
    assert_eq!(out.rows[0].id, b"X".to_vec());
    assert_eq!(out.rows[0].cells, vec![20 * SCALE, 10 * SCALE, 30 * SCALE]);
}

/// Without population data an SA1 is assigned wholly to the first
/// district encountered.
#[test]
fn first_seen_split_rule() {
    let sa1s = Sa1Table {
        rows: vec![Sa1Cells { id: b"100".to_vec(), cells: vec![8, 4, 12] }],
        n_cols: 3,
    };
    let rows = vec![
        DistRow { sa1: b"100".to_vec(), dist: b"X".to_vec(), pop: 0, has_pop: false },
        DistRow { sa1: b"100".to_vec(), dist: b"Y".to_vec(), pop: 0, has_pop: false },
    ];
    let out = make_districts(&sa1s, &rows).unwrap();
    assert_eq!(out.rows.len(), 1);
    assert_eq!(out.rows[0].id, b"X".to_vec());
    assert_eq!(out.rows[0].cells, vec![8, 4, 12]);
}

/// An SA1 with population data but a zero total contributes nothing.
#[test]
fn combination_zero_total_guard() {
    let sa1s = Sa1Table {
        rows: vec![Sa1Cells { id: b"100".to_vec(), cells: vec![0, 0, 0] }],
        n_cols: 3,
    };
    let rows = vec![DistRow {
        sa1: b"100".to_vec(),
        dist: b"X".to_vec(),
        pop: 30,
        has_pop: true,
    }];
    let out = make_districts(&sa1s, &rows).unwrap();
    assert_eq!(out.rows[0].cells, vec![0, 0, 0]);
}

/// An accumulated weight that leaves the fixed-point range is an error,
/// not a wrapped value.
#[test]
fn combination_overflow_detected() {
    let sa1s = Sa1Table {
        rows: vec![Sa1Cells { id: b"100".to_vec(), cells: vec![u64::MAX, u64::MAX] }],
        n_cols: 2,
    };
    let rows = vec![
        DistRow { sa1: b"100".to_vec(), dist: b"X".to_vec(), pop: 0, has_pop: false },
        DistRow { sa1: b"100".to_vec(), dist: b"X".to_vec(), pop: u64::MAX, has_pop: true },
    ];
    assert!(matches!(make_districts(&sa1s, &rows), Err(CombineError::Overflow)));
}

/// Header cells broken by unquoted commas are glued back together.
#[test]
fn header_repair() {
    let raw: Vec<Vec<u8>> = vec![
        b"State".to_vec(),
        b"Division".to_vec(),
        b"Vote Collection Point Name".to_vec(),
        b"Vote Collection Point ID".to_vec(),
        b"Batch No".to_vec(),
        b"Paper No".to_vec(),
        b"A:Party One".to_vec(),
        b"B:Party Two".to_vec(),
        b"A:SMITH John".to_vec(),
        b"broken tail".to_vec(),
        b"B:DOE Jane".to_vec(),
    ];
    let fixed = fix_prefs_headers(&raw, 6);
    assert_eq!(fixed.len(), 10);
    assert_eq!(fixed[8], b"A:SMITH John,broken tail".to_vec());
    assert_eq!(fixed[9], b"B:DOE Jane".to_vec());
}

/// Interned names resolve back to themselves and reuse symbols.
#[test]
fn interner_round_trip() {
    let mut i = Interner::new();
    let a = i.intern(&b"Division".to_vec());
    let b = i.intern(&b"Booth".to_vec());
    let a2 = i.intern(&b"Division".to_vec());
    assert_eq!(a, a2);
    assert_ne!(a, b);
    assert_eq!(i.resolve(a), &b"Division".to_vec());
    assert_eq!(i.resolve(b), &b"Booth".to_vec());
}

use nparty::booths::{BoothInfo, BoothRecord, Interner as I2};
use nparty::output::{aggregate_specials, write_output};

/// Booths whose names mention a special-vote marker are merged into
/// per-division category rows and removed from the ordinary tallies.
#[test]
fn specials_are_aggregated() {
    let mut d = fresh_distributor();
    let ordinary = record(&[
        "VIC", "Div", "Booth", "1", "1", "1", "", "", "1", "2", "3", "4", "5", "6",
    ]);
    let postal1 = record(&[
        "VIC", "Div", "POSTAL 1", "1", "1", "1", "", "", "1", "2", "3", "4", "5", "6",
    ]);
    let postal2 = record(&[
        "VIC", "Div", "POSTAL 2", "1", "1", "1", "", "", "", "", "", "", "", "",
    ]);
    assert!(d.process_ballot(&ordinary).is_ok());
    assert!(d.process_ballot(&postal1).is_ok());
    assert!(d.process_ballot(&postal2).is_ok());
    let (rem, sp) = aggregate_specials(d.rows, &d.interner, d.n_cells).unwrap();
    assert_eq!(rem.len(), 1);
    assert_eq!(rem[0].total, 1);
    // Entries exist for the markers tried, with the postal booths merged.
    let postal = sp
        .iter()
        .find(|r| r.cat == b"Postal".to_vec())
        .expect("postal row");
    assert_eq!(postal.div, b"Div".to_vec());
    assert_eq!(postal.counts, vec![1, 0, 0, 1, 0]);
    assert_eq!(postal.total, 2);
}

/// The output has a header, then booths sorted by division and booth
/// name, then the special categories.
#[test]
fn output_rows_are_sorted() {
    let mut d = fresh_distributor();
    let b2 = record(&[
        "VIC", "Div", "Zebra Hall", "1", "1", "1", "", "", "1", "2", "3", "4", "5", "6",
    ]);
    let b1 = record(&[
        "VIC", "Div", "Apple Hall", "1", "1", "1", "", "", "", "", "", "", "", "",
    ]);
    assert!(d.process_ballot(&b2).is_ok());
    assert!(d.process_ballot(&b1).is_ok());
    let mut booths: Vec<BoothInfo> = Vec::new();
    let mut reference = I2::new();
    for (name, id) in [("Zebra Hall", 7u64), ("Apple Hall", 3u64)] {
        let div = reference.intern(&b"Div".to_vec());
        let booth = reference.intern(&name.as_bytes().to_vec());
        booths.push(BoothInfo {
            div,
            booth,
            record: BoothRecord {
                state: StateAb::VIC,
                division_id: 1,
                division_nm: b"Div".to_vec(),
                polling_place_id: id,
                polling_place_type_id: 1,
                polling_place_nm: name.as_bytes().to_vec(),
                latitude: b"-37.8".to_vec(),
                longitude: b"144.9".to_vec(),
            },
        });
    }
    let (rem, sp) = aggregate_specials(d.rows, &d.interner, d.n_cells).unwrap();
    let labels: Vec<Vec<u8>> = vec![
        b"None".to_vec(),
        b"A".to_vec(),
        b"B".to_vec(),
        b"AB".to_vec(),
        b"BA".to_vec(),
    ];
    let out = write_output(&rem, &sp, &booths, &d.interner, &labels).unwrap();
    assert_eq!(
        out[0],
        vec![
            b"ID".to_vec(),
            b"Division".to_vec(),
            b"Booth".to_vec(),
            b"Latitude".to_vec(),
            b"Longitude".to_vec(),
            b"None".to_vec(),
            b"A".to_vec(),
            b"B".to_vec(),
            b"AB".to_vec(),
            b"BA".to_vec(),
            b"Total".to_vec(),
        ]
    );
    // Apple Hall sorts before Zebra Hall.
    assert_eq!(out[1][2], b"Apple Hall".to_vec());
    assert_eq!(out[1][0], b"3".to_vec());
    assert_eq!(out[1][5], b"1".to_vec());
    assert_eq!(out[1][10], b"1".to_vec());
    assert_eq!(out[2][2], b"Zebra Hall".to_vec());
    assert_eq!(out[2][8], b"1".to_vec());
    // Four special categories follow, all zero.
    assert_eq!(out.len(), 3 + 4);
    assert_eq!(out[3][1], b"Div".to_vec());
    assert_eq!(out[3][2], b"Absent".to_vec());
    assert_eq!(out[3][10], b"0".to_vec());
}

use nparty::parties::{make_candidate_info, sort_parties, make_below_groups, Party};

/// Group names sorted define the group indices; candidate columns are
/// split at the below-the-line boundary.
#[test]
fn candidate_info_setup() {
    let headers: Vec<Vec<u8>> = [
        "State", "Division", "Vote Collection Point Name", "Vote Collection Point ID",
        "Batch No", "Paper No", "A:Party One", "B:Party Two", "A:SMITH John", "B:DOE Jane",
    ]
    .iter()
    .map(|s| s.as_bytes().to_vec())
    .collect();
    let parties = vec![
        Party { name: b"B".to_vec(), cands: vec![b"B:Party Two".to_vec(), b"B:DOE Jane".to_vec()] },
        Party { name: b"A".to_vec(), cands: vec![b"A:Party One".to_vec(), b"A:SMITH John".to_vec()] },
    ];
    let info = make_candidate_info(&parties, &headers, 6).unwrap();
    assert_eq!(info.sorted[0].name, b"A".to_vec());
    assert_eq!(info.sorted[1].name, b"B".to_vec());
    assert_eq!(info.below_start, 8);
    assert_eq!(info.groups_above, vec![vec![1], vec![2]]);
    assert_eq!(info.groups_below, vec![vec![3], vec![4]]);
    let bg = make_below_groups(&info.groups_below, 6, headers.len());
    assert_eq!(bg[8], 0);
    assert_eq!(bg[9], 1);
    assert_eq!(bg[0], usize::MAX);
    // A missing candidate is detected at setup, before any ballot.
    let bad = vec![Party { name: b"C".to_vec(), cands: vec![b"C:Nobody".to_vec()] }];
    assert!(make_candidate_info(&bad, &headers, 6).is_err());
    // sort_parties orders by name.
    let sorted = sort_parties(vec![
        Party { name: b"Z".to_vec(), cands: vec![] },
        Party { name: b"A".to_vec(), cands: vec![] },
    ]);
    assert_eq!(sorted[0].name, b"A".to_vec());
}

use nparty::projection::{micro_bytes, sort_table};

/// Fixed-point weights print as plain decimals with the fraction
/// trimmed of trailing zeros.
#[test]
fn micro_formatting() {
    assert_eq!(micro_bytes(0), b"0".to_vec());
    assert_eq!(micro_bytes(2 * SCALE), b"2".to_vec());
    assert_eq!(micro_bytes(1_500_000), b"1.5".to_vec());
    assert_eq!(micro_bytes(1_000_001), b"1.000001".to_vec());
    assert_eq!(micro_bytes(123_456_789), b"123.456789".to_vec());
}

/// Output tables list their rows in id order.
#[test]
fn table_sorting() {
    let table = Sa1Table {
        rows: vec![
            Sa1Cells { id: b"200".to_vec(), cells: vec![1] },
            Sa1Cells { id: b"100".to_vec(), cells: vec![2] },
        ],
        n_cols: 1,
    };
    let sorted = sort_table(table);
    assert_eq!(sorted.rows[0].id, b"100".to_vec());
    assert_eq!(sorted.rows[1].id, b"200".to_vec());
}

use nparty::projection::parse_micro;

/// Weights written out read back to the same micro-unit value.
#[test]
fn micro_round_trip() {
    for v in [0u64, 1, 999_999, 1_000_000, 1_500_000, 123_456_789, 10 * SCALE] {
        assert_eq!(parse_micro(&micro_bytes(v)), v);
    }
    assert_eq!(parse_micro(b"2"), 2 * SCALE);
    assert_eq!(parse_micro(b"1.5"), 1_500_000);
    assert_eq!(parse_micro(b"0.000001"), 1);
    assert_eq!(parse_micro(b"1."), 1_000_000);
    assert_eq!(parse_micro(b".5"), 500_000);
}

/// A malformed cell reads as zero, as the reference loaders treat any
/// cell that does not parse as a number.
#[test]
fn malformed_micro_cells_are_zero() {
    assert_eq!(parse_micro(b""), 0);
    assert_eq!(parse_micro(b"."), 0);
    assert_eq!(parse_micro(b"1x2"), 0);
    assert_eq!(parse_micro(b"1.2.3"), 0);
    assert_eq!(parse_micro(b" 1"), 0);
    assert_eq!(parse_micro(b"-1"), 0);
    assert_eq!(parse_micro(b"abc"), 0);
}
