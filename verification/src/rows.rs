//! Rows of a bench CSV: the records that the `csv` crate reads from the
//! body under the header line, and the integer columns of each record.
//!
//! Publisher rows are `t_s,sent,errors,rate_per_s,write_avg_us,write_max_us`;
//! subscriber rows are `t_s,recv,lost_wire,lost_dds,reord,dup,
//! clock_skew_skipped,rate_per_s,lat_p50_us,lat_p95_us,lat_p99_us,lat_max_us`.
//! Column 0 and the rate column hold decimal numbers, which the caller
//! reads; every other column is an unsigned integer read here.

use vstd::prelude::*;

use crate::bench::{BenchKind, RowCounters};
use crate::config::{opt_text, parse_unsigned, parse_unsigned_range};

verus! {

#[verifier::external_type_specification]
#[verifier::external_body]
pub struct ExCsvError(csv::Error);

/// What the `csv` crate reads from `body` with its first line taken as
/// the header: the fields of each record, up to the first malformed one,
/// and whether such a record stopped the reading.
pub uninterp spec fn csv_records_of(body: Seq<char>) -> (Seq<Seq<Seq<char>>>, bool);

/// The characters of each field of each record.
pub open spec fn records_view(rs: Seq<Vec<String>>) -> Seq<Seq<Seq<char>>> {
    rs.map_values(|r: Vec<String>| r@.map_values(|f: String| f@))
}

/// Reads the records of `body` with `csv::ReaderBuilder::new()
/// .has_headers(true)`, field by field, stopping at the first record the
/// reader refuses (a record whose width differs from the header's). The
/// contract claims only that the records and the stop are what the csv
/// crate produces from the text (`csv_records_of`); how it splits fields
/// and unquotes them is not stated.
#[verifier::external_body]
fn read_csv(body: &str) -> (r: (Vec<Vec<String>>, Option<csv::Error>))
    ensures
        csv_records_of(body@) == (records_view(r.0@), r.1 is Some),
{
    let mut rows: Vec<Vec<String>> = Vec::new();
    for rec in csv::ReaderBuilder::new().has_headers(true).from_reader(body.as_bytes()).records() {
        match rec {
            Ok(r) => rows.push(r.iter().map(|f| f.to_string()).collect()),
            Err(e) => return (rows, Some(e)),
        }
    }
    (rows, None)
}

/// Why a CSV row cannot be read.
pub enum RowError {
    /// The csv reader refused a record.
    Csv(csv::Error),
    /// Column `0` or the rate column holds no decimal number (its text,
    /// `None` when the record is too short).
    BadFloat(usize, Option<String>),
    /// An integer column holds no `u64` (its text, `None` when the record
    /// is too short).
    BadUnsigned(usize, Option<String>),
}

/// Records of a bench CSV body (whose first line is the column header),
/// and the reader's error if a malformed record stopped it.
pub fn csv_records(body: &str) -> (r: (Vec<Vec<String>>, Option<RowError>))
    ensures
        records_view(r.0@) == csv_records_of(body@).0,
        r.1 is Some <==> csv_records_of(body@).1,
        r.1 is Some ==> r.1.unwrap() is Csv,
{
    let (rows, err) = read_csv(body);
    let err = match err {
        Some(e) => Some(RowError::Csv(e)),
        None => None,
    };
    (rows, err)
}

/// Number of columns of a row.
pub open spec fn n_columns(kind: BenchKind) -> int {
    match kind {
        BenchKind::Pub => 6,
        BenchKind::Sub => 12,
    }
}

/// Column of the per-second rate.
pub open spec fn rate_col(kind: BenchKind) -> int {
    match kind {
        BenchKind::Pub => 3,
        BenchKind::Sub => 7,
    }
}

pub fn rate_column(kind: BenchKind) -> (r: usize)
    ensures
        r == rate_col(kind),
{
    match kind {
        BenchKind::Pub => 3,
        BenchKind::Sub => 7,
    }
}

/// Column `c` holds a decimal number rather than an integer.
pub open spec fn float_col(kind: BenchKind, c: int) -> bool {
    c == 0 || c == rate_col(kind)
}

/// `str::parse::<u64>` of field `i`, `None` when it fails or the record
/// has no such field.
pub open spec fn field_u64(f: Seq<String>, i: int) -> Option<u64> {
    if 0 <= i < f.len() {
        match parse_unsigned(f[i]@, u64::MAX as int) {
            Some(v) => Some(v as u64),
            None => None,
        }
    } else {
        None
    }
}

/// The characters of field `i`, if the record has it.
pub open spec fn field_text(f: Seq<String>, i: int) -> Option<Seq<char>> {
    if 0 <= i < f.len() {
        Some(f[i]@)
    } else {
        None
    }
}

/// Column `c` reads: the time column when `t_ok`, the rate column when
/// `rate_ok` (the caller's verdicts on the decimal columns), any other
/// column when it holds a `u64`.
pub open spec fn col_ok(f: Seq<String>, kind: BenchKind, t_ok: bool, rate_ok: bool, c: int) -> bool {
    if c == 0 {
        t_ok
    } else if c == rate_col(kind) {
        rate_ok
    } else {
        field_u64(f, c) is Some
    }
}

/// `e` reports column `c` of record `f`, with the field's text.
pub open spec fn error_at(e: RowError, f: Seq<String>, kind: BenchKind, c: int) -> bool {
    match e {
        RowError::BadFloat(col, t) => float_col(kind, c) && col == c && opt_text(t) == field_text(f, c),
        RowError::BadUnsigned(col, t) => !float_col(kind, c) && col == c && opt_text(t) == field_text(
            f,
            c,
        ),
        RowError::Csv(_) => false,
    }
}

/// The integer columns of a record that reads.
pub open spec fn row_counters_of(f: Seq<String>, kind: BenchKind) -> RowCounters {
    match kind {
        BenchKind::Pub => RowCounters {
            sent: field_u64(f, 1),
            errors: field_u64(f, 2),
            write_avg_us: field_u64(f, 4),
            write_max_us: field_u64(f, 5),
            recv: None,
            lost_wire: None,
            lost_dds: None,
            reord: None,
            dup: None,
            clock_skew_skipped: None,
            lat_p50_us: None,
            lat_p95_us: None,
            lat_p99_us: None,
            lat_max_us: None,
        },
        BenchKind::Sub => RowCounters {
            sent: None,
            errors: None,
            write_avg_us: None,
            write_max_us: None,
            recv: field_u64(f, 1),
            lost_wire: field_u64(f, 2),
            lost_dds: field_u64(f, 3),
            reord: field_u64(f, 4),
            dup: field_u64(f, 5),
            clock_skew_skipped: field_u64(f, 6),
            lat_p50_us: field_u64(f, 8),
            lat_p95_us: field_u64(f, 9),
            lat_p99_us: field_u64(f, 10),
            lat_max_us: field_u64(f, 11),
        },
    }
}

fn u64_at(fields: &Vec<String>, i: usize) -> (r: Option<u64>)
    ensures
        r == field_u64(fields@, i as int),
{
    if i < fields.len() {
        let s = fields[i].as_str();
        let n = s.unicode_len();
        let v = parse_unsigned_range(s, 0, n, u64::MAX);
        proof {
            assert(s@.subrange(0, n as int) =~= s@);
        }
        v
    } else {
        None
    }
}

fn text_at(fields: &Vec<String>, i: usize) -> (r: Option<String>)
    ensures
        opt_text(r) == field_text(fields@, i as int),
{
    if i < fields.len() {
        Some(fields[i].clone())
    } else {
        None
    }
}

/// Read the integer columns of one record, checking the columns from left
/// to right; `t_ok` and `rate_ok` say whether the time and rate columns
/// hold decimal numbers. The first column that does not read is reported.
pub fn parse_row(fields: &Vec<String>, kind: BenchKind, t_ok: bool, rate_ok: bool) -> (r: Result<
    RowCounters,
    RowError,
>)
    ensures
        match r {
            Ok(rc) => (forall|c: int|
                0 <= c < n_columns(kind) ==> col_ok(fields@, kind, t_ok, rate_ok, c)) && rc
                == row_counters_of(fields@, kind),
            Err(e) => exists|c: int|
                0 <= c < n_columns(kind) && (forall|d: int|
                    0 <= d < c ==> col_ok(fields@, kind, t_ok, rate_ok, d)) && !col_ok(
                    fields@,
                    kind,
                    t_ok,
                    rate_ok,
                    c,
                ) && error_at(e, fields@, kind, c),
        },
{
    let n: usize = match kind {
        BenchKind::Pub => 6,
        BenchKind::Sub => 12,
    };
    let rate = rate_column(kind);
    let mut vals: Vec<u64> = Vec::new();
    let mut c: usize = 0;
    while c < n
        invariant
            n == n_columns(kind),
            rate == rate_col(kind),
            c <= n,
            vals@.len() == c,
            forall|d: int| 0 <= d < c ==> col_ok(fields@, kind, t_ok, rate_ok, d),
            forall|d: int|
                0 <= d < c && !float_col(kind, d) ==> field_u64(fields@, d) == Some(#[trigger] vals@[d]),
        decreases n - c,
    {
        if c == 0 || c == rate {
            let ok = if c == 0 {
                t_ok
            } else {
                rate_ok
            };
            if !ok {
                let e = RowError::BadFloat(c, text_at(fields, c));
                assert(error_at(e, fields@, kind, c as int));
                return Err(e);
            }
            vals.push(0);
        } else {
            match u64_at(fields, c) {
                Some(v) => vals.push(v),
                None => {
                    let e = RowError::BadUnsigned(c, text_at(fields, c));
                    assert(error_at(e, fields@, kind, c as int));
                    return Err(e);
                },
            }
        }
        c = c + 1;
    }
    let ghost f = fields@;
    match kind {
        BenchKind::Pub => {
            assert(field_u64(f, 1) == Some(vals@[1]));
            assert(field_u64(f, 2) == Some(vals@[2]));
            assert(field_u64(f, 4) == Some(vals@[4]));
            assert(field_u64(f, 5) == Some(vals@[5]));
            Ok(
                RowCounters {
                    sent: Some(vals[1]),
                    errors: Some(vals[2]),
                    write_avg_us: Some(vals[4]),
                    write_max_us: Some(vals[5]),
                    recv: None,
                    lost_wire: None,
                    lost_dds: None,
                    reord: None,
                    dup: None,
                    clock_skew_skipped: None,
                    lat_p50_us: None,
                    lat_p95_us: None,
                    lat_p99_us: None,
                    lat_max_us: None,
                },
            )
        },
        BenchKind::Sub => {
            assert(field_u64(f, 1) == Some(vals@[1]));
            assert(field_u64(f, 2) == Some(vals@[2]));
            assert(field_u64(f, 3) == Some(vals@[3]));
            assert(field_u64(f, 4) == Some(vals@[4]));
            assert(field_u64(f, 5) == Some(vals@[5]));
            assert(field_u64(f, 6) == Some(vals@[6]));
            assert(field_u64(f, 8) == Some(vals@[8]));
            assert(field_u64(f, 9) == Some(vals@[9]));
            assert(field_u64(f, 10) == Some(vals@[10]));
            assert(field_u64(f, 11) == Some(vals@[11]));
            Ok(
                RowCounters {
                    sent: None,
                    errors: None,
                    write_avg_us: None,
                    write_max_us: None,
                    recv: Some(vals[1]),
                    lost_wire: Some(vals[2]),
                    lost_dds: Some(vals[3]),
                    reord: Some(vals[4]),
                    dup: Some(vals[5]),
                    clock_skew_skipped: Some(vals[6]),
                    lat_p50_us: Some(vals[8]),
                    lat_p95_us: Some(vals[9]),
                    lat_p99_us: Some(vals[10]),
                    lat_max_us: Some(vals[11]),
                },
            )
        },
    }
}

} // verus!
