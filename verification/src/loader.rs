//! Loading location records from delimited text.
//!
//! The text has a header row, which is skipped, and one data row per place.
//! Fields are taken by fixed position: column 1 is the latitude, column 2
//! the longitude, column 3 the display name (column 0 is ignored). A numeric
//! field may use either `.` or `,` as its decimal separator; it is parsed
//! into whole microdegrees, rounding the fraction toward zero. The first
//! failing row aborts the whole load, and a load with no data rows fails.

use vstd::prelude::*;
use crate::distance::Coordinate;

verus! {

/// One named place: a display name and its coordinate in microdegrees.
#[derive(Clone, Debug)]
pub struct LocationRecord {
    pub name: String,
    pub coord: Coordinate,
}

/// Why a load failed.
#[derive(Clone, Debug)]
pub enum LoadError {
    /// The text has a header but no data rows, so no game can start.
    NoRecords,
    /// The data row (0-based, counted after the header) lacks the field at
    /// the given column index.
    MissingField { row: usize, col: usize },
    /// The field at the given row and column is not a decimal number.
    BadNumber { row: usize, col: usize },
    /// The delimited text itself could not be read; carries the reader's
    /// message.
    Malformed { message: String },
}

/// A decimal digit.
pub open spec fn is_ascii_digit(c: char) -> bool {
    48 <= c as int <= 57
}

/// The numeric value of a decimal digit.
pub open spec fn digit_val(c: char) -> int {
    c as int - 48
}

/// Every character is a decimal digit.
pub open spec fn all_digits(s: Seq<char>) -> bool {
    forall|i: int| 0 <= i < s.len() ==> is_ascii_digit(#[trigger] s[i])
}

/// The value of a digit string read in base ten.
pub open spec fn digits_val(s: Seq<char>) -> int
    decreases s.len(),
{
    if s.len() == 0 {
        0
    } else {
        10 * digits_val(s.drop_last()) + digit_val(s.last())
    }
}

/// Ten to the given power.
pub open spec fn pow10(e: nat) -> int
    decreases e,
{
    if e == 0 {
        1
    } else {
        10 * pow10((e - 1) as nat)
    }
}

/// Every comma turned into a period, as comma-decimal locales write numbers.
pub open spec fn decommaed(s: Seq<char>) -> Seq<char> {
    s.map_values(|c: char| if c == ',' { '.' } else { c })
}

/// The fraction digits of a decimal field as whole microdegrees: the first
/// six fraction digits, scaled up when fewer are given; digits past the
/// sixth are cut off (the fraction is rounded toward zero).
pub open spec fn frac_udeg(f: Seq<char>) -> int {
    if f.len() >= 6 {
        digits_val(f.take(6))
    } else {
        digits_val(f) * pow10((6 - f.len()) as nat)
    }
}

/// The unsigned part of a decimal field as microdegrees: digits with at most
/// one decimal point, at least one digit in all, and at most twelve digits
/// before the point. Anything else is rejected.
pub open spec fn body_udeg(body: Seq<char>) -> Option<int> {
    match body.index_of_first('.') {
        Some(di) => {
            let ip = body.take(di);
            let fp = body.skip(di + 1);
            if all_digits(ip) && all_digits(fp) && ip.len() + fp.len() >= 1 && ip.len() <= 12 {
                Some(1_000_000 * digits_val(ip) + frac_udeg(fp))
            } else {
                None
            }
        },
        None => {
            if all_digits(body) && 1 <= body.len() <= 12 {
                Some(1_000_000 * digits_val(body))
            } else {
                None
            }
        },
    }
}

/// A whole coordinate field as signed microdegrees: commas become periods,
/// then an optional leading sign, then an unsigned decimal body.
pub open spec fn parse_udeg(s: Seq<char>) -> Option<int> {
    let t = decommaed(s);
    if t.len() > 0 && (t[0] == '-' || t[0] == '+') {
        match body_udeg(t.skip(1)) {
            Some(v) => Some(if t[0] == '-' { -v } else { v }),
            None => None,
        }
    } else {
        body_udeg(t)
    }
}

/// Ten to a small power, as a machine integer.
fn pow10_small(e: usize) -> (r: u64)
    requires
        e <= 6,
    ensures
        r as int == pow10(e as nat),
{
    proof {
        reveal_with_fuel(pow10, 8);
    }
    if e == 0 {
        1
    } else if e == 1 {
        10
    } else if e == 2 {
        100
    } else if e == 3 {
        1_000
    } else if e == 4 {
        10_000
    } else if e == 5 {
        100_000
    } else {
        1_000_000
    }
}

/// Ten to a power is at least one.
proof fn lemma_pow10_pos(e: nat)
    ensures
        pow10(e) >= 1,
    decreases e,
{
    if e > 0 {
        lemma_pow10_pos((e - 1) as nat);
    }
}

/// Ten to a power grows with the power.
proof fn lemma_pow10_mono(a: nat, b: nat)
    requires
        a <= b,
    ensures
        pow10(a) <= pow10(b),
    decreases b,
{
    if a < b {
        lemma_pow10_mono(a, (b - 1) as nat);
        lemma_pow10_pos((b - 1) as nat);
    }
}

/// Appending a digit multiplies the value by ten and adds the digit.
proof fn lemma_digits_val_push(s: Seq<char>, c: char)
    ensures
        digits_val(s.push(c)) == 10 * digits_val(s) + digit_val(c),
{
    assert(s.push(c).drop_last() =~= s);
    assert(s.push(c).last() == c);
}

/// A string of digits is smaller than ten to its length.
proof fn lemma_digits_val_bound(s: Seq<char>)
    requires
        all_digits(s),
    ensures
        0 <= digits_val(s) < pow10(s.len()),
    decreases s.len(),
{
    if s.len() > 0 {
        assert(all_digits(s.drop_last()));
        lemma_digits_val_bound(s.drop_last());
        assert(is_ascii_digit(s.last()));
    }
}

/// The shape of a field's characters after an optional sign: whether a
/// decimal point (or comma) occurs and where first, and whether everything
/// before and after that point is a decimal digit.
fn scan_structure(s: &str, start: usize) -> (r: (bool, usize, bool, bool))
    requires
        start as int <= s@.len(),
    ensures
        ({
            let t = decommaed(s@);
            &&& r.0 ==> start <= r.1 < t.len() && t[r.1 as int] == '.' && (forall|k: int|
                start <= k < r.1 ==> t[k] != '.')
            &&& !r.0 ==> forall|k: int| start <= k < t.len() ==> t[k] != '.'
            &&& r.2 == (forall|k: int|
                start <= k < (if r.0 {
                    r.1 as int
                } else {
                    t.len() as int
                }) ==> is_ascii_digit(#[trigger] t[k]))
            &&& r.3 == (r.0 ==> forall|k: int| r.1 < k < t.len() ==> is_ascii_digit(#[trigger] t[k]))
        }),
{
    let ghost t = decommaed(s@);
    let n: usize = s.unicode_len();
    let mut has_dot: bool = false;
    let mut dot_pos: usize = 0;
    let mut ok_int: bool = true;
    let mut ok_frac: bool = true;
    let mut i: usize = start;
    while i < n
        invariant
            t == decommaed(s@),
            t.len() == n == s@.len(),
            start <= i <= n,
            has_dot ==> start <= dot_pos < i && t[dot_pos as int] == '.' && (forall|k: int|
                start <= k < dot_pos ==> t[k] != '.'),
            !has_dot ==> forall|k: int| start <= k < i ==> t[k] != '.',
            ok_int == (forall|k: int|
                start <= k < (if has_dot {
                    dot_pos as int
                } else {
                    i as int
                }) ==> is_ascii_digit(#[trigger] t[k])),
            ok_frac == (has_dot ==> forall|k: int|
                dot_pos < k < i ==> is_ascii_digit(#[trigger] t[k])),
        decreases n - i,
    {
        let c0: char = s.get_char(i);
        let c: char = if c0 == ',' {
            '.'
        } else {
            c0
        };
        proof {
            assert(t[i as int] == c);
        }
        if c == '.' {
            if has_dot {
                ok_frac = false;
            } else {
                has_dot = true;
                dot_pos = i;
            }
        } else {
            let cu: u32 = c as u32;
            let is_digit: bool = 48 <= cu && cu <= 57;
            if has_dot {
                ok_frac = ok_frac && is_digit;
            } else {
                ok_int = ok_int && is_digit;
            }
        }
        i = i + 1;
    }
    (has_dot, dot_pos, ok_int, ok_frac)
}

/// The base-ten value of a run of digit characters, at most twelve of them.
fn digits_value(s: &str, from: usize, to: usize) -> (acc: u64)
    requires
        from <= to,
        to as int <= s@.len(),
        to - from <= 12,
        forall|k: int| from <= k < to ==> is_ascii_digit(#[trigger] decommaed(s@)[k]),
    ensures
        acc as int == digits_val(decommaed(s@).subrange(from as int, to as int)),
        acc < pow10((to - from) as nat),
{
    let ghost t = decommaed(s@);
    let mut acc: u64 = 0;
    let mut j: usize = from;
    proof {
        assert(t.subrange(from as int, from as int) =~= Seq::<char>::empty());
    }
    while j < to
        invariant
            t == decommaed(s@),
            t.len() == s@.len(),
            from <= j <= to,
            to as int <= t.len(),
            to - from <= 12,
            forall|k: int| from <= k < to ==> is_ascii_digit(#[trigger] t[k]),
            acc as int == digits_val(t.subrange(from as int, j as int)),
            acc < pow10((j - from) as nat),
        decreases to - j,
    {
        let c0: char = s.get_char(j);
        let c: char = if c0 == ',' {
            '.'
        } else {
            c0
        };
        let cu: u32 = c as u32;
        proof {
            assert(t[j as int] == c);
            assert(is_ascii_digit(c));
            lemma_pow10_mono((j - from) as nat, 11);
            reveal_with_fuel(pow10, 13);
            assert(pow10(11) == 100_000_000_000);
            assert(t.subrange(from as int, j + 1) =~= t.subrange(from as int, j as int).push(
                t[j as int],
            ));
            lemma_digits_val_push(t.subrange(from as int, j as int), t[j as int]);
        }
        acc = acc * 10 + ((cu - 48) as u64);
        j = j + 1;
    }
    acc
}

/// One coordinate field parsed to signed microdegrees; mirrors `parse_udeg`.
#[verifier::rlimit(100)]
pub fn parse_coord_field(s: &str) -> (r: Option<i64>)
    ensures
        r matches Some(v) ==> parse_udeg(s@) == Some(v as int),
        r is None ==> parse_udeg(s@) is None,
{
    let ghost t = decommaed(s@);
    let n: usize = s.unicode_len();
    let mut start: usize = 0;
    let mut neg: bool = false;
    if n > 0 {
        let c0: char = s.get_char(0);
        if c0 == '-' {
            neg = true;
            start = 1;
        } else if c0 == '+' {
            start = 1;
        }
    }
    let ghost body = t.skip(start as int);
    let scan: (bool, usize, bool, bool) = scan_structure(s, start);
    let has_dot: bool = scan.0;
    let dot_pos: usize = scan.1;
    let ok_int: bool = scan.2;
    let ok_frac: bool = scan.3;
    let int_end: usize = if has_dot {
        dot_pos
    } else {
        n
    };
    let int_len: usize = int_end - start;
    let frac_len: usize = if has_dot {
        n - dot_pos - 1
    } else {
        0
    };
    let ghost ip = if has_dot {
        body.take(dot_pos - start)
    } else {
        body
    };
    let ghost fp = if has_dot {
        body.skip(dot_pos - start + 1)
    } else {
        Seq::<char>::empty()
    };
    proof {
        body.index_of_first_ensures('.');
        assert(body.len() == n - start);
        assert(forall|k: int| 0 <= k < body.len() ==> body[k] == t[start + k]);
        if has_dot {
            let db = dot_pos - start;
            assert(body[db] == '.');
            match body.index_of_first('.') {
                Some(di) => {
                    assert(!(di < db)) by {
                        if di < db {
                            assert(t[start + di] != '.');
                        }
                    }
                    assert(!(db < di)) by {
                        if db < di {
                            assert(body[db] != '.');
                        }
                    }
                    assert(di == db);
                },
                None => {
                    assert(body.contains(body[db]));
                    assert(false);
                },
            }
            assert(body.index_of_first('.') == Some(dot_pos - start));
            assert(ip =~= t.subrange(start as int, dot_pos as int));
            assert(fp =~= t.subrange(dot_pos + 1, n as int));
            assert(ip.len() == int_len);
            assert(fp.len() == frac_len);
            assert(all_digits(ip) == ok_int) by {
                if ok_int {
                    assert forall|k: int| 0 <= k < ip.len() implies is_ascii_digit(
                        #[trigger] ip[k],
                    ) by {
                        assert(ip[k] == t[start + k]);
                    }
                } else {
                    let k = choose|k: int| start <= k < dot_pos && !is_ascii_digit(#[trigger] t[k]);
                    assert(ip[k - start] == t[k]);
                    assert(!is_ascii_digit(ip[k - start]));
                }
            }
            assert(all_digits(fp) == ok_frac) by {
                if ok_frac {
                    assert forall|k: int| 0 <= k < fp.len() implies is_ascii_digit(
                        #[trigger] fp[k],
                    ) by {
                        assert(fp[k] == t[dot_pos + 1 + k]);
                    }
                } else {
                    let k = choose|k: int| dot_pos < k < n && !is_ascii_digit(#[trigger] t[k]);
                    assert(fp[k - dot_pos - 1] == t[k]);
                    assert(!is_ascii_digit(fp[k - dot_pos - 1]));
                }
            }
        } else {
            match body.index_of_first('.') {
                Some(di) => {
                    assert(t[start + di] != '.');
                    assert(false);
                },
                None => {},
            }
            assert(ip =~= t.subrange(start as int, n as int));
            assert(ip.len() == int_len);
            assert(all_digits(ip) == ok_int) by {
                if ok_int {
                    assert forall|k: int| 0 <= k < ip.len() implies is_ascii_digit(
                        #[trigger] ip[k],
                    ) by {
                        assert(ip[k] == t[start + k]);
                    }
                } else {
                    let k = choose|k: int| start <= k < n && !is_ascii_digit(#[trigger] t[k]);
                    assert(ip[k - start] == t[k]);
                    assert(!is_ascii_digit(ip[k - start]));
                }
            }
        }
        if start == 1 {
            assert(t[0] == '-' || t[0] == '+');
            assert(neg <==> t[0] == '-');
        } else if t.len() > 0 {
            assert(!(t[0] == '-' || t[0] == '+')) by {
                assert(t[0] == (if s@[0] == ',' {
                    '.'
                } else {
                    s@[0]
                }));
            }
            assert(body =~= t);
        } else {
            assert(body =~= t);
        }
    }
    if !(ok_int && ok_frac && int_len + frac_len >= 1 && int_len <= 12) {
        return None;
    }
    let int_acc: u64 = digits_value(s, start, int_end);
    let frac_take: usize = if frac_len > 6 {
        6
    } else {
        frac_len
    };
    let frac_acc: u64 = if has_dot {
        digits_value(s, dot_pos + 1, dot_pos + 1 + frac_take)
    } else {
        0
    };
    proof {
        reveal_with_fuel(pow10, 13);
        assert(int_acc < 1_000_000_000_000) by {
            lemma_pow10_mono((int_end - start) as nat, 12);
        }
        assert(frac_acc < 1_000_000) by {
            if has_dot {
                lemma_pow10_mono(frac_take as nat, 6);
            }
        }
    }
    // Scale a short fraction up to microdegrees.
    let frac_udeg_val: u64 = if frac_len >= 6 {
        frac_acc
    } else {
        let scale: u64 = pow10_small(6 - frac_len);
        proof {
            lemma_pow10_mono((6 - frac_len) as nat, 6);
            reveal_with_fuel(pow10, 8);
            lemma_pow10_pos((6 - frac_len) as nat);
            vstd::arithmetic::mul::lemma_mul_upper_bound(
                frac_acc as int,
                999_999,
                scale as int,
                1_000_000,
            );
        }
        frac_acc * scale
    };
    proof {
        assert(int_acc as int == digits_val(ip)) by {
            assert(ip =~= t.subrange(start as int, int_end as int));
        }
        if has_dot {
            if frac_len >= 6 {
                assert(fp.take(6) =~= t.subrange(dot_pos + 1, dot_pos + 7));
                assert(frac_udeg_val as int == frac_udeg(fp));
            } else {
                assert(fp =~= t.subrange(dot_pos + 1, dot_pos + 1 + frac_take));
                assert(frac_acc as int == digits_val(fp));
                assert(frac_udeg_val as int == frac_udeg(fp));
            }
        } else {
            assert(frac_udeg_val == 0) by {
                reveal_with_fuel(pow10, 8);
            }
            assert(frac_udeg(fp) == 0);
        }
    }
    let magnitude: u64 = int_acc * 1_000_000 + frac_udeg_val;
    proof {
        assert(magnitude as int == 1_000_000 * digits_val(ip) + frac_udeg(fp));
        assert(body_udeg(body) == Some(magnitude as int));
    }
    if neg {
        Some(-(magnitude as i64))
    } else {
        Some(magnitude as i64)
    }
}

/// What is wrong with one row, if anything: the fields are wanted at the
/// fixed column indices 1 (latitude), 2 (longitude) and 3 (name), and the
/// first failing column, in that order, names the error.
pub open spec fn row_error_spec(row: Seq<Seq<char>>, rownum: int) -> Option<LoadError> {
    if row.len() <= 1 {
        Some(LoadError::MissingField { row: rownum as usize, col: 1 })
    } else if parse_udeg(row[1]) is None {
        Some(LoadError::BadNumber { row: rownum as usize, col: 1 })
    } else if row.len() <= 2 {
        Some(LoadError::MissingField { row: rownum as usize, col: 2 })
    } else if parse_udeg(row[2]) is None {
        Some(LoadError::BadNumber { row: rownum as usize, col: 2 })
    } else if row.len() <= 3 {
        Some(LoadError::MissingField { row: rownum as usize, col: 3 })
    } else {
        None
    }
}

/// The record carries the row's name field and its parsed coordinates.
pub open spec fn record_matches_row(rec: LocationRecord, row: Seq<Seq<char>>) -> bool {
    &&& rec.name@ == row[3]
    &&& parse_udeg(row[1]) == Some(rec.coord.lat_udeg as int)
    &&& parse_udeg(row[2]) == Some(rec.coord.lon_udeg as int)
}

/// Every row before the given one is free of errors.
pub open spec fn rows_ok_upto(rows: Seq<Seq<Seq<char>>>, k: int) -> bool {
    forall|j: int| 0 <= j < k ==> #[trigger] row_error_spec(rows[j], j) is None
}

/// The error a failed load must carry: with no data rows it is `NoRecords`;
/// otherwise it is the error of the first failing row.
pub open spec fn err_matches_rows(rows: Seq<Seq<Seq<char>>>, e: LoadError) -> bool {
    if rows.len() == 0 {
        e is NoRecords
    } else {
        exists|j: int|
            0 <= j < rows.len() && rows_ok_upto(rows, j) && #[trigger] row_error_spec(rows[j], j)
                == Some(e)
    }
}

/// All rows parsed and yielded these records, one per row, in row order.
pub open spec fn records_match_rows(recs: Seq<LocationRecord>, rows: Seq<Seq<Seq<char>>>) -> bool {
    &&& rows.len() > 0
    &&& recs.len() == rows.len()
    &&& rows_ok_upto(rows, rows.len() as int)
    &&& forall|j: int| 0 <= j < rows.len() ==> record_matches_row(#[trigger] recs[j], rows[j])
}

/// Builds location records from the rows of a delimited file, the header row
/// already removed. The first failing row aborts the load with its error;
/// an empty row list is an error of its own.
pub fn records_from_rows(rows: &Vec<Vec<String>>) -> (r: Result<Vec<LocationRecord>, LoadError>)
    ensures
        r matches Ok(recs) ==> records_match_rows(recs@, rows.deep_view()),
        r matches Err(e) ==> err_matches_rows(rows.deep_view(), e),
{
    let ghost dv = rows.deep_view();
    proof {
        assert(dv.len() == rows@.len());
    }
    if rows.len() == 0 {
        return Err(LoadError::NoRecords);
    }
    let mut out: Vec<LocationRecord> = Vec::new();
    let mut idx: usize = 0;
    while idx < rows.len()
        invariant
            dv == rows.deep_view(),
            dv.len() == rows@.len(),
            idx <= rows@.len(),
            rows_ok_upto(dv, idx as int),
            out@.len() == idx,
            forall|j: int|
                0 <= j < idx ==> record_matches_row(#[trigger] out@[j], dv[j]),
        decreases rows@.len() - idx,
    {
        let row: &Vec<String> = &rows[idx];
        proof {
            assert(dv[idx as int] == row.deep_view());
            assert(forall|k: int|
                0 <= k < row@.len() ==> #[trigger] row.deep_view()[k] == row@[k]@);
        }
        if row.len() <= 1 {
            proof {
                assert(row_error_spec(dv[idx as int], idx as int) == Some(
                    LoadError::MissingField { row: idx, col: 1 },
                ));
            }
            return Err(LoadError::MissingField { row: idx, col: 1 });
        }
        let lat: i64 = match parse_coord_field(row[1].as_str()) {
            Some(v) => v,
            None => {
                proof {
                    assert(row_error_spec(dv[idx as int], idx as int) == Some(
                        LoadError::BadNumber { row: idx, col: 1 },
                    ));
                }
                return Err(LoadError::BadNumber { row: idx, col: 1 });
            },
        };
        if row.len() <= 2 {
            proof {
                assert(row_error_spec(dv[idx as int], idx as int) == Some(
                    LoadError::MissingField { row: idx, col: 2 },
                ));
            }
            return Err(LoadError::MissingField { row: idx, col: 2 });
        }
        let lon: i64 = match parse_coord_field(row[2].as_str()) {
            Some(v) => v,
            None => {
                proof {
                    assert(row_error_spec(dv[idx as int], idx as int) == Some(
                        LoadError::BadNumber { row: idx, col: 2 },
                    ));
                }
                return Err(LoadError::BadNumber { row: idx, col: 2 });
            },
        };
        if row.len() <= 3 {
            proof {
                assert(row_error_spec(dv[idx as int], idx as int) == Some(
                    LoadError::MissingField { row: idx, col: 3 },
                ));
            }
            return Err(LoadError::MissingField { row: idx, col: 3 });
        }
        let name: String = row[3].clone();
        let rec = LocationRecord { name, coord: Coordinate { lat_udeg: lat, lon_udeg: lon } };
        proof {
            assert(record_matches_row(rec, dv[idx as int]));
        }
        out.push(rec);
        idx = idx + 1;
        proof {
            assert(forall|j: int|
                0 <= j < idx - 1 ==> record_matches_row(#[trigger] out@[j], dv[j]));
            assert(out@[idx - 1] == rec);
        }
    }
    Ok(out)
}

/// What the csv reader yields on these bytes: the data rows' fields, the
/// header row already skipped. The parse is a function of the bytes alone.
pub uninterp spec fn csv_rows_of(data: Seq<u8>) -> Seq<Seq<Seq<char>>>;

/// Whether the csv reader accepts these bytes at all; like `csv_rows_of`,
/// a function of the bytes alone.
pub uninterp spec fn csv_parses(data: Seq<u8>) -> bool;

/// Relies on csv::Reader::from_reader and its records iterator: it parses
/// comma-delimited text with a header row (which it skips) into rows of
/// string fields, deterministically from the bytes alone; a malformed input
/// is handed back as the csv error's message.
#[verifier::external_body]
fn csv_rows(data: &[u8]) -> (r: Result<Vec<Vec<String>>, String>)
    ensures
        r is Ok <==> csv_parses(data@),
        r matches Ok(rows) ==> rows.deep_view() == csv_rows_of(data@),
{
    let rdr = csv::Reader::from_reader(data);
    let mut rows: Vec<Vec<String>> = Vec::new();
    for rec in rdr.into_records() {
        match rec {
            Ok(sr) => rows.push(sr.iter().map(String::from).collect()),
            Err(e) => {
                return Err(e.to_string());
            },
        }
    }
    Ok(rows)
}

/// Loads location records from the bytes of a delimited file with a header
/// row. On success the records mirror the file's data rows in order; on
/// failure the error is the reader's own message on bytes the reader
/// rejects, or the first failing row's error, or `NoRecords` for a file
/// with no data rows.
pub fn load_locations(data: &[u8]) -> (r: Result<Vec<LocationRecord>, LoadError>)
    ensures
        r matches Ok(recs) ==> csv_parses(data@) && records_match_rows(recs@, csv_rows_of(data@)),
        r matches Err(e) ==> ((e matches LoadError::Malformed { .. } && !csv_parses(data@)) || (
        csv_parses(data@) && err_matches_rows(csv_rows_of(data@), e))),
{
    match csv_rows(data) {
        Ok(rows) => records_from_rows(&rows),
        Err(message) => Err(LoadError::Malformed { message }),
    }
}

} // verus!
