//! Reading the candle export that drives a backtest.
//!
//! The export is a tab-separated text file with one header line; each
//! further line holds the date, the time of day, open, high, low and close
//! prices, two volume columns and the spread in points:
//! `date \t time \t open \t high \t low \t close \t tickvol \t vol \t spread`.
//! Prices stay text here; the engine reads them as floating-point numbers.
use vstd::prelude::*;
use chrono::NaiveDateTime;
use crate::text::{split_fields, split_on, strings_view, parse_u64, parsed_u64};
use crate::calendar::{is_export_datetime, export_datetime_seconds};

verus! {

/// A candle as read from one line of the export, prices still as text.
pub struct KLineText {
    /// Opening time of the candle, in seconds since the Unix epoch (UTC).
    pub time: u64,
    pub open: String,
    pub high: String,
    pub low: String,
    pub close: String,
    /// Spread in points.
    pub spread: u64,
}

/// Why a line of the export could not be read.
#[derive(Debug, Clone, Copy, PartialEq, Eq, Structural)]
pub enum KLineError {
    /// The line has fewer fields than the export format needs.
    MissingField,
    /// Date and time do not form a valid `%Y.%m.%d %H:%M:%S` timestamp.
    BadTimestamp,
    /// The spread is not an unsigned decimal number.
    BadSpread,
}

/// The date and time layout of the export.
pub open spec fn kline_time_format() -> Seq<char> {
    "%Y.%m.%d %H:%M:%S"@
}

/// What `NaiveDateTime::parse_from_str(text, format)` followed by
/// `.and_utc().timestamp()` yields: the Unix timestamp of the parsed date and
/// time read as UTC, or `None` when chrono rejects the text.
pub uninterp spec fn chrono_utc_timestamp(text: Seq<char>, format: Seq<char>) -> Option<i64>;

/// chrono's `NaiveDateTime::parse_from_str`, then `and_utc().timestamp()`.
/// Claimed: the result is `chrono_utc_timestamp` of the two texts, a function
/// of them alone; and with the export's format, a text written exactly
/// `YYYY.MM.DD hh:mm:ss` with a valid date, a four-digit year and no leap
/// second parses to its Unix timestamp: `%Y` reads up to four digits, `%m`,
/// `%d`, `%H`, `%M`, `%S` up to two, `.` and `:` match themselves, the space
/// skips whitespace, and the timestamp counts 86400 seconds per day from
/// 1970-01-01 plus the seconds since midnight.  Nothing is claimed of which
/// other texts chrono accepts, nor of what they parse to.
#[verifier::external_body]
fn parse_utc_timestamp(text: &str, format: &str) -> (r: Option<i64>)
    ensures
        r == chrono_utc_timestamp(text@, format@),
        format@ == kline_time_format() && is_export_datetime(text@)
            ==> r == Some(export_datetime_seconds(text@) as i64),
{
    match NaiveDateTime::parse_from_str(text, format) {
        Ok(datetime) => Some(datetime.and_utc().timestamp()),
        Err(_) => None,
    }
}

/// The date and time fields of a line joined by one space.
pub open spec fn kline_datetime_text(fields: Seq<Seq<char>>) -> Seq<char> {
    fields[0] + " "@ + fields[1]
}

/// What the date and time fields of a line parse to: chrono's timestamp of
/// them, or `None` when the line has fewer than two fields.
pub open spec fn kline_line_stamp(f: Seq<Seq<char>>) -> Option<i64> {
    if f.len() < 2 {
        None
    } else {
        chrono_utc_timestamp(kline_datetime_text(f), kline_time_format())
    }
}

/// How a line with the fields `f` reads when its date and time parse to
/// `stamp`: the error, or the time and spread of the candle.
pub open spec fn kline_fields_outcome(f: Seq<Seq<char>>, stamp: Option<i64>) -> Result<(u64, u64), KLineError> {
    if f.len() < 2 {
        Err(KLineError::MissingField)
    } else if stamp is None {
        Err(KLineError::BadTimestamp)
    } else if f.len() < 9 {
        Err(KLineError::MissingField)
    } else if parsed_u64(f[8]) is None {
        Err(KLineError::BadSpread)
    } else {
        Ok((stamp->0 as u64, parsed_u64(f[8])->0))
    }
}

/// How one line of the export reads: the error, or the time and spread of
/// the candle.
pub open spec fn kline_line_outcome(line: Seq<char>) -> Result<(u64, u64), KLineError> {
    let f = split_on(line, '\t');
    kline_fields_outcome(f, kline_line_stamp(f))
}

/// `k` is the candle that the fields `f` read as when their date and time
/// parse to `stamp`.
pub open spec fn fields_read_as(f: Seq<Seq<char>>, stamp: Option<i64>, k: KLineText) -> bool {
    &&& kline_fields_outcome(f, stamp) == Ok::<(u64, u64), KLineError>((k.time, k.spread))
    &&& k.open@ == f[2]
    &&& k.high@ == f[3]
    &&& k.low@ == f[4]
    &&& k.close@ == f[5]
}

/// `k` is the candle that `line` reads as.
pub open spec fn reads_as(line: Seq<char>, k: KLineText) -> bool {
    let f = split_on(line, '\t');
    fields_read_as(f, kline_line_stamp(f), k)
}

/// Builds the candle of a line from its fields, given what its date and time
/// fields parse to.
pub fn kline_from_fields(fields: &Vec<String>, stamp: Option<i64>) -> (r: Result<KLineText, KLineError>)
    ensures
        r matches Ok(k) ==> fields_read_as(strings_view(fields@), stamp, k),
        r matches Err(e) ==> kline_fields_outcome(strings_view(fields@), stamp) == Err::<(u64, u64), KLineError>(e),
{
    let ghost f = strings_view(fields@);
    proof {
        assert(fields@.len() == f.len());
        assert(forall|k: int| 0 <= k < fields@.len() ==> fields@[k]@ == #[trigger] f[k]);
    }
    if fields.len() < 2 {
        return Err(KLineError::MissingField);
    }
    let seconds = match stamp {
        None => {
            return Err(KLineError::BadTimestamp);
        },
        Some(s) => s,
    };
    if fields.len() < 9 {
        return Err(KLineError::MissingField);
    }
    let spread = match parse_u64(fields[8].as_str()) {
        None => {
            proof {
                assert(fields@[8]@ == f[8]);
            }
            return Err(KLineError::BadSpread);
        },
        Some(v) => v,
    };
    proof {
        assert(fields@[8]@ == f[8]);
        assert(fields@[2]@ == f[2] && fields@[3]@ == f[3] && fields@[4]@ == f[4] && fields@[5]@ == f[5]);
    }
    Ok(
        KLineText {
            time: seconds as u64,
            open: fields[2].clone(),
            high: fields[3].clone(),
            low: fields[4].clone(),
            close: fields[5].clone(),
            spread,
        },
    )
}

/// Reads one line of the export.
pub fn parse_kline_line(line: &str) -> (r: Result<KLineText, KLineError>)
    ensures
        r matches Ok(k) ==> reads_as(line@, k),
        r matches Err(e) ==> kline_line_outcome(line@) == Err::<(u64, u64), KLineError>(e),
        ({
            let f = split_on(line@, '\t');
            f.len() >= 2 && is_export_datetime(kline_datetime_text(f)) ==> {
                &&& r matches Ok(k) ==> k.time == (export_datetime_seconds(kline_datetime_text(f)) as i64) as u64
                &&& r matches Err(e) ==> e != KLineError::BadTimestamp
                &&& f.len() >= 9 && parsed_u64(f[8]) is Some ==> r is Ok
            }
        }),
{
    let fields = split_fields(line, '\t');
    let ghost f = split_on(line@, '\t');
    proof {
        assert(strings_view(fields@) == f);
        assert(fields@.len() == f.len());
        assert(forall|k: int| 0 <= k < fields@.len() ==> fields@[k]@ == #[trigger] f[k]);
    }
    let stamp = if fields.len() < 2 {
        None
    } else {
        let mut datetime = String::from_str(fields[0].as_str());
        datetime.append(" ");
        datetime.append(fields[1].as_str());
        proof {
            assert(fields@[0]@ == f[0] && fields@[1]@ == f[1]);
            assert(datetime@ == kline_datetime_text(f));
        }
        parse_utc_timestamp(datetime.as_str(), "%Y.%m.%d %H:%M:%S")
    };
    kline_from_fields(&fields, stamp)
}

/// When the date and time fields of `line` are written exactly
/// `YYYY.MM.DD` and `hh:mm:ss`, the candle `k` read from it opens at their
/// Unix timestamp (UTC).
pub open spec fn keeps_export_clock(line: Seq<char>, k: KLineText) -> bool {
    let f = split_on(line, '\t');
    f.len() >= 2 && is_export_datetime(kline_datetime_text(f))
        ==> k.time == (export_datetime_seconds(kline_datetime_text(f)) as i64) as u64
}

/// `rows` are the candles of the data lines of `lines` (all but the header),
/// in order.
pub open spec fn reads_all_as(lines: Seq<String>, rows: Seq<KLineText>) -> bool {
    &&& rows.len() + 1 == lines.len()
    &&& forall|k: int| 0 <= k < rows.len() ==> reads_as(lines[k + 1]@, #[trigger] rows[k])
}

/// Reads a whole export given as its lines: the first line is the header and
/// is skipped, every other line must read as a candle.  On failure, the
/// index of the first line that does not read and its error.
pub fn parse_kline_lines(lines: &Vec<String>) -> (r: Result<Vec<KLineText>, (usize, KLineError)>)
    ensures
        lines@.len() == 0 ==> (r matches Ok(rows) && rows@.len() == 0),
        r matches Ok(rows) ==> lines@.len() == 0 || reads_all_as(lines@, rows@),
        r matches Ok(rows) ==> forall|k: int|
            0 <= k < rows@.len() ==> keeps_export_clock(lines@[k + 1]@, #[trigger] rows@[k]),
        r matches Err((i, e)) ==> {
            &&& 1 <= i < lines@.len()
            &&& kline_line_outcome(lines@[i as int]@) == Err::<(u64, u64), KLineError>(e)
            &&& forall|j: int| 1 <= j < i ==> kline_line_outcome(#[trigger] lines@[j]@) is Ok
        },
{
    let mut rows: Vec<KLineText> = Vec::new();
    if lines.len() == 0 {
        return Ok(rows);
    }
    let mut i: usize = 1;
    while i < lines.len()
        invariant
            1 <= i <= lines@.len(),
            rows@.len() + 1 == i,
            forall|k: int| 0 <= k < rows@.len() ==> reads_as(lines@[k + 1]@, #[trigger] rows@[k]),
            forall|k: int| 0 <= k < rows@.len() ==> keeps_export_clock(lines@[k + 1]@, #[trigger] rows@[k]),
        decreases lines@.len() - i,
    {
        match parse_kline_line(lines[i].as_str()) {
            Ok(k) => {
                rows.push(k);
            },
            Err(e) => {
                proof {
                    assert forall|j: int| 1 <= j < i implies kline_line_outcome(#[trigger] lines@[j]@) is Ok by {
                        assert(reads_as(lines@[j]@, rows@[j - 1]));
                    }
                }
                return Err((i, e));
            },
        }
        i = i + 1;
    }
    Ok(rows)
}

} // verus!
