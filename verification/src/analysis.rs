//! Reading the account-state export that the profile analysis works on: a
//! comma-separated text file with one header line; each further line holds
//! the number of open positions, the total volume, the floating profit and
//! the Unix time, fields padded with whitespace at will.  Lines that do not
//! read are skipped.  Volume and profit stay text here; the analysis reads
//! them as floating-point numbers.
use vstd::prelude::*;
use crate::text::{split_fields, split_on, strings_view, trim, trimmed, parse_i64, parsed_i64};

verus! {

/// One line of the export, volume and profit still as text.
pub struct AnaFields {
    pub total: i64,
    pub volume: String,
    pub profile: String,
    pub time: i64,
}

/// The trimmed fields of a line.
pub open spec fn ana_fields(line: Seq<char>) -> Seq<Seq<char>> {
    split_on(line, ',').map_values(|f: Seq<char>| trimmed(f))
}

/// A line reads when it has exactly four fields and the first and last are
/// whole numbers.
pub open spec fn ana_line_reads(line: Seq<char>) -> bool {
    let f = ana_fields(line);
    &&& f.len() == 4
    &&& parsed_i64(f[0]) is Some
    &&& parsed_i64(f[3]) is Some
}

/// `a` is what `line` reads as.
pub open spec fn ana_reads_as(line: Seq<char>, a: AnaFields) -> bool {
    let f = ana_fields(line);
    &&& ana_line_reads(line)
    &&& a.total == parsed_i64(f[0])->0
    &&& a.volume@ == f[1]
    &&& a.profile@ == f[2]
    &&& a.time == parsed_i64(f[3])->0
}

/// Reads one line of the export.
pub fn parse_ana_line(line: &str) -> (r: Option<AnaFields>)
    ensures
        r is Some <==> ana_line_reads(line@),
        r matches Some(a) ==> ana_reads_as(line@, a),
{
    let raw = split_fields(line, ',');
    let ghost f = ana_fields(line@);
    proof {
        assert(strings_view(raw@) == split_on(line@, ','));
        assert(raw@.len() == f.len());
        assert(forall|k: int| 0 <= k < raw@.len() ==> #[trigger] trimmed(raw@[k]@) == f[k]);
    }
    if raw.len() != 4 {
        return None;
    }
    let total_text = trim(raw[0].as_str());
    let volume = trim(raw[1].as_str());
    let profile = trim(raw[2].as_str());
    let time_text = trim(raw[3].as_str());
    proof {
        assert(trimmed(raw@[0]@) == f[0]);
        assert(trimmed(raw@[1]@) == f[1]);
        assert(trimmed(raw@[2]@) == f[2]);
        assert(trimmed(raw@[3]@) == f[3]);
    }
    let total = match parse_i64(total_text.as_str()) {
        Some(v) => v,
        None => {
            return None;
        },
    };
    let time = match parse_i64(time_text.as_str()) {
        Some(v) => v,
        None => {
            return None;
        },
    };
    Some(AnaFields { total, volume, profile, time })
}

/// The indices of the data lines among the first `n` lines that read (the
/// header, line 0, is never one).
pub open spec fn ana_sources(lines: Seq<String>, n: int) -> Seq<int>
    decreases n,
{
    if n <= 1 {
        Seq::empty()
    } else {
        let prev = ana_sources(lines, n - 1);
        if ana_line_reads(lines[n - 1]@) {
            prev.push(n - 1)
        } else {
            prev
        }
    }
}

/// `rows` are the data lines of `lines` that read, in order.
pub open spec fn ana_reads_all_as(lines: Seq<String>, rows: Seq<AnaFields>) -> bool {
    let src = ana_sources(lines, lines.len() as int);
    &&& rows.len() == src.len()
    &&& forall|k: int| 0 <= k < rows.len() ==> ana_reads_as(lines[src[k]]@, #[trigger] rows[k])
}

/// Reads a whole export given as its lines: the header is skipped, lines
/// that do not read are dropped.
pub fn parse_ana_lines(lines: &Vec<String>) -> (rows: Vec<AnaFields>)
    ensures
        ana_reads_all_as(lines@, rows@),
{
    let mut rows: Vec<AnaFields> = Vec::new();
    let mut i: usize = 1;
    if lines.len() == 0 {
        return rows;
    }
    while i < lines.len()
        invariant
            1 <= i <= lines@.len(),
            rows@.len() == ana_sources(lines@, i as int).len(),
            forall|k: int|
                0 <= k < rows@.len() ==> ana_reads_as(
                    lines@[ana_sources(lines@, i as int)[k]]@,
                    #[trigger] rows@[k],
                ),
        decreases lines@.len() - i,
    {
        let ghost r0 = rows@;
        let ghost s0 = ana_sources(lines@, i as int);
        match parse_ana_line(lines[i].as_str()) {
            Some(a) => {
                rows.push(a);
            },
            None => {},
        }
        proof {
            let s1 = ana_sources(lines@, i + 1);
            assert forall|k: int| 0 <= k < rows@.len() implies ana_reads_as(lines@[s1[k]]@, #[trigger] rows@[k]) by {
                if k < r0.len() {
                    assert(rows@[k] == r0[k]);
                    assert(s1[k] == s0[k]);
                }
            }
        }
        i = i + 1;
    }
    rows
}

} // verus!
