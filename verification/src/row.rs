//! One row of telemetry: the reading of its columns.
//!
//! A row is a line of seventeen columns between commas: the base name, the
//! run parameters, and the measurements. Flags and counts are read here;
//! the three timings are handed on as the text that stands in the row.

use crate::literal::{parse_count, parse_flag, read_count, read_flag};
use crate::parameter::{with_entry, ParameterSet, ParameterValue, Parameters};
use crate::text::{chars_of, piece_bounds, pieces, Text};
use vstd::prelude::*;
use vstd::string::*;

verus! {

/// How many columns a row has.
pub const COLUMNS: usize = 17;

/// What a column holds.
pub enum ColumnKind {
    /// Any text.
    Name,
    /// `true` or `false`.
    Flag,
    /// A count in base ten.
    Count,
    /// A timing, which is not read here.
    Timing,
}

/// What the column at place `i` holds.
pub open spec fn column_kind(i: int) -> ColumnKind {
    if i == 0 {
        ColumnKind::Name
    } else if 1 <= i <= 4 || i == 10 {
        ColumnKind::Flag
    } else if i == 12 || i == 14 || i == 16 {
        ColumnKind::Timing
    } else {
        ColumnKind::Count
    }
}

/// Whether `field` can stand in the column at place `i`.
pub open spec fn column_reads(i: int, field: Text) -> bool {
    match column_kind(i) {
        ColumnKind::Flag => parse_flag(field) is Some,
        ColumnKind::Count => parse_count(field) is Some,
        _ => true,
    }
}

/// The flag in `field`, a parameter value.
pub open spec fn flag_of(field: Text) -> ParameterValue {
    ParameterValue::Bool(parse_flag(field)->0)
}

/// The count in `field`, a parameter value.
pub open spec fn count_of(field: Text) -> ParameterValue {
    ParameterValue::Int(parse_count(field)->0)
}

/// The run parameters that the fields of a row give.
pub open spec fn row_parameters(fields: Seq<Text>) -> Parameters {
    let p = Seq::<(Text, ParameterValue)>::empty();
    let p = with_entry(p, "archive"@, flag_of(fields[1]));
    let p = with_entry(p, "compress"@, flag_of(fields[2]));
    let p = with_entry(p, "ordered"@, flag_of(fields[3]));
    let p = with_entry(p, "uniform"@, flag_of(fields[4]));
    let p = with_entry(p, "readers"@, count_of(fields[5]));
    let p = with_entry(p, "writers"@, count_of(fields[6]));
    let p = with_entry(p, "writer-commits-per-sleep"@, count_of(fields[7]));
    let p = with_entry(p, "writer-sleep-time"@, count_of(fields[8]));
    let p = with_entry(p, "commits-per-timing-sample"@, count_of(fields[9]));
    with_entry(p, "progressive"@, flag_of(fields[10]))
}

/// A row as contracts see it.
pub struct RowView {
    pub base_name: Text,
    pub parameters: Parameters,
    pub total_commits: u64,
    pub total_commit_time: Text,
    pub commits: u64,
    pub commit_time: Text,
    pub queries: u64,
    pub query_time: Text,
}

/// The row that seventeen readable fields give.
pub open spec fn row_of(fields: Seq<Text>) -> RowView {
    RowView {
        base_name: fields[0],
        parameters: row_parameters(fields),
        total_commits: parse_count(fields[11])->0,
        total_commit_time: fields[12],
        commits: parse_count(fields[13])->0,
        commit_time: fields[14],
        queries: parse_count(fields[15])->0,
        query_time: fields[16],
    }
}

/// One row of telemetry.
pub struct Row {
    pub base_name: String,
    pub parameters: ParameterSet,
    /// The x-key: how many commits the run had made.
    pub total_commits: u64,
    /// The time those commits took, as written in the row.
    pub total_commit_time: String,
    pub commits: u64,
    /// The time of the commits of the sample, as written in the row.
    pub commit_time: String,
    pub queries: u64,
    /// The time of the queries of the sample, as written in the row.
    pub query_time: String,
}

impl View for Row {
    type V = RowView;

    open spec fn view(&self) -> RowView {
        RowView {
            base_name: self.base_name@,
            parameters: self.parameters@,
            total_commits: self.total_commits,
            total_commit_time: self.total_commit_time@,
            commits: self.commits,
            commit_time: self.commit_time@,
            queries: self.queries,
            query_time: self.query_time@,
        }
    }
}

/// Why a line is no row.
#[derive(Debug, Clone, Copy, PartialEq, Eq, Structural)]
pub enum RowError {
    /// The line has `found` columns, not seventeen.
    ColumnCount { found: usize },
    /// The column at place `column`, counted from zero, holds neither the
    /// flag nor the count that belongs there.
    Field { column: usize },
}

/// The flag in the field with the limits `b`.
fn flag_in(v: &Vec<char>, b: (usize, usize)) -> (r: Option<bool>)
    requires
        b.0 <= b.1 <= v@.len(),
    ensures
        r == parse_flag(v@.subrange(b.0 as int, b.1 as int)),
{
    read_flag(v, b.0, b.1)
}

/// The count in the field with the limits `b`.
fn count_in(v: &Vec<char>, b: (usize, usize)) -> (r: Option<u64>)
    requires
        b.0 <= b.1 <= v@.len(),
    ensures
        r == parse_count(v@.subrange(b.0 as int, b.1 as int)),
{
    read_count(v, b.0, b.1)
}

/// The text of the field with the limits `b`.
fn text_in(line: &str, b: (usize, usize)) -> (r: String)
    requires
        b.0 <= b.1 <= line@.len(),
    ensures
        r@ == line@.subrange(b.0 as int, b.1 as int),
{
    line.substring_char(b.0, b.1).to_owned()
}

/// Reads a line as a row. The line must have seventeen columns; the error
/// names the first column, from the left, that cannot be read.
pub fn parse_row(line: &str) -> (r: Result<Row, RowError>)
    ensures
        match r {
            Ok(row) => {
                &&& pieces(line@).len() == COLUMNS
                &&& forall|i: int| 0 <= i < COLUMNS ==> column_reads(i, #[trigger] pieces(line@)[i])
                &&& row@ == row_of(pieces(line@))
                &&& row.parameters.wf()
            },
            Err(RowError::ColumnCount { found }) => found == pieces(line@).len() && found
                != COLUMNS,
            Err(RowError::Field { column }) => {
                &&& pieces(line@).len() == COLUMNS
                &&& column < COLUMNS
                &&& !column_reads(column as int, pieces(line@)[column as int])
                &&& forall|i: int| 0 <= i < column ==> column_reads(i, #[trigger] pieces(line@)[i])
            },
        },
{
    let v = chars_of(line);
    let b = piece_bounds(&v);
    let ghost fields = pieces(line@);
    if b.len() != COLUMNS {
        return Err(RowError::ColumnCount { found: b.len() });
    }
    let archive = match flag_in(&v, b[1]) {
        Some(x) => x,
        None => {
            return Err(RowError::Field { column: 1 });
        },
    };
    let compress = match flag_in(&v, b[2]) {
        Some(x) => x,
        None => {
            return Err(RowError::Field { column: 2 });
        },
    };
    let ordered = match flag_in(&v, b[3]) {
        Some(x) => x,
        None => {
            return Err(RowError::Field { column: 3 });
        },
    };
    let uniform = match flag_in(&v, b[4]) {
        Some(x) => x,
        None => {
            return Err(RowError::Field { column: 4 });
        },
    };
    let readers = match count_in(&v, b[5]) {
        Some(x) => x,
        None => {
            return Err(RowError::Field { column: 5 });
        },
    };
    let writers = match count_in(&v, b[6]) {
        Some(x) => x,
        None => {
            return Err(RowError::Field { column: 6 });
        },
    };
    let writer_commits_per_sleep = match count_in(&v, b[7]) {
        Some(x) => x,
        None => {
            return Err(RowError::Field { column: 7 });
        },
    };
    let writer_sleep_time = match count_in(&v, b[8]) {
        Some(x) => x,
        None => {
            return Err(RowError::Field { column: 8 });
        },
    };
    let commits_per_timing_sample = match count_in(&v, b[9]) {
        Some(x) => x,
        None => {
            return Err(RowError::Field { column: 9 });
        },
    };
    let progressive = match flag_in(&v, b[10]) {
        Some(x) => x,
        None => {
            return Err(RowError::Field { column: 10 });
        },
    };
    let total_commits = match count_in(&v, b[11]) {
        Some(x) => x,
        None => {
            return Err(RowError::Field { column: 11 });
        },
    };
    let commits = match count_in(&v, b[13]) {
        Some(x) => x,
        None => {
            proof {
                assert(column_reads(12, fields[12]));
            }
            return Err(RowError::Field { column: 13 });
        },
    };
    let queries = match count_in(&v, b[15]) {
        Some(x) => x,
        None => {
            proof {
                assert(column_reads(12, fields[12]));
                assert(column_reads(14, fields[14]));
            }
            return Err(RowError::Field { column: 15 });
        },
    };
    let mut parameters = ParameterSet::new();
    parameters.insert("archive".to_owned(), ParameterValue::Bool(archive));
    parameters.insert("compress".to_owned(), ParameterValue::Bool(compress));
    parameters.insert("ordered".to_owned(), ParameterValue::Bool(ordered));
    parameters.insert("uniform".to_owned(), ParameterValue::Bool(uniform));
    parameters.insert("readers".to_owned(), ParameterValue::Int(readers));
    parameters.insert("writers".to_owned(), ParameterValue::Int(writers));
    parameters.insert(
        "writer-commits-per-sleep".to_owned(),
        ParameterValue::Int(writer_commits_per_sleep),
    );
    parameters.insert("writer-sleep-time".to_owned(), ParameterValue::Int(writer_sleep_time));
    parameters.insert(
        "commits-per-timing-sample".to_owned(),
        ParameterValue::Int(commits_per_timing_sample),
    );
    parameters.insert("progressive".to_owned(), ParameterValue::Bool(progressive));
    let row = Row {
        base_name: text_in(line, b[0]),
        parameters,
        total_commits,
        total_commit_time: text_in(line, b[12]),
        commits,
        commit_time: text_in(line, b[14]),
        queries,
        query_time: text_in(line, b[16]),
    };
    proof {
        assert forall|i: int| 0 <= i < COLUMNS implies column_reads(i, #[trigger] fields[i]) by {
            if i == 1 {
            } else if i == 2 {
            } else if i == 3 {
            } else if i == 4 {
            } else if i == 5 {
            } else if i == 6 {
            } else if i == 7 {
            } else if i == 8 {
            } else if i == 9 {
            } else if i == 10 {
            } else if i == 11 {
            } else if i == 13 {
            } else if i == 15 {
            }
        }
    }
    Ok(row)
}

} // verus!
