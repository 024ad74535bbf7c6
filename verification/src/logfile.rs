//! Reading a Session log from its decoded lines: which records it holds, where an unfinished
//! last record is cut off, and which faults block loading.
use vstd::prelude::*;

use crate::events::Record;
use crate::text::concat;

verus! {

/// How one line of a Session log decoded.
pub enum LineParse {
    /// The line holds only whitespace.
    Blank,
    /// The line decoded to this record.
    Parsed(Record),
    /// The input ended inside a record; the decoder's message.
    Truncated(String),
    /// The line is not a record; the decoder's message.
    Invalid(String),
}

/// One line of a Session log: its length in bytes, newline included, whether it ends with a
/// newline, and how it decoded.
pub struct LogLine {
    pub len: usize,
    pub complete: bool,
    pub parse: LineParse,
}

/// What a Session log holds: its records, and, when its last line is an unfinished record, the
/// length in bytes to cut the file back to.
pub struct LogScan {
    pub records: Vec<Record>,
    pub truncate_to: Option<usize>,
}

/// Whether the bytes of a line are all ASCII whitespace.
pub fn is_blank(line: &[u8]) -> (b: bool)
    ensures
        b == forall|i: int| 0 <= i < line@.len() ==> is_space(#[trigger] line@[i]),
{
    let mut i: usize = 0;
    while i < line.len()
        invariant
            i <= line@.len(),
            forall|j: int| 0 <= j < i ==> is_space(#[trigger] line@[j]),
        decreases line.len() - i,
    {
        let c = line[i];
        if !(c == 32u8 || c == 9u8 || c == 10u8 || c == 12u8 || c == 13u8) {
            return false;
        }
        i = i + 1;
    }
    true
}

/// An ASCII whitespace byte: space, tab, line feed, form feed, or carriage return.
pub open spec fn is_space(c: u8) -> bool {
    c == 32 || c == 9 || c == 10 || c == 12 || c == 13
}

/// The line stops reading: it is not a whole record.
pub open spec fn stops(l: LogLine) -> bool {
    l.parse is Truncated || l.parse is Invalid
}

/// The first line that stops reading.
pub open spec fn first_stop(lines: Seq<LogLine>) -> Option<int>
    decreases lines.len(),
{
    if lines.len() == 0 {
        None
    } else {
        match first_stop(lines.drop_last()) {
            Some(i) => Some(i),
            None => if stops(lines.last()) {
                Some(lines.len() - 1)
            } else {
                None
            },
        }
    }
}

/// The records of the lines, in order.
pub open spec fn parsed_of(lines: Seq<LogLine>) -> Seq<Record>
    decreases lines.len(),
{
    if lines.len() == 0 {
        Seq::empty()
    } else {
        let prev = parsed_of(lines.drop_last());
        match lines.last().parse {
            LineParse::Parsed(r) => prev.push(r),
            _ => prev,
        }
    }
}

/// The length in bytes of the lines.
pub open spec fn length_of(lines: Seq<LogLine>) -> int
    decreases lines.len(),
{
    if lines.len() == 0 {
        0
    } else {
        length_of(lines.drop_last()) + lines.last().len
    }
}

/// The decoder's message of a line that stops reading.
pub open spec fn fault_of(l: LogLine) -> Seq<char> {
    match l.parse {
        LineParse::Truncated(m) => m@,
        LineParse::Invalid(m) => m@,
        _ => Seq::empty(),
    }
}

/// What reading the lines of the log at `path` gives. Reading stops at the first line that is
/// not a whole record: an unfinished last line, one that ends before its newline, is cut off and
/// the records before it are kept; any other such line fails the load with "Persistence log
/// decode failed for ", the path, ": ", and the decoder's message. Blank lines are skipped.
pub open spec fn scanned(lines: Seq<LogLine>, path: Seq<char>, r: Result<LogScan, String>) -> bool {
    match first_stop(lines) {
        None => r matches Ok(s) && s.records@ == parsed_of(lines) && s.truncate_to is None,
        Some(k) => if lines[k].parse is Truncated && !lines[k].complete {
            r matches Ok(s) && s.records@ == parsed_of(lines.take(k)) && s.truncate_to == Some(
                length_of(lines.take(k)) as usize,
            )
        } else {
            r matches Err(m) && m@ == "Persistence log decode failed for "@ + path + ": "@ + fault_of(lines[k])
        },
    }
}

proof fn lemma_take_next(lines: Seq<LogLine>, i: int)
    requires
        0 <= i < lines.len(),
    ensures
        lines.take(i + 1).drop_last() == lines.take(i),
        lines.take(i + 1).last() == lines[i],
{
    assert(lines.take(i + 1).drop_last() =~= lines.take(i));
}

proof fn lemma_length_bound(lines: Seq<LogLine>, i: int)
    requires
        0 <= i <= lines.len(),
    ensures
        0 <= length_of(lines.take(i)) <= length_of(lines),
    decreases lines.len() - i,
{
    if i < lines.len() {
        lemma_take_next(lines, i);
        lemma_length_bound(lines, i + 1);
    } else {
        assert(lines.take(i) =~= lines);
    }
    assert(length_of(lines.take(i)) >= 0) by {
        lemma_length_nonneg(lines.take(i));
    }
}

proof fn lemma_length_nonneg(lines: Seq<LogLine>)
    ensures
        length_of(lines) >= 0,
    decreases lines.len(),
{
    if lines.len() > 0 {
        lemma_length_nonneg(lines.drop_last());
    }
}

proof fn lemma_first_stop_prefix(lines: Seq<LogLine>, j: int)
    requires
        0 <= j <= lines.len(),
        first_stop(lines.take(j)) is Some,
    ensures
        first_stop(lines) == first_stop(lines.take(j)),
    decreases lines.len() - j,
{
    if j < lines.len() {
        lemma_take_next(lines, j);
        lemma_first_stop_prefix(lines, j + 1);
    } else {
        assert(lines.take(j) =~= lines);
    }
}

/// Reads the decoded lines of the log at `path`; see [`scanned`].
pub fn scan_log(path: &str, lines: Vec<LogLine>) -> (r: Result<LogScan, String>)
    requires
        length_of(lines@) <= usize::MAX,
    ensures
        scanned(lines@, path@, r),
{
    let ghost all = lines@;
    let mut records: Vec<Record> = Vec::new();
    let mut offset: usize = 0;
    let mut i: usize = 0;
    let n = lines.len();
    proof {
        assert(all.take(0) =~= Seq::<LogLine>::empty());
    }
    for line in it: lines.into_iter()
        invariant
            it.seq() == all,
            i == it.index(),
            n == all.len(),
            length_of(all) <= usize::MAX,
            records@ == parsed_of(all.take(i as int)),
            offset == length_of(all.take(i as int)),
            first_stop(all.take(i as int)) is None,
    {
        proof {
            lemma_take_next(all, i as int);
            lemma_length_bound(all, i as int + 1);
            assert(line == all[i as int]);
            if stops(line) {
                assert(first_stop(all.take(i + 1)) == Some(i as int));
                lemma_first_stop_prefix(all, i + 1);
            }
        }
        match line.parse {
            LineParse::Blank => {},
            LineParse::Parsed(record) => {
                records.push(record);
            },
            LineParse::Truncated(message) => {
                if !line.complete {
                    return Ok(LogScan { records, truncate_to: Some(offset) });
                }
                let m = concat("Persistence log decode failed for ", path);
                let m = concat(m.as_str(), ": ");
                return Err(concat(m.as_str(), message.as_str()));
            },
            LineParse::Invalid(message) => {
                let m = concat("Persistence log decode failed for ", path);
                let m = concat(m.as_str(), ": ");
                return Err(concat(m.as_str(), message.as_str()));
            },
        }
        offset = offset + line.len;
        i = i + 1;
    }
    proof {
        assert(all.take(n as int) =~= all);
    }
    Ok(LogScan { records, truncate_to: None })
}

/// The records of the log at `path`, which must hold at least one: an empty log fails the load
/// with "Persistence log is empty: " and the path.
pub fn require_records(path: &str, records: Vec<Record>) -> (r: Result<Vec<Record>, String>)
    ensures
        records@.len() == 0 <==> r is Err,
        r matches Ok(v) ==> v@ == records@,
        r matches Err(m) ==> m@ == "Persistence log is empty: "@ + path@,
{
    if records.len() == 0 {
        return Err(concat("Persistence log is empty: ", path));
    }
    Ok(records)
}

} // verus!
