use vstd::prelude::*;
use vstd::string::StringSliceAdditionalSpecFns;

use crate::codec::{parse_records, parsed_rows, record_view, rows_view, write_record, written_record};
use crate::selector::Selector;

verus! {

/// Why a target could not be filtered.
#[derive(Debug)]
pub enum MashError {
    /// The target's contents are not a well-formed delimited table.
    Malformed(csv::Error),
    /// Row `row` (counted from 0) has `fields` fields, too few for the
    /// target column, or the target column is 0.
    ColumnOutOfRange { row: usize, fields: usize },
    /// A selected row could not be written out.
    Write(csv::Error),
}

/// The 1-based `column` names a field of `row`.
pub open spec fn column_in_range(row: Seq<Seq<char>>, column: int) -> bool {
    1 <= column <= row.len()
}

/// Every row has a field at `column`.
pub open spec fn all_in_range(rows: Seq<Seq<Seq<char>>>, column: int) -> bool {
    forall|i: int| 0 <= i < rows.len() ==> column_in_range(#[trigger] rows[i], column)
}

/// Row `k` is the first one without a field at `column`.
pub open spec fn first_out_of_range(rows: Seq<Seq<Seq<char>>>, column: int, k: int) -> bool {
    &&& 0 <= k < rows.len()
    &&& !column_in_range(rows[k], column)
    &&& forall|i: int| 0 <= i < k ==> column_in_range(#[trigger] rows[i], column)
}

/// A row is selected when its value at `column` is a member of the selector,
/// or, with `invert`, when it is not.
pub open spec fn row_selected(
    selector: Set<Seq<char>>,
    row: Seq<Seq<char>>,
    column: int,
    invert: bool,
) -> bool {
    selector.contains(row[column - 1]) != invert
}

/// The selected rows, in their input order.
pub open spec fn selected_rows(
    selector: Set<Seq<char>>,
    rows: Seq<Seq<Seq<char>>>,
    column: int,
    invert: bool,
) -> Seq<Seq<Seq<char>>> {
    rows.filter(|row: Seq<Seq<char>>| row_selected(selector, row, column, invert))
}

/// Both byte strings joined, or `None` if either is missing.
pub open spec fn join2(a: Option<Seq<u8>>, b: Option<Seq<u8>>) -> Option<Seq<u8>> {
    match (a, b) {
        (Some(x), Some(y)) => Some(x + y),
        _ => None,
    }
}

/// All parts joined in order, or `None` if any is missing.
pub open spec fn join_parts(parts: Seq<Option<Seq<u8>>>) -> Option<Seq<u8>>
    decreases parts.len(),
{
    if parts.len() == 0 {
        Some(Seq::empty())
    } else {
        join2(join_parts(parts.drop_last()), parts.last())
    }
}

/// The bytes of the rows written one after another.
pub open spec fn encoded_rows(rows: Seq<Seq<Seq<char>>>, delim: u8) -> Option<Seq<u8>> {
    join_parts(rows.map_values(|row: Seq<Seq<char>>| written_record(row, delim)))
}

/// The rows of one target that are selected, or `None` where the target is
/// malformed or a row lacks the target column.
pub open spec fn target_rows(
    selector: Set<Seq<char>>,
    data: Seq<u8>,
    delim: u8,
    column: int,
    invert: bool,
) -> Option<Seq<Seq<Seq<char>>>> {
    match parsed_rows(data, delim) {
        Some(rows) => if all_in_range(rows, column) {
            Some(selected_rows(selector, rows, column, invert))
        } else {
            None
        },
        None => None,
    }
}

/// The output for one target: its selected rows written out.
pub open spec fn target_output(
    selector: Set<Seq<char>>,
    data: Seq<u8>,
    delim: u8,
    column: int,
    invert: bool,
) -> Option<Seq<u8>> {
    match target_rows(selector, data, delim, column, invert) {
        Some(rows) => encoded_rows(rows, delim),
        None => None,
    }
}

/// The output for several targets: each one's output, in the order given.
pub open spec fn targets_output(
    selector: Set<Seq<char>>,
    targets: Seq<Seq<u8>>,
    delim: u8,
    column: int,
    invert: bool,
) -> Option<Seq<u8>> {
    join_parts(
        targets.map_values(|data: Seq<u8>| target_output(selector, data, delim, column, invert)),
    )
}

/// `e` is the error that filtering `data` reports: a malformed table first,
/// then the first row without the target column, then a failed write.
pub open spec fn error_fits(
    e: MashError,
    selector: Set<Seq<char>>,
    data: Seq<u8>,
    delim: u8,
    column: int,
    invert: bool,
) -> bool {
    match parsed_rows(data, delim) {
        None => e is Malformed,
        Some(rows) => if all_in_range(rows, column) {
            &&& e is Write
            &&& encoded_rows(selected_rows(selector, rows, column, invert), delim) is None
        } else {
            &&& e matches MashError::ColumnOutOfRange { row, fields }
            &&& first_out_of_range(rows, column, row as int)
            &&& fields == rows[row as int].len()
        },
    }
}

/// The contents of several targets, each as bytes.
pub open spec fn targets_view(targets: Seq<Vec<u8>>) -> Seq<Seq<u8>> {
    targets.map_values(|t: Vec<u8>| t@)
}

/// Joining two runs of parts joins their results.
pub proof fn lemma_join_parts_add(a: Seq<Option<Seq<u8>>>, b: Seq<Option<Seq<u8>>>)
    ensures
        join_parts(a + b) == join2(join_parts(a), join_parts(b)),
    decreases b.len(),
{
    if b.len() == 0 {
        assert(a + b == a);
        match join_parts(a) {
            Some(x) => assert(x + Seq::<u8>::empty() == x),
            None => {},
        }
    } else {
        assert((a + b).drop_last() == a + b.drop_last());
        lemma_join_parts_add(a, b.drop_last());
        match (join_parts(a), join_parts(b.drop_last()), b.last()) {
            (Some(x), Some(y), Some(z)) => assert((x + y) + z == x + (y + z)),
            _ => {},
        }
    }
}

/// The delimiter byte named by a delimiter string: its first byte.
pub fn delimiter_byte(delim: &str) -> (r: Option<u8>)
    ensures
        r == (if delim.spec_bytes().len() > 0 {
            Some(delim.spec_bytes()[0])
        } else {
            None
        }),
{
    let bytes = delim.as_bytes();
    if bytes.len() > 0 {
        Some(bytes[0])
    } else {
        None
    }
}

/// Tests one record: `None` when the 1-based `column_target` names no field
/// of it, else whether it is selected.
pub fn select_record(selector: &Selector, record: &Vec<String>, column_target: usize, invert: bool) -> (r: Option<bool>)
    ensures
        r == (if column_in_range(record_view(record@), column_target as int) {
            Some(row_selected(selector@, record_view(record@), column_target as int, invert))
        } else {
            None
        }),
        column_target == record.len() && record.len() > 0 ==> r is Some,
        column_target > record.len() ==> r is None,
{
    if column_target == 0 || column_target > record.len() {
        None
    } else {
        let member = selector.contains(record[column_target - 1].as_str());
        Some(member != invert)
    }
}

/// Keeps the rows whose value at the 1-based `column_target` is in the
/// selector (or, with `invert`, is not), in input order. Fails on the first
/// row that has no field at `column_target`.
pub fn select_rows(
    selector: &Selector,
    rows: &Vec<Vec<String>>,
    column_target: usize,
    invert: bool,
) -> (r: Result<Vec<Vec<String>>, MashError>)
    ensures
        match r {
            Ok(kept) => {
                &&& all_in_range(rows_view(rows@), column_target as int)
                &&& rows_view(kept@) == selected_rows(selector@, rows_view(rows@), column_target as int, invert)
            },
            Err(e) => {
                &&& e matches MashError::ColumnOutOfRange { row, fields }
                &&& first_out_of_range(rows_view(rows@), column_target as int, row as int)
                &&& fields == rows@[row as int]@.len()
            },
        },
{
    let ghost all = rows_view(rows@);
    let ghost column = column_target as int;
    let ghost pick = |row: Seq<Seq<char>>| row_selected(selector@, row, column, invert);
    let mut kept: Vec<Vec<String>> = Vec::new();
    let mut i: usize = 0;
    while i < rows.len()
        invariant
            0 <= i <= rows.len(),
            all == rows_view(rows@),
            column == column_target as int,
            pick == (|row: Seq<Seq<char>>| row_selected(selector@, row, column, invert)),
            forall|j: int| 0 <= j < i ==> column_in_range(#[trigger] all[j], column),
            rows_view(kept@) == all.take(i as int).filter(pick),
        decreases rows.len() - i,
    {
        let ghost prefix = all.take(i as int);
        let ghost next = all.take(i as int + 1);
        proof {
            reveal(Seq::filter);
            assert(next.len() == i + 1);
            assert(next.drop_last() == prefix);
            assert(next.last() == all[i as int]);
            assert(all[i as int] == record_view(rows@[i as int]@));
        }
        match select_record(selector, &rows[i], column_target, invert) {
            None => {
                return Err(MashError::ColumnOutOfRange { row: i, fields: rows[i].len() });
            },
            Some(true) => {
                let row = rows[i].clone();
                proof {
                    assert(record_view(row@) =~= record_view(rows@[i as int]@)) by {
                        assert(row.deep_view() == rows@[i as int].deep_view());
                        assert forall|k: int| 0 <= k < row@.len() implies row@[k]@ == rows@[i as int]@[k]@ by {
                            assert(row.deep_view()[k] == rows@[i as int].deep_view()[k]);
                        }
                    }
                    assert(rows_view(kept@.push(row)) =~= rows_view(kept@).push(all[i as int]));
                }
                kept.push(row);
            },
            Some(false) => {},
        }
        i = i + 1;
    }
    proof {
        assert(all.take(rows.len() as int) == all);
    }
    Ok(kept)
}

/// Writes the rows out one after another, each as a delimited record.
pub fn write_rows(rows: &Vec<Vec<String>>, delim: u8) -> (r: Result<Vec<u8>, csv::Error>)
    ensures
        match r {
            Ok(out) => encoded_rows(rows_view(rows@), delim) == Some(out@),
            Err(_) => encoded_rows(rows_view(rows@), delim) is None,
        },
{
    let ghost all = rows_view(rows@);
    let ghost write = |row: Seq<Seq<char>>| written_record(row, delim);
    let mut out: Vec<u8> = Vec::new();
    let mut i: usize = 0;
    while i < rows.len()
        invariant
            0 <= i <= rows.len(),
            all == rows_view(rows@),
            write == (|row: Seq<Seq<char>>| written_record(row, delim)),
            encoded_rows(all.take(i as int), delim) == Some(out@),
        decreases rows.len() - i,
    {
        let ghost next = all.take(i as int + 1);
        proof {
            assert(next.map_values(write).drop_last() == all.take(i as int).map_values(write));
            assert(next.map_values(write).last() == write(record_view(rows@[i as int]@)));
        }
        match write_record(&rows[i], delim) {
            Ok(bytes) => {
                let mut bytes = bytes;
                out.append(&mut bytes);
            },
            Err(e) => {
                proof {
                    let rest = all.skip(i as int + 1);
                    assert(all == next + rest);
                    assert(all.map_values(write) == next.map_values(write) + rest.map_values(write));
                    lemma_join_parts_add(next.map_values(write), rest.map_values(write));
                }
                return Err(e);
            },
        }
        i = i + 1;
    }
    proof {
        assert(all.take(rows.len() as int) == all);
    }
    Ok(out)
}

/// Filters one target's contents: its selected rows written out in input
/// order, and how many there are.
pub fn process_target(
    selector: &Selector,
    data: &[u8],
    delim: u8,
    column_target: usize,
    invert: bool,
) -> (r: Result<(Vec<u8>, usize), MashError>)
    ensures
        match r {
            Ok((out, n)) => {
                &&& target_output(selector@, data@, delim, column_target as int, invert) == Some(out@)
                &&& target_rows(selector@, data@, delim, column_target as int, invert) matches Some(rows)
                &&& n == rows.len()
            },
            Err(e) => {
                &&& target_output(selector@, data@, delim, column_target as int, invert) is None
                &&& error_fits(e, selector@, data@, delim, column_target as int, invert)
            },
        },
{
    let rows = match parse_records(data, delim) {
        Ok(rows) => rows,
        Err(e) => {
            return Err(MashError::Malformed(e));
        },
    };
    let kept = match select_rows(selector, &rows, column_target, invert) {
        Ok(kept) => kept,
        Err(e) => {
            proof {
                assert(!all_in_range(rows_view(rows@), column_target as int));
            }
            return Err(e);
        },
    };
    match write_rows(&kept, delim) {
        Ok(out) => Ok((out, kept.len())),
        Err(e) => Err(MashError::Write(e)),
    }
}

/// Filters several targets' contents in the order given: the output of each
/// follows that of the one before. The first target that fails stops the run.
pub fn filter_targets(
    selector: &Selector,
    targets: &Vec<Vec<u8>>,
    delim: u8,
    column_target: usize,
    invert: bool,
) -> (r: Result<Vec<u8>, MashError>)
    ensures
        match r {
            Ok(out) => targets_output(selector@, targets_view(targets@), delim, column_target as int, invert) == Some(out@),
            Err(e) => {
                &&& targets_output(selector@, targets_view(targets@), delim, column_target as int, invert) is None
                &&& exists|k: int|
                    {
                        &&& 0 <= k < targets.len()
                        &&& forall|j: int| 0 <= j < k ==> (#[trigger] target_output(selector@, targets@[j]@, delim, column_target as int, invert)) is Some
                        &&& error_fits(e, selector@, targets@[k]@, delim, column_target as int, invert)
                    }
            },
        },
{
    let ghost all = targets_view(targets@);
    let ghost column = column_target as int;
    let ghost part = |data: Seq<u8>| target_output(selector@, data, delim, column, invert);
    let mut out: Vec<u8> = Vec::new();
    let mut i: usize = 0;
    while i < targets.len()
        invariant
            0 <= i <= targets.len(),
            all == targets_view(targets@),
            column == column_target as int,
            part == (|data: Seq<u8>| target_output(selector@, data, delim, column, invert)),
            join_parts(all.take(i as int).map_values(part)) == Some(out@),
            forall|j: int| 0 <= j < i ==> (#[trigger] target_output(selector@, targets@[j]@, delim, column, invert)) is Some,
        decreases targets.len() - i,
    {
        let ghost next = all.take(i as int + 1);
        proof {
            assert(next.map_values(part).drop_last() == all.take(i as int).map_values(part));
            assert(next.map_values(part).last() == part(targets@[i as int]@));
        }
        match process_target(selector, targets[i].as_slice(), delim, column_target, invert) {
            Ok((bytes, _)) => {
                let mut bytes = bytes;
                out.append(&mut bytes);
            },
            Err(e) => {
                proof {
                    let rest = all.skip(i as int + 1);
                    assert(all == next + rest);
                    assert(all.map_values(part) == next.map_values(part) + rest.map_values(part));
                    lemma_join_parts_add(next.map_values(part), rest.map_values(part));
                    assert(error_fits(e, selector@, targets@[i as int]@, delim, column, invert));
                }
                return Err(e);
            },
        }
        i = i + 1;
    }
    proof {
        assert(all.take(targets.len() as int) == all);
    }
    Ok(out)
}

} // verus!
