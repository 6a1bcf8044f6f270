use vstd::prelude::*;

use crate::codec::{parsed_rows, written_record};
use crate::filter::{
    encoded_rows, join2, lemma_join_parts_add, row_selected, selected_rows, target_output,
    target_rows, targets_output,
};
use crate::selector::lines_set;

verus! {

/// All rows of the targets, one target after another, each in its own order.
pub open spec fn all_rows(targets: Seq<Seq<u8>>, delim: u8) -> Seq<Seq<Seq<char>>>
    decreases targets.len(),
{
    if targets.len() == 0 {
        Seq::empty()
    } else {
        all_rows(targets.drop_last(), delim) + match parsed_rows(targets.last(), delim) {
            Some(rows) => rows,
            None => Seq::empty(),
        }
    }
}

/// A row is among the selected rows exactly when it is one of the input rows
/// and its value at the target column is in the selector, flipped by `invert`.
pub proof fn lemma_row_presence(
    selector: Set<Seq<char>>,
    rows: Seq<Seq<Seq<char>>>,
    column: int,
    invert: bool,
    row: Seq<Seq<char>>,
)
    ensures
        selected_rows(selector, rows, column, invert).contains(row) <==> (rows.contains(row)
            && row_selected(selector, row, column, invert)),
{
    broadcast use vstd::seq_lib::group_filter_ensures;

    let pick = |r: Seq<Seq<char>>| row_selected(selector, r, column, invert);
    let out = rows.filter(pick);
    if out.contains(row) {
        let k = choose|k: int| 0 <= k < out.len() && out[k] == row;
        assert(pick(out[k]));
        rows.lemma_filter_contains_rev(pick, row);
    }
    if rows.contains(row) && row_selected(selector, row, column, invert) {
        let k = choose|k: int| 0 <= k < rows.len() && rows[k] == row;
        rows.lemma_filter_contains(pick, k);
    }
}

/// Writing out two runs of rows one after the other gives the bytes of the
/// first followed by those of the second.
pub proof fn lemma_encoded_rows_add(a: Seq<Seq<Seq<char>>>, b: Seq<Seq<Seq<char>>>, delim: u8)
    ensures
        encoded_rows(a + b, delim) == join2(encoded_rows(a, delim), encoded_rows(b, delim)),
{
    let write = |row: Seq<Seq<char>>| written_record(row, delim);
    assert((a + b).map_values(write) == a.map_values(write) + b.map_values(write));
    lemma_join_parts_add(a.map_values(write), b.map_values(write));
}

/// Where every target is filtered without error, the output is the rows of
/// all targets, taken in the order the targets are given and each target's
/// rows in their own order, filtered and written out.
pub proof fn lemma_order_across_targets(
    selector: Set<Seq<char>>,
    targets: Seq<Seq<u8>>,
    delim: u8,
    column: int,
    invert: bool,
)
    requires
        forall|k: int|
            0 <= k < targets.len() ==> (#[trigger] target_rows(selector, targets[k], delim, column, invert)) is Some,
    ensures
        targets_output(selector, targets, delim, column, invert) == encoded_rows(
            selected_rows(selector, all_rows(targets, delim), column, invert),
            delim,
        ),
    decreases targets.len(),
{
    let part = |data: Seq<u8>| target_output(selector, data, delim, column, invert);
    let pick = |r: Seq<Seq<char>>| row_selected(selector, r, column, invert);
    if targets.len() == 0 {
        reveal(Seq::filter);
        assert(targets.map_values(part) =~= Seq::<Option<Seq<u8>>>::empty());
        assert(Seq::<Seq<Seq<char>>>::empty().map_values(
            |row: Seq<Seq<char>>| written_record(row, delim),
        ) =~= Seq::<Option<Seq<u8>>>::empty());
    } else {
        let front = targets.drop_last();
        let last = targets.last();
        assert forall|k: int| 0 <= k < front.len() implies (#[trigger] target_rows(
            selector,
            front[k],
            delim,
            column,
            invert,
        )) is Some by {
            assert(front[k] == targets[k]);
        }
        lemma_order_across_targets(selector, front, delim, column, invert);
        assert(targets.map_values(part).drop_last() == front.map_values(part));
        assert(target_rows(selector, targets[targets.len() - 1], delim, column, invert) is Some);
        let rows = parsed_rows(last, delim)->Some_0;
        Seq::filter_distributes_over_add(all_rows(front, delim), rows, pick);
        lemma_encoded_rows_add(
            selected_rows(selector, all_rows(front, delim), column, invert),
            selected_rows(selector, rows, column, invert),
            delim,
        );
    }
}

/// The output is determined by the selector, the targets and the settings:
/// two runs on the same inputs give the same bytes.
pub proof fn lemma_same_inputs_same_output(
    lines1: Seq<String>,
    lines2: Seq<String>,
    targets1: Seq<Seq<u8>>,
    targets2: Seq<Seq<u8>>,
    delim: u8,
    column: int,
    invert: bool,
)
    requires
        lines1 == lines2,
        targets1 == targets2,
    ensures
        targets_output(lines_set(lines1), targets1, delim, column, invert) == targets_output(
            lines_set(lines2),
            targets2,
            delim,
            column,
            invert,
        ),
{
}

/// A selector line repeated anywhere in the selector file adds nothing: the
/// selector and every output stay the same.
pub proof fn lemma_duplicate_line_collapses(
    lines: Seq<String>,
    i: int,
    j: int,
    targets: Seq<Seq<u8>>,
    delim: u8,
    column: int,
    invert: bool,
)
    requires
        0 <= i < lines.len(),
        0 <= j <= lines.len(),
    ensures
        lines_set(lines.insert(j, lines[i])) == lines_set(lines),
        targets_output(lines_set(lines.insert(j, lines[i])), targets, delim, column, invert)
            == targets_output(lines_set(lines), targets, delim, column, invert),
{
    let more = lines.insert(j, lines[i]);
    assert forall|t: Seq<char>| lines_set(more).contains(t) implies lines_set(lines).contains(t) by {
        let k = choose|k: int| 0 <= k < more.len() && more[k]@ == t;
        if k < j {
            assert(lines[k]@ == t);
        } else if k == j {
            assert(lines[i]@ == t);
        } else {
            assert(lines[k - 1]@ == t);
        }
    }
    assert forall|t: Seq<char>| lines_set(lines).contains(t) implies lines_set(more).contains(t) by {
        let k = choose|k: int| 0 <= k < lines.len() && lines[k]@ == t;
        if k < j {
            assert(more[k]@ == t);
        } else {
            assert(more[k + 1]@ == t);
        }
    }
    assert(lines_set(more) =~= lines_set(lines));
}

} // verus!
