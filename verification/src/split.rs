//! The split of a table into a training part and a test part by calendar year.

use vstd::prelude::*;
use vstd::string::*;
use crate::error::Error;
use crate::table::{Cells, Table};
use crate::view::{
    ascending,
    kept_rows,
    lemma_column_height,
    lemma_disjoint_masks,
    lemma_filter_keeps_order,
    lemma_take_column,
    CellsView,
    TableView,
};

verus! {

/// The value of a decimal digit, for the characters `0` to `9`.
pub open spec fn digit_value(c: char) -> Option<int> {
    if '0' <= c && c <= '9' {
        Some(c as int - '0' as int)
    } else {
        None
    }
}

/// The year that a timestamp begins with: its first four characters read as
/// a signed decimal number, that is four digits, or a sign and three digits.
/// A shorter text, or one that begins otherwise, has no year.
pub open spec fn year_of(text: Seq<char>) -> Option<int> {
    if text.len() < 4 {
        None
    } else if digit_value(text[1]) is None || digit_value(text[2]) is None || digit_value(text[3])
        is None {
        None
    } else {
        let low = 100 * digit_value(text[1])->0 + 10 * digit_value(text[2])->0 + digit_value(
            text[3],
        )->0;
        if digit_value(text[0]) is Some {
            Some(1000 * digit_value(text[0])->0 + low)
        } else if text[0] == '+' {
            Some(low)
        } else if text[0] == '-' {
            Some(-low)
        } else {
            None
        }
    }
}

/// The year of the cell at row `i`; a null and a number have none.
pub open spec fn cell_year(cells: CellsView, i: int) -> Option<int> {
    match cells {
        CellsView::Text(s) => match s[i] {
            Some(text) => year_of(text),
            None => None,
        },
        CellsView::Number(_) => None,
    }
}

/// Row `i` belongs to the training part: its year is at most `cutoff`.
pub open spec fn trains(cells: CellsView, cutoff: int, i: int) -> bool {
    cell_year(cells, i) is Some && cell_year(cells, i)->0 <= cutoff
}

/// Row `i` belongs to the test part: its year is the one after `cutoff`.
pub open spec fn tests(cells: CellsView, cutoff: int, i: int) -> bool {
    cell_year(cells, i) == Some(cutoff + 1)
}

/// For each row, whether it belongs to the training part.
pub open spec fn train_mask(cells: CellsView, cutoff: int) -> Seq<bool> {
    Seq::new(cells.len(), |i: int| trains(cells, cutoff, i))
}

/// For each row, whether it belongs to the test part.
pub open spec fn test_mask(cells: CellsView, cutoff: int) -> Seq<bool> {
    Seq::new(cells.len(), |i: int| tests(cells, cutoff, i))
}

/// Of a split at the year `cutoff`, every training row bears a year up to
/// `cutoff`, every test row bears the year after it, and the two parts
/// together have no more rows than the table. Both parts keep the rows in
/// their order.
pub proof fn lemma_split_by_year(t: TableView, date: Seq<char>, cutoff: int)
    requires
        t.well_formed(),
        t.has_column(date),
    ensures
        ({
            let dates = t.column(date).cells;
            let train = t.filter(train_mask(dates, cutoff));
            let test = t.filter(test_mask(dates, cutoff));
            &&& train.has_column(date)
            &&& test.has_column(date)
            &&& forall|i: int|
                0 <= i < train.height() ==> (#[trigger] cell_year(train.column(date).cells, i))
                    is Some && cell_year(train.column(date).cells, i)->0 <= cutoff
            &&& forall|i: int|
                0 <= i < test.height() ==> #[trigger] cell_year(test.column(date).cells, i) == Some(
                    cutoff + 1,
                )
            &&& train.height() + test.height() <= t.height()
            &&& ascending(kept_rows(train_mask(dates, cutoff)))
            &&& ascending(kept_rows(test_mask(dates, cutoff)))
        }),
{
    let dates = t.column(date).cells;
    let train_keep = train_mask(dates, cutoff);
    let test_keep = test_mask(dates, cutoff);
    let train_rows = kept_rows(train_keep);
    let test_rows = kept_rows(test_keep);
    let train = t.filter(train_keep);
    let test = t.filter(test_keep);
    lemma_column_height(t, date);
    lemma_filter_keeps_order(t, train_keep);
    lemma_filter_keeps_order(t, test_keep);
    lemma_take_column(t, train_rows, date);
    lemma_take_column(t, test_rows, date);
    lemma_disjoint_masks(train_keep, test_keep);
    assert forall|i: int| 0 <= i < train.height() implies (#[trigger] cell_year(
        train.column(date).cells,
        i,
    )) is Some && cell_year(train.column(date).cells, i)->0 <= cutoff by {
        assert(train_keep[train_rows[i]]);
        assert(cell_year(train.column(date).cells, i) == cell_year(dates, train_rows[i]));
    }
    assert forall|i: int| 0 <= i < test.height() implies #[trigger] cell_year(
        test.column(date).cells,
        i,
    ) == Some(cutoff + 1) by {
        assert(test_keep[test_rows[i]]);
        assert(cell_year(test.column(date).cells, i) == cell_year(dates, test_rows[i]));
    }
}

fn digit_of(c: char) -> (d: Option<i32>)
    ensures
        match d {
            Some(v) => digit_value(c) == Some(v as int) && 0 <= v <= 9,
            None => digit_value(c) is None,
        },
{
    if '0' <= c && c <= '9' {
        let code: u32 = c as u32;
        Some((code - 48) as i32)
    } else {
        None
    }
}

/// Reads the year that `text` begins with.
pub fn parse_year(text: &str) -> (year: Option<i32>)
    ensures
        match year {
            Some(y) => year_of(text@) == Some(y as int),
            None => year_of(text@) is None,
        },
{
    if text.unicode_len() < 4 {
        return None;
    }
    let first = text.get_char(0);
    let d1 = digit_of(text.get_char(1));
    let d2 = digit_of(text.get_char(2));
    let d3 = digit_of(text.get_char(3));
    match (d1, d2, d3) {
        (Some(a), Some(b), Some(c)) => {
            let low: i32 = 100 * a + 10 * b + c;
            match digit_of(first) {
                Some(d) => Some(1000 * d + low),
                None => if first == '+' {
                    Some(low)
                } else if first == '-' {
                    Some(-low)
                } else {
                    None
                },
            }
        },
        _ => None,
    }
}

/// Splits `table` by the year that each row's timestamp in `date_col` begins
/// with. Rows of a year up to `cutoff_year` go to the first table, rows of the
/// year after it to the second; every other row, and every row without a
/// readable year, goes to neither. Both parts keep the rows in their order.
pub fn train_test_split_by_year(table: &Table, date_col: &str, cutoff_year: i32) -> (r: Result<
    (Table, Table),
    Error,
>)
    ensures
        r is Ok <==> table@.has_column(date_col@),
        r is Err ==> r->Err_0 == Error::MissingColumn,
        r is Ok ==> {
            let dates = table@.column(date_col@).cells;
            &&& r->Ok_0.0@ == table@.filter(train_mask(dates, cutoff_year as int))
            &&& r->Ok_0.1@ == table@.filter(test_mask(dates, cutoff_year as int))
            &&& r->Ok_0.0@.well_formed()
            &&& r->Ok_0.1@.well_formed()
        },
{
    let column = match table.column(date_col) {
        Some(column) => column,
        None => {
            return Err(Error::MissingColumn);
        },
    };
    let height = table.height();
    let ghost dates = column@.cells;
    let ghost cutoff = cutoff_year as int;
    let mut train: Vec<bool> = Vec::new();
    let mut test: Vec<bool> = Vec::new();
    let mut i: usize = 0;
    while i < height
        invariant
            i <= height,
            height == dates.len(),
            dates == column@.cells,
            cutoff == cutoff_year as int,
            train@.len() == i,
            test@.len() == i,
            forall|j: int| 0 <= j < i ==> train@[j] == trains(dates, cutoff, j),
            forall|j: int| 0 <= j < i ==> test@[j] == tests(dates, cutoff, j),
        decreases height - i,
    {
        let year = match &column.cells {
            Cells::Text(texts) => match &texts[i] {
                Some(text) => parse_year(text.as_str()),
                None => None,
            },
            Cells::Number(_) => None,
        };
        match year {
            Some(y) => {
                train.push(y <= cutoff_year);
                test.push(cutoff_year < i32::MAX && y == cutoff_year + 1);
            },
            None => {
                train.push(false);
                test.push(false);
            },
        }
        i += 1;
    }
    proof {
        assert(train@ =~= train_mask(dates, cutoff));
        assert(test@ =~= test_mask(dates, cutoff));
    }
    Ok((table.filter_rows(&train), table.filter_rows(&test)))
}

} // verus!
