//! Removal of rows that lack a value, or hold a number that is not finite, in
//! one of a list of columns.

use vstd::prelude::*;
use crate::error::Error;
use crate::number::{bits_are_finite, is_finite};
use crate::table::{names_view, Column, Table};
use crate::view::{
    ascending,
    first_fault,
    kept_rows,
    lemma_filter_keeps_order,
    CellsView,
    TableView,
};

verus! {

/// Every name in `names` is a column of `t`.
pub open spec fn has_all(t: TableView, names: Seq<Seq<char>>) -> bool {
    forall|k: int| 0 <= k < names.len() ==> t.has_column(#[trigger] names[k])
}

/// Row `i` holds a value in each of the first `upto` columns of `names`.
pub open spec fn present_upto(t: TableView, names: Seq<Seq<char>>, upto: int, i: int) -> bool {
    forall|k: int| 0 <= k < upto ==> !t.column(#[trigger] names[k]).cells.is_null(i)
}

/// Row `i` holds a value in every column of `names`.
pub open spec fn row_present(t: TableView, names: Seq<Seq<char>>, i: int) -> bool {
    present_upto(t, names, names.len() as int, i)
}

/// The rows that hold a value in every column of `names`.
pub open spec fn present_mask(t: TableView, names: Seq<Seq<char>>) -> Seq<bool> {
    Seq::new(t.height(), |i: int| row_present(t, names, i))
}

/// The cell at row `i` holds a finite number.
pub open spec fn cell_finite(cells: CellsView, i: int) -> bool {
    match cells {
        CellsView::Number(s) => s[i] is Some && is_finite(s[i]->0),
        CellsView::Text(_) => false,
    }
}

/// Row `i` holds a finite number in each of the first `upto` columns of `names`.
pub open spec fn finite_upto(t: TableView, names: Seq<Seq<char>>, upto: int, i: int) -> bool {
    forall|k: int| 0 <= k < upto ==> cell_finite(t.column(#[trigger] names[k]).cells, i)
}

/// Row `i` holds a finite number in every column of `names`.
pub open spec fn row_finite(t: TableView, names: Seq<Seq<char>>, i: int) -> bool {
    finite_upto(t, names, names.len() as int, i)
}

/// The rows that hold a finite number in every column of `names`.
pub open spec fn finite_mask(t: TableView, names: Seq<Seq<char>>) -> Seq<bool> {
    Seq::new(t.height(), |i: int| row_finite(t, names, i))
}

/// Dropping the rows with a null never adds a row and never changes the
/// order of the rows that stay; and every row that stays holds a value in
/// each of the columns `names`.
pub proof fn lemma_drop_nulls(t: TableView, names: Seq<Seq<char>>)
    requires
        t.well_formed(),
        has_all(t, names),
    ensures
        ({
            let out = t.filter(present_mask(t, names));
            let rows = kept_rows(present_mask(t, names));
            &&& out.height() <= t.height()
            &&& out == t.take(rows)
            &&& ascending(rows)
            &&& t.in_range(rows)
            &&& forall|k: int| 0 <= k < rows.len() ==> row_present(t, names, #[trigger] rows[k])
        }),
{
    let keep = present_mask(t, names);
    lemma_filter_keeps_order(t, keep);
    let rows = kept_rows(keep);
    assert forall|k: int| 0 <= k < rows.len() implies row_present(t, names, #[trigger] rows[k]) by {
        assert(keep[rows[k]]);
    }
}

/// Dropping the rows with a number that is not finite never adds a row and
/// never changes the order of the rows that stay; and every row that stays
/// holds a finite number in each of the columns `names`.
pub proof fn lemma_drop_non_finite(t: TableView, names: Seq<Seq<char>>)
    requires
        t.well_formed(),
        first_fault(t, names) is None,
    ensures
        ({
            let out = t.filter(finite_mask(t, names));
            let rows = kept_rows(finite_mask(t, names));
            &&& out.height() <= t.height()
            &&& out == t.take(rows)
            &&& ascending(rows)
            &&& t.in_range(rows)
            &&& forall|k: int| 0 <= k < rows.len() ==> row_finite(t, names, #[trigger] rows[k])
        }),
{
    let keep = finite_mask(t, names);
    lemma_filter_keeps_order(t, keep);
    let rows = kept_rows(keep);
    assert forall|k: int| 0 <= k < rows.len() implies row_finite(t, names, #[trigger] rows[k]) by {
        assert(keep[rows[k]]);
    }
}

/// Looks up each of `cols` in `table`, stopping at the first that is missing.
fn lookup_all<'a>(table: &'a Table, cols: &[String]) -> (r: Result<Vec<&'a Column>, usize>)
    ensures
        table@.well_formed(),
        match r {
            Ok(found) => {
                &&& found@.len() == cols@.len()
                &&& forall|k: int|
                    0 <= k < cols@.len() ==> table@.has_column(#[trigger] cols@[k]@) && found@[k]@
                        == table@.column(cols@[k]@) && found@[k]@.cells.len() == table@.height()
            },
            Err(at) => {
                &&& at < cols@.len()
                &&& !table@.has_column(cols@[at as int]@)
                &&& forall|k: int| 0 <= k < at ==> table@.has_column(#[trigger] cols@[k]@)
            },
        },
{
    let mut found: Vec<&Column> = Vec::new();
    let mut k: usize = 0;
    proof {
        use_type_invariant(table);
    }
    while k < cols.len()
        invariant
            k <= cols@.len(),
            found@.len() == k,
            table@.well_formed(),
            forall|j: int|
                0 <= j < k ==> table@.has_column(#[trigger] cols@[j]@) && found@[j]@
                    == table@.column(cols@[j]@) && found@[j]@.cells.len() == table@.height(),
        decreases cols.len() - k,
    {
        match table.column(cols[k].as_str()) {
            Some(column) => {
                found.push(column);
            },
            None => {
                return Err(k);
            },
        }
        k += 1;
    }
    Ok(found)
}

/// Drops every row that holds a null in one of the columns `cols`. The rows
/// that stay keep their order.
pub fn drop_nulls_by_cols(table: &Table, cols: &[String]) -> (r: Result<Table, Error>)
    ensures
        r is Ok <==> has_all(table@, names_view(cols@)),
        r is Err ==> r->Err_0 == Error::MissingColumn,
        r is Ok ==> r->Ok_0@ == table@.filter(present_mask(table@, names_view(cols@)))
            && r->Ok_0@.well_formed(),
{
    let ghost names = names_view(cols@);
    let found = match lookup_all(table, cols) {
        Ok(found) => found,
        Err(at) => {
            proof {
                assert(names[at as int] == cols@[at as int]@);
            }
            return Err(Error::MissingColumn);
        },
    };
    proof {
        assert forall|k: int| 0 <= k < names.len() implies table@.has_column(
            #[trigger] names[k],
        ) by {
            assert(names[k] == cols@[k]@);
        }
    }
    let height = table.height();
    let mut keep: Vec<bool> = Vec::new();
    let mut i: usize = 0;
    while i < height
        invariant
            i <= height,
            height == table@.height(),
            names == names_view(cols@),
            found@.len() == cols@.len(),
            forall|k: int|
                0 <= k < cols@.len() ==> found@[k]@ == table@.column(#[trigger] cols@[k]@)
                    && found@[k]@.cells.len() == table@.height(),
            keep@.len() == i,
            forall|j: int| 0 <= j < i ==> keep@[j] == row_present(table@, names, j),
        decreases height - i,
    {
        let mut present = true;
        let mut k: usize = 0;
        while k < found.len()
            invariant
                k <= found@.len(),
                i < height,
                height == table@.height(),
                names == names_view(cols@),
                found@.len() == cols@.len(),
                forall|k: int|
                    0 <= k < cols@.len() ==> found@[k]@ == table@.column(#[trigger] cols@[k]@)
                        && found@[k]@.cells.len() == table@.height(),
                present == present_upto(table@, names, k as int, i as int),
            decreases found.len() - k,
        {
            let null = found[k].cells.is_null(i);
            proof {
                assert(names[k as int] == cols@[k as int]@);
                assert(found@[k as int]@ == table@.column(cols@[k as int]@));
                if present && !null {
                    assert forall|m: int| 0 <= m < k + 1 implies !table@.column(
                        #[trigger] names[m],
                    ).cells.is_null(i as int) by {
                        if m < k {
                            assert(present_upto(table@, names, k as int, i as int));
                        }
                    }
                }
            }
            if null {
                present = false;
            }
            k += 1;
        }
        keep.push(present);
        i += 1;
    }
    proof {
        assert(keep@ =~= present_mask(table@, names));
    }
    Ok(table.filter_rows(&keep))
}

/// Drops every row that does not hold a finite number in each of the columns
/// `cols`: a null, a NaN and an infinity all drop the row. The rows that stay
/// keep their order. The first of `cols` that is missing, or holds text,
/// decides the error.
pub fn drop_non_finite_by_cols(table: &Table, cols: &[String]) -> (r: Result<Table, Error>)
    ensures
        match first_fault(table@, names_view(cols@)) {
            Some(e) => r == Err::<Table, Error>(e),
            None => r is Ok && r->Ok_0@ == table@.filter(finite_mask(table@, names_view(cols@)))
                && r->Ok_0@.well_formed(),
        },
{
    let ghost names = names_view(cols@);
    let found = match table.numbers_of(cols) {
        Ok(found) => found,
        Err(e) => {
            return Err(e);
        },
    };
    let height = table.height();
    let mut keep: Vec<bool> = Vec::new();
    let mut i: usize = 0;
    while i < height
        invariant
            i <= height,
            height == table@.height(),
            names == names_view(cols@),
            found@.len() == cols@.len(),
            forall|k: int|
                0 <= k < cols@.len() ==> table@.column(#[trigger] cols@[k]@).cells
                    == CellsView::Number(found@[k]@) && found@[k]@.len() == table@.height(),
            keep@.len() == i,
            forall|j: int| 0 <= j < i ==> keep@[j] == row_finite(table@, names, j),
        decreases height - i,
    {
        let mut finite = true;
        let mut k: usize = 0;
        while k < found.len()
            invariant
                k <= found@.len(),
                i < height,
                height == table@.height(),
                names == names_view(cols@),
                found@.len() == cols@.len(),
                forall|k: int|
                    0 <= k < cols@.len() ==> table@.column(#[trigger] cols@[k]@).cells
                        == CellsView::Number(found@[k]@) && found@[k]@.len() == table@.height(),
                finite == finite_upto(table@, names, k as int, i as int),
            decreases found.len() - k,
        {
            let sound = match found[k][i] {
                Some(bits) => bits_are_finite(bits),
                None => false,
            };
            proof {
                assert(names[k as int] == cols@[k as int]@);
                assert(table@.column(cols@[k as int]@).cells == CellsView::Number(found@[k as int]@));
                assert(sound == cell_finite(table@.column(names[k as int]).cells, i as int));
                if finite && sound {
                    assert forall|m: int| 0 <= m < k + 1 implies cell_finite(
                        table@.column(#[trigger] names[m]).cells,
                        i as int,
                    ) by {
                        if m < k {
                            assert(finite_upto(table@, names, k as int, i as int));
                        }
                    }
                }
            }
            if !sound {
                finite = false;
            }
            k += 1;
        }
        keep.push(finite);
        i += 1;
    }
    proof {
        assert(keep@ =~= finite_mask(table@, names));
    }
    Ok(table.filter_rows(&keep))
}

} // verus!
