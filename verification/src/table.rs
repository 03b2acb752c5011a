//! A small columnar table: named columns of equal length, each holding either
//! text or numbers, with nulls permitted. Numbers are IEEE-754 binary64 values
//! carried by their bit patterns.

use vstd::prelude::*;
use crate::error::Error;
use crate::text::same_text;
use crate::view::{
    first_fault,
    kept_rows,
    lemma_first_fault,
    lemma_kept_rows,
    lemma_position,
    lemma_push_well_formed,
    lemma_stack_well_formed,
    lemma_stacked_stays_none,
    lemma_take_well_formed,
    numeric_fault,
    stacked,
    CellsView,
    ColumnView,
    TableView,
};

verus! {

/// The cells of one column.
#[derive(Debug)]
pub enum Cells {
    Text(Vec<Option<String>>),
    Number(Vec<Option<u64>>),
}

/// Text cells as plain values: each string by its characters.
pub open spec fn text_view(cells: Seq<Option<String>>) -> Seq<Option<Seq<char>>> {
    Seq::new(
        cells.len(),
        |i: int|
            match cells[i] {
                Some(s) => Some(s@),
                None => None,
            },
    )
}

impl View for Cells {
    type V = CellsView;

    open spec fn view(&self) -> CellsView {
        match self {
            Cells::Text(v) => CellsView::Text(text_view(v@)),
            Cells::Number(v) => CellsView::Number(v@),
        }
    }
}

/// Row indices as mathematical integers.
pub open spec fn row_indices(rows: Seq<usize>) -> Seq<int> {
    rows.map_values(|r: usize| r as int)
}

impl Cells {
    /// The number of cells.
    pub fn len(&self) -> (n: usize)
        ensures
            n == self@.len(),
    {
        match self {
            Cells::Text(v) => v.len(),
            Cells::Number(v) => v.len(),
        }
    }

    /// Tells whether the cell at `row` is null.
    pub(crate) fn is_null(&self, row: usize) -> (b: bool)
        requires
            row < self@.len(),
        ensures
            b == self@.is_null(row as int),
    {
        match self {
            Cells::Text(v) => v[row].is_none(),
            Cells::Number(v) => v[row].is_none(),
        }
    }

    /// Tells whether both hold text, or both hold numbers.
    pub fn same_kind(&self, other: &Cells) -> (b: bool)
        ensures
            b == self@.same_kind(other@),
    {
        match (self, other) {
            (Cells::Text(_), Cells::Text(_)) => true,
            (Cells::Number(_), Cells::Number(_)) => true,
            _ => false,
        }
    }

    /// Copies these cells, and then those of `below`.
    pub(crate) fn stack(&self, below: &Cells) -> (out: Cells)
        requires
            self@.same_kind(below@),
        ensures
            out@ == self@.stack(below@),
    {
        match (self, below) {
            (Cells::Text(a), Cells::Text(b)) => {
                let mut out: Vec<Option<String>> = Vec::new();
                let mut i: usize = 0;
                while i < a.len()
                    invariant
                        i <= a.len(),
                        out.len() == i,
                        forall|j: int| 0 <= j < i ==> out[j] == a[j],
                    decreases a.len() - i,
                {
                    let cell = match &a[i] {
                        Some(s) => Some(s.clone()),
                        None => None,
                    };
                    out.push(cell);
                    i += 1;
                }
                let mut i: usize = 0;
                while i < b.len()
                    invariant
                        i <= b.len(),
                        out.len() == a.len() + i,
                        forall|j: int| 0 <= j < a.len() ==> out[j] == a[j],
                        forall|j: int| 0 <= j < i ==> out[a.len() + j] == b[j],
                    decreases b.len() - i,
                {
                    let cell = match &b[i] {
                        Some(s) => Some(s.clone()),
                        None => None,
                    };
                    out.push(cell);
                    i += 1;
                }
                assert(text_view(out@) =~= text_view(a@) + text_view(b@));
                Cells::Text(out)
            },
            (Cells::Number(a), Cells::Number(b)) => {
                let mut out: Vec<Option<u64>> = Vec::new();
                let mut i: usize = 0;
                while i < a.len()
                    invariant
                        i <= a.len(),
                        out.len() == i,
                        forall|j: int| 0 <= j < i ==> out[j] == a[j],
                    decreases a.len() - i,
                {
                    out.push(a[i]);
                    i += 1;
                }
                let mut i: usize = 0;
                while i < b.len()
                    invariant
                        i <= b.len(),
                        out.len() == a.len() + i,
                        forall|j: int| 0 <= j < a.len() ==> out[j] == a[j],
                        forall|j: int| 0 <= j < i ==> out[a.len() + j] == b[j],
                    decreases b.len() - i,
                {
                    out.push(b[i]);
                    i += 1;
                }
                assert(out@ =~= a@ + b@);
                Cells::Number(out)
            },
            _ => self.clone(),
        }
    }

    /// Copies the cells at `rows`, in that order.
    pub(crate) fn take(&self, rows: &Vec<usize>) -> (out: Cells)
        requires
            forall|k: int| 0 <= k < rows.len() ==> rows[k] < self@.len(),
        ensures
            out@ == self@.take(row_indices(rows@)),
    {
        match self {
            Cells::Text(v) => {
                let mut out: Vec<Option<String>> = Vec::new();
                let mut k: usize = 0;
                while k < rows.len()
                    invariant
                        k <= rows.len(),
                        out.len() == k,
                        forall|j: int| 0 <= j < rows.len() ==> rows[j] < v.len(),
                        forall|j: int| 0 <= j < k ==> out[j] == v[rows[j] as int],
                    decreases rows.len() - k,
                {
                    let cell = match &v[rows[k]] {
                        Some(s) => Some(s.clone()),
                        None => None,
                    };
                    out.push(cell);
                    k += 1;
                }
                assert(text_view(out@) =~= row_indices(rows@).map_values(
                    |r: int| text_view(v@)[r],
                ));
                Cells::Text(out)
            },
            Cells::Number(v) => {
                let mut out: Vec<Option<u64>> = Vec::new();
                let mut k: usize = 0;
                while k < rows.len()
                    invariant
                        k <= rows.len(),
                        out.len() == k,
                        forall|j: int| 0 <= j < rows.len() ==> rows[j] < v.len(),
                        forall|j: int| 0 <= j < k ==> out[j] == v[rows[j] as int],
                    decreases rows.len() - k,
                {
                    out.push(v[rows[k]]);
                    k += 1;
                }
                assert(out@ =~= row_indices(rows@).map_values(|r: int| v@[r]));
                Cells::Number(out)
            },
        }
    }
}

impl Clone for Cells {
    fn clone(&self) -> (out: Cells)
        ensures
            out@ == self@,
    {
        match self {
            Cells::Text(v) => {
                let mut out: Vec<Option<String>> = Vec::new();
                let mut i: usize = 0;
                while i < v.len()
                    invariant
                        i <= v.len(),
                        out.len() == i,
                        forall|j: int| 0 <= j < i ==> out[j] == v[j],
                    decreases v.len() - i,
                {
                    let cell = match &v[i] {
                        Some(s) => Some(s.clone()),
                        None => None,
                    };
                    out.push(cell);
                    i += 1;
                }
                assert(text_view(out@) =~= text_view(v@));
                Cells::Text(out)
            },
            Cells::Number(v) => {
                let mut out: Vec<Option<u64>> = Vec::new();
                let mut i: usize = 0;
                while i < v.len()
                    invariant
                        i <= v.len(),
                        out.len() == i,
                        forall|j: int| 0 <= j < i ==> out[j] == v[j],
                    decreases v.len() - i,
                {
                    out.push(v[i]);
                    i += 1;
                }
                assert(out@ =~= v@);
                Cells::Number(out)
            },
        }
    }
}

/// A named column.
#[derive(Debug)]
pub struct Column {
    pub name: String,
    pub cells: Cells,
}

impl View for Column {
    type V = ColumnView;

    open spec fn view(&self) -> ColumnView {
        ColumnView { name: self.name@, cells: self.cells@ }
    }
}

impl Clone for Column {
    fn clone(&self) -> (out: Column)
        ensures
            out@ == self@,
    {
        Column { name: self.name.clone(), cells: self.cells.clone() }
    }
}

/// Columns as plain values.
pub open spec fn columns_view(columns: Seq<Column>) -> Seq<ColumnView> {
    Seq::new(columns.len(), |i: int| columns[i]@)
}

/// A list of names as plain values.
pub open spec fn names_view(names: Seq<String>) -> Seq<Seq<char>> {
    names.map_values(|s: String| s@)
}

/// Named columns of equal length.
#[derive(Debug)]
pub struct Table {
    columns: Vec<Column>,
}

impl View for Table {
    type V = TableView;

    closed spec fn view(&self) -> TableView {
        TableView { columns: columns_view(self.columns@) }
    }
}

impl Table {
    /// Every table is well formed.
    #[verifier::type_invariant]
    pub open spec fn sound(&self) -> bool {
        self@.well_formed()
    }

    /// A table with no columns and no rows.
    pub fn new() -> (t: Table)
        ensures
            t@.columns.len() == 0,
            t@.well_formed(),
    {
        Table { columns: Vec::new() }
    }

    /// Makes a table of columns that are known to fit together.
    pub(crate) fn from_columns(columns: Vec<Column>) -> (t: Table)
        requires
            (TableView { columns: columns_view(columns@) }).well_formed(),
        ensures
            t@.columns == columns_view(columns@),
            t@.well_formed(),
    {
        Table { columns }
    }

    /// The number of columns.
    pub fn width(&self) -> (w: usize)
        ensures
            w == self@.width(),
    {
        proof {
            use_type_invariant(self);
        }
        self.columns.len()
    }

    /// The number of rows; a table without columns has none.
    pub fn height(&self) -> (h: usize)
        ensures
            h == self@.height(),
    {
        proof {
            use_type_invariant(self);
        }
        if self.columns.len() == 0 {
            0
        } else {
            self.columns[0].cells.len()
        }
    }

    /// The position of the column called `name`, if there is one.
    pub fn find(&self, name: &str) -> (found: Option<usize>)
        ensures
            found is Some == self@.has_column(name@),
            found is Some ==> found->0 == self@.position(name@) && found->0 < self@.width(),
    {
        proof {
            use_type_invariant(self);
        }
        let mut i: usize = 0;
        while i < self.columns.len()
            invariant
                i <= self.columns.len(),
                self@.well_formed(),
                forall|j: int| 0 <= j < i ==> self@.columns[j].name != name@,
            decreases self.columns.len() - i,
        {
            if same_text(self.columns[i].name.as_str(), name) {
                proof {
                    assert(self@.columns[i as int].name == name@);
                    lemma_position(self@, i as int);
                }
                return Some(i);
            }
            i += 1;
        }
        None
    }

    /// The column called `name`, if there is one.
    pub fn column(&self, name: &str) -> (found: Option<&Column>)
        ensures
            found is Some == self@.has_column(name@),
            found is Some ==> found->0@ == self@.column(name@) && found->0@.cells.len()
                == self@.height(),
    {
        match self.find(name) {
            Some(i) => Some(self.column_at(i)),
            None => None,
        }
    }

    /// The numbers of the column called `name`.
    pub fn numbers(&self, name: &str) -> (r: Result<&Vec<Option<u64>>, Error>)
        ensures
            r is Ok <==> self@.has_column(name@) && self@.column(name@).cells is Number,
            r is Ok ==> self@.column(name@).cells == CellsView::Number(r->Ok_0@) && r->Ok_0@.len()
                == self@.height(),
            r is Err ==> r->Err_0 == (if self@.has_column(name@) {
                Error::NotNumeric
            } else {
                Error::MissingColumn
            }),
    {
        match self.column(name) {
            Some(column) => match &column.cells {
                Cells::Number(v) => Ok(v),
                Cells::Text(_) => Err(Error::NotNumeric),
            },
            None => Err(Error::MissingColumn),
        }
    }

    /// The numbers of each of the columns `cols`, in that order. The first of
    /// `cols` that is missing, or holds text, decides the error.
    pub fn numbers_of<'a>(&'a self, cols: &[String]) -> (r: Result<Vec<&'a Vec<Option<u64>>>, Error>)
        ensures
            match r {
                Ok(found) => {
                    &&& first_fault(self@, names_view(cols@)) is None
                    &&& found@.len() == cols@.len()
                    &&& forall|k: int|
                        0 <= k < cols@.len() ==> self@.column(#[trigger] cols@[k]@).cells
                            == CellsView::Number(found@[k]@) && found@[k]@.len() == self@.height()
                },
                Err(e) => first_fault(self@, names_view(cols@)) == Some(e),
            },
    {
        let ghost names = names_view(cols@);
        let mut found: Vec<&Vec<Option<u64>>> = Vec::new();
        let mut k: usize = 0;
        proof {
            use_type_invariant(self);
        }
        while k < cols.len()
            invariant
                k <= cols@.len(),
                found@.len() == k,
                names == names_view(cols@),
                self@.well_formed(),
                forall|j: int| 0 <= j < k ==> numeric_fault(self@, #[trigger] names[j]) is None,
                forall|j: int|
                    0 <= j < k ==> self@.column(#[trigger] cols@[j]@).cells == CellsView::Number(
                        found@[j]@,
                    ) && found@[j]@.len() == self@.height(),
            decreases cols.len() - k,
        {
            proof {
                assert(names[k as int] == cols@[k as int]@);
            }
            match self.numbers(cols[k].as_str()) {
                Ok(numbers) => {
                    found.push(numbers);
                },
                Err(e) => {
                    proof {
                        lemma_first_fault(self@, names, k as int);
                    }
                    return Err(e);
                },
            }
            k += 1;
        }
        proof {
            lemma_first_fault(self@, names, k as int);
        }
        Ok(found)
    }

    /// The names of the columns, from left to right.
    pub fn column_names(&self) -> (names: Vec<String>)
        ensures
            names@.len() == self@.width(),
            forall|i: int| 0 <= i < names@.len() ==> names@[i]@ == self@.columns[i].name,
    {
        let mut names: Vec<String> = Vec::new();
        let mut i: usize = 0;
        while i < self.columns.len()
            invariant
                i <= self.columns.len(),
                names@.len() == i,
                forall|j: int| 0 <= j < i ==> names@[j]@ == self@.columns[j].name,
            decreases self.columns.len() - i,
        {
            names.push(self.columns[i].name.clone());
            i += 1;
        }
        names
    }

    /// The table with `column` added on the right. A table without columns
    /// takes its height from the first column it is given.
    pub fn with_column(self, column: Column) -> (r: Result<Table, Error>)
        ensures
            r is Ok <==> self@.admits(column@),
            r is Ok ==> r->Ok_0@ == self@.push(column@) && r->Ok_0@.well_formed(),
            r is Err ==> r->Err_0 == (if self@.has_column(column@.name) {
                Error::DuplicateColumn
            } else {
                Error::LengthMismatch
            }),
    {
        let ghost before = self@;
        proof {
            use_type_invariant(&self);
        }
        if self.find(column.name.as_str()).is_some() {
            return Err(Error::DuplicateColumn);
        }
        if self.width() > 0 && column.cells.len() != self.height() {
            return Err(Error::LengthMismatch);
        }
        let mut columns = self.columns;
        columns.push(column);
        proof {
            lemma_push_well_formed(before, column@);
            assert(columns_view(columns@) =~= before.push(column@).columns);
        }
        Ok(Table { columns })
    }

    /// The rows of this table and, under them, the rows of `below`, which
    /// must have the columns of this table: as many, and at each position
    /// one of the same name and the same kind. A table without columns gives
    /// way to `below`.
    pub fn stack(&self, below: &Table) -> (r: Result<Table, Error>)
        ensures
            r is Ok <==> self@.stackable(below@),
            r is Ok ==> r->Ok_0@ == self@.stack(below@),
            r is Err ==> r->Err_0 == Error::ColumnMismatch,
    {
        proof {
            use_type_invariant(self);
            use_type_invariant(below);
        }
        if self.columns.len() == 0 {
            return Ok(below.clone());
        }
        if self.columns.len() != below.columns.len() {
            return Err(Error::ColumnMismatch);
        }
        let mut columns: Vec<Column> = Vec::new();
        let mut i: usize = 0;
        while i < self.columns.len()
            invariant
                i <= self.columns.len(),
                self.columns.len() == below.columns.len(),
                columns@.len() == i,
                forall|j: int|
                    0 <= j < i ==> (#[trigger] self@.columns[j]).name == below@.columns[j].name
                        && self@.columns[j].cells.same_kind(below@.columns[j].cells),
                forall|j: int|
                    0 <= j < i ==> (#[trigger] columns@[j])@ == (ColumnView {
                        name: self@.columns[j].name,
                        cells: self@.columns[j].cells.stack(below@.columns[j].cells),
                    }),
            decreases self.columns.len() - i,
        {
            let upper = &self.columns[i];
            let lower = &below.columns[i];
            if !same_text(upper.name.as_str(), lower.name.as_str()) || !upper.cells.same_kind(
                &lower.cells,
            ) {
                proof {
                    assert(!(self@.columns[i as int].name == below@.columns[i as int].name
                        && self@.columns[i as int].cells.same_kind(below@.columns[i as int].cells)));
                }
                return Err(Error::ColumnMismatch);
            }
            columns.push(Column { name: upper.name.clone(), cells: upper.cells.stack(&lower.cells) });
            i += 1;
        }
        proof {
            lemma_stack_well_formed(self@, below@);
            assert(columns_view(columns@) =~= self@.stack(below@).columns);
        }
        Ok(Table { columns })
    }

    /// The rows `rows` of this table, in that order; a row may be taken more
    /// than once.
    pub fn take(&self, rows: &Vec<usize>) -> (r: Result<Table, Error>)
        ensures
            r is Ok <==> self@.in_range(row_indices(rows@)),
            r is Ok ==> r->Ok_0@ == self@.take(row_indices(rows@)) && r->Ok_0@.well_formed(),
            r is Err ==> r->Err_0 == Error::RowOutOfRange,
    {
        let height = self.height();
        let mut k: usize = 0;
        while k < rows.len()
            invariant
                k <= rows.len(),
                height == self@.height(),
                forall|j: int| 0 <= j < k ==> rows[j] < height,
            decreases rows.len() - k,
        {
            if rows[k] >= height {
                proof {
                    assert(row_indices(rows@)[k as int] >= height);
                }
                return Err(Error::RowOutOfRange);
            }
            k += 1;
        }
        Ok(self.take_in_range(rows))
    }

    /// The rows `rows` of this table, all of which exist.
    pub(crate) fn take_in_range(&self, rows: &Vec<usize>) -> (t: Table)
        requires
            self@.in_range(row_indices(rows@)),
        ensures
            t@ == self@.take(row_indices(rows@)),
            t@.well_formed(),
    {
        proof {
            use_type_invariant(self);
        }
        let height = self.height();
        let mut columns: Vec<Column> = Vec::new();
        let mut i: usize = 0;
        assert forall|k: int| 0 <= k < rows.len() implies rows[k] < height by {
            assert(row_indices(rows@)[k] == rows[k]);
        }
        while i < self.columns.len()
            invariant
                i <= self.columns.len(),
                columns@.len() == i,
                height == self@.height(),
                self@.well_formed(),
                forall|k: int| 0 <= k < rows.len() ==> rows[k] < height,
                forall|j: int|
                    0 <= j < i ==> columns@[j]@ == self@.columns[j].take(row_indices(rows@)),
            decreases self.columns.len() - i,
        {
            let source = &self.columns[i];
            proof {
                assert(self@.columns[i as int].cells.len() == self@.height());
            }
            let cells = source.cells.take(rows);
            columns.push(Column { name: source.name.clone(), cells });
            i += 1;
        }
        proof {
            lemma_take_well_formed(self@, row_indices(rows@));
            assert(columns_view(columns@) =~= self@.take(row_indices(rows@)).columns);
        }
        Table { columns }
    }

    /// The rows at which `keep` is true, in their order.
    pub fn filter(&self, keep: &Vec<bool>) -> (r: Result<Table, Error>)
        ensures
            r is Ok <==> keep@.len() == self@.height(),
            r is Ok ==> r->Ok_0@ == self@.filter(keep@) && r->Ok_0@.well_formed(),
            r is Err ==> r->Err_0 == Error::LengthMismatch,
    {
        if keep.len() != self.height() {
            return Err(Error::LengthMismatch);
        }
        Ok(self.filter_rows(keep))
    }

    /// The rows at which `keep` is true, for a mask as long as the table is high.
    pub(crate) fn filter_rows(&self, keep: &Vec<bool>) -> (t: Table)
        requires
            keep@.len() == self@.height(),
        ensures
            t@ == self@.filter(keep@),
            t@.well_formed(),
    {
        let rows = kept_indices(keep);
        proof {
            lemma_kept_rows(keep@);
        }
        self.take_in_range(&rows)
    }

    /// The column at position `i`, counted from the left.
    pub(crate) fn column_at(&self, i: usize) -> (c: &Column)
        requires
            i < self@.width(),
        ensures
            c@ == self@.columns[i as int],
            c@.cells.len() == self@.height(),
    {
        proof {
            use_type_invariant(self);
            assert(self@.columns[i as int].cells.len() == self@.height());
        }
        &self.columns[i]
    }
}

impl Clone for Table {
    fn clone(&self) -> (out: Table)
        ensures
            out@ == self@,
    {
        proof {
            use_type_invariant(self);
        }
        let mut columns: Vec<Column> = Vec::new();
        let mut i: usize = 0;
        while i < self.columns.len()
            invariant
                i <= self.columns.len(),
                columns@.len() == i,
                forall|j: int| 0 <= j < i ==> columns@[j]@ == self.columns@[j]@,
            decreases self.columns.len() - i,
        {
            columns.push(self.columns[i].clone());
            i += 1;
        }
        proof {
            assert(columns_view(columns@) =~= columns_view(self.columns@));
        }
        Table { columns }
    }
}

/// Tables as plain values.
pub open spec fn tables_view(tables: Seq<Table>) -> Seq<TableView> {
    tables.map_values(|t: Table| t@)
}

/// Stacks `tables` in their order, the first on top. There must be a table,
/// and each must fit under what is stacked above it.
pub fn stack_all(tables: &[Table]) -> (r: Result<Table, Error>)
    ensures
        match r {
            Ok(out) => stacked(tables_view(tables@)) == Some(out@),
            Err(e) => stacked(tables_view(tables@)) is None && e == (if tables@.len() == 0 {
                Error::NoData
            } else {
                Error::ColumnMismatch
            }),
        },
{
    if tables.len() == 0 {
        return Err(Error::NoData);
    }
    let ghost views = tables_view(tables@);
    let mut out = tables[0].clone();
    let mut i: usize = 1;
    proof {
        assert(views.take(1) =~= seq![views[0]]);
    }
    while i < tables.len()
        invariant
            1 <= i <= tables@.len(),
            views == tables_view(tables@),
            stacked(views.take(i as int)) == Some(out@),
        decreases tables.len() - i,
    {
        proof {
            assert(views.take(i + 1).drop_last() =~= views.take(i as int));
            assert(views.take(i + 1).last() == tables@[i as int]@);
        }
        match out.stack(&tables[i]) {
            Ok(next) => {
                out = next;
            },
            Err(e) => {
                proof {
                    lemma_stacked_stays_none(views, i + 1);
                }
                return Err(e);
            },
        }
        i += 1;
    }
    proof {
        assert(views.take(tables@.len() as int) =~= views);
    }
    Ok(out)
}

/// The indices at which `keep` is true, in ascending order.
pub fn kept_indices(keep: &Vec<bool>) -> (rows: Vec<usize>)
    ensures
        row_indices(rows@) == kept_rows(keep@),
{
    let mut rows: Vec<usize> = Vec::new();
    let mut i: usize = 0;
    while i < keep.len()
        invariant
            i <= keep.len(),
            row_indices(rows@) == kept_rows(keep@.take(i as int)),
        decreases keep.len() - i,
    {
        proof {
            assert(keep@.take(i + 1).drop_last() =~= keep@.take(i as int));
        }
        if keep[i] {
            rows.push(i);
            proof {
                assert(row_indices(rows@) =~= kept_rows(keep@.take(i as int)).push(i as int));
            }
        }
        i += 1;
    }
    proof {
        assert(keep@.take(keep@.len() as int) =~= keep@);
    }
    rows
}

} // verus!
