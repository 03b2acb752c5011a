//! Tables as mathematical values: columns of text or numbers, and what it
//! means to take rows, to filter them, to add a column and to stack tables.

use vstd::prelude::*;
use crate::error::{Error, ErrorKind};

verus! {

/// The cells of one column, as a mathematical value.
pub enum CellsView {
    Text(Seq<Option<Seq<char>>>),
    Number(Seq<Option<u64>>),
}

impl CellsView {
    /// The number of cells.
    pub open spec fn len(self) -> nat {
        match self {
            CellsView::Text(s) => s.len(),
            CellsView::Number(s) => s.len(),
        }
    }

    /// The cell at row `i` holds no value.
    pub open spec fn is_null(self, i: int) -> bool {
        match self {
            CellsView::Text(s) => s[i] is None,
            CellsView::Number(s) => s[i] is None,
        }
    }

    /// Both hold text, or both hold numbers.
    pub open spec fn same_kind(self, other: CellsView) -> bool {
        (self is Text) == (other is Text)
    }

    /// These cells, then those of `below`, which is of the same kind.
    pub open spec fn stack(self, below: CellsView) -> CellsView {
        match self {
            CellsView::Text(s) => CellsView::Text(s + below->Text_0),
            CellsView::Number(s) => CellsView::Number(s + below->Number_0),
        }
    }

    /// The cells at the rows `rows`, in that order.
    pub open spec fn take(self, rows: Seq<int>) -> CellsView {
        match self {
            CellsView::Text(s) => CellsView::Text(rows.map_values(|r: int| s[r])),
            CellsView::Number(s) => CellsView::Number(rows.map_values(|r: int| s[r])),
        }
    }
}

/// One column as a mathematical value.
pub struct ColumnView {
    pub name: Seq<char>,
    pub cells: CellsView,
}

impl ColumnView {
    /// The column with the cells at the rows `rows`, in that order.
    pub open spec fn take(self, rows: Seq<int>) -> ColumnView {
        ColumnView { name: self.name, cells: self.cells.take(rows) }
    }
}

/// A table as a mathematical value: its columns from left to right.
pub struct TableView {
    pub columns: Seq<ColumnView>,
}

impl TableView {
    /// Every column has as many rows as the first, and no name occurs twice.
    pub open spec fn well_formed(self) -> bool {
        &&& forall|i: int|
            0 <= i < self.columns.len() ==> #[trigger] self.columns[i].cells.len() == self.height()
        &&& forall|i: int, j: int|
            0 <= i < j < self.columns.len() ==> #[trigger] self.columns[i].name
                != #[trigger] self.columns[j].name
    }

    /// The number of columns.
    pub open spec fn width(self) -> nat {
        self.columns.len()
    }

    /// The number of rows; a table without columns has none.
    pub open spec fn height(self) -> nat {
        if self.columns.len() == 0 {
            0
        } else {
            self.columns[0].cells.len()
        }
    }

    /// A column is called `name`.
    pub open spec fn has_column(self, name: Seq<char>) -> bool {
        exists|i: int| 0 <= i < self.columns.len() && #[trigger] self.columns[i].name == name
    }

    /// The position of the column called `name`, where there is one.
    pub open spec fn position(self, name: Seq<char>) -> int {
        choose|i: int| 0 <= i < self.columns.len() && #[trigger] self.columns[i].name == name
    }

    /// The column called `name`, where there is one.
    pub open spec fn column(self, name: Seq<char>) -> ColumnView {
        self.columns[self.position(name)]
    }

    /// Every entry of `rows` is the index of a row of this table.
    pub open spec fn in_range(self, rows: Seq<int>) -> bool {
        forall|k: int| 0 <= k < rows.len() ==> 0 <= #[trigger] rows[k] < self.height()
    }

    /// The table made of the rows `rows`, in that order.
    pub open spec fn take(self, rows: Seq<int>) -> TableView {
        TableView { columns: self.columns.map_values(|c: ColumnView| c.take(rows)) }
    }

    /// The table made of the rows at which `keep` is true, in their order.
    pub open spec fn filter(self, keep: Seq<bool>) -> TableView {
        self.take(kept_rows(keep))
    }

    /// `below` has the columns of this table: as many, and at each position
    /// one of the same name and the same kind.
    pub open spec fn fits_on(self, below: TableView) -> bool {
        &&& self.columns.len() == below.columns.len()
        &&& forall|i: int|
            0 <= i < self.columns.len() ==> (#[trigger] self.columns[i]).name
                == below.columns[i].name && self.columns[i].cells.same_kind(below.columns[i].cells)
    }

    /// The rows of this table, then the rows of `below`, whose columns fit. A
    /// table without columns gives way to `below`.
    pub open spec fn stack(self, below: TableView) -> TableView {
        if self.columns.len() == 0 {
            below
        } else {
            TableView {
                columns: Seq::new(
                    self.columns.len(),
                    |i: int|
                        ColumnView {
                            name: self.columns[i].name,
                            cells: self.columns[i].cells.stack(below.columns[i].cells),
                        },
                ),
            }
        }
    }

    /// `below` can be stacked under this table.
    pub open spec fn stackable(self, below: TableView) -> bool {
        self.columns.len() == 0 || self.fits_on(below)
    }

    /// The table with `column` added on the right.
    pub open spec fn push(self, column: ColumnView) -> TableView {
        TableView { columns: self.columns.push(column) }
    }

    /// `column` can be added: its name is new, and its length fits.
    pub open spec fn admits(self, column: ColumnView) -> bool {
        &&& !self.has_column(column.name)
        &&& self.columns.len() > 0 ==> column.cells.len() == self.height()
    }
}

/// The indices at which `keep` is true, in ascending order.
pub open spec fn kept_rows(keep: Seq<bool>) -> Seq<int>
    decreases keep.len(),
{
    if keep.len() == 0 {
        Seq::empty()
    } else if keep.last() {
        kept_rows(keep.drop_last()).push(keep.len() - 1)
    } else {
        kept_rows(keep.drop_last())
    }
}

/// `rows` goes strictly upward.
pub open spec fn ascending(rows: Seq<int>) -> bool {
    forall|a: int, b: int| 0 <= a < b < rows.len() ==> rows[a] < rows[b]
}

/// The tables of `tables` stacked in their order, the first on top, if each
/// fits under what is stacked above it; nothing for no table.
pub open spec fn stacked(tables: Seq<TableView>) -> Option<TableView>
    decreases tables.len(),
{
    if tables.len() == 0 {
        None
    } else if tables.len() == 1 {
        Some(tables[0])
    } else {
        match stacked(tables.drop_last()) {
            Some(above) => if above.stackable(tables.last()) {
                Some(above.stack(tables.last()))
            } else {
                None
            },
            None => None,
        }
    }
}

/// What keeps `name` from being read as a column of numbers, if anything.
pub open spec fn numeric_fault(t: TableView, name: Seq<char>) -> Option<Error> {
    if !t.has_column(name) {
        Some(Error::MissingColumn)
    } else if t.column(name).cells is Text {
        Some(Error::NotNumeric)
    } else {
        None
    }
}

/// The fault of the first name in `names` that has one.
pub open spec fn first_fault(t: TableView, names: Seq<Seq<char>>) -> Option<Error>
    decreases names.len(),
{
    if names.len() == 0 {
        None
    } else if numeric_fault(t, names[0]) is Some {
        numeric_fault(t, names[0])
    } else {
        first_fault(t, names.drop_first())
    }
}

/// A fault of a list of names is a fault of the table's shape: a column is
/// missing, or holds text.
pub proof fn lemma_first_fault_is_schema(t: TableView, names: Seq<Seq<char>>)
    ensures
        first_fault(t, names) is Some ==> first_fault(t, names)->0.kind_of() == ErrorKind::Schema && (
        first_fault(t, names) == Some(Error::MissingColumn) || first_fault(t, names) == Some(
            Error::NotNumeric,
        )),
    decreases names.len(),
{
    if names.len() > 0 && numeric_fault(t, names[0]) is None {
        lemma_first_fault_is_schema(t, names.drop_first());
    }
}

/// Every name in `names` is a column of numbers of `t`.
pub open spec fn holds_numbers(t: TableView, names: Seq<Seq<char>>) -> bool {
    forall|k: int| 0 <= k < names.len() ==> numeric_fault(t, #[trigger] names[k]) is None
}

/// In a well-formed table a name leads to the one column that bears it.
pub proof fn lemma_position(t: TableView, i: int)
    requires
        t.well_formed(),
        0 <= i < t.columns.len(),
    ensures
        t.has_column(t.columns[i].name),
        t.position(t.columns[i].name) == i,
        t.column(t.columns[i].name) == t.columns[i],
{
    let name = t.columns[i].name;
    let j = t.position(name);
    assert(0 <= j < t.columns.len() && t.columns[j].name == name);
    if j < i {
        assert(t.columns[j].name != t.columns[i].name);
    } else if i < j {
        assert(t.columns[i].name != t.columns[j].name);
    }
}

/// A column of a well-formed table is as long as the table is high.
pub proof fn lemma_column_height(t: TableView, name: Seq<char>)
    requires
        t.well_formed(),
        t.has_column(name),
    ensures
        t.width() > 0,
        t.column(name).cells.len() == t.height(),
{
    let i = t.position(name);
    assert(t.columns[i].cells.len() == t.height());
}

/// The kept rows are exactly the indices at which the mask is true, each
/// once, in ascending order.
pub proof fn lemma_kept_rows(keep: Seq<bool>)
    ensures
        kept_rows(keep).len() <= keep.len(),
        forall|k: int|
            0 <= k < kept_rows(keep).len() ==> 0 <= #[trigger] kept_rows(keep)[k] < keep.len()
                && keep[kept_rows(keep)[k]],
        ascending(kept_rows(keep)),
        forall|i: int| 0 <= i < keep.len() && keep[i] ==> kept_rows(keep).contains(i),
    decreases keep.len(),
{
    if keep.len() > 0 {
        let front = keep.drop_last();
        let rows = kept_rows(keep);
        lemma_kept_rows(front);
        assert forall|i: int| 0 <= i < keep.len() && keep[i] implies rows.contains(i) by {
            if i < keep.len() - 1 {
                assert(front[i]);
                let k = choose|k: int| 0 <= k < kept_rows(front).len() && kept_rows(front)[k] == i;
                assert(rows[k] == i);
            } else {
                assert(rows[rows.len() - 1] == i);
            }
        }
    }
}

/// Taking rows keeps the columns, their names and their order, and makes the
/// table as high as the list of rows is long.
pub proof fn lemma_take_well_formed(t: TableView, rows: Seq<int>)
    requires
        t.well_formed(),
    ensures
        t.take(rows).well_formed(),
        t.take(rows).width() == t.width(),
        t.width() > 0 ==> t.take(rows).height() == rows.len(),
        forall|name: Seq<char>| t.take(rows).has_column(name) == t.has_column(name),
{
    let out = t.take(rows);
    assert forall|name: Seq<char>| out.has_column(name) == t.has_column(name) by {
        if t.has_column(name) {
            let i = t.position(name);
            assert(out.columns[i].name == name);
        }
        if out.has_column(name) {
            let i = out.position(name);
            assert(t.columns[i].name == name);
        }
    }
    assert forall|i: int, j: int| 0 <= i < j < out.columns.len() implies #[trigger] out.columns[i].name
        != #[trigger] out.columns[j].name by {
        assert(t.columns[i].name != t.columns[j].name);
    }
}

/// A column of a table of taken rows is the column of that name with those
/// rows taken.
pub proof fn lemma_take_column(t: TableView, rows: Seq<int>, name: Seq<char>)
    requires
        t.well_formed(),
        t.has_column(name),
    ensures
        t.take(rows).has_column(name),
        t.take(rows).column(name) == t.column(name).take(rows),
{
    let i = t.position(name);
    let out = t.take(rows);
    lemma_take_well_formed(t, rows);
    assert(out.columns[i] == t.columns[i].take(rows));
    lemma_position(out, i);
}

/// Filtering never adds a row and never changes the order of the rows that
/// stay: the filtered table is made of the rows at which the mask is true,
/// taken in ascending order of their indices, each as it stands in `t`.
pub proof fn lemma_filter_keeps_order(t: TableView, keep: Seq<bool>)
    requires
        t.well_formed(),
        keep.len() == t.height(),
    ensures
        t.filter(keep).well_formed(),
        t.filter(keep).height() <= t.height(),
        t.filter(keep).width() == t.width(),
        ascending(kept_rows(keep)),
        t.in_range(kept_rows(keep)),
        t.filter(keep) == t.take(kept_rows(keep)),
        forall|k: int| 0 <= k < kept_rows(keep).len() ==> keep[#[trigger] kept_rows(keep)[k]],
        forall|i: int| 0 <= i < keep.len() && keep[i] ==> kept_rows(keep).contains(i),
{
    lemma_kept_rows(keep);
    lemma_take_well_formed(t, kept_rows(keep));
}

/// Two masks that are never true at the same row keep no more rows between
/// them than there are.
pub proof fn lemma_disjoint_masks(a: Seq<bool>, b: Seq<bool>)
    requires
        a.len() == b.len(),
        forall|i: int| 0 <= i < a.len() ==> !(a[i] && b[i]),
    ensures
        kept_rows(a).len() + kept_rows(b).len() <= a.len(),
    decreases a.len(),
{
    if a.len() > 0 {
        lemma_disjoint_masks(a.drop_last(), b.drop_last());
    }
}

/// Adding an admissible column keeps the table well formed.
pub proof fn lemma_push_well_formed(t: TableView, column: ColumnView)
    requires
        t.well_formed(),
        t.admits(column),
    ensures
        t.push(column).well_formed(),
        t.push(column).has_column(column.name),
        forall|name: Seq<char>| t.has_column(name) ==> t.push(column).has_column(name),
        t.width() > 0 ==> t.push(column).height() == t.height(),
{
    let out = t.push(column);
    assert(out.columns[t.columns.len() as int].name == column.name);
    assert forall|name: Seq<char>| t.has_column(name) implies out.has_column(name) by {
        let i = t.position(name);
        assert(out.columns[i].name == name);
    }
    assert forall|i: int, j: int| 0 <= i < j < out.columns.len() implies #[trigger] out.columns[i].name
        != #[trigger] out.columns[j].name by {
        if j < t.columns.len() {
            assert(t.columns[i].name != t.columns[j].name);
        } else {
            assert(t.columns[i].name == out.columns[i].name);
        }
    }
}

/// Stacking keeps a table well formed, and adds the heights.
pub proof fn lemma_stack_well_formed(t: TableView, below: TableView)
    requires
        t.well_formed(),
        below.well_formed(),
        t.stackable(below),
    ensures
        t.stack(below).well_formed(),
        t.stack(below).height() == t.height() + below.height(),
        t.width() > 0 ==> t.stack(below).width() == t.width(),
{
    let out = t.stack(below);
    if t.columns.len() > 0 {
        assert forall|i: int| 0 <= i < out.columns.len() implies #[trigger] out.columns[i].cells.len()
            == t.height() + below.height() by {
            assert(t.columns[i].cells.len() == t.height());
            assert(below.columns[i].cells.len() == below.height());
            assert(t.columns[i].cells.same_kind(below.columns[i].cells));
        }
        assert(out.columns[0].cells.len() == t.height() + below.height());
        assert forall|i: int, j: int| 0 <= i < j < out.columns.len() implies #[trigger] out.columns[i].name
            != #[trigger] out.columns[j].name by {
            assert(t.columns[i].name != t.columns[j].name);
        }
    }
}

/// Once a table does not fit, no table after it mends that.
pub proof fn lemma_stacked_stays_none(tables: Seq<TableView>, upto: int)
    requires
        0 <= upto <= tables.len(),
        stacked(tables.take(upto)) is None,
        upto > 0,
    ensures
        stacked(tables) is None,
    decreases tables.len() - upto,
{
    if upto < tables.len() {
        assert(tables.take(upto + 1).drop_last() =~= tables.take(upto));
        lemma_stacked_stays_none(tables, upto + 1);
    } else {
        assert(tables.take(upto) =~= tables);
    }
}

/// A list without a fault is a list of numeric columns, and a fault is the
/// fault of a name before which every name is sound.
pub proof fn lemma_first_fault(t: TableView, names: Seq<Seq<char>>, upto: int)
    requires
        0 <= upto <= names.len(),
        forall|k: int| 0 <= k < upto ==> numeric_fault(t, #[trigger] names[k]) is None,
    ensures
        upto == names.len() ==> first_fault(t, names) is None,
        upto < names.len() && numeric_fault(t, names[upto]) is Some ==> first_fault(t, names)
            == numeric_fault(t, names[upto]),
    decreases upto,
{
    if upto > 0 {
        let rest = names.drop_first();
        assert forall|k: int| 0 <= k < upto - 1 implies numeric_fault(t, #[trigger] rest[k])
            is None by {
            assert(rest[k] == names[k + 1]);
        }
        lemma_first_fault(t, rest, upto - 1);
        assert(numeric_fault(t, names[0]) is None);
        if upto < names.len() {
            assert(rest[upto - 1] == names[upto]);
        }
    }
}

/// A list of columns of numbers has no fault.
pub proof fn lemma_holds_numbers(t: TableView, names: Seq<Seq<char>>)
    requires
        holds_numbers(t, names),
    ensures
        first_fault(t, names) is None,
{
    lemma_first_fault(t, names, names.len() as int);
}

/// Columns of numbers stay columns of numbers when rows are taken.
pub proof fn lemma_take_holds_numbers(t: TableView, rows: Seq<int>, names: Seq<Seq<char>>)
    requires
        t.well_formed(),
        holds_numbers(t, names),
    ensures
        holds_numbers(t.take(rows), names),
{
    assert forall|k: int| 0 <= k < names.len() implies numeric_fault(
        t.take(rows),
        #[trigger] names[k],
    ) is None by {
        assert(numeric_fault(t, names[k]) is None);
        lemma_take_column(t, rows, names[k]);
    }
}

} // verus!
