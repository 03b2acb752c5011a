//! A fitted linear model, and the numbers that fitting and prediction read
//! from a table.

use vstd::prelude::*;
use crate::arith::{is_difference, is_function, is_product, is_quotient, is_sum, Arithmetic};
use crate::error::Error;
use crate::number::{bits_are_positive, is_positive, ZERO};
use crate::table::{names_view, Table};
use crate::view::{first_fault, numeric_fault, CellsView, TableView};

verus! {

/// A linear model over standardised features. Every number is carried by
/// its bit pattern.
#[derive(Debug, Clone)]
pub struct LinearModel {
    /// The features, in the order in which the weights apply to them.
    pub feature_names: Vec<String>,
    /// The bias, then one weight for each feature.
    pub weights: Vec<u64>,
    /// The mean of each feature over the training rows.
    pub feature_means: Vec<u64>,
    /// The standard deviation of each feature over the training rows.
    pub feature_stds: Vec<u64>,
    /// The mean of the target over the training rows.
    pub target_mean: u64,
    /// The standard deviation of the target over the training rows.
    pub target_std: u64,
}

/// The parts fit together: one weight more than features, one mean and one
/// deviation for each feature, and every deviation greater than zero.
pub open spec fn model_shape(
    features: nat,
    weights: Seq<u64>,
    feature_means: Seq<u64>,
    feature_stds: Seq<u64>,
) -> bool {
    &&& weights.len() == features + 1
    &&& feature_means.len() == features
    &&& feature_stds.len() == features
    &&& forall|i: int| 0 <= i < feature_stds.len() ==> is_positive(#[trigger] feature_stds[i])
}

impl LinearModel {
    /// The parts of the model fit together.
    pub open spec fn well_formed(&self) -> bool {
        model_shape(
            self.feature_names@.len(),
            self.weights@,
            self.feature_means@,
            self.feature_stds@,
        )
    }

    /// Puts a model together from its parts, if they fit together.
    pub fn new(
        feature_names: Vec<String>,
        weights: Vec<u64>,
        feature_means: Vec<u64>,
        feature_stds: Vec<u64>,
        target_mean: u64,
        target_std: u64,
    ) -> (r: Result<LinearModel, Error>)
        ensures
            r is Ok <==> model_shape(
                feature_names@.len(),
                weights@,
                feature_means@,
                feature_stds@,
            ),
            r is Err ==> r->Err_0 == Error::InvalidModel,
            r is Ok ==> {
                let model = r->Ok_0;
                &&& model.well_formed()
                &&& model.feature_names == feature_names
                &&& model.weights == weights
                &&& model.feature_means == feature_means
                &&& model.feature_stds == feature_stds
                &&& model.target_mean == target_mean
                &&& model.target_std == target_std
            },
    {
        let model = LinearModel {
            feature_names,
            weights,
            feature_means,
            feature_stds,
            target_mean,
            target_std,
        };
        if model.is_well_formed() {
            Ok(model)
        } else {
            Err(Error::InvalidModel)
        }
    }

    /// Tells whether the parts of the model fit together.
    pub fn is_well_formed(&self) -> (b: bool)
        ensures
            b == self.well_formed(),
    {
        let n = self.feature_names.len();
        if self.feature_means.len() != n || self.feature_stds.len() != n {
            return false;
        }
        let weights = self.weights.len();
        if n == usize::MAX || weights != n + 1 {
            return false;
        }
        let mut i: usize = 0;
        while i < n
            invariant
                i <= n,
                n == self.feature_stds@.len(),
                forall|j: int| 0 <= j < i ==> is_positive(#[trigger] self.feature_stds@[j]),
            decreases n - i,
        {
            if !bits_are_positive(self.feature_stds[i]) {
                return false;
            }
            i += 1;
        }
        true
    }

    /// Predicts the target from the raw features `x_raw`, which stand in the
    /// order of the model's features. Each feature is standardised with the
    /// model's mean and deviation for it, and counts as zero where that
    /// deviation is not greater than zero; the weighted sum is brought back
    /// to the scale of the target.
    pub fn predict_row<A: Arithmetic>(&self, arith: &A, x_raw: &[u64]) -> (y: u64)
        requires
            self.reaches(x_raw@.len()),
        ensures
            is_prediction(arith, self, x_raw@, y),
    {
        let mut acc: u64 = self.weights[0];
        let mut j: usize = 0;
        while j < x_raw.len()
            invariant
                j <= x_raw@.len(),
                self.reaches(x_raw@.len()),
                is_weighted_sum(arith, self, x_raw@, j as nat, acc),
            decreases x_raw.len() - j,
        {
            let z = if bits_are_positive(self.feature_stds[j]) {
                let d = arith.difference(x_raw[j], self.feature_means[j]);
                let z = arith.quotient(d, self.feature_stds[j]);
                proof {
                    assert(is_difference(arith, x_raw@[j as int], self.feature_means@[j as int], d));
                }
                z
            } else {
                ZERO
            };
            let p = arith.product(self.weights[j + 1], z);
            let next = arith.sum(acc, p);
            proof {
                assert(is_standardized_or_zero(
                    arith,
                    x_raw@[j as int],
                    self.feature_means@[j as int],
                    self.feature_stds@[j as int],
                    z,
                ));
                assert(is_product(arith, self.weights@[j + 1], z, p));
                assert(is_sum(arith, acc, p, next));
            }
            acc = next;
            j += 1;
        }
        let p = arith.product(self.target_std, acc);
        let y = arith.sum(self.target_mean, p);
        proof {
            assert(is_product(arith, self.target_std, acc, p));
            assert(is_sum(arith, self.target_mean, p, y));
        }
        y
    }

    /// The model has a weight, a mean and a deviation for each of `n`
    /// features, and a bias.
    pub open spec fn reaches(&self, n: nat) -> bool {
        &&& n < self.weights@.len()
        &&& n <= self.feature_means@.len()
        &&& n <= self.feature_stds@.len()
    }
}

/// `z` is `x` standardised: `x` less `mean`, divided by `std`.
pub open spec fn is_standardized<A: Arithmetic>(arith: &A, x: u64, mean: u64, std: u64, z: u64) -> bool {
    exists|d: u64| #[trigger] is_difference(arith, x, mean, d) && is_quotient(arith, d, std, z)
}

/// `z` is `x` standardised where `std` is greater than zero, and zero
/// otherwise.
pub open spec fn is_standardized_or_zero<A: Arithmetic>(
    arith: &A,
    x: u64,
    mean: u64,
    std: u64,
    z: u64,
) -> bool {
    if is_positive(std) {
        is_standardized(arith, x, mean, std, z)
    } else {
        z == ZERO
    }
}

/// `acc` is the bias and, added to it one after the other, the first `k`
/// features of `x`, each standardised and multiplied by its weight.
pub open spec fn is_weighted_sum<A: Arithmetic>(
    arith: &A,
    model: &LinearModel,
    x: Seq<u64>,
    k: nat,
    acc: u64,
) -> bool
    decreases k,
{
    if k == 0 {
        acc == model.weights@[0]
    } else {
        exists|before: u64, z: u64, p: u64|
            is_weighted_sum(arith, model, x, (k - 1) as nat, before) && is_standardized_or_zero(
                arith,
                x[k - 1],
                model.feature_means@[k - 1],
                model.feature_stds@[k - 1],
                z,
            ) && #[trigger] is_product(arith, model.weights@[k as int], z, p) && #[trigger] is_sum(
                arith,
                before,
                p,
                acc,
            )
    }
}

/// `y` is the model's prediction for the raw features `x`: the mean of the
/// target, and added to it the deviation of the target times the weighted sum
/// over all of `x`.
pub open spec fn is_prediction<A: Arithmetic>(arith: &A, model: &LinearModel, x: Seq<u64>, y: u64) -> bool {
    exists|s: u64, p: u64|
        is_weighted_sum(arith, model, x, x.len(), s) && #[trigger] is_product(
            arith,
            model.target_std,
            s,
            p,
        ) && #[trigger] is_sum(arith, model.target_mean, p, y)
}

/// The number that a feature contributes at row `i`: the cell's value, and
/// zero where the cell is null.
pub open spec fn raw_feature(cells: CellsView, i: int) -> u64 {
    match cells {
        CellsView::Number(s) => match s[i] {
            Some(bits) => bits,
            None => ZERO,
        },
        CellsView::Text(_) => ZERO,
    }
}

/// The features of row `i`, in the order of `names`.
pub open spec fn feature_row(t: TableView, names: Seq<Seq<char>>, i: int) -> Seq<u64> {
    Seq::new(names.len(), |j: int| raw_feature(t.column(names[j]).cells, i))
}

/// The features of every row, in the order of the rows.
pub open spec fn feature_matrix(t: TableView, names: Seq<Seq<char>>) -> Seq<Seq<u64>> {
    Seq::new(t.height(), |i: int| feature_row(t, names, i))
}

/// Rows of numbers as plain values.
pub open spec fn rows_view(rows: Seq<Vec<u64>>) -> Seq<Seq<u64>> {
    rows.map_values(|row: Vec<u64>| row@)
}

/// Reads from `table`, for each of its rows, the features that `model`
/// predicts from, in the order of the model's features. A null counts as
/// zero. The first feature that is missing from the table, or holds text,
/// decides the error.
pub fn feature_rows(model: &LinearModel, table: &Table) -> (r: Result<Vec<Vec<u64>>, Error>)
    ensures
        match first_fault(table@, names_view(model.feature_names@)) {
            Some(e) => r is Err && r->Err_0 == e,
            None => r is Ok && rows_view(r->Ok_0@) == feature_matrix(
                table@,
                names_view(model.feature_names@),
            ),
        },
{
    let ghost names = names_view(model.feature_names@);
    let columns = match table.numbers_of(model.feature_names.as_slice()) {
        Ok(columns) => columns,
        Err(e) => {
            return Err(e);
        },
    };
    let height = table.height();
    let mut rows: Vec<Vec<u64>> = Vec::new();
    let mut i: usize = 0;
    while i < height
        invariant
            i <= height,
            height == table@.height(),
            names == names_view(model.feature_names@),
            columns@.len() == names.len(),
            forall|k: int|
                0 <= k < names.len() ==> table@.column(
                    #[trigger] model.feature_names@[k]@,
                ).cells == CellsView::Number(columns@[k]@) && columns@[k]@.len() == height,
            rows@.len() == i,
            forall|j: int| 0 <= j < i ==> rows@[j]@ == feature_row(table@, names, j),
        decreases height - i,
    {
        let mut row: Vec<u64> = Vec::new();
        let mut k: usize = 0;
        while k < columns.len()
            invariant
                k <= columns@.len(),
                i < height,
                names == names_view(model.feature_names@),
                columns@.len() == names.len(),
                forall|k: int|
                    0 <= k < names.len() ==> table@.column(
                        #[trigger] model.feature_names@[k]@,
                    ).cells == CellsView::Number(columns@[k]@) && columns@[k]@.len() == height,
                row@.len() == k,
                forall|j: int|
                    0 <= j < k ==> row@[j] == raw_feature(
                        table@.column(#[trigger] names[j]).cells,
                        i as int,
                    ),
            decreases columns.len() - k,
        {
            proof {
                assert(names[k as int] == model.feature_names@[k as int]@);
                assert(table@.column(model.feature_names@[k as int]@).cells == CellsView::Number(
                    columns@[k as int]@,
                ));
            }
            let value = match columns[k][i] {
                Some(bits) => bits,
                None => ZERO,
            };
            row.push(value);
            k += 1;
        }
        proof {
            assert(row@ =~= feature_row(table@, names, i as int));
        }
        rows.push(row);
        i += 1;
    }
    proof {
        assert(rows_view(rows@) =~= feature_matrix(table@, names));
    }
    Ok(rows)
}

/// `predictions` holds what `model` predicts for each row of `t`.
pub open spec fn are_predictions<A: Arithmetic>(
    arith: &A,
    model: &LinearModel,
    t: TableView,
    predictions: Seq<u64>,
) -> bool {
    &&& predictions.len() == t.height()
    &&& forall|i: int|
        0 <= i < t.height() ==> is_prediction(
            arith,
            model,
            feature_row(t, names_view(model.feature_names@), i),
            #[trigger] predictions[i],
        )
}

/// Predicts the target for each row of `table`, in the order of the rows,
/// from the columns that bear the names of the model's features. A null
/// feature counts as zero. The first feature that is missing from the table,
/// or holds text, decides the error.
pub fn predict_df<A: Arithmetic>(arith: &A, model: &LinearModel, table: &Table) -> (r: Result<
    Vec<u64>,
    Error,
>)
    requires
        model.well_formed(),
    ensures
        match first_fault(table@, names_view(model.feature_names@)) {
            Some(e) => r is Err && r->Err_0 == e,
            None => r is Ok && are_predictions(arith, model, table@, r->Ok_0@),
        },
{
    let rows = match feature_rows(model, table) {
        Ok(rows) => rows,
        Err(e) => {
            return Err(e);
        },
    };
    let ghost names = names_view(model.feature_names@);
    let ghost matrix = feature_matrix(table@, names);
    assert(rows@.len() == rows_view(rows@).len());
    let mut out: Vec<u64> = Vec::new();
    let mut i: usize = 0;
    while i < rows.len()
        invariant
            i <= rows@.len(),
            model.well_formed(),
            rows@.len() == table@.height(),
            rows_view(rows@) == matrix,
            names == names_view(model.feature_names@),
            matrix == feature_matrix(table@, names),
            out@.len() == i,
            forall|k: int| 0 <= k < i ==> is_prediction(arith, model, matrix[k], #[trigger] out@[k]),
        decreases rows.len() - i,
    {
        proof {
            assert(rows@[i as int]@ == rows_view(rows@)[i as int]);
            assert(matrix[i as int] == feature_row(table@, names, i as int));
            assert(rows@[i as int]@.len() == model.feature_names@.len());
        }
        let y = model.predict_row(arith, rows[i].as_slice());
        out.push(y);
        i += 1;
    }
    Ok(out)
}

/// With arithmetic that is a function, the weighted sum is one.
proof fn lemma_weighted_sum_unique<A: Arithmetic>(
    arith: &A,
    model: &LinearModel,
    x: Seq<u64>,
    k: nat,
    a: u64,
    b: u64,
)
    requires
        is_function(arith),
        is_weighted_sum(arith, model, x, k, a),
        is_weighted_sum(arith, model, x, k, b),
    ensures
        a == b,
    decreases k,
{
    if k > 0 {
        let (a0, az, ap) = choose|before: u64, z: u64, p: u64|
            is_weighted_sum(arith, model, x, (k - 1) as nat, before) && is_standardized_or_zero(
                arith,
                x[k - 1],
                model.feature_means@[k - 1],
                model.feature_stds@[k - 1],
                z,
            ) && #[trigger] is_product(arith, model.weights@[k as int], z, p) && #[trigger] is_sum(
                arith,
                before,
                p,
                a,
            );
        let (b0, bz, bp) = choose|before: u64, z: u64, p: u64|
            is_weighted_sum(arith, model, x, (k - 1) as nat, before) && is_standardized_or_zero(
                arith,
                x[k - 1],
                model.feature_means@[k - 1],
                model.feature_stds@[k - 1],
                z,
            ) && #[trigger] is_product(arith, model.weights@[k as int], z, p) && #[trigger] is_sum(
                arith,
                before,
                p,
                b,
            );
        lemma_weighted_sum_unique(arith, model, x, (k - 1) as nat, a0, b0);
        lemma_standardized_unique(
            arith,
            x[k - 1],
            model.feature_means@[k - 1],
            model.feature_stds@[k - 1],
            az,
            bz,
        );
    }
}

/// With arithmetic that is a function, a value standardises to one value.
pub proof fn lemma_standardized_unique<A: Arithmetic>(
    arith: &A,
    x: u64,
    mean: u64,
    std: u64,
    a: u64,
    b: u64,
)
    requires
        is_function(arith),
        is_standardized_or_zero(arith, x, mean, std, a),
        is_standardized_or_zero(arith, x, mean, std, b),
    ensures
        a == b,
{
    if is_positive(std) {
        let da = choose|d: u64| #[trigger]
            is_difference(arith, x, mean, d) && is_quotient(arith, d, std, a);
        let db = choose|d: u64| #[trigger]
            is_difference(arith, x, mean, d) && is_quotient(arith, d, std, b);
        assert(da == db);
    }
}

/// Prediction has no hidden state: with arithmetic that is a function, the
/// same model and the same features give the same prediction, whenever and
/// however often it is asked for.
pub proof fn lemma_prediction_unique<A: Arithmetic>(
    arith: &A,
    model: &LinearModel,
    x: Seq<u64>,
    first: u64,
    second: u64,
)
    requires
        is_function(arith),
        is_prediction(arith, model, x, first),
        is_prediction(arith, model, x, second),
    ensures
        first == second,
{
    let (sum_first, scaled_first) = choose|s: u64, p: u64|
        is_weighted_sum(arith, model, x, x.len(), s) && #[trigger] is_product(
            arith,
            model.target_std,
            s,
            p,
        ) && #[trigger] is_sum(arith, model.target_mean, p, first);
    let (sum_second, scaled_second) = choose|s: u64, p: u64|
        is_weighted_sum(arith, model, x, x.len(), s) && #[trigger] is_product(
            arith,
            model.target_std,
            s,
            p,
        ) && #[trigger] is_sum(arith, model.target_mean, p, second);
    lemma_weighted_sum_unique(arith, model, x, x.len(), sum_first, sum_second);
}

/// Predicting has no hidden state: with arithmetic that is a function, the
/// same model and the same table give the same predictions, whenever and
/// however often they are asked for.
pub proof fn lemma_predictions_unique<A: Arithmetic>(
    arith: &A,
    model: &LinearModel,
    t: TableView,
    first: Seq<u64>,
    second: Seq<u64>,
)
    requires
        is_function(arith),
        are_predictions(arith, model, t, first),
        are_predictions(arith, model, t, second),
    ensures
        first == second,
{
    assert forall|i: int| 0 <= i < t.height() implies first[i] == second[i] by {
        lemma_prediction_unique(
            arith,
            model,
            feature_row(t, names_view(model.feature_names@), i),
            first[i],
            second[i],
        );
    }
}

/// A feature whose deviation in the model is not greater than zero counts
/// as zero in every prediction, whatever its raw value.
pub proof fn lemma_flat_feature_counts_as_zero<A: Arithmetic>(
    arith: &A,
    x: u64,
    mean: u64,
    std: u64,
    z: u64,
)
    requires
        !is_positive(std),
        is_standardized_or_zero(arith, x, mean, std, z),
    ensures
        z == ZERO,
{
}

/// What a model is fitted to: the target and each feature, row by row.
#[derive(Debug, Clone)]
pub struct TrainingColumns {
    /// The target, one cell for each training row.
    pub target: Vec<Option<u64>>,
    /// Each feature in the order asked for, one cell for each training row.
    pub features: Vec<Vec<Option<u64>>>,
}

impl TrainingColumns {
    /// Every feature has one cell for each cell of the target.
    pub open spec fn well_formed(&self) -> bool {
        forall|j: int|
            0 <= j < self.features@.len() ==> (#[trigger] self.features@[j])@.len()
                == self.target@.len()
    }
}

/// Why a model cannot be fitted to `t`, if anything: no feature is named,
/// the target is missing or holds text, or one of the features is or does.
pub open spec fn training_fault(t: TableView, target: Seq<char>, features: Seq<Seq<char>>) -> Option<
    Error,
> {
    if features.len() == 0 {
        Some(Error::NoFeatures)
    } else if numeric_fault(t, target) is Some {
        numeric_fault(t, target)
    } else {
        first_fault(t, features)
    }
}

/// Columns of numbers as plain values.
pub open spec fn columns_of_numbers(columns: Seq<Vec<Option<u64>>>) -> Seq<Seq<Option<u64>>> {
    columns.map_values(|column: Vec<Option<u64>>| column@)
}

/// The cells of each of the columns `names` of `t`, all of them numbers.
pub open spec fn number_columns(t: TableView, names: Seq<Seq<char>>) -> Seq<Seq<Option<u64>>> {
    Seq::new(names.len(), |j: int| t.column(names[j]).cells->Number_0)
}

fn copy_numbers(cells: &Vec<Option<u64>>) -> (out: Vec<Option<u64>>)
    ensures
        out@ == cells@,
{
    let mut out: Vec<Option<u64>> = Vec::new();
    let mut i: usize = 0;
    while i < cells.len()
        invariant
            i <= cells.len(),
            out@.len() == i,
            forall|j: int| 0 <= j < i ==> out@[j] == cells@[j],
        decreases cells.len() - i,
    {
        out.push(cells[i]);
        i += 1;
    }
    assert(out@ =~= cells@);
    out
}

/// Reads from `table` what a model is fitted to: the column `target_col` and
/// the columns `feature_cols`, nulls included. At least one feature must be
/// named, and every column named must hold numbers.
pub fn training_columns(table: &Table, target_col: &str, feature_cols: &[String]) -> (r: Result<
    TrainingColumns,
    Error,
>)
    ensures
        match training_fault(table@, target_col@, names_view(feature_cols@)) {
            Some(e) => r is Err && r->Err_0 == e,
            None => {
                &&& r is Ok
                &&& table@.column(target_col@).cells == CellsView::Number(r->Ok_0.target@)
                &&& columns_of_numbers(r->Ok_0.features@) == number_columns(
                    table@,
                    names_view(feature_cols@),
                )
                &&& r->Ok_0.target@.len() == table@.height()
                &&& r->Ok_0.well_formed()
            },
        },
{
    if feature_cols.len() == 0 {
        return Err(Error::NoFeatures);
    }
    let target = match table.numbers(target_col) {
        Ok(target) => copy_numbers(target),
        Err(e) => {
            return Err(e);
        },
    };
    let columns = match table.numbers_of(feature_cols) {
        Ok(columns) => columns,
        Err(e) => {
            return Err(e);
        },
    };
    let ghost names = names_view(feature_cols@);
    let mut features: Vec<Vec<Option<u64>>> = Vec::new();
    let mut k: usize = 0;
    while k < columns.len()
        invariant
            k <= columns@.len(),
            names == names_view(feature_cols@),
            columns@.len() == names.len(),
            forall|j: int|
                0 <= j < names.len() ==> table@.column(#[trigger] feature_cols@[j]@).cells
                    == CellsView::Number(columns@[j]@) && columns@[j]@.len() == target@.len(),
            features@.len() == k,
            forall|j: int|
                0 <= j < k ==> features@[j]@ == table@.column(
                    #[trigger] names[j],
                ).cells->Number_0,
            forall|j: int| 0 <= j < k ==> (#[trigger] features@[j])@.len() == target@.len(),
        decreases columns.len() - k,
    {
        proof {
            assert(names[k as int] == feature_cols@[k as int]@);
            assert(table@.column(feature_cols@[k as int]@).cells == CellsView::Number(
                columns@[k as int]@,
            ));
        }
        features.push(copy_numbers(columns[k]));
        k += 1;
    }
    proof {
        assert(columns_of_numbers(features@) =~= number_columns(table@, names));
    }
    Ok(TrainingColumns { target, features })
}

} // verus!
