//! From a price table to a fitted and scored model: rows in order of time,
//! lag features, complete and finite rows only, the split by year, the
//! persistence baseline, the fit on the training part and the scores on the
//! test part.

use vstd::prelude::*;
use vstd::string::*;
use crate::arith::Arithmetic;
use crate::error::Error;
use crate::filter::{drop_non_finite_by_cols, drop_nulls_by_cols, finite_mask, present_mask};
use crate::lag::{
    lag_clash,
    lag_column,
    lag_column_name,
    lag_name,
    lemma_with_lags_columns,
    lemma_with_lags_well_formed,
    make_lag_features,
    with_lags,
};
use crate::metrics::{
    is_mean_absolute_error,
    is_root_mean_squared_error,
    mean_absolute_error,
    root_mean_squared_error,
};
use crate::model::{are_predictions, predict_df, LinearModel};
use crate::number::{bits_are_negative, is_negative, NAN};
use crate::reorder::{
    distinct_keys,
    is_permutation,
    lemma_reorder_forgets_order,
    reorder_by_string_column,
    reordered,
    row_order,
    sort_keys,
};
use crate::split::{test_mask, train_mask, train_test_split_by_year};
use crate::table::{names_view, Table};
use crate::train::{fit_linear_gd, is_fitted};
use crate::view::{
    holds_numbers,
    kept_rows,
    lemma_column_height,
    lemma_holds_numbers,
    lemma_take_column,
    lemma_take_holds_numbers,
    lemma_take_well_formed,
    numeric_fault,
    TableView,
};

verus! {

/// The names of the lag columns one to `lags`, in that order.
pub open spec fn lag_names(lags: nat) -> Seq<Seq<char>> {
    Seq::new(lags, |j: int| lag_name((j + 1) as nat))
}

/// The columns in which a row must hold a value: the target, the timestamp
/// and every lag.
pub open spec fn required_columns(target: Seq<char>, date: Seq<char>, lags: nat) -> Seq<Seq<char>> {
    seq![target, date] + lag_names(lags)
}

/// The columns in which a row must hold a finite number: the target and
/// every lag.
pub open spec fn numeric_columns(target: Seq<char>, lags: nat) -> Seq<Seq<char>> {
    seq![target] + lag_names(lags)
}

/// Why `t` cannot be prepared, if anything: the timestamp column is missing,
/// the target column is missing or holds text, or a lag's name is taken.
pub open spec fn prepare_fault(t: TableView, target: Seq<char>, date: Seq<char>, lags: nat) -> Option<
    Error,
> {
    if !t.has_column(date) {
        Some(Error::MissingColumn)
    } else if numeric_fault(t, target) is Some {
        numeric_fault(t, target)
    } else if lag_clash(t, lags) {
        Some(Error::DuplicateColumn)
    } else {
        None
    }
}

/// `t` in order of time, with its lag columns, without the rows that lack a
/// value or a finite number where one is needed.
pub open spec fn with_features(t: TableView, target: Seq<char>, date: Seq<char>, lags: nat) -> TableView {
    let sorted = reordered(t, t.column(date).cells);
    let lagged = with_lags(sorted, sorted.column(target).cells->Number_0, lags);
    let present = lagged.filter(present_mask(lagged, required_columns(target, date, lags)));
    present.filter(finite_mask(present, numeric_columns(target, lags)))
}

/// The training part of the prepared table.
pub open spec fn train_part(
    t: TableView,
    target: Seq<char>,
    date: Seq<char>,
    lags: nat,
    cutoff: int,
) -> TableView {
    let full = with_features(t, target, date, lags);
    full.filter(train_mask(full.column(date).cells, cutoff))
}

/// The test part of the prepared table.
pub open spec fn test_part(
    t: TableView,
    target: Seq<char>,
    date: Seq<char>,
    lags: nat,
    cutoff: int,
) -> TableView {
    let full = with_features(t, target, date, lags);
    full.filter(test_mask(full.column(date).cells, cutoff))
}

/// Where no two rows bear the same timestamp, it does not matter in which
/// order the rows of the table stand: whether it can be prepared, and the
/// parts that it is prepared into, are the same for the rows taken in any
/// other order.
pub proof fn lemma_prepare_forgets_order(
    t: TableView,
    target: Seq<char>,
    date: Seq<char>,
    lags: nat,
    cutoff: int,
    rows: Seq<int>,
)
    requires
        t.well_formed(),
        t.has_column(date),
        is_permutation(rows, t.height()),
        distinct_keys(sort_keys(t.column(date).cells)),
    ensures
        prepare_fault(t.take(rows), target, date, lags) == prepare_fault(t, target, date, lags),
        train_part(t.take(rows), target, date, lags, cutoff) == train_part(
            t,
            target,
            date,
            lags,
            cutoff,
        ),
        test_part(t.take(rows), target, date, lags, cutoff) == test_part(
            t,
            target,
            date,
            lags,
            cutoff,
        ),
{
    let mixed = t.take(rows);
    lemma_take_well_formed(t, rows);
    lemma_reorder_forgets_order(t, date, rows);
    if t.has_column(target) {
        lemma_take_column(t, rows, target);
    }
    assert(numeric_fault(mixed, target) == numeric_fault(t, target));
    assert(lag_clash(mixed, lags) == lag_clash(t, lags)) by {
        if lag_clash(t, lags) {
            let k = choose|k: nat| 1 <= k <= lags && t.has_column(#[trigger] lag_name(k));
            assert(mixed.has_column(lag_name(k)));
        }
        if lag_clash(mixed, lags) {
            let k = choose|k: nat| 1 <= k <= lags && mixed.has_column(#[trigger] lag_name(k));
            assert(t.has_column(lag_name(k)));
        }
    }
    assert(with_features(mixed, target, date, lags) == with_features(t, target, date, lags));
}

/// A table made ready for training and evaluation.
#[derive(Debug)]
pub struct Prepared {
    /// The rows of the years up to the cutoff.
    pub train: Table,
    /// The rows of the year after the cutoff.
    pub test: Table,
    /// The names of the lag columns, in the order of the lags.
    pub feature_cols: Vec<String>,
}

/// The names of the lag columns one to `lags`.
pub fn lag_column_names(lags: usize) -> (names: Vec<String>)
    ensures
        names_view(names@) == lag_names(lags as nat),
{
    let mut names: Vec<String> = Vec::new();
    let mut k: usize = 0;
    while k < lags
        invariant
            k <= lags,
            names@.len() == k,
            forall|j: int| 0 <= j < k ==> names@[j]@ == lag_name((j + 1) as nat),
        decreases lags - k,
    {
        names.push(lag_column_name(k + 1));
        k += 1;
    }
    assert(names_view(names@) =~= lag_names(lags as nat));
    names
}

/// `first`, then the names of the lag columns one to `lags`.
fn names_then_lags(first: Vec<String>, lags: usize) -> (names: Vec<String>)
    ensures
        names_view(names@) == names_view(first@) + lag_names(lags as nat),
{
    let ghost head = names_view(first@);
    let mut names = first;
    let mut k: usize = 0;
    assert(names_view(names@) =~= head + lag_names(0));
    while k < lags
        invariant
            k <= lags,
            names_view(names@) == head + lag_names(k as nat),
        decreases lags - k,
    {
        let ghost before = names@;
        names.push(lag_column_name(k + 1));
        proof {
            assert(names_view(names@) =~= names_view(before).push(lag_name((k + 1) as nat)));
            assert(head + lag_names((k + 1) as nat) =~= (head + lag_names(k as nat)).push(
                lag_name((k + 1) as nat),
            ));
        }
        k += 1;
    }
    names
}

/// Makes `table` ready for training and evaluation. The rows are put in
/// ascending order of the timestamps in `date_col`; one column is added for
/// each lag of `target_col` from one to `lags`; rows that lack a value in the
/// target, the timestamp or a lag, and rows whose target or lag is not a
/// finite number, are dropped; and what is left is split by year at
/// `cutoff_year`.
pub fn prepare(table: &Table, target_col: &str, date_col: &str, lags: usize, cutoff_year: i32) -> (r:
    Result<Prepared, Error>)
    ensures
        match prepare_fault(table@, target_col@, date_col@, lags as nat) {
            Some(e) => r is Err && r->Err_0 == e,
            None => {
                &&& r is Ok
                &&& r->Ok_0.train@ == train_part(
                    table@,
                    target_col@,
                    date_col@,
                    lags as nat,
                    cutoff_year as int,
                )
                &&& r->Ok_0.test@ == test_part(
                    table@,
                    target_col@,
                    date_col@,
                    lags as nat,
                    cutoff_year as int,
                )
                &&& names_view(r->Ok_0.feature_cols@) == lag_names(lags as nat)
                &&& holds_numbers(r->Ok_0.train@, numeric_columns(target_col@, lags as nat))
                &&& holds_numbers(r->Ok_0.test@, numeric_columns(target_col@, lags as nat))
            },
        },
{
    let ghost t = table@;
    let ghost target = target_col@;
    let ghost date = date_col@;
    let ghost n = lags as nat;
    proof {
        use_type_invariant(table);
    }
    let sorted = match reorder_by_string_column(table, date_col) {
        Ok(sorted) => sorted,
        Err(e) => {
            return Err(e);
        },
    };
    proof {
        let rows = row_order(sort_keys(t.column(date).cells));
        lemma_take_well_formed(t, rows);
        if t.has_column(target) {
            lemma_take_column(t, rows, target);
        }
        assert(numeric_fault(sorted@, target) == numeric_fault(t, target));
        assert(lag_clash(sorted@, n) == lag_clash(t, n)) by {
            if lag_clash(t, n) {
                let k = choose|k: nat| 1 <= k <= n && t.has_column(#[trigger] lag_name(k));
                assert(sorted@.has_column(lag_name(k)));
            }
            if lag_clash(sorted@, n) {
                let k = choose|k: nat| 1 <= k <= n && sorted@.has_column(#[trigger] lag_name(k));
                assert(t.has_column(lag_name(k)));
            }
        }
    }
    let lagged = match make_lag_features(&sorted, target_col, lags) {
        Ok(lagged) => lagged,
        Err(e) => {
            return Err(e);
        },
    };
    let mut first: Vec<String> = Vec::new();
    first.push(String::from_str(target_col));
    first.push(String::from_str(date_col));
    let required = names_then_lags(first, lags);
    let mut first: Vec<String> = Vec::new();
    first.push(String::from_str(target_col));
    let numeric = names_then_lags(first, lags);
    let ghost required_names = required_columns(target, date, n);
    let ghost numeric_names = numeric_columns(target, n);
    proof {
        assert(names_view(required@) =~= required_names);
        assert(names_view(numeric@) =~= numeric_names);
        let cells = sorted@.column(target).cells->Number_0;
        lemma_column_height(sorted@, target);
        lemma_with_lags_well_formed(sorted@, cells, n);
        lemma_with_lags_columns(sorted@, cells, n);
        assert(sorted@.has_column(date));
        assert forall|k: int| 0 <= k < required_names.len() implies lagged@.has_column(
            #[trigger] required_names[k],
        ) by {
            if k >= 2 {
                assert(required_names[k] == lag_name((k - 1) as nat));
            }
        }
    }
    let present = match drop_nulls_by_cols(&lagged, required.as_slice()) {
        Ok(present) => present,
        Err(e) => {
            return Err(e);
        },
    };
    proof {
        let cells = sorted@.column(target).cells->Number_0;
        let rows = kept_rows(present_mask(lagged@, required_names));
        lemma_take_well_formed(lagged@, rows);
        assert forall|k: int| 0 <= k < numeric_names.len() implies numeric_fault(
            present@,
            #[trigger] numeric_names[k],
        ) is None by {
            let name = numeric_names[k];
            if k >= 1 {
                assert(name == lag_name(k as nat));
                assert(lagged@.column(name) == lag_column(cells, k));
            } else {
                assert(lagged@.column(name) == sorted@.column(target));
            }
            lemma_take_column(lagged@, rows, name);
        }
        lemma_holds_numbers(present@, numeric_names);
        assert(lagged@.has_column(date));
        lemma_take_column(lagged@, rows, date);
    }
    let finite = match drop_non_finite_by_cols(&present, numeric.as_slice()) {
        Ok(finite) => finite,
        Err(e) => {
            return Err(e);
        },
    };
    proof {
        let rows = kept_rows(finite_mask(present@, numeric_names));
        lemma_take_column(present@, rows, date);
        lemma_take_holds_numbers(present@, rows, numeric_names);
        assert(finite@ == with_features(t, target, date, n));
        let dates = finite@.column(date).cells;
        lemma_take_holds_numbers(
            finite@,
            kept_rows(train_mask(dates, cutoff_year as int)),
            numeric_names,
        );
        lemma_take_holds_numbers(
            finite@,
            kept_rows(test_mask(dates, cutoff_year as int)),
            numeric_names,
        );
    }
    let (train, test) = match train_test_split_by_year(&finite, date_col, cutoff_year) {
        Ok(parts) => parts,
        Err(e) => {
            return Err(e);
        },
    };
    Ok(Prepared { train, test, feature_cols: lag_column_names(lags) })
}

/// What training and evaluation gave.
#[derive(Debug, Clone)]
pub struct TrainEvalResult {
    /// The fitted model; none where the training part or the test part is
    /// empty.
    pub model: Option<LinearModel>,
    /// The mean absolute error of the model on the test part; NaN without a
    /// model.
    pub mae: u64,
    /// The root mean squared error of the model on the test part; NaN
    /// without a model.
    pub rmse: u64,
    /// The number of training rows.
    pub train_n: usize,
    /// The number of test rows.
    pub test_n: usize,
    /// The mean absolute error of the persistence baseline on the test part;
    /// none where the test part is empty.
    pub baseline_mae: Option<u64>,
    /// The root mean squared error of the persistence baseline on the test
    /// part; none where the test part is empty.
    pub baseline_rmse: Option<u64>,
}

/// Predictions as a series in which every value is present.
pub open spec fn all_present(values: Seq<u64>) -> Seq<Option<u64>> {
    values.map_values(|v: u64| Some(v))
}

/// Why a table that can be prepared cannot be trained and evaluated on, if
/// anything. That comes with no lags only, and a test part that is not
/// empty: the baseline then needs a column `lag_1` of the table's own, and a
/// training part that is not empty needs a feature.
pub open spec fn evaluation_fault(train: TableView, test: TableView, lags: nat) -> Option<Error> {
    if lags > 0 || test.height() == 0 {
        None
    } else if numeric_fault(test, lag_name(1)) is Some {
        numeric_fault(test, lag_name(1))
    } else if train.height() == 0 {
        None
    } else {
        Some(Error::NoFeatures)
    }
}

/// Why `t` cannot be trained and evaluated on at the learning rate `rate`,
/// if anything. A rate below zero is refused before the table is looked at,
/// whether or not a model would come to be fitted; then comes what keeps the
/// table from being prepared, and then what keeps the prepared parts from
/// being evaluated.
pub open spec fn train_eval_fault(
    t: TableView,
    target: Seq<char>,
    date: Seq<char>,
    lags: nat,
    cutoff: int,
    rate: u64,
) -> Option<Error> {
    if is_negative(rate) {
        Some(Error::NegativeRate)
    } else if prepare_fault(t, target, date, lags) is Some {
        prepare_fault(t, target, date, lags)
    } else {
        evaluation_fault(
            train_part(t, target, date, lags, cutoff),
            test_part(t, target, date, lags, cutoff),
            lags,
        )
    }
}

/// `result` holds the scores of the persistence baseline on `test`: the
/// column `lag_1` taken as the prediction of the target. There are none
/// where `test` is empty.
pub open spec fn is_baseline<A: Arithmetic>(
    arith: &A,
    test: TableView,
    target: Seq<char>,
    result: &TrainEvalResult,
) -> bool {
    if test.height() == 0 {
        result.baseline_mae is None && result.baseline_rmse is None
    } else {
        let y_true = test.column(target).cells->Number_0;
        let y_pred = test.column(lag_name(1)).cells->Number_0;
        &&& result.baseline_mae is Some
        &&& result.baseline_rmse is Some
        &&& is_mean_absolute_error(arith, y_true, y_pred, result.baseline_mae->0)
        &&& is_root_mean_squared_error(arith, y_true, y_pred, result.baseline_rmse->0)
    }
}

/// `result` holds the model fitted to `train` and its scores on `test`.
/// Where either part is empty there is no model, and both scores are NaN.
pub open spec fn is_scored_model<A: Arithmetic>(
    arith: &A,
    train: TableView,
    test: TableView,
    target: Seq<char>,
    lags: nat,
    rate: u64,
    epochs: nat,
    result: &TrainEvalResult,
) -> bool {
    if train.height() == 0 || test.height() == 0 {
        result.model is None && result.mae == NAN && result.rmse == NAN
    } else {
        let y_true = test.column(target).cells->Number_0;
        &&& result.model is Some
        &&& result.model->0.well_formed()
        &&& is_fitted(arith, train, target, lag_names(lags), rate, epochs, &result.model->0)
        &&& exists|predictions: Seq<u64>| #[trigger]
            are_predictions(arith, &result.model->0, test, predictions) && is_mean_absolute_error(
                arith,
                y_true,
                all_present(predictions),
                result.mae,
            ) && is_root_mean_squared_error(arith, y_true, all_present(predictions), result.rmse)
    }
}

/// `result` is what training on `train` and evaluation on `test` give.
pub open spec fn is_evaluation<A: Arithmetic>(
    arith: &A,
    train: TableView,
    test: TableView,
    target: Seq<char>,
    lags: nat,
    rate: u64,
    epochs: nat,
    result: &TrainEvalResult,
) -> bool {
    &&& result.train_n == train.height()
    &&& result.test_n == test.height()
    &&& is_baseline(arith, test, target, result)
    &&& is_scored_model(arith, train, test, target, lags, rate, epochs, result)
}

/// A series in which every one of `values` is present.
fn as_series(values: &Vec<u64>) -> (series: Vec<Option<u64>>)
    ensures
        series@ == all_present(values@),
{
    let mut series: Vec<Option<u64>> = Vec::new();
    let mut i: usize = 0;
    while i < values.len()
        invariant
            i <= values@.len(),
            series@.len() == i,
            forall|k: int| 0 <= k < i ==> series@[k] == Some(values@[k]),
        decreases values.len() - i,
    {
        series.push(Some(values[i]));
        i += 1;
    }
    assert(series@ =~= all_present(values@));
    series
}

/// Trains and evaluates an autoregressive model of `target_col`.
///
/// The table is prepared as [`prepare`] does. Where test rows are left, the
/// persistence baseline, which takes `lag_1` for the prediction, is scored
/// on them. Where training rows and test rows are left, a model of the lags
/// is fitted to the training rows with `learning_rate` and `epochs`, and its
/// predictions for the test rows are scored; otherwise the result has no
/// model, and NaN for its scores. A learning rate below zero is refused at
/// once; a rate of zero is taken as any other.
pub fn train_eval_from_curated<A: Arithmetic>(
    arith: &A,
    table: &Table,
    target_col: &str,
    date_col: &str,
    lags: usize,
    cutoff_year: i32,
    learning_rate: u64,
    epochs: usize,
) -> (r: Result<TrainEvalResult, Error>)
    ensures
        match train_eval_fault(
            table@,
            target_col@,
            date_col@,
            lags as nat,
            cutoff_year as int,
            learning_rate,
        ) {
            Some(e) => r is Err && r->Err_0 == e,
            None => r is Ok && is_evaluation(
                arith,
                train_part(table@, target_col@, date_col@, lags as nat, cutoff_year as int),
                test_part(table@, target_col@, date_col@, lags as nat, cutoff_year as int),
                target_col@,
                lags as nat,
                learning_rate,
                epochs as nat,
                &r->Ok_0,
            ),
        },
{
    if bits_are_negative(learning_rate) {
        return Err(Error::NegativeRate);
    }
    let prepared = match prepare(table, target_col, date_col, lags, cutoff_year) {
        Ok(prepared) => prepared,
        Err(e) => {
            return Err(e);
        },
    };
    let ghost target = target_col@;
    let ghost n = lags as nat;
    let ghost numeric_names = numeric_columns(target, n);
    let ghost train = prepared.train@;
    let ghost test = prepared.test@;
    let train_n = prepared.train.height();
    let test_n = prepared.test.height();
    proof {
        assert(numeric_names[0] == target);
        assert(numeric_fault(train, target) is None);
        assert(numeric_fault(test, target) is None);
        if n > 0 {
            assert(numeric_names[1] == lag_name(1));
            assert(numeric_fault(test, lag_name(1)) is None);
        }
        assert forall|k: int| 0 <= k < lag_names(n).len() implies numeric_fault(
            train,
            #[trigger] lag_names(n)[k],
        ) is None && numeric_fault(test, lag_names(n)[k]) is None by {
            assert(numeric_names[k + 1] == lag_names(n)[k]);
        }
        lemma_holds_numbers(train, lag_names(n));
        lemma_holds_numbers(test, lag_names(n));
    }
    let y_true = match prepared.test.numbers(target_col) {
        Ok(y_true) => y_true,
        Err(e) => {
            return Err(e);
        },
    };
    let baseline = if test_n > 0 {
        let name = lag_column_name(1);
        let persisted = match prepared.test.numbers(name.as_str()) {
            Ok(persisted) => persisted,
            Err(e) => {
                return Err(e);
            },
        };
        Some(
            (
                mean_absolute_error(arith, y_true.as_slice(), persisted.as_slice()),
                root_mean_squared_error(arith, y_true.as_slice(), persisted.as_slice()),
            ),
        )
    } else {
        None
    };
    let (baseline_mae, baseline_rmse) = match baseline {
        Some((mae, rmse)) => (Some(mae), Some(rmse)),
        None => (None, None),
    };
    if train_n == 0 || test_n == 0 {
        return Ok(
            TrainEvalResult {
                model: None,
                mae: NAN,
                rmse: NAN,
                train_n,
                test_n,
                baseline_mae,
                baseline_rmse,
            },
        );
    }
    let model = match fit_linear_gd(
        arith,
        &prepared.train,
        target_col,
        prepared.feature_cols.as_slice(),
        learning_rate,
        epochs,
    ) {
        Ok(model) => model,
        Err(e) => {
            return Err(e);
        },
    };
    let predictions = match predict_df(arith, &model, &prepared.test) {
        Ok(predictions) => predictions,
        Err(e) => {
            return Err(e);
        },
    };
    let y_pred = as_series(&predictions);
    let mae = mean_absolute_error(arith, y_true.as_slice(), y_pred.as_slice());
    let rmse = root_mean_squared_error(arith, y_true.as_slice(), y_pred.as_slice());
    let result = TrainEvalResult {
        model: Some(model),
        mae,
        rmse,
        train_n,
        test_n,
        baseline_mae,
        baseline_rmse,
    };
    proof {
        assert(are_predictions(arith, &result.model->0, test, predictions@));
    }
    Ok(result)
}

} // verus!
