use nexergy::arith::Arithmetic;
use nexergy::error::Error;
use nexergy::metrics::{mean_absolute_error, paired_observations, root_mean_squared_error};
use nexergy::model::{feature_rows, predict_df, training_columns, LinearModel};
use nexergy::pipeline::{lag_column_names, prepare, train_eval_from_curated};
use nexergy::table::{Cells, Column, Table};
use nexergy::train::fit_linear_gd;

/// The arithmetic of the machine.
struct Machine;

impl Arithmetic for Machine {
    fn sum(&self, a: u64, b: u64) -> u64 {
        (f64::from_bits(a) + f64::from_bits(b)).to_bits()
    }

    fn difference(&self, a: u64, b: u64) -> u64 {
        (f64::from_bits(a) - f64::from_bits(b)).to_bits()
    }

    fn product(&self, a: u64, b: u64) -> u64 {
        (f64::from_bits(a) * f64::from_bits(b)).to_bits()
    }

    fn quotient(&self, a: u64, b: u64) -> u64 {
        (f64::from_bits(a) / f64::from_bits(b)).to_bits()
    }

    fn square_root(&self, a: u64) -> u64 {
        f64::from_bits(a).sqrt().to_bits()
    }

    fn from_count(&self, n: usize) -> u64 {
        (n as f64).to_bits()
    }
}

fn bits(values: &[f64]) -> Vec<u64> {
    values.iter().map(|x| x.to_bits()).collect()
}

fn floats(values: &[u64]) -> Vec<f64> {
    values.iter().map(|x| f64::from_bits(*x)).collect()
}

fn series(values: &[Option<f64>]) -> Vec<Option<u64>> {
    values.iter().map(|v| v.map(|x| x.to_bits())).collect()
}

fn full(values: &[f64]) -> Vec<Option<u64>> {
    values.iter().map(|x| Some(x.to_bits())).collect()
}

fn number_col(name: &str, values: &[Option<f64>]) -> Column {
    Column {
        name: name.to_string(),
        cells: Cells::Number(series(values)),
    }
}

fn text_col(name: &str, values: &[&str]) -> Column {
    Column {
        name: name.to_string(),
        cells: Cells::Text(values.iter().map(|s| Some(s.to_string())).collect()),
    }
}

fn build(columns: Vec<Column>) -> Table {
    let mut table = Table::new();
    for column in columns {
        table = table.with_column(column).unwrap();
    }
    table
}

fn name_list(list: &[&str]) -> Vec<String> {
    list.iter().map(|s| s.to_string()).collect()
}

fn column_values(table: &Table, name: &str) -> Vec<Option<f64>> {
    table
        .numbers(name)
        .unwrap()
        .iter()
        .map(|v| v.map(f64::from_bits))
        .collect()
}

fn mae(y_true: &[Option<u64>], y_pred: &[Option<u64>]) -> f64 {
    f64::from_bits(mean_absolute_error(&Machine, y_true, y_pred))
}

fn rmse(y_true: &[Option<u64>], y_pred: &[Option<u64>]) -> f64 {
    f64::from_bits(root_mean_squared_error(&Machine, y_true, y_pred))
}

fn model_of(
    features: &[&str],
    weights: &[f64],
    means: &[f64],
    stds: &[f64],
    target_mean: f64,
    target_std: f64,
) -> Result<LinearModel, Error> {
    LinearModel::new(
        name_list(features),
        bits(weights),
        bits(means),
        bits(stds),
        target_mean.to_bits(),
        target_std.to_bits(),
    )
}

/// The mean and the population deviation of the values that are present.
fn reference_statistics(cells: &[Option<f64>]) -> (f64, f64) {
    let mut sum = 0.0;
    let mut count = 0usize;
    for v in cells.iter().flatten() {
        sum += v;
        count += 1;
    }
    let mean = if count > 0 { sum / (count as f64) } else { 0.0 };
    let mut squares = 0.0;
    for v in cells.iter().flatten() {
        let d = v - mean;
        squares += d * d;
    }
    let std = if count > 1 {
        (squares / (count as f64)).sqrt()
    } else {
        1.0
    };
    (mean, if std > 0.0 { std } else { 1.0 })
}

/// Batch gradient descent written out with the machine's own operators.
fn reference_fit(
    target: &[Option<f64>],
    features: &[Vec<Option<f64>>],
    rate: f64,
    epochs: usize,
) -> (Vec<f64>, Vec<f64>, Vec<f64>, f64, f64) {
    let n = target.len();
    let (target_mean, target_std) = reference_statistics(target);
    let mut means = Vec::new();
    let mut stds = Vec::new();
    for column in features {
        let (mean, std) = reference_statistics(column);
        means.push(mean);
        stds.push(std);
    }
    let mut w = vec![0.0; features.len() + 1];
    for _ in 0..epochs {
        let mut g0 = 0.0;
        let mut g = vec![0.0; features.len()];
        for i in 0..n {
            let z = match target[i] {
                Some(v) => (v - target_mean) / target_std,
                None => 0.0,
            };
            let mut xs = Vec::new();
            for (j, column) in features.iter().enumerate() {
                xs.push((column[i].unwrap_or(0.0) - means[j]) / stds[j]);
            }
            let mut dot = 0.0;
            for j in 0..xs.len() {
                dot += w[j + 1] * xs[j];
            }
            let err = (w[0] + dot) - z;
            g0 += err;
            for j in 0..xs.len() {
                g[j] += err * xs[j];
            }
        }
        let scale = 1.0 / (n as f64);
        w[0] -= rate * g0 * scale;
        for j in 0..g.len() {
            w[j + 1] -= rate * g[j] * scale;
        }
    }
    (w, means, stds, target_mean, target_std)
}

#[test]
fn the_mean_absolute_error_of_a_perfect_prediction_is_zero() {
    assert_eq!(mae(&full(&[1.0, 2.0, 3.0]), &full(&[1.0, 2.0, 3.0])), 0.0);
    assert_eq!(rmse(&full(&[1.0, 2.0, 3.0]), &full(&[1.0, 2.0, 3.0])), 0.0);
}

#[test]
fn the_mean_absolute_error_is_the_mean_of_the_distances() {
    assert_eq!(mae(&full(&[1.0, 2.0, 3.0]), &full(&[2.0, 3.0, 4.0])), 1.0);
    assert_eq!(mae(&full(&[2.0, 3.0, 4.0]), &full(&[1.0, 2.0, 3.0])), 1.0);
    assert_eq!(mae(&full(&[0.0, 0.0]), &full(&[3.0, -4.0])), 3.5);
    assert_eq!(mae(&full(&[10.0]), &full(&[7.5])), 2.5);
}

#[test]
fn the_root_mean_squared_error_is_the_root_of_the_mean_square() {
    assert_eq!(rmse(&full(&[0.0, 0.0]), &full(&[3.0, 4.0])), 12.5f64.sqrt());
    assert!((rmse(&full(&[0.0, 0.0]), &full(&[3.0, 4.0])) - 3.5355339059327378).abs() < 1e-15);
    assert_eq!(rmse(&full(&[1.0, 2.0, 3.0]), &full(&[2.0, 3.0, 4.0])), 1.0);
    assert_eq!(rmse(&full(&[5.0]), &full(&[2.0])), 3.0);
}

#[test]
fn scores_pass_over_positions_that_lack_a_value() {
    let y_true = series(&[Some(1.0), None, Some(3.0), Some(4.0), Some(100.0)]);
    let y_pred = series(&[Some(2.0), Some(50.0), None, Some(7.0)]);
    assert_eq!(
        paired_observations(&y_true, &y_pred),
        vec![
            (1.0f64.to_bits(), 2.0f64.to_bits()),
            (4.0f64.to_bits(), 7.0f64.to_bits())
        ]
    );
    assert_eq!(mae(&y_true, &y_pred), 2.0);
    assert_eq!(rmse(&y_true, &y_pred), 5.0f64.sqrt());
}

#[test]
fn scores_are_taken_over_the_shared_positions_only() {
    assert_eq!(
        mae(&full(&[1.0, 2.0, 3.0, 1000.0]), &full(&[1.0, 2.0, 5.0])),
        2.0 / 3.0
    );
    assert_eq!(mae(&full(&[1.0]), &full(&[4.0, 1000.0, 1000.0])), 3.0);
}

#[test]
fn a_score_over_no_position_is_nan() {
    assert!(mae(&[], &[]).is_nan());
    assert!(rmse(&[], &[]).is_nan());
    assert!(mae(&full(&[1.0, 2.0]), &[]).is_nan());
    assert!(rmse(&series(&[None, Some(1.0)]), &series(&[Some(1.0), None])).is_nan());
    assert!(paired_observations(&series(&[None]), &series(&[Some(1.0)])).is_empty());
}

#[test]
fn a_model_is_made_of_parts_that_fit_together() {
    assert!(model_of(&["a", "b"], &[0.0, 1.0, 2.0], &[0.0, 0.0], &[1.0, 2.0], 0.0, 1.0).is_ok());
    assert!(model_of(&[], &[0.5], &[], &[], 0.0, 1.0).is_ok());
    let model =
        model_of(&["a"], &[0.5, 2.0], &[1.0], &[2.0], 10.0, 3.0).unwrap();
    assert_eq!(model.feature_names, name_list(&["a"]));
    assert_eq!(floats(&model.weights), vec![0.5, 2.0]);
    assert_eq!(floats(&model.feature_means), vec![1.0]);
    assert_eq!(floats(&model.feature_stds), vec![2.0]);
    assert_eq!(f64::from_bits(model.target_mean), 10.0);
    assert_eq!(f64::from_bits(model.target_std), 3.0);
    assert!(model.is_well_formed());
}

#[test]
fn a_model_of_parts_that_do_not_fit_is_refused() {
    let refused = |r: Result<LinearModel, Error>| r.err() == Some(Error::InvalidModel);
    assert!(refused(model_of(&["a"], &[0.0], &[0.0], &[1.0], 0.0, 1.0)));
    assert!(refused(model_of(&["a"], &[0.0, 1.0, 2.0], &[0.0], &[1.0], 0.0, 1.0)));
    assert!(refused(model_of(&["a"], &[0.0, 1.0], &[], &[1.0], 0.0, 1.0)));
    assert!(refused(model_of(&["a"], &[0.0, 1.0], &[0.0], &[1.0, 1.0], 0.0, 1.0)));
    assert!(refused(model_of(&[], &[], &[], &[], 0.0, 1.0)));
    assert!(refused(model_of(&["a"], &[0.0, 1.0], &[0.0], &[0.0], 0.0, 1.0)));
    assert!(refused(model_of(&["a"], &[0.0, 1.0], &[0.0], &[-1.0], 0.0, 1.0)));
    assert!(refused(model_of(&["a"], &[0.0, 1.0], &[0.0], &[f64::NAN], 0.0, 1.0)));
    assert!(model_of(&["a"], &[0.0, 1.0], &[0.0], &[f64::INFINITY], 0.0, 1.0).is_ok());
}

#[test]
fn a_prediction_is_the_weighted_sum_brought_back_to_scale() {
    let model = model_of(&["a"], &[0.5, 2.0], &[1.0], &[2.0], 10.0, 3.0).unwrap();
    let y = f64::from_bits(model.predict_row(&Machine, &bits(&[5.0])));
    assert_eq!(y, 23.5);
    let model = model_of(
        &["a", "b"],
        &[1.0, 0.5, -2.0],
        &[10.0, 0.0],
        &[5.0, 0.25],
        100.0,
        10.0,
    )
    .unwrap();
    let y = f64::from_bits(model.predict_row(&Machine, &bits(&[20.0, 0.5])));
    assert_eq!(y, 100.0 + 10.0 * (1.0 + 0.5 * 2.0 + -2.0 * 2.0));
    assert_eq!(y, 80.0);
    let short = f64::from_bits(model.predict_row(&Machine, &bits(&[20.0])));
    assert_eq!(short, 120.0);
    let bias = f64::from_bits(model.predict_row(&Machine, &[]));
    assert_eq!(bias, 110.0);
}

#[test]
fn a_feature_without_a_positive_deviation_counts_as_zero() {
    let model = LinearModel {
        feature_names: name_list(&["flat", "live"]),
        weights: bits(&[1.0, 1000.0, 2.0]),
        feature_means: bits(&[3.0, 0.0]),
        feature_stds: bits(&[0.0, 1.0]),
        target_mean: 0.0f64.to_bits(),
        target_std: 1.0f64.to_bits(),
    };
    for raw in [-5.0, 0.0, 3.0, 1e9] {
        let y = f64::from_bits(model.predict_row(&Machine, &bits(&[raw, 4.0])));
        assert_eq!(y, 9.0);
    }
}

#[test]
fn predictions_follow_the_rows_and_read_nulls_as_zero() {
    let model = model_of(
        &["lag_1", "lag_2"],
        &[0.0, 1.0, 1.0],
        &[0.0, 0.0],
        &[1.0, 1.0],
        0.0,
        1.0,
    )
    .unwrap();
    let table = build(vec![
        number_col("lag_2", &[Some(10.0), None, Some(30.0)]),
        text_col("date", &["a", "b", "c"]),
        number_col("lag_1", &[Some(1.0), Some(2.0), None]),
    ]);
    assert_eq!(
        feature_rows(&model, &table)
            .unwrap()
            .iter()
            .map(|row| floats(row))
            .collect::<Vec<_>>(),
        vec![vec![1.0, 10.0], vec![2.0, 0.0], vec![0.0, 30.0]]
    );
    let predictions = floats(&predict_df(&Machine, &model, &table).unwrap());
    assert_eq!(predictions, vec![11.0, 2.0, 30.0]);
}

#[test]
fn predicting_twice_gives_the_same_predictions() {
    let model = model_of(&["x"], &[0.25, 1.5], &[2.0], &[0.5], 7.0, 3.0).unwrap();
    let table = build(vec![number_col(
        "x",
        &[Some(1.0), Some(0.1), None, Some(-7.25), Some(1e300)],
    )]);
    let first = predict_df(&Machine, &model, &table).unwrap();
    let second = predict_df(&Machine, &model, &table).unwrap();
    assert_eq!(first, second);
    assert_eq!(first.len(), 5);
}

#[test]
fn predictions_need_every_feature_as_numbers() {
    let table = build(vec![
        number_col("lag_1", &[Some(1.0)]),
        text_col("date", &["a"]),
    ]);
    let model = model_of(&["lag_1", "lag_2"], &[0.0, 1.0, 1.0], &[0.0, 0.0], &[1.0, 1.0], 0.0, 1.0)
        .unwrap();
    assert_eq!(
        predict_df(&Machine, &model, &table).err(),
        Some(Error::MissingColumn)
    );
    let model = model_of(&["date", "lag_2"], &[0.0, 1.0, 1.0], &[0.0, 0.0], &[1.0, 1.0], 0.0, 1.0)
        .unwrap();
    assert_eq!(
        predict_df(&Machine, &model, &table).err(),
        Some(Error::NotNumeric)
    );
    let model = model_of(&[], &[4.0], &[], &[], 1.0, 2.0).unwrap();
    assert_eq!(floats(&predict_df(&Machine, &model, &table).unwrap()), vec![9.0]);
}

#[test]
fn training_reads_the_target_and_the_features() {
    let table = build(vec![
        number_col("price", &[Some(1.0), None]),
        number_col("lag_1", &[None, Some(1.0)]),
        text_col("date", &["a", "b"]),
    ]);
    let columns = training_columns(&table, "price", &name_list(&["lag_1", "price"])).unwrap();
    assert_eq!(columns.target, series(&[Some(1.0), None]));
    assert_eq!(
        columns.features,
        vec![series(&[None, Some(1.0)]), series(&[Some(1.0), None])]
    );
    assert_eq!(
        training_columns(&table, "price", &[]).err(),
        Some(Error::NoFeatures)
    );
    assert_eq!(
        training_columns(&table, "volume", &[]).err(),
        Some(Error::NoFeatures)
    );
    assert_eq!(
        training_columns(&table, "volume", &name_list(&["date"])).err(),
        Some(Error::MissingColumn)
    );
    assert_eq!(
        training_columns(&table, "date", &name_list(&["lag_9"])).err(),
        Some(Error::NotNumeric)
    );
    assert_eq!(
        training_columns(&table, "price", &name_list(&["lag_1", "date", "lag_9"])).err(),
        Some(Error::NotNumeric)
    );
    assert_eq!(
        training_columns(&table, "price", &name_list(&["lag_9", "date"])).err(),
        Some(Error::MissingColumn)
    );
}

#[test]
fn one_epoch_moves_the_weight_by_the_rate() {
    let table = build(vec![
        number_col("y", &[Some(2.0), Some(4.0), Some(6.0)]),
        number_col("x", &[Some(1.0), Some(2.0), Some(3.0)]),
    ]);
    let model = fit_linear_gd(&Machine, &table, "y", &name_list(&["x"]), 0.1f64.to_bits(), 1)
        .unwrap();
    assert!(model.is_well_formed());
    assert_eq!(model.feature_names, name_list(&["x"]));
    assert_eq!(f64::from_bits(model.target_mean), 4.0);
    assert_eq!(f64::from_bits(model.target_std), (8.0f64 / 3.0).sqrt());
    assert_eq!(floats(&model.feature_means), vec![2.0]);
    assert_eq!(floats(&model.feature_stds), vec![(2.0f64 / 3.0).sqrt()]);
    let weights = floats(&model.weights);
    assert_eq!(weights.len(), 2);
    assert!(weights[0].abs() < 1e-15);
    assert!((weights[1] - 0.1).abs() < 1e-15);
}

#[test]
fn many_epochs_find_the_line() {
    let table = build(vec![
        number_col("y", &[Some(2.0), Some(4.0), Some(6.0), Some(8.0)]),
        number_col("x", &[Some(1.0), Some(2.0), Some(3.0), Some(4.0)]),
    ]);
    let model = fit_linear_gd(&Machine, &table, "y", &name_list(&["x"]), 0.1f64.to_bits(), 500)
        .unwrap();
    let weights = floats(&model.weights);
    assert!(weights[0].abs() < 1e-9);
    assert!((weights[1] - 1.0).abs() < 1e-9);
    let y = f64::from_bits(model.predict_row(&Machine, &bits(&[10.0])));
    assert!((y - 20.0).abs() < 1e-6);
}

#[test]
fn the_fit_is_the_descent_written_out() {
    let target = vec![
        Some(10.0),
        Some(12.5),
        None,
        Some(11.0),
        Some(13.0),
        Some(14.25),
        Some(9.5),
    ];
    let first = vec![
        Some(0.1),
        Some(10.0),
        Some(12.5),
        None,
        Some(11.0),
        Some(13.0),
        Some(14.25),
    ];
    let second = vec![
        Some(7.0),
        Some(7.0),
        Some(7.0),
        Some(7.0),
        Some(7.0),
        Some(7.0),
        Some(7.0),
    ];
    let third = vec![None, None, None, Some(3.0), None, None, None];
    let table = build(vec![
        number_col("y", &target),
        number_col("a", &first),
        number_col("b", &second),
        number_col("c", &third),
    ]);
    for (rate, epochs) in [(0.01, 0usize), (0.01, 1), (0.05, 7), (0.3, 40)] {
        let model = fit_linear_gd(
            &Machine,
            &table,
            "y",
            &name_list(&["a", "b", "c"]),
            f64::to_bits(rate),
            epochs,
        )
        .unwrap();
        let (w, means, stds, target_mean, target_std) = reference_fit(
            &target,
            &[first.clone(), second.clone(), third.clone()],
            rate,
            epochs,
        );
        assert_eq!(model.weights, bits(&w), "rate {rate}, {epochs} epochs");
        assert_eq!(model.feature_means, bits(&means));
        assert_eq!(model.feature_stds, bits(&stds));
        assert_eq!(model.target_mean, target_mean.to_bits());
        assert_eq!(model.target_std, target_std.to_bits());
    }
}

#[test]
fn statistics_pass_over_nulls_and_guard_the_deviation() {
    let table = build(vec![
        number_col("y", &[Some(1.0), None, Some(3.0), None]),
        number_col("flat", &[Some(5.0), Some(5.0), Some(5.0), Some(5.0)]),
        number_col("lone", &[None, Some(8.0), None, None]),
        number_col("void", &[None, None, None, None]),
    ]);
    let model = fit_linear_gd(
        &Machine,
        &table,
        "y",
        &name_list(&["flat", "lone", "void"]),
        0.1f64.to_bits(),
        3,
    )
    .unwrap();
    assert_eq!(f64::from_bits(model.target_mean), 2.0);
    assert_eq!(f64::from_bits(model.target_std), 1.0);
    assert_eq!(floats(&model.feature_means), vec![5.0, 8.0, 0.0]);
    assert_eq!(floats(&model.feature_stds), vec![1.0, 1.0, 1.0]);
    assert_eq!(f64::from_bits(model.weights[1]), 0.0);
    let with_flat = f64::from_bits(model.predict_row(&Machine, &bits(&[5.0, 8.0, 0.0])));
    let model_without = LinearModel {
        weights: bits(&[
            f64::from_bits(model.weights[0]),
            123.0,
            f64::from_bits(model.weights[2]),
            f64::from_bits(model.weights[3]),
        ]),
        ..model.clone()
    };
    let other_weight =
        f64::from_bits(model_without.predict_row(&Machine, &bits(&[5.0, 8.0, 0.0])));
    assert_eq!(with_flat, other_weight);
}

#[test]
fn no_epoch_leaves_the_weights_at_zero() {
    let table = build(vec![
        number_col("y", &[Some(2.0), Some(4.0), Some(7.0)]),
        number_col("x", &[Some(1.0), Some(2.0), Some(3.0)]),
    ]);
    let model =
        fit_linear_gd(&Machine, &table, "y", &name_list(&["x"]), 0.5f64.to_bits(), 0).unwrap();
    assert_eq!(floats(&model.weights), vec![0.0, 0.0]);
}

#[test]
fn a_learning_rate_of_zero_leaves_the_weights_at_zero() {
    let table = build(vec![
        number_col("y", &[Some(2.0), Some(4.0), Some(7.0), Some(1.0)]),
        number_col("x", &[Some(1.0), Some(2.0), Some(3.0), Some(-4.0)]),
        number_col("z", &[Some(0.5), None, Some(0.25), Some(8.0)]),
    ]);
    for epochs in [1usize, 2, 50] {
        let model = fit_linear_gd(
            &Machine,
            &table,
            "y",
            &name_list(&["x", "z"]),
            0.0f64.to_bits(),
            epochs,
        )
        .unwrap();
        assert_eq!(floats(&model.weights), vec![0.0, 0.0, 0.0]);
        let predictions = floats(&predict_df(&Machine, &model, &table).unwrap());
        assert_eq!(predictions, vec![3.5, 3.5, 3.5, 3.5]);
        assert_eq!(f64::from_bits(model.target_mean), 3.5);
    }
}

#[test]
fn fitting_needs_features_and_columns_of_numbers() {
    let table = build(vec![
        number_col("y", &[Some(2.0)]),
        text_col("date", &["a"]),
    ]);
    let rate = 0.1f64.to_bits();
    assert_eq!(
        fit_linear_gd(&Machine, &table, "y", &[], rate, 1).err(),
        Some(Error::NoFeatures)
    );
    assert_eq!(
        fit_linear_gd(&Machine, &table, "x", &name_list(&["y"]), rate, 1).err(),
        Some(Error::MissingColumn)
    );
    assert_eq!(
        fit_linear_gd(&Machine, &table, "date", &name_list(&["y"]), rate, 1).err(),
        Some(Error::NotNumeric)
    );
    assert_eq!(
        fit_linear_gd(&Machine, &table, "y", &name_list(&["y", "date"]), rate, 1).err(),
        Some(Error::NotNumeric)
    );
    assert_eq!(
        fit_linear_gd(&Machine, &table, "y", &name_list(&["x"]), rate, 1).err(),
        Some(Error::MissingColumn)
    );
    assert!(fit_linear_gd(&Machine, &table, "y", &name_list(&["y"]), rate, 1).is_ok());
}

#[test]
fn fitting_to_no_row_does_not_fail() {
    let table = build(vec![number_col("y", &[]), number_col("x", &[])]);
    let model =
        fit_linear_gd(&Machine, &table, "y", &name_list(&["x"]), 0.1f64.to_bits(), 2).unwrap();
    assert_eq!(model.weights.len(), 2);
    assert_eq!(f64::from_bits(model.target_mean), 0.0);
    assert_eq!(f64::from_bits(model.target_std), 1.0);
    assert_eq!(floats(&model.feature_stds), vec![1.0]);
}

fn week_of_prices() -> Vec<Column> {
    vec![
        text_col(
            "datetime_utc",
            &[
                "2023-01-01",
                "2023-01-02",
                "2023-01-03",
                "2023-01-04",
                "2023-01-05",
            ],
        ),
        number_col(
            "price_eur_mwh",
            &[Some(10.0), Some(12.0), Some(11.0), Some(13.0), Some(14.0)],
        ),
    ]
}

fn week_and_a_day() -> Table {
    build(vec![
        text_col(
            "datetime_utc",
            &[
                "2023-01-01",
                "2023-01-02",
                "2023-01-03",
                "2023-01-04",
                "2023-01-05",
                "2024-01-01",
            ],
        ),
        number_col(
            "price_eur_mwh",
            &[
                Some(10.0),
                Some(12.0),
                Some(11.0),
                Some(13.0),
                Some(14.0),
                Some(15.0),
            ],
        ),
    ])
}

#[test]
fn a_week_and_a_day_give_four_training_rows_and_one_test_row() {
    let table = week_and_a_day();
    let prepared = prepare(&table, "price_eur_mwh", "datetime_utc", 1, 2023).unwrap();
    assert_eq!(prepared.train.height(), 4);
    assert_eq!(prepared.test.height(), 1);
    assert_eq!(prepared.feature_cols, name_list(&["lag_1"]));
    assert_eq!(
        column_values(&prepared.train, "price_eur_mwh"),
        vec![Some(12.0), Some(11.0), Some(13.0), Some(14.0)]
    );
    assert_eq!(
        column_values(&prepared.train, "lag_1"),
        vec![Some(10.0), Some(12.0), Some(11.0), Some(13.0)]
    );
    assert_eq!(column_values(&prepared.test, "price_eur_mwh"), vec![Some(15.0)]);
    assert_eq!(column_values(&prepared.test, "lag_1"), vec![Some(14.0)]);
    let result = train_eval_from_curated(
        &Machine,
        &table,
        "price_eur_mwh",
        "datetime_utc",
        1,
        2023,
        0.01f64.to_bits(),
        200,
    )
    .unwrap();
    assert_eq!(result.train_n, 4);
    assert_eq!(result.test_n, 1);
    assert_eq!(result.baseline_mae.map(f64::from_bits), Some(1.0));
    assert_eq!(result.baseline_rmse.map(f64::from_bits), Some(1.0));
    let model = result.model.unwrap();
    assert_eq!(model.feature_names, name_list(&["lag_1"]));
    assert!(model.is_well_formed());
    let expected = f64::from_bits(model.predict_row(&Machine, &bits(&[14.0])));
    assert_eq!(f64::from_bits(result.mae), (15.0 - expected).abs());
    assert_eq!(
        f64::from_bits(result.rmse),
        ((15.0 - expected) * (15.0 - expected)).sqrt()
    );
    let (w, means, stds, target_mean, target_std) = reference_fit(
        &[Some(12.0), Some(11.0), Some(13.0), Some(14.0)],
        &[vec![Some(10.0), Some(12.0), Some(11.0), Some(13.0)]],
        0.01,
        200,
    );
    assert_eq!(model.weights, bits(&w));
    assert_eq!(model.feature_means, bits(&means));
    assert_eq!(model.feature_stds, bits(&stds));
    assert_eq!(model.target_mean, target_mean.to_bits());
    assert_eq!(model.target_std, target_std.to_bits());
}

#[test]
fn without_test_rows_there_is_no_model_and_no_baseline() {
    let table = build(week_of_prices());
    let result = train_eval_from_curated(
        &Machine,
        &table,
        "price_eur_mwh",
        "datetime_utc",
        1,
        2023,
        0.01f64.to_bits(),
        200,
    )
    .unwrap();
    assert_eq!(result.train_n, 4);
    assert_eq!(result.test_n, 0);
    assert!(result.model.is_none());
    assert!(f64::from_bits(result.mae).is_nan());
    assert!(f64::from_bits(result.rmse).is_nan());
    assert_eq!(result.baseline_mae, None);
    assert_eq!(result.baseline_rmse, None);
}

#[test]
fn without_training_rows_there_is_a_baseline_and_no_model() {
    let table = week_and_a_day();
    let result = train_eval_from_curated(
        &Machine,
        &table,
        "price_eur_mwh",
        "datetime_utc",
        1,
        2022,
        0.01f64.to_bits(),
        200,
    )
    .unwrap();
    assert_eq!(result.train_n, 0);
    assert_eq!(result.test_n, 4);
    assert!(result.model.is_none());
    assert!(f64::from_bits(result.mae).is_nan());
    assert!(f64::from_bits(result.rmse).is_nan());
    assert_eq!(result.baseline_mae.map(f64::from_bits), Some(1.5));
    assert_eq!(
        result.baseline_rmse.map(f64::from_bits),
        Some((10.0f64 / 4.0).sqrt())
    );
}

#[test]
fn with_a_learning_rate_of_zero_every_prediction_is_the_mean() {
    let table = week_and_a_day();
    let result = train_eval_from_curated(
        &Machine,
        &table,
        "price_eur_mwh",
        "datetime_utc",
        1,
        2023,
        0.0f64.to_bits(),
        25,
    )
    .unwrap();
    let model = result.model.unwrap();
    assert_eq!(floats(&model.weights), vec![0.0, 0.0]);
    assert_eq!(f64::from_bits(model.target_mean), 12.5);
    assert_eq!(f64::from_bits(result.mae), 2.5);
    assert_eq!(f64::from_bits(result.rmse), 2.5);
}

#[test]
fn rows_are_sorted_before_they_are_lagged() {
    let table = build(vec![
        text_col(
            "datetime_utc",
            &[
                "2024-01-01",
                "2023-01-04",
                "2023-01-01",
                "2023-01-05",
                "2023-01-03",
                "2023-01-02",
            ],
        ),
        number_col(
            "price_eur_mwh",
            &[
                Some(15.0),
                Some(13.0),
                Some(10.0),
                Some(14.0),
                Some(11.0),
                Some(12.0),
            ],
        ),
    ]);
    let prepared = prepare(&table, "price_eur_mwh", "datetime_utc", 2, 2023).unwrap();
    assert_eq!(prepared.feature_cols, name_list(&["lag_1", "lag_2"]));
    assert_eq!(
        column_values(&prepared.train, "price_eur_mwh"),
        vec![Some(11.0), Some(13.0), Some(14.0)]
    );
    assert_eq!(
        column_values(&prepared.train, "lag_1"),
        vec![Some(12.0), Some(11.0), Some(13.0)]
    );
    assert_eq!(
        column_values(&prepared.train, "lag_2"),
        vec![Some(10.0), Some(12.0), Some(11.0)]
    );
    assert_eq!(column_values(&prepared.test, "lag_1"), vec![Some(14.0)]);
    assert_eq!(column_values(&prepared.test, "lag_2"), vec![Some(13.0)]);
}

#[test]
fn rows_that_lack_a_value_or_a_finite_number_are_left_out() {
    let table = build(vec![
        Column {
            name: "datetime_utc".to_string(),
            cells: Cells::Text(vec![
                Some("2023-01-01".to_string()),
                Some("2023-01-02".to_string()),
                Some("2023-01-03".to_string()),
                Some("2023-01-04".to_string()),
                Some("2023-01-05".to_string()),
                Some("2023-01-06".to_string()),
                Some("2023-01-07".to_string()),
                Some("2023-01-08".to_string()),
            ]),
        },
        number_col(
            "price_eur_mwh",
            &[
                Some(1.0),
                Some(2.0),
                None,
                Some(4.0),
                Some(f64::NAN),
                Some(6.0),
                Some(f64::INFINITY),
                Some(8.0),
            ],
        ),
    ]);
    let prepared = prepare(&table, "price_eur_mwh", "datetime_utc", 1, 2023).unwrap();
    assert_eq!(
        column_values(&prepared.train, "price_eur_mwh"),
        vec![Some(2.0)]
    );
    assert_eq!(column_values(&prepared.train, "lag_1"), vec![Some(1.0)]);
    assert_eq!(prepared.test.height(), 0);
}

#[test]
fn a_table_that_cannot_be_prepared_is_refused() {
    let table = week_and_a_day();
    let rate = 0.01f64.to_bits();
    let run = |target: &str, date: &str, lags: usize| {
        train_eval_from_curated(&Machine, &table, target, date, lags, 2023, rate, 5)
            .err()
    };
    assert_eq!(run("price_eur_mwh", "date", 1), Some(Error::MissingColumn));
    assert_eq!(run("price", "datetime_utc", 1), Some(Error::MissingColumn));
    assert_eq!(run("datetime_utc", "datetime_utc", 1), Some(Error::NotNumeric));
    assert_eq!(run("price", "date", 1), Some(Error::MissingColumn));
    assert_eq!(
        prepare(&table, "datetime_utc", "datetime_utc", 1, 2023).err(),
        Some(Error::NotNumeric)
    );
    let clash = build(vec![
        text_col("datetime_utc", &["2023-01-01"]),
        number_col("price_eur_mwh", &[Some(1.0)]),
        number_col("lag_3", &[Some(1.0)]),
    ]);
    assert_eq!(
        prepare(&clash, "price_eur_mwh", "datetime_utc", 3, 2023).err(),
        Some(Error::DuplicateColumn)
    );
    assert!(prepare(&clash, "price_eur_mwh", "datetime_utc", 2, 2023).is_ok());
}

#[test]
fn without_lags_the_baseline_has_nothing_to_go_by() {
    let table = week_and_a_day();
    let rate = 0.01f64.to_bits();
    assert_eq!(
        train_eval_from_curated(&Machine, &table, "price_eur_mwh", "datetime_utc", 0, 2023, rate, 5).err(),
        Some(Error::MissingColumn)
    );
    let result =
        train_eval_from_curated(&Machine, &table, "price_eur_mwh", "datetime_utc", 0, 2024, rate, 5).unwrap();
    assert_eq!(result.train_n, 6);
    assert_eq!(result.test_n, 0);
    assert!(result.model.is_none());
    let own = build(vec![
        text_col("datetime_utc", &["2023-01-01", "2024-01-01"]),
        number_col("price_eur_mwh", &[Some(1.0), Some(2.0)]),
        number_col("lag_1", &[Some(0.0), Some(4.0)]),
    ]);
    assert_eq!(
        train_eval_from_curated(&Machine, &own, "price_eur_mwh", "datetime_utc", 0, 2023, rate, 5).err(),
        Some(Error::NoFeatures)
    );
    let result =
        train_eval_from_curated(&Machine, &own, "price_eur_mwh", "datetime_utc", 0, 2022, rate, 5).unwrap();
    assert_eq!(result.train_n, 0);
    assert_eq!(result.test_n, 1);
    assert_eq!(result.baseline_mae.map(f64::from_bits), Some(1.0));
    let texts = build(vec![
        text_col("datetime_utc", &["2023-01-01", "2024-01-01"]),
        number_col("price_eur_mwh", &[Some(1.0), Some(2.0)]),
        text_col("lag_1", &["a", "b"]),
    ]);
    assert_eq!(
        train_eval_from_curated(&Machine, &texts, "price_eur_mwh", "datetime_utc", 0, 2023, rate, 5).err(),
        Some(Error::NotNumeric)
    );
}

#[test]
fn the_features_are_the_lags_in_their_order() {
    assert_eq!(lag_column_names(0), Vec::<String>::new());
    assert_eq!(
        lag_column_names(3),
        name_list(&["lag_1", "lag_2", "lag_3"])
    );
    assert_eq!(lag_column_names(24).len(), 24);
    assert_eq!(lag_column_names(24)[23], "lag_24");
}

#[test]
fn a_learning_rate_below_zero_is_refused() {
    let table = build(vec![
        number_col("y", &[Some(2.0), Some(4.0), Some(7.0)]),
        number_col("x", &[Some(1.0), Some(2.0), Some(3.0)]),
        text_col("date", &["a", "b", "c"]),
    ]);
    for rate in [-0.01, -1.0, -5e-324, -1e300, f64::NEG_INFINITY] {
        for epochs in [0usize, 1, 10] {
            let refused =
                fit_linear_gd(&Machine, &table, "y", &name_list(&["x"]), rate.to_bits(), epochs)
                    .err();
            assert_eq!(refused, Some(Error::NegativeRate), "rate {rate}");
            assert_eq!(refused.unwrap().kind(), nexergy::error::ErrorKind::Config);
        }
    }
    let rate = (-0.5f64).to_bits();
    assert_eq!(
        fit_linear_gd(&Machine, &table, "y", &[], rate, 1).err(),
        Some(Error::NoFeatures)
    );
    assert_eq!(
        fit_linear_gd(&Machine, &table, "z", &name_list(&["x"]), rate, 1).err(),
        Some(Error::NegativeRate)
    );
    assert_eq!(
        fit_linear_gd(&Machine, &table, "y", &name_list(&["date"]), rate, 1).err(),
        Some(Error::NegativeRate)
    );
}

#[test]
fn a_learning_rate_that_is_not_below_zero_is_taken() {
    let table = build(vec![
        number_col("y", &[Some(2.0), Some(4.0), Some(7.0)]),
        number_col("x", &[Some(1.0), Some(2.0), Some(3.0)]),
    ]);
    for rate in [0.0, -0.0, 5e-324, 0.01, 1.0, 1e300, f64::INFINITY, f64::NAN, -f64::NAN] {
        let model = fit_linear_gd(&Machine, &table, "y", &name_list(&["x"]), rate.to_bits(), 2);
        assert!(model.is_ok(), "rate {rate}");
    }
    let model =
        fit_linear_gd(&Machine, &table, "y", &name_list(&["x"]), (-0.0f64).to_bits(), 5).unwrap();
    assert_eq!(floats(&model.weights), vec![0.0, 0.0]);
}

#[test]
fn the_pipeline_refuses_a_learning_rate_below_zero_at_once() {
    let rate = (-0.01f64).to_bits();
    let run = |table: &Table, target: &str, date: &str, lags: usize, cutoff: i32| {
        train_eval_from_curated(&Machine, table, target, date, lags, cutoff, rate, 5).err()
    };
    let table = week_and_a_day();
    assert_eq!(
        run(&table, "price_eur_mwh", "datetime_utc", 1, 2023),
        Some(Error::NegativeRate)
    );
    assert_eq!(
        run(&table, "price_eur_mwh", "datetime_utc", 1, 2030),
        Some(Error::NegativeRate)
    );
    assert_eq!(
        run(&table, "price_eur_mwh", "datetime_utc", 0, 2023),
        Some(Error::NegativeRate)
    );
    assert_eq!(run(&table, "price", "date", 1, 2023), Some(Error::NegativeRate));
    assert_eq!(
        run(&Table::new(), "price_eur_mwh", "datetime_utc", 1, 2023),
        Some(Error::NegativeRate)
    );
    let zero = train_eval_from_curated(
        &Machine,
        &table,
        "price_eur_mwh",
        "datetime_utc",
        1,
        2023,
        (-0.0f64).to_bits(),
        5,
    );
    assert!(zero.is_ok());
}

#[test]
fn rows_of_distinct_timestamps_may_stand_in_any_order() {
    let stamps = [
        "2023-01-01",
        "2023-01-02",
        "2023-01-03",
        "2023-01-04",
        "2023-01-05",
        "2024-01-01",
        "2024-01-02",
    ];
    let prices = [10.0, 12.0, 11.0, 13.0, 14.0, 15.0, 12.5];
    let table_in = |order: &[usize]| {
        build(vec![
            text_col(
                "datetime_utc",
                &order.iter().map(|i| stamps[*i]).collect::<Vec<_>>(),
            ),
            number_col(
                "price_eur_mwh",
                &order.iter().map(|i| Some(prices[*i])).collect::<Vec<_>>(),
            ),
        ])
    };
    let straight = table_in(&[0, 1, 2, 3, 4, 5, 6]);
    let expected = prepare(&straight, "price_eur_mwh", "datetime_utc", 2, 2023).unwrap();
    let rate = 0.05f64.to_bits();
    let scored = train_eval_from_curated(
        &Machine,
        &straight,
        "price_eur_mwh",
        "datetime_utc",
        2,
        2023,
        rate,
        30,
    )
    .unwrap();
    for order in [
        [6, 5, 4, 3, 2, 1, 0],
        [3, 0, 6, 2, 5, 1, 4],
        [1, 0, 3, 2, 5, 4, 6],
    ] {
        let mixed = table_in(&order);
        let prepared = prepare(&mixed, "price_eur_mwh", "datetime_utc", 2, 2023).unwrap();
        for name in ["price_eur_mwh", "lag_1", "lag_2"] {
            assert_eq!(
                column_values(&prepared.train, name),
                column_values(&expected.train, name)
            );
            assert_eq!(
                column_values(&prepared.test, name),
                column_values(&expected.test, name)
            );
        }
        let again = train_eval_from_curated(
            &Machine,
            &mixed,
            "price_eur_mwh",
            "datetime_utc",
            2,
            2023,
            rate,
            30,
        )
        .unwrap();
        assert_eq!(again.mae, scored.mae);
        assert_eq!(again.rmse, scored.rmse);
        assert_eq!(again.baseline_mae, scored.baseline_mae);
        assert_eq!(again.model.unwrap().weights, scored.model.clone().unwrap().weights);
    }
}
