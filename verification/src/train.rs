//! Fitting a linear model by batch gradient descent on standardised
//! features and a standardised target.

use vstd::prelude::*;
use crate::arith::{
    is_count,
    is_difference,
    is_function,
    is_product,
    is_quotient,
    is_square_root,
    is_sum,
    Arithmetic,
};
use crate::error::{Error, ErrorKind};
use crate::model::{
    columns_of_numbers,
    is_standardized,
    number_columns,
    training_columns,
    training_fault,
    LinearModel,
    TrainingColumns,
};
use crate::number::{
    bits_are_negative,
    deviation_or_one,
    is_negative,
    is_positive,
    lemma_kinds,
    positive_or_one,
    ONE,
    ZERO,
};
use crate::table::{names_view, Table};
use crate::view::{lemma_first_fault_is_schema, TableView};

verus! {

/// The number of cells of a column that hold a value.
pub open spec fn present_count(cells: Seq<Option<u64>>) -> nat
    decreases cells.len(),
{
    if cells.len() == 0 {
        0
    } else if cells.last() is Some {
        present_count(cells.drop_last()) + 1
    } else {
        present_count(cells.drop_last())
    }
}

/// `total` is the values of `cells` added up, one after the other in their
/// order, beginning with zero; nulls are passed over.
pub open spec fn is_total<A: Arithmetic>(arith: &A, cells: Seq<Option<u64>>, total: u64) -> bool
    decreases cells.len(),
{
    if cells.len() == 0 {
        total == ZERO
    } else if cells.last() is Some {
        exists|before: u64|
            is_total(arith, cells.drop_last(), before) && #[trigger] is_sum(
                arith,
                before,
                cells.last()->0,
                total,
            )
    } else {
        is_total(arith, cells.drop_last(), total)
    }
}

/// `mean` is the mean of the values of `cells`: their total divided by their
/// number, and zero where there is none.
pub open spec fn is_mean<A: Arithmetic>(arith: &A, cells: Seq<Option<u64>>, mean: u64) -> bool {
    if present_count(cells) > 0 {
        exists|total: u64, count: u64|
            is_total(arith, cells, total) && is_count(arith, present_count(cells) as usize, count)
                && #[trigger] is_quotient(arith, total, count, mean)
    } else {
        mean == ZERO
    }
}

/// `r` is `c` and, added to it, `a` times `b`.
pub open spec fn is_fused<A: Arithmetic>(arith: &A, a: u64, b: u64, c: u64, r: u64) -> bool {
    exists|p: u64| #[trigger] is_product(arith, a, b, p) && is_sum(arith, c, p, r)
}

/// `r` is `c` and, added to it, the square of `a` less `mean`.
pub open spec fn is_square_added<A: Arithmetic>(arith: &A, a: u64, mean: u64, c: u64, r: u64) -> bool {
    exists|d: u64| #[trigger] is_difference(arith, a, mean, d) && is_fused(arith, d, d, c, r)
}

/// `total` is the squared distances of the values of `cells` from `mean`
/// added up, one after the other in their order, beginning with zero.
pub open spec fn is_squares_total<A: Arithmetic>(
    arith: &A,
    cells: Seq<Option<u64>>,
    mean: u64,
    total: u64,
) -> bool
    decreases cells.len(),
{
    if cells.len() == 0 {
        total == ZERO
    } else if cells.last() is Some {
        exists|before: u64|
            is_squares_total(arith, cells.drop_last(), mean, before) && #[trigger] is_square_added(
                arith,
                cells.last()->0,
                mean,
                before,
                total,
            )
    } else {
        is_squares_total(arith, cells.drop_last(), mean, total)
    }
}

/// `std` is the population standard deviation of the values of `cells`
/// about `mean`: the square root of the total of the squared distances
/// divided by the number of values. Where there are fewer than two values,
/// and where that root is not greater than zero, it is one.
pub open spec fn is_deviation<A: Arithmetic>(
    arith: &A,
    cells: Seq<Option<u64>>,
    mean: u64,
    std: u64,
) -> bool {
    if present_count(cells) > 1 {
        exists|total: u64, count: u64, variance: u64, root: u64|
            is_squares_total(arith, cells, mean, total) && is_count(
                arith,
                present_count(cells) as usize,
                count,
            ) && #[trigger] is_quotient(arith, total, count, variance) && #[trigger] is_square_root(
                arith,
                variance,
                root,
            ) && std == positive_or_one(root)
    } else {
        std == ONE
    }
}

/// What the rows are standardised with.
pub struct Scaling {
    pub target_mean: u64,
    pub target_std: u64,
    pub feature_means: Seq<u64>,
    pub feature_stds: Seq<u64>,
}

/// `scaling` holds the mean and the deviation of the target and of each
/// feature.
pub open spec fn is_scaling<A: Arithmetic>(
    arith: &A,
    target: Seq<Option<u64>>,
    features: Seq<Seq<Option<u64>>>,
    scaling: Scaling,
) -> bool {
    &&& is_mean(arith, target, scaling.target_mean)
    &&& is_deviation(arith, target, scaling.target_mean, scaling.target_std)
    &&& scaling.feature_means.len() == features.len()
    &&& scaling.feature_stds.len() == features.len()
    &&& forall|j: int|
        0 <= j < features.len() ==> is_mean(arith, features[j], #[trigger] scaling.feature_means[j])
    &&& forall|j: int|
        0 <= j < features.len() ==> is_deviation(
            arith,
            features[j],
            scaling.feature_means[j],
            #[trigger] scaling.feature_stds[j],
        )
}

/// The value of a cell, a null counting as zero.
pub open spec fn raw(cell: Option<u64>) -> u64 {
    match cell {
        Some(bits) => bits,
        None => ZERO,
    }
}

/// `xs` holds the features of row `i`, each standardised.
pub open spec fn is_feature_values<A: Arithmetic>(
    arith: &A,
    features: Seq<Seq<Option<u64>>>,
    scaling: Scaling,
    i: int,
    xs: Seq<u64>,
) -> bool {
    &&& xs.len() == features.len()
    &&& forall|j: int|
        0 <= j < features.len() ==> is_standardized(
            arith,
            raw(features[j][i]),
            scaling.feature_means[j],
            scaling.feature_stds[j],
            #[trigger] xs[j],
        )
}

/// `z` is the target of a row, standardised; a null target counts as zero.
pub open spec fn is_target_value<A: Arithmetic>(
    arith: &A,
    cell: Option<u64>,
    scaling: Scaling,
    z: u64,
) -> bool {
    match cell {
        Some(bits) => is_standardized(arith, bits, scaling.target_mean, scaling.target_std, z),
        None => z == ZERO,
    }
}

/// `acc` is the first `k` of `xs`, each multiplied by its weight, added up
/// one after the other in their order, beginning with zero. The weight of
/// `xs[j]` is `weights[j + 1]`.
pub open spec fn is_dot<A: Arithmetic>(
    arith: &A,
    weights: Seq<u64>,
    xs: Seq<u64>,
    k: nat,
    acc: u64,
) -> bool
    decreases k,
{
    if k == 0 {
        acc == ZERO
    } else {
        exists|before: u64|
            is_dot(arith, weights, xs, (k - 1) as nat, before) && #[trigger] is_fused(
                arith,
                weights[k as int],
                xs[k - 1],
                before,
                acc,
            )
    }
}

/// `err` is what the model of `weights` is off by on a row: the bias and,
/// added to it, the weighted features, less the target `z`.
pub open spec fn is_residual<A: Arithmetic>(
    arith: &A,
    weights: Seq<u64>,
    xs: Seq<u64>,
    z: u64,
    err: u64,
) -> bool {
    exists|dot: u64, guess: u64|
        is_dot(arith, weights, xs, xs.len(), dot) && #[trigger] is_sum(arith, weights[0], dot, guess)
            && #[trigger] is_difference(arith, guess, z, err)
}

/// `after` is the gradient `before` with one row added: the residual to the
/// bias's part, and the residual times each feature to that feature's part.
pub open spec fn is_accumulated<A: Arithmetic>(
    arith: &A,
    before: Seq<u64>,
    xs: Seq<u64>,
    err: u64,
    after: Seq<u64>,
) -> bool {
    &&& after.len() == xs.len() + 1
    &&& is_sum(arith, before[0], err, after[0])
    &&& forall|k: int|
        1 <= k <= xs.len() ==> is_fused(arith, err, xs[k - 1], before[k], #[trigger] after[k])
}

/// As many zeros as `n`.
pub open spec fn zeros(n: nat) -> Seq<u64> {
    Seq::new(n, |i: int| ZERO)
}

/// `gradient` is the sum, over the first `rows` rows in their order, of what
/// each row adds to the gradient of the squared error at `weights`.
pub open spec fn is_gradient<A: Arithmetic>(
    arith: &A,
    target: Seq<Option<u64>>,
    features: Seq<Seq<Option<u64>>>,
    scaling: Scaling,
    weights: Seq<u64>,
    rows: nat,
    gradient: Seq<u64>,
) -> bool
    decreases rows,
{
    if rows == 0 {
        gradient == zeros(features.len() + 1)
    } else {
        exists|before: Seq<u64>, xs: Seq<u64>, z: u64, err: u64|
            is_gradient(arith, target, features, scaling, weights, (rows - 1) as nat, before)
                && is_feature_values(arith, features, scaling, rows - 1, xs) && is_target_value(
                arith,
                target[rows - 1],
                scaling,
                z,
            ) && #[trigger] is_residual(arith, weights, xs, z, err) && #[trigger] is_accumulated(
                arith,
                before,
                xs,
                err,
                gradient,
            )
    }
}

/// `r` is the weight `w` after a step: `w` less the learning rate times the
/// gradient `g` times `scale`.
pub open spec fn is_moved<A: Arithmetic>(arith: &A, rate: u64, g: u64, scale: u64, w: u64, r: u64) -> bool {
    exists|a: u64, b: u64| #[trigger]
        is_product(arith, rate, g, a) && #[trigger] is_product(arith, a, scale, b) && is_difference(
            arith,
            w,
            b,
            r,
        )
}

/// `after` is `weights` after one step against `gradient`, which is averaged
/// over `n` rows by multiplying with one divided by `n`.
pub open spec fn is_step<A: Arithmetic>(
    arith: &A,
    weights: Seq<u64>,
    gradient: Seq<u64>,
    rate: u64,
    n: usize,
    after: Seq<u64>,
) -> bool {
    exists|count: u64, scale: u64| #[trigger]
        is_count(arith, n, count) && #[trigger] is_quotient(arith, ONE, count, scale) && after.len()
            == weights.len() && forall|j: int|
            0 <= j < weights.len() ==> is_moved(
                arith,
                rate,
                gradient[j],
                scale,
                weights[j],
                #[trigger] after[j],
            )
}

/// `weights` is what `epochs` steps of gradient descent lead to from
/// weights that are all zero, each step against the gradient over all rows.
pub open spec fn is_trained<A: Arithmetic>(
    arith: &A,
    target: Seq<Option<u64>>,
    features: Seq<Seq<Option<u64>>>,
    scaling: Scaling,
    rate: u64,
    epochs: nat,
    weights: Seq<u64>,
) -> bool
    decreases epochs,
{
    if epochs == 0 {
        weights == zeros(features.len() + 1)
    } else {
        exists|before: Seq<u64>, gradient: Seq<u64>|
            is_trained(arith, target, features, scaling, rate, (epochs - 1) as nat, before)
                && #[trigger] is_gradient(
                arith,
                target,
                features,
                scaling,
                before,
                target.len(),
                gradient,
            ) && #[trigger] is_step(arith, before, gradient, rate, target.len() as usize, weights)
    }
}

/// What `model` is standardised with.
pub open spec fn scaling_of(model: &LinearModel) -> Scaling {
    Scaling {
        target_mean: model.target_mean,
        target_std: model.target_std,
        feature_means: model.feature_means@,
        feature_stds: model.feature_stds@,
    }
}

/// `model` is fitted to the column `target` and the columns `features` of
/// `t`: it bears the names of the features, holds the mean and the deviation
/// of the target and of each feature, and the weights that `epochs` steps at
/// the learning rate `rate` lead to.
pub open spec fn is_fitted<A: Arithmetic>(
    arith: &A,
    t: TableView,
    target: Seq<char>,
    features: Seq<Seq<char>>,
    rate: u64,
    epochs: nat,
    model: &LinearModel,
) -> bool {
    let cells = t.column(target).cells->Number_0;
    let columns = number_columns(t, features);
    &&& names_view(model.feature_names@) == features
    &&& is_scaling(arith, cells, columns, scaling_of(model))
    &&& is_trained(arith, cells, columns, scaling_of(model), rate, epochs, model.weights@)
}

/// A deviation is always greater than zero: where the root of the variance
/// is zero, as it is for a column of one value repeated, or negative, or no
/// number at all, the deviation is one.
pub proof fn lemma_deviation_is_positive<A: Arithmetic>(
    arith: &A,
    cells: Seq<Option<u64>>,
    mean: u64,
    std: u64,
)
    requires
        is_deviation(arith, cells, mean, std),
    ensures
        is_positive(std),
        present_count(cells) <= 1 ==> std == ONE,
{
    lemma_kinds(std);
    if present_count(cells) > 1 {
        let (total, count, variance, root) = choose|
            total: u64,
            count: u64,
            variance: u64,
            root: u64,
        |
            is_squares_total(arith, cells, mean, total) && is_count(
                arith,
                present_count(cells) as usize,
                count,
            ) && #[trigger] is_quotient(arith, total, count, variance) && #[trigger] is_square_root(
                arith,
                variance,
                root,
            ) && std == positive_or_one(root);
        lemma_kinds(root);
    }
}

/// With arithmetic that is a function, the values of a column have one
/// total.
proof fn lemma_total_unique<A: Arithmetic>(arith: &A, cells: Seq<Option<u64>>, a: u64, b: u64)
    requires
        is_function(arith),
        is_total(arith, cells, a),
        is_total(arith, cells, b),
    ensures
        a == b,
    decreases cells.len(),
{
    if cells.len() > 0 {
        if cells.last() is Some {
            let before_a = choose|before: u64|
                is_total(arith, cells.drop_last(), before) && #[trigger] is_sum(
                    arith,
                    before,
                    cells.last()->0,
                    a,
                );
            let before_b = choose|before: u64|
                is_total(arith, cells.drop_last(), before) && #[trigger] is_sum(
                    arith,
                    before,
                    cells.last()->0,
                    b,
                );
            lemma_total_unique(arith, cells.drop_last(), before_a, before_b);
        } else {
            lemma_total_unique(arith, cells.drop_last(), a, b);
        }
    }
}

/// With arithmetic that is a function, a column has one mean.
proof fn lemma_mean_unique<A: Arithmetic>(arith: &A, cells: Seq<Option<u64>>, a: u64, b: u64)
    requires
        is_function(arith),
        is_mean(arith, cells, a),
        is_mean(arith, cells, b),
    ensures
        a == b,
{
    if present_count(cells) > 0 {
        let (total_a, count_a) = choose|total: u64, count: u64|
            is_total(arith, cells, total) && is_count(arith, present_count(cells) as usize, count)
                && #[trigger] is_quotient(arith, total, count, a);
        let (total_b, count_b) = choose|total: u64, count: u64|
            is_total(arith, cells, total) && is_count(arith, present_count(cells) as usize, count)
                && #[trigger] is_quotient(arith, total, count, b);
        lemma_total_unique(arith, cells, total_a, total_b);
    }
}

/// With arithmetic that is a function, the squared distances of a column
/// from a mean have one total.
proof fn lemma_squares_total_unique<A: Arithmetic>(
    arith: &A,
    cells: Seq<Option<u64>>,
    mean: u64,
    a: u64,
    b: u64,
)
    requires
        is_function(arith),
        is_squares_total(arith, cells, mean, a),
        is_squares_total(arith, cells, mean, b),
    ensures
        a == b,
    decreases cells.len(),
{
    if cells.len() > 0 {
        if cells.last() is Some {
            let v = cells.last()->0;
            let before_a = choose|before: u64|
                is_squares_total(arith, cells.drop_last(), mean, before)
                    && #[trigger] is_square_added(arith, v, mean, before, a);
            let before_b = choose|before: u64|
                is_squares_total(arith, cells.drop_last(), mean, before)
                    && #[trigger] is_square_added(arith, v, mean, before, b);
            lemma_squares_total_unique(arith, cells.drop_last(), mean, before_a, before_b);
        } else {
            lemma_squares_total_unique(arith, cells.drop_last(), mean, a, b);
        }
    }
}

/// With arithmetic that is a function, a column has one deviation.
proof fn lemma_deviation_unique<A: Arithmetic>(
    arith: &A,
    cells: Seq<Option<u64>>,
    mean: u64,
    a: u64,
    b: u64,
)
    requires
        is_function(arith),
        is_deviation(arith, cells, mean, a),
        is_deviation(arith, cells, mean, b),
    ensures
        a == b,
{
    if present_count(cells) > 1 {
        let (total_a, count_a, variance_a, root_a) = choose|
            total: u64,
            count: u64,
            variance: u64,
            root: u64,
        |
            is_squares_total(arith, cells, mean, total) && is_count(
                arith,
                present_count(cells) as usize,
                count,
            ) && #[trigger] is_quotient(arith, total, count, variance) && #[trigger] is_square_root(
                arith,
                variance,
                root,
            ) && a == positive_or_one(root);
        let (total_b, count_b, variance_b, root_b) = choose|
            total: u64,
            count: u64,
            variance: u64,
            root: u64,
        |
            is_squares_total(arith, cells, mean, total) && is_count(
                arith,
                present_count(cells) as usize,
                count,
            ) && #[trigger] is_quotient(arith, total, count, variance) && #[trigger] is_square_root(
                arith,
                variance,
                root,
            ) && b == positive_or_one(root);
        lemma_squares_total_unique(arith, cells, mean, total_a, total_b);
    }
}

/// With arithmetic that is a function, the columns have one scaling.
proof fn lemma_scaling_unique<A: Arithmetic>(
    arith: &A,
    target: Seq<Option<u64>>,
    features: Seq<Seq<Option<u64>>>,
    a: Scaling,
    b: Scaling,
)
    requires
        is_function(arith),
        is_scaling(arith, target, features, a),
        is_scaling(arith, target, features, b),
    ensures
        a == b,
{
    lemma_mean_unique(arith, target, a.target_mean, b.target_mean);
    lemma_deviation_unique(arith, target, a.target_mean, a.target_std, b.target_std);
    assert forall|j: int| 0 <= j < features.len() implies a.feature_means[j]
        == b.feature_means[j] && a.feature_stds[j] == b.feature_stds[j] by {
        lemma_mean_unique(arith, features[j], a.feature_means[j], b.feature_means[j]);
        lemma_deviation_unique(
            arith,
            features[j],
            a.feature_means[j],
            a.feature_stds[j],
            b.feature_stds[j],
        );
    }
    assert(a.feature_means =~= b.feature_means);
    assert(a.feature_stds =~= b.feature_stds);
}

/// With arithmetic that is a function, the weighted features of a row have
/// one sum.
proof fn lemma_dot_unique<A: Arithmetic>(
    arith: &A,
    weights: Seq<u64>,
    xs: Seq<u64>,
    k: nat,
    a: u64,
    b: u64,
)
    requires
        is_function(arith),
        is_dot(arith, weights, xs, k, a),
        is_dot(arith, weights, xs, k, b),
    ensures
        a == b,
    decreases k,
{
    if k > 0 {
        let before_a = choose|before: u64|
            is_dot(arith, weights, xs, (k - 1) as nat, before) && #[trigger] is_fused(
                arith,
                weights[k as int],
                xs[k - 1],
                before,
                a,
            );
        let before_b = choose|before: u64|
            is_dot(arith, weights, xs, (k - 1) as nat, before) && #[trigger] is_fused(
                arith,
                weights[k as int],
                xs[k - 1],
                before,
                b,
            );
        lemma_dot_unique(arith, weights, xs, (k - 1) as nat, before_a, before_b);
    }
}

/// With arithmetic that is a function, a row has one residual.
proof fn lemma_residual_unique<A: Arithmetic>(
    arith: &A,
    weights: Seq<u64>,
    xs: Seq<u64>,
    z: u64,
    a: u64,
    b: u64,
)
    requires
        is_function(arith),
        is_residual(arith, weights, xs, z, a),
        is_residual(arith, weights, xs, z, b),
    ensures
        a == b,
{
    let (dot_a, guess_a) = choose|dot: u64, guess: u64|
        is_dot(arith, weights, xs, xs.len(), dot) && #[trigger] is_sum(arith, weights[0], dot, guess)
            && #[trigger] is_difference(arith, guess, z, a);
    let (dot_b, guess_b) = choose|dot: u64, guess: u64|
        is_dot(arith, weights, xs, xs.len(), dot) && #[trigger] is_sum(arith, weights[0], dot, guess)
            && #[trigger] is_difference(arith, guess, z, b);
    lemma_dot_unique(arith, weights, xs, xs.len(), dot_a, dot_b);
}

/// With arithmetic that is a function, the rows have one gradient.
proof fn lemma_gradient_unique<A: Arithmetic>(
    arith: &A,
    target: Seq<Option<u64>>,
    features: Seq<Seq<Option<u64>>>,
    scaling: Scaling,
    weights: Seq<u64>,
    rows: nat,
    a: Seq<u64>,
    b: Seq<u64>,
)
    requires
        is_function(arith),
        is_gradient(arith, target, features, scaling, weights, rows, a),
        is_gradient(arith, target, features, scaling, weights, rows, b),
    ensures
        a == b,
    decreases rows,
{
    if rows > 0 {
        let (before_a, xs_a, z_a, err_a) = choose|
            before: Seq<u64>,
            xs: Seq<u64>,
            z: u64,
            err: u64,
        |
            is_gradient(arith, target, features, scaling, weights, (rows - 1) as nat, before)
                && is_feature_values(arith, features, scaling, rows - 1, xs) && is_target_value(
                arith,
                target[rows - 1],
                scaling,
                z,
            ) && #[trigger] is_residual(arith, weights, xs, z, err) && #[trigger] is_accumulated(
                arith,
                before,
                xs,
                err,
                a,
            );
        let (before_b, xs_b, z_b, err_b) = choose|
            before: Seq<u64>,
            xs: Seq<u64>,
            z: u64,
            err: u64,
        |
            is_gradient(arith, target, features, scaling, weights, (rows - 1) as nat, before)
                && is_feature_values(arith, features, scaling, rows - 1, xs) && is_target_value(
                arith,
                target[rows - 1],
                scaling,
                z,
            ) && #[trigger] is_residual(arith, weights, xs, z, err) && #[trigger] is_accumulated(
                arith,
                before,
                xs,
                err,
                b,
            );
        lemma_gradient_unique(
            arith,
            target,
            features,
            scaling,
            weights,
            (rows - 1) as nat,
            before_a,
            before_b,
        );
        assert(xs_a =~= xs_b);
        lemma_residual_unique(arith, weights, xs_a, z_a, err_a, err_b);
    }
}

/// With arithmetic that is a function, training leads to one list of
/// weights.
proof fn lemma_trained_unique<A: Arithmetic>(
    arith: &A,
    target: Seq<Option<u64>>,
    features: Seq<Seq<Option<u64>>>,
    scaling: Scaling,
    rate: u64,
    epochs: nat,
    a: Seq<u64>,
    b: Seq<u64>,
)
    requires
        is_function(arith),
        is_trained(arith, target, features, scaling, rate, epochs, a),
        is_trained(arith, target, features, scaling, rate, epochs, b),
    ensures
        a == b,
    decreases epochs,
{
    if epochs > 0 {
        let (before_a, gradient_a) = choose|before: Seq<u64>, gradient: Seq<u64>|
            is_trained(arith, target, features, scaling, rate, (epochs - 1) as nat, before)
                && #[trigger] is_gradient(
                arith,
                target,
                features,
                scaling,
                before,
                target.len(),
                gradient,
            ) && #[trigger] is_step(arith, before, gradient, rate, target.len() as usize, a);
        let (before_b, gradient_b) = choose|before: Seq<u64>, gradient: Seq<u64>|
            is_trained(arith, target, features, scaling, rate, (epochs - 1) as nat, before)
                && #[trigger] is_gradient(
                arith,
                target,
                features,
                scaling,
                before,
                target.len(),
                gradient,
            ) && #[trigger] is_step(arith, before, gradient, rate, target.len() as usize, b);
        lemma_trained_unique(
            arith,
            target,
            features,
            scaling,
            rate,
            (epochs - 1) as nat,
            before_a,
            before_b,
        );
        lemma_gradient_unique(
            arith,
            target,
            features,
            scaling,
            before_a,
            target.len(),
            gradient_a,
            gradient_b,
        );
    }
}

/// A fit depends on nothing but the table, the names, the learning rate and
/// the number of epochs: with arithmetic that is a function, two models
/// fitted to the same hold the same numbers.
pub proof fn lemma_fitted_unique<A: Arithmetic>(
    arith: &A,
    t: TableView,
    target: Seq<char>,
    features: Seq<Seq<char>>,
    rate: u64,
    epochs: nat,
    first: &LinearModel,
    second: &LinearModel,
)
    requires
        is_function(arith),
        is_fitted(arith, t, target, features, rate, epochs, first),
        is_fitted(arith, t, target, features, rate, epochs, second),
    ensures
        names_view(first.feature_names@) == names_view(second.feature_names@),
        first.weights@ == second.weights@,
        first.feature_means@ == second.feature_means@,
        first.feature_stds@ == second.feature_stds@,
        first.target_mean == second.target_mean,
        first.target_std == second.target_std,
{
    let cells = t.column(target).cells->Number_0;
    let columns = number_columns(t, features);
    lemma_scaling_unique(arith, cells, columns, scaling_of(first), scaling_of(second));
    lemma_trained_unique(
        arith,
        cells,
        columns,
        scaling_of(first),
        rate,
        epochs,
        first.weights@,
        second.weights@,
    );
}

/// The mean and the standard deviation of the values of `cells`.
fn column_statistics<A: Arithmetic>(arith: &A, cells: &Vec<Option<u64>>) -> (stats: (u64, u64))
    ensures
        is_mean(arith, cells@, stats.0),
        is_deviation(arith, cells@, stats.0, stats.1),
        is_positive(stats.1),
{
    let mut total: u64 = ZERO;
    let mut count: usize = 0;
    let mut i: usize = 0;
    while i < cells.len()
        invariant
            i <= cells.len(),
            count == present_count(cells@.take(i as int)),
            count <= i,
            is_total(arith, cells@.take(i as int), total),
        decreases cells.len() - i,
    {
        proof {
            assert(cells@.take(i + 1).drop_last() =~= cells@.take(i as int));
        }
        match cells[i] {
            Some(bits) => {
                let next = arith.sum(total, bits);
                proof {
                    assert(is_sum(arith, total, cells@.take(i + 1).last()->0, next));
                }
                total = next;
                count += 1;
            },
            None => {},
        }
        i += 1;
    }
    proof {
        assert(cells@.take(cells.len() as int) =~= cells@);
    }
    let mean = if count > 0 {
        let size = arith.from_count(count);
        let mean = arith.quotient(total, size);
        proof {
            assert(is_quotient(arith, total, size, mean));
        }
        mean
    } else {
        ZERO
    };
    let mut squares: u64 = ZERO;
    let mut i: usize = 0;
    while i < cells.len()
        invariant
            i <= cells.len(),
            is_squares_total(arith, cells@.take(i as int), mean, squares),
        decreases cells.len() - i,
    {
        proof {
            assert(cells@.take(i + 1).drop_last() =~= cells@.take(i as int));
        }
        match cells[i] {
            Some(bits) => {
                let d = arith.difference(bits, mean);
                let square = arith.product(d, d);
                let next = arith.sum(squares, square);
                proof {
                    assert(is_product(arith, d, d, square));
                    assert(is_fused(arith, d, d, squares, next));
                    assert(is_difference(arith, bits, mean, d));
                    assert(is_square_added(arith, cells@.take(i + 1).last()->0, mean, squares, next));
                }
                squares = next;
            },
            None => {},
        }
        i += 1;
    }
    proof {
        assert(cells@.take(cells.len() as int) =~= cells@);
    }
    let std = if count > 1 {
        let size = arith.from_count(count);
        let variance = arith.quotient(squares, size);
        let root = arith.square_root(variance);
        proof {
            assert(is_quotient(arith, squares, size, variance));
            assert(is_square_root(arith, variance, root));
        }
        deviation_or_one(root)
    } else {
        proof {
            crate::number::lemma_kinds(ONE);
        }
        ONE
    };
    (mean, std)
}

/// The features of row `i`, each standardised.
fn standardized_row<A: Arithmetic>(
    arith: &A,
    columns: &TrainingColumns,
    means: &Vec<u64>,
    stds: &Vec<u64>,
    i: usize,
    Ghost(scaling): Ghost<Scaling>,
) -> (xs: Vec<u64>)
    requires
        columns.well_formed(),
        i < columns.target@.len(),
        means@ == scaling.feature_means,
        stds@ == scaling.feature_stds,
        means@.len() == columns.features@.len(),
        stds@.len() == columns.features@.len(),
    ensures
        is_feature_values(arith, columns_of_numbers(columns.features@), scaling, i as int, xs@),
{
    let ghost features = columns_of_numbers(columns.features@);
    let mut xs: Vec<u64> = Vec::new();
    let mut j: usize = 0;
    while j < columns.features.len()
        invariant
            j <= columns.features@.len(),
            columns.well_formed(),
            i < columns.target@.len(),
            features == columns_of_numbers(columns.features@),
            means@ == scaling.feature_means,
            stds@ == scaling.feature_stds,
            means@.len() == columns.features@.len(),
            stds@.len() == columns.features@.len(),
            xs@.len() == j,
            forall|k: int|
                0 <= k < j ==> is_standardized(
                    arith,
                    raw(features[k][i as int]),
                    scaling.feature_means[k],
                    scaling.feature_stds[k],
                    #[trigger] xs@[k],
                ),
        decreases columns.features.len() - j,
    {
        proof {
            assert(columns.features@[j as int]@.len() == columns.target@.len());
            assert(features[j as int] == columns.features@[j as int]@);
        }
        let value = match columns.features[j][i] {
            Some(bits) => bits,
            None => ZERO,
        };
        let d = arith.difference(value, means[j]);
        let z = arith.quotient(d, stds[j]);
        proof {
            assert(is_difference(arith, value, means@[j as int], d));
            assert(is_standardized(arith, value, means@[j as int], stds@[j as int], z));
        }
        xs.push(z);
        j += 1;
    }
    xs
}

/// What the model of `weights` is off by on a row of features `xs` and
/// target `z`.
fn residual<A: Arithmetic>(arith: &A, weights: &Vec<u64>, xs: &Vec<u64>, z: u64) -> (err: u64)
    requires
        weights@.len() == xs@.len() + 1,
    ensures
        is_residual(arith, weights@, xs@, z, err),
{
    let mut dot: u64 = ZERO;
    let mut j: usize = 0;
    while j < xs.len()
        invariant
            j <= xs@.len(),
            weights@.len() == xs@.len() + 1,
            is_dot(arith, weights@, xs@, j as nat, dot),
        decreases xs.len() - j,
    {
        let p = arith.product(weights[j + 1], xs[j]);
        let next = arith.sum(dot, p);
        proof {
            assert(is_product(arith, weights@[j + 1], xs@[j as int], p));
            assert(is_fused(arith, weights@[j + 1], xs@[j as int], dot, next));
            assert(is_dot(arith, weights@, xs@, ((j + 1) - 1) as nat, dot));
            assert(is_dot(arith, weights@, xs@, (j + 1) as nat, next));
        }
        dot = next;
        j += 1;
    }
    let guess = arith.sum(weights[0], dot);
    let err = arith.difference(guess, z);
    proof {
        assert(is_sum(arith, weights@[0], dot, guess));
        assert(is_difference(arith, guess, z, err));
    }
    err
}

/// The gradient `before` with one row added.
fn accumulate<A: Arithmetic>(arith: &A, before: &Vec<u64>, xs: &Vec<u64>, err: u64) -> (after: Vec<
    u64,
>)
    requires
        before@.len() == xs@.len() + 1,
    ensures
        is_accumulated(arith, before@, xs@, err, after@),
{
    let mut after: Vec<u64> = Vec::new();
    after.push(arith.sum(before[0], err));
    let mut k: usize = 1;
    while k < before.len()
        invariant
            1 <= k <= before@.len(),
            before@.len() == xs@.len() + 1,
            after@.len() == k,
            is_sum(arith, before@[0], err, after@[0]),
            forall|m: int|
                1 <= m < k ==> is_fused(arith, err, xs@[m - 1], before@[m], #[trigger] after@[m]),
        decreases before.len() - k,
    {
        let p = arith.product(err, xs[k - 1]);
        let part = arith.sum(before[k], p);
        proof {
            assert(is_product(arith, err, xs@[k - 1], p));
            assert(is_fused(arith, err, xs@[k - 1], before@[k as int], part));
        }
        after.push(part);
        k += 1;
    }
    after
}

/// As many zeros as `n`.
fn zero_weights(n: usize) -> (w: Vec<u64>)
    ensures
        w@ == zeros(n as nat),
{
    let mut w: Vec<u64> = Vec::new();
    let mut i: usize = 0;
    while i < n
        invariant
            i <= n,
            w@.len() == i,
            forall|k: int| 0 <= k < i ==> w@[k] == ZERO,
        decreases n - i,
    {
        w.push(ZERO);
        i += 1;
    }
    assert(w@ =~= zeros(n as nat));
    w
}

/// The gradient of the squared error at `weights`, summed over all rows.
fn gradient_of<A: Arithmetic>(
    arith: &A,
    columns: &TrainingColumns,
    target_mean: u64,
    target_std: u64,
    means: &Vec<u64>,
    stds: &Vec<u64>,
    weights: &Vec<u64>,
    Ghost(scaling): Ghost<Scaling>,
) -> (gradient: Vec<u64>)
    requires
        columns.well_formed(),
        scaling == (Scaling {
            target_mean,
            target_std,
            feature_means: means@,
            feature_stds: stds@,
        }),
        means@.len() == columns.features@.len(),
        stds@.len() == columns.features@.len(),
        weights@.len() == columns.features@.len() + 1,
    ensures
        gradient@.len() == columns.features@.len() + 1,
        is_gradient(
            arith,
            columns.target@,
            columns_of_numbers(columns.features@),
            scaling,
            weights@,
            columns.target@.len(),
            gradient@,
        ),
{
    let ghost features = columns_of_numbers(columns.features@);
    let mut gradient = zero_weights(weights.len());
    let mut i: usize = 0;
    while i < columns.target.len()
        invariant
            i <= columns.target@.len(),
            columns.well_formed(),
            features == columns_of_numbers(columns.features@),
            scaling == (Scaling {
                target_mean,
                target_std,
                feature_means: means@,
                feature_stds: stds@,
            }),
            means@.len() == columns.features@.len(),
            stds@.len() == columns.features@.len(),
            weights@.len() == columns.features@.len() + 1,
            gradient@.len() == columns.features@.len() + 1,
            is_gradient(arith, columns.target@, features, scaling, weights@, i as nat, gradient@),
        decreases columns.target.len() - i,
    {
        let xs = standardized_row(arith, columns, means, stds, i, Ghost(scaling));
        let z = match columns.target[i] {
            Some(bits) => {
                let d = arith.difference(bits, target_mean);
                let z = arith.quotient(d, target_std);
                proof {
                    assert(is_difference(arith, bits, target_mean, d));
                    assert(is_standardized(arith, bits, target_mean, target_std, z));
                }
                z
            },
            None => ZERO,
        };
        proof {
            assert(is_target_value(arith, columns.target@[i as int], scaling, z));
        }
        let err = residual(arith, weights, &xs, z);
        let next = accumulate(arith, &gradient, &xs, err);
        proof {
            assert(is_residual(arith, weights@, xs@, z, err) && is_accumulated(
                arith,
                gradient@,
                xs@,
                err,
                next@,
            ));
        }
        gradient = next;
        i += 1;
    }
    gradient
}

/// `weights` after one step against `gradient`.
fn step<A: Arithmetic>(arith: &A, weights: &Vec<u64>, gradient: &Vec<u64>, rate: u64, n: usize) -> (after:
    Vec<u64>)
    requires
        gradient@.len() == weights@.len(),
    ensures
        is_step(arith, weights@, gradient@, rate, n, after@),
{
    let count = arith.from_count(n);
    let scale = arith.quotient(ONE, count);
    let mut after: Vec<u64> = Vec::new();
    let mut j: usize = 0;
    while j < weights.len()
        invariant
            j <= weights@.len(),
            gradient@.len() == weights@.len(),
            after@.len() == j,
            forall|k: int|
                0 <= k < j ==> is_moved(
                    arith,
                    rate,
                    gradient@[k],
                    scale,
                    weights@[k],
                    #[trigger] after@[k],
                ),
        decreases weights.len() - j,
    {
        let a = arith.product(rate, gradient[j]);
        let b = arith.product(a, scale);
        let moved = arith.difference(weights[j], b);
        proof {
            assert(is_product(arith, rate, gradient@[j as int], a));
            assert(is_product(arith, a, scale, b));
            assert(is_moved(arith, rate, gradient@[j as int], scale, weights@[j as int], moved));
        }
        after.push(moved);
        j += 1;
    }
    proof {
        assert(is_count(arith, n, count));
        assert(is_quotient(arith, ONE, count, scale));
    }
    after
}

/// Why a model cannot be fitted to `t` at the learning rate `rate`, if
/// anything: no feature is named, the rate is below zero, the target is
/// missing or holds text, or one of the features is or does. What comes
/// first in this list decides.
pub open spec fn fit_fault(
    t: TableView,
    target: Seq<char>,
    features: Seq<Seq<char>>,
    rate: u64,
) -> Option<Error> {
    if features.len() == 0 {
        Some(Error::NoFeatures)
    } else if is_negative(rate) {
        Some(Error::NegativeRate)
    } else {
        training_fault(t, target, features)
    }
}

/// Fits a linear model to the rows of `table`: the target `target_col` as a
/// bias and a weighted sum of the features `feature_cols`.
///
/// The target and each feature are standardised with their mean and their
/// population standard deviation, taken over the cells that hold a value; a
/// deviation is one where fewer than two cells hold a value and where it
/// would not be greater than zero. All weights begin at zero. Each of the
/// `epochs` epochs goes through every row once, adds up the gradient of the
/// squared error, and moves each weight against its part of the gradient by
/// `learning_rate` times that part divided by the number of rows. In a row a
/// null feature counts as a raw zero and a null target as a standardised
/// zero.
///
/// At least one feature must be named, the learning rate must not be below
/// zero, and the target and every feature must be columns of numbers. A
/// learning rate of zero is taken as any other, and exactly `epochs` epochs
/// are run.
pub fn fit_linear_gd<A: Arithmetic>(
    arith: &A,
    table: &Table,
    target_col: &str,
    feature_cols: &[String],
    learning_rate: u64,
    epochs: usize,
) -> (r: Result<LinearModel, Error>)
    ensures
        match fit_fault(table@, target_col@, names_view(feature_cols@), learning_rate) {
            Some(e) => r is Err && r->Err_0 == e,
            None => {
                &&& r is Ok
                &&& r->Ok_0.well_formed()
                &&& is_fitted(
                    arith,
                    table@,
                    target_col@,
                    names_view(feature_cols@),
                    learning_rate,
                    epochs as nat,
                    &r->Ok_0,
                )
            },
        },        r is Err ==> (r->Err_0.kind_of() == ErrorKind::Config <==> feature_cols@.len() == 0
            || is_negative(learning_rate)),
        r is Err ==> r->Err_0.kind_of() == ErrorKind::Config || r->Err_0.kind_of()
            == ErrorKind::Schema,
{
    proof {
        lemma_first_fault_is_schema(table@, names_view(feature_cols@));
    }
    if feature_cols.len() == 0 {
        return Err(Error::NoFeatures);
    }
    if bits_are_negative(learning_rate) {
        return Err(Error::NegativeRate);
    }
    let columns = match training_columns(table, target_col, feature_cols) {
        Ok(columns) => columns,
        Err(e) => {
            return Err(e);
        },
    };
    let ghost target = columns.target@;
    let ghost features = columns_of_numbers(columns.features@);
    let feature_names = copy_names(feature_cols);
    let (target_mean, target_std) = column_statistics(arith, &columns.target);
    let mut means: Vec<u64> = Vec::new();
    let mut stds: Vec<u64> = Vec::new();
    let mut j: usize = 0;
    while j < columns.features.len()
        invariant
            j <= columns.features@.len(),
            features == columns_of_numbers(columns.features@),
            means@.len() == j,
            stds@.len() == j,
            forall|k: int| 0 <= k < j ==> is_mean(arith, features[k], #[trigger] means@[k]),
            forall|k: int|
                0 <= k < j ==> is_deviation(arith, features[k], means@[k], #[trigger] stds@[k]),
            forall|k: int| 0 <= k < j ==> is_positive(#[trigger] stds@[k]),
        decreases columns.features.len() - j,
    {
        proof {
            assert(features[j as int] == columns.features@[j as int]@);
        }
        let (mean, std) = column_statistics(arith, &columns.features[j]);
        means.push(mean);
        stds.push(std);
        j += 1;
    }
    let ghost scaling = Scaling {
        target_mean,
        target_std,
        feature_means: means@,
        feature_stds: stds@,
    };
    proof {
        assert(features.len() == feature_cols@.len());
    }
    let mut weights = zero_weights(columns.features.len());
    weights.push(ZERO);
    proof {
        assert(weights@ =~= zeros(features.len() + 1));
    }
    let mut epoch: usize = 0;
    while epoch < epochs
        invariant
            epoch <= epochs,
            columns.well_formed(),
            target == columns.target@,
            features == columns_of_numbers(columns.features@),
            scaling == (Scaling {
                target_mean,
                target_std,
                feature_means: means@,
                feature_stds: stds@,
            }),
            means@.len() == columns.features@.len(),
            stds@.len() == columns.features@.len(),
            weights@.len() == columns.features@.len() + 1,
            is_trained(arith, target, features, scaling, learning_rate, epoch as nat, weights@),
        decreases epochs - epoch,
    {
        let gradient = gradient_of(
            arith,
            &columns,
            target_mean,
            target_std,
            &means,
            &stds,
            &weights,
            Ghost(scaling),
        );
        let next = step(arith, &weights, &gradient, learning_rate, columns.target.len());
        proof {
            assert(is_gradient(arith, target, features, scaling, weights@, target.len(), gradient@)
                && is_step(
                arith,
                weights@,
                gradient@,
                learning_rate,
                target.len() as usize,
                next@,
            ));
        }
        weights = next;
        epoch += 1;
    }
    let model = LinearModel {
        feature_names,
        weights,
        feature_means: means,
        feature_stds: stds,
        target_mean,
        target_std,
    };
    proof {
        assert(scaling_of(&model) == scaling);
    }
    Ok(model)
}

/// A copy of a list of names.
fn copy_names(names: &[String]) -> (out: Vec<String>)
    ensures
        names_view(out@) == names_view(names@),
        out@.len() == names@.len(),
{
    let mut out: Vec<String> = Vec::new();
    let mut i: usize = 0;
    while i < names.len()
        invariant
            i <= names@.len(),
            out@.len() == i,
            forall|k: int| 0 <= k < i ==> out@[k]@ == names@[k]@,
        decreases names.len() - i,
    {
        out.push(names[i].clone());
        i += 1;
    }
    assert(names_view(out@) =~= names_view(names@));
    out
}

} // verus!
