//! Scores of a series of predictions against the true values: the mean
//! absolute error and the root of the mean squared error, each taken over the
//! positions at which both the true value and the prediction are present.

use vstd::prelude::*;
use crate::arith::{
    is_count,
    is_difference,
    is_function,
    is_product,
    is_quotient,
    is_square_root,
    is_sum,
    Arithmetic,
};
use crate::number::{absolute, magnitude, NAN, ZERO};
use crate::view::{kept_rows, lemma_kept_rows};

verus! {

/// The number of positions that two series share.
pub open spec fn overlap(y_true: Seq<Option<u64>>, y_pred: Seq<Option<u64>>) -> nat {
    if y_true.len() <= y_pred.len() {
        y_true.len()
    } else {
        y_pred.len()
    }
}

/// For each shared position, whether both series hold a value there.
pub open spec fn both_present(y_true: Seq<Option<u64>>, y_pred: Seq<Option<u64>>) -> Seq<bool> {
    Seq::new(overlap(y_true, y_pred), |i: int| y_true[i] is Some && y_pred[i] is Some)
}

/// The pairs of a true value and its prediction, for the shared positions at
/// which both are present, in their order.
pub open spec fn present_pairs(y_true: Seq<Option<u64>>, y_pred: Seq<Option<u64>>) -> Seq<
    (u64, u64),
> {
    kept_rows(both_present(y_true, y_pred)).map_values(|i: int| (y_true[i]->0, y_pred[i]->0))
}

/// Pairs each true value with its prediction, over the positions that the
/// two series share, leaving out every position at which either is null.
pub fn paired_observations(y_true: &[Option<u64>], y_pred: &[Option<u64>]) -> (pairs: Vec<
    (u64, u64),
>)
    ensures
        pairs@ == present_pairs(y_true@, y_pred@),
{
    let n = if y_true.len() <= y_pred.len() {
        y_true.len()
    } else {
        y_pred.len()
    };
    let ghost mask = both_present(y_true@, y_pred@);
    let mut pairs: Vec<(u64, u64)> = Vec::new();
    let mut i: usize = 0;
    while i < n
        invariant
            i <= n,
            n == overlap(y_true@, y_pred@),
            mask == both_present(y_true@, y_pred@),
            pairs@ == kept_rows(mask.take(i as int)).map_values(
                |k: int| (y_true@[k]->0, y_pred@[k]->0),
            ),
        decreases n - i,
    {
        proof {
            assert(mask.take(i + 1).drop_last() =~= mask.take(i as int));
        }
        match (y_true[i], y_pred[i]) {
            (Some(a), Some(b)) => {
                pairs.push((a, b));
                proof {
                    assert(pairs@ =~= kept_rows(mask.take(i + 1)).map_values(
                        |k: int| (y_true@[k]->0, y_pred@[k]->0),
                    ));
                }
            },
            _ => {},
        }
        i += 1;
    }
    proof {
        assert(mask.take(n as int) =~= mask);
    }
    pairs
}

/// No more pairs than shared positions; each pair stands at a position
/// where both series hold a value, and the pairs keep the order of their
/// positions.
pub proof fn lemma_present_pairs(y_true: Seq<Option<u64>>, y_pred: Seq<Option<u64>>)
    ensures
        present_pairs(y_true, y_pred).len() <= overlap(y_true, y_pred),
        forall|k: int|
            0 <= k < present_pairs(y_true, y_pred).len() ==> {
                let i = kept_rows(both_present(y_true, y_pred))[k];
                &&& 0 <= i < overlap(y_true, y_pred)
                &&& y_true[i] == Some((#[trigger] present_pairs(y_true, y_pred)[k]).0)
                &&& y_pred[i] == Some(present_pairs(y_true, y_pred)[k].1)
            },
{
    lemma_kept_rows(both_present(y_true, y_pred));
}

/// `e` is the error of one pair: the absolute value of the true value less
/// the prediction, or, where `squared`, that difference times itself.
pub open spec fn is_error<A: Arithmetic>(arith: &A, squared: bool, pair: (u64, u64), e: u64) -> bool {
    exists|d: u64| #[trigger]
        is_difference(arith, pair.0, pair.1, d) && if squared {
            is_product(arith, d, d, e)
        } else {
            e == magnitude(d)
        }
}

/// `total` is the errors of `pairs` added up, one after the other in their
/// order, beginning with zero.
pub open spec fn is_error_total<A: Arithmetic>(
    arith: &A,
    squared: bool,
    pairs: Seq<(u64, u64)>,
    total: u64,
) -> bool
    decreases pairs.len(),
{
    if pairs.len() == 0 {
        total == ZERO
    } else {
        exists|before: u64, e: u64|
            is_error_total(arith, squared, pairs.drop_last(), before) && is_error(
                arith,
                squared,
                pairs.last(),
                e,
            ) && #[trigger] is_sum(arith, before, e, total)
    }
}

/// `mean` is the total of the errors of `pairs` divided by their number.
pub open spec fn is_mean_error<A: Arithmetic>(
    arith: &A,
    squared: bool,
    pairs: Seq<(u64, u64)>,
    mean: u64,
) -> bool {
    exists|total: u64, count: u64|
        is_error_total(arith, squared, pairs, total) && is_count(
            arith,
            pairs.len() as usize,
            count,
        ) && #[trigger] is_quotient(arith, total, count, mean)
}

/// `score` is the mean absolute error of `y_pred` against `y_true`: the mean
/// of the absolute errors of their present pairs, and NaN where there is no
/// such pair.
pub open spec fn is_mean_absolute_error<A: Arithmetic>(
    arith: &A,
    y_true: Seq<Option<u64>>,
    y_pred: Seq<Option<u64>>,
    score: u64,
) -> bool {
    if present_pairs(y_true, y_pred).len() == 0 {
        score == NAN
    } else {
        is_mean_error(arith, false, present_pairs(y_true, y_pred), score)
    }
}

/// `score` is the root mean squared error of `y_pred` against `y_true`: the
/// square root of the mean of the squared errors of their present pairs, and
/// NaN where there is no such pair.
pub open spec fn is_root_mean_squared_error<A: Arithmetic>(
    arith: &A,
    y_true: Seq<Option<u64>>,
    y_pred: Seq<Option<u64>>,
    score: u64,
) -> bool {
    if present_pairs(y_true, y_pred).len() == 0 {
        score == NAN
    } else {
        exists|mean: u64|
            is_mean_error(arith, true, present_pairs(y_true, y_pred), mean)
                && #[trigger] is_square_root(arith, mean, score)
    }
}

/// With arithmetic that is a function, the errors of pairs have one total.
proof fn lemma_error_total_unique<A: Arithmetic>(
    arith: &A,
    squared: bool,
    pairs: Seq<(u64, u64)>,
    a: u64,
    b: u64,
)
    requires
        is_function(arith),
        is_error_total(arith, squared, pairs, a),
        is_error_total(arith, squared, pairs, b),
    ensures
        a == b,
    decreases pairs.len(),
{
    if pairs.len() > 0 {
        let (before_a, ea) = choose|before: u64, e: u64|
            is_error_total(arith, squared, pairs.drop_last(), before) && is_error(
                arith,
                squared,
                pairs.last(),
                e,
            ) && #[trigger] is_sum(arith, before, e, a);
        let (before_b, eb) = choose|before: u64, e: u64|
            is_error_total(arith, squared, pairs.drop_last(), before) && is_error(
                arith,
                squared,
                pairs.last(),
                e,
            ) && #[trigger] is_sum(arith, before, e, b);
        lemma_error_total_unique(arith, squared, pairs.drop_last(), before_a, before_b);
    }
}

/// With arithmetic that is a function, the errors of pairs have one mean.
proof fn lemma_mean_error_unique<A: Arithmetic>(
    arith: &A,
    squared: bool,
    pairs: Seq<(u64, u64)>,
    a: u64,
    b: u64,
)
    requires
        is_function(arith),
        is_mean_error(arith, squared, pairs, a),
        is_mean_error(arith, squared, pairs, b),
    ensures
        a == b,
{
    let (total_a, count_a) = choose|total: u64, count: u64|
        is_error_total(arith, squared, pairs, total) && is_count(
            arith,
            pairs.len() as usize,
            count,
        ) && #[trigger] is_quotient(arith, total, count, a);
    let (total_b, count_b) = choose|total: u64, count: u64|
        is_error_total(arith, squared, pairs, total) && is_count(
            arith,
            pairs.len() as usize,
            count,
        ) && #[trigger] is_quotient(arith, total, count, b);
    lemma_error_total_unique(arith, squared, pairs, total_a, total_b);
}

/// A mean absolute error depends on nothing but the two series: with
/// arithmetic that is a function, there is one only.
pub proof fn lemma_mean_absolute_error_unique<A: Arithmetic>(
    arith: &A,
    y_true: Seq<Option<u64>>,
    y_pred: Seq<Option<u64>>,
    a: u64,
    b: u64,
)
    requires
        is_function(arith),
        is_mean_absolute_error(arith, y_true, y_pred, a),
        is_mean_absolute_error(arith, y_true, y_pred, b),
    ensures
        a == b,
{
    let pairs = present_pairs(y_true, y_pred);
    if pairs.len() > 0 {
        lemma_mean_error_unique(arith, false, pairs, a, b);
    }
}

/// A root mean squared error depends on nothing but the two series: with
/// arithmetic that is a function, there is one only.
pub proof fn lemma_root_mean_squared_error_unique<A: Arithmetic>(
    arith: &A,
    y_true: Seq<Option<u64>>,
    y_pred: Seq<Option<u64>>,
    a: u64,
    b: u64,
)
    requires
        is_function(arith),
        is_root_mean_squared_error(arith, y_true, y_pred, a),
        is_root_mean_squared_error(arith, y_true, y_pred, b),
    ensures
        a == b,
{
    let pairs = present_pairs(y_true, y_pred);
    if pairs.len() > 0 {
        let mean_a = choose|mean: u64|
            is_mean_error(arith, true, pairs, mean) && #[trigger] is_square_root(arith, mean, a);
        let mean_b = choose|mean: u64|
            is_mean_error(arith, true, pairs, mean) && #[trigger] is_square_root(arith, mean, b);
        lemma_mean_error_unique(arith, true, pairs, mean_a, mean_b);
    }
}

/// The mean of the errors of `pairs`, of which there is at least one.
fn mean_error<A: Arithmetic>(arith: &A, squared: bool, pairs: &Vec<(u64, u64)>) -> (mean: u64)
    requires
        pairs@.len() > 0,
    ensures
        is_mean_error(arith, squared, pairs@, mean),
{
    let mut total: u64 = ZERO;
    let mut i: usize = 0;
    while i < pairs.len()
        invariant
            i <= pairs.len(),
            is_error_total(arith, squared, pairs@.take(i as int), total),
        decreases pairs.len() - i,
    {
        let (a, b) = pairs[i];
        let d = arith.difference(a, b);
        let e = if squared {
            arith.product(d, d)
        } else {
            absolute(d)
        };
        let next = arith.sum(total, e);
        proof {
            let upto = pairs@.take(i + 1);
            assert(upto.drop_last() =~= pairs@.take(i as int));
            assert(upto.last() == pairs@[i as int]);
            assert(is_difference(arith, a, b, d));
            assert(is_error(arith, squared, upto.last(), e));
            assert(is_sum(arith, total, e, next));
        }
        total = next;
        i += 1;
    }
    let count = arith.from_count(pairs.len());
    let mean = arith.quotient(total, count);
    proof {
        assert(pairs@.take(pairs.len() as int) =~= pairs@);
        assert(is_quotient(arith, total, count, mean));
    }
    mean
}

/// The mean absolute error of `y_pred` against `y_true`, over the positions
/// that the two series share and at which neither is null; NaN where there
/// is no such position.
pub fn mean_absolute_error<A: Arithmetic>(
    arith: &A,
    y_true: &[Option<u64>],
    y_pred: &[Option<u64>],
) -> (score: u64)
    ensures
        is_mean_absolute_error(arith, y_true@, y_pred@, score),
{
    let pairs = paired_observations(y_true, y_pred);
    if pairs.len() == 0 {
        NAN
    } else {
        mean_error(arith, false, &pairs)
    }
}

/// The root mean squared error of `y_pred` against `y_true`, over the
/// positions that the two series share and at which neither is null; NaN
/// where there is no such position.
pub fn root_mean_squared_error<A: Arithmetic>(
    arith: &A,
    y_true: &[Option<u64>],
    y_pred: &[Option<u64>],
) -> (score: u64)
    ensures
        is_root_mean_squared_error(arith, y_true@, y_pred@, score),
{
    let pairs = paired_observations(y_true, y_pred);
    if pairs.len() == 0 {
        NAN
    } else {
        let mean = mean_error(arith, true, &pairs);
        let score = arith.square_root(mean);
        proof {
            assert(is_square_root(arith, mean, score));
        }
        score
    }
}

} // verus!
