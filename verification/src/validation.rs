//! K-fold cross-validation: every fold is held out once, a fresh model is
//! fitted to the others and judged on the fold, and the accuracies are
//! averaged.
//!
//! The average of `c1/t1, ..., ck/tk` is kept exact, as the ratio of
//! `c1*t2*...*tk + ... + t1*...*ck` to `k * t1*...*tk`.

use vstd::prelude::*;
use crate::error::{agrees, Error};
use crate::model::{fitted, Accuracy, Model, Ratio};
use crate::natural::Natural;
use crate::partition::{is_fair_split, partitioned, split_for_crossvalidation};
use crate::records::{Record, Row};

verus! {

impl DeepView for Accuracy {
    type V = Ratio;

    open spec fn deep_view(&self) -> Ratio {
        self.view()
    }
}

/// The product of the denominators of `ratios`.
pub open spec fn common_denominator(ratios: Seq<Ratio>) -> nat
    decreases ratios.len(),
{
    if ratios.len() == 0 {
        1
    } else {
        common_denominator(ratios.drop_last()) * ratios.last().denominator
    }
}

/// The numerator of the sum of `ratios` over [`common_denominator`]: each
/// numerator times the denominators of all the others, added up.
pub open spec fn summed_numerator(ratios: Seq<Ratio>) -> nat
    decreases ratios.len(),
{
    if ratios.len() == 0 {
        0
    } else {
        summed_numerator(ratios.drop_last()) * ratios.last().denominator + ratios.last().numerator
            * common_denominator(ratios.drop_last())
    }
}

/// The arithmetic mean of `ratios`: their sum, divided by their number.
pub open spec fn mean_of(ratios: Seq<Ratio>) -> Ratio {
    Ratio {
        numerator: summed_numerator(ratios),
        denominator: ratios.len() * common_denominator(ratios),
    }
}

/// The outcome of averaging `accuracies`: there must be one at least, and
/// none may be over an empty test set.
pub open spec fn averaged(accuracies: Seq<Ratio>) -> Result<Ratio, Error> {
    if accuracies.len() == 0 {
        Err(Error::NoFolds)
    } else if exists|i: int| 0 <= i < accuracies.len() && (#[trigger] accuracies[i]).denominator == 0 {
        Err(Error::EmptyTestSet)
    } else {
        Ok(mean_of(accuracies))
    }
}

/// The training set of the round that holds out fold `held_out`: the
/// records of all the other folds, in fold order.
pub open spec fn training_of(folds: Seq<Seq<Record>>, held_out: int) -> Seq<Record> {
    folds.remove(held_out).flatten()
}

/// The outcome of the round that holds out fold `held_out`: the accuracy,
/// on that fold, of the model fitted to the other folds.
pub open spec fn round(folds: Seq<Seq<Record>>, held_out: int) -> Result<Ratio, Error> {
    match fitted(training_of(folds, held_out)) {
        Ok(model) => model.evaluate(folds[held_out]),
        Err(error) => Err(error),
    }
}

/// The outcomes of the first `count` rounds: their accuracies in fold
/// order, or the error of the first round that fails.
pub open spec fn rounds(folds: Seq<Seq<Record>>, count: nat) -> Result<Seq<Ratio>, Error>
    decreases count,
{
    if count == 0 {
        Ok(Seq::empty())
    } else {
        match rounds(folds, (count - 1) as nat) {
            Ok(accuracies) => match round(folds, count - 1) {
                Ok(accuracy) => Ok(accuracies.push(accuracy)),
                Err(error) => Err(error),
            },
            Err(error) => Err(error),
        }
    }
}

/// What a cross-validation run reports.
pub struct ReportView {
    /// The accuracy of each round, in fold order.
    pub accuracies: Seq<Ratio>,
    /// The arithmetic mean of the accuracies.
    pub mean: Ratio,
}

/// The outcome of cross-validating over `folds`.
pub open spec fn cross_validated(folds: Seq<Seq<Record>>) -> Result<ReportView, Error> {
    match rounds(folds, folds.len()) {
        Ok(accuracies) => match averaged(accuracies) {
            Ok(mean) => Ok(ReportView { accuracies, mean }),
            Err(error) => Err(error),
        },
        Err(error) => Err(error),
    }
}

/// Once a round has failed, the rounds after it are not looked at.
pub proof fn lemma_rounds_stop_at_error(folds: Seq<Seq<Record>>, failed: nat, count: nat)
    requires
        rounds(folds, failed) is Err,
        failed <= count,
    ensures
        rounds(folds, count) == rounds(folds, failed),
    decreases count,
{
    if failed < count {
        lemma_rounds_stop_at_error(folds, failed, (count - 1) as nat);
    }
}

/// The rounds that succeed give one accuracy each, over a test set that is
/// not empty, and none above one.
pub proof fn lemma_rounds_accuracies(folds: Seq<Seq<Record>>, count: nat)
    requires
        rounds(folds, count) is Ok,
    ensures
        rounds(folds, count)->Ok_0.len() == count,
        forall|i: int|
            0 <= i < count ==> {
                let accuracy = #[trigger] rounds(folds, count)->Ok_0[i];
                &&& Ok::<Ratio, Error>(accuracy) == round(folds, i)
                &&& 0 < accuracy.denominator
                &&& accuracy.numerator <= accuracy.denominator
            },
    decreases count,
{
    if count > 0 {
        lemma_rounds_accuracies(folds, (count - 1) as nat);
        let held_out = count - 1;
        let model = fitted(training_of(folds, held_out))->Ok_0;
        folds[held_out].lemma_filter_len(model.classified_rightly());
    }
}

/// The common denominator of ratios with denominators above zero is above
/// zero.
pub proof fn lemma_common_denominator_positive(ratios: Seq<Ratio>)
    requires
        forall|i: int| 0 <= i < ratios.len() ==> (#[trigger] ratios[i]).denominator > 0,
    ensures
        common_denominator(ratios) > 0,
    decreases ratios.len(),
{
    if ratios.len() > 0 {
        lemma_common_denominator_positive(ratios.drop_last());
        assert(common_denominator(ratios.drop_last()) * ratios.last().denominator > 0)
            by (nonlinear_arith)
            requires
                common_denominator(ratios.drop_last()) > 0,
                ratios.last().denominator > 0,
        ;
    }
}

proof fn lemma_bound_step(
    p: nat,
    q: nat,
    n: nat,
    sum: nat,
    product: nat,
    c: nat,
    t: nat,
    lower: bool,
)
    by (nonlinear_arith)
    requires
        lower ==> p * (n * product) <= sum * q,
        lower ==> p * t <= c * q,
        !lower ==> p * (n * product) >= sum * q,
        !lower ==> p * t >= c * q,
    ensures
        lower ==> p * ((n + 1) * (product * t)) <= (sum * t + c * product) * q,
        !lower ==> p * ((n + 1) * (product * t)) >= (sum * t + c * product) * q,
{
    assert(p * ((n + 1) * (product * t)) == (p * (n * product)) * t + (p * t) * product);
    assert((sum * t + c * product) * q == (sum * q) * t + (c * q) * product);
    if lower {
        assert((p * (n * product)) * t <= (sum * q) * t);
        assert((p * t) * product <= (c * q) * product);
    } else {
        assert((p * (n * product)) * t >= (sum * q) * t);
        assert((p * t) * product >= (c * q) * product);
    }
}

/// A mean is no smaller than a ratio `p/q` that none of the averaged
/// ratios is smaller than.
pub proof fn lemma_mean_at_least(ratios: Seq<Ratio>, p: nat, q: nat)
    requires
        forall|i: int|
            0 <= i < ratios.len() ==> p * (#[trigger] ratios[i]).denominator <= ratios[i].numerator
                * q,
    ensures
        p * mean_of(ratios).denominator <= mean_of(ratios).numerator * q,
    decreases ratios.len(),
{
    if ratios.len() == 0 {
        assert(p * (0 * common_denominator(ratios)) <= 0 * q) by (nonlinear_arith);
    } else {
        let before = ratios.drop_last();
        lemma_mean_at_least(before, p, q);
        lemma_bound_step(
            p,
            q,
            before.len(),
            summed_numerator(before),
            common_denominator(before),
            ratios.last().numerator,
            ratios.last().denominator,
            true,
        );
    }
}

/// A mean is no greater than a ratio `p/q` that none of the averaged
/// ratios is greater than.
pub proof fn lemma_mean_at_most(ratios: Seq<Ratio>, p: nat, q: nat)
    requires
        forall|i: int|
            0 <= i < ratios.len() ==> p * (#[trigger] ratios[i]).denominator >= ratios[i].numerator
                * q,
    ensures
        p * mean_of(ratios).denominator >= mean_of(ratios).numerator * q,
    decreases ratios.len(),
{
    if ratios.len() == 0 {
        assert(p * (0 * common_denominator(ratios)) >= 0 * q) by (nonlinear_arith);
    } else {
        let before = ratios.drop_last();
        lemma_mean_at_most(before, p, q);
        lemma_bound_step(
            p,
            q,
            before.len(),
            summed_numerator(before),
            common_denominator(before),
            ratios.last().numerator,
            ratios.last().denominator,
            false,
        );
    }
}

/// The mean of ratios that all equal `p/q` is `p/q`.
pub proof fn lemma_mean_of_equals(ratios: Seq<Ratio>, p: nat, q: nat)
    requires
        forall|i: int|
            0 <= i < ratios.len() ==> p * (#[trigger] ratios[i]).denominator == ratios[i].numerator
                * q,
    ensures
        p * mean_of(ratios).denominator == mean_of(ratios).numerator * q,
{
    lemma_mean_at_least(ratios, p, q);
    lemma_mean_at_most(ratios, p, q);
}

/// The mean of accuracies, each between zero and one, lies between zero
/// and one, and its denominator is not zero.
pub proof fn lemma_mean_of_accuracies(accuracies: Seq<Ratio>)
    requires
        accuracies.len() > 0,
        forall|i: int|
            0 <= i < accuracies.len() ==> 0 < (#[trigger] accuracies[i]).denominator
                && accuracies[i].numerator <= accuracies[i].denominator,
    ensures
        0 < mean_of(accuracies).denominator,
        mean_of(accuracies).numerator <= mean_of(accuracies).denominator,
{
    lemma_common_denominator_positive(accuracies);
    assert(accuracies.len() * common_denominator(accuracies) > 0) by (nonlinear_arith)
        requires
            accuracies.len() > 0,
            common_denominator(accuracies) > 0,
    ;
    assert forall|i: int| 0 <= i < accuracies.len() implies 1 * (#[trigger] accuracies[i]).denominator
        >= accuracies[i].numerator * 1 by {}
    lemma_mean_at_most(accuracies, 1, 1);
}

/// An average of accuracies, kept exact.
#[derive(Debug)]
pub struct Mean {
    pub numerator: Natural,
    pub denominator: Natural,
}

impl View for Mean {
    type V = Ratio;

    open spec fn view(&self) -> Ratio {
        Ratio { numerator: self.numerator@, denominator: self.denominator@ }
    }
}

/// The result of a cross-validation run.
#[derive(Debug)]
pub struct Report {
    /// The accuracy of each round, in fold order.
    pub accuracies: Vec<Accuracy>,
    /// The arithmetic mean of the accuracies.
    pub mean: Mean,
}

impl View for Report {
    type V = ReportView;

    open spec fn view(&self) -> ReportView {
        ReportView { accuracies: self.accuracies.deep_view(), mean: self.mean@ }
    }
}

/// Cross-validation is a function of the folds: two runs over folds that
/// hold the same records in the same order end alike, with the same
/// accuracies and the same mean, or with the same error.
pub proof fn lemma_repeated_runs_agree(
    folds: Seq<Seq<Record>>,
    again: Seq<Seq<Record>>,
    first: Result<Report, Error>,
    second: Result<Report, Error>,
)
    requires
        folds.len() == again.len(),
        forall|fold: int| 0 <= fold < folds.len() ==> #[trigger] folds[fold] =~= again[fold],
        agrees(first, cross_validated(folds)),
        agrees(second, cross_validated(again)),
    ensures
        match (first, second) {
            (Ok(one), Ok(other)) => one@ == other@,
            (Err(one), Err(other)) => one == other,
            _ => false,
        },
{
    assert(folds =~= again);
}

/// The arithmetic mean of `accuracies`.
///
/// There is none of no accuracies, nor of accuracies over an empty test
/// set.
pub fn mean_accuracy(accuracies: &Vec<Accuracy>) -> (outcome: Result<Mean, Error>)
    ensures
        agrees(outcome, averaged(accuracies.deep_view())),
{
    let ghost ratios = accuracies.deep_view();
    let len = accuracies.len();
    if len == 0 {
        return Err(Error::NoFolds);
    }
    let mut numerator = Natural::from_u64(0);
    let mut denominator = Natural::from_u64(1);
    let mut i: usize = 0;
    assert(ratios.take(0) =~= Seq::<Ratio>::empty());
    while i < len
        invariant
            i <= len,
            len == accuracies.len(),
            ratios == accuracies.deep_view(),
            numerator@ == summed_numerator(ratios.take(i as int)),
            denominator@ == common_denominator(ratios.take(i as int)),
            forall|j: int| 0 <= j < i ==> (#[trigger] ratios[j]).denominator != 0,
        decreases len - i,
    {
        let accuracy = accuracies[i];
        assert(ratios[i as int] == accuracy@);
        if accuracy.total == 0 {
            return Err(Error::EmptyTestSet);
        }
        proof {
            let next = ratios.take(i + 1);
            assert(next.drop_last() =~= ratios.take(i as int));
            assert(next.last() == accuracy@);
        }
        let scaled = numerator.times(accuracy.total as u64);
        let added = denominator.times(accuracy.correct as u64);
        numerator = scaled.plus(&added);
        denominator = denominator.times(accuracy.total as u64);
        proof {
            let before = ratios.take(i as int);
            assert(accuracy.correct * common_denominator(before) == common_denominator(before)
                * accuracy.correct) by (nonlinear_arith);
        }
        i += 1;
    }
    assert(ratios.take(len as int) =~= ratios);
    let ghost product = denominator@;
    denominator = denominator.times(len as u64);
    assert(product * len == len * product) by (nonlinear_arith);
    Ok(Mean { numerator, denominator })
}

/// Adds references to the records of `fold` to `training`.
fn extend_training<'a>(training: &mut Vec<&'a Row>, fold: &'a Vec<Row>)
    ensures
        final(training).deep_view() == old(training).deep_view() + fold.deep_view(),
{
    let ghost start = training.deep_view();
    let mut i: usize = 0;
    while i < fold.len()
        invariant
            i <= fold.len(),
            training.deep_view() =~= start + fold.deep_view().take(i as int),
        decreases fold.len() - i,
    {
        let ghost before = training.deep_view();
        training.push(&fold[i]);
        assert(training.deep_view() =~= before.push(fold.deep_view()[i as int]));
        i += 1;
    }
    assert(fold.deep_view().take(fold.len() as int) =~= fold.deep_view());
}

/// The records of all the folds but `held_out`, in fold order.
fn training_set<'a>(folds: &'a Vec<Vec<Row>>, held_out: usize) -> (training: Vec<&'a Row>)
    requires
        held_out < folds.len(),
    ensures
        training.deep_view() == training_of(folds.deep_view(), held_out as int),
{
    let ghost all = folds.deep_view();
    let mut training: Vec<&'a Row> = Vec::new();
    let mut fold: usize = 0;
    assert(training.deep_view() =~= Seq::<Record>::empty());
    assert(all.take(0).flatten() =~= Seq::<Record>::empty());
    while fold < held_out
        invariant
            fold <= held_out < folds.len(),
            all == folds.deep_view(),
            training.deep_view() == all.take(fold as int).flatten(),
        decreases held_out - fold,
    {
        extend_training(&mut training, &folds[fold]);
        proof {
            assert(all.take(fold + 1) =~= all.take(fold as int).push(all[fold as int]));
            all.take(fold as int).lemma_flatten_push(all[fold as int]);
        }
        fold += 1;
    }
    fold = held_out + 1;
    assert(all.take(held_out as int) + all.subrange(held_out + 1, fold as int) =~= all.take(
        held_out as int,
    ));
    while fold < folds.len()
        invariant
            held_out < fold <= folds.len(),
            all == folds.deep_view(),
            training.deep_view() == (all.take(held_out as int) + all.subrange(
                held_out + 1,
                fold as int,
            )).flatten(),
        decreases folds.len() - fold,
    {
        extend_training(&mut training, &folds[fold]);
        proof {
            let kept = all.take(held_out as int) + all.subrange(held_out + 1, fold as int);
            assert(all.take(held_out as int) + all.subrange(held_out + 1, fold + 1) =~= kept.push(
                all[fold as int],
            ));
            kept.lemma_flatten_push(all[fold as int]);
        }
        fold += 1;
    }
    assert(all.take(held_out as int) + all.subrange(held_out + 1, all.len() as int) =~= all.remove(
        held_out as int,
    ));
    training
}

/// Cross-validates over the given folds: for each fold in turn, fits a
/// fresh model to the records of the other folds and measures its accuracy
/// on the fold; then averages the accuracies.
///
/// The run fails with the error of the first round that fails: a round
/// whose training set is empty (there is only one fold, or the others are
/// empty) or not uniform, or whose test fold is empty or does not fit the
/// model. It fails too where there is no fold at all.
pub fn validate_folds(folds: &Vec<Vec<Row>>) -> (outcome: Result<Report, Error>)
    ensures
        agrees(outcome, cross_validated(folds.deep_view())),
        outcome matches Ok(report) ==> {
            &&& report.accuracies.len() == folds.len()
            &&& forall|fold: int|
                0 <= fold < folds.len() ==> 0 < (#[trigger] report.accuracies[fold]).total
                    && report.accuracies[fold].correct <= report.accuracies[fold].total
            &&& report.mean@ == mean_of(report.accuracies.deep_view())
            &&& 0 < report.mean@.denominator
            &&& report.mean@.numerator <= report.mean@.denominator
        },
{
    let ghost all = folds.deep_view();
    let splits = folds.len();
    let mut accuracies: Vec<Accuracy> = Vec::new();
    let mut fold: usize = 0;
    assert(accuracies.deep_view() =~= Seq::<Ratio>::empty());
    while fold < splits
        invariant
            fold <= splits,
            splits == folds.len(),
            all == folds.deep_view(),
            rounds(all, fold as nat) == Ok::<Seq<Ratio>, Error>(accuracies.deep_view()),
        decreases splits - fold,
    {
        let training = training_set(folds, fold);
        let ghost before = accuracies.deep_view();
        assert(all[fold as int] == folds@[fold as int].deep_view());
        let model = match Model::new(&training) {
            Ok(model) => model,
            Err(error) => {
                proof {
                    lemma_rounds_stop_at_error(all, (fold + 1) as nat, splits as nat);
                }
                return Err(error);
            },
        };
        let accuracy = match model.get_accuracy(&folds[fold]) {
            Ok(accuracy) => accuracy,
            Err(error) => {
                proof {
                    lemma_rounds_stop_at_error(all, (fold + 1) as nat, splits as nat);
                }
                return Err(error);
            },
        };
        accuracies.push(accuracy);
        assert(accuracies.deep_view() =~= before.push(accuracy@));
        fold += 1;
    }
    proof {
        lemma_rounds_accuracies(all, splits as nat);
    }
    match mean_accuracy(&accuracies) {
        Ok(mean) => {
            proof {
                let ratios = accuracies.deep_view();
                assert forall|fold: int| 0 <= fold < splits implies 0 < (
                #[trigger] accuracies[fold]).total && accuracies[fold].correct
                    <= accuracies[fold].total by {
                    assert(ratios[fold] == accuracies[fold]@);
                }
                lemma_mean_of_accuracies(ratios);
            }
            Ok(Report { accuracies, mean })
        },
        Err(error) => Err(error),
    }
}

/// Shuffles `data`, splits it into `splits` folds and cross-validates over
/// them.
///
/// The split fails, before anything is shuffled, where there is no fold or
/// no record, or where there are more folds than records. Otherwise the
/// outcome is that of [`validate_folds`] on some fair split of `data`;
/// which one differs from run to run.
pub fn cross_validate(data: Vec<Row>, splits: usize) -> (outcome: Result<Report, Error>)
    ensures
        match partitioned(data.deep_view(), splits as nat) {
            Ok(_) => exists|folds: Seq<Seq<Record>>|
                is_fair_split(folds, data.deep_view(), splits as nat) && #[trigger] agrees(
                    outcome,
                    cross_validated(folds),
                ),
            Err(error) => outcome matches Err(e) && e == error,
        },
{
    let folds = match split_for_crossvalidation(data, splits) {
        Ok(folds) => folds,
        Err(error) => {
            return Err(error);
        },
    };
    validate_folds(&folds)
}

} // verus!
