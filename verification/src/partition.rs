//! Splitting a data set into folds for cross-validation.
//!
//! The records are shuffled, cut into as many equal chunks as there are
//! folds, and the records left over after the last chunk are handed out one
//! each to the first folds. [`partition`] does the cutting and is exact about
//! where every record goes; [`split_for_crossvalidation`] shuffles first.

use rand::rngs::ThreadRng;
use rand::seq::SliceRandom;
use rand::thread_rng;
use vstd::prelude::*;
use vstd::arithmetic::div_mod::lemma_fundamental_div_mod;
use vstd::seq_lib::{lemma_multiset_commutative, to_multiset_build};
use crate::error::Error;
use crate::records::{Record, Row};

verus! {

/// The size of fold number `fold` when `len` records are split into
/// `splits` folds.
pub open spec fn fold_size(len: nat, splits: nat, fold: int) -> int {
    len as int / splits as int + if fold < len as int % splits as int {
        1int
    } else {
        0int
    }
}

/// Fold number `fold` of the `splits` folds of `shuffled`: its chunk, and
/// after that its one left-over record, if it gets one.
pub open spec fn fold_of<A>(shuffled: Seq<A>, splits: nat, fold: int) -> Seq<A> {
    let base = shuffled.len() as int / splits as int;
    let spare = shuffled.len() as int % splits as int;
    let chunk = shuffled.subrange(fold * base, (fold + 1) * base);
    if fold < spare {
        chunk.push(shuffled[splits * base + fold])
    } else {
        chunk
    }
}

/// The `splits` folds of `shuffled`.
pub open spec fn folds_of<A>(shuffled: Seq<A>, splits: nat) -> Seq<Seq<A>> {
    Seq::new(splits, |fold: int| fold_of(shuffled, splits, fold))
}

/// The outcome of splitting `records`, in the order they are in, into
/// `splits` folds: there must be a fold, a record, and no more folds than
/// records.
pub open spec fn partitioned(records: Seq<Record>, splits: nat) -> Result<Seq<Seq<Record>>, Error> {
    if splits == 0 {
        Err(Error::NoFolds)
    } else if records.len() == 0 {
        Err(Error::EmptyDataset)
    } else if splits > records.len() {
        Err(Error::TooFewRecords)
    } else {
        Ok(folds_of(records, splits))
    }
}

/// Whether `folds` is a fair split of `records` into `splits` folds: every
/// record is in exactly one fold, and the folds have the sizes that
/// [`fold_size`] gives them.
pub open spec fn is_fair_split(folds: Seq<Seq<Record>>, records: Seq<Record>, splits: nat) -> bool {
    &&& folds.len() == splits
    &&& forall|fold: int|
        0 <= fold < splits ==> (#[trigger] folds[fold]).len() == fold_size(
            records.len(),
            splits,
            fold,
        )
    &&& folds.flatten().to_multiset() == records.to_multiset()
}

/// Where the chunks and the left-over records lie in a sequence of `len`
/// records that is split into `splits` folds.
pub proof fn lemma_fold_bounds(len: nat, splits: nat, fold: int)
    requires
        splits > 0,
        0 <= fold < splits,
    ensures
        ({
            let base = len as int / splits as int;
            let spare = len as int % splits as int;
            &&& 0 <= base
            &&& 0 <= spare < splits
            &&& splits * base + spare == len
            &&& 0 <= fold * base <= (fold + 1) * base <= splits * base
            &&& (fold + 1) * base == fold * base + base
            &&& fold < spare ==> splits * base + fold < len
        }),
{
    let base = len as int / splits as int;
    let spare = len as int % splits as int;
    lemma_fundamental_div_mod(len as int, splits as int);
    assert(0 <= base && 0 <= fold * base <= (fold + 1) * base <= splits * base && (fold + 1) * base
        == fold * base + base) by (nonlinear_arith)
        requires
            0 <= fold < splits,
            splits * base + spare == len,
            0 <= spare < splits,
    ;
}

/// Every fold has the size that [`fold_size`] gives it.
pub proof fn lemma_fold_len<A>(shuffled: Seq<A>, splits: nat, fold: int)
    requires
        splits > 0,
        0 <= fold < splits,
    ensures
        fold_of(shuffled, splits, fold).len() == fold_size(shuffled.len(), splits, fold),
{
    lemma_fold_bounds(shuffled.len(), splits, fold);
}

/// The sizes of any two folds differ by at most one.
pub proof fn lemma_fold_sizes_balanced(len: nat, splits: nat, one: int, other: int)
    requires
        splits > 0,
    ensures
        -1 <= fold_size(len, splits, one) - fold_size(len, splits, other) <= 1,
{
}

/// The first `count` folds hold, each once, the records of the first
/// `count` chunks and the first `count` left-over records, as far as there
/// are that many.
proof fn lemma_folds_cover_prefix<A>(shuffled: Seq<A>, splits: nat, count: int)
    requires
        splits > 0,
        0 <= count <= splits,
    ensures
        ({
            let base = shuffled.len() as int / splits as int;
            let spare = shuffled.len() as int % splits as int;
            let extras = if count < spare {
                count
            } else {
                spare
            };
            folds_of(shuffled, splits).take(count).flatten().to_multiset() == shuffled.subrange(
                0,
                count * base,
            ).to_multiset().add(
                shuffled.subrange(splits * base, splits * base + extras).to_multiset(),
            )
        }),
    decreases count,
{
    broadcast use vstd::multiset::group_multiset_axioms;
    broadcast use vstd::seq_lib::group_to_multiset_ensures;

    let base = shuffled.len() as int / splits as int;
    let spare = shuffled.len() as int % splits as int;
    let folds = folds_of(shuffled, splits);
    if count == 0 {
        lemma_fold_bounds(shuffled.len(), splits, 0);
        assert(folds.take(0).flatten() =~= Seq::<A>::empty());
        assert(shuffled.subrange(0, 0 * base) =~= Seq::<A>::empty());
        assert(shuffled.subrange(splits * base, splits * base + 0) =~= Seq::<A>::empty());
        assert(Seq::<A>::empty().to_multiset() =~= vstd::multiset::Multiset::<A>::empty());
        assert(vstd::multiset::Multiset::<A>::empty().add(vstd::multiset::Multiset::<A>::empty())
            =~= vstd::multiset::Multiset::<A>::empty());
    } else {
        let fold = count - 1;
        lemma_folds_cover_prefix(shuffled, splits, fold);
        lemma_fold_bounds(shuffled.len(), splits, fold);
        let before = folds.take(fold).flatten();
        let chunk = shuffled.subrange(fold * base, (fold + 1) * base);
        let chunks_before = shuffled.subrange(0, fold * base);
        let extras_before = shuffled.subrange(
            splits * base,
            splits * base + if fold < spare {
                fold
            } else {
                spare
            },
        );
        assert(folds.take(count) =~= folds.take(fold).push(folds[fold]));
        folds.take(fold).lemma_flatten_push(folds[fold]);
        lemma_multiset_commutative(before, folds[fold]);
        assert(shuffled.subrange(0, count * base) =~= chunks_before + chunk);
        lemma_multiset_commutative(chunks_before, chunk);
        if fold < spare {
            let extra = shuffled[splits * base + fold];
            to_multiset_build(chunk, extra);
            to_multiset_build(extras_before, extra);
            assert(shuffled.subrange(splits * base, splits * base + count) =~= extras_before.push(
                extra,
            ));
            assert(before.to_multiset().add(chunk.to_multiset().insert(extra))
                =~= chunks_before.to_multiset().add(chunk.to_multiset()).add(
                extras_before.to_multiset().insert(extra),
            ));
        } else {
            assert(before.to_multiset().add(chunk.to_multiset()) =~= chunks_before.to_multiset().add(
                chunk.to_multiset(),
            ).add(extras_before.to_multiset()));
        }
    }
}

/// The folds of a sequence hold every one of its records exactly once:
/// none is left out and none is in two folds.
pub proof fn lemma_folds_cover<A>(shuffled: Seq<A>, splits: nat)
    requires
        splits > 0,
    ensures
        folds_of(shuffled, splits).flatten().to_multiset() == shuffled.to_multiset(),
        folds_of(shuffled, splits).flatten().len() == shuffled.len(),
{
    let base = shuffled.len() as int / splits as int;
    let spare = shuffled.len() as int % splits as int;
    let folds = folds_of(shuffled, splits);
    lemma_folds_cover_prefix(shuffled, splits, splits as int);
    lemma_fold_bounds(shuffled.len(), splits, 0);
    assert(folds.take(splits as int) =~= folds);
    let chunks = shuffled.subrange(0, splits * base);
    let extras = shuffled.subrange(splits * base, splits * base + spare);
    assert(shuffled =~= chunks + extras);
    lemma_multiset_commutative(chunks, extras);
    folds.flatten().to_multiset_ensures();
    shuffled.to_multiset_ensures();
}

/// Splitting any arrangement of `records` gives a fair split of `records`.
pub proof fn lemma_partition_is_fair(shuffled: Seq<Record>, records: Seq<Record>, splits: nat)
    requires
        shuffled.to_multiset() == records.to_multiset(),
        partitioned(shuffled, splits) is Ok,
    ensures
        is_fair_split(folds_of(shuffled, splits), records, splits),
{
    lemma_folds_cover(shuffled, splits);
    shuffled.to_multiset_ensures();
    records.to_multiset_ensures();
    assert(shuffled.len() == records.len());
    assert forall|fold: int| 0 <= fold < splits implies (#[trigger] folds_of(
        shuffled,
        splits,
    )[fold]).len() == fold_size(records.len(), splits, fold) by {
        lemma_fold_len(shuffled, splits, fold);
    }
}

/// In a fair split the sizes of any two folds differ by at most one, and
/// the folds hold as many records as were split.
pub proof fn lemma_fair_split_balanced(
    folds: Seq<Seq<Record>>,
    records: Seq<Record>,
    splits: nat,
    one: int,
    other: int,
)
    requires
        is_fair_split(folds, records, splits),
        0 <= one < splits,
        0 <= other < splits,
    ensures
        -1 <= folds[one].len() - folds[other].len() <= 1,
        folds.flatten().len() == records.len(),
{
    lemma_fold_sizes_balanced(records.len(), splits, one, other);
    folds.flatten().to_multiset_ensures();
    records.to_multiset_ensures();
}

/// Copies of the records of `data` from `from` up to `to`, in order.
fn copy_range(data: &Vec<Row>, from: usize, to: usize) -> (copy: Vec<Row>)
    requires
        from <= to <= data.len(),
    ensures
        copy.deep_view() == data.deep_view().subrange(from as int, to as int),
{
    let mut copy: Vec<Row> = Vec::new();
    let mut i: usize = from;
    while i < to
        invariant
            from <= i <= to,
            to <= data.len(),
            copy.deep_view() =~= data.deep_view().subrange(from as int, i as int),
        decreases to - i,
    {
        let ghost before = copy.deep_view();
        let row = data[i].clone();
        copy.push(row);
        assert(copy.deep_view() =~= before.push(data.deep_view()[i as int]));
        i += 1;
    }
    copy
}

/// Splits `shuffled`, in the order it is in, into `splits` folds.
///
/// With `base = len / splits` and `spare = len % splits`, fold `f` holds
/// the records from `f * base` up to `(f + 1) * base` and, if `f < spare`,
/// after them the record at `splits * base + f`.
///
/// There must be at least one fold and at least one record, and no more
/// folds than records, so that no fold stays empty.
pub fn partition(shuffled: &Vec<Row>, splits: usize) -> (outcome: Result<Vec<Vec<Row>>, Error>)
    ensures
        match outcome {
            Ok(folds) => partitioned(shuffled.deep_view(), splits as nat) == Ok::<
                Seq<Seq<Record>>,
                Error,
            >(folds.deep_view()),
            Err(error) => partitioned(shuffled.deep_view(), splits as nat) == Err::<
                Seq<Seq<Record>>,
                Error,
            >(error),
        },
        outcome matches Ok(folds) ==> is_fair_split(
            folds.deep_view(),
            shuffled.deep_view(),
            splits as nat,
        ),
{
    let len = shuffled.len();
    if splits == 0 {
        return Err(Error::NoFolds);
    }
    if len == 0 {
        return Err(Error::EmptyDataset);
    }
    if splits > len {
        return Err(Error::TooFewRecords);
    }
    let ghost records = shuffled.deep_view();
    let base = len / splits;
    let spare = len % splits;
    let mut folds: Vec<Vec<Row>> = Vec::new();
    let mut fold: usize = 0;
    while fold < splits
        invariant
            fold <= splits,
            0 < splits <= len,
            len == shuffled.len(),
            records == shuffled.deep_view(),
            base == len as int / splits as int,
            spare == len as int % splits as int,
            folds.len() == fold,
            forall|f: int|
                0 <= f < fold ==> (#[trigger] folds@[f]).deep_view() == fold_of(
                    records,
                    splits as nat,
                    f,
                ),
        decreases splits - fold,
    {
        proof {
            lemma_fold_bounds(len as nat, splits as nat, fold as int);
        }
        let from = fold * base;
        let mut rows = copy_range(shuffled, from, from + base);
        if fold < spare {
            let ghost chunk = rows.deep_view();
            let extra = shuffled[splits * base + fold].clone();
            rows.push(extra);
            assert(rows.deep_view() =~= chunk.push(records[splits * base + fold]));
        }
        folds.push(rows);
        fold += 1;
    }
    assert(folds.deep_view() =~= folds_of(records, splits as nat));
    proof {
        lemma_partition_is_fair(records, records, splits as nat);
    }
    Ok(folds)
}

/// `rand::rngs::ThreadRng`, the handle that `rand::thread_rng` returns. It
/// is carried from there to `shuffle` and never looked into.
#[verifier::external_type_specification]
#[verifier::external_body]
pub struct ExThreadRng(ThreadRng);

/// `rand::thread_rng`: a handle to the random number generator of the
/// calling thread, which the operating system seeds on first use; the call
/// panics where the system has no entropy to give. Nothing is claimed of
/// the handle.
pub assume_specification[ rand::thread_rng ]() -> (rng: ThreadRng)
;

/// `rand::seq::SliceRandom::shuffle` on the slice of `data`: rearranges the
/// records in place by a run of swaps, each of an index with a random
/// index not above it. What is claimed: the records after the call are the
/// records before it, each as often as before; their order is anyone's
/// guess.
#[verifier::external_body]
fn shuffle(data: &mut Vec<Row>, rng: &mut ThreadRng)
    ensures
        final(data).deep_view().to_multiset() == old(data).deep_view().to_multiset(),
{
    data.shuffle(rng);
}

/// Shuffles `data` and splits it into `splits` folds.
///
/// The outcome is a fair split of `data`: every record is in exactly one
/// fold, and the first `len % splits` folds hold `len / splits + 1`
/// records, the others `len / splits`. Which record goes where differs from
/// run to run.
///
/// There must be at least one fold and at least one record, and no more
/// folds than records.
pub fn split_for_crossvalidation(data: Vec<Row>, splits: usize) -> (outcome: Result<
    Vec<Vec<Row>>,
    Error,
>)
    ensures
        match outcome {
            Ok(folds) => partitioned(data.deep_view(), splits as nat) is Ok && is_fair_split(
                folds.deep_view(),
                data.deep_view(),
                splits as nat,
            ),
            Err(error) => partitioned(data.deep_view(), splits as nat) == Err::<
                Seq<Seq<Record>>,
                Error,
            >(error),
        },
{
    let ghost records = data.deep_view();
    if splits == 0 {
        return Err(Error::NoFolds);
    }
    if data.len() == 0 {
        return Err(Error::EmptyDataset);
    }
    if splits > data.len() {
        return Err(Error::TooFewRecords);
    }
    let mut data = data;
    let mut rng = thread_rng();
    shuffle(&mut data, &mut rng);
    proof {
        data.deep_view().to_multiset_ensures();
        records.to_multiset_ensures();
        assert(data.deep_view().len() == records.len());
        lemma_partition_is_fair(data.deep_view(), records, splits as nat);
    }
    partition(&data, splits)
}

} // verus!
