//! The resampling engine. A worker draws resamples with replacement, folds
//! each into an accumulator with `evolve` and turns the accumulator into a
//! statistic with `finalize`; the statistics of all workers make up the
//! distribution.
use rand::rngs::ThreadRng;
use vstd::prelude::*;
use crate::config::BootstrapConfig;
use crate::distribution::Distribution;
use crate::random::draw_index;

verus! {

/// Why a bootstrap failed.
#[derive(Debug, Clone, Copy, PartialEq, Eq, Structural)]
pub enum EngineError {
    /// A worker ended abnormally. All its fellow workers' results are given
    /// up with it.
    WorkerFailed,
    /// The sample holds no value.
    EmptySample,
}

/// Whether `picks` are the draws of one resample: `size` positions, each
/// within a sample of `sample_size` values.
pub open spec fn valid_picks(picks: Seq<int>, sample_size: nat, size: nat) -> bool {
    picks.len() == size && forall|i: int| 0 <= i < picks.len() ==> 0 <= #[trigger] picks[i] < sample_size
}

/// The resample that `picks` draw from `sample`. A position may be drawn
/// more than once.
pub open spec fn resample<T>(sample: Seq<T>, picks: Seq<int>) -> Seq<T> {
    Seq::new(picks.len(), |i: int| sample[picks[i]])
}

/// Whether `trace` records a fold of `drawn`: it starts at `zero`, and each
/// value drawn takes it one step on through `evolve`.
pub open spec fn fold_trace<T, A, E: Fn(A, &T) -> A>(evolve: E, zero: A, drawn: Seq<T>, trace: Seq<A>) -> bool {
    &&& trace.len() == drawn.len() + 1
    &&& trace[0] == zero
    &&& forall|i: int|
        #![trigger drawn[i]]
        0 <= i < drawn.len() ==> call_ensures(evolve, (trace[i], &drawn[i]), trace[i + 1])
}

/// Whether `value` is a statistic of `drawn`: what `finalize` makes of the
/// accumulator that some fold of `drawn` ends with, and of the number of
/// values drawn.
pub open spec fn statistic_of<T, A, O, E: Fn(A, &T) -> A, G: Fn(A, usize) -> O>(
    evolve: E,
    finalize: G,
    zero: A,
    drawn: Seq<T>,
    value: O,
) -> bool {
    exists|trace: Seq<A>| #[trigger]
        fold_trace(evolve, zero, drawn, trace) && call_ensures(
            finalize,
            (trace.last(), drawn.len() as usize),
            value,
        )
}

/// Whether `value` is the statistic of some resample of `size` values drawn
/// from `sample`.
pub open spec fn resample_statistic<T, A, O, E: Fn(A, &T) -> A, G: Fn(A, usize) -> O>(
    evolve: E,
    finalize: G,
    zero: A,
    sample: Seq<T>,
    size: nat,
    value: O,
) -> bool {
    exists|picks: Seq<int>| #[trigger]
        valid_picks(picks, sample.len(), size) && statistic_of(
            evolve,
            finalize,
            zero,
            resample(sample, picks),
            value,
        )
}

/// Whether the statistic can be computed on every resample of `size` values
/// of `sample`: `evolve` takes every value of the sample, and `finalize`
/// takes the size.
pub open spec fn statistic_accepts<T, A, O, E: Fn(A, &T) -> A, G: Fn(A, usize) -> O>(
    evolve: E,
    finalize: G,
    sample: Seq<T>,
    size: usize,
) -> bool {
    &&& forall|acc: A, i: int| 0 <= i < sample.len() ==> call_requires(evolve, (acc, &#[trigger] sample[i]))
    &&& forall|acc: A| call_requires(finalize, (acc, size))
}

/// The work of one worker: `resample_count` resamples of `resample_size`
/// values each, drawn with the generator of the calling thread, and the
/// statistic of each. A sample without values has no resample.
pub fn run_worker<T, A: Copy, O, E: Fn(A, &T) -> A, G: Fn(A, usize) -> O>(
    sample: &Vec<T>,
    zero: A,
    evolve: &E,
    finalize: &G,
    resample_size: usize,
    resample_count: u32,
) -> (r: Result<Vec<O>, EngineError>)
    requires
        statistic_accepts(*evolve, *finalize, sample@, resample_size),
    ensures
        match r {
            Ok(batch) => sample.len() > 0 && batch.len() == resample_count && forall|j: int|
                0 <= j < batch.len() ==> resample_statistic(
                    *evolve,
                    *finalize,
                    zero,
                    sample@,
                    resample_size as nat,
                    #[trigger] batch[j],
                ),
            Err(error) => sample.len() == 0 && error == EngineError::EmptySample,
        },
{
    let sample_size = sample.len();
    if sample_size == 0 {
        return Err(EngineError::EmptySample);
    }
    let mut rng: ThreadRng = rand::thread_rng();
    let mut batch: Vec<O> = Vec::new();
    let mut made: u32 = 0;
    while made < resample_count
        invariant
            made <= resample_count,
            batch.len() == made,
            sample_size == sample.len(),
            sample_size > 0,
            statistic_accepts(*evolve, *finalize, sample@, resample_size),
            forall|j: int|
                0 <= j < batch.len() ==> resample_statistic(
                    *evolve,
                    *finalize,
                    zero,
                    sample@,
                    resample_size as nat,
                    #[trigger] batch[j],
                ),
        decreases resample_count - made,
    {
        let mut acc = zero;
        let ghost mut picks: Seq<int> = Seq::empty();
        let ghost mut trace: Seq<A> = seq![zero];
        let mut drawn: usize = 0;
        while drawn < resample_size
            invariant
                drawn <= resample_size,
                sample_size == sample.len(),
                sample_size > 0,
                statistic_accepts(*evolve, *finalize, sample@, resample_size),
                valid_picks(picks, sample@.len(), drawn as nat),
                fold_trace(*evolve, zero, resample(sample@, picks), trace),
                trace.last() == acc,
            decreases resample_size - drawn,
        {
            let index = draw_index(&mut rng, sample_size);
            let next = evolve(acc, &sample[index]);
            proof {
                let longer = picks.push(index as int);
                let before = resample(sample@, picks);
                let after = resample(sample@, longer);
                let further = trace.push(next);
                assert forall|i: int| #![trigger after[i]] 0 <= i < after.len() implies call_ensures(
                    *evolve,
                    (further[i], &after[i]),
                    further[i + 1],
                ) by {
                    if i < before.len() {
                        assert(after[i] == before[i]);
                    }
                }
                picks = longer;
                trace = further;
            }
            acc = next;
            drawn += 1;
        }
        let value = finalize(acc, resample_size);
        proof {
            assert(fold_trace(*evolve, zero, resample(sample@, picks), trace));
            assert(statistic_of(*evolve, *finalize, zero, resample(sample@, picks), value));
            assert(valid_picks(picks, sample@.len(), resample_size as nat));
        }
        let ghost shorter = batch@;
        batch.push(value);
        proof {
            assert forall|j: int| 0 <= j < batch.len() implies resample_statistic(
                *evolve,
                *finalize,
                zero,
                sample@,
                resample_size as nat,
                #[trigger] batch[j],
            ) by {
                if j < shorter.len() {
                    assert(batch[j] == shorter[j]);
                }
            }
        }
        made += 1;
    }
    Ok(batch)
}

/// Whether `values` is a distribution of `sample` under `config`: it holds
/// one value for each resample of each worker, and each value is the
/// statistic of some resample.
pub open spec fn is_distribution<T, A, O, E: Fn(A, &T) -> A, G: Fn(A, usize) -> O>(
    evolve: E,
    finalize: G,
    zero: A,
    sample: Seq<T>,
    config: BootstrapConfig,
    values: Seq<O>,
) -> bool {
    &&& values.len() == config.spec_distribution_len(sample.len())
    &&& forall|j: int|
        0 <= j < values.len() ==> resample_statistic(
            evolve,
            finalize,
            zero,
            sample,
            config.spec_resample_size(sample.len()),
            #[trigger] values[j],
        )
}

/// Whether `result` is a possible end of a bootstrap of `sample`: an empty
/// sample is refused, and every other sample gets a distribution.
pub open spec fn bootstrap_outcome<T, A, O, E: Fn(A, &T) -> A, G: Fn(A, usize) -> O>(
    evolve: E,
    finalize: G,
    zero: A,
    sample: Seq<T>,
    config: BootstrapConfig,
    result: Result<Seq<O>, EngineError>,
) -> bool {
    match result {
        Ok(values) => sample.len() > 0 && is_distribution(evolve, finalize, zero, sample, config, values),
        Err(error) => sample.len() == 0 && error == EngineError::EmptySample,
    }
}

/// The distribution of a result, as a sequence.
pub open spec fn distribution_view<O>(result: Result<Vec<O>, EngineError>) -> Result<Seq<O>, EngineError> {
    match result {
        Ok(values) => Ok(values@),
        Err(error) => Err(error),
    }
}

/// Ends a bootstrap once every worker is done. If any worker failed, the
/// whole bootstrap has failed; otherwise the collected values are its
/// distribution.
pub fn conclude<O>(distribution: Distribution<O>, worker_failed: bool) -> (r: Result<Vec<O>, EngineError>)
    ensures
        match r {
            Ok(values) => !worker_failed && values@ == distribution@,
            Err(error) => worker_failed && error == EngineError::WorkerFailed,
        },
{
    if worker_failed {
        Err(EngineError::WorkerFailed)
    } else {
        Ok(distribution.into_values())
    }
}

/// The bootstrap distribution of the statistic that `evolve` and `finalize`
/// compute from `zero`. The workers that `config` asks for run one after the
/// other on the calling thread.
pub fn bootstrap_iterative<T, A: Copy, O, E: Fn(A, &T) -> A, G: Fn(A, usize) -> O>(
    sample: Vec<T>,
    zero: A,
    evolve: E,
    finalize: G,
    config: &BootstrapConfig,
) -> (r: Result<Vec<O>, EngineError>)
    requires
        config.spec_fits(sample.len() as nat),
        statistic_accepts(evolve, finalize, sample@, config.spec_resample_size(sample.len() as nat) as usize),
    ensures
        bootstrap_outcome(evolve, finalize, zero, sample@, *config, distribution_view(r)),
{
    if sample.len() == 0 {
        return Err(EngineError::EmptySample);
    }
    let plan = config.plan(sample.len());
    let mut distribution: Distribution<O> = Distribution::new();
    let mut done: usize = 0;
    while done < plan.workers
        invariant
            done <= plan.workers,
            plan.workers * plan.resample_count <= usize::MAX,
            plan.resample_size == config.spec_resample_size(sample.len() as nat),
            sample.len() > 0,
            statistic_accepts(evolve, finalize, sample@, plan.resample_size),
            distribution@.len() == done * plan.resample_count,
            forall|j: int|
                0 <= j < distribution@.len() ==> resample_statistic(
                    evolve,
                    finalize,
                    zero,
                    sample@,
                    plan.resample_size as nat,
                    #[trigger] distribution@[j],
                ),
        decreases plan.workers - done,
    {
        match run_worker(&sample, zero, &evolve, &finalize, plan.resample_size, plan.resample_count) {
            Ok(batch) => {
                let ghost before = distribution@;
                distribution.absorb(batch);
                proof {
                    assert((done + 1) * plan.resample_count == done * plan.resample_count
                        + plan.resample_count) by (nonlinear_arith);
                    assert forall|j: int| 0 <= j < distribution@.len() implies resample_statistic(
                        evolve,
                        finalize,
                        zero,
                        sample@,
                        plan.resample_size as nat,
                        #[trigger] distribution@[j],
                    ) by {
                        if j < before.len() {
                            assert(distribution@[j] == before[j]);
                        } else {
                            assert(distribution@[j] == batch@[j - before.len()]);
                        }
                    }
                }
            },
            Err(error) => {
                return Err(error);
            },
        }
        done += 1;
    }
    conclude(distribution, false)
}

/// Two distributions of one sample under one configuration have the same
/// length, whatever was drawn for each.
pub proof fn lemma_same_length<T, A, O, E: Fn(A, &T) -> A, G: Fn(A, usize) -> O>(
    evolve: E,
    finalize: G,
    zero: A,
    sample: Seq<T>,
    config: BootstrapConfig,
    first: Seq<O>,
    second: Seq<O>,
)
    requires
        is_distribution(evolve, finalize, zero, sample, config, first),
        is_distribution(evolve, finalize, zero, sample, config, second),
    ensures
        first.len() == second.len(),
        first.len() == config.spec_worker_count(sample.len()) * config.spec_resample_count(),
{
}

/// Every resample of a sample whose values all equal `value` holds `value`
/// and nothing else.
pub proof fn lemma_constant_resample<T>(sample: Seq<T>, value: T, picks: Seq<int>)
    requires
        forall|i: int| 0 <= i < sample.len() ==> #[trigger] sample[i] == value,
        valid_picks(picks, sample.len(), picks.len()),
    ensures
        resample(sample, picks) == Seq::new(picks.len(), |i: int| value),
{
    assert forall|i: int| 0 <= i < picks.len() implies resample(sample, picks)[i] == value by {
        assert(sample[picks[i]] == value);
    }
    assert(resample(sample, picks) =~= Seq::new(picks.len(), |i: int| value));
}

/// Whether `evolve` and `finalize` are functions: what they return is
/// settled by what they are given.
pub open spec fn deterministic<T, A, O, E: Fn(A, &T) -> A, G: Fn(A, usize) -> O>(evolve: E, finalize: G) -> bool {
    &&& forall|acc: A, value: &T, first: A, second: A|
        call_ensures(evolve, (acc, value), first) && call_ensures(evolve, (acc, value), second) ==> first
            == second
    &&& forall|acc: A, size: usize, first: O, second: O|
        call_ensures(finalize, (acc, size), first) && call_ensures(finalize, (acc, size), second) ==> first
            == second
}

/// Two folds of the same values with a function go through the same
/// accumulators.
pub proof fn lemma_fold_unique<T, A, E: Fn(A, &T) -> A>(
    evolve: E,
    zero: A,
    drawn: Seq<T>,
    first: Seq<A>,
    second: Seq<A>,
    upto: int,
)
    requires
        forall|acc: A, value: &T, one: A, other: A|
            call_ensures(evolve, (acc, value), one) && call_ensures(evolve, (acc, value), other) ==> one
                == other,
        fold_trace(evolve, zero, drawn, first),
        fold_trace(evolve, zero, drawn, second),
        0 <= upto <= drawn.len(),
    ensures
        first[upto] == second[upto],
    decreases upto,
{
    if upto > 0 {
        lemma_fold_unique(evolve, zero, drawn, first, second, upto - 1);
        let value = drawn[upto - 1];
        assert(call_ensures(evolve, (first[upto - 1], &value), first[upto - 1 + 1]));
        assert(call_ensures(evolve, (second[upto - 1], &value), second[upto - 1 + 1]));
    }
}

/// On a sample whose values are all equal, a statistic computed by functions
/// has one value only: whichever positions are drawn, every resample gives
/// the same.
pub proof fn lemma_constant_sample<T, A, O, E: Fn(A, &T) -> A, G: Fn(A, usize) -> O>(
    evolve: E,
    finalize: G,
    zero: A,
    sample: Seq<T>,
    value: T,
    size: nat,
    first: O,
    second: O,
)
    requires
        forall|i: int| 0 <= i < sample.len() ==> #[trigger] sample[i] == value,
        deterministic(evolve, finalize),
        resample_statistic(evolve, finalize, zero, sample, size, first),
        resample_statistic(evolve, finalize, zero, sample, size, second),
    ensures
        first == second,
        statistic_of(evolve, finalize, zero, Seq::new(size, |i: int| value), first),
{
    let picks_a = choose|picks: Seq<int>| #[trigger]
        valid_picks(picks, sample.len(), size) && statistic_of(
            evolve,
            finalize,
            zero,
            resample(sample, picks),
            first,
        );
    let picks_b = choose|picks: Seq<int>| #[trigger]
        valid_picks(picks, sample.len(), size) && statistic_of(
            evolve,
            finalize,
            zero,
            resample(sample, picks),
            second,
        );
    lemma_constant_resample(sample, value, picks_a);
    lemma_constant_resample(sample, value, picks_b);
    let drawn = Seq::new(size, |i: int| value);
    assert(resample(sample, picks_a) == drawn);
    assert(resample(sample, picks_b) == drawn);
    let trace_a = choose|trace: Seq<A>| #[trigger]
        fold_trace(evolve, zero, drawn, trace) && call_ensures(
            finalize,
            (trace.last(), drawn.len() as usize),
            first,
        );
    let trace_b = choose|trace: Seq<A>| #[trigger]
        fold_trace(evolve, zero, drawn, trace) && call_ensures(
            finalize,
            (trace.last(), drawn.len() as usize),
            second,
        );
    lemma_fold_unique(evolve, zero, drawn, trace_a, trace_b, drawn.len() as int);
}

/// What a collector holds after it has absorbed `batches` one by one.
pub open spec fn collected<O>(batches: Seq<Seq<O>>) -> Seq<O>
    decreases batches.len(),
{
    if batches.len() == 0 {
        Seq::empty()
    } else {
        collected(batches.drop_last()) + batches.last()
    }
}

/// A collector that has absorbed the batches of all workers holds one value
/// for each resample of each worker: none is lost and none comes in twice.
pub proof fn lemma_collected_len<O>(batches: Seq<Seq<O>>, per_worker: nat)
    requires
        forall|w: int| 0 <= w < batches.len() ==> (#[trigger] batches[w]).len() == per_worker,
    ensures
        collected(batches).len() == batches.len() * per_worker,
    decreases batches.len(),
{
    if batches.len() > 0 {
        let before = batches.drop_last();
        assert forall|w: int| 0 <= w < before.len() implies (#[trigger] before[w]).len() == per_worker by {
            assert(batches[w].len() == per_worker);
        }
        lemma_collected_len(before, per_worker);
        assert(batches.last().len() == per_worker);
        assert(batches.len() * per_worker == before.len() * per_worker + per_worker) by (nonlinear_arith)
            requires
                batches.len() == before.len() + 1,
        ;
    }
}

} // verus!
