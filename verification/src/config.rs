//! The tuning knobs of a bootstrap, and what follows from them for a sample
//! of a given size: how many workers run, and how large each resample is.
use vstd::prelude::*;

verus! {

/// The size of a resample as a fraction of the sample's size.
#[derive(Debug, Clone, Copy)]
pub struct ResampleRatio {
    numerator: u32,
    denominator: u32,
}

impl ResampleRatio {
    #[verifier::type_invariant]
    spec fn well_formed(&self) -> bool {
        self.denominator > 0
    }

    /// The fraction's numerator.
    pub closed spec fn spec_numerator(&self) -> nat {
        self.numerator as nat
    }

    /// The fraction's denominator. It is never zero.
    pub closed spec fn spec_denominator(&self) -> nat {
        self.denominator as nat
    }

    /// The size of a resample of a sample of `sample_size` values: the
    /// fraction of `sample_size`, rounded down.
    pub open spec fn spec_resample_size(&self, sample_size: nat) -> nat {
        self.spec_numerator() * sample_size / self.spec_denominator()
    }

    /// The ratio `numerator / denominator`, unless the denominator is zero.
    pub fn new(numerator: u32, denominator: u32) -> (ratio: Option<Self>)
        ensures
            ratio is Some <==> denominator > 0,
            ratio matches Some(r) ==> r.spec_numerator() == numerator && r.spec_denominator()
                == denominator,
    {
        if denominator == 0 {
            None
        } else {
            Some(ResampleRatio { numerator, denominator })
        }
    }

    /// One half.
    pub fn half() -> (ratio: Self)
        ensures
            ratio.spec_numerator() == 1,
            ratio.spec_denominator() == 2,
    {
        ResampleRatio { numerator: 1, denominator: 2 }
    }

    /// The fraction's numerator.
    pub fn numerator(&self) -> (n: u32)
        ensures
            n == self.spec_numerator(),
    {
        self.numerator
    }

    /// The fraction's denominator.
    pub fn denominator(&self) -> (d: u32)
        ensures
            d == self.spec_denominator(),
            d > 0,
    {
        proof {
            use_type_invariant(self);
        }
        self.denominator
    }

    /// The size of a resample of a sample of `sample_size` values, or nothing
    /// where that size is beyond `usize`.
    pub fn resample_size(&self, sample_size: usize) -> (size: Option<usize>)
        ensures
            size is Some <==> self.spec_resample_size(sample_size as nat) <= usize::MAX,
            size matches Some(k) ==> k == self.spec_resample_size(sample_size as nat),
    {
        proof {
            use_type_invariant(self);
        }
        assert(self.numerator as u128 * sample_size as u128 <= 0xffff_ffff * 0xffff_ffff_ffff_ffff)
            by (nonlinear_arith)
            requires
                self.numerator <= 0xffff_ffff,
                sample_size <= 0xffff_ffff_ffff_ffff,
        ;
        let product: u128 = self.numerator as u128 * sample_size as u128;
        let size: u128 = product / self.denominator as u128;
        if size <= usize::MAX as u128 {
            Some(size as usize)
        } else {
            None
        }
    }
}

/// The knobs of one bootstrap.
#[derive(Debug, Clone, Copy)]
pub struct BootstrapConfig {
    resample_ratio: ResampleRatio,
    resample_count: u32,
    min_workers: u32,
    data_per_worker: u32,
}

/// What a bootstrap of one sample will do.
#[derive(Debug, Clone, Copy)]
pub struct Plan {
    /// How many workers run.
    pub workers: usize,
    /// How many values each resample draws.
    pub resample_size: usize,
    /// How many resamples each worker makes.
    pub resample_count: u32,
}

impl BootstrapConfig {
    #[verifier::type_invariant]
    spec fn well_formed(&self) -> bool {
        self.data_per_worker > 0
    }

    /// The size of a resample as a fraction of the sample's size.
    pub closed spec fn spec_resample_ratio(&self) -> ResampleRatio {
        self.resample_ratio
    }

    /// How many resamples each worker makes.
    pub closed spec fn spec_resample_count(&self) -> nat {
        self.resample_count as nat
    }

    /// The least number of workers.
    pub closed spec fn spec_min_workers(&self) -> nat {
        self.min_workers as nat
    }

    /// How many values of the sample call for one more worker. It is never
    /// zero.
    pub closed spec fn spec_data_per_worker(&self) -> nat {
        self.data_per_worker as nat
    }

    /// How many workers run on a sample of `sample_size` values: one for
    /// every `data_per_worker` values, and at least `min_workers`.
    pub open spec fn spec_worker_count(&self, sample_size: nat) -> nat {
        let by_size = sample_size / self.spec_data_per_worker();
        if by_size > self.spec_min_workers() {
            by_size
        } else {
            self.spec_min_workers()
        }
    }

    /// The size of each resample of a sample of `sample_size` values.
    pub open spec fn spec_resample_size(&self, sample_size: nat) -> nat {
        self.spec_resample_ratio().spec_resample_size(sample_size)
    }

    /// How many values the distribution of a sample of `sample_size` values
    /// holds: one for each resample of each worker.
    pub open spec fn spec_distribution_len(&self, sample_size: nat) -> nat {
        self.spec_worker_count(sample_size) * self.spec_resample_count()
    }

    /// Whether the machine can hold what a bootstrap of `sample_size` values
    /// needs: the resample size and the length of the distribution are within
    /// `usize`.
    pub open spec fn spec_fits(&self, sample_size: nat) -> bool {
        self.spec_resample_size(sample_size) <= usize::MAX && self.spec_distribution_len(sample_size)
            <= usize::MAX
    }

    /// A configuration with these knobs, unless `data_per_worker` is zero.
    pub fn new(
        resample_ratio: ResampleRatio,
        resample_count: u32,
        min_workers: u32,
        data_per_worker: u32,
    ) -> (config: Option<Self>)
        ensures
            config is Some <==> data_per_worker > 0,
            config matches Some(c) ==> c.spec_resample_ratio() == resample_ratio
                && c.spec_resample_count() == resample_count && c.spec_min_workers() == min_workers
                && c.spec_data_per_worker() == data_per_worker,
    {
        if data_per_worker == 0 {
            None
        } else {
            Some(BootstrapConfig { resample_ratio, resample_count, min_workers, data_per_worker })
        }
    }

    /// The size of a resample as a fraction of the sample's size.
    pub fn resample_ratio(&self) -> (ratio: ResampleRatio)
        ensures
            ratio == self.spec_resample_ratio(),
    {
        self.resample_ratio
    }

    /// How many resamples each worker makes.
    pub fn resample_count(&self) -> (count: u32)
        ensures
            count == self.spec_resample_count(),
    {
        self.resample_count
    }

    /// The least number of workers.
    pub fn min_workers(&self) -> (count: u32)
        ensures
            count == self.spec_min_workers(),
    {
        self.min_workers
    }

    /// How many values of the sample call for one more worker.
    pub fn data_per_worker(&self) -> (count: u32)
        ensures
            count == self.spec_data_per_worker(),
            count > 0,
    {
        proof {
            use_type_invariant(self);
        }
        self.data_per_worker
    }

    /// How many workers run on a sample of `sample_size` values.
    pub fn worker_count(&self, sample_size: usize) -> (workers: usize)
        ensures
            workers == self.spec_worker_count(sample_size as nat),
    {
        proof {
            use_type_invariant(self);
        }
        let by_size = sample_size / self.data_per_worker as usize;
        if by_size > self.min_workers as usize {
            by_size
        } else {
            self.min_workers as usize
        }
    }

    /// Whether the machine can hold what a bootstrap of `sample_size` values
    /// needs.
    pub fn fits(&self, sample_size: usize) -> (r: bool)
        ensures
            r == self.spec_fits(sample_size as nat),
    {
        let workers = self.worker_count(sample_size);
        match self.resample_ratio.resample_size(sample_size) {
            None => false,
            Some(_) => match workers.checked_mul(self.resample_count as usize) {
                None => false,
                Some(_) => true,
            },
        }
    }

    /// What a bootstrap of a sample of `sample_size` values will do.
    pub fn plan(&self, sample_size: usize) -> (plan: Plan)
        requires
            self.spec_fits(sample_size as nat),
        ensures
            plan.workers == self.spec_worker_count(sample_size as nat),
            plan.resample_size == self.spec_resample_size(sample_size as nat),
            plan.resample_count == self.spec_resample_count(),
    {
        let workers = self.worker_count(sample_size);
        let resample_size = match self.resample_ratio.resample_size(sample_size) {
            Some(size) => size,
            None => 0,
        };
        Plan { workers, resample_size, resample_count: self.resample_count }
    }
}

impl Default for BootstrapConfig {
    /// Resamples of half the sample's size, 100 000 of them for each worker,
    /// one worker for every 10 000 values and at least 15.
    fn default() -> (config: Self)
        ensures
            config.spec_resample_ratio().spec_numerator() == 1,
            config.spec_resample_ratio().spec_denominator() == 2,
            config.spec_resample_count() == 100_000,
            config.spec_min_workers() == 15,
            config.spec_data_per_worker() == 10_000,
    {
        BootstrapConfig {
            resample_ratio: ResampleRatio::half(),
            resample_count: 100_000,
            min_workers: 15,
            data_per_worker: 10_000,
        }
    }
}

} // verus!
