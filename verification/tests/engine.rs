use bootstrap::{
    bootstrap_iterative, conclude, run_worker, BootstrapConfig, Distribution, EngineError, ResampleRatio,
};

fn mean_step(sum: f64, value: &f64) -> f64 {
    sum + *value
}

fn mean_end(sum: f64, size: usize) -> f64 {
    if size == 0 {
        0.0
    } else {
        sum / size as f64
    }
}

fn small(resample_count: u32, min_workers: u32) -> BootstrapConfig {
    BootstrapConfig::new(ResampleRatio::half(), resample_count, min_workers, 10_000).unwrap()
}

#[test]
fn default_configuration() {
    let config = BootstrapConfig::default();
    assert_eq!(config.resample_ratio().numerator(), 1);
    assert_eq!(config.resample_ratio().denominator(), 2);
    assert_eq!(config.resample_count(), 100_000);
    assert_eq!(config.min_workers(), 15);
    assert_eq!(config.data_per_worker(), 10_000);
}

#[test]
fn zero_divisors_are_refused() {
    assert!(ResampleRatio::new(1, 0).is_none());
    assert!(ResampleRatio::new(0, 1).is_some());
    assert!(BootstrapConfig::new(ResampleRatio::half(), 10, 10, 0).is_none());
    assert!(BootstrapConfig::new(ResampleRatio::half(), 0, 0, 1).is_some());
}

#[test]
fn worker_count_is_the_larger_of_floor_and_quotient() {
    let config = BootstrapConfig::default();
    assert_eq!(config.worker_count(0), 15);
    assert_eq!(config.worker_count(9_999), 15);
    assert_eq!(config.worker_count(150_000), 15);
    assert_eq!(config.worker_count(159_999), 15);
    assert_eq!(config.worker_count(160_000), 16);
    assert_eq!(config.worker_count(1_000_000), 100);
    let other = BootstrapConfig::new(ResampleRatio::half(), 1, 2, 3).unwrap();
    assert_eq!(other.worker_count(5), 2);
    assert_eq!(other.worker_count(6), 2);
    assert_eq!(other.worker_count(9), 3);
    assert_eq!(other.worker_count(11), 3);
}

#[test]
fn resample_size_is_rounded_down() {
    let half = ResampleRatio::half();
    assert_eq!(half.resample_size(0), Some(0));
    assert_eq!(half.resample_size(1), Some(0));
    assert_eq!(half.resample_size(7), Some(3));
    assert_eq!(half.resample_size(8), Some(4));
    let two_thirds = ResampleRatio::new(2, 3).unwrap();
    assert_eq!(two_thirds.resample_size(10), Some(6));
    let whole = ResampleRatio::new(5, 5).unwrap();
    assert_eq!(whole.resample_size(usize::MAX), Some(usize::MAX));
    let double = ResampleRatio::new(2, 1).unwrap();
    assert_eq!(double.resample_size(21), Some(42));
    assert_eq!(double.resample_size(usize::MAX), None);
}

#[test]
fn plan_and_limits() {
    let config = BootstrapConfig::new(ResampleRatio::new(1, 4).unwrap(), 7, 3, 10).unwrap();
    assert!(config.fits(100));
    let plan = config.plan(100);
    assert_eq!(plan.workers, 10);
    assert_eq!(plan.resample_size, 25);
    assert_eq!(plan.resample_count, 7);
    let huge = BootstrapConfig::new(ResampleRatio::half(), u32::MAX, 1, 1).unwrap();
    assert!(!huge.fits(usize::MAX));
    let wide = BootstrapConfig::new(ResampleRatio::new(3, 1).unwrap(), 1, 1, 1_000_000).unwrap();
    assert!(!wide.fits(usize::MAX));
    assert!(wide.fits(1000));
}

#[test]
fn an_empty_sample_is_refused() {
    let config = small(5, 2);
    let result = bootstrap_iterative(Vec::<f64>::new(), 0.0, mean_step, mean_end, &config);
    assert_eq!(result, Err(EngineError::EmptySample));
    let batch = run_worker(&Vec::<f64>::new(), 0.0, &mean_step, &mean_end, 0, 5);
    assert_eq!(batch, Err(EngineError::EmptySample));
}

#[test]
fn a_constant_sample_gives_a_constant_distribution() {
    let config = small(200, 3);
    for value in [2.5, -7.0, 0.0, 1.0e10] {
        let sample = vec![value; 8];
        let distribution = bootstrap_iterative(sample, 0.0, mean_step, mean_end, &config).unwrap();
        assert_eq!(distribution.len(), 600);
        assert!(distribution.iter().all(|mean| *mean == value));
    }
}

#[test]
fn length_and_range_of_a_distribution() {
    let sample = vec![3.0, -1.0, 4.0, 1.5, -9.25, 2.0, 6.0, 5.0, 3.5, 8.0];
    let config = small(150, 4);
    let distribution = bootstrap_iterative(sample.clone(), 0.0, mean_step, mean_end, &config).unwrap();
    assert_eq!(distribution.len(), config.worker_count(sample.len()) * 150);
    assert_eq!(distribution.len(), 600);
    assert!(distribution.iter().all(|mean| -9.25 <= *mean && *mean <= 8.0));
    assert!(distribution.iter().any(|mean| *mean != distribution[0]));
}

#[test]
fn two_bootstraps_have_the_same_length() {
    let sample = vec![1.0, 2.0, 3.0, 4.0, 5.0, 6.0];
    let config = small(40, 5);
    let first = bootstrap_iterative(sample.clone(), 0.0, mean_step, mean_end, &config).unwrap();
    let second = bootstrap_iterative(sample, 0.0, mean_step, mean_end, &config).unwrap();
    assert_eq!(first.len(), 200);
    assert_eq!(second.len(), 200);
}

#[test]
fn every_draw_lies_within_the_sample() {
    let sample: Vec<usize> = (0..5).collect();
    let largest = |seen: usize, value: &usize| if *value > seen { *value } else { seen };
    let count = |_: usize, size: usize| size;
    let keep = |seen: usize, _: usize| seen;
    let sizes = run_worker(&sample, 0, &largest, &count, 3, 20).unwrap();
    assert_eq!(sizes, vec![3; 20]);
    let drawn = run_worker(&sample, 0, &largest, &keep, 50, 300).unwrap();
    assert_eq!(drawn.len(), 300);
    assert!(drawn.iter().all(|value| *value < 5));
    let picks = run_worker(&sample, 0, &|_: usize, value: &usize| *value, &keep, 1, 2000).unwrap();
    for position in 0..5 {
        assert!(picks.iter().any(|value| *value == position));
    }
}

#[test]
fn an_empty_resample_is_finalized_from_zero() {
    let sample = vec![9.0];
    let config = small(4, 2);
    assert_eq!(config.plan(1).resample_size, 0);
    let distribution = bootstrap_iterative(sample, 0.0, mean_step, mean_end, &config).unwrap();
    assert_eq!(distribution, vec![0.0; 8]);
}

#[test]
fn the_collector_loses_and_repeats_nothing() {
    let mut collector = Distribution::new();
    assert_eq!(collector.len(), 0);
    collector.append(1);
    collector.absorb(vec![2, 3]);
    collector.absorb(vec![]);
    collector.append(4);
    assert_eq!(collector.len(), 4);
    assert_eq!(collector.into_values(), vec![1, 2, 3, 4]);
}

#[test]
fn a_failed_worker_fails_the_bootstrap() {
    let mut collector = Distribution::new();
    collector.absorb(vec![1.0, 2.0]);
    assert_eq!(conclude(collector, true), Err(EngineError::WorkerFailed));
    let mut collector = Distribution::new();
    collector.absorb(vec![1.0, 2.0]);
    assert_eq!(conclude(collector, false), Ok(vec![1.0, 2.0]));
}
