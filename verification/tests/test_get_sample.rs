use bootstrap::{
    bootstrap_iterative, get_sample, BS_Error, BootstrapConfig, ErrorPolicy, ParseError, Parser,
    ResampleRatio, SourceEvent, Step,
};

fn number(text: &str) -> Option<f64> {
    text.parse::<f64>().ok()
}

fn mean_step(sum: f64, value: &f64) -> f64 {
    sum + *value
}

fn mean_end(sum: f64, size: usize) -> f64 {
    if size == 0 {
        0.0
    } else {
        sum / size as f64
    }
}

/// Feeds `source` to a parser in chunks of `chunk` bytes, as a reader would.
fn parse_in_chunks(source: &[u8], chunk: usize, policy: ErrorPolicy) -> (Result<Vec<f64>, ParseError>, BS_Error) {
    let mut parser = Parser::new(policy, number);
    for piece in source.chunks(chunk) {
        match parser.step(SourceEvent::Data(piece)) {
            Step::Continue(next) => parser = next,
            Step::Done(report) => return (report.result, report.status),
        }
    }
    match parser.step(SourceEvent::End) {
        Step::Done(report) => (report.result, report.status),
        Step::Continue(_) => panic!("the end of the stream ends the parse"),
    }
}

#[test]
fn test_get_sample_small() {
    let mut err = BS_Error::NoError;
    let sample = get_sample("1 2 3 4 5 6 7 8 9 10 11".as_bytes(), ErrorPolicy::Permissive, number, &mut err);
    assert_eq!(sample.unwrap(), vec!(1.0, 2.0, 3.0, 4.0, 5.0, 6.0, 7.0, 8.0, 9.0, 10.0, 11.0));
    let sample = get_sample("1,2,3,4, \r\n5,  \n \r ,,".as_bytes(), ErrorPolicy::Permissive, number, &mut err);
    assert_eq!(sample.unwrap(), vec!(1.0, 2.0, 3.0, 4.0, 5.0));
}

#[test]
fn test_get_sample_large() {
    let mut text = String::new();
    for value in 33..=961 {
        text.push_str(&format!("{}\r\n", value));
    }
    assert!(text.len() > 3000);
    let (sample, status) = parse_in_chunks(text.as_bytes(), 1000, ErrorPolicy::Permissive);
    let sample = sample.unwrap();
    assert_eq!(sample[0], 33.0);
    assert_eq!(sample[sample.len() - 1], 961.0);
    assert_eq!(sample.len(), 929);
    assert_eq!(status, BS_Error::NoError);
}

#[test]
fn test_bootstrap_mean() {
    let mut err = BS_Error::NoError;
    let sample = get_sample("4 8 15 16 23 42".as_bytes(), ErrorPolicy::Strict, number, &mut err).unwrap();
    let config = BootstrapConfig::new(ResampleRatio::half(), 50, 10, 10_000).unwrap();
    let bs_dist = bootstrap_iterative(sample, 0.0, mean_step, mean_end, &config).unwrap();
    println!("size: {}, first: {}, last: {}", bs_dist.len(), bs_dist[0], bs_dist[bs_dist.len() - 1]);
    assert_eq!(bs_dist.len(), 500);
}
