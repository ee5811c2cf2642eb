use av1_grain::profile::{
    metric_index, metric_label, print_report, time, Metric, MetricId, METRIC_COUNT,
};

#[test]
fn a_new_metric_is_zero() {
    let m = Metric::new();
    assert_eq!((m.nanos, m.count), (0, 0));
}

#[test]
fn stages_have_places_and_names() {
    assert_eq!(metric_index(MetricId::FrameConvert), 0);
    assert_eq!(metric_index(MetricId::AddNoiseStdY), 10);
    assert_eq!(metric_index(MetricId::Finish), 16);
    assert_eq!(metric_label(0), "frame_convert");
    assert_eq!(metric_label(metric_index(MetricId::AddBlockObservationsCr)), "add_block_observations_cr");
    assert_eq!(metric_label(metric_index(MetricId::CombineState)), "combine_state");
    assert_eq!(metric_label(16), "finish");
}

#[test]
fn runs_are_added_up() {
    let mut m = Metric::new();
    m.record(5);
    m.record(7);
    assert_eq!((m.nanos, m.count), (12, 2));
}

#[test]
fn a_run_counts_for_at_most_the_largest_number() {
    let mut m = Metric::new();
    m.record(u128::MAX);
    assert_eq!((m.nanos, m.count), (u64::MAX, 1));
    m.record(3);
    assert_eq!((m.nanos, m.count), (2, 2));
}

#[test]
fn timing_hands_the_result_through() {
    assert_eq!(time(MetricId::SaveLatest, || 6 * 7), 42);
}

#[test]
fn the_report_lists_the_stages_that_ran() {
    let mut metrics = vec![Metric::new(); METRIC_COUNT];
    metrics[metric_index(MetricId::GrainParameters)].record(20);
    metrics[metric_index(MetricId::VerifyDimensions)].record(10);
    metrics[metric_index(MetricId::VerifyDimensions)].record(30);
    let lines = print_report(&metrics);
    assert_eq!(lines.len(), 2);
    assert_eq!((lines[0].label, lines[0].count, lines[0].nanos), ("verify_dimensions", 2, 40));
    assert_eq!((lines[1].label, lines[1].count, lines[1].nanos), ("grain_parameters", 1, 20));
}
