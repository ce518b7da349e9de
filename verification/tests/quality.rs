use readqc::aggregate::{decode_quality, decode_record, merge_tables, QualityAggregator};
use readqc::classify::{classify, QualityVerdict};
use readqc::histogram::{total_count, weighted_count_sum};
use readqc::summary::{position_summaries, summarize, FiveNumberSummary};

fn eighths_to_f32(v: i64) -> f32 {
    (v as f64 / 8.0) as f32
}

fn five(s: &FiveNumberSummary) -> [f32; 5] {
    [
        eighths_to_f32(s.lower_fence),
        eighths_to_f32(s.q1),
        eighths_to_f32(s.median),
        eighths_to_f32(s.q3),
        eighths_to_f32(s.upper_fence),
    ]
}

fn summary_with_median(median: i64) -> FiveNumberSummary {
    FiveNumberSummary {
        lower_fence: median,
        q1: median,
        median,
        q3: median,
        upper_fence: median,
    }
}

#[test]
fn test_quartiles1() {
    let v1 = [-49.5, 24.75, 49.5, 74.25, 148.5];
    let v2 = five(&summarize(&vec![1; 100]));
    assert!(v1 == v2);
}

#[test]
fn test_quartiles2() {
    let v1 = [6.25, 25.0, 25.0, 37.5, 56.25];
    let mut h = vec![0_usize; 76];
    h[25] = 75;
    h[75] = 25;
    let v2 = five(&summarize(&h));
    assert!(v1 == v2);
}

#[test]
fn test_quartiles3() {
    let v1 = [43.75, 62.5, 75.0, 75.0, 93.75];
    let mut h = vec![0_usize; 76];
    h[25] = 25;
    h[75] = 75;
    let v2 = five(&summarize(&h));
    assert!(v1 == v2);
}

#[test]
fn single_sample_summary_is_constant() {
    let mut h = vec![0_usize; 94];
    h[42] = 1;
    assert!(five(&summarize(&h)) == [42.0, 42.0, 42.0, 42.0, 42.0]);
}

#[test]
fn two_sample_interpolation() {
    let v = five(&summarize(&vec![1_usize, 1]));
    assert!(v == [-0.5, 0.25, 0.5, 0.75, 1.5]);
}

#[test]
fn classify_empty_is_pass() {
    assert_eq!(classify(&vec![]), QualityVerdict::Pass);
}

#[test]
fn classify_median_twenty_fails() {
    let rows = vec![(0_usize, summary_with_median(20 * 8))];
    assert_eq!(classify(&rows), QualityVerdict::Fail);
}

#[test]
fn classify_median_twenty_five_warns() {
    let rows = vec![(0_usize, summary_with_median(25 * 8))];
    assert_eq!(classify(&rows), QualityVerdict::Warn);
}

#[test]
fn classify_median_just_above_twenty_five_passes() {
    // 201 eighths = 25.125, the smallest representable median above 25.0
    let rows = vec![(0_usize, summary_with_median(201))];
    assert_eq!(classify(&rows), QualityVerdict::Pass);
}

#[test]
fn classify_fail_absorbs_warn() {
    let rows = vec![
        (0_usize, summary_with_median(25 * 8)),
        (1_usize, summary_with_median(20 * 8)),
        (2_usize, summary_with_median(40 * 8)),
    ];
    assert_eq!(classify(&rows), QualityVerdict::Fail);
}

#[test]
fn aggregator_counts_per_position() {
    let mut agg = QualityAggregator::new();
    agg.observe_record(&vec![30, 31]);
    agg.observe_record(&vec![30]);
    let (table, unreadable) = agg.finish();
    assert!(!unreadable);
    assert_eq!(table.len(), 2);
    assert_eq!(table[0][30], 2);
    assert_eq!(table[1][31], 1);
    assert_eq!(total_count(&table[0]), 2);
    assert_eq!(total_count(&table[1]), 1);
}

#[test]
fn empty_record_changes_nothing() {
    let mut agg = QualityAggregator::new();
    agg.observe_record(&vec![30]);
    agg.observe_record(&vec![]);
    let (table, _) = agg.finish();
    assert_eq!(table.len(), 1);
    assert_eq!(total_count(&table[0]), 1);
}

#[test]
fn empty_stream_yields_no_rows_and_passes() {
    let agg = QualityAggregator::new();
    let (table, unreadable) = agg.finish();
    assert!(table.is_empty());
    assert!(!unreadable);
    let rows = position_summaries(&table);
    assert!(rows.is_empty());
    assert_eq!(classify(&rows), QualityVerdict::Pass);
}

#[test]
fn aggregator_merge_order_irrelevant() {
    let a = vec![vec![20_u8, 30], vec![25]];
    let b = vec![vec![40_u8], vec![10, 11, 12]];
    let mut first = QualityAggregator::new();
    first.observe_batch(&a);
    first.observe_batch(&b);
    let mut second = QualityAggregator::new();
    second.observe_batch(&b);
    second.observe_batch(&a);
    assert_eq!(first.finish().0, second.finish().0);
}

#[test]
fn sharded_aggregation_merges_to_single_pass() {
    let a = vec![vec![20_u8, 30], vec![25]];
    let b = vec![vec![40_u8], vec![10, 11, 12]];
    let mut sharded_a = QualityAggregator::new();
    sharded_a.observe_batch(&a);
    let mut sharded_b = QualityAggregator::new();
    sharded_b.observe_batch(&b);
    let merged = merge_tables(&sharded_a.finish().0, &sharded_b.finish().0);
    let mut single = QualityAggregator::new();
    single.observe_batch(&a);
    single.observe_batch(&b);
    assert_eq!(merged, single.finish().0);
}

#[test]
fn aggregator_notes_unreadable_record() {
    let mut agg = QualityAggregator::new();
    agg.observe_record(&vec![33]);
    assert!(!agg.saw_unreadable());
    agg.note_unreadable();
    assert!(agg.saw_unreadable());
    let (table, unreadable) = agg.finish();
    assert!(unreadable);
    assert_eq!(table.len(), 1);
}

#[test]
fn summaries_skip_unobserved_positions() {
    let mut agg = QualityAggregator::new();
    agg.observe(2, 30);
    let (table, _) = agg.finish();
    assert_eq!(table.len(), 3);
    let rows = position_summaries(&table);
    assert_eq!(rows.len(), 1);
    assert_eq!(rows[0].0, 2);
    assert!(five(&rows[0].1) == [30.0, 30.0, 30.0, 30.0, 30.0]);
}

#[test]
fn summaries_come_in_ascending_position_order() {
    let mut agg = QualityAggregator::new();
    agg.observe_record(&vec![50, 51, 52]);
    agg.observe_record(&vec![40, 41]);
    let (table, _) = agg.finish();
    let rows = position_summaries(&table);
    assert_eq!(rows.len(), 3);
    assert_eq!(rows[0].0, 0);
    assert_eq!(rows[1].0, 1);
    assert_eq!(rows[2].0, 2);
}

#[test]
fn pipeline_all_medians_high_passes() {
    let mut agg = QualityAggregator::new();
    agg.observe_record(&vec![38, 39, 40]);
    agg.observe_record(&vec![36, 37, 38]);
    let (table, _) = agg.finish();
    let rows = position_summaries(&table);
    assert_eq!(classify(&rows), QualityVerdict::Pass);
}

#[test]
fn pipeline_median_twenty_from_records_fails() {
    let mut agg = QualityAggregator::new();
    agg.observe_record(&vec![20]);
    agg.observe_record(&vec![20]);
    agg.observe_record(&vec![20]);
    let (table, _) = agg.finish();
    let rows = position_summaries(&table);
    assert!(five(&rows[0].1) == [20.0, 20.0, 20.0, 20.0, 20.0]);
    assert_eq!(classify(&rows), QualityVerdict::Fail);
}

#[test]
fn pipeline_median_twenty_five_from_records_warns() {
    let mut agg = QualityAggregator::new();
    agg.observe_record(&vec![25, 26]);
    let (table, _) = agg.finish();
    let rows = position_summaries(&table);
    assert_eq!(classify(&rows), QualityVerdict::Warn);
}

#[test]
fn verdict_labels_are_fixed() {
    assert_eq!(QualityVerdict::Pass.label(), "pass");
    assert_eq!(QualityVerdict::Warn.label(), "warn");
    assert_eq!(QualityVerdict::Fail.label(), "fail");
}

#[test]
fn decode_removes_fixed_offset() {
    assert_eq!(decode_quality(33), 0);
    assert_eq!(decode_quality(74), 41);
    assert_eq!(decode_quality(126), 93);
}

#[test]
fn decode_record_accepts_encodable_bytes() {
    assert_eq!(decode_record(&vec![33, 74, 126]), Some(vec![0, 41, 93]));
    assert_eq!(decode_record(&vec![]), Some(vec![]));
}

#[test]
fn decode_record_rejects_out_of_range_bytes() {
    assert_eq!(decode_record(&vec![32]), None);
    assert_eq!(decode_record(&vec![33, 127]), None);
}

#[test]
fn weighted_sum_matches_hand_computation() {
    let mut h = vec![0_usize; 76];
    h[25] = 75;
    h[75] = 25;
    // 25 * 75 + 75 * 25
    assert_eq!(weighted_count_sum(&h), 3750);
    assert_eq!(weighted_count_sum(&vec![1_usize, 1]), 1);
}
