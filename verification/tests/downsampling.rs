//! Decimation and largest-triangle-three-buckets downsampling.

use rust_data_inspector::downsampling::{decimate, downsample, lttb, DownsamplingMethod};
use rust_data_inspector::tabs::TimeSeriesTab;

#[test]
fn decimate_emits_every_step_th_index() {
    let time: Vec<i64> = (0..10).collect();
    // step = max(10 / 3, 1) = 3, count = ceil(10 / 3) = 4.
    assert_eq!(decimate(&time, 3), vec![0, 3, 6, 9]);
}

#[test]
fn decimate_with_a_large_budget_keeps_everything() {
    let time: Vec<i64> = (0..5).collect();
    assert_eq!(decimate(&time, 100), vec![0, 1, 2, 3, 4]);
}

#[test]
fn decimate_of_an_empty_buffer_is_empty() {
    assert_eq!(decimate(&vec![], 4), Vec::<usize>::new());
}

#[test]
fn decimate_count_is_the_ceiling() {
    let time: Vec<i64> = (0..9).collect();
    // step = max(9 / 4, 1) = 2, count = ceil(9 / 2) = 5.
    assert_eq!(decimate(&time, 4), vec![0, 2, 4, 6, 8]);
}

#[test]
fn lttb_keeps_a_short_buffer_whole() {
    let time: Vec<i64> = vec![0, 1, 2];
    let data: Vec<i64> = vec![5, 6, 7];
    assert_eq!(lttb(&time, &data, 4), vec![0, 1, 2]);
}

#[test]
fn lttb_keeps_both_endpoints() {
    let time: Vec<i64> = (0..100).collect();
    let data: Vec<i64> = (0..100).map(|i| (i * i) % 37).collect();
    let r = lttb(&time, &data, 10);
    assert_eq!(r.len(), 10);
    assert_eq!(r[0], 0);
    assert_eq!(r[9], 99);
    for w in r.windows(2) {
        assert!(w[0] < w[1]);
    }
}

#[test]
fn lttb_picks_the_peak() {
    let time: Vec<i64> = (0..10).collect();
    let mut data: Vec<i64> = vec![0; 10];
    data[4] = 5;
    // One interior bucket covering indices 1..9: the spike at index 4 spans
    // the largest triangle with the first and the last point.
    assert_eq!(lttb(&time, &data, 3), vec![0, 4, 9]);
}

#[test]
fn lttb_with_budget_two_keeps_only_the_endpoints() {
    let time: Vec<i64> = (0..10).collect();
    let data: Vec<i64> = (0..10).collect();
    assert_eq!(lttb(&time, &data, 2), vec![0, 9]);
}

#[test]
fn downsample_dispatches_to_decimation() {
    let time: Vec<i64> = (0..10).collect();
    let data: Vec<i64> = (0..10).collect();
    assert_eq!(
        downsample(&time, &data, 3, DownsamplingMethod::Decimation),
        decimate(&time, 3)
    );
}

#[test]
fn tab_downsample_doubles_the_width_budget() {
    let time: Vec<i64> = (0..20).collect();
    let data: Vec<i64> = (0..20).map(|i| i * 3).collect();
    // A width of 2 pixels buys 4 points: step = max(20 / 4, 1) = 5.
    assert_eq!(
        TimeSeriesTab::downsample(&time, &data, 2, DownsamplingMethod::Decimation),
        vec![0, 5, 10, 15]
    );
    let picks = TimeSeriesTab::downsample(&time, &data, 2, DownsamplingMethod::Lttb);
    assert_eq!(picks.len(), 4);
    assert_eq!(picks[0], 0);
    assert_eq!(picks[3], 19);
}

#[test]
fn downsample_dispatches_to_lttb() {
    let time: Vec<i64> = (0..10).collect();
    let mut data: Vec<i64> = vec![0; 10];
    data[4] = 5;
    assert_eq!(downsample(&time, &data, 3, DownsamplingMethod::Lttb), vec![0, 4, 9]);
}
