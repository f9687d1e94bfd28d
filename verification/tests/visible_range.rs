//! The viewport-to-index mapping.

use rust_data_inspector::downsampling::find_visible_index_range;

#[test]
fn empty_buffer_has_no_visible_range() {
    assert_eq!(find_visible_index_range(&vec![], 0, 100, None), None);
}

#[test]
fn interior_indices_lie_in_the_viewport() {
    let time = vec![0, 1000, 2000, 3000];
    let r = find_visible_index_range(&time, 500, 2500, None).unwrap();
    assert_eq!(r, (0, 4));
    // Indices 1 and 2 are inside the viewport; 0 and 3 are the one admitted
    // boundary index on each side.
    for i in r.0 + 1..r.1 - 1 {
        assert!(500 <= time[i] && time[i] <= 2500);
    }
}

#[test]
fn viewport_before_all_data_gives_the_minimal_range() {
    let time = vec![10, 20, 30];
    assert_eq!(find_visible_index_range(&time, -100, -50, None), Some((0, 1)));
}

#[test]
fn viewport_after_all_data_gives_the_minimal_range() {
    let time = vec![10, 20, 30];
    assert_eq!(find_visible_index_range(&time, 100, 200, None), Some((2, 3)));
}

#[test]
fn viewport_covering_everything_gives_the_full_range() {
    let time = vec![10, 20, 30];
    assert_eq!(find_visible_index_range(&time, 0, 100, None), Some((0, 3)));
}

#[test]
fn cached_range_gives_the_same_result_as_a_full_scan() {
    let time: Vec<i64> = (0..50).map(|i| i * 10).collect();
    // Pan a window of width 120 across the data, reusing each result as the
    // seed of the next call, and compare with the unseeded result.
    let mut previous = None;
    for step in 0..40 {
        let lo = step * 11 + 3;
        let hi = lo + 120;
        let seeded = find_visible_index_range(&time, lo, hi, previous);
        let scratch = find_visible_index_range(&time, lo, hi, None);
        assert_eq!(seeded, scratch);
        previous = seeded;
    }
}

#[test]
fn right_bound_exactly_on_a_sample_still_admits_one_outside_index() {
    let time = vec![0, 5, 10];
    // Even when the right viewport bound sits exactly on a sample time, the
    // seeded walk admits one index past the bound, like a full scan does.
    assert_eq!(find_visible_index_range(&time, 0, 5, Some((0, 2))), Some((0, 3)));
    assert_eq!(find_visible_index_range(&time, 0, 5, None), Some((0, 3)));
}

#[test]
fn growing_buffer_keeps_cached_range_valid() {
    let mut time: Vec<i64> = vec![0, 10, 20];
    let first = find_visible_index_range(&time, 5, 100, None);
    assert_eq!(first, Some((0, 3)));
    time.push(30);
    time.push(40);
    let second = find_visible_index_range(&time, 5, 100, first);
    assert_eq!(second, find_visible_index_range(&time, 5, 100, None));
    assert_eq!(second, Some((0, 5)));
}
