use curvepress::series::{interpolation_grid, locate_sample, select_kept, validate_series, Bracket};
use curvepress::CpError;

fn bad_input_message(r: Result<(), CpError>) -> String {
    match r {
        Err(CpError::BadInput(m)) => m,
        other => panic!("expected BadInput, got {:?}", other),
    }
}

#[test]
fn validate_accepts_increasing() {
    assert!(validate_series(&[0, 1_000_000, 2_000_000], 3).is_ok());
    assert!(validate_series(&[5], 1).is_ok());
}

#[test]
fn non_monotonic_ts_returns_bad_input() {
    let ts = vec![0i64, 2_000_000, 1_000_000];
    assert!(matches!(validate_series(&ts, 3), Err(CpError::BadInput(_))));
    let m = bad_input_message(validate_series(&ts, 3));
    assert_eq!(m, "timestamps not strictly increasing at index 2");
}

#[test]
fn duplicate_ts_returns_bad_input() {
    let ts = vec![0i64, 1_000_000, 1_000_000];
    assert!(matches!(validate_series(&ts, 3), Err(CpError::BadInput(_))));
}

#[test]
fn validate_reports_first_unordered_index() {
    let m = bad_input_message(validate_series(&[0, 1_000_000, 1_000_000], 3));
    assert_eq!(m, "timestamps not strictly increasing at index 2");
    let m = bad_input_message(validate_series(&[7, 7, 8, 9, 10, 11, 12, 13, 14, 15, 16, 16], 12));
    assert_eq!(m, "timestamps not strictly increasing at index 1");
}

#[test]
fn validate_reports_two_digit_index() {
    let mut ts: Vec<i64> = (0..20).collect();
    ts[13] = 0;
    let m = bad_input_message(validate_series(&ts, 20));
    assert_eq!(m, "timestamps not strictly increasing at index 13");
}

#[test]
fn validate_rejects_empty_and_length_mismatch() {
    assert_eq!(bad_input_message(validate_series(&[], 0)), "empty input");
    assert_eq!(
        bad_input_message(validate_series(&[1, 2], 3)),
        "timestamps and values have different lengths"
    );
}

#[test]
fn select_kept_keeps_marked_in_order() {
    let ts = [10i64, 20, 30, 40, 50];
    let mask = [true, false, true, false, true];
    assert_eq!(select_kept(&ts, &mask), vec![10, 30, 50]);
    let vals = [1.0f64, 2.0, 3.0, 4.0, 5.0];
    assert_eq!(select_kept(&vals, &mask), vec![1.0, 3.0, 5.0]);
    assert_eq!(select_kept(&ts, &[false; 5]), Vec::<i64>::new());
}

#[test]
fn locate_linear_segments() {
    let ts = [0i64, 10_000, 20_000, 30_000];
    assert_eq!(locate_sample(&ts, 5_000).unwrap(), Bracket::Segment(0));
    assert_eq!(locate_sample(&ts, 10_000).unwrap(), Bracket::Segment(1));
    assert_eq!(locate_sample(&ts, 29_999).unwrap(), Bracket::Segment(2));
    assert_eq!(locate_sample(&ts, 0).unwrap(), Bracket::Clamp(0));
    assert_eq!(locate_sample(&ts, 30_000).unwrap(), Bracket::Clamp(3));
}

#[test]
fn locate_clamps_outside_range() {
    let ts = [10_000i64, 20_000];
    assert_eq!(locate_sample(&ts, 0).unwrap(), Bracket::Clamp(0));
    assert_eq!(locate_sample(&ts, 99_999).unwrap(), Bracket::Clamp(1));
    assert_eq!(locate_sample(&ts, 15_000).unwrap(), Bracket::Segment(0));
    assert!(matches!(locate_sample(&[], 0), Err(CpError::BadInput(m)) if m == "empty ts"));
}

#[test]
fn locate_agrees_with_partition_point() {
    let ts: Vec<i64> = (0..97).map(|i| i * i * 3 + 1).collect();
    for t in 2..ts[96] {
        match locate_sample(&ts, t).unwrap() {
            Bracket::Segment(j) => assert_eq!(j, ts.partition_point(|&x| x <= t) - 1),
            other => panic!("unexpected {:?} at {}", other, t),
        }
    }
}

#[test]
fn grid_of_regular_interpolation() {
    let grid = interpolation_grid(4, 4, 0, 30_000, 5_000).unwrap();
    assert_eq!(grid, vec![0, 5_000, 10_000, 15_000, 20_000, 25_000, 30_000]);
    let grid = interpolation_grid(2, 2, 0, 30_000, 10_000).unwrap();
    assert_eq!(grid.len(), 4);
    let grid = interpolation_grid(2, 2, 3, 29, 10).unwrap();
    assert_eq!(grid, vec![3, 13, 23]);
    let grid = interpolation_grid(1, 1, i64::MAX - 1, i64::MAX, i64::MAX).unwrap();
    assert_eq!(grid, vec![i64::MAX - 1]);
}

#[test]
fn grid_rejects_bad_arguments() {
    assert!(matches!(interpolation_grid(0, 0, 0, 10, 1), Err(CpError::BadInput(_))));
    assert!(matches!(interpolation_grid(2, 3, 0, 10, 1), Err(CpError::BadInput(_))));
    assert!(matches!(interpolation_grid(2, 2, 0, 10, 0), Err(CpError::BadInput(_))));
    assert!(matches!(interpolation_grid(2, 2, 0, 10, -5), Err(CpError::BadInput(_))));
    assert!(matches!(interpolation_grid(2, 2, 10, 0, 1), Err(CpError::BadInput(_))));
}

/// Linear interpolation at `t` over the located segment.
fn interpolate_at(ts: &[i64], val: &[f64], t: i64) -> f64 {
    match locate_sample(ts, t).unwrap() {
        Bracket::Clamp(i) => val[i],
        Bracket::Segment(j) => {
            let frac = (t - ts[j]) as f64 / (ts[j + 1] - ts[j]) as f64;
            val[j] + frac * (val[j + 1] - val[j])
        }
    }
}

#[test]
fn interpolate_point_linear() {
    let ts = vec![0i64, 10_000, 20_000, 30_000];
    let val = vec![0.0f64, 10.0, 20.0, 30.0];
    assert!((interpolate_at(&ts, &val, 5_000) - 5.0).abs() < 1e-9);
    assert!((interpolate_at(&ts, &val, 0) - 0.0).abs() < 1e-9);
    assert!((interpolate_at(&ts, &val, 30_000) - 30.0).abs() < 1e-9);
}

#[test]
fn interpolate_point_clamps() {
    let ts = vec![10_000i64, 20_000];
    let val = vec![5.0f64, 10.0];
    assert!((interpolate_at(&ts, &val, 0) - 5.0).abs() < 1e-9);
    assert!((interpolate_at(&ts, &val, 99_999) - 10.0).abs() < 1e-9);
}

#[test]
fn interpolate_regular_grid() {
    let ts = vec![0i64, 10_000, 20_000, 30_000];
    let val = vec![0.0f64, 10.0, 20.0, 30.0];
    let grid = interpolation_grid(ts.len(), val.len(), 0, 30_000, 5_000).unwrap();
    let out: Vec<f64> = grid.iter().map(|&t| interpolate_at(&ts, &val, t)).collect();
    assert_eq!(out.len(), 7); // floor(30000/5000)+1
    for (i, &v) in out.iter().enumerate() {
        let expected = i as f64 * 5.0;
        assert!((v - expected).abs() < 1e-9, "out[{i}]={v}, expected {expected}");
    }
}

#[test]
fn interpolate_clamps_outside_range() {
    let ts = vec![10_000i64, 20_000];
    let val = vec![5.0f64, 10.0];
    // Grid starts before and ends after data range.
    let grid = interpolation_grid(ts.len(), val.len(), 0, 30_000, 10_000).unwrap();
    let out: Vec<f64> = grid.iter().map(|&t| interpolate_at(&ts, &val, t)).collect();
    assert_eq!(out.len(), 4);
    // t=0 clamps to val[0]=5.0
    assert!((out[0] - 5.0).abs() < 1e-9);
    // t=30000 clamps to val[last]=10.0
    assert!((out[3] - 10.0).abs() < 1e-9);
}
