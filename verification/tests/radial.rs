use curvepress::radial::radial_select;

#[test]
fn drops_noise_below_radius() {
    // All values within 0.1 of 0.0 except one spike at index 5.
    let ts: Vec<i64> = (0..10i64).map(|i| i * 1_000_000).collect();
    let mut val = vec![0.0f64; 10];
    val[5] = 1.0;
    let kept = radial_select(ts.len(), &|i, last| (val[i] - val[last]).abs() >= 0.5);
    assert!(kept[0]);
    assert!(kept[5]);
    assert!(kept[9]);
    // Points before the spike that are within 0.5 of 0.0 should be dropped.
    assert!(!kept[1]);
    assert!(!kept[2]);
}

#[test]
fn radial_select_keeps_first_departure_after_spike() {
    let mut val = vec![0.0f64; 10];
    val[5] = 1.0;
    let kept = radial_select(10, &|i, last| (val[i] - val[last]).abs() >= 0.5);
    assert!(kept[6]);
    assert!(!kept[7]);
}

#[test]
fn radial_select_measures_from_last_kept_point() {
    // A slow drift: each step 0.3, radius 0.5 -> every second point is kept.
    let val: Vec<f64> = (0..9).map(|i| i as f64 * 0.3).collect();
    let kept = radial_select(9, &|i, last| (val[i] - val[last]).abs() >= 0.5);
    assert_eq!(kept, vec![true, false, true, false, true, false, true, false, true]);
}

#[test]
fn radial_select_small_inputs() {
    assert_eq!(radial_select(0, &|_i, _l| false), Vec::<bool>::new());
    assert_eq!(radial_select(1, &|_i, _l| false), vec![true]);
    assert_eq!(radial_select(2, &|_i, _l| false), vec![true, true]);
}
