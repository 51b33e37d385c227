use curvepress::vw::vw_select;

fn sine_area_keys(n: usize) -> (Vec<f64>, Vec<f64>) {
    let tx: Vec<f64> = (0..n).map(|i| i as f64).collect();
    let vy: Vec<f64> = (0..n).map(|i| (i as f64 * 0.2).sin() * 100.0).collect();
    (tx, vy)
}

fn area(tx: &[f64], vy: &[f64], a: usize, i: usize, b: usize) -> f64 {
    0.5 * ((tx[i] - tx[a]) * (vy[b] - vy[a]) - (tx[b] - tx[a]) * (vy[i] - vy[a])).abs()
}

/// Working coordinates as the simplifier builds them without normalization.
fn working_xy(ts: &[i64], val: &[f64]) -> (Vec<f64>, Vec<f64>) {
    let t0 = ts[0] as f64;
    (ts.iter().map(|&t| t as f64 - t0).collect(), val.to_vec())
}

#[test]
fn returns_exact_n_out() {
    let ts: Vec<i64> = (0..200i64).map(|i| i * 1_000_000).collect();
    let val: Vec<f64> = ts.iter().map(|&t| (t as f64 * 5e-9).sin() * 100.0).collect();
    let (tx, vy) = working_xy(&ts, &val);
    let kept = vw_select(ts.len(), 30, &|a, i, b| area(&tx, &vy, a, i, b).to_bits());
    let cnt = kept.iter().filter(|&&k| k).count();
    assert_eq!(cnt, 30, "VW should return exactly n_out={}, got {}", 30, cnt);
}

#[test]
fn keeps_all_when_n_out_ge_n() {
    let ts: Vec<i64> = (0..10i64).map(|i| i * 1_000_000).collect();
    let val: Vec<f64> = (0..10).map(|i| i as f64).collect();
    let (tx, vy) = working_xy(&ts, &val);
    let kept = vw_select(ts.len(), 100, &|a, i, b| area(&tx, &vy, a, i, b).to_bits());
    assert!(kept.iter().all(|&k| k));
}

#[test]
fn vw_select_sine_keeps_endpoints() {
    let (tx, vy) = sine_area_keys(200);
    let kept = vw_select(200, 30, &|a, i, b| area(&tx, &vy, a, i, b).to_bits());
    assert_eq!(kept.len(), 200);
    assert_eq!(kept.iter().filter(|&&k| k).count(), 30);
    assert!(kept[0] && kept[199]);
}

#[test]
fn vw_select_clamps_target_to_two() {
    let kept = vw_select(50, 0, &|a, i, b| (a + i * 7 + b * 3) as u64);
    assert_eq!(kept.iter().filter(|&&k| k).count(), 2);
    assert!(kept[0] && kept[49]);
    assert_eq!(vw_select(1, 5, &|_a, _i, _b| 0), vec![true]);
    assert_eq!(vw_select(0, 5, &|_a, _i, _b| 0), Vec::<bool>::new());
}

#[test]
fn vw_select_drops_smallest_area_first() {
    // Points 0..5 on y = [0, 10, 10.1, 20, 0]: the near-collinear point 2 goes first.
    let tx = [0.0f64, 1.0, 2.0, 3.0, 4.0];
    let vy = [0.0f64, 10.0, 10.1, 20.0, 0.0];
    let kept = vw_select(5, 4, &|a, i, b| area(&tx, &vy, a, i, b).to_bits());
    assert_eq!(kept, vec![true, true, false, true, true]);
}

#[test]
fn vw_select_collinear_keeps_endpoints() {
    let kept = vw_select(100, 2, &|_a, _i, _b| 0.0f64.to_bits());
    assert_eq!(kept.iter().filter(|&&k| k).count(), 2);
    assert!(kept[0] && kept[99]);
}

#[test]
fn infinite_and_nan_keys_keep_exact_count() {
    for key in [f64::INFINITY.to_bits(), f64::NAN.to_bits(), u64::MAX] {
        let kept = vw_select(10, 4, &|_a, _i, _b| key);
        assert_eq!(kept.len(), 10);
        assert_eq!(kept.iter().filter(|&&k| k).count(), 4);
        assert!(kept[0] && kept[9]);
    }
    // a mix: every third triangle overflows
    let kept = vw_select(30, 7, &|a, i, b| {
        if i % 3 == 0 { f64::INFINITY.to_bits() } else { ((b - a) as f64 * i as f64).to_bits() }
    });
    assert_eq!(kept.iter().filter(|&&k| k).count(), 7);
    assert!(kept[0] && kept[29]);
}
