use curvepress::rdp::rdp_select;

fn seg_dist(x: &[f64], y: &[f64], i: usize, a: usize, b: usize) -> f64 {
    // vertical distance to the chord is enough for these monotone-x tests
    let t = (x[i] - x[a]) / (x[b] - x[a]);
    (y[i] - (y[a] + t * (y[b] - y[a]))).abs()
}

/// Distance from P to the segment AB (clamped projection).
fn point_to_segment_dist(px: f64, py: f64, ax: f64, ay: f64, bx: f64, by: f64) -> f64 {
    let dx = bx - ax;
    let dy = by - ay;
    let len_sq = dx * dx + dy * dy;
    if len_sq == 0.0 {
        let ex = px - ax;
        let ey = py - ay;
        return (ex * ex + ey * ey).sqrt();
    }
    let t = (((px - ax) * dx + (py - ay) * dy) / len_sq).clamp(0.0, 1.0);
    let ex = px - (ax + t * dx);
    let ey = py - (ay + t * dy);
    (ex * ex + ey * ey).sqrt()
}

fn make_line(n: usize) -> (Vec<i64>, Vec<f64>) {
    let ts: Vec<i64> = (0..n as i64).map(|i| i * 1_000_000).collect();
    let val: Vec<f64> = (0..n).map(|i| i as f64).collect();
    (ts, val)
}

#[test]
fn collinear_keeps_endpoints_only() {
    let (ts, val) = make_line(100);
    let x: Vec<f64> = ts.iter().map(|&t| t as f64).collect();
    let epsilon = 0.5;
    let kept = rdp_select(
        ts.len(),
        &|i, a, b| point_to_segment_dist(x[i], val[i], x[a], val[a], x[b], val[b]).to_bits(),
        &|d| f64::from_bits(d) > epsilon,
    );
    let cnt = kept.iter().filter(|&&k| k).count();
    assert_eq!(cnt, 2);
    assert!(kept[0]);
    assert!(kept[99]);
}

#[test]
fn rdp_select_keeps_spike() {
    let x: Vec<f64> = (0..10).map(|i| i as f64).collect();
    let mut y = vec![0.0f64; 10];
    y[4] = 5.0;
    let kept = rdp_select(10, &|i, a, b| seg_dist(&x, &y, i, a, b).to_bits(), &|d| f64::from_bits(d) > 1.0);
    // The spike splits the series; each side then keeps its corner next to the spike.
    assert_eq!(kept, vec![true, false, false, true, true, true, false, false, false, true]);
}

#[test]
fn rdp_select_small_inputs() {
    assert_eq!(rdp_select(0, &|_i, _a, _b| 0, &|_d| true), Vec::<bool>::new());
    assert_eq!(rdp_select(1, &|_i, _a, _b| 0, &|_d| true), vec![true]);
    assert_eq!(rdp_select(2, &|_i, _a, _b| 0, &|_d| true), vec![true, true]);
}

#[test]
fn rdp_select_always_splitting_keeps_everything() {
    let kept = rdp_select(17, &|_i, _a, _b| 0, &|_d| true);
    assert_eq!(kept, vec![true; 17]);
}

#[test]
fn rdp_select_first_farthest_point_wins_ties() {
    // Points 1 and 3 tie at the largest key; point 1 is kept first.
    let keys = [0u64, 9, 2, 9, 0];
    let kept = rdp_select(5, &|i, _a, _b| keys[i], &|d| d > 8);
    assert_eq!(kept, vec![true, true, false, true, true]);
}

#[test]
fn larger_epsilon_keeps_a_subset() {
    let n = 300usize;
    let x: Vec<f64> = (0..n).map(|i| i as f64).collect();
    let y: Vec<f64> = (0..n).map(|i| (i as f64 * 0.07).sin() * 40.0 + (i % 7) as f64).collect();
    let mut prev: Option<Vec<bool>> = None;
    for eps in [0.0, 0.5, 2.0, 8.0, 30.0, 100.0] {
        let kept = rdp_select(
            n,
            &|i, a, b| point_to_segment_dist(x[i], y[i], x[a], y[a], x[b], y[b]).to_bits(),
            &|d| f64::from_bits(d) > eps,
        );
        if let Some(smaller_eps) = &prev {
            for i in 0..n {
                assert!(!kept[i] || smaller_eps[i], "point {i} kept at epsilon {eps} only");
            }
            let a = kept.iter().filter(|&&k| k).count();
            let b = smaller_eps.iter().filter(|&&k| k).count();
            assert!(a <= b);
        }
        prev = Some(kept);
    }
}
