use curvepress::frame::{decode_frame, encode_frame};
use curvepress::series::select_kept;
use curvepress::le::{read_u32_le, read_u64_le, write_u32_le, write_u64_le};
use curvepress::rdp::rdp_select;
use curvepress::{Algo, CpError, TsMode};

#[test]
fn corrupt_magic_returns_error() {
    let mut data = vec![0u8; 64];
    assert!(matches!(decode_frame(&data), Err(CpError::Corrupt)));
    data[0..4].copy_from_slice(b"CPRS");
    // Still corrupt (version mismatch).
    data[4] = 99;
    assert!(matches!(decode_frame(&data), Err(CpError::Corrupt)));
}

#[test]
fn frame_exact_bytes_and_roundtrip() {
    let codes = [5u32, 3, 1000];
    let ts = [100i64, 200, 250];
    let vmin = 1.5f64.to_bits();
    let vrange = 2.0f64.to_bits();
    let out = encode_frame(Algo::Vw, TsMode::Irregular, 10, vmin, vrange, &codes, &ts, 7);
    let mut expected = b"CPRS".to_vec();
    expected.extend_from_slice(&[1, 1, 10, 0]);
    expected.extend_from_slice(&vmin.to_le_bytes());
    expected.extend_from_slice(&vrange.to_le_bytes());
    expected.extend_from_slice(&3u32.to_le_bytes());
    expected.extend_from_slice(&7u32.to_le_bytes());
    // codes: 5, zigzag(-2) = 3, zigzag(997) = 1994; timestamps: 100, 100, 50
    expected.extend_from_slice(&[5, 3, 0xCA, 0x0F, 100, 100, 50]);
    assert_eq!(out, expected);

    let f = decode_frame(&out).unwrap();
    assert_eq!(f.quant_bits, 10);
    assert_eq!(f64::from_bits(f.val_min_bits), 1.5);
    assert_eq!(f64::from_bits(f.val_range_bits), 2.0);
    assert_eq!(f.codes, codes.to_vec());
    assert_eq!(f.timestamps, ts.to_vec());
}

#[test]
fn frame_roundtrip_extreme_values() {
    let codes = [u32::MAX, 0, u32::MAX, 7];
    let ts = [i64::MIN, -1, 0, i64::MAX];
    let out = encode_frame(Algo::RdpN, TsMode::Irregular, 32, 0, u64::MAX, &codes, &ts, 4);
    assert_eq!(out[5], 2);
    let f = decode_frame(&out).unwrap();
    assert_eq!(f.codes, codes.to_vec());
    assert_eq!(f.timestamps, ts.to_vec());
    assert_eq!(f.val_range_bits, u64::MAX);
}

#[test]
fn frame_ignores_trailing_bytes() {
    let mut out = encode_frame(Algo::Rdp, TsMode::Irregular, 1, 0, 0, &[0], &[42], 1);
    out.extend_from_slice(&[0xFF, 0xFF]);
    let f = decode_frame(&out).unwrap();
    assert_eq!(f.timestamps, vec![42]);
    assert_eq!(f.codes, vec![0]);
}

#[test]
fn frame_corrupt_inputs() {
    let good = encode_frame(Algo::Rdp, TsMode::Irregular, 4, 0, 0, &[1, 2], &[10, 20], 2);
    // too short
    assert!(matches!(decode_frame(&good[..31]), Err(CpError::Corrupt)));
    // truncated payload
    assert!(matches!(decode_frame(&good[..good.len() - 1]), Err(CpError::Corrupt)));
    // zero kept points
    let mut z = good.clone();
    z[24..28].copy_from_slice(&0u32.to_le_bytes());
    assert!(matches!(decode_frame(&z), Err(CpError::Corrupt)));
    // announces more points than the payload holds
    let mut m = good.clone();
    m[24..28].copy_from_slice(&3u32.to_le_bytes());
    assert!(matches!(decode_frame(&m), Err(CpError::Corrupt)));
    // wrong magic byte
    let mut w = good.clone();
    w[3] = b'T';
    assert!(matches!(decode_frame(&w), Err(CpError::Corrupt)));
    assert!(decode_frame(&good).is_ok());
}

#[test]
fn frame_code_deltas_wrap_modulo_u32() {
    // A hand-made stream: first code 1, then delta -2 (zigzag 3) wraps to u32::MAX.
    let mut data = encode_frame(Algo::Rdp, TsMode::Irregular, 32, 0, 0, &[1, 0], &[0, 1], 2);
    let payload_start = 32;
    data[payload_start + 1] = 3;
    let f = decode_frame(&data).unwrap();
    assert_eq!(f.codes, vec![1, u32::MAX]);
}

#[test]
fn le_exact_bytes() {
    let mut buf = vec![9u8];
    write_u32_le(&mut buf, 0x0403_0201);
    write_u64_le(&mut buf, 0x0807_0605_0403_0201);
    assert_eq!(buf, vec![9, 1, 2, 3, 4, 1, 2, 3, 4, 5, 6, 7, 8]);
    assert_eq!(read_u32_le(&buf, 1), Some(0x0403_0201));
    assert_eq!(read_u64_le(&buf, 5), Some(0x0807_0605_0403_0201));
    assert_eq!(read_u32_le(&buf, 10), None);
    assert_eq!(read_u64_le(&buf, 6), None);
    assert_eq!(read_u32_le(&buf, 100), None);
}

#[test]
fn kept_points_come_back_exactly() {
    let ts: Vec<i64> = (0..50).map(|i| 1_000_000_000 + i * 500_000).collect();
    let mask: Vec<bool> = (0..50).map(|i| i == 0 || i == 49 || i % 7 == 3).collect();
    let kept_ts = select_kept(&ts, &mask);
    let codes: Vec<u32> = (0..kept_ts.len() as u32).map(|k| k * 37 % 11).collect();
    let out = encode_frame(Algo::Rdp, TsMode::Irregular, 4, 0, 0, &codes, &kept_ts, ts.len());
    let f = decode_frame(&out).unwrap();
    assert_eq!(f.timestamps, kept_ts);
    assert_eq!(f.codes, codes);
    assert_eq!(f.timestamps[0], ts[0]);
    assert_eq!(*f.timestamps.last().unwrap(), ts[49]);
    for t in &f.timestamps {
        assert_eq!((t - 1_000_000_000) % 500_000, 0);
    }
}

#[test]
fn regular_frame_exact_bytes_and_roundtrip() {
    let codes = [5u32, 3, 1000];
    let ts = [100i64, 200, 250];
    let out = encode_frame(Algo::Vw, TsMode::Regular, 10, 0, 0, &codes, &ts, 7);
    // flags: algo 1, bit 2 set for the regular mode
    assert_eq!(out[5], 1 | 4);
    // codes: 5, 3, 1994; timestamps: t0 = 100, interval = gcd(100, 50) = 50,
    // steps 2 and 1
    assert_eq!(&out[32..], &[5, 3, 0xCA, 0x0F, 100, 50, 2, 1]);
    let f = decode_frame(&out).unwrap();
    assert_eq!(f.codes, codes.to_vec());
    assert_eq!(f.timestamps, ts.to_vec());
}

#[test]
fn irregular_frame_leaves_mode_bit_clear() {
    for (algo, code) in [(Algo::Rdp, 0u8), (Algo::Vw, 1), (Algo::RdpN, 2)] {
        let out = encode_frame(algo, TsMode::Irregular, 8, 0, 0, &[1, 2], &[10, 30], 2);
        assert_eq!(out[5], code);
        let out = encode_frame(algo, TsMode::Regular, 8, 0, 0, &[1, 2], &[10, 30], 2);
        assert_eq!(out[5], code | 4);
    }
}

#[test]
fn regular_frame_single_point_and_equal_timestamps() {
    let out = encode_frame(Algo::Rdp, TsMode::Regular, 1, 0, 0, &[0], &[42], 1);
    // t0 = 42, interval 0 (no difference), no step
    assert_eq!(&out[32..], &[0, 42, 0]);
    assert_eq!(decode_frame(&out).unwrap().timestamps, vec![42]);
    let out = encode_frame(Algo::Rdp, TsMode::Regular, 1, 0, 0, &[0, 0, 0], &[5, 5, 5], 3);
    assert_eq!(&out[32..], &[0, 0, 0, 5, 0, 0, 0]);
    assert_eq!(decode_frame(&out).unwrap().timestamps, vec![5, 5, 5]);
}

#[test]
fn regular_frame_extreme_values() {
    let codes = [u32::MAX, 0, u32::MAX, 7];
    let ts = [i64::MIN, -1, 0, i64::MAX];
    let out = encode_frame(Algo::RdpN, TsMode::Regular, 32, 0, u64::MAX, &codes, &ts, 4);
    assert_eq!(out[5], 2 | 4);
    let f = decode_frame(&out).unwrap();
    assert_eq!(f.codes, codes.to_vec());
    assert_eq!(f.timestamps, ts.to_vec());
}

#[test]
fn quant_bits_over_32_rejected() {
    let mut out = encode_frame(Algo::Rdp, TsMode::Irregular, 32, 0, 0, &[1, 2], &[10, 20], 2);
    assert!(decode_frame(&out).is_ok());
    out[6] = 33;
    assert!(matches!(decode_frame(&out), Err(CpError::Corrupt)));
    let out = encode_frame(Algo::Rdp, TsMode::Irregular, 64, 0, 0, &[1, 2], &[10, 20], 2);
    assert!(matches!(decode_frame(&out), Err(CpError::Corrupt)));
}

#[test]
fn every_truncation_is_corrupt() {
    let codes: Vec<u32> = vec![300, 2, 70_000, 1, 1];
    let ts: Vec<i64> = vec![-5_000_000_000, 0, 1_000, 3_000_000_000, 3_000_000_500];
    for mode in [TsMode::Irregular, TsMode::Regular] {
        let out = encode_frame(Algo::Vw, mode, 20, 0, 0, &codes, &ts, 9);
        for k in 0..out.len() {
            assert!(
                matches!(decode_frame(&out[..k]), Err(CpError::Corrupt)),
                "prefix of length {k} decoded"
            );
        }
        assert_eq!(decode_frame(&out).unwrap().timestamps, ts);
    }
}

/// Distance from P to the segment AB (clamped projection).
fn segment_dist(px: f64, py: f64, ax: f64, ay: f64, bx: f64, by: f64) -> f64 {
    let dx = bx - ax;
    let dy = by - ay;
    let len_sq = dx * dx + dy * dy;
    if len_sq == 0.0 {
        return ((px - ax).powi(2) + (py - ay).powi(2)).sqrt();
    }
    let t = (((px - ax) * dx + (py - ay) * dy) / len_sq).clamp(0.0, 1.0);
    ((px - (ax + t * dx)).powi(2) + (py - (ay + t * dy)).powi(2)).sqrt()
}

#[test]
fn regular_ts_mode_reconstruction_exact() {
    let n = 1000usize;
    let t0 = 1_000_000_000i64;
    let interval = 500_000i64; // 500 µs
    let ts: Vec<i64> = (0..n as i64).map(|i| t0 + i * interval).collect();
    let val: Vec<f64> = (0..n).map(|i| (i as f64 * 0.01).cos() * 50.0).collect();

    // RDP with epsilon 0.5 on axes normalised to [0, 1] by their ranges.
    let tr = (ts[n - 1] - ts[0]) as f64;
    let vmin = val.iter().cloned().fold(f64::INFINITY, f64::min);
    let vmax = val.iter().cloned().fold(f64::NEG_INFINITY, f64::max);
    let x: Vec<f64> = ts.iter().map(|&t| (t - ts[0]) as f64 / tr).collect();
    let y: Vec<f64> = val.iter().map(|&v| (v - vmin) / (vmax - vmin)).collect();
    let epsilon = 0.5 / (vmax - vmin);
    let mask = rdp_select(
        n,
        &|i, a, b| segment_dist(x[i], y[i], x[a], y[a], x[b], y[b]).to_bits(),
        &|d| f64::from_bits(d) > epsilon,
    );
    let kept_ts = select_kept(&ts, &mask);
    let codes: Vec<u32> = (0..kept_ts.len() as u32).collect();
    let data = encode_frame(Algo::Rdp, TsMode::Regular, 16, 0, 0, &codes, &kept_ts, n);
    assert_ne!(data[5] & 4, 0, "ts_mode bit must record Regular");
    let ts_out = decode_frame(&data).unwrap().timestamps;

    // Every decoded timestamp must be a valid sample time (t0 + k * interval).
    for &t in &ts_out {
        assert_eq!((t - t0) % interval, 0, "Decoded ts {t} is not on the regular grid");
    }
    assert!(ts_out[0] == t0 || ts_out[0] >= t0);
    assert!(*ts_out.last().unwrap() <= ts[n - 1]);
    assert_eq!(ts_out, kept_ts);
}
