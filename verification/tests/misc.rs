use curvepress::error::{strerror_text, to_code, CP_ERR_BAD_INPUT, CP_ERR_CORRUPT, CP_OK};
use curvepress::{algo_from_u32, ts_mode_from_u32, version, Algo, CpError, TsMode};

#[test]
fn error_codes() {
    assert_eq!(to_code(&CpError::BadInput("x".to_string())), CP_ERR_BAD_INPUT);
    assert_eq!(to_code(&CpError::BufferTooSmall), -2);
    assert_eq!(to_code(&CpError::Corrupt), CP_ERR_CORRUPT);
}

#[test]
fn error_texts() {
    assert_eq!(strerror_text(CP_OK), "ok\0");
    assert_eq!(strerror_text(-1), "bad input\0");
    assert_eq!(strerror_text(-2), "buffer too small\0");
    assert_eq!(strerror_text(-3), "corrupt stream\0");
    assert_eq!(strerror_text(-99), "internal panic\0");
    assert_eq!(strerror_text(-100), "null pointer\0");
    assert_eq!(strerror_text(7), "unknown error\0");
}

#[test]
fn binding_numbers() {
    assert_eq!(algo_from_u32(0), Algo::Rdp);
    assert_eq!(algo_from_u32(1), Algo::Vw);
    assert_eq!(algo_from_u32(2), Algo::RdpN);
    assert_eq!(algo_from_u32(9), Algo::Rdp);
    assert_eq!(ts_mode_from_u32(1), TsMode::Regular);
    assert_eq!(ts_mode_from_u32(0), TsMode::Irregular);
    assert_eq!(ts_mode_from_u32(5), TsMode::Irregular);
    for a in [Algo::Rdp, Algo::Vw, Algo::RdpN] {
        assert_eq!(algo_from_u32(a.code() as u32), a);
    }
    assert_eq!(TsMode::Regular.code(), 1);
    assert_eq!(TsMode::Irregular.code(), 0);
}

#[test]
fn version_string() {
    assert_eq!(version(), "0.2.0");
}
