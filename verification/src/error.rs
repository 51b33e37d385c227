//! Errors, and their numbers in the C interface.
use vstd::prelude::*;

verus! {

/// Error type for curvepress operations.
#[derive(Debug)]
pub enum CpError {
    /// Input validation failure (empty arrays, non-monotonic timestamps, NaN/Inf values).
    BadInput(String),
    /// Output buffer too small (C ABI only).
    BufferTooSmall,
    /// Byte stream is corrupted or truncated.
    Corrupt,
}

pub const CP_OK: i32 = 0;
pub const CP_ERR_BAD_INPUT: i32 = -1;
pub const CP_ERR_BUFFER_TOO_SMALL: i32 = -2;
pub const CP_ERR_CORRUPT: i32 = -3;
pub const CP_ERR_PANIC: i32 = -99;
pub const CP_ERR_NULL: i32 = -100;

/// The C interface's number for an error.
pub fn to_code(r: &CpError) -> (code: i32)
    ensures
        code == match r {
            CpError::BadInput(_) => CP_ERR_BAD_INPUT,
            CpError::BufferTooSmall => CP_ERR_BUFFER_TOO_SMALL,
            CpError::Corrupt => CP_ERR_CORRUPT,
        },
{
    match r {
        CpError::BadInput(_) => CP_ERR_BAD_INPUT,
        CpError::BufferTooSmall => CP_ERR_BUFFER_TOO_SMALL,
        CpError::Corrupt => CP_ERR_CORRUPT,
    }
}

/// The nul-terminated text describing a C interface status number.
pub fn strerror_text(err: i32) -> (s: &'static str)
    ensures
        s@ == (if err == CP_OK {
            "ok\0"@
        } else if err == CP_ERR_BAD_INPUT {
            "bad input\0"@
        } else if err == CP_ERR_BUFFER_TOO_SMALL {
            "buffer too small\0"@
        } else if err == CP_ERR_CORRUPT {
            "corrupt stream\0"@
        } else if err == CP_ERR_PANIC {
            "internal panic\0"@
        } else if err == CP_ERR_NULL {
            "null pointer\0"@
        } else {
            "unknown error\0"@
        }),
{
    if err == CP_OK {
        "ok\0"
    } else if err == CP_ERR_BAD_INPUT {
        "bad input\0"
    } else if err == CP_ERR_BUFFER_TOO_SMALL {
        "buffer too small\0"
    } else if err == CP_ERR_CORRUPT {
        "corrupt stream\0"
    } else if err == CP_ERR_PANIC {
        "internal panic\0"
    } else if err == CP_ERR_NULL {
        "null pointer\0"
    } else {
        "unknown error\0"
    }
}

} // verus!
