//! Status codes of the native numerical trainer, and the error type that the
//! failing codes map to.
use vstd::prelude::*;
use vstd::string::*;

verus! {

pub const SUCCESS: i32 = 0;

pub const ERR_NULL_POINTER: i32 = -1;

pub const ERR_INVALID_SIZE: i32 = -2;

pub const ERR_OUT_OF_MEMORY: i32 = -3;

pub const ERR_FILE_IO: i32 = -4;

pub const ERR_INVALID_MAGIC: i32 = -5;

pub const ERR_UNSUPPORTED_VERSION: i32 = -6;

pub const STATUS_INTERRUPTED: i32 = 1;

/// An error reported by the native trainer.
#[derive(Debug, Clone, Copy, PartialEq, Eq)]
pub enum FfiError {
    NullPointer,
    InvalidSize,
    OutOfMemory,
    Unknown(i32),
    FileIo,
    InvalidMagic,
    UnsupportedVersion,
}

impl FfiError {
    /// The error that a status code stands for, or `None` for success. Codes
    /// without an error of their own give `Unknown`.
    pub fn from_status(code: i32) -> (r: Option<FfiError>)
        ensures
            code == SUCCESS ==> r is None,
            code == ERR_NULL_POINTER ==> r == Some(FfiError::NullPointer),
            code == ERR_INVALID_SIZE ==> r == Some(FfiError::InvalidSize),
            code == ERR_OUT_OF_MEMORY ==> r == Some(FfiError::OutOfMemory),
            code != SUCCESS && code != ERR_NULL_POINTER && code != ERR_INVALID_SIZE && code
                != ERR_OUT_OF_MEMORY ==> r == Some(FfiError::Unknown(code)),
    {
        if code == SUCCESS {
            None
        } else if code == ERR_NULL_POINTER {
            Some(FfiError::NullPointer)
        } else if code == ERR_INVALID_SIZE {
            Some(FfiError::InvalidSize)
        } else if code == ERR_OUT_OF_MEMORY {
            Some(FfiError::OutOfMemory)
        } else {
            Some(FfiError::Unknown(code))
        }
    }

    /// A short description of the error.
    pub fn message(&self) -> (r: String)
        ensures
            r@ == match self {
                FfiError::NullPointer => "null pointer"@,
                FfiError::InvalidSize => "invalid size"@,
                FfiError::OutOfMemory => "out of memory"@,
                FfiError::Unknown(_) => "unknown error"@,
                FfiError::FileIo => "file I/O error"@,
                FfiError::InvalidMagic => "invalid checkpoint magic bytes"@,
                FfiError::UnsupportedVersion => "unsupported checkpoint version"@,
            },
    {
        match self {
            FfiError::NullPointer => String::from_str("null pointer"),
            FfiError::InvalidSize => String::from_str("invalid size"),
            FfiError::OutOfMemory => String::from_str("out of memory"),
            FfiError::Unknown(_) => String::from_str("unknown error"),
            FfiError::FileIo => String::from_str("file I/O error"),
            FfiError::InvalidMagic => String::from_str("invalid checkpoint magic bytes"),
            FfiError::UnsupportedVersion => String::from_str("unsupported checkpoint version"),
        }
    }
}

} // verus!
