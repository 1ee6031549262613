//! What a caller from C is told.

use vstd::prelude::*;

verus! {

/// The profile was dumped.
pub const JP_SUCCESS: i32 = 0;

/// The profile could not be dumped.
pub const JP_FAILURE: i32 = -1;

/// Why a profile could not be dumped.
#[derive(Clone, Copy, Debug, PartialEq, Eq)]
pub enum DumpError {
    /// Input or output failed, with this error code of the operating system if there is one.
    Io(Option<i32>),
    /// jemalloc refused the dump, with this error code.
    Mallctl(i32),
    /// The dump could not be parsed.
    Parse,
}

/// What a caller is told, and what is stored in `errno` if it is meaningful to do so.
#[derive(Clone, Copy, Debug, PartialEq, Eq)]
pub struct Outcome {
    pub code: i32,
    pub errno: Option<i32>,
}

/// Tells whether jemalloc dumped the profile, by what `mallctl` returned.
pub fn check_mallctl(ret: i32) -> (result: Result<(), DumpError>)
    ensures
        result == if ret != 0 {
            Err::<(), DumpError>(DumpError::Mallctl(ret))
        } else {
            Ok(())
        },
{
    if ret != 0 {
        return Err(DumpError::Mallctl(ret));
    }
    Ok(())
}

/// What a caller is told of a dump.
pub fn dump_jemalloc_pprof(dump: &Result<Vec<u8>, DumpError>) -> (outcome: Outcome)
    ensures
        outcome == match dump {
            Ok(_) => (Outcome { code: JP_SUCCESS, errno: None }),
            Err(DumpError::Io(errno)) => (Outcome { code: JP_FAILURE, errno: *errno }),
            Err(DumpError::Mallctl(errno)) => (Outcome { code: JP_FAILURE, errno: Some(*errno) }),
            Err(DumpError::Parse) => (Outcome { code: JP_FAILURE, errno: None }),
        },
{
    match dump {
        Ok(_) => Outcome { code: JP_SUCCESS, errno: None },
        Err(DumpError::Io(errno)) => Outcome { code: JP_FAILURE, errno: *errno },
        Err(DumpError::Mallctl(errno)) => Outcome { code: JP_FAILURE, errno: Some(*errno) },
        Err(DumpError::Parse) => Outcome { code: JP_FAILURE, errno: None },
    }
}

/// What a caller gets of a dumped profile: the buffer, which is missing if it would be empty, and
/// its size.
pub fn out_buffer(buf: Vec<u8>) -> (out: (Option<Vec<u8>>, usize))
    ensures
        out.1 == buf@.len(),
        match out.0 {
            Some(bytes) => bytes@ == buf@ && buf@.len() > 0,
            None => buf@.len() == 0,
        },
{
    let len: usize = buf.len();
    if len > 0 {
        (Some(buf), len)
    } else {
        (None, len)
    }
}

} // verus!
