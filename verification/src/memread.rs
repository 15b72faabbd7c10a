//! The remote memory reader: a handle on a target process and the raw
//! copying of bytes out of its address space.

use vstd::prelude::*;
use benfred_read_process_memory::{CopyAddress, ProcessHandle, copy_address};

verus! {

/// Failure of the remote read path: the handle could not be made, or a
/// unit of memory was unmapped or unreadable at read time.  Either way
/// the carried text describes the fault.
#[derive(Debug)]
pub enum ReadError {
    OpenFailed(String),
    ReadFault(String),
}

#[verifier::external_type_specification]
#[verifier::external_body]
pub struct ExProcessHandle(ProcessHandle);

/// Relies on `TryFrom<Pid> for ProcessHandle`: wraps the pid as a handle
/// for remote reads.
#[verifier::external_body]
pub fn open_handle(pid: i32) -> (r: Result<ProcessHandle, ReadError>) {
    match ProcessHandle::try_from(pid) {
        Ok(h) => Ok(h),
        Err(e) => Err(ReadError::OpenFailed(format!("{:?}", e))),
    }
}

/// Relies on `copy_address`: on success it returns a buffer of exactly
/// `len` bytes copied from the target's address space at `addr`; the
/// bytes themselves depend on the live target.
#[verifier::external_body]
pub fn read_bytes(h: &ProcessHandle, addr: u64, len: usize) -> (r: Result<Vec<u8>, ReadError>)
    requires
        len <= 400,
    ensures
        match r {
            Ok(b) => b@.len() == len,
            Err(_) => true,
        },
{
    match copy_address(addr as usize, len, h) {
        Ok(v) => Ok(v),
        Err(e) => Err(ReadError::ReadFault(format!("{:?}", e))),
    }
}

} // verus!
