//! Privileged reads and writes of another process's memory, over the
//! kernel's cross-process vectored I/O. Everything the operating system
//! decides — how many bytes came back, which call is refused — is taken as
//! an outcome and handled; nothing is promised about it.

use vstd::prelude::*;

use crate::process::MemoryRegion;

verus! {

/// Why a memory operation failed.
#[derive(Debug, Clone, Copy, PartialEq, Eq, Structural)]
pub enum MemoryError {
    /// The operating system refused the privileged cross-process memory
    /// operation.
    PermissionDenied,
    /// Any other operating-system failure, carrying the raw error number
    /// (0 when the kernel returned no bytes at all).
    SystemIO(i32),
    /// The bytes at the address did not decode as the expected kind.
    InvalidAddress,
}

/// Reads and writes the memory of one target process.
pub struct MemoryReader {
    pub pid: i32,
}

/// Relies on `nix::sys::uio::process_vm_readv`: fills the local buffer from
/// the target's address space and returns how many leading bytes are valid,
/// never more than asked for; `EACCES`/`EPERM` mean the operation was
/// refused.
#[verifier::external_body]
fn vm_read_raw(pid: i32, address: usize, len: usize) -> (r: Result<(Vec<u8>, usize), MemoryError>)
    ensures
        r matches Ok(p) ==> p.0@.len() == len && p.1 <= len,
{
    let mut buffer = vec![0u8; len];
    let mut local_iov = [std::io::IoSliceMut::new(&mut buffer)];
    let remote_iov = [nix::sys::uio::RemoteIoVec { base: address, len }];
    match nix::sys::uio::process_vm_readv(
        nix::unistd::Pid::from_raw(pid),
        &mut local_iov,
        &remote_iov,
    ) {
        Ok(n) => Ok((buffer, n)),
        Err(nix::errno::Errno::EACCES) | Err(nix::errno::Errno::EPERM) => {
            Err(MemoryError::PermissionDenied)
        },
        Err(e) => Err(MemoryError::SystemIO(e as i32)),
    }
}

/// Relies on `nix::sys::uio::process_vm_writev`: writes the given bytes
/// into the target's address space and returns how many were written, never
/// more than given; `EACCES`/`EPERM` mean the operation was refused.
#[verifier::external_body]
fn vm_write_raw(pid: i32, address: usize, data: &[u8]) -> (r: Result<usize, MemoryError>)
    ensures
        r matches Ok(n) ==> n <= data@.len(),
{
    let local_iov = [std::io::IoSlice::new(data)];
    let remote_iov = [nix::sys::uio::RemoteIoVec { base: address, len: data.len() }];
    match nix::sys::uio::process_vm_writev(
        nix::unistd::Pid::from_raw(pid),
        &local_iov,
        &remote_iov,
    ) {
        Ok(n) => Ok(n),
        Err(nix::errno::Errno::EACCES) | Err(nix::errno::Errno::EPERM) => {
            Err(MemoryError::PermissionDenied)
        },
        Err(e) => Err(MemoryError::SystemIO(e as i32)),
    }
}

impl MemoryReader {
    pub fn new(pid: i32) -> (r: Self)
        ensures
            r.pid == pid,
    {
        Self { pid }
    }

    /// Read up to `size` bytes at `address` in the target process. A short
    /// read — fewer bytes than requested but more than none — is not an
    /// error: the caller uses only what was returned. A read of no bytes at
    /// all is a failure. What the bytes hold is whatever the target's
    /// memory held at that moment; nothing more can be said of it.
    pub fn read_memory(&self, address: usize, size: usize) -> (r: Result<Vec<u8>, MemoryError>)
        ensures
            r matches Ok(v) ==> v@.len() <= size && (size > 0 ==> v@.len() > 0),
    {
        match vm_read_raw(self.pid, address, size) {
            Ok(p) => {
                let (mut buffer, n) = p;
                if size > 0 && n == 0 {
                    return Err(MemoryError::SystemIO(0));
                }
                buffer.truncate(n);
                Ok(buffer)
            },
            Err(e) => Err(e),
        }
    }

    /// Read a whole region in one bulk read; the result may be a prefix.
    pub fn read_region(&self, region: &MemoryRegion) -> (r: Result<Vec<u8>, MemoryError>)
        requires
            region.wf(),
        ensures
            r matches Ok(v) ==> v@.len() <= region.spec_size() && (region.spec_size() > 0
                ==> v@.len() > 0),
    {
        let size = region.size();
        self.read_memory(region.start, size)
    }

    /// Write bytes at `address` in the target process; returns how many
    /// were written.
    pub fn write_memory(&self, address: usize, data: &[u8]) -> (r: Result<usize, MemoryError>)
        ensures
            r matches Ok(n) ==> n <= data@.len(),
    {
        vm_write_raw(self.pid, address, data)
    }

    /// Read exactly the bytes one value occupies at an address.
    pub fn read_value(&self, address: usize, size: usize) -> (r: Result<Vec<u8>, MemoryError>)
        ensures
            r matches Ok(v) ==> v@.len() <= size && (size > 0 ==> v@.len() > 0),
    {
        self.read_memory(address, size)
    }
}

} // verus!
