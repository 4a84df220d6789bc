//! The region provider's decisions: what a request to the operating system
//! for a region of address space holds, and what the system's answer means.
//! The calls themselves are made by the caller.

use crate::alloc_api::AllocError;
use vstd::prelude::*;

verus! {

/// The bits by which the platform's mapping call names its options.
#[derive(Clone, Copy, Debug, PartialEq, Eq, Structural)]
pub struct MapBits {
    /// The mapping is private to the process.
    pub private: i32,
    /// The mapping is backed by no file.
    pub anonymous: i32,
    /// The mapping goes to the given address or fails.
    pub fixed: i32,
    /// The pages may be read.
    pub read: i32,
    /// The pages may be written.
    pub write: i32,
}

/// What the mapping call is handed.
#[derive(Clone, Copy, Debug, PartialEq, Eq, Structural)]
pub struct MapRequest {
    /// The address to map at, or zero to let the system choose.
    pub base: usize,
    /// The number of bytes to map.
    pub size: usize,
    /// The access that the pages allow.
    pub protection: i32,
    /// The options of the mapping.
    pub flags: i32,
}

/// The request for `size` bytes of fresh, private, readable and writable
/// memory. A `base` other than zero is binding: the mapping is placed there
/// or the call fails.
pub fn map_request(bits: MapBits, base: usize, size: usize) -> (request: MapRequest)
    ensures
        request.base == base,
        request.size == size,
        request.protection == bits.write | bits.read,
        request.flags == if base != 0 {
            bits.private | bits.anonymous | bits.fixed
        } else {
            bits.private | bits.anonymous
        },
{
    let mut flags: i32 = bits.private | bits.anonymous;
    if base != 0 {
        flags = flags | bits.fixed;
    }
    MapRequest { base, size, protection: bits.write | bits.read, flags }
}

/// Reads the answer of a mapping call: the address `failed` stands for
/// failure, every other address is that of the region.
pub fn map_outcome(address: usize, failed: usize) -> (r: Result<usize, AllocError>)
    ensures
        r == if address == failed {
            Err::<usize, AllocError>(AllocError)
        } else {
            Ok::<usize, AllocError>(address)
        },
{
    if address == failed {
        return Err(AllocError);
    }
    Ok(address)
}

/// Holds the address of a mapped region to the preferred one: a `base`
/// other than zero is binding, so a region that the system placed elsewhere
/// counts as a failure; with no preference every address is accepted.
pub fn placed(base: usize, address: usize) -> (r: Result<usize, AllocError>)
    ensures
        r == if base != 0 && address != base {
            Err::<usize, AllocError>(AllocError)
        } else {
            Ok::<usize, AllocError>(address)
        },
{
    if base != 0 && address != base {
        return Err(AllocError);
    }
    Ok(address)
}

/// Reads the status that an unmapping call returns: zero is success.
pub fn unmap_outcome(status: i32) -> (r: Result<(), AllocError>)
    ensures
        r.is_ok() <==> status == 0,
{
    if status == 0 {
        return Ok(());
    }
    Err(AllocError)
}

/// Reads the flag that a release call returns where zero means that the
/// call failed.
pub fn release_outcome(flag: i32) -> (r: Result<(), AllocError>)
    ensures
        r.is_ok() <==> flag != 0,
{
    if flag == 0 {
        return Err(AllocError);
    }
    Ok(())
}

} // verus!
