//! Dispatch geometry and error kinds of the GPU engine.
use vstd::prelude::*;
use crate::text::{chars_of, string_of, push_all, push_decimal, decimal};

verus! {

/// Threads per workgroup of every compute kernel.
pub const WG: u32 = 256;

/// Dispatch cap: kernels grid-stride, so a dispatch never needs more than
/// this many workgroups (WebGPU guarantees 65,535 per dimension).
pub const MAX_WG: u32 = 4096;

/// The number of workgroups dispatched for a vector of `len` elements:
/// `ceil(len / WG)` clamped to `[1, MAX_WG]`, where `len` is first
/// narrowed to `u32` (bits above 32 are dropped).
pub open spec fn spec_wgs(len: usize) -> u32 {
    let l = (len as u32) as int;
    let q = (l + 255) / 256;
    if q < 1 {
        1
    } else if q > 4096 {
        4096
    } else {
        q as u32
    }
}

/// Workgroups to dispatch for `len` elements.
pub fn wgs(len: usize) -> (r: u32)
    ensures
        r == spec_wgs(len),
        1 <= r <= MAX_WG,
{
    let l: u32 = len as u32;
    let q: u32 = l / WG + if l % WG != 0 { 1u32 } else { 0u32 };
    assert(q as int == (l as int + 255) / 256) by (nonlinear_arith)
        requires q == l / 256 + if l % 256 != 0 { 1int } else { 0int };
    if q < 1 {
        1
    } else if q > MAX_WG {
        MAX_WG
    } else {
        q
    }
}

} // verus!

verus! {

/// Why the GPU engine could not run.
#[derive(Debug, Clone, PartialEq, Eq)]
pub enum GpuError {
    /// No adapter was found (WebGPU unavailable).
    NoAdapter,
    /// The device request failed, with the driver's message.
    Device(String),
    /// The problem needs a bigger storage binding than the adapter allows.
    BufferTooLarge { needed_mib: u64, allowed_mib: u64 },
}

impl GpuError {
    pub open spec fn spec_message(&self) -> Seq<char> {
        match self {
            GpuError::NoAdapter => "no suitable GPU adapter (WebGPU unavailable?)"@,
            GpuError::Device(m) => "device request failed: "@ + m@,
            GpuError::BufferTooLarge { needed_mib, allowed_mib } => "problem needs a "@ + decimal(
                *needed_mib as nat,
            ) + " MiB buffer but adapter allows "@ + decimal(*allowed_mib as nat) + " MiB"@,
        }
    }

    /// The error as a sentence.
    pub fn message(&self) -> (r: String)
        ensures
            r@ == self.spec_message(),
    {
        let mut out: Vec<char> = Vec::new();
        match self {
            GpuError::NoAdapter => {
                let m = chars_of("no suitable GPU adapter (WebGPU unavailable?)");
                push_all(&mut out, m.as_slice());
            },
            GpuError::Device(d) => {
                let m = chars_of("device request failed: ");
                push_all(&mut out, m.as_slice());
                let b = chars_of(d.as_str());
                push_all(&mut out, b.as_slice());
            },
            GpuError::BufferTooLarge { needed_mib, allowed_mib } => {
                let a = chars_of("problem needs a ");
                push_all(&mut out, a.as_slice());
                push_decimal(&mut out, *needed_mib);
                let b = chars_of(" MiB buffer but adapter allows ");
                push_all(&mut out, b.as_slice());
                push_decimal(&mut out, *allowed_mib);
                let c = chars_of(" MiB");
                push_all(&mut out, c.as_slice());
            },
        }
        string_of(out.as_slice())
    }
}

} // verus!

verus! {

/// `bytes` in MiB, rounded up.
pub open spec fn mib_for(bytes: nat) -> nat {
    (bytes + 1048575) / 1048576
}

/// The check a GPU solve makes before it allocates: its largest storage
/// binding, `elems` elements of 4 bytes (the matrix entries or a vector,
/// whichever is longer), must fit in the `allowed_mib` the adapter allows.
pub fn binding_guard(elems: usize, allowed_mib: u64) -> (r: Result<(), GpuError>)
    requires
        elems * 4 <= u64::MAX,
    ensures
        r is Ok <==> mib_for(elems as nat * 4) <= allowed_mib,
        r matches Err(e) ==> e == (GpuError::BufferTooLarge { needed_mib: mib_for(elems as nat * 4) as u64, allowed_mib }),
{
    let bytes: u64 = (elems as u64) * 4;
    let needed_mib: u64 = bytes / 1048576 + if bytes % 1048576 != 0 { 1u64 } else { 0u64 };
    assert(needed_mib as nat == mib_for(bytes as nat)) by (nonlinear_arith)
        requires
            needed_mib == bytes / 1048576 + if bytes % 1048576 != 0 { 1int } else { 0int };
    if needed_mib > allowed_mib {
        Err(GpuError::BufferTooLarge { needed_mib, allowed_mib })
    } else {
        Ok(())
    }
}

} // verus!
