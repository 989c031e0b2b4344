//! The GPU transfer interface of the CUDA bridge, as a host-only stub: no
//! device memory is ever allocated, and copies move nothing.

use vstd::prelude::*;
use std::marker::PhantomData;
use crate::substrate::SpikeBuffer;

verus! {

/// A device address holding values of type `T` (an opaque handle).
#[derive(Debug)]
pub struct DevicePtr<T> {
    addr: usize,
    elem: PhantomData<T>,
}

impl<T> Clone for DevicePtr<T> {
    fn clone(&self) -> (p: DevicePtr<T>)
        ensures
            p.addr() == self.addr(),
    {
        DevicePtr { addr: self.addr, elem: PhantomData }
    }
}

impl<T> Copy for DevicePtr<T> {}

impl<T> DevicePtr<T> {
    /// A handle for a raw device address.
    pub fn from_raw(addr: usize) -> (p: DevicePtr<T>)
        ensures
            p.addr() == addr,
    {
        DevicePtr { addr, elem: PhantomData }
    }

    /// The address this handle stands for.
    pub closed spec fn addr(&self) -> usize {
        self.addr
    }

    /// The raw device address.
    pub fn as_raw(&self) -> (a: usize)
        ensures
            a == self.addr(),
    {
        self.addr
    }
}

/// Allocates device memory for `count` values; without a device it always
/// fails and returns `None`.
pub fn cuda_malloc<T>(count: usize) -> (r: Option<DevicePtr<T>>)
    ensures
        r is None,
{
    let addr: usize = 0;
    if addr == 0 {
        None
    } else {
        Some(DevicePtr::from_raw(addr))
    }
}

/// Copies host values to the device; succeeds and moves nothing without a device.
pub fn cuda_memcpy_host_to_device<T>(dst: DevicePtr<T>, src: &[T]) -> (r: Result<(), &'static str>)
    ensures
        r is Ok,
{
    Ok(())
}

/// Copies device values to the host; succeeds and leaves `dst` as it was
/// without a device.
pub fn cuda_memcpy_device_to_host<T>(dst: &mut [T], src: DevicePtr<T>) -> (r: Result<(), &'static str>)
    ensures
        r is Ok,
        final(dst)@ == old(dst)@,
{
    Ok(())
}

/// Downloads `count` spike indices from the device into a buffer of
/// capacity `count`; without a device every downloaded index is 0.
pub fn download_spikes(dev: DevicePtr<u32>, count: usize) -> (r: Result<SpikeBuffer, &'static str>)
    ensures
        r matches Ok(b) && b.count == count && b.indices@ == Seq::new(count as nat, |i: int| 0u32),
{
    let mut host: Vec<u32> = Vec::new();
    let mut i: usize = 0;
    while i < count
        invariant
            0 <= i <= count,
            host@ == Seq::new(i as nat, |k: int| 0u32),
        decreases count - i,
    {
        host.push(0);
        assert(host@ =~= Seq::new((i + 1) as nat, |k: int| 0u32));
        i += 1;
    }
    match cuda_memcpy_device_to_host(host.as_mut_slice(), dev) {
        Ok(()) => {},
        Err(e) => { return Err(e); },
    }
    let mut buf = SpikeBuffer::new(count);
    let mut j: usize = 0;
    while j < host.len()
        invariant
            host@ == Seq::new(count as nat, |k: int| 0u32),
            0 <= j <= count,
            buf.count == count,
            buf.indices@ == Seq::new(j as nat, |k: int| 0u32),
        decreases count - j,
    {
        let _ = buf.push(host[j]);
        assert(buf.indices@ =~= Seq::new((j + 1) as nat, |k: int| 0u32));
        j += 1;
    }
    Ok(buf)
}

} // verus!
