//! What a store is opened with.

use vstd::prelude::*;

verus! {

/// The settings of a store.
pub struct StoreConfig<EC, DC, AP, RP> {
    /// settings of the eviction policy
    pub eviction_config: EC,
    /// settings of the device
    pub device_config: DC,
    /// the admission policy
    pub admission: AP,
    /// the reinsertion policy
    pub reinsertion: RP,
    /// bytes for region buffers
    pub buffer_pool_size: usize,
    /// number of flushers
    pub flushers: usize,
    /// number of reclaimers
    pub reclaimers: usize,
    /// how many regions may be recovered at the same time
    pub recover_concurrency: usize,
}

/// The shape of a device.
#[derive(Debug, Clone, Copy, PartialEq, Eq)]
pub struct DeviceInfo {
    /// block size
    pub align: usize,
    /// length of a region
    pub region_size: usize,
    /// number of regions
    pub regions: usize,
}

/// The region buffers that a store needs.
#[derive(Debug, Clone, Copy, PartialEq, Eq)]
pub struct BufferPool {
    /// how many
    pub count: usize,
    /// length of each
    pub len: usize,
    /// capacity of each
    pub capacity: usize,
}

/// The region buffers that fit in `buffer_pool_size` bytes: as many whole
/// regions as do.
pub fn buffer_pool(buffer_pool_size: usize, region_size: usize) -> (r: BufferPool)
    requires
        region_size > 0,
    ensures
        r.count == buffer_pool_size / region_size,
        r.len == region_size,
        r.capacity == region_size,
{
    BufferPool { count: buffer_pool_size / region_size, len: region_size, capacity: region_size }
}

/// The buffers stay within the bytes that are set aside for them, and one more
/// would not.
pub proof fn law_buffer_pool(buffer_pool_size: usize, region_size: usize)
    requires
        region_size > 0,
    ensures
        (buffer_pool_size / region_size) * region_size <= buffer_pool_size,
        buffer_pool_size < (buffer_pool_size / region_size + 1) * region_size,
{
    let p = buffer_pool_size as int;
    let r = region_size as int;
    vstd::arithmetic::div_mod::lemma_fundamental_div_mod(p, r);
    assert((p / r) * r <= p < (p / r + 1) * r) by (nonlinear_arith)
        requires
            r > 0,
            p == r * (p / r) + p % r,
            0 <= p % r < r,
    ;
}

} // verus!
