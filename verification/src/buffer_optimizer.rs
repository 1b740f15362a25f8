//! Maps file sizes to I/O buffer sizes, and aligns buffers to filesystem
//! cluster sizes.

use vstd::prelude::*;

verus! {

/// The buffer size picked for a file of `size` bytes: 4 KiB for small
/// files, rising in steps to 1 MiB for very large ones.
pub open spec fn spec_buffer_size(size: int) -> int {
    if size < 0x10000 {
        0x1000
    } else if size < 0x100000 {
        0x10000
    } else if size < 0xA00000 {
        0x40000
    } else if size < 0x6400000 {
        0x80000
    } else {
        0x100000
    }
}

/// Picks I/O buffer sizes from file sizes.
#[derive(Debug, Clone, Copy, PartialEq, Eq, Structural)]
pub struct BufferOptimizer {
    pub min_buffer_size: usize,
    pub max_buffer_size: usize,
    pub default_buffer_size: usize,
}

impl BufferOptimizer {
    pub fn new() -> (r: Self)
        ensures
            r.min_buffer_size == 0x1000,
            r.max_buffer_size == 0x100000,
            r.default_buffer_size == 0x10000,
    {
        Self {
            min_buffer_size: 4 * 1024,
            max_buffer_size: 1024 * 1024,
            default_buffer_size: 64 * 1024,
        }
    }

    /// The buffer size for a file of the given size.
    pub fn optimal_buffer_size(&self, file_size: u64) -> (r: usize)
        requires
            self.min_buffer_size == 0x1000,
            self.max_buffer_size == 0x100000,
            self.default_buffer_size == 0x10000,
        ensures
            r == spec_buffer_size(file_size as int),
    {
        if file_size < 64 * 1024 {
            self.min_buffer_size
        } else if file_size < 1024 * 1024 {
            self.default_buffer_size
        } else if file_size < 10 * 1024 * 1024 {
            256 * 1024
        } else if file_size < 100 * 1024 * 1024 {
            512 * 1024
        } else {
            self.max_buffer_size
        }
    }

    /// The cluster size assumed for a path on this platform.
    pub fn get_cluster_size(&self, _path: &str) -> (r: Option<usize>)
        ensures
            r == Some(self.min_buffer_size),
    {
        Some(self.min_buffer_size)
    }

    /// Rounds a buffer size up to a whole number of clusters.
    pub fn align_to_cluster(&self, buffer_size: usize, cluster_size: usize) -> (r: usize)
        requires
            buffer_size + cluster_size <= usize::MAX,
        ensures
            cluster_size == 0 ==> r == buffer_size,
            cluster_size > 0 ==> r == ((buffer_size + cluster_size - 1) / cluster_size as int)
                * cluster_size,
    {
        if cluster_size == 0 {
            return buffer_size;
        }
        proof {
            let q = (buffer_size + cluster_size - 1) as int / cluster_size as int;
            assert(q * cluster_size <= buffer_size + cluster_size - 1) by (nonlinear_arith)
                requires
                    cluster_size >= 1,
                    q == (buffer_size + cluster_size - 1) as int / cluster_size as int,
                    buffer_size + cluster_size - 1 >= 0,
            ;
        }
        ((buffer_size + cluster_size - 1) / cluster_size) * cluster_size
    }
}

impl Default for BufferOptimizer {
    fn default() -> (r: Self)
        ensures
            r.min_buffer_size == 0x1000,
            r.max_buffer_size == 0x100000,
            r.default_buffer_size == 0x10000,
    {
        Self::new()
    }
}

} // verus!
