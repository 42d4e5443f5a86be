//! The size-classed buffer pool of the ingestion engine.
//!
//! Accumulators come from a pool of three size classes. Each class
//! keeps a bounded free list, and the number of live buffers — handed
//! out and not yet returned — never exceeds its cap: under pressure
//! the pool degrades to handing out the smallest class without
//! counting it further, so memory stays bounded and the peer is never
//! blocked.

use vstd::prelude::*;

verus! {

/// Free-list bound of each size class.
pub const CLASS_FREE_CAP: usize = 20;

/// Hard cap on live buffers across all classes.
pub const MAX_TOTAL_BUFFERS: u64 = 100;

/// The three buffer size classes.
#[derive(Clone, Copy, PartialEq, Eq, Structural, Debug)]
pub enum BufferClass {
    /// 1 KiB
    Small,
    /// 8 KiB
    Medium,
    /// 64 KiB
    Large,
}

/// The payload capacity of a class, in bytes.
pub open spec fn class_bytes(c: BufferClass) -> nat {
    match c {
        BufferClass::Small => 1024,
        BufferClass::Medium => 8192,
        BufferClass::Large => 65536,
    }
}

/// A buffer on loan from the pool, remembering its class.
#[derive(Debug)]
pub struct PooledBuffer {
    pub data: Vec<u8>,
    pub class: BufferClass,
}

/// The pool: one bounded free list per class and the live counter.
#[derive(Debug)]
pub struct BufferPool {
    pub small_free: Vec<Vec<u8>>,
    pub medium_free: Vec<Vec<u8>>,
    pub large_free: Vec<Vec<u8>>,
    pub live_buffers: u64,
}

impl BufferPool {
    /// Free lists within their cap and the live count within its cap:
    /// the memory bound of the pool.
    pub open spec fn wf(&self) -> bool {
        &&& self.small_free@.len() <= CLASS_FREE_CAP
        &&& self.medium_free@.len() <= CLASS_FREE_CAP
        &&& self.large_free@.len() <= CLASS_FREE_CAP
        &&& self.live_buffers <= MAX_TOTAL_BUFFERS
    }

    /// An empty pool.
    pub fn new() -> (r: BufferPool)
        ensures
            r.wf(),
            r.live_buffers == 0,
    {
        BufferPool {
            small_free: Vec::new(),
            medium_free: Vec::new(),
            large_free: Vec::new(),
            live_buffers: 0,
        }
    }

    /// The class serving a requested size: the smallest that holds it,
    /// the largest for anything bigger.
    pub fn class_for(size: usize) -> (c: BufferClass)
        ensures
            size <= 1024 ==> c == BufferClass::Small,
            1024 < size <= 8192 ==> c == BufferClass::Medium,
            size > 8192 ==> c == BufferClass::Large,
    {
        if size <= 1024 {
            BufferClass::Small
        } else if size <= 8192 {
            BufferClass::Medium
        } else {
            BufferClass::Large
        }
    }

    /// Hands out an empty buffer for `size` bytes: a recycled one of
    /// the right class when the free list has one, a fresh one
    /// otherwise. The live count never passes its cap — at the cap the
    /// pool degrades to an uncounted buffer of the smallest class
    /// rather than blocking.
    pub fn get_buffer(&mut self, size: usize) -> (r: PooledBuffer)
        requires
            old(self).wf(),
        ensures
            final(self).wf(),
            r.data@.len() == 0,
            final(self).live_buffers <= MAX_TOTAL_BUFFERS,
            old(self).live_buffers < MAX_TOTAL_BUFFERS ==> final(self).live_buffers == old(
                self,
            ).live_buffers + 1,
            old(self).live_buffers < MAX_TOTAL_BUFFERS ==> r.class == (if size <= 1024 {
                BufferClass::Small
            } else if size <= 8192 {
                BufferClass::Medium
            } else {
                BufferClass::Large
            }),
            old(self).live_buffers == MAX_TOTAL_BUFFERS ==> final(self).live_buffers == old(
                self,
            ).live_buffers && r.class == BufferClass::Small,
    {
        if self.live_buffers >= MAX_TOTAL_BUFFERS {
            // pool pressure: degrade capacity, never block
            return PooledBuffer { data: Vec::new(), class: BufferClass::Small };
        }
        self.live_buffers = self.live_buffers + 1;
        let class = Self::class_for(size);
        let recycled: Option<Vec<u8>> = match class {
            BufferClass::Small => self.small_free.pop(),
            BufferClass::Medium => self.medium_free.pop(),
            BufferClass::Large => self.large_free.pop(),
        };
        match recycled {
            Some(mut buf) => {
                buf.clear();
                PooledBuffer { data: buf, class }
            },
            None => PooledBuffer { data: Vec::new(), class },
        }
    }

    /// Takes a buffer back: it is emptied and kept on its class's
    /// free list while there is room, and the live count drops.
    pub fn return_buffer(&mut self, buf: PooledBuffer)
        requires
            old(self).wf(),
        ensures
            final(self).wf(),
            final(self).live_buffers == (if old(self).live_buffers > 0 {
                old(self).live_buffers - 1
            } else {
                0
            }),
    {
        let PooledBuffer { mut data, class } = buf;
        data.clear();
        match class {
            BufferClass::Small => {
                if self.small_free.len() < CLASS_FREE_CAP {
                    self.small_free.push(data);
                }
            },
            BufferClass::Medium => {
                if self.medium_free.len() < CLASS_FREE_CAP {
                    self.medium_free.push(data);
                }
            },
            BufferClass::Large => {
                if self.large_free.len() < CLASS_FREE_CAP {
                    self.large_free.push(data);
                }
            },
        }
        if self.live_buffers > 0 {
            self.live_buffers = self.live_buffers - 1;
        }
    }
}

} // verus!
