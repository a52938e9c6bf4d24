//! A memory pool: a fixed-size, zero-initialised block of bytes with an id,
//! the high-water mark of what was written to it, and an access counter.

use vstd::prelude::*;

verus! {

/// Pages of the buffer are touched at this stride when a pool is made, so
/// that they are resident before the first access.
pub const PAGE_SIZE: usize = 4096;

/// The mathematical state of a pool.
pub struct PoolView {
    pub id: Seq<char>,
    pub data: Seq<u8>,
    pub max_size: nat,
    pub current_size: nat,
    pub access_count: nat,
}

impl PoolView {
    /// The buffer fills the pool exactly, and the counters fit machine words.
    pub open spec fn wf(self) -> bool {
        &&& self.data.len() == self.max_size
        &&& self.max_size <= usize::MAX
        &&& self.current_size <= self.max_size
        &&& self.access_count <= usize::MAX
    }
}

/// The access counter after one more access: it wraps to 0 past `usize::MAX`.
pub open spec fn next_count(n: nat) -> nat {
    if n >= usize::MAX {
        0
    } else {
        n + 1
    }
}

/// A pool of `size` zero bytes, never written or accessed.
pub open spec fn fresh_pool(id: Seq<char>, size: nat) -> PoolView {
    PoolView {
        id,
        data: Seq::new(size, |i: int| 0u8),
        max_size: size,
        current_size: 0,
        access_count: 0,
    }
}

/// `data` with `bytes` written over it from `offset` on.
pub open spec fn overwrite(data: Seq<u8>, offset: nat, bytes: Seq<u8>) -> Seq<u8> {
    data.take(offset as int) + bytes + data.skip((offset + bytes.len()) as int)
}

/// The pool after `bytes` were written to it at `offset`.
pub open spec fn pool_after_write(p: PoolView, offset: nat, bytes: Seq<u8>) -> PoolView {
    let end = offset + bytes.len();
    PoolView {
        data: overwrite(p.data, offset, bytes),
        current_size: if p.current_size >= end {
            p.current_size
        } else {
            end
        },
        access_count: next_count(p.access_count),
        ..p
    }
}

/// The pool after one read from it.
pub open spec fn pool_after_read(p: PoolView) -> PoolView {
    PoolView { access_count: next_count(p.access_count), ..p }
}

/// A memory pool.
pub struct MemoryPool {
    id: String,
    buffer: Vec<u8>,
    max_size: usize,
    current_size: usize,
    access_count: usize,
}

impl View for MemoryPool {
    type V = PoolView;

    closed spec fn view(&self) -> PoolView {
        PoolView {
            id: self.id@,
            data: self.buffer@,
            max_size: self.max_size as nat,
            current_size: self.current_size as nat,
            access_count: self.access_count as nat,
        }
    }
}

impl MemoryPool {
    /// A pool of `size` zero bytes named `id`, its pages touched.
    pub fn new(id: String, size: usize) -> (r: MemoryPool)
        requires
            size <= isize::MAX,
        ensures
            r@ == fresh_pool(id@, size as nat),
            r@.wf(),
    {
        let mut buffer = vec![0u8; size];
        assert(forall|i: int| 0 <= i < size ==> buffer@[i] == 0u8);
        let mut page: usize = 0;
        while page < size
            invariant
                buffer@.len() == size,
                forall|i: int| 0 <= i < size ==> buffer@[i] == 0u8,
            decreases size - page,
        {
            buffer.set(page, 0);
            if size - page <= PAGE_SIZE {
                page = size;
            } else {
                page = page + PAGE_SIZE;
            }
        }
        assert(buffer@ =~= Seq::new(size as nat, |i: int| 0u8));
        MemoryPool { id, buffer, max_size: size, current_size: 0, access_count: 0 }
    }

    pub fn max_size(&self) -> (r: usize)
        ensures
            r == self@.max_size,
    {
        self.max_size
    }

    pub fn current_size(&self) -> (r: usize)
        ensures
            r == self@.current_size,
    {
        self.current_size
    }

    pub fn access_count(&self) -> (r: usize)
        ensures
            r == self@.access_count,
    {
        self.access_count
    }

    /// Copies `bytes` into the pool at `offset`, raises the high-water mark
    /// to the end of the write, and counts the access.
    pub fn write_bytes(&mut self, offset: usize, bytes: &[u8])
        requires
            old(self)@.wf(),
            offset + bytes@.len() <= old(self)@.max_size,
        ensures
            final(self)@ == pool_after_write(old(self)@, offset as nat, bytes@),
            final(self)@.wf(),
    {
        let ghost before = self.buffer@;
        let mut k: usize = 0;
        while k < bytes.len()
            invariant
                k <= bytes@.len(),
                offset + bytes@.len() <= self.max_size,
                self.buffer@.len() == self.max_size,
                before.len() == self.max_size,
                self.id == old(self).id,
                self.max_size == old(self).max_size,
                self.current_size == old(self).current_size,
                self.access_count == old(self).access_count,
                forall|i: int|
                    0 <= i < self.buffer@.len() ==> #[trigger] self.buffer@[i] == if offset <= i
                        < offset + k {
                        bytes@[i - offset]
                    } else {
                        before[i]
                    },
            decreases bytes@.len() - k,
        {
            self.buffer.set(offset + k, bytes[k]);
            k += 1;
        }
        assert(self.buffer@ =~= overwrite(before, offset as nat, bytes@));
        let end = offset + bytes.len();
        if end > self.current_size {
            self.current_size = end;
        }
        self.access_count = self.access_count.wrapping_add(1);
    }

    /// The `size` bytes of the pool from `offset` on; counts the access.
    pub fn read_bytes(&mut self, offset: usize, size: usize) -> (r: Vec<u8>)
        requires
            old(self)@.wf(),
            offset + size <= old(self)@.max_size,
        ensures
            r@ == old(self)@.data.subrange(offset as int, offset + size),
            final(self)@ == pool_after_read(old(self)@),
            final(self)@.wf(),
    {
        let mut r: Vec<u8> = Vec::new();
        let mut k: usize = offset;
        let end = offset + size;
        while k < end
            invariant
                end == offset + size,
                offset <= k <= offset + size <= self.buffer@.len(),
                r@ == self.buffer@.subrange(offset as int, k as int),
            decreases end - k,
        {
            r.push(self.buffer[k]);
            assert(r@ =~= self.buffer@.subrange(offset as int, k + 1));
            k += 1;
        }
        self.access_count = self.access_count.wrapping_add(1);
        r
    }
}

} // verus!
