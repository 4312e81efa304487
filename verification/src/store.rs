use vstd::prelude::*;

verus! {

/// What a backing store answers when it could not complete an operation.
#[derive(Debug, Clone, Copy, PartialEq, Eq, Structural)]
pub struct StoreFault;

/// The bytes a store holds after `data` has been written at `offset` over `before`.
///
/// The written range takes the new bytes, everything else that existed keeps its
/// value, and a gap between the old end and `offset` reads as zero. Writing
/// nothing changes nothing.
pub open spec fn written(before: Seq<u8>, offset: int, data: Seq<u8>) -> Seq<u8> {
    if data.len() == 0 {
        before
    } else {
        Seq::new(
            if before.len() >= offset + data.len() {
                before.len()
            } else {
                (offset + data.len()) as nat
            },
            |i: int|
                if offset <= i < offset + data.len() {
                    data[i - offset]
                } else if i < before.len() {
                    before[i]
                } else {
                    0u8
                },
        )
    }
}

/// A durable, byte-addressable medium: positioned reads, positioned writes that
/// are flushed before they return, and a length.
///
/// The two spec functions are the model the contracts speak of. A store written
/// inside verified code defines them and has its methods checked against them. A
/// store written outside verified code cannot state them and inherits the
/// defaults; whatever is proved of a cache over such a store then rests on the
/// store behaving as the method contracts say of its real bytes: in particular, a
/// write that reports a fault must have left the stored bytes as they were.
pub trait BackingStore {
    /// The bytes the store holds, from offset zero to its end.
    open spec fn contents(&self) -> Seq<u8> {
        arbitrary()
    }

    /// Operations that stay below this offset are promised to succeed. Zero, the
    /// default, promises nothing.
    open spec fn reliable_len(&self) -> nat {
        0
    }

    /// The current length of the store in bytes.
    fn len(&self) -> (n: u64)
        ensures
            n == self.contents().len(),
    ;

    /// Reads `len` bytes starting at `offset`.
    fn read_at(&self, offset: u64, len: usize) -> (r: Result<Vec<u8>, StoreFault>)
        requires
            offset + len <= self.contents().len(),
        ensures
            r matches Ok(bytes) ==> bytes@ == self.contents().subrange(offset as int, offset + len),
            offset + len <= self.reliable_len() ==> r is Ok,
    ;

    /// Writes `data` at `offset`, extending the store with zeros where `offset`
    /// lies beyond its end, and makes the bytes durable before returning.
    fn write_at(&mut self, offset: u64, data: &[u8]) -> (r: Result<(), StoreFault>)
        requires
            offset + data@.len() <= u64::MAX,
        ensures
            final(self).reliable_len() == old(self).reliable_len(),
            r is Ok ==> final(self).contents() == written(
                old(self).contents(),
                offset as int,
                data@,
            ),
            r is Err ==> final(self).contents() == old(self).contents(),
            offset + data@.len() <= old(self).reliable_len() ==> r is Ok,
    ;
}

/// A backing store held in memory, with an upper bound on its length.
pub struct MemoryStore {
    bytes: Vec<u8>,
    limit: usize,
}

impl MemoryStore {
    /// The largest length a store in memory can reach on this machine.
    pub open spec fn max_len() -> nat {
        (usize::MAX / 2) as nat
    }

    /// The bound on the length that this store was made with.
    pub closed spec fn limit(&self) -> nat {
        self.limit as nat
    }

    /// Whether the length of the store is within its bound.
    pub open spec fn within_limit(&self) -> bool {
        self.contents().len() <= self.reliable_len()
    }

    /// An empty store that grows as far as memory allows.
    pub fn new() -> (store: MemoryStore)
        ensures
            store.contents() == Seq::<u8>::empty(),
            store.reliable_len() == Self::max_len(),
    {
        MemoryStore { bytes: Vec::new(), limit: usize::MAX / 2 }
    }

    /// An empty store that refuses every write that would end beyond `limit`.
    pub fn with_limit(limit: usize) -> (store: MemoryStore)
        ensures
            store.contents() == Seq::<u8>::empty(),
            store.reliable_len() == if limit <= Self::max_len() {
                limit as nat
            } else {
                Self::max_len()
            },
    {
        MemoryStore { bytes: Vec::new(), limit }
    }

    /// A store that starts out holding `bytes` and grows as far as memory allows.
    pub fn from_bytes(bytes: Vec<u8>) -> (store: MemoryStore)
        ensures
            store.contents() == bytes@,
            store.reliable_len() == Self::max_len(),
    {
        MemoryStore { bytes, limit: usize::MAX / 2 }
    }

    /// A copy of everything the store holds.
    pub fn to_bytes(&self) -> (bytes: Vec<u8>)
        ensures
            bytes@ == self.contents(),
    {
        self.bytes.clone()
    }

    fn bound(&self) -> (bound: usize)
        ensures
            bound == self.reliable_len(),
    {
        if self.limit <= usize::MAX / 2 {
            self.limit
        } else {
            usize::MAX / 2
        }
    }
}

impl BackingStore for MemoryStore {
    closed spec fn contents(&self) -> Seq<u8> {
        self.bytes@
    }

    closed spec fn reliable_len(&self) -> nat {
        if self.limit <= usize::MAX / 2 {
            self.limit as nat
        } else {
            (usize::MAX / 2) as nat
        }
    }

    fn len(&self) -> (n: u64) {
        self.bytes.len() as u64
    }

    /// Reads from memory; this never fails.
    fn read_at(&self, offset: u64, len: usize) -> (r: Result<Vec<u8>, StoreFault>)
        ensures
            r is Ok,
    {
        assert(offset + len <= self.bytes.len());
        let start = offset as usize;
        let mut out: Vec<u8> = Vec::with_capacity(len);
        out.extend_from_slice(&self.bytes[start..start + len]);
        Ok(out)
    }

    /// Writes to memory; this fails exactly when the write would end beyond the
    /// bound of the store.
    fn write_at(&mut self, offset: u64, data: &[u8]) -> (r: Result<(), StoreFault>)
        ensures
            r is Ok <==> offset + data@.len() <= old(self).reliable_len(),
            final(self).limit() == old(self).limit(),
    {
        let bound = self.bound();
        if offset > bound as u64 || data.len() > bound - offset as usize {
            return Err(StoreFault);
        }
        if data.len() == 0 {
            return Ok(());
        }
        let start = offset as usize;
        let end = start + data.len();
        if self.bytes.len() < end {
            self.bytes.resize(end, 0u8);
            assert forall|j: int| 0 <= j < end implies self.bytes@[j] == if j < old(
                self,
            ).bytes@.len() {
                old(self).bytes@[j]
            } else {
                0u8
            } by {
                if j < old(self).bytes@.len() {
                    assert(self.bytes@.subrange(0, old(self).bytes@.len() as int)[j]
                        == self.bytes@[j]);
                }
            }
        }
        let ghost grown = self.bytes@;
        let mut i: usize = 0;
        while i < data.len()
            invariant
                i <= data.len(),
                end == start + data.len(),
                self.bytes@.len() == grown.len(),
                end <= grown.len(),
                self.limit == old(self).limit,
                forall|j: int| start <= j < start + i ==> self.bytes@[j] == data@[j - start],
                forall|j: int|
                    0 <= j < grown.len() && !(start <= j < start + i) ==> self.bytes@[j] == grown[j],
            decreases data.len() - i,
        {
            self.bytes.set(start + i, data[i]);
            i += 1;
        }
        assert forall|j: int| 0 <= j < self.bytes@.len() implies self.bytes@[j] == written(
            old(self).bytes@,
            offset as int,
            data@,
        )[j] by {
            if !(start <= j < end) {
                assert(self.bytes@[j] == grown[j]);
            }
        }
        Ok(())
    }
}

} // verus!
