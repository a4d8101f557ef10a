use vstd::prelude::*;

verus! {

/// Number of bytes the ring buffer can hold at once.
pub const BUFFER_CAPACITY: usize = 256;

/// Number of physical slots: one more than the capacity, so that a full
/// buffer and an empty one have different cursor positions.
pub const BUFFER_SLOTS: usize = 257;

/// Fixed-capacity circular byte buffer shared by the receive interrupt, the
/// transmit interrupt and the foreground loop.
///
/// Bytes leave in the order in which they came in. `start` is the slot of the
/// oldest byte, `end` the slot the next byte goes to; `start == end` means
/// empty and `(end + 1) % 257 == start` means full.
pub struct UartBuffer {
    buffer: [u8; 257],
    start: usize,
    end: usize,
}

/// Why a buffer operation could not be done.
#[derive(Debug, Clone, Copy, PartialEq, Eq, Structural)]
pub enum UartBufferError {
    BufferEmpty,
    BufferFull,
}

/// Position `i` places after `pos`, on the ring of 257 slots.
pub open spec fn ring_step(pos: int, i: int) -> int {
    if pos + i < BUFFER_SLOTS {
        pos + i
    } else {
        pos + i - BUFFER_SLOTS
    }
}

/// The buffer contents after `byte` arrives through `overwrite`: when full,
/// the oldest byte makes room for it.
pub open spec fn overwritten(contents: Seq<u8>, byte: u8) -> Seq<u8> {
    if contents.len() == BUFFER_CAPACITY {
        contents.drop_first().push(byte)
    } else {
        contents.push(byte)
    }
}

/// The buffer contents after each byte of `bytes` arrives through `overwrite`,
/// in order.
pub open spec fn overwritten_all(contents: Seq<u8>, bytes: Seq<u8>) -> Seq<u8>
    decreases bytes.len(),
{
    if bytes.len() == 0 {
        contents
    } else {
        overwritten(overwritten_all(contents, bytes.drop_last()), bytes.last())
    }
}

impl View for UartBuffer {
    type V = Seq<u8>;

    /// The buffered bytes, oldest first.
    closed spec fn view(&self) -> Seq<u8> {
        Seq::new(
            self.count(),
            |i: int| self.buffer@[ring_step(self.start as int, i)],
        )
    }
}

impl UartBuffer {
    #[verifier::type_invariant]
    spec fn cursors_in_range(&self) -> bool {
        self.start < BUFFER_SLOTS && self.end < BUFFER_SLOTS
    }

    /// Number of buffered bytes.
    closed spec fn count(&self) -> nat {
        ((self.end + BUFFER_SLOTS - self.start) % (BUFFER_SLOTS as int)) as nat
    }

    proof fn lemma_count(&self)
        requires
            self.cursors_in_range(),
        ensures
            self.start <= self.end ==> self.count() == self.end - self.start,
            self.start > self.end ==> self.count() == self.end + BUFFER_SLOTS - self.start,
    {
    }

    /// Slot of the oldest byte.
    pub closed spec fn read_index(&self) -> nat {
        self.start as nat
    }

    /// Slot that the next byte is written to.
    pub closed spec fn write_index(&self) -> nat {
        self.end as nat
    }

    /// All 257 slots, stale ones included.
    pub closed spec fn storage(&self) -> Seq<u8> {
        self.buffer@
    }

    pub open spec fn spec_is_empty(&self) -> bool {
        self@.len() == 0
    }

    pub open spec fn spec_is_full(&self) -> bool {
        self@.len() == BUFFER_CAPACITY
    }

    proof fn lemma_view_len(&self)
        ensures
            self@.len() == self.count(),
            self@.len() <= BUFFER_CAPACITY,
    {
    }

    pub fn new() -> (r: Self)
        ensures
            r@ == Seq::<u8>::empty(),
    {
        UartBuffer { buffer: [0; 257], start: 0, end: 0 }
    }

    /// Takes the oldest byte out of the buffer.
    pub fn read_byte(&mut self) -> (r: Result<u8, UartBufferError>)
        ensures
            old(self)@.len() == 0 ==> r == Err::<u8, UartBufferError>(
                UartBufferError::BufferEmpty,
            ) && *final(self) == *old(self),
            old(self)@.len() > 0 ==> r == Ok::<u8, UartBufferError>(old(self)@[0]) && final(self)@ == old(self)@.drop_first(),
        no_unwind
    {
        if self.is_empty() {
            return Err(UartBufferError::BufferEmpty);
        }
        proof {
            use_type_invariant(&*self);
            self.lemma_count();
        }
        let value = self.buffer[self.start];
        self.tick_start();
        Ok(value)
    }

    /// Appends a byte, unless the buffer is full.
    pub fn write_byte(&mut self, byte: u8) -> (r: Result<(), UartBufferError>)
        ensures
            old(self)@.len() == BUFFER_CAPACITY ==> r == Err::<(), UartBufferError>(
                UartBufferError::BufferFull,
            ) && *final(self) == *old(self),
            old(self)@.len() < BUFFER_CAPACITY ==> r == Ok::<(), UartBufferError>(()) && final(self)@ == old(self)@.push(byte),
        no_unwind
    {
        if self.is_full() {
            return Err(UartBufferError::BufferFull);
        }
        proof {
            use_type_invariant(&*self);
            self.lemma_count();
        }
        self.buffer[self.end] = byte;
        self.tick_end();
        Ok(())
    }

    /// Drops every buffered byte.
    pub fn clear(&mut self)
        ensures
            final(self)@ == Seq::<u8>::empty(),
        no_unwind
    {
        proof {
            use_type_invariant(&*self);
            self.lemma_count();
        }
        self.start = 0;
        self.end = 0;
    }

    /// Appends a byte; when the buffer is full the oldest byte is discarded
    /// first, so that the writer always makes progress.
    pub fn overwrite(&mut self, byte: u8)
        ensures
            final(self)@ == overwritten(old(self)@, byte),
        no_unwind
    {
        if self.is_full() {
            self.tick_start();
        }
        proof {
            use_type_invariant(&*self);
            self.lemma_count();
        }
        self.buffer[self.end] = byte;
        self.tick_end();
    }

    pub fn is_empty(&mut self) -> (r: bool)
        ensures
            r == old(self).spec_is_empty(),
            *final(self) == *old(self),
        no_unwind
    {
        proof {
            use_type_invariant(&*self);
            self.lemma_count();
        }
        self.start == self.end
    }

    /// Moves the read cursor one slot on, which discards the oldest byte of a
    /// buffer that holds any.
    pub fn tick_start(&mut self)
        ensures
            final(self).read_index() == (old(self).read_index() + 1) % (BUFFER_SLOTS as nat),
            final(self).write_index() == old(self).write_index(),
            final(self).storage() == old(self).storage(),
            old(self)@.len() > 0 ==> final(self)@ == old(self)@.drop_first(),
        no_unwind
    {
        proof {
            use_type_invariant(&*self);
            self.lemma_count();
        }
        self.start = (self.start + 1) % BUFFER_SLOTS;
        proof {
            assert(self@ =~= old(self)@.drop_first() || old(self)@.len() == 0);
        }
    }

    pub fn is_full(&mut self) -> (r: bool)
        ensures
            r == old(self).spec_is_full(),
            *final(self) == *old(self),
        no_unwind
    {
        proof {
            use_type_invariant(&*self);
            self.lemma_count();
        }
        (self.end + 1) % BUFFER_SLOTS == self.start
    }

    /// Moves the write cursor one slot on, which appends the byte stored in
    /// that slot to a buffer that is not full.
    pub fn tick_end(&mut self)
        ensures
            final(self).write_index() == (old(self).write_index() + 1) % (BUFFER_SLOTS as nat),
            final(self).read_index() == old(self).read_index(),
            final(self).storage() == old(self).storage(),
            old(self)@.len() < BUFFER_CAPACITY ==> final(self)@ == old(self)@.push(
                old(self).storage()[old(self).write_index() as int],
            ),
        no_unwind
    {
        proof {
            use_type_invariant(&*self);
            self.lemma_count();
        }
        self.end = (self.end + 1) % BUFFER_SLOTS;
        proof {
            assert(self@ =~= old(self)@.push(old(self).storage()[old(self).write_index() as int])
                || old(self)@.len() == BUFFER_CAPACITY);
        }
    }
}

/// No sequence of operations makes the buffer hold more than its capacity,
/// and it never reports full and empty at once.
pub proof fn lemma_capacity_bound(b: UartBuffer)
    ensures
        b@.len() <= BUFFER_CAPACITY,
        !(b.spec_is_full() && b.spec_is_empty()),
{
    b.lemma_view_len();
}

/// Overwriting keeps the newest bytes: after any run of `overwrite` calls with
/// no reads, the buffer holds the last bytes of everything written, at most
/// its capacity of them, the oldest evicted first.
pub proof fn lemma_overwrite_keeps_newest(contents: Seq<u8>, bytes: Seq<u8>)
    requires
        contents.len() <= BUFFER_CAPACITY,
    ensures
        overwritten_all(contents, bytes) == (contents + bytes).skip(
            if contents.len() + bytes.len() > BUFFER_CAPACITY {
                contents.len() + bytes.len() - BUFFER_CAPACITY
            } else {
                0
            },
        ),
    decreases bytes.len(),
{
    if bytes.len() > 0 {
        let prev = bytes.drop_last();
        lemma_overwrite_keeps_newest(contents, prev);
        let all = contents + bytes;
        assert(contents + prev =~= all.drop_last());
        let n = contents.len() + bytes.len();
        if n > BUFFER_CAPACITY {
            if n - 1 > BUFFER_CAPACITY {
                assert(all.drop_last().skip(n - 1 - BUFFER_CAPACITY).drop_first().push(bytes.last())
                    =~= all.skip(n - BUFFER_CAPACITY));
            } else {
                assert(all.drop_last().skip(0).drop_first().push(bytes.last()) =~= all.skip(
                    n - BUFFER_CAPACITY,
                ));
            }
        } else {
            assert(all.drop_last().skip(0).push(bytes.last()) =~= all.skip(0));
        }
    }
}

/// Overwriting one byte more than the capacity into an empty buffer leaves
/// exactly a full buffer, without the first byte.
pub proof fn lemma_overwrite_evicts_oldest(bytes: Seq<u8>)
    requires
        bytes.len() == BUFFER_CAPACITY + 1,
    ensures
        overwritten_all(Seq::<u8>::empty(), bytes) == bytes.drop_first(),
        overwritten_all(Seq::<u8>::empty(), bytes).len() == BUFFER_CAPACITY,
{
    lemma_overwrite_keeps_newest(Seq::<u8>::empty(), bytes);
    assert(Seq::<u8>::empty() + bytes =~= bytes);
}

} // verus!
