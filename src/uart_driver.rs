use vstd::prelude::*;
use vstd::string::is_ascii;

use crate::buffer::{lemma_capacity_bound, overwritten, UartBuffer, UartBufferError, BUFFER_CAPACITY};
use crate::data_format::{padded, Function, PAYLOAD_CAPACITY};
use crate::fixed_vec::{slot_vec_as_slice, slot_vec_from_slice, slot_vec_set, slots_of};

verus! {

broadcast use vstd::string::is_ascii_spec_bytes;

/// Number of slots in the note table.
pub const NOTE_SLOTS: usize = 20;

/// A stored note as the contracts see it: its length and its 20-byte payload
/// region.
pub type NoteView = (u8, Seq<u8>);

/// Why a note could not be stored.
#[derive(Debug, Clone, Copy, PartialEq, Eq, Structural)]
pub enum StoreError {
    StoreFull,
}

/// The short texts that answers carry in their payload.
#[derive(Debug, Clone, Copy, PartialEq, Eq, Structural)]
pub enum Notice {
    Done,
    NoSpace,
    DoesntExist,
    OutOfRange,
    Deleted,
    DataLoss,
    MessageWrong,
}

pub open spec fn notice_text(n: Notice) -> Seq<char> {
    match n {
        Notice::Done => "Done"@,
        Notice::NoSpace => "Failed, no space"@,
        Notice::DoesntExist => "Doesn't exist"@,
        Notice::OutOfRange => "Out of range"@,
        Notice::Deleted => "Deleted"@,
        Notice::DataLoss => "Data loss!!"@,
        Notice::MessageWrong => "Message wrong!!"@,
    }
}

/// The bytes of a notice's text (all of them ASCII).
pub open spec fn notice_bytes(n: Notice) -> Seq<u8> {
    Seq::new(notice_text(n).len(), |i: int| notice_text(n)[i] as u8)
}

/// An answer as `(length, payload region, function)` carrying a notice.
pub open spec fn notice_reply(n: Notice, f: Function) -> (u8, Seq<u8>, Function) {
    let len = notice_bytes(n).len() as u8;
    (len, padded(notice_bytes(n), len), f)
}

impl Notice {
    /// The notice's text.
    pub fn text(self) -> (r: &'static str)
        ensures
            r@ == notice_text(self),
            is_ascii(r),
            r@.len() <= PAYLOAD_CAPACITY,
    {
        match self {
            Notice::Done => {
                proof {
                    reveal_strlit("Done");
                }
                "Done"
            },
            Notice::NoSpace => {
                proof {
                    reveal_strlit("Failed, no space");
                }
                "Failed, no space"
            },
            Notice::DoesntExist => {
                proof {
                    reveal_strlit("Doesn't exist");
                }
                "Doesn't exist"
            },
            Notice::OutOfRange => {
                proof {
                    reveal_strlit("Out of range");
                }
                "Out of range"
            },
            Notice::Deleted => {
                proof {
                    reveal_strlit("Deleted");
                }
                "Deleted"
            },
            Notice::DataLoss => {
                proof {
                    reveal_strlit("Data loss!!");
                }
                "Data loss!!"
            },
            Notice::MessageWrong => {
                proof {
                    reveal_strlit("Message wrong!!");
                }
                "Message wrong!!"
            },
        }
    }

    /// The notice as a payload region and its length.
    pub fn payload(self) -> (r: ([u8; 20], u8))
        ensures
            r.1 == notice_bytes(self).len(),
            r.1 <= PAYLOAD_CAPACITY,
            r.0@ == padded(notice_bytes(self), r.1),
    {
        let text = self.text();
        let bytes = text.as_bytes();
        assert(bytes@ =~= notice_bytes(self));
        let mut out = [0u8; 20];
        let mut i: usize = 0;
        while i < bytes.len()
            invariant
                bytes@ == notice_bytes(self),
                bytes@.len() <= PAYLOAD_CAPACITY,
                i <= bytes@.len(),
                out@ =~= Seq::new(
                    PAYLOAD_CAPACITY as nat,
                    |j: int| if j < i { bytes@[j] } else { 0u8 },
                ),
            decreases bytes@.len() - i,
        {
            out[i] = bytes[i];
            i = i + 1;
        }
        let len = bytes.len() as u8;
        assert(out@ =~= padded(notice_bytes(self), len));
        (out, len)
    }
}

/// The view of one slot of the note table.
pub open spec fn slot_view(slot: Option<(u8, [u8; 20])>) -> Option<NoteView> {
    match slot {
        Some((len, data)) => Some((len, data@)),
        None => None,
    }
}

/// The first free slot at index `i` or after it.
pub open spec fn first_free_from(notes: Seq<Option<NoteView>>, i: nat) -> Option<nat>
    decreases notes.len() - i,
{
    if i >= notes.len() {
        None
    } else if notes[i as int] is None {
        Some(i)
    } else {
        first_free_from(notes, i + 1)
    }
}

/// The note table after storing the first `len` bytes of `note` in the lowest
/// free slot, and the external id (slot index plus one) it got; `None` when
/// every slot is taken.
pub open spec fn saved(notes: Seq<Option<NoteView>>, note: Seq<u8>, len: u8) -> (
    Seq<Option<NoteView>>,
    Option<u8>,
) {
    match first_free_from(notes, 0) {
        Some(i) => (notes.update(i as int, Some((len, note))), Some((i + 1) as u8)),
        None => (notes, None),
    }
}

/// The answer to reading external id `id`.
pub open spec fn read_reply(notes: Seq<Option<NoteView>>, id: u8) -> (u8, Seq<u8>, Function) {
    if id == 0 {
        notice_reply(Notice::DoesntExist, Function::ERROR)
    } else if id > NOTE_SLOTS {
        notice_reply(Notice::OutOfRange, Function::ERROR)
    } else {
        match notes[id - 1] {
            Some((len, data)) => (len, data, Function::READ),
            None => notice_reply(Notice::DoesntExist, Function::ERROR),
        }
    }
}

/// The note table after deleting external id `id`, and the answer.
pub open spec fn deleted(notes: Seq<Option<NoteView>>, id: u8) -> (
    Seq<Option<NoteView>>,
    (u8, Seq<u8>, Function),
) {
    if id == 0 {
        (notes, notice_reply(Notice::DoesntExist, Function::ERROR))
    } else if id > NOTE_SLOTS {
        (notes, notice_reply(Notice::OutOfRange, Function::ERROR))
    } else if notes[id - 1] is None {
        (notes, notice_reply(Notice::DoesntExist, Function::ERROR))
    } else {
        (notes.update(id - 1, None), notice_reply(Notice::Deleted, Function::DELETE))
    }
}

/// The UART transceiver and the note table it serves.
///
/// One ring buffer carries the bytes: the receive interrupt puts incoming
/// bytes in, the foreground loop takes them out, puts its answers in, and the
/// transmit interrupt sends them. `tx_filled` tells whether a transmission is
/// in flight, so that the next transmit-ready event will take a byte.
pub struct UartDriver {
    buffer: UartBuffer,
    tx_filled: bool,
    notes: heapless::Vec<Option<(u8, [u8; 20])>, 20>,
}

impl UartDriver {
    #[verifier::type_invariant]
    spec fn table_fits(&self) -> bool {
        &&& slots_of(self.notes).len() == NOTE_SLOTS
        &&& forall|i: int|
            0 <= i < NOTE_SLOTS ==> (#[trigger] slots_of(self.notes)[i] matches Some((len, _))
                ==> len <= PAYLOAD_CAPACITY)
    }

    /// The bytes in the ring buffer, oldest first.
    pub closed spec fn pending(&self) -> Seq<u8> {
        self.buffer@
    }

    /// Whether a transmission is in flight.
    pub closed spec fn transmitting(&self) -> bool {
        self.tx_filled
    }

    /// The note table, slot by slot.
    pub closed spec fn notes(&self) -> Seq<Option<NoteView>> {
        Seq::new(NOTE_SLOTS as nat, |i: int| slot_view(slots_of(self.notes)[i]))
    }

    /// A driver with an empty buffer, no transmission in flight and an empty
    /// note table.
    pub fn new() -> (r: Self)
        ensures
            r.pending() == Seq::<u8>::empty(),
            !r.transmitting(),
            r.notes() == Seq::new(NOTE_SLOTS as nat, |i: int| None::<NoteView>),
    {
        let empty: [Option<(u8, [u8; 20])>; 20] = [None; 20];
        let notes = slot_vec_from_slice(&empty);
        let r = UartDriver { buffer: UartBuffer::new(), tx_filled: false, notes };
        assert(r.notes() =~= Seq::new(NOTE_SLOTS as nat, |i: int| None::<NoteView>));
        r
    }

    /// A byte arrived (receive interrupt). When the buffer is full the oldest
    /// byte is dropped to make room, so the handler never waits.
    pub fn push_byte(&mut self, byte: u8)
        ensures
            final(self).pending() == overwritten(old(self).pending(), byte),
            final(self).transmitting() == old(self).transmitting(),
            final(self).notes() == old(self).notes(),
    {
        proof {
            use_type_invariant(&*self);
            lemma_capacity_bound(self.buffer);
        }
        if !self.buffer.is_full() {
            let _ = self.buffer.write_byte(byte);
        } else {
            self.buffer.overwrite(byte);
        }
    }

    /// The transmitter is ready for a byte (transmit interrupt): returns the
    /// next byte to send, or `None` when nothing is waiting, which also marks
    /// that no transmission is in flight.
    pub fn pop_byte(&mut self) -> (r: Option<u8>)
        ensures
            old(self).pending().len() == 0 ==> r == None::<u8> && !final(self).transmitting()
                && final(self).pending() == old(self).pending(),
            old(self).pending().len() > 0 ==> r == Some(old(self).pending()[0])
                && final(self).transmitting() && final(self).pending() == old(self).pending().drop_first(),
            final(self).notes() == old(self).notes(),
    {
        proof {
            use_type_invariant(&*self);
        }
        match self.buffer.read_byte() {
            Ok(byte) => {
                self.tx_filled = true;
                Some(byte)
            },
            Err(_) => {
                self.tx_filled = false;
                None
            },
        }
    }

    /// Queues one byte for sending, unless the buffer is full; the caller
    /// retries once the transmit interrupt has made room.
    pub fn put_byte(&mut self, byte: u8) -> (r: Result<(), UartBufferError>)
        ensures
            old(self).pending().len() == BUFFER_CAPACITY ==> r == Err::<(), UartBufferError>(
                UartBufferError::BufferFull,
            ) && final(self).pending() == old(self).pending(),
            old(self).pending().len() < BUFFER_CAPACITY ==> r == Ok::<(), UartBufferError>(())
                && final(self).pending() == old(self).pending().push(byte),
            final(self).transmitting() == old(self).transmitting(),
            final(self).notes() == old(self).notes(),
    {
        proof {
            use_type_invariant(&*self);
        }
        self.buffer.write_byte(byte)
    }

    /// Takes the oldest buffered byte, if any.
    pub fn get_byte(&mut self) -> (r: Option<u8>)
        ensures
            old(self).pending().len() == 0 ==> r == None::<u8> && final(self).pending() == old(self).pending(),
            old(self).pending().len() > 0 ==> r == Some(old(self).pending()[0]) && final(self).pending() == old(self).pending().drop_first(),
            final(self).transmitting() == old(self).transmitting(),
            final(self).notes() == old(self).notes(),
    {
        proof {
            use_type_invariant(&*self);
        }
        match self.buffer.read_byte() {
            Ok(byte) => Some(byte),
            Err(_) => None,
        }
    }

    /// Queues as many of `bytes` as fit, in order, and returns how many; the
    /// caller waits for the transmit interrupt to make room for the rest.
    /// When no transmission is in flight and bytes are queued, it starts one:
    /// the first queued byte is taken out and returned for the caller to hand
    /// to the transmitter, and the transmit-ready events then send the rest.
    pub fn put_bytes(&mut self, bytes: &[u8]) -> (r: (usize, Option<u8>))
        ensures
            r.0 == if bytes@.len() < BUFFER_CAPACITY - old(self).pending().len() {
                bytes@.len() as int
            } else {
                BUFFER_CAPACITY - old(self).pending().len()
            },
            ({
                let queued = old(self).pending() + bytes@.take(r.0 as int);
                &&& old(self).transmitting() || queued.len() == 0 ==> r.1 == None::<u8>
                    && final(self).pending() == queued && final(self).transmitting() == old(self).transmitting()
                &&& !old(self).transmitting() && queued.len() > 0 ==> r.1 == Some(queued[0])
                    && final(self).pending() == queued.drop_first() && final(self).transmitting()
            }),
            final(self).notes() == old(self).notes(),
    {
        proof {
            use_type_invariant(&*self);
            lemma_capacity_bound(self.buffer);
        }
        let mut i: usize = 0;
        let mut room = true;
        while room && i < bytes.len()
            invariant
                i <= bytes@.len(),
                self.pending() == old(self).pending() + bytes@.take(i as int),
                self.pending().len() <= BUFFER_CAPACITY,
                !room ==> self.pending().len() == BUFFER_CAPACITY,
                self.transmitting() == old(self).transmitting(),
                self.notes() == old(self).notes(),
            decreases bytes@.len() - i + if room { 1int } else { 0int },
        {
            match self.put_byte(bytes[i]) {
                Ok(()) => {
                    assert(bytes@.take(i + 1) =~= bytes@.take(i as int).push(bytes@[i as int]));
                    i = i + 1;
                },
                Err(_) => {
                    room = false;
                },
            }
            proof {
                lemma_capacity_bound(self.buffer);
            }
        }
        proof {
            use_type_invariant(&*self);
        }
        if self.tx_filled {
            return (i, None);
        }
        match self.buffer.read_byte() {
            Ok(byte) => {
                self.tx_filled = true;
                (i, Some(byte))
            },
            Err(_) => (i, None),
        }
    }

    /// Moves as many buffered bytes as fit into `bytes`, oldest first, and
    /// returns how many; 0 when none is waiting.
    pub fn get_bytes(&mut self, bytes: &mut [u8]) -> (n: usize)
        ensures
            n == if old(self).pending().len() < old(bytes)@.len() {
                old(self).pending().len() as int
            } else {
                old(bytes)@.len() as int
            },
            final(bytes)@ == old(self).pending().take(n as int) + old(bytes)@.skip(n as int),
            final(self).pending() == old(self).pending().skip(n as int),
            final(self).transmitting() == old(self).transmitting(),
            final(self).notes() == old(self).notes(),
    {
        let mut i: usize = 0;
        let mut more = true;
        while more && i < bytes.len()
            invariant
                i <= old(bytes)@.len(),
                i <= old(self).pending().len(),
                bytes@.len() == old(bytes)@.len(),
                bytes@ =~= old(self).pending().take(i as int) + old(bytes)@.skip(i as int),
                self.pending() == old(self).pending().skip(i as int),
                !more ==> i == old(self).pending().len(),
                self.transmitting() == old(self).transmitting(),
                self.notes() == old(self).notes(),
            decreases old(bytes)@.len() - i + if more { 1int } else { 0int },
        {
            match self.get_byte() {
                Some(byte) => {
                    bytes[i] = byte;
                    i = i + 1;
                },
                None => {
                    more = false;
                },
            }
        }
        i
    }

    /// Stores the first `len` bytes of `note` in the lowest free slot and
    /// returns its external id, the slot index plus one.
    pub fn save_note(&mut self, note: [u8; 20], len: u8) -> (r: Result<u8, StoreError>)
        requires
            len <= PAYLOAD_CAPACITY,
        ensures
            ({
                let (table, id) = saved(old(self).notes(), note@, len);
                &&& final(self).notes() == table
                &&& match id {
                    Some(id) => r == Ok::<u8, StoreError>(id),
                    None => r == Err::<u8, StoreError>(StoreError::StoreFull),
                }
            }),
            final(self).pending() == old(self).pending(),
            final(self).transmitting() == old(self).transmitting(),
    {
        proof {
            use_type_invariant(&*self);
        }
        let slots = slot_vec_as_slice(&self.notes);
        let mut i: usize = 0;
        while i < NOTE_SLOTS
            invariant
                i <= NOTE_SLOTS,
                slots@ == slots_of(self.notes),
                slots@.len() == NOTE_SLOTS,
                *self == *old(self),
                self.table_fits(),
                len <= PAYLOAD_CAPACITY,
                first_free_from(self.notes(), 0) == first_free_from(self.notes(), i as nat),
            decreases NOTE_SLOTS - i,
        {
            if slots[i].is_none() {
                slot_vec_set(&mut self.notes, i, Some((len, note)));
                assert(self.notes() =~= old(self).notes().update(i as int, Some((len, note@))));
                return Ok((i + 1) as u8);
            }
            i = i + 1;
        }
        Err(StoreError::StoreFull)
    }

    /// The stored length and payload of external id `id`, or a notice when
    /// there is no such note. The table is not changed.
    pub fn read_note(&self, id: u8) -> (r: (u8, [u8; 20], Function))
        ensures
            (r.0, r.1@, r.2) == read_reply(self.notes(), id),
            r.0 <= PAYLOAD_CAPACITY,
    {
        proof {
            use_type_invariant(self);
        }
        if id == 0 {
            let (payload, len) = Notice::DoesntExist.payload();
            return (len, payload, Function::ERROR);
        }
        let index = (id - 1) as usize;
        if index >= NOTE_SLOTS {
            let (payload, len) = Notice::OutOfRange.payload();
            return (len, payload, Function::ERROR);
        }
        let slots = slot_vec_as_slice(&self.notes);
        match slots[index] {
            Some((len, data)) => (len, data, Function::READ),
            None => {
                let (payload, len) = Notice::DoesntExist.payload();
                (len, payload, Function::ERROR)
            },
        }
    }

    /// Frees the slot of external id `id` and confirms it, or answers with a
    /// notice when there is no such note.
    pub fn delete_note(&mut self, id: u8) -> (r: (u8, [u8; 20], Function))
        ensures
            (final(self).notes(), (r.0, r.1@, r.2)) == deleted(old(self).notes(), id),
            r.0 <= PAYLOAD_CAPACITY,
            final(self).pending() == old(self).pending(),
            final(self).transmitting() == old(self).transmitting(),
    {
        proof {
            use_type_invariant(&*self);
        }
        if id == 0 {
            let (payload, len) = Notice::DoesntExist.payload();
            return (len, payload, Function::ERROR);
        }
        let index = (id - 1) as usize;
        if index >= NOTE_SLOTS {
            let (payload, len) = Notice::OutOfRange.payload();
            return (len, payload, Function::ERROR);
        }
        let slots = slot_vec_as_slice(&self.notes);
        if slots[index].is_none() {
            let (payload, len) = Notice::DoesntExist.payload();
            return (len, payload, Function::ERROR);
        }
        slot_vec_set(&mut self.notes, index, None);
        assert(self.notes() =~= old(self).notes().update(index as int, None));
        let (payload, len) = Notice::Deleted.payload();
        (len, payload, Function::DELETE)
    }
}

/// Every driver's note table has `NOTE_SLOTS` slots.
pub proof fn lemma_table_len(d: UartDriver)
    ensures
        d.notes().len() == NOTE_SLOTS,
{
}

/// External ids count slots from one: storing into an empty table gives id 1,
/// and storing into a table whose only note sits in the first slot gives id 2.
pub proof fn lemma_first_ids(note: Seq<u8>, len: u8, first: NoteView)
    ensures
        saved(Seq::new(NOTE_SLOTS as nat, |i: int| None::<NoteView>), note, len).1 == Some(1u8),
        saved(
            Seq::new(NOTE_SLOTS as nat, |i: int| if i == 0 { Some(first) } else { None::<NoteView> }),
            note,
            len,
        ).1 == Some(2u8),
{
    let one = Seq::new(NOTE_SLOTS as nat, |i: int| if i == 0 { Some(first) } else { None::<NoteView> });
    assert(first_free_from(one, 1) == Some(1nat));
    assert(first_free_from(one, 0) == Some(1nat));
}

/// Id 0 names no note: reading or deleting it answers "Doesn't exist" and
/// leaves the table as it is, whatever the table holds.
pub proof fn lemma_id_zero(notes: Seq<Option<NoteView>>)
    ensures
        read_reply(notes, 0) == notice_reply(Notice::DoesntExist, Function::ERROR),
        deleted(notes, 0) == (notes, notice_reply(Notice::DoesntExist, Function::ERROR)),
{
}

/// Reading an id right after deleting it answers "Doesn't exist".
pub proof fn lemma_read_after_delete(notes: Seq<Option<NoteView>>, id: u8)
    requires
        notes.len() == NOTE_SLOTS,
        id <= NOTE_SLOTS,
    ensures
        read_reply(deleted(notes, id).0, id) == notice_reply(Notice::DoesntExist, Function::ERROR),
{
}

} // verus!
