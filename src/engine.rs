use vstd::prelude::*;

use crate::data_format::{
    encode_frame, encoded, frame_error, holds_frame, Function, NewProtocol, FRAME_LEN,
};
use crate::fixed_vec::{frame_bytes_of, frame_vec_as_slice, frame_vec_clear, frame_vec_new, frame_vec_push};
use crate::uart_driver::{
    deleted, notice_reply, read_reply, saved, NoteView, Notice, UartDriver,
};

verus! {

/// Number of polls that a partial frame may wait for its next byte before it
/// is given up as lost.
pub const WAIT_LIMIT: u32 = 100;

/// The engine's state as the contracts see it: the bytes of the frame being
/// received, and how many polls have passed since a byte last arrived.
pub struct EngineView {
    pub received: Seq<u8>,
    pub waited: nat,
}

/// What one poll reads and changes in the driver: the buffered bytes and the
/// note table.
pub struct LinkView {
    pub pending: Seq<u8>,
    pub notes: Seq<Option<NoteView>>,
}

/// The outcome of one poll: the new states and the frame to send, if any.
pub struct PollView {
    pub engine: EngineView,
    pub link: LinkView,
    pub reply: Option<Seq<u8>>,
}

/// The engine with no frame under way.
pub open spec fn idle() -> EngineView {
    EngineView { received: Seq::empty(), waited: 0 }
}

/// The frame that answers with `reply` for external id `id`.
pub open spec fn answer_frame(reply: (u8, Seq<u8>, Function), id: u8) -> Seq<u8> {
    encoded(reply.2.spec_code(), id, reply.1, reply.0)
}

/// The error notification that carries notice `n`.
pub open spec fn notice_frame(n: Notice) -> Seq<u8> {
    answer_frame(notice_reply(n, Function::ERROR), 0)
}

/// Handling of the valid request frame `s`: the new note table and the answer.
/// ADD stores the payload, DELETE frees a slot, any other function reads.
pub open spec fn dispatched(notes: Seq<Option<NoteView>>, s: Seq<u8>) -> (
    Seq<Option<NoteView>>,
    Seq<u8>,
) {
    let function = s[2];
    let id = s[3];
    if function == Function::ADD.spec_code() {
        let (table, got) = saved(notes, s.subrange(5, 25), s[4]);
        match got {
            Some(new_id) => (table, answer_frame(notice_reply(Notice::Done, Function::ADD), new_id)),
            None => (table, answer_frame(notice_reply(Notice::NoSpace, Function::ADD), 0)),
        }
    } else if function == Function::DELETE.spec_code() {
        let (table, reply) = deleted(notes, id);
        (table, answer_frame(reply, id))
    } else {
        (notes, answer_frame(read_reply(notes, id), id))
    }
}

/// One poll of the foreground loop: take as many buffered bytes as the frame
/// under way has room for; with a whole frame, answer it (or reject it) and
/// start over; with part of one, wait, and give it up as lost once it has
/// waited `WAIT_LIMIT` polls without a new byte.
pub open spec fn polled(e: EngineView, link: LinkView) -> PollView {
    let room = FRAME_LEN - e.received.len();
    let k = if link.pending.len() < room {
        link.pending.len() as int
    } else {
        room
    };
    let received = e.received + link.pending.take(k);
    let pending = link.pending.skip(k);
    let waited = if k > 0 {
        0
    } else {
        e.waited
    };
    if received.len() < FRAME_LEN {
        if received.len() > 0 && waited == WAIT_LIMIT {
            PollView {
                engine: idle(),
                link: LinkView { pending, notes: link.notes },
                reply: Some(notice_frame(Notice::DataLoss)),
            }
        } else {
            PollView {
                engine: EngineView {
                    received,
                    waited: if received.len() > 0 {
                        waited + 1
                    } else {
                        0
                    },
                },
                link: LinkView { pending, notes: link.notes },
                reply: None,
            }
        }
    } else if frame_error(received) is Some {
        PollView {
            engine: idle(),
            link: LinkView { pending, notes: link.notes },
            reply: Some(notice_frame(Notice::MessageWrong)),
        }
    } else {
        let (notes, answer) = dispatched(link.notes, received);
        PollView { engine: idle(), link: LinkView { pending, notes }, reply: Some(answer) }
    }
}

/// The part of a driver that a poll reads and changes.
pub open spec fn link_of(d: UartDriver) -> LinkView {
    LinkView { pending: d.pending(), notes: d.notes() }
}

/// The foreground protocol loop: gathers bytes into frames, answers requests
/// from the note table, and reports malformed or lost frames.
pub struct ProtocolEngine {
    input: heapless::Vec<u8, 29>,
    wait_cycle: u32,
}

impl View for ProtocolEngine {
    type V = EngineView;

    closed spec fn view(&self) -> EngineView {
        EngineView { received: frame_bytes_of(self.input), waited: self.wait_cycle as nat }
    }
}

/// The error notification that carries notice `n`.
pub fn error_frame(n: Notice) -> (r: [u8; 29])
    ensures
        r@ == notice_frame(n),
{
    let (payload, len) = n.payload();
    encode_frame(Function::ERROR.code(), 0, &payload, len)
}

/// Answers the valid request `frame` from the note table.
fn dispatch(driver: &mut UartDriver, frame: &NewProtocol, s: Ghost<Seq<u8>>) -> (r: [u8; 29])
    requires
        holds_frame(*frame, s@),
        frame_error(s@) is None,
    ensures
        (final(driver).notes(), r@) == dispatched(old(driver).notes(), s@),
        final(driver).pending() == old(driver).pending(),
        final(driver).transmitting() == old(driver).transmitting(),
{
    if frame.function == Function::ADD.code() {
        match driver.save_note(frame.data, frame.data_len) {
            Ok(id) => {
                let (payload, len) = Notice::Done.payload();
                encode_frame(Function::ADD.code(), id, &payload, len)
            },
            Err(_) => {
                let (payload, len) = Notice::NoSpace.payload();
                encode_frame(Function::ADD.code(), 0, &payload, len)
            },
        }
    } else if frame.function == Function::DELETE.code() {
        let (len, data, function) = driver.delete_note(frame.id);
        encode_frame(function.code(), frame.id, &data, len)
    } else {
        let (len, data, function) = driver.read_note(frame.id);
        encode_frame(function.code(), frame.id, &data, len)
    }
}

impl ProtocolEngine {
    #[verifier::type_invariant]
    spec fn bounded(&self) -> bool {
        &&& frame_bytes_of(self.input).len() <= FRAME_LEN
        &&& self.wait_cycle <= WAIT_LIMIT
    }

    /// An engine with no frame under way.
    pub fn new() -> (r: Self)
        ensures
            r@ == idle(),
    {
        ProtocolEngine { input: frame_vec_new(), wait_cycle: 0 }
    }

    /// One pass of the foreground loop over `driver`; returns the frame to
    /// send, if any.
    pub fn poll(&mut self, driver: &mut UartDriver) -> (r: Option<[u8; 29]>)
        ensures
            final(self)@ == polled(old(self)@, link_of(*old(driver))).engine,
            link_of(*final(driver)) == polled(old(self)@, link_of(*old(driver))).link,
            final(driver).transmitting() == old(driver).transmitting(),
            match r {
                Some(frame) => polled(old(self)@, link_of(*old(driver))).reply == Some(frame@),
                None => polled(old(self)@, link_of(*old(driver))).reply is None,
            },
    {
        proof {
            use_type_invariant(&*self);
        }
        let ghost start = driver.pending();
        let ghost before = frame_bytes_of(self.input);
        let mut held = frame_vec_as_slice(&self.input).len();
        let initial = held;
        let mut more = true;
        while more && held < FRAME_LEN
            invariant
                initial == before.len() <= held <= FRAME_LEN,
                held == frame_bytes_of(self.input).len(),
                held - before.len() <= start.len(),
                frame_bytes_of(self.input) == before + start.take(held - before.len()),
                driver.pending() == start.skip(held - before.len()),
                !more ==> held - before.len() == start.len(),
                driver.notes() == old(driver).notes(),
                driver.transmitting() == old(driver).transmitting(),
                self.wait_cycle == old(self).wait_cycle,
                self.wait_cycle <= WAIT_LIMIT,
            decreases FRAME_LEN - held + if more { 1int } else { 0int },
        {
            match driver.get_byte() {
                Some(byte) => {
                    let _ = frame_vec_push(&mut self.input, byte);
                    proof {
                        let k = held - before.len();
                        assert(start.take(k + 1) =~= start.take(k).push(start[k]));
                        assert(start.skip(k).drop_first() =~= start.skip(k + 1));
                    }
                    held = held + 1;
                },
                None => {
                    more = false;
                },
            }
        }
        assert(held - before.len() == if start.len() < FRAME_LEN - before.len() {
            start.len() as int
        } else {
            FRAME_LEN - before.len()
        });
        if held > initial {
            self.wait_cycle = 0;
        }
        if held < FRAME_LEN {
            if held > 0 && self.wait_cycle == WAIT_LIMIT {
                frame_vec_clear(&mut self.input);
                self.wait_cycle = 0;
                return Some(error_frame(Notice::DataLoss));
            }
            if held > 0 {
                self.wait_cycle = self.wait_cycle + 1;
            } else {
                self.wait_cycle = 0;
            }
            return None;
        }
        let ghost s = frame_bytes_of(self.input);
        let decoded = NewProtocol::new_from_uart(frame_vec_as_slice(&self.input));
        frame_vec_clear(&mut self.input);
        self.wait_cycle = 0;
        match decoded {
            Ok(frame) => Some(dispatch(driver, &frame, Ghost(s))),
            Err(_) => Some(error_frame(Notice::MessageWrong)),
        }
    }
}

/// The answers of `n` polls in a row, and the states after them.
pub open spec fn polls(e: EngineView, link: LinkView, n: nat) -> (
    Seq<Option<Seq<u8>>>,
    EngineView,
    LinkView,
)
    decreases n,
{
    if n == 0 {
        (Seq::empty(), e, link)
    } else {
        let (replies, e1, link1) = polls(e, link, (n - 1) as nat);
        let out = polled(e1, link1);
        (replies.push(out.reply), out.engine, out.link)
    }
}

proof fn lemma_waiting_polls(received: Seq<u8>, notes: Seq<Option<NoteView>>, n: nat)
    requires
        0 < received.len() < FRAME_LEN,
        n < WAIT_LIMIT,
    ensures
        polls(
            EngineView { received, waited: 1 },
            LinkView { pending: Seq::empty(), notes },
            n,
        ).0 =~= Seq::new(n, |i: int| None::<Seq<u8>>),
        polls(
            EngineView { received, waited: 1 },
            LinkView { pending: Seq::empty(), notes },
            n,
        ).1 == (EngineView { received, waited: n + 1 }),
        polls(
            EngineView { received, waited: 1 },
            LinkView { pending: Seq::empty(), notes },
            n,
        ).2 == (LinkView { pending: Seq::<u8>::empty(), notes }),
    decreases n,
{
    if n > 0 {
        lemma_waiting_polls(received, notes, (n - 1) as nat);
        let link = LinkView { pending: Seq::<u8>::empty(), notes };
        let e = EngineView { received, waited: n };
        assert(received + link.pending.take(0) =~= received);
        assert(link.pending.skip(0) =~= link.pending);
        assert(polled(e, link).engine == (EngineView { received, waited: n + 1 }));
    }
}

/// A partial frame that gets no further byte is given up after `WAIT_LIMIT`
/// quiet polls: the poll that takes its bytes and the next `WAIT_LIMIT - 1`
/// answer nothing, the last one sends exactly one data-loss notification, and
/// the engine is back to no frame under way.
pub proof fn lemma_data_loss_timeout(partial: Seq<u8>, notes: Seq<Option<NoteView>>)
    requires
        0 < partial.len() < FRAME_LEN,
    ensures
        ({
            let first = polled(idle(), LinkView { pending: partial, notes });
            let (replies, e, link) = polls(first.engine, first.link, WAIT_LIMIT as nat);
            &&& first.reply is None
            &&& replies.len() == WAIT_LIMIT
            &&& forall|i: int| 0 <= i < WAIT_LIMIT - 1 ==> replies[i] is None
            &&& replies[WAIT_LIMIT - 1] == Some(notice_frame(Notice::DataLoss))
            &&& e == idle()
            &&& link == (LinkView { pending: Seq::<u8>::empty(), notes })
        }),
{
    let first = polled(idle(), LinkView { pending: partial, notes });
    assert(Seq::<u8>::empty() + partial.take(partial.len() as int) =~= partial);
    assert(partial.skip(partial.len() as int) =~= Seq::<u8>::empty());
    assert(first.engine == (EngineView { received: partial, waited: 1 }));
    lemma_waiting_polls(partial, notes, (WAIT_LIMIT - 1) as nat);
    let link = LinkView { pending: Seq::<u8>::empty(), notes };
    assert(partial + link.pending.take(0) =~= partial);
    assert(link.pending.skip(0) =~= link.pending);
}

} // verus!
