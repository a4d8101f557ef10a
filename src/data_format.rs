use vstd::prelude::*;

verus! {

/// Both bytes of the start marker.
pub const START_BYTE: u8 = 0x69;

/// Bytes in one frame: marker (2), function (1), id (1), length (1),
/// payload (20), checksum (4).
pub const FRAME_LEN: usize = 29;

/// Bytes in the payload region of a frame.
pub const PAYLOAD_CAPACITY: usize = 20;

/// Offset of the payload region in a frame.
pub const PAYLOAD_OFFSET: usize = 5;

/// Offset of the checksum in a frame.
pub const CHECKSUM_OFFSET: usize = 25;

/// Why a frame could not be encoded or decoded.
#[derive(Debug, Clone, Copy, PartialEq, Eq, Structural)]
pub enum UartError {
    /// Fewer bytes than one frame.
    NotEnoughBytes,
    /// A payload longer than the payload region.
    PayloadTooLarge,
    /// A wrong start marker, or a length beyond the payload region.
    MessageWrong,
    /// The checksum does not match the frame's contents.
    ChecksumWrong,
}

/// The function code of a frame.
#[derive(Debug, Clone, Copy, PartialEq, Eq, Structural)]
pub enum Function {
    ADD,
    READ,
    DELETE,
    ERROR,
}

impl Function {
    pub open spec fn spec_code(self) -> u8 {
        match self {
            Function::ADD => 1,
            Function::READ => 2,
            Function::DELETE => 3,
            Function::ERROR => 4,
        }
    }

    /// The byte that stands for this function on the wire.
    #[verifier::when_used_as_spec(spec_code)]
    pub fn code(self) -> (r: u8)
        ensures
            r == self.spec_code(),
    {
        match self {
            Function::ADD => 1,
            Function::READ => 2,
            Function::DELETE => 3,
            Function::ERROR => 4,
        }
    }
}

/// The fields of one frame, as they stand on the wire.
#[derive(Debug, Clone, Copy, PartialEq, Eq)]
pub struct NewProtocol {
    pub start_num: [u8; 2],
    pub function: u8,
    pub id: u8,
    pub data_len: u8,
    pub data: [u8; 20],
    pub check_sum: [u8; 4],
}

/// Sum of the bytes of `s`.
pub open spec fn sum_bytes(s: Seq<u8>) -> nat
    decreases s.len(),
{
    if s.len() == 0 {
        0
    } else {
        (sum_bytes(s.drop_last()) + s.last()) as nat
    }
}

/// What the checksum adds up: both marker bytes, the function, the id, the
/// length and the first `len` payload bytes.
pub open spec fn frame_sum(function: u8, id: u8, len: u8, data: Seq<u8>) -> nat {
    (START_BYTE + START_BYTE + function + id + len + sum_bytes(data.take(len as int))) as nat
}

/// The four checksum bytes of `sum`: the sum truncated to 32 bits, emitted low
/// byte first by masking the low byte and shifting right by 8.
pub open spec fn checksum_bytes(sum: nat) -> Seq<u8> {
    let x = (sum % 0x1_0000_0000) as u32;
    seq![
        (x & 0xff) as u8,
        ((x >> 8u32) & 0xff) as u8,
        ((x >> 16u32) & 0xff) as u8,
        ((x >> 24u32) & 0xff) as u8,
    ]
}

/// The payload region for a note of `len` bytes: its first `len` bytes, then
/// zeros.
pub open spec fn padded(note: Seq<u8>, len: u8) -> Seq<u8> {
    Seq::new(PAYLOAD_CAPACITY as nat, |i: int| if i < len { note[i] } else { 0u8 })
}

/// The bytes of a frame with the given fields.
pub open spec fn frame_layout(function: u8, id: u8, len: u8, data: Seq<u8>, check: Seq<u8>) -> Seq<
    u8,
> {
    seq![START_BYTE, START_BYTE, function, id, len] + data + check
}

/// The frame that carries the first `len` bytes of `note`.
pub open spec fn encoded(function: u8, id: u8, note: Seq<u8>, len: u8) -> Seq<u8> {
    let data = padded(note, len);
    frame_layout(function, id, len, data, checksum_bytes(frame_sum(function, id, len, data)))
}

/// Why the bytes `s` do not start with a valid frame, or `None` when they do.
pub open spec fn frame_error(s: Seq<u8>) -> Option<UartError> {
    if s.len() < FRAME_LEN {
        Some(UartError::NotEnoughBytes)
    } else if s[0] != START_BYTE || s[1] != START_BYTE {
        Some(UartError::MessageWrong)
    } else if s[4] > PAYLOAD_CAPACITY {
        Some(UartError::MessageWrong)
    } else if s.subrange(25, 29) != checksum_bytes(
        frame_sum(s[2], s[3], s[4], s.subrange(5, 25)),
    ) {
        Some(UartError::ChecksumWrong)
    } else {
        None
    }
}

/// `p` holds the fields of the frame at the start of `s`.
pub open spec fn holds_frame(p: NewProtocol, s: Seq<u8>) -> bool {
    &&& p.start_num@ == s.subrange(0, 2)
    &&& p.function == s[2]
    &&& p.id == s[3]
    &&& p.data_len == s[4]
    &&& p.data@ == s.subrange(5, 25)
    &&& p.check_sum@ == s.subrange(25, 29)
}

/// `s` with bit `bit` of byte `pos` inverted.
pub open spec fn flip_bit(s: Seq<u8>, pos: int, bit: u8) -> Seq<u8> {
    s.update(pos, s[pos] ^ (1u8 << bit))
}

proof fn lemma_sum_bytes_bound(s: Seq<u8>)
    ensures
        sum_bytes(s) <= 255 * s.len(),
    decreases s.len(),
{
    if s.len() > 0 {
        lemma_sum_bytes_bound(s.drop_last());
    }
}

proof fn lemma_sum_take_step(s: Seq<u8>, i: int)
    requires
        0 <= i < s.len(),
    ensures
        sum_bytes(s.take(i + 1)) == sum_bytes(s.take(i)) + s[i],
{
    assert(s.take(i + 1).drop_last() =~= s.take(i));
}

/// A longer prefix sums to at least as much, and to as much when the bytes
/// added are zeros.
proof fn lemma_sum_take_extend(s: Seq<u8>, a: int, b: int)
    requires
        0 <= a <= b <= s.len(),
    ensures
        sum_bytes(s.take(a)) <= sum_bytes(s.take(b)),
        (forall|i: int| a <= i < b ==> s[i] == 0) ==> sum_bytes(s.take(a)) == sum_bytes(
            s.take(b),
        ),
    decreases b - a,
{
    if a < b {
        lemma_sum_take_extend(s, a, b - 1);
        lemma_sum_take_step(s, b - 1);
    }
}

proof fn lemma_sum_update(s: Seq<u8>, i: int, v: u8)
    requires
        0 <= i < s.len(),
    ensures
        sum_bytes(s.update(i, v)) == sum_bytes(s) - s[i] + v,
    decreases s.len(),
{
    let t = s.update(i, v);
    if i == s.len() - 1 {
        assert(t.drop_last() =~= s.drop_last());
    } else {
        assert(t.drop_last() =~= s.drop_last().update(i, v));
        lemma_sum_update(s.drop_last(), i, v);
    }
}

proof fn lemma_frame_sum_bound(function: u8, id: u8, len: u8, data: Seq<u8>)
    requires
        len <= PAYLOAD_CAPACITY,
        data.len() == PAYLOAD_CAPACITY,
    ensures
        frame_sum(function, id, len, data) <= 6075,
{
    lemma_sum_bytes_bound(data.take(len as int));
}

/// Sums below 2^32 with equal checksum bytes are equal.
proof fn lemma_checksum_injective(a: nat, b: nat)
    requires
        a < 0x1_0000_0000,
        b < 0x1_0000_0000,
        checksum_bytes(a) == checksum_bytes(b),
    ensures
        a == b,
{
    let x = a as u32;
    let y = b as u32;
    assert(checksum_bytes(a)[0] == checksum_bytes(b)[0]);
    assert(checksum_bytes(a)[1] == checksum_bytes(b)[1]);
    assert(checksum_bytes(a)[2] == checksum_bytes(b)[2]);
    assert(checksum_bytes(a)[3] == checksum_bytes(b)[3]);
    assert(x == y) by (bit_vector)
        requires
            (x & 0xff) as u8 == (y & 0xff) as u8,
            ((x >> 8u32) & 0xff) as u8 == ((y >> 8u32) & 0xff) as u8,
            ((x >> 16u32) & 0xff) as u8 == ((y >> 16u32) & 0xff) as u8,
            ((x >> 24u32) & 0xff) as u8 == ((y >> 24u32) & 0xff) as u8,
    ;
}

/// Sum of the first `len` bytes of `data`.
fn payload_sum(data: &[u8; 20], len: u8) -> (r: u32)
    requires
        len <= PAYLOAD_CAPACITY,
    ensures
        r == sum_bytes(data@.take(len as int)),
        r <= 255 * len,
{
    let mut sum: u32 = 0;
    let mut i: usize = 0;
    while i < len as usize
        invariant
            i <= len <= PAYLOAD_CAPACITY,
            sum == sum_bytes(data@.take(i as int)),
            sum <= 255 * i,
        decreases len - i,
    {
        proof {
            lemma_sum_take_step(data@, i as int);
        }
        sum = sum + data[i] as u32;
        i = i + 1;
    }
    sum
}

/// The checksum bytes of `sum`, low byte first.
fn checksum_of(sum: u32) -> (r: [u8; 4])
    ensures
        r@ == checksum_bytes(sum as nat),
{
    let mut acc = sum;
    let b0 = (acc & 0xff) as u8;
    acc = acc >> 8;
    let b1 = (acc & 0xff) as u8;
    acc = acc >> 8;
    let b2 = (acc & 0xff) as u8;
    acc = acc >> 8;
    let b3 = (acc & 0xff) as u8;
    proof {
        assert((sum >> 8u32) >> 8u32 == sum >> 16u32) by (bit_vector);
        assert(((sum >> 8u32) >> 8u32) >> 8u32 == sum >> 24u32) by (bit_vector);
        assert((sum as nat % 0x1_0000_0000) as u32 == sum);
    }
    let r = [b0, b1, b2, b3];
    assert(r@ =~= checksum_bytes(sum as nat));
    r
}

/// The frame that carries the first `len` bytes of `note`, zero-padded.
pub fn encode_frame(function: u8, id: u8, note: &[u8; 20], len: u8) -> (r: [u8; 29])
    requires
        len <= PAYLOAD_CAPACITY,
    ensures
        r@ == encoded(function, id, note@, len),
{
    let mut data = [0u8; 20];
    let mut i: usize = 0;
    while i < len as usize
        invariant
            i <= len <= PAYLOAD_CAPACITY,
            data@ =~= Seq::new(
                PAYLOAD_CAPACITY as nat,
                |j: int| if j < i { note@[j] } else { 0u8 },
            ),
        decreases len - i,
    {
        data[i] = note[i];
        i = i + 1;
    }
    let ghost pad = padded(note@, len);
    assert(data@ =~= pad);
    let sum = START_BYTE as u32 + START_BYTE as u32 + function as u32 + id as u32 + len as u32
        + payload_sum(&data, len);
    let check = checksum_of(sum);
    let mut out = [0u8; 29];
    out[0] = START_BYTE;
    out[1] = START_BYTE;
    out[2] = function;
    out[3] = id;
    out[4] = len;
    let mut j: usize = 0;
    while j < PAYLOAD_CAPACITY
        invariant
            j <= PAYLOAD_CAPACITY,
            out@.len() == FRAME_LEN,
            out@.take(5) =~= seq![START_BYTE, START_BYTE, function, id, len],
            out@.subrange(5, 5 + j as int) =~= data@.take(j as int),
        decreases PAYLOAD_CAPACITY - j,
    {
        out[PAYLOAD_OFFSET + j] = data[j];
        assert(out@.take(5) =~= seq![START_BYTE, START_BYTE, function, id, len]);
        assert(out@.subrange(5, 5 + j + 1) =~= data@.take(j + 1));
        j = j + 1;
    }
    let mut k: usize = 0;
    while k < 4
        invariant
            k <= 4,
            out@.len() == FRAME_LEN,
            out@.take(5) =~= seq![START_BYTE, START_BYTE, function, id, len],
            out@.subrange(5, 25) =~= data@,
            out@.subrange(25, 25 + k as int) =~= check@.take(k as int),
        decreases 4 - k,
    {
        out[CHECKSUM_OFFSET + k] = check[k];
        assert(out@.take(5) =~= seq![START_BYTE, START_BYTE, function, id, len]);
        assert(out@.subrange(5, 25) =~= data@);
        assert(out@.subrange(25, 25 + k + 1) =~= check@.take(k + 1));
        k = k + 1;
    }
    assert(out@ =~= encoded(function, id, note@, len)) by {
        assert(out@ =~= out@.take(5) + out@.subrange(5, 25) + out@.subrange(25, 29));
    }
    out
}

impl NewProtocol {
    /// Writes into `dest` the frame that carries the first `data_len` bytes of
    /// `note`, with unused payload bytes zero. A `data_len` beyond the payload
    /// region is refused and `dest` is left as it was.
    pub fn new_to_uart(dest: &mut [u8], function: Function, note: [u8; 20], id: u8, data_len: u8) -> (r:
        Result<(), UartError>)
        requires
            old(dest)@.len() >= FRAME_LEN,
        ensures
            data_len > PAYLOAD_CAPACITY ==> r == Err::<(), UartError>(UartError::PayloadTooLarge)
                && final(dest)@ == old(dest)@,
            data_len <= PAYLOAD_CAPACITY ==> r == Ok::<(), UartError>(()) && final(dest)@ == encoded(
                function.spec_code(),
                id,
                note@,
                data_len,
            ) + old(dest)@.skip(29),
    {
        if data_len as usize > PAYLOAD_CAPACITY {
            return Err(UartError::PayloadTooLarge);
        }
        let frame = encode_frame(function.code(), id, &note, data_len);
        let mut i: usize = 0;
        while i < FRAME_LEN
            invariant
                i <= FRAME_LEN,
                old(dest)@.len() >= FRAME_LEN,
                dest@.len() == old(dest)@.len(),
                dest@ =~= frame@.take(i as int) + old(dest)@.skip(i as int),
            decreases FRAME_LEN - i,
        {
            dest[i] = frame[i];
            i = i + 1;
        }
        Ok(())
    }

    /// Reads the frame at the start of `input`. Bytes after the first frame
    /// are not looked at.
    pub fn new_from_uart(input: &[u8]) -> (r: Result<NewProtocol, UartError>)
        ensures
            match frame_error(input@) {
                Some(e) => r == Err::<NewProtocol, UartError>(e),
                None => r matches Ok(p) && holds_frame(p, input@),
            },
    {
        if input.len() < FRAME_LEN {
            return Err(UartError::NotEnoughBytes);
        }
        if input[0] != START_BYTE || input[1] != START_BYTE {
            return Err(UartError::MessageWrong);
        }
        let len = input[4];
        if len as usize > PAYLOAD_CAPACITY {
            return Err(UartError::MessageWrong);
        }
        let mut data = [0u8; 20];
        let mut i: usize = 0;
        while i < PAYLOAD_CAPACITY
            invariant
                i <= PAYLOAD_CAPACITY,
                input@.len() >= FRAME_LEN,
                data@.take(i as int) =~= input@.subrange(5, 5 + i as int),
            decreases PAYLOAD_CAPACITY - i,
        {
            data[i] = input[PAYLOAD_OFFSET + i];
            assert(data@.take(i + 1) =~= input@.subrange(5, 5 + i + 1));
            i = i + 1;
        }
        assert(data@ =~= input@.subrange(5, 25)) by {
            assert(data@.take(20) =~= data@);
        }
        let sum = START_BYTE as u32 + START_BYTE as u32 + input[2] as u32 + input[3] as u32
            + len as u32 + payload_sum(&data, len);
        let check = checksum_of(sum);
        if check[0] != input[25] || check[1] != input[26] || check[2] != input[27] || check[3]
            != input[28] {
            assert(check@[0] != input@.subrange(25, 29)[0] || check@[1] != input@.subrange(
                25,
                29,
            )[1] || check@[2] != input@.subrange(25, 29)[2] || check@[3] != input@.subrange(
                25,
                29,
            )[3]);
            return Err(UartError::ChecksumWrong);
        }
        assert(check@ =~= input@.subrange(25, 29));
        let start_num = [input[0], input[1]];
        assert(start_num@ =~= input@.subrange(0, 2));
        Ok(NewProtocol { start_num, function: input[2], id: input[3], data_len: len, data, check_sum: check })
    }
}

/// Decoding an encoded frame gives back its function, id, length and the
/// payload's first `len` bytes; the rest of the payload region is zero.
pub proof fn lemma_round_trip(function: Function, id: u8, note: Seq<u8>, len: u8)
    requires
        note.len() == PAYLOAD_CAPACITY,
        len <= PAYLOAD_CAPACITY,
    ensures
        frame_error(encoded(function.spec_code(), id, note, len)) == None::<UartError>,
        forall|p: NewProtocol| #[trigger]
            holds_frame(p, encoded(function.spec_code(), id, note, len)) ==> {
                &&& p.function == function.spec_code()
                &&& p.id == id
                &&& p.data_len == len
                &&& p.data@.take(len as int) == note.take(len as int)
                &&& forall|i: int| len <= i < PAYLOAD_CAPACITY ==> p.data@[i] == 0
            },
{
    let e = encoded(function.spec_code(), id, note, len);
    let data = padded(note, len);
    assert(e.subrange(5, 25) =~= data);
    assert(e.subrange(25, 29) =~= checksum_bytes(frame_sum(function.spec_code(), id, len, data)));
    assert(data.take(len as int) =~= note.take(len as int));
}

/// Inverting any one bit of the function, the id, the length (while it stays
/// within the payload region), a payload byte within the length, or a checksum
/// byte of an encoded frame makes decoding fail with a checksum error.
pub proof fn lemma_bit_flip_detected(function: Function, id: u8, note: Seq<u8>, len: u8, pos: int, bit: u8)
    requires
        note.len() == PAYLOAD_CAPACITY,
        len <= PAYLOAD_CAPACITY,
        bit < 8,
        (2 <= pos < 4) || (5 <= pos < 5 + len) || (25 <= pos < 29) || (pos == 4 && (len ^ (1u8
            << bit)) <= PAYLOAD_CAPACITY),
    ensures
        frame_error(flip_bit(encoded(function.spec_code(), id, note, len), pos, bit)) == Some(
            UartError::ChecksumWrong,
        ),
{
    let code = function.spec_code();
    let e = encoded(code, id, note, len);
    let data = padded(note, len);
    let s = frame_sum(code, id, len, data);
    let f = flip_bit(e, pos, bit);
    let x = e[pos];
    let y = x ^ (1u8 << bit);
    assert(y != x) by (bit_vector)
        requires
            y == x ^ (1u8 << bit),
            bit < 8,
    ;
    assert(e.subrange(5, 25) =~= data);
    assert(e.subrange(25, 29) =~= checksum_bytes(s));
    lemma_frame_sum_bound(code, id, len, data);
    if 25 <= pos < 29 {
        assert(f.subrange(5, 25) =~= data);
        assert(f.subrange(25, 29)[pos - 25] != checksum_bytes(s)[pos - 25]);
    } else {
        assert(f.subrange(25, 29) =~= checksum_bytes(s));
        let fd = f.subrange(5, 25);
        let s2 = frame_sum(f[2], f[3], f[4], fd);
        if pos < 4 {
            assert(fd =~= data);
        } else if pos == 4 {
            assert(fd =~= data);
            if y > len {
                lemma_sum_take_extend(data, len as int, y as int);
            } else {
                lemma_sum_take_extend(data, y as int, len as int);
            }
        } else {
            assert(fd =~= data.update(pos - 5, y));
            assert(fd.take(len as int) =~= data.take(len as int).update(pos - 5, y));
            lemma_sum_update(data.take(len as int), pos - 5, y);
        }
        assert(s2 != s);
        lemma_frame_sum_bound(f[2], f[3], f[4], fd);
        if checksum_bytes(s2) == checksum_bytes(s) {
            lemma_checksum_injective(s2, s);
        }
    }
}

/// No single inverted bit in the header, in a payload byte within the length,
/// or in the checksum of an encoded frame gets the frame accepted; an inverted
/// marker bit, or a length pushed beyond the payload region, is reported as a
/// wrong message.
pub proof fn lemma_bit_flip_rejected(function: Function, id: u8, note: Seq<u8>, len: u8, pos: int, bit: u8)
    requires
        note.len() == PAYLOAD_CAPACITY,
        len <= PAYLOAD_CAPACITY,
        bit < 8,
        (0 <= pos < 5 + len) || (25 <= pos < 29),
    ensures
        frame_error(flip_bit(encoded(function.spec_code(), id, note, len), pos, bit)) is Some,
        pos < 2 ==> frame_error(flip_bit(encoded(function.spec_code(), id, note, len), pos, bit))
            == Some(UartError::MessageWrong),
        pos == 4 && (len ^ (1u8 << bit)) > PAYLOAD_CAPACITY ==> frame_error(
            flip_bit(encoded(function.spec_code(), id, note, len), pos, bit),
        ) == Some(UartError::MessageWrong),
{
    let e = encoded(function.spec_code(), id, note, len);
    let x = e[pos];
    let y = x ^ (1u8 << bit);
    assert(y != x) by (bit_vector)
        requires
            y == x ^ (1u8 << bit),
            bit < 8,
    ;
    if 2 <= pos && !(pos == 4 && y > PAYLOAD_CAPACITY) {
        lemma_bit_flip_detected(function, id, note, len, pos, bit);
    }
}

/// Any strict prefix of a frame is reported as too short, never accepted and
/// never reported as another error.
pub proof fn lemma_prefix_not_enough(function: Function, id: u8, note: Seq<u8>, len: u8, n: int)
    requires
        0 <= n < FRAME_LEN,
    ensures
        frame_error(encoded(function.spec_code(), id, note, len).take(n)) == Some(
            UartError::NotEnoughBytes,
        ),
{
}

} // verus!
