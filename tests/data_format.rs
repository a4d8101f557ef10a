use uart::data_format::{encode_frame, Function, NewProtocol, UartError, FRAME_LEN};

fn note_of(text: &[u8]) -> [u8; 20] {
    let mut note = [0u8; 20];
    note[..text.len()].copy_from_slice(text);
    note
}

fn encode(function: Function, id: u8, note: [u8; 20], len: u8) -> [u8; 29] {
    let mut dest = [0u8; 29];
    NewProtocol::new_to_uart(&mut dest, function, note, id, len).unwrap();
    dest
}

#[test]
fn encodes_exact_bytes() {
    let frame = encode(Function::ADD, 1, note_of(b"hello"), 5);
    let mut expected = vec![0x69u8, 0x69, 1, 1, 5];
    expected.extend_from_slice(b"hello");
    expected.extend_from_slice(&[0u8; 15]);
    // 0x69 + 0x69 + 1 + 1 + 5 + 532 = 749 = 0x02ed, low byte first
    expected.extend_from_slice(&[0xed, 0x02, 0x00, 0x00]);
    assert_eq!(frame.to_vec(), expected);
}

#[test]
fn function_codes() {
    assert_eq!(Function::ADD.code(), 1);
    assert_eq!(Function::READ.code(), 2);
    assert_eq!(Function::DELETE.code(), 3);
    assert_eq!(Function::ERROR.code(), 4);
}

#[test]
fn encode_zeroes_unused_payload() {
    let note = [0xaau8; 20];
    let frame = encode(Function::READ, 7, note, 3);
    assert_eq!(&frame[5..8], &[0xaa, 0xaa, 0xaa]);
    assert!(frame[8..25].iter().all(|b| *b == 0));
    assert_eq!(frame, encode_frame(2, 7, &note, 3));
}

#[test]
fn encode_rejects_long_payload() {
    let mut dest = [0x11u8; 29];
    assert_eq!(
        NewProtocol::new_to_uart(&mut dest, Function::ADD, [1u8; 20], 0, 21),
        Err(UartError::PayloadTooLarge)
    );
    assert_eq!(dest, [0x11u8; 29]);
}

#[test]
fn encode_leaves_bytes_past_frame() {
    let mut dest = [0x33u8; 40];
    NewProtocol::new_to_uart(&mut dest, Function::DELETE, [0u8; 20], 2, 0).unwrap();
    assert_eq!(&dest[29..], &[0x33u8; 11]);
    assert_eq!(&dest[..5], &[0x69, 0x69, 3, 2, 0]);
}

#[test]
fn checksum_is_truncated_little_endian_sum() {
    let frame = encode(Function::DELETE, 0xff, [0xffu8; 20], 20);
    // 0x69 + 0x69 + 3 + 255 + 20 + 20 * 255 = 5588 = 0x15d4
    assert_eq!(&frame[25..], &[0xd4, 0x15, 0x00, 0x00]);
}

#[test]
fn round_trip_recovers_fields() {
    for (function, code) in [
        (Function::ADD, 1u8),
        (Function::READ, 2),
        (Function::DELETE, 3),
        (Function::ERROR, 4),
    ] {
        for len in 0..=20u8 {
            let mut note = [0u8; 20];
            for (i, b) in note.iter_mut().enumerate() {
                *b = (i as u8).wrapping_mul(37).wrapping_add(len);
            }
            let frame = encode(function, len + 3, note, len);
            let decoded = NewProtocol::new_from_uart(&frame).unwrap();
            assert_eq!(decoded.function, code);
            assert_eq!(decoded.id, len + 3);
            assert_eq!(decoded.data_len, len);
            assert_eq!(&decoded.data[..len as usize], &note[..len as usize]);
            assert!(decoded.data[len as usize..].iter().all(|b| *b == 0));
            assert_eq!(decoded.start_num, [0x69, 0x69]);
            assert_eq!(&decoded.check_sum[..], &frame[25..]);
        }
    }
}

#[test]
fn single_bit_flips_fail_checksum() {
    let frame = encode(Function::ADD, 9, note_of(b"abcdefgh"), 8);
    let mut positions: Vec<usize> = vec![2, 3];
    positions.extend(5..13);
    positions.extend(25..29);
    for pos in positions {
        for bit in 0..8 {
            let mut flipped = frame;
            flipped[pos] ^= 1 << bit;
            assert_eq!(
                NewProtocol::new_from_uart(&flipped),
                Err(UartError::ChecksumWrong),
                "byte {pos} bit {bit}"
            );
        }
    }
}

#[test]
fn length_bit_flips_are_rejected() {
    let frame = encode(Function::ADD, 9, note_of(b"abcdefgh"), 8);
    for bit in 0..8 {
        let mut flipped = frame;
        flipped[4] ^= 1 << bit;
        let expected = if flipped[4] <= 20 {
            UartError::ChecksumWrong
        } else {
            UartError::MessageWrong
        };
        assert_eq!(NewProtocol::new_from_uart(&flipped), Err(expected));
    }
}

#[test]
fn marker_bit_flips_are_message_wrong() {
    let frame = encode(Function::READ, 1, [0u8; 20], 0);
    for pos in 0..2 {
        for bit in 0..8 {
            let mut flipped = frame;
            flipped[pos] ^= 1 << bit;
            assert_eq!(NewProtocol::new_from_uart(&flipped), Err(UartError::MessageWrong));
        }
    }
}

#[test]
fn strict_prefixes_need_more_bytes() {
    let frame = encode(Function::ADD, 4, note_of(b"prefix"), 6);
    for n in 0..FRAME_LEN {
        assert_eq!(NewProtocol::new_from_uart(&frame[..n]), Err(UartError::NotEnoughBytes));
    }
    assert!(NewProtocol::new_from_uart(&frame).is_ok());
}

#[test]
fn length_beyond_payload_is_message_wrong() {
    let mut frame = encode(Function::ADD, 4, [0u8; 20], 0);
    frame[4] = 21;
    assert_eq!(NewProtocol::new_from_uart(&frame), Err(UartError::MessageWrong));
}

#[test]
fn decode_ignores_trailing_bytes() {
    let frame = encode(Function::READ, 6, note_of(b"xy"), 2);
    let mut longer = frame.to_vec();
    longer.extend_from_slice(&[0xde, 0xad]);
    let decoded = NewProtocol::new_from_uart(&longer).unwrap();
    assert_eq!(decoded.id, 6);
    assert_eq!(&decoded.data[..2], b"xy");
}

#[test]
fn all_zero_frame_is_message_wrong() {
    assert_eq!(NewProtocol::new_from_uart(&[0u8; 29]), Err(UartError::MessageWrong));
}
