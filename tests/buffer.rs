use uart::buffer::{UartBuffer, UartBufferError, BUFFER_CAPACITY};

#[test]
fn test_write_byte() {
    let mut buffer = UartBuffer::new();
    buffer.write_byte(0x42).unwrap();
    assert_eq!(buffer.read_byte().unwrap(), 0x42);
}

#[test]
fn new_buffer_is_empty_not_full() {
    let mut buffer = UartBuffer::new();
    assert!(buffer.is_empty());
    assert!(!buffer.is_full());
    assert_eq!(buffer.read_byte(), Err(UartBufferError::BufferEmpty));
}

#[test]
fn bytes_leave_in_arrival_order() {
    let mut buffer = UartBuffer::new();
    for b in [1u8, 2, 3, 4] {
        buffer.write_byte(b).unwrap();
    }
    assert_eq!(buffer.read_byte(), Ok(1));
    assert_eq!(buffer.read_byte(), Ok(2));
    buffer.write_byte(5).unwrap();
    assert_eq!(buffer.read_byte(), Ok(3));
    assert_eq!(buffer.read_byte(), Ok(4));
    assert_eq!(buffer.read_byte(), Ok(5));
    assert_eq!(buffer.read_byte(), Err(UartBufferError::BufferEmpty));
}

#[test]
fn holds_exactly_capacity_bytes() {
    let mut buffer = UartBuffer::new();
    for i in 0..BUFFER_CAPACITY {
        assert!(!buffer.is_full());
        assert_eq!(buffer.write_byte(i as u8), Ok(()));
        assert!(!buffer.is_empty());
    }
    assert_eq!(BUFFER_CAPACITY, 256);
    assert!(buffer.is_full());
    assert!(!buffer.is_empty());
    assert_eq!(buffer.write_byte(0xff), Err(UartBufferError::BufferFull));
    for i in 0..BUFFER_CAPACITY {
        assert_eq!(buffer.read_byte(), Ok(i as u8));
    }
    assert!(buffer.is_empty());
}

#[test]
fn full_and_empty_never_together() {
    let mut buffer = UartBuffer::new();
    for round in 0..700usize {
        if round % 3 == 2 {
            let _ = buffer.read_byte();
        } else {
            let _ = buffer.write_byte(round as u8);
        }
        assert!(!(buffer.is_full() && buffer.is_empty()));
    }
}

#[test]
fn wraps_around_the_slots() {
    let mut buffer = UartBuffer::new();
    for i in 0..1000u32 {
        buffer.write_byte((i % 251) as u8).unwrap();
        buffer.write_byte((i % 13) as u8).unwrap();
        assert_eq!(buffer.read_byte(), Ok((i % 251) as u8));
        assert_eq!(buffer.read_byte(), Ok((i % 13) as u8));
    }
    assert!(buffer.is_empty());
}

#[test]
fn overwrite_evicts_oldest_when_full() {
    let mut buffer = UartBuffer::new();
    for i in 0..=BUFFER_CAPACITY {
        buffer.overwrite(i as u8);
    }
    assert!(buffer.is_full());
    for i in 1..=BUFFER_CAPACITY {
        assert_eq!(buffer.read_byte(), Ok(i as u8));
    }
    assert!(buffer.is_empty());
}

#[test]
fn overwrite_appends_when_not_full() {
    let mut buffer = UartBuffer::new();
    buffer.write_byte(9).unwrap();
    buffer.overwrite(10);
    assert_eq!(buffer.read_byte(), Ok(9));
    assert_eq!(buffer.read_byte(), Ok(10));
    assert_eq!(buffer.read_byte(), Err(UartBufferError::BufferEmpty));
}

#[test]
fn clear_drops_everything() {
    let mut buffer = UartBuffer::new();
    for b in 0..10u8 {
        buffer.write_byte(b).unwrap();
    }
    buffer.clear();
    assert!(buffer.is_empty());
    assert_eq!(buffer.read_byte(), Err(UartBufferError::BufferEmpty));
    buffer.write_byte(7).unwrap();
    assert_eq!(buffer.read_byte(), Ok(7));
}

#[test]
fn tick_start_discards_oldest() {
    let mut buffer = UartBuffer::new();
    buffer.write_byte(1).unwrap();
    buffer.write_byte(2).unwrap();
    buffer.tick_start();
    assert_eq!(buffer.read_byte(), Ok(2));
    assert!(buffer.is_empty());
}

#[test]
fn tick_end_appends_stored_slot() {
    let mut buffer = UartBuffer::new();
    buffer.write_byte(5).unwrap();
    assert_eq!(buffer.read_byte(), Ok(5));
    buffer.clear();
    buffer.tick_end();
    assert_eq!(buffer.read_byte(), Ok(5));
    assert!(buffer.is_empty());
}
