use uart::buffer::UartBufferError;
use uart::data_format::Function;
use uart::uart_driver::{Notice, StoreError, UartDriver, NOTE_SLOTS};

fn padded(text: &[u8]) -> [u8; 20] {
    let mut out = [0u8; 20];
    out[..text.len()].copy_from_slice(text);
    out
}

fn note(text: &[u8]) -> ([u8; 20], u8) {
    (padded(text), text.len() as u8)
}

#[test]
fn notice_payloads() {
    assert_eq!(Notice::Done.payload(), (padded(b"Done"), 4));
    assert_eq!(Notice::DoesntExist.payload(), (padded(b"Doesn't exist"), 13));
    assert_eq!(Notice::NoSpace.payload(), (padded(b"Failed, no space"), 16));
    assert_eq!(Notice::OutOfRange.payload(), (padded(b"Out of range"), 12));
    assert_eq!(Notice::Deleted.payload(), (padded(b"Deleted"), 7));
    assert_eq!(Notice::DataLoss.payload(), (padded(b"Data loss!!"), 11));
    assert_eq!(Notice::MessageWrong.payload(), (padded(b"Message wrong!!"), 15));
    assert_eq!(Notice::Deleted.text(), "Deleted");
}

#[test]
fn first_add_gets_id_one() {
    let mut driver = UartDriver::new();
    let (data, len) = note(b"first");
    assert_eq!(driver.save_note(data, len), Ok(1));
}

#[test]
fn add_after_slot_zero_gets_id_two() {
    let mut driver = UartDriver::new();
    let (data, len) = note(b"a");
    assert_eq!(driver.save_note(data, len), Ok(1));
    assert_eq!(driver.save_note(data, len), Ok(2));
}

#[test]
fn add_reuses_lowest_free_slot() {
    let mut driver = UartDriver::new();
    let (data, len) = note(b"n");
    for id in 1..=4u8 {
        assert_eq!(driver.save_note(data, len), Ok(id));
    }
    driver.delete_note(2);
    assert_eq!(driver.save_note(data, len), Ok(2));
    assert_eq!(driver.save_note(data, len), Ok(5));
}

#[test]
fn store_full_after_all_slots() {
    let mut driver = UartDriver::new();
    let (data, len) = note(b"x");
    for id in 1..=NOTE_SLOTS as u8 {
        assert_eq!(driver.save_note(data, len), Ok(id));
    }
    assert_eq!(driver.save_note(data, len), Err(StoreError::StoreFull));
    assert_eq!(driver.read_note(20), (1, padded(b"x"), Function::READ));
}

#[test]
fn read_returns_stored_note_unchanged() {
    let mut driver = UartDriver::new();
    let mut data = [0u8; 20];
    data[..5].copy_from_slice(b"hello");
    data[19] = 0x7f;
    assert_eq!(driver.save_note(data, 5), Ok(1));
    assert_eq!(driver.read_note(1), (5, data, Function::READ));
    assert_eq!(driver.read_note(1), (5, data, Function::READ));
}

#[test]
fn id_zero_does_not_exist() {
    let mut driver = UartDriver::new();
    let (data, len) = note(b"kept");
    driver.save_note(data, len).unwrap();
    let missing = (13, padded(b"Doesn't exist"), Function::ERROR);
    assert_eq!(driver.read_note(0), missing);
    assert_eq!(driver.delete_note(0), missing);
    assert_eq!(driver.read_note(1), (4, padded(b"kept"), Function::READ));
}

#[test]
fn ids_beyond_table_are_out_of_range() {
    let mut driver = UartDriver::new();
    let out_of_range = (12, padded(b"Out of range"), Function::ERROR);
    assert_eq!(driver.read_note(21), out_of_range);
    assert_eq!(driver.delete_note(255), out_of_range);
}

#[test]
fn empty_slot_does_not_exist() {
    let mut driver = UartDriver::new();
    let missing = (13, padded(b"Doesn't exist"), Function::ERROR);
    assert_eq!(driver.read_note(3), missing);
    assert_eq!(driver.delete_note(20), missing);
}

#[test]
fn delete_then_read_does_not_exist() {
    let mut driver = UartDriver::new();
    let (data, len) = note(b"gone");
    assert_eq!(driver.save_note(data, len), Ok(1));
    assert_eq!(driver.delete_note(1), (7, padded(b"Deleted"), Function::DELETE));
    let missing = (13, padded(b"Doesn't exist"), Function::ERROR);
    assert_eq!(driver.read_note(1), missing);
    assert_eq!(driver.delete_note(1), missing);
}

#[test]
fn received_bytes_are_read_in_order() {
    let mut driver = UartDriver::new();
    driver.push_byte(10);
    driver.push_byte(11);
    assert_eq!(driver.get_byte(), Some(10));
    assert_eq!(driver.get_byte(), Some(11));
    assert_eq!(driver.get_byte(), None);
}

#[test]
fn push_byte_overwrites_when_full() {
    let mut driver = UartDriver::new();
    for i in 0..300u32 {
        driver.push_byte((i % 256) as u8);
    }
    let mut buf = [0u8; 300];
    assert_eq!(driver.get_bytes(&mut buf), 256);
    for i in 0..256usize {
        assert_eq!(buf[i], ((i + 44) % 256) as u8);
    }
}

#[test]
fn get_bytes_stops_at_buffer_end() {
    let mut driver = UartDriver::new();
    for b in 1..=5u8 {
        driver.push_byte(b);
    }
    let mut buf = [0u8; 3];
    assert_eq!(driver.get_bytes(&mut buf), 3);
    assert_eq!(buf, [1, 2, 3]);
    let mut rest = [9u8; 8];
    assert_eq!(driver.get_bytes(&mut rest), 2);
    assert_eq!(rest, [4, 5, 9, 9, 9, 9, 9, 9]);
    assert_eq!(driver.get_bytes(&mut rest), 0);
    let mut none: [u8; 0] = [];
    driver.push_byte(6);
    assert_eq!(driver.get_bytes(&mut none), 0);
    assert_eq!(driver.get_byte(), Some(6));
}

#[test]
fn put_bytes_queues_what_fits() {
    let mut driver = UartDriver::new();
    let data = [7u8; 200];
    assert_eq!(driver.put_bytes(&data), (200, Some(7)));
    assert_eq!(driver.put_bytes(&data), (57, None));
    assert_eq!(driver.put_byte(1), Err(UartBufferError::BufferFull));
    assert_eq!(driver.get_byte(), Some(7));
    assert_eq!(driver.put_byte(1), Ok(()));
}

#[test]
fn put_bytes_starts_transmission_once() {
    let mut driver = UartDriver::new();
    assert_eq!(driver.put_bytes(&[]), (0, None));
    assert_eq!(driver.put_bytes(&[1, 2, 3]), (3, Some(1)));
    assert_eq!(driver.put_bytes(&[4]), (1, None));
    assert_eq!(driver.pop_byte(), Some(2));
    assert_eq!(driver.pop_byte(), Some(3));
    assert_eq!(driver.pop_byte(), Some(4));
    assert_eq!(driver.pop_byte(), None);
    assert_eq!(driver.put_bytes(&[5, 6]), (2, Some(5)));
    assert_eq!(driver.get_byte(), Some(6));
}
