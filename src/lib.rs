//! The note-store device behind a UART: a ring buffer shared by the interrupt
//! handlers and the foreground loop, a checksummed fixed-size frame format, a
//! fixed table of notes, and the protocol loop that answers ADD, READ and
//! DELETE requests with frames of its own.
pub mod buffer;
pub mod data_format;
pub mod engine;
pub mod fixed_vec;
pub mod once_cell;
pub mod uart_driver;
