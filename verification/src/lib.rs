//! Line-delimited JSON over byte sources: a forward line reader, a reverse
//! (tail-first) line reader that walks a source backward in fixed-size chunks,
//! bounded first-N / last-N windows, and per-line JSON decoding.
//!
//! The readers are written without I/O of their own. A reader over an in-memory
//! byte slice runs by itself; for any other source the reader says which bytes it
//! needs next and is handed them by its driver.

pub mod buf_reader;
pub mod jsonl_reader;
pub mod laws;
pub mod lines;
pub mod take_n;
pub mod text;
pub mod value;

pub use buf_reader::{ReadError, RevBufReader, Step, DEFAULT_BUF_SIZE};
pub use jsonl_reader::{Jsonl, JsonlReader};
pub use jsonl_reader::Jsonl as JsonlIterator;
pub use lines::Lines;
pub use take_n::{TakeNLines, TakeNLinesReverse};
pub use value::{decode_value, decode_values, DecodeError, JsonlValueDeserialize};
