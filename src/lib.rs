//! A static symbol-table compressor for short byte strings: a table of up to
//! 254 learned symbols of one to eight bytes is trained on a corpus, then used
//! to encode strings into one-byte codes and escaped literals, and back.
pub mod counters;
pub mod heap;
pub mod lossy_pht;
pub mod sample;
pub mod symbol;
pub mod table;
