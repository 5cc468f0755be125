//! The state of a rebuilding step as a mathematical value: how far the
//! input has been read, what the page writer holds, and the first error.
//! The rules of the format are stated as functions from one such state to
//! the next.

use vstd::prelude::*;
use crate::bit_stream::read_uint;
use crate::errors::ParseError;
use crate::model::{bits_of, OggModel};

verus! {

/// How far a rebuilding step has come.
pub struct Progress {
    /// The number of bits consumed from the input.
    pub pos: nat,
    /// The state of the page writer.
    pub out: OggModel,
    /// The first error, after which nothing is read or written.
    pub err: Option<ParseError>,
}

impl Progress {
    /// The state before anything was done on an input read up to bit
    /// `pos`, with the writer in the state `out`.
    pub open spec fn start(pos: nat, out: OggModel) -> Progress {
        Progress { pos, out, err: None }
    }

    /// The number spelled by the next `width` bits of `data`.
    pub open spec fn peek(self, data: Seq<u8>, width: nat) -> u32 {
        read_uint(data, self.pos as int, width) as u32
    }

    /// Consumes `width` bits. If `data` has fewer left, all of them are
    /// consumed and the input counts as ended.
    pub open spec fn take(self, data: Seq<u8>, width: nat) -> Progress {
        if self.err.is_some() {
            self
        } else if self.pos + width > 8 * data.len() {
            Progress { pos: 8 * data.len(), err: Some(ParseError::EndOfInput), ..self }
        } else {
            Progress { pos: self.pos + width, ..self }
        }
    }

    /// Writes the low `width` bits of `value`, bit by bit.
    pub open spec fn emit(self, value: u32, width: nat) -> Progress {
        if self.err.is_some() {
            self
        } else {
            Progress {
                out: self.out.put_bits(bits_of(value, width)),
                err: if self.out.bits_fit(width) {
                    None
                } else {
                    Some(ParseError::BufferExhausted)
                },
                ..self
            }
        }
    }

    /// Writes the low `width` bits of `value` through the writer's
    /// `write_bits`, which takes whole bytes a byte at a time.
    pub open spec fn write(self, value: u32, width: nat) -> Progress {
        if self.err.is_some() {
            self
        } else {
            Progress {
                out: self.out.write_bits(value, width),
                err: if self.out.write_fits(width) {
                    None
                } else {
                    Some(ParseError::BufferExhausted)
                },
                ..self
            }
        }
    }

    /// Writes whole bytes behind the payload.
    pub open spec fn write_all(self, bytes: Seq<u8>) -> Progress {
        if self.err.is_some() {
            self
        } else {
            Progress {
                out: self.out.put_bytes(bytes),
                err: if self.out.bytes_fit(bytes.len()) {
                    None
                } else {
                    Some(ParseError::BufferExhausted)
                },
                ..self
            }
        }
    }

    /// Flushes the page.
    pub open spec fn flush(self, next_continued: bool, last: bool) -> Progress {
        if self.err.is_some() {
            self
        } else {
            Progress {
                out: self.out.flush_page(next_continued, last),
                err: if self.out.flush_fits() {
                    None
                } else {
                    Some(ParseError::BufferExhausted)
                },
                ..self
            }
        }
    }

    /// Reads a field of `width` bits and writes it unchanged.
    pub open spec fn copy(self, data: Seq<u8>, width: nat) -> Progress {
        self.take(data, width).emit(self.peek(data, width), width)
    }

    /// Stops with the error `e`.
    pub open spec fn fail(self, e: ParseError) -> Progress {
        if self.err.is_some() {
            self
        } else {
            Progress { err: Some(e), ..self }
        }
    }

    /// Stops with the error `e` unless `cond` holds.
    pub open spec fn require(self, cond: bool, e: ParseError) -> Progress {
        if cond {
            self
        } else {
            self.fail(e)
        }
    }

    /// Whether a step that returned `r`, with the input read up to bit
    /// `pos` and the writer in the state `out`, ended in this state.
    pub open spec fn matches<T>(self, r: Result<T, ParseError>, pos: nat, out: OggModel) -> bool {
        &&& self.pos == pos
        &&& self.out == out
        &&& match r {
            Ok(_) => self.err.is_none(),
            Err(e) => self.err == Some(e),
        }
    }
}

/// `count` fields of `width` bits each, read and written unchanged.
pub open spec fn copy_fields(data: Seq<u8>, p: Progress, width: nat, count: nat) -> Progress
    decreases count,
{
    if count == 0 || p.err.is_some() {
        p
    } else {
        let q = p.copy(data, width);
        if q.err.is_some() {
            q
        } else {
            copy_fields(data, q, width, (count - 1) as nat)
        }
    }
}

} // verus!
