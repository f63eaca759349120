//! LEB128 (little-endian base 128) encoding and decoding of fixed-width
//! integers, verified against a mathematical model of the wire format.
//!
//! Every value is written as a run of 7-bit groups, least significant group
//! first; bit 7 of each byte is set on every group but the last. Signed values
//! use two's complement, and the top payload bit of the last group carries
//! the sign.
use vstd::prelude::*;

pub mod error;
pub mod laws;
pub mod reader;
pub mod spec;
pub mod writer;

pub use error::Error;
pub use reader::Reader;
pub use writer::Writer;
use spec::Decoded;

verus! {

/// The LEB128 format, for reading and writing any integer type that has a
/// `Reader` or `Writer` implementation.
pub struct Leb128;

impl Leb128 {
    /// The LEB128 encoding of `value`.
    pub fn encode<T: Writer>(value: T) -> (r: Vec<u8>)
        ensures
            r@ == value.leb128_encoding(),
    {
        let mut out: Vec<u8> = Vec::new();
        value.leb128_write(&mut out);
        proof {
            assert(out@ =~= Seq::<u8>::empty() + value.leb128_encoding());
        }
        out
    }

    /// Decodes an integer from the start of `input`, ignoring any bytes after
    /// its last group.
    pub fn decode<T: Reader>(input: &[u8]) -> (r: Result<T, Error>)
        ensures
            match r {
                Ok(v) => T::leb128_decoding(input@) matches Decoded::Value(x, _) && x == v.integer(),
                Err(Error::IoError(_)) => T::leb128_decoding(input@) is Short,
                Err(Error::Overflow) => T::leb128_decoding(input@) is TooLarge,
            },
    {
        match T::leb128_read(input) {
            Ok((v, _)) => Ok(v),
            Err(e) => Err(e),
        }
    }
}

} // verus!
