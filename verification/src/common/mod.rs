//! Building blocks shared by every codec: bit fields, the byte cursor, the
//! error type and the two codec traits.

use vstd::prelude::*;

pub mod bits;
pub mod dns_reader;

pub use self::dns_reader::DnsReader;

verus! {

/// Why a message could not be decoded.
#[derive(Debug, Clone, Copy, PartialEq, Eq)]
pub enum ParseError {
    /// A read of `n` bytes at `cur_pos` would run past the end of a buffer of
    /// `buf_length` bytes.
    BufOverflow { cur_pos: usize, n: usize, buf_length: usize },
    /// A record type or class whose wire value is outside the supported set.
    UnsupportedRecord { value: u16 },
    /// The bytes of a name segment are not valid UTF-8 text.
    MalformedText,
    /// A chain of compression pointers is longer than any chain without a
    /// cycle can be in its buffer.
    PointerLoop,
}

/// The result of decoding at some place of a buffer: what came out, and where
/// the cursor is left.
pub struct Parsed<V> {
    pub outcome: Result<V, ParseError>,
    pub next: int,
}

/// Types with a wire form.
pub trait AsBytes {
    /// Whether the value has a wire form at all.
    spec fn encodable(&self) -> bool;

    /// The wire form of the value.
    spec fn wire(&self) -> Seq<u8>;

    /// Encodes the value.
    fn as_bytes(&self) -> (bytes: Vec<u8>)
        requires
            self.encodable(),
        ensures
            bytes@ == self.wire(),
    ;
}

/// Types that can be decoded from a buffer through a cursor.
pub trait Parse: Sized + View {
    /// What decoding at `pos` of `buf` yields, as the model of the value, and
    /// where it leaves the cursor.
    spec fn parsed(buf: Seq<u8>, pos: int) -> Parsed<<Self as View>::V>;

    /// Decodes one value at the cursor and moves the cursor.
    fn parse(reader: &mut DnsReader) -> (r: Result<Self, ParseError>)
        ensures
            final(reader).buf@ == old(reader).buf@,
            final(reader).cur_pos as int == Self::parsed(
                old(reader).buf@,
                old(reader).cur_pos as int,
            ).next,
            match Self::parsed(old(reader).buf@, old(reader).cur_pos as int).outcome {
                Ok(v) => r is Ok && r->Ok_0@ == v,
                Err(e) => r is Err && r->Err_0 == e,
            },
    ;
}

} // verus!
