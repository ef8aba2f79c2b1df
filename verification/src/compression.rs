use vstd::prelude::*;
use crate::error::Error;

verus! {

/// The codec that the bytes of a page were compressed with.
#[derive(Debug, Clone, Copy, PartialEq, Eq, Structural)]
pub enum Compression {
    Uncompressed,
    Snappy,
    Gzip,
    Lzo,
    Brotli,
    Lz4,
    Zstd,
    Lz4Raw,
}

/// A provider of codecs. The library never decompresses by itself: it hands
/// compressed bytes to an implementation of this trait and checks the length
/// of what comes back.
///
/// What is proved of the functions that call a codec holds of the
/// implementations that keep to the contract of [`Decompress::decompress`]:
/// the outcome is a function of the codec, the codec's name, the compressed
/// bytes and the length of the output buffer.
pub trait Decompress {
    /// What decompressing `input` into a buffer of `size` bytes gives: the
    /// bytes that the buffer then holds, or the codec's error.
    spec fn decompressed(&self, compression: Compression, input: Seq<u8>, size: nat) -> Result<
        Seq<u8>,
        Error,
    >;

    /// Decompresses `input` into `output`, which arrives filled with zeros
    /// and with the length that the page declares for its uncompressed
    /// bytes. Uncompressed bytes are never handed to a codec.
    fn decompress(&self, compression: Compression, input: &[u8], output: &mut Vec<u8>) -> (r:
        Result<(), Error>)
        requires
            compression != Compression::Uncompressed,
            forall|i: int| 0 <= i < old(output)@.len() ==> old(output)@[i] == 0,
        ensures
            match self.decompressed(compression, input@, old(output)@.len()) {
                Ok(bytes) => r is Ok && final(output)@ == bytes,
                Err(e) => r == Err::<(), Error>(e),
            },
    ;
}

} // verus!
