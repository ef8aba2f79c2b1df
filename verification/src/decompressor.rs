use vstd::prelude::*;
use vstd::slice::*;
use crate::compression::{Compression, Decompress};
use crate::error::Error;
use crate::page_dict::EncodedDictPage;
use crate::read::{CompressedPage, DataPage, Page};

verus! {

/// `r` is what [`finish_page`] makes of a codec's verdict `outcome` and of
/// the `bytes` it wrote for `page`.
pub open spec fn inflated_as(
    r: Result<Page, Error>,
    outcome: Result<(), Error>,
    bytes: Seq<u8>,
    page: CompressedPage,
) -> bool {
    match outcome {
        Err(e) => r == Err::<Page, Error>(e),
        Ok(_) => if bytes.len() == page.spec_uncompressed_size() {
            r is Ok && r->Ok_0.holds(page, bytes)
        } else {
            r == Err::<Page, Error>(Error::CorruptData)
        },
    }
}

fn with_buffer(page: CompressedPage, buffer: Vec<u8>) -> (r: Page)
    ensures
        r.holds(page, buffer@),
{
    match page {
        CompressedPage::Data(p) => Page::Data(
            DataPage { buffer, num_values: p.num_values, rows: p.rows },
        ),
        CompressedPage::Dict(p) => Page::Dict(EncodedDictPage::new(buffer, p.num_values)),
    }
}

/// Builds the decompressed page from what a codec made of `page`: the
/// codec's error where it failed, corrupt data where it wrote other than the
/// declared number of bytes, else `page` with `bytes` for its buffer.
pub fn finish_page(outcome: Result<(), Error>, bytes: &[u8], page: CompressedPage) -> (r: Result<
    Page,
    Error,
>)
    ensures
        inflated_as(r, outcome, bytes@, page),
{
    match outcome {
        Err(e) => Err(e),
        Ok(_) => {
            let declared = match &page {
                CompressedPage::Data(p) => p.uncompressed_page_size,
                CompressedPage::Dict(p) => p.uncompressed_page_size,
            };
            if bytes.len() == declared {
                Ok(with_buffer(page, slice_to_vec(bytes)))
            } else {
                Err(Error::CorruptData)
            }
        },
    }
}

/// What `codec` makes of the bytes of `page`, in a buffer of the size that
/// the page declares.
pub open spec fn decompressed_for<D: Decompress>(codec: D, page: CompressedPage) -> Result<
    Seq<u8>,
    Error,
> {
    codec.decompressed(
        page.spec_compression(),
        page.spec_buffer(),
        page.spec_uncompressed_size() as nat,
    )
}

/// Turns compressed pages into decompressed ones, with one scratch buffer
/// that is used again for every page.
pub struct BasicDecompressor<D: Decompress> {
    codec: D,
    scratch: Vec<u8>,
}

impl<D: Decompress> BasicDecompressor<D> {
    /// The bytes in the scratch buffer.
    pub closed spec fn spec_scratch(&self) -> Seq<u8> {
        self.scratch@
    }

    /// The provider of codecs.
    pub closed spec fn spec_codec(&self) -> D {
        self.codec
    }

    /// A decompressor that calls `codec` and starts with `scratch` for its buffer.
    pub fn new(codec: D, scratch: Vec<u8>) -> (r: Self)
        ensures
            r.spec_codec() == codec,
            r.spec_scratch() == scratch@,
    {
        Self { codec, scratch }
    }

    /// Gives the scratch buffer back.
    pub fn into_inner(self) -> (r: Vec<u8>)
        ensures
            r@ == self.spec_scratch(),
    {
        self.scratch
    }

    /// Decompresses one page. An uncompressed page comes back with its own
    /// bytes. Any other page is handed to the codec, with the scratch buffer
    /// zeroed and set to the size that the page declares; the page comes back
    /// with what the codec wrote, which also stays in the scratch buffer.
    pub fn decompress(&mut self, page: CompressedPage) -> (r: Result<Page, Error>)
        ensures
            final(self).spec_codec() == old(self).spec_codec(),
            page.spec_compression() == Compression::Uncompressed ==> {
                &&& r is Ok
                &&& r->Ok_0.holds(page, page.spec_buffer())
                &&& final(self).spec_scratch() == old(self).spec_scratch()
            },
            page.spec_compression() != Compression::Uncompressed ==> match decompressed_for(
                old(self).spec_codec(),
                page,
            ) {
                Ok(bytes) => {
                    &&& inflated_as(r, Ok(()), bytes, page)
                    &&& final(self).spec_scratch() == bytes
                },
                Err(e) => r == Err::<Page, Error>(e),
            },
    {
        match page.compression() {
            Compression::Uncompressed => {
                let r = match page {
                    CompressedPage::Data(p) => Page::Data(
                        DataPage { buffer: p.buffer, num_values: p.num_values, rows: p.rows },
                    ),
                    CompressedPage::Dict(p) => Page::Dict(
                        EncodedDictPage::new(p.buffer, p.num_values),
                    ),
                };
                Ok(r)
            },
            compression => {
                let outcome = match &page {
                    CompressedPage::Data(p) => {
                        self.scratch.clear();
                        self.scratch.resize(p.uncompressed_page_size, 0u8);
                        self.codec.decompress(compression, p.buffer.as_slice(), &mut self.scratch)
                    },
                    CompressedPage::Dict(p) => {
                        self.scratch.clear();
                        self.scratch.resize(p.uncompressed_page_size, 0u8);
                        self.codec.decompress(compression, p.buffer.as_slice(), &mut self.scratch)
                    },
                };
                finish_page(outcome, self.scratch.as_slice(), page)
            },
        }
    }
}

} // verus!
