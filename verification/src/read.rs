use vstd::prelude::*;
use vstd::slice::*;
use crate::compression::Compression;
use crate::error::Error;
use crate::indexes::{
    all_pages, lemma_selection_in_file_order, lemma_selection_minimal, locations_valid,
    selected_pages, Interval, PageLocation, SelectedPage,
};
use crate::metadata::ColumnDescriptor;
use crate::page_dict::{CompressedDictPage, EncodedDictPage};

verus! {

/// What a page holds.
#[derive(Debug, Clone, Copy, PartialEq, Eq, Structural)]
pub enum PageType {
    DataPage,
    DictionaryPage,
}

/// The fields of a page's header that the reader goes by.
#[derive(Debug, Clone, Copy, PartialEq, Eq, Structural)]
pub struct PageHeader {
    pub type_: PageType,
    pub uncompressed_page_size: i32,
    pub compressed_page_size: i32,
    pub num_values: i32,
}

/// What came from the byte source for one page: all its bytes, the header
/// parsed from their front, and the number of bytes the header takes.
#[derive(Debug)]
pub struct RawPage {
    pub header: PageHeader,
    pub header_size: usize,
    pub bytes: Vec<u8>,
}

/// A compressed page of values, with the rows it covers.
#[derive(Debug)]
pub struct CompressedDataPage {
    pub buffer: Vec<u8>,
    pub compression: Compression,
    pub uncompressed_page_size: usize,
    pub num_values: usize,
    pub rows: Interval,
}

/// A page as it lies in the file.
#[derive(Debug)]
pub enum CompressedPage {
    Data(CompressedDataPage),
    Dict(CompressedDictPage),
}

/// A decompressed page of values, with the rows it covers.
#[derive(Debug)]
pub struct DataPage {
    pub buffer: Vec<u8>,
    pub num_values: usize,
    pub rows: Interval,
}

/// A decompressed page.
#[derive(Debug)]
pub enum Page {
    Data(DataPage),
    Dict(EncodedDictPage),
}

/// What the reader needs from the byte source next.
#[derive(Debug, Clone, Copy, PartialEq, Eq, Structural)]
pub enum ReadStep {
    /// Every selected page has been read.
    Done,
    /// Seek to `offset` and read `length` bytes.
    Fetch { offset: u64, length: usize },
}

/// The pages can be read front to back without seeking backward: offsets and
/// sizes are non-negative and offsets strictly increase.
pub open spec fn pages_ascending(pages: Seq<SelectedPage>) -> bool {
    &&& forall|i: int|
        0 <= i < pages.len() ==> (#[trigger] pages[i]).location.offset >= 0
            && pages[i].location.compressed_page_size >= 0
    &&& forall|i: int, j: int|
        0 <= i < j < pages.len() ==> (#[trigger] pages[i]).location.offset < (
        #[trigger] pages[j]).location.offset
}

/// The header agrees with the bytes read and with the offset index: the
/// counts are non-negative, `len` bytes were asked for and read, and the
/// header and the page's body fill them exactly.
pub open spec fn header_fits(
    header: PageHeader,
    header_size: usize,
    len: nat,
    location: PageLocation,
) -> bool {
    &&& header.compressed_page_size >= 0
    &&& header.uncompressed_page_size >= 0
    &&& header.num_values >= 0
    &&& len == location.compressed_page_size
    &&& header_size + header.compressed_page_size == len
}

impl CompressedPage {
    /// The page's bytes, after its header.
    pub open spec fn spec_buffer(&self) -> Seq<u8> {
        match self {
            CompressedPage::Data(p) => p.buffer@,
            CompressedPage::Dict(p) => p.buffer@,
        }
    }

    /// The codec of the page's bytes.
    pub open spec fn spec_compression(&self) -> Compression {
        match self {
            CompressedPage::Data(p) => p.compression,
            CompressedPage::Dict(p) => p.compression,
        }
    }

    /// The size that the page declares for its bytes once decompressed.
    pub open spec fn spec_uncompressed_size(&self) -> usize {
        match self {
            CompressedPage::Data(p) => p.uncompressed_page_size,
            CompressedPage::Dict(p) => p.uncompressed_page_size,
        }
    }

    /// How many values the page declares.
    pub open spec fn spec_num_values(&self) -> usize {
        match self {
            CompressedPage::Data(p) => p.num_values,
            CompressedPage::Dict(p) => p.num_values,
        }
    }

    /// The page is the one that `raw` holds at `selected`, compressed with
    /// `compression`.
    pub open spec fn built_from(
        &self,
        raw: RawPage,
        selected: SelectedPage,
        compression: Compression,
    ) -> bool {
        &&& self.spec_buffer() == raw.bytes@.skip(raw.header_size as int)
        &&& self.spec_compression() == compression
        &&& self.spec_uncompressed_size() == raw.header.uncompressed_page_size
        &&& self.spec_num_values() == raw.header.num_values
        &&& match self {
            CompressedPage::Data(p) => raw.header.type_ == PageType::DataPage && p.rows
                == selected.rows,
            CompressedPage::Dict(_) => raw.header.type_ == PageType::DictionaryPage,
        }
    }

    /// The codec that this page's buffer was compressed with.
    pub fn compression(&self) -> (r: Compression)
        ensures
            r == self.spec_compression(),
    {
        match self {
            CompressedPage::Data(p) => p.compression,
            CompressedPage::Dict(p) => p.compression(),
        }
    }
}

impl Page {
    /// The page's decompressed bytes.
    pub open spec fn spec_buffer(&self) -> Seq<u8> {
        match self {
            Page::Data(p) => p.buffer@,
            Page::Dict(p) => p.buffer@,
        }
    }

    /// The page is `source` with `bytes` for its buffer.
    pub open spec fn holds(&self, source: CompressedPage, bytes: Seq<u8>) -> bool {
        &&& self.spec_buffer() == bytes
        &&& match (self, source) {
            (Page::Data(p), CompressedPage::Data(c)) => p.num_values == c.num_values && p.rows
                == c.rows,
            (Page::Dict(p), CompressedPage::Dict(c)) => p.num_values == c.num_values,
            _ => false,
        }
    }
}

/// The decisions of a reader that visits only selected pages of a column
/// chunk, in file order. The caller owns the byte source: it asks
/// [`IndexedPageReader::next_step`] where to read, reads, and hands what it
/// read to [`IndexedPageReader::accept`].
#[derive(Debug)]
pub struct IndexedPageReader {
    descriptor: ColumnDescriptor,
    compression: Compression,
    pages: Vec<SelectedPage>,
    next: usize,
}

impl IndexedPageReader {
    /// The pages still to be read, in the order they will be read.
    pub closed spec fn remaining(&self) -> Seq<SelectedPage> {
        self.pages@.skip(self.next as int)
    }

    /// The codec of every page that the reader builds.
    pub closed spec fn spec_compression(&self) -> Compression {
        self.compression
    }

    /// The column whose pages are read.
    pub closed spec fn spec_descriptor(&self) -> ColumnDescriptor {
        self.descriptor
    }

    /// The cursor is within the pages, and they can be read front to back.
    #[verifier::type_invariant]
    pub closed spec fn wf(&self) -> bool {
        &&& self.next <= self.pages@.len()
        &&& pages_ascending(self.pages@)
    }

    /// A reader of `pages`, which belong to the column `descriptor` and were
    /// compressed with `compression`. Pages that are not in strictly
    /// ascending order of offset are refused.
    pub fn new(descriptor: ColumnDescriptor, compression: Compression, pages: Vec<SelectedPage>) -> (r:
        Result<Self, Error>)
        ensures
            match r {
                Ok(reader) => {
                    &&& pages_ascending(pages@)
                    &&& reader.wf()
                    &&& reader.remaining() == pages@
                    &&& reader.spec_compression() == compression
                    &&& reader.spec_descriptor() == descriptor
                },
                Err(e) => e == Error::InvalidParameter && !pages_ascending(pages@),
            },
    {
        let mut i: usize = 0;
        while i < pages.len()
            invariant
                i <= pages.len(),
                pages_ascending(pages@.take(i as int)),
            decreases pages.len() - i,
        {
            let location = pages[i].location;
            if location.offset < 0 || location.compressed_page_size < 0 {
                return Err(Error::InvalidParameter);
            }
            if i > 0 {
                let prev = pages[i - 1].location;
                if prev.offset >= location.offset {
                    return Err(Error::InvalidParameter);
                }
            }
            proof {
                let before = pages@.take(i as int);
                let now = pages@.take(i as int + 1);
                assert forall|a: int, b: int| 0 <= a < b < now.len() implies (
                #[trigger] now[a]).location.offset < (#[trigger] now[b]).location.offset by {
                    if b == i {
                        if a < i - 1 {
                            assert(before[a].location.offset < before[i as int - 1].location.offset);
                        }
                    } else {
                        assert(before[a].location.offset < before[b].location.offset);
                    }
                }
                assert forall|a: int| 0 <= a < now.len() implies (
                #[trigger] now[a]).location.offset >= 0 && now[a].location.compressed_page_size
                    >= 0 by {
                    if a < i {
                        assert(before[a].location.offset >= 0);
                    }
                }
            }
            i += 1;
        }
        proof {
            assert(pages@.take(i as int) =~= pages@);
            assert(pages@.skip(0) =~= pages@);
        }
        Ok(Self { descriptor, compression, pages, next: 0 })
    }

    /// The column whose pages are read.
    pub fn descriptor(&self) -> (r: &ColumnDescriptor)
        ensures
            *r == self.spec_descriptor(),
    {
        &self.descriptor
    }

    /// How many pages are still to be read.
    pub fn remaining_pages(&self) -> (r: usize)
        ensures
            r == self.remaining().len(),
    {
        proof {
            use_type_invariant(self);
        }
        self.pages.len() - self.next
    }

    /// Where to read next: the first page still to be read, whole, or nothing
    /// once all have been read.
    pub fn next_step(&self) -> (r: ReadStep)
        ensures
            self.remaining().len() == 0 ==> r == ReadStep::Done,
            self.remaining().len() > 0 ==> r == (ReadStep::Fetch {
                offset: self.remaining()[0].location.offset as u64,
                length: self.remaining()[0].location.compressed_page_size as usize,
            }),
    {
        proof {
            use_type_invariant(self);
        }
        if self.next < self.pages.len() {
            let location = self.pages[self.next].location;
            ReadStep::Fetch {
                offset: location.offset as u64,
                length: location.compressed_page_size as usize,
            }
        } else {
            ReadStep::Done
        }
    }

    /// Takes what the byte source gave for the step that [`Self::next_step`]
    /// named, and builds the page from it.
    ///
    /// A failure of the byte source comes back unchanged. With no page left
    /// to read the call is refused. A header that does not fit the bytes read
    /// is corrupt data. In each of these cases the reader stays where it was;
    /// otherwise it moves on by one page.
    pub fn accept(&mut self, fetched: Result<RawPage, Error>) -> (r: Result<CompressedPage, Error>)
        ensures
            final(self).wf(),
            final(self).spec_compression() == old(self).spec_compression(),
            final(self).spec_descriptor() == old(self).spec_descriptor(),
            match fetched {
                Err(e) => {
                    &&& r == Err::<CompressedPage, Error>(e)
                    &&& final(self).remaining() == old(self).remaining()
                },
                Ok(raw) => if old(self).remaining().len() == 0 {
                    &&& r == Err::<CompressedPage, Error>(Error::InvalidParameter)
                    &&& final(self).remaining() == old(self).remaining()
                } else if !header_fits(
                    raw.header,
                    raw.header_size,
                    raw.bytes@.len(),
                    old(self).remaining()[0].location,
                ) {
                    &&& r == Err::<CompressedPage, Error>(Error::CorruptData)
                    &&& final(self).remaining() == old(self).remaining()
                } else {
                    &&& r is Ok
                    &&& r->Ok_0.built_from(
                        raw,
                        old(self).remaining()[0],
                        old(self).spec_compression(),
                    )
                    &&& final(self).remaining() == old(self).remaining().skip(1)
                },
            },
    {
        proof {
            use_type_invariant(&*self);
        }
        let raw = match fetched {
            Err(e) => {
                return Err(e);
            },
            Ok(raw) => raw,
        };
        if self.next >= self.pages.len() {
            return Err(Error::InvalidParameter);
        }
        let selected = self.pages[self.next];
        let header = raw.header;
        let len: usize = raw.bytes.len();
        if header.compressed_page_size < 0 || header.uncompressed_page_size < 0 || header.num_values
            < 0 || selected.location.compressed_page_size as usize != len || raw.header_size > len
            || len - raw.header_size != header.compressed_page_size as usize {
            return Err(Error::CorruptData);
        }
        let buffer = slice_to_vec(slice_subrange(raw.bytes.as_slice(), raw.header_size, len));
        proof {
            assert(buffer@ =~= raw.bytes@.skip(raw.header_size as int));
            assert(self.pages@.skip(self.next as int).skip(1) =~= self.pages@.skip(
                self.next as int + 1,
            ));
        }
        self.next = self.next + 1;
        let page = match header.type_ {
            PageType::DataPage => CompressedPage::Data(
                CompressedDataPage {
                    buffer,
                    compression: self.compression,
                    uncompressed_page_size: header.uncompressed_page_size as usize,
                    num_values: header.num_values as usize,
                    rows: selected.rows,
                },
            ),
            PageType::DictionaryPage => CompressedPage::Dict(
                CompressedDictPage::new(
                    buffer,
                    self.compression,
                    header.uncompressed_page_size as usize,
                    header.num_values as usize,
                ),
            ),
        };
        Ok(page)
    }
}

/// Along a whole run of a reader, the offsets it asks the byte source for
/// strictly increase: it never seeks backward.
pub proof fn lemma_reader_offsets_increase(reader: IndexedPageReader, a: int, b: int)
    requires
        reader.wf(),
        0 <= a < b < reader.remaining().len(),
    ensures
        0 <= reader.remaining()[a].location.offset < reader.remaining()[b].location.offset,
{
    assert(reader.pages@[reader.next + a].location.offset < reader.pages@[reader.next
        + b].location.offset);
}

/// What page selection returns from a valid offset index, a reader accepts.
pub proof fn lemma_selection_is_readable(
    requested: Seq<Interval>,
    locations: Seq<PageLocation>,
    total_rows: int,
)
    requires
        total_rows <= usize::MAX,
        locations_valid(locations, total_rows),
    ensures
        pages_ascending(selected_pages(requested, locations, total_rows)),
{
    let chosen = selected_pages(requested, locations, total_rows);
    assert forall|i: int| 0 <= i < chosen.len() implies (#[trigger] chosen[i]).location.offset >= 0
        && chosen[i].location.compressed_page_size >= 0 by {
        lemma_selection_minimal(requested, locations, total_rows, i);
        let k = choose|k: int|
            0 <= k < locations.len() && #[trigger] all_pages(locations, total_rows)[k] == chosen[i];
        assert(locations[k].offset >= 0);
    }
    assert forall|i: int, j: int| 0 <= i < j < chosen.len() implies (
    #[trigger] chosen[i]).location.offset < (#[trigger] chosen[j]).location.offset by {
        lemma_selection_in_file_order(requested, locations, total_rows, i, j);
    }
}

} // verus!
