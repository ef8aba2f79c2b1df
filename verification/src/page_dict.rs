use std::sync::Arc;
use vstd::bytes::*;
use vstd::prelude::*;
use vstd::slice::*;
use crate::compression::{Compression, Decompress};
use crate::error::Error;
use crate::schema::PhysicalType;

verus! {

/// An encoded, uncompressed dictionary page.
#[derive(Debug)]
pub struct EncodedDictPage {
    pub buffer: Vec<u8>,
    pub num_values: usize,
}

impl EncodedDictPage {
    /// A page of `num_values` values, encoded in `buffer`.
    pub fn new(buffer: Vec<u8>, num_values: usize) -> (r: Self)
        ensures
            r.buffer == buffer,
            r.num_values == num_values,
    {
        Self { buffer, num_values }
    }
}

/// An encoded and compressed dictionary page.
#[derive(Debug)]
pub struct CompressedDictPage {
    pub buffer: Vec<u8>,
    pub compression: Compression,
    pub num_values: usize,
    pub uncompressed_page_size: usize,
}

impl CompressedDictPage {
    /// A page of `num_values` values whose encoding, `uncompressed_page_size`
    /// bytes long, was compressed with `compression` into `buffer`.
    pub fn new(
        buffer: Vec<u8>,
        compression: Compression,
        uncompressed_page_size: usize,
        num_values: usize,
    ) -> (r: Self)
        ensures
            r.buffer == buffer,
            r.compression == compression,
            r.uncompressed_page_size == uncompressed_page_size,
            r.num_values == num_values,
    {
        Self { buffer, compression, uncompressed_page_size, num_values }
    }

    /// The codec that this page's buffer was compressed with.
    pub fn compression(&self) -> (r: Compression)
        ensures
            r == self.compression,
    {
        self.compression
    }
}

/// A decoded dictionary of fixed-width values. Floating-point values are held
/// as their IEEE 754 bit patterns.
#[derive(Debug)]
pub struct PrimitivePageDict<T> {
    pub values: Vec<T>,
    pub is_sorted: bool,
}

/// A decoded dictionary of byte strings of any length.
#[derive(Debug)]
pub struct BinaryPageDict {
    pub values: Vec<Vec<u8>>,
    pub is_sorted: bool,
}

/// A decoded dictionary of `len` byte strings of `size` bytes each, kept end
/// to end in `values`.
#[derive(Debug)]
pub struct FixedLenByteArrayPageDict {
    pub values: Vec<u8>,
    pub size: usize,
    pub len: usize,
    pub is_sorted: bool,
}

impl<T> PrimitivePageDict<T> {
    /// A dictionary of `values`.
    pub fn new(values: Vec<T>, is_sorted: bool) -> (r: Self)
        ensures
            r.values == values,
            r.is_sorted == is_sorted,
    {
        Self { values, is_sorted }
    }

    /// The values, by their index in the dictionary.
    pub fn values(&self) -> (r: &[T])
        ensures
            r@ == self.values@,
    {
        self.values.as_slice()
    }
}

impl BinaryPageDict {
    /// The value at `index`.
    pub fn value(&self, index: usize) -> (r: &[u8])
        requires
            index < self.values@.len(),
        ensures
            r@ == self.values@[index as int]@,
    {
        self.values[index].as_slice()
    }
}

impl FixedLenByteArrayPageDict {
    /// The bytes in `values` are those of `len` values of `size` bytes.
    pub open spec fn wf(&self) -> bool {
        self.values@.len() == self.size * self.len
    }

    /// The value at `index`.
    pub fn value(&self, index: usize) -> (r: &[u8])
        requires
            self.wf(),
            index < self.len,
        ensures
            r@ == chunks(self.values@, self.size as int, self.len as int)[index as int],
    {
        assert(self.values.len() == self.values@.len());
        assert(0 <= index * self.size <= (index + 1) * self.size <= self.size * self.len && (index
            + 1) * self.size == index * self.size + self.size) by (nonlinear_arith)
            requires
                0 <= index < self.len,
                0 <= self.size,
        ;
        let start: usize = index * self.size;
        slice_subrange(self.values.as_slice(), start, start + self.size)
    }
}

/// A decoded dictionary page, by the physical type of its values.
#[derive(Debug)]
pub enum DictPage {
    Int32(PrimitivePageDict<i32>),
    Int64(PrimitivePageDict<i64>),
    Int96(PrimitivePageDict<[u32; 3]>),
    Float(PrimitivePageDict<u32>),
    Double(PrimitivePageDict<u64>),
    ByteArray(BinaryPageDict),
    FixedLenByteArray(FixedLenByteArrayPageDict),
}

/// The values of a dictionary, as mathematical sequences.
pub enum DictValues {
    Int32(Seq<i32>),
    Int64(Seq<i64>),
    Int96(Seq<[u32; 3]>),
    Float(Seq<u32>),
    Double(Seq<u64>),
    ByteArray(Seq<Seq<u8>>),
    FixedLenByteArray(usize, Seq<Seq<u8>>),
}

/// What a decoded dictionary page holds.
pub struct DictPageView {
    pub values: DictValues,
    pub is_sorted: bool,
}

/// Cuts `buf` into `count` pieces of `size` bytes.
pub open spec fn chunks(buf: Seq<u8>, size: int, count: int) -> Seq<Seq<u8>> {
    Seq::new(count as nat, |i: int| buf.subrange(i * size, (i + 1) * size))
}

impl DictValues {
    /// The physical type of the values.
    pub open spec fn physical_type(self) -> PhysicalType {
        match self {
            DictValues::Int32(_) => PhysicalType::Int32,
            DictValues::Int64(_) => PhysicalType::Int64,
            DictValues::Int96(_) => PhysicalType::Int96,
            DictValues::Float(_) => PhysicalType::Float,
            DictValues::Double(_) => PhysicalType::Double,
            DictValues::ByteArray(_) => PhysicalType::ByteArray,
            DictValues::FixedLenByteArray(size, _) => PhysicalType::FixedLenByteArray(size),
        }
    }

    /// How many values the dictionary holds.
    pub open spec fn len(self) -> nat {
        match self {
            DictValues::Int32(v) => v.len(),
            DictValues::Int64(v) => v.len(),
            DictValues::Int96(v) => v.len(),
            DictValues::Float(v) => v.len(),
            DictValues::Double(v) => v.len(),
            DictValues::ByteArray(v) => v.len(),
            DictValues::FixedLenByteArray(_, v) => v.len(),
        }
    }
}

impl View for DictPage {
    type V = DictPageView;

    open spec fn view(&self) -> DictPageView {
        match self {
            DictPage::Int32(d) => DictPageView {
                values: DictValues::Int32(d.values@),
                is_sorted: d.is_sorted,
            },
            DictPage::Int64(d) => DictPageView {
                values: DictValues::Int64(d.values@),
                is_sorted: d.is_sorted,
            },
            DictPage::Int96(d) => DictPageView {
                values: DictValues::Int96(d.values@),
                is_sorted: d.is_sorted,
            },
            DictPage::Float(d) => DictPageView {
                values: DictValues::Float(d.values@),
                is_sorted: d.is_sorted,
            },
            DictPage::Double(d) => DictPageView {
                values: DictValues::Double(d.values@),
                is_sorted: d.is_sorted,
            },
            DictPage::ByteArray(d) => DictPageView {
                values: DictValues::ByteArray(d.values@.map_values(|v: Vec<u8>| v@)),
                is_sorted: d.is_sorted,
            },
            DictPage::FixedLenByteArray(d) => DictPageView {
                values: DictValues::FixedLenByteArray(
                    d.size,
                    chunks(d.values@, d.size as int, d.len as int),
                ),
                is_sorted: d.is_sorted,
            },
        }
    }
}

impl DictPage {
    /// Byte strings of a fixed length fill their buffer exactly.
    pub open spec fn wf(&self) -> bool {
        match self {
            DictPage::FixedLenByteArray(d) => d.wf(),
            _ => true,
        }
    }

    /// The physical type of the dictionary's values.
    pub fn physical_type(&self) -> (r: PhysicalType)
        ensures
            r == self@.values.physical_type(),
    {
        match self {
            DictPage::Int32(_) => PhysicalType::Int32,
            DictPage::Int64(_) => PhysicalType::Int64,
            DictPage::Int96(_) => PhysicalType::Int96,
            DictPage::Float(_) => PhysicalType::Float,
            DictPage::Double(_) => PhysicalType::Double,
            DictPage::ByteArray(_) => PhysicalType::ByteArray,
            DictPage::FixedLenByteArray(d) => PhysicalType::FixedLenByteArray(d.size),
        }
    }

    /// Whether the page was declared to hold its values in sorted order.
    pub fn is_sorted(&self) -> (r: bool)
        ensures
            r == self@.is_sorted,
    {
        match self {
            DictPage::Int32(d) => d.is_sorted,
            DictPage::Int64(d) => d.is_sorted,
            DictPage::Int96(d) => d.is_sorted,
            DictPage::Float(d) => d.is_sorted,
            DictPage::Double(d) => d.is_sorted,
            DictPage::ByteArray(d) => d.is_sorted,
            DictPage::FixedLenByteArray(d) => d.is_sorted,
        }
    }

    /// How many values the dictionary holds.
    pub fn len(&self) -> (r: usize)
        ensures
            r == self@.values.len(),
    {
        match self {
            DictPage::Int32(d) => d.values.len(),
            DictPage::Int64(d) => d.values.len(),
            DictPage::Int96(d) => d.values.len(),
            DictPage::Float(d) => d.values.len(),
            DictPage::Double(d) => d.values.len(),
            DictPage::ByteArray(d) => d.values.len(),
            DictPage::FixedLenByteArray(d) => d.len,
        }
    }
}

/// The 32-bit little-endian words that `buf` is made of.
pub open spec fn le_words32(buf: Seq<u8>) -> Seq<u32> {
    Seq::new(
        (buf.len() / 4) as nat,
        |i: int| spec_u32_from_le_bytes(buf.subrange(4 * i, 4 * i + 4)),
    )
}

/// The 64-bit little-endian words that `buf` is made of.
pub open spec fn le_words64(buf: Seq<u8>) -> Seq<u64> {
    Seq::new(
        (buf.len() / 8) as nat,
        |i: int| spec_u64_from_le_bytes(buf.subrange(8 * i, 8 * i + 8)),
    )
}

/// Groups 32-bit words by three, lowest word first.
pub open spec fn int96s(words: Seq<u32>) -> Seq<[u32; 3]> {
    Seq::new(
        (words.len() / 3) as nat,
        |i: int| [words[3 * i], words[3 * i + 1], words[3 * i + 2]],
    )
}

/// Reads `n` records from the front of `buf`, each a 32-bit little-endian
/// length and then that many bytes. `None` where `buf` ends too early.
pub open spec fn parse_binary(buf: Seq<u8>, n: nat) -> Option<Seq<Seq<u8>>>
    decreases n,
{
    if n == 0 {
        Some(Seq::empty())
    } else if buf.len() < 4 {
        None
    } else {
        let len = spec_u32_from_le_bytes(buf.subrange(0, 4)) as int;
        if buf.len() - 4 < len {
            None
        } else {
            match parse_binary(buf.skip(4 + len), (n - 1) as nat) {
                Some(rest) => Some(seq![buf.subrange(4, 4 + len)] + rest),
                None => None,
            }
        }
    }
}

/// What decoding `buf` as a dictionary of `num_values` values of
/// `physical_type` gives.
pub open spec fn deserialize_spec(
    buf: Seq<u8>,
    num_values: usize,
    is_sorted: bool,
    physical_type: PhysicalType,
) -> Result<DictPageView, Error> {
    match physical_type {
        PhysicalType::Boolean => Err(Error::OutOfSpec),
        PhysicalType::Int32 => if buf.len() == 4 * num_values {
            Ok(
                DictPageView {
                    values: DictValues::Int32(le_words32(buf).map_values(|w: u32| w as i32)),
                    is_sorted,
                },
            )
        } else {
            Err(Error::CorruptData)
        },
        PhysicalType::Int64 => if buf.len() == 8 * num_values {
            Ok(
                DictPageView {
                    values: DictValues::Int64(le_words64(buf).map_values(|w: u64| w as i64)),
                    is_sorted,
                },
            )
        } else {
            Err(Error::CorruptData)
        },
        PhysicalType::Int96 => if buf.len() == 12 * num_values {
            Ok(DictPageView { values: DictValues::Int96(int96s(le_words32(buf))), is_sorted })
        } else {
            Err(Error::CorruptData)
        },
        PhysicalType::Float => if buf.len() == 4 * num_values {
            Ok(DictPageView { values: DictValues::Float(le_words32(buf)), is_sorted })
        } else {
            Err(Error::CorruptData)
        },
        PhysicalType::Double => if buf.len() == 8 * num_values {
            Ok(DictPageView { values: DictValues::Double(le_words64(buf)), is_sorted })
        } else {
            Err(Error::CorruptData)
        },
        PhysicalType::ByteArray => match parse_binary(buf, num_values as nat) {
            Some(values) => Ok(DictPageView { values: DictValues::ByteArray(values), is_sorted }),
            None => Err(Error::CorruptData),
        },
        PhysicalType::FixedLenByteArray(size) => if buf.len() == size * num_values {
            Ok(
                DictPageView {
                    values: DictValues::FixedLenByteArray(
                        size,
                        chunks(buf, size as int, num_values as int),
                    ),
                    is_sorted,
                },
            )
        } else {
            Err(Error::CorruptData)
        },
    }
}

fn read_words32(buf: &[u8]) -> (r: Vec<u32>)
    requires
        buf@.len() % 4 == 0,
    ensures
        r@ == le_words32(buf@),
{
    let n: usize = buf.len() / 4;
    let mut out: Vec<u32> = Vec::new();
    let mut i: usize = 0;
    while i < n
        invariant
            i <= n,
            n == buf@.len() / 4,
            buf@.len() % 4 == 0,
            buf@.len() <= usize::MAX,
            out@.len() == i,
            forall|k: int| 0 <= k < i ==> out@[k] == le_words32(buf@)[k],
        decreases n - i,
    {
        let word = u32_from_le_bytes(slice_subrange(buf, 4 * i, 4 * i + 4));
        out.push(word);
        i += 1;
    }
    assert(out@ =~= le_words32(buf@));
    out
}

fn read_words64(buf: &[u8]) -> (r: Vec<u64>)
    requires
        buf@.len() % 8 == 0,
    ensures
        r@ == le_words64(buf@),
{
    let n: usize = buf.len() / 8;
    let mut out: Vec<u64> = Vec::new();
    let mut i: usize = 0;
    while i < n
        invariant
            i <= n,
            n == buf@.len() / 8,
            buf@.len() % 8 == 0,
            buf@.len() <= usize::MAX,
            out@.len() == i,
            forall|k: int| 0 <= k < i ==> out@[k] == le_words64(buf@)[k],
        decreases n - i,
    {
        let word = u64_from_le_bytes(slice_subrange(buf, 8 * i, 8 * i + 8));
        out.push(word);
        i += 1;
    }
    assert(out@ =~= le_words64(buf@));
    out
}

fn read_int32(buf: &[u8]) -> (r: Vec<i32>)
    requires
        buf@.len() % 4 == 0,
    ensures
        r@ == le_words32(buf@).map_values(|w: u32| w as i32),
{
    let words = read_words32(buf);
    let mut out: Vec<i32> = Vec::new();
    let mut i: usize = 0;
    while i < words.len()
        invariant
            i <= words.len(),
            out@.len() == i,
            forall|k: int| 0 <= k < i ==> out@[k] == words@[k] as i32,
        decreases words.len() - i,
    {
        out.push(words[i] as i32);
        i += 1;
    }
    assert(out@ =~= words@.map_values(|w: u32| w as i32));
    out
}

fn read_int64(buf: &[u8]) -> (r: Vec<i64>)
    requires
        buf@.len() % 8 == 0,
    ensures
        r@ == le_words64(buf@).map_values(|w: u64| w as i64),
{
    let words = read_words64(buf);
    let mut out: Vec<i64> = Vec::new();
    let mut i: usize = 0;
    while i < words.len()
        invariant
            i <= words.len(),
            out@.len() == i,
            forall|k: int| 0 <= k < i ==> out@[k] == words@[k] as i64,
        decreases words.len() - i,
    {
        out.push(words[i] as i64);
        i += 1;
    }
    assert(out@ =~= words@.map_values(|w: u64| w as i64));
    out
}

fn read_int96(buf: &[u8]) -> (r: Vec<[u32; 3]>)
    requires
        buf@.len() % 12 == 0,
    ensures
        r@ == int96s(le_words32(buf@)),
{
    let words = read_words32(buf);
    let n: usize = words.len() / 3;
    let mut out: Vec<[u32; 3]> = Vec::new();
    let mut i: usize = 0;
    while i < n
        invariant
            i <= n,
            n == words@.len() / 3,
            words@.len() <= usize::MAX,
            out@.len() == i,
            forall|k: int| 0 <= k < i ==> out@[k] == int96s(words@)[k],
        decreases n - i,
    {
        let value: [u32; 3] = [words[3 * i], words[3 * i + 1], words[3 * i + 2]];
        out.push(value);
        i += 1;
    }
    assert(out@ =~= int96s(words@));
    out
}

spec fn after(done: Seq<Seq<u8>>, rest: Option<Seq<Seq<u8>>>) -> Option<Seq<Seq<u8>>> {
    match rest {
        Some(rest) => Some(done + rest),
        None => None,
    }
}

fn read_binary(buf: &[u8], num_values: usize) -> (r: Option<Vec<Vec<u8>>>)
    ensures
        match r {
            Some(values) => parse_binary(buf@, num_values as nat) == Some(
                values@.map_values(|v: Vec<u8>| v@),
            ),
            None => parse_binary(buf@, num_values as nat) is None,
        },
{
    let mut out: Vec<Vec<u8>> = Vec::new();
    let mut pos: usize = 0;
    let mut i: usize = 0;
    let total: usize = buf.len();
    proof {
        let all = parse_binary(buf@, num_values as nat);
        assert(buf@.skip(0) =~= buf@);
        if all is Some {
            assert(Seq::<Seq<u8>>::empty() + all.unwrap() =~= all.unwrap());
        }
    }
    while i < num_values
        invariant
            i <= num_values,
            pos <= buf@.len(),
            total == buf@.len(),
            parse_binary(buf@, num_values as nat) == after(
                out@.map_values(|v: Vec<u8>| v@),
                parse_binary(buf@.skip(pos as int), (num_values - i) as nat),
            ),
        decreases num_values - i,
    {
        let ghost tail = buf@.skip(pos as int);
        let ghost done = out@.map_values(|v: Vec<u8>| v@);
        if total - pos < 4 {
            return None;
        }
        let len = u32_from_le_bytes(slice_subrange(buf, pos, pos + 4)) as usize;
        assert(buf@.subrange(pos as int, pos + 4) =~= tail.subrange(0, 4));
        if total - pos - 4 < len {
            return None;
        }
        let value = slice_to_vec(slice_subrange(buf, pos + 4, pos + 4 + len));
        proof {
            let rest = parse_binary(tail.skip(4 + len), (num_values - i - 1) as nat);
            assert(value@ =~= tail.subrange(4, 4 + len));
            assert(tail.skip(4 + len) =~= buf@.skip(pos + 4 + len));
            assert(out@.push(value).map_values(|v: Vec<u8>| v@) =~= done.push(value@));
            if rest is Some {
                assert(done + (seq![value@] + rest.unwrap()) =~= done.push(value@) + rest.unwrap());
            }
        }
        out.push(value);
        pos = pos + 4 + len;
        i += 1;
    }
    proof {
        let done = out@.map_values(|v: Vec<u8>| v@);
        assert(done + Seq::<Seq<u8>>::empty() =~= done);
    }
    Some(out)
}

/// `r` is the outcome `expected`, with the page taken by what it holds.
pub open spec fn decoded_as(
    r: Result<Arc<DictPage>, Error>,
    expected: Result<DictPageView, Error>,
) -> bool {
    match r {
        Ok(page) => page.wf() && expected == Ok::<DictPageView, Error>(page@),
        Err(e) => expected == Err::<DictPageView, Error>(e),
    }
}

proof fn lemma_parse_binary_len(buf: Seq<u8>, n: nat)
    ensures
        parse_binary(buf, n) is Some ==> parse_binary(buf, n).unwrap().len() == n,
    decreases n,
{
    if n > 0 && buf.len() >= 4 {
        let len = spec_u32_from_le_bytes(buf.subrange(0, 4)) as int;
        if buf.len() - 4 >= len {
            lemma_parse_binary_len(buf.skip(4 + len), (n - 1) as nat);
        }
    }
}

/// A decoded dictionary holds as many values as its page declared, of the
/// physical type that was asked for, and keeps the page's word on its order.
pub proof fn lemma_decoded_as_declared(
    buf: Seq<u8>,
    num_values: usize,
    is_sorted: bool,
    physical_type: PhysicalType,
)
    requires
        deserialize_spec(buf, num_values, is_sorted, physical_type) is Ok,
    ensures
        deserialize_spec(buf, num_values, is_sorted, physical_type).unwrap().values.len()
            == num_values,
        deserialize_spec(buf, num_values, is_sorted, physical_type).unwrap().values.physical_type()
            == physical_type,
        deserialize_spec(buf, num_values, is_sorted, physical_type).unwrap().is_sorted == is_sorted,
{
    lemma_parse_binary_len(buf, num_values as nat);
}

/// Decodes the uncompressed bytes of a dictionary page that declares
/// `num_values` values of `physical_type`.
///
/// Fixed-width values are read as little-endian words, and the buffer must
/// hold exactly `num_values` of them. Byte strings of any length are read as
/// `num_values` records of a 32-bit little-endian length and that many bytes.
/// Byte strings of a fixed length must fill the buffer exactly. A boolean
/// dictionary is never valid.
pub fn deserialize(buf: &[u8], num_values: usize, is_sorted: bool, physical_type: PhysicalType) -> (r:
    Result<Arc<DictPage>, Error>)
    ensures
        decoded_as(r, deserialize_spec(buf@, num_values, is_sorted, physical_type)),
        physical_type == PhysicalType::Boolean ==> r is Err && r->Err_0 == Error::OutOfSpec,
        r is Ok ==> r->Ok_0@.values.len() == num_values && r->Ok_0@.values.physical_type()
            == physical_type && r->Ok_0@.is_sorted == is_sorted,
{
    proof {
        if deserialize_spec(buf@, num_values, is_sorted, physical_type) is Ok {
            lemma_decoded_as_declared(buf@, num_values, is_sorted, physical_type);
        }
    }
    match physical_type {
        PhysicalType::Boolean => Err(Error::OutOfSpec),
        PhysicalType::Int32 => {
            if buf.len() % 4 == 0 && buf.len() / 4 == num_values {
                Ok(Arc::new(DictPage::Int32(PrimitivePageDict { values: read_int32(buf), is_sorted })))
            } else {
                Err(Error::CorruptData)
            }
        },
        PhysicalType::Int64 => {
            if buf.len() % 8 == 0 && buf.len() / 8 == num_values {
                Ok(Arc::new(DictPage::Int64(PrimitivePageDict { values: read_int64(buf), is_sorted })))
            } else {
                Err(Error::CorruptData)
            }
        },
        PhysicalType::Int96 => {
            if buf.len() % 12 == 0 && buf.len() / 12 == num_values {
                Ok(Arc::new(DictPage::Int96(PrimitivePageDict { values: read_int96(buf), is_sorted })))
            } else {
                Err(Error::CorruptData)
            }
        },
        PhysicalType::Float => {
            if buf.len() % 4 == 0 && buf.len() / 4 == num_values {
                Ok(Arc::new(DictPage::Float(PrimitivePageDict { values: read_words32(buf), is_sorted })))
            } else {
                Err(Error::CorruptData)
            }
        },
        PhysicalType::Double => {
            if buf.len() % 8 == 0 && buf.len() / 8 == num_values {
                Ok(Arc::new(DictPage::Double(PrimitivePageDict { values: read_words64(buf), is_sorted })))
            } else {
                Err(Error::CorruptData)
            }
        },
        PhysicalType::ByteArray => match read_binary(buf, num_values) {
            Some(values) => Ok(Arc::new(DictPage::ByteArray(BinaryPageDict { values, is_sorted }))),
            None => Err(Error::CorruptData),
        },
        PhysicalType::FixedLenByteArray(size) => {
            let fits = match size.checked_mul(num_values) {
                Some(total) => total == buf.len(),
                None => false,
            };
            if fits {
                Ok(
                    Arc::new(
                        DictPage::FixedLenByteArray(
                            FixedLenByteArrayPageDict {
                                values: slice_to_vec(buf),
                                size,
                                len: num_values,
                                is_sorted,
                            },
                        ),
                    ),
                )
            } else {
                Err(Error::CorruptData)
            }
        },
    }
}

/// What [`decode_decompressed`] returns: the codec's error where it failed,
/// corrupt data where it left other than `expected_size` bytes, and else the
/// decoded bytes.
pub open spec fn decode_decompressed_spec(
    outcome: Result<(), Error>,
    bytes: Seq<u8>,
    expected_size: usize,
    num_values: usize,
    is_sorted: bool,
    physical_type: PhysicalType,
) -> Result<DictPageView, Error> {
    match outcome {
        Err(e) => Err(e),
        Ok(_) => if bytes.len() == expected_size {
            deserialize_spec(bytes, num_values, is_sorted, physical_type)
        } else {
            Err(Error::CorruptData)
        },
    }
}

/// Decodes a dictionary page from what a codec made of its bytes: `outcome`
/// is the codec's verdict and `bytes` the buffer it wrote to.
pub fn decode_decompressed(
    outcome: Result<(), Error>,
    bytes: &[u8],
    expected_size: usize,
    num_values: usize,
    is_sorted: bool,
    physical_type: PhysicalType,
) -> (r: Result<Arc<DictPage>, Error>)
    ensures
        decoded_as(
            r,
            decode_decompressed_spec(
                outcome,
                bytes@,
                expected_size,
                num_values,
                is_sorted,
                physical_type,
            ),
        ),
{
    match outcome {
        Err(e) => Err(e),
        Ok(_) => {
            if bytes.len() == expected_size {
                deserialize(bytes, num_values, is_sorted, physical_type)
            } else {
                Err(Error::CorruptData)
            }
        },
    }
}

/// What [`read_dict_page`] returns: a boolean dictionary is refused before
/// anything else, an uncompressed page is decoded from its own bytes, and
/// any other page from what `codec` makes of them.
pub open spec fn read_dict_page_spec<D: Decompress>(
    codec: &D,
    buffer: Seq<u8>,
    num_values: usize,
    compression: (Compression, usize),
    is_sorted: bool,
    physical_type: PhysicalType,
) -> Result<DictPageView, Error> {
    if physical_type == PhysicalType::Boolean {
        Err(Error::OutOfSpec)
    } else if compression.0 == Compression::Uncompressed {
        deserialize_spec(buffer, num_values, is_sorted, physical_type)
    } else {
        match codec.decompressed(compression.0, buffer, compression.1 as nat) {
            Ok(bytes) => decode_decompressed_spec(
                Ok(()),
                bytes,
                compression.1,
                num_values,
                is_sorted,
                physical_type,
            ),
            Err(e) => Err(e),
        }
    }
}

/// Decodes a dictionary page. `compression` is the codec of the page's bytes
/// and the size they have once decompressed.
///
/// A page of booleans is out of spec, whatever it holds and however it is
/// compressed. An uncompressed page is decoded from its own buffer. Any other
/// page is first handed to `codec`, with a zeroed output buffer of the
/// declared size, and decoded from what `codec` wrote.
pub fn read_dict_page<D: Decompress>(
    page: &EncodedDictPage,
    compression: (Compression, usize),
    is_sorted: bool,
    physical_type: PhysicalType,
    codec: &D,
) -> (r: Result<Arc<DictPage>, Error>)
    ensures
        decoded_as(
            r,
            read_dict_page_spec(
                codec,
                page.buffer@,
                page.num_values,
                compression,
                is_sorted,
                physical_type,
            ),
        ),
        physical_type == PhysicalType::Boolean ==> r is Err && r->Err_0 == Error::OutOfSpec,
{
    if let PhysicalType::Boolean = physical_type {
        return Err(Error::OutOfSpec);
    }
    match compression.0 {
        Compression::Uncompressed => deserialize(
            page.buffer.as_slice(),
            page.num_values,
            is_sorted,
            physical_type,
        ),
        _ => {
            let mut decompressed: Vec<u8> = vec![0u8; compression.1];
            let outcome = codec.decompress(compression.0, page.buffer.as_slice(), &mut decompressed);
            decode_decompressed(
                outcome,
                decompressed.as_slice(),
                compression.1,
                page.num_values,
                is_sorted,
                physical_type,
            )
        },
    }
}

} // verus!
