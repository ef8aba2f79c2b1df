use parquet_pages::compression::{Compression, Decompress};
use parquet_pages::error::Error;
use parquet_pages::dict_encoding::serialize;
use parquet_pages::page_dict::{
    deserialize, read_dict_page, BinaryPageDict, CompressedDictPage, DictPage, EncodedDictPage,
    FixedLenByteArrayPageDict, PrimitivePageDict,
};
use parquet_pages::schema::PhysicalType;

/// Stands for a codec: the "compressed" bytes are the plain bytes, each
/// followed by a zero byte.
struct Spaced;

impl Decompress for Spaced {
    // the codec's outcome as contracts speak of it: never run
    fn decompressed(
        &self,
        _: Compression,
        _: vstd::seq::Seq<u8>,
        _: vstd::prelude::nat,
    ) -> Result<vstd::seq::Seq<u8>, Error> {
        unreachable!()
    }

    fn decompress(
        &self,
        compression: Compression,
        input: &[u8],
        output: &mut Vec<u8>,
    ) -> Result<(), Error> {
        if compression != Compression::Snappy {
            return Err(Error::Io);
        }
        if input.len() != 2 * output.len() {
            return Err(Error::CorruptData);
        }
        for (i, byte) in output.iter_mut().enumerate() {
            *byte = input[2 * i];
        }
        Ok(())
    }
}

/// A codec that writes more than it was asked for.
struct Overflowing;

impl Decompress for Overflowing {
    // the codec's outcome as contracts speak of it: never run
    fn decompressed(
        &self,
        _: Compression,
        _: vstd::seq::Seq<u8>,
        _: vstd::prelude::nat,
    ) -> Result<vstd::seq::Seq<u8>, Error> {
        unreachable!()
    }

    fn decompress(&self, _: Compression, input: &[u8], output: &mut Vec<u8>) -> Result<(), Error> {
        output.clear();
        output.extend_from_slice(input);
        output.push(0);
        Ok(())
    }
}

fn spaced(bytes: &[u8]) -> Vec<u8> {
    let mut out = vec![];
    for b in bytes {
        out.push(*b);
        out.push(0);
    }
    out
}

fn record(value: &[u8]) -> Vec<u8> {
    let mut out = (value.len() as u32).to_le_bytes().to_vec();
    out.extend_from_slice(value);
    out
}

#[test]
fn dict_int32_round_trip() {
    let values = vec![0i32, 1, -1, i32::MAX, i32::MIN, 258];
    let mut buf = vec![];
    for v in values.iter() {
        buf.extend_from_slice(&v.to_le_bytes());
    }
    let page = deserialize(&buf, values.len(), false, PhysicalType::Int32).unwrap();
    assert_eq!(page.physical_type(), PhysicalType::Int32);
    assert_eq!(page.len(), 6);
    assert!(!page.is_sorted());
    match &*page {
        DictPage::Int32(d) => assert_eq!(d.values, values),
        other => panic!("{:?}", other),
    }
}

#[test]
fn dict_int32_exact_bytes() {
    let buf = vec![0x78, 0x56, 0x34, 0x12, 0xfe, 0xff, 0xff, 0xff];
    let page = deserialize(&buf, 2, true, PhysicalType::Int32).unwrap();
    assert!(page.is_sorted());
    match &*page {
        DictPage::Int32(d) => assert_eq!(d.values, vec![0x12345678, -2]),
        other => panic!("{:?}", other),
    }
}

#[test]
fn dict_int64_round_trip() {
    let values = vec![0i64, -1, i64::MAX, i64::MIN, 1 << 40];
    let mut buf = vec![];
    for v in values.iter() {
        buf.extend_from_slice(&v.to_le_bytes());
    }
    let page = deserialize(&buf, values.len(), true, PhysicalType::Int64).unwrap();
    assert_eq!(page.physical_type(), PhysicalType::Int64);
    match &*page {
        DictPage::Int64(d) => assert_eq!(d.values, values),
        other => panic!("{:?}", other),
    }
}

#[test]
fn dict_int96_round_trip() {
    let values = vec![[1u32, 2, 3], [u32::MAX, 0, 0x01020304]];
    let mut buf = vec![];
    for v in values.iter() {
        for w in v.iter() {
            buf.extend_from_slice(&w.to_le_bytes());
        }
    }
    let page = deserialize(&buf, 2, false, PhysicalType::Int96).unwrap();
    assert_eq!(page.physical_type(), PhysicalType::Int96);
    assert_eq!(page.len(), 2);
    match &*page {
        DictPage::Int96(d) => assert_eq!(d.values, values),
        other => panic!("{:?}", other),
    }
}

#[test]
fn dict_float_round_trip() {
    let values = vec![0.0f32, -1.5, f32::MAX, f32::MIN_POSITIVE, f32::INFINITY];
    let mut buf = vec![];
    for v in values.iter() {
        buf.extend_from_slice(&v.to_le_bytes());
    }
    let page = deserialize(&buf, values.len(), false, PhysicalType::Float).unwrap();
    assert_eq!(page.physical_type(), PhysicalType::Float);
    match &*page {
        DictPage::Float(d) => {
            let decoded: Vec<f32> = d.values.iter().map(|bits| f32::from_bits(*bits)).collect();
            assert_eq!(decoded, values);
        }
        other => panic!("{:?}", other),
    }
}

#[test]
fn dict_double_round_trip() {
    let values = vec![0.0f64, 2.25, -1e300, f64::EPSILON];
    let mut buf = vec![];
    for v in values.iter() {
        buf.extend_from_slice(&v.to_le_bytes());
    }
    let page = deserialize(&buf, values.len(), false, PhysicalType::Double).unwrap();
    assert_eq!(page.physical_type(), PhysicalType::Double);
    match &*page {
        DictPage::Double(d) => {
            let decoded: Vec<f64> = d.values.iter().map(|bits| f64::from_bits(*bits)).collect();
            assert_eq!(decoded, values);
        }
        other => panic!("{:?}", other),
    }
}

#[test]
fn dict_binary_round_trip() {
    let values: Vec<Vec<u8>> = vec![b"hello".to_vec(), vec![], b"columnar".to_vec(), vec![0, 255]];
    let mut buf = vec![];
    for v in values.iter() {
        buf.extend_from_slice(&record(v));
    }
    let page = deserialize(&buf, values.len(), false, PhysicalType::ByteArray).unwrap();
    assert_eq!(page.physical_type(), PhysicalType::ByteArray);
    assert_eq!(page.len(), 4);
    match &*page {
        DictPage::ByteArray(d) => assert_eq!(d.values, values),
        other => panic!("{:?}", other),
    }
}

#[test]
fn dict_binary_exact_bytes() {
    let buf = vec![2, 0, 0, 0, b'a', b'b', 0, 0, 0, 0, 1, 0, 0, 0, b'c'];
    let page = deserialize(&buf, 3, false, PhysicalType::ByteArray).unwrap();
    match &*page {
        DictPage::ByteArray(d) => {
            assert_eq!(d.values, vec![b"ab".to_vec(), vec![], b"c".to_vec()])
        }
        other => panic!("{:?}", other),
    }
}

#[test]
fn dict_binary_overrun_is_corrupt() {
    // the second record claims three bytes and has two
    let buf = vec![1, 0, 0, 0, b'a', 3, 0, 0, 0, b'b', b'c'];
    assert_eq!(deserialize(&buf, 2, false, PhysicalType::ByteArray).err(), Some(Error::CorruptData));
    // a third record is declared and its length prefix is cut short
    let buf = vec![1, 0, 0, 0, b'a', 1, 0, 0, 0, b'b', 0, 0];
    assert_eq!(deserialize(&buf, 3, false, PhysicalType::ByteArray).err(), Some(Error::CorruptData));
    assert_eq!(deserialize(&[], 1, false, PhysicalType::ByteArray).err(), Some(Error::CorruptData));
    assert_eq!(
        deserialize(&[255, 255, 255, 255], 1, false, PhysicalType::ByteArray).err(),
        Some(Error::CorruptData)
    );
    assert_eq!(
        deserialize(&[0, 0, 0, 0], usize::MAX, false, PhysicalType::ByteArray).err(),
        Some(Error::CorruptData)
    );
}

#[test]
fn dict_binary_without_values() {
    let page = deserialize(&[], 0, false, PhysicalType::ByteArray).unwrap();
    assert_eq!(page.len(), 0);
}

#[test]
fn dict_fixed_len_round_trip() {
    let values = vec![[1u8, 2, 3], [4, 5, 6], [7, 8, 9], [0, 0, 0]];
    let buf: Vec<u8> = values.iter().flatten().copied().collect();
    let page = deserialize(&buf, 4, true, PhysicalType::FixedLenByteArray(3)).unwrap();
    assert_eq!(page.physical_type(), PhysicalType::FixedLenByteArray(3));
    assert_eq!(page.len(), 4);
    assert!(page.is_sorted());
    match &*page {
        DictPage::FixedLenByteArray(d) => {
            assert_eq!(d.size, 3);
            assert_eq!(d.len, 4);
            let chunks: Vec<&[u8]> = d.values.chunks(d.size).collect();
            assert_eq!(chunks, values.iter().map(|v| &v[..]).collect::<Vec<_>>());
        }
        other => panic!("{:?}", other),
    }
}

#[test]
fn dict_fixed_len_wrong_length_is_corrupt() {
    let buf = vec![0u8; 10];
    assert_eq!(
        deserialize(&buf, 3, false, PhysicalType::FixedLenByteArray(3)).err(),
        Some(Error::CorruptData)
    );
    assert_eq!(
        deserialize(&buf, 4, false, PhysicalType::FixedLenByteArray(3)).err(),
        Some(Error::CorruptData)
    );
    assert_eq!(
        deserialize(&buf, usize::MAX, false, PhysicalType::FixedLenByteArray(usize::MAX)).err(),
        Some(Error::CorruptData)
    );
    assert!(deserialize(&buf, 5, false, PhysicalType::FixedLenByteArray(2)).is_ok());
    assert!(deserialize(&[], 7, false, PhysicalType::FixedLenByteArray(0)).is_ok());
}

#[test]
fn dict_fixed_width_wrong_length_is_corrupt() {
    let buf = vec![0u8; 24];
    assert_eq!(deserialize(&buf, 5, false, PhysicalType::Int32).err(), Some(Error::CorruptData));
    assert_eq!(deserialize(&buf, 7, false, PhysicalType::Int32).err(), Some(Error::CorruptData));
    assert_eq!(deserialize(&buf, 2, false, PhysicalType::Int64).err(), Some(Error::CorruptData));
    assert_eq!(deserialize(&buf, 3, false, PhysicalType::Int96).err(), Some(Error::CorruptData));
    assert_eq!(deserialize(&buf, 5, false, PhysicalType::Float).err(), Some(Error::CorruptData));
    assert_eq!(deserialize(&buf, 4, false, PhysicalType::Double).err(), Some(Error::CorruptData));
    assert_eq!(deserialize(&buf[..23], 6, false, PhysicalType::Int32).err(), Some(Error::CorruptData));
    assert!(deserialize(&buf, 6, false, PhysicalType::Int32).is_ok());
    assert!(deserialize(&buf, 3, false, PhysicalType::Int64).is_ok());
    assert!(deserialize(&buf, 2, false, PhysicalType::Int96).is_ok());
    assert!(deserialize(&buf, 6, false, PhysicalType::Float).is_ok());
    assert!(deserialize(&buf, 3, false, PhysicalType::Double).is_ok());
}

#[test]
fn dict_boolean_is_out_of_spec() {
    assert_eq!(deserialize(&[], 0, false, PhysicalType::Boolean).err(), Some(Error::OutOfSpec));
    assert_eq!(deserialize(&[1, 0, 1], 3, true, PhysicalType::Boolean).err(), Some(Error::OutOfSpec));
    let page = EncodedDictPage::new(vec![0xff; 16], 16);
    let r = read_dict_page(&page, (Compression::Uncompressed, 16), false, PhysicalType::Boolean, &Spaced);
    assert_eq!(r.err(), Some(Error::OutOfSpec));
    let page = EncodedDictPage::new(spaced(&[1, 0]), 2);
    let r = read_dict_page(&page, (Compression::Snappy, 2), false, PhysicalType::Boolean, &Spaced);
    assert_eq!(r.err(), Some(Error::OutOfSpec));
    // the type is refused before the codec is asked: its failure is never seen
    let r = read_dict_page(&page, (Compression::Gzip, 2), false, PhysicalType::Boolean, &Spaced);
    assert_eq!(r.err(), Some(Error::OutOfSpec));
    let r = read_dict_page(&page, (Compression::Snappy, 7), true, PhysicalType::Boolean, &Spaced);
    assert_eq!(r.err(), Some(Error::OutOfSpec));
    let r = read_dict_page(&page, (Compression::Zstd, 4), true, PhysicalType::Boolean, &Overflowing);
    assert_eq!(r.err(), Some(Error::OutOfSpec));
    // of any other type the codec's failure comes back
    let r = read_dict_page(&page, (Compression::Gzip, 2), false, PhysicalType::Int32, &Spaced);
    assert_eq!(r.err(), Some(Error::Io));
}

#[test]
fn read_uncompressed_dict_page() {
    let page = EncodedDictPage::new(vec![7, 0, 0, 0, 9, 0, 0, 0], 2);
    // the declared size plays no part for an uncompressed page
    let r = read_dict_page(&page, (Compression::Uncompressed, 0), false, PhysicalType::Int32, &Spaced)
        .unwrap();
    match &*r {
        DictPage::Int32(d) => assert_eq!(d.values, vec![7, 9]),
        other => panic!("{:?}", other),
    }
}

#[test]
fn read_compressed_dict_page() {
    let plain = vec![7, 0, 0, 0, 9, 0, 0, 0];
    let page = EncodedDictPage::new(spaced(&plain), 2);
    let r = read_dict_page(&page, (Compression::Snappy, 8), true, PhysicalType::Int32, &Spaced)
        .unwrap();
    assert!(r.is_sorted());
    match &*r {
        DictPage::Int32(d) => assert_eq!(d.values, vec![7, 9]),
        other => panic!("{:?}", other),
    }
}

#[test]
fn read_compressed_dict_page_codec_fails() {
    let page = EncodedDictPage::new(spaced(&[7, 0, 0, 0]), 1);
    let r = read_dict_page(&page, (Compression::Gzip, 4), false, PhysicalType::Int32, &Spaced);
    assert_eq!(r.err(), Some(Error::Io));
    let r = read_dict_page(&page, (Compression::Snappy, 5), false, PhysicalType::Int32, &Spaced);
    assert_eq!(r.err(), Some(Error::CorruptData));
}

#[test]
fn read_compressed_dict_page_codec_overflows() {
    let page = EncodedDictPage::new(vec![7, 0, 0, 0], 1);
    let r = read_dict_page(&page, (Compression::Zstd, 4), false, PhysicalType::Int32, &Overflowing);
    assert_eq!(r.err(), Some(Error::CorruptData));
}

#[test]
fn dict_page_constructors() {
    let page = EncodedDictPage::new(vec![1, 2, 3], 5);
    assert_eq!(page.buffer, vec![1, 2, 3]);
    assert_eq!(page.num_values, 5);
    let page = CompressedDictPage::new(vec![4, 5], Compression::Zstd, 40, 10);
    assert_eq!(page.buffer, vec![4, 5]);
    assert_eq!(page.compression(), Compression::Zstd);
    assert_eq!(page.uncompressed_page_size, 40);
    assert_eq!(page.num_values, 10);
}

fn round_trip(page: DictPage) -> (Vec<u8>, std::sync::Arc<DictPage>) {
    let buf = serialize(&page).unwrap();
    let back = deserialize(&buf, page.len(), page.is_sorted(), page.physical_type()).unwrap();
    assert_eq!(back.len(), page.len());
    assert_eq!(back.is_sorted(), page.is_sorted());
    assert_eq!(back.physical_type(), page.physical_type());
    (buf, back)
}

#[test]
fn serialize_int32_then_deserialize() {
    let values = vec![0x12345678, -2, 0, i32::MIN];
    let (buf, back) = round_trip(DictPage::Int32(PrimitivePageDict::new(values.clone(), true)));
    assert_eq!(
        buf,
        vec![0x78, 0x56, 0x34, 0x12, 0xfe, 0xff, 0xff, 0xff, 0, 0, 0, 0, 0, 0, 0, 0x80]
    );
    match &*back {
        DictPage::Int32(d) => assert_eq!(d.values(), &values[..]),
        other => panic!("{:?}", other),
    }
}

#[test]
fn serialize_int64_then_deserialize() {
    let values = vec![-3i64, 1 << 33, i64::MAX];
    let (buf, back) = round_trip(DictPage::Int64(PrimitivePageDict::new(values.clone(), false)));
    assert_eq!(buf.len(), 24);
    assert_eq!(&buf[..8], &[0xfd, 0xff, 0xff, 0xff, 0xff, 0xff, 0xff, 0xff]);
    match &*back {
        DictPage::Int64(d) => assert_eq!(d.values, values),
        other => panic!("{:?}", other),
    }
}

#[test]
fn serialize_int96_then_deserialize() {
    let values = vec![[1u32, 2, 3], [0xdeadbeef, 0, u32::MAX]];
    let (buf, back) = round_trip(DictPage::Int96(PrimitivePageDict::new(values.clone(), false)));
    assert_eq!(&buf[..12], &[1, 0, 0, 0, 2, 0, 0, 0, 3, 0, 0, 0]);
    assert_eq!(&buf[12..16], &[0xef, 0xbe, 0xad, 0xde]);
    match &*back {
        DictPage::Int96(d) => assert_eq!(d.values, values),
        other => panic!("{:?}", other),
    }
}

#[test]
fn serialize_float_and_double_then_deserialize() {
    let floats = vec![1.5f32.to_bits(), (-0.0f32).to_bits(), f32::NAN.to_bits()];
    let (buf, back) = round_trip(DictPage::Float(PrimitivePageDict::new(floats.clone(), false)));
    assert_eq!(&buf[..4], &1.5f32.to_le_bytes());
    match &*back {
        DictPage::Float(d) => assert_eq!(d.values, floats),
        other => panic!("{:?}", other),
    }
    let doubles = vec![2.5f64.to_bits(), f64::MIN.to_bits()];
    let (buf, back) = round_trip(DictPage::Double(PrimitivePageDict::new(doubles.clone(), true)));
    assert_eq!(&buf[..8], &2.5f64.to_le_bytes());
    match &*back {
        DictPage::Double(d) => assert_eq!(d.values, doubles),
        other => panic!("{:?}", other),
    }
}

#[test]
fn serialize_binary_then_deserialize() {
    let values = vec![b"ab".to_vec(), vec![], b"c".to_vec()];
    let page = DictPage::ByteArray(BinaryPageDict { values: values.clone(), is_sorted: false });
    let (buf, back) = round_trip(page);
    assert_eq!(buf, vec![2, 0, 0, 0, b'a', b'b', 0, 0, 0, 0, 1, 0, 0, 0, b'c']);
    match &*back {
        DictPage::ByteArray(d) => {
            assert_eq!(d.values, values);
            assert_eq!(d.value(0), b"ab");
            assert_eq!(d.value(2), b"c");
        }
        other => panic!("{:?}", other),
    }
}

#[test]
fn serialize_fixed_len_then_deserialize() {
    let page = DictPage::FixedLenByteArray(FixedLenByteArrayPageDict {
        values: vec![1, 2, 3, 4, 5, 6],
        size: 2,
        len: 3,
        is_sorted: true,
    });
    let (buf, back) = round_trip(page);
    assert_eq!(buf, vec![1, 2, 3, 4, 5, 6]);
    match &*back {
        DictPage::FixedLenByteArray(d) => {
            assert_eq!(d.value(0), &[1, 2]);
            assert_eq!(d.value(1), &[3, 4]);
            assert_eq!(d.value(2), &[5, 6]);
        }
        other => panic!("{:?}", other),
    }
}

#[test]
fn serialize_refuses_fixed_len_values_that_do_not_fill() {
    let page = DictPage::FixedLenByteArray(FixedLenByteArrayPageDict {
        values: vec![1, 2, 3, 4, 5],
        size: 2,
        len: 3,
        is_sorted: false,
    });
    assert_eq!(serialize(&page), Err(Error::InvalidParameter));
    let page = DictPage::FixedLenByteArray(FixedLenByteArrayPageDict {
        values: vec![],
        size: usize::MAX,
        len: 2,
        is_sorted: false,
    });
    assert_eq!(serialize(&page), Err(Error::InvalidParameter));
}
