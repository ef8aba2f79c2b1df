use vstd::bytes::*;
use vstd::prelude::*;
use crate::error::Error;
use crate::page_dict::{
    chunks, deserialize_spec, int96s, le_words32, le_words64, parse_binary, DictPage,
    DictPageView, DictValues,
};

verus! {

/// The bytes of `words`, each as four little-endian bytes.
pub open spec fn encode_words32(words: Seq<u32>) -> Seq<u8> {
    Seq::new(4 * words.len(), |k: int| spec_u32_to_le_bytes(words[k / 4])[k % 4])
}

/// The bytes of `words`, each as eight little-endian bytes.
pub open spec fn encode_words64(words: Seq<u64>) -> Seq<u8> {
    Seq::new(8 * words.len(), |k: int| spec_u64_to_le_bytes(words[k / 8])[k % 8])
}

/// The words of `values`, three for each, lowest first.
pub open spec fn int96_words(values: Seq<[u32; 3]>) -> Seq<u32> {
    Seq::new(3 * values.len(), |k: int| values[k / 3][k % 3])
}

/// Each value as a record: its length in four little-endian bytes, then its bytes.
pub open spec fn encode_binary(values: Seq<Seq<u8>>) -> Seq<u8>
    decreases values.len(),
{
    if values.len() == 0 {
        Seq::empty()
    } else {
        spec_u32_to_le_bytes(values[0].len() as u32) + values[0] + encode_binary(values.skip(1))
    }
}

/// The values end to end.
pub open spec fn encode_fixed(values: Seq<Seq<u8>>) -> Seq<u8>
    decreases values.len(),
{
    if values.len() == 0 {
        Seq::empty()
    } else {
        encode_fixed(values.drop_last()) + values.last()
    }
}

/// The buffer of the dictionary page that holds `values`.
pub open spec fn encode_spec(values: DictValues) -> Seq<u8> {
    match values {
        DictValues::Int32(v) => encode_words32(v.map_values(|x: i32| x as u32)),
        DictValues::Int64(v) => encode_words64(v.map_values(|x: i64| x as u64)),
        DictValues::Int96(v) => encode_words32(int96_words(v)),
        DictValues::Float(v) => encode_words32(v),
        DictValues::Double(v) => encode_words64(v),
        DictValues::ByteArray(v) => encode_binary(v),
        DictValues::FixedLenByteArray(_, v) => encode_fixed(v),
    }
}

/// The values can stand in one page: their count fits the page's counter,
/// every byte string's length fits its 32-bit prefix, and byte strings of a
/// fixed length have that length.
pub open spec fn encodable(values: DictValues) -> bool {
    &&& values.len() <= usize::MAX
    &&& match values {
        DictValues::ByteArray(v) => forall|i: int| 0 <= i < v.len() ==> (#[trigger] v[i]).len() <= u32::MAX,
        DictValues::FixedLenByteArray(size, v) => forall|i: int|
            0 <= i < v.len() ==> (#[trigger] v[i]).len() == size,
        _ => true,
    }
}

proof fn lemma_words32_round_trip(words: Seq<u32>)
    ensures
        encode_words32(words).len() == 4 * words.len(),
        le_words32(encode_words32(words)) == words,
{
    lemma_auto_spec_u32_to_from_le_bytes();
    let buf = encode_words32(words);
    assert forall|i: int| 0 <= i < words.len() implies le_words32(buf)[i] == words[i] by {
        assert(buf.subrange(4 * i, 4 * i + 4) =~= spec_u32_to_le_bytes(words[i]));
    }
    assert(le_words32(buf) =~= words);
}

proof fn lemma_words64_round_trip(words: Seq<u64>)
    ensures
        encode_words64(words).len() == 8 * words.len(),
        le_words64(encode_words64(words)) == words,
{
    lemma_auto_spec_u64_to_from_le_bytes();
    let buf = encode_words64(words);
    assert forall|i: int| 0 <= i < words.len() implies le_words64(buf)[i] == words[i] by {
        assert(buf.subrange(8 * i, 8 * i + 8) =~= spec_u64_to_le_bytes(words[i]));
    }
    assert(le_words64(buf) =~= words);
}

proof fn lemma_binary_round_trip(values: Seq<Seq<u8>>)
    requires
        forall|i: int| 0 <= i < values.len() ==> (#[trigger] values[i]).len() <= u32::MAX,
    ensures
        parse_binary(encode_binary(values), values.len()) == Some(values),
    decreases values.len(),
{
    if values.len() == 0 {
        assert(values =~= Seq::<Seq<u8>>::empty());
    } else {
        lemma_auto_spec_u32_to_from_le_bytes();
        let first = values[0];
        let prefix = spec_u32_to_le_bytes(first.len() as u32);
        let rest = values.skip(1);
        let buf = encode_binary(values);
        lemma_binary_round_trip(rest);
        assert(buf.subrange(0, 4) =~= prefix);
        assert(buf.subrange(4, 4 + first.len() as int) =~= first);
        assert(buf.skip(4 + first.len() as int) =~= encode_binary(rest));
        assert(seq![first] + rest =~= values);
    }
}

proof fn lemma_fixed_round_trip(values: Seq<Seq<u8>>, size: int)
    requires
        size >= 0,
        forall|i: int| 0 <= i < values.len() ==> (#[trigger] values[i]).len() == size,
    ensures
        encode_fixed(values).len() == size * values.len(),
        chunks(encode_fixed(values), size, values.len() as int) == values,
    decreases values.len(),
{
    let n = values.len() as int;
    let buf = encode_fixed(values);
    if n == 0 {
        assert(chunks(buf, size, n) =~= values);
    } else {
        let front = values.drop_last();
        lemma_fixed_round_trip(front, size);
        assert(size * (n - 1) + size == size * n) by (nonlinear_arith);
        assert forall|i: int| 0 <= i < n implies chunks(buf, size, n)[i] == values[i] by {
            if i < n - 1 {
                assert(0 <= i * size <= (i + 1) * size <= size * (n - 1)) by (nonlinear_arith)
                    requires
                        0 <= i < n - 1,
                        size >= 0,
                ;
                assert(chunks(encode_fixed(front), size, n - 1)[i] == front[i]);
                assert(buf.subrange(i * size, (i + 1) * size) =~= encode_fixed(front).subrange(
                    i * size,
                    (i + 1) * size,
                ));
            } else {
                assert(i * size == size * (n - 1) && (i + 1) * size == size * n)
                    by (nonlinear_arith)
                    requires
                        i == n - 1,
                ;
                assert(buf.subrange(i * size, (i + 1) * size) =~= values.last());
            }
        }
        assert(chunks(buf, size, n) =~= values);
    }
}

/// Decoding the page that holds `values` gives `values` back, for each
/// physical type and whatever the page says of its order.
pub proof fn lemma_dict_round_trip(values: DictValues, is_sorted: bool)
    requires
        encodable(values),
    ensures
        deserialize_spec(
            encode_spec(values),
            values.len() as usize,
            is_sorted,
            values.physical_type(),
        ) == Ok::<DictPageView, Error>(DictPageView { values, is_sorted }),
{
    match values {
        DictValues::Int32(v) => {
            let words = v.map_values(|x: i32| x as u32);
            lemma_words32_round_trip(words);
            assert forall|i: int| 0 <= i < v.len() implies (words[i] as i32) == v[i] by {
                let x = v[i];
                assert(((x as u32) as i32) == x) by (bit_vector);
            }
            assert(words.map_values(|w: u32| w as i32) =~= v);
        },
        DictValues::Int64(v) => {
            let words = v.map_values(|x: i64| x as u64);
            lemma_words64_round_trip(words);
            assert forall|i: int| 0 <= i < v.len() implies (words[i] as i64) == v[i] by {
                let x = v[i];
                assert(((x as u64) as i64) == x) by (bit_vector);
            }
            assert(words.map_values(|w: u64| w as i64) =~= v);
        },
        DictValues::Int96(v) => {
            let words = int96_words(v);
            lemma_words32_round_trip(words);
            assert forall|i: int| 0 <= i < v.len() implies int96s(words)[i] == v[i] by {
                assert(int96s(words)[i]@ =~= v[i]@);
                assert(int96s(words)[i] =~= v[i]);
            }
            assert(int96s(words) =~= v);
        },
        DictValues::Float(v) => {
            lemma_words32_round_trip(v);
        },
        DictValues::Double(v) => {
            lemma_words64_round_trip(v);
        },
        DictValues::ByteArray(v) => {
            lemma_binary_round_trip(v);
        },
        DictValues::FixedLenByteArray(size, v) => {
            lemma_fixed_round_trip(v, size as int);
        },
    }
}

fn write_words32(words: &[u32]) -> (r: Vec<u8>)
    ensures
        r@ == encode_words32(words@),
{
    let mut out: Vec<u8> = Vec::new();
    let mut i: usize = 0;
    while i < words.len()
        invariant
            i <= words.len(),
            out@ == encode_words32(words@.take(i as int)),
        decreases words.len() - i,
    {
        let bytes = u32_to_le_bytes(words[i]);
        assert(out@ + bytes@ =~= encode_words32(words@.take(i as int + 1)));
        out.extend_from_slice(bytes.as_slice());
        i += 1;
    }
    assert(words@.take(i as int) =~= words@);
    out
}

fn write_words64(words: &[u64]) -> (r: Vec<u8>)
    ensures
        r@ == encode_words64(words@),
{
    let mut out: Vec<u8> = Vec::new();
    let mut i: usize = 0;
    while i < words.len()
        invariant
            i <= words.len(),
            out@ == encode_words64(words@.take(i as int)),
        decreases words.len() - i,
    {
        let bytes = u64_to_le_bytes(words[i]);
        assert(out@ + bytes@ =~= encode_words64(words@.take(i as int + 1)));
        out.extend_from_slice(bytes.as_slice());
        i += 1;
    }
    assert(words@.take(i as int) =~= words@);
    out
}

fn write_int32(values: &[i32]) -> (r: Vec<u8>)
    ensures
        r@ == encode_words32(values@.map_values(|x: i32| x as u32)),
{
    let mut words: Vec<u32> = Vec::new();
    let mut i: usize = 0;
    while i < values.len()
        invariant
            i <= values.len(),
            words@.len() == i,
            forall|k: int| 0 <= k < i ==> words@[k] == values@[k] as u32,
        decreases values.len() - i,
    {
        words.push(values[i] as u32);
        i += 1;
    }
    assert(words@ =~= values@.map_values(|x: i32| x as u32));
    write_words32(words.as_slice())
}

fn write_int64(values: &[i64]) -> (r: Vec<u8>)
    ensures
        r@ == encode_words64(values@.map_values(|x: i64| x as u64)),
{
    let mut words: Vec<u64> = Vec::new();
    let mut i: usize = 0;
    while i < values.len()
        invariant
            i <= values.len(),
            words@.len() == i,
            forall|k: int| 0 <= k < i ==> words@[k] == values@[k] as u64,
        decreases values.len() - i,
    {
        words.push(values[i] as u64);
        i += 1;
    }
    assert(words@ =~= values@.map_values(|x: i64| x as u64));
    write_words64(words.as_slice())
}

fn write_int96(values: &[[u32; 3]]) -> (r: Vec<u8>)
    ensures
        r@ == encode_words32(int96_words(values@)),
{
    let mut words: Vec<u32> = Vec::new();
    let mut i: usize = 0;
    while i < values.len()
        invariant
            i <= values.len(),
            words@ == int96_words(values@.take(i as int)),
        decreases values.len() - i,
    {
        let value = values[i];
        assert(words@.push(value[0]).push(value[1]).push(value[2]) =~= int96_words(
            values@.take(i as int + 1),
        ));
        words.push(value[0]);
        words.push(value[1]);
        words.push(value[2]);
        i += 1;
    }
    assert(values@.take(i as int) =~= values@);
    write_words32(words.as_slice())
}

proof fn lemma_encode_binary_push(values: Seq<Seq<u8>>, value: Seq<u8>)
    ensures
        encode_binary(values.push(value)) == encode_binary(values) + spec_u32_to_le_bytes(
            value.len() as u32,
        ) + value,
    decreases values.len(),
{
    let prefix = spec_u32_to_le_bytes(value.len() as u32);
    let all = values.push(value);
    if values.len() == 0 {
        assert(all.skip(1) =~= Seq::<Seq<u8>>::empty());
        assert(encode_binary(all.skip(1)) =~= Seq::<u8>::empty());
        assert(encode_binary(all) =~= encode_binary(values) + prefix + value);
    } else {
        lemma_encode_binary_push(values.skip(1), value);
        assert(all.skip(1) =~= values.skip(1).push(value));
        assert(encode_binary(all) =~= encode_binary(values) + prefix + value);
    }
}

fn write_binary(values: &Vec<Vec<u8>>) -> (r: Option<Vec<u8>>)
    ensures
        match r {
            Some(buf) => {
                &&& buf@ == encode_binary(values@.map_values(|v: Vec<u8>| v@))
                &&& forall|i: int| 0 <= i < values@.len() ==> (#[trigger] values@[i])@.len() <= u32::MAX
            },
            None => exists|i: int| 0 <= i < values@.len() && (#[trigger] values@[i])@.len() > u32::MAX,
        },
{
    let ghost all = values@.map_values(|v: Vec<u8>| v@);
    let mut out: Vec<u8> = Vec::new();
    let mut i: usize = 0;
    while i < values.len()
        invariant
            i <= values.len(),
            all == values@.map_values(|v: Vec<u8>| v@),
            out@ == encode_binary(all.take(i as int)),
            forall|k: int| 0 <= k < i ==> (#[trigger] values@[k])@.len() <= u32::MAX,
        decreases values.len() - i,
    {
        let value = &values[i];
        if value.len() > 0xffff_ffff {
            return None;
        }
        let prefix = u32_to_le_bytes(value.len() as u32);
        proof {
            lemma_encode_binary_push(all.take(i as int), value@);
            assert(all.take(i as int + 1) =~= all.take(i as int).push(value@));
        }
        out.extend_from_slice(prefix.as_slice());
        out.extend_from_slice(value.as_slice());
        i += 1;
    }
    assert(all.take(i as int) =~= all);
    Some(out)
}

proof fn lemma_encode_chunks(buf: Seq<u8>, size: int, count: int)
    requires
        size >= 0,
        count >= 0,
        buf.len() == size * count,
    ensures
        encode_fixed(chunks(buf, size, count)) == buf,
    decreases count,
{
    let pieces = chunks(buf, size, count);
    if count == 0 {
        assert(size * count == 0) by (nonlinear_arith)
            requires
                count == 0,
        ;
        assert(buf =~= Seq::<u8>::empty());
    } else {
        assert(size * (count - 1) + size == size * count && 0 <= size * (count - 1) && (count - 1)
            * size == size * (count - 1) && count * size == size * count) by (nonlinear_arith)
            requires
                size >= 0,
                count >= 1,
        ;
        let front = buf.take(size * (count - 1));
        lemma_encode_chunks(front, size, count - 1);
        assert forall|i: int| 0 <= i < count - 1 implies pieces.drop_last()[i] == chunks(
            front,
            size,
            count - 1,
        )[i] by {
            assert(0 <= i * size <= (i + 1) * size <= size * (count - 1)) by (nonlinear_arith)
                requires
                    0 <= i < count - 1,
                    size >= 0,
            ;
            assert(buf.subrange(i * size, (i + 1) * size) =~= front.subrange(
                i * size,
                (i + 1) * size,
            ));
        }
        assert(pieces.drop_last() =~= chunks(front, size, count - 1));
        assert(front + pieces.last() =~= buf);
    }
}

proof fn lemma_count_fits(page: DictPage)
    ensures
        page@.values.len() <= usize::MAX,
{
    match page {
        DictPage::Int32(d) => assert(d.values.len() == d.values@.len()),
        DictPage::Int64(d) => assert(d.values.len() == d.values@.len()),
        DictPage::Int96(d) => assert(d.values.len() == d.values@.len()),
        DictPage::Float(d) => assert(d.values.len() == d.values@.len()),
        DictPage::Double(d) => assert(d.values.len() == d.values@.len()),
        DictPage::ByteArray(d) => assert(d.values.len() == d.values@.len()),
        DictPage::FixedLenByteArray(_) => {},
    }
}

/// What [`serialize`] returns for `page`.
pub open spec fn serialize_spec(page: DictPage) -> Result<Seq<u8>, Error> {
    if page.wf() && encodable(page@.values) {
        Ok(encode_spec(page@.values))
    } else {
        Err(Error::InvalidParameter)
    }
}

/// Writes the buffer of the dictionary page that holds the values of `page`:
/// what [`crate::page_dict::deserialize`] reads them back from. A page whose
/// values cannot stand in a buffer is refused: a byte string too long for its
/// length prefix, or fixed-length values that do not fill their bytes.
pub fn serialize(page: &DictPage) -> (r: Result<Vec<u8>, Error>)
    ensures
        match r {
            Ok(buf) => serialize_spec(*page) == Ok::<Seq<u8>, Error>(buf@),
            Err(e) => serialize_spec(*page) == Err::<Seq<u8>, Error>(e),
        },
{
    proof {
        lemma_count_fits(*page);
    }
    match page {
        DictPage::Int32(d) => Ok(write_int32(d.values.as_slice())),
        DictPage::Int64(d) => Ok(write_int64(d.values.as_slice())),
        DictPage::Int96(d) => Ok(write_int96(d.values.as_slice())),
        DictPage::Float(d) => Ok(write_words32(d.values.as_slice())),
        DictPage::Double(d) => Ok(write_words64(d.values.as_slice())),
        DictPage::ByteArray(d) => {
            let ghost all = d.values@.map_values(|v: Vec<u8>| v@);
            match write_binary(&d.values) {
                Some(buf) => {
                    assert forall|i: int| 0 <= i < all.len() implies (#[trigger] all[i]).len()
                        <= u32::MAX by {
                        assert(all[i] == d.values@[i]@);
                    }
                    Ok(buf)
                },
                None => {
                    proof {
                        let i = choose|i: int|
                            0 <= i < d.values@.len() && (#[trigger] d.values@[i])@.len() > u32::MAX;
                        assert(all[i].len() > u32::MAX);
                    }
                    Err(Error::InvalidParameter)
                },
            }
        },
        DictPage::FixedLenByteArray(d) => {
            let have: usize = d.values.len();
            let fits = match d.size.checked_mul(d.len) {
                Some(total) => total == have,
                None => false,
            };
            if fits {
                proof {
                    lemma_encode_chunks(d.values@, d.size as int, d.len as int);
                    assert forall|i: int| 0 <= i < d.len implies (#[trigger] chunks(
                        d.values@,
                        d.size as int,
                        d.len as int,
                    )[i]).len() == d.size by {
                        assert(0 <= i * d.size <= (i + 1) * d.size <= d.size * d.len && (i + 1)
                            * d.size - i * d.size == d.size) by (nonlinear_arith)
                            requires
                                0 <= i < d.len,
                                0 <= d.size,
                        ;
                    }
                }
                Ok(vstd::slice::slice_to_vec(d.values.as_slice()))
            } else {
                Err(Error::InvalidParameter)
            }
        },
    }
}

/// What [`serialize`] writes for a page, [`crate::page_dict::deserialize`]
/// reads back as the same page.
pub proof fn lemma_serialize_round_trip(page: DictPage)
    requires
        serialize_spec(page) is Ok,
    ensures
        deserialize_spec(
            serialize_spec(page).unwrap(),
            page@.values.len() as usize,
            page@.is_sorted,
            page@.values.physical_type(),
        ) == Ok::<DictPageView, Error>(page@),
{
    lemma_dict_round_trip(page@.values, page@.is_sorted);
}

} // verus!
