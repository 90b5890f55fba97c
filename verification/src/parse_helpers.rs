//! Fields and groups of fields: a byte range cut into chunks of one width,
//! each chunk decoded in the same way.

use crate::error::BdfError;
use crate::sample::{decode_sample_24le, sample_field};
use crate::text::{
    decode_decimal_i64, decode_decimal_u64, decode_text, i64_field, text_field, u64_field,
};
use vstd::prelude::*;
use vstd::slice::*;

verus! {

/// The `width` bytes of `input` from `offset` on.
pub open spec fn field(input: Seq<u8>, offset: int, width: int) -> Seq<u8> {
    input.subrange(offset, offset + width)
}

/// The `i`-th chunk of `bytes` when it is cut into chunks of `width` bytes.
pub open spec fn chunk(bytes: Seq<u8>, width: nat, i: int) -> Seq<u8> {
    bytes.subrange(i * width, (i + 1) * width)
}

/// The chunks of `width` bytes that `bytes` consists of, in order. There are
/// none where `width` is zero or does not divide the length of `bytes`.
pub open spec fn fixed_width_chunks(bytes: Seq<u8>, width: nat) -> Result<Seq<Seq<u8>>, BdfError> {
    if width > 0 && bytes.len() % width == 0 {
        Ok(Seq::new(bytes.len() / width, |i: int| chunk(bytes, width, i)))
    } else {
        Err(BdfError::InvalidLength)
    }
}

/// The values of all `chunks` under `decode`, in order. Where a chunk fails
/// to decode, the result is the error of the first that fails. The lemmas
/// of this module say what follows from this definition, so that it need
/// not be unfolded elsewhere.
#[verifier::opaque]
pub open spec fn decode_all<T>(
    chunks: Seq<Seq<u8>>,
    decode: spec_fn(Seq<u8>) -> Result<T, BdfError>,
) -> Result<Seq<T>, BdfError>
    decreases chunks.len(),
{
    if chunks.len() == 0 {
        Ok(Seq::empty())
    } else {
        match decode_all(chunks.drop_last(), decode) {
            Err(e) => Err(e),
            Ok(values) => match decode(chunks.last()) {
                Ok(v) => Ok(values.push(v)),
                Err(e) => Err(e),
            },
        }
    }
}

/// The values of a group of fields of `width` bytes each.
pub open spec fn decode_group<T>(
    bytes: Seq<u8>,
    width: nat,
    decode: spec_fn(Seq<u8>) -> Result<T, BdfError>,
) -> Result<Seq<T>, BdfError> {
    match fixed_width_chunks(bytes, width) {
        Err(e) => Err(e),
        Ok(chunks) => decode_all(chunks, decode),
    }
}

/// How a text field is decoded.
pub open spec fn text_decoder() -> spec_fn(Seq<u8>) -> Result<Seq<char>, BdfError> {
    |bytes: Seq<u8>| text_field(bytes)
}

/// How a signed integer field is decoded.
pub open spec fn i64_decoder() -> spec_fn(Seq<u8>) -> Result<i64, BdfError> {
    |bytes: Seq<u8>| i64_field(bytes)
}

/// How an unsigned integer field is decoded.
pub open spec fn u64_decoder() -> spec_fn(Seq<u8>) -> Result<u64, BdfError> {
    |bytes: Seq<u8>| u64_field(bytes)
}

/// How a sample is decoded.
pub open spec fn sample_decoder() -> spec_fn(Seq<u8>) -> Result<i32, BdfError> {
    |bytes: Seq<u8>| sample_field(bytes)
}

/// What a group of text fields of `width` bytes each holds.
pub open spec fn text_fields(bytes: Seq<u8>, width: nat) -> Result<Seq<Seq<char>>, BdfError> {
    decode_group(bytes, width, text_decoder())
}

/// What a group of signed integer fields of `width` bytes each holds.
pub open spec fn i64_fields(bytes: Seq<u8>, width: nat) -> Result<Seq<i64>, BdfError> {
    decode_group(bytes, width, i64_decoder())
}

/// What a group of unsigned integer fields of `width` bytes each holds.
pub open spec fn u64_fields(bytes: Seq<u8>, width: nat) -> Result<Seq<u64>, BdfError> {
    decode_group(bytes, width, u64_decoder())
}

/// What a run of samples holds that is cut into chunks of `width` bytes.
pub open spec fn sample_fields(bytes: Seq<u8>, width: nat) -> Result<Seq<i32>, BdfError> {
    decode_group(bytes, width, sample_decoder())
}

/// The byte sequences that the slices stand for.
pub open spec fn slice_views(slices: Seq<&[u8]>) -> Seq<Seq<u8>> {
    Seq::new(slices.len(), |i: int| slices[i]@)
}

/// The character sequences that the strings stand for.
pub open spec fn text_views(texts: Seq<String>) -> Seq<Seq<char>> {
    Seq::new(texts.len(), |i: int| texts[i]@)
}

/// No chunks give no values.
pub proof fn lemma_decode_all_none<T>(decode: spec_fn(Seq<u8>) -> Result<T, BdfError>)
    ensures
        decode_all(Seq::empty(), decode) == Ok::<Seq<T>, BdfError>(Seq::empty()),
{
    reveal(decode_all);
}

/// Decoding one chunk more: the chunks so far decide first, then the new
/// one.
pub proof fn lemma_decode_all_step<T>(
    chunks: Seq<Seq<u8>>,
    decode: spec_fn(Seq<u8>) -> Result<T, BdfError>,
    i: int,
)
    requires
        0 <= i < chunks.len(),
    ensures
        decode_all(chunks.take(i + 1), decode) == match decode_all(chunks.take(i), decode) {
            Err(e) => Err(e),
            Ok(values) => match decode(chunks[i]) {
                Ok(v) => Ok(values.push(v)),
                Err(e) => Err(e),
            },
        },
{
    reveal(decode_all);
    assert(chunks.take(i + 1).drop_last() =~= chunks.take(i));
    assert(chunks.take(i + 1).last() == chunks[i]);
}

/// Once some chunk has failed, more chunks do not change the error.
pub proof fn lemma_decode_all_error_stays<T>(
    chunks: Seq<Seq<u8>>,
    decode: spec_fn(Seq<u8>) -> Result<T, BdfError>,
    k: int,
)
    requires
        0 <= k <= chunks.len(),
        decode_all(chunks.take(k), decode) is Err,
    ensures
        decode_all(chunks, decode) == decode_all(chunks.take(k), decode),
    decreases chunks.len() - k,
{
    if k == chunks.len() {
        assert(chunks.take(k) =~= chunks);
    } else {
        lemma_decode_all_step(chunks, decode, k);
        lemma_decode_all_error_stays(chunks, decode, k + 1);
    }
}

/// Where all chunks decode, there is one value for each chunk, and it is
/// the value of that chunk.
pub proof fn lemma_decode_all_values<T>(
    chunks: Seq<Seq<u8>>,
    decode: spec_fn(Seq<u8>) -> Result<T, BdfError>,
)
    requires
        decode_all(chunks, decode) is Ok,
    ensures
        decode_all(chunks, decode)->Ok_0.len() == chunks.len(),
        forall|i: int|
            0 <= i < chunks.len() ==> decode(#[trigger] chunks[i]) == Ok::<T, BdfError>(
                decode_all(chunks, decode)->Ok_0[i],
            ),
    decreases chunks.len(),
{
    reveal(decode_all);
    if chunks.len() > 0 {
        lemma_decode_all_values(chunks.drop_last(), decode);
        let front = decode_all(chunks.drop_last(), decode)->Ok_0;
        let all = decode_all(chunks, decode)->Ok_0;
        assert forall|i: int| 0 <= i < chunks.len() implies decode(#[trigger] chunks[i]) == Ok::<
            T,
            BdfError,
        >(all[i]) by {
            if i < chunks.len() - 1 {
                assert(chunks[i] == chunks.drop_last()[i]);
                assert(all[i] == front[i]);
            }
        }
    }
}

/// Where every chunk decodes, the group decodes.
pub proof fn lemma_decode_all_succeeds<T>(
    chunks: Seq<Seq<u8>>,
    decode: spec_fn(Seq<u8>) -> Result<T, BdfError>,
)
    requires
        forall|i: int| 0 <= i < chunks.len() ==> decode(#[trigger] chunks[i]) is Ok,
    ensures
        decode_all(chunks, decode) is Ok,
    decreases chunks.len(),
{
    reveal(decode_all);
    if chunks.len() > 0 {
        assert forall|i: int| 0 <= i < chunks.drop_last().len() implies decode(
            #[trigger] chunks.drop_last()[i],
        ) is Ok by {
            assert(chunks.drop_last()[i] == chunks[i]);
        }
        lemma_decode_all_succeeds(chunks.drop_last(), decode);
        assert(chunks.last() == chunks[chunks.len() - 1]);
    }
}

/// Where a group fails, some chunk fails with that error, and every chunk
/// before it decodes.
pub proof fn lemma_decode_all_first_error<T>(
    chunks: Seq<Seq<u8>>,
    decode: spec_fn(Seq<u8>) -> Result<T, BdfError>,
) -> (i: int)
    requires
        decode_all(chunks, decode) is Err,
    ensures
        0 <= i < chunks.len(),
        decode(chunks[i]) == Err::<T, BdfError>(decode_all(chunks, decode)->Err_0),
        forall|j: int| 0 <= j < i ==> decode(#[trigger] chunks[j]) is Ok,
    decreases chunks.len(),
{
    reveal(decode_all);
    let front = chunks.drop_last();
    if decode_all(front, decode) is Err {
        let i = lemma_decode_all_first_error(front, decode);
        assert(front[i] == chunks[i]);
        assert forall|j: int| 0 <= j < i implies decode(#[trigger] chunks[j]) is Ok by {
            assert(front[j] == chunks[j]);
        }
        i
    } else {
        lemma_decode_all_values(front, decode);
        assert forall|j: int| 0 <= j < chunks.len() - 1 implies decode(
            #[trigger] chunks[j],
        ) is Ok by {
            assert(front[j] == chunks[j]);
        }
        chunks.len() - 1
    }
}

/// A group that decodes has one value for each of its chunks, and it is the
/// value of that chunk.
pub proof fn lemma_group_values<T>(
    bytes: Seq<u8>,
    width: nat,
    decode: spec_fn(Seq<u8>) -> Result<T, BdfError>,
)
    requires
        decode_group(bytes, width, decode) is Ok,
    ensures
        width > 0,
        bytes.len() % width == 0,
        decode_group(bytes, width, decode)->Ok_0.len() == bytes.len() / width,
        forall|i: int|
            0 <= i < bytes.len() / width ==> decode(#[trigger] chunk(bytes, width, i)) == Ok::<
                T,
                BdfError,
            >(decode_group(bytes, width, decode)->Ok_0[i]),
{
    let chunks = fixed_width_chunks(bytes, width)->Ok_0;
    lemma_decode_all_values(chunks, decode);
    assert forall|i: int| 0 <= i < bytes.len() / width implies decode(
        #[trigger] chunk(bytes, width, i),
    ) == Ok::<T, BdfError>(decode_group(bytes, width, decode)->Ok_0[i]) by {
        assert(chunks[i] == chunk(bytes, width, i));
    }
}

/// A group of `n` fields that decodes has `n` values.
pub proof fn lemma_group_count<T>(
    bytes: Seq<u8>,
    n: nat,
    width: nat,
    decode: spec_fn(Seq<u8>) -> Result<T, BdfError>,
)
    requires
        width > 0,
        bytes.len() == width * n,
        decode_group(bytes, width, decode) is Ok,
    ensures
        decode_group(bytes, width, decode)->Ok_0.len() == n,
{
    assert((width * n) % width == 0 && (width * n) / width == n) by (nonlinear_arith)
        requires
            width > 0,
    ;
    lemma_decode_all_values(fixed_width_chunks(bytes, width)->Ok_0, decode);
}

/// A byte range whose length is a multiple of `width` is its chunks put
/// together: chunk `i` starts at byte `i * width`.
proof fn lemma_chunk_bounds(len: int, width: int, i: int)
    requires
        width > 0,
        len >= 0,
        len % width == 0,
        0 <= i < len / width,
    ensures
        0 <= i * width,
        i * width + width == (i + 1) * width,
        (i + 1) * width <= len,
{
    assert(len == width * (len / width)) by {
        vstd::arithmetic::div_mod::lemma_fundamental_div_mod(len, width);
    }
    assert(0 <= i * width && i * width + width == (i + 1) * width && (i + 1) * width <= width * (len
        / width)) by (nonlinear_arith)
        requires
            width > 0,
            0 <= i < len / width,
    ;
}

/// Cuts `bytes` into consecutive chunks of `width` bytes. The result is
/// `InvalidLength` where `width` is zero or does not divide the length.
pub fn chunk_fixed_width<'a>(bytes: &'a [u8], width: usize) -> (r: Result<Vec<&'a [u8]>, BdfError>)
    ensures
        match r {
            Ok(chunks) => fixed_width_chunks(bytes@, width as nat) == Ok::<_, BdfError>(
                slice_views(chunks@),
            ),
            Err(e) => fixed_width_chunks(bytes@, width as nat) == Err::<Seq<Seq<u8>>, BdfError>(e),
        },
{
    let len = bytes.len();
    if width == 0 || len % width != 0 {
        return Err(BdfError::InvalidLength);
    }
    let count = len / width;
    let mut chunks: Vec<&'a [u8]> = Vec::with_capacity(count);
    let mut start: usize = 0;
    let mut i: usize = 0;
    while i < count
        invariant
            width > 0,
            len == bytes@.len(),
            len % width == 0,
            count == len / width,
            i <= count,
            start == i * width,
            chunks@.len() == i,
            forall|j: int|
                0 <= j < i ==> (#[trigger] chunks@[j])@ == chunk(bytes@, width as nat, j),
        decreases count - i,
    {
        proof {
            lemma_chunk_bounds(len as int, width as int, i as int);
        }
        let end = start + width;
        chunks.push(slice_subrange(bytes, start, end));
        start = end;
        i = i + 1;
    }
    assert(slice_views(chunks@) =~= fixed_width_chunks(bytes@, width as nat)->Ok_0);
    Ok(chunks)
}

/// Reads `bytes` as UTF-8 text and removes the whitespace at both ends. The
/// result is `EncodingError` where the bytes are not UTF-8.
pub fn string_from(bytes: &[u8]) -> (r: Result<String, BdfError>)
    ensures
        match r {
            Ok(text) => text_field(bytes@) == Ok::<Seq<char>, BdfError>(text@),
            Err(e) => text_field(bytes@) == Err::<Seq<char>, BdfError>(e),
        },
{
    let text = decode_text(bytes)?;
    Ok(text.to_owned())
}

/// Cuts `input` into fields of `size` bytes and decodes each as trimmed
/// text. The result is `InvalidLength` where `size` is zero or does not
/// divide the length of `input`, else `EncodingError` where a field is not
/// UTF-8.
pub fn chunk_string(input: &[u8], size: usize) -> (r: Result<Vec<String>, BdfError>)
    ensures
        match r {
            Ok(texts) => text_fields(input@, size as nat) == Ok::<_, BdfError>(text_views(texts@)),
            Err(e) => text_fields(input@, size as nat) == Err::<Seq<Seq<char>>, BdfError>(e),
        },
{
    let chunks = chunk_fixed_width(input, size)?;
    let ghost all = slice_views(chunks@);
    let mut texts: Vec<String> = Vec::with_capacity(chunks.len());
    let mut i: usize = 0;
    proof {
        lemma_decode_all_none(text_decoder());
        assert(text_views(texts@) =~= Seq::empty());
        assert(all.take(0) =~= Seq::empty());
    }
    while i < chunks.len()
        invariant
            i <= chunks.len(),
            all == slice_views(chunks@),
            fixed_width_chunks(input@, size as nat) == Ok::<_, BdfError>(all),
            decode_all(all.take(i as int), text_decoder()) == Ok::<_, BdfError>(
                text_views(texts@),
            ),
        decreases chunks.len() - i,
    {
        proof {
            lemma_decode_all_step(all, text_decoder(), i as int);
        }
        match string_from(chunks[i]) {
            Ok(text) => {
                let ghost before = text_views(texts@);
                texts.push(text);
                assert(text_views(texts@) =~= before.push(text@));
            },
            Err(e) => {
                proof {
                    lemma_decode_all_error_stays(all, text_decoder(), i + 1);
                }
                return Err(e);
            },
        }
        i = i + 1;
    }
    assert(all.take(i as int) =~= all);
    Ok(texts)
}

/// Cuts `input` into fields of `size` bytes and decodes each as a signed
/// decimal integer. The result is `InvalidLength` where `size` is zero or
/// does not divide the length of `input`, else the error of the first field
/// that does not decode.
pub fn chunk_i64(input: &[u8], size: usize) -> (r: Result<Vec<i64>, BdfError>)
    ensures
        match r {
            Ok(values) => i64_fields(input@, size as nat) == Ok::<_, BdfError>(values@),
            Err(e) => i64_fields(input@, size as nat) == Err::<Seq<i64>, BdfError>(e),
        },
{
    let chunks = chunk_fixed_width(input, size)?;
    let ghost all = slice_views(chunks@);
    let mut values: Vec<i64> = Vec::with_capacity(chunks.len());
    let mut i: usize = 0;
    proof {
        lemma_decode_all_none(i64_decoder());
        assert(all.take(0) =~= Seq::empty());
    }
    while i < chunks.len()
        invariant
            i <= chunks.len(),
            all == slice_views(chunks@),
            fixed_width_chunks(input@, size as nat) == Ok::<_, BdfError>(all),
            decode_all(all.take(i as int), i64_decoder()) == Ok::<_, BdfError>(values@),
        decreases chunks.len() - i,
    {
        proof {
            lemma_decode_all_step(all, i64_decoder(), i as int);
        }
        match decode_decimal_i64(chunks[i]) {
            Ok(v) => {
                values.push(v);
            },
            Err(e) => {
                proof {
                    lemma_decode_all_error_stays(all, i64_decoder(), i + 1);
                }
                return Err(e);
            },
        }
        i = i + 1;
    }
    assert(all.take(i as int) =~= all);
    Ok(values)
}

/// Cuts `input` into fields of `size` bytes and decodes each as an unsigned
/// decimal integer. The result is `InvalidLength` where `size` is zero or
/// does not divide the length of `input`, else the error of the first field
/// that does not decode.
pub fn chunk_u64(input: &[u8], size: usize) -> (r: Result<Vec<u64>, BdfError>)
    ensures
        match r {
            Ok(values) => u64_fields(input@, size as nat) == Ok::<_, BdfError>(values@),
            Err(e) => u64_fields(input@, size as nat) == Err::<Seq<u64>, BdfError>(e),
        },
{
    let chunks = chunk_fixed_width(input, size)?;
    let ghost all = slice_views(chunks@);
    let mut values: Vec<u64> = Vec::with_capacity(chunks.len());
    let mut i: usize = 0;
    proof {
        lemma_decode_all_none(u64_decoder());
        assert(all.take(0) =~= Seq::empty());
    }
    while i < chunks.len()
        invariant
            i <= chunks.len(),
            all == slice_views(chunks@),
            fixed_width_chunks(input@, size as nat) == Ok::<_, BdfError>(all),
            decode_all(all.take(i as int), u64_decoder()) == Ok::<_, BdfError>(values@),
        decreases chunks.len() - i,
    {
        proof {
            lemma_decode_all_step(all, u64_decoder(), i as int);
        }
        match decode_decimal_u64(chunks[i]) {
            Ok(v) => {
                values.push(v);
            },
            Err(e) => {
                proof {
                    lemma_decode_all_error_stays(all, u64_decoder(), i + 1);
                }
                return Err(e);
            },
        }
        i = i + 1;
    }
    assert(all.take(i as int) =~= all);
    Ok(values)
}

/// Cuts `input` into chunks of `size` bytes and decodes each as a sample.
/// The result is `InvalidLength` where `size` is zero or does not divide the
/// length of `input`, or where there is a chunk and `size` is not three.
pub fn chunk_little_endian(input: &[u8], size: usize) -> (r: Result<Vec<i32>, BdfError>)
    ensures
        match r {
            Ok(values) => sample_fields(input@, size as nat) == Ok::<_, BdfError>(values@),
            Err(e) => sample_fields(input@, size as nat) == Err::<Seq<i32>, BdfError>(e),
        },
{
    let chunks = chunk_fixed_width(input, size)?;
    let ghost all = slice_views(chunks@);
    let mut values: Vec<i32> = Vec::with_capacity(chunks.len());
    let mut i: usize = 0;
    proof {
        lemma_decode_all_none(sample_decoder());
        assert(all.take(0) =~= Seq::empty());
    }
    while i < chunks.len()
        invariant
            i <= chunks.len(),
            all == slice_views(chunks@),
            fixed_width_chunks(input@, size as nat) == Ok::<_, BdfError>(all),
            decode_all(all.take(i as int), sample_decoder()) == Ok::<_, BdfError>(values@),
        decreases chunks.len() - i,
    {
        proof {
            lemma_decode_all_step(all, sample_decoder(), i as int);
        }
        match decode_sample_24le(chunks[i]) {
            Ok(v) => {
                values.push(v);
            },
            Err(e) => {
                proof {
                    lemma_decode_all_error_stays(all, sample_decoder(), i + 1);
                }
                return Err(e);
            },
        }
        i = i + 1;
    }
    assert(all.take(i as int) =~= all);
    Ok(values)
}

} // verus!
