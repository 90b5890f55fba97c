//! Decoding the header: first the fixed section of 256 bytes, then the
//! section that describes the channels.

use crate::byte_reader::ByteReader;
use crate::channel_header::{
    channel_section, lemma_channel_section_errors, lemma_channel_section_wf,
    parse_dynamic_header,
};
use crate::error::BdfError;
use crate::metadata::{
    FileMetadata, FileMetadataView, Header, HeaderView, CHANNEL_HEADER_SIZE, FIXED_HEADER_SIZE,
    RECORDS_UNKNOWN,
};
use crate::parse_helpers::{
    field, fixed_width_chunks, lemma_decode_all_values, lemma_group_count, string_from,
    text_decoder, text_fields,
};
use crate::text::{decode_decimal_i64, decode_decimal_usize, i64_field, text_field, usize_field};
use vstd::prelude::*;

verus! {

/// What the field for the number of records holds: a count, or the value
/// that stands for an unknown one.
pub open spec fn records_field(bytes: Seq<u8>) -> Result<i64, BdfError> {
    match i64_field(bytes) {
        Ok(v) => if v >= RECORDS_UNKNOWN {
            Ok(v)
        } else {
            Err(BdfError::MalformedField)
        },
        Err(e) => Err(e),
    }
}

/// What the fixed section at the start of `input` holds. Its fields follow
/// each other without gaps: one raw byte, then text of 7, 80, 80, 8 and 8
/// bytes, the header size in 8 bytes, text of 44 bytes, the number of
/// records and the record duration in 8 bytes each, and the number of
/// channels in 4 bytes. Where `input` is shorter than the section or a field
/// does not decode, the result is `MalformedHeader`.
pub open spec fn fixed_header(input: Seq<u8>) -> Result<FileMetadataView, BdfError> {
    let biosemi = text_field(field(input, 1, 7));
    let subject_id = text_field(field(input, 8, 80));
    let recording_id = text_field(field(input, 88, 80));
    let record_start_date = text_field(field(input, 168, 8));
    let record_start_time = text_field(field(input, 176, 8));
    let header_size = usize_field(field(input, 184, 8));
    let version = text_field(field(input, 192, 44));
    let records_total = records_field(field(input, 236, 8));
    let record_duration = usize_field(field(input, 244, 8));
    let channel_total = usize_field(field(input, 252, 4));
    if input.len() >= FIXED_HEADER_SIZE && biosemi is Ok && subject_id is Ok && recording_id is Ok
        && record_start_date is Ok && record_start_time is Ok && header_size is Ok && version is Ok
        && records_total is Ok && record_duration is Ok && channel_total is Ok {
        Ok(
            FileMetadataView {
                special_bit: input[0],
                biosemi: biosemi->Ok_0,
                subject_id: subject_id->Ok_0,
                recording_id: recording_id->Ok_0,
                record_start_date: record_start_date->Ok_0,
                record_start_time: record_start_time->Ok_0,
                header_size: header_size->Ok_0,
                version: version->Ok_0,
                records_total: records_total->Ok_0,
                record_duration: record_duration->Ok_0,
                channel_total: channel_total->Ok_0,
            },
        )
    } else {
        Err(BdfError::MalformedHeader)
    }
}

/// What the header at the start of `source` holds. The fixed section comes
/// first. It declares the size of the whole header, which must be the 256
/// bytes of the fixed section and 256 bytes more for each channel, or the
/// result is `SizeMismatch`. Where `source` is shorter than the header, the
/// result is `OutOfRange`. The channel section is the rest of the header.
pub open spec fn header_of(source: Seq<u8>) -> Result<HeaderView, BdfError> {
    match fixed_header(source) {
        Err(e) => Err(e),
        Ok(file) => if file.header_size != FIXED_HEADER_SIZE + CHANNEL_HEADER_SIZE
            * file.channel_total {
            Err(BdfError::SizeMismatch)
        } else if source.len() < file.header_size {
            Err(BdfError::OutOfRange)
        } else {
            match channel_section(
                source.subrange(FIXED_HEADER_SIZE as int, file.header_size as int),
                file.channel_total as nat,
            ) {
                Err(e) => Err(e),
                Ok(channels) => Ok(HeaderView { file_metadata: file, channel_metadata: channels }),
            }
        },
    }
}

/// A header that decodes is well formed, lies within the source, and has
/// the size that its number of channels calls for: 256 bytes, and for each
/// channel 224 bytes of fields and 32 reserved bytes.
pub proof fn lemma_header_size(source: Seq<u8>)
    requires
        header_of(source) is Ok,
    ensures
        ({
            let header = header_of(source)->Ok_0;
            &&& header.wf()
            &&& header.file_metadata.header_size <= source.len()
            &&& header.file_metadata.header_size == 256 + 224 * header.file_metadata.channel_total
                + 32 * header.file_metadata.channel_total
        }),
{
    let file = fixed_header(source)->Ok_0;
    lemma_channel_section_wf(
        source.subrange(FIXED_HEADER_SIZE as int, file.header_size as int),
        file.channel_total as nat,
    );
}

/// A header whose declared size is not the one that its number of channels
/// calls for is rejected with `SizeMismatch`, whatever follows the fixed
/// section.
pub proof fn lemma_header_size_mismatch(source: Seq<u8>)
    requires
        fixed_header(source) is Ok,
        fixed_header(source)->Ok_0.header_size != 256 + 256 * fixed_header(
            source,
        )->Ok_0.channel_total,
    ensures
        header_of(source) == Err::<HeaderView, BdfError>(BdfError::SizeMismatch),
{
}

/// Two channels with the same label make the header fail with
/// `DuplicateChannelLabel`, provided that the header is complete, declares
/// its size rightly and all its labels are text.
pub proof fn lemma_duplicate_label_rejected(source: Seq<u8>, i: int, j: int)
    requires
        fixed_header(source) is Ok,
        fixed_header(source)->Ok_0.header_size == 256 + 256 * fixed_header(
            source,
        )->Ok_0.channel_total,
        fixed_header(source)->Ok_0.header_size <= source.len(),
        text_fields(
            source.subrange(256, 256 + 16 * fixed_header(source)->Ok_0.channel_total),
            16,
        ) is Ok,
        0 <= i < j < fixed_header(source)->Ok_0.channel_total,
        text_field(source.subrange(256 + 16 * i, 256 + 16 * i + 16)) == text_field(
            source.subrange(256 + 16 * j, 256 + 16 * j + 16),
        ),
    ensures
        header_of(source) == Err::<HeaderView, BdfError>(BdfError::DuplicateChannelLabel),
{
    let file = fixed_header(source)->Ok_0;
    let n = file.channel_total as nat;
    let section = source.subrange(FIXED_HEADER_SIZE as int, file.header_size as int);
    let bytes = section.subrange(0, 16 * (n as int));
    assert(bytes =~= source.subrange(256, 256 + 16 * file.channel_total));
    let chunks = fixed_width_chunks(bytes, 16)->Ok_0;
    lemma_group_count(bytes, n, 16, text_decoder());
    lemma_decode_all_values(chunks, text_decoder());
    let labels = text_fields(bytes, 16)->Ok_0;
    assert(chunks[i] =~= source.subrange(256 + 16 * i, 256 + 16 * i + 16));
    assert(chunks[j] =~= source.subrange(256 + 16 * j, 256 + 16 * j + 16));
    assert(labels[i] == labels[j]);
}

/// The ways in which a header fails.
pub proof fn lemma_header_errors(source: Seq<u8>)
    requires
        header_of(source) is Err,
    ensures
        ({
            let e = header_of(source)->Err_0;
            ||| e == BdfError::MalformedHeader
            ||| e == BdfError::SizeMismatch
            ||| e == BdfError::OutOfRange
            ||| e == BdfError::EncodingError
            ||| e == BdfError::MalformedField
            ||| e == BdfError::DuplicateChannelLabel
        }),
{
    if fixed_header(source) is Ok {
        let file = fixed_header(source)->Ok_0;
        let section = source.subrange(FIXED_HEADER_SIZE as int, file.header_size as int);
        if channel_section(section, file.channel_total as nat) is Err {
            lemma_channel_section_errors(section, file.channel_total as nat);
        }
    }
}

/// Decodes the field for the number of records.
fn decode_records(bytes: &[u8]) -> (r: Result<i64, BdfError>)
    ensures
        r == records_field(bytes@),
{
    let v = decode_decimal_i64(bytes)?;
    if v >= RECORDS_UNKNOWN {
        Ok(v)
    } else {
        Err(BdfError::MalformedField)
    }
}

/// Reads the fields of the fixed section one after the other. Whatever goes
/// wrong on the way, the section does not decode.
fn read_fixed_header(input: &[u8]) -> (r: Result<FileMetadata, BdfError>)
    ensures
        match r {
            Ok(metadata) => fixed_header(input@) == Ok::<_, BdfError>(metadata@),
            Err(_) => fixed_header(input@) is Err,
        },
{
    let mut header = ByteReader::new(input);
    let special_bit = header.next(1)?[0];
    let biosemi = string_from(header.next(7)?)?;
    let subject_id = string_from(header.next(80)?)?;
    let recording_id = string_from(header.next(80)?)?;
    let record_start_date = string_from(header.next(8)?)?;
    let record_start_time = string_from(header.next(8)?)?;
    let header_size = decode_decimal_usize(header.next(8)?)?;
    let version = string_from(header.next(44)?)?;
    let records_total = decode_records(header.next(8)?)?;
    let record_duration = decode_decimal_usize(header.next(8)?)?;
    let channel_total = decode_decimal_usize(header.next(4)?)?;
    Ok(
        FileMetadata {
            special_bit,
            biosemi,
            subject_id,
            recording_id,
            record_start_date,
            record_start_time,
            header_size,
            version,
            records_total,
            record_duration,
            channel_total,
        },
    )
}

/// Decodes the fixed section at the start of `input` into the metadata of
/// the file. The result is `MalformedHeader` where `input` holds fewer than
/// 256 bytes or a field does not decode. Bytes behind the section are not
/// looked at.
pub fn parse_fixed_header(input: &[u8]) -> (r: Result<FileMetadata, BdfError>)
    ensures
        match r {
            Ok(metadata) => fixed_header(input@) == Ok::<_, BdfError>(metadata@),
            Err(e) => fixed_header(input@) == Err::<FileMetadataView, BdfError>(e),
        },
{
    match read_fixed_header(input) {
        Ok(metadata) => Ok(metadata),
        Err(_) => Err(BdfError::MalformedHeader),
    }
}

/// Decodes the header at the start of `source`: the fixed section, and then
/// the channel section, whose length the fixed section makes known.
pub fn parse_header(source: &[u8]) -> (r: Result<Header, BdfError>)
    ensures
        match r {
            Ok(header) => header_of(source@) == Ok::<_, BdfError>(header@) && header@.wf(),
            Err(e) => header_of(source@) == Err::<HeaderView, BdfError>(e),
        },
{
    let file_metadata = parse_fixed_header(source)?;
    let header_size = file_metadata.header_size;
    let channel_total = file_metadata.channel_total;
    if header_size < FIXED_HEADER_SIZE || channel_total > (usize::MAX - FIXED_HEADER_SIZE)
        / CHANNEL_HEADER_SIZE || header_size - FIXED_HEADER_SIZE != channel_total
        * CHANNEL_HEADER_SIZE {
        return Err(BdfError::SizeMismatch);
    }
    let mut reader = ByteReader::new(source);
    let _ = reader.next(FIXED_HEADER_SIZE)?;
    let section = reader.next(header_size - FIXED_HEADER_SIZE)?;
    let channel_metadata = parse_dynamic_header(section, channel_total)?;
    Ok(Header { file_metadata, channel_metadata })
}

} // verus!
