//! Decoding the channel section of the header: the part whose length
//! depends on the number of channels.

use crate::byte_reader::ByteReader;
use crate::error::BdfError;
use crate::metadata::{
    Channel, ChannelMetadata, ChannelMetadataView, ChannelView, CHANNEL_HEADER_SIZE,
};
use crate::parse_helpers::{
    chunk, chunk_i64, chunk_string, chunk_u64, field, fixed_width_chunks, i64_decoder, i64_fields,
    lemma_decode_all_first_error, lemma_group_count, lemma_group_values, text_decoder,
    text_fields, text_views, u64_decoder, u64_fields,
};
use crate::text::{i64_field, text_field, u64_field};
use vstd::prelude::*;

verus! {

/// What a channel section for `n` channels holds. The section holds one
/// field for all channels, then the next field for all channels, and so on.
/// These groups follow each other without gaps: labels of 16 bytes,
/// transducer types of 80, physical dimensions of 8, the physical and the
/// digital minimums and maximums of 8 each, prefilters of 80, sample rates
/// of 8, and reserved fields of 32. Channel `i` has the `i`-th field of each
/// group.
///
/// The result is `SizeMismatch` where the section is not as long as these
/// groups together; else the error of the first group that does not decode,
/// with `DuplicateChannelLabel` coming right behind the labels where two of
/// them are the same.
pub open spec fn channel_section(input: Seq<u8>, n: nat) -> Result<ChannelMetadataView, BdfError> {
    let count = n as int;
    let labels = text_fields(input.subrange(0, 16 * count), 16);
    let transducer_types = text_fields(input.subrange(16 * count, 96 * count), 80);
    let physical_dimensions = text_fields(input.subrange(96 * count, 104 * count), 8);
    let unit_minimums = i64_fields(input.subrange(104 * count, 112 * count), 8);
    let unit_maximums = i64_fields(input.subrange(112 * count, 120 * count), 8);
    let digital_minimums = i64_fields(input.subrange(120 * count, 128 * count), 8);
    let digital_maximums = i64_fields(input.subrange(128 * count, 136 * count), 8);
    let prefilters = text_fields(input.subrange(136 * count, 216 * count), 80);
    let sample_rates = u64_fields(input.subrange(216 * count, 224 * count), 8);
    let reserved = text_fields(input.subrange(224 * count, 256 * count), 32);
    if input.len() != CHANNEL_HEADER_SIZE * n {
        Err(BdfError::SizeMismatch)
    } else if labels is Err {
        Err(labels->Err_0)
    } else if !labels->Ok_0.no_duplicates() {
        Err(BdfError::DuplicateChannelLabel)
    } else if transducer_types is Err {
        Err(transducer_types->Err_0)
    } else if physical_dimensions is Err {
        Err(physical_dimensions->Err_0)
    } else if unit_minimums is Err {
        Err(unit_minimums->Err_0)
    } else if unit_maximums is Err {
        Err(unit_maximums->Err_0)
    } else if digital_minimums is Err {
        Err(digital_minimums->Err_0)
    } else if digital_maximums is Err {
        Err(digital_maximums->Err_0)
    } else if prefilters is Err {
        Err(prefilters->Err_0)
    } else if sample_rates is Err {
        Err(sample_rates->Err_0)
    } else if reserved is Err {
        Err(reserved->Err_0)
    } else {
        Ok(
            ChannelMetadataView {
                labels: labels->Ok_0,
                channels: Seq::new(
                    n,
                    |i: int|
                        ChannelView {
                            label: labels->Ok_0[i],
                            transducer_type: transducer_types->Ok_0[i],
                            physical_dimension: physical_dimensions->Ok_0[i],
                            unit_minimum: unit_minimums->Ok_0[i],
                            unit_maximum: unit_maximums->Ok_0[i],
                            digital_minimum: digital_minimums->Ok_0[i],
                            digital_maximum: digital_maximums->Ok_0[i],
                            prefilter: prefilters->Ok_0[i],
                            sample_rate: sample_rates->Ok_0[i],
                        },
                ),
                reserved: reserved->Ok_0,
            },
        )
    }
}

/// A channel section that decodes gives well-formed metadata for as many
/// channels as were asked for: one label, one channel and one reserved field
/// each, every channel under its own label, and no label twice.
pub proof fn lemma_channel_section_wf(input: Seq<u8>, n: nat)
    requires
        channel_section(input, n) is Ok,
    ensures
        channel_section(input, n)->Ok_0.wf(),
        channel_section(input, n)->Ok_0.labels.len() == n,
{
    let count = n as int;
    lemma_group_count(input.subrange(0, 16 * count), n, 16, text_decoder());
    lemma_group_count(input.subrange(224 * count, 256 * count), n, 32, text_decoder());
}

/// Field `i` of a group is the `i`-th chunk of the group's bytes.
proof fn lemma_group_field(input: Seq<u8>, start: int, width: nat, n: int, i: int)
    requires
        width > 0,
        0 <= i < n,
        0 <= start,
        start + width * n <= input.len(),
    ensures
        chunk(input.subrange(start, start + width * n), width, i) == field(
            input,
            start + width * i,
            width as int,
        ),
        (width * n) / (width as int) == n,
{
    assert(0 <= width * i && width * i + width <= width * n && (i + 1) * width == width * i
        + width && i * width == width * i && (width * n) / (width as int) == n)
        by (nonlinear_arith)
        requires
            width > 0,
            0 <= i < n,
    ;
    assert(chunk(input.subrange(start, start + width * n), width, i) =~= field(
        input,
        start + width * i,
        width as int,
    ));
}

/// Where the fields of channel `i` stand in a channel section for `n`
/// channels: in each group at position `i`, the groups one after the other.
pub proof fn lemma_channel_fields(input: Seq<u8>, n: nat, i: int)
    requires
        channel_section(input, n) is Ok,
        0 <= i < n,
    ensures
        ({
            let section = channel_section(input, n)->Ok_0;
            let channel = section.channels[i];
            &&& text_field(field(input, 16 * i, 16)) == Ok::<_, BdfError>(channel.label)
            &&& section.labels[i] == channel.label
            &&& text_field(field(input, 16 * n + 80 * i, 80)) == Ok::<_, BdfError>(
                channel.transducer_type,
            )
            &&& text_field(field(input, 96 * n + 8 * i, 8)) == Ok::<_, BdfError>(
                channel.physical_dimension,
            )
            &&& i64_field(field(input, 104 * n + 8 * i, 8)) == Ok::<_, BdfError>(
                channel.unit_minimum,
            )
            &&& i64_field(field(input, 112 * n + 8 * i, 8)) == Ok::<_, BdfError>(
                channel.unit_maximum,
            )
            &&& i64_field(field(input, 120 * n + 8 * i, 8)) == Ok::<_, BdfError>(
                channel.digital_minimum,
            )
            &&& i64_field(field(input, 128 * n + 8 * i, 8)) == Ok::<_, BdfError>(
                channel.digital_maximum,
            )
            &&& text_field(field(input, 136 * n + 80 * i, 80)) == Ok::<_, BdfError>(
                channel.prefilter,
            )
            &&& u64_field(field(input, 216 * n + 8 * i, 8)) == Ok::<_, BdfError>(
                channel.sample_rate,
            )
            &&& text_field(field(input, 224 * n + 32 * i, 32)) == Ok::<_, BdfError>(
                section.reserved[i],
            )
        }),
{
    let count = n as int;
    let section = channel_section(input, n)->Ok_0;
    let channel = section.channels[i];
    assert(text_field(field(input, 16 * i, 16)) == Ok::<_, BdfError>(
        channel.label,
    )) by {
        lemma_group_values(input.subrange(0, 16 * count), 16, text_decoder());
        lemma_group_field(input, 0, 16, count, i);
    }
    assert(text_field(field(input, 16 * n + 80 * i, 80)) == Ok::<_, BdfError>(
        channel.transducer_type,
    )) by {
        lemma_group_values(input.subrange(16 * count, 96 * count), 80, text_decoder());
        lemma_group_field(input, 16 * count, 80, count, i);
    }
    assert(text_field(field(input, 96 * n + 8 * i, 8)) == Ok::<_, BdfError>(
        channel.physical_dimension,
    )) by {
        lemma_group_values(input.subrange(96 * count, 104 * count), 8, text_decoder());
        lemma_group_field(input, 96 * count, 8, count, i);
    }
    assert(i64_field(field(input, 104 * n + 8 * i, 8)) == Ok::<_, BdfError>(
        channel.unit_minimum,
    )) by {
        lemma_group_values(input.subrange(104 * count, 112 * count), 8, i64_decoder());
        lemma_group_field(input, 104 * count, 8, count, i);
    }
    assert(i64_field(field(input, 112 * n + 8 * i, 8)) == Ok::<_, BdfError>(
        channel.unit_maximum,
    )) by {
        lemma_group_values(input.subrange(112 * count, 120 * count), 8, i64_decoder());
        lemma_group_field(input, 112 * count, 8, count, i);
    }
    assert(i64_field(field(input, 120 * n + 8 * i, 8)) == Ok::<_, BdfError>(
        channel.digital_minimum,
    )) by {
        lemma_group_values(input.subrange(120 * count, 128 * count), 8, i64_decoder());
        lemma_group_field(input, 120 * count, 8, count, i);
    }
    assert(i64_field(field(input, 128 * n + 8 * i, 8)) == Ok::<_, BdfError>(
        channel.digital_maximum,
    )) by {
        lemma_group_values(input.subrange(128 * count, 136 * count), 8, i64_decoder());
        lemma_group_field(input, 128 * count, 8, count, i);
    }
    assert(text_field(field(input, 136 * n + 80 * i, 80)) == Ok::<_, BdfError>(
        channel.prefilter,
    )) by {
        lemma_group_values(input.subrange(136 * count, 216 * count), 80, text_decoder());
        lemma_group_field(input, 136 * count, 80, count, i);
    }
    assert(u64_field(field(input, 216 * n + 8 * i, 8)) == Ok::<_, BdfError>(
        channel.sample_rate,
    )) by {
        lemma_group_values(input.subrange(216 * count, 224 * count), 8, u64_decoder());
        lemma_group_field(input, 216 * count, 8, count, i);
    }
    assert(text_field(field(input, 224 * n + 32 * i, 32)) == Ok::<_, BdfError>(
        section.reserved[i],
    )) by {
        lemma_group_values(input.subrange(224 * count, 256 * count), 32, text_decoder());
        lemma_group_field(input, 224 * count, 32, count, i);
    }
}

/// A group of text fields of the right length fails only on a field that is
/// not UTF-8.
proof fn lemma_text_fields_errors(bytes: Seq<u8>, width: nat)
    requires
        width > 0,
        bytes.len() % width == 0,
        text_fields(bytes, width) is Err,
    ensures
        text_fields(bytes, width)->Err_0 == BdfError::EncodingError,
{
    lemma_decode_all_first_error(fixed_width_chunks(bytes, width)->Ok_0, text_decoder());
}

/// A group of signed integer fields of the right length fails only on a
/// field that is not UTF-8 or no integer.
proof fn lemma_i64_fields_errors(bytes: Seq<u8>, width: nat)
    requires
        width > 0,
        bytes.len() % width == 0,
        i64_fields(bytes, width) is Err,
    ensures
        i64_fields(bytes, width)->Err_0 == BdfError::EncodingError || i64_fields(
            bytes,
            width,
        )->Err_0 == BdfError::MalformedField,
{
    lemma_decode_all_first_error(fixed_width_chunks(bytes, width)->Ok_0, i64_decoder());
}

/// A group of unsigned integer fields of the right length fails only on a
/// field that is not UTF-8 or no integer.
proof fn lemma_u64_fields_errors(bytes: Seq<u8>, width: nat)
    requires
        width > 0,
        bytes.len() % width == 0,
        u64_fields(bytes, width) is Err,
    ensures
        u64_fields(bytes, width)->Err_0 == BdfError::EncodingError || u64_fields(
            bytes,
            width,
        )->Err_0 == BdfError::MalformedField,
{
    lemma_decode_all_first_error(fixed_width_chunks(bytes, width)->Ok_0, u64_decoder());
}

/// The ways in which a channel section fails.
pub proof fn lemma_channel_section_errors(input: Seq<u8>, n: nat)
    requires
        channel_section(input, n) is Err,
    ensures
        ({
            let e = channel_section(input, n)->Err_0;
            ||| e == BdfError::SizeMismatch
            ||| e == BdfError::EncodingError
            ||| e == BdfError::MalformedField
            ||| e == BdfError::DuplicateChannelLabel
        }),
{
    let count = n as int;
    if input.len() == CHANNEL_HEADER_SIZE * n {
        let labels = input.subrange(0, 16 * count);
        let transducer_types = input.subrange(16 * count, 96 * count);
        let physical_dimensions = input.subrange(96 * count, 104 * count);
        let unit_minimums = input.subrange(104 * count, 112 * count);
        let unit_maximums = input.subrange(112 * count, 120 * count);
        let digital_minimums = input.subrange(120 * count, 128 * count);
        let digital_maximums = input.subrange(128 * count, 136 * count);
        let prefilters = input.subrange(136 * count, 216 * count);
        let sample_rates = input.subrange(216 * count, 224 * count);
        let reserved = input.subrange(224 * count, 256 * count);
        assert(labels.len() == 16 * count && transducer_types.len() == 80 * count
            && physical_dimensions.len() == 8 * count && unit_minimums.len() == 8 * count
            && unit_maximums.len() == 8 * count && digital_minimums.len() == 8 * count
            && digital_maximums.len() == 8 * count && prefilters.len() == 80 * count
            && sample_rates.len() == 8 * count && reserved.len() == 32 * count);
        if text_fields(labels, 16) is Err {
            lemma_text_fields_errors(labels, 16);
        } else if !text_fields(labels, 16)->Ok_0.no_duplicates() {
        } else if text_fields(transducer_types, 80) is Err {
            lemma_text_fields_errors(transducer_types, 80);
        } else if text_fields(physical_dimensions, 8) is Err {
            lemma_text_fields_errors(physical_dimensions, 8);
        } else if i64_fields(unit_minimums, 8) is Err {
            lemma_i64_fields_errors(unit_minimums, 8);
        } else if i64_fields(unit_maximums, 8) is Err {
            lemma_i64_fields_errors(unit_maximums, 8);
        } else if i64_fields(digital_minimums, 8) is Err {
            lemma_i64_fields_errors(digital_minimums, 8);
        } else if i64_fields(digital_maximums, 8) is Err {
            lemma_i64_fields_errors(digital_maximums, 8);
        } else if text_fields(prefilters, 80) is Err {
            lemma_text_fields_errors(prefilters, 80);
        } else if u64_fields(sample_rates, 8) is Err {
            lemma_u64_fields_errors(sample_rates, 8);
        } else {
            lemma_text_fields_errors(reserved, 32);
        }
    }
}

/// Tells whether some label occurs twice.
fn has_duplicates(labels: &Vec<String>) -> (b: bool)
    ensures
        b == !text_views(labels@).no_duplicates(),
{
    let ghost views = text_views(labels@);
    let mut i: usize = 0;
    while i < labels.len()
        invariant
            views == text_views(labels@),
            i <= labels.len(),
            forall|a: int, b: int| 0 <= a < b < labels.len() && a < i ==> views[a] != views[b],
        decreases labels.len() - i,
    {
        let mut j: usize = i + 1;
        while j < labels.len()
            invariant
                views == text_views(labels@),
                i < j <= labels.len(),
                forall|b: int| i < b < j ==> views[i as int] != views[b],
            decreases labels.len() - j,
        {
            if labels[i] == labels[j] {
                assert(views[i as int] == views[j as int]);
                return true;
            }
            j = j + 1;
        }
        i = i + 1;
    }
    false
}

/// Decodes the channel section `input` of a header that declares
/// `channel_total` channels. Each of the ten groups is read whole before the
/// next, and the channels are put together by position: channel `i` gets
/// the `i`-th field of each group. The labels keep the order in which the
/// section lists them.
///
/// The result is `SizeMismatch` where `input` is not 256 bytes for each
/// channel, `DuplicateChannelLabel` where two labels are the same, and
/// `EncodingError` or `MalformedField` where a field does not decode.
pub fn parse_dynamic_header(input: &[u8], channel_total: usize) -> (r: Result<
    ChannelMetadata,
    BdfError,
>)
    ensures
        match r {
            Ok(metadata) => {
                &&& channel_section(input@, channel_total as nat) == Ok::<_, BdfError>(metadata@)
                &&& metadata@.wf()
                &&& metadata@.labels.len() == channel_total
            },
            Err(e) => channel_section(input@, channel_total as nat) == Err::<
                ChannelMetadataView,
                BdfError,
            >(e),
        },
{
    let ct = channel_total;
    let len = input.len();
    if ct > usize::MAX / CHANNEL_HEADER_SIZE || len != ct * CHANNEL_HEADER_SIZE {
        return Err(BdfError::SizeMismatch);
    }
    let ghost n = ct as nat;
    let ghost count = ct as int;
    let mut header = ByteReader::new(input);

    let labels = chunk_string(header.next(ct * 16)?, 16)?;
    if has_duplicates(&labels) {
        return Err(BdfError::DuplicateChannelLabel);
    }
    let transducer_types = chunk_string(header.next(ct * 80)?, 80)?;
    let physical_dimensions = chunk_string(header.next(ct * 8)?, 8)?;
    let unit_minimums = chunk_i64(header.next(ct * 8)?, 8)?;
    let unit_maximums = chunk_i64(header.next(ct * 8)?, 8)?;
    let digital_minimums = chunk_i64(header.next(ct * 8)?, 8)?;
    let digital_maximums = chunk_i64(header.next(ct * 8)?, 8)?;
    let prefilters = chunk_string(header.next(ct * 80)?, 80)?;
    let sample_rates = chunk_u64(header.next(ct * 8)?, 8)?;
    let reserved = chunk_string(header.next(ct * 32)?, 32)?;

    proof {
        lemma_group_count(input@.subrange(0, 16 * count), n, 16, text_decoder());
        lemma_group_count(input@.subrange(16 * count, 96 * count), n, 80, text_decoder());
        lemma_group_count(input@.subrange(96 * count, 104 * count), n, 8, text_decoder());
        lemma_group_count(input@.subrange(104 * count, 112 * count), n, 8, i64_decoder());
        lemma_group_count(input@.subrange(112 * count, 120 * count), n, 8, i64_decoder());
        lemma_group_count(input@.subrange(120 * count, 128 * count), n, 8, i64_decoder());
        lemma_group_count(input@.subrange(128 * count, 136 * count), n, 8, i64_decoder());
        lemma_group_count(input@.subrange(136 * count, 216 * count), n, 80, text_decoder());
        lemma_group_count(input@.subrange(216 * count, 224 * count), n, 8, u64_decoder());
        lemma_group_count(input@.subrange(224 * count, 256 * count), n, 32, text_decoder());
    }

    let mut channels: Vec<Channel> = Vec::with_capacity(ct);
    let mut i: usize = 0;
    while i < ct
        invariant
            i <= ct,
            labels.len() == ct,
            transducer_types.len() == ct,
            physical_dimensions.len() == ct,
            unit_minimums.len() == ct,
            unit_maximums.len() == ct,
            digital_minimums.len() == ct,
            digital_maximums.len() == ct,
            prefilters.len() == ct,
            sample_rates.len() == ct,
            channels.len() == i,
            forall|j: int|
                0 <= j < i ==> (#[trigger] channels@[j])@ == (ChannelView {
                    label: labels@[j]@,
                    transducer_type: transducer_types@[j]@,
                    physical_dimension: physical_dimensions@[j]@,
                    unit_minimum: unit_minimums@[j],
                    unit_maximum: unit_maximums@[j],
                    digital_minimum: digital_minimums@[j],
                    digital_maximum: digital_maximums@[j],
                    prefilter: prefilters@[j]@,
                    sample_rate: sample_rates@[j],
                }),
        decreases ct - i,
    {
        channels.push(
            Channel {
                label: labels[i].clone(),
                transducer_type: transducer_types[i].clone(),
                physical_dimension: physical_dimensions[i].clone(),
                unit_minimum: unit_minimums[i],
                unit_maximum: unit_maximums[i],
                digital_minimum: digital_minimums[i],
                digital_maximum: digital_maximums[i],
                prefilter: prefilters[i].clone(),
                sample_rate: sample_rates[i],
            },
        );
        i = i + 1;
    }
    let metadata = ChannelMetadata { labels, channel_metadata: channels, reserved };
    proof {
        let expected = channel_section(input@, n)->Ok_0;
        assert(metadata@.labels =~= expected.labels);
        assert(metadata@.reserved =~= expected.reserved);
        assert(metadata@.channels =~= expected.channels);
    }
    Ok(metadata)
}

} // verus!
