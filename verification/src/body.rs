//! Decoding the body: data records that follow each other, each holding
//! one run of samples for every channel, in the order of the header.

use crate::byte_reader::ByteReader;
use crate::error::BdfError;
use crate::metadata::{by_label, lemma_by_label_at, Header, HeaderView};
use crate::parse_helpers::{
    chunk, chunk_little_endian, fixed_width_chunks, lemma_decode_all_succeeds, lemma_group_values,
    sample_decoder, sample_fields, text_views,
};
use crate::sample::{lemma_sample24_range, sample24_le, SAMPLE_MAX, SAMPLE_MIN, SAMPLE_WIDTH};
use vstd::prelude::*;

verus! {

/// The samples of a recording: for each channel, in the order of the
/// header, its label and its samples in the order in which the file holds
/// them.
#[derive(Debug)]
pub struct Body {
    /// The labels of the channels, in file order.
    pub labels: Vec<String>,
    /// The samples of each channel: those of a channel stand at the position
    /// of its label.
    pub samples: Vec<Vec<i32>>,
}

/// The samples of a recording as plain values.
pub struct BodyView {
    pub labels: Seq<Seq<char>>,
    pub samples: Seq<Seq<i32>>,
}

impl BodyView {
    /// There is one sequence of samples for each label, and no label occurs
    /// twice.
    pub open spec fn wf(self) -> bool {
        &&& self.samples.len() == self.labels.len()
        &&& self.labels.no_duplicates()
    }

    /// The samples by the labels of their channels.
    pub open spec fn channel_map(self) -> Map<Seq<char>, Seq<i32>> {
        by_label(self.labels, self.samples)
    }
}

/// The sample sequences that the vectors stand for.
pub open spec fn sample_views(samples: Seq<Vec<i32>>) -> Seq<Seq<i32>> {
    Seq::new(samples.len(), |i: int| samples[i]@)
}

impl View for Body {
    type V = BodyView;

    open spec fn view(&self) -> BodyView {
        BodyView { labels: text_views(self.labels@), samples: sample_views(self.samples@) }
    }
}

impl Body {
    /// The samples of the channel that carries `label`, if there is one.
    pub fn get(&self, label: &str) -> (found: Option<&Vec<i32>>)
        requires
            self@.wf(),
        ensures
            match found {
                Some(samples) => self@.channel_map().dom().contains(label@)
                    && self@.channel_map()[label@] == samples@,
                None => !self@.channel_map().dom().contains(label@),
            },
    {
        let key = label.to_owned();
        let mut i: usize = 0;
        while i < self.labels.len()
            invariant
                self@.wf(),
                key@ == label@,
                i <= self.labels.len(),
                forall|j: int| 0 <= j < i ==> self@.labels[j] != label@,
            decreases self.labels.len() - i,
        {
            assert(self@.labels[i as int] == self.labels[i as int]@);
            if self.labels[i] == key {
                proof {
                    lemma_by_label_at(self@.labels, self@.samples, i as int);
                }
                return Some(&self.samples[i]);
            }
            i = i + 1;
        }
        None
    }
}

impl HeaderView {
    /// The number of channels.
    pub open spec fn channel_count(self) -> int {
        self.channel_metadata.channels.len() as int
    }

    /// The number of samples that channel `k` has in each data record.
    pub open spec fn run_length(self, k: int) -> int {
        self.channel_metadata.channels[k].sample_rate * self.file_metadata.record_duration
    }

    /// The number of bytes of a data record that stand in front of the run
    /// of channel `k`: the runs of the channels before it.
    pub open spec fn run_offset(self, k: int) -> int
        decreases k,
    {
        if k <= 0 {
            0
        } else {
            self.run_offset(k - 1) + SAMPLE_WIDTH * self.run_length(k - 1)
        }
    }

    /// The number of bytes of one data record.
    pub open spec fn record_size(self) -> int {
        self.run_offset(self.channel_count())
    }
}

/// The number of bytes of `source` behind the header.
pub open spec fn body_length(header: HeaderView, source: Seq<u8>) -> int {
    if source.len() >= header.file_metadata.header_size {
        source.len() - header.file_metadata.header_size
    } else {
        0
    }
}

/// The number of data records that a body of `available` bytes is read as.
/// Where the header gives a count, it is that. Where it does not, it is the
/// number of whole records that the body holds; a record of no bytes is
/// then not read at all.
pub open spec fn record_count(header: HeaderView, available: int) -> int {
    if header.file_metadata.records_total >= 0 {
        header.file_metadata.records_total as int
    } else if header.record_size() > 0 {
        available / header.record_size()
    } else {
        0
    }
}

/// The header gives a count of records, and a body of `available` bytes is
/// too short for them.
pub open spec fn truncated(header: HeaderView, available: int) -> bool {
    header.file_metadata.records_total >= 0 && header.file_metadata.records_total
        * header.record_size() > available
}

/// Sample `j` of channel `k` in data record `record`. It stands behind the
/// header, the records before its own, the runs before its own and the
/// samples before it.
pub open spec fn sample_at(
    header: HeaderView,
    source: Seq<u8>,
    k: int,
    record: int,
    j: int,
) -> i32 {
    let start = header.file_metadata.header_size + record * header.record_size()
        + header.run_offset(k) + SAMPLE_WIDTH * j;
    sample24_le(source.subrange(start, start + SAMPLE_WIDTH)) as i32
}

/// The samples of channel `k` in data record `record`.
pub open spec fn run_samples(header: HeaderView, source: Seq<u8>, k: int, record: int) -> Seq<i32> {
    Seq::new(header.run_length(k) as nat, |j: int| sample_at(header, source, k, record, j))
}

/// The samples of channel `k` in the first `records` data records: record
/// after record, and within a record in the order of the run.
pub open spec fn channel_prefix(header: HeaderView, source: Seq<u8>, k: int, records: int) -> Seq<
    i32,
> {
    let run = header.run_length(k);
    Seq::new(
        (records * run) as nat,
        |index: int| sample_at(header, source, k, index / run, index % run),
    )
}

/// All samples of channel `k`.
pub open spec fn channel_samples(header: HeaderView, source: Seq<u8>, k: int) -> Seq<i32> {
    channel_prefix(header, source, k, record_count(header, body_length(header, source)))
}

/// What the body of `source` holds under `header`. The body starts at the
/// size of the header. The result is `TruncatedBody` where the header gives
/// a count of records and the body is too short for them. Where the header
/// gives none, bytes behind the last whole record are left alone.
pub open spec fn body_of(header: HeaderView, source: Seq<u8>) -> Result<BodyView, BdfError> {
    if truncated(header, body_length(header, source)) {
        Err(BdfError::TruncatedBody)
    } else {
        Ok(
            BodyView {
                labels: Seq::new(
                    header.channel_count() as nat,
                    |k: int| header.channel_metadata.channels[k].label,
                ),
                samples: Seq::new(
                    header.channel_count() as nat,
                    |k: int| channel_samples(header, source, k),
                ),
            },
        )
    }
}

/// No run has a negative length.
pub proof fn lemma_run_length_bounds(header: HeaderView, k: int)
    ensures
        header.run_length(k) >= 0,
{
    let rate = header.channel_metadata.channels[k].sample_rate;
    let duration = header.file_metadata.record_duration;
    assert(rate * duration >= 0) by (nonlinear_arith)
        requires
            rate >= 0,
            duration >= 0,
    ;
}

/// The runs of a record follow each other: a later run starts no earlier.
pub proof fn lemma_run_offset_monotone(header: HeaderView, a: int, b: int)
    requires
        a <= b,
    ensures
        0 <= header.run_offset(a) <= header.run_offset(b),
    decreases b,
{
    if b <= 0 {
    } else if a == b {
        lemma_run_offset_monotone(header, a - 1, b - 1);
        lemma_run_length_bounds(header, b - 1);
    } else {
        lemma_run_offset_monotone(header, a, b - 1);
        lemma_run_length_bounds(header, b - 1);
    }
}

/// Each run lies within its record.
pub proof fn lemma_run_in_record(header: HeaderView, k: int)
    requires
        0 <= k < header.channel_count(),
    ensures
        0 <= header.run_offset(k),
        0 <= header.run_length(k),
        header.run_offset(k) + SAMPLE_WIDTH * header.run_length(k) <= header.record_size(),
{
    lemma_run_length_bounds(header, k);
    lemma_run_offset_monotone(header, k, k);
    lemma_run_offset_monotone(header, k + 1, header.channel_count());
}

/// The samples of one record more are the samples so far and then the run
/// of that record.
pub proof fn lemma_channel_prefix_step(header: HeaderView, source: Seq<u8>, k: int, records: int)
    requires
        records >= 0,
    ensures
        channel_prefix(header, source, k, records + 1) == channel_prefix(
            header,
            source,
            k,
            records,
        ) + run_samples(header, source, k, records),
{
    let run = header.run_length(k);
    lemma_run_length_bounds(header, k);
    assert((records + 1) * run == records * run + run && records * run >= 0) by (nonlinear_arith)
        requires
            records >= 0,
            run >= 0,
    ;
    let longer = channel_prefix(header, source, k, records + 1);
    let joined = channel_prefix(header, source, k, records) + run_samples(
        header,
        source,
        k,
        records,
    );
    assert(longer.len() == joined.len());
    assert forall|index: int| 0 <= index < longer.len() implies longer[index] == joined[index] by {
        if index >= records * run {
            let j = index - records * run;
            vstd::arithmetic::div_mod::lemma_fundamental_div_mod_converse(index, run, records, j);
        }
    }
    assert(longer =~= joined);
}

/// A channel has as many samples as the records hold for it: its samples
/// per record, times the number of records.
pub proof fn lemma_channel_samples_len(header: HeaderView, source: Seq<u8>, k: int)
    requires
        !truncated(header, body_length(header, source)),
    ensures
        channel_samples(header, source, k).len() == record_count(
            header,
            body_length(header, source),
        ) * header.run_length(k),
{
    let records = record_count(header, body_length(header, source));
    let run = header.run_length(k);
    lemma_run_length_bounds(header, k);
    lemma_run_offset_monotone(header, 0, header.channel_count());
    assert(records >= 0) by {
        if header.file_metadata.records_total < 0 && header.record_size() > 0 {
            vstd::arithmetic::div_mod::lemma_div_pos_is_pos(
                body_length(header, source),
                header.record_size(),
            );
        }
    }
    assert(records * run >= 0) by (nonlinear_arith)
        requires
            records >= 0,
            run >= 0,
    ;
}

/// Every sample lies in the range of 24 bits.
pub proof fn lemma_samples_in_range(header: HeaderView, source: Seq<u8>, k: int, index: int)
    requires
        0 <= index < channel_samples(header, source, k).len(),
    ensures
        SAMPLE_MIN <= channel_samples(header, source, k)[index] <= SAMPLE_MAX,
{
    let run = header.run_length(k);
    let start = header.file_metadata.header_size + (index / run) * header.record_size()
        + header.run_offset(k) + SAMPLE_WIDTH * (index % run);
    lemma_sample24_range(source.subrange(start, start + SAMPLE_WIDTH));
}

/// Where the header gives a count of records, the body decodes if and only
/// if it holds that many whole records.
pub proof fn lemma_known_count(header: HeaderView, source: Seq<u8>)
    requires
        header.file_metadata.records_total >= 0,
    ensures
        body_of(header, source) is Ok <==> header.file_metadata.records_total
            * header.record_size() <= body_length(header, source),
        body_of(header, source) is Err ==> body_of(header, source)->Err_0
            == BdfError::TruncatedBody,
        record_count(header, body_length(header, source)) == header.file_metadata.records_total,
{
}

/// Where the header gives no count of records, the body always decodes. As
/// many records are read as the body holds whole; fewer bytes than one
/// record are left behind them.
pub proof fn lemma_unknown_count(header: HeaderView, source: Seq<u8>)
    requires
        header.file_metadata.records_total < 0,
    ensures
        body_of(header, source) is Ok,
        ({
            let records = record_count(header, body_length(header, source));
            let rest = body_length(header, source) - records * header.record_size();
            &&& records >= 0
            &&& rest >= 0
            &&& header.record_size() > 0 ==> rest < header.record_size()
        }),
{
    let size = header.record_size();
    let available = body_length(header, source);
    lemma_run_offset_monotone(header, 0, header.channel_count());
    if size > 0 {
        vstd::arithmetic::div_mod::lemma_fundamental_div_mod(available, size);
        vstd::arithmetic::div_mod::lemma_mod_bound(available, size);
        vstd::arithmetic::div_mod::lemma_div_pos_is_pos(available, size);
        assert((available / size) * size == size * (available / size)) by (nonlinear_arith);
    }
}

/// The number of bytes of each run of a record, and of the whole record.
/// There is no result where a record has more bytes than any buffer can
/// hold.
fn run_sizes(header: &Header) -> (r: Option<(Vec<usize>, usize)>)
    ensures
        match r {
            Some((sizes, record_size)) => {
                &&& sizes@.len() == header@.channel_count()
                &&& forall|k: int|
                    0 <= k < sizes@.len() ==> #[trigger] sizes@[k] == SAMPLE_WIDTH
                        * header@.run_length(k)
                &&& record_size == header@.record_size()
            },
            None => header@.record_size() > usize::MAX,
        },
{
    let channels = header.channel_metadata.get_channels();
    let duration = header.file_metadata.record_duration as u64;
    let mut sizes: Vec<usize> = Vec::with_capacity(channels.len());
    let mut total: usize = 0;
    let mut k: usize = 0;
    while k < channels.len()
        invariant
            k <= channels.len(),
            channels@.len() == header@.channel_count(),
            duration == header@.file_metadata.record_duration,
            forall|j: int|
                0 <= j < channels@.len() ==> (#[trigger] channels@[j]).sample_rate
                    == header@.channel_metadata.channels[j].sample_rate,
            sizes@.len() == k,
            forall|j: int|
                0 <= j < k ==> #[trigger] sizes@[j] == SAMPLE_WIDTH * header@.run_length(j),
            total == header@.run_offset(k as int),
        decreases channels.len() - k,
    {
        let run = match channels[k].sample_rate.checked_mul(duration) {
            Some(samples) => samples.checked_mul(SAMPLE_WIDTH as u64),
            None => None,
        };
        let end = match run {
            Some(bytes) => if bytes <= usize::MAX as u64 {
                total.checked_add(bytes as usize)
            } else {
                None
            },
            None => None,
        };
        proof {
            lemma_run_length_bounds(header@, k as int);
            lemma_run_offset_monotone(header@, k + 1, header@.channel_count());
        }
        match (run, end) {
            (Some(bytes), Some(end)) => {
                sizes.push(bytes as usize);
                total = end;
            },
            _ => {
                return None;
            },
        }
        k = k + 1;
    }
    Some((sizes, total))
}

/// The number of records to read from a body of `available` bytes, or
/// `TruncatedBody`. A record of no bytes is not read at all: it holds no
/// samples.
fn record_iterations(header: &Header, record_size: Option<usize>, available: usize) -> (r: Result<
    usize,
    BdfError,
>)
    requires
        match record_size {
            Some(size) => size == header@.record_size(),
            None => header@.record_size() > usize::MAX,
        },
    ensures
        match r {
            Ok(iterations) => {
                &&& !truncated(header@, available as int)
                &&& iterations == record_count(header@, available as int) || (iterations == 0
                    && header@.record_size() == 0)
                &&& iterations > 0 ==> header@.record_size() > 0 && iterations
                    * header@.record_size() <= available
            },
            Err(e) => e == BdfError::TruncatedBody && truncated(header@, available as int),
        },
{
    let records_total = header.file_metadata.records_total;
    let ghost size = header@.record_size();
    match record_size {
        None => {
            if records_total > 0 {
                assert(records_total * size > available) by (nonlinear_arith)
                    requires
                        records_total >= 1,
                        size > available,
                        available >= 0,
                ;
                Err(BdfError::TruncatedBody)
            } else {
                proof {
                    if records_total < 0 {
                        vstd::arithmetic::div_mod::lemma_basic_div(available as int, size);
                    } else {
                        assert(records_total * size == 0) by (nonlinear_arith)
                            requires
                                records_total == 0,
                        ;
                    }
                }
                Ok(0)
            }
        },
        Some(record_size) => {
            if record_size == 0 {
                assert(records_total * size == 0) by (nonlinear_arith)
                    requires
                        size == 0,
                ;
                Ok(0)
            } else {
                let whole = available / record_size;
                let ghost rest = (available as int) % size;
                proof {
                    vstd::arithmetic::div_mod::lemma_fundamental_div_mod(available as int, size);
                    vstd::arithmetic::div_mod::lemma_mod_bound(available as int, size);
                }
                if records_total < 0 {
                    assert(whole * size <= available) by (nonlinear_arith)
                        requires
                            available == size * whole + rest,
                            0 <= rest,
                    ;
                    Ok(whole)
                } else if records_total as u64 > whole as u64 {
                    assert(records_total * size > available) by (nonlinear_arith)
                        requires
                            records_total >= whole + 1,
                            size > 0,
                            available == size * whole + rest,
                            rest < size,
                    ;
                    Err(BdfError::TruncatedBody)
                } else {
                    assert(records_total * size <= available) by (nonlinear_arith)
                        requires
                            0 <= records_total <= whole,
                            size > 0,
                            available == size * whole + rest,
                            0 <= rest,
                    ;
                    Ok(records_total as usize)
                }
            }
        },
    }
}

/// A run of whole samples decodes, and its values are the samples of the
/// channel in that record.
proof fn lemma_run_values(header: HeaderView, source: Seq<u8>, k: int, record: int, position: int)
    requires
        position == header.file_metadata.header_size + record * header.record_size()
            + header.run_offset(k),
        0 <= position,
        position + SAMPLE_WIDTH * header.run_length(k) <= source.len(),
    ensures
        sample_fields(
            source.subrange(position, position + SAMPLE_WIDTH * header.run_length(k)),
            SAMPLE_WIDTH as nat,
        ) == Ok::<_, BdfError>(run_samples(header, source, k, record)),
{
    let run = header.run_length(k);
    lemma_run_length_bounds(header, k);
    let bytes = source.subrange(position, position + SAMPLE_WIDTH * run);
    let chunks = fixed_width_chunks(bytes, SAMPLE_WIDTH as nat)->Ok_0;
    assert(chunks.len() == run);
    assert forall|j: int| 0 <= j < chunks.len() implies sample_decoder()(
        #[trigger] chunks[j],
    ) is Ok by {
        assert(chunks[j].len() == SAMPLE_WIDTH);
    }
    lemma_decode_all_succeeds(chunks, sample_decoder());
    lemma_group_values(bytes, SAMPLE_WIDTH as nat, sample_decoder());
    let values = sample_fields(bytes, SAMPLE_WIDTH as nat)->Ok_0;
    assert forall|j: int| 0 <= j < run implies values[j] == sample_at(
        header,
        source,
        k,
        record,
        j,
    ) by {
        let part = chunk(bytes, SAMPLE_WIDTH as nat, j);
        assert(sample_decoder()(part) == Ok::<i32, BdfError>(values[j]));
        assert(part =~= source.subrange(
            position + SAMPLE_WIDTH * j,
            position + SAMPLE_WIDTH * j + SAMPLE_WIDTH,
        ));
    }
    assert(values =~= run_samples(header, source, k, record));
}

/// Reads data record `record`: one run for each channel, in the order of
/// the header, each appended to the samples of its channel. The caller has
/// made sure that the record lies within the buffer, so no read fails.
fn read_record(
    header: &Header,
    reader: &mut ByteReader,
    sizes: &Vec<usize>,
    samples: &mut Vec<Vec<i32>>,
    record: usize,
) -> (r: Result<(), BdfError>)
    requires
        sizes@.len() == header@.channel_count(),
        forall|k: int|
            0 <= k < sizes@.len() ==> #[trigger] sizes@[k] == SAMPLE_WIDTH * header@.run_length(k),
        old(reader).position() == header@.file_metadata.header_size + record
            * header@.record_size(),
        old(reader).position() + header@.record_size() <= old(reader).data().len(),
        old(samples)@.len() == header@.channel_count(),
        forall|k: int|
            0 <= k < header@.channel_count() ==> (#[trigger] old(samples)@[k])@ == channel_prefix(
                header@,
                old(reader).data(),
                k,
                record as int,
            ),
    ensures
        r is Ok,
        final(reader).data() == old(reader).data(),
        final(reader).position() == old(reader).position() + header@.record_size(),
        final(samples)@.len() == header@.channel_count(),
        forall|k: int|
            0 <= k < header@.channel_count() ==> (#[trigger] final(samples)@[k])@
                == channel_prefix(header@, old(reader).data(), k, record + 1),
{
    let ghost source = reader.data();
    let ghost base = reader.position() as int;
    let mut k: usize = 0;
    while k < sizes.len()
        invariant
            k <= sizes@.len(),
            sizes@.len() == header@.channel_count(),
            forall|j: int|
                0 <= j < sizes@.len() ==> #[trigger] sizes@[j] == SAMPLE_WIDTH
                    * header@.run_length(j),
            reader.data() == source,
            base == header@.file_metadata.header_size + record * header@.record_size(),
            base + header@.record_size() <= source.len(),
            reader.position() == base + header@.run_offset(k as int),
            samples@.len() == header@.channel_count(),
            forall|j: int|
                0 <= j < k ==> (#[trigger] samples@[j])@ == channel_prefix(
                    header@,
                    source,
                    j,
                    record + 1,
                ),
            forall|j: int|
                k <= j < header@.channel_count() ==> (#[trigger] samples@[j])@ == channel_prefix(
                    header@,
                    source,
                    j,
                    record as int,
                ),
        decreases sizes@.len() - k,
    {
        proof {
            lemma_run_in_record(header@, k as int);
            lemma_run_values(header@, source, k as int, record as int, reader.position() as int);
            lemma_channel_prefix_step(header@, source, k as int, record as int);
        }
        let bytes = match reader.next(sizes[k]) {
            Ok(bytes) => bytes,
            Err(_) => {
                return Err(BdfError::TruncatedBody);
            },
        };
        let mut values = chunk_little_endian(bytes, SAMPLE_WIDTH)?;
        samples[k].append(&mut values);
        k = k + 1;
    }
    Ok(())
}

/// Reads the first `iterations` data records of the body into `samples`.
/// The caller has made sure that they lie within `source`, so no read
/// fails.
fn read_records(
    header: &Header,
    source: &[u8],
    sizes: &Vec<usize>,
    samples: &mut Vec<Vec<i32>>,
    iterations: usize,
) -> (r: Result<(), BdfError>)
    requires
        sizes@.len() == header@.channel_count(),
        forall|k: int|
            0 <= k < sizes@.len() ==> #[trigger] sizes@[k] == SAMPLE_WIDTH * header@.run_length(k),
        header@.record_size() >= 0,
        header@.file_metadata.header_size + iterations * header@.record_size() <= source@.len(),
        old(samples)@.len() == header@.channel_count(),
        forall|k: int|
            0 <= k < header@.channel_count() ==> (#[trigger] old(samples)@[k])@
                == Seq::<i32>::empty(),
    ensures
        r is Ok,
        final(samples)@.len() == header@.channel_count(),
        forall|k: int|
            0 <= k < header@.channel_count() ==> (#[trigger] final(samples)@[k])@
                == channel_prefix(header@, source@, k, iterations as int),
{
    let mut reader = ByteReader::starting_at(source, header.get_header_size());
    let mut record: usize = 0;
    assert forall|k: int| 0 <= k < header@.channel_count() implies (#[trigger] samples@[k])@
        == channel_prefix(header@, source@, k, 0) by {
        assert(channel_prefix(header@, source@, k, 0) =~= Seq::<i32>::empty());
    }
    while record < iterations
        invariant
            record <= iterations,
            sizes@.len() == header@.channel_count(),
            forall|k: int|
                0 <= k < sizes@.len() ==> #[trigger] sizes@[k] == SAMPLE_WIDTH
                    * header@.run_length(k),
            header@.record_size() >= 0,
            header@.file_metadata.header_size + iterations * header@.record_size()
                <= source@.len(),
            reader.data() == source@,
            reader.position() == header@.file_metadata.header_size + record
                * header@.record_size(),
            samples@.len() == header@.channel_count(),
            forall|k: int|
                0 <= k < header@.channel_count() ==> (#[trigger] samples@[k])@ == channel_prefix(
                    header@,
                    source@,
                    k,
                    record as int,
                ),
        decreases iterations - record,
    {
        proof {
            let size = header@.record_size();
            assert((record + 1) * size == record * size + size && (record + 1) * size
                <= iterations * size) by (nonlinear_arith)
                requires
                    0 <= record < iterations,
                    size >= 0,
            ;
        }
        read_record(header, &mut reader, sizes, samples, record)?;
        record = record + 1;
    }
    Ok(())
}

/// A body with the labels of the header's channels and no samples yet.
fn empty_body(header: &Header) -> (body: Body)
    ensures
        body@.labels == Seq::new(
            header@.channel_count() as nat,
            |k: int| header@.channel_metadata.channels[k].label,
        ),
        body.samples@.len() == header@.channel_count(),
        forall|k: int|
            0 <= k < header@.channel_count() ==> (#[trigger] body.samples@[k])@
                == Seq::<i32>::empty(),
{
    let channels = header.channel_metadata.get_channels();
    let mut labels: Vec<String> = Vec::with_capacity(channels.len());
    let mut samples: Vec<Vec<i32>> = Vec::with_capacity(channels.len());
    let mut k: usize = 0;
    while k < channels.len()
        invariant
            k <= channels.len(),
            channels@.len() == header@.channel_count(),
            forall|j: int|
                0 <= j < channels@.len() ==> (#[trigger] channels@[j]).label@
                    == header@.channel_metadata.channels[j].label,
            labels@.len() == k,
            samples@.len() == k,
            forall|j: int| 0 <= j < k ==> (#[trigger] labels@[j])@ == channels@[j].label@,
            forall|j: int| 0 <= j < k ==> (#[trigger] samples@[j])@ == Seq::<i32>::empty(),
        decreases channels.len() - k,
    {
        labels.push(channels[k].label.clone());
        samples.push(Vec::new());
        k = k + 1;
    }
    let body = Body { labels, samples };
    assert(body@.labels =~= Seq::new(
        header@.channel_count() as nat,
        |k: int| header@.channel_metadata.channels[k].label,
    ));
    body
}

/// Decodes the body of `source`, which starts where the header ends. Each
/// data record holds one run of samples for each channel, in the order of
/// the header; a run has as many samples as the sample rate of the channel
/// times the duration of a record, each of three bytes. The samples of a
/// channel are gathered record after record.
///
/// Where the header gives the number of records, a body that is too short
/// for them is refused with `TruncatedBody`. Where it gives none, the whole
/// records that the body holds are read, and what is left behind them is
/// not looked at. A negative number of records counts as none given.
pub fn parse_body(header: &Header, source: &[u8]) -> (r: Result<Body, BdfError>)
    ensures
        match r {
            Ok(body) => body_of(header@, source@) == Ok::<_, BdfError>(body@),
            Err(e) => body_of(header@, source@) == Err::<BodyView, BdfError>(e),
        },
        r matches Ok(body) ==> (header@.wf() ==> body@.wf()),
{
    let start = header.get_header_size();
    let length = source.len();
    let available = if length >= start {
        length - start
    } else {
        0
    };
    let plan = run_sizes(header);
    let record_size = match &plan {
        Some((_, size)) => Some(*size),
        None => None,
    };
    let iterations = record_iterations(header, record_size, available)?;
    let mut body = empty_body(header);
    match plan {
        Some((sizes, _)) => {
            if iterations > 0 {
                proof {
                    let size = header@.record_size();
                    assert(iterations * size >= 1) by (nonlinear_arith)
                        requires
                            iterations >= 1,
                            size >= 1,
                    ;
                }
                read_records(header, source, &sizes, &mut body.samples, iterations)?;
            }
        },
        None => {
            proof {
                let size = header@.record_size();
                assert(iterations == 0) by (nonlinear_arith)
                    requires
                        iterations > 0 ==> iterations * size <= available,
                        size > available,
                        iterations >= 0,
                ;
            }
        },
    }
    proof {
        let records = record_count(header@, available as int);
        assert forall|k: int| 0 <= k < header@.channel_count() implies (
        #[trigger] body.samples@[k])@ == channel_samples(header@, source@, k) by {
            let run = header@.run_length(k);
            assert(available == body_length(header@, source@));
            if iterations == 0 {
                if records != 0 {
                    lemma_run_in_record(header@, k);
                }
                assert(records * run == 0) by (nonlinear_arith)
                    requires
                        records == 0 || run == 0,
                ;
                assert(channel_prefix(header@, source@, k, records) =~= Seq::<i32>::empty());
            }
        }
        assert(body@.samples =~= body_of(header@, source@)->Ok_0.samples);
        if header@.wf() {
            assert(body@.labels =~= header@.channel_metadata.labels);
        }
    }
    Ok(body)
}

} // verus!
