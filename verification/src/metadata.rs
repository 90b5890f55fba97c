//! What a header holds: the metadata of the file and of each channel.

use crate::parse_helpers::text_views;
use vstd::prelude::*;

verus! {

/// The metadata of a file, from the fixed section of its header.
#[derive(Debug)]
pub struct FileMetadata {
    /// The first byte of the file, as it is.
    pub special_bit: u8,
    /// The format tag.
    pub biosemi: String,
    /// The local subject identification.
    pub subject_id: String,
    /// The local recording identification.
    pub recording_id: String,
    /// The date on which the recording started.
    pub record_start_date: String,
    /// The time at which the recording started.
    pub record_start_time: String,
    /// The number of bytes of the whole header; the body starts there.
    pub header_size: usize,
    /// The version of the data format.
    pub version: String,
    /// The number of data records, or -1 where the file does not say.
    pub records_total: i64,
    /// The duration of one data record in seconds.
    pub record_duration: usize,
    /// The number of channels.
    pub channel_total: usize,
}

/// The metadata of a file as plain values.
pub struct FileMetadataView {
    pub special_bit: u8,
    pub biosemi: Seq<char>,
    pub subject_id: Seq<char>,
    pub recording_id: Seq<char>,
    pub record_start_date: Seq<char>,
    pub record_start_time: Seq<char>,
    pub header_size: usize,
    pub version: Seq<char>,
    pub records_total: i64,
    pub record_duration: usize,
    pub channel_total: usize,
}

impl View for FileMetadata {
    type V = FileMetadataView;

    open spec fn view(&self) -> FileMetadataView {
        FileMetadataView {
            special_bit: self.special_bit,
            biosemi: self.biosemi@,
            subject_id: self.subject_id@,
            recording_id: self.recording_id@,
            record_start_date: self.record_start_date@,
            record_start_time: self.record_start_time@,
            header_size: self.header_size,
            version: self.version@,
            records_total: self.records_total,
            record_duration: self.record_duration,
            channel_total: self.channel_total,
        }
    }
}

/// The value of `records_total` that stands for an unknown number of
/// records.
pub const RECORDS_UNKNOWN: i64 = -1;

/// The number of bytes of the fixed section of the header.
pub const FIXED_HEADER_SIZE: usize = 256;

/// The number of bytes that the header holds for each channel: nine fields
/// of 224 bytes together, and a reserved field of 32 bytes.
pub const CHANNEL_HEADER_SIZE: usize = 256;

/// The metadata of one channel.
#[derive(Debug)]
pub struct Channel {
    /// The label, by which the channel is found.
    pub label: String,
    /// The type of transducer.
    pub transducer_type: String,
    /// The physical dimension of the values.
    pub physical_dimension: String,
    /// The physical minimum, in units of the physical dimension.
    pub unit_minimum: i64,
    /// The physical maximum, in units of the physical dimension.
    pub unit_maximum: i64,
    /// The digital minimum.
    pub digital_minimum: i64,
    /// The digital maximum.
    pub digital_maximum: i64,
    /// The prefiltering that was applied.
    pub prefilter: String,
    /// The number of samples of this channel in each data record.
    pub sample_rate: u64,
}

/// The metadata of one channel as plain values.
pub struct ChannelView {
    pub label: Seq<char>,
    pub transducer_type: Seq<char>,
    pub physical_dimension: Seq<char>,
    pub unit_minimum: i64,
    pub unit_maximum: i64,
    pub digital_minimum: i64,
    pub digital_maximum: i64,
    pub prefilter: Seq<char>,
    pub sample_rate: u64,
}

impl View for Channel {
    type V = ChannelView;

    open spec fn view(&self) -> ChannelView {
        ChannelView {
            label: self.label@,
            transducer_type: self.transducer_type@,
            physical_dimension: self.physical_dimension@,
            unit_minimum: self.unit_minimum,
            unit_maximum: self.unit_maximum,
            digital_minimum: self.digital_minimum,
            digital_maximum: self.digital_maximum,
            prefilter: self.prefilter@,
            sample_rate: self.sample_rate,
        }
    }
}

/// The channels as plain values, in the order of the vector.
pub open spec fn channel_views(channels: Seq<Channel>) -> Seq<ChannelView> {
    Seq::new(channels.len(), |i: int| channels[i]@)
}

/// The map that takes each label to the value at the label's position.
pub open spec fn by_label<V>(labels: Seq<Seq<char>>, values: Seq<V>) -> Map<Seq<char>, V> {
    Map::new(
        |label: Seq<char>| labels.contains(label),
        |label: Seq<char>| values[labels.index_of(label)],
    )
}

/// In a sequence of distinct labels each label stands at one position only.
pub proof fn lemma_by_label_at<V>(labels: Seq<Seq<char>>, values: Seq<V>, i: int)
    requires
        labels.no_duplicates(),
        0 <= i < labels.len(),
    ensures
        by_label(labels, values).dom().contains(labels[i]),
        by_label(labels, values)[labels[i]] == values[i],
{
    assert(labels.contains(labels[i]));
    let j = labels.index_of(labels[i]);
    assert(0 <= j < labels.len() && labels[j] == labels[i]);
}

/// Distinct labels give a map with one entry for each of them.
pub proof fn lemma_by_label_size<V>(labels: Seq<Seq<char>>, values: Seq<V>)
    requires
        labels.no_duplicates(),
    ensures
        by_label(labels, values).dom() == labels.to_set(),
        by_label(labels, values).dom().finite(),
        by_label(labels, values).dom().len() == labels.len(),
{
    assert(by_label(labels, values).dom() =~= labels.to_set());
    labels.unique_seq_to_set();
    vstd::seq_lib::seq_to_set_is_finite(labels);
}

/// The metadata of all channels of a file, from the second section of its
/// header. The channels stand in the order in which the file lists them,
/// which is the order of their sample runs in each data record.
#[derive(Debug)]
pub struct ChannelMetadata {
    /// The labels of the channels, in file order.
    pub labels: Vec<String>,
    /// The channels, in file order: each stands at the position of its label.
    pub channel_metadata: Vec<Channel>,
    /// The reserved field of each channel, in file order.
    pub reserved: Vec<String>,
}

/// The metadata of all channels as plain values.
pub struct ChannelMetadataView {
    pub labels: Seq<Seq<char>>,
    pub channels: Seq<ChannelView>,
    pub reserved: Seq<Seq<char>>,
}

impl ChannelMetadataView {
    /// There is one channel and one reserved field for each label, each
    /// channel carries the label at its position, and no label occurs twice.
    pub open spec fn wf(self) -> bool {
        &&& self.channels.len() == self.labels.len()
        &&& self.reserved.len() == self.labels.len()
        &&& forall|i: int|
            0 <= i < self.labels.len() ==> (#[trigger] self.channels[i]).label == self.labels[i]
        &&& self.labels.no_duplicates()
    }

    /// The channels by their labels.
    pub open spec fn channel_map(self) -> Map<Seq<char>, ChannelView> {
        by_label(self.labels, self.channels)
    }
}

impl View for ChannelMetadata {
    type V = ChannelMetadataView;

    open spec fn view(&self) -> ChannelMetadataView {
        ChannelMetadataView {
            labels: text_views(self.labels@),
            channels: channel_views(self.channel_metadata@),
            reserved: text_views(self.reserved@),
        }
    }
}

impl ChannelMetadata {
    /// The channels, in file order.
    pub fn get_channels(&self) -> (channels: &Vec<Channel>)
        ensures
            channel_views(channels@) == self@.channels,
    {
        &self.channel_metadata
    }

    /// The labels of the channels, in file order.
    pub fn get_labels(&self) -> (labels: &Vec<String>)
        ensures
            text_views(labels@) == self@.labels,
    {
        &self.labels
    }

    /// The channel that carries `label`, if there is one.
    pub fn get_channel(&self, label: &str) -> (found: Option<&Channel>)
        requires
            self@.wf(),
        ensures
            match found {
                Some(channel) => self@.channel_map().dom().contains(label@)
                    && self@.channel_map()[label@] == channel@,
                None => !self@.channel_map().dom().contains(label@),
            },
    {
        let key = label.to_owned();
        let mut i: usize = 0;
        while i < self.labels.len()
            invariant
                self@.wf(),
                key@ == label@,
                i <= self.labels.len(),
                forall|j: int| 0 <= j < i ==> self@.labels[j] != label@,
            decreases self.labels.len() - i,
        {
            assert(self@.labels[i as int] == self.labels[i as int]@);
            if self.labels[i] == key {
                proof {
                    lemma_by_label_at(self@.labels, self@.channels, i as int);
                }
                return Some(&self.channel_metadata[i]);
            }
            i = i + 1;
        }
        None
    }
}

/// A decoded header: the metadata of the file and of its channels.
#[derive(Debug)]
pub struct Header {
    /// From the fixed section.
    pub file_metadata: FileMetadata,
    /// From the section whose length depends on the number of channels.
    pub channel_metadata: ChannelMetadata,
}

/// A header as plain values.
pub struct HeaderView {
    pub file_metadata: FileMetadataView,
    pub channel_metadata: ChannelMetadataView,
}

impl HeaderView {
    /// The channel metadata is well formed and describes as many channels
    /// as the file metadata declares, the header has the size that this
    /// number of channels calls for, and the number of records is a count or
    /// the value that stands for an unknown one.
    pub open spec fn wf(self) -> bool {
        &&& self.channel_metadata.wf()
        &&& self.channel_metadata.labels.len() == self.file_metadata.channel_total
        &&& self.file_metadata.header_size == FIXED_HEADER_SIZE + CHANNEL_HEADER_SIZE
            * self.file_metadata.channel_total
        &&& self.file_metadata.records_total >= RECORDS_UNKNOWN
    }
}

impl View for Header {
    type V = HeaderView;

    open spec fn view(&self) -> HeaderView {
        HeaderView {
            file_metadata: self.file_metadata@,
            channel_metadata: self.channel_metadata@,
        }
    }
}

impl Header {
    /// The number of channels.
    pub fn get_channel_total(&self) -> (n: usize)
        ensures
            n == self@.file_metadata.channel_total,
    {
        self.file_metadata.channel_total
    }

    /// The number of bytes of the header, which is the offset of the body.
    pub fn get_header_size(&self) -> (n: usize)
        ensures
            n == self@.file_metadata.header_size,
    {
        self.file_metadata.header_size
    }

    /// The number of data records, or -1 where the file does not say.
    pub fn get_record_size(&self) -> (n: i64)
        ensures
            n == self@.file_metadata.records_total,
    {
        self.file_metadata.records_total
    }

    /// The duration of one data record in seconds.
    pub fn get_duration(&self) -> (n: usize)
        ensures
            n == self@.file_metadata.record_duration,
    {
        self.file_metadata.record_duration
    }
}

} // verus!
