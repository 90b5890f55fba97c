use bdf_parser::bdf_reader::{Header, BDF};
use bdf_parser::body::parse_body;
use bdf_parser::error::BdfError;
use bdf_parser::channel_header::parse_dynamic_header;
use bdf_parser::header::{parse_fixed_header, parse_header};

fn pad(text: &str, width: usize) -> Vec<u8> {
    let mut bytes = text.as_bytes().to_vec();
    assert!(bytes.len() <= width);
    bytes.resize(width, b' ');
    bytes
}

fn fixed_section(header_size: &str, records: &str, duration: &str, channels: &str) -> Vec<u8> {
    let mut bytes = vec![0xffu8];
    bytes.extend(pad("BIOSEMI", 7));
    bytes.extend(pad("subject 7", 80));
    bytes.extend(pad("recording 3", 80));
    bytes.extend(pad("01.02.03", 8));
    bytes.extend(pad("04.05.06", 8));
    bytes.extend(pad(header_size, 8));
    bytes.extend(pad("24BIT", 44));
    bytes.extend(pad(records, 8));
    bytes.extend(pad(duration, 8));
    bytes.extend(pad(channels, 4));
    assert_eq!(bytes.len(), 256);
    bytes
}

fn channel_section(labels: &[&str], rates: &[&str]) -> Vec<u8> {
    let mut bytes = Vec::new();
    for label in labels {
        bytes.extend(pad(label, 16));
    }
    for (i, _) in labels.iter().enumerate() {
        bytes.extend(pad(&format!("electrode {}", i), 80));
    }
    for _ in labels {
        bytes.extend(pad("uV", 8));
    }
    for (i, _) in labels.iter().enumerate() {
        bytes.extend(pad(&format!("-{}", 262144 + i), 8));
    }
    for (i, _) in labels.iter().enumerate() {
        bytes.extend(pad(&format!("{}", 262143 + i), 8));
    }
    for (i, _) in labels.iter().enumerate() {
        bytes.extend(pad(&format!("-{}", 8388608 - i), 8));
    }
    for (i, _) in labels.iter().enumerate() {
        bytes.extend(pad(&format!("{}", 8388607 - i), 8));
    }
    for (i, _) in labels.iter().enumerate() {
        bytes.extend(pad(&format!("HP:DC; LP:{}", 410 + i), 80));
    }
    for rate in rates {
        bytes.extend(pad(rate, 8));
    }
    for (i, _) in labels.iter().enumerate() {
        bytes.extend(pad(&format!("reserved {}", i), 32));
    }
    assert_eq!(bytes.len(), 256 * labels.len());
    bytes
}

fn header_bytes(labels: &[&str], rates: &[&str], records: &str, duration: &str) -> Vec<u8> {
    let size = 256 + 256 * labels.len();
    let mut bytes = fixed_section(&size.to_string(), records, duration, &labels.len().to_string());
    bytes.extend(channel_section(labels, rates));
    bytes
}

fn sample(v: i32) -> [u8; 3] {
    [(v & 0xff) as u8, ((v >> 8) & 0xff) as u8, ((v >> 16) & 0xff) as u8]
}

// The value that the test files hold for a sample, by its place.
fn value(channel: usize, record: usize, j: usize) -> i32 {
    let v = (channel * 10_000 + record * 100 + j) as i32;
    if channel % 2 == 1 {
        -v
    } else {
        v
    }
}

fn body_bytes(rates: &[usize], duration: usize, records: usize) -> Vec<u8> {
    let mut bytes = Vec::new();
    for record in 0..records {
        for (channel, rate) in rates.iter().enumerate() {
            for j in 0..rate * duration {
                bytes.extend(sample(value(channel, record, j)));
            }
        }
    }
    bytes
}

fn two_channel_file(records: &str, stored_records: usize) -> Vec<u8> {
    let mut file = header_bytes(&["Fp1", "Fp2"], &["4", "4"], records, "1");
    file.extend(body_bytes(&[4, 4], 1, stored_records));
    file
}

#[test]
fn fixed_header_fields_are_decoded_in_order() {
    let bytes = fixed_section("768", "2", "1", "2");
    let metadata = parse_fixed_header(&bytes).unwrap();
    assert_eq!(metadata.special_bit, 0xff);
    assert_eq!(metadata.biosemi, "BIOSEMI");
    assert_eq!(metadata.subject_id, "subject 7");
    assert_eq!(metadata.recording_id, "recording 3");
    assert_eq!(metadata.record_start_date, "01.02.03");
    assert_eq!(metadata.record_start_time, "04.05.06");
    assert_eq!(metadata.header_size, 768);
    assert_eq!(metadata.version, "24BIT");
    assert_eq!(metadata.records_total, 2);
    assert_eq!(metadata.record_duration, 1);
    assert_eq!(metadata.channel_total, 2);
}

#[test]
fn fixed_header_takes_an_unknown_record_count() {
    let bytes = fixed_section("256", "-1", "1", "0");
    assert_eq!(parse_fixed_header(&bytes).unwrap().records_total, -1);
}

#[test]
fn fixed_header_ignores_what_follows_it() {
    let mut bytes = fixed_section("768", "2", "1", "2");
    bytes.extend_from_slice(&[0xff; 40]);
    assert_eq!(parse_fixed_header(&bytes).unwrap().header_size, 768);
}

#[test]
fn fixed_header_failures_are_malformed_header() {
    let good = fixed_section("768", "2", "1", "2");
    assert_eq!(parse_fixed_header(&good[..255]).unwrap_err(), BdfError::MalformedHeader);
    assert_eq!(parse_fixed_header(&[]).unwrap_err(), BdfError::MalformedHeader);
    let cases = [
        fixed_section("768", "2", "1", "abcd"),
        fixed_section("seven", "2", "1", "2"),
        fixed_section("-768", "2", "1", "2"),
        fixed_section("768", "-2", "1", "2"),
        fixed_section("768", "2", "", "2"),
        fixed_section("768", "2", "1", "-2"),
    ];
    for bytes in cases.iter() {
        assert_eq!(parse_fixed_header(bytes).unwrap_err(), BdfError::MalformedHeader);
    }
    let mut bytes = good.clone();
    bytes[3] = 0xff;
    assert_eq!(parse_fixed_header(&bytes).unwrap_err(), BdfError::MalformedHeader);
}

#[test]
fn non_numeric_channel_total_stops_the_decode() {
    let mut file = fixed_section("768", "2", "1", "abcd");
    file.extend(channel_section(&["Fp1", "Fp2"], &["4", "4"]));
    file.extend(body_bytes(&[4, 4], 1, 2));
    assert_eq!(parse_header(&file).unwrap_err(), BdfError::MalformedHeader);
    assert_eq!(BDF::parse(&file).unwrap_err(), BdfError::MalformedHeader);
}

#[test]
fn channels_are_put_together_by_position() {
    let section = channel_section(&["Fp1", "Cz", "A32"], &["4", "8", "16"]);
    let metadata = parse_dynamic_header(&section, 3).unwrap();
    assert_eq!(metadata.get_labels(), &vec!["Fp1", "Cz", "A32"]);
    assert_eq!(metadata.reserved, vec!["reserved 0", "reserved 1", "reserved 2"]);
    let channels = metadata.get_channels();
    assert_eq!(channels.len(), 3);
    for (i, channel) in channels.iter().enumerate() {
        assert_eq!(channel.label, ["Fp1", "Cz", "A32"][i]);
        assert_eq!(channel.transducer_type, format!("electrode {}", i));
        assert_eq!(channel.physical_dimension, "uV");
        assert_eq!(channel.unit_minimum, -(262144 + i as i64));
        assert_eq!(channel.unit_maximum, 262143 + i as i64);
        assert_eq!(channel.digital_minimum, -(8388608 - i as i64));
        assert_eq!(channel.digital_maximum, 8388607 - i as i64);
        assert_eq!(channel.prefilter, format!("HP:DC; LP:{}", 410 + i));
        assert_eq!(channel.sample_rate, [4, 8, 16][i]);
    }
    assert_eq!(metadata.get_channel("Cz").unwrap().sample_rate, 8);
    assert_eq!(metadata.get_channel("A32").unwrap().transducer_type, "electrode 2");
    assert!(metadata.get_channel("Fp2").is_none());
}

#[test]
fn channel_section_of_no_channels_is_empty() {
    let metadata = parse_dynamic_header(&[], 0).unwrap();
    assert!(metadata.get_labels().is_empty());
    assert!(metadata.get_channels().is_empty());
    assert!(metadata.reserved.is_empty());
}

#[test]
fn channel_section_must_have_the_right_length() {
    let section = channel_section(&["Fp1", "Fp2"], &["4", "4"]);
    assert_eq!(parse_dynamic_header(&section, 1).unwrap_err(), BdfError::SizeMismatch);
    assert_eq!(parse_dynamic_header(&section, 3).unwrap_err(), BdfError::SizeMismatch);
    assert_eq!(parse_dynamic_header(&section[..511], 2).unwrap_err(), BdfError::SizeMismatch);
    assert_eq!(parse_dynamic_header(&section[..448], 2).unwrap_err(), BdfError::SizeMismatch);
    assert_eq!(parse_dynamic_header(&section, usize::MAX).unwrap_err(), BdfError::SizeMismatch);
}

#[test]
fn channel_section_reports_bad_fields() {
    let section = channel_section(&["Fp1", "Fp2"], &["4", "four"]);
    assert_eq!(parse_dynamic_header(&section, 2).unwrap_err(), BdfError::MalformedField);
    let section = channel_section(&["Fp1", "Fp2"], &["4", "-4"]);
    assert_eq!(parse_dynamic_header(&section, 2).unwrap_err(), BdfError::MalformedField);
    let mut section = channel_section(&["Fp1", "Fp2"], &["4", "4"]);
    section[2 * 16 + 5] = 0xff;
    assert_eq!(parse_dynamic_header(&section, 2).unwrap_err(), BdfError::EncodingError);
}

#[test]
fn duplicate_labels_are_refused() {
    let section = channel_section(&["Fp1", "Cz", "Fp1"], &["4", "4", "4"]);
    assert_eq!(parse_dynamic_header(&section, 3).unwrap_err(), BdfError::DuplicateChannelLabel);
    let mut file = header_bytes(&["Fp1", "Fp1"], &["4", "4"], "2", "1");
    file.extend(body_bytes(&[4, 4], 1, 2));
    assert_eq!(parse_header(&file).unwrap_err(), BdfError::DuplicateChannelLabel);
    assert_eq!(BDF::parse(&file).unwrap_err(), BdfError::DuplicateChannelLabel);
}

#[test]
fn duplicate_labels_come_before_later_groups() {
    let section = channel_section(&["Fp1", "Fp1"], &["4", "four"]);
    assert_eq!(parse_dynamic_header(&section, 2).unwrap_err(), BdfError::DuplicateChannelLabel);
}

#[test]
fn labels_that_differ_only_in_padding_are_duplicates() {
    let mut section = channel_section(&["Fp1", " Fp1"], &["4", "4"]);
    assert_eq!(parse_dynamic_header(&section, 2).unwrap_err(), BdfError::DuplicateChannelLabel);
    section[16] = b'x';
    assert!(parse_dynamic_header(&section, 2).is_ok());
}

#[test]
fn header_size_follows_from_the_channel_count() {
    for n in 0..5usize {
        let labels: Vec<String> = (0..n).map(|i| format!("ch{}", i)).collect();
        let labels: Vec<&str> = labels.iter().map(|s| s.as_str()).collect();
        let rates = vec!["1"; n];
        let file = header_bytes(&labels, &rates, "0", "1");
        let header = parse_header(&file).unwrap();
        assert_eq!(header.get_channel_total(), n);
        assert_eq!(header.get_header_size(), 256 + 224 * n + 32 * n);
        assert_eq!(header.get_header_size(), file.len());
        assert_eq!(header.get_record_size(), 0);
        assert_eq!(header.get_duration(), 1);
        assert_eq!(header.channel_metadata.get_labels().len(), n);
        assert_eq!(header.channel_metadata.get_channels().len(), n);
        assert_eq!(header.channel_metadata.reserved.len(), n);
    }
}

#[test]
fn mismatched_header_size_is_refused() {
    for size in ["767", "769", "512", "1024", "255", "0", "480", "704"] {
        let mut file = fixed_section(size, "2", "1", "2");
        file.extend(channel_section(&["Fp1", "Fp2"], &["4", "4"]));
        file.extend(body_bytes(&[4, 4], 1, 2));
        assert_eq!(parse_header(&file).unwrap_err(), BdfError::SizeMismatch, "{}", size);
        assert_eq!(BDF::parse(&file).unwrap_err(), BdfError::SizeMismatch, "{}", size);
    }
}

#[test]
fn mismatched_header_size_comes_before_a_short_source() {
    let file = fixed_section("1000", "2", "1", "2");
    assert_eq!(parse_header(&file).unwrap_err(), BdfError::SizeMismatch);
}

#[test]
fn a_header_that_ends_early_is_out_of_range() {
    let file = header_bytes(&["Fp1", "Fp2"], &["4", "4"], "2", "1");
    assert_eq!(parse_header(&file[..767]).unwrap_err(), BdfError::OutOfRange);
    assert_eq!(parse_header(&file[..256]).unwrap_err(), BdfError::OutOfRange);
    assert_eq!(BDF::parse(&file[..300]).unwrap_err(), BdfError::OutOfRange);
}

#[test]
fn two_channels_two_records() {
    let file = two_channel_file("2", 2);
    let bdf = BDF::parse(&file).unwrap();
    assert_eq!(bdf.header.get_channel_total(), 2);
    assert_eq!(bdf.header.get_header_size(), 768);
    assert_eq!(bdf.header.get_record_size(), 2);
    assert_eq!(bdf.header.get_duration(), 1);
    assert_eq!(bdf.body.labels, vec!["Fp1", "Fp2"]);
    let fp1 = bdf.body.get("Fp1").unwrap();
    let fp2 = bdf.body.get("Fp2").unwrap();
    assert_eq!(fp1.len(), 8);
    assert_eq!(fp2.len(), 8);
    assert_eq!(fp1, &vec![0, 1, 2, 3, 100, 101, 102, 103]);
    assert_eq!(
        fp2,
        &vec![-10_000, -10_001, -10_002, -10_003, -10_100, -10_101, -10_102, -10_103]
    );
    assert!(bdf.body.get("Cz").is_none());
}

#[test]
fn a_body_five_bytes_short_is_truncated() {
    let file = two_channel_file("2", 2);
    let short = &file[..file.len() - 5];
    assert_eq!(BDF::parse(short).unwrap_err(), BdfError::TruncatedBody);
    let header = parse_header(short).unwrap();
    assert_eq!(parse_body(&header, short).unwrap_err(), BdfError::TruncatedBody);
    assert_eq!(BDF::parse(&file[..file.len() - 1]).unwrap_err(), BdfError::TruncatedBody);
    assert_eq!(BDF::parse(&file[..768]).unwrap_err(), BdfError::TruncatedBody);
}

#[test]
fn bytes_behind_the_declared_records_are_left_alone() {
    let mut file = two_channel_file("2", 3);
    file.extend_from_slice(&[1, 2]);
    let bdf = BDF::parse(&file).unwrap();
    assert_eq!(bdf.body.get("Fp1").unwrap(), &vec![0, 1, 2, 3, 100, 101, 102, 103]);
    assert_eq!(bdf.body.get("Fp2").unwrap().len(), 8);
}

#[test]
fn unknown_record_count_reads_the_whole_records() {
    let mut file = two_channel_file("-1", 3);
    file.extend_from_slice(&[0xaa, 0xbb]);
    let bdf = BDF::parse(&file).unwrap();
    assert_eq!(bdf.header.get_record_size(), -1);
    let fp1 = bdf.body.get("Fp1").unwrap();
    let fp2 = bdf.body.get("Fp2").unwrap();
    assert_eq!(fp1, &vec![0, 1, 2, 3, 100, 101, 102, 103, 200, 201, 202, 203]);
    assert_eq!(fp2.len(), 12);
    assert_eq!(fp2[11], -10_203);
}

#[test]
fn unknown_record_count_with_a_partial_record_only() {
    let file = two_channel_file("-1", 1);
    let bdf = BDF::parse(&file[..file.len() - 1]).unwrap();
    assert!(bdf.body.get("Fp1").unwrap().is_empty());
    assert!(bdf.body.get("Fp2").unwrap().is_empty());
    let bdf = BDF::parse(&file[..768]).unwrap();
    assert!(bdf.body.get("Fp1").unwrap().is_empty());
}

#[test]
fn channels_with_different_rates_keep_their_ranges() {
    let rates = [3usize, 1, 5];
    let mut file = header_bytes(&["A", "B", "C"], &["3", "1", "5"], "4", "2");
    file.extend(body_bytes(&rates, 2, 4));
    let bdf = BDF::parse(&file).unwrap();
    for (channel, label) in ["A", "B", "C"].iter().enumerate() {
        let samples = bdf.body.get(label).unwrap();
        let run = rates[channel] * 2;
        assert_eq!(samples.len(), run * 4);
        for record in 0..4 {
            for j in 0..run {
                assert_eq!(samples[record * run + j], value(channel, record, j));
            }
        }
        assert_eq!(&bdf.body.samples[channel], samples);
    }
}

#[test]
fn no_records_give_no_samples() {
    let file = two_channel_file("0", 2);
    let bdf = BDF::parse(&file).unwrap();
    assert_eq!(bdf.body.labels, vec!["Fp1", "Fp2"]);
    assert!(bdf.body.get("Fp1").unwrap().is_empty());
    assert!(bdf.body.get("Fp2").unwrap().is_empty());
}

#[test]
fn records_of_no_bytes_hold_no_samples() {
    let file = header_bytes(&["Fp1", "Fp2"], &["0", "0"], "1000000", "1");
    let bdf = BDF::parse(&file).unwrap();
    assert!(bdf.body.get("Fp1").unwrap().is_empty());
    let file = header_bytes(&["Fp1", "Fp2"], &["4", "4"], "-1", "0");
    let bdf = BDF::parse(&file).unwrap();
    assert!(bdf.body.get("Fp2").unwrap().is_empty());
    let mut file = header_bytes(&["Fp1"], &["0"], "-1", "1");
    file.extend_from_slice(&[1, 2, 3, 4]);
    assert!(BDF::parse(&file).unwrap().body.get("Fp1").unwrap().is_empty());
}

#[test]
fn records_larger_than_any_buffer() {
    let huge = "99999999";
    let mut file = header_bytes(&["Fp1", "Fp2"], &[huge, huge], "1", huge);
    file.extend_from_slice(&[0; 64]);
    assert_eq!(BDF::parse(&file).unwrap_err(), BdfError::TruncatedBody);
    let mut file = header_bytes(&["Fp1", "Fp2"], &[huge, huge], "-1", huge);
    file.extend_from_slice(&[0; 64]);
    assert!(BDF::parse(&file).unwrap().body.get("Fp1").unwrap().is_empty());
    let file = header_bytes(&["Fp1", "Fp2"], &[huge, huge], "0", huge);
    assert!(BDF::parse(&file).unwrap().body.get("Fp2").unwrap().is_empty());
}

#[test]
fn a_file_without_channels() {
    let mut file = header_bytes(&[], &[], "3", "1");
    file.extend_from_slice(&[1, 2, 3]);
    let bdf = BDF::parse(&file).unwrap();
    assert_eq!(bdf.header.get_channel_total(), 0);
    assert!(bdf.body.labels.is_empty());
    assert!(bdf.body.samples.is_empty());
}

#[test]
fn body_starts_at_the_header_size() {
    let file = two_channel_file("1", 1);
    let header: Header = parse_header(&file).unwrap();
    let body = parse_body(&header, &file).unwrap();
    assert_eq!(body.get("Fp1").unwrap(), &vec![0, 1, 2, 3]);
    assert_eq!(body.get("Fp2").unwrap(), &vec![-10_000, -10_001, -10_002, -10_003]);
}

#[test]
fn each_parse_is_a_fresh_result() {
    let file = two_channel_file("2", 2);
    let first = BDF::parse(&file).unwrap();
    let second = BDF::parse(&file).unwrap();
    assert_eq!(first.body.samples, second.body.samples);
    assert_eq!(first.header.channel_metadata.labels, second.header.channel_metadata.labels);
}
