//! Decoder for the Biosemi Data Format (BDF), a container for multichannel
//! EEG recordings.
//!
//! A file starts with a fixed header section of 256 bytes. A second header
//! section follows, which describes the channels and has 256 bytes for each
//! of them. The body is a sequence of data records; each record holds one
//! run of 24-bit samples for every channel.
//!
//! [`bdf_reader::BDF::parse`] decodes a whole file from its bytes. The other
//! modules hold its parts, leaves first: [`byte_reader`], [`text`] and
//! [`sample`], [`parse_helpers`], [`metadata`], [`header`] with
//! [`channel_header`], and [`body`].

pub mod bdf_reader;
pub mod body;
pub mod byte_reader;
pub mod channel_header;
pub mod error;
pub mod header;
pub mod metadata;
pub mod parse_helpers;
pub mod sample;
pub mod text;
