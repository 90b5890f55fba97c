//! The decoder's entry point: a whole file, header and body.

use crate::body::{body_of, parse_body, BodyView};
use crate::error::BdfError;
use crate::header::{
    fixed_header, header_of, lemma_duplicate_label_rejected, lemma_header_errors,
    lemma_header_size, parse_header,
};
use crate::metadata::HeaderView;
use crate::parse_helpers::text_fields;
use crate::text::text_field;
use vstd::prelude::*;

pub use crate::body::Body;
pub use crate::metadata::{Channel, ChannelMetadata, FileMetadata, Header};

verus! {

/// A decoded file.
#[derive(Debug)]
pub struct BDF {
    /// What the header says of the file and its channels.
    pub header: Header,
    /// The samples of each channel.
    pub body: Body,
}

/// A decoded file as plain values.
pub struct BdfView {
    pub header: HeaderView,
    pub body: BodyView,
}

impl BdfView {
    /// Header and body are well formed, and the body holds the channels of
    /// the header, in the same order.
    pub open spec fn wf(self) -> bool {
        &&& self.header.wf()
        &&& self.body.wf()
        &&& self.body.labels == self.header.channel_metadata.labels
    }
}

impl View for BDF {
    type V = BdfView;

    open spec fn view(&self) -> BdfView {
        BdfView { header: self.header@, body: self.body@ }
    }
}

/// What the file `source` holds: its header, and its body as the header
/// describes it. An error of either is the result as it is.
pub open spec fn bdf_of(source: Seq<u8>) -> Result<BdfView, BdfError> {
    match header_of(source) {
        Err(e) => Err(e),
        Ok(header) => match body_of(header, source) {
            Err(e) => Err(e),
            Ok(body) => Ok(BdfView { header, body }),
        },
    }
}

/// A file whose fixed section does not decode is refused with
/// `MalformedHeader`, whatever else it holds.
pub proof fn lemma_malformed_header_rejected(source: Seq<u8>)
    requires
        fixed_header(source) is Err,
    ensures
        bdf_of(source) == Err::<BdfView, BdfError>(BdfError::MalformedHeader),
{
}

/// A file in which two channels have the same label is refused with
/// `DuplicateChannelLabel`, provided that its header is complete, declares
/// its size rightly and all its labels are text.
pub proof fn lemma_duplicate_label_file_rejected(source: Seq<u8>, i: int, j: int)
    requires
        fixed_header(source) is Ok,
        fixed_header(source)->Ok_0.header_size == 256 + 256 * fixed_header(
            source,
        )->Ok_0.channel_total,
        fixed_header(source)->Ok_0.header_size <= source.len(),
        text_fields(
            source.subrange(256, 256 + 16 * fixed_header(source)->Ok_0.channel_total),
            16,
        ) is Ok,
        0 <= i < j < fixed_header(source)->Ok_0.channel_total,
        text_field(source.subrange(256 + 16 * i, 256 + 16 * i + 16)) == text_field(
            source.subrange(256 + 16 * j, 256 + 16 * j + 16),
        ),
    ensures
        bdf_of(source) == Err::<BdfView, BdfError>(BdfError::DuplicateChannelLabel),
{
    lemma_duplicate_label_rejected(source, i, j);
}

/// The ways in which a file fails: those of its header, and a body that is
/// too short.
pub proof fn lemma_bdf_errors(source: Seq<u8>)
    requires
        bdf_of(source) is Err,
    ensures
        ({
            let e = bdf_of(source)->Err_0;
            ||| e == BdfError::MalformedHeader
            ||| e == BdfError::SizeMismatch
            ||| e == BdfError::OutOfRange
            ||| e == BdfError::EncodingError
            ||| e == BdfError::MalformedField
            ||| e == BdfError::DuplicateChannelLabel
            ||| e == BdfError::TruncatedBody
        }),
{
    if header_of(source) is Err {
        lemma_header_errors(source);
    }
}

/// A file that decodes is well formed.
pub proof fn lemma_bdf_wf(source: Seq<u8>)
    requires
        bdf_of(source) is Ok,
    ensures
        bdf_of(source)->Ok_0.wf(),
{
    lemma_header_size(source);
    let file = bdf_of(source)->Ok_0;
    assert(file.body.labels =~= file.header.channel_metadata.labels);
}

impl BDF {
    /// Decodes a whole file: the header, then the body from the end of the
    /// header on. There is either a whole result or an error, which is that
    /// of the part that failed.
    pub fn parse(source: &[u8]) -> (r: Result<BDF, BdfError>)
        ensures
            match r {
                Ok(file) => bdf_of(source@) == Ok::<_, BdfError>(file@) && file@.wf(),
                Err(e) => bdf_of(source@) == Err::<BdfView, BdfError>(e),
            },
    {
        let header = parse_header(source)?;
        let body = parse_body(&header, source)?;
        proof {
            lemma_bdf_wf(source@);
        }
        Ok(BDF { header, body })
    }
}

} // verus!
