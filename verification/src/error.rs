//! What can go wrong while a document is read.

use vstd::prelude::*;

use crate::text;

verus! {

/// Errors of the reader.
#[derive(Debug, Clone, PartialEq, Eq)]
pub enum ReadError {
    /// A value reaches past the end of the buffer.
    UnexpectedEndOfBuffer,
    /// More than 100 MiB would have to be made up past the end of the buffer.
    ReadingPastEndOfFile,
    /// A four-byte signature is not one of those expected.
    InvalidSignature { signature: String, offset: usize },
    /// An eight-byte length does not fit in four bytes.
    SizeTooLarge,
    /// A section ends past the end of the buffer.
    SectionExceedsFileSize,
    /// The document breaks a rule of the format.
    StrictViolation(String),
    /// A rectangle is turned inside out or wider or higher than the format allows.
    InvalidBoxSize { kind: String, width: i64, height: i64 },
    /// A bitmap or a table does not fit in what is left of the memory limit.
    ExceededMemoryLimit { requested: usize, available: usize },
}

/// The mathematical view of [`ReadError`].
#[verifier::ext_equal]
pub enum ErrorView {
    UnexpectedEndOfBuffer,
    ReadingPastEndOfFile,
    InvalidSignature { signature: Seq<char>, offset: int },
    SizeTooLarge,
    SectionExceedsFileSize,
    StrictViolation(Seq<char>),
    InvalidBoxSize { kind: Seq<char>, width: int, height: int },
    ExceededMemoryLimit { requested: int, available: int },
}

impl View for ReadError {
    type V = ErrorView;

    open spec fn view(&self) -> ErrorView {
        match *self {
            ReadError::UnexpectedEndOfBuffer => ErrorView::UnexpectedEndOfBuffer,
            ReadError::ReadingPastEndOfFile => ErrorView::ReadingPastEndOfFile,
            ReadError::InvalidSignature { signature, offset } => ErrorView::InvalidSignature {
                signature: signature@,
                offset: offset as int,
            },
            ReadError::SizeTooLarge => ErrorView::SizeTooLarge,
            ReadError::SectionExceedsFileSize => ErrorView::SectionExceedsFileSize,
            ReadError::StrictViolation(message) => ErrorView::StrictViolation(message@),
            ReadError::InvalidBoxSize { kind, width, height } => ErrorView::InvalidBoxSize {
                kind: kind@,
                width: width as int,
                height: height as int,
            },
            ReadError::ExceededMemoryLimit { requested, available } =>
                ErrorView::ExceededMemoryLimit {
                    requested: requested as int,
                    available: available as int,
                },
        }
    }
}

/// Result of the reading operations.
pub type ReadResult<T> = Result<T, ReadError>;

/// The sentence that describes an error. The control characters of a signature, which
/// is taken from the document, are given by their numbers.
pub open spec fn error_message(e: ErrorView) -> Seq<char> {
    match e {
        ErrorView::UnexpectedEndOfBuffer => "Reading bytes exceeding buffer length"@,
        ErrorView::ReadingPastEndOfFile => "Reading past end of file"@,
        ErrorView::InvalidSignature { signature, offset } => "Invalid signature: '"@
            + text::escaped(signature) + "' at 0x"@ + text::hexadecimal(offset),
        ErrorView::SizeTooLarge => "Sizes larger than 4GB are not supported"@,
        ErrorView::SectionExceedsFileSize => "Section exceeds file size"@,
        ErrorView::StrictViolation(message) => message,
        ErrorView::InvalidBoxSize { kind, width, height } => "Invalid "@ + kind + " size: "@
            + text::signed_decimal(width) + "x"@ + text::signed_decimal(height),
        ErrorView::ExceededMemoryLimit { requested, available } => "Exceeded memory limit: "@
            + text::decimal(requested) + " bytes requested, "@ + text::decimal(available)
            + " available"@,
    }
}

impl ReadError {
    /// The sentence that describes the error.
    pub fn message(&self) -> (message: String)
        ensures
            message@ == error_message(self@),
    {
        match self {
            ReadError::UnexpectedEndOfBuffer => text::owned_text(
                "Reading bytes exceeding buffer length",
            ),
            ReadError::ReadingPastEndOfFile => text::owned_text("Reading past end of file"),
            ReadError::InvalidSignature { signature, offset } => {
                let mut message: String = text::owned_text("Invalid signature: '");
                text::push_escaped(&mut message, signature.as_str());
                text::push_text(&mut message, "' at 0x");
                text::push_hexadecimal(&mut message, *offset as u64);
                message
            },
            ReadError::SizeTooLarge => text::owned_text("Sizes larger than 4GB are not supported"),
            ReadError::SectionExceedsFileSize => text::owned_text("Section exceeds file size"),
            ReadError::StrictViolation(message) => text::owned_text(message.as_str()),
            ReadError::InvalidBoxSize { kind, width, height } => {
                let mut message: String = text::owned_text("Invalid ");
                text::push_text(&mut message, kind.as_str());
                text::push_text(&mut message, " size: ");
                text::push_signed_decimal(&mut message, *width);
                text::push_text(&mut message, "x");
                text::push_signed_decimal(&mut message, *height);
                message
            },
            ReadError::ExceededMemoryLimit { requested, available } => {
                let mut message: String = text::owned_text("Exceeded memory limit: ");
                text::push_decimal(&mut message, *requested as u64);
                text::push_text(&mut message, " bytes requested, ");
                text::push_decimal(&mut message, *available as u64);
                text::push_text(&mut message, " available");
                message
            },
        }
    }
}

} // verus!
