//! The failure kinds shared by every codec, the envelope and the event
//! constructor.

use vstd::prelude::*;

verus! {

/// Why an operation failed. Every fallible function of the crate reports
/// exactly one of these.
#[derive(Clone, Copy, Debug, PartialEq, Eq, Structural)]
pub enum StegError {
    /// Bytes could not be read or written.
    Io,
    /// The input is not an image this crate can turn into a raster.
    UnsupportedImage,
    /// The image is below the minimum size the codec needs.
    TooSmall,
    /// The payload does not fit.
    TooLarge,
    /// No frame could be recovered from the image.
    NotFound,
    /// The input ends before its fixed-size header does.
    TooShort,
    /// The magic prefix is missing.
    BadMagic,
    /// The envelope version is not supported.
    BadVersion,
    /// The declared length exceeds the bytes that are present.
    LenMismatch,
    /// The ciphertext failed authentication.
    AuthFail,
    /// The bytes are not valid UTF-8.
    NotUtf8,
    /// The secret key is malformed or out of range.
    BadKey,
    /// Auxiliary work did not finish in time.
    Timeout,
    /// Text given as base64 is not base64.
    BadBase64,
    /// A signature does not verify under its public key.
    BadSignature,
}

impl StegError {
    /// The one-line, human-readable rendering of each kind.
    pub open spec fn message_spec(self) -> Seq<char> {
        match self {
            StegError::Io => "I/O error"@,
            StegError::UnsupportedImage => "Unsupported or unreadable image"@,
            StegError::TooSmall => "Image too small"@,
            StegError::TooLarge => "Payload too large"@,
            StegError::NotFound => "Not a Stegstr image (magic not found)"@,
            StegError::TooShort => "Payload too short"@,
            StegError::BadMagic => "Magic not found"@,
            StegError::BadVersion => "Unsupported encryption version"@,
            StegError::LenMismatch => "Payload length mismatch"@,
            StegError::AuthFail => "Decryption failed"@,
            StegError::NotUtf8 => "Payload is not valid UTF-8"@,
            StegError::BadKey => "Invalid secret key"@,
            StegError::Timeout => "Timed out after 30 seconds"@,
            StegError::BadBase64 => "Invalid base64 payload"@,
            StegError::BadSignature => "Signature does not verify"@,
        }
    }

    /// Renders the kind as a single line of text.
    pub fn message(&self) -> (text: String)
        ensures
            text@ == self.message_spec(),
    {
        match self {
            StegError::Io => "I/O error".to_owned(),
            StegError::UnsupportedImage => "Unsupported or unreadable image".to_owned(),
            StegError::TooSmall => "Image too small".to_owned(),
            StegError::TooLarge => "Payload too large".to_owned(),
            StegError::NotFound => "Not a Stegstr image (magic not found)".to_owned(),
            StegError::TooShort => "Payload too short".to_owned(),
            StegError::BadMagic => "Magic not found".to_owned(),
            StegError::BadVersion => "Unsupported encryption version".to_owned(),
            StegError::LenMismatch => "Payload length mismatch".to_owned(),
            StegError::AuthFail => "Decryption failed".to_owned(),
            StegError::NotUtf8 => "Payload is not valid UTF-8".to_owned(),
            StegError::BadKey => "Invalid secret key".to_owned(),
            StegError::Timeout => "Timed out after 30 seconds".to_owned(),
            StegError::BadBase64 => "Invalid base64 payload".to_owned(),
            StegError::BadSignature => "Signature does not verify".to_owned(),
        }
    }
}

/// The mathematical value of a byte-vector result.
pub open spec fn bytes_result(r: Result<Vec<u8>, StegError>) -> Result<Seq<u8>, StegError> {
    match r {
        Ok(v) => Ok(v@),
        Err(e) => Err(e),
    }
}

} // verus!
