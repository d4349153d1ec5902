//! Steganographic transport for short signed notes.
//!
//! The crate embeds byte payloads in raster images with three codecs of
//! different robustness, wraps plaintext in an application envelope, and
//! builds signed text-note events.

pub mod bits;
pub mod bundle;
pub mod digest;
pub mod error;
pub mod event;
pub mod frame;
pub mod image_io;
pub mod keys;
pub mod lsb;
pub mod payload;
pub mod raster;
pub mod stego;
pub mod stego_crypto;
pub mod stego_dot;
pub mod stego_dot_proofs;
pub mod stego_proofs;

use vstd::prelude::*;
use crate::error::StegError;
use crate::payload::{render_payload, rendered};

verus! {

/// What a decode request reports: the payload as text, or the error.
#[derive(Debug)]
pub struct StegoDecodeResult {
    /// Whether a payload was recovered.
    pub ok: bool,
    /// The recovered payload, rendered as text.
    pub payload: Option<String>,
    /// Why nothing was recovered.
    pub error: Option<String>,
}

/// What an encode request reports: where the image was written, or the
/// error.
#[derive(Debug)]
pub struct StegoEncodeResult {
    /// Whether the image was written.
    pub ok: bool,
    /// Where the image was written.
    pub path: Option<String>,
    /// Why nothing was written.
    pub error: Option<String>,
}

/// Reports the outcome of a decode: a recovered payload rendered as text,
/// or the message of the error.
pub fn decode_result(outcome: Result<Vec<u8>, StegError>) -> (report: StegoDecodeResult)
    ensures
        match outcome {
            Ok(payload) => report.ok && report.error is None && report.payload is Some
                && report.payload->Some_0@ == rendered(payload@),
            Err(e) => !report.ok && report.payload is None && report.error is Some
                && report.error->Some_0@ == e.message_spec(),
        },
{
    match outcome {
        Ok(payload) => StegoDecodeResult {
            ok: true,
            payload: Some(render_payload(payload.as_slice())),
            error: None,
        },
        Err(e) => StegoDecodeResult { ok: false, payload: None, error: Some(e.message()) },
    }
}

/// Reports the outcome of an encode whose image was to go to `path`: the
/// path, or the message of the error.
pub fn encode_result(outcome: Result<(), StegError>, path: &str) -> (report: StegoEncodeResult)
    ensures
        match outcome {
            Ok(_) => report.ok && report.error is None && report.path is Some
                && report.path->Some_0@ == path@,
            Err(e) => !report.ok && report.path is None && report.error is Some
                && report.error->Some_0@ == e.message_spec(),
        },
{
    match outcome {
        Ok(_) => StegoEncodeResult { ok: true, path: Some(path.to_owned()), error: None },
        Err(e) => StegoEncodeResult { ok: false, path: None, error: Some(e.message()) },
    }
}

} // verus!
