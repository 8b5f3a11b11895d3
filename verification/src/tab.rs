//! What a tab decides about the answers to its commands. Sending the command
//! and waiting for the answer is the caller's part.

use vstd::prelude::*;
use crate::cdp::FrameId;
use crate::error::{CdpError, CdpErrorView};
use crate::types::{CommandResponse, Response};

verus! {

#[verifier::external_type_specification]
#[verifier::external_body]
pub struct ExDecodeError(base64::DecodeError);

/// The bytes that `text` stands for in base64 with the standard alphabet, as
/// `base64::decode` reads it, or `None` where it reads no bytes from `text`.
pub uninterp spec fn base64_decoded(text: Seq<char>) -> Option<Seq<u8>>;

/// `base64::decode`: the decoded bytes, or the reason why the text is not
/// base64. (The length calculations in it cannot overflow: no string is
/// longer than `isize::MAX` bytes.)
#[verifier::external_body]
fn base64_decode(text: &str) -> (decoded: Result<Vec<u8>, base64::DecodeError>)
    ensures
        match decoded {
            Ok(bytes) => base64_decoded(text@) == Some(bytes@),
            Err(_) => base64_decoded(text@) is None,
        },
{
    base64::decode(text)
}

/// The text that `base64::DecodeError` prints for itself.
#[verifier::external_body]
fn decode_error_text(err: &base64::DecodeError) -> String {
    format!("{}", err)
}

/// What a response means for the command `method` that it answers: its
/// result, the error that the browser reported, or that it holds neither.
pub fn command_response(response: Response, method: String) -> (outcome: Result<
    CommandResponse<serde_json::Value>,
    CdpError,
>)
    ensures
        match outcome {
            Ok(answer) => response.result == Some(answer.result) && answer.id == response.id
                && answer.method == method,
            Err(err) => response.result is None && err@ == match response.error {
                Some(reported) => CdpErrorView::Protocol {
                    code: reported.code,
                    message: reported.message@,
                },
                None => CdpErrorView::EmptyResponse,
            },
        },
{
    if let Some(result) = response.result {
        Ok(CommandResponse { id: response.id, result, method })
    } else if let Some(err) = response.error {
        Err(CdpError::Protocol { code: err.code, message: err.message })
    } else {
        Err(CdpError::EmptyResponse)
    }
}

/// What the answer to a navigation command means: the frame that navigates,
/// or the error text where the browser gave one.
pub fn navigation_result(frame_id: FrameId, error_text: Option<String>) -> (outcome: Result<
    FrameId,
    String,
>)
    ensures
        outcome == match error_text {
            Some(text) => Err::<FrameId, String>(text),
            None => Ok(frame_id),
        },
{
    match error_text {
        Some(text) => Err(text),
        None => Ok(frame_id),
    }
}

/// The title of a document: an empty title counts as none.
pub fn document_title(title: String) -> (shown: Option<String>)
    ensures
        shown == if title@.len() == 0 {
            None
        } else {
            Some(title)
        },
{
    if title.as_str().is_empty() {
        None
    } else {
        Some(title)
    }
}

/// The bytes of a printed page from the base64 text in which the browser
/// sends them.
pub fn pdf_bytes(data: &str) -> (bytes: Result<Vec<u8>, CdpError>)
    ensures
        match bytes {
            Ok(decoded) => base64_decoded(data@) == Some(decoded@),
            Err(err) => base64_decoded(data@) is None && err@ is Serialization,
        },
{
    match base64_decode(data) {
        Ok(decoded) => Ok(decoded),
        Err(err) => Err(CdpError::Serialization(decode_error_text(&err))),
    }
}

} // verus!
