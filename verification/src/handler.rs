//! Planning the response to one connection.
//!
//! The unverified binary reads at most one buffer of bytes from the
//! accepted connection and hands the bytes actually read to
//! [`plan_request`]. The plan says exactly what the handler must do next:
//! which text to echo to standard output, and whether to stream a file
//! back over the connection or to send nothing at all.

use vstd::prelude::*;

use crate::extract::extract_file_path;
use crate::extract::extract_spec;

verus! {

/// The text that lossy UTF-8 decoding yields for the given bytes; a
/// function of the bytes alone.
pub uninterp spec fn lossy_utf8_of(bytes: Seq<u8>) -> Seq<char>;

/// Relies on std's `String::from_utf8_lossy`: the decoded text depends on
/// the bytes alone (invalid sequences become replacement characters).
#[verifier::external_body]
fn decode_utf8_lossy(bytes: &[u8]) -> (r: String)
    ensures
        r@ == lossy_utf8_of(bytes@),
{
    String::from_utf8_lossy(bytes).into_owned()
}

/// What the handler must do with the connection after reading a request.
pub enum RequestAction {
    /// Write nothing back: either no bytes arrived or no path was found.
    Ignore,
    /// Open the named file and stream its raw bytes over the connection.
    ServeFile(Vec<u8>),
}

/// The handler's full plan for one request.
pub struct RequestPlan {
    /// The decoded request text to echo to standard output, when any
    /// bytes were read.
    pub echo: Option<String>,
    /// What to write back over the connection.
    pub action: RequestAction,
}

/// Decide what to do with the bytes read from one connection: echo the
/// decoded text whenever any bytes arrived, and serve the extracted file
/// path when there is one.
pub fn plan_request(data: &[u8]) -> (plan: RequestPlan)
    ensures
        data@.len() == 0 ==> plan.echo is None && plan.action is Ignore,
        data@.len() > 0 ==> (plan.echo matches Some(e) && e@ == lossy_utf8_of(data@)),
        data@.len() > 0 ==> match extract_spec(data@) {
            Some(path) => (plan.action matches RequestAction::ServeFile(q) && q@ == path),
            None => plan.action is Ignore,
        },
{
    if data.is_empty() {
        RequestPlan { echo: None, action: RequestAction::Ignore }
    } else {
        let echo = decode_utf8_lossy(data);
        match extract_file_path(data) {
            Some(path) => RequestPlan {
                echo: Some(echo),
                action: RequestAction::ServeFile(path),
            },
            None => RequestPlan { echo: Some(echo), action: RequestAction::Ignore },
        }
    }
}

} // verus!
