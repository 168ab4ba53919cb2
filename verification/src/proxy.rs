//! The decisions taken for one request: where it is forwarded, and which
//! error report answers it when it cannot be served.

use crate::config::app_config::RedirectionReader;
use crate::config::routes::{best_route, target_url};
use crate::text::{decimal, escaped, push_decimal, push_escaped};
use vstd::prelude::*;
use vstd::string::StringExecFns;

verus! {

/// The status of the report for a path that no prefix routes.
pub const NO_ROUTE: u16 = 404;

/// The status of the report for a request that was routed and then failed:
/// the target was no valid URL, or the backend could not be reached.
pub const FAILED: u16 = 500;

/// An error that answers a request: the status, a message for the reader,
/// and the path that was asked for.
#[derive(Debug, PartialEq, Eq)]
pub struct ErrorReport {
    pub status: u16,
    pub error: String,
    pub path: String,
}

/// What is to be done with a request.
#[derive(Debug, PartialEq, Eq)]
pub enum ProxyDecision {
    /// Send it on to `url` and relay the answer.
    Forward { url: String },
    /// Answer it with `report`.
    Reject { report: ErrorReport },
}

/// The message of the report for `path` when no prefix routes it.
pub open spec fn no_route_message(path: Seq<char>) -> Seq<char> {
    "Failed to find a remap target for "@ + path
}

/// The message of the report for a routed request that failed, `detail`
/// saying how.
pub open spec fn failure_message(detail: Seq<char>) -> Seq<char> {
    "Error encountered during remapping: "@ + detail
}

/// The detail of a failure whose cause is that `url` is no valid URL.
pub open spec fn bad_target_detail(url: Seq<char>) -> Seq<char> {
    "invalid target "@ + url
}

/// The JSON object that carries an error to the client: the message, the
/// status, the path and the time in milliseconds since the epoch, with
/// the two texts escaped as JSON strings.
pub open spec fn error_body(error: Seq<char>, status: u16, path: Seq<char>, timestamp: u128) -> Seq<
    char,
> {
    "{ \"error\": \""@ + escaped(error) + "\", \"status\": "@ + decimal(status as nat)
        + ", \"path\": \""@ + escaped(path) + "\", \"timestamp\": "@ + decimal(timestamp as nat)
        + " }"@
}

/// Whether `hyper::Uri` accepts `text`: what its parser answers, which
/// depends on the characters of `text` alone. The grammar is the parser's
/// and is not written out here.
pub uninterp spec fn parses_as_uri(text: Seq<char>) -> bool;

/// Asks the parser of `hyper::Uri`, its `FromStr`, whether it accepts
/// `url`. The contract is not proved here. It claims that the answer is
/// the one `parses_as_uri` names: the parser reads the bytes of `url` and
/// nothing else, and answers every text with `Ok` or `Err`.
#[verifier::external_body]
fn target_is_valid(url: &String) -> (ok: bool)
    ensures
        ok == parses_as_uri(url@),
{
    url.parse::<hyper::Uri>().is_ok()
}

/// The report for `uri` when no prefix routes it.
pub fn no_route(uri: &String) -> (report: ErrorReport)
    ensures
        report.status == NO_ROUTE,
        report.error@ == no_route_message(uri@),
        report.path@ == uri@,
{
    let error = String::from_str("Failed to find a remap target for ").concat(uri.as_str());
    ErrorReport { status: NO_ROUTE, error, path: uri.clone() }
}

/// The report for `uri` when it was routed and the request then failed,
/// `detail` saying how: the words of the transport's error, for one.
pub fn backend_failure(uri: &String, detail: &str) -> (report: ErrorReport)
    ensures
        report.status == FAILED,
        report.error@ == failure_message(detail@),
        report.path@ == uri@,
{
    let error = String::from_str("Error encountered during remapping: ").concat(detail);
    ErrorReport { status: FAILED, error, path: uri.clone() }
}

/// Decides on the request for `uri`, given the URL that it resolved to, if
/// any, and whether that URL is valid: forward it where there is a valid
/// target, report a failure where the target is not valid, and report
/// that there is no route where it did not resolve.
pub fn decide(uri: &String, resolved: Option<String>, target_valid: bool) -> (r: ProxyDecision)
    ensures
        match resolved {
            Some(target) => if target_valid {
                r matches ProxyDecision::Forward { url } && url@ == target@
            } else {
                &&& r matches ProxyDecision::Reject { report }
                &&& report.status == FAILED
                &&& report.error@ == failure_message(bad_target_detail(target@))
                &&& report.path@ == uri@
            },
            None => {
                &&& r matches ProxyDecision::Reject { report }
                &&& report.status == NO_ROUTE
                &&& report.error@ == no_route_message(uri@)
                &&& report.path@ == uri@
            },
        },
{
    match resolved {
        Some(target) => {
            if target_valid {
                ProxyDecision::Forward { url: target }
            } else {
                let detail = String::from_str("invalid target ").concat(target.as_str());
                ProxyDecision::Reject { report: backend_failure(uri, detail.as_str()) }
            }
        },
        None => ProxyDecision::Reject { report: no_route(uri) },
    }
}

/// Decides on the request for `uri`: resolves it in `reader`, which draws
/// from the group of its best route, and checks the target.
///
/// A path that no prefix routes is answered with the report of `no_route`.
/// A routed path is forwarded to its target, or, where the target is no
/// valid URL, answered with a failure report.
pub fn handle_request(reader: &RedirectionReader, uri: &String) -> (r: ProxyDecision)
    ensures
        match r {
            ProxyDecision::Forward { url } => {
                &&& parses_as_uri(url@)
                &&& exists|ticket: usize| #[trigger] target_url(reader@, uri@, ticket) == Some(url@)
            },
            ProxyDecision::Reject { report } => {
                &&& report.path@ == uri@
                &&& if best_route(reader@, uri@) is None {
                    report.status == NO_ROUTE && report.error@ == no_route_message(uri@)
                } else {
                    &&& report.status == FAILED
                    &&& exists|ticket: usize|
                        #[trigger] target_url(reader@, uri@, ticket) matches Some(target)
                            && !parses_as_uri(target) && report.error@ == failure_message(
                            bad_target_detail(target),
                        )
                }
            },
        },
        best_route(reader@, uri@) is None ==> r is Reject,
{
    let resolved = reader.match_uri(uri);
    let target_valid = match &resolved {
        Some(target) => target_is_valid(target),
        None => false,
    };
    decide(uri, resolved, target_valid)
}

/// The body of the response that carries an error to the client.
pub fn make_error_response(uri: &String, error: &String, status: u16, timestamp: u128) -> (body:
    String)
    ensures
        body@ == error_body(error@, status, uri@, timestamp),
{
    let mut body = String::from_str("{ \"error\": \"");
    push_escaped(&mut body, error.as_str());
    body.append("\", \"status\": ");
    push_decimal(&mut body, status as u128);
    body.append(", \"path\": \"");
    push_escaped(&mut body, uri.as_str());
    body.append("\", \"timestamp\": ");
    push_decimal(&mut body, timestamp);
    body.append(" }");
    body
}

} // verus!
