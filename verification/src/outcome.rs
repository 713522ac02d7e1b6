//! What a finished request amounts to: its error class, its HTTP version and
//! the protocol of its connection.

use crate::download;
use crate::events;
use crate::events::{ErrorClass, TransferTimings};
use crate::headers::{HeadView, ResponseHead};
use crate::probe;
use crate::text;
use crate::transport;
use vstd::prelude::*;

verus! {

/// The HTTP status codes from here on are errors.
pub const FIRST_ERROR_CODE: u32 = 400;

/// The class of a failure, from its description in lower case, the number of
/// bytes received, and the response code.
pub open spec fn failure_class(desc: Seq<char>, bytes: u64, code: Option<u32>) -> ErrorClass {
    if text::has_text(desc, "timeout"@) || text::has_text(desc, "timed out"@) {
        ErrorClass::Timeout
    } else if text::has_text(desc, "reset"@) || (text::has_text(desc, "connection"@)
        && text::has_text(desc, "refused"@)) {
        ErrorClass::ConnectionReset
    } else if text::has_text(desc, "resolve"@) || text::has_text(desc, "dns"@) {
        ErrorClass::DnsFailure
    } else if text::has_text(desc, "ssl"@) || text::has_text(desc, "tls"@) || text::has_text(
        desc,
        "certificate"@,
    ) {
        ErrorClass::TlsFailure
    } else if text::has_text(desc, "recv"@) || text::has_text(desc, "eof"@) || text::has_text(
        desc,
        "closed"@,
    ) {
        ErrorClass::RecvError
    } else if bytes == 0 && is_error_code(code) {
        ErrorClass::HttpError
    } else {
        ErrorClass::Other
    }
}

/// A response code is there, and it is that of an error.
pub open spec fn is_error_code(code: Option<u32>) -> bool {
    code matches Some(c) && c >= FIRST_ERROR_CODE
}

/// The class of the error of a request, if there is one: that of the failure of
/// the transfer, and an HTTP error where the transfer itself went through.
pub open spec fn error_of(error: Option<Seq<char>>, bytes: u64, code: Option<u32>) -> Option<
    ErrorClass,
> {
    match error {
        Some(desc) => Some(failure_class(text::lower(desc), bytes, code)),
        None => if is_error_code(code) {
            Some(ErrorClass::HttpError)
        } else {
            None
        },
    }
}

/// The class of a failure, from its description in lower case.
pub fn classify_failure(desc: &str, bytes: u64, code: Option<u32>) -> (res: ErrorClass)
    ensures
        res == failure_class(desc@, bytes, code),
{
    if text::contains_text(desc, "timeout") || text::contains_text(desc, "timed out") {
        ErrorClass::Timeout
    } else if text::contains_text(desc, "reset") || (text::contains_text(desc, "connection")
        && text::contains_text(desc, "refused")) {
        ErrorClass::ConnectionReset
    } else if text::contains_text(desc, "resolve") || text::contains_text(desc, "dns") {
        ErrorClass::DnsFailure
    } else if text::contains_text(desc, "ssl") || text::contains_text(desc, "tls")
        || text::contains_text(desc, "certificate") {
        ErrorClass::TlsFailure
    } else if text::contains_text(desc, "recv") || text::contains_text(desc, "eof")
        || text::contains_text(desc, "closed") {
        ErrorClass::RecvError
    } else if bytes == 0 && has_error_code(code) {
        ErrorClass::HttpError
    } else {
        ErrorClass::Other
    }
}

/// Whether a response code is there and is that of an error.
fn has_error_code(code: Option<u32>) -> (res: bool)
    ensures
        res == is_error_code(code),
{
    match code {
        Some(c) => c >= FIRST_ERROR_CODE,
        None => false,
    }
}

/// The class of the error of a request, if there is one.
pub fn classify_error(error: Option<&str>, bytes: u64, code: Option<u32>) -> (res: Option<
    ErrorClass,
>)
    ensures
        res == error_of(
            match error {
                Some(desc) => Some(desc@),
                None => None,
            },
            bytes,
            code,
        ),
{
    match error {
        Some(desc) => {
            let desc = text::lowercase(desc);
            Some(classify_failure(desc.as_str(), bytes, code))
        },
        None => if has_error_code(code) {
            Some(ErrorClass::HttpError)
        } else {
            None
        },
    }
}

/// Some header name speaks of the second version of the protocol.
pub open spec fn some_name_h2(headers: Seq<(Seq<char>, Seq<char>)>) -> bool {
    exists|i: int|
        0 <= i < headers.len() && text::has_text((#[trigger] headers[i]).0, "http/2"@)
}

/// The name of the HTTP version of a request: what was negotiated. Where that
/// cannot be told, it is what the header names of a response show.
pub open spec fn version_of(head: HeadView, negotiated: Option<i64>) -> Seq<char> {
    if !transport::is_negotiated(negotiated) && head.response_code is Some && some_name_h2(
        head.headers,
    ) {
        "h2"@
    } else {
        match negotiated {
            Some(n) => if n == 2 || n == 3 || n == 4 {
                transport::http_version_name(n)
            } else {
                "http/"@ + text::decimal_signed(n as int)
            },
            None => "unknown"@,
        }
    }
}

/// Whether some header name speaks of the second version of the protocol.
fn names_h2(headers: &Vec<(String, String)>) -> (res: bool)
    ensures
        res == some_name_h2(events::text_pairs(headers@)),
{
    let ghost all = events::text_pairs(headers@);
    let mut i: usize = 0;
    while i < headers.len()
        invariant
            all == events::text_pairs(headers@),
            i <= headers@.len(),
            forall|j: int| 0 <= j < i ==> !text::has_text((#[trigger] all[j]).0, "http/2"@),
        decreases headers@.len() - i,
    {
        assert(all[i as int].0 == headers@[i as int].0@);
        if text::contains_text(headers[i].0.as_str(), "http/2") {
            return true;
        }
        i += 1;
    }
    false
}

/// The name of the HTTP version of a request.
pub fn request_http_version(head: &ResponseHead, negotiated: Option<i64>) -> (res: String)
    ensures
        res@ == version_of(head@, negotiated),
{
    if !transport::version_negotiated(negotiated) && head.response_code.is_some() && names_h2(
        &head.headers,
    ) {
        return "h2".to_owned();
    }
    match negotiated {
        Some(n) => if n == 2 || n == 3 || n == 4 {
            transport::http_version_name_from_curl_info(n).to_owned()
        } else {
            let digits = text::decimal_text_signed(n);
            text::join("http/", digits.as_str())
        },
        None => "unknown".to_owned(),
    }
}

/// The protocol of a connection: whether it is encrypted, and the HTTP version.
pub open spec fn protocol_text(timings: TransferTimings, version: Seq<char>) -> Seq<char> {
    if timings.tls_ns > 0 {
        "https/"@ + version
    } else {
        "http/"@ + version
    }
}

/// The protocol of a connection.
pub fn connection_protocol(timings: &TransferTimings, version: &str) -> (res: String)
    ensures
        res@ == protocol_text(*timings, version@),
{
    if timings.tls_ns > 0 {
        text::join("https/", version)
    } else {
        text::join("http/", version)
    }
}

/// The version that was negotiated is the one that a request, a download and a
/// probe show, whatever their headers say.
pub proof fn negotiated_version_counts(
    head: HeadView,
    headers: Seq<(Seq<char>, Seq<char>)>,
    http_ver: i64,
)
    requires
        2 <= http_ver <= 4,
    ensures
        version_of(head, Some(http_ver)) == transport::http_version_name(http_ver),
        download::download_version(headers, Some(http_ver)) == transport::http_version_name(
            http_ver,
        ),
        probe::protocol_of(true, headers, Some(http_ver)) == transport::http_version_name(
            http_ver,
        ),
{
}

/// A failure is classed by the words in its description. Where several classes
/// have a word in it, a time that ran out goes before a lost connection, that
/// before a name that could not be resolved, that before the encryption, and that
/// before a broken transfer. Without such a word, an error status counts where
/// nothing was received.
pub proof fn words_tell_the_failure(desc: Seq<char>, bytes: u64, code: Option<u32>)
    ensures
        ({
            let class = failure_class(desc, bytes, code);
            let late = text::has_text(desc, "timeout"@) || text::has_text(desc, "timed out"@);
            let lost = text::has_text(desc, "reset"@) || (text::has_text(desc, "connection"@)
                && text::has_text(desc, "refused"@));
            let name = text::has_text(desc, "resolve"@) || text::has_text(desc, "dns"@);
            let secure = text::has_text(desc, "ssl"@) || text::has_text(desc, "tls"@)
                || text::has_text(desc, "certificate"@);
            let broken = text::has_text(desc, "recv"@) || text::has_text(desc, "eof"@)
                || text::has_text(desc, "closed"@);
            let refused = bytes == 0 && (code matches Some(c) && c >= 400);
            &&& class == ErrorClass::Timeout <==> late
            &&& class == ErrorClass::ConnectionReset <==> !late && lost
            &&& class == ErrorClass::DnsFailure <==> !late && !lost && name
            &&& class == ErrorClass::TlsFailure <==> !late && !lost && !name && secure
            &&& class == ErrorClass::RecvError <==> !late && !lost && !name && !secure && broken
            &&& class == ErrorClass::HttpError <==> !late && !lost && !name && !secure && !broken
                && refused
        }),
{
}

/// A request has an error if and only if its transfer failed or its status is one.
/// How the description is spelled, in capitals or not, makes no difference.
pub proof fn errors_are_failures_or_statuses(
    error: Option<Seq<char>>,
    other: Option<Seq<char>>,
    bytes: u64,
    code: Option<u32>,
)
    ensures
        error_of(error, bytes, code) is Some <==> error is Some || (code matches Some(c) && c
            >= 400),
        error is None && (code matches Some(c) && c >= 400) ==> error_of(error, bytes, code) == Some(
            ErrorClass::HttpError,
        ),
        error matches Some(desc) ==> error_of(error, bytes, code) == Some(
            failure_class(text::lower(desc), bytes, code),
        ),
        error is Some && other is Some && text::lower(error->0) == text::lower(other->0)
            ==> error_of(error, bytes, code) == error_of(other, bytes, code),
{
}

/// Without a negotiated version, that of a request is the second one where a
/// response came with a header name that speaks of it. Otherwise it is unknown, or
/// the number that stands for it.
pub proof fn request_guesses_only_without_a_version(head: HeadView, http_ver: i64, i: int)
    ensures
        0 <= i < head.headers.len() && text::has_text(head.headers[i].0, "http/2"@)
            && head.response_code is Some ==> {
            &&& version_of(head, None) == "h2"@
            &&& version_of(head, Some(0i64)) == "h2"@
        },
        head.response_code is None || (forall|j: int|
            0 <= j < head.headers.len() ==> !text::has_text(
                (#[trigger] head.headers[j]).0,
                "http/2"@,
            )) ==> {
            &&& version_of(head, None) == "unknown"@
            &&& version_of(head, Some(0i64)) == "http/"@ + text::decimal_signed(0)
        },
        http_ver != 0 && !(2 <= http_ver <= 4) ==> version_of(head, Some(http_ver)) == "http/"@
            + text::decimal_signed(http_ver as int),
{
    if 0 <= i < head.headers.len() && text::has_text(head.headers[i].0, "http/2"@) {
        assert(some_name_h2(head.headers));
    }
}

/// The protocol of a connection is encrypted if and only if a handshake took time.
pub proof fn handshake_tells_encryption(timings: TransferTimings, version: Seq<char>)
    ensures
        timings.tls_ns > 0 ==> protocol_text(timings, version) == "https/"@ + version,
        timings.tls_ns == 0 ==> protocol_text(timings, version) == "http/"@ + version,
{
}

} // verus!
