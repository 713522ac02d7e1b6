//! What the parts of the transport share: byte sinks, protocol modes, names of
//! HTTP versions, and endpoints.

use crate::text;
use curl::easy::HttpVersion;
use std::str::FromStr;
use vstd::prelude::*;

verus! {

/// The HTTP versions that `curl` can be asked for.
#[verifier::external_type_specification]
pub struct ExHttpVersion(HttpVersion);

/// Result of probing a URL for download capability.
#[derive(Debug, Clone)]
pub struct ProbeResult {
    pub effective_url_hash: String,
    pub range_support: bool,
    pub content_length: Option<u64>,
    pub protocol: String,
    pub remote_endpoint: String,
    pub local_endpoint: String,
    pub dns_ns: u64,
    pub connect_ns: u64,
    pub tls_ns: u64,
    pub ttfb_ns: u64,
    pub response_headers: Vec<(String, String)>,
}

/// Byte sink for downloaded data. Only `Discard` is implemented.
#[derive(Debug, Clone, Copy, PartialEq, Eq, Structural)]
pub enum Sink {
    /// Discard bytes after page accounting.
    Discard,
    /// Write to a sparse file for gap and overlap validation.
    SparseFile,
    /// Rolling ring buffer for limited content inspection.
    RollingRing,
}

impl Sink {
    /// Whether bytes can go to this sink.
    pub fn is_implemented(&self) -> (res: bool)
        ensures
            res == (*self is Discard),
    {
        matches!(self, Sink::Discard)
    }
}

impl Default for Sink {
    fn default() -> (res: Self)
        ensures
            res == Sink::Discard,
    {
        Sink::Discard
    }
}

/// The HTTP version to ask for.
#[derive(Debug, Clone, Copy, PartialEq, Eq, Structural)]
pub enum ProtocolMode {
    Auto,
    H1,
    H2,
}

impl Default for ProtocolMode {
    fn default() -> (res: Self)
        ensures
            res == ProtocolMode::Auto,
    {
        ProtocolMode::Auto
    }
}

/// The name of a protocol mode.
pub open spec fn mode_name(mode: ProtocolMode) -> Seq<char> {
    match mode {
        ProtocolMode::Auto => "auto"@,
        ProtocolMode::H1 => "h1"@,
        ProtocolMode::H2 => "h2"@,
    }
}

/// The protocol mode that a text names, whatever its case and the white space
/// around it.
pub open spec fn named_mode(s: Seq<char>) -> Option<ProtocolMode> {
    let name = text::ascii_lowercase(text::trim(s));
    if name == "auto"@ {
        Some(ProtocolMode::Auto)
    } else if name == "h1"@ {
        Some(ProtocolMode::H1)
    } else if name == "h2"@ {
        Some(ProtocolMode::H2)
    } else {
        None
    }
}

/// A result is what reading a text as the name of a mode comes to: the mode, or
/// an error that quotes the name where it names none.
pub open spec fn is_parsed(s: Seq<char>, res: Result<ProtocolMode, String>) -> bool {
    match res {
        Ok(mode) => named_mode(s) == Some(mode),
        Err(message) => {
            &&& named_mode(s) is None
            &&& message@ == "unsupported protocol mode '"@ + text::ascii_lowercase(text::trim(s))
                + "'"@
        },
    }
}

impl ProtocolMode {
    /// The version that curl is to be told, if any.
    pub fn http_version(self) -> (res: Option<HttpVersion>)
        ensures
            res == match self {
                ProtocolMode::Auto => None,
                ProtocolMode::H1 => Some(HttpVersion::V11),
                ProtocolMode::H2 => Some(HttpVersion::V2),
            },
    {
        match self {
            ProtocolMode::Auto => None,
            ProtocolMode::H1 => Some(HttpVersion::V11),
            ProtocolMode::H2 => Some(HttpVersion::V2),
        }
    }

    /// The name of the mode.
    pub fn name(&self) -> (res: &'static str)
        ensures
            res@ == mode_name(*self),
    {
        match self {
            ProtocolMode::Auto => "auto",
            ProtocolMode::H1 => "h1",
            ProtocolMode::H2 => "h2",
        }
    }

    /// The mode that `s` names.
    pub fn parse(s: &str) -> (res: Result<Self, String>)
        ensures
            is_parsed(s@, res),
    {
        let trimmed = text::trimmed(s);
        let name = text::lowercase_ascii(trimmed.as_str());
        if text::same_text(name.as_str(), "auto") {
            Ok(ProtocolMode::Auto)
        } else if text::same_text(name.as_str(), "h1") {
            Ok(ProtocolMode::H1)
        } else if text::same_text(name.as_str(), "h2") {
            Ok(ProtocolMode::H2)
        } else {
            let message = text::join("unsupported protocol mode '", name.as_str());
            Err(text::join(message.as_str(), "'"))
        }
    }
}

impl FromStr for ProtocolMode {
    type Err = String;

    fn from_str(s: &str) -> (res: Result<Self, String>)
        ensures
            is_parsed(s@, res),
    {
        ProtocolMode::parse(s)
    }
}

/// The name of each mode names that mode.
pub proof fn mode_name_round_trip(mode: ProtocolMode)
    ensures
        named_mode(mode_name(mode)) == Some(mode),
{
    reveal_strlit("auto");
    reveal_strlit("h1");
    reveal_strlit("h2");
    let name = mode_name(mode);
    assert(text::trim(name) == name);
    assert(text::ascii_lowercase(name) =~= name);
    assert("h1"@[1] == '1');
    assert("h2"@[1] == '2');
}

/// The name of the HTTP version that curl's number `http_ver` stands for.
pub open spec fn http_version_name(http_ver: i64) -> Seq<char> {
    if http_ver == 2 {
        "h1.1"@
    } else if http_ver == 3 {
        "h2"@
    } else if http_ver == 4 {
        "h3"@
    } else {
        "unknown"@
    }
}

/// The name of the HTTP version that curl's number `http_ver` stands for.
pub fn http_version_name_from_curl_info(http_ver: i64) -> (res: &'static str)
    ensures
        res@ == http_version_name(http_ver),
{
    match http_ver {
        2 => "h1.1",
        3 => "h2",
        4 => "h3",
        _ => "unknown",
    }
}

/// A number stands for an HTTP version that was negotiated. Curl gives zero where
/// it cannot tell.
pub open spec fn is_negotiated(http_ver: Option<i64>) -> bool {
    http_ver matches Some(n) && n != 0
}

/// Whether a number stands for an HTTP version that was negotiated.
pub fn version_negotiated(http_ver: Option<i64>) -> (res: bool)
    ensures
        res == is_negotiated(http_ver),
{
    match http_ver {
        Some(n) => n != 0,
        None => false,
    }
}

/// The name of the HTTP version of a transfer, unknown where curl gave no number.
pub open spec fn negotiated_name(http_ver: Option<i64>) -> Seq<char> {
    match http_ver {
        Some(n) => http_version_name(n),
        None => "unknown"@,
    }
}

/// The name of the HTTP version of a transfer, from the number that curl gave
/// for it, if any.
pub fn negotiated_http_version(http_ver: Option<i64>) -> (res: String)
    ensures
        res@ == negotiated_name(http_ver),
{
    match http_ver {
        Some(n) => http_version_name_from_curl_info(n).to_owned(),
        None => "unknown".to_owned(),
    }
}

/// An address and a port with a colon between them.
pub open spec fn endpoint_text(ip: Seq<char>, port: u16) -> Seq<char> {
    ip + ":"@ + text::decimal(port as nat)
}

/// An address and a port with a colon between them.
pub fn endpoint(ip: &str, port: u16) -> (res: String)
    ensures
        res@ == endpoint_text(ip@, port),
{
    let address = text::join(ip, ":");
    let digits = text::decimal_text(port as u64);
    text::join(address.as_str(), digits.as_str())
}

/// The bytes from `start` to `end` as a range for a request.
pub open spec fn range_text(start: u64, end: u64) -> Seq<char> {
    text::decimal(start as nat) + "-"@ + text::decimal(end as nat)
}

/// The bytes from `start` to `end` as a range for a request.
pub fn byte_range(start: u64, end: u64) -> (res: String)
    ensures
        res@ == range_text(start, end),
{
    let first = text::decimal_text(start);
    let last = text::decimal_text(end);
    let open_range = text::join(first.as_str(), "-");
    text::join(open_range.as_str(), last.as_str())
}

/// A range is written as its two ends with a hyphen between them, so both can be
/// read back.
pub proof fn range_can_be_read_back(start: u64, end: u64)
    ensures
        text::split_at_first(range_text(start, end), '-') == Some(
            (text::decimal(start as nat), text::decimal(end as nat)),
        ),
{
    reveal_strlit("-");
    let a = text::decimal(start as nat);
    let b = text::decimal(end as nat);
    text::decimal_is_digits(start as nat);
    assert forall|i: int| 0 <= i < a.len() implies #[trigger] a[i] != '-' by {
        assert(text::is_digit(a[i]));
    }
    assert(range_text(start, end) =~= a.push('-') + b);
    text::first_part_is_before(a, '-', b);
}

/// An endpoint is written as the address and the port with a colon between them,
/// so both can be read back.
pub proof fn endpoint_can_be_read_back(ip: Seq<char>, port: u16)
    ensures
        text::after_last(endpoint_text(ip, port), ':') == text::decimal(port as nat),
        ip.push(':').is_prefix_of(endpoint_text(ip, port)),
        endpoint_text(ip, port).len() == ip.len() + 1 + text::decimal(port as nat).len(),
{
    reveal_strlit(":");
    let b = text::decimal(port as nat);
    text::decimal_is_digits(port as nat);
    assert forall|i: int| 0 <= i < b.len() implies #[trigger] b[i] != ':' by {
        assert(text::is_digit(b[i]));
    }
    assert(endpoint_text(ip, port) =~= ip.push(':') + b);
    text::last_part_is_behind(ip, ':', b);
}

/// The numbers that stand for a version have different names, and any other number
/// has none.
pub proof fn version_numbers_have_names(http_ver: i64)
    ensures
        negotiated_name(Some(2i64)) == "h1.1"@,
        negotiated_name(Some(3i64)) == "h2"@,
        negotiated_name(Some(4i64)) == "h3"@,
        http_ver < 2 || http_ver > 4 ==> negotiated_name(Some(http_ver)) == "unknown"@,
        negotiated_name(None) == "unknown"@,
        is_negotiated(Some(http_ver)) <==> http_ver != 0,
        !is_negotiated(None),
{
}

/// A mode is named whatever the case of the name and the white space around it, and
/// a text that is none of the names names no mode.
pub proof fn modes_are_named(
    before: Seq<char>,
    name: Seq<char>,
    behind: Seq<char>,
    mode: ProtocolMode,
)
    requires
        text::all_space(before),
        text::all_space(behind),
        name.len() == 0 || (!text::is_space(name[0]) && !text::is_space(name.last())),
    ensures
        named_mode(before + name + behind) == Some(mode) <==> text::ascii_lowercase(name)
            == mode_name(mode),
{
    text::trim_leaves_the_middle(before, name, behind);
    reveal_strlit("auto");
    reveal_strlit("h1");
    reveal_strlit("h2");
    assert("h1"@[1] == '1');
    assert("h2"@[1] == '2');
}

/// A text that names no mode is refused, and the message quotes what was read.
pub proof fn unknown_mode_is_quoted(
    before: Seq<char>,
    name: Seq<char>,
    behind: Seq<char>,
    res: Result<ProtocolMode, String>,
)
    requires
        text::all_space(before),
        text::all_space(behind),
        name.len() == 0 || (!text::is_space(name[0]) && !text::is_space(name.last())),
        is_parsed(before + name + behind, res),
    ensures
        res is Ok <==> (text::ascii_lowercase(name) == "auto"@ || text::ascii_lowercase(name)
            == "h1"@ || text::ascii_lowercase(name) == "h2"@),
        res matches Err(message) ==> message@ == "unsupported protocol mode '"@
            + text::ascii_lowercase(name) + "'"@,
{
    text::trim_leaves_the_middle(before, name, behind);
}

} // verus!
