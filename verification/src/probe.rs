//! Probing of a URL: range support, length, protocol and timing facts.

use crate::download;
use crate::download::TransferReport;
use crate::events;
use crate::headers;
use crate::text;
use crate::transport;
use crate::transport::ProbeResult;
use crate::url_hash;
use vstd::prelude::*;

verus! {

/// Discards body bytes and keeps the headers.
#[derive(Debug, Clone)]
pub struct ProbeHandler {
    pub headers: Vec<(String, String)>,
}

impl ProbeHandler {
    /// A handler that has seen nothing.
    pub fn new() -> (res: Self)
        ensures
            res.headers@ == Seq::<(String, String)>::empty(),
    {
        Self { headers: Vec::new() }
    }

    /// Discard received bytes: all of them count as taken.
    pub fn write(&mut self, data: &[u8]) -> (res: usize)
        ensures
            res == data@.len(),
            *final(self) == *old(self),
    {
        data.len()
    }

    /// Take in a header line. The transfer always goes on.
    pub fn header(&mut self, data: &[u8]) -> (res: bool)
        ensures
            res,
            events::text_pairs(final(self).headers@) == headers::fields_after(
                events::text_pairs(old(self).headers@),
                data@,
            ),
    {
        headers::push_header(&mut self.headers, data);
        true
    }
}

/// The length of the content as the transfer reports it.
#[derive(Debug, Clone, Copy, PartialEq, Eq)]
pub enum ReportedLength {
    /// The transfer cannot tell.
    Unavailable,
    /// The transfer reports no positive length.
    NotPositive,
    /// A positive length.
    Bytes(u64),
}

/// What a finished probe reports.
#[derive(Debug, Clone)]
pub struct ProbeReport {
    pub transfer: TransferReport,
    /// A response code is there.
    pub responded: bool,
    pub content_length: ReportedLength,
}

/// A header says that byte ranges are accepted.
pub open spec fn accepts_ranges(header: (Seq<char>, Seq<char>)) -> bool {
    header.0 == "accept-ranges"@ && text::has_text(text::lower(header.1), "bytes"@)
}

/// Some header says that byte ranges are accepted.
pub open spec fn ranges_supported(headers: Seq<(Seq<char>, Seq<char>)>) -> bool {
    exists|i: int| 0 <= i < headers.len() && accepts_ranges(#[trigger] headers[i])
}

/// Whether some header says that byte ranges are accepted.
pub fn range_support(headers: &Vec<(String, String)>) -> (res: bool)
    ensures
        res == ranges_supported(events::text_pairs(headers@)),
{
    let ghost all = events::text_pairs(headers@);
    let mut i: usize = 0;
    while i < headers.len()
        invariant
            all == events::text_pairs(headers@),
            i <= headers@.len(),
            forall|j: int| 0 <= j < i ==> !accepts_ranges(#[trigger] all[j]),
        decreases headers@.len() - i,
    {
        assert(all[i as int] == (headers@[i as int].0@, headers@[i as int].1@));
        if text::same_text(headers[i].0.as_str(), "accept-ranges") {
            let value = text::lowercase(headers[i].1.as_str());
            if text::contains_text(value.as_str(), "bytes") {
                return true;
            }
        }
        i += 1;
    }
    false
}

/// The value of the first header called `name`.
pub open spec fn first_value(
    headers: Seq<(Seq<char>, Seq<char>)>,
    name: Seq<char>,
) -> Option<Seq<char>>
    decreases headers.len(),
{
    if headers.len() == 0 {
        None
    } else if headers[0].0 == name {
        Some(headers[0].1)
    } else {
        first_value(headers.drop_first(), name)
    }
}

/// The value of the first header called `name`.
pub fn header_value<'a>(headers: &'a Vec<(String, String)>, name: &str) -> (res: Option<&'a str>)
    ensures
        match res {
            Some(value) => first_value(events::text_pairs(headers@), name@) == Some(value@),
            None => first_value(events::text_pairs(headers@), name@) is None,
        },
{
    let ghost all = events::text_pairs(headers@);
    let mut i: usize = 0;
    assert(all.skip(0) =~= all);
    while i < headers.len()
        invariant
            all == events::text_pairs(headers@),
            i <= headers@.len(),
            first_value(all.skip(i as int), name@) == first_value(all, name@),
        decreases headers@.len() - i,
    {
        assert(all.skip(i as int)[0] == (headers@[i as int].0@, headers@[i as int].1@));
        assert(all.skip(i as int).drop_first() =~= all.skip(i + 1));
        if text::same_text(headers[i].0.as_str(), name) {
            return Some(headers[i].1.as_str());
        }
        i += 1;
    }
    None
}

/// The length of the content: as the transfer reports it, or as the header
/// gives it where the transfer reports none.
pub open spec fn length_of(
    reported: ReportedLength,
    headers: Seq<(Seq<char>, Seq<char>)>,
) -> Option<u64> {
    match reported {
        ReportedLength::Unavailable => None,
        ReportedLength::Bytes(n) => Some(n),
        ReportedLength::NotPositive => match first_value(headers, "content-length"@) {
            Some(value) => match text::parsed_number(value, u64::MAX as nat) {
                Some(n) => Some(n as u64),
                None => None,
            },
            None => None,
        },
    }
}

/// The length of the content.
pub fn content_length(reported: ReportedLength, headers: &Vec<(String, String)>) -> (res: Option<
    u64,
>)
    ensures
        res == length_of(reported, events::text_pairs(headers@)),
{
    match reported {
        ReportedLength::Unavailable => None,
        ReportedLength::Bytes(n) => Some(n),
        ReportedLength::NotPositive => match header_value(headers, "content-length") {
            Some(value) => text::parse_number(value, u64::MAX),
            None => None,
        },
    }
}

/// A header value speaks of the second version of the protocol.
pub open spec fn mentions_h2(header: (Seq<char>, Seq<char>)) -> bool {
    text::has_text(header.1, "h2"@) || text::has_text(header.1, "HTTP/2"@)
}

/// The protocol of a probe: what was negotiated. Where that cannot be told, it is
/// what the headers show of it.
pub open spec fn protocol_of(
    responded: bool,
    headers: Seq<(Seq<char>, Seq<char>)>,
    negotiated: Option<i64>,
) -> Seq<char> {
    if !responded {
        "unknown"@
    } else if !transport::is_negotiated(negotiated) && exists|i: int|
        0 <= i < headers.len() && mentions_h2(#[trigger] headers[i]) {
        "h2"@
    } else {
        transport::negotiated_name(negotiated)
    }
}

/// The protocol of a probe.
pub fn probe_protocol(
    responded: bool,
    headers: &Vec<(String, String)>,
    negotiated: Option<i64>,
) -> (res: String)
    ensures
        res@ == protocol_of(responded, events::text_pairs(headers@), negotiated),
{
    if !responded {
        return "unknown".to_owned();
    }
    if transport::version_negotiated(negotiated) {
        return transport::negotiated_http_version(negotiated);
    }
    let ghost all = events::text_pairs(headers@);
    let mut i: usize = 0;
    while i < headers.len()
        invariant
            responded,
            !transport::is_negotiated(negotiated),
            all == events::text_pairs(headers@),
            i <= headers@.len(),
            forall|j: int| 0 <= j < i ==> !mentions_h2(#[trigger] all[j]),
        decreases headers@.len() - i,
    {
        assert(all[i as int] == (headers@[i as int].0@, headers@[i as int].1@));
        if text::contains_text(headers[i].1.as_str(), "h2") || text::contains_text(
            headers[i].1.as_str(),
            "HTTP/2",
        ) {
            return "h2".to_owned();
        }
        i += 1;
    }
    transport::negotiated_http_version(negotiated)
}

/// The result is the one that the handler and the report make.
pub open spec fn is_probe_result(
    result: ProbeResult,
    url: Seq<char>,
    headers: Seq<(Seq<char>, Seq<char>)>,
    report: ProbeReport,
) -> bool {
    let timings = download::phases(report.transfer.times);
    &&& result.effective_url_hash@ == url_hash::url_digest(
        match report.transfer.effective_url {
            Some(effective) => effective@,
            None => url,
        },
    )
    &&& result.range_support == ranges_supported(headers)
    &&& result.content_length == length_of(report.content_length, headers)
    &&& result.protocol@ == protocol_of(
        report.responded,
        headers,
        report.transfer.http_version,
    )
    &&& result.remote_endpoint@ == transport::endpoint_text(
        report.transfer.remote_ip@,
        report.transfer.remote_port,
    )
    &&& result.local_endpoint@ == transport::endpoint_text(
        report.transfer.local_ip@,
        report.transfer.local_port,
    )
    &&& result.dns_ns == timings.dns_ns
    &&& result.connect_ns == timings.connect_ns
    &&& result.tls_ns == timings.tls_ns
    &&& result.ttfb_ns == timings.ttfb_ns
    &&& events::text_pairs(result.response_headers@) == headers
}

/// What a probe of `url` that went through amounts to.
pub fn finish_probe(url: &str, handler: ProbeHandler, report: &ProbeReport) -> (res: ProbeResult)
    ensures
        is_probe_result(res, url@, events::text_pairs(handler.headers@), *report),
{
    let timings = download::transfer_timings(&report.transfer.times);
    let hash = match &report.transfer.effective_url {
        Some(effective) => url_hash::effective_url_hash(Some(effective.as_str()), url),
        None => url_hash::effective_url_hash(None, url),
    };
    let supported = range_support(&handler.headers);
    let length = content_length(report.content_length, &handler.headers);
    let protocol = probe_protocol(
        report.responded,
        &handler.headers,
        report.transfer.http_version,
    );
    ProbeResult {
        effective_url_hash: hash,
        range_support: supported,
        content_length: length,
        protocol,
        remote_endpoint: transport::endpoint(
            report.transfer.remote_ip.as_str(),
            report.transfer.remote_port,
        ),
        local_endpoint: transport::endpoint(
            report.transfer.local_ip.as_str(),
            report.transfer.local_port,
        ),
        dns_ns: timings.dns_ns,
        connect_ns: timings.connect_ns,
        tls_ns: timings.tls_ns,
        ttfb_ns: timings.ttfb_ns,
        response_headers: handler.headers,
    }
}

/// Range support is never lost by a further header.
pub proof fn range_support_is_monotone(
    headers: Seq<(Seq<char>, Seq<char>)>,
    more: (Seq<char>, Seq<char>),
)
    requires
        ranges_supported(headers),
    ensures
        ranges_supported(headers.push(more)),
{
    let i = choose|i: int| 0 <= i < headers.len() && accepts_ranges(#[trigger] headers[i]);
    assert(headers.push(more)[i] == headers[i]);
}

/// The value of a header is that of the first one of its name; there is none only
/// where no header has the name.
pub proof fn first_header_counts(headers: Seq<(Seq<char>, Seq<char>)>, name: Seq<char>, k: int)
    ensures
        0 <= k < headers.len() && headers[k].0 == name && (forall|i: int|
            0 <= i < k ==> (#[trigger] headers[i]).0 != name) ==> first_value(headers, name) == Some(
            headers[k].1,
        ),
        (forall|i: int| 0 <= i < headers.len() ==> (#[trigger] headers[i]).0 != name)
            ==> first_value(headers, name) is None,
    decreases headers.len(),
{
    if headers.len() > 0 && headers[0].0 != name {
        let rest = headers.drop_first();
        first_header_counts(rest, name, k - 1);
        if forall|i: int| 0 <= i < k ==> (#[trigger] headers[i]).0 != name {
            assert forall|i: int| 0 <= i < k - 1 && i < rest.len() implies (
            #[trigger] rest[i]).0 != name by {
                assert(rest[i] == headers[i + 1]);
            }
        }
        if forall|i: int| 0 <= i < headers.len() ==> (#[trigger] headers[i]).0 != name {
            assert forall|i: int| 0 <= i < rest.len() implies (#[trigger] rest[i]).0 != name by {
                assert(rest[i] == headers[i + 1]);
            }
        }
    } else if headers.len() > 0 && 0 < k < headers.len() {
        assert(headers[0].0 == name);
    }
}

/// The length of a content is the one that the transfer reports. Where it reports
/// none above zero, it is the number in the first header for the length, and where
/// the transfer cannot tell at all there is none.
pub proof fn reported_length_goes_first(
    headers: Seq<(Seq<char>, Seq<char>)>,
    n: u64,
    value: Seq<char>,
)
    ensures
        length_of(ReportedLength::Bytes(n), headers) == Some(n),
        length_of(ReportedLength::Unavailable, headers) is None,
        first_value(headers, "content-length"@) is None ==> length_of(
            ReportedLength::NotPositive,
            headers,
        ) is None,
        first_value(headers, "content-length"@) == Some(text::decimal(n as nat)) ==> length_of(
            ReportedLength::NotPositive,
            headers,
        ) == Some(n),
        first_value(headers, "content-length"@) == Some(value) && text::parsed_number(
            value,
            u64::MAX as nat,
        ) is None ==> length_of(ReportedLength::NotPositive, headers) is None,
{
    text::decimal_round_trip(n as nat, u64::MAX as nat);
}

/// Ranges are supported if and only if some header for it says bytes, in any case.
pub proof fn range_support_is_said(headers: Seq<(Seq<char>, Seq<char>)>)
    ensures
        ranges_supported(headers) <==> exists|i: int|
            {
                &&& 0 <= i < headers.len()
                &&& (#[trigger] headers[i]).0 == "accept-ranges"@
                &&& text::has_text(text::lower(headers[i].1), "bytes"@)
            },
        headers.len() == 0 ==> !ranges_supported(headers),
{
    if ranges_supported(headers) {
        let i = choose|i: int| 0 <= i < headers.len() && accepts_ranges(#[trigger] headers[i]);
        assert(headers[i].0 == "accept-ranges"@);
    }
    if exists|i: int|
        {
            &&& 0 <= i < headers.len()
            &&& (#[trigger] headers[i]).0 == "accept-ranges"@
            &&& text::has_text(text::lower(headers[i].1), "bytes"@)
        } {
        let i = choose|i: int|
            {
                &&& 0 <= i < headers.len()
                &&& (#[trigger] headers[i]).0 == "accept-ranges"@
                &&& text::has_text(text::lower(headers[i].1), "bytes"@)
            };
        assert(accepts_ranges(headers[i]));
    }
}

/// Without a response the protocol of a probe is unknown. With one and without a
/// negotiated version it is the second version where a header speaks of it, and
/// unknown otherwise.
pub proof fn probe_guesses_only_without_a_version(
    headers: Seq<(Seq<char>, Seq<char>)>,
    negotiated: Option<i64>,
    i: int,
)
    ensures
        protocol_of(false, headers, negotiated) == "unknown"@,
        negotiated is None || negotiated == Some(0i64) ==> {
            &&& 0 <= i < headers.len() && (text::has_text(headers[i].1, "h2"@) || text::has_text(
                headers[i].1,
                "HTTP/2"@,
            )) ==> protocol_of(true, headers, negotiated) == "h2"@
            &&& (forall|j: int|
                0 <= j < headers.len() ==> !text::has_text((#[trigger] headers[j]).1, "h2"@)
                    && !text::has_text(headers[j].1, "HTTP/2"@)) ==> protocol_of(
                true,
                headers,
                negotiated,
            ) == "unknown"@
        },
{
    if 0 <= i < headers.len() && (text::has_text(headers[i].1, "h2"@) || text::has_text(
        headers[i].1,
        "HTTP/2"@,
    )) {
        assert(mentions_h2(headers[i]));
    }
}

/// What a probe came to: everything comes from the transfer itself, each part from
/// its own place.
pub proof fn probe_tells_the_transfer(
    result: ProbeResult,
    url: Seq<char>,
    headers: Seq<(Seq<char>, Seq<char>)>,
    report: ProbeReport,
)
    requires
        is_probe_result(result, url, headers, report),
    ensures
        report.transfer.effective_url matches Some(effective) ==> result.effective_url_hash@
            == url_hash::url_digest(effective@),
        report.transfer.effective_url is None ==> result.effective_url_hash@
            == url_hash::url_digest(url),
        result.remote_endpoint@ == transport::endpoint_text(
            report.transfer.remote_ip@,
            report.transfer.remote_port,
        ),
        result.local_endpoint@ == transport::endpoint_text(
            report.transfer.local_ip@,
            report.transfer.local_port,
        ),
        events::text_pairs(result.response_headers@) == headers,
        report.transfer.times.namelookup_ns matches Some(ns) ==> result.dns_ns == ns,
        report.transfer.times.connect_ns matches Some(ns) ==> result.connect_ns == ns,
        report.transfer.times.starttransfer_ns matches Some(ns) ==> result.ttfb_ns == ns,
        report.transfer.times.appconnect_ns matches Some(done) ==> {
            &&& result.connect_ns <= done ==> result.connect_ns + result.tls_ns == done
            &&& done < result.connect_ns ==> result.tls_ns == 0
        },
        result.range_support == ranges_supported(headers),
        result.content_length == length_of(report.content_length, headers),
        result.protocol@ == protocol_of(report.responded, headers, report.transfer.http_version),
{
}

} // verus!
