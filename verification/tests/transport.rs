use curl::easy::HttpVersion;
use frontier_sim::curl_ffi::{
    check_minimum_version, curl_version_info, curl_version_string, version_parts,
    version_suffices,
};
use frontier_sim::transport::{
    byte_range, endpoint, http_version_name_from_curl_info, negotiated_http_version,
    ProtocolMode, Sink,
};
use frontier_sim::url_hash::{effective_url_hash, hex_text, url_hash};

#[test]
fn protocol_mode_parses_cli_values() {
    assert_eq!("auto".parse::<ProtocolMode>().unwrap(), ProtocolMode::Auto);
    assert_eq!("h1".parse::<ProtocolMode>().unwrap(), ProtocolMode::H1);
    assert_eq!("h2".parse::<ProtocolMode>().unwrap(), ProtocolMode::H2);
    assert!("h3".parse::<ProtocolMode>().is_err());
}

#[test]
fn protocol_mode_maps_to_curl_versions() {
    assert!(matches!(ProtocolMode::Auto.http_version(), None));
    assert!(matches!(
        ProtocolMode::H1.http_version(),
        Some(HttpVersion::V11)
    ));
    assert!(matches!(
        ProtocolMode::H2.http_version(),
        Some(HttpVersion::V2)
    ));
}

#[test]
fn curl_http_version_mapping_is_stable() {
    assert_eq!(http_version_name_from_curl_info(2), "h1.1");
    assert_eq!(http_version_name_from_curl_info(3), "h2");
    assert_eq!(http_version_name_from_curl_info(4), "h3");
    assert_eq!(http_version_name_from_curl_info(99), "unknown");
}

#[test]
fn version_string_not_empty() {
    let v = curl_version_string();
    assert!(!v.is_empty());
    assert!(v.contains("libcurl"), "Expected libcurl in version: {v}");
}

#[test]
fn version_string_begins_with_the_name() {
    assert!(curl_version_string().starts_with("libcurl/"));
}

#[test]
fn version_info_reasonable() {
    let (major, minor, _patch) = curl_version_info();
    assert!(major >= 7, "Expected major >= 7, got {major}");
    assert!(minor <= 99, "Minor version {minor} seems unreasonable");
}

#[test]
fn minimum_version_check_passes() {
    assert!(check_minimum_version().is_ok());
}

#[test]
fn version_number_has_three_parts() {
    assert_eq!(version_parts(0x070908), (7, 9, 8));
    assert_eq!(version_parts(0x081300), (8, 19, 0));
    assert_eq!(version_parts(0xff08_0200), (8, 2, 0));
}

#[test]
fn version_before_the_minimum_is_refused() {
    assert!(version_suffices(8, 2, "").is_ok());
    assert!(version_suffices(9, 0, "").is_ok());
    assert_eq!(
        version_suffices(8, 1, "libcurl/8.1.2").unwrap_err(),
        "libcurl 8.1.x is too old. Minimum required: 8.2.0 (for CURLINFO_CONN_ID). Found: libcurl/8.1.2"
    );
    assert!(version_suffices(7, 88, "").is_err());
}

#[test]
fn modes_ignore_case_and_outer_space() {
    assert_eq!(" H2\n".parse::<ProtocolMode>().unwrap(), ProtocolMode::H2);
    assert_eq!(
        " H3 ".parse::<ProtocolMode>().unwrap_err(),
        "unsupported protocol mode 'h3'"
    );
}

#[test]
fn mode_names_round_trip() {
    for mode in [ProtocolMode::Auto, ProtocolMode::H1, ProtocolMode::H2] {
        assert_eq!(mode.name().parse::<ProtocolMode>().unwrap(), mode);
    }
    assert_eq!(ProtocolMode::default(), ProtocolMode::Auto);
}

#[test]
fn only_discard_is_implemented() {
    assert!(Sink::Discard.is_implemented());
    assert!(!Sink::SparseFile.is_implemented());
    assert!(!Sink::RollingRing.is_implemented());
    assert_eq!(Sink::default(), Sink::Discard);
}

#[test]
fn negotiated_version_may_be_unknown() {
    assert_eq!(negotiated_http_version(Some(3)), "h2");
    assert_eq!(negotiated_http_version(Some(1)), "unknown");
    assert_eq!(negotiated_http_version(None), "unknown");
}

#[test]
fn endpoints_and_ranges_are_written_out() {
    assert_eq!(endpoint("127.0.0.1", 5000), "127.0.0.1:5000");
    assert_eq!(endpoint("", 0), ":0");
    assert_eq!(byte_range(0, 131_071), "0-131071");
    assert_eq!(byte_range(10, u64::MAX), "10-18446744073709551615");
}

#[test]
fn url_hash_is_the_sha256_digest() {
    assert_eq!(
        url_hash("abc"),
        "ba7816bf8f01cfea414140de5dae2223b00361a396177a9cb410ff61f20015ad"
    );
    assert_eq!(
        url_hash(""),
        "e3b0c44298fc1c149afbf4c8996fb92427ae41e4649b934ca495991b7852b855"
    );
}

#[test]
fn effective_url_goes_first() {
    assert_eq!(effective_url_hash(Some("abc"), "x"), url_hash("abc"));
    assert_eq!(effective_url_hash(None, "x"), url_hash("x"));
}

#[test]
fn hexadecimal_text_has_two_digits_per_byte() {
    assert_eq!(hex_text(&[0, 9, 10, 15, 16, 255]), "00090a0f10ff");
    assert_eq!(hex_text(&[]), "");
}
