//! The version of the linked libcurl.

use crate::text;
use vstd::prelude::*;

verus! {

/// The number of the linked libcurl version. The outside call is
/// `curl::Version::get().version_num()`, which reads what libcurl says of itself
/// and takes it for granted that libcurl says something. The number has 24 bits.
/// Nothing more is said of it: it depends on the libcurl that the program runs
/// with.
#[verifier::external_body]
fn linked_version_num() -> (res: u32)
    ensures
        res < 0x100_0000,
{
    curl::Version::get().version_num()
}

/// The version text of the linked libcurl. The outside call is
/// `curl::Version::num()`, which hands on what libcurl's `curl_version` says and
/// takes it for granted that this is a text in UTF-8. The text begins with the
/// name of the library and a slash. Nothing is said of the rest, the version and
/// the parts that libcurl was built with: it depends on the libcurl that the
/// program runs with.
#[verifier::external_body]
fn linked_version_text() -> (res: String)
    ensures
        "libcurl/"@.is_prefix_of(res@),
{
    curl::Version::num().to_string()
}

/// The major, minor and patch numbers in a version number, eight bits each.
pub open spec fn parts_of(num: u32) -> (u32, u32, u32) {
    ((num / 65536) % 256, (num / 256) % 256, num % 256)
}

/// A version is recent enough: connection identifiers came with 8.2.0.
pub open spec fn recent_enough(major: u32, minor: u32) -> bool {
    major > 8 || (major == 8 && minor >= 2)
}

/// What to say of a version that is too old.
pub open spec fn too_old_message(major: u32, minor: u32, found: Seq<char>) -> Seq<char> {
    "libcurl "@ + text::decimal(major as nat) + "."@ + text::decimal(minor as nat)
        + ".x is too old. Minimum required: 8.2.0 (for CURLINFO_CONN_ID). Found: "@ + found
}

/// The numbers are those in a version number of 24 bits.
pub open spec fn are_parts_of(parts: (u32, u32, u32), num: u32) -> bool {
    num < 0x100_0000 && parts == parts_of(num)
}

/// The result is the one for a version number of 24 bits and a version text.
pub open spec fn is_verdict(res: Result<(), String>, num: u32, found: Seq<char>) -> bool {
    &&& num < 0x100_0000
    &&& "libcurl/"@.is_prefix_of(found)
    &&& res is Ok <==> recent_enough(parts_of(num).0, parts_of(num).1)
    &&& res matches Err(message) ==> message@ == too_old_message(
        parts_of(num).0,
        parts_of(num).1,
        found,
    )
}

/// The version text of the linked libcurl. It begins with the name of the library.
pub fn curl_version_string() -> (res: String)
    ensures
        "libcurl/"@.is_prefix_of(res@),
{
    linked_version_text()
}

/// The major, minor and patch numbers in a version number.
pub fn version_parts(num: u32) -> (res: (u32, u32, u32))
    ensures
        res == parts_of(num),
{
    assert((num >> 16) & 0xFF == (num / 65536) % 256) by (bit_vector);
    assert((num >> 8) & 0xFF == (num / 256) % 256) by (bit_vector);
    assert(num & 0xFF == num % 256) by (bit_vector);
    ((num >> 16) & 0xFF, (num >> 8) & 0xFF, num & 0xFF)
}

/// The major, minor and patch numbers of the linked libcurl.
pub fn curl_version_info() -> (res: (u32, u32, u32))
    ensures
        exists|num: u32| #[trigger] are_parts_of(res, num),
{
    let num = linked_version_num();
    let parts = version_parts(num);
    assert(are_parts_of(parts, num));
    parts
}

/// Whether a version is recent enough. `found` is the version text to give
/// where it is not.
pub fn version_suffices(major: u32, minor: u32, found: &str) -> (res: Result<(), String>)
    ensures
        res is Ok <==> recent_enough(major, minor),
        res matches Err(message) ==> message@ == too_old_message(major, minor, found@),
{
    if major > 8 || (major == 8 && minor >= 2) {
        Ok(())
    } else {
        let major_text = text::decimal_text(major as u64);
        let minor_text = text::decimal_text(minor as u64);
        let mut message = text::join("libcurl ", major_text.as_str());
        message.append(".");
        message.append(minor_text.as_str());
        message.append(".x is too old. Minimum required: 8.2.0 (for CURLINFO_CONN_ID). Found: ");
        message.append(found);
        Err(message)
    }
}

/// Check that the linked libcurl is recent enough.
pub fn check_minimum_version() -> (res: Result<(), String>)
    ensures
        exists|num: u32, found: Seq<char>| #[trigger] is_verdict(res, num, found),
{
    let parts = curl_version_info();
    let found = curl_version_string();
    let res = version_suffices(parts.0, parts.1, found.as_str());
    proof {
        let num = choose|num: u32| #[trigger] are_parts_of(parts, num);
        assert(is_verdict(res, num, found@));
    }
    res
}

/// Every version from 8.2.0 on is recent enough, and none before it.
pub proof fn minimum_is_eight_two(num: u32)
    requires
        num < 0x100_0000,
    ensures
        recent_enough(parts_of(num).0, parts_of(num).1) <==> num >= 0x08_02_00,
{
}

/// A version number of 24 bits is made up of its three parts, eight bits each.
pub proof fn parts_make_up_the_number(num: u32)
    requires
        num < 0x100_0000,
    ensures
        ({
            let (major, minor, patch) = parts_of(num);
            &&& num == 65_536 * major + 256 * minor + patch
            &&& minor < 256
            &&& patch < 256
        }),
{
}

/// What is said of a version that is too old names it, names the one that is
/// needed, and ends with what was found.
pub proof fn old_version_is_named(major: u32, minor: u32, found: Seq<char>)
    ensures
        ({
            let message = too_old_message(major, minor, found);
            let version = text::decimal(major as nat) + "."@ + text::decimal(minor as nat) + ".x"@;
            &&& ("libcurl "@ + version + " is too old"@).is_prefix_of(message)
            &&& text::has_text(message, "Minimum required: 8.2.0"@)
            &&& ("Found: "@ + found).is_suffix_of(message)
        }),
{
    let version = text::decimal(major as nat) + "."@ + text::decimal(minor as nat) + ".x"@;
    let tail = ".x is too old. Minimum required: 8.2.0 (for CURLINFO_CONN_ID). Found: "@;
    let head = "libcurl "@ + text::decimal(major as nat) + "."@ + text::decimal(minor as nat);
    let message = too_old_message(major, minor, found);
    reveal_strlit(".x is too old. Minimum required: 8.2.0 (for CURLINFO_CONN_ID). Found: ");
    reveal_strlit(".x");
    reveal_strlit(" is too old");
    reveal_strlit("Minimum required: 8.2.0");
    reveal_strlit("Found: ");
    assert(message =~= head + tail + found);
    assert(tail.take(13) =~= ".x"@ + " is too old"@);
    assert("libcurl "@ + version + " is too old"@ =~= head + tail.take(13));
    assert((head + tail.take(13)).is_prefix_of(message));
    assert(tail.subrange(15, 38) =~= "Minimum required: 8.2.0"@);
    assert(message =~= (head + tail.take(15)) + "Minimum required: 8.2.0"@ + (tail.skip(38)
        + found));
    text::text_stands_in_between(
        head + tail.take(15),
        "Minimum required: 8.2.0"@,
        tail.skip(38) + found,
    );
    assert(tail.skip(tail.len() - 7) =~= "Found: "@);
    assert(("Found: "@ + found) =~= message.subrange(
        message.len() - ("Found: "@ + found).len(),
        message.len() as int,
    ));
}

} // verus!
