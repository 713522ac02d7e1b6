//! Stored runs.

use crate::text;
use vstd::prelude::*;

verus! {

/// Keys of more bytes than this are shortened in lists.
pub const LONGEST_SHOWN_KEY: usize = 38;

/// The bytes that are left of a shortened key.
pub const SHORTENED_KEY: usize = 35;

/// A stored run.
#[derive(Debug, Clone)]
pub struct RunRecord {
    pub run_id: String,
    pub asset_key: String,
    pub provider: String,
    pub started_at: i64,
    pub finished_at: Option<i64>,
    pub envelope_json: Option<String>,
    pub summary_json: Option<String>,
}

/// The bytes of a key.
pub open spec fn key_bytes(key: Seq<char>) -> Seq<u8> {
    vstd::utf8::encode_utf8(key)
}

/// A long key can be cut: the cut does not go through a character.
pub open spec fn can_be_shown(key: Seq<char>) -> bool {
    key_bytes(key).len() > LONGEST_SHOWN_KEY ==> vstd::utf8::is_char_boundary(
        key_bytes(key),
        SHORTENED_KEY as int,
    )
}

/// A key as lists show it: of a long one the first bytes, marked with dots.
pub open spec fn shown_key(key: Seq<char>) -> Seq<char> {
    if key_bytes(key).len() > LONGEST_SHOWN_KEY {
        vstd::utf8::decode_utf8(key_bytes(key).take(SHORTENED_KEY as int)) + "..."@
    } else {
        key
    }
}

/// A key as lists show it.
pub fn short_key(key: &str) -> (res: String)
    requires
        can_be_shown(key@),
    ensures
        res@ == shown_key(key@),
{
    if key.as_bytes().len() > LONGEST_SHOWN_KEY {
        let (front, _rest) = key.split_at(SHORTENED_KEY);
        proof {
            let cut = key_bytes(key@).take(SHORTENED_KEY as int);
            assert(key_bytes(front@) =~= cut);
            vstd::utf8::encode_utf8_decode_utf8(front@);
        }
        text::join(front, "...")
    } else {
        key.to_owned()
    }
}

proof fn lemma_encoding_of_join(a: Seq<char>, b: Seq<char>)
    ensures
        key_bytes(a + b) == key_bytes(a) + key_bytes(b),
    decreases a.len(),
{
    if a.len() == 0 {
        assert(a + b =~= b);
    } else {
        lemma_encoding_of_join(a.drop_first(), b);
        assert((a + b).drop_first() =~= a.drop_first() + b);
        assert((a + b)[0] == a[0]);
        assert(key_bytes(a + b) =~= key_bytes(a) + key_bytes(b));
    }
}

/// No key takes more than 38 bytes in a list, and a shortened one begins with the
/// first 35 bytes of the key.
pub proof fn shown_keys_fit(key: Seq<char>)
    requires
        can_be_shown(key),
    ensures
        key_bytes(shown_key(key)).len() <= LONGEST_SHOWN_KEY,
        key_bytes(key).len() <= LONGEST_SHOWN_KEY ==> shown_key(key) == key,
        key_bytes(key).len() > LONGEST_SHOWN_KEY ==> key_bytes(shown_key(key)).take(
            SHORTENED_KEY as int,
        ) == key_bytes(key).take(SHORTENED_KEY as int),
{
    if key_bytes(key).len() > LONGEST_SHOWN_KEY {
        let cut = key_bytes(key).take(SHORTENED_KEY as int);
        let front = vstd::utf8::decode_utf8(cut);
        vstd::utf8::encode_utf8_valid_utf8(key);
        vstd::utf8::valid_utf8_split(key_bytes(key), SHORTENED_KEY as int);
        assert(cut =~= key_bytes(key).subrange(0, SHORTENED_KEY as int));
        vstd::utf8::decode_utf8_encode_utf8(cut);
        lemma_encoding_of_join(front, "..."@);
        reveal_strlit("...");
        vstd::utf8::is_ascii_chars_encode_utf8("..."@);
        assert(key_bytes(shown_key(key)).take(SHORTENED_KEY as int) =~= cut);
    }
}

/// A key of more than 38 bytes is shown in 38: its first 35 and three dots. A
/// shorter one is shown as it is.
pub proof fn long_keys_are_cut(key: Seq<char>)
    requires
        can_be_shown(key),
    ensures
        key_bytes(key).len() <= 38 ==> shown_key(key) == key,
        key_bytes(key).len() > 38 ==> {
            &&& key_bytes(shown_key(key)).len() == 38
            &&& key_bytes(shown_key(key)).take(35) == key_bytes(key).take(35)
            &&& "..."@.is_suffix_of(shown_key(key))
        },
{
    if key_bytes(key).len() > 38 {
        let cut = key_bytes(key).take(35);
        let front = vstd::utf8::decode_utf8(cut);
        shown_keys_fit(key);
        vstd::utf8::encode_utf8_valid_utf8(key);
        vstd::utf8::valid_utf8_split(key_bytes(key), 35);
        assert(cut =~= key_bytes(key).subrange(0, 35));
        vstd::utf8::decode_utf8_encode_utf8(cut);
        lemma_encoding_of_join(front, "..."@);
        reveal_strlit("...");
        vstd::utf8::is_ascii_chars_encode_utf8("..."@);
        assert("..."@ =~= shown_key(key).subrange(
            shown_key(key).len() - 3,
            shown_key(key).len() as int,
        ));
    }
}

} // verus!
