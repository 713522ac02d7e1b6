//! Response header lines as they come in from the network.

use crate::events;
use crate::text;
use vstd::prelude::*;

verus! {

/// The text of a header line without the white space around it; nothing where
/// the line is not valid UTF-8.
pub open spec fn line_text(data: Seq<u8>) -> Option<Seq<char>> {
    if vstd::utf8::valid_utf8(data) {
        Some(text::trim(vstd::utf8::decode_utf8(data)))
    } else {
        None
    }
}

/// The field in a line: its name in lower case and its value, both without the
/// white space around them. A line without a colon has none.
pub open spec fn field_of(line: Seq<char>) -> Option<(Seq<char>, Seq<char>)> {
    match text::split_at_first(line, ':') {
        Some((name, value)) => Some((text::lower(text::trim(name)), text::trim(value))),
        None => None,
    }
}

/// The response code after a line. A status line sets it to the number that is
/// its second word, or to nothing where that is no number; another line leaves it.
pub open spec fn code_after(line: Seq<char>, code: Option<u32>) -> Option<u32> {
    if "HTTP/"@.is_prefix_of(line) {
        match text::second_word(line) {
            Some(word) => match text::parsed_number(word, u32::MAX as nat) {
                Some(n) => Some(n as u32),
                None => None,
            },
            None => code,
        }
    } else {
        code
    }
}

/// The header fields after one more line.
pub open spec fn fields_after(
    fields: Seq<(Seq<char>, Seq<char>)>,
    data: Seq<u8>,
) -> Seq<(Seq<char>, Seq<char>)> {
    match line_text(data) {
        Some(line) => match field_of(line) {
            Some(field) => fields.push(field),
            None => fields,
        },
        None => fields,
    }
}

/// The text of a header line without the white space around it.
pub fn header_line(data: &[u8]) -> (res: Option<String>)
    ensures
        match res {
            Some(line) => line_text(data@) == Some(line@),
            None => line_text(data@) is None,
        },
{
    match text::decode(data) {
        Some(line) => Some(text::trimmed(line)),
        None => None,
    }
}

/// The field in a header line, its name in lower case.
pub fn header_field(line: &str) -> (res: Option<(String, String)>)
    ensures
        match res {
            Some(field) => field_of(line@) == Some((field.0@, field.1@)),
            None => field_of(line@) is None,
        },
{
    match text::split_once(line, ':') {
        Some((name, value)) => {
            let name = text::trimmed(name.as_str());
            let value = text::trimmed(value.as_str());
            Some((text::lowercase(name.as_str()), value))
        },
        None => None,
    }
}

/// The response code after a header line.
pub fn status_code_after(line: &str, code: Option<u32>) -> (res: Option<u32>)
    ensures
        res == code_after(line@, code),
{
    if text::starts_with(line, "HTTP/") {
        match text::second_word_text(line) {
            Some(word) => match text::parse_number(word.as_str(), u32::MAX as u64) {
                Some(n) => Some(n as u32),
                None => None,
            },
            None => code,
        }
    } else {
        code
    }
}

/// Add the field of one more header line to `headers`, where it has one.
pub fn push_header(headers: &mut Vec<(String, String)>, data: &[u8])
    ensures
        events::text_pairs(final(headers)@) == fields_after(
            events::text_pairs(old(headers)@),
            data@,
        ),
        final(headers)@.len() <= old(headers)@.len() + 1,
        old(headers)@.is_prefix_of(final(headers)@),
{
    if let Some(line) = header_line(data) {
        if let Some(field) = header_field(line.as_str()) {
            headers.push(field);
            assert(events::text_pairs(headers@) =~= fields_after(
                events::text_pairs(old(headers)@),
                data@,
            ));
        }
    }
}

/// The header fields of a response, and its response code.
#[derive(Debug, Clone)]
pub struct ResponseHead {
    pub headers: Vec<(String, String)>,
    pub response_code: Option<u32>,
}

/// A response head with its texts as sequences of characters.
pub struct HeadView {
    pub headers: Seq<(Seq<char>, Seq<char>)>,
    pub response_code: Option<u32>,
}

impl HeadView {
    /// The head after one more line. Header lines of every response in a chain
    /// of redirects add up; the response code is that of the last status line.
    pub open spec fn after_line(self, data: Seq<u8>) -> HeadView {
        HeadView {
            headers: fields_after(self.headers, data),
            response_code: match line_text(data) {
                Some(line) => code_after(line, self.response_code),
                None => self.response_code,
            },
        }
    }
}

impl View for ResponseHead {
    type V = HeadView;

    open spec fn view(&self) -> HeadView {
        HeadView {
            headers: events::text_pairs(self.headers@),
            response_code: self.response_code,
        }
    }
}

impl ResponseHead {
    /// A head without any lines.
    pub fn new() -> (res: Self)
        ensures
            res@ == (HeadView { headers: Seq::empty(), response_code: None }),
    {
        let res = Self { headers: Vec::new(), response_code: None };
        assert(res@.headers =~= Seq::empty());
        res
    }

    /// Take in one header line. The transfer always goes on.
    pub fn header(&mut self, data: &[u8]) -> (res: bool)
        ensures
            res,
            final(self)@ == old(self)@.after_line(data@),
    {
        if let Some(line) = header_line(data) {
            self.response_code = status_code_after(line.as_str(), self.response_code);
        }
        push_header(&mut self.headers, data);
        true
    }
}

/// The value of a field has no white space at its ends.
pub proof fn field_value_is_trimmed(line: Seq<char>)
    ensures
        field_of(line) matches Some((name, value)) ==> value.len() == 0 || (!text::is_space(
            value[0],
        ) && !text::is_space(value.last())),
{
    if let Some((name, value)) = text::split_at_first(line, ':') {
        text::trim_is_idempotent(value);
    }
}

/// A header line is a field: what stands before the first colon is its name, in
/// lower case, what stands behind is its value, both without the white space
/// around them. A line without a colon is none.
pub proof fn colon_makes_a_field(name: Seq<char>, value: Seq<char>)
    requires
        text::lacks(name, ':'),
    ensures
        field_of(name.push(':') + value) == Some((text::lower(text::trim(name)), text::trim(value))),
        field_of(name) is None,
{
    text::first_part_is_before(name, ':', value);
}

/// A status line gives its code: the number behind the version and the white space
/// after it. Where that is no number that fits there is none. A line that is not a
/// status line changes nothing.
pub proof fn status_line_gives_the_code(
    version: Seq<char>,
    gap: Seq<char>,
    word: Seq<char>,
    rest: Seq<char>,
    line: Seq<char>,
    n: nat,
    code: Option<u32>,
)
    requires
        text::no_space(version),
        gap.len() > 0,
        text::all_space(gap),
        word.len() > 0,
        text::no_space(word),
        rest.len() == 0 || text::is_space(rest[0]),
    ensures
        ({
            let status = "HTTP/"@ + version + gap + word + rest;
            &&& word == text::decimal(n) && n <= u32::MAX ==> code_after(status, code) == Some(
                n as u32,
            )
            &&& text::parsed_number(word, u32::MAX as nat) is None ==> code_after(status, code)
                is None
        }),
        !"HTTP/"@.is_prefix_of(line) ==> code_after(line, code) == code,
{
    reveal_strlit("HTTP/");
    let first = "HTTP/"@ + version;
    let status = "HTTP/"@ + version + gap + word + rest;
    assert forall|i: int| 0 <= i < first.len() implies !text::is_space(#[trigger] first[i]) by {
        if i >= 5 {
            assert(first[i] == version[i - 5]);
        }
    }
    assert(status =~= Seq::<char>::empty() + first + gap + word + rest);
    text::second_word_is_second(Seq::empty(), first, gap, word, rest);
    assert("HTTP/"@.is_prefix_of(status));
    if n <= u32::MAX {
        text::decimal_round_trip(n, u32::MAX as nat);
    }
}

/// A line adds no more than one field, behind those that are there, and none of
/// these is changed. A line that is not valid UTF-8 changes nothing.
pub proof fn lines_add_up(head: HeadView, data: Seq<u8>)
    ensures
        ({
            let next = head.after_line(data);
            let line = text::trim(vstd::utf8::decode_utf8(data));
            &&& head.headers.is_prefix_of(next.headers)
            &&& !vstd::utf8::valid_utf8(data) ==> next == head
            &&& vstd::utf8::valid_utf8(data) ==> {
                &&& next.headers.len() == head.headers.len() + if field_of(line) is Some {
                    1int
                } else {
                    0int
                }
                &&& field_of(line) matches Some(field) ==> next.headers.last() == field
                &&& next.response_code == code_after(line, head.response_code)
            }
        }),
{
}

/// A status line of a single word leaves the code as it is.
pub proof fn bare_status_line_changes_nothing(version: Seq<char>, code: Option<u32>)
    requires
        text::no_space(version),
    ensures
        code_after("HTTP/"@ + version, code) == code,
{
    reveal_strlit("HTTP/");
    let line = "HTTP/"@ + version;
    assert forall|i: int| 0 <= i < line.len() implies !text::is_space(#[trigger] line[i]) by {
        if i >= 5 {
            assert(line[i] == version[i - 5]);
        }
    }
    text::one_word_has_no_second(Seq::empty(), line, Seq::empty());
    assert(Seq::<char>::empty() + line + Seq::<char>::empty() =~= line);
}

} // verus!
