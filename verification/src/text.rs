//! Text as sequences of characters: trimming, searching, splitting, case
//! folding and decimal numerals.
//!
//! Every executable function here works on `&str` and `String`; the
//! specifications speak of their views, which are sequences of `char`.

use vstd::prelude::*;

verus! {

/// `String::push` appends one character at the end of the string.
pub assume_specification[ String::push ](s: &mut String, c: char)
    ensures
        final(s)@ == old(s)@.push(c),
;

/// What `str::to_lowercase` returns: the lowercase equivalent of a text under
/// the Unicode case mapping.
pub uninterp spec fn unicode_lowercase(s: Seq<char>) -> Seq<char>;

/// `str::to_lowercase` gives the Unicode lowercase equivalent of its text. On a
/// text of ASCII characters alone that is `A`-`Z` mapped to `a`-`z` and
/// everything else kept; how other characters map is left to the name.
#[verifier::external_body]
fn str_to_lowercase(s: &str) -> (res: String)
    ensures
        res@ == unicode_lowercase(s@),
        vstd::utf8::is_ascii_chars(s@) ==> res@ == ascii_lowercase(s@),
{
    s.to_lowercase()
}

/// `std::str::from_utf8` accepts exactly the valid UTF-8 byte sequences, and
/// the text it gives has those bytes as its encoding.
#[verifier::external_body]
fn str_from_utf8(bytes: &[u8]) -> (res: Option<&str>)
    ensures
        res is Some <==> vstd::utf8::valid_utf8(bytes@),
        res matches Some(s) ==> s@ == vstd::utf8::decode_utf8(bytes@),
{
    std::str::from_utf8(bytes).ok()
}

// ---------------------------------------------------------------------------
// Characters
// ---------------------------------------------------------------------------

/// The characters with the Unicode property White_Space.
pub open spec fn is_space(c: char) -> bool {
    let u = c as u32;
    ||| 0x09 <= u <= 0x0d
    ||| u == 0x20
    ||| u == 0x85
    ||| u == 0xa0
    ||| u == 0x1680
    ||| 0x2000 <= u <= 0x200a
    ||| u == 0x2028
    ||| u == 0x2029
    ||| u == 0x202f
    ||| u == 0x205f
    ||| u == 0x3000
}

/// `A` to `Z` mapped to `a` to `z`; every other character as it is.
pub open spec fn ascii_lower(c: char) -> char {
    if 'A' <= c <= 'Z' {
        (c as u8 + 32) as char
    } else {
        c
    }
}

/// An ASCII decimal digit.
pub open spec fn is_digit(c: char) -> bool {
    '0' <= c <= '9'
}

/// Whether `c` is white space.
pub fn char_is_space(c: char) -> (res: bool)
    ensures
        res == is_space(c),
{
    let u: u32 = c as u32;
    (0x09 <= u && u <= 0x0d) || u == 0x20 || u == 0x85 || u == 0xa0 || u == 0x1680 || (0x2000 <= u
        && u <= 0x200a) || u == 0x2028 || u == 0x2029 || u == 0x202f || u == 0x205f || u == 0x3000
}

/// The ASCII lower case of `c`.
pub fn char_ascii_lower(c: char) -> (res: char)
    ensures
        res == ascii_lower(c),
{
    if 'A' <= c && c <= 'Z' {
        let b: u8 = c as u8 + 32;
        b as char
    } else {
        c
    }
}

// ---------------------------------------------------------------------------
// Specifications
// ---------------------------------------------------------------------------

/// `s` without its leading white space.
pub open spec fn trim_start(s: Seq<char>) -> Seq<char>
    decreases s.len(),
{
    if s.len() > 0 && is_space(s[0]) {
        trim_start(s.drop_first())
    } else {
        s
    }
}

/// `s` without its trailing white space.
pub open spec fn trim_end(s: Seq<char>) -> Seq<char>
    decreases s.len(),
{
    if s.len() > 0 && is_space(s.last()) {
        trim_end(s.drop_last())
    } else {
        s
    }
}

/// `s` without its leading and trailing white space.
pub open spec fn trim(s: Seq<char>) -> Seq<char> {
    trim_end(trim_start(s))
}

/// `s` without the occurrences of `c` at its end.
pub open spec fn trim_end_char(s: Seq<char>, c: char) -> Seq<char>
    decreases s.len(),
{
    if s.len() > 0 && s.last() == c {
        trim_end_char(s.drop_last(), c)
    } else {
        s
    }
}

/// What follows the last `c` in `s`; all of `s` where there is none.
pub open spec fn after_last(s: Seq<char>, c: char) -> Seq<char>
    decreases s.len(),
{
    if s.len() == 0 || s.last() == c {
        Seq::empty()
    } else {
        after_last(s.drop_last(), c).push(s.last())
    }
}

/// The index of the first `c` in `s`, or the length of `s` where there is none.
pub open spec fn position(s: Seq<char>, c: char) -> int
    decreases s.len(),
{
    if s.len() == 0 || s[0] == c {
        0
    } else {
        1 + position(s.drop_first(), c)
    }
}

/// The texts before and after the first `c` in `s`.
pub open spec fn split_at_first(s: Seq<char>, c: char) -> Option<(Seq<char>, Seq<char>)> {
    let p = position(s, c);
    if p < s.len() {
        Some((s.take(p), s.skip(p + 1)))
    } else {
        None
    }
}

/// The number of characters before the first white space in `s`.
pub open spec fn word_len(s: Seq<char>) -> int
    decreases s.len(),
{
    if s.len() == 0 || is_space(s[0]) {
        0
    } else {
        1 + word_len(s.drop_first())
    }
}

/// The second of the words that white space separates in `s`.
pub open spec fn second_word(s: Seq<char>) -> Option<Seq<char>> {
    let first = trim_start(s);
    let rest = trim_start(first.skip(word_len(first)));
    if rest.len() == 0 {
        None
    } else {
        Some(rest.take(word_len(rest)))
    }
}

/// `p` stands in `s` at index `i`.
pub open spec fn occurs_at(s: Seq<char>, p: Seq<char>, i: int) -> bool {
    0 <= i && i + p.len() <= s.len() && s.subrange(i, i + p.len()) == p
}

/// `p` stands somewhere in `s`.
pub open spec fn has_text(s: Seq<char>, p: Seq<char>) -> bool {
    exists|i: int| occurs_at(s, p, i)
}

/// `s` with `ascii_lower` applied to each character.
pub open spec fn ascii_lowercase(s: Seq<char>) -> Seq<char> {
    s.map_values(|c: char| ascii_lower(c))
}

/// The lower case of `s`: that of each character where they are all ASCII, and
/// the Unicode one otherwise.
pub open spec fn lower(s: Seq<char>) -> Seq<char> {
    if vstd::utf8::is_ascii_chars(s) {
        ascii_lowercase(s)
    } else {
        unicode_lowercase(s)
    }
}

/// The decimal digit `d` as a character.
pub open spec fn digit_char(d: nat) -> char {
    ('0' as u8 + d) as char
}

/// The decimal numeral of `n`, without leading zeros.
pub open spec fn decimal(n: nat) -> Seq<char>
    decreases n,
{
    if n < 10 {
        seq![digit_char(n)]
    } else {
        decimal(n / 10).push(digit_char(n % 10))
    }
}

/// The decimal numeral of `n`, with `-` in front where it is negative.
pub open spec fn decimal_signed(n: int) -> Seq<char> {
    if n < 0 {
        seq!['-'] + decimal((-n) as nat)
    } else {
        decimal(n as nat)
    }
}

/// The value of a sequence of decimal digits, most significant first.
pub open spec fn digits_value(s: Seq<char>) -> nat
    decreases s.len(),
{
    if s.len() == 0 {
        0
    } else {
        digits_value(s.drop_last()) * 10 + (s.last() as u8 - '0' as u8) as nat
    }
}

/// The numeral in `s` without the `+` sign that may stand in front.
pub open spec fn unsigned_part(s: Seq<char>) -> Seq<char> {
    if s.len() > 0 && s[0] == '+' {
        s.drop_first()
    } else {
        s
    }
}

/// Every character of `s` is a digit.
pub open spec fn all_digits(s: Seq<char>) -> bool {
    forall|i: int| 0 <= i < s.len() ==> is_digit(#[trigger] s[i])
}

/// The number not above `max` that `s` writes in decimal: one or more digits,
/// with an optional `+` in front.
pub open spec fn parsed_number(s: Seq<char>, max: nat) -> Option<nat> {
    let digits = unsigned_part(s);
    if digits.len() > 0 && all_digits(digits) && digits_value(digits) <= max {
        Some(digits_value(digits))
    } else {
        None
    }
}

// ---------------------------------------------------------------------------
// Executable functions
// ---------------------------------------------------------------------------

/// The characters of `s`.
pub fn chars_of(s: &str) -> (v: Vec<char>)
    ensures
        v@ == s@,
{
    let mut v: Vec<char> = Vec::new();
    for c in iter: s.chars()
        invariant
            v@ == iter.seq().take(iter.index()),
    {
        v.push(c);
    }
    v
}

/// The characters of `v` from `from` up to but without `to`, as a string.
pub fn string_of(v: &Vec<char>, from: usize, to: usize) -> (res: String)
    requires
        from <= to <= v@.len(),
    ensures
        res@ == v@.subrange(from as int, to as int),
{
    let mut res = String::new();
    let mut i: usize = from;
    while i < to
        invariant
            from <= i <= to <= v@.len(),
            res@ == v@.subrange(from as int, i as int),
        decreases to - i,
    {
        res.push(v[i]);
        i += 1;
    }
    res
}

/// Whether two texts are the same.
pub fn same_text(a: &str, b: &str) -> (res: bool)
    ensures
        res == (a@ == b@),
{
    a.to_owned() == b.to_owned()
}

/// The two texts one after the other.
pub fn join(a: &str, b: &str) -> (res: String)
    ensures
        res@ == a@ + b@,
{
    let mut res = a.to_owned();
    res.append(b);
    res
}

/// The index of the first character of `v` at or after `from` that is not white space.
fn skip_spaces(v: &Vec<char>, from: usize) -> (res: usize)
    requires
        from <= v@.len(),
    ensures
        from <= res <= v@.len(),
        v@.skip(res as int) == trim_start(v@.skip(from as int)),
{
    let mut i: usize = from;
    while i < v.len() && char_is_space(v[i])
        invariant
            from <= i <= v@.len(),
            trim_start(v@.skip(i as int)) == trim_start(v@.skip(from as int)),
        decreases v@.len() - i,
    {
        assert(v@.skip(i as int).drop_first() =~= v@.skip(i + 1));
        i += 1;
    }
    i
}

/// The index of the first white space of `v` at or after `from`.
fn skip_word(v: &Vec<char>, from: usize) -> (res: usize)
    requires
        from <= v@.len(),
    ensures
        from <= res <= v@.len(),
        res - from == word_len(v@.skip(from as int)),
{
    let mut i: usize = from;
    while i < v.len() && !char_is_space(v[i])
        invariant
            from <= i <= v@.len(),
            word_len(v@.skip(from as int)) == (i - from) + word_len(v@.skip(i as int)),
        decreases v@.len() - i,
    {
        assert(v@.skip(i as int).drop_first() =~= v@.skip(i + 1));
        i += 1;
    }
    i
}

/// `s` without its leading and trailing white space.
pub fn trimmed(s: &str) -> (res: String)
    ensures
        res@ == trim(s@),
{
    let v = chars_of(s);
    assert(v@.skip(0) =~= v@);
    let from = skip_spaces(&v, 0);
    let mut to: usize = v.len();
    let ghost body = v@.skip(from as int);
    assert(v@.subrange(from as int, to as int) =~= body);
    while to > from && char_is_space(v[to - 1])
        invariant
            from <= to <= v@.len(),
            trim_end(v@.subrange(from as int, to as int)) == trim_end(body),
        decreases to,
    {
        assert(v@.subrange(from as int, to as int).drop_last() =~= v@.subrange(
            from as int,
            to - 1,
        ));
        to -= 1;
    }
    string_of(&v, from, to)
}

/// `s` without the occurrences of `c` at its end.
pub fn trimmed_end_char(s: &str, c: char) -> (res: String)
    ensures
        res@ == trim_end_char(s@, c),
{
    let v = chars_of(s);
    let mut to: usize = v.len();
    assert(v@.take(to as int) =~= v@);
    while to > 0 && v[to - 1] == c
        invariant
            to <= v@.len(),
            trim_end_char(v@.take(to as int), c) == trim_end_char(v@, c),
        decreases to,
    {
        assert(v@.take(to as int).drop_last() =~= v@.take(to - 1));
        to -= 1;
    }
    string_of(&v, 0, to)
}

/// `after_last` of a text whose last `c` stands just before index `k`, or which
/// has none and `k` is zero.
proof fn lemma_after_last_suffix(s: Seq<char>, c: char, k: int)
    requires
        0 <= k <= s.len(),
        k == 0 || s[k - 1] == c,
        forall|j: int| k <= j < s.len() ==> s[j] != c,
    ensures
        after_last(s, c) == s.skip(k),
    decreases s.len(),
{
    if k < s.len() {
        lemma_after_last_suffix(s.drop_last(), c, k);
        assert(s.drop_last().skip(k).push(s.last()) =~= s.skip(k));
    } else {
        assert(s.skip(k) =~= Seq::empty());
    }
}

/// What follows the last `c` in `s`; all of `s` where there is none.
pub fn text_after_last(s: &str, c: char) -> (res: String)
    ensures
        res@ == after_last(s@, c),
{
    let v = chars_of(s);
    let mut k: usize = v.len();
    while k > 0 && v[k - 1] != c
        invariant
            k <= v@.len(),
            forall|j: int| k <= j < v@.len() ==> v@[j] != c,
        decreases k,
    {
        k -= 1;
    }
    proof {
        lemma_after_last_suffix(v@, c, k as int);
    }
    let n = v.len();
    string_of(&v, k, n)
}

/// The index of the first `c` in `v`, or the length of `v`.
fn find_char(v: &Vec<char>, c: char) -> (res: usize)
    ensures
        res == position(v@, c),
        res <= v@.len(),
{
    let mut i: usize = 0;
    assert(v@.skip(0) =~= v@);
    while i < v.len() && v[i] != c
        invariant
            i <= v@.len(),
            position(v@, c) == i + position(v@.skip(i as int), c),
        decreases v@.len() - i,
    {
        assert(v@.skip(i as int).drop_first() =~= v@.skip(i + 1));
        i += 1;
    }
    i
}

/// The texts before and after the first `c` in `s`.
pub fn split_once(s: &str, c: char) -> (res: Option<(String, String)>)
    ensures
        match res {
            Some(parts) => split_at_first(s@, c) == Some((parts.0@, parts.1@)),
            None => split_at_first(s@, c) is None,
        },
{
    let v = chars_of(s);
    let p = find_char(&v, c);
    if p < v.len() {
        let n = v.len();
        let before = string_of(&v, 0, p);
        let after = string_of(&v, p + 1, n);
        Some((before, after))
    } else {
        None
    }
}

/// The second of the words that white space separates in `s`.
pub fn second_word_text(s: &str) -> (res: Option<String>)
    ensures
        match res {
            Some(w) => second_word(s@) == Some(w@),
            None => second_word(s@) is None,
        },
{
    let v = chars_of(s);
    assert(v@.skip(0) =~= v@);
    let a = skip_spaces(&v, 0);
    let b = skip_word(&v, a);
    assert(v@.skip(a as int).skip(b - a) =~= v@.skip(b as int));
    let c = skip_spaces(&v, b);
    if c == v.len() {
        None
    } else {
        let d = skip_word(&v, c);
        assert(v@.skip(c as int).take(d - c) =~= v@.subrange(c as int, d as int));
        Some(string_of(&v, c, d))
    }
}

/// Whether `p` stands in `v` at index `i`.
fn matches_at(v: &Vec<char>, p: &Vec<char>, i: usize) -> (res: bool)
    requires
        i + p@.len() <= v@.len(),
    ensures
        res == occurs_at(v@, p@, i as int),
{
    let mut j: usize = 0;
    while j < p.len()
        invariant
            j <= p@.len(),
            i + p@.len() <= v.len(),
            forall|k: int| 0 <= k < j ==> v@[i + k] == p@[k],
        decreases p@.len() - j,
    {
        if v[i + j] != p[j] {
            assert(v@.subrange(i as int, i + p@.len())[j as int] != p@[j as int]);
            return false;
        }
        j += 1;
    }
    assert(v@.subrange(i as int, i + p@.len()) =~= p@);
    true
}

/// Whether `p` stands somewhere in `s`.
pub fn contains_text(s: &str, p: &str) -> (res: bool)
    ensures
        res == has_text(s@, p@),
{
    let v = chars_of(s);
    let w = chars_of(p);
    if w.len() > v.len() {
        return false;
    }
    let last: usize = v.len() - w.len();
    let mut i: usize = 0;
    loop
        invariant
            v@ == s@,
            w@ == p@,
            last + w@.len() == v@.len(),
            i <= last,
            forall|k: int| 0 <= k < i ==> !occurs_at(v@, w@, k),
        decreases last - i,
    {
        if matches_at(&v, &w, i) {
            return true;
        }
        if i == last {
            return false;
        }
        i += 1;
    }
}

/// Whether `s` begins with `p`.
pub fn starts_with(s: &str, p: &str) -> (res: bool)
    ensures
        res == p@.is_prefix_of(s@),
{
    let v = chars_of(s);
    let w = chars_of(p);
    if w.len() > v.len() {
        return false;
    }
    matches_at(&v, &w, 0)
}

/// Whether `s` ends with `p`.
pub fn ends_with(s: &str, p: &str) -> (res: bool)
    ensures
        res == p@.is_suffix_of(s@),
{
    let v = chars_of(s);
    let w = chars_of(p);
    if w.len() > v.len() {
        return false;
    }
    let from: usize = v.len() - w.len();
    matches_at(&v, &w, from)
}

/// The lower case of `s`.
pub fn lowercase(s: &str) -> (res: String)
    ensures
        res@ == lower(s@),
{
    str_to_lowercase(s)
}

/// `s` with `A` to `Z` mapped to `a` to `z`.
pub fn lowercase_ascii(s: &str) -> (res: String)
    ensures
        res@ == ascii_lowercase(s@),
{
    let v = chars_of(s);
    let mut res = String::new();
    let mut i: usize = 0;
    while i < v.len()
        invariant
            i <= v@.len(),
            res@ == ascii_lowercase(v@.take(i as int)),
        decreases v@.len() - i,
    {
        let ghost before = res@;
        res.push(char_ascii_lower(v[i]));
        assert(ascii_lowercase(v@.take(i + 1)) =~= before.push(ascii_lower(v@[i as int])));
        i += 1;
    }
    assert(v@.take(i as int) =~= v@);
    res
}

/// The text that a valid UTF-8 byte sequence encodes.
pub fn decode(bytes: &[u8]) -> (res: Option<&str>)
    ensures
        res is Some <==> vstd::utf8::valid_utf8(bytes@),
        res matches Some(s) ==> s@ == vstd::utf8::decode_utf8(bytes@),
{
    str_from_utf8(bytes)
}

/// The decimal numeral of `n`.
pub fn decimal_text(n: u64) -> (res: String)
    ensures
        res@ == decimal(n as nat),
    decreases n,
{
    if n < 10 {
        let mut res = String::new();
        res.push(('0' as u8 + n as u8) as char);
        assert(res@ =~= decimal(n as nat));
        res
    } else {
        let mut res = decimal_text(n / 10);
        res.push(('0' as u8 + (n % 10) as u8) as char);
        res
    }
}

/// The decimal numeral of `n`, with `-` in front where it is negative.
pub fn decimal_text_signed(n: i64) -> (res: String)
    ensures
        res@ == decimal_signed(n as int),
{
    if n < 0 {
        let magnitude: u64 = if n == i64::MIN {
            0x8000_0000_0000_0000
        } else {
            (-n) as u64
        };
        let mut res = String::new();
        res.push('-');
        let digits = decimal_text(magnitude);
        res.append(digits.as_str());
        assert(res@ =~= decimal_signed(n as int));
        res
    } else {
        decimal_text(n as u64)
    }
}

/// A text of digits is worth no less than any of its beginnings.
proof fn lemma_digits_value_grows(s: Seq<char>, k: int)
    requires
        0 <= k <= s.len(),
        all_digits(s),
    ensures
        digits_value(s.take(k)) <= digits_value(s),
    decreases s.len(),
{
    if k == s.len() {
        assert(s.take(k) =~= s);
    } else {
        lemma_digits_value_grows(s.drop_last(), k);
        assert(s.drop_last().take(k) =~= s.take(k));
    }
}

/// The number not above `max` that `s` writes in decimal.
pub fn parse_number(s: &str, max: u64) -> (res: Option<u64>)
    ensures
        match res {
            Some(n) => parsed_number(s@, max as nat) == Some(n as nat),
            None => parsed_number(s@, max as nat) is None,
        },
{
    let v = chars_of(s);
    let start: usize = if v.len() > 0 && v[0] == '+' {
        1
    } else {
        0
    };
    let ghost digits = unsigned_part(s@);
    assert(v@.skip(start as int) =~= digits);
    if start == v.len() {
        return None;
    }
    let mut value: u64 = 0;
    let mut i: usize = start;
    while i < v.len()
        invariant
            v@ == s@,
            digits == unsigned_part(s@),
            v@.skip(start as int) == digits,
            start <= i <= v@.len(),
            digits.len() > 0,
            forall|j: int| 0 <= j < i - start ==> is_digit(#[trigger] digits[j]),
            value == digits_value(digits.take(i - start)),
            value <= max,
        decreases v@.len() - i,
    {
        let c = v[i];
        assert(c == digits[i - start]);
        if !('0' <= c && c <= '9') {
            assert(!is_digit(digits[i - start]));
            return None;
        }
        let d: u64 = (c as u8 - '0' as u8) as u64;
        let ghost longer = digits.take(i - start + 1);
        assert(longer.drop_last() =~= digits.take(i - start));
        assert(digits_value(longer) == value * 10 + d);
        if value > max / 10 || max - value * 10 < d {
            assert(value * 10 + d > max);
            proof {
                if all_digits(digits) {
                    lemma_digits_value_grows(digits, i - start + 1);
                }
            }
            return None;
        }
        value = value * 10 + d;
        i += 1;
    }
    assert(digits.take(i - start) =~= digits);
    Some(value)
}

/// A decimal numeral is a text of one or more digits, and its value is the
/// number that it was written for.
pub proof fn decimal_is_digits(n: nat)
    ensures
        decimal(n).len() > 0,
        all_digits(decimal(n)),
        digits_value(decimal(n)) == n,
    decreases n,
{
    if n < 10 {
        assert(decimal(n).drop_last() =~= Seq::empty());
        assert(digits_value(decimal(n).drop_last()) == 0);
    } else {
        decimal_is_digits(n / 10);
        assert(decimal(n).drop_last() =~= decimal(n / 10));
    }
}

/// Reading a decimal numeral gives back the number that it was written for.
pub proof fn decimal_round_trip(n: nat, max: nat)
    requires
        n <= max,
    ensures
        parsed_number(decimal(n), max) == Some(n),
{
    decimal_is_digits(n);
    assert(is_digit(decimal(n)[0]));
}

/// Different numbers have different decimal numerals.
pub proof fn decimal_injective(m: nat, n: nat)
    ensures
        decimal(m) == decimal(n) ==> m == n,
{
    decimal_is_digits(m);
    decimal_is_digits(n);
}

proof fn lemma_trim_end_bounds(s: Seq<char>)
    ensures
        trim_end(s).len() <= s.len(),
        trim_end(s) == s.take(trim_end(s).len() as int),
        trim_end(s).len() == 0 || !is_space(trim_end(s).last()),
    decreases s.len(),
{
    if s.len() > 0 && is_space(s.last()) {
        lemma_trim_end_bounds(s.drop_last());
        assert(s.drop_last().take(trim_end(s).len() as int) =~= s.take(trim_end(s).len() as int));
    } else {
        assert(s.take(s.len() as int) =~= s);
    }
}

proof fn lemma_trim_start_bounds(s: Seq<char>)
    ensures
        trim_start(s).len() == 0 || !is_space(trim_start(s)[0]),
    decreases s.len(),
{
    if s.len() > 0 && is_space(s[0]) {
        lemma_trim_start_bounds(s.drop_first());
    }
}

/// A trimmed text has no white space at its ends, and trimming it again
/// changes nothing.
pub proof fn trim_is_idempotent(s: Seq<char>)
    ensures
        trim(s).len() == 0 || (!is_space(trim(s)[0]) && !is_space(trim(s).last())),
        trim(trim(s)) == trim(s),
{
    lemma_trim_start_bounds(s);
    lemma_trim_end_bounds(trim_start(s));
}

// ---------------------------------------------------------------------------
// How the parts of a text make up the whole
// ---------------------------------------------------------------------------

/// Every character of `s` is white space.
pub open spec fn all_space(s: Seq<char>) -> bool {
    forall|i: int| 0 <= i < s.len() ==> is_space(#[trigger] s[i])
}

/// No character of `s` is white space.
pub open spec fn no_space(s: Seq<char>) -> bool {
    forall|i: int| 0 <= i < s.len() ==> !is_space(#[trigger] s[i])
}

/// `c` does not stand in `s`.
pub open spec fn lacks(s: Seq<char>, c: char) -> bool {
    forall|i: int| 0 <= i < s.len() ==> #[trigger] s[i] != c
}

proof fn lemma_trim_start_of(a: Seq<char>, b: Seq<char>)
    requires
        all_space(a),
        b.len() == 0 || !is_space(b[0]),
    ensures
        trim_start(a + b) == b,
    decreases a.len(),
{
    if a.len() == 0 {
        assert(a + b =~= b);
    } else {
        assert((a + b)[0] == a[0]);
        assert((a + b).drop_first() =~= a.drop_first() + b);
        assert forall|i: int| 0 <= i < a.drop_first().len() implies is_space(
            #[trigger] a.drop_first()[i],
        ) by {
            assert(is_space(a[i + 1]));
        }
        lemma_trim_start_of(a.drop_first(), b);
    }
}

proof fn lemma_trim_end_of(a: Seq<char>, b: Seq<char>)
    requires
        all_space(b),
        a.len() == 0 || !is_space(a.last()),
    ensures
        trim_end(a + b) == a,
    decreases b.len(),
{
    if b.len() == 0 {
        assert(a + b =~= a);
    } else {
        assert((a + b).last() == b[b.len() - 1]);
        assert((a + b).drop_last() =~= a + b.drop_last());
        assert forall|i: int| 0 <= i < b.drop_last().len() implies is_space(
            #[trigger] b.drop_last()[i],
        ) by {
            assert(is_space(b[i]));
        }
        lemma_trim_end_of(a, b.drop_last());
    }
}

/// Trimming takes the white space off both ends and leaves what is between: of a
/// text that begins and ends with other characters nothing is lost, whatever white
/// space stands around it.
pub proof fn trim_leaves_the_middle(before: Seq<char>, middle: Seq<char>, behind: Seq<char>)
    requires
        all_space(before),
        all_space(behind),
        middle.len() == 0 || (!is_space(middle[0]) && !is_space(middle.last())),
    ensures
        trim(before + middle + behind) == middle,
{
    if middle.len() == 0 {
        assert(before + middle + behind =~= (before + behind) + Seq::empty());
        assert forall|i: int| 0 <= i < (before + behind).len() implies is_space(
            #[trigger] (before + behind)[i],
        ) by {
            if i < before.len() {
                assert(is_space(before[i]));
            } else {
                assert(is_space(behind[i - before.len()]));
            }
        }
        lemma_trim_start_of(before + behind, Seq::empty());
        assert(trim(before + middle + behind) =~= Seq::empty());
    } else {
        assert(before + middle + behind =~= before + (middle + behind));
        assert((middle + behind)[0] == middle[0]);
        lemma_trim_start_of(before, middle + behind);
        lemma_trim_end_of(middle, behind);
    }
}

/// What stands behind the last `c` is found there: it is the rest of the text, and
/// `c` does not stand in it. Without a `c` it is all of the text.
pub proof fn last_part_is_behind(front: Seq<char>, c: char, part: Seq<char>)
    requires
        lacks(part, c),
    ensures
        after_last(front.push(c) + part, c) == part,
        after_last(part, c) == part,
    decreases part.len(),
{
    let whole = front.push(c) + part;
    if part.len() == 0 {
        assert(whole =~= front.push(c));
        assert(after_last(whole, c) =~= part);
    } else {
        let less = part.drop_last();
        assert(part[part.len() - 1] != c);
        assert forall|i: int| 0 <= i < less.len() implies #[trigger] less[i] != c by {
            assert(part[i] != c);
        }
        last_part_is_behind(front, c, less);
        assert(whole.drop_last() =~= front.push(c) + less);
        assert(whole.last() == part.last());
        assert(less.push(part.last()) =~= part);
    }
}

/// Taking `c` off the end takes all of them off there and nothing else.
pub proof fn only_the_end_is_taken_off(front: Seq<char>, c: char, n: nat)
    requires
        front.len() == 0 || front.last() != c,
    ensures
        trim_end_char(front + Seq::new(n, |i: int| c), c) == front,
    decreases n,
{
    let tail = Seq::new(n, |i: int| c);
    let whole = front + tail;
    if n == 0 {
        assert(whole =~= front);
    } else {
        let less = (n - 1) as nat;
        only_the_end_is_taken_off(front, c, less);
        assert(whole.last() == c);
        assert(whole.drop_last() =~= front + Seq::new(less, |i: int| c));
    }
}

/// A text is split at the first `c`: what stands before it holds none, and the
/// parts with `c` between them are the whole. It is not split only where there is
/// no `c`.
pub proof fn first_part_is_before(part: Seq<char>, c: char, rest: Seq<char>)
    requires
        lacks(part, c),
    ensures
        split_at_first(part.push(c) + rest, c) == Some((part, rest)),
        split_at_first(part, c) is None,
{
    lemma_position_of(part, c, rest);
    lemma_position_missing(part, c);
    let whole = part.push(c) + rest;
    assert(whole.take(part.len() as int) =~= part);
    assert(whole.skip(part.len() as int + 1) =~= rest);
}

proof fn lemma_position_of(part: Seq<char>, c: char, rest: Seq<char>)
    requires
        lacks(part, c),
    ensures
        position(part.push(c) + rest, c) == part.len(),
    decreases part.len(),
{
    let whole = part.push(c) + rest;
    if part.len() == 0 {
        assert(whole[0] == c);
    } else {
        let less = part.drop_first();
        assert(part[0] != c);
        assert forall|i: int| 0 <= i < less.len() implies #[trigger] less[i] != c by {
            assert(part[i + 1] != c);
        }
        lemma_position_of(less, c, rest);
        assert(whole.drop_first() =~= less.push(c) + rest);
        assert(whole[0] == part[0]);
    }
}

proof fn lemma_position_missing(part: Seq<char>, c: char)
    requires
        lacks(part, c),
    ensures
        position(part, c) == part.len(),
    decreases part.len(),
{
    if part.len() > 0 {
        let less = part.drop_first();
        assert(part[0] != c);
        assert forall|i: int| 0 <= i < less.len() implies #[trigger] less[i] != c by {
            assert(part[i + 1] != c);
        }
        lemma_position_missing(less, c);
    }
}

proof fn lemma_word_len(word: Seq<char>, rest: Seq<char>)
    requires
        no_space(word),
        rest.len() == 0 || is_space(rest[0]),
    ensures
        word_len(word + rest) == word.len(),
    decreases word.len(),
{
    if word.len() == 0 {
        assert(word + rest =~= rest);
    } else {
        let less = word.drop_first();
        assert(!is_space(word[0]));
        assert((word + rest)[0] == word[0]);
        assert forall|i: int| 0 <= i < less.len() implies !is_space(#[trigger] less[i]) by {
            assert(!is_space(word[i + 1]));
        }
        assert((word + rest).drop_first() =~= less + rest);
        lemma_word_len(less, rest);
    }
}

/// The second word of a text is the one behind the first and the white space after
/// it, whatever stands behind the second.
pub proof fn second_word_is_second(
    lead: Seq<char>,
    first: Seq<char>,
    gap: Seq<char>,
    second: Seq<char>,
    rest: Seq<char>,
)
    requires
        all_space(lead),
        first.len() > 0,
        no_space(first),
        gap.len() > 0,
        all_space(gap),
        second.len() > 0,
        no_space(second),
        rest.len() == 0 || is_space(rest[0]),
    ensures
        second_word(lead + first + gap + second + rest) == Some(second),
{
    let whole = lead + first + gap + second + rest;
    let tail = gap + (second + rest);
    assert(whole =~= lead + (first + tail));
    assert((first + tail)[0] == first[0]);
    lemma_trim_start_of(lead, first + tail);
    assert(tail[0] == gap[0]);
    lemma_word_len(first, tail);
    assert((first + tail).skip(first.len() as int) =~= tail);
    assert((second + rest)[0] == second[0]);
    lemma_trim_start_of(gap, second + rest);
    lemma_word_len(second, rest);
    assert((second + rest).take(second.len() as int) =~= second);
}

/// A text of one word or none has no second word.
pub proof fn one_word_has_no_second(lead: Seq<char>, word: Seq<char>, rest: Seq<char>)
    requires
        all_space(lead),
        no_space(word),
        all_space(rest),
    ensures
        second_word(lead + word + rest) is None,
{
    let whole = lead + word + rest;
    if word.len() == 0 {
        assert forall|i: int| 0 <= i < whole.len() implies is_space(#[trigger] whole[i]) by {
            if i < lead.len() {
                assert(is_space(lead[i]));
            } else {
                assert(is_space(rest[i - lead.len()]));
            }
        }
        lemma_trim_start_of(whole, Seq::empty());
        assert(whole + Seq::empty() =~= whole);
        assert(trim_start(whole).skip(word_len(trim_start(whole))) =~= Seq::empty());
    } else {
        assert(whole =~= lead + (word + rest));
        assert((word + rest)[0] == word[0]);
        lemma_trim_start_of(lead, word + rest);
        if rest.len() > 0 {
            assert(is_space(rest[0]));
        }
        lemma_word_len(word, rest);
        assert((word + rest).skip(word.len() as int) =~= rest);
        lemma_trim_start_of(rest, Seq::empty());
        assert(rest + Seq::empty() =~= rest);
    }
}

/// A text stands in another if and only if that one is made of something, the text
/// and something.
pub proof fn text_stands_in_between(before: Seq<char>, part: Seq<char>, behind: Seq<char>)
    ensures
        has_text(before + part + behind, part),
{
    let whole = before + part + behind;
    assert(whole.subrange(before.len() as int, before.len() as int + part.len()) =~= part);
    assert(occurs_at(whole, part, before.len() as int));
}

/// A number is read where a numeral stands alone, with or without a plus sign, and
/// is not above the limit. Anything that holds another character is not a number,
/// nor is a text without digits.
pub proof fn numerals_are_read(n: nat, max: nat, s: Seq<char>, i: int)
    ensures
        parsed_number(decimal(n), max) == if n <= max {
            Some(n)
        } else {
            None
        },
        parsed_number(seq!['+'] + decimal(n), max) == parsed_number(decimal(n), max),
        0 <= i < s.len() && !('0' <= s[i] <= '9') && !(i == 0 && s[0] == '+') ==> parsed_number(
            s,
            max,
        ) is None,
        s.len() == 0 ==> parsed_number(s, max) is None,
        s == seq!['+'] ==> parsed_number(s, max) is None,
{
    decimal_is_digits(n);
    assert(is_digit(decimal(n)[0]));
    assert((seq!['+'] + decimal(n)).drop_first() =~= decimal(n));
    if 0 <= i < s.len() && !('0' <= s[i] <= '9') && !(i == 0 && s[0] == '+') {
        if s[0] == '+' {
            assert(s.drop_first()[i - 1] == s[i]);
            assert(!is_digit(s.drop_first()[i - 1]));
        } else {
            assert(!is_digit(s[i]));
        }
    }
}

/// Lower case turns each capital letter of an ASCII text into the small one, and
/// leaves everything else.
pub proof fn capitals_become_small(s: Seq<char>, i: int)
    requires
        vstd::utf8::is_ascii_chars(s),
        0 <= i < s.len(),
    ensures
        lower(s).len() == s.len(),
        65 <= s[i] as u32 <= 90 ==> lower(s)[i] as u32 == s[i] as u32 + 32,
        !(65 <= s[i] as u32 <= 90) ==> lower(s)[i] == s[i],
        ascii_lowercase(s) == lower(s),
{
}

/// A negative number is written with a minus sign, and otherwise like its
/// opposite.
pub proof fn minus_marks_negatives(n: int)
    requires
        n > 0,
    ensures
        decimal_signed(-n) == seq!['-'] + decimal_signed(n),
        decimal_signed(n) == decimal(n as nat),
        decimal_signed(0) == decimal(0),
{
}

/// Where a text stands in another, its characters are found there one by one.
pub proof fn text_is_found_by_character(s: Seq<char>, part: Seq<char>)
    ensures
        has_text(s, part) <==> exists|i: int| #[trigger] stands_at(s, part, i),
{
    if has_text(s, part) {
        let i = choose|i: int| occurs_at(s, part, i);
        assert forall|j: int| 0 <= j < part.len() implies s[i + j] == #[trigger] part[j] by {
            assert(s.subrange(i, i + part.len())[j] == part[j]);
        }
        assert(stands_at(s, part, i));
    }
    if exists|i: int| #[trigger] stands_at(s, part, i) {
        let i = choose|i: int| #[trigger] stands_at(s, part, i);
        assert(s.subrange(i, i + part.len()) =~= part);
        assert(occurs_at(s, part, i));
    }
}

/// The characters of `part` are those of `s` from index `i` on.
pub open spec fn stands_at(s: Seq<char>, part: Seq<char>, i: int) -> bool {
    &&& 0 <= i
    &&& i + part.len() <= s.len()
    &&& forall|j: int| 0 <= j < part.len() ==> s[i + j] == #[trigger] part[j]
}

/// The code points of white space.
pub open spec fn space_codes() -> Seq<u32> {
    seq![
        0x09,
        0x0a,
        0x0b,
        0x0c,
        0x0d,
        0x20,
        0x85,
        0xa0,
        0x1680,
        0x2000,
        0x2001,
        0x2002,
        0x2003,
        0x2004,
        0x2005,
        0x2006,
        0x2007,
        0x2008,
        0x2009,
        0x200a,
        0x2028,
        0x2029,
        0x202f,
        0x205f,
        0x3000,
    ]
}

/// A character is white space if and only if it is one of 25.
pub proof fn white_space_has_25_characters(c: char)
    ensures
        is_space(c) <==> space_codes().contains(c as u32),
{
    let codes = space_codes();
    let u = c as u32;
    if is_space(c) {
        assert(u == codes[0] || u == codes[1] || u == codes[2] || u == codes[3] || u == codes[4]
            || u == codes[5] || u == codes[6] || u == codes[7] || u == codes[8] || u == codes[9]
            || u == codes[10] || u == codes[11] || u == codes[12] || u == codes[13] || u
            == codes[14] || u == codes[15] || u == codes[16] || u == codes[17] || u == codes[18]
            || u == codes[19] || u == codes[20] || u == codes[21] || u == codes[22] || u
            == codes[23] || u == codes[24]);
    }
    if codes.contains(u) {
        let i = choose|i: int| 0 <= i < codes.len() && codes[i] == u;
        assert(0 <= i < 25);
    }
}

/// A text that is not all ASCII has the lower case of Unicode.
pub proof fn lower_case_goes_beyond_ascii(s: Seq<char>)
    ensures
        !vstd::utf8::is_ascii_chars(s) ==> lower(s) == unicode_lowercase(s),
        lower(Seq::empty()) == Seq::<char>::empty(),
{
    assert(lower(Seq::empty()) =~= Seq::empty());
}

} // verus!
