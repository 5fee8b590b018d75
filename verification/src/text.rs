//! Byte- and character-level facts about DTD source text.
//!
//! The parsers scan the UTF-8 bytes of their input, as the declarations are
//! delimited by ASCII characters only; the few places that look at whole
//! characters (trimming, prefix tests) go through `str` functions whose
//! contracts are stated here over `Seq<char>`.
use vstd::prelude::*;
use vstd::utf8::*;

verus! {

broadcast use vstd::utf8::group_utf8_lib;

// ---------------------------------------------------------------------------
// Byte classes
// ---------------------------------------------------------------------------

/// `u8::is_ascii_whitespace`: space, tab, line feed, form feed, carriage return.
pub open spec fn is_ws(c: u8) -> bool {
    c == 0x20u8 || c == 0x09u8 || c == 0x0au8 || c == 0x0cu8 || c == 0x0du8
}

pub open spec fn is_alnum(c: u8) -> bool {
    (0x30u8 <= c <= 0x39u8) || (0x41u8 <= c <= 0x5au8) || (0x61u8 <= c <= 0x7au8)
}

/// The bytes a DTD name is made of: ASCII letters and digits, `-`, `_`, `.`, `:`.
pub open spec fn is_name_byte(c: u8) -> bool {
    is_alnum(c) || c == 0x2du8 || c == 0x5fu8 || c == 0x2eu8 || c == 0x3au8
}

pub open spec fn ascii_lower(c: u8) -> u8 {
    if 0x41u8 <= c <= 0x5au8 {
        (c + 32) as u8
    } else {
        c
    }
}

pub open spec fn ascii_upper_char(c: char) -> char {
    if 'a' <= c <= 'z' {
        ((c as u32) - 32) as char
    } else {
        c
    }
}

/// `str::eq_ignore_ascii_case` on the bytes of two strings.
pub open spec fn eq_ignore_case(a: Seq<u8>, b: Seq<u8>) -> bool {
    a.len() == b.len() && forall|i: int| 0 <= i < a.len() ==> ascii_lower(#[trigger] a[i]) == ascii_lower(b[i])
}

pub open spec fn peek(b: Seq<u8>, p: int) -> Option<u8> {
    if 0 <= p < b.len() {
        Some(b[p])
    } else {
        None
    }
}

/// First position at or after `p` that does not hold ASCII whitespace.
pub open spec fn skip_ws(b: Seq<u8>, p: int) -> int
    decreases b.len() - p,
{
    if 0 <= p < b.len() && is_ws(b[p]) {
        skip_ws(b, p + 1)
    } else {
        p
    }
}

/// First position at or after `p` that does not hold a name byte.
pub open spec fn name_end(b: Seq<u8>, p: int) -> int
    decreases b.len() - p,
{
    if 0 <= p < b.len() && is_name_byte(b[p]) {
        name_end(b, p + 1)
    } else {
        p
    }
}

/// The text between two byte positions, as characters.
pub open spec fn text_between(b: Seq<u8>, start: int, end: int) -> Seq<char> {
    decode_utf8(b.subrange(start, end))
}

pub proof fn lemma_skip_ws(b: Seq<u8>, p: int)
    requires
        0 <= p <= b.len(),
    ensures
        p <= skip_ws(b, p) <= b.len(),
        skip_ws(b, p) < b.len() ==> !is_ws(b[skip_ws(b, p)]),
        forall|i: int| p <= i < skip_ws(b, p) ==> is_ws(#[trigger] b[i]),
    decreases b.len() - p,
{
    if p < b.len() && is_ws(b[p]) {
        lemma_skip_ws(b, p + 1);
    }
}

pub proof fn lemma_name_end(b: Seq<u8>, p: int)
    requires
        0 <= p <= b.len(),
    ensures
        p <= name_end(b, p) <= b.len(),
        name_end(b, p) < b.len() ==> !is_name_byte(b[name_end(b, p)]),
        forall|i: int| p <= i < name_end(b, p) ==> is_name_byte(#[trigger] b[i]),
    decreases b.len() - p,
{
    if p < b.len() && is_name_byte(b[p]) {
        lemma_name_end(b, p + 1);
    }
}

// ---------------------------------------------------------------------------
// Unicode whitespace, as `str::trim` sees it
// ---------------------------------------------------------------------------

/// `char::is_whitespace`: the characters with the Unicode White_Space property.
pub open spec fn is_unicode_ws(c: char) -> bool {
    ('\u{9}' <= c <= '\u{d}') || c == ' ' || c == '\u{85}' || c == '\u{a0}' || c == '\u{1680}'
        || ('\u{2000}' <= c <= '\u{200a}') || c == '\u{2028}' || c == '\u{2029}' || c
        == '\u{202f}' || c == '\u{205f}' || c == '\u{3000}'
}

pub open spec fn trim_start_chars(s: Seq<char>) -> Seq<char>
    decreases s.len(),
{
    if s.len() > 0 && is_unicode_ws(s[0]) {
        trim_start_chars(s.drop_first())
    } else {
        s
    }
}

pub open spec fn trim_end_chars(s: Seq<char>) -> Seq<char>
    decreases s.len(),
{
    if s.len() > 0 && is_unicode_ws(s.last()) {
        trim_end_chars(s.drop_last())
    } else {
        s
    }
}

pub open spec fn trim_chars(s: Seq<char>) -> Seq<char> {
    trim_end_chars(trim_start_chars(s))
}

pub open spec fn trim_start_char(s: Seq<char>, c: char) -> Seq<char>
    decreases s.len(),
{
    if s.len() > 0 && s[0] == c {
        trim_start_char(s.drop_first(), c)
    } else {
        s
    }
}

pub open spec fn is_prefix(p: Seq<char>, s: Seq<char>) -> bool {
    p.len() <= s.len() && s.subrange(0, p.len() as int) == p
}

// ---------------------------------------------------------------------------
// UTF-8 facts
// ---------------------------------------------------------------------------

/// An ASCII byte of valid UTF-8 starts a character.
pub proof fn lemma_ascii_is_boundary(b: Seq<u8>, i: int)
    requires
        valid_utf8(b),
        0 <= i < b.len(),
        b[i] < 0x80,
    ensures
        is_char_boundary(b, i),
{
    is_char_boundary_iff_not_is_continuation_byte(b, i);
}

/// The position after an ASCII character of valid UTF-8 starts a character too.
pub proof fn lemma_boundary_after_ascii(b: Seq<u8>, i: int)
    requires
        valid_utf8(b),
        0 <= i < b.len(),
        b[i] < 0x80,
    ensures
        is_char_boundary(b, i + 1),
    decreases b.len(),
{
    if i + 1 == b.len() {
        is_char_boundary_start_end_of_seq(b);
    } else {
        lemma_ascii_is_boundary(b, i);
        let l = length_of_first_scalar(b);
        let tail = pop_first_scalar(b);
        if i == 0 {
            assert(l == 1);
            assert(is_char_boundary(tail, 0));
        } else {
            assert(i >= l) by {
                reveal_with_fuel(is_char_boundary, 2);
                if i < l {
                    // a continuation byte cannot be ASCII
                    is_char_boundary_iff_not_is_continuation_byte(b, i);
                    assert(1 <= i < 4);
                    assert(is_continuation_byte(b[i]));
                }
            }
            assert(tail[i - l] == b[i]);
            lemma_boundary_after_ascii(tail, i - l);
        }
    }
}

/// Valid UTF-8 made of ASCII bytes decodes byte by byte.
pub proof fn lemma_decode_ascii(b: Seq<u8>)
    requires
        forall|i: int| 0 <= i < b.len() ==> #[trigger] b[i] < 0x80,
    ensures
        valid_utf8(b),
        decode_utf8(b) =~= Seq::new(b.len(), |i: int| b[i] as char),
    decreases b.len(),
{
    if b.len() > 0 {
        let tail = pop_first_scalar(b);
        assert(tail =~= b.drop_first());
        lemma_decode_ascii(tail);
        assert(valid_utf8(b));
        let c = b[0];
        assert((c & 0x7f) == c) by (bit_vector)
            requires
                c < 0x80,
        ;
        assert(decode_first_scalar(b) == c as u32);
    }
}

/// `u8::is_ascii_whitespace`.
pub fn is_ws_exec(c: u8) -> (r: bool)
    ensures
        r == is_ws(c),
{
    c == 0x20u8 || c == 0x09u8 || c == 0x0au8 || c == 0x0cu8 || c == 0x0du8
}

/// Is `c` a byte of a DTD name?
pub fn is_name_byte_exec(c: u8) -> (r: bool)
    ensures
        r == is_name_byte(c),
{
    (0x30u8 <= c && c <= 0x39u8) || (0x41u8 <= c && c <= 0x5au8) || (0x61u8 <= c && c <= 0x7au8)
        || c == 0x2du8 || c == 0x5fu8 || c == 0x2eu8 || c == 0x3au8
}

/// Do two strings hold the same characters? (Compares their UTF-8 bytes.)
pub fn str_eq(a: &str, b: &str) -> (r: bool)
    ensures
        r == (a@ == b@),
{
    let x = a.as_bytes();
    let y = b.as_bytes();
    if x.len() != y.len() {
        return false;
    }
    let mut i: usize = 0;
    while i < x.len()
        invariant
            x@.len() == y@.len(),
            x@ == encode_utf8(a@),
            y@ == encode_utf8(b@),
            i <= x@.len(),
            forall|j: int| 0 <= j < i ==> x@[j] == y@[j],
        decreases x@.len() - i,
    {
        if x[i] != y[i] {
            return false;
        }
        i += 1;
    }
    assert(x@ =~= y@);
    assert(decode_utf8(encode_utf8(a@)) == a@);
    assert(decode_utf8(encode_utf8(b@)) == b@);
    true
}

// ---------------------------------------------------------------------------
// `str` functions of std
// ---------------------------------------------------------------------------

/// `&s[start..end]` on a `str`: the bytes between two character starts.
#[verifier::external_body]
pub(crate) fn str_slice(s: &str, start: usize, end: usize) -> (r: &str)
    requires
        start <= end <= encode_utf8(s@).len(),
        is_char_boundary(encode_utf8(s@), start as int),
        is_char_boundary(encode_utf8(s@), end as int),
    ensures
        encode_utf8(r@) == encode_utf8(s@).subrange(start as int, end as int),
{
    &s[start..end]
}

/// `str::to_uppercase` on ASCII text: the ASCII letters become capitals, every
/// other character stays as it is.
#[verifier::external_body]
pub(crate) fn str_to_uppercase(s: &str) -> (r: String)
    requires
        forall|i: int| 0 <= i < s@.len() ==> (#[trigger] s@[i] as u32) < 0x80,
    ensures
        r@ == s@.map_values(|c: char| ascii_upper_char(c)),
{
    s.to_uppercase()
}

/// The characters of `s`, in order.
pub(crate) fn chars_of(s: &str) -> (r: Vec<char>)
    ensures
        r@ == s@,
{
    broadcast use vstd::string::axiom_spec_iter;
    let mut r: Vec<char> = Vec::new();
    for c in it: s.chars()
        invariant
            r@ == it.seq().take(it.index() as int),
            it.seq() == s@,
    {
        r.push(c);
    }
    r
}

/// The string of exactly these characters, in order.
pub(crate) fn string_of(v: &Vec<char>) -> (r: String)
    ensures
        r@ == v@,
{
    let mut r = String::new();
    let mut k: usize = 0;
    while k < v.len()
        invariant
            k <= v.len(),
            r@ == v@.subrange(0, k as int),
        decreases v.len() - k,
    {
        r.push(v[k]);
        k = k + 1;
        assert(r@ =~= v@.subrange(0, k as int));
    }
    assert(v@.subrange(0, v.len() as int) =~= v@);
    r
}

/// `str::trim`: removes leading and trailing White_Space characters.
#[verifier::external_body]
pub(crate) fn str_trim(s: &str) -> (r: &str)
    ensures
        r@ == trim_chars(s@),
{
    s.trim()
}

/// `str::trim_start`: removes leading White_Space characters.
#[verifier::external_body]
pub(crate) fn str_trim_start(s: &str) -> (r: &str)
    ensures
        r@ == trim_start_chars(s@),
{
    s.trim_start()
}

/// `str::trim_start_matches` with a `char` pattern: removes every leading copy of `c`.
#[verifier::external_body]
pub(crate) fn str_trim_start_matches(s: &str, c: char) -> (r: &str)
    ensures
        r@ == trim_start_char(s@, c),
{
    s.trim_start_matches(c)
}

/// `str::starts_with` with a `&str` pattern.
#[verifier::external_body]
pub(crate) fn str_starts_with(s: &str, p: &str) -> (r: bool)
    ensures
        r == is_prefix(p@, s@),
{
    s.starts_with(p)
}

} // verus!
