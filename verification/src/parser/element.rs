//! `<!ELEMENT name content-model>` declarations, and the scanning that all
//! declaration kinds share: finding the next declaration and its closing `>`.
use vstd::prelude::*;
use vstd::utf8::*;

use crate::error::{DeclKind, DtdError, ErrorView};
use crate::model::{elements_view, ContentModel, Element, SpecElement, SpecContent};
use crate::parser::content_model::{content_model_of, parse_content_model};
use crate::text::{
    is_ws, is_ws_exec, lemma_ascii_is_boundary, str_slice, str_trim, text_between, trim_chars,
};

verus! {

broadcast use vstd::utf8::group_utf8_lib;

// ---------------------------------------------------------------------------
// Scanning for declarations
// ---------------------------------------------------------------------------

/// The first position at or after `p` where `pat` occurs in `b`.
pub open spec fn find_from(b: Seq<u8>, p: int, pat: Seq<u8>) -> Option<int>
    decreases b.len() + 1 - p,
{
    if p < 0 || p + pat.len() > b.len() {
        None
    } else if b.subrange(p, p + pat.len()) == pat {
        Some(p)
    } else {
        find_from(b, p + 1, pat)
    }
}

/// The first position at or after `p` that holds `q`, or the end.
pub open spec fn quote_end(b: Seq<u8>, p: int, q: u8) -> int
    decreases b.len() - p,
{
    if 0 <= p < b.len() && b[p] != q {
        quote_end(b, p + 1, q)
    } else {
        p
    }
}

/// The first `>` at or after `i` that is not inside a quoted string.
pub open spec fn closing_angle(b: Seq<u8>, i: int) -> Option<int>
    decreases b.len() + 1 - i,
{
    if i < 0 || i >= b.len() {
        None
    } else if b[i] == 0x22u8 || b[i] == 0x27u8 {
        proof {
            lemma_quote_end(b, i + 1, b[i]);
        }
        closing_angle(b, quote_end(b, i + 1, b[i]) + 1)
    } else if b[i] == 0x3eu8 {
        Some(i)
    } else {
        closing_angle(b, i + 1)
    }
}

pub proof fn lemma_quote_end(b: Seq<u8>, p: int, q: u8)
    requires
        0 <= p <= b.len(),
    ensures
        p <= quote_end(b, p, q) <= b.len(),
        quote_end(b, p, q) < b.len() ==> b[quote_end(b, p, q)] == q,
        forall|i: int| p <= i < quote_end(b, p, q) ==> #[trigger] b[i] != q,
    decreases b.len() - p,
{
    if p < b.len() && b[p] != q {
        lemma_quote_end(b, p + 1, q);
    }
}

pub proof fn lemma_find_from(b: Seq<u8>, p: int, pat: Seq<u8>)
    requires
        0 <= p,
    ensures
        find_from(b, p, pat) matches Some(i) ==> p <= i && i + pat.len() <= b.len() && b.subrange(
            i,
            i + pat.len(),
        ) == pat,
    decreases b.len() + 1 - p,
{
    if p + pat.len() <= b.len() && b.subrange(p, p + pat.len()) != pat {
        lemma_find_from(b, p + 1, pat);
    }
}

pub proof fn lemma_closing_angle(b: Seq<u8>, i: int)
    requires
        0 <= i,
    ensures
        closing_angle(b, i) matches Some(e) ==> i <= e < b.len() && b[e] == 0x3eu8,
    decreases b.len() + 1 - i,
{
    if 0 <= i < b.len() {
        if b[i] == 0x22u8 || b[i] == 0x27u8 {
            lemma_quote_end(b, i + 1, b[i]);
            lemma_closing_angle(b, quote_end(b, i + 1, b[i]) + 1);
        } else if b[i] != 0x3eu8 {
            lemma_closing_angle(b, i + 1);
        }
    }
}

/// Find the start of a declaration like `<!ELEMENT` in the input bytes.
pub(crate) fn find_declaration(bytes: &[u8], from: usize, decl: &[u8]) -> (r: Option<usize>)
    requires
        from <= bytes@.len(),
    ensures
        r matches Some(i) ==> find_from(bytes@, from as int, decl@) == Some(i as int),
        r is None ==> find_from(bytes@, from as int, decl@) is None,
{
    let n = bytes.len();
    let m = decl.len();
    if m > n {
        proof {
            lemma_find_none(bytes@, from as int, decl@);
        }
        return None;
    }
    let mut i = from;
    while i <= n - m
        invariant
            n == bytes@.len(),
            m == decl@.len(),
            m <= n,
            from <= i,
            find_from(bytes@, i as int, decl@) == find_from(bytes@, from as int, decl@),
        decreases n - i,
    {
        let mut j: usize = 0;
        let mut same = true;
        while j < m
            invariant
                n == bytes@.len(),
                m == decl@.len(),
                i + m <= n,
                j <= m,
                same == forall|k: int| 0 <= k < j ==> bytes@[i + k] == decl@[k],
            decreases m - j,
        {
            if bytes[i + j] != decl[j] {
                same = false;
            }
            j += 1;
        }
        if same {
            assert(bytes@.subrange(i as int, i + m) =~= decl@);
            return Some(i);
        }
        assert(bytes@.subrange(i as int, i + m) != decl@) by {
            let k = choose|k: int| 0 <= k < m && bytes@[i + k] != decl@[k];
            assert(bytes@.subrange(i as int, i + m)[k] != decl@[k]);
        }
        i += 1;
    }
    proof {
        lemma_find_none(bytes@, i as int, decl@);
    }
    None
}

proof fn lemma_find_none(b: Seq<u8>, p: int, pat: Seq<u8>)
    requires
        p + pat.len() > b.len(),
    ensures
        find_from(b, p, pat) is None,
{
}

/// Find the matching `>` that closes a declaration, skipping quoted strings.
pub(crate) fn find_closing_angle(bytes: &[u8], from: usize) -> (r: Option<usize>)
    ensures
        r matches Some(e) ==> closing_angle(bytes@, from as int) == Some(e as int),
        r is None ==> closing_angle(bytes@, from as int) is None,
{
    let mut i = from;
    while i < bytes.len()
        invariant
            from <= i,
            closing_angle(bytes@, i as int) == closing_angle(bytes@, from as int),
        decreases bytes@.len() - i,
    {
        let c = bytes[i];
        if c == 0x22u8 || c == 0x27u8 {
            let ghost i0 = i as int;
            proof {
                lemma_quote_end(bytes@, i0 + 1, c);
            }
            i += 1;
            while i < bytes.len() && bytes[i] != c
                invariant
                    i0 < i <= bytes@.len(),
                    quote_end(bytes@, i as int, c) == quote_end(bytes@, i0 + 1, c),
                decreases bytes@.len() - i,
            {
                i += 1;
            }
            if i == bytes.len() {
                assert(quote_end(bytes@, i as int, c) == i);
                assert(closing_angle(bytes@, i0) == closing_angle(bytes@, i + 1));
                return None;
            }
        } else if c == 0x3eu8 {
            return Some(i);
        }
        i += 1;
    }
    None
}

// ---------------------------------------------------------------------------
// Element declarations
// ---------------------------------------------------------------------------

/// `<!ELEMENT`
pub open spec fn element_decl() -> Seq<u8> {
    seq![0x3cu8, 0x21u8, 0x45u8, 0x4cu8, 0x45u8, 0x4du8, 0x45u8, 0x4eu8, 0x54u8]
}

/// The first position at or after `p` holding ASCII whitespace.
pub open spec fn first_ws(b: Seq<u8>, p: int) -> Option<int>
    decreases b.len() - p,
{
    if p < 0 || p >= b.len() {
        None
    } else if is_ws(b[p]) {
        Some(p)
    } else {
        first_ws(b, p + 1)
    }
}

/// The first word of a trimmed text and the rest, each trimmed.
pub open spec fn split_word(t: Seq<char>) -> Result<(Seq<char>, Seq<char>), ErrorView> {
    let s = trim_chars(t);
    let c = encode_utf8(s);
    match first_ws(c, 0) {
        None => Err(ErrorView::MissingContentModel { text: s }),
        Some(i) => Ok(
            (trim_chars(text_between(c, 0, i)), trim_chars(text_between(c, i, c.len() as int))),
        ),
    }
}

/// The element that the text between `start` and `end` declares.
pub open spec fn element_body(b: Seq<u8>, start: int, end: int) -> Result<SpecElement, ErrorView> {
    match split_word(trim_chars(text_between(b, start, end))) {
        Err(e) => Err(e),
        Ok((name, rest)) => match content_model_of(rest) {
            Err(e) => Err(e),
            Ok(cm) => Ok(SpecElement { name, content: cm, attributes: seq![] }),
        },
    }
}

/// The element declarations from position `p` on, in order.
pub open spec fn elements_from(b: Seq<u8>, p: int) -> Result<Seq<SpecElement>, ErrorView>
    decreases b.len() - p,
    when 0 <= p <= b.len()
{
    match find_from(b, p, element_decl()) {
        None => Ok(seq![]),
        Some(idx) => {
            proof {
                lemma_find_from(b, p, element_decl());
                lemma_closing_angle(b, idx + 9);
            }
            match closing_angle(b, idx + 9) {
                None => Err(ErrorView::Unclosed { decl: DeclKind::Element, position: idx }),
                Some(end) => match element_body(b, idx + 9, end) {
                    Err(e) => Err(e),
                    Ok(el) => match elements_from(b, end + 1) {
                        Err(e) => Err(e),
                        Ok(rest) => Ok(seq![el] + rest),
                    },
                },
            }
        },
    }
}

/// The element declarations of a DTD, in order.
pub open spec fn elements_of(text: Seq<char>) -> Result<Seq<SpecElement>, ErrorView> {
    elements_from(encode_utf8(text), 0)
}

/// Parses every `<!ELEMENT` declaration of `input`, in order. The attributes
/// of the elements are left empty.
pub fn parse_elements(input: &str) -> (r: Result<Vec<Element>, DtdError>)
    ensures
        r is Ok <==> elements_of(input@) is Ok,
        r matches Ok(v) ==> elements_of(input@) == Ok::<Seq<SpecElement>, ErrorView>(
            elements_view(v@),
        ),
        r matches Err(e) ==> elements_of(input@) == Err::<Seq<SpecElement>, ErrorView>(e@),
{
    let mut elements: Vec<Element> = Vec::new();
    let mut pos: usize = 0;
    let bytes = input.as_bytes();
    let ghost b = bytes@;
    let n = bytes.len();
    let decl: [u8; 9] = [0x3cu8, 0x21u8, 0x45u8, 0x4cu8, 0x45u8, 0x4du8, 0x45u8, 0x4eu8, 0x54u8];
    assert(decl@ =~= element_decl());
    loop
        invariant
            b == bytes@,
            b == encode_utf8(input@),
            n == b.len(),
            decl@ == element_decl(),
            pos <= b.len(),
            pos == 0 || b[pos - 1] == 0x3eu8,
            elements_of(input@) == match elements_from(b, pos as int) {
                Ok(rest) => Ok(elements_view(elements@) + rest),
                Err(e) => Err::<Seq<SpecElement>, ErrorView>(e),
            },
        decreases b.len() - pos,
    {
        let idx = match find_declaration(bytes, pos, &decl) {
            Some(i) => i,
            None => {
                assert(elements_view(elements@) + seq![] =~= elements_view(elements@));
                return Ok(elements);
            },
        };
        proof {
            lemma_find_from(b, pos as int, element_decl());
            assert(element_decl().len() == 9);
            lemma_closing_angle(b, idx + 9);
        }
        let start = idx + 9;
        let end = match find_closing_angle(bytes, start) {
            Some(e) => e,
            None => {
                return Err(DtdError::Unclosed { decl: DeclKind::Element, position: idx });
            },
        };
        proof {
            assert(b[start - 1] == 0x54u8) by {
                assert(b.subrange(idx as int, idx + 9)[8] == element_decl()[8]);
            }
        }
        let el = match parse_element_decl(input, bytes, start, end) {
            Ok(el) => el,
            Err(e) => {
                return Err(e);
            },
        };
        proof {
            let ev = elements_view(elements@);
            assert(elements_view(elements@.push(el)) =~= ev.push(el.spec_view()));
            match elements_from(b, end + 1) {
                Ok(rest) => {
                    assert(ev + (seq![el.spec_view()] + rest) =~= ev.push(el.spec_view()) + rest);
                },
                Err(_) => {},
            }
        }
        elements.push(el);
        pos = end + 1;
    }
}

/// The element declared between `start` (just after `<!ELEMENT`) and `end` (the `>`).
fn parse_element_decl(input: &str, bytes: &[u8], start: usize, end: usize) -> (r: Result<
    Element,
    DtdError,
>)
    requires
        bytes@ == encode_utf8(input@),
        0 < start <= end < bytes@.len(),
        bytes@[start - 1] < 0x80,
        bytes@[end as int] == 0x3eu8,
    ensures
        r is Ok <==> element_body(bytes@, start as int, end as int) is Ok,
        r matches Ok(el) ==> element_body(bytes@, start as int, end as int) == Ok::<
            SpecElement,
            ErrorView,
        >(el.spec_view()),
        r matches Err(e) ==> element_body(bytes@, start as int, end as int) == Err::<
            SpecElement,
            ErrorView,
        >(e@),
{
    proof {
        lemma_ascii_is_boundary(bytes@, end as int);
        crate::text::lemma_boundary_after_ascii(bytes@, start - 1);
    }
    let body = str_trim(str_slice(input, start, end));
    let (name, content_str) = split_first_word(body)?;
    let content = parse_content_model(content_str)?;
    let el = Element { name: name.to_owned(), content, attributes: Vec::new() };
    assert(el.spec_view().attributes =~= seq![]);
    Ok(el)
}

/// Splits a trimmed text at its first ASCII whitespace into a name and the rest.
fn split_first_word(s: &str) -> (r: Result<(&str, &str), DtdError>)
    ensures
        r is Ok <==> split_word(s@) is Ok,
        r matches Ok((a, c)) ==> split_word(s@) == Ok::<(Seq<char>, Seq<char>), ErrorView>(
            (a@, c@),
        ),
        r matches Err(e) ==> split_word(s@) == Err::<(Seq<char>, Seq<char>), ErrorView>(e@),
{
    let t = str_trim(s);
    let b = t.as_bytes();
    let ghost c = b@;
    let mut i: usize = 0;
    while i < b.len()
        invariant
            c == b@,
            c == encode_utf8(t@),
            t@ == trim_chars(s@),
            i <= c.len(),
            first_ws(c, i as int) == first_ws(c, 0),
        decreases c.len() - i,
    {
        if is_ws_exec(b[i]) {
            proof {
                lemma_ascii_is_boundary(c, i as int);
                is_char_boundary_start_end_of_seq(c);
            }
            let first = str_trim(str_slice(t, 0, i));
            let rest = str_trim(str_slice(t, i, b.len()));
            return Ok((first, rest));
        }
        i += 1;
    }
    Err(DtdError::MissingContentModel { text: t.to_owned() })
}

} // verus!
