//! Content models of element declarations: `EMPTY`, `ANY`, `(#PCDATA)`,
//! mixed content `(#PCDATA | a | b)*` and element content made of nested
//! sequence and choice groups with `?`, `*` and `+` quantifiers.
use vstd::prelude::*;
use vstd::utf8::*;

use crate::error::{DtdError, ErrorView};
use crate::model::{
    strings_view, ContentModel, Group, GroupItem, GroupItemContent, GroupKind, Quantifier,
    SpecContent, SpecGroup, SpecItem, SpecItemContent,
};
use crate::text::{
    eq_ignore_case, is_name_byte, is_prefix, is_ws, lemma_ascii_is_boundary,
    lemma_boundary_after_ascii, lemma_name_end, lemma_skip_ws, name_end, peek, skip_ws, str_slice,
    str_starts_with, str_trim, is_ws_exec, is_name_byte_exec, str_trim_start, str_trim_start_matches, text_between,
    trim_chars, trim_start_char, trim_start_chars, ascii_lower,
};

verus! {

broadcast use vstd::utf8::group_utf8_lib;

// ---------------------------------------------------------------------------
// What a content model means
// ---------------------------------------------------------------------------

pub open spec fn pcdata_chars() -> Seq<char> {
    seq!['#', 'P', 'C', 'D', 'A', 'T', 'A']
}

pub open spec fn empty_bytes() -> Seq<u8> {
    seq![0x45u8, 0x4du8, 0x50u8, 0x54u8, 0x59u8]
}

pub open spec fn any_bytes() -> Seq<u8> {
    seq![0x41u8, 0x4eu8, 0x59u8]
}

/// `ch` after optional whitespace; the position after it.
pub open spec fn cm_expect(b: Seq<u8>, p: int, ch: u8) -> Result<int, ErrorView> {
    let q = skip_ws(b, p);
    if peek(b, q) == Some(ch) {
        Ok(q + 1)
    } else {
        Err(ErrorView::ExpectedChar { expected: ch, position: q, found: peek(b, q) })
    }
}

/// An optional `?`, `*` or `+` right at `p`.
pub open spec fn cm_quantifier(b: Seq<u8>, p: int) -> (Quantifier, int) {
    if peek(b, p) == Some(0x3fu8) {
        (Quantifier::Optional, p + 1)
    } else if peek(b, p) == Some(0x2au8) {
        (Quantifier::ZeroOrMore, p + 1)
    } else if peek(b, p) == Some(0x2bu8) {
        (Quantifier::OneOrMore, p + 1)
    } else {
        (Quantifier::One, p)
    }
}

/// A name after optional whitespace, possibly starting with `#`: its start and end.
pub open spec fn cm_name(b: Seq<u8>, p: int) -> Result<(int, int), ErrorView> {
    let q = skip_ws(b, p);
    let s = if peek(b, q) == Some(0x23u8) {
        q + 1
    } else {
        q
    };
    let e = name_end(b, s);
    if e == q {
        Err(ErrorView::ExpectedName { position: e })
    } else {
        Ok((q, e))
    }
}

/// A parenthesised group starting at `p` (after optional whitespace), without
/// the quantifier that may follow it.
pub open spec fn cm_group(b: Seq<u8>, p: int) -> Result<(SpecGroup, int), ErrorView>
    decreases b.len() - p, 0int,
    when 0 <= p <= b.len()
{
    match cm_expect(b, p, 0x28u8) {
        Err(e) => Err(e),
        Ok(q) => {
            proof {
                lemma_skip_ws(b, p);
                lemma_skip_ws(b, q);
            }
            let q1 = skip_ws(b, q);
            match cm_cp(b, q1) {
                Err(e) => Err(e),
                Ok((first, r)) => {
                    // a particle is never empty, so this guard always holds
                    if !(q1 < r <= b.len()) {
                        Err(ErrorView::UnexpectedInGroup { found: None })
                    } else {
                        proof {
                            lemma_skip_ws(b, r);
                        }
                        let r1 = skip_ws(b, r);
                        if peek(b, r1) == Some(0x29u8) {
                            Ok((SpecGroup { kind: GroupKind::Sequence, items: seq![first] }, r1 + 1))
                        } else if peek(b, r1) == Some(0x2cu8) || peek(b, r1) == Some(0x7cu8) {
                            let sep = b[r1];
                            match cm_more(b, r1, sep) {
                                Err(e) => Err(e),
                                Ok((rest, t)) => match cm_expect(b, t, 0x29u8) {
                                    Err(e) => Err(e),
                                    Ok(t1) => Ok(
                                        (
                                            SpecGroup {
                                                kind: if sep == 0x2cu8 {
                                                    GroupKind::Sequence
                                                } else {
                                                    GroupKind::Choice
                                                },
                                                items: seq![first] + rest,
                                            },
                                            t1,
                                        ),
                                    ),
                                },
                            }
                        } else {
                            Err(ErrorView::UnexpectedInGroup { found: peek(b, r1) })
                        }
                    }
                },
            }
        },
    }
}

/// A content particle: a name or a nested group, then its quantifier.
pub open spec fn cm_cp(b: Seq<u8>, p: int) -> Result<(SpecItem, int), ErrorView>
    decreases b.len() - p, 1int,
    when 0 <= p <= b.len()
{
    proof {
        lemma_skip_ws(b, p);
    }
    let q = skip_ws(b, p);
    let content = if peek(b, q) == Some(0x28u8) {
        match cm_group(b, q) {
            Err(e) => Err(e),
            Ok((g, r)) => Ok((SpecItemContent::Group(g), r)),
        }
    } else {
        match cm_name(b, q) {
            Err(e) => Err(e),
            Ok((s, e)) => Ok((SpecItemContent::Name(text_between(b, s, e)), e)),
        }
    };
    match content {
        Err(e) => Err(e),
        Ok((c, r)) => {
            let (qt, r2) = cm_quantifier(b, r);
            Ok((SpecItem { content: c, quantifier: qt }, r2))
        },
    }
}

/// The particles that follow the first one of a group, each after `sep`.
pub open spec fn cm_more(b: Seq<u8>, p: int, sep: u8) -> Result<(Seq<SpecItem>, int), ErrorView>
    decreases b.len() - p, 2int,
    when 0 <= p <= b.len()
{
    if peek(b, p) == Some(sep) {
        proof {
            lemma_skip_ws(b, p + 1);
        }
        let q = skip_ws(b, p + 1);
        match cm_cp(b, q) {
            Err(e) => Err(e),
            Ok((item, r)) => {
                // a particle is never empty, so this guard always holds
                if !(q < r <= b.len()) {
                    Err(ErrorView::UnexpectedInGroup { found: None })
                } else {
                    proof {
                        lemma_skip_ws(b, r);
                    }
                    match cm_more(b, skip_ws(b, r), sep) {
                        Err(e) => Err(e),
                        Ok((items, t)) => Ok((seq![item] + items, t)),
                    }
                }
            },
        }
    } else {
        Ok((seq![], p))
    }
}

/// Does the group at `p` start with `#PCDATA` (after its parentheses and whitespace)?
pub open spec fn cm_is_mixed(b: Seq<u8>, p: int) -> bool {
    is_prefix(
        pcdata_chars(),
        trim_start_chars(trim_start_char(text_between(b, p, b.len() as int), '(')),
    )
}

/// The names of a mixed group after `#PCDATA`, each after `|`.
pub open spec fn cm_mixed_names(b: Seq<u8>, p: int) -> Result<(Seq<Seq<char>>, int), ErrorView>
    decreases b.len() - p,
    when 0 <= p <= b.len()
{
    if peek(b, p) == Some(0x7cu8) {
        proof {
            let q = skip_ws(b, p + 1);
            lemma_skip_ws(b, p + 1);
            lemma_skip_ws(b, q);
            lemma_name_end(b, q);
            if peek(b, q) == Some(0x23u8) {
                lemma_name_end(b, q + 1);
            }
        }
        match cm_name(b, skip_ws(b, p + 1)) {
            Err(e) => Err(e),
            Ok((s, e)) => {
                proof {
                    lemma_skip_ws(b, e);
                }
                match cm_mixed_names(b, skip_ws(b, e), ) {
                    Err(err) => Err(err),
                    Ok((names, t)) => Ok((seq![text_between(b, s, e)] + names, t)),
                }
            },
        }
    } else {
        Ok((seq![], p))
    }
}

/// Mixed content `(#PCDATA)` or `(#PCDATA | a | b)*` starting at `p`.
pub open spec fn cm_mixed(b: Seq<u8>, p: int) -> Result<SpecContent, ErrorView> {
    match cm_expect(b, p, 0x28u8) {
        Err(e) => Err(e),
        Ok(q) => match cm_name(b, skip_ws(b, q)) {
            Err(e) => Err(e),
            Ok((s, e)) => if text_between(b, s, e) != pcdata_chars() {
                Err(ErrorView::ExpectedPcdata)
            } else if peek(b, skip_ws(b, e)) == Some(0x29u8) {
                Ok(SpecContent::Pcdata)
            } else {
                cm_mixed_list(b, skip_ws(b, e))
            },
        },
    }
}

/// The names of a mixed group and its closing parenthesis.
pub open spec fn cm_mixed_list(b: Seq<u8>, p: int) -> Result<SpecContent, ErrorView> {
    match cm_mixed_names(b, p) {
        Err(err) => Err(err),
        Ok((names, t)) => match cm_expect(b, t, 0x29u8) {
            Err(err) => Err(err),
            Ok(_) => Ok(SpecContent::Mixed(names)),
        },
    }
}

/// A content model that is neither `EMPTY` nor `ANY`; what follows it is ignored.
pub open spec fn cm_top(b: Seq<u8>) -> Result<SpecContent, ErrorView> {
    let p = skip_ws(b, 0);
    if peek(b, p) != Some(0x28u8) {
        Err(ErrorView::ExpectedOpenParen)
    } else if cm_is_mixed(b, p) {
        cm_mixed(b, p)
    } else {
        match cm_group(b, p) {
            Err(e) => Err(e),
            Ok((g, r)) => {
                let (qt, _) = cm_quantifier(b, r);
                if qt != Quantifier::One {
                    Ok(
                        SpecContent::Children(
                            SpecGroup {
                                kind: GroupKind::Sequence,
                                items: seq![SpecItem { content: SpecItemContent::Group(g), quantifier: qt }],
                            },
                        ),
                    )
                } else {
                    Ok(SpecContent::Children(g))
                }
            },
        }
    }
}

/// The content model that `text` declares, once trimmed of surrounding whitespace.
pub open spec fn content_model_of(text: Seq<char>) -> Result<SpecContent, ErrorView> {
    let b = encode_utf8(trim_chars(text));
    if eq_ignore_case(b, empty_bytes()) {
        Ok(SpecContent::Empty)
    } else if eq_ignore_case(b, any_bytes()) {
        Ok(SpecContent::Any)
    } else {
        cm_top(b)
    }
}

// ---------------------------------------------------------------------------
// Reading a longer text that starts with the same bytes
// ---------------------------------------------------------------------------

/// `b` is the start of `b2`.
pub open spec fn starts_bytes(b: Seq<u8>, b2: Seq<u8>) -> bool {
    b.len() <= b2.len() && forall|i: int| 0 <= i < b.len() ==> #[trigger] b2[i] == b[i]
}

proof fn lemma_skip_ws_extends(b: Seq<u8>, b2: Seq<u8>, p: int)
    requires
        starts_bytes(b, b2),
        0 <= p <= b.len(),
        skip_ws(b, p) < b.len(),
    ensures
        skip_ws(b2, p) == skip_ws(b, p),
    decreases b.len() - p,
{
    assert(b2[p] == b[p]);
    if is_ws(b[p]) {
        lemma_skip_ws_extends(b, b2, p + 1);
    }
}

proof fn lemma_name_end_extends(b: Seq<u8>, b2: Seq<u8>, p: int)
    requires
        starts_bytes(b, b2),
        0 <= p <= b.len(),
        name_end(b, p) < b.len(),
    ensures
        name_end(b2, p) == name_end(b, p),
    decreases b.len() - p,
{
    assert(b2[p] == b[p]);
    if is_name_byte(b[p]) {
        lemma_name_end_extends(b, b2, p + 1);
    }
}

proof fn lemma_text_extends(b: Seq<u8>, b2: Seq<u8>, s: int, e: int)
    requires
        starts_bytes(b, b2),
        0 <= s <= e <= b.len(),
    ensures
        text_between(b2, s, e) == text_between(b, s, e),
{
    assert(b2.subrange(s, e) =~= b.subrange(s, e));
}

proof fn lemma_expect_extends(b: Seq<u8>, b2: Seq<u8>, p: int, ch: u8)
    requires
        starts_bytes(b, b2),
        0 <= p <= b.len(),
        cm_expect(b, p, ch) is Ok,
    ensures
        cm_expect(b2, p, ch) == cm_expect(b, p, ch),
        cm_expect(b, p, ch)->Ok_0 <= b.len(),
        p < cm_expect(b, p, ch)->Ok_0,
{
    lemma_skip_ws(b, p);
    lemma_skip_ws_extends(b, b2, p);
    assert(b2[skip_ws(b, p)] == b[skip_ws(b, p)]);
}

/// Where a quantifier is read inside the bytes of `b`, the longer text reads the same.
proof fn lemma_quantifier_extends(b: Seq<u8>, b2: Seq<u8>, r: int)
    requires
        starts_bytes(b, b2),
        0 <= r < b.len(),
    ensures
        cm_quantifier(b2, r) == cm_quantifier(b, r),
{
    assert(b2[r] == b[r]);
}

proof fn lemma_more_end(b: Seq<u8>, p: int, sep: u8)
    requires
        0 <= p <= b.len(),
        cm_more(b, p, sep) is Ok,
    ensures
        p <= cm_more(b, p, sep)->Ok_0.1,
    decreases b.len() - p,
{
    if peek(b, p) == Some(sep) {
        lemma_skip_ws(b, p + 1);
        let q = skip_ws(b, p + 1);
        let (item, r) = cm_cp(b, q)->Ok_0;
        lemma_skip_ws(b, r);
        lemma_more_end(b, skip_ws(b, r), sep);
    }
}

/// A group read from the bytes of `b` is read the same from any longer text
/// that starts with them: reading it never looks past its closing `)`.
pub proof fn lemma_group_extends(b: Seq<u8>, b2: Seq<u8>, p: int)
    requires
        starts_bytes(b, b2),
        0 <= p <= b.len(),
        cm_group(b, p) is Ok,
    ensures
        cm_group(b2, p) == cm_group(b, p),
    decreases b.len() - p, 0int,
{
    lemma_expect_extends(b, b2, p, 0x28u8);
    let q = cm_expect(b, p, 0x28u8)->Ok_0;
    lemma_skip_ws(b, p);
    lemma_skip_ws(b, q);
    let q1 = skip_ws(b, q);
    let (first, r) = cm_cp(b, q1)->Ok_0;
    lemma_skip_ws(b, r);
    let r1 = skip_ws(b, r);
    assert(r1 < b.len());
    lemma_skip_ws_extends(b, b2, q);
    lemma_cp_extends(b, b2, q1);
    lemma_skip_ws_extends(b, b2, r);
    assert(b2[r1] == b[r1]);
    if peek(b, r1) != Some(0x29u8) {
        let sep = b[r1];
        let (rest, t) = cm_more(b, r1, sep)->Ok_0;
        lemma_expect_extends(b, b2, t, 0x29u8);
        lemma_skip_ws(b, t);
        lemma_more_extends(b, b2, r1, sep);
    }
}

/// A particle read from the bytes of `b`, and not ending at their end, is read
/// the same from any longer text that starts with them.
proof fn lemma_cp_extends(b: Seq<u8>, b2: Seq<u8>, p: int)
    requires
        starts_bytes(b, b2),
        0 <= p <= b.len(),
        cm_cp(b, p) is Ok,
        cm_cp(b, p)->Ok_0.1 < b.len(),
    ensures
        cm_cp(b2, p) == cm_cp(b, p),
    decreases b.len() - p, 1int,
{
    lemma_skip_ws(b, p);
    let q = skip_ws(b, p);
    if peek(b, q) == Some(0x28u8) {
        lemma_skip_ws_extends(b, b2, p);
        assert(b2[q] == b[q]);
        lemma_group_extends(b, b2, q);
        let (g, r) = cm_group(b, q)->Ok_0;
        lemma_quantifier_extends(b, b2, r);
    } else {
        lemma_skip_ws(b, q);
        let (s, e) = cm_name(b, q)->Ok_0;
        let q2 = skip_ws(b, q);
        let s2 = if peek(b, q2) == Some(0x23u8) { q2 + 1 } else { q2 };
        lemma_name_end(b, s2);
        assert(e < b.len());
        assert(q < b.len());
        lemma_skip_ws_extends(b, b2, p);
        assert(b2[q] == b[q]);
        lemma_skip_ws_extends(b, b2, q);
        assert(b2[q2] == b[q2]);
        lemma_name_end_extends(b, b2, s2);
        lemma_text_extends(b, b2, s, e);
        lemma_quantifier_extends(b, b2, e);
    }
}

/// The particles after the first one of a group, read from the bytes of `b`
/// and ending before their end, are read the same from a longer text.
proof fn lemma_more_extends(b: Seq<u8>, b2: Seq<u8>, p: int, sep: u8)
    requires
        starts_bytes(b, b2),
        0 <= p <= b.len(),
        cm_more(b, p, sep) is Ok,
        cm_more(b, p, sep)->Ok_0.1 < b.len(),
    ensures
        cm_more(b2, p, sep) == cm_more(b, p, sep),
    decreases b.len() - p, 2int,
{
    lemma_more_end(b, p, sep);
    assert(b2[p] == b[p]);
    if peek(b, p) == Some(sep) {
        lemma_skip_ws(b, p + 1);
        let q = skip_ws(b, p + 1);
        let (item, r) = cm_cp(b, q)->Ok_0;
        lemma_skip_ws(b, r);
        let r1 = skip_ws(b, r);
        lemma_more_end(b, r1, sep);
        lemma_skip_ws_extends(b, b2, p + 1);
        lemma_cp_extends(b, b2, q);
        lemma_skip_ws_extends(b, b2, r);
        lemma_more_extends(b, b2, r1, sep);
    }
}

// ---------------------------------------------------------------------------
// The parser
// ---------------------------------------------------------------------------

/// Parses a content model, as written after the element name of an `<!ELEMENT`
/// declaration.
pub fn parse_content_model(input: &str) -> (r: Result<ContentModel, DtdError>)
    ensures
        r is Ok <==> content_model_of(input@) is Ok,
        r matches Ok(m) ==> content_model_of(input@) == Ok::<SpecContent, ErrorView>(m.spec_view()),
        r matches Err(e) ==> content_model_of(input@) == Err::<SpecContent, ErrorView>(e@),
{
    let s = str_trim(input);
    let bytes = s.as_bytes();
    if eq_ignore_case_exec(bytes, &[0x45u8, 0x4du8, 0x50u8, 0x54u8, 0x59u8]) {
        return Ok(ContentModel::Empty);
    }
    if eq_ignore_case_exec(bytes, &[0x41u8, 0x4eu8, 0x59u8]) {
        return Ok(ContentModel::Any);
    }
    let mut p = Parser::new(s);
    p.parse_top()
}

/// `str::eq_ignore_ascii_case` on bytes.
fn eq_ignore_case_exec(a: &[u8], b: &[u8]) -> (r: bool)
    ensures
        r == eq_ignore_case(a@, b@),
{
    if a.len() != b.len() {
        return false;
    }
    let mut i: usize = 0;
    while i < a.len()
        invariant
            a@.len() == b@.len(),
            i <= a@.len(),
            forall|j: int| 0 <= j < i ==> ascii_lower(#[trigger] a@[j]) == ascii_lower(b@[j]),
        decreases a@.len() - i,
    {
        if lower_byte(a[i]) != lower_byte(b[i]) {
            return false;
        }
        i += 1;
    }
    true
}

fn lower_byte(c: u8) -> (r: u8)
    ensures
        r == ascii_lower(c),
{
    if 0x41u8 <= c && c <= 0x5au8 {
        c + 32
    } else {
        c
    }
}

struct Parser<'a> {
    text: &'a str,
    input: &'a [u8],
    pos: usize,
}

impl<'a> Parser<'a> {
    spec fn wf(&self) -> bool {
        &&& self.input@ == encode_utf8(self.text@)
        &&& self.pos <= self.input@.len()
        &&& self.input@.len() <= usize::MAX
    }

    spec fn same_source(&self, other: &Self) -> bool {
        self.input == other.input && self.text == other.text
    }

    fn new(input: &'a str) -> (r: Self)
        ensures
            r.wf(),
            r.text == input,
            r.pos == 0,
    {
        let bytes = input.as_bytes();
        // A slice's length is a `usize`; reading it bounds the positions below.
        let _ = bytes.len();
        Self { text: input, input: bytes, pos: 0 }
    }

    fn skip_ws(&mut self)
        requires
            old(self).wf(),
        ensures
            final(self).wf(),
            final(self).same_source(old(self)),
            final(self).pos == skip_ws(old(self).input@, old(self).pos as int),
    {
        proof {
            lemma_skip_ws(self.input@, self.pos as int);
        }
        while self.pos < self.input.len() && is_ws_exec(self.input[self.pos])
            invariant
                self.wf(),
                self.same_source(old(self)),
                old(self).pos <= self.pos,
                skip_ws(self.input@, self.pos as int) == skip_ws(old(self).input@, old(self).pos as int),
            decreases self.input@.len() - self.pos,
        {
            self.pos += 1;
        }
    }

    fn peek(&self) -> (r: Option<u8>)
        requires
            self.wf(),
        ensures
            r == peek(self.input@, self.pos as int),
    {
        if self.pos < self.input.len() {
            Some(self.input[self.pos])
        } else {
            None
        }
    }

    fn expect(&mut self, ch: u8) -> (r: Result<(), DtdError>)
        requires
            old(self).wf(),
        ensures
            final(self).wf(),
            final(self).same_source(old(self)),
            r is Ok <==> cm_expect(old(self).input@, old(self).pos as int, ch) is Ok,
            r is Ok ==> cm_expect(old(self).input@, old(self).pos as int, ch) == Ok::<int, ErrorView>(
                final(self).pos as int,
            ),
            r matches Err(e) ==> cm_expect(old(self).input@, old(self).pos as int, ch) == Err::<
                int,
                ErrorView,
            >(e@),
    {
        self.skip_ws();
        if self.peek() == Some(ch) {
            self.pos += 1;
            Ok(())
        } else {
            Err(DtdError::ExpectedChar { expected: ch, position: self.pos, found: self.peek() })
        }
    }

    fn parse_top(&mut self) -> (r: Result<ContentModel, DtdError>)
        requires
            old(self).wf(),
            old(self).pos == 0,
        ensures
            r is Ok <==> cm_top(old(self).input@) is Ok,
            r matches Ok(m) ==> cm_top(old(self).input@) == Ok::<SpecContent, ErrorView>(
                m.spec_view(),
            ),
            r matches Err(e) ==> cm_top(old(self).input@) == Err::<SpecContent, ErrorView>(e@),
    {
        self.skip_ws();
        if self.peek() != Some(0x28u8) {
            return Err(DtdError::ExpectedOpenParen);
        }
        if self.is_mixed() {
            return self.parse_mixed();
        }
        let group = self.parse_group()?;
        let q = self.parse_quantifier();
        if q != Quantifier::One {
            let item = GroupItem { content: GroupItemContent::Group(group), quantifier: q };
            let ghost iv = item.spec_view();
            let items = vec![item];
            let g = Group { kind: GroupKind::Sequence, items };
            assert(g.spec_view().items =~= seq![iv]);
            Ok(ContentModel::Children(g))
        } else {
            Ok(ContentModel::Children(group))
        }
    }

    fn is_mixed(&self) -> (r: bool)
        requires
            self.wf(),
            peek(self.input@, self.pos as int) == Some(0x28u8),
        ensures
            r == cm_is_mixed(self.input@, self.pos as int),
    {
        proof {
            lemma_ascii_is_boundary(self.input@, self.pos as int);
        }
        let rest = str_slice(self.text, self.pos, self.input.len());
        let trimmed = str_trim_start(str_trim_start_matches(rest, '('));
        let r = str_starts_with(trimmed, "#PCDATA");
        proof {
            reveal_strlit("#PCDATA");
            assert("#PCDATA"@ =~= pcdata_chars());
        }
        r
    }

    fn parse_mixed(&mut self) -> (r: Result<ContentModel, DtdError>)
        requires
            old(self).wf(),
        ensures
            r is Ok <==> cm_mixed(old(self).input@, old(self).pos as int) is Ok,
            r matches Ok(m) ==> cm_mixed(old(self).input@, old(self).pos as int) == Ok::<
                SpecContent,
                ErrorView,
            >(m.spec_view()),
            r matches Err(e) ==> cm_mixed(old(self).input@, old(self).pos as int) == Err::<
                SpecContent,
                ErrorView,
            >(e@),
    {
        let ghost b = self.input@;
        let ghost p_orig = self.pos as int;
        self.expect(0x28u8)?;
        self.skip_ws();
        let name = self.parse_name()?;
        let pcdata = "#PCDATA".to_string();
        proof {
            reveal_strlit("#PCDATA");
            assert("#PCDATA"@ =~= pcdata_chars());
        }
        if name != pcdata {
            return Err(DtdError::ExpectedPcdata);
        }
        self.skip_ws();
        if self.peek() == Some(0x29u8) {
            self.pos += 1;
            if self.peek() == Some(0x2au8) {
                self.pos += 1;
            }
            return Ok(ContentModel::Pcdata);
        }
        let ghost start = self.pos as int;
        assert(cm_mixed(b, p_orig) == cm_mixed_list(b, start));
        let mut names: Vec<String> = Vec::new();
        while self.peek() == Some(0x7cu8)
            invariant
                self.wf(),
                self.input@ == b,
                start <= self.pos,
                0 <= start <= b.len(),
                cm_mixed(b, p_orig) == cm_mixed_list(b, start),
                p_orig == old(self).pos as int,
                b == old(self).input@,
                cm_mixed_names(b, start) == match cm_mixed_names(b, self.pos as int) {
                    Ok((ns, t)) => Ok((strings_view(names@) + ns, t)),
                    Err(e) => Err::<(Seq<Seq<char>>, int), ErrorView>(e),
                },
            decreases b.len() - self.pos,
        {
            let ghost p0 = self.pos as int;
            self.pos += 1;
            self.skip_ws();
            proof {
                lemma_skip_ws(b, p0 + 1);
            }
            let n = match self.parse_name() {
                Ok(n) => n,
                Err(err) => {
                    assert(cm_mixed_names(b, p0) == Err::<(Seq<Seq<char>>, int), ErrorView>(err@));
                    assert(cm_mixed_names(b, start) == Err::<(Seq<Seq<char>>, int), ErrorView>(err@));
                    assert(cm_mixed_list(b, start) == Err::<SpecContent, ErrorView>(err@));
                    return Err(err);
                },
            };
            let ghost e = self.pos as int;
            self.skip_ws();
            proof {
                lemma_skip_ws(b, e);
                let ns_old = strings_view(names@);
                assert(strings_view(names@.push(n)) =~= ns_old.push(n@));
                match cm_mixed_names(b, self.pos as int) {
                    Ok((ns, t)) => {
                        assert(ns_old + (seq![n@] + ns) =~= ns_old.push(n@) + ns);
                    },
                    Err(_) => {},
                }
            }
            names.push(n);
        }
        self.expect(0x29u8)?;
        if self.peek() == Some(0x2au8) {
            self.pos += 1;
        }
        proof {
            assert(strings_view(names@) + seq![] =~= strings_view(names@));
        }
        Ok(ContentModel::Mixed(names))
    }

    /// Parse a parenthesized group (without outer quantifier).
    fn parse_group(&mut self) -> (r: Result<Group, DtdError>)
        requires
            old(self).wf(),
        ensures
            final(self).wf(),
            final(self).same_source(old(self)),
            r is Ok <==> cm_group(old(self).input@, old(self).pos as int) is Ok,
            r matches Ok(g) ==> cm_group(old(self).input@, old(self).pos as int) == Ok::<
                (SpecGroup, int),
                ErrorView,
            >((g.spec_view(), final(self).pos as int)),
            r matches Err(e) ==> cm_group(old(self).input@, old(self).pos as int) == Err::<
                (SpecGroup, int),
                ErrorView,
            >(e@),
            r is Ok ==> old(self).pos < final(self).pos,
        decreases old(self).input@.len() - old(self).pos, 0int,
    {
        let ghost b = self.input@;
        let ghost p = self.pos as int;
        proof {
            lemma_skip_ws(b, p);
        }
        self.expect(0x28u8)?;
        proof {
            lemma_skip_ws(b, self.pos as int);
        }
        self.skip_ws();
        let ghost q1 = self.pos as int;
        let first = self.parse_cp()?;
        let ghost r = self.pos as int;
        proof {
            lemma_skip_ws(b, r);
        }
        self.skip_ws();
        let ghost r1 = self.pos as int;
        let ghost fv = first.spec_view();
        let c = self.peek();
        if c == Some(0x29u8) {
            self.pos += 1;
            let g = Group { kind: GroupKind::Sequence, items: vec![first] };
            assert(g.spec_view().items =~= seq![fv]);
            return Ok(g);
        }
        if c == Some(0x2cu8) || c == Some(0x7cu8) {
            let sep = self.input[self.pos];
            let mut items = vec![first];
            while self.peek() == Some(sep)
                invariant
                    self.wf(),
                    self.same_source(old(self)),
                    self.input@ == b,
                    r1 <= self.pos,
                    0 <= r1 <= b.len(),
                    p < r1,
                    p == old(self).pos,
                    cm_group(b, p) == match cm_more(b, r1, sep) {
                        Err(e) => Err(e),
                        Ok((rest, t)) => match cm_expect(b, t, 0x29u8) {
                            Err(e) => Err(e),
                            Ok(t1) => Ok(
                                (
                                    SpecGroup {
                                        kind: if sep == 0x2cu8 {
                                            GroupKind::Sequence
                                        } else {
                                            GroupKind::Choice
                                        },
                                        items: seq![fv] + rest,
                                    },
                                    t1,
                                ),
                            ),
                        },
                    },
                    items@.len() >= 1,
                    items@[0].spec_view() == fv,
                    cm_more(b, r1, sep) == match cm_more(b, self.pos as int, sep) {
                        Ok((its, t)) => Ok(
                            (Group { kind: GroupKind::Sequence, items }.spec_view().items.drop_first()
                                + its, t),
                        ),
                        Err(e) => Err::<(Seq<SpecItem>, int), ErrorView>(e),
                    },
                decreases b.len() - self.pos,
            {
                let ghost p0 = self.pos as int;
                let ghost before = Group { kind: GroupKind::Sequence, items }.spec_view().items;
                self.pos += 1;
                proof {
                    lemma_skip_ws(b, p0 + 1);
                }
                self.skip_ws();
                let item = self.parse_cp()?;
                let ghost rr = self.pos as int;
                proof {
                    lemma_skip_ws(b, rr);
                }
                self.skip_ws();
                let ghost iv = item.spec_view();
                items.push(item);
                proof {
                    let after = Group { kind: GroupKind::Sequence, items }.spec_view().items;
                    assert(after =~= before.push(iv));
                    match cm_more(b, self.pos as int, sep) {
                        Ok((its, t)) => {
                            assert(before.drop_first() + (seq![iv] + its) =~= after.drop_first()
                                + its);
                        },
                        Err(_) => {},
                    }
                }
            }
            let ghost done = Group { kind: GroupKind::Sequence, items }.spec_view().items;
            proof {
                lemma_skip_ws(b, self.pos as int);
            }
            self.expect(0x29u8)?;
            let kind = if sep == 0x2cu8 {
                GroupKind::Sequence
            } else {
                GroupKind::Choice
            };
            let g = Group { kind, items };
            proof {
                assert(done.drop_first() + seq![] =~= done.drop_first());
                assert(g.spec_view().items =~= seq![fv] + done.drop_first());
            }
            return Ok(g);
        }
        Err(DtdError::UnexpectedInGroup { found: c })
    }

    /// Parse a content particle: name or nested group, followed by optional quantifier.
    fn parse_cp(&mut self) -> (r: Result<GroupItem, DtdError>)
        requires
            old(self).wf(),
        ensures
            final(self).wf(),
            final(self).same_source(old(self)),
            r is Ok <==> cm_cp(old(self).input@, old(self).pos as int) is Ok,
            r matches Ok(it) ==> cm_cp(old(self).input@, old(self).pos as int) == Ok::<
                (SpecItem, int),
                ErrorView,
            >((it.spec_view(), final(self).pos as int)),
            r matches Err(e) ==> cm_cp(old(self).input@, old(self).pos as int) == Err::<
                (SpecItem, int),
                ErrorView,
            >(e@),
            r is Ok ==> old(self).pos < final(self).pos,
        decreases old(self).input@.len() - old(self).pos, 1int,
    {
        proof {
            lemma_skip_ws(self.input@, self.pos as int);
        }
        self.skip_ws();
        let content = if self.peek() == Some(0x28u8) {
            let group = self.parse_group()?;
            GroupItemContent::Group(group)
        } else {
            let name = self.parse_name()?;
            GroupItemContent::Name(name)
        };
        let quantifier = self.parse_quantifier();
        Ok(GroupItem { content, quantifier })
    }

    fn parse_quantifier(&mut self) -> (q: Quantifier)
        requires
            old(self).wf(),
        ensures
            final(self).wf(),
            final(self).same_source(old(self)),
            (q, final(self).pos as int) == cm_quantifier(old(self).input@, old(self).pos as int),
    {
        match self.peek() {
            Some(0x3fu8) => {
                self.pos += 1;
                Quantifier::Optional
            },
            Some(0x2au8) => {
                self.pos += 1;
                Quantifier::ZeroOrMore
            },
            Some(0x2bu8) => {
                self.pos += 1;
                Quantifier::OneOrMore
            },
            _ => Quantifier::One,
        }
    }

    fn parse_name(&mut self) -> (r: Result<String, DtdError>)
        requires
            old(self).wf(),
        ensures
            final(self).wf(),
            final(self).same_source(old(self)),
            r is Ok <==> cm_name(old(self).input@, old(self).pos as int) is Ok,
            r matches Ok(n) ==> cm_name(old(self).input@, old(self).pos as int) == Ok::<
                (int, int),
                ErrorView,
            >((cm_name(old(self).input@, old(self).pos as int)->Ok_0.0, final(self).pos as int))
                && n@ == text_between(
                old(self).input@,
                cm_name(old(self).input@, old(self).pos as int)->Ok_0.0,
                final(self).pos as int,
            ),
            r matches Err(e) ==> cm_name(old(self).input@, old(self).pos as int) == Err::<
                (int, int),
                ErrorView,
            >(e@),
            r is Ok ==> old(self).pos < final(self).pos,
    {
        let ghost b = self.input@;
        proof {
            lemma_skip_ws(b, self.pos as int);
        }
        self.skip_ws();
        let start = self.pos;
        if self.pos < self.input.len() && self.input[self.pos] == 0x23u8 {
            self.pos += 1;
        }
        proof {
            lemma_name_end(b, self.pos as int);
        }
        while self.pos < self.input.len() && is_name_byte_exec(self.input[self.pos])
            invariant
                self.wf(),
                self.same_source(old(self)),
                self.input@ == b,
                start <= self.pos,
                name_end(b, self.pos as int) == name_end(
                    b,
                    if peek(b, start as int) == Some(0x23u8) {
                        start + 1
                    } else {
                        start as int
                    },
                ),
                forall|i: int| start <= i < self.pos ==> #[trigger] b[i] < 0x80,
            decreases b.len() - self.pos,
        {
            self.pos += 1;
        }
        if self.pos == start {
            return Err(DtdError::ExpectedName { position: self.pos });
        }
        proof {
            lemma_ascii_is_boundary(b, start as int);
            lemma_boundary_after_ascii(b, self.pos - 1);
        }
        let slice = str_slice(self.text, start, self.pos);
        Ok(slice.to_owned())
    }
}

} // verus!
