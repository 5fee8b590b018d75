//! `<!ENTITY name "value">`, `<!ENTITY % name "value">` and external entity
//! declarations, and the expansion of parameter-entity references `%name;`.
use vstd::prelude::*;
use vstd::utf8::*;

use crate::error::{DeclKind, DtdError, ErrorView};
use crate::model::{entities_view, Entity, EntityKind, SpecEntity, SpecEntityKind};
use crate::parser::element::{
    closing_angle, find_closing_angle, find_declaration, find_from, lemma_closing_angle,
    lemma_find_from, lemma_quote_end, quote_end,
};
use crate::text::{
    eq_ignore_case, is_ws, is_ws_exec, lemma_ascii_is_boundary, lemma_boundary_after_ascii,
    lemma_skip_ws, peek, skip_ws, str_eq, str_slice, str_trim, text_between, trim_chars,
};

verus! {

broadcast use vstd::utf8::group_utf8_lib;

// ---------------------------------------------------------------------------
// What an entity declaration means
// ---------------------------------------------------------------------------

/// `<!ENTITY`
pub open spec fn entity_decl() -> Seq<u8> {
    seq![0x3cu8, 0x21u8, 0x45u8, 0x4eu8, 0x54u8, 0x49u8, 0x54u8, 0x59u8]
}

pub open spec fn system_bytes() -> Seq<u8> {
    seq![0x53u8, 0x59u8, 0x53u8, 0x54u8, 0x45u8, 0x4du8]
}

pub open spec fn public_bytes() -> Seq<u8> {
    seq![0x50u8, 0x55u8, 0x42u8, 0x4cu8, 0x49u8, 0x43u8]
}

pub open spec fn is_quote(c: u8) -> bool {
    c == 0x22u8 || c == 0x27u8
}

/// The first position at or after `p` holding ASCII whitespace, or the end.
pub open spec fn ws_end(b: Seq<u8>, p: int) -> int
    decreases b.len() - p,
{
    if 0 <= p < b.len() && !is_ws(b[p]) {
        ws_end(b, p + 1)
    } else {
        p
    }
}

/// A quoted string after optional whitespace, quotes included: its range and
/// the position after it.
pub open spec fn en_quoted_raw(b: Seq<u8>, p: int) -> Result<((int, int), int), ErrorView> {
    let q = skip_ws(b, p);
    if q >= b.len() {
        Err(ErrorView::ExpectedQuotedString)
    } else if !is_quote(b[q]) {
        Err(ErrorView::ExpectedQuoteChar)
    } else {
        let e = quote_end(b, q + 1, b[q]);
        if e >= b.len() {
            Err(ErrorView::UnclosedQuotedString)
        } else {
            Ok(((q, e + 1), e + 1))
        }
    }
}

/// The next token after optional whitespace: a quoted string, a run of
/// non-whitespace, or nothing at the end.
pub open spec fn en_token(b: Seq<u8>, p: int) -> Result<((int, int), int), ErrorView> {
    let q = skip_ws(b, p);
    if q >= b.len() {
        Ok(((q, q), q))
    } else if is_quote(b[q]) {
        en_quoted_raw(b, q)
    } else {
        Ok(((q, ws_end(b, q)), ws_end(b, q)))
    }
}

/// A token without its surrounding quotes, when it is quoted.
pub open spec fn unquote_spec(t: Seq<char>) -> Seq<char> {
    let c = encode_utf8(t);
    if c.len() >= 1 && ((c[0] == 0x22u8 && c.last() == 0x22u8) || (c[0] == 0x27u8 && c.last()
        == 0x27u8)) {
        text_between(c, 1, c.len() - 1)
    } else {
        t
    }
}

/// The entity that a trimmed declaration body declares; `None` when it names nothing.
#[verifier::opaque]
pub open spec fn en_body(b: Seq<u8>) -> Result<Option<SpecEntity>, ErrorView> {
    match en_token(b, 0) {
        Err(e) => Err(e),
        Ok(((s1, e1), p1)) => {
            let is_parameter = text_between(b, s1, e1) == seq!['%'];
            let name_tok = if is_parameter {
                en_token(b, p1)
            } else {
                Ok(((s1, e1), p1))
            };
            match name_tok {
                Err(e) => Err(e),
                Ok(((s2, e2), p2)) => {
                    let name = text_between(b, s2, e2);
                    if name.len() == 0 {
                        Ok(None)
                    } else {
                        match en_token(b, p2) {
                            Err(e) => Err(e),
                            Ok(((s3, e3), p3)) => {
                                let v = text_between(b, s3, e3);
                                let vb = encode_utf8(v);
                                if eq_ignore_case(vb, system_bytes()) {
                                    match en_quoted_raw(b, p3) {
                                        Err(e) => Err(e),
                                        Ok(((s4, e4), _)) => Ok(
                                            Some(
                                                SpecEntity {
                                                    name,
                                                    is_parameter,
                                                    kind: SpecEntityKind::ExternalSystem {
                                                        uri: unquote_spec(text_between(b, s4, e4)),
                                                    },
                                                },
                                            ),
                                        ),
                                    }
                                } else if eq_ignore_case(vb, public_bytes()) {
                                    match en_quoted_raw(b, p3) {
                                        Err(e) => Err(e),
                                        Ok(((s4, e4), p4)) => match en_quoted_raw(b, p4) {
                                            Err(e) => Err(e),
                                            Ok(((s5, e5), _)) => Ok(
                                                Some(
                                                    SpecEntity {
                                                        name,
                                                        is_parameter,
                                                        kind: SpecEntityKind::ExternalPublic {
                                                            public_id: unquote_spec(
                                                                text_between(b, s4, e4),
                                                            ),
                                                            uri: unquote_spec(text_between(b, s5, e5)),
                                                        },
                                                    },
                                                ),
                                            ),
                                        },
                                    }
                                } else if vb.len() > 0 && is_quote(vb[0]) {
                                    Ok(
                                        Some(
                                            SpecEntity {
                                                name,
                                                is_parameter,
                                                kind: SpecEntityKind::Internal {
                                                    value: unquote_spec(v),
                                                },
                                            },
                                        ),
                                    )
                                } else {
                                    Err(ErrorView::UnexpectedEntityValue { value: v })
                                }
                            },
                        }
                    }
                },
            }
        },
    }
}

/// The entity declarations from position `p` on, in order.
pub open spec fn entities_from(b: Seq<u8>, p: int) -> Result<Seq<SpecEntity>, ErrorView>
    decreases b.len() - p,
    when 0 <= p <= b.len()
{
    match find_from(b, p, entity_decl()) {
        None => Ok(seq![]),
        Some(idx) => {
            proof {
                lemma_find_from(b, p, entity_decl());
                lemma_closing_angle(b, idx + 8);
            }
            match closing_angle(b, idx + 8) {
                None => Err(ErrorView::Unclosed { decl: DeclKind::Entity, position: idx }),
                Some(end) => match en_body(encode_utf8(trim_chars(text_between(b, idx + 8, end)))) {
                    Err(e) => Err(e),
                    Ok(found) => match entities_from(b, end + 1) {
                        Err(e) => Err(e),
                        Ok(rest) => match found {
                            Some(ent) => Ok(seq![ent] + rest),
                            None => Ok(rest),
                        },
                    },
                },
            }
        },
    }
}

/// The entity declarations of a DTD, in order.
pub open spec fn entities_of(text: Seq<char>) -> Result<Seq<SpecEntity>, ErrorView> {
    entities_from(encode_utf8(text), 0)
}

// ---------------------------------------------------------------------------
// Parameter-entity expansion
// ---------------------------------------------------------------------------

/// `s` with every occurrence of `pat` replaced by `rep`, left to right.
pub open spec fn replace_all(s: Seq<char>, pat: Seq<char>, rep: Seq<char>) -> Seq<char>
    decreases s.len(),
{
    if s.len() == 0 {
        s
    } else if pat.len() > 0 && pat.len() <= s.len() && s.subrange(0, pat.len() as int) == pat {
        rep + replace_all(s.subrange(pat.len() as int, s.len() as int), pat, rep)
    } else {
        seq![s[0]] + replace_all(s.drop_first(), pat, rep)
    }
}

/// `%name;`
pub open spec fn reference_to(name: Seq<char>) -> Seq<char> {
    seq!['%'] + name + seq![';']
}

/// The text after expanding the internal parameter entities of `ents`, one
/// entity after another.
pub open spec fn expanded(text: Seq<char>, ents: Seq<SpecEntity>) -> Seq<char>
    decreases ents.len(),
{
    if ents.len() == 0 {
        text
    } else {
        let before = expanded(text, ents.drop_last());
        let e = ents.last();
        match e.kind {
            SpecEntityKind::Internal { value } => if e.is_parameter {
                replace_all(before, reference_to(e.name), value)
            } else {
                before
            },
            _ => before,
        }
    }
}

// ---------------------------------------------------------------------------
// The parsers
// ---------------------------------------------------------------------------

/// Parses every `<!ENTITY` declaration of `input`, in order. A declaration
/// that names nothing is skipped.
pub fn parse_entities(input: &str) -> (r: Result<Vec<Entity>, DtdError>)
    ensures
        r is Ok <==> entities_of(input@) is Ok,
        r matches Ok(v) ==> entities_of(input@) == Ok::<Seq<SpecEntity>, ErrorView>(
            entities_view(v@),
        ),
        r matches Err(e) ==> entities_of(input@) == Err::<Seq<SpecEntity>, ErrorView>(e@),
{
    let mut entities: Vec<Entity> = Vec::new();
    let mut pos: usize = 0;
    let bytes = input.as_bytes();
    let ghost b = bytes@;
    let n = bytes.len();
    let decl: [u8; 8] = [0x3cu8, 0x21u8, 0x45u8, 0x4eu8, 0x54u8, 0x49u8, 0x54u8, 0x59u8];
    assert(decl@ =~= entity_decl());
    loop
        invariant
            b == bytes@,
            b == encode_utf8(input@),
            n == b.len(),
            decl@ == entity_decl(),
            pos <= b.len(),
            entities_of(input@) == match entities_from(b, pos as int) {
                Ok(rest) => Ok(entities_view(entities@) + rest),
                Err(e) => Err::<Seq<SpecEntity>, ErrorView>(e),
            },
        decreases b.len() - pos,
    {
        let idx = match find_declaration(bytes, pos, &decl) {
            Some(i) => i,
            None => {
                assert(entities_view(entities@) + seq![] =~= entities_view(entities@));
                return Ok(entities);
            },
        };
        proof {
            lemma_find_from(b, pos as int, entity_decl());
            assert(entity_decl().len() == 8);
            lemma_closing_angle(b, idx + 8);
        }
        let start = idx + 8;
        let end = match find_closing_angle(bytes, start) {
            Some(e) => e,
            None => {
                return Err(DtdError::Unclosed { decl: DeclKind::Entity, position: idx });
            },
        };
        proof {
            assert(b[start - 1] == 0x59u8) by {
                assert(b.subrange(idx as int, idx + 8)[7] == entity_decl()[7]);
            }
            lemma_ascii_is_boundary(b, end as int);
            lemma_boundary_after_ascii(b, start - 1);
        }
        let body = str_trim(str_slice(input, start, end));
        let found = match parse_entity_body(body) {
            Ok(f) => f,
            Err(e) => {
                return Err(e);
            },
        };
        match found {
            Some(entity) => {
                proof {
                    let ev = entities_view(entities@);
                    assert(entities_view(entities@.push(entity)) =~= ev.push(entity@));
                    match entities_from(b, end + 1) {
                        Ok(rest) => {
                            assert(ev + (seq![entity@] + rest) =~= ev.push(entity@) + rest);
                        },
                        Err(_) => {},
                    }
                }
                entities.push(entity);
            },
            None => {},
        }
        pos = end + 1;
    }
}

fn parse_entity_body(body: &str) -> (r: Result<Option<Entity>, DtdError>)
    ensures
        r is Ok <==> en_body(encode_utf8(body@)) is Ok,
        r matches Ok(f) ==> en_body(encode_utf8(body@)) == Ok::<Option<SpecEntity>, ErrorView>(
            match f {
                Some(x) => Some(x@),
                None => None,
            },
        ),
        r matches Err(e) ==> en_body(encode_utf8(body@)) == Err::<Option<SpecEntity>, ErrorView>(
            e@,
        ),
{
    reveal(en_body);
    let mut tokens = EntityTokenizer::new(body);
    let ghost b = tokens.input@;
    let first = tokens.next_token()?;
    proof {
        reveal_strlit("%");
        assert("%"@ =~= seq!['%']);
    }
    let is_parameter = str_eq(first.as_str(), "%");
    let name = if is_parameter {
        tokens.next_token()?
    } else {
        first
    };
    if name.as_str().is_empty() {
        return Ok(None);
    }
    let value_or_keyword = tokens.next_token()?;
    let vb = value_or_keyword.as_str().as_bytes();
    let kind = if eq_ignore_case_bytes(vb, &[0x53u8, 0x59u8, 0x53u8, 0x54u8, 0x45u8, 0x4du8]) {
        let uri = tokens.next_quoted()?;
        EntityKind::ExternalSystem { uri }
    } else if eq_ignore_case_bytes(vb, &[0x50u8, 0x55u8, 0x42u8, 0x4cu8, 0x49u8, 0x43u8]) {
        let public_id = tokens.next_quoted()?;
        let uri = tokens.next_quoted()?;
        EntityKind::ExternalPublic { public_id, uri }
    } else if vb.len() > 0 && (vb[0] == 0x22u8 || vb[0] == 0x27u8) {
        proof {
            assert(vb@ == encode_utf8(value_or_keyword@));
        }
        let value = unquote(value_or_keyword.as_str());
        EntityKind::Internal { value }
    } else {
        return Err(DtdError::UnexpectedEntityValue { value: value_or_keyword });
    };
    Ok(Some(Entity { name, is_parameter, kind }))
}

/// `str::eq_ignore_ascii_case` on bytes.
fn eq_ignore_case_bytes(a: &[u8], b: &[u8]) -> (r: bool)
    ensures
        r == eq_ignore_case(a@, b@),
{
    if a.len() != b.len() {
        return false;
    }
    let mut i: usize = 0;
    while i < a.len()
        invariant
            a@.len() == b@.len(),
            i <= a@.len(),
            forall|j: int|
                0 <= j < i ==> crate::text::ascii_lower(#[trigger] a@[j])
                    == crate::text::ascii_lower(b@[j]),
        decreases a@.len() - i,
    {
        let x = if 0x41u8 <= a[i] && a[i] <= 0x5au8 {
            a[i] + 32
        } else {
            a[i]
        };
        let y = if 0x41u8 <= b[i] && b[i] <= 0x5au8 {
            b[i] + 32
        } else {
            b[i]
        };
        if x != y {
            return false;
        }
        i += 1;
    }
    true
}

/// Strips the quotes around a quoted token; any other token is returned as it is.
fn unquote(s: &str) -> (r: String)
    requires
        !(encode_utf8(s@).len() == 1 && is_quote(encode_utf8(s@)[0])),
    ensures
        r@ == unquote_spec(s@),
{
    let c = s.as_bytes();
    let n = c.len();
    if n >= 1 && ((c[0] == 0x22u8 && c[n - 1] == 0x22u8) || (c[0] == 0x27u8 && c[n - 1] == 0x27u8)) {
        proof {
            lemma_boundary_after_ascii(c@, 0);
            lemma_ascii_is_boundary(c@, n - 1);
        }
        str_slice(s, 1, n - 1).to_owned()
    } else {
        s.to_owned()
    }
}

struct EntityTokenizer<'a> {
    text: &'a str,
    input: &'a [u8],
    pos: usize,
}

impl<'a> EntityTokenizer<'a> {
    spec fn wf(&self) -> bool {
        &&& self.input@ == encode_utf8(self.text@)
        &&& self.pos <= self.input@.len()
        &&& self.input@.len() <= usize::MAX
        &&& is_char_boundary(self.input@, self.pos as int)
    }

    spec fn same_source(&self, other: &Self) -> bool {
        self.input == other.input && self.text == other.text
    }

    fn new(input: &'a str) -> (r: Self)
        ensures
            r.wf(),
            r.text == input,
            r.input@ == encode_utf8(input@),
            r.pos == 0,
    {
        let bytes = input.as_bytes();
        // A slice's length is a `usize`; reading it bounds the positions below.
        let _ = bytes.len();
        Self { text: input, input: bytes, pos: 0 }
    }

    fn skip_ws(&mut self)
        requires
            old(self).wf(),
        ensures
            final(self).wf(),
            final(self).same_source(old(self)),
            final(self).pos == skip_ws(old(self).input@, old(self).pos as int),
    {
        proof {
            lemma_skip_ws(self.input@, self.pos as int);
        }
        while self.pos < self.input.len() && is_ws_exec(self.input[self.pos])
            invariant
                self.wf(),
                self.same_source(old(self)),
                skip_ws(self.input@, self.pos as int) == skip_ws(
                    old(self).input@,
                    old(self).pos as int,
                ),
            decreases self.input@.len() - self.pos,
        {
            proof {
                lemma_boundary_after_ascii(self.input@, self.pos as int);
            }
            self.pos += 1;
        }
    }

    fn next_token(&mut self) -> (r: Result<String, DtdError>)
        requires
            old(self).wf(),
        ensures
            final(self).wf(),
            final(self).same_source(old(self)),
            r is Ok <==> en_token(old(self).input@, old(self).pos as int) is Ok,
            r matches Ok(t) ==> en_token(old(self).input@, old(self).pos as int) matches Ok(
                ((s, e), p),
            ) && t@ == text_between(old(self).input@, s, e) && p == final(self).pos
                && encode_utf8(t@) == old(self).input@.subrange(s, e) && !(e - s == 1 && is_quote(
                old(self).input@[s],
            )) && 0 <= s <= e <= old(self).input@.len(),
            r matches Err(e) ==> en_token(old(self).input@, old(self).pos as int) == Err::<
                ((int, int), int),
                ErrorView,
            >(e@),
    {
        let ghost b = self.input@;
        proof {
            lemma_skip_ws(b, self.pos as int);
        }
        self.skip_ws();
        if self.pos >= self.input.len() {
            let r = String::new();
            assert(b.subrange(self.pos as int, self.pos as int) =~= seq![]);
            return Ok(r);
        }
        if self.input[self.pos] == 0x22u8 || self.input[self.pos] == 0x27u8 {
            return self.next_quoted_raw();
        }
        let start = self.pos;
        while self.pos < self.input.len() && !is_ws_exec(self.input[self.pos])
            invariant
                self.input@ == b,
                self.text == old(self).text,
                self.input == old(self).input,
                b == encode_utf8(self.text@),
                b.len() <= usize::MAX,
                start <= self.pos <= b.len(),
                is_char_boundary(b, start as int),
                ws_end(b, self.pos as int) == ws_end(b, start as int),
            decreases b.len() - self.pos,
        {
            self.pos += 1;
        }
        proof {
            if self.pos < b.len() {
                lemma_ascii_is_boundary(b, self.pos as int);
            } else {
                is_char_boundary_start_end_of_seq(b);
            }
        }
        Ok(str_slice(self.text, start, self.pos).to_owned())
    }

    fn next_quoted(&mut self) -> (r: Result<String, DtdError>)
        requires
            old(self).wf(),
        ensures
            final(self).wf(),
            final(self).same_source(old(self)),
            r is Ok <==> en_quoted_raw(old(self).input@, old(self).pos as int) is Ok,
            r matches Ok(t) ==> en_quoted_raw(old(self).input@, old(self).pos as int) matches Ok(
                ((s, e), p),
            ) && t@ == unquote_spec(text_between(old(self).input@, s, e)) && p == final(self).pos,
            r matches Err(e) ==> en_quoted_raw(old(self).input@, old(self).pos as int) == Err::<
                ((int, int), int),
                ErrorView,
            >(e@),
    {
        let ghost b = self.input@;
        let ghost p0 = self.pos as int;
        let raw = self.next_quoted_raw()?;
        proof {
            let (range, _) = en_quoted_raw(b, p0)->Ok_0;
            assert(encode_utf8(raw@).len() == range.1 - range.0);
        }
        Ok(unquote(raw.as_str()))
    }

    fn next_quoted_raw(&mut self) -> (r: Result<String, DtdError>)
        requires
            old(self).wf(),
        ensures
            final(self).wf(),
            final(self).same_source(old(self)),
            r is Ok <==> en_quoted_raw(old(self).input@, old(self).pos as int) is Ok,
            r matches Ok(t) ==> en_quoted_raw(old(self).input@, old(self).pos as int) matches Ok(
                ((s, e), p),
            ) && t@ == text_between(old(self).input@, s, e) && p == final(self).pos && e - s
                >= 2 && is_quote(old(self).input@[s]) && old(self).input@[e - 1] == old(
                self,
            ).input@[s] && encode_utf8(t@) == old(self).input@.subrange(s, e) && 0 <= s && e
                <= old(self).input@.len(),
            r matches Err(e) ==> en_quoted_raw(old(self).input@, old(self).pos as int) == Err::<
                ((int, int), int),
                ErrorView,
            >(e@),
    {
        let ghost b = self.input@;
        proof {
            lemma_skip_ws(b, self.pos as int);
        }
        self.skip_ws();
        if self.pos >= self.input.len() {
            return Err(DtdError::ExpectedQuotedString);
        }
        let quote = self.input[self.pos];
        if quote != 0x22u8 && quote != 0x27u8 {
            return Err(DtdError::ExpectedQuoteChar);
        }
        let start = self.pos;
        proof {
            lemma_quote_end(b, start + 1, quote);
        }
        let mut i = start + 1;
        while i < self.input.len() && self.input[i] != quote
            invariant
                self.wf(),
                self.input@ == b,
                start + 1 <= i <= b.len(),
                quote_end(b, i as int, quote) == quote_end(b, start + 1, quote),
            decreases b.len() - i,
        {
            i += 1;
        }
        if i >= self.input.len() {
            return Err(DtdError::UnclosedQuotedString);
        }
        proof {
            lemma_boundary_after_ascii(b, i as int);
        }
        self.pos = i + 1;
        Ok(str_slice(self.text, start, self.pos).to_owned())
    }
}

// ---------------------------------------------------------------------------
// Expansion
// ---------------------------------------------------------------------------

/// Expands parameter-entity references `%name;` in DTD text: for each
/// internal parameter entity in turn, every reference to it in the text is
/// replaced by its value.
pub fn expand_parameter_entities(input: &str, entities: &[Entity]) -> (r: String)
    ensures
        r@ == expanded(input@, entities_view(entities@)),
{
    let mut result = crate::text::chars_of(input);
    let mut k: usize = 0;
    while k < entities.len()
        invariant
            k <= entities@.len(),
            result@ == expanded(input@, entities_view(entities@.subrange(0, k as int))),
        decreases entities@.len() - k,
    {
        let entity = &entities[k];
        proof {
            let ev = entities_view(entities@.subrange(0, k + 1));
            assert(ev.drop_last() =~= entities_view(entities@.subrange(0, k as int)));
            assert(ev.last() == entity@);
        }
        if entity.is_parameter {
            match &entity.kind {
                EntityKind::Internal { value } => {
                    let mut pattern: Vec<char> = Vec::new();
                    pattern.push('%');
                    let name_chars = crate::text::chars_of(entity.name.as_str());
                    let mut j: usize = 0;
                    while j < name_chars.len()
                        invariant
                            j <= name_chars@.len(),
                            pattern@ == seq!['%'] + name_chars@.subrange(0, j as int),
                        decreases name_chars@.len() - j,
                    {
                        pattern.push(name_chars[j]);
                        j += 1;
                        assert(pattern@ =~= seq!['%'] + name_chars@.subrange(0, j as int));
                    }
                    pattern.push(';');
                    assert(pattern@ =~= reference_to(entity.name@));
                    let value_chars = crate::text::chars_of(value.as_str());
                    result = replace_chars(&result, &pattern, &value_chars);
                },
                _ => {},
            }
        }
        k += 1;
    }
    assert(entities@.subrange(0, entities@.len() as int) =~= entities@);
    crate::text::string_of(&result)
}

/// Replaces every occurrence of `pat` in `s` by `rep`, left to right.
fn replace_chars(s: &Vec<char>, pat: &Vec<char>, rep: &Vec<char>) -> (r: Vec<char>)
    requires
        pat@.len() > 0,
    ensures
        r@ == replace_all(s@, pat@, rep@),
{
    let n = s.len();
    let m = pat.len();
    let mut out: Vec<char> = Vec::new();
    let mut i: usize = 0;
    assert(s@.subrange(0, n as int) =~= s@);
    assert(out@ =~= seq![]);
    while i < n
        invariant
            n == s@.len(),
            m == pat@.len(),
            m > 0,
            i <= n,
            out@ + replace_all(s@.subrange(i as int, n as int), pat@, rep@) == replace_all(
                s@,
                pat@,
                rep@,
            ),
        decreases n - i,
    {
        let ghost rest = s@.subrange(i as int, n as int);
        let mut matched = m <= n - i;
        let mut j: usize = 0;
        while matched && j < m
            invariant
                n == s@.len(),
                m == pat@.len(),
                i <= n,
                j <= m,
                matched ==> i + m <= n,
                matched ==> forall|k: int| 0 <= k < j ==> s@[i + k] == pat@[k],
                !matched ==> !(m <= n - i && s@.subrange(i as int, i + m) == pat@),
            decreases m - j,
        {
            if s[i + j] != pat[j] {
                matched = false;
                assert(s@.subrange(i as int, i + m)[j as int] != pat@[j as int]);
            }
            j += 1;
        }
        if matched {
            assert(s@.subrange(i as int, i + m) =~= pat@);
            assert(rest.subrange(0, m as int) =~= pat@);
            assert(rest.subrange(m as int, rest.len() as int) =~= s@.subrange(i + m, n as int));
            assert(replace_all(rest, pat@, rep@) == rep@ + replace_all(
                s@.subrange(i + m, n as int),
                pat@,
                rep@,
            ));
            let ghost before = out@;
            let mut t: usize = 0;
            while t < rep.len()
                invariant
                    t <= rep@.len(),
                    out@ == before + rep@.subrange(0, t as int),
                decreases rep@.len() - t,
            {
                out.push(rep[t]);
                t += 1;
                assert(out@ =~= before + rep@.subrange(0, t as int));
            }
            assert(rep@.subrange(0, rep@.len() as int) =~= rep@);
            assert(before + (rep@ + replace_all(s@.subrange(i + m, n as int), pat@, rep@)) =~= out@
                + replace_all(s@.subrange(i + m, n as int), pat@, rep@));
            i += m;
        } else {
            assert(rest.drop_first() =~= s@.subrange(i + 1, n as int));
            assert(rest[0] == s@[i as int]);
            assert(!(m <= rest.len() && rest.subrange(0, m as int) == pat@)) by {
                if m <= rest.len() {
                    assert(rest.subrange(0, m as int) =~= s@.subrange(i as int, i + m));
                }
            }
            assert(replace_all(rest, pat@, rep@) == seq![s@[i as int]] + replace_all(
                s@.subrange(i + 1, n as int),
                pat@,
                rep@,
            ));
            let ghost before = out@;
            out.push(s[i]);
            assert(before + (seq![s@[i as int]] + replace_all(s@.subrange(i + 1, n as int), pat@, rep@))
                =~= out@ + replace_all(s@.subrange(i + 1, n as int), pat@, rep@));
            i += 1;
        }
    }
    assert(s@.subrange(n as int, n as int) =~= seq![]);
    assert(out@ + seq![] =~= out@);
    out
}

} // verus!
