//! `<!ATTLIST element name type default ...>` declarations.
use vstd::prelude::*;
use vstd::utf8::*;

use crate::error::{DeclKind, DtdError, ErrorView};
use crate::model::{
    attributes_view, strings_view, AttrDefault, AttrType, Attribute, SpecAttrDefault,
    SpecAttrType, SpecAttribute,
};
use crate::parser::element::{
    closing_angle, find_closing_angle, find_declaration, find_from, lemma_closing_angle,
    lemma_find_from, lemma_quote_end, quote_end,
};
use crate::text::{
    ascii_upper_char, is_name_byte_exec, is_ws_exec, lemma_ascii_is_boundary,
    lemma_boundary_after_ascii, lemma_decode_ascii, lemma_name_end, lemma_skip_ws, name_end, peek,
    skip_ws, str_eq, str_slice, str_to_uppercase, str_trim, str_trim_start, text_between,
    trim_chars, trim_start_chars,
};

verus! {

broadcast use vstd::utf8::group_utf8_lib;

// ---------------------------------------------------------------------------
// What an attribute list means
// ---------------------------------------------------------------------------

/// `<!ATTLIST`
pub open spec fn attlist_decl() -> Seq<u8> {
    seq![0x3cu8, 0x21u8, 0x41u8, 0x54u8, 0x54u8, 0x4cu8, 0x49u8, 0x53u8, 0x54u8]
}

/// A keyword in capitals.
pub open spec fn upper(s: Seq<char>) -> Seq<char> {
    s.map_values(|c: char| ascii_upper_char(c))
}

/// The attribute type a capitalised keyword names.
pub open spec fn attr_type_keyword(kw: Seq<char>) -> Option<SpecAttrType> {
    if kw == seq!['C', 'D', 'A', 'T', 'A'] {
        Some(SpecAttrType::Cdata)
    } else if kw == seq!['I', 'D'] {
        Some(SpecAttrType::Id)
    } else if kw == seq!['I', 'D', 'R', 'E', 'F'] {
        Some(SpecAttrType::Idref)
    } else if kw == seq!['I', 'D', 'R', 'E', 'F', 'S'] {
        Some(SpecAttrType::Idrefs)
    } else if kw == seq!['N', 'M', 'T', 'O', 'K', 'E', 'N'] {
        Some(SpecAttrType::Nmtoken)
    } else if kw == seq!['N', 'M', 'T', 'O', 'K', 'E', 'N', 'S'] {
        Some(SpecAttrType::Nmtokens)
    } else {
        None
    }
}

/// Is there anything but whitespace from `p` on?
pub open spec fn at_has_more(b: Seq<u8>, p: int) -> bool {
    p < b.len() && trim_start_chars(text_between(b, p, b.len() as int)).len() > 0
}

/// A name after optional whitespace: its start and end.
pub open spec fn at_name(b: Seq<u8>, p: int) -> Result<(int, int), ErrorView> {
    let q = skip_ws(b, p);
    let e = name_end(b, q);
    if e == q {
        Err(ErrorView::ExpectedAttName { position: e })
    } else {
        Ok((q, e))
    }
}

/// A quoted string after optional whitespace: its text and the position after it.
pub open spec fn at_quoted(b: Seq<u8>, p: int) -> Result<(Seq<char>, int), ErrorView> {
    let q = skip_ws(b, p);
    if q >= b.len() {
        Err(ErrorView::ExpectedQuotedString)
    } else if b[q] != 0x22u8 && b[q] != 0x27u8 {
        Err(ErrorView::ExpectedQuote)
    } else {
        let e = quote_end(b, q + 1, b[q]);
        if e >= b.len() {
            Err(ErrorView::UnclosedQuote)
        } else {
            Ok((text_between(b, q + 1, e), e + 1))
        }
    }
}

/// The values of an enumeration after its `(`, and the position after its `)`.
pub open spec fn at_enum(b: Seq<u8>, p: int) -> Result<(Seq<Seq<char>>, int), ErrorView>
    decreases b.len() - p,
    when 0 <= p <= b.len()
{
    proof {
        lemma_skip_ws(b, p);
        lemma_skip_ws(b, skip_ws(b, p));
        lemma_name_end(b, skip_ws(b, p));
    }
    match at_name(b, skip_ws(b, p)) {
        Err(e) => Err(e),
        Ok((s, e)) => {
            proof {
                lemma_skip_ws(b, e);
            }
            let r = skip_ws(b, e);
            if peek(b, r) == Some(0x7cu8) {
                match at_enum(b, r + 1) {
                    Err(err) => Err(err),
                    Ok((vs, t)) => Ok((seq![text_between(b, s, e)] + vs, t)),
                }
            } else if peek(b, r) == Some(0x29u8) {
                Ok((seq![text_between(b, s, e)], r + 1))
            } else {
                Err(ErrorView::BadEnumeration)
            }
        },
    }
}

/// An attribute type: an enumeration or a keyword.
pub open spec fn at_type(b: Seq<u8>, p: int) -> Result<(SpecAttrType, int), ErrorView> {
    let q = skip_ws(b, p);
    if peek(b, q) == Some(0x28u8) {
        match at_enum(b, q + 1) {
            Err(e) => Err(e),
            Ok((vs, t)) => Ok((SpecAttrType::Enumeration(vs), t)),
        }
    } else {
        match at_name(b, q) {
            Err(e) => Err(e),
            Ok((s, e)) => match attr_type_keyword(upper(text_between(b, s, e))) {
                Some(t) => Ok((t, e)),
                None => Err(ErrorView::UnknownAttrType { keyword: upper(text_between(b, s, e)) }),
            },
        }
    }
}

/// A default declaration: `#REQUIRED`, `#IMPLIED`, `#FIXED "v"` or `"v"`.
pub open spec fn at_default(b: Seq<u8>, p: int) -> Result<(SpecAttrDefault, int), ErrorView> {
    let q = skip_ws(b, p);
    if peek(b, q) == Some(0x23u8) {
        match at_name(b, q + 1) {
            Err(e) => Err(e),
            Ok((s, e)) => {
                let kw = upper(text_between(b, s, e));
                if kw == seq!['R', 'E', 'Q', 'U', 'I', 'R', 'E', 'D'] {
                    Ok((SpecAttrDefault::Required, e))
                } else if kw == seq!['I', 'M', 'P', 'L', 'I', 'E', 'D'] {
                    Ok((SpecAttrDefault::Implied, e))
                } else if kw == seq!['F', 'I', 'X', 'E', 'D'] {
                    match at_quoted(b, e) {
                        Err(err) => Err(err),
                        Ok((v, t)) => Ok((SpecAttrDefault::Fixed(v), t)),
                    }
                } else {
                    Err(ErrorView::UnknownDefault { keyword: kw })
                }
            },
        }
    } else if peek(b, q) == Some(0x22u8) || peek(b, q) == Some(0x27u8) {
        match at_quoted(b, q) {
            Err(err) => Err(err),
            Ok((v, t)) => Ok((SpecAttrDefault::Default(v), t)),
        }
    } else {
        Err(ErrorView::ExpectedDefault { position: q })
    }
}

/// One attribute definition, or `None` when only whitespace is left.
pub open spec fn at_attribute(b: Seq<u8>, p: int) -> Result<(Option<SpecAttribute>, int), ErrorView> {
    let q = skip_ws(b, p);
    if !at_has_more(b, q) {
        Ok((None, q))
    } else {
        match at_name(b, q) {
            Err(e) => Err(e),
            Ok((s, e)) => match at_type(b, e) {
                Err(err) => Err(err),
                Ok((ty, r)) => match at_default(b, r) {
                    Err(err) => Err(err),
                    Ok((d, t)) => Ok(
                        (
                            Some(
                                SpecAttribute {
                                    name: text_between(b, s, e),
                                    attr_type: ty,
                                    default: d,
                                },
                            ),
                            t,
                        ),
                    ),
                },
            },
        }
    }
}

/// The attribute definitions from `p` on.
pub open spec fn at_attrs(b: Seq<u8>, p: int) -> Result<Seq<SpecAttribute>, ErrorView>
    decreases b.len() - p,
    when 0 <= p <= b.len()
{
    if !at_has_more(b, p) {
        Ok(seq![])
    } else {
        match at_attribute(b, p) {
            Err(e) => Err(e),
            Ok((None, _)) => Ok(seq![]),
            Ok((Some(a), r)) => {
                // a definition is never empty, so this guard always holds
                if !(p < r <= b.len()) {
                    Ok(seq![])
                } else {
                    match at_attrs(b, r) {
                        Err(e) => Err(e),
                        Ok(rest) => Ok(seq![a] + rest),
                    }
                }
            },
        }
    }
}

/// The element name and attribute definitions of a trimmed declaration body.
pub open spec fn at_body(b: Seq<u8>) -> Result<(Seq<char>, Seq<SpecAttribute>), ErrorView> {
    match at_name(b, 0) {
        Err(e) => Err(e),
        Ok((s, e)) => match at_attrs(b, e) {
            Err(err) => Err(err),
            Ok(attrs) => Ok((text_between(b, s, e), attrs)),
        },
    }
}

/// The attribute lists from position `p` on, in order.
pub open spec fn attlists_from(b: Seq<u8>, p: int) -> Result<
    Seq<(Seq<char>, Seq<SpecAttribute>)>,
    ErrorView,
>
    decreases b.len() - p,
    when 0 <= p <= b.len()
{
    match find_from(b, p, attlist_decl()) {
        None => Ok(seq![]),
        Some(idx) => {
            proof {
                lemma_find_from(b, p, attlist_decl());
                lemma_closing_angle(b, idx + 9);
            }
            match closing_angle(b, idx + 9) {
                None => Err(ErrorView::Unclosed { decl: DeclKind::Attlist, position: idx }),
                Some(end) => match at_body(encode_utf8(trim_chars(text_between(b, idx + 9, end)))) {
                    Err(e) => Err(e),
                    Ok(decl) => match attlists_from(b, end + 1) {
                        Err(e) => Err(e),
                        Ok(rest) => Ok(seq![decl] + rest),
                    },
                },
            }
        },
    }
}

/// The attribute lists of a DTD, in order.
pub open spec fn attlists_of(text: Seq<char>) -> Result<
    Seq<(Seq<char>, Seq<SpecAttribute>)>,
    ErrorView,
> {
    attlists_from(encode_utf8(text), 0)
}

pub open spec fn attlist_view(a: (String, Vec<Attribute>)) -> (Seq<char>, Seq<SpecAttribute>) {
    (a.0@, attributes_view(a.1@))
}

pub open spec fn attlists_view(v: Seq<(String, Vec<Attribute>)>) -> Seq<
    (Seq<char>, Seq<SpecAttribute>),
> {
    Seq::new(v.len(), |i: int| attlist_view(v[i]))
}

// ---------------------------------------------------------------------------
// The parser
// ---------------------------------------------------------------------------

/// Returns, for every `<!ATTLIST` declaration in order, the element name and
/// its attribute definitions.
pub fn parse_attlists(input: &str) -> (r: Result<Vec<(String, Vec<Attribute>)>, DtdError>)
    ensures
        r is Ok <==> attlists_of(input@) is Ok,
        r matches Ok(v) ==> attlists_of(input@) == Ok::<
            Seq<(Seq<char>, Seq<SpecAttribute>)>,
            ErrorView,
        >(attlists_view(v@)),
        r matches Err(e) ==> attlists_of(input@) == Err::<
            Seq<(Seq<char>, Seq<SpecAttribute>)>,
            ErrorView,
        >(e@),
{
    let mut result: Vec<(String, Vec<Attribute>)> = Vec::new();
    let mut pos: usize = 0;
    let bytes = input.as_bytes();
    let ghost b = bytes@;
    let n = bytes.len();
    let decl: [u8; 9] = [0x3cu8, 0x21u8, 0x41u8, 0x54u8, 0x54u8, 0x4cu8, 0x49u8, 0x53u8, 0x54u8];
    assert(decl@ =~= attlist_decl());
    loop
        invariant
            b == bytes@,
            b == encode_utf8(input@),
            n == b.len(),
            decl@ == attlist_decl(),
            pos <= b.len(),
            attlists_of(input@) == match attlists_from(b, pos as int) {
                Ok(rest) => Ok(attlists_view(result@) + rest),
                Err(e) => Err::<Seq<(Seq<char>, Seq<SpecAttribute>)>, ErrorView>(e),
            },
        decreases b.len() - pos,
    {
        let idx = match find_declaration(bytes, pos, &decl) {
            Some(i) => i,
            None => {
                assert(attlists_view(result@) + seq![] =~= attlists_view(result@));
                return Ok(result);
            },
        };
        proof {
            lemma_find_from(b, pos as int, attlist_decl());
            assert(attlist_decl().len() == 9);
            lemma_closing_angle(b, idx + 9);
        }
        let start = idx + 9;
        let end = match find_closing_angle(bytes, start) {
            Some(e) => e,
            None => {
                return Err(DtdError::Unclosed { decl: DeclKind::Attlist, position: idx });
            },
        };
        proof {
            assert(b[start - 1] == 0x54u8) by {
                assert(b.subrange(idx as int, idx + 9)[8] == attlist_decl()[8]);
            }
            lemma_ascii_is_boundary(b, end as int);
            lemma_boundary_after_ascii(b, start - 1);
        }
        let body = str_trim(str_slice(input, start, end));
        let decl_pair = match parse_attlist_body(body) {
            Ok(d) => d,
            Err(e) => {
                return Err(e);
            },
        };
        proof {
            let rv = attlists_view(result@);
            let dv = attlist_view(decl_pair);
            assert(attlists_view(result@.push(decl_pair)) =~= rv.push(dv));
            match attlists_from(b, end + 1) {
                Ok(rest) => {
                    assert(rv + (seq![dv] + rest) =~= rv.push(dv) + rest);
                },
                Err(_) => {},
            }
        }
        result.push(decl_pair);
        pos = end + 1;
    }
}

fn parse_attlist_body(body: &str) -> (r: Result<(String, Vec<Attribute>), DtdError>)
    ensures
        r is Ok <==> at_body(encode_utf8(body@)) is Ok,
        r matches Ok(d) ==> at_body(encode_utf8(body@)) == Ok::<
            (Seq<char>, Seq<SpecAttribute>),
            ErrorView,
        >(attlist_view(d)),
        r matches Err(e) ==> at_body(encode_utf8(body@)) == Err::<
            (Seq<char>, Seq<SpecAttribute>),
            ErrorView,
        >(e@),
{
    let mut p = AttParser::new(body);
    let ghost b = p.input@;
    let elem_name = p.read_name()?;
    let ghost e0 = p.pos as int;
    let mut attrs: Vec<Attribute> = Vec::new();
    proof {
        lemma_skip_ws(b, 0);
        lemma_name_end(b, skip_ws(b, 0));
        assert(attributes_view(attrs@) =~= seq![]);
    }
    loop
        invariant
            p.wf(),
            p.input@ == b,
            b == encode_utf8(body@),
            e0 <= p.pos,
            at_body(b) == match at_attrs(b, e0) {
                Err(err) => Err(err),
                Ok(v) => Ok::<(Seq<char>, Seq<SpecAttribute>), ErrorView>((elem_name@, v)),
            },
            at_attrs(b, e0) == match at_attrs(b, p.pos as int) {
                Ok(rest) => Ok(attributes_view(attrs@) + rest),
                Err(e) => Err::<Seq<SpecAttribute>, ErrorView>(e),
            },
        decreases b.len() - p.pos,
    {
        if !p.has_more() {
            assert(attributes_view(attrs@) + seq![] =~= attributes_view(attrs@));
            return Ok((elem_name, attrs));
        }
        match p.read_attribute() {
            Err(e) => {
                return Err(e);
            },
            Ok(Some(attr)) => {
                proof {
                    let av = attributes_view(attrs@);
                    assert(attributes_view(attrs@.push(attr)) =~= av.push(attr@));
                    match at_attrs(b, p.pos as int) {
                        Ok(rest) => {
                            assert(av + (seq![attr@] + rest) =~= av.push(attr@) + rest);
                        },
                        Err(_) => {},
                    }
                }
                attrs.push(attr);
            },
            Ok(None) => {
                assert(attributes_view(attrs@) + seq![] =~= attributes_view(attrs@));
                return Ok((elem_name, attrs));
            },
        }
    }
}

struct AttParser<'a> {
    text: &'a str,
    input: &'a [u8],
    pos: usize,
}

impl<'a> AttParser<'a> {
    spec fn wf(&self) -> bool {
        &&& self.input@ == encode_utf8(self.text@)
        &&& self.pos <= self.input@.len()
        &&& self.input@.len() <= usize::MAX
        &&& is_char_boundary(self.input@, self.pos as int)
    }

    spec fn same_source(&self, other: &Self) -> bool {
        self.input == other.input && self.text == other.text
    }

    fn new(input: &'a str) -> (r: Self)
        ensures
            r.wf(),
            r.text == input,
            r.pos == 0,
    {
        let bytes = input.as_bytes();
        // A slice's length is a `usize`; reading it bounds the positions below.
        let _ = bytes.len();
        Self { text: input, input: bytes, pos: 0 }
    }

    fn skip_ws(&mut self)
        requires
            old(self).wf(),
        ensures
            final(self).wf(),
            final(self).same_source(old(self)),
            final(self).pos == skip_ws(old(self).input@, old(self).pos as int),
    {
        proof {
            lemma_skip_ws(self.input@, self.pos as int);
        }
        while self.pos < self.input.len() && is_ws_exec(self.input[self.pos])
            invariant
                self.wf(),
                self.same_source(old(self)),
                skip_ws(self.input@, self.pos as int) == skip_ws(
                    old(self).input@,
                    old(self).pos as int,
                ),
            decreases self.input@.len() - self.pos,
        {
            proof {
                lemma_boundary_after_ascii(self.input@, self.pos as int);
            }
            self.pos += 1;
        }
    }

    fn has_more(&self) -> (r: bool)
        requires
            self.wf(),
        ensures
            r == at_has_more(self.input@, self.pos as int),
    {
        if self.pos >= self.input.len() {
            return false;
        }
        proof {
            is_char_boundary_start_end_of_seq(self.input@);
        }
        let rest = str_slice(self.text, self.pos, self.input.len());
        !str_trim_start(rest).is_empty()
    }

    fn read_name(&mut self) -> (r: Result<String, DtdError>)
        requires
            old(self).wf(),
        ensures
            final(self).wf(),
            final(self).same_source(old(self)),
            r is Ok <==> at_name(old(self).input@, old(self).pos as int) is Ok,
            r matches Ok(n) ==> at_name(old(self).input@, old(self).pos as int) == Ok::<
                (int, int),
                ErrorView,
            >((at_name(old(self).input@, old(self).pos as int)->Ok_0.0, final(self).pos as int))
                && n@ == text_between(
                old(self).input@,
                at_name(old(self).input@, old(self).pos as int)->Ok_0.0,
                final(self).pos as int,
            ),
            r matches Err(e) ==> at_name(old(self).input@, old(self).pos as int) == Err::<
                (int, int),
                ErrorView,
            >(e@),
            r is Ok ==> old(self).pos < final(self).pos,
    {
        let ghost b = self.input@;
        proof {
            lemma_skip_ws(b, self.pos as int);
        }
        self.skip_ws();
        let start = self.pos;
        proof {
            lemma_name_end(b, self.pos as int);
        }
        while self.pos < self.input.len() && is_name_byte_exec(self.input[self.pos])
            invariant
                self.wf(),
                self.same_source(old(self)),
                self.input@ == b,
                start <= self.pos,
                name_end(b, self.pos as int) == name_end(b, start as int),
                forall|i: int| start <= i < self.pos ==> #[trigger] b[i] < 0x80,
            decreases b.len() - self.pos,
        {
            proof {
                lemma_boundary_after_ascii(b, self.pos as int);
            }
            self.pos += 1;
        }
        if self.pos == start {
            return Err(DtdError::ExpectedAttName { position: self.pos });
        }
        let slice = str_slice(self.text, start, self.pos);
        Ok(slice.to_owned())
    }

    /// The name just read, in capitals, when it is made of name bytes.
    fn upper_keyword(&self, name: &String, start: Ghost<int>) -> (r: String)
        requires
            self.wf(),
            0 <= start@ < self.pos,
            forall|i: int| start@ <= i < self.pos ==> #[trigger] self.input@[i] < 0x80,
            name@ == text_between(self.input@, start@, self.pos as int),
        ensures
            r@ == upper(name@),
    {
        proof {
            let sub = self.input@.subrange(start@, self.pos as int);
            assert forall|i: int| 0 <= i < sub.len() implies #[trigger] sub[i] < 0x80 by {
                assert(sub[i] == self.input@[start@ + i]);
            }
            lemma_decode_ascii(sub);
            assert forall|i: int| 0 <= i < name@.len() implies (#[trigger] name@[i] as u32) < 0x80 by {
                assert(name@[i] == (sub[i] as char));
            }
        }
        str_to_uppercase(name.as_str())
    }

    fn read_attribute(&mut self) -> (r: Result<Option<Attribute>, DtdError>)
        requires
            old(self).wf(),
        ensures
            final(self).wf(),
            final(self).same_source(old(self)),
            r is Ok <==> at_attribute(old(self).input@, old(self).pos as int) is Ok,
            r matches Ok(a) ==> at_attribute(old(self).input@, old(self).pos as int) == Ok::<
                (Option<SpecAttribute>, int),
                ErrorView,
            >(
                (
                    match a {
                        Some(x) => Some(x@),
                        None => None,
                    },
                    final(self).pos as int,
                ),
            ),
            r matches Err(e) ==> at_attribute(old(self).input@, old(self).pos as int) == Err::<
                (Option<SpecAttribute>, int),
                ErrorView,
            >(e@),
            r matches Ok(Some(_)) ==> old(self).pos < final(self).pos,
    {
        let ghost p0 = self.pos as int;
        proof {
            lemma_skip_ws(self.input@, p0);
        }
        self.skip_ws();
        if !self.has_more() {
            return Ok(None);
        }
        let name = self.read_name()?;
        let attr_type = self.read_attr_type()?;
        let default = self.read_attr_default()?;
        Ok(Some(Attribute { name, attr_type, default }))
    }

    fn read_attr_type(&mut self) -> (r: Result<AttrType, DtdError>)
        requires
            old(self).wf(),
        ensures
            final(self).wf(),
            final(self).same_source(old(self)),
            r is Ok <==> at_type(old(self).input@, old(self).pos as int) is Ok,
            r matches Ok(t) ==> at_type(old(self).input@, old(self).pos as int) == Ok::<
                (SpecAttrType, int),
                ErrorView,
            >((t@, final(self).pos as int)),
            r matches Err(e) ==> at_type(old(self).input@, old(self).pos as int) == Err::<
                (SpecAttrType, int),
                ErrorView,
            >(e@),
            r is Ok ==> old(self).pos <= final(self).pos,
    {
        let ghost b = self.input@;
        proof {
            lemma_skip_ws(b, self.pos as int);
        }
        self.skip_ws();
        if self.pos < self.input.len() && self.input[self.pos] == 0x28u8 {
            return self.read_enumeration();
        }
        let ghost q = self.pos as int;
        proof {
            lemma_skip_ws(b, q);
            lemma_name_end(b, q);
        }
        let keyword = self.read_name()?;
        let up = self.upper_keyword(&keyword, Ghost(q));
        let s = up.as_str();
        proof {
            reveal_strlit("CDATA");
            reveal_strlit("ID");
            reveal_strlit("IDREF");
            reveal_strlit("IDREFS");
            reveal_strlit("NMTOKEN");
            reveal_strlit("NMTOKENS");
            assert("CDATA"@ =~= seq!['C', 'D', 'A', 'T', 'A']);
            assert("ID"@ =~= seq!['I', 'D']);
            assert("IDREF"@ =~= seq!['I', 'D', 'R', 'E', 'F']);
            assert("IDREFS"@ =~= seq!['I', 'D', 'R', 'E', 'F', 'S']);
            assert("NMTOKEN"@ =~= seq!['N', 'M', 'T', 'O', 'K', 'E', 'N']);
            assert("NMTOKENS"@ =~= seq!['N', 'M', 'T', 'O', 'K', 'E', 'N', 'S']);
        }
        if str_eq(s, "CDATA") {
            Ok(AttrType::Cdata)
        } else if str_eq(s, "ID") {
            Ok(AttrType::Id)
        } else if str_eq(s, "IDREF") {
            Ok(AttrType::Idref)
        } else if str_eq(s, "IDREFS") {
            Ok(AttrType::Idrefs)
        } else if str_eq(s, "NMTOKEN") {
            Ok(AttrType::Nmtoken)
        } else if str_eq(s, "NMTOKENS") {
            Ok(AttrType::Nmtokens)
        } else {
            Err(DtdError::UnknownAttrType { keyword: up })
        }
    }

    fn read_enumeration(&mut self) -> (r: Result<AttrType, DtdError>)
        requires
            old(self).wf(),
            peek(old(self).input@, old(self).pos as int) == Some(0x28u8),
        ensures
            final(self).wf(),
            final(self).same_source(old(self)),
            r is Ok <==> at_enum(old(self).input@, old(self).pos + 1) is Ok,
            r matches Ok(t) ==> at_enum(old(self).input@, old(self).pos + 1) matches Ok((vs, e))
                && t@ == SpecAttrType::Enumeration(vs) && e == final(self).pos,
            r matches Err(e) ==> at_enum(old(self).input@, old(self).pos + 1) == Err::<
                (Seq<Seq<char>>, int),
                ErrorView,
            >(e@),
            r is Ok ==> old(self).pos <= final(self).pos,
    {
        let ghost b = self.input@;
        proof {
            lemma_boundary_after_ascii(b, self.pos as int);
        }
        self.pos += 1;  // skip '('
        let ghost start = self.pos as int;
        let mut values: Vec<String> = Vec::new();
        loop
            invariant
                self.wf(),
                self.same_source(old(self)),
                self.input@ == b,
                start == old(self).pos + 1,
                start <= self.pos,
                at_enum(b, start) == match at_enum(b, self.pos as int) {
                    Ok((vs, t)) => Ok((strings_view(values@) + vs, t)),
                    Err(e) => Err::<(Seq<Seq<char>>, int), ErrorView>(e),
                },
            decreases b.len() - self.pos,
        {
            let ghost p0 = self.pos as int;
            proof {
                lemma_skip_ws(b, p0);
                lemma_skip_ws(b, skip_ws(b, p0));
            }
            self.skip_ws();
            let name = self.read_name()?;
            let ghost e = self.pos as int;
            proof {
                lemma_skip_ws(b, e);
            }
            self.skip_ws();
            let ghost vv = strings_view(values@);
            let ghost nv = name@;
            values.push(name);
            proof {
                assert(strings_view(values@) =~= vv.push(nv));
            }
            if self.pos < self.input.len() && self.input[self.pos] == 0x7cu8 {
                proof {
                    lemma_boundary_after_ascii(b, self.pos as int);
                    match at_enum(b, self.pos + 1) {
                        Ok((vs, t)) => {
                            assert(vv + (seq![nv] + vs) =~= vv.push(nv) + vs);
                        },
                        Err(_) => {},
                    }
                }
                self.pos += 1;
            } else if self.pos < self.input.len() && self.input[self.pos] == 0x29u8 {
                proof {
                    lemma_boundary_after_ascii(b, self.pos as int);
                    assert(at_enum(b, p0) == Ok::<(Seq<Seq<char>>, int), ErrorView>(
                        (seq![nv], self.pos + 1),
                    ));
                    assert(vv + seq![nv] =~= vv.push(nv));
                }
                self.pos += 1;
                return Ok(AttrType::Enumeration(values));
            } else {
                return Err(DtdError::BadEnumeration);
            }
        }
    }

    fn read_attr_default(&mut self) -> (r: Result<AttrDefault, DtdError>)
        requires
            old(self).wf(),
        ensures
            final(self).wf(),
            final(self).same_source(old(self)),
            r is Ok <==> at_default(old(self).input@, old(self).pos as int) is Ok,
            r matches Ok(d) ==> at_default(old(self).input@, old(self).pos as int) == Ok::<
                (SpecAttrDefault, int),
                ErrorView,
            >((d@, final(self).pos as int)),
            r matches Err(e) ==> at_default(old(self).input@, old(self).pos as int) == Err::<
                (SpecAttrDefault, int),
                ErrorView,
            >(e@),
            r is Ok ==> old(self).pos <= final(self).pos,
    {
        let ghost b = self.input@;
        proof {
            lemma_skip_ws(b, self.pos as int);
        }
        self.skip_ws();
        if self.pos < self.input.len() && self.input[self.pos] == 0x23u8 {
            proof {
                lemma_boundary_after_ascii(b, self.pos as int);
            }
            self.pos += 1;
            let ghost q = skip_ws(b, self.pos as int);
            proof {
                lemma_skip_ws(b, self.pos as int);
                lemma_name_end(b, q);
            }
            let keyword = self.read_name()?;
            let up = self.upper_keyword(&keyword, Ghost(q));
            let s = up.as_str();
            proof {
                reveal_strlit("REQUIRED");
                reveal_strlit("IMPLIED");
                reveal_strlit("FIXED");
                assert("REQUIRED"@ =~= seq!['R', 'E', 'Q', 'U', 'I', 'R', 'E', 'D']);
                assert("IMPLIED"@ =~= seq!['I', 'M', 'P', 'L', 'I', 'E', 'D']);
                assert("FIXED"@ =~= seq!['F', 'I', 'X', 'E', 'D']);
            }
            if str_eq(s, "REQUIRED") {
                Ok(AttrDefault::Required)
            } else if str_eq(s, "IMPLIED") {
                Ok(AttrDefault::Implied)
            } else if str_eq(s, "FIXED") {
                let val = self.read_quoted()?;
                Ok(AttrDefault::Fixed(val))
            } else {
                Err(DtdError::UnknownDefault { keyword: up })
            }
        } else if self.pos < self.input.len() && (self.input[self.pos] == 0x22u8
            || self.input[self.pos] == 0x27u8) {
            let val = self.read_quoted()?;
            Ok(AttrDefault::Default(val))
        } else {
            Err(DtdError::ExpectedDefault { position: self.pos })
        }
    }

    fn read_quoted(&mut self) -> (r: Result<String, DtdError>)
        requires
            old(self).wf(),
        ensures
            final(self).wf(),
            final(self).same_source(old(self)),
            r is Ok <==> at_quoted(old(self).input@, old(self).pos as int) is Ok,
            r matches Ok(v) ==> at_quoted(old(self).input@, old(self).pos as int) == Ok::<
                (Seq<char>, int),
                ErrorView,
            >((v@, final(self).pos as int)),
            r matches Err(e) ==> at_quoted(old(self).input@, old(self).pos as int) == Err::<
                (Seq<char>, int),
                ErrorView,
            >(e@),
            r is Ok ==> old(self).pos <= final(self).pos,
    {
        let ghost b = self.input@;
        proof {
            lemma_skip_ws(b, self.pos as int);
        }
        self.skip_ws();
        if self.pos >= self.input.len() {
            return Err(DtdError::ExpectedQuotedString);
        }
        let quote = self.input[self.pos];
        if quote != 0x22u8 && quote != 0x27u8 {
            return Err(DtdError::ExpectedQuote);
        }
        proof {
            lemma_boundary_after_ascii(b, self.pos as int);
            lemma_quote_end(b, self.pos + 1, quote);
        }
        let start = self.pos + 1;
        let mut i = start;
        while i < self.input.len() && self.input[i] != quote
            invariant
                self.wf(),
                self.input@ == b,
                start <= i <= b.len(),
                quote_end(b, i as int, quote) == quote_end(b, start as int, quote),
            decreases b.len() - i,
        {
            i += 1;
        }
        if i >= self.input.len() {
            self.pos = i;
            proof {
                is_char_boundary_start_end_of_seq(b);
            }
            return Err(DtdError::UnclosedQuote);
        }
        proof {
            lemma_ascii_is_boundary(b, i as int);
            lemma_boundary_after_ascii(b, i as int);
        }
        let value = str_slice(self.text, start, i).to_owned();
        self.pos = i + 1;
        Ok(value)
    }
}

} // verus!
