//! How DTD items are written out: quantifiers, attribute types and defaults,
//! attribute lists, entity definitions, and the Mermaid graph of a DTD.
use vstd::prelude::*;

use crate::model::{
    attributes_view, element_map_get_index, element_map_len, strings_view, AttrDefault,
    AttrType, Attribute, Dtd, Entity, EntityKind, Quantifier, SpecAttrDefault, SpecAttrType,
    SpecAttribute, SpecElement, SpecEntity, SpecEntityKind,
};
use crate::tree::{content_children, get_direct_children, pairs_view};

verus! {

/// `String::push`: appends one character.
pub assume_specification[ String::push ](s: &mut String, ch: char)
    ensures
        final(s)@ == old(s)@.push(ch),
;

/// `String::pop`: removes the last character, if there is one, and returns it.
pub assume_specification[ String::pop ](s: &mut String) -> (r: Option<char>)
    ensures
        old(s)@.len() > 0 ==> r == Some(old(s)@.last()) && final(s)@ == old(s)@.drop_last(),
        old(s)@.len() == 0 ==> r is None && final(s)@ == old(s)@,
;

// ---------------------------------------------------------------------------
// What the texts are
// ---------------------------------------------------------------------------

/// `?`, `*`, `+`, or nothing for a particle that occurs once.
pub open spec fn quant_text(q: Quantifier) -> Seq<char> {
    match q {
        Quantifier::One => seq![],
        Quantifier::Optional => seq!['?'],
        Quantifier::ZeroOrMore => seq!['*'],
        Quantifier::OneOrMore => seq!['+'],
    }
}

/// The texts of `list`, with `sep` between each two.
pub open spec fn join(list: Seq<Seq<char>>, sep: Seq<char>) -> Seq<char>
    decreases list.len(),
{
    if list.len() == 0 {
        seq![]
    } else if list.len() == 1 {
        list[0]
    } else {
        join(list.drop_last(), sep) + sep + list.last()
    }
}

pub open spec fn attr_type_text(t: SpecAttrType) -> Seq<char> {
    match t {
        SpecAttrType::Cdata => seq!['C', 'D', 'A', 'T', 'A'],
        SpecAttrType::Id => seq!['I', 'D'],
        SpecAttrType::Idref => seq!['I', 'D', 'R', 'E', 'F'],
        SpecAttrType::Idrefs => seq!['I', 'D', 'R', 'E', 'F', 'S'],
        SpecAttrType::Nmtoken => seq!['N', 'M', 'T', 'O', 'K', 'E', 'N'],
        SpecAttrType::Nmtokens => seq!['N', 'M', 'T', 'O', 'K', 'E', 'N', 'S'],
        SpecAttrType::Enumeration(vals) => seq!['('] + join(vals, seq!['|']) + seq![')'],
    }
}

pub open spec fn quoted(v: Seq<char>) -> Seq<char> {
    seq!['"'] + v + seq!['"']
}

pub open spec fn attr_default_text(d: SpecAttrDefault) -> Seq<char> {
    match d {
        SpecAttrDefault::Required => seq!['#', 'R', 'E', 'Q', 'U', 'I', 'R', 'E', 'D'],
        SpecAttrDefault::Implied => seq!['#', 'I', 'M', 'P', 'L', 'I', 'E', 'D'],
        SpecAttrDefault::Fixed(v) => seq!['#', 'F', 'I', 'X', 'E', 'D', ' '] + quoted(v),
        SpecAttrDefault::Default(v) => quoted(v),
    }
}

/// `@name: TYPE`
pub open spec fn attr_short(a: SpecAttribute) -> Seq<char> {
    seq!['@'] + a.name + seq![':', ' '] + attr_type_text(a.attr_type)
}

/// `@name: TYPE DEFAULT`
pub open spec fn attr_full(a: SpecAttribute) -> Seq<char> {
    attr_short(a) + seq![' '] + attr_default_text(a.default)
}

/// ` [part, part]`, or nothing for no parts.
pub open spec fn bracketed(parts: Seq<Seq<char>>) -> Seq<char> {
    if parts.len() == 0 {
        seq![]
    } else {
        seq![' ', '['] + join(parts, seq![',', ' ']) + seq![']']
    }
}

/// The attributes of an element as the static tree shows them.
pub open spec fn attrs_text(attrs: Seq<SpecAttribute>) -> Seq<char> {
    bracketed(attrs.map_values(|a: SpecAttribute| attr_full(a)))
}

/// The attributes of an element as a row of the interactive tree shows them.
pub open spec fn inline_attrs_text(attrs: Seq<SpecAttribute>) -> Seq<char> {
    bracketed(attrs.map_values(|a: SpecAttribute| attr_short(a)))
}

/// What an entity stands for: `"value"`, `SYSTEM "uri"` or `PUBLIC "id" "uri"`.
pub open spec fn entity_desc(k: SpecEntityKind) -> Seq<char> {
    match k {
        SpecEntityKind::Internal { value } => quoted(value),
        SpecEntityKind::ExternalSystem { uri } => seq!['S', 'Y', 'S', 'T', 'E', 'M', ' '] + quoted(
            uri,
        ),
        SpecEntityKind::ExternalPublic { public_id, uri } => seq!['P', 'U', 'B', 'L', 'I', 'C', ' ']
            + quoted(public_id) + seq![' '] + quoted(uri),
    }
}

/// `  %name; = ...` for a parameter entity, `  &name; = ...` for a general one.
pub open spec fn entity_line(e: SpecEntity) -> Seq<char> {
    seq![' ', ' '] + (if e.is_parameter {
        seq!['%']
    } else {
        seq!['&']
    }) + e.name + seq![';', ' ', '=', ' '] + entity_desc(e.kind)
}

pub open spec fn digit(d: nat) -> char {
    (48 + d) as char
}

/// The decimal digits of `n`.
pub open spec fn decimal(n: nat) -> Seq<char>
    decreases n,
{
    if n < 10 {
        seq![digit(n)]
    } else {
        decimal(n / 10).push(digit(n % 10))
    }
}

/// The Mermaid edge label of a quantifier: nothing for `One`, else `|"q"| `.
pub open spec fn edge_label(q: Quantifier) -> Seq<char> {
    if q == Quantifier::One {
        seq![]
    } else {
        seq!['|', '"'] + quant_text(q) + seq!['"', '|', ' ']
    }
}

/// The Mermaid edges from an element to its children.
pub open spec fn element_edges(el: SpecElement) -> Seq<Seq<char>> {
    content_children(el.content).map_values(
        |c: (Seq<char>, Quantifier)|
            seq![' ', ' ', ' ', ' '] + el.name + seq![' ', '-', '-', '>'] + edge_label(c.1) + c.0,
    )
}

/// The edges of the first `k` elements, in order.
pub open spec fn edges_upto(es: Seq<(Seq<char>, SpecElement)>, k: int) -> Seq<Seq<char>>
    decreases k,
{
    if k <= 0 {
        seq![]
    } else {
        edges_upto(es, k - 1) + element_edges(es[k - 1].1)
    }
}

/// The Mermaid graph of a DTD, line by line.
pub open spec fn mermaid_of(es: Seq<(Seq<char>, SpecElement)>) -> Seq<Seq<char>> {
    seq![seq!['g', 'r', 'a', 'p', 'h', ' ', 'T', 'D']] + edges_upto(es, es.len() as int)
}

// ---------------------------------------------------------------------------
// Writing them
// ---------------------------------------------------------------------------

/// A string holding `s`.
fn lit(s: &str) -> (r: String)
    ensures
        r@ == s@,
{
    s.to_string()
}

impl Quantifier {
    /// The quantifier as written after a particle.
    pub fn text(&self) -> (r: String)
        ensures
            r@ == quant_text(*self),
    {
        proof {
            reveal_strlit("?");
            reveal_strlit("*");
            reveal_strlit("+");
        }
        match self {
            Quantifier::One => String::new(),
            Quantifier::Optional => lit("?"),
            Quantifier::ZeroOrMore => lit("*"),
            Quantifier::OneOrMore => lit("+"),
        }
    }
}

/// The texts of `parts`, with `sep` between each two.
pub fn join_strings(parts: &Vec<String>, sep: &str) -> (r: String)
    ensures
        r@ == join(strings_view(parts@), sep@),
{
    let mut res = String::new();
    let ghost all = strings_view(parts@);
    let mut i: usize = 0;
    while i < parts.len()
        invariant
            i <= parts@.len(),
            all == strings_view(parts@),
            res@ == join(all.subrange(0, i as int), sep@),
        decreases parts@.len() - i,
    {
        proof {
            assert(all.subrange(0, i + 1).drop_last() =~= all.subrange(0, i as int));
            if i == 0 {
                assert(res@ =~= seq![]);
            }
        }
        if i != 0 {
            res.append(sep);
        }
        res.append(parts[i].as_str());
        i += 1;
        proof {
            if i == 1 {
                assert(res@ =~= all.subrange(0, 1)[0]);
            }
        }
    }
    assert(all.subrange(0, i as int) =~= all);
    res
}

impl AttrType {
    /// The attribute type as declared: a keyword, or `(a|b|c)`.
    pub fn text(&self) -> (r: String)
        ensures
            r@ == attr_type_text(self@),
    {
        proof {
            reveal_strlit("CDATA");
            reveal_strlit("ID");
            reveal_strlit("IDREF");
            reveal_strlit("IDREFS");
            reveal_strlit("NMTOKEN");
            reveal_strlit("NMTOKENS");
            reveal_strlit("(");
            reveal_strlit("|");
            reveal_strlit(")");
            assert("CDATA"@ =~= seq!['C', 'D', 'A', 'T', 'A']);
            assert("ID"@ =~= seq!['I', 'D']);
            assert("IDREF"@ =~= seq!['I', 'D', 'R', 'E', 'F']);
            assert("IDREFS"@ =~= seq!['I', 'D', 'R', 'E', 'F', 'S']);
            assert("NMTOKEN"@ =~= seq!['N', 'M', 'T', 'O', 'K', 'E', 'N']);
            assert("NMTOKENS"@ =~= seq!['N', 'M', 'T', 'O', 'K', 'E', 'N', 'S']);
            assert("("@ =~= seq!['(']);
            assert("|"@ =~= seq!['|']);
            assert(")"@ =~= seq![')']);
        }
        match self {
            AttrType::Cdata => lit("CDATA"),
            AttrType::Id => lit("ID"),
            AttrType::Idref => lit("IDREF"),
            AttrType::Idrefs => lit("IDREFS"),
            AttrType::Nmtoken => lit("NMTOKEN"),
            AttrType::Nmtokens => lit("NMTOKENS"),
            AttrType::Enumeration(vals) => {
                let mut s = lit("(");
                let inner = join_strings(vals, "|");
                s.append(inner.as_str());
                s.append(")");
                s
            },
        }
    }
}

/// `"v"`
fn quote_text(v: &str) -> (r: String)
    ensures
        r@ == quoted(v@),
{
    proof {
        reveal_strlit("\"");
    }
    let mut s = lit("\"");
    s.append(v);
    s.append("\"");
    s
}

impl AttrDefault {
    /// The default declaration as written: `#REQUIRED`, `#IMPLIED`, `#FIXED "v"` or `"v"`.
    pub fn text(&self) -> (r: String)
        ensures
            r@ == attr_default_text(self@),
    {
        proof {
            reveal_strlit("#REQUIRED");
            reveal_strlit("#IMPLIED");
            reveal_strlit("#FIXED ");
            assert("#REQUIRED"@ =~= seq!['#', 'R', 'E', 'Q', 'U', 'I', 'R', 'E', 'D']);
            assert("#IMPLIED"@ =~= seq!['#', 'I', 'M', 'P', 'L', 'I', 'E', 'D']);
            assert("#FIXED "@ =~= seq!['#', 'F', 'I', 'X', 'E', 'D', ' ']);
        }
        match self {
            AttrDefault::Required => lit("#REQUIRED"),
            AttrDefault::Implied => lit("#IMPLIED"),
            AttrDefault::Fixed(v) => {
                let mut s = lit("#FIXED ");
                let q = quote_text(v.as_str());
                s.append(q.as_str());
                s
            },
            AttrDefault::Default(v) => quote_text(v.as_str()),
        }
    }
}

/// `@name: TYPE`, followed by ` DEFAULT` when `full`.
fn attr_text(a: &Attribute, full: bool) -> (r: String)
    ensures
        r@ == if full {
            attr_full(a@)
        } else {
            attr_short(a@)
        },
{
    proof {
        reveal_strlit("@");
        reveal_strlit(": ");
        reveal_strlit(" ");
    }
    let mut s = lit("@");
    s.append(a.name.as_str());
    s.append(": ");
    let t = a.attr_type.text();
    s.append(t.as_str());
    if full {
        s.append(" ");
        let d = a.default.text();
        s.append(d.as_str());
    }
    s
}

/// `@name: TYPE DEFAULT`, as the attribute overlay lists an attribute.
pub fn attr_line(a: &Attribute) -> (r: String)
    ensures
        r@ == attr_full(a@),
{
    attr_text(a, true)
}

fn attrs_bracketed(attrs: &[Attribute], full: bool) -> (r: String)
    ensures
        r@ == if full {
            attrs_text(attributes_view(attrs@))
        } else {
            inline_attrs_text(attributes_view(attrs@))
        },
{
    proof {
        reveal_strlit(" [");
        reveal_strlit(", ");
        reveal_strlit("]");
    }
    if attrs.len() == 0 {
        return String::new();
    }
    let ghost av = attributes_view(attrs@);
    let mut parts: Vec<String> = Vec::new();
    let mut i: usize = 0;
    while i < attrs.len()
        invariant
            i <= attrs@.len(),
            av == attributes_view(attrs@),
            parts@.len() == i,
            forall|k: int|
                0 <= k < i ==> (#[trigger] parts@[k])@ == if full {
                    attr_full(av[k])
                } else {
                    attr_short(av[k])
                },
        decreases attrs@.len() - i,
    {
        let p = attr_text(&attrs[i], full);
        parts.push(p);
        i += 1;
    }
    proof {
        if full {
            assert(strings_view(parts@) =~= av.map_values(|a: SpecAttribute| attr_full(a)));
        } else {
            assert(strings_view(parts@) =~= av.map_values(|a: SpecAttribute| attr_short(a)));
        }
        assert(" ["@ =~= seq![' ', '[']);
        assert(", "@ =~= seq![',', ' ']);
        assert("]"@ =~= seq![']']);
    }
    let mut s = lit(" [");
    let inner = join_strings(&parts, ", ");
    s.append(inner.as_str());
    s.append("]");
    s
}

/// The attributes of an element as the static tree shows them: ` [@a: T D, ...]`,
/// or nothing when there are none.
pub fn format_attributes(attrs: &[Attribute]) -> (r: String)
    ensures
        r@ == attrs_text(attributes_view(attrs@)),
{
    attrs_bracketed(attrs, true)
}

/// The attributes of an element as a tree row shows them: ` [@a: T, ...]`, or
/// nothing when there are none.
pub fn format_inline_attrs(attrs: &[Attribute]) -> (r: String)
    ensures
        r@ == inline_attrs_text(attributes_view(attrs@)),
{
    attrs_bracketed(attrs, false)
}

/// One entity as listed: `  %name; = "value"` and the like.
pub fn format_entity(e: &Entity) -> (r: String)
    ensures
        r@ == entity_line(e@),
{
    proof {
        reveal_strlit("  ");
        reveal_strlit("%");
        reveal_strlit("&");
        reveal_strlit("; = ");
        reveal_strlit("SYSTEM ");
        reveal_strlit("PUBLIC ");
        reveal_strlit(" ");
    }
    let mut s = lit("  ");
    if e.is_parameter {
        s.append("%");
    } else {
        s.append("&");
    }
    s.append(e.name.as_str());
    s.append("; = ");
    match &e.kind {
        EntityKind::Internal { value } => {
            let q = quote_text(value.as_str());
            s.append(q.as_str());
        },
        EntityKind::ExternalSystem { uri } => {
            s.append("SYSTEM ");
            let q = quote_text(uri.as_str());
            s.append(q.as_str());
        },
        EntityKind::ExternalPublic { public_id, uri } => {
            s.append("PUBLIC ");
            let q1 = quote_text(public_id.as_str());
            s.append(q1.as_str());
            s.append(" ");
            let q2 = quote_text(uri.as_str());
            s.append(q2.as_str());
        },
    }
    s
}

/// The decimal digits of `n`.
pub fn decimal_text(n: usize) -> (r: String)
    ensures
        r@ == decimal(n as nat),
    decreases n,
{
    let d = n % 10;
    let c = if d == 0 {
        '0'
    } else if d == 1 {
        '1'
    } else if d == 2 {
        '2'
    } else if d == 3 {
        '3'
    } else if d == 4 {
        '4'
    } else if d == 5 {
        '5'
    } else if d == 6 {
        '6'
    } else if d == 7 {
        '7'
    } else if d == 8 {
        '8'
    } else {
        '9'
    };
    assert(c == digit(d as nat));
    if n < 10 {
        let mut s = String::new();
        s.push(c);
        assert(s@ =~= seq![c]);
        s
    } else {
        let mut s = decimal_text(n / 10);
        s.push(c);
        s
    }
}

/// The Mermaid graph of a DTD: `graph TD`, then one edge per child of each
/// element, in map order.
pub fn mermaid_lines(dtd: &Dtd) -> (r: Vec<String>)
    ensures
        strings_view(r@) == mermaid_of(dtd.element_entries()),
{
    proof {
        reveal_strlit("graph TD");
        reveal_strlit("    ");
        reveal_strlit(" -->");
        reveal_strlit("|\"");
        reveal_strlit("\"| ");
        assert("graph TD"@ =~= seq!['g', 'r', 'a', 'p', 'h', ' ', 'T', 'D']);
        assert("    "@ =~= seq![' ', ' ', ' ', ' ']);
        assert(" -->"@ =~= seq![' ', '-', '-', '>']);
        assert("|\""@ =~= seq!['|', '"']);
        assert("\"| "@ =~= seq!['"', '|', ' ']);
    }
    let ghost es = dtd.element_entries();
    let mut lines: Vec<String> = Vec::new();
    lines.push(lit("graph TD"));
    let n = element_map_len(&dtd.elements);
    let mut i: usize = 0;
    while i < n
        invariant
            es == dtd.element_entries(),
            n == es.len(),
            i <= n,
            strings_view(lines@) =~= seq![seq!['g', 'r', 'a', 'p', 'h', ' ', 'T', 'D']]
                + edges_upto(es, i as int),
        decreases n - i,
    {
        let (_, elem) = element_map_get_index(&dtd.elements, i).unwrap();
        let children = get_direct_children(&elem.content);
        let ghost before = strings_view(lines@);
        let ghost edges = element_edges(es[i as int].1);
        let mut j: usize = 0;
        while j < children.len()
            invariant
                i < es.len(),
                j <= children@.len(),
                pairs_view(children@) == content_children(es[i as int].1.content),
                edges == element_edges(es[i as int].1),
                elem.name@ == es[i as int].1.name,
                strings_view(lines@) =~= before + edges.subrange(0, j as int),
            decreases children@.len() - j,
        {
            let (child_name, q) = &children[j];
            proof {
                reveal_strlit("    ");
                reveal_strlit(" -->");
                reveal_strlit("|\"");
                reveal_strlit("\"| ");
                assert("    "@ =~= seq![' ', ' ', ' ', ' ']);
                assert(" -->"@ =~= seq![' ', '-', '-', '>']);
                assert("|\""@ =~= seq!['|', '"']);
                assert("\"| "@ =~= seq!['"', '|', ' ']);
            }
            let mut line = lit("    ");
            line.append(elem.name.as_str());
            line.append(" -->");
            let ghost head = line@;
            if *q != Quantifier::One {
                line.append("|\"");
                let qt = q.text();
                line.append(qt.as_str());
                line.append("\"| ");
            }
            assert(line@ =~= head + edge_label(*q));
            line.append(child_name.as_str());
            proof {
                assert(pairs_view(children@)[j as int] == (child_name@, *q));
                assert(content_children(es[i as int].1.content)[j as int] == (child_name@, *q));
                assert(edges[j as int] == seq![' ', ' ', ' ', ' '] + es[i as int].1.name + seq![
                    ' ',
                    '-',
                    '-',
                    '>',
                ] + edge_label(*q) + child_name@);
                assert(line@ =~= edges[j as int]);
            }
            let ghost lv = line@;
            let ghost prev = strings_view(lines@);
            lines.push(line);
            assert(strings_view(lines@) =~= prev.push(lv));
            j += 1;
            assert(edges.subrange(0, j as int) =~= edges.subrange(0, j - 1).push(lv));
        }
        proof {
            assert(edges.subrange(0, j as int) =~= edges);
        }
        i += 1;
    }
    lines
}

} // verus!
