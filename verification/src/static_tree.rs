//! The static, non-interactive view of a DTD: its entities, then the tree of
//! elements below each root. An element met again on its own path is marked
//! recursive; an element with children that was already shown elsewhere is
//! shown once more only as a reference.
use vstd::prelude::*;
use vstd::seq_lib::*;

use crate::format::{
    attrs_text, decimal, decimal_text, entity_line, format_attributes, format_entity, quant_text,
};
use crate::model::{
    element_map_get_index, element_map_index_of, entities_view, lemma_key_index_at,
    lemma_key_index_none, key_index, strings_view, Dtd, Element, Quantifier, SpecElement,
    SpecEntity,
};
use crate::tree::{
    content_children, find_roots, get_direct_children, pairs_view, roots_of,
};
use crate::text::str_eq;

verus! {

broadcast use vstd::seq_lib::group_seq_properties;

// ---------------------------------------------------------------------------
// What the static view shows
// ---------------------------------------------------------------------------

/// The names of the elements of the map.
pub open spec fn element_names(es: Seq<(Seq<char>, SpecElement)>) -> Set<Seq<char>> {
    es.map_values(|e: (Seq<char>, SpecElement)| e.1.name).to_set()
}

/// How many element names are not yet on the current path.
pub open spec fn names_left(es: Seq<(Seq<char>, SpecElement)>, anc: Seq<Seq<char>>) -> nat {
    element_names(es).difference(anc.to_set()).len()
}

pub proof fn lemma_names_left(es: Seq<(Seq<char>, SpecElement)>, anc: Seq<Seq<char>>, i: int)
    requires
        0 <= i < es.len(),
        !anc.contains(es[i].1.name),
    ensures
        names_left(es, anc.push(es[i].1.name)) < names_left(es, anc),
{
    let n = es[i].1.name;
    let names = es.map_values(|e: (Seq<char>, SpecElement)| e.1.name);
    assert(names[i] == n);
    assert(element_names(es).contains(n));
    anc.lemma_push_to_set_commute(n);
    let d = element_names(es).difference(anc.to_set());
    assert(element_names(es).difference(anc.push(n).to_set()) =~= d.remove(n));
    assert(d.contains(n));
}

pub open spec fn branch() -> Seq<char> {
    seq!['├', '─', '─', ' ']
}

pub open spec fn last_branch() -> Seq<char> {
    seq!['└', '─', '─', ' ']
}

/// What is drawn before an element's name.
pub open spec fn connector(is_root: bool, is_last: bool) -> Seq<char> {
    if is_root {
        seq![]
    } else if is_last {
        last_branch()
    } else {
        branch()
    }
}

/// What is drawn before the children of an element.
pub open spec fn child_prefix(prefix: Seq<char>, is_root: bool, is_last: bool) -> Seq<char> {
    if is_root {
        seq![]
    } else if is_last {
        prefix + seq![' ', ' ', ' ', ' ']
    } else {
        prefix + seq!['│', ' ', ' ', ' ']
    }
}

pub open spec fn recursive_mark() -> Seq<char> {
    seq![' ', '(', 'r', 'e', 'c', 'u', 'r', 's', 'i', 'v', 'e', ')']
}

/// ` → (n children, see above)`
pub open spec fn see_above(n: nat) -> Seq<char> {
    seq![' ', '→', ' ', '('] + decimal(n) + seq![
        ' ',
        'c',
        'h',
        'i',
        'l',
        'd',
        'r',
        'e',
        'n',
        ',',
        ' ',
        's',
        'e',
        'e',
        ' ',
        'a',
        'b',
        'o',
        'v',
        'e',
        ')',
    ]
}

/// The lines that show entry `i` and what lies below it, given the names on
/// the path to it (`anc`) and the names already shown with their children
/// (`exp`); and the names shown with their children afterwards.
pub open spec fn render_element(
    es: Seq<(Seq<char>, SpecElement)>,
    i: int,
    q: Quantifier,
    prefix: Seq<char>,
    is_root: bool,
    is_last: bool,
    anc: Seq<Seq<char>>,
    exp: Seq<Seq<char>>,
) -> (Seq<Seq<char>>, Seq<Seq<char>>)
    decreases names_left(es, anc), 0int,
    when 0 <= i < es.len()
{
    let el = es[i].1;
    let head = prefix + connector(is_root, is_last) + el.name + quant_text(q) + attrs_text(
        el.attributes,
    );
    let children = content_children(el.content);
    if anc.contains(el.name) {
        (seq![head + recursive_mark()], exp)
    } else if !is_root && exp.contains(el.name) && children.len() > 0 {
        (seq![head + see_above(children.len())], exp)
    } else if children.len() == 0 {
        (seq![head], exp)
    } else {
        proof {
            lemma_names_left(es, anc, i);
        }
        let below = render_children(
            es,
            children,
            0,
            child_prefix(prefix, is_root, is_last),
            anc.push(el.name),
            exp.push(el.name),
        );
        (seq![head] + below.0, below.1)
    }
}

/// The lines for children `k..` of an element, drawn after `cp`.
pub open spec fn render_children(
    es: Seq<(Seq<char>, SpecElement)>,
    children: Seq<(Seq<char>, Quantifier)>,
    k: int,
    cp: Seq<char>,
    anc: Seq<Seq<char>>,
    exp: Seq<Seq<char>>,
) -> (Seq<Seq<char>>, Seq<Seq<char>>)
    decreases names_left(es, anc), children.len() - k + 1,
    when 0 <= k <= children.len()
{
    if k >= children.len() {
        (seq![], exp)
    } else {
        let (cname, cq) = children[k];
        let is_last = k == children.len() - 1;
        let first = match key_index(es, cname) {
            Some(j) => if 0 <= j < es.len() {
                render_element(es, j, cq, cp, false, is_last, anc, exp)
            } else {
                (seq![], exp)
            },
            None => (seq![cp + connector(false, is_last) + cname + quant_text(cq)], exp),
        };
        let rest = render_children(es, children, k + 1, cp, anc, first.1);
        (first.0 + rest.0, rest.1)
    }
}

/// The lines for roots `k..`.
pub open spec fn render_roots(
    es: Seq<(Seq<char>, SpecElement)>,
    roots: Seq<Seq<char>>,
    k: int,
    exp: Seq<Seq<char>>,
) -> (Seq<Seq<char>>, Seq<Seq<char>>)
    decreases roots.len() - k,
{
    if k < 0 || k >= roots.len() {
        (seq![], exp)
    } else {
        let first = match key_index(es, roots[k]) {
            Some(j) => if 0 <= j < es.len() {
                render_element(es, j, Quantifier::One, seq![], true, true, seq![], exp)
            } else {
                (seq![], exp)
            },
            None => (seq![], exp),
        };
        let rest = render_roots(es, roots, k + 1, first.1);
        (first.0 + rest.0, rest.1)
    }
}

/// `a` is the start of `b`.
pub open spec fn starts_list(a: Seq<Seq<char>>, b: Seq<Seq<char>>) -> bool {
    a.len() <= b.len() && b.subrange(0, a.len() as int) == a
}

proof fn lemma_starts_list_trans(a: Seq<Seq<char>>, b: Seq<Seq<char>>, c: Seq<Seq<char>>)
    requires
        starts_list(a, b),
        starts_list(b, c),
    ensures
        starts_list(a, c),
{
    assert(c.subrange(0, a.len() as int) =~= b.subrange(0, a.len() as int));
}

proof fn lemma_render_element_grows(
    es: Seq<(Seq<char>, SpecElement)>,
    i: int,
    q: Quantifier,
    prefix: Seq<char>,
    is_root: bool,
    is_last: bool,
    anc: Seq<Seq<char>>,
    exp: Seq<Seq<char>>,
)
    requires
        0 <= i < es.len(),
    ensures
        starts_list(exp, render_element(es, i, q, prefix, is_root, is_last, anc, exp).1),
    decreases names_left(es, anc), 0int,
{
    let el = es[i].1;
    let children = content_children(el.content);
    assert(exp.subrange(0, exp.len() as int) =~= exp);
    if !anc.contains(el.name) && !(!is_root && exp.contains(el.name) && children.len() > 0)
        && children.len() > 0 {
        lemma_names_left(es, anc, i);
        let e1 = exp.push(el.name);
        lemma_render_children_grows(
            es,
            children,
            0,
            child_prefix(prefix, is_root, is_last),
            anc.push(el.name),
            e1,
        );
        assert(starts_list(exp, e1)) by {
            assert(e1.subrange(0, exp.len() as int) =~= exp);
        }
        lemma_starts_list_trans(
            exp,
            e1,
            render_children(
                es,
                children,
                0,
                child_prefix(prefix, is_root, is_last),
                anc.push(el.name),
                e1,
            ).1,
        );
    }
}

proof fn lemma_render_children_grows(
    es: Seq<(Seq<char>, SpecElement)>,
    children: Seq<(Seq<char>, Quantifier)>,
    k: int,
    cp: Seq<char>,
    anc: Seq<Seq<char>>,
    exp: Seq<Seq<char>>,
)
    requires
        0 <= k <= children.len(),
    ensures
        starts_list(exp, render_children(es, children, k, cp, anc, exp).1),
    decreases names_left(es, anc), children.len() - k + 1,
{
    assert(exp.subrange(0, exp.len() as int) =~= exp);
    if k < children.len() {
        let (cname, cq) = children[k];
        let is_last = k == children.len() - 1;
        let first = match key_index(es, cname) {
            Some(j) => if 0 <= j < es.len() {
                render_element(es, j, cq, cp, false, is_last, anc, exp)
            } else {
                (seq![], exp)
            },
            None => (seq![cp + connector(false, is_last) + cname + quant_text(cq)], exp),
        };
        match key_index(es, cname) {
            Some(j) => if 0 <= j < es.len() {
                lemma_render_element_grows(es, j, cq, cp, false, is_last, anc, exp);
            },
            None => {},
        }
        lemma_render_children_grows(es, children, k + 1, cp, anc, first.1);
        lemma_starts_list_trans(exp, first.1, render_children(es, children, k + 1, cp, anc, first.1).1);
    }
}

/// Drawing an element adds to the names shown with their children and drops
/// none; an element already on the path to it is drawn as one line marked
/// recursive, and adds nothing.
pub proof fn law_print_element_keeps_shown_names(
    es: Seq<(Seq<char>, SpecElement)>,
    i: int,
    q: Quantifier,
    prefix: Seq<char>,
    is_root: bool,
    is_last: bool,
    anc: Seq<Seq<char>>,
    exp: Seq<Seq<char>>,
)
    requires
        0 <= i < es.len(),
    ensures
        starts_list(exp, render_element(es, i, q, prefix, is_root, is_last, anc, exp).1),
        anc.contains(es[i].1.name) ==> render_element(es, i, q, prefix, is_root, is_last, anc, exp)
            == (
            seq![
                prefix + connector(is_root, is_last) + es[i].1.name + quant_text(q) + attrs_text(
                    es[i].1.attributes,
                ) + recursive_mark(),
            ],
            exp,
        ),
{
    lemma_render_element_grows(es, i, q, prefix, is_root, is_last, anc, exp);
}

pub open spec fn entities_header() -> Seq<char> {
    seq!['=', '=', '=', ' ', 'E', 'n', 't', 'i', 't', 'i', 'e', 's', ' ', '=', '=', '=']
}

pub open spec fn elements_header() -> Seq<char> {
    seq!['=', '=', '=', ' ', 'E', 'l', 'e', 'm', 'e', 'n', 't', 's', ' ', '=', '=', '=']
}

/// The whole static view: the entities, if any, then a blank line; then the
/// element tree below each root, if there are roots.
pub open spec fn static_of(es: Seq<(Seq<char>, SpecElement)>, ents: Seq<SpecEntity>) -> Seq<
    Seq<char>,
> {
    let ent_part = if ents.len() == 0 {
        seq![]
    } else {
        seq![entities_header()] + ents.map_values(|e: SpecEntity| entity_line(e)) + seq![seq![]]
    };
    let roots = roots_of(es);
    let el_part = if roots.len() == 0 {
        seq![]
    } else {
        seq![elements_header()] + render_roots(es, roots, 0, seq![]).0
    };
    ent_part + el_part
}

// ---------------------------------------------------------------------------
// Drawing it
// ---------------------------------------------------------------------------

fn lit(s: &str) -> (r: String)
    ensures
        r@ == s@,
{
    s.to_string()
}

/// `prefix`, the connector, the name, the quantifier and the attributes of an element.
fn element_head(elem: &Element, quantifier: Quantifier, prefix: &str, is_root: bool, is_last: bool) -> (r: String)
    ensures
        r@ == prefix@ + connector(is_root, is_last) + elem.name@ + quant_text(quantifier) + attrs_text(
            elem.spec_view().attributes,
        ),
{
    proof {
        reveal_strlit("└── ");
        reveal_strlit("├── ");
        assert("└── "@ =~= last_branch());
        assert("├── "@ =~= branch());
    }
    let mut head = lit(prefix);
    if !is_root {
        if is_last {
            head.append("└── ");
        } else {
            head.append("├── ");
        }
    }
    head.append(elem.name.as_str());
    let q = quantifier.text();
    head.append(q.as_str());
    let attr_str = format_attributes(elem.attributes.as_slice());
    head.append(attr_str.as_str());
    head
}

/// A child that is not declared: `cp`, the connector, its name and quantifier.
fn leaf_line(cp: &str, name: &String, q: Quantifier, is_last: bool) -> (r: String)
    ensures
        r@ == cp@ + connector(false, is_last) + name@ + quant_text(q),
{
    proof {
        reveal_strlit("└── ");
        reveal_strlit("├── ");
        assert("└── "@ =~= last_branch());
        assert("├── "@ =~= branch());
    }
    let mut line = lit(cp);
    if is_last {
        line.append("└── ");
    } else {
        line.append("├── ");
    }
    line.append(name.as_str());
    let qt = q.text();
    line.append(qt.as_str());
    line
}

/// What is drawn before the children of an element.
fn child_prefix_text(prefix: &str, is_root: bool, is_last: bool) -> (r: String)
    ensures
        r@ == child_prefix(prefix@, is_root, is_last),
{
    proof {
        reveal_strlit("    ");
        reveal_strlit("│   ");
        assert("    "@ =~= seq![' ', ' ', ' ', ' ']);
        assert("│   "@ =~= seq!['│', ' ', ' ', ' ']);
    }
    let mut cp = String::new();
    if !is_root {
        cp.append(prefix);
        if is_last {
            cp.append("    ");
        } else {
            cp.append("│   ");
        }
    }
    cp
}

/// `head` followed by ` → (count children, see above)`.
fn see_above_text(head: String, count: usize) -> (r: String)
    ensures
        r@ == head@ + see_above(count as nat),
{
    proof {
        reveal_strlit(" → (");
        reveal_strlit(" children, see above)");
        assert(" → ("@ =~= seq![' ', '→', ' ', '(']);
    }
    let mut s = head;
    let ghost h = s@;
    s.append(" → (");
    let num = decimal_text(count);
    s.append(num.as_str());
    s.append(" children, see above)");
    assert(s@ =~= h + see_above(count as nat));
    s
}

/// Appends the lines for `elem` (entry `i` of the map) and what lies below it.
/// The ancestor list comes back as it was, and the names already shown only
/// grow; an element that is its own ancestor gets one line, marked recursive.
pub fn print_element(
    dtd: &Dtd,
    elem: &Element,
    Ghost(i): Ghost<int>,
    quantifier: Quantifier,
    prefix: &str,
    is_root: bool,
    is_last: bool,
    ancestors: &mut Vec<String>,
    expanded: &mut Vec<String>,
    lines: &mut Vec<String>,
)
    requires
        0 <= i < dtd.element_entries().len(),
        elem.spec_view() == dtd.element_entries()[i].1,
    ensures
        final(ancestors)@ == old(ancestors)@,
        ({
            let r = render_element(
                dtd.element_entries(),
                i,
                quantifier,
                prefix@,
                is_root,
                is_last,
                strings_view(old(ancestors)@),
                strings_view(old(expanded)@),
            );
            &&& strings_view(final(lines)@) == strings_view(old(lines)@) + r.0
            &&& strings_view(final(expanded)@) == r.1
        }),
        starts_list(strings_view(old(expanded)@), strings_view(final(expanded)@)),
        (strings_view(old(ancestors)@).contains(elem.spec_view().name) ==> {
            &&& strings_view(final(lines)@) == strings_view(old(lines)@) + seq![
                prefix@ + connector(is_root, is_last) + elem.spec_view().name + quant_text(
                    quantifier,
                ) + attrs_text(elem.spec_view().attributes) + recursive_mark(),
            ]
            &&& strings_view(final(expanded)@) == strings_view(old(expanded)@)
        }),
    decreases names_left(dtd.element_entries(), strings_view(old(ancestors)@)), 0int,
{
    let ghost es = dtd.element_entries();
    let ghost anc0 = strings_view(ancestors@);
    let ghost exp0 = strings_view(expanded@);
    let ghost lines0 = strings_view(lines@);
    let ghost el = es[i].1;
    proof {
        law_print_element_keeps_shown_names(es, i, quantifier, prefix@, is_root, is_last, anc0, exp0);
        reveal_strlit(" (recursive)");
        assert(" (recursive)"@ =~= recursive_mark());
    }
    let mut head = element_head(elem, quantifier, prefix, is_root, is_last);
    let children = get_direct_children(&elem.content);
    // Detect ancestor cycle
    if crate::tree::contains_name(ancestors, elem.name.as_str()) {
        head.append(" (recursive)");
        lines.push(head);
        assert(strings_view(lines@) =~= lines0 + seq![head@]);
        return ;
    }
    // If already expanded elsewhere and has children, show as reference
    if !is_root && crate::tree::contains_name(expanded, elem.name.as_str()) && children.len() > 0 {
        let line = see_above_text(head, children.len());
        lines.push(line);
        assert(strings_view(lines@) =~= lines0 + seq![line@]);
        return ;
    }
    let ghost head_v = head@;
    lines.push(head);
    assert(strings_view(lines@) =~= lines0 + seq![head_v]);
    if children.len() == 0 {
        return ;
    }
    expanded.push(elem.name.clone());
    let cp = child_prefix_text(prefix, is_root, is_last);
    ancestors.push(elem.name.clone());
    proof {
        assert(strings_view(ancestors@) =~= anc0.push(el.name));
        assert(strings_view(expanded@) =~= exp0.push(el.name));
        lemma_names_left(es, anc0, i);
    }
    print_children(dtd, &children, cp.as_str(), ancestors, expanded, lines);
    ancestors.pop();
    proof {
        assert(ancestors@ =~= old(ancestors)@);
    }
}

/// Appends the lines for the children of an element, drawn after `cp`.
fn print_children(
    dtd: &Dtd,
    children: &Vec<(String, Quantifier)>,
    cp: &str,
    ancestors: &mut Vec<String>,
    expanded: &mut Vec<String>,
    lines: &mut Vec<String>,
)
    ensures
        final(ancestors)@ == old(ancestors)@,
        ({
            let r = render_children(
                dtd.element_entries(),
                pairs_view(children@),
                0,
                cp@,
                strings_view(old(ancestors)@),
                strings_view(old(expanded)@),
            );
            &&& strings_view(final(lines)@) == strings_view(old(lines)@) + r.0
            &&& strings_view(final(expanded)@) == r.1
        }),
    decreases names_left(dtd.element_entries(), strings_view(old(ancestors)@)), children@.len() + 1,
{
    let ghost es = dtd.element_entries();
    let ghost ch = pairs_view(children@);
    let ghost anc = strings_view(ancestors@);
    let ghost lines0 = strings_view(lines@);
    let ghost total = render_children(es, ch, 0, cp@, anc, strings_view(expanded@));
    let mut k: usize = 0;
    while k < children.len()
        invariant
            es == dtd.element_entries(),
            ch == pairs_view(children@),
            k <= children@.len(),
            anc == strings_view(ancestors@),
            ancestors@ == old(ancestors)@,
            anc == strings_view(old(ancestors)@),
            lines0.len() <= lines@.len(),
            strings_view(lines@).subrange(0, lines0.len() as int) == lines0,
            ({
                let rest = render_children(es, ch, k as int, cp@, anc, strings_view(expanded@));
                &&& total.0 == strings_view(lines@).subrange(
                    lines0.len() as int,
                    strings_view(lines@).len() as int,
                ) + rest.0
                &&& total.1 == rest.1
            }),
        decreases children@.len() - k,
    {
        let (name, child_q) = &children[k];
        let is_child_last = k == children.len() - 1;
        let ghost lines_before = strings_view(lines@);
        let ghost exp_before = strings_view(expanded@);
        proof {
            assert(ch[k as int] == (name@, *child_q));
        }
        match element_map_index_of(&dtd.elements, name.as_str()) {
            Some(j) => {
                proof {
                    lemma_key_index_at(es, name@, j as int);
                }
                let (_, child_elem) = element_map_get_index(&dtd.elements, j).unwrap();
                print_element(
                    dtd,
                    child_elem,
                    Ghost(j as int),
                    *child_q,
                    cp,
                    false,
                    is_child_last,
                    ancestors,
                    expanded,
                    lines,
                );
            },
            None => {
                proof {
                    lemma_key_index_none(es, name@);
                }
                let line = leaf_line(cp, name, *child_q, is_child_last);
                lines.push(line);
            },
        }
        proof {
            let added = strings_view(lines@).subrange(
                lines_before.len() as int,
                strings_view(lines@).len() as int,
            );
            assert(strings_view(lines@) =~= lines_before + added);
            assert(strings_view(lines@).subrange(0, lines0.len() as int) =~= lines_before.subrange(
                0,
                lines0.len() as int,
            ));
            assert(strings_view(lines@).subrange(
                lines0.len() as int,
                strings_view(lines@).len() as int,
            ) =~= lines_before.subrange(lines0.len() as int, lines_before.len() as int) + added);
        }
        k += 1;
    }
    proof {
        assert(strings_view(lines@) =~= lines0 + strings_view(lines@).subrange(
            lines0.len() as int,
            strings_view(lines@).len() as int,
        ));
    }
}

/// The static view of a DTD, line by line.
pub fn static_lines(dtd: &Dtd) -> (r: Vec<String>)
    ensures
        strings_view(r@) == static_of(dtd.element_entries(), entities_view(dtd.entities@)),
{
    proof {
        reveal_strlit("=== Entities ===");
        reveal_strlit("=== Elements ===");
        assert("=== Entities ==="@ =~= entities_header());
        assert("=== Elements ==="@ =~= elements_header());
    }
    let ghost es = dtd.element_entries();
    let ghost ents = entities_view(dtd.entities@);
    let mut lines: Vec<String> = Vec::new();
    if dtd.entities.len() > 0 {
        lines.push(lit("=== Entities ==="));
        let mut k: usize = 0;
        while k < dtd.entities.len()
            invariant
                k <= dtd.entities@.len(),
                ents == entities_view(dtd.entities@),
                strings_view(lines@) =~= seq![entities_header()] + ents.subrange(0, k as int).map_values(
                    |e: SpecEntity| entity_line(e),
                ),
            decreases dtd.entities@.len() - k,
        {
            let ghost before = strings_view(lines@);
            lines.push(format_entity(&dtd.entities[k]));
            assert(strings_view(lines@) =~= before.push(entity_line(ents[k as int])));
            k += 1;
            assert(ents.subrange(0, k as int).map_values(|e: SpecEntity| entity_line(e)) =~= ents.subrange(
                0,
                k - 1,
            ).map_values(|e: SpecEntity| entity_line(e)).push(entity_line(ents[k - 1])));
        }
        lines.push(String::new());
        assert(ents.subrange(0, k as int) =~= ents);
    }
    let ghost ent_lines = strings_view(lines@);
    let roots = find_roots(dtd);
    if roots.len() > 0 {
        lines.push(lit("=== Elements ==="));
        let ghost rs = strings_view(roots@);
        let ghost start = strings_view(lines@);
        let mut expanded: Vec<String> = Vec::new();
        let mut k: usize = 0;
        assert(strings_view(expanded@) =~= seq![]);
        assert(strings_view(lines@).subrange(start.len() as int, start.len() as int) =~= seq![]);
        assert(strings_view(lines@).subrange(0, start.len() as int) =~= start);
        while k < roots.len()
            invariant
                es == dtd.element_entries(),
                rs == strings_view(roots@),
                k <= roots@.len(),
                start.len() <= lines@.len(),
                strings_view(lines@).subrange(0, start.len() as int) == start,
                ({
                    let rest = render_roots(es, rs, k as int, strings_view(expanded@));
                    render_roots(es, rs, 0, seq![]).0 == strings_view(lines@).subrange(
                        start.len() as int,
                        strings_view(lines@).len() as int,
                    ) + rest.0
                }),
            decreases roots@.len() - k,
        {
            let ghost lines_before = strings_view(lines@);
            let ghost exp_before = strings_view(expanded@);
            proof {
                reveal_strlit("");
                assert(""@ =~= seq![]);
            }
            match element_map_index_of(&dtd.elements, roots[k].as_str()) {
                Some(j) => {
                    proof {
                        lemma_key_index_at(es, rs[k as int], j as int);
                    }
                    let (_, elem) = element_map_get_index(&dtd.elements, j).unwrap();
                    let mut ancestors: Vec<String> = Vec::new();
                    assert(strings_view(ancestors@) =~= seq![]);
                    print_element(
                        dtd,
                        elem,
                        Ghost(j as int),
                        Quantifier::One,
                        "",
                        true,
                        true,
                        &mut ancestors,
                        &mut expanded,
                        &mut lines,
                    );
                },
                None => {
                    proof {
                        lemma_key_index_none(es, rs[k as int]);
                    }
                },
            }
            proof {
                let added = strings_view(lines@).subrange(lines_before.len() as int, strings_view(lines@).len() as int);
                assert(strings_view(lines@) =~= lines_before + added);
                assert(strings_view(lines@).subrange(0, start.len() as int) =~= lines_before.subrange(0, start.len() as int));
                assert(strings_view(lines@).subrange(start.len() as int, strings_view(lines@).len() as int)
                    =~= lines_before.subrange(start.len() as int, lines_before.len() as int) + added);
            }
            k += 1;
        }
        proof {
            assert(strings_view(lines@) =~= start + strings_view(lines@).subrange(
                start.len() as int,
                strings_view(lines@).len() as int,
            ));
        }
    }
    lines
}

} // verus!
