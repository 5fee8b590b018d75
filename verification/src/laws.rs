//! Properties that relate several operations of the library.
use vstd::prelude::*;

use crate::format::quant_text;
use crate::model::{
    find_key, key_index, keys_unique, lemma_key_index_some, map_insert, Quantifier,
    SpecAttribute, SpecContent, SpecElement, SpecEntity, SpecEntityKind,
};
use crate::parser::attlist::attlists_of;
use crate::parser::element::{
    closing_angle, element_body, element_decl, elements_from, elements_of, find_from, first_ws,
    lemma_closing_angle, lemma_find_from, split_word,
};
use crate::text::{is_ws, text_between};
use crate::parser::entity::{
    en_body, en_quoted_raw, en_token, entities_from, entities_of, entity_decl, is_quote,
    public_bytes, system_bytes, unquote_spec, ws_end,
};
use crate::parser::element::quote_end;
use crate::text::{ascii_lower, eq_ignore_case, skip_ws};
use crate::parser::{attach_attlists, dtd_of, insert_elements};
use crate::parser::content_model::cm_quantifier;
use crate::parser::content_model::{
    any_bytes, cm_group, cm_is_mixed, cm_top, content_model_of, empty_bytes, pcdata_chars,
    starts_bytes, lemma_group_extends,
};
use crate::model::{GroupKind, SpecGroup, SpecItem, SpecItemContent};
use crate::text::{is_prefix, trim_start_char};
use crate::text::{is_unicode_ws, trim_chars, trim_end_chars, trim_start_chars};
use crate::parser::entity::{expanded, replace_all};
use crate::parser::attlist::{attr_type_keyword, upper};
use crate::format::attr_type_text;
use crate::model::SpecAttrType;
use crate::state::{
    cursor_down, cursor_up, next_index, prev_index, search_matches_of, with_path, without_path,
    RowView,
};

verus! {

/// Moving the cursor up and then down again returns it to where it was,
/// unless it started on the first row.
pub proof fn law_down_undoes_up(c: usize, n: nat)
    requires
        0 < c < n,
    ensures
        cursor_down(cursor_up(c), n) == c,
{
}

/// Moving the cursor down and then up again returns it to where it was,
/// unless it started on the last row.
pub proof fn law_up_undoes_down(c: usize, n: nat)
    requires
        c + 1 < n,
        n <= usize::MAX,
    ensures
        cursor_up(cursor_down(c, n)) == c,
{
}

/// Among `n` search matches, stepping to the next match and then back to the
/// previous one selects the match one started from, and the other way round.
pub proof fn law_prev_undoes_next(i: usize, n: nat)
    requires
        i < n,
        n <= usize::MAX,
    ensures
        prev_index(Some(next_index(Some(i), n)), n) == i,
        next_index(Some(prev_index(Some(i), n)), n) == i,
{
    if i + 1 < n {
        assert((i + 1) % (n as int) == i + 1) by (nonlinear_arith)
            requires
                0 <= i + 1 < n,
        ;
    } else {
        assert((i + 1) % (n as int) == 0) by (nonlinear_arith)
            requires
                i + 1 == n,
                n > 0,
        ;
    }
    if i == 0 {
        assert(((n - 1) + 1) % (n as int) == 0) by (nonlinear_arith)
            requires
                n > 0,
        ;
    } else {
        assert(((i - 1) + 1) % (n as int) == i) by (nonlinear_arith)
            requires
                0 < i < n,
        ;
    }
}

/// Collapsing a path forgets it whether or not it had been expanded before:
/// expanding and then collapsing a path that was not expanded gives back the
/// expanded paths one started with.
pub proof fn law_collapse_undoes_expand(exp: Seq<Seq<char>>, p: Seq<char>)
    ensures
        without_path(with_path(exp, p), p) == without_path(exp, p),
        !exp.contains(p) ==> without_path(with_path(exp, p), p) == exp,
{
    lemma_without_absent(exp, p);
    if !exp.contains(p) {
        assert(exp.push(p).drop_last() =~= exp);
    }
}

proof fn lemma_without_absent(exp: Seq<Seq<char>>, p: Seq<char>)
    ensures
        !exp.contains(p) ==> without_path(exp, p) == exp,
    decreases exp.len(),
{
    if exp.len() > 0 && !exp.contains(p) {
        let init = exp.drop_last();
        assert(!init.contains(p)) by {
            if init.contains(p) {
                let k = choose|k: int| 0 <= k < init.len() && init[k] == p;
                assert(exp[k] == p);
            }
        }
        lemma_without_absent(init, p);
        assert(exp[exp.len() - 1] != p);
        assert(init.push(exp.last()) =~= exp);
    }
}

/// Typing a character into the search query and then deleting it gives back
/// the query one started with, and the same matches.
pub proof fn law_backspace_undoes_input(rows: Seq<RowView>, query: Seq<char>, c: char)
    ensures
        query.push(c).len() > 0,
        query.push(c).drop_last() == query,
        search_matches_of(rows, query.push(c).drop_last()) == search_matches_of(rows, query),
{
    assert(query.push(c).drop_last() =~= query);
}

/// Expanding parameter entities changes nothing when no entity is an internal
/// parameter entity.
pub proof fn law_expansion_without_parameter_entities(text: Seq<char>, ents: Seq<SpecEntity>)
    requires
        forall|i: int|
            0 <= i < ents.len() ==> !(#[trigger] ents[i].is_parameter && ents[i].kind is Internal),
    ensures
        expanded(text, ents) == text,
    decreases ents.len(),
{
    if ents.len() > 0 {
        let init = ents.drop_last();
        assert forall|i: int| 0 <= i < init.len() implies !(#[trigger] init[i].is_parameter
            && init[i].kind is Internal) by {
            assert(init[i] == ents[i]);
        }
        law_expansion_without_parameter_entities(text, init);
        assert(!(ents[ents.len() - 1].is_parameter && ents[ents.len() - 1].kind is Internal));
    }
}

/// Replacing a pattern that does not occur in a text leaves the text unchanged.
pub proof fn law_replace_absent_pattern(s: Seq<char>, pat: Seq<char>, rep: Seq<char>)
    requires
        forall|i: int| 0 <= i && i + pat.len() <= s.len() ==> #[trigger] s.subrange(i, i + pat.len()) != pat,
    ensures
        replace_all(s, pat, rep) == s,
    decreases s.len(),
{
    if s.len() > 0 {
        if pat.len() > 0 && pat.len() <= s.len() {
            assert(s.subrange(0, 0 + pat.len() as int) != pat);
        }
        let t = s.drop_first();
        assert forall|i: int| 0 <= i && i + pat.len() <= t.len() implies #[trigger] t.subrange(
            i,
            i + pat.len(),
        ) != pat by {
            assert(t.subrange(i, i + pat.len()) =~= s.subrange(i + 1, i + 1 + pat.len()));
        }
        law_replace_absent_pattern(t, pat, rep);
        assert(seq![s[0]] + t =~= s);
    }
}

proof fn lemma_trim_start_shape(s: Seq<char>)
    ensures
        trim_start_chars(s).len() <= s.len(),
        trim_start_chars(s) =~= s.subrange(s.len() - trim_start_chars(s).len(), s.len() as int),
        trim_start_chars(s).len() == 0 || !is_unicode_ws(trim_start_chars(s)[0]),
    decreases s.len(),
{
    if s.len() > 0 && is_unicode_ws(s[0]) {
        lemma_trim_start_shape(s.drop_first());
    }
}

proof fn lemma_trim_end_shape(s: Seq<char>)
    ensures
        trim_end_chars(s).len() <= s.len(),
        trim_end_chars(s) =~= s.subrange(0, trim_end_chars(s).len() as int),
        trim_end_chars(s).len() == 0 || !is_unicode_ws(trim_end_chars(s).last()),
        s.len() > 0 && !is_unicode_ws(s[0]) ==> trim_end_chars(s).len() > 0,
    decreases s.len(),
{
    if s.len() > 0 && is_unicode_ws(s.last()) {
        lemma_trim_end_shape(s.drop_last());
    }
}

/// Trimming a text that is already trimmed changes nothing.
pub proof fn law_trim_idempotent(t: Seq<char>)
    ensures
        trim_chars(trim_chars(t)) == trim_chars(t),
{
    let a = trim_start_chars(t);
    let r = trim_end_chars(a);
    lemma_trim_start_shape(t);
    lemma_trim_end_shape(a);
    if r.len() > 0 {
        assert(r[0] == a[0]);
    }
    assert(trim_start_chars(r) == r);
    assert(trim_end_chars(r) == r);
}

/// Surrounding whitespace does not change what a content model declares:
/// reading the trimmed text gives the same model, or the same error.
pub proof fn law_content_model_ignores_surrounding_space(t: Seq<char>)
    ensures
        content_model_of(trim_chars(t)) == content_model_of(t),
{
    law_trim_idempotent(t);
}

proof fn lemma_encode_ascii_char(c: char, b: u8)
    requires
        c as u32 == b as u32,
        b < 0x80,
    ensures
        vstd::utf8::encode_utf8(seq![c]) == seq![b],
{
    let v = c as u32;
    assert((v & 0x7f) == v) by (bit_vector)
        requires
            v < 0x80,
    ;
    assert(seq![c].drop_first() =~= Seq::<char>::empty());
    assert(vstd::utf8::encode_utf8(Seq::<char>::empty()) =~= Seq::<u8>::empty());
    assert(vstd::utf8::has_width_1_encoding(v));
    assert(vstd::utf8::leading_byte_width_1(v) == b);
    assert(vstd::utf8::encode_scalar(v) =~= seq![b]);
    assert(vstd::utf8::encode_utf8(seq![c]) =~= seq![b]);
}

/// The text that a quantifier is written as is read back as that quantifier,
/// and read whole.
pub proof fn law_quantifier_text_reads_back(q: Quantifier)
    ensures
        cm_quantifier(vstd::utf8::encode_utf8(quant_text(q)), 0) == (q, quant_text(q).len() as int),
{
    lemma_encode_ascii_char('?', 0x3fu8);
    lemma_encode_ascii_char('*', 0x2au8);
    lemma_encode_ascii_char('+', 0x2bu8);
}

/// Some entry of `es` is held under `k`.
pub open spec fn has_key(es: Seq<(Seq<char>, SpecElement)>, k: Seq<char>) -> bool {
    exists|i: int| 0 <= i < es.len() && #[trigger] es[i].0 == k
}

proof fn lemma_map_insert_keys(es: Seq<(Seq<char>, SpecElement)>, k: Seq<char>, v: SpecElement, x: Seq<char>)
    ensures
        has_key(map_insert(es, k, v), x) <==> has_key(es, x) || x == k,
{
    lemma_key_index_some(es, k);
    let m = map_insert(es, k, v);
    match key_index(es, k) {
        Some(i) => {
            if has_key(es, x) {
                let j = choose|j: int| 0 <= j < es.len() && #[trigger] es[j].0 == x;
                assert(m[j].0 == x);
            }
            if x == k {
                assert(m[i].0 == x);
            }
            if has_key(m, x) {
                let j = choose|j: int| 0 <= j < m.len() && #[trigger] m[j].0 == x;
                assert(es[j].0 == x);
            }
        },
        None => {
            if has_key(es, x) {
                let j = choose|j: int| 0 <= j < es.len() && #[trigger] es[j].0 == x;
                assert(m[j].0 == x);
            }
            if x == k {
                assert(m[es.len() as int].0 == x);
            }
            if has_key(m, x) {
                let j = choose|j: int| 0 <= j < m.len() && #[trigger] m[j].0 == x;
                if j < es.len() {
                    assert(es[j].0 == x);
                }
            }
        },
    }
}

proof fn lemma_insert_elements_keys(
    es: Seq<(Seq<char>, SpecElement)>,
    els: Seq<SpecElement>,
    x: Seq<char>,
)
    ensures
        has_key(insert_elements(es, els), x) <==> has_key(es, x) || exists|j: int|
            0 <= j < els.len() && #[trigger] els[j].name == x,
    decreases els.len(),
{
    if els.len() > 0 {
        let init = els.drop_last();
        lemma_insert_elements_keys(es, init, x);
        lemma_map_insert_keys(insert_elements(es, init), els.last().name, els.last(), x);
        if exists|j: int| 0 <= j < els.len() && #[trigger] els[j].name == x {
            let j = choose|j: int| 0 <= j < els.len() && #[trigger] els[j].name == x;
            if j < init.len() {
                assert(init[j].name == x);
            }
        }
        if exists|j: int| 0 <= j < init.len() && #[trigger] init[j].name == x {
            let j = choose|j: int| 0 <= j < init.len() && #[trigger] init[j].name == x;
            assert(els[j].name == x);
        }
    }
}

proof fn lemma_attach_attlists_keys(
    es: Seq<(Seq<char>, SpecElement)>,
    als: Seq<(Seq<char>, Seq<SpecAttribute>)>,
    x: Seq<char>,
)
    ensures
        has_key(attach_attlists(es, als), x) <==> has_key(es, x) || exists|j: int|
            0 <= j < als.len() && #[trigger] als[j].0 == x,
    decreases als.len(),
{
    if als.len() > 0 {
        let init = als.drop_last();
        lemma_attach_attlists_keys(es, init, x);
        let m = attach_attlists(es, init);
        let r = attach_attlists(es, als);
        let name = als.last().0;
        lemma_key_index_some(m, name);
        if exists|j: int| 0 <= j < als.len() && #[trigger] als[j].0 == x {
            let j = choose|j: int| 0 <= j < als.len() && #[trigger] als[j].0 == x;
            if j < init.len() {
                assert(init[j].0 == x);
            }
        }
        if exists|j: int| 0 <= j < init.len() && #[trigger] init[j].0 == x {
            let j = choose|j: int| 0 <= j < init.len() && #[trigger] init[j].0 == x;
            assert(als[j].0 == x);
        }
        match key_index(m, name) {
            Some(i) => {
                if has_key(m, x) {
                    let j = choose|j: int| 0 <= j < m.len() && #[trigger] m[j].0 == x;
                    assert(r[j].0 == x);
                }
                if x == name {
                    assert(r[i].0 == x);
                }
                if has_key(r, x) {
                    let j = choose|j: int| 0 <= j < r.len() && #[trigger] r[j].0 == x;
                    assert(m[j].0 == x);
                }
            },
            None => {
                if has_key(m, x) {
                    let j = choose|j: int| 0 <= j < m.len() && #[trigger] m[j].0 == x;
                    assert(r[j].0 == x);
                }
                if x == name {
                    assert(r[m.len() as int].0 == x);
                }
                if has_key(r, x) {
                    let j = choose|j: int| 0 <= j < r.len() && #[trigger] r[j].0 == x;
                    if j < m.len() {
                        assert(m[j].0 == x);
                    }
                }
            },
        }
    }
}

/// A parsed DTD holds an element under exactly the names that its element
/// declarations and its attribute lists give, once parameter entities are
/// expanded: an attribute list for an undeclared element adds that element.
pub proof fn law_dtd_holds_declared_names(text: Seq<char>, x: Seq<char>)
    requires
        dtd_of(text) is Ok,
    ensures
        ({
            let src = expanded(text, entities_of(text)->Ok_0);
            let els = elements_of(src)->Ok_0;
            let als = attlists_of(src)->Ok_0;
            has_key(dtd_of(text)->Ok_0.0, x) <==> (exists|j: int|
                0 <= j < els.len() && #[trigger] els[j].name == x) || (exists|j: int|
                0 <= j < als.len() && #[trigger] als[j].0 == x)
        }),
{
    let src = expanded(text, entities_of(text)->Ok_0);
    let els = elements_of(src)->Ok_0;
    let als = attlists_of(src)->Ok_0;
    lemma_insert_elements_keys(seq![], els, x);
    lemma_attach_attlists_keys(insert_elements(seq![], els), als, x);
}

/// The attributes of every attribute list for `x`, in order.
pub open spec fn attrs_for(als: Seq<(Seq<char>, Seq<SpecAttribute>)>, x: Seq<char>) -> Seq<
    SpecAttribute,
>
    decreases als.len(),
{
    if als.len() == 0 {
        seq![]
    } else {
        attrs_for(als.drop_last(), x) + if als.last().0 == x {
            als.last().1
        } else {
            seq![]
        }
    }
}

proof fn lemma_attrs_for_absent(als: Seq<(Seq<char>, Seq<SpecAttribute>)>, x: Seq<char>)
    requires
        forall|j: int| 0 <= j < als.len() ==> #[trigger] als[j].0 != x,
    ensures
        attrs_for(als, x) == Seq::<SpecAttribute>::empty(),
    decreases als.len(),
{
    if als.len() > 0 {
        let init = als.drop_last();
        assert forall|j: int| 0 <= j < init.len() implies #[trigger] init[j].0 != x by {
            assert(init[j] == als[j]);
        }
        lemma_attrs_for_absent(init, x);
        assert(als[als.len() - 1].0 != x);
        assert(attrs_for(als, x) =~= Seq::<SpecAttribute>::empty());
    }
}

proof fn lemma_find_key_none(es: Seq<(Seq<char>, SpecElement)>, k: Seq<char>, p: int)
    requires
        0 <= p,
        find_key(es, k, p) is None,
    ensures
        forall|j: int| p <= j < es.len() ==> #[trigger] es[j].0 != k,
    decreases es.len() - p,
{
    if p < es.len() {
        lemma_find_key_none(es, k, p + 1);
    }
}

/// Each element has no attributes yet and no name occurs twice.
spec fn bare_and_unique(es: Seq<(Seq<char>, SpecElement)>) -> bool {
    &&& keys_unique(es)
    &&& forall|i: int| 0 <= i < es.len() ==> (#[trigger] es[i]).1.attributes.len() == 0
}

proof fn lemma_elements_bare(b: Seq<u8>, p: int)
    requires
        0 <= p <= b.len(),
    ensures
        elements_from(b, p) matches Ok(els) ==> forall|j: int|
            0 <= j < els.len() ==> (#[trigger] els[j]).attributes.len() == 0,
    decreases b.len() - p,
{
    lemma_find_from(b, p, element_decl());
    match find_from(b, p, element_decl()) {
        None => {},
        Some(idx) => {
            lemma_closing_angle(b, idx + 9);
            match closing_angle(b, idx + 9) {
                None => {},
                Some(end) => {
                    lemma_elements_bare(b, end + 1);
                    match element_body(b, idx + 9, end) {
                        Err(_) => {},
                        Ok(el) => {
                            match elements_from(b, end + 1) {
                                Err(_) => {},
                                Ok(rest) => {
                                    let els = seq![el] + rest;
                                    assert forall|j: int| 0 <= j < els.len() implies (
                                    #[trigger] els[j]).attributes.len() == 0 by {
                                        if j > 0 {
                                            assert(els[j] == rest[j - 1]);
                                        }
                                    }
                                },
                            }
                        },
                    }
                },
            }
        },
    }
}

proof fn lemma_map_insert_bare(es: Seq<(Seq<char>, SpecElement)>, k: Seq<char>, v: SpecElement)
    requires
        bare_and_unique(es),
        v.attributes.len() == 0,
    ensures
        bare_and_unique(map_insert(es, k, v)),
{
    lemma_key_index_some(es, k);
    if key_index(es, k) is None {
        lemma_find_key_none(es, k, 0);
    }
}

proof fn lemma_insert_elements_bare(els: Seq<SpecElement>)
    requires
        forall|j: int| 0 <= j < els.len() ==> (#[trigger] els[j]).attributes.len() == 0,
    ensures
        bare_and_unique(insert_elements(seq![], els)),
    decreases els.len(),
{
    if els.len() > 0 {
        let init = els.drop_last();
        assert forall|j: int| 0 <= j < init.len() implies (#[trigger] init[j]).attributes.len()
            == 0 by {
            assert(init[j] == els[j]);
        }
        lemma_insert_elements_bare(init);
        lemma_map_insert_bare(insert_elements(seq![], init), els.last().name, els.last());
    }
}

proof fn lemma_attach_attrs(
    es: Seq<(Seq<char>, SpecElement)>,
    als: Seq<(Seq<char>, Seq<SpecAttribute>)>,
)
    requires
        bare_and_unique(es),
    ensures
        keys_unique(attach_attlists(es, als)),
        forall|i: int|
            0 <= i < attach_attlists(es, als).len() ==> (#[trigger] attach_attlists(es, als)[i]).1.attributes
                == attrs_for(als, attach_attlists(es, als)[i].0),
    decreases als.len(),
{
    if als.len() == 0 {
        assert forall|i: int| 0 <= i < es.len() implies (#[trigger] es[i]).1.attributes == attrs_for(
            als,
            es[i].0,
        ) by {
            assert(es[i].1.attributes =~= Seq::<SpecAttribute>::empty());
        }
    } else {
        let init = als.drop_last();
        lemma_attach_attrs(es, init);
        let m = attach_attlists(es, init);
        let r = attach_attlists(es, als);
        let (name, attrs) = als.last();
        lemma_key_index_some(m, name);
        match key_index(m, name) {
            Some(i) => {
                assert forall|j: int| 0 <= j < r.len() implies (#[trigger] r[j]).1.attributes
                    == attrs_for(als, r[j].0) by {
                    if j != i {
                        assert(m[j].0 != name);
                        assert(attrs_for(als, r[j].0) =~= attrs_for(init, m[j].0));
                    }
                }
            },
            None => {
                lemma_find_key_none(m, name, 0);
                assert(!has_key(m, name));
                lemma_attach_attlists_keys(es, init, name);
                assert forall|j: int| 0 <= j < init.len() implies #[trigger] init[j].0 != name by {
                    if init[j].0 == name {
                        assert(exists|t: int| 0 <= t < init.len() && #[trigger] init[t].0 == name);
                    }
                }
                lemma_attrs_for_absent(init, name);
                assert forall|j: int| 0 <= j < r.len() implies (#[trigger] r[j]).1.attributes
                    == attrs_for(als, r[j].0) by {
                    if j < m.len() {
                        assert(r[j] == m[j]);
                        assert(m[j].0 != name);
                        assert(attrs_for(als, r[j].0) =~= attrs_for(init, m[j].0));
                    } else {
                        assert(attrs_for(als, name) =~= attrs);
                    }
                }
            },
        }
    }
}

/// In a parsed DTD, the attributes of each element are those of every
/// attribute list for its name, in the order the lists come, once parameter
/// entities are expanded.
pub proof fn law_dtd_attributes(text: Seq<char>, i: int)
    requires
        dtd_of(text) is Ok,
        0 <= i < dtd_of(text)->Ok_0.0.len(),
    ensures
        ({
            let es = dtd_of(text)->Ok_0.0;
            let als = attlists_of(expanded(text, entities_of(text)->Ok_0))->Ok_0;
            es[i].1.attributes == attrs_for(als, es[i].0)
        }),
{
    let src = expanded(text, entities_of(text)->Ok_0);
    let els = elements_of(src)->Ok_0;
    let als = attlists_of(src)->Ok_0;
    lemma_elements_bare(vstd::utf8::encode_utf8(src), 0);
    lemma_insert_elements_bare(els);
    lemma_attach_attrs(insert_elements(seq![], els), als);
}

/// The content model of the last element declaration for `x`; `ANY` when
/// there is none.
pub open spec fn declared_content(els: Seq<SpecElement>, x: Seq<char>) -> SpecContent
    decreases els.len(),
{
    if els.len() == 0 {
        SpecContent::Any
    } else if els.last().name == x {
        els.last().content
    } else {
        declared_content(els.drop_last(), x)
    }
}

proof fn lemma_declared_content_absent(els: Seq<SpecElement>, x: Seq<char>)
    requires
        forall|j: int| 0 <= j < els.len() ==> #[trigger] els[j].name != x,
    ensures
        declared_content(els, x) == SpecContent::Any,
    decreases els.len(),
{
    if els.len() > 0 {
        let init = els.drop_last();
        assert forall|j: int| 0 <= j < init.len() implies #[trigger] init[j].name != x by {
            assert(init[j] == els[j]);
        }
        assert(els[els.len() - 1].name != x);
        lemma_declared_content_absent(init, x);
    }
}

/// Each element is held under its own name, with the content that the last
/// declaration for that name gives it.
spec fn named_as_declared(es: Seq<(Seq<char>, SpecElement)>, els: Seq<SpecElement>) -> bool {
    &&& keys_unique(es)
    &&& forall|i: int|
        0 <= i < es.len() ==> (#[trigger] es[i]).1.name == es[i].0 && es[i].1.content
            == declared_content(els, es[i].0)
}

proof fn lemma_insert_elements_named(els: Seq<SpecElement>)
    ensures
        named_as_declared(insert_elements(seq![], els), els),
    decreases els.len(),
{
    if els.len() > 0 {
        let init = els.drop_last();
        let el = els.last();
        lemma_insert_elements_named(init);
        let m = insert_elements(seq![], init);
        let r = insert_elements(seq![], els);
        lemma_key_index_some(m, el.name);
        if key_index(m, el.name) is None {
            lemma_find_key_none(m, el.name, 0);
        }
        assert forall|j: int| 0 <= j < r.len() implies (#[trigger] r[j]).1.name == r[j].0
            && r[j].1.content == declared_content(els, r[j].0) by {
            if r[j].0 != el.name {
                assert(r[j] == m[j]);
            }
        }
    }
}

proof fn lemma_attach_named(
    es: Seq<(Seq<char>, SpecElement)>,
    els: Seq<SpecElement>,
    als: Seq<(Seq<char>, Seq<SpecAttribute>)>,
)
    requires
        named_as_declared(es, els),
        forall|x: Seq<char>| !has_key(es, x) ==> #[trigger] declared_content(els, x) == SpecContent::Any,
    ensures
        named_as_declared(attach_attlists(es, als), els),
    decreases als.len(),
{
    if als.len() > 0 {
        let init = als.drop_last();
        lemma_attach_named(es, els, init);
        let m = attach_attlists(es, init);
        let r = attach_attlists(es, als);
        let name = als.last().0;
        lemma_key_index_some(m, name);
        if key_index(m, name) is None {
            lemma_find_key_none(m, name, 0);
            assert(!has_key(m, name));
            lemma_attach_attlists_keys(es, init, name);
            assert(declared_content(els, name) == SpecContent::Any);
            assert forall|j: int| 0 <= j < r.len() implies (#[trigger] r[j]).1.name == r[j].0
                && r[j].1.content == declared_content(els, r[j].0) by {
                if j < m.len() {
                    assert(r[j] == m[j]);
                }
            }
        }
    }
}

/// In a parsed DTD, each element is held under its own name, and its content
/// model is that of the last element declaration for that name, or `ANY` when
/// only attribute lists name it.
pub proof fn law_dtd_contents(text: Seq<char>, i: int)
    requires
        dtd_of(text) is Ok,
        0 <= i < dtd_of(text)->Ok_0.0.len(),
    ensures
        ({
            let es = dtd_of(text)->Ok_0.0;
            let els = elements_of(expanded(text, entities_of(text)->Ok_0))->Ok_0;
            es[i].1.name == es[i].0 && es[i].1.content == declared_content(els, es[i].0)
        }),
{
    let src = expanded(text, entities_of(text)->Ok_0);
    let els = elements_of(src)->Ok_0;
    let als = attlists_of(src)->Ok_0;
    let base = insert_elements(seq![], els);
    lemma_insert_elements_named(els);
    assert forall|x: Seq<char>| !has_key(base, x) implies #[trigger] declared_content(els, x)
        == SpecContent::Any by {
        lemma_insert_elements_keys(seq![], els, x);
        assert forall|j: int| 0 <= j < els.len() implies #[trigger] els[j].name != x by {
            if els[j].name == x {
                assert(exists|t: int| 0 <= t < els.len() && #[trigger] els[t].name == x);
            }
        }
        lemma_declared_content_absent(els, x);
    }
    lemma_attach_named(base, els, als);
}

/// `acc` followed by each name of `names` that is not already there, in
/// order of first appearance.
pub open spec fn add_new(acc: Seq<Seq<char>>, names: Seq<Seq<char>>) -> Seq<Seq<char>>
    decreases names.len(),
{
    if names.len() == 0 {
        acc
    } else {
        let r = add_new(acc, names.drop_last());
        if r.contains(names.last()) {
            r
        } else {
            r.push(names.last())
        }
    }
}

/// The keys of the entries, in order.
pub open spec fn entry_keys(es: Seq<(Seq<char>, SpecElement)>) -> Seq<Seq<char>> {
    es.map_values(|e: (Seq<char>, SpecElement)| e.0)
}

proof fn lemma_map_insert_order(es: Seq<(Seq<char>, SpecElement)>, k: Seq<char>, v: SpecElement)
    ensures
        entry_keys(map_insert(es, k, v)) == if entry_keys(es).contains(k) {
            entry_keys(es)
        } else {
            entry_keys(es).push(k)
        },
{
    lemma_key_index_some(es, k);
    let m = map_insert(es, k, v);
    match key_index(es, k) {
        Some(i) => {
            assert(entry_keys(es)[i] == k);
            assert(entry_keys(m) =~= entry_keys(es));
        },
        None => {
            lemma_find_key_none(es, k, 0);
            assert(!entry_keys(es).contains(k)) by {
                if entry_keys(es).contains(k) {
                    let j = choose|j: int| 0 <= j < entry_keys(es).len() && entry_keys(es)[j] == k;
                    assert(es[j].0 == k);
                }
            }
            assert(entry_keys(m) =~= entry_keys(es).push(k));
        },
    }
}

proof fn lemma_insert_elements_order(es: Seq<(Seq<char>, SpecElement)>, els: Seq<SpecElement>)
    ensures
        entry_keys(insert_elements(es, els)) == add_new(
            entry_keys(es),
            els.map_values(|e: SpecElement| e.name),
        ),
    decreases els.len(),
{
    if els.len() > 0 {
        let init = els.drop_last();
        lemma_insert_elements_order(es, init);
        lemma_map_insert_order(insert_elements(es, init), els.last().name, els.last());
        let names = els.map_values(|e: SpecElement| e.name);
        assert(names.drop_last() =~= init.map_values(|e: SpecElement| e.name));
    }
}

proof fn lemma_attach_attlists_order(
    es: Seq<(Seq<char>, SpecElement)>,
    als: Seq<(Seq<char>, Seq<SpecAttribute>)>,
)
    ensures
        entry_keys(attach_attlists(es, als)) == add_new(
            entry_keys(es),
            als.map_values(|a: (Seq<char>, Seq<SpecAttribute>)| a.0),
        ),
    decreases als.len(),
{
    if als.len() > 0 {
        let init = als.drop_last();
        lemma_attach_attlists_order(es, init);
        let m = attach_attlists(es, init);
        let r = attach_attlists(es, als);
        let name = als.last().0;
        let names = als.map_values(|a: (Seq<char>, Seq<SpecAttribute>)| a.0);
        assert(names.drop_last() =~= init.map_values(|a: (Seq<char>, Seq<SpecAttribute>)| a.0));
        lemma_key_index_some(m, name);
        match key_index(m, name) {
            Some(i) => {
                assert(entry_keys(m)[i] == name);
                assert(entry_keys(r) =~= entry_keys(m));
            },
            None => {
                lemma_find_key_none(m, name, 0);
                assert(!entry_keys(m).contains(name)) by {
                    if entry_keys(m).contains(name) {
                        let j = choose|j: int| 0 <= j < entry_keys(m).len() && entry_keys(m)[j] == name;
                        assert(m[j].0 == name);
                    }
                }
                assert(entry_keys(r) =~= entry_keys(m).push(name));
            },
        }
    }
}

/// In a parsed DTD the elements come in the order their names first appear
/// in element declarations, followed by the names that only attribute lists
/// give, in the order they first appear there.
pub proof fn law_dtd_order(text: Seq<char>)
    requires
        dtd_of(text) is Ok,
    ensures
        ({
            let src = expanded(text, entities_of(text)->Ok_0);
            let els = elements_of(src)->Ok_0;
            let als = attlists_of(src)->Ok_0;
            entry_keys(dtd_of(text)->Ok_0.0) == add_new(
                add_new(seq![], els.map_values(|e: SpecElement| e.name)),
                als.map_values(|a: (Seq<char>, Seq<SpecAttribute>)| a.0),
            )
        }),
{
    let src = expanded(text, entities_of(text)->Ok_0);
    let els = elements_of(src)->Ok_0;
    let als = attlists_of(src)->Ok_0;
    lemma_insert_elements_order(seq![], els);
    assert(entry_keys(seq![]) =~= Seq::<Seq<char>>::empty());
    lemma_attach_attlists_order(insert_elements(seq![], els), als);
}

// ---------------------------------------------------------------------------
// One element declaration
// ---------------------------------------------------------------------------

proof fn lemma_encode_concat(a: Seq<char>, b: Seq<char>)
    ensures
        vstd::utf8::encode_utf8(a + b) == vstd::utf8::encode_utf8(a) + vstd::utf8::encode_utf8(b),
    decreases a.len(),
{
    if a.len() == 0 {
        assert(a + b =~= b);
        assert(vstd::utf8::encode_utf8(a) =~= Seq::<u8>::empty());
        assert(Seq::<u8>::empty() + vstd::utf8::encode_utf8(b) =~= vstd::utf8::encode_utf8(b));
    } else {
        assert((a + b).drop_first() =~= a.drop_first() + b);
        assert((a + b)[0] == a[0]);
        lemma_encode_concat(a.drop_first(), b);
        assert(vstd::utf8::encode_utf8(a + b) =~= vstd::utf8::encode_scalar(a[0] as u32) + (
        vstd::utf8::encode_utf8(a.drop_first()) + vstd::utf8::encode_utf8(b)));
    }
}

/// The bytes of one character: the character itself when it is ASCII, else
/// bytes of `0x80` and above.
proof fn lemma_scalar_bytes(c: char)
    ensures
        ({
            let e = vstd::utf8::encode_scalar(c as u32);
            &&& (c as u32) < 0x80 ==> e == seq![c as u32 as u8]
            &&& (c as u32) >= 0x80 ==> forall|k: int| 0 <= k < e.len() ==> #[trigger] e[k] >= 0x80
        }),
{
    let v = c as u32;
    assert(v < 0x80 ==> (v & 0x7f) == v) by (bit_vector);
    assert(0xC0 | ((v >> 6) & 0x1F) as u8 >= 0x80) by (bit_vector);
    assert(0xE0 | ((v >> 12) & 0x0F) as u8 >= 0x80) by (bit_vector);
    assert(0xF0 | ((v >> 18) & 0x7) as u8 >= 0x80) by (bit_vector);
    assert(0x80 | (v & 0x3F) as u8 >= 0x80) by (bit_vector);
    assert(0x80 | ((v >> 6) & 0x3F) as u8 >= 0x80) by (bit_vector);
    assert(0x80 | ((v >> 12) & 0x3F) as u8 >= 0x80) by (bit_vector);
}

/// A text none of whose characters is the ASCII character `x` has no byte `x`.
proof fn lemma_encode_avoids(s: Seq<char>, x: u8)
    requires
        x < 0x80,
        forall|i: int| 0 <= i < s.len() ==> (#[trigger] s[i]) as u32 != x as u32,
    ensures
        forall|k: int|
            0 <= k < vstd::utf8::encode_utf8(s).len() ==> #[trigger] vstd::utf8::encode_utf8(s)[k] != x,
    decreases s.len(),
{
    if s.len() > 0 {
        let t = s.drop_first();
        assert forall|i: int| 0 <= i < t.len() implies (#[trigger] t[i]) as u32 != x as u32 by {
            assert(t[i] == s[i + 1]);
        }
        lemma_encode_avoids(t, x);
        lemma_scalar_bytes(s[0]);
        let e = vstd::utf8::encode_scalar(s[0] as u32);
        let whole = vstd::utf8::encode_utf8(s);
        assert(whole == e + vstd::utf8::encode_utf8(t));
        assert forall|k: int| 0 <= k < whole.len() implies #[trigger] whole[k] != x by {
            if k < e.len() {
                assert(whole[k] == e[k]);
            } else {
                assert(whole[k] == vstd::utf8::encode_utf8(t)[k - e.len()]);
            }
        }
    }
}

proof fn lemma_trim_start_concat(x: Seq<char>, y: Seq<char>)
    ensures
        trim_start_chars(x + y) == if trim_start_chars(x).len() > 0 {
            trim_start_chars(x) + y
        } else {
            trim_start_chars(y)
        },
    decreases x.len(),
{
    if x.len() == 0 {
        assert(x + y =~= y);
    } else {
        assert((x + y)[0] == x[0]);
        if is_unicode_ws(x[0]) {
            assert((x + y).drop_first() =~= x.drop_first() + y);
            lemma_trim_start_concat(x.drop_first(), y);
        }
    }
}

proof fn lemma_trim_end_concat(x: Seq<char>, y: Seq<char>)
    ensures
        trim_end_chars(x + y) == if trim_end_chars(y).len() > 0 {
            x + trim_end_chars(y)
        } else {
            trim_end_chars(x)
        },
    decreases y.len(),
{
    if y.len() == 0 {
        assert(x + y =~= x);
    } else {
        assert((x + y).last() == y.last());
        if is_unicode_ws(y.last()) {
            assert((x + y).drop_last() =~= x + y.drop_last());
            lemma_trim_end_concat(x, y.drop_last());
        }
    }
}

proof fn lemma_trim_end_idempotent(x: Seq<char>)
    ensures
        trim_end_chars(trim_end_chars(x)) == trim_end_chars(x),
{
    lemma_trim_end_shape(x);
}

proof fn lemma_trims_commute(c: Seq<char>)
    ensures
        trim_start_chars(trim_end_chars(c)) == trim_end_chars(trim_start_chars(c)),
    decreases c.len(),
{
    if c.len() > 0 {
        let init = c.drop_last();
        let z = c.last();
        assert(c =~= init + seq![z]);
        lemma_trim_start_concat(init, seq![z]);
        assert(seq![z].drop_first() =~= Seq::<char>::empty());
        assert(trim_start_chars(Seq::<char>::empty()) == Seq::<char>::empty());
        if is_unicode_ws(z) {
            lemma_trims_commute(init);
            if trim_start_chars(init).len() > 0 {
                let t = trim_start_chars(init);
                assert((t + seq![z]).drop_last() =~= t);
            } else {
                assert(trim_end_chars(Seq::<char>::empty()) == Seq::<char>::empty());
            }
        } else {
            let t = trim_start_chars(c);
            if trim_start_chars(init).len() > 0 {
                assert((trim_start_chars(init) + seq![z]).last() == z);
            }
            assert(t.len() > 0 && t.last() == z);
        }
    }
}

proof fn lemma_all_ws(c: Seq<char>)
    requires
        trim_end_chars(c).len() == 0,
    ensures
        trim_start_chars(c).len() == 0,
    decreases c.len(),
{
    if c.len() > 0 {
        assert(is_unicode_ws(c.last()));
        lemma_all_ws(c.drop_last());
        assert(c =~= c.drop_last() + seq![c.last()]);
        lemma_trim_start_concat(c.drop_last(), seq![c.last()]);
        assert(seq![c.last()].drop_first() =~= Seq::<char>::empty());
        assert(trim_start_chars(Seq::<char>::empty()) == Seq::<char>::empty());
        assert(seq![c.last()][0] == c.last());
    }
}

proof fn lemma_encode_ascii(s: Seq<char>)
    requires
        forall|i: int| 0 <= i < s.len() ==> ((#[trigger] s[i]) as u32) < 0x80,
    ensures
        vstd::utf8::encode_utf8(s) == Seq::new(s.len(), |i: int| s[i] as u32 as u8),
    decreases s.len(),
{
    if s.len() > 0 {
        let t = s.drop_first();
        assert forall|i: int| 0 <= i < t.len() implies ((#[trigger] t[i]) as u32) < 0x80 by {
            assert(t[i] == s[i + 1]);
        }
        lemma_encode_ascii(t);
        lemma_scalar_bytes(s[0]);
        assert(vstd::utf8::encode_utf8(s) =~= Seq::new(s.len(), |i: int| s[i] as u32 as u8));
    }
}

proof fn lemma_plain_closing(b: Seq<u8>, i: int, e: int)
    requires
        0 <= i <= e < b.len(),
        b[e] == 0x3eu8,
        forall|k: int| i <= k < e ==> #[trigger] b[k] != 0x22u8 && b[k] != 0x27u8 && b[k] != 0x3eu8,
    ensures
        closing_angle(b, i) == Some(e),
    decreases e - i,
{
    if i < e {
        lemma_plain_closing(b, i + 1, e);
    }
}

proof fn lemma_first_ws_at(b: Seq<u8>, p: int, i: int)
    requires
        0 <= p <= i < b.len(),
        is_ws(b[i]),
        forall|k: int| p <= k < i ==> !is_ws(#[trigger] b[k]),
    ensures
        first_ws(b, p) == Some(i),
    decreases i - p,
{
    if p < i {
        lemma_first_ws_at(b, p + 1, i);
    }
}

proof fn lemma_first_ws_none(b: Seq<u8>, p: int)
    requires
        0 <= p,
        forall|k: int| p <= k < b.len() ==> !is_ws(#[trigger] b[k]),
    ensures
        first_ws(b, p) is None,
    decreases b.len() - p,
{
    if p < b.len() {
        lemma_first_ws_none(b, p + 1);
    }
}

/// `<!ELEMENT`
pub open spec fn element_keyword() -> Seq<char> {
    seq!['<', '!', 'E', 'L', 'E', 'M', 'E', 'N', 'T']
}

proof fn lemma_keyword_bytes()
    ensures
        vstd::utf8::encode_utf8(element_keyword()) == element_decl(),
{
    let k = element_keyword();
    assert forall|i: int| 0 <= i < k.len() implies ((#[trigger] k[i]) as u32) < 0x80 by {}
    lemma_encode_ascii(k);
    assert(vstd::utf8::encode_utf8(k) =~= element_decl());
}

proof fn lemma_no_ws_bytes(n: Seq<char>)
    requires
        forall|i: int| 0 <= i < n.len() ==> !is_unicode_ws(#[trigger] n[i]),
    ensures
        forall|k: int|
            0 <= k < vstd::utf8::encode_utf8(n).len() ==> !is_ws(
                #[trigger] vstd::utf8::encode_utf8(n)[k],
            ),
{
    assert forall|i: int| 0 <= i < n.len() implies (#[trigger] n[i]) as u32 != 0x20u32 && n[i] as u32
        != 0x09u32 && n[i] as u32 != 0x0au32 && n[i] as u32 != 0x0cu32 && n[i] as u32 != 0x0du32 by {
        assert(!is_unicode_ws(n[i]));
        let v = n[i] as u32;
        vstd::utf8::char_u32_cast(n[i], v);
        assert(' ' as u32 == 0x20u32);
        assert('\u{9}' as u32 == 0x09u32);
        assert('\u{d}' as u32 == 0x0du32);
    }
    lemma_encode_avoids(n, 0x20u8);
    lemma_encode_avoids(n, 0x09u8);
    lemma_encode_avoids(n, 0x0au8);
    lemma_encode_avoids(n, 0x0cu8);
    lemma_encode_avoids(n, 0x0du8);
}

/// `<!ELEMENT n c>`
pub open spec fn one_declaration(n: Seq<char>, c: Seq<char>) -> Seq<char> {
    element_keyword() + seq![' '] + n + seq![' '] + c + seq!['>']
}

/// ` n c`, the text between the keyword and the closing `>`.
spec fn declaration_body(n: Seq<char>, c: Seq<char>) -> Seq<char> {
    seq![' '] + (n + seq![' '] + c)
}

/// The declaration is found at the start, closed by its last byte, its body is
/// ` n c`, and nothing follows it.
proof fn lemma_declaration_frame(n: Seq<char>, c: Seq<char>)
    requires
        forall|i: int|
            0 <= i < n.len() ==> #[trigger] n[i] != '>' && n[i] != '"' && n[i] != '\'',
        forall|i: int| 0 <= i < c.len() ==> #[trigger] c[i] != '>' && c[i] != '"' && c[i] != '\'',
    ensures
        ({
            let b = vstd::utf8::encode_utf8(one_declaration(n, c));
            let mid = declaration_body(n, c);
            let big_l = 9 + vstd::utf8::encode_utf8(mid).len() as int;
            &&& find_from(b, 0, element_decl()) == Some(0int)
            &&& closing_angle(b, 9) == Some(big_l)
            &&& text_between(b, 9, big_l) == mid
            &&& big_l + 1 == b.len()
        }),
{
    let sp = seq![' '];
    let gt = seq!['>'];
    let mid = declaration_body(n, c);
    let text = one_declaration(n, c);
    assert(text =~= element_keyword() + mid + gt);
    lemma_encode_concat(element_keyword() + mid, gt);
    lemma_encode_concat(element_keyword(), mid);
    lemma_keyword_bytes();
    lemma_encode_ascii(gt);
    let em = vstd::utf8::encode_utf8(mid);
    let b = vstd::utf8::encode_utf8(text);
    let big_l: int = 9 + em.len() as int;
    assert(b =~= element_decl() + em + seq![0x3eu8]);
    assert(b[big_l] == 0x3eu8);
    assert(b.subrange(0, 9) =~= element_decl());
    assert forall|i: int| 0 <= i < mid.len() implies (#[trigger] mid[i]) as u32 != 0x22u32 && mid[i]
        as u32 != 0x27u32 && mid[i] as u32 != 0x3eu32 by {
        let v = mid[i] as u32;
        vstd::utf8::char_u32_cast(mid[i], v);
        assert('"' as u32 == 0x22u32);
        assert('\'' as u32 == 0x27u32);
        assert('>' as u32 == 0x3eu32);
        if 1 <= i < 1 + n.len() {
            assert(mid[i] == n[i - 1]);
        } else if i > 1 + n.len() {
            assert(mid[i] == c[i - 2 - n.len()]);
        }
    }
    lemma_encode_avoids(mid, 0x22u8);
    lemma_encode_avoids(mid, 0x27u8);
    lemma_encode_avoids(mid, 0x3eu8);
    assert forall|k: int| 9 <= k < big_l implies #[trigger] b[k] != 0x22u8 && b[k] != 0x27u8 && b[k]
        != 0x3eu8 by {
        assert(b[k] == em[k - 9]);
    }
    lemma_plain_closing(b, 9, big_l);
    vstd::utf8::encode_utf8_decode_utf8(mid);
    assert(b.subrange(9, big_l) =~= em);
}

/// How the body ` n c` splits: into `n` and a rest that reads as `c` does,
/// unless `c` is blank, when it does not split and `c` is no content model.
proof fn lemma_declaration_split(n: Seq<char>, c: Seq<char>)
    requires
        n.len() > 0,
        forall|i: int| 0 <= i < n.len() ==> !is_unicode_ws(#[trigger] n[i]),
    ensures
        ({
            let r = split_word(trim_chars(declaration_body(n, c)));
            &&& trim_end_chars(c).len() > 0 ==> (r matches Ok((nm, rest)) && nm == n && content_model_of(rest)
                == content_model_of(c))
            &&& trim_end_chars(c).len() == 0 ==> r is Err && content_model_of(c) is Err
        }),
{
    let sp = seq![' '];
    let rest = n + sp + c;
    let mid = declaration_body(n, c);
    lemma_trim_start_concat(sp, rest);
    assert(sp.drop_first() =~= Seq::<char>::empty());
    assert(trim_start_chars(Seq::<char>::empty()) == Seq::<char>::empty());
    assert(rest[0] == n[0]);
    assert(trim_start_chars(mid) == rest);
    lemma_trim_end_concat(n + sp, c);
    law_trim_idempotent(mid);
    let t = trim_chars(mid);
    assert(trim_start_chars(n) == n);
    assert(n[n.len() - 1] == n.last());
    assert(trim_end_chars(n) == n);
    assert((n + sp).drop_last() =~= n);
    lemma_no_ws_bytes(n);
    let en = vstd::utf8::encode_utf8(n);
    if trim_end_chars(c).len() > 0 {
        let c2 = trim_end_chars(c);
        assert(t == n + sp + c2);
        lemma_encode_concat(n + sp, c2);
        lemma_encode_concat(n, sp);
        lemma_encode_ascii(sp);
        let cb = vstd::utf8::encode_utf8(t);
        assert(cb =~= en + seq![0x20u8] + vstd::utf8::encode_utf8(c2));
        assert forall|k: int| 0 <= k < en.len() implies !is_ws(#[trigger] cb[k]) by {
            assert(cb[k] == en[k]);
        }
        assert(cb[en.len() as int] == 0x20u8);
        lemma_first_ws_at(cb, 0, en.len() as int);
        vstd::utf8::encode_utf8_decode_utf8(n);
        assert(cb.subrange(0, en.len() as int) =~= en);
        lemma_encode_concat(sp, c2);
        vstd::utf8::encode_utf8_decode_utf8(sp + c2);
        assert(cb.subrange(en.len() as int, cb.len() as int) =~= vstd::utf8::encode_utf8(sp + c2));
        lemma_trim_start_concat(sp, c2);
        lemma_trims_commute(c);
        lemma_trim_end_idempotent(trim_start_chars(c));
        assert(trim_chars(sp + c2) == trim_chars(c));
        law_content_model_ignores_surrounding_space(sp + c2);
    } else {
        assert(t == n);
        lemma_first_ws_none(en, 0);
        lemma_all_ws(c);
        assert(trim_chars(c) == Seq::<char>::empty());
        assert(vstd::utf8::encode_utf8(Seq::<char>::empty()) == Seq::<u8>::empty());
    }
}

/// A single element declaration `<!ELEMENT n c>` is read as the element `n`
/// with the content model that `c` alone is read as, and fails exactly when
/// `c` does; `n` is a name without whitespace, `>` or quotes, and `c` holds no
/// `>` or quotes.
pub proof fn law_one_element_declaration(n: Seq<char>, c: Seq<char>)
    requires
        n.len() > 0,
        forall|i: int|
            0 <= i < n.len() ==> !is_unicode_ws(#[trigger] n[i]) && n[i] != '>' && n[i] != '"'
                && n[i] != '\'',
        forall|i: int| 0 <= i < c.len() ==> #[trigger] c[i] != '>' && c[i] != '"' && c[i] != '\'',
    ensures
        elements_of(one_declaration(n, c)) is Ok <==> content_model_of(c) is Ok,
        content_model_of(c) matches Ok(m) ==> elements_of(one_declaration(n, c)) == Ok::<
            Seq<SpecElement>,
            crate::error::ErrorView,
        >(seq![SpecElement { name: n, content: m, attributes: seq![] }]),
{
    lemma_declaration_frame(n, c);
    lemma_declaration_split(n, c);
    let b = vstd::utf8::encode_utf8(one_declaration(n, c));
    let mid = declaration_body(n, c);
    let big_l = 9 + vstd::utf8::encode_utf8(mid).len() as int;
    assert(find_from(b, big_l + 1, element_decl()) is None);
    assert(elements_from(b, big_l + 1) == Ok::<Seq<SpecElement>, crate::error::ErrorView>(seq![]));
    match content_model_of(c) {
        Ok(m) => {
            let el = SpecElement { name: n, content: m, attributes: seq![] };
            assert(element_body(b, 9, big_l) == Ok::<SpecElement, crate::error::ErrorView>(el));
            assert(seq![el] + Seq::<SpecElement>::empty() =~= seq![el]);
        },
        Err(_) => {},
    }
}

// ---------------------------------------------------------------------------
// What a whole DTD keeps, attribute-type keywords, expansion
// ---------------------------------------------------------------------------

/// A parsed DTD keeps every entity declaration of its text, general and
/// parameter alike, in order: its entity list is exactly what reading the
/// entities of the same text gives.
pub proof fn law_dtd_keeps_every_entity(text: Seq<char>)
    ensures
        dtd_of(text) is Ok ==> entities_of(text) is Ok && dtd_of(text)->Ok_0.1 == entities_of(
            text,
        )->Ok_0,
        entities_of(text) is Err ==> dtd_of(text) == Err::<
            (Seq<(Seq<char>, SpecElement)>, Seq<SpecEntity>),
            crate::error::ErrorView,
        >(entities_of(text)->Err_0),
{
}

/// Every attribute-type keyword is read back as the type it names: the text a
/// type is written as, in capitals or not, reads as that type.
pub proof fn law_attr_type_text_reads_back(t: SpecAttrType)
    requires
        !(t is Enumeration),
    ensures
        attr_type_keyword(attr_type_text(t)) == Some(t),
        attr_type_keyword(upper(attr_type_text(t))) == Some(t),
{
    let k = attr_type_text(t);
    assert(upper(k) =~= k) by {
        assert forall|i: int| 0 <= i < k.len() implies #[trigger] upper(k)[i] == k[i] by {
            assert('A' <= k[i] <= 'Z');
        }
    }
    let cdata = seq!['C', 'D', 'A', 'T', 'A'];
    let id = seq!['I', 'D'];
    let idref = seq!['I', 'D', 'R', 'E', 'F'];
    let idrefs = seq!['I', 'D', 'R', 'E', 'F', 'S'];
    let nmtoken = seq!['N', 'M', 'T', 'O', 'K', 'E', 'N'];
    let nmtokens = seq!['N', 'M', 'T', 'O', 'K', 'E', 'N', 'S'];
    assert(cdata.len() == 5 && id.len() == 2 && idref.len() == 5 && idrefs.len() == 6);
    assert(nmtoken.len() == 7 && nmtokens.len() == 8);
    assert(idref[0] != cdata[0]);
    assert(nmtoken[0] != cdata[0]);
    assert(nmtoken[0] != id[0]);
    assert(nmtoken[0] != idref[0]);
    assert(nmtoken[0] != idrefs[0]);
    assert(nmtokens[0] != idrefs[0]);
    assert(nmtokens[0] != idref[0]);
    assert(nmtokens[0] != cdata[0]);
    assert(nmtokens[0] != id[0]);
    assert(idrefs[0] != cdata[0]);
}

/// Expanding a list of entities is expanding them one after another: the text
/// expanded by `ents` and then `e` alone is the text expanded by `ents`
/// followed by `e`. So each entity works on the text that the earlier ones
/// left, and every one's references are replaced.
pub proof fn law_expansion_composes(text: Seq<char>, ents: Seq<SpecEntity>, e: SpecEntity)
    ensures
        expanded(text, ents.push(e)) == expanded(expanded(text, ents), seq![e]),
{
    let x = expanded(text, ents);
    assert(ents.push(e).drop_last() =~= ents);
    assert(ents.push(e).last() == e);
    assert(seq![e].drop_last() =~= Seq::<SpecEntity>::empty());
    assert(expanded(x, Seq::<SpecEntity>::empty()) == x);
    assert(seq![e].last() == e);
}

// ---------------------------------------------------------------------------
// One internal entity declaration
// ---------------------------------------------------------------------------

/// `<!ENTITY`
pub open spec fn entity_keyword() -> Seq<char> {
    seq!['<', '!', 'E', 'N', 'T', 'I', 'T', 'Y']
}

/// `<!ENTITY n QvQ>`, where `Q` is the quote character `q`.
pub open spec fn one_entity(n: Seq<char>, q: char, v: Seq<char>) -> Seq<char> {
    entity_keyword() + seq![' '] + n + seq![' '] + seq![q] + v + seq![q] + seq!['>']
}

/// `n QvQ`, the trimmed text between the keyword and the closing `>`.
spec fn entity_body_text(n: Seq<char>, q: char, v: Seq<char>) -> Seq<char> {
    n + seq![' '] + (seq![q] + v + seq![q])
}

proof fn lemma_entity_keyword_bytes()
    ensures
        vstd::utf8::encode_utf8(entity_keyword()) == entity_decl(),
{
    let k = entity_keyword();
    assert forall|i: int| 0 <= i < k.len() implies ((#[trigger] k[i]) as u32) < 0x80 by {}
    lemma_encode_ascii(k);
    assert(vstd::utf8::encode_utf8(k) =~= entity_decl());
}

/// `closing_angle` steps over bytes that are neither quotes nor `>`.
proof fn lemma_closing_skip(b: Seq<u8>, i: int, j: int)
    requires
        0 <= i <= j,
        forall|k: int| i <= k < j ==> #[trigger] b[k] != 0x22u8 && b[k] != 0x27u8 && b[k] != 0x3eu8,
        j < b.len(),
    ensures
        closing_angle(b, i) == closing_angle(b, j),
    decreases j - i,
{
    if i < j {
        lemma_closing_skip(b, i + 1, j);
    }
}

proof fn lemma_quote_end_at(b: Seq<u8>, p: int, e: int, q: u8)
    requires
        0 <= p <= e < b.len(),
        b[e] == q,
        forall|k: int| p <= k < e ==> #[trigger] b[k] != q,
    ensures
        quote_end(b, p, q) == e,
    decreases e - p,
{
    if p < e {
        lemma_quote_end_at(b, p + 1, e, q);
    }
}

proof fn lemma_ws_end_at(b: Seq<u8>, p: int, i: int)
    requires
        0 <= p <= i < b.len(),
        is_ws(b[i]),
        forall|k: int| p <= k < i ==> !is_ws(#[trigger] b[k]),
    ensures
        ws_end(b, p) == i,
    decreases i - p,
{
    if p < i {
        lemma_ws_end_at(b, p + 1, i);
    }
}

proof fn lemma_quote_char_bytes(q: char)
    requires
        q == '"' || q == '\'',
    ensures
        vstd::utf8::encode_utf8(seq![q]) == seq![q as u32 as u8],
        (q as u32 as u8) == 0x22u8 || (q as u32 as u8) == 0x27u8,
        q == '"' ==> (q as u32 as u8) == 0x22u8,
        q == '\'' ==> (q as u32 as u8) == 0x27u8,
        (q as u32) < 0x80,
        !is_unicode_ws(q),
{
    assert('"' as u32 == 0x22u32);
    assert('\'' as u32 == 0x27u32);
    lemma_encode_ascii(seq![q]);
    assert(vstd::utf8::encode_utf8(seq![q]) =~= seq![q as u32 as u8]);
}

/// A text without the character `q` has no byte `q`.
proof fn lemma_no_char_byte(v: Seq<char>, q: char)
    requires
        (q as u32) < 0x80,
        forall|i: int| 0 <= i < v.len() ==> #[trigger] v[i] != q,
    ensures
        forall|k: int|
            0 <= k < vstd::utf8::encode_utf8(v).len() ==> #[trigger] vstd::utf8::encode_utf8(v)[k]
                != q as u32 as u8,
{
    assert forall|i: int| 0 <= i < v.len() implies (#[trigger] v[i]) as u32 != (q as u32 as u8) as u32 by {
        vstd::utf8::char_u32_cast(v[i], v[i] as u32);
        vstd::utf8::char_u32_cast(q, q as u32);
    }
    lemma_encode_avoids(v, q as u32 as u8);
}

/// How the body `n QvQ` splits into tokens: the name `n`, then the quoted value.
#[verifier::rlimit(40)]
proof fn lemma_entity_tokens(n: Seq<char>, q: char, v: Seq<char>)
    requires
        n.len() > 0,
        n != seq!['%'],
        forall|i: int|
            0 <= i < n.len() ==> !is_unicode_ws(#[trigger] n[i]) && n[i] != '"' && n[i] != '\'',
        q == '"' || q == '\'',
        forall|i: int| 0 <= i < v.len() ==> #[trigger] v[i] != q,
    ensures
        ({
            let c = vstd::utf8::encode_utf8(entity_body_text(n, q, v));
            let tok = seq![q] + v + seq![q];
            let ln = vstd::utf8::encode_utf8(n).len() as int;
            &&& en_token(c, 0) == Ok::<((int, int), int), crate::error::ErrorView>(((0, ln), ln))
            &&& text_between(c, 0, ln) == n
            &&& en_token(c, ln) == Ok::<((int, int), int), crate::error::ErrorView>(
                ((ln + 1, c.len() as int), c.len() as int),
            )
            &&& text_between(c, ln + 1, c.len() as int) == tok
            &&& !eq_ignore_case(vstd::utf8::encode_utf8(tok), system_bytes())
            &&& !eq_ignore_case(vstd::utf8::encode_utf8(tok), public_bytes())
            &&& vstd::utf8::encode_utf8(tok).len() > 0
            &&& is_quote(vstd::utf8::encode_utf8(tok)[0])
            &&& unquote_spec(tok) == v
        }),
{
    let sp = seq![' '];
    let qs = seq![q];
    let tok = qs + v + qs;
    let t = entity_body_text(n, q, v);
    lemma_quote_char_bytes(q);
    let qb = q as u32 as u8;
    lemma_encode_concat(n + sp, tok);
    lemma_encode_concat(n, sp);
    lemma_encode_ascii(sp);
    assert(vstd::utf8::encode_utf8(sp) =~= seq![0x20u8]);
    lemma_encode_concat(qs + v, qs);
    lemma_encode_concat(qs, v);
    let en = vstd::utf8::encode_utf8(n);
    let ev = vstd::utf8::encode_utf8(v);
    let et = vstd::utf8::encode_utf8(tok);
    assert(et =~= seq![qb] + ev + seq![qb]);
    let c = vstd::utf8::encode_utf8(t);
    assert(c =~= en + seq![0x20u8] + et);
    lemma_no_ws_bytes(n);
    assert forall|i: int| 0 <= i < n.len() implies (#[trigger] n[i]) as u32 != 0x22u8 as u32 && n[i]
        as u32 != 0x27u8 as u32 by {
        vstd::utf8::char_u32_cast(n[i], n[i] as u32);
        assert('"' as u32 == 0x22u32);
        assert('\'' as u32 == 0x27u32);
    }
    lemma_encode_avoids(n, 0x22u8);
    lemma_encode_avoids(n, 0x27u8);
    lemma_no_char_byte(v, q);
    // the name token
    assert(n =~= seq![n[0]] + n.drop_first());
    lemma_encode_concat(seq![n[0]], n.drop_first());
    assert(en.len() > 0) by {
        assert(vstd::utf8::encode_utf8(seq![n[0]]) =~= vstd::utf8::encode_scalar(n[0] as u32)
            + vstd::utf8::encode_utf8(Seq::<char>::empty()));
    }
    let ln = en.len() as int;
    assert forall|k: int| 0 <= k < ln implies !is_ws(#[trigger] c[k]) by {
        assert(c[k] == en[k]);
    }
    assert(c[0] == en[0]);
    assert(!is_ws(c[0]));
    assert(skip_ws(c, 0) == 0);
    assert(!is_quote(c[0]));
    assert(c[ln] == 0x20u8);
    lemma_ws_end_at(c, 0, ln);
    vstd::utf8::encode_utf8_decode_utf8(n);
    assert(c.subrange(0, ln) =~= en);
    assert(text_between(c, 0, ln) == n);
    // the value token
    let qp = ln + 1;
    assert(c[qp] == qb);
    assert(skip_ws(c, qp) == qp);
    assert(skip_ws(c, ln) == qp);
    let e = qp + 1 + ev.len();
    assert(c[e] == qb);
    assert(c.len() == e + 1);
    assert forall|k: int| qp + 1 <= k < e implies #[trigger] c[k] != qb by {
        assert(c[k] == ev[k - qp - 1]);
    }
    lemma_quote_end_at(c, qp + 1, e, qb);
    assert(en_quoted_raw(c, qp) == Ok::<((int, int), int), crate::error::ErrorView>(
        ((qp, e + 1), e + 1),
    ));
    assert(en_token(c, ln) == Ok::<((int, int), int), crate::error::ErrorView>(((qp, e + 1), e + 1)));
    vstd::utf8::encode_utf8_decode_utf8(tok);
    assert(c.subrange(qp, e + 1) =~= et);
    assert(text_between(c, qp, e + 1) == tok);
    assert(et[0] == qb);
    assert(ascii_lower(et[0]) != ascii_lower(system_bytes()[0]));
    assert(ascii_lower(et[0]) != ascii_lower(public_bytes()[0]));
    assert(!eq_ignore_case(et, system_bytes()));
    assert(!eq_ignore_case(et, public_bytes()));
    assert(is_quote(et[0]));
    // the value without its quotes
    assert(et.last() == qb);
    vstd::utf8::encode_utf8_decode_utf8(v);
    assert(et.subrange(1, et.len() - 1) =~= ev);
    assert(unquote_spec(tok) == v);
}

/// The body `n QvQ` declares the general entity `n` with the value `v`.
proof fn lemma_entity_body(n: Seq<char>, q: char, v: Seq<char>)
    requires
        n.len() > 0,
        n != seq!['%'],
        forall|i: int|
            0 <= i < n.len() ==> !is_unicode_ws(#[trigger] n[i]) && n[i] != '"' && n[i] != '\'',
        q == '"' || q == '\'',
        forall|i: int| 0 <= i < v.len() ==> #[trigger] v[i] != q,
    ensures
        en_body(vstd::utf8::encode_utf8(entity_body_text(n, q, v))) == Ok::<
            Option<SpecEntity>,
            crate::error::ErrorView,
        >(
            Some(
                SpecEntity {
                    name: n,
                    is_parameter: false,
                    kind: SpecEntityKind::Internal { value: v },
                },
            ),
        ),
{
    lemma_entity_tokens(n, q, v);
    reveal(en_body);
}

/// The declaration is found at the start, closed by its last byte (the `>`
/// inside the quotes, if any, is skipped), and its body is ` n QvQ`.
#[verifier::rlimit(40)]
proof fn lemma_entity_frame(n: Seq<char>, q: char, v: Seq<char>)
    requires
        forall|i: int| 0 <= i < n.len() ==> #[trigger] n[i] != '>' && n[i] != '"' && n[i] != '\'',
        q == '"' || q == '\'',
        forall|i: int| 0 <= i < v.len() ==> #[trigger] v[i] != q,
    ensures
        ({
            let b = vstd::utf8::encode_utf8(one_entity(n, q, v));
            let mid = seq![' '] + entity_body_text(n, q, v);
            let big_l = 8 + vstd::utf8::encode_utf8(mid).len() as int;
            &&& find_from(b, 0, entity_decl()) == Some(0int)
            &&& closing_angle(b, 8) == Some(big_l)
            &&& text_between(b, 8, big_l) == mid
            &&& big_l + 1 == b.len()
        }),
{
    let sp = seq![' '];
    let gt = seq!['>'];
    let qs = seq![q];
    let head = sp + n + sp;
    let mid = sp + entity_body_text(n, q, v);
    assert(mid =~= head + (qs + v + qs));
    let text = one_entity(n, q, v);
    assert(text =~= entity_keyword() + mid + gt);
    lemma_encode_concat(entity_keyword() + mid, gt);
    lemma_encode_concat(entity_keyword(), mid);
    lemma_entity_keyword_bytes();
    lemma_encode_ascii(gt);
    lemma_quote_char_bytes(q);
    let qb = q as u32 as u8;
    lemma_encode_concat(head, qs + v + qs);
    lemma_encode_concat(qs + v, qs);
    lemma_encode_concat(qs, v);
    let eh = vstd::utf8::encode_utf8(head);
    let ev = vstd::utf8::encode_utf8(v);
    let em = vstd::utf8::encode_utf8(mid);
    assert(em =~= eh + seq![qb] + ev + seq![qb]);
    let b = vstd::utf8::encode_utf8(text);
    let big_l: int = 8 + em.len() as int;
    assert(b =~= entity_decl() + em + seq![0x3eu8]);
    assert(b[big_l] == 0x3eu8);
    assert(b.subrange(0, 8) =~= entity_decl());
    // the part before the opening quote holds no quote and no `>`
    assert forall|i: int| 0 <= i < head.len() implies (#[trigger] head[i]) as u32 != 0x22u32
        && head[i] as u32 != 0x27u32 && head[i] as u32 != 0x3eu32 by {
        let x = head[i] as u32;
        vstd::utf8::char_u32_cast(head[i], x);
        assert('"' as u32 == 0x22u32);
        assert('\'' as u32 == 0x27u32);
        assert('>' as u32 == 0x3eu32);
        if 1 <= i < 1 + n.len() {
            assert(head[i] == n[i - 1]);
        }
    }
    lemma_encode_avoids(head, 0x22u8);
    lemma_encode_avoids(head, 0x27u8);
    lemma_encode_avoids(head, 0x3eu8);
    let qpos = 8 + eh.len() as int;
    assert forall|k: int| 8 <= k < qpos implies #[trigger] b[k] != 0x22u8 && b[k] != 0x27u8 && b[k]
        != 0x3eu8 by {
        assert(b[k] == eh[k - 8]);
    }
    lemma_closing_skip(b, 8, qpos);
    assert(b[qpos] == qb);
    lemma_no_char_byte(v, q);
    let close = qpos + 1 + ev.len();
    assert(b[close] == qb);
    assert forall|k: int| qpos + 1 <= k < close implies #[trigger] b[k] != qb by {
        assert(b[k] == ev[k - qpos - 1]);
    }
    lemma_quote_end_at(b, qpos + 1, close, qb);
    assert(close + 1 == big_l);
    assert(closing_angle(b, big_l) == Some(big_l));
    assert(closing_angle(b, qpos) == closing_angle(b, big_l));
    vstd::utf8::encode_utf8_decode_utf8(mid);
    assert(b.subrange(8, big_l) =~= em);
}

/// A single internal entity declaration `<!ENTITY n "v">` or `<!ENTITY n 'v'>`
/// is read as the general entity `n` whose value is `v`, the text between the
/// quotes, whichever quote encloses it. `n` is a name without whitespace,
/// quotes or `>` (and not `%` alone), and `v` does not hold the enclosing quote.
pub proof fn law_one_internal_entity(n: Seq<char>, q: char, v: Seq<char>)
    requires
        n.len() > 0,
        n != seq!['%'],
        forall|i: int|
            0 <= i < n.len() ==> !is_unicode_ws(#[trigger] n[i]) && n[i] != '>' && n[i] != '"'
                && n[i] != '\'',
        q == '"' || q == '\'',
        forall|i: int| 0 <= i < v.len() ==> #[trigger] v[i] != q,
    ensures
        entities_of(one_entity(n, q, v)) == Ok::<Seq<SpecEntity>, crate::error::ErrorView>(
            seq![
                SpecEntity {
                    name: n,
                    is_parameter: false,
                    kind: SpecEntityKind::Internal { value: v },
                },
            ],
        ),
{
    lemma_entity_frame(n, q, v);
    lemma_entity_body(n, q, v);
    let b = vstd::utf8::encode_utf8(one_entity(n, q, v));
    let body = entity_body_text(n, q, v);
    let sp = seq![' '];
    let mid = sp + body;
    let big_l = 8 + vstd::utf8::encode_utf8(mid).len() as int;
    // trimming ` n QvQ` leaves `n QvQ`
    lemma_trim_start_concat(sp, body);
    assert(sp.drop_first() =~= Seq::<char>::empty());
    assert(trim_start_chars(Seq::<char>::empty()) == Seq::<char>::empty());
    assert(body[0] == n[0]);
    assert(trim_start_chars(mid) == body);
    lemma_quote_char_bytes(q);
    assert(body.last() == q);
    assert(body =~= body.drop_last() + seq![q]);
    lemma_trim_end_concat(body.drop_last(), seq![q]);
    assert(seq![q].last() == q);
    assert(trim_end_chars(seq![q]) == seq![q]);
    assert(trim_chars(mid) == body);
    assert(find_from(b, big_l + 1, entity_decl()) is None);
    assert(entities_from(b, big_l + 1) == Ok::<Seq<SpecEntity>, crate::error::ErrorView>(seq![]));
    let ent = SpecEntity { name: n, is_parameter: false, kind: SpecEntityKind::Internal { value: v } };
    assert(seq![ent] + Seq::<SpecEntity>::empty() =~= seq![ent]);
}

/// Which quote encloses an internal entity's value does not matter: for a
/// value that holds neither quote, the two ways of writing the declaration
/// declare the same entity.
pub proof fn law_entity_quotes_agree(n: Seq<char>, v: Seq<char>)
    requires
        n.len() > 0,
        n != seq!['%'],
        forall|i: int|
            0 <= i < n.len() ==> !is_unicode_ws(#[trigger] n[i]) && n[i] != '>' && n[i] != '"'
                && n[i] != '\'',
        forall|i: int| 0 <= i < v.len() ==> #[trigger] v[i] != '"' && v[i] != '\'',
    ensures
        entities_of(one_entity(n, '\'', v)) == entities_of(one_entity(n, '"', v)),
{
    law_one_internal_entity(n, '"', v);
    law_one_internal_entity(n, '\'', v);
}

// ---------------------------------------------------------------------------
// A quantifier after the outer group of a content model
// ---------------------------------------------------------------------------

proof fn lemma_trim_start_char_concat(s: Seq<char>, t: Seq<char>, c: char)
    requires
        s.len() > 0,
        s.last() != c,
    ensures
        trim_start_char(s + t, c) == trim_start_char(s, c) + t,
        trim_start_char(s, c).len() > 0,
        trim_start_char(s, c).last() == s.last(),
    decreases s.len(),
{
    assert((s + t)[0] == s[0]);
    if s[0] == c {
        assert(s.len() > 1);
        assert((s + t).drop_first() =~= s.drop_first() + t);
        assert(s.drop_first().last() == s.last());
        lemma_trim_start_char_concat(s.drop_first(), t, c);
    }
}

proof fn lemma_trim_start_keeps_last(y: Seq<char>)
    requires
        y.len() > 0,
        !is_unicode_ws(y.last()),
    ensures
        trim_start_chars(y).len() > 0,
        trim_start_chars(y).last() == y.last(),
{
    let init = y.drop_last();
    let z = seq![y.last()];
    assert(y =~= init + z);
    lemma_trim_start_concat(init, z);
    assert(z.drop_first() =~= Seq::<char>::empty());
    assert(trim_start_chars(Seq::<char>::empty()) == Seq::<char>::empty());
    assert(z[0] == y.last());
    if trim_start_chars(init).len() > 0 {
        assert((trim_start_chars(init) + z).last() == y.last());
    }
}

/// A content-model text that starts with `(` and ends with `)` is its own trim,
/// and so is it with a quantifier after it.
proof fn lemma_trimmed(g: Seq<char>, t: Seq<char>)
    requires
        g.len() > 0,
        g[0] == '(',
        t.len() == 0 || !is_unicode_ws(t.last()),
        g.last() == ')',
    ensures
        trim_chars(g + t) == g + t,
{
    let x = g + t;
    assert(x[0] == '(');
    assert(trim_start_chars(x) == x);
    if t.len() > 0 {
        assert(x.last() == t.last());
    } else {
        assert(x.last() == g.last());
    }
    assert(trim_end_chars(x) == x);
}

/// A quantifier written right after a content model that is one group of
/// element content is kept: the model becomes a sequence holding that group,
/// repeated as the quantifier says. `g` is the text of the group alone:
/// it starts with `(`, ends with its closing `)`, reads as the element content
/// `G`, and reading it as a group takes all of it.
#[verifier::rlimit(40)]
pub proof fn law_group_quantifier_kept(g: Seq<char>, big_g: SpecGroup, q: Quantifier)
    requires
        q != Quantifier::One,
        g.len() > 0,
        g[0] == '(',
        g.last() == ')',
        content_model_of(g) == Ok::<SpecContent, crate::error::ErrorView>(SpecContent::Children(big_g)),
        cm_group(vstd::utf8::encode_utf8(g), 0) matches Ok((_, r)) && r == vstd::utf8::encode_utf8(g).len(),
    ensures
        content_model_of(g + quant_text(q)) == Ok::<SpecContent, crate::error::ErrorView>(
            SpecContent::Children(
                SpecGroup {
                    kind: GroupKind::Sequence,
                    items: seq![SpecItem { content: SpecItemContent::Group(big_g), quantifier: q }],
                },
            ),
        ),
{
    let qt = quant_text(q);
    let g2 = g + qt;
    lemma_encode_ascii_char('?', 0x3fu8);
    lemma_encode_ascii_char('*', 0x2au8);
    lemma_encode_ascii_char('+', 0x2bu8);
    lemma_encode_ascii_char('(', 0x28u8);
    assert(qt.len() == 1);
    let qc = qt[0];
    assert(!is_unicode_ws(qc));
    lemma_trimmed(g, Seq::<char>::empty());
    assert(g + Seq::<char>::empty() =~= g);
    lemma_trimmed(g, qt);
    let b = vstd::utf8::encode_utf8(g);
    let b2 = vstd::utf8::encode_utf8(g2);
    lemma_encode_concat(g, qt);
    let qbyte = vstd::utf8::encode_utf8(qt)[0];
    assert(vstd::utf8::encode_utf8(qt).len() == 1);
    assert(b2 =~= b.push(qbyte));
    assert(starts_bytes(b, b2));
    // both start with `(`
    assert(g =~= seq![g[0]] + g.drop_first());
    lemma_encode_concat(seq![g[0]], g.drop_first());
    assert(b[0] == 0x28u8);
    assert(b2[0] == 0x28u8);
    assert(ascii_lower(b[0]) != ascii_lower(empty_bytes()[0]));
    assert(ascii_lower(b[0]) != ascii_lower(any_bytes()[0]));
    assert(!eq_ignore_case(b, empty_bytes()) && !eq_ignore_case(b, any_bytes()));
    assert(!eq_ignore_case(b2, empty_bytes()) && !eq_ignore_case(b2, any_bytes()));
    assert(content_model_of(g) == cm_top(b));
    assert(content_model_of(g2) == cm_top(b2));
    assert(skip_ws(b, 0) == 0);
    assert(skip_ws(b2, 0) == 0);
    // `g` is no mixed content, and neither is `g` with the quantifier
    assert(!cm_is_mixed(b, 0));
    vstd::utf8::encode_utf8_decode_utf8(g);
    vstd::utf8::encode_utf8_decode_utf8(g2);
    assert(b.subrange(0, b.len() as int) =~= b);
    assert(b2.subrange(0, b2.len() as int) =~= b2);
    assert(text_between(b, 0, b.len() as int) == g);
    assert(text_between(b2, 0, b2.len() as int) == g2);
    lemma_trim_start_char_concat(g, qt, '(');
    let y = trim_start_char(g, '(');
    lemma_trim_start_keeps_last(y);
    let x = trim_start_chars(y);
    lemma_trim_start_concat(y, qt);
    assert(trim_start_chars(trim_start_char(g2, '(')) == x + qt);
    let pc = pcdata_chars();
    if is_prefix(pc, x + qt) {
        if x.len() >= pc.len() {
            assert((x + qt).subrange(0, pc.len() as int) =~= x.subrange(0, pc.len() as int));
            assert(is_prefix(pc, x));
        } else {
            let k = x.len() - 1;
            assert((x + qt).subrange(0, pc.len() as int)[k] == x[k]);
            assert(x[k] == ')');
            assert(pc[k] != ')');
        }
    }
    assert(!cm_is_mixed(b2, 0));
    // the group reads the same, and the quantifier comes right after it
    lemma_group_extends(b, b2, 0);
    let (g0, r) = cm_group(b, 0)->Ok_0;
    assert(r == b.len());
    assert(cm_quantifier(b, r).0 == Quantifier::One);
    assert(big_g == g0);
    assert(b2[r] == qbyte);
    assert(cm_quantifier(b2, r).0 == q);
}

} // verus!
