//! Reading a whole DTD.
pub mod attlist;
pub mod content_model;
pub mod element;
pub mod entity;

use vstd::prelude::*;

use crate::error::{DtdError, ErrorView};
use crate::model::{
    element_map_index_of, element_map_insert, element_map_new, key_index, keys_unique,
    lemma_key_index_at, lemma_key_index_none,
    map_entries, map_insert, ContentModel, Dtd, Element, SpecAttribute, SpecContent, SpecElement,
    SpecEntity, entities_view, attributes_view, elements_view,
};
use crate::parser::attlist::{attlists_of, attlists_view, parse_attlists};
use crate::parser::element::{elements_of, parse_elements};
use crate::parser::entity::{entities_of, expand_parameter_entities, expanded, parse_entities};

verus! {

/// Entries after inserting each element under its name, in order.
pub open spec fn insert_elements(
    es: Seq<(Seq<char>, SpecElement)>,
    els: Seq<SpecElement>,
) -> Seq<(Seq<char>, SpecElement)>
    decreases els.len(),
{
    if els.len() == 0 {
        es
    } else {
        map_insert(insert_elements(es, els.drop_last()), els.last().name, els.last())
    }
}

/// Entries after attaching each attribute list to its element, in order: the
/// attributes are appended to those of an element already present; an
/// attribute list for an undeclared element adds that element with content `ANY`.
pub open spec fn attach_attlists(
    es: Seq<(Seq<char>, SpecElement)>,
    als: Seq<(Seq<char>, Seq<SpecAttribute>)>,
) -> Seq<(Seq<char>, SpecElement)>
    decreases als.len(),
{
    if als.len() == 0 {
        es
    } else {
        let m = attach_attlists(es, als.drop_last());
        let (name, attrs) = als.last();
        match key_index(m, name) {
            Some(i) => m.update(
                i,
                (
                    m[i].0,
                    SpecElement {
                        name: m[i].1.name,
                        content: m[i].1.content,
                        attributes: m[i].1.attributes + attrs,
                    },
                ),
            ),
            None => m.push(
                (name, SpecElement { name, content: SpecContent::Any, attributes: attrs }),
            ),
        }
    }
}

/// The element entries and the entities of a DTD text.
pub open spec fn dtd_of(text: Seq<char>) -> Result<
    (Seq<(Seq<char>, SpecElement)>, Seq<SpecEntity>),
    ErrorView,
> {
    match entities_of(text) {
        Err(e) => Err(e),
        Ok(ents) => {
            let x = expanded(text, ents);
            match elements_of(x) {
                Err(e) => Err(e),
                Ok(els) => match attlists_of(x) {
                    Err(e) => Err(e),
                    Ok(als) => Ok((attach_attlists(insert_elements(seq![], els), als), ents)),
                },
            }
        },
    }
}

/// Parses a DTD: its entities, then, in the text with parameter entities
/// expanded, its element declarations and attribute lists.
pub fn parse_dtd(input: &str) -> (r: Result<Dtd, DtdError>)
    ensures
        r is Ok <==> dtd_of(input@) is Ok,
        r matches Ok(d) ==> dtd_of(input@) == Ok::<
            (Seq<(Seq<char>, SpecElement)>, Seq<SpecEntity>),
            ErrorView,
        >((d.element_entries(), entities_view(d.entities@))),
        r matches Ok(d) ==> keys_unique(d.element_entries()),
        r matches Err(e) ==> dtd_of(input@) == Err::<
            (Seq<(Seq<char>, SpecElement)>, Seq<SpecEntity>),
            ErrorView,
        >(e@),
{
    // 1. Parse entities first
    let entities = parse_entities(input)?;
    // 2. Expand parameter entities in the source
    let expanded = expand_parameter_entities(input, &entities);
    // 3. Parse elements
    let elements = parse_elements(expanded.as_str())?;
    // 4. Parse attlists
    let attlists = parse_attlists(expanded.as_str())?;
    let ghost els = elements_view(elements@);
    let ghost als = attlists_view(attlists@);
    // 5. Build element map
    let mut element_map = element_map_new();
    for elem in it: elements
        invariant
            els == elements_view(it.seq()),
            keys_unique(map_entries(element_map)),
            map_entries(element_map) == insert_elements(seq![], els.subrange(0, it.index() as int)),
    {
        let ghost k = it.index() as int;
        proof {
            assert(els.subrange(0, k + 1).drop_last() =~= els.subrange(0, k));
            assert(els[k] == elem.spec_view());
        }
        let name = elem.name.clone();
        let _ = element_map_insert(&mut element_map, name, elem);
    }
    proof {
        assert(els.subrange(0, els.len() as int) =~= els);
    }
    // 6. Attach attributes to elements
    for pair in it: attlists
        invariant
            als == attlists_view(it.seq()),
            keys_unique(map_entries(element_map)),
            map_entries(element_map) == attach_attlists(
                insert_elements(seq![], els),
                als.subrange(0, it.index() as int),
            ),
    {
        let ghost k = it.index() as int;
        proof {
            assert(als.subrange(0, k + 1).drop_last() =~= als.subrange(0, k));
        }
        let (elem_name, mut attrs) = pair;
        let ghost m = map_entries(element_map);
        let ghost name = elem_name@;
        let ghost av = attributes_view(attrs@);
        proof {
            assert(als[k] == (name, av));
        }
        match element_map_index_of(&element_map, elem_name.as_str()) {
            Some(i) => {
                proof {
                    lemma_key_index_at(m, name, i as int);
                }
                let placeholder = Element {
                    name: String::new(),
                    content: ContentModel::Any,
                    attributes: Vec::new(),
                };
                let key = elem_name.clone();
                let taken = element_map_insert(&mut element_map, key, placeholder);
                let ghost m1 = map_entries(element_map);
                proof {
                    lemma_key_index_at(m1, name, i as int);
                }
                match taken {
                    Some(mut elem) => {
                        let ghost old_attrs = elem.attributes@;
                        elem.attributes.append(&mut attrs);
                        proof {
                            assert(attributes_view(elem.attributes@) =~= attributes_view(old_attrs)
                                + av);
                        }
                        element_map_insert(&mut element_map, elem_name, elem);
                        proof {
                            assert(map_entries(element_map) =~= m.update(
                                i as int,
                                (
                                    m[i as int].0,
                                    SpecElement {
                                        name: m[i as int].1.name,
                                        content: m[i as int].1.content,
                                        attributes: m[i as int].1.attributes + av,
                                    },
                                ),
                            ));
                        }
                    },
                    None => {},
                }
            },
            None => {
                proof {
                    lemma_key_index_none(m, name);
                }
                // Create element stub for attlist without matching element
                let stub = Element {
                    name: elem_name.clone(),
                    content: ContentModel::Any,
                    attributes: attrs,
                };
                element_map_insert(&mut element_map, elem_name, stub);
            },
        }
    }
    proof {
        assert(als.subrange(0, als.len() as int) =~= als);
    }
    Ok(Dtd { elements: element_map, entities })
}

} // verus!
