//! The element tree of a DTD: which elements an element's content names, how
//! many, and which elements no other element names (the roots).
use vstd::prelude::*;

use crate::model::{
    element_map_get_index, element_map_index_of, element_map_len, map_entries, strings_view, ContentModel, Dtd, Group,
    GroupItemContent, Quantifier, SpecContent, SpecElement, SpecGroup, SpecItem,
    SpecItemContent,
};
use crate::text::str_eq;

verus! {

// ---------------------------------------------------------------------------
// Children
// ---------------------------------------------------------------------------

/// The element names a particle mentions, nested groups flattened, each with
/// the quantifier written next to it.
pub open spec fn item_children(it: SpecItem) -> Seq<(Seq<char>, Quantifier)>
    decreases it,
{
    match it.content {
        SpecItemContent::Name(n) => seq![(n, it.quantifier)],
        SpecItemContent::Group(g) => group_children(g),
    }
}

pub open spec fn items_children(items: Seq<SpecItem>) -> Seq<(Seq<char>, Quantifier)>
    decreases items,
{
    if items.len() == 0 {
        seq![]
    } else {
        items_children(items.drop_last()) + item_children(items.last())
    }
}

pub open spec fn group_children(g: SpecGroup) -> Seq<(Seq<char>, Quantifier)>
    decreases g,
{
    items_children(g.items)
}

/// The children an element's content names, in order: the names of a mixed
/// model (quantifier `One`), or the flattened names of an element-content group.
pub open spec fn content_children(c: SpecContent) -> Seq<(Seq<char>, Quantifier)> {
    match c {
        SpecContent::Children(g) => group_children(g),
        SpecContent::Mixed(names) => names.map_values(|n: Seq<char>| (n, Quantifier::One)),
        _ => seq![],
    }
}

/// How many element names a particle mentions.
pub open spec fn item_count(it: SpecItem) -> nat
    decreases it,
{
    match it.content {
        SpecItemContent::Name(_) => 1,
        SpecItemContent::Group(g) => group_count(g),
    }
}

pub open spec fn items_count(items: Seq<SpecItem>) -> nat
    decreases items,
{
    if items.len() == 0 {
        0
    } else {
        items_count(items.drop_last()) + item_count(items.last())
    }
}

pub open spec fn group_count(g: SpecGroup) -> nat
    decreases g,
{
    items_count(g.items)
}

/// How many element names a content model mentions.
pub open spec fn content_count(c: SpecContent) -> nat {
    match c {
        SpecContent::Children(g) => group_count(g),
        SpecContent::Mixed(names) => names.len(),
        _ => 0,
    }
}

pub open spec fn pairs_view(v: Seq<(String, Quantifier)>) -> Seq<(Seq<char>, Quantifier)> {
    Seq::new(v.len(), |i: int| (v[i].0@, v[i].1))
}

/// The names of a list of children.
pub open spec fn names_of(ps: Seq<(Seq<char>, Quantifier)>) -> Seq<Seq<char>> {
    ps.map_values(|p: (Seq<char>, Quantifier)| p.0)
}

proof fn lemma_item_count(it: SpecItem)
    ensures
        item_count(it) == item_children(it).len(),
    decreases it,
{
    match it.content {
        SpecItemContent::Name(_) => {},
        SpecItemContent::Group(g) => {
            lemma_group_count(g);
        },
    }
}

proof fn lemma_items_count(items: Seq<SpecItem>)
    ensures
        items_count(items) == items_children(items).len(),
    decreases items,
{
    if items.len() > 0 {
        lemma_items_count(items.drop_last());
        lemma_item_count(items.last());
    }
}

proof fn lemma_group_count(g: SpecGroup)
    ensures
        group_count(g) == group_children(g).len(),
    decreases g,
{
    lemma_items_count(g.items);
}

/// The number of children that a content model is shown with is the number of
/// entries of its child list.
pub proof fn law_count_is_children_len(c: SpecContent)
    ensures
        content_count(c) == content_children(c).len(),
{
    match c {
        SpecContent::Children(g) => lemma_group_count(g),
        _ => {},
    }
}

/// The element names a group mentions, flattened, with their quantifiers.
pub fn get_group_children(group: &Group) -> (r: Vec<(String, Quantifier)>)
    ensures
        pairs_view(r@) == group_children(group.spec_view()),
    decreases group,
{
    let ghost gv = group.spec_view();
    let mut result: Vec<(String, Quantifier)> = Vec::new();
    let mut i: usize = 0;
    while i < group.items.len()
        invariant
            i <= group.items@.len(),
            gv == group.spec_view(),
            pairs_view(result@) == items_children(gv.items.subrange(0, i as int)),
        decreases group.items@.len() - i,
    {
        let item = &group.items[i];
        let ghost before = pairs_view(result@);
        proof {
            assert(gv.items.subrange(0, i + 1).drop_last() =~= gv.items.subrange(0, i as int));
            assert(gv.items.subrange(0, i + 1).last() == item.spec_view());
        }
        match &item.content {
            GroupItemContent::Name(name) => {
                result.push((name.clone(), item.quantifier));
                assert(pairs_view(result@) =~= before + seq![(name@, item.quantifier)]);
            },
            GroupItemContent::Group(g) => {
                proof {
                    assert(decreases_to!(group.items => group.items[i as int]));
                }
                let mut sub = get_group_children(g);
                let ghost sv = pairs_view(sub@);
                result.append(&mut sub);
                assert(pairs_view(result@) =~= before + sv);
            },
        }
        proof {
            assert(pairs_view(result@) == before + item_children(item.spec_view()));
            assert(items_children(gv.items.subrange(0, i + 1)) == items_children(
                gv.items.subrange(0, i as int),
            ) + item_children(item.spec_view()));
        }
        i += 1;
    }
    assert(gv.items.subrange(0, gv.items.len() as int) =~= gv.items);
    result
}

/// The children an element's content names, in order, with their quantifiers.
pub fn get_direct_children(content: &ContentModel) -> (r: Vec<(String, Quantifier)>)
    ensures
        pairs_view(r@) == content_children(content.spec_view()),
{
    match content {
        ContentModel::Children(group) => get_group_children(group),
        ContentModel::Mixed(names) => {
            let mut result: Vec<(String, Quantifier)> = Vec::new();
            let mut i: usize = 0;
            while i < names.len()
                invariant
                    i <= names@.len(),
                    pairs_view(result@) =~= strings_view(names@).subrange(0, i as int).map_values(
                        |n: Seq<char>| (n, Quantifier::One),
                    ),
                decreases names@.len() - i,
            {
                let ghost before = pairs_view(result@);
                result.push((names[i].clone(), Quantifier::One));
                assert(pairs_view(result@) =~= before.push((names@[i as int]@, Quantifier::One)));
                i += 1;
                assert(pairs_view(result@) =~= strings_view(names@).subrange(0, i as int).map_values(
                    |n: Seq<char>| (n, Quantifier::One),
                ));
            }
            result
        },
        _ => Vec::new(),
    }
}

/// How many element names a group mentions.
pub fn count_group_children(group: &Group) -> (r: usize)
    requires
        group_count(group.spec_view()) <= usize::MAX,
    ensures
        r == group_count(group.spec_view()),
    decreases group,
{
    let ghost gv = group.spec_view();
    let mut count: usize = 0;
    let mut i: usize = 0;
    while i < group.items.len()
        invariant
            i <= group.items@.len(),
            gv == group.spec_view(),
            items_count(gv.items) <= usize::MAX,
            count == items_count(gv.items.subrange(0, i as int)),
        decreases group.items@.len() - i,
    {
        let item = &group.items[i];
        proof {
            assert(gv.items.subrange(0, i + 1).drop_last() =~= gv.items.subrange(0, i as int));
            assert(gv.items.subrange(0, i + 1).last() == item.spec_view());
            lemma_items_count_prefix(gv.items, i + 1);
            assert(items_count(gv.items.subrange(0, i + 1)) == items_count(
                gv.items.subrange(0, i as int),
            ) + item_count(item.spec_view()));
        }
        match &item.content {
            GroupItemContent::Name(_) => {
                count += 1;
            },
            GroupItemContent::Group(g) => {
                proof {
                    assert(decreases_to!(group.items => group.items[i as int]));
                }
                count += count_group_children(g);
            },
        }
        i += 1;
    }
    assert(gv.items.subrange(0, gv.items.len() as int) =~= gv.items);
    count
}

proof fn lemma_items_count_prefix(items: Seq<SpecItem>, k: int)
    requires
        0 <= k <= items.len(),
    ensures
        items_count(items.subrange(0, k)) <= items_count(items),
    decreases items.len(),
{
    if k < items.len() {
        assert(items.drop_last().subrange(0, k) =~= items.subrange(0, k));
        lemma_items_count_prefix(items.drop_last(), k);
    } else {
        assert(items.subrange(0, k) =~= items);
    }
}

/// How many element names a content model mentions.
pub fn count_children(content: &ContentModel) -> (r: usize)
    requires
        content_count(content.spec_view()) <= usize::MAX,
    ensures
        r == content_count(content.spec_view()),
{
    match content {
        ContentModel::Children(group) => count_group_children(group),
        ContentModel::Mixed(names) => names.len(),
        _ => 0,
    }
}

// ---------------------------------------------------------------------------
// Roots
// ---------------------------------------------------------------------------

/// Does the content of some other element name `n`? An element that names
/// itself does not count.
pub open spec fn is_referenced(es: Seq<(Seq<char>, SpecElement)>, n: Seq<char>) -> bool {
    exists|i: int|
        0 <= i < es.len() && es[i].0 != n && #[trigger] names_of(
            content_children(es[i].1.content),
        ).contains(n)
}

/// The elements, in map order, that no other element's content names.
pub open spec fn roots_of(es: Seq<(Seq<char>, SpecElement)>) -> Seq<Seq<char>> {
    es.map_values(|e: (Seq<char>, SpecElement)| e.0).filter(|n: Seq<char>| !is_referenced(es, n))
}

/// Does the content of some element, itself included, name `n`?
pub open spec fn is_named(es: Seq<(Seq<char>, SpecElement)>, n: Seq<char>) -> bool {
    exists|i: int| 0 <= i < es.len() && #[trigger] names_of(content_children(es[i].1.content)).contains(n)
}

/// The elements, in map order, that no element's content names, not even
/// their own: the roots the interactive tree starts from.
pub open spec fn tree_roots_of(es: Seq<(Seq<char>, SpecElement)>) -> Seq<Seq<char>> {
    es.map_values(|e: (Seq<char>, SpecElement)| e.0).filter(|n: Seq<char>| !is_named(es, n))
}

/// The names named by the first `k` elements, in order.
pub open spec fn refs_upto(es: Seq<(Seq<char>, SpecElement)>, k: int) -> Seq<Seq<char>>
    decreases k,
{
    if k <= 0 {
        seq![]
    } else {
        refs_upto(es, k - 1) + names_of(content_children(es[k - 1].1.content))
    }
}

proof fn lemma_refs_upto(es: Seq<(Seq<char>, SpecElement)>, k: int, n: Seq<char>)
    requires
        0 <= k <= es.len(),
    ensures
        refs_upto(es, k).contains(n) <==> exists|i: int|
            0 <= i < k && #[trigger] names_of(content_children(es[i].1.content)).contains(n),
    decreases k,
{
    if k > 0 {
        lemma_refs_upto(es, k - 1, n);
        let a = refs_upto(es, k - 1);
        let b = names_of(content_children(es[k - 1].1.content));
        if (a + b).contains(n) {
            let j = choose|j: int| 0 <= j < (a + b).len() && (a + b)[j] == n;
            if j >= a.len() {
                assert(b[j - a.len()] == n);
                assert(b.contains(n));
            } else {
                assert(a[j] == n);
            }
        }
        if exists|i: int| 0 <= i < k && #[trigger] names_of(content_children(es[i].1.content)).contains(n) {
            let i = choose|i: int| 0 <= i < k && #[trigger] names_of(content_children(es[i].1.content)).contains(n);
            if i == k - 1 {
                let j = choose|j: int| 0 <= j < b.len() && b[j] == n;
                assert((a + b)[a.len() + j] == n);
            } else {
                let j = choose|j: int| 0 <= j < a.len() && a[j] == n;
                assert((a + b)[j] == n);
            }
        }
    }
}

/// A filter of a list with no repeats has no repeats, and holds only items of the list.
pub proof fn lemma_filter_distinct(s: Seq<Seq<char>>, pred: spec_fn(Seq<char>) -> bool)
    requires
        s.no_duplicates(),
    ensures
        s.filter(pred).no_duplicates(),
        forall|x: Seq<char>| #[trigger] s.filter(pred).contains(x) ==> s.contains(x),
    decreases s.len(),
{
    reveal_with_fuel(Seq::<_>::filter, 1);
    if s.len() > 0 {
        let init = s.drop_last();
        assert(init.no_duplicates());
        lemma_filter_distinct(init, pred);
        let f = init.filter(pred);
        assert forall|x: Seq<char>| #[trigger] s.filter(pred).contains(x) implies s.contains(x) by {
            if f.contains(x) {
                let k = choose|k: int| 0 <= k < init.len() && init[k] == x;
                assert(s[k] == x);
            } else {
                assert(s.filter(pred) =~= f.push(s.last()) || s.filter(pred) =~= f);
                if s.filter(pred) =~= f.push(s.last()) {
                    let k = choose|k: int| 0 <= k < f.push(s.last()).len() && f.push(s.last())[k] == x;
                    assert(k == f.len());
                    assert(s[s.len() - 1] == x);
                }
            }
        }
        if pred(s.last()) {
            assert(!f.contains(s.last())) by {
                if f.contains(s.last()) {
                    let k = choose|k: int| 0 <= k < init.len() && init[k] == s.last();
                    assert(s[k] == s[s.len() - 1]);
                }
            }
        }
    }
}

proof fn lemma_names_of_concat(a: Seq<(Seq<char>, Quantifier)>, b: Seq<(Seq<char>, Quantifier)>)
    ensures
        names_of(a + b) == names_of(a) + names_of(b),
{
    assert(names_of(a + b) =~= names_of(a) + names_of(b));
}

/// Adds the element names that a group mentions, nested groups included, to `names`.
pub fn collect_group_names(group: &Group, names: &mut Vec<String>)
    ensures
        strings_view(final(names)@) == strings_view(old(names)@) + names_of(
            group_children(group.spec_view()),
        ),
    decreases group,
{
    let ghost gv = group.spec_view();
    let ghost start = strings_view(names@);
    let mut i: usize = 0;
    while i < group.items.len()
        invariant
            i <= group.items@.len(),
            gv == group.spec_view(),
            strings_view(names@) == start + names_of(items_children(gv.items.subrange(0, i as int))),
        decreases group.items@.len() - i,
    {
        let item = &group.items[i];
        let ghost before = strings_view(names@);
        let ghost done = items_children(gv.items.subrange(0, i as int));
        proof {
            assert(gv.items.subrange(0, i + 1).drop_last() =~= gv.items.subrange(0, i as int));
            assert(gv.items.subrange(0, i + 1).last() == item.spec_view());
            lemma_names_of_concat(done, item_children(item.spec_view()));
        }
        match &item.content {
            GroupItemContent::Name(name) => {
                names.push(name.clone());
                assert(names_of(item_children(item.spec_view())) =~= seq![name@]);
                assert(strings_view(names@) =~= before + seq![name@]);
            },
            GroupItemContent::Group(g) => {
                proof {
                    assert(decreases_to!(group.items => group.items[i as int]));
                }
                collect_group_names(g, names);
            },
        }
        i += 1;
    }
    assert(gv.items.subrange(0, gv.items.len() as int) =~= gv.items);
}

/// Adds the element names that an element's content mentions to `names`.
pub fn collect_child_names(content: &ContentModel, names: &mut Vec<String>)
    ensures
        strings_view(final(names)@) == strings_view(old(names)@) + names_of(
            content_children(content.spec_view()),
        ),
{
    match content {
        ContentModel::Children(group) => collect_group_names(group, names),
        ContentModel::Mixed(children) => {
            let ghost start = strings_view(names@);
            let ghost all = names_of(content_children(content.spec_view()));
            assert(all =~= strings_view(children@));
            let mut i: usize = 0;
            while i < children.len()
                invariant
                    i <= children@.len(),
                    all == strings_view(children@),
                    strings_view(names@) == start + all.subrange(0, i as int),
                decreases children@.len() - i,
            {
                let ghost before = strings_view(names@);
                names.push(children[i].clone());
                assert(strings_view(names@) =~= before.push(all[i as int]));
                i += 1;
                assert(strings_view(names@) =~= start + all.subrange(0, i as int));
            }
            assert(all.subrange(0, i as int) =~= all);
        },
        _ => {
            assert(strings_view(names@) =~= strings_view(names@) + names_of(
                content_children(content.spec_view()),
            ));
        },
    }
}

/// Is `s` one of `v`?
pub fn contains_name(v: &Vec<String>, s: &str) -> (r: bool)
    ensures
        r == strings_view(v@).contains(s@),
{
    let mut i: usize = 0;
    while i < v.len()
        invariant
            i <= v@.len(),
            forall|j: int| 0 <= j < i ==> v@[j]@ != s@,
        decreases v@.len() - i,
    {
        if str_eq(v[i].as_str(), s) {
            assert(strings_view(v@)[i as int] == s@);
            return true;
        }
        i += 1;
    }
    assert(!strings_view(v@).contains(s@)) by {
        if strings_view(v@).contains(s@) {
            let j = choose|j: int| 0 <= j < v@.len() && strings_view(v@)[j] == s@;
            assert(v@[j]@ == s@);
        }
    }
    false
}

/// Does the content of an element other than the one named `name` name it?
fn referenced_by_others(dtd: &Dtd, name: &str) -> (r: bool)
    ensures
        r == is_referenced(dtd.element_entries(), name@),
{
    let ghost es = dtd.element_entries();
    let n = element_map_len(&dtd.elements);
    let mut j: usize = 0;
    while j < n
        invariant
            n == es.len(),
            es == dtd.element_entries(),
            j <= n,
            forall|i: int|
                0 <= i < j ==> !(es[i].0 != name@ && #[trigger] names_of(
                    content_children(es[i].1.content),
                ).contains(name@)),
        decreases n - j,
    {
        let (key, elem) = element_map_get_index(&dtd.elements, j).unwrap();
        if !str_eq(key.as_str(), name) {
            let mut names: Vec<String> = Vec::new();
            collect_child_names(&elem.content, &mut names);
            assert(strings_view(names@) =~= names_of(content_children(es[j as int].1.content)));
            if contains_name(&names, name) {
                return true;
            }
        }
        j += 1;
    }
    false
}

/// The names of the elements, in map order, that no other element's content names.
pub fn find_roots(dtd: &Dtd) -> (r: Vec<String>)
    ensures
        strings_view(r@) == roots_of(dtd.element_entries()),
{
    let ghost es = dtd.element_entries();
    let n = element_map_len(&dtd.elements);
    let ghost keys = es.map_values(|e: (Seq<char>, SpecElement)| e.0);
    let ghost pred = |m: Seq<char>| !is_referenced(es, m);
    let mut roots: Vec<String> = Vec::new();
    let mut k: usize = 0;
    while k < n
        invariant
            n == es.len(),
            es == dtd.element_entries(),
            k <= n,
            keys == es.map_values(|e: (Seq<char>, SpecElement)| e.0),
            pred == (|m: Seq<char>| !is_referenced(es, m)),
            strings_view(roots@) == keys.take(k as int).filter(pred),
        decreases n - k,
    {
        reveal_with_fuel(Seq::<_>::filter, 1);
        let entry = element_map_get_index(&dtd.elements, k);
        let (name, _) = entry.unwrap();
        proof {
            assert(keys.take(k + 1).drop_last() =~= keys.take(k as int));
            assert(keys.take(k + 1).last() == name@);
        }
        let ghost before = strings_view(roots@);
        if !referenced_by_others(dtd, name.as_str()) {
            roots.push(name.clone());
            assert(strings_view(roots@) =~= before.push(name@));
        } else {
            assert(strings_view(roots@) =~= before);
        }
        k += 1;
    }
    assert(keys.take(n as int) =~= keys);
    assert(roots_of(es) == keys.filter(pred));
    roots
}

/// The roots the interactive tree starts from: the names, in map order, that
/// no element's content names, not even their own. Each is listed once.
pub fn find_tree_roots(dtd: &Dtd) -> (r: Vec<String>)
    ensures
        strings_view(r@) == tree_roots_of(dtd.element_entries()),
        strings_view(r@).no_duplicates(),
{
    let ghost es = dtd.element_entries();
    let n = element_map_len(&dtd.elements);
    let mut referenced: Vec<String> = Vec::new();
    let mut i: usize = 0;
    while i < n
        invariant
            n == es.len(),
            es == dtd.element_entries(),
            i <= n,
            strings_view(referenced@) == refs_upto(es, i as int),
        decreases n - i,
    {
        let entry = element_map_get_index(&dtd.elements, i);
        let (_, elem) = entry.unwrap();
        collect_child_names(&elem.content, &mut referenced);
        i += 1;
    }
    let ghost keys = es.map_values(|e: (Seq<char>, SpecElement)| e.0);
    let ghost pred = |m: Seq<char>| !is_named(es, m);
    let mut roots: Vec<String> = Vec::new();
    let mut k: usize = 0;
    while k < n
        invariant
            n == es.len(),
            es == dtd.element_entries(),
            k <= n,
            strings_view(referenced@) == refs_upto(es, n as int),
            keys == es.map_values(|e: (Seq<char>, SpecElement)| e.0),
            pred == (|m: Seq<char>| !is_named(es, m)),
            strings_view(roots@) == keys.take(k as int).filter(pred),
            forall|a: int, b: int| 0 <= a < k && 0 <= b < n && a != b ==> #[trigger] es[a].0 != #[trigger] es[b].0,
        decreases n - k,
    {
        reveal_with_fuel(Seq::<_>::filter, 1);
        let entry = element_map_get_index(&dtd.elements, k);
        let (name, _) = entry.unwrap();
        // Looking the name up shows that no other entry holds it.
        let _ = element_map_index_of(&dtd.elements, name.as_str());
        proof {
            lemma_refs_upto(es, n as int, name@);
            assert(keys.take(k + 1).drop_last() =~= keys.take(k as int));
            assert(keys.take(k + 1).last() == name@);
        }
        let ghost before = strings_view(roots@);
        if !contains_name(&referenced, name.as_str()) {
            roots.push(name.clone());
            assert(strings_view(roots@) =~= before.push(name@));
        } else {
            assert(strings_view(roots@) =~= before);
        }
        k += 1;
    }
    assert(keys.take(n as int) =~= keys);
    assert(tree_roots_of(es) == keys.filter(pred));
    proof {
        assert(keys.no_duplicates()) by {
            assert forall|a: int, b: int| 0 <= a < keys.len() && 0 <= b < keys.len() && a != b implies keys[a] != keys[b] by {
                assert(es[a].0 != es[b].0);
            }
        }
        lemma_filter_distinct(keys, pred);
    }
    roots
}

} // verus!
