use indexmap::IndexMap;
use std::hash::RandomState;
use vstd::prelude::*;

verus! {

/// How many times a content particle may occur.
#[derive(Debug, Clone, Copy, PartialEq, Eq, Structural)]
pub enum Quantifier {
    One,
    Optional,
    ZeroOrMore,
    OneOrMore,
}

/// Whether the particles of a group follow each other or exclude each other.
#[derive(Debug, Clone, Copy, PartialEq, Eq, Structural)]
pub enum GroupKind {
    Sequence,
    Choice,
}

/// A parenthesised group of content particles.
#[derive(Debug)]
pub struct Group {
    pub kind: GroupKind,
    pub items: Vec<GroupItem>,
}

/// One content particle of a group, with its quantifier.
#[derive(Debug)]
pub struct GroupItem {
    pub content: GroupItemContent,
    pub quantifier: Quantifier,
}

/// What a content particle names: an element or a nested group.
#[derive(Debug)]
pub enum GroupItemContent {
    Name(String),
    Group(Group),
}

/// The content model of an element declaration.
#[derive(Debug)]
pub enum ContentModel {
    Empty,
    Any,
    Pcdata,
    Mixed(Vec<String>),
    Children(Group),
}

/// Mathematical form of a group: names become character sequences.
pub struct SpecGroup {
    pub kind: GroupKind,
    pub items: Seq<SpecItem>,
}

pub struct SpecItem {
    pub content: SpecItemContent,
    pub quantifier: Quantifier,
}

pub enum SpecItemContent {
    Name(Seq<char>),
    Group(SpecGroup),
}

pub enum SpecContent {
    Empty,
    Any,
    Pcdata,
    Mixed(Seq<Seq<char>>),
    Children(SpecGroup),
}

pub open spec fn strings_view(v: Seq<String>) -> Seq<Seq<char>> {
    Seq::new(v.len(), |i: int| v[i]@)
}

impl Group {
    pub open spec fn spec_view(&self) -> SpecGroup
        decreases self,
    {
        SpecGroup {
            kind: self.kind,
            items: Seq::new(
                self.items.len() as nat,
                |i: int|
                    if 0 <= i < self.items.len() {
                        self.items[i].spec_view()
                    } else {
                        SpecItem { content: SpecItemContent::Name(Seq::empty()), quantifier: Quantifier::One }
                    },
            ),
        }
    }
}

impl GroupItem {
    pub open spec fn spec_view(&self) -> SpecItem
        decreases self,
    {
        SpecItem {
            content: match &self.content {
                GroupItemContent::Name(n) => SpecItemContent::Name(n@),
                GroupItemContent::Group(g) => SpecItemContent::Group(g.spec_view()),
            },
            quantifier: self.quantifier,
        }
    }
}

impl ContentModel {
    pub open spec fn spec_view(&self) -> SpecContent {
        match self {
            ContentModel::Empty => SpecContent::Empty,
            ContentModel::Any => SpecContent::Any,
            ContentModel::Pcdata => SpecContent::Pcdata,
            ContentModel::Mixed(names) => SpecContent::Mixed(strings_view(names@)),
            ContentModel::Children(g) => SpecContent::Children(g.spec_view()),
        }
    }
}

/// An element declaration, with the attributes declared for it.
#[derive(Debug)]
pub struct Element {
    pub name: String,
    pub content: ContentModel,
    pub attributes: Vec<Attribute>,
}

/// The declared type of an attribute.
#[derive(Debug)]
pub enum AttrType {
    Cdata,
    Id,
    Idref,
    Idrefs,
    Nmtoken,
    Nmtokens,
    Enumeration(Vec<String>),
}

/// The default declaration of an attribute.
#[derive(Debug)]
pub enum AttrDefault {
    Required,
    Implied,
    Fixed(String),
    Default(String),
}

/// One attribute definition of an `<!ATTLIST` declaration.
#[derive(Debug)]
pub struct Attribute {
    pub name: String,
    pub attr_type: AttrType,
    pub default: AttrDefault,
}

/// An `<!ENTITY` declaration; `is_parameter` for `%` entities.
#[derive(Debug)]
pub struct Entity {
    pub name: String,
    pub is_parameter: bool,
    pub kind: EntityKind,
}

/// What an entity stands for.
#[derive(Debug)]
pub enum EntityKind {
    Internal { value: String },
    ExternalSystem { uri: String },
    ExternalPublic { public_id: String, uri: String },
}

pub enum SpecAttrType {
    Cdata,
    Id,
    Idref,
    Idrefs,
    Nmtoken,
    Nmtokens,
    Enumeration(Seq<Seq<char>>),
}

pub enum SpecAttrDefault {
    Required,
    Implied,
    Fixed(Seq<char>),
    Default(Seq<char>),
}

pub struct SpecAttribute {
    pub name: Seq<char>,
    pub attr_type: SpecAttrType,
    pub default: SpecAttrDefault,
}

pub enum SpecEntityKind {
    Internal { value: Seq<char> },
    ExternalSystem { uri: Seq<char> },
    ExternalPublic { public_id: Seq<char>, uri: Seq<char> },
}

pub struct SpecEntity {
    pub name: Seq<char>,
    pub is_parameter: bool,
    pub kind: SpecEntityKind,
}

pub struct SpecElement {
    pub name: Seq<char>,
    pub content: SpecContent,
    pub attributes: Seq<SpecAttribute>,
}

impl View for AttrType {
    type V = SpecAttrType;

    open spec fn view(&self) -> SpecAttrType {
        match self {
            AttrType::Cdata => SpecAttrType::Cdata,
            AttrType::Id => SpecAttrType::Id,
            AttrType::Idref => SpecAttrType::Idref,
            AttrType::Idrefs => SpecAttrType::Idrefs,
            AttrType::Nmtoken => SpecAttrType::Nmtoken,
            AttrType::Nmtokens => SpecAttrType::Nmtokens,
            AttrType::Enumeration(v) => SpecAttrType::Enumeration(strings_view(v@)),
        }
    }
}

impl View for AttrDefault {
    type V = SpecAttrDefault;

    open spec fn view(&self) -> SpecAttrDefault {
        match self {
            AttrDefault::Required => SpecAttrDefault::Required,
            AttrDefault::Implied => SpecAttrDefault::Implied,
            AttrDefault::Fixed(v) => SpecAttrDefault::Fixed(v@),
            AttrDefault::Default(v) => SpecAttrDefault::Default(v@),
        }
    }
}

impl View for Attribute {
    type V = SpecAttribute;

    open spec fn view(&self) -> SpecAttribute {
        SpecAttribute { name: self.name@, attr_type: self.attr_type@, default: self.default@ }
    }
}

pub open spec fn attributes_view(v: Seq<Attribute>) -> Seq<SpecAttribute> {
    Seq::new(v.len(), |i: int| v[i]@)
}

impl View for EntityKind {
    type V = SpecEntityKind;

    open spec fn view(&self) -> SpecEntityKind {
        match self {
            EntityKind::Internal { value } => SpecEntityKind::Internal { value: value@ },
            EntityKind::ExternalSystem { uri } => SpecEntityKind::ExternalSystem { uri: uri@ },
            EntityKind::ExternalPublic { public_id, uri } => SpecEntityKind::ExternalPublic {
                public_id: public_id@,
                uri: uri@,
            },
        }
    }
}

impl View for Entity {
    type V = SpecEntity;

    open spec fn view(&self) -> SpecEntity {
        SpecEntity { name: self.name@, is_parameter: self.is_parameter, kind: self.kind@ }
    }
}

pub open spec fn entities_view(v: Seq<Entity>) -> Seq<SpecEntity> {
    Seq::new(v.len(), |i: int| v[i]@)
}

impl Element {
    pub open spec fn spec_view(&self) -> SpecElement {
        SpecElement {
            name: self.name@,
            content: self.content.spec_view(),
            attributes: attributes_view(self.attributes@),
        }
    }
}

impl Clone for Group {
    fn clone(&self) -> (r: Self)
        ensures
            r.spec_view() == self.spec_view(),
        decreases self,
    {
        let mut items: Vec<GroupItem> = Vec::new();
        let mut i: usize = 0;
        while i < self.items.len()
            invariant
                i <= self.items@.len(),
                items@.len() == i,
                forall|j: int| 0 <= j < i ==> (#[trigger] items@[j]).spec_view() == self.items@[j].spec_view(),
            decreases self.items@.len() - i,
        {
            proof {
                assert(decreases_to!(self.items => self.items[i as int]));
            }
            items.push(self.items[i].clone());
            i += 1;
        }
        let r = Group { kind: self.kind, items };
        assert(r.spec_view().items =~= self.spec_view().items);
        r
    }
}

impl Clone for GroupItem {
    fn clone(&self) -> (r: Self)
        ensures
            r.spec_view() == self.spec_view(),
        decreases self,
    {
        GroupItem { content: self.content.clone(), quantifier: self.quantifier }
    }
}

impl Clone for GroupItemContent {
    fn clone(&self) -> (r: Self)
        ensures
            r matches GroupItemContent::Name(n) ==> self matches GroupItemContent::Name(m) && n@ == m@,
            r matches GroupItemContent::Group(g) ==> self matches GroupItemContent::Group(h)
                && g.spec_view() == h.spec_view(),
        decreases self,
    {
        match self {
            GroupItemContent::Name(n) => GroupItemContent::Name(n.clone()),
            GroupItemContent::Group(g) => GroupItemContent::Group(g.clone()),
        }
    }
}

impl Clone for ContentModel {
    fn clone(&self) -> (r: Self)
        ensures
            r.spec_view() == self.spec_view(),
    {
        match self {
            ContentModel::Empty => ContentModel::Empty,
            ContentModel::Any => ContentModel::Any,
            ContentModel::Pcdata => ContentModel::Pcdata,
            ContentModel::Mixed(names) => {
                let r = ContentModel::Mixed(names.clone());
                assert(r.spec_view() == self.spec_view()) by {
                    if let ContentModel::Mixed(copy) = r {
                        assert(strings_view(copy@) =~= strings_view(names@));
                    }
                }
                r
            },
            ContentModel::Children(g) => ContentModel::Children(g.clone()),
        }
    }
}

impl Clone for AttrType {
    fn clone(&self) -> (r: Self)
        ensures
            r@ == self@,
    {
        match self {
            AttrType::Cdata => AttrType::Cdata,
            AttrType::Id => AttrType::Id,
            AttrType::Idref => AttrType::Idref,
            AttrType::Idrefs => AttrType::Idrefs,
            AttrType::Nmtoken => AttrType::Nmtoken,
            AttrType::Nmtokens => AttrType::Nmtokens,
            AttrType::Enumeration(v) => {
                let c = v.clone();
                assert(strings_view(c@) =~= strings_view(v@));
                AttrType::Enumeration(c)
            },
        }
    }
}

impl Clone for AttrDefault {
    fn clone(&self) -> (r: Self)
        ensures
            r@ == self@,
    {
        match self {
            AttrDefault::Required => AttrDefault::Required,
            AttrDefault::Implied => AttrDefault::Implied,
            AttrDefault::Fixed(v) => AttrDefault::Fixed(v.clone()),
            AttrDefault::Default(v) => AttrDefault::Default(v.clone()),
        }
    }
}

impl Clone for Attribute {
    fn clone(&self) -> (r: Self)
        ensures
            r@ == self@,
    {
        Attribute {
            name: self.name.clone(),
            attr_type: self.attr_type.clone(),
            default: self.default.clone(),
        }
    }
}

impl Clone for EntityKind {
    fn clone(&self) -> (r: Self)
        ensures
            r@ == self@,
    {
        match self {
            EntityKind::Internal { value } => EntityKind::Internal { value: value.clone() },
            EntityKind::ExternalSystem { uri } => EntityKind::ExternalSystem { uri: uri.clone() },
            EntityKind::ExternalPublic { public_id, uri } => EntityKind::ExternalPublic {
                public_id: public_id.clone(),
                uri: uri.clone(),
            },
        }
    }
}

impl Clone for Entity {
    fn clone(&self) -> (r: Self)
        ensures
            r@ == self@,
    {
        Entity { name: self.name.clone(), is_parameter: self.is_parameter, kind: self.kind.clone() }
    }
}

impl Clone for Element {
    fn clone(&self) -> (r: Self)
        ensures
            r.spec_view() == self.spec_view(),
    {
        let mut attributes: Vec<Attribute> = Vec::new();
        let mut i: usize = 0;
        while i < self.attributes.len()
            invariant
                i <= self.attributes@.len(),
                attributes_view(attributes@) =~= attributes_view(self.attributes@).subrange(0, i as int),
            decreases self.attributes@.len() - i,
        {
            let ghost before = attributes_view(attributes@);
            let a = self.attributes[i].clone();
            attributes.push(a);
            assert(attributes_view(attributes@) =~= before.push(self.attributes@[i as int]@));
            assert(attributes_view(self.attributes@).subrange(0, i + 1) =~= attributes_view(
                self.attributes@,
            ).subrange(0, i as int).push(self.attributes@[i as int]@));
            i += 1;
        }
        assert(attributes_view(self.attributes@).subrange(0, i as int) =~= attributes_view(
            self.attributes@,
        ));
        Element { name: self.name.clone(), content: self.content.clone(), attributes }
    }
}

pub open spec fn elements_view(v: Seq<Element>) -> Seq<SpecElement> {
    Seq::new(v.len(), |i: int| v[i].spec_view())
}

// ---------------------------------------------------------------------------
// The element map of a DTD
// ---------------------------------------------------------------------------

#[verifier::external_type_specification]
#[verifier::external_body]
#[verifier::reject_recursive_types(K)]
#[verifier::reject_recursive_types(V)]
#[verifier::reject_recursive_types(S)]
pub struct ExIndexMap<K, V, S>(IndexMap<K, V, S>);

/// The entries of an element map, in the map's order: each key with the view of
/// its element.
pub uninterp spec fn map_entries(m: IndexMap<String, Element, RandomState>) -> Seq<
    (Seq<char>, SpecElement),
>;

/// The first index at or after `i` whose key is `k`.
pub open spec fn find_key(es: Seq<(Seq<char>, SpecElement)>, k: Seq<char>, i: int) -> Option<int>
    decreases es.len() - i,
{
    if i < 0 || i >= es.len() {
        None
    } else if es[i].0 == k {
        Some(i)
    } else {
        find_key(es, k, i + 1)
    }
}

/// The index of key `k`, if it is present.
pub open spec fn key_index(es: Seq<(Seq<char>, SpecElement)>, k: Seq<char>) -> Option<int> {
    find_key(es, k, 0)
}

/// No key occurs twice.
pub open spec fn keys_unique(es: Seq<(Seq<char>, SpecElement)>) -> bool {
    forall|i: int, j: int| 0 <= i < j < es.len() ==> es[i].0 != es[j].0
}

proof fn lemma_find_key(es: Seq<(Seq<char>, SpecElement)>, k: Seq<char>, p: int)
    requires
        0 <= p,
    ensures
        (forall|j: int| p <= j < es.len() ==> #[trigger] es[j].0 != k) ==> find_key(es, k, p) is None,
        forall|i: int|
            p <= i < es.len() && es[i].0 == k && (forall|j: int|
                p <= j < i ==> #[trigger] es[j].0 != k) ==> find_key(es, k, p) == Some(i),
    decreases es.len() - p,
{
    if p < es.len() {
        lemma_find_key(es, k, p + 1);
        assert forall|i: int|
            p <= i < es.len() && es[i].0 == k && (forall|j: int|
                p <= j < i ==> #[trigger] es[j].0 != k) implies find_key(es, k, p) == Some(i) by {
            if i > p {
                assert(es[p].0 != k);
            }
        }
    }
}

/// A key that only entry `i` holds is found at `i`.
pub proof fn lemma_key_index_at(es: Seq<(Seq<char>, SpecElement)>, k: Seq<char>, i: int)
    requires
        0 <= i < es.len(),
        es[i].0 == k,
        forall|j: int| 0 <= j < es.len() && j != i ==> #[trigger] es[j].0 != k,
    ensures
        key_index(es, k) == Some(i),
{
    lemma_find_key(es, k, 0);
}

/// A key that is found is held by the entry where it is found.
pub proof fn lemma_key_index_some(es: Seq<(Seq<char>, SpecElement)>, k: Seq<char>)
    ensures
        key_index(es, k) matches Some(j) ==> 0 <= j < es.len() && es[j].0 == k,
{
    lemma_find_key_some(es, k, 0);
}

proof fn lemma_find_key_some(es: Seq<(Seq<char>, SpecElement)>, k: Seq<char>, p: int)
    ensures
        find_key(es, k, p) matches Some(j) ==> p <= j < es.len() && es[j].0 == k,
    decreases es.len() - p,
{
    if 0 <= p < es.len() && es[p].0 != k {
        lemma_find_key_some(es, k, p + 1);
    }
}

/// A key that no entry holds is not found.
pub proof fn lemma_key_index_none(es: Seq<(Seq<char>, SpecElement)>, k: Seq<char>)
    requires
        forall|j: int| 0 <= j < es.len() ==> #[trigger] es[j].0 != k,
    ensures
        key_index(es, k) is None,
{
    lemma_find_key(es, k, 0);
}

/// What inserting `v` under `k` does to the entries: an existing key keeps its
/// place and gets the new value; a new key goes last.
pub open spec fn map_insert(es: Seq<(Seq<char>, SpecElement)>, k: Seq<char>, v: SpecElement) -> Seq<
    (Seq<char>, SpecElement),
> {
    match key_index(es, k) {
        Some(i) => es.update(i, (es[i].0, v)),
        None => es.push((k, v)),
    }
}

/// `IndexMap::new`: an empty map.
#[verifier::external_body]
pub(crate) fn element_map_new() -> (r: IndexMap<String, Element>)
    ensures
        map_entries(r) == Seq::<(Seq<char>, SpecElement)>::empty(),
{
    IndexMap::new()
}

/// `IndexMap::len`: the number of entries.
#[verifier::external_body]
pub(crate) fn element_map_len(m: &IndexMap<String, Element>) -> (r: usize)
    ensures
        r == map_entries(*m).len(),
{
    m.len()
}

/// `IndexMap::get_index_of`: the index of the entry whose key equals `key`;
/// keys are unique, so no other entry has it.
#[verifier::external_body]
pub(crate) fn element_map_index_of(m: &IndexMap<String, Element>, key: &str) -> (r: Option<usize>)
    ensures
        r matches Some(i) ==> i < map_entries(*m).len() && map_entries(*m)[i as int].0 == key@
            && forall|j: int|
            0 <= j < map_entries(*m).len() && j != i ==> #[trigger] map_entries(*m)[j].0 != key@,
        r is None ==> forall|j: int|
            0 <= j < map_entries(*m).len() ==> #[trigger] map_entries(*m)[j].0 != key@,
{
    m.get_index_of(key)
}

/// `IndexMap::get_index`: the key and element at index `i`, if there is one.
#[verifier::external_body]
pub(crate) fn element_map_get_index(m: &IndexMap<String, Element>, i: usize)
    -> (r: Option<(&String, &Element)>)
    ensures
        i < map_entries(*m).len() ==> r is Some && r->Some_0.0@ == map_entries(*m)[i as int].0
            && r->Some_0.1.spec_view() == map_entries(*m)[i as int].1,
        i >= map_entries(*m).len() ==> r is None,
{
    m.get_index(i)
}

/// `IndexMap::insert`: an existing key keeps its place and gets the new
/// element, whose old element is handed back; a new key goes last.
#[verifier::external_body]
pub(crate) fn element_map_insert(m: &mut IndexMap<String, Element>, key: String, value: Element)
    -> (r: Option<Element>)
    ensures
        keys_unique(map_entries(*old(m))) ==> keys_unique(map_entries(*final(m))),
        map_entries(*final(m)) == map_insert(map_entries(*old(m)), key@, value.spec_view()),
        key_index(map_entries(*old(m)), key@) matches Some(i) ==> r matches Some(o)
            && o.spec_view() == map_entries(*old(m))[i].1,
        key_index(map_entries(*old(m)), key@) is None ==> r is None,
{
    m.insert(key, value)
}

/// `IndexMap::clone`: a map whose entries are clones of the entries of `m`, in
/// the same order. Each key is a `String` clone, each value goes through
/// `Element::clone`, whose contract keeps its view.
#[verifier::external_body]
pub(crate) fn element_map_clone(m: &IndexMap<String, Element>) -> (r: IndexMap<String, Element>)
    ensures
        map_entries(r) == map_entries(*m),
{
    m.clone()
}

/// A parsed DTD: its elements by name, in declaration order, and its entities.
#[derive(Debug)]
pub struct Dtd {
    pub elements: IndexMap<String, Element>,
    pub entities: Vec<Entity>,
}

impl Dtd {
    pub open spec fn element_entries(&self) -> Seq<(Seq<char>, SpecElement)> {
        map_entries(self.elements)
    }
}

impl Clone for Dtd {
    fn clone(&self) -> (r: Self)
        ensures
            r.element_entries() == self.element_entries(),
            entities_view(r.entities@) == entities_view(self.entities@),
    {
        let mut entities: Vec<Entity> = Vec::new();
        let mut i: usize = 0;
        while i < self.entities.len()
            invariant
                i <= self.entities@.len(),
                entities@.len() == i,
                forall|j: int| 0 <= j < i ==> (#[trigger] entities@[j])@ == self.entities@[j]@,
            decreases self.entities@.len() - i,
        {
            entities.push(self.entities[i].clone());
            i = i + 1;
        }
        assert(entities_view(entities@) =~= entities_view(self.entities@));
        Dtd { elements: element_map_clone(&self.elements), entities }
    }
}

} // verus!
