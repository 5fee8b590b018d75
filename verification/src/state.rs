//! The state of the interactive tree view: which rows are shown, where the
//! cursor is, which paths are expanded, the search, and the overlay.
use vstd::prelude::*;
use vstd::seq_lib::*;

use crate::model::{
    element_map_get_index, element_map_index_of, element_map_len, key_index, lemma_key_index_at,
    lemma_key_index_none, lemma_key_index_some, strings_view, Dtd, Quantifier, SpecElement,
};
use crate::format::{decimal, decimal_text, digit};
use crate::laws::law_collapse_undoes_expand;
use crate::text::{is_prefix, str_eq};
use crate::tree::{
    content_children, find_tree_roots, get_direct_children, is_named, pairs_view, tree_roots_of,
};

verus! {

broadcast use vstd::seq_lib::group_seq_properties;

/// One visible row of the tree.
#[derive(Debug)]
pub struct TreeRow {
    pub depth: usize,
    pub element_name: String,
    pub quantifier: Quantifier,
    pub has_children: bool,
    pub is_expanded: bool,
    /// unique path like "library/book/chapter": the names from the root down,
    /// joined by `/`; a child named like an earlier sibling adds its position,
    /// as in "r/a[1]"
    pub path: String,
}

/// The window shown over the tree.
#[derive(Debug)]
pub enum Overlay {
    Entities,
    /// element name
    Attributes(String),
}

pub struct RowView {
    pub depth: int,
    pub element_name: Seq<char>,
    pub quantifier: Quantifier,
    pub has_children: bool,
    pub is_expanded: bool,
    pub path: Seq<char>,
}

impl View for TreeRow {
    type V = RowView;

    open spec fn view(&self) -> RowView {
        RowView {
            depth: self.depth as int,
            element_name: self.element_name@,
            quantifier: self.quantifier,
            has_children: self.has_children,
            is_expanded: self.is_expanded,
            path: self.path@,
        }
    }
}

impl Clone for TreeRow {
    fn clone(&self) -> (r: Self)
        ensures
            r@ == self@,
    {
        TreeRow {
            depth: self.depth,
            element_name: self.element_name.clone(),
            quantifier: self.quantifier,
            has_children: self.has_children,
            is_expanded: self.is_expanded,
            path: self.path.clone(),
        }
    }
}

impl Clone for Overlay {
    fn clone(&self) -> (r: Self)
        ensures
            r is Entities <==> self is Entities,
            r matches Overlay::Attributes(n) ==> self matches Overlay::Attributes(m) && n@ == m@,
    {
        match self {
            Overlay::Entities => Overlay::Entities,
            Overlay::Attributes(name) => Overlay::Attributes(name.clone()),
        }
    }
}

pub open spec fn rows_view(v: Seq<TreeRow>) -> Seq<RowView> {
    Seq::new(v.len(), |i: int| v[i]@)
}

// ---------------------------------------------------------------------------
// Which rows the tree shows
// ---------------------------------------------------------------------------

pub open spec fn keys_of(es: Seq<(Seq<char>, SpecElement)>) -> Seq<Seq<char>> {
    es.map_values(|e: (Seq<char>, SpecElement)| e.0)
}

/// How many keys are not yet on the current path.
pub open spec fn keys_left(es: Seq<(Seq<char>, SpecElement)>, anc: Seq<Seq<char>>) -> nat {
    keys_of(es).to_set().difference(anc.to_set()).len()
}

pub proof fn lemma_keys_left(es: Seq<(Seq<char>, SpecElement)>, anc: Seq<Seq<char>>, j: int)
    requires
        0 <= j < es.len(),
        !anc.contains(es[j].0),
    ensures
        keys_left(es, anc.push(es[j].0)) < keys_left(es, anc),
{
    let n = es[j].0;
    assert(keys_of(es)[j] == n);
    assert(keys_of(es).to_set().contains(n));
    anc.lemma_push_to_set_commute(n);
    let d = keys_of(es).to_set().difference(anc.to_set());
    assert(keys_of(es).to_set().difference(anc.push(n).to_set()) =~= d.remove(n));
    assert(d.contains(n));
}

/// The children of the element named `name`, or none when it is not declared.
pub open spec fn children_of_name(es: Seq<(Seq<char>, SpecElement)>, name: Seq<char>) -> Seq<
    (Seq<char>, Quantifier),
> {
    match key_index(es, name) {
        Some(j) => if 0 <= j < es.len() {
            content_children(es[j].1.content)
        } else {
            seq![]
        },
        None => seq![],
    }
}

// ---------------------------------------------------------------------------
// Row paths
// ---------------------------------------------------------------------------

/// Is child `k` named like an earlier child of the same element?
pub open spec fn repeated_at(children: Seq<(Seq<char>, Quantifier)>, k: int) -> bool {
    exists|i: int| 0 <= i < k && children[i].0 == children[k].0
}

/// The path step of child `k`: its name, followed by `[k]` when an earlier
/// sibling has the same name.
pub open spec fn segment(children: Seq<(Seq<char>, Quantifier)>, k: int) -> Seq<char> {
    if repeated_at(children, k) {
        children[k].0 + seq!['['] + decimal(k as nat) + seq![']']
    } else {
        children[k].0
    }
}

/// The path of child `k` of the node at `path`: `path/name`, or `path/name[k]`
/// for a repeated name.
pub open spec fn child_path(path: Seq<char>, children: Seq<(Seq<char>, Quantifier)>, k: int) -> Seq<
    char,
> {
    path + seq!['/'] + segment(children, k)
}

/// No two rows have the same path.
pub open spec fn paths_distinct(rows: Seq<RowView>) -> bool {
    forall|i: int, j: int| 0 <= i < j < rows.len() ==> rows[i].path != rows[j].path
}

/// A name that holds neither `/` nor `[`.
pub open spec fn plain(s: Seq<char>) -> bool {
    forall|i: int| 0 <= i < s.len() ==> #[trigger] s[i] != '/' && s[i] != '['
}

/// Every element name, and every name an element's content gives, is plain.
pub open spec fn plain_names(es: Seq<(Seq<char>, SpecElement)>) -> bool {
    forall|i: int|
        0 <= i < es.len() ==> plain(#[trigger] es[i].0) && forall|j: int|
            0 <= j < content_children(es[i].1.content).len() ==> plain(
                #[trigger] content_children(es[i].1.content)[j].0,
            )
}

spec fn no_slash(s: Seq<char>) -> bool {
    forall|i: int| 0 <= i < s.len() ==> #[trigger] s[i] != '/'
}

/// `x` is the path `q` or a path below it.
spec fn under(q: Seq<char>, x: Seq<char>) -> bool {
    x == q || is_prefix(q + seq!['/'], x)
}

proof fn lemma_digit(d: nat)
    requires
        d < 10,
    ensures
        '0' <= digit(d) <= '9',
        digit(d) as u32 == 48 + d,
{
}

proof fn lemma_decimal_digits(n: nat)
    ensures
        decimal(n).len() >= 1,
        forall|i: int| 0 <= i < decimal(n).len() ==> '0' <= #[trigger] decimal(n)[i] <= '9',
    decreases n,
{
    lemma_digit(n % 10);
    if n >= 10 {
        lemma_decimal_digits(n / 10);
    }
}

proof fn lemma_decimal_injective(a: nat, b: nat)
    requires
        decimal(a) == decimal(b),
    ensures
        a == b,
    decreases a,
{
    lemma_digit(a % 10);
    lemma_digit(b % 10);
    if a >= 10 {
        lemma_decimal_digits(a / 10);
        assert(decimal(a).len() >= 2);
        assert(decimal(a).last() == digit(a % 10));
    } else {
        assert(decimal(a).len() == 1);
        assert(decimal(a).last() == digit(a % 10));
    }
    if b >= 10 {
        lemma_decimal_digits(b / 10);
        assert(decimal(b).len() >= 2);
        assert(decimal(b).last() == digit(b % 10));
    } else {
        assert(decimal(b).len() == 1);
        assert(decimal(b).last() == digit(b % 10));
    }
    assert(a % 10 == b % 10);
    if a >= 10 && b >= 10 {
        assert(decimal(a / 10) == decimal(a).drop_last());
        assert(decimal(b / 10) == decimal(b).drop_last());
        lemma_decimal_injective(a / 10, b / 10);
    }
}

proof fn lemma_prefix_trans(a: Seq<char>, b: Seq<char>, c: Seq<char>)
    requires
        is_prefix(a, b),
        is_prefix(b, c),
    ensures
        is_prefix(a, c),
{
    assert(c.subrange(0, a.len() as int) =~= b.subrange(0, a.len() as int));
}

proof fn lemma_prefix_of_extension(p: Seq<char>, x: Seq<char>, s: Seq<char>)
    requires
        is_prefix(p + x, s),
    ensures
        is_prefix(p, s),
{
    assert(is_prefix(p, p + x)) by {
        assert((p + x).subrange(0, p.len() as int) =~= p);
    }
    lemma_prefix_trans(p, p + x, s);
}

/// No path lies under two different steps without `/` after the same start.
#[verifier::rlimit(40)]
proof fn lemma_steps_clash(q: Seq<char>, s: Seq<char>, t: Seq<char>, x: Seq<char>)
    requires
        no_slash(s),
        no_slash(t),
        s != t,
        under(q + s, x),
    ensures
        !under(q + t, x),
{
    if under(q + t, x) {
        let m = q.len() as int;
        assert forall|i: int| 0 <= i < s.len() implies x[m + i] == s[i] by {
            if x == q + s {
            } else {
                assert(x.subrange(0, (q + s + seq!['/']).len() as int)[m + i] == (q + s + seq!['/'])[m + i]);
            }
        }
        assert forall|i: int| 0 <= i < t.len() implies x[m + i] == t[i] by {
            if x == q + t {
            } else {
                assert(x.subrange(0, (q + t + seq!['/']).len() as int)[m + i] == (q + t + seq!['/'])[m + i]);
            }
        }
        if s.len() == t.len() {
            assert(s =~= t);
        } else if s.len() < t.len() {
            let i = m + s.len();
            assert(x.len() >= m + t.len());
            assert(x[i] == t[s.len() as int]);
            if x != q + s {
                assert(x.subrange(0, (q + s + seq!['/']).len() as int)[i] == (q + s + seq!['/'])[i]);
            }
        } else {
            let i = m + t.len();
            assert(x.len() >= m + s.len());
            assert(x[i] == s[t.len() as int]);
            if x != q + t {
                assert(x.subrange(0, (q + t + seq!['/']).len() as int)[i] == (q + t + seq!['/'])[i]);
            }
        }
    }
}

proof fn lemma_segment_no_slash(children: Seq<(Seq<char>, Quantifier)>, k: int)
    requires
        0 <= k < children.len(),
        plain(children[k].0),
    ensures
        no_slash(segment(children, k)),
{
    lemma_decimal_digits(k as nat);
    let sg = segment(children, k);
    let n = children[k].0;
    assert forall|i: int| 0 <= i < sg.len() implies #[trigger] sg[i] != '/' by {
        if i < n.len() {
            assert(sg[i] == n[i]);
        } else if repeated_at(children, k) && n.len() < i < n.len() + 1 + decimal(k as nat).len() {
            assert(sg[i] == decimal(k as nat)[i - n.len() - 1]);
        }
    }
}

/// Two children have different path steps.
#[verifier::rlimit(40)]
proof fn lemma_segments_differ(children: Seq<(Seq<char>, Quantifier)>, j: int, k: int)
    requires
        0 <= j < k < children.len(),
        plain(children[j].0),
        plain(children[k].0),
    ensures
        segment(children, j) != segment(children, k),
{
    let a = children[j].0;
    let b = children[k].0;
    let sj = segment(children, j);
    let sk = segment(children, k);
    lemma_decimal_digits(j as nat);
    lemma_decimal_digits(k as nat);
    if sj == sk {
        if a == b {
            assert(repeated_at(children, k));
            if repeated_at(children, j) {
                let dj = decimal(j as nat);
                let dk = decimal(k as nat);
                assert(sj.len() == sk.len());
                assert(dj.len() == dk.len());
                assert(dj =~= dk) by {
                    assert forall|i: int| 0 <= i < dj.len() implies dj[i] == dk[i] by {
                        assert(sj[a.len() + 1 + i] == dj[i]);
                        assert(sk[a.len() + 1 + i] == dk[i]);
                    }
                }
                lemma_decimal_injective(j as nat, k as nat);
            } else {
                assert(sj.len() < sk.len());
            }
        } else if a.len() == b.len() {
            assert(a =~= b) by {
                assert forall|i: int| 0 <= i < a.len() implies a[i] == b[i] by {
                    assert(sj[i] == a[i]);
                    assert(sk[i] == b[i]);
                }
            }
        } else if a.len() < b.len() {
            let i = a.len() as int;
            assert(sk[i] == b[i]);
            assert(b[i] != '[');
            if repeated_at(children, j) {
                assert(sj[i] == '[');
            } else {
                assert(sj.len() == a.len());
            }
        } else {
            let i = b.len() as int;
            assert(sj[i] == a[i]);
            assert(a[i] != '[');
            if repeated_at(children, k) {
                assert(sk[i] == '[');
            } else {
                assert(sk.len() == b.len());
            }
        }
    }
}

proof fn lemma_children_plain(es: Seq<(Seq<char>, SpecElement)>, name: Seq<char>)
    requires
        plain_names(es),
    ensures
        forall|j: int| 0 <= j < children_of_name(es, name).len() ==> plain(
            #[trigger] children_of_name(es, name)[j].0,
        ),
{
    lemma_key_index_some(es, name);
}

/// The path step of child `k`, as text.
fn segment_text(children: &Vec<(String, Quantifier)>, k: usize) -> (r: String)
    requires
        k < children@.len(),
    ensures
        r@ == segment(pairs_view(children@), k as int),
{
    let ghost ch = pairs_view(children@);
    let name = &children[k].0;
    let mut repeated = false;
    let mut i: usize = 0;
    while i < k
        invariant
            k < children@.len(),
            ch == pairs_view(children@),
            name@ == children@[k as int].0@,
            i <= k,
            repeated == exists|t: int| 0 <= t < i && ch[t].0 == ch[k as int].0,
        decreases k - i,
    {
        let same = str_eq(children[i].0.as_str(), name.as_str());
        assert(same == (children@[i as int].0@ == children@[k as int].0@));
        assert(ch[i as int].0 == children@[i as int].0@);
        assert(ch[k as int].0 == children@[k as int].0@);
        if same {
            repeated = true;
        }
        proof {
            if same {
                assert(0 <= i < i + 1 && ch[i as int].0 == ch[k as int].0);
            } else {
                if exists|t: int| 0 <= t < i + 1 && ch[t].0 == ch[k as int].0 {
                    let t = choose|t: int| 0 <= t < i + 1 && ch[t].0 == ch[k as int].0;
                    assert(t < i);
                }
                if exists|t: int| 0 <= t < i && ch[t].0 == ch[k as int].0 {
                    let t = choose|t: int| 0 <= t < i && ch[t].0 == ch[k as int].0;
                    assert(0 <= t < i + 1);
                }
            }
        }
        i += 1;
    }
    let mut r = name.clone();
    if repeated {
        r.push('[');
        let d = decimal_text(k);
        r.append(d.as_str());
        r.push(']');
    }
    r
}

/// The row for `name` at `depth` along `path`, then, when it is expanded, the
/// rows below it. An element already on the path shows no children.
pub open spec fn subtree_rows(
    es: Seq<(Seq<char>, SpecElement)>,
    exp: Seq<Seq<char>>,
    name: Seq<char>,
    depth: int,
    path: Seq<char>,
    q: Quantifier,
    anc: Seq<Seq<char>>,
) -> Seq<RowView>
    decreases keys_left(es, anc), 0int,
{
    let children = children_of_name(es, name);
    let has_children = !anc.contains(name) && children.len() > 0;
    let is_expanded = has_children && exp.contains(path);
    let row = RowView { depth, element_name: name, quantifier: q, has_children, is_expanded, path };
    if is_expanded {
        proof {
            lemma_key_index_some(es, name);
            lemma_keys_left(es, anc, key_index(es, name)->Some_0);
        }
        seq![row] + children_rows(es, exp, children, 0, depth + 1, path, anc.push(name))
    } else {
        seq![row]
    }
}

/// The rows for children `k..` of the element at `path`.
pub open spec fn children_rows(
    es: Seq<(Seq<char>, SpecElement)>,
    exp: Seq<Seq<char>>,
    children: Seq<(Seq<char>, Quantifier)>,
    k: int,
    depth: int,
    path: Seq<char>,
    anc: Seq<Seq<char>>,
) -> Seq<RowView>
    decreases keys_left(es, anc), children.len() - k + 1,
    when 0 <= k <= children.len()
{
    if k >= children.len() {
        seq![]
    } else {
        let (cname, cq) = children[k];
        subtree_rows(es, exp, cname, depth, child_path(path, children, k), cq, anc) + children_rows(
            es,
            exp,
            children,
            k + 1,
            depth,
            path,
            anc,
        )
    }
}

pub open spec fn rows_from_roots(
    es: Seq<(Seq<char>, SpecElement)>,
    exp: Seq<Seq<char>>,
    roots: Seq<Seq<char>>,
    k: int,
) -> Seq<RowView>
    decreases roots.len() - k,
{
    if k < 0 || k >= roots.len() {
        seq![]
    } else {
        subtree_rows(es, exp, roots[k], 0, roots[k], Quantifier::One, seq![])
            + rows_from_roots(
            es,
            exp,
            roots,
            k + 1,
        )
    }
}

#[verifier::rlimit(40)]
proof fn lemma_subtree_paths(
    es: Seq<(Seq<char>, SpecElement)>,
    exp: Seq<Seq<char>>,
    name: Seq<char>,
    depth: int,
    path: Seq<char>,
    q: Quantifier,
    anc: Seq<Seq<char>>,
)
    requires
        plain_names(es),
    ensures
        ({
            let rs = subtree_rows(es, exp, name, depth, path, q, anc);
            &&& rs.len() >= 1
            &&& rs[0].path == path
            &&& forall|i: int| 0 <= i < rs.len() ==> under(path, #[trigger] rs[i].path)
            &&& paths_distinct(rs)
        }),
    decreases keys_left(es, anc), 0int,
{
    let rs = subtree_rows(es, exp, name, depth, path, q, anc);
    let children = children_of_name(es, name);
    let has_children = !anc.contains(name) && children.len() > 0;
    let is_expanded = has_children && exp.contains(path);
    if is_expanded {
        lemma_key_index_some(es, name);
        lemma_keys_left(es, anc, key_index(es, name)->Some_0);
        lemma_children_plain(es, name);
        let anc1 = anc.push(name);
        lemma_children_paths(es, exp, children, 0, depth + 1, path, anc1);
        let cr = children_rows(es, exp, children, 0, depth + 1, path, anc1);
        assert forall|i: int| 0 <= i < rs.len() implies under(path, #[trigger] rs[i].path) by {
            if i >= 1 {
                assert(rs[i] == cr[i - 1]);
            }
        }
        assert forall|i: int, j: int| 0 <= i < j < rs.len() implies rs[i].path != rs[j].path by {
            assert(rs[j] == cr[j - 1]);
            if i == 0 {
                assert(is_prefix(path + seq!['/'], rs[j].path));
            } else {
                assert(rs[i] == cr[i - 1]);
            }
        }
    }
}

#[verifier::rlimit(40)]
proof fn lemma_children_paths(
    es: Seq<(Seq<char>, SpecElement)>,
    exp: Seq<Seq<char>>,
    children: Seq<(Seq<char>, Quantifier)>,
    k: int,
    depth: int,
    path: Seq<char>,
    anc: Seq<Seq<char>>,
)
    requires
        plain_names(es),
        0 <= k <= children.len(),
        forall|j: int| 0 <= j < children.len() ==> plain(#[trigger] children[j].0),
    ensures
        ({
            let rs = children_rows(es, exp, children, k, depth, path, anc);
            &&& forall|i: int| 0 <= i < rs.len() ==> is_prefix(path + seq!['/'], #[trigger] rs[i].path)
            &&& forall|i: int, m: int|
                0 <= i < rs.len() && 0 <= m < k ==> !under(
                    #[trigger] child_path(path, children, m),
                    #[trigger] rs[i].path,
                )
            &&& paths_distinct(rs)
        }),
    decreases keys_left(es, anc), children.len() - k + 1,
{
    if k < children.len() {
        let (cname, cq) = children[k];
        let cp = child_path(path, children, k);
        let q = path + seq!['/'];
        assert(cp == q + segment(children, k));
        lemma_subtree_paths(es, exp, cname, depth, cp, cq, anc);
        lemma_children_paths(es, exp, children, k + 1, depth, path, anc);
        lemma_segment_no_slash(children, k);
        let a = subtree_rows(es, exp, cname, depth, cp, cq, anc);
        let b = children_rows(es, exp, children, k + 1, depth, path, anc);
        let rs = children_rows(es, exp, children, k, depth, path, anc);
        assert(rs == a + b);
        assert forall|i: int| 0 <= i < rs.len() implies is_prefix(q, #[trigger] rs[i].path) by {
            if i < a.len() {
                assert(rs[i] == a[i]);
                assert(under(cp, a[i].path));
                if a[i].path == cp {
                    assert(cp.subrange(0, q.len() as int) =~= q);
                } else {
                    assert(q + (segment(children, k) + seq!['/']) =~= cp + seq!['/']);
                    lemma_prefix_of_extension(q, segment(children, k) + seq!['/'], a[i].path);
                }
            } else {
                assert(rs[i] == b[i - a.len()]);
            }
        }
        assert forall|i: int, m: int|
            0 <= i < rs.len() && 0 <= m < k implies !under(
                #[trigger] child_path(path, children, m),
                #[trigger] rs[i].path,
            ) by {
            if i < a.len() {
                assert(rs[i] == a[i]);
                lemma_segments_differ(children, m, k);
                lemma_segment_no_slash(children, m);
                lemma_steps_clash(q, segment(children, k), segment(children, m), a[i].path);
            } else {
                assert(rs[i] == b[i - a.len()]);
            }
        }
        assert forall|i: int, j: int| 0 <= i < j < rs.len() implies rs[i].path != rs[j].path by {
            if j < a.len() {
                assert(rs[i] == a[i] && rs[j] == a[j]);
            } else if i >= a.len() {
                assert(rs[i] == b[i - a.len()] && rs[j] == b[j - a.len()]);
            } else {
                assert(rs[i] == a[i] && rs[j] == b[j - a.len()]);
                assert(under(cp, a[i].path));
                assert(!under(child_path(path, children, k), b[j - a.len()].path));
            }
        }
    } else {
        assert(children_rows(es, exp, children, k, depth, path, anc) =~= Seq::<RowView>::empty());
    }
}

#[verifier::rlimit(40)]
proof fn lemma_roots_paths(
    es: Seq<(Seq<char>, SpecElement)>,
    exp: Seq<Seq<char>>,
    roots: Seq<Seq<char>>,
    k: int,
)
    requires
        plain_names(es),
        0 <= k <= roots.len(),
        roots.no_duplicates(),
        forall|j: int| 0 <= j < roots.len() ==> plain(#[trigger] roots[j]),
    ensures
        ({
            let rs = rows_from_roots(es, exp, roots, k);
            &&& forall|i: int, m: int|
                0 <= i < rs.len() && 0 <= m < k ==> !under(#[trigger] roots[m], #[trigger] rs[i].path)
            &&& paths_distinct(rs)
        }),
    decreases roots.len() - k,
{
    if k < roots.len() {
        lemma_subtree_paths(es, exp, roots[k], 0, roots[k], Quantifier::One, seq![]);
        lemma_roots_paths(es, exp, roots, k + 1);
        let a = subtree_rows(es, exp, roots[k], 0, roots[k], Quantifier::One, seq![]);
        let b = rows_from_roots(es, exp, roots, k + 1);
        let rs = rows_from_roots(es, exp, roots, k);
        assert(rs == a + b);
        let e = Seq::<char>::empty();
        assert forall|i: int, m: int|
            0 <= i < rs.len() && 0 <= m < k implies !under(#[trigger] roots[m], #[trigger] rs[i].path) by {
            if i < a.len() {
                assert(rs[i] == a[i]);
                assert(e + roots[k] =~= roots[k]);
                assert(e + roots[m] =~= roots[m]);
                assert(no_slash(roots[k]));
                assert(no_slash(roots[m]));
                lemma_steps_clash(e, roots[k], roots[m], a[i].path);
            } else {
                assert(rs[i] == b[i - a.len()]);
            }
        }
        assert forall|i: int, j: int| 0 <= i < j < rs.len() implies rs[i].path != rs[j].path by {
            if j < a.len() {
                assert(rs[i] == a[i] && rs[j] == a[j]);
            } else if i >= a.len() {
                assert(rs[i] == b[i - a.len()] && rs[j] == b[j - a.len()]);
            } else {
                assert(rs[i] == a[i] && rs[j] == b[j - a.len()]);
                assert(under(roots[k], a[i].path));
                assert(!under(roots[k], b[j - a.len()].path));
            }
        }
    } else {
        assert(rows_from_roots(es, exp, roots, k) =~= Seq::<RowView>::empty());
    }
}

/// Every row of the tree has a path of its own when no element name holds
/// `/` or `[`, whatever paths are expanded.
pub proof fn law_row_paths_unique(es: Seq<(Seq<char>, SpecElement)>, exp: Seq<Seq<char>>)
    requires
        plain_names(es),
        tree_roots_of(es).no_duplicates(),
    ensures
        paths_distinct(rows_of(es, exp)),
{
    let keys = es.map_values(|e: (Seq<char>, SpecElement)| e.0);
    let rs = tree_roots_of(es);
    assert forall|j: int| 0 <= j < rs.len() implies plain(#[trigger] rs[j]) by {
        keys.lemma_filter_contains_rev(|n: Seq<char>| !is_named(es, n), rs[j]);
        assert(rs.contains(rs[j]));
        let t = choose|t: int| 0 <= t < keys.len() && keys[t] == rs[j];
        assert(plain(es[t].0));
    }
    lemma_roots_paths(es, exp, rs, 0);
}

// ---------------------------------------------------------------------------
// The shape of the rows
// ---------------------------------------------------------------------------

/// Each row is at most one level below the row above it, and below it only
/// when the row above is expanded.
pub open spec fn steps_ok(rs: Seq<RowView>) -> bool {
    forall|i: int, j: int|
        #![trigger rs[i], rs[j]]
        0 <= i && j == i + 1 && j < rs.len() ==> rs[j].depth <= rs[i].depth + 1 && (rs[j].depth
            == rs[i].depth + 1 ==> rs[i].is_expanded)
}

/// A row is expanded exactly when it has children and its path is expanded.
pub open spec fn expansion_ok(rs: Seq<RowView>, exp: Seq<Seq<char>>) -> bool {
    forall|i: int|
        0 <= i < rs.len() ==> (#[trigger] rs[i]).is_expanded == (rs[i].has_children && exp.contains(
            rs[i].path,
        ))
}

/// The names of the rows at depth 0, in order.
pub open spec fn top_names(rs: Seq<RowView>) -> Seq<Seq<char>>
    decreases rs.len(),
{
    if rs.len() == 0 {
        seq![]
    } else {
        top_names(rs.drop_last()) + if rs.last().depth == 0 {
            seq![rs.last().element_name]
        } else {
            seq![]
        }
    }
}

spec fn depth_at_least(rs: Seq<RowView>, d: int) -> bool {
    forall|i: int| 0 <= i < rs.len() ==> (#[trigger] rs[i]).depth >= d
}

proof fn lemma_top_names_concat(a: Seq<RowView>, b: Seq<RowView>)
    ensures
        top_names(a + b) == top_names(a) + top_names(b),
    decreases b.len(),
{
    if b.len() == 0 {
        assert(a + b =~= a);
        assert(top_names(a) + seq![] =~= top_names(a));
    } else {
        lemma_top_names_concat(a, b.drop_last());
        assert((a + b).drop_last() =~= a + b.drop_last());
        assert((a + b).last() == b.last());
    }
}

proof fn lemma_top_names_deep(rs: Seq<RowView>)
    requires
        depth_at_least(rs, 1),
    ensures
        top_names(rs) == Seq::<Seq<char>>::empty(),
    decreases rs.len(),
{
    if rs.len() > 0 {
        assert(depth_at_least(rs.drop_last(), 1)) by {
            assert forall|i: int| 0 <= i < rs.drop_last().len() implies (#[trigger] rs.drop_last()[i]).depth >= 1 by {
                assert(rs.drop_last()[i] == rs[i]);
            }
        }
        lemma_top_names_deep(rs.drop_last());
        assert(rs[rs.len() - 1].depth >= 1);
    }
}

proof fn lemma_steps_concat(a: Seq<RowView>, b: Seq<RowView>)
    requires
        steps_ok(a),
        steps_ok(b),
        a.len() > 0 && b.len() > 0 ==> b[0].depth <= a.last().depth + 1 && (b[0].depth
            == a.last().depth + 1 ==> a.last().is_expanded),
    ensures
        steps_ok(a + b),
{
    let r = a + b;
    assert forall|i: int, j: int| #![trigger r[i], r[j]] 0 <= i && j == i + 1 && j < r.len() implies r[j].depth
        <= r[i].depth + 1 && (r[j].depth == r[i].depth + 1 ==> r[i].is_expanded) by {
        if j < a.len() {
            assert(r[i] == a[i] && r[j] == a[j]);
        } else if i >= a.len() {
            assert(r[i] == b[i - a.len()] && r[j] == b[j - a.len()]);
        } else {
            assert(r[i] == a[a.len() - 1] && r[j] == b[0]);
        }
    }
}

#[verifier::rlimit(40)]
proof fn lemma_subtree_shape(
    es: Seq<(Seq<char>, SpecElement)>,
    exp: Seq<Seq<char>>,
    name: Seq<char>,
    depth: int,
    path: Seq<char>,
    q: Quantifier,
    anc: Seq<Seq<char>>,
)
    ensures
        ({
            let rs = subtree_rows(es, exp, name, depth, path, q, anc);
            &&& rs.len() >= 1
            &&& rs[0].depth == depth
            &&& rs[0].element_name == name
            &&& depth_at_least(rs, depth)
            &&& depth_at_least(rs.drop_first(), depth + 1)
            &&& steps_ok(rs)
            &&& expansion_ok(rs, exp)
        }),
    decreases keys_left(es, anc), 0int,
{
    let rs = subtree_rows(es, exp, name, depth, path, q, anc);
    let children = children_of_name(es, name);
    let has_children = !anc.contains(name) && children.len() > 0;
    let is_expanded = has_children && exp.contains(path);
    if is_expanded {
        lemma_key_index_some(es, name);
        lemma_keys_left(es, anc, key_index(es, name)->Some_0);
        let anc1 = anc.push(name);
        lemma_children_shape(es, exp, children, 0, depth + 1, path, anc1);
        let cr = children_rows(es, exp, children, 0, depth + 1, path, anc1);
        let head = seq![rs[0]];
        assert(rs == head + cr);
        assert(rs.drop_first() =~= cr);
        assert(steps_ok(head));
        lemma_steps_concat(head, cr);
        assert forall|i: int| 0 <= i < rs.len() implies (#[trigger] rs[i]).depth >= depth by {
            if i > 0 {
                assert(rs[i] == cr[i - 1]);
            }
        }
        assert forall|i: int| 0 <= i < rs.len() implies (#[trigger] rs[i]).is_expanded == (
        rs[i].has_children && exp.contains(rs[i].path)) by {
            if i > 0 {
                assert(rs[i] == cr[i - 1]);
            }
        }
    } else {
        assert(rs.drop_first() =~= Seq::<RowView>::empty());
    }
}

#[verifier::rlimit(40)]
proof fn lemma_children_shape(
    es: Seq<(Seq<char>, SpecElement)>,
    exp: Seq<Seq<char>>,
    children: Seq<(Seq<char>, Quantifier)>,
    k: int,
    depth: int,
    path: Seq<char>,
    anc: Seq<Seq<char>>,
)
    requires
        0 <= k <= children.len(),
    ensures
        ({
            let rs = children_rows(es, exp, children, k, depth, path, anc);
            &&& rs.len() > 0 ==> rs[0].depth == depth
            &&& depth_at_least(rs, depth)
            &&& steps_ok(rs)
            &&& expansion_ok(rs, exp)
        }),
    decreases keys_left(es, anc), children.len() - k + 1,
{
    if k < children.len() {
        let (cname, cq) = children[k];
        let cp = child_path(path, children, k);
        lemma_subtree_shape(es, exp, cname, depth, cp, cq, anc);
        lemma_children_shape(es, exp, children, k + 1, depth, path, anc);
        let a = subtree_rows(es, exp, cname, depth, cp, cq, anc);
        let b = children_rows(es, exp, children, k + 1, depth, path, anc);
        let rs = children_rows(es, exp, children, k, depth, path, anc);
        assert(rs == a + b);
        assert(a.last() == a[a.len() - 1]);
        lemma_steps_concat(a, b);
        assert forall|i: int| 0 <= i < rs.len() implies (#[trigger] rs[i]).depth >= depth by {
            if i < a.len() {
                assert(rs[i] == a[i]);
            } else {
                assert(rs[i] == b[i - a.len()]);
            }
        }
        assert forall|i: int| 0 <= i < rs.len() implies (#[trigger] rs[i]).is_expanded == (
        rs[i].has_children && exp.contains(rs[i].path)) by {
            if i < a.len() {
                assert(rs[i] == a[i]);
            } else {
                assert(rs[i] == b[i - a.len()]);
            }
        }
    } else {
        assert(children_rows(es, exp, children, k, depth, path, anc) =~= Seq::<RowView>::empty());
    }
}

#[verifier::rlimit(40)]
proof fn lemma_roots_shape(
    es: Seq<(Seq<char>, SpecElement)>,
    exp: Seq<Seq<char>>,
    roots: Seq<Seq<char>>,
    k: int,
)
    requires
        0 <= k <= roots.len(),
    ensures
        ({
            let rs = rows_from_roots(es, exp, roots, k);
            &&& rs.len() > 0 ==> rs[0].depth == 0
            &&& depth_at_least(rs, 0)
            &&& steps_ok(rs)
            &&& expansion_ok(rs, exp)
            &&& top_names(rs) == roots.subrange(k, roots.len() as int)
        }),
    decreases roots.len() - k,
{
    if k < roots.len() {
        let rp = roots[k];
        lemma_subtree_shape(es, exp, roots[k], 0, rp, Quantifier::One, seq![]);
        lemma_roots_shape(es, exp, roots, k + 1);
        let a = subtree_rows(es, exp, roots[k], 0, rp, Quantifier::One, seq![]);
        let b = rows_from_roots(es, exp, roots, k + 1);
        let rs = rows_from_roots(es, exp, roots, k);
        assert(rs == a + b);
        assert(a.last() == a[a.len() - 1]);
        lemma_steps_concat(a, b);
        assert forall|i: int| 0 <= i < rs.len() implies (#[trigger] rs[i]).depth >= 0 by {
            if i < a.len() {
                assert(rs[i] == a[i]);
            } else {
                assert(rs[i] == b[i - a.len()]);
            }
        }
        assert forall|i: int| 0 <= i < rs.len() implies (#[trigger] rs[i]).is_expanded == (
        rs[i].has_children && exp.contains(rs[i].path)) by {
            if i < a.len() {
                assert(rs[i] == a[i]);
            } else {
                assert(rs[i] == b[i - a.len()]);
            }
        }
        let head = seq![a[0]];
        assert(a =~= head + a.drop_first());
        lemma_top_names_concat(head, a.drop_first());
        lemma_top_names_deep(a.drop_first());
        assert(top_names(head) =~= seq![roots[k]]) by {
            assert(head.drop_last() =~= Seq::<RowView>::empty());
            assert(top_names(Seq::<RowView>::empty()) == Seq::<Seq<char>>::empty());
            assert(head.last() == a[0]);
            assert(seq![] + seq![roots[k]] =~= seq![roots[k]]);
        }
        lemma_top_names_concat(a, b);
        assert(roots.subrange(k, roots.len() as int) =~= seq![roots[k]] + roots.subrange(
            k + 1,
            roots.len() as int,
        ));
    } else {
        assert(rows_from_roots(es, exp, roots, k) =~= Seq::<RowView>::empty());
        assert(roots.subrange(k, roots.len() as int) =~= Seq::<Seq<char>>::empty());
    }
}

/// The rows of the tree: the first row and every row after a row at depth 0
/// start a root's subtree; the rows at depth 0 are the roots, in order; each
/// row is at most one level below the row above it, and below it only when
/// that row is expanded; and a row is expanded exactly when it has children
/// and its path is one of the expanded paths.
pub proof fn law_rows_shape(es: Seq<(Seq<char>, SpecElement)>, exp: Seq<Seq<char>>)
    ensures
        ({
            let rs = rows_of(es, exp);
            &&& rs.len() > 0 ==> rs[0].depth == 0
            &&& top_names(rs) == tree_roots_of(es)
            &&& steps_ok(rs)
            &&& expansion_ok(rs, exp)
        }),
{
    lemma_roots_shape(es, exp, tree_roots_of(es), 0);
    assert(tree_roots_of(es).subrange(0, tree_roots_of(es).len() as int) =~= tree_roots_of(es));
}

/// Row `j` lies in the subtree of row `i`: every row after `i` up to `j` is deeper than `i`.
pub open spec fn lies_below(rs: Seq<RowView>, i: int, j: int) -> bool {
    &&& 0 <= i < j < rs.len()
    &&& forall|k: int| i < k <= j ==> (#[trigger] rs[k]).depth > rs[i].depth
}

/// An element met again below itself shows no children.
pub open spec fn repeats_are_leaves(rs: Seq<RowView>) -> bool {
    forall|i: int, j: int|
        #[trigger] lies_below(rs, i, j) && rs[j].element_name == rs[i].element_name
            ==> !rs[j].has_children
}

spec fn anc_are_leaves(rs: Seq<RowView>, anc: Seq<Seq<char>>) -> bool {
    forall|j: int| 0 <= j < rs.len() && anc.contains((#[trigger] rs[j]).element_name) ==> !rs[j].has_children
}

proof fn lemma_repeats_concat(a: Seq<RowView>, b: Seq<RowView>, d: int)
    requires
        repeats_are_leaves(a),
        repeats_are_leaves(b),
        depth_at_least(a, d),
        b.len() > 0 ==> b[0].depth == d,
    ensures
        repeats_are_leaves(a + b),
{
    let r = a + b;
    assert forall|i: int, j: int|
        #[trigger] lies_below(r, i, j) && r[j].element_name == r[i].element_name implies !r[j].has_children by {
        if j < a.len() {
            assert(r[i] == a[i] && r[j] == a[j]);
            assert forall|k: int| i < k <= j implies (#[trigger] a[k]).depth > a[i].depth by {
                assert(r[k] == a[k]);
            }
            assert(lies_below(a, i, j));
        } else if i >= a.len() {
            let i2 = i - a.len();
            let j2 = j - a.len();
            assert(r[i] == b[i2] && r[j] == b[j2]);
            assert forall|k: int| i2 < k <= j2 implies (#[trigger] b[k]).depth > b[i2].depth by {
                assert(r[k + a.len()] == b[k]);
            }
            assert(lies_below(b, i2, j2));
        } else {
            let k = a.len() as int;
            assert(r[k] == b[0]);
            assert(r[i] == a[i]);
            assert(r[k].depth > r[i].depth);
        }
    }
}

#[verifier::rlimit(40)]
proof fn lemma_subtree_repeats(
    es: Seq<(Seq<char>, SpecElement)>,
    exp: Seq<Seq<char>>,
    name: Seq<char>,
    depth: int,
    path: Seq<char>,
    q: Quantifier,
    anc: Seq<Seq<char>>,
)
    ensures
        repeats_are_leaves(subtree_rows(es, exp, name, depth, path, q, anc)),
        anc_are_leaves(subtree_rows(es, exp, name, depth, path, q, anc), anc),
    decreases keys_left(es, anc), 0int,
{
    let rs = subtree_rows(es, exp, name, depth, path, q, anc);
    let children = children_of_name(es, name);
    let has_children = !anc.contains(name) && children.len() > 0;
    let is_expanded = has_children && exp.contains(path);
    lemma_subtree_shape(es, exp, name, depth, path, q, anc);
    if is_expanded {
        lemma_key_index_some(es, name);
        lemma_keys_left(es, anc, key_index(es, name)->Some_0);
        let anc1 = anc.push(name);
        lemma_children_repeats(es, exp, children, 0, depth + 1, path, anc1);
        lemma_children_shape(es, exp, children, 0, depth + 1, path, anc1);
        let cr = children_rows(es, exp, children, 0, depth + 1, path, anc1);
        assert(rs == seq![rs[0]] + cr);
        assert forall|j: int| 0 <= j < rs.len() && anc.contains((#[trigger] rs[j]).element_name) implies !rs[j].has_children by {
            if j > 0 {
                assert(rs[j] == cr[j - 1]);
                assert(anc1.contains(rs[j].element_name)) by {
                    let t = choose|t: int| 0 <= t < anc.len() && anc[t] == rs[j].element_name;
                    assert(anc1[t] == anc[t]);
                }
            }
        }
        assert forall|i: int, j: int|
            #[trigger] lies_below(rs, i, j) && rs[j].element_name == rs[i].element_name implies !rs[j].has_children by {
            assert(rs[j] == cr[j - 1]);
            if i == 0 {
                assert(anc1.contains(name)) by {
                    assert(anc1[anc.len() as int] == name);
                }
            } else {
                assert(rs[i] == cr[i - 1]);
                assert forall|k: int| i - 1 < k <= j - 1 implies (#[trigger] cr[k]).depth > cr[i - 1].depth by {
                    assert(rs[k + 1] == cr[k]);
                }
                assert(lies_below(cr, i - 1, j - 1));
            }
        }
    } else {
        assert(rs.len() == 1);
    }
}

#[verifier::rlimit(40)]
proof fn lemma_children_repeats(
    es: Seq<(Seq<char>, SpecElement)>,
    exp: Seq<Seq<char>>,
    children: Seq<(Seq<char>, Quantifier)>,
    k: int,
    depth: int,
    path: Seq<char>,
    anc: Seq<Seq<char>>,
)
    requires
        0 <= k <= children.len(),
    ensures
        repeats_are_leaves(children_rows(es, exp, children, k, depth, path, anc)),
        anc_are_leaves(children_rows(es, exp, children, k, depth, path, anc), anc),
    decreases keys_left(es, anc), children.len() - k + 1,
{
    if k < children.len() {
        let (cname, cq) = children[k];
        let cp = child_path(path, children, k);
        lemma_subtree_repeats(es, exp, cname, depth, cp, cq, anc);
        lemma_subtree_shape(es, exp, cname, depth, cp, cq, anc);
        lemma_children_repeats(es, exp, children, k + 1, depth, path, anc);
        lemma_children_shape(es, exp, children, k + 1, depth, path, anc);
        let a = subtree_rows(es, exp, cname, depth, cp, cq, anc);
        let b = children_rows(es, exp, children, k + 1, depth, path, anc);
        let rs = children_rows(es, exp, children, k, depth, path, anc);
        assert(rs == a + b);
        lemma_repeats_concat(a, b, depth);
        assert forall|j: int| 0 <= j < rs.len() && anc.contains((#[trigger] rs[j]).element_name) implies !rs[j].has_children by {
            if j < a.len() {
                assert(rs[j] == a[j]);
            } else {
                assert(rs[j] == b[j - a.len()]);
            }
        }
    } else {
        assert(children_rows(es, exp, children, k, depth, path, anc) =~= Seq::<RowView>::empty());
    }
}

#[verifier::rlimit(40)]
proof fn lemma_roots_repeats(
    es: Seq<(Seq<char>, SpecElement)>,
    exp: Seq<Seq<char>>,
    roots: Seq<Seq<char>>,
    k: int,
)
    requires
        0 <= k <= roots.len(),
    ensures
        repeats_are_leaves(rows_from_roots(es, exp, roots, k)),
    decreases roots.len() - k,
{
    if k < roots.len() {
        let rp = roots[k];
        lemma_subtree_repeats(es, exp, roots[k], 0, rp, Quantifier::One, seq![]);
        lemma_subtree_shape(es, exp, roots[k], 0, rp, Quantifier::One, seq![]);
        lemma_roots_repeats(es, exp, roots, k + 1);
        lemma_roots_shape(es, exp, roots, k + 1);
        let a = subtree_rows(es, exp, roots[k], 0, rp, Quantifier::One, seq![]);
        let b = rows_from_roots(es, exp, roots, k + 1);
        assert(rows_from_roots(es, exp, roots, k) == a + b);
        lemma_repeats_concat(a, b, 0);
    } else {
        assert(rows_from_roots(es, exp, roots, k) =~= Seq::<RowView>::empty());
    }
}

/// An element that is met again below itself is shown without children, so
/// no element is expanded twice along a path from a root and the tree is
/// finite even for recursive DTDs.
pub proof fn law_repeated_element_is_a_leaf(es: Seq<(Seq<char>, SpecElement)>, exp: Seq<Seq<char>>)
    ensures
        repeats_are_leaves(rows_of(es, exp)),
{
    lemma_roots_repeats(es, exp, tree_roots_of(es), 0);
}

/// Some row above row `j` whose subtree holds it is named `n`.
pub open spec fn has_ancestor_named(rs: Seq<RowView>, j: int, n: Seq<char>) -> bool {
    exists|i: int| #[trigger] lies_below(rs, i, j) && rs[i].element_name == n
}

/// Each row has children exactly when its element names children and no row
/// above it on its path shows the same element.
pub open spec fn children_shown_right(es: Seq<(Seq<char>, SpecElement)>, rs: Seq<RowView>) -> bool {
    forall|j: int|
        0 <= j < rs.len() ==> (#[trigger] rs[j]).has_children == (!has_ancestor_named(
            rs,
            j,
            rs[j].element_name,
        ) && children_of_name(es, rs[j].element_name).len() > 0)
}

spec fn children_shown_given(
    es: Seq<(Seq<char>, SpecElement)>,
    rs: Seq<RowView>,
    anc: Seq<Seq<char>>,
) -> bool {
    forall|j: int|
        0 <= j < rs.len() ==> (#[trigger] rs[j]).has_children == (!anc.contains(rs[j].element_name)
            && !has_ancestor_named(rs, j, rs[j].element_name) && children_of_name(
            es,
            rs[j].element_name,
        ).len() > 0)
}

proof fn lemma_anc_left(a: Seq<RowView>, b: Seq<RowView>, j: int, n: Seq<char>)
    requires
        0 <= j < a.len(),
    ensures
        has_ancestor_named(a + b, j, n) == has_ancestor_named(a, j, n),
{
    let r = a + b;
    if has_ancestor_named(r, j, n) {
        let i = choose|i: int| #[trigger] lies_below(r, i, j) && r[i].element_name == n;
        assert forall|k: int| i < k <= j implies (#[trigger] a[k]).depth > a[i].depth by {
            assert(r[k] == a[k]);
        }
        assert(r[i] == a[i]);
        assert(lies_below(a, i, j));
    }
    if has_ancestor_named(a, j, n) {
        let i = choose|i: int| #[trigger] lies_below(a, i, j) && a[i].element_name == n;
        assert forall|k: int| i < k <= j implies (#[trigger] r[k]).depth > r[i].depth by {
            assert(r[k] == a[k]);
        }
        assert(r[i] == a[i]);
        assert(lies_below(r, i, j));
    }
}

proof fn lemma_anc_right(a: Seq<RowView>, b: Seq<RowView>, d: int, j: int, n: Seq<char>)
    requires
        depth_at_least(a, d),
        b.len() > 0 ==> b[0].depth == d,
        a.len() <= j < a.len() + b.len(),
    ensures
        has_ancestor_named(a + b, j, n) == has_ancestor_named(b, j - a.len(), n),
{
    let r = a + b;
    let m = a.len() as int;
    if has_ancestor_named(r, j, n) {
        let i = choose|i: int| #[trigger] lies_below(r, i, j) && r[i].element_name == n;
        if i < m {
            assert(r[m] == b[0]);
            assert(r[i] == a[i]);
            assert(r[m].depth > r[i].depth);
        }
        assert forall|k: int| i - m < k <= j - m implies (#[trigger] b[k]).depth > b[i - m].depth by {
            assert(r[k + m] == b[k]);
        }
        assert(r[i] == b[i - m]);
        assert(lies_below(b, i - m, j - m));
    }
    if has_ancestor_named(b, j - m, n) {
        let i = choose|i: int| #[trigger] lies_below(b, i, j - m) && b[i].element_name == n;
        assert forall|k: int| i + m < k <= j implies (#[trigger] r[k]).depth > r[i + m].depth by {
            assert(r[k] == b[k - m]);
        }
        assert(r[i + m] == b[i]);
        assert(lies_below(r, i + m, j));
    }
}

proof fn lemma_anc_head(r0: RowView, cr: Seq<RowView>, j: int, n: Seq<char>)
    requires
        depth_at_least(cr, r0.depth + 1),
        1 <= j < cr.len() + 1,
    ensures
        has_ancestor_named(seq![r0] + cr, j, n) == (r0.element_name == n || has_ancestor_named(
            cr,
            j - 1,
            n,
        )),
{
    let r = seq![r0] + cr;
    assert(r[0] == r0);
    if has_ancestor_named(r, j, n) {
        let i = choose|i: int| #[trigger] lies_below(r, i, j) && r[i].element_name == n;
        if i >= 1 {
            assert forall|k: int| i - 1 < k <= j - 1 implies (#[trigger] cr[k]).depth > cr[i - 1].depth by {
                assert(r[k + 1] == cr[k]);
            }
            assert(r[i] == cr[i - 1]);
            assert(lies_below(cr, i - 1, j - 1));
        }
    }
    if r0.element_name == n {
        assert forall|k: int| 0 < k <= j implies (#[trigger] r[k]).depth > r[0].depth by {
            assert(r[k] == cr[k - 1]);
        }
        assert(lies_below(r, 0, j));
    }
    if has_ancestor_named(cr, j - 1, n) {
        let i = choose|i: int| #[trigger] lies_below(cr, i, j - 1) && cr[i].element_name == n;
        assert forall|k: int| i + 1 < k <= j implies (#[trigger] r[k]).depth > r[i + 1].depth by {
            assert(r[k] == cr[k - 1]);
        }
        assert(r[i + 1] == cr[i]);
        assert(lies_below(r, i + 1, j));
    }
}

#[verifier::rlimit(40)]
proof fn lemma_subtree_children_shown(
    es: Seq<(Seq<char>, SpecElement)>,
    exp: Seq<Seq<char>>,
    name: Seq<char>,
    depth: int,
    path: Seq<char>,
    q: Quantifier,
    anc: Seq<Seq<char>>,
)
    ensures
        children_shown_given(es, subtree_rows(es, exp, name, depth, path, q, anc), anc),
    decreases keys_left(es, anc), 0int,
{
    let rs = subtree_rows(es, exp, name, depth, path, q, anc);
    let children = children_of_name(es, name);
    let has_children = !anc.contains(name) && children.len() > 0;
    let is_expanded = has_children && exp.contains(path);
    lemma_subtree_shape(es, exp, name, depth, path, q, anc);
    assert(!has_ancestor_named(rs, 0, name)) by {
        if has_ancestor_named(rs, 0, name) {
            let i = choose|i: int| #[trigger] lies_below(rs, i, 0) && rs[i].element_name == name;
        }
    }
    if is_expanded {
        lemma_key_index_some(es, name);
        lemma_keys_left(es, anc, key_index(es, name)->Some_0);
        let anc1 = anc.push(name);
        lemma_children_children_shown(es, exp, children, 0, depth + 1, path, anc1);
        lemma_children_shape(es, exp, children, 0, depth + 1, path, anc1);
        let cr = children_rows(es, exp, children, 0, depth + 1, path, anc1);
        assert(rs == seq![rs[0]] + cr);
        assert forall|j: int| 0 <= j < rs.len() implies (#[trigger] rs[j]).has_children == (
        !anc.contains(rs[j].element_name) && !has_ancestor_named(rs, j, rs[j].element_name)
            && children_of_name(es, rs[j].element_name).len() > 0) by {
            if j >= 1 {
                let nj = rs[j].element_name;
                assert(rs[j] == cr[j - 1]);
                lemma_anc_head(rs[0], cr, j, nj);
                lemma_push_contains(anc, name, nj);
            }
        }
    }
}

#[verifier::rlimit(40)]
proof fn lemma_children_children_shown(
    es: Seq<(Seq<char>, SpecElement)>,
    exp: Seq<Seq<char>>,
    children: Seq<(Seq<char>, Quantifier)>,
    k: int,
    depth: int,
    path: Seq<char>,
    anc: Seq<Seq<char>>,
)
    requires
        0 <= k <= children.len(),
    ensures
        children_shown_given(es, children_rows(es, exp, children, k, depth, path, anc), anc),
    decreases keys_left(es, anc), children.len() - k + 1,
{
    if k < children.len() {
        let (cname, cq) = children[k];
        let cp = child_path(path, children, k);
        lemma_subtree_children_shown(es, exp, cname, depth, cp, cq, anc);
        lemma_subtree_shape(es, exp, cname, depth, cp, cq, anc);
        lemma_children_children_shown(es, exp, children, k + 1, depth, path, anc);
        lemma_children_shape(es, exp, children, k + 1, depth, path, anc);
        let a = subtree_rows(es, exp, cname, depth, cp, cq, anc);
        let b = children_rows(es, exp, children, k + 1, depth, path, anc);
        let rs = children_rows(es, exp, children, k, depth, path, anc);
        assert(rs == a + b);
        assert forall|j: int| 0 <= j < rs.len() implies (#[trigger] rs[j]).has_children == (
        !anc.contains(rs[j].element_name) && !has_ancestor_named(rs, j, rs[j].element_name)
            && children_of_name(es, rs[j].element_name).len() > 0) by {
            if j < a.len() {
                assert(rs[j] == a[j]);
                lemma_anc_left(a, b, j, rs[j].element_name);
            } else {
                assert(rs[j] == b[j - a.len()]);
                lemma_anc_right(a, b, depth, j, rs[j].element_name);
            }
        }
    } else {
        assert(children_rows(es, exp, children, k, depth, path, anc) =~= Seq::<RowView>::empty());
    }
}

#[verifier::rlimit(40)]
proof fn lemma_roots_children_shown(
    es: Seq<(Seq<char>, SpecElement)>,
    exp: Seq<Seq<char>>,
    roots: Seq<Seq<char>>,
    k: int,
)
    requires
        0 <= k <= roots.len(),
    ensures
        children_shown_given(es, rows_from_roots(es, exp, roots, k), seq![]),
    decreases roots.len() - k,
{
    if k < roots.len() {
        lemma_subtree_children_shown(es, exp, roots[k], 0, roots[k], Quantifier::One, seq![]);
        lemma_subtree_shape(es, exp, roots[k], 0, roots[k], Quantifier::One, seq![]);
        lemma_roots_children_shown(es, exp, roots, k + 1);
        lemma_roots_shape(es, exp, roots, k + 1);
        let a = subtree_rows(es, exp, roots[k], 0, roots[k], Quantifier::One, seq![]);
        let b = rows_from_roots(es, exp, roots, k + 1);
        let rs = rows_from_roots(es, exp, roots, k);
        assert(rs == a + b);
        assert forall|j: int| 0 <= j < rs.len() implies (#[trigger] rs[j]).has_children == (
        !Seq::<Seq<char>>::empty().contains(rs[j].element_name) && !has_ancestor_named(
            rs,
            j,
            rs[j].element_name,
        ) && children_of_name(es, rs[j].element_name).len() > 0) by {
            if j < a.len() {
                assert(rs[j] == a[j]);
                lemma_anc_left(a, b, j, rs[j].element_name);
            } else {
                assert(rs[j] == b[j - a.len()]);
                lemma_anc_right(a, b, 0, j, rs[j].element_name);
            }
        }
    } else {
        assert(rows_from_roots(es, exp, roots, k) =~= Seq::<RowView>::empty());
    }
}

/// A row has children exactly when its element's content names children and
/// no row above it on its path shows the same element: the path from a root
/// to a row never expands an element twice, and the tree is finite.
pub proof fn law_children_shown_right(es: Seq<(Seq<char>, SpecElement)>, exp: Seq<Seq<char>>)
    ensures
        children_shown_right(es, rows_of(es, exp)),
{
    let roots = tree_roots_of(es);
    lemma_roots_children_shown(es, exp, roots, 0);
    let rs = rows_of(es, exp);
    assert forall|j: int| 0 <= j < rs.len() implies (#[trigger] rs[j]).has_children == (
    !has_ancestor_named(rs, j, rs[j].element_name) && children_of_name(
        es,
        rs[j].element_name,
    ).len() > 0) by {
        assert(!Seq::<Seq<char>>::empty().contains(rs[j].element_name));
    }
}

// ---------------------------------------------------------------------------
// Expanding one more path
// ---------------------------------------------------------------------------

proof fn lemma_push_contains(exp: Seq<Seq<char>>, p: Seq<char>, x: Seq<char>)
    ensures
        exp.push(p).contains(x) <==> (exp.contains(x) || x == p),
{
    if exp.contains(x) {
        let k = choose|k: int| 0 <= k < exp.len() && exp[k] == x;
        assert(exp.push(p)[k] == x);
    }
    if x == p {
        assert(exp.push(p)[exp.len() as int] == x);
    }
    if exp.push(p).contains(x) {
        let k = choose|k: int| 0 <= k < exp.push(p).len() && exp.push(p)[k] == x;
        if k < exp.len() {
            assert(exp[k] == x);
        }
    }
}

/// No row of `rs` has path `p`.
spec fn avoids(rs: Seq<RowView>, p: Seq<char>) -> bool {
    forall|i: int| 0 <= i < rs.len() ==> (#[trigger] rs[i]).path != p
}

proof fn lemma_distinct_parts(a: Seq<RowView>, b: Seq<RowView>)
    requires
        paths_distinct(a + b),
    ensures
        paths_distinct(a),
        paths_distinct(b),
{
    let r = a + b;
    assert forall|i: int, j: int| 0 <= i < j < a.len() implies a[i].path != a[j].path by {
        assert(r[i] == a[i] && r[j] == a[j]);
    }
    assert forall|i: int, j: int| 0 <= i < j < b.len() implies b[i].path != b[j].path by {
        assert(r[i + a.len()] == b[i] && r[j + a.len()] == b[j]);
    }
}

/// `r2` has the rows of `r1` up to row `c`, row `c` now expanded.
spec fn opened_at(r1: Seq<RowView>, r2: Seq<RowView>, c: int) -> bool {
    &&& c < r2.len()
    &&& r2.subrange(0, c) == r1.subrange(0, c)
    &&& r2[c] == RowView { is_expanded: true, ..r1[c] }
}

#[verifier::rlimit(40)]
proof fn lemma_subtree_one_more(
    es: Seq<(Seq<char>, SpecElement)>,
    exp: Seq<Seq<char>>,
    p: Seq<char>,
    name: Seq<char>,
    depth: int,
    path: Seq<char>,
    q: Quantifier,
    anc: Seq<Seq<char>>,
    c: int,
)
    requires
        !exp.contains(p),
        paths_distinct(subtree_rows(es, exp, name, depth, path, q, anc)),
    ensures
        ({
            let r1 = subtree_rows(es, exp, name, depth, path, q, anc);
            let r2 = subtree_rows(es, exp.push(p), name, depth, path, q, anc);
            &&& avoids(r1, p) ==> r2 == r1
            &&& (0 <= c < r1.len() && r1[c].path == p && r1[c].has_children) ==> opened_at(r1, r2, c)
        }),
    decreases keys_left(es, anc), 0int,
{
    let e2 = exp.push(p);
    let r1 = subtree_rows(es, exp, name, depth, path, q, anc);
    let r2 = subtree_rows(es, e2, name, depth, path, q, anc);
    let children = children_of_name(es, name);
    let has_children = !anc.contains(name) && children.len() > 0;
    lemma_push_contains(exp, p, path);
    if has_children {
        lemma_key_index_some(es, name);
        lemma_keys_left(es, anc, key_index(es, name)->Some_0);
        let anc1 = anc.push(name);
        let cr1 = children_rows(es, exp, children, 0, depth + 1, path, anc1);
        let cr2 = children_rows(es, e2, children, 0, depth + 1, path, anc1);
        if path != p {
            if exp.contains(path) {
                assert(r1 == seq![r1[0]] + cr1);
                lemma_distinct_parts(seq![r1[0]], cr1);
                lemma_children_one_more(es, exp, p, children, 0, depth + 1, path, anc1, c - 1);
                assert(r2 == seq![r1[0]] + cr2);
                if avoids(r1, p) {
                    assert(avoids(cr1, p)) by {
                        assert forall|i: int| 0 <= i < cr1.len() implies (#[trigger] cr1[i]).path != p by {
                            assert(cr1[i] == r1[i + 1]);
                        }
                    }
                }
                if 0 <= c < r1.len() && r1[c].path == p && r1[c].has_children {
                    assert(c != 0);
                    assert(cr1[c - 1] == r1[c]);
                    assert(r2.subrange(0, c) =~= seq![r1[0]] + cr2.subrange(0, c - 1));
                    assert(r1.subrange(0, c) =~= seq![r1[0]] + cr1.subrange(0, c - 1));
                    assert(r2[c] == cr2[c - 1]);
                }
            }
        } else {
            if 0 <= c < r1.len() && r1[c].path == p && r1[c].has_children {
                assert(c == 0) by {
                    if c != 0 {
                        assert(r1[0].path == r1[c].path);
                    }
                }
                assert(r2.subrange(0, c) =~= r1.subrange(0, c));
            }
            assert(!avoids(r1, p)) by {
                assert(r1[0].path == p);
            }
        }
    }
}

#[verifier::rlimit(40)]
proof fn lemma_children_one_more(
    es: Seq<(Seq<char>, SpecElement)>,
    exp: Seq<Seq<char>>,
    p: Seq<char>,
    children: Seq<(Seq<char>, Quantifier)>,
    k: int,
    depth: int,
    path: Seq<char>,
    anc: Seq<Seq<char>>,
    c: int,
)
    requires
        !exp.contains(p),
        0 <= k <= children.len(),
        paths_distinct(children_rows(es, exp, children, k, depth, path, anc)),
    ensures
        ({
            let r1 = children_rows(es, exp, children, k, depth, path, anc);
            let r2 = children_rows(es, exp.push(p), children, k, depth, path, anc);
            &&& avoids(r1, p) ==> r2 == r1
            &&& (0 <= c < r1.len() && r1[c].path == p && r1[c].has_children) ==> opened_at(r1, r2, c)
        }),
    decreases keys_left(es, anc), children.len() - k + 1,
{
    let e2 = exp.push(p);
    if k < children.len() {
        let (cname, cq) = children[k];
        let cp = child_path(path, children, k);
        let a1 = subtree_rows(es, exp, cname, depth, cp, cq, anc);
        let a2 = subtree_rows(es, e2, cname, depth, cp, cq, anc);
        let b1 = children_rows(es, exp, children, k + 1, depth, path, anc);
        let b2 = children_rows(es, e2, children, k + 1, depth, path, anc);
        let r1 = children_rows(es, exp, children, k, depth, path, anc);
        let r2 = children_rows(es, e2, children, k, depth, path, anc);
        assert(r1 == a1 + b1);
        assert(r2 == a2 + b2);
        lemma_distinct_parts(a1, b1);
        lemma_subtree_one_more(es, exp, p, cname, depth, cp, cq, anc, c);
        lemma_children_one_more(es, exp, p, children, k + 1, depth, path, anc, c - a1.len());
        if avoids(r1, p) {
            assert(avoids(a1, p)) by {
                assert forall|i: int| 0 <= i < a1.len() implies (#[trigger] a1[i]).path != p by {
                    assert(a1[i] == r1[i]);
                }
            }
            assert(avoids(b1, p)) by {
                assert forall|i: int| 0 <= i < b1.len() implies (#[trigger] b1[i]).path != p by {
                    assert(b1[i] == r1[i + a1.len()]);
                }
            }
        }
        if 0 <= c < r1.len() && r1[c].path == p && r1[c].has_children {
            if c < a1.len() {
                assert(r1[c] == a1[c]);
                assert(r2.subrange(0, c) =~= a2.subrange(0, c));
                assert(r1.subrange(0, c) =~= a1.subrange(0, c));
                assert(r2[c] == a2[c]);
            } else {
                assert(avoids(a1, p)) by {
                    assert forall|i: int| 0 <= i < a1.len() implies (#[trigger] a1[i]).path != p by {
                        assert(a1[i] == r1[i]);
                        assert(r1[i].path != r1[c].path);
                    }
                }
                assert(b1[c - a1.len()] == r1[c]);
                assert(r2.subrange(0, c) =~= a1 + b2.subrange(0, c - a1.len()));
                assert(r1.subrange(0, c) =~= a1 + b1.subrange(0, c - a1.len()));
                assert(r2[c] == b2[c - a1.len()]);
            }
        }
    } else {
        assert(children_rows(es, exp, children, k, depth, path, anc) =~= Seq::<RowView>::empty());
        assert(children_rows(es, e2, children, k, depth, path, anc) =~= Seq::<RowView>::empty());
    }
}

#[verifier::rlimit(40)]
proof fn lemma_roots_one_more(
    es: Seq<(Seq<char>, SpecElement)>,
    exp: Seq<Seq<char>>,
    p: Seq<char>,
    roots: Seq<Seq<char>>,
    k: int,
    c: int,
)
    requires
        !exp.contains(p),
        0 <= k <= roots.len(),
        paths_distinct(rows_from_roots(es, exp, roots, k)),
    ensures
        ({
            let r1 = rows_from_roots(es, exp, roots, k);
            let r2 = rows_from_roots(es, exp.push(p), roots, k);
            (0 <= c < r1.len() && r1[c].path == p && r1[c].has_children) ==> opened_at(r1, r2, c)
        }),
    decreases roots.len() - k,
{
    let e2 = exp.push(p);
    if k < roots.len() {
        let rp = roots[k];
        let a1 = subtree_rows(es, exp, roots[k], 0, rp, Quantifier::One, seq![]);
        let a2 = subtree_rows(es, e2, roots[k], 0, rp, Quantifier::One, seq![]);
        let b1 = rows_from_roots(es, exp, roots, k + 1);
        let b2 = rows_from_roots(es, e2, roots, k + 1);
        let r1 = rows_from_roots(es, exp, roots, k);
        let r2 = rows_from_roots(es, e2, roots, k);
        assert(r1 == a1 + b1);
        assert(r2 == a2 + b2);
        lemma_distinct_parts(a1, b1);
        lemma_subtree_one_more(es, exp, p, roots[k], 0, rp, Quantifier::One, seq![], c);
        lemma_roots_one_more(es, exp, p, roots, k + 1, c - a1.len());
        if 0 <= c < r1.len() && r1[c].path == p && r1[c].has_children {
            if c < a1.len() {
                assert(r1[c] == a1[c]);
                assert(r2.subrange(0, c) =~= a2.subrange(0, c));
                assert(r1.subrange(0, c) =~= a1.subrange(0, c));
                assert(r2[c] == a2[c]);
            } else {
                assert(avoids(a1, p)) by {
                    assert forall|i: int| 0 <= i < a1.len() implies (#[trigger] a1[i]).path != p by {
                        assert(a1[i] == r1[i]);
                        assert(r1[i].path != r1[c].path);
                    }
                }
                assert(b1[c - a1.len()] == r1[c]);
                assert(r2.subrange(0, c) =~= a1 + b2.subrange(0, c - a1.len()));
                assert(r1.subrange(0, c) =~= a1 + b1.subrange(0, c - a1.len()));
                assert(r2[c] == b2[c - a1.len()]);
            }
        }
    }
}

/// Expanding a row that has children and then collapsing it again gives back
/// the rows, the expanded paths and the cursor one started with, when the rows
/// were laid out for the expanded paths and no two of them share a path.
pub proof fn law_collapse_restores_rows(o: AppState, m: AppState, f: AppState)
    requires
        rows_view(o.rows@) == o.rows_spec(),
        paths_distinct(rows_view(o.rows@)),
        o.cursor < o.rows@.len(),
        o.rows@[o.cursor as int].has_children,
        !o.rows@[o.cursor as int].is_expanded,
        o.step_expand(&m),
        m.step_collapse(&f),
    ensures
        rows_view(f.rows@) == rows_view(o.rows@),
        f.exp() == o.exp(),
        f.cursor == o.cursor,
        m.rows@[m.cursor as int].is_expanded,
{
    let es = o.dtd.element_entries();
    let c = o.cursor as int;
    let r1 = rows_view(o.rows@);
    let p = r1[c].path;
    assert(r1[c] == o.rows@[c]@);
    law_rows_shape(es, o.exp());
    assert(!o.exp().contains(p));
    lemma_roots_one_more(es, o.exp(), p, tree_roots_of(es), 0, c);
    assert(with_path(o.exp(), p) == o.exp().push(p));
    assert(m.exp() == o.exp().push(p));
    let r2 = rows_view(m.rows@);
    assert(r2 == rows_of(es, o.exp().push(p)));
    assert(opened_at(r1, r2, c));
    assert(r2[c] == m.rows@[c]@);
    law_collapse_undoes_expand(o.exp(), p);
    assert(m.rows@[c].path@ == p);
}

/// The rows of the tree for a set of expanded paths: the subtree of each root, in order.
pub open spec fn rows_of(es: Seq<(Seq<char>, SpecElement)>, exp: Seq<Seq<char>>) -> Seq<RowView> {
    rows_from_roots(es, exp, tree_roots_of(es), 0)
}

// ---------------------------------------------------------------------------
// The state
// ---------------------------------------------------------------------------

pub struct AppState {
    pub dtd: Dtd,
    pub rows: Vec<TreeRow>,
    pub cursor: usize,
    /// the expanded paths
    pub expanded: Vec<String>,
    pub search_mode: bool,
    pub search_query: String,
    pub search_matches: Vec<usize>,
    pub search_match_idx: Option<usize>,
    pub overlay: Option<Overlay>,
}

impl AppState {
    /// The expanded paths.
    pub open spec fn exp(&self) -> Seq<Seq<char>> {
        strings_view(self.expanded@)
    }

    /// The rows the tree shows for the current expanded paths.
    pub open spec fn rows_spec(&self) -> Seq<RowView> {
        rows_of(self.dtd.element_entries(), self.exp())
    }

    /// Everything but the rows is as in `other`.
    pub open spec fn same_but_rows(&self, other: &Self) -> bool {
        &&& self.dtd == other.dtd
        &&& self.cursor == other.cursor
        &&& self.expanded == other.expanded
        &&& self.search_mode == other.search_mode
        &&& self.search_query == other.search_query
        &&& self.search_matches == other.search_matches
        &&& self.search_match_idx == other.search_match_idx
        &&& self.overlay == other.overlay
    }

    /// A state for `dtd` with its roots expanded.
    pub fn new(dtd: Dtd) -> (s: Self)
        ensures
            s.dtd == dtd,
            s.exp() == tree_roots_of(dtd.element_entries()),
            rows_view(s.rows@) == s.rows_spec(),
            s.cursor == 0,
            !s.search_mode,
            s.search_query@ == Seq::<char>::empty(),
            s.search_matches@ == Seq::<usize>::empty(),
            s.search_match_idx is None,
            s.overlay is None,
            s.consistent(),
            plain_names(dtd.element_entries()) ==> forall|i: int, j: int|
                0 <= i < j < s.rows@.len() ==> s.rows@[i].path@ != s.rows@[j].path@,
    {
        // Expand roots by default
        let expanded = find_tree_roots(&dtd);
        let mut state = Self {
            dtd,
            rows: Vec::new(),
            cursor: 0,
            expanded,
            search_mode: false,
            search_query: String::new(),
            search_matches: Vec::new(),
            search_match_idx: None,
            overlay: None,
        };
        state.rebuild_rows();
        state
    }

    /// Lays the rows out again from the expanded paths.
    pub fn rebuild_rows(&mut self)
        ensures
            final(self).same_but_rows(old(self)),
            rows_view(final(self).rows@) == old(self).rows_spec(),
            plain_names(old(self).dtd.element_entries()) ==> forall|i: int, j: int|
                0 <= i < j < final(self).rows@.len() ==> final(self).rows@[i].path@
                    != final(self).rows@[j].path@,
    {
        self.rows.clear();
        let roots = find_tree_roots(&self.dtd);
        proof {
            if plain_names(self.dtd.element_entries()) {
                law_row_paths_unique(self.dtd.element_entries(), self.exp());
            }
        }
        let ghost es = self.dtd.element_entries();
        let ghost rs = strings_view(roots@);
        let ghost total = rows_from_roots(es, self.exp(), rs, 0);
        let ghost start = *self;
        let n = element_map_len(&self.dtd.elements);
        let mut k: usize = 0;
        assert(rows_view(self.rows@) =~= seq![]);
        while k < roots.len()
            invariant
                k <= roots@.len(),
                rs == strings_view(roots@),
                es == self.dtd.element_entries(),
                n == es.len(),
                self.same_but_rows(&start),
                start.same_but_rows(old(self)),
                total == rows_view(self.rows@) + rows_from_roots(es, self.exp(), rs, k as int),
            decreases roots@.len() - k,
        {
            let root = &roots[k];
            let mut ancestors: Vec<String> = Vec::new();
            assert(strings_view(ancestors@) =~= seq![]);
            proof {
                assert(strings_view(ancestors@).to_set() =~= Set::<Seq<char>>::empty());
            }
            let ghost before = rows_view(self.rows@);
            self.build_subtree(root.as_str(), 0, root.as_str(), Quantifier::One, &mut ancestors, n);
            proof {
                assert(total == before + (subtree_rows(
                    es,
                    self.exp(),
                    rs[k as int],
                    0,
                    rs[k as int],
                    Quantifier::One,
                    seq![],
                ) + rows_from_roots(es, self.exp(), rs, k + 1)));
                assert(total == rows_view(self.rows@) + rows_from_roots(es, self.exp(), rs, k + 1));
            }
            k += 1;
        }
        assert(rows_view(self.rows@) + seq![] =~= rows_view(self.rows@));
        assert forall|i: int, j: int|
            plain_names(es) && 0 <= i < j < self.rows@.len() implies self.rows@[i].path@
            != self.rows@[j].path@ by {
            assert(rows_view(self.rows@)[i].path == self.rows@[i].path@);
            assert(rows_view(self.rows@)[j].path == self.rows@[j].path@);
        }
    }

    /// Appends the row for `elem_name` and, when it is expanded, the rows below it.
    fn build_subtree(
        &mut self,
        elem_name: &str,
        depth: usize,
        path: &str,
        quantifier: Quantifier,
        ancestors: &mut Vec<String>,
        n: usize,
    )
        requires
            n == old(self).dtd.element_entries().len(),
            depth == old(ancestors)@.len(),
            strings_view(old(ancestors)@).no_duplicates(),
            strings_view(old(ancestors)@).to_set().subset_of(
                keys_of(old(self).dtd.element_entries()).to_set(),
            ),
        ensures
            final(self).same_but_rows(old(self)),
            final(ancestors)@ == old(ancestors)@,
            rows_view(final(self).rows@) == rows_view(old(self).rows@) + subtree_rows(
                old(self).dtd.element_entries(),
                old(self).exp(),
                elem_name@,
                depth as int,
                path@,
                quantifier,
                strings_view(old(ancestors)@),
            ),
        decreases keys_left(old(self).dtd.element_entries(), strings_view(old(ancestors)@)), 0int,
    {
        let ghost es = self.dtd.element_entries();
        let ghost exp = self.exp();
        let ghost anc = strings_view(ancestors@);
        let ghost rows0 = rows_view(self.rows@);
        let is_cycle = crate::tree::contains_name(ancestors, elem_name);
        let found = element_map_index_of(&self.dtd.elements, elem_name);
        let children = match found {
            Some(j) => {
                proof {
                    lemma_key_index_at(es, elem_name@, j as int);
                }
                let (_, e) = element_map_get_index(&self.dtd.elements, j).unwrap();
                get_direct_children(&e.content)
            },
            None => {
                proof {
                    lemma_key_index_none(es, elem_name@);
                }
                Vec::new()
            },
        };
        proof {
            assert(pairs_view(children@) =~= children_of_name(es, elem_name@));
        }
        let has_children = !is_cycle && children.len() > 0;
        let is_expanded = has_children && crate::tree::contains_name(&self.expanded, path);
        let row = TreeRow {
            depth,
            element_name: elem_name.to_string(),
            quantifier,
            has_children,
            is_expanded,
            path: path.to_string(),
        };
        let ghost rv = row@;
        self.rows.push(row);
        assert(rows_view(self.rows@) =~= rows0.push(rv));
        if is_expanded {
            let j = found.unwrap();
            ancestors.push(elem_name.to_string());
            proof {
                assert(ancestors@.drop_last() =~= old(ancestors)@);
                assert(strings_view(ancestors@) =~= anc.push(elem_name@));
                lemma_keys_left(es, anc, j as int);
                anc.lemma_push_to_set_commute(elem_name@);
                assert(keys_of(es)[j as int] == elem_name@);
                assert(strings_view(ancestors@).no_duplicates());
                assert(strings_view(ancestors@).to_set().subset_of(keys_of(es).to_set()));
                strings_view(ancestors@).unique_seq_to_set();
                vstd::set_lib::lemma_len_subset(
                    strings_view(ancestors@).to_set(),
                    keys_of(es).to_set(),
                );
                keys_of(es).lemma_cardinality_of_set();
            }
            let ghost anc1 = strings_view(ancestors@);
            let ghost anc_vec = ancestors@;
            let ghost ch = pairs_view(children@);
            let ghost rows1 = rows_view(self.rows@);
            let ghost start = *self;
            let mut k: usize = 0;
            while k < children.len()
                invariant
                    k <= children@.len(),
                    ch == pairs_view(children@),
                    es == self.dtd.element_entries(),
                    exp == self.exp(),
                    n == es.len(),
                    self.same_but_rows(&start),
                    self.dtd == old(self).dtd,
                    es == old(self).dtd.element_entries(),
                    anc == strings_view(old(ancestors)@),
                    start.same_but_rows(old(self)),
                    ancestors@ == anc_vec,
                    anc_vec.drop_last() == old(ancestors)@,
                    anc1 == strings_view(ancestors@),
                    anc1 == anc.push(elem_name@),
                    !anc.contains(elem_name@),
                    keys_left(es, anc1) < keys_left(es, anc),
                    depth + 1 == ancestors@.len(),
                    ancestors@.len() <= n,
                    anc1.no_duplicates(),
                    anc1.to_set().subset_of(keys_of(es).to_set()),
                    children_rows(es, exp, ch, 0, depth + 1, path@, anc1) == rows_view(
                        self.rows@,
                    ).subrange(rows1.len() as int, rows_view(self.rows@).len() as int)
                        + children_rows(es, exp, ch, k as int, depth + 1, path@, anc1),
                    rows_view(self.rows@).subrange(0, rows1.len() as int) == rows1,
                    rows1.len() <= self.rows@.len(),
                decreases children@.len() - k,
            {
                let (child_name, child_q) = &children[k];
                let mut cpath = path.to_string();
                cpath.append("/");
                let step = segment_text(&children, k);
                cpath.append(step.as_str());
                proof {
                    reveal_strlit("/");
                    assert("/"@ =~= seq!['/']);
                    assert(ch[k as int] == (child_name@, *child_q));
                    assert(cpath@ =~= child_path(path@, ch, k as int));
                }
                let ghost before = rows_view(self.rows@);
                self.build_subtree(
                    child_name.as_str(),
                    depth + 1,
                    cpath.as_str(),
                    *child_q,
                    ancestors,
                    n,
                );
                proof {
                    let added = rows_view(self.rows@).subrange(
                        before.len() as int,
                        rows_view(self.rows@).len() as int,
                    );
                    assert(rows_view(self.rows@) =~= before + added);
                    assert(rows_view(self.rows@).subrange(0, rows1.len() as int) =~= before.subrange(
                        0,
                        rows1.len() as int,
                    ));
                    assert(rows_view(self.rows@).subrange(
                        rows1.len() as int,
                        rows_view(self.rows@).len() as int,
                    ) =~= before.subrange(rows1.len() as int, before.len() as int) + added);
                }
                k += 1;
            }
            ancestors.pop();
            proof {
                assert(ancestors@ =~= old(ancestors)@);
                assert(rows_view(self.rows@) =~= rows1 + rows_view(self.rows@).subrange(
                    rows1.len() as int,
                    rows_view(self.rows@).len() as int,
                ));
            }
        }
    }
}

// ---------------------------------------------------------------------------
// Search
// ---------------------------------------------------------------------------

/// The lower-case form of a text, as `str::to_lowercase` computes it.
pub uninterp spec fn lowercase(s: Seq<char>) -> Seq<char>;

/// `str::to_lowercase`: the text in lower case, by Unicode's case mapping.
#[verifier::external_body]
fn str_to_lowercase(s: &str) -> (r: String)
    ensures
        r@ == lowercase(s@),
{
    s.to_lowercase()
}

/// Does `n` occur in `h`?
pub open spec fn is_infix(n: Seq<char>, h: Seq<char>) -> bool {
    exists|i: int| 0 <= i && i + n.len() <= h.len() && #[trigger] h.subrange(i, i + n.len()) == n
}

/// The indices below `k` of the texts in which `q` occurs, in order.
pub open spec fn infix_indices(texts: Seq<Seq<char>>, q: Seq<char>, k: int) -> Seq<usize>
    decreases k,
{
    if k <= 0 {
        seq![]
    } else {
        let m = infix_indices(texts, q, k - 1);
        if is_infix(q, texts[k - 1]) {
            m.push((k - 1) as usize)
        } else {
            m
        }
    }
}

/// The rows whose name contains the query, both in lower case.
pub open spec fn search_matches_of(rows: Seq<RowView>, query: Seq<char>) -> Seq<usize> {
    infix_indices(
        rows.map_values(|r: RowView| lowercase(r.element_name)),
        lowercase(query),
        rows.len() as int,
    )
}

/// `str::contains` with a `&str` pattern, over characters.
pub fn contains_text(h: &str, n: &str) -> (r: bool)
    ensures
        r == is_infix(n@, h@),
{
    let hc = crate::text::chars_of(h);
    let nc = crate::text::chars_of(n);
    if nc.len() > hc.len() {
        return false;
    }
    let mut i: usize = 0;
    while i <= hc.len() - nc.len()
        invariant
            hc@ == h@,
            nc@ == n@,
            nc@.len() <= hc@.len(),
            i <= hc@.len() - nc@.len() + 1,
            forall|k: int| 0 <= k < i ==> #[trigger] hc@.subrange(k, k + nc@.len()) != nc@,
        decreases hc@.len() - nc@.len() + 1 - i,
    {
        let mut j: usize = 0;
        let mut same = true;
        while j < nc.len()
            invariant
                hc@ == h@,
                nc@ == n@,
                hc@.len() <= usize::MAX,
                i + nc@.len() <= hc@.len(),
                j <= nc@.len(),
                same == forall|t: int| 0 <= t < j ==> hc@[i + t] == nc@[t],
            decreases nc@.len() - j,
        {
            if hc[i + j] != nc[j] {
                same = false;
            }
            j += 1;
        }
        if same {
            assert(hc@.subrange(i as int, i + nc@.len()) =~= nc@);
            return true;
        }
        assert(hc@.subrange(i as int, i + nc@.len()) != nc@) by {
            let t = choose|t: int| 0 <= t < nc@.len() && hc@[i + t] != nc@[t];
            assert(hc@.subrange(i as int, i + nc@.len())[t] != nc@[t]);
        }
        i += 1;
    }
    false
}

/// The indices of the texts in which `q` occurs, in order.
pub fn matching_indices(texts: &Vec<String>, q: &str) -> (r: Vec<usize>)
    ensures
        r@ == infix_indices(strings_view(texts@), q@, texts@.len() as int),
{
    let mut result: Vec<usize> = Vec::new();
    let mut i: usize = 0;
    while i < texts.len()
        invariant
            i <= texts@.len(),
            result@ == infix_indices(strings_view(texts@), q@, i as int),
        decreases texts@.len() - i,
    {
        if contains_text(texts[i].as_str(), q) {
            result.push(i);
        }
        i += 1;
    }
    result
}

// ---------------------------------------------------------------------------
// Expanded paths
// ---------------------------------------------------------------------------

/// The expanded paths with `p` added, unless it is already there.
pub open spec fn with_path(exp: Seq<Seq<char>>, p: Seq<char>) -> Seq<Seq<char>> {
    if exp.contains(p) {
        exp
    } else {
        exp.push(p)
    }
}

/// The expanded paths without `p`.
pub open spec fn without_path(exp: Seq<Seq<char>>, p: Seq<char>) -> Seq<Seq<char>>
    decreases exp.len(),
{
    if exp.len() == 0 {
        exp
    } else {
        let rest = without_path(exp.drop_last(), p);
        if exp.last() == p {
            rest
        } else {
            rest.push(exp.last())
        }
    }
}

/// The nearest row above row `c` at depth `d`.
pub open spec fn row_above_at(rows: Seq<RowView>, c: int, d: int) -> Option<int>
    decreases c,
{
    if c <= 0 {
        None
    } else if rows[c - 1].depth == d {
        Some(c - 1)
    } else {
        row_above_at(rows, c - 1, d)
    }
}

/// The cursor after moving up: one row up, unless on the first row.
pub open spec fn cursor_up(c: usize) -> usize {
    if c > 0 {
        (c - 1) as usize
    } else {
        c
    }
}

/// The cursor after moving down among `n` rows: one row down, unless on the last row.
pub open spec fn cursor_down(c: usize, n: nat) -> usize {
    if c + 1 < n {
        (c + 1) as usize
    } else {
        c
    }
}

/// The match selected after moving forward among `n` matches.
pub open spec fn next_index(idx: Option<usize>, n: nat) -> usize {
    match idx {
        Some(i) => ((i + 1) % n as int) as usize,
        None => 0usize,
    }
}

/// The match selected after moving back among `n` matches.
pub open spec fn prev_index(idx: Option<usize>, n: nat) -> usize {
    match idx {
        Some(i) => if i == 0 {
            (n - 1) as usize
        } else {
            (i - 1) as usize
        },
        None => (n - 1) as usize,
    }
}

impl AppState {
    /// `fin` is the state after `move_up` from this one.
    pub open spec fn step_move_up(&self, fin: &Self) -> bool {
        self.moved_to(fin, cursor_up(self.cursor))
    }

    /// `fin` is the state after `move_down` from this one.
    pub open spec fn step_move_down(&self, fin: &Self) -> bool {
        self.moved_to(fin, cursor_down(self.cursor, self.rows@.len()))
    }

    /// `fin` is the state after `expand` from this one.
    pub open spec fn step_expand(&self, fin: &Self) -> bool {
        let o = *self;
        let f = *fin;
        if o.cursor < o.rows@.len() && o.rows@[o.cursor as int].has_children {
            &&& f.exp() == with_path(o.exp(), o.rows@[o.cursor as int].path@)
            &&& rows_view(f.rows@) == f.rows_spec()
            &&& f.dtd == o.dtd
            &&& f.cursor == o.cursor
            &&& f.search_mode == o.search_mode
            &&& f.search_query == o.search_query
            &&& f.search_matches == o.search_matches
            &&& f.search_match_idx == o.search_match_idx
            &&& f.overlay == o.overlay
        } else {
            f == o
        }
    }

    /// `fin` is the state after `collapse` from this one.
    pub open spec fn step_collapse(&self, fin: &Self) -> bool {
        let o = *self;
        let f = *fin;
        if o.cursor < o.rows@.len() && o.rows@[o.cursor as int].is_expanded {
            &&& f.exp() == without_path(o.exp(), o.rows@[o.cursor as int].path@)
            &&& rows_view(f.rows@) == f.rows_spec()
            &&& f.dtd == o.dtd
            &&& f.cursor == o.cursor
            &&& f.search_mode == o.search_mode
            &&& f.search_query == o.search_query
            &&& f.search_matches == o.search_matches
            &&& f.search_match_idx == o.search_match_idx
            &&& f.overlay == o.overlay
        } else if o.cursor < o.rows@.len() && o.rows@[o.cursor as int].depth > 0 {
            o.moved_to(
                &f,
                match row_above_at(
                    rows_view(o.rows@),
                    o.cursor as int,
                    o.rows@[o.cursor as int].depth - 1,
                ) {
                    Some(i) => i as usize,
                    None => o.cursor,
                },
            )
        } else {
            f == o
        }
    }

    /// `fin` is the state after `start_search` from this one.
    pub open spec fn step_start_search(&self, fin: &Self) -> bool {
        &&& (fin.search_mode)
        &&& (fin.search_query@ == Seq::<char>::empty())
        &&& (fin.search_matches@ == Seq::<usize>::empty())
        &&& (fin.search_match_idx is None)
        &&& (fin.dtd == self.dtd)
        &&& (fin.rows == self.rows)
        &&& (fin.cursor == self.cursor)
        &&& (fin.expanded == self.expanded)
        &&& (fin.overlay == self.overlay)
    }

    /// `fin` is the state after `cancel_search` from this one.
    pub open spec fn step_cancel_search(&self, fin: &Self) -> bool {
        &&& (!fin.search_mode)
        &&& (fin.search_query@ == Seq::<char>::empty())
        &&& (fin.search_matches@ == Seq::<usize>::empty())
        &&& (fin.search_match_idx is None)
        &&& (fin.dtd == self.dtd)
        &&& (fin.rows == self.rows)
        &&& (fin.cursor == self.cursor)
        &&& (fin.expanded == self.expanded)
        &&& (fin.overlay == self.overlay)
    }

    /// `fin` is the state after `finish_search` from this one.
    pub open spec fn step_finish_search(&self, fin: &Self) -> bool {
        &&& (!fin.search_mode)
        &&& (fin.search_matches@ == search_matches_of(rows_view(self.rows@), self.search_query@))
        &&& (fin.search_matches@.len() > 0 ==> fin.search_match_idx == Some(0usize)
            && fin.cursor == fin.search_matches@[0])
        &&& (fin.search_matches@.len() == 0 ==> fin.search_match_idx
            == self.search_match_idx && fin.cursor == self.cursor)
        &&& (fin.search_query == self.search_query)
        &&& (fin.dtd == self.dtd)
        &&& (fin.rows == self.rows)
        &&& (fin.expanded == self.expanded)
        &&& (fin.overlay == self.overlay)
    }

    /// `fin` is the state after `search_input` from this one.
    pub open spec fn step_search_input(&self, fin: &Self, c: char) -> bool {
        &&& (fin.search_query@ == self.search_query@.push(c))
        &&& (fin.search_matches@ == search_matches_of(rows_view(self.rows@), fin.search_query@))
        &&& (fin.search_mode == self.search_mode)
        &&& (fin.search_match_idx == self.search_match_idx)
        &&& (fin.dtd == self.dtd)
        &&& (fin.rows == self.rows)
        &&& (fin.cursor == self.cursor)
        &&& (fin.expanded == self.expanded)
        &&& (fin.overlay == self.overlay)
    }

    /// `fin` is the state after `search_backspace` from this one.
    pub open spec fn step_search_backspace(&self, fin: &Self) -> bool {
        &&& (fin.search_query@ == if self.search_query@.len() > 0 {
            self.search_query@.drop_last()
        } else {
            self.search_query@
        })
        &&& (fin.search_matches@ == search_matches_of(rows_view(self.rows@), fin.search_query@))
        &&& (fin.search_mode == self.search_mode)
        &&& (fin.search_match_idx == self.search_match_idx)
        &&& (fin.dtd == self.dtd)
        &&& (fin.rows == self.rows)
        &&& (fin.cursor == self.cursor)
        &&& (fin.expanded == self.expanded)
        &&& (fin.overlay == self.overlay)
    }

    /// `fin` is the state after `next_search_match` from this one.
    pub open spec fn step_next_match(&self, fin: &Self) -> bool {
        &&& (self.search_matches@.len() == 0 ==> *fin == *self)
        &&& (self.search_matches@.len() > 0 ==> {
            let idx = next_index(self.search_match_idx, self.search_matches@.len());
            &&& fin.search_match_idx == Some(idx)
            &&& fin.cursor == self.search_matches@[idx as int]
            &&& fin.dtd == self.dtd
            &&& fin.rows == self.rows
            &&& fin.expanded == self.expanded
            &&& fin.search_mode == self.search_mode
            &&& fin.search_query == self.search_query
            &&& fin.search_matches == self.search_matches
            &&& fin.overlay == self.overlay
        })
    }

    /// `fin` is the state after `prev_search_match` from this one.
    pub open spec fn step_prev_match(&self, fin: &Self) -> bool {
        &&& (self.search_matches@.len() == 0 ==> *fin == *self)
        &&& (self.search_matches@.len() > 0 ==> {
            let idx = prev_index(self.search_match_idx, self.search_matches@.len());
            &&& fin.search_match_idx == Some(idx)
            &&& fin.cursor == self.search_matches@[idx as int]
            &&& fin.dtd == self.dtd
            &&& fin.rows == self.rows
            &&& fin.expanded == self.expanded
            &&& fin.search_mode == self.search_mode
            &&& fin.search_query == self.search_query
            &&& fin.search_matches == self.search_matches
            &&& fin.overlay == self.overlay
        })
    }

    /// `fin` is the state after `show_entities` from this one.
    pub open spec fn step_show_entities(&self, fin: &Self) -> bool {
        &&& (fin.overlay == Some(Overlay::Entities))
        &&& (fin.dtd == self.dtd)
        &&& (fin.rows == self.rows)
        &&& (fin.cursor == self.cursor)
        &&& (fin.expanded == self.expanded)
        &&& (fin.search_mode == self.search_mode)
        &&& (fin.search_query == self.search_query)
        &&& (fin.search_matches == self.search_matches)
        &&& (fin.search_match_idx == self.search_match_idx)
    }

    /// `fin` is the state after `show_attributes` from this one.
    pub open spec fn step_show_attributes(&self, fin: &Self) -> bool {
        &&& (self.cursor < self.rows@.len() ==> (fin.overlay matches Some(Overlay::Attributes(n))
            && n@ == self.rows@[self.cursor as int].element_name@))
        &&& (self.cursor >= self.rows@.len() ==> fin.overlay == self.overlay)
        &&& (fin.dtd == self.dtd)
        &&& (fin.rows == self.rows)
        &&& (fin.cursor == self.cursor)
        &&& (fin.expanded == self.expanded)
        &&& (fin.search_mode == self.search_mode)
        &&& (fin.search_query == self.search_query)
        &&& (fin.search_matches == self.search_matches)
        &&& (fin.search_match_idx == self.search_match_idx)
    }

    /// `fin` is the state after `close_overlay` from this one.
    pub open spec fn step_close_overlay(&self, fin: &Self) -> bool {
        &&& (fin.overlay is None)
        &&& (fin.dtd == self.dtd)
        &&& (fin.rows == self.rows)
        &&& (fin.cursor == self.cursor)
        &&& (fin.expanded == self.expanded)
        &&& (fin.search_mode == self.search_mode)
        &&& (fin.search_query == self.search_query)
        &&& (fin.search_matches == self.search_matches)
        &&& (fin.search_match_idx == self.search_match_idx)
    }
}

impl AppState {
    /// The state with only `cursor` changed.
    pub open spec fn moved_to(&self, other: &Self, cursor: usize) -> bool {
        &&& other.dtd == self.dtd
        &&& other.rows == self.rows
        &&& other.cursor == cursor
        &&& other.expanded == self.expanded
        &&& other.search_mode == self.search_mode
        &&& other.search_query == self.search_query
        &&& other.search_matches == self.search_matches
        &&& other.search_match_idx == self.search_match_idx
        &&& other.overlay == self.overlay
    }

    /// Moves the cursor one row up, unless it is on the first row.
    pub fn move_up(&mut self)
        ensures
            old(self).step_move_up(final(self)),
    {
        if self.cursor > 0 {
            self.cursor -= 1;
        }
    }

    /// Moves the cursor one row down, unless it is on the last row.
    pub fn move_down(&mut self)
        ensures
            old(self).step_move_down(final(self)),
    {
        if self.rows.len() > 0 && self.cursor < self.rows.len() - 1 {
            self.cursor += 1;
        }
    }

    /// Expands the row under the cursor, when it has children.
    pub fn expand(&mut self)
        ensures
            old(self).step_expand(final(self)),
    {
        if self.cursor < self.rows.len() {
            if self.rows[self.cursor].has_children {
                let path = self.rows[self.cursor].path.clone();
                let ghost exp0 = self.exp();
                if !crate::tree::contains_name(&self.expanded, path.as_str()) {
                    self.expanded.push(path);
                    assert(self.exp() =~= exp0.push(old(self).rows@[old(self).cursor as int].path@));
                }
                self.rebuild_rows();
            }
        }
    }

    /// Collapses the row under the cursor when it is expanded; otherwise moves
    /// the cursor to the nearest row above it one level up.
    pub fn collapse(&mut self)
        ensures
            old(self).step_collapse(final(self)),
    {
        if self.cursor < self.rows.len() {
            if self.rows[self.cursor].is_expanded {
                let path = self.rows[self.cursor].path.clone();
                let ghost exp0 = self.exp();
                let mut kept: Vec<String> = Vec::new();
                let mut i: usize = 0;
                while i < self.expanded.len()
                    invariant
                        i <= self.expanded@.len(),
                        exp0 == self.exp(),
                        strings_view(kept@) == without_path(exp0.subrange(0, i as int), path@),
                    decreases self.expanded@.len() - i,
                {
                    proof {
                        assert(exp0.subrange(0, i + 1).drop_last() =~= exp0.subrange(0, i as int));
                    }
                    if !str_eq(self.expanded[i].as_str(), path.as_str()) {
                        let ghost before = strings_view(kept@);
                        kept.push(self.expanded[i].clone());
                        assert(strings_view(kept@) =~= before.push(exp0[i as int]));
                    }
                    i += 1;
                }
                assert(exp0.subrange(0, i as int) =~= exp0);
                self.expanded = kept;
                self.rebuild_rows();
            } else if self.rows[self.cursor].depth > 0 {
                // Move to parent
                let parent_depth = self.rows[self.cursor].depth - 1;
                let ghost rv = rows_view(self.rows@);
                let mut i = self.cursor;
                while i > 0
                    invariant
                        i <= old(self).cursor,
                        old(self).cursor < self.rows@.len(),
                        rv == rows_view(self.rows@),
                        rv == rows_view(old(self).rows@),
                        parent_depth == old(self).rows@[old(self).cursor as int].depth - 1,
                        !old(self).rows@[old(self).cursor as int].is_expanded,
                        old(self).rows@[old(self).cursor as int].depth > 0,
                        *self == *old(self),
                        row_above_at(rv, i as int, parent_depth as int) == row_above_at(
                            rv,
                            old(self).cursor as int,
                            parent_depth as int,
                        ),
                    decreases i,
                {
                    i -= 1;
                    if self.rows[i].depth == parent_depth {
                        assert(rv[i as int].depth == parent_depth);
                        assert(row_above_at(rv, i + 1, parent_depth as int) == Some(i as int));
                        self.cursor = i;
                        assert(row_above_at(
                            rows_view(old(self).rows@),
                            old(self).cursor as int,
                            old(self).rows@[old(self).cursor as int].depth - 1,
                        ) == Some(i as int));
                        assert(old(self).moved_to(self, i));
                        return ;
                    }
                }
            }
        }
    }

    /// Starts typing a search query.
    pub fn start_search(&mut self)
        ensures
            old(self).step_start_search(final(self)),
    {
        self.search_mode = true;
        self.search_query = String::new();
        self.search_matches.clear();
        self.search_match_idx = None;
    }

    /// Abandons the search.
    pub fn cancel_search(&mut self)
        ensures
            old(self).step_cancel_search(final(self)),
    {
        self.search_mode = false;
        self.search_query = String::new();
        self.search_matches.clear();
        self.search_match_idx = None;
    }

    /// Ends typing: finds the matching rows and moves to the first one.
    pub fn finish_search(&mut self)
        ensures
            old(self).step_finish_search(final(self)),
    {
        self.search_mode = false;
        self.update_search_matches();
        if self.search_matches.len() > 0 {
            self.search_match_idx = Some(0);
            self.cursor = self.search_matches[0];
        }
    }

    /// Adds a character to the query and searches again.
    pub fn search_input(&mut self, c: char)
        ensures
            old(self).step_search_input(final(self), c),
    {
        self.search_query.push(c);
        self.update_search_matches();
    }

    /// Removes the last character of the query and searches again.
    pub fn search_backspace(&mut self)
        ensures
            old(self).step_search_backspace(final(self)),
    {
        self.search_query.pop();
        self.update_search_matches();
    }

    fn update_search_matches(&mut self)
        ensures
            final(self).search_matches@ == search_matches_of(
                rows_view(old(self).rows@),
                old(self).search_query@,
            ),
            final(self).search_mode == old(self).search_mode,
            final(self).search_query == old(self).search_query,
            final(self).search_match_idx == old(self).search_match_idx,
            final(self).dtd == old(self).dtd,
            final(self).rows == old(self).rows,
            final(self).cursor == old(self).cursor,
            final(self).expanded == old(self).expanded,
            final(self).overlay == old(self).overlay,
    {
        let q = str_to_lowercase(self.search_query.as_str());
        let mut names: Vec<String> = Vec::new();
        let mut i: usize = 0;
        while i < self.rows.len()
            invariant
                i <= self.rows@.len(),
                *self == *old(self),
                strings_view(names@) =~= rows_view(self.rows@).subrange(0, i as int).map_values(
                    |r: RowView| lowercase(r.element_name),
                ),
            decreases self.rows@.len() - i,
        {
            let ghost before = strings_view(names@);
            names.push(str_to_lowercase(self.rows[i].element_name.as_str()));
            assert(strings_view(names@) =~= before.push(lowercase(rows_view(self.rows@)[i as int].element_name)));
            i += 1;
        }
        proof {
            assert(rows_view(self.rows@).subrange(0, i as int) =~= rows_view(self.rows@));
        }
        self.search_matches = matching_indices(&names, q.as_str());
    }

    /// Moves to the next match, after the last one to the first.
    pub fn next_search_match(&mut self)
        ensures
            old(self).step_next_match(final(self)),
    {
        if self.search_matches.len() == 0 {
            return ;
        }
        let n = self.search_matches.len();
        let idx = match self.search_match_idx {
            Some(i) => {
                assert(((i % n) as int + 1) % (n as int) == (i as int + 1) % (n as int)) by (nonlinear_arith)
                    requires
                        n > 0,
                ;
                (i % n + 1) % n
            },
            None => 0,
        };
        self.search_match_idx = Some(idx);
        self.cursor = self.search_matches[idx];
    }

    /// Moves to the previous match, before the first one to the last.
    pub fn prev_search_match(&mut self)
        requires
            old(self).search_match_idx matches Some(i) ==> i <= old(self).search_matches@.len(),
        ensures
            old(self).step_prev_match(final(self)),
    {
        if self.search_matches.len() == 0 {
            return ;
        }
        let idx = match self.search_match_idx {
            Some(0) | None => self.search_matches.len() - 1,
            Some(i) => i - 1,
        };
        self.search_match_idx = Some(idx);
        self.cursor = self.search_matches[idx];
    }

    /// Shows the entities.
    pub fn show_entities(&mut self)
        ensures
            old(self).step_show_entities(final(self)),
    {
        self.overlay = Some(Overlay::Entities);
    }

    /// Shows the attributes of the element under the cursor.
    pub fn show_attributes(&mut self)
        ensures
            old(self).step_show_attributes(final(self)),
    {
        if self.cursor < self.rows.len() {
            let name = self.rows[self.cursor].element_name.clone();
            self.overlay = Some(Overlay::Attributes(name));
        }
    }

    /// Closes the overlay.
    pub fn close_overlay(&mut self)
        ensures
            old(self).step_close_overlay(final(self)),
    {
        self.overlay = None;
    }
}

} // verus!
