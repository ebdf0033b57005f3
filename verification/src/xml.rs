//! A read-only XML tree as plain values (one record per node, in document
//! order, children by index) and the lookups the project reader makes on it.

use vstd::prelude::*;

verus! {

/// One node of a parsed XML document: its index in document order, whether it
/// is an element, its local tag name (empty for non-elements), its attributes
/// as (local name, value) pairs in document order, and the indices of its
/// children in order.
pub struct XmlNode {
    pub id: usize,
    pub is_element: bool,
    pub name: String,
    pub attributes: Vec<(String, String)>,
    pub children: Vec<usize>,
}

pub struct XmlNodeView {
    pub id: usize,
    pub is_element: bool,
    pub name: Seq<char>,
    pub attributes: Seq<(Seq<char>, Seq<char>)>,
    pub children: Seq<usize>,
}

pub open spec fn attrs_view(v: Seq<(String, String)>) -> Seq<(Seq<char>, Seq<char>)> {
    v.map_values(|a: (String, String)| (a.0@, a.1@))
}

impl View for XmlNode {
    type V = XmlNodeView;

    open spec fn view(&self) -> XmlNodeView {
        XmlNodeView {
            id: self.id,
            is_element: self.is_element,
            name: self.name@,
            attributes: attrs_view(self.attributes@),
            children: self.children@,
        }
    }
}

pub open spec fn nodes_view(v: Seq<XmlNode>) -> Seq<XmlNodeView> {
    v.map_values(|n: XmlNode| n@)
}

/// The shape every parsed document has: fewer than 2^63 nodes, node `k`
/// carries index `k`, and the children of a node come after it, inside the
/// document, in increasing order.
pub open spec fn tree_ok(ns: Seq<XmlNodeView>) -> bool {
    &&& ns.len() < 0x8000_0000_0000_0000
    &&& forall|k: int| 0 <= k < ns.len() ==> (#[trigger] ns[k]).id == k
    &&& forall|k: int, j: int|
        0 <= k < ns.len() && 0 <= j < ns[k].children.len() ==> k < #[trigger] ns[k].children[j] < ns.len()
    &&& forall|k: int, a: int, b: int|
        0 <= k < ns.len() && 0 <= a < b < ns[k].children.len() ==> #[trigger] ns[k].children[a]
            < #[trigger] ns[k].children[b]
}

/// The `j`-th child of node `k` has index above `k + j`; so a node has fewer
/// children than the document has nodes.
pub proof fn lemma_child_index(ns: Seq<XmlNodeView>, k: int, j: int)
    requires
        tree_ok(ns),
        0 <= k < ns.len(),
        0 <= j < ns[k].children.len(),
    ensures
        ns[k].children[j] > k + j,
    decreases j,
{
    if j > 0 {
        lemma_child_index(ns, k, j - 1);
        assert(ns[k].children[j - 1] < ns[k].children[j]);
    }
}

/// Whether node `c` is an element with local name `tag`.
pub open spec fn elem_named(ns: Seq<XmlNodeView>, c: int, tag: Seq<char>) -> bool {
    0 <= c < ns.len() && ns[c].is_element && ns[c].name == tag
}

/// The first of `kids[k..]` that is an element named `tag`.
pub open spec fn child_from(ns: Seq<XmlNodeView>, kids: Seq<usize>, k: int, tag: Seq<char>) -> Option<int>
    decreases kids.len() - k,
{
    if k < 0 || k >= kids.len() {
        None
    } else if elem_named(ns, kids[k] as int, tag) {
        Some(kids[k] as int)
    } else {
        child_from(ns, kids, k + 1, tag)
    }
}

/// The first child element of node `i` named `tag`.
pub open spec fn child_spec(ns: Seq<XmlNodeView>, i: int, tag: Seq<char>) -> Option<int> {
    if 0 <= i < ns.len() {
        child_from(ns, ns[i].children, 0, tag)
    } else {
        None
    }
}

/// Following a path of tags from node `i`, one child at a time.
pub open spec fn chain_spec(ns: Seq<XmlNodeView>, i: int, path: Seq<Seq<char>>) -> Option<int>
    decreases path.len(),
{
    if path.len() == 0 {
        Some(i)
    } else {
        match child_spec(ns, i, path[0]) {
            Some(c) => chain_spec(ns, c, path.drop_first()),
            None => None,
        }
    }
}

/// The value of the first attribute of `attrs` named `name`.
pub open spec fn attr_spec(attrs: Seq<(Seq<char>, Seq<char>)>, name: Seq<char>) -> Option<Seq<char>>
    decreases attrs.len(),
{
    if attrs.len() == 0 {
        None
    } else if attrs[0].0 == name {
        Some(attrs[0].1)
    } else {
        attr_spec(attrs.drop_first(), name)
    }
}

/// The attribute `name` of node `i`.
pub open spec fn node_attr(ns: Seq<XmlNodeView>, i: int, name: Seq<char>) -> Option<Seq<char>> {
    if 0 <= i < ns.len() {
        attr_spec(ns[i].attributes, name)
    } else {
        None
    }
}

/// The `Value` attribute of the node that `o` names, if any.
pub open spec fn value_of(ns: Seq<XmlNodeView>, o: Option<int>) -> Option<Seq<char>> {
    match o {
        Some(i) => node_attr(ns, i, "Value"@),
        None => None,
    }
}

/// Whether node `i` has a child element.
pub open spec fn has_element_children_spec(ns: Seq<XmlNodeView>, i: int) -> bool {
    0 <= i < ns.len() && exists|j: int|
        0 <= j < ns[i].children.len() && #[trigger] ns[i].children[j] < ns.len()
            && ns[ns[i].children[j] as int].is_element
}

/// Depth-first search that prefers direct children: the first child element
/// of `i` named `tag`, else the first hit of the same search in each child
/// element, in order.
pub open spec fn find_first_spec(ns: Seq<XmlNodeView>, i: int, tag: Seq<char>) -> Option<int>
    decreases ns.len() - i, ns[i].children.len() + 1,
{
    if !(0 <= i < ns.len()) {
        None
    } else {
        match child_spec(ns, i, tag) {
            Some(c) => Some(c),
            None => find_in_children(ns, i, 0, tag),
        }
    }
}

/// The first hit of `find_first_spec` among the child elements `k..` of `i`.
pub open spec fn find_in_children(ns: Seq<XmlNodeView>, i: int, k: int, tag: Seq<char>) -> Option<int>
    decreases ns.len() - i, ns[i].children.len() - k,
{
    if !(0 <= i < ns.len()) || k < 0 || k >= ns[i].children.len() {
        None
    } else {
        let c = ns[i].children[k] as int;
        if i < c < ns.len() && ns[c].is_element {
            match find_first_spec(ns, c, tag) {
                Some(f) => Some(f),
                None => find_in_children(ns, i, k + 1, tag),
            }
        } else {
            find_in_children(ns, i, k + 1, tag)
        }
    }
}

/// Whether the nodes have the shape of a parsed document.
pub fn check_tree(nodes: &Vec<XmlNode>) -> (r: bool)
    ensures
        r == tree_ok(nodes_view(nodes@)),
{
    let ghost ns = nodes_view(nodes@);
    if nodes.len() as u64 >= 0x8000_0000_0000_0000u64 {
        return false;
    }
    let mut k: usize = 0;
    while k < nodes.len()
        invariant
            k <= nodes@.len(),
            ns == nodes_view(nodes@),
            ns.len() < 0x8000_0000_0000_0000,
            forall|a: int| 0 <= a < k ==> (#[trigger] ns[a]).id == a,
            forall|a: int, j: int|
                0 <= a < k && 0 <= j < ns[a].children.len() ==> a < #[trigger] ns[a].children[j] < ns.len(),
            forall|a: int, b1: int, b2: int|
                0 <= a < k && 0 <= b1 < b2 < ns[a].children.len() ==> #[trigger] ns[a].children[b1]
                    < #[trigger] ns[a].children[b2],
        decreases nodes@.len() - k,
    {
        let n = &nodes[k];
        assert(ns[k as int] == n@);
        if n.id != k {
            return false;
        }
        let mut j: usize = 0;
        while j < n.children.len()
            invariant
                j <= n.children@.len(),
                k < nodes@.len(),
                ns == nodes_view(nodes@),
                ns[k as int] == n@,
                forall|b: int| 0 <= b < j ==> k < #[trigger] n.children@[b] < ns.len(),
                forall|b1: int, b2: int| 0 <= b1 < b2 < j ==> #[trigger] n.children@[b1] < #[trigger] n.children@[b2],
            decreases n.children@.len() - j,
        {
            let c = n.children[j];
            if !(k < c && c < nodes.len()) {
                assert(ns[k as int].children[j as int] == c);
                return false;
            }
            if j > 0 && n.children[j - 1] >= c {
                assert(ns[k as int].children[j - 1] >= ns[k as int].children[j as int]);
                return false;
            }
            j = j + 1;
        }
        k = k + 1;
    }
    true
}

/// Equality of two strings.
fn same_str(a: &str, b: &str) -> (r: bool)
    ensures
        r == (a@ == b@),
{
    crate::text::str_is(a, b)
}

/// The first child element of node `i` named `tag`.
pub fn child(nodes: &Vec<XmlNode>, i: usize, tag: &str) -> (r: Option<usize>)
    requires
        tree_ok(nodes_view(nodes@)),
        i < nodes@.len(),
    ensures
        match r {
            Some(c) => child_spec(nodes_view(nodes@), i as int, tag@) == Some(c as int),
            None => child_spec(nodes_view(nodes@), i as int, tag@) is None,
        },
{
    let ghost ns = nodes_view(nodes@);
    let kids = &nodes[i].children;
    assert(ns[i as int].children == kids@);
    let mut k: usize = 0;
    while k < kids.len()
        invariant
            k <= kids@.len(),
            ns == nodes_view(nodes@),
            tree_ok(ns),
            i < ns.len(),
            ns[i as int].children == kids@,
            child_spec(ns, i as int, tag@) == child_from(ns, kids@, k as int, tag@),
        decreases kids@.len() - k,
    {
        let c = kids[k];
        assert(i < c < ns.len());
        assert(ns[c as int] == nodes@[c as int]@);
        if nodes[c].is_element && same_str(nodes[c].name.as_str(), tag) {
            return Some(c);
        }
        k = k + 1;
    }
    None
}

/// The first child element named `tag` of the node `o` names, if any.
pub fn child_of(nodes: &Vec<XmlNode>, o: Option<usize>, tag: &str) -> (r: Option<usize>)
    requires
        tree_ok(nodes_view(nodes@)),
        o matches Some(i) ==> i < nodes@.len(),
    ensures
        r matches Some(c) ==> c < nodes@.len(),
        opt_int(r) == match o {
            Some(i) => child_spec(nodes_view(nodes@), i as int, tag@),
            None => None,
        },
{
    match o {
        Some(i) => {
            let r = child(nodes, i, tag);
            proof {
                if let Some(c) = r {
                    lemma_child_in_range(nodes_view(nodes@), i as int, tag@);
                }
            }
            r
        },
        None => None,
    }
}

pub open spec fn opt_int(o: Option<usize>) -> Option<int> {
    match o {
        Some(u) => Some(u as int),
        None => None,
    }
}

proof fn lemma_child_from_in_range(ns: Seq<XmlNodeView>, kids: Seq<usize>, k: int, tag: Seq<char>)
    ensures
        child_from(ns, kids, k, tag) matches Some(c) ==> 0 <= c < ns.len(),
    decreases kids.len() - k,
{
    if 0 <= k < kids.len() && !elem_named(ns, kids[k] as int, tag) {
        lemma_child_from_in_range(ns, kids, k + 1, tag);
    }
}

pub proof fn lemma_child_in_range(ns: Seq<XmlNodeView>, i: int, tag: Seq<char>)
    ensures
        child_spec(ns, i, tag) matches Some(c) ==> 0 <= c < ns.len(),
{
    if 0 <= i < ns.len() {
        lemma_child_from_in_range(ns, ns[i].children, 0, tag);
    }
}

pub open spec fn strs_view(v: Seq<&str>) -> Seq<Seq<char>> {
    v.map_values(|s: &str| s@)
}

/// Follow a path of tags from node `i`, one child at a time.
pub fn chain(nodes: &Vec<XmlNode>, i: usize, path: &Vec<&str>) -> (r: Option<usize>)
    requires
        tree_ok(nodes_view(nodes@)),
        i < nodes@.len(),
    ensures
        r matches Some(c) ==> c < nodes@.len(),
        opt_int(r) == chain_spec(nodes_view(nodes@), i as int, strs_view(path@)),
{
    let ghost ns = nodes_view(nodes@);
    let mut cur: usize = i;
    let mut k: usize = 0;
    assert(strs_view(path@).skip(0) =~= strs_view(path@));
    while k < path.len()
        invariant
            k <= path@.len(),
            ns == nodes_view(nodes@),
            tree_ok(ns),
            cur < ns.len(),
            chain_spec(ns, i as int, strs_view(path@)) == chain_spec(ns, cur as int, strs_view(path@).skip(k as int)),
        decreases path@.len() - k,
    {
        let ghost rest = strs_view(path@).skip(k as int);
        assert(rest[0] == path@[k as int]@);
        assert(rest.drop_first() =~= strs_view(path@).skip(k + 1));
        match child(nodes, cur, path[k]) {
            Some(c) => {
                proof {
                    lemma_child_in_range(ns, cur as int, path@[k as int]@);
                }
                cur = c;
            },
            None => {
                return None;
            },
        }
        k = k + 1;
    }
    assert(strs_view(path@).skip(k as int).len() == 0);
    Some(cur)
}

/// The value of the attribute `name` of node `i`.
pub fn attribute<'a>(nodes: &'a Vec<XmlNode>, i: usize, name: &str) -> (r: Option<&'a String>)
    requires
        i < nodes@.len(),
    ensures
        match r {
            Some(v) => node_attr(nodes_view(nodes@), i as int, name@) == Some(v@),
            None => node_attr(nodes_view(nodes@), i as int, name@) is None,
        },
{
    let ghost ns = nodes_view(nodes@);
    let attrs = &nodes[i].attributes;
    let ghost av = attrs_view(attrs@);
    assert(ns[i as int].attributes == av);
    let mut k: usize = 0;
    assert(av.skip(0) =~= av);
    while k < attrs.len()
        invariant
            k <= attrs@.len(),
            av == attrs_view(attrs@),
            node_attr(ns, i as int, name@) == attr_spec(av.skip(k as int), name@),
            ns == nodes_view(nodes@),
            i < ns.len(),
        decreases attrs@.len() - k,
    {
        assert(av.skip(k as int)[0] == (attrs@[k as int].0@, attrs@[k as int].1@));
        assert(av.skip(k as int).drop_first() =~= av.skip(k + 1));
        if same_str(attrs[k].0.as_str(), name) {
            return Some(&attrs[k].1);
        }
        k = k + 1;
    }
    None
}

/// The `Value` attribute of the node `o` names, if any.
pub fn get_val<'a>(nodes: &'a Vec<XmlNode>, o: Option<usize>) -> (r: Option<&'a String>)
    requires
        o matches Some(i) ==> i < nodes@.len(),
    ensures
        match r {
            Some(v) => value_of(nodes_view(nodes@), opt_int(o)) == Some(v@),
            None => value_of(nodes_view(nodes@), opt_int(o)) is None,
        },
{
    match o {
        Some(i) => attribute(nodes, i, "Value"),
        None => None,
    }
}

/// Whether node `i` has a child element.
pub fn has_element_children(nodes: &Vec<XmlNode>, i: usize) -> (r: bool)
    requires
        tree_ok(nodes_view(nodes@)),
        i < nodes@.len(),
    ensures
        r == has_element_children_spec(nodes_view(nodes@), i as int),
{
    let ghost ns = nodes_view(nodes@);
    let kids = &nodes[i].children;
    assert(ns[i as int].children == kids@);
    let mut k: usize = 0;
    while k < kids.len()
        invariant
            k <= kids@.len(),
            ns == nodes_view(nodes@),
            tree_ok(ns),
            i < ns.len(),
            ns[i as int].children == kids@,
            forall|j: int| 0 <= j < k ==> !(#[trigger] ns[i as int].children[j] < ns.len()
                && ns[ns[i as int].children[j] as int].is_element),
        decreases kids@.len() - k,
    {
        let c = kids[k];
        assert(ns[c as int] == nodes@[c as int]@);
        if nodes[c].is_element {
            assert(ns[i as int].children[k as int] == c);
            return true;
        }
        k = k + 1;
    }
    false
}

/// Depth-first search that prefers direct children: the first child element
/// of `i` named `tag`, else the first hit of the same search in each child
/// element, in order.
pub fn find_first(nodes: &Vec<XmlNode>, i: usize, tag: &str) -> (r: Option<usize>)
    requires
        tree_ok(nodes_view(nodes@)),
        i < nodes@.len(),
    ensures
        r matches Some(c) ==> c < nodes@.len(),
        opt_int(r) == find_first_spec(nodes_view(nodes@), i as int, tag@),
    decreases nodes@.len() - i,
{
    let ghost ns = nodes_view(nodes@);
    if let Some(c) = child(nodes, i, tag) {
        proof {
            lemma_child_in_range(ns, i as int, tag@);
        }
        return Some(c);
    }
    let kids = &nodes[i].children;
    assert(ns[i as int].children == kids@);
    let mut k: usize = 0;
    while k < kids.len()
        invariant
            k <= kids@.len(),
            ns == nodes_view(nodes@),
            tree_ok(ns),
            i < ns.len(),
            ns[i as int].children == kids@,
            find_first_spec(ns, i as int, tag@) == find_in_children(ns, i as int, k as int, tag@),
        decreases kids@.len() - k,
    {
        let c = kids[k];
        assert(i < c < ns.len());
        assert(ns[c as int] == nodes@[c as int]@);
        if nodes[c].is_element {
            let f = find_first(nodes, c, tag);
            if f.is_some() {
                return f;
            }
        }
        k = k + 1;
    }
    None
}

/// What `roxmltree::Document::parse` makes of `text`: every node of the
/// document in the order `Document::descendants` yields them, or `None` when
/// the parser refuses the text.
pub uninterp spec fn xml_nodes(text: Seq<char>) -> Option<Seq<XmlNodeView>>;

pub open spec fn opt_nodes_view(o: Option<Vec<XmlNode>>) -> Option<Seq<XmlNodeView>> {
    match o {
        Some(v) => Some(nodes_view(v@)),
        None => None,
    }
}

/// Parse `text` with `roxmltree::Document::parse` (default options) and copy
/// each node that `Document::descendants` yields into a plain record: its id
/// (`NodeId::get_usize`), `is_element`, the local tag name, the attributes as
/// (local name, value), and the ids of its children. Trusted: the result is
/// `xml_nodes(text)`, and a parsed document has the shape `tree_ok` states.
/// roxmltree stores the nodes in one vector in document order, appending each
/// new node after its parent and after its earlier siblings, and refuses a
/// document with `u32::MAX` nodes or more; `descendants` of the root walks
/// that whole vector and `NodeId::get_usize` is the position in it. So the
/// ids are the positions, every child comes after its parent, and children
/// come in increasing order.
#[verifier::external_body]
pub(crate) fn parse_xml(text: &str) -> (r: Option<Vec<XmlNode>>)
    ensures
        opt_nodes_view(r) == xml_nodes(text@),
        r matches Some(v) ==> tree_ok(nodes_view(v@)),
{
    let doc = roxmltree::Document::parse(text).ok()?;
    Some(doc.descendants().map(|n| XmlNode {
        id: n.id().get_usize(),
        is_element: n.is_element(),
        name: n.tag_name().name().to_string(),
        attributes: n.attributes().map(|a| (a.name().to_string(), a.value().to_string())).collect(),
        children: n.children().map(|c| c.id().get_usize()).collect(),
    }).collect())
}

} // verus!
