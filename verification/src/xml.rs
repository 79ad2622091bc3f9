//! The topology file as XML: the nodes the parser finds, and the experiment
//! they describe, as the elements the topology rules read.
use vstd::prelude::*;
use crate::rules::{
    elem_view, experiment_blocks, experiment_of_view, lemma_experiment_view, Blocks, Element, TopologyError,
};
use crate::text::string_from_chars;
use crate::text::chars_of;

verus! {

/// A node of a parsed XML document, in document order: its number, the
/// number of its parent (none for the document itself), whether it is an
/// element, its tag (empty but for elements) and its attributes, each with
/// whether it has a namespace, its local name and its value.
pub struct XmlNode {
    pub id: usize,
    pub parent: Option<usize>,
    pub element: bool,
    pub tag: String,
    pub attributes: Vec<(bool, String, String)>,
}

/// A node as plain values.
pub open spec fn node_view(n: XmlNode) -> (usize, Option<usize>, bool, Seq<char>, Seq<(bool, Seq<char>, Seq<char>)>) {
    (n.id, n.parent, n.element, n.tag@, n.attributes@.map_values(|a: (bool, String, String)| (a.0, a.1@, a.2@)))
}

/// The nodes of the document `text` as the `roxmltree` parser finds them,
/// the document node first and then its descendants in document order;
/// `None` when the text is not well-formed XML.
pub uninterp spec fn xml_nodes(text: Seq<char>) -> Option<
    Seq<(usize, Option<usize>, bool, Seq<char>, Seq<(bool, Seq<char>, Seq<char>)>)>,
>;

/// Calls `roxmltree::Document::parse` on `text` and lists the document's
/// nodes with `Document::descendants`.  The contract names the list, see
/// `xml_nodes`, and claims nothing more of it.
#[verifier::external_body]
fn parse_xml(text: &str) -> (r: Option<Vec<XmlNode>>)
    ensures
        r matches Some(v) ==> xml_nodes(text@) == Some(v@.map_values(|n: XmlNode| node_view(n))),
        r is None ==> xml_nodes(text@) is None,
{
    let doc = roxmltree::Document::parse(text).ok()?;
    Some(doc.descendants().map(|n| XmlNode {
        id: n.id().get_usize(),
        parent: n.parent().map(|p| p.id().get_usize()),
        element: n.is_element(),
        tag: n.tag_name().name().to_string(),
        attributes: n.attributes().map(|a| (a.namespace().is_some(), a.name().to_string(), a.value().to_string())).collect(),
    }).collect())
}

/// The attributes without a namespace, as name and value.
pub open spec fn plain_attrs(attrs: Seq<(bool, Seq<char>, Seq<char>)>) -> Seq<(Seq<char>, Seq<char>)>
    decreases attrs.len(),
{
    if attrs.len() == 0 {
        seq![]
    } else {
        let a = attrs.last();
        plain_attrs(attrs.drop_last()) + if a.0 {
            seq![]
        } else {
            seq![(a.1, a.2)]
        }
    }
}

/// A node as the topology rules read it: its tag and the attributes that
/// have no namespace.
pub open spec fn plain_element(n: (usize, Option<usize>, bool, Seq<char>, Seq<(bool, Seq<char>, Seq<char>)>)) -> (
    Seq<char>,
    Seq<(Seq<char>, Seq<char>)>,
) {
    (n.3, plain_attrs(n.4))
}

/// Positions, in `ns`, of the children of node `id`, in order; only the
/// elements when `elements_only`.
pub open spec fn children_at(
    ns: Seq<(usize, Option<usize>, bool, Seq<char>, Seq<(bool, Seq<char>, Seq<char>)>)>,
    id: usize,
    elements_only: bool,
) -> Seq<int>
    decreases ns.len(),
{
    if ns.len() == 0 {
        seq![]
    } else {
        let n = ns.last();
        children_at(ns.drop_last(), id, elements_only) + if n.1 == Some(id) && (n.2 || !elements_only) {
            seq![ns.len() - 1]
        } else {
            seq![]
        }
    }
}

/// The element children of node `id`, as the topology rules read them.
pub open spec fn element_children(
    ns: Seq<(usize, Option<usize>, bool, Seq<char>, Seq<(bool, Seq<char>, Seq<char>)>)>,
    id: usize,
) -> Seq<(Seq<char>, Seq<(Seq<char>, Seq<char>)>)> {
    children_at(ns, id, true).map_values(|j: int| plain_element(ns[j]))
}

proof fn lemma_children_in(
    ns: Seq<(usize, Option<usize>, bool, Seq<char>, Seq<(bool, Seq<char>, Seq<char>)>)>,
    id: usize,
    elements_only: bool,
)
    ensures
        forall|k: int|
            0 <= k < children_at(ns, id, elements_only).len() ==> 0 <= #[trigger] children_at(ns, id, elements_only)[k]
                < ns.len(),
    decreases ns.len(),
{
    if ns.len() > 0 {
        lemma_children_in(ns.drop_last(), id, elements_only);
        let prev = children_at(ns.drop_last(), id, elements_only);
        assert forall|k: int| 0 <= k < prev.len() implies #[trigger] children_at(ns, id, elements_only)[k] == prev[k] by {}
    }
}

/// The element a node stands for, see `plain_element`.
pub fn element_of(n: &XmlNode) -> (e: Element)
    ensures
        elem_view(e) == plain_element(node_view(*n)),
{
    let ghost av = node_view(*n).4;
    let mut attributes: Vec<(String, String)> = Vec::new();
    let mut i: usize = 0;
    while i < n.attributes.len()
        invariant
            av == node_view(*n).4,
            i <= n.attributes@.len(),
            attributes@.map_values(|a: (String, String)| (a.0@, a.1@)) == plain_attrs(av.take(i as int)),
        decreases n.attributes@.len() - i,
    {
        let ghost before = attributes@.map_values(|a: (String, String)| (a.0@, a.1@));
        proof {
            assert(av.take(i + 1).drop_last() =~= av.take(i as int));
            assert(av.take(i + 1).last() == av[i as int]);
        }
        if !n.attributes[i].0 {
            let name = string_from_chars(chars_of(n.attributes[i].1.as_str()).as_slice());
            let value = string_from_chars(chars_of(n.attributes[i].2.as_str()).as_slice());
            attributes.push((name, value));
            proof {
                assert(attributes@.map_values(|a: (String, String)| (a.0@, a.1@)) =~= before.push(
                    (av[i as int].1, av[i as int].2),
                ));
            }
        } else {
            proof {
                assert(plain_attrs(av.take(i + 1)) =~= plain_attrs(av.take(i as int)));
            }
        }
        i = i + 1;
    }
    proof {
        assert(av.take(av.len() as int) =~= av);
    }
    let tag = string_from_chars(chars_of(n.tag.as_str()).as_slice());
    Element { tag, attributes }
}

/// Positions of the children of node `id`, see `children_at`.
pub fn child_positions(ns: &Vec<XmlNode>, id: usize, elements_only: bool) -> (r: Vec<usize>)
    ensures
        r@.map_values(|j: usize| j as int) == children_at(ns@.map_values(|n: XmlNode| node_view(n)), id, elements_only),
{
    let ghost v = ns@.map_values(|n: XmlNode| node_view(n));
    let mut r: Vec<usize> = Vec::new();
    let mut i: usize = 0;
    while i < ns.len()
        invariant
            v == ns@.map_values(|n: XmlNode| node_view(n)),
            i <= ns@.len(),
            r@.map_values(|j: usize| j as int) == children_at(v.take(i as int), id, elements_only),
        decreases ns@.len() - i,
    {
        let ghost before = r@.map_values(|j: usize| j as int);
        proof {
            assert(v.take(i + 1).drop_last() =~= v.take(i as int));
            assert(v.take(i + 1).last() == v[i as int]);
        }
        if ns[i].parent == Some(id) && (ns[i].element || !elements_only) {
            r.push(i);
            proof {
                assert(r@.map_values(|j: usize| j as int) =~= before.push(i as int));
            }
        } else {
            proof {
                assert(children_at(v.take(i + 1), id, elements_only) =~= children_at(v.take(i as int), id, elements_only));
            }
        }
        i = i + 1;
    }
    proof {
        assert(v.take(v.len() as int) =~= v);
    }
    r
}

/// The elements at positions `ps` of `ns`.
fn elements_at(ns: &Vec<XmlNode>, ps: &Vec<usize>) -> (r: Vec<Element>)
    requires
        forall|k: int| 0 <= k < ps@.len() ==> #[trigger] ps@[k] < ns@.len(),
    ensures
        r@.map_values(|e: Element| elem_view(e)) == ps@.map_values(|j: usize| j as int).map_values(
            |j: int| plain_element(ns@.map_values(|n: XmlNode| node_view(n))[j]),
        ),
{
    let ghost v = ns@.map_values(|n: XmlNode| node_view(n));
    let ghost want = ps@.map_values(|j: usize| j as int).map_values(|j: int| plain_element(v[j]));
    let mut r: Vec<Element> = Vec::new();
    let mut k: usize = 0;
    while k < ps.len()
        invariant
            v == ns@.map_values(|n: XmlNode| node_view(n)),
            want == ps@.map_values(|j: usize| j as int).map_values(|j: int| plain_element(v[j])),
            forall|k: int| 0 <= k < ps@.len() ==> #[trigger] ps@[k] < ns@.len(),
            k <= ps@.len(),
            r@.map_values(|e: Element| elem_view(e)) == want.take(k as int),
        decreases ps@.len() - k,
    {
        let e = element_of(&ns[ps[k]]);
        let ghost before = r@.map_values(|e: Element| elem_view(e));
        r.push(e);
        proof {
            assert(r@.map_values(|e: Element| elem_view(e)) =~= before.push(elem_view(e)));
            assert(want.take(k + 1) =~= want.take(k as int).push(want[k as int]));
        }
        k = k + 1;
    }
    proof {
        assert(want.take(want.len() as int) =~= want);
    }
    r
}

/// An experiment as the topology file gives it: its root element, the
/// position of each block among the root's element children, and the
/// element children of each block that is there.
pub struct Topology {
    pub root: Element,
    pub blocks: Blocks,
    pub config: Option<Vec<Element>>,
    pub services: Option<Vec<Element>>,
    pub bridges: Option<Vec<Element>>,
    pub links: Option<Vec<Element>>,
    pub dynamic: Option<Vec<Element>>,
}

/// Position, in `ns`, of the first node under the document node: the root
/// of the topology.
pub open spec fn root_position(ns: Seq<(usize, Option<usize>, bool, Seq<char>, Seq<(bool, Seq<char>, Seq<char>)>)>) -> Option<int> {
    if ns.len() > 0 && children_at(ns, ns[0].0, false).len() > 0 {
        Some(children_at(ns, ns[0].0, false)[0])
    } else {
        None
    }
}

/// The element children of the block at position `at` among the element
/// children of the node at position `root`, when the block is there.
pub open spec fn block_children(
    ns: Seq<(usize, Option<usize>, bool, Seq<char>, Seq<(bool, Seq<char>, Seq<char>)>)>,
    root: int,
    at: Option<usize>,
) -> Option<Seq<(Seq<char>, Seq<(Seq<char>, Seq<char>)>)>> {
    match at {
        Some(i) => Some(element_children(ns, ns[children_at(ns, ns[root].0, true)[i as int]].0)),
        None => None,
    }
}

pub open spec fn views_of(v: Option<Vec<Element>>) -> Option<Seq<(Seq<char>, Seq<(Seq<char>, Seq<char>)>)>> {
    match v {
        Some(es) => Some(es@.map_values(|e: Element| elem_view(e))),
        None => None,
    }
}

/// Why the topology text gives no experiment: it is not well-formed XML,
/// or its document has nothing under it.
pub open spec fn unreadable(text: Seq<char>) -> bool {
    xml_nodes(text) is None || root_position(xml_nodes(text)->0) is None
}

/// The elements of each block named `kind` of the node at position
/// `block`, see `element_children`.
fn block_elements(ns: &Vec<XmlNode>, kids: &Vec<usize>, at: Option<usize>) -> (r: Option<Vec<Element>>)
    requires
        forall|k: int| 0 <= k < kids@.len() ==> #[trigger] kids@[k] < ns@.len(),
        at matches Some(i) ==> i < kids@.len(),
    ensures
        views_of(r) == match at {
            Some(i) => Some(element_children(ns@.map_values(|n: XmlNode| node_view(n)), ns@[kids@[i as int] as int].id)),
            None => None,
        },
{
    match at {
        Some(i) => {
            let ghost v = ns@.map_values(|n: XmlNode| node_view(n));
            let ps = child_positions(ns, ns[kids[i]].id, true);
            proof {
                lemma_children_in(v, ns@[kids@[i as int] as int].id, true);
                assert forall|k: int| 0 <= k < ps@.len() implies #[trigger] ps@[k] < ns@.len() by {
                    assert(ps@.map_values(|j: usize| j as int)[k] == ps@[k] as int);
                }
            }
            let es = elements_at(ns, &ps);
            Some(es)
        },
        None => None,
    }
}

/// Reads the topology text: parses it, takes the first node under the
/// document as the root element, finds the blocks among the root's element
/// children with `experiment_blocks`, and gives the element children of
/// each block.  `Malformed` when the text is unreadable, else the error
/// `experiment_blocks` gives, if any.
pub fn read_topology(text: &str) -> (r: Result<Topology, TopologyError>)
    ensures
        unreadable(text@) <==> r == Err::<Topology, TopologyError>(TopologyError::Malformed),
        !unreadable(text@) ==> {
            let ns = xml_nodes(text@)->0;
            let root = root_position(ns)->0;
            let kids = element_children(ns, ns[root].0);
            &&& r matches Err(x) ==> experiment_of_view(plain_element(ns[root]), kids) == Err::<Blocks, TopologyError>(x)
            &&& r matches Ok(t) ==> {
                &&& experiment_of_view(plain_element(ns[root]), kids) == Ok::<Blocks, TopologyError>(t.blocks)
                &&& elem_view(t.root) == plain_element(ns[root])
                &&& views_of(t.config) == block_children(ns, root, t.blocks.config)
                &&& views_of(t.services) == block_children(ns, root, t.blocks.services)
                &&& views_of(t.bridges) == block_children(ns, root, t.blocks.bridges)
                &&& views_of(t.links) == block_children(ns, root, t.blocks.links)
                &&& views_of(t.dynamic) == block_children(ns, root, t.blocks.dynamic)
            }
        },
{
    let ns = match parse_xml(text) {
        Some(ns) => ns,
        None => {
            return Err(TopologyError::Malformed);
        },
    };
    let ghost v = ns@.map_values(|n: XmlNode| node_view(n));
    if ns.len() == 0 {
        return Err(TopologyError::Malformed);
    }
    let tops = child_positions(&ns, ns[0].id, false);
    if tops.len() == 0 {
        return Err(TopologyError::Malformed);
    }
    proof {
        lemma_children_in(v, v[0].0, false);
        assert(tops@.map_values(|j: usize| j as int)[0] == tops@[0] as int);
        assert(root_position(v) == Some(tops@[0] as int));
    }
    let root_at = tops[0];
    let root = element_of(&ns[root_at]);
    let kids = child_positions(&ns, ns[root_at].id, true);
    proof {
        lemma_children_in(v, ns@[root_at as int].id, true);
        assert forall|k: int| 0 <= k < kids@.len() implies #[trigger] kids@[k] < ns@.len() by {
            assert(kids@.map_values(|j: usize| j as int)[k] == kids@[k] as int);
        }
    }
    let children = elements_at(&ns, &kids);
    proof {
        lemma_experiment_view(root, children@);
        assert(children@.map_values(|e: Element| elem_view(e)) =~= element_children(v, v[root_at as int].0));
    }
    let blocks = match experiment_blocks(&root, &children) {
        Ok(b) => b,
        Err(x) => {
            proof {
                crate::rules::lemma_experiment_refusal(root, children@);
            }
            return Err(x);
        },
    };
    proof {
        crate::rules::lemma_blocks_in(root, children@, blocks);
    }
    let config = block_elements(&ns, &kids, blocks.config);
    let services = block_elements(&ns, &kids, blocks.services);
    let bridges = block_elements(&ns, &kids, blocks.bridges);
    let links = block_elements(&ns, &kids, blocks.links);
    let dynamic = block_elements(&ns, &kids, blocks.dynamic);
    proof {
        assert forall|i: usize| i < kids@.len() implies ns@[kids@[i as int] as int].id == v[children_at(
            v,
            v[root_at as int].0,
            true,
        )[i as int]].0 by {
            assert(kids@.map_values(|j: usize| j as int)[i as int] == kids@[i as int] as int);
        }
    }
    Ok(Topology { root, blocks, config, services, bridges, links, dynamic })
}

} // verus!
