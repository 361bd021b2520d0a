//! The document: an arena of node records, its identity map, and the
//! mutation protocol that keeps the two consistent.
use vstd::prelude::*;
use std::collections::HashMap;
use crate::node::{Node, NodeType};
use crate::options::XmlError;

verus! {

broadcast use vstd::std_specs::hash::group_hash_axioms;

/// One attribute: a name and its value.
pub struct Attr {
    pub name: String,
    pub value: String,
}

/// The record that the arena holds for one node.
pub struct NodeData {
    pub kind: NodeType,
    pub name: String,
    /// Text of a text, CDATA or comment node; empty for an element.
    pub content: String,
    pub attrs: Vec<Attr>,
    pub parent: Option<usize>,
    pub children: Vec<usize>,
    /// Unlinked from the tree by `unlink`: the wrapper alone answers for it.
    pub detached: bool,
}

/// The handle of the document node itself, the parent of the root element.
pub const DOCUMENT_HANDLE: usize = 0;

/// A document tree: an arena of nodes addressed by handle, the identity map
/// from handle to canonical wrapper, and the parser's diagnostics.
pub struct Document {
    nodes: Vec<NodeData>,
    node_map: HashMap<usize, Node>,
    errors: Vec<XmlError>,
}

/// The name/value pairs of an attribute list.
pub open spec fn attr_pairs(a: Seq<Attr>) -> Seq<(Seq<char>, Seq<char>)> {
    a.map_values(|x: Attr| (x.name@, x.value@))
}

/// Some attribute of the list is called `name`.
pub open spec fn has_attr(a: Seq<(Seq<char>, Seq<char>)>, name: Seq<char>) -> bool {
    exists|i: int| 0 <= i < a.len() && #[trigger] a[i].0 == name
}

/// The value of the attribute called `name`, if any. Names in a node's
/// list are distinct, so there is at most one.
pub open spec fn attr_value(a: Seq<(Seq<char>, Seq<char>)>, name: Seq<char>) -> Option<Seq<char>> {
    if has_attr(a, name) {
        Some(a[choose|i: int| 0 <= i < a.len() && #[trigger] a[i].0 == name].1)
    } else {
        None
    }
}

/// The names of an attribute list, in order.
pub open spec fn attr_names(a: Seq<(Seq<char>, Seq<char>)>) -> Seq<Seq<char>> {
    a.map_values(|p: (Seq<char>, Seq<char>)| p.0)
}

impl Document {
    /// Number of handles the arena has given out.
    pub closed spec fn size(&self) -> nat {
        self.nodes@.len()
    }

    /// The record of handle `h`.
    pub closed spec fn rec(&self, h: int) -> NodeData {
        self.nodes@[h]
    }

    /// The identity map: the canonical wrapper of each registered handle.
    pub closed spec fn identity(&self) -> Map<usize, Node> {
        self.node_map@
    }

    /// The diagnostics the parser reported for this document.
    pub closed spec fn diagnostics(&self) -> Seq<XmlError> {
        self.errors@
    }

    pub open spec fn contains(&self, h: int) -> bool {
        0 <= h < self.size()
    }

    pub open spec fn kind(&self, h: int) -> NodeType {
        self.rec(h).kind
    }

    pub open spec fn name(&self, h: int) -> Seq<char> {
        self.rec(h).name@
    }

    pub open spec fn text(&self, h: int) -> Seq<char> {
        self.rec(h).content@
    }

    pub open spec fn attrs(&self, h: int) -> Seq<(Seq<char>, Seq<char>)> {
        attr_pairs(self.rec(h).attrs@)
    }

    pub open spec fn parent(&self, h: int) -> Option<usize> {
        self.rec(h).parent
    }

    pub open spec fn children(&self, h: int) -> Seq<usize> {
        self.rec(h).children@
    }

    pub open spec fn detached(&self, h: int) -> bool {
        self.rec(h).detached
    }

    /// The links around handle `h` agree with each other.
    pub open spec fn links_ok(&self, h: int) -> bool {
        &&& forall|i: int|
            0 <= i < self.children(h).len() ==> {
                &&& self.contains(#[trigger] self.children(h)[i] as int)
                &&& self.parent(self.children(h)[i] as int) == Some(h as usize)
            }
        &&& self.children(h).no_duplicates()
        &&& match self.parent(h) {
            Some(p) => self.contains(p as int) && p != h && self.children(p as int).contains(
                h as usize,
            ),
            None => true,
        }
        &&& self.detached(h) ==> self.parent(h).is_none() && !self.identity().contains_key(
            h as usize,
        )
        &&& attr_names(self.attrs(h)).no_duplicates()
        &&& h != 0 ==> self.kind(h) != NodeType::DocumentNode
    }

    /// Well-formedness: the document node sits at `DOCUMENT_HANDLE`, every
    /// link names a node of the arena and agrees with its reverse link, and
    /// the identity map holds, for each registered handle, the wrapper of
    /// that handle.
    pub open spec fn wf(&self) -> bool {
        &&& 1 <= self.size() < usize::MAX
        &&& self.kind(0) == NodeType::DocumentNode
        &&& self.parent(0).is_none()
        &&& !self.detached(0)
        &&& forall|h: int| 0 <= h < self.size() ==> #[trigger] self.links_ok(h)
        &&& forall|k: usize| #[trigger]
            self.identity().contains_key(k) ==> self.contains(k as int) && self.identity()[k]@
                == k
    }

    /// The first element among the handles `s`.
    pub open spec fn first_element(&self, s: Seq<usize>) -> Option<usize>
        decreases s.len(),
    {
        if s.len() == 0 {
            None
        } else if self.kind(s[0] as int) == NodeType::ElementNode {
            Some(s[0])
        } else {
            self.first_element(s.drop_first())
        }
    }

    /// The root element: the first element child of the document node.
    pub open spec fn root(&self) -> Option<usize> {
        self.first_element(self.children(0))
    }

    /// The element handles among `s`, in order.
    pub open spec fn elements_of(&self, s: Seq<usize>) -> Seq<usize>
        decreases s.len(),
    {
        if s.len() == 0 {
            s
        } else {
            let r = self.elements_of(s.drop_last());
            if self.kind(s.last() as int) == NodeType::ElementNode {
                r.push(s.last())
            } else {
                r
            }
        }
    }

    /// The handle after `h` among its parent's children, if any.
    pub open spec fn next_sibling(&self, h: int) -> Option<usize> {
        match self.parent(h) {
            Some(p) => {
                let s = self.children(p as int);
                let i = s.index_of(h as usize);
                if i + 1 < s.len() {
                    Some(s[i + 1])
                } else {
                    None
                }
            },
            None => None,
        }
    }

    /// `self` is `prior` with the handles `hs` registered in the identity
    /// map, and nothing else changed.
    pub open spec fn registered(&self, prior: &Document, hs: Set<usize>) -> bool {
        &&& self.wf()
        &&& self.same_tree(prior)
        &&& self.diagnostics() == prior.diagnostics()
        &&& self.identity().dom() == prior.identity().dom().union(hs)
    }

    /// Both documents hold the same records.
    pub open spec fn same_tree(&self, other: &Document) -> bool {
        &&& self.size() == other.size()
        &&& forall|h: int| 0 <= h < self.size() ==> #[trigger] self.rec(h) == other.rec(h)
    }

    /// An empty document: the document node and nothing else.
    pub fn new() -> (r: Result<Document, ()>)
        ensures
            r is Ok,
            r matches Ok(d) ==> {
                &&& d.wf()
                &&& d.size() == 1
                &&& d.children(0).len() == 0
                &&& d.identity().is_empty()
                &&& d.diagnostics().len() == 0
            },
    {
        let doc_node = NodeData {
            kind: NodeType::DocumentNode,
            name: String::new(),
            content: String::new(),
            attrs: Vec::new(),
            parent: None,
            children: Vec::new(),
            detached: false,
        };
        let mut nodes: Vec<NodeData> = Vec::new();
        nodes.push(doc_node);
        let d = Document { nodes, node_map: HashMap::new(), errors: Vec::new() };
        assert(d.identity() =~= Map::empty());
        Ok(d)
    }

    /// The outcome of a parse: the document built from the parser's tree,
    /// with an empty identity map and the diagnostics kept beside it, or,
    /// where the parser gave no tree, the diagnostics as the error.
    pub fn handle_result(built: Option<Document>, errors: Vec<XmlError>) -> (r: Result<
        Document,
        Vec<XmlError>,
    >)
        ensures
            built is None ==> r == Err::<Document, Vec<XmlError>>(errors),
            built matches Some(d) ==> (r matches Ok(x) && x.same_tree(&d) && x.identity().is_empty()
                && x.diagnostics() == errors@ && (d.wf() ==> x.wf())),
    {
        match built {
            None => Err(errors),
            Some(d) => {
                let ghost d0 = d;
                let Document { nodes, node_map: _, errors: _ } = d;
                let x = Document { nodes, node_map: HashMap::new(), errors };
                proof {
                    assert(x.identity() =~= Map::empty());
                    if d0.wf() {
                        assert forall|h: int| 0 <= h < x.size() implies #[trigger] x.links_ok(h) by {
                            assert(d0.links_ok(h));
                        }
                        assert(d0.links_ok(0));
                    }
                }
                Ok(x)
            },
        }
    }

    /// The handle of the document node, the parent of the root element.
    pub fn doc_ptr(&self) -> (r: usize)
        requires
            self.wf(),
        ensures
            r == DOCUMENT_HANDLE,
            self.kind(r as int) == NodeType::DocumentNode,
            self.parent(r as int).is_none(),
    {
        DOCUMENT_HANDLE
    }

    /// The diagnostics kept from the parse, in the order they were reported.
    pub fn get_errors(&self) -> (r: &Vec<XmlError>)
        ensures
            r@ == self.diagnostics(),
    {
        &self.errors
    }

    /// The number of diagnostics kept from the parse.
    pub fn diagnostic_count(&self) -> (r: usize)
        ensures
            r == self.diagnostics().len(),
    {
        self.errors.len()
    }

    /// Records `node` as the canonical wrapper of `node_ptr`.
    pub fn insert_node(&mut self, node_ptr: usize, node: Node)
        requires
            old(self).wf(),
            old(self).contains(node_ptr as int),
            !old(self).detached(node_ptr as int),
            node@ == node_ptr,
        ensures
            final(self).wf(),
            final(self).same_tree(old(self)),
            final(self).identity() == old(self).identity().insert(node_ptr, node),
            final(self).diagnostics() == old(self).diagnostics(),
    {
        self.node_map.insert(node_ptr, node);
        proof {

            assert forall|h: int| 0 <= h < self.size() implies #[trigger] self.links_ok(h) by {
                assert(old(self).links_ok(h));
            }
            assert forall|k: usize| #[trigger]
                self.identity().contains_key(k) implies self.contains(k as int)
                && self.identity()[k]@ == k by {
                if k != node_ptr {
                    assert(old(self).identity().contains_key(k));
                }
            }
        }
    }

    /// The registered wrapper of `node_ptr`, if there is one.
    pub fn lookup(&self, node_ptr: usize) -> (r: Option<Node>)
        ensures
            r == (if self.identity().contains_key(node_ptr) {
                Some(self.identity()[node_ptr])
            } else {
                None
            }),
    {
        match self.node_map.get(&node_ptr) {
            Some(n) => Some(*n),
            None => None,
        }
    }

    /// The canonical wrapper of `h`: the registered one, or a new one that is
    /// registered first.
    fn resolve(&mut self, h: usize) -> (r: Node)
        requires
            old(self).wf(),
            old(self).contains(h as int),
            !old(self).detached(h as int),
        ensures
            final(self).wf(),
            final(self).same_tree(old(self)),
            final(self).diagnostics() == old(self).diagnostics(),
            r@ == h,
            final(self).identity() == old(self).identity().insert(h, r),
            old(self).identity().contains_key(h) ==> r == old(self).identity()[h],
            final(self).registered(old(self), set![h]),
    {
        let n = match self.lookup(h) {
            Some(n) => {
                proof {
                    assert(self.identity().insert(h, n) =~= self.identity());
                }
                n
            },
            None => {
                let n = Node::wrap(h);
                self.insert_node(h, n);
                n
            },
        };
        proof {
            assert(self.identity().dom() =~= old(self).identity().dom().union(set![h]));
        }
        n
    }
}


impl Document {
    /// The number of handles given out.
    pub(crate) fn nodes_len(&self) -> (r: usize)
        ensures
            r == self.size(),
    {
        self.nodes.len()
    }

    /// The record of handle `h`.
    pub(crate) fn rec_ref(&self, h: usize) -> (r: &NodeData)
        requires
            self.contains(h as int),
        ensures
            *r == self.rec(h as int),
    {
        &self.nodes[h]
    }

    /// Registers each of `hs` and returns their canonical wrappers in order.
    fn resolve_all(&mut self, hs: &Vec<usize>) -> (r: Vec<Node>)
        requires
            old(self).wf(),
            forall|i: int|
                0 <= i < hs@.len() ==> old(self).contains(#[trigger] hs@[i] as int) && !old(self).detached(hs@[i] as int),
        ensures
            final(self).registered(old(self), hs@.to_set()),
            r@.len() == hs@.len(),
            forall|i: int| 0 <= i < hs@.len() ==> #[trigger] r@[i]@ == hs@[i],
            forall|i: int|
                0 <= i < hs@.len() ==> final(self).identity().contains_key(hs@[i]) && #[trigger] r@[i]
                    == final(self).identity()[hs@[i]],
    {
        let mut out: Vec<Node> = Vec::new();
        let mut i: usize = 0;
        proof {
            assert(hs@.subrange(0, 0).to_set() =~= Set::empty());
            assert(self.identity().dom().union(Set::empty()) =~= self.identity().dom());
        }
        while i < hs.len()
            invariant
                0 <= i <= hs@.len(),
                self.registered(old(self), hs@.subrange(0, i as int).to_set()),
                forall|j: int|
                    0 <= j < hs@.len() ==> old(self).contains(#[trigger] hs@[j] as int) && !old(self).detached(hs@[j] as int),
                out@.len() == i,
                forall|j: int|
                    0 <= j < i ==> #[trigger] out@[j]@ == hs@[j] && self.identity().contains_key(hs@[j])
                        && out@[j] == self.identity()[hs@[j]],
            decreases hs@.len() - i,
        {
            let ghost prev = *self;
            let n = self.resolve(hs[i]);
            proof {
                assert(hs@.subrange(0, i + 1).to_set() =~= hs@.subrange(0, i as int).to_set().insert(
                    hs@[i as int],
                )) by {
                    assert(hs@.subrange(0, i + 1) =~= hs@.subrange(0, i as int).push(hs@[i as int]));
                    hs@.subrange(0, i as int).lemma_push_to_set_commute(hs@[i as int]);
                }
                assert(self.identity().dom() =~= old(self).identity().dom().union(
                    hs@.subrange(0, i + 1).to_set(),
                ));
                assert forall|j: int| 0 <= j < i implies #[trigger] out@[j] == self.identity()[hs@[j]] by {
                    assert(hs@.subrange(0, i as int)[j] == hs@[j]);
                    assert(hs@.subrange(0, i as int).to_set().contains(hs@[j]));
                    assert(prev.identity().contains_key(hs@[j]));
                    crate::node::lemma_node_identity(out@[j], self.identity()[hs@[j]]);
                }
            }
            out.push(n);
            i = i + 1;
        }
        proof {
            assert(hs@.subrange(0, hs@.len() as int) =~= hs@);
            assert forall|j: int| 0 <= j < hs@.len() implies self.identity().contains_key(hs@[j])
                && #[trigger] out@[j] == self.identity()[hs@[j]] by {
                assert(out@[j]@ == hs@[j]);
            }
        }
        out
    }

    /// The handle of the root element, if any.
    fn root_handle(&self) -> (r: Option<usize>)
        requires
            self.wf(),
        ensures
            r == self.root(),
            r matches Some(c) ==> self.contains(c as int) && self.parent(c as int) == Some(0usize)
                && self.kind(c as int) == NodeType::ElementNode,
    {
        let kids = &self.nodes[0].children;
        let mut i: usize = 0;
        let ghost s = self.children(0);
        let mut found: Option<usize> = None;
        proof {
            assert(s.subrange(0, s.len() as int) =~= s);
        }
        while i < kids.len()
            invariant
                0 <= i <= s.len(),
                kids@ == s,
                self.wf(),
                s == self.children(0),
                found is None ==> self.first_element(s) == self.first_element(
                    s.subrange(i as int, s.len() as int),
                ),
                found is Some ==> i == s.len(),
                found matches Some(c) ==> self.first_element(s) == Some(c) && self.contains(c as int)
                    && self.parent(c as int) == Some(0usize) && self.kind(c as int) == NodeType::ElementNode,
            decreases s.len() - i,
        {
            let c = kids[i];
            proof {
                assert(self.links_ok(0));
                assert(s.subrange(i as int, s.len() as int)[0] == c);
                assert(s.subrange(i as int, s.len() as int).drop_first() =~= s.subrange(
                    i + 1,
                    s.len() as int,
                ));
            }
            if self.nodes[c].kind == NodeType::ElementNode {
                proof {
                    assert(self.first_element(s.subrange(i as int, s.len() as int)) == Some(c));
                    assert(self.parent(s[i as int] as int) == Some(0usize));
                }
                found = Some(c);
                i = kids.len();
            } else {
                i = i + 1;
            }
        }
        proof {
            assert(found is None ==> s.subrange(i as int, s.len() as int).len() == 0);
        }
        found
    }

    /// The canonical wrapper of the root element, or `None` for a document
    /// with no element under the document node.
    pub fn get_root_element(&mut self) -> (r: Option<Node>)
        requires
            old(self).wf(),
        ensures
            r matches Some(n) ==> old(self).root() == Some(n@) && final(self).registered(
                old(self),
                set![n@],
            ) && final(self).identity()[n@] == n,
            r is None ==> old(self).root() is None && *final(self) == *old(self),
    {
        match self.root_handle() {
            Some(c) => {
                proof {
                    assert(self.links_ok(c as int));
                }
                let n = self.resolve(c);
                Some(n)
            },
            None => None,
        }
    }
}


/// A copy of a handle list.
fn copy_handles(v: &Vec<usize>) -> (r: Vec<usize>)
    ensures
        r@ == v@,
{
    let mut out: Vec<usize> = Vec::new();
    let mut i: usize = 0;
    while i < v.len()
        invariant
            0 <= i <= v@.len(),
            out@ == v@.subrange(0, i as int),
        decreases v@.len() - i,
    {
        out.push(v[i]);
        i = i + 1;
        proof {
            assert(out@ =~= v@.subrange(0, i as int));
        }
    }
    proof {
        assert(out@ =~= v@);
    }
    out
}

/// Whether the node kind carries its own text.
pub open spec fn holds_text(k: NodeType) -> bool {
    k == NodeType::TextNode || k == NodeType::CDataSectionNode || k == NodeType::CommentNode
        || k == NodeType::PiNode
}

/// Whether the node kind gathers the text of its descendants.
pub open spec fn gathers_text(k: NodeType) -> bool {
    k == NodeType::ElementNode || k == NodeType::DocumentNode || k == NodeType::DocumentFragNode
        || k == NodeType::EntityRefNode
}

impl Document {
    /// The text content of `h`, looking at most `fuel` levels down: its own
    /// text for a text-like node; the text of its descendants, in document
    /// order, for an element or a document.
    pub open spec fn content_of(&self, h: int, fuel: nat) -> Seq<char>
        decreases fuel, 0nat,
    {
        if fuel == 0 {
            Seq::empty()
        } else if holds_text(self.kind(h)) {
            self.text(h)
        } else if gathers_text(self.kind(h)) {
            self.content_of_all(self.children(h), (fuel - 1) as nat)
        } else {
            Seq::empty()
        }
    }

    /// The text content of the handles `s`, one after another; comments
    /// and processing instructions among them add nothing.
    pub open spec fn content_of_all(&self, s: Seq<usize>, fuel: nat) -> Seq<char>
        decreases fuel, s.len(),
    {
        if s.len() == 0 {
            Seq::empty()
        } else if self.kind(s.last() as int) == NodeType::CommentNode || self.kind(s.last() as int)
            == NodeType::PiNode {
            self.content_of_all(s.drop_last(), fuel)
        } else {
            self.content_of_all(s.drop_last(), fuel) + self.content_of(s.last() as int, fuel)
        }
    }

    /// The text content of `h`; depth is bounded by the arena size, which a
    /// tree never reaches.
    pub open spec fn content(&self, h: int) -> Seq<char> {
        self.content_of(h, self.size())
    }

    fn content_rec(&self, h: usize, fuel: usize) -> (r: String)
        requires
            self.wf(),
            self.contains(h as int),
        ensures
            r@ == self.content_of(h as int, fuel as nat),
        decreases fuel, 0nat,
    {
        if fuel == 0 {
            return String::new();
        }
        let d = &self.nodes[h];
        if d.kind == NodeType::TextNode || d.kind == NodeType::CDataSectionNode || d.kind
            == NodeType::CommentNode || d.kind == NodeType::PiNode {
            d.content.clone()
        } else if d.kind == NodeType::ElementNode || d.kind == NodeType::DocumentNode || d.kind
            == NodeType::DocumentFragNode || d.kind == NodeType::EntityRefNode {
            proof {
                assert(self.links_ok(h as int));
                assert(d.children@.subrange(0, d.children@.len() as int) =~= d.children@);
            }
            self.content_all(&d.children, d.children.len(), fuel - 1)
        } else {
            String::new()
        }
    }

    fn content_all(&self, s: &Vec<usize>, n: usize, fuel: usize) -> (r: String)
        requires
            self.wf(),
            n <= s@.len(),
            forall|i: int| 0 <= i < s@.len() ==> self.contains(#[trigger] s@[i] as int),
        ensures
            r@ == self.content_of_all(s@.subrange(0, n as int), fuel as nat),
        decreases fuel, n,
    {
        if n == 0 {
            return String::new();
        }
        let mut front = self.content_all(s, n - 1, fuel);
        proof {
            assert(s@.subrange(0, n as int).drop_last() =~= s@.subrange(0, n - 1));
        }
        let k = self.nodes[s[n - 1]].kind;
        if k == NodeType::CommentNode || k == NodeType::PiNode {
            return front;
        }
        let back = self.content_rec(s[n - 1], fuel);
        front.append(back.as_str());
        front
    }
}

impl Node {
    /// The canonical wrappers of this node's children, in order.
    pub fn get_child_nodes(&self, doc: &mut Document) -> (r: Vec<Node>)
        requires
            old(doc).wf(),
            old(doc).contains(self@ as int),
        ensures
            final(doc).registered(old(doc), old(doc).children(self@ as int).to_set()),
            r@.len() == old(doc).children(self@ as int).len(),
            forall|i: int|
                0 <= i < r@.len() ==> #[trigger] r@[i]@ == old(doc).children(self@ as int)[i]
                    && r@[i] == final(doc).identity()[r@[i]@],
    {
        let kids = copy_handles(&doc.nodes[self.node_ptr()].children);
        proof {
            assert(doc.links_ok(self@ as int));
            assert forall|i: int| 0 <= i < kids@.len() implies doc.contains(#[trigger] kids@[i] as int)
                && !doc.detached(kids@[i] as int) by {
                assert(doc.links_ok(kids@[i] as int));
            }
        }
        doc.resolve_all(&kids)
    }

    /// The canonical wrappers of this node's element children, in order.
    pub fn get_child_elements(&self, doc: &mut Document) -> (r: Vec<Node>)
        requires
            old(doc).wf(),
            old(doc).contains(self@ as int),
        ensures
            final(doc).registered(
                old(doc),
                old(doc).elements_of(old(doc).children(self@ as int)).to_set(),
            ),
            r@.len() == old(doc).elements_of(old(doc).children(self@ as int)).len(),
            forall|i: int|
                0 <= i < r@.len() ==> #[trigger] r@[i]@ == old(doc).elements_of(
                    old(doc).children(self@ as int),
                )[i] && r@[i] == final(doc).identity()[r@[i]@],
    {
        let kids = &doc.nodes[self.node_ptr()].children;
        let ghost s = doc.children(self@ as int);
        proof {
            assert(doc.links_ok(self@ as int));
        }
        let mut elems: Vec<usize> = Vec::new();
        let mut i: usize = 0;
        while i < kids.len()
            invariant
                0 <= i <= s.len(),
                kids@ == s,
                doc.wf(),
                s == doc.children(self@ as int),
                elems@ == doc.elements_of(s.subrange(0, i as int)),
                doc.links_ok(self@ as int),
                forall|j: int|
                    0 <= j < elems@.len() ==> doc.contains(#[trigger] elems@[j] as int) && doc.parent(
                        elems@[j] as int,
                    ) == Some(self@),
            decreases s.len() - i,
        {
            let c = kids[i];
            proof {
                assert(s.subrange(0, i + 1).drop_last() =~= s.subrange(0, i as int));
                assert(s.subrange(0, i + 1).last() == c);
                assert(s[i as int] == c);
                assert(doc.contains(c as int));
                assert(doc.parent(c as int) == Some(self@));
            }
            if doc.nodes[c].kind == NodeType::ElementNode {
                elems.push(c);
            }
            i = i + 1;
        }
        proof {
            assert(s.subrange(0, s.len() as int) =~= s);
            assert forall|j: int| 0 <= j < elems@.len() implies doc.contains(#[trigger] elems@[j] as int)
                && !doc.detached(elems@[j] as int) by {
                assert(doc.links_ok(elems@[j] as int));
            }
        }
        doc.resolve_all(&elems)
    }

    /// The canonical wrapper of the first child, if any.
    pub fn get_first_child(&self, doc: &mut Document) -> (r: Option<Node>)
        requires
            old(doc).wf(),
            old(doc).contains(self@ as int),
        ensures
            old(doc).children(self@ as int).len() == 0 ==> r is None && *final(doc) == *old(doc),
            old(doc).children(self@ as int).len() > 0 ==> (r matches Some(n) && n@ == old(doc).children(
                self@ as int,
            )[0] && final(doc).registered(old(doc), set![n@]) && final(doc).identity()[n@] == n),
    {
        let h = self.node_ptr();
        if doc.nodes[h].children.len() == 0 {
            None
        } else {
            let c = doc.nodes[h].children[0];
            proof {
                assert(doc.links_ok(h as int));
                assert(doc.links_ok(c as int));
            }
            Some(doc.resolve(c))
        }
    }

    /// The canonical wrapper of the last child, if any.
    pub fn get_last_child(&self, doc: &mut Document) -> (r: Option<Node>)
        requires
            old(doc).wf(),
            old(doc).contains(self@ as int),
        ensures
            old(doc).children(self@ as int).len() == 0 ==> r is None && *final(doc) == *old(doc),
            old(doc).children(self@ as int).len() > 0 ==> (r matches Some(n) && n@ == old(doc).children(
                self@ as int,
            ).last() && final(doc).registered(old(doc), set![n@]) && final(doc).identity()[n@] == n),
    {
        let h = self.node_ptr();
        let len = doc.nodes[h].children.len();
        if len == 0 {
            None
        } else {
            let c = doc.nodes[h].children[len - 1];
            proof {
                assert(doc.links_ok(h as int));
                assert(doc.links_ok(c as int));
            }
            Some(doc.resolve(c))
        }
    }

    /// The canonical wrapper of the next sibling, if any.
    pub fn get_next_sibling(&self, doc: &mut Document) -> (r: Option<Node>)
        requires
            old(doc).wf(),
            old(doc).contains(self@ as int),
        ensures
            old(doc).next_sibling(self@ as int) is None ==> r is None && *final(doc) == *old(doc),
            old(doc).next_sibling(self@ as int) matches Some(x) ==> (r matches Some(n) && n@ == x
                && final(doc).registered(old(doc), set![n@]) && final(doc).identity()[n@] == n),
    {
        let h = self.node_ptr();
        proof {
            assert(doc.links_ok(h as int));
        }
        match doc.nodes[h].parent {
            None => None,
            Some(p) => {
                let kids = &doc.nodes[p].children;
                let ghost s = doc.children(p as int);
                proof {
                    assert(doc.links_ok(p as int));
                    assert(s.contains(h));
                }
                let mut i: usize = 0;
                let len = kids.len();
                while kids[i] != h
                    invariant
                        0 <= i < s.len(),
                        len == s.len(),
                        kids@ == s,
                        s.contains(h),
                        forall|j: int| 0 <= j < i ==> s[j] != h,
                    decreases s.len() - i,
                {
                    i = i + 1;
                    proof {
                        if i == s.len() {
                            let k = choose|k: int| 0 <= k < s.len() && s[k] == h;
                            assert(false);
                        }
                    }
                }
                proof {
                    assert(s[s.index_of(h) as int] == h);
                    assert(s.index_of(h) == i);
                }
                if i < len - 1 {
                    let c = kids[i + 1];
                    proof {
                        assert(doc.links_ok(c as int));
                    }
                    Some(doc.resolve(c))
                } else {
                    None
                }
            },
        }
    }

    /// The kind of this node.
    pub fn get_type(&self, doc: &Document) -> (r: Option<NodeType>)
        requires
            doc.contains(self@ as int),
        ensures
            r == Some(doc.kind(self@ as int)),
    {
        Some(doc.nodes[self.node_ptr()].kind)
    }

    /// Whether this is a text node.
    pub fn is_text_node(&self, doc: &Document) -> (r: bool)
        requires
            doc.contains(self@ as int),
        ensures
            r == (doc.kind(self@ as int) == NodeType::TextNode),
    {
        match self.get_type(doc) {
            Some(NodeType::TextNode) => true,
            _ => false,
        }
    }

    /// The name of this node.
    pub fn get_name(&self, doc: &Document) -> (r: String)
        requires
            doc.contains(self@ as int),
        ensures
            r@ == doc.name(self@ as int),
    {
        doc.nodes[self.node_ptr()].name.clone()
    }

    /// The text content of this node: its own text for a text-like node, the
    /// text of all its descendants for an element, and empty otherwise.
    pub fn get_content(&self, doc: &Document) -> (r: String)
        requires
            doc.wf(),
            doc.contains(self@ as int),
        ensures
            r@ == doc.content(self@ as int),
    {
        doc.content_rec(self.node_ptr(), doc.nodes.len())
    }
}


impl Document {
    /// `a` is among the first `fuel` ancestors of `h`.
    pub open spec fn ancestor_within(&self, a: int, h: int, fuel: nat) -> bool
        decreases fuel,
    {
        if fuel == 0 {
            false
        } else {
            match self.parent(h) {
                Some(p) => p == a || self.ancestor_within(a, p as int, (fuel - 1) as nat),
                None => false,
            }
        }
    }

    /// `a` is an ancestor of `h`.
    pub open spec fn is_ancestor(&self, a: int, h: int) -> bool {
        self.ancestor_within(a, h, self.size())
    }

    /// The records other than those of `hs` are those of `prior`.
    pub open spec fn same_except(&self, prior: &Document, hs: Set<int>) -> bool {
        &&& self.size() == prior.size()
        &&& forall|h: int| 0 <= h < self.size() && !hs.contains(h) ==> #[trigger] self.rec(h) == prior.rec(h)
    }

    /// The record `h` has the kind, name, text and attributes it has in
    /// `prior`.
    pub open spec fn same_label(&self, prior: &Document, h: int) -> bool {
        &&& self.kind(h) == prior.kind(h)
        &&& self.rec(h).name == prior.rec(h).name
        &&& self.rec(h).content == prior.rec(h).content
        &&& self.rec(h).attrs == prior.rec(h).attrs
    }

    /// The record `h` differs from that of `prior` only in its parent.
    pub open spec fn reparented(&self, prior: &Document, h: int, p: Option<usize>) -> bool {
        &&& self.same_label(prior, h)
        &&& self.children(h) == prior.children(h)
        &&& self.parent(h) == p
    }

    fn is_ancestor_exec(&self, a: usize, h: usize) -> (r: bool)
        requires
            self.wf(),
            self.contains(h as int),
        ensures
            r == self.is_ancestor(a as int, h as int),
    {
        let mut cur = h;
        let mut fuel: usize = self.nodes.len();
        while fuel > 0
            invariant
                self.wf(),
                self.contains(cur as int),
                fuel <= self.size(),
                self.is_ancestor(a as int, h as int) == self.ancestor_within(a as int, cur as int, fuel as nat),
            decreases fuel,
        {
            proof {
                assert(self.links_ok(cur as int));
            }
            match self.nodes[cur].parent {
                None => return false,
                Some(p) => {
                    if p == a {
                        return true;
                    }
                    cur = p;
                },
            }
            fuel = fuel - 1;
        }
        false
    }

    /// Takes `c` out of its parent's child list; `c` keeps its subtree.
    fn detach(&mut self, c: usize)
        requires
            old(self).wf(),
            old(self).contains(c as int),
        ensures
            final(self).wf(),
            final(self).identity() == old(self).identity(),
            final(self).diagnostics() == old(self).diagnostics(),
            final(self).parent(c as int).is_none(),
            final(self).reparented(old(self), c as int, None),
            final(self).detached(c as int) == old(self).detached(c as int),
            match old(self).parent(c as int) {
                Some(p) => {
                    &&& final(self).same_except(old(self), set![c as int, p as int])
                    &&& final(self).children(p as int) == old(self).children(p as int).remove(
                        old(self).children(p as int).index_of(c),
                    )
                    &&& final(self).same_label(old(self), p as int)
                    &&& final(self).parent(p as int) == old(self).parent(p as int)
                    &&& final(self).detached(p as int) == old(self).detached(p as int)
                },
                None => *final(self) == *old(self),
            },
    {
        proof {
            assert(self.links_ok(c as int));
        }
        match self.nodes[c].parent {
            None => {},
            Some(p) => {
                let ghost s = self.children(p as int);
                proof {
                    assert(self.links_ok(p as int));
                }
                let len = self.nodes[p].children.len();
                let mut i: usize = 0;
                while self.nodes[p].children[i] != c
                    invariant
                        0 <= i < s.len(),
                        len == s.len(),
                        self.contains(p as int),
                        s == self.children(p as int),
                        s.contains(c),
                        forall|j: int| 0 <= j < i ==> s[j] != c,
                    decreases s.len() - i,
                {
                    i = i + 1;
                    proof {
                        if i == s.len() {
                            let k = choose|k: int| 0 <= k < s.len() && s[k] == c;
                            assert(false);
                        }
                    }
                }
                proof {
                    assert(s[s.index_of(c) as int] == c);
                    assert(s.index_of(c) == i);
                }
                let ghost prior = *self;
                self.nodes[p].children.remove(i);
                self.nodes[c].parent = None;
                proof {
                    let t = self.children(p as int);
                    assert(t == s.remove(i as int));
                    assert forall|h: int| 0 <= h < self.size() implies #[trigger] self.links_ok(h) by {
                        assert(prior.links_ok(h));
                        if h == p as int {
                            assert forall|k: int| 0 <= k < t.len() implies self.contains(#[trigger] t[k] as int)
                                && self.parent(t[k] as int) == Some(h as usize) by {
                                if k < i {
                                    assert(t[k] == s[k]);
                                } else {
                                    assert(t[k] == s[k + 1]);
                                }
                            }
                            assert forall|a: int, b: int| 0 <= a < t.len() && 0 <= b < t.len() && a != b implies t[a] != t[b] by {
                                let a2 = if a < i { a } else { a + 1 };
                                let b2 = if b < i { b } else { b + 1 };
                                assert(t[a] == s[a2]);
                                assert(t[b] == s[b2]);
                            }
                        }
                        match self.parent(h) {
                            Some(q) => {
                                if q == p && h != c as int {
                                    let k = choose|k: int| 0 <= k < s.len() && s[k] == h as usize;
                                    assert(k != i);
                                    if k < i {
                                        assert(t[k] == h as usize);
                                    } else {
                                        assert(t[k - 1] == h as usize);
                                    }
                                }
                            },
                            None => {},
                        }
                        if h != p as int {
                            assert forall|k: int| 0 <= k < self.children(h).len() implies self.contains(
                                #[trigger] self.children(h)[k] as int,
                            ) && self.parent(self.children(h)[k] as int) == Some(h as usize) by {
                                assert(prior.children(h)[k] == self.children(h)[k]);
                                if self.children(h)[k] == c {
                                    assert(prior.parent(c as int) == Some(h as usize));
                                }
                            }
                        }
                    }
                    assert(prior.links_ok(0));
                    assert(self.kind(0) == NodeType::DocumentNode);
                    assert(self.parent(0).is_none());
                    assert(!self.detached(0));
                    assert(1 <= self.size() < usize::MAX);
                    assert(self.identity() == prior.identity());
                    assert(self.size() == prior.size());
                    assert forall|k: usize| #[trigger]
                        self.identity().contains_key(k) implies self.contains(k as int) && self.identity()[k]@
                            == k by {
                        assert(prior.identity().contains_key(k));
                    }
                }
            },
        }
    }
}


impl Document {
    /// Puts the parentless `c` at position `idx` of `p`'s child list and marks
    /// it linked.
    fn attach_at(&mut self, c: usize, p: usize, idx: usize)
        requires
            old(self).wf(),
            old(self).contains(c as int),
            old(self).contains(p as int),
            c != p,
            old(self).parent(c as int).is_none(),
            old(self).kind(c as int) != NodeType::DocumentNode,
            idx <= old(self).children(p as int).len(),
        ensures
            final(self).wf(),
            final(self).identity() == old(self).identity().remove(c),
            final(self).diagnostics() == old(self).diagnostics(),
            final(self).reparented(old(self), c as int, Some(p)),
            !final(self).detached(c as int),
            final(self).same_except(old(self), set![c as int, p as int]),
            final(self).children(p as int) == old(self).children(p as int).insert(idx as int, c),
            final(self).same_label(old(self), p as int),
            final(self).parent(p as int) == old(self).parent(p as int),
            final(self).detached(p as int) == old(self).detached(p as int),
    {
        let ghost prior = *self;
        let ghost s = self.children(p as int);
        proof {
            assert(self.links_ok(p as int));
            assert(self.links_ok(c as int));
            assert(!s.contains(c)) by {
                if s.contains(c) {
                    let k = choose|k: int| 0 <= k < s.len() && s[k] == c;
                    assert(self.parent(s[k] as int) == Some(p));
                }
            }
        }
        self.nodes[p].children.insert(idx, c);
        self.nodes[c].parent = Some(p);
        self.nodes[c].detached = false;
        self.node_map.remove(&c);
        proof {
            let t = self.children(p as int);
            assert(t == s.insert(idx as int, c));
            assert forall|h: int| 0 <= h < self.size() implies #[trigger] self.links_ok(h) by {
                assert(prior.links_ok(h));
                if h == p as int {
                    assert forall|k: int| 0 <= k < t.len() implies self.contains(#[trigger] t[k] as int)
                        && self.parent(t[k] as int) == Some(h as usize) by {
                        if k < idx {
                            assert(t[k] == s[k]);
                        } else if k > idx {
                            assert(t[k] == s[k - 1]);
                        }
                    }
                    assert forall|a: int, b: int| 0 <= a < t.len() && 0 <= b < t.len() && a != b implies t[a] != t[b] by {
                        if a != idx && b != idx {
                            let a2 = if a < idx { a } else { a - 1 };
                            let b2 = if b < idx { b } else { b - 1 };
                            assert(t[a] == s[a2]);
                            assert(t[b] == s[b2]);
                        } else if a == idx {
                            let b2 = if b < idx { b } else { b - 1 };
                            assert(t[b] == s[b2]);
                        } else {
                            let a2 = if a < idx { a } else { a - 1 };
                            assert(t[a] == s[a2]);
                        }
                    }
                }
                if h == c as int {
                    assert(t[idx as int] == c);
                }
                match self.parent(h) {
                    Some(q) => {
                        if q == p && h != c as int {
                            let k = choose|k: int| 0 <= k < s.len() && s[k] == h as usize;
                            if k < idx {
                                assert(t[k] == h as usize);
                            } else {
                                assert(t[k + 1] == h as usize);
                            }
                        }
                    },
                    None => {},
                }
            }
            assert(prior.links_ok(0));
            assert forall|k: usize| #[trigger]
                self.identity().contains_key(k) implies self.contains(k as int) && self.identity()[k]@
                    == k by {
                assert(prior.identity().contains_key(k));
            }
        }
    }
}

impl Node {
    /// Appends `child`, with its subtree, as the last child of this node,
    /// taking it from wherever it was linked. Fails, changing nothing, when
    /// `child` is this node, one of its ancestors, or a document node.
    pub fn add_child(&mut self, doc: &mut Document, child: &mut Node) -> (r: Result<Node, ()>)
        requires
            old(doc).wf(),
            old(doc).contains(old(self)@ as int),
            old(doc).contains(old(child)@ as int),
        ensures
            *final(self) == *old(self),
            *final(child) == *old(child),
            ({
                let (s, c) = (old(self)@ as int, old(child)@ as int);
                let failed = c == s || old(doc).kind(c) == NodeType::DocumentNode || old(doc).is_ancestor(c, s);
                &&& failed ==> r is Err && *final(doc) == *old(doc)
                &&& !failed ==> (r matches Ok(n) && {
                    &&& n == *old(child)
                    &&& final(doc).wf()
                    &&& final(doc).diagnostics() == old(doc).diagnostics()
                    &&& final(doc).identity() == old(doc).identity().insert(old(child)@, n)
                    &&& final(doc).reparented(old(doc), c, Some(old(self)@))
                    &&& !final(doc).detached(c)
                    &&& final(doc).children(s) == (if old(doc).parent(c) == Some(old(self)@) {
                        old(doc).children(s).remove(old(doc).children(s).index_of(old(child)@))
                    } else {
                        old(doc).children(s)
                    }).push(old(child)@)
                    &&& final(doc).same_label(old(doc), s)
                    &&& final(doc).parent(s) == old(doc).parent(s)
                    &&& match old(doc).parent(c) {
                        Some(p) => {
                            &&& p != s ==> final(doc).children(p as int) == old(doc).children(p as int).remove(
                                old(doc).children(p as int).index_of(old(child)@))
                            &&& final(doc).same_label(old(doc), p as int)
                            &&& final(doc).same_except(old(doc), set![c, s, p as int])
                        },
                        None => final(doc).same_except(old(doc), set![c, s]),
                    }
                })
            }),
    {
        let s = self.node_ptr();
        let c = child.node_ptr();
        if c == s || doc.nodes[c].kind == NodeType::DocumentNode || doc.is_ancestor_exec(c, s) {
            return Err(());
        }
        let ghost d0 = *doc;
        doc.detach(c);
        let ghost d1 = *doc;
        let len = doc.nodes[s].children.len();
        doc.attach_at(c, s, len);
        let ghost d2 = *doc;
        let n = doc.resolve(c);
        proof {
            assert(d1.children(s as int).insert(len as int, c) =~= d1.children(s as int).push(c));
            assert(doc.identity() =~= d0.identity().insert(c, n));
            crate::node::lemma_node_identity(n, *child);
            assert(doc.reparented(&d0, c as int, Some(s)));
            assert(doc.same_label(&d0, s as int));
            assert(doc.parent(s as int) == d0.parent(s as int));
            assert(doc.children(s as int) == (if d0.parent(c as int) == Some(s) {
                d0.children(s as int).remove(d0.children(s as int).index_of(c))
            } else {
                d0.children(s as int)
            }).push(c));
            match d0.parent(c as int) {
                Some(p) => {
                    assert(d0.links_ok(c as int));
                    assert(p != c);
                    if p != s {
                        assert(!set![c as int, s as int].contains(p as int));
                        assert(d2.rec(p as int) == d1.rec(p as int));
                        assert(doc.rec(p as int) == d2.rec(p as int));
                        assert(doc.children(p as int) == d0.children(p as int).remove(
                                d0.children(p as int).index_of(c)));
                    }
                    assert(doc.same_label(&d0, p as int));
                    assert(doc.same_except(&d0, set![c as int, s as int, p as int]));
                },
                None => {
                    assert(doc.same_except(&d0, set![c as int, s as int]));
                },
            }
        }
        Ok(n)
    }
}



/// In a list with distinct names, the attribute at `i` is the one its name
/// finds.
proof fn lemma_attr_at(a: Seq<(Seq<char>, Seq<char>)>, i: int)
    requires
        attr_names(a).no_duplicates(),
        0 <= i < a.len(),
    ensures
        attr_value(a, a[i].0) == Some(a[i].1),
{
    assert(attr_names(a)[i] == a[i].0);
    let j = choose|j: int| 0 <= j < a.len() && #[trigger] a[j].0 == a[i].0;
    assert(attr_names(a)[j] == a[j].0);
}

impl Document {
    /// Appends a new parentless record; its handle is the old size.
    fn push_node(&mut self, kind: NodeType, name: String, content: String) -> (h: usize)
        requires
            old(self).wf(),
            old(self).size() + 1 < usize::MAX,
            kind != NodeType::DocumentNode,
        ensures
            final(self).wf(),
            h == old(self).size(),
            final(self).size() == old(self).size() + 1,
            forall|k: int| 0 <= k < old(self).size() ==> #[trigger] final(self).rec(k) == old(self).rec(k),
            final(self).kind(h as int) == kind,
            final(self).name(h as int) == name@,
            final(self).text(h as int) == content@,
            final(self).attrs(h as int).len() == 0,
            final(self).parent(h as int).is_none(),
            final(self).children(h as int).len() == 0,
            !final(self).detached(h as int),
            final(self).identity() == old(self).identity(),
            final(self).diagnostics() == old(self).diagnostics(),
    {
        let ghost prior = *self;
        let h = self.nodes.len();
        self.nodes.push(NodeData {
            kind,
            name,
            content,
            attrs: Vec::new(),
            parent: None,
            children: Vec::new(),
            detached: false,
        });
        proof {
            assert forall|k: int| 0 <= k < self.size() implies #[trigger] self.links_ok(k) by {
                if k < h {
                    assert(prior.links_ok(k));
                    assert(self.rec(k) == prior.rec(k));
                } else {
                    assert(attr_names(self.attrs(k)) =~= Seq::empty());
                }
            }
            assert(prior.links_ok(0));
            assert forall|k: usize| #[trigger]
                self.identity().contains_key(k) implies self.contains(k as int) && self.identity()[k]@
                    == k by {
                assert(prior.identity().contains_key(k));
            }
        }
        h
    }
}

impl Node {
    /// A new element called `name`, owned by `doc` and registered in its
    /// identity map but linked nowhere until `add_child` or
    /// `set_root_element` places it. Fails only when the arena is full.
    pub fn new(name: &str, doc: &mut Document) -> (r: Result<Node, ()>)
        requires
            old(doc).wf(),
        ensures
            old(doc).size() + 1 >= usize::MAX ==> r is Err && *final(doc) == *old(doc),
            old(doc).size() + 1 < usize::MAX ==> (r matches Ok(n) && {
                &&& n@ == old(doc).size()
                &&& final(doc).wf()
                &&& final(doc).size() == old(doc).size() + 1
                &&& forall|k: int| 0 <= k < old(doc).size() ==> #[trigger] final(doc).rec(k) == old(doc).rec(k)
                &&& final(doc).kind(n@ as int) == NodeType::ElementNode
                &&& final(doc).name(n@ as int) == name@
                &&& final(doc).text(n@ as int).len() == 0
                &&& final(doc).attrs(n@ as int).len() == 0
                &&& final(doc).parent(n@ as int).is_none()
                &&& final(doc).children(n@ as int).len() == 0
                &&& !final(doc).detached(n@ as int)
                &&& final(doc).identity() == old(doc).identity().insert(n@, n)
                &&& final(doc).diagnostics() == old(doc).diagnostics()
            }),
    {
        if doc.nodes.len() >= usize::MAX - 1 {
            return Err(());
        }
        let h = doc.push_node(NodeType::ElementNode, name.to_owned(), String::new());
        let n = Node::wrap(h);
        doc.insert_node(h, n);
        Ok(n)
    }

    /// Unbinds this node, with its subtree, from its parent and siblings.
    /// Does nothing for a document or document-fragment node, or for one
    /// already unlinked. Afterwards the node is detached: no longer in the
    /// identity map, and answered for by its wrapper alone.
    pub fn unlink(&mut self, doc: &mut Document)
        requires
            old(doc).wf(),
            old(doc).contains(old(self)@ as int),
        ensures
            *final(self) == *old(self),
            ({
                let h = old(self)@ as int;
                let skip = old(doc).kind(h) == NodeType::DocumentNode || old(doc).kind(h)
                    == NodeType::DocumentFragNode || old(doc).detached(h);
                &&& skip ==> *final(doc) == *old(doc)
                &&& !skip ==> {
                    &&& final(doc).wf()
                    &&& final(doc).detached(h)
                    &&& final(doc).reparented(old(doc), h, None)
                    &&& final(doc).identity() == old(doc).identity().remove(h as usize)
                    &&& final(doc).diagnostics() == old(doc).diagnostics()
                    &&& match old(doc).parent(h) {
                        Some(p) => {
                            &&& final(doc).children(p as int) == old(doc).children(p as int).remove(
                                old(doc).children(p as int).index_of(h as usize))
                            &&& final(doc).same_label(old(doc), p as int)
                            &&& final(doc).parent(p as int) == old(doc).parent(p as int)
                            &&& final(doc).same_except(old(doc), set![h, p as int])
                        },
                        None => final(doc).same_except(old(doc), set![h]),
                    }
                }
            }),
    {
        let h = self.node_ptr();
        let k = doc.nodes[h].kind;
        if k == NodeType::DocumentNode || k == NodeType::DocumentFragNode || doc.nodes[h].detached {
            return;
        }
        let ghost d0 = *doc;
        doc.detach(h);
        let ghost d1 = *doc;
        doc.nodes[h].detached = true;
        doc.node_map.remove(&h);
        proof {
            assert(d0.links_ok(h as int));
            assert forall|x: int| 0 <= x < doc.size() implies #[trigger] doc.links_ok(x) by {
                assert(d1.links_ok(x));
                if x != h as int {
                    assert(doc.rec(x) == d1.rec(x));
                }
            }
            assert(d1.links_ok(0));
            assert forall|x: usize| #[trigger]
                doc.identity().contains_key(x) implies doc.contains(x as int) && doc.identity()[x]@
                    == x by {
                assert(d1.identity().contains_key(x));
            }
            assert forall|x: int| 0 <= x < doc.size() && x != h as int implies #[trigger] doc.rec(x)
                == d1.rec(x) by {}
            assert(doc.reparented(&d0, h as int, None));
            assert(doc.identity() =~= d0.identity().remove(h));
            match d0.parent(h as int) {
                Some(p) => {
                    assert(doc.rec(p as int) == d1.rec(p as int));
                    assert(doc.same_except(&d0, set![h as int, p as int]));
                },
                None => {
                    assert(doc.same_except(&d0, set![h as int]));
                },
            }
        }
    }

    /// Renames this node.
    pub fn set_name(&mut self, doc: &mut Document, name: &str)
        requires
            old(doc).wf(),
            old(doc).contains(old(self)@ as int),
        ensures
            *final(self) == *old(self),
            final(doc).wf(),
            final(doc).name(old(self)@ as int) == name@,
            final(doc).kind(old(self)@ as int) == old(doc).kind(old(self)@ as int),
            final(doc).text(old(self)@ as int) == old(doc).text(old(self)@ as int),
            final(doc).attrs(old(self)@ as int) == old(doc).attrs(old(self)@ as int),
            final(doc).parent(old(self)@ as int) == old(doc).parent(old(self)@ as int),
            final(doc).children(old(self)@ as int) == old(doc).children(old(self)@ as int),
            final(doc).detached(old(self)@ as int) == old(doc).detached(old(self)@ as int),
            final(doc).same_except(old(doc), set![old(self)@ as int]),
            final(doc).identity() == old(doc).identity(),
            final(doc).diagnostics() == old(doc).diagnostics(),
    {
        let h = self.node_ptr();
        let ghost d0 = *doc;
        doc.nodes[h].name = name.to_owned();
        proof {
            assert forall|x: int| 0 <= x < doc.size() implies #[trigger] doc.links_ok(x) by {
                assert(d0.links_ok(x));
            }
            assert(d0.links_ok(0));
            assert forall|x: usize| #[trigger]
                doc.identity().contains_key(x) implies doc.contains(x as int) && doc.identity()[x]@
                    == x by {
                assert(d0.identity().contains_key(x));
            }
        }
    }

    /// The value of the attribute `name`, if this node has one.
    pub fn get_property(&self, doc: &Document, name: &str) -> (r: Option<String>)
        requires
            doc.wf(),
            doc.contains(self@ as int),
        ensures
            r is Some <==> has_attr(doc.attrs(self@ as int), name@),
            r matches Some(v) ==> attr_value(doc.attrs(self@ as int), name@) == Some(v@),
    {
        let attrs = &doc.nodes[self.node_ptr()].attrs;
        let ghost a = doc.attrs(self@ as int);
        let key = name.to_owned();
        let mut i: usize = 0;
        proof {
            assert(doc.links_ok(self@ as int));
        }
        while i < attrs.len()
            invariant
                0 <= i <= attrs@.len(),
                a == attr_pairs(attrs@),
                a == doc.attrs(self@ as int),
                key@ == name@,
                attr_names(a).no_duplicates(),
                forall|j: int| 0 <= j < i ==> a[j].0 != name@,
            decreases attrs@.len() - i,
        {
            proof {
                assert(a[i as int] == (attrs@[i as int].name@, attrs@[i as int].value@));
            }
            if attrs[i].name == key {
                proof {
                    assert(a[i as int].0 == name@);
                    lemma_attr_at(a, i as int);
                }
                return Some(attrs[i].value.clone());
            }
            i = i + 1;
        }
        proof {
            if has_attr(a, name@) {
                let j = choose|j: int| 0 <= j < a.len() && #[trigger] a[j].0 == name@;
                assert(a.len() == attrs@.len());
                assert(false);
            }
        }
        None
    }

    /// Alias of `get_property`.
    pub fn get_attribute(&self, doc: &Document, name: &str) -> (r: Option<String>)
        requires
            doc.wf(),
            doc.contains(self@ as int),
        ensures
            r is Some <==> has_attr(doc.attrs(self@ as int), name@),
            r matches Some(v) ==> attr_value(doc.attrs(self@ as int), name@) == Some(v@),
    {
        self.get_property(doc, name)
    }
}


/// The attribute `a[ja]` and `b[jb]` agree, so both lists give one value for
/// its name.
proof fn lemma_attr_same(
    a: Seq<(Seq<char>, Seq<char>)>,
    b: Seq<(Seq<char>, Seq<char>)>,
    ja: int,
    jb: int,
)
    requires
        attr_names(a).no_duplicates(),
        attr_names(b).no_duplicates(),
        0 <= ja < a.len(),
        0 <= jb < b.len(),
        a[ja] == b[jb],
    ensures
        has_attr(a, a[ja].0),
        has_attr(b, a[ja].0),
        attr_value(a, a[ja].0) == attr_value(b, a[ja].0),
{
    lemma_attr_at(a, ja);
    lemma_attr_at(b, jb);
}

impl Document {
    /// Replaces the attribute list of `h`, whose names must stay distinct.
    fn put_attrs(&mut self, h: usize, attrs: Vec<Attr>)
        requires
            old(self).wf(),
            old(self).contains(h as int),
            attr_names(attr_pairs(attrs@)).no_duplicates(),
        ensures
            final(self).wf(),
            final(self).attrs(h as int) == attr_pairs(attrs@),
            final(self).kind(h as int) == old(self).kind(h as int),
            final(self).name(h as int) == old(self).name(h as int),
            final(self).text(h as int) == old(self).text(h as int),
            final(self).parent(h as int) == old(self).parent(h as int),
            final(self).children(h as int) == old(self).children(h as int),
            final(self).detached(h as int) == old(self).detached(h as int),
            final(self).same_except(old(self), set![h as int]),
            final(self).identity() == old(self).identity(),
            final(self).diagnostics() == old(self).diagnostics(),
    {
        let ghost d0 = *self;
        self.nodes[h].attrs = attrs;
        proof {
            assert forall|x: int| 0 <= x < self.size() implies #[trigger] self.links_ok(x) by {
                assert(d0.links_ok(x));
            }
            assert(d0.links_ok(0));
            assert forall|x: usize| #[trigger]
                self.identity().contains_key(x) implies self.contains(x as int) && self.identity()[x]@
                    == x by {
                assert(d0.identity().contains_key(x));
            }
        }
    }

    /// The position of the attribute called `name` in the list of `h`.
    fn find_attr(&self, h: usize, name: &String) -> (r: Option<usize>)
        requires
            self.wf(),
            self.contains(h as int),
        ensures
            r is None <==> !has_attr(self.attrs(h as int), name@),
            r matches Some(i) ==> i < self.attrs(h as int).len() && self.attrs(h as int)[i as int].0
                == name@,
    {
        let attrs = &self.nodes[h].attrs;
        let ghost a = self.attrs(h as int);
        let mut i: usize = 0;
        while i < attrs.len()
            invariant
                0 <= i <= attrs@.len(),
                a == attr_pairs(attrs@),
                a == self.attrs(h as int),
                forall|j: int| 0 <= j < i ==> a[j].0 != name@,
            decreases attrs@.len() - i,
        {
            proof {
                assert(a[i as int] == (attrs@[i as int].name@, attrs@[i as int].value@));
            }
            if attrs[i].name == *name {
                proof {
                    assert(a[i as int].0 == name@);
                }
                return Some(i);
            }
            i = i + 1;
        }
        proof {
            if has_attr(a, name@) {
                let j = choose|j: int| 0 <= j < a.len() && #[trigger] a[j].0 == name@;
                assert(false);
            }
        }
        None
    }

    /// A copy of the attribute list of `h`.
    fn copy_attrs(&self, h: usize) -> (r: Vec<Attr>)
        requires
            self.contains(h as int),
        ensures
            attr_pairs(r@) == self.attrs(h as int),
    {
        let attrs = &self.nodes[h].attrs;
        let mut out: Vec<Attr> = Vec::new();
        let mut i: usize = 0;
        while i < attrs.len()
            invariant
                0 <= i <= attrs@.len(),
                out@.len() == i,
                forall|k: int| 0 <= k < i ==> #[trigger] out@[k].name@ == attrs@[k].name@ && out@[k].value@ == attrs@[k].value@,
                attrs@ == self.rec(h as int).attrs@,
            decreases attrs@.len() - i,
        {
            out.push(Attr { name: attrs[i].name.clone(), value: attrs[i].value.clone() });
            i = i + 1;
        }
        proof {
            assert(attr_pairs(out@) =~= attr_pairs(attrs@));
        }
        out
    }
}

impl Node {
    /// Sets the attribute `name` to `value`, adding it if this node has none
    /// of that name.
    pub fn set_property(&mut self, doc: &mut Document, name: &str, value: &str)
        requires
            old(doc).wf(),
            old(doc).contains(old(self)@ as int),
        ensures
            *final(self) == *old(self),
            final(doc).wf(),
            attr_value(final(doc).attrs(old(self)@ as int), name@) == Some(value@),
            forall|n: Seq<char>|
                n != name@ ==> has_attr(final(doc).attrs(old(self)@ as int), n) == has_attr(
                    old(doc).attrs(old(self)@ as int),
                    n,
                ) && #[trigger] attr_value(final(doc).attrs(old(self)@ as int), n) == attr_value(
                    old(doc).attrs(old(self)@ as int),
                    n,
                ),
            has_attr(old(doc).attrs(old(self)@ as int), name@) ==> attr_names(
                final(doc).attrs(old(self)@ as int),
            ) == attr_names(old(doc).attrs(old(self)@ as int)),
            !has_attr(old(doc).attrs(old(self)@ as int), name@) ==> attr_names(
                final(doc).attrs(old(self)@ as int),
            ) == attr_names(old(doc).attrs(old(self)@ as int)).push(name@),
            final(doc).kind(old(self)@ as int) == old(doc).kind(old(self)@ as int),
            final(doc).name(old(self)@ as int) == old(doc).name(old(self)@ as int),
            final(doc).text(old(self)@ as int) == old(doc).text(old(self)@ as int),
            final(doc).parent(old(self)@ as int) == old(doc).parent(old(self)@ as int),
            final(doc).children(old(self)@ as int) == old(doc).children(old(self)@ as int),
            final(doc).detached(old(self)@ as int) == old(doc).detached(old(self)@ as int),
            final(doc).same_except(old(doc), set![old(self)@ as int]),
            final(doc).identity() == old(doc).identity(),
            final(doc).diagnostics() == old(doc).diagnostics(),
    {
        let h = self.node_ptr();
        let key = name.to_owned();
        let mut attrs = doc.copy_attrs(h);
        let ghost a = doc.attrs(h as int);
        proof {
            assert(doc.links_ok(h as int));
        }
        let found = doc.find_attr(h, &key);
        match found {
            Some(i) => {
                attrs.set(i, Attr { name: key, value: value.to_owned() });
                proof {
                    let b = attr_pairs(attrs@);
                    assert(b =~= a.update(i as int, (name@, value@)));
                    assert(attr_names(b) =~= attr_names(a));
                    lemma_attr_at(b, i as int);
                }
            },
            None => {
                attrs.push(Attr { name: key, value: value.to_owned() });
                proof {
                    let b = attr_pairs(attrs@);
                    assert(b =~= a.push((name@, value@)));
                    assert(attr_names(b) =~= attr_names(a).push(name@));
                    assert(attr_names(b).no_duplicates()) by {
                        assert forall|x: int, y: int|
                            0 <= x < attr_names(b).len() && 0 <= y < attr_names(b).len() && x != y implies attr_names(b)[x] != attr_names(b)[y] by {
                            if x == a.len() {
                                assert(a[y].0 == attr_names(b)[y]);
                            }
                            if y == a.len() {
                                assert(a[x].0 == attr_names(b)[x]);
                            }
                        }
                    }
                    lemma_attr_at(b, a.len() as int);
                }
            },
        }
        let ghost b = attr_pairs(attrs@);
        proof {
            assert forall|n: Seq<char>|
                n != name@ implies has_attr(b, n) == has_attr(a, n) && #[trigger] attr_value(b, n) == attr_value(a, n) by {
                if has_attr(a, n) {
                    let j = choose|j: int| 0 <= j < a.len() && #[trigger] a[j].0 == n;
                    assert(b[j] == a[j]);
                    lemma_attr_same(a, b, j, j);
                }
                if has_attr(b, n) {
                    let j = choose|j: int| 0 <= j < b.len() && #[trigger] b[j].0 == n;
                    if j < a.len() {
                        assert(b[j] == a[j]);
                        lemma_attr_same(a, b, j, j);
                    }
                }
            }
        }
        doc.put_attrs(h, attrs);
    }

    /// Alias of `set_property`.
    pub fn set_attribute(&mut self, doc: &mut Document, name: &str, value: &str)
        requires
            old(doc).wf(),
            old(doc).contains(old(self)@ as int),
        ensures
            *final(self) == *old(self),
            final(doc).wf(),
            attr_value(final(doc).attrs(old(self)@ as int), name@) == Some(value@),
            forall|n: Seq<char>|
                n != name@ ==> has_attr(final(doc).attrs(old(self)@ as int), n) == has_attr(
                    old(doc).attrs(old(self)@ as int),
                    n,
                ) && #[trigger] attr_value(final(doc).attrs(old(self)@ as int), n) == attr_value(
                    old(doc).attrs(old(self)@ as int),
                    n,
                ),
            has_attr(old(doc).attrs(old(self)@ as int), name@) ==> attr_names(
                final(doc).attrs(old(self)@ as int),
            ) == attr_names(old(doc).attrs(old(self)@ as int)),
            !has_attr(old(doc).attrs(old(self)@ as int), name@) ==> attr_names(
                final(doc).attrs(old(self)@ as int),
            ) == attr_names(old(doc).attrs(old(self)@ as int)).push(name@),
            final(doc).kind(old(self)@ as int) == old(doc).kind(old(self)@ as int),
            final(doc).name(old(self)@ as int) == old(doc).name(old(self)@ as int),
            final(doc).text(old(self)@ as int) == old(doc).text(old(self)@ as int),
            final(doc).parent(old(self)@ as int) == old(doc).parent(old(self)@ as int),
            final(doc).children(old(self)@ as int) == old(doc).children(old(self)@ as int),
            final(doc).detached(old(self)@ as int) == old(doc).detached(old(self)@ as int),
            final(doc).same_except(old(doc), set![old(self)@ as int]),
            final(doc).identity() == old(doc).identity(),
            final(doc).diagnostics() == old(doc).diagnostics(),
    {
        self.set_property(doc, name, value)
    }

    /// Removes the attribute `name`; does nothing if this node has none.
    pub fn remove_property(&mut self, doc: &mut Document, name: &str)
        requires
            old(doc).wf(),
            old(doc).contains(old(self)@ as int),
        ensures
            *final(self) == *old(self),
            final(doc).wf(),
            !has_attr(final(doc).attrs(old(self)@ as int), name@),
            forall|n: Seq<char>|
                n != name@ ==> has_attr(final(doc).attrs(old(self)@ as int), n) == has_attr(
                    old(doc).attrs(old(self)@ as int),
                    n,
                ) && #[trigger] attr_value(final(doc).attrs(old(self)@ as int), n) == attr_value(
                    old(doc).attrs(old(self)@ as int),
                    n,
                ),
            !has_attr(old(doc).attrs(old(self)@ as int), name@) ==> *final(doc) == *old(doc),
            final(doc).kind(old(self)@ as int) == old(doc).kind(old(self)@ as int),
            final(doc).name(old(self)@ as int) == old(doc).name(old(self)@ as int),
            final(doc).text(old(self)@ as int) == old(doc).text(old(self)@ as int),
            final(doc).parent(old(self)@ as int) == old(doc).parent(old(self)@ as int),
            final(doc).children(old(self)@ as int) == old(doc).children(old(self)@ as int),
            final(doc).same_except(old(doc), set![old(self)@ as int]),
            final(doc).identity() == old(doc).identity(),
            final(doc).diagnostics() == old(doc).diagnostics(),
    {
        let h = self.node_ptr();
        let key = name.to_owned();
        let found = doc.find_attr(h, &key);
        match found {
            None => {},
            Some(i) => {
                let mut attrs = doc.copy_attrs(h);
                let ghost a = doc.attrs(h as int);
                proof {
                    assert(doc.links_ok(h as int));
                }
                attrs.remove(i);
                let ghost b = attr_pairs(attrs@);
                proof {
                    assert(b =~= a.remove(i as int));
                    assert(attr_names(b) =~= attr_names(a).remove(i as int));
                    assert(attr_names(b).no_duplicates()) by {
                        assert forall|x: int, y: int|
                            0 <= x < attr_names(b).len() && 0 <= y < attr_names(b).len() && x != y implies attr_names(b)[x] != attr_names(b)[y] by {
                            let x2 = if x < i { x } else { x + 1 };
                            let y2 = if y < i { y } else { y + 1 };
                            assert(attr_names(b)[x] == attr_names(a)[x2]);
                            assert(attr_names(b)[y] == attr_names(a)[y2]);
                        }
                    }
                    if has_attr(b, name@) {
                        let j = choose|j: int| 0 <= j < b.len() && #[trigger] b[j].0 == name@;
                        let j2 = if j < i { j } else { j + 1 };
                        assert(b[j] == a[j2]);
                        assert(attr_names(a)[j2] == attr_names(a)[i as int]);
                    }
                    assert forall|n: Seq<char>|
                        n != name@ implies has_attr(b, n) == has_attr(a, n) && #[trigger] attr_value(b, n) == attr_value(a, n) by {
                        if has_attr(a, n) {
                            let j = choose|j: int| 0 <= j < a.len() && #[trigger] a[j].0 == n;
                            assert(j != i);
                            let j2 = if j < i { j } else { j - 1 };
                            assert(b[j2] == a[j]);
                            lemma_attr_same(a, b, j, j2);
                        }
                        if has_attr(b, n) {
                            let j = choose|j: int| 0 <= j < b.len() && #[trigger] b[j].0 == n;
                            let j2 = if j < i { j } else { j + 1 };
                            assert(b[j] == a[j2]);
                            lemma_attr_same(a, b, j2, j);
                        }
                    }
                }
                doc.put_attrs(h, attrs);
            },
        }
    }

    /// Alias of `remove_property`.
    pub fn remove_attribute(&mut self, doc: &mut Document, name: &str)
        requires
            old(doc).wf(),
            old(doc).contains(old(self)@ as int),
        ensures
            *final(self) == *old(self),
            final(doc).wf(),
            !has_attr(final(doc).attrs(old(self)@ as int), name@),
            forall|n: Seq<char>|
                n != name@ ==> has_attr(final(doc).attrs(old(self)@ as int), n) == has_attr(
                    old(doc).attrs(old(self)@ as int),
                    n,
                ) && #[trigger] attr_value(final(doc).attrs(old(self)@ as int), n) == attr_value(
                    old(doc).attrs(old(self)@ as int),
                    n,
                ),
            !has_attr(old(doc).attrs(old(self)@ as int), name@) ==> *final(doc) == *old(doc),
            final(doc).kind(old(self)@ as int) == old(doc).kind(old(self)@ as int),
            final(doc).name(old(self)@ as int) == old(doc).name(old(self)@ as int),
            final(doc).text(old(self)@ as int) == old(doc).text(old(self)@ as int),
            final(doc).parent(old(self)@ as int) == old(doc).parent(old(self)@ as int),
            final(doc).children(old(self)@ as int) == old(doc).children(old(self)@ as int),
            final(doc).same_except(old(doc), set![old(self)@ as int]),
            final(doc).identity() == old(doc).identity(),
            final(doc).diagnostics() == old(doc).diagnostics(),
    {
        self.remove_property(doc, name)
    }

    /// The attributes of this node as name/value pairs, in order; each name
    /// occurs once.
    pub fn get_properties(&self, doc: &Document) -> (r: Vec<(String, String)>)
        requires
            doc.wf(),
            doc.contains(self@ as int),
        ensures
            r@.map_values(|p: (String, String)| (p.0@, p.1@)) == doc.attrs(self@ as int),
            attr_names(doc.attrs(self@ as int)).no_duplicates(),
    {
        let attrs = &doc.nodes[self.node_ptr()].attrs;
        let mut out: Vec<(String, String)> = Vec::new();
        let mut i: usize = 0;
        proof {
            assert(doc.links_ok(self@ as int));
        }
        while i < attrs.len()
            invariant
                0 <= i <= attrs@.len(),
                out@.len() == i,
                forall|k: int| 0 <= k < i ==> #[trigger] out@[k].0@ == attrs@[k].name@ && out@[k].1@ == attrs@[k].value@,
                attrs@ == doc.rec(self@ as int).attrs@,
            decreases attrs@.len() - i,
        {
            let ghost prev = out@;
            let pair = (attrs[i].name.clone(), attrs[i].value.clone());
            out.push(pair);
            proof {
                assert forall|k: int| 0 <= k < i + 1 implies #[trigger] out@[k].0@ == attrs@[k].name@
                    && out@[k].1@ == attrs@[k].value@ by {
                    if k < i {
                        assert(out@[k] == prev[k]);
                    }
                }
            }
            i = i + 1;
        }
        proof {
            assert(out@.map_values(|p: (String, String)| (p.0@, p.1@)) =~= attr_pairs(attrs@));
        }
        out
    }

    /// Alias of `get_properties`.
    pub fn get_attributes(&self, doc: &Document) -> (r: Vec<(String, String)>)
        requires
            doc.wf(),
            doc.contains(self@ as int),
        ensures
            r@.map_values(|p: (String, String)| (p.0@, p.1@)) == doc.attrs(self@ as int),
            attr_names(doc.attrs(self@ as int)).no_duplicates(),
    {
        self.get_properties(doc)
    }
}


impl Node {
    /// Appends `content` as text: to this node's own text for a text-like
    /// node; as a new last text child for an element or a document
    /// fragment. Empty content, other kinds, and a full arena change nothing.
    pub fn append_text(&mut self, doc: &mut Document, content: &str)
        requires
            old(doc).wf(),
            old(doc).contains(old(self)@ as int),
        ensures
            *final(self) == *old(self),
            final(doc).wf(),
            final(doc).identity() == old(doc).identity(),
            final(doc).diagnostics() == old(doc).diagnostics(),
            ({
                let h = old(self)@ as int;
                let k = old(doc).kind(h);
                let as_child = k == NodeType::ElementNode || k == NodeType::DocumentFragNode;
                &&& (content@.len() == 0 || !(holds_text(k) || as_child) || (as_child && old(doc).size()
                    + 1 >= usize::MAX)) ==> *final(doc) == *old(doc)
                &&& (content@.len() > 0 && holds_text(k)) ==> {
                    &&& final(doc).text(h) == old(doc).text(h) + content@
                    &&& final(doc).same_label_but_text(old(doc), h)
                    &&& final(doc).same_except(old(doc), set![h])
                }
                &&& (content@.len() > 0 && as_child && old(doc).size() + 1 < usize::MAX) ==> {
                    let t = old(doc).size() as int;
                    &&& final(doc).size() == old(doc).size() + 1
                    &&& final(doc).kind(t) == NodeType::TextNode
                    &&& final(doc).text(t) == content@
                    &&& final(doc).attrs(t).len() == 0
                    &&& final(doc).children(t).len() == 0
                    &&& final(doc).parent(t) == Some(h as usize)
                    &&& final(doc).children(h) == old(doc).children(h).push(t as usize)
                    &&& final(doc).same_label(old(doc), h)
                    &&& final(doc).parent(h) == old(doc).parent(h)
                    &&& final(doc).detached(h) == old(doc).detached(h)
                    &&& forall|x: int| 0 <= x < old(doc).size() && x != h ==> #[trigger] final(doc).rec(x) == old(doc).rec(x)
                }
            }),
    {
        let h = self.node_ptr();
        if content.is_empty() {
            return;
        }
        let k = doc.nodes[h].kind;
        if k == NodeType::TextNode || k == NodeType::CDataSectionNode || k == NodeType::CommentNode
            || k == NodeType::PiNode {
            let ghost d0 = *doc;
            doc.nodes[h].content.append(content);
            proof {
                assert forall|x: int| 0 <= x < doc.size() implies #[trigger] doc.links_ok(x) by {
                    assert(d0.links_ok(x));
                }
                assert(d0.links_ok(0));
                assert forall|x: usize| #[trigger]
                    doc.identity().contains_key(x) implies doc.contains(x as int) && doc.identity()[x]@
                        == x by {
                    assert(d0.identity().contains_key(x));
                }
            }
        } else if k == NodeType::ElementNode || k == NodeType::DocumentFragNode {
            if doc.nodes.len() >= usize::MAX - 1 {
                return;
            }
            let ghost d0 = *doc;
            let t = doc.push_node(NodeType::TextNode, String::new(), content.to_owned());
            let ghost d1 = *doc;
            let len = doc.nodes[h].children.len();
            doc.attach_at(t, h, len);
            proof {
                assert(d1.children(h as int).insert(len as int, t) =~= d1.children(h as int).push(t));
                assert(!d1.identity().contains_key(t)) by {
                    if d1.identity().contains_key(t) {
                        assert(d0.identity().contains_key(t));
                    }
                }
                assert(doc.identity() =~= d0.identity());
                assert forall|x: int| 0 <= x < d0.size() && x != h as int implies #[trigger] doc.rec(x)
                    == d0.rec(x) by {
                    assert(doc.rec(x) == d1.rec(x));
                }
            }
        }
    }
}

impl Document {
    /// The record `h` has the kind, name and attributes it has in `prior`,
    /// and the same links.
    pub open spec fn same_label_but_text(&self, prior: &Document, h: int) -> bool {
        &&& self.kind(h) == prior.kind(h)
        &&& self.rec(h).name == prior.rec(h).name
        &&& self.rec(h).attrs == prior.rec(h).attrs
        &&& self.parent(h) == prior.parent(h)
        &&& self.children(h) == prior.children(h)
        &&& self.detached(h) == prior.detached(h)
    }
}


impl Document {
    /// Handle `x` of `self` holds a copy of the subtree of `h` in `src`, to
    /// `fuel` levels: same kind, name, text and attributes, and, level by
    /// level, children that are copies of the source's children in order.
    /// Every handle of the copy is larger than its parent's.
    pub open spec fn copy_of(&self, x: int, src: &Document, h: int, fuel: nat) -> bool
        decreases fuel,
    {
        &&& self.contains(x)
        &&& self.kind(x) == src.kind(h)
        &&& self.name(x) == src.name(h)
        &&& self.text(x) == src.text(h)
        &&& self.attrs(x) == src.attrs(h)
        &&& if fuel == 0 {
            self.children(x).len() == 0
        } else {
            &&& self.children(x).len() == src.children(h).len()
            &&& forall|i: int|
                0 <= i < self.children(x).len() ==> x < #[trigger] self.children(x)[i]
                    && self.copy_of(
                    self.children(x)[i] as int,
                    src,
                    src.children(h)[i] as int,
                    (fuel - 1) as nat,
                )
        }
    }
}

impl Document {
    /// From handle `x` up, the records of `self` have the labels and
    /// children they have in `prior`.
    pub open spec fn agrees_from(&self, prior: &Document, x: int) -> bool {
        &&& self.size() >= prior.size()
        &&& forall|k: int| x <= k < prior.size() ==> #[trigger] self.children(k) == prior.children(k)
        &&& forall|k: int| x <= k < prior.size() ==> #[trigger] self.same_label(prior, k)
    }
}

impl Document {
    /// The number of records that a copy of the subtree of `h`, to `fuel`
    /// levels, takes.
    pub open spec fn subtree_size(&self, h: int, fuel: nat) -> nat
        decreases fuel, 0nat,
    {
        if fuel == 0 {
            1
        } else {
            1 + self.children_size(self.children(h), (fuel - 1) as nat)
        }
    }

    /// The records that copies of the subtrees of `s` take together.
    pub open spec fn children_size(&self, s: Seq<usize>, fuel: nat) -> nat
        decreases fuel, s.len(),
    {
        if s.len() == 0 {
            0
        } else {
            self.children_size(s.drop_last(), fuel) + self.subtree_size(s.last() as int, fuel)
        }
    }
}

/// A prefix of `s` takes no more records than `s` itself.
proof fn lemma_children_size_prefix(d: &Document, s: Seq<usize>, j: int, fuel: nat)
    requires
        0 <= j <= s.len(),
    ensures
        d.children_size(s.subrange(0, j), fuel) <= d.children_size(s, fuel),
    decreases s.len(),
{
    if j == s.len() {
        assert(s.subrange(0, j) =~= s);
    } else {
        assert(s.drop_last().subrange(0, j) =~= s.subrange(0, j));
        lemma_children_size_prefix(d, s.drop_last(), j, fuel);
    }
}

/// A copy stays a copy in a document that agrees on the records from its
/// top handle up.
proof fn lemma_copy_frame(a: &Document, b: &Document, x: int, src: &Document, h: int, fuel: nat)
    requires
        a.copy_of(x, src, h, fuel),
        b.agrees_from(a, x),
    ensures
        b.copy_of(x, src, h, fuel),
    decreases fuel,
{
    assert(a.contains(x));
    assert(b.children(x) == a.children(x));
    assert(b.same_label(a, x));
    if fuel > 0 {
        assert forall|i: int| 0 <= i < b.children(x).len() implies x < #[trigger] b.children(x)[i]
            && b.copy_of(b.children(x)[i] as int, src, src.children(h)[i] as int, (fuel - 1) as nat) by {
            let c = a.children(x)[i] as int;
            assert(x < c);
            assert(a.copy_of(c, src, src.children(h)[i] as int, (fuel - 1) as nat));
            assert forall|k: int| c <= k < a.size() implies #[trigger] b.children(k) == a.children(k) by {
                assert(x <= k < a.size());
            }
            assert forall|k: int| c <= k < a.size() implies #[trigger] b.same_label(a, k) by {
                assert(x <= k < a.size());
            }
            lemma_copy_frame(a, b, c, src, src.children(h)[i] as int, (fuel - 1) as nat);
        }
    }
}

impl Document {
    /// Copies the subtree of `h` in `src` into fresh, parentless, unregistered
    /// records of `self`. Fails only when the arena runs out of handles.
    fn copy_rec(&mut self, src: &Document, h: usize, fuel: usize) -> (r: Option<usize>)
        requires
            old(self).wf(),
            src.wf(),
            src.contains(h as int),
            src.kind(h as int) != NodeType::DocumentNode,
        ensures
            final(self).wf(),
            final(self).size() >= old(self).size(),
            forall|k: int| 0 <= k < old(self).size() ==> #[trigger] final(self).rec(k) == old(self).rec(k),
            final(self).identity() == old(self).identity(),
            final(self).diagnostics() == old(self).diagnostics(),
            r matches Some(x) ==> x >= old(self).size() && final(self).copy_of(x as int, src, h as int, fuel as nat)
                && final(self).parent(x as int).is_none() && !final(self).detached(x as int)
                && final(self).size() == old(self).size() + src.subtree_size(h as int, fuel as nat),
            r is None ==> final(self).size() + 2 >= usize::MAX && final(self).size() < old(self).size()
                + src.subtree_size(h as int, fuel as nat),
        decreases fuel,
    {
        if self.nodes.len() >= usize::MAX - 1 {
            return None;
        }
        let ghost d0 = *self;
        let d = src.rec_ref(h);
        proof {
            assert(src.links_ok(h as int));
        }
        let x = self.push_node(d.kind, d.name.clone(), d.content.clone());
        let attrs = src.copy_attrs(h);
        self.put_attrs(x, attrs);
        if fuel == 0 {
            return Some(x);
        }
        let kids = &d.children;
        let mut i: usize = 0;
        proof {
            assert(kids@.subrange(0, 0) =~= Seq::<usize>::empty());
        }
        while i < kids.len()
            invariant
                0 <= i <= kids@.len(),
                kids@ == src.children(h as int),
                src.wf(),
                src.links_ok(h as int),
                fuel > 0,
                self.wf(),
                d0 == *old(self),
                x == d0.size(),
                x < self.size(),
                forall|k: int| 0 <= k < d0.size() ==> #[trigger] self.rec(k) == d0.rec(k),
                self.identity() == d0.identity(),
                self.diagnostics() == d0.diagnostics(),
                self.kind(x as int) == src.kind(h as int),
                self.name(x as int) == src.name(h as int),
                self.text(x as int) == src.text(h as int),
                self.attrs(x as int) == src.attrs(h as int),
                self.parent(x as int).is_none(),
                !self.detached(x as int),
                self.children(x as int).len() == i,
                self.size() == d0.size() + 1 + src.children_size(kids@.subrange(0, i as int), (fuel - 1) as nat),
                forall|j: int|
                    0 <= j < i ==> x < #[trigger] self.children(x as int)[j] && self.copy_of(
                        self.children(x as int)[j] as int,
                        src,
                        src.children(h as int)[j] as int,
                        (fuel - 1) as nat,
                    ),
            decreases kids@.len() - i,
        {
            let c = kids[i];
            proof {
                assert(src.links_ok(c as int));
            }
            let ghost a0 = *self;
            proof {
                assert(kids@.subrange(0, i + 1).drop_last() =~= kids@.subrange(0, i as int));
                lemma_children_size_prefix(src, kids@, i + 1, (fuel - 1) as nat);
            }
            match self.copy_rec(src, c, fuel - 1) {
                None => {
                    return None;
                },
                Some(y) => {
                    let ghost a1 = *self;
                    proof {
                        assert(self.links_ok(y as int));
                    }
                    self.attach_at(y, x, i);
                    proof {
                        let t = self.children(x as int);
                        assert(t == a1.children(x as int).insert(i as int, y));
                        assert(a1.children(x as int) == a0.children(x as int));
                        assert forall|j: int|
                            0 <= j < i + 1 implies x < #[trigger] self.children(x as int)[j]
                                && self.copy_of(
                                self.children(x as int)[j] as int,
                                src,
                                src.children(h as int)[j] as int,
                                (fuel - 1) as nat,
                            ) by {
                            if j < i {
                                let cj = a0.children(x as int)[j] as int;
                                assert(t[j] == a0.children(x as int)[j]);
                                assert(a0.copy_of(cj, src, src.children(h as int)[j] as int, (fuel - 1) as nat));
                                assert forall|k: int| cj <= k < a0.size() implies self.rec(k) == a0.rec(k) by {
                                    assert(a1.rec(k) == a0.rec(k));
                                    assert(k != x as int);
                                    assert(self.rec(k) == a1.rec(k));
                                }
                                assert(self.agrees_from(&a0, cj));
                                lemma_copy_frame(&a0, self, cj, src, src.children(h as int)[j] as int, (fuel - 1) as nat);
                            } else {
                                assert(t[j] == y);
                                assert forall|k: int| y <= k < a1.size() && k != y implies self.rec(k) == a1.rec(k) by {
                                }
                                assert(self.agrees_from(&a1, y as int));
                                lemma_copy_frame(&a1, self, y as int, src, c as int, (fuel - 1) as nat);
                            }
                        }
                        assert forall|k: int| 0 <= k < d0.size() implies #[trigger] self.rec(k) == d0.rec(k) by {
                            assert(a1.rec(k) == a0.rec(k));
                            assert(self.rec(k) == a1.rec(k));
                        }
                        assert(self.identity() =~= a0.identity()) by {
                            assert(!a1.identity().contains_key(y)) by {
                                if a1.identity().contains_key(y) {
                                    assert(a0.identity().contains_key(y));
                                }
                            }
                        }
                    }
                },
            }
            i = i + 1;
        }
        proof {
            assert(kids@.subrange(0, i as int) =~= kids@);
        }
        Some(x)
    }

    /// Deep-copies the subtree of `node`, which belongs to `src`, into this
    /// document, and returns the canonical wrapper of the copy. The copy is
    /// linked nowhere until the caller places it. Gives `None` for a
    /// document node, or when this arena runs out of handles.
    pub fn import_node(&mut self, src: &Document, node: &Node) -> (r: Option<Node>)
        requires
            old(self).wf(),
            src.wf(),
            src.contains(node@ as int),
        ensures
            final(self).wf(),
            final(self).diagnostics() == old(self).diagnostics(),
            forall|k: int| 0 <= k < old(self).size() ==> #[trigger] final(self).rec(k) == old(self).rec(k),
            src.kind(node@ as int) == NodeType::DocumentNode ==> r is None && *final(self) == *old(self),
            r is None && src.kind(node@ as int) != NodeType::DocumentNode ==> old(self).size()
                + src.subtree_size(node@ as int, src.size()) + 2 > usize::MAX && final(self).identity()
                == old(self).identity(),
            r matches Some(n) ==> {
                &&& n@ >= old(self).size()
                &&& final(self).size() == old(self).size() + src.subtree_size(node@ as int, src.size())
                &&& final(self).copy_of(n@ as int, src, node@ as int, src.size())
                &&& final(self).parent(n@ as int).is_none()
                &&& !final(self).detached(n@ as int)
                &&& final(self).identity() == old(self).identity().insert(n@, n)
            },
    {
        let h = node.node_ptr();
        if src.rec_ref(h).kind == NodeType::DocumentNode {
            return None;
        }
        match self.copy_rec(src, h, src.nodes_len()) {
            None => None,
            Some(x) => {
                let ghost d1 = *self;
                let n = self.resolve(x);
                proof {
                    assert forall|k: int| x <= k < d1.size() implies self.rec(k) == d1.rec(k) by {
                    }
                    assert(self.agrees_from(&d1, x as int));
                    lemma_copy_frame(&d1, self, x as int, src, h as int, src.size());
                    assert forall|k: int| 0 <= k < old(self).size() implies #[trigger] self.rec(k) == old(self).rec(k) by {
                        assert(self.rec(k) == d1.rec(k));
                    }
                }
                Some(n)
            },
        }
    }
}



/// Documents with the same records find the same first element.
proof fn lemma_first_element_same(a: &Document, b: &Document, s: Seq<usize>)
    requires
        b.same_tree(a),
        forall|i: int| 0 <= i < s.len() ==> a.contains(#[trigger] s[i] as int),
    ensures
        b.first_element(s) == a.first_element(s),
    decreases s.len(),
{
    if s.len() > 0 {
        assert(b.rec(s[0] as int) == a.rec(s[0] as int));
        lemma_first_element_same(a, b, s.drop_first());
    }
}

impl Document {
    /// Makes the element `root` the root element. Unless it is already the
    /// root, it becomes the first child of the document node, and the
    /// previous root element, if any, is unlinked. Does nothing for a node
    /// that is not an element.
    pub fn set_root_element(&mut self, root: &mut Node)
        requires
            old(self).wf(),
            old(self).contains(old(root)@ as int),
        ensures
            *final(root) == *old(root),
            final(self).wf(),
            final(self).size() == old(self).size(),
            final(self).diagnostics() == old(self).diagnostics(),
            old(self).kind(old(root)@ as int) != NodeType::ElementNode ==> *final(self) == *old(self),
            old(self).kind(old(root)@ as int) == NodeType::ElementNode ==> {
                let r = old(root)@;
                &&& final(self).root() == Some(r)
                &&& final(self).parent(r as int) == Some(0usize)
                &&& final(self).same_label(old(self), r as int)
                &&& final(self).children(r as int) == old(self).children(r as int)
                &&& !final(self).detached(r as int)
                &&& final(self).identity().contains_key(r) && final(self).identity()[r] == *old(root)
                &&& match old(self).root() {
                    Some(o) => o != r ==> {
                        &&& final(self).detached(o as int)
                        &&& final(self).parent(o as int).is_none()
                        &&& final(self).identity().dom() == old(self).identity().dom().remove(o).insert(r)
                    },
                    None => final(self).identity().dom() == old(self).identity().dom().insert(r),
                }
            },
    {
        let r = root.node_ptr();
        if self.nodes[r].kind != NodeType::ElementNode {
            return;
        }
        let ghost d0 = *self;
        let cur = self.root_handle();
        match cur {
            Some(o) => {
                if o == r {
                    proof {
                        assert(self.links_ok(r as int));
                    }
                    let n = self.resolve(r);
                    proof {
                        crate::node::lemma_node_identity(n, *root);
                        assert(self.identity().dom() =~= d0.identity().dom().insert(r));
                        assert(d0.links_ok(0));
                        lemma_first_element_same(&d0, self, d0.children(0));
                    }
                    return;
                }
                let mut on = Node::wrap(o);
                proof {
                    assert(self.links_ok(o as int));
                }
                on.unlink(self);
            },
            None => {},
        }
        let ghost d1 = *self;
        self.detach(r);
        self.attach_at(r, 0, 0);
        let n = self.resolve(r);
        proof {
            crate::node::lemma_node_identity(n, *root);
            assert(self.children(0)[0] == r);
            assert(self.root() == Some(r));
            match cur {
                Some(o) => {
                    assert(self.detached(o as int) && self.parent(o as int).is_none());
                    assert(self.identity().dom() =~= d0.identity().dom().remove(o).insert(r));
                },
                None => {
                    assert(self.identity().dom() =~= d0.identity().dom().insert(r));
                },
            }
        }
    }
}


impl Document {
    /// The position of `c` in the child list of `p`.
    fn position(&self, p: usize, c: usize) -> (r: usize)
        requires
            self.wf(),
            self.contains(p as int),
            self.children(p as int).contains(c),
        ensures
            r < self.children(p as int).len(),
            r == self.children(p as int).index_of(c),
            self.children(p as int)[r as int] == c,
    {
        let kids = &self.nodes[p].children;
        let ghost s = self.children(p as int);
        proof {
            assert(self.links_ok(p as int));
        }
        let len = kids.len();
        let mut i: usize = 0;
        while kids[i] != c
            invariant
                0 <= i < s.len(),
                len == s.len(),
                kids@ == s,
                s.contains(c),
                forall|j: int| 0 <= j < i ==> s[j] != c,
            decreases s.len() - i,
        {
            i = i + 1;
            proof {
                if i == s.len() {
                    let k = choose|k: int| 0 <= k < s.len() && s[k] == c;
                    assert(false);
                }
            }
        }
        proof {
            assert(s[s.index_of(c) as int] == c);
            assert(s.index_of(c) == i);
        }
        i
    }
}

impl Node {
    /// Inserts `new_sibling`, with its subtree, immediately before this node
    /// under the same parent, taking it from wherever it was linked. Gives
    /// `None`, changing nothing, when this node has no parent, or
    /// `new_sibling` is this node, one of its ancestors, or a document node.
    pub fn add_prev_sibling(&mut self, doc: &mut Document, new_sibling: Node) -> (r: Option<Node>)
        requires
            old(doc).wf(),
            old(doc).contains(old(self)@ as int),
            old(doc).contains(new_sibling@ as int),
        ensures
            *final(self) == *old(self),
            ({
                let (s, c) = (old(self)@ as int, new_sibling@ as int);
                let failed = old(doc).parent(s) is None || c == s || old(doc).kind(c)
                    == NodeType::DocumentNode || old(doc).is_ancestor(c, s);
                &&& failed ==> r is None && *final(doc) == *old(doc)
                &&& !failed ==> (r == Some(new_sibling) && {
                    let p = old(doc).parent(s)->0;
                    let t = if old(doc).parent(c) == Some(p) {
                        old(doc).children(p as int).remove(old(doc).children(p as int).index_of(new_sibling@))
                    } else {
                        old(doc).children(p as int)
                    };
                    &&& final(doc).wf()
                    &&& final(doc).size() == old(doc).size()
                    &&& final(doc).diagnostics() == old(doc).diagnostics()
                    &&& final(doc).identity() == old(doc).identity().insert(new_sibling@, new_sibling)
                    &&& final(doc).reparented(old(doc), c, Some(p))
                    &&& !final(doc).detached(c)
                    &&& final(doc).children(p as int) == t.insert(t.index_of(old(self)@), new_sibling@)
                    &&& final(doc).same_label(old(doc), p as int)
                    &&& final(doc).parent(p as int) == old(doc).parent(p as int)
                })
            }),
    {
        let s = self.node_ptr();
        let c = new_sibling.node_ptr();
        let p = match doc.nodes[s].parent {
            None => {
                return None;
            },
            Some(p) => p,
        };
        if c == s || doc.nodes[c].kind == NodeType::DocumentNode || doc.is_ancestor_exec(c, s) {
            return None;
        }
        let ghost d0 = *doc;
        proof {
            assert(d0.links_ok(s as int));
            assert(d0.links_ok(c as int));
            assert(d0.ancestor_within(c as int, s as int, d0.size()) == false);
            assert(d0.size() > 0);
            assert(c != p);
        }
        doc.detach(c);
        let ghost d1 = *doc;
        proof {
            assert(d1.children(p as int).contains(s)) by {
                let t = d0.children(p as int);
                let k = choose|k: int| 0 <= k < t.len() && t[k] == s;
                if d0.parent(c as int) == Some(p) {
                    let i = t.index_of(c);
                    assert(t[i] == c);
                    if k < i {
                        assert(d1.children(p as int)[k] == s);
                    } else {
                        assert(k != i);
                        assert(d1.children(p as int)[k - 1] == s);
                    }
                } else {
                    assert(d1.rec(p as int) == d0.rec(p as int));
                }
            }
        }
        let idx = doc.position(p, s);
        doc.attach_at(c, p, idx);
        let n = doc.resolve(c);
        proof {
            crate::node::lemma_node_identity(n, new_sibling);
            assert(doc.identity() =~= d0.identity().insert(c, n));
            match d0.parent(c as int) {
                Some(q) => {
                    assert(d0.links_ok(c as int));
                    if q != p {
                        assert(d1.rec(p as int) == d0.rec(p as int));
                    }
                },
                None => {},
            }
        }
        Some(n)
    }
}


impl Node {
    /// A new node of any kind but a document, with the given name and own
    /// text, registered in `doc`'s identity map and linked nowhere. Fails,
    /// changing nothing, for a document kind or when the arena is full.
    pub fn create(kind: NodeType, name: &str, content: &str, doc: &mut Document) -> (r: Result<Node, ()>)
        requires
            old(doc).wf(),
        ensures
            (kind == NodeType::DocumentNode || old(doc).size() + 1 >= usize::MAX) ==> r is Err
                && *final(doc) == *old(doc),
            (kind != NodeType::DocumentNode && old(doc).size() + 1 < usize::MAX) ==> (r matches Ok(n) && {
                &&& n@ == old(doc).size()
                &&& final(doc).wf()
                &&& final(doc).size() == old(doc).size() + 1
                &&& forall|k: int| 0 <= k < old(doc).size() ==> #[trigger] final(doc).rec(k) == old(doc).rec(k)
                &&& final(doc).kind(n@ as int) == kind
                &&& final(doc).name(n@ as int) == name@
                &&& final(doc).text(n@ as int) == content@
                &&& final(doc).attrs(n@ as int).len() == 0
                &&& final(doc).parent(n@ as int).is_none()
                &&& final(doc).children(n@ as int).len() == 0
                &&& !final(doc).detached(n@ as int)
                &&& final(doc).identity() == old(doc).identity().insert(n@, n)
                &&& final(doc).diagnostics() == old(doc).diagnostics()
            }),
    {
        if kind == NodeType::DocumentNode || doc.nodes.len() >= usize::MAX - 1 {
            return Err(());
        }
        let h = doc.push_node(kind, name.to_owned(), content.to_owned());
        let n = Node::wrap(h);
        doc.insert_node(h, n);
        Ok(n)
    }
}

} // verus!
