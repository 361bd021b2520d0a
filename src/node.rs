//! Node kinds and the `Node` handle.
use vstd::prelude::*;

verus! {

/// The kinds of node a tree can hold.
#[derive(Clone, Copy, Debug, PartialEq, Eq, Structural)]
pub enum NodeType {
    ElementNode,
    AttributeNode,
    TextNode,
    CDataSectionNode,
    EntityRefNode,
    EntityNode,
    PiNode,
    CommentNode,
    DocumentNode,
    DocumentTypeNode,
    DocumentFragNode,
    NotationNode,
    HtmlDocumentNode,
    DTDNode,
    ElementDecl,
    AttributeDecl,
    EntityDecl,
    NamespaceDecl,
    XIncludeStart,
    XIncludeEnd,
    DOCBDocumentNode,
}

/// The kind that the numeric type tag `i` stands for, if any.
pub open spec fn node_type_of_tag(i: u32) -> Option<NodeType> {
    if i == 1 { Some(NodeType::ElementNode) }
    else if i == 2 { Some(NodeType::AttributeNode) }
    else if i == 3 { Some(NodeType::TextNode) }
    else if i == 4 { Some(NodeType::CDataSectionNode) }
    else if i == 5 { Some(NodeType::EntityRefNode) }
    else if i == 6 { Some(NodeType::EntityNode) }
    else if i == 7 { Some(NodeType::PiNode) }
    else if i == 8 { Some(NodeType::CommentNode) }
    else if i == 9 { Some(NodeType::DocumentNode) }
    else if i == 10 { Some(NodeType::DocumentTypeNode) }
    else if i == 11 { Some(NodeType::DocumentFragNode) }
    else if i == 12 { Some(NodeType::NotationNode) }
    else if i == 13 { Some(NodeType::HtmlDocumentNode) }
    else if i == 14 { Some(NodeType::DTDNode) }
    else if i == 15 { Some(NodeType::ElementDecl) }
    else if i == 16 { Some(NodeType::AttributeDecl) }
    else if i == 17 { Some(NodeType::EntityDecl) }
    else if i == 18 { Some(NodeType::NamespaceDecl) }
    else if i == 19 { Some(NodeType::XIncludeStart) }
    else if i == 20 { Some(NodeType::XIncludeEnd) }
    else if i == 21 { Some(NodeType::DOCBDocumentNode) }
    else { None }
}

impl NodeType {
    /// Decodes a numeric node type tag; tags outside `1..=21` give `None`.
    pub fn from_c_int(i: u32) -> (r: Option<NodeType>)
        ensures
            r == node_type_of_tag(i),
            r.is_none() <==> (i < 1 || i > 21),
    {
        match i {
            1 => Some(NodeType::ElementNode),
            2 => Some(NodeType::AttributeNode),
            3 => Some(NodeType::TextNode),
            4 => Some(NodeType::CDataSectionNode),
            5 => Some(NodeType::EntityRefNode),
            6 => Some(NodeType::EntityNode),
            7 => Some(NodeType::PiNode),
            8 => Some(NodeType::CommentNode),
            9 => Some(NodeType::DocumentNode),
            10 => Some(NodeType::DocumentTypeNode),
            11 => Some(NodeType::DocumentFragNode),
            12 => Some(NodeType::NotationNode),
            13 => Some(NodeType::HtmlDocumentNode),
            14 => Some(NodeType::DTDNode),
            15 => Some(NodeType::ElementDecl),
            16 => Some(NodeType::AttributeDecl),
            17 => Some(NodeType::EntityDecl),
            18 => Some(NodeType::NamespaceDecl),
            19 => Some(NodeType::XIncludeStart),
            20 => Some(NodeType::XIncludeEnd),
            21 => Some(NodeType::DOCBDocumentNode),
            _ => None,
        }
    }
}

/// A non-owning handle to one node of a [`crate::Document`].
///
/// Two handles are equal exactly when they name the same node, so the
/// wrapper that the identity map holds for a node is the only one there is.
#[derive(Clone, Copy, Debug, PartialEq, Eq, Structural)]
pub struct Node {
    handle: usize,
}

impl View for Node {
    type V = usize;

    closed spec fn view(&self) -> usize {
        self.handle
    }
}

/// Two wrappers that name the same handle are one and the same wrapper.
pub proof fn lemma_node_identity(a: Node, b: Node)
    requires
        a@ == b@,
    ensures
        a == b,
{
}

impl Node {
    /// The handle of this node.
    pub fn node_ptr(&self) -> (r: usize)
        ensures
            r == self@,
    {
        self.handle
    }

    /// The handle of this node (mutable receiver form).
    pub fn node_ptr_mut(&mut self) -> (r: usize)
        ensures
            r == old(self)@,
            *final(self) == *old(self),
    {
        self.handle
    }

    /// The wrapper for `node_ptr`. It is not registered in the document's
    /// identity map: callers register it.
    pub fn wrap(node_ptr: usize) -> (r: Node)
        ensures
            r@ == node_ptr,
    {
        Node { handle: node_ptr }
    }
}

} // verus!
