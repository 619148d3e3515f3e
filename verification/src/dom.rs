//! A minimal document node over the token stream. Tree construction is a
//! separate concern: the tokenizer only guarantees the ordered token
//! sequence that a builder consumes.
use vstd::prelude::*;

use crate::tokenizer::html_tokenize;
use crate::tokenizer::TokenHtml;

verus! {

/// A node of a document tree, holding its children in order.
pub struct DomNode {
    children: Vec<DomNode>,
}

impl DomNode {
    /// The children of this node, in insertion order.
    pub closed spec fn children_view(&self) -> Seq<DomNode> {
        self.children@
    }

    /// A fresh node with no children.
    pub fn new() -> (node: DomNode)
        ensures
            node.children_view() == Seq::<DomNode>::empty(),
    {
        let node = DomNode { children: Vec::new() };
        node
    }

    /// Appends a child after the existing children.
    pub fn append(&mut self, node: DomNode)
        ensures
            final(self).children_view() == old(self).children_view().push(node),
    {
        self.children.push(node);
    }
}

/// Entry point of the (yet unwritten) tree builder: tokenizes a fixed
/// document and sets up an empty root and stack.
pub fn dom_tree_from_html(_html: &str) {
    let _toks = html_tokenize("<p>Hello!</p>");
    let _head = DomNode::new();
    let _stack: Vec<TokenHtml> = Vec::new();
}

} // verus!
