//! The element embedding chain: `Node` -> `Element` -> `HTMLMediaElement` ->
//! `HTMLVideoElement`, composed by value containment rather than subclassing.
//!
//! Each level owns the state it adds, is built bottom-up through an
//! `new_inherited` constructor that takes the fully constructed lower level,
//! and delegates reads to the level below it. An intermediate level that adds
//! nothing (the video element) costs no extra storage.

use vstd::prelude::*;

verus! {

/// Tag selecting a concrete leaf type of the embedding chain. It is also the
/// key under which the per-type wrap function is resolved at reflection time,
/// so leaf dispatch needs no virtual calls.
#[derive(Clone, Copy, PartialEq, Eq, Structural, Debug)]
pub enum ElementType {
    Media,
    Video,
}

/// One attribute of an element: a name and a plain string value. Attribute
/// values hold no heap references, so they contribute nothing to tracing.
pub struct Attr {
    pub name: String,
    pub value: String,
}

/// The root of the embedding chain: identity (owning document, local name,
/// namespace prefix) fixed at construction, plus the tree links.
///
/// The upward links (`parent`, `doc`) are weak back-references: the collector
/// does not trace them, so the downward ownership (`children`) alone
/// determines liveness, and freeing an unreachable parent never keeps a
/// subtree alive through it. `depth` is the acyclicity witness for the
/// parent links: a node with a parent sits exactly one level below it, so
/// every walk up the parent chain terminates.
pub struct Node {
    /// Identifier of the owning document; never changes after construction.
    pub doc: u64,
    /// Tag local name; never changes after construction.
    pub local_name: String,
    /// Optional namespace prefix; never changes after construction.
    pub prefix: Option<String>,
    /// Weak upward link to the slot of the parent node, if attached.
    pub parent: Option<usize>,
    /// Owning downward links to child slots, in sibling order.
    pub children: Vec<usize>,
    /// Number of ancestors the node had when it was attached.
    pub depth: usize,
}

impl Node {
    /// The node value with the same identity and children but another parent
    /// link.
    pub open spec fn with_parent(self, p: Option<usize>) -> Node {
        Node {
            doc: self.doc,
            local_name: self.local_name,
            prefix: self.prefix,
            parent: p,
            children: self.children,
            depth: self.depth,
        }
    }

    /// The node value with the same identity and children but another depth.
    pub open spec fn with_depth(self, d: usize) -> Node {
        Node {
            doc: self.doc,
            local_name: self.local_name,
            prefix: self.prefix,
            parent: self.parent,
            children: self.children,
            depth: d,
        }
    }

    /// Everything but the children list agrees: identity and upward link.
    pub open spec fn eq_except_children(self, other: Node) -> bool {
        &&& other.doc == self.doc
        &&& other.local_name == self.local_name
        &&& other.prefix == self.prefix
        &&& other.parent == self.parent
        &&& other.depth == self.depth
    }

    /// Builds the chain's root level: identity is taken over verbatim and the
    /// tree links start detached.
    pub fn new_inherited(local_name: String, prefix: Option<String>, doc: u64) -> (n: Node)
        ensures
            n.doc == doc,
            n.local_name == local_name,
            n.prefix == prefix,
            n.parent is None,
            n.children@ == Seq::<usize>::empty(),
            n.depth == 0,
    {
        Node { doc, local_name, prefix, parent: None, children: Vec::new(), depth: 0 }
    }

    /// Enumerates the heap references this level holds for the collector:
    /// exactly the owning child links. The weak back-references (`parent`,
    /// `doc`) are deliberately excluded from tracing.
    pub fn trace(&self) -> (r: Vec<usize>)
        ensures
            r@ == self.children@,
    {
        let mut r: Vec<usize> = Vec::new();
        let mut i: usize = 0;
        while i < self.children.len()
            invariant
                i <= self.children@.len(),
                r@ == self.children@.subrange(0, i as int),
            decreases self.children@.len() - i,
        {
            r.push(self.children[i]);
            i = i + 1;
        }
        proof {
            assert(r@ =~= self.children@);
        }
        r
    }
}

/// Second level of the chain: embeds `Node` and adds attribute storage.
pub struct Element {
    pub node: Node,
    pub attrs: Vec<Attr>,
}

impl Element {
    /// Builds this level on top of a freshly built `Node` level.
    pub fn new_inherited(local_name: String, prefix: Option<String>, doc: u64) -> (e: Element)
        ensures
            e.node.doc == doc,
            e.node.local_name == local_name,
            e.node.prefix == prefix,
            e.node.parent is None,
            e.node.children@ == Seq::<usize>::empty(),
            e.node.depth == 0,
            e.attrs@ == Seq::<Attr>::empty(),
    {
        Element { node: Node::new_inherited(local_name, prefix, doc), attrs: Vec::new() }
    }

    /// The embedded lower level.
    pub fn node(&self) -> (r: &Node)
        ensures
            *r == self.node,
    {
        &self.node
    }

    /// This level's share of tracing: attribute values hold no heap
    /// references, so it only delegates to the level below.
    pub fn trace(&self) -> (r: Vec<usize>)
        ensures
            r@ == self.node.children@,
    {
        self.node.trace()
    }
}

/// Third level of the chain: embeds `Element` and adds media-specific state.
pub struct HTMLMediaElement {
    pub element: Element,
    /// Media playback state; opaque to this construction layer.
    pub media_state: u64,
}

impl HTMLMediaElement {
    /// Builds this level on top of a freshly built `Element` level.
    pub fn new_inherited(local_name: String, prefix: Option<String>, doc: u64) -> (m:
        HTMLMediaElement)
        ensures
            m.element.node.doc == doc,
            m.element.node.local_name == local_name,
            m.element.node.prefix == prefix,
            m.element.node.parent is None,
            m.element.node.children@ == Seq::<usize>::empty(),
            m.element.node.depth == 0,
            m.element.attrs@ == Seq::<Attr>::empty(),
            m.media_state == 0,
    {
        HTMLMediaElement {
            element: Element::new_inherited(local_name, prefix, doc),
            media_state: 0,
        }
    }

    /// The embedded lower level.
    pub fn element(&self) -> (r: &Element)
        ensures
            *r == self.element,
    {
        &self.element
    }

    /// This level's share of tracing: the media state holds no heap
    /// references, so it only delegates to the level below.
    pub fn trace(&self) -> (r: Vec<usize>)
        ensures
            r@ == self.element.node.children@,
    {
        self.element.trace()
    }
}

/// Leaf level for video elements: embeds `HTMLMediaElement` and adds no
/// state of its own. It exists as a distinct type for dispatch and for
/// reflection identity, at zero storage cost.
pub struct HTMLVideoElement {
    pub htmlmediaelement: HTMLMediaElement,
}

impl HTMLVideoElement {
    /// Builds the video leaf on top of a freshly built media level.
    pub fn new_inherited(local_name: String, prefix: Option<String>, doc: u64) -> (v:
        HTMLVideoElement)
        ensures
            v.htmlmediaelement.element.node.doc == doc,
            v.htmlmediaelement.element.node.local_name == local_name,
            v.htmlmediaelement.element.node.prefix == prefix,
            v.htmlmediaelement.element.node.parent is None,
            v.htmlmediaelement.element.node.children@ == Seq::<usize>::empty(),
            v.htmlmediaelement.element.node.depth == 0,
            v.htmlmediaelement.element.attrs@ == Seq::<Attr>::empty(),
            v.htmlmediaelement.media_state == 0,
    {
        HTMLVideoElement { htmlmediaelement: HTMLMediaElement::new_inherited(local_name, prefix, doc) }
    }

    /// The embedded lower level.
    pub fn htmlmediaelement(&self) -> (r: &HTMLMediaElement)
        ensures
            *r == self.htmlmediaelement,
    {
        &self.htmlmediaelement
    }

    /// This level's share of tracing: nothing added, so it only delegates.
    pub fn trace(&self) -> (r: Vec<usize>)
        ensures
            r@ == self.htmlmediaelement.element.node.children@,
    {
        self.htmlmediaelement.trace()
    }
}

/// A fully constructed embedding-chain value, as placed into one heap slot.
/// The variant is the concrete leaf type.
pub enum DomValue {
    Media(HTMLMediaElement),
    Video(HTMLVideoElement),
}

impl DomValue {
    /// The `Node` level at the bottom of the chain.
    pub open spec fn spec_node(self) -> Node {
        match self {
            DomValue::Media(m) => m.element.node,
            DomValue::Video(v) => v.htmlmediaelement.element.node,
        }
    }

    /// The same chain value with the `Node` level replaced and every higher
    /// level kept verbatim.
    pub open spec fn with_node(self, n: Node) -> DomValue {
        match self {
            DomValue::Media(m) => DomValue::Media(
                HTMLMediaElement {
                    element: Element { node: n, attrs: m.element.attrs },
                    media_state: m.media_state,
                },
            ),
            DomValue::Video(v) => DomValue::Video(
                HTMLVideoElement {
                    htmlmediaelement: HTMLMediaElement {
                        element: Element {
                            node: n,
                            attrs: v.htmlmediaelement.element.attrs,
                        },
                        media_state: v.htmlmediaelement.media_state,
                    },
                },
            ),
        }
    }

    /// The concrete leaf type of this chain value.
    pub open spec fn spec_element_type(self) -> ElementType {
        match self {
            DomValue::Media(_) => ElementType::Media,
            DomValue::Video(_) => ElementType::Video,
        }
    }

    /// The concrete leaf type of this chain value.
    pub fn element_type(&self) -> (r: ElementType)
        ensures
            r == self.spec_element_type(),
    {
        match self {
            DomValue::Media(_) => ElementType::Media,
            DomValue::Video(_) => ElementType::Video,
        }
    }

    /// Read access to the `Node` level, through every leaf type alike.
    pub fn node(&self) -> (r: &Node)
        ensures
            *r == self.spec_node(),
    {
        match self {
            DomValue::Media(m) => &m.element.node,
            DomValue::Video(v) => &v.htmlmediaelement.element.node,
        }
    }

    /// The tag local name, delegated down the chain.
    pub fn local_name(&self) -> (r: &str)
        ensures
            r@ == self.spec_node().local_name@,
    {
        self.node().local_name.as_str()
    }

    /// The namespace prefix, delegated down the chain.
    pub fn prefix(&self) -> (r: &Option<String>)
        ensures
            *r == self.spec_node().prefix,
    {
        &self.node().prefix
    }

    /// The owning document's identifier, delegated down the chain.
    pub fn owning_document(&self) -> (r: u64)
        ensures
            r == self.spec_node().doc,
    {
        self.node().doc
    }

    /// Enumerates the heap references the whole chain value holds, each level
    /// contributing its share: exactly the owning child links.
    pub fn trace(&self) -> (r: Vec<usize>)
        ensures
            r@ == self.spec_node().children@,
    {
        match self {
            DomValue::Media(m) => m.trace(),
            DomValue::Video(v) => v.trace(),
        }
    }

    /// Repoints the weak upward link; identity, children and every higher
    /// level of the chain stay verbatim.
    pub fn set_parent(&mut self, p: Option<usize>)
        ensures
            *final(self) == old(self).with_node(old(self).spec_node().with_parent(p)),
    {
        match self {
            DomValue::Media(m) => {
                m.element.node.parent = p;
            },
            DomValue::Video(v) => {
                v.htmlmediaelement.element.node.parent = p;
            },
        }
    }

    /// Records the attachment depth; identity, links and every higher level
    /// of the chain stay verbatim.
    pub fn set_depth(&mut self, d: usize)
        ensures
            *final(self) == old(self).with_node(old(self).spec_node().with_depth(d)),
    {
        match self {
            DomValue::Media(m) => {
                m.element.node.depth = d;
            },
            DomValue::Video(v) => {
                v.htmlmediaelement.element.node.depth = d;
            },
        }
    }

    /// Removes the owning child link at position `k`, closing the gap;
    /// everything else stays verbatim.
    pub fn remove_child_at(&mut self, k: usize)
        requires
            k < old(self).spec_node().children@.len(),
        ensures
            final(self).spec_node().children@ == old(self).spec_node().children@.remove(
                k as int,
            ),
            final(self).spec_node().eq_except_children(old(self).spec_node()),
            *final(self) == old(self).with_node(final(self).spec_node()),
    {
        match self {
            DomValue::Media(m) => {
                let _removed: usize = m.element.node.children.remove(k);
            },
            DomValue::Video(v) => {
                let _removed: usize = v.htmlmediaelement.element.node.children.remove(k);
            },
        }
    }

    /// Appends one owning child link; everything else stays verbatim.
    pub fn push_child(&mut self, c: usize)
        ensures
            final(self).spec_node().children@ == old(self).spec_node().children@.push(c),
            final(self).spec_node().eq_except_children(old(self).spec_node()),
            *final(self) == old(self).with_node(final(self).spec_node()),
    {
        match self {
            DomValue::Media(m) => {
                m.element.node.children.push(c);
            },
            DomValue::Video(v) => {
                v.htmlmediaelement.element.node.children.push(c);
            },
        }
    }
}

} // verus!
