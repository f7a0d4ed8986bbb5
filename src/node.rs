use vstd::prelude::*;
use crate::handle::Handle;
use crate::kind::NodeKind;

verus! {

/// One element of the scene graph.
///
/// `parent` and `children` are the node's links in the graph that holds it;
/// `global_visibility` is derived by the graph from the visibility of the
/// node and its ancestors. `body` refers into a physics pool the graph does
/// not own. `resource` identifies the template model the node was
/// instantiated from, and `original` the node inside that template.
pub struct Node {
    pub name: String,
    pub kind: NodeKind,
    pub visibility: bool,
    pub global_visibility: bool,
    pub parent: Handle,
    pub children: Vec<Handle>,
    pub body: Handle,
    pub resource: Option<u64>,
    pub original: Handle,
}

/// The authored state of a node that a copy carries over: everything except
/// its links and its physics body.
pub open spec fn same_authored(a: Node, b: Node) -> bool {
    &&& a.name@ == b.name@
    &&& a.kind == b.kind
    &&& a.visibility == b.visibility
    &&& a.resource == b.resource
}

/// A node that belongs to no graph: no parent and no children.
pub open spec fn detached(n: Node) -> bool {
    n.parent == Handle::spec_none() && n.children@.len() == 0
}

/// `r` is a copy of `n` made for the source node `original`.
pub open spec fn is_copy_of(r: Node, n: Node, original: Handle) -> bool {
    &&& same_authored(r, n)
    &&& r.global_visibility == n.global_visibility
    &&& detached(r)
    &&& r.body == Handle::spec_none()
    &&& r.original == original
}

/// Copies of one node made for one source handle all point at that handle,
/// agree on their authored state, and belong to no graph, so each becomes a
/// node of its own once added.
pub proof fn lemma_copies_share_original(n: Node, original: Handle, a: Node, b: Node)
    requires
        is_copy_of(a, n, original),
        is_copy_of(b, n, original),
    ensures
        a.original == original && b.original == original,
        same_authored(a, b),
        detached(a) && detached(b),
{
}

impl Default for Node {
    fn default() -> (r: Node)
        ensures
            r.name@ == Seq::<char>::empty(),
            r.kind == NodeKind::Base,
            r.visibility && r.global_visibility,
            detached(r),
            r.body == Handle::spec_none(),
            r.resource is None,
            r.original == Handle::spec_none(),
    {
        Node {
            name: String::new(),
            kind: NodeKind::Base,
            visibility: true,
            global_visibility: true,
            parent: Handle::none(),
            children: Vec::new(),
            body: Handle::none(),
            resource: None,
            original: Handle::none(),
        }
    }
}

impl Node {
    /// A fresh visible node named "Node" of the given variant.
    pub fn new(kind: NodeKind) -> (r: Node)
        ensures
            r.name@ == "Node"@,
            r.kind == kind,
            r.visibility && r.global_visibility,
            detached(r),
            r.body == Handle::spec_none(),
            r.resource is None,
            r.original == Handle::spec_none(),
    {
        Node {
            name: String::from_str("Node"),
            kind,
            visibility: true,
            global_visibility: true,
            parent: Handle::none(),
            children: Vec::new(),
            body: Handle::none(),
            resource: None,
            original: Handle::none(),
        }
    }

    /// A copy of the node's authored state without its children, parent and
    /// physics body; the copy records `original` as its source node.
    pub fn make_copy(&self, original: Handle) -> (r: Node)
        ensures
            is_copy_of(r, *self, original),
    {
        Node {
            name: self.name.clone(),
            kind: self.kind,
            visibility: self.visibility,
            global_visibility: self.global_visibility,
            parent: Handle::none(),
            children: Vec::new(),
            body: Handle::none(),
            resource: self.resource,
            original,
        }
    }

    pub fn get_original_handle(&self) -> (r: Handle)
        ensures
            r == self.original,
    {
        self.original
    }

    pub fn set_original_handle(&mut self, original: Handle)
        ensures
            *final(self) == (Node { original, ..*old(self) }),
    {
        self.original = original;
    }

    pub fn set_body(&mut self, body: Handle)
        ensures
            *final(self) == (Node { body, ..*old(self) }),
    {
        self.body = body;
    }

    pub fn get_body(&self) -> (r: Handle)
        ensures
            r == self.body,
    {
        self.body
    }

    pub fn get_kind(&self) -> (r: &NodeKind)
        ensures
            *r == self.kind,
    {
        &self.kind
    }

    pub fn get_kind_mut(&mut self) -> (r: &mut NodeKind)
        ensures
            *r == old(self).kind,
            *final(self) == (Node { kind: *final(r), ..*old(self) }),
    {
        &mut self.kind
    }

    pub fn set_resource(&mut self, resource: u64)
        ensures
            *final(self) == (Node { resource: Some(resource), ..*old(self) }),
    {
        self.resource = Some(resource);
    }

    pub fn get_resource(&self) -> (r: Option<u64>)
        ensures
            r == self.resource,
    {
        self.resource
    }

    pub fn set_visibility(&mut self, visibility: bool)
        ensures
            *final(self) == (Node { visibility, ..*old(self) }),
    {
        self.visibility = visibility;
    }

    pub fn get_visibility(&self) -> (r: bool)
        ensures
            r == self.visibility,
    {
        self.visibility
    }

    pub fn get_global_visibility(&self) -> (r: bool)
        ensures
            r == self.global_visibility,
    {
        self.global_visibility
    }

    pub fn set_name(&mut self, name: String)
        ensures
            *final(self) == (Node { name, ..*old(self) }),
    {
        self.name = name;
    }

    pub fn get_name(&self) -> (r: &str)
        ensures
            r@ == self.name@,
    {
        self.name.as_str()
    }

    pub fn get_parent(&self) -> (r: Handle)
        ensures
            r == self.parent,
    {
        self.parent
    }

    pub fn get_children(&self) -> (r: &[Handle])
        ensures
            r@ == self.children@,
    {
        self.children.as_slice()
    }
}

} // verus!
