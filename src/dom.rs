//! An arena model of the DOM that the invalidator walks.
//!
//! Every node has an index. The arena keeps one rule that makes every walk
//! finite: each edge that a walk can follow down or right (first child,
//! last child, next sibling, shadow root, slot assignment, anonymous
//! content) leads to a node with a larger index.

use vstd::prelude::*;

verus! {

/// One node of the arena: an element or a shadow root.
#[derive(Clone, Copy, Debug, PartialEq, Eq)]
pub struct Node {
    pub is_element: bool,
    pub parent: Option<usize>,
    pub first_child: Option<usize>,
    pub last_child: Option<usize>,
    pub prev_sibling: Option<usize>,
    pub next_sibling: Option<usize>,
    pub shadow_root: Option<usize>,
    pub is_slot: bool,
    pub exports_parts: bool,
    /// The pseudo-element name of an anonymous-content root, if any.
    pub pseudo: Option<u32>,
}

/// The tree: nodes, plus the relations that are lists.
pub struct Dom {
    pub nodes: Vec<Node>,
    /// `(element, class)` pairs.
    pub classes: Vec<(usize, u32)>,
    /// `(element, part name)` pairs: the element's `part` attribute.
    pub parts: Vec<(usize, u32)>,
    /// `(slot, node)` pairs, in assignment order.
    pub assigned: Vec<(usize, usize)>,
    /// `(host, root)` pairs of anonymous content, in creation order.
    pub anonymous: Vec<(usize, usize)>,
}

pub open spec fn forward(from: int, to: Option<usize>, len: int) -> bool {
    match to {
        Some(t) => from < t && t < len,
        None => true,
    }
}

pub open spec fn in_range(to: Option<usize>, len: int) -> bool {
    match to {
        Some(t) => t < len,
        None => true,
    }
}

impl Node {
    pub open spec fn wf_at(self, i: int, len: int) -> bool {
        &&& forward(i, self.first_child, len)
        &&& forward(i, self.last_child, len)
        &&& forward(i, self.next_sibling, len)
        &&& forward(i, self.shadow_root, len)
        &&& in_range(self.prev_sibling, len)
        &&& in_range(self.parent, len)
    }

    fn fresh(is_element: bool, parent: Option<usize>, prev_sibling: Option<usize>) -> (r: Node)
        ensures
            r.is_element == is_element,
            r.parent == parent,
            r.prev_sibling == prev_sibling,
            r.first_child.is_none(),
            r.last_child.is_none(),
            r.next_sibling.is_none(),
            r.shadow_root.is_none(),
            !r.is_slot,
            !r.exports_parts,
            r.pseudo.is_none(),
    {
        Node {
            is_element,
            parent,
            first_child: None,
            last_child: None,
            prev_sibling,
            next_sibling: None,
            shadow_root: None,
            is_slot: false,
            exports_parts: false,
            pseudo: None,
        }
    }
}

impl Dom {
    pub open spec fn len_spec(&self) -> nat {
        self.nodes@.len()
    }

    pub open spec fn node(&self, i: int) -> Node {
        self.nodes@[i]
    }

    pub open spec fn is_element_spec(&self, i: int) -> bool {
        0 <= i < self.nodes@.len() && self.nodes@[i].is_element
    }

    pub open spec fn class_pairs(&self) -> Seq<(usize, u32)> {
        self.classes@
    }

    pub open spec fn part_pairs(&self) -> Seq<(usize, u32)> {
        self.parts@
    }

    pub open spec fn assigned_pairs(&self) -> Seq<(usize, usize)> {
        self.assigned@
    }

    pub open spec fn anonymous_pairs(&self) -> Seq<(usize, usize)> {
        self.anonymous@
    }

    pub open spec fn has_class_spec(&self, e: int, c: u32) -> bool {
        exists|j: int| 0 <= j < self.classes@.len() && #[trigger] self.classes@[j] == (e as usize, c)
    }

    pub open spec fn has_part_spec(&self, e: int, p: u32) -> bool {
        exists|j: int| 0 <= j < self.parts@.len() && #[trigger] self.parts@[j] == (e as usize, p)
    }

    pub open spec fn has_part_attr_spec(&self, e: int) -> bool {
        exists|j: int| 0 <= j < self.parts@.len() && (#[trigger] self.parts@[j]).0 == e
    }

    /// The arena's rule: every link points inside the arena, and every link
    /// that a walk follows points to a later node.
    pub open spec fn wf(&self) -> bool {
        let len = self.nodes@.len() as int;
        &&& forall|i: int| 0 <= i < len ==> #[trigger] self.nodes@[i].wf_at(i, len)
        &&& forall|j: int|
            0 <= j < self.assigned@.len() ==> {
                let (s, n) = #[trigger] self.assigned@[j];
                s < n && n < len
            }
        &&& forall|j: int|
            0 <= j < self.anonymous@.len() ==> {
                let (h, n) = #[trigger] self.anonymous@[j];
                h < n && n < len
            }
        &&& forall|j: int| 0 <= j < self.classes@.len() ==> (#[trigger] self.classes@[j]).0 < len
        &&& forall|j: int| 0 <= j < self.parts@.len() ==> (#[trigger] self.parts@[j]).0 < len
    }

    /// An empty tree.
    pub fn new() -> (r: Dom)
        ensures
            r.wf(),
            r.len_spec() == 0,
            r.class_pairs().len() == 0,
            r.part_pairs().len() == 0,
            r.assigned_pairs().len() == 0,
            r.anonymous_pairs().len() == 0,
    {
        Dom {
            nodes: Vec::new(),
            classes: Vec::new(),
            parts: Vec::new(),
            assigned: Vec::new(),
            anonymous: Vec::new(),
        }
    }

    /// The number of nodes.
    pub fn len(&self) -> (r: usize)
        ensures
            r == self.len_spec(),
    {
        self.nodes.len()
    }

    /// The node at index `i`.
    pub fn get(&self, i: usize) -> (r: Node)
        requires
            i < self.len_spec(),
        ensures
            r == self.node(i as int),
    {
        self.nodes[i]
    }

    /// Whether node `i` is an element (not a shadow root).
    pub fn is_element(&self, i: usize) -> (r: bool)
        requires
            i < self.len_spec(),
        ensures
            r == self.is_element_spec(i as int),
    {
        self.nodes[i].is_element
    }

    /// Appends a node as the last child of `parent` (or as a root when
    /// `parent` is `None`) and returns its index.
    fn append(&mut self, is_element: bool, parent: Option<usize>) -> (r: usize)
        requires
            old(self).wf(),
            old(self).len_spec() < usize::MAX,
            in_range(parent, old(self).len_spec() as int),
        ensures
            final(self).wf(),
            r == old(self).len_spec(),
            final(self).len_spec() == old(self).len_spec() + 1,
            final(self).node(r as int).is_element == is_element,
            final(self).node(r as int).parent == parent,
            final(self).node(r as int).shadow_root.is_none(),
            final(self).node(r as int).pseudo.is_none(),
            final(self).class_pairs() == old(self).class_pairs(),
            final(self).part_pairs() == old(self).part_pairs(),
            final(self).assigned_pairs() == old(self).assigned_pairs(),
            final(self).anonymous_pairs() == old(self).anonymous_pairs(),
            forall|i: int| 0 <= i < old(self).len_spec() ==> (#[trigger] final(self).node(i)).is_element
                == old(self).node(i).is_element,
    {
        let n = self.nodes.len();
        let ghost old_nodes = self.nodes@;
        match parent {
            None => {
                self.nodes.push(Node::fresh(is_element, None, None));
            },
            Some(p) => {
                let mut pn = self.nodes[p];
                proof {
                    assert(old_nodes[p as int].wf_at(p as int, n as int));
                }
                let last = pn.last_child;
                match last {
                    Some(l) => {
                        let mut ln = self.nodes[l];
                        ln.next_sibling = Some(n);
                        self.nodes.set(l, ln);
                    },
                    None => {
                        pn.first_child = Some(n);
                    },
                }
                pn.last_child = Some(n);
                self.nodes.set(p, pn);
                self.nodes.push(Node::fresh(is_element, Some(p), last));
            },
        }
        proof {
            let len = self.nodes@.len() as int;
            assert forall|i: int| 0 <= i < len implies #[trigger] self.nodes@[i].wf_at(i, len) by {
                if i < n {
                    assert(old_nodes[i].wf_at(i, n as int));
                }
            }
        }
        n
    }
    /// Replaces node `i` by `nd`, which keeps the arena's rule.
    fn replace_node(&mut self, i: usize, nd: Node)
        requires
            old(self).wf(),
            i < old(self).len_spec(),
            nd.wf_at(i as int, old(self).len_spec() as int),
        ensures
            final(self).wf(),
            final(self).nodes@ == old(self).nodes@.update(i as int, nd),
            final(self).class_pairs() == old(self).class_pairs(),
            final(self).part_pairs() == old(self).part_pairs(),
            final(self).assigned_pairs() == old(self).assigned_pairs(),
            final(self).anonymous_pairs() == old(self).anonymous_pairs(),
    {
        let ghost old_nodes = self.nodes@;
        self.nodes.set(i, nd);
        proof {
            let len = self.nodes@.len() as int;
            assert forall|k: int| 0 <= k < len implies #[trigger] self.nodes@[k].wf_at(k, len) by {
                if k != i {
                    assert(old_nodes[k].wf_at(k, len));
                }
            }
        }
    }

    /// Creates an element as the last child of `parent`, or as a root when
    /// `parent` is `None`, and returns its index.
    pub fn create_element(&mut self, parent: Option<usize>) -> (r: usize)
        requires
            old(self).wf(),
            old(self).len_spec() < usize::MAX,
            in_range(parent, old(self).len_spec() as int),
        ensures
            final(self).wf(),
            r == old(self).len_spec(),
            final(self).len_spec() == old(self).len_spec() + 1,
            final(self).is_element_spec(r as int),
            final(self).node(r as int).parent == parent,
    {
        self.append(true, parent)
    }

    /// Attaches a shadow root to `host` and returns it; a host that already
    /// has one keeps it, and it is returned.
    pub fn attach_shadow(&mut self, host: usize) -> (r: usize)
        requires
            old(self).wf(),
            old(self).len_spec() < usize::MAX,
            host < old(self).len_spec(),
        ensures
            final(self).wf(),
            final(self).node(host as int).shadow_root == Some(r),
            r < final(self).len_spec(),
            old(self).node(host as int).shadow_root.is_none() ==> !final(self).is_element_spec(r as int),
            old(self).node(host as int).shadow_root.is_some() ==> *final(self) == *old(self),
    {
        match self.nodes[host].shadow_root {
            Some(existing) => {
                proof {
                    assert(self.nodes@[host as int].wf_at(host as int, self.nodes@.len() as int));
                }
                existing
            },
            None => {
                let r = self.append(false, None);
                let mut hn = self.nodes[host];
                proof {
                    assert(self.nodes@[host as int].wf_at(host as int, self.nodes@.len() as int));
                }
                hn.shadow_root = Some(r);
                self.replace_node(host, hn);
                r
            },
        }
    }

    /// Creates the root of an anonymous-content subtree of `host` (the box of
    /// a pseudo-element such as `::before`, named by `pseudo`).
    pub fn add_anonymous_content(&mut self, host: usize, pseudo: Option<u32>) -> (r: usize)
        requires
            old(self).wf(),
            old(self).len_spec() < usize::MAX,
            host < old(self).len_spec(),
        ensures
            final(self).wf(),
            r == old(self).len_spec(),
            final(self).is_element_spec(r as int),
            final(self).node(r as int).pseudo == pseudo,
            final(self).anonymous_pairs() == old(self).anonymous_pairs().push((host, r)),
    {
        let r = self.append(true, None);
        let mut nd = self.nodes[r];
        proof {
            assert(self.nodes@[r as int].wf_at(r as int, self.nodes@.len() as int));
        }
        nd.pseudo = pseudo;
        self.replace_node(r, nd);
        self.anonymous.push((host, r));
        r
    }

    /// Assigns `node` to `slot`. The assignment is kept only where `node`
    /// comes after `slot` in the arena (build the shadow tree before the
    /// light children); the result says whether it was kept.
    pub fn assign_to_slot(&mut self, slot: usize, node: usize) -> (r: bool)
        requires
            old(self).wf(),
        ensures
            final(self).wf(),
            r == (slot < node && node < old(self).len_spec()),
            r ==> final(self).assigned_pairs() == old(self).assigned_pairs().push((slot, node)),
            !r ==> *final(self) == *old(self),
            final(self).nodes@ == old(self).nodes@,
    {
        if slot < node && node < self.nodes.len() {
            self.assigned.push((slot, node));
            true
        } else {
            false
        }
    }

    /// Marks `e` as a `<slot>` element.
    pub fn set_slot(&mut self, e: usize)
        requires
            old(self).wf(),
            e < old(self).len_spec(),
        ensures
            final(self).wf(),
            final(self).node(e as int).is_slot,
            final(self).len_spec() == old(self).len_spec(),
    {
        let mut nd = self.nodes[e];
        proof {
            assert(self.nodes@[e as int].wf_at(e as int, self.nodes@.len() as int));
        }
        nd.is_slot = true;
        self.replace_node(e, nd);
    }

    /// Marks `e` as exporting parts of its shadow tree (`exportparts`).
    pub fn set_exports_parts(&mut self, e: usize)
        requires
            old(self).wf(),
            e < old(self).len_spec(),
        ensures
            final(self).wf(),
            final(self).node(e as int).exports_parts,
            final(self).len_spec() == old(self).len_spec(),
    {
        let mut nd = self.nodes[e];
        proof {
            assert(self.nodes@[e as int].wf_at(e as int, self.nodes@.len() as int));
        }
        nd.exports_parts = true;
        self.replace_node(e, nd);
    }

    /// Adds `class` to the classes of `e`.
    pub fn add_class(&mut self, e: usize, class: u32)
        requires
            old(self).wf(),
            e < old(self).len_spec(),
        ensures
            final(self).wf(),
            final(self).nodes@ == old(self).nodes@,
            final(self).class_pairs() == old(self).class_pairs().push((e, class)),
    {
        self.classes.push((e, class));
    }

    /// Adds `name` to the `part` attribute of `e`.
    pub fn add_part(&mut self, e: usize, name: u32)
        requires
            old(self).wf(),
            e < old(self).len_spec(),
        ensures
            final(self).wf(),
            final(self).nodes@ == old(self).nodes@,
            final(self).part_pairs() == old(self).part_pairs().push((e, name)),
    {
        self.parts.push((e, name));
    }

    /// The next sibling of `e` in the live tree.
    pub fn next_sibling_element(&self, e: usize) -> (r: Option<usize>)
        requires
            e < self.len_spec(),
        ensures
            r == self.node(e as int).next_sibling,
    {
        self.nodes[e].next_sibling
    }

    /// The previous sibling of `e` in the live tree.
    pub fn prev_sibling_element(&self, e: usize) -> (r: Option<usize>)
        requires
            e < self.len_spec(),
        ensures
            r == self.node(e as int).prev_sibling,
    {
        self.nodes[e].prev_sibling
    }

    /// Whether `e` carries `class`.
    pub fn has_class(&self, e: usize, class: u32) -> (r: bool)
        ensures
            r == self.has_class_spec(e as int, class),
    {
        let mut j: usize = 0;
        while j < self.classes.len()
            invariant
                j <= self.classes@.len(),
                forall|k: int| 0 <= k < j ==> self.classes@[k] != (e, class),
            decreases self.classes@.len() - j,
        {
            if self.classes[j].0 == e && self.classes[j].1 == class {
                return true;
            }
            j += 1;
        }
        false
    }

    /// Whether the `part` attribute of `e` holds `name`.
    pub fn has_part(&self, e: usize, name: u32) -> (r: bool)
        ensures
            r == self.has_part_spec(e as int, name),
    {
        let mut j: usize = 0;
        while j < self.parts.len()
            invariant
                j <= self.parts@.len(),
                forall|k: int| 0 <= k < j ==> self.parts@[k] != (e, name),
            decreases self.parts@.len() - j,
        {
            if self.parts[j].0 == e && self.parts[j].1 == name {
                return true;
            }
            j += 1;
        }
        false
    }

    /// Whether `e` has a `part` attribute.
    pub fn has_part_attr(&self, e: usize) -> (r: bool)
        ensures
            r == self.has_part_attr_spec(e as int),
    {
        let mut j: usize = 0;
        while j < self.parts.len()
            invariant
                j <= self.parts@.len(),
                forall|k: int| 0 <= k < j ==> self.parts@[k].0 != e,
            decreases self.parts@.len() - j,
        {
            if self.parts[j].0 == e {
                return true;
            }
            j += 1;
        }
        false
    }
}

} // verus!
