//! The arena-backed document tree.
//!
//! Nodes live in a vector and are addressed by index. Every node but the
//! root records its parent, and every node records its children in document
//! order. A child is always appended after its parent, so a parent's index
//! is strictly smaller than any of its children's indices; that order is
//! what every walk up or down the tree terminates on.

use vstd::prelude::*;

verus! {

/// An element node's payload: a tag name and its attributes, in insertion
/// order, with unique names per attribute.
#[derive(Debug)]
pub struct ElementData {
    pub name: String,
    pub attrs: Vec<(String, String)>,
}

/// One node of the document tree.
#[derive(Debug)]
pub enum Node {
    /// The root of a parsed document.
    Document,
    /// An element, carrying its tag name and attributes.
    Element(ElementData),
    /// A text node.
    Text(String),
    /// A comment node.
    Comment(String),
}

#[derive(Debug)]
struct TreeNode {
    value: Node,
    parent: Option<usize>,
    children: Vec<usize>,
}

/// The arena of nodes. Built once, then only read.
#[derive(Debug)]
pub struct Tree {
    nodes: Vec<TreeNode>,
}

impl ElementData {
    /// The attribute value for `name`: the first pair with that name, if any.
    pub open spec fn spec_attr(self, name: Seq<char>) -> Option<Seq<char>> {
        Self::attr_from(self.attrs@, name, 0)
    }

    /// Lookup of `name` among the pairs of `attrs` from position `i` on.
    pub open spec fn attr_from(attrs: Seq<(String, String)>, name: Seq<char>, i: int) -> Option<
        Seq<char>,
    >
        decreases attrs.len() - i,
    {
        if i < 0 || i >= attrs.len() {
            None
        } else if attrs[i].0@ == name {
            Some(attrs[i].1@)
        } else {
            Self::attr_from(attrs, name, i + 1)
        }
    }
}

impl ElementData {
    /// The attribute value for `name`, or absence; exact name match, no
    /// normalization.
    pub fn attr(&self, name: &str) -> (r: Option<String>)
        ensures
            (r is Some) == (self.spec_attr(name@) is Some),
            r matches Some(v) ==> Some(v@) == self.spec_attr(name@),
    {
        let mut i: usize = 0;
        while i < self.attrs.len()
            invariant
                i <= self.attrs@.len(),
                Self::attr_from(self.attrs@, name@, 0) == Self::attr_from(
                    self.attrs@,
                    name@,
                    i as int,
                ),
            decreases self.attrs@.len() - i,
        {
            if crate::strutil::str_eq(self.attrs[i].0.as_str(), name) {
                return Some(self.attrs[i].1.clone());
            }
            i = i + 1;
        }
        None
    }

    /// The element's tag name.
    pub fn name(&self) -> (r: &str)
        ensures
            r@ == self.name@,
    {
        self.name.as_str()
    }
}

impl Tree {
    /// The number of nodes in the arena.
    pub closed spec fn spec_len(self) -> nat {
        self.nodes@.len()
    }

    /// The parent of node `i`, if `i` is not the root.
    pub closed spec fn parent_of(self, i: int) -> Option<usize> {
        self.nodes@[i].parent
    }

    /// The children of node `i`, in document order.
    pub closed spec fn children_of(self, i: int) -> Seq<usize> {
        self.nodes@[i].children@
    }

    /// The value stored at node `i`.
    pub closed spec fn node_of(self, i: int) -> Node {
        self.nodes@[i].value
    }

    /// Whether node `i` exists and is an element.
    pub open spec fn is_element(self, i: int) -> bool {
        0 <= i < self.spec_len() && self.node_of(i) is Element
    }

    /// The tag name of element `i`.
    pub open spec fn name_of(self, i: int) -> Seq<char>
        recommends
            self.is_element(i),
    {
        self.node_of(i)->Element_0.name@
    }

    /// The attribute value `name` of element `i`.
    pub open spec fn attr_of(self, i: int, name: Seq<char>) -> Option<Seq<char>>
        recommends
            self.is_element(i),
    {
        self.node_of(i)->Element_0.spec_attr(name)
    }

    /// Well-formedness: one root at index 0 with no parent; every other node
    /// has a parent with a smaller index; parent and child lists agree; no
    /// node is listed twice as a child.
    pub open spec fn wf(self) -> bool {
        &&& 1 <= self.spec_len()
        &&& self.parent_of(0) is None
        &&& forall|i: int|
            1 <= i < self.spec_len() ==> (#[trigger] self.parent_of(i)) is Some
                && self.parent_of(i)->Some_0 < i
        &&& forall|i: int, k: int|
            0 <= i < self.spec_len() && 0 <= k < self.children_of(i).len() ==> {
                &&& i < #[trigger] self.children_of(i)[k] < self.spec_len()
                &&& self.parent_of(self.children_of(i)[k] as int) == Some(i as usize)
            }
        &&& forall|i: int|
            1 <= i < self.spec_len() ==> #[trigger] self.children_of(
                self.parent_of(i)->Some_0 as int,
            ).contains(i as usize)
        &&& forall|i: int, k1: int, k2: int|
            0 <= i < self.spec_len() && 0 <= k1 < k2 < self.children_of(i).len()
                ==> #[trigger] self.children_of(i)[k1] != #[trigger] self.children_of(i)[k2]
    }

    /// The arena's size fits a machine word.
    pub proof fn lemma_len_bound(self)
        ensures
            self.spec_len() <= usize::MAX,
    {
        broadcast use vstd::std_specs::vec::axiom_spec_len;

        assert(vstd::std_specs::vec::spec_vec_len(&self.nodes) == self.nodes@.len());
    }

    /// A fresh tree holding only a document root.
    pub fn new() -> (t: Tree)
        ensures
            t.wf(),
            t.spec_len() == 1,
            t.node_of(0) == Node::Document,
            t.children_of(0) == Seq::<usize>::empty(),
    {
        let mut nodes: Vec<TreeNode> = Vec::new();
        nodes.push(TreeNode { value: Node::Document, parent: None, children: Vec::new() });
        let t = Tree { nodes };
        proof {
            assert(t.children_of(0) =~= Seq::<usize>::empty());
        }
        t
    }

    /// Appends `value` as the last child of `parent` and returns its index.
    pub fn append_child(&mut self, parent: usize, value: Node) -> (id: usize)
        requires
            old(self).wf(),
            parent < old(self).spec_len(),
            old(self).spec_len() < usize::MAX,
        ensures
            final(self).wf(),
            id == old(self).spec_len(),
            final(self).spec_len() == old(self).spec_len() + 1,
            final(self).parent_of(id as int) == Some(parent),
            final(self).node_of(id as int) == value,
            final(self).children_of(id as int) == Seq::<usize>::empty(),
            final(self).children_of(parent as int) == old(self).children_of(parent as int).push(id),
            forall|i: int|
                0 <= i < old(self).spec_len() ==> #[trigger] final(self).node_of(i) == old(self).node_of(
                    i,
                ) && final(self).parent_of(i) == old(self).parent_of(i),
            forall|i: int|
                0 <= i < old(self).spec_len() && i != parent ==> #[trigger] final(self).children_of(i)
                    == old(self).children_of(i),
    {
        let id = self.nodes.len();
        self.nodes.push(TreeNode { value, parent: Some(parent), children: Vec::new() });
        self.nodes[parent].children.push(id);
        proof {
            assert(self.children_of(id as int) =~= Seq::<usize>::empty());
            assert(self.children_of(parent as int) =~= old(self).children_of(
                parent as int,
            ).push(id));
            assert forall|i: int|
                0 <= i < old(self).spec_len() && i != parent implies #[trigger] self.children_of(i)
                == old(self).children_of(i) by {
                assert(self.children_of(i) =~= old(self).children_of(i));
            }
            assert forall|i: int, k: int|
                0 <= i < self.spec_len() && 0 <= k < self.children_of(i).len() implies {
                &&& i < #[trigger] self.children_of(i)[k] < self.spec_len()
                &&& self.parent_of(self.children_of(i)[k] as int) == Some(i as usize)
            } by {
                if i == parent && k == self.children_of(i).len() - 1 {
                    assert(self.children_of(i)[k] == id);
                } else {
                    assert(self.children_of(i)[k] == old(self).children_of(i)[k]);
                    assert(i < old(self).children_of(i)[k] < old(self).spec_len());
                }
            }
            assert forall|i: int|
                1 <= i < self.spec_len() implies #[trigger] self.children_of(
                self.parent_of(i)->Some_0 as int,
            ).contains(i as usize) by {
                if i == id {
                    let cs = self.children_of(parent as int);
                    assert(cs[cs.len() - 1] == id);
                } else {
                    let p = old(self).parent_of(i)->Some_0 as int;
                    let cs = old(self).children_of(p);
                    assert(cs.contains(i as usize));
                    let k = choose|k: int| 0 <= k < cs.len() && cs[k] == i as usize;
                    assert(0 <= p < old(self).spec_len());
                    assert(self.children_of(p)[k] == i as usize);
                    assert(self.children_of(p).contains(i as usize));
                }
            }
            assert forall|i: int, k1: int, k2: int|
                0 <= i < self.spec_len() && 0 <= k1 < k2 < self.children_of(i).len() implies self.children_of(
                i,
            )[k1] != self.children_of(i)[k2] by {
                if i == parent && k2 == self.children_of(i).len() - 1 {
                    assert(self.children_of(i)[k1] == old(self).children_of(i)[k1]);
                    assert(old(self).children_of(i)[k1] < old(self).spec_len());
                } else {
                    assert(self.children_of(i)[k1] == old(self).children_of(i)[k1]);
                    assert(self.children_of(i)[k2] == old(self).children_of(i)[k2]);
                }
            }
            assert(1 <= self.spec_len());
            assert(self.parent_of(0) is None);
            assert forall|i: int|
                1 <= i < self.spec_len() implies (#[trigger] self.parent_of(i)) is Some
                && self.parent_of(i)->Some_0 < i by {
                if i < old(self).spec_len() {
                    assert(self.parent_of(i) == old(self).parent_of(i));
                } else {
                    assert(self.parent_of(i) == Some(parent));
                }
            }
        }
        id
    }

    /// The number of nodes.
    pub fn len(&self) -> (n: usize)
        ensures
            n == self.spec_len(),
    {
        self.nodes.len()
    }

    /// The parent of node `i`.
    pub fn parent(&self, i: usize) -> (p: Option<usize>)
        requires
            i < self.spec_len(),
        ensures
            p == self.parent_of(i as int),
    {
        self.nodes[i].parent
    }

    /// The children of node `i`, in document order.
    pub fn children(&self, i: usize) -> (c: &Vec<usize>)
        requires
            i < self.spec_len(),
        ensures
            c@ == self.children_of(i as int),
    {
        &self.nodes[i].children
    }

    /// The value at node `i`.
    pub fn node(&self, i: usize) -> (n: &Node)
        requires
            i < self.spec_len(),
        ensures
            n == self.node_of(i as int),
    {
        &self.nodes[i].value
    }

    /// Whether node `i` is an element.
    pub fn is_elem(&self, i: usize) -> (r: bool)
        requires
            i < self.spec_len(),
        ensures
            r == self.is_element(i as int),
    {
        match self.node(i) {
            Node::Element(_) => true,
            _ => false,
        }
    }

    /// The number of element nodes among the first `k` entries of `s`.
    pub open spec fn count_elems(self, s: Seq<usize>, k: int) -> nat
        decreases k,
    {
        if k <= 0 || k > s.len() {
            0
        } else {
            self.count_elems(s, k - 1) + (if self.is_element(s[k - 1] as int) {
                1nat
            } else {
                0nat
            })
        }
    }

    /// At most `k` of the first `k` entries are elements.
    pub proof fn lemma_count_elems_le(self, s: Seq<usize>, k: int)
        requires
            0 <= k <= s.len(),
        ensures
            self.count_elems(s, k) <= k,
        decreases k,
    {
        if k > 0 {
            self.lemma_count_elems_le(s, k - 1);
        }
    }

    /// The 1-based position of node `e` among the element children of its
    /// parent; 1 for the root.
    pub open spec fn nth_index(self, e: int) -> nat
        recommends
            self.wf(),
            0 <= e < self.spec_len(),
    {
        match self.parent_of(e) {
            None => 1,
            Some(p) => {
                let sibs = self.children_of(p as int);
                let k = sibs.index_of(e as usize);
                self.count_elems(sibs, k) + 1
            },
        }
    }

    /// Positional numbering is local to a scope's subtree: the parent of a
    /// strict descendant of `scope` is `scope` itself or again a strict
    /// descendant of `scope`, and `nth_index` reads only that parent's
    /// child list — so numbering under a scope never depends on the
    /// element's position in the rest of the document.
    pub proof fn lemma_nth_index_scope_local(self, scope: int, e: int)
        requires
            self.wf(),
            self.is_ancestor(scope, e),
        ensures
            self.parent_of(e) matches Some(p) && (p == scope || self.is_ancestor(scope, p as int)),
            self.nth_index(e) == ({
                let sibs = self.children_of(self.parent_of(e)->Some_0 as int);
                self.count_elems(sibs, sibs.index_of(e as usize)) + 1
            }),
    {
        self.lemma_ancestor_smaller(scope, e);
    }

    /// Computes `nth_index` by scanning the parent's child list.
    pub fn compute_nth_index(&self, e: usize) -> (n: usize)
        requires
            self.wf(),
            e < self.spec_len(),
        ensures
            n == self.nth_index(e as int),
    {
        match self.parent(e) {
            None => 1,
            Some(p) => {
                let cs = self.children(p);
                proof {
                    assert(e >= 1);
                    let ei: int = e as int;
                    assert(self.children_of(self.parent_of(ei)->Some_0 as int).contains(
                        ei as usize,
                    ));
                    assert(ei as usize == e);
                }
                let mut k: usize = 0;
                let mut count: usize = 0;
                while k < cs.len()
                    invariant
                        self.wf(),
                        e < self.spec_len(),
                        p < self.spec_len(),
                        self.parent_of(e as int) == Some(p),
                        cs@ == self.children_of(p as int),
                        cs@.contains(e),
                        k < cs@.len(),
                        count == self.count_elems(cs@, k as int),
                        count <= k,
                        forall|m: int| 0 <= m < k ==> cs@[m] != e,
                    decreases cs@.len() - k,
                {
                    if cs[k] == e {
                        proof {
                            let sibs = self.children_of(p as int);
                            let ki = sibs.index_of(e);
                            assert(sibs[k as int] == e);
                            assert(0 <= ki < sibs.len() && sibs[ki] == e);
                            if ki != k as int {
                                assert(sibs[ki] == sibs[k as int]);
                                assert(false);
                            }
                        }
                        return count + 1;
                    }
                    let ghost k0 = k as int;
                    if self.is_elem(cs[k]) {
                        count = count + 1;
                    }
                    k = k + 1;
                    proof {
                        assert(k as int == k0 + 1);
                        assert(count == self.count_elems(cs@, k0 + 1));
                        let w = choose|w: int| 0 <= w < cs@.len() && cs@[w] == e;
                        assert(k0 < w);
                    }
                }
                // never reached: the parent's child list always holds `e`
                proof {
                    assert(false);
                }
                1
            },
        }
    }

    /// Whether `a` is a strict ancestor of `d`: `a` occurs somewhere on the
    /// parent chain that leads from `d` up to the root.
    pub open spec fn is_ancestor(self, a: int, d: int) -> bool
        decreases d,
    {
        if 0 <= d < self.spec_len() {
            match self.parent_of(d) {
                Some(p) => if (p as int) < d {
                    a == p || self.is_ancestor(a, p as int)
                } else {
                    false
                },
                None => false,
            }
        } else {
            false
        }
    }

    /// An ancestor always has a smaller index than its descendant.
    pub proof fn lemma_ancestor_smaller(self, a: int, d: int)
        requires
            self.wf(),
            self.is_ancestor(a, d),
        ensures
            0 <= a < d,
        decreases d,
    {
        let p = self.parent_of(d)->Some_0 as int;
        if a != p {
            self.lemma_ancestor_smaller(a, p);
        }
    }

    /// The ancestor relation is transitive along the parent chain.
    pub proof fn lemma_ancestor_transitive(self, a: int, b: int, c: int)
        requires
            self.wf(),
            self.is_ancestor(a, b),
            self.is_ancestor(b, c),
        ensures
            self.is_ancestor(a, c),
        decreases c,
    {
        self.lemma_ancestor_smaller(b, c);
        let p = self.parent_of(c)->Some_0 as int;
        if b != p {
            self.lemma_ancestor_transitive(a, b, p);
        }
    }

    /// No node is its own ancestor; in particular the relation is false for
    /// siblings and for nodes of unrelated subtrees, which are not on each
    /// other's parent chains.
    pub proof fn lemma_ancestor_irreflexive(self, a: int)
        requires
            self.wf(),
        ensures
            !self.is_ancestor(a, a),
    {
        if self.is_ancestor(a, a) {
            self.lemma_ancestor_smaller(a, a);
        }
    }

    /// Walks the parent chain upward from `d` and reports whether `a` is
    /// encountered before the root.
    pub fn has_ancestor(&self, d: usize, a: usize) -> (r: bool)
        requires
            self.wf(),
            d < self.spec_len(),
        ensures
            r == self.is_ancestor(a as int, d as int),
    {
        let mut cur: usize = d;
        loop
            invariant
                self.wf(),
                cur < self.spec_len(),
                self.is_ancestor(a as int, d as int) == self.is_ancestor(a as int, cur as int),
            decreases cur,
        {
            match self.parent(cur) {
                None => {
                    return false;
                },
                Some(p) => {
                    if p == a {
                        return true;
                    }
                    cur = p;
                },
            }
        }
    }

    /// The nodes of the subtree rooted at `i`, in document (pre-)order.
    pub open spec fn preorder(self, i: int) -> Seq<usize>
        decreases self.spec_len() - i, 1int, 0int,
    {
        if 0 <= i < self.spec_len() {
            seq![i as usize] + self.preorder_children(i, 0)
        } else {
            Seq::empty()
        }
    }

    /// The concatenation of the subtrees of the children of `i` from rank
    /// `k` on, in document order. With `k == 0` this is exactly the strict
    /// descendants of `i`.
    pub open spec fn preorder_children(self, i: int, k: int) -> Seq<usize>
        decreases self.spec_len() - i, 0int, self.children_of(i).len() - k,
    {
        if 0 <= i < self.spec_len() && 0 <= k < self.children_of(i).len() {
            let c = self.children_of(i)[k] as int;
            (if i < c < self.spec_len() {
                self.preorder(c)
            } else {
                Seq::empty()
            }) + self.preorder_children(i, k + 1)
        } else {
            Seq::empty()
        }
    }

    /// Every node of the subtree below `i` is `i` itself or has `i` as a
    /// strict ancestor.
    pub proof fn lemma_preorder_is_descendant(self, i: int, j: usize)
        requires
            self.wf(),
            self.preorder(i).contains(j),
        ensures
            j == i || self.is_ancestor(i, j as int),
        decreases self.spec_len() - i, 1int, 0int,
    {
        if j != i {
            let s = self.preorder(i);
            let idx = choose|idx: int| 0 <= idx < s.len() && s[idx] == j;
            assert(0 <= i < self.spec_len());
            self.lemma_len_bound();
            assert(s == seq![i as usize] + self.preorder_children(i, 0));
            assert(idx != 0);
            assert(self.preorder_children(i, 0)[idx - 1] == j);
            assert(self.preorder_children(i, 0).contains(j));
            self.lemma_preorder_children_is_descendant(i, 0, j);
        }
    }

    /// Every node in the child subtrees of `i` from rank `k` on has `i` as a
    /// strict ancestor.
    pub proof fn lemma_preorder_children_is_descendant(self, i: int, k: int, j: usize)
        requires
            self.wf(),
            self.preorder_children(i, k).contains(j),
        ensures
            self.is_ancestor(i, j as int),
        decreases self.spec_len() - i, 0int, self.children_of(i).len() - k,
    {
        let s = self.preorder_children(i, k);
        let c = self.children_of(i)[k] as int;
        let idx = choose|idx: int| 0 <= idx < s.len() && s[idx] == j;
        let head = self.preorder(c);
        if idx < head.len() {
            assert(head.contains(j));
            self.lemma_preorder_is_descendant(c, j);
            assert(self.is_ancestor(i, c));
            if j != c {
                self.lemma_ancestor_transitive(i, c, j as int);
            }
        } else {
            assert(self.preorder_children(i, k + 1)[idx - head.len()] == j);
            self.lemma_preorder_children_is_descendant(i, k + 1, j);
        }
    }

    /// Whatever lies in the subtree of the `k`-th child of `i` lies in the
    /// concatenation of the child subtrees from any rank `m <= k` on.
    pub proof fn lemma_subtree_in_children(self, i: int, m: int, k: int, x: usize)
        requires
            self.wf(),
            0 <= i < self.spec_len(),
            0 <= m <= k < self.children_of(i).len(),
            self.preorder(self.children_of(i)[k] as int).contains(x),
        ensures
            self.preorder_children(i, m).contains(x),
        decreases k - m,
    {
        let c = self.children_of(i)[m] as int;
        let head = self.preorder(c);
        let tail = self.preorder_children(i, m + 1);
        if m == k {
            let idx = choose|idx: int| 0 <= idx < head.len() && head[idx] == x;
            assert(self.preorder_children(i, m)[idx] == x);
        } else {
            self.lemma_subtree_in_children(i, m + 1, k, x);
            let idx = choose|idx: int| 0 <= idx < tail.len() && tail[idx] == x;
            assert(self.preorder_children(i, m)[idx + head.len()] == x);
        }
    }

    /// Everything in the subtree of a strict descendant of `i` lies among
    /// the strict descendants of `i`; in particular every strict descendant
    /// of `i` is listed by `preorder_children(i, 0)`.
    pub proof fn lemma_descendant_in_preorder(self, i: int, j: int, x: usize)
        requires
            self.wf(),
            self.is_ancestor(i, j),
            self.preorder(j).contains(x),
        ensures
            self.preorder_children(i, 0).contains(x),
        decreases j,
    {
        let p = self.parent_of(j)->Some_0 as int;
        let cs = self.children_of(p);
        assert(self.children_of(self.parent_of(j)->Some_0 as int).contains(j as usize));
        let k = choose|k: int| 0 <= k < cs.len() && cs[k] == j as usize;
        self.lemma_len_bound();
        if p == i {
            self.lemma_subtree_in_children(i, 0, k, x);
        } else {
            self.lemma_subtree_in_children(p, 0, k, x);
            let pcp = self.preorder_children(p, 0);
            let idx = choose|idx: int| 0 <= idx < pcp.len() && pcp[idx] == x;
            assert(self.preorder(p)[idx + 1] == x);
            assert(self.preorder(p).contains(x));
            self.lemma_descendant_in_preorder(i, p, x);
        }
    }

    /// Appends the subtree rooted at `i`, in document order, to `out`.
    pub fn push_preorder(&self, i: usize, out: &mut Vec<usize>)
        requires
            self.wf(),
            i < self.spec_len(),
        ensures
            final(out)@ == old(out)@ + self.preorder(i as int),
        decreases self.spec_len() - i,
    {
        out.push(i);
        let cs = self.children(i);
        let ghost base = out@;
        let mut k: usize = 0;
        while k < cs.len()
            invariant
                self.wf(),
                i < self.spec_len(),
                cs@ == self.children_of(i as int),
                k <= cs@.len(),
                out@ + self.preorder_children(i as int, k as int) == old(out)@ + self.preorder(
                    i as int,
                ),
            decreases cs@.len() - k,
        {
            let c = cs[k];
            let ghost before = out@;
            self.push_preorder(c, out);
            proof {
                assert(out@ + self.preorder_children(i as int, k + 1) =~= before
                    + self.preorder_children(i as int, k as int));
            }
            k = k + 1;
        }
        proof {
            assert(out@ + self.preorder_children(i as int, k as int) =~= out@);
        }
    }

    /// Appends the strict descendants of `i`, in document order, to `out`.
    pub fn push_descendants(&self, i: usize, out: &mut Vec<usize>)
        requires
            self.wf(),
            i < self.spec_len(),
        ensures
            final(out)@ == old(out)@ + self.preorder_children(i as int, 0),
    {
        let cs = self.children(i);
        let mut k: usize = 0;
        while k < cs.len()
            invariant
                self.wf(),
                i < self.spec_len(),
                cs@ == self.children_of(i as int),
                k <= cs@.len(),
                out@ + self.preorder_children(i as int, k as int) == old(out)@
                    + self.preorder_children(i as int, 0),
            decreases cs@.len() - k,
        {
            let c = cs[k];
            let ghost before = out@;
            self.push_preorder(c, out);
            proof {
                assert(out@ + self.preorder_children(i as int, k + 1) =~= before
                    + self.preorder_children(i as int, k as int));
            }
            k = k + 1;
        }
        proof {
            assert(out@ + self.preorder_children(i as int, k as int) =~= out@);
        }
    }
}

} // verus!
