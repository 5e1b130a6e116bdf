//! Element references and the lazy query iterators built on them.

use vstd::prelude::*;

use crate::selector::NthIndexCache;
use crate::selector::Selector;
use crate::serialize;
use crate::tree::ElementData;
use crate::tree::Node;
use crate::tree::Tree;

verus! {

/// A read-only, copyable handle to one element node of a tree: the
/// borrowed tree together with the node's arena index. Equality of two
/// handles into the same tree is identity of the index.
#[derive(Debug, Clone, Copy)]
pub struct ElementRef<'a> {
    pub tree: &'a Tree,
    pub id: usize,
}

/// The element indices among the first `k` entries of `s`, in order.
pub open spec fn elems_of(t: Tree, s: Seq<usize>, k: int) -> Seq<usize>
    decreases k,
{
    if k <= 0 || k > s.len() {
        Seq::empty()
    } else {
        elems_of(t, s, k - 1) + (if t.is_element(s[k - 1] as int) {
            seq![s[k - 1]]
        } else {
            Seq::empty()
        })
    }
}

/// Everything `elems_of` keeps is an element drawn from `s`.
pub proof fn lemma_elems_of_members(t: Tree, s: Seq<usize>, k: int, m: int)
    requires
        0 <= m < elems_of(t, s, k).len(),
    ensures
        t.is_element(elems_of(t, s, k)[m] as int),
        s.contains(elems_of(t, s, k)[m]),
    decreases k,
{
    if k > 0 && k <= s.len() {
        let prefix = elems_of(t, s, k - 1);
        if m < prefix.len() {
            lemma_elems_of_members(t, s, k - 1, m);
        } else {
            assert(s[k - 1] == elems_of(t, s, k)[m]);
        }
    }
}

impl<'a> ElementRef<'a> {
    /// A valid handle: the tree is well formed and the index names an
    /// element node.
    pub open spec fn wf(self) -> bool {
        self.tree.wf() && self.tree.is_element(self.id as int)
    }

    /// Wraps the node at `id` only if it is an element.
    pub fn wrap(tree: &'a Tree, id: usize) -> (r: Option<ElementRef<'a>>)
        requires
            tree.wf(),
            id < tree.spec_len(),
        ensures
            (r is Some) == tree.is_element(id as int),
            r matches Some(er) ==> er.tree == tree && er.id == id && er.wf(),
    {
        if tree.is_elem(id) {
            Some(ElementRef { tree, id })
        } else {
            None
        }
    }

    /// The element's tag name and attributes.
    pub fn value(&self) -> (r: &'a ElementData)
        requires
            self.wf(),
        ensures
            *r == self.tree.node_of(self.id as int)->Element_0,
    {
        match self.tree.node(self.id) {
            Node::Element(ed) => ed,
            _ => vstd::pervasive::unreached(),
        }
    }

    /// The value of attribute `name`, or absence.
    pub fn attr(&self, name: &str) -> (r: Option<String>)
        requires
            self.wf(),
        ensures
            (r is Some) == (self.tree.attr_of(self.id as int, name@) is Some),
            r matches Some(v) ==> Some(v@) == self.tree.attr_of(self.id as int, name@),
    {
        self.value().attr(name)
    }

    /// The markup of this element, the element itself included.
    pub fn html(&self) -> (r: String)
        requires
            self.wf(),
        ensures
            r@ == serialize::ser_node(*self.tree, self.id as int),
    {
        let mut out = String::new();
        serialize::ser_node_into(self.tree, self.id, &mut out);
        out
    }

    /// The markup of this element's contents only.
    pub fn inner_html(&self) -> (r: String)
        requires
            self.wf(),
        ensures
            r@ == serialize::ser_children(*self.tree, self.id as int, 0),
    {
        let mut out = String::new();
        serialize::ser_children_into(self.tree, self.id, &mut out);
        out
    }

    /// True iff `parent` is a strict ancestor of this element.
    pub fn is_child_of(&self, parent: &ElementRef<'a>) -> (r: bool)
        requires
            self.wf(),
            self.tree == parent.tree,
        ensures
            r == self.tree.is_ancestor(parent.id as int, self.id as int),
    {
        self.tree.has_ancestor(self.id, parent.id)
    }

    /// The immediate children that are elements, in document order.
    pub fn child_elements(&self) -> (r: Vec<ElementRef<'a>>)
        requires
            self.wf(),
        ensures
            ({
                let ids = elems_of(
                    *self.tree,
                    self.tree.children_of(self.id as int),
                    self.tree.children_of(self.id as int).len() as int,
                );
                &&& r@.len() == ids.len()
                &&& forall|m: int|
                    0 <= m < r@.len() ==> (#[trigger] r@[m]).id == ids[m] && r@[m].tree == self.tree
                        && r@[m].wf()
            }),
    {
        let cs = self.tree.children(self.id);
        collect_elements(self.tree, cs)
    }

    /// All descendant elements, in document (pre-)order.
    pub fn descendent_elements(&self) -> (r: Vec<ElementRef<'a>>)
        requires
            self.wf(),
        ensures
            ({
                let desc = self.tree.preorder_children(self.id as int, 0);
                let ids = elems_of(*self.tree, desc, desc.len() as int);
                &&& r@.len() == ids.len()
                &&& forall|m: int|
                    0 <= m < r@.len() ==> (#[trigger] r@[m]).id == ids[m] && r@[m].tree == self.tree
                        && r@[m].wf()
            }),
    {
        let mut desc: Vec<usize> = Vec::new();
        self.tree.push_descendants(self.id, &mut desc);
        proof {
            assert(desc@ =~= self.tree.preorder_children(self.id as int, 0));
            lemma_candidates_in_bounds(*self.tree, self.id as int, desc@);
        }
        collect_elements(self.tree, &desc)
    }

    /// An iterator over descendant elements matching `selector`, evaluated
    /// relative to this element as the scope.
    pub fn select<'b>(&self, selector: &'b Selector) -> (r: Select<'a, 'b>)
        requires
            self.wf(),
            selector.wf(),
        ensures
            r.wf(),
            r.scope_of() == *self,
            r.selector_of() == *selector,
            r.yields() == spec_select(
                *self.tree,
                *selector,
                self.tree.preorder_children(self.id as int, 0),
                self.id as int,
                0,
            ),
    {
        let mut candidates: Vec<usize> = Vec::new();
        self.tree.push_descendants(self.id, &mut candidates);
        proof {
            assert(candidates@ =~= self.tree.preorder_children(self.id as int, 0));
            lemma_candidates_in_bounds(*self.tree, self.id as int, candidates@);
        }
        Select {
            scope: *self,
            candidates,
            pos: 0,
            selector,
            nth_index_cache: NthIndexCache::new(),
        }
    }

    /// An iterator over the text contents of this element's subtree, in
    /// document order.
    pub fn text(&self) -> (r: Text<'a>)
        requires
            self.wf(),
        ensures
            r.wf(),
            r.tree_of() == *self.tree,
            r.yields() == spec_texts(
                *self.tree,
                self.tree.preorder(self.id as int),
                0,
            ),
    {
        let mut items: Vec<usize> = Vec::new();
        self.tree.push_preorder(self.id, &mut items);
        proof {
            assert(items@ =~= self.tree.preorder(self.id as int));
            assert forall|m: int| 0 <= m < items@.len() implies (#[trigger] items@[m])
                < self.tree.spec_len() by {
                assert(self.tree.preorder(self.id as int).contains(items@[m]));
                self.tree.lemma_preorder_is_descendant(self.id as int, items@[m]);
            }
        }
        Text { tree: self.tree, items, pos: 0 }
    }
}

/// The nodes of `cand` below `scope`, in bounds for `t`.
pub proof fn lemma_candidates_in_bounds(t: Tree, scope: int, cand: Seq<usize>)
    requires
        t.wf(),
        0 <= scope < t.spec_len(),
        cand == t.preorder_children(scope, 0),
    ensures
        forall|m: int| 0 <= m < cand.len() ==> (#[trigger] cand[m]) < t.spec_len(),
        forall|m: int| 0 <= m < cand.len() ==> t.is_ancestor(scope, #[trigger] cand[m] as int),
{
    assert forall|m: int| 0 <= m < cand.len() implies (#[trigger] cand[m]) < t.spec_len()
        && t.is_ancestor(scope, cand[m] as int) by {
        assert(t.preorder_children(scope, 0).contains(cand[m]));
        t.lemma_preorder_children_is_descendant(scope, 0, cand[m]);
    }
}

/// Builds handles for the element entries of `ids`, in order.
fn collect_elements<'a>(tree: &'a Tree, ids: &Vec<usize>) -> (r: Vec<ElementRef<'a>>)
    requires
        tree.wf(),
        forall|m: int| 0 <= m < ids@.len() ==> (#[trigger] ids@[m]) < tree.spec_len(),
    ensures
        ({
            let sel = elems_of(*tree, ids@, ids@.len() as int);
            &&& r@.len() == sel.len()
            &&& forall|m: int|
                0 <= m < r@.len() ==> (#[trigger] r@[m]).id == sel[m] && r@[m].tree == tree
                    && r@[m].wf()
        }),
{
    let mut r: Vec<ElementRef<'a>> = Vec::new();
    let mut k: usize = 0;
    while k < ids.len()
        invariant
            tree.wf(),
            k <= ids@.len(),
            forall|m: int| 0 <= m < ids@.len() ==> (#[trigger] ids@[m]) < tree.spec_len(),
            r@.len() == elems_of(*tree, ids@, k as int).len(),
            forall|m: int|
                0 <= m < r@.len() ==> (#[trigger] r@[m]).id == elems_of(*tree, ids@, k as int)[m]
                    && r@[m].tree == tree && r@[m].wf(),
        decreases ids@.len() - k,
    {
        if tree.is_elem(ids[k]) {
            r.push(ElementRef { tree, id: ids[k] });
        }
        k = k + 1;
    }
    r
}

/// The matches of `sel` among `cand` from position `k` on, in order,
/// evaluated with `scope` as the `:scope` anchor.
pub open spec fn spec_select(t: Tree, sel: Selector, cand: Seq<usize>, scope: int, k: int) -> Seq<
    usize,
>
    decreases cand.len() - k,
{
    if k < 0 || k >= cand.len() {
        Seq::empty()
    } else {
        (if t.is_element(cand[k] as int) && sel.spec_matches(t, cand[k] as int, scope) {
            seq![cand[k]]
        } else {
            Seq::empty()
        }) + spec_select(t, sel, cand, scope, k + 1)
    }
}

/// Every element a selection yields is a strict descendant of the scope —
/// never the scope itself — and matches the selector with that scope as
/// the `:scope` anchor.
pub proof fn lemma_select_sound(t: Tree, sel: Selector, cand: Seq<usize>, scope: int, k: int, m: int)
    requires
        t.wf(),
        0 <= scope < t.spec_len(),
        cand == t.preorder_children(scope, 0),
        0 <= m < spec_select(t, sel, cand, scope, k).len(),
    ensures
        t.is_ancestor(scope, spec_select(t, sel, cand, scope, k)[m] as int),
        spec_select(t, sel, cand, scope, k)[m] != scope,
        sel.spec_matches(t, spec_select(t, sel, cand, scope, k)[m] as int, scope),
    decreases cand.len() - k,
{
    if 0 <= k < cand.len() {
        let s = spec_select(t, sel, cand, scope, k);
        let kept = t.is_element(cand[k] as int) && sel.spec_matches(t, cand[k] as int, scope);
        if kept && m == 0 {
            assert(cand.contains(cand[k]));
            t.lemma_preorder_children_is_descendant(scope, 0, cand[k]);
            t.lemma_ancestor_irreflexive(scope);
        } else {
            if kept {
                lemma_select_sound(t, sel, cand, scope, k + 1, m - 1);
            } else {
                lemma_select_sound(t, sel, cand, scope, k + 1, m);
            }
        }
    }
}

/// What `spec_select` holds: exactly the candidates that are elements and
/// match the selector.
proof fn lemma_select_contains(t: Tree, sel: Selector, cand: Seq<usize>, scope: int, k: int, e: usize)
    requires
        0 <= k,
    ensures
        spec_select(t, sel, cand, scope, k).contains(e) == ((exists|j: int|
            k <= j < cand.len() && cand[j] == e) && t.is_element(e as int) && sel.spec_matches(
            t,
            e as int,
            scope,
        )),
    decreases cand.len() - k,
{
    if k < cand.len() {
        lemma_select_contains(t, sel, cand, scope, k + 1, e);
        let s = spec_select(t, sel, cand, scope, k);
        let tail = spec_select(t, sel, cand, scope, k + 1);
        let head_kept = t.is_element(cand[k] as int) && sel.spec_matches(t, cand[k] as int, scope);
        let off: int = if head_kept {
            1
        } else {
            0
        };
        if s.contains(e) {
            let idx = choose|idx: int| 0 <= idx < s.len() && s[idx] == e;
            if head_kept && idx == 0 {
                assert(cand[k] == e);
            } else {
                assert(tail[idx - off] == e);
                assert(tail.contains(e));
                let j2 = choose|j2: int| k + 1 <= j2 < cand.len() && cand[j2] == e;
                assert(k <= j2 < cand.len() && cand[j2] == e);
            }
        }
        if (exists|j: int| k <= j < cand.len() && cand[j] == e) && t.is_element(e as int)
            && sel.spec_matches(t, e as int, scope) {
            let j = choose|j: int| k <= j < cand.len() && cand[j] == e;
            if j == k {
                assert(s[0] == e);
                assert(s.contains(e));
            } else {
                assert(k + 1 <= j < cand.len() && cand[j] == e);
                assert(tail.contains(e));
                let idx = choose|idx: int| 0 <= idx < tail.len() && tail[idx] == e;
                assert(s[idx + off] == e);
                assert(s.contains(e));
            }
        }
    }
}

/// A selection misses nothing: every strict descendant of the scope that
/// is an element and matches the selector is among what the selection
/// yields.
pub proof fn lemma_select_complete(t: Tree, sel: Selector, scope: int, e: usize)
    requires
        t.wf(),
        0 <= scope < t.spec_len(),
        t.is_ancestor(scope, e as int),
        t.is_element(e as int),
        sel.spec_matches(t, e as int, scope),
    ensures
        spec_select(t, sel, t.preorder_children(scope, 0), scope, 0).contains(e),
{
    let cand = t.preorder_children(scope, 0);
    assert(t.preorder(e as int)[0] == e);
    assert(t.preorder(e as int).contains(e));
    t.lemma_descendant_in_preorder(scope, e as int, e);
    lemma_select_contains(t, sel, cand, scope, 0, e);
    assert(cand.contains(e) == (exists|j: int| 0 <= j < cand.len() && cand[j] == e));
}

/// What a selection iterator will yield is a function of the tree, the
/// scope, the selector and the position alone: two iterators that agree on
/// those agree on every future element, whatever their positional caches
/// hold. Duplicating an iterator therefore cannot let one copy's cached
/// positions affect the other's results.
pub proof fn lemma_yields_cache_independent<'a, 'b>(s1: Select<'a, 'b>, s2: Select<'a, 'b>)
    requires
        s1.scope_of() == s2.scope_of(),
        s1.selector_of() == s2.selector_of(),
        s1.cand_of() == s2.cand_of(),
        s1.pos_of() == s2.pos_of(),
    ensures
        s1.yields() == s2.yields(),
{
}

/// A filtered prefix only ever grows at its end: taking more of `s` keeps
/// the elements already kept, in the same order. With the ensured
/// equalities of `child_elements` and `descendent_elements`, this is the
/// sense in which they preserve document order.
pub proof fn lemma_elems_of_prefix(t: Tree, s: Seq<usize>, k1: int, k2: int)
    requires
        0 <= k1 <= k2 <= s.len(),
    ensures
        elems_of(t, s, k1).is_prefix_of(elems_of(t, s, k2)),
    decreases k2 - k1,
{
    if k1 < k2 {
        lemma_elems_of_prefix(t, s, k1, k2 - 1);
        assert(elems_of(t, s, k1).is_prefix_of(elems_of(t, s, k2)));
    }
}

/// Iterator over descendant elements matching a selector.
///
/// Duplicating the iterator keeps the scope, the selector and the current
/// position, but starts with a fresh positional cache; the cache never
/// changes what is yielded.
#[derive(Debug)]
pub struct Select<'a, 'b> {
    scope: ElementRef<'a>,
    candidates: Vec<usize>,
    pos: usize,
    selector: &'b Selector,
    nth_index_cache: NthIndexCache,
}

impl<'a, 'b> Select<'a, 'b> {
    /// The fixed scope element.
    pub closed spec fn scope_of(self) -> ElementRef<'a> {
        self.scope
    }

    /// The selector every yielded element matches.
    pub closed spec fn selector_of(self) -> Selector {
        *self.selector
    }

    /// The fixed scope element.
    pub fn scope(&self) -> (r: ElementRef<'a>)
        ensures
            r == self.scope_of(),
    {
        self.scope
    }

    /// The strict descendants of the scope still to be examined.
    pub closed spec fn cand_of(self) -> Seq<usize> {
        self.candidates@
    }

    /// The current position in the candidate walk.
    pub closed spec fn pos_of(self) -> int {
        self.pos as int
    }

    /// The iterator's positional cache.
    pub closed spec fn cache_of(self) -> NthIndexCache {
        self.nth_index_cache
    }

    /// A valid iterator state.
    pub open spec fn wf(self) -> bool {
        &&& self.scope_of().wf()
        &&& self.selector_of().wf()
        &&& self.cache_of().wf(*self.scope_of().tree)
        &&& 0 <= self.pos_of() <= self.cand_of().len()
        &&& self.cand_of() == self.scope_of().tree.preorder_children(self.scope_of().id as int, 0)
        &&& forall|m: int|
            0 <= m < self.cand_of().len() ==> (#[trigger] self.cand_of()[m])
                < self.scope_of().tree.spec_len()
    }

    /// The elements this iterator will still yield, in document order:
    /// exactly the remaining candidates that match the selector under the
    /// fixed scope. The positional cache does not appear here: what is
    /// yielded never depends on it.
    pub open spec fn yields(self) -> Seq<usize> {
        spec_select(
            *self.scope_of().tree,
            self.selector_of(),
            self.cand_of(),
            self.scope_of().id as int,
            self.pos_of(),
        )
    }

    /// Yields the next matching descendant element, or absence when the
    /// walk is exhausted.
    pub fn next(&mut self) -> (r: Option<ElementRef<'a>>)
        requires
            old(self).wf(),
        ensures
            final(self).wf(),
            final(self).scope_of() == old(self).scope_of(),
            final(self).selector_of() == old(self).selector_of(),
            final(self).cand_of() == old(self).cand_of(),
            old(self).yields().len() == 0 ==> r is None && final(self).yields().len() == 0,
            old(self).yields().len() > 0 ==> {
                &&& r matches Some(er)
                &&& er.tree == old(self).scope_of().tree
                &&& er.id == old(self).yields()[0]
                &&& er.wf()
                &&& final(self).yields() == old(self).yields().drop_first()
            },
    {
        let t = self.scope.tree;
        let scope_id = self.scope.id;
        loop
            invariant
                self.wf(),
                self.scope == old(self).scope,
                self.selector == old(self).selector,
                self.cand_of() == old(self).cand_of(),
                t == self.scope_of().tree,
                scope_id == self.scope_of().id,
                old(self).yields() == self.yields(),
            decreases self.cand_of().len() - self.pos_of(),
        {
            if self.pos >= self.candidates.len() {
                return None;
            }
            let c = self.candidates[self.pos];
            let ghost k0 = self.pos as int;
            let matched: bool = if t.is_elem(c) {
                self.selector.matches_with_scope_and_cache(
                    t,
                    c,
                    scope_id,
                    &mut self.nth_index_cache,
                )
            } else {
                false
            };
            self.pos = self.pos + 1;
            proof {
                assert(spec_select(*t, *self.selector, self.cand_of(), scope_id as int, k0)
                    == (if t.is_element(self.cand_of()[k0] as int) && self.selector.spec_matches(
                    *t,
                    self.cand_of()[k0] as int,
                    scope_id as int,
                ) {
                    seq![self.cand_of()[k0]]
                } else {
                    Seq::empty()
                }) + spec_select(*t, *self.selector, self.cand_of(), scope_id as int, k0 + 1));
            }
            if matched {
                proof {
                    assert(self.yields() =~= old(self).yields().drop_first());
                }
                return Some(ElementRef { tree: t, id: c });
            }
            proof {
                assert(Seq::<usize>::empty() + spec_select(
                    *t,
                    *self.selector,
                    self.cand_of(),
                    scope_id as int,
                    k0 + 1,
                ) =~= spec_select(*t, *self.selector, self.cand_of(), scope_id as int, k0 + 1));
            }
        }
    }
}

impl<'a, 'b> Clone for Select<'a, 'b> {
    /// Duplicates the iterator: same scope, selector and position, but a
    /// fresh, empty positional cache, so the copy's positional results are
    /// computed anew rather than inherited.
    fn clone(&self) -> (r: Self)
        ensures
            r.scope_of() == self.scope_of(),
            r.selector_of() == self.selector_of(),
            r.cand_of() == self.cand_of(),
            r.pos_of() == self.pos_of(),
            r.cache_of().entries_of().len() == 0,
            r.yields() == self.yields(),
            self.wf() ==> r.wf(),
    {
        let mut cand: Vec<usize> = Vec::new();
        let mut k: usize = 0;
        while k < self.candidates.len()
            invariant
                k <= self.candidates@.len(),
                cand@ == self.candidates@.take(k as int),
            decreases self.candidates@.len() - k,
        {
            cand.push(self.candidates[k]);
            proof {
                assert(cand@ =~= self.candidates@.take(k + 1int));
            }
            k = k + 1;
        }
        proof {
            assert(cand@ =~= self.candidates@);
        }
        Select {
            scope: self.scope,
            candidates: cand,
            pos: self.pos,
            selector: self.selector,
            nth_index_cache: NthIndexCache::new(),
        }
    }
}

/// The text contents among the first entries of `items` from position `k`
/// on, in document order.
pub open spec fn spec_texts(t: Tree, items: Seq<usize>, k: int) -> Seq<Seq<char>>
    decreases items.len() - k,
{
    if k < 0 || k >= items.len() {
        Seq::empty()
    } else {
        (if 0 <= items[k] < t.spec_len() && t.node_of(items[k] as int) is Text {
            seq![t.node_of(items[k] as int)->Text_0@]
        } else {
            Seq::empty()
        }) + spec_texts(t, items, k + 1)
    }
}

/// Iterator over the text nodes of a subtree, in document order.
#[derive(Debug, Clone)]
pub struct Text<'a> {
    tree: &'a Tree,
    items: Vec<usize>,
    pos: usize,
}

impl<'a> Text<'a> {
    /// The tree being walked.
    pub closed spec fn tree_of(self) -> Tree {
        *self.tree
    }

    /// The nodes still to be examined.
    pub closed spec fn items_of(self) -> Seq<usize> {
        self.items@
    }

    /// The current position in the walk.
    pub closed spec fn pos_of(self) -> int {
        self.pos as int
    }

    /// A valid iterator state.
    pub open spec fn wf(self) -> bool {
        &&& self.tree_of().wf()
        &&& 0 <= self.pos_of() <= self.items_of().len()
        &&& forall|m: int|
            0 <= m < self.items_of().len() ==> (#[trigger] self.items_of()[m])
                < self.tree_of().spec_len()
    }

    /// The text contents this iterator will still yield.
    pub open spec fn yields(self) -> Seq<Seq<char>> {
        spec_texts(self.tree_of(), self.items_of(), self.pos_of())
    }

    /// Yields the next text content, or absence when the walk is done.
    pub fn next(&mut self) -> (r: Option<String>)
        requires
            old(self).wf(),
        ensures
            final(self).wf(),
            final(self).tree_of() == old(self).tree_of(),
            old(self).yields().len() == 0 ==> r is None && final(self).yields().len() == 0,
            old(self).yields().len() > 0 ==> {
                &&& r matches Some(s)
                &&& s@ == old(self).yields()[0]
                &&& final(self).yields() == old(self).yields().drop_first()
            },
    {
        loop
            invariant
                self.wf(),
                self.tree == old(self).tree,
                old(self).yields() == self.yields(),
                self.items_of() == old(self).items_of(),
            decreases self.items_of().len() - self.pos_of(),
        {
            if self.pos >= self.items.len() {
                return None;
            }
            let c = self.items[self.pos];
            let ghost k0 = self.pos as int;
            self.pos = self.pos + 1;
            match self.tree.node(c) {
                Node::Text(s) => {
                    let out = s.clone();
                    proof {
                        assert(self.yields() =~= old(self).yields().drop_first());
                    }
                    return Some(out);
                },
                _ => {
                    proof {
                        assert(Seq::<Seq<char>>::empty() + spec_texts(
                            *self.tree,
                            self.items_of(),
                            k0 + 1,
                        ) =~= spec_texts(*self.tree, self.items_of(), k0 + 1));
                    }
                },
            }
        }
    }
}

} // verus!
