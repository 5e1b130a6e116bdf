//! HTML form semantics: which controls belong to a form, and what value
//! each control currently holds.
//!
//! Membership is exactly: tree descendants of the form element, or
//! elements whose `form` attribute equals the form's `id` attribute.
//! Control tags outside the handled set yield no value rather than
//! failing.

use vstd::prelude::*;

use crate::element_ref::ElementRef;
use crate::element_ref::spec_select;
use crate::selector::Combinator;
use crate::selector::Complex;
use crate::selector::Compound;
use crate::selector::Selector;
use crate::selector::Simple;
use crate::selector::Step;
use crate::serialize;
use crate::strutil::str_eq;
use crate::tree::Tree;

verus! {

/// The fixed set of form-control tag names.
pub open spec fn is_control_tag(n: Seq<char>) -> bool {
    ||| n == "button"@
    ||| n == "fieldset"@
    ||| n == "input"@
    ||| n == "keygen"@
    ||| n == "object"@
    ||| n == "output"@
    ||| n == "select"@
    ||| n == "textarea"@
}

/// The `input` types whose `value` attribute is the control's value.
pub open spec fn is_textual_type(ty: Seq<char>) -> bool {
    ||| ty == "color"@
    ||| ty == "date"@
    ||| ty == "datetime-local"@
    ||| ty == "email"@
    ||| ty == "hidden"@
    ||| ty == "month"@
    ||| ty == "number"@
    ||| ty == "password"@
    ||| ty == "range"@
    ||| ty == ""@
}

/// Whether `e` is tied to form `f` by attribute: both the element's `form`
/// attribute and the form's `id` attribute are present and equal.
pub open spec fn spec_belongs(t: Tree, e: int, f: int) -> bool {
    &&& t.attr_of(e, "form"@) is Some
    &&& t.attr_of(f, "id"@) is Some
    &&& t.attr_of(e, "form"@) == t.attr_of(f, "id"@)
}

/// The value of the first element child of `e`, from rank `k` on, that
/// carries a `selected` attribute: that child's `value` attribute, which
/// may itself be absent. Absent when no child is selected.
pub open spec fn spec_selected_from(t: Tree, cs: Seq<usize>, k: int) -> Option<Seq<char>>
    decreases cs.len() - k,
{
    if k < 0 || k >= cs.len() {
        None
    } else if t.is_element(cs[k] as int) && t.attr_of(cs[k] as int, "selected"@) is Some {
        t.attr_of(cs[k] as int, "value"@)
    } else {
        spec_selected_from(t, cs, k + 1)
    }
}

/// The current value of control `e`, by tag:
/// - `input`: by `type`; absent type or an unhandled type gives no value;
///   `checkbox`/`radio` mirror the `checked` attribute's value; the textual
///   types mirror the `value` attribute.
/// - `select`/`datalist`: the first selected child's `value` attribute.
/// - `textarea`: the serialized inner markup.
/// - any other tag: no value.
pub open spec fn spec_value(t: Tree, e: int) -> Option<Seq<char>>
    recommends
        t.is_element(e),
{
    let n = t.name_of(e);
    if n == "input"@ {
        match t.attr_of(e, "type"@) {
            None => None,
            Some(ty) => if ty == "checkbox"@ || ty == "radio"@ {
                t.attr_of(e, "checked"@)
            } else if is_textual_type(ty) {
                t.attr_of(e, "value"@)
            } else {
                None
            },
        }
    } else if n == "select"@ || n == "datalist"@ {
        spec_selected_from(t, t.children_of(e), 0)
    } else if n == "textarea"@ {
        Some(serialize::ser_children(t, e, 0))
    } else {
        None
    }
}

/// The control elements among `cand` from position `k` on, in order.
pub open spec fn spec_controls(t: Tree, cand: Seq<usize>, k: int) -> Seq<usize>
    decreases cand.len() - k,
{
    if k < 0 || k >= cand.len() {
        Seq::empty()
    } else {
        (if t.is_element(cand[k] as int) && is_control_tag(t.name_of(cand[k] as int)) {
            seq![cand[k]]
        } else {
            Seq::empty()
        }) + spec_controls(t, cand, k + 1)
    }
}

/// The members of form `f` among the candidate controls `ys`, in order:
/// the tree descendants of `f` and the controls tied to `f` by attribute.
pub open spec fn spec_members(t: Tree, ys: Seq<usize>, f: int) -> Seq<usize>
    decreases ys.len(),
{
    if ys.len() == 0 {
        Seq::empty()
    } else {
        (if t.is_ancestor(f, ys[0] as int) || spec_belongs(t, ys[0] as int, f) {
            seq![ys[0]]
        } else {
            Seq::empty()
        }) + spec_members(t, ys.drop_first(), f)
    }
}

/// The member controls of form `f` within `root`: the control elements
/// among `root`'s strict descendants that are members of `f`.
pub open spec fn spec_inputs(t: Tree, root: int, f: int) -> Seq<usize> {
    spec_members(t, spec_controls(t, t.preorder_children(root, 0), 0), f)
}

/// What `spec_controls` holds: exactly the entries of `cand[k..]` that are
/// control elements.
proof fn lemma_controls_contains(t: Tree, cand: Seq<usize>, k: int, e: usize)
    requires
        0 <= k,
    ensures
        spec_controls(t, cand, k).contains(e) == ((exists|j: int|
            k <= j < cand.len() && cand[j] == e) && t.is_element(e as int) && is_control_tag(
            t.name_of(e as int),
        )),
    decreases cand.len() - k,
{
    if k < cand.len() {
        lemma_controls_contains(t, cand, k + 1, e);
        let s = spec_controls(t, cand, k);
        let tail = spec_controls(t, cand, k + 1);
        let head_kept = t.is_element(cand[k] as int) && is_control_tag(t.name_of(cand[k] as int));
        let off: int = if head_kept {
            1
        } else {
            0
        };
        if s.contains(e) {
            let idx = choose|idx: int| 0 <= idx < s.len() && s[idx] == e;
            if head_kept && idx == 0 {
                assert(cand[k] == e);
            } else {
                assert(tail[idx - off] == e);
                assert(tail.contains(e));
                let j2 = choose|j2: int| k + 1 <= j2 < cand.len() && cand[j2] == e;
                assert(k <= j2 < cand.len() && cand[j2] == e);
            }
        }
        if (exists|j: int| k <= j < cand.len() && cand[j] == e) && t.is_element(e as int)
            && is_control_tag(t.name_of(e as int)) {
            let j = choose|j: int| k <= j < cand.len() && cand[j] == e;
            if j == k {
                assert(s[0] == e);
                assert(s.contains(e));
            } else {
                assert(k + 1 <= j < cand.len() && cand[j] == e);
                assert(tail.contains(e));
                let idx = choose|idx: int| 0 <= idx < tail.len() && tail[idx] == e;
                assert(s[idx + off] == e);
                assert(s.contains(e));
            }
        }
    }
}

/// What `spec_members` holds: exactly the candidates that are tree
/// descendants of `f` or tied to `f` by attribute.
proof fn lemma_members_contains(t: Tree, ys: Seq<usize>, f: int, e: usize)
    ensures
        spec_members(t, ys, f).contains(e) == (ys.contains(e) && (t.is_ancestor(f, e as int)
            || spec_belongs(t, e as int, f))),
    decreases ys.len(),
{
    if ys.len() > 0 {
        lemma_members_contains(t, ys.drop_first(), f, e);
        let s = spec_members(t, ys, f);
        let tail = spec_members(t, ys.drop_first(), f);
        let head_kept = t.is_ancestor(f, ys[0] as int) || spec_belongs(t, ys[0] as int, f);
        let off: int = if head_kept {
            1
        } else {
            0
        };
        if s.contains(e) {
            let idx = choose|idx: int| 0 <= idx < s.len() && s[idx] == e;
            if head_kept && idx == 0 {
                assert(ys[0] == e);
                assert(ys.contains(e));
            } else {
                assert(tail[idx - off] == e);
                assert(tail.contains(e));
                let j2 = choose|j2: int|
                    0 <= j2 < ys.drop_first().len() && ys.drop_first()[j2] == e;
                assert(ys[j2 + 1] == e);
                assert(ys.contains(e));
            }
        }
        if ys.contains(e) && (t.is_ancestor(f, e as int) || spec_belongs(t, e as int, f)) {
            let j = choose|j: int| 0 <= j < ys.len() && ys[j] == e;
            if j == 0 {
                assert(s[0] == e);
                assert(s.contains(e));
            } else {
                assert(ys.drop_first()[j - 1] == e);
                assert(ys.drop_first().contains(e));
                let idx = choose|idx: int| 0 <= idx < tail.len() && tail[idx] == e;
                assert(s[idx + off] == e);
                assert(s.contains(e));
            }
        }
    }
}

/// Form membership is exactly: tree descendants of the form element, or
/// controls whose `form` attribute equals the form's `id` attribute — a
/// node is among the member controls of `f` within `root` iff it is a
/// control element among `root`'s strict descendants and one of those two
/// conditions holds. No other association path exists.
pub proof fn lemma_membership_exact(t: Tree, root: int, f: int, e: usize)
    ensures
        spec_inputs(t, root, f).contains(e) == ({
            &&& t.preorder_children(root, 0).contains(e)
            &&& t.is_element(e as int)
            &&& is_control_tag(t.name_of(e as int))
            &&& (t.is_ancestor(f, e as int) || spec_belongs(t, e as int, f))
        }),
{
    let cand = t.preorder_children(root, 0);
    lemma_members_contains(t, spec_controls(t, cand, 0), f, e);
    lemma_controls_contains(t, cand, 0, e);
    assert(cand.contains(e) == (exists|j: int| 0 <= j < cand.len() && cand[j] == e));
}

/// A selector matching `cand[k..]` exactly on its control elements selects
/// exactly the control elements.
proof fn lemma_select_controls(t: Tree, sel: Selector, cand: Seq<usize>, scope: int, k: int)
    requires
        forall|e: int, sc: int| #[trigger]
            sel.spec_matches(t, e, sc) == (t.is_element(e) && is_control_tag(t.name_of(e))),
    ensures
        spec_select(t, sel, cand, scope, k) == spec_controls(t, cand, k),
    decreases cand.len() - k,
{
    if 0 <= k < cand.len() {
        lemma_select_controls(t, sel, cand, scope, k + 1);
    }
}

/// One complex selector that matches exactly the elements tagged `name`.
fn tag_complex(name: &str) -> (c: Complex)
    ensures
        c.steps@.len() == 1,
        c.steps@[0].compound.parts@.len() == 1,
        c.steps@[0].compound.parts@[0] matches Simple::Tag(s) && s@ == name@,
{
    let mut parts: Vec<Simple> = Vec::new();
    parts.push(Simple::Tag(name.to_owned()));
    let mut steps: Vec<Step> = Vec::new();
    steps.push(Step { comb: Combinator::Descendant, compound: Compound { parts } });
    Complex { steps }
}

/// The selector over the fixed control tag set.
pub fn control_selector() -> (r: Selector)
    ensures
        r.wf(),
        forall|t: Tree, e: int, sc: int| #[trigger]
            r.spec_matches(t, e, sc) == (t.is_element(e) && is_control_tag(t.name_of(e))),
{
    let mut complexes: Vec<Complex> = Vec::new();
    complexes.push(tag_complex("button"));
    complexes.push(tag_complex("fieldset"));
    complexes.push(tag_complex("input"));
    complexes.push(tag_complex("keygen"));
    complexes.push(tag_complex("object"));
    complexes.push(tag_complex("output"));
    complexes.push(tag_complex("select"));
    complexes.push(tag_complex("textarea"));
    let r = Selector { complexes };
    proof {
        let names = seq!["button"@, "fieldset"@, "input"@, "keygen"@, "object"@, "output"@,
            "select"@, "textarea"@];
        assert forall|t: Tree, e: int, sc: int| #[trigger]
            r.spec_matches(t, e, sc) == (t.is_element(e) && is_control_tag(t.name_of(e))) by {
            assert forall|c: int| 0 <= c < r.complexes@.len() implies (
            #[trigger] r.complexes@[c]).spec_matches(t, e, sc) == (t.is_element(e) && t.name_of(e)
                == names[c]) by {
                let cx = r.complexes@[c];
                assert(crate::selector::matches_upto(cx.steps@, t, 1, e, sc) == (
                cx.steps@[0].compound.spec_matches(t, e, sc)));
            }
            if t.is_element(e) && is_control_tag(t.name_of(e)) {
                let c = choose|c: int| 0 <= c < 8 && t.name_of(e) == names[c];
                assert(r.complexes@[c].spec_matches(t, e, sc));
            }
        }
    }
    r
}

/// Extracts the current value of control `element`, as `spec_value` says.
pub fn get_value(element: &ElementRef<'_>) -> (r: Option<String>)
    requires
        element.wf(),
    ensures
        (r is Some) == (spec_value(*element.tree, element.id as int) is Some),
        r matches Some(v) ==> Some(v@) == spec_value(*element.tree, element.id as int),
{
    let name = element.value().name();
    if str_eq(name, "input") {
        match element.attr("type") {
            None => None,
            Some(ty) => {
                if str_eq(ty.as_str(), "checkbox") || str_eq(ty.as_str(), "radio") {
                    element.attr("checked")
                } else if str_eq(ty.as_str(), "color") || str_eq(ty.as_str(), "date") || str_eq(
                    ty.as_str(),
                    "datetime-local",
                ) || str_eq(ty.as_str(), "email") || str_eq(ty.as_str(), "hidden") || str_eq(
                    ty.as_str(),
                    "month",
                ) || str_eq(ty.as_str(), "number") || str_eq(ty.as_str(), "password") || str_eq(
                    ty.as_str(),
                    "range",
                ) || str_eq(ty.as_str(), "") {
                    element.attr("value")
                } else {
                    None
                }
            },
        }
    } else if str_eq(name, "select") || str_eq(name, "datalist") {
        find_selected_child(element)
    } else if str_eq(name, "textarea") {
        Some(element.inner_html())
    } else {
        None
    }
}

/// Scans the immediate element children for the first one carrying a
/// `selected` attribute and returns its `value` attribute.
pub fn find_selected_child(element: &ElementRef<'_>) -> (r: Option<String>)
    requires
        element.wf(),
    ensures
        ({
            let sv = spec_selected_from(
                *element.tree,
                element.tree.children_of(element.id as int),
                0,
            );
            &&& (r is Some) == (sv is Some)
            &&& r matches Some(v) ==> Some(v@) == sv
        }),
{
    let t = element.tree;
    let cs = t.children(element.id);
    let mut k: usize = 0;
    while k < cs.len()
        invariant
            t.wf(),
            element.wf(),
            t == element.tree,
            cs@ == t.children_of(element.id as int),
            k <= cs@.len(),
            spec_selected_from(*t, cs@, 0) == spec_selected_from(*t, cs@, k as int),
            forall|m: int|
                0 <= m < cs@.len() ==> (#[trigger] cs@[m]) < t.spec_len(),
        decreases cs@.len() - k,
    {
        let c = cs[k];
        if t.is_elem(c) {
            match ElementRef::wrap(t, c) {
                Some(child) => {
                    match child.attr("selected") {
                        Some(_) => {
                            return child.attr("value");
                        },
                        None => {},
                    }
                },
                None => {},
            }
        }
        k = k + 1;
    }
    None
}

/// Whether `element` names `form` through its `form` attribute: true iff
/// the element's `form` attribute and the form's `id` attribute are both
/// present and equal.
pub fn belongs_to_form(element: &ElementRef<'_>, form: &ElementRef<'_>) -> (r: bool)
    requires
        element.wf(),
        form.wf(),
    ensures
        r == ({
            &&& element.tree.attr_of(element.id as int, "form"@) is Some
            &&& form.tree.attr_of(form.id as int, "id"@) is Some
            &&& element.tree.attr_of(element.id as int, "form"@) == form.tree.attr_of(
                form.id as int,
                "id"@,
            )
        }),
{
    match element.attr("form") {
        None => false,
        Some(form_ref) => {
            match form.attr("id") {
                None => false,
                Some(id_ref) => str_eq(id_ref.as_str(), form_ref.as_str()),
            }
        },
    }
}

/// One form element together with its member controls and their values.
pub struct Form<'a> {
    root: ElementRef<'a>,
    form_element: ElementRef<'a>,
    values: Vec<(usize, Option<String>)>,
}

impl<'a> Form<'a> {
    /// The root the controls were selected under.
    pub closed spec fn root_of(self) -> ElementRef<'a> {
        self.root
    }

    /// The `<form>` element.
    pub closed spec fn form_of(self) -> ElementRef<'a> {
        self.form_element
    }

    /// The stored control/value pairs.
    pub closed spec fn values_of(self) -> Seq<(usize, Option<String>)> {
        self.values@
    }

    /// The stored values agree with `spec_inputs` and `spec_value`.
    pub open spec fn wf(self) -> bool {
        &&& self.root_of().wf()
        &&& self.form_of().wf()
        &&& self.form_of().tree == self.root_of().tree
        &&& ({
            let t = *self.root_of().tree;
            let mem = spec_inputs(t, self.root_of().id as int, self.form_of().id as int);
            &&& self.values_of().len() == mem.len()
            &&& forall|m: int|
                0 <= m < mem.len() ==> (#[trigger] self.values_of()[m]).0 == mem[m] && ((
                self.values_of()[m].1 is Some) == (spec_value(t, mem[m] as int) is Some)) && (
                self.values_of()[m].1 matches Some(v) ==> Some(v@) == spec_value(t, mem[m] as int))
        })
    }

    /// The `<form>` element this form wraps.
    pub fn element(&self) -> (r: ElementRef<'a>)
        ensures
            r == self.form_of(),
    {
        self.form_element
    }

    /// The stored control/value pairs, in discovery order.
    pub fn values(&self) -> (r: &Vec<(usize, Option<String>)>)
        ensures
            r@ == self.values_of(),
    {
        &self.values
    }

    /// Collects the member controls of `form_element` within `root` and
    /// extracts each one's value.
    pub fn wrap(root: ElementRef<'a>, form_element: ElementRef<'a>) -> (r: Form<'a>)
        requires
            root.wf(),
            form_element.wf(),
            root.tree == form_element.tree,
        ensures
            r.wf(),
            r.root_of() == root,
            r.form_of() == form_element,
    {
        let values = collect_members_values(root, form_element);
        Form { root, form_element, values }
    }

    /// Recomputes and returns the member control references, in document
    /// order, independent of the stored values.
    pub fn inputs(&self) -> (r: Vec<ElementRef<'a>>)
        requires
            self.root_of().wf(),
            self.form_of().wf(),
            self.root_of().tree == self.form_of().tree,
        ensures
            ({
                let t = *self.root_of().tree;
                let mem = spec_inputs(t, self.root_of().id as int, self.form_of().id as int);
                &&& r@.len() == mem.len()
                &&& forall|m: int|
                    0 <= m < mem.len() ==> (#[trigger] r@[m]).id == mem[m] && r@[m].tree
                        == self.root_of().tree && r@[m].wf()
            }),
    {
        let selector = control_selector();
        let mut sel = self.root.select(&selector);
        let t = self.root.tree;
        let ghost f = self.form_element.id as int;
        let ghost all = sel.yields();
        proof {
            lemma_select_controls(
                *t,
                selector,
                t.preorder_children(self.root.id as int, 0),
                self.root.id as int,
                0,
            );
        }
        let mut r: Vec<ElementRef<'a>> = Vec::new();
        let ghost mut done: Seq<usize> = Seq::empty();
        loop
            invariant
                sel.wf(),
                self.root.wf(),
                t == self.root.tree,
                t == sel.scope_of().tree,
                self.form_element.wf(),
                self.form_element.tree == self.root.tree,
                f == self.form_element.id as int,
                all == spec_controls(*t, t.preorder_children(self.root.id as int, 0), 0),
                spec_members(*t, all, f) == done + spec_members(*t, sel.yields(), f),
                r@.len() == done.len(),
                forall|m: int|
                    0 <= m < done.len() ==> (#[trigger] r@[m]).id == done[m] && r@[m].tree == t
                        && r@[m].wf(),
            decreases sel.yields().len(),
        {
            let ghost ys = sel.yields();
            match sel.next() {
                None => {
                    proof {
                        assert(spec_members(*t, sel.yields(), f) =~= Seq::<usize>::empty());
                        assert(done + spec_members(*t, sel.yields(), f) =~= done);
                        assert(spec_members(*t, all, f) == done);
                    }
                    return r;
                },
                Some(er) => {
                    proof {
                        assert(spec_members(*t, ys, f) == (if t.is_ancestor(f, ys[0] as int)
                            || spec_belongs(*t, ys[0] as int, f) {
                            seq![ys[0]]
                        } else {
                            Seq::<usize>::empty()
                        }) + spec_members(*t, ys.drop_first(), f));
                    }
                    if er.is_child_of(&self.form_element) || belongs_to_form(
                        &er,
                        &self.form_element,
                    ) {
                        r.push(er);
                        proof {
                            done = done + seq![er.id];
                            assert(spec_members(*t, all, f) =~= done + spec_members(
                                *t,
                                sel.yields(),
                                f,
                            ));
                        }
                    } else {
                        proof {
                            assert(spec_members(*t, all, f) =~= done + spec_members(
                                *t,
                                sel.yields(),
                                f,
                            ));
                        }
                    }
                },
            }
        }
    }
}

/// Walks the control selection under `root` and keeps, with its extracted
/// value, every control that is a member of `form_element`.
fn collect_members_values<'a>(root: ElementRef<'a>, form_element: ElementRef<'a>) -> (values: Vec<
    (usize, Option<String>),
>)
    requires
        root.wf(),
        form_element.wf(),
        root.tree == form_element.tree,
    ensures
        ({
            let t = *root.tree;
            let mem = spec_inputs(t, root.id as int, form_element.id as int);
            &&& values@.len() == mem.len()
            &&& forall|m: int|
                0 <= m < mem.len() ==> (#[trigger] values@[m]).0 == mem[m] && ((values@[m].1
                    is Some) == (spec_value(t, mem[m] as int) is Some)) && (values@[m].1 matches Some(
                    v,
                ) ==> Some(v@) == spec_value(t, mem[m] as int))
        }),
{
    let selector = control_selector();
    let mut sel = root.select(&selector);
    let t = root.tree;
    let ghost f = form_element.id as int;
    let ghost all = sel.yields();
    proof {
        lemma_select_controls(
            *t,
            selector,
            t.preorder_children(root.id as int, 0),
            root.id as int,
            0,
        );
    }
    let mut values: Vec<(usize, Option<String>)> = Vec::new();
    let ghost mut done: Seq<usize> = Seq::empty();
    loop
        invariant
            sel.wf(),
            root.wf(),
            t == root.tree,
            t == sel.scope_of().tree,
            form_element.wf(),
            form_element.tree == root.tree,
            f == form_element.id as int,
            all == spec_controls(*t, t.preorder_children(root.id as int, 0), 0),
            spec_members(*t, all, f) == done + spec_members(*t, sel.yields(), f),
            values@.len() == done.len(),
            forall|m: int|
                0 <= m < done.len() ==> (#[trigger] values@[m]).0 == done[m] && ((values@[m].1
                    is Some) == (spec_value(*t, done[m] as int) is Some)) && (values@[m].1 matches Some(
                    v,
                ) ==> Some(v@) == spec_value(*t, done[m] as int)),
        decreases sel.yields().len(),
    {
        let ghost ys = sel.yields();
        match sel.next() {
            None => {
                proof {
                    assert(spec_members(*t, sel.yields(), f) =~= Seq::<usize>::empty());
                    assert(done + spec_members(*t, sel.yields(), f) =~= done);
                    assert(spec_members(*t, all, f) == done);
                }
                return values;
            },
            Some(er) => {
                proof {
                    assert(spec_members(*t, ys, f) == (if t.is_ancestor(f, ys[0] as int)
                        || spec_belongs(*t, ys[0] as int, f) {
                        seq![ys[0]]
                    } else {
                        Seq::<usize>::empty()
                    }) + spec_members(*t, ys.drop_first(), f));
                }
                if er.is_child_of(&form_element) || belongs_to_form(&er, &form_element) {
                    let v = get_value(&er);
                    values.push((er.id, v));
                    proof {
                        done = done + seq![er.id];
                        assert(spec_members(*t, all, f) =~= done + spec_members(
                            *t,
                            sel.yields(),
                            f,
                        ));
                    }
                } else {
                    proof {
                        assert(spec_members(*t, all, f) =~= done + spec_members(
                            *t,
                            sel.yields(),
                            f,
                        ));
                    }
                }
            },
        }
    }
}

} // verus!
