//! Compiled selectors and scope-aware matching.
//!
//! A selector is a list of complex selectors; a complex selector is a chain
//! of compound selectors joined by combinators; a compound selector is a
//! conjunction of simple selectors. Matching is evaluated relative to a
//! fixed scope element, and positional lookups go through a memoizing
//! cache whose entries never change what matching returns.

use vstd::prelude::*;

use crate::tree::Tree;
use crate::tree::Node;

verus! {

/// How a compound selector relates to the one to its right.
#[derive(Debug, Clone, Copy)]
pub enum Combinator {
    /// Any strict ancestor.
    Descendant,
    /// The parent.
    Child,
}

/// One simple selector.
#[derive(Debug)]
pub enum Simple {
    /// A tag-name test.
    Tag(String),
    /// `*`: any element.
    Universal,
    /// `:scope`: the scope element itself.
    Scope,
    /// `:nth-child(n)`: 1-based position among the parent's element children.
    NthChild(usize),
}

/// A conjunction of simple selectors, all tested on one element.
#[derive(Debug)]
pub struct Compound {
    pub parts: Vec<Simple>,
}

/// One compound of a complex selector, with the combinator that ties it to
/// the compound on its left (ignored on the leftmost compound).
#[derive(Debug)]
pub struct Step {
    pub comb: Combinator,
    pub compound: Compound,
}

/// A chain of compounds, matched right to left.
#[derive(Debug)]
pub struct Complex {
    pub steps: Vec<Step>,
}

/// A compiled selector: a comma-list of complex selectors.
#[derive(Debug)]
pub struct Selector {
    pub complexes: Vec<Complex>,
}

impl Simple {
    /// What this simple selector means for element `e` under scope `scope`.
    pub open spec fn spec_matches(self, t: Tree, e: int, scope: int) -> bool {
        match self {
            Simple::Tag(name) => t.is_element(e) && t.name_of(e) == name@,
            Simple::Universal => t.is_element(e),
            Simple::Scope => t.is_element(e) && e == scope,
            Simple::NthChild(n) => t.is_element(e) && t.nth_index(e) == n,
        }
    }
}

impl Compound {
    /// An element matches a compound when it matches every part.
    pub open spec fn spec_matches(self, t: Tree, e: int, scope: int) -> bool {
        t.is_element(e) && forall|m: int|
            0 <= m < self.parts@.len() ==> (#[trigger] self.parts@[m]).spec_matches(t, e, scope)
    }
}

/// Whether element `e` matches the first `n` steps of `steps`: the `n`-th
/// compound matches `e`, and the rest of the chain matches a parent or a
/// strict ancestor of `e`, as the `n`-th step's combinator demands.
pub open spec fn matches_upto(steps: Seq<Step>, t: Tree, n: int, e: int, scope: int) -> bool
    decreases n,
{
    if n <= 0 || n > steps.len() {
        false
    } else {
        let st = steps[n - 1];
        st.compound.spec_matches(t, e, scope) && (n == 1 || match st.comb {
            Combinator::Child => {
                t.parent_of(e) matches Some(p) && matches_upto(steps, t, n - 1, p as int, scope)
            },
            Combinator::Descendant => {
                exists|a: int| t.is_ancestor(a, e) && matches_upto(steps, t, n - 1, a, scope)
            },
        })
    }
}

impl Complex {
    /// An element matches a complex selector when it matches the whole chain.
    pub open spec fn spec_matches(self, t: Tree, e: int, scope: int) -> bool {
        matches_upto(self.steps@, t, self.steps@.len() as int, e, scope)
    }
}

impl Selector {
    /// Every complex selector has at least one step.
    pub open spec fn wf(self) -> bool {
        forall|c: int|
            0 <= c < self.complexes@.len() ==> (#[trigger] self.complexes@[c]).steps@.len() >= 1
    }

    /// An element matches a selector list when it matches some member.
    pub open spec fn spec_matches(self, t: Tree, e: int, scope: int) -> bool {
        exists|c: int|
            0 <= c < self.complexes@.len() && (#[trigger] self.complexes@[c]).spec_matches(
                t,
                e,
                scope,
            )
    }
}

/// Memoized 1-based element-sibling positions, keyed by node index.
///
/// Every entry agrees with `Tree::nth_index`, so consulting the cache can
/// never change what matching returns; it only saves recomputation. A fresh
/// cache is valid for any tree.
#[derive(Debug)]
pub struct NthIndexCache {
    entries: Vec<(usize, usize)>,
}

impl NthIndexCache {
    /// The memoized entries.
    pub closed spec fn entries_of(self) -> Seq<(usize, usize)> {
        self.entries@
    }

    /// Every memoized pair records the true position of its node.
    pub open spec fn wf(self, t: Tree) -> bool {
        forall|m: int|
            0 <= m < self.entries_of().len() ==> (#[trigger] self.entries_of()[m]).1
                == t.nth_index(self.entries_of()[m].0 as int)
    }

    /// A fresh, empty cache, valid for any tree.
    pub fn new() -> (c: NthIndexCache)
        ensures
            c.entries_of() == Seq::<(usize, usize)>::empty(),
            forall|t: Tree| c.wf(t),
    {
        let c = NthIndexCache { entries: Vec::new() };
        proof {
            assert(c.entries_of() =~= Seq::<(usize, usize)>::empty());
        }
        c
    }

    /// The position of `e` among its parent's element children, from the
    /// cache if already known, otherwise computed and memoized.
    pub fn nth_index(&mut self, t: &Tree, e: usize) -> (n: usize)
        requires
            t.wf(),
            old(self).wf(*t),
            e < t.spec_len(),
        ensures
            n == t.nth_index(e as int),
            final(self).wf(*t),
    {
        let mut m: usize = 0;
        while m < self.entries.len()
            invariant
                self.wf(*t),
            decreases self.entries@.len() - m,
        {
            if self.entries[m].0 == e {
                proof {
                    assert(self.entries_of()[m as int].1 == t.nth_index(
                        self.entries_of()[m as int].0 as int,
                    ));
                }
                return self.entries[m].1;
            }
            m = m + 1;
        }
        let n = t.compute_nth_index(e);
        self.entries.push((e, n));
        proof {
            assert forall|j: int| 0 <= j < self.entries_of().len() implies (
            #[trigger] self.entries_of()[j]).1 == t.nth_index(self.entries_of()[j].0 as int) by {
                if j < old(self).entries_of().len() {
                    assert(self.entries_of()[j] == old(self).entries_of()[j]);
                } else {
                    assert(self.entries_of()[j] == (e, n));
                }
            }
        }
        n
    }
}

/// Whether element `e` is an element and, if a tag test is at hand, carries
/// that tag.
fn match_simple(t: &Tree, s: &Simple, e: usize, scope: usize, cache: &mut NthIndexCache) -> (r:
    bool)
    requires
        t.wf(),
        old(cache).wf(*t),
        e < t.spec_len(),
    ensures
        r == s.spec_matches(*t, e as int, scope as int),
        final(cache).wf(*t),
{
    match s {
        Simple::Tag(name) => {
            match t.node(e) {
                Node::Element(ed) => crate::strutil::str_eq(ed.name.as_str(), name.as_str()),
                _ => false,
            }
        },
        Simple::Universal => t.is_elem(e),
        Simple::Scope => t.is_elem(e) && e == scope,
        Simple::NthChild(n) => {
            if !t.is_elem(e) {
                false
            } else {
                let k = cache.nth_index(t, e);
                k == *n
            }
        },
    }
}

/// Whether element `e` matches every part of `c`.
fn match_compound(t: &Tree, c: &Compound, e: usize, scope: usize, cache: &mut NthIndexCache) -> (r:
    bool)
    requires
        t.wf(),
        old(cache).wf(*t),
        e < t.spec_len(),
    ensures
        r == c.spec_matches(*t, e as int, scope as int),
        final(cache).wf(*t),
{
    if !t.is_elem(e) {
        return false;
    }
    let mut m: usize = 0;
    while m < c.parts.len()
        invariant
            t.wf(),
            cache.wf(*t),
            e < t.spec_len(),
            m <= c.parts@.len(),
            forall|j: int|
                0 <= j < m ==> (#[trigger] c.parts@[j]).spec_matches(*t, e as int, scope as int),
        decreases c.parts@.len() - m,
    {
        if !match_simple(t, &c.parts[m], e, scope, cache) {
            return false;
        }
        m = m + 1;
    }
    true
}

/// Whether element `e` matches the first `n` steps of `steps`, walking the
/// chain of parents and ancestors leftwards.
fn match_upto(
    t: &Tree,
    steps: &Vec<Step>,
    n: usize,
    e: usize,
    scope: usize,
    cache: &mut NthIndexCache,
) -> (r: bool)
    requires
        t.wf(),
        old(cache).wf(*t),
        1 <= n <= steps@.len(),
        e < t.spec_len(),
    ensures
        r == matches_upto(steps@, *t, n as int, e as int, scope as int),
        final(cache).wf(*t),
    decreases n,
{
    let st = &steps[n - 1];
    if !match_compound(t, &st.compound, e, scope, cache) {
        return false;
    }
    if n == 1 {
        return true;
    }
    match st.comb {
        Combinator::Child => {
            match t.parent(e) {
                None => false,
                Some(p) => match_upto(t, steps, n - 1, p, scope, cache),
            }
        },
        Combinator::Descendant => {
            let mut cur: usize = e;
            loop
                invariant
                    t.wf(),
                    cache.wf(*t),
                    1 < n <= steps@.len(),
                    e < t.spec_len(),
                    cur < t.spec_len(),
                    cur == e || t.is_ancestor(cur as int, e as int),
                    cur == e || !matches_upto(steps@, *t, n - 1, cur as int, scope as int),
                    matches_upto(steps@, *t, n as int, e as int, scope as int) == (exists|a: int|
                        t.is_ancestor(a, e as int) && matches_upto(
                            steps@,
                            *t,
                            n - 1,
                            a,
                            scope as int,
                        )),
                    forall|a: int|
                        t.is_ancestor(a, e as int) && #[trigger] matches_upto(
                            steps@,
                            *t,
                            n - 1,
                            a,
                            scope as int,
                        ) ==> a == cur || t.is_ancestor(a, cur as int),
                decreases cur,
            {
                match t.parent(cur) {
                    None => {
                        proof {
                            t.lemma_ancestor_irreflexive(e as int);
                            assert forall|a: int|
                                t.is_ancestor(a, e as int) implies !matches_upto(
                                steps@,
                                *t,
                                n - 1,
                                a,
                                scope as int,
                            ) by {
                                if matches_upto(steps@, *t, n - 1, a, scope as int) {
                                    assert(a == cur || t.is_ancestor(a, cur as int));
                                    assert(!t.is_ancestor(a, cur as int));
                                }
                            }
                        }
                        return false;
                    },
                    Some(p) => {
                        proof {
                            if cur == e {
                                assert(t.is_ancestor(p as int, e as int));
                            } else {
                                assert(t.is_ancestor(p as int, cur as int));
                                t.lemma_ancestor_transitive(p as int, cur as int, e as int);
                            }
                        }
                        if match_upto(t, steps, n - 1, p, scope, cache) {
                            return true;
                        }
                        proof {
                            t.lemma_ancestor_irreflexive(e as int);
                            assert forall|a: int|
                                t.is_ancestor(a, e as int) && #[trigger] matches_upto(
                                steps@,
                                *t,
                                n - 1,
                                a,
                                scope as int,
                            ) implies a == p || t.is_ancestor(a, p as int) by {
                                assert(a == cur || t.is_ancestor(a, cur as int));
                            }
                        }
                        cur = p;
                    },
                }
            }
        },
    }
}

/// The error reported for selector text outside the accepted grammar.
#[derive(Debug)]
pub struct SelectorParseError;

/// Whether `c` may occur in a tag name: a letter, a digit, `-` or `_`.
pub open spec fn spec_ident_char(c: char) -> bool {
    ||| 97 <= c as u32 <= 122
    ||| 65 <= c as u32 <= 90
    ||| 48 <= c as u32 <= 57
    ||| c as u32 == 45
    ||| c as u32 == 95
}

/// Selector text that is one plain tag name.
pub open spec fn spec_tag_name_text(s: Seq<char>) -> bool {
    s.len() > 0 && forall|k: int| 0 <= k < s.len() ==> spec_ident_char(#[trigger] s[k])
}

/// Whether `c` may occur in a tag name.
fn is_ident_char(c: char) -> (r: bool)
    ensures
        r == spec_ident_char(c),
{
    let u = c as u32;
    (97 <= u && u <= 122) || (65 <= u && u <= 90) || (48 <= u && u <= 57) || u == 45 || u == 95
}

/// Whether `c` may begin a simple selector.
fn is_simple_start(c: char) -> (r: bool)
    ensures
        r == (spec_ident_char(c) || c as u32 == 42 || c as u32 == 58),
{
    is_ident_char(c) || c as u32 == 42 || c as u32 == 58
}

/// Advances `i` over spaces.
fn skip_spaces(s: &str, n: usize, i: &mut usize)
    requires
        n == s@.len(),
        *old(i) <= n,
    ensures
        *old(i) <= *final(i) <= n,
        *old(i) < n && s@[*old(i) as int] != ' ' ==> *final(i) == *old(i),
{
    while *i < n && s.get_char(*i) == ' '
        invariant
            n == s@.len(),
            *old(i) <= *i <= n,
            *old(i) < n && s@[*old(i) as int] != ' ' ==> *i == *old(i),
        decreases n - *i,
    {
        *i = *i + 1;
    }
}

/// Reads the literal `word` at position `i`, advancing past it.
fn expect_word(s: &str, n: usize, i: &mut usize, word: &str) -> (r: bool)
    requires
        n == s@.len(),
        *old(i) <= n,
    ensures
        *old(i) <= *final(i) <= n,
        r ==> *final(i) == *old(i) + word@.len(),
{
    let wn = word.unicode_len();
    if n - *i < wn {
        return false;
    }
    let mut k: usize = 0;
    while k < wn
        invariant
            n == s@.len(),
            wn == word@.len(),
            *i + wn <= n,
            k <= wn,
        decreases wn - k,
    {
        if s.get_char(*i + k) != word.get_char(k) {
            return false;
        }
        k = k + 1;
    }
    *i = *i + wn;
    true
}

/// Reads one simple selector at `i`: a tag name, `*`, `:scope`, or
/// `:nth-child(n)`.
fn read_simple(s: &str, n: usize, i: &mut usize) -> (r: Result<Simple, SelectorParseError>)
    requires
        n == s@.len(),
        *old(i) < n,
    ensures
        *old(i) <= *final(i) <= n,
        r is Ok ==> *final(i) > *old(i),
        r matches Ok(p) ==> (p matches Simple::Tag(name) ==> name@ == s@.subrange(
            *old(i) as int,
            *final(i) as int,
        ) && (*final(i) == n || !spec_ident_char(s@[*final(i) as int]))),
        spec_ident_char(s@[*old(i) as int]) ==> (r matches Ok(p) && p is Tag),
{
    let c = s.get_char(*i);
    if c as u32 == 42 {
        *i = *i + 1;
        return Ok(Simple::Universal);
    }
    if c as u32 == 58 {
        *i = *i + 1;
        if expect_word(s, n, i, "scope") {
            return Ok(Simple::Scope);
        }
        if !expect_word(s, n, i, "nth-child(") {
            return Err(SelectorParseError);
        }
        let mut val: usize = 0;
        let mut digits: usize = 0;
        while *i < n && 48 <= s.get_char(*i) as u32 && s.get_char(*i) as u32 <= 57
            invariant
                n == s@.len(),
                *old(i) < *i <= n,
                digits <= *i,
                val <= 999999999,
                !spec_ident_char(s@[*old(i) as int]),
            decreases n - *i,
        {
            if val > 99999999 {
                return Err(SelectorParseError);
            }
            let d = (s.get_char(*i) as u32 - 48) as usize;
            val = val * 10 + d;
            digits = digits + 1;
            *i = *i + 1;
        }
        if digits == 0 {
            return Err(SelectorParseError);
        }
        if *i >= n || s.get_char(*i) as u32 != 41 {
            return Err(SelectorParseError);
        }
        *i = *i + 1;
        return Ok(Simple::NthChild(val));
    }
    if !is_ident_char(c) {
        return Err(SelectorParseError);
    }
    let mut name = String::new();
    crate::strutil::push_char(&mut name, c);
    *i = *i + 1;
    proof {
        assert(name@ =~= s@.subrange(*old(i) as int, *i as int));
    }
    while *i < n && is_ident_char(s.get_char(*i))
        invariant
            n == s@.len(),
            *old(i) < *i <= n,
            name@ == s@.subrange(*old(i) as int, *i as int),
        decreases n - *i,
    {
        crate::strutil::push_char(&mut name, s.get_char(*i));
        *i = *i + 1;
        proof {
            assert(name@ =~= s@.subrange(*old(i) as int, *i as int));
        }
    }
    Ok(Simple::Tag(name))
}

/// Reads one compound selector at `i`: one or more simple selectors with
/// nothing between them.
fn read_compound(s: &str, n: usize, i: &mut usize) -> (r: Result<Compound, SelectorParseError>)
    requires
        n == s@.len(),
        *old(i) <= n,
    ensures
        *old(i) <= *final(i) <= n,
        r is Ok ==> *final(i) > *old(i),
        (*old(i) < n && (forall|k: int| *old(i) <= k < n ==> spec_ident_char(#[trigger] s@[k])))
            ==> (r matches Ok(c) && *final(i) == n && c.parts@.len() == 1 && (
        c.parts@[0] matches Simple::Tag(name) && name@ == s@.subrange(*old(i) as int, n as int))),
{
    let ghost all_tag = *old(i) < n && (forall|k: int|
        *old(i) <= k < n ==> spec_ident_char(#[trigger] s@[k]));
    let mut parts: Vec<Simple> = Vec::new();
    if *i >= n {
        return Err(SelectorParseError);
    }
    match read_simple(s, n, i) {
        Err(e) => {
            return Err(e);
        },
        Ok(p) => {
            parts.push(p);
        },
    }
    let ghost parts0 = parts@;
    while *i < n && is_simple_start(s.get_char(*i))
        invariant
            n == s@.len(),
            *old(i) < *i <= n,
            all_tag == (*old(i) < n && (forall|k: int|
                *old(i) <= k < n ==> spec_ident_char(#[trigger] s@[k]))),
            all_tag ==> (*i == n && parts@ == parts0),
        decreases n - *i,
    {
        match read_simple(s, n, i) {
            Err(e) => {
                return Err(e);
            },
            Ok(p) => {
                parts.push(p);
            },
        }
    }
    Ok(Compound { parts })
}

impl Selector {
    /// Compiles selector text: a comma-list of complex selectors over tag
    /// names, `*`, `:scope` and `:nth-child(n)`, joined by child (`>`) and
    /// descendant (whitespace) combinators. Text outside this grammar is
    /// rejected at parse time with a structured error.
    pub fn parse(selectors: &str) -> (r: Result<Selector, SelectorParseError>)
        ensures
            r matches Ok(sel) ==> sel.wf(),
            spec_tag_name_text(selectors@) ==> (r matches Ok(sel) && {
                &&& sel.complexes@.len() == 1
                &&& sel.complexes@[0].steps@.len() == 1
                &&& sel.complexes@[0].steps@[0].compound.parts@.len() == 1
                &&& (sel.complexes@[0].steps@[0].compound.parts@[0] matches Simple::Tag(name)
                    && name@ == selectors@)
            }),
    {
        let ghost tagtext = spec_tag_name_text(selectors@);
        let n = selectors.unicode_len();
        let mut i: usize = 0;
        let mut complexes: Vec<Complex> = Vec::new();
        skip_spaces(selectors, n, &mut i);
        if i >= n {
            return Err(SelectorParseError);
        }
        loop
            invariant
                n == selectors@.len(),
                i <= n,
                tagtext == spec_tag_name_text(selectors@),
                tagtext ==> i == 0 && complexes@.len() == 0,
                forall|c: int|
                    0 <= c < complexes@.len() ==> (#[trigger] complexes@[c]).steps@.len() >= 1,
            decreases n - i,
        {
            let mut steps: Vec<Step> = Vec::new();
            match read_compound(selectors, n, &mut i) {
                Err(e) => {
                    return Err(e);
                },
                Ok(compound) => {
                    proof {
                        if tagtext {
                            assert(compound.parts@[0]->Tag_0@ =~= selectors@);
                        }
                    }
                    steps.push(Step { comb: Combinator::Descendant, compound });
                },
            }
            let ghost ia: int = i as int;
            loop
                invariant
                    n == selectors@.len(),
                    ia <= i <= n,
                    steps@.len() >= 1,
                    tagtext == spec_tag_name_text(selectors@),
                    tagtext ==> {
                        &&& i == n
                        &&& steps@.len() == 1
                        &&& steps@[0].compound.parts@.len() == 1
                        &&& (steps@[0].compound.parts@[0] matches Simple::Tag(name) && name@
                            == selectors@)
                    },
                decreases n - i,
            {
                let before: usize = i;
                skip_spaces(selectors, n, &mut i);
                if i >= n {
                    break ;
                }
                let c = selectors.get_char(i);
                if c as u32 == 44 {
                    break ;
                }
                if c as u32 == 62 {
                    i = i + 1;
                    skip_spaces(selectors, n, &mut i);
                    match read_compound(selectors, n, &mut i) {
                        Err(e) => {
                            return Err(e);
                        },
                        Ok(compound) => {
                            steps.push(Step { comb: Combinator::Child, compound });
                        },
                    }
                } else if before < i && is_simple_start(c) {
                    match read_compound(selectors, n, &mut i) {
                        Err(e) => {
                            return Err(e);
                        },
                        Ok(compound) => {
                            steps.push(Step { comb: Combinator::Descendant, compound });
                        },
                    }
                } else {
                    return Err(SelectorParseError);
                }
            }
            complexes.push(Complex { steps });
            if i >= n {
                return Ok(Selector { complexes });
            }
            // here the next character is a comma
            i = i + 1;
            skip_spaces(selectors, n, &mut i);
            if i >= n {
                return Err(SelectorParseError);
            }
        }
    }

    /// Whether element `e` matches this selector, evaluated with `scope` as
    /// the `:scope` anchor. Positional lookups go through `cache`; the
    /// result never depends on the cache's contents.
    pub fn matches_with_scope_and_cache(
        &self,
        t: &Tree,
        e: usize,
        scope: usize,
        cache: &mut NthIndexCache,
    ) -> (r: bool)
        requires
            t.wf(),
            self.wf(),
            old(cache).wf(*t),
            e < t.spec_len(),
        ensures
            r == self.spec_matches(*t, e as int, scope as int),
            final(cache).wf(*t),
    {
        let mut c: usize = 0;
        while c < self.complexes.len()
            invariant
                t.wf(),
                self.wf(),
                cache.wf(*t),
                e < t.spec_len(),
                c <= self.complexes@.len(),
                forall|j: int|
                    0 <= j < c ==> !(#[trigger] self.complexes@[j]).spec_matches(
                        *t,
                        e as int,
                        scope as int,
                    ),
            decreases self.complexes@.len() - c,
        {
            let cx = &self.complexes[c];
            if match_upto(t, &cx.steps, cx.steps.len(), e, scope, cache) {
                return true;
            }
            c = c + 1;
        }
        false
    }
}

} // verus!
