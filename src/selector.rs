//! Compiled selectors in parse order, the dependencies that point into
//! them, and the matching of one compound selector against an element.

use crate::dom::Dom;
use vstd::prelude::*;

verus! {

/// A combinator between two compound selectors.
#[derive(Clone, Copy, Debug, PartialEq, Eq, Structural)]
pub enum Combinator {
    /// `>`
    Child,
    /// ` `
    Descendant,
    /// `+`
    NextSibling,
    /// `~`
    LaterSibling,
    /// Between an element and its pseudo-element.
    PseudoElement,
    /// Between a `<slot>` and what is slotted into it (`::slotted()`).
    SlotAssignment,
    /// Between a shadow host and its parts (`::part()`).
    Part,
}

/// One component of a selector.
#[derive(Clone, Copy, Debug, PartialEq, Eq, Structural)]
pub enum Component {
    /// `*`
    Universal,
    /// `.name`
    Class(u32),
    /// The name inside `::part(name)`.
    Part(u32),
    /// A pseudo-element such as `::before`.
    PseudoElement(u32),
    /// A combinator between two compound selectors.
    Combinator(Combinator),
}

/// A selector as its components in parse order (left to right as written).
#[derive(Clone, Debug)]
pub struct Selector {
    pub components: Vec<Component>,
}

pub open spec fn is_combinator(c: Component) -> bool {
    match c {
        Component::Combinator(_) => true,
        _ => false,
    }
}

pub open spec fn combinator_of(c: Component) -> Combinator {
    match c {
        Component::Combinator(k) => k,
        _ => Combinator::Descendant,
    }
}

/// The index of the first combinator at or after `i`, or the length when
/// none follows: the end of the compound selector that starts at `i`.
pub open spec fn compound_end(s: Seq<Component>, i: int) -> int
    decreases s.len() - i,
{
    if i >= s.len() {
        s.len() as int
    } else if is_combinator(s[i]) {
        i
    } else {
        compound_end(s, i + 1)
    }
}

pub proof fn lemma_compound_end(s: Seq<Component>, i: int)
    requires
        0 <= i <= s.len(),
    ensures
        i <= compound_end(s, i) <= s.len(),
        compound_end(s, i) < s.len() ==> is_combinator(s[compound_end(s, i)]),
        forall|k: int| i <= k < compound_end(s, i) ==> !is_combinator(#[trigger] s[k]),
    decreases s.len() - i,
{
    if i < s.len() && !is_combinator(s[i]) {
        lemma_compound_end(s, i + 1);
    }
}

/// Whether a simple selector (not a combinator) matches element `e`.
pub open spec fn simple_matches(c: Component, dom: Dom, e: int) -> bool {
    match c {
        Component::Universal => true,
        Component::Class(n) => dom.has_class_spec(e, n),
        Component::Part(n) => dom.has_part_spec(e, n),
        Component::PseudoElement(n) => dom.node(e).pseudo == Some(n),
        Component::Combinator(_) => false,
    }
}

/// Whether every simple selector in `[from, to)` matches element `e`.
pub open spec fn all_match(s: Seq<Component>, from: int, to: int, dom: Dom, e: int) -> bool {
    forall|k: int| from <= k < to ==> simple_matches(#[trigger] s[k], dom, e)
}

/// The outcome of matching one compound selector.
#[derive(Clone, Copy, Debug, PartialEq, Eq, Structural)]
pub enum CompoundSelectorMatchingResult {
    /// The compound matched, and it was the left-most one.
    FullyMatched,
    /// The compound matched; the combinator to its left stands at
    /// `next_combinator_offset` (parse order).
    Matched { next_combinator_offset: usize },
    /// The compound did not match.
    NotMatched,
}

/// What any matcher of the compound selector at `from` may answer: where a
/// match is reported, it names the end of that compound.
pub open spec fn consistent_match(
    s: Seq<Component>,
    from: int,
    r: CompoundSelectorMatchingResult,
) -> bool {
    match r {
        CompoundSelectorMatchingResult::FullyMatched => compound_end(s, from) == s.len(),
        CompoundSelectorMatchingResult::Matched { next_combinator_offset: k } => k
            == compound_end(s, from) && k < s.len(),
        CompoundSelectorMatchingResult::NotMatched => true,
    }
}

/// The exact answer for element `e` of the compound selector at `from`.
pub open spec fn compound_match_spec(
    s: Seq<Component>,
    from: int,
    dom: Dom,
    e: int,
) -> CompoundSelectorMatchingResult {
    let end = compound_end(s, from);
    if !all_match(s, from, end, dom, e) {
        CompoundSelectorMatchingResult::NotMatched
    } else if end == s.len() {
        CompoundSelectorMatchingResult::FullyMatched
    } else {
        CompoundSelectorMatchingResult::Matched { next_combinator_offset: end as usize }
    }
}

impl View for Selector {
    type V = Seq<Component>;

    open spec fn view(&self) -> Seq<Component> {
        self.components@
    }
}

impl Selector {
    /// The number of components.
    pub fn len(&self) -> (r: usize)
        ensures
            r == self@.len(),
    {
        self.components.len()
    }

    /// The combinator at parse-order index `index`.
    pub fn combinator_at_parse_order(&self, index: usize) -> (r: Combinator)
        requires
            index < self@.len(),
            is_combinator(self@[index as int]),
        ensures
            r == combinator_of(self@[index as int]),
    {
        match self.components[index] {
            Component::Combinator(c) => c,
            _ => Combinator::Descendant,
        }
    }
}

/// Whether simple selector `c` matches element `e`.
pub fn matches_simple_selector(c: Component, dom: &Dom, e: usize) -> (r: bool)
    requires
        e < dom.len_spec(),
    ensures
        r == simple_matches(c, *dom, e as int),
{
    match c {
        Component::Universal => true,
        Component::Class(n) => dom.has_class(e, n),
        Component::Part(n) => dom.has_part(e, n),
        Component::PseudoElement(n) => dom.get(e).pseudo == Some(n),
        Component::Combinator(_) => false,
    }
}

/// Matches the compound selector that starts at parse-order offset
/// `from_offset` against element `e`, over this crate's small selector
/// model. The invalidator itself never calls it: it asks its processor
/// (`InvalidationProcessor::match_compound`); this is the stand-in that
/// `RecordingProcessor` answers with.
pub fn matches_compound_selector_from(
    selector: &Selector,
    from_offset: usize,
    dom: &Dom,
    e: usize,
) -> (r: CompoundSelectorMatchingResult)
    requires
        from_offset <= selector@.len(),
        e < dom.len_spec(),
    ensures
        r == compound_match_spec(selector@, from_offset as int, *dom, e as int),
        consistent_match(selector@, from_offset as int, r),
{
    let s = &selector.components;
    proof {
        lemma_compound_end(s@, from_offset as int);
    }
    let mut i = from_offset;
    while i < s.len() && !matches!(s[i], Component::Combinator(_))
        invariant
            from_offset <= i <= s@.len(),
            i <= compound_end(s@, from_offset as int),
            forall|k: int| from_offset <= k < i ==> !is_combinator(#[trigger] s@[k]),
            compound_end(s@, from_offset as int) <= s@.len(),
            compound_end(s@, from_offset as int) < s@.len() ==> is_combinator(
                s@[compound_end(s@, from_offset as int)],
            ),
            forall|k: int|
                from_offset <= k < compound_end(s@, from_offset as int) ==> !is_combinator(
                    #[trigger] s@[k],
                ),
        decreases s@.len() - i,
    {
        i += 1;
    }
    let end = i;
    assert(end == compound_end(s@, from_offset as int));
    let mut j = from_offset;
    while j < end
        invariant
            from_offset <= j <= end,
            end <= s@.len(),
            end == compound_end(s@, from_offset as int),
            s@ == selector@,
            all_match(s@, from_offset as int, j as int, *dom, e as int),
            e < dom.len_spec(),
        decreases end - j,
    {
        if !matches_simple_selector(s[j], dom, e) {
            proof {
                if all_match(s@, from_offset as int, end as int, *dom, e as int) {
                    assert(simple_matches(s@[j as int], *dom, e as int));
                }
            }
            return CompoundSelectorMatchingResult::NotMatched;
        }
        j += 1;
    }
    if end == s.len() {
        CompoundSelectorMatchingResult::FullyMatched
    } else {
        CompoundSelectorMatchingResult::Matched { next_combinator_offset: end }
    }
}

/// The relative-selector (`:has()`) position that a dependency stands for.
#[derive(Clone, Copy, Debug, PartialEq, Eq, Structural)]
pub enum RelativeDependencyInvalidationKind {
    Ancestor,
    Parent,
    PrevSibling,
    AncestorPrevSibling,
    EarlierSibling,
    AncestorEarlierSibling,
}

/// Which elements a (non-relative) dependency invalidates when it matches.
#[derive(Clone, Copy, Debug, PartialEq, Eq, Structural)]
pub enum NormalDependencyInvalidationKind {
    Element,
    ElementAndDescendants,
    Descendants,
    Siblings,
    SlottedElements,
    Parts,
}

/// The kind of a dependency.
#[derive(Clone, Copy, Debug, PartialEq, Eq, Structural)]
pub enum DependencyInvalidationKind {
    Normal(NormalDependencyInvalidationKind),
    Relative(RelativeDependencyInvalidationKind),
}

/// A compiled selector fragment that a mutation may affect.
///
/// `selector_offset` counts in matching order (right to left): it is the
/// index of the compound selector that the dependency is about, and the
/// component just before it in that order is the combinator to its right.
/// `next` is the index, in the store, of the outer dependency to go on with
/// once this selector matched completely (for `:is()` and `:where()`).
#[derive(Clone, Debug)]
pub struct Dependency {
    pub selector: Selector,
    pub selector_offset: usize,
    pub next: Option<usize>,
    pub relative_kind: Option<RelativeDependencyInvalidationKind>,
}

pub open spec fn normal_kind_of(c: Combinator) -> NormalDependencyInvalidationKind {
    match c {
        Combinator::Child | Combinator::Descendant => NormalDependencyInvalidationKind::Descendants,
        Combinator::NextSibling | Combinator::LaterSibling => NormalDependencyInvalidationKind::Siblings,
        Combinator::PseudoElement => NormalDependencyInvalidationKind::ElementAndDescendants,
        Combinator::SlotAssignment => NormalDependencyInvalidationKind::SlottedElements,
        Combinator::Part => NormalDependencyInvalidationKind::Parts,
    }
}

impl Dependency {
    /// The parse-order index of the combinator to the right of the
    /// dependency's compound selector.
    pub open spec fn combinator_index(&self) -> int {
        self.selector@.len() - self.selector_offset
    }

    /// The well-formedness of one dependency.
    pub open spec fn wf(&self) -> bool {
        &&& self.selector_offset <= self.selector@.len()
        &&& self.selector_offset > 0 ==> is_combinator(self.selector@[self.combinator_index()])
    }

    pub open spec fn normal_kind_spec(&self) -> NormalDependencyInvalidationKind {
        if self.selector_offset == 0 {
            NormalDependencyInvalidationKind::Element
        } else {
            normal_kind_of(combinator_of(self.selector@[self.combinator_index()]))
        }
    }

    pub open spec fn invalidation_kind_spec(&self) -> DependencyInvalidationKind {
        match self.relative_kind {
            Some(k) => DependencyInvalidationKind::Relative(k),
            None => DependencyInvalidationKind::Normal(self.normal_kind_spec()),
        }
    }

    /// Which elements this dependency invalidates when it matches.
    pub fn normal_invalidation_kind(&self) -> (r: NormalDependencyInvalidationKind)
        requires
            self.wf(),
        ensures
            r == self.normal_kind_spec(),
    {
        if self.selector_offset == 0 {
            NormalDependencyInvalidationKind::Element
        } else {
            let c = self.selector.combinator_at_parse_order(
                self.selector.len() - self.selector_offset,
            );
            match c {
                Combinator::Child | Combinator::Descendant => {
                    NormalDependencyInvalidationKind::Descendants
                },
                Combinator::NextSibling | Combinator::LaterSibling => {
                    NormalDependencyInvalidationKind::Siblings
                },
                Combinator::PseudoElement => NormalDependencyInvalidationKind::ElementAndDescendants,
                Combinator::SlotAssignment => NormalDependencyInvalidationKind::SlottedElements,
                Combinator::Part => NormalDependencyInvalidationKind::Parts,
            }
        }
    }

    /// The kind of this dependency.
    pub fn invalidation_kind(&self) -> (r: DependencyInvalidationKind)
        requires
            self.wf(),
        ensures
            r == self.invalidation_kind_spec(),
    {
        match self.relative_kind {
            Some(k) => DependencyInvalidationKind::Relative(k),
            None => DependencyInvalidationKind::Normal(self.normal_invalidation_kind()),
        }
    }
}

/// The read-only store of dependencies that invalidations point into.
pub struct DependencyStore {
    pub deps: Vec<Dependency>,
}

impl View for DependencyStore {
    type V = Seq<Dependency>;

    open spec fn view(&self) -> Seq<Dependency> {
        self.deps@
    }
}

impl DependencyStore {
    pub open spec fn dep_wf_at(&self, d: int) -> bool {
        &&& self.deps@[d].wf()
        &&& match self.deps@[d].next {
            Some(n) => n < d,
            None => true,
        }
    }

    /// Every dependency is well formed, and the `next` links point to
    /// earlier dependencies, so that climbing them ends.
    pub open spec fn wf(&self) -> bool {
        forall|d: int| 0 <= d < self.deps@.len() ==> #[trigger] self.dep_wf_at(d)
    }

    /// An empty store.
    pub fn new() -> (r: DependencyStore)
        ensures
            r.wf(),
            r@.len() == 0,
    {
        DependencyStore { deps: Vec::new() }
    }

    /// The number of dependencies.
    pub fn len(&self) -> (r: usize)
        ensures
            r == self@.len(),
    {
        self.deps.len()
    }

    /// Adds a dependency and returns its index. It is refused (`None`, the
    /// store unchanged) when its offset does not point just left of a
    /// combinator or past the selector's end, or when its `next` link does
    /// not name a dependency already in the store.
    pub fn push(&mut self, dep: Dependency) -> (r: Option<usize>)
        requires
            old(self).wf(),
        ensures
            final(self).wf(),
            r.is_some() == (dep.wf() && match dep.next {
                Some(n) => n < old(self)@.len(),
                None => true,
            }),
            r.is_some() ==> r == Some(old(self)@.len() as usize) && final(self)@ == old(self)@.push(
                dep,
            ),
            r.is_none() ==> final(self)@ == old(self)@,
    {
        let len = dep.selector.len();
        if dep.selector_offset > len {
            return None;
        }
        if dep.selector_offset > 0 {
            let k = len - dep.selector_offset;
            if !matches!(dep.selector.components[k], Component::Combinator(_)) {
                return None;
            }
        }
        match dep.next {
            Some(n) => {
                if n >= self.deps.len() {
                    return None;
                }
            },
            None => {},
        }
        let idx = self.deps.len();
        let ghost old_deps = self.deps@;
        self.deps.push(dep);
        proof {
            assert forall|d: int| 0 <= d < self.deps@.len() implies #[trigger] self.dep_wf_at(d) by {
                if d < idx {
                    assert(self.deps@[d] == old_deps[d]);
                    assert(old(self).dep_wf_at(d));
                }
            }
        }
        Some(idx)
    }
}

} // verus!
