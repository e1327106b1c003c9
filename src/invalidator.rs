//! The tree style invalidator: it walks the flattened tree from an element,
//! matches pending invalidations against each element it reaches, and
//! tells the processor which elements, siblings and descendants need a new
//! style.

use crate::dom::Dom;
use crate::invalidation_vector::{
    invalidation_items, iv_get, iv_insert, iv_len, iv_new, iv_push, iv_remove, InvalidationVector,
};
use crate::selector::{
    combinator_of, compound_match_spec, consistent_match, is_combinator, lemma_compound_end,
    Combinator, Component, CompoundSelectorMatchingResult, Dependency,
    DependencyInvalidationKind, DependencyStore, NormalDependencyInvalidationKind,
    RelativeDependencyInvalidationKind, Selector,
};
use vstd::prelude::*;

verus! {

/// The sibling links that one element had before a mutation.
#[derive(Clone, Copy, Debug, PartialEq, Eq, Structural)]
pub struct SiblingInfo {
    pub affected: usize,
    pub prev_sibling: Option<usize>,
    pub next_sibling: Option<usize>,
}

/// A map from at most one element to the siblings it had before it was
/// removed; every other element uses the live tree.
#[derive(Clone, Copy, Debug, PartialEq, Eq, Structural)]
pub struct SiblingTraversalMap {
    pub info: Option<SiblingInfo>,
}

impl SiblingTraversalMap {
    pub open spec fn next_spec(&self, dom: Dom, e: int) -> Option<usize> {
        match self.info {
            Some(info) => if info.affected == e {
                info.next_sibling
            } else {
                dom.node(e).next_sibling
            },
            None => dom.node(e).next_sibling,
        }
    }

    pub open spec fn prev_spec(&self, dom: Dom, e: int) -> Option<usize> {
        match self.info {
            Some(info) => if info.affected == e {
                info.prev_sibling
            } else {
                dom.node(e).prev_sibling
            },
            None => dom.node(e).prev_sibling,
        }
    }

    /// A map that overrides the siblings of `affected`.
    pub fn new(affected: usize, prev_sibling: Option<usize>, next_sibling: Option<usize>) -> (r:
        Self)
        ensures
            r.info == Some(SiblingInfo { affected, prev_sibling, next_sibling }),
    {
        SiblingTraversalMap { info: Some(SiblingInfo { affected, prev_sibling, next_sibling }) }
    }

    /// The next sibling of `element`: the stored one for the affected
    /// element, the live one for any other.
    pub fn next_sibling_for(&self, dom: &Dom, element: usize) -> (r: Option<usize>)
        requires
            element < dom.len_spec(),
        ensures
            r == self.next_spec(*dom, element as int),
    {
        if let Some(info) = self.info {
            if element == info.affected {
                return info.next_sibling;
            }
        }
        dom.next_sibling_element(element)
    }

    /// The previous sibling of `element`: the stored one for the affected
    /// element, the live one for any other.
    pub fn prev_sibling_for(&self, dom: &Dom, element: usize) -> (r: Option<usize>)
        requires
            element < dom.len_spec(),
        ensures
            r == self.prev_spec(*dom, element as int),
    {
        if let Some(info) = self.info {
            if element == info.affected {
                return info.prev_sibling;
            }
        }
        dom.prev_sibling_element(element)
    }
}

impl Default for SiblingTraversalMap {
    fn default() -> (r: Self)
        ensures
            r.info.is_none(),
    {
        SiblingTraversalMap { info: None }
    }
}

/// The kind of descendant that an invalidation applies to.
#[derive(Clone, Copy, Debug, PartialEq, Eq, Structural)]
pub enum DescendantInvalidationKind {
    /// A DOM descendant.
    Dom,
    /// A `::slotted()` descendant.
    Slotted,
    /// A `::part()` descendant.
    Part,
}

/// The kind of an invalidation: which list it belongs to.
#[derive(Clone, Copy, Debug, PartialEq, Eq, Structural)]
pub enum InvalidationKind {
    Descendant(DescendantInvalidationKind),
    Sibling,
}

/// A complex selector, and how far into it matching has come, that says
/// which elements relative to the current one must be restyled.
///
/// `dependency` indexes the store; `scope` is the shadow host the rule came
/// from; `offset` is a parse-order index into the dependency's selector,
/// just past the combinator to the left of the compound still to match
/// (zero for the left-most compound).
#[derive(Clone, Copy, Debug, PartialEq, Eq, Structural)]
pub struct Invalidation {
    pub dependency: usize,
    pub scope: Option<usize>,
    pub offset: usize,
    pub matched_by_any_previous: bool,
}

/// The selector of the dependency that `inv` points to.
pub open spec fn selector_of(store: DependencyStore, inv: Invalidation) -> Seq<Component> {
    store@[inv.dependency as int].selector@
}

/// An invalidation points into the store, and its offset is either zero or
/// just past a combinator.
pub open spec fn inv_wf(store: DependencyStore, inv: Invalidation) -> bool {
    &&& inv.dependency < store@.len()
    &&& inv.offset <= selector_of(store, inv).len()
    &&& inv.offset > 0 ==> is_combinator(selector_of(store, inv)[inv.offset - 1])
}

/// The combinator just left of the invalidation's offset.
pub open spec fn combinator_before(store: DependencyStore, inv: Invalidation) -> Combinator {
    combinator_of(selector_of(store, inv)[inv.offset - 1])
}

/// Combinators that let an invalidation apply again one step further.
pub open spec fn combinator_is_effective_for_next(c: Combinator) -> bool {
    match c {
        Combinator::Descendant | Combinator::LaterSibling | Combinator::PseudoElement => true,
        _ => false,
    }
}

pub open spec fn effective_for_next_spec(store: DependencyStore, inv: Invalidation) -> bool {
    inv.offset == 0 || combinator_is_effective_for_next(combinator_before(store, inv))
}

pub open spec fn kind_of_combinator(c: Combinator) -> InvalidationKind {
    match c {
        Combinator::Child | Combinator::Descendant | Combinator::PseudoElement => {
            InvalidationKind::Descendant(DescendantInvalidationKind::Dom)
        },
        Combinator::Part => InvalidationKind::Descendant(DescendantInvalidationKind::Part),
        Combinator::SlotAssignment => InvalidationKind::Descendant(
            DescendantInvalidationKind::Slotted,
        ),
        Combinator::NextSibling | Combinator::LaterSibling => InvalidationKind::Sibling,
    }
}

pub open spec fn kind_spec(store: DependencyStore, inv: Invalidation) -> InvalidationKind {
    if inv.offset == 0 {
        InvalidationKind::Descendant(DescendantInvalidationKind::Dom)
    } else {
        kind_of_combinator(combinator_before(store, inv))
    }
}

pub open spec fn all_wf(store: DependencyStore, s: Seq<Invalidation>) -> bool {
    forall|i: int| 0 <= i < s.len() ==> inv_wf(store, #[trigger] s[i])
}

impl Invalidation {
    /// The invalidation that starts matching `dependency` at the compound to
    /// the left of its combinator.
    pub fn new(store: &DependencyStore, dependency: usize, scope: Option<usize>) -> (r: Self)
        requires
            store.wf(),
            dependency < store@.len(),
            store@[dependency as int].selector_offset > 0,
        ensures
            r == (Invalidation {
                dependency,
                scope,
                offset: (store@[dependency as int].selector@.len() + 1
                    - store@[dependency as int].selector_offset) as usize,
                matched_by_any_previous: false,
            }),
            inv_wf(*store, r),
            r.offset > 0,
    {
        let dep = &store.deps[dependency];
        proof {
            assert(store.dep_wf_at(dependency as int));
        }
        Invalidation {
            dependency,
            scope,
            offset: dep.selector.len() - dep.selector_offset + 1,
            matched_by_any_previous: false,
        }
    }

    /// Whether this invalidation points into `store` properly.
    pub fn is_valid(&self, store: &DependencyStore) -> (r: bool)
        ensures
            r == inv_wf(*store, *self),
    {
        if self.dependency >= store.deps.len() {
            return false;
        }
        let sel = &store.deps[self.dependency].selector;
        if self.offset > sel.len() {
            return false;
        }
        if self.offset > 0 {
            return matches!(sel.components[self.offset - 1], Component::Combinator(_));
        }
        true
    }

    /// Whether this invalidation still applies to the next sibling or
    /// descendant after the element it matched.
    pub fn effective_for_next(&self, store: &DependencyStore) -> (r: bool)
        requires
            inv_wf(*store, *self),
        ensures
            r == effective_for_next_spec(*store, *self),
    {
        if self.offset == 0 {
            return true;
        }
        match store.deps[self.dependency].selector.combinator_at_parse_order(self.offset - 1) {
            Combinator::Descendant | Combinator::LaterSibling | Combinator::PseudoElement => true,
            Combinator::Part
            | Combinator::SlotAssignment
            | Combinator::NextSibling
            | Combinator::Child => false,
        }
    }

    /// The list this invalidation belongs to.
    pub fn kind(&self, store: &DependencyStore) -> (r: InvalidationKind)
        requires
            inv_wf(*store, *self),
        ensures
            r == kind_spec(*store, *self),
    {
        if self.offset == 0 {
            return InvalidationKind::Descendant(DescendantInvalidationKind::Dom);
        }
        match store.deps[self.dependency].selector.combinator_at_parse_order(self.offset - 1) {
            Combinator::Child | Combinator::Descendant | Combinator::PseudoElement => {
                InvalidationKind::Descendant(DescendantInvalidationKind::Dom)
            },
            Combinator::Part => InvalidationKind::Descendant(DescendantInvalidationKind::Part),
            Combinator::SlotAssignment => InvalidationKind::Descendant(
                DescendantInvalidationKind::Slotted,
            ),
            Combinator::NextSibling | Combinator::LaterSibling => InvalidationKind::Sibling,
        }
    }
}

/// The invalidations for an element's descendants, one list for each way
/// of reaching them.
pub struct DescendantInvalidationLists {
    /// For DOM children and pseudo-elements.
    pub dom_descendants: InvalidationVector,
    /// For elements slotted into this one.
    pub slotted_descendants: InvalidationVector,
    /// For the `::part()`s of this element's shadow tree.
    pub parts: InvalidationVector,
}

/// The contents of the three lists, in the order dom, slotted, parts.
pub open spec fn lists_view(l: DescendantInvalidationLists) -> (
    Seq<Invalidation>,
    Seq<Invalidation>,
    Seq<Invalidation>,
) {
    (
        invalidation_items(l.dom_descendants),
        invalidation_items(l.slotted_descendants),
        invalidation_items(l.parts),
    )
}

pub open spec fn lists_wf(store: DependencyStore, l: DescendantInvalidationLists) -> bool {
    &&& all_wf(store, lists_view(l).0)
    &&& all_wf(store, lists_view(l).1)
    &&& all_wf(store, lists_view(l).2)
}

pub open spec fn lists_empty(l: DescendantInvalidationLists) -> bool {
    &&& lists_view(l).0.len() == 0
    &&& lists_view(l).1.len() == 0
    &&& lists_view(l).2.len() == 0
}

impl DescendantInvalidationLists {
    /// Three empty lists.
    pub fn new() -> (r: Self)
        ensures
            lists_empty(r),
            lists_view(r).0 == Seq::<Invalidation>::empty(),
            lists_view(r).1 == Seq::<Invalidation>::empty(),
            lists_view(r).2 == Seq::<Invalidation>::empty(),
    {
        DescendantInvalidationLists {
            dom_descendants: iv_new(),
            slotted_descendants: iv_new(),
            parts: iv_new(),
        }
    }

    /// Whether all three lists are empty.
    pub fn is_empty(&self) -> (r: bool)
        ensures
            r == lists_empty(*self),
    {
        iv_len(&self.dom_descendants) == 0 && iv_len(&self.slotted_descendants) == 0 && iv_len(
            &self.parts,
        ) == 0
    }
}

/// Whether the new invalidation `next` needs no push: it is of the same
/// kind as the invalidation that produced it, that one was already matched
/// by an earlier sibling or ancestor, and `next` stays in its list, so an
/// identical copy is already pending.
pub open spec fn can_skip_pushing(
    store: DependencyStore,
    next: Invalidation,
    current_kind: InvalidationKind,
    current_matched: bool,
) -> bool {
    &&& kind_spec(store, next) == current_kind
    &&& current_matched
    &&& effective_for_next_spec(store, next)
}

/// The lists after `next` is recorded: unchanged where the push can be
/// skipped, else with `next` appended to the list of its kind.
pub open spec fn push_spec(
    store: DependencyStore,
    next: Invalidation,
    current_kind: InvalidationKind,
    current_matched: bool,
    lists: (Seq<Invalidation>, Seq<Invalidation>, Seq<Invalidation>),
    siblings: Seq<Invalidation>,
) -> ((Seq<Invalidation>, Seq<Invalidation>, Seq<Invalidation>), Seq<Invalidation>) {
    if can_skip_pushing(store, next, current_kind, current_matched) {
        (lists, siblings)
    } else {
        match kind_spec(store, next) {
            InvalidationKind::Descendant(DescendantInvalidationKind::Dom) => (
                (lists.0.push(next), lists.1, lists.2),
                siblings,
            ),
            InvalidationKind::Descendant(DescendantInvalidationKind::Slotted) => (
                (lists.0, lists.1.push(next), lists.2),
                siblings,
            ),
            InvalidationKind::Descendant(DescendantInvalidationKind::Part) => (
                (lists.0, lists.1, lists.2.push(next)),
                siblings,
            ),
            InvalidationKind::Sibling => (lists, siblings.push(next)),
        }
    }
}

/// The invalidations of `s` that stay effective for the next element.
pub open spec fn still_effective(store: DependencyStore, s: Seq<Invalidation>) -> Seq<Invalidation> {
    s.filter(|x: Invalidation| effective_for_next_spec(store, x))
}

/// How many invalidations the three descendant lists and the sibling list
/// hold together.
pub open spec fn pending_count(
    lists: (Seq<Invalidation>, Seq<Invalidation>, Seq<Invalidation>),
    siblings: Seq<Invalidation>,
) -> int {
    (lists.0.len() + lists.1.len() + lists.2.len() + siblings.len()) as int
}

/// Each list of `a` is a prefix of the same list of `b`.
pub open spec fn lists_grow(
    a: (Seq<Invalidation>, Seq<Invalidation>, Seq<Invalidation>),
    b: (Seq<Invalidation>, Seq<Invalidation>, Seq<Invalidation>),
) -> bool {
    &&& a.0.is_prefix_of(b.0)
    &&& a.1.is_prefix_of(b.1)
    &&& a.2.is_prefix_of(b.2)
}

/// A child (`>`) invalidation applies exactly once: it is not handed on to
/// the next element, so it never reaches a grandchild, and it belongs to
/// the list of DOM descendants.
pub proof fn lemma_child_combinator_applies_once(store: DependencyStore, inv: Invalidation)
    requires
        inv_wf(store, inv),
        inv.offset > 0,
        combinator_before(store, inv) == Combinator::Child,
    ensures
        !effective_for_next_spec(store, inv),
        kind_spec(store, inv) == InvalidationKind::Descendant(DescendantInvalidationKind::Dom),
{
}

/// A sibling invalidation through `+` is consumed by the one sibling right
/// after: when no pending invalidation is effective for the next element,
/// none of them is kept for the sibling after that.
pub proof fn lemma_ineffective_invalidations_are_dropped(store: DependencyStore, s: Seq<Invalidation>)
    requires
        forall|k: int| 0 <= k < s.len() ==> !effective_for_next_spec(store, #[trigger] s[k]),
    ensures
        still_effective(store, s).len() == 0,
    decreases s.len(),
{
    reveal(Seq::filter);
    if s.len() > 0 {
        let rest = s.drop_last();
        assert forall|k: int| 0 <= k < rest.len() implies !effective_for_next_spec(
            store,
            #[trigger] rest[k],
        ) by {
            assert(rest[k] == s[k]);
        }
        lemma_ineffective_invalidations_are_dropped(store, rest);
        assert(!effective_for_next_spec(store, s[s.len() - 1]));
    }
}

/// A next-sibling (`+`) invalidation is not effective for the next element.
pub proof fn lemma_next_sibling_applies_once(store: DependencyStore, inv: Invalidation)
    requires
        inv_wf(store, inv),
        inv.offset > 0,
        combinator_before(store, inv) == Combinator::NextSibling,
    ensures
        !effective_for_next_spec(store, inv),
        kind_spec(store, inv) == InvalidationKind::Sibling,
{
}

/// Recording never drops anything: every list only grows, and by at most
/// the one new invalidation.
pub proof fn lemma_push_grows_by_at_most_one(
    store: DependencyStore,
    next: Invalidation,
    kind: InvalidationKind,
    matched_before: bool,
    lists: (Seq<Invalidation>, Seq<Invalidation>, Seq<Invalidation>),
    siblings: Seq<Invalidation>,
)
    ensures
        ({
            let (l, sib) = push_spec(store, next, kind, matched_before, lists, siblings);
            &&& lists_grow(lists, l)
            &&& siblings.is_prefix_of(sib)
            &&& pending_count(l, sib) <= pending_count(lists, siblings) + 1
            &&& can_skip_pushing(store, next, kind, matched_before) ==> l == lists && sib
                == siblings
        }),
{
    let (l, sib) = push_spec(store, next, kind, matched_before, lists, siblings);
    assert(lists.0.is_prefix_of(lists.0.push(next)));
    assert(lists.1.is_prefix_of(lists.1.push(next)));
    assert(lists.2.is_prefix_of(lists.2.push(next)));
    assert(siblings.is_prefix_of(siblings.push(next)));
    assert(lists.0.is_prefix_of(lists.0));
    assert(lists.1.is_prefix_of(lists.1));
    assert(lists.2.is_prefix_of(lists.2));
    assert(siblings.is_prefix_of(siblings));
}

/// Records `next`, produced by matching an invalidation of kind
/// `current_kind` whose `matched_by_any_previous` flag is `current_matched`.
fn push_invalidation(
    store: &DependencyStore,
    next: Invalidation,
    current_kind: InvalidationKind,
    current_matched: bool,
    descendant_invalidations: &mut DescendantInvalidationLists,
    sibling_invalidations: &mut InvalidationVector,
)
    requires
        inv_wf(*store, next),
    ensures
        (lists_view(*final(descendant_invalidations)), invalidation_items(
            *final(sibling_invalidations),
        )) == push_spec(
            *store,
            next,
            current_kind,
            current_matched,
            lists_view(*old(descendant_invalidations)),
            invalidation_items(*old(sibling_invalidations)),
        ),
{
    let next_kind = next.kind(store);
    let can_skip = next_kind == current_kind && current_matched && next.effective_for_next(store);
    if !can_skip {
        match next_kind {
            InvalidationKind::Descendant(DescendantInvalidationKind::Dom) => {
                iv_push(&mut descendant_invalidations.dom_descendants, next);
            },
            InvalidationKind::Descendant(DescendantInvalidationKind::Part) => {
                iv_push(&mut descendant_invalidations.parts, next);
            },
            InvalidationKind::Descendant(DescendantInvalidationKind::Slotted) => {
                iv_push(&mut descendant_invalidations.slotted_descendants, next);
            },
            InvalidationKind::Sibling => {
                iv_push(sibling_invalidations, next);
            },
        }
    }
}

/// The result of processing one invalidation against one element.
pub struct SingleInvalidationResult {
    /// Whether the element itself was invalidated.
    pub invalidated_self: bool,
    /// Whether the invalidation matched: it invalidated the element or
    /// produced another invalidation.
    pub matched: bool,
}

/// The result of a whole invalidation pass from one element.
pub struct InvalidationResult {
    pub invalidated_self: bool,
    pub invalidated_descendants: bool,
    pub invalidated_siblings: bool,
}

impl InvalidationResult {
    /// A result that invalidated nothing.
    pub fn empty() -> (r: Self)
        ensures
            !r.invalidated_self,
            !r.invalidated_descendants,
            !r.invalidated_siblings,
    {
        InvalidationResult {
            invalidated_self: false,
            invalidated_descendants: false,
            invalidated_siblings: false,
        }
    }

    /// Whether the element itself was invalidated.
    pub fn has_invalidated_self(&self) -> (r: bool)
        ensures
            r == self.invalidated_self,
    {
        self.invalidated_self
    }

    /// Whether descendants of the element were invalidated.
    pub fn has_invalidated_descendants(&self) -> (r: bool)
        ensures
            r == self.invalidated_descendants,
    {
        self.invalidated_descendants
    }

    /// Whether later siblings of the element were invalidated.
    pub fn has_invalidated_siblings(&self) -> (r: bool)
        ensures
            r == self.invalidated_siblings,
    {
        self.invalidated_siblings
    }
}

/// Bounds how deep a walk may go below the element it started from; past
/// the bound the walk stops descending and over-invalidates instead.
#[derive(Clone, Copy, Debug, PartialEq, Eq, Structural)]
pub struct StackLimitChecker {
    pub max_depth: usize,
}

impl StackLimitChecker {
    /// A checker that trips at `max_depth` levels below the start.
    pub fn new(max_depth: usize) -> (r: Self)
        ensures
            r.max_depth == max_depth,
    {
        StackLimitChecker { max_depth }
    }

    /// Whether an element `depth` levels below the start is past the limit.
    pub fn limit_exceeded(&self, depth: usize) -> (r: bool)
        ensures
            r == (depth >= self.max_depth),
    {
        depth >= self.max_depth
    }
}

/// A notification that the invalidator sends to its processor.
#[derive(Clone, Copy, Debug, PartialEq, Eq, Structural)]
pub enum Notification {
    /// `invalidated_self(element)`.
    InvalidatedSelf(usize),
    /// `invalidated_sibling(sibling, of)`.
    InvalidatedSibling(usize, usize),
    /// `invalidated_descendants(element, child)`.
    InvalidatedDescendants(usize, usize),
    /// `recursion_limit_exceeded(element)`.
    RecursionLimitExceeded(usize),
    /// `found_relative_selector_invalidation(element, kind, dependency)`.
    RelativeSelector(usize, RelativeDependencyInvalidationKind, usize),
}

/// What `collect_invalidations` hands out for an element: whether the
/// element is invalidated already, then the self, DOM-descendant, slotted,
/// part and sibling invalidations.
pub type Collected = (
    bool,
    Seq<Invalidation>,
    Seq<Invalidation>,
    Seq<Invalidation>,
    Seq<Invalidation>,
    Seq<Invalidation>,
);

/// What the invalidator asks of the pass it serves: the invalidations to
/// start from, the matching of compound selectors, policy answers, and the
/// notifications of what was invalidated.
///
/// The answers are modelled by spec functions of the processor that the
/// calls keep unchanged; every notification is appended to `log`.
pub trait InvalidationProcessor: Sized {
    /// The answers of `match_compound`.
    spec fn compound_answers(&self) -> spec_fn(Dom, Seq<Component>, int, Option<usize>, int) -> CompoundSelectorMatchingResult;

    /// The answers of `check_outer_dependency`.
    spec fn outer_answers(&self) -> spec_fn(Dependency, int) -> bool;

    /// The answers of `should_process_descendants`.
    spec fn descend_answers(&self) -> spec_fn(int) -> bool;

    /// The answers of `collect_invalidations`.
    spec fn collect_answers(&self) -> spec_fn(DependencyStore, int) -> Collected;

    /// The answer of `invalidates_on_pseudo_element`.
    spec fn pseudo_element_sensitive(&self) -> bool;

    /// The answer of `light_tree_only`.
    spec fn light_tree(&self) -> bool;

    /// The answer of `sibling_traversal_map`.
    spec fn traversal_map(&self) -> SiblingTraversalMap;

    /// The notifications received so far, in order.
    spec fn log(&self) -> Seq<Notification>;

    /// Whether an invalidation that reaches a pseudo-element (such as
    /// `::before`) also invalidates the element that originates it.
    fn invalidates_on_pseudo_element(&self) -> (r: bool)
        ensures
            r == self.pseudo_element_sensitive(),
    ;

    /// Whether only light-tree descendants matter (no shadow trees,
    /// anonymous content or pseudo-elements).
    fn light_tree_only(&self) -> (r: bool)
        ensures
            r == self.light_tree(),
    ;

    /// Once an inner selector of `:is()` or `:where()` matched completely,
    /// whether the outer dependency that follows still applies to `element`.
    fn check_outer_dependency(&mut self, dependency: &Dependency, element: usize) -> (r: bool)
        ensures
            r == (old(self).outer_answers())(*dependency, element as int),
            final(self).compound_answers() == old(self).compound_answers(),
            final(self).outer_answers() == old(self).outer_answers(),
            final(self).descend_answers() == old(self).descend_answers(),
            final(self).collect_answers() == old(self).collect_answers(),
            final(self).pseudo_element_sensitive() == old(self).pseudo_element_sensitive(),
            final(self).light_tree() == old(self).light_tree(),
            final(self).traversal_map() == old(self).traversal_map(),
            final(self).log() == old(self).log(),
    ;

    /// Matches the compound selector of `selector` that starts at
    /// `offset` against `element`, with `scope` as the current shadow host.
    fn match_compound(
        &mut self,
        dom: &Dom,
        selector: &Selector,
        offset: usize,
        scope: Option<usize>,
        element: usize,
    ) -> (r: CompoundSelectorMatchingResult)
        requires
            dom.wf(),
            offset <= selector@.len(),
            element < dom.len_spec(),
        ensures
            r == (old(self).compound_answers())(*dom, selector@, offset as int, scope, element as int),
            consistent_match(selector@, offset as int, r),
            final(self).compound_answers() == old(self).compound_answers(),
            final(self).outer_answers() == old(self).outer_answers(),
            final(self).descend_answers() == old(self).descend_answers(),
            final(self).collect_answers() == old(self).collect_answers(),
            final(self).pseudo_element_sensitive() == old(self).pseudo_element_sensitive(),
            final(self).light_tree() == old(self).light_tree(),
            final(self).traversal_map() == old(self).traversal_map(),
            final(self).log() == old(self).log(),
    ;

    /// The sibling map to walk siblings with.
    fn sibling_traversal_map(&self) -> (r: &SiblingTraversalMap)
        ensures
            *r == self.traversal_map(),
    ;

    /// Fills the lists of invalidations that start at `element`, and says
    /// whether `element` itself is invalidated regardless of selectors.
    fn collect_invalidations(
        &mut self,
        store: &DependencyStore,
        element: usize,
        self_invalidations: &mut InvalidationVector,
        descendant_invalidations: &mut DescendantInvalidationLists,
        sibling_invalidations: &mut InvalidationVector,
    ) -> (r: bool)
        ensures
            ({
                let c = (old(self).collect_answers())(*store, element as int);
                &&& r == c.0
                &&& invalidation_items(*final(self_invalidations)) == c.1
                &&& lists_view(*final(descendant_invalidations)) == (c.2, c.3, c.4)
                &&& invalidation_items(*final(sibling_invalidations)) == c.5
            }),
            all_wf(*store, invalidation_items(*final(self_invalidations))),
            lists_wf(*store, *final(descendant_invalidations)),
            all_wf(*store, invalidation_items(*final(sibling_invalidations))),
            final(self).compound_answers() == old(self).compound_answers(),
            final(self).outer_answers() == old(self).outer_answers(),
            final(self).descend_answers() == old(self).descend_answers(),
            final(self).collect_answers() == old(self).collect_answers(),
            final(self).pseudo_element_sensitive() == old(self).pseudo_element_sensitive(),
            final(self).light_tree() == old(self).light_tree(),
            final(self).traversal_map() == old(self).traversal_map(),
            final(self).log() == old(self).log(),
    ;

    /// Whether the descendants of `element` should be walked.
    fn should_process_descendants(&mut self, element: usize) -> (r: bool)
        ensures
            r == (old(self).descend_answers())(element as int),
            final(self).compound_answers() == old(self).compound_answers(),
            final(self).outer_answers() == old(self).outer_answers(),
            final(self).descend_answers() == old(self).descend_answers(),
            final(self).collect_answers() == old(self).collect_answers(),
            final(self).pseudo_element_sensitive() == old(self).pseudo_element_sensitive(),
            final(self).light_tree() == old(self).light_tree(),
            final(self).traversal_map() == old(self).traversal_map(),
            final(self).log() == old(self).log(),
    ;

    /// Told when the depth limit stopped the walk at `element`.
    fn recursion_limit_exceeded(&mut self, element: usize)
        ensures
            final(self).compound_answers() == old(self).compound_answers(),
            final(self).outer_answers() == old(self).outer_answers(),
            final(self).descend_answers() == old(self).descend_answers(),
            final(self).collect_answers() == old(self).collect_answers(),
            final(self).pseudo_element_sensitive() == old(self).pseudo_element_sensitive(),
            final(self).light_tree() == old(self).light_tree(),
            final(self).traversal_map() == old(self).traversal_map(),
            final(self).log() == old(self).log().push(Notification::RecursionLimitExceeded(element)),
    ;

    /// Told when `element` is invalidated.
    fn invalidated_self(&mut self, element: usize)
        ensures
            final(self).compound_answers() == old(self).compound_answers(),
            final(self).outer_answers() == old(self).outer_answers(),
            final(self).descend_answers() == old(self).descend_answers(),
            final(self).collect_answers() == old(self).collect_answers(),
            final(self).pseudo_element_sensitive() == old(self).pseudo_element_sensitive(),
            final(self).light_tree() == old(self).light_tree(),
            final(self).traversal_map() == old(self).traversal_map(),
            final(self).log() == old(self).log().push(Notification::InvalidatedSelf(element)),
    ;

    /// Told when `sibling` is invalidated as a later sibling of `of`.
    fn invalidated_sibling(&mut self, sibling: usize, of: usize)
        ensures
            final(self).compound_answers() == old(self).compound_answers(),
            final(self).outer_answers() == old(self).outer_answers(),
            final(self).descend_answers() == old(self).descend_answers(),
            final(self).collect_answers() == old(self).collect_answers(),
            final(self).pseudo_element_sensitive() == old(self).pseudo_element_sensitive(),
            final(self).light_tree() == old(self).light_tree(),
            final(self).traversal_map() == old(self).traversal_map(),
            final(self).log() == old(self).log().push(Notification::InvalidatedSibling(sibling, of)),
    ;

    /// Told when `child`, or something below it, is invalidated; `child`
    /// is a flattened-tree child of `element`.
    fn invalidated_descendants(&mut self, element: usize, child: usize)
        ensures
            final(self).compound_answers() == old(self).compound_answers(),
            final(self).outer_answers() == old(self).outer_answers(),
            final(self).descend_answers() == old(self).descend_answers(),
            final(self).collect_answers() == old(self).collect_answers(),
            final(self).pseudo_element_sensitive() == old(self).pseudo_element_sensitive(),
            final(self).light_tree() == old(self).light_tree(),
            final(self).traversal_map() == old(self).traversal_map(),
            final(self).log() == old(self).log().push(
                Notification::InvalidatedDescendants(element, child),
            ),
    ;

    /// Told when matching reaches a dependency of a relative selector
    /// (`:has()`), which this walk hands over instead of following.
    fn found_relative_selector_invalidation(
        &mut self,
        element: usize,
        kind: RelativeDependencyInvalidationKind,
        dependency: usize,
    )
        ensures
            final(self).compound_answers() == old(self).compound_answers(),
            final(self).outer_answers() == old(self).outer_answers(),
            final(self).descend_answers() == old(self).descend_answers(),
            final(self).collect_answers() == old(self).collect_answers(),
            final(self).pseudo_element_sensitive() == old(self).pseudo_element_sensitive(),
            final(self).light_tree() == old(self).light_tree(),
            final(self).traversal_map() == old(self).traversal_map(),
            final(self).log() == old(self).log().push(
                Notification::RelativeSelector(element, kind, dependency),
            ),
    ;
}

/// What a processor answers, gathered: compound matching, outer checks,
/// whether to walk descendants, collection, pseudo-element sensitivity,
/// light-tree-only, and the sibling map.
pub type Answers = (
    spec_fn(Dom, Seq<Component>, int, Option<usize>, int) -> CompoundSelectorMatchingResult,
    spec_fn(Dependency, int) -> bool,
    spec_fn(int) -> bool,
    spec_fn(DependencyStore, int) -> Collected,
    bool,
    bool,
    SiblingTraversalMap,
);

pub open spec fn answers_of<P: InvalidationProcessor>(p: P) -> Answers {
    (
        p.compound_answers(),
        p.outer_answers(),
        p.descend_answers(),
        p.collect_answers(),
        p.pseudo_element_sensitive(),
        p.light_tree(),
        p.traversal_map(),
    )
}

/// Two processors give the same answers.
pub open spec fn same_answers<P: InvalidationProcessor>(a: P, b: P) -> bool {
    answers_of(a) == answers_of(b)
}

/// Whether `r` says truly that the notifications grew from `a` to `b` by
/// something other than relative hand-offs.
pub open spec fn reports(r: bool, a: Seq<Notification>, b: Seq<Notification>) -> bool {
    if r {
        loud_growth(a, b)
    } else {
        quiet_growth(a, b)
    }
}

/// Whether an invalidation invalidates an element depends on the
/// processor's answers only.
pub proof fn lemma_any_same<P: InvalidationProcessor>(
    a: P,
    b: P,
    dom: Dom,
    store: DependencyStore,
    invs: Seq<Invalidation>,
    e: int,
)
    requires
        same_answers(a, b),
    ensures
        any_invalidates_self(answers_of(a), dom, store, invs, e) == any_invalidates_self(answers_of(b), dom, store, invs, e),
{
    assert forall|i: int| 0 <= i < invs.len() implies #[trigger] single_spec(answers_of(a), dom, store, invs[i], e)
        == single_spec(answers_of(b), dom, store, invs[i], e) by {
        lemma_processing_is_deterministic(
            a,
            b,
            dom,
            store,
            invs[i],
            e,
            InvalidationKind::Sibling,
            (Seq::empty(), Seq::empty(), Seq::empty()),
            Seq::empty(),
            Seq::empty(),
        );
    }
    if any_invalidates_self(answers_of(a), dom, store, invs, e) {
        let i = choose|i: int| 0 <= i < invs.len() && (#[trigger] single_spec(answers_of(a), dom, store, invs[i], e)).0;
        assert(single_spec(answers_of(b), dom, store, invs[i], e).0);
    }
    if any_invalidates_self(answers_of(b), dom, store, invs, e) {
        let i = choose|i: int| 0 <= i < invs.len() && (#[trigger] single_spec(answers_of(b), dom, store, invs[i], e)).0;
        assert(single_spec(answers_of(a), dom, store, invs[i], e).0);
    }
}

/// Reports compose by `||`.
pub proof fn lemma_reports_or(
    x: bool,
    y: bool,
    a: Seq<Notification>,
    b: Seq<Notification>,
    c: Seq<Notification>,
)
    requires
        reports(x, a, b),
        reports(y, b, c),
    ensures
        reports(x || y, a, c),
{
    lemma_growth_chain(a, b, c);
}

/// What matching one invalidation against an element leads to.
#[derive(Clone, Copy, Debug, PartialEq, Eq, Structural)]
pub enum MatchOutcome {
    /// The compound selector did not match.
    NoMatch,
    /// The selector matched completely and no outer dependency follows: the
    /// element itself is invalidated.
    SelfInvalidated,
    /// An outer dependency of a relative selector was reached: it goes to
    /// the processor, with its kind and index.
    Relative(RelativeDependencyInvalidationKind, usize),
    /// An outer dependency's check failed.
    OuterFailed,
    /// The invalidation to go on with.
    Next(Invalidation),
}

/// The invalidation that `Invalidation::new` makes for dependency `d`.
pub open spec fn new_invalidation_spec(store: DependencyStore, d: int, scope: Option<usize>) -> Invalidation {
    Invalidation {
        dependency: d as usize,
        scope,
        offset: (store@[d].selector@.len() + 1 - store@[d].selector_offset) as usize,
        matched_by_any_previous: false,
    }
}

/// Climbing the outer dependencies from dependency `cur` after a complete
/// match against element `e`, with `outer` answering the outer checks.
pub open spec fn climb_spec(
    outer: spec_fn(Dependency, int) -> bool,
    store: DependencyStore,
    cur: int,
    scope: Option<usize>,
    e: int,
) -> MatchOutcome
    decreases cur,
{
    if !(0 <= cur < store@.len()) {
        MatchOutcome::NoMatch
    } else {
        match store@[cur].next {
            None => MatchOutcome::SelfInvalidated,
            Some(n) => if n as int >= cur {
                MatchOutcome::NoMatch
            } else {
                match store@[n as int].relative_kind {
                    Some(k) => MatchOutcome::Relative(k, n),
                    None => if !outer(store@[n as int], e) {
                        MatchOutcome::OuterFailed
                    } else if store@[n as int].selector_offset == 0 {
                        climb_spec(outer, store, n as int, scope, e)
                    } else {
                        MatchOutcome::Next(new_invalidation_spec(store, n as int, scope))
                    },
                }
            },
        }
    }
}

/// What matching `inv` against element `e` leads to, given the processor's
/// answers.
pub open spec fn outcome_spec(
    p: Answers,
    dom: Dom,
    store: DependencyStore,
    inv: Invalidation,
    e: int,
) -> MatchOutcome {
    match (p.0)(dom, selector_of(store, inv), inv.offset as int, inv.scope, e) {
        CompoundSelectorMatchingResult::NotMatched => MatchOutcome::NoMatch,
        CompoundSelectorMatchingResult::Matched { next_combinator_offset: k } => MatchOutcome::Next(
            Invalidation {
                dependency: inv.dependency,
                scope: inv.scope,
                offset: (k + 1) as usize,
                matched_by_any_previous: false,
            },
        ),
        CompoundSelectorMatchingResult::FullyMatched => climb_spec(
            p.1,
            store,
            inv.dependency as int,
            inv.scope,
            e,
        ),
    }
}

/// The result of processing `inv` against `e`: whether `e` is invalidated,
/// and whether the invalidation matched.
pub open spec fn single_spec(
    p: Answers,
    dom: Dom,
    store: DependencyStore,
    inv: Invalidation,
    e: int,
) -> (bool, bool) {
    match outcome_spec(p, dom, store, inv, e) {
        MatchOutcome::NoMatch => (false, false),
        MatchOutcome::SelfInvalidated => (true, true),
        MatchOutcome::Relative(_, _) => (false, true),
        MatchOutcome::OuterFailed => (false, false),
        MatchOutcome::Next(x) => (
            combinator_before(store, x) == Combinator::PseudoElement && p.4,
            true,
        ),
    }
}

/// The lists after processing `inv` against `e`: the invalidation it leads
/// to, if any, is recorded as `push_spec` says.
pub open spec fn lists_after_spec(
    p: Answers,
    dom: Dom,
    store: DependencyStore,
    inv: Invalidation,
    e: int,
    kind: InvalidationKind,
    lists: (Seq<Invalidation>, Seq<Invalidation>, Seq<Invalidation>),
    siblings: Seq<Invalidation>,
) -> ((Seq<Invalidation>, Seq<Invalidation>, Seq<Invalidation>), Seq<Invalidation>) {
    match outcome_spec(p, dom, store, inv, e) {
        MatchOutcome::Next(x) => push_spec(store, x, kind, inv.matched_by_any_previous, lists, siblings),
        _ => (lists, siblings),
    }
}

/// The notifications after processing `inv` against `e`: a relative
/// hand-off is the only one.
pub open spec fn log_after_spec(
    p: Answers,
    dom: Dom,
    store: DependencyStore,
    inv: Invalidation,
    e: int,
    log: Seq<Notification>,
) -> Seq<Notification> {
    match outcome_spec(p, dom, store, inv, e) {
        MatchOutcome::Relative(k, n) => log.push(Notification::RelativeSelector(e as usize, k, n)),
        _ => log,
    }
}

/// Processing an invalidation depends on nothing but its inputs and the
/// processor's answers: two processors that answer alike give the same
/// result, lists and notifications.
pub proof fn lemma_processing_is_deterministic<P: InvalidationProcessor>(
    a: P,
    b: P,
    dom: Dom,
    store: DependencyStore,
    inv: Invalidation,
    e: int,
    kind: InvalidationKind,
    lists: (Seq<Invalidation>, Seq<Invalidation>, Seq<Invalidation>),
    siblings: Seq<Invalidation>,
    log: Seq<Notification>,
)
    requires
        same_answers(a, b),
    ensures
        single_spec(answers_of(a), dom, store, inv, e) == single_spec(answers_of(b), dom, store, inv, e),
        lists_after_spec(answers_of(a), dom, store, inv, e, kind, lists, siblings) == lists_after_spec(
            answers_of(b),
            dom,
            store,
            inv,
            e,
            kind,
            lists,
            siblings,
        ),
        log_after_spec(answers_of(a), dom, store, inv, e, log) == log_after_spec(answers_of(b), dom, store, inv, e, log),
{
}

/// `inv` as handed on after it was processed: marked as matched where it
/// matched.
pub open spec fn forward_spec(inv: Invalidation, matched: bool) -> Invalidation {
    Invalidation {
        dependency: inv.dependency,
        scope: inv.scope,
        offset: inv.offset,
        matched_by_any_previous: inv.matched_by_any_previous || matched,
    }
}

/// Whether some invalidation of `invs` invalidates element `e`.
pub open spec fn any_invalidates_self(
    p: Answers,
    dom: Dom,
    store: DependencyStore,
    invs: Seq<Invalidation>,
    e: int,
) -> bool {
    exists|i: int| 0 <= i < invs.len() && (#[trigger] single_spec(p, dom, store, invs[i], e)).0
}

/// The lists after the first `n` invalidations from the parent were
/// processed against `e`: each records what it leads to, then, where it is
/// effective for the next element, is handed on to the DOM descendants.
pub open spec fn descendant_fold(
    p: Answers,
    dom: Dom,
    store: DependencyStore,
    e: int,
    kind: DescendantInvalidationKind,
    invs: Seq<Invalidation>,
    n: int,
    lists: (Seq<Invalidation>, Seq<Invalidation>, Seq<Invalidation>),
    siblings: Seq<Invalidation>,
) -> ((Seq<Invalidation>, Seq<Invalidation>, Seq<Invalidation>), Seq<Invalidation>)
    decreases n,
{
    if n <= 0 {
        (lists, siblings)
    } else {
        let prev = descendant_fold(p, dom, store, e, kind, invs, n - 1, lists, siblings);
        let inv = invs[n - 1];
        let after = lists_after_spec(
            p,
            dom,
            store,
            inv,
            e,
            InvalidationKind::Descendant(kind),
            prev.0,
            prev.1,
        );
        if effective_for_next_spec(store, inv) {
            (
                (
                    after.0.0.push(forward_spec(inv, single_spec(p, dom, store, inv, e).1)),
                    after.0.1,
                    after.0.2,
                ),
                after.1,
            )
        } else {
            after
        }
    }
}

/// `x` with its matched flag updated after it was processed against `e`.
pub open spec fn mark_spec(
    p: Answers,
    dom: Dom,
    store: DependencyStore,
    e: int,
    x: Invalidation,
) -> Invalidation {
    forward_spec(x, single_spec(p, dom, store, x, e).1)
}

/// The sibling invalidations of `s` that stay for the next sibling after
/// being processed against `e`, in order, with their flags updated.
pub open spec fn kept_spec(
    p: Answers,
    dom: Dom,
    store: DependencyStore,
    e: int,
    s: Seq<Invalidation>,
) -> Seq<Invalidation> {
    still_effective(store, s).map_values(|x: Invalidation| mark_spec(p, dom, store, e, x))
}

/// A child (`>`) invalidation from the parent is not handed on to the
/// element's descendants: processing it records only what it leads to.
pub proof fn lemma_child_invalidation_not_handed_on(
    p: Answers,
    dom: Dom,
    store: DependencyStore,
    e: int,
    kind: DescendantInvalidationKind,
    inv: Invalidation,
    lists: (Seq<Invalidation>, Seq<Invalidation>, Seq<Invalidation>),
    siblings: Seq<Invalidation>,
)
    requires
        inv_wf(store, inv),
        inv.offset > 0,
        combinator_before(store, inv) == Combinator::Child,
    ensures
        descendant_fold(p, dom, store, e, kind, seq![inv], 1, lists, siblings) == lists_after_spec(
            p,
            dom,
            store,
            inv,
            e,
            InvalidationKind::Descendant(kind),
            lists,
            siblings,
        ),
{
    assert(seq![inv][0] == inv);
    assert(descendant_fold(p, dom, store, e, kind, seq![inv], 0, lists, siblings) == (lists, siblings));
}

/// A notification that hands a relative selector over; every other one
/// reports an invalidation or a stop at the depth limit.
pub open spec fn is_quiet(n: Notification) -> bool {
    match n {
        Notification::RelativeSelector(_, _, _) => true,
        _ => false,
    }
}

/// `b` extends `a` by relative hand-offs only.
pub open spec fn quiet_growth(a: Seq<Notification>, b: Seq<Notification>) -> bool {
    &&& a.is_prefix_of(b)
    &&& forall|k: int| a.len() <= k < b.len() ==> is_quiet(#[trigger] b[k])
}

/// `b` extends `a` by at least one notification that is not a relative
/// hand-off.
pub open spec fn loud_growth(a: Seq<Notification>, b: Seq<Notification>) -> bool {
    &&& a.is_prefix_of(b)
    &&& exists|k: int| a.len() <= k < b.len() && !is_quiet(#[trigger] b[k])
}

/// Growth composes: quiet then quiet is quiet, and loud anywhere is loud.
pub proof fn lemma_growth_chain(a: Seq<Notification>, b: Seq<Notification>, c: Seq<Notification>)
    requires
        a.is_prefix_of(b),
        b.is_prefix_of(c),
    ensures
        a.is_prefix_of(c),
        quiet_growth(a, b) && quiet_growth(b, c) ==> quiet_growth(a, c),
        loud_growth(a, b) ==> loud_growth(a, c),
        loud_growth(b, c) ==> loud_growth(a, c),
        quiet_growth(a, c) || loud_growth(a, c),
        !(quiet_growth(a, c) && loud_growth(a, c)),
{
    assert forall|k: int| 0 <= k < b.len() implies #[trigger] c[k] == b[k] by {
        assert(c.subrange(0, b.len() as int)[k] == c[k]);
    }
    assert forall|k: int| 0 <= k < a.len() implies #[trigger] b[k] == a[k] by {
        assert(b.subrange(0, a.len() as int)[k] == b[k]);
    }
    assert(a =~= c.subrange(0, a.len() as int));
    if quiet_growth(a, b) && quiet_growth(b, c) {
        assert forall|k: int| a.len() <= k < c.len() implies is_quiet(#[trigger] c[k]) by {
            if k < b.len() {
                assert(c[k] == b[k]);
            }
        }
    }
    if loud_growth(a, b) {
        let k = choose|k: int| a.len() <= k < b.len() && !is_quiet(#[trigger] b[k]);
        assert(c[k] == b[k]);
    }
    if !quiet_growth(a, c) {
        let k = choose|k: int| a.len() <= k < c.len() && !is_quiet(#[trigger] c[k]);
    }
}

/// No growth is quiet growth.
pub proof fn lemma_no_growth(a: Seq<Notification>)
    ensures
        quiet_growth(a, a),
        !loud_growth(a, a),
{
    assert(a =~= a.subrange(0, a.len() as int));
}

/// One notification is quiet growth exactly when it is a relative hand-off.
pub proof fn lemma_one_more(a: Seq<Notification>, n: Notification)
    ensures
        is_quiet(n) ==> quiet_growth(a, a.push(n)),
        !is_quiet(n) ==> loud_growth(a, a.push(n)),
{
    assert(a =~= a.push(n).subrange(0, a.len() as int));
    assert(a.push(n)[a.len() as int] == n);
}

/// Every notification added from `a` to `b` satisfies `ok`.
pub open spec fn added_all(a: Seq<Notification>, b: Seq<Notification>, ok: spec_fn(Notification) -> bool) -> bool {
    forall|k: int| a.len() <= k < b.len() ==> ok(#[trigger] b[k])
}

/// Descendant reports made by walks from elements at `lo` or later.
pub open spec fn from_pred(lo: int) -> spec_fn(Notification) -> bool {
    |n: Notification|
        match n {
            Notification::InvalidatedDescendants(p, _) => p >= lo,
            _ => true,
        }
}

/// Descendant reports that tell `element` of `child` alone, besides those
/// made by walks from later elements.
pub open spec fn child_pred(element: int, child: int) -> spec_fn(Notification) -> bool {
    |n: Notification|
        match n {
            Notification::InvalidatedDescendants(p, c) => p > element || (p == element && c == child),
            _ => true,
        }
}

/// Self notifications only for elements after `lo`: the walks from an
/// element never tell the processor that element itself is invalidated.
pub open spec fn after_pred(lo: int) -> spec_fn(Notification) -> bool {
    |n: Notification|
        match n {
            Notification::InvalidatedSelf(x) => x > lo,
            _ => true,
        }
}

/// Descendant reports that tell `host` only of elements that carry a `part`
/// attribute, besides those made by walks from later elements.
pub open spec fn parts_pred(dom: Dom, host: int) -> spec_fn(Notification) -> bool {
    |n: Notification|
        match n {
            Notification::InvalidatedDescendants(p, c) => p > host || (p == host
                && dom.has_part_attr_spec(c as int)),
            _ => true,
        }
}

/// Descendant reports that tell `host` only of elements assigned to a slot,
/// besides those made by walks from later elements.
pub open spec fn slotted_pred(dom: Dom, host: int) -> spec_fn(Notification) -> bool {
    |n: Notification|
        match n {
            Notification::InvalidatedDescendants(p, c) => p > host || (p == host && exists|j: int|
                0 <= j < dom.assigned_pairs().len() && (#[trigger] dom.assigned_pairs()[j]).1 == c),
            _ => true,
        }
}

/// `added_all` composes along a chain of logs.
pub proof fn lemma_added_chain(
    a: Seq<Notification>,
    b: Seq<Notification>,
    c: Seq<Notification>,
    ok: spec_fn(Notification) -> bool,
)
    requires
        a.is_prefix_of(b),
        b.is_prefix_of(c),
        added_all(a, b, ok),
        added_all(b, c, ok),
    ensures
        added_all(a, c, ok),
{
    assert forall|k: int| a.len() <= k < c.len() implies ok(#[trigger] c[k]) by {
        if k < b.len() {
            assert(c.subrange(0, b.len() as int)[k] == c[k]);
        }
    }
}

/// Quiet growth satisfies the descendant-report predicates.
pub proof fn lemma_quiet_added(a: Seq<Notification>, b: Seq<Notification>, ok: spec_fn(Notification) -> bool)
    requires
        quiet_growth(a, b),
        forall|x: usize, k: RelativeDependencyInvalidationKind, d: usize|
            #[trigger] ok(Notification::RelativeSelector(x, k, d)),
    ensures
        added_all(a, b, ok),
{
    assert forall|k: int| a.len() <= k < b.len() implies ok(#[trigger] b[k]) by {
        assert(is_quiet(b[k]));
        if let Notification::RelativeSelector(x, kk, d) = b[k] {
            assert(ok(Notification::RelativeSelector(x, kk, d)));
        }
    }
}

/// Logging after a prefix: the prefix stays in front.
pub proof fn lemma_log_after_append(
    p: Answers,
    dom: Dom,
    store: DependencyStore,
    inv: Invalidation,
    e: int,
    a: Seq<Notification>,
    b: Seq<Notification>,
)
    ensures
        log_after_spec(p, dom, store, inv, e, a + b) == a + log_after_spec(p, dom, store, inv, e, b),
{
    match outcome_spec(p, dom, store, inv, e) {
        MatchOutcome::Relative(k, n) => {
            let x = Notification::RelativeSelector(e as usize, k, n);
            assert((a + b).push(x) =~= a + b.push(x));
        },
        _ => {},
    }
}

/// The tree, the store and the depth limit of a walk.
pub type Walk = (Dom, DependencyStore, Option<StackLimitChecker>);

/// Three empty descendant lists.
pub open spec fn no_lists() -> (Seq<Invalidation>, Seq<Invalidation>, Seq<Invalidation>) {
    (Seq::empty(), Seq::empty(), Seq::empty())
}

/// The relative hand-offs logged while the first `n` invalidations of
/// `invs` are processed against `e`.
pub open spec fn fold_log(
    p: Answers,
    dom: Dom,
    store: DependencyStore,
    e: int,
    invs: Seq<Invalidation>,
    n: int,
) -> Seq<Notification>
    decreases n,
{
    if n <= 0 {
        Seq::empty()
    } else {
        log_after_spec(p, dom, store, invs[n - 1], e, fold_log(p, dom, store, e, invs, n - 1))
    }
}

/// The descendant lists and the new sibling invalidations after the first
/// `n` sibling invalidations of `s` were processed against `e`.
pub open spec fn sibling_fold(
    p: Answers,
    dom: Dom,
    store: DependencyStore,
    e: int,
    s: Seq<Invalidation>,
    n: int,
    lists: (Seq<Invalidation>, Seq<Invalidation>, Seq<Invalidation>),
    news: Seq<Invalidation>,
) -> ((Seq<Invalidation>, Seq<Invalidation>, Seq<Invalidation>), Seq<Invalidation>)
    decreases n,
{
    if n <= 0 {
        (lists, news)
    } else {
        let prev = sibling_fold(p, dom, store, e, s, n - 1, lists, news);
        lists_after_spec(p, dom, store, s[n - 1], e, InvalidationKind::Sibling, prev.0, prev.1)
    }
}

/// The sibling list after the sibling invalidations `s` were processed
/// against `e`: the kept ones, then the new ones, in order.
pub open spec fn siblings_after(p: Answers, dom: Dom, store: DependencyStore, e: int, s: Seq<Invalidation>) -> Seq<Invalidation> {
    kept_spec(p, dom, store, e, s) + sibling_fold(p, dom, store, e, s, s.len() as int, no_lists(), Seq::empty()).1
}

/// The walk of `invalidate_child`: the result, the notifications, and the
/// sibling list handed on to the next child.
pub open spec fn child_spec(
    p: Answers,
    w: Walk,
    e: int,
    depth: int,
    child: int,
    invs: Seq<Invalidation>,
    sibs: Seq<Invalidation>,
    kind: DescendantInvalidationKind,
) -> (bool, Seq<Notification>, Seq<Invalidation>)
    decreases w.0.len_spec() - child, 10int, 0int,
{
    if !(e < child < w.0.len_spec()) {
        (false, Seq::empty(), sibs)
    } else {
        let (dom, store) = (w.0, w.1);
        let sf = sibling_fold(p, dom, store, child, sibs, sibs.len() as int, no_lists(), Seq::empty());
        let sibs1 = siblings_after(p, dom, store, child, sibs);
        let log1 = fold_log(p, dom, store, child, sibs, sibs.len() as int);
        let df = descendant_fold(p, dom, store, child, kind, invs, invs.len() as int, sf.0, sibs1);
        let log2 = log1 + fold_log(p, dom, store, child, invs, invs.len() as int);
        let ic = any_invalidates_self(p, dom, store, sibs, child) || any_invalidates_self(
            p,
            dom,
            store,
            invs,
            child,
        );
        let log3 = if ic {
            log2.push(Notification::InvalidatedSelf(child as usize))
        } else {
            log2
        };
        let d = descendants_spec(p, w, child, depth + 1, df.0);
        let r = ic || d.0;
        let log4 = log3 + d.1;
        (
            r,
            if r {
                log4.push(Notification::InvalidatedDescendants(e as usize, child as usize))
            } else {
                log4
            },
            df.1,
        )
    }
}

/// The walk of `invalidate_descendants`.
pub open spec fn descendants_spec(
    p: Answers,
    w: Walk,
    e: int,
    depth: int,
    lists: (Seq<Invalidation>, Seq<Invalidation>, Seq<Invalidation>),
) -> (bool, Seq<Notification>)
    decreases w.0.len_spec() - e, 9int, 0int,
{
    if lists.0.len() == 0 && lists.1.len() == 0 && lists.2.len() == 0 {
        (false, Seq::empty())
    } else if !(p.2)(e) {
        (false, Seq::empty())
    } else {
        walk_spec(p, w, e, depth, lists)
    }
}

/// The walk of `walk_descendants`.
pub open spec fn walk_spec(
    p: Answers,
    w: Walk,
    e: int,
    depth: int,
    lists: (Seq<Invalidation>, Seq<Invalidation>, Seq<Invalidation>),
) -> (bool, Seq<Notification>)
    decreases w.0.len_spec() - e, 8int, 0int,
{
    if w.2 matches Some(c) && depth >= c.max_depth {
        (true, seq![Notification::RecursionLimitExceeded(e as usize)])
    } else {
        let a = non_slotted_spec(p, w, e, depth, lists.0);
        let b = slotted_spec(p, w, e, depth, lists.1);
        let c = parts_spec(p, w, e, depth, lists.2);
        (a.0 || b.0 || c.0, a.1 + b.1 + c.1)
    }
}

/// The walk of `invalidate_non_slotted_descendants`.
pub open spec fn non_slotted_spec(
    p: Answers,
    w: Walk,
    e: int,
    depth: int,
    invs: Seq<Invalidation>,
) -> (bool, Seq<Notification>)
    decreases w.0.len_spec() - e, 7int, 0int,
{
    if invs.len() == 0 {
        (false, Seq::empty())
    } else if p.5 {
        dom_children_spec(p, w, e, depth, e, invs)
    } else {
        let sh = match w.0.node(e).shadow_root {
            Some(r) => if e < r < w.0.len_spec() {
                dom_children_spec(p, w, e, depth, r as int, invs)
            } else {
                (false, Seq::empty())
            },
            None => (false, Seq::empty()),
        };
        let own = dom_children_spec(p, w, e, depth, e, invs);
        let nac = nac_spec(p, w, e, depth, invs, 0);
        (sh.0 || own.0 || nac.0, sh.1 + own.1 + nac.1)
    }
}

/// The walk of `invalidate_dom_descendants_of`: the DOM children of
/// `parent`, in order.
pub open spec fn dom_children_spec(
    p: Answers,
    w: Walk,
    e: int,
    depth: int,
    parent: int,
    invs: Seq<Invalidation>,
) -> (bool, Seq<Notification>)
    decreases w.0.len_spec() - parent, 6int, 0int,
{
    match w.0.node(parent).first_child {
        Some(c) => if parent < c < w.0.len_spec() {
            let r = children_spec(p, w, e, depth, parent, c as int, invs, Seq::empty());
            (r.0, r.1)
        } else {
            (false, Seq::empty())
        },
        None => (false, Seq::empty()),
    }
}

/// The children from `c` on, after `lo`, sharing the sibling list `sibs`.
pub open spec fn children_spec(
    p: Answers,
    w: Walk,
    e: int,
    depth: int,
    lo: int,
    c: int,
    invs: Seq<Invalidation>,
    sibs: Seq<Invalidation>,
) -> (bool, Seq<Notification>, Seq<Invalidation>)
    decreases w.0.len_spec() - lo, 5int, 0int,
{
    if !(lo < c < w.0.len_spec()) {
        (false, Seq::empty(), sibs)
    } else {
        let nd = w.0.node(c);
        let first = if nd.is_element {
            child_spec(p, w, e, depth, c, invs, sibs, DescendantInvalidationKind::Dom)
        } else {
            (false, Seq::empty(), sibs)
        };
        let rest = match nd.next_sibling {
            Some(nx) => children_spec(p, w, e, depth, c, nx as int, invs, first.2),
            None => (false, Seq::empty(), first.2),
        };
        (first.0 || rest.0, first.1 + rest.1, rest.2)
    }
}

/// The walk of `invalidate_nac`, from pair `j` of the anonymous content on.
pub open spec fn nac_spec(
    p: Answers,
    w: Walk,
    e: int,
    depth: int,
    invs: Seq<Invalidation>,
    j: int,
) -> (bool, Seq<Notification>)
    decreases w.0.len_spec() - e, 5int, w.0.anonymous_pairs().len() - j,
{
    if !(0 <= j < w.0.anonymous_pairs().len()) {
        (false, Seq::empty())
    } else {
        let (h, root) = w.0.anonymous_pairs()[j];
        let a = if h == e && e < root < w.0.len_spec() {
            let c = child_spec(
                p,
                w,
                e,
                depth,
                root as int,
                invs,
                Seq::empty(),
                DescendantInvalidationKind::Dom,
            );
            (c.0, c.1)
        } else {
            (false, Seq::empty())
        };
        let rest = nac_spec(p, w, e, depth, invs, j + 1);
        (a.0 || rest.0, a.1 + rest.1)
    }
}

/// The walk of `invalidate_slotted_elements`.
pub open spec fn slotted_spec(
    p: Answers,
    w: Walk,
    e: int,
    depth: int,
    invs: Seq<Invalidation>,
) -> (bool, Seq<Notification>)
    decreases w.0.len_spec() - e, 7int, 0int,
{
    if invs.len() == 0 {
        (false, Seq::empty())
    } else {
        in_slot_spec(p, w, e, depth, e, invs)
    }
}

/// The walk of `invalidate_slotted_elements_in_slot`.
pub open spec fn in_slot_spec(
    p: Answers,
    w: Walk,
    e: int,
    depth: int,
    slot: int,
    invs: Seq<Invalidation>,
) -> (bool, Seq<Notification>)
    decreases w.0.len_spec() - slot, 6int, 0int,
{
    let r = slot_loop_spec(p, w, e, depth, slot, invs, 0, Seq::empty());
    (r.0, r.1)
}

/// The assignments from pair `j` on, for `slot`, sharing `sibs`.
pub open spec fn slot_loop_spec(
    p: Answers,
    w: Walk,
    e: int,
    depth: int,
    slot: int,
    invs: Seq<Invalidation>,
    j: int,
    sibs: Seq<Invalidation>,
) -> (bool, Seq<Notification>, Seq<Invalidation>)
    decreases w.0.len_spec() - slot, 5int, w.0.assigned_pairs().len() - j,
{
    if !(0 <= j < w.0.assigned_pairs().len()) {
        (false, Seq::empty(), sibs)
    } else {
        let (s, node) = w.0.assigned_pairs()[j];
        let a = if s == slot && w.0.is_element_spec(node as int) && slot < node < w.0.len_spec() {
            if w.0.node(node as int).is_slot {
                let x = in_slot_spec(p, w, e, depth, node as int, invs);
                (x.0, x.1, sibs)
            } else {
                child_spec(p, w, e, depth, node as int, invs, sibs, DescendantInvalidationKind::Slotted)
            }
        } else {
            (false, Seq::empty(), sibs)
        };
        let rest = slot_loop_spec(p, w, e, depth, slot, invs, j + 1, a.2);
        (a.0 || rest.0, a.1 + rest.1, rest.2)
    }
}

/// The walk of `invalidate_parts`.
pub open spec fn parts_spec(
    p: Answers,
    w: Walk,
    e: int,
    depth: int,
    invs: Seq<Invalidation>,
) -> (bool, Seq<Notification>)
    decreases w.0.len_spec() - e, 7int, 0int,
{
    if invs.len() == 0 {
        (false, Seq::empty())
    } else {
        match w.0.node(e).shadow_root {
            Some(sr) => if e < sr < w.0.len_spec() {
                parts_shadow_spec(p, w, e, depth, sr as int, invs)
            } else {
                (false, Seq::empty())
            },
            None => (false, Seq::empty()),
        }
    }
}

/// The walk of `invalidate_parts_in_shadow_tree`.
pub open spec fn parts_shadow_spec(
    p: Answers,
    w: Walk,
    e: int,
    depth: int,
    shadow: int,
    invs: Seq<Invalidation>,
) -> (bool, Seq<Notification>)
    decreases w.0.len_spec() - shadow, 6int, 0int,
{
    let r = parts_below_spec(p, w, e, depth, shadow, invs, Seq::empty());
    (r.0, r.1)
}

/// The walk of `invalidate_parts_below`.
pub open spec fn parts_below_spec(
    p: Answers,
    w: Walk,
    e: int,
    depth: int,
    node: int,
    invs: Seq<Invalidation>,
    sibs: Seq<Invalidation>,
) -> (bool, Seq<Notification>, Seq<Invalidation>)
    decreases w.0.len_spec() - node, 5int, 0int,
{
    match w.0.node(node).first_child {
        Some(c) => if node < c < w.0.len_spec() {
            parts_chain_spec(p, w, e, depth, node, c as int, invs, sibs)
        } else {
            (false, Seq::empty(), sibs)
        },
        None => (false, Seq::empty(), sibs),
    }
}

/// The children of a shadow-tree node from `c` on, after `lo`.
pub open spec fn parts_chain_spec(
    p: Answers,
    w: Walk,
    e: int,
    depth: int,
    lo: int,
    c: int,
    invs: Seq<Invalidation>,
    sibs: Seq<Invalidation>,
) -> (bool, Seq<Notification>, Seq<Invalidation>)
    decreases w.0.len_spec() - lo, 4int, 0int,
{
    if !(lo < c < w.0.len_spec()) {
        (false, Seq::empty(), sibs)
    } else {
        let nd = w.0.node(c);
        let a = if nd.is_element && w.0.has_part_attr_spec(c) {
            child_spec(p, w, e, depth, c, invs, sibs, DescendantInvalidationKind::Part)
        } else {
            (false, Seq::empty(), sibs)
        };
        let b = if nd.is_element {
            match nd.shadow_root {
                Some(sr) => if nd.exports_parts && c < sr < w.0.len_spec() {
                    parts_shadow_spec(p, w, e, depth, sr as int, invs)
                } else {
                    (false, Seq::empty())
                },
                None => (false, Seq::empty()),
            }
        } else {
            (false, Seq::empty())
        };
        let d = parts_below_spec(p, w, e, depth, c, invs, a.2);
        let rest = match nd.next_sibling {
            Some(nx) => parts_chain_spec(p, w, e, depth, c, nx as int, invs, d.2),
            None => (false, Seq::empty(), d.2),
        };
        (a.0 || b.0 || d.0 || rest.0, a.1 + b.1 + d.1 + rest.1, rest.2)
    }
}

/// The walk of `invalidate_siblings` from sibling `cur` on, after `last`:
/// the result, the notifications and the sibling list left.
pub open spec fn siblings_spec(
    p: Answers,
    w: Walk,
    e: int,
    depth: int,
    last: int,
    cur: Option<usize>,
    sibs: Seq<Invalidation>,
) -> (bool, Seq<Notification>, Seq<Invalidation>)
    decreases w.0.len_spec() - last,
{
    match cur {
        None => (false, Seq::empty(), sibs),
        Some(s) => if !(last < s < w.0.len_spec()) {
            (false, Seq::empty(), sibs)
        } else {
            let (dom, store) = (w.0, w.1);
            let ics = any_invalidates_self(p, dom, store, sibs, s as int);
            let sf = sibling_fold(p, dom, store, s as int, sibs, sibs.len() as int, no_lists(), Seq::empty());
            let sibs1 = siblings_after(p, dom, store, s as int, sibs);
            let l1 = fold_log(p, dom, store, s as int, sibs, sibs.len() as int);
            let l2 = if ics {
                l1.push(Notification::InvalidatedSibling(s, e as usize))
            } else {
                l1
            };
            let d = descendants_spec(p, w, s as int, depth, sf.0);
            let acc = ics || d.0;
            let log = l2 + d.1;
            if sibs1.len() == 0 {
                (acc, log, sibs1)
            } else {
                let rest = siblings_spec(p, w, e, depth, s as int, p.6.next_spec(dom, s as int), sibs1);
                (acc || rest.0, log + rest.1, rest.2)
            }
        },
    }
}

/// The walk of `invalidate_siblings`.
pub open spec fn invalidate_siblings_spec(
    p: Answers,
    w: Walk,
    e: int,
    depth: int,
    sibs: Seq<Invalidation>,
) -> (bool, Seq<Notification>, Seq<Invalidation>) {
    if sibs.len() == 0 {
        (false, Seq::empty(), sibs)
    } else {
        siblings_spec(p, w, e, depth, e, p.6.next_spec(w.0, e), sibs)
    }
}

/// The whole pass of `invalidate`: whether the element, its descendants and
/// its siblings were invalidated, and the notifications, in order.
pub open spec fn invalidate_spec(p: Answers, w: Walk, e: int, depth: int) -> (
    (bool, bool, bool),
    Seq<Notification>,
) {
    let (dom, store) = (w.0, w.1);
    let c = (p.3)(store, e);
    let matched = any_invalidates_self(p, dom, store, c.1, e);
    let df = descendant_fold(
        p,
        dom,
        store,
        e,
        DescendantInvalidationKind::Dom,
        c.1,
        c.1.len() as int,
        (c.2, c.3, c.4),
        c.5,
    );
    let l1 = fold_log(p, dom, store, e, c.1, c.1.len() as int);
    let l2 = if matched && !c.0 {
        l1.push(Notification::InvalidatedSelf(e as usize))
    } else {
        l1
    };
    let d = descendants_spec(p, w, e, depth, df.0);
    let s = invalidate_siblings_spec(p, w, e, depth, df.1);
    ((c.0 || matched, d.0, s.0), l2 + d.1 + s.1)
}

/// The invalidation walk from one element.
#[derive(Clone, Copy)]
pub struct TreeStyleInvalidator<'a> {
    pub dom: &'a Dom,
    pub store: &'a DependencyStore,
    pub element: usize,
    /// How many levels below the start of the walk `element` stands.
    pub depth: usize,
    pub stack_limit_checker: Option<StackLimitChecker>,
}

impl<'a> TreeStyleInvalidator<'a> {
    pub open spec fn wf(&self) -> bool {
        &&& self.dom.wf()
        &&& self.store.wf()
        &&& self.element < self.dom.len_spec()
        &&& self.depth <= self.element
    }

    pub open spec fn n(&self) -> int {
        self.dom.len_spec() as int
    }

    /// The tree, store and depth limit of this walk.
    pub open spec fn walk(&self) -> Walk {
        (*self.dom, *self.store, self.stack_limit_checker)
    }

    /// A walk that starts at `element`.
    pub fn new(
        dom: &'a Dom,
        store: &'a DependencyStore,
        element: usize,
        stack_limit_checker: Option<StackLimitChecker>,
    ) -> (r: Self)
        ensures
            r.dom == dom,
            r.store == store,
            r.element == element,
            r.depth == 0,
            r.stack_limit_checker == stack_limit_checker,
    {
        TreeStyleInvalidator { dom, store, element, depth: 0, stack_limit_checker }
    }

    /// The walk from `child`, one level further down.
    fn for_child(&self, child: usize) -> (r: Self)
        requires
            self.wf(),
            self.element < child < self.dom.len_spec(),
        ensures
            r.wf(),
            r.element == child,
            r.dom == self.dom,
            r.store == self.store,
            r.stack_limit_checker == self.stack_limit_checker,
            r.depth == self.depth + 1,
    {
        TreeStyleInvalidator {
            dom: self.dom,
            store: self.store,
            element: child,
            depth: self.depth + 1,
            stack_limit_checker: self.stack_limit_checker,
        }
    }

    /// Runs the pass: collects the invalidations that start at the element,
    /// matches them, and walks descendants and later siblings.
    ///
    /// The element counts as invalidated when collection says so or when
    /// one of its self invalidations invalidates it; in the second case
    /// alone the processor is told. When collection hands out nothing, the
    /// pass reports nothing below or beside the element and sends no
    /// notification. The result and every notification, in order, are those
    /// of `invalidate_spec`, which follows the walk element by element.
    pub fn invalidate<P: InvalidationProcessor>(&self, processor: &mut P) -> (r:
        InvalidationResult)
        requires
            self.wf(),
        ensures
            ({
                let x = invalidate_spec(answers_of(*old(processor)), self.walk(), self.element as int, self.depth as int);
                &&& r.invalidated_self == x.0.0
                &&& r.invalidated_descendants == x.0.1
                &&& r.invalidated_siblings == x.0.2
                &&& final(processor).log() == old(processor).log() + x.1
            }),
            same_answers(*final(processor), *old(processor)),
            ({
                let c = (old(processor).collect_answers())(*self.store, self.element as int);
                let matched = any_invalidates_self(
                    answers_of(*old(processor)),
                    *self.dom,
                    *self.store,
                    c.1,
                    self.element as int,
                );
                &&& r.invalidated_self == (c.0 || matched)
                &&& (matched && !c.0) ==> exists|k: int|
                    old(processor).log().len() <= k < final(processor).log().len()
                        && #[trigger] final(processor).log()[k] == Notification::InvalidatedSelf(
                        self.element,
                    )
                &&& !(matched && !c.0) ==> forall|k: int|
                    old(processor).log().len() <= k < final(processor).log().len()
                        ==> #[trigger] final(processor).log()[k] != Notification::InvalidatedSelf(
                        self.element,
                    )
                &&& forall|k1: int, k2: int|
                    old(processor).log().len() <= k1 < final(processor).log().len()
                        && old(processor).log().len() <= k2 < final(processor).log().len()
                        && #[trigger] final(processor).log()[k1] == Notification::InvalidatedSelf(
                        self.element,
                    ) && #[trigger] final(processor).log()[k2] == Notification::InvalidatedSelf(
                        self.element,
                    ) ==> k1 == k2
                &&& (c.1.len() == 0 && c.2.len() == 0 && c.3.len() == 0 && c.4.len() == 0
                    && c.5.len() == 0) ==> !r.invalidated_self == !c.0 && !r.invalidated_descendants
                    && !r.invalidated_siblings && final(processor).log() == old(processor).log()
            }),
            old(processor).log().is_prefix_of(final(processor).log()),
            r.invalidated_descendants || r.invalidated_siblings ==> loud_growth(
                old(processor).log(),
                final(processor).log(),
            ),
    {
        let ghost p0 = *processor;
        let ghost l0 = processor.log();
        let mut self_invalidations = iv_new();
        let mut descendant_invalidations = DescendantInvalidationLists::new();
        let mut sibling_invalidations = iv_new();

        let invalidated_self_from_collection = processor.collect_invalidations(
            self.store,
            self.element,
            &mut self_invalidations,
            &mut descendant_invalidations,
            &mut sibling_invalidations,
        );
        let ghost p1 = *processor;
        let mut invalidated_self = invalidated_self_from_collection;

        let matched_self = self.process_descendant_invalidations(
            processor,
            &self_invalidations,
            &mut descendant_invalidations,
            &mut sibling_invalidations,
            DescendantInvalidationKind::Dom,
        );
        let ghost l2 = processor.log();
        let ghost ld = lists_view(descendant_invalidations);
        let ghost sd = invalidation_items(sibling_invalidations);
        proof {
            lemma_any_same(
                p1,
                p0,
                *self.dom,
                *self.store,
                invalidation_items(self_invalidations),
                self.element as int,
            );
        }
        invalidated_self = invalidated_self || matched_self;

        if invalidated_self && !invalidated_self_from_collection {
            processor.invalidated_self(self.element);
        }
        let ghost l3 = processor.log();
        proof {
            if invalidated_self && !invalidated_self_from_collection {
                lemma_one_more(l2, Notification::InvalidatedSelf(self.element));
                assert(l3[l2.len() as int] == Notification::InvalidatedSelf(self.element));
            } else {
                lemma_no_growth(l2);
            }
            lemma_growth_chain(l0, l2, l3);
        }

        let invalidated_descendants = self.invalidate_descendants(
            processor,
            &descendant_invalidations,
        );
        let ghost l4 = processor.log();
        let invalidated_siblings = self.invalidate_siblings(processor, &mut sibling_invalidations);
        let ghost l5 = processor.log();
        proof {
            let a0 = answers_of(*old(processor));
            let (dom, store) = (*self.dom, *self.store);
            let e = self.element as int;
            let c = (a0.3)(store, e);
            let l1 = fold_log(a0, dom, store, e, c.1, c.1.len() as int);
            assert(l2 =~= l0 + l1);
            let matched = any_invalidates_self(a0, dom, store, c.1, e);
            let lx = if matched && !c.0 {
                l1.push(Notification::InvalidatedSelf(self.element))
            } else {
                l1
            };
            assert(matched_self == matched);
            assert(l3 =~= l0 + lx);
            let x = invalidate_spec(a0, self.walk(), e, self.depth as int);
            assert(l5 =~= l0 + x.1);
            lemma_reports_or(invalidated_descendants, invalidated_siblings, l3, l4, l5);
            let ap = after_pred(self.element as int);
            lemma_added_chain(l3, l4, l5, ap);
            lemma_growth_chain(l0, l2, l3);
            lemma_growth_chain(l2, l3, l5);
            lemma_growth_chain(l0, l2, l5);
            let notified = invalidated_self && !invalidated_self_from_collection;
            let ise = Notification::InvalidatedSelf(self.element);
            assert forall|k: int| l0.len() <= k < l5.len() && l5[k] == ise implies k == l2.len()
                && notified by {
                if k < l2.len() {
                    assert(l5.subrange(0, l2.len() as int)[k] == l5[k]);
                    assert(is_quiet(l2[k]));
                } else if k >= l3.len() {
                    assert(ap(l5[k]));
                } else {
                    if !notified {
                        assert(l3 == l2);
                    }
                    assert(l5.subrange(0, l3.len() as int)[k] == l5[k]);
                }
            }
            lemma_growth_chain(l0, l3, l5);
            if invalidated_self && !invalidated_self_from_collection {
                assert(l5.subrange(0, l3.len() as int)[l2.len() as int] == l5[l2.len() as int]);
                assert(l5[l2.len() as int] == Notification::InvalidatedSelf(self.element));
            }
        }

        InvalidationResult { invalidated_self, invalidated_descendants, invalidated_siblings }
    }

    /// Walks the later siblings of the element with the sibling
    /// invalidations, which each sibling may shrink or extend, until the
    /// list is empty or the siblings run out. Returns whether any sibling
    /// or anything below one was invalidated.
    ///
    /// The siblings visited, the notifications and the list left are
    /// exactly those of `invalidate_siblings_spec`. Siblings are visited in
    /// document order: a link that does not lead further right inside the
    /// tree (possible only through an override in the sibling map) ends the
    /// walk, so that it always ends.
    pub fn invalidate_siblings<P: InvalidationProcessor>(
        &self,
        processor: &mut P,
        sibling_invalidations: &mut InvalidationVector,
    ) -> (r: bool)
        requires
            self.wf(),
            all_wf(*self.store, invalidation_items(*old(sibling_invalidations))),
        ensures
            ({
                let x = invalidate_siblings_spec(answers_of(*old(processor)), self.walk(), self.element as int, self.depth as int, invalidation_items(*old(sibling_invalidations)));
                &&& r == x.0
                &&& final(processor).log() == old(processor).log() + x.1
                &&& invalidation_items(*final(sibling_invalidations)) == x.2
            }),
            same_answers(*final(processor), *old(processor)),
            added_all(old(processor).log(), final(processor).log(), after_pred(self.element as int)),
            invalidation_items(*old(sibling_invalidations)).len() == 0 ==> !r && *final(processor)
                == *old(processor) && invalidation_items(*final(sibling_invalidations))
                == invalidation_items(*old(sibling_invalidations)),
            reports(r, old(processor).log(), final(processor).log()),
            !(old(processor).traversal_map().next_spec(*self.dom, self.element as int) matches Some(
                s,
            ) && self.element < s < self.dom.len_spec()) ==> !r && *final(processor) == *old(
                processor,
            ),
            (old(processor).traversal_map().next_spec(*self.dom, self.element as int) matches Some(
                s,
            ) && self.element < s < self.dom.len_spec() && any_invalidates_self(
                answers_of(*old(processor)),
                *self.dom,
                *self.store,
                invalidation_items(*old(sibling_invalidations)),
                s as int,
            )) ==> r,
    {
        let ghost l0 = processor.log();
        proof {
            lemma_no_growth(l0);
        }
        if iv_len(sibling_invalidations) == 0 {
            return false;
        }
        let n = self.dom.len();
        let mut last = self.element;
        let mut current = processor.sibling_traversal_map().next_sibling_for(
            self.dom,
            self.element,
        );
        let ghost first = current;
        proof {
            assert(old(processor).log() =~= processor.log());
        }
        let ghost mut visited_first = false;
        let mut any_invalidated = false;

        loop
            invariant
                self.wf(),
                n == self.dom.len_spec(),
                self.element <= last < n,
                all_wf(*self.store, invalidation_items(*sibling_invalidations)),
                reports(any_invalidated, l0, processor.log()),
                added_all(l0, processor.log(), after_pred(self.element as int)),
                first == old(processor).traversal_map().next_spec(*self.dom, self.element as int),
                same_answers(*processor, *old(processor)),
                invalidation_items(*old(sibling_invalidations)).len() > 0,
                ({
                    let whole = invalidate_siblings_spec(answers_of(*old(processor)), self.walk(), self.element as int, self.depth as int, invalidation_items(*old(sibling_invalidations)));
                    let rest = siblings_spec(answers_of(*old(processor)), self.walk(), self.element as int, self.depth as int, last as int, current, invalidation_items(*sibling_invalidations));
                    &&& whole.0 == (any_invalidated || rest.0)
                    &&& old(processor).log() + whole.1 == processor.log() + rest.1
                    &&& whole.2 == rest.2
                }),
                !visited_first ==> last == self.element && *processor == *old(processor)
                    && current == first && !any_invalidated && invalidation_items(
                    *sibling_invalidations,
                ) == invalidation_items(*old(sibling_invalidations)),
                visited_first ==> (first matches Some(s) && self.element < s < n),
                visited_first ==> ((first matches Some(s) && self.element < s < n
                    && any_invalidates_self(
                    answers_of(*old(processor)),
                    *self.dom,
                    *self.store,
                    invalidation_items(*old(sibling_invalidations)),
                    s as int,
                )) ==> any_invalidated),
            ensures
                added_all(l0, processor.log(), after_pred(self.element as int)),
                same_answers(*processor, *old(processor)),
                ({
                    let whole = invalidate_siblings_spec(answers_of(*old(processor)), self.walk(), self.element as int, self.depth as int, invalidation_items(*old(sibling_invalidations)));
                    &&& whole.0 == any_invalidated
                    &&& old(processor).log() + whole.1 == processor.log()
                    &&& whole.2 == invalidation_items(*sibling_invalidations)
                }),
                !visited_first ==> !(first matches Some(s) && self.element < s < n),
                reports(any_invalidated, l0, processor.log()),
                !visited_first ==> *processor == *old(processor) && !any_invalidated,
                visited_first ==> ((first matches Some(s) && self.element < s < n
                    && any_invalidates_self(
                    answers_of(*old(processor)),
                    *self.dom,
                    *self.store,
                    invalidation_items(*old(sibling_invalidations)),
                    s as int,
                )) ==> any_invalidated),
            decreases n - last,
        {
            let sibling = match current {
                Some(s) => s,
                None => {
                    proof {
                        assert(processor.log() + Seq::<Notification>::empty() =~= processor.log());
                    }
                    break;
                },
            };
            if sibling <= last || sibling >= n {
                proof {
                    assert(processor.log() + Seq::<Notification>::empty() =~= processor.log());
                }
                break;
            }
            let ghost lj = processor.log();
            let ghost sj = invalidation_items(*sibling_invalidations);
            let ghost any_j = any_invalidated;
            let sibling_invalidator = TreeStyleInvalidator {
                dom: self.dom,
                store: self.store,
                element: sibling,
                depth: self.depth,
                stack_limit_checker: self.stack_limit_checker,
            };
            let mut invalidations_for_descendants = DescendantInvalidationLists::new();
            let ghost lb = processor.log();
            let invalidated_sibling = sibling_invalidator.process_sibling_invalidations(
                processor,
                &mut invalidations_for_descendants,
                sibling_invalidations,
            );
            let ghost lc = processor.log();
            if invalidated_sibling {
                processor.invalidated_sibling(sibling, self.element);
            }
            proof {
                if invalidated_sibling {
                    lemma_one_more(lc, Notification::InvalidatedSibling(sibling, self.element));
                } else {
                    lemma_no_growth(lc);
                }
                lemma_reports_or(false, invalidated_sibling, lb, lc, processor.log());
                lemma_reports_or(any_invalidated, invalidated_sibling, l0, lb, processor.log());
                let ap = after_pred(self.element as int);
                lemma_quiet_added(lb, lc, ap);
                assert(added_all(lc, processor.log(), ap));
                lemma_added_chain(lb, lc, processor.log(), ap);
                lemma_growth_chain(l0, lb, processor.log());
                lemma_added_chain(l0, lb, processor.log(), ap);
            }
            any_invalidated = any_invalidated || invalidated_sibling;
            let ghost ld = processor.log();
            let below = sibling_invalidator.invalidate_descendants(
                processor,
                &invalidations_for_descendants,
            );
            proof {
                lemma_reports_or(any_invalidated, below, l0, ld, processor.log());
                let ap = after_pred(self.element as int);
                let now = processor.log();
                assert forall|k: int| ld.len() <= k < now.len() implies ap(#[trigger] now[k]) by {
                    assert(after_pred(sibling as int)(now[k]));
                }
                lemma_added_chain(l0, ld, now, ap);
                visited_first = true;
            }
            any_invalidated = any_invalidated || below;
            proof {
                let a0 = answers_of(*old(processor));
                let w = self.walk();
                let (dom, store) = (*self.dom, *self.store);
                let sv = sibling as int;
                assert(no_lists() == (Seq::<Invalidation>::empty(), Seq::<Invalidation>::empty(), Seq::<Invalidation>::empty()));
                let ics = any_invalidates_self(a0, dom, store, sj, sv);
                let sf = sibling_fold(a0, dom, store, sv, sj, sj.len() as int, no_lists(), Seq::empty());
                let sibs1 = siblings_after(a0, dom, store, sv, sj);
                let l1 = fold_log(a0, dom, store, sv, sj, sj.len() as int);
                let l2 = if ics {
                    l1.push(Notification::InvalidatedSibling(sibling, self.element))
                } else {
                    l1
                };
                assert(sibling_invalidator.walk() == w);
                let dd = descendants_spec(a0, w, sv, self.depth as int, sf.0);
                assert(invalidated_sibling == ics);
                assert(invalidation_items(*sibling_invalidations) == sibs1);
                assert(below == dd.0);
                assert(processor.log() =~= lj + (l2 + dd.1));
                if sibs1.len() > 0 {
                    let rn = siblings_spec(a0, w, self.element as int, self.depth as int, sv, a0.6.next_spec(dom, sv), sibs1);
                    assert(lj + ((l2 + dd.1) + rn.1) =~= processor.log() + rn.1);
                } else {
                    assert(processor.log() + Seq::<Notification>::empty() =~= processor.log());
                }
            }

            if iv_len(sibling_invalidations) == 0 {
                break;
            }
            last = sibling;
            current = processor.sibling_traversal_map().next_sibling_for(self.dom, sibling);
        }
        any_invalidated
    }

    /// Invalidates the root of a pseudo-element or anonymous-content
    /// subtree; it has no siblings, so sibling invalidations it produces
    /// are dropped.
    fn invalidate_pseudo_element_or_nac<P: InvalidationProcessor>(
        &self,
        processor: &mut P,
        child: usize,
        invalidations: &InvalidationVector,
    ) -> (r: bool)
        requires
            self.wf(),
            self.element < child < self.dom.len_spec(),
            all_wf(*self.store, invalidation_items(*invalidations)),
        ensures
            ({
                let x = child_spec(answers_of(*old(processor)), self.walk(), self.element as int, self.depth as int, child as int, invalidation_items(*invalidations), Seq::empty(), DescendantInvalidationKind::Dom);
                &&& r == x.0
                &&& final(processor).log() == old(processor).log() + x.1
            }),
            same_answers(*final(processor), *old(processor)),
            reports(r, old(processor).log(), final(processor).log()),
            added_all(old(processor).log(), final(processor).log(), from_pred(self.element as int)),
            added_all(old(processor).log(), final(processor).log(), after_pred(self.element as int)),
        decreases self.n() - child, 11int,
    {
        let ghost l0 = processor.log();
        proof {
            lemma_no_growth(l0);
        }
        let mut sibling_invalidations = iv_new();
        self.invalidate_child(
            processor,
            child,
            invalidations,
            &mut sibling_invalidations,
            DescendantInvalidationKind::Dom,
        )
    }

    /// Invalidates `child` and walks below it as needed (exactly as
    /// `child_spec` says). Returns whether
    /// `child` or anything below it was invalidated, which is exactly when
    /// the processor was told of something other than relative hand-offs;
    /// the element is then told of `child`, last.
    #[verifier::rlimit(50)]
    pub fn invalidate_child<P: InvalidationProcessor>(
        &self,
        processor: &mut P,
        child: usize,
        invalidations: &InvalidationVector,
        sibling_invalidations: &mut InvalidationVector,
        descendant_invalidation_kind: DescendantInvalidationKind,
    ) -> (r: bool)
        requires
            self.wf(),
            self.element < child < self.dom.len_spec(),
            all_wf(*self.store, invalidation_items(*invalidations)),
            all_wf(*self.store, invalidation_items(*old(sibling_invalidations))),
        ensures
            ({
                let x = child_spec(answers_of(*old(processor)), self.walk(), self.element as int, self.depth as int, child as int, invalidation_items(*invalidations), invalidation_items(*old(sibling_invalidations)), descendant_invalidation_kind);
                &&& r == x.0
                &&& final(processor).log() == old(processor).log() + x.1
                &&& invalidation_items(*final(sibling_invalidations)) == x.2
            }),
            same_answers(*final(processor), *old(processor)),
            reports(r, old(processor).log(), final(processor).log()),
            added_all(old(processor).log(), final(processor).log(), from_pred(self.element as int)),
            added_all(old(processor).log(), final(processor).log(), after_pred(self.element as int)),
            added_all(
                old(processor).log(),
                final(processor).log(),
                child_pred(self.element as int, child as int),
            ),
            r ==> final(processor).log().last() == Notification::InvalidatedDescendants(
                self.element,
                child,
            ),
            any_invalidates_self(
                answers_of(*old(processor)),
                *self.dom,
                *self.store,
                invalidation_items(*old(sibling_invalidations)),
                child as int,
            ) || any_invalidates_self(
                answers_of(*old(processor)),
                *self.dom,
                *self.store,
                invalidation_items(*invalidations),
                child as int,
            ) ==> r,
            all_wf(*self.store, invalidation_items(*final(sibling_invalidations))),
        decreases self.n() - child, 10int,
    {
        let ghost sibs0 = invalidation_items(*sibling_invalidations);
        let ghost l0 = processor.log();
        proof {
            lemma_no_growth(l0);
        }
        let mut invalidations_for_descendants = DescendantInvalidationLists::new();
        let child_invalidator = self.for_child(child);

        let from_siblings = child_invalidator.process_sibling_invalidations(
            processor,
            &mut invalidations_for_descendants,
            sibling_invalidations,
        );
        let ghost p1 = *processor;
        let ghost l1 = processor.log();
        let ghost ld1 = lists_view(invalidations_for_descendants);
        let ghost s1 = invalidation_items(*sibling_invalidations);
        let from_ancestors = child_invalidator.process_descendant_invalidations(
            processor,
            invalidations,
            &mut invalidations_for_descendants,
            sibling_invalidations,
            descendant_invalidation_kind,
        );
        let ghost l2 = processor.log();
        let ghost ld2 = lists_view(invalidations_for_descendants);
        let ghost s2 = invalidation_items(*sibling_invalidations);
        proof {
            lemma_any_same(p1, *old(processor), *self.dom, *self.store, invalidation_items(*invalidations), child as int);
            lemma_growth_chain(l0, l1, l2);
        }
        let invalidated_child = from_siblings || from_ancestors;
        if invalidated_child {
            processor.invalidated_self(child);
        }
        let ghost l3 = processor.log();
        proof {
            if invalidated_child {
                lemma_one_more(l2, Notification::InvalidatedSelf(child));
            } else {
                lemma_no_growth(l2);
            }
            lemma_reports_or(false, invalidated_child, l0, l2, l3);
            let cp = child_pred(self.element as int, child as int);
            lemma_quiet_added(l0, l2, cp);
            if invalidated_child {
                assert(l3[l2.len() as int] == Notification::InvalidatedSelf(child));
            }
            assert(added_all(l2, l3, cp));
            lemma_added_chain(l0, l2, l3, cp);
            let ap = after_pred(self.element as int);
            lemma_quiet_added(l0, l2, ap);
            assert(added_all(l2, l3, ap));
            lemma_added_chain(l0, l2, l3, ap);
        }
        let ghost p3 = *processor;
        let invalidated_descendants = child_invalidator.invalidate_descendants(
            processor,
            &invalidations_for_descendants,
        );

        // `child` may stand arbitrarily deep below the element in the DOM
        // (across shadow boundaries); it is a child in the flattened tree.
        let ghost l4 = processor.log();
        proof {
            lemma_reports_or(invalidated_child, invalidated_descendants, l0, l3, l4);
            let cp = child_pred(self.element as int, child as int);
            assert forall|k: int| l3.len() <= k < l4.len() implies cp(#[trigger] l4[k]) by {
                assert(from_pred(child as int)(l4[k]));
            }
            lemma_added_chain(l0, l3, l4, cp);
            let ap = after_pred(self.element as int);
            assert forall|k: int| l3.len() <= k < l4.len() implies ap(#[trigger] l4[k]) by {
                assert(after_pred(child as int)(l4[k]));
            }
            lemma_added_chain(l0, l3, l4, ap);
        }
        if invalidated_child || invalidated_descendants {
            processor.invalidated_descendants(self.element, child);
        }
        proof {
            if invalidated_child || invalidated_descendants {
                lemma_one_more(l4, Notification::InvalidatedDescendants(self.element, child));
            } else {
                lemma_no_growth(l4);
            }
            lemma_reports_or(
                invalidated_child || invalidated_descendants,
                invalidated_child || invalidated_descendants,
                l0,
                l4,
                processor.log(),
            );
            let cp = child_pred(self.element as int, child as int);
            if invalidated_child || invalidated_descendants {
                assert(processor.log()[l4.len() as int] == Notification::InvalidatedDescendants(
                    self.element,
                    child,
                ));
            }
            assert(added_all(l4, processor.log(), cp));
            lemma_added_chain(l0, l4, processor.log(), cp);
            assert(added_all(l4, processor.log(), after_pred(self.element as int)));
            lemma_added_chain(l0, l4, processor.log(), after_pred(self.element as int));
            let l5 = processor.log();
            assert forall|k: int| l0.len() <= k < l5.len() implies from_pred(self.element as int)(
                #[trigger] l5[k],
            ) by {
                assert(cp(l5[k]));
            }
        }
        proof {
            let a0 = answers_of(*old(processor));
            let (dom, store) = (*self.dom, *self.store);
            let c = child as int;
            let invs = invalidation_items(*invalidations);
            assert(no_lists() == (Seq::<Invalidation>::empty(), Seq::<Invalidation>::empty(), Seq::<Invalidation>::empty()));
            let f1 = fold_log(a0, dom, store, c, sibs0, sibs0.len() as int);
            let f2 = fold_log(a0, dom, store, c, invs, invs.len() as int);
            let log2 = f1 + f2;
            assert(l2 =~= l0 + log2);
            let ic = any_invalidates_self(a0, dom, store, sibs0, c) || any_invalidates_self(a0, dom, store, invs, c);
            assert(invalidated_child == ic);
            let log3 = if ic {
                log2.push(Notification::InvalidatedSelf(child))
            } else {
                log2
            };
            assert(l3 =~= l0 + log3);
            assert(child_invalidator.walk() == self.walk());
            let d = descendants_spec(a0, self.walk(), c, self.depth + 1, ld2);
            assert(invalidated_descendants == d.0);
            let log4 = log3 + d.1;
            assert(l4 =~= l0 + log4);
            let x = child_spec(a0, self.walk(), self.element as int, self.depth as int, c, invs, sibs0, descendant_invalidation_kind);
            if invalidated_child || invalidated_descendants {
                assert(processor.log() =~= l0 + log4.push(Notification::InvalidatedDescendants(self.element, child)));
            }
            assert(processor.log() =~= l0 + x.1);
        }
        invalidated_child || invalidated_descendants
    }

    /// Invalidates the anonymous-content roots of the element.
    fn invalidate_nac<P: InvalidationProcessor>(
        &self,
        processor: &mut P,
        invalidations: &InvalidationVector,
    ) -> (r: bool)
        requires
            self.wf(),
            all_wf(*self.store, invalidation_items(*invalidations)),
        ensures
            ({
                let x = nac_spec(answers_of(*old(processor)), self.walk(), self.element as int, self.depth as int, invalidation_items(*invalidations), 0);
                &&& r == x.0
                &&& final(processor).log() == old(processor).log() + x.1
            }),
            same_answers(*final(processor), *old(processor)),
            reports(r, old(processor).log(), final(processor).log()),
            added_all(old(processor).log(), final(processor).log(), from_pred(self.element as int)),
            added_all(old(processor).log(), final(processor).log(), after_pred(self.element as int)),
        decreases self.n() - self.element, 6int,
    {
        let ghost l0 = processor.log();
        proof {
            lemma_no_growth(l0);
        }
        let mut any_nac_root = false;
        proof {
            assert(old(processor).log() =~= processor.log());
        }
        let mut j: usize = 0;
        while j < self.dom.anonymous.len()
            invariant
                reports(any_nac_root, l0, processor.log()),
                added_all(l0, processor.log(), from_pred(self.element as int)),
                added_all(l0, processor.log(), after_pred(self.element as int)),
                self.wf(),
                all_wf(*self.store, invalidation_items(*invalidations)),
                j <= self.dom.anonymous@.len(),
                same_answers(*processor, *old(processor)),
                ({
                    let whole = nac_spec(answers_of(*old(processor)), self.walk(), self.element as int, self.depth as int, invalidation_items(*invalidations), 0);
                    let rest = nac_spec(answers_of(*old(processor)), self.walk(), self.element as int, self.depth as int, invalidation_items(*invalidations), j as int);
                    &&& whole.0 == (any_nac_root || rest.0)
                    &&& old(processor).log() + whole.1 == processor.log() + rest.1
                }),
            decreases self.dom.anonymous@.len() - j,
        {
            let (host, root) = self.dom.anonymous[j];
            let ghost lj = processor.log();
            proof {
                assert(self.dom.anonymous_pairs()[j as int] == (host, root));
            }
            if host == self.element {
                let ghost lb = processor.log();
                let r = self.invalidate_pseudo_element_or_nac(processor, root, invalidations);
                proof {
                    lemma_reports_or(any_nac_root, r, l0, lb, processor.log());
                    lemma_added_chain(l0, lb, processor.log(), from_pred(self.element as int));
                    lemma_added_chain(l0, lb, processor.log(), after_pred(self.element as int));
                }
                any_nac_root = any_nac_root || r;
            }
            proof {
                let a0 = answers_of(*old(processor));
                let invs = invalidation_items(*invalidations);
                let rj = nac_spec(a0, self.walk(), self.element as int, self.depth as int, invs, j as int);
                let rn = nac_spec(a0, self.walk(), self.element as int, self.depth as int, invs, j as int + 1);
                let aj = if host == self.element {
                    let c = child_spec(a0, self.walk(), self.element as int, self.depth as int, root as int, invs, Seq::empty(), DescendantInvalidationKind::Dom);
                    (c.0, c.1)
                } else {
                    (false, Seq::<Notification>::empty())
                };
                assert(rj == (aj.0 || rn.0, aj.1 + rn.1));
                assert(processor.log() =~= lj + aj.1);
                assert(lj + rj.1 =~= processor.log() + rn.1);
            }
            j += 1;
        }
        proof {
            assert(processor.log() + Seq::<Notification>::empty() =~= processor.log());
        }
        any_nac_root
    }

    /// Walks the DOM children of `parent` (the element or its shadow root),
    /// sharing one sibling-invalidation list among them.
    fn invalidate_dom_descendants_of<P: InvalidationProcessor>(
        &self,
        processor: &mut P,
        parent: usize,
        invalidations: &InvalidationVector,
    ) -> (r: bool)
        requires
            self.wf(),
            self.element <= parent < self.dom.len_spec(),
            all_wf(*self.store, invalidation_items(*invalidations)),
        ensures
            ({
                let x = dom_children_spec(answers_of(*old(processor)), self.walk(), self.element as int, self.depth as int, parent as int, invalidation_items(*invalidations));
                &&& r == x.0
                &&& final(processor).log() == old(processor).log() + x.1
            }),
            same_answers(*final(processor), *old(processor)),
            reports(r, old(processor).log(), final(processor).log()),
            added_all(old(processor).log(), final(processor).log(), from_pred(self.element as int)),
            added_all(old(processor).log(), final(processor).log(), after_pred(self.element as int)),
        decreases self.n() - parent, 6int,
    {
        let ghost l0 = processor.log();
        proof {
            lemma_no_growth(l0);
        }
        let mut any_descendant = false;
        proof {
            assert(old(processor).log() =~= processor.log());
        }
        let mut sibling_invalidations = iv_new();
        let n = self.dom.len();
        let mut current = self.dom.get(parent).first_child;
        let ghost mut lo: int = parent as int;
        proof {
            assert(self.dom.node(parent as int).wf_at(parent as int, n as int));
        }
        loop
            invariant
                reports(any_descendant, l0, processor.log()),
                added_all(l0, processor.log(), from_pred(self.element as int)),
                added_all(l0, processor.log(), after_pred(self.element as int)),
                self.wf(),
                n == self.dom.len_spec(),
                all_wf(*self.store, invalidation_items(*invalidations)),
                all_wf(*self.store, invalidation_items(sibling_invalidations)),
                self.element <= parent < n,
                current matches Some(c) ==> parent < c < n,
                current matches Some(c) ==> lo < c,
                parent <= lo,
                same_answers(*processor, *old(processor)),
                ({
                    let whole = dom_children_spec(answers_of(*old(processor)), self.walk(), self.element as int, self.depth as int, parent as int, invalidation_items(*invalidations));
                    let rest = match current {
                        Some(c) => children_spec(answers_of(*old(processor)), self.walk(), self.element as int, self.depth as int, lo, c as int, invalidation_items(*invalidations), invalidation_items(sibling_invalidations)),
                        None => (false, Seq::empty(), invalidation_items(sibling_invalidations)),
                    };
                    &&& whole.0 == (any_descendant || rest.0)
                    &&& old(processor).log() + whole.1 == processor.log() + rest.1
                }),
            ensures
                same_answers(*processor, *old(processor)),
                ({
                    let whole = dom_children_spec(answers_of(*old(processor)), self.walk(), self.element as int, self.depth as int, parent as int, invalidation_items(*invalidations));
                    &&& whole.0 == any_descendant
                    &&& old(processor).log() + whole.1 == processor.log()
                }),
                reports(any_descendant, l0, processor.log()),
                added_all(l0, processor.log(), from_pred(self.element as int)),
                added_all(l0, processor.log(), after_pred(self.element as int)),
            decreases match current {
                Some(c) => n - c,
                None => 0,
            },
        {
            let child = match current {
                Some(c) => c,
                None => {
                    proof {
                        assert(processor.log() + Seq::<Notification>::empty() =~= processor.log());
                    }
                    break;
                },
            };
            let node = self.dom.get(child);
            let ghost lj = processor.log();
            let ghost sj = invalidation_items(sibling_invalidations);
            proof {
                assert(self.dom.node(child as int).wf_at(child as int, n as int));
            }
            if node.is_element {
                let ghost lb = processor.log();
                let r = self.invalidate_child(
                    processor,
                    child,
                    invalidations,
                    &mut sibling_invalidations,
                    DescendantInvalidationKind::Dom,
                );
                proof {
                    lemma_reports_or(any_descendant, r, l0, lb, processor.log());
                    lemma_added_chain(l0, lb, processor.log(), from_pred(self.element as int));
                    lemma_added_chain(l0, lb, processor.log(), after_pred(self.element as int));
                }
                any_descendant = any_descendant || r;
            }
            proof {
                let a0 = answers_of(*old(processor));
                let invs = invalidation_items(*invalidations);
                let first = if node.is_element {
                    child_spec(a0, self.walk(), self.element as int, self.depth as int, child as int, invs, sj, DescendantInvalidationKind::Dom)
                } else {
                    (false, Seq::<Notification>::empty(), sj)
                };
                let rn = match node.next_sibling {
                    Some(nx) => children_spec(a0, self.walk(), self.element as int, self.depth as int, child as int, nx as int, invs, first.2),
                    None => (false, Seq::empty(), first.2),
                };
                assert(children_spec(a0, self.walk(), self.element as int, self.depth as int, lo, child as int, invs, sj) == (first.0 || rn.0, first.1 + rn.1, rn.2));
                assert(processor.log() =~= lj + first.1);
                assert(lj + (first.1 + rn.1) =~= processor.log() + rn.1);
                lo = child as int;
            }
            current = node.next_sibling;
        }
        proof {
            assert(processor.log() + Seq::<Notification>::empty() =~= processor.log());
        }
        any_descendant
    }

    /// Walks the shadow tree under `shadow`, invalidating the elements
    /// that carry a `part` attribute and entering nested shadow trees that
    /// export parts. The element (the host) is told only of elements that
    /// carry a `part` attribute.
    pub fn invalidate_parts_in_shadow_tree<P: InvalidationProcessor>(
        &self,
        processor: &mut P,
        shadow: usize,
        invalidations: &InvalidationVector,
    ) -> (r: bool)
        requires
            self.wf(),
            self.element < shadow < self.dom.len_spec(),
            all_wf(*self.store, invalidation_items(*invalidations)),
        ensures
            ({
                let x = parts_shadow_spec(answers_of(*old(processor)), self.walk(), self.element as int, self.depth as int, shadow as int, invalidation_items(*invalidations));
                &&& r == x.0
                &&& final(processor).log() == old(processor).log() + x.1
            }),
            same_answers(*final(processor), *old(processor)),
            reports(r, old(processor).log(), final(processor).log()),
            added_all(old(processor).log(), final(processor).log(), from_pred(self.element as int)),
            added_all(old(processor).log(), final(processor).log(), after_pred(self.element as int)),
            added_all(old(processor).log(), final(processor).log(), parts_pred(*self.dom, self.element as int)),
        decreases self.n() - shadow, 6int,
    {
        let ghost l0 = processor.log();
        proof {
            lemma_no_growth(l0);
        }
        let mut sibling_invalidations = iv_new();
        self.invalidate_parts_below(processor, shadow, invalidations, &mut sibling_invalidations)
    }

    /// The part of `invalidate_parts_in_shadow_tree` that visits the
    /// descendants of `node` in tree order.
    #[verifier::rlimit(100)]
    fn invalidate_parts_below<P: InvalidationProcessor>(
        &self,
        processor: &mut P,
        node: usize,
        invalidations: &InvalidationVector,
        sibling_invalidations: &mut InvalidationVector,
    ) -> (r: bool)
        requires
            self.wf(),
            self.element < node < self.dom.len_spec(),
            all_wf(*self.store, invalidation_items(*invalidations)),
            all_wf(*self.store, invalidation_items(*old(sibling_invalidations))),
        ensures
            ({
                let x = parts_below_spec(answers_of(*old(processor)), self.walk(), self.element as int, self.depth as int, node as int, invalidation_items(*invalidations), invalidation_items(*old(sibling_invalidations)));
                &&& r == x.0
                &&& final(processor).log() == old(processor).log() + x.1
                &&& invalidation_items(*final(sibling_invalidations)) == x.2
            }),
            same_answers(*final(processor), *old(processor)),
            reports(r, old(processor).log(), final(processor).log()),
            added_all(old(processor).log(), final(processor).log(), from_pred(self.element as int)),
            added_all(old(processor).log(), final(processor).log(), after_pred(self.element as int)),
            added_all(old(processor).log(), final(processor).log(), parts_pred(*self.dom, self.element as int)),
            all_wf(*self.store, invalidation_items(*final(sibling_invalidations))),
        decreases self.n() - node, 5int,
    {
        let ghost l0 = processor.log();
        proof {
            lemma_no_growth(l0);
        }
        let mut any = false;
        let n = self.dom.len();
        let mut current = self.dom.get(node).first_child;
        let ghost mut lo: int = node as int;
        proof {
            assert(self.dom.node(node as int).wf_at(node as int, n as int));
            assert(old(processor).log() =~= processor.log());
        }
        loop
            invariant
                reports(any, l0, processor.log()),
                added_all(l0, processor.log(), from_pred(self.element as int)),
                added_all(l0, processor.log(), after_pred(self.element as int)),
                added_all(l0, processor.log(), parts_pred(*self.dom, self.element as int)),
                self.wf(),
                n == self.dom.len_spec(),
                self.element < node < n,
                all_wf(*self.store, invalidation_items(*invalidations)),
                all_wf(*self.store, invalidation_items(*sibling_invalidations)),
                current matches Some(c) ==> node < c < n,
                current matches Some(c) ==> lo < c,
                node <= lo,
                same_answers(*processor, *old(processor)),
                ({
                    let whole = parts_below_spec(answers_of(*old(processor)), self.walk(), self.element as int, self.depth as int, node as int, invalidation_items(*invalidations), invalidation_items(*old(sibling_invalidations)));
                    let rest = match current {
                        Some(c) => parts_chain_spec(answers_of(*old(processor)), self.walk(), self.element as int, self.depth as int, lo, c as int, invalidation_items(*invalidations), invalidation_items(*sibling_invalidations)),
                        None => (false, Seq::empty(), invalidation_items(*sibling_invalidations)),
                    };
                    &&& whole.0 == (any || rest.0)
                    &&& old(processor).log() + whole.1 == processor.log() + rest.1
                    &&& whole.2 == rest.2
                }),
            ensures
                same_answers(*processor, *old(processor)),
                ({
                    let whole = parts_below_spec(answers_of(*old(processor)), self.walk(), self.element as int, self.depth as int, node as int, invalidation_items(*invalidations), invalidation_items(*old(sibling_invalidations)));
                    &&& whole.0 == any
                    &&& old(processor).log() + whole.1 == processor.log()
                    &&& whole.2 == invalidation_items(*sibling_invalidations)
                }),
                reports(any, l0, processor.log()),
                added_all(l0, processor.log(), from_pred(self.element as int)),
                added_all(l0, processor.log(), after_pred(self.element as int)),
                added_all(l0, processor.log(), parts_pred(*self.dom, self.element as int)),
                all_wf(*self.store, invalidation_items(*sibling_invalidations)),
            decreases match current {
                Some(c) => n - c,
                None => 0,
            },
        {
            let element = match current {
                Some(c) => c,
                None => {
                    proof {
                        assert(processor.log() + Seq::<Notification>::empty() =~= processor.log());
                    }
                    break;
                },
            };
            let nd = self.dom.get(element);
            let ghost lj = processor.log();
            let ghost sj = invalidation_items(*sibling_invalidations);
            proof {
                assert(self.dom.node(element as int).wf_at(element as int, n as int));
            }
            if nd.is_element {
                let ghost la = processor.log();
                if self.dom.has_part_attr(element) {
                    let ghost lb = processor.log();
                    let r = self.invalidate_child(
                        processor,
                        element,
                        invalidations,
                        sibling_invalidations,
                        DescendantInvalidationKind::Part,
                    );
                    proof {
                        lemma_reports_or(any, r, l0, lb, processor.log());
                        lemma_added_chain(l0, lb, processor.log(), from_pred(self.element as int));
                        lemma_added_chain(l0, lb, processor.log(), after_pred(self.element as int));
                        let now = processor.log();
                        assert forall|k: int| lb.len() <= k < now.len() implies parts_pred(*self.dom, self.element as int)(
                            #[trigger] now[k],
                        ) by {
                            assert(child_pred(self.element as int, element as int)(now[k]));
                        }
                        lemma_added_chain(l0, lb, now, parts_pred(*self.dom, self.element as int));
                    }
                    any = any || r;
                }
                let ghost lb0 = processor.log();
                let ghost sa = invalidation_items(*sibling_invalidations);
                if let Some(shadow) = nd.shadow_root {
                    if nd.exports_parts {
                        let ghost lb = processor.log();
                        let r = self.invalidate_parts_in_shadow_tree(
                            processor,
                            shadow,
                            invalidations,
                        );
                        proof {
                            lemma_reports_or(any, r, l0, lb, processor.log());
                            lemma_added_chain(l0, lb, processor.log(), from_pred(self.element as int));
                            lemma_added_chain(l0, lb, processor.log(), after_pred(self.element as int));
                            lemma_added_chain(l0, lb, processor.log(), parts_pred(*self.dom, self.element as int));
                        }
                        any = any || r;
                    }
                }
            }
            let ghost lc = processor.log();
            let ghost sc = invalidation_items(*sibling_invalidations);
            let ghost lb = processor.log();
            let r = self.invalidate_parts_below(
                processor,
                element,
                invalidations,
                sibling_invalidations,
            );
            proof {
                lemma_reports_or(any, r, l0, lb, processor.log());
                lemma_added_chain(l0, lb, processor.log(), from_pred(self.element as int));
                lemma_added_chain(l0, lb, processor.log(), after_pred(self.element as int));
                lemma_added_chain(l0, lb, processor.log(), parts_pred(*self.dom, self.element as int));
            }
            any = any || r;
            proof {
                let a0 = answers_of(*old(processor));
                let invs = invalidation_items(*invalidations);
                let (w, e, d) = (self.walk(), self.element as int, self.depth as int);
                let c = element as int;
                let pa = if nd.is_element && self.dom.has_part_attr_spec(c) {
                    child_spec(a0, w, e, d, c, invs, sj, DescendantInvalidationKind::Part)
                } else {
                    (false, Seq::<Notification>::empty(), sj)
                };
                let pb = if nd.is_element {
                    match nd.shadow_root {
                        Some(sr) => if nd.exports_parts && c < sr < n {
                            parts_shadow_spec(a0, w, e, d, sr as int, invs)
                        } else {
                            (false, Seq::<Notification>::empty())
                        },
                        None => (false, Seq::<Notification>::empty()),
                    }
                } else {
                    (false, Seq::<Notification>::empty())
                };
                let pd = parts_below_spec(a0, w, e, d, c, invs, pa.2);
                let rn = match nd.next_sibling {
                    Some(nx) => parts_chain_spec(a0, w, e, d, c, nx as int, invs, pd.2),
                    None => (false, Seq::empty(), pd.2),
                };
                assert(parts_chain_spec(a0, w, e, d, lo, c, invs, sj) == (pa.0 || pb.0 || pd.0 || rn.0, pa.1 + pb.1 + pd.1 + rn.1, rn.2));
                assert(sc == pa.2);
                assert(processor.log() =~= lj + pa.1 + pb.1 + pd.1);
                assert(lj + (pa.1 + pb.1 + pd.1 + rn.1) =~= processor.log() + rn.1);
                lo = c;
            }
            current = nd.next_sibling;
        }
        any
    }

    /// Invalidates the `::part()`s of the element's shadow tree.
    fn invalidate_parts<P: InvalidationProcessor>(
        &self,
        processor: &mut P,
        invalidations: &InvalidationVector,
    ) -> (r: bool)
        requires
            self.wf(),
            all_wf(*self.store, invalidation_items(*invalidations)),
        ensures
            ({
                let x = parts_spec(answers_of(*old(processor)), self.walk(), self.element as int, self.depth as int, invalidation_items(*invalidations));
                &&& r == x.0
                &&& final(processor).log() == old(processor).log() + x.1
            }),
            same_answers(*final(processor), *old(processor)),
            reports(r, old(processor).log(), final(processor).log()),
            added_all(old(processor).log(), final(processor).log(), from_pred(self.element as int)),
            added_all(old(processor).log(), final(processor).log(), after_pred(self.element as int)),
            invalidation_items(*invalidations).len() == 0 ==> !r && *final(processor)
                == *old(processor),
            self.dom.node(self.element as int).shadow_root.is_none() ==> !r && *final(processor)
                == *old(processor),
        decreases self.n() - self.element, 7int,
    {
        let ghost l0 = processor.log();
        proof {
            lemma_no_growth(l0);
        }
        if iv_len(invalidations) == 0 {
            return false;
        }
        let shadow = match self.dom.get(self.element).shadow_root {
            Some(s) => s,
            None => return false,
        };
        proof {
            assert(self.dom.node(self.element as int).wf_at(
                self.element as int,
                self.dom.len_spec() as int,
            ));
        }
        self.invalidate_parts_in_shadow_tree(processor, shadow, invalidations)
    }

    /// Invalidates the elements slotted into the element.
    fn invalidate_slotted_elements<P: InvalidationProcessor>(
        &self,
        processor: &mut P,
        invalidations: &InvalidationVector,
    ) -> (r: bool)
        requires
            self.wf(),
            all_wf(*self.store, invalidation_items(*invalidations)),
        ensures
            ({
                let x = slotted_spec(answers_of(*old(processor)), self.walk(), self.element as int, self.depth as int, invalidation_items(*invalidations));
                &&& r == x.0
                &&& final(processor).log() == old(processor).log() + x.1
            }),
            same_answers(*final(processor), *old(processor)),
            reports(r, old(processor).log(), final(processor).log()),
            added_all(old(processor).log(), final(processor).log(), from_pred(self.element as int)),
            added_all(old(processor).log(), final(processor).log(), after_pred(self.element as int)),
            invalidation_items(*invalidations).len() == 0 ==> !r && *final(processor)
                == *old(processor),
        decreases self.n() - self.element, 7int,
    {
        let ghost l0 = processor.log();
        proof {
            lemma_no_growth(l0);
        }
        if iv_len(invalidations) == 0 {
            return false;
        }
        self.invalidate_slotted_elements_in_slot(processor, self.element, invalidations)
    }

    /// Invalidates what is assigned to `slot`, going through nested slots.
    /// The element is told only of nodes that are assigned to a slot.
    pub fn invalidate_slotted_elements_in_slot<P: InvalidationProcessor>(
        &self,
        processor: &mut P,
        slot: usize,
        invalidations: &InvalidationVector,
    ) -> (r: bool)
        requires
            self.wf(),
            self.element <= slot < self.dom.len_spec(),
            all_wf(*self.store, invalidation_items(*invalidations)),
        ensures
            ({
                let x = in_slot_spec(answers_of(*old(processor)), self.walk(), self.element as int, self.depth as int, slot as int, invalidation_items(*invalidations));
                &&& r == x.0
                &&& final(processor).log() == old(processor).log() + x.1
            }),
            same_answers(*final(processor), *old(processor)),
            reports(r, old(processor).log(), final(processor).log()),
            added_all(old(processor).log(), final(processor).log(), from_pred(self.element as int)),
            added_all(old(processor).log(), final(processor).log(), after_pred(self.element as int)),
            added_all(old(processor).log(), final(processor).log(), slotted_pred(*self.dom, self.element as int)),
        decreases self.n() - slot, 6int,
    {
        let ghost l0 = processor.log();
        proof {
            lemma_no_growth(l0);
        }
        let mut any = false;
        let mut sibling_invalidations = iv_new();
        proof {
            assert(old(processor).log() =~= processor.log());
        }
        let mut j: usize = 0;
        while j < self.dom.assigned.len()
            invariant
                reports(any, l0, processor.log()),
                added_all(l0, processor.log(), from_pred(self.element as int)),
                added_all(l0, processor.log(), after_pred(self.element as int)),
                added_all(l0, processor.log(), slotted_pred(*self.dom, self.element as int)),
                self.wf(),
                self.element <= slot < self.dom.len_spec(),
                all_wf(*self.store, invalidation_items(*invalidations)),
                all_wf(*self.store, invalidation_items(sibling_invalidations)),
                j <= self.dom.assigned@.len(),
                same_answers(*processor, *old(processor)),
                ({
                    let whole = in_slot_spec(answers_of(*old(processor)), self.walk(), self.element as int, self.depth as int, slot as int, invalidation_items(*invalidations));
                    let rest = slot_loop_spec(answers_of(*old(processor)), self.walk(), self.element as int, self.depth as int, slot as int, invalidation_items(*invalidations), j as int, invalidation_items(sibling_invalidations));
                    &&& whole.0 == (any || rest.0)
                    &&& old(processor).log() + whole.1 == processor.log() + rest.1
                }),
            decreases self.dom.assigned@.len() - j,
        {
            let (s, node) = self.dom.assigned[j];
            let ghost lj = processor.log();
            let ghost sj = invalidation_items(sibling_invalidations);
            proof {
                assert(self.dom.assigned_pairs()[j as int] == (s, node));
            }
            if s == slot && self.dom.is_element(node) {
                if self.dom.get(node).is_slot {
                    let ghost lb = processor.log();
                    let r = self.invalidate_slotted_elements_in_slot(processor, node, invalidations);
                    proof {
                        lemma_reports_or(any, r, l0, lb, processor.log());
                        lemma_added_chain(l0, lb, processor.log(), from_pred(self.element as int));
                        lemma_added_chain(l0, lb, processor.log(), after_pred(self.element as int));
                        lemma_added_chain(l0, lb, processor.log(), slotted_pred(*self.dom, self.element as int));
                    }
                    any = any || r;
                } else {
                    let ghost lb = processor.log();
                    let r = self.invalidate_child(
                        processor,
                        node,
                        invalidations,
                        &mut sibling_invalidations,
                        DescendantInvalidationKind::Slotted,
                    );
                    proof {
                        lemma_reports_or(any, r, l0, lb, processor.log());
                        lemma_added_chain(l0, lb, processor.log(), from_pred(self.element as int));
                        lemma_added_chain(l0, lb, processor.log(), after_pred(self.element as int));
                        let now = processor.log();
                        assert(self.dom.assigned_pairs()[j as int].1 == node);
                        assert forall|k: int| lb.len() <= k < now.len() implies slotted_pred(*self.dom, self.element as int)(
                            #[trigger] now[k],
                        ) by {
                            assert(child_pred(self.element as int, node as int)(now[k]));
                        }
                        lemma_added_chain(l0, lb, now, slotted_pred(*self.dom, self.element as int));
                    }
                    any = any || r;
                }
            }
            proof {
                let a0 = answers_of(*old(processor));
                let invs = invalidation_items(*invalidations);
                let (w, e, d) = (self.walk(), self.element as int, self.depth as int);
                let aj = if s == slot && self.dom.is_element_spec(node as int) && slot < node < self.dom.len_spec() {
                    if self.dom.node(node as int).is_slot {
                        let x = in_slot_spec(a0, w, e, d, node as int, invs);
                        (x.0, x.1, sj)
                    } else {
                        child_spec(a0, w, e, d, node as int, invs, sj, DescendantInvalidationKind::Slotted)
                    }
                } else {
                    (false, Seq::<Notification>::empty(), sj)
                };
                let rn = slot_loop_spec(a0, w, e, d, slot as int, invs, j as int + 1, aj.2);
                assert(slot_loop_spec(a0, w, e, d, slot as int, invs, j as int, sj) == (aj.0 || rn.0, aj.1 + rn.1, rn.2));
                assert(processor.log() =~= lj + aj.1);
                assert(invalidation_items(sibling_invalidations) == aj.2);
                assert(lj + (aj.1 + rn.1) =~= processor.log() + rn.1);
            }
            j += 1;
        }
        proof {
            assert(processor.log() + Seq::<Notification>::empty() =~= processor.log());
        }
        any
    }

    /// Invalidates the descendants that are not slotted: DOM children, and
    /// unless the processor looks at the light tree only, the children of
    /// the shadow root and the anonymous content.
    fn invalidate_non_slotted_descendants<P: InvalidationProcessor>(
        &self,
        processor: &mut P,
        invalidations: &InvalidationVector,
    ) -> (r: bool)
        requires
            self.wf(),
            all_wf(*self.store, invalidation_items(*invalidations)),
        ensures
            ({
                let x = non_slotted_spec(answers_of(*old(processor)), self.walk(), self.element as int, self.depth as int, invalidation_items(*invalidations));
                &&& r == x.0
                &&& final(processor).log() == old(processor).log() + x.1
            }),
            same_answers(*final(processor), *old(processor)),
            reports(r, old(processor).log(), final(processor).log()),
            added_all(old(processor).log(), final(processor).log(), from_pred(self.element as int)),
            added_all(old(processor).log(), final(processor).log(), after_pred(self.element as int)),
            invalidation_items(*invalidations).len() == 0 ==> !r && *final(processor)
                == *old(processor),
        decreases self.n() - self.element, 7int,
    {
        let ghost l0 = processor.log();
        proof {
            lemma_no_growth(l0);
        }
        if iv_len(invalidations) == 0 {
            return false;
        }
        if processor.light_tree_only() {
            return self.invalidate_dom_descendants_of(processor, self.element, invalidations);
        }
        let mut any_descendant = false;
        proof {
            assert(self.dom.node(self.element as int).wf_at(
                self.element as int,
                self.dom.len_spec() as int,
            ));
        }
        // Needed for `:host()` rules inside the shadow tree.
        if let Some(root) = self.dom.get(self.element).shadow_root {
            let ghost lb = processor.log();
            let r = self.invalidate_dom_descendants_of(processor, root, invalidations);
            proof {
                lemma_reports_or(any_descendant, r, l0, lb, processor.log());
                lemma_added_chain(l0, lb, processor.log(), from_pred(self.element as int));
                lemma_added_chain(l0, lb, processor.log(), after_pred(self.element as int));
            }
            any_descendant = any_descendant || r;
        }
        let ghost lb = processor.log();
        let r = self.invalidate_dom_descendants_of(processor, self.element, invalidations);
        proof {
            lemma_reports_or(any_descendant, r, l0, lb, processor.log());
            lemma_added_chain(l0, lb, processor.log(), from_pred(self.element as int));
            lemma_added_chain(l0, lb, processor.log(), after_pred(self.element as int));
        }
        any_descendant = any_descendant || r;
        let ghost lb = processor.log();
        let r = self.invalidate_nac(processor, invalidations);
        proof {
            lemma_reports_or(any_descendant, r, l0, lb, processor.log());
            lemma_added_chain(l0, lb, processor.log(), from_pred(self.element as int));
            lemma_added_chain(l0, lb, processor.log(), after_pred(self.element as int));
        }
        any_descendant = any_descendant || r;
        any_descendant
    }

    /// Walks the element's descendants with the given lists. Returns whether
    /// anything below the element was invalidated; past the depth limit it
    /// reports that, conservatively, without walking.
    pub fn invalidate_descendants<P: InvalidationProcessor>(
        &self,
        processor: &mut P,
        invalidations: &DescendantInvalidationLists,
    ) -> (r: bool)
        requires
            self.wf(),
            lists_wf(*self.store, *invalidations),
        ensures
            ({
                let x = descendants_spec(answers_of(*old(processor)), self.walk(), self.element as int, self.depth as int, lists_view(*invalidations));
                &&& r == x.0
                &&& final(processor).log() == old(processor).log() + x.1
            }),
            same_answers(*final(processor), *old(processor)),
            reports(r, old(processor).log(), final(processor).log()),
            added_all(old(processor).log(), final(processor).log(), from_pred(self.element as int)),
            added_all(old(processor).log(), final(processor).log(), after_pred(self.element as int)),
            lists_empty(*invalidations) ==> !r && *final(processor) == *old(processor),
            !lists_empty(*invalidations) && !(old(processor).descend_answers())(self.element as int)
                ==> !r && final(processor).log() == old(processor).log(),
            !lists_empty(*invalidations) && (old(processor).descend_answers())(self.element as int)
                && (self.stack_limit_checker matches Some(c) && self.depth >= c.max_depth) ==> r
                && final(processor).log() == old(processor).log().push(
                Notification::RecursionLimitExceeded(self.element),
            ),
        decreases self.n() - self.element, 9int,
    {
        let ghost l0 = processor.log();
        proof {
            lemma_no_growth(l0);
        }
        if invalidations.is_empty() {
            return false;
        }
        if !processor.should_process_descendants(self.element) {
            return false;
        }
        self.walk_descendants(processor, invalidations)
    }

    /// The walk of `invalidate_descendants` once the processor agreed to
    /// it. Past the depth limit nothing is walked: the processor is told,
    /// and the descendants are reported invalidated, since over-invalidating
    /// is safe where skipping is not.
    fn walk_descendants<P: InvalidationProcessor>(
        &self,
        processor: &mut P,
        invalidations: &DescendantInvalidationLists,
    ) -> (r: bool)
        requires
            self.wf(),
            lists_wf(*self.store, *invalidations),
        ensures
            ({
                let x = walk_spec(answers_of(*old(processor)), self.walk(), self.element as int, self.depth as int, lists_view(*invalidations));
                &&& r == x.0
                &&& final(processor).log() == old(processor).log() + x.1
            }),
            same_answers(*final(processor), *old(processor)),
            reports(r, old(processor).log(), final(processor).log()),
            added_all(old(processor).log(), final(processor).log(), from_pred(self.element as int)),
            added_all(old(processor).log(), final(processor).log(), after_pred(self.element as int)),
            (self.stack_limit_checker matches Some(c) && self.depth >= c.max_depth) ==> r
                && final(processor).log() == old(processor).log().push(
                Notification::RecursionLimitExceeded(self.element),
            ),
        decreases self.n() - self.element, 8int,
    {
        let ghost l0 = processor.log();
        proof {
            lemma_no_growth(l0);
        }
        if let Some(checker) = self.stack_limit_checker {
            if checker.limit_exceeded(self.depth) {
                processor.recursion_limit_exceeded(self.element);
                proof {
                    lemma_one_more(l0, Notification::RecursionLimitExceeded(self.element));
                    assert(processor.log()[l0.len() as int] == Notification::RecursionLimitExceeded(self.element));
                    assert(added_all(l0, processor.log(), after_pred(self.element as int)));
                }
                return true;
            }
        }
        let mut any_descendant = false;
        let ghost lb = processor.log();
        let r = self.invalidate_non_slotted_descendants(processor, &invalidations.dom_descendants);
        proof {
            lemma_reports_or(any_descendant, r, l0, lb, processor.log());
            lemma_added_chain(l0, lb, processor.log(), from_pred(self.element as int));
            lemma_added_chain(l0, lb, processor.log(), after_pred(self.element as int));
        }
        any_descendant = any_descendant || r;
        let ghost lb = processor.log();
        let r = self.invalidate_slotted_elements(processor, &invalidations.slotted_descendants);
        proof {
            lemma_reports_or(any_descendant, r, l0, lb, processor.log());
            lemma_added_chain(l0, lb, processor.log(), from_pred(self.element as int));
            lemma_added_chain(l0, lb, processor.log(), after_pred(self.element as int));
        }
        any_descendant = any_descendant || r;
        let ghost lb = processor.log();
        let r = self.invalidate_parts(processor, &invalidations.parts);
        proof {
            lemma_reports_or(any_descendant, r, l0, lb, processor.log());
            lemma_added_chain(l0, lb, processor.log(), from_pred(self.element as int));
            lemma_added_chain(l0, lb, processor.log(), after_pred(self.element as int));
        }
        any_descendant = any_descendant || r;
        any_descendant
    }
    /// Processes the sibling invalidations that come from the previous
    /// sibling: each may invalidate this element or produce new
    /// invalidations; those that no longer apply further right are dropped,
    /// and the new sibling invalidations are appended. Returns whether this
    /// element was invalidated.
    ///
    /// The list then starts with exactly the old invalidations that are
    /// effective for the next sibling, in their order (their
    /// `matched_by_any_previous` flags updated).
    pub fn process_sibling_invalidations<P: InvalidationProcessor>(
        &self,
        processor: &mut P,
        descendant_invalidations: &mut DescendantInvalidationLists,
        sibling_invalidations: &mut InvalidationVector,
    ) -> (r: bool)
        requires
            self.wf(),
            lists_wf(*self.store, *old(descendant_invalidations)),
            all_wf(*self.store, invalidation_items(*old(sibling_invalidations))),
        ensures
            lists_wf(*self.store, *final(descendant_invalidations)),
            all_wf(*self.store, invalidation_items(*final(sibling_invalidations))),
            lists_grow(
                lists_view(*old(descendant_invalidations)),
                lists_view(*final(descendant_invalidations)),
            ),
            ({
                let kept = still_effective(*self.store, invalidation_items(*old(sibling_invalidations)));
                let now = invalidation_items(*final(sibling_invalidations));
                &&& kept.len() <= now.len()
                &&& now.subrange(0, kept.len() as int) == kept_spec(
                    answers_of(*old(processor)),
                    *self.dom,
                    *self.store,
                    self.element as int,
                    invalidation_items(*old(sibling_invalidations)),
                )
            }),
            r == any_invalidates_self(
                answers_of(*old(processor)),
                *self.dom,
                *self.store,
                invalidation_items(*old(sibling_invalidations)),
                self.element as int,
            ),
            quiet_growth(old(processor).log(), final(processor).log()),
            same_answers(*final(processor), *old(processor)),
            ({
                let sf = sibling_fold(
                    answers_of(*old(processor)),
                    *self.dom,
                    *self.store,
                    self.element as int,
                    invalidation_items(*old(sibling_invalidations)),
                    invalidation_items(*old(sibling_invalidations)).len() as int,
                    lists_view(*old(descendant_invalidations)),
                    Seq::empty(),
                );
                &&& lists_view(*final(descendant_invalidations)) == sf.0
                &&& invalidation_items(*final(sibling_invalidations)) == kept_spec(
                    answers_of(*old(processor)),
                    *self.dom,
                    *self.store,
                    self.element as int,
                    invalidation_items(*old(sibling_invalidations)),
                ) + sf.1
            }),
            final(processor).log() == old(processor).log() + fold_log(
                answers_of(*old(processor)),
                *self.dom,
                *self.store,
                self.element as int,
                invalidation_items(*old(sibling_invalidations)),
                invalidation_items(*old(sibling_invalidations)).len() as int,
            ),
            invalidation_items(*old(sibling_invalidations)).len() == 0 ==> !r
                && invalidation_items(*final(sibling_invalidations)).len() == 0
                && lists_view(*final(descendant_invalidations)) == lists_view(
                *old(descendant_invalidations),
            ) && *final(processor) == *old(processor),
    {
        let mut i: usize = 0;
        let mut new_sibling_invalidations = iv_new();
        let mut invalidated_self = false;
        let ghost old_sib = invalidation_items(*sibling_invalidations);
        let ghost mut j: int = 0;
        proof {
            assert(old(processor).log() + Seq::<Notification>::empty() =~= old(processor).log());
            lemma_no_growth(processor.log());
            assert(old_sib.subrange(0, 0) =~= Seq::<Invalidation>::empty());
            assert(still_effective(*self.store, Seq::<Invalidation>::empty()) =~= Seq::<Invalidation>::empty()) by {
                reveal(Seq::filter);
            }
            assert(invalidation_items(*sibling_invalidations).subrange(0, 0) =~= kept_spec(
                answers_of(*old(processor)),
                *self.dom,
                *self.store,
                self.element as int,
                old_sib.subrange(0, 0),
            ));
        }

        while i < iv_len(sibling_invalidations)
            invariant
                self.wf(),
                old_sib == invalidation_items(*old(sibling_invalidations)),
                0 <= j <= old_sib.len(),
                i <= invalidation_items(*sibling_invalidations).len(),
                invalidation_items(*sibling_invalidations).subrange(
                    i as int,
                    invalidation_items(*sibling_invalidations).len() as int,
                ) == old_sib.subrange(j, old_sib.len() as int),
                invalidation_items(*sibling_invalidations).subrange(0, i as int) == kept_spec(
                    answers_of(*old(processor)),
                    *self.dom,
                    *self.store,
                    self.element as int,
                    old_sib.subrange(0, j),
                ),
                same_answers(*processor, *old(processor)),
                quiet_growth(old(processor).log(), processor.log()),
                (lists_view(*descendant_invalidations), invalidation_items(new_sibling_invalidations))
                    == sibling_fold(
                    answers_of(*old(processor)),
                    *self.dom,
                    *self.store,
                    self.element as int,
                    old_sib,
                    j,
                    lists_view(*old(descendant_invalidations)),
                    Seq::empty(),
                ),
                processor.log() == old(processor).log() + fold_log(
                    answers_of(*old(processor)),
                    *self.dom,
                    *self.store,
                    self.element as int,
                    old_sib,
                    j,
                ),
                invalidated_self == exists|m: int|
                    0 <= m < j && (#[trigger] single_spec(
                        answers_of(*old(processor)),
                        *self.dom,
                        *self.store,
                        old_sib[m],
                        self.element as int,
                    )).0,
                lists_wf(*self.store, *descendant_invalidations),
                all_wf(*self.store, invalidation_items(*sibling_invalidations)),
                all_wf(*self.store, invalidation_items(new_sibling_invalidations)),
                lists_grow(
                    lists_view(*old(descendant_invalidations)),
                    lists_view(*descendant_invalidations),
                ),
                old_sib.len() == 0 ==> invalidation_items(new_sibling_invalidations).len() == 0
                    && lists_view(*descendant_invalidations) == lists_view(
                    *old(descendant_invalidations),
                ) && !invalidated_self && *processor == *old(processor),
            decreases invalidation_items(*sibling_invalidations).len() - i,
        {
            let ghost cur = invalidation_items(*sibling_invalidations);
            proof {
                assert(cur.subrange(i as int, cur.len() as int).len() == cur.len() - i);
                assert(old_sib.subrange(j, old_sib.len() as int).len() == old_sib.len() - j);
                assert(j < old_sib.len());
                assert(cur.subrange(i as int, cur.len() as int)[0] == cur[i as int]);
                assert(old_sib.subrange(j, old_sib.len() as int)[0] == old_sib[j]);
                assert(cur[i as int] == old_sib[j]);
            }
            let invalidation = iv_get(sibling_invalidations, i);
            let ghost p_before = *processor;
            let ghost log_before = processor.log();
            let result = self.process_invalidation(
                processor,
                &invalidation,
                descendant_invalidations,
                &mut new_sibling_invalidations,
                InvalidationKind::Sibling,
            );
            proof {
                let e = self.element as int;
                lemma_processing_is_deterministic(
                    p_before,
                    *old(processor),
                    *self.dom,
                    *self.store,
                    invalidation,
                    e,
                    InvalidationKind::Sibling,
                    lists_view(*old(descendant_invalidations)),
                    invalidation_items(*old(sibling_invalidations)),
                    log_before,
                );
                match outcome_spec(answers_of(p_before), *self.dom, *self.store, invalidation, e) {
                    MatchOutcome::Relative(k, n) => {
                        lemma_one_more(log_before, Notification::RelativeSelector(e as usize, k, n));
                    },
                    _ => {
                        lemma_no_growth(log_before);
                    },
                }
                lemma_growth_chain(old(processor).log(), log_before, processor.log());
                lemma_log_after_append(
                    answers_of(*old(processor)),
                    *self.dom,
                    *self.store,
                    invalidation,
                    e,
                    old(processor).log(),
                    fold_log(answers_of(*old(processor)), *self.dom, *self.store, e, old_sib, j),
                );
                if single_spec(answers_of(*old(processor)), *self.dom, *self.store, old_sib[j], e).0 {
                    assert(0 <= j < j + 1);
                }
            }
            invalidated_self = invalidated_self || result.invalidated_self;

            let mut updated = iv_remove(sibling_invalidations, i);
            updated.matched_by_any_previous = updated.matched_by_any_previous || result.matched;
            let ghost mid = invalidation_items(*sibling_invalidations);
            proof {
                assert(inv_wf(*self.store, cur[i as int]));
                assert forall|k: int| 0 <= k < mid.len() implies inv_wf(
                    *self.store,
                    #[trigger] mid[k],
                ) by {
                    if k < i {
                        assert(mid[k] == cur[k]);
                    } else {
                        assert(mid[k] == cur[k + 1]);
                    }
                }
                assert(mid.subrange(0, i as int) =~= cur.subrange(0, i as int));
                assert(mid.subrange(i as int, mid.len() as int) =~= old_sib.subrange(
                    j + 1,
                    old_sib.len() as int,
                )) by {
                    assert(mid.len() - i == old_sib.len() - j - 1);
                    assert forall|k: int| 0 <= k < mid.len() - i implies mid.subrange(
                        i as int,
                        mid.len() as int,
                    )[k] == old_sib.subrange(j + 1, old_sib.len() as int)[k] by {
                        assert(mid[i + k] == cur[i + k + 1]);
                        assert(cur.subrange(i as int, cur.len() as int)[k + 1] == old_sib.subrange(
                            j,
                            old_sib.len() as int,
                        )[k + 1]);
                    }
                }
                let f = |x: Invalidation| effective_for_next_spec(*self.store, x);
                assert(old_sib.subrange(0, j + 1).drop_last() =~= old_sib.subrange(0, j));
                reveal(Seq::filter);
            }
            if updated.effective_for_next(self.store) {
                iv_insert(sibling_invalidations, i, updated);
                proof {
                    let now = invalidation_items(*sibling_invalidations);
                    assert forall|k: int| 0 <= k < now.len() implies inv_wf(
                        *self.store,
                        #[trigger] now[k],
                    ) by {
                        if k < i {
                            assert(now[k] == mid[k]);
                        } else if k > i {
                            assert(now[k] == mid[k - 1]);
                        }
                    }
                    assert(now.subrange(0, i as int + 1) =~= cur.subrange(0, i as int).push(
                        updated,
                    ));
                    let kept_before = still_effective(*self.store, old_sib.subrange(0, j));
                    let f = |x: Invalidation| mark_spec(
                        answers_of(*old(processor)),
                        *self.dom,
                        *self.store,
                        self.element as int,
                        x,
                    );
                    assert(kept_before.push(old_sib[j]).map_values(f) =~= kept_before.map_values(
                        f,
                    ).push(f(old_sib[j])));
                    assert(updated == f(old_sib[j]));
                    assert(now.subrange(i as int + 1, now.len() as int) =~= mid.subrange(
                        i as int,
                        mid.len() as int,
                    ));
                }
                i += 1;
            }
            proof {
                j = j + 1;
            }
        }
        proof {
            assert(old_sib.subrange(0, j) =~= old_sib);
        }
        let ghost kept_now = invalidation_items(*sibling_invalidations);
        let ghost news = invalidation_items(new_sibling_invalidations);
        proof {
            assert(kept_now.subrange(0, i as int) =~= kept_now);
            assert(kept_now + news.subrange(0, 0) =~= kept_now);
        }

        let mut k: usize = 0;
        while k < iv_len(&new_sibling_invalidations)
            invariant
                i == kept_now.len(),
                i <= invalidation_items(*sibling_invalidations).len(),
                invalidation_items(*sibling_invalidations).subrange(0, i as int) == kept_now,
                all_wf(*self.store, invalidation_items(*sibling_invalidations)),
                all_wf(*self.store, invalidation_items(new_sibling_invalidations)),
                old_sib.len() == 0 ==> invalidation_items(*sibling_invalidations).len() == 0
                    && invalidation_items(new_sibling_invalidations).len() == 0,
                news == invalidation_items(new_sibling_invalidations),
                k <= news.len(),
                invalidation_items(*sibling_invalidations) == kept_now + news.subrange(0, k as int),
            decreases invalidation_items(new_sibling_invalidations).len() - k,
        {
            let x = iv_get(&new_sibling_invalidations, k);
            let ghost before = invalidation_items(*sibling_invalidations);
            iv_push(sibling_invalidations, x);
            proof {
                let now = invalidation_items(*sibling_invalidations);
                assert forall|m: int| 0 <= m < now.len() implies inv_wf(
                    *self.store,
                    #[trigger] now[m],
                ) by {
                    if m < before.len() {
                        assert(now[m] == before[m]);
                    }
                }
                assert(now.subrange(0, i as int) =~= before.subrange(0, i as int));
                assert(now =~= kept_now + news.subrange(0, k as int + 1));
            }
            k += 1;
        }
        proof {
            assert(news.subrange(0, news.len() as int) =~= news);
        }
        invalidated_self
    }

    /// Processes the invalidations that come from the parent: each may
    /// invalidate this element or produce new invalidations, and each that
    /// applies further down is handed on to the children, marked as matched
    /// where it matched here. Returns whether this element was invalidated.
    pub fn process_descendant_invalidations<P: InvalidationProcessor>(
        &self,
        processor: &mut P,
        invalidations: &InvalidationVector,
        descendant_invalidations: &mut DescendantInvalidationLists,
        sibling_invalidations: &mut InvalidationVector,
        descendant_invalidation_kind: DescendantInvalidationKind,
    ) -> (r: bool)
        requires
            self.wf(),
            all_wf(*self.store, invalidation_items(*invalidations)),
            lists_wf(*self.store, *old(descendant_invalidations)),
            all_wf(*self.store, invalidation_items(*old(sibling_invalidations))),
        ensures
            lists_wf(*self.store, *final(descendant_invalidations)),
            all_wf(*self.store, invalidation_items(*final(sibling_invalidations))),
            lists_grow(
                lists_view(*old(descendant_invalidations)),
                lists_view(*final(descendant_invalidations)),
            ),
            invalidation_items(*old(sibling_invalidations)).is_prefix_of(
                invalidation_items(*final(sibling_invalidations)),
            ),
            pending_count(
                lists_view(*final(descendant_invalidations)),
                invalidation_items(*final(sibling_invalidations)),
            ) <= pending_count(
                lists_view(*old(descendant_invalidations)),
                invalidation_items(*old(sibling_invalidations)),
            ) + 2 * invalidation_items(*invalidations).len(),
            invalidation_items(*invalidations).len() == 0 ==> !r && lists_view(
                *final(descendant_invalidations),
            ) == lists_view(*old(descendant_invalidations)) && invalidation_items(
                *final(sibling_invalidations),
            ) == invalidation_items(*old(sibling_invalidations)) && *final(processor) == *old(
                processor,
            ),
            r == any_invalidates_self(
                answers_of(*old(processor)),
                *self.dom,
                *self.store,
                invalidation_items(*invalidations),
                self.element as int,
            ),
            (lists_view(*final(descendant_invalidations)), invalidation_items(
                *final(sibling_invalidations),
            )) == descendant_fold(
                answers_of(*old(processor)),
                *self.dom,
                *self.store,
                self.element as int,
                descendant_invalidation_kind,
                invalidation_items(*invalidations),
                invalidation_items(*invalidations).len() as int,
                lists_view(*old(descendant_invalidations)),
                invalidation_items(*old(sibling_invalidations)),
            ),
            quiet_growth(old(processor).log(), final(processor).log()),
            same_answers(*final(processor), *old(processor)),
            final(processor).log() == old(processor).log() + fold_log(
                answers_of(*old(processor)),
                *self.dom,
                *self.store,
                self.element as int,
                invalidation_items(*invalidations),
                invalidation_items(*invalidations).len() as int,
            ),
    {
        let mut invalidated = false;
        let mut i: usize = 0;
        proof {
            lemma_no_growth(processor.log());
            assert(old(processor).log() + Seq::<Notification>::empty() =~= old(processor).log());
        }
        while i < iv_len(invalidations)
            invariant
                self.wf(),
                i <= invalidation_items(*invalidations).len(),
                all_wf(*self.store, invalidation_items(*invalidations)),
                lists_wf(*self.store, *descendant_invalidations),
                all_wf(*self.store, invalidation_items(*sibling_invalidations)),
                lists_grow(
                    lists_view(*old(descendant_invalidations)),
                    lists_view(*descendant_invalidations),
                ),
                invalidation_items(*old(sibling_invalidations)).is_prefix_of(
                    invalidation_items(*sibling_invalidations),
                ),
                pending_count(
                    lists_view(*descendant_invalidations),
                    invalidation_items(*sibling_invalidations),
                ) <= pending_count(
                    lists_view(*old(descendant_invalidations)),
                    invalidation_items(*old(sibling_invalidations)),
                ) + 2 * i,
                i == 0 ==> !invalidated && lists_view(*descendant_invalidations) == lists_view(
                    *old(descendant_invalidations),
                ) && invalidation_items(*sibling_invalidations) == invalidation_items(
                    *old(sibling_invalidations),
                ) && *processor == *old(processor),
                same_answers(*processor, *old(processor)),
                quiet_growth(old(processor).log(), processor.log()),
                processor.log() == old(processor).log() + fold_log(
                    answers_of(*old(processor)),
                    *self.dom,
                    *self.store,
                    self.element as int,
                    invalidation_items(*invalidations),
                    i as int,
                ),
                (lists_view(*descendant_invalidations), invalidation_items(*sibling_invalidations))
                    == descendant_fold(
                    answers_of(*old(processor)),
                    *self.dom,
                    *self.store,
                    self.element as int,
                    descendant_invalidation_kind,
                    invalidation_items(*invalidations),
                    i as int,
                    lists_view(*old(descendant_invalidations)),
                    invalidation_items(*old(sibling_invalidations)),
                ),
                invalidated == exists|j: int|
                    0 <= j < i && (#[trigger] single_spec(
                        answers_of(*old(processor)),
                        *self.dom,
                        *self.store,
                        invalidation_items(*invalidations)[j],
                        self.element as int,
                    )).0,
            decreases invalidation_items(*invalidations).len() - i,
        {
            let invalidation = iv_get(invalidations, i);
            let ghost p_before = *processor;
            let ghost log_before = processor.log();
            let result = self.process_invalidation(
                processor,
                &invalidation,
                descendant_invalidations,
                sibling_invalidations,
                InvalidationKind::Descendant(descendant_invalidation_kind),
            );
            proof {
                let e = self.element as int;
                lemma_processing_is_deterministic(
                    p_before,
                    *old(processor),
                    *self.dom,
                    *self.store,
                    invalidation,
                    e,
                    InvalidationKind::Descendant(descendant_invalidation_kind),
                    lists_view(*old(descendant_invalidations)),
                    invalidation_items(*old(sibling_invalidations)),
                    log_before,
                );
                lemma_processing_is_deterministic(
                    p_before,
                    *old(processor),
                    *self.dom,
                    *self.store,
                    invalidation,
                    e,
                    InvalidationKind::Descendant(descendant_invalidation_kind),
                    descendant_fold(
                        answers_of(*old(processor)),
                        *self.dom,
                        *self.store,
                        e,
                        descendant_invalidation_kind,
                        invalidation_items(*invalidations),
                        i as int,
                        lists_view(*old(descendant_invalidations)),
                        invalidation_items(*old(sibling_invalidations)),
                    ).0,
                    descendant_fold(
                        answers_of(*old(processor)),
                        *self.dom,
                        *self.store,
                        e,
                        descendant_invalidation_kind,
                        invalidation_items(*invalidations),
                        i as int,
                        lists_view(*old(descendant_invalidations)),
                        invalidation_items(*old(sibling_invalidations)),
                    ).1,
                    log_before,
                );
                match outcome_spec(answers_of(p_before), *self.dom, *self.store, invalidation, e) {
                    MatchOutcome::Relative(k, n) => {
                        lemma_one_more(log_before, Notification::RelativeSelector(e as usize, k, n));
                    },
                    _ => {
                        lemma_no_growth(log_before);
                    },
                }
                lemma_growth_chain(old(processor).log(), log_before, processor.log());
                let invs = invalidation_items(*invalidations);
                lemma_log_after_append(
                    answers_of(*old(processor)),
                    *self.dom,
                    *self.store,
                    invalidation,
                    e,
                    old(processor).log(),
                    fold_log(answers_of(*old(processor)), *self.dom, *self.store, e, invs, i as int),
                );
                let sp = single_spec(answers_of(*old(processor)), *self.dom, *self.store, invs[i as int], e);
                assert(invs[i as int] == invalidation);
                if sp.0 {
                    assert(0 <= i < i + 1 && single_spec(answers_of(*old(processor)), *self.dom, *self.store, invs[i as int], e).0);
                }
            }
            invalidated = invalidated || result.invalidated_self;
            if invalidation.effective_for_next(self.store) {
                let mut forwarded = invalidation;
                forwarded.matched_by_any_previous = invalidation.matched_by_any_previous
                    || result.matched;
                let ghost before = lists_view(*descendant_invalidations);
                iv_push(&mut descendant_invalidations.dom_descendants, forwarded);
                proof {
                    let now = lists_view(*descendant_invalidations);
                    assert forall|k: int| 0 <= k < now.0.len() implies inv_wf(
                        *self.store,
                        #[trigger] now.0[k],
                    ) by {
                        if k < before.0.len() {
                            assert(now.0[k] == before.0[k]);
                        }
                    }
                }
            }
            i += 1;
        }
        proof {
            assert(invalidation_items(*invalidations).len() == i);
        }
        invalidated
    }

    /// Matches one invalidation against the element. Where it matches
    /// completely, the chain of outer dependencies is climbed; where it
    /// matches one compound, the invalidation for the next compound to the
    /// left is recorded in the list of its kind (or skipped, see
    /// `can_skip_pushing`).
    pub fn process_invalidation<P: InvalidationProcessor>(
        &self,
        processor: &mut P,
        invalidation: &Invalidation,
        descendant_invalidations: &mut DescendantInvalidationLists,
        sibling_invalidations: &mut InvalidationVector,
        invalidation_kind: InvalidationKind,
    ) -> (r: SingleInvalidationResult)
        requires
            self.wf(),
            inv_wf(*self.store, *invalidation),
            lists_wf(*self.store, *old(descendant_invalidations)),
            all_wf(*self.store, invalidation_items(*old(sibling_invalidations))),
        ensures
            lists_wf(*self.store, *final(descendant_invalidations)),
            all_wf(*self.store, invalidation_items(*final(sibling_invalidations))),
            lists_grow(
                lists_view(*old(descendant_invalidations)),
                lists_view(*final(descendant_invalidations)),
            ),
            invalidation_items(*old(sibling_invalidations)).is_prefix_of(
                invalidation_items(*final(sibling_invalidations)),
            ),
            !r.matched ==> !r.invalidated_self && lists_view(*final(descendant_invalidations))
                == lists_view(*old(descendant_invalidations)) && invalidation_items(
                *final(sibling_invalidations),
            ) == invalidation_items(*old(sibling_invalidations)),
            pending_count(
                lists_view(*final(descendant_invalidations)),
                invalidation_items(*final(sibling_invalidations)),
            ) <= pending_count(
                lists_view(*old(descendant_invalidations)),
                invalidation_items(*old(sibling_invalidations)),
            ) + 1,
            ({
                let res = single_spec(
                    answers_of(*old(processor)),
                    *self.dom,
                    *self.store,
                    *invalidation,
                    self.element as int,
                );
                r.invalidated_self == res.0 && r.matched == res.1
            }),
            (lists_view(*final(descendant_invalidations)), invalidation_items(
                *final(sibling_invalidations),
            )) == lists_after_spec(
                answers_of(*old(processor)),
                *self.dom,
                *self.store,
                *invalidation,
                self.element as int,
                invalidation_kind,
                lists_view(*old(descendant_invalidations)),
                invalidation_items(*old(sibling_invalidations)),
            ),
            final(processor).log() == log_after_spec(
                answers_of(*old(processor)),
                *self.dom,
                *self.store,
                *invalidation,
                self.element as int,
                old(processor).log(),
            ),
            same_answers(*final(processor), *old(processor)),
    {
        let ghost p0 = *processor;
        let ghost outer0 = processor.outer_answers();
        let dependency = &self.store.deps[invalidation.dependency];
        let matching_result = processor.match_compound(
            self.dom,
            &dependency.selector,
            invalidation.offset,
            invalidation.scope,
            self.element,
        );

        let next_invalidation = match matching_result {
            CompoundSelectorMatchingResult::NotMatched => {
                return SingleInvalidationResult { invalidated_self: false, matched: false };
            },
            CompoundSelectorMatchingResult::FullyMatched => {
                // Matched completely: climb to the outer dependencies.
                let mut cur = invalidation.dependency;
                loop
                    invariant_except_break
                        outcome_spec(answers_of(p0), *self.dom, *self.store, *invalidation, self.element as int)
                            == climb_spec(outer0, *self.store, cur as int, invalidation.scope, self.element as int),
                    invariant
                        self.wf(),
                        cur < self.store@.len(),
                        lists_view(*descendant_invalidations) == lists_view(
                            *old(descendant_invalidations),
                        ),
                        invalidation_items(*sibling_invalidations) == invalidation_items(
                            *old(sibling_invalidations),
                        ),
                        lists_wf(*self.store, *descendant_invalidations),
                        all_wf(*self.store, invalidation_items(*sibling_invalidations)),
                        same_answers(*processor, p0),
                        processor.log() == p0.log(),
                        outer0 == p0.outer_answers(),
                        p0 == *old(processor),
                        matching_result == CompoundSelectorMatchingResult::FullyMatched,
                    ensures
                        cur < self.store@.len(),
                        self.store@[cur as int].selector_offset > 0,
                        same_answers(*processor, p0),
                        processor.log() == p0.log(),
                        outcome_spec(answers_of(p0), *self.dom, *self.store, *invalidation, self.element as int)
                            == MatchOutcome::Next(new_invalidation_spec(*self.store, cur as int, invalidation.scope)),
                    decreases cur,
                {
                    proof {
                        assert(self.store.dep_wf_at(cur as int));
                    }
                    let next = match self.store.deps[cur].next {
                        None => {
                            return SingleInvalidationResult { invalidated_self: true, matched: true };
                        },
                        Some(n) => n,
                    };
                    proof {
                        assert(self.store.dep_wf_at(next as int));
                    }
                    match self.store.deps[next].invalidation_kind() {
                        DependencyInvalidationKind::Normal(_) => {},
                        DependencyInvalidationKind::Relative(kind) => {
                            processor.found_relative_selector_invalidation(self.element, kind, next);
                            return SingleInvalidationResult { invalidated_self: false, matched: true };
                        },
                    }
                    cur = next;
                    // The inner selector changed; check that the outer part
                    // still holds before going on.
                    if !processor.check_outer_dependency(&self.store.deps[cur], self.element) {
                        return SingleInvalidationResult { invalidated_self: false, matched: false };
                    }
                    if self.store.deps[cur].normal_invalidation_kind()
                        == NormalDependencyInvalidationKind::Element {
                        continue;
                    }
                    break;
                }
                Invalidation::new(self.store, cur, invalidation.scope)
            },
            CompoundSelectorMatchingResult::Matched { next_combinator_offset } => {
                proof {
                    lemma_compound_end(
                        selector_of(*self.store, *invalidation),
                        invalidation.offset as int,
                    );
                    assert(next_combinator_offset < dependency.selector@.len());
                    assert(dependency.selector@.len() == dependency.selector.components.len());
                }
                Invalidation {
                    dependency: invalidation.dependency,
                    scope: invalidation.scope,
                    offset: next_combinator_offset + 1,
                    matched_by_any_previous: false,
                }
            },
        };

        let ghost old_lists = lists_view(*descendant_invalidations);
        let ghost old_siblings = invalidation_items(*sibling_invalidations);
        let r = self.record_match(
            processor,
            invalidation,
            next_invalidation,
            invalidation_kind,
            descendant_invalidations,
            sibling_invalidations,
        );
        proof {
            lemma_push_grows_by_at_most_one(
                *self.store,
                next_invalidation,
                invalidation_kind,
                invalidation.matched_by_any_previous,
                old_lists,
                old_siblings,
            );
        }
        r
    }

    /// Finishes a match of `invalidation` that produced `next`: records
    /// `next` in the list of its kind (unless the push can be skipped), and
    /// invalidates the element when `next` continues through a
    /// pseudo-element combinator and the processor asks for that.
    fn record_match<P: InvalidationProcessor>(
        &self,
        processor: &P,
        invalidation: &Invalidation,
        next: Invalidation,
        invalidation_kind: InvalidationKind,
        descendant_invalidations: &mut DescendantInvalidationLists,
        sibling_invalidations: &mut InvalidationVector,
    ) -> (r: SingleInvalidationResult)
        requires
            self.wf(),
            inv_wf(*self.store, next),
            next.offset > 0,
            lists_wf(*self.store, *old(descendant_invalidations)),
            all_wf(*self.store, invalidation_items(*old(sibling_invalidations))),
        ensures
            r.matched,
            r.invalidated_self == (combinator_before(*self.store, next) == Combinator::PseudoElement
                && processor.pseudo_element_sensitive()),
            (lists_view(*final(descendant_invalidations)), invalidation_items(
                *final(sibling_invalidations),
            )) == push_spec(
                *self.store,
                next,
                invalidation_kind,
                invalidation.matched_by_any_previous,
                lists_view(*old(descendant_invalidations)),
                invalidation_items(*old(sibling_invalidations)),
            ),
            lists_wf(*self.store, *final(descendant_invalidations)),
            all_wf(*self.store, invalidation_items(*final(sibling_invalidations))),
            lists_grow(
                lists_view(*old(descendant_invalidations)),
                lists_view(*final(descendant_invalidations)),
            ),
            invalidation_items(*old(sibling_invalidations)).is_prefix_of(
                invalidation_items(*final(sibling_invalidations)),
            ),
    {
        let next_combinator = self.store.deps[next.dependency].selector.combinator_at_parse_order(
            next.offset - 1,
        );
        // The style of a pseudo-element is kept with the element that
        // originates it, so that element is restyled too.
        let invalidated_self = next_combinator == Combinator::PseudoElement
            && processor.invalidates_on_pseudo_element();

        let ghost old_lists = lists_view(*descendant_invalidations);
        let ghost old_siblings = invalidation_items(*sibling_invalidations);
        push_invalidation(
            self.store,
            next,
            invalidation_kind,
            invalidation.matched_by_any_previous,
            descendant_invalidations,
            sibling_invalidations,
        );
        proof {
            let now = lists_view(*descendant_invalidations);
            let sib = invalidation_items(*sibling_invalidations);
            assert forall|k: int| 0 <= k < now.0.len() implies inv_wf(*self.store, #[trigger] now.0[k]) by {
                if k < old_lists.0.len() {
                    assert(now.0[k] == old_lists.0[k]);
                }
            }
            assert forall|k: int| 0 <= k < now.1.len() implies inv_wf(*self.store, #[trigger] now.1[k]) by {
                if k < old_lists.1.len() {
                    assert(now.1[k] == old_lists.1[k]);
                }
            }
            assert forall|k: int| 0 <= k < now.2.len() implies inv_wf(*self.store, #[trigger] now.2[k]) by {
                if k < old_lists.2.len() {
                    assert(now.2[k] == old_lists.2[k]);
                }
            }
            assert forall|k: int| 0 <= k < sib.len() implies inv_wf(*self.store, #[trigger] sib[k]) by {
                if k < old_siblings.len() {
                    assert(sib[k] == old_siblings[k]);
                }
            }
        }
        SingleInvalidationResult { invalidated_self, matched: true }
    }
}

} // verus!
