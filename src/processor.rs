//! A processor that starts a pass from lists of invalidations given up
//! front, matches selectors against the arena, and records every
//! notification, in order.

use crate::dom::Dom;
use crate::invalidation_vector::{invalidation_items, iv_push, InvalidationVector};
use crate::invalidator::{
    all_wf, inv_wf, lists_view, Collected, DescendantInvalidationLists, Invalidation,
    InvalidationProcessor, Notification, SiblingTraversalMap,
};
use crate::selector::{
    compound_match_spec, matches_compound_selector_from, Component,
    CompoundSelectorMatchingResult, Dependency, DependencyStore,
    RelativeDependencyInvalidationKind, Selector,
};
use vstd::prelude::*;

verus! {

/// A processor driven by fixed seed lists, recording what it is told.
pub struct RecordingProcessor {
    /// The element whose collection hands out the seeds; every other element
    /// collects nothing.
    pub seed_element: usize,
    /// Whether collection reports the seed element as invalidated already.
    pub seed_invalidated: bool,
    pub self_seeds: Vec<Invalidation>,
    pub descendant_seeds: Vec<Invalidation>,
    pub slotted_seeds: Vec<Invalidation>,
    pub part_seeds: Vec<Invalidation>,
    pub sibling_seeds: Vec<Invalidation>,
    pub pseudo_sensitive: bool,
    pub light_tree: bool,
    pub map: SiblingTraversalMap,
    /// Elements told `invalidated_self`, in order.
    pub invalidated: Vec<usize>,
    /// `(sibling, of)` pairs told `invalidated_sibling`.
    pub invalidated_siblings: Vec<(usize, usize)>,
    /// `(element, child)` pairs told `invalidated_descendants`.
    pub invalidated_descendants: Vec<(usize, usize)>,
    /// Elements where the depth limit stopped the walk.
    pub limit_exceeded_at: Vec<usize>,
    /// `(element, dependency)` pairs handed over as relative selectors.
    pub relative_found: Vec<(usize, usize)>,
    /// How many compound selectors were matched (saturating).
    pub match_calls: usize,
    /// Every notification, in order.
    pub log: Vec<Notification>,
}

/// The seeds of `seeds` that point into `store` properly.
pub open spec fn valid_seeds(store: DependencyStore, seeds: Seq<Invalidation>) -> Seq<Invalidation> {
    seeds.filter(|x: Invalidation| inv_wf(store, x))
}

impl RecordingProcessor {
    /// A processor with no seeds, default policy and nothing recorded.
    pub fn new(seed_element: usize) -> (r: Self)
        ensures
            r.seed_element == seed_element,
            !r.seed_invalidated,
            r.self_seeds@.len() == 0,
            r.descendant_seeds@.len() == 0,
            r.slotted_seeds@.len() == 0,
            r.part_seeds@.len() == 0,
            r.sibling_seeds@.len() == 0,
            !r.pseudo_sensitive,
            !r.light_tree,
            r.map.info.is_none(),
            r.invalidated@.len() == 0,
            r.invalidated_siblings@.len() == 0,
            r.invalidated_descendants@.len() == 0,
            r.limit_exceeded_at@.len() == 0,
            r.relative_found@.len() == 0,
            r.match_calls == 0,
            r.log@.len() == 0,
    {
        RecordingProcessor {
            seed_element,
            seed_invalidated: false,
            self_seeds: Vec::new(),
            descendant_seeds: Vec::new(),
            slotted_seeds: Vec::new(),
            part_seeds: Vec::new(),
            sibling_seeds: Vec::new(),
            pseudo_sensitive: false,
            light_tree: false,
            map: SiblingTraversalMap { info: None },
            invalidated: Vec::new(),
            invalidated_siblings: Vec::new(),
            invalidated_descendants: Vec::new(),
            limit_exceeded_at: Vec::new(),
            relative_found: Vec::new(),
            match_calls: 0,
            log: Vec::new(),
        }
    }
}

/// Appends to `out` the seeds that point into `store` properly; the others
/// are left out.
fn push_valid(store: &DependencyStore, seeds: &Vec<Invalidation>, out: &mut InvalidationVector)
    requires
        all_wf(*store, invalidation_items(*old(out))),
    ensures
        all_wf(*store, invalidation_items(*final(out))),
        invalidation_items(*final(out)) == invalidation_items(*old(out)) + valid_seeds(*store, seeds@),
{
    let mut i: usize = 0;
    while i < seeds.len()
        invariant
            i <= seeds@.len(),
            all_wf(*store, invalidation_items(*out)),
            invalidation_items(*out) == invalidation_items(*old(out)) + seeds@.subrange(
                0,
                i as int,
            ).filter(|x: Invalidation| inv_wf(*store, x)),
        decreases seeds@.len() - i,
    {
        let x = seeds[i];
        let ghost before = invalidation_items(*out);
        proof {
            assert(seeds@.subrange(0, i as int + 1).drop_last() == seeds@.subrange(0, i as int));
            reveal(Seq::filter);
        }
        if x.is_valid(store) {
            iv_push(out, x);
            proof {
                assert forall|k: int| 0 <= k < invalidation_items(*out).len() implies inv_wf(
                    *store,
                    #[trigger] invalidation_items(*out)[k],
                ) by {
                    if k < before.len() {
                        assert(invalidation_items(*out)[k] == before[k]);
                    }
                }
            }
        }
        i += 1;
    }
    assert(seeds@.subrange(0, seeds@.len() as int) == seeds@);
}

impl InvalidationProcessor for RecordingProcessor {
    open spec fn compound_answers(&self) -> spec_fn(Dom, Seq<Component>, int, Option<usize>, int) -> CompoundSelectorMatchingResult {
        |dom: Dom, s: Seq<Component>, from: int, scope: Option<usize>, e: int|
            compound_match_spec(s, from, dom, e)
    }

    open spec fn outer_answers(&self) -> spec_fn(Dependency, int) -> bool {
        |d: Dependency, e: int| true
    }

    open spec fn descend_answers(&self) -> spec_fn(int) -> bool {
        |e: int| true
    }

    open spec fn collect_answers(&self) -> spec_fn(DependencyStore, int) -> Collected {
        |store: DependencyStore, e: int|
            if e == self.seed_element {
                (
                    self.seed_invalidated,
                    valid_seeds(store, self.self_seeds@),
                    valid_seeds(store, self.descendant_seeds@),
                    valid_seeds(store, self.slotted_seeds@),
                    valid_seeds(store, self.part_seeds@),
                    valid_seeds(store, self.sibling_seeds@),
                )
            } else {
                (
                    false,
                    Seq::<Invalidation>::empty(),
                    Seq::<Invalidation>::empty(),
                    Seq::<Invalidation>::empty(),
                    Seq::<Invalidation>::empty(),
                    Seq::<Invalidation>::empty(),
                )
            }
    }

    open spec fn pseudo_element_sensitive(&self) -> bool {
        self.pseudo_sensitive
    }

    open spec fn light_tree(&self) -> bool {
        self.light_tree
    }

    open spec fn traversal_map(&self) -> SiblingTraversalMap {
        self.map
    }

    open spec fn log(&self) -> Seq<Notification> {
        self.log@
    }

    fn invalidates_on_pseudo_element(&self) -> (r: bool) {
        self.pseudo_sensitive
    }

    fn light_tree_only(&self) -> (r: bool) {
        self.light_tree
    }

    fn check_outer_dependency(&mut self, _dependency: &Dependency, _element: usize) -> (r: bool) {
        // Over-optimistic: the outer part is taken to hold.
        true
    }

    fn match_compound(
        &mut self,
        dom: &Dom,
        selector: &Selector,
        offset: usize,
        _scope: Option<usize>,
        element: usize,
    ) -> (r: CompoundSelectorMatchingResult) {
        if self.match_calls < usize::MAX {
            self.match_calls = self.match_calls + 1;
        }
        matches_compound_selector_from(selector, offset, dom, element)
    }

    fn sibling_traversal_map(&self) -> (r: &SiblingTraversalMap) {
        &self.map
    }

    fn collect_invalidations(
        &mut self,
        store: &DependencyStore,
        element: usize,
        self_invalidations: &mut InvalidationVector,
        descendant_invalidations: &mut DescendantInvalidationLists,
        sibling_invalidations: &mut InvalidationVector,
    ) -> (r: bool) {
        // Callers hand in empty lists; anything already there is dropped.
        *self_invalidations = crate::invalidation_vector::iv_new();
        *descendant_invalidations = DescendantInvalidationLists::new();
        *sibling_invalidations = crate::invalidation_vector::iv_new();
        proof {
            let e = Seq::<Invalidation>::empty();
            assert(e + valid_seeds(*store, self.self_seeds@) =~= valid_seeds(*store, self.self_seeds@));
            assert(e + valid_seeds(*store, self.descendant_seeds@) =~= valid_seeds(*store, self.descendant_seeds@));
            assert(e + valid_seeds(*store, self.slotted_seeds@) =~= valid_seeds(*store, self.slotted_seeds@));
            assert(e + valid_seeds(*store, self.part_seeds@) =~= valid_seeds(*store, self.part_seeds@));
            assert(e + valid_seeds(*store, self.sibling_seeds@) =~= valid_seeds(*store, self.sibling_seeds@));
        }
        if element != self.seed_element {
            return false;
        }
        push_valid(store, &self.self_seeds, self_invalidations);
        push_valid(store, &self.descendant_seeds, &mut descendant_invalidations.dom_descendants);
        push_valid(
            store,
            &self.slotted_seeds,
            &mut descendant_invalidations.slotted_descendants,
        );
        push_valid(store, &self.part_seeds, &mut descendant_invalidations.parts);
        push_valid(store, &self.sibling_seeds, sibling_invalidations);
        self.seed_invalidated
    }

    fn should_process_descendants(&mut self, _element: usize) -> (r: bool) {
        true
    }

    fn recursion_limit_exceeded(&mut self, element: usize) {
        self.limit_exceeded_at.push(element);
        self.log.push(Notification::RecursionLimitExceeded(element));
    }

    fn invalidated_self(&mut self, element: usize) {
        self.invalidated.push(element);
        self.log.push(Notification::InvalidatedSelf(element));
    }

    fn invalidated_sibling(&mut self, sibling: usize, of: usize) {
        self.invalidated_siblings.push((sibling, of));
        self.log.push(Notification::InvalidatedSibling(sibling, of));
    }

    fn invalidated_descendants(&mut self, element: usize, child: usize) {
        self.invalidated_descendants.push((element, child));
        self.log.push(Notification::InvalidatedDescendants(element, child));
    }

    fn found_relative_selector_invalidation(
        &mut self,
        element: usize,
        kind: RelativeDependencyInvalidationKind,
        dependency: usize,
    ) {
        self.relative_found.push((element, dependency));
        self.log.push(Notification::RelativeSelector(element, kind, dependency));
    }
}

} // verus!
