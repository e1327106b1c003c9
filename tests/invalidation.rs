use style_invalidation::dom::Dom;
use style_invalidation::invalidator::{
    DescendantInvalidationKind, Invalidation, InvalidationKind, InvalidationResult, Notification,
    SiblingTraversalMap, StackLimitChecker, TreeStyleInvalidator,
};
use style_invalidation::processor::RecordingProcessor;
use style_invalidation::selector::{
    matches_compound_selector_from, Combinator, Component, CompoundSelectorMatchingResult,
    Dependency, DependencyStore, NormalDependencyInvalidationKind,
    RelativeDependencyInvalidationKind, Selector,
};

const A: u32 = 1;
const B: u32 = 2;
const X: u32 = 3;
const HOST: u32 = 4;
const FOO: u32 = 5;
const BAR: u32 = 6;
const BEFORE: u32 = 7;
const DIV: u32 = 8;
const SLOTTED: u32 = 9;

fn sel(components: Vec<Component>) -> Selector {
    Selector { components }
}

fn dep(components: Vec<Component>, selector_offset: usize) -> Dependency {
    Dependency { selector: sel(components), selector_offset, next: None, relative_kind: None }
}

fn store_with(d: Dependency) -> DependencyStore {
    let mut store = DependencyStore::new();
    assert_eq!(store.push(d), Some(0));
    store
}

fn comb(c: Combinator) -> Component {
    Component::Combinator(c)
}

/// `.a .b` on `<div class=a><div class=b/></div>`, `.a` toggled on the parent.
#[test]
fn descendant_combinator_invalidates_child() {
    let mut dom = Dom::new();
    let parent = dom.create_element(None);
    let child = dom.create_element(Some(parent));
    dom.add_class(parent, A);
    dom.add_class(child, B);
    let store = store_with(dep(
        vec![Component::Class(A), comb(Combinator::Descendant), Component::Class(B)],
        2,
    ));
    let inv = Invalidation::new(&store, 0, None);
    assert_eq!(inv.offset, 2);

    let mut p = RecordingProcessor::new(parent);
    p.descendant_seeds.push(inv);
    let result = TreeStyleInvalidator::new(&dom, &store, parent, None).invalidate(&mut p);

    assert!(result.has_invalidated_descendants());
    assert!(!result.has_invalidated_self());
    assert!(!result.has_invalidated_siblings());
    assert_eq!(p.invalidated, vec![child]);
    assert_eq!(p.invalidated_descendants, vec![(parent, child)]);
}

/// `.a + .b` on siblings `[x(.a), y(.b), z(.b)]`, `.a` toggled on `x`.
#[test]
fn next_sibling_invalidation_is_consumed_by_one_sibling() {
    let mut dom = Dom::new();
    let parent = dom.create_element(None);
    let x = dom.create_element(Some(parent));
    let y = dom.create_element(Some(parent));
    let z = dom.create_element(Some(parent));
    dom.add_class(x, A);
    dom.add_class(y, B);
    dom.add_class(z, B);
    let store = store_with(dep(
        vec![Component::Class(A), comb(Combinator::NextSibling), Component::Class(B)],
        2,
    ));
    let inv = Invalidation::new(&store, 0, None);
    assert!(!inv.effective_for_next(&store));
    assert_eq!(inv.kind(&store), InvalidationKind::Sibling);

    let mut p = RecordingProcessor::new(x);
    p.sibling_seeds.push(inv);
    let result = TreeStyleInvalidator::new(&dom, &store, x, None).invalidate(&mut p);

    assert!(result.has_invalidated_siblings());
    assert_eq!(p.invalidated_siblings, vec![(y, x)]);
    assert!(p.invalidated.is_empty());
    assert!(!p.invalidated_siblings.iter().any(|&(s, _)| s == z));
}

/// `.a ~ .b` keeps applying to every later sibling.
#[test]
fn later_sibling_combinator_reaches_every_later_sibling() {
    let mut dom = Dom::new();
    let parent = dom.create_element(None);
    let x = dom.create_element(Some(parent));
    let y = dom.create_element(Some(parent));
    let z = dom.create_element(Some(parent));
    dom.add_class(x, A);
    dom.add_class(y, B);
    dom.add_class(z, B);
    let store = store_with(dep(
        vec![Component::Class(A), comb(Combinator::LaterSibling), Component::Class(B)],
        2,
    ));
    let mut p = RecordingProcessor::new(x);
    p.sibling_seeds.push(Invalidation::new(&store, 0, None));
    let result = TreeStyleInvalidator::new(&dom, &store, x, None).invalidate(&mut p);
    assert!(result.has_invalidated_siblings());
    assert_eq!(p.invalidated_siblings, vec![(y, x), (z, x)]);
}

/// `.host::part(foo)`: only `part="foo"` elements of the shadow trees are
/// reached, through nested trees that export parts, never light siblings.
#[test]
fn part_invalidation_stays_in_shadow_trees() {
    let mut dom = Dom::new();
    let root = dom.create_element(None);
    let host = dom.create_element(Some(root));
    let light = dom.create_element(Some(root));
    dom.add_class(host, HOST);
    dom.add_part(light, FOO);
    let shadow = dom.attach_shadow(host);
    let e1 = dom.create_element(Some(shadow));
    let e2 = dom.create_element(Some(shadow));
    let inner = dom.create_element(Some(shadow));
    dom.add_part(e1, FOO);
    dom.add_part(e2, BAR);
    dom.set_exports_parts(inner);
    let inner_shadow = dom.attach_shadow(inner);
    let e3 = dom.create_element(Some(inner_shadow));
    dom.add_part(e3, FOO);

    let store = store_with(dep(
        vec![Component::Class(HOST), comb(Combinator::Part), Component::Part(FOO)],
        2,
    ));
    let inv = Invalidation::new(&store, 0, None);
    assert_eq!(inv.kind(&store), InvalidationKind::Descendant(DescendantInvalidationKind::Part));

    let mut p = RecordingProcessor::new(host);
    p.part_seeds.push(inv);
    let result = TreeStyleInvalidator::new(&dom, &store, host, None).invalidate(&mut p);

    assert!(result.has_invalidated_descendants());
    assert_eq!(p.invalidated, vec![e1, e3]);
    assert!(!p.invalidated.contains(&light));
    assert!(!p.invalidated.contains(&e2));
}

/// The depth limit trips at depth 3 of a 10-deep chain.
#[test]
fn recursion_limit_stops_descent() {
    let mut dom = Dom::new();
    let mut chain = vec![dom.create_element(None)];
    for i in 1..10 {
        let e = dom.create_element(Some(chain[i - 1]));
        chain.push(e);
    }
    dom.add_class(chain[0], A);
    let store = store_with(dep(
        vec![Component::Class(A), comb(Combinator::Descendant), Component::Universal],
        2,
    ));
    let mut p = RecordingProcessor::new(chain[0]);
    p.descendant_seeds.push(Invalidation::new(&store, 0, None));
    let checker = StackLimitChecker::new(3);
    let result = TreeStyleInvalidator::new(&dom, &store, chain[0], Some(checker)).invalidate(&mut p);

    assert!(result.has_invalidated_descendants());
    assert_eq!(p.limit_exceeded_at, vec![chain[3]]);
    assert_eq!(p.invalidated, vec![chain[1], chain[2], chain[3]]);
}

/// Without a limit the same walk reaches the whole chain.
#[test]
fn descendant_combinator_reaches_whole_chain_without_limit() {
    let mut dom = Dom::new();
    let mut chain = vec![dom.create_element(None)];
    for i in 1..10 {
        let e = dom.create_element(Some(chain[i - 1]));
        chain.push(e);
    }
    dom.add_class(chain[0], A);
    let store = store_with(dep(
        vec![Component::Class(A), comb(Combinator::Descendant), Component::Universal],
        2,
    ));
    let mut p = RecordingProcessor::new(chain[0]);
    p.descendant_seeds.push(Invalidation::new(&store, 0, None));
    let result = TreeStyleInvalidator::new(&dom, &store, chain[0], None).invalidate(&mut p);
    assert!(result.has_invalidated_descendants());
    assert!(p.limit_exceeded_at.is_empty());
    assert_eq!(p.invalidated, chain[1..].to_vec());
}

/// `div div div div div div` down a chain of six divs: the pending lists
/// stay small, so the matching work stays quadratic in the depth.
#[test]
fn repeated_compound_does_not_explode() {
    let n: usize = 6;
    let mut dom = Dom::new();
    let mut chain = vec![dom.create_element(None)];
    for i in 1..n {
        let e = dom.create_element(Some(chain[i - 1]));
        chain.push(e);
    }
    for &e in &chain {
        dom.add_class(e, DIV);
    }
    let mut components = vec![Component::Class(DIV)];
    for _ in 1..n {
        components.push(comb(Combinator::Descendant));
        components.push(Component::Class(DIV));
    }
    let len = components.len();
    // The left-most compound changed: matching goes on at the second one.
    let store = store_with(dep(components, len - 1));
    let inv = Invalidation::new(&store, 0, None);
    assert_eq!(inv.offset, 2);
    let mut p = RecordingProcessor::new(chain[0]);
    p.descendant_seeds.push(inv);
    let result = TreeStyleInvalidator::new(&dom, &store, chain[0], None).invalidate(&mut p);
    assert!(result.has_invalidated_descendants());
    assert_eq!(p.invalidated, vec![chain[n - 1]]);
    assert!(p.match_calls <= n * n, "{} matches", p.match_calls);
}

/// `.a > .b` reaches the child, not the grandchild.
#[test]
fn child_combinator_does_not_reach_grandchild() {
    let mut dom = Dom::new();
    let a = dom.create_element(None);
    let b1 = dom.create_element(Some(a));
    let b2 = dom.create_element(Some(b1));
    dom.add_class(a, A);
    dom.add_class(b1, B);
    dom.add_class(b2, B);
    let store = store_with(dep(
        vec![Component::Class(A), comb(Combinator::Child), Component::Class(B)],
        2,
    ));
    let inv = Invalidation::new(&store, 0, None);
    assert!(!inv.effective_for_next(&store));
    assert_eq!(inv.kind(&store), InvalidationKind::Descendant(DescendantInvalidationKind::Dom));
    let mut p = RecordingProcessor::new(a);
    p.descendant_seeds.push(inv);
    TreeStyleInvalidator::new(&dom, &store, a, None).invalidate(&mut p);
    assert_eq!(p.invalidated, vec![b1]);
}

/// With no sibling invalidations, no sibling is visited.
#[test]
fn empty_sibling_list_visits_nothing() {
    let mut dom = Dom::new();
    let parent = dom.create_element(None);
    let x = dom.create_element(Some(parent));
    let _y = dom.create_element(Some(parent));
    let store = DependencyStore::new();
    let mut p = RecordingProcessor::new(x);
    let invalidator = TreeStyleInvalidator::new(&dom, &store, x, None);
    let mut siblings = style_invalidation::invalidation_vector::InvalidationVector::new();
    assert!(!invalidator.invalidate_siblings(&mut p, &mut siblings));
    assert_eq!(p.match_calls, 0);
    assert!(p.invalidated.is_empty());
    assert!(p.invalidated_siblings.is_empty());
}

fn pseudo_setup(sensitive: bool) -> (Vec<usize>, Vec<usize>) {
    let mut dom = Dom::new();
    let root = dom.create_element(None);
    let child = dom.create_element(Some(root));
    dom.add_class(root, X);
    dom.add_class(child, A);
    let before = dom.add_anonymous_content(child, Some(BEFORE));
    // `.x .a::before`, `.x` toggled on the root.
    let store = store_with(dep(
        vec![
            Component::Class(X),
            comb(Combinator::Descendant),
            Component::Class(A),
            comb(Combinator::PseudoElement),
            Component::PseudoElement(BEFORE),
        ],
        4,
    ));
    let mut p = RecordingProcessor::new(root);
    p.pseudo_sensitive = sensitive;
    p.descendant_seeds.push(Invalidation::new(&store, 0, None));
    TreeStyleInvalidator::new(&dom, &store, root, None).invalidate(&mut p);
    (p.invalidated, vec![child, before])
}

/// A pseudo-element invalidation also invalidates its originating element
/// when the processor asks for it.
#[test]
fn pseudo_element_invalidates_originating_element_when_asked() {
    let (invalidated, ids) = pseudo_setup(true);
    assert!(invalidated.contains(&ids[0]));
    assert!(invalidated.contains(&ids[1]));
}

#[test]
fn pseudo_element_alone_when_not_asked() {
    let (invalidated, ids) = pseudo_setup(false);
    assert!(!invalidated.contains(&ids[0]));
    assert_eq!(invalidated, vec![ids[1]]);
}

/// `::slotted(.s)` reaches the element assigned to the slot.
#[test]
fn slotted_invalidation_reaches_assigned_elements() {
    let mut dom = Dom::new();
    let host = dom.create_element(None);
    let shadow = dom.attach_shadow(host);
    let slot = dom.create_element(Some(shadow));
    dom.set_slot(slot);
    dom.add_class(slot, A);
    let light = dom.create_element(Some(host));
    let other = dom.create_element(Some(host));
    dom.add_class(light, SLOTTED);
    dom.add_class(other, SLOTTED);
    assert!(dom.assign_to_slot(slot, light));
    assert!(!dom.assign_to_slot(light, slot));
    let store = store_with(dep(
        vec![Component::Class(A), comb(Combinator::SlotAssignment), Component::Class(SLOTTED)],
        2,
    ));
    let inv = Invalidation::new(&store, 0, None);
    assert_eq!(
        inv.kind(&store),
        InvalidationKind::Descendant(DescendantInvalidationKind::Slotted)
    );
    let mut p = RecordingProcessor::new(slot);
    p.slotted_seeds.push(inv);
    let result = TreeStyleInvalidator::new(&dom, &store, slot, None).invalidate(&mut p);
    assert!(result.has_invalidated_descendants());
    assert_eq!(p.invalidated, vec![light]);
}

/// Light-tree-only processors skip the shadow tree's children.
#[test]
fn light_tree_only_skips_shadow_children() {
    let mut dom = Dom::new();
    let host = dom.create_element(None);
    let shadow = dom.attach_shadow(host);
    let in_shadow = dom.create_element(Some(shadow));
    let light = dom.create_element(Some(host));
    dom.add_class(host, A);
    let store = store_with(dep(
        vec![Component::Class(A), comb(Combinator::Descendant), Component::Universal],
        2,
    ));
    let mut p = RecordingProcessor::new(host);
    p.descendant_seeds.push(Invalidation::new(&store, 0, None));
    TreeStyleInvalidator::new(&dom, &store, host, None).invalidate(&mut p);
    assert_eq!(p.invalidated, vec![in_shadow, light]);

    let mut q = RecordingProcessor::new(host);
    q.light_tree = true;
    q.descendant_seeds.push(Invalidation::new(&store, 0, None));
    TreeStyleInvalidator::new(&dom, &store, host, None).invalidate(&mut q);
    assert_eq!(q.invalidated, vec![light]);
}

/// A complete match whose outer dependency is relative is handed over.
#[test]
fn relative_dependency_is_handed_over() {
    let mut dom = Dom::new();
    let e = dom.create_element(None);
    dom.add_class(e, A);
    let mut store = DependencyStore::new();
    let outer = Dependency {
        selector: sel(vec![Component::Class(B)]),
        selector_offset: 0,
        next: None,
        relative_kind: Some(RelativeDependencyInvalidationKind::Ancestor),
    };
    assert_eq!(store.push(outer), Some(0));
    let inner = Dependency {
        selector: sel(vec![Component::Class(A)]),
        selector_offset: 0,
        next: Some(0),
        relative_kind: None,
    };
    assert_eq!(store.push(inner), Some(1));
    let mut p = RecordingProcessor::new(e);
    p.self_seeds.push(Invalidation { dependency: 1, scope: None, offset: 0, matched_by_any_previous: false });
    let result = TreeStyleInvalidator::new(&dom, &store, e, None).invalidate(&mut p);
    assert!(!result.has_invalidated_self());
    assert_eq!(p.relative_found, vec![(e, 0)]);
    assert!(p.invalidated.is_empty());
}

/// A complete match of an inner selector goes on with the outer one.
#[test]
fn outer_dependency_produces_new_invalidation() {
    let mut dom = Dom::new();
    let e = dom.create_element(None);
    let c = dom.create_element(Some(e));
    dom.add_class(e, A);
    dom.add_class(c, B);
    let mut store = DependencyStore::new();
    // Outer: `.a .b`, continuing at `.b`.
    assert_eq!(
        store.push(dep(
            vec![Component::Class(A), comb(Combinator::Descendant), Component::Class(B)],
            2
        )),
        Some(0)
    );
    // Inner: `.a` alone, inside the outer selector.
    let inner = Dependency {
        selector: sel(vec![Component::Class(A)]),
        selector_offset: 0,
        next: Some(0),
        relative_kind: None,
    };
    assert_eq!(store.push(inner), Some(1));
    let mut p = RecordingProcessor::new(e);
    p.self_seeds.push(Invalidation { dependency: 1, scope: None, offset: 0, matched_by_any_previous: false });
    let result = TreeStyleInvalidator::new(&dom, &store, e, None).invalidate(&mut p);
    assert!(!result.has_invalidated_self());
    assert!(result.has_invalidated_descendants());
    assert_eq!(p.invalidated, vec![c]);
}

/// A self-invalidation from collection is not reported again.
#[test]
fn collected_self_invalidation_is_not_reported_twice() {
    let mut dom = Dom::new();
    let e = dom.create_element(None);
    let store = DependencyStore::new();
    let mut p = RecordingProcessor::new(e);
    p.seed_invalidated = true;
    let result = TreeStyleInvalidator::new(&dom, &store, e, None).invalidate(&mut p);
    assert!(result.has_invalidated_self());
    assert!(p.invalidated.is_empty());
}

#[test]
fn invalid_seeds_are_dropped() {
    let mut dom = Dom::new();
    let e = dom.create_element(None);
    let c = dom.create_element(Some(e));
    let store = store_with(dep(
        vec![Component::Class(A), comb(Combinator::Descendant), Component::Universal],
        2,
    ));
    let bad = Invalidation { dependency: 5, scope: None, offset: 0, matched_by_any_previous: false };
    assert!(!bad.is_valid(&store));
    let off = Invalidation { dependency: 0, scope: None, offset: 1, matched_by_any_previous: false };
    assert!(!off.is_valid(&store));
    let mut p = RecordingProcessor::new(e);
    p.descendant_seeds.push(bad);
    p.descendant_seeds.push(off);
    let result = TreeStyleInvalidator::new(&dom, &store, e, None).invalidate(&mut p);
    assert!(!result.has_invalidated_descendants());
    assert!(!p.invalidated.contains(&c));
}

#[test]
fn sibling_map_overrides_only_the_affected_element() {
    let mut dom = Dom::new();
    let parent = dom.create_element(None);
    let a = dom.create_element(Some(parent));
    let b = dom.create_element(Some(parent));
    let c = dom.create_element(Some(parent));
    let map = SiblingTraversalMap::new(b, Some(parent), Some(parent));
    assert_eq!(map.next_sibling_for(&dom, b), Some(parent));
    assert_eq!(map.prev_sibling_for(&dom, b), Some(parent));
    assert_eq!(map.next_sibling_for(&dom, a), Some(b));
    assert_eq!(map.prev_sibling_for(&dom, c), Some(b));
    let plain = SiblingTraversalMap::default();
    assert_eq!(plain.next_sibling_for(&dom, b), Some(c));
    assert_eq!(plain.prev_sibling_for(&dom, b), Some(a));
    assert_eq!(plain.next_sibling_for(&dom, c), None);
}

/// A removed element's old next sibling is found through the map.
#[test]
fn sibling_walk_uses_the_map() {
    let mut dom = Dom::new();
    let parent = dom.create_element(None);
    let removed = dom.create_element(None);
    let after = dom.create_element(Some(parent));
    dom.add_class(removed, A);
    dom.add_class(after, B);
    let store = store_with(dep(
        vec![Component::Class(A), comb(Combinator::LaterSibling), Component::Class(B)],
        2,
    ));
    let mut p = RecordingProcessor::new(removed);
    p.map = SiblingTraversalMap::new(removed, None, Some(after));
    p.sibling_seeds.push(Invalidation::new(&store, 0, None));
    let result = TreeStyleInvalidator::new(&dom, &store, removed, None).invalidate(&mut p);
    assert!(result.has_invalidated_siblings());
    assert_eq!(p.invalidated_siblings, vec![(after, removed)]);
}

#[test]
fn invalidation_result_empty() {
    let r = InvalidationResult::empty();
    assert!(!r.has_invalidated_self());
    assert!(!r.has_invalidated_descendants());
    assert!(!r.has_invalidated_siblings());
}

#[test]
fn stack_limit_checker_trips_at_its_depth() {
    let c = StackLimitChecker::new(3);
    assert!(!c.limit_exceeded(2));
    assert!(c.limit_exceeded(3));
    assert!(c.limit_exceeded(4));
}

#[test]
fn compound_matching_results() {
    let mut dom = Dom::new();
    let e = dom.create_element(None);
    dom.add_class(e, A);
    dom.add_class(e, B);
    let s = sel(vec![
        Component::Class(X),
        comb(Combinator::Child),
        Component::Class(A),
        Component::Class(B),
    ]);
    assert_eq!(
        matches_compound_selector_from(&s, 2, &dom, e),
        CompoundSelectorMatchingResult::FullyMatched
    );
    assert_eq!(
        matches_compound_selector_from(&s, 0, &dom, e),
        CompoundSelectorMatchingResult::NotMatched
    );
    dom.add_class(e, X);
    assert_eq!(
        matches_compound_selector_from(&s, 0, &dom, e),
        CompoundSelectorMatchingResult::Matched { next_combinator_offset: 1 }
    );
    assert_eq!(s.combinator_at_parse_order(1), Combinator::Child);
}

#[test]
fn dependency_kinds() {
    let d = dep(vec![Component::Class(A), comb(Combinator::Child), Component::Class(B)], 2);
    assert_eq!(d.normal_invalidation_kind(), NormalDependencyInvalidationKind::Descendants);
    let s = dep(vec![Component::Class(A), comb(Combinator::NextSibling), Component::Class(B)], 2);
    assert_eq!(s.normal_invalidation_kind(), NormalDependencyInvalidationKind::Siblings);
    let p = dep(vec![Component::Class(A), comb(Combinator::PseudoElement), Component::PseudoElement(BEFORE)], 2);
    assert_eq!(p.normal_invalidation_kind(), NormalDependencyInvalidationKind::ElementAndDescendants);
    let e = dep(vec![Component::Class(A)], 0);
    assert_eq!(e.normal_invalidation_kind(), NormalDependencyInvalidationKind::Element);
}

#[test]
fn store_refuses_malformed_dependencies() {
    let mut store = DependencyStore::new();
    // Offset past the selector.
    assert_eq!(store.push(dep(vec![Component::Class(A)], 2)), None);
    // Offset not just left of a combinator.
    assert_eq!(store.push(dep(vec![Component::Class(A), comb(Combinator::Child), Component::Class(B)], 1)), None);
    // `next` naming a dependency not in the store.
    let d = Dependency { selector: sel(vec![Component::Class(A)]), selector_offset: 0, next: Some(0), relative_kind: None };
    assert_eq!(store.push(d), None);
    assert_eq!(store.len(), 0);
    assert_eq!(store.push(dep(vec![Component::Class(A)], 0)), Some(0));
    assert_eq!(store.len(), 1);
}

#[test]
fn invalidation_new_offset() {
    let store = store_with(dep(
        vec![
            Component::Class(A),
            comb(Combinator::Descendant),
            Component::Class(B),
            comb(Combinator::Child),
            Component::Class(X),
        ],
        4,
    ));
    let inv = Invalidation::new(&store, 0, Some(3));
    assert_eq!(inv.offset, 2);
    assert_eq!(inv.scope, Some(3));
    assert!(!inv.matched_by_any_previous);
    assert!(inv.effective_for_next(&store));
}

/// Two runs on the same inputs record the same things.
#[test]
fn processing_twice_gives_the_same_result() {
    let mut dom = Dom::new();
    let root = dom.create_element(None);
    let a = dom.create_element(Some(root));
    let b = dom.create_element(Some(a));
    let c = dom.create_element(Some(root));
    dom.add_class(root, X);
    dom.add_class(a, A);
    dom.add_class(b, B);
    dom.add_class(c, B);
    let store = store_with(dep(
        vec![
            Component::Class(X),
            comb(Combinator::Descendant),
            Component::Class(A),
            comb(Combinator::Child),
            Component::Class(B),
        ],
        4,
    ));
    let run = || {
        let mut p = RecordingProcessor::new(root);
        p.descendant_seeds.push(Invalidation::new(&store, 0, None));
        let r = TreeStyleInvalidator::new(&dom, &store, root, None).invalidate(&mut p);
        (
            r.has_invalidated_self(),
            r.has_invalidated_descendants(),
            p.invalidated,
            p.invalidated_descendants,
            p.match_calls,
        )
    };
    let first = run();
    let second = run();
    assert_eq!(first, second);
    assert_eq!(first.2, vec![b]);
}

#[test]
fn invalidation_vector_push_and_get() {
    let store = store_with(dep(
        vec![Component::Class(A), comb(Combinator::Descendant), Component::Class(B)],
        2,
    ));
    let inv = Invalidation::new(&store, 0, None);
    let mut v = style_invalidation::invalidation_vector::InvalidationVector::new();
    assert_eq!(v.len(), 0);
    v.push(inv);
    let other = Invalidation { dependency: 0, scope: Some(1), offset: 0, matched_by_any_previous: true };
    v.push(other);
    assert_eq!(v.len(), 2);
    assert_eq!(v.get(0), inv);
    assert_eq!(v.get(1), other);
}

/// The notifications of a pass come in order: the child, then its parent
/// told of it.
#[test]
fn notification_log_records_the_pass_in_order() {
    let mut dom = Dom::new();
    let parent = dom.create_element(None);
    let child = dom.create_element(Some(parent));
    let grandchild = dom.create_element(Some(child));
    dom.add_class(parent, A);
    dom.add_class(child, B);
    dom.add_class(grandchild, B);
    let store = store_with(dep(
        vec![Component::Class(A), comb(Combinator::Descendant), Component::Class(B)],
        2,
    ));
    let mut p = RecordingProcessor::new(parent);
    p.descendant_seeds.push(Invalidation::new(&store, 0, None));
    let result = TreeStyleInvalidator::new(&dom, &store, parent, None).invalidate(&mut p);
    assert!(result.has_invalidated_descendants());
    assert_eq!(
        p.log,
        vec![
            Notification::InvalidatedSelf(child),
            Notification::InvalidatedSelf(grandchild),
            Notification::InvalidatedDescendants(child, grandchild),
            Notification::InvalidatedDescendants(parent, child),
        ]
    );
}
