use vstd::prelude::*;
use crate::selector::{
    compound_end, compound_holds, fits, holds, lemma_compound_end, selector_matches, NodeModel,
    Part,
};

verus! {

/// Elements with no combinator among them: a single compound.
pub open spec fn single_compound(parts: Seq<Part>) -> bool {
    parts.len() > 0 && forall|k: int| 0 <= k < parts.len() ==> !(#[trigger] parts[k] is Combinator)
}

/// Every predicate among the elements holds of the node.
pub open spec fn all_hold(parts: Seq<Part>, n: NodeModel) -> bool {
    forall|k: int| 0 <= k < parts.len() ==> holds(#[trigger] parts[k], n)
}

/// A compound with no combinator after it runs to the end of the elements.
proof fn lemma_single_compound_end(parts: Seq<Part>)
    requires
        single_compound(parts),
    ensures
        compound_end(parts, 0) == parts.len(),
{
    lemma_compound_end(parts, 0);
}

/// A selector of one compound matches a node exactly when every predicate of
/// the compound holds of that node; the node's ancestors play no part.
pub proof fn law_single_compound(parts: Seq<Part>, chain: Seq<NodeModel>)
    requires
        single_compound(parts),
        chain.len() > 0,
    ensures
        selector_matches(parts, chain) == all_hold(parts, chain[0]),
{
    lemma_single_compound_end(parts);
    assert(compound_holds(parts, 0, chain[0]) == all_hold(parts, chain[0]));
}

/// The predicates of one compound are a conjunction: two compounds made of
/// the same predicates, in whatever order and however often each is written,
/// match the same nodes.
pub proof fn law_compound_order(a: Seq<Part>, b: Seq<Part>, chain: Seq<NodeModel>)
    requires
        single_compound(a),
        single_compound(b),
        a.to_set() == b.to_set(),
        chain.len() > 0,
    ensures
        selector_matches(a, chain) == selector_matches(b, chain),
{
    law_single_compound(a, chain);
    law_single_compound(b, chain);
    let n = chain[0];
    if all_hold(a, n) {
        assert forall|k: int| 0 <= k < b.len() implies holds(#[trigger] b[k], n) by {
            assert(b.to_set().contains(b[k]));
            assert(a.to_set().contains(b[k]));
            let j = choose|j: int| 0 <= j < a.len() && a[j] == b[k];
            assert(holds(a[j], n));
        }
    }
    if all_hold(b, n) {
        assert forall|k: int| 0 <= k < a.len() implies holds(#[trigger] a[k], n) by {
            assert(a.to_set().contains(a[k]));
            assert(b.to_set().contains(a[k]));
            let j = choose|j: int| 0 <= j < b.len() && b[j] == a[k];
            assert(holds(b[j], n));
        }
    }
}

/// Elements of a selector `A B`, stored innermost first: the compound `B`, a
/// combinator, then the compound `A`.
pub open spec fn descendant_pair(inner: Seq<Part>, outer: Seq<Part>) -> Seq<Part> {
    inner + seq![Part::Combinator] + outer
}

/// Past the combinator, the outer compound matches some node of the chain.
proof fn lemma_after_combinator(inner: Seq<Part>, outer: Seq<Part>, chain: Seq<NodeModel>)
    requires
        single_compound(inner),
        single_compound(outer),
        chain.len() > 0,
    ensures
        fits(descendant_pair(inner, outer), inner.len() as int, chain) == exists|j: int|
            0 <= j < chain.len() && all_hold(outer, #[trigger] chain[j]),
    decreases chain.len(),
{
    let parts = descendant_pair(inner, outer);
    let m = inner.len() as int;
    lemma_compound_end(parts, m + 1);
    assert forall|k: int| m + 1 <= k < parts.len() implies !(#[trigger] parts[k] is Combinator) by {
        assert(parts[k] == outer[k - m - 1]);
    }
    assert(compound_end(parts, m + 1) == parts.len());
    assert(compound_holds(parts, m + 1, chain[0]) == all_hold(outer, chain[0])) by {
        if all_hold(outer, chain[0]) {
            assert forall|k: int| m + 1 <= k < parts.len() implies holds(
                #[trigger] parts[k],
                chain[0],
            ) by {
                assert(parts[k] == outer[k - m - 1]);
            }
        }
        if compound_holds(parts, m + 1, chain[0]) {
            assert forall|k: int| 0 <= k < outer.len() implies holds(#[trigger] outer[k], chain[0]) by {
                assert(parts[k + m + 1] == outer[k]);
            }
        }
    }
    assert(fits(parts, m + 1, chain) == all_hold(outer, chain[0]));
    if chain.len() > 1 {
        lemma_after_combinator(inner, outer, chain.skip(1));
        if exists|j: int| 0 <= j < chain.skip(1).len() && all_hold(outer, #[trigger] chain.skip(1)[j]) {
            let j = choose|j: int| 0 <= j < chain.skip(1).len() && all_hold(outer, #[trigger] chain.skip(1)[j]);
            assert(all_hold(outer, chain[j + 1]));
        }
        if exists|j: int| 0 <= j < chain.len() && all_hold(outer, #[trigger] chain[j]) {
            let j = choose|j: int| 0 <= j < chain.len() && all_hold(outer, #[trigger] chain[j]);
            if j > 0 {
                assert(chain.skip(1)[j - 1] == chain[j]);
            }
        }
    } else {
        if exists|j: int| 0 <= j < chain.len() && all_hold(outer, #[trigger] chain[j]) {
            let j = choose|j: int| 0 <= j < chain.len() && all_hold(outer, #[trigger] chain[j]);
            assert(j == 0);
        }
    }
}

/// The descendant combinator: `A B` matches a node exactly when every
/// predicate of `B` holds of the node and every predicate of `A` holds of some
/// strict ancestor of it, not necessarily its parent. So a chain with no
/// ancestor satisfying `A` above the node is never matched, whatever the
/// node's descendants or the order of tags elsewhere.
pub proof fn law_descendant(inner: Seq<Part>, outer: Seq<Part>, chain: Seq<NodeModel>)
    requires
        single_compound(inner),
        single_compound(outer),
        chain.len() > 0,
    ensures
        selector_matches(descendant_pair(inner, outer), chain) == (all_hold(inner, chain[0])
            && exists|j: int| 1 <= j < chain.len() && all_hold(outer, #[trigger] chain[j])),
{
    let parts = descendant_pair(inner, outer);
    let m = inner.len() as int;
    lemma_compound_end(parts, 0);
    assert(parts[m] is Combinator);
    assert forall|k: int| 0 <= k < m implies #[trigger] parts[k] == inner[k] by {}
    assert(compound_end(parts, 0) == m) by {
        if compound_end(parts, 0) < m {
            assert(parts[compound_end(parts, 0)] == inner[compound_end(parts, 0)]);
        }
    }
    assert(compound_holds(parts, 0, chain[0]) == all_hold(inner, chain[0])) by {
        if all_hold(inner, chain[0]) {
            assert forall|k: int| 0 <= k < m implies holds(#[trigger] parts[k], chain[0]) by {
                assert(parts[k] == inner[k]);
            }
        }
        if compound_holds(parts, 0, chain[0]) {
            assert forall|k: int| 0 <= k < m implies holds(#[trigger] inner[k], chain[0]) by {
                assert(parts[k] == inner[k]);
            }
        }
    }
    if chain.len() > 1 {
        lemma_after_combinator(inner, outer, chain.skip(1));
        if exists|j: int| 0 <= j < chain.skip(1).len() && all_hold(outer, #[trigger] chain.skip(1)[j]) {
            let j = choose|j: int| 0 <= j < chain.skip(1).len() && all_hold(outer, #[trigger] chain.skip(1)[j]);
            assert(all_hold(outer, chain[j + 1]));
        }
        if exists|j: int| 1 <= j < chain.len() && all_hold(outer, #[trigger] chain[j]) {
            let j = choose|j: int| 1 <= j < chain.len() && all_hold(outer, #[trigger] chain[j]);
            assert(chain.skip(1)[j - 1] == chain[j]);
        }
    }
}

} // verus!
