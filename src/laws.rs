use vstd::prelude::*;

use crate::element::{
    color_of, first_of_kind, is_ancestor, lemma_first_of_kind_is, nearest_run_property, node_wf, nodes_wf,
    opt_view, Element, ElementTree,
};
use crate::kind::Kind;

verus! {

/// How many ancestors the element at index `i` has.
pub open spec fn level(nodes: Seq<Element>, i: int) -> nat
    decreases i,
{
    if i < 0 || i >= nodes.len() {
        0
    } else {
        match nodes[i].parent {
            Some(p) => if p < i {
                level(nodes, p as int) + 1
            } else {
                0
            },
            None => 0,
        }
    }
}

/// In a well-formed tree, and so in every tree that the builder holds, an
/// element's depth is its number of ancestors: a root is at depth 0, and each
/// step from an element to its parent lowers the depth by exactly one.
pub proof fn depth_follows_nesting(tree: ElementTree, i: int)
    requires
        tree.wf(),
        0 <= i < tree.nodes@.len(),
    ensures
        tree.nodes@[i].depth == level(tree.nodes@, i),
        tree.nodes@[i].parent matches Some(p) ==> tree.nodes@[i].depth == tree.nodes@[p as int].depth
            + 1,
        tree.nodes@[i].parent is None ==> tree.nodes@[i].depth == 0,
    decreases i,
{
    assert(node_wf(tree.nodes@, i));
    if let Some(p) = tree.nodes@[i].parent {
        depth_follows_nesting(tree, p as int);
    }
}

proof fn lemma_no_kind_none(nodes: Seq<Element>, kids: Seq<usize>, k: int, kind: Kind)
    requires
        0 <= k,
        forall|m: int| k <= m < kids.len() ==> nodes[#[trigger] kids[m] as int].element_type.kind() != kind,
    ensures
        first_of_kind(nodes, kids, k, kind) is None,
    decreases kids.len() - k,
{
    if k < kids.len() {
        lemma_no_kind_none(nodes, kids, k + 1, kind);
    }
}

/// Where no run property among the children of any ancestor of a text
/// element has a color child, the color resolved for it is none.
pub proof fn no_color_without_declaration(nodes: Seq<Element>, i: int)
    requires
        nodes_wf(nodes),
        0 <= i < nodes.len(),
        forall|a: int, k: int, m: int|
            #![trigger is_ancestor(nodes, a, i), nodes[a].children@[k], nodes[nodes[a].children@[k] as int].children@[m]]
            is_ancestor(nodes, a, i) && 0 <= k < nodes[a].children@.len()
                && nodes[nodes[a].children@[k] as int].element_type.kind() == Kind::RunProperty
                && 0 <= m < nodes[nodes[a].children@[k] as int].children@.len()
                ==> nodes[nodes[nodes[a].children@[k] as int].children@[m] as int].element_type.kind()
                != Kind::Color,
    ensures
        color_of(nodes, nearest_run_property(nodes, i)) is None,
    decreases i,
{
    assert(node_wf(nodes, i));
    if let Some(p) = nodes[i].parent {
        let kids = nodes[p as int].children@;
        assert(is_ancestor(nodes, p as int, i));
        lemma_first_of_kind_is(nodes, kids, 0, Kind::RunProperty);
        match first_of_kind(nodes, kids, 0, Kind::RunProperty) {
            Some(c) => {
                let k = choose|k: int| 0 <= k < kids.len() && kids[k] == c;
                assert(nodes[p as int].children@[k] == c);
                assert forall|m: int| 0 <= m < nodes[c as int].children@.len() implies nodes[#[trigger] nodes[c as int].children@[m] as int].element_type.kind()
                    != Kind::Color by {
                    assert(nodes[nodes[p as int].children@[k] as int].children@[m]
                        == nodes[c as int].children@[m]);
                }
                lemma_no_kind_none(nodes, nodes[c as int].children@, 0, Kind::Color);
            },
            None => {
                assert forall|a: int| #[trigger] is_ancestor(nodes, a, p as int) implies is_ancestor(nodes, a, i) by {}
                no_color_without_declaration(nodes, p as int);
            },
        }
    }
}

proof fn lemma_first_of_kind_insert(
    t1: Seq<Element>,
    t2: Seq<Element>,
    kids: Seq<usize>,
    pos: int,
    x: usize,
    k: int,
    kind: Kind,
)
    requires
        0 <= pos <= kids.len(),
        0 <= k <= kids.len(),
        kind != Kind::Unknown,
        t2[x as int].element_type.kind() == Kind::Unknown,
        forall|m: int|
            0 <= m < kids.len() ==> t2[#[trigger] kids[m] as int].element_type.kind()
                == t1[kids[m] as int].element_type.kind(),
    ensures
        k <= pos ==> first_of_kind(t2, kids.insert(pos, x), k, kind) == first_of_kind(t1, kids, k, kind),
        k >= pos ==> first_of_kind(t2, kids.insert(pos, x), k + 1, kind) == first_of_kind(
            t1,
            kids,
            k,
            kind,
        ),
    decreases kids.len() - k,
{
    let ins = kids.insert(pos, x);
    if k < kids.len() {
        lemma_first_of_kind_insert(t1, t2, kids, pos, x, k + 1, kind);
    }
    if k >= pos && k < kids.len() {
        assert(ins[k + 1] == kids[k]);
    }
    if k < pos {
        assert(ins[k] == kids[k]);
    }
    if k == pos {
        assert(ins[k] == x);
    }
}

/// Adding an unknown element `x` among the children of element `p` (as a
/// new element at the end of the arena, listed at position `pos`) leaves the
/// run property visible from every element that was already there unchanged.
pub proof fn unknown_sibling_keeps_run_property(
    t1: Seq<Element>,
    t2: Seq<Element>,
    p: int,
    pos: int,
    x: usize,
    i: int,
)
    requires
        nodes_wf(t1),
        0 <= p < t1.len(),
        x == t1.len(),
        t2.len() == t1.len() + 1,
        forall|j: int| 0 <= j < t1.len() && j != p ==> #[trigger] t2[j] == t1[j],
        t2[p].element_type == t1[p].element_type,
        t2[p].parent == t1[p].parent,
        0 <= pos <= t1[p].children@.len(),
        t2[p].children@ == t1[p].children@.insert(pos, x),
        t2[x as int].element_type.kind() == Kind::Unknown,
        t2[x as int].parent == Some(p as usize),
        0 <= i < t1.len(),
    ensures
        nearest_run_property(t2, i) == nearest_run_property(t1, i),
    decreases i,
{
    assert(node_wf(t1, i));
    assert(t2[i].parent == t1[i].parent);
    if let Some(q) = t1[i].parent {
        let kids = t1[q as int].children@;
        assert(node_wf(t1, q as int));
        assert forall|m: int| 0 <= m < kids.len() implies t2[#[trigger] kids[m] as int].element_type.kind()
            == t1[kids[m] as int].element_type.kind() by {
            if kids[m] as int != p {
                assert(t2[kids[m] as int] == t1[kids[m] as int]);
            }
        }
        if q as int == p {
            lemma_first_of_kind_insert(t1, t2, kids, pos, x, 0, Kind::RunProperty);
        } else {
            assert(t2[q as int] == t1[q as int]);
            lemma_first_of_kind_same(t1, t2, kids, 0);
        }
        unknown_sibling_keeps_run_property(t1, t2, p, pos, x, q as int);
    }
}

proof fn lemma_first_of_kind_same(t1: Seq<Element>, t2: Seq<Element>, kids: Seq<usize>, k: int)
    requires
        0 <= k <= kids.len(),
        forall|m: int|
            0 <= m < kids.len() ==> t2[#[trigger] kids[m] as int].element_type.kind()
                == t1[kids[m] as int].element_type.kind(),
    ensures
        first_of_kind(t2, kids, k, Kind::RunProperty) == first_of_kind(t1, kids, k, Kind::RunProperty),
    decreases kids.len() - k,
{
    if k < kids.len() {
        lemma_first_of_kind_same(t1, t2, kids, k + 1);
    }
}

/// Extracting the color of an element twice from one unchanged tree gives
/// the same value both times.
pub proof fn color_extraction_is_stable(
    tree: ElementTree,
    element: Option<usize>,
    first: Option<String>,
    second: Option<String>,
)
    requires
        tree.wf(),
        opt_view(first) == color_of(tree.nodes@, element),
        opt_view(second) == color_of(tree.nodes@, element),
    ensures
        opt_view(first) == opt_view(second),
{
}

} // verus!
