use vstd::prelude::*;
use vstd::multiset::Multiset;
use crate::envelope::{
    area, center_distance_2, coord, empty_aabb, intersection_area, margin, merge,
    point_distance_2, Aabb, Point,
};
use crate::nearest_neighbor::{nearest_neighbor, nearest_neighbor_iter, NearestNeighborIterator};
use crate::node::{
    leaves, leaves_seq, lemma_leaves_push, lemma_leaves_remove, lemma_leaves_split,
    lemma_leaves_update, lemma_mbr_push, lemma_mbr_remove, lemma_mbr_split, lemma_mbr_update, lemma_merge_empty, mbr_for_children,
    mbr_of, node_envelope, wf_node, ParentNodeData, RTreeNode,
};

verus! {

broadcast use {
    vstd::multiset::group_multiset_axioms,
    vstd::seq_lib::group_to_multiset_ensures,
    vstd::seq_lib::lemma_multiset_commutative,
};

/// The order in which the children of a node are sorted.
pub enum SortBy {
    /// By the lower bound on the axis, then by the upper bound.
    Axis(usize),
    /// By the distance of the envelope's centre to the centre of the given rectangle.
    Center(Aabb),
}

pub open spec fn sort_key(n: RTreeNode, by: SortBy) -> (int, int) {
    let e = node_envelope(n);
    match by {
        SortBy::Axis(a) => (coord(e.lower, a as int), coord(e.upper, a as int)),
        SortBy::Center(c) => (center_distance_2(e, c), 0),
    }
}

pub open spec fn key_le(a: (int, int), b: (int, int)) -> bool {
    a.0 < b.0 || (a.0 == b.0 && a.1 <= b.1)
}

pub open spec fn sorted_by(s: Seq<RTreeNode>, by: SortBy) -> bool {
    forall|i: int, j: int|
        0 <= i < j < s.len() ==> key_le(sort_key(#[trigger] s[i], by), sort_key(#[trigger] s[j], by))
}

/// Each node of `s` stands in `t`.
pub open spec fn drawn_from(s: Seq<RTreeNode>, t: Seq<RTreeNode>) -> bool {
    forall|i: int| 0 <= i < s.len() ==> t.contains(#[trigger] s[i])
}

/// `s` holds the nodes of `t`, each as often, in some order.
pub open spec fn reorders(s: Seq<RTreeNode>, t: Seq<RTreeNode>) -> bool {
    s.to_multiset() == t.to_multiset()
}

fn key_of(n: &RTreeNode, by: &SortBy) -> (r: (i128, i128))
    ensures
        r.0 == sort_key(*n, *by).0,
        r.1 == sort_key(*n, *by).1,
{
    let e = n.envelope();
    match by {
        SortBy::Axis(a) => {
            if *a == 0 {
                (e.lower.x as i128, e.upper.x as i128)
            } else {
                (e.lower.y as i128, e.upper.y as i128)
            }
        },
        SortBy::Center(c) => (e.center_distance_2(c), 0),
    }
}

/// Stable sort of `children` by `by`.
pub fn sort_children(children: &mut Vec<RTreeNode>, by: &SortBy)
    ensures
        final(children)@.len() == old(children)@.len(),
        leaves_seq(final(children)@) == leaves_seq(old(children)@),
        mbr_of(final(children)@) == mbr_of(old(children)@),
        drawn_from(final(children)@, old(children)@),
        reorders(final(children)@, old(children)@),
        sorted_by(final(children)@, *by),
{
    let ghost orig = children@;
    let mut src: Vec<RTreeNode> = Vec::new();
    std::mem::swap(&mut src, children);
    let mut out: Vec<RTreeNode> = Vec::new();
    while src.len() > 0
        invariant
            out@.len() + src@.len() == orig.len(),
            leaves_seq(out@).add(leaves_seq(src@)) == leaves_seq(orig),
            merge(mbr_of(out@), mbr_of(src@)) == mbr_of(orig),
            out@.to_multiset().add(src@.to_multiset()) == orig.to_multiset(),
            drawn_from(out@, orig),
            drawn_from(src@, orig),
            sorted_by(out@, *by),
            forall|i: int, j: int|
                0 <= i < out@.len() && 0 <= j < src@.len() ==> key_le(
                    sort_key(#[trigger] out@[i], *by),
                    sort_key(#[trigger] src@[j], *by),
                ),
        decreases src@.len(),
    {
        let mut best: usize = 0;
        let mut best_key = key_of(&src[0], by);
        let mut j: usize = 1;
        while j < src.len()
            invariant
                0 <= best < j <= src@.len(),
                best_key.0 == sort_key(src@[best as int], *by).0,
                best_key.1 == sort_key(src@[best as int], *by).1,
                forall|m: int|
                    0 <= m < j ==> key_le(sort_key(src@[best as int], *by), sort_key(#[trigger] src@[m], *by)),
            decreases src@.len() - j,
        {
            let k = key_of(&src[j], by);
            if k.0 < best_key.0 || (k.0 == best_key.0 && k.1 < best_key.1) {
                best = j;
                best_key = k;
            }
            j = j + 1;
        }
        let ghost s0 = src@;
        let ghost o0 = out@;
        let x = src.remove(best);
        proof {
            lemma_leaves_remove(s0, best as int);
            lemma_leaves_push(o0, x);
            lemma_mbr_remove(s0, best as int);
            lemma_mbr_push(o0, x);
            assert(s0.contains(x));
            assert(out@.push(x).to_multiset().add(src@.to_multiset()) =~= orig.to_multiset());
            assert(leaves_seq(out@.push(x)).add(leaves_seq(src@)) =~= leaves_seq(orig));
            assert forall|i: int| 0 <= i < src@.len() implies orig.contains(#[trigger] src@[i]) by {
                if i < best {
                    assert(src@[i] == s0[i]);
                } else {
                    assert(src@[i] == s0[i + 1]);
                }
            }
            assert forall|i: int, m: int|
                0 <= i < out@.len() + 1 && 0 <= m < src@.len() implies key_le(
                    sort_key(#[trigger] out@.push(x)[i], *by),
                    sort_key(#[trigger] src@[m], *by),
                ) by {
                if m < best {
                    assert(src@[m] == s0[m]);
                } else {
                    assert(src@[m] == s0[m + 1]);
                }
            }
        }
        out.push(x);
    }
    proof {
        lemma_merge_empty(mbr_of(out@));
        assert(src@.to_multiset() =~= Multiset::empty());
        assert(out@.to_multiset() =~= orig.to_multiset());
    }
    *children = out;
}


/// The merge of the envelopes of `children[lo..hi]`.
fn mbr_of_range(children: &Vec<RTreeNode>, lo: usize, hi: usize) -> (r: Aabb)
    requires
        lo <= hi <= children@.len(),
    ensures
        r == mbr_of(children@.subrange(lo as int, hi as int)),
{
    let mut r = crate::envelope::new_empty();
    let mut i: usize = lo;
    while i < hi
        invariant
            lo <= i <= hi <= children@.len(),
            r == mbr_of(children@.subrange(lo as int, i as int)),
        decreases hi - i,
    {
        proof {
            assert(children@.subrange(lo as int, i as int + 1).drop_last() =~= children@.subrange(
                lo as int,
                i as int,
            ));
        }
        r = r.merged(&children[i].envelope());
        i = i + 1;
    }
    r
}

/// What splitting `s` before index `k` costs: the overlap of the two halves,
/// then the sum of their areas.
pub open spec fn split_goodness(s: Seq<RTreeNode>, k: int) -> (int, int) {
    let first = mbr_of(s.subrange(0, k));
    let second = mbr_of(s.subrange(k, s.len() as int));
    (intersection_area(first, second), area(first) + area(second))
}

pub open spec fn pair_lt(a: (int, int), b: (int, int)) -> bool {
    a.0 < b.0 || (a.0 == b.0 && a.1 < b.1)
}

/// Sum of the margins of the two halves over the split indices from
/// `min_size` up to (not including) `k`.
pub open spec fn margin_sum(s: Seq<RTreeNode>, min_size: int, k: int) -> int
    decreases k - min_size,
{
    if k <= min_size {
        0
    } else {
        margin_sum(s, min_size, k - 1) + margin(mbr_of(s.subrange(0, k - 1))) + margin(
            mbr_of(s.subrange(k - 1, s.len() as int)),
        )
    }
}

/// The total margin of every split of `s` that leaves at least `min_size`
/// nodes on each side.
pub open spec fn margin_total(s: Seq<RTreeNode>, min_size: int) -> int {
    margin_sum(s, min_size, s.len() - min_size + 1)
}

/// `a` is the axis on which the splits of some reordering of `s` sorted along
/// it have the smaller total margin, against some reordering of `s` sorted
/// along the other axis (axis 0 on a tie).
pub open spec fn split_axis_choice(s: Seq<RTreeNode>, min_size: int, a: usize) -> bool {
    exists|s0: Seq<RTreeNode>, s1: Seq<RTreeNode>|
        {
            &&& reorders(s0, s) && reorders(s1, s)
            &&& sorted_by(s0, SortBy::Axis(0)) && sorted_by(s1, SortBy::Axis(1))
            &&& a == (if margin_total(s1, min_size) < margin_total(s0, min_size) {
                1usize
            } else {
                0usize
            })
        }
}

/// Sorts `children` along each axis in turn and returns the axis whose split
/// candidates have the smallest total margin (axis 0 on a tie). The children
/// are left sorted along the last axis tried.
fn get_split_axis(children: &mut Vec<RTreeNode>, min_size: usize) -> (r: usize)
    requires
        1 <= min_size,
        2 * min_size <= old(children)@.len() <= 0x4000_0000_0000_0000,
    ensures
        r < 2,
        split_axis_choice(old(children)@, min_size as int, r),
        reorders(final(children)@, old(children)@),
        final(children)@.len() == old(children)@.len(),
        leaves_seq(final(children)@) == leaves_seq(old(children)@),
        mbr_of(final(children)@) == mbr_of(old(children)@),
        drawn_from(final(children)@, old(children)@),
{
    let ghost orig = children@;
    let ghost mut s0: Seq<RTreeNode> = orig;
    let ghost mut s1: Seq<RTreeNode> = orig;
    let mut best_goodness: i128 = 0;
    let mut best_axis: usize = 0;
    let mut axis: usize = 0;
    while axis < 2
        invariant
            axis <= 2,
            best_axis < 2,
            axis >= 1 ==> {
                &&& s0.len() == orig.len() && drawn_from(s0, orig) && reorders(s0, orig)
                &&& sorted_by(s0, SortBy::Axis(0))
            },
            axis == 1 ==> best_goodness == margin_total(s0, min_size as int) && best_axis == 0,
            axis == 2 ==> {
                &&& s1.len() == orig.len() && drawn_from(s1, orig) && reorders(s1, orig)
                &&& sorted_by(s1, SortBy::Axis(1))
                &&& best_axis == (if margin_total(s1, min_size as int) < margin_total(
                    s0,
                    min_size as int,
                ) {
                    1usize
                } else {
                    0usize
                })
            },
            children@.len() == orig.len(),
            leaves_seq(children@) == leaves_seq(orig),
            mbr_of(children@) == mbr_of(orig),
            drawn_from(children@, orig),
            reorders(children@, orig),
            2 * min_size <= orig.len() <= 0x4000_0000_0000_0000,
            1 <= min_size,
        decreases 2 - axis,
    {
        let ghost before = children@;
        sort_children(children, &SortBy::Axis(axis));
        proof {
            assert forall|i: int| 0 <= i < children@.len() implies orig.contains(
                #[trigger] children@[i],
            ) by {
                let j = choose|j: int| 0 <= j < before.len() && before[j] == children@[i];
            }
        }
        let len = children.len();
        let mut total: i128 = 0;
        let mut k: usize = min_size;
        while k <= len - min_size
            invariant
                min_size <= k <= len - min_size + 1,
                len == children@.len() <= 0x4000_0000_0000_0000,
                1 <= min_size,
                2 * min_size <= len,
                0 <= total <= (k - min_size) * 0x4_0000_0000,
                total == margin_sum(children@, min_size as int, k as int),
            decreases len - min_size + 1 - k,
        {
            let first = mbr_of_range(children, 0, k);
            let second = mbr_of_range(children, k, len);
            assert(k - min_size + 1 <= 0x4000_0000_0000_0000);
            assert((k - min_size) * 0x4_0000_0000 + 0x4_0000_0000 == (k - min_size + 1)
                * 0x4_0000_0000) by (nonlinear_arith);
            assert((k - min_size + 1) * 0x4_0000_0000 <= 0x4000_0000_0000_0000 * 0x4_0000_0000)
                by (nonlinear_arith)
                requires
                    k - min_size + 1 <= 0x4000_0000_0000_0000,
            ;
            total = total + first.margin_value() + second.margin_value();
            k = k + 1;
        }
        proof {
            if axis == 0 {
                s0 = children@;
            } else {
                s1 = children@;
            }
        }
        if axis == 0 || total < best_goodness {
            best_axis = axis;
            best_goodness = total;
        }
        axis = axis + 1;
    }
    best_axis
}

/// Splits an overflowing node: the children are sorted along the best axis,
/// and those from the best split index on move into a new inner node, which
/// is returned. Both halves get the merge of their children's envelopes.
fn split(node: &mut ParentNodeData, min_size: usize) -> (r: RTreeNode)
    requires
        1 <= min_size,
        2 * min_size <= old(node).children@.len() <= 0x4000_0000_0000_0000,
    ensures
        r is Parent,
        ({
            let s = final(node).children@ + r->Parent_0.children@;
            let k = final(node).children@.len() as int;
            &&& s.len() == old(node).children@.len()
            &&& min_size <= k <= s.len() - min_size
            &&& leaves_seq(s) == leaves_seq(old(node).children@)
            &&& mbr_of(s) == mbr_of(old(node).children@)
            &&& drawn_from(s, old(node).children@)
            &&& reorders(s, old(node).children@)
            &&& exists|a: usize|
                split_axis_choice(old(node).children@, min_size as int, a) && sorted_by(
                    s,
                    SortBy::Axis(a),
                )
            &&& forall|j: int|
                min_size <= j <= s.len() - min_size ==> !pair_lt(
                    #[trigger] split_goodness(s, j),
                    split_goodness(s, k),
                )
            &&& forall|j: int|
                min_size <= j < k ==> pair_lt(
                    split_goodness(s, k),
                    #[trigger] split_goodness(s, j),
                )
        }),
        final(node).envelope == mbr_of(final(node).children@),
        r->Parent_0.envelope == mbr_of(r->Parent_0.children@),
{
    let ghost orig = node.children@;
    let axis = get_split_axis(&mut node.children, min_size);
    let ghost before = node.children@;
    sort_children(&mut node.children, &SortBy::Axis(axis));
    proof {
        assert forall|i: int| 0 <= i < node.children@.len() implies orig.contains(
            #[trigger] node.children@[i],
        ) by {
            let j = choose|j: int| 0 <= j < before.len() && before[j] == node.children@[i];
        }
    }
    let len = node.children.len();
    let mut best: (i128, i128) = (0, 0);
    let mut best_index: usize = min_size;
    let mut k: usize = min_size;
    while k <= len - min_size
        invariant
            min_size <= best_index <= len - min_size,
            min_size <= k <= len - min_size + 1,
            len == node.children@.len(),
            2 * min_size <= len <= 0x4000_0000_0000_0000,
            1 <= min_size,
            k > min_size ==> best_index < k,
            k > min_size ==> best.0 == split_goodness(node.children@, best_index as int).0,
            k > min_size ==> best.1 == split_goodness(node.children@, best_index as int).1,
            forall|j: int|
                min_size <= j < k ==> !pair_lt(
                    #[trigger] split_goodness(node.children@, j),
                    split_goodness(node.children@, best_index as int),
                ),
            forall|j: int|
                min_size <= j < best_index ==> pair_lt(
                    split_goodness(node.children@, best_index as int),
                    #[trigger] split_goodness(node.children@, j),
                ),
            reorders(node.children@, orig),
            sorted_by(node.children@, SortBy::Axis(axis)),
            split_axis_choice(orig, min_size as int, axis),
        decreases len - min_size + 1 - k,
    {
        let first = mbr_of_range(&node.children, 0, k);
        let second = mbr_of_range(&node.children, k, len);
        let overlap_value = first.intersection_area(&second);
        let area_value = first.area() + second.area();
        if k == min_size || overlap_value < best.0 || (overlap_value == best.0 && area_value
            < best.1) {
            best = (overlap_value, area_value);
            best_index = k;
        }
        k = k + 1;
    }
    let ghost whole = node.children@;
    let offsplit = node.children.split_off(best_index);
    proof {
        assert(node.children@ + offsplit@ =~= whole);
        lemma_leaves_split(whole, best_index as int);
        assert(sorted_by(whole, SortBy::Axis(axis)));
        assert(reorders(node.children@ + offsplit@, orig));
    }
    node.envelope = mbr_for_children(&node.children);
    RTreeNode::Parent(ParentNodeData::new_parent(offsplit))
}

/// Forced reinsertion: sorts the children by the distance of their centres
/// to the centre of the node's envelope and detaches the `count` farthest.
fn reinsert(node: &mut ParentNodeData, count: usize) -> (r: Vec<RTreeNode>)
    requires
        count <= old(node).children@.len(),
    ensures
        ({
            let s = final(node).children@ + r@;
            &&& s.len() == old(node).children@.len()
            &&& leaves_seq(s) == leaves_seq(old(node).children@)
            &&& mbr_of(s) == mbr_of(old(node).children@)
            &&& drawn_from(s, old(node).children@)
            &&& reorders(s, old(node).children@)
            &&& sorted_by(s, SortBy::Center(old(node).envelope))
        }),
        r@.len() == count,
        final(node).envelope == mbr_of(final(node).children@),
{
    let center = node.envelope;
    sort_children(&mut node.children, &SortBy::Center(center));
    let num_children = node.children.len();
    let ghost whole = node.children@;
    let result = node.children.split_off(num_children - count);
    proof {
        assert(node.children@ + result@ =~= whole);
        lemma_leaves_split(whole, (num_children - count) as int);
    }
    node.envelope = mbr_for_children(&node.children);
    result
}


/// Sum, over the nodes of `s[..k]` other than `s[i]`, of their intersection
/// area with `b`.
pub open spec fn overlap_upto(s: Seq<RTreeNode>, i: int, b: Aabb, k: int) -> int
    decreases k,
{
    if k <= 0 {
        0
    } else {
        overlap_upto(s, i, b, k - 1) + if k - 1 == i {
            0
        } else {
            intersection_area(b, node_envelope(s[k - 1]))
        }
    }
}

/// What descending into `s[i]` with an entry of envelope `e` costs: the growth
/// of its overlap with its siblings (counted only where `all_leaves`), the
/// growth of its area, and its area once grown.
pub open spec fn insertion_cost(s: Seq<RTreeNode>, i: int, e: Aabb, all_leaves: bool) -> (
    int,
    int,
    int,
) {
    let old_env = node_envelope(s[i]);
    let new_env = merge(old_env, e);
    (
        if all_leaves {
            overlap_upto(s, i, new_env, s.len() as int) - overlap_upto(s, i, old_env, s.len() as int)
        } else {
            0
        },
        area(new_env) - area(old_env),
        area(new_env),
    )
}

pub open spec fn triple_lt(a: (int, int, int), b: (int, int, int)) -> bool {
    a.0 < b.0 || (a.0 == b.0 && (a.1 < b.1 || (a.1 == b.1 && a.2 < b.2)))
}

pub open spec fn includes(s: Seq<RTreeNode>, i: int, e: Aabb) -> bool {
    crate::envelope::contains_aabb(node_envelope(s[i]), e)
}

/// The index of the child to descend into: among the children whose envelope
/// already holds `e`, the first of smallest area; if there is none, the first
/// of smallest insertion cost.
pub open spec fn is_chosen_subtree(s: Seq<RTreeNode>, r: int, e: Aabb, all_leaves: bool) -> bool {
    &&& 0 <= r < s.len()
    &&& (exists|i: int| 0 <= i < s.len() && includes(s, i, e)) ==> {
        &&& includes(s, r, e)
        &&& forall|j: int|
            0 <= j < s.len() && includes(s, j, e) ==> area(node_envelope(s[r])) <= area(
                node_envelope(#[trigger] s[j]),
            )
        &&& forall|j: int|
            0 <= j < r && includes(s, j, e) ==> area(node_envelope(s[r])) < area(
                node_envelope(#[trigger] s[j]),
            )
    }
    &&& !(exists|i: int| 0 <= i < s.len() && includes(s, i, e)) ==> {
        &&& forall|j: int|
            0 <= j < s.len() ==> !triple_lt(
                #[trigger] insertion_cost(s, j, e, all_leaves),
                insertion_cost(s, r, e, all_leaves),
            )
        &&& forall|j: int|
            0 <= j < r ==> triple_lt(
                insertion_cost(s, r, e, all_leaves),
                #[trigger] insertion_cost(s, j, e, all_leaves),
            )
    }
}

fn overlap_sum(children: &Vec<RTreeNode>, i: usize, b: &Aabb) -> (r: i128)
    requires
        i < children@.len() <= 0x4000_0000_0000_0000,
    ensures
        r == overlap_upto(children@, i as int, *b, children@.len() as int),
        0 <= r <= children@.len() * 0x1_0000_0000_0000_0000,
{
    let mut sum: i128 = 0;
    let mut j: usize = 0;
    while j < children.len()
        invariant
            j <= children@.len() <= 0x4000_0000_0000_0000,
            i < children@.len(),
            sum == overlap_upto(children@, i as int, *b, j as int),
            0 <= sum <= j * 0x1_0000_0000_0000_0000,
        decreases children@.len() - j,
    {
        assert(j * 0x1_0000_0000_0000_0000 + 0x1_0000_0000_0000_0000 == (j + 1)
            * 0x1_0000_0000_0000_0000) by (nonlinear_arith);
        assert((j + 1) * 0x1_0000_0000_0000_0000 <= 0x4000_0000_0000_0000 * 0x1_0000_0000_0000_0000)
            by (nonlinear_arith)
            requires
                j + 1 <= 0x4000_0000_0000_0000,
        ;
        if j != i {
            sum = sum + b.intersection_area(&children[j].envelope());
        }
        j = j + 1;
    }
    sum
}

fn choose_subtree(children: &Vec<RTreeNode>, insertion_mbr: &Aabb, all_leaves: bool) -> (r:
    usize)
    requires
        0 < children@.len() <= 0x4000_0000_0000_0000,
    ensures
        is_chosen_subtree(children@, r as int, *insertion_mbr, all_leaves),
{
    let ghost s = children@;
    let ghost e = *insertion_mbr;
    let mut inclusion_count: usize = 0;
    let mut min_area: i128 = i128::MAX;
    let mut min_index: usize = 0;
    let mut index: usize = 0;
    while index < children.len()
        invariant
            index <= s.len(),
            s == children@,
            e == *insertion_mbr,
            inclusion_count <= index,
            min_index < s.len(),
            inclusion_count == 0 ==> min_index == 0,
            inclusion_count == 0 ==> forall|i: int| 0 <= i < index ==> !includes(s, i, e),
            inclusion_count > 0 ==> {
                &&& min_index < index
                &&& includes(s, min_index as int, e)
                &&& min_area == area(node_envelope(s[min_index as int]))
                &&& forall|j: int|
                    0 <= j < index && includes(s, j, e) ==> min_area <= area(
                        node_envelope(#[trigger] s[j]),
                    )
                &&& forall|j: int|
                    0 <= j < min_index && includes(s, j, e) ==> min_area < area(
                        node_envelope(#[trigger] s[j]),
                    )
            },
        decreases s.len() - index,
    {
        let mbr = children[index].envelope();
        if mbr.contains_envelope(insertion_mbr) {
            let area = mbr.area();
            if inclusion_count == 0 || area < min_area {
                min_area = area;
                min_index = index;
            }
            inclusion_count = inclusion_count + 1;
        }
        index = index + 1;
    }
    if inclusion_count == 0 {
        assert(!(exists|i: int| 0 <= i < s.len() && includes(s, i, e)));
        let mut min: (i128, i128, i128) = (0, 0, 0);
        let mut index: usize = 0;
        while index < children.len()
            invariant
                index <= s.len() <= 0x4000_0000_0000_0000,
                s == children@,
                e == *insertion_mbr,
                min_index < s.len(),
                index > 0 ==> min_index < index,
                index > 0 ==> min.0 == insertion_cost(s, min_index as int, e, all_leaves).0,
                index > 0 ==> min.1 == insertion_cost(s, min_index as int, e, all_leaves).1,
                index > 0 ==> min.2 == insertion_cost(s, min_index as int, e, all_leaves).2,
                forall|j: int|
                    0 <= j < index ==> !triple_lt(
                        #[trigger] insertion_cost(s, j, e, all_leaves),
                        insertion_cost(s, min_index as int, e, all_leaves),
                    ),
                forall|j: int|
                    0 <= j < min_index ==> triple_lt(
                        insertion_cost(s, min_index as int, e, all_leaves),
                        #[trigger] insertion_cost(s, j, e, all_leaves),
                    ),
            decreases s.len() - index,
        {
            let mbr = children[index].envelope();
            let new_mbr = mbr.merged(insertion_mbr);
            let overlap_increase: i128 = if all_leaves {
                let overlap = overlap_sum(children, index, &mbr);
                let new_overlap = overlap_sum(children, index, &new_mbr);
                new_overlap - overlap
            } else {
                0
            };
            let area = new_mbr.area();
            let area_increase = area - mbr.area();
            let new_min = (overlap_increase, area_increase, area);
            if index == 0 || new_min.0 < min.0 || (new_min.0 == min.0 && (new_min.1 < min.1 || (
            new_min.1 == min.1 && new_min.2 < min.2))) {
                min = new_min;
                min_index = index;
            }
            index = index + 1;
        }
    }
    min_index
}


/// The sizes that shape a tree: inner nodes other than the root hold between
/// `min_size` and `max_size` children, and an overflowing node first hands
/// `reinsertion_count` of its children back for insertion from the top.
#[derive(Clone, Copy, Debug)]
pub struct RTreeParams {
    pub min_size: usize,
    pub max_size: usize,
    pub reinsertion_count: usize,
}

pub open spec fn valid_params(p: RTreeParams) -> bool {
    &&& 1 <= p.min_size
    &&& 2 <= p.max_size
    &&& 2 * p.min_size <= p.max_size + 1
    &&& p.reinsertion_count < p.max_size - p.min_size + 1
    &&& p.max_size < 0x4000_0000
}

impl RTreeParams {
    /// Three to six children per node, two of them reinserted on overflow.
    pub fn default_params() -> (r: RTreeParams)
        ensures
            r.min_size == 3,
            r.max_size == 6,
            r.reinsertion_count == 2,
            valid_params(r),
    {
        RTreeParams { min_size: 3, max_size: 6, reinsertion_count: 2 }
    }

    /// The given sizes, or `None` where they cannot shape a tree.
    pub fn new(min_size: usize, max_size: usize, reinsertion_count: usize) -> (r: Option<
        RTreeParams,
    >)
        ensures
            r is Some <==> valid_params(
                RTreeParams { min_size, max_size, reinsertion_count },
            ),
            r is Some ==> r->Some_0 == (RTreeParams { min_size, max_size, reinsertion_count }),
    {
        if 1 <= min_size && 2 <= max_size && min_size < 0x4000_0000 && max_size < 0x4000_0000 && 2 * min_size <= max_size + 1
            && reinsertion_count < max_size - min_size + 1 {
            Some(RTreeParams { min_size, max_size, reinsertion_count })
        } else {
            None
        }
    }
}

pub open spec fn children_wf(s: Seq<RTreeNode>, h: nat, p: RTreeParams) -> bool {
    forall|i: int|
        0 <= i < s.len() ==> wf_node(#[trigger] s[i], h, p.min_size as nat, p.max_size as nat, false)
}

pub open spec fn wf_parent(d: ParentNodeData, h: nat, p: RTreeParams, is_root: bool) -> bool {
    &&& wf_node(RTreeNode::Parent(d), h, p.min_size as nat, p.max_size as nat, is_root)
    &&& d.children@.len() <= p.max_size
}

pub proof fn lemma_wf_parent_unfold(d: ParentNodeData, h: nat, p: RTreeParams, is_root: bool)
    ensures
        wf_parent(d, h, p, is_root) <==> {
            &&& h > 0
            &&& d.envelope == mbr_of(d.children@)
            &&& is_root || p.min_size <= d.children@.len()
            &&& d.children@.len() <= p.max_size
            &&& children_wf(d.children@, (h - 1) as nat, p)
        },
{
    reveal_with_fuel(wf_node, 2);
}

proof fn lemma_drawn_wf(s: Seq<RTreeNode>, t: Seq<RTreeNode>, h: nat, p: RTreeParams)
    requires
        drawn_from(s, t),
        children_wf(t, h, p),
    ensures
        children_wf(s, h, p),
{
    assert forall|i: int| 0 <= i < s.len() implies wf_node(
        #[trigger] s[i],
        h,
        p.min_size as nat,
        p.max_size as nat,
        false,
    ) by {
        assert(t.contains(s[i]));
    }
}

pub enum InsertionResult {
    /// The node overflowed and was split: here is its new sibling.
    Split(RTreeNode),
    /// Nodes handed back for insertion from the top, with the distance from
    /// the level that returns them to the level that detached them.
    Reinsert(Vec<RTreeNode>, usize),
    Complete,
}

/// After a child was added to `node`: nothing to do while it has at most
/// `max_size` children; else its farthest children are handed back for
/// reinsertion where that is allowed, and the node is split where not.
fn resolve_overflow(
    node: &mut ParentNodeData,
    allow_reinsert: bool,
    params: &RTreeParams,
    Ghost(h): Ghost<nat>,
    Ghost(is_root): Ghost<bool>,
) -> (r: InsertionResult)
    requires
        valid_params(*params),
        h > 0,
        old(node).children@.len() <= params.max_size + 1,
        is_root || params.min_size <= old(node).children@.len(),
        old(node).envelope == mbr_of(old(node).children@),
        children_wf(old(node).children@, (h - 1) as nat, *params),
    ensures
        (r is Complete) <==> old(node).children@.len() <= params.max_size,
        (r is Split) <==> (old(node).children@.len() > params.max_size && (params.reinsertion_count
            == 0 || !allow_reinsert)),
        match r {
            InsertionResult::Complete => {
                &&& *final(node) == *old(node)
                &&& wf_parent(*final(node), h, *params, is_root)
            },
            InsertionResult::Split(s) => {
                &&& old(node).children@.len() > params.max_size
                &&& params.reinsertion_count == 0 || !allow_reinsert
                &&& reorders(final(node).children@ + s->Parent_0.children@, old(node).children@)
                &&& final(node).children@.len() + s->Parent_0.children@.len()
                    == old(node).children@.len()
                &&& wf_parent(*final(node), h, *params, false)
                &&& s is Parent
                &&& wf_parent(s->Parent_0, h, *params, false)
                &&& merge(final(node).envelope, s->Parent_0.envelope) == old(node).envelope
                &&& leaves(RTreeNode::Parent(*final(node))).add(leaves(s)) == leaves(
                    RTreeNode::Parent(*old(node)),
                )
            },
            InsertionResult::Reinsert(nodes, d) => {
                &&& allow_reinsert
                &&& params.reinsertion_count > 0
                &&& old(node).children@.len() > params.max_size
                &&& d == 0
                &&& nodes@.len() == params.reinsertion_count
                &&& final(node).children@.len() == old(node).children@.len()
                    - params.reinsertion_count
                &&& reorders(final(node).children@ + nodes@, old(node).children@)
                &&& final(node).envelope == mbr_of(final(node).children@)
                &&& wf_parent(*final(node), h, *params, is_root)
                &&& final(node).children@.len() > 0
                &&& children_wf(nodes@, (h - 1) as nat, *params)
                &&& leaves(RTreeNode::Parent(*final(node))).add(leaves_seq(nodes@)) == leaves(
                    RTreeNode::Parent(*old(node)),
                )
            },
        },
{
    proof {
        lemma_wf_parent_unfold(*old(node), h, *params, is_root);
        lemma_wf_parent_unfold(*old(node), h, *params, false);
    }
    if node.children.len() > params.max_size {
        let ghost before = *node;
        if params.reinsertion_count == 0 || !allow_reinsert {
            let offsplit = split(node, params.min_size);
            proof {
                let s = node.children@ + offsplit->Parent_0.children@;
                assert forall|i: int| 0 <= i < node.children@.len() implies before.children@.contains(
                    #[trigger] node.children@[i],
                ) by {
                    assert(s[i] == node.children@[i]);
                }
                assert forall|i: int|
                    0 <= i < offsplit->Parent_0.children@.len() implies before.children@.contains(
                    #[trigger] offsplit->Parent_0.children@[i],
                ) by {
                    assert(s[node.children@.len() + i] == offsplit->Parent_0.children@[i]);
                }
                lemma_drawn_wf(node.children@, before.children@, (h - 1) as nat, *params);
                lemma_drawn_wf(
                    offsplit->Parent_0.children@,
                    before.children@,
                    (h - 1) as nat,
                    *params,
                );
                lemma_leaves_split(s, node.children@.len() as int);
                lemma_mbr_split(s, node.children@.len() as int);
                assert(s.subrange(0, node.children@.len() as int) =~= node.children@);
                assert(s.subrange(node.children@.len() as int, s.len() as int)
                    =~= offsplit->Parent_0.children@);
                lemma_wf_parent_unfold(*node, h, *params, false);
                lemma_wf_parent_unfold(offsplit->Parent_0, h, *params, false);
            }
            InsertionResult::Split(offsplit)
        } else {
            let reinsertion_nodes = reinsert(node, params.reinsertion_count);
            proof {
                let s = node.children@ + reinsertion_nodes@;
                assert forall|i: int| 0 <= i < node.children@.len() implies before.children@.contains(
                    #[trigger] node.children@[i],
                ) by {
                    assert(s[i] == node.children@[i]);
                }
                assert forall|i: int|
                    0 <= i < reinsertion_nodes@.len() implies before.children@.contains(
                    #[trigger] reinsertion_nodes@[i],
                ) by {
                    assert(s[node.children@.len() + i] == reinsertion_nodes@[i]);
                }
                lemma_drawn_wf(node.children@, before.children@, (h - 1) as nat, *params);
                lemma_drawn_wf(reinsertion_nodes@, before.children@, (h - 1) as nat, *params);
                lemma_leaves_split(s, node.children@.len() as int);
                assert(s.subrange(0, node.children@.len() as int) =~= node.children@);
                assert(s.subrange(node.children@.len() as int, s.len() as int)
                    =~= reinsertion_nodes@);
                lemma_wf_parent_unfold(*node, h, *params, is_root);
            }
            InsertionResult::Reinsert(reinsertion_nodes, 0)
        }
    } else {
        InsertionResult::Complete
    }
}


/// Inserts `t`, a node of height `th`, into the subtree of `node`, a node of
/// height `th + target_height + 1`, and reports what the caller has to do.
fn recursive_insert(
    node: &mut ParentNodeData,
    t: RTreeNode,
    target_height: usize,
    allow_reinsert: bool,
    params: &RTreeParams,
    Ghost(th): Ghost<nat>,
    Ghost(is_root): Ghost<bool>,
) -> (r: InsertionResult)
    requires
        valid_params(*params),
        th + target_height + 1 < usize::MAX,
        wf_parent(*old(node), (th + target_height + 1) as nat, *params, is_root),
        target_height > 0 ==> old(node).children@.len() > 0,
        wf_node(t, th, params.min_size as nat, params.max_size as nat, false),
    ensures
        final(node).children@.len() > 0,
        target_height == 0 && old(node).children@.len() < params.max_size ==> {
            &&& r is Complete
            &&& final(node).children@ == old(node).children@.push(t)
        },
        match r {
            InsertionResult::Complete => {
                &&& wf_parent(*final(node), (th + target_height + 1) as nat, *params, is_root)
                &&& final(node).envelope == merge(old(node).envelope, node_envelope(t))
                &&& leaves(RTreeNode::Parent(*final(node))) == leaves(
                    RTreeNode::Parent(*old(node)),
                ).add(leaves(t))
            },
            InsertionResult::Split(s) => {
                &&& params.reinsertion_count == 0 || !allow_reinsert
                &&& wf_parent(*final(node), (th + target_height + 1) as nat, *params, false)
                &&& s is Parent
                &&& wf_parent(s->Parent_0, (th + target_height + 1) as nat, *params, false)
                &&& merge(final(node).envelope, s->Parent_0.envelope) == merge(
                    old(node).envelope,
                    node_envelope(t),
                )
                &&& leaves(RTreeNode::Parent(*final(node))).add(leaves(s)) == leaves(
                    RTreeNode::Parent(*old(node)),
                ).add(leaves(t))
            },
            InsertionResult::Reinsert(nodes, d) => {
                &&& allow_reinsert
                &&& params.reinsertion_count > 0
                &&& d <= target_height
                &&& nodes@.len() == params.reinsertion_count
                &&& wf_parent(*final(node), (th + target_height + 1) as nat, *params, is_root)
                &&& children_wf(nodes@, (th + target_height - d) as nat, *params)
                &&& leaves(RTreeNode::Parent(*final(node))).add(leaves_seq(nodes@)) == leaves(
                    RTreeNode::Parent(*old(node)),
                ).add(leaves(t))
            },
        },
    decreases target_height,
{
    let ghost h: nat = (th + target_height + 1) as nat;
    let ghost o = *node;
    proof {
        lemma_wf_parent_unfold(o, h, *params, is_root);
    }
    let t_env = t.envelope();
    node.envelope.merge(&t_env);
    if target_height == 0 {
        node.children.push(t);
        proof {
            lemma_mbr_push(o.children@, t);
            lemma_leaves_push(o.children@, t);
            assert forall|i: int| 0 <= i < node.children@.len() implies wf_node(
                #[trigger] node.children@[i],
                th,
                params.min_size as nat,
                params.max_size as nat,
                false,
            ) by {
                if i < o.children@.len() {
                    assert(node.children@[i] == o.children@[i]);
                }
            }
        }
        let r = resolve_overflow(node, allow_reinsert, params, Ghost(h), Ghost(is_root));
        return r;
    }
    let i = choose_subtree(&node.children, &t_env, target_height == 1);
    let child = node.children.remove(i);
    proof {
        assert(child == o.children@[i as int]);
        assert(wf_node(child, (h - 1) as nat, params.min_size as nat, params.max_size as nat, false));
    }
    match child {
        RTreeNode::Leaf(p) => {
            proof {
                assert(false);
            }
            node.children.insert(i, RTreeNode::Leaf(p));
            InsertionResult::Complete
        },
        RTreeNode::Parent(mut data) => {
            let ghost d0 = data;
            proof {
                lemma_wf_parent_unfold(d0, (h - 1) as nat, *params, false);
                reveal_with_fuel(wf_node, 2);
            }
            let res = recursive_insert(
                &mut data,
                t,
                target_height - 1,
                allow_reinsert,
                params,
                Ghost(th),
                Ghost(false),
            );
            let ghost newc = RTreeNode::Parent(data);
            node.children.insert(i, RTreeNode::Parent(data));
            let ghost upd = o.children@.update(i as int, newc);
            proof {
                assert(node.children@ =~= upd);
                lemma_leaves_update(o.children@, i as int, newc);
                assert(children_wf(upd, (h - 1) as nat, *params)) by {
                    assert forall|j: int| 0 <= j < upd.len() implies wf_node(
                        #[trigger] upd[j],
                        (h - 1) as nat,
                        params.min_size as nat,
                        params.max_size as nat,
                        false,
                    ) by {
                        if j == i {
                            lemma_wf_parent_unfold(data, (h - 1) as nat, *params, false);
                        }
                    }
                }
            }
            match res {
                InsertionResult::Split(c) => {
                    let c_env = c.envelope();
                    node.envelope.merge(&c_env);
                    let ghost before = node.children@;
                    node.children.push(c);
                    proof {
                        lemma_mbr_update(o.children@, i as int, newc, c_env, t_env);
                        lemma_mbr_push(upd, c);
                        lemma_leaves_push(upd, c);
                        lemma_wf_parent_unfold(c->Parent_0, (h - 1) as nat, *params, false);
                        assert forall|j: int| 0 <= j < node.children@.len() implies wf_node(
                            #[trigger] node.children@[j],
                            (h - 1) as nat,
                            params.min_size as nat,
                            params.max_size as nat,
                            false,
                        ) by {
                            if j < upd.len() {
                                assert(node.children@[j] == upd[j]);
                            }
                        }
                        let lo = leaves(o.children@[i as int]);
                        assert forall|v: Point|
                            #[trigger] leaves_seq(node.children@).count(v) == leaves_seq(
                                o.children@,
                            ).add(leaves(t)).count(v) by {
                            assert(leaves_seq(upd).add(lo).count(v) == leaves_seq(o.children@).add(
                                leaves(newc),
                            ).count(v));
                            assert(leaves(newc).add(leaves(c)).count(v) == lo.add(leaves(t)).count(
                                v,
                            ));
                        }
                        assert(leaves_seq(node.children@) =~= leaves_seq(o.children@).add(
                            leaves(t),
                        ));
                    }
                    let r = resolve_overflow(node, allow_reinsert, params, Ghost(h), Ghost(is_root));
                    r
                },
                InsertionResult::Reinsert(nodes, height) => {
                    node.envelope = mbr_for_children(&node.children);
                    proof {
                        let lo = leaves(o.children@[i as int]);
                        assert forall|v: Point|
                            #[trigger] leaves_seq(upd).add(leaves_seq(nodes@)).count(v)
                                == leaves_seq(o.children@).add(leaves(t)).count(v) by {
                            assert(leaves_seq(upd).add(lo).count(v) == leaves_seq(o.children@).add(
                                leaves(newc),
                            ).count(v));
                            assert(leaves(newc).add(leaves_seq(nodes@)).count(v) == lo.add(
                                leaves(t),
                            ).count(v));
                        }
                        assert(leaves_seq(upd).add(leaves_seq(nodes@)) =~= leaves_seq(
                            o.children@,
                        ).add(leaves(t)));
                        lemma_wf_parent_unfold(*node, h, *params, is_root);
                    }
                    InsertionResult::Reinsert(nodes, height + 1)
                },
                InsertionResult::Complete => {
                    proof {
                        lemma_mbr_update(o.children@, i as int, newc, crate::envelope::empty_aabb(), t_env);
                        lemma_merge_empty(mbr_of(upd));
                        let lo = leaves(o.children@[i as int]);
                        assert forall|v: Point|
                            #[trigger] leaves_seq(upd).count(v) == leaves_seq(o.children@).add(
                                leaves(t),
                            ).count(v) by {
                            assert(leaves_seq(upd).add(lo).count(v) == leaves_seq(o.children@).add(
                                leaves(newc),
                            ).count(v));
                        }
                        assert(leaves_seq(upd) =~= leaves_seq(o.children@).add(leaves(t)));
                        lemma_wf_parent_unfold(*node, h, *params, is_root);
                    }
                    InsertionResult::Complete
                },
            }
        },
    }
}


/// The stack of nodes waiting for insertion: node, its height, and whether it
/// may still cause a forced reinsertion.
pub open spec fn stack_leaves(s: Seq<(RTreeNode, usize, bool)>) -> Multiset<Point>
    decreases s.len(),
{
    if s.len() == 0 {
        Multiset::empty()
    } else {
        stack_leaves(s.drop_last()).add(leaves(s.last().0))
    }
}

pub open spec fn count_allowed(s: Seq<(RTreeNode, usize, bool)>) -> nat
    decreases s.len(),
{
    if s.len() == 0 {
        0
    } else {
        count_allowed(s.drop_last()) + if s.last().2 {
            1nat
        } else {
            0nat
        }
    }
}

pub open spec fn count_true(s: Seq<bool>) -> nat
    decreases s.len(),
{
    if s.len() == 0 {
        0
    } else {
        count_true(s.drop_last()) + if s.last() {
            1nat
        } else {
            0nat
        }
    }
}

proof fn lemma_count_true_clear(s: Seq<bool>, i: int)
    requires
        0 <= i < s.len(),
    ensures
        count_true(s.update(i, false)) + (if s[i] { 1int } else { 0int }) == count_true(s),
    decreases s.len(),
{
    let t = s.update(i, false);
    if i == s.len() - 1 {
        assert(t.drop_last() =~= s.drop_last());
    } else {
        assert(t.drop_last() =~= s.drop_last().update(i, false));
        lemma_count_true_clear(s.drop_last(), i);
    }
}

/// Pushes `nodes`, in their order, onto the work stack. The stack hands them
/// out last first, so the farthest of the detached nodes goes back in first.
fn schedule(
    stack: &mut Vec<(RTreeNode, usize, bool)>,
    nodes: Vec<RTreeNode>,
    level: usize,
    can_reinsert: bool,
)
    ensures
        final(stack)@.len() == old(stack)@.len() + nodes@.len(),
        forall|k: int| 0 <= k < old(stack)@.len() ==> final(stack)@[k] == old(stack)@[k],
        forall|k: int|
            old(stack)@.len() <= k < final(stack)@.len() ==> final(stack)@[k] == (
                nodes@[k - old(stack)@.len()],
                level,
                can_reinsert,
            ),
        stack_leaves(final(stack)@) == stack_leaves(old(stack)@).add(leaves_seq(nodes@)),
        count_allowed(final(stack)@) == count_allowed(old(stack)@) + if can_reinsert {
            nodes@.len()
        } else {
            0
        },
{
    let ghost s0 = stack@;
    let ghost n0 = nodes@;
    let mut nodes = nodes;
    while nodes.len() > 0
        invariant
            stack@.len() + nodes@.len() == s0.len() + n0.len(),
            forall|k: int| 0 <= k < s0.len() ==> stack@[k] == s0[k],
            forall|k: int| 0 <= k < nodes@.len() ==> nodes@[k] == n0[k + stack@.len() - s0.len()],
            s0.len() <= stack@.len(),
            forall|k: int|
                s0.len() <= k < stack@.len() ==> stack@[k] == (n0[k - s0.len()], level, can_reinsert),
            stack_leaves(stack@).add(leaves_seq(nodes@)) == stack_leaves(s0).add(leaves_seq(n0)),
            count_allowed(stack@) == count_allowed(s0) + if can_reinsert {
                (stack@.len() - s0.len()) as nat
            } else {
                0
            },
        decreases nodes@.len(),
    {
        let ghost st = stack@;
        let ghost ns = nodes@;
        let n = nodes.remove(0);
        stack.push((n, level, can_reinsert));
        proof {
            assert(stack@.drop_last() =~= st);
            lemma_leaves_remove(ns, 0);
            assert(stack_leaves(stack@).add(leaves_seq(nodes@)) =~= stack_leaves(st).add(
                leaves_seq(ns),
            ));
        }
    }
    proof {
        assert(leaves_seq(nodes@) =~= Multiset::empty());
        assert(stack_leaves(stack@) =~= stack_leaves(stack@).add(leaves_seq(nodes@)));
    }
}

/// What is left to do in one insertion, as a number that every step lowers.
pub open spec fn potential(s: Seq<(RTreeNode, usize, bool)>, flags: Seq<bool>, rc: int) -> int {
    s.len() + rc * count_allowed(s) + rc * (rc + 1) * count_true(flags)
}

/// A tree of points: the root (an inner node, possibly empty), its height
/// (0 when empty, 1 when the root holds the points themselves), and the
/// number of points stored.
pub struct RTree {
    pub root: ParentNodeData,
    pub size: usize,
    pub height: usize,
    pub params: RTreeParams,
}

pub open spec fn tree_leaves(t: RTree) -> Multiset<Point> {
    leaves(RTreeNode::Parent(t.root))
}

pub open spec fn wf_tree(t: RTree) -> bool {
    &&& valid_params(t.params)
    &&& t.size == 0 ==> t.root.children@.len() == 0 && t.root.envelope == empty_aabb()
    &&& t.height == 0 ==> t.size == 0
    &&& t.height > 0 ==> wf_parent(t.root, t.height as nat, t.params, true)
    &&& t.height > 1 ==> t.root.children@.len() > 0
    &&& tree_leaves(t).len() == t.size
}

impl RTree {
    /// An empty tree with the default sizes.
    pub fn new() -> (r: RTree)
        ensures
            wf_tree(r),
            r.size == 0,
            r.height == 0,
            r.params == (RTreeParams { min_size: 3, max_size: 6, reinsertion_count: 2 }),
            tree_leaves(r) == Multiset::<Point>::empty(),
    {
        RTree::new_with_params(RTreeParams::default_params())
    }

    /// An empty tree with the given sizes.
    pub fn new_with_params(params: RTreeParams) -> (r: RTree)
        requires
            valid_params(params),
        ensures
            wf_tree(r),
            r.size == 0,
            r.height == 0,
            r.params == params,
            tree_leaves(r) == Multiset::<Point>::empty(),
    {
        let r = RTree { root: ParentNodeData::new_root(), size: 0, height: 0, params };
        proof {
            assert(tree_leaves(r) =~= Multiset::<Point>::empty());
        }
        r
    }

    pub fn size(&self) -> (r: usize)
        ensures
            r == self.size,
    {
        self.size
    }

    pub fn height(&self) -> (r: usize)
        ensures
            r == self.height,
    {
        self.height
    }

    pub fn root(&self) -> (r: &ParentNodeData)
        ensures
            *r == self.root,
    {
        &self.root
    }

    /// Inserts a point with the R* strategy.
    pub fn insert(&mut self, t: Point)
        requires
            wf_tree(*old(self)),
            old(self).size < usize::MAX,
            height_bound(*old(self)) < usize::MAX,
        ensures
            wf_tree(*final(self)),
            final(self).size == old(self).size + 1,
            final(self).params == old(self).params,
            tree_leaves(*final(self)) == tree_leaves(*old(self)).insert(t),
            old(self).height <= final(self).height,
            final(self).height < height_bound(*old(self)),
            old(self).size == 0 ==> {
                &&& final(self).height == 1
                &&& final(self).root.children@ == seq![RTreeNode::Leaf(t)]
                &&& final(self).root.envelope == crate::envelope::point_aabb(t)
            },
    {
        RStarInsertionStrategy::insert(self, t)
    }

    /// Inserts `t` where the size and height limits of `insert` hold, and
    /// says whether it did; otherwise the tree is left as it was.
    pub fn try_insert(&mut self, t: Point) -> (r: bool)
        requires
            wf_tree(*old(self)),
        ensures
            r == (old(self).size < usize::MAX && height_bound(*old(self)) < usize::MAX),
            !r ==> *final(self) == *old(self),
            r ==> {
                &&& wf_tree(*final(self))
                &&& final(self).size == old(self).size + 1
                &&& final(self).params == old(self).params
                &&& tree_leaves(*final(self)) == tree_leaves(*old(self)).insert(t)
                &&& old(self).height <= final(self).height
                &&& final(self).height < height_bound(*old(self))
            },
    {
        if self.size == usize::MAX {
            return false;
        }
        let h: u128 = if self.height == 0 {
            1
        } else {
            self.height as u128
        };
        let rc: u128 = self.params.reinsertion_count as u128;
        assert(rc * (rc + 1) <= 0x1000_0000_0000_0000) by (nonlinear_arith)
            requires
                rc < 0x4000_0000,
        ;
        assert(rc * (rc + 1) * h <= 0x1000_0000_0000_0000 * 0x1_0000_0000_0000_0000)
            by (nonlinear_arith)
            requires
                rc * (rc + 1) <= 0x1000_0000_0000_0000,
                h <= 0x1_0000_0000_0000_0000,
        ;
        let bound: u128 = h + 2 + rc + rc * (rc + 1) * h;
        if bound >= usize::MAX as u128 {
            return false;
        }
        RStarInsertionStrategy::insert(self, t);
        true
    }

    /// A stored point nearest to `query_point`, or `None` on an empty tree.
    pub fn nearest_neighbor<'a>(&'a self, query_point: &Point) -> (r: Option<&'a Point>)
        requires
            wf_tree(*self),
        ensures
            r is None <==> tree_leaves(*self) == Multiset::<Point>::empty(),
            r matches Some(p) ==> {
                &&& tree_leaves(*self).contains(*p)
                &&& forall|w: Point|
                    #[trigger] tree_leaves(*self).contains(w) ==> point_distance_2(
                        *p,
                        *query_point,
                    ) <= point_distance_2(w, *query_point)
            },
    {
        proof {
            if self.height > 0 {
                lemma_wf_parent_unfold(self.root, self.height as nat, self.params, true);
                assert forall|j: int| 0 <= j < self.root.children@.len() implies crate::node::searchable(
                    #[trigger] self.root.children@[j],
                ) by {
                    crate::node::lemma_wf_searchable(
                        self.root.children@[j],
                        (self.height - 1) as nat,
                        self.params.min_size as nat,
                        self.params.max_size as nat,
                    );
                }
            }
        }
        nearest_neighbor(&self.root, query_point)
    }

    /// The stored points, nearest to `query_point` first.
    pub fn nearest_neighbor_iter<'a>(&'a self, query_point: &Point) -> (r: NearestNeighborIterator<'a>)
        requires
            wf_tree(*self),
        ensures
            r.wf(),
            r.query_point == *query_point,
            r.remaining() == tree_leaves(*self),
    {
        proof {
            if self.height > 0 {
                crate::node::lemma_wf_holds_leaves(
                    RTreeNode::Parent(self.root),
                    self.height as nat,
                    self.params.min_size as nat,
                    self.params.max_size as nat,
                    true,
                );
            } else {
                assert(leaves(RTreeNode::Parent(self.root)) =~= Multiset::empty());
            }
        }
        nearest_neighbor_iter(&self.root, query_point)
    }
}

/// The points held after inserting the points of `s`, one after another, into
/// a tree that held `m`: each insertion adds its point once (see `insert`).
pub open spec fn after_insertions(m: Multiset<Point>, s: Seq<Point>) -> Multiset<Point>
    decreases s.len(),
{
    if s.len() == 0 {
        m
    } else {
        after_insertions(m, s.drop_last()).insert(s.last())
    }
}

proof fn lemma_after_insertions(m: Multiset<Point>, s: Seq<Point>)
    ensures
        after_insertions(m, s) == m.add(s.to_multiset()),
    decreases s.len(),
{
    broadcast use vstd::seq_lib::group_to_multiset_ensures;

    if s.len() == 0 {
        assert(s.to_multiset() =~= Multiset::empty());
        assert(m.add(s.to_multiset()) =~= m);
    } else {
        lemma_after_insertions(m, s.drop_last());
        assert(s.drop_last().push(s.last()) =~= s);
        assert(after_insertions(m, s) =~= m.add(s.to_multiset()));
    }
}

/// Inserting the same points in any order leaves the same points in the
/// tree: the shape may differ, the contents do not.
pub proof fn lemma_insertion_order_irrelevant(m: Multiset<Point>, a: Seq<Point>, b: Seq<Point>)
    requires
        a.to_multiset() == b.to_multiset(),
    ensures
        after_insertions(m, a) == after_insertions(m, b),
        after_insertions(m, a) == m.add(a.to_multiset()),
{
    lemma_after_insertions(m, a);
    lemma_after_insertions(m, b);
}

/// In every tree that the library builds, each inner node stores exactly the
/// envelope that a bottom-up recomputation from the points gives.
pub proof fn lemma_tree_envelopes_recompute(t: RTree)
    requires
        wf_tree(t),
    ensures
        crate::node::computed_envelope(RTreeNode::Parent(t.root)) == t.root.envelope,
{
    if t.height > 0 {
        crate::node::lemma_recomputed_envelope(
            RTreeNode::Parent(t.root),
            t.height as nat,
            t.params.min_size as nat,
            t.params.max_size as nat,
            true,
        );
    } else {
        assert(crate::node::computed_envelope(RTreeNode::Parent(t.root)) == empty_aabb());
    }
}

/// An upper bound on the height that one insertion into `t` can reach.
pub open spec fn height_bound(t: RTree) -> int {
    let h: int = if t.height == 0 { 1 } else { t.height as int };
    let rc = t.params.reinsertion_count as int;
    h + 2 + rc + rc * (rc + 1) * h
}

/// The R*-tree insertion strategy: a marker that names the algorithm.
pub enum RStarInsertionStrategy {
    RStar,
}

impl RStarInsertionStrategy {
    /// Inserts `t` into `tree`. Nodes handed back for reinsertion are
    /// inserted again from the top; each level may hand nodes back only once
    /// per call.
    pub fn insert(tree: &mut RTree, t: Point)
        requires
            wf_tree(*old(tree)),
            old(tree).size < usize::MAX,
            height_bound(*old(tree)) < usize::MAX,
        ensures
            wf_tree(*final(tree)),
            final(tree).size == old(tree).size + 1,
            final(tree).params == old(tree).params,
            tree_leaves(*final(tree)) == tree_leaves(*old(tree)).insert(t),
            old(tree).height <= final(tree).height,
            final(tree).height < height_bound(*old(tree)),
            old(tree).size == 0 ==> {
                &&& final(tree).height == 1
                &&& final(tree).root.children@ == seq![RTreeNode::Leaf(t)]
                &&& final(tree).root.envelope == crate::envelope::point_aabb(t)
            },
    {
        let ghost old_leaves = tree_leaves(*tree);
        if tree.size == 0 {
            // An empty root becomes the leaf level and is not split by this insertion.
            tree.height = 1;
        }
        let params = tree.params;
        let ghost rc = params.reinsertion_count as int;
        let mut tree_height = tree.height;
        let ghost h0 = tree_height as int;
        proof {
            if old(tree).size == 0 {
                lemma_wf_parent_unfold(tree.root, 1, params, true);
            }
        }
        let mut insertion_stack: Vec<(RTreeNode, usize, bool)> = Vec::new();
        insertion_stack.push((RTreeNode::Leaf(t), 0, true));
        let mut reinsertions: Vec<bool> = Vec::new();
        while reinsertions.len() < tree_height
            invariant
                reinsertions@.len() <= tree_height,
                count_true(reinsertions@) == reinsertions@.len(),
            decreases tree_height - reinsertions@.len(),
        {
            let ghost r0 = reinsertions@;
            reinsertions.push(true);
            proof {
                assert(reinsertions@.drop_last() =~= r0);
            }
        }
        proof {
            let hb: int = if old(tree).height == 0 { 1 } else { old(tree).height as int };
            assert(h0 <= hb);
            assert(rc * (rc + 1) * h0 <= rc * (rc + 1) * hb) by (nonlinear_arith)
                requires
                    0 <= rc,
                    h0 <= hb,
            ;
            let s = insertion_stack@;
            assert(s.drop_last() =~= Seq::<(RTreeNode, usize, bool)>::empty());
            assert(s.last() == (RTreeNode::Leaf(t), 0usize, true));
            assert(stack_leaves(s.drop_last()) == Multiset::<Point>::empty());
            assert(count_allowed(s.drop_last()) == 0);
            assert(leaves(RTreeNode::Leaf(t)) == Multiset::singleton(t));
            assert(stack_leaves(s) =~= Multiset::singleton(t));
            assert(count_allowed(s) == 1);
            assert(tree_leaves(*tree).add(stack_leaves(s)) =~= old_leaves.insert(t));
        }
        while insertion_stack.len() > 0
            invariant
                valid_params(params),
                tree.params == params,
                rc == params.reinsertion_count,
                tree.height == tree_height,
                tree.size == old(tree).size,
                old(tree).size < usize::MAX,
                tree_height >= 1,
                h0 <= tree_height,
                wf_parent(tree.root, tree_height as nat, params, true),
                tree_height > 1 ==> tree.root.children@.len() > 0,
                forall|k: int|
                    0 <= k < insertion_stack@.len() ==> (#[trigger] insertion_stack@[k]).1
                        < tree_height && wf_node(
                        insertion_stack@[k].0,
                        insertion_stack@[k].1 as nat,
                        params.min_size as nat,
                        params.max_size as nat,
                        false,
                    ),
                tree_leaves(*tree).add(stack_leaves(insertion_stack@)) == old_leaves.insert(t),
                reinsertions@.len() == h0,
                tree_height + potential(insertion_stack@, reinsertions@, rc) <= h0 + 1 + rc + rc
                    * (rc + 1) * h0,
                h0 + 2 + rc + rc * (rc + 1) * h0 < usize::MAX,
                h0 + 2 + rc + rc * (rc + 1) * h0 <= height_bound(*old(tree)),
                old(tree).size == 0 ==> {
                    &&& tree_height == 1
                    &&& insertion_stack@.len() <= 1
                    &&& insertion_stack@.len() == 1 ==> insertion_stack@[0] == (
                        RTreeNode::Leaf(t),
                        0usize,
                        true,
                    ) && tree.root.children@.len() == 0
                    &&& insertion_stack@.len() == 0 ==> tree.root.children@ == seq![
                        RTreeNode::Leaf(t),
                    ]
                },
            decreases potential(insertion_stack@, reinsertions@, rc),
        {
            let ghost s0 = insertion_stack@;
            let ghost f0 = reinsertions@;
            let ghost root0 = tree.root;
            let (next, node_height, can_reinsert) = insertion_stack.pop().unwrap();
            proof {
                assert(s0.drop_last() =~= insertion_stack@);
                assert(s0[s0.len() - 1] == (next, node_height, can_reinsert));
                let ca = count_allowed(insertion_stack@) as int;
                assert(count_allowed(s0) == ca + if can_reinsert { 1int } else { 0int });
                assert(rc * (ca + 1) == rc * ca + rc) by (nonlinear_arith);
                assert(potential(s0, f0, rc) == potential(insertion_stack@, f0, rc) + 1 + if can_reinsert {
                    rc
                } else {
                    0
                });
                assert(0 <= rc * ca) by (nonlinear_arith)
                    requires
                        0 <= rc,
                        0 <= ca,
                ;
            }
            let res = recursive_insert(
                &mut tree.root,
                next,
                tree_height - node_height - 1,
                can_reinsert,
                &params,
                Ghost(node_height as nat),
                Ghost(true),
            );
            match res {
                InsertionResult::Split(node) => {
                    // The root was split: a new root holds both halves, one level higher.
                    tree_height = tree_height + 1;
                    let mut old_root = ParentNodeData::new_root();
                    std::mem::swap(&mut old_root, &mut tree.root);
                    tree.height = tree_height;
                    let new_mbr = old_root.envelope.merged(&node.envelope());
                    tree.root.envelope = new_mbr;
                    tree.root.children.push(RTreeNode::Parent(old_root));
                    tree.root.children.push(node);
                    proof {
                        let c = tree.root.children@;
                        assert(c.drop_last().drop_last() =~= Seq::<RTreeNode>::empty());
                        lemma_merge_empty(old_root.envelope);
                        lemma_leaves_push(c.drop_last(), node);
                        lemma_leaves_push(c.drop_last().drop_last(), RTreeNode::Parent(old_root));
                        assert(c.drop_last() =~= seq![RTreeNode::Parent(old_root)]);
                        assert(c =~= seq![RTreeNode::Parent(old_root)].push(node));
                        assert(leaves_seq(c.drop_last()) =~= leaves(RTreeNode::Parent(old_root)));
                        assert(children_wf(c, (tree_height - 1) as nat, params));
                        lemma_mbr_push(Seq::<RTreeNode>::empty(), RTreeNode::Parent(old_root));
                        assert(Seq::<RTreeNode>::empty().push(RTreeNode::Parent(old_root)) =~= seq![
                            RTreeNode::Parent(old_root),
                        ]);
                        lemma_mbr_push(seq![RTreeNode::Parent(old_root)], node);
                        lemma_merge_empty(node_envelope(RTreeNode::Parent(old_root)));
                        lemma_wf_parent_unfold(tree.root, tree_height as nat, params, true);
                        assert forall|v: Point|
                            #[trigger] tree_leaves(*tree).add(stack_leaves(insertion_stack@)).count(
                                v,
                            ) == old_leaves.insert(t).count(v) by {
                            assert(tree_leaves(*tree).count(v) == leaves(
                                RTreeNode::Parent(old_root),
                            ).count(v) + leaves(node).count(v));
                        }
                        assert(tree_leaves(*tree).add(stack_leaves(insertion_stack@))
                            =~= old_leaves.insert(t));
                    }
                },
                InsertionResult::Reinsert(nodes, height) => {
                    let node_height = tree_height - height - 1;
                    // Levels added by a root split during this call have no flag:
                    // nodes handed back from there may not cause reinsertion again.
                    let mut can_reinsert = false;
                    if node_height < reinsertions.len() {
                        can_reinsert = reinsertions[node_height];
                        reinsertions.set(node_height, false);
                        proof {
                            lemma_count_true_clear(f0, node_height as int);
                        }
                    }
                    let ghost f1 = reinsertions@;
                    proof {
                        assert(can_reinsert ==> count_true(f1) + 1 == count_true(f0));
                        assert(count_true(f1) <= count_true(f0));
                    }
                    // Schedule elements for reinsertion
                    let ghost sd = insertion_stack@;
                    schedule(&mut insertion_stack, nodes, node_height, can_reinsert);
                    proof {
                        let ca = count_allowed(sd) as int;
                        let n = rc;
                        assert(rc * (ca + if can_reinsert { n } else { 0 }) == rc * ca + if can_reinsert {
                            rc * n
                        } else {
                            0
                        }) by (nonlinear_arith);
                        assert(rc * rc <= rc * (rc + 1) * 1) by (nonlinear_arith)
                            requires
                                0 <= rc,
                        ;
                        assert forall|k: int| 0 <= k < insertion_stack@.len() implies (
                        #[trigger] insertion_stack@[k]).1 < tree_height && wf_node(
                            insertion_stack@[k].0,
                            insertion_stack@[k].1 as nat,
                            params.min_size as nat,
                            params.max_size as nat,
                            false,
                        ) by {
                            if k < sd.len() {
                                assert(insertion_stack@[k] == sd[k]);
                            } else {
                                assert(insertion_stack@[k].0 == nodes@[k - sd.len()]);
                            }
                        }
                        assert forall|v: Point|
                            #[trigger] tree_leaves(*tree).add(stack_leaves(insertion_stack@)).count(
                                v,
                            ) == old_leaves.insert(t).count(v) by {
                            assert(tree_leaves(*tree).add(leaves_seq(nodes@)).count(v) == leaves(
                                RTreeNode::Parent(root0),
                            ).add(leaves(next)).count(v));
                            assert(stack_leaves(s0).count(v) == stack_leaves(sd).count(v) + leaves(
                                next,
                            ).count(v));
                            assert(leaves(RTreeNode::Parent(root0)).add(stack_leaves(s0)).count(v)
                                == old_leaves.insert(t).count(v));
                        }
                        assert(tree_leaves(*tree).add(stack_leaves(insertion_stack@))
                            =~= old_leaves.insert(t));
                        let ct1 = count_true(f1) as int;
                        let ct0 = count_true(f0) as int;
                        let cs = count_allowed(sd) as int;
                        let k = rc * (rc + 1);
                        assert(k * ct1 <= k * ct0) by (nonlinear_arith)
                            requires
                                ct1 <= ct0,
                                0 <= k,
                        ;
                        assert(can_reinsert ==> k * ct1 + k == k * ct0) by (nonlinear_arith)
                            requires
                                can_reinsert ==> ct1 + 1 == ct0,
                        ;
                        assert(rc * (cs + rc) == rc * cs + rc * rc) by (nonlinear_arith);
                        assert(k == rc * rc + rc) by (nonlinear_arith)
                            requires
                                k == rc * (rc + 1),
                        ;
                        assert(potential(insertion_stack@, reinsertions@, rc) + 1 <= potential(
                            s0,
                            f0,
                            rc,
                        ));
                    }
                },
                InsertionResult::Complete => {
                    proof {
                        if old(tree).size == 0 {
                            assert(tree.root.children@ =~= seq![RTreeNode::Leaf(t)]);
                        }
                    }
                },
            }
        }
        tree.size = tree.size + 1;
        proof {
            assert(insertion_stack@ =~= Seq::<(RTreeNode, usize, bool)>::empty());
            assert(tree_leaves(*tree) =~= tree_leaves(*tree).add(stack_leaves(insertion_stack@)));
            lemma_wf_parent_unfold(tree.root, tree.height as nat, params, true);
            let ca = count_allowed(insertion_stack@) as int;
            let ct = count_true(reinsertions@) as int;
            assert(0 <= rc * ca + rc * (rc + 1) * ct) by (nonlinear_arith)
                requires
                    0 <= rc,
                    0 <= ca,
                    0 <= ct,
            ;
            if old(tree).size == 0 {
                let c = tree.root.children@;
                assert(c.drop_last() =~= Seq::<RTreeNode>::empty());
                lemma_mbr_push(c.drop_last(), RTreeNode::Leaf(t));
                assert(c.drop_last().push(RTreeNode::Leaf(t)) =~= c);
                lemma_merge_empty(crate::envelope::point_aabb(t));
            }
        }
    }
}

} // verus!
