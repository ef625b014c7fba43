use vstd::prelude::*;
use vstd::multiset::Multiset;
use crate::envelope::{
    contains_point, distance_2, empty_aabb, far_edge_2, from_point, gap, merge, min_max_dist_2,
    near_edge_2, new_empty, point_aabb, point_distance_2, sq, Aabb, Point,
};

verus! {

broadcast use vstd::multiset::group_multiset_axioms;

/// A node of the tree: a stored point, or an inner node with its bounding
/// rectangle and its children.
pub enum RTreeNode {
    Leaf(Point),
    Parent(ParentNodeData),
}

pub struct ParentNodeData {
    pub envelope: Aabb,
    pub children: Vec<RTreeNode>,
}

pub open spec fn node_envelope(n: RTreeNode) -> Aabb {
    match n {
        RTreeNode::Leaf(p) => point_aabb(p),
        RTreeNode::Parent(d) => d.envelope,
    }
}

/// The merge of the envelopes of a sequence of nodes.
pub open spec fn mbr_of(s: Seq<RTreeNode>) -> Aabb
    decreases s.len(),
{
    if s.len() == 0 {
        empty_aabb()
    } else {
        merge(mbr_of(s.drop_last()), node_envelope(s.last()))
    }
}

/// The points stored below a node, with their multiplicities.
pub open spec fn leaves(n: RTreeNode) -> Multiset<Point>
    decreases n, 0nat,
{
    match n {
        RTreeNode::Leaf(p) => Multiset::singleton(p),
        RTreeNode::Parent(d) => leaves_upto(d.children@, d.children@.len() as nat),
    }
}

/// The points stored below the first `k` nodes of `s`.
pub open spec fn leaves_upto(s: Seq<RTreeNode>, k: nat) -> Multiset<Point>
    decreases s, k,
{
    if k == 0 || k > s.len() {
        Multiset::empty()
    } else {
        leaves_upto(s, (k - 1) as nat).add(leaves(s[k - 1]))
    }
}

/// The number of nodes in the subtree of `n`.
pub open spec fn node_count(n: RTreeNode) -> nat
    decreases n, 0nat,
{
    match n {
        RTreeNode::Leaf(_) => 1,
        RTreeNode::Parent(d) => 1 + count_upto(d.children@, d.children@.len() as nat),
    }
}

pub open spec fn count_upto(s: Seq<RTreeNode>, k: nat) -> nat
    decreases s, k,
{
    if k == 0 || k > s.len() {
        0
    } else {
        count_upto(s, (k - 1) as nat) + node_count(s[k - 1])
    }
}

pub open spec fn count_seq(s: Seq<RTreeNode>) -> nat {
    count_upto(s, s.len())
}

proof fn lemma_count_prefix(s: Seq<RTreeNode>, t: Seq<RTreeNode>, k: nat)
    requires
        k <= s.len(),
        k <= t.len(),
        forall|j: int| 0 <= j < k ==> s[j] == t[j],
    ensures
        count_upto(s, k) == count_upto(t, k),
    decreases k,
{
    if k > 0 {
        lemma_count_prefix(s, t, (k - 1) as nat);
    }
}

pub proof fn lemma_count_push(s: Seq<RTreeNode>, c: RTreeNode)
    ensures
        count_seq(s.push(c)) == count_seq(s) + node_count(c),
{
    lemma_count_prefix(s, s.push(c), s.len());
}

pub proof fn lemma_count_remove(s: Seq<RTreeNode>, j: int)
    requires
        0 <= j < s.len(),
    ensures
        count_seq(s.remove(j)) + node_count(s[j]) == count_seq(s),
    decreases s.len(),
{
    let t = s.remove(j);
    lemma_count_push(s.drop_last(), s.last());
    assert(s.drop_last().push(s.last()) =~= s);
    if j == s.len() - 1 {
        assert(t =~= s.drop_last());
    } else {
        assert(t =~= s.drop_last().remove(j).push(s.last()));
        lemma_count_remove(s.drop_last(), j);
        lemma_count_push(s.drop_last().remove(j), s.last());
    }
}

pub open spec fn leaves_seq(s: Seq<RTreeNode>) -> Multiset<Point> {
    leaves_upto(s, s.len())
}

/// A node of height `h` (a leaf has height 0) whose inner nodes all hold the
/// merge of their children's envelopes, and whose leaves all lie `h` levels
/// below it. Inner nodes other than `n` itself hold between `min_size` and
/// `max_size` children.
pub open spec fn wf_node(n: RTreeNode, h: nat, min_size: nat, max_size: nat, is_root: bool) -> bool
    decreases n,
{
    match n {
        RTreeNode::Leaf(_) => h == 0,
        RTreeNode::Parent(d) => {
            &&& h > 0
            &&& d.envelope == mbr_of(d.children@)
            &&& is_root || (min_size <= d.children@.len() <= max_size)
            &&& forall|i: int|
                0 <= i < d.children@.len() ==> wf_node(
                    #[trigger] d.children@[i],
                    (h - 1) as nat,
                    min_size,
                    max_size,
                    false,
                )
        },
    }
}

pub proof fn lemma_merge_empty(a: Aabb)
    ensures
        merge(a, empty_aabb()) == a,
        merge(empty_aabb(), a) == a,
{
}

/// Replacing one node of `s` by one whose envelope, merged with `y`, equals
/// the old envelope merged with `e` changes the merge of the whole sequence
/// in the same way.
pub proof fn lemma_mbr_update(s: Seq<RTreeNode>, i: int, c: RTreeNode, y: Aabb, e: Aabb)
    requires
        0 <= i < s.len(),
        merge(node_envelope(c), y) == merge(node_envelope(s[i]), e),
    ensures
        merge(mbr_of(s.update(i, c)), y) == merge(mbr_of(s), e),
    decreases s.len(),
{
    let t = s.update(i, c);
    if i == s.len() - 1 {
        assert(t.drop_last() =~= s.drop_last());
    } else {
        assert(t.drop_last() =~= s.drop_last().update(i, c));
        lemma_mbr_update(s.drop_last(), i, c, y, e);
    }
}

pub proof fn lemma_mbr_push(s: Seq<RTreeNode>, c: RTreeNode)
    ensures
        mbr_of(s.push(c)) == merge(mbr_of(s), node_envelope(c)),
{
    assert(s.push(c).drop_last() =~= s);
}

/// `leaves_upto` looks at the first `k` nodes only.
pub proof fn lemma_leaves_prefix(s: Seq<RTreeNode>, t: Seq<RTreeNode>, k: nat)
    requires
        k <= s.len(),
        k <= t.len(),
        forall|j: int| 0 <= j < k ==> s[j] == t[j],
    ensures
        leaves_upto(s, k) == leaves_upto(t, k),
    decreases k,
{
    if k > 0 {
        lemma_leaves_prefix(s, t, (k - 1) as nat);
    }
}

pub proof fn lemma_leaves_push(s: Seq<RTreeNode>, c: RTreeNode)
    ensures
        leaves_seq(s.push(c)) == leaves_seq(s).add(leaves(c)),
{
    lemma_leaves_prefix(s, s.push(c), s.len());
}

pub proof fn lemma_leaves_update(s: Seq<RTreeNode>, i: int, c: RTreeNode)
    requires
        0 <= i < s.len(),
    ensures
        leaves_seq(s.update(i, c)).add(leaves(s[i])) == leaves_seq(s).add(leaves(c)),
    decreases s.len(),
{
    let t = s.update(i, c);
    let n = s.len() - 1;
    lemma_leaves_push(s.drop_last(), s.last());
    assert(s.drop_last().push(s.last()) =~= s);
    lemma_leaves_push(t.drop_last(), t.last());
    assert(t.drop_last().push(t.last()) =~= t);
    if i == n {
        assert(t.drop_last() =~= s.drop_last());
        assert(leaves_seq(t).add(leaves(s[i])) =~= leaves_seq(s).add(leaves(c)));
    } else {
        assert(t.drop_last() =~= s.drop_last().update(i, c));
        lemma_leaves_update(s.drop_last(), i, c);
        assert(s.drop_last()[i] == s[i]);
        assert(t.last() == s.last());
        let lt = leaves_seq(t.drop_last());
        let ls = leaves_seq(s.drop_last());
        assert(leaves_seq(t) == lt.add(leaves(s.last())));
        assert(leaves_seq(s) == ls.add(leaves(s.last())));
        assert(lt.add(leaves(s[i])) == ls.add(leaves(c)));
        assert forall|v: Point|
            #[trigger] leaves_seq(t).add(leaves(s[i])).count(v) == leaves_seq(s).add(
                leaves(c),
            ).count(v) by {
            assert(lt.add(leaves(s[i])).count(v) == ls.add(leaves(c)).count(v));
        }
        assert(leaves_seq(t).add(leaves(s[i])) =~= leaves_seq(s).add(leaves(c)));
    }
}

pub proof fn lemma_leaves_remove(s: Seq<RTreeNode>, j: int)
    requires
        0 <= j < s.len(),
    ensures
        leaves_seq(s.remove(j)).add(leaves(s[j])) == leaves_seq(s),
    decreases s.len(),
{
    let t = s.remove(j);
    lemma_leaves_push(s.drop_last(), s.last());
    assert(s.drop_last().push(s.last()) =~= s);
    if j == s.len() - 1 {
        assert(t =~= s.drop_last());
    } else {
        assert(t =~= s.drop_last().remove(j).push(s.last()));
        lemma_leaves_remove(s.drop_last(), j);
        lemma_leaves_push(s.drop_last().remove(j), s.last());
        assert(leaves_seq(t).add(leaves(s[j])) =~= leaves_seq(s));
    }
}

pub proof fn lemma_leaves_split(s: Seq<RTreeNode>, k: int)
    requires
        0 <= k <= s.len(),
    ensures
        leaves_seq(s) == leaves_seq(s.subrange(0, k)).add(leaves_seq(s.subrange(k, s.len() as int))),
    decreases s.len() - k,
{
    if k == s.len() {
        assert(s.subrange(0, k) =~= s);
        assert(s.subrange(k, s.len() as int) =~= Seq::<RTreeNode>::empty());
        assert(leaves_seq(s) =~= leaves_seq(s).add(Multiset::empty()));
    } else {
        lemma_leaves_split(s, k + 1);
        let a = s.subrange(0, k);
        let b = s.subrange(k, s.len() as int);
        assert(s.subrange(0, k + 1) =~= a.push(s[k]));
        lemma_leaves_push(a, s[k]);
        lemma_leaves_remove(b, 0);
        assert(b.remove(0) =~= s.subrange(k + 1, s.len() as int));
        assert(leaves_seq(s) =~= leaves_seq(a).add(leaves_seq(b)));
    }
}

pub proof fn lemma_mbr_remove(s: Seq<RTreeNode>, j: int)
    requires
        0 <= j < s.len(),
    ensures
        merge(mbr_of(s.remove(j)), node_envelope(s[j])) == mbr_of(s),
    decreases s.len(),
{
    let t = s.remove(j);
    if j < s.len() - 1 {
        assert(t.drop_last() =~= s.drop_last().remove(j));
        assert(t.last() == s.last());
        lemma_mbr_remove(s.drop_last(), j);
    } else {
        assert(t =~= s.drop_last());
    }
}

pub proof fn lemma_mbr_split(s: Seq<RTreeNode>, k: int)
    requires
        0 <= k <= s.len(),
    ensures
        merge(mbr_of(s.subrange(0, k)), mbr_of(s.subrange(k, s.len() as int))) == mbr_of(s),
    decreases s.len() - k,
{
    let a = s.subrange(0, k);
    let b = s.subrange(k, s.len() as int);
    if k == s.len() {
        assert(a =~= s);
        assert(b =~= Seq::<RTreeNode>::empty());
    } else {
        lemma_mbr_split(s, k + 1);
        assert(s.subrange(0, k + 1) =~= a.push(s[k]));
        lemma_mbr_push(a, s[k]);
        lemma_mbr_remove(b, 0);
        assert(b.remove(0) =~= s.subrange(k + 1, s.len() as int));
    }
}

/// Every point below `n` lies in the envelope of `n`, and the same holds of
/// every inner node below it.
pub open spec fn holds_leaves(n: RTreeNode) -> bool
    decreases n,
{
    match n {
        RTreeNode::Leaf(_) => true,
        RTreeNode::Parent(d) => {
            &&& forall|i: int|
                0 <= i < d.children@.len() ==> holds_leaves(#[trigger] d.children@[i])
            &&& forall|v: Point|
                #[trigger] leaves(n).contains(v) ==> contains_point(d.envelope, v)
        },
    }
}

pub proof fn lemma_leaves_member(s: Seq<RTreeNode>, k: nat, v: Point)
    requires
        leaves_upto(s, k).contains(v),
    ensures
        exists|i: int| 0 <= i < k && i < s.len() && #[trigger] leaves(s[i]).contains(v),
    decreases k,
{
    if k > 0 && k <= s.len() {
        if !leaves(s[k - 1]).contains(v) {
            lemma_leaves_member(s, (k - 1) as nat, v);
        }
    }
}

proof fn lemma_mbr_holds(s: Seq<RTreeNode>, i: int, v: Point)
    requires
        0 <= i < s.len(),
        contains_point(node_envelope(s[i]), v),
    ensures
        contains_point(mbr_of(s), v),
    decreases s.len(),
{
    if i < s.len() - 1 {
        lemma_mbr_holds(s.drop_last(), i, v);
    }
}

/// A node whose inner nodes hold the merge of their children's envelopes has
/// every point below it inside its envelope.
pub proof fn lemma_wf_holds_leaves(n: RTreeNode, h: nat, min_size: nat, max_size: nat, is_root: bool)
    requires
        wf_node(n, h, min_size, max_size, is_root),
    ensures
        holds_leaves(n),
    decreases n,
{
    if let RTreeNode::Parent(d) = n {
        let s = d.children@;
        assert forall|i: int| 0 <= i < s.len() implies holds_leaves(#[trigger] s[i]) by {
            lemma_wf_holds_leaves(s[i], (h - 1) as nat, min_size, max_size, false);
        }
        assert forall|v: Point| #[trigger] leaves(n).contains(v) implies contains_point(
            d.envelope,
            v,
        ) by {
            lemma_leaves_member(s, s.len(), v);
            let i = choose|i: int| 0 <= i < s.len() && #[trigger] leaves(s[i]).contains(v);
            lemma_wf_holds_leaves(s[i], (h - 1) as nat, min_size, max_size, false);
            match s[i] {
                RTreeNode::Leaf(p) => {
                    assert(leaves(s[i]).count(v) > 0);
                    assert(v == p);
                },
                RTreeNode::Parent(c) => {},
            }
            lemma_mbr_holds(s, i, v);
        }
    }
}

/// A point inside `e` is no nearer to `q` than `e` itself.
pub proof fn lemma_distance_le(e: Aabb, v: Point, q: Point)
    requires
        contains_point(e, v),
    ensures
        distance_2(e, q) <= point_distance_2(v, q),
{
    let gx = gap(e.lower.x as int, e.upper.x as int, q.x as int);
    let gy = gap(e.lower.y as int, e.upper.y as int, q.y as int);
    let dx = v.x - q.x;
    let dy = v.y - q.y;
    assert(0 <= gx && (gx <= dx || gx <= -dx));
    assert(0 <= gy && (gy <= dy || gy <= -dy));
    assert(gx * gx <= dx * dx) by (nonlinear_arith)
        requires
            0 <= gx,
            gx <= dx || gx <= -dx,
    ;
    assert(gy * gy <= dy * dy) by (nonlinear_arith)
        requires
            0 <= gy,
            gy <= dy || gy <= -dy,
    ;
}

pub proof fn lemma_leaves_include(s: Seq<RTreeNode>, k: nat, i: int, v: Point)
    requires
        0 <= i < k <= s.len(),
        leaves(s[i]).contains(v),
    ensures
        leaves_upto(s, k).contains(v),
    decreases k,
{
    if i < k - 1 {
        lemma_leaves_include(s, (k - 1) as nat, i, v);
    }
}

/// Each face of the merge of a non-empty sequence is a face of one of its nodes.
proof fn lemma_mbr_faces(s: Seq<RTreeNode>)
    requires
        s.len() > 0,
    ensures
        exists|i: int| 0 <= i < s.len() && #[trigger] node_envelope(s[i]).lower.x == mbr_of(s).lower.x,
        exists|i: int| 0 <= i < s.len() && #[trigger] node_envelope(s[i]).upper.x == mbr_of(s).upper.x,
        exists|i: int| 0 <= i < s.len() && #[trigger] node_envelope(s[i]).lower.y == mbr_of(s).lower.y,
        exists|i: int| 0 <= i < s.len() && #[trigger] node_envelope(s[i]).upper.y == mbr_of(s).upper.y,
    decreases s.len(),
{
    let n = s.len() - 1;
    let d = s.drop_last();
    if s.len() > 1 {
        lemma_mbr_faces(d);
        let a = choose|i: int| 0 <= i < d.len() && #[trigger] node_envelope(d[i]).lower.x == mbr_of(d).lower.x;
        let b = choose|i: int| 0 <= i < d.len() && #[trigger] node_envelope(d[i]).upper.x == mbr_of(d).upper.x;
        let c = choose|i: int| 0 <= i < d.len() && #[trigger] node_envelope(d[i]).lower.y == mbr_of(d).lower.y;
        let e = choose|i: int| 0 <= i < d.len() && #[trigger] node_envelope(d[i]).upper.y == mbr_of(d).upper.y;
        assert(d[a] == s[a] && d[b] == s[b] && d[c] == s[c] && d[e] == s[e]);
        if node_envelope(s[n]).lower.x != mbr_of(s).lower.x {
            assert(node_envelope(s[a]).lower.x == mbr_of(s).lower.x);
        }
        if node_envelope(s[n]).upper.x != mbr_of(s).upper.x {
            assert(node_envelope(s[b]).upper.x == mbr_of(s).upper.x);
        }
        if node_envelope(s[n]).lower.y != mbr_of(s).lower.y {
            assert(node_envelope(s[c]).lower.y == mbr_of(s).lower.y);
        }
        if node_envelope(s[n]).upper.y != mbr_of(s).upper.y {
            assert(node_envelope(s[e]).upper.y == mbr_of(s).upper.y);
        }
    } else {
        assert(d.len() == 0);
        assert(mbr_of(d) == empty_aabb());
        assert(mbr_of(s) == merge(empty_aabb(), node_envelope(s[n])));
        assert(node_envelope(s[n]).lower.x == mbr_of(s).lower.x);
        assert(node_envelope(s[n]).upper.x == mbr_of(s).upper.x);
        assert(node_envelope(s[n]).lower.y == mbr_of(s).lower.y);
        assert(node_envelope(s[n]).upper.y == mbr_of(s).upper.y);
    }
}

/// Each face of the envelope of `n` is reached by a point below `n`.
pub open spec fn touched(n: RTreeNode) -> bool {
    let e = node_envelope(n);
    let m = leaves(n);
    &&& exists|v: Point| #[trigger] m.contains(v) && v.x == e.lower.x
    &&& exists|v: Point| #[trigger] m.contains(v) && v.x == e.upper.x
    &&& exists|v: Point| #[trigger] m.contains(v) && v.y == e.lower.y
    &&& exists|v: Point| #[trigger] m.contains(v) && v.y == e.upper.y
}

/// Every inner node at or below `n` is non-empty, holds its points in its
/// envelope, and has each face of its envelope reached by one of them.
pub open spec fn searchable(n: RTreeNode) -> bool
    decreases n,
{
    match n {
        RTreeNode::Leaf(_) => true,
        RTreeNode::Parent(d) => {
            &&& d.children@.len() > 0
            &&& holds_leaves(n)
            &&& touched(n)
            &&& forall|i: int|
                0 <= i < d.children@.len() ==> searchable(#[trigger] d.children@[i])
        },
    }
}

pub proof fn lemma_wf_searchable(n: RTreeNode, h: nat, min_size: nat, max_size: nat)
    requires
        wf_node(n, h, min_size, max_size, false),
        1 <= min_size,
    ensures
        searchable(n),
    decreases n,
{
    if let RTreeNode::Parent(d) = n {
        let s = d.children@;
        assert forall|i: int| 0 <= i < s.len() implies searchable(#[trigger] s[i]) by {
            lemma_wf_searchable(s[i], (h - 1) as nat, min_size, max_size);
        }
        lemma_wf_holds_leaves(n, h, min_size, max_size, false);
        lemma_mbr_faces(s);
        let m = leaves(n);
        let e = d.envelope;
        let a = choose|i: int| 0 <= i < s.len() && #[trigger] node_envelope(s[i]).lower.x == mbr_of(s).lower.x;
        let b = choose|i: int| 0 <= i < s.len() && #[trigger] node_envelope(s[i]).upper.x == mbr_of(s).upper.x;
        let c = choose|i: int| 0 <= i < s.len() && #[trigger] node_envelope(s[i]).lower.y == mbr_of(s).lower.y;
        let f = choose|i: int| 0 <= i < s.len() && #[trigger] node_envelope(s[i]).upper.y == mbr_of(s).upper.y;
        let va = lemma_face_point(s[a], 0);
        lemma_leaves_include(s, s.len(), a, va);
        let vb = lemma_face_point(s[b], 1);
        lemma_leaves_include(s, s.len(), b, vb);
        let vc = lemma_face_point(s[c], 2);
        lemma_leaves_include(s, s.len(), c, vc);
        let vf = lemma_face_point(s[f], 3);
        lemma_leaves_include(s, s.len(), f, vf);
        assert(m.contains(va) && va.x == e.lower.x);
        assert(m.contains(vb) && vb.x == e.upper.x);
        assert(m.contains(vc) && vc.y == e.lower.y);
        assert(m.contains(vf) && vf.y == e.upper.y);
    }
}

/// A point below `n` on face `face` of its envelope (0: lower x, 1: upper x,
/// 2: lower y, 3: upper y).
proof fn lemma_face_point(n: RTreeNode, face: int) -> (v: Point)
    requires
        searchable(n),
    ensures
        leaves(n).contains(v),
        face == 0 ==> v.x == node_envelope(n).lower.x,
        face == 1 ==> v.x == node_envelope(n).upper.x,
        face == 2 ==> v.y == node_envelope(n).lower.y,
        face == 3 ==> v.y == node_envelope(n).upper.y,
{
    match n {
        RTreeNode::Leaf(p) => {
            assert(leaves(n).count(p) > 0);
            p
        },
        RTreeNode::Parent(d) => {
            let m = leaves(n);
            let e = d.envelope;
            if face == 0 {
                choose|v: Point| #[trigger] m.contains(v) && v.x == e.lower.x
            } else if face == 1 {
                choose|v: Point| #[trigger] m.contains(v) && v.x == e.upper.x
            } else if face == 2 {
                choose|v: Point| #[trigger] m.contains(v) && v.y == e.lower.y
            } else {
                choose|v: Point| #[trigger] m.contains(v) && v.y == e.upper.y
            }
        },
    }
}

proof fn lemma_far_bound(lo: int, hi: int, p: int, y: int)
    requires
        lo <= y <= hi,
    ensures
        sq(y - p) <= far_edge_2(lo, hi, p),
{
    if 2 * p >= lo + hi {
        assert((y - p) * (y - p) <= (p - lo) * (p - lo)) by (nonlinear_arith)
            requires
                lo <= y <= hi,
                2 * p >= lo + hi,
        ;
    } else {
        assert((y - p) * (y - p) <= (p - hi) * (p - hi)) by (nonlinear_arith)
            requires
                lo <= y <= hi,
                2 * p < lo + hi,
        ;
    }
}

/// MINMAXDIST: some point below `n` is no farther from `q` than
/// `min_max_dist_2` of its envelope.
pub proof fn lemma_min_max_dist(n: RTreeNode, q: Point) -> (v: Point)
    requires
        searchable(n),
    ensures
        leaves(n).contains(v),
        point_distance_2(v, q) <= min_max_dist_2(node_envelope(n), q),
{
    let e = node_envelope(n);
    let (lx, hx, px) = (e.lower.x as int, e.upper.x as int, q.x as int);
    let (ly, hy, py) = (e.lower.y as int, e.upper.y as int, q.y as int);
    assert(forall|a: int, b: int| #[trigger] sq(a - b) == sq(b - a)) by {
        assert forall|a: int, b: int| #[trigger] sq(a - b) == sq(b - a) by {
            assert((a - b) * (a - b) == (b - a) * (b - a)) by (nonlinear_arith);
        }
    }
    match n {
        RTreeNode::Leaf(p) => {
            assert(leaves(n).count(p) > 0);
            p
        },
        RTreeNode::Parent(d) => {
            if near_edge_2(lx, hx, px) + far_edge_2(ly, hy, py) <= far_edge_2(lx, hx, px)
                + near_edge_2(ly, hy, py) {
                let v = if 2 * px <= lx + hx {
                    lemma_face_point(n, 0)
                } else {
                    lemma_face_point(n, 1)
                };
                assert(contains_point(e, v));
                lemma_far_bound(ly, hy, py, v.y as int);
                v
            } else {
                let v = if 2 * py <= ly + hy {
                    lemma_face_point(n, 2)
                } else {
                    lemma_face_point(n, 3)
                };
                assert(contains_point(e, v));
                lemma_far_bound(lx, hx, px, v.x as int);
                v
            }
        },
    }
}

/// The envelope of `n` computed bottom-up from its points alone, without
/// looking at any stored envelope.
pub open spec fn computed_envelope(n: RTreeNode) -> Aabb
    decreases n, 0nat,
{
    match n {
        RTreeNode::Leaf(p) => point_aabb(p),
        RTreeNode::Parent(d) => computed_upto(d.children@, d.children@.len() as nat),
    }
}

pub open spec fn computed_upto(s: Seq<RTreeNode>, k: nat) -> Aabb
    decreases s, k,
{
    if k == 0 || k > s.len() {
        empty_aabb()
    } else {
        merge(computed_upto(s, (k - 1) as nat), computed_envelope(s[k - 1]))
    }
}

/// In a well-formed subtree, recomputing every envelope bottom-up from the
/// points gives back the stored envelope.
pub proof fn lemma_recomputed_envelope(
    n: RTreeNode,
    h: nat,
    min_size: nat,
    max_size: nat,
    is_root: bool,
)
    requires
        wf_node(n, h, min_size, max_size, is_root),
    ensures
        computed_envelope(n) == node_envelope(n),
    decreases n,
{
    if let RTreeNode::Parent(d) = n {
        let s = d.children@;
        assert forall|i: int| 0 <= i < s.len() implies computed_envelope(#[trigger] s[i])
            == node_envelope(s[i]) by {
            lemma_recomputed_envelope(s[i], (h - 1) as nat, min_size, max_size, false);
        }
        lemma_computed_prefix(s, s.len());
        assert(s.subrange(0, s.len() as int) =~= s);
    }
}

proof fn lemma_computed_prefix(s: Seq<RTreeNode>, k: nat)
    requires
        k <= s.len(),
        forall|i: int| 0 <= i < s.len() ==> computed_envelope(#[trigger] s[i]) == node_envelope(s[i]),
    ensures
        computed_upto(s, k) == mbr_of(s.subrange(0, k as int)),
    decreases k,
{
    if k > 0 {
        lemma_computed_prefix(s, (k - 1) as nat);
        assert(s.subrange(0, k as int).drop_last() =~= s.subrange(0, k - 1));
    }
}

impl RTreeNode {
    pub fn envelope(&self) -> (r: Aabb)
        ensures
            r == node_envelope(*self),
    {
        match self {
            RTreeNode::Leaf(p) => from_point(*p),
            RTreeNode::Parent(d) => d.envelope,
        }
    }
}

/// The merge of the children's envelopes, computed from scratch.
pub fn mbr_for_children(children: &Vec<RTreeNode>) -> (r: Aabb)
    ensures
        r == mbr_of(children@),
{
    let mut r = new_empty();
    let mut i: usize = 0;
    while i < children.len()
        invariant
            i <= children@.len(),
            r == mbr_of(children@.subrange(0, i as int)),
        decreases children@.len() - i,
    {
        proof {
            assert(children@.subrange(0, i as int + 1).drop_last() =~= children@.subrange(
                0,
                i as int,
            ));
        }
        r = r.merged(&children[i].envelope());
        i = i + 1;
    }
    proof {
        assert(children@.subrange(0, i as int) =~= children@);
    }
    r
}

impl ParentNodeData {
    /// An empty inner node, as the root of an empty tree.
    pub fn new_root() -> (r: ParentNodeData)
        ensures
            r.children@.len() == 0,
            r.envelope == empty_aabb(),
    {
        ParentNodeData { envelope: new_empty(), children: Vec::new() }
    }

    /// An inner node over `children`, with their merged envelope.
    pub fn new_parent(children: Vec<RTreeNode>) -> (r: ParentNodeData)
        ensures
            r.children@ == children@,
            r.envelope == mbr_of(children@),
    {
        let envelope = mbr_for_children(&children);
        ParentNodeData { envelope, children }
    }
}

} // verus!
