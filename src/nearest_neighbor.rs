use vstd::prelude::*;
use vstd::multiset::Multiset;
use crate::envelope::{distance_2, point_distance_2, Point};
use crate::node::{
    count_seq, count_upto, holds_leaves, leaves, leaves_seq, leaves_upto, lemma_count_push,
    lemma_count_remove, lemma_distance_le, lemma_leaves_member, lemma_leaves_push,
    lemma_leaves_remove, lemma_min_max_dist, node_count, searchable, ParentNodeData, RTreeNode,
};

verus! {

broadcast use vstd::multiset::group_multiset_axioms;

/// The priority of a node in the search for `q`: the squared distance from
/// `q` to its envelope, or to its point for a leaf.
pub open spec fn entry_key(n: RTreeNode, q: Point) -> int {
    match n {
        RTreeNode::Leaf(p) => point_distance_2(p, q),
        RTreeNode::Parent(d) => distance_2(d.envelope, q),
    }
}

pub open spec fn entry_nodes(s: Seq<(&RTreeNode, i128)>) -> Seq<RTreeNode> {
    s.map_values(|e: (&RTreeNode, i128)| *e.0)
}

/// The points that the queued entries still hold.
pub open spec fn pending_leaves(s: Seq<(&RTreeNode, i128)>) -> Multiset<Point> {
    leaves_seq(entry_nodes(s))
}

pub open spec fn keys_exact(s: Seq<(&RTreeNode, i128)>, q: Point) -> bool {
    forall|i: int| 0 <= i < s.len() ==> (#[trigger] s[i]).1 == entry_key(*s[i].0, q)
}

pub open spec fn entries_hold_leaves(s: Seq<(&RTreeNode, i128)>) -> bool {
    forall|i: int| 0 <= i < s.len() ==> holds_leaves(*(#[trigger] s[i]).0)
}

/// The key of a node is a lower bound on the distance of every point below it.
pub proof fn lemma_key_le(n: RTreeNode, q: Point, v: Point)
    requires
        holds_leaves(n),
        leaves(n).contains(v),
    ensures
        entry_key(n, q) <= point_distance_2(v, q),
{
    match n {
        RTreeNode::Leaf(p) => {
            assert(leaves(n).count(v) > 0);
            assert(v == p);
        },
        RTreeNode::Parent(d) => {
            lemma_distance_le(d.envelope, v, q);
        },
    }
}

fn key_of(n: &RTreeNode, q: &Point) -> (r: i128)
    ensures
        r == entry_key(*n, *q),
{
    match n {
        RTreeNode::Parent(data) => data.envelope.distance_2(q),
        RTreeNode::Leaf(t) => t.distance_2(q),
    }
}

/// Queues every node of `children`, each with its key.
fn extend_heap<'a>(nodes: &mut Vec<(&'a RTreeNode, i128)>, children: &'a Vec<RTreeNode>, q: &Point)
    requires
        keys_exact(old(nodes)@, *q),
        entries_hold_leaves(old(nodes)@),
        forall|i: int| 0 <= i < children@.len() ==> holds_leaves(#[trigger] children@[i]),
    ensures
        entry_nodes(final(nodes)@) == entry_nodes(old(nodes)@) + children@,
        keys_exact(final(nodes)@, *q),
        entries_hold_leaves(final(nodes)@),
        pending_leaves(final(nodes)@) == pending_leaves(old(nodes)@).add(
            leaves_upto(children@, children@.len() as nat),
        ),
        count_seq(entry_nodes(final(nodes)@)) == count_seq(entry_nodes(old(nodes)@)) + count_upto(
            children@,
            children@.len() as nat,
        ),
{
    let ghost n0 = nodes@;
    let mut i: usize = 0;
    while i < children.len()
        invariant
            i <= children@.len(),
            entry_nodes(nodes@) == entry_nodes(n0) + children@.subrange(0, i as int),
            keys_exact(nodes@, *q),
            entries_hold_leaves(nodes@),
            forall|i: int| 0 <= i < children@.len() ==> holds_leaves(#[trigger] children@[i]),
            pending_leaves(nodes@) == pending_leaves(n0).add(leaves_upto(children@, i as nat)),
            count_seq(entry_nodes(nodes@)) == count_seq(entry_nodes(n0)) + count_upto(
                children@,
                i as nat,
            ),
        decreases children@.len() - i,
    {
        let child = &children[i];
        let distance = key_of(child, q);
        let ghost before = nodes@;
        nodes.push((child, distance));
        proof {
            assert(entry_nodes(nodes@) =~= entry_nodes(before).push(*child));
            assert(entry_nodes(nodes@) =~= entry_nodes(n0) + children@.subrange(0, i + 1));
            lemma_leaves_push(entry_nodes(before), *child);
            lemma_count_push(entry_nodes(before), *child);
            assert(pending_leaves(nodes@) =~= pending_leaves(n0).add(
                leaves_upto(children@, (i + 1) as nat),
            ));
        }
        i = i + 1;
    }
    proof {
        assert(children@.subrange(0, i as int) =~= children@);
    }
}

/// Takes out an entry of least key.
fn pop_min<'a>(nodes: &mut Vec<(&'a RTreeNode, i128)>) -> (r: (&'a RTreeNode, i128))
    requires
        old(nodes)@.len() > 0,
    ensures
        exists|j: int|
            0 <= j < old(nodes)@.len() && old(nodes)@[j] == r && final(nodes)@ == old(nodes)@.remove(
                j,
            ),
        forall|j: int| 0 <= j < old(nodes)@.len() ==> r.1 <= (#[trigger] old(nodes)@[j]).1,
{
    let mut best: usize = 0;
    let mut j: usize = 1;
    while j < nodes.len()
        invariant
            0 <= best < j <= nodes@.len(),
            forall|m: int| 0 <= m < j ==> nodes@[best as int].1 <= (#[trigger] nodes@[m]).1,
        decreases nodes@.len() - j,
    {
        if nodes[j].1 < nodes[best].1 {
            best = j;
        }
        j = j + 1;
    }
    nodes.remove(best)
}

proof fn lemma_entries_remove(s: Seq<(&RTreeNode, i128)>, j: int)
    requires
        0 <= j < s.len(),
    ensures
        pending_leaves(s.remove(j)).add(leaves(*s[j].0)) == pending_leaves(s),
        count_seq(entry_nodes(s.remove(j))) + node_count(*s[j].0) == count_seq(entry_nodes(s)),
{
    assert(entry_nodes(s.remove(j)) =~= entry_nodes(s).remove(j));
    lemma_leaves_remove(entry_nodes(s), j);
    lemma_count_remove(entry_nodes(s), j);
}

/// Hands out the points below a root in order of increasing distance to a
/// query point.
pub struct NearestNeighborIterator<'a> {
    pub nodes: Vec<(&'a RTreeNode, i128)>,
    pub query_point: Point,
}

impl<'a> NearestNeighborIterator<'a> {
    pub open spec fn wf(&self) -> bool {
        &&& keys_exact(self.nodes@, self.query_point)
        &&& entries_hold_leaves(self.nodes@)
    }

    /// The points not handed out yet.
    pub open spec fn remaining(&self) -> Multiset<Point> {
        pending_leaves(self.nodes@)
    }

    pub fn new(root: &'a ParentNodeData, query_point: &Point) -> (r: NearestNeighborIterator<'a>)
        requires
            holds_leaves(RTreeNode::Parent(*root)),
        ensures
            r.wf(),
            r.query_point == *query_point,
            entry_nodes(r.nodes@) == root.children@,
            r.remaining() == leaves(RTreeNode::Parent(*root)),
    {
        let mut result = NearestNeighborIterator { nodes: Vec::new(), query_point: *query_point };
        proof {
            assert(entry_nodes(result.nodes@) =~= Seq::<RTreeNode>::empty());
            assert(pending_leaves(result.nodes@) =~= Multiset::empty());
            let n = RTreeNode::Parent(*root);
            assert(holds_leaves(n));
            assert forall|i: int| 0 <= i < root.children@.len() implies holds_leaves(
                #[trigger] root.children@[i],
            ) by {
                if let RTreeNode::Parent(d) = n {
                    assert(d.children@[i] == root.children@[i]);
                }
            }
        }
        extend_heap(&mut result.nodes, &root.children, query_point);
        proof {
            assert(entry_nodes(result.nodes@) =~= root.children@);
            assert(result.remaining() =~= leaves(RTreeNode::Parent(*root)));
        }
        result
    }

    /// The next point, or `None` once every point has been handed out.
    pub fn next(&mut self) -> (r: Option<&'a Point>)
        requires
            old(self).wf(),
        ensures
            final(self).wf(),
            final(self).query_point == old(self).query_point,
            match r {
                Some(p) => {
                    &&& final(self).remaining().insert(*p) == old(self).remaining()
                    &&& forall|v: Point|
                        #[trigger] final(self).remaining().contains(v) ==> point_distance_2(
                            *p,
                            final(self).query_point,
                        ) <= point_distance_2(v, final(self).query_point)
                },
                None => {
                    &&& old(self).remaining() == Multiset::<Point>::empty()
                    &&& final(self).remaining() == Multiset::<Point>::empty()
                },
            },
    {
        let ghost start = self.remaining();
        let q = self.query_point;
        while self.nodes.len() > 0
            invariant
                self.wf(),
                self.query_point == q,
                q == old(self).query_point,
                start == old(self).remaining(),
                self.remaining() == start,
            decreases count_seq(entry_nodes(self.nodes@)),
        {
            let ghost s0 = self.nodes@;
            let current = pop_min(&mut self.nodes);
            proof {
                let j = choose|j: int|
                    0 <= j < s0.len() && s0[j] == current && self.nodes@ == s0.remove(j);
                lemma_entries_remove(s0, j);
                assert forall|i: int| 0 <= i < self.nodes@.len() implies (
                #[trigger] self.nodes@[i]).1 == entry_key(*self.nodes@[i].0, q) && holds_leaves(
                    *self.nodes@[i].0,
                ) && current.1 <= self.nodes@[i].1 by {
                    if i < j {
                        assert(self.nodes@[i] == s0[i]);
                    } else {
                        assert(self.nodes@[i] == s0[i + 1]);
                    }
                }
                assert(holds_leaves(*s0[j].0));
            }
            match current.0 {
                RTreeNode::Parent(data) => {
                    extend_heap(&mut self.nodes, &data.children, &q);
                },
                RTreeNode::Leaf(t) => {
                    proof {
                        assert(self.remaining().insert(*t) =~= start);
                        assert forall|v: Point| #[trigger]
                            self.remaining().contains(v) implies point_distance_2(*t, q)
                            <= point_distance_2(v, q) by {
                            let en = entry_nodes(self.nodes@);
                            lemma_leaves_member(en, en.len(), v);
                            let i = choose|i: int|
                                0 <= i < en.len() && #[trigger] leaves(en[i]).contains(v);
                            assert(en[i] == *self.nodes@[i].0);
                            lemma_key_le(en[i], q, v);
                        }
                    }
                    return Some(t);
                },
            }
        }
        proof {
            assert(entry_nodes(self.nodes@) =~= Seq::<RTreeNode>::empty());
            assert(self.remaining() =~= Multiset::empty());
        }
        None
    }
}

/// A lazy sequence of the points below `root`, nearest to `query_point` first.
pub fn nearest_neighbor_iter<'a>(root: &'a ParentNodeData, query_point: &Point) -> (r:
    NearestNeighborIterator<'a>)
    requires
        holds_leaves(RTreeNode::Parent(*root)),
    ensures
        r.wf(),
        r.query_point == *query_point,
        r.remaining() == leaves(RTreeNode::Parent(*root)),
{
    NearestNeighborIterator::new(root, query_point)
}


/// Some point of `pool` is at least as near to `q` as `w`.
pub open spec fn covered(w: Point, pool: Multiset<Point>, q: Point) -> bool {
    exists|v: Point| #[trigger] pool.contains(v) && point_distance_2(v, q) <= point_distance_2(w, q)
}

pub open spec fn all_covered(all: Multiset<Point>, pool: Multiset<Point>, q: Point) -> bool {
    forall|w: Point| #[trigger] all.contains(w) ==> covered(w, pool, q)
}

/// The pruning bound is unset, or some point of `pool` lies within it.
pub open spec fn bound_witnessed(b: int, pool: Multiset<Point>, q: Point) -> bool {
    b == i128::MAX || exists|x: Point| #[trigger] pool.contains(x) && point_distance_2(x, q) <= b
}

pub open spec fn entries_searchable(s: Seq<(&RTreeNode, i128)>) -> bool {
    forall|i: int| 0 <= i < s.len() ==> searchable(*(#[trigger] s[i]).0)
}

/// The points below `s[i..]`.
pub open spec fn rest_leaves(s: Seq<RTreeNode>, i: int) -> Multiset<Point> {
    leaves_seq(s.subrange(i, s.len() as int))
}

proof fn lemma_rest_step(s: Seq<RTreeNode>, i: int)
    requires
        0 <= i < s.len(),
    ensures
        rest_leaves(s, i) == leaves(s[i]).add(rest_leaves(s, i + 1)),
{
    let sub = s.subrange(i, s.len() as int);
    lemma_leaves_remove(sub, 0);
    assert(sub.remove(0) =~= s.subrange(i + 1, s.len() as int));
    assert(rest_leaves(s, i) =~= leaves(s[i]).add(rest_leaves(s, i + 1)));
}

/// Queues the children of `node` whose key does not exceed the pruning bound,
/// then lowers the bound to the child's MINMAXDIST where that is smaller.
fn extend_heap_pruned<'a>(
    nodes: &mut Vec<(&'a RTreeNode, i128)>,
    node: &'a ParentNodeData,
    q: &Point,
    min_max_distance: &mut i128,
    Ghost(all): Ghost<Multiset<Point>>,
)
    requires
        keys_exact(old(nodes)@, *q),
        entries_searchable(old(nodes)@),
        forall|j: int| 0 <= j < node.children@.len() ==> searchable(#[trigger] node.children@[j]),
        all_covered(all, pending_leaves(old(nodes)@).add(leaves(RTreeNode::Parent(*node))), *q),
        bound_witnessed(
            *old(min_max_distance) as int,
            pending_leaves(old(nodes)@).add(leaves(RTreeNode::Parent(*node))),
            *q,
        ),
    ensures
        keys_exact(final(nodes)@, *q),
        entries_searchable(final(nodes)@),
        pending_leaves(final(nodes)@).subset_of(
            pending_leaves(old(nodes)@).add(leaves(RTreeNode::Parent(*node))),
        ),
        count_seq(entry_nodes(final(nodes)@)) <= count_seq(entry_nodes(old(nodes)@))
            + node_count(RTreeNode::Parent(*node)) - 1,
        all_covered(all, pending_leaves(final(nodes)@), *q),
        bound_witnessed(*final(min_max_distance) as int, pending_leaves(final(nodes)@), *q),
{
    let ghost n0 = nodes@;
    let children = &node.children;
    proof {
        assert(children@.subrange(0, children@.len() as int) =~= children@);
    }
    let mut i: usize = 0;
    while i < children.len()
        invariant
            i <= children@.len(),
            children == &node.children,
            keys_exact(nodes@, *q),
            entries_searchable(nodes@),
            forall|j: int| 0 <= j < children@.len() ==> searchable(#[trigger] children@[j]),
            pending_leaves(nodes@).subset_of(
                pending_leaves(n0).add(leaves_upto(children@, i as nat)),
            ),
            count_seq(entry_nodes(nodes@)) <= count_seq(entry_nodes(n0)) + count_upto(
                children@,
                i as nat,
            ),
            all_covered(all, pending_leaves(nodes@).add(rest_leaves(children@, i as int)), *q),
            bound_witnessed(
                *min_max_distance as int,
                pending_leaves(nodes@).add(rest_leaves(children@, i as int)),
                *q,
            ),
        decreases children@.len() - i,
    {
        let child = &children[i];
        let distance = key_of(child, q);
        let ghost before = nodes@;
        let ghost b0 = *min_max_distance as int;
        let ghost c = *child;
        let ghost pool = pending_leaves(before).add(rest_leaves(children@, i as int));
        proof {
            lemma_rest_step(children@, i as int);
            assert(holds_leaves(c)) by {
                if let RTreeNode::Parent(d) = c {
                }
            }
        }
        let ghost y = lemma_min_max_dist(c, *q);
        proof {
            lemma_key_le(c, *q, y);
        }
        if distance <= *min_max_distance {
            nodes.push((child, distance));
            proof {
                assert(entry_nodes(nodes@) =~= entry_nodes(before).push(*child));
                lemma_leaves_push(entry_nodes(before), *child);
                lemma_count_push(entry_nodes(before), *child);
                assert(pending_leaves(nodes@).add(rest_leaves(children@, i + 1)) =~= pool);
            }
        } else {
            proof {
                let pool2 = pending_leaves(nodes@).add(rest_leaves(children@, i + 1));
                assert(b0 != i128::MAX);
                let x = choose|x: Point| #[trigger] pool.contains(x) && point_distance_2(x, *q) <= b0;
                assert(!leaves(c).contains(x)) by {
                    if leaves(c).contains(x) {
                        lemma_key_le(c, *q, x);
                    }
                }
                assert(pool2.contains(x));
                assert forall|w: Point| #[trigger] all.contains(w) implies covered(w, pool2, *q) by {
                    let v = choose|v: Point|
                        #[trigger] pool.contains(v) && point_distance_2(v, *q) <= point_distance_2(
                            w,
                            *q,
                        );
                    if leaves(c).contains(v) {
                        lemma_key_le(c, *q, v);
                        assert(pool2.contains(x) && point_distance_2(x, *q) <= point_distance_2(
                            w,
                            *q,
                        ));
                    } else {
                        assert(pool2.contains(v));
                    }
                }
            }
        }
        let bound = child.envelope().min_max_dist_2(q);
        if bound < *min_max_distance {
            *min_max_distance = bound;
            proof {
                assert(pending_leaves(nodes@).add(rest_leaves(children@, i + 1)).contains(y));
            }
        }
        proof {
            let pool2 = pending_leaves(nodes@).add(rest_leaves(children@, i + 1));
            if *min_max_distance as int == b0 && b0 != i128::MAX {
                let x = choose|x: Point| #[trigger] pool.contains(x) && point_distance_2(x, *q) <= b0;
                if leaves(c).contains(x) {
                    lemma_key_le(c, *q, x);
                }
                assert(pool2.contains(x));
            }
        }
        i = i + 1;
    }
    proof {
        assert(children@.subrange(i as int, children@.len() as int) =~= Seq::<RTreeNode>::empty());
        assert(pending_leaves(nodes@).add(rest_leaves(children@, i as int)) =~= pending_leaves(
            nodes@,
        ));
    }
}

/// The point below `root` nearest to `query_point`, or `None` where there is
/// none. Branches that cannot hold a nearer point than one already known to
/// exist are not searched.
pub fn nearest_neighbor<'a>(node: &'a ParentNodeData, query_point: &Point) -> (r: Option<&'a Point>)
    requires
        forall|j: int| 0 <= j < node.children@.len() ==> searchable(#[trigger] node.children@[j]),
    ensures
        r is None <==> leaves(RTreeNode::Parent(*node)) == Multiset::<Point>::empty(),
        r matches Some(p) ==> {
            &&& leaves(RTreeNode::Parent(*node)).contains(*p)
            &&& forall|w: Point|
                #[trigger] leaves(RTreeNode::Parent(*node)).contains(w) ==> point_distance_2(
                    *p,
                    *query_point,
                ) <= point_distance_2(w, *query_point)
        },
{
    let ghost all = leaves(RTreeNode::Parent(*node));
    let mut smallest_min_max: i128 = i128::MAX;
    let mut nodes: Vec<(&'a RTreeNode, i128)> = Vec::new();
    proof {
        assert(entry_nodes(nodes@) =~= Seq::<RTreeNode>::empty());
        assert(pending_leaves(nodes@) =~= Multiset::empty());
        assert(pending_leaves(nodes@).add(all) =~= all);
        assert forall|w: Point| #[trigger] all.contains(w) implies covered(
            w,
            pending_leaves(nodes@).add(all),
            *query_point,
        ) by {
            assert(pending_leaves(nodes@).add(all).contains(w));
        }
    }
    extend_heap_pruned(&mut nodes, node, query_point, &mut smallest_min_max, Ghost(all));
    proof {
        assert(pending_leaves(nodes@).subset_of(all));
    }
    while nodes.len() > 0
        invariant
            keys_exact(nodes@, *query_point),
            entries_searchable(nodes@),
            all == leaves(RTreeNode::Parent(*node)),
            pending_leaves(nodes@).subset_of(all),
            all_covered(all, pending_leaves(nodes@), *query_point),
            bound_witnessed(smallest_min_max as int, pending_leaves(nodes@), *query_point),
        decreases count_seq(entry_nodes(nodes@)),
    {
        let ghost s0 = nodes@;
        let current = pop_min(&mut nodes);
        let ghost j = choose|j: int| 0 <= j < s0.len() && s0[j] == current && nodes@ == s0.remove(j);
        proof {
            lemma_entries_remove(s0, j);
            assert forall|i: int| 0 <= i < nodes@.len() implies (#[trigger] nodes@[i]).1
                == entry_key(*nodes@[i].0, *query_point) && searchable(*nodes@[i].0) by {
                if i < j {
                    assert(nodes@[i] == s0[i]);
                } else {
                    assert(nodes@[i] == s0[i + 1]);
                }
            }
            assert(searchable(*s0[j].0));
        }
        match current.0 {
            RTreeNode::Parent(data) => {
                let ghost mid = nodes@;
                proof {
                    assert(pending_leaves(mid).add(leaves(*current.0)) =~= pending_leaves(s0));
                    assert(searchable(*current.0));
                }
                extend_heap_pruned(
                    &mut nodes,
                    data,
                    query_point,
                    &mut smallest_min_max,
                    Ghost(all),
                );
                proof {
                    assert forall|v: Point|
                        #[trigger] pending_leaves(nodes@).count(v) <= all.count(v) by {
                        assert(pending_leaves(nodes@).count(v) <= pending_leaves(mid).add(
                            leaves(*current.0),
                        ).count(v));
                        assert(pending_leaves(mid).add(leaves(*current.0)).count(v)
                            == pending_leaves(s0).count(v));
                        assert(pending_leaves(s0).count(v) <= all.count(v));
                    }
                }
            },
            RTreeNode::Leaf(t) => {
                proof {
                    assert(pending_leaves(s0).count(*t) <= all.count(*t));
                    assert(pending_leaves(nodes@).add(leaves(*current.0)).count(*t) >= 1);
                    assert forall|w: Point| #[trigger] all.contains(w) implies point_distance_2(
                        *t,
                        *query_point,
                    ) <= point_distance_2(w, *query_point) by {
                        let v = choose|v: Point|
                            #[trigger] pending_leaves(s0).contains(v) && point_distance_2(
                                v,
                                *query_point,
                            ) <= point_distance_2(w, *query_point);
                        let en = entry_nodes(s0);
                        lemma_leaves_member(en, en.len(), v);
                        let i = choose|i: int|
                            0 <= i < en.len() && #[trigger] leaves(en[i]).contains(v);
                        assert(en[i] == *s0[i].0);
                        assert(searchable(*s0[i].0));
                        assert(holds_leaves(en[i])) by {
                            if let RTreeNode::Parent(d) = en[i] {
                            }
                        }
                        lemma_key_le(en[i], *query_point, v);
                    }
                }
                return Some(t);
            },
        }
    }
    proof {
        assert(entry_nodes(nodes@) =~= Seq::<RTreeNode>::empty());
        assert(pending_leaves(nodes@) =~= Multiset::empty());
        assert forall|w: Point| all.count(w) == 0 by {
            if all.count(w) > 0 {
                assert(all.contains(w));
            }
        }
        assert(all =~= Multiset::empty());
    }
    None
}

} // verus!
