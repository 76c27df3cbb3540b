//! A bounding volume hierarchy over spheres, stored as an arena of nodes.
//!
//! A node's children come before it in the arena. An inner node's box holds the boxes
//! of both children, so a ray that misses the box misses every sphere below it.
use rand::Rng;
use vstd::prelude::*;

use crate::aabb::AABB;
use crate::param::{lemma_le_trans, Ext, Param};
use crate::ray::Ray;
use crate::sphere::{lemma_hit_box_hits, lemma_hit_param, param_within, within_limit, HitRecord, Sphere};
use crate::world::{hit_in, indices, nearest_among, root_param, World};

verus! {

/// A node of the hierarchy.
#[derive(Clone, Copy, Debug, PartialEq, Eq, Structural)]
pub enum Node {
    /// The sphere with this number.
    Leaf(usize),
    /// Two subtrees, by their place in the arena, and a box that holds both.
    Inner { bbox: AABB, left: usize, right: usize },
}

/// The numbers of the spheres at the leaves under node `k`.
pub open spec fn leaves(nodes: Seq<Node>, k: int) -> Set<int>
    decreases k,
{
    if 0 <= k < nodes.len() {
        match nodes[k] {
            Node::Leaf(i) => set![i as int],
            Node::Inner { left, right, .. } => if left < k && right < k {
                leaves(nodes, left as int).union(leaves(nodes, right as int))
            } else {
                Set::empty()
            },
        }
    } else {
        Set::empty()
    }
}

/// The number of leaves under node `k`, each counted as often as it is reached.
pub open spec fn leaf_count(nodes: Seq<Node>, k: int) -> nat
    decreases k,
{
    if 0 <= k < nodes.len() {
        match nodes[k] {
            Node::Leaf(_) => 1,
            Node::Inner { left, right, .. } => if left < k && right < k {
                leaf_count(nodes, left as int) + leaf_count(nodes, right as int)
            } else {
                0
            },
        }
    } else {
        0
    }
}

/// The box of node `k`: a leaf's sphere box, or an inner node's own box.
pub open spec fn node_box(nodes: Seq<Node>, spheres: Seq<Sphere>, k: int) -> AABB {
    match nodes[k] {
        Node::Leaf(i) => spheres[i as int].box_of(),
        Node::Inner { bbox, .. } => bbox,
    }
}

/// Node `k` refers to a sphere, or to earlier nodes whose boxes its own box is the union of.
pub open spec fn node_ok(nodes: Seq<Node>, spheres: Seq<Sphere>, k: int) -> bool {
    match nodes[k] {
        Node::Leaf(i) => i < spheres.len(),
        Node::Inner { bbox, left, right } => {
            &&& left < k
            &&& right < k
            &&& bbox == node_box(nodes, spheres, left as int).union_of(node_box(nodes, spheres, right as int))
        },
    }
}

/// Every node up to `k` is well formed.
pub open spec fn nodes_ok(nodes: Seq<Node>, spheres: Seq<Sphere>, k: int) -> bool {
    &&& k < nodes.len()
    &&& forall|j: int| 0 <= j <= k ==> #[trigger] node_ok(nodes, spheres, j)
}

proof fn lemma_encloses_trans(a: AABB, b: AABB, c: AABB)
    requires
        a.encloses(b),
        b.encloses(c),
    ensures
        a.encloses(c),
{
}

/// The box of a node holds the box of every sphere under it.
pub proof fn lemma_box_holds_leaves(nodes: Seq<Node>, spheres: Seq<Sphere>, k: int, j: int)
    requires
        0 <= k,
        nodes_ok(nodes, spheres, k),
        leaves(nodes, k).contains(j),
    ensures
        0 <= j < spheres.len(),
        node_box(nodes, spheres, k).encloses(spheres[j].box_of()),
    decreases k,
{
    assert(node_ok(nodes, spheres, k));
    if let Node::Inner { bbox, left, right } = nodes[k] {
        lemma_union_encloses(node_box(nodes, spheres, left as int), node_box(nodes, spheres, right as int));
        assert forall|m: int| 0 <= m <= left implies #[trigger] node_ok(nodes, spheres, m) by {
            assert(node_ok(nodes, spheres, m));
        }
        assert forall|m: int| 0 <= m <= right implies #[trigger] node_ok(nodes, spheres, m) by {
            assert(node_ok(nodes, spheres, m));
        }
        if leaves(nodes, left as int).contains(j) {
            lemma_box_holds_leaves(nodes, spheres, left as int, j);
            lemma_encloses_trans(bbox, node_box(nodes, spheres, left as int), spheres[j].box_of());
        } else {
            lemma_box_holds_leaves(nodes, spheres, right as int, j);
            lemma_encloses_trans(bbox, node_box(nodes, spheres, right as int), spheres[j].box_of());
        }
    }
}

/// Every node of the arena is well formed.
pub open spec fn arena_ok(nodes: Seq<Node>, spheres: Seq<Sphere>) -> bool {
    forall|j: int| 0 <= j < nodes.len() ==> #[trigger] node_ok(nodes, spheres, j)
}

/// The numbers in `ids`, as a set.
pub open spec fn id_set(ids: Seq<usize>) -> Set<int> {
    Set::new(|j: int| exists|k: int| 0 <= k < ids.len() && ids[k] as int == j)
}

/// Whether `nodes2` starts with all of `nodes1`.
pub open spec fn extends(nodes2: Seq<Node>, nodes1: Seq<Node>) -> bool {
    nodes1.len() <= nodes2.len() && forall|j: int| 0 <= j < nodes1.len() ==> nodes2[j] == nodes1[j]
}

proof fn lemma_extends_leaves(nodes2: Seq<Node>, nodes1: Seq<Node>, k: int)
    requires
        extends(nodes2, nodes1),
        0 <= k < nodes1.len(),
    ensures
        leaves(nodes2, k) == leaves(nodes1, k),
        leaf_count(nodes2, k) == leaf_count(nodes1, k),
    decreases k,
{
    if let Node::Inner { left, right, .. } = nodes1[k] {
        if left < k && right < k {
            lemma_extends_leaves(nodes2, nodes1, left as int);
            lemma_extends_leaves(nodes2, nodes1, right as int);
        }
    }
}

proof fn lemma_extends_ok(nodes2: Seq<Node>, nodes1: Seq<Node>, spheres: Seq<Sphere>)
    requires
        extends(nodes2, nodes1),
        arena_ok(nodes1, spheres),
    ensures
        forall|j: int| 0 <= j < nodes1.len() ==> #[trigger] node_ok(nodes2, spheres, j),
{
    assert forall|j: int| 0 <= j < nodes1.len() implies #[trigger] node_ok(nodes2, spheres, j) by {
        assert(node_ok(nodes1, spheres, j));
        if let Node::Inner { left, right, .. } = nodes1[j] {
            assert(nodes2[left as int] == nodes1[left as int]);
            assert(nodes2[right as int] == nodes1[right as int]);
        }
    }
}

proof fn lemma_union_encloses(a: AABB, b: AABB)
    ensures
        a.union_of(b).encloses(a),
        a.union_of(b).encloses(b),
{
}

/// Relies on `rand::thread_rng` and `Rng::gen_range`: a number drawn from `0..3`.
#[verifier::external_body]
fn random_axis() -> (r: usize)
    ensures
        r < 3,
{
    rand::thread_rng().gen_range(0..3)
}

/// Relies on `slice::sort_unstable`: the same entries, in increasing order.
#[verifier::external_body]
fn sort_entries(v: &mut Vec<(i32, usize)>)
    ensures
        final(v)@.to_multiset() == old(v)@.to_multiset(),
        forall|i: int, j: int| 0 <= i < j < final(v).len() ==> final(v)@[i].0 <= final(v)@[j].0,
{
    v.sort_unstable()
}

/// The box of node `k`.
fn box_of_node(nodes: &Vec<Node>, spheres: &Vec<Sphere>, k: usize) -> (b: AABB)
    requires
        k < nodes.len(),
        node_ok(nodes@, spheres@, k as int),
        forall|i: int| 0 <= i < spheres.len() ==> (#[trigger] spheres@[i]).wf(),
    ensures
        b == node_box(nodes@, spheres@, k as int),
{
    match nodes[k] {
        Node::Leaf(i) => spheres[i].bounding_box(),
        Node::Inner { bbox, .. } => bbox,
    }
}

/// The low corner of the box of sphere `s` on `axis` (0 for `x`, 1 for `y`, else `z`).
pub open spec fn axis_key(s: Sphere, axis: int) -> int {
    if axis == 0 {
        s.box_of().min.x as int
    } else if axis == 1 {
        s.box_of().min.y as int
    } else {
        s.box_of().min.z as int
    }
}

/// Node `k` splits its spheres in halves of `n / 2` and `n - n / 2`, and on some axis
/// no sphere of the first half has its box start above any of the second.
pub open spec fn split_ok(nodes: Seq<Node>, spheres: Seq<Sphere>, k: int, n: int) -> bool {
    &&& nodes[k] is Inner
    &&& leaf_count(nodes, nodes[k]->left as int) == n / 2
    &&& leaf_count(nodes, nodes[k]->right as int) == n - n / 2
    &&& exists|axis: int| 0 <= axis < 3 && #[trigger] ordered_on(nodes, spheres, k, axis)
}

/// On `axis`, no sphere under the first child of node `k` has its box start above any
/// sphere under the second.
pub open spec fn ordered_on(nodes: Seq<Node>, spheres: Seq<Sphere>, k: int, axis: int) -> bool {
    forall|i: int, j: int|
        #[trigger] leaves(nodes, nodes[k]->left as int).contains(i) && #[trigger] leaves(
            nodes,
            nodes[k]->right as int,
        ).contains(j) ==> axis_key(spheres[i], axis) <= axis_key(spheres[j], axis)
}

/// The key by which spheres are ordered on `axis`: the low corner of their box.
fn sort_key(s: &Sphere, axis: usize) -> (k: i32)
    requires
        s.wf(),
    ensures
        k == axis_key(*s, axis as int),
{
    let b = s.bounding_box();
    if axis == 0 {
        b.min.x
    } else if axis == 1 {
        b.min.y
    } else {
        b.min.z
    }
}

/// Builds a subtree over the spheres numbered in `ids` and returns its place. The split
/// axes are taken in turn from `axes`, from place `*cursor` on and round again; with no
/// axes given, each is drawn at random.
fn build(
    spheres: &Vec<Sphere>,
    nodes: &mut Vec<Node>,
    ids: Vec<usize>,
    axes: &Vec<usize>,
    cursor: &mut usize,
) -> (k: usize)
    requires
        axes.len() > 0 ==> *old(cursor) < axes.len(),
        ids.len() >= 1,
        forall|m: int| 0 <= m < ids.len() ==> ids@[m] < spheres.len(),
        forall|i: int| 0 <= i < spheres.len() ==> (#[trigger] spheres@[i]).wf(),
        arena_ok(old(nodes)@, spheres@),
        old(nodes).len() + 2 * ids.len() <= usize::MAX,
    ensures
        arena_ok(final(nodes)@, spheres@),
        extends(final(nodes)@, old(nodes)@),
        final(nodes).len() < old(nodes).len() + 2 * ids.len(),
        old(nodes).len() <= k < final(nodes).len(),
        leaves(final(nodes)@, k as int) == id_set(ids@),
        leaf_count(final(nodes)@, k as int) == ids.len(),
        ids.len() >= 2 ==> split_ok(final(nodes)@, spheres@, k as int, ids.len() as int),
        axes.len() > 0 ==> *final(cursor) < axes.len(),
    decreases ids.len(),
{
    let ghost start = nodes@;
    if ids.len() == 1 {
        nodes.push(Node::Leaf(ids[0]));
        let k = nodes.len() - 1;
        proof {
            lemma_extends_ok(nodes@, start, spheres@);
            assert(node_ok(nodes@, spheres@, k as int));
            assert(id_set(ids@) =~= set![ids@[0] as int]);
        }
        return k;
    }
    let axis = if axes.len() == 0 {
        random_axis()
    } else {
        let a = axes[*cursor] % 3;
        *cursor = (*cursor + 1) % axes.len();
        a
    };
    let mut entries: Vec<(i32, usize)> = Vec::new();
    let mut m: usize = 0;
    while m < ids.len()
        invariant
            m <= ids.len(),
            entries.len() == m,
            forall|q: int| 0 <= q < m ==> (#[trigger] entries@[q]).1 == ids@[q],
            forall|q: int|
                0 <= q < m ==> (#[trigger] entries@[q]).0 == axis_key(spheres@[ids@[q] as int], axis as int),
            axis < 3,
            forall|q: int| 0 <= q < ids.len() ==> ids@[q] < spheres.len(),
            forall|i: int| 0 <= i < spheres.len() ==> (#[trigger] spheres@[i]).wf(),
        decreases ids.len() - m,
    {
        let id = ids[m];
        entries.push((sort_key(&spheres[id], axis), id));
        m = m + 1;
    }
    let ghost unsorted = entries@;
    sort_entries(&mut entries);
    let mid = entries.len() / 2;
    let mut left_ids: Vec<usize> = Vec::new();
    let mut right_ids: Vec<usize> = Vec::new();
    let mut q: usize = 0;
    while q < entries.len()
        invariant
            q <= entries.len(),
            mid == entries.len() / 2,
            left_ids.len() == if q < mid { q } else { mid },
            right_ids.len() == if q < mid { 0 } else { q - mid },
            forall|x: int| 0 <= x < left_ids.len() ==> left_ids@[x] == (#[trigger] entries@[x]).1,
            forall|x: int| 0 <= x < right_ids.len() ==> right_ids@[x] == (#[trigger] entries@[x + mid]).1,
        decreases entries.len() - q,
    {
        if q < mid {
            left_ids.push(entries[q].1);
        } else {
            right_ids.push(entries[q].1);
        }
        q = q + 1;
    }
    proof {
        assert forall|j: int| id_set(ids@).contains(j) <==> (id_set(left_ids@).contains(j) || id_set(
            right_ids@,
        ).contains(j)) by {
            if id_set(ids@).contains(j) {
                let x = choose|x: int| 0 <= x < ids.len() && ids@[x] as int == j;
                let e = unsorted[x];
                assert(unsorted.contains(e));
                vstd::seq_lib::to_multiset_contains(unsorted, e);
                vstd::seq_lib::to_multiset_contains(entries@, e);
                let y = choose|y: int| 0 <= y < entries.len() && entries@[y] == e;
                if y < mid {
                    assert(left_ids@[y] as int == j);
                } else {
                    let z = y - mid;
                    assert(right_ids@[z] == entries@[z + mid].1);
                    assert(right_ids@[z] as int == j);
                }
            }
            if id_set(left_ids@).contains(j) || id_set(right_ids@).contains(j) {
                let y = if id_set(left_ids@).contains(j) {
                    choose|x: int| 0 <= x < left_ids.len() && left_ids@[x] as int == j
                } else {
                    (choose|x: int| 0 <= x < right_ids.len() && right_ids@[x] as int == j) + mid
                };
                let e = entries@[y];
                assert(entries@.contains(e));
                vstd::seq_lib::to_multiset_contains(unsorted, e);
                vstd::seq_lib::to_multiset_contains(entries@, e);
                let x = choose|x: int| 0 <= x < unsorted.len() && unsorted[x] == e;
                assert(ids@[x] as int == j);
            }
        }
        assert forall|x: int| 0 <= x < left_ids.len() implies left_ids@[x] < spheres.len() by {
            let e = entries@[x];
            assert(entries@.contains(e));
            vstd::seq_lib::to_multiset_contains(unsorted, e);
            vstd::seq_lib::to_multiset_contains(entries@, e);
        }
        assert forall|x: int| 0 <= x < right_ids.len() implies right_ids@[x] < spheres.len() by {
            let e = entries@[x + mid];
            assert(entries@.contains(e));
            vstd::seq_lib::to_multiset_contains(unsorted, e);
            vstd::seq_lib::to_multiset_contains(entries@, e);
        }
    }
    proof {
        vstd::seq_lib::to_multiset_len(unsorted);
        vstd::seq_lib::to_multiset_len(entries@);
    }
    let ghost lset = id_set(left_ids@);
    let ghost rset = id_set(right_ids@);
    let l = build(spheres, nodes, left_ids, axes, cursor);
    let ghost after_left = nodes@;
    let r = build(spheres, nodes, right_ids, axes, cursor);
    proof {
        lemma_extends_leaves(nodes@, after_left, l as int);
        assert(node_ok(nodes@, spheres@, l as int));
        assert(node_ok(nodes@, spheres@, r as int));
    }
    let lb = box_of_node(nodes, spheres, l);
    let rb = box_of_node(nodes, spheres, r);
    let bbox = lb.union(&rb);
    proof {
        lemma_union_encloses(lb, rb);
    }
    let ghost before_push = nodes@;
    nodes.push(Node::Inner { bbox, left: l, right: r });
    let k = nodes.len() - 1;
    proof {
        lemma_extends_ok(nodes@, before_push, spheres@);
        lemma_extends_leaves(nodes@, before_push, l as int);
        lemma_extends_leaves(nodes@, before_push, r as int);
        assert(node_box(nodes@, spheres@, l as int) == node_box(before_push, spheres@, l as int));
        assert(node_box(nodes@, spheres@, r as int) == node_box(before_push, spheres@, r as int));
        assert(node_ok(nodes@, spheres@, k as int));
        assert(leaves(nodes@, k as int) =~= id_set(ids@));
        assert forall|x: int| 0 <= x < entries.len() implies (#[trigger] entries@[x]).0 == axis_key(
            spheres@[entries@[x].1 as int],
            axis as int,
        ) by {
            let e = entries@[x];
            assert(entries@.contains(e));
            vstd::seq_lib::to_multiset_contains(unsorted, e);
            vstd::seq_lib::to_multiset_contains(entries@, e);
        }
        assert forall|i: int, j: int|
            #[trigger] leaves(nodes@, l as int).contains(i) && #[trigger] leaves(nodes@, r as int).contains(
                j,
            ) implies axis_key(spheres@[i], axis as int) <= axis_key(spheres@[j], axis as int) by {
            let x = choose|x: int| 0 <= x < left_ids.len() && left_ids@[x] as int == i;
            let y = choose|y: int| 0 <= y < right_ids.len() && right_ids@[y] as int == j;
            assert(left_ids@[x] == entries@[x].1);
            assert(right_ids@[y] == entries@[y + mid].1);
            assert(entries@[x].0 <= entries@[y + mid].0);
        }
        assert(ordered_on(nodes@, spheres@, k as int, axis as int));
        assert(split_ok(nodes@, spheres@, k as int, ids.len() as int));
    }
    k
}

/// Each face of box `b` is a face of one of the sphere boxes numbered in `ids`.
pub open spec fn faces_attained(b: AABB, spheres: Seq<Sphere>, ids: Set<int>) -> bool {
    &&& exists|j: int| #[trigger] ids.contains(j) && spheres[j].box_of().min.x == b.min.x
    &&& exists|j: int| #[trigger] ids.contains(j) && spheres[j].box_of().min.y == b.min.y
    &&& exists|j: int| #[trigger] ids.contains(j) && spheres[j].box_of().min.z == b.min.z
    &&& exists|j: int| #[trigger] ids.contains(j) && spheres[j].box_of().max.x == b.max.x
    &&& exists|j: int| #[trigger] ids.contains(j) && spheres[j].box_of().max.y == b.max.y
    &&& exists|j: int| #[trigger] ids.contains(j) && spheres[j].box_of().max.z == b.max.z
}

/// The box of a node is no larger than it must be: each of its faces is a face of the
/// box of a sphere under the node.
pub proof fn lemma_box_tight(nodes: Seq<Node>, spheres: Seq<Sphere>, k: int)
    requires
        0 <= k,
        nodes_ok(nodes, spheres, k),
    ensures
        faces_attained(node_box(nodes, spheres, k), spheres, leaves(nodes, k)),
    decreases k,
{
    assert(node_ok(nodes, spheres, k));
    match nodes[k] {
        Node::Leaf(i) => {
            assert(leaves(nodes, k).contains(i as int));
        },
        Node::Inner { bbox, left, right } => {
            assert forall|m: int| 0 <= m <= left implies #[trigger] node_ok(nodes, spheres, m) by {
                assert(node_ok(nodes, spheres, m));
            }
            assert forall|m: int| 0 <= m <= right implies #[trigger] node_ok(nodes, spheres, m) by {
                assert(node_ok(nodes, spheres, m));
            }
            lemma_box_tight(nodes, spheres, left as int);
            lemma_box_tight(nodes, spheres, right as int);
            let (ll, rl) = (leaves(nodes, left as int), leaves(nodes, right as int));
            assert(leaves(nodes, k) == ll.union(rl));
            let jl_min_x = choose|j: int| #[trigger] ll.contains(j) && spheres[j].box_of().min.x == node_box(nodes, spheres, left as int).min.x;
            assert(leaves(nodes, k).contains(jl_min_x));
            let jl_min_y = choose|j: int| #[trigger] ll.contains(j) && spheres[j].box_of().min.y == node_box(nodes, spheres, left as int).min.y;
            assert(leaves(nodes, k).contains(jl_min_y));
            let jl_min_z = choose|j: int| #[trigger] ll.contains(j) && spheres[j].box_of().min.z == node_box(nodes, spheres, left as int).min.z;
            assert(leaves(nodes, k).contains(jl_min_z));
            let jl_max_x = choose|j: int| #[trigger] ll.contains(j) && spheres[j].box_of().max.x == node_box(nodes, spheres, left as int).max.x;
            assert(leaves(nodes, k).contains(jl_max_x));
            let jl_max_y = choose|j: int| #[trigger] ll.contains(j) && spheres[j].box_of().max.y == node_box(nodes, spheres, left as int).max.y;
            assert(leaves(nodes, k).contains(jl_max_y));
            let jl_max_z = choose|j: int| #[trigger] ll.contains(j) && spheres[j].box_of().max.z == node_box(nodes, spheres, left as int).max.z;
            assert(leaves(nodes, k).contains(jl_max_z));
            let jr_min_x = choose|j: int| #[trigger] rl.contains(j) && spheres[j].box_of().min.x == node_box(nodes, spheres, right as int).min.x;
            assert(leaves(nodes, k).contains(jr_min_x));
            let jr_min_y = choose|j: int| #[trigger] rl.contains(j) && spheres[j].box_of().min.y == node_box(nodes, spheres, right as int).min.y;
            assert(leaves(nodes, k).contains(jr_min_y));
            let jr_min_z = choose|j: int| #[trigger] rl.contains(j) && spheres[j].box_of().min.z == node_box(nodes, spheres, right as int).min.z;
            assert(leaves(nodes, k).contains(jr_min_z));
            let jr_max_x = choose|j: int| #[trigger] rl.contains(j) && spheres[j].box_of().max.x == node_box(nodes, spheres, right as int).max.x;
            assert(leaves(nodes, k).contains(jr_max_x));
            let jr_max_y = choose|j: int| #[trigger] rl.contains(j) && spheres[j].box_of().max.y == node_box(nodes, spheres, right as int).max.y;
            assert(leaves(nodes, k).contains(jr_max_y));
            let jr_max_z = choose|j: int| #[trigger] rl.contains(j) && spheres[j].box_of().max.z == node_box(nodes, spheres, right as int).max.z;
            assert(leaves(nodes, k).contains(jr_max_z));
        },
    }
}

/// The hierarchy over a list of spheres: `nodes` is the arena, `root` the place of its top node.
pub struct BVHNode {
    pub spheres: Vec<Sphere>,
    pub nodes: Vec<Node>,
    pub root: usize,
}

impl BVHNode {
    /// The nodes are well formed, every sphere is, and the root reaches every sphere.
    pub open spec fn wf(&self) -> bool {
        &&& nodes_ok(self.nodes@, self.spheres@, self.root as int)
        &&& forall|i: int| 0 <= i < self.spheres.len() ==> (#[trigger] self.spheres@[i]).wf()
        &&& leaves(self.nodes@, self.root as int) == indices(self.spheres.len() as int)
    }

    /// Builds the hierarchy: a single sphere sits under one node whose two children are
    /// that sphere; of more, each sits at exactly one leaf (the leaves reach every sphere
    /// and there are as many as spheres). They are sorted by the low corner of their
    /// boxes on an axis drawn at random, split in halves, and each half built in turn.
    pub fn new(spheres: Vec<Sphere>) -> (b: BVHNode)
        requires
            spheres.len() >= 1,
            2 * spheres.len() + 1 <= usize::MAX,
            forall|i: int| 0 <= i < spheres.len() ==> (#[trigger] spheres@[i]).wf(),
        ensures
            b.wf(),
            b.spheres@ == spheres@,
            spheres.len() >= 2 ==> leaf_count(b.nodes@, b.root as int) == spheres.len(),
            spheres.len() >= 2 ==> split_ok(b.nodes@, b.spheres@, b.root as int, spheres.len() as int),
            spheres.len() == 1 ==> b.nodes@ == seq![
                Node::Leaf(0),
                Node::Inner { bbox: spheres@[0].box_of(), left: 0, right: 0 },
            ] && b.root == 1,
    {
        let axes: Vec<usize> = Vec::new();
        Self::with_axes(spheres, &axes)
    }

    /// Builds the hierarchy as `new` does, with the split axes taken in turn from `axes`
    /// (each read modulo three, and round again when they run out) instead of drawn at
    /// random, so that a caller with a seeded generator gets the same tree every time.
    /// With no axes given, they are drawn at random.
    pub fn with_axes(spheres: Vec<Sphere>, axes: &Vec<usize>) -> (b: BVHNode)
        requires
            spheres.len() >= 1,
            2 * spheres.len() + 1 <= usize::MAX,
            forall|i: int| 0 <= i < spheres.len() ==> (#[trigger] spheres@[i]).wf(),
        ensures
            b.wf(),
            b.spheres@ == spheres@,
            spheres.len() >= 2 ==> leaf_count(b.nodes@, b.root as int) == spheres.len(),
            spheres.len() >= 2 ==> split_ok(b.nodes@, b.spheres@, b.root as int, spheres.len() as int),
            spheres.len() == 1 ==> b.nodes@ == seq![
                Node::Leaf(0),
                Node::Inner { bbox: spheres@[0].box_of(), left: 0, right: 0 },
            ] && b.root == 1,
    {
        let mut nodes: Vec<Node> = Vec::new();
        if spheres.len() == 1 {
            nodes.push(Node::Leaf(0));
            let bbox = spheres[0].bounding_box();
            nodes.push(Node::Inner { bbox, left: 0, right: 0 });
            let b = BVHNode { spheres, nodes, root: 1 };
            proof {
                let bx = b.spheres@[0].box_of();
                assert(bx.union_of(bx) == bx);
                assert(b.nodes@ =~= seq![Node::Leaf(0), Node::Inner { bbox: bx, left: 0, right: 0 }]);
                assert(node_ok(b.nodes@, b.spheres@, 0));
                assert(node_ok(b.nodes@, b.spheres@, 1));
                assert(leaves(b.nodes@, 0) == set![0int]);
                assert(leaves(b.nodes@, 1) =~= indices(1));
            }
            return b;
        }
        let mut ids: Vec<usize> = Vec::new();
        let mut i: usize = 0;
        while i < spheres.len()
            invariant
                i <= spheres.len(),
                ids.len() == i,
                forall|m: int| 0 <= m < i ==> ids@[m] == m,
            decreases spheres.len() - i,
        {
            ids.push(i);
            i = i + 1;
        }
        proof {
            assert forall|j: int| id_set(ids@).contains(j) <==> indices(spheres.len() as int).contains(j) by {
                if 0 <= j < spheres.len() {
                    assert(ids@[j] as int == j);
                }
            }
            assert(id_set(ids@) =~= indices(spheres.len() as int));
        }
        let mut cursor: usize = 0;
        let root = build(&spheres, &mut nodes, ids, axes, &mut cursor);
        let b = BVHNode { spheres, nodes, root };
        proof {
            assert(node_ok(b.nodes@, b.spheres@, root as int));
        }
        b
    }

    /// The nearest hit of `r` in the open-ended range `[t_min, t_max]`; none when the
    /// range is empty or a single point.
    pub fn hit(&self, r: &Ray, t_min: Param, t_max: Param) -> (res: Option<HitRecord>)
        requires
            self.wf(),
            within_limit(r.orig),
            within_limit(r.dir),
            t_min.wf(),
            t_max.wf(),
            param_within(t_min),
            param_within(t_max),
        ensures
            t_min@.lt(t_max@) ==> nearest_among(
                self.spheres@,
                indices(self.spheres.len() as int),
                *r,
                t_min@,
                t_max@,
                res,
            ),
            !t_min@.lt(t_max@) ==> res is None,
    {
        if !t_min.lt(&t_max) {
            return None;
        }
        self.hit_node(self.root, r, t_min, t_max)
    }

    /// The nearest hit in `[t_min, t_max]` among the spheres under node `k`. A subtree
    /// whose box the ray misses over the range is skipped; otherwise both subtrees are
    /// searched over the whole range and the nearer hit is kept, the left one on a tie.
    fn hit_node(&self, k: usize, r: &Ray, t_min: Param, t_max: Param) -> (res: Option<HitRecord>)
        requires
            nodes_ok(self.nodes@, self.spheres@, k as int),
            forall|i: int| 0 <= i < self.spheres.len() ==> (#[trigger] self.spheres@[i]).wf(),
            within_limit(r.orig),
            within_limit(r.dir),
            t_min.wf(),
            t_max.wf(),
            param_within(t_min),
            param_within(t_max),
            t_min@.lt(t_max@),
        ensures
            nearest_among(self.spheres@, leaves(self.nodes@, k as int), *r, t_min@, t_max@, res),
        decreases k,
    {
        let ghost (nodes, spheres) = (self.nodes@, self.spheres@);
        assert(node_ok(nodes, spheres, k as int));
        match self.nodes[k] {
            Node::Leaf(i) => {
                let res = self.spheres[i].hit(r, t_min, t_max);
                proof {
                    assert(leaves(nodes, k as int) == set![i as int]);
                    if let Some(h) = res {
                        assert(leaves(nodes, k as int).contains(i as int));
                        lemma_hit_param(spheres[i as int], *r, t_min@, t_max@);
                        assert(hit_in(spheres, i as int, *r, t_min@, t_max@, h));
                    }
                }
                res
            },
            Node::Inner { bbox, left, right } => {
                let ghost (ll, rl) = (leaves(nodes, left as int), leaves(nodes, right as int));
                assert(leaves(nodes, k as int) == ll.union(rl));
                assert forall|m: int| 0 <= m <= left implies #[trigger] node_ok(nodes, spheres, m) by {
                    assert(node_ok(nodes, spheres, m));
                }
                assert forall|m: int| 0 <= m <= right implies #[trigger] node_ok(nodes, spheres, m) by {
                    assert(node_ok(nodes, spheres, m));
                }
                if !bbox.hit(r, t_min, t_max) {
                    proof {
                        assert forall|j: int| #[trigger] leaves(nodes, k as int).contains(j) implies spheres[j].hit_root(
                            *r,
                            t_min@,
                            t_max@,
                        ) is None by {
                            lemma_box_holds_leaves(nodes, spheres, k as int, j);
                            if spheres[j].hit_root(*r, t_min@, t_max@) is Some {
                                lemma_hit_box_hits(spheres[j], *r, t_min@, t_max@, bbox);
                            }
                        }
                    }
                    return None;
                }
                let lres = self.hit_node(left, r, t_min, t_max);
                let rres = self.hit_node(right, r, t_min, t_max);
                let take_right = match (&lres, &rres) {
                    (_, None) => false,
                    (None, Some(_)) => true,
                    (Some(hl), Some(hr)) => hr.t.lt(&hl.t),
                };
                proof {
                    self.lemma_join(k as int, left as int, right as int, *r, t_min@, t_max@, lres, rres, take_right);
                }
                if take_right {
                    rres
                } else {
                    lres
                }
            },
        }
    }

    /// The nearer of the nearest hits of the two subtrees is the nearest hit under node `k`.
    proof fn lemma_join(
        &self,
        k: int,
        left: int,
        right: int,
        r: Ray,
        t_min: Ext,
        t_max: Ext,
        lres: Option<HitRecord>,
        rres: Option<HitRecord>,
        take_right: bool,
    )
        requires
            0 <= k < self.nodes.len(),
            self.nodes@[k] is Inner,
            self.nodes@[k]->left == left,
            self.nodes@[k]->right == right,
            left < k && right < k,
            forall|i: int| 0 <= i < self.spheres.len() ==> (#[trigger] self.spheres@[i]).wf(),
            t_min.wf(),
            t_max.wf(),
            nearest_among(self.spheres@, leaves(self.nodes@, left), r, t_min, t_max, lres),
            nearest_among(self.spheres@, leaves(self.nodes@, right), r, t_min, t_max, rres),
            take_right == match (lres, rres) {
                (_, None) => false,
                (None, Some(_)) => true,
                (Some(hl), Some(hr)) => hr.t@.lt(hl.t@),
            },
        ensures
            nearest_among(
                self.spheres@,
                leaves(self.nodes@, k),
                r,
                t_min,
                t_max,
                if take_right { rres } else { lres },
            ),
    {
        let (nodes, spheres) = (self.nodes@, self.spheres@);
        let (ll, rl) = (leaves(nodes, left), leaves(nodes, right));
        assert(leaves(nodes, k) == ll.union(rl));
        let res = if take_right { rres } else { lres };
        if let Some(h) = res {
            let (own, other) = if take_right { (rl, ll) } else { (ll, rl) };
            let j0 = choose|j: int| #[trigger] own.contains(j) && hit_in(spheres, j, r, t_min, t_max, h);
            assert(leaves(nodes, k).contains(j0));
            lemma_hit_param(spheres[j0], r, t_min, t_max);
            assert forall|j: int| #[trigger] leaves(nodes, k).contains(j) implies (spheres[j].hit_root(
                r,
                t_min,
                t_max,
            ) matches Some(m) ==> h.t@.le(root_param(spheres[j], r, m))) by {
                if let Some(m) = spheres[j].hit_root(r, t_min, t_max) {
                    if other.contains(j) && !own.contains(j) {
                        let o = if take_right { lres } else { rres };
                        if let Some(ho) = o {
                            let jo = choose|j: int| #[trigger] other.contains(j) && hit_in(spheres, j, r, t_min, t_max, ho);
                            lemma_hit_param(spheres[jo], r, t_min, t_max);
                            lemma_hit_param(spheres[j], r, t_min, t_max);
                            lemma_le_trans(h.t@, ho.t@, root_param(spheres[j], r, m));
                        }
                    }
                }
            }
        }
    }
}

/// The hierarchy finds what a search through every sphere finds: over the same
/// spheres, a ray and a non-empty range, when `from_scan` is what `World::hit` returned
/// and `from_bvh` what `BVHNode::hit` returned, both are none, or both are hits at the
/// same parameter.
pub proof fn lemma_bvh_matches_linear_scan(
    w: World,
    b: BVHNode,
    r: Ray,
    t_min: Ext,
    t_max: Ext,
    from_scan: Option<HitRecord>,
    from_bvh: Option<HitRecord>,
)
    requires
        b.spheres@ == w.spheres@,
        t_min.lt(t_max),
        nearest_among(w.spheres@, indices(w.spheres.len() as int), r, t_min, t_max, from_scan),
        nearest_among(b.spheres@, indices(b.spheres.len() as int), r, t_min, t_max, from_bvh),
    ensures
        from_scan is None <==> from_bvh is None,
        from_scan matches Some(h1) ==> (from_bvh matches Some(h2) ==> h1.t@.le(h2.t@) && h2.t@.le(h1.t@)),
{
    let (spheres, ids) = (w.spheres@, indices(w.spheres.len() as int));
    match (from_scan, from_bvh) {
        (None, Some(h)) => {
            let j = choose|j: int| #[trigger] ids.contains(j) && hit_in(spheres, j, r, t_min, t_max, h);
        },
        (Some(h), None) => {
            let j = choose|j: int| #[trigger] ids.contains(j) && hit_in(spheres, j, r, t_min, t_max, h);
        },
        (Some(h1), Some(h2)) => {
            let j1 = choose|j: int| #[trigger] ids.contains(j) && hit_in(spheres, j, r, t_min, t_max, h1);
            let j2 = choose|j: int| #[trigger] ids.contains(j) && hit_in(spheres, j, r, t_min, t_max, h2);
        },
        (None, None) => {},
    }
}

} // verus!
