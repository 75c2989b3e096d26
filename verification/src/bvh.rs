//! Bounding-volume hierarchy over the bounded primitives of a scene.
//!
//! The tree is a flat array of nodes with every child stored before its
//! parent and the root in the final position. A leaf holds a stable index
//! into the scene's bounded-primitives array; an inner node holds the two
//! child positions. Each node also carries a bounding box, of a type chosen
//! by the renderer: the build combines child boxes with a caller-supplied
//! union operation, and queries skip subtrees the caller's pruning test
//! rejects. The box type itself is opaque here; everything proved is about
//! the shape of the tree and which leaves a query enumerates.

use vstd::prelude::*;
use crate::scene::SceneObjectIndex;

verus! {

/// Payload of a node: either the two child positions or a leaf's index into
/// the bounded-primitives array.
#[derive(Clone, Copy, Debug)]
pub enum BVHChild {
    Node { left: usize, right: usize },
    Leaf(SceneObjectIndex),
}

/// One slot of the flat tree.
#[derive(Clone, Copy, Debug)]
pub struct BVHNode<B> {
    pub bounding_box: B,
    pub child: BVHChild,
}

/// Input to the build: a primitive's index, its bounding box, and the key
/// that fixes the deterministic order leaves are grouped in.
#[derive(Clone, Copy, Debug)]
pub struct BVHLeaf<B> {
    pub key: u64,
    pub index: SceneObjectIndex,
    pub bounding_box: B,
}

/// Flat binary tree of bounding boxes. Immutable once built; leaf indices
/// stay valid as long as the bounded-primitives array is not reordered.
pub struct BVHTree<B> {
    data: Vec<BVHNode<B>>,
}

/// The node stored at position `i` only points at earlier positions, so
/// walking downward always terminates.
pub open spec fn node_wf<B>(node: BVHNode<B>, i: int) -> bool {
    match node.child {
        BVHChild::Node { left, right } => left < i && right < i,
        BVHChild::Leaf(_) => true,
    }
}

/// Every node points only at earlier positions.
pub open spec fn wf_tree<B>(data: Seq<BVHNode<B>>) -> bool {
    forall|i: int| 0 <= i < data.len() ==> node_wf(#[trigger] data[i], i)
}

/// Number of nodes in the subtree rooted at `i`.
pub open spec fn subtree_size<B>(data: Seq<BVHNode<B>>, i: int) -> nat
    decreases i,
        when 0 <= i < data.len() && wf_tree(data)
{
    match data[i].child {
        BVHChild::Node { left, right } => 1 + subtree_size(data, left as int) + subtree_size(
            data,
            right as int,
        ),
        BVHChild::Leaf(_) => 1,
    }
}

/// Number of nodes on the longest downward path from `i`, counting `i`.
pub open spec fn subtree_depth<B>(data: Seq<BVHNode<B>>, i: int) -> nat
    decreases i,
        when 0 <= i < data.len() && wf_tree(data)
{
    match data[i].child {
        BVHChild::Node { left, right } => 1 + vstd::math::max(
            subtree_depth(data, left as int) as int,
            subtree_depth(data, right as int) as int,
        ) as nat,
        BVHChild::Leaf(_) => 1,
    }
}

/// Leaf indices of the subtree rooted at `i`, left subtree first.
pub open spec fn subtree_leaves<B>(data: Seq<BVHNode<B>>, i: int) -> Seq<SceneObjectIndex>
    decreases i,
        when 0 <= i < data.len() && wf_tree(data)
{
    match data[i].child {
        BVHChild::Node { left, right } => subtree_leaves(data, left as int) + subtree_leaves(
            data,
            right as int,
        ),
        BVHChild::Leaf(x) => seq![x],
    }
}

/// Leaf indices a pruned depth-first walk from `i` enumerates: nothing of a
/// marked subtree, and otherwise the left subtree's leaves before the right
/// subtree's.
pub open spec fn reachable_leaves<B>(
    data: Seq<BVHNode<B>>,
    pruned: Seq<bool>,
    i: int,
) -> Seq<SceneObjectIndex>
    decreases i,
        when 0 <= i < data.len() && wf_tree(data)
{
    if pruned[i] {
        Seq::empty()
    } else {
        match data[i].child {
            BVHChild::Node { left, right } => {
                let l = if pruned[left as int] {
                    Seq::empty()
                } else {
                    reachable_leaves(data, pruned, left as int)
                };
                let r = if pruned[right as int] {
                    Seq::empty()
                } else {
                    reachable_leaves(data, pruned, right as int)
                };
                l + r
            },
            BVHChild::Leaf(x) => seq![x],
        }
    }
}

/// A subtree's statistics only depend on the slots up to its root, so
/// appending nodes behind the root never changes them.
pub proof fn lemma_subtree_prefix<B>(d1: Seq<BVHNode<B>>, d2: Seq<BVHNode<B>>, i: int)
    requires
        wf_tree(d1),
        wf_tree(d2),
        0 <= i < d1.len(),
        i < d2.len(),
        forall|j: int| 0 <= j <= i ==> d1[j] == d2[j],
    ensures
        subtree_leaves(d1, i) == subtree_leaves(d2, i),
        subtree_size(d1, i) == subtree_size(d2, i),
        subtree_depth(d1, i) == subtree_depth(d2, i),
    decreases i,
{
    assert(node_wf(d1[i], i));
    match d1[i].child {
        BVHChild::Node { left, right } => {
            lemma_subtree_prefix(d1, d2, left as int);
            lemma_subtree_prefix(d1, d2, right as int);
        },
        BVHChild::Leaf(_) => {},
    }
}

/// Every subtree holds at least one node and one leaf.
pub proof fn lemma_subtree_size_pos<B>(data: Seq<BVHNode<B>>, i: int)
    requires
        wf_tree(data),
        0 <= i < data.len(),
    ensures
        subtree_size(data, i) >= 1,
        subtree_leaves(data, i).len() >= 1,
        subtree_depth(data, i) >= 1,
        subtree_depth(data, i) <= i + 1,
    decreases i,
{
    assert(node_wf(data[i], i));
    match data[i].child {
        BVHChild::Node { left, right } => {
            lemma_subtree_size_pos(data, left as int);
            lemma_subtree_size_pos(data, right as int);
        },
        BVHChild::Leaf(_) => {},
    }
}

/// Size estimate for the flat tree over `n` leaves: n + n/2 + n/4 + ...
pub open spec fn capacity_bound(n: nat) -> nat
    decreases n,
{
    if n == 0 {
        0
    } else {
        n + capacity_bound(n / 2)
    }
}

/// The estimate never exceeds twice the leaf count.
pub proof fn lemma_capacity_bound_le(n: nat)
    ensures
        capacity_bound(n) <= 2 * n,
    decreases n,
{
    if n > 0 {
        lemma_capacity_bound_le(n / 2);
    }
}

/// Rough preallocation size for a flat tree over `n` leaves.
pub fn calculate_capacity(n: usize) -> (c: usize)
    requires
        2 * n <= usize::MAX,
    ensures
        c == capacity_bound(n as nat),
{
    let mut m: usize = n;
    let mut c: usize = 0;
    proof {
        lemma_capacity_bound_le(n as nat);
    }
    while m > 0
        invariant
            c + capacity_bound(m as nat) == capacity_bound(n as nat),
            capacity_bound(n as nat) <= 2 * n <= usize::MAX,
            c <= capacity_bound(n as nat),
            m <= n,
        decreases m,
    {
        proof {
            lemma_capacity_bound_le(m as nat);
        }
        c = c + m;
        m = m / 2;
    }
    c
}

/// Leaves in nondecreasing key order.
pub open spec fn sorted_by_key<B>(s: Seq<BVHLeaf<B>>) -> bool {
    forall|i: int, j: int|
        0 <= i < j < s.len() ==> (#[trigger] s[i]).key <= (#[trigger] s[j]).key
}

/// No two leaves share a key.
pub open spec fn distinct_keys<B>(s: Seq<BVHLeaf<B>>) -> bool {
    forall|i: int, j: int|
        0 <= i < j < s.len() ==> (#[trigger] s[i]).key != (#[trigger] s[j]).key
}

/// Reorders the leaves into nondecreasing key order, keeping ties in their
/// original relative order (leftmost minimum is extracted first).
fn sort_leaves<B: Copy>(v: Vec<BVHLeaf<B>>) -> (r: Vec<BVHLeaf<B>>)
    ensures
        r@.len() == v@.len(),
        r@.to_multiset() == v@.to_multiset(),
        sorted_by_key(r@),
{
    broadcast use vstd::seq_lib::group_to_multiset_ensures;

    let mut rest = v;
    let mut out: Vec<BVHLeaf<B>> = Vec::new();
    proof {
        assert(out@.to_multiset().add(rest@.to_multiset()) =~= v@.to_multiset());
    }
    while rest.len() > 0
        invariant
            out@.to_multiset().add(rest@.to_multiset()) == v@.to_multiset(),
            out@.len() + rest@.len() == v@.len(),
            sorted_by_key(out@),
            forall|a: int, b: int|
                0 <= a < out@.len() && 0 <= b < rest@.len() ==> (#[trigger] out@[a]).key <= (
                #[trigger] rest@[b]).key,
        decreases rest@.len(),
    {
        // position of the leftmost minimal key among the remaining leaves
        let mut m: usize = 0;
        let mut j: usize = 1;
        while j < rest.len()
            invariant
                0 <= m < j <= rest@.len(),
                forall|k: int| 0 <= k < j ==> (#[trigger] rest@[k]).key >= rest@[m as int].key,
            decreases rest@.len() - j,
        {
            if rest[j].key < rest[m].key {
                m = j;
            }
            j = j + 1;
        }
        let x = rest[m];
        let ghost old_out = out@;
        let ghost old_rest = rest@;
        rest.remove(m);
        out.push(x);
        proof {
            old_rest.to_multiset_ensures();
            old_out.to_multiset_ensures();
            assert(old_rest.contains(x)) by {
                assert(old_rest[m as int] == x);
            }
            assert(old_rest.to_multiset().count(x) > 0);
            assert(out@ =~= old_out.push(x));
            assert(out@.to_multiset() =~= old_out.to_multiset().insert(x));
            assert(rest@ =~= old_rest.remove(m as int));
            assert(out@.to_multiset().add(rest@.to_multiset()) =~= v@.to_multiset());
            assert forall|a: int, b: int|
                0 <= a < out@.len() && 0 <= b < rest@.len() implies (#[trigger] out@[a]).key <= (
            #[trigger] rest@[b]).key by {
                let bb = if b < m { b } else { b + 1 };
                assert(rest@[b] == old_rest[bb]);
                if a < old_out.len() {
                    assert(out@[a] == old_out[a]);
                } else {
                    assert(out@[a] == x);
                }
            }
        }
    }
    out
}


/// A leaf row of the flat tree, as the build lays it down.
pub open spec fn leaf_node_of<B>(l: BVHLeaf<B>) -> BVHNode<B> {
    BVHNode { bounding_box: l.bounding_box, child: BVHChild::Leaf(l.index) }
}

/// Index stored in a leaf row. Only meaningful on rows holding a leaf.
pub open spec fn leaf_payload<B>(node: BVHNode<B>) -> SceneObjectIndex {
    match node.child {
        BVHChild::Node { .. } => SceneObjectIndex(0),
        BVHChild::Leaf(x) => x,
    }
}

/// Indices stored in the rows `start..end`.
pub open spec fn row_payloads<B>(data: Seq<BVHNode<B>>, start: int, end: int) -> Seq<
    SceneObjectIndex,
> {
    Seq::new((end - start) as nat, |k: int| leaf_payload(data[start + k]))
}

/// Position of the subtree root the build returns for the leaf range
/// `start..end` when inner nodes are appended from position `base` on.
pub open spec fn build_root(start: int, end: int, base: int) -> int {
    if end - start == 1 {
        start
    } else {
        base + (end - start) - 2
    }
}

/// Child pairs of the inner nodes the build appends for the leaf range
/// `start..end`, in the order they are appended. The range is split at its
/// middle, both halves are built left first, and the subtree root comes last,
/// so the whole layout is a function of the range alone.
pub open spec fn build_pairs(start: int, end: int, base: int) -> Seq<(int, int)>
    decreases end - start,
        when start < end
{
    if end - start == 1 {
        Seq::empty()
    } else {
        let mid = (start + end) / 2;
        let lp = build_pairs(start, mid, base);
        let rp = build_pairs(mid, end, base + (mid - start - 1));
        lp + rp + seq![
            (build_root(start, mid, base), build_root(mid, end, base + (mid - start - 1))),
        ]
    }
}

/// The build appends one inner node fewer than the range has leaves.
pub proof fn lemma_build_pairs_len(start: int, end: int, base: int)
    requires
        start < end,
    ensures
        build_pairs(start, end, base).len() == end - start - 1,
    decreases end - start,
{
    if end - start > 1 {
        let mid = (start + end) / 2;
        lemma_build_pairs_len(start, mid, base);
        lemma_build_pairs_len(mid, end, base + (mid - start - 1));
    }
}

/// Builds the subtree over the leaf rows `start..end`, appending the inner
/// nodes and returning the position of the subtree's root. Each inner node's
/// box is the supplied union of its children's boxes.
#[verifier::rlimit(80)]
fn recursive_build_tree<B: Copy, F: Fn(B, B) -> B + Copy>(
    arr: &mut Vec<BVHNode<B>>,
    start: usize,
    end: usize,
    union: F,
) -> (root: usize)
    requires
        forall|a: B, b: B| #[trigger] call_requires(union, (a, b)),
        start < end <= old(arr)@.len(),
        wf_tree(old(arr)@),
        forall|k: int| start <= k < end ==> (#[trigger] old(arr)@[k]).child is Leaf,
    ensures
        final(arr)@.len() == old(arr)@.len() + (end - start) - 1,
        final(arr)@.subrange(0, old(arr)@.len() as int) == old(arr)@,
        wf_tree(final(arr)@),
        root == build_root(start as int, end as int, old(arr)@.len() as int),
        start <= root < final(arr)@.len(),
        subtree_leaves(final(arr)@, root as int) == row_payloads(
            old(arr)@,
            start as int,
            end as int,
        ),
        forall|j: int|
            0 <= j < (end - start) - 1 ==> inner_row_ok(
                final(arr)@,
                old(arr)@.len() + j,
                #[trigger] build_pairs(start as int, end as int, old(arr)@.len() as int)[j],
                union,
            ),
    decreases end - start,
{
    let ghost base = arr@.len() as int;
    proof {
        lemma_build_pairs_len(start as int, end as int, base);
    }
    if end - start == 1 {
        proof {
            assert(final(arr)@.subrange(0, base) =~= old(arr)@);
            assert(subtree_leaves(arr@, start as int) =~= row_payloads(
                arr@,
                start as int,
                end as int,
            ));
        }
        return start;
    }
    let mid = start + (end - start) / 2;
    proof {
        assert(mid == (start + end) / 2);
    }
    let left_root = recursive_build_tree(arr, start, mid, union);
    let ghost d1 = arr@;
    proof {
        assert forall|k: int| mid <= k < end implies (#[trigger] d1[k]).child is Leaf by {
            assert(d1[k] == d1.subrange(0, base)[k]);
            assert((old(arr)@[k]).child is Leaf);
        }
    }
    let right_root = recursive_build_tree(arr, mid, end, union);
    let ghost d2 = arr@;

    let lb = arr[left_root].bounding_box;
    let rb = arr[right_root].bounding_box;
    let bb = union(lb, rb);
    let i = arr.len();
    arr.push(
        BVHNode { bounding_box: bb, child: BVHChild::Node { left: left_root, right: right_root } },
    );
    let ghost d3 = arr@;
    proof {
        assert(d2.subrange(0, d1.len() as int) == d1);
        assert forall|j: int| 0 <= j < d1.len() implies d1[j] == d2[j] by {
            assert(d1[j] == d2.subrange(0, d1.len() as int)[j]);
        }
        assert forall|j: int| 0 <= j < d2.len() implies d2[j] == d3[j] by {}
        assert(wf_tree(d3)) by {
            assert forall|j: int| 0 <= j < d3.len() implies node_wf(#[trigger] d3[j], j) by {
                if j < d2.len() {
                    assert(node_wf(d2[j], j));
                }
            }
        }
        // the left subtree kept its leaves through the right build and the push
        lemma_subtree_prefix(d1, d3, left_root as int);
        lemma_subtree_prefix(d2, d3, right_root as int);
        assert(subtree_leaves(d3, i as int) == subtree_leaves(d3, left_root as int)
            + subtree_leaves(d3, right_root as int));
        assert(row_payloads(old(arr)@, start as int, mid as int) =~= row_payloads(
            d1,
            start as int,
            mid as int,
        ));
        assert(row_payloads(d1, mid as int, end as int) =~= row_payloads(
            old(arr)@,
            mid as int,
            end as int,
        ));
        assert(subtree_leaves(d3, i as int) =~= row_payloads(old(arr)@, start as int, end as int));
        assert(d3.subrange(0, base) =~= old(arr)@);

        // the appended rows match the pinned layout
        let pairs = build_pairs(start as int, end as int, base);
        let lp = build_pairs(start as int, mid as int, base);
        let rp = build_pairs(mid as int, end as int, base + (mid - start - 1));
        lemma_build_pairs_len(start as int, mid as int, base);
        lemma_build_pairs_len(mid as int, end as int, base + (mid - start - 1));
        assert(pairs == lp + rp + seq![
            (
                build_root(start as int, mid as int, base),
                build_root(mid as int, end as int, base + (mid - start - 1)),
            ),
        ]);
        assert forall|j: int| 0 <= j < (end - start) - 1 implies inner_row_ok(
            d3,
            base + j,
            #[trigger] pairs[j],
            union,
        ) by {
            let k = base + j;
            if k < d1.len() {
                assert(inner_row_ok(d1, k, lp[j], union));
                assert(pairs[j] == lp[j]);
                assert(d3[k] == d1[k]);
                let p = lp[j];
                assert(0 <= p.0 < d1.len() && 0 <= p.1 < d1.len());
                assert(d3[p.0] == d1[p.0] && d3[p.1] == d1[p.1]);
            } else if k < d2.len() {
                let jr = j - (mid - start - 1);
                assert(inner_row_ok(d2, k, rp[jr], union));
                assert(pairs[j] == rp[jr]);
                let p = rp[jr];
                assert(0 <= p.0 < d2.len() && 0 <= p.1 < d2.len());
                assert(d3[k] == d2[k] && d3[p.0] == d2[p.0] && d3[p.1] == d2[p.1]);
            } else {
                assert(k == i);
                assert(pairs[j] == (left_root as int, right_root as int));
            }
        }
    }
    i
}

/// Row `k` is an inner node with the child pair `p`, and its box came out of
/// the union operation applied to its children's boxes.
pub open spec fn inner_row_ok<B, F: Fn(B, B) -> B>(
    data: Seq<BVHNode<B>>,
    k: int,
    p: (int, int),
    union: F,
) -> bool {
    &&& 0 <= p.0 < k && 0 <= p.1 < k < data.len()
    &&& data[k].child == (BVHChild::Node { left: p.0 as usize, right: p.1 as usize })
    &&& call_ensures(
        union,
        (data[p.0].bounding_box, data[p.1].bounding_box),
        data[k].bounding_box,
    )
}


/// Leaf indices of the whole tree: the subtree of the root, or nothing for
/// an empty tree.
pub open spec fn root_leaves<B>(data: Seq<BVHNode<B>>) -> Seq<SceneObjectIndex> {
    if data.len() == 0 {
        Seq::empty()
    } else {
        subtree_leaves(data, data.len() - 1)
    }
}

/// The first `objs.len()` rows of `data` hold exactly the input leaves,
/// reordered into key order `s`.
pub open spec fn generated_from<B>(
    data: Seq<BVHNode<B>>,
    objs: Seq<BVHLeaf<B>>,
    s: Seq<BVHLeaf<B>>,
) -> bool {
    &&& s.len() == objs.len()
    &&& s.to_multiset() == objs.to_multiset()
    &&& sorted_by_key(s)
    &&& forall|i: int| 0 <= i < s.len() ==> data[i] == leaf_node_of(#[trigger] s[i])
}

impl<B: Copy> BVHTree<B> {
    /// The flat node array; the root, when the tree is not empty, sits in the
    /// final position.
    pub closed spec fn view(&self) -> Seq<BVHNode<B>> {
        self.data@
    }

    /// Structural invariant: children are stored before their parents.
    pub open spec fn wf(&self) -> bool {
        wf_tree(self@)
    }

    fn new(flat_tree: Vec<BVHNode<B>>) -> (t: BVHTree<B>)
        requires
            wf_tree(flat_tree@),
        ensures
            t@ == flat_tree@,
            t.wf(),
    {
        BVHTree { data: flat_tree }
    }

    /// Read-only access to the node array.
    pub fn flat_tree(&self) -> (r: &Vec<BVHNode<B>>)
        ensures
            r@ == self@,
    {
        &self.data
    }

    /// Builds the hierarchy over the given leaves. The leaves are ordered by
    /// their keys (the caller's deterministic grouping order), each half of a
    /// range is built recursively, and every inner node's box is the supplied
    /// union of its children's boxes. The contract pins the whole layout: the
    /// sorted leaves occupy the first rows, and the inner rows' child pairs
    /// are a fixed function of the leaf count.
    pub fn generate<F: Fn(B, B) -> B + Copy>(objects: Vec<BVHLeaf<B>>, union: F) -> (t: BVHTree<
        B,
    >)
        requires
            forall|a: B, b: B| #[trigger] call_requires(union, (a, b)),
        ensures
            t.wf(),
            t@.len() == if objects@.len() == 0 {
                0int
            } else {
                2 * objects@.len() - 1
            },
            exists|s: Seq<BVHLeaf<B>>| #[trigger] generated_from(t@, objects@, s),
            objects@.len() > 0 ==> subtree_leaves(t@, t@.len() - 1) == row_payloads(
                t@,
                0,
                objects@.len() as int,
            ),
            forall|x: SceneObjectIndex|
                #[trigger] root_leaves(t@).contains(x) <==> exists|i: int|
                    0 <= i < objects@.len() && (#[trigger] objects@[i]).index == x,
            forall|j: int|
                0 <= j < objects@.len() - 1 ==> inner_row_ok(
                    t@,
                    objects@.len() + j,
                    #[trigger] build_pairs(0, objects@.len() as int, objects@.len() as int)[j],
                    union,
                ),
    {
        broadcast use vstd::seq_lib::group_to_multiset_ensures;

        let ghost objs = objects@;
        let sorted = sort_leaves(objects);
        let n = sorted.len();
        let mut flat: Vec<BVHNode<B>> = Vec::new();
        let mut i: usize = 0;
        while i < n
            invariant
                i <= n == sorted@.len(),
                flat@.len() == i,
                forall|j: int| 0 <= j < i ==> flat@[j] == leaf_node_of(#[trigger] sorted@[j]),
            decreases n - i,
        {
            flat.push(
                BVHNode {
                    bounding_box: sorted[i].bounding_box,
                    child: BVHChild::Leaf(sorted[i].index),
                },
            );
            i = i + 1;
        }
        proof {
            assert(wf_tree(flat@)) by {
                assert forall|j: int| 0 <= j < flat@.len() implies node_wf(
                    #[trigger] flat@[j],
                    j,
                ) by {
                    assert(flat@[j] == leaf_node_of(sorted@[j]));
                }
            }
            assert forall|k: int| 0 <= k < n implies (#[trigger] flat@[k]).child is Leaf by {
                assert(flat@[k] == leaf_node_of(sorted@[k]));
            }
        }
        let ghost rows = flat@;
        if n > 1 {
            let root = recursive_build_tree(&mut flat, 0, n, union);
            proof {
                lemma_build_pairs_len(0, n as int, n as int);
                assert forall|j: int| 0 <= j < rows.len() implies rows[j] == flat@[j] by {
                    assert(rows[j] == flat@.subrange(0, rows.len() as int)[j]);
                }
            }
        }
        let t = BVHTree::new(flat);
        proof {
            assert(generated_from(t@, objs, sorted@));
            if n > 0 {
                assert(subtree_leaves(t@, t@.len() - 1) == row_payloads(t@, 0, n as int)) by {
                    if n == 1 {
                        assert(node_wf(t@[0], 0));
                        assert(subtree_leaves(t@, 0) =~= row_payloads(t@, 0, 1));
                    } else {
                        assert(row_payloads(rows, 0, n as int) =~= row_payloads(t@, 0, n as int));
                    }
                }
                assert forall|x: SceneObjectIndex|
                    #[trigger] root_leaves(t@).contains(x) <==> exists|i: int|
                        0 <= i < objs.len() && (#[trigger] objs[i]).index == x by {
                    let leaves = root_leaves(t@);
                    assert(leaves == row_payloads(t@, 0, n as int));
                    if leaves.contains(x) {
                        let k = choose|k: int| 0 <= k < leaves.len() && leaves[k] == x;
                        assert(t@[k] == leaf_node_of(sorted@[k]));
                        assert(sorted@[k].index == x);
                        assert(sorted@.contains(sorted@[k]));
                        assert(objs.to_multiset().count(sorted@[k]) > 0);
                        assert(objs.contains(sorted@[k]));
                        let i = choose|i: int| 0 <= i < objs.len() && objs[i] == sorted@[k];
                        assert(objs[i].index == x);
                    }
                    if exists|i: int| 0 <= i < objs.len() && (#[trigger] objs[i]).index == x {
                        let i = choose|i: int| 0 <= i < objs.len() && (#[trigger] objs[i]).index
                            == x;
                        assert(objs.contains(objs[i]));
                        assert(sorted@.to_multiset().count(objs[i]) > 0);
                        assert(sorted@.contains(objs[i]));
                        let k = choose|k: int| 0 <= k < sorted@.len() && sorted@[k] == objs[i];
                        assert(t@[k] == leaf_node_of(sorted@[k]));
                        assert(leaves[k] == x);
                        assert(leaves.contains(x));
                    }
                }
            }
        }
        t
    }
}


/// Leaf indices a pruned walk of the whole tree enumerates.
pub open spec fn reachable_root<B>(data: Seq<BVHNode<B>>, pruned: Seq<bool>) -> Seq<
    SceneObjectIndex,
> {
    if data.len() == 0 {
        Seq::empty()
    } else {
        reachable_leaves(data, pruned, data.len() - 1)
    }
}

/// Total size of the subtrees whose roots sit on the stack; the measure a
/// depth-first walk shrinks at every step.
pub open spec fn stack_sizes<B>(data: Seq<BVHNode<B>>, stack: Seq<usize>) -> nat
    decreases stack.len(),
{
    if stack.len() == 0 {
        0
    } else {
        subtree_size(data, stack.last() as int) + stack_sizes(data, stack.drop_last())
    }
}

/// Leaves still to be enumerated: those of the top of the stack first.
pub open spec fn stack_reach<B>(
    data: Seq<BVHNode<B>>,
    pruned: Seq<bool>,
    stack: Seq<usize>,
) -> Seq<SceneObjectIndex>
    decreases stack.len(),
{
    if stack.len() == 0 {
        Seq::empty()
    } else {
        reachable_leaves(data, pruned, stack.last() as int) + stack_reach(
            data,
            pruned,
            stack.drop_last(),
        )
    }
}

/// Pushing a node adds its subtree on top of both stack measures.
proof fn lemma_stack_push<B>(data: Seq<BVHNode<B>>, pruned: Seq<bool>, stack: Seq<usize>, e: usize)
    ensures
        stack_sizes(data, stack.push(e)) == subtree_size(data, e as int) + stack_sizes(
            data,
            stack,
        ),
        stack_reach(data, pruned, stack.push(e)) == reachable_leaves(data, pruned, e as int)
            + stack_reach(data, pruned, stack),
{
    assert(stack.push(e).drop_last() =~= stack);
    assert(stack.push(e).last() == e);
}

/// Popping the top splits both stack measures at the top node.
proof fn lemma_stack_pop<B>(data: Seq<BVHNode<B>>, pruned: Seq<bool>, stack: Seq<usize>)
    requires
        stack.len() > 0,
    ensures
        stack_sizes(data, stack) == subtree_size(data, stack.last() as int) + stack_sizes(
            data,
            stack.drop_last(),
        ),
        stack_reach(data, pruned, stack) == reachable_leaves(data, pruned, stack.last() as int)
            + stack_reach(data, pruned, stack.drop_last()),
{
}

/// Everything under node `i` is part of the whole tree's leaf enumeration.
pub open spec fn leaves_within<B>(data: Seq<BVHNode<B>>, i: int) -> bool {
    forall|x: SceneObjectIndex|
        subtree_leaves(data, i).contains(x) ==> #[trigger] root_leaves(data).contains(x)
}

impl<B: Copy> BVHTree<B> {
    /// Depth-first enumeration of the leaves whose ancestors all carry an
    /// unset mark. `pruned` holds one mark per node; a set mark skips that
    /// node's whole subtree. The result is exactly the spec-level pruned
    /// enumeration, left subtrees first. `buffer` is the caller's reusable
    /// scratch stack.
    pub fn query_leaf_marked(&self, pruned: &Vec<bool>, buffer: &mut Vec<usize>) -> (r: Vec<
        SceneObjectIndex,
    >)
        requires
            self.wf(),
            pruned@.len() == self@.len(),
        ensures
            r@ == reachable_root(self@, pruned@),
            final(buffer)@.len() == 0,
    {
        let ghost data = self@;
        buffer.clear();
        let mut r: Vec<SceneObjectIndex> = Vec::new();
        let n = self.data.len();
        if n == 0 {
            return r;
        }
        if !pruned[n - 1] {
            let ghost empty_stack = buffer@;
            buffer.push(n - 1);
            proof {
                lemma_stack_push(data, pruned@, empty_stack, (n - 1) as usize);
                assert(r@ + stack_reach(data, pruned@, buffer@) =~= reachable_root(data, pruned@));
            }
        } else {
            proof {
                assert(reachable_leaves(data, pruned@, n - 1) =~= Seq::<SceneObjectIndex>::empty());
                assert(r@ + stack_reach(data, pruned@, buffer@) =~= reachable_root(data, pruned@));
            }
        }
        while buffer.len() > 0
            invariant
                self.wf(),
                data == self@,
                n == data.len(),
                pruned@.len() == data.len(),
                forall|k: int|
                    0 <= k < buffer@.len() ==> (#[trigger] buffer@[k]) < data.len() && !pruned@[buffer@[k] as int],
                r@ + stack_reach(data, pruned@, buffer@) == reachable_root(data, pruned@),
            decreases stack_sizes(data, buffer@),
        {
            let ghost stack0 = buffer@;
            let ghost measure0 = stack_sizes(data, stack0);
            let i = match buffer.pop() {
                Some(i) => i,
                None => {
                    return r;  // unreachable: the loop condition ensures a top
                },
            };
            proof {
                assert(stack0.last() == i && buffer@ == stack0.drop_last());
                lemma_stack_pop(data, pruned@, stack0);
                lemma_subtree_size_pos(data, i as int);
            }
            match self.data[i].child {
                BVHChild::Leaf(x) => {
                    r.push(x);
                    proof {
                        assert(reachable_leaves(data, pruned@, i as int) =~= seq![x]);
                        assert(r@ + stack_reach(data, pruned@, buffer@) =~= reachable_root(
                            data,
                            pruned@,
                        ));
                    }
                },
                BVHChild::Node { left, right } => {
                    proof {
                        assert(node_wf(data[i as int], i as int));
                        lemma_subtree_size_pos(data, left as int);
                        lemma_subtree_size_pos(data, right as int);
                        assert(subtree_size(data, i as int) == 1 + subtree_size(data, left as int)
                            + subtree_size(data, right as int));
                    }
                    let ghost stack1 = buffer@;
                    if !pruned[right] {
                        buffer.push(right);
                        proof {
                            lemma_stack_push(data, pruned@, stack1, right);
                        }
                    } else {
                        proof {
                            assert(reachable_leaves(data, pruned@, right as int)
                                =~= Seq::<SceneObjectIndex>::empty());
                        }
                    }
                    let ghost stack2 = buffer@;
                    if !pruned[left] {
                        buffer.push(left);
                        proof {
                            lemma_stack_push(data, pruned@, stack2, left);
                        }
                    } else {
                        proof {
                            assert(reachable_leaves(data, pruned@, left as int)
                                =~= Seq::<SceneObjectIndex>::empty());
                        }
                    }
                    proof {
                        assert(stack_sizes(data, buffer@) < measure0);
                        assert(reachable_leaves(data, pruned@, i as int) == (if pruned@[left as int] {
                            Seq::<SceneObjectIndex>::empty()
                        } else {
                            reachable_leaves(data, pruned@, left as int)
                        }) + (if pruned@[right as int] {
                            Seq::<SceneObjectIndex>::empty()
                        } else {
                            reachable_leaves(data, pruned@, right as int)
                        }));
                        assert(r@ + stack_reach(data, pruned@, buffer@) =~= reachable_root(
                            data,
                            pruned@,
                        ));
                    }
                },
            }
        }
        proof {
            assert(stack_reach(data, pruned@, buffer@) =~= Seq::<SceneObjectIndex>::empty());
            assert(r@ =~= reachable_root(data, pruned@));
        }
        r
    }

    /// Depth-first enumeration of the leaves the caller's pruning test lets
    /// through: a subtree is skipped when `pruner` answers true on its root.
    /// The test may consult whatever the caller captured, so the contract
    /// promises only soundness: every index handed out belongs to a leaf of
    /// this tree. `buffer` is the caller's reusable scratch stack.
    pub fn query_leaf<F: Fn(BVHNode<B>) -> bool>(&self, pruner: F, buffer: &mut Vec<usize>) -> (r:
        Vec<SceneObjectIndex>)
        requires
            self.wf(),
            forall|node: BVHNode<B>| #[trigger] call_requires(pruner, (node,)),
        ensures
            forall|k: int| 0 <= k < r@.len() ==> root_leaves(self@).contains(#[trigger] r@[k]),
            final(buffer)@.len() == 0,
    {
        broadcast use vstd::seq_lib::lemma_seq_concat_contains_all_elements;

        let ghost data = self@;
        buffer.clear();
        let mut r: Vec<SceneObjectIndex> = Vec::new();
        let n = self.data.len();
        if n == 0 {
            return r;
        }
        if !pruner(self.data[n - 1]) {
            buffer.push(n - 1);
        }
        proof {
            if data.len() > 0 {
                lemma_subtree_size_pos(data, data.len() - 1);
            }
        }
        while buffer.len() > 0
            invariant
                self.wf(),
                data == self@,
                n == data.len(),
                forall|node: BVHNode<B>| #[trigger] call_requires(pruner, (node,)),
                forall|k: int|
                    0 <= k < buffer@.len() ==> (#[trigger] buffer@[k]) < data.len()
                        && leaves_within(data, buffer@[k] as int),
                forall|k: int| 0 <= k < r@.len() ==> root_leaves(data).contains(#[trigger] r@[k]),
            decreases stack_sizes(data, buffer@),
        {
            let ghost stack0 = buffer@;
            let ghost measure0 = stack_sizes(data, stack0);
            let i = match buffer.pop() {
                Some(i) => i,
                None => {
                    return r;  // unreachable: the loop condition ensures a top
                },
            };
            proof {
                assert(stack0.last() == i && buffer@ == stack0.drop_last());
                lemma_stack_pop(data, Seq::<bool>::empty(), stack0);
                lemma_subtree_size_pos(data, i as int);
            }
            match self.data[i].child {
                BVHChild::Leaf(x) => {
                    proof {
                        assert(subtree_leaves(data, i as int) =~= seq![x]);
                        assert(subtree_leaves(data, i as int)[0] == x);
                        assert(subtree_leaves(data, i as int).contains(x));
                        assert(root_leaves(data).contains(x));
                    }
                    r.push(x);
                },
                BVHChild::Node { left, right } => {
                    proof {
                        assert(node_wf(data[i as int], i as int));
                        lemma_subtree_size_pos(data, left as int);
                        lemma_subtree_size_pos(data, right as int);
                        assert(subtree_size(data, i as int) == 1 + subtree_size(data, left as int)
                            + subtree_size(data, right as int));
                        assert(subtree_leaves(data, i as int) == subtree_leaves(data, left as int)
                            + subtree_leaves(data, right as int));
                        assert forall|x: SceneObjectIndex|
                            subtree_leaves(data, left as int).contains(x) implies #[trigger] root_leaves(
                            data,
                        ).contains(x) by {
                            vstd::seq_lib::lemma_seq_concat_contains_all_elements(
                                subtree_leaves(data, left as int),
                                subtree_leaves(data, right as int),
                                x,
                            );
                            assert(subtree_leaves(data, i as int).contains(x));
                        }
                        assert forall|x: SceneObjectIndex|
                            subtree_leaves(data, right as int).contains(x) implies #[trigger] root_leaves(
                            data,
                        ).contains(x) by {
                            vstd::seq_lib::lemma_seq_concat_contains_all_elements(
                                subtree_leaves(data, left as int),
                                subtree_leaves(data, right as int),
                                x,
                            );
                            assert(subtree_leaves(data, i as int).contains(x));
                        }
                    }
                    let ghost stack1 = buffer@;
                    if !pruner(self.data[right]) {
                        buffer.push(right);
                        proof {
                            lemma_stack_push(data, Seq::<bool>::empty(), stack1, right);
                        }
                    }
                    let ghost stack2 = buffer@;
                    if !pruner(self.data[left]) {
                        buffer.push(left);
                        proof {
                            lemma_stack_push(data, Seq::<bool>::empty(), stack2, left);
                        }
                    }
                    proof {
                        assert(stack_sizes(data, buffer@) < measure0);
                    }
                },
            }
        }
        r
    }
}


/// Total size of the subtrees on a depth-tracking stack.
pub open spec fn depth_stack_sizes<B>(data: Seq<BVHNode<B>>, stack: Seq<(usize, usize)>) -> nat
    decreases stack.len(),
{
    if stack.len() == 0 {
        0
    } else {
        subtree_size(data, stack.last().0 as int) + depth_stack_sizes(data, stack.drop_last())
    }
}

/// Deepest leaf still reachable from a depth-tracking stack, measured from
/// the root: each entry carries the node and the length of the path that led
/// to it.
pub open spec fn depth_stack_max<B>(data: Seq<BVHNode<B>>, stack: Seq<(usize, usize)>) -> int
    decreases stack.len(),
{
    if stack.len() == 0 {
        0
    } else {
        vstd::math::max(
            stack.last().1 - 1 + subtree_depth(data, stack.last().0 as int),
            depth_stack_max(data, stack.drop_last()),
        )
    }
}

proof fn lemma_depth_stack_push<B>(
    data: Seq<BVHNode<B>>,
    stack: Seq<(usize, usize)>,
    e: (usize, usize),
)
    ensures
        depth_stack_sizes(data, stack.push(e)) == subtree_size(data, e.0 as int)
            + depth_stack_sizes(data, stack),
        depth_stack_max(data, stack.push(e)) == vstd::math::max(
            e.1 - 1 + subtree_depth(data, e.0 as int),
            depth_stack_max(data, stack),
        ),
{
    assert(stack.push(e).drop_last() =~= stack);
    assert(stack.push(e).last() == e);
}

proof fn lemma_depth_stack_pop<B>(data: Seq<BVHNode<B>>, stack: Seq<(usize, usize)>)
    requires
        stack.len() > 0,
    ensures
        depth_stack_sizes(data, stack) == subtree_size(data, stack.last().0 as int)
            + depth_stack_sizes(data, stack.drop_last()),
        depth_stack_max(data, stack) == vstd::math::max(
            stack.last().1 - 1 + subtree_depth(data, stack.last().0 as int),
            depth_stack_max(data, stack.drop_last()),
        ),
{
}

/// Exact capacity a depth-first walk of the tree needs for its stack: the
/// number of nodes on the longest root-to-leaf path. Zero for an empty tree.
pub fn calc_dfs_required_capacity<B: Copy>(flat_tree: &Vec<BVHNode<B>>) -> (r: usize)
    requires
        wf_tree(flat_tree@),
        flat_tree@.len() < usize::MAX,
    ensures
        flat_tree@.len() == 0 ==> r == 0,
        flat_tree@.len() > 0 ==> r == subtree_depth(flat_tree@, flat_tree@.len() - 1),
{
    let ghost data = flat_tree@;
    let n = flat_tree.len();
    if n == 0 {
        return 0;
    }
    let ghost root_depth = subtree_depth(data, data.len() - 1) as int;
    proof {
        lemma_subtree_size_pos(data, data.len() - 1);
    }
    let mut buffer: Vec<(usize, usize)> = Vec::new();
    buffer.push((n - 1, 1));
    let mut max_depth: usize = 1;
    proof {
        lemma_depth_stack_push(data, Seq::empty(), ((n - 1) as usize, 1usize));
    }
    while buffer.len() > 0
        invariant
            wf_tree(data),
            data == flat_tree@,
            0 < data.len() < usize::MAX,
            root_depth == subtree_depth(data, data.len() - 1),
            forall|k: int|
                0 <= k < buffer@.len() ==> {
                    let e = #[trigger] buffer@[k];
                    e.0 < data.len() && 1 <= e.1 && e.1 - 1 + subtree_depth(data, e.0 as int)
                        <= root_depth
                },
            1 <= max_depth <= root_depth,
            vstd::math::max(max_depth as int, depth_stack_max(data, buffer@)) == root_depth,
        decreases depth_stack_sizes(data, buffer@),
    {
        let ghost stack0 = buffer@;
        let ghost measure0 = depth_stack_sizes(data, stack0);
        let (i, depth) = match buffer.pop() {
            Some(e) => e,
            None => {
                return max_depth;  // unreachable: the loop condition ensures a top
            },
        };
        proof {
            assert(stack0.last() == (i, depth) && buffer@ == stack0.drop_last());
            lemma_depth_stack_pop(data, stack0);
            lemma_subtree_size_pos(data, i as int);
            assert(root_depth <= data.len()) by {
                lemma_subtree_size_pos(data, data.len() - 1);
            }
        }
        match flat_tree[i].child {
            BVHChild::Node { left, right } => {
                proof {
                    assert(node_wf(data[i as int], i as int));
                    lemma_subtree_size_pos(data, left as int);
                    lemma_subtree_size_pos(data, right as int);
                    assert(subtree_size(data, i as int) == 1 + subtree_size(data, left as int)
                        + subtree_size(data, right as int));
                    assert(subtree_depth(data, i as int) == 1 + vstd::math::max(
                        subtree_depth(data, left as int) as int,
                        subtree_depth(data, right as int) as int,
                    ));
                }
                let child_depth = depth + 1;
                let ghost stack1 = buffer@;
                buffer.push((left, child_depth));
                let ghost stack2 = buffer@;
                buffer.push((right, child_depth));
                proof {
                    lemma_depth_stack_push(data, stack1, (left, child_depth));
                    lemma_depth_stack_push(data, stack2, (right, child_depth));
                    assert(depth_stack_sizes(data, buffer@) < measure0);
                    assert(vstd::math::max(max_depth as int, depth_stack_max(data, buffer@))
                        == root_depth);
                }
            },
            BVHChild::Leaf(_) => {
                proof {
                    assert(subtree_depth(data, i as int) == 1);
                }
                if depth > max_depth {
                    max_depth = depth;
                }
                proof {
                    assert(vstd::math::max(max_depth as int, depth_stack_max(data, buffer@))
                        == root_depth);
                }
            },
        }
    }
    max_depth
}


/// No leaf under node `j` is in the set `keep`.
pub open spec fn subtree_avoids<B>(
    data: Seq<BVHNode<B>>,
    j: int,
    keep: Set<SceneObjectIndex>,
) -> bool {
    forall|x: SceneObjectIndex| #[trigger] subtree_leaves(data, j).contains(x) ==> !keep.contains(x)
}

/// Soundness of pruning: a pruned walk never invents a leaf.
pub proof fn lemma_reachable_subset<B>(data: Seq<BVHNode<B>>, pruned: Seq<bool>, i: int)
    requires
        wf_tree(data),
        0 <= i < data.len(),
        pruned.len() == data.len(),
    ensures
        forall|x: SceneObjectIndex|
            #[trigger] reachable_leaves(data, pruned, i).contains(x) ==> subtree_leaves(
                data,
                i,
            ).contains(x),
    decreases i,
{
    assert(node_wf(data[i], i));
    if !pruned[i] {
        match data[i].child {
            BVHChild::Node { left, right } => {
                lemma_reachable_subset(data, pruned, left as int);
                lemma_reachable_subset(data, pruned, right as int);
                assert forall|x: SceneObjectIndex|
                    #[trigger] reachable_leaves(data, pruned, i).contains(x) implies subtree_leaves(
                    data,
                    i,
                ).contains(x) by {
                    let l = if pruned[left as int] {
                        Seq::<SceneObjectIndex>::empty()
                    } else {
                        reachable_leaves(data, pruned, left as int)
                    };
                    let r = if pruned[right as int] {
                        Seq::<SceneObjectIndex>::empty()
                    } else {
                        reachable_leaves(data, pruned, right as int)
                    };
                    vstd::seq_lib::lemma_seq_concat_contains_all_elements(l, r, x);
                    vstd::seq_lib::lemma_seq_concat_contains_all_elements(
                        subtree_leaves(data, left as int),
                        subtree_leaves(data, right as int),
                        x,
                    );
                }
            },
            BVHChild::Leaf(_) => {},
        }
    }
}

/// Completeness of conservative pruning: when no marked subtree holds a leaf
/// of `keep`, the pruned walk still enumerates every kept leaf under `i`.
pub proof fn lemma_reachable_complete<B>(
    data: Seq<BVHNode<B>>,
    pruned: Seq<bool>,
    keep: Set<SceneObjectIndex>,
    i: int,
)
    requires
        wf_tree(data),
        0 <= i < data.len(),
        pruned.len() == data.len(),
        forall|j: int| 0 <= j < data.len() && pruned[j] ==> #[trigger] subtree_avoids(data, j, keep),
    ensures
        forall|x: SceneObjectIndex|
            #[trigger] subtree_leaves(data, i).contains(x) && keep.contains(x)
                ==> reachable_leaves(data, pruned, i).contains(x),
    decreases i,
{
    assert(node_wf(data[i], i));
    if pruned[i] {
        assert(subtree_avoids(data, i, keep));
    } else {
        match data[i].child {
            BVHChild::Node { left, right } => {
                lemma_reachable_complete(data, pruned, keep, left as int);
                lemma_reachable_complete(data, pruned, keep, right as int);
                assert forall|x: SceneObjectIndex|
                    #[trigger] subtree_leaves(data, i).contains(x) && keep.contains(x)
                        implies reachable_leaves(data, pruned, i).contains(x) by {
                    vstd::seq_lib::lemma_seq_concat_contains_all_elements(
                        subtree_leaves(data, left as int),
                        subtree_leaves(data, right as int),
                        x,
                    );
                    let l = if pruned[left as int] {
                        Seq::<SceneObjectIndex>::empty()
                    } else {
                        reachable_leaves(data, pruned, left as int)
                    };
                    let r = if pruned[right as int] {
                        Seq::<SceneObjectIndex>::empty()
                    } else {
                        reachable_leaves(data, pruned, right as int)
                    };
                    if subtree_leaves(data, left as int).contains(x) {
                        assert(!pruned[left as int]) by {
                            if pruned[left as int] {
                                assert(subtree_avoids(data, left as int, keep));
                            }
                        }
                        assert(l.contains(x));
                    } else {
                        assert(subtree_leaves(data, right as int).contains(x));
                        assert(!pruned[right as int]) by {
                            if pruned[right as int] {
                                assert(subtree_avoids(data, right as int, keep));
                            }
                        }
                        assert(r.contains(x));
                    }
                    vstd::seq_lib::lemma_seq_concat_contains_all_elements(l, r, x);
                }
            },
            BVHChild::Leaf(_) => {},
        }
    }
}

/// Equivalence of the pruned and the exhaustive enumeration on the leaves
/// that matter: as long as every marked subtree is free of leaves in `keep`
/// (a conservative pruning test, such as a ray-versus-box rejection that can
/// only discard primitives the ray misses inside the span of interest), the
/// pruned walk enumerates every kept leaf of the tree and invents none. The
/// nearest kept hit over the pruned walk therefore equals the nearest kept
/// hit over a full scan.
pub proof fn lemma_pruned_query_equivalence<B>(
    data: Seq<BVHNode<B>>,
    pruned: Seq<bool>,
    keep: Set<SceneObjectIndex>,
)
    requires
        wf_tree(data),
        pruned.len() == data.len(),
        forall|j: int| 0 <= j < data.len() && pruned[j] ==> #[trigger] subtree_avoids(data, j, keep),
    ensures
        forall|x: SceneObjectIndex|
            root_leaves(data).contains(x) && keep.contains(x) ==> #[trigger] reachable_root(
                data,
                pruned,
            ).contains(x),
        forall|x: SceneObjectIndex|
            #[trigger] reachable_root(data, pruned).contains(x) ==> root_leaves(data).contains(x),
{
    if data.len() > 0 {
        lemma_reachable_subset(data, pruned, data.len() - 1);
        lemma_reachable_complete(data, pruned, keep, data.len() - 1);
    }
}

proof fn lemma_permutation_contains<B>(o: Seq<BVHLeaf<B>>, s: Seq<BVHLeaf<B>>, x: BVHLeaf<B>)
    requires
        o.to_multiset() == s.to_multiset(),
        s.contains(x),
    ensures
        o.contains(x),
{
    broadcast use vstd::seq_lib::group_to_multiset_ensures;

    assert(s.to_multiset().count(x) > 0);
    assert(o.to_multiset().count(x) > 0);
}

/// A permutation of leaves with pairwise-distinct keys again has
/// pairwise-distinct keys.
pub proof fn lemma_distinct_keys_permutation<B>(o: Seq<BVHLeaf<B>>, s: Seq<BVHLeaf<B>>)
    requires
        distinct_keys(o),
        o.to_multiset() == s.to_multiset(),
    ensures
        distinct_keys(s),
{
    broadcast use vstd::seq_lib::group_to_multiset_ensures;

    assert(o.no_duplicates()) by {
        assert forall|i: int, j: int| 0 <= i < o.len() && 0 <= j < o.len() && i != j implies o[i]
            != o[j] by {
            if i < j {
                assert(o[i].key != o[j].key);
            } else {
                assert(o[j].key != o[i].key);
            }
        }
    }
    o.lemma_multiset_has_no_duplicates();
    s.lemma_multiset_has_no_duplicates_conv();
    assert forall|i: int, j: int| 0 <= i < j < s.len() implies (#[trigger] s[i]).key != (
    #[trigger] s[j]).key by {
        assert(s[i] != s[j]);
        assert(s.contains(s[i]) && s.contains(s[j]));
        lemma_permutation_contains(o, s, s[i]);
        lemma_permutation_contains(o, s, s[j]);
        let a = choose|a: int| 0 <= a < o.len() && o[a] == s[i];
        let b = choose|b: int| 0 <= b < o.len() && o[b] == s[j];
        assert(a != b);
        if a < b {
            assert(o[a].key != o[b].key);
        } else {
            assert(o[b].key != o[a].key);
        }
    }
}

/// With pairwise-distinct keys, the key order pins the arrangement: any two
/// key-sorted arrangements of the same leaves are identical. Together with
/// `generate`'s contract this makes the built tree a function of the leaf
/// set alone, independent of input order — the structural half of run-to-run
/// determinism.
pub proof fn lemma_sorted_unique_by_key<B>(s1: Seq<BVHLeaf<B>>, s2: Seq<BVHLeaf<B>>)
    requires
        sorted_by_key(s1),
        sorted_by_key(s2),
        distinct_keys(s1),
        s1.to_multiset() == s2.to_multiset(),
    ensures
        s1 == s2,
    decreases s1.len(),
{
    broadcast use vstd::seq_lib::group_to_multiset_ensures;

    assert(s1.len() == s2.len()) by {
        assert(s1.to_multiset().len() == s1.len());
        assert(s2.to_multiset().len() == s2.len());
    }
    if s1.len() == 0 {
        assert(s1 =~= s2);
    } else {
        assert(s1.contains(s1[0]));
        lemma_permutation_contains(s2, s1, s1[0]);
        let k2 = choose|k: int| 0 <= k < s2.len() && s2[k] == s1[0];
        assert(s2.contains(s2[0]));
        lemma_permutation_contains(s1, s2, s2[0]);
        let k1 = choose|k: int| 0 <= k < s1.len() && s1[k] == s2[0];
        assert(s2[0].key <= s1[0].key) by {
            if k2 > 0 {
                assert(s2[0].key <= s2[k2].key);
            }
        }
        assert(s1[0].key <= s2[0].key) by {
            if k1 > 0 {
                assert(s1[0].key <= s1[k1].key);
            }
        }
        assert(k1 == 0) by {
            if k1 > 0 {
                assert(s1[0].key != s1[k1].key);
            }
        }
        assert(s1[0] == s2[0]);
        let t1 = s1.remove(0);
        let t2 = s2.remove(0);
        assert(t1.to_multiset() == t2.to_multiset()) by {
            assert(t1.to_multiset() =~= s1.to_multiset().remove(s1[0]));
            assert(t2.to_multiset() =~= s2.to_multiset().remove(s2[0]));
        }
        assert forall|i: int| 0 <= i < t1.len() implies #[trigger] t1[i] == s1[i + 1] by {
            assert(t1[i] == s1.remove(0)[i]);
        }
        assert forall|i: int| 0 <= i < t2.len() implies #[trigger] t2[i] == s2[i + 1] by {
            assert(t2[i] == s2.remove(0)[i]);
        }
        assert(sorted_by_key(t1) && distinct_keys(t1) && sorted_by_key(t2));
        lemma_sorted_unique_by_key(t1, t2);
        assert(s1 =~= s2) by {
            assert forall|i: int| 0 <= i < s1.len() implies s1[i] == s2[i] by {
                if i > 0 {
                    assert(t1[i - 1] == s1[i] && t2[i - 1] == s2[i]);
                }
            }
        }
    }
}

/// Two trees generated from permutations of one distinct-key leaf set carry
/// the same leaf rows (and, by `generate`'s layout contract, the same inner
/// structure).
pub proof fn lemma_generate_deterministic<B>(
    d1: Seq<BVHNode<B>>,
    d2: Seq<BVHNode<B>>,
    o1: Seq<BVHLeaf<B>>,
    o2: Seq<BVHLeaf<B>>,
    s1: Seq<BVHLeaf<B>>,
    s2: Seq<BVHLeaf<B>>,
)
    requires
        generated_from(d1, o1, s1),
        generated_from(d2, o2, s2),
        o1.to_multiset() == o2.to_multiset(),
        distinct_keys(o1),
    ensures
        forall|i: int| 0 <= i < o1.len() ==> d1[i] == d2[i],
{
    lemma_distinct_keys_permutation(o1, s1);
    lemma_sorted_unique_by_key(s1, s2);
    assert forall|i: int| 0 <= i < o1.len() implies d1[i] == d2[i] by {
        assert(d1[i] == leaf_node_of(s1[i]));
        assert(d2[i] == leaf_node_of(s2[i]));
    }
}


/// The objects whose box entry is present (`keep_some`) or absent, in their
/// original order.
pub open spec fn kept_objects<O, B>(
    objs: Seq<O>,
    boxes: Seq<Option<(u64, B)>>,
    keep_some: bool,
) -> Seq<O>
    decreases objs.len(),
{
    if objs.len() == 0 {
        Seq::empty()
    } else {
        let prefix = kept_objects(objs.drop_last(), boxes.drop_last(), keep_some);
        if (boxes[objs.len() - 1] is Some) == keep_some {
            prefix.push(objs.last())
        } else {
            prefix
        }
    }
}

impl<B: Copy> BVHTree<B> {
    /// Partitions the scene's primitives by whether they have a bounding box
    /// (the caller computes `boxes[i]`, a grouping key and the box, for each
    /// object that has one) and builds the hierarchy over the bounded ones.
    /// Returns the tree, the bounded objects (in input order; the tree's leaf
    /// indices point into this vector) and the unbounded objects.
    pub fn from_scene_objects<O, F: Fn(B, B) -> B + Copy>(
        objects: Vec<O>,
        boxes: &Vec<Option<(u64, B)>>,
        union: F,
    ) -> (r: (BVHTree<B>, Vec<O>, Vec<O>))
        requires
            boxes@.len() == objects@.len(),
            forall|a: B, b: B| #[trigger] call_requires(union, (a, b)),
        ensures
            r.1@ == kept_objects(objects@, boxes@, true),
            r.2@ == kept_objects(objects@, boxes@, false),
            r.0.wf(),
            r.0@.len() == if r.1@.len() == 0 {
                0int
            } else {
                2 * r.1@.len() - 1
            },
            forall|x: SceneObjectIndex|
                #[trigger] root_leaves(r.0@).contains(x) <==> 0 <= x.0 < r.1@.len(),
    {
        let ghost objs0 = objects@;
        let ghost boxes0 = boxes@;
        let n = objects.len();
        let mut rest = objects;
        let mut bounded: Vec<O> = Vec::new();
        let mut unbounded: Vec<O> = Vec::new();
        let mut leaves: Vec<BVHLeaf<B>> = Vec::new();
        let mut i: usize = 0;
        proof {
            assert(objs0.subrange(0, 0) =~= Seq::<O>::empty());
            assert(kept_objects(objs0.subrange(0, 0), boxes0.subrange(0, 0), true)
                =~= Seq::<O>::empty());
            assert(kept_objects(objs0.subrange(0, 0), boxes0.subrange(0, 0), false)
                =~= Seq::<O>::empty());
        }
        while i < n
            invariant
                i <= n == objs0.len() == boxes0.len(),
                rest@ == objs0.subrange(i as int, n as int),
                bounded@ == kept_objects(
                    objs0.subrange(0, i as int),
                    boxes0.subrange(0, i as int),
                    true,
                ),
                unbounded@ == kept_objects(
                    objs0.subrange(0, i as int),
                    boxes0.subrange(0, i as int),
                    false,
                ),
                boxes@ == boxes0,
                leaves@.len() == bounded@.len(),
                forall|j: int| 0 <= j < leaves@.len() ==> (#[trigger] leaves@[j]).index.0 == j,
            decreases n - i,
        {
            let obj = rest.remove(0);
            proof {
                assert(obj == objs0[i as int]);
                assert(rest@ =~= objs0.subrange(i + 1, n as int));
                assert(objs0.subrange(0, i + 1).drop_last() =~= objs0.subrange(0, i as int));
                assert(boxes0.subrange(0, i + 1).drop_last() =~= boxes0.subrange(0, i as int));
                assert(objs0.subrange(0, i + 1).last() == objs0[i as int]);
            }
            match boxes[i] {
                Some((key, bb)) => {
                    let idx = bounded.len();
                    leaves.push(BVHLeaf { key, index: SceneObjectIndex(idx), bounding_box: bb });
                    bounded.push(obj);
                },
                None => {
                    unbounded.push(obj);
                },
            }
            i = i + 1;
        }
        proof {
            assert(objs0.subrange(0, n as int) =~= objs0);
            assert(boxes0.subrange(0, n as int) =~= boxes0);
        }
        let ghost final_leaves = leaves@;
        let tree = BVHTree::generate(leaves, union);
        proof {
            assert forall|x: SceneObjectIndex|
                #[trigger] root_leaves(tree@).contains(x) <==> 0 <= x.0 < bounded@.len() by {
                if root_leaves(tree@).contains(x) {
                    let j = choose|j: int|
                        0 <= j < final_leaves.len() && (#[trigger] final_leaves[j]).index == x;
                    assert(final_leaves[j].index.0 == j);
                }
                if 0 <= x.0 < bounded@.len() {
                    assert(final_leaves[x.0 as int].index == x);
                }
            }
        }
        (tree, bounded, unbounded)
    }
}

} // verus!
