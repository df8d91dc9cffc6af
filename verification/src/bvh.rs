//! Construction of the bounding-volume hierarchy over arena indices.
//!
//! The hierarchy is built over a list of arena indices (its leaves). Each
//! inner node picks a random axis, orders its part of the list by the
//! position of the leaves' bounding boxes along that axis and splits it at
//! the middle. Positions are given as integer sort keys, one triple per arena
//! index: `keys[i]` orders hittable `i` along the x, y and z axes as the
//! minimum corner of its bounding box does, and `has_box[i]` says whether
//! hittable `i` has a bounding box at all; only hittables that have one can be
//! leaves of the hierarchy.

use vstd::prelude::*;
use crate::hittable_service::{HittableEnum, HittableService};
use crate::rng::random_u8_below;

verus! {

broadcast use vstd::seq_lib::group_to_multiset_ensures;

/// An inner node of the hierarchy: the arena indices of its two children.
#[derive(Clone, Copy, Debug, PartialEq, Eq, Structural)]
pub struct BVHNode {
    pub left_index: usize,
    pub right_index: usize,
}

/// The sort key of a key triple along `axis` (0, 1 or 2).
pub open spec fn key_on(k: (i64, i64, i64), axis: int) -> int {
    if axis == 0 {
        k.0 as int
    } else if axis == 1 {
        k.1 as int
    } else {
        k.2 as int
    }
}

/// The leaves reachable from arena index `c`. Indices below `base` are the
/// leaves the hierarchy was built over; an entry at or above `base` that is
/// a node whose children stand below it contributes its children's leaves.
pub open spec fn reach<G>(s: Seq<HittableEnum<G>>, base: int, c: int) -> Set<usize>
    decreases c,
{
    if base <= c < s.len() && c >= 0 {
        match s[c] {
            HittableEnum::BVHNode(n) => {
                if n.left_index < c && n.right_index < c {
                    reach(s, base, n.left_index as int).union(reach(s, base, n.right_index as int))
                } else {
                    Set::empty().insert(c as usize)
                }
            },
            _ => Set::empty().insert(c as usize),
        }
    } else {
        Set::empty().insert(c as usize)
    }
}

/// The leaves below a node.
pub open spec fn leaves<G>(s: Seq<HittableEnum<G>>, base: int, n: BVHNode) -> Set<usize> {
    reach(s, base, n.left_index as int).union(reach(s, base, n.right_index as int))
}

/// Along `axis`, no leaf of the left child lies beyond a leaf of the right child.
pub open spec fn split_on<G>(
    s: Seq<HittableEnum<G>>,
    base: int,
    keys: Seq<(i64, i64, i64)>,
    n: BVHNode,
    axis: int,
) -> bool {
    forall|l: usize, r: usize|
        #[trigger] reach(s, base, n.left_index as int).contains(l) && #[trigger] reach(
            s,
            base,
            n.right_index as int,
        ).contains(r) ==> key_on(keys[l as int], axis) <= key_on(keys[r as int], axis)
}

/// A well-built node: its children stand below `bound`, and it splits its
/// leaves along one of the three axes.
pub open spec fn node_ok<G>(
    s: Seq<HittableEnum<G>>,
    base: int,
    keys: Seq<(i64, i64, i64)>,
    n: BVHNode,
    bound: int,
) -> bool {
    &&& n.left_index < bound
    &&& n.right_index < bound
    &&& (split_on(s, base, keys, n, 0) || split_on(s, base, keys, n, 1) || split_on(
        s,
        base,
        keys,
        n,
        2,
    ))
}

/// Every entry from `from` on is a well-built node whose children stand below it.
pub open spec fn region_ok<G>(
    s: Seq<HittableEnum<G>>,
    base: int,
    keys: Seq<(i64, i64, i64)>,
    from: int,
) -> bool {
    forall|c: int|
        from <= c < s.len() ==> (#[trigger] s[c] is BVHNode && node_ok(
            s,
            base,
            keys,
            s[c]->BVHNode_0,
            c,
        ))
}

/// The node over the two leaves `first` and `second`, split along `axis`:
/// the leaf with the strictly smaller key goes left; on a tie `second` does.
pub open spec fn ordered_pair(
    keys: Seq<(i64, i64, i64)>,
    first: usize,
    second: usize,
    n: BVHNode,
    axis: int,
) -> bool {
    if key_on(keys[first as int], axis) < key_on(keys[second as int], axis) {
        n == BVHNode { left_index: first, right_index: second }
    } else {
        n == BVHNode { left_index: second, right_index: first }
    }
}

/// The split axis decides the node over two leaves: when their keys run one
/// way along axis `a` and the other way along axis `b`, the node built along
/// `a` puts `first` on the left and the node built along `b` puts it on the
/// right, so the two nodes differ.
pub proof fn lemma_axis_decides_pair(
    keys: Seq<(i64, i64, i64)>,
    first: usize,
    second: usize,
    na: BVHNode,
    nb: BVHNode,
    a: int,
    b: int,
)
    requires
        first != second,
        key_on(keys[first as int], a) < key_on(keys[second as int], a),
        key_on(keys[second as int], b) < key_on(keys[first as int], b),
        ordered_pair(keys, first, second, na, a),
        ordered_pair(keys, first, second, nb, b),
    ensures
        na.left_index == first,
        nb.left_index == second,
        na != nb,
{
}

/// `s2` keeps every entry of `s1` at its index.
pub open spec fn extends<T>(s1: Seq<T>, s2: Seq<T>) -> bool {
    &&& s1.len() <= s2.len()
    &&& forall|i: int| 0 <= i < s1.len() ==> s2[i] == s1[i]
}

/// `a` and `b` agree outside `[start, end)` and hold the same elements inside it.
pub open spec fn permuted_within(a: Seq<usize>, b: Seq<usize>, start: int, end: int) -> bool {
    &&& a.len() == b.len()
    &&& forall|i: int| 0 <= i < a.len() && !(start <= i < end) ==> b[i] == a[i]
    &&& b.subrange(start, end).to_multiset() == a.subrange(start, end).to_multiset()
}

/// Every index of `ix[start..end]` is a leaf (below `base`), has a key triple,
/// and has a bounding box (`has_box` is indexed by arena index).
pub open spec fn indices_in_bounds(
    ix: Seq<usize>,
    start: int,
    end: int,
    base: int,
    key_count: int,
    has_box: Seq<bool>,
) -> bool {
    forall|i: int|
        start <= i < end ==> #[trigger] ix[i] < base && ix[i] < key_count && ix[i] < has_box.len()
            && has_box[ix[i] as int]
}

/// The list is ordered along `axis` on `[start, end)`.
pub open spec fn sorted_on(
    ix: Seq<usize>,
    keys: Seq<(i64, i64, i64)>,
    axis: int,
    start: int,
    end: int,
) -> bool {
    forall|i: int, j: int|
        start <= i <= j < end ==> key_on(keys[#[trigger] ix[i] as int], axis) <= key_on(
            keys[#[trigger] ix[j] as int],
            axis,
        )
}

pub proof fn lemma_reach_extends<G>(s1: Seq<HittableEnum<G>>, s2: Seq<HittableEnum<G>>, base: int, c: int)
    requires
        extends(s1, s2),
        0 <= c < s1.len(),
    ensures
        reach(s2, base, c) == reach(s1, base, c),
    decreases c,
{
    if base <= c {
        assert(s2[c] == s1[c]);
        match s1[c] {
            HittableEnum::BVHNode(n) => {
                if n.left_index < c && n.right_index < c {
                    lemma_reach_extends(s1, s2, base, n.left_index as int);
                    lemma_reach_extends(s1, s2, base, n.right_index as int);
                }
            },
            _ => {},
        }
    }
}

/// A well-built node keeps its leaves and its split when the arena grows.
pub proof fn lemma_node_ok_extends<G>(
    s1: Seq<HittableEnum<G>>,
    s2: Seq<HittableEnum<G>>,
    base: int,
    keys: Seq<(i64, i64, i64)>,
    n: BVHNode,
    bound: int,
)
    requires
        extends(s1, s2),
        bound <= s1.len(),
        node_ok(s1, base, keys, n, bound),
    ensures
        node_ok(s2, base, keys, n, bound),
        leaves(s2, base, n) == leaves(s1, base, n),
{
    lemma_reach_extends(s1, s2, base, n.left_index as int);
    lemma_reach_extends(s1, s2, base, n.right_index as int);
}

proof fn lemma_region_extends<G>(
    s1: Seq<HittableEnum<G>>,
    s2: Seq<HittableEnum<G>>,
    base: int,
    keys: Seq<(i64, i64, i64)>,
    from: int,
)
    requires
        extends(s1, s2),
        region_ok(s1, base, keys, from),
    ensures
        forall|c: int|
            from <= c < s1.len() ==> (#[trigger] s2[c] is BVHNode && node_ok(
                s2,
                base,
                keys,
                s2[c]->BVHNode_0,
                c,
            )),
{
    assert forall|c: int| from <= c < s1.len() implies (#[trigger] s2[c] is BVHNode && node_ok(
        s2,
        base,
        keys,
        s2[c]->BVHNode_0,
        c,
    )) by {
        assert(s1[c] is BVHNode);
        assert(s2[c] == s1[c]);
        lemma_node_ok_extends(s1, s2, base, keys, s1[c]->BVHNode_0, c);
    }
}

/// A well-built entry of an arena stays well built when the arena grows.
pub proof fn lemma_region_entry_extends<G>(
    s1: Seq<HittableEnum<G>>,
    s2: Seq<HittableEnum<G>>,
    base: int,
    keys: Seq<(i64, i64, i64)>,
    from: int,
    c: int,
)
    requires
        extends(s1, s2),
        region_ok(s1, base, keys, from),
        from <= c < s1.len(),
    ensures
        s2[c] is BVHNode && node_ok(s2, base, keys, s2[c]->BVHNode_0, c),
{
    lemma_region_extends(s1, s2, base, keys, from);
}

/// Exchanging two positions inside `[start, end)` keeps the elements of that range.
proof fn lemma_swap_permutes(s: Seq<usize>, start: int, end: int, i: int, j: int)
    requires
        0 <= start <= i < j < end <= s.len(),
    ensures
        permuted_within(s, s.update(i, s[j]).update(j, s[i]), start, end),
{
    let t = s.update(i, s[j]).update(j, s[i]);
    let u = s.subrange(start, end);
    let a = i - start;
    let b = j - start;
    let u1 = u.update(a, u[b]);
    let u2 = u1.update(b, u[a]);
    assert(t.subrange(start, end) =~= u2);
    assert(u1.to_multiset() == u.to_multiset().insert(u[b]).remove(u[a]));
    assert(u2.to_multiset() == u1.to_multiset().insert(u[a]).remove(u1[b]));
    assert(u2.to_multiset() =~= u.to_multiset());
}

proof fn lemma_permuted_trans(a: Seq<usize>, b: Seq<usize>, c: Seq<usize>, start: int, end: int)
    requires
        permuted_within(a, b, start, end),
        permuted_within(b, c, start, end),
    ensures
        permuted_within(a, c, start, end),
{
}

/// A permutation of a sub-range is a permutation of any range that holds it.
proof fn lemma_permuted_widen(a: Seq<usize>, b: Seq<usize>, start: int, mid_start: int, mid_end: int, end: int)
    requires
        0 <= start <= mid_start <= mid_end <= end <= a.len(),
        permuted_within(a, b, mid_start, mid_end),
    ensures
        permuted_within(a, b, start, end),
{
    let a1 = a.subrange(start, mid_start);
    let a2 = a.subrange(mid_start, mid_end);
    let a3 = a.subrange(mid_end, end);
    let b2 = b.subrange(mid_start, mid_end);
    assert(a.subrange(start, end) =~= a1 + a2 + a3);
    assert(b.subrange(start, end) =~= a1 + b2 + a3);
    vstd::seq_lib::lemma_multiset_commutative(a1 + a2, a3);
    vstd::seq_lib::lemma_multiset_commutative(a1, a2);
    vstd::seq_lib::lemma_multiset_commutative(a1 + b2, a3);
    vstd::seq_lib::lemma_multiset_commutative(a1, b2);
}

/// An element of a permuted range came from that range.
proof fn lemma_permuted_member(a: Seq<usize>, b: Seq<usize>, start: int, end: int, x: usize)
    requires
        0 <= start <= end <= a.len(),
        permuted_within(a, b, start, end),
        b.subrange(start, end).contains(x),
    ensures
        a.subrange(start, end).contains(x),
{
    assert(b.subrange(start, end).to_multiset().count(x) > 0);
    assert(a.subrange(start, end).to_multiset().count(x) > 0);
}

/// The elements of a range are those of its two halves.
proof fn lemma_range_set_split(a: Seq<usize>, start: int, mid: int, end: int)
    requires
        0 <= start <= mid <= end <= a.len(),
    ensures
        a.subrange(start, end).to_set() == a.subrange(start, mid).to_set().union(
            a.subrange(mid, end).to_set(),
        ),
{
    assert(a.subrange(start, end) =~= a.subrange(start, mid) + a.subrange(mid, end));
    vstd::seq_lib::seq_to_set_distributes_over_add(a.subrange(start, mid), a.subrange(mid, end));
}

/// The key of `k` along `axis`.
fn key_of(k: &(i64, i64, i64), axis: u8) -> (v: i64)
    requires
        axis < 3,
    ensures
        v == key_on(*k, axis as int),
{
    if axis == 0 {
        k.0
    } else if axis == 1 {
        k.1
    } else {
        k.2
    }
}

/// Orders `source_indices[start..end]` by key along `axis` (insertion sort),
/// leaving the rest of the list as it was.
fn sort_by_axis(
    source_indices: &mut Vec<usize>,
    start: usize,
    end: usize,
    keys: &Vec<(i64, i64, i64)>,
    axis: u8,
    Ghost(base): Ghost<int>,
    Ghost(has_box): Ghost<Seq<bool>>,
)
    requires
        start <= end <= old(source_indices)@.len(),
        axis < 3,
        indices_in_bounds(old(source_indices)@, start as int, end as int, base, keys@.len() as int, has_box),
    ensures
        permuted_within(old(source_indices)@, final(source_indices)@, start as int, end as int),
        indices_in_bounds(final(source_indices)@, start as int, end as int, base, keys@.len() as int, has_box),
        sorted_on(final(source_indices)@, keys@, axis as int, start as int, end as int),
{
    let ghost initial = source_indices@;
    if start == end {
        return;
    }
    let mut i: usize = start + 1;
    while i < end
        invariant
            start < i <= end <= source_indices@.len(),
            axis < 3,
            initial.len() == source_indices@.len(),
            permuted_within(initial, source_indices@, start as int, end as int),
            indices_in_bounds(source_indices@, start as int, end as int, base, keys@.len() as int, has_box),
            sorted_on(source_indices@, keys@, axis as int, start as int, i as int),
        decreases end - i,
    {
        let mut j: usize = i;
        while j > start && key_of(&keys[source_indices[j - 1]], axis) > key_of(
            &keys[source_indices[j]],
            axis,
        )
            invariant
                start <= j <= i < end <= source_indices@.len(),
                axis < 3,
                initial.len() == source_indices@.len(),
                permuted_within(initial, source_indices@, start as int, end as int),
                indices_in_bounds(source_indices@, start as int, end as int, base, keys@.len() as int, has_box),
                sorted_on(source_indices@, keys@, axis as int, start as int, j as int),
                sorted_on(source_indices@, keys@, axis as int, j as int + 1, i as int + 1),
                forall|p: int, q: int|
                    start <= p < j && j < q <= i ==> key_on(
                        keys@[#[trigger] source_indices@[p] as int],
                        axis as int,
                    ) <= key_on(keys@[#[trigger] source_indices@[q] as int], axis as int),
                forall|q: int|
                    j < q <= i ==> key_on(keys@[source_indices@[j as int] as int], axis as int)
                        <= key_on(keys@[#[trigger] source_indices@[q] as int], axis as int),
            decreases j,
        {
            let ghost before = source_indices@;
            let upper = source_indices[j];
            let lower = source_indices[j - 1];
            source_indices.set(j - 1, upper);
            source_indices.set(j, lower);
            proof {
                assert(source_indices@ == before.update(j - 1, before[j as int]).update(
                    j as int,
                    before[j - 1],
                ));
                lemma_swap_permutes(before, start as int, end as int, j - 1, j as int);
                lemma_permuted_trans(initial, before, source_indices@, start as int, end as int);
            }
            j = j - 1;
        }
        i = i + 1;
    }
}

/// What building the node over `ix0[start..end]` along `axis` gives, for the
/// axis that was drawn: the node splits its leaves along `axis`; a single leaf
/// is both children; two leaves are ordered along `axis` (on a tie the second
/// goes left); a longer range is split at its middle, the left half under the
/// second-to-last node added and the right half under the last one. `ix1` and
/// `s1` are the list and the arena afterwards, `ix0` and `s0` before.
pub open spec fn shaped_on_axis<G>(
    ix0: Seq<usize>,
    ix1: Seq<usize>,
    s0: Seq<HittableEnum<G>>,
    s1: Seq<HittableEnum<G>>,
    base: int,
    keys: Seq<(i64, i64, i64)>,
    node: BVHNode,
    start: int,
    end: int,
    axis: int,
) -> bool {
    &&& split_on(s1, base, keys, node, axis)
    &&& end - start == 1 ==> {
        &&& node.left_index == ix0[start]
        &&& node.right_index == ix0[start]
        &&& s1 == s0
    }
    &&& end - start == 2 ==> {
        &&& ordered_pair(keys, ix0[start], ix0[start + 1], node, axis)
        &&& s1 == s0
    }
    &&& end - start >= 3 ==> {
        let mid = start + (end - start) / 2;
        &&& node.right_index == s1.len() - 1
        &&& s0.len() <= node.left_index < node.right_index
        &&& s1[node.left_index as int] is BVHNode
        &&& s1[node.right_index as int] is BVHNode
        &&& reach(s1, base, node.left_index as int) == ix1.subrange(start, mid).to_set()
        &&& reach(s1, base, node.right_index as int) == ix1.subrange(mid, end).to_set()
    }
}

impl BVHNode {
    /// Builds a hierarchy over every index of `index_list` and returns its root
    /// node, which the caller adds to the arena. The inner nodes below the root
    /// are added to the arena as they are built; the list is reordered in place.
    ///
    /// The root reaches exactly the listed hittables, every node added splits
    /// its leaves along one axis, and each node's children stand before it in
    /// the arena; the root itself is shaped as `new_on_axis` says for the axis
    /// drawn first. An empty list would never finish splitting, and a listed
    /// hittable without a bounding box cannot be placed in the hierarchy: both
    /// are excluded.
    pub fn from_index_list<G>(
        rng: &mut rand_chacha::ChaCha20Rng,
        hittable_service: &mut HittableService<G>,
        keys: &Vec<(i64, i64, i64)>,
        has_box: &Vec<bool>,
        index_list: &mut Vec<usize>,
    ) -> (root: BVHNode)
        requires
            old(index_list)@.len() > 0,
            indices_in_bounds(
                old(index_list)@,
                0,
                old(index_list)@.len() as int,
                old(hittable_service).entries().len() as int,
                keys@.len() as int,
                has_box@,
            ),
        ensures
            final(index_list)@.to_multiset() == old(index_list)@.to_multiset(),
            extends(old(hittable_service).entries(), final(hittable_service).entries()),
            region_ok(
                final(hittable_service).entries(),
                old(hittable_service).entries().len() as int,
                keys@,
                old(hittable_service).entries().len() as int,
            ),
            node_ok(
                final(hittable_service).entries(),
                old(hittable_service).entries().len() as int,
                keys@,
                root,
                final(hittable_service).entries().len() as int,
            ),
            leaves(
                final(hittable_service).entries(),
                old(hittable_service).entries().len() as int,
                root,
            ) == old(index_list)@.to_set(),
            exists|axis: int|
                0 <= axis < 3 && #[trigger] shaped_on_axis(
                    old(index_list)@,
                    final(index_list)@,
                    old(hittable_service).entries(),
                    final(hittable_service).entries(),
                    old(hittable_service).entries().len() as int,
                    keys@,
                    root,
                    0,
                    old(index_list)@.len() as int,
                    axis,
                ),
            final(hittable_service).bvh_root() == old(hittable_service).bvh_root(),
            final(hittable_service).lights_root() == old(hittable_service).lights_root(),
    {
        let ghost base = hittable_service.entries().len() as int;
        let ghost before = index_list@;
        let elements_count = index_list.len();
        let root = Self::new(
            rng,
            hittable_service,
            keys,
            has_box,
            index_list,
            0,
            elements_count,
            Ghost(base),
        );
        proof {
            assert(before.subrange(0, elements_count as int) =~= before);
            assert(index_list@.subrange(0, elements_count as int) =~= index_list@);
            assert(index_list@.to_set() =~= before.to_set()) by {
                assert forall|x: usize| index_list@.contains(x) <==> before.contains(x) by {
                    assert(index_list@.to_multiset().count(x) == before.to_multiset().count(x));
                }
            }
        }
        root
    }

    /// Builds the node over `source_indices[start..end]`, adding the inner
    /// nodes below it to the arena (the node itself is returned, not added).
    /// A split axis is drawn first (`gen_range(0..3)`), for every range; the
    /// node is then built along it as `new_on_axis` does.
    ///
    /// `base` is the length of the arena when the hierarchy started: indices
    /// below it are leaves, entries from it on are the nodes built here. An
    /// empty range would never finish splitting, and a leaf without a bounding
    /// box cannot be placed: both are excluded.
    pub fn new<G>(
        rng: &mut rand_chacha::ChaCha20Rng,
        hittable_service: &mut HittableService<G>,
        keys: &Vec<(i64, i64, i64)>,
        has_box: &Vec<bool>,
        source_indices: &mut Vec<usize>,
        start: usize,
        end: usize,
        Ghost(base): Ghost<int>,
    ) -> (node: BVHNode)
        requires
            start < end <= old(source_indices)@.len(),
            0 <= base <= old(hittable_service).entries().len(),
            indices_in_bounds(old(source_indices)@, start as int, end as int, base, keys@.len() as int, has_box@),
        ensures
            permuted_within(old(source_indices)@, final(source_indices)@, start as int, end as int),
            indices_in_bounds(final(source_indices)@, start as int, end as int, base, keys@.len() as int, has_box@),
            extends(old(hittable_service).entries(), final(hittable_service).entries()),
            region_ok(
                final(hittable_service).entries(),
                base,
                keys@,
                old(hittable_service).entries().len() as int,
            ),
            node_ok(
                final(hittable_service).entries(),
                base,
                keys@,
                node,
                final(hittable_service).entries().len() as int,
            ),
            leaves(final(hittable_service).entries(), base, node)
                == final(source_indices)@.subrange(start as int, end as int).to_set(),
            exists|axis: int|
                0 <= axis < 3 && #[trigger] shaped_on_axis(
                    old(source_indices)@,
                    final(source_indices)@,
                    old(hittable_service).entries(),
                    final(hittable_service).entries(),
                    base,
                    keys@,
                    node,
                    start as int,
                    end as int,
                    axis,
                ),
            final(hittable_service).bvh_root() == old(hittable_service).bvh_root(),
            final(hittable_service).lights_root() == old(hittable_service).lights_root(),
        decreases end - start, 1int,
    {
        let axis = random_u8_below(rng, 3);
        Self::new_on_axis(rng, hittable_service, keys, has_box, source_indices, start, end, axis, Ghost(base))
    }

    /// Builds the node over `source_indices[start..end]` along `axis`, the axis
    /// drawn for this range, adding the inner nodes below it to the arena (the
    /// node itself is returned, not added). A single leaf becomes both
    /// children; two leaves are ordered by key, the one with the smaller key on
    /// the left, the second on the left when the keys tie. A longer range is
    /// sorted by key and split at its middle; the left half's node is built
    /// (drawing its own axis) and added, then the right half's.
    pub fn new_on_axis<G>(
        rng: &mut rand_chacha::ChaCha20Rng,
        hittable_service: &mut HittableService<G>,
        keys: &Vec<(i64, i64, i64)>,
        has_box: &Vec<bool>,
        source_indices: &mut Vec<usize>,
        start: usize,
        end: usize,
        axis: u8,
        Ghost(base): Ghost<int>,
    ) -> (node: BVHNode)
        requires
            start < end <= old(source_indices)@.len(),
            axis < 3,
            0 <= base <= old(hittable_service).entries().len(),
            indices_in_bounds(old(source_indices)@, start as int, end as int, base, keys@.len() as int, has_box@),
        ensures
            permuted_within(old(source_indices)@, final(source_indices)@, start as int, end as int),
            indices_in_bounds(final(source_indices)@, start as int, end as int, base, keys@.len() as int, has_box@),
            extends(old(hittable_service).entries(), final(hittable_service).entries()),
            region_ok(
                final(hittable_service).entries(),
                base,
                keys@,
                old(hittable_service).entries().len() as int,
            ),
            node_ok(
                final(hittable_service).entries(),
                base,
                keys@,
                node,
                final(hittable_service).entries().len() as int,
            ),
            leaves(final(hittable_service).entries(), base, node)
                == final(source_indices)@.subrange(start as int, end as int).to_set(),
            shaped_on_axis(
                old(source_indices)@,
                final(source_indices)@,
                old(hittable_service).entries(),
                final(hittable_service).entries(),
                base,
                keys@,
                node,
                start as int,
                end as int,
                axis as int,
            ),
            final(hittable_service).bvh_root() == old(hittable_service).bvh_root(),
            final(hittable_service).lights_root() == old(hittable_service).lights_root(),
        decreases end - start, 0int,
    {
        let ghost s0 = hittable_service.entries();
        let ghost ix0 = source_indices@;
        let object_span = end - start;
        let result_left: usize;
        let result_right: usize;
        if object_span == 1 {
            result_left = source_indices[start];
            result_right = source_indices[start];
            proof {
                let n = BVHNode { left_index: result_left, right_index: result_right };
                assert(ix0[start as int] < base);
                assert(reach(s0, base, result_left as int) == Set::empty().insert(result_left));
                assert(ix0.subrange(start as int, end as int) =~= seq![result_left]);
                assert(seq![result_left].to_set() =~= Set::empty().insert(result_left)) by {
                    assert(seq![result_left][0] == result_left);
                }
                assert(leaves(s0, base, n) =~= ix0.subrange(start as int, end as int).to_set());
                assert(split_on(s0, base, keys@, n, axis as int));
            }
        } else if object_span == 2 {
            let first = source_indices[start];
            let second = source_indices[start + 1];
            if key_of(&keys[first], axis) < key_of(&keys[second], axis) {
                result_left = first;
                result_right = second;
            } else {
                result_left = second;
                result_right = first;
            }
            proof {
                let n = BVHNode { left_index: result_left, right_index: result_right };
                assert(ix0[start as int] < base);
                assert(ix0[start + 1] < base);
                assert(reach(s0, base, first as int) == Set::empty().insert(first));
                assert(reach(s0, base, second as int) == Set::empty().insert(second));
                assert(ix0.subrange(start as int, end as int) =~= seq![first, second]);
                assert(seq![first, second].to_set() =~= Set::empty().insert(first).insert(second)) by {
                    assert(seq![first, second][0] == first);
                    assert(seq![first, second][1] == second);
                }
                assert(leaves(s0, base, n) =~= ix0.subrange(start as int, end as int).to_set());
                assert(split_on(s0, base, keys@, n, axis as int));
                assert(ordered_pair(keys@, first, second, n, axis as int));
            }
        } else {
            sort_by_axis(source_indices, start, end, keys, axis, Ghost(base), Ghost(has_box@));
            let ghost ix1 = source_indices@;
            let mid = start + object_span / 2;
            let left_node = Self::new(
                rng,
                hittable_service,
                keys,
                has_box,
                source_indices,
                start,
                mid,
                Ghost(base),
            );
            let ghost s1 = hittable_service.entries();
            let ghost ix2 = source_indices@;
            result_left = hittable_service.add_hittable(HittableEnum::BVHNode(left_node));
            let ghost s2 = hittable_service.entries();
            let right_node = Self::new(
                rng,
                hittable_service,
                keys,
                has_box,
                source_indices,
                mid,
                end,
                Ghost(base),
            );
            let ghost s3 = hittable_service.entries();
            let ghost ix3 = source_indices@;
            result_right = hittable_service.add_hittable(HittableEnum::BVHNode(right_node));
            let ghost s4 = hittable_service.entries();
            proof {
                Self::lemma_split_step(
                    s0, s1, s2, s3, s4, ix0, ix1, ix2, ix3, keys@, base, start as int, mid as int,
                    end as int, axis as int, left_node, right_node, result_left, result_right,
                );
                assert forall|i: int| start <= i < end implies #[trigger] ix3[i] < base && ix3[i]
                    < keys@.len() && ix3[i] < has_box@.len() && has_box@[ix3[i] as int] by {
                    if i < mid {
                        assert(ix3[i] == ix2[i]);
                    } else {
                        assert(ix2[i] == ix1[i]);
                    }
                }
                assert(s4[result_left as int] == s2[result_left as int]);
                assert(s4[result_left as int] is BVHNode);
                assert(s4[result_right as int] is BVHNode);
            }
        }
        BVHNode { left_index: result_left, right_index: result_right }
    }

    /// The facts that close the split case of `new`, gathered from the
    /// sorting step, the two recursive builds and the two additions.
    proof fn lemma_split_step<G>(
        s0: Seq<HittableEnum<G>>,
        s1: Seq<HittableEnum<G>>,
        s2: Seq<HittableEnum<G>>,
        s3: Seq<HittableEnum<G>>,
        s4: Seq<HittableEnum<G>>,
        ix0: Seq<usize>,
        ix1: Seq<usize>,
        ix2: Seq<usize>,
        ix3: Seq<usize>,
        keys: Seq<(i64, i64, i64)>,
        base: int,
        start: int,
        mid: int,
        end: int,
        axis: int,
        left_node: BVHNode,
        right_node: BVHNode,
        li: usize,
        ri: usize,
    )
        requires
            li == s1.len(),
            ri == s3.len(),
            0 <= base <= s0.len(),
            0 <= start < mid < end <= ix0.len(),
            0 <= axis < 3,
            permuted_within(ix0, ix1, start, end),
            sorted_on(ix1, keys, axis, start, end),
            permuted_within(ix1, ix2, start, mid),
            extends(s0, s1),
            region_ok(s1, base, keys, s0.len() as int),
            node_ok(s1, base, keys, left_node, s1.len() as int),
            leaves(s1, base, left_node) == ix2.subrange(start, mid).to_set(),
            s2 == s1.push(HittableEnum::BVHNode(left_node)),
            permuted_within(ix2, ix3, mid, end),
            extends(s2, s3),
            region_ok(s3, base, keys, s2.len() as int),
            node_ok(s3, base, keys, right_node, s3.len() as int),
            leaves(s3, base, right_node) == ix3.subrange(mid, end).to_set(),
            s4 == s3.push(HittableEnum::BVHNode(right_node)),
        ensures
            permuted_within(ix0, ix3, start, end),
            extends(s0, s4),
            region_ok(s4, base, keys, s0.len() as int),
            node_ok(
                s4,
                base,
                keys,
                BVHNode { left_index: li, right_index: ri },
                s4.len() as int,
            ),
            leaves(s4, base, BVHNode { left_index: li, right_index: ri })
                == ix3.subrange(start, end).to_set(),
            reach(s4, base, li as int) == ix3.subrange(start, mid).to_set(),
            reach(s4, base, ri as int) == ix3.subrange(mid, end).to_set(),
            split_on(s4, base, keys, BVHNode { left_index: li, right_index: ri }, axis),
            s0.len() <= li < ri,
            ri == s4.len() - 1,
    {
        let n = BVHNode { left_index: li, right_index: ri };
        // the list
        lemma_permuted_widen(ix1, ix2, start, start, mid, end);
        lemma_permuted_widen(ix2, ix3, start, mid, end, end);
        lemma_permuted_trans(ix0, ix1, ix2, start, end);
        lemma_permuted_trans(ix0, ix2, ix3, start, end);
        // the arena grows by extension at every step
        assert(extends(s1, s2));
        assert(extends(s3, s4));
        assert(extends(s2, s4));
        assert(extends(s1, s4));
        assert(extends(s0, s4));
        // the new left node
        lemma_node_ok_extends(s1, s2, base, keys, left_node, li as int);
        assert(reach(s2, base, li as int) == leaves(s2, base, left_node));
        lemma_reach_extends(s2, s4, base, li as int);
        lemma_node_ok_extends(s1, s4, base, keys, left_node, li as int);
        // the new right node
        lemma_node_ok_extends(s3, s4, base, keys, right_node, ri as int);
        assert(reach(s4, base, ri as int) == leaves(s4, base, right_node));
        // leaves
        assert(ix3.subrange(start, mid) =~= ix2.subrange(start, mid));
        lemma_range_set_split(ix3, start, mid, end);
        assert(leaves(s4, base, n) == ix3.subrange(start, end).to_set());
        // the split along the drawn axis
        assert forall|l: usize, r: usize|
            #[trigger] reach(s4, base, li as int).contains(l) && #[trigger] reach(s4, base, ri as int).contains(
                r,
            ) implies key_on(keys[l as int], axis) <= key_on(keys[r as int], axis) by {
            assert(ix2.subrange(start, mid).contains(l));
            lemma_permuted_member(ix1, ix2, start, mid, l);
            assert(ix3.subrange(mid, end).contains(r));
            lemma_permuted_member(ix2, ix3, mid, end, r);
            assert(ix2.subrange(mid, end) =~= ix1.subrange(mid, end));
            let p = choose|p: int| 0 <= p < mid - start && ix1.subrange(start, mid)[p] == l;
            let q = choose|q: int| 0 <= q < end - mid && ix1.subrange(mid, end)[q] == r;
            assert(ix1[start + p] == l);
            assert(ix1[mid + q] == r);
        }
        assert(split_on(s4, base, keys, n, axis));
        // the region of new nodes
        lemma_region_extends(s1, s4, base, keys, s0.len() as int);
        lemma_region_extends(s3, s4, base, keys, s2.len() as int);
        assert forall|c: int| s0.len() <= c < s4.len() implies (#[trigger] s4[c] is BVHNode
            && node_ok(s4, base, keys, s4[c]->BVHNode_0, c)) by {
            if c == li as int {
                assert(s4[c] == s2[c]);
            }
        }
    }
}

} // verus!
