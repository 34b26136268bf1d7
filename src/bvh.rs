//! The bounding volume hierarchy: a binary tree over shape indices, built by
//! median split along the longest axis, and its nearest-hit query.
use vstd::prelude::*;

use crate::aabb::{lemma_encloses_trans, lemma_surrounding_contains, Aabb};

verus! {

broadcast use vstd::seq_lib::group_to_multiset_ensures;

/// The capability set that the hierarchy needs from a primitive, for rays of
/// type `R`.
///
/// Ray parameters are handed over as order-preserving keys: a smaller key is a
/// nearer hit (for a non-negative `f32`, its bit pattern is such a key).
/// An implementation defines `hit`, `bounds` and `meets` as what
/// `ray_intersect`, `bounding_box` and `ray_meets_box` return.
pub trait Shape<R> {
    /// Key of the nearest valid hit of `ray` on the shape, if any.
    spec fn hit(&self, ray: R) -> Option<u32>;

    /// The box that the shape reports as its bounds.
    spec fn bounds(&self) -> Aabb;

    /// Whether `ray` meets box `b` (the broad-phase test).
    spec fn meets(ray: R, b: Aabb) -> bool;

    fn ray_intersect(&self, ray: &R) -> (r: Option<u32>)
        ensures
            r == self.hit(*ray),
    ;

    fn bounding_box(&self) -> (r: Aabb)
        ensures
            r == self.bounds(),
    ;

    fn ray_meets_box(ray: &R, b: &Aabb) -> (r: bool)
        ensures
            r == Self::meets(*ray, *b),
    ;
}

/// A hit found by a query: which shape, and the key of its ray parameter.
#[derive(Clone, Copy, Debug, PartialEq, Eq, Structural)]
pub struct Hit {
    pub shape_idx: usize,
    pub t_key: u32,
}

/// The key of a query's result, if it found anything.
pub open spec fn t_of(r: Option<Hit>) -> Option<u32> {
    match r {
        Some(h) => Some(h.t_key),
        None => None,
    }
}

/// Every index in `cands` names a shape.
pub open spec fn indices_below(cands: Seq<usize>, n: int) -> bool {
    forall|k: int| 0 <= k < cands.len() ==> (#[trigger] cands[k]) < n
}

/// `r` is the nearest hit of `ray` among the shapes that `cands` names: `None`
/// when none of them is hit, else a hit shape of `cands` whose key is no
/// greater than that of any other hit shape of `cands`.
pub open spec fn is_nearest<R, S: Shape<R>>(
    r: Option<Hit>,
    shapes: Seq<S>,
    ray: R,
    cands: Seq<usize>,
) -> bool {
    match r {
        None => forall|k: int|
            0 <= k < cands.len() ==> (#[trigger] shapes[cands[k] as int]).hit(ray) is None,
        Some(h) => {
            &&& cands.contains(h.shape_idx)
            &&& shapes[h.shape_idx as int].hit(ray) == Some(h.t_key)
            &&& forall|k: int|
                0 <= k < cands.len() && (#[trigger] shapes[cands[k] as int]).hit(ray) is Some
                    ==> h.t_key <= shapes[cands[k] as int].hit(ray)->0
        },
    }
}

/// Ties go to the end: no candidate after the one that `r` reports is hit
/// at `r`'s key.
pub open spec fn last_at_key<R, S: Shape<R>>(
    r: Option<Hit>,
    shapes: Seq<S>,
    ray: R,
    cands: Seq<usize>,
) -> bool {
    r matches Some(h) ==> exists|p: int|
        #![trigger cands[p]]
        0 <= p < cands.len() && cands[p] == h.shape_idx && forall|q: int|
            p < q < cands.len() ==> (#[trigger] shapes[cands[q] as int]).hit(ray) != Some(
                h.t_key,
            )
}

/// The indices `0, 1, ..., n - 1` in order.
pub open spec fn all_indices(n: nat) -> Seq<usize> {
    Seq::new(n, |i: int| i as usize)
}

/// Twice the centre, along `axis`, of the box of shape `i`.
pub open spec fn key_of(boxes: Seq<Aabb>, i: usize, axis: int) -> int {
    boxes[i as int].centroid2_spec(axis)
}

/// `s` is in order of `key_of` along `axis`.
pub open spec fn sorted_on(boxes: Seq<Aabb>, s: Seq<usize>, axis: int) -> bool {
    forall|a: int, b: int|
        0 <= a < b < s.len() ==> key_of(boxes, #[trigger] s[a], axis) <= key_of(
            boxes,
            #[trigger] s[b],
            axis,
        )
}

/// A node of the hierarchy. An internal node owns its two children.
pub enum BvhNode {
    Leaf { shape_idx: usize, aabb: Aabb },
    Internal { left: Box<BvhNode>, right: Box<BvhNode>, aabb: Aabb },
}

impl BvhNode {
    /// The box stored at this node.
    pub open spec fn aabb_spec(self) -> Aabb {
        match self {
            BvhNode::Leaf { aabb, .. } => aabb,
            BvhNode::Internal { aabb, .. } => aabb,
        }
    }

    /// The shape indices of the leaves, left to right.
    pub open spec fn leaves(self) -> Seq<usize>
        decreases self,
    {
        match self {
            BvhNode::Leaf { shape_idx, .. } => seq![shape_idx],
            BvhNode::Internal { left, right, .. } => left.leaves() + right.leaves(),
        }
    }

    /// Well formed over the shape boxes `boxes`: a leaf holds the box of its
    /// shape, and an internal node holds the hull of the boxes of the shapes
    /// below it.
    pub open spec fn wf(self, boxes: Seq<Aabb>) -> bool
        decreases self,
    {
        match self {
            BvhNode::Leaf { shape_idx, aabb } => shape_idx < boxes.len() && aabb
                == boxes[shape_idx as int],
            BvhNode::Internal { left, right, aabb } => {
                &&& left.wf(boxes)
                &&& right.wf(boxes)
                &&& is_hull(aabb, boxes, self.leaves())
            },
        }
    }

    /// Each internal node splits its shapes at the middle after ordering them
    /// by centroid along the longest axis of its box: the left child takes
    /// the first half (rounded down), and no left shape lies beyond a right
    /// one on that axis.
    pub open spec fn median_split(self, boxes: Seq<Aabb>) -> bool
        decreases self,
    {
        match self {
            BvhNode::Leaf { .. } => true,
            BvhNode::Internal { left, right, aabb } => {
                let axis = aabb.longest_axis_spec() as int;
                &&& left.leaves().len() == self.leaves().len() / 2
                &&& forall|a: int, b: int|
                    0 <= a < left.leaves().len() && 0 <= b < right.leaves().len() ==> key_of(
                        boxes,
                        #[trigger] left.leaves()[a],
                        axis,
                    ) <= key_of(boxes, #[trigger] right.leaves()[b], axis)
                &&& left.median_split(boxes)
                &&& right.median_split(boxes)
            },
        }
    }
}

/// Orders `indices` by centroid along `axis`. Each index is inserted after
/// those already placed with an equal key.
fn sort_by_centroid(boxes: &Vec<Aabb>, indices: &mut Vec<usize>, axis: usize)
    requires
        axis < 3,
        indices_below(old(indices)@, boxes@.len() as int),
    ensures
        final(indices)@.to_multiset() == old(indices)@.to_multiset(),
        final(indices)@.len() == old(indices)@.len(),
        indices_below(final(indices)@, boxes@.len() as int),
        sorted_on(boxes@, final(indices)@, axis as int),
{
    let mut out: Vec<usize> = Vec::new();
    let mut k: usize = 0;
    while k < indices.len()
        invariant
            axis < 3,
            k <= indices@.len(),
            out@.len() == k,
            indices_below(indices@, boxes@.len() as int),
            indices_below(out@, boxes@.len() as int),
            out@.to_multiset() == indices@.subrange(0, k as int).to_multiset(),
            sorted_on(boxes@, out@, axis as int),
        decreases indices@.len() - k,
    {
        let x = indices[k];
        let kx = boxes[x].centroid2(axis);
        let mut p: usize = 0;
        while p < out.len() && boxes[out[p]].centroid2(axis) <= kx
            invariant
                axis < 3,
                p <= out@.len(),
                indices_below(out@, boxes@.len() as int),
                forall|j: int| 0 <= j < p ==> key_of(boxes@, #[trigger] out@[j], axis as int) <= kx,
            decreases out@.len() - p,
        {
            p = p + 1;
        }
        proof {
            if p < out@.len() {
                assert(key_of(boxes@, out@[p as int], axis as int) > kx);
            }
            assert(indices@.subrange(0, k + 1) == indices@.subrange(0, k as int).push(x));
        }
        let ghost prev = out@;
        out.insert(p, x);
        proof {
            assert(out@ == prev.insert(p as int, x));
            assert forall|a: int, b: int| 0 <= a < b < out@.len() implies key_of(
                boxes@,
                #[trigger] out@[a],
                axis as int,
            ) <= key_of(boxes@, #[trigger] out@[b], axis as int) by {
                if b < p {
                    assert(out@[a] == prev[a] && out@[b] == prev[b]);
                } else if b == p {
                    assert(out@[a] == prev[a]);
                } else if a < p {
                    assert(out@[a] == prev[a] && out@[b] == prev[b - 1]);
                    assert(key_of(boxes@, prev[p as int], axis as int) > kx);
                } else if a == p {
                    assert(out@[b] == prev[b - 1]);
                    assert(key_of(boxes@, prev[p as int], axis as int) > kx);
                    if b - 1 > p {
                        assert(key_of(boxes@, prev[p as int], axis as int) <= key_of(
                            boxes@,
                            prev[b - 1],
                            axis as int,
                        ));
                    }
                } else {
                    assert(out@[a] == prev[a - 1] && out@[b] == prev[b - 1]);
                }
            }
            assert forall|j: int| 0 <= j < out@.len() implies (#[trigger] out@[j]) < boxes@.len() by {
                if j < p {
                    assert(out@[j] == prev[j]);
                } else if j > p {
                    assert(out@[j] == prev[j - 1]);
                }
            }
        }
        k = k + 1;
    }
    proof {
        assert(indices@.subrange(0, k as int) == indices@);
    }
    *indices = out;
}

/// An element of `s1` is an element of any permutation `s2` of it.
proof fn lemma_perm_contains(s1: Seq<usize>, s2: Seq<usize>, x: usize)
    requires
        s1.to_multiset() == s2.to_multiset(),
        s1.contains(x),
    ensures
        s2.contains(x),
{
    assert(s1.to_multiset().count(x) > 0);
}

/// Along `axis`, the lower and the upper bound of `b` are each reached by the
/// box of some shape of `s`.
pub open spec fn hull_attains(b: Aabb, boxes: Seq<Aabb>, s: Seq<usize>, axis: int) -> bool {
    &&& exists|k: int| 0 <= k < s.len() && b.min.at(axis) == boxes[s[k] as int].min.at(axis)
    &&& exists|k: int| 0 <= k < s.len() && b.max.at(axis) == boxes[s[k] as int].max.at(axis)
}

/// `b` is the hull of the boxes of the shapes of `s`: the smallest box that
/// encloses them all.
pub open spec fn is_hull(b: Aabb, boxes: Seq<Aabb>, s: Seq<usize>) -> bool {
    &&& forall|k: int| 0 <= k < s.len() ==> b.encloses(boxes[#[trigger] s[k] as int])
    &&& forall|axis: int| 0 <= axis < 3 ==> #[trigger] hull_attains(b, boxes, s, axis)
}

/// The box of one shape is the hull of that shape alone.
proof fn lemma_hull_single(boxes: Seq<Aabb>, x: usize)
    requires
        x < boxes.len(),
    ensures
        is_hull(boxes[x as int], boxes, seq![x]),
{
    let s = seq![x];
    assert(s[0] == x);
    assert forall|axis: int| 0 <= axis < 3 implies #[trigger] hull_attains(
        boxes[x as int],
        boxes,
        s,
        axis,
    ) by {
        assert(boxes[x as int].min.at(axis) == boxes[s[0] as int].min.at(axis));
        assert(boxes[x as int].max.at(axis) == boxes[s[0] as int].max.at(axis));
    }
}

/// Widening a hull by one more box gives the hull of the longer list.
proof fn lemma_hull_step(h: Aabb, boxes: Seq<Aabb>, s: Seq<usize>, x: usize)
    requires
        is_hull(h, boxes, s),
        x < boxes.len(),
    ensures
        is_hull(Aabb::surround(h, boxes[x as int]), boxes, s.push(x)),
{
    let b = boxes[x as int];
    let h2 = Aabb::surround(h, b);
    let t = s.push(x);
    lemma_surrounding_contains(h, b);
    assert forall|k: int| 0 <= k < t.len() implies h2.encloses(boxes[#[trigger] t[k] as int]) by {
        if k < s.len() {
            assert(t[k] == s[k]);
            lemma_encloses_trans(h2, h, boxes[s[k] as int]);
        }
    }
    assert forall|axis: int| 0 <= axis < 3 implies #[trigger] hull_attains(h2, boxes, t, axis) by {
        assert(hull_attains(h, boxes, s, axis));
        let i = choose|k: int| 0 <= k < s.len() && h.min.at(axis) == boxes[s[k] as int].min.at(axis);
        let j = choose|k: int| 0 <= k < s.len() && h.max.at(axis) == boxes[s[k] as int].max.at(axis);
        assert(t[i] == s[i] && t[j] == s[j] && t[s.len() as int] == x);
        if h.min.at(axis) <= b.min.at(axis) {
            assert(h2.min.at(axis) == boxes[t[i] as int].min.at(axis));
        } else {
            assert(h2.min.at(axis) == boxes[t[s.len() as int] as int].min.at(axis));
        }
        if h.max.at(axis) >= b.max.at(axis) {
            assert(h2.max.at(axis) == boxes[t[j] as int].max.at(axis));
        } else {
            assert(h2.max.at(axis) == boxes[t[s.len() as int] as int].max.at(axis));
        }
    }
}

/// The hull does not depend on the order of the list.
proof fn lemma_hull_perm(h: Aabb, boxes: Seq<Aabb>, s1: Seq<usize>, s2: Seq<usize>)
    requires
        is_hull(h, boxes, s1),
        s1.to_multiset() == s2.to_multiset(),
    ensures
        is_hull(h, boxes, s2),
{
    assert forall|k: int| 0 <= k < s2.len() implies h.encloses(boxes[#[trigger] s2[k] as int]) by {
        assert(s2.contains(s2[k]));
        lemma_perm_contains(s2, s1, s2[k]);
        let i = choose|i: int| 0 <= i < s1.len() && s1[i] == s2[k];
        assert(h.encloses(boxes[s1[i] as int]));
    }
    assert forall|axis: int| 0 <= axis < 3 implies #[trigger] hull_attains(h, boxes, s2, axis) by {
        assert(hull_attains(h, boxes, s1, axis));
        let i = choose|k: int|
            0 <= k < s1.len() && h.min.at(axis) == boxes[s1[k] as int].min.at(axis);
        let j = choose|k: int|
            0 <= k < s1.len() && h.max.at(axis) == boxes[s1[k] as int].max.at(axis);
        assert(s1.contains(s1[i]));
        lemma_perm_contains(s1, s2, s1[i]);
        let i2 = choose|k: int| 0 <= k < s2.len() && s2[k] == s1[i];
        assert(h.min.at(axis) == boxes[s2[i2] as int].min.at(axis));
        assert(s1.contains(s1[j]));
        lemma_perm_contains(s1, s2, s1[j]);
        let j2 = choose|k: int| 0 <= k < s2.len() && s2[k] == s1[j];
        assert(h.max.at(axis) == boxes[s2[j2] as int].max.at(axis));
    }
}

/// A copy of `v[lo..hi]`.
fn copy_range(v: &Vec<usize>, lo: usize, hi: usize) -> (r: Vec<usize>)
    requires
        lo <= hi <= v@.len(),
    ensures
        r@ == v@.subrange(lo as int, hi as int),
{
    let mut r: Vec<usize> = Vec::new();
    let mut i: usize = lo;
    while i < hi
        invariant
            lo <= i <= hi <= v@.len(),
            r@ == v@.subrange(lo as int, i as int),
        decreases hi - i,
    {
        r.push(v[i]);
        proof {
            assert(v@.subrange(lo as int, i + 1) == v@.subrange(lo as int, i as int).push(v@[i as int]));
        }
        i = i + 1;
    }
    r
}

impl BvhNode {
    /// Builds the hierarchy over the shapes that `indices` names, whose boxes
    /// are `boxes`. `indices` is left in the order of the leaves: each level
    /// orders its own range by centroid along the longest axis of the range's
    /// box and splits it at the middle.
    pub fn build(boxes: &Vec<Aabb>, indices: &mut Vec<usize>) -> (r: BvhNode)
        requires
            old(indices)@.len() > 0,
            indices_below(old(indices)@, boxes@.len() as int),
        ensures
            r.wf(boxes@),
            r.median_split(boxes@),
            r.leaves() == final(indices)@,
            final(indices)@.to_multiset() == old(indices)@.to_multiset(),
        decreases old(indices)@.len(),
    {
        let n = indices.len();
        if n == 1 {
            let idx = indices[0];
            proof {
                assert(indices@ == seq![idx]);
            }
            return BvhNode::Leaf { shape_idx: idx, aabb: boxes[idx] };
        }
        let mut overall = boxes[indices[0]];
        let mut k: usize = 1;
        proof {
            lemma_hull_single(boxes@, indices@[0]);
            assert(indices@.subrange(0, 1) == seq![indices@[0]]);
        }
        while k < n
            invariant
                1 <= k <= n,
                n == indices@.len(),
                indices_below(indices@, boxes@.len() as int),
                is_hull(overall, boxes@, indices@.subrange(0, k as int)),
            decreases n - k,
        {
            let b = boxes[indices[k]];
            proof {
                lemma_hull_step(overall, boxes@, indices@.subrange(0, k as int), indices@[k as int]);
                assert(indices@.subrange(0, k as int).push(indices@[k as int]) == indices@.subrange(
                    0,
                    k + 1,
                ));
            }
            overall = Aabb::surrounding(&overall, &b);
            k = k + 1;
        }
        let axis = overall.longest_axis();
        let ghost before = indices@;
        sort_by_centroid(boxes, indices, axis);
        let ghost sorted = indices@;
        proof {
            assert(before.subrange(0, n as int) == before);
            lemma_hull_perm(overall, boxes@, before, sorted);
        }
        let mid = n / 2;
        let mut left_idx = copy_range(indices, 0, mid);
        let mut right_idx = copy_range(indices, mid, n);
        proof {
            assert(sorted == left_idx@ + right_idx@);
        }
        let ghost left_before = left_idx@;
        let ghost right_before = right_idx@;
        let left = BvhNode::build(boxes, &mut left_idx);
        let right = BvhNode::build(boxes, &mut right_idx);
        let mut merged = left_idx;
        let mut rest = right_idx;
        let ghost left_after = merged@;
        let ghost right_after = rest@;
        merged.append(&mut rest);
        proof {
            assert(merged@ == left_after + right_after);
            vstd::seq_lib::lemma_multiset_commutative(left_after, right_after);
            vstd::seq_lib::lemma_multiset_commutative(left_before, right_before);
            assert(merged@.to_multiset() == sorted.to_multiset());
            assert(merged@.len() == merged@.to_multiset().len());
            assert(merged@.len() == n);
            lemma_hull_perm(overall, boxes@, sorted, merged@);
            let ax = axis as int;
            assert forall|a: int, b: int|
                0 <= a < left_after.len() && 0 <= b < right_after.len() implies key_of(
                boxes@,
                #[trigger] left_after[a],
                ax,
            ) <= key_of(boxes@, #[trigger] right_after[b], ax) by {
                assert(left_after.contains(left_after[a]));
                lemma_perm_contains(left_after, left_before, left_after[a]);
                let i = choose|i: int| 0 <= i < left_before.len() && left_before[i] == left_after[a];
                assert(right_after.contains(right_after[b]));
                lemma_perm_contains(right_after, right_before, right_after[b]);
                let j = choose|j: int|
                    0 <= j < right_before.len() && right_before[j] == right_after[b];
                assert(sorted[i] == left_before[i]);
                assert(sorted[mid + j] == right_before[j]);
                assert(key_of(boxes@, sorted[i], ax) <= key_of(boxes@, sorted[mid + j], ax));
            }
        }
        *indices = merged;
        let r = BvhNode::Internal { left: Box::new(left), right: Box::new(right), aabb: overall };
        proof {
            assert(r.leaves() == indices@);
        }
        r
    }
}

/// The nearer of two results, as a query combines them: the second one wins
/// a tie.
pub open spec fn closer(a: Option<Hit>, b: Option<Hit>) -> Option<Hit> {
    match (a, b) {
        (Some(l), Some(r)) => if l.t_key < r.t_key {
            a
        } else {
            b
        },
        (Some(_), None) => a,
        _ => b,
    }
}

/// Every hit of `ray` on a shape is one where `ray` meets the shape's box.
pub open spec fn hits_within_bounds<R, S: Shape<R>>(shapes: Seq<S>, ray: R) -> bool {
    forall|i: int|
        0 <= i < shapes.len() && (#[trigger] shapes[i]).hit(ray) is Some ==> S::meets(
            ray,
            shapes[i].bounds(),
        )
}

/// A ray that meets a box meets every box that encloses it.
pub open spec fn meets_monotone<R, S: Shape<R>>(ray: R) -> bool {
    forall|b1: Aabb, b2: Aabb|
        #[trigger] b2.encloses(b1) && #[trigger] S::meets(ray, b1) ==> S::meets(ray, b2)
}

/// `boxes` lists the bounds of `shapes`, one for one.
pub open spec fn boxes_of<R, S: Shape<R>>(boxes: Seq<Aabb>, shapes: Seq<S>) -> bool {
    &&& boxes.len() == shapes.len()
    &&& forall|i: int| 0 <= i < shapes.len() ==> boxes[i] == (#[trigger] shapes[i]).bounds()
}

/// Combining the nearest hits of two candidate lists gives the nearest hit of
/// their concatenation.
proof fn lemma_closer_concat<R, S: Shape<R>>(
    a: Option<Hit>,
    b: Option<Hit>,
    shapes: Seq<S>,
    ray: R,
    c1: Seq<usize>,
    c2: Seq<usize>,
)
    requires
        is_nearest(a, shapes, ray, c1),
        is_nearest(b, shapes, ray, c2),
        last_at_key(a, shapes, ray, c1),
        last_at_key(b, shapes, ray, c2),
    ensures
        is_nearest(closer(a, b), shapes, ray, c1 + c2),
        last_at_key(closer(a, b), shapes, ray, c1 + c2),
{
    let c = c1 + c2;
    assert forall|k: int| 0 <= k < c.len() implies #[trigger] c[k] == (if k < c1.len() {
        c1[k]
    } else {
        c2[k - c1.len()]
    }) by {}
    match closer(a, b) {
        Some(h) => {
            let chose_a = match (a, b) {
                (Some(l), Some(r)) => l.t_key < r.t_key,
                (Some(_), None) => true,
                _ => false,
            };
            if chose_a {
                let i = choose|i: int| 0 <= i < c1.len() && c1[i] == h.shape_idx;
                assert(c[i] == h.shape_idx);
                let p = choose|p: int|
                    #![trigger c1[p]]
                    0 <= p < c1.len() && c1[p] == h.shape_idx && forall|q: int|
                        p < q < c1.len() ==> (#[trigger] shapes[c1[q] as int]).hit(ray) != Some(
                            h.t_key,
                        );
                assert(c[p] == h.shape_idx);
                assert forall|q: int| p < q < c.len() implies (#[trigger] shapes[c[q] as int]).hit(
                    ray,
                ) != Some(h.t_key) by {
                    if q < c1.len() {
                        assert(c[q] == c1[q]);
                    } else {
                        let j = q - c1.len();
                        assert(c[q] == c2[j]);
                        if shapes[c2[j] as int].hit(ray) is Some {
                            let hb = b->0;
                            assert(hb.t_key <= shapes[c2[j] as int].hit(ray)->0);
                            assert(h.t_key < hb.t_key);
                        }
                    }
                }
            } else {
                let i = choose|i: int| 0 <= i < c2.len() && c2[i] == h.shape_idx;
                assert(c[c1.len() + i] == h.shape_idx);
                let p = choose|p: int|
                    #![trigger c2[p]]
                    0 <= p < c2.len() && c2[p] == h.shape_idx && forall|q: int|
                        p < q < c2.len() ==> (#[trigger] shapes[c2[q] as int]).hit(ray) != Some(
                            h.t_key,
                        );
                assert(c[c1.len() + p] == h.shape_idx);
                assert forall|q: int| c1.len() + p < q < c.len() implies (#[trigger] shapes[c[q] as int]).hit(
                    ray,
                ) != Some(h.t_key) by {
                    assert(c[q] == c2[q - c1.len()]);
                }
            }
            assert forall|k: int|
                0 <= k < c.len() && (#[trigger] shapes[c[k] as int]).hit(ray) is Some implies h.t_key
                <= shapes[c[k] as int].hit(ray)->0 by {
                if k < c1.len() {
                    assert(shapes[c1[k] as int].hit(ray) is Some);
                } else {
                    assert(shapes[c2[k - c1.len()] as int].hit(ray) is Some);
                }
            }
        },
        None => {
            assert forall|k: int| 0 <= k < c.len() implies (#[trigger] shapes[c[k] as int]).hit(
                ray,
            ) is None by {
                if k < c1.len() {
                    assert(shapes[c1[k] as int].hit(ray) is None);
                } else {
                    assert(shapes[c2[k - c1.len()] as int].hit(ray) is None);
                }
            }
        },
    }
}

/// The nearest hit of `ray` on `shapes`, found by testing every shape in turn;
/// of two hits at the same key the later shape wins.
pub fn scene_intersect<R, S: Shape<R>>(ray: &R, shapes: &Vec<S>) -> (r: Option<Hit>)
    ensures
        is_nearest(r, shapes@, *ray, all_indices(shapes@.len())),
        last_at_key(r, shapes@, *ray, all_indices(shapes@.len())),
{
    let mut best: Option<Hit> = None;
    let mut i: usize = 0;
    proof {
        assert(all_indices(0) =~= Seq::<usize>::empty());
    }
    while i < shapes.len()
        invariant
            i <= shapes@.len(),
            is_nearest(best, shapes@, *ray, all_indices(i as nat)),
            last_at_key(best, shapes@, *ray, all_indices(i as nat)),
        decreases shapes@.len() - i,
    {
        let found = match shapes[i].ray_intersect(ray) {
            Some(t) => Some(Hit { shape_idx: i, t_key: t }),
            None => None,
        };
        proof {
            let one = seq![i];
            assert(one[0] == i);
            assert(is_nearest(found, shapes@, *ray, one));
            if found is Some {
                assert(one[0] == found->0.shape_idx);
            }
            assert(last_at_key(found, shapes@, *ray, one));
            lemma_closer_concat(best, found, shapes@, *ray, all_indices(i as nat), one);
            assert(all_indices(i as nat) + one =~= all_indices((i + 1) as nat));
        }
        best = match (best, found) {
            (Some(l), Some(h)) => if l.t_key < h.t_key {
                best
            } else {
                found
            },
            (Some(_), None) => best,
            _ => found,
        };
        i = i + 1;
    }
    best
}

impl BvhNode {
    /// Every shape below each node that `ray` hits lies below a node whose box
    /// `ray` meets: the broad phase never hides a hit.
    pub open spec fn covers<R, S: Shape<R>>(self, shapes: Seq<S>, ray: R) -> bool
        decreases self,
    {
        &&& forall|k: int|
            0 <= k < self.leaves().len() && (#[trigger] shapes[self.leaves()[k] as int]).hit(ray) is Some
                ==> S::meets(ray, self.aabb_spec())
        &&& match self {
            BvhNode::Leaf { .. } => true,
            BvhNode::Internal { left, right, .. } => left.covers(shapes, ray) && right.covers(
                shapes,
                ray,
            ),
        }
    }

    /// The nearest hit of `ray` among the shapes below this node. A node whose
    /// box the ray misses reports no hit; an internal node asks both children
    /// and keeps the nearer answer (the right one on a tie).
    pub fn intersect<R, S: Shape<R>>(&self, ray: &R, shapes: &Vec<S>) -> (r: Option<Hit>)
        requires
            indices_below(self.leaves(), shapes@.len() as int),
        ensures
            !S::meets(*ray, self.aabb_spec()) ==> r is None,
            r matches Some(h) ==> self.leaves().contains(h.shape_idx) && shapes@[h.shape_idx as int].hit(
                *ray,
            ) == Some(h.t_key),
            self.covers(shapes@, *ray) ==> is_nearest(r, shapes@, *ray, self.leaves()),
            self.covers(shapes@, *ray) ==> last_at_key(r, shapes@, *ray, self.leaves()),
        decreases self,
    {
        match self {
            BvhNode::Leaf { shape_idx, aabb } => {
                proof {
                    assert(self.leaves()[0] == *shape_idx);
                }
                if S::ray_meets_box(ray, aabb) {
                    match shapes[*shape_idx].ray_intersect(ray) {
                        Some(t) => Some(Hit { shape_idx: *shape_idx, t_key: t }),
                        None => None,
                    }
                } else {
                    None
                }
            },
            BvhNode::Internal { left, right, aabb } => {
                let ghost ll = left.leaves();
                let ghost rl = right.leaves();
                proof {
                    assert forall|k: int| 0 <= k < ll.len() implies (#[trigger] ll[k]) < shapes@.len() by {
                        assert(self.leaves()[k] == ll[k]);
                    }
                    assert forall|k: int| 0 <= k < rl.len() implies (#[trigger] rl[k]) < shapes@.len() by {
                        assert(self.leaves()[ll.len() + k] == rl[k]);
                    }
                }
                if !S::ray_meets_box(ray, aabb) {
                    proof {
                        if self.covers(shapes@, *ray) {
                            assert forall|k: int| 0 <= k < self.leaves().len() implies (
                            #[trigger] shapes@[self.leaves()[k] as int]).hit(*ray) is None by {}
                        }
                    }
                    return None;
                }
                let hit_left = left.intersect(ray, shapes);
                let hit_right = right.intersect(ray, shapes);
                proof {
                    if self.covers(shapes@, *ray) {
                        lemma_closer_concat(hit_left, hit_right, shapes@, *ray, ll, rl);
                    }
                    match closer(hit_left, hit_right) {
                        Some(h) => {
                            if hit_left == Some(h) {
                                let i = choose|i: int| 0 <= i < ll.len() && ll[i] == h.shape_idx;
                                assert(self.leaves()[i] == h.shape_idx);
                            } else {
                                let i = choose|i: int| 0 <= i < rl.len() && rl[i] == h.shape_idx;
                                assert(self.leaves()[ll.len() + i] == h.shape_idx);
                            }
                        },
                        None => {},
                    }
                }
                match (hit_left, hit_right) {
                    (Some(l), Some(r)) => {
                        if l.t_key < r.t_key {
                            Some(l)
                        } else {
                            Some(r)
                        }
                    },
                    (Some(l), None) => Some(l),
                    (None, Some(r)) => Some(r),
                    (None, None) => None,
                }
            },
        }
    }
}

/// The leaves of a well-formed tree name shapes that have boxes.
pub proof fn lemma_wf_indices(tree: BvhNode, boxes: Seq<Aabb>)
    requires
        tree.wf(boxes),
    ensures
        indices_below(tree.leaves(), boxes.len() as int),
    decreases tree,
{
    match tree {
        BvhNode::Leaf { .. } => {},
        BvhNode::Internal { left, right, .. } => {
            lemma_wf_indices(*left, boxes);
            lemma_wf_indices(*right, boxes);
            let ll = left.leaves();
            assert forall|k: int| 0 <= k < tree.leaves().len() implies (#[trigger] tree.leaves()[k])
                < boxes.len() by {
                if k < ll.len() {
                    assert(tree.leaves()[k] == ll[k]);
                } else {
                    assert(tree.leaves()[k] == right.leaves()[k - ll.len()]);
                }
            }
        },
    }
}

/// Well-formed trees whose shapes hit only inside their bounds, under a box
/// test that is monotone in the box, never hide a hit behind a missed box.
pub proof fn lemma_wf_covers<R, S: Shape<R>>(
    tree: BvhNode,
    boxes: Seq<Aabb>,
    shapes: Seq<S>,
    ray: R,
)
    requires
        tree.wf(boxes),
        boxes_of(boxes, shapes),
        hits_within_bounds(shapes, ray),
        meets_monotone::<R, S>(ray),
    ensures
        tree.covers(shapes, ray),
    decreases tree,
{
    match tree {
        BvhNode::Leaf { shape_idx, aabb } => {
            assert(tree.leaves()[0] == shape_idx);
            assert(shapes[shape_idx as int].bounds() == aabb);
        },
        BvhNode::Internal { left, right, aabb } => {
            lemma_wf_indices(tree, boxes);
            lemma_wf_covers(*left, boxes, shapes, ray);
            lemma_wf_covers(*right, boxes, shapes, ray);
            assert forall|k: int|
                0 <= k < tree.leaves().len() && (#[trigger] shapes[tree.leaves()[k] as int]).hit(
                    ray,
                ) is Some implies S::meets(ray, aabb) by {
                let i = tree.leaves()[k] as int;
                assert(aabb.encloses(boxes[i]));
                assert(shapes[i].bounds() == boxes[i]);
                assert(S::meets(ray, boxes[i]));
            }
        },
    }
}

/// Two nearest hits over the same candidates, in any order, have the same key.
pub proof fn lemma_nearest_same_key<R, S: Shape<R>>(
    a: Option<Hit>,
    b: Option<Hit>,
    shapes: Seq<S>,
    ray: R,
    c1: Seq<usize>,
    c2: Seq<usize>,
)
    requires
        c1.to_multiset() == c2.to_multiset(),
        is_nearest(a, shapes, ray, c1),
        is_nearest(b, shapes, ray, c2),
    ensures
        t_of(a) == t_of(b),
{
    match a {
        Some(ha) => {
            lemma_perm_contains(c1, c2, ha.shape_idx);
            let j = choose|j: int| 0 <= j < c2.len() && c2[j] == ha.shape_idx;
            assert(shapes[c2[j] as int].hit(ray) is Some);
            match b {
                Some(hb) => {
                    lemma_perm_contains(c2, c1, hb.shape_idx);
                    let i = choose|i: int| 0 <= i < c1.len() && c1[i] == hb.shape_idx;
                    assert(shapes[c1[i] as int].hit(ray) is Some);
                },
                None => {},
            }
        },
        None => {
            match b {
                Some(hb) => {
                    lemma_perm_contains(c2, c1, hb.shape_idx);
                    let i = choose|i: int| 0 <= i < c1.len() && c1[i] == hb.shape_idx;
                    assert(shapes[c1[i] as int].hit(ray) is None);
                },
                None => {},
            }
        },
    }
}

/// A query through a hierarchy built over every shape finds a hit exactly when
/// testing every shape does, and at the same ray parameter: `a` is what
/// `intersect` promises and `b` what `scene_intersect` promises. It needs
/// only that a shape is hit where the ray meets its box, and that a ray
/// meeting a box meets every box around it.
pub proof fn lemma_hierarchy_matches_brute_force<R, S: Shape<R>>(
    tree: BvhNode,
    boxes: Seq<Aabb>,
    shapes: Seq<S>,
    ray: R,
    a: Option<Hit>,
    b: Option<Hit>,
)
    requires
        tree.wf(boxes),
        tree.leaves().to_multiset() == all_indices(shapes.len()).to_multiset(),
        boxes_of(boxes, shapes),
        hits_within_bounds(shapes, ray),
        meets_monotone::<R, S>(ray),
        tree.covers(shapes, ray) ==> is_nearest(a, shapes, ray, tree.leaves()),
        is_nearest(b, shapes, ray, all_indices(shapes.len())),
    ensures
        t_of(a) == t_of(b),
{
    lemma_wf_covers(tree, boxes, shapes, ray);
    lemma_nearest_same_key(a, b, shapes, ray, tree.leaves(), all_indices(shapes.len()));
}

/// Hierarchies built from two orderings of the same shape indices answer
/// every query at the same ray parameter, although their trees may differ.
pub proof fn lemma_build_order_irrelevant<R, S: Shape<R>>(
    t1: BvhNode,
    t2: BvhNode,
    boxes: Seq<Aabb>,
    shapes: Seq<S>,
    ray: R,
    a: Option<Hit>,
    b: Option<Hit>,
)
    requires
        t1.wf(boxes),
        t2.wf(boxes),
        t1.leaves().to_multiset() == t2.leaves().to_multiset(),
        boxes_of(boxes, shapes),
        hits_within_bounds(shapes, ray),
        meets_monotone::<R, S>(ray),
        t1.covers(shapes, ray) ==> is_nearest(a, shapes, ray, t1.leaves()),
        t2.covers(shapes, ray) ==> is_nearest(b, shapes, ray, t2.leaves()),
    ensures
        t_of(a) == t_of(b),
{
    lemma_wf_covers(t1, boxes, shapes, ray);
    lemma_wf_covers(t2, boxes, shapes, ray);
    lemma_nearest_same_key(a, b, shapes, ray, t1.leaves(), t2.leaves());
}

} // verus!
