//! An exact-coordinate model of the spatial partition trees.
//!
//! The renderer's kd-trees split on floating-point coordinates and so live in
//! the driver.  What the structures promise is exact once the coordinates
//! are, and is stated and proved here over integer positions: the point tree
//! holds exactly the items it was built from, every item lies in its node's
//! bounding box, each child is on its side of the split plane, and the range
//! query returns exactly the items within the given squared distance of the
//! query point; the triangle tree's building pass partitions boxed items by
//! a split plane, straddlers staying at the node.

use vstd::prelude::*;
use vstd::seq_lib::lemma_multiset_commutative;

verus! {

broadcast use vstd::seq_lib::group_seq_lib_default, vstd::seq_lib::group_filter_ensures;

/// A position with exact integer coordinates.
#[derive(Clone, Copy, Debug, PartialEq, Eq, Structural)]
pub struct Point3 {
    pub x: i32,
    pub y: i32,
    pub z: i32,
}

/// The squared Euclidean distance between two points.
pub open spec fn dist2(a: Point3, b: Point3) -> int {
    (a.x - b.x) * (a.x - b.x) + (a.y - b.y) * (a.y - b.y) + (a.z - b.z) * (a.z - b.z)
}

/// Whether `p` lies in the axis-aligned box `[min, max]`.
pub open spec fn in_box(p: Point3, min: Point3, max: Point3) -> bool {
    &&& min.x <= p.x <= max.x
    &&& min.y <= p.y <= max.y
    &&& min.z <= p.z <= max.z
}

/// The distance from `q` to the interval `[lo, hi]` on one axis.
pub open spec fn axis_gap(q: int, lo: int, hi: int) -> int {
    if q < lo {
        lo - q
    } else if q > hi {
        q - hi
    } else {
        0
    }
}

/// A lower bound of the squared distance from `q` to any point of the box.
pub open spec fn box_dist2(q: Point3, min: Point3, max: Point3) -> int {
    let gx = axis_gap(q.x as int, min.x as int, max.x as int);
    let gy = axis_gap(q.y as int, min.y as int, max.y as int);
    let gz = axis_gap(q.z as int, min.z as int, max.z as int);
    gx * gx + gy * gy + gz * gz
}

/// The coordinate of `p` on axis `dim` (`0`, `1`, `2` for x, y, z).
pub open spec fn axis_of(p: Point3, dim: usize) -> int {
    if dim == 0 {
        p.x as int
    } else if dim == 1 {
        p.y as int
    } else {
        p.z as int
    }
}

proof fn lemma_sq_mono(a: int, b: int)
    by (nonlinear_arith)
    requires
        0 <= a <= b,
    ensures
        a * a <= b * b,
{
}

proof fn lemma_sq_swap(a: int, b: int)
    by (nonlinear_arith)
    ensures
        (a - b) * (a - b) == (b - a) * (b - a),
        (a - b) * (a - b) >= 0,
{
}

/// Any point of the box is at least `box_dist2` away from `q`.
proof fn lemma_box_dist2_le(q: Point3, p: Point3, min: Point3, max: Point3)
    requires
        in_box(p, min, max),
    ensures
        box_dist2(q, min, max) <= dist2(p, q),
{
    lemma_axis_gap_le(q.x as int, p.x as int, min.x as int, max.x as int);
    lemma_axis_gap_le(q.y as int, p.y as int, min.y as int, max.y as int);
    lemma_axis_gap_le(q.z as int, p.z as int, min.z as int, max.z as int);
}

proof fn lemma_axis_gap_le(q: int, p: int, lo: int, hi: int)
    requires
        lo <= p <= hi,
    ensures
        axis_gap(q, lo, hi) * axis_gap(q, lo, hi) <= (p - q) * (p - q),
{
    let g = axis_gap(q, lo, hi);
    if q < lo {
        lemma_sq_mono(g, p - q);
    } else if q > hi {
        lemma_sq_mono(g, q - p);
        lemma_sq_swap(p, q);
    } else {
        lemma_sq_swap(p, q);
        lemma_sq_mono(0, g);
    }
}

/// A filter keeps nothing when the predicate holds nowhere.
proof fn lemma_filter_none<A>(s: Seq<A>, pred: spec_fn(A) -> bool)
    requires
        forall|i: int| 0 <= i < s.len() ==> !pred(s[i]),
    ensures
        s.filter(pred) == Seq::<A>::empty(),
    decreases s.len(),
{
    reveal(Seq::filter);
    if s.len() > 0 {
        lemma_filter_none(s.drop_last(), pred);
    }
}

/// A filter keeps a single element exactly when the predicate holds of it.
proof fn lemma_filter_singleton<A>(x: A, pred: spec_fn(A) -> bool)
    ensures
        pred(x) ==> seq![x].filter(pred) == seq![x],
        !pred(x) ==> seq![x].filter(pred) == Seq::<A>::empty(),
{
    reveal_with_fuel(Seq::filter, 2);
    assert(seq![x].drop_last() =~= Seq::<A>::empty());
    assert(seq![x].last() == x);
    if pred(x) {
        assert(seq![x].filter(pred) =~= seq![x]);
    }
}

fn dist2_exec(a: Point3, b: Point3) -> (r: i128)
    ensures
        r == dist2(a, b),
{
    let dx: i128 = a.x as i128 - b.x as i128;
    let dy: i128 = a.y as i128 - b.y as i128;
    let dz: i128 = a.z as i128 - b.z as i128;
    proof {
        lemma_sq_bound(dx as int);
        lemma_sq_bound(dy as int);
        lemma_sq_bound(dz as int);
    }
    dx * dx + dy * dy + dz * dz
}

proof fn lemma_sq_bound(v: int)
    by (nonlinear_arith)
    requires
        -0x1_0000_0000 <= v <= 0x1_0000_0000,
    ensures
        0 <= v * v <= 0x1_0000_0000_0000_0000,
{
}

fn axis_gap_exec(q: i32, lo: i32, hi: i32) -> (r: i128)
    ensures
        r == axis_gap(q as int, lo as int, hi as int),
{
    if q < lo {
        lo as i128 - q as i128
    } else if q > hi {
        q as i128 - hi as i128
    } else {
        0
    }
}

fn box_dist2_exec(q: Point3, min: Point3, max: Point3) -> (r: i128)
    ensures
        r == box_dist2(q, min, max),
{
    let gx = axis_gap_exec(q.x, min.x, max.x);
    let gy = axis_gap_exec(q.y, min.y, max.y);
    let gz = axis_gap_exec(q.z, min.z, max.z);
    proof {
        lemma_sq_bound(gx as int);
        lemma_sq_bound(gy as int);
        lemma_sq_bound(gz as int);
    }
    gx * gx + gy * gy + gz * gz
}

fn axis_exec(p: Point3, dim: usize) -> (r: i32)
    requires
        dim < 3,
    ensures
        r as int == axis_of(p, dim),
{
    if dim == 0 {
        p.x
    } else if dim == 1 {
        p.y
    } else {
        p.z
    }
}

/// The componentwise bounding box of a nonempty set of positioned items.
fn bounds<T: Copy>(items: &Vec<(Point3, T)>) -> (r: (Point3, Point3))
    requires
        items@.len() > 0,
    ensures
        forall|i: int| 0 <= i < items@.len() ==> in_box(#[trigger] items@[i].0, r.0, r.1),
{
    let first = items[0].0;
    let mut mn = first;
    let mut mx = first;
    let mut i: usize = 1;
    while i < items.len()
        invariant
            1 <= i <= items@.len(),
            forall|k: int| 0 <= k < i ==> in_box(#[trigger] items@[k].0, mn, mx),
        decreases items@.len() - i,
    {
        let p = items[i].0;
        let old_mn = mn;
        let old_mx = mx;
        mn = Point3 {
            x: if p.x < mn.x { p.x } else { mn.x },
            y: if p.y < mn.y { p.y } else { mn.y },
            z: if p.z < mn.z { p.z } else { mn.z },
        };
        mx = Point3 {
            x: if p.x > mx.x { p.x } else { mx.x },
            y: if p.y > mx.y { p.y } else { mx.y },
            z: if p.z > mx.z { p.z } else { mx.z },
        };
        proof {
            assert forall|k: int| 0 <= k < i + 1 implies in_box(
                #[trigger] items@[k].0,
                mn,
                mx,
            ) by {
                if k < i {
                    assert(in_box(items@[k].0, old_mn, old_mx));
                }
            }
        }
        i = i + 1;
    }
    (mn, mx)
}

/// A node of the point kd-tree: one item, the bounding box of its whole
/// subtree, the split axis, and the children, each wholly on its side of the
/// split plane through this node's position.
pub struct KdNode<T> {
    pos: Point3,
    item: T,
    min: Point3,
    max: Point3,
    dim: usize,
    l: Option<Box<KdNode<T>>>,
    r: Option<Box<KdNode<T>>>,
}

impl<T: Copy> KdNode<T> {
    /// Every item of the subtree, this node's first.
    pub closed spec fn items(self) -> Seq<(Point3, T)>
        decreases self,
    {
        seq![(self.pos, self.item)] + (match self.l {
            Some(l) => l.items(),
            None => Seq::<(Point3, T)>::empty(),
        }) + (match self.r {
            Some(r) => r.items(),
            None => Seq::<(Point3, T)>::empty(),
        })
    }

    /// The structural invariant: every item of the subtree lies in the node's
    /// box, the left child's items lie strictly left of the split plane, the
    /// right child's on or right of it, and the children are themselves
    /// well-formed.
    pub closed spec fn wf(self) -> bool
        decreases self,
    {
        &&& self.dim < 3
        &&& forall|i: int|
            0 <= i < self.items().len() ==> in_box(#[trigger] self.items()[i].0, self.min, self.max)
        &&& match self.l {
            Some(l) => {
                &&& l.wf()
                &&& forall|i: int|
                    0 <= i < l.items().len() ==> axis_of(#[trigger] l.items()[i].0, self.dim)
                        < axis_of(self.pos, self.dim)
            },
            None => true,
        }
        &&& match self.r {
            Some(r) => {
                &&& r.wf()
                &&& forall|i: int|
                    0 <= i < r.items().len() ==> axis_of(#[trigger] r.items()[i].0, self.dim)
                        >= axis_of(self.pos, self.dim)
            },
            None => true,
        }
    }

    /// Builds a tree over the given items, splitting each level on the next
    /// axis around its first item.  The tree holds exactly the items it was
    /// given.
    pub fn build(items: Vec<(Point3, T)>) -> (t: KdNode<T>)
        requires
            items@.len() > 0,
        ensures
            t.wf(),
            t.items().to_multiset() == items@.to_multiset(),
    {
        Self::build_rec(items, 0)
    }

    fn build_rec(items: Vec<(Point3, T)>, dim: usize) -> (t: KdNode<T>)
        requires
            items@.len() > 0,
            dim < 3,
        ensures
            t.wf(),
            t.items().to_multiset() == items@.to_multiset(),
        decreases items@.len(),
    {
        broadcast use vstd::seq_lib::group_to_multiset_ensures;

        let (bmin, bmax) = bounds(&items);
        let pivot: (Point3, T) = items[0];
        let pax = axis_exec(pivot.0, dim);
        let mut left: Vec<(Point3, T)> = Vec::new();
        let mut right: Vec<(Point3, T)> = Vec::new();
        let mut i: usize = 1;
        while i < items.len()
            invariant
                1 <= i <= items@.len(),
                dim < 3,
                pivot == items@[0],
                pax == axis_of(items@[0].0, dim),
                left@.len() + right@.len() == i - 1,
                left@.to_multiset().add(right@.to_multiset()) == items@.subrange(
                    1,
                    i as int,
                ).to_multiset(),
                forall|k: int|
                    0 <= k < left@.len() ==> axis_of(#[trigger] left@[k].0, dim) < axis_of(
                        items@[0].0,
                        dim,
                    ),
                forall|k: int|
                    0 <= k < right@.len() ==> axis_of(#[trigger] right@[k].0, dim) >= axis_of(
                        items@[0].0,
                        dim,
                    ),
            decreases items@.len() - i,
        {
            let it = items[i];
            proof {
                assert(items@.subrange(1, i + 1) =~= items@.subrange(1, i as int).push(
                    items@[i as int],
                ));
            }
            if axis_exec(it.0, dim) < pax {
                left.push(it);
                proof {
                    broadcast use vstd::seq_lib::group_to_multiset_ensures;

                    assert(left@.to_multiset().add(right@.to_multiset()) =~= items@.subrange(
                        1,
                        i + 1,
                    ).to_multiset());
                }
            } else {
                right.push(it);
                proof {
                    broadcast use vstd::seq_lib::group_to_multiset_ensures;

                    assert(left@.to_multiset().add(right@.to_multiset()) =~= items@.subrange(
                        1,
                        i + 1,
                    ).to_multiset());
                }
            }
            i = i + 1;
        }
        proof {
            assert(items@.subrange(1, items@.len() as int) =~= items@.subrange(
                1,
                i as int,
            ));
        }
        let next_dim = if dim == 2 {
            0
        } else {
            dim + 1
        };
        let ghost lview = left@;
        let ghost rview = right@;
        let l = if left.len() > 0 {
            Some(Box::new(Self::build_rec(left, next_dim)))
        } else {
            None
        };
        let r = if right.len() > 0 {
            Some(Box::new(Self::build_rec(right, next_dim)))
        } else {
            None
        };
        let t = KdNode { pos: pivot.0, item: pivot.1, min: bmin, max: bmax, dim, l, r };
        proof {
            let head = seq![(t.pos, t.item)];
            let lseq = match &t.l {
                Some(l) => l.items(),
                None => Seq::<(Point3, T)>::empty(),
            };
            let rseq = match &t.r {
                Some(r) => r.items(),
                None => Seq::<(Point3, T)>::empty(),
            };
            lemma_multiset_commutative(head + lseq, rseq);
            lemma_multiset_commutative(head, lseq);
            assert(lseq.to_multiset() =~= lview.to_multiset());
            assert(rseq.to_multiset() =~= rview.to_multiset());
            let rest = items@.subrange(1, items@.len() as int);
            lemma_multiset_commutative(head, rest);
            assert(items@ =~= head + rest);
            assert(t.items().to_multiset() =~= items@.to_multiset());

            assert forall|k: int| 0 <= k < t.items().len() implies in_box(
                #[trigger] t.items()[k].0,
                t.min,
                t.max,
            ) by {
                let it = t.items()[k];
                assert(t.items().contains(it));
                assert(t.items().to_multiset().count(it) > 0);
                assert(items@.to_multiset().count(it) > 0);
                assert(items@.contains(it));
                let j = choose|j: int| 0 <= j < items@.len() && items@[j] == it;
                assert(in_box(items@[j].0, bmin, bmax));
            }
            if t.l is Some {
                let lnode = t.l.unwrap();
                assert forall|k: int| 0 <= k < lnode.items().len() implies axis_of(
                    #[trigger] lnode.items()[k].0,
                    t.dim,
                ) < axis_of(t.pos, t.dim) by {
                    let it = lnode.items()[k];
                    assert(lnode.items().contains(it));
                    assert(lnode.items().to_multiset().count(it) > 0);
                    assert(lview.to_multiset().count(it) > 0);
                    assert(lview.contains(it));
                    let j = choose|j: int| 0 <= j < lview.len() && lview[j] == it;
                    assert(axis_of(lview[j].0, dim) < axis_of(items@[0].0, dim));
                }
            }
            if t.r is Some {
                let rnode = t.r.unwrap();
                assert forall|k: int| 0 <= k < rnode.items().len() implies axis_of(
                    #[trigger] rnode.items()[k].0,
                    t.dim,
                ) >= axis_of(t.pos, t.dim) by {
                    let it = rnode.items()[k];
                    assert(rnode.items().contains(it));
                    assert(rnode.items().to_multiset().count(it) > 0);
                    assert(rview.to_multiset().count(it) > 0);
                    assert(rview.contains(it));
                    let j = choose|j: int| 0 <= j < rview.len() && rview[j] == it;
                    assert(axis_of(rview[j].0, dim) >= axis_of(items@[0].0, dim));
                }
            }
        }
        t
    }

    /// Every item within squared distance `r2` of `q` — exactly those, in the
    /// tree's own order.
    pub fn within(&self, q: Point3, r2: i128) -> (out: Vec<(Point3, T)>)
        requires
            self.wf(),
        ensures
            out@ == self.items().filter(|it: (Point3, T)| dist2(it.0, q) <= r2),
    {
        let mut out: Vec<(Point3, T)> = Vec::new();
        self.within_rec(q, r2, &mut out);
        out
    }

    #[verifier::spinoff_prover]
    #[verifier::rlimit(60)]
    fn within_rec(&self, q: Point3, r2: i128, out: &mut Vec<(Point3, T)>)
        requires
            self.wf(),
        ensures
            final(out)@ == old(out)@ + self.items().filter(
                |it: (Point3, T)| dist2(it.0, q) <= r2,
            ),
        decreases *self,
    {
        let ghost pred = |it: (Point3, T)| dist2(it.0, q) <= r2;
        let ghost head = seq![(self.pos, self.item)];
        let d2 = dist2_exec(self.pos, q);
        if d2 <= r2 {
            out.push((self.pos, self.item));
        }
        proof {
            lemma_filter_singleton((self.pos, self.item), pred);
        }
        if let Some(l) = &self.l {
            if box_dist2_exec(q, l.min, l.max) <= r2 {
                l.within_rec(q, r2, out);
            } else {
                proof {
                    lemma_subtree_out_of_range(l, q, r2 as int);
                }
            }
        }
        if let Some(r) = &self.r {
            if box_dist2_exec(q, r.min, r.max) <= r2 {
                r.within_rec(q, r2, out);
            } else {
                proof {
                    lemma_subtree_out_of_range(r, q, r2 as int);
                }
            }
        }
        proof {
            let lseq = match &self.l {
                Some(l) => l.items(),
                None => Seq::<(Point3, T)>::empty(),
            };
            let rseq = match &self.r {
                Some(r) => r.items(),
                None => Seq::<(Point3, T)>::empty(),
            };
            Seq::filter_distributes_over_add(head + lseq, rseq, pred);
            Seq::filter_distributes_over_add(head, lseq, pred);
            assert(Seq::<(Point3, T)>::empty().filter(pred) == Seq::<(Point3, T)>::empty()) by {
                reveal(Seq::filter);
            }
            assert(final(out)@ == old(out)@ + self.items().filter(pred));
        }
    }
}

/// The split rule of the triangle tree's building pass, over exact extents:
/// an item wholly at or left of the plane `m` goes left, one wholly at or
/// right of it goes right, and one straddling the plane stays at the node.
/// Each group keeps the input's order, and the three groups are exactly the
/// input.  An item is the extent `[lo, hi]` of a triangle's bounding box on
/// the split axis and the triangle's place in the caller's table.
pub fn partition_by_plane<T: Copy>(items: &Vec<(i32, i32, T)>, m: i32) -> (r: (
    Vec<(i32, i32, T)>,
    Vec<(i32, i32, T)>,
    Vec<(i32, i32, T)>,
))
    ensures
        r.0@ == items@.filter(|it: (i32, i32, T)| it.1 <= m),
        r.1@ == items@.filter(|it: (i32, i32, T)| it.1 > m && it.0 < m),
        r.2@ == items@.filter(|it: (i32, i32, T)| it.1 > m && it.0 >= m),
{
    let ghost lpred = |it: (i32, i32, T)| it.1 <= m;
    let ghost cpred = |it: (i32, i32, T)| it.1 > m && it.0 < m;
    let ghost rpred = |it: (i32, i32, T)| it.1 > m && it.0 >= m;
    let mut left: Vec<(i32, i32, T)> = Vec::new();
    let mut cur: Vec<(i32, i32, T)> = Vec::new();
    let mut right: Vec<(i32, i32, T)> = Vec::new();
    let mut i: usize = 0;
    while i < items.len()
        invariant
            i <= items@.len(),
            lpred == (|it: (i32, i32, T)| it.1 <= m),
            cpred == (|it: (i32, i32, T)| it.1 > m && it.0 < m),
            rpred == (|it: (i32, i32, T)| it.1 > m && it.0 >= m),
            left@ == items@.subrange(0, i as int).filter(lpred),
            cur@ == items@.subrange(0, i as int).filter(cpred),
            right@ == items@.subrange(0, i as int).filter(rpred),
        decreases items@.len() - i,
    {
        let it = items[i];
        if it.1 <= m {
            left.push(it);
        } else if it.0 >= m {
            right.push(it);
        } else {
            cur.push(it);
        }
        proof {
            reveal(Seq::filter);
            let s2 = items@.subrange(0, i + 1);
            assert(s2.len() == i + 1);
            assert(s2.drop_last() =~= items@.subrange(0, i as int));
            assert(s2.last() == items@[i as int]);
            assert(left@ == s2.filter(lpred));
            assert(cur@ == s2.filter(cpred));
            assert(right@ == s2.filter(rpred));
        }
        i = i + 1;
    }
    proof {
        assert(items@.subrange(0, items@.len() as int) =~= items@);
    }
    (left, cur, right)
}

/// A pruned subtree holds nothing within range: its box is farther from `q`
/// than the bound, and every item lies in the box.
proof fn lemma_subtree_out_of_range<T: Copy>(node: &KdNode<T>, q: Point3, r2: int)
    requires
        node.wf(),
        box_dist2(q, node.min, node.max) > r2,
    ensures
        node.items().filter(|it: (Point3, T)| dist2(it.0, q) <= r2) == Seq::<(Point3, T)>::empty(),
{
    let pred = |it: (Point3, T)| dist2(it.0, q) <= r2;
    assert forall|i: int| 0 <= i < node.items().len() implies !pred(node.items()[i]) by {
        lemma_box_dist2_le(q, node.items()[i].0, node.min, node.max);
    }
    lemma_filter_none(node.items(), pred);
}

} // verus!
