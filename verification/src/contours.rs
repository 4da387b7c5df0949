//! The integer part of contour tracing: recording the segments that cross each
//! grid cell, keyed by their end points (in hundredths of a cell), and chaining
//! them into polylines.

use vstd::prelude::*;
use rustc_hash::FxHashMap;
use crate::collections::{
    EndKey, EndPoint, end_map_new, end_map_contains, end_map_get, end_map_insert, end_map_remove,
};

verus! {

/// The segment end points recorded so far: `(x, y, slot)` maps to the other end
/// of a segment that ends at `(x, y)`; each point has two slots, 1 and 2.
pub type Curves = FxHashMap<EndKey, EndPoint>;

/// An empty table of segment end points.
pub fn new_curves() -> (r: Curves)
    ensures
        r@.dom() == Set::<EndKey>::empty(),
{
    end_map_new()
}

/// Records that a segment goes from `a` to `b`: in slot 1 of `a` when that is
/// free, else in slot 2 (replacing what was there). Returns the new table and
/// the new list of keys.
pub open spec fn link(curves: Map<EndKey, EndPoint>, obj: Seq<EndKey>, a: EndPoint, b: EndPoint) -> (
    Map<EndKey, EndPoint>,
    Seq<EndKey>,
) {
    let k1 = (a.0, a.1, 1u8);
    let k2 = (a.0, a.1, 2u8);
    if !curves.contains_key(k1) {
        (curves.insert(k1, b), obj.push(k1))
    } else {
        (curves.insert(k2, b), obj.push(k2))
    }
}

/// Records the segment between `a` and `b` at both its ends, unless the two
/// points coincide.
pub open spec fn record_segment(curves: Map<EndKey, EndPoint>, obj: Seq<EndKey>, a: EndPoint, b: EndPoint) -> (
    Map<EndKey, EndPoint>,
    Seq<EndKey>,
) {
    if a != b {
        let (c1, o1) = link(curves, obj, a, b);
        link(c1, o1, b, a)
    } else {
        (curves, obj)
    }
}

fn link_end(obj: &mut Vec<EndKey>, curves: &mut Curves, a: EndPoint, b: EndPoint)
    ensures
        (final(curves)@, final(obj)@) == link(old(curves)@, old(obj)@, a, b),
{
    let k1: EndKey = (a.0, a.1, 1u8);
    if !end_map_contains(curves, k1) {
        end_map_insert(curves, k1, b);
        obj.push(k1);
    } else {
        let k2: EndKey = (a.0, a.1, 2u8);
        end_map_insert(curves, k2, b);
        obj.push(k2);
    }
}

/// Records a contour segment from `(x1, y1)` to `(x2, y2)` (grid coordinates in
/// hundredths of a cell) at both of its ends, unless it is a single point.
pub fn check_obj_in(obj: &mut Vec<EndKey>, curves: &mut Curves, x1: i64, x2: i64, y1: i64, y2: i64)
    ensures
        (final(curves)@, final(obj)@) == record_segment(old(curves)@, old(obj)@, (x1, y1), (x2, y2)),
        old(curves)@.dom().finite() ==> final(curves)@.dom().finite(),
{
    if x1 != x2 || y1 != y2 {
        link_end(obj, curves, (x1, y1), (x2, y2));
        link_end(obj, curves, (x2, y2), (x1, y1));
    }
}

/// Whether two end points coincide.
fn same_point(a: EndPoint, b: EndPoint) -> (r: bool)
    ensures
        r == (a == b),
{
    a.0 == b.0 && a.1 == b.1
}

/// Whether `a` and `b` are consecutive, in either order, in one of the polylines.
pub open spec fn covered(polylines: Seq<Seq<EndPoint>>, a: EndPoint, b: EndPoint) -> bool {
    exists|i: int, k: int|
        0 <= i < polylines.len() && 0 <= k < polylines[i].len() - 1 && ((#[trigger] polylines[i][k]
            == a && polylines[i][k + 1] == b) || (polylines[i][k] == b && polylines[i][k + 1] == a))
}

/// Whether every step of the polyline follows a recorded segment: each point is
/// followed by the point stored in one of its slots.
pub open spec fn follows_segments(curves: Map<EndKey, EndPoint>, p: Seq<EndPoint>) -> bool {
    forall|k: int|
        0 <= k < p.len() - 1 ==> ((curves.contains_key((#[trigger] p[k].0, p[k].1, 1u8)) && curves[(
        p[k].0,
        p[k].1,
        1u8,
    )] == p[k + 1]) || (curves.contains_key((p[k].0, p[k].1, 2u8)) && curves[(p[k].0, p[k].1, 2u8)]
        == p[k + 1]))
}

/// Whether `small` holds a subset of the entries of `big`.
pub open spec fn sub_table(small: Map<EndKey, EndPoint>, big: Map<EndKey, EndPoint>) -> bool {
    forall|k: EndKey| #[trigger] small.contains_key(k) ==> big.contains_key(k) && small[k] == big[k]
}

/// The table is finite and holds only entries of the recorded table `c0`.
pub open spec fn table_ok(c0: Map<EndKey, EndPoint>, curves: Map<EndKey, EndPoint>) -> bool {
    &&& sub_table(curves, c0)
    &&& curves.dom().finite()
}

/// The polylines have at least two points and follow recorded segments.
pub open spec fn lines_ok(c0: Map<EndKey, EndPoint>, polylines: Seq<Seq<EndPoint>>) -> bool {
    &&& forall|i: int| 0 <= i < polylines.len() ==> #[trigger] polylines[i].len() >= 2
    &&& forall|i: int| 0 <= i < polylines.len() ==> follows_segments(c0, #[trigger] polylines[i])
}

/// Every entry removed from the table is a step of one of the polylines.
pub open spec fn removed_covered(
    c0: Map<EndKey, EndPoint>,
    curves: Map<EndKey, EndPoint>,
    polylines: Seq<Seq<EndPoint>>,
) -> bool {
    forall|k: EndKey| #[trigger] c0.contains_key(k) && !curves.contains_key(k) ==> covered(
        polylines,
        (k.0, k.1),
        c0[k],
    )
}

proof fn lemma_covered_extend(polylines: Seq<Seq<EndPoint>>, q: Seq<EndPoint>, a: EndPoint, b: EndPoint)
    requires
        covered(polylines.push(q.take(q.len() - 1)), a, b) || covered(polylines, a, b),
        q.len() >= 2,
    ensures
        covered(polylines.push(q), a, b),
{
    let ps = polylines.push(q);
    if covered(polylines, a, b) {
        let (i, k) = choose|i: int, k: int|
            0 <= i < polylines.len() && 0 <= k < polylines[i].len() - 1 && ((#[trigger] polylines[i][k]
                == a && polylines[i][k + 1] == b) || (polylines[i][k] == b && polylines[i][k + 1] == a));
        assert(ps[i] == polylines[i]);
        assert(ps[i][k] == polylines[i][k]);
    } else {
        let pq = polylines.push(q.take(q.len() - 1));
        let (i, k) = choose|i: int, k: int|
            0 <= i < pq.len() && 0 <= k < pq[i].len() - 1 && ((#[trigger] pq[i][k] == a && pq[i][k + 1]
                == b) || (pq[i][k] == b && pq[i][k + 1] == a));
        if i < polylines.len() {
            assert(ps[i] == polylines[i]);
            assert(ps[i][k] == pq[i][k]);
        } else {
            assert(ps[i][k] == pq[i][k]);
            assert(ps[i][k + 1] == pq[i][k + 1]);
        }
    }
}

/// The entries of `t` at `head` that point back to `prev`, removed: slot 1
/// first, then slot 2.
pub open spec fn drop_back(t: Map<EndKey, EndPoint>, head: EndPoint, prev: EndPoint) -> Map<EndKey, EndPoint> {
    let k1 = (head.0, head.1, 1u8);
    let k2 = (head.0, head.1, 2u8);
    let t1 = if t.contains_key(k1) && t[k1] == prev {
        t.remove(k1)
    } else {
        t
    };
    if t1.contains_key(k2) && t1[k2] == prev {
        t1.remove(k2)
    } else {
        t1
    }
}

/// The next step of a polyline that reached `head` from `prev`: the entry in
/// slot 1 of `head`, else the one in slot 2, as long as it does not lead back
/// to `prev`.
pub open spec fn next_step(t: Map<EndKey, EndPoint>, prev: EndPoint, head: EndPoint) -> Option<(EndKey, EndPoint)> {
    let k1 = (head.0, head.1, 1u8);
    let k2 = (head.0, head.1, 2u8);
    if t.contains_key(k1) && t[k1] != prev {
        Some((k1, t[k1]))
    } else if t.contains_key(k2) && t[k2] != prev {
        Some((k2, t[k2]))
    } else {
        None
    }
}

/// Dropping back links only removes entries of the table.
pub proof fn lemma_drop_back(t: Map<EndKey, EndPoint>, head: EndPoint, prev: EndPoint)
    ensures
        drop_back(t, head, prev).dom().subset_of(t.dom()),
        t.dom().finite() ==> drop_back(t, head, prev).dom().finite(),
        sub_table(drop_back(t, head, prev), t),
{
}

/// Extends the polyline `line`, which reached `head` from `prev`, step by step
/// while a next step exists, removing each entry used and the entries that
/// point back along the step. Gives the table afterwards and the polyline.
pub open spec fn extend(t: Map<EndKey, EndPoint>, prev: EndPoint, head: EndPoint, line: Seq<EndPoint>) -> (
    Map<EndKey, EndPoint>,
    Seq<EndPoint>,
)
    decreases t.dom().len(),
    when t.dom().finite()
{
    match next_step(t, prev, head) {
        None => (t, line),
        Some((key, next)) => {
            proof {
                lemma_drop_back(t.remove(key), next, head);
                vstd::set_lib::lemma_len_subset(drop_back(t.remove(key), next, head).dom(), t.remove(key).dom());
            }
            extend(drop_back(t.remove(key), next, head), head, next, line.push(next))
        },
    }
}

/// A polyline is extended as far as it goes: the extension only adds points
/// after the ones it had, and when it stops, no segment left in the table
/// leads on from its last point (other than back to the point before it).
pub proof fn lemma_extend_maximal(t: Map<EndKey, EndPoint>, prev: EndPoint, head: EndPoint, line: Seq<EndPoint>)
    requires
        t.dom().finite(),
        line.len() >= 2,
        line[line.len() - 2] == prev,
        line.last() == head,
    ensures
        ({
            let (t2, line2) = extend(t, prev, head, line);
            &&& line2.len() >= line.len()
            &&& line2.subrange(0, line.len() as int) == line
            &&& next_step(t2, line2[line2.len() - 2], line2.last()) is None
            &&& sub_table(t2, t)
            &&& t2.dom().finite()
        }),
    decreases t.dom().len(),
{
    match next_step(t, prev, head) {
        None => {
            assert(line.subrange(0, line.len() as int) =~= line);
        },
        Some((key, next)) => {
            let t1 = drop_back(t.remove(key), next, head);
            lemma_drop_back(t.remove(key), next, head);
            vstd::set_lib::lemma_len_subset(t1.dom(), t.remove(key).dom());
            let l1 = line.push(next);
            lemma_extend_maximal(t1, head, next, l1);
            let (t2, line2) = extend(t1, head, next, l1);
            assert(extend(t, prev, head, line) == extend(t1, head, next, l1));
            assert(line2.subrange(0, line.len() as int) =~= l1.subrange(0, line.len() as int));
            assert(l1.subrange(0, line.len() as int) =~= line);
            assert forall|k: EndKey| #[trigger] t2.contains_key(k) implies t.contains_key(k) && t2[k] == t[k] by {
                assert(t1.contains_key(k));
            }
        },
    }
}

/// The chaining of the segments: the keys of `obj` from the `i`-th on are
/// taken in order; a key still in the table starts a polyline through its
/// segment, which is extended as far as it goes. Gives the table afterwards
/// and the polylines, after those in `polys`.
pub open spec fn trace_from(
    obj: Seq<EndKey>,
    i: int,
    t: Map<EndKey, EndPoint>,
    polys: Seq<Seq<EndPoint>>,
) -> (Map<EndKey, EndPoint>, Seq<Seq<EndPoint>>)
    decreases obj.len() - i,
{
    if i < 0 || i >= obj.len() {
        (t, polys)
    } else if !t.contains_key(obj[i]) {
        trace_from(obj, i + 1, t, polys)
    } else {
        let k = obj[i];
        let start = (k.0, k.1);
        let first = t[k];
        let (t2, line) = extend(drop_back(t.remove(k), first, start), start, first, seq![start, first]);
        trace_from(obj, i + 1, t2, polys.push(line))
    }
}

/// Chains the recorded segments into polylines. The keys of `obj` are taken in
/// order; a key still in the table starts a polyline through its segment, which
/// is then extended from its far end through the segments not yet used, until
/// none continues it. Every entry used is removed, as is the reverse entry of
/// every step taken.
///
/// The result is what `trace_from` gives: polylines of at least two points
/// whose every step follows a recorded segment, such that every recorded
/// segment whose key is in `obj` is a step of one of them; afterwards no key
/// of `obj` is left in the table.
pub fn trace_polylines(obj: &Vec<EndKey>, curves: &mut Curves) -> (r: Vec<Vec<EndPoint>>)
    requires
        old(curves)@.dom().finite(),
        forall|j: int| 0 <= j < obj@.len() ==> (#[trigger] obj@[j]).2 == 1 || obj@[j].2 == 2,
    ensures
        lines_ok(old(curves)@, r@.map_values(|p: Vec<EndPoint>| p@)),
        forall|k: EndKey| #[trigger] old(curves)@.contains_key(k) && obj@.contains(k) ==> covered(
            r@.map_values(|p: Vec<EndPoint>| p@),
            (k.0, k.1),
            old(curves)@[k],
        ),
        forall|k: EndKey| obj@.contains(k) ==> !(#[trigger] final(curves)@.contains_key(k)),
        sub_table(final(curves)@, old(curves)@),
        (final(curves)@, r@.map_values(|p: Vec<EndPoint>| p@)) == trace_from(
            obj@,
            0,
            old(curves)@,
            Seq::empty(),
        ),
{
    let ghost c0 = curves@;
    let ghost goal = trace_from(obj@, 0, c0, Seq::empty());
    let mut polylines: Vec<Vec<EndPoint>> = Vec::new();
    assert(polylines@.map_values(|p: Vec<EndPoint>| p@) =~= Seq::<Seq<EndPoint>>::empty());
    let mut i: usize = 0;
    while i < obj.len()
        invariant
            c0 == old(curves)@,
            forall|j: int| 0 <= j < obj@.len() ==> (#[trigger] obj@[j]).2 == 1 || obj@[j].2 == 2,
            i <= obj@.len(),
            table_ok(c0, curves@),
            lines_ok(c0, polylines@.map_values(|p: Vec<EndPoint>| p@)),
            removed_covered(c0, curves@, polylines@.map_values(|p: Vec<EndPoint>| p@)),
            forall|m: int| 0 <= m < i ==> !curves@.contains_key(#[trigger] obj@[m]),
            goal == trace_from(obj@, 0, c0, Seq::empty()),
            trace_from(obj@, i as int, curves@, polylines@.map_values(|p: Vec<EndPoint>| p@)) == goal,
        decreases obj@.len() - i,
    {
        let k = obj[i];
        let found = end_map_get(curves, k);
        match found {
            None => {},
            Some(first) => {
                let ghost polys = polylines@.map_values(|p: Vec<EndPoint>| p@);
                let ghost before = curves@;
                let mut polyline: Vec<EndPoint> = Vec::new();
                polyline.push((k.0, k.1));
                polyline.push(first);
                end_map_remove(curves, k);
                let mut res: EndPoint = (k.0, k.1);
                let mut head: EndPoint = first;
                proof {
                    assert(obj@[i as int] == k);
                    assert(polyline@[0] == res && polyline@[1] == head);
                    assert(follows_segments(c0, polyline@)) by {
                        assert(polyline@[0].0 == k.0 && polyline@[0].1 == k.1);
                        assert(k == (k.0, k.1, k.2));
                    }
                    assert(covered(polys.push(polyline@), (k.0, k.1), c0[k])) by {
                        assert(polys.push(polyline@)[polys.len() as int] == polyline@);
                    }
                    assert forall|kk: EndKey| #[trigger] c0.contains_key(kk) && !curves@.contains_key(kk)
                        implies covered(polys.push(polyline@), (kk.0, kk.1), c0[kk]) by {
                        if kk != k {
                            lemma_covered_extend(polys, polyline@, (kk.0, kk.1), c0[kk]);
                        }
                    }
                    assert(forall|m: int| 0 <= m < i ==> !curves@.contains_key(#[trigger] obj@[m]));
                }
                drop_back_links(curves, head, res, Ghost(c0), Ghost(polys), Ghost(polyline@));
                let ghost target = extend(curves@, res, head, polyline@);
                proof {
                    assert(polyline@ =~= seq![(k.0, k.1), first]);
                    assert(curves@ == drop_back(before.remove(k), first, (k.0, k.1)));
                }
                loop
                    invariant_except_break
                        extend(curves@, res, head, polyline@) == target,
                        c0 == old(curves)@,
                        polyline@.len() >= 2,
                        polyline@[polyline@.len() - 1] == head,
                        polyline@[polyline@.len() - 2] == res,
                        follows_segments(c0, polyline@),
                        table_ok(c0, curves@),
                        lines_ok(c0, polys),
                        !curves@.contains_key((head.0, head.1, 1u8)) || curves@[(head.0, head.1, 1u8)] != res,
                        !curves@.contains_key((head.0, head.1, 2u8)) || curves@[(head.0, head.1, 2u8)] != res,
                        removed_covered(c0, curves@, polys.push(polyline@)),
                        polys == polylines@.map_values(|p: Vec<EndPoint>| p@),
                        forall|m: int| 0 <= m < i ==> !curves@.contains_key(#[trigger] obj@[m]),
                        !curves@.contains_key(k),
                    ensures
                        curves@ == target.0,
                        polylines@.map_values(|p: Vec<EndPoint>| p@) == polys.push(target.1),
                        c0 == old(curves)@,
                        table_ok(c0, curves@),
                        lines_ok(c0, polylines@.map_values(|p: Vec<EndPoint>| p@)),
                        removed_covered(c0, curves@, polylines@.map_values(|p: Vec<EndPoint>| p@)),
                        forall|m: int| 0 <= m < i ==> !curves@.contains_key(#[trigger] obj@[m]),
                        !curves@.contains_key(k),
                    decreases curves@.dom().len(),
                {
                    let k1: EndKey = (head.0, head.1, 1u8);
                    let k2: EndKey = (head.0, head.1, 2u8);
                    let n1 = end_map_get(curves, k1);
                    let n2 = end_map_get(curves, k2);
                    let step: Option<(EndKey, EndPoint)> = match n1 {
                        Some(v) if !same_point(v, res) => Some((k1, v)),
                        _ => match n2 {
                            Some(v) if !same_point(v, res) => Some((k2, v)),
                            _ => None,
                        },
                    };
                    match step {
                        None => {
                            proof {
                                let np = polylines@.push(polyline);
                                assert(np.map_values(|p: Vec<EndPoint>| p@) =~= polys.push(polyline@));
                                let pp = polys.push(polyline@);
                                assert(pp[polys.len() as int] == polyline@);
                                assert(lines_ok(c0, pp)) by {
                                    assert forall|j: int| 0 <= j < pp.len() implies #[trigger] pp[j].len() >= 2 by {
                                        if j < polys.len() {
                                            assert(pp[j] == polys[j]);
                                        }
                                    }
                                    assert forall|j: int| 0 <= j < pp.len() implies follows_segments(c0, #[trigger] pp[j]) by {
                                        if j < polys.len() {
                                            assert(pp[j] == polys[j]);
                                        }
                                    }
                                }
                            }
                            polylines.push(polyline);
                            break;
                        },
                        Some((key, next)) => {
                            let ghost before = curves@;
                            let ghost old_line = polyline@;
                            res = head;
                            polyline.push(next);
                            end_map_remove(curves, key);
                            head = next;
                            proof {
                                assert(key.0 == res.0 && key.1 == res.1);
                                assert(before.contains_key(key) && before[key] == next);
                                assert(c0.contains_key(key) && c0[key] == next);
                                assert(polyline@.take(polyline@.len() - 1) =~= old_line);
                                assert(follows_segments(c0, polyline@)) by {
                                    assert forall|j: int| 0 <= j < polyline@.len() - 1 implies ((c0.contains_key(
                                        (#[trigger] polyline@[j].0, polyline@[j].1, 1u8),
                                    ) && c0[(polyline@[j].0, polyline@[j].1, 1u8)] == polyline@[j + 1]) || (
                                    c0.contains_key((polyline@[j].0, polyline@[j].1, 2u8)) && c0[(
                                        polyline@[j].0,
                                        polyline@[j].1,
                                        2u8,
                                    )] == polyline@[j + 1])) by {
                                        if j < old_line.len() - 1 {
                                            assert(polyline@[j] == old_line[j]);
                                            assert(polyline@[j + 1] == old_line[j + 1]);
                                        } else {
                                            assert(polyline@[j] == res);
                                            assert(polyline@[j + 1] == next);
                                        }
                                    }
                                }
                                assert(covered(polys.push(polyline@), res, next)) by {
                                    let pp = polys.push(polyline@);
                                    assert(pp[polys.len() as int] == polyline@);
                                    assert(pp[polys.len() as int][polyline@.len() - 2] == res);
                                }
                                assert forall|kk: EndKey| #[trigger] c0.contains_key(kk) && !curves@.contains_key(kk)
                                    implies covered(polys.push(polyline@), (kk.0, kk.1), c0[kk]) by {
                                    if kk != key {
                                        lemma_covered_extend(polys, polyline@, (kk.0, kk.1), c0[kk]);
                                    }
                                }
                                assert(curves@.dom() =~= before.dom().remove(key));
                            }
                            drop_back_links(curves, head, res, Ghost(c0), Ghost(polys), Ghost(polyline@));
                            proof {
                                vstd::set_lib::lemma_len_subset(curves@.dom(), before.dom().remove(key));
                            }
                        },
                    }
                }
            },
        }
        i = i + 1;
    }
    proof {
        let polys = polylines@.map_values(|p: Vec<EndPoint>| p@);
        assert forall|kk: EndKey| #[trigger] old(curves)@.contains_key(kk) && obj@.contains(kk) implies covered(
            polys,
            (kk.0, kk.1),
            old(curves)@[kk],
        ) by {
            let m = choose|m: int| 0 <= m < obj@.len() && obj@[m] == kk;
            assert(!curves@.contains_key(obj@[m]));
        }
        assert forall|kk: EndKey| obj@.contains(kk) implies !(#[trigger] curves@.contains_key(kk)) by {
            let m = choose|m: int| 0 <= m < obj@.len() && obj@[m] == kk;
            assert(!curves@.contains_key(obj@[m]));
        }
    }
    polylines
}

/// Removes the entries at `head` that point back to `prev`: the step just taken
/// from `prev` to `head` covers them.
fn drop_back_links(
    curves: &mut Curves,
    head: EndPoint,
    prev: EndPoint,
    Ghost(c0): Ghost<Map<EndKey, EndPoint>>,
    Ghost(polys): Ghost<Seq<Seq<EndPoint>>>,
    Ghost(line): Ghost<Seq<EndPoint>>,
)
    requires
        table_ok(c0, old(curves)@),
        line.len() >= 2,
        line[line.len() - 1] == head,
        line[line.len() - 2] == prev,
        removed_covered(c0, old(curves)@, polys.push(line)),
    ensures
        final(curves)@ == drop_back(old(curves)@, head, prev),
        table_ok(c0, final(curves)@),
        final(curves)@.dom().subset_of(old(curves)@.dom()),
        !final(curves)@.contains_key((head.0, head.1, 1u8)) || final(curves)@[(head.0, head.1, 1u8)] != prev,
        !final(curves)@.contains_key((head.0, head.1, 2u8)) || final(curves)@[(head.0, head.1, 2u8)] != prev,
        removed_covered(c0, final(curves)@, polys.push(line)),
{
    let ghost pl = polys.push(line);
    proof {
        assert(pl[polys.len() as int] == line);
        assert(covered(pl, head, prev)) by {
            assert(pl[polys.len() as int][line.len() - 2] == prev);
            assert(pl[polys.len() as int][line.len() - 1] == head);
        }
    }
    let k1: EndKey = (head.0, head.1, 1u8);
    let k2: EndKey = (head.0, head.1, 2u8);
    match end_map_get(curves, k1) {
        Some(v) => {
            if same_point(v, prev) {
                end_map_remove(curves, k1);
            }
        },
        None => {},
    }
    match end_map_get(curves, k2) {
        Some(v) => {
            if same_point(v, prev) {
                end_map_remove(curves, k2);
            }
        },
        None => {},
    }
}

/// Whether the `i`-th point (counting from 0) of a traced contour of `len`
/// points is kept when the contour is thinned: points strictly inside the
/// contour, away from both ends, are dropped every other one on contours of
/// more than 13 points.
pub open spec fn contour_point_kept(i: int, len: int) -> bool {
    let ii = i + 1;
    let ldata = len - 1;
    !(ii > 5 && ii < ldata - 5 && ldata > 12 && ii % 2 == 0)
}

/// Decides whether the `i`-th point of a contour of `len` points is kept.
pub fn keep_contour_point(i: usize, len: usize) -> (r: bool)
    requires
        i < len,
    ensures
        r == contour_point_kept(i as int, len as int),
{
    let ii = i + 1;
    let ldata = len - 1;
    !(ii > 5 && ii < ldata - 5 && ldata > 12 && ii % 2 == 0)
}

} // verus!
