//! The joining phase of contour smoothing: contour pieces whose ends meet are
//! joined into longer lines. Lines are known here by the keys of their end
//! points (coordinates scaled to integers); the result is a plan that says,
//! for every line, which input lines it is made of, in order, and which of
//! them are reversed.

use vstd::prelude::*;
use rustc_hash::FxHashMap;
use crate::collections::{EndPoint, point_map_new, point_map_get, point_map_insert};

verus! {

/// An input line within a joined line, and whether it is traversed backwards.
pub type Piece = (usize, bool);

/// Where a piece starts.
pub open spec fn piece_start(heads: Seq<EndPoint>, tails: Seq<EndPoint>, p: Piece) -> EndPoint {
    if p.1 {
        tails[p.0 as int]
    } else {
        heads[p.0 as int]
    }
}

/// Where a piece ends.
pub open spec fn piece_end(heads: Seq<EndPoint>, tails: Seq<EndPoint>, p: Piece) -> EndPoint {
    if p.1 {
        heads[p.0 as int]
    } else {
        tails[p.0 as int]
    }
}

/// Whether each piece starts where the previous one ends.
pub open spec fn chained(heads: Seq<EndPoint>, tails: Seq<EndPoint>, ps: Seq<Piece>) -> bool {
    forall|a: int|
        0 <= a < ps.len() - 1 ==> piece_end(heads, tails, #[trigger] ps[a]) == piece_start(
            heads,
            tails,
            ps[a + 1],
        )
}

/// The pieces traversed backwards: in reverse order, each one reversed.
pub open spec fn reversed_pieces(ps: Seq<Piece>) -> Seq<Piece> {
    Seq::new(ps.len(), |a: int| (ps[ps.len() - 1 - a].0, !ps[ps.len() - 1 - a].1))
}

/// Whether input line `i` is one of the pieces.
pub open spec fn holds(ps: Seq<Piece>, i: usize) -> bool {
    exists|a: int| 0 <= a < ps.len() && (#[trigger] ps[a]).0 == i
}

/// Whether no input line occurs twice among the pieces.
pub open spec fn distinct_lines(ps: Seq<Piece>) -> bool {
    forall|a: int, b: int| 0 <= a < b < ps.len() ==> (#[trigger] ps[a]).0 != (#[trigger] ps[b]).0
}

/// Whether the plan for `n` lines uses every input line exactly once.
pub open spec fn is_partition(plan: Seq<Seq<Piece>>, n: nat) -> bool {
    &&& plan.len() == n
    &&& forall|l: int, a: int| 0 <= l < n && 0 <= a < plan[l].len() ==> (#[trigger] plan[l][a]).0 < n
    &&& forall|l: int| 0 <= l < n ==> distinct_lines(#[trigger] plan[l])
    &&& forall|l1: int, l2: int, i: usize|
        0 <= l1 < n && 0 <= l2 < n && l1 != l2 && #[trigger] holds(plan[l1], i) ==> !#[trigger] holds(
            plan[l2],
            i,
        )
    &&& forall|i: usize| i < n ==> #[trigger] used(plan, i)
}

/// Whether input line `i` is used by some line of the plan.
pub open spec fn used(plan: Seq<Seq<Piece>>, i: usize) -> bool {
    exists|l: int| 0 <= l < plan.len() && #[trigger] holds(plan[l], i)
}

/// The mathematical content of a plan.
pub open spec fn plan_view(plan: Seq<Vec<Piece>>) -> Seq<Seq<Piece>> {
    plan.map_values(|v: Vec<Piece>| v@)
}

/// The number of lines of a plan that have not been joined into another.
pub open spec fn live(plan: Seq<Seq<Piece>>) -> nat
    decreases plan.len(),
{
    if plan.len() == 0 {
        0
    } else {
        live(plan.drop_last()) + if plan.last().len() > 0 {
            1nat
        } else {
            0nat
        }
    }
}

proof fn lemma_live_update(plan: Seq<Seq<Piece>>, i: int, v: Seq<Piece>)
    requires
        0 <= i < plan.len(),
    ensures
        live(plan.update(i, v)) + (if plan[i].len() > 0 {
            1int
        } else {
            0int
        }) == live(plan) + (if v.len() > 0 {
            1int
        } else {
            0int
        }),
    decreases plan.len(),
{
    let u = plan.update(i, v);
    if i == plan.len() - 1 {
        assert(u.drop_last() =~= plan.drop_last());
    } else {
        lemma_live_update(plan.drop_last(), i, v);
        assert(u.drop_last() =~= plan.drop_last().update(i, v));
    }
}

proof fn lemma_holds_concat(a: Seq<Piece>, b: Seq<Piece>, i: usize)
    ensures
        holds(a + b, i) == (holds(a, i) || holds(b, i)),
{
    if holds(a + b, i) {
        let k = choose|k: int| 0 <= k < (a + b).len() && (#[trigger] (a + b)[k]).0 == i;
        if k < a.len() {
            assert(a[k] == (a + b)[k]);
        } else {
            assert(b[k - a.len()] == (a + b)[k]);
        }
    }
    if holds(a, i) {
        let k = choose|k: int| 0 <= k < a.len() && (#[trigger] a[k]).0 == i;
        assert((a + b)[k] == a[k]);
    }
    if holds(b, i) {
        let k = choose|k: int| 0 <= k < b.len() && (#[trigger] b[k]).0 == i;
        assert((a + b)[k + a.len()] == b[k]);
    }
}

proof fn lemma_holds_reversed(b: Seq<Piece>, i: usize)
    ensures
        holds(reversed_pieces(b), i) == holds(b, i),
{
    let r = reversed_pieces(b);
    if holds(r, i) {
        let k = choose|k: int| 0 <= k < r.len() && (#[trigger] r[k]).0 == i;
        assert(b[b.len() - 1 - k].0 == i);
    }
    if holds(b, i) {
        let k = choose|k: int| 0 <= k < b.len() && (#[trigger] b[k]).0 == i;
        assert(r[b.len() - 1 - k].0 == i);
    }
}

proof fn lemma_distinct_reversed(b: Seq<Piece>)
    requires
        distinct_lines(b),
    ensures
        distinct_lines(reversed_pieces(b)),
{
    let r = reversed_pieces(b);
    assert forall|x: int, y: int| 0 <= x < y < r.len() implies (#[trigger] r[x]).0 != (#[trigger] r[y]).0 by {
        assert(r[x].0 == b[b.len() - 1 - x].0);
        assert(r[y].0 == b[b.len() - 1 - y].0);
        assert(b[b.len() - 1 - y].0 != b[b.len() - 1 - x].0);
    }
}

proof fn lemma_distinct_concat(a: Seq<Piece>, b: Seq<Piece>)
    requires
        distinct_lines(a),
        distinct_lines(b),
        forall|i: usize| holds(a, i) ==> !holds(b, i),
    ensures
        distinct_lines(a + b),
{
    let c = a + b;
    assert forall|x: int, y: int| 0 <= x < y < c.len() implies (#[trigger] c[x]).0 != (#[trigger] c[y]).0 by {
        if y < a.len() {
            assert(c[x] == a[x] && c[y] == a[y]);
        } else if x >= a.len() {
            assert(c[x] == b[x - a.len()] && c[y] == b[y - a.len()]);
        } else {
            assert(c[x] == a[x] && c[y] == b[y - a.len()]);
            if c[x].0 == c[y].0 {
                assert(holds(a, c[x].0));
                assert(holds(b, c[x].0));
            }
        }
    }
}

proof fn lemma_chained_concat(h: Seq<EndPoint>, t: Seq<EndPoint>, a: Seq<Piece>, b: Seq<Piece>)
    requires
        chained(h, t, a),
        chained(h, t, b),
        a.len() > 0,
        b.len() > 0,
        piece_end(h, t, a.last()) == piece_start(h, t, b[0]),
    ensures
        chained(h, t, a + b),
        (a + b)[0] == a[0],
        (a + b).last() == b.last(),
{
    let c = a + b;
    assert forall|x: int| 0 <= x < c.len() - 1 implies piece_end(h, t, #[trigger] c[x]) == piece_start(
        h,
        t,
        c[x + 1],
    ) by {
        if x < a.len() - 1 {
            assert(c[x] == a[x] && c[x + 1] == a[x + 1]);
        } else if x == a.len() - 1 {
            assert(c[x] == a.last() && c[x + 1] == b[0]);
        } else {
            assert(c[x] == b[x - a.len()] && c[x + 1] == b[x + 1 - a.len()]);
        }
    }
}

proof fn lemma_chained_reversed(h: Seq<EndPoint>, t: Seq<EndPoint>, b: Seq<Piece>)
    requires
        chained(h, t, b),
        b.len() > 0,
    ensures
        chained(h, t, reversed_pieces(b)),
        piece_start(h, t, reversed_pieces(b)[0]) == piece_end(h, t, b.last()),
        piece_end(h, t, reversed_pieces(b).last()) == piece_start(h, t, b[0]),
{
    let r = reversed_pieces(b);
    assert forall|x: int| 0 <= x < r.len() - 1 implies piece_end(h, t, #[trigger] r[x]) == piece_start(
        h,
        t,
        r[x + 1],
    ) by {
        let j = b.len() - 2 - x;
        assert(r[x] == (b[j + 1].0, !b[j + 1].1));
        assert(r[x + 1] == (b[j].0, !b[j].1));
        assert(piece_end(h, t, b[j]) == piece_start(h, t, b[j + 1]));
    }
}

/// The part of the state of the joining that a plan and the end point maps
/// must keep.
pub open spec fn join_state(
    h0: Seq<EndPoint>,
    t0: Seq<EndPoint>,
    plan: Seq<Seq<Piece>>,
    heads: Seq<EndPoint>,
    tails: Seq<EndPoint>,
) -> bool {
    let n = h0.len();
    &&& t0.len() == n
    &&& is_partition(plan, n)
    &&& heads.len() == n
    &&& tails.len() == n
    &&& forall|l: int| 0 <= l < n ==> chained(h0, t0, #[trigger] plan[l])
    &&& forall|l: int|
        0 <= l < n && #[trigger] plan[l].len() > 0 ==> heads[l] == piece_start(h0, t0, plan[l][0])
            && tails[l] == piece_end(h0, t0, plan[l].last())
    &&& forall|l: int|
        0 <= l < n && #[trigger] plan[l].len() > 0 ==> exists|a: int|
            0 <= a < plan[l].len() && #[trigger] plan[l][a] == (l as usize, false)
}

/// Whether an end point map only names lines by an end they still have (or 0,
/// which names no line).
pub open spec fn map_ok(m: Map<EndPoint, usize>, plan: Seq<Seq<Piece>>, heads: Seq<EndPoint>, tails: Seq<EndPoint>) -> bool {
    forall|k: EndPoint|
        #[trigger] m.contains_key(k) ==> m[k] < plan.len() && (m[k] != 0 && plan[m[k] as int].len() > 0
            ==> k == heads[m[k] as int] || k == tails[m[k] as int])
}

fn points_equal(a: EndPoint, b: EndPoint) -> (r: bool)
    ensures
        r == (a == b),
{
    a.0 == b.0 && a.1 == b.1
}

/// The line that the map names at `key`, if it is another live line than `l`.
fn candidate(m: &FxHashMap<EndPoint, usize>, key: EndPoint, l: usize, plan: &Vec<Vec<Piece>>, Ghost(heads): Ghost<Seq<EndPoint>>, Ghost(tails): Ghost<Seq<EndPoint>>) -> (r: Option<usize>)
    requires
        map_ok(m@, plan_view(plan@), heads, tails),
    ensures
        r matches Some(t) ==> t != 0 && t != l && t < plan@.len() && plan@[t as int]@.len() > 0 && m@.contains_key(key)
            && m@[key] == t,
        r is None ==> !(m@.contains_key(key) && m@[key] != 0 && m@[key] != l && plan@[m@[key] as int]@.len() > 0),
        r == line_candidate(m@, key, l as int, plan_view(plan@)),
{
    let tmp = match point_map_get(m, key) {
        Some(v) => v,
        None => 0,
    };
    if tmp == 0 || tmp == l {
        return None;
    }
    proof {
        assert(m@.contains_key(key));
        assert(plan_view(plan@)[tmp as int] == plan@[tmp as int]@);
    }
    if plan[tmp].len() > 0 {
        Some(tmp)
    } else {
        None
    }
}

fn copy_points(a: &Vec<EndPoint>) -> (r: Vec<EndPoint>)
    ensures
        r@ == a@,
{
    let mut out: Vec<EndPoint> = Vec::new();
    let mut i: usize = 0;
    while i < a.len()
        invariant
            i <= a@.len(),
            out@ == a@.subrange(0, i as int),
        decreases a@.len() - i,
    {
        out.push(a[i]);
        i = i + 1;
        assert(out@ =~= a@.subrange(0, i as int));
    }
    assert(a@.subrange(0, a@.len() as int) =~= a@);
    out
}

fn copy_pieces(a: &Vec<Piece>, out: &mut Vec<Piece>)
    ensures
        final(out)@ == old(out)@ + a@,
{
    let mut i: usize = 0;
    while i < a.len()
        invariant
            i <= a@.len(),
            out@ == old(out)@ + a@.subrange(0, i as int),
        decreases a@.len() - i,
    {
        out.push(a[i]);
        i = i + 1;
        assert(out@ =~= old(out)@ + a@.subrange(0, i as int));
    }
    assert(a@.subrange(0, a@.len() as int) =~= a@);
}

fn copy_pieces_reversed(a: &Vec<Piece>, out: &mut Vec<Piece>)
    ensures
        final(out)@ == old(out)@ + reversed_pieces(a@),
{
    let mut i: usize = a.len();
    while i > 0
        invariant
            i <= a@.len(),
            out@ == old(out)@ + reversed_pieces(a@).subrange(0, a@.len() - i),
        decreases i,
    {
        i = i - 1;
        let p = a[i];
        out.push((p.0, !p.1));
        assert(out@ =~= old(out)@ + reversed_pieces(a@).subrange(0, a@.len() - i));
    }
    assert(reversed_pieces(a@).subrange(0, a@.len() as int) =~= reversed_pieces(a@));
}

proof fn lemma_join_partition(plan: Seq<Seq<Piece>>, n: nat, l: int, tj: int, joined: Seq<Piece>, reverse: bool, append: bool)
    requires
        is_partition(plan, n),
        0 <= l < n,
        0 <= tj < n,
        l != tj,
        joined == (if append {
            plan[l] + (if reverse { reversed_pieces(plan[tj]) } else { plan[tj] })
        } else {
            (if reverse { reversed_pieces(plan[tj]) } else { plan[tj] }) + plan[l]
        }),
    ensures
        is_partition(plan.update(l, joined).update(tj, Seq::empty()), n),
        forall|i: usize| holds(joined, i) == (holds(plan[l], i) || holds(plan[tj], i)),
{
    let b = if reverse { reversed_pieces(plan[tj]) } else { plan[tj] };
    let np = plan.update(l, joined).update(tj, Seq::empty());
    assert forall|i: usize| #[trigger] holds(b, i) == holds(plan[tj], i) by {
        lemma_holds_reversed(plan[tj], i);
    }
    assert forall|i: usize| #[trigger] holds(joined, i) == (holds(plan[l], i) || holds(plan[tj], i)) by {
        if append {
            lemma_holds_concat(plan[l], b, i);
        } else {
            lemma_holds_concat(b, plan[l], i);
        }
    }
    assert(distinct_lines(b)) by {
        if reverse {
            lemma_distinct_reversed(plan[tj]);
        }
    }
    assert(forall|i: usize| holds(plan[l], i) ==> !holds(b, i));
    assert(forall|i: usize| holds(b, i) ==> !holds(plan[l], i));
    assert(distinct_lines(joined)) by {
        if append {
            lemma_distinct_concat(plan[l], b);
        } else {
            lemma_distinct_concat(b, plan[l]);
        }
    }
    assert forall|x: int, a: int| 0 <= x < n && 0 <= a < np[x].len() implies (#[trigger] np[x][a]).0 < n by {
        if x == l {
            assert(holds(joined, np[x][a].0));
            if holds(plan[l], np[x][a].0) {
                let k = choose|k: int| 0 <= k < plan[l].len() && (#[trigger] plan[l][k]).0 == np[x][a].0;
            } else {
                let k = choose|k: int| 0 <= k < plan[tj].len() && (#[trigger] plan[tj][k]).0 == np[x][a].0;
            }
        }
    }
    assert forall|x: int| 0 <= x < n implies distinct_lines(#[trigger] np[x]) by {}
    assert forall|l1: int, l2: int, i: usize|
        0 <= l1 < n && 0 <= l2 < n && l1 != l2 && #[trigger] holds(np[l1], i) implies !#[trigger] holds(
        np[l2],
        i,
    ) by {
        if l1 == tj || l2 == tj {
        } else if l1 == l {
            assert(holds(plan[l], i) || holds(plan[tj], i));
        } else if l2 == l {
            if holds(np[l2], i) {
                assert(holds(plan[l], i) || holds(plan[tj], i));
            }
        }
    }
    assert forall|i: usize| i < n implies #[trigger] used(np, i) by {
        assert(used(plan, i));
        let x = choose|x: int| 0 <= x < n && #[trigger] holds(plan[x], i);
        if x == l || x == tj {
            assert(holds(np[l], i));
        } else {
            assert(holds(np[x], i));
        }
    }
}

/// The pieces of line `l` after line `tj` is joined to it: appended to its
/// tail or prepended to its head, reversed or not.
pub open spec fn joined_pieces(pv: Seq<Seq<Piece>>, l: int, tj: int, append: bool, reverse: bool) -> Seq<Piece> {
    let b = if reverse {
        reversed_pieces(pv[tj])
    } else {
        pv[tj]
    };
    if append {
        pv[l] + b
    } else {
        b + pv[l]
    }
}

/// The end points of line `l` after the join, as (head, tail).
pub open spec fn joined_ends(heads: Seq<EndPoint>, tails: Seq<EndPoint>, l: int, tj: int, append: bool, reverse: bool) -> (
    EndPoint,
    EndPoint,
) {
    if append {
        (heads[l], if reverse { heads[tj] } else { tails[tj] })
    } else {
        (if reverse { tails[tj] } else { heads[tj] }, tails[l])
    }
}

/// Whether lines `l` and `tj` meet where the join puts them together.
pub open spec fn joint_meets(heads: Seq<EndPoint>, tails: Seq<EndPoint>, l: int, tj: int, append: bool, reverse: bool) -> bool {
    if append {
        tails[l] == (if reverse { tails[tj] } else { heads[tj] })
    } else {
        heads[l] == (if reverse { heads[tj] } else { tails[tj] })
    }
}

proof fn lemma_join_state(
    h0: Seq<EndPoint>,
    t0: Seq<EndPoint>,
    pv: Seq<Seq<Piece>>,
    heads: Seq<EndPoint>,
    tails: Seq<EndPoint>,
    l: int,
    tj: int,
    append: bool,
    reverse: bool,
)
    requires
        join_state(h0, t0, pv, heads, tails),
        0 <= l < h0.len(),
        0 <= tj < h0.len(),
        l != tj,
        pv[l].len() > 0,
        pv[tj].len() > 0,
        joint_meets(heads, tails, l, tj, append, reverse),
    ensures
        join_state(
            h0,
            t0,
            pv.update(l, joined_pieces(pv, l, tj, append, reverse)).update(tj, Seq::empty()),
            heads.update(l, joined_ends(heads, tails, l, tj, append, reverse).0),
            tails.update(l, joined_ends(heads, tails, l, tj, append, reverse).1),
        ),
        live(pv.update(l, joined_pieces(pv, l, tj, append, reverse)).update(tj, Seq::empty())) < live(pv),
{
    let n = h0.len();
    let joined = joined_pieces(pv, l, tj, append, reverse);
    let np = pv.update(l, joined).update(tj, Seq::empty());
    let nh = heads.update(l, joined_ends(heads, tails, l, tj, append, reverse).0);
    let nt = tails.update(l, joined_ends(heads, tails, l, tj, append, reverse).1);
    let a = pv[l];
    let b = pv[tj];
    lemma_join_partition(pv, n as nat, l, tj, joined, reverse, append);
    if reverse {
        lemma_chained_reversed(h0, t0, b);
    }
    let bb = if reverse { reversed_pieces(b) } else { b };
    assert(heads[l] == piece_start(h0, t0, a[0]) && tails[l] == piece_end(h0, t0, a.last()));
    assert(heads[tj] == piece_start(h0, t0, b[0]) && tails[tj] == piece_end(h0, t0, b.last()));
    if append {
        lemma_chained_concat(h0, t0, a, bb);
    } else {
        lemma_chained_concat(h0, t0, bb, a);
    }
    assert forall|x: int| 0 <= x < n implies chained(h0, t0, #[trigger] np[x]) by {}
    assert forall|x: int| 0 <= x < n && #[trigger] np[x].len() > 0 implies nh[x] == piece_start(
        h0,
        t0,
        np[x][0],
    ) && nt[x] == piece_end(h0, t0, np[x].last()) by {}
    assert forall|x: int| 0 <= x < n && #[trigger] np[x].len() > 0 implies exists|k: int|
        0 <= k < np[x].len() && #[trigger] np[x][k] == (x as usize, false) by {
        if x == l {
            let k = choose|k: int| 0 <= k < a.len() && #[trigger] a[k] == (x as usize, false);
            if append {
                assert(np[x][k] == a[k]);
            } else {
                assert(np[x][k + bb.len()] == a[k]);
            }
        }
    }
    lemma_live_update(pv, l, joined);
    lemma_live_update(pv.update(l, joined), tj, Seq::empty());
}

proof fn lemma_join_map(
    m: Map<EndPoint, usize>,
    pv: Seq<Seq<Piece>>,
    heads: Seq<EndPoint>,
    tails: Seq<EndPoint>,
    np: Seq<Seq<Piece>>,
    nh: Seq<EndPoint>,
    nt: Seq<EndPoint>,
    l: int,
    tj: int,
    joint: EndPoint,
)
    requires
        map_ok(m, pv, heads, tails),
        np.len() == pv.len(),
        0 <= l < pv.len(),
        0 <= tj < pv.len(),
        np[tj].len() == 0,
        pv[l].len() > 0,
        forall|x: int| 0 <= x < pv.len() && x != l && x != tj ==> #[trigger] np[x] == pv[x],
        forall|x: int| 0 <= x < pv.len() && x != l ==> #[trigger] nh[x] == heads[x] && nt[x] == tails[x],
        (joint == tails[l] && nh[l] == heads[l]) || (joint == heads[l] && nt[l] == tails[l]),
    ensures
        map_ok(m.insert(joint, 0), np, nh, nt),
{
    let m2 = m.insert(joint, 0);
    assert forall|k: EndPoint| #[trigger] m2.contains_key(k) implies m2[k] < np.len() && (m2[k] != 0
        && np[m2[k] as int].len() > 0 ==> k == nh[m2[k] as int] || k == nt[m2[k] as int]) by {
        if k != joint {
            assert(m.contains_key(k));
            let v = m[k] as int;
            if v != 0 && np[v].len() > 0 {
                assert(v != tj);
                if v != l {
                    assert(np[v] == pv[v]);
                }
                assert(k == heads[v] || k == tails[v]);
            }
        }
    }
}

/// Joins live line `tj` into live line `l`, at an end where they meet.
fn join_into(
    plan: &mut Vec<Vec<Piece>>,
    heads_now: &mut Vec<EndPoint>,
    tails_now: &mut Vec<EndPoint>,
    first: &mut FxHashMap<EndPoint, usize>,
    second: &mut FxHashMap<EndPoint, usize>,
    l: usize,
    tj: usize,
    Ghost(h0): Ghost<Seq<EndPoint>>,
    Ghost(t0): Ghost<Seq<EndPoint>>,
)
    requires
        join_state(h0, t0, plan_view(old(plan)@), old(heads_now)@, old(tails_now)@),
        map_ok(old(first)@, plan_view(old(plan)@), old(heads_now)@, old(tails_now)@),
        map_ok(old(second)@, plan_view(old(plan)@), old(heads_now)@, old(tails_now)@),
        l < h0.len(),
        tj < h0.len(),
        l != tj,
        old(plan)@[l as int]@.len() > 0,
        old(plan)@[tj as int]@.len() > 0,
        old(heads_now)@[l as int] == old(heads_now)@[tj as int] || old(heads_now)@[l as int] == old(tails_now)@[tj as int]
            || old(tails_now)@[l as int] == old(heads_now)@[tj as int] || old(tails_now)@[l as int] == old(tails_now)@[tj as int],
    ensures
        join_state(h0, t0, plan_view(final(plan)@), final(heads_now)@, final(tails_now)@),
        map_ok(final(first)@, plan_view(final(plan)@), final(heads_now)@, final(tails_now)@),
        map_ok(final(second)@, plan_view(final(plan)@), final(heads_now)@, final(tails_now)@),
        final(plan)@[l as int]@.len() > 0,
        live(plan_view(final(plan)@)) < live(plan_view(old(plan)@)),
        (plan_view(final(plan)@), final(heads_now)@, final(tails_now)@, final(first)@, final(second)@)
            == join_step(
            (plan_view(old(plan)@), old(heads_now)@, old(tails_now)@, old(first)@, old(second)@),
            l as int,
            tj as int,
        ),
{
    let ghost pv = plan_view(plan@);
    let ghost old_heads = heads_now@;
    let ghost old_tails = tails_now@;
    let hl = heads_now[l];
    let tl = tails_now[l];
    let htj = heads_now[tj];
    let ttj = tails_now[tj];
    proof {
        assert(pv[tj as int] == plan@[tj as int]@);
        assert(pv[l as int] == plan@[l as int]@);
    }
    let append: bool;
    let reverse: bool;
    let joint: EndPoint;
    if points_equal(tl, htj) {
        append = true;
        reverse = false;
        joint = tl;
    } else if points_equal(tl, ttj) {
        append = true;
        reverse = true;
        joint = tl;
    } else if points_equal(hl, ttj) {
        append = false;
        reverse = false;
        joint = hl;
    } else {
        append = false;
        reverse = true;
        joint = hl;
    }
    let mut joined: Vec<Piece> = Vec::new();
    if append {
        copy_pieces(&plan[l], &mut joined);
        if reverse {
            copy_pieces_reversed(&plan[tj], &mut joined);
        } else {
            copy_pieces(&plan[tj], &mut joined);
        }
    } else {
        if reverse {
            copy_pieces_reversed(&plan[tj], &mut joined);
        } else {
            copy_pieces(&plan[tj], &mut joined);
        }
        copy_pieces(&plan[l], &mut joined);
    }
    assert(joined@ =~= joined_pieces(pv, l as int, tj as int, append, reverse));
    point_map_insert(second, joint, 0);
    point_map_insert(first, joint, 0);
    if append {
        let new_tail = if reverse { htj } else { ttj };
        tails_now.set(l, new_tail);
    } else {
        let new_head = if reverse { ttj } else { htj };
        heads_now.set(l, new_head);
    }
    plan.set(l, joined);
    plan.set(tj, Vec::new());
    proof {
        let np = plan_view(plan@);
        assert(np =~= pv.update(l as int, joined@).update(tj as int, Seq::empty()));
        assert(heads_now@ =~= old_heads.update(l as int, joined_ends(old_heads, old_tails, l as int, tj as int, append, reverse).0));
        assert(tails_now@ =~= old_tails.update(l as int, joined_ends(old_heads, old_tails, l as int, tj as int, append, reverse).1));
        lemma_join_state(h0, t0, pv, old_heads, old_tails, l as int, tj as int, append, reverse);
        assert forall|x: int| 0 <= x < pv.len() && x != l && x != tj implies #[trigger] np[x] == pv[x] by {}
        lemma_join_map(old(first)@, pv, old_heads, old_tails, np, heads_now@, tails_now@, l as int, tj as int, joint);
        lemma_join_map(old(second)@, pv, old_heads, old_tails, np, heads_now@, tails_now@, l as int, tj as int, joint);
        assert(np[l as int] == plan@[l as int]@);
        let st = join_step((pv, old_heads, old_tails, old(first)@, old(second)@), l as int, tj as int);
        assert(np =~= st.0);
        assert(heads_now@ =~= st.1);
        assert(tails_now@ =~= st.2);
        assert(first@ =~= st.3);
        assert(second@ =~= st.4);
    }
}

/// The state of the joining: the plan, the current head and tail of each line,
/// and the primary and secondary maps from end points to lines.
pub type JoinSpecState = (
    Seq<Seq<Piece>>,
    Seq<EndPoint>,
    Seq<EndPoint>,
    Map<EndPoint, usize>,
    Map<EndPoint, usize>,
);

/// The line that a map gives at `key`, 0 (no line) where it has none.
pub open spec fn line_at(m: Map<EndPoint, usize>, key: EndPoint) -> usize {
    if m.contains_key(key) {
        m[key]
    } else {
        0
    }
}

/// Indexes line `j` at `key`: in the primary map when that has no line there,
/// else in the secondary map.
pub open spec fn index_key(maps: (Map<EndPoint, usize>, Map<EndPoint, usize>), key: EndPoint, j: usize) -> (
    Map<EndPoint, usize>,
    Map<EndPoint, usize>,
) {
    if line_at(maps.0, key) == 0 {
        (maps.0.insert(key, j), maps.1)
    } else {
        (maps.0, maps.1.insert(key, j))
    }
}

/// The two maps after the head and then the tail of each of the first `j`
/// lines have been indexed, in order.
pub open spec fn index_ends(heads: Seq<EndPoint>, tails: Seq<EndPoint>, j: int) -> (
    Map<EndPoint, usize>,
    Map<EndPoint, usize>,
)
    decreases j,
{
    if j <= 0 {
        (Map::empty(), Map::empty())
    } else {
        let maps = index_ends(heads, tails, j - 1);
        index_key(index_key(maps, heads[j - 1], (j - 1) as usize), tails[j - 1], (j - 1) as usize)
    }
}

/// The line that map `m` names at `key`, if it is another live line than `l`.
pub open spec fn line_candidate(m: Map<EndPoint, usize>, key: EndPoint, l: int, plan: Seq<Seq<Piece>>) -> Option<usize> {
    let t = line_at(m, key);
    if t == 0 || t == l {
        None
    } else if plan[t as int].len() > 0 {
        Some(t)
    } else {
        None
    }
}

/// The line to join into line `l` next, searched for in this order: the
/// primary map at its head, the secondary map at its head, the secondary map
/// at its tail, the primary map at its tail.
pub open spec fn line_to_join(s: JoinSpecState, l: int) -> Option<usize> {
    let (plan, heads, tails, first, second) = s;
    match line_candidate(first, heads[l], l, plan) {
        Some(t) => Some(t),
        None => match line_candidate(second, heads[l], l, plan) {
            Some(t) => Some(t),
            None => match line_candidate(second, tails[l], l, plan) {
                Some(t) => Some(t),
                None => line_candidate(first, tails[l], l, plan),
            },
        },
    }
}

/// Line `tj` joined into line `l`: appended to its tail when the tail meets
/// the head of `tj` (or, reversed, its tail), else prepended to its head
/// (reversed when the heads meet); the joint is unindexed in both maps.
pub open spec fn join_step(s: JoinSpecState, l: int, tj: int) -> JoinSpecState {
    let (plan, heads, tails, first, second) = s;
    let append = tails[l] == heads[tj] || tails[l] == tails[tj];
    let reverse = if append {
        tails[l] != heads[tj]
    } else {
        heads[l] != tails[tj]
    };
    let joint = if append {
        tails[l]
    } else {
        heads[l]
    };
    let ends = joined_ends(heads, tails, l, tj, append, reverse);
    (
        plan.update(l, joined_pieces(plan, l, tj, append, reverse)).update(tj, Seq::empty()),
        heads.update(l, ends.0),
        tails.update(l, ends.1),
        first.insert(joint, 0),
        second.insert(joint, 0),
    )
}

/// Line `l` extended as long as a line to join into it is found. (Each join
/// takes one line out of the plan, so the guard on the number of live lines
/// always holds on the states that the joining reaches.)
pub open spec fn extend_line(s: JoinSpecState, l: int) -> JoinSpecState
    decreases live(s.0),
{
    match line_to_join(s, l) {
        None => s,
        Some(tj) => {
            let s2 = join_step(s, l, tj as int);
            if live(s2.0) < live(s.0) {
                extend_line(s2, l)
            } else {
                s
            }
        },
    }
}

/// The joining state is consistent: the plan and the current ends agree, and
/// both maps name lines only by their current ends.
pub open spec fn join_ok(h0: Seq<EndPoint>, t0: Seq<EndPoint>, s: JoinSpecState) -> bool {
    &&& join_state(h0, t0, s.0, s.1, s.2)
    &&& map_ok(s.3, s.0, s.1, s.2)
    &&& map_ok(s.4, s.0, s.1, s.2)
}

proof fn lemma_candidate_meets(
    m: Map<EndPoint, usize>,
    key: EndPoint,
    l: int,
    plan: Seq<Seq<Piece>>,
    heads: Seq<EndPoint>,
    tails: Seq<EndPoint>,
    t: usize,
)
    requires
        map_ok(m, plan, heads, tails),
        line_candidate(m, key, l, plan) == Some(t),
    ensures
        t != 0,
        t != l,
        t < plan.len(),
        plan[t as int].len() > 0,
        key == heads[t as int] || key == tails[t as int],
{
    assert(m.contains_key(key));
}

proof fn lemma_join_step_keeps(h0: Seq<EndPoint>, t0: Seq<EndPoint>, s: JoinSpecState, l: int, tj: usize)
    requires
        join_ok(h0, t0, s),
        0 <= l < h0.len(),
        s.0[l].len() > 0,
        line_to_join(s, l) == Some(tj),
    ensures
        join_ok(h0, t0, join_step(s, l, tj as int)),
        live(join_step(s, l, tj as int).0) < live(s.0),
        join_step(s, l, tj as int).0[l].len() > 0,
{
    let (plan, heads, tails, first, second) = s;
    let t = tj as int;
    if line_candidate(first, heads[l], l, plan) == Some(tj) {
        lemma_candidate_meets(first, heads[l], l, plan, heads, tails, tj);
    } else if line_candidate(second, heads[l], l, plan) == Some(tj) {
        lemma_candidate_meets(second, heads[l], l, plan, heads, tails, tj);
    } else if line_candidate(second, tails[l], l, plan) == Some(tj) {
        lemma_candidate_meets(second, tails[l], l, plan, heads, tails, tj);
    } else {
        lemma_candidate_meets(first, tails[l], l, plan, heads, tails, tj);
    }
    let append = tails[l] == heads[t] || tails[l] == tails[t];
    let reverse = if append {
        tails[l] != heads[t]
    } else {
        heads[l] != tails[t]
    };
    let joint = if append {
        tails[l]
    } else {
        heads[l]
    };
    assert(joint_meets(heads, tails, l, t, append, reverse));
    lemma_join_state(h0, t0, plan, heads, tails, l, t, append, reverse);
    let s2 = join_step(s, l, t);
    let np = s2.0;
    let nh = s2.1;
    let nt = s2.2;
    assert(np.len() == plan.len());
    assert forall|x: int| 0 <= x < plan.len() && x != l && x != t implies #[trigger] np[x] == plan[x] by {}
    assert forall|x: int| 0 <= x < plan.len() && x != l implies #[trigger] nh[x] == heads[x] && nt[x] == tails[x] by {}
    lemma_join_map(first, plan, heads, tails, np, nh, nt, l, t, joint);
    lemma_join_map(second, plan, heads, tails, np, nh, nt, l, t, joint);
}

/// A line is extended as long as there is a line to join into it: once its
/// extension ends, no other live line is indexed at its head or its tail.
pub proof fn lemma_extend_line_maximal(h0: Seq<EndPoint>, t0: Seq<EndPoint>, s: JoinSpecState, l: int)
    requires
        join_ok(h0, t0, s),
        0 <= l < h0.len(),
        s.0[l].len() > 0,
    ensures
        line_to_join(extend_line(s, l), l) is None,
        join_ok(h0, t0, extend_line(s, l)),
        extend_line(s, l).0[l].len() > 0,
    decreases live(s.0),
{
    match line_to_join(s, l) {
        None => {},
        Some(tj) => {
            lemma_join_step_keeps(h0, t0, s, l, tj);
            lemma_extend_line_maximal(h0, t0, join_step(s, l, tj as int), l);
        },
    }
}

/// Each live line from the `l`-th to the last of `n`, in order, extended in turn.
pub open spec fn extend_lines_from(s: JoinSpecState, l: int, n: int) -> JoinSpecState
    decreases n - l,
{
    if l < 0 || l >= n {
        s
    } else if s.0[l].len() > 0 {
        extend_lines_from(extend_line(s, l), l + 1, n)
    } else {
        extend_lines_from(s, l + 1, n)
    }
}

/// The plan that the greedy joining of lines with these end points gives:
/// every line starts as itself, the ends are indexed, and then each live line
/// in turn is extended.
pub open spec fn greedy_join(heads: Seq<EndPoint>, tails: Seq<EndPoint>) -> Seq<Seq<Piece>> {
    greedy_join_state(heads, tails).0
}

/// The state in which the joining starts: every line is itself, and the ends
/// are indexed.
pub open spec fn join_start(heads: Seq<EndPoint>, tails: Seq<EndPoint>) -> JoinSpecState {
    let n = heads.len();
    let maps = index_ends(heads, tails, n as int);
    (Seq::new(n, |l: int| seq![(l as usize, false)]), heads, tails, maps.0, maps.1)
}

/// The state in which the greedy joining ends.
pub open spec fn greedy_join_state(heads: Seq<EndPoint>, tails: Seq<EndPoint>) -> JoinSpecState {
    extend_lines_from(join_start(heads, tails), 0, heads.len() as int)
}

/// Whether line `l` is done: it was joined into another line, or no other
/// live line is indexed at its head or its tail.
pub open spec fn line_done(s: JoinSpecState, l: int) -> bool {
    s.0[l].len() > 0 ==> line_to_join(s, l) is None
}

proof fn lemma_candidate_stays_none(
    m: Map<EndPoint, usize>,
    key: EndPoint,
    l: int,
    plan: Seq<Seq<Piece>>,
    heads: Seq<EndPoint>,
    tails: Seq<EndPoint>,
    np: Seq<Seq<Piece>>,
    joint: EndPoint,
    lj: int,
    tj: int,
)
    requires
        map_ok(m, plan, heads, tails),
        line_candidate(m, key, l, plan) is None,
        np.len() == plan.len(),
        0 <= lj < plan.len(),
        0 <= tj < plan.len(),
        plan[lj].len() > 0,
        np[tj].len() == 0,
        forall|x: int| 0 <= x < plan.len() && x != lj && x != tj ==> #[trigger] np[x] == plan[x],
    ensures
        line_candidate(m.insert(joint, 0), key, l, np) is None,
{
    if key != joint && m.contains_key(key) {
        assert(m[key] < plan.len());
    }
}

proof fn lemma_step_keeps_done(h0: Seq<EndPoint>, t0: Seq<EndPoint>, s: JoinSpecState, lj: int, tj: usize, l: int)
    requires
        join_ok(h0, t0, s),
        0 <= lj < h0.len(),
        0 <= l < h0.len(),
        l != lj,
        s.0[lj].len() > 0,
        line_to_join(s, lj) == Some(tj),
        line_done(s, l),
    ensures
        line_done(join_step(s, lj, tj as int), l),
{
    lemma_join_step_keeps(h0, t0, s, lj, tj);
    let (plan, heads, tails, first, second) = s;
    let s2 = join_step(s, lj, tj as int);
    if s2.0[l].len() > 0 {
        let t = tj as int;
        if line_candidate(first, heads[lj], lj, plan) == Some(tj) {
            lemma_candidate_meets(first, heads[lj], lj, plan, heads, tails, tj);
        } else if line_candidate(second, heads[lj], lj, plan) == Some(tj) {
            lemma_candidate_meets(second, heads[lj], lj, plan, heads, tails, tj);
        } else if line_candidate(second, tails[lj], lj, plan) == Some(tj) {
            lemma_candidate_meets(second, tails[lj], lj, plan, heads, tails, tj);
        } else {
            lemma_candidate_meets(first, tails[lj], lj, plan, heads, tails, tj);
        }
        assert(l != t);
        assert(plan[l].len() > 0);
        let append = tails[lj] == heads[t] || tails[lj] == tails[t];
        let joint = if append {
            tails[lj]
        } else {
            heads[lj]
        };
        assert(s2.3 == first.insert(joint, 0));
        assert(s2.4 == second.insert(joint, 0));
        assert(s2.1[l] == heads[l]);
        assert(s2.2[l] == tails[l]);
        assert(plan.len() == h0.len());
        assert forall|x: int| 0 <= x < plan.len() && x != lj && x != t implies #[trigger] s2.0[x] == plan[x] by {}
        lemma_candidate_stays_none(first, heads[l], l, plan, heads, tails, s2.0, joint, lj, t);
        lemma_candidate_stays_none(second, heads[l], l, plan, heads, tails, s2.0, joint, lj, t);
        lemma_candidate_stays_none(second, tails[l], l, plan, heads, tails, s2.0, joint, lj, t);
        lemma_candidate_stays_none(first, tails[l], l, plan, heads, tails, s2.0, joint, lj, t);
    }
}

proof fn lemma_extend_keeps_done(h0: Seq<EndPoint>, t0: Seq<EndPoint>, s: JoinSpecState, lj: int, l: int)
    requires
        join_ok(h0, t0, s),
        0 <= lj < h0.len(),
        0 <= l < h0.len(),
        l != lj,
        s.0[lj].len() > 0,
        line_done(s, l),
    ensures
        line_done(extend_line(s, lj), l),
    decreases live(s.0),
{
    match line_to_join(s, lj) {
        None => {},
        Some(tj) => {
            lemma_join_step_keeps(h0, t0, s, lj, tj);
            lemma_step_keeps_done(h0, t0, s, lj, tj, l);
            lemma_extend_keeps_done(h0, t0, join_step(s, lj, tj as int), lj, l);
        },
    }
}

proof fn lemma_extend_lines_from_done(h0: Seq<EndPoint>, t0: Seq<EndPoint>, s: JoinSpecState, l: int)
    requires
        join_ok(h0, t0, s),
        0 <= l <= h0.len(),
        forall|j: int| 0 <= j < l ==> line_done(s, j),
    ensures
        join_ok(h0, t0, extend_lines_from(s, l, h0.len() as int)),
        forall|j: int| 0 <= j < h0.len() ==> line_done(extend_lines_from(s, l, h0.len() as int), j),
    decreases h0.len() - l,
{
    let n = h0.len() as int;
    if l < n {
        if s.0[l].len() > 0 {
            let s2 = extend_line(s, l);
            lemma_extend_line_maximal(h0, t0, s, l);
            assert forall|j: int| 0 <= j < l + 1 implies line_done(s2, j) by {
                if j < l {
                    lemma_extend_keeps_done(h0, t0, s, l, j);
                }
            }
            lemma_extend_lines_from_done(h0, t0, s2, l + 1);
        } else {
            lemma_extend_lines_from_done(h0, t0, s, l + 1);
        }
    }
}

proof fn lemma_index_key_ok(
    maps: (Map<EndPoint, usize>, Map<EndPoint, usize>),
    key: EndPoint,
    v: usize,
    plan: Seq<Seq<Piece>>,
    heads: Seq<EndPoint>,
    tails: Seq<EndPoint>,
)
    requires
        map_ok(maps.0, plan, heads, tails),
        map_ok(maps.1, plan, heads, tails),
        v < plan.len(),
        key == heads[v as int] || key == tails[v as int],
        forall|k: EndPoint| #[trigger] maps.0.contains_key(k) ==> maps.0[k] <= v,
        forall|k: EndPoint| #[trigger] maps.1.contains_key(k) ==> maps.1[k] <= v,
    ensures
        map_ok(index_key(maps, key, v).0, plan, heads, tails),
        map_ok(index_key(maps, key, v).1, plan, heads, tails),
        forall|k: EndPoint| #[trigger] index_key(maps, key, v).0.contains_key(k) ==> index_key(maps, key, v).0[k] <= v,
        forall|k: EndPoint| #[trigger] index_key(maps, key, v).1.contains_key(k) ==> index_key(maps, key, v).1[k] <= v,
{
    let r = index_key(maps, key, v);
    assert forall|k: EndPoint| #[trigger] r.0.contains_key(k) implies r.0[k] < plan.len() && (r.0[k] != 0
        && plan[r.0[k] as int].len() > 0 ==> k == heads[r.0[k] as int] || k == tails[r.0[k] as int]) by {
        if k != key {
            assert(maps.0.contains_key(k));
        }
    }
    assert forall|k: EndPoint| #[trigger] r.1.contains_key(k) implies r.1[k] < plan.len() && (r.1[k] != 0
        && plan[r.1[k] as int].len() > 0 ==> k == heads[r.1[k] as int] || k == tails[r.1[k] as int]) by {
        if k != key {
            assert(maps.1.contains_key(k));
        }
    }
}

proof fn lemma_index_ends_ok(heads: Seq<EndPoint>, tails: Seq<EndPoint>, j: int, plan: Seq<Seq<Piece>>)
    requires
        heads.len() == tails.len(),
        heads.len() <= usize::MAX,
        plan.len() == heads.len(),
        0 <= j <= heads.len(),
    ensures
        map_ok(index_ends(heads, tails, j).0, plan, heads, tails),
        map_ok(index_ends(heads, tails, j).1, plan, heads, tails),
        forall|k: EndPoint| #[trigger] index_ends(heads, tails, j).0.contains_key(k) ==> index_ends(heads, tails, j).0[k] < j,
        forall|k: EndPoint| #[trigger] index_ends(heads, tails, j).1.contains_key(k) ==> index_ends(heads, tails, j).1[k] < j,
    decreases j,
{
    if j > 0 {
        lemma_index_ends_ok(heads, tails, j - 1, plan);
        let maps = index_ends(heads, tails, j - 1);
        let v = (j - 1) as usize;
        lemma_index_key_ok(maps, heads[j - 1], v, plan, heads, tails);
        let m1 = index_key(maps, heads[j - 1], v);
        lemma_index_key_ok(m1, tails[j - 1], v, plan, heads, tails);
    } else {
        assert(index_ends(heads, tails, j).0 =~= Map::empty());
        assert(index_ends(heads, tails, j).1 =~= Map::empty());
    }
}

proof fn lemma_join_start_ok(heads: Seq<EndPoint>, tails: Seq<EndPoint>)
    requires
        heads.len() == tails.len(),
        heads.len() <= usize::MAX,
    ensures
        join_ok(heads, tails, join_start(heads, tails)),
{
    let n = heads.len();
    let s = join_start(heads, tails);
    let pv = s.0;
    lemma_index_ends_ok(heads, tails, n as int, pv);
    assert forall|l: int| 0 <= l < n implies #[trigger] pv[l] == seq![(l as usize, false)] by {}
    assert forall|i: usize| i < n implies #[trigger] used(pv, i) by {
        assert(pv[i as int][0].0 == i);
        assert(holds(pv[i as int], i));
    }
    assert forall|l1: int, l2: int, i: usize|
        0 <= l1 < n && 0 <= l2 < n && l1 != l2 && #[trigger] holds(pv[l1], i) implies !#[trigger] holds(
        pv[l2],
        i,
    ) by {
        let k = choose|k: int| 0 <= k < pv[l1].len() && (#[trigger] pv[l1][k]).0 == i;
        if holds(pv[l2], i) {
            let k2 = choose|k2: int| 0 <= k2 < pv[l2].len() && (#[trigger] pv[l2][k2]).0 == i;
        }
    }
    assert forall|l: int| 0 <= l < n && #[trigger] pv[l].len() > 0 implies exists|a: int|
        0 <= a < pv[l].len() && #[trigger] pv[l][a] == (l as usize, false) by {
        assert(pv[l][0] == (l as usize, false));
    }
}

/// When the greedy joining ends, every line that was not joined into another
/// one is complete: no other live line is indexed at its head or its tail.
pub proof fn lemma_greedy_join_complete(heads: Seq<EndPoint>, tails: Seq<EndPoint>)
    requires
        heads.len() == tails.len(),
        heads.len() <= usize::MAX,
    ensures
        forall|l: int|
            0 <= l < heads.len() && (#[trigger] greedy_join_state(heads, tails).0[l]).len() > 0
                ==> line_to_join(greedy_join_state(heads, tails), l) is None,
{
    lemma_join_start_ok(heads, tails);
    lemma_extend_lines_from_done(heads, tails, join_start(heads, tails), 0);
    assert forall|l: int|
        0 <= l < heads.len() && (#[trigger] greedy_join_state(heads, tails).0[l]).len() > 0 implies line_to_join(
        greedy_join_state(heads, tails),
        l,
    ) is None by {
        assert(line_done(greedy_join_state(heads, tails), l));
    }
}

/// Plans the joining of `n` lines with the given end point keys. First the
/// ends are indexed: the first line found at a key is kept in a primary map,
/// later ones in a secondary map (index 0 counts as "none", so line 0 is never
/// joined into another line). Then each live line in turn is extended, as long
/// as a live other line indexed at one of its ends is found (primary map at its
/// head, secondary at its head, secondary at its tail, primary at its tail):
/// that line is appended to its tail or prepended to its head, reversed when
/// needed, and the joint is removed from both maps.
///
/// The result is the plan of `greedy_join`: for every line, the input lines
/// that it is made of. Every input line is used exactly once, consecutive
/// pieces meet at their keys, and a line that was not joined into another one
/// contains itself, unreversed.
pub fn join_plan(heads: &Vec<EndPoint>, tails: &Vec<EndPoint>) -> (r: Vec<Vec<Piece>>)
    requires
        heads@.len() == tails@.len(),
    ensures
        is_partition(plan_view(r@), heads@.len()),
        forall|l: int| 0 <= l < r@.len() ==> chained(heads@, tails@, #[trigger] r@[l]@),
        forall|l: int|
            0 <= l < r@.len() && #[trigger] r@[l]@.len() > 0 ==> exists|a: int|
                0 <= a < r@[l]@.len() && #[trigger] r@[l]@[a] == (l as usize, false),
        plan_view(r@) == greedy_join(heads@, tails@),
{
    let n = heads.len();
    let ghost h0 = heads@;
    let ghost t0 = tails@;
    let mut plan: Vec<Vec<Piece>> = Vec::new();
    let mut j: usize = 0;
    while j < n
        invariant
            n == h0.len(),
            j <= n,
            plan@.len() == j,
            forall|l: int| 0 <= l < j ==> (#[trigger] plan@[l])@ == seq![(l as usize, false)],
        decreases n - j,
    {
        plan.push(vec![(j, false)]);
        j = j + 1;
    }
    proof {
        let pv = plan_view(plan@);
        assert forall|l: int| 0 <= l < n implies #[trigger] pv[l] == seq![(l as usize, false)] by {}
        assert forall|i: usize| i < n implies #[trigger] used(pv, i) by {
            assert(pv[i as int][0].0 == i);
            assert(holds(pv[i as int], i));
        }
        assert forall|l1: int, l2: int, i: usize|
            0 <= l1 < n && 0 <= l2 < n && l1 != l2 && #[trigger] holds(pv[l1], i) implies !#[trigger] holds(
            pv[l2],
            i,
        ) by {
            let k = choose|k: int| 0 <= k < pv[l1].len() && (#[trigger] pv[l1][k]).0 == i;
            if holds(pv[l2], i) {
                let k2 = choose|k2: int| 0 <= k2 < pv[l2].len() && (#[trigger] pv[l2][k2]).0 == i;
            }
        }
        assert forall|l: int| 0 <= l < n && #[trigger] pv[l].len() > 0 implies exists|a: int|
            0 <= a < pv[l].len() && #[trigger] pv[l][a] == (l as usize, false) by {
            assert(pv[l][0] == (l as usize, false));
        }
    }
    let mut heads_now: Vec<EndPoint> = copy_points(heads);
    let mut tails_now: Vec<EndPoint> = copy_points(tails);
    let mut first: FxHashMap<EndPoint, usize> = point_map_new();
    let mut second: FxHashMap<EndPoint, usize> = point_map_new();
    assert(first@ =~= Map::empty());
    assert(second@ =~= Map::empty());
    let mut j: usize = 0;
    while j < n
        invariant
            n == h0.len(),
            n == t0.len(),
            heads@ == h0,
            tails@ == t0,
            j <= n,
            join_state(h0, t0, plan_view(plan@), heads_now@, tails_now@),
            heads_now@ == h0,
            tails_now@ == t0,
            forall|l: int| 0 <= l < n ==> (#[trigger] plan@[l])@ == seq![(l as usize, false)],
            map_ok(first@, plan_view(plan@), heads_now@, tails_now@),
            map_ok(second@, plan_view(plan@), heads_now@, tails_now@),
            forall|k: EndPoint| #[trigger] first@.contains_key(k) ==> first@[k] < j,
            forall|k: EndPoint| #[trigger] second@.contains_key(k) ==> second@[k] < j,
            (first@, second@) == index_ends(h0, t0, j as int),
        decreases n - j,
    {
        let head = heads[j];
        let tail = tails[j];
        let cur = match point_map_get(&first, head) {
            Some(v) => v,
            None => 0,
        };
        if cur == 0 {
            point_map_insert(&mut first, head, j);
        } else {
            point_map_insert(&mut second, head, j);
        }
        let cur = match point_map_get(&first, tail) {
            Some(v) => v,
            None => 0,
        };
        if cur == 0 {
            point_map_insert(&mut first, tail, j);
        } else {
            point_map_insert(&mut second, tail, j);
        }
        j = j + 1;
    }
    let ghost start: JoinSpecState = (plan_view(plan@), heads_now@, tails_now@, first@, second@);
    proof {
        let maps = index_ends(h0, t0, n as int);
        assert(plan_view(plan@) =~= Seq::new(n as nat, |l: int| seq![(l as usize, false)]));
        assert(start == (Seq::new(n as nat, |l: int| seq![(l as usize, false)]), h0, t0, maps.0, maps.1));
    }
    let ghost goal = extend_lines_from(start, 0, n as int);
    let mut l: usize = 0;
    while l < n
        invariant
            n == h0.len(),
            l <= n,
            join_state(h0, t0, plan_view(plan@), heads_now@, tails_now@),
            map_ok(first@, plan_view(plan@), heads_now@, tails_now@),
            map_ok(second@, plan_view(plan@), heads_now@, tails_now@),
            goal == extend_lines_from(start, 0, n as int),
            extend_lines_from((plan_view(plan@), heads_now@, tails_now@, first@, second@), l as int, n as int)
                == goal,
        decreases n - l,
    {
        let ghost cur: JoinSpecState = (plan_view(plan@), heads_now@, tails_now@, first@, second@);
        proof {
            assert(plan_view(plan@)[l as int] == plan@[l as int]@);
        }
        if plan[l].len() > 0 {
            let ghost ext = extend_line(cur, l as int);
            loop
                invariant
                    n == h0.len(),
                    l < n,
                    join_state(h0, t0, plan_view(plan@), heads_now@, tails_now@),
                    map_ok(first@, plan_view(plan@), heads_now@, tails_now@),
                    map_ok(second@, plan_view(plan@), heads_now@, tails_now@),
                    plan@[l as int]@.len() > 0,
                    extend_line((plan_view(plan@), heads_now@, tails_now@, first@, second@), l as int) == ext,
                ensures
                    n == h0.len(),
                    l < n,
                    join_state(h0, t0, plan_view(plan@), heads_now@, tails_now@),
                    map_ok(first@, plan_view(plan@), heads_now@, tails_now@),
                    map_ok(second@, plan_view(plan@), heads_now@, tails_now@),
                    (plan_view(plan@), heads_now@, tails_now@, first@, second@) == ext,
                decreases live(plan_view(plan@)),
            {
                let ghost pv = plan_view(plan@);
                let ghost now: JoinSpecState = (plan_view(plan@), heads_now@, tails_now@, first@, second@);
                let hl = heads_now[l];
                let tl = tails_now[l];
                let found = match candidate(&first, hl, l, &plan, Ghost(heads_now@), Ghost(tails_now@)) {
                    Some(t) => Some(t),
                    None => match candidate(&second, hl, l, &plan, Ghost(heads_now@), Ghost(tails_now@)) {
                        Some(t) => Some(t),
                        None => match candidate(&second, tl, l, &plan, Ghost(heads_now@), Ghost(tails_now@)) {
                            Some(t) => Some(t),
                            None => candidate(&first, tl, l, &plan, Ghost(heads_now@), Ghost(tails_now@)),
                        },
                    },
                };
                assert(found == line_to_join(now, l as int));
                let tj = match found {
                    None => {
                        break;
                    },
                    Some(t) => t,
                };
                proof {
                    assert(pv[tj as int] == plan@[tj as int]@);
                    assert(pv[l as int] == plan@[l as int]@);
                }
                join_into(&mut plan, &mut heads_now, &mut tails_now, &mut first, &mut second, l, tj, Ghost(h0), Ghost(t0));
            }
        }
        l = l + 1;
    }
    proof {
        let pv = plan_view(plan@);
        assert forall|x: int| 0 <= x < plan@.len() implies chained(heads@, tails@, #[trigger] plan@[x]@) by {
            assert(pv[x] == plan@[x]@);
        }
        assert forall|x: int| 0 <= x < plan@.len() && #[trigger] plan@[x]@.len() > 0 implies exists|a: int|
            0 <= a < plan@[x]@.len() && #[trigger] plan@[x]@[a] == (x as usize, false) by {
            assert(pv[x] == plan@[x]@);
        }
    }
    plan
}

} // verus!
