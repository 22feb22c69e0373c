use vstd::prelude::*;

verus! {

/// A point quantised to the grid of the point tolerance: two points that share a
/// grid cell are the same point to the chain assembler.
#[derive(Clone, Copy, Debug, PartialEq, Eq, Structural)]
pub struct GridPoint {
    pub x: i64,
    pub y: i64,
}

/// A directed line segment between two grid points.
#[derive(Clone, Copy, Debug, PartialEq, Eq, Structural)]
pub struct Segment {
    pub from: GridPoint,
    pub to: GridPoint,
}

/// Lexicographic order on grid points, `x` first.
pub open spec fn grid_le(p: GridPoint, q: GridPoint) -> bool {
    p.x < q.x || (p.x == q.x && p.y <= q.y)
}

/// Segment `k` is the one that the successor map keeps for its start: no later
/// segment starts at the same point.
pub open spec fn kept(s: Seq<Segment>, k: int) -> bool {
    &&& 0 <= k < s.len()
    &&& forall|j: int| k < j < s.len() ==> #[trigger] s[j].from != s[k].from
}

/// Segment `k` stands in one of the chains.
pub open spec fn placed(cs: Seq<Seq<usize>>, k: int) -> bool {
    exists|q: int, t: int| 0 <= q < cs.len() && 0 <= t < cs[q].len() && #[trigger] cs[q][t] == k
}

/// The chains that the assembler extracts from segments `s`, as lists of segment
/// indices: each kept segment stands in exactly one chain, every chain follows
/// segments head to tail, ends where no remaining segment continues it, and starts
/// at the least remaining start point.
pub open spec fn chains_of(s: Seq<Segment>, cs: Seq<Seq<usize>>) -> bool {
    &&& forall|q: int| 0 <= q < cs.len() ==> #[trigger] cs[q].len() > 0
    &&& forall|q: int, t: int| 0 <= q < cs.len() && 0 <= t < cs[q].len() ==> kept(s, #[trigger] cs[q][t] as int)
    &&& forall|k: int| kept(s, k) ==> placed(cs, k)
    &&& forall|q1: int, t1: int, q2: int, t2: int|
        0 <= q1 < cs.len() && 0 <= t1 < cs[q1].len() && 0 <= q2 < cs.len() && 0 <= t2 < cs[q2].len()
            && #[trigger] cs[q1][t1] == #[trigger] cs[q2][t2] ==> q1 == q2 && t1 == t2
    &&& forall|q: int, t: int|
        0 <= q < cs.len() && 0 <= t < cs[q].len() - 1 ==> s[#[trigger] cs[q][t] as int].to == s[cs[q][t + 1] as int].from
    &&& forall|q: int, k: int|
        #![trigger cs[q], kept(s, k)]
        0 <= q < cs.len() && kept(s, k) && s[k].from == s[cs[q].last() as int].to ==> placed(
            cs.take(q + 1),
            k,
        )
    &&& forall|q: int, k: int|
        #![trigger cs[q], kept(s, k)]
        0 <= q < cs.len() && kept(s, k) && !placed(cs.take(q), k) ==> grid_le(
            s[cs[q][0] as int].from,
            s[k].from,
        )
}

pub open spec fn count_used(u: Seq<bool>) -> nat
    decreases u.len(),
{
    if u.len() == 0 {
        0
    } else {
        count_used(u.drop_last()) + if u.last() {
            1nat
        } else {
            0nat
        }
    }
}

proof fn lemma_count_le(u: Seq<bool>)
    ensures
        count_used(u) <= u.len(),
    decreases u.len(),
{
    if u.len() > 0 {
        lemma_count_le(u.drop_last());
    }
}

proof fn lemma_count_mark(u: Seq<bool>, k: int)
    requires
        0 <= k < u.len(),
        !u[k],
    ensures
        count_used(u.update(k, true)) == count_used(u) + 1,
    decreases u.len(),
{
    let v = u.update(k, true);
    if k == u.len() - 1 {
        assert(v.drop_last() =~= u.drop_last());
    } else {
        assert(v.drop_last() =~= u.drop_last().update(k, true));
        lemma_count_mark(u.drop_last(), k);
    }
}

/// Chains in the making: indices kept and distinct, chains followed head to tail,
/// and a segment is marked used exactly when it is dropped or placed.
#[verifier::opaque]
pub open spec fn progress(s: Seq<Segment>, used: Seq<bool>, cs: Seq<Seq<usize>>) -> bool {
    &&& used.len() == s.len()
    &&& forall|q: int| 0 <= q < cs.len() ==> #[trigger] cs[q].len() > 0
    &&& forall|q: int, t: int| 0 <= q < cs.len() && 0 <= t < cs[q].len() ==> kept(s, #[trigger] cs[q][t] as int)
    &&& forall|k: int| 0 <= k < s.len() ==> (#[trigger] used[k] <==> (!kept(s, k) || placed(cs, k)))
    &&& forall|q1: int, t1: int, q2: int, t2: int|
        0 <= q1 < cs.len() && 0 <= t1 < cs[q1].len() && 0 <= q2 < cs.len() && 0 <= t2 < cs[q2].len()
            && #[trigger] cs[q1][t1] == #[trigger] cs[q2][t2] ==> q1 == q2 && t1 == t2
    &&& forall|q: int, t: int|
        0 <= q < cs.len() && 0 <= t < cs[q].len() - 1 ==> s[#[trigger] cs[q][t] as int].to == s[cs[q][t + 1] as int].from
}

/// Chains `0..upto` are finished: maximal, and started at the least open point.
#[verifier::opaque]
pub open spec fn finished(s: Seq<Segment>, cs: Seq<Seq<usize>>, upto: int) -> bool {
    &&& forall|q: int, k: int|
        #![trigger cs[q], kept(s, k)]
        0 <= q < upto && kept(s, k) && s[k].from == s[cs[q].last() as int].to ==> placed(
            cs.take(q + 1),
            k,
        )
    &&& forall|q: int, k: int|
        #![trigger cs[q], kept(s, k)]
        0 <= q < upto + 1 && q < cs.len() && kept(s, k) && !placed(cs.take(q), k) ==> grid_le(
            s[cs[q][0] as int].from,
            s[k].from,
        )
}

proof fn lemma_placed_grow(cs: Seq<Seq<usize>>, ns: Seq<Seq<usize>>, v: usize, q0: int, t0: int)
    requires
        0 <= q0 < ns.len(),
        0 <= t0 < ns[q0].len(),
        ns[q0][t0] == v,
        forall|q: int, t: int| 0 <= q < cs.len() && 0 <= t < cs[q].len() ==> q < ns.len() && t < ns[q].len() && ns[q][t] == #[trigger] cs[q][t],
        forall|q: int, t: int| 0 <= q < ns.len() && 0 <= t < ns[q].len() && !(q == q0 && t == t0) ==> q < cs.len() && t < cs[q].len() && #[trigger] ns[q][t] == cs[q][t],
    ensures
        forall|k: int| placed(ns, k) <==> (placed(cs, k) || k == v),
{
    assert forall|k: int| placed(ns, k) <==> (placed(cs, k) || k == v) by {
        if placed(cs, k) {
            let (q, t) = choose|q: int, t: int| 0 <= q < cs.len() && 0 <= t < cs[q].len() && #[trigger] cs[q][t] == k;
            assert(ns[q][t] == k);
        }
        if k == v {
            assert(ns[q0][t0] == k);
        }
        if placed(ns, k) {
            let (q, t) = choose|q: int, t: int| 0 <= q < ns.len() && 0 <= t < ns[q].len() && #[trigger] ns[q][t] == k;
            if !(q == q0 && t == t0) {
                assert(cs[q][t] == k);
            }
        }
    }
}

proof fn lemma_take_same(cs: Seq<Seq<usize>>, ns: Seq<Seq<usize>>, upto: int)
    requires
        0 <= upto <= cs.len(),
        upto <= ns.len(),
        forall|q: int| 0 <= q < upto ==> ns[q] == cs[q],
    ensures
        forall|q: int| 0 <= q <= upto ==> #[trigger] ns.take(q) == cs.take(q),
{
    assert forall|q: int| 0 <= q <= upto implies #[trigger] ns.take(q) == cs.take(q) by {
        assert(ns.take(q) =~= cs.take(q));
    }
}

/// Marks each segment that a later one with the same start overwrites.
fn shadowed(segs: &Vec<Segment>) -> (used: Vec<bool>)
    ensures
        used.len() == segs.len(),
        forall|k: int| 0 <= k < segs.len() ==> (#[trigger] used@[k] <==> !kept(segs@, k)),
{
    let n = segs.len();
    let mut used: Vec<bool> = Vec::new();
    let mut k: usize = 0;
    while k < n
        invariant
            n == segs.len(),
            k <= n,
            used.len() == k,
            forall|t: int| 0 <= t < k ==> (#[trigger] used@[t] <==> !kept(segs@, t)),
        decreases n - k,
    {
        let mut j: usize = k + 1;
        let mut hit = false;
        while j < n
            invariant
                n == segs.len(),
                k < j <= n || j == k + 1,
                k < n,
                hit <==> exists|t: int| k < t < j && #[trigger] segs@[t].from == segs@[k as int].from,
            decreases n - j,
        {
            if segs[j].from == segs[k].from {
                hit = true;
            }
            j = j + 1;
        }
        used.push(hit);
        k = k + 1;
    }
    used
}

/// The open segment with the least start point, if any is open.
fn least_open(segs: &Vec<Segment>, used: &Vec<bool>) -> (r: Option<usize>)
    requires
        used.len() == segs.len(),
    ensures
        r matches Some(b) ==> b < segs.len() && !used@[b as int] && forall|k: int|
            0 <= k < segs.len() && !used@[k] ==> grid_le(segs@[b as int].from, #[trigger] segs@[k].from),
        r is None ==> forall|k: int| 0 <= k < segs.len() ==> #[trigger] used@[k],
{
    let mut best: Option<usize> = None;
    let mut k: usize = 0;
    while k < segs.len()
        invariant
            used.len() == segs.len(),
            k <= segs.len(),
            best matches Some(b) ==> b < segs.len() && !used@[b as int] && forall|t: int|
                0 <= t < k && !used@[t] ==> grid_le(segs@[b as int].from, #[trigger] segs@[t].from),
            best is None ==> forall|t: int| 0 <= t < k ==> #[trigger] used@[t],
        decreases segs.len() - k,
    {
        if !used[k] {
            match best {
                None => {
                    best = Some(k);
                },
                Some(b) => {
                    let p = segs[k].from;
                    let q = segs[b].from;
                    if p.x < q.x || (p.x == q.x && p.y < q.y) {
                        best = Some(k);
                    }
                },
            }
        }
        k = k + 1;
    }
    best
}

/// The open segment that starts at `p`, if any.
fn open_from(segs: &Vec<Segment>, used: &Vec<bool>, p: GridPoint) -> (r: Option<usize>)
    requires
        used.len() == segs.len(),
    ensures
        r matches Some(b) ==> b < segs.len() && !used@[b as int] && segs@[b as int].from == p,
        r is None ==> forall|k: int| 0 <= k < segs.len() && !used@[k] ==> #[trigger] segs@[k].from != p,
{
    let mut k: usize = 0;
    while k < segs.len()
        invariant
            used.len() == segs.len(),
            k <= segs.len(),
            forall|t: int| 0 <= t < k && !used@[t] ==> #[trigger] segs@[t].from != p,
        decreases segs.len() - k,
    {
        if !used[k] && segs[k].from == p {
            return Some(k);
        }
        k = k + 1;
    }
    None
}

proof fn lemma_open_chain(s: Seq<Segment>, used: Seq<bool>, cs: Seq<Seq<usize>>, v: usize)
    requires
        progress(s, used, cs),
        finished(s, cs, cs.len() as int),
        v < s.len(),
        !used[v as int],
        forall|k: int| 0 <= k < s.len() && !used[k] ==> grid_le(s[v as int].from, #[trigger] s[k].from),
    ensures
        progress(s, used.update(v as int, true), cs.push(seq![v])),
        finished(s, cs.push(seq![v]), cs.len() as int),
{
    reveal(progress);
    reveal(finished);
    let ns = cs.push(seq![v]);
    let nu = used.update(v as int, true);
    lemma_placed_grow(cs, ns, v, cs.len() as int, 0);
    lemma_take_same(cs, ns, cs.len() as int);
    assert(ns.take(cs.len() as int) =~= cs);
    assert forall|q1: int, t1: int, q2: int, t2: int|
        0 <= q1 < ns.len() && 0 <= t1 < ns[q1].len() && 0 <= q2 < ns.len() && 0 <= t2 < ns[q2].len()
            && #[trigger] ns[q1][t1] == #[trigger] ns[q2][t2] implies q1 == q2 && t1 == t2 by {
        if q1 == cs.len() || q2 == cs.len() {
            if q1 < cs.len() {
                assert(placed(cs, v as int));
            }
            if q2 < cs.len() {
                assert(placed(cs, v as int));
            }
        }
    }
    assert forall|k: int| 0 <= k < s.len() implies (#[trigger] nu[k] <==> (!kept(s, k) || placed(ns, k))) by {
        if k != v {
            assert(used[k] == nu[k]);
        }
    }
    assert forall|q: int, k: int|
        #![trigger ns[q], kept(s, k)]
        0 <= q < cs.len() + 1 && q < ns.len() && kept(s, k) && !placed(ns.take(q), k) implies grid_le(
            s[ns[q][0] as int].from,
            s[k].from,
        ) by {
        if q == cs.len() {
            assert(!used[k]);
        } else {
            assert(ns[q] == cs[q]);
        }
    }
    assert forall|q: int, k: int|
        #![trigger ns[q], kept(s, k)]
        0 <= q < cs.len() && kept(s, k) && s[k].from == s[ns[q].last() as int].to implies placed(
            ns.take(q + 1),
            k,
        ) by {
        assert(ns[q] == cs[q]);
    }
}

proof fn lemma_extend_chain(s: Seq<Segment>, used: Seq<bool>, cs: Seq<Seq<usize>>, v: usize)
    requires
        progress(s, used, cs),
        cs.len() > 0,
        finished(s, cs, cs.len() - 1),
        v < s.len(),
        !used[v as int],
        s[cs.last().last() as int].to == s[v as int].from,
    ensures
        progress(s, used.update(v as int, true), cs.update(cs.len() - 1, cs.last().push(v))),
        finished(s, cs.update(cs.len() - 1, cs.last().push(v)), cs.len() - 1),
{
    reveal(progress);
    reveal(finished);
    let l = cs.len() - 1;
    let ns = cs.update(l, cs.last().push(v));
    let nu = used.update(v as int, true);
    lemma_placed_grow(cs, ns, v, l, cs.last().len() as int);
    lemma_take_same(cs, ns, l);
    assert forall|q1: int, t1: int, q2: int, t2: int|
        0 <= q1 < ns.len() && 0 <= t1 < ns[q1].len() && 0 <= q2 < ns.len() && 0 <= t2 < ns[q2].len()
            && #[trigger] ns[q1][t1] == #[trigger] ns[q2][t2] implies q1 == q2 && t1 == t2 by {
        let e = cs.last().len() as int;
        if (q1 == l && t1 == e) || (q2 == l && t2 == e) {
            if !(q1 == l && t1 == e) {
                assert(cs[q1][t1] == v);
                assert(placed(cs, v as int));
            }
            if !(q2 == l && t2 == e) {
                assert(cs[q2][t2] == v);
                assert(placed(cs, v as int));
            }
        } else {
            assert(cs[q1][t1] == ns[q1][t1]);
            assert(cs[q2][t2] == ns[q2][t2]);
        }
    }
    assert forall|q: int, t: int|
        0 <= q < ns.len() && 0 <= t < ns[q].len() - 1 implies s[#[trigger] ns[q][t] as int].to == s[ns[q][t
        + 1] as int].from by {
        if q == l && t == cs.last().len() - 1 {
        } else if q == l {
            assert(ns[q][t] == cs[q][t]);
            assert(ns[q][t + 1] == cs[q][t + 1]);
        } else {
            assert(ns[q] == cs[q]);
        }
    }
    assert forall|q: int, t: int| 0 <= q < ns.len() && 0 <= t < ns[q].len() implies kept(s, #[trigger] ns[q][t] as int) by {
        if !(q == l && t == cs.last().len()) {
            assert(ns[q][t] == cs[q][t]);
        }
    }
    assert forall|k: int| 0 <= k < s.len() implies (#[trigger] nu[k] <==> (!kept(s, k) || placed(ns, k))) by {
        if k != v {
            assert(used[k] == nu[k]);
        }
    }
    assert forall|q: int, k: int|
        #![trigger ns[q], kept(s, k)]
        0 <= q < l + 1 && q < ns.len() && kept(s, k) && !placed(ns.take(q), k) implies grid_le(
            s[ns[q][0] as int].from,
            s[k].from,
        ) by {
        assert(ns[q][0] == cs[q][0]);
        assert(ns.take(q) == cs.take(q));
        assert(kept(s, k) && !placed(cs.take(q), k));
    }
    assert forall|q: int, k: int|
        #![trigger ns[q], kept(s, k)]
        0 <= q < l && kept(s, k) && s[k].from == s[ns[q].last() as int].to implies placed(
            ns.take(q + 1),
            k,
        ) by {
        assert(ns[q] == cs[q]);
        assert(ns.take(q + 1) == cs.take(q + 1));
    }
}

proof fn lemma_close_chain(s: Seq<Segment>, used: Seq<bool>, cs: Seq<Seq<usize>>)
    requires
        progress(s, used, cs),
        cs.len() > 0,
        finished(s, cs, cs.len() - 1),
        forall|k: int| 0 <= k < s.len() && !used[k] ==> #[trigger] s[k].from != s[cs.last().last() as int].to,
    ensures
        finished(s, cs, cs.len() as int),
{
    reveal(progress);
    reveal(finished);
    let l = cs.len() - 1;
    assert(cs.take(l + 1) =~= cs);
    assert forall|q: int, k: int|
        #![trigger cs[q], kept(s, k)]
        0 <= q < cs.len() && kept(s, k) && s[k].from == s[cs[q].last() as int].to implies placed(
            cs.take(q + 1),
            k,
        ) by {
        if q == l {
            assert(used[k]);
        }
    }
}

proof fn lemma_start(s: Seq<Segment>, used: Seq<bool>)
    requires
        used.len() == s.len(),
        forall|k: int| 0 <= k < s.len() ==> (#[trigger] used[k] <==> !kept(s, k)),
    ensures
        progress(s, used, Seq::empty()),
        finished(s, Seq::empty(), 0),
{
    reveal(progress);
    reveal(finished);
}

proof fn lemma_done(s: Seq<Segment>, used: Seq<bool>, cs: Seq<Seq<usize>>)
    requires
        progress(s, used, cs),
        finished(s, cs, cs.len() as int),
        forall|k: int| 0 <= k < s.len() ==> #[trigger] used[k],
    ensures
        chains_of(s, cs),
{
    reveal(progress);
    reveal(finished);
    assert forall|k: int| kept(s, k) implies placed(cs, k) by {
        assert(used[k]);
    }
}

/// Stitches segments into maximal forward chains of segment indices. Where two
/// segments start at the same point, the later one is kept and the earlier one
/// dropped. Each chain starts at the least start point among the segments that
/// earlier chains left.
pub fn assemble(segs: &Vec<Segment>) -> (r: Vec<Vec<usize>>)
    ensures
        chains_of(segs@, r@.map_values(|c: Vec<usize>| c@)),
{
    let mut used = shadowed(segs);
    let mut cs: Vec<Vec<usize>> = Vec::new();
    let ghost mut g: Seq<Seq<usize>> = Seq::empty();
    proof {
        lemma_start(segs@, used@);
    }
    loop
        invariant
            used.len() == segs.len(),
            progress(segs@, used@, g),
            finished(segs@, g, g.len() as int),
            cs@.len() == g.len(),
            forall|q: int| 0 <= q < g.len() ==> (#[trigger] cs@[q])@ == g[q],
        ensures
            used.len() == segs.len(),
            progress(segs@, used@, g),
            finished(segs@, g, g.len() as int),
            cs@.len() == g.len(),
            forall|q: int| 0 <= q < g.len() ==> (#[trigger] cs@[q])@ == g[q],
            forall|k: int| 0 <= k < segs.len() ==> #[trigger] used@[k],
        decreases segs.len() - count_used(used@),
    {
        proof {
            lemma_count_le(used@);
        }
        match least_open(segs, &used) {
            None => {
                break;
            },
            Some(b) => {
                let ghost c0 = count_used(used@);
                let mut cur: Vec<usize> = Vec::new();
                cur.push(b);
                proof {
                    lemma_open_chain(segs@, used@, g, b);
                    lemma_count_mark(used@, b as int);
                    g = g.push(seq![b]);
                    assert(cur@ =~= seq![b]);
                }
                used.set(b, true);
                proof {
                    lemma_count_le(used@);
                }
                let ghost before = cs@;
                let mut to = segs[b].to;
                loop
                    invariant
                        used.len() == segs.len(),
                        progress(segs@, used@, g),
                        g.len() > 0,
                        finished(segs@, g, g.len() - 1),
                        cs@ == before,
                        cs@.len() == g.len() - 1,
                        forall|q: int| 0 <= q < g.len() - 1 ==> (#[trigger] cs@[q])@ == g[q],
                        g.last() == cur@,
                        cur@.len() > 0,
                        cur@.last() < segs.len(),
                        to == segs@[cur@.last() as int].to,
                        c0 < count_used(used@) <= segs.len(),
                    ensures
                        used.len() == segs.len(),
                        progress(segs@, used@, g),
                        g.len() > 0,
                        finished(segs@, g, g.len() - 1),
                        cs@.len() == g.len() - 1,
                        forall|q: int| 0 <= q < g.len() - 1 ==> (#[trigger] cs@[q])@ == g[q],
                        g.last() == cur@,
                        forall|k: int| 0 <= k < segs.len() && !used@[k] ==> #[trigger] segs@[k].from != to,
                        cur@.last() < segs.len(),
                        to == segs@[cur@.last() as int].to,
                        c0 < count_used(used@) <= segs.len(),
                    decreases segs.len() - count_used(used@),
                {
                    match open_from(segs, &used, to) {
                        None => {
                            break;
                        },
                        Some(k) => {
                            proof {
                                lemma_extend_chain(segs@, used@, g, k);
                                lemma_count_mark(used@, k as int);
                                lemma_count_le(used@.update(k as int, true));
                                g = g.update(g.len() - 1, g.last().push(k));
                            }
                            cur.push(k);
                            used.set(k, true);
                            to = segs[k].to;
                        },
                    }
                }
                proof {
                    lemma_close_chain(segs@, used@, g);
                }
                cs.push(cur);
            },
        }
    }
    proof {
        let m = cs@.map_values(|c: Vec<usize>| c@);
        assert(m =~= g);
        lemma_done(segs@, used@, g);
    }
    cs
}

} // verus!
