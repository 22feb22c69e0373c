use vstd::prelude::*;
use vstd::set_lib::{lemma_int_range, lemma_len_subset, set_int_range};
use crate::chain::{assemble, chains_of, kept, placed, Segment};
use crate::codec::Drawing;
use crate::error::WeldError;
use crate::weld::{agrees, answers, covers, degenerate, piece_ok, weld_chain, weld_spec, Piece};

verus! {

proof fn lemma_chain_len(s: Seq<Segment>, cs: Seq<Seq<usize>>, q: int)
    requires
        chains_of(s, cs),
        0 <= q < cs.len(),
    ensures
        cs[q].len() <= s.len(),
{
    let c = cs[q].map_values(|x: usize| x as int);
    assert(c.no_duplicates()) by {
        assert forall|i: int, j: int| 0 <= i < c.len() && 0 <= j < c.len() && i != j implies c[i] != c[j] by {
            if cs[q][i] == cs[q][j] {
                assert(cs[q][i] == cs[q][j]);
            }
        }
    }
    c.unique_seq_to_set();
    lemma_int_range(0, s.len() as int);
    assert(c.to_set().subset_of(set_int_range(0, s.len() as int))) by {
        assert forall|x: int| c.to_set().contains(x) implies set_int_range(0, s.len() as int).contains(x) by {
            let i = choose|i: int| 0 <= i < c.len() && c[i] == x;
            assert(kept(s, cs[q][i] as int));
        }
    }
    lemma_len_subset(c.to_set(), set_int_range(0, s.len() as int));
}

/// The questions about chain `c` to which the closure `g` may answer yes, as a spec
/// function of two point indices.
pub open spec fn chain_answers<G: Fn(&Vec<usize>, usize, usize) -> bool>(g: G, c: Vec<usize>) -> spec_fn(
    int,
    int,
) -> bool {
    |x: int, y: int| g.ensures((&c, x as usize, y as usize), true)
}

/// A closure that gives each question about a chain one answer only.
pub open spec fn determinate<G: Fn(&Vec<usize>, usize, usize) -> bool>(g: G) -> bool {
    forall|c: &Vec<usize>, x: usize, y: usize| !(#[trigger] g.ensures((c, x, y), true) && g.ensures((c, x, y), false))
}

proof fn lemma_degenerate_weaken(s1: spec_fn(int, int) -> bool, s2: spec_fn(int, int) -> bool, x: int, y: int)
    requires
        degenerate(s1, x, y),
        forall|a: int, b: int| #[trigger] s1(a, b) ==> s2(a, b),
    ensures
        degenerate(s2, x, y),
{
    assert forall|k: int| x <= k < y implies #[trigger] s2(k, k + 1) by {
        assert(s1(k, k + 1));
    }
}

proof fn lemma_covers_weaken(
    ps: Seq<Piece>,
    n: int,
    m: int,
    s1: spec_fn(int, int) -> bool,
    f1: spec_fn(int, int) -> bool,
    s2: spec_fn(int, int) -> bool,
    f2: spec_fn(int, int) -> bool,
)
    requires
        covers(ps, n, m, s1, f1),
        forall|x: int, y: int| #[trigger] s1(x, y) ==> s2(x, y),
        forall|x: int, y: int| #[trigger] f1(x, y) ==> f2(x, y),
    ensures
        covers(ps, n, m, s2, f2),
{
    assert forall|k: int| 0 <= k < ps.len() implies piece_ok(#[trigger] ps[k], n, m, s2, f2) by {
        assert(piece_ok(ps[k], n, m, s1, f1));
    }
    assert forall|k: int| 0 <= k < ps.len() - 1 implies #[trigger] ps[k].resume() <= ps[k + 1].first() && degenerate(
        s2,
        ps[k].resume(),
        ps[k + 1].first(),
    ) by {
        assert(degenerate(s1, ps[k].resume(), ps[k + 1].first()));
        lemma_degenerate_weaken(s1, s2, ps[k].resume(), ps[k + 1].first());
    }
    lemma_degenerate_weaken(s1, s2, ps.last().resume(), n - 1);
}

/// Welds a drawing whose entity `k` is the segment `segs[k]`: every entity must be a
/// `LINE`; the segments are stitched into chains, and each chain is welded with at
/// least `m` points in a window before an arc is tried. Point 0 of a chain `c` is
/// the start of segment `c[0]`, and point `j + 1` the end of segment `c[j]`;
/// `same(c, x, y)` says whether points `x` and `y` of `c` coincide, and
/// `fit(c, a, i)` whether a circle through its window `a..=i` passes the residual
/// test. The result pairs each chain with its pieces: they cover the chain as
/// `weld_chain` does, and when the closures answer each question one way only, they
/// are exactly the walk of `weld_spec` over the chain.
pub fn weld_drawing<S: Fn(&Vec<usize>, usize, usize) -> bool, F: Fn(&Vec<usize>, usize, usize) -> bool>(
    d: &Drawing,
    segs: &Vec<Segment>,
    m: usize,
    same: S,
    fit: F,
) -> (r: Result<Vec<(Vec<usize>, Vec<Piece>)>, WeldError>)
    requires
        segs.len() == d.entities.len(),
        segs.len() + m + 2 < usize::MAX,
        forall|c: &Vec<usize>, x: usize, y: usize| same.requires((c, x, y)),
        forall|c: &Vec<usize>, a: usize, i: usize| fit.requires((c, a, i)),
    ensures
        r is Err <==> (exists|k: int| 0 <= k < d.entities.len() && !(#[trigger] d.entities@[k] is Line)) || (m < 3
            && segs.len() > 0),
        r matches Ok(v) ==> chains_of(segs@, v@.map_values(|p: (Vec<usize>, Vec<Piece>)| p.0@)),
        r matches Ok(v) ==> forall|q: int|
            0 <= q < v.len() ==> covers(
                (#[trigger] v@[q]).1@,
                v@[q].0.len() + 1,
                m as int,
                chain_answers(same, v@[q].0),
                chain_answers(fit, v@[q].0),
            ),
        r matches Ok(v) ==> (determinate(same) && determinate(fit) ==> forall|q: int|
            0 <= q < v.len() ==> (#[trigger] v@[q]).1@ == weld_spec(
                v@[q].0.len() + 1,
                m as int,
                chain_answers(same, v@[q].0),
                chain_answers(fit, v@[q].0),
            )),
{
    match d.require_lines() {
        Err(e) => {
            return Err(e);
        },
        Ok(()) => {},
    }
    let mut cs = assemble(segs);
    let ghost g = cs@.map_values(|c: Vec<usize>| c@);
    if segs.len() > 0 {
        proof {
            let k = segs.len() - 1;
            assert(kept(segs@, k as int));
            assert(placed(g, k as int));
            assert(g.len() > 0);
        }
    }
    let mut out: Vec<(Vec<usize>, Vec<Piece>)> = Vec::new();
    let ghost mut done: int = 0;
    while cs.len() > 0
        invariant
            g.len() == done + cs.len(),
            0 <= done,
            chains_of(segs@, g),
            segs.len() + m + 2 < usize::MAX,
            forall|c: &Vec<usize>, x: usize, y: usize| same.requires((c, x, y)),
            forall|c: &Vec<usize>, a: usize, i: usize| fit.requires((c, a, i)),
            forall|t: int| 0 <= t < cs.len() ==> (#[trigger] cs@[t])@ == g[done + t],
            out.len() == done,
            forall|t: int| 0 <= t < done ==> (#[trigger] out@[t]).0@ == g[t],
            forall|t: int|
                0 <= t < done ==> covers(
                    (#[trigger] out@[t]).1@,
                    out@[t].0.len() + 1,
                    m as int,
                    chain_answers(same, out@[t].0),
                    chain_answers(fit, out@[t].0),
                ),
            determinate(same) && determinate(fit) ==> forall|t: int|
                0 <= t < done ==> (#[trigger] out@[t]).1@ == weld_spec(
                    out@[t].0.len() + 1,
                    m as int,
                    chain_answers(same, out@[t].0),
                    chain_answers(fit, out@[t].0),
                ),
            m >= 3 || done == 0,
        decreases cs.len(),
    {
        let chain = cs.remove(0);
        proof {
            assert(chain@ == g[done]);
            lemma_chain_len(segs@, g, done);
        }
        let n = chain.len() + 1;
        let same_ref = &same;
        let fit_ref = &fit;
        let chain_ref = &chain;
        let same_in = |x: usize, y: usize| -> (r: bool)
            ensures
                same_ref.ensures((chain_ref, x, y), r),
            {
                same_ref(chain_ref, x, y)
            };
        let fit_in = |a: usize, i: usize| -> (r: bool)
            ensures
                fit_ref.ensures((chain_ref, a, i), r),
            {
                fit_ref(chain_ref, a, i)
            };
        let pieces = match weld_chain(n, m, same_in, fit_in) {
            Ok(ps) => ps,
            Err(e) => {
                return Err(e);
            },
        };
        let ghost sc = chain_answers(same, chain);
        let ghost fc = chain_answers(fit, chain);
        proof {
            assert forall|x: int, y: int| #[trigger] answers(same_in)(x, y) implies sc(x, y) by {
                assert(same_in.ensures((x as usize, y as usize), true));
            }
            assert forall|x: int, y: int| #[trigger] answers(fit_in)(x, y) implies fc(x, y) by {
                assert(fit_in.ensures((x as usize, y as usize), true));
            }
            lemma_covers_weaken(pieces@, n as int, m as int, answers(same_in), answers(fit_in), sc, fc);
            if determinate(same) && determinate(fit) {
                assert forall|x: usize, y: usize, r: bool| #[trigger] same_in.ensures((x, y), r) implies r == sc(
                    x as int,
                    y as int,
                ) by {
                    assert(same.ensures((&chain, x, y), r));
                }
                assert forall|x: usize, y: usize, r: bool| #[trigger] fit_in.ensures((x, y), r) implies r == fc(
                    x as int,
                    y as int,
                ) by {
                    assert(fit.ensures((&chain, x, y), r));
                }
                assert(agrees(same_in, sc));
                assert(agrees(fit_in, fc));
                assert(pieces@ == weld_spec(n as int, m as int, sc, fc));
            }
        }
        let ghost before = out@;
        out.push((chain, pieces));
        proof {
            assert(out@[done] == (chain, pieces));
            assert forall|t: int|
                0 <= t < done + 1 implies covers(
                (#[trigger] out@[t]).1@,
                out@[t].0.len() + 1,
                m as int,
                chain_answers(same, out@[t].0),
                chain_answers(fit, out@[t].0),
            ) by {
                if t < done {
                    assert(out@[t] == before[t]);
                }
            }
            if determinate(same) && determinate(fit) {
                assert forall|t: int| 0 <= t < done + 1 implies (#[trigger] out@[t]).1@ == weld_spec(
                    out@[t].0.len() + 1,
                    m as int,
                    chain_answers(same, out@[t].0),
                    chain_answers(fit, out@[t].0),
                ) by {
                    if t < done {
                        assert(out@[t] == before[t]);
                    }
                }
            }
            done = done + 1;
        }
    }
    proof {
        assert(out@.map_values(|p: (Vec<usize>, Vec<Piece>)| p.0@) =~= g);
    }
    Ok(out)
}

} // verus!
