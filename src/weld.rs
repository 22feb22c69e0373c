use vstd::prelude::*;
use crate::error::WeldError;

verus! {

/// One output entity of the welder, in terms of indices into the chain of points.
#[derive(Clone, Copy, Debug, PartialEq, Eq, Structural)]
pub enum Piece {
    /// The straight segment from point `start` to point `start + 1`.
    Line { start: usize },
    /// An arc fitted to the window of points `start..=end`.
    Arc { start: usize, end: usize },
    /// A full circle fitted to the window `start..=fit_end`, closed at point `end`,
    /// which coincides with point `start`.
    Circle { start: usize, fit_end: usize, end: usize },
}

/// The welder's state while it walks a chain: the window start `a`, the index `i`
/// under consideration, and the end of the window of the live candidate arc.
#[derive(Clone, Copy, Debug, PartialEq, Eq, Structural)]
pub struct Walk {
    pub a: usize,
    pub i: usize,
    pub live: Option<usize>,
}

/// What the geometry says about the point under consideration.
#[derive(Clone, Copy, Debug, PartialEq, Eq, Structural)]
pub struct Probe {
    /// Point `i` coincides with point `i - 1`.
    pub repeat: bool,
    /// Point `i` coincides with the window start `a`.
    pub closes: bool,
    /// A circle through the window `a..=i` passes the residual test.
    pub fits: bool,
}

impl Piece {
    /// The index of the piece's first point.
    pub open spec fn first(self) -> int {
        match self {
            Piece::Line { start } => start as int,
            Piece::Arc { start, .. } => start as int,
            Piece::Circle { start, .. } => start as int,
        }
    }

    /// The first point index that the next piece may start from.
    pub open spec fn resume(self) -> int {
        match self {
            Piece::Line { start } => start + 1,
            Piece::Arc { end, .. } => end as int,
            Piece::Circle { end, .. } => end + 1,
        }
    }

    pub open spec fn is_line(self) -> bool {
        self is Line
    }
}

/// The way an arc turns from its start point through its middle point to its end.
#[derive(Clone, Copy, Debug, PartialEq, Eq, Structural)]
pub enum Turn {
    CounterClockwise,
    Clockwise,
    Unknown,
}

/// How the polar angles `s`, `m` and `e` of an arc's start, middle and end points
/// about its center compare with each other and with the ends of `[0, 2π)`.
#[derive(Clone, Copy, Debug, PartialEq, Eq, Structural)]
pub struct AngleOrder {
    pub s_lt_e: bool,
    pub e_lt_s: bool,
    pub s_lt_m: bool,
    pub m_lt_s: bool,
    pub e_lt_m: bool,
    pub m_lt_e: bool,
    /// `0 <= m`
    pub m_nonneg: bool,
    /// `0 < m`
    pub m_pos: bool,
    /// `m < 2π`
    pub m_below_full: bool,
}

/// The arc turns counter-clockwise when the middle angle lies on the sweep from
/// `s` up to `e`, clockwise when it lies on the sweep from `e` up to `s`, and its
/// turn is unknown when `s` and `e` are not ordered.
pub open spec fn spec_turn(o: AngleOrder) -> Turn {
    if o.s_lt_e {
        if o.s_lt_m && o.m_lt_e {
            Turn::CounterClockwise
        } else if (o.m_nonneg && o.m_lt_s) || (o.e_lt_m && o.m_below_full) {
            Turn::Clockwise
        } else {
            Turn::Unknown
        }
    } else if o.e_lt_s {
        if (o.s_lt_m && o.m_below_full) || (o.m_pos && o.m_lt_e) {
            Turn::CounterClockwise
        } else if o.e_lt_m && o.m_lt_s {
            Turn::Clockwise
        } else {
            Turn::Unknown
        }
    } else {
        Turn::Unknown
    }
}

/// Resolves which way an arc turns from how its polar angles compare.
pub fn turn(o: AngleOrder) -> (r: Turn)
    ensures
        r == spec_turn(o),
{
    if o.s_lt_e {
        if o.s_lt_m && o.m_lt_e {
            Turn::CounterClockwise
        } else if (o.m_nonneg && o.m_lt_s) || (o.e_lt_m && o.m_below_full) {
            Turn::Clockwise
        } else {
            Turn::Unknown
        }
    } else if o.e_lt_s {
        if (o.s_lt_m && o.m_below_full) || (o.m_pos && o.m_lt_e) {
            Turn::CounterClockwise
        } else if o.e_lt_m && o.m_lt_s {
            Turn::Clockwise
        } else {
            Turn::Unknown
        }
    } else {
        Turn::Unknown
    }
}

/// The index of the middle point used to fit a circle through the window `a..=i`.
pub open spec fn spec_fit_mid(a: int, i: int) -> int {
    a + (i - a - 2) / 2 + 1
}

/// The index of the middle point used to orient an arc over the window `a..=i`.
pub open spec fn spec_orient_mid(a: int, i: int) -> int {
    a + (i - a - 1) / 2 + 1
}

/// Middle point of the window `a..=i` for the three-point circle.
pub fn fit_mid(a: usize, i: usize) -> (r: usize)
    requires
        a + 2 <= i,
    ensures
        r == spec_fit_mid(a as int, i as int),
        a < r < i,
{
    a + (i - a - 2) / 2 + 1
}

/// Middle point of the window `a..=i` for resolving the arc's direction.
pub fn orient_mid(a: usize, i: usize) -> (r: usize)
    requires
        a + 2 <= i,
    ensures
        r == spec_orient_mid(a as int, i as int),
        a < r < i,
{
    a + (i - a - 1) / 2 + 1
}

/// The state in which the walk of a chain begins.
pub open spec fn spec_start(m: nat) -> Walk {
    Walk { a: 0, i: (m - 1) as usize, live: None }
}

/// A state from which the walk can take a step on a chain of `n` points.
pub open spec fn walk_wf(w: Walk, n: nat, m: nat) -> bool {
    &&& w.a + m - 1 <= w.i
    &&& match w.live {
        Some(j) => w.a + m - 1 <= j < w.i <= n,
        None => true,
    }
}

/// One step of the greedy fit from state `w` at point `w.i`, given what the geometry
/// says of that point: the next state, and the piece emitted, if any.
pub open spec fn spec_step(w: Walk, p: Probe, m: nat) -> (Walk, Option<Piece>) {
    if p.repeat {
        (Walk { i: (w.i + 1) as usize, ..w }, None)
    } else if p.closes && w.live is Some {
        let a = (w.i + 1) as usize;
        (
            Walk { a, i: (a + m - 1) as usize, live: None },
            Some(Piece::Circle { start: w.a, fit_end: w.live->0, end: w.i }),
        )
    } else if p.fits {
        (Walk { a: w.a, i: (w.i + 1) as usize, live: Some(w.i) }, None)
    } else if w.live is Some {
        let a = (w.i - 1) as usize;
        (Walk { a, i: (a + m - 1) as usize, live: None }, Some(Piece::Arc { start: w.a, end: w.live->0 }))
    } else {
        let a = (w.a + 1) as usize;
        let i = if w.i - a >= m { w.i } else { (w.i + 1) as usize };
        (Walk { a, i, live: None }, Some(Piece::Line { start: w.a }))
    }
}

/// Takes one step of the greedy fit. The window start never moves back, and the
/// walk always advances: `a + i` grows at every step.
pub fn step(w: Walk, p: Probe, n: usize, m: usize) -> (r: (Walk, Option<Piece>))
    requires
        m >= 3,
        w.i < n,
        n + m < usize::MAX,
        walk_wf(w, n as nat, m as nat),
    ensures
        r == spec_step(w, p, m as nat),
        r.0.a >= w.a,
        r.0.a + r.0.i > w.a + w.i,
        walk_wf(r.0, n as nat, m as nat),
{
    if p.repeat {
        (Walk { i: w.i + 1, ..w }, None)
    } else if p.closes && w.live.is_some() {
        let j = w.live.unwrap();
        let a = w.i + 1;
        (Walk { a, i: a + m - 1, live: None }, Some(Piece::Circle { start: w.a, fit_end: j, end: w.i }))
    } else if p.fits {
        (Walk { a: w.a, i: w.i + 1, live: Some(w.i) }, None)
    } else if w.live.is_some() {
        let j = w.live.unwrap();
        let a = w.i - 1;
        (Walk { a, i: a + m - 1, live: None }, Some(Piece::Arc { start: w.a, end: j }))
    } else {
        let a = w.a + 1;
        let i = if w.i - a >= m { w.i } else { w.i + 1 };
        (Walk { a, i, live: None }, Some(Piece::Line { start: w.a }))
    }
}

/// Every segment `k -> k + 1` with `x <= k < y` joins two coinciding points.
pub open spec fn degenerate(same: spec_fn(int, int) -> bool, x: int, y: int) -> bool {
    forall|k: int| x <= k < y ==> #[trigger] same(k, k + 1)
}

/// A piece lies within a chain of `n` points, and each arc or circle was accepted
/// by the residual test over the window it was fitted to.
pub open spec fn piece_ok(
    p: Piece,
    n: int,
    m: int,
    same: spec_fn(int, int) -> bool,
    fit: spec_fn(int, int) -> bool,
) -> bool {
    match p {
        Piece::Line { start } => start + 1 < n,
        Piece::Arc { start, end } => start + m - 1 <= end < n && fit(start as int, end as int),
        Piece::Circle { start, fit_end, end } => {
            &&& start + m - 1 <= fit_end < end < n
            &&& fit(start as int, fit_end as int)
            &&& same(start as int, end as int)
        },
    }
}

/// The pieces account for a chain of `n` points: they start at its first point,
/// each one starts where the one before it left off, and the only segments that no
/// piece covers are segments between coinciding points, and the segment that follows
/// the closing point of a circle.
pub open spec fn covers(
    ps: Seq<Piece>,
    n: int,
    m: int,
    same: spec_fn(int, int) -> bool,
    fit: spec_fn(int, int) -> bool,
) -> bool {
    &&& ps.len() > 0
    &&& ps[0].first() == 0
    &&& forall|k: int| 0 <= k < ps.len() ==> piece_ok(#[trigger] ps[k], n, m, same, fit)
    &&& forall|k: int|
        0 <= k < ps.len() - 1 ==> #[trigger] ps[k].resume() <= ps[k + 1].first() && degenerate(
            same,
            ps[k].resume(),
            ps[k + 1].first(),
        )
    &&& degenerate(same, ps.last().resume(), n - 1)
}

/// Whatever the closure `g` returns agrees with the spec function `a`.
pub open spec fn agrees<G: Fn(usize, usize) -> bool>(g: G, a: spec_fn(int, int) -> bool) -> bool {
    forall|x: usize, y: usize, r: bool| #[trigger] g.ensures((x, y), r) ==> r == a(x as int, y as int)
}

/// The questions to which a closure may answer yes, as a spec function.
pub open spec fn answers<G: Fn(usize, usize) -> bool>(g: G) -> spec_fn(int, int) -> bool {
    |x: int, y: int| g.ensures((x as usize, y as usize), true)
}

/// What the geometry says about the point under consideration in state `w`. The
/// closing test is made only while an arc is live, and the fit only when neither
/// an earlier test decided.
pub open spec fn spec_probe(w: Walk, same: spec_fn(int, int) -> bool, fit: spec_fn(int, int) -> bool) -> Probe {
    let repeat = same(w.i - 1, w.i as int);
    let closes = !repeat && w.live is Some && same(w.a as int, w.i as int);
    let fits = !repeat && !(closes && w.live is Some) && fit(w.a as int, w.i as int);
    Probe { repeat, closes, fits }
}

/// One line for each segment from point `a` to the last point `n - 1`.
pub open spec fn tail_lines(a: int, n: int) -> Seq<Piece> {
    Seq::new(
        if a < n - 1 {
            (n - 1 - a) as nat
        } else {
            0
        },
        |t: int| Piece::Line { start: (a + t) as usize },
    )
}

/// What the walk emits when it runs past the last point: the live arc, or else the
/// lines that are left.
pub open spec fn finish(w: Walk, n: int) -> Seq<Piece> {
    match w.live {
        Some(j) => seq![Piece::Arc { start: w.a, end: j }],
        None => tail_lines(w.a as int, n),
    }
}

/// The pieces that the walk emits from state `w` on a chain of `n` points.
pub open spec fn walk_from(
    n: int,
    m: int,
    w: Walk,
    same: spec_fn(int, int) -> bool,
    fit: spec_fn(int, int) -> bool,
) -> Seq<Piece>
    decreases (n - w.a) + (if w.i < n {
        n - w.i
    } else {
        0
    }),
{
    if w.i >= n || m < 3 || n + m >= usize::MAX || !walk_wf(w, n as nat, m as nat) {
        finish(w, n)
    } else {
        let (next, out) = spec_step(w, spec_probe(w, same, fit), m as nat);
        match out {
            Some(p) => seq![p] + walk_from(n, m, next, same, fit),
            None => walk_from(n, m, next, same, fit),
        }
    }
}

/// The pieces of a chain of `n` points, when `same` says which points coincide and
/// `fit` which windows pass the residual test.
pub open spec fn weld_spec(n: int, m: int, same: spec_fn(int, int) -> bool, fit: spec_fn(int, int) -> bool) -> Seq<
    Piece,
> {
    walk_from(n, m, spec_start(m as nat), same, fit)
}

/// Welds a chain of `n` points into lines, arcs and circles, with at least `m` points
/// in a window before an arc is tried. `same(x, y)` says whether points `x` and `y`
/// coincide; `fit(a, i)` whether a circle through the window `a..=i` passes the
/// residual test.
pub fn weld_chain<S: Fn(usize, usize) -> bool, F: Fn(usize, usize) -> bool>(
    n: usize,
    m: usize,
    same: S,
    fit: F,
) -> (r: Result<Vec<Piece>, WeldError>)
    requires
        n + m < usize::MAX,
        forall|x: usize, y: usize| x < y < n ==> same.requires((x, y)),
        forall|a: usize, i: usize| a + 2 <= i < n ==> fit.requires((a, i)),
    ensures
        r is Err <==> (m < 3 || n < 2),
        r matches Ok(ps) ==> covers(ps@, n as int, m as int, answers(same), answers(fit)),
        n == 2 ==> (r matches Ok(ps) ==> ps@ == seq![Piece::Line { start: 0 }]),
        n < m ==> (r matches Ok(ps) ==> forall|k: int| 0 <= k < ps.len() ==> (#[trigger] ps[k]).is_line()),
        r matches Ok(ps) ==> forall|k: int| 0 <= k < ps.len() - 1 ==> (#[trigger] ps[k]).first() < ps[k + 1].first(),
        r matches Ok(ps) ==> forall|sa: spec_fn(int, int) -> bool, fa: spec_fn(int, int) -> bool|
            agrees(same, sa) && agrees(fit, fa) ==> ps@ == #[trigger] weld_spec(n as int, m as int, sa, fa),
{
    if m < 3 {
        return Err(WeldError::new(String::from_str("min_segments must be >= 3")));
    }
    if n < 2 {
        return Err(WeldError::new(String::from_str("cannot have 0 or 1 length segments")));
    }
    if n == 2 {
        let mut ps: Vec<Piece> = Vec::new();
        ps.push(Piece::Line { start: 0 });
        proof {
            assert(ps@ =~= seq![Piece::Line { start: 0 }]);
            assert(tail_lines(0, 2) =~= seq![Piece::Line { start: 0 }]);
            assert forall|sa: spec_fn(int, int) -> bool, fa: spec_fn(int, int) -> bool|
                agrees(same, sa) && agrees(fit, fa) implies ps@ == #[trigger] weld_spec(2, m as int, sa, fa) by {
                assert(walk_from(2, m as int, spec_start(m as nat), sa, fa) == finish(spec_start(m as nat), 2));
            }
        }
        return Ok(ps);
    }
    let mut ps: Vec<Piece> = Vec::new();
    let mut w = Walk { a: 0, i: m - 1, live: None };
    while w.i < n
        invariant
            m >= 3,
            n >= 3,
            n + m < usize::MAX,
            forall|x: usize, y: usize| x < y < n ==> same.requires((x, y)),
            forall|a: usize, i: usize| a + 2 <= i < n ==> fit.requires((a, i)),
            walk_wf(w, n as nat, m as nat),
            w.a <= n,
            forall|k: int| 0 <= k < ps.len() ==> piece_ok(#[trigger] ps@[k], n as int, m as int, answers(same), answers(fit)),
            forall|k: int|
                0 <= k < ps.len() - 1 ==> #[trigger] ps@[k].resume() <= ps@[k + 1].first() && degenerate(
                    answers(same),
                    ps@[k].resume(),
                    ps@[k + 1].first(),
                ),
            ps.len() == 0 ==> w.a == 0,
            ps.len() > 0 ==> ps@[0].first() == 0,
            ps.len() > 0 ==> ps@.last().resume() <= w.a && degenerate(answers(same), ps@.last().resume(), w.a as int),
            w.live matches Some(j) ==> fit.ensures((w.a, j), true) && degenerate(answers(same), j as int, w.i - 1),
            forall|sa: spec_fn(int, int) -> bool, fa: spec_fn(int, int) -> bool|
                agrees(same, sa) && agrees(fit, fa) ==> ps@ + walk_from(n as int, m as int, w, sa, fa)
                    == #[trigger] weld_spec(n as int, m as int, sa, fa),
        decreases (n - w.a) + (if w.i < n { n - w.i } else { 0 }),
    {
        let repeat = same(w.i - 1, w.i);
        let closes = if !repeat && w.live.is_some() {
            same(w.a, w.i)
        } else {
            false
        };
        let fits = if !repeat && !(closes && w.live.is_some()) {
            fit(w.a, w.i)
        } else {
            false
        };
        let ghost old_w = w;
        let ghost old_ps = ps@;
        let (next, out) = step(w, Probe { repeat, closes, fits }, n, m);
        w = next;
        match out {
            Some(p) => {
                ps.push(p);
            },
            None => {},
        }
        proof {
            assert forall|sa: spec_fn(int, int) -> bool, fa: spec_fn(int, int) -> bool|
                agrees(same, sa) && agrees(fit, fa) implies ps@ + walk_from(n as int, m as int, w, sa, fa)
                    == #[trigger] weld_spec(n as int, m as int, sa, fa) by {
                assert(old_ps + walk_from(n as int, m as int, old_w, sa, fa) == weld_spec(n as int, m as int, sa, fa));
                assert(spec_probe(old_w, sa, fa) == Probe { repeat, closes, fits });
                let tail = walk_from(n as int, m as int, w, sa, fa);
                assert(walk_from(n as int, m as int, old_w, sa, fa) == match out {
                    Some(p) => seq![p] + tail,
                    None => tail,
                });
                match out {
                    Some(p) => {
                        assert(old_ps + (seq![p] + tail) =~= ps@ + tail);
                    },
                    None => {},
                }
            }
            assert(ps@.len() > 0 ==> ps@[0] == if old_ps.len() > 0 { old_ps[0] } else { ps@[0] });
            if old_w.live is Some && !repeat {
                assert(degenerate(answers(same), old_w.live->0 as int, old_w.i - 1));
            }
        }
    }
    assert forall|sa: spec_fn(int, int) -> bool, fa: spec_fn(int, int) -> bool|
        agrees(same, sa) && agrees(fit, fa) implies ps@ + finish(w, n as int) == #[trigger] weld_spec(
        n as int,
        m as int,
        sa,
        fa,
    ) by {
        assert(ps@ + walk_from(n as int, m as int, w, sa, fa) == weld_spec(n as int, m as int, sa, fa));
    }
    match w.live {
        Some(j) => {
            ps.push(Piece::Arc { start: w.a, end: j });
        },
        None => {
            let mut k: usize = w.a;
            while k + 1 < n
                invariant
                    n >= 3,
                    n + m < usize::MAX,
                    w.a <= k <= n,
                    forall|t: int| 0 <= t < ps.len() ==> piece_ok(#[trigger] ps@[t], n as int, m as int, answers(same), answers(fit)),
                    forall|t: int|
                        0 <= t < ps.len() - 1 ==> #[trigger] ps@[t].resume() <= ps@[t + 1].first() && degenerate(
                            answers(same),
                            ps@[t].resume(),
                            ps@[t + 1].first(),
                        ),
                    ps.len() == 0 ==> k == 0,
                    ps.len() > 0 ==> ps@[0].first() == 0,
                    ps.len() > 0 ==> ps@.last().resume() <= k && degenerate(answers(same), ps@.last().resume(), k as int),
                    forall|sa: spec_fn(int, int) -> bool, fa: spec_fn(int, int) -> bool|
                        agrees(same, sa) && agrees(fit, fa) ==> ps@ + tail_lines(k as int, n as int)
                            == #[trigger] weld_spec(n as int, m as int, sa, fa),
                decreases n - k,
            {
                proof {
                    let t = tail_lines(k as int, n as int);
                    assert(t =~= seq![Piece::Line { start: k }] + tail_lines(k + 1, n as int));
                    assert(ps@ + t =~= ps@.push(Piece::Line { start: k }) + tail_lines(k + 1, n as int));
                }
                ps.push(Piece::Line { start: k });
                k = k + 1;
            }
            proof {
                assert(tail_lines(k as int, n as int) =~= Seq::<Piece>::empty());
                assert(ps@ + Seq::<Piece>::empty() =~= ps@);
            }
        },
    }
    proof {
        if n < m {
            assert forall|t: int| 0 <= t < ps.len() implies (#[trigger] ps@[t]).is_line() by {
                assert(piece_ok(ps@[t], n as int, m as int, answers(same), answers(fit)));
            }
        }
        assert forall|k: int| 0 <= k < ps.len() - 1 implies (#[trigger] ps@[k]).first() < ps@[k + 1].first() by {
            assert(piece_ok(ps@[k], n as int, m as int, answers(same), answers(fit)));
            assert(ps@[k].resume() <= ps@[k + 1].first());
        }
    }
    Ok(ps)
}

/// How many steps the walk takes from state `w` before it runs past the last point.
pub open spec fn walk_steps(
    n: int,
    m: int,
    w: Walk,
    same: spec_fn(int, int) -> bool,
    fit: spec_fn(int, int) -> bool,
) -> nat
    decreases (n - w.a) + (if w.i < n {
        n - w.i
    } else {
        0
    }),
{
    if w.i >= n || m < 3 || n + m >= usize::MAX || !walk_wf(w, n as nat, m as nat) {
        0
    } else {
        let (next, _) = spec_step(w, spec_probe(w, same, fit), m as nat);
        1 + walk_steps(n, m, next, same, fit)
    }
}

proof fn lemma_steps_bound(n: int, m: int, w: Walk, same: spec_fn(int, int) -> bool, fit: spec_fn(int, int) -> bool)
    requires
        w.a <= n,
    ensures
        walk_steps(n, m, w, same, fit) <= (n - w.a) + (if w.i < n {
            n - w.i
        } else {
            0
        }),
    decreases (n - w.a) + (if w.i < n {
        n - w.i
    } else {
        0
    }),
{
    if !(w.i >= n || m < 3 || n + m >= usize::MAX || !walk_wf(w, n as nat, m as nat)) {
        let (next, _) = spec_step(w, spec_probe(w, same, fit), m as nat);
        lemma_steps_bound(n, m, next, same, fit);
    }
}

/// The walk over a chain of `n` points takes at most `2 * n` steps, whatever the
/// geometry answers.
pub proof fn lemma_walk_bounded(n: int, m: int, same: spec_fn(int, int) -> bool, fit: spec_fn(int, int) -> bool)
    requires
        0 <= n,
    ensures
        walk_steps(n, m, spec_start(m as nat), same, fit) <= 2 * n,
{
    lemma_steps_bound(n, m, spec_start(m as nat), same, fit);
}

proof fn lemma_closing_run(n: int, m: int, same: spec_fn(int, int) -> bool, fit: spec_fn(int, int) -> bool, i: int)
    requires
        3 <= m <= i <= n - 1,
        n + m < usize::MAX,
        forall|k: int| 0 < k < n ==> !#[trigger] same(k - 1, k),
        forall|k: int| 0 < k < n - 1 ==> !#[trigger] same(0, k),
        same(0, n - 1),
        forall|k: int| m - 1 <= k <= n - 2 ==> #[trigger] fit(0, k),
    ensures
        walk_from(n, m, Walk { a: 0, i: i as usize, live: Some((i - 1) as usize) }, same, fit) == seq![
            Piece::Circle { start: 0, fit_end: (n - 2) as usize, end: (n - 1) as usize },
        ],
    decreases n - i,
{
    let w = Walk { a: 0, i: i as usize, live: Some((i - 1) as usize) };
    assert(!same(i - 1, i));
    if i == n - 1 {
        let next = Walk { a: n as usize, i: (n + m - 1) as usize, live: None };
        assert(walk_from(n, m, next, same, fit) =~= Seq::<Piece>::empty());
        assert(seq![Piece::Circle { start: 0, fit_end: (n - 2) as usize, end: (n - 1) as usize }] + Seq::<
            Piece,
        >::empty() =~= seq![Piece::Circle { start: 0, fit_end: (n - 2) as usize, end: (n - 1) as usize }]);
    } else {
        assert(!same(0, i));
        assert(fit(0, i));
        lemma_closing_run(n, m, same, fit, i + 1);
    }
}

/// A closed polygon gives one circle: when no two consecutive points coincide, no
/// point but the last comes back to the first, the last one does, and every window
/// that starts at the first point passes the residual test, the walk emits exactly
/// one circle, fitted up to the last point but one and closed at the last.
pub proof fn lemma_closed_polygon(n: int, m: int, same: spec_fn(int, int) -> bool, fit: spec_fn(int, int) -> bool)
    requires
        3 <= m,
        m + 1 <= n,
        n + m < usize::MAX,
        forall|k: int| 0 < k < n ==> !#[trigger] same(k - 1, k),
        forall|k: int| 0 < k < n - 1 ==> !#[trigger] same(0, k),
        same(0, n - 1),
        forall|k: int| m - 1 <= k <= n - 2 ==> #[trigger] fit(0, k),
    ensures
        weld_spec(n, m, same, fit) == seq![
            Piece::Circle { start: 0, fit_end: (n - 2) as usize, end: (n - 1) as usize },
        ],
{
    let k = m - 1;
    assert(!same(k - 1, k));
    assert(fit(0, k));
    lemma_closing_run(n, m, same, fit, m);
}

} // verus!
