//! The timing plan: where the note starts, where its consonant ends, how much
//! of the sample it may use, and how the output grid covers the sample.
//! Times are integers in microseconds; the source frames lie 5 ms apart.
use vstd::prelude::*;
use crate::text::MAX_WHOLE;

verus! {

/// Spacing of the analysis frames, in microseconds.
pub const FRAME_US: i64 = 5000;

/// Largest magnitude of a parsed decimal, in thousandths.
pub open spec fn decimal_bounded(x: i64) -> bool {
    -1000 * MAX_WHOLE - 999 <= x <= 1000 * MAX_WHOLE + 999
}

/// Note onset, consonant end and usable end of the sample, on the source
/// frame grid. All in microseconds.
pub struct TimingData {
    /// Time of each source frame: `5000 * i`.
    pub positions: Vec<i64>,
    pub start: i64,
    pub end: i64,
    pub con: i64,
}

impl TimingData {
    /// The frame grid is `0, 5000, 10000, ...` with at least one frame.
    pub open spec fn wf(&self) -> bool {
        &&& 1 <= self.positions@.len() <= MAX_WHOLE
        &&& forall|i: int| 0 <= i < self.positions@.len() ==> #[trigger] self.positions@[i] == FRAME_US * i
    }

    /// The timing of a sample of `f0_len` frames for a note that starts at
    /// `offset`, has a consonant of `consonant` and a cutoff of `cutoff`, all
    /// in microseconds. A negative cutoff is the length used from the start;
    /// a positive one is trimmed from the end of the sample.
    pub fn calculate(f0_len: usize, offset: i64, cutoff: i64, consonant: i64) -> (r: TimingData)
        requires
            1 <= f0_len <= MAX_WHOLE,
            decimal_bounded(offset),
            decimal_bounded(cutoff),
            decimal_bounded(consonant),
        ensures
            r.wf(),
            r.positions@.len() == f0_len,
            r.start == offset,
            r.con == offset + consonant,
            cutoff < 0 ==> r.end == offset - cutoff,
            cutoff >= 0 ==> r.end == FRAME_US * (f0_len - 1) - cutoff,
            consonant >= 0 ==> r.start <= r.con,
    {
        let mut positions: Vec<i64> = Vec::new();
        for i in 0..f0_len
            invariant
                f0_len <= MAX_WHOLE,
                positions@.len() == i,
                forall|j: int| 0 <= j < i ==> #[trigger] positions@[j] == FRAME_US * j,
        {
            positions.push(FRAME_US * i as i64);
        }
        let start = offset;
        let end = if cutoff < 0 {
            start - cutoff
        } else {
            positions[f0_len - 1] - cutoff
        };
        let con = start + consonant;
        TimingData { positions, start, end, con }
    }
}

/// How the output grid covers the sample: `consonant_count` points from
/// `start` to `con`, then `stretch_count` points that either are the source
/// frames from `window_start` on, or are spread evenly from `con` to `end`.
#[derive(Debug, Clone, Copy, PartialEq, Eq)]
pub struct StretchPlan {
    pub consonant_count: u64,
    pub stretch_count: usize,
    pub window_start: Option<usize>,
}

/// `floor(vel * consonant_ms / 5)` with `vel = (1 - velocity / 100)^2`, for
/// a velocity in thousandths of a percent and a consonant in microseconds;
/// 0 when that is negative.
pub open spec fn consonant_points(velocity: int, consonant: int) -> int {
    if consonant <= 0 {
        0
    } else {
        (100000 - velocity) * (100000 - velocity) * consonant / 50_000_000_000_000
    }
}

/// Points that a note of `length` milliseconds takes on the 5 ms grid.
pub open spec fn length_points(length: int) -> int {
    length / 5
}

/// Index of the source frame at or before `t`, 0 for negative times.
pub open spec fn frame_at(t: int) -> int {
    if t <= 0 {
        0
    } else {
        t / 5000
    }
}

/// The plan for a timing, velocity, consonant and requested length. When
/// the sample's sustain is longer than the note, the note takes the source
/// frames from the end of the consonant on as they are, provided that many
/// frames exist; otherwise the sustain is stretched evenly over the note.
pub open spec fn stretch_plan(t: TimingData, velocity: int, consonant: int, length: int) -> StretchPlan {
    let n = length_points(length);
    let first = frame_at(t.con as int);
    StretchPlan {
        consonant_count: consonant_points(velocity, consonant) as u64,
        stretch_count: n as usize,
        window_start: if t.end - t.con > length * 1000 && first + n <= t.positions@.len() {
            Some(first as usize)
        } else {
            None
        },
    }
}

/// Plans the output grid of a render.
pub fn plan_grid(timing: &TimingData, velocity: i64, consonant: i64, length: usize) -> (r: StretchPlan)
    requires
        timing.wf(),
        0 <= velocity <= 100000,
        decimal_bounded(consonant),
        decimal_bounded(timing.con),
        decimal_bounded(timing.end),
        length <= MAX_WHOLE,
    ensures
        r == stretch_plan(*timing, velocity as int, consonant as int, length as int),
        r.window_start is Some ==> r.window_start->0 + r.stretch_count <= timing.positions@.len(),
{
    let count: u64 = if consonant <= 0 {
        0
    } else {
        let w: u128 = (100000 - velocity) as u128;
        let c: u128 = consonant as u128;
        assert(w * w <= 10_000_000_000) by (nonlinear_arith)
            requires
                w <= 100000,
        ;
        assert(w * w * c <= 10_000_000_000 * c) by (nonlinear_arith)
            requires
                w * w <= 10_000_000_000,
        ;
        let q = w * w * c / 50_000_000_000_000;
        assert(q <= c) by (nonlinear_arith)
            requires
                q == w * w * c / 50_000_000_000_000,
                w * w * c <= 10_000_000_000 * c,
        ;
        q as u64
    };
    let n: usize = length / 5;
    let first: u64 = if timing.con <= 0 {
        0
    } else {
        (timing.con / 5000) as u64
    };
    let longer = (timing.end as i128 - timing.con as i128) > length as i128 * 1000;
    let window_start = if longer && first as u128 + n as u128 <= timing.positions.len() as u128 {
        Some(first as usize)
    } else {
        None
    };
    StretchPlan { consonant_count: count, stretch_count: n, window_start }
}

/// Whether a time lies within the sample: between 0 and its last frame.
pub open spec fn in_sample(t: TimingData) -> spec_fn(i64) -> bool {
    |x: i64| 0 <= x && x <= t.positions@.last()
}

/// Integer division that rounds toward zero.
pub open spec fn trunc_div(x: int, d: int) -> int {
    if x >= 0 {
        x / d
    } else {
        -((-x) / d)
    }
}

/// Point `k` of `n` evenly spaced from `a` to `b`, both included, rounded
/// toward `a` to the microsecond.
pub open spec fn lin_point(a: i64, b: i64, n: int, k: int) -> i64 {
    if n <= 1 {
        a
    } else {
        (a + trunc_div((b - a) * k, n - 1)) as i64
    }
}

pub open spec fn lin_grid(a: i64, b: i64, n: nat) -> Seq<i64> {
    Seq::new(n, |k: int| lin_point(a, b, n as int, k))
}

/// The sustain part of the grid: the source frames of the window, or an
/// even spread from the consonant's end to the usable end.
pub open spec fn stretch_grid(t: TimingData, p: StretchPlan) -> Seq<i64> {
    match p.window_start {
        Some(first) => t.positions@.subrange(first as int, first + p.stretch_count),
        None => lin_grid(t.con, t.end, p.stretch_count as nat),
    }
}

/// The output time grid: the consonant points, then the sustain points,
/// without those that fall outside the sample.
pub open spec fn render_times(t: TimingData, p: StretchPlan) -> Seq<i64> {
    (lin_grid(t.start, t.con, p.consonant_count as nat) + stretch_grid(t, p)).filter(in_sample(t))
}

proof fn lemma_filter_step(s: Seq<i64>, k: int, pred: spec_fn(i64) -> bool)
    requires
        0 <= k < s.len(),
    ensures
        s.take(k + 1).filter(pred) == if pred(s[k]) {
            s.take(k).filter(pred).push(s[k])
        } else {
            s.take(k).filter(pred)
        },
{
    reveal(Seq::filter);
    assert(s.take(k + 1).drop_last() =~= s.take(k));
}

proof fn lemma_lin_point_between(a: i64, b: i64, n: int, k: int)
    requires
        n >= 2,
        0 <= k < n,
    ensures
        a <= b ==> a <= a + trunc_div((b - a) * k, n - 1) <= b,
        b < a ==> b <= a + trunc_div((b - a) * k, n - 1) <= a,
{
    let m = n - 1;
    if a <= b {
        let x = (b - a) * k;
        assert(0 <= x <= (b - a) * m) by (nonlinear_arith)
            requires
                x == (b - a) * k,
                0 <= k <= m,
                a <= b,
        ;
        assert(x / m <= b - a) by (nonlinear_arith)
            requires
                0 <= x <= (b - a) * m,
                m >= 1,
        ;
        assert(x / m >= 0) by (nonlinear_arith)
            requires
                0 <= x,
                m >= 1,
        ;
    } else {
        let y = (a - b) * k;
        assert((b - a) * k == -y) by (nonlinear_arith)
            requires
                y == (a - b) * k,
        ;
        assert(0 <= y <= (a - b) * m) by (nonlinear_arith)
            requires
                y == (a - b) * k,
                0 <= k <= m,
                b < a,
        ;
        assert(y / m <= a - b) by (nonlinear_arith)
            requires
                0 <= y <= (a - b) * m,
                m >= 1,
        ;
        assert(y / m >= 0) by (nonlinear_arith)
            requires
                0 <= y,
                m >= 1,
        ;
    }
}

/// Appends the points of `lin_grid(a, b, n)` that lie in `[0, last]`.
fn push_lin_grid(out: &mut Vec<i64>, a: i64, b: i64, n: u64, last: i64, Ghost(pred): Ghost<spec_fn(i64) -> bool>)
    requires
        decimal_bounded(a),
        decimal_bounded(b),
        forall|x: i64| #[trigger] pred(x) == (0 <= x && x <= last),
    ensures
        final(out)@ == old(out)@ + lin_grid(a, b, n as nat).filter(pred),
{
    let ghost g = lin_grid(a, b, n as nat);
    let ghost start = out@;
    for k in 0..n
        invariant
            g == lin_grid(a, b, n as nat),
            decimal_bounded(a),
            decimal_bounded(b),
            forall|x: i64| #[trigger] pred(x) == (0 <= x && x <= last),
            out@ == start + g.take(k as int).filter(pred),
    {
        let x: i64 = if n <= 1 {
            a
        } else {
            let w: i128 = b as i128 - a as i128;
            assert(-4_000_000_000_000_000 * 0x1_0000_0000_0000_0000 <= w * k <= 4_000_000_000_000_000
                * 0x1_0000_0000_0000_0000) by (nonlinear_arith)
                requires
                    -4_000_000_000_000_000 <= w <= 4_000_000_000_000_000,
                    0 <= k < 0x1_0000_0000_0000_0000,
            ;
            let d: i128 = w * k as i128;
            let m: i128 = n as i128 - 1;
            let q: i128 = if d >= 0 { d / m } else { 0 - ((0 - d) / m) };
            proof {
                lemma_lin_point_between(a, b, n as int, k as int);
            }
            (a as i128 + q) as i64
        };
        proof {
            assert(g[k as int] == x);
            lemma_filter_step(g, k as int, pred);
        }
        if 0 <= x && x <= last {
            out.push(x);
        }
    }
    proof {
        assert(g.take(n as int) =~= g);
    }
}

/// Builds the output time grid of a plan, in microseconds.
pub fn render_grid(timing: &TimingData, plan: &StretchPlan) -> (r: Vec<i64>)
    requires
        timing.wf(),
        decimal_bounded(timing.start),
        decimal_bounded(timing.con),
        decimal_bounded(timing.end),
        plan.window_start is Some ==> plan.window_start->0 + plan.stretch_count
            <= timing.positions@.len(),
    ensures
        r@ == render_times(*timing, *plan),
        forall|i: int| 0 <= i < r@.len() ==> 0 <= #[trigger] r@[i] <= timing.positions@.last(),
{
    let last = timing.positions[timing.positions.len() - 1];
    let ghost pred = in_sample(*timing);
    let mut out: Vec<i64> = Vec::new();
    push_lin_grid(&mut out, timing.start, timing.con, plan.consonant_count, last, Ghost(pred));
    let ghost cons = out@;
    match plan.window_start {
        Some(first) => {
            let n = plan.stretch_count;
            let len = timing.positions.len();
            let ghost w = timing.positions@.subrange(first as int, first + n);
            let mut k: usize = 0;
            while k < n
                invariant
                    k <= n,
                    n == plan.stretch_count,
                    w == timing.positions@.subrange(first as int, first + n),
                    first + n <= len,
                    len == timing.positions@.len(),
                    timing.positions@.len() >= 1,
                    pred == in_sample(*timing),
                    last == timing.positions@.last(),
                    out@ == cons + w.take(k as int).filter(pred),
                decreases n - k,
            {
                let x = timing.positions[first + k];
                proof {
                    assert(w[k as int] == x);
                    lemma_filter_step(w, k as int, pred);
                }
                if 0 <= x && x <= last {
                    out.push(x);
                }
                k = k + 1;
            }
            proof {
                assert(w.take(n as int) =~= w);
            }
        },
        None => {
            push_lin_grid(&mut out, timing.con, timing.end, plan.stretch_count as u64, last, Ghost(pred));
        },
    }
    proof {
        let g1 = lin_grid(timing.start, timing.con, plan.consonant_count as nat);
        let g2 = stretch_grid(*timing, *plan);
        Seq::filter_distributes_over_add(g1, g2, pred);
        assert forall|i: int| 0 <= i < out@.len() implies 0 <= #[trigger] out@[i]
            <= timing.positions@.last() by {
            (g1 + g2).lemma_filter_pred(pred, i);
        }
    }
    out
}

} // verus!
