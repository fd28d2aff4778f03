//! Framing of a sample stream into FFT windows and the schedule that turns
//! those windows into spectrogram columns.
//!
//! The spectral work itself (windowing, FFT, power) is floating point and is
//! done by the caller; this module decides which window to analyse next,
//! which column it belongs to, and when a column is complete and may be
//! emitted.

use vstd::prelude::*;
use vstd::arithmetic::div_mod::{lemma_div_is_ordered, lemma_fundamental_div_mod};
use vstd::arithmetic::mul::lemma_mul_inequality;

verus! {

/// Number of samples in one FFT window.
pub const FFT_SIZE: usize = 2048;

/// Number of frequency bands of one spectrum (DC up to Nyquist).
pub const BANDS: usize = FFT_SIZE / 2 + 1;

/// Which channel(s) of a stereo stream are analysed.
#[derive(Clone, Copy, Debug, PartialEq, Eq, Structural)]
pub enum Channel {
    Left,
    Mix,
    Right,
    Split,
}

/// A sample stream that feeds one spectrogram view.
#[derive(Clone, Copy, Debug, PartialEq, Eq, Structural)]
pub enum Source {
    Left,
    Right,
    /// The average of left and right.
    Mix,
}

impl Channel {
    /// The stream analysed for the main view, and the stream of the second
    /// view if the channel mode has one.
    pub fn sources(self) -> (r: (Source, Option<Source>))
        ensures
            r == (match self {
                Channel::Left => (Source::Left, None),
                Channel::Right => (Source::Right, None),
                Channel::Mix => (Source::Mix, None),
                Channel::Split => (Source::Left, Some(Source::Right)),
            }),
    {
        match self {
            Channel::Left => (Source::Left, None),
            Channel::Right => (Source::Right, None),
            Channel::Mix => (Source::Mix, None),
            Channel::Split => (Source::Left, Some(Source::Right)),
        }
    }
}

/// Errors of the analysis.
#[derive(Clone, Copy, Debug, PartialEq, Eq, Structural)]
pub enum PipelineError {
    /// Fewer samples than one FFT window.
    TooShort,
}

impl PipelineError {
    /// The message shown to the user.
    pub fn message(&self) -> (s: &'static str)
        ensures
            s@ == "Audio too short"@,
    {
        "Audio too short"
    }
}

/// How a stream of `total` samples is cut into windows of `FFT_SIZE`
/// samples, `hop` samples apart, and spread over `num_cols` columns.
#[derive(Clone, Copy, Debug)]
pub struct FramePlan {
    pub total: usize,
    pub hop: usize,
    pub num_frames: usize,
    pub num_cols: usize,
}

impl FramePlan {
    pub open spec fn wf(self) -> bool {
        &&& self.hop >= 1
        &&& self.num_cols >= 1
        &&& self.total >= FFT_SIZE
        &&& self.num_frames == (self.total - FFT_SIZE) as int / self.hop as int + 1
        &&& self.num_frames * self.num_cols <= usize::MAX
    }

    /// The column that frame `frame` contributes to.
    pub fn column_for_frame(&self, frame: usize) -> (c: usize)
        requires
            self.wf(),
            frame < self.num_frames,
        ensures
            c == column_of(*self, frame as int),
            self.num_frames == 1 ==> c == 0,
            self.num_frames > 1 ==> c * self.num_frames <= frame * self.num_cols,
            self.num_frames > 1 ==> frame * self.num_cols < (c + 1) * self.num_frames || c
                == self.num_cols - 1,
    {
        proof {
            lemma_column_spread(*self, frame as int);
        }
        if self.num_frames > 1 {
            assert(frame * self.num_cols <= self.num_frames * self.num_cols) by (nonlinear_arith)
                requires
                    frame < self.num_frames,
            ;
            let c = frame * self.num_cols / self.num_frames;
            if c < self.num_cols - 1 {
                c
            } else {
                self.num_cols - 1
            }
        } else {
            0
        }
    }

    /// The first sample of frame `frame`.
    pub fn offset_for_frame(&self, frame: usize) -> (o: usize)
        requires
            self.wf(),
            frame < self.num_frames,
        ensures
            o == offset_of(*self, frame as int),
            o == frame * self.hop,
            o + FFT_SIZE <= self.total,
    {
        proof {
            lemma_window_in_bounds(*self, frame as int);
        }
        let o = frame * self.hop;
        let last = self.total - FFT_SIZE;
        if o < last {
            o
        } else {
            last
        }
    }
}

/// The column that frame `frame` contributes to.
pub open spec fn column_of(plan: FramePlan, frame: int) -> int {
    if plan.num_frames > 1 {
        let c = frame * plan.num_cols / plan.num_frames as int;
        if c < plan.num_cols - 1 {
            c
        } else {
            plan.num_cols - 1
        }
    } else {
        0
    }
}

/// The first sample of frame `frame`.
pub open spec fn offset_of(plan: FramePlan, frame: int) -> int {
    let o = frame * plan.hop;
    if o < plan.total - FFT_SIZE {
        o
    } else {
        plan.total - FFT_SIZE
    }
}

/// The number of frames among the first `k` that fall into column `col`.
pub open spec fn frames_in(plan: FramePlan, col: int, k: nat) -> nat
    decreases k,
{
    if k == 0 {
        0
    } else {
        frames_in(plan, col, (k - 1) as nat) + if column_of(plan, k - 1) == col {
            1nat
        } else {
            0nat
        }
    }
}

/// The number by which the accumulated power of a column is divided:
/// the number of its frames, and at least one.
pub open spec fn divisor_of(plan: FramePlan, col: int) -> nat {
    let n = frames_in(plan, col, plan.num_frames as nat);
    if n >= 1 {
        n
    } else {
        1
    }
}

/// Cuts `total` samples into frames; fails when there is not one window.
pub fn plan_frames(total: usize, hop: usize, num_cols: usize) -> (r: Result<FramePlan, PipelineError>)
    requires
        hop >= 1,
        num_cols >= 1,
        total >= FFT_SIZE ==> ((total - FFT_SIZE) as int / hop as int + 1) * num_cols <= usize::MAX,
    ensures
        total < FFT_SIZE <==> r is Err,
        r is Err ==> r == Err::<FramePlan, PipelineError>(PipelineError::TooShort),
        r matches Ok(p) ==> {
            &&& p.wf()
            &&& p.total == total
            &&& p.hop == hop
            &&& p.num_cols == num_cols
            &&& p.num_frames == (total - FFT_SIZE) as int / hop as int + 1
        },
{
    if total < FFT_SIZE {
        return Err(PipelineError::TooShort);
    }
    let num_frames = (total - FFT_SIZE) / hop + 1;
    Ok(FramePlan { total, hop, num_frames, num_cols })
}

/// The column of a frame never exceeds the column of a later frame, and is
/// always a column of the plan.
pub proof fn lemma_column_monotone(plan: FramePlan, f1: int, f2: int)
    requires
        plan.wf(),
        0 <= f1 <= f2 < plan.num_frames,
    ensures
        0 <= column_of(plan, f1) <= column_of(plan, f2) < plan.num_cols,
{
    if plan.num_frames > 1 {
        lemma_mul_inequality(f1, f2, plan.num_cols as int);
        lemma_div_is_ordered(f1 * plan.num_cols, f2 * plan.num_cols, plan.num_frames as int);
        assert(0 <= f1 * plan.num_cols) by (nonlinear_arith)
            requires
                0 <= f1,
                plan.num_cols >= 1,
        ;
        lemma_div_is_ordered(0, f1 * plan.num_cols, plan.num_frames as int);
    }
}

/// Frames are spread evenly over the whole width: frame `f` of `N` goes to
/// column `c` with `c * N <= f * num_cols < (c + 1) * N`, except that the
/// last column also takes what would lie beyond it. When there are at least
/// as many columns as frames nothing lies beyond. The last frame reaches
/// at least column `num_cols - 1 - num_cols / N`, so the frames cover the
/// whole width. A single frame goes to column 0.
pub proof fn lemma_column_spread(plan: FramePlan, f: int)
    requires
        plan.wf(),
        0 <= f < plan.num_frames,
    ensures
        plan.num_frames == 1 ==> column_of(plan, f) == 0,
        plan.num_frames > 1 ==> column_of(plan, f) * plan.num_frames <= f * plan.num_cols,
        plan.num_frames > 1 ==> f * plan.num_cols < (column_of(plan, f) + 1) * plan.num_frames
            || column_of(plan, f) == plan.num_cols - 1,
        plan.num_frames > 1 && plan.num_frames <= plan.num_cols ==> f * plan.num_cols < (
        column_of(plan, f) + 1) * plan.num_frames,
        plan.num_frames > 1 && f == plan.num_frames - 1 ==> column_of(plan, f) + 1 + plan.num_cols
            / plan.num_frames >= plan.num_cols,
{
    let n = plan.num_frames as int;
    let nc = plan.num_cols as int;
    if n > 1 {
        let p = f * nc;
        assert(p >= 0) by (nonlinear_arith)
            requires
                p == f * nc,
                f >= 0,
                nc >= 1,
        ;
        lemma_fundamental_div_mod(p, n);
        vstd::arithmetic::div_mod::lemma_mod_pos_bound(p, n);
        let q = p / n;
        assert(q * n == n * q) by (nonlinear_arith);
        assert((q + 1) * n == n * q + n) by (nonlinear_arith);
        if q >= nc - 1 {
            assert((nc - 1) * n <= q * n) by (nonlinear_arith)
                requires
                    q >= nc - 1,
                    n > 0,
            ;
        }
        if n <= nc {
            assert(p < n * nc) by (nonlinear_arith)
                requires
                    p == f * nc,
                    f < n,
                    nc >= 1,
            ;
            assert(q < nc) by {
                vstd::arithmetic::div_mod::lemma_multiply_divide_lt(p, n, nc);
            }
        }
        if f == n - 1 {
            let r = nc / n;
            lemma_fundamental_div_mod(nc, n);
            vstd::arithmetic::div_mod::lemma_mod_pos_bound(nc, n);
            assert(p == n * nc - nc) by (nonlinear_arith)
                requires
                    p == f * nc,
                    f == n - 1,
            ;
            assert(n * nc == n * (n * r + nc % n)) by (nonlinear_arith)
                requires
                    nc == n * r + nc % n,
            ;
            assert((q + 1 + r) * n >= nc * n) by (nonlinear_arith)
                requires
                    p == n * q + p % n,
                    p % n < n,
                    p == n * nc - nc,
                    nc == n * r + nc % n,
                    0 <= nc % n < n,
                    n > 1,
            ;
            assert(q + 1 + r >= nc) by (nonlinear_arith)
                requires
                    (q + 1 + r) * n >= nc * n,
                    n > 0,
            ;
        }
    }
}

/// Every frame's window lies inside the stream, and the clamp at the end
/// of the stream never moves a window: frame `f` starts at `f * hop`.
pub proof fn lemma_window_in_bounds(plan: FramePlan, frame: int)
    requires
        plan.wf(),
        0 <= frame < plan.num_frames,
    ensures
        offset_of(plan, frame) == frame * plan.hop,
        offset_of(plan, frame) + FFT_SIZE <= plan.total,
{
    let n = (plan.total - FFT_SIZE) as int;
    let h = plan.hop as int;
    lemma_fundamental_div_mod(n, h);
    assert(frame <= n / h);
    lemma_mul_inequality(frame, n / h, h);
    assert(h * (n / h) == (n / h) * h) by (nonlinear_arith);
    assert(0 <= n % h) by {
        vstd::arithmetic::div_mod::lemma_mod_pos_bound(n, h);
    }
}

/// The count of frames in a column does not change over frames that fall
/// into other columns.
proof fn lemma_frames_in_stable(plan: FramePlan, col: int, k1: nat, k2: nat)
    requires
        k1 <= k2,
        forall|f: int| k1 <= f < k2 ==> column_of(plan, f) != col,
    ensures
        frames_in(plan, col, k2) == frames_in(plan, col, k1),
    decreases k2 - k1,
{
    if k1 < k2 {
        lemma_frames_in_stable(plan, col, k1, (k2 - 1) as nat);
    }
}

proof fn lemma_frames_in_bound(plan: FramePlan, col: int, k: nat)
    ensures
        frames_in(plan, col, k) <= k,
    decreases k,
{
    if k > 0 {
        lemma_frames_in_bound(plan, col, (k - 1) as nat);
    }
}

/// What the analysis does next.
#[derive(Clone, Copy, Debug, PartialEq, Eq, Structural)]
pub enum Step {
    /// Column `col` is complete: divide its accumulated power by `divisor`
    /// and emit it.
    Emit { col: usize, divisor: usize },
    /// Analyse the window of frame `frame`, which starts at sample `offset`,
    /// and add its power to column `col`.
    Analyze { frame: usize, col: usize, offset: usize },
    /// Every frame has been analysed and every column emitted.
    Finished,
}

/// The abstract state of an analysis: the next frame to analyse, the next
/// column to emit, and how many frames each column has received.
pub struct Progress {
    pub frame: nat,
    pub next_col: nat,
    pub counts: Seq<usize>,
}

/// The state before anything has been analysed or emitted.
pub open spec fn initial_progress(plan: FramePlan) -> Progress {
    Progress { frame: 0, next_col: 0, counts: Seq::new(plan.num_cols as nat, |i: int| 0usize) }
}

/// The consistent states of an analysis.
pub open spec fn progress_wf(plan: FramePlan, p: Progress) -> bool {
    &&& p.frame <= plan.num_frames
    &&& p.next_col <= plan.num_cols
    &&& p.counts.len() == plan.num_cols
    &&& forall|c: int| 0 <= c < plan.num_cols ==> #[trigger] p.counts[c] == frames_in(plan, c, p.frame)
    &&& p.frame < plan.num_frames ==> p.next_col <= column_of(plan, p.frame as int)
}

/// What remains to be done: frames to analyse plus columns to emit.
pub open spec fn remaining(plan: FramePlan, p: Progress) -> nat {
    ((plan.num_frames - p.frame) + (plan.num_cols - p.next_col)) as nat
}

/// One step of the schedule: the columns that lie before the current
/// frame's column are emitted first, then the frame is analysed; when all
/// frames are done the remaining columns are emitted.
pub open spec fn next_step(plan: FramePlan, p: Progress) -> (Progress, Step) {
    let emit = (
        Progress { next_col: p.next_col + 1, ..p },
        Step::Emit {
            col: p.next_col as usize,
            divisor: if p.counts[p.next_col as int] >= 1 {
                p.counts[p.next_col as int]
            } else {
                1usize
            },
        },
    );
    if p.frame < plan.num_frames {
        let col = column_of(plan, p.frame as int);
        if p.next_col < col {
            emit
        } else {
            (
                Progress {
                    frame: p.frame + 1,
                    counts: p.counts.update(col, (p.counts[col] + 1) as usize),
                    ..p
                },
                Step::Analyze {
                    frame: p.frame as usize,
                    col: col as usize,
                    offset: offset_of(plan, p.frame as int) as usize,
                },
            )
        }
    } else if p.next_col < plan.num_cols {
        emit
    } else {
        (p, Step::Finished)
    }
}

/// A step keeps the state consistent, finishes exactly when nothing
/// remains, and otherwise makes progress.
pub proof fn lemma_next_step(plan: FramePlan, p: Progress)
    requires
        plan.wf(),
        progress_wf(plan, p),
    ensures
        ({
            let (q, s) = next_step(plan, p);
            &&& progress_wf(plan, q)
            &&& (s is Finished <==> remaining(plan, p) == 0)
            &&& s is Finished ==> q == p
            &&& !(s is Finished) ==> remaining(plan, q) + 1 == remaining(plan, p)
            &&& s matches Step::Emit { col, divisor } ==> {
                &&& col == p.next_col
                &&& q.next_col == p.next_col + 1
                &&& q.frame == p.frame
                &&& divisor == divisor_of(plan, col as int)
            }
            &&& s matches Step::Analyze { frame, col, offset } ==> {
                &&& frame == p.frame
                &&& q.frame == p.frame + 1
                &&& q.next_col == p.next_col
                &&& col == column_of(plan, frame as int)
                &&& p.next_col <= col < plan.num_cols
                &&& offset == frame * plan.hop
                &&& offset + FFT_SIZE <= plan.total
            }
        }),
{
    let (q, s) = next_step(plan, p);
    let n = plan.num_frames as int;
    if p.frame < plan.num_frames {
        let col = column_of(plan, p.frame as int);
        lemma_column_monotone(plan, p.frame as int, p.frame as int);
        if p.next_col < col {
            let c = p.next_col as int;
            assert forall|f: int| p.frame <= f < n implies column_of(plan, f) != c by {
                lemma_column_monotone(plan, p.frame as int, f);
            }
            lemma_frames_in_stable(plan, c, p.frame, n as nat);
        } else {
            lemma_window_in_bounds(plan, p.frame as int);
            lemma_frames_in_bound(plan, col, p.frame);
            assert forall|c: int| 0 <= c < plan.num_cols implies #[trigger] q.counts[c]
                == frames_in(plan, c, q.frame) by {
                assert(frames_in(plan, c, q.frame) == frames_in(plan, c, p.frame) + if column_of(
                    plan,
                    p.frame as int,
                ) == c {
                    1nat
                } else {
                    0nat
                });
            }
            if q.frame < n {
                lemma_column_monotone(plan, p.frame as int, q.frame as int);
            }
        }
    } else if p.next_col < plan.num_cols {
    }
}

/// The steps taken from state `p`, `n` of them.
pub open spec fn trace(plan: FramePlan, p: Progress, n: nat) -> Seq<Step>
    decreases n,
{
    if n == 0 {
        Seq::empty()
    } else {
        let (q, s) = next_step(plan, p);
        seq![s] + trace(plan, q, (n - 1) as nat)
    }
}

/// The state reached from `p` after `n` steps.
pub open spec fn after(plan: FramePlan, p: Progress, n: nat) -> Progress
    decreases n,
{
    if n == 0 {
        p
    } else {
        after(plan, next_step(plan, p).0, (n - 1) as nat)
    }
}

/// The columns emitted by a sequence of steps, in order.
pub open spec fn emitted(steps: Seq<Step>) -> Seq<usize>
    decreases steps.len(),
{
    if steps.len() == 0 {
        Seq::empty()
    } else {
        let rest = emitted(steps.drop_first());
        match steps[0] {
            Step::Emit { col, .. } => seq![col] + rest,
            _ => rest,
        }
    }
}

/// The frames analysed by a sequence of steps, in order.
pub open spec fn analyzed(steps: Seq<Step>) -> Seq<usize>
    decreases steps.len(),
{
    if steps.len() == 0 {
        Seq::empty()
    } else {
        let rest = analyzed(steps.drop_first());
        match steps[0] {
            Step::Analyze { frame, .. } => seq![frame] + rest,
            _ => rest,
        }
    }
}

/// The numbers `from`, `from + 1`, ..., up to but not including `to`.
pub open spec fn range_seq(from: nat, to: nat) -> Seq<usize> {
    Seq::new((to - from) as nat, |i: int| (from + i) as usize)
}

/// Every step of a run is the step that its own state calls for: an
/// emitted column's divisor counts all the frames of that column, and an
/// analysed frame goes to its column at its offset inside the stream.
pub open spec fn steps_sound(plan: FramePlan, steps: Seq<Step>) -> bool {
    forall|i: int|
        0 <= i < steps.len() ==> match #[trigger] steps[i] {
            Step::Emit { col, divisor } => col < plan.num_cols && divisor == divisor_of(
                plan,
                col as int,
            ),
            Step::Analyze { frame, col, offset } => {
                &&& frame < plan.num_frames
                &&& col == column_of(plan, frame as int)
                &&& offset == frame * plan.hop
                &&& offset + FFT_SIZE <= plan.total
            },
            Step::Finished => false,
        }
}

/// No frame is added to a column after that column has been emitted.
pub open spec fn emitted_columns_final(steps: Seq<Step>) -> bool {
    forall|i: int, j: int|
        0 <= i < j < steps.len() && #[trigger] steps[i] is Emit && #[trigger] steps[j] is Analyze
            ==> steps[i]->Emit_col < steps[j]->Analyze_col
}

proof fn lemma_run_from(plan: FramePlan, p: Progress)
    requires
        plan.wf(),
        progress_wf(plan, p),
    ensures
        ({
            let steps = trace(plan, p, remaining(plan, p));
            let end = after(plan, p, remaining(plan, p));
            &&& emitted(steps) =~= range_seq(p.next_col, plan.num_cols as nat)
            &&& analyzed(steps) =~= range_seq(p.frame, plan.num_frames as nat)
            &&& steps_sound(plan, steps)
            &&& emitted_columns_final(steps)
            &&& forall|i: int|
                0 <= i < steps.len() ==> match #[trigger] steps[i] {
                    Step::Emit { col, .. } => p.next_col <= col,
                    Step::Analyze { col, .. } => p.next_col <= col,
                    Step::Finished => true,
                }
            &&& progress_wf(plan, end)
            &&& remaining(plan, end) == 0
            &&& next_step(plan, end).1 is Finished
        }),
    decreases remaining(plan, p),
{
    let r = remaining(plan, p);
    lemma_next_step(plan, p);
    let (q, s) = next_step(plan, p);
    if r == 0 {
        assert(trace(plan, p, 0) =~= Seq::<Step>::empty());
    } else {
        lemma_run_from(plan, q);
        let rest = trace(plan, q, (r - 1) as nat);
        let steps = trace(plan, p, r);
        assert(steps =~= seq![s] + rest);
        assert(steps.drop_first() =~= rest);
        assert(steps[0] == s);
        assert forall|i: int| 0 <= i < steps.len() implies match #[trigger] steps[i] {
            Step::Emit { col, .. } => p.next_col <= col,
            Step::Analyze { col, .. } => p.next_col <= col,
            Step::Finished => true,
        } by {
            if i > 0 {
                assert(steps[i] == rest[i - 1]);
            }
        }
        assert forall|i: int| 0 <= i < steps.len() implies match #[trigger] steps[i] {
            Step::Emit { col, divisor } => col < plan.num_cols && divisor == divisor_of(
                plan,
                col as int,
            ),
            Step::Analyze { frame, col, offset } => {
                &&& frame < plan.num_frames
                &&& col == column_of(plan, frame as int)
                &&& offset == frame * plan.hop
                &&& offset + FFT_SIZE <= plan.total
            },
            Step::Finished => false,
        } by {
            if i > 0 {
                assert(steps[i] == rest[i - 1]);
            }
        }
        assert forall|i: int, j: int|
            0 <= i < j < steps.len() && #[trigger] steps[i] is Emit && #[trigger] steps[j] is Analyze
                implies steps[i]->Emit_col < steps[j]->Analyze_col by {
            assert(steps[j] == rest[j - 1]);
            if i > 0 {
                assert(steps[i] == rest[i - 1]);
            }
        }
        match s {
            Step::Emit { col, .. } => {
                assert(emitted(steps) =~= seq![col] + emitted(rest));
                assert(analyzed(steps) =~= analyzed(rest));
            },
            Step::Analyze { frame, .. } => {
                assert(emitted(steps) =~= emitted(rest));
                assert(analyzed(steps) =~= seq![frame] + analyzed(rest));
            },
            Step::Finished => {},
        }
    }
}

/// A whole run: starting from nothing, the schedule finishes after
/// `num_frames + num_cols` steps; it analyses the frames `0, 1, ...` in
/// order, each exactly once, and emits the columns `0, 1, ...` in order,
/// each exactly once; every emitted column has received all of its frames,
/// no frame goes to a column that has been emitted, and every window lies
/// inside the stream.
pub proof fn lemma_complete_run(plan: FramePlan)
    requires
        plan.wf(),
    ensures
        ({
            let n = (plan.num_frames + plan.num_cols) as nat;
            let steps = trace(plan, initial_progress(plan), n);
            &&& remaining(plan, initial_progress(plan)) == n
            &&& emitted(steps) =~= range_seq(0, plan.num_cols as nat)
            &&& analyzed(steps) =~= range_seq(0, plan.num_frames as nat)
            &&& steps_sound(plan, steps)
            &&& emitted_columns_final(steps)
            &&& next_step(plan, after(plan, initial_progress(plan), n)).1 is Finished
        }),
{
    let p = initial_progress(plan);
    assert(progress_wf(plan, p)) by {
        lemma_column_monotone(plan, 0, 0);
    }
    lemma_run_from(plan, p);
}

/// An analysis in progress.
pub struct Analyzer {
    plan: FramePlan,
    frame: usize,
    next_col: usize,
    counts: Vec<usize>,
}

impl Analyzer {
    /// The plan this analysis follows.
    pub closed spec fn plan(&self) -> FramePlan {
        self.plan
    }

    /// The abstract state of this analysis.
    pub closed spec fn progress(&self) -> Progress {
        Progress { frame: self.frame as nat, next_col: self.next_col as nat, counts: self.counts@ }
    }

    pub open spec fn wf(&self) -> bool {
        self.plan().wf() && progress_wf(self.plan(), self.progress())
    }

    /// Starts an analysis: no frame analysed, no column emitted.
    pub fn new(plan: FramePlan) -> (a: Analyzer)
        requires
            plan.wf(),
        ensures
            a.wf(),
            a.plan() == plan,
            a.progress() == initial_progress(plan),
    {
        let mut counts: Vec<usize> = Vec::new();
        let mut i: usize = 0;
        while i < plan.num_cols
            invariant
                i <= plan.num_cols,
                counts@.len() == i,
                forall|k: int| 0 <= k < i ==> counts@[k] == 0,
            decreases plan.num_cols - i,
        {
            counts.push(0);
            i += 1;
        }
        let a = Analyzer { plan, frame: 0, next_col: 0, counts };
        assert(a.progress().counts =~= initial_progress(plan).counts);
        proof {
            lemma_column_monotone(plan, 0, 0);
        }
        a
    }

    /// Decides the next step and records it as done.
    pub fn step(&mut self) -> (s: Step)
        requires
            old(self).wf(),
        ensures
            final(self).wf(),
            final(self).plan() == old(self).plan(),
            (final(self).progress(), s) == next_step(old(self).plan(), old(self).progress()),
            s is Finished <==> remaining(old(self).plan(), old(self).progress()) == 0,
            !(s is Finished) ==> remaining(final(self).plan(), final(self).progress()) + 1
                == remaining(old(self).plan(), old(self).progress()),
            s matches Step::Emit { col, divisor } ==> {
                &&& col == old(self).progress().next_col
                &&& divisor == divisor_of(old(self).plan(), col as int)
            },
            s matches Step::Analyze { frame, col, offset } ==> {
                &&& frame == old(self).progress().frame
                &&& col == column_of(old(self).plan(), frame as int)
                &&& old(self).progress().next_col <= col < old(self).plan().num_cols
                &&& offset + FFT_SIZE <= old(self).plan().total
            },
    {
        proof {
            lemma_next_step(self.plan, self.progress());
        }
        if self.frame < self.plan.num_frames {
            let col = self.plan.column_for_frame(self.frame);
            if self.next_col < col {
                let c = self.next_col;
                let n = self.counts[c];
                self.next_col = c + 1;
                Step::Emit { col: c, divisor: if n >= 1 { n } else { 1 } }
            } else {
                let f = self.frame;
                let offset = self.plan.offset_for_frame(f);
                proof {
                    lemma_frames_in_bound(self.plan, col as int, self.frame as nat);
                }
                let n = self.counts[col];
                self.counts.set(col, n + 1);
                self.frame = f + 1;
                Step::Analyze { frame: f, col, offset }
            }
        } else if self.next_col < self.plan.num_cols {
            let c = self.next_col;
            let n = self.counts[c];
            self.next_col = c + 1;
            Step::Emit { col: c, divisor: if n >= 1 { n } else { 1 } }
        } else {
            Step::Finished
        }
    }
}

} // verus!
