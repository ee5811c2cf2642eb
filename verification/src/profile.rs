//! How often the stages of the solver ran, and for how long.
use vstd::prelude::*;

verus! {

/// A stage of the solver.
#[derive(Clone, Copy, Debug, PartialEq, Eq, Structural)]
pub enum MetricId {
    FrameConvert,
    VerifyDimensions,
    FlatBlockFinder,
    NoiseModelUpdate,
    UpdateLatestY,
    UpdateLatestCb,
    UpdateLatestCr,
    AddBlockObservationsY,
    AddBlockObservationsCb,
    AddBlockObservationsCr,
    AddNoiseStdY,
    AddNoiseStdCb,
    AddNoiseStdCr,
    CombineState,
    GrainParameters,
    SaveLatest,
    Finish,
}

/// The number of stages.
pub const METRIC_COUNT: usize = 17;

/// The place of a stage in the list of stages.
pub open spec fn place_of(id: MetricId) -> int {
    match id {
        MetricId::FrameConvert => 0,
        MetricId::VerifyDimensions => 1,
        MetricId::FlatBlockFinder => 2,
        MetricId::NoiseModelUpdate => 3,
        MetricId::UpdateLatestY => 4,
        MetricId::UpdateLatestCb => 5,
        MetricId::UpdateLatestCr => 6,
        MetricId::AddBlockObservationsY => 7,
        MetricId::AddBlockObservationsCb => 8,
        MetricId::AddBlockObservationsCr => 9,
        MetricId::AddNoiseStdY => 10,
        MetricId::AddNoiseStdCb => 11,
        MetricId::AddNoiseStdCr => 12,
        MetricId::CombineState => 13,
        MetricId::GrainParameters => 14,
        MetricId::SaveLatest => 15,
        MetricId::Finish => 16,
    }
}

/// The name of the stage at place `i`.
pub open spec fn label_of(i: int) -> &'static str {
    if i == 0 {
        "frame_convert"
    } else if i == 1 {
        "verify_dimensions"
    } else if i == 2 {
        "flat_block_finder"
    } else if i == 3 {
        "noise_model_update"
    } else if i == 4 {
        "update_latest_y"
    } else if i == 5 {
        "update_latest_cb"
    } else if i == 6 {
        "update_latest_cr"
    } else if i == 7 {
        "add_block_observations_y"
    } else if i == 8 {
        "add_block_observations_cb"
    } else if i == 9 {
        "add_block_observations_cr"
    } else if i == 10 {
        "add_noise_std_y"
    } else if i == 11 {
        "add_noise_std_cb"
    } else if i == 12 {
        "add_noise_std_cr"
    } else if i == 13 {
        "combine_state"
    } else if i == 14 {
        "grain_parameters"
    } else if i == 15 {
        "save_latest"
    } else {
        "finish"
    }
}

/// The place of a stage in the list of stages.
pub fn metric_index(id: MetricId) -> (i: usize)
    ensures
        i == place_of(id),
        i < METRIC_COUNT,
{
    match id {
        MetricId::FrameConvert => 0,
        MetricId::VerifyDimensions => 1,
        MetricId::FlatBlockFinder => 2,
        MetricId::NoiseModelUpdate => 3,
        MetricId::UpdateLatestY => 4,
        MetricId::UpdateLatestCb => 5,
        MetricId::UpdateLatestCr => 6,
        MetricId::AddBlockObservationsY => 7,
        MetricId::AddBlockObservationsCb => 8,
        MetricId::AddBlockObservationsCr => 9,
        MetricId::AddNoiseStdY => 10,
        MetricId::AddNoiseStdCb => 11,
        MetricId::AddNoiseStdCr => 12,
        MetricId::CombineState => 13,
        MetricId::GrainParameters => 14,
        MetricId::SaveLatest => 15,
        MetricId::Finish => 16,
    }
}

/// The name of the stage at place `i`.
pub fn metric_label(i: usize) -> (label: &'static str)
    requires
        i < METRIC_COUNT,
    ensures
        label == label_of(i as int),
{
    if i == 0 {
        "frame_convert"
    } else if i == 1 {
        "verify_dimensions"
    } else if i == 2 {
        "flat_block_finder"
    } else if i == 3 {
        "noise_model_update"
    } else if i == 4 {
        "update_latest_y"
    } else if i == 5 {
        "update_latest_cb"
    } else if i == 6 {
        "update_latest_cr"
    } else if i == 7 {
        "add_block_observations_y"
    } else if i == 8 {
        "add_block_observations_cb"
    } else if i == 9 {
        "add_block_observations_cr"
    } else if i == 10 {
        "add_noise_std_y"
    } else if i == 11 {
        "add_noise_std_cb"
    } else if i == 12 {
        "add_noise_std_cr"
    } else if i == 13 {
        "combine_state"
    } else if i == 14 {
        "grain_parameters"
    } else if i == 15 {
        "save_latest"
    } else {
        "finish"
    }
}

/// The total time that a stage took, and how often it ran.
#[derive(Clone, Copy, Debug, PartialEq, Eq, Structural)]
pub struct Metric {
    pub nanos: u64,
    pub count: u64,
}

/// `m` after one more run that took `elapsed` nanoseconds. A run counts for at most
/// `u64::MAX` nanoseconds, and both sums wrap around.
pub open spec fn recorded(m: Metric, elapsed: u128) -> Metric {
    let capped = if elapsed <= u64::MAX {
        elapsed as int
    } else {
        u64::MAX as int
    };
    Metric {
        nanos: ((m.nanos + capped) % 0x1_0000_0000_0000_0000) as u64,
        count: ((m.count + 1) % 0x1_0000_0000_0000_0000) as u64,
    }
}

impl Metric {
    /// A stage that has not run yet.
    pub fn new() -> (m: Self)
        ensures
            m.nanos == 0,
            m.count == 0,
    {
        Metric { nanos: 0, count: 0 }
    }

    /// Takes in one run that took `elapsed` nanoseconds.
    pub fn record(&mut self, elapsed: u128)
        ensures
            *final(self) == recorded(*old(self), elapsed),
    {
        let capped = if elapsed <= u64::MAX as u128 {
            elapsed as u64
        } else {
            u64::MAX
        };
        self.nanos = self.nanos.wrapping_add(capped);
        self.count = self.count.wrapping_add(1);
    }
}

/// Runs a stage.
pub fn time<T, F: FnOnce() -> T>(id: MetricId, f: F) -> (r: T)
    requires
        f.requires(()),
    ensures
        f.ensures((), r),
{
    f()
}

/// A line of the report.
pub struct ReportLine {
    pub label: &'static str,
    pub count: u64,
    pub nanos: u64,
}

/// The lines for the first `n` stages: one for each stage that ran, in order.
pub open spec fn report_lines(metrics: Seq<Metric>, n: int) -> Seq<ReportLine>
    decreases n,
{
    if n <= 0 {
        Seq::empty()
    } else {
        let lines = report_lines(metrics, n - 1);
        let m = metrics[n - 1];
        if m.count == 0 {
            lines
        } else {
            lines.push(ReportLine { label: label_of(n - 1), count: m.count, nanos: m.nanos })
        }
    }
}

/// The lines of the report on `metrics`, which lists all stages.
pub fn print_report(metrics: &Vec<Metric>) -> (lines: Vec<ReportLine>)
    requires
        metrics.len() == METRIC_COUNT,
    ensures
        lines@ == report_lines(metrics@, METRIC_COUNT as int),
{
    let mut lines: Vec<ReportLine> = Vec::new();
    let mut i: usize = 0;
    while i < METRIC_COUNT
        invariant
            i <= METRIC_COUNT,
            metrics.len() == METRIC_COUNT,
            lines@ == report_lines(metrics@, i as int),
        decreases METRIC_COUNT - i,
    {
        let m = metrics[i];
        if m.count != 0 {
            lines.push(ReportLine { label: metric_label(i), count: m.count, nanos: m.nanos });
        }
        i = i + 1;
    }
    lines
}

/// Every stage has a place of its own.
pub proof fn law_places_differ(a: MetricId, b: MetricId)
    requires
        a != b,
    ensures
        place_of(a) != place_of(b),
{
}

/// The report has a line for exactly those stages that ran.
pub proof fn law_report_is_complete(metrics: Seq<Metric>, n: int, i: int)
    requires
        0 <= i < n <= metrics.len(),
    ensures
        metrics[i].count != 0 ==> report_lines(metrics, n).contains(
            (ReportLine {
                label: label_of(i),
                count: metrics[i].count,
                nanos: metrics[i].nanos,
            }),
        ),
        forall|k: int|
            0 <= k < report_lines(metrics, n).len() ==> (#[trigger] report_lines(
                metrics,
                n,
            )[k]).count != 0,
    decreases n,
{
    let line = ReportLine {
        label: label_of(i),
        count: metrics[i].count,
        nanos: metrics[i].nanos,
    };
    if i < n - 1 {
        law_report_is_complete(metrics, n - 1, i);
    } else {
        lemma_lines_ran(metrics, n - 1);
    }
    let before = report_lines(metrics, n - 1);
    if metrics[i].count != 0 {
        if i < n - 1 {
            let k = choose|k: int| 0 <= k < before.len() && before[k] == line;
            assert(report_lines(metrics, n)[k] == line);
        } else {
            assert(report_lines(metrics, n).last() == line);
        }
    }
}

proof fn lemma_lines_ran(metrics: Seq<Metric>, n: int)
    ensures
        forall|k: int|
            0 <= k < report_lines(metrics, n).len() ==> (#[trigger] report_lines(
                metrics,
                n,
            )[k]).count != 0,
    decreases n,
{
    if n > 0 {
        lemma_lines_ran(metrics, n - 1);
        let before = report_lines(metrics, n - 1);
        assert forall|k: int| 0 <= k < report_lines(metrics, n).len() implies (
        #[trigger] report_lines(metrics, n)[k]).count != 0 by {
            if k < before.len() {
                assert(report_lines(metrics, n)[k] == before[k]);
            }
        }
    }
}

/// Runs add up: two of them count as two, and take as long as both together, in whatever order
/// they come.
pub proof fn law_runs_add_up(m: Metric, a: u128, b: u128)
    requires
        m.nanos + a + b <= u64::MAX,
        m.count + 2 <= u64::MAX,
    ensures
        recorded(recorded(m, a), b).nanos == m.nanos + a + b,
        recorded(recorded(m, a), b).count == m.count + 2,
        recorded(recorded(m, a), b) == recorded(recorded(m, b), a),
{
}

/// A run is never taken for longer than it was, nor for longer than can be counted.
pub proof fn law_long_runs(m: Metric, a: u128)
    requires
        m.nanos == 0,
    ensures
        recorded(m, a).nanos <= a,
        a >= u64::MAX ==> recorded(m, a).nanos == u64::MAX,
{
}

/// The stages are reported in order: those that come later are listed behind the others.
pub proof fn law_report_is_in_order(metrics: Seq<Metric>, m: int, n: int)
    requires
        0 <= m <= n <= metrics.len(),
    ensures
        report_lines(metrics, m).is_prefix_of(report_lines(metrics, n)),
    decreases n,
{
    if m < n {
        law_report_is_in_order(metrics, m, n - 1);
    }
}

/// The stages that run once for each plane.
pub open spec fn is_per_plane(y: MetricId, cb: MetricId, cr: MetricId) -> bool {
    ||| (y, cb, cr) == (MetricId::UpdateLatestY, MetricId::UpdateLatestCb, MetricId::UpdateLatestCr)
    ||| (y, cb, cr) == (
        MetricId::AddBlockObservationsY,
        MetricId::AddBlockObservationsCb,
        MetricId::AddBlockObservationsCr,
    )
    ||| (y, cb, cr) == (MetricId::AddNoiseStdY, MetricId::AddNoiseStdCb, MetricId::AddNoiseStdCr)
}

/// The planes of a stage are listed behind each other, and their names end in that of the plane.
pub proof fn law_plane_labels(y: MetricId, cb: MetricId, cr: MetricId)
    requires
        is_per_plane(y, cb, cr),
    ensures
        place_of(cb) == place_of(y) + 1,
        place_of(cr) == place_of(y) + 2,
        label_of(place_of(y))@.last() == 'y',
        label_of(place_of(cb))@ == label_of(place_of(y))@.drop_last().push('c').push('b'),
        label_of(place_of(cr))@ == label_of(place_of(y))@.drop_last().push('c').push('r'),
{
    reveal_strlit("update_latest_y");
    reveal_strlit("update_latest_cb");
    reveal_strlit("update_latest_cr");
    reveal_strlit("add_block_observations_y");
    reveal_strlit("add_block_observations_cb");
    reveal_strlit("add_block_observations_cr");
    reveal_strlit("add_noise_std_y");
    reveal_strlit("add_noise_std_cb");
    reveal_strlit("add_noise_std_cr");
}

} // verus!
