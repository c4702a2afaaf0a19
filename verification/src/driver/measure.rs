//! What one window measured.

use vstd::prelude::*;
use crate::about;
use crate::double;
use crate::double::Double;
use crate::driver::Arm;
use crate::driver::RunOptions;
use crate::driver::arm;
use crate::driver::figures;
use crate::driver::figures::Gc;
use crate::driver::figures::Latency;
use crate::driver::figures::Load;
use crate::driver::figures::Sustained;
use crate::driver::identity;
use crate::driver::load;
use crate::driver::note;
use crate::driver::window::LoadReport;
use crate::driver::window::QUIESCE_MAX_S;
use crate::driver::window::Quiesced;
use crate::entrant;
use crate::entrant::Container;
use crate::entrant::Role;
use crate::environment;
use crate::environment::Environment;
use crate::report::Flag;
use crate::report::Status;
use crate::sampler;
use crate::sampler::Samples;
use crate::sampler::SutCost;
use crate::serverside;
use crate::serverside::MergeActivity;
use crate::serverside::ServerSideCost;
use crate::serverside::ServerSideError;
use crate::serverside::Window;
use crate::text;

verus! {

// ---------------------------------------------------------------------------
// The series
// ---------------------------------------------------------------------------

/// The first of the containers that are started under the name.
pub open spec fn declared_for(name: Seq<char>, cs: Seq<Container>) -> Option<Container>
    decreases cs.len(),
{
    if cs.len() == 0 {
        None
    } else if arm::container_name(cs[0].name@) == name {
        Some(cs[0])
    } else {
        declared_for(name, cs.skip(1))
    }
}

/// Why the caps of a started container are not its declared ones. One that is
/// not declared has none to hold.
pub open spec fn series_refusal(arm: Arm, name: Seq<char>, meta: Seq<char>) -> Option<Seq<char>> {
    match declared_for(name, arm.entrant.containers()) {
        Some(c) => identity::caps_refusal(name, c, meta),
        None => None,
    }
}

/// The first refusal of a cap among the sampled containers.
pub open spec fn first_cap_refusal(arm: Arm, costs: Seq<(String, Samples)>) -> Option<Seq<char>>
    decreases costs.len(),
{
    if costs.len() == 0 {
        None
    } else {
        match first_cap_refusal(arm, costs.drop_last()) {
            Some(m) => Some(m),
            None => series_refusal(arm, costs.last().0@, costs.last().1.meta@),
        }
    }
}

/// The containers whose series amounts to no cost.
pub open spec fn unsummarised(costs: Seq<(String, Samples)>) -> Seq<Seq<char>>
    decreases costs.len(),
{
    if costs.len() == 0 {
        Seq::empty()
    } else {
        let before = unsummarised(costs.drop_last());
        if SutCost::summary(costs.last().1.rows@) is None {
            before.push(costs.last().0@)
        } else {
            before
        }
    }
}

/// The refusal of an arm that was not measured whole.
pub open spec fn partial(names: Seq<Seq<char>>) -> Seq<char> {
    "the cgroup sampler produced no usable summary for "@ + text::join(names, ", "@)
        + " — fewer than two readable samples, so there is no CPU delta and no measurement for that container, and an arm is only measurable whole"@
}

/// Why the sampled series of an arm are no measurement, if they are none.
pub open spec fn judgement(arm: Arm, costs: Seq<(String, Samples)>) -> Option<Seq<char>> {
    match first_cap_refusal(arm, costs) {
        Some(m) => Some(m),
        None => if unsummarised(costs).len() > 0 {
            Some(partial(unsummarised(costs)))
        } else {
            None
        },
    }
}

/// What each container cost.
pub open spec fn parts_of(costs: Seq<(String, Samples)>) -> Seq<(Seq<char>, Option<SutCost>)> {
    costs.map_values(|c: (String, Samples)| (c.0@, SutCost::summary(c.1.rows@)))
}

/// Names and costs, the names as characters.
pub open spec fn part_views(parts: Seq<(String, Option<SutCost>)>) -> Seq<
    (Seq<char>, Option<SutCost>),
> {
    parts.map_values(|p: (String, Option<SutCost>)| (p.0@, p.1))
}

/// The costs alone.
pub open spec fn costs_alone(costs: Seq<(String, Samples)>) -> Seq<Option<SutCost>> {
    costs.map_values(|c: (String, Samples)| SutCost::summary(c.1.rows@))
}

fn declared<'a>(name: &str, cs: &'a [Container]) -> (r: Option<&'a Container>)
    ensures
        match r {
            Some(c) => declared_for(name@, cs@) == Some(*c),
            None => declared_for(name@, cs@) is None,
        },
{
    let mut i: usize = 0;
    assert(cs@.skip(0) =~= cs@);
    while i < cs.len()
        invariant
            i <= cs.len(),
            declared_for(name@, cs@) == declared_for(name@, cs@.skip(i as int)),
        decreases cs.len() - i,
    {
        assert(cs@.skip(i as int).skip(1) =~= cs@.skip(i + 1));
        if text::same(arm::name_of_container(cs[i].name.as_str()).as_str(), name) {
            return Some(&cs[i]);
        }
        i = i + 1;
    }
    None
}

proof fn lemma_cap_refusal_stands(arm: Arm, costs: Seq<(String, Samples)>, n: int)
    requires
        0 <= n <= costs.len(),
        first_cap_refusal(arm, costs.take(n)) is Some,
    ensures
        first_cap_refusal(arm, costs) == first_cap_refusal(arm, costs.take(n)),
    decreases costs.len() - n,
{
    if n == costs.len() {
        assert(costs.take(n) =~= costs);
    } else {
        assert(costs.take(n + 1).drop_last() =~= costs.take(n));
        lemma_cap_refusal_stands(arm, costs, n + 1);
    }
}

fn check_caps(arm: &Arm<'_>, costs: &[(String, Samples)]) -> (r: Result<(), String>)
    ensures
        match r {
            Ok(_) => first_cap_refusal(*arm, costs@) is None,
            Err(e) => first_cap_refusal(*arm, costs@) == Some(e@),
        },
{
    let mut i: usize = 0;
    assert(costs@.take(0) =~= Seq::empty());
    while i < costs.len()
        invariant
            i <= costs.len(),
            first_cap_refusal(*arm, costs@.take(i as int)) is None,
        decreases costs.len() - i,
    {
        assert(costs@.take(i + 1).drop_last() =~= costs@.take(i as int));
        let name = costs[i].0.as_str();
        let found = match &arm.entrant.spec.envelope {
            Some(e) => declared(name, e.containers.as_slice()),
            None => None,
        };
        if let Some(c) = found {
            if let Err(m) = identity::assert_arm_caps(name, c, costs[i].1.meta.as_str()) {
                proof {
                    lemma_cap_refusal_stands(*arm, costs@, i + 1);
                }
                return Err(m);
            }
        }
        i = i + 1;
    }
    assert(costs@.take(i as int) =~= costs@);
    Ok(())
}

/// Judges the sampled series of an arm: each container ran under its declared
/// caps, and each of them amounts to a cost. A partial arm is not a cheap arm.
pub fn judge(arm: &Arm<'_>, costs: &[(String, Samples)]) -> (r: Result<
    Vec<(String, Option<SutCost>)>,
    String,
>)
    ensures
        match r {
            Ok(parts) => judgement(*arm, costs@) is None && part_views(parts@) == parts_of(costs@),
            Err(e) => judgement(*arm, costs@) == Some(e@),
        },
{
    if let Err(e) = check_caps(arm, costs) {
        return Err(e);
    }
    let mut parts: Vec<(String, Option<SutCost>)> = Vec::new();
    let mut missing: Vec<String> = Vec::new();
    let mut i: usize = 0;
    assert(text::strings(missing@) =~= unsummarised(costs@.take(0)));
    assert(part_views(parts@) =~= parts_of(costs@).take(0));
    while i < costs.len()
        invariant
            i <= costs.len(),
            text::strings(missing@) == unsummarised(costs@.take(i as int)),
            part_views(parts@) == parts_of(costs@).take(i as int),
        decreases costs.len() - i,
    {
        assert(costs@.take(i + 1).drop_last() =~= costs@.take(i as int));
        let ghost was = part_views(parts@);
        let cost = costs[i].1.summarise();
        if cost.is_none() {
            text::push_text(&mut missing, costs[i].0.as_str());
        }
        let name = costs[i].0.as_str().to_owned();
        parts.push((name, cost));
        proof {
            assert(part_views(parts@) =~= was.push((name@, cost)));
            assert(parts_of(costs@)[i as int] == (name@, cost));
            assert(parts_of(costs@).take(i + 1) =~= was.push((name@, cost)));
        }
        i = i + 1;
    }
    assert(costs@.take(i as int) =~= costs@);
    assert(parts_of(costs@).take(i as int) =~= parts_of(costs@));
    if missing.len() > 0 {
        assert(text::strings(missing@).len() == missing@.len());
        let mut m = "the cgroup sampler produced no usable summary for ".to_owned();
        m.append(text::joined(missing.as_slice(), ", ").as_str());
        m.append(
            " — fewer than two readable samples, so there is no CPU delta and no measurement for that container, and an arm is only measurable whole",
        );
        return Err(m);
    }
    assert(text::strings(missing@).len() == 0);
    Ok(parts)
}

/// The cost of an arm: what its containers cost together, with the footprint
/// that they had at one instant.
pub open spec fn arm_cost_of(costs: Seq<(String, Samples)>) -> Option<SutCost> {
    match SutCost::summed(costs_alone(costs)) {
        None => None,
        Some(c) => Some(
            SutCost {
                peak_anon_bytes: figures::footprint(costs, c.peak_anon_bytes as int) as u128,
                ..c
            },
        ),
    }
}

proof fn lemma_longest_fits(parts: Seq<Option<SutCost>>)
    ensures
        0 <= sampler::longest(parts) <= u64::MAX,
    decreases parts.len(),
{
    if parts.len() > 0 {
        lemma_longest_fits(parts.drop_last());
    }
}

/// The cost of an arm over its window.
pub fn arm_cost(costs: &[(String, Samples)]) -> (r: Result<SutCost, String>)
    requires
        sampler::latest(sampler::each_readable(figures::rows_of_each(costs@))) matches Some(t)
            ==> t < u64::MAX,
    ensures
        match r {
            Ok(c) => arm_cost_of(costs@) == Some(c) && c.window_ms > 0,
            Err(e) => arm_cost_of(costs@) is None && e@
                == "the arm's containers did not summarise into one cost"@,
        },
{
    let mut parts: Vec<Option<SutCost>> = Vec::new();
    let mut i: usize = 0;
    assert(costs_alone(costs@).take(0) =~= parts@);
    while i < costs.len()
        invariant
            i <= costs.len(),
            parts@ == costs_alone(costs@).take(i as int),
            forall|k: int|
                0 <= k < parts@.len() ==> ((#[trigger] parts@[k]) matches Some(p)
                    ==> p.is_reading()),
        decreases costs.len() - i,
    {
        let cost = costs[i].1.summarise();
        let ghost was = parts@;
        parts.push(cost);
        proof {
            assert(costs_alone(costs@)[i as int] == cost);
            assert(costs_alone(costs@).take(i + 1) =~= was.push(cost));
        }
        i = i + 1;
    }
    assert(costs_alone(costs@).take(i as int) =~= costs_alone(costs@));
    proof {
        sampler::readings_fit(parts@);
        lemma_longest_fits(parts@);
    }
    match SutCost::sum(parts.as_slice()) {
        None => Err("the arm's containers did not summarise into one cost".to_owned()),
        Some(c) => {
            let mut cost = c;
            cost.peak_anon_bytes = figures::arm_peak_anon(costs, c.peak_anon_bytes);
            Ok(cost)
        },
    }
}

/// The first container of the data plane.
pub open spec fn first_data_plane(cs: Seq<Container>) -> Option<Container>
    decreases cs.len(),
{
    if cs.len() == 0 {
        None
    } else if cs[0].role == Role::DataPlane {
        Some(cs[0])
    } else {
        first_data_plane(cs.skip(1))
    }
}

/// The network name of the container that does the arm's work.
pub open spec fn data_plane_of(arm: Arm) -> Option<Seq<char>> {
    match first_data_plane(arm.entrant.containers()) {
        Some(c) => Some(arm::container_name(c.name@)),
        None => None,
    }
}

proof fn lemma_first_data_plane(cs: Seq<Container>, i: int)
    requires
        0 <= i < cs.len(),
        cs[i].role == Role::DataPlane,
        forall|j: int| 0 <= j < i ==> (#[trigger] cs[j]).role != Role::DataPlane,
    ensures
        first_data_plane(cs) == Some(cs[i]),
    decreases cs.len(),
{
    if i > 0 {
        assert(cs[0].role != Role::DataPlane);
        assert forall|j: int| 0 <= j < i - 1 implies (#[trigger] cs.skip(1)[j]).role
            != Role::DataPlane by {
            assert(cs[j + 1].role != Role::DataPlane);
        }
        lemma_first_data_plane(cs.skip(1), i - 1);
    }
}

proof fn lemma_no_data_plane(cs: Seq<Container>)
    requires
        forall|j: int| 0 <= j < cs.len() ==> (#[trigger] cs[j]).role != Role::DataPlane,
    ensures
        first_data_plane(cs) is None,
    decreases cs.len(),
{
    if cs.len() > 0 {
        assert(cs[0].role != Role::DataPlane);
        assert forall|j: int| 0 <= j < cs.skip(1).len() implies (#[trigger] cs.skip(1)[j]).role
            != Role::DataPlane by {
            assert(cs[j + 1].role != Role::DataPlane);
        }
        lemma_no_data_plane(cs.skip(1));
    }
}

/// The network name of the container that does the arm's work.
pub fn data_plane_name(arm: &Arm<'_>) -> (r: Option<String>)
    ensures
        match r {
            Some(s) => data_plane_of(*arm) == Some(s@),
            None => data_plane_of(*arm) is None,
        },
{
    let ghost cs = arm.entrant.containers();
    match arm.entrant.data_plane() {
        Some(c) => {
            proof {
                let i = choose|i: int|
                    {
                        &&& 0 <= i < cs.len()
                        &&& #[trigger] cs[i] == *c
                        &&& forall|j: int|
                            0 <= j < i ==> (#[trigger] cs[j]).role != Role::DataPlane
                    };
                lemma_first_data_plane(cs, i);
            }
            Some(arm::name_of_container(c.name.as_str()))
        },
        None => {
            proof {
                lemma_no_data_plane(cs);
            }
            None
        },
    }
}

/// The cost of the first part with the name.
pub open spec fn cost_named(parts: Seq<(String, Option<SutCost>)>, name: Seq<char>) -> Option<
    SutCost,
>
    decreases parts.len(),
{
    if parts.len() == 0 {
        None
    } else if parts[0].0@ == name {
        parts[0].1
    } else {
        cost_named(parts.skip(1), name)
    }
}

/// The share of the data plane in the cost, where an arm has one.
pub fn data_plane_cost(arm: &Arm<'_>, parts: &[(String, Option<SutCost>)]) -> (r: Option<SutCost>)
    ensures
        r == (match data_plane_of(*arm) {
            Some(name) => cost_named(parts@, name),
            None => None,
        }),
{
    let name = match data_plane_name(arm) {
        None => {
            return None;
        },
        Some(n) => n,
    };
    let mut i: usize = 0;
    assert(parts@.skip(0) =~= parts@);
    while i < parts.len()
        invariant
            i <= parts.len(),
            data_plane_of(*arm) == Some(name@),
            cost_named(parts@, name@) == cost_named(parts@.skip(i as int), name@),
        decreases parts.len() - i,
    {
        assert(parts@.skip(i as int).skip(1) =~= parts@.skip(i + 1));
        if text::same(parts[i].0.as_str(), name.as_str()) {
            return parts[i].1;
        }
        i = i + 1;
    }
    None
}

// ---------------------------------------------------------------------------
// The load
// ---------------------------------------------------------------------------

/// What was offered to the arm, and what landed of it.
#[derive(Clone, Copy, Debug, PartialEq, Eq, Structural)]
pub enum Held {
    /// The row count at the instant at which the corpus was exhausted.
    Drain {
        /// Rows.
        rows: u64,
    },
    /// A window of a stream.
    Sustained {
        /// Rows that landed inside the window.
        rows: u64,
        /// What the producer offered.
        report: LoadReport,
        /// How many threads offered it.
        threads: u64,
        /// The latency over the window.
        latency: Latency,
    },
}

impl Held {
    /// Rows that landed inside the window.
    pub open spec fn landed(self) -> u64 {
        match self {
            Held::Drain { rows } => rows,
            Held::Sustained { rows, .. } => rows,
        }
    }

    /// Rows that landed inside the window.
    pub fn rows(&self) -> (n: u64)
        ensures
            n == self.landed(),
    {
        match self {
            Held::Drain { rows } => *rows,
            Held::Sustained { rows, .. } => *rows,
        }
    }
}

/// The interval over which the rows of a sustained window are counted: the
/// sampler's own, so that numerator and denominator rest on one interval.
pub fn counting_window(costs: &[(String, Samples)]) -> (r: Result<(u64, u64), String>)
    ensures
        match r {
            Ok((from_ms, to_ms)) => figures::sampled_window(costs@) == Some(
                (from_ms as int, to_ms as int),
            ),
            Err(e) => figures::sampled_window(costs@) is None && e@
                == "the sampler produced no readable timestamps, so there is no window to count rows or latency over"@,
        },
{
    match figures::sampler_window_ms(costs) {
        Some(w) => Ok(w),
        None => Err(
            "the sampler produced no readable timestamps, so there is no window to count rows or latency over".to_owned(),
        ),
    }
}

/// The size of the workload.
#[derive(Clone, Copy, Debug, PartialEq, Eq, Structural)]
pub struct Workload {
    /// Rows that the whole corpus yields.
    pub expected_rows: u64,
    /// Messages of the corpus.
    pub batches: u64,
}

/// What a sustained window measured beside its cost. The offered rows are the
/// offered messages at the workload's own yield, and the share is that of the
/// rows consumed over the same window.
pub open spec fn sustained_of(
    w: Workload,
    cost: SutCost,
    rows: u64,
    report: LoadReport,
    latency: Latency,
) -> Sustained {
    let offered = double::of(report.target_rate as nat).times(
        figures::yield_of(w.expected_rows as int, w.batches as int),
    );
    Sustained {
        offered_rows_per_s: offered,
        kept_up_share: if Double::zero(false).lt(offered) {
            cost.throughput(rows).over(offered)
        } else {
            Double::zero(false)
        },
        max_schedule_lag_ms: report.max_schedule_lag_ms,
        latency,
    }
}

/// What a sustained window measured beside its cost.
pub fn sustained(
    w: &Workload,
    cost: &SutCost,
    rows: u64,
    report: &LoadReport,
    latency: Latency,
) -> (s: Sustained)
    ensures
        s == sustained_of(*w, *cost, rows, *report, latency),
{
    let offered: Double = Double::of(report.target_rate as u128).multiply(
        figures::rows_per_message(w.expected_rows, w.batches),
    );
    Sustained {
        offered_rows_per_s: offered,
        kept_up_share: if Double::nothing().below(offered) {
            cost.rows_per_s(rows).divide(offered)
        } else {
            Double::nothing()
        },
        max_schedule_lag_ms: report.max_schedule_lag_ms,
        latency,
    }
}

/// What a note says of a sustained window.
pub open spec fn sustained_words(report: LoadReport, threads: u64, s: Sustained) -> Seq<char> {
    "; sustained "@ + text::decimal(report.target_rate as nat) + " msgs/s offered from "@
        + text::decimal(threads as nat) + " producer thread(s), "@ + text::decimal(
        report.sent as nat,
    ) + " messages produced, achieved "@ + report.achieved_share.fixed(3)
        + " of schedule, worst schedule lag "@ + report.max_schedule_lag_ms.fixed(0)
        + "ms; kept up "@ + s.kept_up_share.fixed(3)
}

/// What leads the note of a saturated arm: the sentence that a reader must not
/// skim past. The figures are real, and they are not what their obvious reading
/// says.
pub open spec fn warning(load: Load) -> Seq<char> {
    match load {
        Load::Sustained(s) if !s.followed() => "SATURATED — the arm consumed "@
            + s.kept_up_share.times(double::of(100)).fixed(0)
            + "% of the offered rate, so the latency figures are published as backlog_age_* and describe how far behind it fell, NOT latency at the offered rate; "@,
        _ => Seq::empty(),
    }
}

fn warning_of(load: &Load) -> (m: String)
    ensures
        m@ == warning(*load),
{
    let mut m = String::new();
    if let Load::Sustained(s) = load {
        if !s.kept_up() {
            m.append("SATURATED — the arm consumed ");
            m.append(s.kept_up_share.multiply(Double::of(100)).to_fixed(0).as_str());
            m.append(
                "% of the offered rate, so the latency figures are published as backlog_age_* and describe how far behind it fell, NOT latency at the offered rate; ",
            );
            assert(m@ =~= warning(*load));
        }
    }
    m
}

fn push_sustained(out: &mut String, report: &LoadReport, threads: u64, s: &Sustained)
    ensures
        final(out)@ == old(out)@ + sustained_words(*report, threads, *s),
{
    let mut m = "; sustained ".to_owned();
    text::push_decimal(&mut m, report.target_rate as u128);
    m.append(" msgs/s offered from ");
    text::push_decimal(&mut m, threads as u128);
    m.append(" producer thread(s), ");
    text::push_decimal(&mut m, report.sent as u128);
    m.append(" messages produced, achieved ");
    m.append(report.achieved_share.to_fixed(3).as_str());
    m.append(" of schedule, worst schedule lag ");
    m.append(report.max_schedule_lag_ms.to_fixed(0).as_str());
    m.append("ms; kept up ");
    m.append(s.kept_up_share.to_fixed(3).as_str());
    out.append(m.as_str());
}

// ---------------------------------------------------------------------------
// Headroom
// ---------------------------------------------------------------------------

/// What an arm achieved, in the units in which the ceilings are stated.
#[derive(Debug)]
pub struct Achieved {
    /// Messages per second.
    pub msgs_per_s: Double,
    /// Rows per second.
    pub rows_per_s: Double,
    /// The format of the arm's inserts, empty where it reports none.
    pub wire_format: String,
    /// Whether every insert also runs objects of the arm's own, for which no
    /// ceiling was measured.
    pub server_side_transform: bool,
}

/// Messages per second: the rows at the workload's own yield.
pub open spec fn message_rate(w: Workload, cost: SutCost, rows: u64) -> Double {
    let per_message = figures::yield_of(w.expected_rows as int, w.batches as int);
    if Double::zero(false).lt(per_message) {
        cost.throughput(rows).over(per_message)
    } else {
        Double::zero(false)
    }
}

/// The format that an arm reports of its inserts.
pub open spec fn wire_format_of(arm: Arm) -> Seq<char> {
    if arm.variant.reports@.contains_key("wire_format"@) {
        arm.variant.reports@["wire_format"@]@
    } else {
        Seq::empty()
    }
}

/// What an arm achieved over its window.
pub fn achieved(arm: &Arm<'_>, cost: &SutCost, rows: u64, w: &Workload) -> (a: Achieved)
    ensures
        a.msgs_per_s == message_rate(*w, *cost, rows),
        a.rows_per_s == cost.throughput(rows),
        a.wire_format@ == wire_format_of(*arm),
        a.server_side_transform == (match arm.entrant.spec.clickhouse {
            Some(ch) => !environment::is_blank(ch.arm_sql@),
            None => false,
        }),
{
    let rows_per_s: Double = cost.rows_per_s(rows);
    let per_message: Double = figures::rows_per_message(w.expected_rows, w.batches);
    let msgs_per_s: Double = if Double::nothing().below(per_message) {
        rows_per_s.divide(per_message)
    } else {
        Double::nothing()
    };
    let wire_format = match arm.variant.reports.get("wire_format") {
        Some(s) => s.as_str().to_owned(),
        None => String::new(),
    };
    assert(wire_format@ =~= wire_format_of(*arm));
    Achieved {
        msgs_per_s,
        rows_per_s,
        wire_format,
        server_side_transform: match &arm.entrant.spec.clickhouse {
            Some(ch) => !environment::blank(ch.arm_sql.as_str()),
            None => false,
        },
    }
}

/// What the ceilings say of an arm.
#[derive(Debug)]
pub struct Headroom {
    /// The shares, for the note.
    pub summary: String,
    /// Whether the arm is above the limit of one of them.
    pub infra_bound: bool,
    /// Whether every ceiling could be checked. An arm that was not gated has
    /// cleared nothing.
    pub proven: bool,
    /// The ceiling on the arm's inserts, where one applies.
    pub ingest_rows_per_s: Option<u64>,
}

/// What a note says of the headroom.
pub open spec fn headroom_words(h: Headroom) -> Seq<char> {
    "; headroom "@ + h.summary@ + if h.infra_bound {
        "; "@ + note::infra_bound_words()
    } else {
        Seq::empty()
    }
}

// ---------------------------------------------------------------------------
// The target's own account
// ---------------------------------------------------------------------------

/// The tables that an arm's inserts are attributed to: the workload's, then those
/// that the entrant declares.
pub open spec fn tables_of(arm: Arm, database: Seq<char>, table: Seq<char>) -> Seq<Seq<char>> {
    let own = match arm.entrant.spec.clickhouse {
        Some(ch) => text::strings(ch.attribution_tables@),
        None => Seq::empty(),
    };
    seq![database + "."@ + table] + own.map_values(|t: Seq<char>| database + "."@ + t)
}

/// The tables that an arm's inserts are attributed to, qualified in this one
/// place.
pub fn attribution_tables(arm: &Arm<'_>, database: &str, table: &str) -> (out: Vec<String>)
    ensures
        text::strings(out@) == tables_of(*arm, database@, table@),
{
    let mut out: Vec<String> = Vec::new();
    text::push_string(&mut out, serverside::qualify(database, table));
    if let Some(ch) = &arm.entrant.spec.clickhouse {
        let ghost own = text::strings(ch.attribution_tables@).map_values(
            |t: Seq<char>| database@ + "."@ + t,
        );
        let ghost head = text::strings(out@);
        let mut i: usize = 0;
        assert(head + own.take(0) =~= head);
        while i < ch.attribution_tables.len()
            invariant
                i <= ch.attribution_tables.len(),
                own == text::strings(ch.attribution_tables@).map_values(
                    |t: Seq<char>| database@ + "."@ + t,
                ),
                text::strings(out@) == head + own.take(i as int),
            decreases ch.attribution_tables.len() - i,
        {
            let name = serverside::qualify(database, ch.attribution_tables[i].as_str());
            let ghost n = name@;
            text::push_string(&mut out, name);
            assert(own[i as int] == n);
            assert(head + own.take(i + 1) =~= (head + own.take(i as int)).push(n));
            i = i + 1;
        }
        assert(own.take(i as int) =~= own);
    }
    assert(text::strings(out@) =~= tables_of(*arm, database@, table@));
    out
}

/// Whether an arm's inserts reach the target as forwarded queries.
pub fn forwards_inserts(arm: &Arm<'_>) -> (r: bool)
    ensures
        r == (match arm.entrant.spec.clickhouse {
            Some(ch) => ch.forwarded_inserts,
            None => false,
        }),
{
    match &arm.entrant.spec.clickhouse {
        Some(ch) => ch.forwarded_inserts,
        None => false,
    }
}

/// The readable rows of every container, one container after the other.
pub open spec fn readable_of(costs: Seq<(String, Samples)>) -> Seq<sampler::Sample>
    decreases costs.len(),
{
    if costs.len() == 0 {
        Seq::empty()
    } else {
        readable_of(costs.drop_last()) + sampler::readable_rows(costs.last().1.rows@)
    }
}

/// What the target is asked of a window.
#[derive(Debug)]
pub struct Questions {
    /// The tables that the inserts are attributed to.
    pub tables: Vec<String>,
    /// The window that they are attributed over.
    pub window: Window,
    /// The query for the inserts.
    pub inserts: String,
    /// The query for the merges.
    pub merges: String,
}

impl Questions {
    /// Whether these are the questions about an arm over its sampled window.
    pub open spec fn are_of(
        self,
        arm: Arm,
        costs: Seq<(String, Samples)>,
        database: Seq<char>,
        table: Seq<char>,
    ) -> bool {
        let tables = tables_of(arm, database, table);
        &&& text::strings(self.tables@) == tables
        &&& self.window.from_ms == serverside::or_zero(serverside::min_time(readable_of(costs)))
        &&& self.window.to_ms == serverside::or_zero(serverside::max_time(readable_of(costs)))
        &&& self.window.from_ms < self.window.to_ms
        &&& self.inserts@ == serverside::attribution_text(
            tables,
            self.window,
            arm.entrant.spec.clickhouse matches Some(ch) && ch.forwarded_inserts,
        )
        &&& self.merges@ == serverside::merge_text(tables, self.window)
    }
}

/// The series of an arm, without the names of its containers.
fn series_alone<'a>(costs: &'a [(String, Samples)]) -> (out: Vec<&'a Samples>)
    ensures
        serverside::all_readable(out@) == readable_of(costs@),
{
    let mut out: Vec<&'a Samples> = Vec::new();
    let mut i: usize = 0;
    assert(costs@.take(0) =~= Seq::empty());
    while i < costs.len()
        invariant
            i <= costs.len(),
            serverside::all_readable(out@) == readable_of(costs@.take(i as int)),
        decreases costs.len() - i,
    {
        assert(costs@.take(i + 1).drop_last() =~= costs@.take(i as int));
        let ghost was = out@;
        out.push(&costs[i].1);
        assert(out@.drop_last() =~= was);
        i = i + 1;
    }
    assert(costs@.take(i as int) =~= costs@);
    out
}

fn borrowed<'a>(v: &'a Vec<String>) -> (out: Vec<&'a str>)
    ensures
        text::strs(out@) == text::strings(v@),
{
    let mut out: Vec<&'a str> = Vec::new();
    let mut i: usize = 0;
    while i < v.len()
        invariant
            i <= v.len(),
            text::strs(out@) == text::strings(v@).take(i as int),
        decreases v.len() - i,
    {
        let ghost was = text::strs(out@);
        let s: &'a str = v[i].as_str();
        out.push(s);
        assert(text::strs(out@) =~= was.push(s@));
        assert(text::strings(v@).take(i + 1) =~= was.push(v@[i as int]@));
        i = i + 1;
    }
    assert(text::strings(v@).take(i as int) =~= text::strings(v@));
    out
}

/// What the target is asked about an arm over its sampled window, or why there is
/// no window to ask about.
pub fn ask_server(arm: &Arm<'_>, costs: &[(String, Samples)], database: &str, table: &str) -> (r:
    Result<Questions, ServerSideError>)
    ensures
        match r {
            Ok(q) => q.are_of(*arm, costs@, database@, table@),
            Err(e) => serverside::or_zero(serverside::max_time(readable_of(costs@)))
                <= serverside::or_zero(serverside::min_time(readable_of(costs@)))
                && (e matches ServerSideError::EmptyWindow { from_ms, to_ms } && from_ms
                == serverside::or_zero(serverside::min_time(readable_of(costs@))) && to_ms
                == serverside::or_zero(serverside::max_time(readable_of(costs@)))),
        },
{
    let series = series_alone(costs);
    let window = match Window::spanning(series.as_slice()) {
        Ok(w) => w,
        Err(e) => {
            return Err(e);
        },
    };
    let tables = attribution_tables(arm, database, table);
    let names = borrowed(&tables);
    let inserts = serverside::attribution_sql(names.as_slice(), window, forwards_inserts(arm));
    let merges = serverside::merge_sql(names.as_slice(), window);
    Ok(Questions { tables, window, inserts, merges })
}

/// How the server answered one question, and how it answered the flush before it.
#[derive(Debug)]
pub struct Answer {
    /// To flushing its logs.
    pub flushed: Result<String, String>,
    /// To the question.
    pub body: Result<String, String>,
}

/// The inserts that an answer lists, where they amount to a cost.
pub open spec fn attributed(answer: Answer) -> Option<Seq<serverside::AttributedQuery>> {
    match answer.body {
        Err(_) => None,
        Ok(body) => match serverside::rows_of(text::lines(body@)) {
            Err(_) => None,
            Ok(rows) => if !serverside::is_flushed(answer.flushed) || serverside::is_exception_text(
                body@,
            ) || serverside::finished(rows) == 0 || serverside::unattributable(rows)
                || serverside::without_cpu(rows) == serverside::finished(rows) {
                None
            } else {
                Some(rows)
            },
        },
    }
}

/// The merge work that an answer states.
pub open spec fn merged(answer: Answer) -> Option<MergeActivity> {
    match answer.body {
        Err(_) => None,
        Ok(body) => if !serverside::is_flushed(answer.flushed) || serverside::is_exception_text(
            body@,
        ) {
            None
        } else {
            match serverside::merges_of(text::trim(body@)) {
                Ok(m) => Some(m),
                Err(_) => None,
            }
        },
    }
}

/// What the target answers of a window. An answer that gives no figure leaves the
/// record without it: a record that said zero would be the most flattering of
/// wrong ones.
pub fn measure_server_side(q: &Questions, inserts: &Answer, merges: &Answer) -> (r: (
    Option<ServerSideCost>,
    Option<MergeActivity>,
))
    requires
        inserts.body matches Ok(body) ==> (serverside::rows_of(text::lines(body@)) matches Ok(rows)
            ==> rows.len() <= 0x7fff_ffff_ffff_ffff),
    ensures
        match r.0 {
            Some(c) => attributed(*inserts) matches Some(rows) && c.of_rows(rows) && c.window
                == q.window && text::strings(c.tables@) == text::strings(q.tables@),
            None => attributed(*inserts) is None,
        },
        r.1 == merged(*merges),
{
    let names = borrowed(&q.tables);
    let cost = match serverside::measure(
        &inserts.flushed,
        &inserts.body,
        names.as_slice(),
        q.window,
    ) {
        Ok(c) => Some(c),
        Err(_) => None,
    };
    let work = match serverside::measure_merges(&merges.flushed, &merges.body) {
        Ok(m) => Some(m),
        Err(_) => None,
    };
    (cost, work)
}

/// What is said of the inserts' cost: how it was obtained, or why there is none.
pub open spec fn cost_words(r: Result<ServerSideCost, ServerSideError>) -> Seq<char> {
    match r {
        Ok(c) => "  "@ + c.account(),
        Err(e) => "  no server-side figure: "@ + e.text(),
    }
}

/// What is said of the inserts' cost, from how the server answered.
pub fn cost_notice(q: &Questions, inserts: &Answer) -> (s: String)
    requires
        q.window.from_ms <= q.window.to_ms,
        inserts.body matches Ok(body) ==> (serverside::rows_of(text::lines(body@)) matches Ok(rows)
            ==> rows.len() <= 0x7fff_ffff_ffff_ffff),
    ensures
        exists|r: Result<ServerSideCost, ServerSideError>|
            #![trigger cost_words(r)]
            serverside::states_cost(
                r,
                inserts.flushed,
                inserts.body,
                text::strings(q.tables@),
                q.window,
            ) && s@ == cost_words(r),
{
    let names = borrowed(&q.tables);
    let r = serverside::measure(&inserts.flushed, &inserts.body, names.as_slice(), q.window);
    let ghost words = cost_words(r);
    match r {
        Ok(c) => {
            let mut s = "  ".to_owned();
            s.append(c.provenance().as_str());
            assert(s@ == words);
            s
        },
        Err(e) => {
            let mut s = "  no server-side figure: ".to_owned();
            s.append(e.message().as_str());
            assert(s@ == words);
            s
        },
    }
}

/// What is said of the merges: what they came to, or why that is not known.
pub open spec fn merge_words(r: Result<MergeActivity, ServerSideError>) -> Seq<char> {
    match r {
        Ok(m) => "  merges: "@ + text::decimal(m.rows_merged as nat) + " row(s) over "@
            + text::decimal(m.duration_ms as nat) + " ms, completed in the window"@,
        Err(e) => "  no merge figure: "@ + e.text(),
    }
}

/// What is said of the merges, from how the server answered.
pub fn merge_notice(merges: &Answer) -> (s: String)
    ensures
        exists|r: Result<MergeActivity, ServerSideError>|
            #![trigger merge_words(r)]
            serverside::states_merges(r, merges.flushed, merges.body) && s@ == merge_words(r),
{
    let r = serverside::measure_merges(&merges.flushed, &merges.body);
    let ghost words = merge_words(r);
    match r {
        Ok(m) => {
            let mut s = "  merges: ".to_owned();
            text::push_decimal(&mut s, m.rows_merged as u128);
            s.append(" row(s) over ");
            text::push_decimal(&mut s, m.duration_ms as u128);
            s.append(" ms, completed in the window");
            assert(s@ == words);
            s
        },
        Err(e) => {
            let mut s = "  no merge figure: ".to_owned();
            s.append(e.message().as_str());
            assert(s@ == words);
            s
        },
    }
}

// ---------------------------------------------------------------------------
// The gates
// ---------------------------------------------------------------------------

/// How many messages the gates of a run examine, within the memory that the
/// profile gives to ClickHouse.
pub open spec fn gate_window_of(env: Environment, opts: RunOptions) -> int {
    load::gate_batches(
        opts.batches as int,
        match entrant::memory_bytes(env.spec.infra.clickhouse.memory@) {
            Some(n) => n as int,
            None => 0,
        },
    )
}

/// How many messages the gates of a run examine. A memory limit that cannot be
/// read affords them one.
pub fn gate_window(env: &Environment, opts: &RunOptions) -> (n: u64)
    ensures
        n == gate_window_of(*env, *opts),
{
    let memory: u64 = match entrant::parse_memory(env.spec.infra.clickhouse.memory.as_str()) {
        Some(n) => n,
        None => 0,
    };
    load::gate_window_batches(opts.batches, memory)
}

/// What the correctness gates found.
#[derive(Debug)]
pub struct Gates {
    /// Why the arm's output is not correct, if it is not.
    pub failure: Option<String>,
    /// Duplicate rows that they counted.
    pub duplicates: u64,
}

/// The refusal of an arm that failed a gate. A failure on a pipeline that never
/// settled is another claim than one on a pipeline that did.
pub open spec fn gate_refusal(why: Seq<char>, settled: Quiesced) -> Seq<char> {
    "correctness gate failed: "@ + why + if settled.settled {
        Seq::empty()
    } else {
        " (the pipeline had NOT settled after "@ + text::decimal(QUIESCE_MAX_S as nat)
            + "s, so the "@
            + "gate may have read a frontier that was still filling in; re-run with a shorter --window or a lower --rate before believing this)"@
    }
}

/// What a note says of the gates.
pub open spec fn gate_words(gate_batches: u64, settled: Quiesced) -> Seq<char> {
    "; gate window "@ + text::decimal(gate_batches as nat) + " batches, quiesced at "@
        + text::decimal(settled.rows as nat) + " rows"@ + if settled.settled {
        Seq::empty()
    } else {
        " (NOT settled — the quiesce budget ran out)"@
    }
}

// ---------------------------------------------------------------------------
// The measurement
// ---------------------------------------------------------------------------

/// What one window produced, when it produced anything at all.
#[derive(Debug)]
pub struct Measurement {
    /// The arm's cost over the window.
    pub cost: SutCost,
    /// The data plane's share of it.
    pub data_plane: Option<SutCost>,
    /// Rows that landed inside the window.
    pub rows: u64,
    /// Rows per second over the window that `cost` rests on.
    pub rows_per_s: Double,
    /// Duplicate rows that the gates counted.
    pub duplicates: u64,
    /// Seconds that the target needed to become quiet before the window.
    pub settle_s: Double,
    /// Whether the arm outran a ceiling.
    pub status: Status,
    /// What the record says of how it was measured.
    pub note: String,
    /// Caveats that the measurement itself established.
    pub flags: Vec<Flag>,
    /// The half that only one mode can produce.
    pub load: Load,
    /// What the arm's inserts cost the target. Absent means not measured, never
    /// that they cost nothing.
    pub server: Option<ServerSideCost>,
    /// Merge work in the window, where the target could be asked.
    pub merges: Option<MergeActivity>,
    /// What the arm's collectors reported.
    pub gc: Gc,
    /// The ceiling that the arm was held to, zero where none applies.
    pub ceiling_rows_per_s: u64,
}

/// Everything that was observed of a window.
#[derive(Debug)]
pub struct Observations {
    /// The arm's cost.
    pub cost: SutCost,
    /// The data plane's share of it.
    pub data_plane: Option<SutCost>,
    /// What the arm's collectors reported.
    pub gc: Gc,
    /// What was offered, and what landed of it.
    pub held: Held,
    /// What the ceilings say.
    pub headroom: Headroom,
    /// What the inserts cost the target.
    pub server: Option<ServerSideCost>,
    /// Merge work in the window.
    pub merges: Option<MergeActivity>,
    /// Messages that the gates looked at.
    pub gate_batches: u64,
    /// Where the pipeline settled.
    pub settled: Quiesced,
    /// Seconds that the target needed to become quiet.
    pub settle_s: Double,
}

/// What an account begins with: how much was sampled, and what the collectors
/// were.
pub open spec fn opening(cost: SutCost, gc: Gc) -> Seq<char> {
    text::decimal(cost.samples as nat) + " sampler samples over "@ + cost.seconds().fixed(1)
        + "s"@ + (if cost.unreadable > 0 {
        "; "@ + text::decimal(cost.unreadable as nat) + " unreadable samples discarded"@
    } else {
        Seq::empty()
    }) + (match gc.data_plane {
        Some(s) => "; "@ + s.account(),
        None => Seq::empty(),
    }) + (match gc.control_plane {
        Some(s) => "; control plane "@ + s.account(),
        None => Seq::empty(),
    })
}

/// The half of a measurement that depends on the mode.
pub open spec fn load_of(o: Observations, w: Workload) -> Load {
    match o.held {
        Held::Drain { .. } => Load::Drain,
        Held::Sustained { rows, report, latency, .. } => Load::Sustained(
            sustained_of(w, o.cost, rows, report, latency),
        ),
    }
}

/// What a note says of the load.
pub open spec fn load_words(o: Observations, w: Workload) -> Seq<char> {
    match o.held {
        Held::Drain { .. } => Seq::empty(),
        Held::Sustained { rows, report, threads, latency } => sustained_words(
            report,
            threads,
            sustained_of(w, o.cost, rows, report, latency),
        ),
    }
}

/// What a note says of the target's account.
pub open spec fn server_words(server: Option<ServerSideCost>) -> Seq<char> {
    match server {
        Some(c) => "; "@ + c.account(),
        None => Seq::empty(),
    }
}

/// The caveats that a measurement establishes.
pub open spec fn caveats(o: Observations, w: Workload) -> Seq<Flag> {
    let saturated = match load_of(o, w) {
        Load::Sustained(s) => !s.followed(),
        Load::Drain => false,
    };
    (if saturated {
        seq![Flag::Saturated]
    } else {
        Seq::empty()
    }) + (if o.headroom.proven {
        Seq::empty()
    } else {
        seq![Flag::HeadroomUnproven]
    })
}

impl Observations {
    /// Whether the window that the target was asked about ends no earlier than it
    /// begins.
    pub open spec fn are_sound(self) -> bool {
        match self.server {
            Some(c) => c.window.from_ms <= c.window.to_ms,
            None => true,
        }
    }
}

impl Measurement {
    /// Whether this is what the observations amount to, with the duplicates that
    /// the gates counted.
    pub open spec fn is_of(self, o: Observations, w: Workload, duplicates: u64) -> bool {
        &&& self.cost == o.cost
        &&& self.data_plane == o.data_plane
        &&& self.rows == o.held.landed()
        &&& self.rows_per_s == o.cost.throughput(o.held.landed())
        &&& self.duplicates == duplicates
        &&& self.settle_s == o.settle_s
        &&& self.status == (if o.headroom.infra_bound {
            Status::InfraBound
        } else {
            Status::Passed
        })
        &&& self.note@ == warning(load_of(o, w)) + opening(o.cost, o.gc) + load_words(o, w)
            + headroom_words(o.headroom) + server_words(o.server) + gate_words(
            o.gate_batches,
            o.settled,
        )
        &&& self.flags@ == caveats(o, w)
        &&& self.load == load_of(o, w)
        &&& self.server == o.server
        &&& self.merges == o.merges
        &&& self.gc == o.gc
        &&& self.ceiling_rows_per_s == (match o.headroom.ingest_rows_per_s {
            Some(n) => n,
            None => 0,
        })
    }
}

fn opening_note(cost: &SutCost, gc: &Gc) -> (s: String)
    ensures
        s@ == opening(*cost, *gc),
{
    let mut s = text::decimal_of(cost.samples as u128);
    s.append(" sampler samples over ");
    s.append(cost.window_s().to_fixed(1).as_str());
    s.append("s");
    let ghost a = s@;
    if cost.unreadable > 0 {
        s.append("; ");
        text::push_decimal(&mut s, cost.unreadable);
        s.append(" unreadable samples discarded");
        assert(s@ =~= a + ("; "@ + text::decimal(cost.unreadable as nat)
            + " unreadable samples discarded"@));
    } else {
        assert(s@ =~= a + Seq::empty());
    }
    let ghost b = s@;
    if let Some(g) = &gc.data_plane {
        s.append("; ");
        s.append(g.provenance().as_str());
        assert(s@ =~= b + ("; "@ + g.account()));
    } else {
        assert(s@ =~= b + Seq::empty());
    }
    let ghost c = s@;
    if let Some(g) = &gc.control_plane {
        s.append("; control plane ");
        s.append(g.provenance().as_str());
        assert(s@ =~= c + ("; control plane "@ + g.account()));
    } else {
        assert(s@ =~= c + Seq::empty());
    }
    s
}

fn headroom_note(h: &Headroom) -> (s: String)
    ensures
        s@ == headroom_words(*h),
{
    let mut s = "; headroom ".to_owned();
    s.append(h.summary.as_str());
    let ghost a = s@;
    if h.infra_bound {
        s.append("; ");
        s.append(note::infra_bound_notice().as_str());
        assert(s@ =~= a + ("; "@ + note::infra_bound_words()));
    } else {
        assert(s@ =~= a + Seq::empty());
    }
    s
}

fn gate_note(gate_batches: u64, settled: &Quiesced) -> (s: String)
    ensures
        s@ == gate_words(gate_batches, *settled),
{
    let mut s = "; gate window ".to_owned();
    text::push_decimal(&mut s, gate_batches as u128);
    s.append(" batches, quiesced at ");
    text::push_decimal(&mut s, settled.rows as u128);
    s.append(" rows");
    if settled.settled {
        assert(s@ =~= s@ + Seq::empty());
    } else {
        s.append(" (NOT settled — the quiesce budget ran out)");
    }
    s
}

/// Draws the measurement from what was observed of a window, or refuses the arm
/// for what the gates say. An arm that loses rows is faster for the wrong
/// reason.
pub fn conclude(o: Observations, w: &Workload, gates: Result<Gates, String>) -> (r: Result<
    Measurement,
    String,
>)
    requires
        o.are_sound(),
    ensures
        match gates {
            Err(e) => r matches Err(m) && m@ == e@,
            Ok(g) => match g.failure {
                Some(why) => r matches Err(m) && m@ == gate_refusal(why@, o.settled),
                None => r matches Ok(m) && m.is_of(o, *w, g.duplicates),
            },
        },
{
    let gates = match gates {
        Err(e) => {
            return Err(e);
        },
        Ok(g) => g,
    };
    if let Some(why) = &gates.failure {
        let mut m = "correctness gate failed: ".to_owned();
        m.append(why.as_str());
        let ghost a = m@;
        if o.settled.settled {
            assert(m@ =~= a + Seq::empty());
        } else {
            m.append(" (the pipeline had NOT settled after ");
            text::push_decimal(&mut m, QUIESCE_MAX_S as u128);
            m.append("s, so the ");
            m.append(
                "gate may have read a frontier that was still filling in; re-run with a shorter --window or a lower --rate before believing this)",
            );
            assert(m@ =~= gate_refusal(why@, o.settled));
        }
        return Err(m);
    }
    let mut flags: Vec<Flag> = Vec::new();
    let load = match &o.held {
        Held::Drain { .. } => Load::Drain,
        Held::Sustained { rows, report, latency, .. } => {
            let s = sustained(w, &o.cost, *rows, report, *latency);
            if !s.kept_up() {
                flags.push(Flag::Saturated);
            }
            Load::Sustained(s)
        },
    };
    let mut note = warning_of(&load);
    note.append(opening_note(&o.cost, &o.gc).as_str());
    match (&o.held, &load) {
        (Held::Sustained { report, threads, .. }, Load::Sustained(s)) => {
            push_sustained(&mut note, report, *threads, s);
        },
        _ => {
            assert(note@ =~= note@ + Seq::empty());
        },
    }
    assert(note@ == warning(load) + opening(o.cost, o.gc) + load_words(o, *w));
    note.append(headroom_note(&o.headroom).as_str());
    if !o.headroom.proven {
        flags.push(Flag::HeadroomUnproven);
    }
    assert(flags@ =~= caveats(o, *w));
    if let Some(c) = &o.server {
        let mut m = "; ".to_owned();
        m.append(c.provenance().as_str());
        note.append(m.as_str());
    } else {
        assert(note@ =~= note@ + Seq::empty());
    }
    note.append(gate_note(o.gate_batches, &o.settled).as_str());
    let rows: u64 = o.held.rows();
    Ok(
        Measurement {
            cost: o.cost,
            data_plane: o.data_plane,
            rows,
            rows_per_s: o.cost.rows_per_s(rows),
            duplicates: gates.duplicates,
            settle_s: o.settle_s,
            status: if o.headroom.infra_bound {
                Status::InfraBound
            } else {
                Status::Passed
            },
            note,
            flags,
            load,
            server: o.server,
            merges: o.merges,
            gc: o.gc,
            ceiling_rows_per_s: match o.headroom.ingest_rows_per_s {
                Some(n) => n,
                None => 0,
            },
        },
    )
}

// ---------------------------------------------------------------------------
// Laws
// ---------------------------------------------------------------------------

/// One container without a cost leaves the arm without a measurement.
pub proof fn a_partial_arm_is_refused(arm: Arm, costs: Seq<(String, Samples)>, i: int)
    requires
        0 <= i < costs.len(),
        SutCost::summary(costs[i].1.rows@) is None,
    ensures
        judgement(arm, costs) is Some,
{
    lemma_one_missing(costs, i);
}

proof fn lemma_one_missing(costs: Seq<(String, Samples)>, i: int)
    requires
        0 <= i < costs.len(),
        SutCost::summary(costs[i].1.rows@) is None,
    ensures
        unsummarised(costs).len() > 0,
    decreases costs.len(),
{
    if i < costs.len() - 1 {
        lemma_one_missing(costs.drop_last(), i);
    }
}

/// An arm that could not be gated carries the caveat that says so, and one that
/// fell behind the offered rate carries its own.
pub proof fn a_caveat_is_never_dropped(o: Observations, w: Workload)
    ensures
        !o.headroom.proven ==> caveats(o, w).contains(Flag::HeadroomUnproven),
        (load_of(o, w) matches Load::Sustained(s) && !s.followed()) ==> caveats(o, w).contains(
            Flag::Saturated,
        ),
{
    let c = caveats(o, w);
    if load_of(o, w) matches Load::Sustained(s) && !s.followed() {
        assert(c[0] == Flag::Saturated);
    }
    if !o.headroom.proven {
        assert(c[c.len() - 1] == Flag::HeadroomUnproven);
    }
}

/// A saturated arm is marked three ways at once and never by some of them alone:
/// by its flag, by the names of its latency figures, and by what leads its note.
pub proof fn a_saturated_arm_is_marked_three_ways(
    m: Measurement,
    o: Observations,
    w: Workload,
    duplicates: u64,
    s: Sustained,
)
    requires
        m.is_of(o, w, duplicates),
        m.load == Load::Sustained(s),
    ensures
        m.flags@.contains(Flag::Saturated) == !s.followed(),
        !s.followed() ==> s.prefix() == "backlog_age"@ && m.note@.take(9) == "SATURATED"@,
        s.followed() ==> s.prefix() == "latency"@ && m.note@.len() >= opening(o.cost, o.gc).len()
            && m.note@.take(opening(o.cost, o.gc).len() as int) == opening(o.cost, o.gc),
{
    if s.followed() {
        let first = opening(o.cost, o.gc);
        assert(warning(m.load) == Seq::<char>::empty());
        assert(m.note@.take(first.len() as int) =~= first);
    } else {
        reveal_strlit("SATURATED");
        reveal_strlit("SATURATED — the arm consumed ");
        assert(m.flags@[0] == Flag::Saturated);
        assert(m.note@.take(9) =~= "SATURATED"@);
    }
}

/// The share of the offered rate relates two rates over one window: the rows that
/// the arm consumed per second, and those that it was offered.
pub proof fn the_share_relates_the_two_rates(
    w: Workload,
    cost: SutCost,
    rows: u64,
    report: LoadReport,
    latency: Latency,
)
    ensures
        ({
            let s = sustained_of(w, cost, rows, report, latency);
            &&& Double::zero(false).lt(s.offered_rows_per_s) ==> s.kept_up_share
                == cost.throughput(rows).over(s.offered_rows_per_s)
            &&& !Double::zero(false).lt(s.offered_rows_per_s) ==> s.kept_up_share == Double::zero(
                false,
            )
        }),
{
}

proof fn lemma_counted(
    rows: Seq<serverside::AttributedQuery>,
    p: spec_fn(serverside::AttributedQuery) -> bool,
    i: int,
)
    requires
        0 <= i < rows.len(),
        p(rows[i]),
    ensures
        serverside::count(rows, p) > 0,
    decreases rows.len(),
{
    if i < rows.len() - 1 {
        lemma_counted(rows.drop_last(), p, i);
    }
}

/// A cost of the target's is never invented: it rests on logs that were flushed,
/// and on completed inserts each of which wrote rows and none of which took the
/// asynchronous path, where the work is charged to no insert.
pub proof fn a_server_figure_rests_on_completed_synchronous_inserts(
    answer: Answer,
    rows: Seq<serverside::AttributedQuery>,
)
    requires
        attributed(answer) == Some(rows),
    ensures
        serverside::is_flushed(answer.flushed),
        serverside::finished(rows) > 0,
        forall|i: int|
            0 <= i < rows.len() && (#[trigger] rows[i]).row_type is Finish ==> rows[i].written_rows
                > 0 && !(rows[i].events.async_insert_query matches Some(n) && n > 0),
{
    let p = |r: serverside::AttributedQuery|
        r.row_type is Finish && (r.events.async_insert_query matches Some(n) && n > 0);
    let q = |r: serverside::AttributedQuery| r.row_type is Finish && r.written_rows == 0;
    assert(serverside::asynchronous(rows) == serverside::count(rows, p));
    assert(serverside::empty_handed(rows) == serverside::count(rows, q));
    assert forall|i: int|
        0 <= i < rows.len() && (#[trigger] rows[i]).row_type is Finish implies rows[i].written_rows
        > 0 && !(rows[i].events.async_insert_query matches Some(n) && n > 0) by {
        if p(rows[i]) {
            lemma_counted(rows, p, i);
        }
        if q(rows[i]) {
            lemma_counted(rows, q, i);
        }
    }
}

/// Without an accepted flush the target gives no figure at all.
pub proof fn an_unflushed_log_gives_no_figure(answer: Answer)
    requires
        !serverside::is_flushed(answer.flushed),
    ensures
        attributed(answer) is None,
        merged(answer) is None,
{
}

/// Sampled series are a measurement only where every container ran under its
/// declared caps and every series amounts to a cost; and where both hold of each,
/// they are one.
pub proof fn an_arm_is_judged_container_by_container(arm: Arm, costs: Seq<(String, Samples)>)
    ensures
        (judgement(arm, costs) is None) == (forall|i: int|
            0 <= i < costs.len() ==> SutCost::summary((#[trigger] costs[i]).1.rows@) is Some
                && series_refusal(arm, costs[i].0@, costs[i].1.meta@) is None),
{
    lemma_each_cap(arm, costs);
    lemma_each_summary(costs);
    if judgement(arm, costs) is None {
        assert forall|i: int| 0 <= i < costs.len() implies SutCost::summary(
            (#[trigger] costs[i]).1.rows@,
        ) is Some && series_refusal(arm, costs[i].0@, costs[i].1.meta@) is None by {}
    }
}

proof fn lemma_each_cap(arm: Arm, costs: Seq<(String, Samples)>)
    ensures
        (first_cap_refusal(arm, costs) is None) == (forall|i: int|
            0 <= i < costs.len() ==> series_refusal(
                arm,
                (#[trigger] costs[i]).0@,
                costs[i].1.meta@,
            ) is None),
    decreases costs.len(),
{
    if costs.len() > 0 {
        let less = costs.drop_last();
        lemma_each_cap(arm, less);
        assert(costs[costs.len() - 1] == costs.last());
        assert(forall|i: int| 0 <= i < less.len() ==> #[trigger] less[i] == costs[i]);
        if first_cap_refusal(arm, costs) is None {
            assert forall|i: int| 0 <= i < costs.len() implies series_refusal(
                arm,
                (#[trigger] costs[i]).0@,
                costs[i].1.meta@,
            ) is None by {
                if i < less.len() {
                    assert(less[i] == costs[i]);
                }
            }
        } else if forall|i: int|
            0 <= i < costs.len() ==> series_refusal(
                arm,
                (#[trigger] costs[i]).0@,
                costs[i].1.meta@,
            ) is None {
            assert forall|i: int| 0 <= i < less.len() implies series_refusal(
                arm,
                (#[trigger] less[i]).0@,
                less[i].1.meta@,
            ) is None by {
                assert(less[i] == costs[i]);
            }
        }
    }
}

proof fn lemma_each_summary(costs: Seq<(String, Samples)>)
    ensures
        (unsummarised(costs).len() == 0) == (forall|i: int|
            0 <= i < costs.len() ==> SutCost::summary((#[trigger] costs[i]).1.rows@) is Some),
    decreases costs.len(),
{
    if costs.len() > 0 {
        let less = costs.drop_last();
        lemma_each_summary(less);
        assert(costs[costs.len() - 1] == costs.last());
        if unsummarised(costs).len() == 0 {
            assert forall|i: int| 0 <= i < costs.len() implies SutCost::summary(
                (#[trigger] costs[i]).1.rows@,
            ) is Some by {
                if i < less.len() {
                    assert(less[i] == costs[i]);
                }
            }
        } else if forall|i: int|
            0 <= i < costs.len() ==> SutCost::summary((#[trigger] costs[i]).1.rows@) is Some {
            assert forall|i: int| 0 <= i < less.len() implies SutCost::summary(
                (#[trigger] less[i]).1.rows@,
            ) is Some by {
                assert(less[i] == costs[i]);
            }
        }
    }
}

/// A started container is held to its own declaration, and to no other's, where the
/// names tell the declared containers apart.
pub proof fn a_container_is_held_to_its_own_declaration(
    arm: Arm,
    i: int,
    meta: Seq<char>,
)
    requires
        0 <= i < arm.entrant.containers().len(),
        forall|j: int, k: int|
            0 <= j < k < arm.entrant.containers().len() ==> arm::container_name(
                (#[trigger] arm.entrant.containers()[j]).name@,
            ) != arm::container_name((#[trigger] arm.entrant.containers()[k]).name@),
    ensures
        ({
            let c = arm.entrant.containers()[i];
            series_refusal(arm, arm::container_name(c.name@), meta) == identity::caps_refusal(
                arm::container_name(c.name@),
                c,
                meta,
            )
        }),
{
    lemma_declared(arm.entrant.containers(), i);
}

proof fn lemma_declared(cs: Seq<Container>, i: int)
    requires
        0 <= i < cs.len(),
        forall|j: int, k: int|
            0 <= j < k < cs.len() ==> arm::container_name((#[trigger] cs[j]).name@)
                != arm::container_name((#[trigger] cs[k]).name@),
    ensures
        declared_for(arm::container_name(cs[i].name@), cs) == Some(cs[i]),
    decreases cs.len(),
{
    if i > 0 {
        assert(arm::container_name(cs[0].name@) != arm::container_name(cs[i].name@));
        let rest = cs.skip(1);
        assert forall|j: int, k: int|
            0 <= j < k < rest.len() implies arm::container_name((#[trigger] rest[j]).name@)
            != arm::container_name((#[trigger] rest[k]).name@) by {
            assert(rest[j] == cs[j + 1] && rest[k] == cs[k + 1]);
        }
        assert(rest[i - 1] == cs[i]);
        lemma_declared(rest, i - 1);
    }
}

/// The data plane's cost is that of the first part with its name.
pub proof fn the_cost_of_a_name_is_its_own(
    parts: Seq<(String, Option<SutCost>)>,
    name: Seq<char>,
    i: int,
)
    requires
        0 <= i < parts.len(),
        parts[i].0@ == name,
        forall|j: int| 0 <= j < i ==> (#[trigger] parts[j]).0@ != name,
    ensures
        cost_named(parts, name) == parts[i].1,
    decreases parts.len(),
{
    if i > 0 {
        assert(parts[0].0@ != name);
        let rest = parts.skip(1);
        assert forall|j: int| 0 <= j < i - 1 implies (#[trigger] rest[j]).0@ != name by {
            assert(rest[j] == parts[j + 1]);
        }
        assert(rest[i - 1] == parts[i]);
        the_cost_of_a_name_is_its_own(rest, name, i - 1);
    }
}

/// An arm's messages per second are its rows per second over the rows that one
/// message yields: the rows that landed times the messages of the corpus, over the
/// seconds of the window times the rows that the corpus yields.
pub proof fn the_message_rate_is_the_row_rate_at_the_yield(w: Workload, cost: SutCost, rows: u64)
    requires
        cost.window_ms > 0,
        w.batches > 0,
        w.expected_rows > 0,
    ensures
        about::is_about(
            message_rate(w, cost, rows),
            rows as nat * 1000 * (w.batches as nat),
            cost.window_ms as nat * (w.expected_rows as nat),
        ),
{
    let (n, t) = (rows as nat, cost.window_ms as nat);
    let (e, b) = (w.expected_rows as nat, w.batches as nat);
    let y = figures::yield_of(e as int, b as int);
    about::a_ratio_of_counts(e, b);
    about::lemma_something(y, e, b, 6);
    sampler::every_rate_is_its_quotient(cost, rows);
    let (p, q) = ((n * 1000) * b, t * e);
    assert(n > 0 ==> 0 < p && p <= 0x1_0000_0000_0000_0000_0000_0000_0000_0000_0000_0000_0000_0000)
        by (nonlinear_arith)
        requires
            p == (n * 1000) * b,
            n <= 0xffff_ffff_ffff_ffff,
            0 < b <= 0xffff_ffff_ffff_ffff,
    ;
    assert(0 < q && q <= 0x1_0000_0000_0000_0000_0000_0000_0000_0000_0000_0000_0000_0000)
        by (nonlinear_arith)
        requires
            q == t * e,
            0 < t <= 0xffff_ffff_ffff_ffff,
            0 < e <= 0xffff_ffff_ffff_ffff,
    ;
    if n > 0 {
        about::counts_are_moderate(p, q);
    }
    about::a_quotient_is_about(cost.throughput(rows), n * 1000, t, 11, y, e, b, 6);
    about::lemma_weaken(message_rate(w, cost, rows), p, q, 21, 32);
}

/// A measurement carries the caveats that it earned and no others: that it fell
/// behind the offered rate, and that its headroom could not be shown.
pub proof fn a_caveat_is_earned(o: Observations, w: Workload, f: Flag)
    ensures
        caveats(o, w).contains(f) == ((f is Saturated && (load_of(o, w) matches Load::Sustained(s)
            && !s.followed())) || (f is HeadroomUnproven && !o.headroom.proven)),
{
    let c = caveats(o, w);
    a_caveat_is_never_dropped(o, w);
    if c.contains(f) {
        let k = choose|k: int| 0 <= k < c.len() && c[k] == f;
        assert(c[k] == f);
    }
}

/// The tables that inserts are attributed to are all in the one database: the
/// workload's first, and behind it each that the entrant declares, in order.
pub proof fn attributed_tables_are_the_workloads_and_the_declared(
    arm: Arm,
    database: Seq<char>,
    table: Seq<char>,
    i: int,
)
    ensures
        tables_of(arm, database, table).len() >= 1,
        tables_of(arm, database, table)[0] == database + "."@ + table,
        arm.entrant.spec.clickhouse is None ==> tables_of(arm, database, table).len() == 1,
        arm.entrant.spec.clickhouse matches Some(ch) ==> {
            &&& tables_of(arm, database, table).len() == 1 + ch.attribution_tables@.len()
            &&& 0 <= i < ch.attribution_tables@.len() ==> tables_of(arm, database, table)[i + 1]
                == database + "."@ + ch.attribution_tables@[i]@
        },
{
}

/// The container that does an arm's work is the first that is declared to, under its
/// network name; an arm that declares none has none.
pub proof fn the_data_plane_is_the_first_that_is_declared(arm: Arm, i: int)
    ensures
        0 <= i < arm.entrant.containers().len() && arm.entrant.containers()[i].role
            == Role::DataPlane && (forall|j: int|
            0 <= j < i ==> (#[trigger] arm.entrant.containers()[j]).role != Role::DataPlane)
            ==> data_plane_of(arm) == Some("spate-bench-sut-"@ + arm.entrant.containers()[i].name@),
        (forall|j: int|
            0 <= j < arm.entrant.containers().len() ==> (
            #[trigger] arm.entrant.containers()[j]).role != Role::DataPlane) ==> data_plane_of(
            arm,
        ) is None,
{
    let cs = arm.entrant.containers();
    if forall|j: int| 0 <= j < cs.len() ==> (#[trigger] cs[j]).role != Role::DataPlane {
        lemma_no_data_plane(cs);
    }
    if 0 <= i < cs.len() && cs[i].role == Role::DataPlane && (forall|j: int|
        0 <= j < i ==> (#[trigger] cs[j]).role != Role::DataPlane) {
        lemma_first_data_plane(cs, i);
    }
}

} // verus!
