//! Opening, holding and closing the one measurement window.
//!
//! The window of a drain runs from the start of the containers to the instant at
//! which the corpus is exhausted. That of a sustained run opens on an arm that is
//! demonstrably consuming, and is held for a fixed span. Each of the loops is a
//! state and a step: the step is given what was probed, and says what to do next.

use vstd::prelude::*;
use crate::big;
use crate::about;
use crate::double;
use crate::double::Double;
use crate::driver::load;
use crate::text;

verus! {

/// Consecutive row counts that may fail before an arm is abandoned. One or two
/// failures are noise; more are a server that is gone, and a frontier that nobody
/// read.
pub const ROW_PROBE_MAX_FAILURES: u32 = 5;

/// Consecutive advancing counts that show an arm to be consuming.
pub const SUSTAINED_WARMUP_POLLS: u32 = 3;

/// Consecutive equal counts that show a pipeline to be settled.
pub const QUIESCE_POLLS: u32 = 3;

/// Seconds to wait for the pipeline to settle.
pub const QUIESCE_MAX_S: u64 = 900;

/// Whether more than `limit_s` seconds have passed.
pub open spec fn past(elapsed_ns: u128, limit_s: u64) -> bool {
    elapsed_ns > limit_s * 1_000_000_000
}

fn is_past(elapsed_ns: u128, limit_s: u64) -> (r: bool)
    ensures
        r == past(elapsed_ns, limit_s),
{
    elapsed_ns > limit_s as u128 * 1_000_000_000
}

/// The row count that an answer states. `None` is a count that could not be
/// read, which is not the count zero.
pub open spec fn counted(answer: Result<String, String>) -> Option<nat> {
    match answer {
        Ok(s) => text::parse_u64(text::trim(s@)),
        Err(_) => None,
    }
}

/// The row count that an answer states.
pub fn rows_now(answer: &Result<String, String>) -> (r: Option<u64>)
    ensures
        match r {
            Some(n) => counted(*answer) == Some(n as nat),
            None => counted(*answer) is None,
        },
{
    match answer {
        Ok(s) => {
            let v = text::chars_of(s.as_str());
            text::to_u64(text::trimmed(v.as_slice()))
        },
        Err(_) => None,
    }
}

// ---------------------------------------------------------------------------
// Dead containers
// ---------------------------------------------------------------------------

/// The position of the first container that is not alive.
pub open spec fn first_dead(alive: Seq<bool>) -> Option<int>
    decreases alive.len(),
{
    if alive.len() == 0 {
        None
    } else {
        match first_dead(alive.drop_last()) {
            Some(i) => Some(i),
            None => if alive.last() {
                None
            } else {
                Some(alive.len() - 1)
            },
        }
    }
}

/// The refusal of an arm of which a container died.
pub open spec fn death(name: Seq<char>, data_plane: Option<Seq<char>>, during: Seq<char>) -> Seq<
    char,
> {
    "the arm's "@ + (if data_plane == Some(name) {
        "data-plane"@
    } else {
        "control-plane"@
    }) + " container "@ + name + " exited during "@ + during
}

/// A text that may be missing, as characters.
pub open spec fn opt_view(s: Option<&str>) -> Option<Seq<char>> {
    match s {
        Some(t) => Some(t@),
        None => None,
    }
}

/// Names the arm's first dead container, and says what it died during. Every
/// declared container counts: an arm of which one is alive is not alive.
pub fn dead_container(
    names: &[String],
    alive: &[bool],
    data_plane: Option<&str>,
    during: &str,
) -> (r: Option<String>)
    requires
        names@.len() == alive@.len(),
    ensures
        match r {
            Some(m) => first_dead(alive@) matches Some(i) && 0 <= i < names@.len() && m@ == death(
                names@[i]@,
                opt_view(data_plane),
                during@,
            ),
            None => first_dead(alive@) is None && forall|i: int|
                0 <= i < alive@.len() ==> #[trigger] alive@[i],
        },
{
    let mut i: usize = 0;
    while i < alive.len()
        invariant
            i <= alive.len(),
            alive@.len() == names@.len(),
            first_dead(alive@.take(i as int)) is None,
            forall|j: int| 0 <= j < i ==> #[trigger] alive@[j],
        decreases alive.len() - i,
    {
        assert(alive@.take(i + 1).drop_last() =~= alive@.take(i as int));
        if !alive[i] {
            proof {
                lemma_first_dead(alive@, i as int);
            }
            let is_data: bool = match data_plane {
                Some(d) => text::same(d, names[i].as_str()),
                None => false,
            };
            let mut m = "the arm's ".to_owned();
            if is_data {
                m.append("data-plane");
            } else {
                m.append("control-plane");
            }
            m.append(" container ");
            m.append(names[i].as_str());
            m.append(" exited during ");
            m.append(during);
            return Some(m);
        }
        i = i + 1;
    }
    assert(alive@.take(i as int) =~= alive@);
    None
}

proof fn lemma_first_dead(alive: Seq<bool>, i: int)
    requires
        0 <= i < alive.len(),
        first_dead(alive.take(i)) is None,
        !alive[i],
    ensures
        first_dead(alive) == Some(i),
    decreases alive.len() - i,
{
    if i == alive.len() - 1 {
        assert(alive.drop_last() =~= alive.take(i));
    } else {
        let shorter = alive.drop_last();
        assert(shorter.take(i) =~= alive.take(i));
        lemma_first_dead(shorter, i);
    }
}

// ---------------------------------------------------------------------------
// The drain
// ---------------------------------------------------------------------------

/// What to do after a probe.
#[derive(Clone, Debug, PartialEq, Eq)]
pub enum Step {
    /// Probe again.
    Poll,
    /// The loop is over.
    Close,
    /// The arm is refused, with the reason.
    Refuse(String),
}

impl Step {
    /// Whether the step is the refusal `why`.
    pub open spec fn refuses(self, why: Seq<char>) -> bool {
        self matches Step::Refuse(m) && m@ == why
    }
}

/// The state of a drain between two probes.
#[derive(Clone, Copy, Debug, PartialEq, Eq, Structural)]
pub struct Drain {
    /// The last row count that was read.
    pub rows: u64,
    /// How many counts failed since then.
    pub failures: u32,
}

/// The refusal of a drain whose rows could not be counted.
pub open spec fn drain_blind(failures: int, rows: int) -> Seq<char> {
    "the row count could not be read "@ + text::decimal(failures as nat) + " times running ("@
        + text::decimal(rows as nat)
        + " rows at the last reading), so there is no way to tell a drained corpus from an unreachable ClickHouse"@
}

/// The refusal of a drain that took too long.
pub open spec fn drain_late(deadline_s: int, rows: int, expected: int) -> Seq<char> {
    "the drain did not finish within "@ + text::decimal(deadline_s as nat) + "s ("@ + text::decimal(
        rows as nat,
    ) + " of "@ + text::decimal(expected as nat) + " rows)"@
}

impl Drain {
    /// A drain that was not probed yet.
    pub fn begin() -> (d: Drain)
        ensures
            d == (Drain { rows: 0, failures: 0 }),
    {
        Drain { rows: 0, failures: 0 }
    }

    /// The state after a row count.
    pub open spec fn after(self, rows: Option<u64>) -> Drain {
        match rows {
            Some(n) => Drain { rows: n, failures: 0 },
            None => Drain { rows: self.rows, failures: (self.failures + 1) as u32 },
        }
    }

    /// What to do after a probe of a drain: a dead container refuses the arm, so
    /// do too many failed counts, an exhausted corpus closes the window, and the
    /// deadline refuses what is left.
    pub fn step(
        self,
        dead: Option<String>,
        rows: Option<u64>,
        elapsed_ns: u128,
        expected_rows: u64,
        batches: u64,
    ) -> (r: (Drain, Step))
        requires
            self.failures < ROW_PROBE_MAX_FAILURES,
        ensures
            ({
                let next = self.after(rows);
                let deadline = load::drain_deadline(batches as int);
                if dead is Some {
                    r.1.refuses(dead->0@)
                } else if next.failures >= ROW_PROBE_MAX_FAILURES {
                    r.1.refuses(drain_blind(next.failures as int, next.rows as int))
                } else if next.rows >= expected_rows {
                    r.0 == next && r.1 is Close
                } else if past(elapsed_ns, deadline as u64) {
                    r.1.refuses(drain_late(deadline, next.rows as int, expected_rows as int))
                } else {
                    r.0 == next && r.1 is Poll
                }
            }),
            r.1 is Poll ==> r.0.failures < ROW_PROBE_MAX_FAILURES,
    {
        if let Some(why) = dead {
            return (self, Step::Refuse(why));
        }
        let next = match rows {
            Some(n) => Drain { rows: n, failures: 0 },
            None => Drain { rows: self.rows, failures: self.failures + 1 },
        };
        if next.failures >= ROW_PROBE_MAX_FAILURES {
            let mut m = "the row count could not be read ".to_owned();
            text::push_decimal(&mut m, next.failures as u128);
            m.append(" times running (");
            text::push_decimal(&mut m, next.rows as u128);
            m.append(
                " rows at the last reading), so there is no way to tell a drained corpus from an unreachable ClickHouse",
            );
            return (next, Step::Refuse(m));
        }
        if next.rows >= expected_rows {
            return (next, Step::Close);
        }
        let deadline: u64 = load::drain_max_s(batches);
        if is_past(elapsed_ns, deadline) {
            let mut m = "the drain did not finish within ".to_owned();
            text::push_decimal(&mut m, deadline as u128);
            m.append("s (");
            text::push_decimal(&mut m, next.rows as u128);
            m.append(" of ");
            text::push_decimal(&mut m, expected_rows as u128);
            m.append(" rows)");
            return (next, Step::Refuse(m));
        }
        (next, Step::Poll)
    }
}

// ---------------------------------------------------------------------------
// The sustained window
// ---------------------------------------------------------------------------

/// The state of a warm-up between two probes.
#[derive(Clone, Copy, Debug, PartialEq, Eq, Structural)]
pub struct Warmup {
    /// How many counts in a row were higher than the one before.
    pub advancing: u32,
    /// The last count, where it could be read.
    pub prev: Option<u64>,
}

/// The refusal of an arm that did not begin to consume.
pub open spec fn warmup_late(last: Option<u64>) -> Seq<char> {
    "the arm did not start consuming within "@ + text::decimal(load::SUSTAINED_WARMUP_MAX_S as nat)
        + "s of the producer starting ("@ + (match last {
        Some(n) => text::decimal(n as nat),
        None => "unreadable"@,
    }) + " rows at the last reading), so there is no steady state to open a window on"@
}

impl Warmup {
    /// A warm-up whose first count was `prev`.
    pub fn begin(prev: Option<u64>) -> (w: Warmup)
        ensures
            w == (Warmup { advancing: 0, prev }),
    {
        Warmup { advancing: 0, prev }
    }

    /// Whether a count is higher than the one before, both of them read.
    pub open spec fn advances(self, now: Option<u64>) -> bool {
        self.prev is Some && now is Some && now->0 > self.prev->0
    }

    /// The state after a count.
    pub open spec fn after(self, now: Option<u64>) -> Warmup {
        Warmup {
            advancing: if self.advances(now) {
                (self.advancing + 1) as u32
            } else {
                0
            },
            prev: now,
        }
    }

    /// What to do after a probe of a warm-up. A single advancing count can be one
    /// chunk that lands; several in a row are an arm that consumes.
    pub fn step(self, dead: Option<String>, now: Option<u64>, elapsed_ns: u128) -> (r: (
        Warmup,
        Step,
    ))
        requires
            self.advancing < SUSTAINED_WARMUP_POLLS,
        ensures
            ({
                let next = self.after(now);
                if dead is Some {
                    r.1.refuses(dead->0@)
                } else if next.advancing >= SUSTAINED_WARMUP_POLLS {
                    r.1 is Close
                } else if past(elapsed_ns, load::SUSTAINED_WARMUP_MAX_S) {
                    r.1.refuses(warmup_late(now))
                } else {
                    r.0 == next && r.1 is Poll
                }
            }),
            r.1 is Poll ==> r.0.advancing < SUSTAINED_WARMUP_POLLS,
    {
        if let Some(why) = dead {
            return (self, Step::Refuse(why));
        }
        let up: bool = match (self.prev, now) {
            (Some(a), Some(b)) => b > a,
            _ => false,
        };
        let next = Warmup {
            advancing: if up {
                self.advancing + 1
            } else {
                0
            },
            prev: now,
        };
        if next.advancing >= SUSTAINED_WARMUP_POLLS {
            return (next, Step::Close);
        }
        if is_past(elapsed_ns, load::SUSTAINED_WARMUP_MAX_S) {
            let mut m = "the arm did not start consuming within ".to_owned();
            text::push_decimal(&mut m, load::SUSTAINED_WARMUP_MAX_S as u128);
            m.append("s of the producer starting (");
            match now {
                Some(n) => {
                    text::push_decimal(&mut m, n as u128);
                },
                None => {
                    m.append("unreadable");
                },
            }
            m.append(
                " rows at the last reading), so there is no steady state to open a window on",
            );
            return (next, Step::Refuse(m));
        }
        (next, Step::Poll)
    }
}

/// The refusal of a window during which rows could not be counted.
pub open spec fn window_blind(failures: int) -> Seq<char> {
    "the row count could not be read "@ + text::decimal(failures as nat)
        + " times running during the sustained window, so the window cannot be shown to have measured a running pipeline"@
}

/// Whether a sustained window is to be held for longer.
pub open spec fn holds(elapsed_ns: u128, window_s: u64) -> bool {
    elapsed_ns < window_s * 1_000_000_000
}

/// The state of a sustained window between two probes: how many counts failed in
/// a row.
#[derive(Clone, Copy, Debug, PartialEq, Eq, Structural)]
pub struct Held {
    /// How many counts failed in a row.
    pub failures: u32,
}

impl Held {
    /// A window that was not probed yet.
    pub fn begin() -> (h: Held)
        ensures
            h == (Held { failures: 0 }),
    {
        Held { failures: 0 }
    }

    /// Whether the window is to be held for longer.
    pub fn is_open(elapsed_ns: u128, window_s: u64) -> (r: bool)
        ensures
            r == holds(elapsed_ns, window_s),
    {
        elapsed_ns < window_s as u128 * 1_000_000_000
    }

    /// The state after a count.
    pub open spec fn after(self, rows: Option<u64>) -> Held {
        Held {
            failures: match rows {
                Some(_) => 0,
                None => (self.failures + 1) as u32,
            },
        }
    }

    /// What to do after a probe of a sustained window.
    pub fn step(
        self,
        dead: Option<String>,
        rows: Option<u64>,
        elapsed_ns: u128,
        window_s: u64,
    ) -> (r: (Held, Step))
        requires
            self.failures < ROW_PROBE_MAX_FAILURES,
        ensures
            ({
                let next = self.after(rows);
                if dead is Some {
                    r.1.refuses(dead->0@)
                } else if next.failures >= ROW_PROBE_MAX_FAILURES {
                    r.1.refuses(window_blind(next.failures as int))
                } else if holds(elapsed_ns, window_s) {
                    r.0 == next && r.1 is Poll
                } else {
                    r.1 is Close
                }
            }),
            r.1 is Poll ==> r.0.failures < ROW_PROBE_MAX_FAILURES,
    {
        if let Some(why) = dead {
            return (self, Step::Refuse(why));
        }
        let next = Held {
            failures: match rows {
                Some(_) => 0,
                None => self.failures + 1,
            },
        };
        if next.failures >= ROW_PROBE_MAX_FAILURES {
            let mut m = "the row count could not be read ".to_owned();
            text::push_decimal(&mut m, next.failures as u128);
            m.append(
                " times running during the sustained window, so the window cannot be shown to have measured a running pipeline",
            );
            return (next, Step::Refuse(m));
        }
        if Held::is_open(elapsed_ns, window_s) {
            (next, Step::Poll)
        } else {
            (next, Step::Close)
        }
    }
}

/// What the load generator did over a window.
#[derive(Clone, Copy, Debug, PartialEq, Eq, Structural)]
pub struct LoadReport {
    /// Messages per second that it was asked for.
    pub target_rate: u64,
    /// Messages that it sent.
    pub sent: u64,
    /// Messages that it could not deliver.
    pub failed: u64,
    /// The share of the messages that were due that it offered.
    pub achieved_share: Double,
    /// The most that a thread ran behind its schedule, in milliseconds.
    pub max_schedule_lag_ms: Double,
}

impl LoadReport {
    /// Whether less than 99% of what was due was offered: the offered rate was
    /// the harness's, and the record would describe the generator.
    pub open spec fn fell_short(self) -> bool {
        self.achieved_share.lt(double::quotient(99, 100))
    }
}

/// The refusal of a run whose generator did not deliver.
pub open spec fn undelivered(report: LoadReport) -> Seq<char> {
    "the load generator failed to deliver "@ + text::decimal(report.failed as nat) + " of "@
        + text::decimal(report.sent as nat)
        + " messages. Every failure is a hole in the batch_id sequence, and the correctness gate cannot tell one from the framework losing a row — so this is the harness's defect and is refused rather than charged to the arm"@
}

/// The refusal of a run whose generator did not keep to its schedule.
pub open spec fn under_offered(report: LoadReport, rate: int, threads: int) -> Seq<char> {
    "the load generator offered only "@ + report.achieved_share.times(double::of(100)).fixed(1) + "% of the "@ + text::decimal(
        rate as nat,
    ) + " messages/s it was asked for, across "@ + text::decimal(threads as nat)
        + " thread(s), with a worst schedule lag of "@ + report.max_schedule_lag_ms.fixed(0)
        + "ms. Below 99% the offered rate was set by the harness rather than requested of the arm, so the record would describe our load generator.\n\nDo NOT respond by lowering the rate until the generator keeps up: a producer too weak to saturate the arm measures nothing. `methodology/` records that this host cannot fit the arm's 4 vCPU, the broker's, ClickHouse's, a wide enough generator and the driver into 18, and this refusal is that arithmetic arriving."@
}

/// Why a sustained window is refused for what its generator did, if it is.
pub open spec fn load_refusal(report: LoadReport, rate: int, threads: int) -> Option<Seq<char>> {
    if report.failed > 0 {
        Some(undelivered(report))
    } else if report.fell_short() {
        Some(under_offered(report, rate, threads))
    } else {
        None
    }
}

/// Refuses a sustained window that measured the generator rather than the arm.
pub fn check_load(report: &LoadReport, offered_msgs_per_s: u64, threads: u64) -> (r: Result<
    (),
    String,
>)
    ensures
        match r {
            Ok(_) => load_refusal(*report, offered_msgs_per_s as int, threads as int) is None,
            Err(e) => load_refusal(*report, offered_msgs_per_s as int, threads as int) == Some(e@),
        },
{
    if report.failed > 0 {
        let mut m = "the load generator failed to deliver ".to_owned();
        text::push_decimal(&mut m, report.failed as u128);
        m.append(" of ");
        text::push_decimal(&mut m, report.sent as u128);
        m.append(
            " messages. Every failure is a hole in the batch_id sequence, and the correctness gate cannot tell one from the framework losing a row — so this is the harness's defect and is refused rather than charged to the arm",
        );
        return Err(m);
    }
    if report.achieved_share.below(Double::quotient(99, 100)) {
        let mut m = "the load generator offered only ".to_owned();
        m.append(report.achieved_share.multiply(Double::of(100)).to_fixed(1).as_str());
        m.append("% of the ");
        text::push_decimal(&mut m, offered_msgs_per_s as u128);
        m.append(" messages/s it was asked for, across ");
        text::push_decimal(&mut m, threads as u128);
        m.append(" thread(s), with a worst schedule lag of ");
        m.append(report.max_schedule_lag_ms.to_fixed(0).as_str());
        m.append(
            "ms. Below 99% the offered rate was set by the harness rather than requested of the arm, so the record would describe our load generator.\n\nDo NOT respond by lowering the rate until the generator keeps up: a producer too weak to saturate the arm measures nothing. `methodology/` records that this host cannot fit the arm's 4 vCPU, the broker's, ClickHouse's, a wide enough generator and the driver into 18, and this refusal is that arithmetic arriving.",
        );
        return Err(m);
    }
    Ok(())
}

/// The first message of a sustained run: past the corpus and past every earlier
/// run on the topic. A range that was used before would make a replay look like
/// duplicates.
pub fn first_batch_id(batches: u64, existing: u64) -> (n: u64)
    ensures
        n == load::at_most_u64(batches + existing),
{
    match batches.checked_add(existing) {
        Some(n) => n,
        None => u64::MAX,
    }
}

// ---------------------------------------------------------------------------
// Settling
// ---------------------------------------------------------------------------

/// Where a pipeline got to, and whether it stopped moving.
#[derive(Clone, Copy, Debug, PartialEq, Eq, Structural)]
pub struct Quiesced {
    /// The row count at which it settled, or at which the wait was given up.
    pub rows: u64,
    /// Whether it settled. A gate that fails on a pipeline that did not is no
    /// evidence about the arm.
    pub settled: bool,
}

/// What to do after a probe of a pipeline that settles.
#[derive(Clone, Debug, PartialEq, Eq)]
pub enum Settling {
    /// Probe again.
    Poll,
    /// The wait is over.
    Done(Quiesced),
    /// The arm is refused, with the reason.
    Refuse(String),
}

/// The state of the wait between two probes.
#[derive(Clone, Copy, Debug, PartialEq, Eq, Structural)]
pub struct Quiesce {
    /// How many counts in a row were read and are equal.
    pub stable: u32,
    /// How many counts failed in a row.
    pub failures: u32,
    /// The last count that was read.
    pub prev: Option<u64>,
}

/// The refusal of a pipeline whose frontier could not be read.
pub open spec fn settling_blind(failures: int) -> Seq<char> {
    "the row count could not be read "@ + text::decimal(failures as nat)
        + " times running while waiting for the pipeline to settle, so the frontier is unknown and the correctness gate would read what it cannot see as loss"@
}

impl Quiesce {
    /// A wait that was not probed yet.
    pub fn begin() -> (q: Quiesce)
        ensures
            q == (Quiesce { stable: 0, failures: 0, prev: None }),
    {
        Quiesce { stable: 0, failures: 0, prev: None }
    }

    /// The state after a count. A new value begins a run of equal ones; a count
    /// that could not be read breaks it, since it is not a count.
    pub open spec fn after(self, rows: Option<u64>) -> Quiesce {
        match rows {
            None => Quiesce {
                stable: 0,
                failures: (self.failures + 1) as u32,
                prev: self.prev,
            },
            Some(n) => Quiesce {
                stable: if self.prev == Some(n) {
                    (self.stable + 1) as u32
                } else {
                    1
                },
                failures: 0,
                prev: Some(n),
            },
        }
    }

    /// What to do after a probe: enough equal counts settle the pipeline, too
    /// many failed ones refuse the arm, and past its time the wait ends with what
    /// was read last.
    pub fn step(self, rows: Option<u64>, elapsed_ns: u128) -> (r: (Quiesce, Settling))
        requires
            self.failures < ROW_PROBE_MAX_FAILURES,
            self.stable < QUIESCE_POLLS,
        ensures
            ({
                let next = self.after(rows);
                if next.failures >= ROW_PROBE_MAX_FAILURES {
                    r.1 matches Settling::Refuse(m) && m@ == settling_blind(next.failures as int)
                } else if next.stable >= QUIESCE_POLLS {
                    r.1 == Settling::Done(Quiesced { rows: next.prev->0, settled: true })
                } else if past(elapsed_ns, QUIESCE_MAX_S) {
                    match next.prev {
                        Some(n) => r.1 == Settling::Done(Quiesced { rows: n, settled: false }),
                        None => r.1 matches Settling::Refuse(m) && m@
                            == "no row-count probe succeeded while waiting for the pipeline to settle"@,
                    }
                } else {
                    r.0 == next && r.1 is Poll
                }
            }),
            r.1 is Poll ==> r.0.failures < ROW_PROBE_MAX_FAILURES && r.0.stable < QUIESCE_POLLS,
    {
        let next = match rows {
            None => Quiesce { stable: 0, failures: self.failures + 1, prev: self.prev },
            Some(n) => {
                let same: bool = match self.prev {
                    Some(p) => p == n,
                    None => false,
                };
                Quiesce {
                    stable: if same {
                        self.stable + 1
                    } else {
                        1
                    },
                    failures: 0,
                    prev: Some(n),
                }
            },
        };
        if next.failures >= ROW_PROBE_MAX_FAILURES {
            let mut m = "the row count could not be read ".to_owned();
            text::push_decimal(&mut m, next.failures as u128);
            m.append(
                " times running while waiting for the pipeline to settle, so the frontier is unknown and the correctness gate would read what it cannot see as loss",
            );
            return (next, Settling::Refuse(m));
        }
        if next.stable >= QUIESCE_POLLS {
            if let Some(n) = next.prev {
                return (next, Settling::Done(Quiesced { rows: n, settled: true }));
            }
        }
        if is_past(elapsed_ns, QUIESCE_MAX_S) {
            return match next.prev {
                Some(n) => (next, Settling::Done(Quiesced { rows: n, settled: false })),
                None => (
                    next,
                    Settling::Refuse(
                        "no row-count probe succeeded while waiting for the pipeline to settle".to_owned(),
                    ),
                ),
            };
        }
        (next, Settling::Poll)
    }
}

// ---------------------------------------------------------------------------
// Laws
// ---------------------------------------------------------------------------

/// The state of a wait after these counts.
pub open spec fn quiesced_after(counts: Seq<Option<u64>>) -> Quiesce
    decreases counts.len(),
{
    if counts.len() == 0 {
        Quiesce { stable: 0, failures: 0, prev: None }
    } else {
        quiesced_after(counts.drop_last()).after(counts.last())
    }
}

/// Whether the last `k` of the counts were read, and are `n`.
pub open spec fn ends_alike(counts: Seq<Option<u64>>, k: int, n: Option<u64>) -> bool {
    &&& k <= counts.len()
    &&& forall|i: int|
        counts.len() - k <= i < counts.len() ==> #[trigger] counts[i] is Some && counts[i] == n
}

/// A pipeline counts as settled after as many equal counts in a row as the
/// protocol asks for, every one of which was read, and after no fewer. Counts
/// that could not be read never settle it.
pub proof fn a_settled_pipeline_was_counted_alike(counts: Seq<Option<u64>>, k: int, n: u64)
    requires
        counts.len() < u32::MAX,
    ensures
        quiesced_after(counts).stable <= counts.len(),
        ends_alike(counts, quiesced_after(counts).stable as int, quiesced_after(counts).prev),
        k >= 1 && ends_alike(counts, k, Some(n)) ==> quiesced_after(counts).stable >= k
            && quiesced_after(counts).prev == Some(n),
        quiesced_after(counts.push(None)).stable == 0,
    decreases counts.len(),
{
    assert(counts.push(None).drop_last() =~= counts);
    if counts.len() > 0 {
        let earlier = counts.drop_last();
        a_settled_pipeline_was_counted_alike(earlier, k - 1, n);
        let q = quiesced_after(earlier);
        let next = quiesced_after(counts);
        assert forall|i: int|
            counts.len() - next.stable <= i < counts.len() implies #[trigger] counts[i] is Some
            && counts[i] == next.prev by {
            if i < earlier.len() {
                assert(earlier[i] == counts[i]);
            }
        }
        if k >= 1 && ends_alike(counts, k, Some(n)) {
            assert(counts.last() == Some(n));
            assert forall|i: int|
                earlier.len() - (k - 1) <= i < earlier.len() implies #[trigger] earlier[i] is Some
                && earlier[i] == Some(n) by {
                assert(counts[i] == earlier[i]);
            }
            assert(ends_alike(earlier, k - 1, Some(n)));
        }
    }
}

/// The state of a warm-up that began at `first` after these counts.
pub open spec fn warmed_after(first: Option<u64>, counts: Seq<Option<u64>>) -> Warmup
    decreases counts.len(),
{
    if counts.len() == 0 {
        Warmup { advancing: 0, prev: first }
    } else {
        warmed_after(first, counts.drop_last()).after(counts.last())
    }
}

/// The count before the `i`th, which for the first is the one at the start.
pub open spec fn count_before(first: Option<u64>, counts: Seq<Option<u64>>, i: int) -> Option<u64> {
    if i == 0 {
        first
    } else {
        counts[i - 1]
    }
}

/// A window opens only on an arm whose last counts, as many as the protocol asks
/// for, were all read and each higher than the one before.
pub proof fn a_warm_arm_kept_advancing(first: Option<u64>, counts: Seq<Option<u64>>)
    requires
        counts.len() < u32::MAX,
    ensures
        warmed_after(first, counts).advancing <= counts.len(),
        warmed_after(first, counts).prev == count_before(first, counts, counts.len() as int),
        forall|i: int|
            counts.len() - warmed_after(first, counts).advancing <= i < counts.len() ==> {
                &&& (#[trigger] counts[i]) is Some
                &&& count_before(first, counts, i) is Some
                &&& count_before(first, counts, i)->0 < counts[i]->0
            },
    decreases counts.len(),
{
    if counts.len() > 0 {
        let earlier = counts.drop_last();
        a_warm_arm_kept_advancing(first, earlier);
        let next = warmed_after(first, counts);
        assert forall|i: int| counts.len() - next.advancing <= i < counts.len() implies {
            &&& (#[trigger] counts[i]) is Some
            &&& count_before(first, counts, i) is Some
            &&& count_before(first, counts, i)->0 < counts[i]->0
        } by {
            if i < earlier.len() {
                assert(earlier[i] == counts[i]);
                assert(count_before(first, earlier, i) == count_before(first, counts, i));
            }
        }
    }
}

/// An arm is alive only while every one of its containers is.
pub proof fn one_dead_container_is_a_dead_arm(alive: Seq<bool>, i: int)
    requires
        0 <= i < alive.len(),
        !alive[i],
    ensures
        first_dead(alive) matches Some(k) && 0 <= k <= i && !alive[k],
    decreases alive.len(),
{
    let shorter = alive.drop_last();
    if i < shorter.len() {
        assert(shorter[i] == alive[i]);
        one_dead_container_is_a_dead_arm(shorter, i);
    } else {
        lemma_dead_position(shorter);
    }
}

proof fn lemma_dead_position(alive: Seq<bool>)
    ensures
        first_dead(alive) matches Some(k) ==> 0 <= k < alive.len() && !alive[k],
    decreases alive.len(),
{
    if alive.len() > 0 {
        lemma_dead_position(alive.drop_last());
    }
}

/// Limits are seconds: in milliseconds, a limit has passed when more than a thousand
/// times as many have, and a window is held until a thousand times as many have.
pub proof fn limits_are_seconds(ms: u64, limit_s: u64)
    ensures
        past((ms * 1_000_000) as u128, limit_s) == (ms > limit_s * 1000),
        holds((ms * 1_000_000) as u128, limit_s) == (ms < limit_s * 1000),
{
}

/// A count that was answered is read, with or without a line feed behind it.
pub proof fn an_answered_count_is_read(answer: String, n: u64)
    ensures
        answer@ == text::decimal(n as nat) || answer@ == text::decimal(n as nat).push('\n')
            ==> counted(Ok::<String, String>(answer)) == Some(n as nat),
{
    let d = text::decimal(n as nat);
    text::a_decimal_is_a_word(n as nat);
    text::decimal_reads_back(n as nat);
    text::a_word_is_kept(d);
    let e = d.push('\n');
    assert(e[0] == d[0]);
    assert(!text::is_space(d[0]));
    assert(text::trim_start(e) == e);
    assert(e.drop_last() =~= d);
    assert(text::is_space(e.last()));
    assert(text::trim_start(d) == d);
    assert(text::trim(e) == d);
}

/// Four failed counts in a row are borne and the fifth is not, wherever they are
/// taken; a count that is read begins anew.
pub proof fn the_fifth_failed_count_is_one_too_many(d: Drain, h: Held, q: Quiesce, n: u64)
    requires
        d.failures < 5,
        h.failures < 5,
        q.failures < 5,
    ensures
        (d.after(None).failures >= ROW_PROBE_MAX_FAILURES) == (d.failures == 4),
        (h.after(None).failures >= ROW_PROBE_MAX_FAILURES) == (h.failures == 4),
        (q.after(None).failures >= ROW_PROBE_MAX_FAILURES) == (q.failures == 4),
        d.after(Some(n)).failures == 0 && d.after(Some(n)).rows == n,
        d.after(None).rows == d.rows,
        h.after(Some(n)).failures == 0,
        q.after(Some(n)).failures == 0,
{
}

/// A generator that offered ninety-nine hundredths of what was due, more than one
/// part in a million over, and delivered all of it is accepted; one that offered as
/// much less, or that failed to deliver a message, is refused.
pub proof fn a_generator_is_held_to_its_schedule(
    report: LoadReport,
    rate: int,
    threads: int,
    offered: nat,
    due: nat,
)
    requires
        about::is_about(report.achieved_share, offered, due),
        due > 0,
    ensures
        report.failed > 0 ==> load_refusal(report, rate, threads) is Some,
        1_000_000 * offered <= 989_999 * due ==> load_refusal(report, rate, threads) is Some,
        report.failed == 0 && 1_000_000 * offered >= 990_001 * due ==> load_refusal(
            report,
            rate,
            threads,
        ) is None,
{
    about::lemma_ranges();
    let u = double::one_in_units();
    let (c, v) = (big::two(256), big::two(200));
    let q = double::quotient(99, 100);
    let x = report.achieved_share;
    assert(0x20_0000_0000_0000 * 100 <= 99 * u && 99 * u <= 100 * (u * c)) by (nonlinear_arith)
        requires
            u >= v * v * 0x1000_0000_0000_0000_0000,
            c == v * 0x100_0000_0000_0000,
            v >= 1,
    {
        assert(v * v >= 1);
        assert(c >= 1);
        assert(u * c >= u);
    }
    double::rounding_is_close(false, 99 * u, 100);
    let (a, b) = (q.magnitude(), x.magnitude());
    let e: int = 0x20_0000_0000_0000;
    assert((e - 1) * (99 * u) <= e * (a * 100) && e * (a * 100) <= (e + 1) * (99 * u));
    if 1_000_000 * offered >= 990_001 * due {
        assert(a <= b) by (nonlinear_arith)
            requires
                e * (a * 100) <= (e + 1) * (99 * u),
                (e - 32) * (offered * u) <= e * (b * due),
                1_000_000 * offered >= 990_001 * due,
                due > 0,
                u > 0,
                e == 0x20_0000_0000_0000,
        {
            assert(1_000_000 * (offered * u) >= 990_001 * (due * u));
            assert((e - 32) * (990_001 * (due * u)) <= 1_000_000 * (e * (b * due)));
            assert(e * (a * 100) * due <= (e + 1) * (99 * u) * due);
            assert((e + 1) * (99 * u) * due == (e + 1) * 99 * (due * u));
            assert(10_000 * ((e + 1) * 99) <= (e - 32) * 990_001);
            assert(10_000 * ((e + 1) * 99 * (due * u)) <= (e - 32) * 990_001 * (due * u));
            assert(10_000 * (e * (a * 100) * due) <= 1_000_000 * (e * (b * due)));
            assert((1_000_000 * e) * (a * due) <= (1_000_000 * e) * (b * due));
            assert(a * due <= b * due);
        }
    }
    if 1_000_000 * offered <= 989_999 * due {
        assert(b < a) by (nonlinear_arith)
            requires
                (e - 1) * (99 * u) <= e * (a * 100),
                e * (b * due) <= (e + 32) * (offered * u),
                1_000_000 * offered <= 989_999 * due,
                due > 0,
                u > 0,
                e == 0x20_0000_0000_0000,
        {
            assert(1_000_000 * (offered * u) <= 989_999 * (due * u));
            assert(1_000_000 * (e * (b * due)) <= (e + 32) * (989_999 * (due * u)));
            assert((e - 1) * (99 * u) * due <= e * (a * 100) * due);
            assert((e - 1) * (99 * u) * due == (e - 1) * 99 * (due * u));
            assert((e + 32) * 989_999 < 10_000 * ((e - 1) * 99));
            assert(due * u > 0);
            assert((e + 32) * 989_999 * (due * u) < 10_000 * ((e - 1) * 99) * (due * u));
            assert(1_000_000 * (e * (b * due)) < 10_000 * (e * (a * 100) * due));
            assert((1_000_000 * e) * (b * due) < (1_000_000 * e) * (a * due));
            assert(b * due < a * due);
        }
    }
}

} // verus!
