//! What a window measured, as the figures that a record publishes.
//!
//! A figure that was not measured is absent and never zero: an arm without a
//! collector has no pause total, a counter that the server did not report has no
//! sum, and a drain has no latency.

use vstd::prelude::*;
use crate::double;
use crate::double::Double;
use crate::jvm::GcSummary;
use crate::report;
use crate::report::Metric;
use crate::report::MetricView;
use crate::sampler;
use crate::sampler::Sample;
use crate::sampler::Samples;
use crate::serverside::MergeActivity;
use crate::serverside::ServerSideCost;
use crate::text;

verus! {

// ---------------------------------------------------------------------------
// The window and what landed in it
// ---------------------------------------------------------------------------

/// The span of the readable samples of every container: the earliest first and
/// the latest last. None where a container has none.
pub open spec fn readable_span(costs: Seq<(String, Samples)>) -> Option<(int, int)>
    decreases costs.len(),
{
    if costs.len() == 0 {
        Some((u64::MAX as int, 0))
    } else {
        let r = sampler::readable_rows(costs.last().1.rows@);
        match readable_span(costs.drop_last()) {
            Some((from, to)) if r.len() > 0 => Some(
                (
                    if r[0].t_ms < from {
                        r[0].t_ms as int
                    } else {
                        from
                    },
                    if r.last().t_ms > to {
                        r.last().t_ms as int
                    } else {
                        to
                    },
                ),
            ),
            _ => None,
        }
    }
}

/// The interval that the samplers covered, in milliseconds since the epoch. None
/// where it does not run forwards.
pub open spec fn sampled_window(costs: Seq<(String, Samples)>) -> Option<(int, int)> {
    match readable_span(costs) {
        Some((from, to)) if from < to => Some((from, to)),
        _ => None,
    }
}

/// The interval that the samplers covered. A row that landed while any container
/// of the arm was being sampled is a row that the arm produced.
pub fn sampler_window_ms(costs: &[(String, Samples)]) -> (r: Option<(u64, u64)>)
    ensures
        match r {
            Some((from, to)) => sampled_window(costs@) == Some((from as int, to as int)),
            None => sampled_window(costs@) is None,
        },
{
    let mut from: u64 = u64::MAX;
    let mut to: u64 = 0;
    let mut i: usize = 0;
    while i < costs.len()
        invariant
            i <= costs.len(),
            readable_span(costs@.take(i as int)) == Some((from as int, to as int)),
        decreases costs.len() - i,
    {
        assert(costs@.take(i + 1).drop_last() =~= costs@.take(i as int));
        let r = sampler::only_readable(costs[i].1.rows.as_slice());
        if r.len() == 0 {
            proof {
                lemma_span_needs_all(costs@, i + 1);
            }
            return None;
        }
        let first: u64 = r[0].t_ms;
        let last: u64 = r[r.len() - 1].t_ms;
        if first < from {
            from = first;
        }
        if last > to {
            to = last;
        }
        i = i + 1;
    }
    assert(costs@.take(i as int) =~= costs@);
    if from < to {
        Some((from, to))
    } else {
        None
    }
}

proof fn lemma_span_needs_all(costs: Seq<(String, Samples)>, n: int)
    requires
        0 <= n <= costs.len(),
        readable_span(costs.take(n)) is None,
    ensures
        readable_span(costs) is None,
    decreases costs.len() - n,
{
    if n == costs.len() {
        assert(costs.take(n) =~= costs);
    } else {
        assert(costs.take(n + 1).drop_last() =~= costs.take(n));
        lemma_span_needs_all(costs, n + 1);
    }
}

/// The statement that counts the rows that landed in a window.
pub open spec fn rows_statement(table: Seq<char>, from_ms: int, to_ms: int) -> Seq<char> {
    "SELECT count() FROM "@ + table + " WHERE toUnixTimestamp64Milli(ingest_ts) >= "@
        + text::decimal(from_ms as nat) + " AND toUnixTimestamp64Milli(ingest_ts) < "@
        + text::decimal(to_ms as nat)
}

/// The statement that counts the rows that landed in a window.
pub fn rows_in_window_sql(table: &str, from_ms: u64, to_ms: u64) -> (s: String)
    ensures
        s@ == rows_statement(table@, from_ms as int, to_ms as int),
{
    let mut s = "SELECT count() FROM ".to_owned();
    s.append(table);
    s.append(" WHERE toUnixTimestamp64Milli(ingest_ts) >= ");
    text::push_decimal(&mut s, from_ms as u128);
    s.append(" AND toUnixTimestamp64Milli(ingest_ts) < ");
    text::push_decimal(&mut s, to_ms as u128);
    s
}

/// The rows that landed in a window, by the server's answer, or why they are not
/// known.
pub open spec fn landed(answer: Result<String, String>) -> Result<nat, Seq<char>> {
    match answer {
        Err(e) => Err("windowed row count failed: "@ + e@),
        Ok(out) => match text::parse_u64(text::trim(out@)) {
            Some(n) => Ok(n),
            None => Err(
                "windowed row count returned "@ + text::debug_text(out@) + ": "@ + text::u64_fault(
                    text::trim(out@),
                ),
            ),
        },
    }
}

/// The rows that landed in a window, by the server's answer.
pub fn rows_in_window(answer: &Result<String, String>) -> (r: Result<u64, String>)
    ensures
        match r {
            Ok(n) => landed(*answer) == Ok::<nat, Seq<char>>(n as nat),
            Err(e) => landed(*answer) == Err::<nat, Seq<char>>(e@),
        },
{
    match answer {
        Err(e) => {
            let mut m = "windowed row count failed: ".to_owned();
            m.append(e.as_str());
            Err(m)
        },
        Ok(out) => {
            let v = text::chars_of(out.as_str());
            let t = text::trimmed(v.as_slice());
            match text::to_u64(t) {
                Some(n) => Ok(n),
                None => {
                    let mut m = "windowed row count returned ".to_owned();
                    m.append(text::quoted(out.as_str()).as_str());
                    m.append(": ");
                    m.append(text::u64_error(t));
                    Err(m)
                },
            }
        },
    }
}

// ---------------------------------------------------------------------------
// Latency
// ---------------------------------------------------------------------------

/// What each row waited between being due and landing, as the server computed
/// it. Percentiles and a maximum, never a mean: the distribution has a heavy tail,
/// and its mean names a value that few rows met.
#[derive(Clone, Copy, Debug, PartialEq, Eq, Structural)]
pub struct Latency {
    /// Median, in microseconds.
    pub p50_us: Double,
    /// 99th percentile, in microseconds.
    pub p99_us: Double,
    /// 99.9th percentile, in microseconds.
    pub p999_us: Double,
    /// Worst observation, in microseconds.
    pub max_us: Double,
    /// Rows that the distribution rests on.
    pub rows: u64,
}

/// The statement that asks for the latency of the rows that landed in a window.
pub open spec fn latency_statement(table: Seq<char>, from_ms: int, to_ms: int) -> Seq<char> {
    "SELECT quantile(0.5)(lat), quantile(0.99)(lat), quantile(0.999)(lat), max(lat), count() FROM (SELECT toUnixTimestamp64Micro(ingest_ts) - toUnixTimestamp64Micro(send_ts) AS lat FROM "@
        + table + " WHERE toUnixTimestamp64Milli(ingest_ts) >= "@ + text::decimal(from_ms as nat)
        + " AND toUnixTimestamp64Milli(ingest_ts) < "@ + text::decimal(to_ms as nat) + ")"@
}

/// The statement that asks for the latency of the rows that landed in a window.
/// The percentiles are sampled, since an exact one takes memory in proportion to
/// the rows; the maximum is exact.
pub fn latency_sql(table: &str, from_ms: u64, to_ms: u64) -> (s: String)
    ensures
        s@ == latency_statement(table@, from_ms as int, to_ms as int),
{
    let mut s =
        "SELECT quantile(0.5)(lat), quantile(0.99)(lat), quantile(0.999)(lat), max(lat), count() FROM (SELECT toUnixTimestamp64Micro(ingest_ts) - toUnixTimestamp64Micro(send_ts) AS lat FROM ".to_owned();
    s.append(table);
    s.append(" WHERE toUnixTimestamp64Milli(ingest_ts) >= ");
    text::push_decimal(&mut s, from_ms as u128);
    s.append(" AND toUnixTimestamp64Milli(ingest_ts) < ");
    text::push_decimal(&mut s, to_ms as u128);
    s.append(")");
    s
}

/// `s` with a tab in the place of each line feed.
pub open spec fn tabbed(s: Seq<char>) -> Seq<char> {
    s.map_values(
        |c: char|
            if c == '\n' {
                '\t'
            } else {
                c
            },
    )
}

/// The cells of an answer, between its tabs and line feeds.
pub open spec fn cells(s: Seq<char>) -> Seq<Seq<char>> {
    text::split(tabbed(s), "\t"@)
}

/// The refusal of a cell that is no number.
pub open spec fn cell_refusal(i: int, cell: Seq<char>) -> Seq<char> {
    "latency query field "@ + text::decimal(i as nat) + " was "@ + text::debug_text(cell) + ": "@
        + double::fault(cell)
}

/// The latency that the cells of an answer state, or why there is none.
pub open spec fn latency_of(out: Seq<char>) -> Result<Latency, Seq<char>> {
    let f = cells(text::trim(out));
    if f.len() < 5 {
        Err("latency query returned "@ + text::debug_text(out))
    } else {
        match text::parse_u64(f[4]) {
            None => Err(
                "latency query row count was "@ + text::debug_text(f[4]) + ": "@ + text::u64_fault(
                    f[4],
                ),
            ),
            Some(rows) => if rows == 0 {
                Err(
                    "no rows landed inside the measurement window, so there is no latency distribution — the arm consumed nothing while the window was open"@,
                )
            } else if double::parse(f[0]) is None {
                Err(cell_refusal(0, f[0]))
            } else if double::parse(f[1]) is None {
                Err(cell_refusal(1, f[1]))
            } else if double::parse(f[2]) is None {
                Err(cell_refusal(2, f[2]))
            } else if double::parse(f[3]) is None {
                Err(cell_refusal(3, f[3]))
            } else {
                Ok(
                    Latency {
                        p50_us: double::parse(f[0])->0,
                        p99_us: double::parse(f[1])->0,
                        p999_us: double::parse(f[2])->0,
                        max_us: double::parse(f[3])->0,
                        rows: rows as u64,
                    },
                )
            },
        }
    }
}

/// The latency that an answer states, or why there is none.
pub open spec fn latency_answer(answer: Result<String, String>) -> Result<Latency, Seq<char>> {
    match answer {
        Err(e) => Err("latency query failed: "@ + e@),
        Ok(out) => latency_of(out@),
    }
}

fn with_tabs(s: &[char]) -> (out: Vec<char>)
    ensures
        out@ == tabbed(s@),
{
    let mut out: Vec<char> = Vec::new();
    let mut i: usize = 0;
    while i < s.len()
        invariant
            i <= s.len(),
            out@ == tabbed(s@.take(i as int)),
        decreases s.len() - i,
    {
        let ghost was = out@;
        if s[i] == '\n' {
            out.push('\t');
        } else {
            out.push(s[i]);
        }
        assert(out@ =~= tabbed(s@.take(i + 1)));
        i = i + 1;
    }
    assert(s@.take(i as int) =~= s@);
    out
}

fn cell(f: &Vec<&[char]>, i: usize) -> (r: Result<Double, String>)
    requires
        i < f@.len(),
    ensures
        match r {
            Ok(n) => double::parse(f@[i as int]@) == Some(n),
            Err(e) => double::parse(f@[i as int]@) is None && e@ == cell_refusal(
                i as int,
                f@[i as int]@,
            ),
        },
{
    match double::read(f[i]) {
        Some(n) => Ok(n),
        None => {
            let mut m = "latency query field ".to_owned();
            text::push_decimal(&mut m, i as u128);
            m.append(" was ");
            m.append(text::quoted(text::string_of(f[i]).as_str()).as_str());
            m.append(": ");
            m.append(double::fault_of(f[i]));
            Err(m)
        },
    }
}

/// The latency over a window, by the server's answer.
pub fn latency_in_window(answer: &Result<String, String>) -> (r: Result<Latency, String>)
    ensures
        match r {
            Ok(l) => latency_answer(*answer) == Ok::<Latency, Seq<char>>(l),
            Err(e) => latency_answer(*answer) == Err::<Latency, Seq<char>>(e@),
        },
{
    let out = match answer {
        Err(e) => {
            let mut m = "latency query failed: ".to_owned();
            m.append(e.as_str());
            return Err(m);
        },
        Ok(out) => out,
    };
    let v = text::chars_of(out.as_str());
    let t = with_tabs(text::trimmed(v.as_slice()));
    proof {
        reveal_strlit("\t");
    }
    let f = text::fields(t.as_slice(), "\t");
    let ghost fs = text::views(f@);
    assert(fs.len() == f@.len());
    assert(forall|k: int| 0 <= k < f@.len() ==> fs[k] == (#[trigger] f@[k])@);
    if f.len() < 5 {
        let mut m = "latency query returned ".to_owned();
        m.append(text::quoted(out.as_str()).as_str());
        return Err(m);
    }
    let rows: u64 = match text::to_u64(f[4]) {
        Some(n) => n,
        None => {
            let mut m = "latency query row count was ".to_owned();
            m.append(text::quoted(text::string_of(f[4]).as_str()).as_str());
            m.append(": ");
            m.append(text::u64_error(f[4]));
            return Err(m);
        },
    };
    if rows == 0 {
        return Err(
            "no rows landed inside the measurement window, so there is no latency distribution — the arm consumed nothing while the window was open".to_owned(),
        );
    }
    let p50_us: Double = match cell(&f, 0) {
        Ok(n) => n,
        Err(e) => {
            return Err(e);
        },
    };
    let p99_us: Double = match cell(&f, 1) {
        Ok(n) => n,
        Err(e) => {
            return Err(e);
        },
    };
    let p999_us: Double = match cell(&f, 2) {
        Ok(n) => n,
        Err(e) => {
            return Err(e);
        },
    };
    let max_us: Double = match cell(&f, 3) {
        Ok(n) => n,
        Err(e) => {
            return Err(e);
        },
    };
    Ok(Latency { p50_us, p99_us, p999_us, max_us, rows })
}

// ---------------------------------------------------------------------------
// How the arm was loaded
// ---------------------------------------------------------------------------

/// The part of a measurement that depends on how the arm was loaded. A drain
/// carries nothing here, so there is no latency of a drain to publish.
#[derive(Clone, Copy, Debug, PartialEq, Eq, Structural)]
pub enum Load {
    /// Drained a prefilled topic.
    Drain,
    /// Consumed a live producer at a fixed rate.
    Sustained(Sustained),
}

/// What a sustained window measured that a drain cannot.
#[derive(Clone, Copy, Debug, PartialEq, Eq, Structural)]
pub struct Sustained {
    /// Offered rows per second: the offered messages at the workload's own yield.
    pub offered_rows_per_s: Double,
    /// Consumed rows per second over offered rows per second.
    pub kept_up_share: Double,
    /// The most that a producer thread ran behind its schedule, in milliseconds.
    pub max_schedule_lag_ms: Double,
    /// The latency over the window.
    pub latency: Latency,
}

impl Sustained {
    /// Whether the arm kept up with the offered rate: its share is at least 98%.
    pub open spec fn followed(self) -> bool {
        double::quotient(98, 100).le(self.kept_up_share)
    }

    /// Whether the arm kept up with the offered rate. One predicate decides the flag,
    /// the note and the names of the metrics.
    pub fn kept_up(&self) -> (r: bool)
        ensures
            r == self.followed(),
    {
        Double::quotient(98, 100).at_most(self.kept_up_share)
    }

    /// What the names of the latency figures begin with.
    pub open spec fn prefix(self) -> Seq<char> {
        if self.followed() {
            "latency"@
        } else {
            "backlog_age"@
        }
    }

    /// What the names of the latency figures begin with. Those of an arm that
    /// fell behind describe the age of its backlog, and are not to be averaged
    /// with a latency under one name.
    pub fn latency_prefix(&self) -> (s: &'static str)
        ensures
            s@ == self.prefix(),
    {
        if self.kept_up() {
            "latency"
        } else {
            "backlog_age"
        }
    }
}

/// Rows that one message yields; zero where there is no corpus.
pub open spec fn yield_of(expected_rows: int, batches: int) -> Double {
    if batches == 0 {
        Double::zero(false)
    } else {
        double::of(expected_rows as nat).over(double::of(batches as nat))
    }
}

/// Rows that one message yields. The filters drop events, so this is the
/// workload's own yield and not the number of events in a message.
pub fn rows_per_message(expected_rows: u64, batches: u64) -> (r: Double)
    ensures
        r == yield_of(expected_rows as int, batches as int),
{
    if batches == 0 {
        Double::nothing()
    } else {
        Double::of(expected_rows as u128).divide(Double::of(batches as u128))
    }
}

fn key_of(prefix: &str, rest: &str) -> (s: String)
    ensures
        s@ == prefix@ + rest@,
{
    let mut s = prefix.to_owned();
    s.append(rest);
    s
}

/// A duration in microseconds.
pub open spec fn microseconds(us: Double) -> MetricView {
    report::less_is_better(us, "us"@)
}

fn us(n: Double) -> (m: Metric)
    ensures
        m@ == microseconds(n),
{
    Metric::minimize(n, "us")
}

/// A count where less is better.
pub open spec fn fewer(n: nat, unit: Seq<char>) -> MetricView {
    report::less_is_better(double::of(n), unit)
}

/// The figures of one mode alone. A drain has none.
pub open spec fn mode_figures(load: Load) -> Seq<(Seq<char>, MetricView)> {
    match load {
        Load::Drain => Seq::empty(),
        Load::Sustained(s) => seq![
            ("kept_up_share"@, report::more_is_better(s.kept_up_share, "ratio"@)),
            ("offered_rows_per_s"@, report::more_is_better(s.offered_rows_per_s, "records/s"@)),
            ("max_schedule_lag_us"@, microseconds(s.max_schedule_lag_ms.times(double::of(1000)))),
            (s.prefix() + "_p50_us"@, microseconds(s.latency.p50_us)),
            (s.prefix() + "_p99_us"@, microseconds(s.latency.p99_us)),
            (s.prefix() + "_p999_us"@, microseconds(s.latency.p999_us)),
            (s.prefix() + "_max_us"@, microseconds(s.latency.max_us)),
            (
                s.prefix() + "_rows"@,
                report::more_is_better(double::of(s.latency.rows as nat), "rows"@),
            ),
        ],
    }
}

/// The metrics of one mode alone: the one place from which a latency figure can
/// reach a record.
pub fn mode_metrics(load: &Load) -> (out: Vec<(String, Metric)>)
    ensures
        report::metric_list(out@) == mode_figures(*load),
{
    let mut out: Vec<(String, Metric)> = Vec::new();
    if let Load::Sustained(s) = load {
        let p = s.latency_prefix();
        report::put_metric(&mut out, "kept_up_share".to_owned(), Metric::share(s.kept_up_share));
        report::put_metric(
            &mut out,
            "offered_rows_per_s".to_owned(),
            Metric::maximize(s.offered_rows_per_s, "records/s"),
        );
        report::put_metric(
            &mut out,
            "max_schedule_lag_us".to_owned(),
            us(s.max_schedule_lag_ms.multiply(Double::of(1000))),
        );
        report::put_metric(&mut out, key_of(p, "_p50_us"), us(s.latency.p50_us));
        report::put_metric(&mut out, key_of(p, "_p99_us"), us(s.latency.p99_us));
        report::put_metric(&mut out, key_of(p, "_p999_us"), us(s.latency.p999_us));
        report::put_metric(&mut out, key_of(p, "_max_us"), us(s.latency.max_us));
        report::put_metric(
            &mut out,
            key_of(p, "_rows"),
            Metric::maximize(Double::of(s.latency.rows as u128), "rows"),
        );
    }
    assert(report::metric_list(out@) =~= mode_figures(*load));
    out
}

// ---------------------------------------------------------------------------
// What the arm cost the server
// ---------------------------------------------------------------------------

/// Merge work against a window. Charged to nobody, and in the way of the arm.
pub open spec fn merge_figures(m: MergeActivity) -> Seq<(Seq<char>, MetricView)> {
    seq![
        ("ch_rows_merged"@, fewer(m.rows_merged as nat, "rows"@)),
        (
            "ch_merge_duration_us"@,
            microseconds(double::of(m.duration_ms as nat).times(double::of(1000))),
        ),
    ]
}

/// Merge work against a window, as metrics.
pub fn merge_metrics(m: MergeActivity) -> (out: Vec<(String, Metric)>)
    ensures
        report::metric_list(out@) == merge_figures(m),
{
    let mut out: Vec<(String, Metric)> = Vec::new();
    report::put_metric(
        &mut out,
        "ch_rows_merged".to_owned(),
        Metric::minimize(Double::of(m.rows_merged as u128), "rows"),
    );
    report::put_metric(
        &mut out,
        "ch_merge_duration_us".to_owned(),
        us(Double::of(m.duration_ms as u128).multiply(Double::of(1000))),
    );
    assert(report::metric_list(out@) =~= merge_figures(m));
    out
}

/// A figure, where there is one.
pub open spec fn if_known(key: Seq<char>, m: Option<MetricView>) -> Seq<(Seq<char>, MetricView)> {
    match m {
        Some(v) => seq![(key, v)],
        None => Seq::empty(),
    }
}

/// A count per count, where there is something to divide by.
pub open spec fn per(num: u128, den: int) -> Option<MetricView> {
    if den > 0 {
        Some(microseconds(double::of(num as nat).over(double::of(den as nat))))
    } else {
        None
    }
}

/// A count, where it was reported.
pub open spec fn reported(n: Option<u128>, unit: Seq<char>) -> Option<MetricView> {
    match n {
        Some(v) => Some(fewer(v as nat, unit)),
        None => None,
    }
}

/// What an arm's inserts cost the server: per row that landed, which may be added
/// to the arm's own cost, and per row that was written, which describes the
/// format. A counter that the server did not report is absent.
pub open spec fn server_figures(cost: ServerSideCost, rows: u64) -> Seq<(Seq<char>, MetricView)> {
    if_known("ch_cpu_us_per_row"@, per(cost.cpu_us, rows as int)) + if_known(
        "ch_cpu_us_per_written_row"@,
        per(cost.cpu_us, cost.written_rows as int),
    ) + seq![
        ("ch_cpu_us"@, fewer(cost.cpu_us as nat, "us"@)),
        ("ch_written_rows"@, fewer(cost.written_rows as nat, "rows"@)),
        ("ch_rows_per_insert"@, report::more_is_better(cost.batch_size(), "rows"@)),
    ] + if_known("ch_cpu_wait_us"@, reported(cost.os_cpu_wait_us, "us"@)) + if_known(
        "ch_inserted_bytes"@,
        reported(cost.inserted_bytes, "bytes"@),
    )
}

/// What an arm's inserts cost the server, as metrics.
pub fn server_metrics(cost: &ServerSideCost, rows: u64) -> (out: Vec<(String, Metric)>)
    ensures
        report::metric_list(out@) == server_figures(*cost, rows),
{
    let mut out: Vec<(String, Metric)> = Vec::new();
    if let Ok(q) = cost.cpu_us_per_landed_row(rows) {
        report::put_metric(&mut out, "ch_cpu_us_per_row".to_owned(), Metric::minimize(q, "us"));
    }
    if let Ok(q) = cost.cpu_us_per_written_row() {
        report::put_metric(
            &mut out,
            "ch_cpu_us_per_written_row".to_owned(),
            Metric::minimize(q, "us"),
        );
    }
    report::put_metric(
        &mut out,
        "ch_cpu_us".to_owned(),
        Metric::minimize(Double::of(cost.cpu_us), "us"),
    );
    report::put_metric(
        &mut out,
        "ch_written_rows".to_owned(),
        Metric::minimize(Double::of(cost.written_rows), "rows"),
    );
    report::put_metric(
        &mut out,
        "ch_rows_per_insert".to_owned(),
        Metric::maximize(cost.rows_per_insert(), "rows"),
    );
    if let Some(n) = cost.os_cpu_wait_us {
        report::put_metric(
            &mut out,
            "ch_cpu_wait_us".to_owned(),
            Metric::minimize(Double::of(n), "us"),
        );
    }
    if let Some(n) = cost.inserted_bytes {
        report::put_metric(
            &mut out,
            "ch_inserted_bytes".to_owned(),
            Metric::bytes(Double::of(n)),
        );
    }
    assert(report::metric_list(out@) =~= server_figures(*cost, rows));
    out
}

// ---------------------------------------------------------------------------
// What the arm's runtime cost it
// ---------------------------------------------------------------------------

/// What an arm's virtual machines reported of their collectors. The two planes
/// are kept apart: a sum of their pauses would name an interval in which neither
/// was entirely stopped. Both are missing for an arm without a collector and for
/// one whose log could not be read, and neither is a pause total of zero.
#[derive(Debug)]
pub struct Gc {
    /// The data plane's.
    pub data_plane: Option<GcSummary>,
    /// The control plane's.
    pub control_plane: Option<GcSummary>,
}

impl Default for Gc {
    fn default() -> (gc: Gc)
        ensures
            gc.data_plane is None,
            gc.control_plane is None,
    {
        Gc { data_plane: None, control_plane: None }
    }
}

/// A heap size, where it was observed.
pub open spec fn heap(bytes: Option<u64>) -> Option<MetricView> {
    match bytes {
        Some(n) => Some(fewer(n as nat, "bytes"@)),
        None => None,
    }
}

/// The figures of one virtual machine.
pub open spec fn gc_figures_for(prefix: Seq<char>, s: GcSummary) -> Seq<(Seq<char>, MetricView)> {
    seq![
        (prefix + "gc_pause_total_us"@, microseconds(s.total_us)),
        (prefix + "gc_pause_max_us"@, microseconds(s.max_us)),
        (prefix + "gc_pause_p99_us"@, microseconds(s.p99_us)),
        (prefix + "gc_pause_p999_us"@, microseconds(s.p999_us)),
    ] + if_known(prefix + "jvm_heap_configured_bytes"@, heap(s.configured.max_bytes)) + if_known(
        prefix + "jvm_heap_committed_peak_bytes"@,
        heap(s.peak_committed_bytes),
    ) + if_known(prefix + "jvm_heap_live_peak_bytes"@, heap(s.peak_live_bytes))
}

/// A heap size as a metric.
pub fn heap_bytes(bytes: u64) -> (m: Metric)
    ensures
        m@ == heap(Some(bytes))->0,
{
    Metric::bytes(Double::of(bytes as u128))
}

/// The figures of one virtual machine, as metrics. Each heap figure is there only
/// where it was observed: a missing side makes the gap undefined, not large.
pub fn gc_metrics_for(prefix: &str, s: &GcSummary) -> (out: Vec<(String, Metric)>)
    ensures
        report::metric_list(out@) == gc_figures_for(prefix@, *s),
{
    let mut out: Vec<(String, Metric)> = Vec::new();
    report::put_metric(&mut out, key_of(prefix, "gc_pause_total_us"), us(s.total_us));
    report::put_metric(&mut out, key_of(prefix, "gc_pause_max_us"), us(s.max_us));
    report::put_metric(&mut out, key_of(prefix, "gc_pause_p99_us"), us(s.p99_us));
    report::put_metric(&mut out, key_of(prefix, "gc_pause_p999_us"), us(s.p999_us));
    if let Some(n) = s.configured.max_bytes {
        report::put_metric(&mut out, key_of(prefix, "jvm_heap_configured_bytes"), heap_bytes(n));
    }
    if let Some(n) = s.peak_committed_bytes {
        report::put_metric(
            &mut out,
            key_of(prefix, "jvm_heap_committed_peak_bytes"),
            heap_bytes(n),
        );
    }
    if let Some(n) = s.peak_live_bytes {
        report::put_metric(&mut out, key_of(prefix, "jvm_heap_live_peak_bytes"), heap_bytes(n));
    }
    assert(report::metric_list(out@) =~= gc_figures_for(prefix@, *s));
    out
}

/// The figures of both planes: the data plane's pauses stopped the ingestion and
/// lead, the control plane's stand beside them.
pub open spec fn gc_figures(gc: Gc) -> Seq<(Seq<char>, MetricView)> {
    (match gc.data_plane {
        Some(s) => gc_figures_for(""@, s),
        None => Seq::empty(),
    }) + (match gc.control_plane {
        Some(s) => gc_figures_for("control_plane_"@, s),
        None => Seq::empty(),
    })
}

/// Appends named metrics.
pub fn put_all(out: &mut Vec<(String, Metric)>, more: Vec<(String, Metric)>)
    ensures
        report::metric_list(final(out)@) == report::metric_list(old(out)@) + report::metric_list(
            more@,
        ),
{
    let ghost start = report::metric_list(out@);
    let ghost all = report::metric_list(more@);
    assert(start + all.take(0) =~= start);
    for e in it: more
        invariant
            it.seq() == more@,
            all == report::metric_list(more@),
            report::metric_list(out@) == start + all.take(it.index()),
    {
        let ghost n = it.index();
        let (key, metric) = e;
        report::put_metric(out, key, metric);
        assert(start + all.take(n + 1) =~= (start + all.take(n)).push((key@, metric@)));
    }
    assert(all.take(all.len() as int) =~= all);
}

/// The figures of both planes, as metrics.
pub fn gc_metrics(gc: &Gc) -> (out: Vec<(String, Metric)>)
    ensures
        report::metric_list(out@) == gc_figures(*gc),
{
    let mut out: Vec<(String, Metric)> = Vec::new();
    if let Some(s) = &gc.data_plane {
        put_all(&mut out, gc_metrics_for("", s));
    }
    if let Some(s) = &gc.control_plane {
        put_all(&mut out, gc_metrics_for("control_plane_", s));
    }
    assert(report::metric_list(out@) =~= gc_figures(*gc));
    out
}

/// The readings of each container.
pub open spec fn rows_of_each(costs: Seq<(String, Samples)>) -> Seq<Seq<Sample>> {
    costs.map_values(|c: (String, Samples)| c.1.rows@)
}

/// The arm's footprint: what its containers held at one instant. Where no sample
/// was readable it is what their peaks add up to.
pub open spec fn footprint(costs: Seq<(String, Samples)>, summed: int) -> int {
    match sampler::simultaneous_peak(rows_of_each(costs)) {
        Some(p) => p,
        None => summed,
    }
}

/// The arm's footprint: what its containers held at one instant. Their separate
/// peaks add up to more than the machine ever saw.
pub fn arm_peak_anon(costs: &[(String, Samples)], summed: u128) -> (n: u128)
    requires
        sampler::latest(sampler::each_readable(rows_of_each(costs@))) matches Some(t) ==> t
            < u64::MAX,
    ensures
        n == footprint(costs@, summed as int),
{
    let mut series: Vec<&[Sample]> = Vec::new();
    let mut i: usize = 0;
    while i < costs.len()
        invariant
            i <= costs.len(),
            sampler::series_of(series@) == rows_of_each(costs@.take(i as int)),
        decreases costs.len() - i,
    {
        let ghost was = sampler::series_of(series@);
        let rows: &[Sample] = costs[i].1.rows.as_slice();
        series.push(rows);
        assert(sampler::series_of(series@) =~= was.push(rows@));
        assert(rows_of_each(costs@.take(i + 1)) =~= rows_of_each(costs@.take(i as int)).push(
            rows@,
        ));
        i = i + 1;
    }
    assert(costs@.take(i as int) =~= costs@);
    match sampler::simultaneous_peak_anon(series.as_slice()) {
        Some(p) => p,
        None => summed,
    }
}

// ---------------------------------------------------------------------------
// Laws
// ---------------------------------------------------------------------------

/// Whether one of the figures has a name that begins with `p`.
pub open spec fn names_one(figures: Seq<(Seq<char>, MetricView)>, p: Seq<char>) -> bool {
    exists|i: int| 0 <= i < figures.len() && text::starts_with((#[trigger] figures[i]).0, p)
}

/// A drain publishes no latency and no age of a backlog.
pub proof fn a_drain_has_no_latency()
    ensures
        mode_figures(Load::Drain).len() == 0,
{
}

/// A sustained arm publishes its figures under one of two names and never under
/// both: as a latency if it kept up, and as the age of a backlog if it did not.
pub proof fn a_saturated_arm_publishes_no_latency(s: Sustained)
    ensures
        s.followed() ==> !names_one(mode_figures(Load::Sustained(s)), "backlog_age"@),
        !s.followed() ==> !names_one(mode_figures(Load::Sustained(s)), "latency"@),
        names_one(mode_figures(Load::Sustained(s)), s.prefix()),
{
    reveal_strlit("latency");
    reveal_strlit("backlog_age");
    reveal_strlit("kept_up_share");
    reveal_strlit("offered_rows_per_s");
    reveal_strlit("max_schedule_lag_us");
    reveal_strlit("_p50_us");
    reveal_strlit("_p99_us");
    reveal_strlit("_p999_us");
    reveal_strlit("_max_us");
    reveal_strlit("_rows");
    let f = mode_figures(Load::Sustained(s));
    assert(f[3].0 == s.prefix() + "_p50_us"@);
    assert(f[3].0.take(s.prefix().len() as int) =~= s.prefix());
    assert(text::starts_with(f[3].0, s.prefix()));
    let other = if s.followed() {
        "backlog_age"@
    } else {
        "latency"@
    };
    assert forall|i: int| 0 <= i < f.len() implies !text::starts_with((#[trigger] f[i]).0, other) by {
        if text::starts_with(f[i].0, other) {
            assert(f[i].0.take(other.len() as int)[0] == other[0]);
            assert(f[i].0[0] == other[0]);
        }
    }
}

/// An arm without a collector publishes no collector figure, and neither does one
/// whose log could not be read.
pub proof fn no_collector_has_no_pauses(gc: Gc)
    requires
        gc.data_plane is None,
        gc.control_plane is None,
    ensures
        gc_figures(gc).len() == 0,
{
}

/// An arm never holds more at one instant than its peaks add up to.
pub proof fn a_footprint_is_at_most_its_peaks(costs: Seq<(String, Samples)>, summed: int)
    requires
        summed >= sampler::sum_of_peaks(sampler::each_readable(rows_of_each(costs))),
    ensures
        footprint(costs, summed) <= summed,
{
    sampler::an_arm_never_holds_more_than_its_peaks_add_up_to(rows_of_each(costs));
}

/// The window of an arm covers the readable readings of all its containers: none
/// lies before it or behind it, and it begins and ends with one.
pub proof fn the_window_covers_every_container(
    costs: Seq<(String, Samples)>,
    from: int,
    to: int,
    i: int,
)
    requires
        costs.len() > 0,
        readable_span(costs) == Some((from, to)),
        0 <= i < costs.len(),
    ensures
        ({
            let r = sampler::readable_rows(costs[i].1.rows@);
            r.len() > 0 && from <= r[0].t_ms && r[r.len() - 1].t_ms <= to
        }),
        exists|k: int|
            0 <= k < costs.len() && from == sampler::readable_rows(
                (#[trigger] costs[k]).1.rows@,
            )[0].t_ms,
        to > 0 ==> exists|k: int|
            0 <= k < costs.len() && to == sampler::readable_rows(
                (#[trigger] costs[k]).1.rows@,
            ).last().t_ms,
    decreases costs.len(),
{
    let less = costs.drop_last();
    let r = sampler::readable_rows(costs.last().1.rows@);
    assert(costs[costs.len() - 1] == costs.last());
    if less.len() > 0 {
        let (a, z) = readable_span(less)->0;
        let j = if i < less.len() {
            i
        } else {
            0
        };
        the_window_covers_every_container(less, a, z, j);
        assert(less[j] == costs[j]);
        let k = choose|k: int|
            0 <= k < less.len() && a == sampler::readable_rows(
                (#[trigger] less[k]).1.rows@,
            )[0].t_ms;
        assert(costs[k] == less[k]);
        if z > 0 {
            let l = choose|l: int|
                0 <= l < less.len() && z == sampler::readable_rows(
                    (#[trigger] less[l]).1.rows@,
                ).last().t_ms;
            assert(costs[l] == less[l]);
        }
    } else {
        assert(readable_span(less) == Some((u64::MAX as int, 0int)));
    }
}

proof fn lemma_holds(s: Seq<char>, a: Seq<char>, p: Seq<char>, b: Seq<char>)
    requires
        s == a + p + b,
    ensures
        text::contains(s, p),
{
    let i = a.len() as int;
    assert(s.subrange(i, i + p.len()) =~= p);
    assert(text::occurs(s, p, i));
}

/// Both statements ask of the workload's table for what was ingested from the
/// window's start on and before its end, in milliseconds since the epoch.
pub proof fn the_statements_ask_for_the_window(table: Seq<char>, from_ms: int, to_ms: int)
    requires
        0 <= from_ms,
        0 <= to_ms,
    ensures
        ({
            let lower = "toUnixTimestamp64Milli(ingest_ts) >= "@ + text::decimal(from_ms as nat)
                + " "@;
            let upper = "toUnixTimestamp64Milli(ingest_ts) < "@ + text::decimal(to_ms as nat);
            let s = rows_statement(table, from_ms, to_ms);
            let l = latency_statement(table, from_ms, to_ms);
            &&& text::contains(s, lower) && text::ends_with(s, upper)
            &&& text::contains(s, " FROM "@ + table + " WHERE "@)
            &&& text::contains(l, lower) && text::ends_with(l, upper + ")"@)
            &&& text::contains(l, " FROM "@ + table + " WHERE "@)
        }),
{
    let (f, t) = (text::decimal(from_ms as nat), text::decimal(to_ms as nat));
    let lower = "toUnixTimestamp64Milli(ingest_ts) >= "@ + f + " "@;
    let upper = "toUnixTimestamp64Milli(ingest_ts) < "@ + t;
    let s = rows_statement(table, from_ms, to_ms);
    let l = latency_statement(table, from_ms, to_ms);
    reveal_strlit(" ");
    reveal_strlit(")");
    reveal_strlit("AND ");
    reveal_strlit(" FROM ");
    reveal_strlit(" WHERE ");
    reveal_strlit("SELECT count()");
    reveal_strlit("SELECT count() FROM ");
    reveal_strlit("toUnixTimestamp64Milli(ingest_ts) >= ");
    reveal_strlit("toUnixTimestamp64Milli(ingest_ts) < ");
    reveal_strlit(" WHERE toUnixTimestamp64Milli(ingest_ts) >= ");
    reveal_strlit(" AND toUnixTimestamp64Milli(ingest_ts) < ");
    let w = " WHERE toUnixTimestamp64Milli(ingest_ts) >= "@;
    let g = " AND toUnixTimestamp64Milli(ingest_ts) < "@;
    assert(w =~= " WHERE "@ + "toUnixTimestamp64Milli(ingest_ts) >= "@);
    assert(g =~= " "@ + "AND "@ + "toUnixTimestamp64Milli(ingest_ts) < "@);
    let head = "SELECT count() FROM "@;
    assert(head =~= "SELECT count()"@ + " FROM "@);
    assert(s =~= (head + table + " WHERE "@) + lower + ("AND "@ + upper));
    lemma_holds(s, head + table + " WHERE "@, lower, "AND "@ + upper);
    assert(s.skip(s.len() - upper.len()) =~= upper);
    assert(s =~= "SELECT count()"@ + (" FROM "@ + table + " WHERE "@) + (
    "toUnixTimestamp64Milli(ingest_ts) >= "@ + f + g + t));
    lemma_holds(
        s,
        "SELECT count()"@,
        " FROM "@ + table + " WHERE "@,
        "toUnixTimestamp64Milli(ingest_ts) >= "@ + f + g + t,
    );
    let long = "SELECT quantile(0.5)(lat), quantile(0.99)(lat), quantile(0.999)(lat), max(lat), count() FROM (SELECT toUnixTimestamp64Micro(ingest_ts) - toUnixTimestamp64Micro(send_ts) AS lat FROM "@;
    lemma_latency_head(long);
    let start = long.take(long.len() - 6);
    assert(long =~= start + " FROM "@);
    assert(l =~= (long + table + " WHERE "@) + lower + ("AND "@ + upper + ")"@));
    lemma_holds(l, long + table + " WHERE "@, lower, "AND "@ + upper + ")"@);
    assert(l.skip(l.len() - (upper + ")"@).len()) =~= upper + ")"@);
    let tail = "toUnixTimestamp64Milli(ingest_ts) >= "@ + f + g + t + ")"@;
    assert(l =~= start + (" FROM "@ + table + " WHERE "@) + tail);
    lemma_holds(l, start, " FROM "@ + table + " WHERE "@, tail);
}

proof fn lemma_latency_head(long: Seq<char>)
    requires
        long
            == "SELECT quantile(0.5)(lat), quantile(0.99)(lat), quantile(0.999)(lat), max(lat), count() FROM (SELECT toUnixTimestamp64Micro(ingest_ts) - toUnixTimestamp64Micro(send_ts) AS lat FROM "@,
    ensures
        long.len() >= 6,
        long.skip(long.len() - 6) == " FROM "@,
{
    reveal_strlit(
        "SELECT quantile(0.5)(lat), quantile(0.99)(lat), quantile(0.999)(lat), max(lat), count() FROM (SELECT toUnixTimestamp64Micro(ingest_ts) - toUnixTimestamp64Micro(send_ts) AS lat FROM ",
    );
    reveal_strlit(" FROM ");
    assert(long.skip(long.len() - 6) =~= " FROM "@);
}

/// An answer to the latency statement is read cell by cell, in the order in which
/// the statement asks: the median, the two high percentiles, the maximum, and the
/// rows.
pub proof fn an_answer_reads_as_its_cells(
    a: Seq<char>,
    b: Seq<char>,
    c: Seq<char>,
    d: Seq<char>,
    n: u64,
)
    requires
        text::is_word(a) && double::parse(a) is Some,
        text::is_word(b) && double::parse(b) is Some,
        text::is_word(c) && double::parse(c) is Some,
        text::is_word(d) && double::parse(d) is Some,
        n > 0,
    ensures
        ({
            let out = text::join(seq![a, b, c, d, text::decimal(n as nat)], seq!['\t']);
            latency_of(out) == Ok::<Latency, Seq<char>>(
                Latency {
                    p50_us: double::parse(a)->0,
                    p99_us: double::parse(b)->0,
                    p999_us: double::parse(c)->0,
                    max_us: double::parse(d)->0,
                    rows: n,
                },
            )
        }),
{
    let e = text::decimal(n as nat);
    let f = seq![a, b, c, d, e];
    let out = text::join(f, seq!['\t']);
    text::a_decimal_is_a_word(n as nat);
    text::decimal_reads_back(n as nat);
    reveal_strlit("\t");
    assert("\t"@ =~= seq!['\t']);
    assert forall|i: int| 0 <= i < f.len() implies text::is_word(#[trigger] f[i]) by {}
    assert forall|i: int, k: int| 0 <= i < f.len() && 0 <= k < f[i].len() implies #[trigger] f[i][k]
        != '\t' by {
        assert(text::is_word(f[i]));
        assert(!text::is_space(f[i][k]));
    }
    text::pieces_read_back(f, '\t');
    lemma_joined_cells(f);
    assert(!text::is_space(out[0]));
    assert(!text::is_space(out.last()));
    assert(text::trim_start(out) == out);
    assert(text::trim(out) == out);
    assert(tabbed(out) =~= out);
}

proof fn lemma_joined_cells(f: Seq<Seq<char>>)
    requires
        f.len() > 0,
        forall|i: int| 0 <= i < f.len() ==> text::is_word(#[trigger] f[i]),
    ensures
        ({
            let s = text::join(f, seq!['\t']);
            &&& s.len() > 0
            &&& s[0] == f[0][0]
            &&& s.last() == f.last().last()
            &&& forall|i: int| 0 <= i < s.len() ==> #[trigger] s[i] != '\n'
            &&& !text::is_space(s[0]) && !text::is_space(s.last())
        }),
    decreases f.len(),
{
    let s = text::join(f, seq!['\t']);
    let last = f[f.len() - 1];
    assert(text::is_word(last));
    assert(text::is_word(f[0]));
    assert forall|i: int| 0 <= i < last.len() implies #[trigger] last[i] != '\n' by {
        assert(!text::is_space(last[i]));
    }
    assert(!text::is_space(f[0][0]));
    assert(!text::is_space(last[last.len() - 1]));
    if f.len() > 1 {
        let less = f.drop_last();
        assert forall|i: int| 0 <= i < less.len() implies text::is_word(#[trigger] less[i]) by {
            assert(less[i] == f[i]);
        }
        lemma_joined_cells(less);
        let t = text::join(less, seq!['\t']);
        assert(s =~= t + seq!['\t'] + last);
        assert forall|i: int| 0 <= i < s.len() implies #[trigger] s[i] != '\n' by {
            if i < t.len() {
                assert(s[i] == t[i]);
            } else if i > t.len() {
                assert(s[i] == last[i - t.len() - 1]);
            }
        }
    }
}

/// What landed is the number that was answered.
pub proof fn what_landed_is_what_was_answered(answer: String, n: u64)
    requires
        answer@ == text::decimal(n as nat) || answer@ == text::decimal(n as nat).push('\n'),
    ensures
        landed(Ok::<String, String>(answer)) == Ok::<nat, Seq<char>>(n as nat),
{
    crate::driver::window::an_answered_count_is_read(answer, n);
}

} // verus!
