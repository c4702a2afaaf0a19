//! The record of one repetition of one arm.

use vstd::prelude::*;
use crate::double;
use crate::double::Double;
use crate::driver;
use crate::driver::Arm;
use crate::driver::Mode;
use crate::driver::RunOptions;
use crate::driver::figures;
use crate::driver::identity;
use crate::driver::load;
use crate::driver::load::MIN_WINDOW_S;
use crate::driver::measure::Measurement;
use crate::driver::note;
use crate::entrant::Approach;
use crate::entrant::Knob;
use crate::entrant::KnobView;
use crate::environment::Environment;
use crate::report;
use crate::report::Flag;
use crate::report::Infra;
use crate::report::Kind;
use crate::report::Metric;
use crate::report::MetricView;
use crate::report::Report;
use crate::report::RunMeta;
use crate::report::Sitting;
use crate::report::Status;
use crate::report::Sut;
use crate::report::Value;
use crate::report::ValueView;
use crate::sampler::INTERVAL_MS;
use crate::sampler::SutCost;
use crate::table;
use crate::table::Table;
use crate::text;

verus! {

/// The suite that the records belong to.
pub const BENCH: &'static str = "kafka_avro_clickhouse";

// ---------------------------------------------------------------------------
// What is run
// ---------------------------------------------------------------------------

/// The image of an arm: its own, or the one that the entrant builds.
pub open spec fn image_of(arm: Arm) -> Option<Seq<char>> {
    match arm.image {
        Some(i) => Some(i@),
        None => match arm.entrant.spec.build {
            Some(b) => Some(b.image@),
            None => None,
        },
    }
}

/// The image of an arm.
pub fn image_for(arm: &Arm<'_>) -> (r: Result<String, String>)
    ensures
        match r {
            Ok(s) => image_of(*arm) == Some(s@),
            Err(e) => image_of(*arm) is None && e@ == "no image for this entrant"@,
        },
{
    if let Some(i) = &arm.image {
        return Ok(i.as_str().to_owned());
    }
    match &arm.entrant.spec.build {
        Some(b) => Ok(b.image.as_str().to_owned()),
        None => Err("no image for this entrant".to_owned()),
    }
}

/// The version that an entrant pins; nothing where it pins none.
pub open spec fn pinned_of(arm: Arm) -> Seq<char> {
    match arm.entrant.spec.version {
        Some(v) => v.pinned@,
        None => Seq::empty(),
    }
}

/// Asserts an identified arm against the version that its entrant pins.
pub fn check_pin(arm: &Arm<'_>, sut: &Sut) -> (r: Result<(), String>)
    ensures
        match r {
            Ok(_) => !identity::has_moved(pinned_of(*arm), sut.version),
            Err(e) => identity::has_moved(pinned_of(*arm), sut.version) && e@
                == identity::moved_version(
                arm.entrant.spec.entrant.id@,
                pinned_of(*arm),
                sut.version->0@,
            ),
        },
{
    let none = "";
    proof {
        reveal_strlit("");
        assert(none@ =~= Seq::<char>::empty());
    }
    let pinned = match &arm.entrant.spec.version {
        Some(v) => v.pinned.as_str(),
        None => none,
    };
    identity::assert_pinned_version(arm.entrant.id(), pinned, &sut.version)
}

// ---------------------------------------------------------------------------
// Note and flags
// ---------------------------------------------------------------------------

/// The reasons why nothing that a run produces may be published, the run's own
/// before the environment's.
pub open spec fn bars(opts: RunOptions, env: Environment) -> Seq<Seq<char>> {
    (match opts.trigger.bar() {
        Some(b) => seq![b],
        None => Seq::empty(),
    }) + (match env.spec.class.bar() {
        Some(b) => seq![b],
        None => Seq::empty(),
    })
}

/// What the record says of what was measured, or of why nothing was.
pub open spec fn measured_words(outcome: Result<Measurement, String>) -> Seq<char> {
    match outcome {
        Ok(m) => m.note@,
        Err(why) => note::note_of(why@),
    }
}

/// The note of a record. What bars it from publication stands before anything
/// that a reader might stop after.
pub open spec fn full_note(
    opts: RunOptions,
    env: Environment,
    outcome: Result<Measurement, String>,
) -> Seq<char> {
    if bars(opts, env).len() == 0 {
        measured_words(outcome)
    } else {
        text::join(bars(opts, env), "; "@) + "; "@ + measured_words(outcome)
    }
}

/// The status of a record.
pub open spec fn status_of(outcome: Result<Measurement, String>) -> Status {
    match outcome {
        Ok(m) => m.status,
        Err(_) => Status::Failed,
    }
}

/// The caveats of a record, in the order in which they are attached.
pub open spec fn all_flags(
    base: Seq<Flag>,
    env: Environment,
    outcome: Result<Measurement, String>,
) -> Seq<Flag> {
    base + (match outcome {
        Ok(m) => (if m.cost.nr_throttled > 0 {
            seq![Flag::CpuCapThrottled]
        } else {
            Seq::empty()
        }) + (if m.cost.window_ms < MIN_WINDOW_S * 1000 {
            seq![Flag::ShortWindow]
        } else {
            Seq::empty()
        }) + m.flags@,
        Err(_) => Seq::empty(),
    }) + (if env.spec.class.bar() is Some {
        seq![Flag::UnpublishableEnvironment]
    } else {
        Seq::empty()
    })
}

/// The flags after each of `more` is attached.
pub open spec fn flagged_all(flags: Seq<Flag>, more: Seq<Flag>) -> Seq<Flag>
    decreases more.len(),
{
    if more.len() == 0 {
        flags
    } else {
        report::flagged(flagged_all(flags, more.drop_last()), more.last())
    }
}

fn note_text(opts: &RunOptions, env: &Environment, outcome: &Result<Measurement, String>) -> (s:
    String)
    ensures
        s@ == full_note(*opts, *env, *outcome),
{
    let words = match outcome {
        Ok(m) => m.note.as_str().to_owned(),
        Err(why) => note::note_for(why.as_str()),
    };
    let mut parts: Vec<String> = Vec::new();
    if let Some(b) = opts.trigger.publication_bar() {
        text::push_text(&mut parts, b);
    }
    if let Some(b) = env.publication_bar() {
        text::push_text(&mut parts, b);
    }
    assert(text::strings(parts@) =~= bars(*opts, *env));
    assert(text::strings(parts@).len() == parts@.len());
    if parts.len() == 0 {
        return words;
    }
    let mut s = text::joined(parts.as_slice(), "; ");
    s.append("; ");
    s.append(words.as_str());
    s
}

fn push_flags(out: &mut Vec<Flag>, more: &[Flag])
    ensures
        final(out)@ == old(out)@ + more@,
{
    let mut i: usize = 0;
    assert(out@ =~= old(out)@ + more@.take(0));
    while i < more.len()
        invariant
            i <= more.len(),
            out@ == old(out)@ + more@.take(i as int),
        decreases more.len() - i,
    {
        out.push(more[i]);
        assert(out@ =~= old(out)@ + more@.take(i + 1));
        i = i + 1;
    }
    assert(more@.take(i as int) =~= more@);
}

fn flag_list(base: &[Flag], env: &Environment, outcome: &Result<Measurement, String>) -> (out: Vec<
    Flag,
>)
    ensures
        out@ == all_flags(base@, *env, *outcome),
{
    let mut out: Vec<Flag> = Vec::new();
    push_flags(&mut out, base);
    if let Ok(m) = outcome {
        if m.cost.was_throttled() {
            out.push(Flag::CpuCapThrottled);
        }
        if m.cost.window_ms < MIN_WINDOW_S * 1000 {
            out.push(Flag::ShortWindow);
        }
        push_flags(&mut out, m.flags.as_slice());
    }
    if env.publication_bar().is_some() {
        out.push(Flag::UnpublishableEnvironment);
    }
    assert(out@ =~= all_flags(base@, *env, *outcome));
    out
}

// ---------------------------------------------------------------------------
// The configuration
// ---------------------------------------------------------------------------

/// What the values of a map hold.
pub open spec fn value_views(m: Map<Seq<char>, Value>) -> Map<Seq<char>, ValueView> {
    m.map_values(|v: Value| v@)
}

/// An approach as a record names it.
pub open spec fn approach_word(a: Approach) -> Seq<char> {
    match a {
        Approach::Realistic => "realistic"@,
        Approach::Tuned => "tuned"@,
        Approach::Stripped => "stripped"@,
    }
}

fn approach_name(a: Approach) -> (s: &'static str)
    ensures
        s@ == approach_word(a),
{
    match a {
        Approach::Realistic => "realistic",
        Approach::Tuned => "tuned",
        Approach::Stripped => "stripped",
    }
}

/// A count as a record holds it.
pub open spec fn counted(n: u64) -> ValueView {
    ValueView::Integer(load::smaller(n as int, i64::MAX as int))
}

fn count(n: u64) -> (v: Value)
    ensures
        v@ == counted(n),
{
    if n <= 0x7fff_ffff_ffff_ffff {
        Value::Integer(n as i64)
    } else {
        Value::Integer(i64::MAX)
    }
}

/// What every arm's configuration says first.
pub open spec fn basics(arm: Arm, env: Environment, opts: RunOptions) -> Map<
    Seq<char>,
    ValueView,
> {
    Map::empty().insert("approach"@, ValueView::Text(approach_word(arm.variant.approach))).insert(
        "mode"@,
        ValueView::Text(opts.mode.word()),
    ).insert("partitions"@, ValueView::Integer(env.spec.infra.partitions as int)).insert(
        "batches"@,
        counted(opts.batches),
    )
}

/// The configuration with the arm's envelope, so that two envelopes are never
/// averaged together.
pub open spec fn with_envelope(m: Map<Seq<char>, ValueView>, arm: Arm) -> Map<
    Seq<char>,
    ValueView,
> {
    match arm.entrant.spec.envelope {
        Some(e) => m.insert("envelope_cpus"@, ValueView::Text(e.cpus@)).insert(
            "envelope_memory"@,
            ValueView::Text(e.memory@),
        ),
        None => m,
    }
}

/// The configuration with the offered rate and the window, which are part of the
/// experiment.
pub open spec fn with_mode(m: Map<Seq<char>, ValueView>, mode: Mode) -> Map<Seq<char>, ValueView> {
    match mode {
        Mode::Drain => m,
        Mode::Sustained { offered_msgs_per_s, window_s } => m.insert(
            "offered_msgs_per_s"@,
            counted(offered_msgs_per_s),
        ).insert("window_s"@, counted(window_s)),
    }
}

/// What an arm reports of itself, as values.
pub open spec fn report_views(m: Map<Seq<char>, String>) -> Map<Seq<char>, ValueView> {
    m.map_values(|s: String| ValueView::Text(s@))
}

/// A knob as a record holds it: a number or a text.
pub open spec fn knob_value(k: KnobView) -> Option<ValueView> {
    match k {
        KnobView::Integer(n) => Some(ValueView::Integer(n)),
        KnobView::Text(s) => Some(ValueView::Text(s)),
        KnobView::Other => None,
    }
}

/// The configuration with each knob that a record can hold.
pub open spec fn with_knobs(
    m: Map<Seq<char>, ValueView>,
    knobs: Map<Seq<char>, KnobView>,
) -> Map<Seq<char>, ValueView> {
    m.union_prefer_right(
        Map::new(
            |k: Seq<char>| knobs.contains_key(k) && knob_value(knobs[k]) is Some,
            |k: Seq<char>| knob_value(knobs[k])->0,
        ),
    )
}

/// The configuration of an arm. The knobs are those that were applied, not those
/// that were declared.
pub open spec fn configuration(arm: Arm, env: Environment, opts: RunOptions) -> Map<
    Seq<char>,
    ValueView,
> {
    let base = with_mode(with_envelope(basics(arm, env, opts), arm), opts.mode);
    with_knobs(
        base.union_prefer_right(report_views(arm.variant.reports@)),
        driver::effective_knobs(*arm.variant, opts),
    )
}

proof fn lemma_insert_value(m: Map<Seq<char>, Value>, key: Seq<char>, v: Value)
    ensures
        value_views(m.insert(key, v)) == value_views(m).insert(key, v@),
{
    assert(value_views(m.insert(key, v)) =~= value_views(m).insert(key, v@));
}

/// Whether two records differ in their configuration alone.
pub open spec fn but_variant(a: Report, b: Report) -> bool {
    a == (Report { variant: a.variant, ..b })
}

/// Whether two records differ in their metrics alone.
pub open spec fn but_metrics(a: Report, b: Report) -> bool {
    a == (Report { metrics: a.metrics, ..b })
}

fn put(r: Report, key: &str, value: Value) -> (out: Report)
    ensures
        but_variant(out, r),
        value_views(out.variant@) == value_views(r.variant@).insert(key@, value@),
{
    proof {
        lemma_insert_value(r.variant@, key@, value);
    }
    r.variant(key, value)
}

fn put_reports(r: Report, reports: &Table<String>) -> (out: Report)
    ensures
        but_variant(out, r),
        value_views(out.variant@) == value_views(r.variant@).union_prefer_right(
            report_views(reports@),
        ),
{
    let ghost start = value_views(r.variant@);
    let ghost first = r;
    let entries = reports.entries();
    let ghost all = reports.seq();
    let mut out = r;
    let mut i: usize = 0;
    assert(all.len() == entries@.len());
    assert(start.union_prefer_right(report_views(table::map_of(all.take(0)))) =~= start);
    while i < entries.len()
        invariant
            i <= entries.len(),
            all == table::pairs(entries@),
            all.len() == entries@.len(),
            but_variant(out, first),
            value_views(out.variant@) == start.union_prefer_right(
                report_views(table::map_of(all.take(i as int))),
            ),
        decreases entries.len() - i,
    {
        let key = entries[i].0.as_str();
        let value = Value::text(entries[i].1.as_str());
        proof {
            let before = table::map_of(all.take(i as int));
            let next = all.take(i + 1);
            assert(next.drop_last() =~= all.take(i as int));
            assert(next.last() == (entries@[i as int].0@, entries@[i as int].1));
            assert(report_views(table::map_of(next)) =~= report_views(before).insert(
                key@,
                ValueView::Text(entries@[i as int].1@),
            ));
            assert(start.union_prefer_right(report_views(table::map_of(next)))
                =~= start.union_prefer_right(report_views(before)).insert(key@, value@));
        }
        out = put(out, key, value);
        i = i + 1;
    }
    assert(all.take(i as int) =~= all);
    out
}

proof fn lemma_with_knob(
    m: Map<Seq<char>, ValueView>,
    knobs: Map<Seq<char>, KnobView>,
    key: Seq<char>,
    k: KnobView,
)
    requires
        !knobs.contains_key(key),
    ensures
        with_knobs(m, knobs.insert(key, k)) == (match knob_value(k) {
            Some(v) => with_knobs(m, knobs).insert(key, v),
            None => with_knobs(m, knobs),
        }),
{
    match knob_value(k) {
        Some(v) => {
            assert(with_knobs(m, knobs.insert(key, k)) =~= with_knobs(m, knobs).insert(key, v));
        },
        None => {
            assert(with_knobs(m, knobs.insert(key, k)) =~= with_knobs(m, knobs));
        },
    }
}

proof fn lemma_fresh_key(s: Seq<(Seq<char>, Knob)>, i: int)
    requires
        table::ascending(s),
        0 <= i < s.len(),
    ensures
        !table::map_of(s.take(i)).contains_key(s[i].0),
{
    lemma_keys_below(s.take(i), s[i].0);
}

proof fn lemma_keys_below(s: Seq<(Seq<char>, Knob)>, key: Seq<char>)
    requires
        forall|j: int| 0 <= j < s.len() ==> table::before((#[trigger] s[j]).0, key),
    ensures
        !table::map_of(s).contains_key(key),
    decreases s.len(),
{
    if s.len() > 0 {
        assert forall|j: int| 0 <= j < s.drop_last().len() implies table::before(
            (#[trigger] s.drop_last()[j]).0,
            key,
        ) by {
            assert(s.drop_last()[j] == s[j]);
        }
        lemma_keys_below(s.drop_last(), key);
        assert(table::before(s[s.len() - 1].0, key));
        table::before_is_irreflexive(key);
    }
}

fn put_knobs(r: Report, knobs: &Table<Knob>) -> (out: Report)
    requires
        table::ascending(knobs.seq()),
    ensures
        but_variant(out, r),
        value_views(out.variant@) == with_knobs(
            value_views(r.variant@),
            driver::knob_views(knobs@),
        ),
{
    let ghost start = value_views(r.variant@);
    let ghost first = r;
    let entries = knobs.entries();
    let ghost all = knobs.seq();
    let mut out = r;
    let mut i: usize = 0;
    assert(all.len() == entries@.len());
    assert(with_knobs(start, driver::knob_views(table::map_of(all.take(0)))) =~= start);
    while i < entries.len()
        invariant
            i <= entries.len(),
            all == table::pairs(entries@),
            all.len() == entries@.len(),
            table::ascending(all),
            but_variant(out, first),
            value_views(out.variant@) == with_knobs(
                start,
                driver::knob_views(table::map_of(all.take(i as int))),
            ),
        decreases entries.len() - i,
    {
        let key = entries[i].0.as_str();
        let ghost k = entries@[i as int].1;
        proof {
            let before = table::map_of(all.take(i as int));
            let next = all.take(i + 1);
            assert(next.drop_last() =~= all.take(i as int));
            assert(next.last() == (entries@[i as int].0@, k));
            assert(all[i as int] == (entries@[i as int].0@, k));
            lemma_fresh_key(all, i as int);
            assert(driver::knob_views(table::map_of(next)) =~= driver::knob_views(before).insert(
                key@,
                k@,
            ));
            lemma_with_knob(start, driver::knob_views(before), key@, k@);
        }
        match &entries[i].1 {
            Knob::Integer(n) => {
                out = put(out, key, Value::Integer(*n));
            },
            Knob::Text(s) => {
                out = put(out, key, Value::text(s.as_str()));
            },
            Knob::Other => {},
        }
        i = i + 1;
    }
    assert(all.take(i as int) =~= all);
    out
}

fn configure(r: Report, arm: &Arm<'_>, env: &Environment, opts: &RunOptions) -> (out: Report)
    requires
        r.variant@ == Map::<Seq<char>, Value>::empty(),
    ensures
        but_variant(out, r),
        value_views(out.variant@) == configuration(*arm, *env, *opts),
{
    assert(value_views(r.variant@) =~= Map::empty());
    let mut out = put(r, "approach", Value::text(approach_name(arm.variant.approach)));
    out = put(out, "mode", Value::text(opts.mode.name()));
    out = put(out, "partitions", Value::Integer(env.spec.infra.partitions as i64));
    out = put(out, "batches", count(opts.batches));
    assert(value_views(out.variant@) == basics(*arm, *env, *opts));
    if let Some(e) = &arm.entrant.spec.envelope {
        out = put(out, "envelope_cpus", Value::text(e.cpus.as_str()));
        out = put(out, "envelope_memory", Value::text(e.memory.as_str()));
    }
    if let Mode::Sustained { offered_msgs_per_s, window_s } = opts.mode {
        out = put(out, "offered_msgs_per_s", count(offered_msgs_per_s));
        out = put(out, "window_s", count(window_s));
    }
    out = put_reports(out, &arm.variant.reports);
    let knobs = opts.knobs_for(arm.variant);
    put_knobs(out, &knobs)
}

// ---------------------------------------------------------------------------
// The figures
// ---------------------------------------------------------------------------

/// What the metrics of a map say.
pub open spec fn metric_views(m: Map<Seq<char>, Metric>) -> Map<Seq<char>, MetricView> {
    m.map_values(|v: Metric| v@)
}

/// The metrics after each figure of `list` is added.
pub open spec fn with_figures(
    m: Map<Seq<char>, MetricView>,
    list: Seq<(Seq<char>, MetricView)>,
) -> Map<Seq<char>, MetricView>
    decreases list.len(),
{
    if list.len() == 0 {
        m
    } else {
        with_figures(m, list.drop_last()).insert(list.last().0, list.last().1)
    }
}

/// A whole figure where less is better.
pub open spec fn lean(n: u128, unit: Seq<char>) -> MetricView {
    report::less_is_better(double::of(n as nat), unit)
}

fn lean_metric(n: u128, unit: &str) -> (m: Metric)
    ensures
        m@ == lean(n, unit@),
{
    Metric::minimize(Double::of(n), unit)
}

/// Rows per second per core; zero where no core was used.
pub open spec fn rows_per_core(cost: SutCost, rows_per_s: Double) -> Double {
    if Double::zero(false).lt(cost.cores()) {
        rows_per_s.over(cost.cores())
    } else {
        Double::zero(false)
    }
}

/// One reading's interval over the window, in which a window of no length counts
/// as the shortest that is told from none.
pub open spec fn resolution(cost: SutCost) -> Double {
    double::of(INTERVAL_MS as nat).over(double::of(1000)).over(
        cost.seconds().larger(double::quotient(1, 0x10_0000_0000_0000)),
    )
}

/// The figures that every measurement has.
pub open spec fn own_figures(m: Measurement) -> Seq<(Seq<char>, MetricView)> {
    seq![
        ("rows_per_s"@, report::more_is_better(m.rows_per_s, "records/s"@)),
        ("cpu_us_per_row"@, report::less_is_better(m.cost.per_row(m.rows), "us"@)),
        ("cores_used"@, report::less_is_better(m.cost.cores(), "cores"@)),
        (
            "rows_per_s_per_core"@,
            report::more_is_better(rows_per_core(m.cost, m.rows_per_s), "records/s"@),
        ),
        ("peak_anon_bytes"@, lean(m.cost.peak_anon_bytes, "bytes"@)),
        ("peak_charged_bytes"@, lean(m.cost.peak_charged_bytes, "bytes"@)),
        ("throttled_us"@, lean(m.cost.throttled_us, "us"@)),
        ("duplicate_rows"@, lean(m.duplicates as u128, "rows"@)),
    ]
}

/// The figures of the data plane alone, so that no system is taxed for its
/// control plane unseen.
pub open spec fn data_plane_figures(c: Option<SutCost>) -> Seq<(Seq<char>, MetricView)> {
    match c {
        Some(dp) => seq![
            ("data_plane_cores_used"@, report::less_is_better(dp.cores(), "cores"@)),
            ("data_plane_peak_anon_bytes"@, lean(dp.peak_anon_bytes, "bytes"@)),
        ],
        None => Seq::empty(),
    }
}

/// The figures of the target, where it could be asked.
pub open spec fn target_figures(m: Measurement) -> Seq<(Seq<char>, MetricView)> {
    (match m.server {
        Some(c) => figures::server_figures(c, m.rows),
        None => Seq::empty(),
    }) + (match m.merges {
        Some(a) => figures::merge_figures(a),
        None => Seq::empty(),
    }) + seq![
        ("ch_settle_us"@, figures::microseconds(m.settle_s.times(double::of(1_000_000)))),
        ("window_resolution"@, report::less_is_better(resolution(m.cost), "ratio"@)),
    ]
}

/// Every figure of a measurement.
pub open spec fn all_figures(m: Measurement) -> Seq<(Seq<char>, MetricView)> {
    own_figures(m) + data_plane_figures(m.data_plane) + target_figures(m) + figures::gc_figures(
        m.gc,
    ) + figures::mode_figures(m.load)
}

fn own_metrics(m: &Measurement) -> (out: Vec<(String, Metric)>)
    ensures
        report::metric_list(out@) == own_figures(*m),
{
    let mut out: Vec<(String, Metric)> = Vec::new();
    report::put_metric(
        &mut out,
        "rows_per_s".to_owned(),
        Metric::maximize(m.rows_per_s, "records/s"),
    );
    report::put_metric(
        &mut out,
        "cpu_us_per_row".to_owned(),
        Metric::minimize(m.cost.cpu_us_per_row(m.rows), "us"),
    );
    report::put_metric(
        &mut out,
        "cores_used".to_owned(),
        Metric::minimize(m.cost.cores_used(), "cores"),
    );
    let cores: Double = m.cost.cores_used();
    let per_core: Double = if Double::nothing().below(cores) {
        m.rows_per_s.divide(cores)
    } else {
        Double::nothing()
    };
    report::put_metric(
        &mut out,
        "rows_per_s_per_core".to_owned(),
        Metric::maximize(per_core, "records/s"),
    );
    report::put_metric(
        &mut out,
        "peak_anon_bytes".to_owned(),
        Metric::bytes(Double::of(m.cost.peak_anon_bytes)),
    );
    report::put_metric(
        &mut out,
        "peak_charged_bytes".to_owned(),
        Metric::bytes(Double::of(m.cost.peak_charged_bytes)),
    );
    report::put_metric(
        &mut out,
        "throttled_us".to_owned(),
        lean_metric(m.cost.throttled_us, "us"),
    );
    report::put_metric(
        &mut out,
        "duplicate_rows".to_owned(),
        lean_metric(m.duplicates as u128, "rows"),
    );
    assert(report::metric_list(out@) =~= own_figures(*m));
    out
}

fn data_plane_metrics(c: &Option<SutCost>) -> (out: Vec<(String, Metric)>)
    ensures
        report::metric_list(out@) == data_plane_figures(*c),
{
    let mut out: Vec<(String, Metric)> = Vec::new();
    if let Some(dp) = c {
        report::put_metric(
            &mut out,
            "data_plane_cores_used".to_owned(),
            Metric::minimize(dp.cores_used(), "cores"),
        );
        report::put_metric(
            &mut out,
            "data_plane_peak_anon_bytes".to_owned(),
            Metric::bytes(Double::of(dp.peak_anon_bytes)),
        );
    }
    assert(report::metric_list(out@) =~= data_plane_figures(*c));
    out
}

fn target_metrics(m: &Measurement) -> (out: Vec<(String, Metric)>)
    ensures
        report::metric_list(out@) == target_figures(*m),
{
    let mut out: Vec<(String, Metric)> = Vec::new();
    if let Some(c) = &m.server {
        figures::put_all(&mut out, figures::server_metrics(c, m.rows));
    }
    if let Some(a) = &m.merges {
        figures::put_all(&mut out, figures::merge_metrics(*a));
    }
    report::put_metric(
        &mut out,
        "ch_settle_us".to_owned(),
        Metric::minimize(m.settle_s.multiply(Double::of(1_000_000)), "us"),
    );
    report::put_metric(
        &mut out,
        "window_resolution".to_owned(),
        Metric::minimize(
            Double::of(INTERVAL_MS as u128).divide(Double::of(1000)).divide(
                m.cost.window_s().max_with(Double::quotient(1, 0x10_0000_0000_0000)),
            ),
            "ratio",
        ),
    );
    assert(report::metric_list(out@) =~= target_figures(*m));
    out
}

/// Every metric of a measurement.
pub fn metrics_of(m: &Measurement) -> (out: Vec<(String, Metric)>)
    ensures
        report::metric_list(out@) == all_figures(*m),
{
    let mut out = own_metrics(m);
    figures::put_all(&mut out, data_plane_metrics(&m.data_plane));
    figures::put_all(&mut out, target_metrics(m));
    figures::put_all(&mut out, figures::gc_metrics(&m.gc));
    figures::put_all(&mut out, figures::mode_metrics(&m.load));
    out
}

fn put_figures(r: Report, list: Vec<(String, Metric)>) -> (out: Report)
    ensures
        but_metrics(out, r),
        metric_views(out.metrics@) == with_figures(
            metric_views(r.metrics@),
            report::metric_list(list@),
        ),
{
    let ghost start = metric_views(r.metrics@);
    let ghost first = r;
    let ghost all = report::metric_list(list@);
    let ghost given = list@;
    let mut out = r;
    assert(all.take(0) =~= Seq::empty());
    for entry in it: list
        invariant
            it.seq() == given,
            all == report::metric_list(given),
            all.len() == given.len(),
            but_metrics(out, first),
            metric_views(out.metrics@) == with_figures(start, all.take(it.index() as int)),
    {
        let (key, metric) = entry;
        let ghost i = it.index() as int;
        proof {
            assert(all.take(i + 1).drop_last() =~= all.take(i));
            assert(all.take(i + 1).last() == (key@, metric@));
            assert(metric_views(out.metrics@.insert(key@, metric)) =~= metric_views(
                out.metrics@,
            ).insert(key@, metric@));
        }
        out = out.metric(key.as_str(), metric);
    }
    assert(all.take(all.len() as int) =~= all);
    out
}

// ---------------------------------------------------------------------------
// The record
// ---------------------------------------------------------------------------

/// The metrics of a record: none where its status carries none.
pub open spec fn metrics_for(outcome: Result<Measurement, String>) -> Map<Seq<char>, MetricView> {
    match outcome {
        Ok(m) => if m.status is Passed || m.status is InfraBound {
            with_figures(Map::empty(), all_figures(m))
        } else {
            Map::empty()
        },
        Err(_) => Map::empty(),
    }
}

/// The ceiling that a record's infrastructure names.
pub open spec fn ceiling_for(infra: Infra, outcome: Result<Measurement, String>) -> u64 {
    match outcome {
        Ok(m) => m.ceiling_rows_per_s,
        Err(_) => infra.ceiling_rows_per_s,
    }
}

/// Whether a record is that of one repetition of an arm, whatever the clock read
/// and whatever identifiers were drawn.
pub open spec fn is_record_of(
    r: Report,
    sitting: Sitting,
    env: Environment,
    infra: Infra,
    arm: Arm,
    opts: RunOptions,
    rep: u32,
    sut: Sut,
    base: Seq<Flag>,
    outcome: Result<Measurement, String>,
) -> bool {
    &&& r.schema == report::SCHEMA_VERSION
    &&& r.bench@ == BENCH@
    &&& r.kind == Kind::Measurement
    &&& r.status == status_of(outcome)
    &&& report::is_run_id(r.run_id@)
    &&& r.rep == rep
    &&& r.reps == opts.reps
    &&& r.sut == sut
    &&& r.run.is_of(sitting, env.spec.id@, env.digest@, opts.trigger, r.run.infra)
    &&& r.run.infra.same_but_for_the_arm(infra)
    &&& r.run.infra.ceiling_rows_per_s == ceiling_for(infra, outcome)
    &&& value_views(r.variant@) == configuration(arm, env, opts)
    &&& metric_views(r.metrics@) == metrics_for(outcome)
    &&& r.flags@ == flagged_all(Seq::empty(), all_flags(base, env, outcome))
    &&& r.note matches Some(n) && n@ == full_note(opts, env, outcome)
}

fn put_flags(r: Report, flags: &[Flag]) -> (out: Report)
    ensures
        out == (Report { flags: out.flags, ..r }),
        out.flags@ == flagged_all(r.flags@, flags@),
{
    let ghost first = r;
    let mut out = r;
    let mut i: usize = 0;
    assert(flags@.take(0) =~= Seq::empty());
    while i < flags.len()
        invariant
            i <= flags.len(),
            out == (Report { flags: out.flags, ..first }),
            out.flags@ == flagged_all(first.flags@, flags@.take(i as int)),
        decreases flags.len() - i,
    {
        assert(flags@.take(i + 1).drop_last() =~= flags@.take(i as int));
        out = out.flag(flags[i]);
        i = i + 1;
    }
    assert(flags@.take(i as int) =~= flags@);
    out
}

/// The record of one repetition of an identified arm.
///
/// A refusal of such an arm is recorded too, with its reason and without a
/// metric: otherwise an arm that ran and lost rows could not be told from one
/// that never ran.
pub fn record(
    sitting: &Sitting,
    env: &Environment,
    infra: &Infra,
    arm: &Arm<'_>,
    opts: &RunOptions,
    rep: u32,
    sut: Sut,
    base_flags: &[Flag],
    outcome: &Result<Measurement, String>,
) -> (r: Report)
    ensures
        is_record_of(
            r,
            *sitting,
            *env,
            *infra,
            *arm,
            *opts,
            rep,
            sut,
            base_flags@,
            *outcome,
        ),
{
    let (status, ceiling) = match outcome {
        Ok(m) => (m.status, m.ceiling_rows_per_s),
        Err(_) => (Status::Failed, infra.ceiling_rows_per_s),
    };
    let meta = RunMeta::new(
        sitting,
        env.spec.id.as_str(),
        env.digest.as_str(),
        opts.trigger,
        infra.for_arm(ceiling),
    );
    let blank = Report::new(BENCH, Kind::Measurement, status, sut, meta).rep(rep, opts.reps);
    let mut r = configure(blank, arm, env, opts);
    assert(metric_views(r.metrics@) =~= Map::empty());
    if let Ok(m) = outcome {
        if status.carries_metrics() {
            r = put_figures(r, metrics_of(m));
        }
    }
    let flags = flag_list(base_flags, env, outcome);
    r = put_flags(r, flags.as_slice());
    r.note(note_text(opts, env, outcome))
}

// ---------------------------------------------------------------------------
// Laws
// ---------------------------------------------------------------------------

/// A refused arm carries no metric.
pub proof fn a_refused_arm_carries_no_metric(
    r: Report,
    sitting: Sitting,
    env: Environment,
    infra: Infra,
    arm: Arm,
    opts: RunOptions,
    rep: u32,
    sut: Sut,
    base: Seq<Flag>,
    why: String,
)
    requires
        is_record_of(
            r,
            sitting,
            env,
            infra,
            arm,
            opts,
            rep,
            sut,
            base,
            Err::<Measurement, String>(why),
        ),
    ensures
        r.status == Status::Failed,
        r.metrics@.dom() == Set::<Seq<char>>::empty(),
{
    assert forall|k: Seq<char>| !r.metrics@.contains_key(k) by {
        assert(!metric_views(r.metrics@).contains_key(k));
    }
    assert(r.metrics@.dom() =~= Set::<Seq<char>>::empty());
}

/// What bars a run from publication leads the note.
pub proof fn a_bar_leads_the_note(
    opts: RunOptions,
    env: Environment,
    outcome: Result<Measurement, String>,
)
    ensures
        opts.trigger.bar() matches Some(b) ==> text::starts_with(
            full_note(opts, env, outcome),
            b,
        ),
        opts.trigger.bar() is None ==> (env.spec.class.bar() matches Some(b)
            ==> text::starts_with(full_note(opts, env, outcome), b)),
{
    let all = bars(opts, env);
    if all.len() > 0 {
        lemma_join_begins(all, "; "@);
        let n = full_note(opts, env, outcome);
        let j = text::join(all, "; "@);
        assert(n.take(all[0].len() as int) =~= j.take(all[0].len() as int));
    }
}

proof fn lemma_join_begins(parts: Seq<Seq<char>>, sep: Seq<char>)
    requires
        parts.len() > 0,
    ensures
        text::join(parts, sep).len() >= parts[0].len(),
        text::join(parts, sep).take(parts[0].len() as int) == parts[0],
    decreases parts.len(),
{
    if parts.len() == 1 {
        assert(text::join(parts, sep).take(parts[0].len() as int) =~= parts[0]);
    } else {
        lemma_join_begins(parts.drop_last(), sep);
        assert(parts.drop_last()[0] == parts[0]);
        assert(text::join(parts, sep).take(parts[0].len() as int) =~= text::join(
            parts.drop_last(),
            sep,
        ).take(parts[0].len() as int));
    }
}

proof fn lemma_flags_kept(flags: Seq<Flag>, more: Seq<Flag>, f: Flag)
    requires
        flags.contains(f) || more.contains(f),
    ensures
        flagged_all(flags, more).contains(f),
    decreases more.len(),
{
    if more.len() > 0 {
        let before = flagged_all(flags, more.drop_last());
        if flags.contains(f) || more.drop_last().contains(f) {
            lemma_flags_kept(flags, more.drop_last(), f);
            let k = choose|k: int| 0 <= k < before.len() && before[k] == f;
            assert(report::flagged(before, more.last())[k] == f);
        } else {
            let k = choose|k: int| 0 <= k < more.len() && more[k] == f;
            assert(k == more.len() - 1) by {
                if k < more.len() - 1 {
                    assert(more.drop_last()[k] == f);
                }
            }
            report::a_flag_is_attached_once(before, f);
        }
    }
}

/// A record from an environment whose class bars publication carries the flag
/// that says so, whether or not anything was measured.
pub proof fn an_unpublishable_environment_is_flagged(
    base: Seq<Flag>,
    env: Environment,
    outcome: Result<Measurement, String>,
)
    requires
        env.spec.class.bar() is Some,
    ensures
        flagged_all(Seq::empty(), all_flags(base, env, outcome)).contains(
            Flag::UnpublishableEnvironment,
        ),
{
    let all = all_flags(base, env, outcome);
    assert(all[all.len() - 1] == Flag::UnpublishableEnvironment);
    lemma_flags_kept(Seq::empty(), all, Flag::UnpublishableEnvironment);
}

/// A window under the floor is flagged.
pub proof fn a_short_window_is_flagged(
    base: Seq<Flag>,
    env: Environment,
    m: Measurement,
)
    requires
        m.cost.window_ms < MIN_WINDOW_S * 1000,
    ensures
        flagged_all(
            Seq::empty(),
            all_flags(base, env, Ok::<Measurement, String>(m)),
        ).contains(Flag::ShortWindow),
{
    let all = all_flags(base, env, Ok::<Measurement, String>(m));
    let at = base.len() + if m.cost.nr_throttled > 0 {
        1int
    } else {
        0int
    };
    assert(all[at] == Flag::ShortWindow);
    lemma_flags_kept(Seq::empty(), all, Flag::ShortWindow);
}

/// A knob that the invocation overrides is recorded with the value that was
/// applied, over whatever the arm reports under its name.
pub proof fn an_override_is_what_is_recorded(
    arm: Arm,
    env: Environment,
    opts: RunOptions,
    key: Seq<char>,
    n: i64,
)
    requires
        opts.knobs@.contains_key(key),
        opts.knobs@[key] == Knob::Integer(n),
    ensures
        configuration(arm, env, opts).contains_key(key),
        configuration(arm, env, opts)[key] == ValueView::Integer(n as int),
{
    let knobs = driver::effective_knobs(*arm.variant, opts);
    assert(driver::knob_views(opts.knobs@).contains_key(key));
    assert(driver::knob_views(opts.knobs@)[key] == opts.knobs@[key]@);
    assert(knobs.contains_key(key));
    assert(knobs[key] == KnobView::Integer(n as int));
}

/// A value of a record, in words.
pub open spec fn value_words(v: ValueView) -> Seq<char> {
    match v {
        ValueView::Integer(n) => text::signed_decimal(n),
        ValueView::Text(s) => s,
    }
}

/// What is put in the place of a knob's placeholder, and so reaches the
/// container, is what the record reports of the knob.
pub proof fn the_record_reports_what_was_substituted(
    arm: Arm,
    env: Environment,
    opts: RunOptions,
    ep: crate::infra::Endpoints,
    group_id: Seq<char>,
    key: Seq<char>,
)
    requires
        driver::effective_knobs(*arm.variant, opts).contains_key(key),
        !(driver::effective_knobs(*arm.variant, opts)[key] is Other),
    ensures
        configuration(arm, env, opts).contains_key(key),
        crate::driver::arm::value_of(
            Some("knob:"@ + key),
            *arm.variant,
            ep,
            opts,
            group_id,
            arm.entrant.containers(),
        ) == Some(value_words(configuration(arm, env, opts)[key])),
{
    let inner = "knob:"@ + key;
    reveal_strlit("knob:");
    reveal_strlit("broker_internal");
    reveal_strlit("registry_internal");
    reveal_strlit("clickhouse_internal");
    reveal_strlit("clickhouse_password");
    reveal_strlit("topic");
    reveal_strlit("group_id");
    reveal_strlit("offset_reset");
    assert(inner[0] == 'k');
    assert(inner.take(5) =~= "knob:"@);
    assert(inner.skip(5) =~= key);
}

proof fn lemma_flags_are_given(flags: Seq<Flag>, more: Seq<Flag>, f: Flag)
    ensures
        flagged_all(flags, more).contains(f) == (flags.contains(f) || more.contains(f)),
        report::each_once(flags) ==> report::each_once(flagged_all(flags, more)),
    decreases more.len(),
{
    if flags.contains(f) || more.contains(f) {
        lemma_flags_kept(flags, more, f);
    }
    if more.len() > 0 {
        let less = more.drop_last();
        lemma_flags_are_given(flags, less, f);
        let before = flagged_all(flags, less);
        report::a_flag_is_attached_once(before, more.last());
        if flagged_all(flags, more).contains(f) && !(flags.contains(f) || more.contains(f)) {
            assert(!less.contains(f)) by {
                if less.contains(f) {
                    let k = choose|k: int| 0 <= k < less.len() && less[k] == f;
                    assert(more[k] == f);
                }
            }
            let after = report::flagged(before, more.last());
            let k = choose|k: int| 0 <= k < after.len() && after[k] == f;
            if k < before.len() {
                assert(before[k] == f);
            } else {
                assert(more[more.len() - 1] == f);
            }
        }
    }
}

/// A record of a measurement carries each flag that it earned, once, and no other:
/// those that the run and the measurement bring, one for an arm that its cap
/// throttled, one for a window under two minutes, and one for a fixture's
/// environment.
pub proof fn a_record_carries_the_flags_that_it_earned(
    r: Report,
    sitting: Sitting,
    env: Environment,
    infra: Infra,
    arm: Arm,
    opts: RunOptions,
    rep: u32,
    sut: Sut,
    base: Seq<Flag>,
    m: Measurement,
    f: Flag,
)
    requires
        is_record_of(
            r,
            sitting,
            env,
            infra,
            arm,
            opts,
            rep,
            sut,
            base,
            Ok::<Measurement, String>(m),
        ),
    ensures
        r.flags@.contains(f) == (base.contains(f) || m.flags@.contains(f) || (f is CpuCapThrottled
            && m.cost.nr_throttled > 0) || (f is ShortWindow && m.cost.window_ms < 120_000) || (f
            is UnpublishableEnvironment && env.spec.class is Fixture)),
        report::each_once(r.flags@),
{
    let all = all_flags(base, env, Ok::<Measurement, String>(m));
    lemma_flags_are_given(Seq::empty(), all, f);
    let a = if m.cost.nr_throttled > 0 {
        seq![Flag::CpuCapThrottled]
    } else {
        Seq::empty()
    };
    let b = if m.cost.window_ms < MIN_WINDOW_S * 1000 {
        seq![Flag::ShortWindow]
    } else {
        Seq::empty()
    };
    let c = if env.spec.class.bar() is Some {
        seq![Flag::UnpublishableEnvironment]
    } else {
        Seq::empty()
    };
    lemma_among(base, a + b + m.flags@, f);
    lemma_among(a + b, m.flags@, f);
    lemma_among(a, b, f);
    lemma_among(base + (a + b + m.flags@), c, f);
    assert(all =~= base + (a + b + m.flags@) + c);
    assert(a.contains(f) == (f is CpuCapThrottled && m.cost.nr_throttled > 0)) by {
        if m.cost.nr_throttled > 0 {
            assert(a[0] == Flag::CpuCapThrottled);
        }
    }
    assert(b.contains(f) == (f is ShortWindow && m.cost.window_ms < 120_000)) by {
        if m.cost.window_ms < 120_000 {
            assert(b[0] == Flag::ShortWindow);
        }
    }
    assert(c.contains(f) == (f is UnpublishableEnvironment && env.spec.class is Fixture)) by {
        if env.spec.class is Fixture {
            assert(c[0] == Flag::UnpublishableEnvironment);
        }
    }
}

proof fn lemma_among(a: Seq<Flag>, b: Seq<Flag>, f: Flag)
    ensures
        (a + b).contains(f) == (a.contains(f) || b.contains(f)),
{
    let s = a + b;
    if a.contains(f) {
        let k = choose|k: int| 0 <= k < a.len() && a[k] == f;
        assert(s[k] == f);
    }
    if b.contains(f) {
        let k = choose|k: int| 0 <= k < b.len() && b[k] == f;
        assert(s[a.len() + k] == f);
    }
    if s.contains(f) {
        let k = choose|k: int| 0 <= k < s.len() && s[k] == f;
        if k < a.len() {
            assert(a[k] == f);
        } else {
            assert(b[k - a.len()] == f);
        }
    }
}

/// What a record's configuration says of how an arm was run, where neither its
/// reports nor its knobs go by the same names: its approach and its mode, the
/// partitions, the messages, its envelope, and the offered rate and the window of a
/// sustained run.
pub proof fn the_configuration_says_how_the_arm_was_run(arm: Arm, env: Environment, opts: RunOptions)
    requires
        forall|k: Seq<char>|
            is_own_key(k) ==> !(#[trigger] arm.variant.reports@.contains_key(k)),
        forall|k: Seq<char>|
            is_own_key(k) ==> !(#[trigger] driver::effective_knobs(
                *arm.variant,
                opts,
            ).contains_key(k)),
        opts.batches <= i64::MAX,
    ensures
        ({
            let c = configuration(arm, env, opts);
            &&& c["approach"@] == ValueView::Text(approach_word(arm.variant.approach))
            &&& c["mode"@] == ValueView::Text(opts.mode.word())
            &&& c["partitions"@] == ValueView::Integer(env.spec.infra.partitions as int)
            &&& c["batches"@] == ValueView::Integer(opts.batches as int)
            &&& arm.entrant.spec.envelope matches Some(e) ==> c["envelope_cpus"@]
                == ValueView::Text(e.cpus@) && c["envelope_memory"@] == ValueView::Text(e.memory@)
            &&& arm.entrant.spec.envelope is None ==> !c.contains_key("envelope_cpus"@)
                && !c.contains_key("envelope_memory"@)
            &&& opts.mode matches Mode::Sustained { offered_msgs_per_s, window_s } ==> (
            offered_msgs_per_s <= i64::MAX ==> c["offered_msgs_per_s"@] == ValueView::Integer(
                offered_msgs_per_s as int,
            )) && (window_s <= i64::MAX ==> c["window_s"@] == ValueView::Integer(window_s as int))
            &&& opts.mode is Drain ==> !c.contains_key("offered_msgs_per_s"@) && !c.contains_key(
                "window_s"@,
            )
        }),
{
    lemma_own_keys();
    let base = with_mode(with_envelope(basics(arm, env, opts), arm), opts.mode);
    let reports = report_views(arm.variant.reports@);
    let knobs = driver::effective_knobs(*arm.variant, opts);
    assert forall|k: Seq<char>| #[trigger] is_own_key(k) implies configuration(
        arm,
        env,
        opts,
    ).contains_key(k) == base.contains_key(k) && (base.contains_key(k) ==> configuration(
        arm,
        env,
        opts,
    )[k] == base[k]) by {
        assert(!arm.variant.reports@.contains_key(k));
        assert(!reports.contains_key(k));
        assert(!knobs.contains_key(k));
    }
    assert(is_own_key("approach"@) && is_own_key("mode"@) && is_own_key("partitions"@)
        && is_own_key("batches"@) && is_own_key("envelope_cpus"@) && is_own_key("envelope_memory"@)
        && is_own_key("offered_msgs_per_s"@) && is_own_key("window_s"@));
}

/// Whether a key is one that every configuration may say something under.
pub open spec fn is_own_key(k: Seq<char>) -> bool {
    k == "approach"@ || k == "mode"@ || k == "partitions"@ || k == "batches"@ || k
        == "envelope_cpus"@ || k == "envelope_memory"@ || k == "offered_msgs_per_s"@ || k
        == "window_s"@
}

proof fn lemma_own_keys()
    ensures
        "approach"@.len() == 8 && "approach"@[0] == 'a',
        "mode"@.len() == 4,
        "partitions"@.len() == 10,
        "batches"@.len() == 7,
        "envelope_cpus"@.len() == 13,
        "envelope_memory"@.len() == 15,
        "offered_msgs_per_s"@.len() == 18,
        "window_s"@.len() == 8 && "window_s"@[0] == 'w',
{
    reveal_strlit("approach");
    reveal_strlit("mode");
    reveal_strlit("partitions");
    reveal_strlit("batches");
    reveal_strlit("envelope_cpus");
    reveal_strlit("envelope_memory");
    reveal_strlit("offered_msgs_per_s");
    reveal_strlit("window_s");
}

/// The status of a record and the ceiling that it names say what the headroom was:
/// an arm that outran a ceiling is bound by the infrastructure, any other that was
/// measured has passed, and the ceiling is the one that the arm was held to.
pub proof fn a_record_names_its_status_and_its_ceiling(
    r: Report,
    sitting: Sitting,
    env: Environment,
    infra: Infra,
    arm: Arm,
    opts: RunOptions,
    rep: u32,
    sut: Sut,
    base: Seq<Flag>,
    m: Measurement,
    o: crate::driver::measure::Observations,
    w: crate::driver::measure::Workload,
    duplicates: u64,
)
    requires
        is_record_of(
            r,
            sitting,
            env,
            infra,
            arm,
            opts,
            rep,
            sut,
            base,
            Ok::<Measurement, String>(m),
        ),
        m.is_of(o, w, duplicates),
    ensures
        o.headroom.infra_bound ==> r.status is InfraBound,
        !o.headroom.infra_bound ==> r.status is Passed,
        o.headroom.ingest_rows_per_s matches Some(n) ==> r.run.infra.ceiling_rows_per_s == n,
        o.headroom.ingest_rows_per_s is None ==> r.run.infra.ceiling_rows_per_s == 0,
        r.rep == rep && r.reps == opts.reps,
        r.metrics@.contains_key("rows_per_s"@),
{
    let all = all_figures(m);
    assert(all[0].0 == "rows_per_s"@);
    lemma_first_name(all);
    assert(metric_views(r.metrics@).contains_key("rows_per_s"@));
}

proof fn lemma_first_name(list: Seq<(Seq<char>, MetricView)>)
    requires
        list.len() > 0,
    ensures
        with_figures(Map::empty(), list).contains_key(list[0].0),
    decreases list.len(),
{
    if list.len() > 1 {
        lemma_first_name(list.drop_last());
    }
}

/// An arm runs the image that was chosen for it, and otherwise the one that its entrant
/// builds.
pub proof fn a_chosen_image_is_what_runs(arm: Arm, image: String)
    ensures
        arm.image == Some(image) ==> image_of(arm) == Some(image@),
        arm.image is None && arm.entrant.spec.build is Some ==> image_of(arm) == Some(
            arm.entrant.spec.build->0.image@,
        ),
        arm.image is None && arm.entrant.spec.build is None ==> image_of(arm) is None,
{
}

} // verus!
