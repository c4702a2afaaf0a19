//! The versioned record that every measurement emits.
//!
//! A [`Metric`] carries its own unit and direction, so that a consumer cannot
//! draw a quantity where less is better as a taller bar: the direction travels
//! with the number. Around the numbers stands the provenance that lets them be
//! published: [`Sut`], what was actually run; [`Infra`], what it ran against, as
//! read back from the running containers; [`RunMeta`], when, where and under
//! which protocol; and [`Status`], so that an arm that ran and failed a gate is
//! not the same as an arm that never ran.

use vstd::prelude::*;
use crate::double;
use crate::double::Double;
use crate::table::Table;
use crate::text;


verus! {

/// Schema version of the emitted records. It moves on any breaking field change.
pub const SCHEMA_VERSION: u32 = 2;

/// Version of the measurement protocol.
///
/// Records with different values are not comparable. It moves when a change of
/// the protocol moves numbers, and whether one does is a judgement: a hash of
/// the sources would answer yes to every corrected typo.
pub const HARNESS_VERSION: u32 = 1;

/// Whether a record reports a measurement or a decision derived from them.
#[derive(Clone, Copy, Debug, PartialEq, Eq, Structural)]
pub enum Kind {
    /// An observed quantity for one arm.
    Measurement,
    /// A conclusion drawn across arms.
    Verdict,
}

/// Whether a record carries publishable numbers, and if not, why not.
#[derive(Clone, Copy, Debug, PartialEq, Eq, Structural)]
pub enum Status {
    /// Ran to completion and passed every gate.
    Passed,
    /// Exceeded the headroom limit: the number describes the infrastructure.
    InfraBound,
    /// The system cannot express this variant at all.
    Unsupported,
    /// Started but produced no valid measurement. The reason is in the note.
    Failed,
}

impl Status {
    /// Whether this status permits metrics to be attached.
    pub fn carries_metrics(self) -> (r: bool)
        ensures
            r == (self is Passed || self is InfraBound),
    {
        match self {
            Status::Passed => true,
            Status::InfraBound => true,
            Status::Unsupported => false,
            Status::Failed => false,
        }
    }
}

/// What caused a run to happen.
#[derive(Clone, Copy, Debug, PartialEq, Eq, Structural)]
pub enum Trigger {
    /// A scheduled run of the full matrix.
    Nightly,
    /// Invoked by hand.
    Manual,
    /// Produced by a pull request, on code nobody has reviewed.
    Pr,
    /// A configuration search. Its numbers are good numbers, and not those of
    /// the arm's published configuration.
    Tuning,
    /// Pinned to a release of the system under test.
    Release,
}

impl Trigger {
    /// Why records produced under this trigger may not be published.
    pub open spec fn bar(self) -> Option<Seq<char>> {
        match self {
            Trigger::Pr => Some("pull-request run on unreviewed code, never published"@),
            Trigger::Tuning => Some(
                "TUNING RUN: a point in a configuration search, never published — the search belongs in a document with its rejected points, not in results/"@,
            ),
            _ => None,
        }
    }

    /// The marker that a record produced under this trigger must carry, if any.
    pub fn publication_bar(self) -> (r: Option<&'static str>)
        ensures
            match r {
                Some(s) => self.bar() == Some(s@),
                None => self.bar() is None,
            },
    {
        match self {
            Trigger::Pr => Some("pull-request run on unreviewed code, never published"),
            Trigger::Tuning => Some(
                "TUNING RUN: a point in a configuration search, never published — the search belongs in a document with its rejected points, not in results/",
            ),
            Trigger::Nightly => None,
            Trigger::Manual => None,
            Trigger::Release => None,
        }
    }

    /// Whether a record produced under this trigger is kept from publication.
    pub fn bars_publication(self) -> (r: bool)
        ensures
            r == (self.bar() is Some),
            r == (self is Pr || self is Tuning),
    {
        self.publication_bar().is_some()
    }
}

/// A caveat that a consumer can filter on.
#[derive(Clone, Copy, Debug, PartialEq, Eq, Structural)]
pub enum Flag {
    /// The arm hit its cap on processor time during the window.
    CpuCapThrottled,
    /// No ceiling was available to gate against, or none applies to this arm's
    /// insert format. An arm that was not gated has cleared nothing.
    HeadroomUnproven,
    /// A sustained arm could not keep up with the offered rate. Its throughput
    /// stands; its latency describes the age of the backlog.
    Saturated,
    /// Produced on hardware outside our control.
    ThirdPartyHardware,
    /// Produced in an environment whose class bars publication.
    UnpublishableEnvironment,
    /// Infrastructure containers were reused rather than recreated.
    ReusedInfra,
    /// The measurement window fell below the floor that the protocol declares.
    ShortWindow,
}

/// One measured quantity, with its unit and its direction of goodness.
#[derive(Clone, Debug, PartialEq, Eq)]
pub struct Metric {
    /// The measured value, in `unit`.
    pub value: Double,
    /// Unit of `value`.
    pub unit: String,
    /// Whether a larger `value` is a better result.
    pub higher_is_better: bool,
    /// Low and high end of the 95% confidence interval, where there is one.
    pub ci95: Option<(Double, Double)>,
    /// How many repetitions stand behind `value`.
    pub n: Option<u64>,
}

/// What a metric says.
pub struct MetricView {
    /// The measured value.
    pub value: Double,
    /// Its unit.
    pub unit: Seq<char>,
    /// Whether a larger value is a better result.
    pub higher_is_better: bool,
    /// The confidence interval.
    pub ci95: Option<(Double, Double)>,
    /// The number of repetitions.
    pub n: Option<u64>,
}

impl View for Metric {
    type V = MetricView;

    open spec fn view(&self) -> MetricView {
        MetricView {
            value: self.value,
            unit: self.unit@,
            higher_is_better: self.higher_is_better,
            ci95: self.ci95,
            n: self.n,
        }
    }
}

/// A figure where less is better.
pub open spec fn less_is_better(value: Double, unit: Seq<char>) -> MetricView {
    MetricView { value, unit, higher_is_better: false, ci95: None, n: None }
}

/// A figure where more is better.
pub open spec fn more_is_better(value: Double, unit: Seq<char>) -> MetricView {
    MetricView { value, unit, higher_is_better: true, ci95: None, n: None }
}

/// What a list of named metrics says.
pub open spec fn metric_list(v: Seq<(String, Metric)>) -> Seq<(Seq<char>, MetricView)> {
    v.map_values(|e: (String, Metric)| (e.0@, e.1@))
}

/// Appends a named metric.
pub fn put_metric(out: &mut Vec<(String, Metric)>, key: String, metric: Metric)
    ensures
        metric_list(final(out)@) == metric_list(old(out)@).push((key@, metric@)),
{
    out.push((key, metric));
    assert(metric_list(out@) =~= metric_list(old(out)@).push((key@, metric@)));
}

impl Metric {
    /// Whether the metric is `value` in `unit`, with no interval and no count.
    pub open spec fn is(self, value: Double, unit: Seq<char>, higher: bool) -> bool {
        &&& self.value == value
        &&& self.unit@ == unit
        &&& self.higher_is_better == higher
        &&& self.ci95 is None
        &&& self.n is None
    }

    /// A metric where more is better.
    pub fn maximize(value: Double, unit: &str) -> (m: Metric)
        ensures
            m.is(value, unit@, true),
    {
        Metric { value, unit: unit.to_owned(), higher_is_better: true, ci95: None, n: None }
    }

    /// A metric where less is better.
    pub fn minimize(value: Double, unit: &str) -> (m: Metric)
        ensures
            m.is(value, unit@, false),
    {
        Metric { value, unit: unit.to_owned(), higher_is_better: false, ci95: None, n: None }
    }

    /// A footprint in bytes, unscaled: the value and its label are produced
    /// together, and scaling for display is the consumer's.
    pub fn bytes(bytes: Double) -> (m: Metric)
        ensures
            m.is(bytes, "bytes"@, false),
    {
        Metric::minimize(bytes, "bytes")
    }

    /// A byte throughput, recorded in millions of bytes per second.
    pub fn bytes_per_s(rate: Double) -> (m: Metric)
        ensures
            m.is(rate.over(double::of(1_000_000)), "MB/s"@, true),
    {
        Metric::maximize(rate.divide(Double::of(1_000_000)), "MB/s")
    }

    /// A fraction of a target that is aimed at, where one is the whole. It is
    /// not clamped: a share above one says that a backlog was being cleared.
    pub fn share(share: Double) -> (m: Metric)
        ensures
            m.is(share, "ratio"@, true),
    {
        Metric::maximize(share, "ratio")
    }

    /// Attaches a 95% confidence interval.
    pub fn with_ci(self, low: Double, high: Double) -> (m: Metric)
        ensures
            m == (Metric { ci95: Some((low, high)), ..self }),
    {
        let mut m = self;
        m.ci95 = Some((low, high));
        m
    }

    /// Attaches the number of repetitions behind the value.
    pub fn with_n(self, n: u64) -> (m: Metric)
        ensures
            m == (Metric { n: Some(n), ..self }),
    {
        let mut m = self;
        m.n = Some(n);
        m
    }
}

/// One dimension of an arm's configuration.
#[derive(Clone, Debug, PartialEq, Eq)]
pub enum Value {
    /// A whole number.
    Integer(i64),
    /// A text.
    Text(String),
}

/// What a value holds.
pub enum ValueView {
    /// A whole number.
    Integer(int),
    /// A text.
    Text(Seq<char>),
}

impl View for Value {
    type V = ValueView;

    open spec fn view(&self) -> ValueView {
        match *self {
            Value::Integer(n) => ValueView::Integer(n as int),
            Value::Text(s) => ValueView::Text(s@),
        }
    }
}

impl Value {
    /// Whether the value is the text `s`.
    pub open spec fn is_text(self, s: Seq<char>) -> bool {
        self matches Value::Text(t) && t@ == s
    }

    /// The value that the text `s` is.
    pub fn text(s: &str) -> (v: Value)
        ensures
            v.is_text(s@),
    {
        Value::Text(s.to_owned())
    }
}

/// The system under test: what was actually run.
#[derive(Clone, Debug, PartialEq, Eq)]
pub struct Sut {
    /// The entrant's directory name.
    pub entrant: String,
    /// Variant id from the descriptor.
    pub variant_id: String,
    /// Released version, absent only where the system has no releases.
    pub version: Option<String>,
    /// Upstream commit, where there is no release or alongside one.
    pub commit: Option<String>,
    /// Digest of the image that was run. A tag can be pushed again under the
    /// same name; a digest cannot, so a record always has one.
    pub image_digest: String,
    /// The image tag that was asked for.
    pub image: String,
    /// Compiler or runtime that built the arm.
    pub toolchain: Option<String>,
}

/// A copy of an optional text.
pub fn copied_text(s: &Option<String>) -> (r: Option<String>)
    ensures
        same_text(r, *s),
{
    match s {
        Some(t) => Some(t.as_str().to_owned()),
        None => None,
    }
}

/// Whether two optional texts are the same.
pub open spec fn same_text(a: Option<String>, b: Option<String>) -> bool {
    match (a, b) {
        (Some(x), Some(y)) => x@ == y@,
        (None, None) => true,
        _ => false,
    }
}

impl Sut {
    /// Whether two descriptions name the same system, field by field.
    pub open spec fn same(self, other: Sut) -> bool {
        &&& self.entrant@ == other.entrant@
        &&& self.variant_id@ == other.variant_id@
        &&& same_text(self.version, other.version)
        &&& same_text(self.commit, other.commit)
        &&& self.image_digest@ == other.image_digest@
        &&& self.image@ == other.image@
        &&& same_text(self.toolchain, other.toolchain)
    }

    /// A copy.
    pub fn copied(&self) -> (r: Sut)
        ensures
            r.same(*self),
    {
        Sut {
            entrant: self.entrant.as_str().to_owned(),
            variant_id: self.variant_id.as_str().to_owned(),
            version: copied_text(&self.version),
            commit: copied_text(&self.commit),
            image_digest: self.image_digest.as_str().to_owned(),
            image: self.image.as_str().to_owned(),
            toolchain: copied_text(&self.toolchain),
        }
    }
}

/// The shared infrastructure, as read back from the running containers.
#[derive(Clone, Debug, PartialEq, Eq)]
pub struct Infra {
    /// Digest over the shape of the infrastructure. Versions are no part of it.
    pub digest: String,
    /// Broker family.
    pub broker: String,
    /// Broker version, read from the broker.
    pub broker_version: String,
    /// Digest of the broker image.
    pub broker_image_digest: String,
    /// Broker processor quota, from its control group.
    pub broker_cpus: String,
    /// Broker memory limit, from its control group.
    pub broker_memory: String,
    /// ClickHouse version, read from the server.
    pub clickhouse_version: String,
    /// Digest of the ClickHouse image.
    pub clickhouse_image_digest: String,
    /// ClickHouse processor quota, from its control group.
    pub clickhouse_cpus: String,
    /// ClickHouse memory limit, from its control group.
    pub clickhouse_memory: String,
    /// Partitions of the topic.
    pub partitions: i32,
    /// What the measured data paths sat on.
    pub storage: String,
    /// Schema registry implementation.
    pub registry: String,
    /// The consume ceiling that the run was gated against, in messages per
    /// second. Zero means that there was none.
    pub ceiling_msgs_per_s: u64,
    /// The same ceiling in bytes per second: neither figure transfers alone to
    /// another message size.
    pub ceiling_bytes_per_s: u64,
    /// The ingest ceiling that this arm was gated against, in rows per second.
    /// Measured per insert format, so it belongs to the arm; zero means that
    /// none applies.
    pub ceiling_rows_per_s: u64,
}

impl Infra {
    /// Whether two descriptions agree in every field but the arm's ceiling.
    pub open spec fn same_but_for_the_arm(self, other: Infra) -> bool {
        &&& self.digest@ == other.digest@
        &&& self.broker@ == other.broker@
        &&& self.broker_version@ == other.broker_version@
        &&& self.broker_image_digest@ == other.broker_image_digest@
        &&& self.broker_cpus@ == other.broker_cpus@
        &&& self.broker_memory@ == other.broker_memory@
        &&& self.clickhouse_version@ == other.clickhouse_version@
        &&& self.clickhouse_image_digest@ == other.clickhouse_image_digest@
        &&& self.clickhouse_cpus@ == other.clickhouse_cpus@
        &&& self.clickhouse_memory@ == other.clickhouse_memory@
        &&& self.partitions == other.partitions
        &&& self.storage@ == other.storage@
        &&& self.registry@ == other.registry@
        &&& self.ceiling_msgs_per_s == other.ceiling_msgs_per_s
        &&& self.ceiling_bytes_per_s == other.ceiling_bytes_per_s
    }

    /// A copy for an arm that is gated against `ceiling_rows_per_s`.
    pub fn for_arm(&self, ceiling_rows_per_s: u64) -> (r: Infra)
        ensures
            r.same_but_for_the_arm(*self),
            r.ceiling_rows_per_s == ceiling_rows_per_s,
    {
        Infra {
            digest: self.digest.as_str().to_owned(),
            broker: self.broker.as_str().to_owned(),
            broker_version: self.broker_version.as_str().to_owned(),
            broker_image_digest: self.broker_image_digest.as_str().to_owned(),
            broker_cpus: self.broker_cpus.as_str().to_owned(),
            broker_memory: self.broker_memory.as_str().to_owned(),
            clickhouse_version: self.clickhouse_version.as_str().to_owned(),
            clickhouse_image_digest: self.clickhouse_image_digest.as_str().to_owned(),
            clickhouse_cpus: self.clickhouse_cpus.as_str().to_owned(),
            clickhouse_memory: self.clickhouse_memory.as_str().to_owned(),
            partitions: self.partitions,
            storage: self.storage.as_str().to_owned(),
            registry: self.registry.as_str().to_owned(),
            ceiling_msgs_per_s: self.ceiling_msgs_per_s,
            ceiling_bytes_per_s: self.ceiling_bytes_per_s,
            ceiling_rows_per_s,
        }
    }
}

// ---------------------------------------------------------------------------
// Identifiers and the clock
// ---------------------------------------------------------------------------

/// Whether `c` is a digit of lower-case hexadecimal.
pub open spec fn is_hex(c: char) -> bool {
    ('0' <= c && c <= '9') || ('a' <= c && c <= 'f')
}

/// Whether `s` is a version 7 identifier in its hyphenated form: groups of
/// eight, four, four, four and twelve hexadecimal digits, the third of which
/// begins with the version.
pub open spec fn is_run_id(s: Seq<char>) -> bool {
    &&& s.len() == 36
    &&& forall|i: int|
        0 <= i < 36 ==> if i == 8 || i == 13 || i == 18 || i == 23 {
            #[trigger] s[i] == '-'
        } else {
            is_hex(s[i])
        }
    &&& s[14] == '7'
}

/// Whether `s` is an identifier in its simple form: thirty-two hexadecimal
/// digits.
pub open spec fn is_simple_id(s: Seq<char>) -> bool {
    &&& s.len() == 32
    &&& forall|i: int| 0 <= i < 32 ==> is_hex(#[trigger] s[i])
    &&& s[12] == '7'
}

/// Calls `uuid::Uuid::now_v7` and writes the identifier with its `Display`: the
/// hyphenated form in lower case, whose version digit is 7. Its digits come from
/// the clock and from chance, so nothing is stated of them; that identifiers of
/// one process ascend, as the crate documents, relates calls and is left unsaid.
#[verifier::external_body]
fn fresh_id() -> (s: String)
    ensures
        is_run_id(s@),
{
    uuid::Uuid::now_v7().to_string()
}

/// Calls `uuid::Uuid::now_v7` and writes the identifier with the adapter that
/// `Uuid::simple` returns: the same digits as in the hyphenated form, without
/// hyphens. Which digits they are comes from the clock and from chance.
#[verifier::external_body]
pub(crate) fn fresh_simple_id() -> (s: String)
    ensures
        is_simple_id(s@),
{
    uuid::Uuid::now_v7().simple().to_string()
}

/// Milliseconds since the Unix epoch, by `SystemTime::elapsed` of the epoch; zero
/// where the clock stands before it. The result is the clock's, and nothing is
/// stated of it.
#[verifier::external_body]
pub fn now_ms() -> (ms: u64) {
    match std::time::UNIX_EPOCH.elapsed() {
        Ok(d) => d.as_millis() as u64,
        Err(_) => 0,
    }
}

/// The commit of the harness: what the environment names, or else what the
/// version control printed.
pub open spec fn commit_of(named: Option<String>, printed: Option<String>) -> Option<Seq<char>> {
    match named {
        Some(c) if c@.len() > 0 => Some(c@),
        _ => match printed {
            Some(p) if text::trim(p@).len() > 0 => Some(text::trim(p@)),
            _ => None,
        },
    }
}

/// The commit of the harness, where it is known. An empty answer is none.
pub fn detect_commit(named: Option<String>, printed: Option<String>) -> (r: Option<String>)
    ensures
        match r {
            Some(c) => commit_of(named, printed) == Some(c@),
            None => commit_of(named, printed) is None,
        },
{
    if let Some(c) = named {
        if c.as_str().unicode_len() > 0 {
            return Some(c);
        }
    }
    match printed {
        None => None,
        Some(p) => {
            let v = text::chars_of(p.as_str());
            let t = text::trimmed(v.as_slice());
            if t.len() > 0 {
                Some(text::string_of(t))
            } else {
                None
            }
        },
    }
}

/// What is fixed for one invocation and written on each of its records.
#[derive(Clone, Debug, PartialEq, Eq)]
pub struct Sitting {
    /// Identifier of the invocation.
    pub invocation_id: String,
    /// Commit of the harness, where it is known.
    pub commit: Option<String>,
    /// Version of the corpus.
    pub dataset_version: String,
}

impl Sitting {
    /// Begins an invocation: mints its identifier once.
    pub fn begin(commit: Option<String>, dataset_version: &str) -> (s: Sitting)
        ensures
            is_run_id(s.invocation_id@),
            s.commit == commit,
            s.dataset_version@ == dataset_version@,
    {
        Sitting {
            invocation_id: fresh_id(),
            commit,
            dataset_version: dataset_version.to_owned(),
        }
    }
}

/// Provenance of a run: when, where, under which protocol, on which data.
#[derive(Clone, Debug, PartialEq, Eq)]
pub struct RunMeta {
    /// Milliseconds since the Unix epoch at which the record was built.
    pub ts_ms: u64,
    /// The invocation that produced the record.
    pub invocation_id: String,
    /// The hardware profile's id.
    pub env_id: String,
    /// Digest of the profile's contents.
    pub env_digest: String,
    /// Version of the protocol.
    pub harness_version: u32,
    /// Version of the corpus.
    pub dataset_version: String,
    /// Commit of the harness.
    pub commit: Option<String>,
    /// What caused the run.
    pub trigger: Trigger,
    /// Shared infrastructure.
    pub infra: Infra,
}

impl RunMeta {
    /// What the provenance says for a sitting, whatever the clock read.
    pub open spec fn is_of(
        self,
        sitting: Sitting,
        env_id: Seq<char>,
        env_digest: Seq<char>,
        trigger: Trigger,
        infra: Infra,
    ) -> bool {
        &&& self.invocation_id@ == sitting.invocation_id@
        &&& self.env_id@ == env_id
        &&& self.env_digest@ == env_digest
        &&& self.harness_version == HARNESS_VERSION
        &&& self.dataset_version@ == sitting.dataset_version@
        &&& same_text(self.commit, sitting.commit)
        &&& self.trigger == trigger
        &&& self.infra == infra
    }

    /// Provenance of a record that is built at `ts_ms`.
    pub fn at(
        ts_ms: u64,
        sitting: &Sitting,
        env_id: &str,
        env_digest: &str,
        trigger: Trigger,
        infra: Infra,
    ) -> (r: RunMeta)
        ensures
            r.ts_ms == ts_ms,
            r.is_of(*sitting, env_id@, env_digest@, trigger, infra),
    {
        RunMeta {
            ts_ms,
            invocation_id: sitting.invocation_id.as_str().to_owned(),
            env_id: env_id.to_owned(),
            env_digest: env_digest.to_owned(),
            harness_version: HARNESS_VERSION,
            dataset_version: sitting.dataset_version.as_str().to_owned(),
            commit: copied_text(&sitting.commit),
            trigger,
            infra,
        }
    }

    /// Provenance of a record that is built now.
    pub fn new(
        sitting: &Sitting,
        env_id: &str,
        env_digest: &str,
        trigger: Trigger,
        infra: Infra,
    ) -> (r: RunMeta)
        ensures
            r.is_of(*sitting, env_id@, env_digest@, trigger, infra),
    {
        RunMeta::at(now_ms(), sitting, env_id, env_digest, trigger, infra)
    }
}

// ---------------------------------------------------------------------------
// The record
// ---------------------------------------------------------------------------

/// One emitted record.
#[derive(Debug)]
pub struct Report {
    /// Schema version.
    pub schema: u32,
    /// The suite.
    pub bench: String,
    /// Measurement or verdict.
    pub kind: Kind,
    /// Whether the record carries publishable numbers.
    pub status: Status,
    /// Identifier of this execution.
    pub run_id: String,
    /// Which repetition this is, counted from one.
    pub rep: u32,
    /// How many repetitions were asked for.
    pub reps: u32,
    /// What was run.
    pub sut: Sut,
    /// Provenance of the run.
    pub run: RunMeta,
    /// The arm's configuration, never a measured quantity.
    pub variant: Table<Value>,
    /// Measured quantities by name.
    pub metrics: Table<Metric>,
    /// Caveat in prose.
    pub note: Option<String>,
    /// Caveats that can be filtered on, each at most once.
    pub flags: Vec<Flag>,
}

/// The flags after `flag` is attached: once, however often it is attached.
pub open spec fn flagged(flags: Seq<Flag>, flag: Flag) -> Seq<Flag> {
    if flags.contains(flag) {
        flags
    } else {
        flags.push(flag)
    }
}

/// Whether no flag stands twice.
pub open spec fn each_once(flags: Seq<Flag>) -> bool {
    forall|i: int, j: int| 0 <= i < j < flags.len() ==> flags[i] != flags[j]
}

/// Whether `flag` stands among `flags`.
pub fn has_flag(flags: &[Flag], flag: Flag) -> (r: bool)
    ensures
        r == flags@.contains(flag),
{
    let mut i: usize = 0;
    while i < flags.len()
        invariant
            i <= flags.len(),
            forall|j: int| 0 <= j < i ==> flags@[j] != flag,
        decreases flags.len() - i,
    {
        if flags[i] == flag {
            assert(flags@[i as int] == flag);
            return true;
        }
        i = i + 1;
    }
    false
}

/// Attaches `flag`, once.
pub fn add_flag(flags: &mut Vec<Flag>, flag: Flag)
    ensures
        final(flags)@ == flagged(old(flags)@, flag),
{
    if !has_flag(flags.as_slice(), flag) {
        flags.push(flag);
    }
}

impl Report {
    /// Whether the record is the empty one of an arm, with the id `run_id`.
    pub open spec fn is_blank(
        self,
        run_id: Seq<char>,
        bench: Seq<char>,
        kind: Kind,
        status: Status,
        sut: Sut,
        run: RunMeta,
    ) -> bool {
        &&& self.schema == SCHEMA_VERSION
        &&& self.bench@ == bench
        &&& self.kind == kind
        &&& self.status == status
        &&& self.run_id@ == run_id
        &&& self.rep == 1
        &&& self.reps == 1
        &&& self.sut == sut
        &&& self.run == run
        &&& self.variant@ == Map::<Seq<char>, Value>::empty()
        &&& self.metrics@ == Map::<Seq<char>, Metric>::empty()
        &&& self.note is None
        &&& self.flags@ == Seq::<Flag>::empty()
    }

    /// A record for one arm of one repetition, under the id `run_id`.
    pub fn with_id(
        run_id: String,
        bench: &str,
        kind: Kind,
        status: Status,
        sut: Sut,
        run: RunMeta,
    ) -> (r: Report)
        ensures
            r.is_blank(run_id@, bench@, kind, status, sut, run),
    {
        Report {
            schema: SCHEMA_VERSION,
            bench: bench.to_owned(),
            kind,
            status,
            run_id,
            rep: 1,
            reps: 1,
            sut,
            run,
            variant: Table::new(),
            metrics: Table::new(),
            note: None,
            flags: Vec::new(),
        }
    }

    /// A record for one arm of one repetition, under a fresh id.
    pub fn new(bench: &str, kind: Kind, status: Status, sut: Sut, run: RunMeta) -> (r: Report)
        ensures
            is_run_id(r.run_id@),
            r.is_blank(r.run_id@, bench@, kind, status, sut, run),
    {
        Report::with_id(fresh_id(), bench, kind, status, sut, run)
    }

    /// Records which repetition of how many this is.
    pub fn rep(self, rep: u32, reps: u32) -> (r: Report)
        ensures
            r == (Report { rep, reps, ..self }),
    {
        let mut r = self;
        r.rep = rep;
        r.reps = reps;
        r
    }

    /// Adds one dimension of the arm's configuration.
    pub fn variant(self, key: &str, value: Value) -> (r: Report)
        ensures
            r == (Report { variant: r.variant, ..self }),
            r.variant@ == self.variant@.insert(key@, value),
    {
        let mut r = self;
        r.variant.insert(key.to_owned(), value);
        r
    }

    /// Adds one measured quantity.
    pub fn metric(self, key: &str, metric: Metric) -> (r: Report)
        ensures
            r == (Report { metrics: r.metrics, ..self }),
            r.metrics@ == self.metrics@.insert(key@, metric),
    {
        let mut r = self;
        r.metrics.insert(key.to_owned(), metric);
        r
    }

    /// Attaches a caveat in prose.
    pub fn note(self, note: String) -> (r: Report)
        ensures
            r == (Report { note: Some(note), ..self }),
    {
        let mut r = self;
        r.note = Some(note);
        r
    }

    /// Attaches a caveat that can be filtered on, once.
    pub fn flag(self, flag: Flag) -> (r: Report)
        ensures
            r == (Report { flags: r.flags, ..self }),
            r.flags@ == flagged(self.flags@, flag),
    {
        let mut r = self;
        add_flag(&mut r.flags, flag);
        r
    }
}

// ---------------------------------------------------------------------------
// Laws
// ---------------------------------------------------------------------------

/// Attaching a flag a second time changes nothing, and a record whose flags each
/// stand once keeps that through every attachment.
pub proof fn a_flag_is_attached_once(flags: Seq<Flag>, flag: Flag)
    ensures
        flagged(flags, flag).contains(flag),
        flagged(flagged(flags, flag), flag) == flagged(flags, flag),
        each_once(flags) ==> each_once(flagged(flags, flag)),
{
    if !flags.contains(flag) {
        assert(flags.push(flag)[flags.len() as int] == flag);
        assert forall|i: int, j: int|
            each_once(flags) && 0 <= i < j < flags.push(flag).len() implies flags.push(flag)[i]
            != flags.push(flag)[j] by {
            if j == flags.len() {
                assert(flags.contains(flags[i]));
            }
        }
    }
}

/// Every record of one sitting carries the sitting's identifier, whenever it was
/// built and whatever it reports.
pub proof fn records_of_one_sitting_share_its_id(
    a: RunMeta,
    b: RunMeta,
    sitting: Sitting,
    env_a: Seq<char>,
    env_b: Seq<char>,
    digest_a: Seq<char>,
    digest_b: Seq<char>,
    trigger_a: Trigger,
    trigger_b: Trigger,
    infra_a: Infra,
    infra_b: Infra,
)
    requires
        a.is_of(sitting, env_a, digest_a, trigger_a, infra_a),
        b.is_of(sitting, env_b, digest_b, trigger_b, infra_b),
    ensures
        a.invocation_id@ == b.invocation_id@,
        a.harness_version == b.harness_version,
        a.dataset_version@ == b.dataset_version@,
        same_text(a.commit, b.commit),
{
}

} // verus!
