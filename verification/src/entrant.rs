//! The entrant contract: one descriptor per system, and nothing else to edit.
//!
//! There is no central registry: adding a system touches one new directory and
//! no shared file. What a descriptor gets wrong is refused here, where it is
//! written, rather than after an image was built and a sweep has started, and
//! every problem is reported, never only the first.

use vstd::prelude::*;
use vstd::slice::slice_subrange;
use crate::double;
use crate::double::Double;
use crate::environment;
use crate::table;
use crate::table::Table;
use crate::text;

verus! {

/// Descriptor schema version, independent of the schema of the records.
pub const DESCRIPTOR_SCHEMA: u32 = 1;

/// A descriptor, and where it was found.
#[derive(Debug)]
pub struct Entrant {
    /// Directory holding the descriptor.
    pub dir: String,
    /// The descriptor itself.
    pub spec: Spec,
}

/// The descriptor's contents.
#[derive(Debug)]
pub struct Spec {
    /// Descriptor schema version.
    pub schema: u32,
    /// Identity and classification.
    pub entrant: Identity,
    /// Whom to contact, and whether the configuration was reviewed upstream.
    pub maintainer: Maintainer,
    /// Presentation metadata.
    pub display: Display,
    /// How to learn which version ran.
    pub version: Option<VersionSource>,
    /// How to build the image.
    pub build: Option<Build>,
    /// The resource envelope.
    pub envelope: Option<Envelope>,
    /// Delivery semantics, published beside the numbers.
    pub guarantees: Option<Guarantees>,
    /// Named volumes.
    pub volumes: Option<Volumes>,
    /// Environment passed to the containers.
    pub env: Table<String>,
    /// The arms that this entrant publishes.
    pub variants: Vec<Variant>,
    /// Knob combinations that the arm cannot run.
    pub constraints: Vec<Constraint>,
    /// Every deviation from the common shape.
    pub deviations: Vec<Deviation>,
    /// Objects on the shared server that belong to the arm.
    pub clickhouse: Option<ClickhouseSpec>,
    /// Why an entrant is not yet built.
    pub planned: Option<Planned>,
}

/// Identity and the facets that a reader filters on.
#[derive(Clone, Debug, PartialEq, Eq)]
pub struct Identity {
    /// Equal to the directory's name.
    pub id: String,
    /// Display name.
    pub name: String,
    /// The project's page.
    pub homepage: String,
    /// Its repository.
    pub repo: String,
    /// Its documentation.
    pub docs: String,
    /// Its licence, as an SPDX identifier.
    pub licence: String,
    /// Who publishes the system.
    pub vendor: String,
    /// Broad category.
    pub kind: String,
    /// Implementation languages.
    pub language: Vec<String>,
    /// What it runs on.
    pub runtime: String,
    /// Where it is in its life.
    pub status: Status,
}

/// Whether an entrant is measured, planned, or retired.
#[derive(Clone, Copy, Debug, PartialEq, Eq, Structural)]
pub enum Status {
    /// Built and measured.
    Active,
    /// Declared and not yet built. Validation is relaxed.
    Planned,
    /// Was measured and is no longer run. Its results stay published.
    Historical,
    /// Removed.
    Withdrawn,
}

impl Status {
    /// Whether an entrant of this status carries a definition that runs.
    pub open spec fn runs(self) -> bool {
        self is Active || self is Historical
    }

    /// Whether an entrant of this status must carry a definition that can be
    /// built and run.
    pub fn is_runnable(self) -> (r: bool)
        ensures
            r == self.runs(),
    {
        match self {
            Status::Active => true,
            Status::Historical => true,
            Status::Planned => false,
            Status::Withdrawn => false,
        }
    }
}

/// Contact and state of the upstream review.
#[derive(Clone, Debug, PartialEq, Eq)]
pub struct Maintainer {
    /// Who wrote the arm.
    pub who: String,
    /// Whether the configuration was shown to the project.
    pub reviewed_upstream: bool,
    /// Where that happened.
    pub review_url: String,
}

/// Presentation metadata.
#[derive(Clone, Debug, PartialEq, Eq)]
pub struct Display {
    /// Sort key for rows of equal rank.
    pub order: i64,
    /// Hue as an angle in degrees. Contrast is the renderer's.
    pub hue: u16,
    /// Label for dense layouts.
    pub short: String,
}

/// How to discover which version ran.
#[derive(Clone, Debug, PartialEq, Eq)]
pub struct VersionSource {
    /// How the version is resolved.
    pub strategy: String,
    /// What is executed inside the image.
    pub command: Vec<String>,
    /// Expected value, asserted against what is resolved.
    pub pinned: String,
}

/// How to build the entrant's image.
#[derive(Clone, Debug, PartialEq, Eq)]
pub struct Build {
    /// Build context, relative to the entrant's directory.
    pub context: String,
    /// Dockerfile, relative to the entrant's directory.
    pub dockerfile: String,
    /// Local image tag.
    pub image: String,
    /// Ids of the secrets that the build needs.
    pub secrets: Vec<String>,
}

/// The resource envelope, and how it splits across containers.
#[derive(Clone, Debug, PartialEq, Eq)]
pub struct Envelope {
    /// Processors of the data plane in total.
    pub cpus: String,
    /// Memory of the data plane in total.
    pub memory: String,
    /// The containers that the entrant runs.
    pub containers: Vec<Container>,
}

/// One container of an arm.
#[derive(Clone, Debug, PartialEq, Eq)]
pub struct Container {
    /// Whether it does the work or coordinates it.
    pub role: Role,
    /// Suffix of the container's name.
    pub name: String,
    /// Processor cap.
    pub cpus: String,
    /// Memory cap.
    pub memory: String,
    /// Command arguments.
    pub args: Vec<String>,
    /// Where its virtual machine writes the collector's log. One that declares
    /// none gets no collector figures.
    pub gc_log: Option<String>,
}

/// Whether a container does the work or coordinates it.
#[derive(Clone, Copy, Debug, PartialEq, Eq, Structural)]
pub enum Role {
    /// Does the ingestion. Charged against the envelope.
    DataPlane,
    /// Coordinates. Allocated on top, with its cost published.
    ControlPlane,
}

/// Delivery semantics.
#[derive(Clone, Debug, PartialEq, Eq)]
pub struct Guarantees {
    /// Which guarantee.
    pub delivery: String,
    /// By which mechanism.
    pub durability: String,
    /// How often that mechanism acts.
    pub interval_ms: u64,
}

/// Named volumes.
#[derive(Clone, Debug, PartialEq, Eq)]
pub struct Volumes {
    /// Entries of the form `name:/path`.
    pub named: Vec<String>,
}

/// A value substituted for a knob.
#[derive(Clone, Debug, PartialEq, Eq)]
pub enum Knob {
    /// A whole number.
    Integer(i64),
    /// A text.
    Text(String),
    /// Any other value. It has no meaning in an environment variable.
    Other,
}

/// What a knob holds.
pub enum KnobView {
    /// A whole number.
    Integer(int),
    /// A text.
    Text(Seq<char>),
    /// Any other value.
    Other,
}

impl View for Knob {
    type V = KnobView;

    open spec fn view(&self) -> KnobView {
        match *self {
            Knob::Integer(n) => KnobView::Integer(n as int),
            Knob::Text(s) => KnobView::Text(s@),
            Knob::Other => KnobView::Other,
        }
    }
}

impl Knob {
    /// The number that the knob is, if it is one.
    pub open spec fn number(self) -> Option<int> {
        match self {
            Knob::Integer(n) => Some(n as int),
            _ => None,
        }
    }

    /// A copy.
    pub fn copied(&self) -> (k: Knob)
        ensures
            k@ == self@,
            k.number() == self.number(),
    {
        match self {
            Knob::Integer(n) => Knob::Integer(*n),
            Knob::Text(s) => Knob::Text(s.as_str().to_owned()),
            Knob::Other => Knob::Other,
        }
    }
}

/// One published arm.
#[derive(Debug)]
pub struct Variant {
    /// Stable for the life of the entrant: it is recorded on every result.
    pub id: String,
    /// Label for people.
    pub label: String,
    /// How representative the configuration is.
    pub approach: Approach,
    /// Components that the entrant's project does not ship. Naming one binds the
    /// variant to [`Approach::Stripped`].
    pub unshipped: Vec<String>,
    /// Whether this is the entrant's default.
    pub default: bool,
    /// Environment of this arm alone.
    pub env: Table<String>,
    /// Values of the knobs.
    pub knobs: Table<Knob>,
    /// Facts that the arm asserts of itself.
    pub reports: Table<String>,
}

/// How representative a variant's configuration is.
#[derive(Clone, Copy, Debug, PartialEq, Eq, Structural)]
pub enum Approach {
    /// What a competent user would deploy.
    Realistic,
    /// Within the rules, and not what a typical user would deploy.
    Tuned,
    /// Uses code that the project does not ship, or drops a guarantee.
    Stripped,
}

impl Approach {
    /// The name of the approach.
    pub open spec fn word(self) -> Seq<char> {
        match self {
            Approach::Realistic => "Realistic"@,
            Approach::Tuned => "Tuned"@,
            Approach::Stripped => "Stripped"@,
        }
    }

    /// The name of the approach.
    pub fn as_str(self) -> (s: &'static str)
        ensures
            s@ == self.word(),
    {
        match self {
            Approach::Realistic => "Realistic",
            Approach::Tuned => "Tuned",
            Approach::Stripped => "Stripped",
        }
    }
}

/// A knob combination that the arm cannot run: exactly one of two relations.
#[derive(Clone, Debug, PartialEq, Eq)]
pub struct Constraint {
    /// The knob that the relation binds.
    pub knob: String,
    /// The knob that it must strictly exceed.
    pub exceeds: Option<String>,
    /// The number that it must be at least equal to.
    pub at_least: Option<i64>,
    /// What breaks when the relation does not hold.
    pub why: String,
}

/// One declared deviation from the common shape.
#[derive(Clone, Debug, PartialEq, Eq)]
pub struct Deviation {
    /// What differs.
    pub what: String,
    /// Why it does.
    pub why: String,
    /// Which published quantities the difference touches.
    pub affects: Vec<String>,
}

/// Objects of the arm on the shared server, and how its inserts reach the log.
#[derive(Clone, Debug, PartialEq, Eq)]
pub struct ClickhouseSpec {
    /// Statements that create the arm's objects, relative to the entrant's
    /// directory.
    pub arm_sql: String,
    /// Statements that remove them again.
    pub arm_teardown_sql: String,
    /// Further tables, unqualified, whose inserts are attributed to the arm.
    pub attribution_tables: Vec<String>,
    /// Whether the arm's inserts arrive as forwarded queries.
    pub forwarded_inserts: bool,
}

/// Why an entrant is declared and not yet built.
#[derive(Clone, Debug, PartialEq, Eq)]
pub struct Planned {
    /// Where the work is tracked.
    pub tracking: String,
    /// What stands in its way.
    pub blockers: String,
    /// A licence question that gates publication.
    pub licence_gate: String,
}

// ---------------------------------------------------------------------------
// Memory limits
// ---------------------------------------------------------------------------

/// The bytes that a suffix of a memory limit stands for.
pub open spec fn memory_unit(c: char) -> Option<nat> {
    if c == 'g' || c == 'G' {
        Some(1_073_741_824)
    } else if c == 'm' || c == 'M' {
        Some(1_048_576)
    } else if c == 'k' || c == 'K' {
        Some(1024)
    } else {
        None
    }
}

/// A memory limit in bytes: a number, with an optional suffix for its unit.
/// `None` for what is no number and for what does not fit in sixty-four bits.
pub open spec fn memory_bytes(s: Seq<char>) -> Option<nat> {
    let t = text::trim(s);
    if t.len() == 0 {
        None
    } else {
        let (digits, unit) = match memory_unit(t.last()) {
            Some(u) => (t.drop_last(), u),
            None => (t, 1),
        };
        match text::parse_u64(text::trim(digits)) {
            Some(n) if n * unit <= u64::MAX => Some(n * unit),
            _ => None,
        }
    }
}

/// Parses a memory limit into bytes. An absurd one is refused rather than
/// wrapped: a wrapped product is a plausible small number that could equal an
/// unrelated cap.
pub fn parse_memory(s: &str) -> (r: Option<u64>)
    ensures
        match r {
            Some(n) => memory_bytes(s@) == Some(n as nat),
            None => memory_bytes(s@) is None,
        },
{
    let v = text::chars_of(s);
    let t = text::trimmed(v.as_slice());
    let len: usize = t.len();
    if len == 0 {
        return None;
    }
    let c: char = t[len - 1];
    let unit: u64 = if c == 'g' || c == 'G' {
        1_073_741_824
    } else if c == 'm' || c == 'M' {
        1_048_576
    } else if c == 'k' || c == 'K' {
        1024
    } else {
        1
    };
    let digits: &[char] = if unit > 1 {
        slice_subrange(t, 0, len - 1)
    } else {
        t
    };
    assert(unit > 1 ==> digits@ =~= t@.drop_last());
    match text::to_u64(text::trimmed(digits)) {
        None => None,
        Some(n) => n.checked_mul(unit),
    }
}

// ---------------------------------------------------------------------------
// Placeholders
// ---------------------------------------------------------------------------

/// One placeholder of an environment value, parsed from the text between its
/// braces. This is the entire vocabulary: validation refuses every other
/// spelling, and substitution resolves exactly these.
#[derive(Clone, Copy, Debug, PartialEq, Eq)]
pub enum Placeholder<T> {
    /// Bootstrap servers of the broker.
    BrokerInternal,
    /// Base address of the schema registry.
    RegistryInternal,
    /// Base address of ClickHouse.
    ClickhouseInternal,
    /// The topic that the run consumes.
    Topic,
    /// The consumer group of the run.
    GroupId,
    /// Where a group without offsets begins, as the run's mode decides.
    OffsetReset,
    /// The password that the server was started with.
    ClickhousePassword,
    /// The effective value of the named knob.
    Knob(T),
    /// The network name of the named container.
    Container(T),
}

/// Every supported spelling, quoted into refusals.
pub const GRAMMAR: &'static str =
    "{{broker_internal}}, {{registry_internal}}, {{clickhouse_internal}}, {{clickhouse_password}}, {{topic}}, {{group_id}}, {{offset_reset}}, {{knob:NAME}}, {{container:NAME}}";

/// The placeholder that `inner` spells.
pub open spec fn placeholder(inner: Seq<char>) -> Option<Placeholder<Seq<char>>> {
    if inner == "broker_internal"@ {
        Some(Placeholder::BrokerInternal)
    } else if inner == "registry_internal"@ {
        Some(Placeholder::RegistryInternal)
    } else if inner == "clickhouse_internal"@ {
        Some(Placeholder::ClickhouseInternal)
    } else if inner == "clickhouse_password"@ {
        Some(Placeholder::ClickhousePassword)
    } else if inner == "topic"@ {
        Some(Placeholder::Topic)
    } else if inner == "group_id"@ {
        Some(Placeholder::GroupId)
    } else if inner == "offset_reset"@ {
        Some(Placeholder::OffsetReset)
    } else {
        match text::strip_prefix(inner, "knob:"@) {
            Some(k) => Some(Placeholder::Knob(k)),
            None => match text::strip_prefix(inner, "container:"@) {
                Some(c) => Some(Placeholder::Container(c)),
                None => None,
            },
        }
    }
}

/// What a placeholder over characters stands for.
pub open spec fn meaning(p: Placeholder<&[char]>) -> Placeholder<Seq<char>> {
    match p {
        Placeholder::BrokerInternal => Placeholder::BrokerInternal,
        Placeholder::RegistryInternal => Placeholder::RegistryInternal,
        Placeholder::ClickhouseInternal => Placeholder::ClickhouseInternal,
        Placeholder::Topic => Placeholder::Topic,
        Placeholder::GroupId => Placeholder::GroupId,
        Placeholder::OffsetReset => Placeholder::OffsetReset,
        Placeholder::ClickhousePassword => Placeholder::ClickhousePassword,
        Placeholder::Knob(k) => Placeholder::Knob(k@),
        Placeholder::Container(c) => Placeholder::Container(c@),
    }
}

impl<'a> Placeholder<&'a [char]> {
    /// Parses the text between the braces.
    pub fn parse(inner: &'a [char]) -> (r: Option<Placeholder<&'a [char]>>)
        ensures
            match r {
                Some(p) => placeholder(inner@) == Some(meaning(p)),
                None => placeholder(inner@) is None,
            },
    {
        if text::spells(inner, "broker_internal") {
            Some(Placeholder::BrokerInternal)
        } else if text::spells(inner, "registry_internal") {
            Some(Placeholder::RegistryInternal)
        } else if text::spells(inner, "clickhouse_internal") {
            Some(Placeholder::ClickhouseInternal)
        } else if text::spells(inner, "clickhouse_password") {
            Some(Placeholder::ClickhousePassword)
        } else if text::spells(inner, "topic") {
            Some(Placeholder::Topic)
        } else if text::spells(inner, "group_id") {
            Some(Placeholder::GroupId)
        } else if text::spells(inner, "offset_reset") {
            Some(Placeholder::OffsetReset)
        } else {
            match text::without_prefix(inner, "knob:") {
                Some(k) => Some(Placeholder::Knob(k)),
                None => match text::without_prefix(inner, "container:") {
                    Some(c) => Some(Placeholder::Container(c)),
                    None => None,
                },
            }
        }
    }
}

/// The tokens of an environment value: each as written, with the text between
/// its braces, which is missing where the braces never close.
pub open spec fn tokens(raw: Seq<char>) -> Seq<(Seq<char>, Option<Seq<char>>)>
    decreases raw.len(),
{
    match text::first(raw, "{{"@) {
        Some(start) if 0 <= start <= raw.len() => {
            let after = raw.skip(start);
            match text::first(after, "}}"@) {
                Some(end) if 2 <= end && end + 2 <= after.len() => seq![
                    (after.take(end + 2), Some(after.subrange(2, end))),
                ] + tokens(after.skip(end + 2)),
                _ => seq![(after, None)],
            }
        },
        _ => Seq::empty(),
    }
}

/// A token over characters, as characters.
pub open spec fn token_view(t: (&[char], Option<&[char]>)) -> (Seq<char>, Option<Seq<char>>) {
    (
        t.0@,
        match t.1 {
            Some(inner) => Some(inner@),
            None => None,
        },
    )
}

/// The tokens that a vector holds.
pub open spec fn token_views(v: Seq<(&[char], Option<&[char]>)>) -> Seq<
    (Seq<char>, Option<Seq<char>>),
> {
    v.map_values(|t: (&[char], Option<&[char]>)| token_view(t))
}

/// An opening pair of braces does not begin with a closing one.
proof fn lemma_close_follows_open(after: Seq<char>)
    requires
        text::occurs(after, "{{"@, 0),
    ensures
        match text::first(after, "}}"@) {
            Some(end) => 2 <= end && end + 2 <= after.len(),
            None => true,
        },
{
    reveal_strlit("{{");
    reveal_strlit("}}");
    text::lemma_first_from(after, "}}"@, 0);
    assert(after.subrange(0, 2)[0] == '{');
    assert(after.subrange(0, 2)[1] == '{');
    match text::first(after, "}}"@) {
        Some(end) => {
            assert(after.subrange(end, end + 2)[0] == '}');
        },
        None => {},
    }
}

/// The tokens of an environment value.
pub fn placeholder_tokens<'a>(raw: &'a [char]) -> (out: Vec<(&'a [char], Option<&'a [char]>)>)
    ensures
        token_views(out@) == tokens(raw@),
{
    let mut out: Vec<(&'a [char], Option<&'a [char]>)> = Vec::new();
    let mut rest: &'a [char] = raw;
    assert(token_views(out@) + tokens(rest@) =~= tokens(raw@));
    loop
        invariant_except_break
            token_views(out@) + tokens(rest@) == tokens(raw@),
        ensures
            token_views(out@) == tokens(raw@),
        decreases rest@.len(),
    {
        let ghost was = token_views(out@);
        match text::find(rest, "{{") {
            None => {
                assert(token_views(out@) =~= tokens(raw@));
                break;
            },
            Some(start) => {
                let len: usize = rest.len();
                let after: &'a [char] = slice_subrange(rest, start, len);
                assert(after@ =~= rest@.skip(start as int));
                proof {
                    text::lemma_first_from(rest@, "{{"@, 0);
                    assert(after@.subrange(0, "{{"@.len() as int) =~= rest@.subrange(
                        start as int,
                        start + "{{"@.len(),
                    ));
                    lemma_close_follows_open(after@);
                    reveal_strlit("}}");
                }
                match text::find(after, "}}") {
                    None => {
                        out.push((after, None));
                        assert(token_views(out@) =~= was.push((after@, None)));
                        assert(token_views(out@) =~= tokens(raw@));
                        break;
                    },
                    Some(end) => {
                        let whole: &'a [char] = slice_subrange(after, 0, end + 2);
                        let inner: &'a [char] = slice_subrange(after, 2, end);
                        let next: &'a [char] = slice_subrange(after, end + 2, after.len());
                        out.push((whole, Some(inner)));
                        assert(whole@ =~= after@.take(end + 2));
                        assert(next@ =~= after@.skip(end + 2));
                        assert(token_views(out@) =~= was.push((whole@, Some(inner@))));
                        assert(was + tokens(rest@) =~= token_views(out@) + tokens(next@));
                        rest = next;
                    },
                }
            },
        }
    }
    out
}

// ---------------------------------------------------------------------------
// Knobs
// ---------------------------------------------------------------------------

/// The number that the knob `name` is set to.
pub open spec fn knob_number(knobs: Map<Seq<char>, Knob>, name: Seq<char>) -> Option<int> {
    if knobs.contains_key(name) {
        knobs[name].number()
    } else {
        None
    }
}

/// The number that the knob `name` is set to.
pub fn knob_value(knobs: &Table<Knob>, name: &str) -> (r: Option<i64>)
    ensures
        match r {
            Some(n) => knob_number(knobs@, name@) == Some(n as int),
            None => knob_number(knobs@, name@) is None,
        },
{
    match knobs.get(name) {
        Some(Knob::Integer(n)) => Some(*n),
        _ => None,
    }
}

/// The knobs that are set, for a refusal.
pub open spec fn stated(keys: Seq<Seq<char>>) -> Seq<char> {
    if keys.len() == 0 {
        "none"@
    } else {
        text::join(keys, ", "@)
    }
}

/// The knobs that are set, for a refusal.
pub fn stated_knobs(knobs: &Table<Knob>) -> (s: String)
    ensures
        s@ == stated(table::keys(knobs.seq())),
{
    let keys = knobs.key_list();
    assert(text::strings(keys@).len() == keys@.len());
    if keys.len() == 0 {
        "none".to_owned()
    } else {
        text::joined(keys.as_slice(), ", ")
    }
}

/// `s` on one line: its words with one space between them.
pub open spec fn reflowed(s: Seq<char>) -> Seq<char> {
    text::join(text::words(s), " "@)
}

/// Copies of character slices, as strings.
fn to_strings(v: &Vec<&[char]>) -> (out: Vec<String>)
    ensures
        text::strings(out@) == text::views(v@),
{
    let mut out: Vec<String> = Vec::new();
    let mut i: usize = 0;
    while i < v.len()
        invariant
            i <= v.len(),
            text::strings(out@) == text::views(v@).take(i as int),
        decreases v.len() - i,
    {
        text::push_string(&mut out, text::string_of(v[i]));
        assert(text::views(v@).take(i + 1) =~= text::views(v@).take(i as int).push(v@[i as int]@));
        i = i + 1;
    }
    assert(text::views(v@).take(i as int) =~= text::views(v@));
    out
}

/// `s` on one line: its words with one space between them.
pub fn reflow(s: &str) -> (r: String)
    ensures
        r@ == reflowed(s@),
{
    let v = text::chars_of(s);
    let words = text::split_words(v.as_slice());
    let parts = to_strings(&words);
    text::joined(parts.as_slice(), " ")
}

impl Constraint {
    /// Whether exactly one of the two relations is stated.
    pub open spec fn states_one(self) -> bool {
        (self.exceeds is Some) != (self.at_least is Some)
    }

    /// Whether the relation holds of `knobs`: one is stated, every knob that it
    /// names is set to a number, and the numbers stand in that relation.
    pub open spec fn holds(self, knobs: Map<Seq<char>, Knob>) -> bool {
        &&& self.states_one()
        &&& match (knob_number(knobs, self.knob@), self.exceeds, self.at_least) {
            (Some(a), Some(other), None) => match knob_number(knobs, other@) {
                Some(b) => a > b,
                None => false,
            },
            (Some(a), None, Some(floor)) => a >= floor,
            _ => false,
        }
    }

    /// The refusal of knobs of which the relation does not hold.
    ///
    /// A knob that is unset is a refusal and not a pass: the image's own default
    /// would apply, which is a value that no record reports.
    pub open spec fn refusal(self, knobs: Table<Knob>) -> Seq<char> {
        let keys = stated(table::keys(knobs.seq()));
        match (self.exceeds, self.at_least) {
            (Some(other), None) => match (
                knob_number(knobs@, self.knob@),
                knob_number(knobs@, other@),
            ) {
                (Some(a), Some(b)) => self.knob@ + " = "@ + text::signed_decimal(a)
                    + " must strictly exceed "@ + other@ + " = "@ + text::signed_decimal(b) + ". "@
                    + reflowed(self.why@),
                _ => "the constraint \""@ + self.knob@ + " must exceed "@ + other@
                    + "\" cannot be checked: one of them is unset or is not an integer here (knobs: "@
                    + keys
                    + "). An unset knob leaves the image's own default in force, which is a value this descriptor never states and no record reports."@,
            },
            (None, Some(floor)) => match knob_number(knobs@, self.knob@) {
                Some(a) => self.knob@ + " = "@ + text::signed_decimal(a) + " must be at least "@
                    + text::signed_decimal(floor as int) + ". "@ + reflowed(self.why@),
                None => "the constraint \""@ + self.knob@ + " must be at least "@
                    + text::signed_decimal(floor as int)
                    + "\" cannot be checked: it is unset or is not an integer here (knobs: "@
                    + keys
                    + "). An unset knob leaves the image's own default in force, which is a value this descriptor never states and no record reports."@,
            },
            _ => "the constraint on "@ + text::debug_text(self.knob@)
                + " states both `exceeds` and `at_least`, or neither; exactly one relation must be stated"@,
        }
    }

    /// The refusal of `knobs`, if the relation does not hold of them.
    pub fn violation(&self, knobs: &Table<Knob>) -> (r: Option<String>)
        ensures
            match r {
                Some(m) => !self.holds(knobs@) && m@ == self.refusal(*knobs),
                None => self.holds(knobs@),
            },
    {
        let a = knob_value(knobs, self.knob.as_str());
        match (&self.exceeds, self.at_least) {
            (Some(other), None) => {
                match (a, knob_value(knobs, other.as_str())) {
                    (Some(x), Some(y)) => {
                        if x > y {
                            return None;
                        }
                        let mut m = self.knob.as_str().to_owned();
                        m.append(" = ");
                        text::push_signed(&mut m, x);
                        m.append(" must strictly exceed ");
                        m.append(other.as_str());
                        m.append(" = ");
                        text::push_signed(&mut m, y);
                        m.append(". ");
                        m.append(reflow(self.why.as_str()).as_str());
                        Some(m)
                    },
                    _ => {
                        let mut m = "the constraint \"".to_owned();
                        m.append(self.knob.as_str());
                        m.append(" must exceed ");
                        m.append(other.as_str());
                        m.append(
                            "\" cannot be checked: one of them is unset or is not an integer here (knobs: ",
                        );
                        m.append(stated_knobs(knobs).as_str());
                        m.append(
                            "). An unset knob leaves the image's own default in force, which is a value this descriptor never states and no record reports.",
                        );
                        Some(m)
                    },
                }
            },
            (None, Some(floor)) => {
                match a {
                    Some(x) => {
                        if x >= floor {
                            return None;
                        }
                        let mut m = self.knob.as_str().to_owned();
                        m.append(" = ");
                        text::push_signed(&mut m, x);
                        m.append(" must be at least ");
                        text::push_signed(&mut m, floor);
                        m.append(". ");
                        m.append(reflow(self.why.as_str()).as_str());
                        Some(m)
                    },
                    None => {
                        let mut m = "the constraint \"".to_owned();
                        m.append(self.knob.as_str());
                        m.append(" must be at least ");
                        text::push_signed(&mut m, floor);
                        m.append(
                            "\" cannot be checked: it is unset or is not an integer here (knobs: ",
                        );
                        m.append(stated_knobs(knobs).as_str());
                        m.append(
                            "). An unset knob leaves the image's own default in force, which is a value this descriptor never states and no record reports.",
                        );
                        Some(m)
                    },
                }
            },
            _ => {
                let mut m = "the constraint on ".to_owned();
                m.append(text::quoted(self.knob.as_str()).as_str());
                m.append(
                    " states both `exceeds` and `at_least`, or neither; exactly one relation must be stated",
                );
                Some(m)
            },
        }
    }
}

/// The refusals of `knobs` by `constraints`, in order.
pub open spec fn violations(constraints: Seq<Constraint>, knobs: Table<Knob>) -> Seq<Seq<char>>
    decreases constraints.len(),
{
    if constraints.len() == 0 {
        Seq::empty()
    } else {
        let c = constraints.last();
        let earlier = violations(constraints.drop_last(), knobs);
        if c.holds(knobs@) {
            earlier
        } else {
            earlier.push(c.refusal(knobs))
        }
    }
}

/// Every way in which `knobs` break the declared constraints.
pub fn knob_violations(constraints: &[Constraint], knobs: &Table<Knob>) -> (out: Vec<String>)
    ensures
        text::strings(out@) == violations(constraints@, *knobs),
{
    let mut out: Vec<String> = Vec::new();
    let mut i: usize = 0;
    assert(text::strings(out@) =~= Seq::empty());
    while i < constraints.len()
        invariant
            i <= constraints.len(),
            text::strings(out@) == violations(constraints@.take(i as int), *knobs),
        decreases constraints.len() - i,
    {
        assert(constraints@.take(i + 1).drop_last() =~= constraints@.take(i as int));
        if let Some(m) = constraints[i].violation(knobs) {
            text::push_string(&mut out, m);
        }
        i = i + 1;
    }
    assert(constraints@.take(i as int) =~= constraints@);
    out
}

/// Knobs are refused by nothing exactly when every constraint holds of them.
pub proof fn no_violation_means_every_constraint_holds(
    constraints: Seq<Constraint>,
    knobs: Table<Knob>,
)
    ensures
        violations(constraints, knobs).len() == 0 <==> forall|i: int|
            0 <= i < constraints.len() ==> (#[trigger] constraints[i]).holds(knobs@),
    decreases constraints.len(),
{
    if constraints.len() > 0 {
        let earlier = constraints.drop_last();
        no_violation_means_every_constraint_holds(earlier, knobs);
        if violations(constraints, knobs).len() == 0 {
            assert forall|i: int| 0 <= i < constraints.len() implies (
            #[trigger] constraints[i]).holds(knobs@) by {
                if i < earlier.len() {
                    assert(earlier[i].holds(knobs@));
                }
            }
        } else if forall|i: int|
            0 <= i < constraints.len() ==> (#[trigger] constraints[i]).holds(knobs@) {
            assert forall|i: int| 0 <= i < earlier.len() implies (#[trigger] earlier[i]).holds(
                knobs@,
            ) by {
                assert(constraints[i].holds(knobs@));
            }
            assert(constraints[constraints.len() - 1].holds(knobs@));
        }
    }
}

// ---------------------------------------------------------------------------
// Looking things up
// ---------------------------------------------------------------------------

impl Entrant {
    /// The entrant's id.
    pub fn id(&self) -> (s: &str)
        ensures
            s@ == self.spec.entrant.id@,
    {
        self.spec.entrant.id.as_str()
    }

    /// The variant marked as the default, or else the first.
    pub fn default_variant(&self) -> (r: Option<&Variant>)
        ensures
            match r {
                Some(v) => exists|i: int|
                    {
                        &&& 0 <= i < self.spec.variants@.len()
                        &&& #[trigger] self.spec.variants@[i] == *v
                        &&& forall|j: int| 0 <= j < i ==> !(#[trigger] self.spec.variants@[j]).default
                        &&& v.default || i == 0 && forall|j: int|
                            0 <= j < self.spec.variants@.len() ==> !(
                            #[trigger] self.spec.variants@[j]).default
                    },
                None => self.spec.variants@.len() == 0,
            },
    {
        let variants = &self.spec.variants;
        let mut i: usize = 0;
        while i < variants.len()
            invariant
                variants == &self.spec.variants,
                i <= variants.len(),
                forall|j: int| 0 <= j < i ==> !(#[trigger] self.spec.variants@[j]).default,
            decreases variants.len() - i,
        {
            if variants[i].default {
                return Some(&variants[i]);
            }
            i = i + 1;
        }
        if variants.len() > 0 {
            Some(&variants[0])
        } else {
            None
        }
    }

    /// The first variant of that id.
    pub fn variant(&self, id: &str) -> (r: Option<&Variant>)
        ensures
            match r {
                Some(v) => v.id@ == id@ && exists|i: int|
                    {
                        &&& 0 <= i < self.spec.variants@.len()
                        &&& #[trigger] self.spec.variants@[i] == *v
                        &&& forall|j: int|
                            0 <= j < i ==> (#[trigger] self.spec.variants@[j]).id@ != id@
                    },
                None => forall|j: int|
                    0 <= j < self.spec.variants@.len() ==> (
                    #[trigger] self.spec.variants@[j]).id@ != id@,
            },
    {
        let variants = &self.spec.variants;
        let mut i: usize = 0;
        while i < variants.len()
            invariant
                variants == &self.spec.variants,
                i <= variants.len(),
                forall|j: int| 0 <= j < i ==> (#[trigger] self.spec.variants@[j]).id@ != id@,
            decreases variants.len() - i,
        {
            if text::same(variants[i].id.as_str(), id) {
                return Some(&variants[i]);
            }
            i = i + 1;
        }
        None
    }

    /// The containers of the entrant.
    pub open spec fn containers(self) -> Seq<Container> {
        match self.spec.envelope {
            Some(e) => e.containers@,
            None => Seq::empty(),
        }
    }

    /// The first container of the data plane.
    pub fn data_plane(&self) -> (r: Option<&Container>)
        ensures
            match r {
                Some(c) => c.role == Role::DataPlane && exists|i: int|
                    {
                        &&& 0 <= i < self.containers().len()
                        &&& #[trigger] self.containers()[i] == *c
                        &&& forall|j: int|
                            0 <= j < i ==> (#[trigger] self.containers()[j]).role
                                != Role::DataPlane
                    },
                None => forall|j: int|
                    0 <= j < self.containers().len() ==> (#[trigger] self.containers()[j]).role
                        != Role::DataPlane,
            },
    {
        match &self.spec.envelope {
            None => None,
            Some(e) => {
                let mut i: usize = 0;
                while i < e.containers.len()
                    invariant
                        self.containers() == e.containers@,
                        i <= e.containers.len(),
                        forall|j: int|
                            0 <= j < i ==> (#[trigger] self.containers()[j]).role
                                != Role::DataPlane,
                    decreases e.containers.len() - i,
                {
                    if e.containers[i].role == Role::DataPlane {
                        assert(self.containers()[i as int] == e.containers@[i as int]);
                        return Some(&e.containers[i]);
                    }
                    i = i + 1;
                }
                None
            },
        }
    }
}

// ---------------------------------------------------------------------------
// Refusals
// ---------------------------------------------------------------------------

/// The refusal `m`, where `c` holds.
pub open spec fn only_if(c: bool, m: Seq<char>) -> Seq<Seq<char>> {
    if c {
        seq![m]
    } else {
        Seq::empty()
    }
}

/// The refusals `ms` of the entrant `id`.
pub open spec fn under(id: Seq<char>, ms: Seq<Seq<char>>) -> Seq<Seq<char>> {
    ms.map_values(|m: Seq<char>| id + ": "@ + m)
}

/// Appends the refusals `ms` of the entrant `id`.
pub fn add_under(errs: &mut Vec<String>, id: &str, ms: &Vec<String>)
    ensures
        text::strings(final(errs)@) == text::strings(old(errs)@) + under(
            id@,
            text::strings(ms@),
        ),
{
    let mut i: usize = 0;
    while i < ms.len()
        invariant
            i <= ms.len(),
            text::strings(errs@) == text::strings(old(errs)@) + under(
                id@,
                text::strings(ms@).take(i as int),
            ),
        decreases ms.len() - i,
    {
        let ghost was = text::strings(errs@);
        let mut m = id.to_owned();
        m.append(": ");
        m.append(ms[i].as_str());
        text::push_string(errs, m);
        assert(under(id@, text::strings(ms@).take(i + 1)) =~= under(
            id@,
            text::strings(ms@).take(i as int),
        ).push(m@));
        assert(text::strings(errs@) =~= text::strings(old(errs)@) + under(
            id@,
            text::strings(ms@).take(i + 1),
        ));
        i = i + 1;
    }
    assert(text::strings(ms@).take(i as int) =~= text::strings(ms@));
}

/// Whether `id` holds nothing but lower-case letters, digits and hyphens.
pub open spec fn is_slug(id: Seq<char>) -> bool {
    forall|i: int| 0 <= i < id.len() ==> slug_char(#[trigger] id[i])
}

/// Whether an id may hold `c`.
pub open spec fn slug_char(c: char) -> bool {
    ('a' <= c && c <= 'z') || ('0' <= c && c <= '9') || c == '-'
}

/// Whether `id` holds nothing but lower-case letters, digits and hyphens.
pub fn slug(id: &str) -> (r: bool)
    ensures
        r == is_slug(id@),
{
    let v = text::chars_of(id);
    let mut i: usize = 0;
    while i < v.len()
        invariant
            v@ == id@,
            i <= v.len(),
            forall|j: int| 0 <= j < i ==> slug_char(#[trigger] v@[j]),
        decreases v.len() - i,
    {
        let c: char = v[i];
        if !(('a' <= c && c <= 'z') || ('0' <= c && c <= '9') || c == '-') {
            assert(!slug_char(id@[i as int]));
            return false;
        }
        i = i + 1;
    }
    true
}

/// The names along a path: what stands between its slashes, without the empty
/// pieces and the dots that stand for the place itself.
pub open spec fn path_names(pieces: Seq<Seq<char>>) -> Seq<Seq<char>>
    decreases pieces.len(),
{
    if pieces.len() == 0 {
        Seq::empty()
    } else {
        let p = pieces.last();
        let earlier = path_names(pieces.drop_last());
        if p.len() == 0 || p == "."@ {
            earlier
        } else {
            earlier.push(p)
        }
    }
}

/// The names along the path `s`.
pub open spec fn names_of(s: Seq<char>) -> Seq<Seq<char>> {
    path_names(text::split(s, "/"@))
}

/// The last name of a path, empty where it leads upwards or nowhere.
pub open spec fn file_name(s: Seq<char>) -> Seq<char> {
    let names = names_of(s);
    if names.len() == 0 || names.last() == ".."@ {
        Seq::empty()
    } else {
        names.last()
    }
}

/// Whether a path leaves the directory that it is joined to: it is absolute, or
/// leads upwards somewhere.
pub open spec fn escapes(s: Seq<char>) -> bool {
    (s.len() > 0 && s[0] == '/') || text::listed(names_of(s), ".."@)
}

fn path_pieces<'a>(s: &'a [char]) -> (out: Vec<&'a [char]>)
    ensures
        text::views(out@) == names_of(s@),
{
    proof {
        reveal_strlit("/");
    }
    let pieces = text::fields(s, "/");
    let ghost all = text::views(pieces@);
    let mut out: Vec<&'a [char]> = Vec::new();
    let mut i: usize = 0;
    assert(text::views(out@) =~= path_names(all.take(0)));
    while i < pieces.len()
        invariant
            i <= pieces.len(),
            all == text::views(pieces@),
            text::views(out@) == path_names(all.take(i as int)),
        decreases pieces.len() - i,
    {
        let ghost was = text::views(out@);
        let p: &'a [char] = pieces[i];
        assert(all.take(i + 1).drop_last() =~= all.take(i as int));
        assert(all.take(i + 1).last() == p@);
        if p.len() > 0 && !text::spells(p, ".") {
            out.push(p);
            assert(text::views(out@) =~= was.push(p@));
        }
        i = i + 1;
    }
    assert(all.take(i as int) =~= all);
    out
}

/// The last name of a path, empty where it leads upwards or nowhere.
pub fn base_name(path: &str) -> (s: String)
    ensures
        s@ == file_name(path@),
{
    let v = text::chars_of(path);
    let names = path_pieces(v.as_slice());
    assert(text::views(names@).len() == names@.len());
    if names.len() == 0 {
        return String::new();
    }
    let last: &[char] = names[names.len() - 1];
    assert(text::views(names@).last() == last@);
    if text::spells(last, "..") {
        String::new()
    } else {
        text::string_of(last)
    }
}

/// Whether a path leaves the directory that it is joined to.
pub fn leaves(path: &[char]) -> (r: bool)
    ensures
        r == escapes(path@),
{
    if path.len() > 0 && path[0] == '/' {
        return true;
    }
    let names = path_pieces(path);
    let mut i: usize = 0;
    while i < names.len()
        invariant
            text::views(names@) == names_of(path@),
            i <= names.len(),
            forall|j: int| 0 <= j < i ==> names_of(path@)[j] != ".."@,
        decreases names.len() - i,
    {
        assert(text::views(names@)[i as int] == names@[i as int]@);
        if text::spells(names[i], "..") {
            return true;
        }
        i = i + 1;
    }
    false
}

// ---------------------------------------------------------------------------
// Validating one descriptor
// ---------------------------------------------------------------------------

/// What is wrong with an entrant's identity.
pub open spec fn identity_problems(e: Entrant) -> Seq<Seq<char>> {
    only_if(
        e.spec.schema != DESCRIPTOR_SCHEMA,
        "descriptor schema "@ + text::decimal(e.spec.schema as nat) + ", expected "@
            + text::decimal(DESCRIPTOR_SCHEMA as nat),
    ) + only_if(
        file_name(e.dir@) != e.spec.entrant.id@,
        "id does not match directory name "@ + text::debug_text(file_name(e.dir@)),
    ) + only_if(
        !is_slug(e.spec.entrant.id@),
        "id must be lowercase ascii, digits and hyphens"@,
    ) + only_if(environment::is_blank(e.spec.entrant.licence@), "licence is empty"@) + only_if(
        e.spec.entrant.language@.len() == 0,
        "language must list at least one language"@,
    ) + only_if(
        e.spec.display.hue >= 360,
        "display.hue "@ + text::decimal(e.spec.display.hue as nat) + " is not an angle in 0..360"@,
    )
}

fn validate_identity(e: &Entrant) -> (out: Vec<String>)
    ensures
        text::strings(out@) == identity_problems(*e),
{
    let mut out: Vec<String> = Vec::new();
    if e.spec.schema != DESCRIPTOR_SCHEMA {
        let mut m = "descriptor schema ".to_owned();
        text::push_decimal(&mut m, e.spec.schema as u128);
        m.append(", expected ");
        text::push_decimal(&mut m, DESCRIPTOR_SCHEMA as u128);
        text::push_string(&mut out, m);
    }
    let name = base_name(e.dir.as_str());
    if !text::same(name.as_str(), e.id()) {
        let mut m = "id does not match directory name ".to_owned();
        m.append(text::quoted(name.as_str()).as_str());
        text::push_string(&mut out, m);
    }
    if !slug(e.id()) {
        text::push_text(&mut out, "id must be lowercase ascii, digits and hyphens");
    }
    if environment::blank(e.spec.entrant.licence.as_str()) {
        text::push_text(&mut out, "licence is empty");
    }
    if e.spec.entrant.language.len() == 0 {
        text::push_text(&mut out, "language must list at least one language");
    }
    if e.spec.display.hue >= 360 {
        let mut m = "display.hue ".to_owned();
        text::push_decimal(&mut m, e.spec.display.hue as u128);
        m.append(" is not an angle in 0..360");
        text::push_string(&mut out, m);
    }
    assert(text::strings(out@) =~= identity_problems(*e));
    out
}

/// What is wrong with what an entrant is built from. `files` are the files that
/// its directory holds.
pub open spec fn build_problems(e: Entrant, files: Seq<Seq<char>>) -> Seq<Seq<char>> {
    only_if(e.spec.build is None, "active entrant has no [build]"@) + only_if(
        !text::listed(files, "README.md"@),
        "active entrant has no README.md"@,
    ) + match e.spec.build {
        Some(b) => only_if(
            !text::listed(files, b.dockerfile@),
            "build.dockerfile "@ + b.dockerfile@ + " not found"@,
        ),
        None => Seq::empty(),
    }
}

fn validate_build(e: &Entrant, files: &[String]) -> (out: Vec<String>)
    ensures
        text::strings(out@) == build_problems(*e, text::strings(files@)),
{
    let mut out: Vec<String> = Vec::new();
    if e.spec.build.is_none() {
        text::push_text(&mut out, "active entrant has no [build]");
    }
    if !text::is_listed(files, "README.md") {
        text::push_text(&mut out, "active entrant has no README.md");
    }
    if let Some(b) = &e.spec.build {
        if !text::is_listed(files, b.dockerfile.as_str()) {
            let mut m = "build.dockerfile ".to_owned();
            m.append(b.dockerfile.as_str());
            m.append(" not found");
            text::push_string(&mut out, m);
        }
    }
    assert(text::strings(out@) =~= build_problems(*e, text::strings(files@)));
    out
}

/// The version strategies that are implemented. A version that a person typed into
/// a descriptor is no evidence of what ran, so it is an expectation and no
/// strategy.
pub const VERSION_STRATEGIES: [&'static str; 1] = ["command"];

/// Why the version could not be resolved by what resolves it.
pub open spec fn version_problems(e: Entrant) -> Seq<Seq<char>> {
    match e.spec.version {
        None => seq!["active entrant has no [version]"@],
        Some(v) => only_if(
            v.strategy@ != VERSION_STRATEGIES[0]@,
            "[version].strategy "@ + text::debug_text(v.strategy@)
                + " is not implemented. Known: "@ + VERSION_STRATEGIES[0]@,
        ) + only_if(
            v.strategy@ == VERSION_STRATEGIES[0]@ && v.command@.len() == 0,
            "[version].strategy is \"command\" but [version].command is empty, so nothing would be run and no version resolved"@,
        ),
    }
}

/// Checks that the version can be resolved by what resolves it.
pub fn validate_version(e: &Entrant, errs: &mut Vec<String>)
    ensures
        text::strings(final(errs)@) == text::strings(old(errs)@) + under(
            e.spec.entrant.id@,
            version_problems(*e),
        ),
{
    let mut out: Vec<String> = Vec::new();
    match &e.spec.version {
        None => {
            text::push_text(&mut out, "active entrant has no [version]");
        },
        Some(v) => {
            if !text::same(v.strategy.as_str(), VERSION_STRATEGIES[0]) {
                let mut m = "[version].strategy ".to_owned();
                m.append(text::quoted(v.strategy.as_str()).as_str());
                m.append(" is not implemented. Known: ");
                m.append(VERSION_STRATEGIES[0]);
                text::push_string(&mut out, m);
            }
            if text::same(v.strategy.as_str(), VERSION_STRATEGIES[0]) && v.command.len() == 0 {
                text::push_text(
                    &mut out,
                    "[version].strategy is \"command\" but [version].command is empty, so nothing would be run and no version resolved",
                );
            }
        },
    }
    assert(text::strings(out@) =~= version_problems(*e));
    add_under(errs, e.id(), &out);
}

/// The delivery guarantee that every arm runs under. An arm that pays for
/// another is not on one axis with the rest.
pub const DELIVERY_CONTRACT: &'static str = "at-least-once";

/// Why the delivery guarantee does not compare.
pub open spec fn guarantee_problems(e: Entrant) -> Seq<Seq<char>> {
    match e.spec.guarantees {
        None => seq![
            "active entrant has no [guarantees]. Delivery semantics are published beside the numbers so the comparison is guarantee-for-guarantee; an arm that declares none cannot be compared at all."@,
        ],
        Some(g) => only_if(
            g.delivery@ != DELIVERY_CONTRACT@,
            "declares delivery "@ + text::debug_text(g.delivery@) + " rather than "@
                + text::debug_text(DELIVERY_CONTRACT@)
                + ". Every arm is compared guarantee-for-guarantee, so an arm paying for a different guarantee is not on the same axis as the rest."@,
        ),
    }
}

/// Checks the delivery guarantee against the one that every arm runs under.
pub fn validate_guarantees(e: &Entrant, errs: &mut Vec<String>)
    ensures
        text::strings(final(errs)@) == text::strings(old(errs)@) + under(
            e.spec.entrant.id@,
            guarantee_problems(*e),
        ),
{
    let mut out: Vec<String> = Vec::new();
    match &e.spec.guarantees {
        None => {
            text::push_text(
                &mut out,
                "active entrant has no [guarantees]. Delivery semantics are published beside the numbers so the comparison is guarantee-for-guarantee; an arm that declares none cannot be compared at all.",
            );
        },
        Some(g) => {
            if !text::same(g.delivery.as_str(), DELIVERY_CONTRACT) {
                let mut m = "declares delivery ".to_owned();
                m.append(text::quoted(g.delivery.as_str()).as_str());
                m.append(" rather than ");
                m.append(text::quoted(DELIVERY_CONTRACT).as_str());
                m.append(
                    ". Every arm is compared guarantee-for-guarantee, so an arm paying for a different guarantee is not on the same axis as the rest.",
                );
                text::push_string(&mut out, m);
            }
        },
    }
    assert(text::strings(out@) =~= guarantee_problems(*e));
    add_under(errs, e.id(), &out);
}

// The envelope

/// The sum of what one container gets: what is no number does not count. It begins
/// at minus zero, which every number that is added takes the place of.
pub open spec fn cpu_total(got: Option<Double>) -> Double {
    match got {
        Some(n) => Double::zero(true).plus(n),
        None => Double::zero(true),
    }
}

/// What two numbers of processors may be apart and still count as equal: `2^-52`.
pub open spec fn slack() -> Double {
    double::quotient(1, 0x10_0000_0000_0000)
}

fn processors_of(s: &str) -> (r: Option<Double>)
    ensures
        r == double::parse(s@),
{
    let v = text::chars_of(s);
    double::read(v.as_slice())
}

/// The containers of the data plane among `cs`.
pub open spec fn data_planes(cs: Seq<Container>) -> Seq<Container> {
    cs.filter(|c: Container| c.role == Role::DataPlane)
}

/// Why the declared totals are not what the data plane gets. Without this the
/// envelope is decorative.
pub open spec fn envelope_problems(e: Entrant) -> Seq<Seq<char>> {
    match e.spec.envelope {
        None => seq!["active entrant has no [envelope]"@],
        Some(env) => {
            let data = data_planes(env.containers@);
            if data.len() != 1 {
                seq![
                    "expected exactly one data-plane container, found "@ + text::decimal(
                        data.len(),
                    ),
                ]
            } else {
                cpu_problems(double::parse(data[0].cpus@), env.cpus@) + memory_problems(
                    memory_bytes(data[0].memory@),
                    env.memory@,
                )
            }
        },
    }
}

/// Why the declared processors are not what the data plane gets. A declaration
/// that is no number is what no container gets.
pub open spec fn cpu_problems(got: Option<Double>, declared: Seq<char>) -> Seq<Seq<char>> {
    let sum = cpu_total(got);
    only_if(
        match double::parse(declared) {
            Some(want) => want is NaN || sum is NaN || slack().lt(sum.less_by(want).unsigned()),
            None => true,
        },
        "data-plane containers total "@ + sum.shown() + " CPUs but [envelope].cpus is "@
            + declared,
    )
}

/// Why the declared memory is not what the data plane gets.
pub open spec fn memory_problems(got: Option<nat>, declared: Seq<char>) -> Seq<Seq<char>> {
    let sum = match got {
        Some(n) => n,
        None => 0,
    };
    match memory_bytes(declared) {
        Some(want) => only_if(
            sum != want,
            "data-plane containers total "@ + text::decimal(sum)
                + " bytes but [envelope].memory is "@ + declared + " ("@ + text::decimal(want)
                + ")"@,
        ),
        None => seq![
            "[envelope].memory "@ + text::debug_text(declared) + " unparseable"@,
        ],
    }
}

fn data_plane_indices(cs: &[Container]) -> (out: Vec<usize>)
    ensures
        out@.len() == data_planes(cs@).len(),
        forall|i: int|
            0 <= i < out@.len() ==> (#[trigger] out@[i]) < cs@.len() && cs@[out@[i] as int]
                == data_planes(cs@)[i],
{
    let mut out: Vec<usize> = Vec::new();
    let mut i: usize = 0;
    assert(data_planes(cs@.take(0)) =~= Seq::empty()) by {
        reveal(Seq::filter);
    }
    while i < cs.len()
        invariant
            i <= cs.len(),
            out@.len() == data_planes(cs@.take(i as int)).len(),
            forall|k: int|
                0 <= k < out@.len() ==> (#[trigger] out@[k]) < cs@.len() && cs@[out@[k] as int]
                    == data_planes(cs@.take(i as int))[k],
        decreases cs.len() - i,
    {
        proof {
            reveal(Seq::filter);
            assert(cs@.take(i + 1).drop_last() =~= cs@.take(i as int));
        }
        if cs[i].role == Role::DataPlane {
            out.push(i);
        }
        i = i + 1;
    }
    assert(cs@.take(i as int) =~= cs@);
    out
}

/// Checks that the declared totals are what the data plane gets.
pub fn validate_envelope(e: &Entrant, errs: &mut Vec<String>)
    ensures
        text::strings(final(errs)@) == text::strings(old(errs)@) + under(
            e.spec.entrant.id@,
            envelope_problems(*e),
        ),
{
    let mut out: Vec<String> = Vec::new();
    match &e.spec.envelope {
        None => {
            text::push_text(&mut out, "active entrant has no [envelope]");
        },
        Some(env) => {
            let data = data_plane_indices(env.containers.as_slice());
            if data.len() != 1 {
                let mut m = "expected exactly one data-plane container, found ".to_owned();
                text::push_decimal(&mut m, data.len() as u128);
                text::push_string(&mut out, m);
            } else {
                let at: usize = data[0];
                let c = &env.containers[at];
                let got = processors_of(c.cpus.as_str());
                let sum: Double = match got {
                    Some(n) => Double::nothing().negate().add_to(n),
                    None => Double::nothing().negate(),
                };
                let holds = match processors_of(env.cpus.as_str()) {
                    Some(want) => match (want, sum) {
                        (Double::NaN, _) => false,
                        (_, Double::NaN) => false,
                        (_, _) => !Double::quotient(1, 0x10_0000_0000_0000).below(
                            sum.take(want).abs(),
                        ),
                    },
                    None => false,
                };
                if !holds {
                    let mut m = "data-plane containers total ".to_owned();
                    m.append(sum.show().as_str());
                    m.append(" CPUs but [envelope].cpus is ");
                    m.append(env.cpus.as_str());
                    text::push_string(&mut out, m);
                }
                let sum: u64 = match parse_memory(c.memory.as_str()) {
                    Some(n) => n,
                    None => 0,
                };
                match parse_memory(env.memory.as_str()) {
                    Some(want) => {
                        if sum != want {
                            let mut m = "data-plane containers total ".to_owned();
                            text::push_decimal(&mut m, sum as u128);
                            m.append(" bytes but [envelope].memory is ");
                            m.append(env.memory.as_str());
                            m.append(" (");
                            text::push_decimal(&mut m, want as u128);
                            m.append(")");
                            text::push_string(&mut out, m);
                        }
                    },
                    None => {
                        let mut m = "[envelope].memory ".to_owned();
                        m.append(text::quoted(env.memory.as_str()).as_str());
                        m.append(" unparseable");
                        text::push_string(&mut out, m);
                    },
                }
            }
        },
    }
    assert(text::strings(out@) =~= envelope_problems(*e));
    add_under(errs, e.id(), &out);
}

// Variants

/// `s` reduced to lower-case letters and digits.
pub open spec fn folded(s: Seq<char>) -> Seq<char>
    decreases s.len(),
{
    if s.len() == 0 {
        Seq::empty()
    } else {
        let c = s.last();
        let earlier = folded(s.drop_last());
        if ('a' <= c && c <= 'z') || ('A' <= c && c <= 'Z') || ('0' <= c && c <= '9') {
            earlier.push(text::lower(c))
        } else {
            earlier
        }
    }
}

/// Reduces the spelling of a wire format to lower-case letters and digits. It
/// finds a spelling that nearly is one of a measured format, and never accepts
/// it.
pub fn fold_wire_format(s: &str) -> (out: String)
    ensures
        out@ == folded(s@),
{
    let v = text::chars_of(s);
    let mut out = String::new();
    let mut i: usize = 0;
    while i < v.len()
        invariant
            v@ == s@,
            i <= v.len(),
            out@ == folded(s@.take(i as int)),
        decreases v.len() - i,
    {
        assert(s@.take(i + 1).drop_last() =~= s@.take(i as int));
        let c: char = v[i];
        if 'A' <= c && c <= 'Z' {
            out.push(((c as u8) + 32) as char);
        } else if ('a' <= c && c <= 'z') || ('0' <= c && c <= '9') {
            out.push(c);
        }
        i = i + 1;
    }
    assert(s@.take(i as int) =~= s@);
    out
}

/// The refusals of `declared` as a wire format: one for each of `formats` that
/// it nearly spells.
pub open spec fn near_misses(id: Seq<char>, declared: Seq<char>, formats: Seq<Seq<char>>) -> Seq<
    Seq<char>,
>
    decreases formats.len(),
{
    if formats.len() == 0 {
        Seq::empty()
    } else {
        let f = formats.last();
        near_misses(id, declared, formats.drop_last()) + only_if(
            declared != f && folded(declared) == folded(f),
            "variant "@ + text::debug_text(id) + " reports wire_format "@ + text::debug_text(
                declared,
            ) + " — did you mean "@ + text::debug_text(f)
                + "? The ceiling gate matches the canonical spelling exactly, so this near-miss would not fail anything: every record the arm emits would silently carry HeadroomUnproven, ungated against the ceiling that was measured for its own format."@,
        )
    }
}

fn near_miss_list(id: &str, declared: &str, formats: &[String]) -> (out: Vec<String>)
    ensures
        text::strings(out@) == near_misses(id@, declared@, text::strings(formats@)),
{
    let mut out: Vec<String> = Vec::new();
    let ghost all = text::strings(formats@);
    let mine = fold_wire_format(declared);
    let mut i: usize = 0;
    assert(text::strings(out@) =~= near_misses(id@, declared@, all.take(0)));
    while i < formats.len()
        invariant
            i <= formats.len(),
            all == text::strings(formats@),
            mine@ == folded(declared@),
            text::strings(out@) == near_misses(id@, declared@, all.take(i as int)),
        decreases formats.len() - i,
    {
        let ghost was = text::strings(out@);
        assert(all.take(i + 1).drop_last() =~= all.take(i as int));
        let f = formats[i].as_str();
        assert(all.take(i + 1).last() == f@);
        let theirs = fold_wire_format(f);
        if !text::same(declared, f) && text::same(mine.as_str(), theirs.as_str()) {
            let mut m = "variant ".to_owned();
            m.append(text::quoted(id).as_str());
            m.append(" reports wire_format ");
            m.append(text::quoted(declared).as_str());
            m.append(" — did you mean ");
            m.append(text::quoted(f).as_str());
            m.append(
                "? The ceiling gate matches the canonical spelling exactly, so this near-miss would not fail anything: every record the arm emits would silently carry HeadroomUnproven, ungated against the ceiling that was measured for its own format.",
            );
            text::push_string(&mut out, m);
        }
        assert(text::strings(out@) =~= near_misses(id@, declared@, all.take(i + 1)));
        i = i + 1;
    }
    assert(all.take(i as int) =~= all);
    out
}

/// The refusals of the empty entries among a variant's unshipped components.
pub open spec fn empty_components(id: Seq<char>, unshipped: Seq<Seq<char>>) -> Seq<Seq<char>>
    decreases unshipped.len(),
{
    if unshipped.len() == 0 {
        Seq::empty()
    } else {
        empty_components(id, unshipped.drop_last()) + only_if(
            environment::is_blank(unshipped.last()),
            "variant "@ + text::debug_text(id)
                + " lists an empty `unshipped` entry; name the component"@,
        )
    }
}

fn empty_component_list(id: &str, unshipped: &[String]) -> (out: Vec<String>)
    ensures
        text::strings(out@) == empty_components(id@, text::strings(unshipped@)),
{
    let mut out: Vec<String> = Vec::new();
    let ghost all = text::strings(unshipped@);
    let mut i: usize = 0;
    assert(text::strings(out@) =~= empty_components(id@, all.take(0)));
    while i < unshipped.len()
        invariant
            i <= unshipped.len(),
            all == text::strings(unshipped@),
            text::strings(out@) == empty_components(id@, all.take(i as int)),
        decreases unshipped.len() - i,
    {
        let ghost was = text::strings(out@);
        assert(all.take(i + 1).drop_last() =~= all.take(i as int));
        assert(all.take(i + 1).last() == unshipped@[i as int]@);
        if environment::blank(unshipped[i].as_str()) {
            let mut m = "variant ".to_owned();
            m.append(text::quoted(id).as_str());
            m.append(" lists an empty `unshipped` entry; name the component");
            text::push_string(&mut out, m);
        }
        assert(text::strings(out@) =~= empty_components(id@, all.take(i + 1)));
        i = i + 1;
    }
    assert(all.take(i as int) =~= all);
    out
}

/// A list of texts as `Debug` writes it.
pub open spec fn debug_list(v: Seq<Seq<char>>) -> Seq<char> {
    "["@ + text::join(v.map_values(|s: Seq<char>| text::debug_text(s)), ", "@) + "]"@
}

fn quoted_list(v: &[String]) -> (s: String)
    ensures
        s@ == debug_list(text::strings(v@)),
{
    let mut parts: Vec<String> = Vec::new();
    let ghost all = text::strings(v@).map_values(|s: Seq<char>| text::debug_text(s));
    let mut i: usize = 0;
    while i < v.len()
        invariant
            i <= v.len(),
            all == text::strings(v@).map_values(|s: Seq<char>| text::debug_text(s)),
            text::strings(parts@) == all.take(i as int),
        decreases v.len() - i,
    {
        let ghost was = text::strings(parts@);
        text::push_string(&mut parts, text::quoted(v[i].as_str()));
        assert(text::strings(parts@) =~= all.take(i + 1));
        i = i + 1;
    }
    assert(all.take(i as int) =~= all);
    let mut s = "[".to_owned();
    s.append(text::joined(parts.as_slice(), ", ").as_str());
    s.append("]");
    s
}

/// What is wrong with one variant. `earlier` are the variants before it.
pub open spec fn one_variant_problems(
    v: Variant,
    earlier: Seq<Variant>,
    formats: Seq<Seq<char>>,
) -> Seq<Seq<char>> {
    only_if(
        is_taken(earlier, v.id@),
        "duplicate variant id "@ + text::debug_text(v.id@),
    ) + only_if(
        !is_slug(v.id@),
        "variant id "@ + text::debug_text(v.id@)
            + " must be lowercase ascii, digits and hyphens"@,
    ) + (if v.reports@.contains_key("wire_format"@) {
        near_misses(v.id@, v.reports@["wire_format"@]@, formats)
    } else {
        seq!["variant "@ + text::debug_text(v.id@) + " does not report a wire_format"@]
    }) + empty_components(v.id@, text::strings(v.unshipped@)) + only_if(
        v.unshipped@.len() > 0 && v.approach != Approach::Stripped,
        "variant "@ + text::debug_text(v.id@) + " declares unshipped "@ + debug_list(
            text::strings(v.unshipped@),
        ) + " but has approach "@ + v.approach.word()
            + ". Code the project does not ship is `stripped` under rule 1 and is never the headline. If the arm no longer uses it, remove the declaration in the same change — the two move together or the label is decoration."@,
    )
}

/// Whether one of `variants` has that id.
pub open spec fn is_taken(variants: Seq<Variant>, id: Seq<char>) -> bool {
    exists|i: int| 0 <= i < variants.len() && (#[trigger] variants[i]).id@ == id
}

fn taken(variants: &[Variant], n: usize, id: &str) -> (r: bool)
    requires
        n <= variants@.len(),
    ensures
        r == is_taken(variants@.take(n as int), id@),
{
    let ghost earlier = variants@.take(n as int);
    let mut i: usize = 0;
    while i < n
        invariant
            i <= n <= variants@.len(),
            earlier == variants@.take(n as int),
            forall|j: int| 0 <= j < i ==> (#[trigger] earlier[j]).id@ != id@,
        decreases n - i,
    {
        if text::same(variants[i].id.as_str(), id) {
            assert(earlier[i as int].id@ == id@);
            return true;
        }
        i = i + 1;
    }
    false
}

fn validate_variant(variants: &[Variant], at: usize, formats: &[String]) -> (out: Vec<String>)
    requires
        at < variants@.len(),
    ensures
        text::strings(out@) == one_variant_problems(
            variants@[at as int],
            variants@.take(at as int),
            text::strings(formats@),
        ),
{
    let v = &variants[at];
    let mut out: Vec<String> = Vec::new();
    if taken(variants, at, v.id.as_str()) {
        let mut m = "duplicate variant id ".to_owned();
        m.append(text::quoted(v.id.as_str()).as_str());
        text::push_string(&mut out, m);
    }
    if !slug(v.id.as_str()) {
        let mut m = "variant id ".to_owned();
        m.append(text::quoted(v.id.as_str()).as_str());
        m.append(" must be lowercase ascii, digits and hyphens");
        text::push_string(&mut out, m);
    }
    match v.reports.get("wire_format") {
        None => {
            let mut m = "variant ".to_owned();
            m.append(text::quoted(v.id.as_str()).as_str());
            m.append(" does not report a wire_format");
            text::push_string(&mut out, m);
        },
        Some(declared) => {
            text::push_all(&mut out, near_miss_list(v.id.as_str(), declared.as_str(), formats));
        },
    }
    text::push_all(&mut out, empty_component_list(v.id.as_str(), v.unshipped.as_slice()));
    if v.unshipped.len() > 0 && v.approach != Approach::Stripped {
        let mut m = "variant ".to_owned();
        m.append(text::quoted(v.id.as_str()).as_str());
        m.append(" declares unshipped ");
        m.append(quoted_list(v.unshipped.as_slice()).as_str());
        m.append(" but has approach ");
        m.append(v.approach.as_str());
        m.append(
            ". Code the project does not ship is `stripped` under rule 1 and is never the headline. If the arm no longer uses it, remove the declaration in the same change — the two move together or the label is decoration.",
        );
        text::push_string(&mut out, m);
    }
    assert(text::strings(out@) =~= one_variant_problems(
        variants@[at as int],
        variants@.take(at as int),
        text::strings(formats@),
    ));
    out
}

/// What is wrong with the variants one by one.
pub open spec fn each_variant_problems(variants: Seq<Variant>, formats: Seq<Seq<char>>) -> Seq<
    Seq<char>,
>
    decreases variants.len(),
{
    if variants.len() == 0 {
        Seq::empty()
    } else {
        each_variant_problems(variants.drop_last(), formats) + one_variant_problems(
            variants.last(),
            variants.drop_last(),
            formats,
        )
    }
}

/// How many variants are marked as the default.
pub open spec fn default_count(variants: Seq<Variant>) -> nat
    decreases variants.len(),
{
    if variants.len() == 0 {
        0
    } else {
        default_count(variants.drop_last()) + if variants.last().default {
            1nat
        } else {
            0nat
        }
    }
}

/// The position of the first variant marked as the default.
pub open spec fn first_default(variants: Seq<Variant>) -> Option<int>
    decreases variants.len(),
{
    if variants.len() == 0 {
        None
    } else {
        match first_default(variants.drop_last()) {
            Some(i) => Some(i),
            None => if variants.last().default {
                Some(variants.len() - 1)
            } else {
                None
            },
        }
    }
}

/// What is wrong with the variants together. The default has to be realistic:
/// every arm publishes the figure that a user would get.
pub open spec fn default_problems(variants: Seq<Variant>) -> Seq<Seq<char>> {
    only_if(
        default_count(variants) != 1,
        "expected exactly one variant marked default, found "@ + text::decimal(
            default_count(variants),
        ),
    ) + match first_default(variants) {
        Some(i) => only_if(
            variants[i].approach != Approach::Realistic,
            "default variant "@ + text::debug_text(variants[i].id@) + " has approach "@
                + variants[i].approach.word() + "; the default must be realistic"@,
        ),
        None => Seq::empty(),
    }
}

/// What is wrong with an entrant's variants.
pub open spec fn variant_problems(e: Entrant, formats: Seq<Seq<char>>) -> Seq<Seq<char>> {
    if e.spec.variants@.len() == 0 {
        seq!["active entrant declares no variants"@]
    } else {
        each_variant_problems(e.spec.variants@, formats) + default_problems(e.spec.variants@)
    }
}

fn validate_default(variants: &[Variant]) -> (out: Vec<String>)
    ensures
        text::strings(out@) == default_problems(variants@),
{
    let mut out: Vec<String> = Vec::new();
    let mut count: usize = 0;
    let mut first: Option<usize> = None;
    let mut i: usize = 0;
    while i < variants.len()
        invariant
            i <= variants.len(),
            count <= i,
            count == default_count(variants@.take(i as int)),
            match first {
                Some(k) => first_default(variants@.take(i as int)) == Some(k as int) && k < i,
                None => first_default(variants@.take(i as int)) is None,
            },
        decreases variants.len() - i,
    {
        assert(variants@.take(i + 1).drop_last() =~= variants@.take(i as int));
        if variants[i].default {
            count = count + 1;
            if first.is_none() {
                first = Some(i);
            }
        }
        i = i + 1;
    }
    assert(variants@.take(i as int) =~= variants@);
    if count != 1 {
        let mut m = "expected exactly one variant marked default, found ".to_owned();
        text::push_decimal(&mut m, count as u128);
        text::push_string(&mut out, m);
    }
    if let Some(k) = first {
        let d = &variants[k];
        if d.approach != Approach::Realistic {
            let mut m = "default variant ".to_owned();
            m.append(text::quoted(d.id.as_str()).as_str());
            m.append(" has approach ");
            m.append(d.approach.as_str());
            m.append("; the default must be realistic");
            text::push_string(&mut out, m);
        }
    }
    assert(text::strings(out@) =~= default_problems(variants@));
    out
}

/// Checks an entrant's variants. `formats` are the wire formats that have a
/// measured ceiling, in their canonical spelling.
pub fn validate_variants(e: &Entrant, formats: &[String], errs: &mut Vec<String>)
    ensures
        text::strings(final(errs)@) == text::strings(old(errs)@) + under(
            e.spec.entrant.id@,
            variant_problems(*e, text::strings(formats@)),
        ),
{
    let mut out: Vec<String> = Vec::new();
    let variants = e.spec.variants.as_slice();
    if variants.len() == 0 {
        text::push_text(&mut out, "active entrant declares no variants");
        assert(text::strings(out@) =~= variant_problems(*e, text::strings(formats@)));
    } else {
        let mut i: usize = 0;
        assert(text::strings(out@) =~= each_variant_problems(
            variants@.take(0),
            text::strings(formats@),
        ));
        while i < variants.len()
            invariant
                i <= variants.len(),
                text::strings(out@) == each_variant_problems(
                    variants@.take(i as int),
                    text::strings(formats@),
                ),
            decreases variants.len() - i,
        {
            assert(variants@.take(i + 1).drop_last() =~= variants@.take(i as int));
            text::push_all(&mut out, validate_variant(variants, i, formats));
            i = i + 1;
        }
        assert(variants@.take(i as int) =~= variants@);
        text::push_all(&mut out, validate_default(variants));
    }
    add_under(errs, e.id(), &out);
}

// The environment

/// The refusals of the knob `k` of an environment value: one for each of
/// `variants` that does not set it.
pub open spec fn missing_knobs(
    place: Seq<char>,
    key: Seq<char>,
    k: Seq<char>,
    variants: Seq<Variant>,
) -> Seq<Seq<char>>
    decreases variants.len(),
{
    if variants.len() == 0 {
        Seq::empty()
    } else {
        missing_knobs(place, key, k, variants.drop_last()) + only_if(
            !variants.last().knobs@.contains_key(k),
            place + " "@ + key + " names {{knob:"@ + k + "}} but variant "@ + text::debug_text(
                variants.last().id@,
            ) + " declares no knob "@ + text::debug_text(k)
                + ". Substitution is per variant, so that variant's arm would be refused mid-sweep with an unresolved placeholder."@,
        )
    }
}

fn missing_knob_list(place: &str, key: &str, k: &str, variants: &[Variant]) -> (out: Vec<String>)
    ensures
        text::strings(out@) == missing_knobs(place@, key@, k@, variants@),
{
    let mut out: Vec<String> = Vec::new();
    let mut i: usize = 0;
    assert(text::strings(out@) =~= missing_knobs(place@, key@, k@, variants@.take(0)));
    while i < variants.len()
        invariant
            i <= variants.len(),
            text::strings(out@) == missing_knobs(place@, key@, k@, variants@.take(i as int)),
        decreases variants.len() - i,
    {
        let ghost was = text::strings(out@);
        assert(variants@.take(i + 1).drop_last() =~= variants@.take(i as int));
        if variants[i].knobs.get(k).is_none() {
            let mut m = place.to_owned();
            m.append(" ");
            m.append(key);
            m.append(" names {{knob:");
            m.append(k);
            m.append("}} but variant ");
            m.append(text::quoted(variants[i].id.as_str()).as_str());
            m.append(" declares no knob ");
            m.append(text::quoted(k).as_str());
            m.append(
                ". Substitution is per variant, so that variant's arm would be refused mid-sweep with an unresolved placeholder.",
            );
            text::push_string(&mut out, m);
        }
        assert(text::strings(out@) =~= missing_knobs(place@, key@, k@, variants@.take(i + 1)));
        i = i + 1;
    }
    assert(variants@.take(i as int) =~= variants@);
    out
}

/// Whether one of the containers has that name.
pub open spec fn is_container(cs: Seq<Container>, name: Seq<char>) -> bool {
    exists|i: int| 0 <= i < cs.len() && (#[trigger] cs[i]).name@ == name
}

impl Entrant {
    /// Whether one of the entrant's containers has that name.
    pub fn has_container(&self, name: &str) -> (r: bool)
        ensures
            r == is_container(self.containers(), name@),
    {
        match &self.spec.envelope {
            None => false,
            Some(env) => {
                let mut i: usize = 0;
                while i < env.containers.len()
                    invariant
                        self.containers() == env.containers@,
                        i <= env.containers.len(),
                        forall|j: int|
                            0 <= j < i ==> (#[trigger] self.containers()[j]).name@ != name@,
                    decreases env.containers.len() - i,
                {
                    if text::same(env.containers[i].name.as_str(), name) {
                        assert(self.containers()[i as int].name@ == name@);
                        return true;
                    }
                    i = i + 1;
                }
                false
            },
        }
    }
}

/// What is wrong with one token of an environment value.
pub open spec fn token_problems(
    place: Seq<char>,
    key: Seq<char>,
    raw: Seq<char>,
    token: (Seq<char>, Option<Seq<char>>),
    variants: Seq<Variant>,
    containers: Seq<Container>,
) -> Seq<Seq<char>> {
    let head = place + " "@ + key + " = "@ + text::debug_text(raw) + ": "@ + text::debug_text(
        token.0,
    );
    match token.1 {
        None => seq![head + " opens a placeholder that never closes"@],
        Some(inner) => match placeholder(inner) {
            None => seq![
                head + " is not a placeholder the driver resolves. Known: "@ + GRAMMAR@
                    + ". Run time refuses an unresolved placeholder, so this descriptor would pass every gate and fail at the sweep's first live repetition — the most expensive place to learn about a typo."@,
            ],
            Some(Placeholder::Knob(k)) => missing_knobs(place, key, k, variants),
            Some(Placeholder::Container(c)) => only_if(
                !is_container(containers, c),
                place + " "@ + key + " names {{container:"@ + c
                    + "}} but no [[envelope.container]] is named "@ + text::debug_text(c),
            ),
            Some(_) => Seq::empty(),
        },
    }
}

fn token_problem_list(
    e: &Entrant,
    place: &str,
    key: &str,
    raw: &str,
    token: &[char],
    inner: Option<&[char]>,
    variants: &[Variant],
) -> (out: Vec<String>)
    ensures
        text::strings(out@) == token_problems(
            place@,
            key@,
            raw@,
            token_view((token, inner)),
            variants@,
            e.containers(),
        ),
{
    let mut out: Vec<String> = Vec::new();
    let mut head = place.to_owned();
    head.append(" ");
    head.append(key);
    head.append(" = ");
    head.append(text::quoted(raw).as_str());
    head.append(": ");
    head.append(text::quoted(text::string_of(token).as_str()).as_str());
    match inner {
        None => {
            let mut m = head;
            m.append(" opens a placeholder that never closes");
            text::push_string(&mut out, m);
        },
        Some(inner) => match Placeholder::parse(inner) {
            None => {
                let mut m = head;
                m.append(" is not a placeholder the driver resolves. Known: ");
                m.append(GRAMMAR);
                m.append(
                    ". Run time refuses an unresolved placeholder, so this descriptor would pass every gate and fail at the sweep's first live repetition — the most expensive place to learn about a typo.",
                );
                text::push_string(&mut out, m);
            },
            Some(Placeholder::Knob(k)) => {
                let name = text::string_of(k);
                text::push_all(
                    &mut out,
                    missing_knob_list(place, key, name.as_str(), variants),
                );
            },
            Some(Placeholder::Container(c)) => {
                let name = text::string_of(c);
                if !e.has_container(name.as_str()) {
                    let mut m = place.to_owned();
                    m.append(" ");
                    m.append(key);
                    m.append(" names {{container:");
                    m.append(name.as_str());
                    m.append("}} but no [[envelope.container]] is named ");
                    m.append(text::quoted(name.as_str()).as_str());
                    text::push_string(&mut out, m);
                }
            },
            Some(_) => {},
        },
    }
    assert(text::strings(out@) =~= token_problems(
        place@,
        key@,
        raw@,
        token_view((token, inner)),
        variants@,
        e.containers(),
    ));
    out
}

/// What is wrong with the tokens of one environment value.
pub open spec fn value_problems(
    place: Seq<char>,
    key: Seq<char>,
    raw: Seq<char>,
    toks: Seq<(Seq<char>, Option<Seq<char>>)>,
    variants: Seq<Variant>,
    containers: Seq<Container>,
) -> Seq<Seq<char>>
    decreases toks.len(),
{
    if toks.len() == 0 {
        Seq::empty()
    } else {
        value_problems(place, key, raw, toks.drop_last(), variants, containers) + token_problems(
            place,
            key,
            raw,
            toks.last(),
            variants,
            containers,
        )
    }
}

fn value_problem_list(e: &Entrant, place: &str, key: &str, raw: &str, variants: &[Variant]) -> (out:
    Vec<String>)
    ensures
        text::strings(out@) == value_problems(
            place@,
            key@,
            raw@,
            tokens(raw@),
            variants@,
            e.containers(),
        ),
{
    let v = text::chars_of(raw);
    let toks = placeholder_tokens(v.as_slice());
    let ghost all = token_views(toks@);
    let mut out: Vec<String> = Vec::new();
    let mut i: usize = 0;
    assert(text::strings(out@) =~= value_problems(
        place@,
        key@,
        raw@,
        all.take(0),
        variants@,
        e.containers(),
    ));
    while i < toks.len()
        invariant
            i <= toks.len(),
            all == token_views(toks@),
            text::strings(out@) == value_problems(
                place@,
                key@,
                raw@,
                all.take(i as int),
                variants@,
                e.containers(),
            ),
        decreases toks.len() - i,
    {
        assert(all.take(i + 1).drop_last() =~= all.take(i as int));
        assert(all.take(i + 1).last() == token_view(toks@[i as int]));
        let (token, inner) = toks[i];
        text::push_all(
            &mut out,
            token_problem_list(e, place, key, raw, token, inner, variants),
        );
        i = i + 1;
    }
    assert(all.take(i as int) =~= all);
    out
}

/// What is wrong with the values of one environment table.
pub open spec fn table_problems(
    place: Seq<char>,
    env: Seq<(Seq<char>, String)>,
    variants: Seq<Variant>,
    containers: Seq<Container>,
) -> Seq<Seq<char>>
    decreases env.len(),
{
    if env.len() == 0 {
        Seq::empty()
    } else {
        table_problems(place, env.drop_last(), variants, containers) + value_problems(
            place,
            env.last().0,
            env.last().1@,
            tokens(env.last().1@),
            variants,
            containers,
        )
    }
}

fn table_problem_list(e: &Entrant, place: &str, env: &Table<String>, variants: &[Variant]) -> (out:
    Vec<String>)
    ensures
        text::strings(out@) == table_problems(place@, env.seq(), variants@, e.containers()),
{
    let entries = env.entries();
    let ghost all = env.seq();
    let mut out: Vec<String> = Vec::new();
    let mut i: usize = 0;
    assert(all.len() == entries@.len());
    assert(text::strings(out@) =~= table_problems(
        place@,
        all.take(0),
        variants@,
        e.containers(),
    ));
    while i < entries.len()
        invariant
            i <= entries.len(),
            all == table::pairs(entries@),
            all.len() == entries@.len(),
            text::strings(out@) == table_problems(
                place@,
                all.take(i as int),
                variants@,
                e.containers(),
            ),
        decreases entries.len() - i,
    {
        assert(all.take(i + 1).drop_last() =~= all.take(i as int));
        assert(all.take(i + 1).last() == (entries@[i as int].0@, entries@[i as int].1));
        text::push_all(
            &mut out,
            value_problem_list(e, place, entries[i].0.as_str(), entries[i].1.as_str(), variants),
        );
        i = i + 1;
    }
    assert(all.take(i as int) =~= all);
    out
}

/// What a refusal calls the environment of one variant.
pub open spec fn variant_place(v: Variant) -> Seq<char> {
    "variant "@ + text::debug_text(v.id@) + " env"@
}

/// What is wrong with the environments of the variants, each of which binds to
/// that variant's knobs alone.
pub open spec fn own_env_problems(variants: Seq<Variant>, containers: Seq<Container>) -> Seq<
    Seq<char>,
>
    decreases variants.len(),
{
    if variants.len() == 0 {
        Seq::empty()
    } else {
        own_env_problems(variants.drop_last(), containers) + table_problems(
            variant_place(variants.last()),
            variants.last().env.seq(),
            seq![variants.last()],
            containers,
        )
    }
}

/// What is wrong with the placeholders of an entrant. The environment of the
/// whole entrant is substituted for every variant, so a knob that it names must
/// be set by each.
pub open spec fn env_problems(e: Entrant) -> Seq<Seq<char>> {
    table_problems("[env]"@, e.spec.env.seq(), e.spec.variants@, e.containers())
        + own_env_problems(e.spec.variants@, e.containers())
}

/// Checks every placeholder against the vocabulary that substitution resolves.
pub fn validate_env(e: &Entrant, errs: &mut Vec<String>)
    ensures
        text::strings(final(errs)@) == text::strings(old(errs)@) + under(
            e.spec.entrant.id@,
            env_problems(*e),
        ),
{
    let variants = e.spec.variants.as_slice();
    let mut out = table_problem_list(e, "[env]", &e.spec.env, variants);
    let ghost base = text::strings(out@);
    let mut i: usize = 0;
    assert(text::strings(out@) =~= base + own_env_problems(variants@.take(0), e.containers()));
    while i < variants.len()
        invariant
            i <= variants.len(),
            text::strings(out@) == base + own_env_problems(
                variants@.take(i as int),
                e.containers(),
            ),
        decreases variants.len() - i,
    {
        let ghost was = text::strings(out@);
        assert(variants@.take(i + 1).drop_last() =~= variants@.take(i as int));
        let v = &variants[i];
        let mut place = "variant ".to_owned();
        place.append(text::quoted(v.id.as_str()).as_str());
        place.append(" env");
        let one = slice_subrange(variants, i, i + 1);
        assert(one@ =~= seq![variants@[i as int]]);
        text::push_all(&mut out, table_problem_list(e, place.as_str(), &v.env, one));
        assert(text::strings(out@) =~= base + own_env_problems(
            variants@.take(i + 1),
            e.containers(),
        ));
        i = i + 1;
    }
    assert(variants@.take(i as int) =~= variants@);
    add_under(errs, e.id(), &out);
}

// Constraints

/// What is wrong with one constraint.
pub open spec fn one_constraint_problems(c: Constraint) -> Seq<Seq<char>> {
    only_if(
        environment::is_blank(c.knob@) || (c.exceeds matches Some(n) && environment::is_blank(n@)),
        "a [[constraints]] entry names an empty knob; a constraint over nothing is a rule that can never fire"@,
    ) + only_if(
        !c.states_one(),
        "constraint on "@ + text::debug_text(c.knob@)
            + " must state exactly one relation: `exceeds` (a knob it strictly exceeds) or `at_least` (a literal it must meet). Both, or neither, is a rule nobody can evaluate."@,
    ) + only_if(
        c.exceeds matches Some(n) && n@ == c.knob@,
        "constraint "@ + text::debug_text(c.knob@)
            + " must exceed itself, which nothing can satisfy"@,
    ) + only_if(
        environment::is_blank(c.why@),
        "the constraint on "@ + text::debug_text(c.knob@)
            + " does not say what breaks when it does not hold. The text is quoted verbatim into the refusal a sweep sees, and a refusal that only says `no` costs whoever hits it the investigation this field exists to have already done."@,
    )
}

fn validate_constraint(c: &Constraint) -> (out: Vec<String>)
    ensures
        text::strings(out@) == one_constraint_problems(*c),
{
    let mut out: Vec<String> = Vec::new();
    let (blank_other, itself): (bool, bool) = match &c.exceeds {
        Some(n) => (environment::blank(n.as_str()), text::same(n.as_str(), c.knob.as_str())),
        None => (false, false),
    };
    if environment::blank(c.knob.as_str()) || blank_other {
        text::push_text(
            &mut out,
            "a [[constraints]] entry names an empty knob; a constraint over nothing is a rule that can never fire",
        );
    }
    if c.exceeds.is_some() == c.at_least.is_some() {
        let mut m = "constraint on ".to_owned();
        m.append(text::quoted(c.knob.as_str()).as_str());
        m.append(
            " must state exactly one relation: `exceeds` (a knob it strictly exceeds) or `at_least` (a literal it must meet). Both, or neither, is a rule nobody can evaluate.",
        );
        text::push_string(&mut out, m);
    }
    if itself {
        let mut m = "constraint ".to_owned();
        m.append(text::quoted(c.knob.as_str()).as_str());
        m.append(" must exceed itself, which nothing can satisfy");
        text::push_string(&mut out, m);
    }
    if environment::blank(c.why.as_str()) {
        let mut m = "the constraint on ".to_owned();
        m.append(text::quoted(c.knob.as_str()).as_str());
        m.append(
            " does not say what breaks when it does not hold. The text is quoted verbatim into the refusal a sweep sees, and a refusal that only says `no` costs whoever hits it the investigation this field exists to have already done.",
        );
        text::push_string(&mut out, m);
    }
    assert(text::strings(out@) =~= one_constraint_problems(*c));
    out
}

/// What is wrong with the constraints one by one.
pub open spec fn each_constraint_problems(cs: Seq<Constraint>) -> Seq<Seq<char>>
    decreases cs.len(),
{
    if cs.len() == 0 {
        Seq::empty()
    } else {
        each_constraint_problems(cs.drop_last()) + one_constraint_problems(cs.last())
    }
}

/// The violations of one variant, under its name.
pub open spec fn named_violations(v: Variant, ms: Seq<Seq<char>>) -> Seq<Seq<char>> {
    ms.map_values(|m: Seq<char>| "variant "@ + text::debug_text(v.id@) + ": "@ + m)
}

/// How the variants break the constraints of their own entrant.
pub open spec fn broken_constraints(variants: Seq<Variant>, cs: Seq<Constraint>) -> Seq<Seq<char>>
    decreases variants.len(),
{
    if variants.len() == 0 {
        Seq::empty()
    } else {
        broken_constraints(variants.drop_last(), cs) + named_violations(
            variants.last(),
            violations(cs, variants.last().knobs),
        )
    }
}

/// What is wrong with an entrant's constraints, and with the variants that break
/// them.
pub open spec fn constraint_problems(e: Entrant) -> Seq<Seq<char>> {
    each_constraint_problems(e.spec.constraints@) + broken_constraints(
        e.spec.variants@,
        e.spec.constraints@,
    )
}

fn named_violation_list(v: &Variant, ms: &Vec<String>) -> (out: Vec<String>)
    ensures
        text::strings(out@) == named_violations(*v, text::strings(ms@)),
{
    let ghost all = named_violations(*v, text::strings(ms@));
    let mut out: Vec<String> = Vec::new();
    let mut i: usize = 0;
    while i < ms.len()
        invariant
            i <= ms.len(),
            all == named_violations(*v, text::strings(ms@)),
            text::strings(out@) == all.take(i as int),
        decreases ms.len() - i,
    {
        let ghost was = text::strings(out@);
        let mut m = "variant ".to_owned();
        m.append(text::quoted(v.id.as_str()).as_str());
        m.append(": ");
        m.append(ms[i].as_str());
        text::push_string(&mut out, m);
        assert(text::strings(out@) =~= all.take(i + 1));
        i = i + 1;
    }
    assert(all.take(i as int) =~= all);
    out
}

/// Checks the declared constraints, and every variant against them.
pub fn validate_constraints(e: &Entrant, errs: &mut Vec<String>)
    ensures
        text::strings(final(errs)@) == text::strings(old(errs)@) + under(
            e.spec.entrant.id@,
            constraint_problems(*e),
        ),
{
    let cs = e.spec.constraints.as_slice();
    let variants = e.spec.variants.as_slice();
    let mut out: Vec<String> = Vec::new();
    let mut i: usize = 0;
    assert(text::strings(out@) =~= each_constraint_problems(cs@.take(0)));
    while i < cs.len()
        invariant
            i <= cs.len(),
            text::strings(out@) == each_constraint_problems(cs@.take(i as int)),
        decreases cs.len() - i,
    {
        assert(cs@.take(i + 1).drop_last() =~= cs@.take(i as int));
        text::push_all(&mut out, validate_constraint(&cs[i]));
        i = i + 1;
    }
    assert(cs@.take(i as int) =~= cs@);
    let ghost base = text::strings(out@);
    let mut k: usize = 0;
    assert(text::strings(out@) =~= base + broken_constraints(variants@.take(0), cs@));
    while k < variants.len()
        invariant
            k <= variants.len(),
            text::strings(out@) == base + broken_constraints(variants@.take(k as int), cs@),
        decreases variants.len() - k,
    {
        assert(variants@.take(k + 1).drop_last() =~= variants@.take(k as int));
        let ms = knob_violations(cs, &variants[k].knobs);
        text::push_all(&mut out, named_violation_list(&variants[k], &ms));
        assert(text::strings(out@) =~= base + broken_constraints(variants@.take(k + 1), cs@));
        k = k + 1;
    }
    assert(variants@.take(k as int) =~= variants@);
    add_under(errs, e.id(), &out);
}

// Deviations

/// The refusals of deviations that do not say what differs.
pub open spec fn empty_deviations(ds: Seq<Deviation>) -> Seq<Seq<char>>
    decreases ds.len(),
{
    if ds.len() == 0 {
        Seq::empty()
    } else {
        empty_deviations(ds.drop_last()) + only_if(
            environment::is_blank(ds.last().what@),
            "[[deviations]] entry "@ + text::decimal((ds.len() - 1) as nat)
                + " has an empty `what`; a deviation that does not say what differs discloses nothing"@,
        )
    }
}

/// Whether one of the containers coordinates.
pub open spec fn has_control_plane(cs: Seq<Container>) -> bool {
    exists|i: int| 0 <= i < cs.len() && (#[trigger] cs[i]).role == Role::ControlPlane
}

/// Whether one of the deviations touches the envelope.
pub open spec fn discloses_envelope(ds: Seq<Deviation>) -> bool {
    exists|i: int|
        0 <= i < ds.len() && text::listed(text::strings((#[trigger] ds[i]).affects@), "envelope"@)
}

/// What is wrong with an entrant's deviations. A container that coordinates is
/// allocated on top of the envelope, and the deviation is where a reader learns
/// of it: one half of that disclosure is refused without the other.
pub open spec fn deviation_problems(e: Entrant) -> Seq<Seq<char>> {
    empty_deviations(e.spec.deviations@) + only_if(
        has_control_plane(e.containers()) && !discloses_envelope(e.spec.deviations@),
        "declares a control-plane container but no [[deviations]] entry with \"envelope\" in `affects`. CONTRIBUTING.md: \"A `control-plane` container is allowed and is budgeted on top, but it requires a `[[deviations]]` entry with `\"envelope\"` in `affects`.\" The container is resources allocated on top of the envelope every other arm runs inside, and the deviation is where a reader is told so."@,
    )
}

fn coordinates(e: &Entrant) -> (r: bool)
    ensures
        r == has_control_plane(e.containers()),
{
    match &e.spec.envelope {
        None => false,
        Some(env) => {
            let mut i: usize = 0;
            while i < env.containers.len()
                invariant
                    e.containers() == env.containers@,
                    i <= env.containers.len(),
                    forall|j: int|
                        0 <= j < i ==> (#[trigger] e.containers()[j]).role != Role::ControlPlane,
                decreases env.containers.len() - i,
            {
                if env.containers[i].role == Role::ControlPlane {
                    assert(e.containers()[i as int].role == Role::ControlPlane);
                    return true;
                }
                i = i + 1;
            }
            false
        },
    }
}

fn discloses(ds: &[Deviation]) -> (r: bool)
    ensures
        r == discloses_envelope(ds@),
{
    let mut i: usize = 0;
    while i < ds.len()
        invariant
            i <= ds.len(),
            forall|j: int|
                0 <= j < i ==> !text::listed(
                    text::strings((#[trigger] ds@[j]).affects@),
                    "envelope"@,
                ),
        decreases ds.len() - i,
    {
        if text::is_listed(ds[i].affects.as_slice(), "envelope") {
            return true;
        }
        i = i + 1;
    }
    false
}

/// Checks that every deviation discloses something, and that what has to be
/// disclosed is.
pub fn validate_deviations(e: &Entrant, errs: &mut Vec<String>)
    ensures
        text::strings(final(errs)@) == text::strings(old(errs)@) + under(
            e.spec.entrant.id@,
            deviation_problems(*e),
        ),
{
    let ds = e.spec.deviations.as_slice();
    let mut out: Vec<String> = Vec::new();
    let mut i: usize = 0;
    assert(text::strings(out@) =~= empty_deviations(ds@.take(0)));
    while i < ds.len()
        invariant
            i <= ds.len(),
            text::strings(out@) == empty_deviations(ds@.take(i as int)),
        decreases ds.len() - i,
    {
        let ghost was = text::strings(out@);
        assert(ds@.take(i + 1).drop_last() =~= ds@.take(i as int));
        if environment::blank(ds[i].what.as_str()) {
            let mut m = "[[deviations]] entry ".to_owned();
            text::push_decimal(&mut m, i as u128);
            m.append(
                " has an empty `what`; a deviation that does not say what differs discloses nothing",
            );
            text::push_string(&mut out, m);
        }
        assert(text::strings(out@) =~= empty_deviations(ds@.take(i + 1)));
        i = i + 1;
    }
    assert(ds@.take(i as int) =~= ds@);
    if coordinates(e) && !discloses(ds) {
        text::push_text(
            &mut out,
            "declares a control-plane container but no [[deviations]] entry with \"envelope\" in `affects`. CONTRIBUTING.md: \"A `control-plane` container is allowed and is budgeted on top, but it requires a `[[deviations]]` entry with `\"envelope\"` in `affects`.\" The container is resources allocated on top of the envelope every other arm runs inside, and the deviation is where a reader is told so.",
        );
    }
    assert(text::strings(out@) =~= deviation_problems(*e));
    add_under(errs, e.id(), &out);
}

// ClickHouse objects

/// What is wrong with one file of statements.
pub open spec fn statement_file_problems(rel: Seq<char>, files: Seq<Seq<char>>) -> Seq<Seq<char>> {
    if escapes(rel) {
        seq![
            "[clickhouse] path "@ + text::debug_text(rel)
                + " escapes the entrant directory. arm_sql and arm_teardown_sql are relative to the entrant directory: an absolute path replaces it outright and a `..` component walks above it, so either would run SQL that lives outside the entrant's own reviewed files."@,
        ]
    } else {
        only_if(
            !text::listed(files, rel),
            "[clickhouse] file "@ + text::debug_text(rel) + " not found"@,
        )
    }
}

/// What is wrong with the pair of files that create and remove the arm's
/// objects. One without the other leaks objects into the next repetition, or
/// drops objects that nothing made.
pub open spec fn pair_problems(ch: ClickhouseSpec, files: Seq<Seq<char>>) -> Seq<Seq<char>> {
    let sql = text::trim(ch.arm_sql@);
    let teardown = text::trim(ch.arm_teardown_sql@);
    if sql.len() == 0 && teardown.len() == 0 {
        Seq::empty()
    } else if sql.len() == 0 || teardown.len() == 0 {
        seq![
            "[clickhouse] declares "@ + text::debug_text(
                if sql.len() == 0 {
                    teardown
                } else {
                    sql
                },
            )
                + " without its pair. arm_sql and arm_teardown_sql travel together: creation without teardown leaks objects across repetitions, and teardown without creation drops objects nothing made."@,
        ]
    } else {
        statement_file_problems(sql, files) + statement_file_problems(teardown, files)
    }
}

/// What is wrong with one attributed table. The name is qualified as it stands,
/// so a padded one would match nothing and its inserts would go unattributed.
pub open spec fn attribution_problems(t: Seq<char>) -> Seq<Seq<char>> {
    (if environment::is_blank(t) {
        seq!["[clickhouse].attribution_tables lists an empty name"@]
    } else {
        only_if(
            text::trim(t) != t,
            "[clickhouse].attribution_tables entry "@ + text::debug_text(t)
                + " has surrounding whitespace. The name is qualified verbatim into the attribution query, so the padded form matches nothing in system.query_log and the table's inserts silently go unattributed."@,
        )
    }) + only_if(
        text::contains(t, "."@),
        "[clickhouse].attribution_tables entry "@ + text::debug_text(t)
            + " is qualified; declare the bare table name and let the driver qualify it the way system.query_log does"@,
    )
}

/// What is wrong with the attributed tables.
pub open spec fn each_attribution_problems(ts: Seq<Seq<char>>) -> Seq<Seq<char>>
    decreases ts.len(),
{
    if ts.len() == 0 {
        Seq::empty()
    } else {
        each_attribution_problems(ts.drop_last()) + attribution_problems(ts.last())
    }
}

/// What is wrong with what an entrant declares of the shared server.
pub open spec fn clickhouse_problems(e: Entrant, files: Seq<Seq<char>>) -> Seq<Seq<char>> {
    match e.spec.clickhouse {
        None => Seq::empty(),
        Some(ch) => pair_problems(ch, files) + each_attribution_problems(
            text::strings(ch.attribution_tables@),
        ),
    }
}

fn validate_statement_file(rel: &[char], files: &[String]) -> (out: Vec<String>)
    ensures
        text::strings(out@) == statement_file_problems(rel@, text::strings(files@)),
{
    let mut out: Vec<String> = Vec::new();
    let name = text::string_of(rel);
    if leaves(rel) {
        let mut m = "[clickhouse] path ".to_owned();
        m.append(text::quoted(name.as_str()).as_str());
        m.append(
            " escapes the entrant directory. arm_sql and arm_teardown_sql are relative to the entrant directory: an absolute path replaces it outright and a `..` component walks above it, so either would run SQL that lives outside the entrant's own reviewed files.",
        );
        text::push_string(&mut out, m);
    } else if !text::is_listed(files, name.as_str()) {
        let mut m = "[clickhouse] file ".to_owned();
        m.append(text::quoted(name.as_str()).as_str());
        m.append(" not found");
        text::push_string(&mut out, m);
    }
    assert(text::strings(out@) =~= statement_file_problems(rel@, text::strings(files@)));
    out
}

fn validate_pair(ch: &ClickhouseSpec, files: &[String]) -> (out: Vec<String>)
    ensures
        text::strings(out@) == pair_problems(*ch, text::strings(files@)),
{
    let a = text::chars_of(ch.arm_sql.as_str());
    let b = text::chars_of(ch.arm_teardown_sql.as_str());
    let sql = text::trimmed(a.as_slice());
    let teardown = text::trimmed(b.as_slice());
    let mut out: Vec<String> = Vec::new();
    if sql.len() == 0 && teardown.len() == 0 {
    } else if sql.len() == 0 || teardown.len() == 0 {
        let one: &[char] = if sql.len() == 0 {
            teardown
        } else {
            sql
        };
        let mut m = "[clickhouse] declares ".to_owned();
        m.append(text::quoted(text::string_of(one).as_str()).as_str());
        m.append(
            " without its pair. arm_sql and arm_teardown_sql travel together: creation without teardown leaks objects across repetitions, and teardown without creation drops objects nothing made.",
        );
        text::push_string(&mut out, m);
    } else {
        text::push_all(&mut out, validate_statement_file(sql, files));
        text::push_all(&mut out, validate_statement_file(teardown, files));
    }
    assert(text::strings(out@) =~= pair_problems(*ch, text::strings(files@)));
    out
}

fn validate_attribution(t: &str) -> (out: Vec<String>)
    ensures
        text::strings(out@) == attribution_problems(t@),
{
    let v = text::chars_of(t);
    let trimmed = text::trimmed(v.as_slice());
    let mut out: Vec<String> = Vec::new();
    if trimmed.len() == 0 {
        text::push_text(&mut out, "[clickhouse].attribution_tables lists an empty name");
    } else if !text::same_chars(trimmed, v.as_slice()) {
        let mut m = "[clickhouse].attribution_tables entry ".to_owned();
        m.append(text::quoted(t).as_str());
        m.append(
            " has surrounding whitespace. The name is qualified verbatim into the attribution query, so the padded form matches nothing in system.query_log and the table's inserts silently go unattributed.",
        );
        text::push_string(&mut out, m);
    }
    if text::has(v.as_slice(), ".") {
        let mut m = "[clickhouse].attribution_tables entry ".to_owned();
        m.append(text::quoted(t).as_str());
        m.append(
            " is qualified; declare the bare table name and let the driver qualify it the way system.query_log does",
        );
        text::push_string(&mut out, m);
    }
    assert(text::strings(out@) =~= attribution_problems(t@));
    out
}

/// Checks what an entrant declares of the shared server. `files` are the files
/// that its directory holds.
pub fn validate_clickhouse(e: &Entrant, files: &[String], errs: &mut Vec<String>)
    ensures
        text::strings(final(errs)@) == text::strings(old(errs)@) + under(
            e.spec.entrant.id@,
            clickhouse_problems(*e, text::strings(files@)),
        ),
{
    let mut out: Vec<String> = Vec::new();
    match &e.spec.clickhouse {
        None => {
            assert(text::strings(out@) =~= clickhouse_problems(*e, text::strings(files@)));
        },
        Some(ch) => {
            out = validate_pair(ch, files);
            let ghost base = text::strings(out@);
            let ts = ch.attribution_tables.as_slice();
            let ghost all = text::strings(ts@);
            let mut i: usize = 0;
            assert(text::strings(out@) =~= base + each_attribution_problems(all.take(0)));
            while i < ts.len()
                invariant
                    i <= ts.len(),
                    all == text::strings(ts@),
                    text::strings(out@) == base + each_attribution_problems(all.take(i as int)),
                decreases ts.len() - i,
            {
                assert(all.take(i + 1).drop_last() =~= all.take(i as int));
                assert(all.take(i + 1).last() == ts@[i as int]@);
                text::push_all(&mut out, validate_attribution(ts[i].as_str()));
                assert(text::strings(out@) =~= base + each_attribution_problems(all.take(i + 1)));
                i = i + 1;
            }
            assert(all.take(i as int) =~= all);
        },
    }
    add_under(errs, e.id(), &out);
}

// The whole descriptor

/// What is wrong with an entrant that claims to be measurable.
pub open spec fn runnable_problems(
    e: Entrant,
    files: Seq<Seq<char>>,
    formats: Seq<Seq<char>>,
) -> Seq<Seq<char>> {
    identity_problems(e) + build_problems(e, files) + version_problems(e) + guarantee_problems(e)
        + envelope_problems(e) + variant_problems(e, formats) + env_problems(e)
        + constraint_problems(e) + deviation_problems(e) + clickhouse_problems(e, files)
}

/// What is wrong with an entrant. One that is not runnable owes a reason and no
/// implementation: a roadmap entry does not have to lie about an envelope in
/// order to be listed.
pub open spec fn problems(
    e: Entrant,
    files: Seq<Seq<char>>,
    formats: Seq<Seq<char>>,
) -> Seq<Seq<char>> {
    under(
        e.spec.entrant.id@,
        if e.spec.entrant.status.runs() {
            runnable_problems(e, files, formats)
        } else {
            identity_problems(e) + only_if(
                e.spec.planned is None,
                "status is not runnable but [planned] is absent"@,
            )
        },
    )
}

/// Checks one descriptor. `files` are the files that its directory holds, and
/// `formats` the wire formats that have a measured ceiling.
pub fn validate(e: &Entrant, files: &[String], formats: &[String]) -> (errs: Vec<String>)
    ensures
        text::strings(errs@) == problems(*e, text::strings(files@), text::strings(formats@)),
{
    let ghost id = e.spec.entrant.id@;
    let mut errs: Vec<String> = Vec::new();
    assert(text::strings(errs@) =~= Seq::empty());
    let mut head = validate_identity(e);
    if !e.spec.entrant.status.is_runnable() {
        if e.spec.planned.is_none() {
            text::push_text(&mut head, "status is not runnable but [planned] is absent");
        }
        assert(text::strings(head@) =~= identity_problems(*e) + only_if(
            e.spec.planned is None,
            "status is not runnable but [planned] is absent"@,
        ));
        add_under(&mut errs, e.id(), &head);
        assert(text::strings(errs@) =~= under(id, text::strings(head@)));
        return errs;
    }
    text::push_all(&mut head, validate_build(e, files));
    add_under(&mut errs, e.id(), &head);
    let ghost mut all = identity_problems(*e) + build_problems(*e, text::strings(files@));
    assert(text::strings(errs@) =~= under(id, all));
    validate_version(e, &mut errs);
    proof {
        lemma_under_add(id, all, version_problems(*e));
        all = all + version_problems(*e);
    }
    validate_guarantees(e, &mut errs);
    proof {
        lemma_under_add(id, all, guarantee_problems(*e));
        all = all + guarantee_problems(*e);
    }
    validate_envelope(e, &mut errs);
    proof {
        lemma_under_add(id, all, envelope_problems(*e));
        all = all + envelope_problems(*e);
    }
    validate_variants(e, formats, &mut errs);
    proof {
        lemma_under_add(id, all, variant_problems(*e, text::strings(formats@)));
        all = all + variant_problems(*e, text::strings(formats@));
    }
    validate_env(e, &mut errs);
    proof {
        lemma_under_add(id, all, env_problems(*e));
        all = all + env_problems(*e);
    }
    validate_constraints(e, &mut errs);
    proof {
        lemma_under_add(id, all, constraint_problems(*e));
        all = all + constraint_problems(*e);
    }
    validate_deviations(e, &mut errs);
    proof {
        lemma_under_add(id, all, deviation_problems(*e));
        all = all + deviation_problems(*e);
    }
    validate_clickhouse(e, files, &mut errs);
    proof {
        lemma_under_add(id, all, clickhouse_problems(*e, text::strings(files@)));
    }
    errs
}

proof fn lemma_under_add(id: Seq<char>, a: Seq<Seq<char>>, b: Seq<Seq<char>>)
    ensures
        under(id, a) + under(id, b) == under(id, a + b),
{
    assert(under(id, a) + under(id, b) =~= under(id, a + b));
}

// ---------------------------------------------------------------------------
// Checks across entrants
// ---------------------------------------------------------------------------

/// The id of the last entrant that claims that order.
pub open spec fn claims_order(es: Seq<Entrant>, order: int) -> Option<Seq<char>>
    decreases es.len(),
{
    if es.len() == 0 {
        None
    } else if es.last().spec.display.order == order {
        Some(es.last().spec.entrant.id@)
    } else {
        claims_order(es.drop_last(), order)
    }
}

/// The refusals of orders that two entrants claim.
pub open spec fn order_problems(es: Seq<Entrant>) -> Seq<Seq<char>>
    decreases es.len(),
{
    if es.len() == 0 {
        Seq::empty()
    } else {
        let e = es.last();
        order_problems(es.drop_last()) + match claims_order(
            es.drop_last(),
            e.spec.display.order as int,
        ) {
            Some(prev) => seq![
                "display.order "@ + text::signed_decimal(e.spec.display.order as int)
                    + " is used by both "@ + prev + " and "@ + e.spec.entrant.id@,
            ],
            None => Seq::empty(),
        }
    }
}

/// Whether the hue `a` comes before the hue `b`, ids breaking a tie.
pub open spec fn hue_before(a: (u16, Seq<char>), b: (u16, Seq<char>)) -> bool {
    a.0 < b.0 || (a.0 == b.0 && table::before(a.1, b.1))
}

/// `s` with `x` in its place.
pub open spec fn with_hue(s: Seq<(u16, Seq<char>)>, x: (u16, Seq<char>)) -> Seq<(u16, Seq<char>)>
    decreases s.len(),
{
    if s.len() == 0 || !hue_before(x, s.last()) {
        s.push(x)
    } else {
        with_hue(s.drop_last(), x).push(s.last())
    }
}

/// The hues of the entrants with their ids, in order.
pub open spec fn hues(es: Seq<Entrant>) -> Seq<(u16, Seq<char>)>
    decreases es.len(),
{
    if es.len() == 0 {
        Seq::empty()
    } else {
        with_hue(hues(es.drop_last()), (es.last().spec.display.hue, es.last().spec.entrant.id@))
    }
}

/// The fewest degrees between two hues that a reader can tell apart.
pub const HUE_GAP: u16 = 20;

/// The refusals of neighbouring hues that a reader could not tell apart.
pub open spec fn hue_problems(s: Seq<(u16, Seq<char>)>) -> Seq<Seq<char>>
    decreases s.len(),
{
    if s.len() < 2 {
        Seq::empty()
    } else {
        let a = s[s.len() - 2];
        let b = s.last();
        hue_problems(s.drop_last()) + only_if(
            b.0 - a.0 < HUE_GAP,
            "display.hue "@ + text::decimal(a.0 as nat) + " ("@ + a.1 + ") and "@ + text::decimal(
                b.0 as nat,
            ) + " ("@ + b.1 + ") are within 20 degrees"@,
        )
    }
}

/// What is wrong with the entrants together.
pub open spec fn cross_problems(es: Seq<Entrant>) -> Seq<Seq<char>> {
    order_problems(es) + hue_problems(hues(es))
}

/// Pairs of a hue and an id, with the id as characters.
pub open spec fn hue_views(v: Seq<(u16, String)>) -> Seq<(u16, Seq<char>)> {
    v.map_values(|x: (u16, String)| (x.0, x.1@))
}

fn insert_hue(v: &mut Vec<(u16, String)>, hue: u16, id: String)
    ensures
        hue_views(final(v)@) == with_hue(hue_views(old(v)@), (hue, id@)),
{
    let ghost s = hue_views(v@);
    let ghost x = (hue, id@);
    let mut k: usize = v.len();
    assert(s.take(k as int) =~= s);
    assert(with_hue(s, x) =~= with_hue(s.take(k as int), x) + s.skip(k as int));
    while k > 0 && (hue < v[k - 1].0 || (hue == v[k - 1].0 && table::text_precedes(
        id.as_str(),
        v[k - 1].1.as_str(),
    )))
        invariant
            *v == *old(v),
            s == hue_views(v@),
            s.len() == v@.len(),
            x == (hue, id@),
            k <= v.len(),
            with_hue(s, x) == with_hue(s.take(k as int), x) + s.skip(k as int),
        decreases k,
    {
        assert(s[k - 1] == (v@[k - 1].0, v@[k - 1].1@));
        assert(s.take(k as int).drop_last() =~= s.take(k - 1));
        assert(s.take(k as int).last() == s[k - 1]);
        assert(with_hue(s.take(k - 1), x).push(s[k - 1]) + s.skip(k as int) =~= with_hue(
            s.take(k - 1),
            x,
        ) + s.skip(k - 1));
        k = k - 1;
    }
    assert(with_hue(s.take(k as int), x) =~= s.take(k as int).push(x)) by {
        if k > 0 {
            assert(s[k - 1] == (v@[k - 1].0, v@[k - 1].1@));
        }
    }
    v.insert(k, (hue, id));
    assert(hue_views(v@) =~= s.take(k as int).push(x) + s.skip(k as int));
}

fn claimant(es: &[Entrant], n: usize, order: i64) -> (r: Option<usize>)
    requires
        n <= es@.len(),
    ensures
        match r {
            Some(i) => i < es@.len() && claims_order(es@.take(n as int), order as int) == Some(
                es@[i as int].spec.entrant.id@,
            ),
            None => claims_order(es@.take(n as int), order as int) is None,
        },
{
    let mut k: usize = n;
    while k > 0
        invariant
            k <= n <= es@.len(),
            claims_order(es@.take(n as int), order as int) == claims_order(
                es@.take(k as int),
                order as int,
            ),
        decreases k,
    {
        assert(es@.take(k as int).drop_last() =~= es@.take(k - 1));
        if es[k - 1].spec.display.order == order {
            return Some(k - 1);
        }
        k = k - 1;
    }
    None
}

fn order_problem_list(es: &[Entrant]) -> (out: Vec<String>)
    ensures
        text::strings(out@) == order_problems(es@),
{
    let mut out: Vec<String> = Vec::new();
    let mut i: usize = 0;
    assert(text::strings(out@) =~= order_problems(es@.take(0)));
    while i < es.len()
        invariant
            i <= es.len(),
            text::strings(out@) == order_problems(es@.take(i as int)),
        decreases es.len() - i,
    {
        let ghost was = text::strings(out@);
        assert(es@.take(i + 1).drop_last() =~= es@.take(i as int));
        let order: i64 = es[i].spec.display.order;
        if let Some(p) = claimant(es, i, order) {
            let mut m = "display.order ".to_owned();
            text::push_signed(&mut m, order);
            m.append(" is used by both ");
            m.append(es[p].id());
            m.append(" and ");
            m.append(es[i].id());
            text::push_string(&mut out, m);
        }
        assert(text::strings(out@) =~= order_problems(es@.take(i + 1)));
        i = i + 1;
    }
    assert(es@.take(i as int) =~= es@);
    out
}

fn hue_problem_list(v: &Vec<(u16, String)>) -> (out: Vec<String>)
    ensures
        text::strings(out@) == hue_problems(hue_views(v@)),
{
    let ghost s = hue_views(v@);
    let mut out: Vec<String> = Vec::new();
    assert(text::strings(out@) =~= Seq::empty());
    if v.len() == 0 {
        return out;
    }
    let mut i: usize = 1;
    while i < v.len()
        invariant
            1 <= i <= v.len(),
            s == hue_views(v@),
            s.len() == v@.len(),
            text::strings(out@) == hue_problems(s.take(i as int)),
        decreases v.len() - i,
    {
        let ghost was = text::strings(out@);
        assert(s.take(i + 1).drop_last() =~= s.take(i as int));
        assert(s[i as int] == (v@[i as int].0, v@[i as int].1@));
        assert(s[i - 1] == (v@[i - 1].0, v@[i - 1].1@));
        let a: u16 = v[i - 1].0;
        let b: u16 = v[i].0;
        if (b as u32) < (a as u32) + (HUE_GAP as u32) {
            let mut m = "display.hue ".to_owned();
            text::push_decimal(&mut m, a as u128);
            m.append(" (");
            m.append(v[i - 1].1.as_str());
            m.append(") and ");
            text::push_decimal(&mut m, b as u128);
            m.append(" (");
            m.append(v[i].1.as_str());
            m.append(") are within 20 degrees");
            text::push_string(&mut out, m);
        }
        assert(text::strings(out@) =~= hue_problems(s.take(i + 1)));
        i = i + 1;
    }
    assert(s.take(i as int) =~= s);
    out
}

/// The checks that only make sense across the whole set: no two entrants claim
/// one place in the order, and no two hues are too close to tell apart.
pub fn cross_check(es: &[Entrant], errs: &mut Vec<String>)
    ensures
        text::strings(final(errs)@) == text::strings(old(errs)@) + cross_problems(es@),
{
    let mut v: Vec<(u16, String)> = Vec::new();
    let mut i: usize = 0;
    assert(hue_views(v@) =~= hues(es@.take(0)));
    while i < es.len()
        invariant
            i <= es.len(),
            hue_views(v@) == hues(es@.take(i as int)),
        decreases es.len() - i,
    {
        assert(es@.take(i + 1).drop_last() =~= es@.take(i as int));
        insert_hue(&mut v, es[i].spec.display.hue, es[i].id().to_owned());
        i = i + 1;
    }
    assert(es@.take(i as int) =~= es@);
    let ghost was = text::strings(errs@);
    text::push_all(errs, order_problem_list(es));
    text::push_all(errs, hue_problem_list(&v));
    assert(text::strings(errs@) =~= was + cross_problems(es@));
}

// ---------------------------------------------------------------------------
// Loading
// ---------------------------------------------------------------------------

/// What became of reading the descriptor of one directory.
#[derive(Debug)]
pub enum Descriptor {
    /// There is none.
    Absent,
    /// It could not be read, with the reason.
    Unreadable(String),
    /// It could not be parsed, with the reason.
    Unparsed(String),
    /// Its contents, with the names of the files that the directory holds.
    Parsed(Spec, Vec<String>),
}

/// Where the descriptor of a directory lives.
pub open spec fn descriptor_path(dir: Seq<char>) -> Seq<char> {
    environment::path_below(dir, "entrant.toml"@)
}

/// Why the directory `dir` yields no entrant.
pub open spec fn load_problems(
    dir: String,
    file: Descriptor,
    formats: Seq<Seq<char>>,
) -> Seq<Seq<char>> {
    match file {
        Descriptor::Absent => seq![dir@ + " has no entrant.toml"@],
        Descriptor::Unreadable(e) => seq!["read "@ + descriptor_path(dir@) + ": "@ + e@],
        Descriptor::Unparsed(e) => seq![descriptor_path(dir@) + ": "@ + e@],
        Descriptor::Parsed(spec, files) => problems(
            (Entrant { dir, spec }),
            text::strings(files@),
            formats,
        ),
    }
}

/// The entrant of the directory `dir`, or everything that is wrong with it.
pub fn load_one(dir: String, file: Descriptor, formats: &[String]) -> (r: Result<
    Entrant,
    Vec<String>,
>)
    ensures
        match r {
            Ok(e) => {
                &&& load_problems(dir, file, text::strings(formats@)).len() == 0
                &&& file matches Descriptor::Parsed(spec, files) && e == (Entrant { dir, spec })
            },
            Err(errs) => {
                &&& errs@.len() > 0
                &&& text::strings(errs@) == load_problems(dir, file, text::strings(formats@))
            },
        },
{
    let mut errs: Vec<String> = Vec::new();
    assert(text::strings(errs@) =~= Seq::empty());
    match file {
        Descriptor::Absent => {
            let mut m = dir;
            m.append(" has no entrant.toml");
            text::push_string(&mut errs, m);
            assert(text::strings(errs@) =~= load_problems(dir, file, text::strings(formats@)));
            Err(errs)
        },
        Descriptor::Unreadable(e) => {
            let mut m = "read ".to_owned();
            m.append(environment::joined_path(dir.as_str(), "entrant.toml").as_str());
            m.append(": ");
            m.append(e.as_str());
            text::push_string(&mut errs, m);
            assert(text::strings(errs@) =~= load_problems(dir, file, text::strings(formats@)));
            Err(errs)
        },
        Descriptor::Unparsed(e) => {
            let mut m = environment::joined_path(dir.as_str(), "entrant.toml");
            m.append(": ");
            m.append(e.as_str());
            text::push_string(&mut errs, m);
            assert(text::strings(errs@) =~= load_problems(dir, file, text::strings(formats@)));
            Err(errs)
        },
        Descriptor::Parsed(spec, files) => {
            let entrant = Entrant { dir, spec };
            let errs = validate(&entrant, files.as_slice(), formats);
            assert(text::strings(errs@).len() == errs@.len());
            if errs.len() == 0 {
                Ok(entrant)
            } else {
                Err(errs)
            }
        },
    }
}

/// Everything that is wrong with the directories one by one.
pub open spec fn each_load_problems(
    found: Seq<(String, Descriptor)>,
    formats: Seq<Seq<char>>,
) -> Seq<Seq<char>>
    decreases found.len(),
{
    if found.len() == 0 {
        Seq::empty()
    } else {
        each_load_problems(found.drop_last(), formats) + load_problems(
            found.last().0,
            found.last().1,
            formats,
        )
    }
}

/// The entrants of the directories with which nothing is wrong.
pub open spec fn loaded(found: Seq<(String, Descriptor)>, formats: Seq<Seq<char>>) -> Seq<Entrant>
    decreases found.len(),
{
    if found.len() == 0 {
        Seq::empty()
    } else {
        let earlier = loaded(found.drop_last(), formats);
        match found.last().1 {
            Descriptor::Parsed(spec, files) => if load_problems(
                found.last().0,
                found.last().1,
                formats,
            ).len() == 0 {
                earlier.push(Entrant { dir: found.last().0, spec })
            } else {
                earlier
            },
            _ => earlier,
        }
    }
}

/// Everything that is wrong with the directories and with the entrants together.
pub open spec fn all_problems(found: Seq<(String, Descriptor)>, formats: Seq<Seq<char>>) -> Seq<
    Seq<char>,
> {
    each_load_problems(found, formats) + cross_problems(loaded(found, formats))
}

/// The entrants of the directories `found`, or every problem found in any.
pub fn load_all(found: Vec<(String, Descriptor)>, formats: &[String]) -> (r: Result<
    Vec<Entrant>,
    Vec<String>,
>)
    ensures
        match r {
            Ok(es) => {
                &&& all_problems(found@, text::strings(formats@)).len() == 0
                &&& es@ == loaded(found@, text::strings(formats@))
            },
            Err(errs) => {
                &&& errs@.len() > 0
                &&& text::strings(errs@) == all_problems(found@, text::strings(formats@))
            },
        },
{
    let ghost fs = text::strings(formats@);
    let mut es: Vec<Entrant> = Vec::new();
    let mut errs: Vec<String> = Vec::new();
    assert(text::strings(errs@) =~= each_load_problems(found@.take(0), fs));
    assert(es@ =~= loaded(found@.take(0), fs));
    for d in it: found
        invariant
            it.seq() == found@,
            fs == text::strings(formats@),
            text::strings(errs@) == each_load_problems(found@.take(it.index()), fs),
            es@ == loaded(found@.take(it.index()), fs),
    {
        let ghost n = it.index();
        assert(found@.take(n + 1).drop_last() =~= found@.take(n));
        assert(found@.take(n + 1).last() == d);
        let (dir, file) = d;
        let ghost was = text::strings(errs@);
        match load_one(dir, file, formats) {
            Ok(e) => {
                es.push(e);
                assert(each_load_problems(found@.take(n + 1), fs) =~= was);
            },
            Err(more) => {
                assert(text::strings(more@).len() == more@.len());
                text::push_all(&mut errs, more);
            },
        }
    }
    assert(found@.take(found@.len() as int) =~= found@);
    cross_check(es.as_slice(), &mut errs);
    assert(text::strings(errs@).len() == errs@.len());
    if errs.len() == 0 {
        Ok(es)
    } else {
        Err(errs)
    }
}

// ---------------------------------------------------------------------------
// Laws
// ---------------------------------------------------------------------------

proof fn lemma_digits_are_no_space(n: nat)
    ensures
        text::trim(text::decimal(n)) == text::decimal(n),
        text::trim_start(text::decimal(n)) == text::decimal(n),
        text::decimal(n).len() > 0,
        !text::is_space(text::decimal(n)[0]),
        !text::is_space(text::decimal(n).last()),
        memory_unit(text::decimal(n).last()) is None,
{
    text::decimal_reads_back(n);
    let s = text::decimal(n);
    assert(text::digit(s[0]) is Some && text::digit(s[0])->0 < 10);
    assert(text::digit(s[s.len() - 1]) is Some && text::digit(s[s.len() - 1])->0 < 10);
}

/// A memory limit is its number times its unit: a number alone counts bytes,
/// each suffix is 1024 times the one before it, and what does not fit in
/// sixty-four bits is refused rather than wrapped.
pub proof fn a_suffix_scales_the_number(n: nat, suffix: char)
    requires
        memory_unit(suffix) is Some,
        n <= u64::MAX,
    ensures
        memory_bytes(text::decimal(n)) == Some(n),
        n * memory_unit(suffix)->0 <= u64::MAX ==> memory_bytes(text::decimal(n).push(suffix))
            == Some(n * memory_unit(suffix)->0),
        n * memory_unit(suffix)->0 > u64::MAX ==> memory_bytes(
            text::decimal(n).push(suffix),
        ) is None,
{
    lemma_digits_are_no_space(n);
    text::decimal_reads_back(n);
    let s = text::decimal(n);
    let t = s.push(suffix);
    let one: nat = 1;
    assert(n * one == n) by (nonlinear_arith)
        requires
            one == 1,
    ;
    assert(memory_bytes(s) == Some(n));
    assert(t[0] == s[0]);
    assert(text::trim_start(t) == t);
    assert(t.last() == suffix);
    assert(!text::is_space(suffix));
    assert(text::trim(t) == t);
    assert(t.drop_last() =~= s);
}

/// Two spellings of one limit are one limit: a gibibyte is 1048576 kibibytes.
pub proof fn a_gibibyte_is_its_kibibytes(n: nat)
    requires
        n * 1_048_576 <= u64::MAX,
    ensures
        memory_bytes(text::decimal(n).push('g')) == memory_bytes(
            text::decimal(n * 1_048_576).push('k'),
        ),
{
    assert(n * 1_073_741_824 == (n * 1_048_576) * 1024) by (nonlinear_arith);
    a_suffix_scales_the_number(n, 'g');
    a_suffix_scales_the_number(n * 1_048_576, 'k');
}

/// An entrant that is not runnable owes no implementation: whatever it says of
/// its build, its envelope, its variants and the rest, what is wrong with it is
/// decided by its identity and by whether it says why it is not built.
pub proof fn a_planned_entrant_owes_no_implementation(
    a: Entrant,
    b: Entrant,
    files_a: Seq<Seq<char>>,
    files_b: Seq<Seq<char>>,
    formats_a: Seq<Seq<char>>,
    formats_b: Seq<Seq<char>>,
)
    requires
        !a.spec.entrant.status.runs(),
        !b.spec.entrant.status.runs(),
        a.dir == b.dir,
        a.spec.schema == b.spec.schema,
        a.spec.entrant == b.spec.entrant,
        a.spec.display == b.spec.display,
        a.spec.planned is Some == b.spec.planned is Some,
    ensures
        problems(a, files_a, formats_a) == problems(b, files_b, formats_b),
{
}

proof fn lemma_variants(variants: Seq<Variant>, formats: Seq<Seq<char>>)
    requires
        each_variant_problems(variants, formats).len() == 0,
    ensures
        forall|i: int|
            0 <= i < variants.len() ==> one_variant_problems(
                #[trigger] variants[i],
                variants.take(i),
                formats,
            ).len() == 0,
    decreases variants.len(),
{
    if variants.len() > 0 {
        let earlier = variants.drop_last();
        lemma_variants(earlier, formats);
        assert forall|i: int| 0 <= i < variants.len() implies one_variant_problems(
            #[trigger] variants[i],
            variants.take(i),
            formats,
        ).len() == 0 by {
            if i < earlier.len() {
                assert(earlier[i] == variants[i]);
                assert(earlier.take(i) =~= variants.take(i));
            } else {
                assert(variants.take(i) =~= earlier);
            }
        }
    }
}

proof fn lemma_first_default(variants: Seq<Variant>)
    ensures
        match first_default(variants) {
            Some(i) => 0 <= i < variants.len() && variants[i].default && default_count(variants)
                >= 1,
            None => default_count(variants) == 0 && forall|i: int|
                0 <= i < variants.len() ==> !(#[trigger] variants[i]).default,
        },
        default_count(variants) == 1 ==> forall|i: int|
            0 <= i < variants.len() && (#[trigger] variants[i]).default ==> first_default(
                variants,
            ) == Some(i),
    decreases variants.len(),
{
    if variants.len() > 0 {
        let earlier = variants.drop_last();
        lemma_first_default(earlier);
        assert forall|i: int|
            first_default(variants) is None && 0 <= i < variants.len() implies !(
        #[trigger] variants[i]).default by {
            if i < earlier.len() {
                assert(earlier[i] == variants[i]);
            }
        }
        assert forall|i: int|
            default_count(variants) == 1 && 0 <= i < variants.len() && (
            #[trigger] variants[i]).default implies first_default(variants) == Some(i) by {
            if i < earlier.len() {
                assert(earlier[i] == variants[i]);
            } else {
                assert(default_count(earlier) == 0);
            }
        }
    }
}

/// The valve: in a descriptor with whose variants nothing is wrong, every arm
/// that uses code its project does not ship is stripped, every arm reports a wire
/// format, no id stands twice, and the one default is realistic.
pub proof fn an_arm_of_unshipped_code_is_never_the_headline(
    e: Entrant,
    formats: Seq<Seq<char>>,
)
    requires
        variant_problems(e, formats).len() == 0,
    ensures
        forall|i: int|
            0 <= i < e.spec.variants@.len() ==> {
                let v = #[trigger] e.spec.variants@[i];
                &&& v.unshipped@.len() > 0 ==> v.approach == Approach::Stripped
                &&& v.default ==> v.approach == Approach::Realistic && v.unshipped@.len() == 0
                &&& v.reports@.contains_key("wire_format"@)
                &&& is_slug(v.id@)
            },
        forall|i: int, j: int|
            0 <= i < j < e.spec.variants@.len() ==> (#[trigger] e.spec.variants@[i]).id@ != (
            #[trigger] e.spec.variants@[j]).id@,
        default_count(e.spec.variants@) == 1,
{
    let vs = e.spec.variants@;
    lemma_variants(vs, formats);
    lemma_first_default(vs);
    assert(default_problems(vs).len() == 0);
    assert forall|i: int| 0 <= i < vs.len() implies {
        let v = #[trigger] vs[i];
        &&& v.unshipped@.len() > 0 ==> v.approach == Approach::Stripped
        &&& v.default ==> v.approach == Approach::Realistic && v.unshipped@.len() == 0
        &&& v.reports@.contains_key("wire_format"@)
        &&& is_slug(v.id@)
    } by {
        assert(one_variant_problems(vs[i], vs.take(i), formats).len() == 0);
    }
    assert forall|i: int, j: int| 0 <= i < j < vs.len() implies (#[trigger] vs[i]).id@ != (
    #[trigger] vs[j]).id@ by {
        assert(one_variant_problems(vs[j], vs.take(j), formats).len() == 0);
        assert(vs.take(j)[i] == vs[i]);
        assert(!is_taken(vs.take(j), vs[j].id@));
    }
}

/// Whether substitution has a value for a token: it closes, it is in the
/// vocabulary, and the knob or the container that it names is declared.
pub open spec fn resolves(
    token: (Seq<char>, Option<Seq<char>>),
    variants: Seq<Variant>,
    containers: Seq<Container>,
) -> bool {
    &&& token.1 is Some
    &&& match placeholder(token.1->0) {
        None => false,
        Some(Placeholder::Knob(k)) => forall|i: int|
            0 <= i < variants.len() ==> (#[trigger] variants[i]).knobs@.contains_key(k),
        Some(Placeholder::Container(c)) => is_container(containers, c),
        Some(_) => true,
    }
}

proof fn lemma_missing_knobs(
    place: Seq<char>,
    key: Seq<char>,
    k: Seq<char>,
    variants: Seq<Variant>,
)
    requires
        missing_knobs(place, key, k, variants).len() == 0,
    ensures
        forall|i: int|
            0 <= i < variants.len() ==> (#[trigger] variants[i]).knobs@.contains_key(k),
    decreases variants.len(),
{
    if variants.len() > 0 {
        let earlier = variants.drop_last();
        lemma_missing_knobs(place, key, k, earlier);
        assert forall|i: int| 0 <= i < variants.len() implies (
        #[trigger] variants[i]).knobs@.contains_key(k) by {
            if i < earlier.len() {
                assert(earlier[i] == variants[i]);
            }
        }
    }
}

proof fn lemma_value_resolves(
    place: Seq<char>,
    key: Seq<char>,
    raw: Seq<char>,
    toks: Seq<(Seq<char>, Option<Seq<char>>)>,
    variants: Seq<Variant>,
    containers: Seq<Container>,
)
    requires
        value_problems(place, key, raw, toks, variants, containers).len() == 0,
    ensures
        forall|i: int| 0 <= i < toks.len() ==> resolves(#[trigger] toks[i], variants, containers),
    decreases toks.len(),
{
    if toks.len() > 0 {
        let earlier = toks.drop_last();
        lemma_value_resolves(place, key, raw, earlier, variants, containers);
        assert(token_problems(place, key, raw, toks.last(), variants, containers).len() == 0);
        match placeholder(toks.last().1->0) {
            Some(Placeholder::Knob(k)) => {
                if toks.last().1 is Some {
                    lemma_missing_knobs(place, key, k, variants);
                }
            },
            _ => {},
        }
        assert forall|i: int| 0 <= i < toks.len() implies resolves(
            #[trigger] toks[i],
            variants,
            containers,
        ) by {
            if i < earlier.len() {
                assert(earlier[i] == toks[i]);
            }
        }
    }
}

/// Validation and substitution share one vocabulary: in an environment with
/// which nothing is wrong, every token of every value resolves, for each of the
/// variants that the environment is substituted for.
pub proof fn a_validated_environment_resolves(
    place: Seq<char>,
    env: Seq<(Seq<char>, String)>,
    variants: Seq<Variant>,
    containers: Seq<Container>,
)
    requires
        table_problems(place, env, variants, containers).len() == 0,
    ensures
        forall|i: int, t: int|
            0 <= i < env.len() && 0 <= t < tokens(env[i].1@).len() ==> resolves(
                #[trigger] tokens(env[i].1@)[t],
                variants,
                containers,
            ),
    decreases env.len(),
{
    if env.len() > 0 {
        let earlier = env.drop_last();
        a_validated_environment_resolves(place, earlier, variants, containers);
        let last = env.last();
        lemma_value_resolves(place, last.0, last.1@, tokens(last.1@), variants, containers);
        assert forall|i: int, t: int|
            0 <= i < env.len() && 0 <= t < tokens(env[i].1@).len() implies resolves(
            #[trigger] tokens(env[i].1@)[t],
            variants,
            containers,
        ) by {
            if i < earlier.len() {
                assert(earlier[i] == env[i]);
                assert(resolves(tokens(earlier[i].1@)[t], variants, containers));
            }
        }
    }
}

/// Whether the hues of `s` lie at least the gap apart.
pub open spec fn apart(s: Seq<(u16, Seq<char>)>) -> bool {
    forall|k: int, l: int|
        0 <= k < l < s.len() ==> (#[trigger] s[l]).0 - (#[trigger] s[k]).0 >= HUE_GAP
}

proof fn lemma_gaps(s: Seq<(u16, Seq<char>)>)
    requires
        hue_problems(s).len() == 0,
    ensures
        apart(s),
    decreases s.len(),
{
    if s.len() >= 2 {
        let earlier = s.drop_last();
        lemma_gaps(earlier);
        assert forall|k: int, l: int| 0 <= k < l < s.len() implies (#[trigger] s[l]).0 - (
        #[trigger] s[k]).0 >= HUE_GAP by {
            if l < earlier.len() {
                assert(earlier[l].0 - earlier[k].0 >= HUE_GAP);
            } else if k < s.len() - 2 {
                assert(earlier[s.len() - 2].0 - earlier[k].0 >= HUE_GAP);
            }
        }
    }
}

proof fn lemma_with_hue(s: Seq<(u16, Seq<char>)>, x: (u16, Seq<char>)) -> (p: int)
    ensures
        0 <= p <= s.len(),
        with_hue(s, x) == s.insert(p, x),
    decreases s.len(),
{
    if s.len() == 0 || !hue_before(x, s.last()) {
        assert(s.push(x) =~= s.insert(s.len() as int, x));
        s.len() as int
    } else {
        let p = lemma_with_hue(s.drop_last(), x);
        assert(s.drop_last().insert(p, x).push(s.last()) =~= s.insert(p, x));
        p
    }
}

proof fn lemma_hues_apart(es: Seq<Entrant>)
    requires
        apart(hues(es)),
    ensures
        forall|i: int|
            0 <= i < es.len() ==> exists|k: int|
                0 <= k < hues(es).len() && (#[trigger] hues(es)[k]).0 == (
                #[trigger] es[i]).spec.display.hue,
        forall|i: int, j: int|
            0 <= i < j < es.len() ==> ((#[trigger] es[i]).spec.display.hue - (
            #[trigger] es[j]).spec.display.hue >= HUE_GAP || es[j].spec.display.hue
                - es[i].spec.display.hue >= HUE_GAP),
    decreases es.len(),
{
    if es.len() > 0 {
        let earlier = es.drop_last();
        let s = hues(earlier);
        let x = (es.last().spec.display.hue, es.last().spec.entrant.id@);
        let p = lemma_with_hue(s, x);
        let t = s.insert(p, x);
        assert(hues(es) == t);
        assert(apart(s)) by {
            assert forall|k: int, l: int| 0 <= k < l < s.len() implies (#[trigger] s[l]).0 - (
            #[trigger] s[k]).0 >= HUE_GAP by {
                let a = if k < p { k } else { k + 1 };
                let b = if l < p { l } else { l + 1 };
                assert(t[a] == s[k] && t[b] == s[l]);
            }
        }
        lemma_hues_apart(earlier);
        assert(t[p] == x);
        assert forall|i: int| 0 <= i < es.len() implies exists|k: int|
            0 <= k < hues(es).len() && (#[trigger] hues(es)[k]).0 == (
            #[trigger] es[i]).spec.display.hue by {
            if i < earlier.len() {
                assert(earlier[i] == es[i]);
                let k = choose|k: int|
                    0 <= k < s.len() && (#[trigger] s[k]).0 == earlier[i].spec.display.hue;
                let a = if k < p { k } else { k + 1 };
                assert(t[a] == s[k]);
                assert(hues(es)[a].0 == es[i].spec.display.hue);
            } else {
                assert(hues(es)[p].0 == es[i].spec.display.hue);
            }
        }
        assert forall|i: int, j: int| 0 <= i < j < es.len() implies ((
        #[trigger] es[i]).spec.display.hue - (#[trigger] es[j]).spec.display.hue >= HUE_GAP
            || es[j].spec.display.hue - es[i].spec.display.hue >= HUE_GAP) by {
            assert(earlier[i] == es[i]);
            if j < earlier.len() {
                assert(earlier[j] == es[j]);
            } else {
                let k = choose|k: int|
                    0 <= k < s.len() && (#[trigger] s[k]).0 == earlier[i].spec.display.hue;
                let a = if k < p { k } else { k + 1 };
                assert(t[a] == s[k]);
                assert(t[p] == x);
            }
        }
    }
}

proof fn lemma_orders(es: Seq<Entrant>)
    requires
        order_problems(es).len() == 0,
    ensures
        forall|i: int, j: int|
            0 <= i < j < es.len() ==> (#[trigger] es[i]).spec.display.order != (
            #[trigger] es[j]).spec.display.order,
    decreases es.len(),
{
    if es.len() > 0 {
        let earlier = es.drop_last();
        lemma_orders(earlier);
        let order = es.last().spec.display.order as int;
        lemma_claims(earlier, order);
        assert forall|i: int, j: int| 0 <= i < j < es.len() implies (
        #[trigger] es[i]).spec.display.order != (#[trigger] es[j]).spec.display.order by {
            assert(earlier[i] == es[i]);
            if j < earlier.len() {
                assert(earlier[j] == es[j]);
            }
        }
    }
}

proof fn lemma_claims(es: Seq<Entrant>, order: int)
    requires
        claims_order(es, order) is None,
    ensures
        forall|i: int| 0 <= i < es.len() ==> (#[trigger] es[i]).spec.display.order != order,
    decreases es.len(),
{
    if es.len() > 0 {
        let earlier = es.drop_last();
        lemma_claims(earlier, order);
        assert forall|i: int| 0 <= i < es.len() implies (#[trigger] es[i]).spec.display.order
            != order by {
            if i < earlier.len() {
                assert(earlier[i] == es[i]);
            }
        }
    }
}

/// Entrants that pass together can be told apart: no two claim one place in the
/// order, and every two hues lie at least the gap apart.
pub proof fn entrants_that_pass_are_told_apart(es: Seq<Entrant>)
    requires
        cross_problems(es).len() == 0,
    ensures
        forall|i: int, j: int|
            0 <= i < j < es.len() ==> (#[trigger] es[i]).spec.display.order != (
            #[trigger] es[j]).spec.display.order,
        forall|i: int, j: int|
            0 <= i < j < es.len() ==> ((#[trigger] es[i]).spec.display.hue - (
            #[trigger] es[j]).spec.display.hue >= HUE_GAP || es[j].spec.display.hue
                - es[i].spec.display.hue >= HUE_GAP),
{
    lemma_orders(es);
    lemma_gaps(hues(es));
    lemma_hues_apart(es);
}

/// An envelope that passes declares what its one container of the data plane gets:
/// its memory to the byte, and its processors as near as numbers count as equal.
pub proof fn a_passing_envelope_is_what_its_data_plane_gets(e: Entrant)
    requires
        envelope_problems(e).len() == 0,
    ensures
        e.spec.envelope is Some,
        ({
            let env = e.spec.envelope->0;
            let data = data_planes(env.containers@);
            &&& data.len() == 1
            &&& double::parse(env.cpus@) matches Some(want) && want !is NaN && !slack().lt(
                cpu_total(double::parse(data[0].cpus@)).less_by(want).unsigned(),
            )
            &&& memory_bytes(env.memory@) == Some(
                match memory_bytes(data[0].memory@) {
                    Some(n) => n,
                    None => 0,
                },
            )
        }),
{
    let env = e.spec.envelope->0;
    let data = data_planes(env.containers@);
    if e.spec.envelope is Some && data.len() == 1 {
        assert(envelope_problems(e) == cpu_problems(double::parse(data[0].cpus@), env.cpus@)
            + memory_problems(memory_bytes(data[0].memory@), env.memory@));
    }
}

/// What a constraint on knobs asks, in numbers: to exceed another is to be larger
/// and not the same, and a floor may be met exactly. A knob that is not set meets
/// neither.
pub proof fn a_constraint_compares_the_numbers(
    c: Constraint,
    knobs: Map<Seq<char>, Knob>,
    a: i64,
    b: i64,
)
    ensures
        knobs.contains_key(c.knob@) && knobs[c.knob@] == Knob::Integer(a) ==> {
            &&& c.at_least is None ==> (c.exceeds matches Some(other) ==> (knobs.contains_key(other@)
                && knobs[other@] == Knob::Integer(b) ==> c.holds(knobs) == (a > b)))
            &&& c.exceeds is None ==> (c.at_least matches Some(floor) ==> c.holds(knobs) == (a
                >= floor))
        },
        !knobs.contains_key(c.knob@) ==> !c.holds(knobs),
        c.exceeds matches Some(other) ==> (!knobs.contains_key(other@) ==> !c.holds(knobs)),
        c.exceeds is Some && c.at_least is Some ==> !c.holds(knobs),
        c.exceeds is None && c.at_least is None ==> !c.holds(knobs),
{
}

/// What an entrant that is to run must bring, or be refused: a build whose file is
/// among its own, a page that describes it, a version that a command reports, and
/// the guarantee that every arm runs under.
pub proof fn a_passing_entrant_brings_what_it_must(
    e: Entrant,
    files: Seq<Seq<char>>,
    formats: Seq<Seq<char>>,
)
    requires
        e.spec.entrant.status.runs(),
        problems(e, files, formats).len() == 0,
    ensures
        e.spec.build matches Some(b) && text::listed(files, b.dockerfile@),
        text::listed(files, "README.md"@),
        e.spec.version matches Some(v) && v.strategy@ == "command"@ && v.command@.len() > 0,
        e.spec.guarantees matches Some(g) && g.delivery@ == "at-least-once"@,
{
    assert(runnable_problems(e, files, formats).len() == 0);
    assert(build_problems(e, files).len() == 0);
    assert(version_problems(e).len() == 0);
    assert(guarantee_problems(e).len() == 0);
}

/// A token is what stands between its braces, and what follows it holds its own tokens;
/// a value without braces holds none.
pub proof fn a_token_is_what_its_braces_hold(
    before: Seq<char>,
    inner: Seq<char>,
    rest: Seq<char>,
)
    requires
        forall|i: int| 0 <= i < before.len() ==> #[trigger] before[i] != '{',
        forall|i: int| 0 <= i < inner.len() ==> #[trigger] inner[i] != '}',
    ensures
        tokens(before + ("{{"@ + inner + "}}"@) + rest) == seq![
            ("{{"@ + inner + "}}"@, Some(inner)),
        ] + tokens(rest),
        tokens(before) == Seq::<(Seq<char>, Option<Seq<char>>)>::empty(),
{
    reveal_strlit("{{");
    reveal_strlit("}}");
    let whole = "{{"@ + inner + "}}"@;
    let raw = before + whole + rest;
    let k = before.len() as int;
    let end = (inner.len() + 2) as int;
    let opened = "{{"@ + inner;
    assert(raw =~= before + "{{"@ + (inner + "}}"@ + rest));
    text::lemma_nowhere(before, "{{"@);
    text::lemma_first_after(before, "{{"@, inner + "}}"@ + rest);
    let after = raw.skip(k);
    assert(after =~= opened + "}}"@ + rest);
    assert forall|i: int| 0 <= i < opened.len() implies #[trigger] opened[i] != '}' by {
        if i >= 2 {
            assert(opened[i] == inner[i - 2]);
        }
    }
    text::lemma_first_after(opened, "}}"@, rest);
    assert(after.take(end + 2) =~= whole);
    assert(after.subrange(2, end) =~= inner);
    assert(after.skip(end + 2) =~= rest);
}

} // verus!
