//! What an arm leaves behind, and what is read of it before it is removed.

use vstd::prelude::*;
use crate::entrant::ClickhouseSpec;
use crate::about;
use crate::double::Double;
use crate::driver::Arm;
use crate::driver::arm;
use crate::driver::figures::Gc;
use crate::entrant::Container;
use crate::entrant::Role;
use crate::environment;
use crate::jvm::GcSummary;
use crate::jvm::JvmError;
use crate::sampler::SutCost;
use crate::sampler::SutSpec;
use crate::text;

verus! {

// ---------------------------------------------------------------------------
// Containers
// ---------------------------------------------------------------------------

/// The containers of one arm that are still to be removed. An arm that was
/// refused after it had started must not run on beside the next one.
#[derive(Debug)]
pub struct ArmContainers {
    /// Their names.
    pub names: Vec<String>,
}

/// The names of the containers that `specs` start.
pub open spec fn names_of(specs: Seq<SutSpec>) -> Seq<Seq<char>> {
    specs.map_values(|s: SutSpec| s.name@)
}

impl ArmContainers {
    /// Registers the containers of an arm, before the first of them is started.
    pub fn start(specs: &[SutSpec]) -> (c: ArmContainers)
        ensures
            text::strings(c.names@) == names_of(specs@),
    {
        let mut names: Vec<String> = Vec::new();
        let mut i: usize = 0;
        assert(text::strings(names@) =~= names_of(specs@).take(0));
        while i < specs.len()
            invariant
                i <= specs.len(),
                text::strings(names@) == names_of(specs@).take(i as int),
            decreases specs.len() - i,
        {
            text::push_text(&mut names, specs[i].name.as_str());
            assert(names_of(specs@).take(i + 1) =~= names_of(specs@).take(i as int).push(
                specs@[i as int].name@,
            ));
            i = i + 1;
        }
        assert(names_of(specs@).take(i as int) =~= names_of(specs@));
        ArmContainers { names }
    }

    /// The containers to stop and remove now. None is left for a second call.
    pub fn stop(&mut self) -> (names: Vec<String>)
        ensures
            names@ == old(self).names@,
            final(self).names@.len() == 0,
    {
        let mut names: Vec<String> = Vec::new();
        std::mem::swap(&mut names, &mut self.names);
        names
    }
}

/// The logs of the containers, each under its name.
pub open spec fn headed(names: Seq<Seq<char>>, logs: Seq<Seq<char>>) -> Seq<Seq<char>> {
    Seq::new(names.len(), |i: int| "--- "@ + names[i] + " ---\n"@ + logs[i])
}

/// The logs of the containers that were stopped, for diagnosis.
pub fn logs_of(names: &[String], logs: &[String]) -> (s: String)
    requires
        names@.len() == logs@.len(),
    ensures
        s@ == text::join(headed(text::strings(names@), text::strings(logs@)), "\n"@),
{
    let ghost all = headed(text::strings(names@), text::strings(logs@));
    let mut parts: Vec<String> = Vec::new();
    let mut i: usize = 0;
    assert(text::strings(parts@) =~= all.take(0));
    while i < names.len()
        invariant
            i <= names.len(),
            names@.len() == logs@.len(),
            all == headed(text::strings(names@), text::strings(logs@)),
            text::strings(parts@) == all.take(i as int),
        decreases names.len() - i,
    {
        let mut part = "--- ".to_owned();
        part.append(names[i].as_str());
        part.append(" ---\n");
        part.append(logs[i].as_str());
        let ghost p = part@;
        text::push_string(&mut parts, part);
        assert(p == all[i as int]);
        assert(all.take(i + 1) =~= all.take(i as int).push(p));
        i = i + 1;
    }
    assert(all.take(i as int) =~= all);
    text::joined(parts.as_slice(), "\n")
}

// ---------------------------------------------------------------------------
// Statements of the entrant's own
// ---------------------------------------------------------------------------

/// Where a file of an entrant's statements lies.
pub fn arm_sql_path(arm: &Arm<'_>, rel: &str) -> (s: String)
    ensures
        s@ == environment::path_below(arm.entrant.dir@, rel@),
{
    environment::joined_path(arm.entrant.dir.as_str(), rel)
}

/// What a file of an entrant's statements holds, or why it could not be read.
pub fn read_arm_sql(arm: &Arm<'_>, rel: &str, read: Result<String, String>) -> (r: Result<
    String,
    String,
>)
    ensures
        match (r, read) {
            (Ok(s), Ok(t)) => s@ == t@,
            (Err(m), Err(e)) => m@ == "read arm SQL "@ + environment::path_below(
                arm.entrant.dir@,
                rel@,
            ) + ": "@ + e@,
            _ => false,
        },
{
    match read {
        Ok(s) => Ok(s),
        Err(e) => {
            let mut m = "read arm SQL ".to_owned();
            m.append(arm_sql_path(arm, rel).as_str());
            m.append(": ");
            m.append(e.as_str());
            Err(m)
        },
    }
}

/// What a server has against a statement: that it could not be asked, or that it
/// answered with an exception.
pub open spec fn objection(answer: Result<String, String>) -> Option<Seq<char>> {
    match answer {
        Err(e) => Some(e@),
        Ok(body) => if text::contains(body@, "DB::Exception"@) {
            Some(body@)
        } else {
            None
        },
    }
}

fn objection_of(answer: &Result<String, String>) -> (r: Option<&str>)
    ensures
        match r {
            Some(s) => objection(*answer) == Some(s@),
            None => objection(*answer) is None,
        },
{
    match answer {
        Err(e) => Some(e.as_str()),
        Ok(body) => if text::str_has(body.as_str(), "DB::Exception") {
            Some(body.as_str())
        } else {
            None
        },
    }
}

/// The refusal of a statement.
pub open spec fn statement_refusal(what: Seq<char>, stmt: Seq<char>, why: Seq<char>) -> Seq<char> {
    what + ": "@ + text::debug_text(stmt) + ": "@ + why
}

/// The first refusal among the answers to `stmts`.
pub open spec fn first_refusal(
    what: Seq<char>,
    stmts: Seq<Seq<char>>,
    answers: Seq<Result<String, String>>,
) -> Option<Seq<char>>
    decreases answers.len(),
{
    if answers.len() == 0 {
        None
    } else {
        match first_refusal(what, stmts, answers.drop_last()) {
            Some(m) => Some(m),
            None => match objection(answers.last()) {
                Some(why) => Some(statement_refusal(what, stmts[answers.len() - 1], why)),
                None => None,
            },
        }
    }
}

/// What is done next with a list of statements.
#[derive(Debug)]
pub enum ArmSql {
    /// Run the statement at this index, and ask again with its answer.
    Run(usize),
    /// All of them were accepted.
    Accepted,
    /// One of them was not.
    Refused(String),
}

/// What to do after the answers so far: the statements run one by one, and the
/// first that the server does not accept refuses the arm. A bad statement is a
/// defect of the arm that declares it, never the end of the sweep.
pub fn apply_arm_statements(
    stmts: &[String],
    answers: &[Result<String, String>],
    what: &str,
) -> (r: ArmSql)
    requires
        answers@.len() <= stmts@.len(),
    ensures
        match first_refusal(what@, text::strings(stmts@), answers@) {
            Some(m) => r matches ArmSql::Refused(s) && s@ == m,
            None => if answers@.len() < stmts@.len() {
                r == ArmSql::Run(answers@.len() as usize)
            } else {
                r is Accepted
            },
        },
{
    let mut i: usize = 0;
    assert(answers@.take(0) =~= Seq::empty());
    while i < answers.len()
        invariant
            i <= answers.len(),
            answers@.len() <= stmts@.len(),
            first_refusal(what@, text::strings(stmts@), answers@.take(i as int)) is None,
        decreases answers.len() - i,
    {
        assert(answers@.take(i + 1).drop_last() =~= answers@.take(i as int));
        if let Some(why) = objection_of(&answers[i]) {
            let mut m = what.to_owned();
            m.append(": ");
            m.append(text::quoted(stmts[i].as_str()).as_str());
            m.append(": ");
            m.append(why);
            proof {
                lemma_refusal_stands(what@, text::strings(stmts@), answers@, i + 1);
            }
            return ArmSql::Refused(m);
        }
        i = i + 1;
    }
    assert(answers@.take(i as int) =~= answers@);
    if answers.len() < stmts.len() {
        ArmSql::Run(answers.len())
    } else {
        ArmSql::Accepted
    }
}

proof fn lemma_refusal_stands(
    what: Seq<char>,
    stmts: Seq<Seq<char>>,
    answers: Seq<Result<String, String>>,
    n: int,
)
    requires
        0 <= n <= answers.len(),
        first_refusal(what, stmts, answers.take(n)) is Some,
    ensures
        first_refusal(what, stmts, answers) == first_refusal(what, stmts, answers.take(n)),
    decreases answers.len() - n,
{
    if n == answers.len() {
        assert(answers.take(n) =~= answers);
    } else {
        assert(answers.take(n + 1).drop_last() =~= answers.take(n));
        lemma_refusal_stands(what, stmts, answers, n + 1);
    }
}

// ---------------------------------------------------------------------------
// Objects of the arm's own
// ---------------------------------------------------------------------------

/// The objects that an arm made in the shared target, to be removed when its
/// repetition ends: one that outlived it would tax the arms measured after it.
#[derive(Debug)]
pub struct ArmObjects {
    /// The statements that remove them.
    pub teardown: Vec<String>,
    /// Whether they are still to be run.
    pub armed: bool,
}

/// The file of an arm's teardown statements, where it declares one.
pub open spec fn teardown_of(arm: Arm) -> Option<Seq<char>> {
    match arm.entrant.spec.clickhouse {
        None => None,
        Some(ch) => if environment::is_blank(ch.arm_teardown_sql@) {
            None
        } else {
            Some(ch.arm_teardown_sql@)
        },
    }
}

/// The file of an arm's teardown statements, where it declares one.
pub fn teardown_file(arm: &Arm<'_>) -> (r: Option<String>)
    ensures
        match r {
            Some(s) => teardown_of(*arm) == Some(s@),
            None => teardown_of(*arm) is None,
        },
{
    match &arm.entrant.spec.clickhouse {
        None => None,
        Some(ch) => if environment::blank(ch.arm_teardown_sql.as_str()) {
            None
        } else {
            Some(ch.arm_teardown_sql.as_str().to_owned())
        },
    }
}

/// The file of an arm's own statements, where it declares one.
pub open spec fn creation_of(arm: Arm) -> Option<Seq<char>> {
    match arm.entrant.spec.clickhouse {
        None => None,
        Some(ch) => if environment::is_blank(ch.arm_sql@) {
            None
        } else {
            Some(ch.arm_sql@)
        },
    }
}

/// The file of an arm's own statements, where it declares one.
pub fn creation_file(arm: &Arm<'_>) -> (r: Option<String>)
    ensures
        match r {
            Some(s) => creation_of(*arm) == Some(s@),
            None => creation_of(*arm) is None,
        },
{
    match &arm.entrant.spec.clickhouse {
        None => None,
        Some(ch) => if environment::blank(ch.arm_sql.as_str()) {
            None
        } else {
            Some(ch.arm_sql.as_str().to_owned())
        },
    }
}

impl ArmObjects {
    /// The statements that are still owed to the target.
    pub open spec fn owed(self) -> Seq<Seq<char>> {
        if self.armed {
            text::strings(self.teardown@)
        } else {
            Seq::empty()
        }
    }

    /// Guards an arm that declares teardown statements, and no other. The
    /// statements are read beforehand: a failing repetition must not depend on
    /// reading a file.
    pub fn new(arm: &Arm<'_>, statements: Result<Vec<String>, String>) -> (r: Result<
        Option<ArmObjects>,
        String,
    >)
        ensures
            match teardown_of(*arm) {
                None => r matches Ok(None),
                Some(_) => match statements {
                    Ok(v) => r matches Ok(Some(o)) && o.owed() == text::strings(v@),
                    Err(e) => r matches Err(m) && m == e,
                },
            },
    {
        if teardown_file(arm).is_none() {
            return Ok(None);
        }
        match statements {
            Ok(teardown) => Ok(Some(ArmObjects { teardown, armed: true })),
            Err(e) => Err(e),
        }
    }

    /// Hands over the statements of a repetition that succeeded, whose failure
    /// is then a finding. Nothing is left for [`ArmObjects::leftovers`].
    pub fn finish(&mut self) -> (out: Vec<String>)
        ensures
            text::strings(out@) == text::strings(old(self).teardown@),
            final(self).owed().len() == 0,
    {
        self.armed = false;
        text::copies(self.teardown.as_slice())
    }

    /// The statements to run for a repetition that did not succeed.
    pub fn leftovers(&self) -> (out: Vec<String>)
        ensures
            text::strings(out@) == self.owed(),
    {
        if self.armed {
            text::copies(self.teardown.as_slice())
        } else {
            let out: Vec<String> = Vec::new();
            assert(text::strings(out@) =~= Seq::empty());
            out
        }
    }
}

/// What is said of a statement that failed where no record can carry it.
pub open spec fn backstop_words(stmt: Seq<char>, why: Seq<char>) -> Seq<char> {
    "ARM TEARDOWN FAILED (backstop; cannot propagate from Drop): "@ + text::debug_text(stmt)
        + ": "@ + why
        + "\nThe arm's ClickHouse objects may still be live and will tax every subsequent arm until removed."@
}

/// What is said of a statement that failed where no record can carry it.
pub fn backstop_notice(stmt: &str, outcome: &Result<String, String>) -> (r: Option<String>)
    ensures
        match (r, objection(*outcome)) {
            (Some(s), Some(why)) => s@ == backstop_words(stmt@, why),
            (None, None) => true,
            _ => false,
        },
{
    match objection_of(outcome) {
        None => None,
        Some(why) => {
            let mut m = "ARM TEARDOWN FAILED (backstop; cannot propagate from Drop): ".to_owned();
            m.append(text::quoted(stmt).as_str());
            m.append(": ");
            m.append(why);
            m.append(
                "\nThe arm's ClickHouse objects may still be live and will tax every subsequent arm until removed.",
            );
            Some(m)
        },
    }
}

// ---------------------------------------------------------------------------
// Collector logs
// ---------------------------------------------------------------------------

/// The runtime that has a collector to read.
pub const JVM_RUNTIME: &'static str = "jvm";

/// What is known of one container's collector.
#[derive(Debug)]
pub enum GcSource {
    /// The container declares no log.
    Undeclared(String),
    /// A log to read.
    Log {
        /// The container.
        container: String,
        /// The path of the log inside it.
        path: String,
        /// Which plane it belongs to.
        role: Role,
        /// The end of the container's own window, seconds of uptime.
        until_s: Double,
    },
}

/// What is known of one container's collector, in the model.
pub enum GcSourceView {
    /// The container declares no log.
    Undeclared(Seq<char>),
    /// A log to read.
    Log {
        /// The container.
        container: Seq<char>,
        /// The path of the log inside it.
        path: Seq<char>,
        /// Which plane it belongs to.
        role: Role,
        /// The end of the window.
        until_s: Double,
    },
}

impl View for GcSource {
    type V = GcSourceView;

    open spec fn view(&self) -> GcSourceView {
        match self {
            GcSource::Undeclared(s) => GcSourceView::Undeclared(s@),
            GcSource::Log { container, path, role, until_s } => GcSourceView::Log {
                container: container@,
                path: path@,
                role: *role,
                until_s: *until_s,
            },
        }
    }
}

/// What the sources hold.
pub open spec fn source_views(v: Seq<GcSource>) -> Seq<GcSourceView> {
    v.map_values(|s: GcSource| s@)
}

/// The first of the measured parts that a container was started as.
pub open spec fn part_of(parts: Seq<(String, Option<SutCost>)>, name: Seq<char>) -> Option<
    (Seq<char>, Option<SutCost>),
>
    decreases parts.len(),
{
    if parts.len() == 0 {
        None
    } else if parts[0].0@ == arm::container_name(name) {
        Some((parts[0].0@, parts[0].1))
    } else {
        part_of(parts.skip(1), name)
    }
}

/// What there is to read of the containers `cs`. One that was not measured has
/// no window to read over.
pub open spec fn sources_of(cs: Seq<Container>, parts: Seq<(String, Option<SutCost>)>) -> Seq<
    GcSourceView,
>
    decreases cs.len(),
{
    if cs.len() == 0 {
        Seq::empty()
    } else {
        let before = sources_of(cs.drop_last(), parts);
        let c = cs.last();
        match part_of(parts, c.name@) {
            Some((name, Some(cost))) => before.push(
                match c.gc_log {
                    None => GcSourceView::Undeclared(
                        "no GC figures for "@ + name
                            + ": its [[envelope.container]] declares no gc_log"@,
                    ),
                    Some(path) => GcSourceView::Log {
                        container: name,
                        path: path@,
                        role: c.role,
                        until_s: cost.seconds(),
                    },
                },
            ),
            _ => before,
        }
    }
}

/// What there is to read of an arm's collectors: nothing of an arm without one.
pub open spec fn gc_sources_of(arm: Arm, parts: Seq<(String, Option<SutCost>)>) -> Seq<
    GcSourceView,
> {
    if arm.entrant.spec.entrant.runtime@ != JVM_RUNTIME@ {
        Seq::empty()
    } else {
        sources_of(arm.entrant.containers(), parts)
    }
}

fn part_named<'a>(parts: &'a [(String, Option<SutCost>)], name: &str) -> (r: Option<
    &'a (String, Option<SutCost>),
>)
    ensures
        match r {
            Some(p) => part_of(parts@, name@) == Some((p.0@, p.1)),
            None => part_of(parts@, name@) is None,
        },
{
    let started = arm::name_of_container(name);
    let mut i: usize = 0;
    assert(parts@.skip(0) =~= parts@);
    while i < parts.len()
        invariant
            started@ == arm::container_name(name@),
            i <= parts.len(),
            part_of(parts@, name@) == part_of(parts@.skip(i as int), name@),
        decreases parts.len() - i,
    {
        assert(parts@.skip(i as int).skip(1) =~= parts@.skip(i + 1));
        if text::same(parts[i].0.as_str(), started.as_str()) {
            return Some(&parts[i]);
        }
        i = i + 1;
    }
    None
}

/// What there is to read of an arm's collectors, each log over its own
/// container's window: the figures then cover the interval that every other
/// number of the record is divided by.
pub fn gc_sources(arm: &Arm<'_>, parts: &[(String, Option<SutCost>)]) -> (out: Vec<GcSource>)
    ensures
        source_views(out@) == gc_sources_of(*arm, parts@),
{
    let mut out: Vec<GcSource> = Vec::new();
    assert(source_views(out@) =~= Seq::empty());
    if !text::same(arm.entrant.spec.entrant.runtime.as_str(), JVM_RUNTIME) {
        return out;
    }
    let envelope = match &arm.entrant.spec.envelope {
        None => {
            return out;
        },
        Some(e) => e,
    };
    let cs = envelope.containers.as_slice();
    let mut i: usize = 0;
    assert(sources_of(cs@.take(0), parts@) =~= Seq::empty());
    while i < cs.len()
        invariant
            i <= cs.len(),
            source_views(out@) == sources_of(cs@.take(i as int), parts@),
        decreases cs.len() - i,
    {
        assert(cs@.take(i + 1).drop_last() =~= cs@.take(i as int));
        let ghost was = source_views(out@);
        let c = &cs[i];
        if let Some((name, Some(cost))) = part_named(parts, c.name.as_str()) {
            let source = match &c.gc_log {
                None => {
                    let mut m = "no GC figures for ".to_owned();
                    m.append(name.as_str());
                    m.append(": its [[envelope.container]] declares no gc_log");
                    GcSource::Undeclared(m)
                },
                Some(path) => GcSource::Log {
                    container: name.as_str().to_owned(),
                    path: path.as_str().to_owned(),
                    role: c.role,
                    until_s: cost.window_s(),
                },
            };
            out.push(source);
            assert(source_views(out@) =~= was.push(source@));
        }
        i = i + 1;
    }
    assert(cs@.take(i as int) =~= cs@);
    out
}

impl Gc {
    /// Takes up what one log gave. A log that cannot be read costs the record
    /// its collector figures and nothing else: an empty summary would publish a
    /// pause total of zero for an arm whose instrumentation broke.
    pub fn take_up(&mut self, role: Role, container: &str, measured: Result<GcSummary, JvmError>) -> (
    complaint: Option<String>)
        ensures
            match measured {
                Ok(s) => complaint is None && *final(self) == (match role {
                    Role::DataPlane => Gc { data_plane: Some(s), ..*old(self) },
                    Role::ControlPlane => Gc { control_plane: Some(s), ..*old(self) },
                }),
                Err(e) => *final(self) == *old(self) && complaint is Some && complaint->0@
                    == "no GC figures for "@ + container@ + ": "@ + e.text(),
            },
    {
        match measured {
            Ok(s) => {
                match role {
                    Role::DataPlane => {
                        self.data_plane = Some(s);
                    },
                    Role::ControlPlane => {
                        self.control_plane = Some(s);
                    },
                }
                None
            },
            Err(e) => {
                let mut m = "no GC figures for ".to_owned();
                m.append(container);
                m.append(": ");
                m.append(e.message().as_str());
                Some(m)
            },
        }
    }
}

// ---------------------------------------------------------------------------
// Laws
// ---------------------------------------------------------------------------

/// A statement that the server refuses refuses the arm, whatever was accepted
/// before it and whatever would have come after.
pub proof fn a_refused_statement_refuses_the_arm(
    what: Seq<char>,
    stmts: Seq<Seq<char>>,
    answers: Seq<Result<String, String>>,
    i: int,
)
    requires
        0 <= i < answers.len() <= stmts.len(),
        objection(answers[i]) is Some,
    ensures
        first_refusal(what, stmts, answers) is Some,
    decreases answers.len(),
{
    if i < answers.len() - 1 {
        a_refused_statement_refuses_the_arm(what, stmts, answers.drop_last(), i);
    }
}

/// An arm without a virtual machine has no collector log to read.
pub proof fn a_native_arm_has_no_collector(arm: Arm, parts: Seq<(String, Option<SutCost>)>)
    requires
        arm.entrant.spec.entrant.runtime@ != JVM_RUNTIME@,
    ensures
        gc_sources_of(arm, parts).len() == 0,
{
}

/// An arm's objects are created by the file that its descriptor names for that, and
/// removed by the one that it names for that.
pub proof fn each_file_is_the_one_that_was_declared(arm: Arm, ch: ClickhouseSpec)
    requires
        arm.entrant.spec.clickhouse == Some(ch),
    ensures
        creation_of(arm) == if text::trim(ch.arm_sql@).len() == 0 {
            None
        } else {
            Some(ch.arm_sql@)
        },
        teardown_of(arm) == if text::trim(ch.arm_teardown_sql@).len() == 0 {
            None
        } else {
            Some(ch.arm_teardown_sql@)
        },
{
}

proof fn lemma_part_name(parts: Seq<(String, Option<SutCost>)>, name: Seq<char>)
    ensures
        part_of(parts, name) matches Some(p) ==> p.0 == "spate-bench-sut-"@ + name,
    decreases parts.len(),
{
    if parts.len() > 0 {
        lemma_part_name(parts.skip(1), name);
    }
}

/// The log of a measured container is read from the path that the container declares,
/// under its own network name and its own role, up to the end of its own window, which
/// is a thousandth of its milliseconds.
pub proof fn a_log_is_read_over_its_own_window(
    cs: Seq<Container>,
    c: Container,
    parts: Seq<(String, Option<SutCost>)>,
    cost: SutCost,
    path: String,
)
    requires
        part_of(parts, c.name@) matches Some(p) && p.1 == Some(cost),
        c.gc_log == Some(path),
    ensures
        sources_of(cs.push(c), parts).len() == sources_of(cs, parts).len() + 1,
        sources_of(cs.push(c), parts).drop_last() == sources_of(cs, parts),
        match sources_of(cs.push(c), parts).last() {
            GcSourceView::Log { container, path: at, role, until_s } => {
                &&& container == "spate-bench-sut-"@ + c.name@
                &&& at == path@
                &&& role == c.role
                &&& about::within(until_s, cost.window_ms as nat, 1000, 6)
            },
            GcSourceView::Undeclared(_) => false,
        },
{
    lemma_part_name(parts, c.name@);
    about::a_ratio_of_counts(cost.window_ms as nat, 1000);
    assert(cs.push(c).drop_last() =~= cs);
    let before = sources_of(cs, parts);
    let after = sources_of(cs.push(c), parts);
    assert(after =~= before.push(after.last()));
    assert(after.drop_last() =~= before);
}

} // verus!
