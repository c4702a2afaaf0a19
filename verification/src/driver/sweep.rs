//! A sweep: what it will do, in which order, and what came of it.

use vstd::prelude::*;
use crate::double;
use crate::double::Double;
use crate::driver;
use crate::driver::Arm;
use crate::driver::RunOptions;
use crate::driver::load;
use crate::driver::measure;
use crate::entrant::Knob;
use crate::environment::Class;
use crate::environment::Environment;
use crate::report::Trigger;
use crate::table;
use crate::table::Table;
use crate::text;

verus! {

// ---------------------------------------------------------------------------
// The plan
// ---------------------------------------------------------------------------

/// A class as the plan names it.
pub open spec fn class_word(c: Class) -> Seq<char> {
    match c {
        Class::Authoritative => "authoritative"@,
        Class::Indicative => "indicative"@,
        Class::Fixture => "fixture"@,
    }
}

fn class_name(c: Class) -> (s: &'static str)
    ensures
        s@ == class_word(c),
{
    match c {
        Class::Authoritative => "authoritative",
        Class::Indicative => "indicative",
        Class::Fixture => "fixture",
    }
}

/// A trigger as a notice names it, between quotes.
pub open spec fn trigger_word(t: Trigger) -> Seq<char> {
    match t {
        Trigger::Nightly => "\"nightly\""@,
        Trigger::Manual => "\"manual\""@,
        Trigger::Pr => "\"pr\""@,
        Trigger::Tuning => "\"tuning\""@,
        Trigger::Release => "\"release\""@,
    }
}

fn trigger_name(t: Trigger) -> (s: &'static str)
    ensures
        s@ == trigger_word(t),
{
    match t {
        Trigger::Nightly => "\"nightly\"",
        Trigger::Manual => "\"manual\"",
        Trigger::Pr => "\"pr\"",
        Trigger::Tuning => "\"tuning\"",
        Trigger::Release => "\"release\"",
    }
}

/// The first line of a plan.
pub open spec fn plan_words(arms: nat, opts: RunOptions, env: Environment) -> Seq<char> {
    "plan: "@ + text::decimal(arms) + " arm(s) x "@ + text::decimal(opts.reps as nat)
        + " rep(s) = "@ + text::decimal((arms * opts.reps as nat) as nat)
        + " run(s), interleaved, in "@ + opts.mode.word() + " mode, on "@ + env.spec.id@ + " ["@
        + class_word(env.spec.class) + "]"@
}

/// The first line of a plan, printed before anything is spent.
pub fn plan_line(arms: usize, opts: &RunOptions, env: &Environment) -> (s: String)
    ensures
        s@ == plan_words(arms as nat, *opts, *env),
{
    let mut s = "plan: ".to_owned();
    text::push_decimal(&mut s, arms as u128);
    s.append(" arm(s) x ");
    text::push_decimal(&mut s, opts.reps as u128);
    s.append(" rep(s) = ");
    proof {
        assert(0 <= arms * opts.reps <= 0xffff_ffff_ffff_ffff * 0xffff_ffff) by (nonlinear_arith)
            requires
                0 <= arms <= 0xffff_ffff_ffff_ffff,
                0 <= opts.reps <= 0xffff_ffff,
        ;
    }
    text::push_decimal(&mut s, arms as u128 * opts.reps as u128);
    s.append(" run(s), interleaved, in ");
    s.append(opts.mode.name());
    s.append(" mode, on ");
    s.append(env.spec.id.as_str());
    s.append(" [");
    s.append(class_name(env.spec.class));
    s.append("]");
    s
}

/// What a sustained sweep offers.
pub open spec fn offer_words(rate: nat, window_s: nat) -> Seq<char> {
    "  sustained: "@ + text::decimal(rate) + " msgs/s offered for "@ + text::decimal(window_s)
        + "s per run, from "@ + text::decimal(load::threads_for(rate as int) as nat)
        + " producer thread(s)"@
}

/// What a sustained sweep asks of its host.
pub open spec fn host_words(demand: Double, vcpus: nat) -> Seq<char> {
    "  host: this asks for ~"@ + demand.fixed(0) + " vCPU of a "@ + text::decimal(vcpus)
        + "-vCPU box (arm + broker + ClickHouse + generator + driver)"@ + if double::of(vcpus).lt(
        demand,
    ) {
        " — OVERSUBSCRIBED, which is exactly why drain is the default"@
    } else {
        Seq::empty()
    }
}

/// The two lines of a sustained sweep's plan: what it offers, and what that asks
/// of the host. A reader who sees the arithmetic before the sweep starts is not
/// surprised by its result.
pub fn sustained_lines(env: &Environment, arms: &[Arm<'_>], rate: u64, window_s: u64) -> (r: (
    String,
    String,
))
    ensures
        r.0@ == offer_words(rate as nat, window_s as nat),
        r.1@ == host_words(
            load::demand(*env, arms@, rate as int),
            env.spec.host.vm_cpus as nat,
        ),
{
    let mut offer = "  sustained: ".to_owned();
    text::push_decimal(&mut offer, rate as u128);
    offer.append(" msgs/s offered for ");
    text::push_decimal(&mut offer, window_s as u128);
    offer.append("s per run, from ");
    text::push_decimal(&mut offer, load::producer_threads(rate) as u128);
    offer.append(" producer thread(s)");
    let (demand, vcpus) = load::oversubscription(env, arms, rate);
    let mut host = "  host: this asks for ~".to_owned();
    host.append(demand.to_fixed(0).as_str());
    host.append(" vCPU of a ");
    text::push_decimal(&mut host, vcpus as u128);
    host.append("-vCPU box (arm + broker + ClickHouse + generator + driver)");
    let ghost before = host@;
    if Double::of(vcpus as u128).below(demand) {
        host.append(" — OVERSUBSCRIBED, which is exactly why drain is the default");
    } else {
        assert(host@ =~= before + Seq::empty());
    }
    (offer, host)
}

/// What is said of a run whose trigger bars publication.
pub open spec fn trigger_words(t: Trigger, bar: Seq<char>) -> Seq<char> {
    "\nNOT PUBLISHABLE: "@ + bar + ".\nEvery record carries trigger="@ + trigger_word(t)
        + ", and `bench validate` refuses such a record under results/ — committing one fails the build instead of publishing a number.\n"@
}

/// What is said of a run whose trigger bars publication, before it spends
/// anything.
pub fn trigger_notice(t: Trigger) -> (r: Option<String>)
    ensures
        match (r, t.bar()) {
            (Some(s), Some(bar)) => s@ == trigger_words(t, bar),
            (None, None) => true,
            _ => false,
        },
{
    match t.publication_bar() {
        None => None,
        Some(bar) => {
            let mut s = "\nNOT PUBLISHABLE: ".to_owned();
            s.append(bar);
            s.append(".\nEvery record carries trigger=");
            s.append(trigger_name(t));
            s.append(
                ", and `bench validate` refuses such a record under results/ — committing one fails the build instead of publishing a number.\n",
            );
            Some(s)
        },
    }
}

/// What is said of a run in an environment that bars publication.
pub open spec fn environment_words(bar: Seq<char>) -> Seq<char> {
    "\nNOT PUBLISHABLE: "@ + bar
        + ".\nEvery record from this run carries the `unpublishable_environment` flag and must never reach the site.\n"@
}

/// What is said of a run in an environment that bars publication.
pub fn environment_notice(env: &Environment) -> (r: Option<String>)
    ensures
        match (r, env.spec.class.bar()) {
            (Some(s), Some(bar)) => s@ == environment_words(bar),
            (None, None) => true,
            _ => false,
        },
{
    match env.publication_bar() {
        None => None,
        Some(bar) => {
            let mut s = "\nNOT PUBLISHABLE: ".to_owned();
            s.append(bar);
            s.append(
                ".\nEvery record from this run carries the `unpublishable_environment` flag and must never reach the site.\n",
            );
            Some(s)
        },
    }
}

/// The knobs of an arm, each with its value.
pub open spec fn cells(knobs: Seq<(Seq<char>, Knob)>) -> Seq<Seq<char>> {
    knobs.map_values(|e: (Seq<char>, Knob)| e.0 + "="@ + driver::knob_word(e.1@))
}

/// The line of an arm in the plan, at the knobs of `t`.
pub open spec fn arm_words(arm: Arm, t: Table<Knob>) -> Seq<char> {
    let format = measure::wire_format_of(arm);
    let named = if arm.variant.reports@.contains_key("wire_format"@) {
        format
    } else {
        "-"@
    };
    "  "@ + arm.label() + "  "@ + named + if t.seq().len() == 0 {
        Seq::empty()
    } else {
        "  ["@ + text::join(cells(t.seq()), " "@) + "]"@
    }
}

fn cell_list(t: &Table<Knob>) -> (out: Vec<String>)
    ensures
        text::strings(out@) == cells(t.seq()),
{
    let entries = t.entries();
    let ghost all = cells(t.seq());
    let mut out: Vec<String> = Vec::new();
    let mut i: usize = 0;
    assert(all.len() == entries@.len());
    assert(text::strings(out@) =~= all.take(0));
    while i < entries.len()
        invariant
            i <= entries.len(),
            all == cells(t.seq()),
            t.seq() == table::pairs(entries@),
            all.len() == entries@.len(),
            text::strings(out@) == all.take(i as int),
        decreases entries.len() - i,
    {
        let mut cell = entries[i].0.as_str().to_owned();
        cell.append("=");
        cell.append(driver::knob_text(&entries[i].1).as_str());
        let ghost c = cell@;
        text::push_string(&mut out, cell);
        proof {
            assert(t.seq()[i as int] == (entries@[i as int].0@, entries@[i as int].1));
            assert(all[i as int] == c);
            assert(all.take(i + 1) =~= all.take(i as int).push(c));
        }
        i = i + 1;
    }
    assert(all.take(i as int) =~= all);
    out
}

/// The line of an arm in the plan. Its knobs stand there because they are what a
/// sweep varies.
pub fn arm_line(arm: &Arm<'_>, opts: &RunOptions) -> (s: String)
    ensures
        exists|t: Table<Knob>|
            #![trigger driver::is_effective(t, *arm.variant, *opts)]
            driver::is_effective(t, *arm.variant, *opts) && s@ == arm_words(*arm, t),
{
    let knobs = opts.knobs_for(arm.variant);
    let mut s = "  ".to_owned();
    s.append(arm.name().as_str());
    s.append("  ");
    match arm.variant.reports.get("wire_format") {
        Some(f) => {
            s.append(f.as_str());
        },
        None => {
            s.append("-");
        },
    }
    let ghost head = s@;
    let list = cell_list(&knobs);
    assert(text::strings(list@).len() == list@.len());
    if list.len() > 0 {
        let mut cell = "  [".to_owned();
        cell.append(text::joined(list.as_slice(), " ").as_str());
        cell.append("]");
        s.append(cell.as_str());
    } else {
        assert(s@ =~= head + Seq::empty());
    }
    assert(driver::is_effective(knobs, *arm.variant, *opts));
    s
}

// ---------------------------------------------------------------------------
// The order
// ---------------------------------------------------------------------------

/// Which repetition of which arm comes after `i` others: every arm once, then
/// every arm again. Running all of one arm before all of another would lay the
/// drift of the machine onto whichever goes last.
pub open spec fn turn(arms: int, reps: int, i: int) -> Option<(int, int)> {
    if arms > 0 && 0 <= i < arms * reps {
        Some((i / arms + 1, i % arms))
    } else {
        None
    }
}

/// How often the options run each arm: never, in a dry run.
pub open spec fn repetitions(opts: RunOptions) -> u32 {
    if opts.dry_run {
        0
    } else {
        opts.reps
    }
}

/// What is said of a dry run, which ends before anything is started.
pub fn dry_run_notice(opts: &RunOptions) -> (r: Option<&'static str>)
    ensures
        match r {
            Some(s) => opts.dry_run && s@ == "dry run: nothing was started"@,
            None => !opts.dry_run,
        },
{
    if opts.dry_run {
        Some("dry run: nothing was started")
    } else {
        None
    }
}

/// How far a sweep has got.
#[derive(Debug)]
pub struct Sweep {
    /// Number of arms.
    pub arms: usize,
    /// Repetitions of each.
    pub reps: u32,
    /// Runs made so far.
    pub taken: u128,
    /// Records written so far.
    pub emitted: u128,
    /// Refusals so far.
    pub refusals: Vec<String>,
}

impl Sweep {
    /// The beginning of a sweep.
    pub fn begin(arms: usize, reps: u32) -> (s: Sweep)
        ensures
            s.arms == arms,
            s.reps == reps,
            s.taken == 0,
            s.emitted == 0,
            s.refusals@.len() == 0,
    {
        Sweep { arms, reps, taken: 0, emitted: 0, refusals: Vec::new() }
    }

    /// The beginning of the sweep that the options ask for. A dry run has no turn.
    pub fn of(arms: &[Arm<'_>], opts: &RunOptions) -> (s: Sweep)
        ensures
            s.arms == arms@.len(),
            s.reps == repetitions(*opts),
            s.taken == 0,
            s.emitted == 0,
            s.refusals@.len() == 0,
            opts.dry_run ==> turn(s.arms as int, s.reps as int, s.taken as int) is None,
    {
        Sweep::begin(
            arms.len(),
            if opts.dry_run {
                0
            } else {
                opts.reps
            },
        )
    }

    /// The repetition and the arm to run next, the repetition counted from one.
    pub fn next(&self) -> (r: Option<(u32, usize)>)
        ensures
            match r {
                Some((rep, arm)) => turn(self.arms as int, self.reps as int, self.taken as int)
                    == Some((rep as int, arm as int)),
                None => turn(self.arms as int, self.reps as int, self.taken as int) is None,
            },
    {
        if self.arms == 0 {
            return None;
        }
        let n: u128 = self.arms as u128;
        proof {
            assert(0 <= n * self.reps <= 0xffff_ffff_ffff_ffff * 0xffff_ffff)
                by (nonlinear_arith)
                requires
                    0 <= n <= 0xffff_ffff_ffff_ffff,
                    0 <= self.reps <= 0xffff_ffff,
            ;
        }
        if self.taken >= n * self.reps as u128 {
            return None;
        }
        proof {
            let i = self.taken as int;
            let a = n as int;
            let r = self.reps as int;
            assert(0 <= i / a < r) by (nonlinear_arith)
                requires
                    0 <= i < a * r,
                    a > 0,
            ;
            assert(0 <= i % a < a) by (nonlinear_arith)
                requires
                    a > 0,
            ;
        }
        Some(((self.taken / n) as u32 + 1, (self.taken % n) as usize))
    }

    /// Takes note of what came of a run: whether a record of it was written, and
    /// whether it was refused. A refusal that is recorded is counted all the
    /// same, and stops a sweep that is to stop at the first.
    pub fn settle(
        &mut self,
        label: &str,
        written: bool,
        refusal: &Option<String>,
        fail_fast: bool,
    ) -> (r: Result<(), String>)
        requires
            old(self).taken < u128::MAX,
            old(self).emitted <= old(self).taken,
        ensures
            final(self).arms == old(self).arms,
            final(self).reps == old(self).reps,
            final(self).taken == old(self).taken + 1,
            final(self).emitted == old(self).emitted + (if written {
                1int
            } else {
                0
            }),
            text::strings(final(self).refusals@) == (match refusal {
                Some(why) => text::strings(old(self).refusals@).push(label@ + " — "@ + why@),
                None => text::strings(old(self).refusals@),
            }),
            match r {
                Ok(_) => refusal is None || !fail_fast,
                Err(e) => fail_fast && refusal is Some && e@
                    == "stopping after the first refusal: "@ + refusal->0@,
            },
    {
        self.taken = self.taken + 1;
        if written {
            self.emitted = self.emitted + 1;
        }
        match refusal {
            None => Ok(()),
            Some(why) => {
                let mut line = label.to_owned();
                line.append(" — ");
                line.append(why.as_str());
                text::push_string(&mut self.refusals, line);
                if fail_fast {
                    let mut m = "stopping after the first refusal: ".to_owned();
                    m.append(why.as_str());
                    return Err(m);
                }
                Ok(())
            },
        }
    }

    /// What a sweep came to.
    pub open spec fn tally_words(self) -> Seq<char> {
        "\n"@ + text::decimal(self.emitted as nat) + " record(s) written, "@ + text::decimal(
            self.refusals@.len(),
        ) + " refusal(s)"@
    }

    /// What a sweep came to.
    pub fn tally(&self) -> (s: String)
        ensures
            s@ == self.tally_words(),
    {
        let mut s = "\n".to_owned();
        text::push_decimal(&mut s, self.emitted);
        s.append(" record(s) written, ");
        text::push_decimal(&mut s, self.refusals.len() as u128);
        s.append(" refusal(s)");
        s
    }
}

/// The heading of a run.
pub open spec fn heading_words(rep: nat, reps: nat, label: Seq<char>) -> Seq<char> {
    "\n=== rep "@ + text::decimal(rep) + "/"@ + text::decimal(reps) + " — "@ + label + " ==="@
}

/// The heading of a run.
pub fn heading(rep: u32, reps: u32, label: &str) -> (s: String)
    ensures
        s@ == heading_words(rep as nat, reps as nat, label@),
{
    let mut s = "\n=== rep ".to_owned();
    text::push_decimal(&mut s, rep as u128);
    s.append("/");
    text::push_decimal(&mut s, reps as u128);
    s.append(" — ");
    s.append(label);
    s.append(" ===");
    s
}

// ---------------------------------------------------------------------------
// Laws
// ---------------------------------------------------------------------------

/// Each repetition of each arm has exactly one place in a sweep.
pub proof fn every_arm_has_one_turn_per_repetition(arms: int, reps: int, rep: int, arm: int, i: int)
    requires
        0 <= arm < arms,
        1 <= rep <= reps,
    ensures
        turn(arms, reps, (rep - 1) * arms + arm) == Some((rep, arm)),
        turn(arms, reps, i) == Some((rep, arm)) ==> i == (rep - 1) * arms + arm,
{
    let k = (rep - 1) * arms + arm;
    assert(0 <= k < arms * reps) by (nonlinear_arith)
        requires
            k == (rep - 1) * arms + arm,
            0 <= arm < arms,
            1 <= rep <= reps,
    ;
    assert(k / arms == rep - 1 && k % arms == arm) by {
        vstd::arithmetic::div_mod::lemma_fundamental_div_mod_converse(k, arms, rep - 1, arm);
    }
    if turn(arms, reps, i) == Some((rep, arm)) {
        vstd::arithmetic::div_mod::lemma_fundamental_div_mod(i, arms);
        assert(arms * (i / arms) == (rep - 1) * arms) by (nonlinear_arith)
            requires
                i / arms == rep - 1,
        ;
    }
}

/// A dry run takes no turn, and any other sweep takes every turn that its arms
/// and repetitions have.
pub proof fn a_dry_run_takes_no_turn(arms: int, opts: RunOptions, i: int)
    ensures
        opts.dry_run ==> turn(arms, repetitions(opts) as int, i) is None,
        !opts.dry_run ==> turn(arms, repetitions(opts) as int, i) == turn(
            arms,
            opts.reps as int,
            i,
        ),
{
}

/// A sweep is interleaved: no arm begins a repetition before every arm has had
/// its turn in the one before.
pub proof fn a_sweep_is_interleaved(arms: int, reps: int, i: int, j: int)
    requires
        i <= j,
        turn(arms, reps, i) is Some,
        turn(arms, reps, j) is Some,
    ensures
        (turn(arms, reps, i)->0).0 <= (turn(arms, reps, j)->0).0,
        i + arms <= j ==> (turn(arms, reps, i)->0).0 < (turn(arms, reps, j)->0).0,
        (turn(arms, reps, i)->0).1 == (turn(arms, reps, j)->0).1 ==> i == j || i + arms <= j,
{
    vstd::arithmetic::div_mod::lemma_fundamental_div_mod(i, arms);
    vstd::arithmetic::div_mod::lemma_fundamental_div_mod(j, arms);
    let a = i / arms;
    let b = j / arms;
    assert(0 <= i % arms < arms && 0 <= j % arms < arms) by (nonlinear_arith)
        requires
            arms > 0,
    ;
    let x = i % arms;
    let y = j % arms;
    assert(a <= b) by (nonlinear_arith)
        requires
            arms * a + x <= arms * b + y,
            0 <= x < arms,
            0 <= y < arms,
    ;
    if i + arms <= j {
        assert(a < b) by (nonlinear_arith)
            requires
                arms * a + x + arms <= arms * b + y,
                0 <= x < arms,
                0 <= y < arms,
        ;
    }
    if x == y && i != j {
        assert(arms * a + arms <= arms * b) by (nonlinear_arith)
            requires
                arms * a < arms * b,
                arms > 0,
        ;
    }
}

} // verus!
