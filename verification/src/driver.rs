//! The measurement protocol.
//!
//! Nothing that a system reports about itself reaches a published number:
//! throughput is a row count in the target, processor time and memory are
//! counters of the control group, and the envelope is read back rather than
//! trusted from the request. The protocol is a sequence of refusals as much as
//! of measurements. An arm that exits, that yields too few samples, that outruns
//! the proven ceiling of the infrastructure or that loses rows produces a record
//! with a failed status and no metrics, never a plausible number.

use vstd::prelude::*;
use crate::entrant;
use crate::entrant::Constraint;
use crate::entrant::Entrant;
use crate::entrant::Knob;
use crate::entrant::KnobView;
use crate::entrant::Variant;
use crate::report::Trigger;
use crate::table;
use crate::table::Table;
use crate::text;

pub mod arm;
pub mod figures;
pub mod guard;
pub mod identity;
pub mod load;
pub mod measure;
pub mod note;
pub mod protocol;
pub mod published;
pub mod record;
pub mod sweep;
pub mod window;

verus! {

/// How the arm is loaded.
///
/// A drain record and a sustained record may not share an axis: in one the
/// throughput is the arm's capacity, in the other it is bounded by the rate that
/// was chosen, and latency exists in the second alone.
#[derive(Clone, Copy, Debug, PartialEq, Eq, Structural)]
pub enum Mode {
    /// Replay a prefilled topic to exhaustion and time the whole drain.
    Drain,
    /// Offer load at a fixed rate during the measurement. Saturation is an
    /// outcome here and no error.
    Sustained {
        /// Messages per second that the producer is scheduled to offer.
        offered_msgs_per_s: u64,
        /// Seconds that the window is held open.
        window_s: u64,
    },
}

impl Mode {
    /// The name of the mode.
    pub open spec fn word(self) -> Seq<char> {
        match self {
            Mode::Drain => "drain"@,
            Mode::Sustained { .. } => "sustained"@,
        }
    }

    /// The name of the mode, recorded on every measurement.
    pub fn name(self) -> (s: &'static str)
        ensures
            s@ == self.word(),
    {
        match self {
            Mode::Drain => "drain",
            Mode::Sustained { .. } => "sustained",
        }
    }

    /// Where a consumer group without offsets begins.
    pub open spec fn reset(self) -> Seq<char> {
        match self {
            Mode::Drain => "earliest"@,
            Mode::Sustained { .. } => "latest"@,
        }
    }

    /// Where a consumer group without offsets begins. A drain replays the corpus
    /// from its beginning; a sustained run starts at the tail, or it would
    /// measure the age of a backlog.
    pub fn offset_reset(self) -> (s: &'static str)
        ensures
            s@ == self.reset(),
    {
        match self {
            Mode::Drain => "earliest",
            Mode::Sustained { .. } => "latest",
        }
    }
}

/// One arm of a sweep: a variant of an entrant, and the image to run.
#[derive(Debug)]
pub struct Arm<'a> {
    /// The entrant.
    pub entrant: &'a Entrant,
    /// The variant.
    pub variant: &'a Variant,
    /// The image, where it is not the one that the entrant builds.
    pub image: Option<String>,
}

/// Everything that a run was asked to do.
#[derive(Debug)]
pub struct RunOptions {
    /// Repetitions per arm.
    pub reps: u32,
    /// How the arm is loaded.
    pub mode: Mode,
    /// Environment id.
    pub env_id: String,
    /// What caused the run.
    pub trigger: Trigger,
    /// Print the plan and stop.
    pub dry_run: bool,
    /// Recreate the infrastructure instead of reusing what is running. The
    /// corpus lives inside the broker, so recreating it discards the corpus.
    pub fresh_infra: bool,
    /// Abandon the sweep on the first refusal.
    pub fail_fast: bool,
    /// Topic to consume.
    pub topic: String,
    /// Corpus size in messages.
    pub batches: u64,
    /// Knob values that replace the declared ones for this invocation.
    pub knobs: Table<Knob>,
}

/// What the knobs of a map hold.
pub open spec fn knob_views(m: Map<Seq<char>, Knob>) -> Map<Seq<char>, KnobView> {
    m.map_values(|k: Knob| k@)
}

/// The knobs that an arm runs with: the variant's, with those of the invocation
/// in their place.
pub open spec fn effective_knobs(variant: Variant, opts: RunOptions) -> Map<Seq<char>, KnobView> {
    knob_views(variant.knobs@).union_prefer_right(knob_views(opts.knobs@))
}

/// Whether a table holds the knobs that an arm runs with, in the order of their
/// names.
pub open spec fn is_effective(t: Table<Knob>, variant: Variant, opts: RunOptions) -> bool {
    &&& table::ascending(t.seq())
    &&& knob_views(t@) == effective_knobs(variant, opts)
}

proof fn lemma_insert_view(m: Map<Seq<char>, Knob>, key: Seq<char>, k: Knob)
    ensures
        knob_views(m.insert(key, k)) == knob_views(m).insert(key, k@),
{
    assert(knob_views(m.insert(key, k)) =~= knob_views(m).insert(key, k@));
}

fn copy_into(out: &mut Table<Knob>, from: &Table<Knob>)
    requires
        table::ascending(old(out).seq()),
    ensures
        table::ascending(final(out).seq()),
        knob_views(final(out)@) == knob_views(old(out)@).union_prefer_right(knob_views(from@)),
{
    let entries = from.entries();
    let ghost all = from.seq();
    let ghost start = knob_views(out@);
    let mut i: usize = 0;
    assert(all.len() == entries@.len());
    assert(start.union_prefer_right(knob_views(table::map_of(all.take(0)))) =~= start);
    while i < entries.len()
        invariant
            i <= entries.len(),
            all == table::pairs(entries@),
            all.len() == entries@.len(),
            table::ascending(out.seq()),
            knob_views(out@) == start.union_prefer_right(
                knob_views(table::map_of(all.take(i as int))),
            ),
        decreases entries.len() - i,
    {
        let key = entries[i].0.as_str().to_owned();
        let k = entries[i].1.copied();
        let ghost before = out@;
        out.insert(key, k);
        proof {
            let next = all.take(i + 1);
            assert(next.drop_last() =~= all.take(i as int));
            assert(next.last() == (entries@[i as int].0@, entries@[i as int].1));
            lemma_insert_view(before, key@, k);
            lemma_insert_view(table::map_of(all.take(i as int)), key@, entries@[i as int].1);
            assert(start.union_prefer_right(knob_views(table::map_of(next)))
                =~= start.union_prefer_right(knob_views(table::map_of(all.take(i as int)))).insert(
                key@,
                k@,
            ));
        }
        i = i + 1;
    }
    assert(all.take(i as int) =~= all);
}

impl RunOptions {
    /// The knobs that an arm runs with.
    ///
    /// One function, asked both by the substitution that configures the container
    /// and by the record: two derivations are how a record comes to report a
    /// value that was never applied.
    pub fn knobs_for(&self, variant: &Variant) -> (t: Table<Knob>)
        ensures
            is_effective(t, *variant, *self),
    {
        let mut t: Table<Knob> = Table::new();
        copy_into(&mut t, &variant.knobs);
        assert(knob_views(Map::empty()).union_prefer_right(knob_views(variant.knobs@))
            =~= knob_views(variant.knobs@));
        copy_into(&mut t, &self.knobs);
        t
    }
}

/// The refusals of overrides that name a knob which the variant does not
/// declare. Applied, such an override would leave the real knob as it was and
/// write the misspelling into the record.
pub open spec fn unknown_overrides(at: Seq<char>, names: Seq<Seq<char>>, variant: Variant) -> Seq<
    Seq<char>,
>
    decreases names.len(),
{
    if names.len() == 0 {
        Seq::empty()
    } else {
        unknown_overrides(at, names.drop_last(), variant) + entrant::only_if(
            !variant.knobs@.contains_key(names.last()),
            at + ": --knob "@ + names.last()
                + " names a knob this variant does not declare. Declared: "@ + entrant::stated(
                table::keys(variant.knobs.seq()),
            )
                + ". An override that resolves nothing would leave the real knob at its declared value and write the misspelling into the record anyway, so the cell would report a configuration it never ran."@,
        )
    }
}

/// Every reason why one arm could not run at the knobs `t` of an invocation.
pub open spec fn knob_problems(
    at: Seq<char>,
    variant: Variant,
    constraints: Seq<Constraint>,
    opts: RunOptions,
    t: Table<Knob>,
) -> Seq<Seq<char>> {
    unknown_overrides(at, table::keys(opts.knobs.seq()), variant) + entrant::under(
        at,
        entrant::violations(constraints, t),
    )
}

/// Every reason why one arm could not run at the knobs of an invocation.
pub fn unrunnable_knobs(
    at: &str,
    variant: &Variant,
    constraints: &[Constraint],
    opts: &RunOptions,
) -> (out: Vec<String>)
    ensures
        exists|t: Table<Knob>|
            #![trigger is_effective(t, *variant, *opts)]
            is_effective(t, *variant, *opts) && text::strings(out@) == knob_problems(
                at@,
                *variant,
                constraints@,
                *opts,
                t,
            ),
{
    let names = opts.knobs.key_list();
    let ghost all = text::strings(names@);
    let mut out: Vec<String> = Vec::new();
    let mut i: usize = 0;
    assert(text::strings(out@) =~= unknown_overrides(at@, all.take(0), *variant));
    while i < names.len()
        invariant
            i <= names.len(),
            all == text::strings(names@),
            text::strings(out@) == unknown_overrides(at@, all.take(i as int), *variant),
        decreases names.len() - i,
    {
        let ghost was = text::strings(out@);
        assert(all.take(i + 1).drop_last() =~= all.take(i as int));
        assert(all.take(i + 1).last() == names@[i as int]@);
        if variant.knobs.get(names[i].as_str()).is_none() {
            let mut m = at.to_owned();
            m.append(": --knob ");
            m.append(names[i].as_str());
            m.append(" names a knob this variant does not declare. Declared: ");
            m.append(entrant::stated_knobs(&variant.knobs).as_str());
            m.append(
                ". An override that resolves nothing would leave the real knob at its declared value and write the misspelling into the record anyway, so the cell would report a configuration it never ran.",
            );
            text::push_string(&mut out, m);
        }
        assert(text::strings(out@) =~= unknown_overrides(at@, all.take(i + 1), *variant));
        i = i + 1;
    }
    assert(all.take(i as int) =~= all);
    let knobs = opts.knobs_for(variant);
    let broken = entrant::knob_violations(constraints, &knobs);
    entrant::add_under(&mut out, at, &broken);
    assert(is_effective(knobs, *variant, *opts));
    out
}

impl<'a> Arm<'a> {
    /// What a refusal calls the arm.
    pub open spec fn label(self) -> Seq<char> {
        self.entrant.spec.entrant.id@ + ":"@ + self.variant.id@
    }

    /// What a refusal calls the arm.
    pub fn name(&self) -> (s: String)
        ensures
            s@ == self.label(),
    {
        let mut s = self.entrant.id().to_owned();
        s.append(":");
        s.append(self.variant.id.as_str());
        s
    }
}

/// Every reason why one of the arms could not run, each arm at the knobs in `ts`.
pub open spec fn sweep_problems(arms: Seq<Arm>, opts: RunOptions, ts: Seq<Table<Knob>>) -> Seq<
    Seq<char>,
>
    decreases arms.len(),
{
    if arms.len() == 0 || ts.len() != arms.len() {
        Seq::empty()
    } else {
        let a = arms.last();
        sweep_problems(arms.drop_last(), opts, ts.drop_last()) + knob_problems(
            a.label(),
            *a.variant,
            a.entrant.spec.constraints@,
            opts,
            ts.last(),
        )
    }
}

/// Whether each of `ts` holds the knobs of the arm in its place.
pub open spec fn are_effective(ts: Seq<Table<Knob>>, arms: Seq<Arm>, opts: RunOptions) -> bool {
    &&& ts.len() == arms.len()
    &&& forall|i: int|
        0 <= i < arms.len() ==> is_effective(#[trigger] ts[i], *arms[i].variant, opts)
}

/// The refusal of a sweep with these problems.
pub open spec fn sweep_refusal(problems: Seq<Seq<char>>) -> Seq<char> {
    "REFUSED: "@ + text::decimal(problems.len()) + " unrunnable knob combination(s):\n  - "@
        + text::join(problems, "\n  - "@)
}

/// Refuses a sweep that holds an arm which its knobs do not let run, before
/// anything is started, with every problem of every arm.
pub fn assert_knobs_are_runnable(arms: &[Arm<'_>], opts: &RunOptions) -> (r: Result<(), String>)
    ensures
        exists|ts: Seq<Table<Knob>>|
            #![trigger are_effective(ts, arms@, *opts)]
            are_effective(ts, arms@, *opts) && match r {
                Ok(_) => sweep_problems(arms@, *opts, ts).len() == 0,
                Err(e) => sweep_problems(arms@, *opts, ts).len() > 0 && e@ == sweep_refusal(
                    sweep_problems(arms@, *opts, ts),
                ),
            },
{
    let mut problems: Vec<String> = Vec::new();
    let ghost mut ts: Seq<Table<Knob>> = Seq::empty();
    let mut i: usize = 0;
    assert(text::strings(problems@) =~= sweep_problems(arms@.take(0), *opts, ts));
    while i < arms.len()
        invariant
            i <= arms.len(),
            are_effective(ts, arms@.take(i as int), *opts),
            text::strings(problems@) == sweep_problems(arms@.take(i as int), *opts, ts),
        decreases arms.len() - i,
    {
        let a = &arms[i];
        let at = a.name();
        let more = unrunnable_knobs(
            at.as_str(),
            a.variant,
            a.entrant.spec.constraints.as_slice(),
            opts,
        );
        text::push_all(&mut problems, more);
        proof {
            let t = choose|t: Table<Knob>|
                #![trigger is_effective(t, *a.variant, *opts)]
                is_effective(t, *a.variant, *opts) && text::strings(more@) == knob_problems(
                    at@,
                    *a.variant,
                    a.entrant.spec.constraints@,
                    *opts,
                    t,
                );
            let next = arms@.take(i + 1);
            assert(next.drop_last() =~= arms@.take(i as int));
            assert(ts.push(t).drop_last() =~= ts);
            assert forall|k: int| 0 <= k < next.len() implies is_effective(
                #[trigger] ts.push(t)[k],
                *next[k].variant,
                *opts,
            ) by {
                if k < i {
                    assert(is_effective(ts[k], *arms@.take(i as int)[k].variant, *opts));
                }
            }
            ts = ts.push(t);
        }
        i = i + 1;
    }
    assert(arms@.take(i as int) =~= arms@);
    assert(are_effective(ts, arms@, *opts));
    assert(text::strings(problems@).len() == problems@.len());
    if problems.len() == 0 {
        return Ok(());
    }
    let mut m = "REFUSED: ".to_owned();
    text::push_decimal(&mut m, problems.len() as u128);
    m.append(" unrunnable knob combination(s):\n  - ");
    m.append(text::joined(problems.as_slice(), "\n  - ").as_str());
    Err(m)
}

/// One knob as a container sees it: a number or a text. Anything else has no
/// meaning in an environment variable, and is empty.
pub open spec fn knob_word(k: KnobView) -> Seq<char> {
    match k {
        KnobView::Integer(n) => text::signed_decimal(n),
        KnobView::Text(s) => s,
        KnobView::Other => Seq::empty(),
    }
}

/// One knob as a container sees it.
pub fn knob_text(k: &Knob) -> (s: String)
    ensures
        s@ == knob_word(k@),
{
    match k {
        Knob::Integer(n) => {
            let mut s = String::new();
            text::push_signed(&mut s, *n);
            assert(s@ =~= text::signed_decimal(*n as int));
            s
        },
        Knob::Text(s) => s.as_str().to_owned(),
        Knob::Other => String::new(),
    }
}

/// An override replaces the knob that it names and leaves the rest alone.
pub proof fn an_override_replaces_its_knob_alone(
    variant: Variant,
    opts: RunOptions,
    name: Seq<char>,
)
    ensures
        opts.knobs@.contains_key(name) ==> effective_knobs(variant, opts).contains_key(name)
            && effective_knobs(variant, opts)[name] == opts.knobs@[name]@,
        !opts.knobs@.contains_key(name) && variant.knobs@.contains_key(name) ==> effective_knobs(
            variant,
            opts,
        ).contains_key(name) && effective_knobs(variant, opts)[name] == variant.knobs@[name]@,
        !opts.knobs@.contains_key(name) && !variant.knobs@.contains_key(name) ==> !effective_knobs(
            variant,
            opts,
        ).contains_key(name),
{
}

} // verus!
