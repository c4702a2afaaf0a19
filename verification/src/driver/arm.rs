//! What an arm is started with.

use vstd::prelude::*;
use crate::driver;
use crate::driver::Arm;
use crate::driver::Mode;
use crate::driver::RunOptions;
use crate::driver::load;
use crate::entrant;
use crate::entrant::Container;
use crate::entrant::Entrant;
use crate::entrant::Knob;
use crate::entrant::Placeholder;
use crate::entrant::Role;
use crate::entrant::Variant;
use crate::infra::Endpoints;
use crate::report;
use crate::sampler::SutSpec;
use crate::table;
use crate::table::Table;
use crate::text;

verus! {

// ---------------------------------------------------------------------------
// Substitution
// ---------------------------------------------------------------------------

/// The network name of a container of an arm.
pub open spec fn container_name(name: Seq<char>) -> Seq<char> {
    "spate-bench-sut-"@ + name
}

/// The network name of a container of an arm.
pub fn name_of_container(name: &str) -> (s: String)
    ensures
        s@ == container_name(name@),
{
    let mut s = "spate-bench-sut-".to_owned();
    s.append(name);
    s
}

/// The topic that a run consumes.
pub open spec fn topic_of(opts: RunOptions) -> Seq<char> {
    match opts.mode {
        Mode::Drain => opts.topic@,
        Mode::Sustained { .. } => load::live_topic(opts.topic@),
    }
}

/// What is put in the place of a token: nothing where the vocabulary has no value
/// for it.
pub open spec fn value_of(
    inner: Option<Seq<char>>,
    variant: Variant,
    ep: Endpoints,
    opts: RunOptions,
    group_id: Seq<char>,
    containers: Seq<Container>,
) -> Option<Seq<char>> {
    match inner {
        None => None,
        Some(i) => match entrant::placeholder(i) {
            None => None,
            Some(Placeholder::BrokerInternal) => Some(ep.bootstrap_internal@),
            Some(Placeholder::RegistryInternal) => Some(ep.registry_internal@),
            Some(Placeholder::ClickhouseInternal) => Some(ep.ch_internal@),
            Some(Placeholder::Topic) => Some(topic_of(opts)),
            Some(Placeholder::GroupId) => Some(group_id),
            Some(Placeholder::ClickhousePassword) => Some(ep.ch_password@),
            Some(Placeholder::OffsetReset) => Some(opts.mode.reset()),
            Some(Placeholder::Knob(k)) => {
                let knobs = driver::effective_knobs(variant, opts);
                if knobs.contains_key(k) {
                    Some(driver::knob_word(knobs[k]))
                } else {
                    None
                }
            },
            Some(Placeholder::Container(c)) => if entrant::is_container(containers, c) {
                Some(container_name(c))
            } else {
                None
            },
        },
    }
}

/// `raw` with a value in the place of each of `toks` that has one, token by token.
pub open spec fn filled(
    raw: Seq<char>,
    toks: Seq<(Seq<char>, Option<Seq<char>>)>,
    variant: Variant,
    ep: Endpoints,
    opts: RunOptions,
    group_id: Seq<char>,
    containers: Seq<Container>,
) -> Seq<char>
    decreases toks.len(),
{
    if toks.len() == 0 {
        raw
    } else {
        let before = filled(raw, toks.drop_last(), variant, ep, opts, group_id, containers);
        match value_of(toks.last().1, variant, ep, opts, group_id, containers) {
            Some(v) => text::replace(before, toks.last().0, v),
            None => before,
        }
    }
}

/// The refusal of a value in which a placeholder was left: it would reach the
/// container as a literal, and the record would claim the intended value.
pub open spec fn unresolved(raw: Seq<char>, out: Seq<char>) -> Seq<char> {
    "REFUSED: unresolved placeholder in "@ + text::debug_text(raw) + " (produced "@
        + text::debug_text(out)
        + "). A placeholder that reaches the container is read as a literal, so the arm would run misconfigured while the record claimed otherwise."@
}

/// An environment value as the container sees it, or the refusal of one in which
/// a placeholder is left.
pub open spec fn substituted(
    raw: Seq<char>,
    variant: Variant,
    ep: Endpoints,
    opts: RunOptions,
    group_id: Seq<char>,
    containers: Seq<Container>,
) -> Result<Seq<char>, Seq<char>> {
    let out = filled(raw, entrant::tokens(raw), variant, ep, opts, group_id, containers);
    if text::contains(out, "{{"@) {
        Err(unresolved(raw, out))
    } else {
        Ok(out)
    }
}

/// A token that closes has its braces.
proof fn lemma_token_text(raw: Seq<char>)
    ensures
        forall|i: int|
            0 <= i < entrant::tokens(raw).len() && entrant::tokens(raw)[i].1 is Some ==> (
            #[trigger] entrant::tokens(raw)[i]).0.len() > 0,
    decreases raw.len(),
{
    match text::first(raw, "{{"@) {
        Some(start) if 0 <= start <= raw.len() => {
            let after = raw.skip(start);
            match text::first(after, "}}"@) {
                Some(end) if 2 <= end && end + 2 <= after.len() => {
                    let rest = after.skip(end + 2);
                    lemma_token_text(rest);
                    let ts = entrant::tokens(raw);
                    assert forall|i: int| 0 <= i < ts.len() && ts[i].1 is Some implies (
                    #[trigger] ts[i]).0.len() > 0 by {
                        if i > 0 {
                            assert(ts[i] == entrant::tokens(rest)[i - 1]);
                        }
                    }
                },
                _ => {},
            }
        },
        _ => {},
    }
}

fn resolve(
    inner: Option<&[char]>,
    knobs: &Table<Knob>,
    ep: &Endpoints,
    opts: &RunOptions,
    group_id: &str,
    entrant: &Entrant,
    variant: &Variant,
) -> (r: Option<String>)
    requires
        driver::is_effective(*knobs, *variant, *opts),
    ensures
        ({
            let i = match inner {
                Some(x) => Some(x@),
                None => None,
            };
            match r {
                Some(v) => value_of(
                    i,
                    *variant,
                    *ep,
                    *opts,
                    group_id@,
                    entrant.containers(),
                ) == Some(v@),
                None => value_of(
                    i,
                    *variant,
                    *ep,
                    *opts,
                    group_id@,
                    entrant.containers(),
                ) is None,
            }
        }),
{
    let inner = match inner {
        None => {
            return None;
        },
        Some(i) => i,
    };
    match Placeholder::parse(inner) {
        None => None,
        Some(Placeholder::BrokerInternal) => Some(ep.bootstrap_internal.as_str().to_owned()),
        Some(Placeholder::RegistryInternal) => Some(ep.registry_internal.as_str().to_owned()),
        Some(Placeholder::ClickhouseInternal) => Some(ep.ch_internal.as_str().to_owned()),
        Some(Placeholder::Topic) => Some(
            match opts.mode {
                Mode::Drain => opts.topic.as_str().to_owned(),
                Mode::Sustained { .. } => load::sustained_topic(opts.topic.as_str()),
            },
        ),
        Some(Placeholder::GroupId) => Some(group_id.to_owned()),
        Some(Placeholder::ClickhousePassword) => Some(ep.ch_password.as_str().to_owned()),
        Some(Placeholder::OffsetReset) => Some(opts.mode.offset_reset().to_owned()),
        Some(Placeholder::Knob(k)) => {
            let name = text::string_of(k);
            let ghost views = driver::knob_views(knobs@);
            assert(views == driver::effective_knobs(*variant, *opts));
            match knobs.get(name.as_str()) {
                Some(v) => {
                    assert(views.contains_key(name@) && views[name@] == v@);
                    Some(driver::knob_text(v))
                },
                None => {
                    assert(!views.contains_key(name@));
                    None
                },
            }
        },
        Some(Placeholder::Container(c)) => {
            let name = text::string_of(c);
            if entrant.has_container(name.as_str()) {
                Some(name_of_container(name.as_str()))
            } else {
                None
            }
        },
    }
}

/// An environment value as the container sees it. The knobs are those that the
/// record reports.
pub fn substitute(
    raw: &str,
    entrant: &Entrant,
    variant: &Variant,
    ep: &Endpoints,
    opts: &RunOptions,
    group_id: &str,
) -> (r: Result<String, String>)
    ensures
        match r {
            Ok(s) => substituted(raw@, *variant, *ep, *opts, group_id@, entrant.containers())
                == Ok::<Seq<char>, Seq<char>>(s@),
            Err(e) => substituted(raw@, *variant, *ep, *opts, group_id@, entrant.containers())
                == Err::<Seq<char>, Seq<char>>(e@),
        },
{
    let knobs = opts.knobs_for(variant);
    let v = text::chars_of(raw);
    let toks = entrant::placeholder_tokens(v.as_slice());
    let ghost all = entrant::token_views(toks@);
    let mut out = raw.to_owned();
    let mut i: usize = 0;
    proof {
        lemma_token_text(raw@);
    }
    while i < toks.len()
        invariant
            i <= toks.len(),
            all == entrant::token_views(toks@),
            all == entrant::tokens(raw@),
            driver::is_effective(knobs, *variant, *opts),
            forall|k: int|
                0 <= k < entrant::tokens(raw@).len() && entrant::tokens(raw@)[k].1 is Some ==> (
                #[trigger] entrant::tokens(raw@)[k]).0.len() > 0,
            out@ == filled(
                raw@,
                all.take(i as int),
                *variant,
                *ep,
                *opts,
                group_id@,
                entrant.containers(),
            ),
        decreases toks.len() - i,
    {
        assert(all.take(i + 1).drop_last() =~= all.take(i as int));
        let (token, inner) = toks[i];
        assert(all.take(i + 1).last() == entrant::token_view((token, inner)));
        assert(entrant::tokens(raw@)[i as int] == entrant::token_view((token, inner)));
        if let Some(value) = resolve(inner, &knobs, ep, opts, group_id, entrant, variant) {
            let name = text::string_of(token);
            out = text::replaced(out.as_str(), name.as_str(), value.as_str());
        }
        i = i + 1;
    }
    assert(all.take(i as int) =~= all);
    if text::str_has(out.as_str(), "{{") {
        let mut m = "REFUSED: unresolved placeholder in ".to_owned();
        m.append(text::quoted(raw).as_str());
        m.append(" (produced ");
        m.append(text::quoted(out.as_str()).as_str());
        m.append(
            "). A placeholder that reaches the container is read as a literal, so the arm would run misconfigured while the record claimed otherwise.",
        );
        return Err(m);
    }
    Ok(out)
}

// ---------------------------------------------------------------------------
// Containers
// ---------------------------------------------------------------------------

/// Names and values, as characters.
pub open spec fn pair_views(v: Seq<(String, String)>) -> Seq<(Seq<char>, Seq<char>)> {
    v.map_values(|e: (String, String)| (e.0@, e.1@))
}

/// The environment of an arm's containers, or the first refusal in it.
pub open spec fn arm_env(
    raw: Seq<(Seq<char>, String)>,
    variant: Variant,
    ep: Endpoints,
    opts: RunOptions,
    group_id: Seq<char>,
    containers: Seq<Container>,
) -> Result<Seq<(Seq<char>, Seq<char>)>, Seq<char>>
    decreases raw.len(),
{
    if raw.len() == 0 {
        Ok(Seq::empty())
    } else {
        match arm_env(raw.drop_last(), variant, ep, opts, group_id, containers) {
            Err(e) => Err(e),
            Ok(before) => match substituted(
                raw.last().1@,
                variant,
                ep,
                opts,
                group_id,
                containers,
            ) {
                Ok(v) => Ok(before.push((raw.last().0, v))),
                Err(e) => Err(e),
            },
        }
    }
}

proof fn lemma_env_stops(
    raw: Seq<(Seq<char>, String)>,
    n: int,
    variant: Variant,
    ep: Endpoints,
    opts: RunOptions,
    group_id: Seq<char>,
    containers: Seq<Container>,
)
    requires
        0 <= n <= raw.len(),
        arm_env(raw.take(n), variant, ep, opts, group_id, containers) is Err,
    ensures
        arm_env(raw, variant, ep, opts, group_id, containers) == arm_env(
            raw.take(n),
            variant,
            ep,
            opts,
            group_id,
            containers,
        ),
    decreases raw.len() - n,
{
    if n == raw.len() {
        assert(raw.take(n) =~= raw);
    } else {
        assert(raw.take(n + 1).drop_last() =~= raw.take(n));
        lemma_env_stops(raw, n + 1, variant, ep, opts, group_id, containers);
    }
}

/// The raw environment of an arm: the entrant's, then the variant's.
pub open spec fn raw_env(arm: Arm) -> Seq<(Seq<char>, String)> {
    arm.entrant.spec.env.seq() + arm.variant.env.seq()
}

/// Extends `out`, which holds the environment of the first `start` values, by
/// those of `env`.
fn extend_env(
    arm: &Arm<'_>,
    env: &Table<String>,
    Ghost(start): Ghost<int>,
    ep: &Endpoints,
    opts: &RunOptions,
    group_id: &str,
    out: &mut Vec<(String, String)>,
) -> (r: Result<(), String>)
    requires
        0 <= start,
        start + env.seq().len() <= raw_env(*arm).len(),
        raw_env(*arm).subrange(start, start + env.seq().len()) == env.seq(),
        arm_env(
            raw_env(*arm).take(start),
            *arm.variant,
            *ep,
            *opts,
            group_id@,
            arm.entrant.containers(),
        ) == Ok::<Seq<(Seq<char>, Seq<char>)>, Seq<char>>(pair_views(old(out)@)),
    ensures
        match r {
            Ok(_) => arm_env(
                raw_env(*arm).take(start + env.seq().len()),
                *arm.variant,
                *ep,
                *opts,
                group_id@,
                arm.entrant.containers(),
            ) == Ok::<Seq<(Seq<char>, Seq<char>)>, Seq<char>>(pair_views(final(out)@)),
            Err(e) => arm_env(
                raw_env(*arm),
                *arm.variant,
                *ep,
                *opts,
                group_id@,
                arm.entrant.containers(),
            ) == Err::<Seq<(Seq<char>, Seq<char>)>, Seq<char>>(e@),
        },
{
    let ghost raw = raw_env(*arm);
    let entries = env.entries();
    let ghost mine = env.seq();
    let mut i: usize = 0;
    assert(mine.len() == entries@.len());
    while i < entries.len()
        invariant
            i <= entries.len(),
            raw == raw_env(*arm),
            mine == table::pairs(entries@),
            mine.len() == entries@.len(),
            0 <= start,
            start + mine.len() <= raw.len(),
            raw.subrange(start, start + mine.len()) == mine,
            arm_env(
                raw.take(start + i),
                *arm.variant,
                *ep,
                *opts,
                group_id@,
                arm.entrant.containers(),
            ) == Ok::<Seq<(Seq<char>, Seq<char>)>, Seq<char>>(pair_views(out@)),
        decreases entries.len() - i,
    {
        let ghost was = pair_views(out@);
        let ghost next = raw.take(start + i + 1);
        proof {
            assert(next.drop_last() =~= raw.take(start + i));
            assert(raw.subrange(start, start + mine.len())[i as int] == raw[start + i]);
            assert(next.last() == (entries@[i as int].0@, entries@[i as int].1));
        }
        match substitute(
            entries[i].1.as_str(),
            arm.entrant,
            arm.variant,
            ep,
            opts,
            group_id,
        ) {
            Err(e) => {
                proof {
                    lemma_env_stops(
                        raw,
                        start + i + 1,
                        *arm.variant,
                        *ep,
                        *opts,
                        group_id@,
                        arm.entrant.containers(),
                    );
                }
                return Err(e);
            },
            Ok(v) => {
                let key = entries[i].0.as_str().to_owned();
                out.push((key, v));
                assert(pair_views(out@) =~= was.push((key@, v@)));
            },
        }
        i = i + 1;
    }
    Ok(())
}

fn env_for(arm: &Arm<'_>, ep: &Endpoints, opts: &RunOptions, group_id: &str) -> (r: Result<
    Vec<(String, String)>,
    String,
>)
    ensures
        match r {
            Ok(v) => arm_env(
                raw_env(*arm),
                *arm.variant,
                *ep,
                *opts,
                group_id@,
                arm.entrant.containers(),
            ) == Ok::<Seq<(Seq<char>, Seq<char>)>, Seq<char>>(pair_views(v@)),
            Err(e) => arm_env(
                raw_env(*arm),
                *arm.variant,
                *ep,
                *opts,
                group_id@,
                arm.entrant.containers(),
            ) == Err::<Seq<(Seq<char>, Seq<char>)>, Seq<char>>(e@),
        },
{
    let mut out: Vec<(String, String)> = Vec::new();
    let ghost raw = raw_env(*arm);
    let ghost n = arm.entrant.spec.env.seq().len() as int;
    assert(pair_views(out@) =~= Seq::empty());
    assert(raw.take(0) =~= Seq::empty());
    assert(raw.subrange(0, n) =~= arm.entrant.spec.env.seq());
    if let Err(e) = extend_env(
        arm,
        &arm.entrant.spec.env,
        Ghost(0int),
        ep,
        opts,
        group_id,
        &mut out,
    ) {
        return Err(e);
    }
    assert(raw.subrange(n, n + arm.variant.env.seq().len()) =~= arm.variant.env.seq());
    if let Err(e) = extend_env(arm, &arm.variant.env, Ghost(n), ep, opts, group_id, &mut out) {
        return Err(e);
    }
    assert(raw.take(raw.len() as int) =~= raw);
    Ok(out)
}

/// Whether a container coordinates.
pub open spec fn leads(c: Container) -> bool {
    c.role == Role::ControlPlane
}

/// Those of the containers that coordinate, or those that do not, in order.
pub open spec fn chosen(cs: Seq<Container>, lead: bool) -> Seq<Container>
    decreases cs.len(),
{
    if cs.len() == 0 {
        Seq::empty()
    } else {
        let before = chosen(cs.drop_last(), lead);
        if leads(cs.last()) == lead {
            before.push(cs.last())
        } else {
            before
        }
    }
}

/// The order in which an arm's containers are started: those that coordinate
/// first, or the others would spend the beginning of the window on retries.
pub open spec fn start_order(cs: Seq<Container>) -> Seq<Container> {
    chosen(cs, true) + chosen(cs, false)
}

/// The volumes of an arm.
pub open spec fn volumes_of(arm: Arm) -> Seq<Seq<char>> {
    match arm.entrant.spec.volumes {
        Some(v) => text::strings(v.named@),
        None => Seq::empty(),
    }
}

/// Whether `s` starts the container `c`.
pub open spec fn starts(
    s: SutSpec,
    c: Container,
    image: Seq<char>,
    env: Seq<(Seq<char>, Seq<char>)>,
    volumes: Seq<Seq<char>>,
) -> bool {
    &&& s.name@ == container_name(c.name@)
    &&& s.image@ == image
    &&& s.cpus@ == c.cpus@
    &&& s.memory@ == c.memory@
    &&& pair_views(s.env@) == env
    &&& text::strings(s.args@) == text::strings(c.args@)
    &&& text::strings(s.volumes@) == volumes
}

/// Whether `specs` start the containers `cs`, each in its place.
pub open spec fn starts_all(
    specs: Seq<SutSpec>,
    cs: Seq<Container>,
    image: Seq<char>,
    env: Seq<(Seq<char>, Seq<char>)>,
    volumes: Seq<Seq<char>>,
) -> bool {
    &&& specs.len() == cs.len()
    &&& forall|i: int|
        0 <= i < specs.len() ==> starts(#[trigger] specs[i], cs[i], image, env, volumes)
}

/// The consumer group of one run: fresh each time, since a group that committed
/// its offsets would resume at the tail and consume nothing.
pub open spec fn group_of(arm: Arm, id: Seq<char>) -> Seq<char> {
    "comparison-"@ + arm.entrant.spec.entrant.id@ + "-"@ + arm.variant.id@ + "-"@ + id
}

/// Why an arm cannot be started, if it cannot. An arm without containers has
/// nothing to configure.
pub open spec fn specs_refusal(arm: Arm, ep: Endpoints, opts: RunOptions, id: Seq<char>) -> Option<
    Seq<char>,
> {
    match arm.entrant.spec.envelope {
        None => Some("entrant has no envelope"@),
        Some(e) => if e.containers@.len() == 0 {
            None
        } else {
            match arm_env(
                raw_env(arm),
                *arm.variant,
                ep,
                opts,
                group_of(arm, id),
                arm.entrant.containers(),
            ) {
                Err(m) => Some(m),
                Ok(_) => None,
            }
        },
    }
}

/// The environment of an arm's containers, where there is one.
pub open spec fn env_of(arm: Arm, ep: Endpoints, opts: RunOptions, id: Seq<char>) -> Seq<
    (Seq<char>, Seq<char>),
> {
    arm_env(
        raw_env(arm),
        *arm.variant,
        ep,
        opts,
        group_of(arm, id),
        arm.entrant.containers(),
    )->Ok_0
}

fn copied_pairs(v: &Vec<(String, String)>) -> (out: Vec<(String, String)>)
    ensures
        pair_views(out@) == pair_views(v@),
{
    let mut out: Vec<(String, String)> = Vec::new();
    let mut i: usize = 0;
    while i < v.len()
        invariant
            i <= v.len(),
            pair_views(out@) == pair_views(v@).take(i as int),
        decreases v.len() - i,
    {
        let ghost was = pair_views(out@);
        let a = v[i].0.as_str().to_owned();
        let b = v[i].1.as_str().to_owned();
        out.push((a, b));
        assert(pair_views(out@) =~= was.push((a@, b@)));
        assert(pair_views(v@)[i as int] == (a@, b@));
        assert(pair_views(v@).take(i + 1) =~= was.push((a@, b@)));
        i = i + 1;
    }
    assert(pair_views(v@).take(i as int) =~= pair_views(v@));
    out
}

fn push_chosen(
    cs: &[Container],
    lead: bool,
    image: &str,
    env: &Vec<(String, String)>,
    volumes: &Vec<String>,
    out: &mut Vec<SutSpec>,
    Ghost(before): Ghost<Seq<Container>>,
)
    requires
        starts_all(old(out)@, before, image@, pair_views(env@), text::strings(volumes@)),
    ensures
        starts_all(
            final(out)@,
            before + chosen(cs@, lead),
            image@,
            pair_views(env@),
            text::strings(volumes@),
        ),
{
    let mut i: usize = 0;
    assert(before + chosen(cs@.take(0), lead) =~= before);
    while i < cs.len()
        invariant
            i <= cs.len(),
            starts_all(
                out@,
                before + chosen(cs@.take(i as int), lead),
                image@,
                pair_views(env@),
                text::strings(volumes@),
            ),
        decreases cs.len() - i,
    {
        assert(cs@.take(i + 1).drop_last() =~= cs@.take(i as int));
        let ghost so_far = before + chosen(cs@.take(i as int), lead);
        let leads = match cs[i].role {
            Role::ControlPlane => true,
            Role::DataPlane => false,
        };
        if leads == lead {
            let spec = SutSpec {
                name: name_of_container(cs[i].name.as_str()),
                image: image.to_owned(),
                cpus: cs[i].cpus.as_str().to_owned(),
                memory: cs[i].memory.as_str().to_owned(),
                env: copied_pairs(env),
                args: text::copies(cs[i].args.as_slice()),
                volumes: text::copies(volumes.as_slice()),
            };
            out.push(spec);
            assert(before + chosen(cs@.take(i + 1), lead) =~= so_far.push(cs@[i as int]));
        }
        i = i + 1;
    }
    assert(cs@.take(i as int) =~= cs@);
}

/// What an arm's containers are started with, for the consumer group with the
/// identifier `id`.
pub fn specs_for(
    arm: &Arm<'_>,
    ep: &Endpoints,
    opts: &RunOptions,
    image: &str,
    id: &str,
) -> (r: Result<Vec<SutSpec>, String>)
    ensures
        match r {
            Ok(specs) => {
                &&& specs_refusal(*arm, *ep, *opts, id@) is None
                &&& starts_all(
                    specs@,
                    start_order(arm.entrant.containers()),
                    image@,
                    env_of(*arm, *ep, *opts, id@),
                    volumes_of(*arm),
                )
            },
            Err(e) => specs_refusal(*arm, *ep, *opts, id@) == Some(e@),
        },
{
    let envelope = match &arm.entrant.spec.envelope {
        None => {
            return Err("entrant has no envelope".to_owned());
        },
        Some(e) => e,
    };
    let cs = envelope.containers.as_slice();
    let mut specs: Vec<SutSpec> = Vec::new();
    if cs.len() == 0 {
        assert(start_order(arm.entrant.containers()) =~= Seq::empty());
        return Ok(specs);
    }
    let mut group = "comparison-".to_owned();
    group.append(arm.entrant.id());
    group.append("-");
    group.append(arm.variant.id.as_str());
    group.append("-");
    group.append(id);
    let env = match env_for(arm, ep, opts, group.as_str()) {
        Err(e) => {
            return Err(e);
        },
        Ok(v) => v,
    };
    let volumes: Vec<String> = match &arm.entrant.spec.volumes {
        Some(v) => text::copies(v.named.as_slice()),
        None => Vec::new(),
    };
    assert(text::strings(volumes@) =~= volumes_of(*arm));
    push_chosen(
        cs,
        true,
        image,
        &env,
        &volumes,
        &mut specs,
        Ghost(Seq::<Container>::empty()),
    );
    assert(Seq::<Container>::empty() + chosen(cs@, true) =~= chosen(cs@, true));
    push_chosen(cs, false, image, &env, &volumes, &mut specs, Ghost(chosen(cs@, true)));
    Ok(specs)
}

/// What an arm's containers are started with, for a consumer group of its own.
pub fn build_specs(arm: &Arm<'_>, ep: &Endpoints, opts: &RunOptions, image: &str) -> (r: Result<
    Vec<SutSpec>,
    String,
>)
    ensures
        exists|id: Seq<char>| #[trigger]
            report::is_simple_id(id) && match r {
                Ok(specs) => {
                    &&& specs_refusal(*arm, *ep, *opts, id) is None
                    &&& starts_all(
                        specs@,
                        start_order(arm.entrant.containers()),
                        image@,
                        env_of(*arm, *ep, *opts, id),
                        volumes_of(*arm),
                    )
                },
                Err(e) => specs_refusal(*arm, *ep, *opts, id) == Some(e@),
            },
{
    let id = report::fresh_simple_id();
    assert(report::is_simple_id(id@));
    specs_for(arm, ep, opts, image, id.as_str())
}

// ---------------------------------------------------------------------------
// Laws
// ---------------------------------------------------------------------------

/// A value without a placeholder is handed on as it is.
pub proof fn a_plain_value_is_unchanged(
    raw: Seq<char>,
    variant: Variant,
    ep: Endpoints,
    opts: RunOptions,
    group_id: Seq<char>,
    containers: Seq<Container>,
)
    requires
        !text::contains(raw, "{{"@),
    ensures
        substituted(raw, variant, ep, opts, group_id, containers) == Ok::<Seq<char>, Seq<char>>(
            raw,
        ),
{
    text::lemma_first_from(raw, "{{"@, 0);
    if let Some(k) = text::first(raw, "{{"@) {
        assert(text::occurs(raw, "{{"@, k));
    }
    assert(entrant::tokens(raw) =~= Seq::empty());
}

proof fn lemma_env_is_resolved(
    raw: Seq<(Seq<char>, String)>,
    variant: Variant,
    ep: Endpoints,
    opts: RunOptions,
    group_id: Seq<char>,
    containers: Seq<Container>,
)
    ensures
        arm_env(raw, variant, ep, opts, group_id, containers) matches Ok(env) ==> forall|i: int|
            0 <= i < env.len() ==> !text::contains((#[trigger] env[i]).1, "{{"@),
    decreases raw.len(),
{
    if raw.len() > 0 {
        lemma_env_is_resolved(raw.drop_last(), variant, ep, opts, group_id, containers);
    }
}

/// No container is started with a placeholder in its environment: it would read
/// the placeholder as a literal, while the record claimed the value.
pub proof fn no_placeholder_reaches_a_container(
    specs: Seq<SutSpec>,
    arm: Arm,
    ep: Endpoints,
    opts: RunOptions,
    image: Seq<char>,
    id: Seq<char>,
    i: int,
    j: int,
)
    requires
        specs_refusal(arm, ep, opts, id) is None,
        starts_all(
            specs,
            start_order(arm.entrant.containers()),
            image,
            env_of(arm, ep, opts, id),
            volumes_of(arm),
        ),
        0 <= i < specs.len(),
        0 <= j < specs[i].env@.len(),
    ensures
        !text::contains(specs[i].env@[j].1@, "{{"@),
{
    let cs = arm.entrant.containers();
    if cs.len() == 0 {
        assert(start_order(cs) =~= Seq::empty());
    }
    lemma_env_is_resolved(
        raw_env(arm),
        *arm.variant,
        ep,
        opts,
        group_of(arm, id),
        arm.entrant.containers(),
    );
    assert(starts(specs[i], start_order(cs)[i], image, env_of(arm, ep, opts, id), volumes_of(arm)));
    assert(pair_views(specs[i].env@)[j] == env_of(arm, ep, opts, id)[j]);
}

proof fn lemma_chosen(cs: Seq<Container>, lead: bool)
    ensures
        forall|i: int|
            0 <= i < chosen(cs, lead).len() ==> leads(#[trigger] chosen(cs, lead)[i]) == lead,
    decreases cs.len(),
{
    if cs.len() > 0 {
        lemma_chosen(cs.drop_last(), lead);
        let before = chosen(cs.drop_last(), lead);
        let all = chosen(cs, lead);
        assert forall|i: int| 0 <= i < all.len() implies leads(#[trigger] all[i]) == lead by {
            if i < before.len() {
                assert(all[i] == before[i]);
            }
        }
    }
}

/// What coordinates is started before what does not: nothing of the data plane
/// precedes a container of the control plane.
pub proof fn coordinators_start_first(cs: Seq<Container>, i: int, j: int)
    requires
        0 <= i < j < start_order(cs).len(),
        start_order(cs)[j].role == Role::ControlPlane,
    ensures
        start_order(cs)[i].role == Role::ControlPlane,
{
    lemma_chosen(cs, true);
    lemma_chosen(cs, false);
    let n = chosen(cs, true).len();
    if j >= n {
        assert(leads(chosen(cs, false)[j - n]) == false);
    } else {
        assert(leads(chosen(cs, true)[i]));
    }
}

proof fn lemma_each_is_chosen(cs: Seq<Container>)
    ensures
        (chosen(cs, true) + chosen(cs, false)).to_multiset() == cs.to_multiset(),
    decreases cs.len(),
{
    broadcast use vstd::seq_lib::group_to_multiset_ensures;

    if cs.len() > 0 {
        let before = cs.drop_last();
        let c = cs.last();
        lemma_each_is_chosen(before);
        assert(cs =~= before.push(c));
        vstd::seq_lib::lemma_multiset_commutative(chosen(before, true), chosen(before, false));
        vstd::seq_lib::lemma_multiset_commutative(chosen(cs, true), chosen(cs, false));
        assert((chosen(cs, true) + chosen(cs, false)).to_multiset() =~= cs.to_multiset());
    }
}

/// Every container of an arm is started, and none of them twice.
pub proof fn every_container_is_started_once(cs: Seq<Container>)
    ensures
        start_order(cs).to_multiset() == cs.to_multiset(),
{
    lemma_each_is_chosen(cs);
}

/// What validation accepts for a variant has a value, and what has a value was
/// accepted, as long as the invocation brings no knobs of its own. With overrides
/// the first half holds still.
pub proof fn validation_and_substitution_agree(
    token: (Seq<char>, Option<Seq<char>>),
    variant: Variant,
    ep: Endpoints,
    opts: RunOptions,
    group_id: Seq<char>,
    containers: Seq<Container>,
)
    ensures
        entrant::resolves(token, seq![variant], containers) ==> value_of(
            token.1,
            variant,
            ep,
            opts,
            group_id,
            containers,
        ) is Some,
        opts.knobs@ == Map::<Seq<char>, Knob>::empty() && value_of(
            token.1,
            variant,
            ep,
            opts,
            group_id,
            containers,
        ) is Some ==> entrant::resolves(token, seq![variant], containers),
{
    let one = seq![variant];
    assert(one[0] == variant);
    if token.1 is Some {
        if let Some(Placeholder::Knob(k)) = entrant::placeholder(token.1->0) {
            let own = driver::knob_views(variant.knobs@);
            let knobs = driver::effective_knobs(variant, opts);
            assert(own.contains_key(k) == variant.knobs@.contains_key(k));
            assert(own.contains_key(k) ==> knobs.contains_key(k));
            if opts.knobs@ == Map::<Seq<char>, Knob>::empty() {
                assert(driver::knob_views(opts.knobs@).dom() =~= Set::<Seq<char>>::empty());
                assert(knobs.contains_key(k) == own.contains_key(k));
            }
        }
    }
}

/// Each placeholder of the vocabulary is filled with what it is called after: the
/// address of its own service, the run's own topic and group, and the reset that the
/// mode calls for.
pub proof fn each_placeholder_is_filled_with_its_own(
    variant: Variant,
    ep: Endpoints,
    opts: RunOptions,
    group_id: Seq<char>,
    containers: Seq<Container>,
)
    ensures
        value_of(Some("broker_internal"@), variant, ep, opts, group_id, containers) == Some(ep.bootstrap_internal@),
        value_of(Some("registry_internal"@), variant, ep, opts, group_id, containers) == Some(ep.registry_internal@),
        value_of(Some("clickhouse_internal"@), variant, ep, opts, group_id, containers) == Some(ep.ch_internal@),
        value_of(Some("clickhouse_password"@), variant, ep, opts, group_id, containers) == Some(ep.ch_password@),
        value_of(Some("group_id"@), variant, ep, opts, group_id, containers) == Some(group_id),
        value_of(Some("topic"@), variant, ep, opts, group_id, containers) == Some(
            match opts.mode {
                Mode::Drain => opts.topic@,
                Mode::Sustained { .. } => opts.topic@ + "-sustained"@,
            },
        ),
        value_of(Some("offset_reset"@), variant, ep, opts, group_id, containers) == Some(
            match opts.mode {
                Mode::Drain => "earliest"@,
                Mode::Sustained { .. } => "latest"@,
            },
        ),
{
    reveal_strlit("broker_internal");
    reveal_strlit("registry_internal");
    reveal_strlit("clickhouse_internal");
    reveal_strlit("clickhouse_password");
    reveal_strlit("topic");
    reveal_strlit("group_id");
    reveal_strlit("offset_reset");
    reveal_strlit("knob:");
    reveal_strlit("container:");
    assert("registry_internal"@.len() != "broker_internal"@.len());
    assert("clickhouse_internal"@.len() == 19 && "clickhouse_password"@.len() == 19);
    assert("clickhouse_internal"@[11] != "clickhouse_password"@[11]);
}

/// A knob is filled with the value that the options give it, or else with the one that
/// the variant declares; a container with its network name.
pub proof fn a_knob_or_a_container_is_filled_by_name(
    name: Seq<char>,
    variant: Variant,
    ep: Endpoints,
    opts: RunOptions,
    group_id: Seq<char>,
    containers: Seq<Container>,
)
    ensures
        value_of(Some("knob:"@ + name), variant, ep, opts, group_id, containers)
            == if opts.knobs@.contains_key(name) {
            Some(driver::knob_word(opts.knobs@[name]@))
        } else if variant.knobs@.contains_key(name) {
            Some(driver::knob_word(variant.knobs@[name]@))
        } else {
            None
        },
        value_of(Some("container:"@ + name), variant, ep, opts, group_id, containers)
            == if entrant::is_container(containers, name) {
            Some("spate-bench-sut-"@ + name)
        } else {
            None
        },
{
    reveal_strlit("broker_internal");
    reveal_strlit("registry_internal");
    reveal_strlit("clickhouse_internal");
    reveal_strlit("clickhouse_password");
    reveal_strlit("topic");
    reveal_strlit("group_id");
    reveal_strlit("offset_reset");
    reveal_strlit("knob:");
    reveal_strlit("container:");
    let (k, c) = ("knob:"@ + name, "container:"@ + name);
    assert(k[0] == 'k' && c[0] == 'c' && c[1] == 'o');
    assert(k.take(5) =~= "knob:"@ && k.skip(5) =~= name);
    assert(c.take(10) =~= "container:"@ && c.skip(10) =~= name);
    assert(c.take(5)[0] == 'c');
    assert(k.subrange(0, 5) =~= "knob:"@);
    assert(c.subrange(0, 10) =~= "container:"@);
    assert(c.subrange(0, 5)[0] == 'c');
    assert(entrant::placeholder(k) == Some(Placeholder::Knob(name)));
    assert(entrant::placeholder(c) == Some(Placeholder::Container(name)));
}

} // verus!
