//! What stands under each name of a record.
//!
//! The laws here look the figures of a record up by their names, as its readers
//! do, and hold each against the counts that were observed.

use vstd::prelude::*;
use crate::about;
use crate::about::is_about;
use crate::about::within;
use crate::big;
use crate::double;
use crate::double::Double;
use crate::driver::Arm;
use crate::driver::RunOptions;
use crate::driver::figures;
use crate::driver::figures::Gc;
use crate::driver::figures::Load;
use crate::driver::measure::Measurement;
use crate::driver::measure::Observations;
use crate::driver::measure::Workload;
use crate::driver::record;
use crate::environment::Environment;
use crate::jvm::GcSummary;
use crate::report::Flag;
use crate::report::Infra;
use crate::report::MetricView;
use crate::report::Report;
use crate::report::Sitting;
use crate::report::Sut;
use crate::sampler::INTERVAL_MS;
use crate::sampler::SutCost;
use crate::serverside::MergeActivity;
use crate::serverside::ServerSideCost;

verus! {

/// What a record publishes under a name.
pub open spec fn published(r: Report, name: Seq<char>) -> Option<MetricView> {
    if r.metrics@.contains_key(name) {
        Some(r.metrics@[name]@)
    } else {
        None
    }
}

/// Whether a record is one of what was observed of a window, whoever ran it and
/// whatever else the record says.
pub open spec fn is_measured(r: Report, o: Observations, w: Workload, duplicates: u64) -> bool {
    exists|
        sitting: Sitting,
        env: Environment,
        infra: Infra,
        arm: Arm,
        opts: RunOptions,
        rep: u32,
        sut: Sut,
        base: Seq<Flag>,
        m: Measurement,
    | #[trigger]
        record::is_record_of(
            r,
            sitting,
            env,
            infra,
            arm,
            opts,
            rep,
            sut,
            base,
            Ok::<Measurement, String>(m),
        ) && m.is_of(o, w, duplicates)
}

/// Whether a figure is there, in a unit and with a direction, on its own.
pub open spec fn stands(p: Option<MetricView>, unit: Seq<char>, higher: bool) -> bool {
    p matches Some(v) && v.unit == unit && v.higher_is_better == higher && v.ci95 is None
        && v.n is None
}

/// Whether `x` is the count `n` itself.
pub open spec fn is_count(x: Double, n: nat) -> bool {
    &&& x is Finite
    &&& !x.is_negative()
    &&& x.magnitude() == n * double::one_in_units()
}

/// Whether `x` is the count `n`: itself where a double can hold it, and to one
/// part in `2^48` where not.
pub open spec fn counts(x: Double, n: nat) -> bool {
    &&& n < 0x20_0000_0000_0000 ==> is_count(x, n)
    &&& is_about(x, n, 1)
}

// ---------------------------------------------------------------------------
// Looking a figure up
// ---------------------------------------------------------------------------

/// The last figure of a list that has a name.
spec fn found(list: Seq<(Seq<char>, MetricView)>, k: Seq<char>) -> Option<MetricView>
    decreases list.len(),
{
    if list.len() == 0 {
        None
    } else if list.last().0 == k {
        Some(list.last().1)
    } else {
        found(list.drop_last(), k)
    }
}

proof fn lemma_found_in_map(list: Seq<(Seq<char>, MetricView)>, k: Seq<char>)
    ensures
        ({
            let m = record::with_figures(Map::empty(), list);
            m.contains_key(k) == (found(list, k) is Some) && (found(list, k) matches Some(v) ==> m[k]
                == v)
        }),
    decreases list.len(),
{
    if list.len() > 0 {
        lemma_found_in_map(list.drop_last(), k);
    }
}

proof fn lemma_found_sum(
    a: Seq<(Seq<char>, MetricView)>,
    b: Seq<(Seq<char>, MetricView)>,
    k: Seq<char>,
)
    ensures
        found(a + b, k) == (match found(b, k) {
            Some(v) => Some(v),
            None => found(a, k),
        }),
    decreases b.len(),
{
    if b.len() == 0 {
        assert(a + b =~= a);
    } else {
        assert((a + b).drop_last() =~= a + b.drop_last());
        lemma_found_sum(a, b.drop_last(), k);
    }
}

proof fn lemma_not_found(list: Seq<(Seq<char>, MetricView)>, k: Seq<char>)
    requires
        forall|j: int| 0 <= j < list.len() ==> (#[trigger] list[j]).0 != k,
    ensures
        found(list, k) is None,
    decreases list.len(),
{
    if list.len() > 0 {
        assert forall|j: int| 0 <= j < list.drop_last().len() implies (
        #[trigger] list.drop_last()[j]).0 != k by {
            assert(list.drop_last()[j] == list[j]);
        }
        lemma_not_found(list.drop_last(), k);
        assert(list[list.len() - 1].0 != k);
    }
}

proof fn lemma_found_at(list: Seq<(Seq<char>, MetricView)>, i: int)
    requires
        0 <= i < list.len(),
        forall|j: int| i < j < list.len() ==> (#[trigger] list[j]).0 != list[i].0,
    ensures
        found(list, list[i].0) == Some(list[i].1),
    decreases list.len(),
{
    if i < list.len() - 1 {
        assert(list[list.len() - 1].0 != list[i].0);
        let less = list.drop_last();
        assert forall|j: int| i < j < less.len() implies (#[trigger] less[j]).0 != less[i].0 by {
            assert(less[j] == list[j]);
        }
        lemma_found_at(less, i);
    }
}

proof fn lemma_found_if_known(name: Seq<char>, m: Option<MetricView>, k: Seq<char>)
    ensures
        found(figures::if_known(name, m), k) == (if name == k {
            m
        } else {
            None
        }),
{
    reveal_with_fuel(found, 2);
    if m is Some {
        let l = figures::if_known(name, m);
        assert(l.drop_last() =~= Seq::empty());
    }
}

// ---------------------------------------------------------------------------
// The names
// ---------------------------------------------------------------------------

proof fn lemma_own_names()
    ensures
        "rows_per_s"@.len() == 10 && "rows_per_s"@[0] == 'r',
        "cpu_us_per_row"@.len() == 14 && "cpu_us_per_row"@[0] == 'c' && "cpu_us_per_row"@[1] == 'p',
        "cores_used"@.len() == 10 && "cores_used"@[0] == 'c' && "cores_used"@[1] == 'o'
            && "cores_used"@[2] == 'r',
        "rows_per_s_per_core"@.len() == 19 && "rows_per_s_per_core"@[0] == 'r',
        "peak_anon_bytes"@.len() == 15 && "peak_anon_bytes"@[0] == 'p',
        "peak_charged_bytes"@.len() == 18 && "peak_charged_bytes"@[0] == 'p',
        "throttled_us"@.len() == 12 && "throttled_us"@[0] == 't',
        "duplicate_rows"@.len() == 14 && "duplicate_rows"@[0] == 'd' && "duplicate_rows"@[1] == 'u',
{
    reveal_strlit("rows_per_s");
    reveal_strlit("cpu_us_per_row");
    reveal_strlit("cores_used");
    reveal_strlit("rows_per_s_per_core");
    reveal_strlit("peak_anon_bytes");
    reveal_strlit("peak_charged_bytes");
    reveal_strlit("throttled_us");
    reveal_strlit("duplicate_rows");
}

proof fn lemma_data_plane_names()
    ensures
        "data_plane_cores_used"@.len() == 21 && "data_plane_cores_used"@[0] == 'd'
            && "data_plane_cores_used"@[1] == 'a',
        "data_plane_peak_anon_bytes"@.len() == 26 && "data_plane_peak_anon_bytes"@[0] == 'd'
            && "data_plane_peak_anon_bytes"@[1] == 'a',
{
    reveal_strlit("data_plane_cores_used");
    reveal_strlit("data_plane_peak_anon_bytes");
}

/// Whether a name begins as those of the target's figures do.
spec fn of_target(k: Seq<char>) -> bool {
    (k[0] == 'c' && k[1] == 'h') || k[0] == 'w'
}

proof fn lemma_target_names()
    ensures
        "ch_cpu_us_per_row"@.len() == 17 && "ch_cpu_us_per_row"@[9] == '_',
        "ch_cpu_us_per_written_row"@.len() == 25,
        "ch_cpu_us"@.len() == 9,
        "ch_written_rows"@.len() == 15,
        "ch_rows_per_insert"@.len() == 18,
        "ch_cpu_wait_us"@.len() == 14 && "ch_cpu_wait_us"@[9] == 'i',
        "ch_inserted_bytes"@.len() == 17 && "ch_inserted_bytes"@[9] == 'e',
        "ch_rows_merged"@.len() == 14 && "ch_rows_merged"@[9] == 'e',
        "ch_merge_duration_us"@.len() == 20,
        "ch_settle_us"@.len() == 12,
        "window_resolution"@.len() == 17,
        "ch_cpu_us_per_row"@[0] == 'c' && "ch_cpu_us_per_row"@[1] == 'h',
        "ch_cpu_us_per_written_row"@[0] == 'c' && "ch_cpu_us_per_written_row"@[1] == 'h',
        "ch_cpu_us"@[0] == 'c' && "ch_cpu_us"@[1] == 'h',
        "ch_written_rows"@[0] == 'c' && "ch_written_rows"@[1] == 'h',
        "ch_rows_per_insert"@[0] == 'c' && "ch_rows_per_insert"@[1] == 'h',
        "ch_cpu_wait_us"@[0] == 'c' && "ch_cpu_wait_us"@[1] == 'h',
        "ch_inserted_bytes"@[0] == 'c' && "ch_inserted_bytes"@[1] == 'h',
        "ch_rows_merged"@[0] == 'c' && "ch_rows_merged"@[1] == 'h',
        "ch_merge_duration_us"@[0] == 'c' && "ch_merge_duration_us"@[1] == 'h',
        "ch_settle_us"@[0] == 'c' && "ch_settle_us"@[1] == 'h',
        "window_resolution"@[0] == 'w',
{
    reveal_strlit("ch_cpu_us_per_row");
    reveal_strlit("ch_cpu_us_per_written_row");
    reveal_strlit("ch_cpu_us");
    reveal_strlit("ch_written_rows");
    reveal_strlit("ch_rows_per_insert");
    reveal_strlit("ch_cpu_wait_us");
    reveal_strlit("ch_inserted_bytes");
    reveal_strlit("ch_rows_merged");
    reveal_strlit("ch_merge_duration_us");
    reveal_strlit("ch_settle_us");
    reveal_strlit("window_resolution");
}

/// Whether a name begins as those of the collectors' figures do.
spec fn of_gc(k: Seq<char>) -> bool {
    k[0] == 'g' || k[0] == 'j' || (k[0] == 'c' && k[1] == 'o' && k[2] == 'n')
}

proof fn lemma_gc_names()
    ensures
        ""@ =~= Seq::<char>::empty(),
        "control_plane_"@.len() == 14 && "control_plane_"@[0] == 'c' && "control_plane_"@[1] == 'o'
            && "control_plane_"@[2] == 'n',
        "gc_pause_total_us"@.len() == 17 && "gc_pause_total_us"@[0] == 'g',
        "gc_pause_max_us"@.len() == 15 && "gc_pause_max_us"@[0] == 'g' && "gc_pause_max_us"@[9]
            == 'm',
        "gc_pause_p99_us"@.len() == 15 && "gc_pause_p99_us"@[0] == 'g' && "gc_pause_p99_us"@[9]
            == 'p',
        "gc_pause_p999_us"@.len() == 16 && "gc_pause_p999_us"@[0] == 'g',
        "jvm_heap_configured_bytes"@.len() == 25 && "jvm_heap_configured_bytes"@[0] == 'j',
        "jvm_heap_committed_peak_bytes"@.len() == 29 && "jvm_heap_committed_peak_bytes"@[0] == 'j',
        "jvm_heap_live_peak_bytes"@.len() == 24 && "jvm_heap_live_peak_bytes"@[0] == 'j',
{
    reveal_strlit("");
    reveal_strlit("control_plane_");
    reveal_strlit("gc_pause_total_us");
    reveal_strlit("gc_pause_max_us");
    reveal_strlit("gc_pause_p99_us");
    reveal_strlit("gc_pause_p999_us");
    reveal_strlit("jvm_heap_configured_bytes");
    reveal_strlit("jvm_heap_committed_peak_bytes");
    reveal_strlit("jvm_heap_live_peak_bytes");
}

/// Whether a name begins as those of one mode's figures do.
spec fn of_mode(k: Seq<char>) -> bool {
    k[0] == 'k' || k[0] == 'o' || k[0] == 'm' || k[0] == 'l' || k[0] == 'b'
}

proof fn lemma_mode_names()
    ensures
        "kept_up_share"@.len() == 13 && "kept_up_share"@[0] == 'k',
        "offered_rows_per_s"@.len() == 18 && "offered_rows_per_s"@[0] == 'o',
        "max_schedule_lag_us"@.len() == 19 && "max_schedule_lag_us"@[0] == 'm',
        "latency"@.len() == 7 && "latency"@[0] == 'l',
        "backlog_age"@.len() == 11 && "backlog_age"@[0] == 'b',
        "_p50_us"@.len() == 7 && "_p50_us"@[2] == '5',
        "_p99_us"@.len() == 7 && "_p99_us"@[2] == '9',
        "_p999_us"@.len() == 8,
        "_max_us"@.len() == 7 && "_max_us"@[2] == 'a',
        "_rows"@.len() == 5,
{
    reveal_strlit("kept_up_share");
    reveal_strlit("offered_rows_per_s");
    reveal_strlit("max_schedule_lag_us");
    reveal_strlit("latency");
    reveal_strlit("backlog_age");
    reveal_strlit("_p50_us");
    reveal_strlit("_p99_us");
    reveal_strlit("_p999_us");
    reveal_strlit("_max_us");
    reveal_strlit("_rows");
}

// ---------------------------------------------------------------------------
// What each part of a record publishes
// ---------------------------------------------------------------------------

#[verifier::spinoff_prover]
proof fn lemma_not_own(m: Measurement, k: Seq<char>)
    requires
        of_target(k) || of_gc(k) || of_mode(k) || (k[0] == 'd' && k[1] == 'a'),
    ensures
        found(record::own_figures(m), k) is None,
{
    lemma_own_names();
    lemma_not_found(record::own_figures(m), k);
}

#[verifier::spinoff_prover]
proof fn lemma_not_data_plane(c: Option<SutCost>, k: Seq<char>)
    requires
        !(k[0] == 'd' && k[1] == 'a'),
    ensures
        found(record::data_plane_figures(c), k) is None,
{
    lemma_data_plane_names();
    lemma_not_found(record::data_plane_figures(c), k);
}

#[verifier::spinoff_prover]
proof fn lemma_not_target(m: Measurement, k: Seq<char>)
    requires
        !of_target(k),
    ensures
        found(record::target_figures(m), k) is None,
{
    lemma_target_names();
    if let Some(c) = m.server {
        lemma_not_found(figures::server_figures(c, m.rows), k);
    }
    lemma_not_found(record::target_figures(m), k);
}

/// What one virtual machine publishes under a name.
#[verifier::rlimit(40)]
#[verifier::spinoff_prover]
proof fn lemma_machine(prefix: Seq<char>, s: GcSummary, k: Seq<char>)
    ensures
        ({
            let f = found(figures::gc_figures_for(prefix, s), k);
            &&& k == prefix + "gc_pause_total_us"@ ==> f == Some(figures::microseconds(s.total_us))
            &&& k == prefix + "gc_pause_max_us"@ ==> f == Some(figures::microseconds(s.max_us))
            &&& k == prefix + "gc_pause_p99_us"@ ==> f == Some(figures::microseconds(s.p99_us))
            &&& k == prefix + "gc_pause_p999_us"@ ==> f == Some(figures::microseconds(s.p999_us))
            &&& k == prefix + "jvm_heap_configured_bytes"@ ==> f == figures::heap(
                s.configured.max_bytes,
            )
            &&& k == prefix + "jvm_heap_committed_peak_bytes"@ ==> f == figures::heap(
                s.peak_committed_bytes,
            )
            &&& k == prefix + "jvm_heap_live_peak_bytes"@ ==> f == figures::heap(s.peak_live_bytes)
            &&& f is Some ==> k.len() > prefix.len() && k.take(prefix.len() as int) == prefix && (
            k[prefix.len() as int] == 'g' || k[prefix.len() as int] == 'j')
        }),
{
    lemma_gc_names();
    let l = prefix.len() as int;
    let a = prefix + "gc_pause_total_us"@;
    let b = prefix + "gc_pause_max_us"@;
    let c = prefix + "gc_pause_p99_us"@;
    let d = prefix + "gc_pause_p999_us"@;
    let e = prefix + "jvm_heap_configured_bytes"@;
    let f = prefix + "jvm_heap_committed_peak_bytes"@;
    let g = prefix + "jvm_heap_live_peak_bytes"@;
    assert(b[l + 9] == 'm' && c[l + 9] == 'p');
    assert(a.take(l) =~= prefix && b.take(l) =~= prefix && c.take(l) =~= prefix && d.take(l)
        =~= prefix && e.take(l) =~= prefix && f.take(l) =~= prefix && g.take(l) =~= prefix);
    assert(a[l] == 'g' && b[l] == 'g' && c[l] == 'g' && d[l] == 'g' && e[l] == 'j' && f[l] == 'j'
        && g[l] == 'j');
    let first = seq![
        (a, figures::microseconds(s.total_us)),
        (b, figures::microseconds(s.max_us)),
        (c, figures::microseconds(s.p99_us)),
        (d, figures::microseconds(s.p999_us)),
    ];
    let x = figures::if_known(e, figures::heap(s.configured.max_bytes));
    let y = figures::if_known(f, figures::heap(s.peak_committed_bytes));
    let z = figures::if_known(g, figures::heap(s.peak_live_bytes));
    lemma_found_sum(first, x, k);
    lemma_found_sum(first + x, y, k);
    lemma_found_sum(first + x + y, z, k);
    lemma_found_if_known(e, figures::heap(s.configured.max_bytes), k);
    lemma_found_if_known(f, figures::heap(s.peak_committed_bytes), k);
    lemma_found_if_known(g, figures::heap(s.peak_live_bytes), k);
    assert(first[0].0 == a && first[1].0 == b && first[2].0 == c && first[3].0 == d);
    if k == a {
        lemma_found_at(first, 0);
    } else if k == b {
        lemma_found_at(first, 1);
    } else if k == c {
        lemma_found_at(first, 2);
    } else if k == d {
        lemma_found_at(first, 3);
    } else {
        lemma_not_found(first, k);
    }
}

#[verifier::spinoff_prover]
proof fn lemma_not_gc(gc: Gc, k: Seq<char>)
    requires
        !of_gc(k),
    ensures
        found(figures::gc_figures(gc), k) is None,
{
    lemma_machines(gc, k);
    lemma_gc_names();
    if let Some(s) = gc.data_plane {
        lemma_machine(""@, s, k);
    }
    if let Some(s) = gc.control_plane {
        lemma_machine("control_plane_"@, s, k);
        let p = "control_plane_"@;
        if found(figures::gc_figures_for(p, s), k) is Some {
            assert(k.take(14)[0] == 'c' && k.take(14)[1] == 'o' && k.take(14)[2] == 'n');
        }
    }
}

/// Both planes are looked up, the control plane first.
proof fn lemma_machines(gc: Gc, k: Seq<char>)
    ensures
        found(figures::gc_figures(gc), k) == (match gc.control_plane {
            Some(s) if found(figures::gc_figures_for("control_plane_"@, s), k) is Some => found(
                figures::gc_figures_for("control_plane_"@, s),
                k,
            ),
            _ => match gc.data_plane {
                Some(s) => found(figures::gc_figures_for(""@, s), k),
                None => None,
            },
        }),
{
    let a = match gc.data_plane {
        Some(s) => figures::gc_figures_for(""@, s),
        None => Seq::empty(),
    };
    let b = match gc.control_plane {
        Some(s) => figures::gc_figures_for("control_plane_"@, s),
        None => Seq::empty(),
    };
    lemma_found_sum(a, b, k);
}

#[verifier::spinoff_prover]
proof fn lemma_not_mode(load: Load, k: Seq<char>)
    requires
        !of_mode(k),
    ensures
        found(figures::mode_figures(load), k) is None,
{
    lemma_mode_names();
    lemma_not_found(figures::mode_figures(load), k);
}

/// Each name is looked up in the part that it belongs to.
#[verifier::spinoff_prover]
proof fn lemma_parts(m: Measurement, k: Seq<char>)
    ensures
        of_mode(k) ==> found(record::all_figures(m), k) == found(figures::mode_figures(m.load), k),
        of_gc(k) ==> found(record::all_figures(m), k) == found(figures::gc_figures(m.gc), k),
        of_target(k) ==> found(record::all_figures(m), k) == found(record::target_figures(m), k),
        k[0] == 'd' && k[1] == 'a' ==> found(record::all_figures(m), k) == found(
            record::data_plane_figures(m.data_plane),
            k,
        ),
        !of_mode(k) && !of_gc(k) && !of_target(k) && !(k[0] == 'd' && k[1] == 'a') ==> found(
            record::all_figures(m),
            k,
        ) == found(record::own_figures(m), k),
{
    let a = record::own_figures(m);
    let b = record::data_plane_figures(m.data_plane);
    let c = record::target_figures(m);
    let d = figures::gc_figures(m.gc);
    let e = figures::mode_figures(m.load);
    lemma_found_sum(a, b, k);
    lemma_found_sum(a + b, c, k);
    lemma_found_sum(a + b + c, d, k);
    lemma_found_sum(a + b + c + d, e, k);
    if of_target(k) || of_gc(k) || of_mode(k) || (k[0] == 'd' && k[1] == 'a') {
        lemma_not_own(m, k);
    }
    if !(k[0] == 'd' && k[1] == 'a') {
        lemma_not_data_plane(m.data_plane, k);
    }
    if !of_target(k) {
        lemma_not_target(m, k);
    }
    if !of_gc(k) {
        lemma_not_gc(m.gc, k);
    }
    if !of_mode(k) {
        lemma_not_mode(m.load, k);
    }
}

/// What a record of a measurement publishes is what its figures name.
#[verifier::spinoff_prover]
proof fn lemma_published(r: Report, o: Observations, w: Workload, duplicates: u64) -> (m:
    Measurement)
    requires
        is_measured(r, o, w, duplicates),
    ensures
        m.is_of(o, w, duplicates),
        forall|k: Seq<char>| #[trigger]
            published(r, k) == found(record::all_figures(m), k),
{
    let (sitting, env, infra, arm, opts, rep, sut, base, m) = choose|
        sitting: Sitting,
        env: Environment,
        infra: Infra,
        arm: Arm,
        opts: RunOptions,
        rep: u32,
        sut: Sut,
        base: Seq<Flag>,
        m: Measurement,
    | #[trigger]
        record::is_record_of(
            r,
            sitting,
            env,
            infra,
            arm,
            opts,
            rep,
            sut,
            base,
            Ok::<Measurement, String>(m),
        ) && m.is_of(o, w, duplicates);
    let all = record::metric_views(r.metrics@);
    assert forall|k: Seq<char>| #[trigger]
        published(r, k) == found(record::all_figures(m), k) by {
        lemma_found_in_map(record::all_figures(m), k);
        assert(all.contains_key(k) == r.metrics@.contains_key(k));
    }
    m
}

/// The figures that every measurement has.
#[verifier::rlimit(40)]
#[verifier::spinoff_prover]
proof fn lemma_own(m: Measurement)
    ensures
        forall|i: int| #![trigger record::own_figures(m)[i]]
            0 <= i < 8 ==> found(record::all_figures(m), record::own_figures(m)[i].0) == Some(
                record::own_figures(m)[i].1,
            ),
{
    lemma_own_names();
    let own = record::own_figures(m);
    assert forall|i: int| #![trigger record::own_figures(m)[i]]
        0 <= i < 8 implies found(record::all_figures(m), own[i].0) == Some(own[i].1) by {
        lemma_parts(m, own[i].0);
        lemma_found_at(own, i);
    }
}


proof fn lemma_counts(n: nat)
    requires
        n <= u128::MAX,
    ensures
        counts(double::of(n), n),
{
    about::a_count(n);
    about::lemma_weaken(double::of(n), n, 1, 1, 32);
    if n < 0x20_0000_0000_0000 {
        double::a_small_integer_is_a_double(n);
    }
}

// ---------------------------------------------------------------------------
// Laws: what every measurement publishes
// ---------------------------------------------------------------------------

/// The rates of a record are those of what was counted: under `cpu_us_per_row`
/// stand the CPU microseconds over the rows that landed, under `rows_per_s` those
/// rows over the seconds of the window, under `cores_used` the CPU time over the
/// window, and under `rows_per_s_per_core` the rows over the CPU seconds.
#[verifier::rlimit(60)]
#[verifier::spinoff_prover]
pub proof fn the_published_rates_are_those_of_the_counts(
    r: Report,
    o: Observations,
    w: Workload,
    duplicates: u64,
)
    requires
        is_measured(r, o, w, duplicates),
        o.cost.window_ms > 0,
    ensures
        stands(published(r, "cpu_us_per_row"@), "us"@, false),
        stands(published(r, "rows_per_s"@), "records/s"@, true),
        stands(published(r, "cores_used"@), "cores"@, false),
        stands(published(r, "rows_per_s_per_core"@), "records/s"@, true),
        o.held.landed() > 0 ==> is_about(
            published(r, "cpu_us_per_row"@)->0.value,
            o.cost.cpu_us as nat,
            o.held.landed() as nat,
        ),
        o.held.landed() == 0 ==> published(r, "cpu_us_per_row"@)->0.value is NaN,
        is_about(
            published(r, "rows_per_s"@)->0.value,
            o.held.landed() as nat * 1000,
            o.cost.window_ms as nat,
        ),
        is_about(
            published(r, "cores_used"@)->0.value,
            o.cost.cpu_us as nat,
            o.cost.window_ms as nat * 1000,
        ),
        o.cost.cpu_us > 0 ==> is_about(
            published(r, "rows_per_s_per_core"@)->0.value,
            o.held.landed() as nat * 1_000_000,
            o.cost.cpu_us as nat,
        ),
        o.cost.cpu_us == 0 ==> published(r, "rows_per_s_per_core"@)->0.value == Double::zero(false),
{
    let m = lemma_published(r, o, w, duplicates);
    lemma_own(m);
    let own = record::own_figures(m);
    let cost = o.cost;
    let rows = o.held.landed();
    let (c, t, n) = (cost.cpu_us as nat, cost.window_ms as nat, rows as nat);
    assert(own[0].0 == "rows_per_s"@ && own[1].0 == "cpu_us_per_row"@ && own[2].0 == "cores_used"@
        && own[3].0 == "rows_per_s_per_core"@);
    crate::sampler::every_rate_is_its_quotient(cost, rows);
    if n > 0 {
        about::lemma_weaken(cost.per_row(rows), c, n, 6, 32);
    }
    about::lemma_weaken(cost.throughput(rows), n * 1000, t, 11, 32);
    about::lemma_weaken(cost.cores(), c, t * 1000, 15, 32);
    if c > 0 {
        about::lemma_something(cost.cores(), c, t * 1000, 15);
        let x = cost.throughput(rows).over(cost.cores());
        let (p, q) = ((n * 1000) * (t * 1000), t * c);
        if n > 0 {
            assert(0 < p <= 0x1_0000_0000_0000_0000_0000_0000_0000_0000_0000_0000_0000_0000
                && 0 < q <= 0x1_0000_0000_0000_0000_0000_0000_0000_0000_0000_0000_0000_0000)
                by (nonlinear_arith)
                requires
                    p == (n * 1000) * (t * 1000),
                    q == t * c,
                    0 < n <= 0xffff_ffff_ffff_ffff,
                    0 < t <= 0xffff_ffff_ffff_ffff,
                    0 < c <= 0xffff_ffff_ffff_ffff_ffff_ffff_ffff_ffff,
            ;
            about::counts_are_moderate(p, q);
        }
        about::a_quotient_is_about(
            cost.throughput(rows),
            n * 1000,
            t,
            11,
            cost.cores(),
            c,
            t * 1000,
            15,
        );
        assert(p * c == q * (n * 1_000_000) && q > 0) by (nonlinear_arith)
            requires
                p == (n * 1000) * (t * 1000),
                q == t * c,
                t > 0,
                c > 0,
        ;
        about::the_same_ratio(x, p, q, n * 1_000_000, c, 30);
        about::lemma_weaken(x, n * 1_000_000, c, 30, 32);
    } else {
        assert(cost.cores().magnitude() == 0) by {
            let z = cost.cores().magnitude();
            let d = t * 1000;
            assert((0x20_0000_0000_0000 + 15) * (0 * double::one_in_units()) == 0)
                by (nonlinear_arith);
            assert(z == 0) by (nonlinear_arith)
                requires
                    0x20_0000_0000_0000 * (z * d) <= 0,
                    d > 0,
                    z >= 0,
            ;
        }
        assert(Double::zero(false).magnitude() == 0) by {
            assert(0 * big::two(0) == 0) by (nonlinear_arith);
        }
    }
}

/// The identity by which a record agrees with itself, between what stands under
/// its names: the CPU microseconds per row times the rows per second are a million
/// times the cores used, to one part in `2^50`.
#[verifier::spinoff_prover]
pub proof fn the_published_rates_agree(
    r: Report,
    o: Observations,
    w: Workload,
    duplicates: u64,
)
    requires
        is_measured(r, o, w, duplicates),
        o.cost.window_ms > 0,
        o.held.landed() > 0,
    ensures
        published(r, "cpu_us_per_row"@) is Some,
        published(r, "rows_per_s"@) is Some,
        published(r, "cores_used"@) is Some,
        ({
            let per_row = published(r, "cpu_us_per_row"@)->0.value;
            let per_s = published(r, "rows_per_s"@)->0.value;
            let used = published(r, "cores_used"@)->0.value;
            let product = per_row.magnitude() * per_s.magnitude();
            let cores = used.magnitude() * 1_000_000 * double::one_in_units();
            &&& per_row is Finite && per_s is Finite && used is Finite
            &&& 0x3_ffff_ffff_ffff * product <= 0x4_0000_0000_0000 * cores <= 0x4_0000_0000_0001
                * product
        }),
{
    let m = lemma_published(r, o, w, duplicates);
    lemma_own(m);
    let own = record::own_figures(m);
    assert(own[0].0 == "rows_per_s"@ && own[1].0 == "cpu_us_per_row"@ && own[2].0
        == "cores_used"@);
    crate::sampler::cores_are_cost_per_row_times_throughput(o.cost, o.held.landed());
}

/// The counts of a record are the counts that were taken, each under its own name.
#[verifier::spinoff_prover]
pub proof fn the_published_counts_are_what_was_counted(
    r: Report,
    o: Observations,
    w: Workload,
    duplicates: u64,
)
    requires
        is_measured(r, o, w, duplicates),
    ensures
        stands(published(r, "peak_anon_bytes"@), "bytes"@, false),
        stands(published(r, "peak_charged_bytes"@), "bytes"@, false),
        stands(published(r, "throttled_us"@), "us"@, false),
        stands(published(r, "duplicate_rows"@), "rows"@, false),
        counts(published(r, "peak_anon_bytes"@)->0.value, o.cost.peak_anon_bytes as nat),
        counts(published(r, "peak_charged_bytes"@)->0.value, o.cost.peak_charged_bytes as nat),
        counts(published(r, "throttled_us"@)->0.value, o.cost.throttled_us as nat),
        counts(published(r, "duplicate_rows"@)->0.value, duplicates as nat),
{
    let m = lemma_published(r, o, w, duplicates);
    lemma_own(m);
    let own = record::own_figures(m);
    assert(own[4].0 == "peak_anon_bytes"@ && own[5].0 == "peak_charged_bytes"@ && own[6].0
        == "throttled_us"@ && own[7].0 == "duplicate_rows"@);
    lemma_counts(o.cost.peak_anon_bytes as nat);
    lemma_counts(o.cost.peak_charged_bytes as nat);
    lemma_counts(o.cost.throttled_us as nat);
    lemma_counts(duplicates as nat);
}

/// The data plane's figures are its own, and stand in a record where its cost is
/// known and nowhere else.
#[verifier::spinoff_prover]
pub proof fn the_data_plane_is_published_apart(
    r: Report,
    o: Observations,
    w: Workload,
    duplicates: u64,
)
    requires
        is_measured(r, o, w, duplicates),
    ensures
        o.data_plane is None ==> published(r, "data_plane_cores_used"@) is None && published(
            r,
            "data_plane_peak_anon_bytes"@,
        ) is None,
        o.data_plane matches Some(c) ==> {
            &&& stands(published(r, "data_plane_cores_used"@), "cores"@, false)
            &&& stands(published(r, "data_plane_peak_anon_bytes"@), "bytes"@, false)
            &&& c.window_ms > 0 ==> is_about(
                published(r, "data_plane_cores_used"@)->0.value,
                c.cpu_us as nat,
                c.window_ms as nat * 1000,
            )
            &&& counts(
                published(r, "data_plane_peak_anon_bytes"@)->0.value,
                c.peak_anon_bytes as nat,
            )
        },
{
    let m = lemma_published(r, o, w, duplicates);
    lemma_data_plane_names();
    lemma_parts(m, "data_plane_cores_used"@);
    lemma_parts(m, "data_plane_peak_anon_bytes"@);
    let list = record::data_plane_figures(m.data_plane);
    match o.data_plane {
        None => {
            lemma_not_found(list, "data_plane_cores_used"@);
            lemma_not_found(list, "data_plane_peak_anon_bytes"@);
        },
        Some(c) => {
            lemma_found_at(list, 0);
            lemma_found_at(list, 1);
            lemma_counts(c.peak_anon_bytes as nat);
            if c.window_ms > 0 {
                crate::sampler::every_rate_is_its_quotient(c, 0);
                about::lemma_weaken(
                    c.cores(),
                    c.cpu_us as nat,
                    c.window_ms as nat * 1000,
                    15,
                    32,
                );
            }
        },
    }
}


// ---------------------------------------------------------------------------
// Laws: what the collectors and the target publish
// ---------------------------------------------------------------------------

/// Whether a record publishes, behind `prefix`, what one machine's collector did
/// and the heap that it was given and held.
pub open spec fn publishes_machine(r: Report, prefix: Seq<char>, s: Option<GcSummary>) -> bool {
    match s {
        None => {
            &&& published(r, prefix + "gc_pause_total_us"@) is None
            &&& published(r, prefix + "gc_pause_max_us"@) is None
            &&& published(r, prefix + "gc_pause_p99_us"@) is None
            &&& published(r, prefix + "gc_pause_p999_us"@) is None
            &&& published(r, prefix + "jvm_heap_configured_bytes"@) is None
            &&& published(r, prefix + "jvm_heap_committed_peak_bytes"@) is None
            &&& published(r, prefix + "jvm_heap_live_peak_bytes"@) is None
        },
        Some(s) => {
            &&& publishes_value(r, prefix + "gc_pause_total_us"@, "us"@, s.total_us)
            &&& publishes_value(r, prefix + "gc_pause_max_us"@, "us"@, s.max_us)
            &&& publishes_value(r, prefix + "gc_pause_p99_us"@, "us"@, s.p99_us)
            &&& publishes_value(r, prefix + "gc_pause_p999_us"@, "us"@, s.p999_us)
            &&& publishes_size(r, prefix + "jvm_heap_configured_bytes"@, s.configured.max_bytes)
            &&& publishes_size(r, prefix + "jvm_heap_committed_peak_bytes"@, s.peak_committed_bytes)
            &&& publishes_size(r, prefix + "jvm_heap_live_peak_bytes"@, s.peak_live_bytes)
        },
    }
}

/// Whether a record publishes a value, where less is better.
pub open spec fn publishes_value(r: Report, name: Seq<char>, unit: Seq<char>, x: Double) -> bool {
    stands(published(r, name), unit, false) && published(r, name)->0.value == x
}

/// Whether a record publishes a number of bytes, and nothing where there is none.
pub open spec fn publishes_size(r: Report, name: Seq<char>, n: Option<u64>) -> bool {
    match n {
        Some(b) => stands(published(r, name), "bytes"@, false) && counts(
            published(r, name)->0.value,
            b as nat,
        ),
        None => published(r, name) is None,
    }
}

/// Both planes' collectors are published, each machine's under its own names: the
/// total of its pauses, the longest, the two high percentiles, and the heap that it
/// was configured with, committed and left live. A machine that reported nothing
/// publishes nothing.
#[verifier::spinoff_prover]
pub proof fn the_collectors_are_published_apart(
    r: Report,
    o: Observations,
    w: Workload,
    duplicates: u64,
)
    requires
        is_measured(r, o, w, duplicates),
    ensures
        publishes_machine(r, Seq::empty(), o.gc.data_plane),
        publishes_machine(r, "control_plane_"@, o.gc.control_plane),
{
    let m = lemma_published(r, o, w, duplicates);
    lemma_data_plane_machine(r, m);
    lemma_control_plane_machine(r, m);
}

/// What the data plane's machine publishes.
#[verifier::rlimit(60)]
#[verifier::spinoff_prover]
proof fn lemma_data_plane_machine(r: Report, m: Measurement)
    requires
        forall|x: Seq<char>| #[trigger]
            published(r, x) == found(record::all_figures(m), x),
    ensures
        publishes_machine(r, Seq::<char>::empty(), m.gc.data_plane),
{
    if let Some(s) = m.gc.data_plane {
        lemma_heaps(s);
    }
    assert(match m.gc.data_plane {
        None => published(r, Seq::<char>::empty() + "gc_pause_total_us"@) is None,
        Some(s) => publishes_value(r, Seq::<char>::empty() + "gc_pause_total_us"@, "us"@, s.total_us),
    }) by {
        lemma_gc_names();
        lemma_own_machine(r, m, "gc_pause_total_us"@);
    }
    assert(match m.gc.data_plane {
        None => published(r, Seq::<char>::empty() + "gc_pause_max_us"@) is None,
        Some(s) => publishes_value(r, Seq::<char>::empty() + "gc_pause_max_us"@, "us"@, s.max_us),
    }) by {
        lemma_gc_names();
        lemma_own_machine(r, m, "gc_pause_max_us"@);
    }
    assert(match m.gc.data_plane {
        None => published(r, Seq::<char>::empty() + "gc_pause_p99_us"@) is None,
        Some(s) => publishes_value(r, Seq::<char>::empty() + "gc_pause_p99_us"@, "us"@, s.p99_us),
    }) by {
        lemma_gc_names();
        lemma_own_machine(r, m, "gc_pause_p99_us"@);
    }
    assert(match m.gc.data_plane {
        None => published(r, Seq::<char>::empty() + "gc_pause_p999_us"@) is None,
        Some(s) => publishes_value(r, Seq::<char>::empty() + "gc_pause_p999_us"@, "us"@, s.p999_us),
    }) by {
        lemma_gc_names();
        lemma_own_machine(r, m, "gc_pause_p999_us"@);
    }
    assert(match m.gc.data_plane {
        None => published(r, Seq::<char>::empty() + "jvm_heap_configured_bytes"@) is None,
        Some(s) => publishes_size(r, Seq::<char>::empty() + "jvm_heap_configured_bytes"@, s.configured.max_bytes),
    }) by {
        lemma_gc_names();
        lemma_own_machine(r, m, "jvm_heap_configured_bytes"@);
    }
    assert(match m.gc.data_plane {
        None => published(r, Seq::<char>::empty() + "jvm_heap_committed_peak_bytes"@) is None,
        Some(s) => publishes_size(r, Seq::<char>::empty() + "jvm_heap_committed_peak_bytes"@, s.peak_committed_bytes),
    }) by {
        lemma_gc_names();
        lemma_own_machine(r, m, "jvm_heap_committed_peak_bytes"@);
    }
    assert(match m.gc.data_plane {
        None => published(r, Seq::<char>::empty() + "jvm_heap_live_peak_bytes"@) is None,
        Some(s) => publishes_size(r, Seq::<char>::empty() + "jvm_heap_live_peak_bytes"@, s.peak_live_bytes),
    }) by {
        lemma_gc_names();
        lemma_own_machine(r, m, "jvm_heap_live_peak_bytes"@);
    }
}

/// What the control plane's machine publishes.
#[verifier::rlimit(60)]
#[verifier::spinoff_prover]
proof fn lemma_control_plane_machine(r: Report, m: Measurement)
    requires
        forall|x: Seq<char>| #[trigger]
            published(r, x) == found(record::all_figures(m), x),
    ensures
        publishes_machine(r, "control_plane_"@, m.gc.control_plane),
{
    if let Some(s) = m.gc.control_plane {
        lemma_heaps(s);
    }
    assert(match m.gc.control_plane {
        None => published(r, "control_plane_"@ + "gc_pause_total_us"@) is None,
        Some(s) => publishes_value(r, "control_plane_"@ + "gc_pause_total_us"@, "us"@, s.total_us),
    }) by {
        lemma_gc_names();
        lemma_other_machine(r, m, "gc_pause_total_us"@);
    }
    assert(match m.gc.control_plane {
        None => published(r, "control_plane_"@ + "gc_pause_max_us"@) is None,
        Some(s) => publishes_value(r, "control_plane_"@ + "gc_pause_max_us"@, "us"@, s.max_us),
    }) by {
        lemma_gc_names();
        lemma_other_machine(r, m, "gc_pause_max_us"@);
    }
    assert(match m.gc.control_plane {
        None => published(r, "control_plane_"@ + "gc_pause_p99_us"@) is None,
        Some(s) => publishes_value(r, "control_plane_"@ + "gc_pause_p99_us"@, "us"@, s.p99_us),
    }) by {
        lemma_gc_names();
        lemma_other_machine(r, m, "gc_pause_p99_us"@);
    }
    assert(match m.gc.control_plane {
        None => published(r, "control_plane_"@ + "gc_pause_p999_us"@) is None,
        Some(s) => publishes_value(r, "control_plane_"@ + "gc_pause_p999_us"@, "us"@, s.p999_us),
    }) by {
        lemma_gc_names();
        lemma_other_machine(r, m, "gc_pause_p999_us"@);
    }
    assert(match m.gc.control_plane {
        None => published(r, "control_plane_"@ + "jvm_heap_configured_bytes"@) is None,
        Some(s) => publishes_size(r, "control_plane_"@ + "jvm_heap_configured_bytes"@, s.configured.max_bytes),
    }) by {
        lemma_gc_names();
        lemma_other_machine(r, m, "jvm_heap_configured_bytes"@);
    }
    assert(match m.gc.control_plane {
        None => published(r, "control_plane_"@ + "jvm_heap_committed_peak_bytes"@) is None,
        Some(s) => publishes_size(r, "control_plane_"@ + "jvm_heap_committed_peak_bytes"@, s.peak_committed_bytes),
    }) by {
        lemma_gc_names();
        lemma_other_machine(r, m, "jvm_heap_committed_peak_bytes"@);
    }
    assert(match m.gc.control_plane {
        None => published(r, "control_plane_"@ + "jvm_heap_live_peak_bytes"@) is None,
        Some(s) => publishes_size(r, "control_plane_"@ + "jvm_heap_live_peak_bytes"@, s.peak_live_bytes),
    }) by {
        lemma_gc_names();
        lemma_other_machine(r, m, "jvm_heap_live_peak_bytes"@);
    }
}

proof fn lemma_heaps(s: GcSummary)
    ensures
        s.configured.max_bytes matches Some(b) ==> counts(double::of(b as nat), b as nat),
        s.peak_committed_bytes matches Some(b) ==> counts(double::of(b as nat), b as nat),
        s.peak_live_bytes matches Some(b) ==> counts(double::of(b as nat), b as nat),
{
    if let Some(b) = s.configured.max_bytes {
        lemma_counts(b as nat);
    }
    if let Some(b) = s.peak_committed_bytes {
        lemma_counts(b as nat);
    }
    if let Some(b) = s.peak_live_bytes {
        lemma_counts(b as nat);
    }
}

/// The data plane's machine has no prefix.
#[verifier::rlimit(40)]
#[verifier::spinoff_prover]
proof fn lemma_own_machine(r: Report, m: Measurement, k: Seq<char>)
    requires
        k.len() > 0,
        k[0] == 'g' || k[0] == 'j',
        forall|x: Seq<char>| #[trigger]
            published(r, x) == found(record::all_figures(m), x),
    ensures
        Seq::empty() + k == k,
        m.gc.data_plane is None ==> published(r, k) is None,
        m.gc.data_plane matches Some(s) ==> {
            let f = published(r, k);
            &&& k == "gc_pause_total_us"@ ==> f == Some(figures::microseconds(s.total_us))
            &&& k == "gc_pause_max_us"@ ==> f == Some(figures::microseconds(s.max_us))
            &&& k == "gc_pause_p99_us"@ ==> f == Some(figures::microseconds(s.p99_us))
            &&& k == "gc_pause_p999_us"@ ==> f == Some(figures::microseconds(s.p999_us))
            &&& k == "jvm_heap_configured_bytes"@ ==> f == figures::heap(s.configured.max_bytes)
            &&& k == "jvm_heap_committed_peak_bytes"@ ==> f == figures::heap(s.peak_committed_bytes)
            &&& k == "jvm_heap_live_peak_bytes"@ ==> f == figures::heap(s.peak_live_bytes)
        },
{
    lemma_gc_names();
    assert(Seq::empty() + k =~= k);
    assert(""@ + k =~= k);
    assert(published(r, k) == found(record::all_figures(m), k));
    lemma_parts(m, k);
    lemma_machines(m.gc, k);
    if let Some(s) = m.gc.control_plane {
        lemma_machine("control_plane_"@, s, k);
        if found(figures::gc_figures_for("control_plane_"@, s), k) is Some {
            assert(k.take(14)[0] == 'c');
        }
    }
    if let Some(s) = m.gc.data_plane {
        lemma_machine(""@, s, k);
        assert(""@ + "gc_pause_total_us"@ =~= "gc_pause_total_us"@);
        assert(""@ + "gc_pause_max_us"@ =~= "gc_pause_max_us"@);
        assert(""@ + "gc_pause_p99_us"@ =~= "gc_pause_p99_us"@);
        assert(""@ + "gc_pause_p999_us"@ =~= "gc_pause_p999_us"@);
        assert(""@ + "jvm_heap_configured_bytes"@ =~= "jvm_heap_configured_bytes"@);
        assert(""@ + "jvm_heap_committed_peak_bytes"@ =~= "jvm_heap_committed_peak_bytes"@);
        assert(""@ + "jvm_heap_live_peak_bytes"@ =~= "jvm_heap_live_peak_bytes"@);
    }
}

/// The control plane's machine has its own.
#[verifier::rlimit(40)]
#[verifier::spinoff_prover]
proof fn lemma_other_machine(r: Report, m: Measurement, suffix: Seq<char>)
    requires
        suffix.len() > 0,
        suffix[0] == 'g' || suffix[0] == 'j',
        forall|x: Seq<char>| #[trigger]
            published(r, x) == found(record::all_figures(m), x),
    ensures
        m.gc.control_plane is None ==> published(r, "control_plane_"@ + suffix) is None,
        m.gc.control_plane matches Some(s) ==> {
            let f = published(r, "control_plane_"@ + suffix);
            &&& suffix == "gc_pause_total_us"@ ==> f == Some(figures::microseconds(s.total_us))
            &&& suffix == "gc_pause_max_us"@ ==> f == Some(figures::microseconds(s.max_us))
            &&& suffix == "gc_pause_p99_us"@ ==> f == Some(figures::microseconds(s.p99_us))
            &&& suffix == "gc_pause_p999_us"@ ==> f == Some(figures::microseconds(s.p999_us))
            &&& suffix == "jvm_heap_configured_bytes"@ ==> f == figures::heap(
                s.configured.max_bytes,
            )
            &&& suffix == "jvm_heap_committed_peak_bytes"@ ==> f == figures::heap(
                s.peak_committed_bytes,
            )
            &&& suffix == "jvm_heap_live_peak_bytes"@ ==> f == figures::heap(s.peak_live_bytes)
        },
{
    lemma_gc_names();
    let k = "control_plane_"@ + suffix;
    assert(k[0] == 'c' && k[1] == 'o' && k[2] == 'n');
    assert(published(r, k) == found(record::all_figures(m), k));
    lemma_parts(m, k);
    lemma_machines(m.gc, k);
    if let Some(s) = m.gc.data_plane {
        lemma_machine(""@, s, k);
    }
    if let Some(s) = m.gc.control_plane {
        lemma_machine("control_plane_"@, s, k);
    }
}


/// Whether a record publishes a count where less is better, and nothing where it
/// was not reported.
pub open spec fn publishes_count(
    r: Report,
    name: Seq<char>,
    unit: Seq<char>,
    n: Option<u128>,
) -> bool {
    match n {
        Some(b) => stands(published(r, name), unit, false) && counts(
            published(r, name)->0.value,
            b as nat,
        ),
        None => published(r, name) is None,
    }
}

/// What the target is charged with is published where it could be asked, and
/// nothing of it where not: its CPU microseconds over the rows that landed and over
/// those that were written, both counts by themselves, the rows of a mean insert,
/// and the two counters that it may not have reported.
#[verifier::rlimit(60)]
#[verifier::spinoff_prover]
pub proof fn the_cost_of_the_target_is_published(
    r: Report,
    o: Observations,
    w: Workload,
    duplicates: u64,
)
    requires
        is_measured(r, o, w, duplicates),
    ensures
        o.server is None ==> {
            &&& published(r, "ch_cpu_us_per_row"@) is None
            &&& published(r, "ch_cpu_us_per_written_row"@) is None
            &&& published(r, "ch_cpu_us"@) is None
            &&& published(r, "ch_written_rows"@) is None
            &&& published(r, "ch_rows_per_insert"@) is None
            &&& published(r, "ch_cpu_wait_us"@) is None
            &&& published(r, "ch_inserted_bytes"@) is None
        },
        o.server matches Some(c) ==> {
            &&& (published(r, "ch_cpu_us_per_row"@) is None) == (o.held.landed() == 0)
            &&& o.held.landed() > 0 ==> stands(published(r, "ch_cpu_us_per_row"@), "us"@, false)
                && is_about(
                published(r, "ch_cpu_us_per_row"@)->0.value,
                c.cpu_us as nat,
                o.held.landed() as nat,
            )
            &&& (published(r, "ch_cpu_us_per_written_row"@) is None) == (c.written_rows == 0)
            &&& c.written_rows > 0 ==> stands(
                published(r, "ch_cpu_us_per_written_row"@),
                "us"@,
                false,
            ) && is_about(
                published(r, "ch_cpu_us_per_written_row"@)->0.value,
                c.cpu_us as nat,
                c.written_rows as nat,
            )
            &&& publishes_count(r, "ch_cpu_us"@, "us"@, Some(c.cpu_us))
            &&& publishes_count(r, "ch_written_rows"@, "rows"@, Some(c.written_rows))
            &&& stands(published(r, "ch_rows_per_insert"@), "rows"@, true)
            &&& c.queries > 0 ==> is_about(
                published(r, "ch_rows_per_insert"@)->0.value,
                c.written_rows as nat,
                c.queries as nat,
            )
            &&& publishes_count(r, "ch_cpu_wait_us"@, "us"@, c.os_cpu_wait_us)
            &&& publishes_count(r, "ch_inserted_bytes"@, "bytes"@, c.inserted_bytes)
        },
{
    let m = lemma_published(r, o, w, duplicates);
    assert(forall|x: Seq<char>| #[trigger] published(r, x) == found(record::all_figures(m), x));
    lemma_target_names();
    lemma_of_server(m, "ch_cpu_us_per_row"@);
    lemma_of_server(m, "ch_cpu_us_per_written_row"@);
    lemma_of_server(m, "ch_cpu_us"@);
    lemma_of_server(m, "ch_written_rows"@);
    lemma_of_server(m, "ch_rows_per_insert"@);
    lemma_of_server(m, "ch_cpu_wait_us"@);
    lemma_of_server(m, "ch_inserted_bytes"@);
    if let Some(c) = o.server {
        lemma_counts(c.cpu_us as nat);
        lemma_counts(c.written_rows as nat);
        if let Some(n) = c.os_cpu_wait_us {
            lemma_counts(n as nat);
        }
        if let Some(n) = c.inserted_bytes {
            lemma_counts(n as nat);
        }
        lemma_ratio(c.cpu_us as nat, o.held.landed() as nat);
        lemma_ratio(c.cpu_us as nat, c.written_rows as nat);
        lemma_ratio(c.written_rows as nat, c.queries as nat);
    }
}

proof fn lemma_ratio(a: nat, b: nat)
    requires
        a <= u128::MAX,
        b <= u128::MAX,
    ensures
        b > 0 ==> is_about(double::of(a).over(double::of(b)), a, b),
{
    if b > 0 {
        about::a_ratio_of_counts(a, b);
        about::lemma_weaken(double::of(a).over(double::of(b)), a, b, 6, 32);
    }
}

/// What the inserts' figures hold under a name.
#[verifier::rlimit(40)]
#[verifier::spinoff_prover]
proof fn lemma_of_server(m: Measurement, k: Seq<char>)
    requires
        of_target(k),
        k == "ch_cpu_us_per_row"@ || k == "ch_cpu_us_per_written_row"@ || k == "ch_cpu_us"@ || k
            == "ch_written_rows"@ || k == "ch_rows_per_insert"@ || k == "ch_cpu_wait_us"@ || k
            == "ch_inserted_bytes"@,
    ensures
        m.server is None ==> found(record::all_figures(m), k) is None,
        m.server matches Some(c) ==> {
            let f = found(record::all_figures(m), k);
            &&& k == "ch_cpu_us_per_row"@ ==> f == figures::per(c.cpu_us, m.rows as int)
            &&& k == "ch_cpu_us_per_written_row"@ ==> f == figures::per(
                c.cpu_us,
                c.written_rows as int,
            )
            &&& k == "ch_cpu_us"@ ==> f == Some(figures::fewer(c.cpu_us as nat, "us"@))
            &&& k == "ch_written_rows"@ ==> f == Some(
                figures::fewer(c.written_rows as nat, "rows"@),
            )
            &&& k == "ch_rows_per_insert"@ ==> f == Some(
                crate::report::more_is_better(c.batch_size(), "rows"@),
            )
            &&& k == "ch_cpu_wait_us"@ ==> f == figures::reported(c.os_cpu_wait_us, "us"@)
            &&& k == "ch_inserted_bytes"@ ==> f == figures::reported(c.inserted_bytes, "bytes"@)
        },
{
    lemma_target_names();
    lemma_parts(m, k);
    let a = match m.server {
        Some(c) => figures::server_figures(c, m.rows),
        None => Seq::empty(),
    };
    let b = match m.merges {
        Some(x) => figures::merge_figures(x),
        None => Seq::empty(),
    };
    let tail = seq![
        (
            "ch_settle_us"@,
            figures::microseconds(m.settle_s.times(double::of(1_000_000))),
        ),
        (
            "window_resolution"@,
            crate::report::less_is_better(record::resolution(m.cost), "ratio"@),
        ),
    ];
    lemma_found_sum(a, b, k);
    lemma_found_sum(a + b, tail, k);
    lemma_not_found(b, k);
    lemma_not_found(tail, k);
    if let Some(c) = m.server {
        let p = figures::if_known("ch_cpu_us_per_row"@, figures::per(c.cpu_us, m.rows as int));
        let q = figures::if_known(
            "ch_cpu_us_per_written_row"@,
            figures::per(c.cpu_us, c.written_rows as int),
        );
        let three = seq![
            ("ch_cpu_us"@, figures::fewer(c.cpu_us as nat, "us"@)),
            ("ch_written_rows"@, figures::fewer(c.written_rows as nat, "rows"@)),
            ("ch_rows_per_insert"@, crate::report::more_is_better(c.batch_size(), "rows"@)),
        ];
        let x = figures::if_known("ch_cpu_wait_us"@, figures::reported(c.os_cpu_wait_us, "us"@));
        let y = figures::if_known(
            "ch_inserted_bytes"@,
            figures::reported(c.inserted_bytes, "bytes"@),
        );
        lemma_found_sum(p, q, k);
        lemma_found_sum(p + q, three, k);
        lemma_found_sum(p + q + three, x, k);
        lemma_found_sum(p + q + three + x, y, k);
        lemma_found_if_known(
            "ch_cpu_us_per_row"@,
            figures::per(c.cpu_us, m.rows as int),
            k,
        );
        lemma_found_if_known(
            "ch_cpu_us_per_written_row"@,
            figures::per(c.cpu_us, c.written_rows as int),
            k,
        );
        lemma_found_if_known("ch_cpu_wait_us"@, figures::reported(c.os_cpu_wait_us, "us"@), k);
        lemma_found_if_known(
            "ch_inserted_bytes"@,
            figures::reported(c.inserted_bytes, "bytes"@),
            k,
        );
        assert(three[0].0 == "ch_cpu_us"@ && three[1].0 == "ch_written_rows"@ && three[2].0
            == "ch_rows_per_insert"@);
        if k == "ch_cpu_us"@ {
            lemma_found_at(three, 0);
        } else if k == "ch_written_rows"@ {
            lemma_found_at(three, 1);
        } else if k == "ch_rows_per_insert"@ {
            lemma_found_at(three, 2);
        } else {
            lemma_not_found(three, k);
        }
    }
}

#[verifier::spinoff_prover]
proof fn lemma_not_server(c: ServerSideCost, rows: u64, k: Seq<char>)
    requires
        k != "ch_cpu_us_per_row"@,
        k != "ch_cpu_us_per_written_row"@,
        k != "ch_cpu_us"@,
        k != "ch_written_rows"@,
        k != "ch_rows_per_insert"@,
        k != "ch_cpu_wait_us"@,
        k != "ch_inserted_bytes"@,
    ensures
        found(figures::server_figures(c, rows), k) is None,
{
    lemma_not_found(figures::server_figures(c, rows), k);
}

/// What the other figures of the target hold under a name.
#[verifier::rlimit(40)]
#[verifier::spinoff_prover]
proof fn lemma_of_target(m: Measurement, k: Seq<char>)
    requires
        of_target(k),
        k == "ch_rows_merged"@ || k == "ch_merge_duration_us"@ || k == "ch_settle_us"@ || k
            == "window_resolution"@,
    ensures
        ({
            let f = found(record::all_figures(m), k);
            &&& m.merges is None && (k == "ch_rows_merged"@ || k == "ch_merge_duration_us"@) ==> f
                is None
            &&& m.merges matches Some(x) ==> (k == "ch_rows_merged"@ ==> f == Some(
                figures::fewer(x.rows_merged as nat, "rows"@),
            ))
            &&& m.merges matches Some(x) ==> (k == "ch_merge_duration_us"@ ==> f == Some(
                figures::microseconds(double::of(x.duration_ms as nat).times(double::of(1000))),
            ))
            &&& k == "ch_settle_us"@ ==> f == Some(
                figures::microseconds(m.settle_s.times(double::of(1_000_000))),
            )
            &&& k == "window_resolution"@ ==> f == Some(
                crate::report::less_is_better(record::resolution(m.cost), "ratio"@),
            )
        }),
{
    lemma_target_names();
    lemma_parts(m, k);
    let a = match m.server {
        Some(c) => figures::server_figures(c, m.rows),
        None => Seq::empty(),
    };
    let b = match m.merges {
        Some(x) => figures::merge_figures(x),
        None => Seq::empty(),
    };
    let tail = seq![
        (
            "ch_settle_us"@,
            figures::microseconds(m.settle_s.times(double::of(1_000_000))),
        ),
        (
            "window_resolution"@,
            crate::report::less_is_better(record::resolution(m.cost), "ratio"@),
        ),
    ];
    lemma_found_sum(a, b, k);
    lemma_found_sum(a + b, tail, k);
    match m.server {
        Some(c) => {
            lemma_not_server(c, m.rows, k);
        },
        None => {
            lemma_not_found(a, k);
        },
    }
    assert(tail[0].0 == "ch_settle_us"@ && tail[1].0 == "window_resolution"@);
    if k == tail[0].0 {
        lemma_found_at(tail, 0);
    } else if k == tail[1].0 {
        lemma_found_at(tail, 1);
    } else {
        lemma_not_found(tail, k);
        if m.merges is Some {
            assert(b[0].0 == "ch_rows_merged"@ && b[1].0 == "ch_merge_duration_us"@);
            if k == b[0].0 {
                lemma_found_at(b, 0);
            } else {
                lemma_found_at(b, 1);
            }
        } else {
            lemma_not_found(b, k);
        }
    }
}

/// A quotient in one unit, as it is in a smaller one.
proof fn lemma_in_smaller_units(x: Double, num: nat, den: nat, f: nat)
    requires
        within(x, num, den, 14),
        den > 0,
        num <= 0x1_0000_0000_0000_0000_0000_0000_0000_0000,
        den <= 0x1_0000_0000_0000_0000_0000_0000_0000_0000,
        0 < f <= 1_000_000,
    ensures
        is_about(x.times(double::of(f)), num * f, den),
{
    about::a_count(f);
    if num > 0 {
        let p = num * f;
        assert(0 < p <= 0x1_0000_0000_0000_0000_0000_0000_0000_0000_0000_0000_0000_0000)
            by (nonlinear_arith)
            requires
                p == num * f,
                0 < num <= 0x1_0000_0000_0000_0000_0000_0000_0000_0000,
                0 < f <= 1_000_000,
        ;
        about::counts_are_moderate(num * f, den * 1);
    } else {
        assert(0 * f == 0) by (nonlinear_arith);
    }
    about::a_product_is_about(x, num, den, 14, double::of(f), f, 1, 1);
    assert(den * 1 == den);
    about::lemma_weaken(x.times(double::of(f)), num * f, den, 18, 32);
}

/// What the window was like is published with it: the rows that merges read in it
/// and the microseconds that they took, the microseconds that the target needed to
/// become quiet, and how much of the window one reading's interval is.
#[verifier::rlimit(60)]
#[verifier::spinoff_prover]
pub proof fn the_state_of_the_target_is_published(
    r: Report,
    o: Observations,
    w: Workload,
    duplicates: u64,
    num: nat,
    den: nat,
)
    requires
        is_measured(r, o, w, duplicates),
        o.cost.window_ms > 0,
        within(o.settle_s, num, den, 14),
        den > 0,
        num <= 0x1_0000_0000_0000_0000_0000_0000_0000_0000,
        den <= 0x1_0000_0000_0000_0000_0000_0000_0000_0000,
    ensures
        o.merges is None ==> published(r, "ch_rows_merged"@) is None && published(
            r,
            "ch_merge_duration_us"@,
        ) is None,
        o.merges matches Some(x) ==> {
            &&& publishes_count(r, "ch_rows_merged"@, "rows"@, Some(x.rows_merged as u128))
            &&& stands(published(r, "ch_merge_duration_us"@), "us"@, false)
            &&& is_about(
                published(r, "ch_merge_duration_us"@)->0.value,
                x.duration_ms as nat * 1000,
                1,
            )
        },
        stands(published(r, "ch_settle_us"@), "us"@, false),
        is_about(published(r, "ch_settle_us"@)->0.value, num * 1_000_000, den),
        stands(published(r, "window_resolution"@), "ratio"@, false),
        is_about(published(r, "window_resolution"@)->0.value, 100, o.cost.window_ms as nat),
{
    let m = lemma_published(r, o, w, duplicates);
    assert(forall|x: Seq<char>| #[trigger] published(r, x) == found(record::all_figures(m), x));
    lemma_target_names();
    lemma_of_target(m, "ch_rows_merged"@);
    lemma_of_target(m, "ch_merge_duration_us"@);
    lemma_of_target(m, "ch_settle_us"@);
    lemma_of_target(m, "window_resolution"@);
    lemma_in_smaller_units(o.settle_s, num, den, 1_000_000);
    if let Some(x) = o.merges {
        lemma_counts(x.rows_merged as nat);
        about::a_count(x.duration_ms as nat);
        about::lemma_weaken(
            double::of(x.duration_ms as nat),
            x.duration_ms as nat,
            1,
            1,
            14,
        );
        lemma_in_smaller_units(double::of(x.duration_ms as nat), x.duration_ms as nat, 1, 1000);
    }
    lemma_resolution(o.cost);
}

#[verifier::spinoff_prover]
proof fn lemma_resolution(cost: SutCost)
    requires
        cost.window_ms > 0,
    ensures
        is_about(record::resolution(cost), 100, cost.window_ms as nat),
{
    let t = cost.window_ms as nat;
    let s = cost.seconds();
    let tiny = double::quotient(1, 0x10_0000_0000_0000);
    crate::sampler::every_rate_is_its_quotient(cost, 0);
    // A window of a millisecond is longer than the shortest that is told from none.
    about::lemma_ranges();
    let u = double::one_in_units();
    let c = big::two(256);
    let v = big::two(200);
    big::lemma_two_small();
    big::lemma_two_add(53, 147);
    big::lemma_two_add(147, 0);
    assert(v >= 0x20_0000_0000_0000) by (nonlinear_arith)
        requires
            v == 0x20_0000_0000_0000 * big::two(147),
            big::two(147) >= 1,
    ;
    assert(0x20_0000_0000_0000 * 0x10_0000_0000_0000 <= 1 * u && 1 * u <= 0x10_0000_0000_0000 * (u
        * c)) by (nonlinear_arith)
        requires
            u >= v * v * 0x1000_0000_0000_0000_0000,
            c == v * 0x100_0000_0000_0000,
            v >= 0x20_0000_0000_0000,
    {
        assert(v * v >= 0x20_0000_0000_0000 * 0x20_0000_0000_0000);
        assert(c >= 1);
        assert(u * c >= u);
    }
    double::rounding_is_close(false, 1 * u, 0x10_0000_0000_0000);
    let (a, b) = (s.magnitude(), tiny.magnitude());
    assert(u > 0);
    assert(b < a) by (nonlinear_arith)
        requires
            0x20_0000_0000_0000 * (b * 0x10_0000_0000_0000) <= 0x20_0000_0000_0001 * (1 * u),
            (0x20_0000_0000_0000 - 6) * (t * u) <= 0x20_0000_0000_0000 * (a * 1000),
            t >= 1,
            u > 0,
    {
        assert(t * u >= u);
        assert((0x20_0000_0000_0000 - 6) * (t * u) >= (0x20_0000_0000_0000 - 6) * u);
    }
    assert(s.larger(tiny) == s);
    about::a_ratio_of_counts(INTERVAL_MS as nat, 1000);
    about::counts_are_moderate(100 * 1000, 1000 * t);
    about::a_quotient_is_about(
        double::of(INTERVAL_MS as nat).over(double::of(1000)),
        100,
        1000,
        6,
        s,
        t,
        1000,
        6,
    );
    assert((100nat * 1000) * t == (1000nat * t) * 100) by (nonlinear_arith);
    about::the_same_ratio(record::resolution(cost), 100 * 1000, 1000 * t, 100, t, 16);
    about::lemma_weaken(record::resolution(cost), 100, t, 16, 32);
}


// ---------------------------------------------------------------------------
// Laws: what a load publishes
// ---------------------------------------------------------------------------

/// What the figures of a load hold, in their order.
#[verifier::rlimit(40)]
#[verifier::spinoff_prover]
proof fn lemma_of_mode(m: Measurement, s: figures::Sustained, i: int)
    requires
        m.load == Load::Sustained(s),
        0 <= i < 8,
    ensures
        ({
            let list = figures::mode_figures(m.load);
            found(record::all_figures(m), list[i].0) == Some(list[i].1)
        }),
{
    lemma_mode_names();
    let list = figures::mode_figures(m.load);
    let l = s.prefix().len() as int;
    assert(list[3].0[l + 2] == '5' && list[4].0[l + 2] == '9' && list[6].0[l + 2] == 'a');
    assert(list[3].0.len() == l + 7 && list[4].0.len() == l + 7 && list[5].0.len() == l + 8
        && list[6].0.len() == l + 7 && list[7].0.len() == l + 5);
    assert(forall|j: int| 3 <= j < 8 ==> (#[trigger] list[j]).0[0] == s.prefix()[0]);
    lemma_parts(m, list[i].0);
    lemma_found_at(list, i);
}

/// A name that begins otherwise than a load's figures do is not among them.
#[verifier::spinoff_prover]
proof fn lemma_not_of_mode(m: Measurement, k: Seq<char>)
    requires
        k.len() > 0,
        k[0] == 'l' || k[0] == 'b',
        m.load matches Load::Sustained(s) ==> k[0] != s.prefix()[0],
    ensures
        found(record::all_figures(m), k) is None,
{
    lemma_mode_names();
    lemma_parts(m, k);
    let list = figures::mode_figures(m.load);
    if let Load::Sustained(s) = m.load {
        assert(forall|j: int| 3 <= j < 8 ==> (#[trigger] list[j]).0[0] == s.prefix()[0]);
    }
    lemma_not_found(list, k);
}

/// What the names of the latency figures begin with, by the share that is published
/// beside them.
pub open spec fn prefix_by(share: Double) -> Seq<char> {
    if double::quotient(98, 100).le(share) {
        "latency"@
    } else {
        "backlog_age"@
    }
}

/// The latency of a sustained load is published as it was answered: behind the
/// prefix that the published share calls for, `_p50_us`, `_p99_us`, `_p999_us` and
/// `_max_us` are the first, second, third and fourth cell of the answer, and
/// `_rows` is the fifth. Under the other prefix nothing stands. So what is below in
/// the answer is below in the record.
#[verifier::rlimit(60)]
#[verifier::spinoff_prover]
pub proof fn the_latency_is_published_as_it_was_answered(
    r: Report,
    o: Observations,
    w: Workload,
    duplicates: u64,
    out: Seq<char>,
    k: Seq<char>,
)
    requires
        is_measured(r, o, w, duplicates),
        o.held matches crate::driver::measure::Held::Sustained { latency, .. }
            && figures::latency_of(out) == Ok::<figures::Latency, Seq<char>>(latency),
    ensures
        stands(published(r, "kept_up_share"@), "ratio"@, true),
        ({
            let f = figures::cells(crate::text::trim(out));
            let p = prefix_by(published(r, "kept_up_share"@)->0.value);
            let p50 = published(r, p + "_p50_us"@);
            let p99 = published(r, p + "_p99_us"@);
            let p999 = published(r, p + "_p999_us"@);
            let max = published(r, p + "_max_us"@);
            let rows = published(r, p + "_rows"@);
            &&& f.len() >= 5
            &&& stands(p50, "us"@, false) && double::parse(f[0]) == Some(p50->0.value)
            &&& stands(p99, "us"@, false) && double::parse(f[1]) == Some(p99->0.value)
            &&& stands(p999, "us"@, false) && double::parse(f[2]) == Some(p999->0.value)
            &&& stands(max, "us"@, false) && double::parse(f[3]) == Some(max->0.value)
            &&& stands(rows, "rows"@, true)
            &&& crate::text::parse_u64(f[4]) matches Some(n) && counts(rows->0.value, n)
            &&& (double::parse(f[0])->0).lt(double::parse(f[1])->0) ==> p50->0.value.lt(
                p99->0.value,
            )
        }),
        k.len() > 0 && (k[0] == 'l' || k[0] == 'b') && k[0] != prefix_by(
            published(r, "kept_up_share"@)->0.value,
        )[0] ==> published(r, k) is None,
{
    let m = lemma_published(r, o, w, duplicates);
    if let Load::Sustained(s) = m.load {
        lemma_latency(r, m, s);
        lemma_counts(s.latency.rows as nat);
        if k.len() > 0 && (k[0] == 'l' || k[0] == 'b') && k[0] != s.prefix()[0] {
            lemma_not_of_mode(m, k);
            assert(published(r, k) == found(record::all_figures(m), k));
        }
    }
}

/// What a load publishes, by name.
#[verifier::rlimit(40)]
#[verifier::spinoff_prover]
proof fn lemma_latency(r: Report, m: Measurement, s: figures::Sustained)
    requires
        m.load == Load::Sustained(s),
        forall|x: Seq<char>| #[trigger]
            published(r, x) == found(record::all_figures(m), x),
    ensures
        published(r, "kept_up_share"@) == Some(
            crate::report::more_is_better(s.kept_up_share, "ratio"@),
        ),
        published(r, s.prefix() + "_p50_us"@) == Some(figures::microseconds(s.latency.p50_us)),
        published(r, s.prefix() + "_p99_us"@) == Some(figures::microseconds(s.latency.p99_us)),
        published(r, s.prefix() + "_p999_us"@) == Some(figures::microseconds(s.latency.p999_us)),
        published(r, s.prefix() + "_max_us"@) == Some(figures::microseconds(s.latency.max_us)),
        published(r, s.prefix() + "_rows"@) == Some(
            crate::report::more_is_better(double::of(s.latency.rows as nat), "rows"@),
        ),
{
    let list = figures::mode_figures(m.load);
    lemma_of_mode(m, s, 0);
    lemma_of_mode(m, s, 3);
    lemma_of_mode(m, s, 4);
    lemma_of_mode(m, s, 5);
    lemma_of_mode(m, s, 6);
    lemma_of_mode(m, s, 7);
    assert(published(r, list[0].0) == found(record::all_figures(m), list[0].0));
    assert(published(r, list[3].0) == found(record::all_figures(m), list[3].0));
    assert(published(r, list[4].0) == found(record::all_figures(m), list[4].0));
    assert(published(r, list[5].0) == found(record::all_figures(m), list[5].0));
    assert(published(r, list[6].0) == found(record::all_figures(m), list[6].0));
    assert(published(r, list[7].0) == found(record::all_figures(m), list[7].0));
}

/// A drain publishes no latency and no age of a backlog, nor anything else of a
/// load that it did not have.
#[verifier::spinoff_prover]
pub proof fn a_drain_publishes_no_latency(
    r: Report,
    o: Observations,
    w: Workload,
    duplicates: u64,
    k: Seq<char>,
)
    requires
        is_measured(r, o, w, duplicates),
        o.held is Drain,
        k.len() > 0,
        k[0] == 'l' || k[0] == 'b',
    ensures
        published(r, k) is None,
        published(r, "kept_up_share"@) is None,
        published(r, "offered_rows_per_s"@) is None,
        published(r, "max_schedule_lag_us"@) is None,
{
    let m = lemma_published(r, o, w, duplicates);
    assert(forall|x: Seq<char>| #[trigger] published(r, x) == found(record::all_figures(m), x));
    lemma_mode_names();
    lemma_not_of_mode(m, k);
    lemma_parts(m, "kept_up_share"@);
    lemma_parts(m, "offered_rows_per_s"@);
    lemma_parts(m, "max_schedule_lag_us"@);
    let list = figures::mode_figures(m.load);
    lemma_not_found(list, "kept_up_share"@);
    lemma_not_found(list, "offered_rows_per_s"@);
    lemma_not_found(list, "max_schedule_lag_us"@);
}

/// What a sustained load was offered, and how much of it the arm consumed, in
/// counts: the offered rows per second are the offered messages at the rows that
/// one message of the corpus yields, and the share is the rows that landed over
/// those that were offered while the window was open. A share more than one part in
/// a million above ninety-eight hundredths makes the figures latencies, and one as
/// much below makes them the age of a backlog.
#[verifier::rlimit(60)]
#[verifier::spinoff_prover]
pub proof fn the_share_is_of_what_was_offered(
    r: Report,
    o: Observations,
    w: Workload,
    duplicates: u64,
    num: nat,
    den: nat,
)
    requires
        is_measured(r, o, w, duplicates),
        o.cost.window_ms > 0,
        o.held is Sustained,
        w.batches > 0,
        within(o.held->Sustained_report.max_schedule_lag_ms, num, den, 14),
        den > 0,
        num <= 0x1_0000_0000_0000_0000_0000_0000_0000_0000,
        den <= 0x1_0000_0000_0000_0000_0000_0000_0000_0000,
    ensures
        stands(published(r, "offered_rows_per_s"@), "records/s"@, true),
        stands(published(r, "max_schedule_lag_us"@), "us"@, false),
        stands(published(r, "kept_up_share"@), "ratio"@, true),
        ({
            let rate = o.held->Sustained_report.target_rate as nat;
            let offered = published(r, "offered_rows_per_s"@)->0.value;
            let share = published(r, "kept_up_share"@)->0.value;
            let top = o.held.landed() as nat * 1000 * (w.batches as nat);
            let bottom = o.cost.window_ms as nat * (rate * w.expected_rows as nat);
            &&& is_about(offered, rate * w.expected_rows as nat, w.batches as nat)
            &&& rate * w.expected_rows > 0 ==> is_about(share, top, bottom)
            &&& rate * w.expected_rows == 0 ==> share == Double::zero(false)
            &&& rate * w.expected_rows > 0 && 1_000_000 * top >= 980_001 * bottom ==> prefix_by(
                share,
            ) == "latency"@
            &&& rate * w.expected_rows > 0 && 1_000_000 * top <= 979_999 * bottom ==> prefix_by(
                share,
            ) == "backlog_age"@
        }),
        is_about(published(r, "max_schedule_lag_us"@)->0.value, num * 1000, den),
{
    let m = lemma_published(r, o, w, duplicates);
    assert(forall|x: Seq<char>| #[trigger] published(r, x) == found(record::all_figures(m), x));
    if let Load::Sustained(s) = m.load {
        let list = figures::mode_figures(m.load);
        lemma_of_mode(m, s, 0);
        lemma_of_mode(m, s, 1);
        lemma_of_mode(m, s, 2);
        assert(list[0].0 == "kept_up_share"@);
        assert(list[1].0 == "offered_rows_per_s"@);
        assert(list[2].0 == "max_schedule_lag_us"@);
        lemma_in_smaller_units(s.max_schedule_lag_ms, num, den, 1000);
        if let crate::driver::measure::Held::Sustained { rows, report, latency, .. } = o.held {
            lemma_share(w, o.cost, rows, report, latency);
            let rate = report.target_rate as nat;
            let top = rows as nat * 1000 * (w.batches as nat);
            let bottom = o.cost.window_ms as nat * (rate * w.expected_rows as nat);
            if rate * w.expected_rows > 0 {
                assert(bottom > 0) by (nonlinear_arith)
                    requires
                        bottom == o.cost.window_ms as nat * (rate * w.expected_rows as nat),
                        o.cost.window_ms > 0,
                        rate * w.expected_rows as nat > 0,
                ;
                lemma_follows(s.kept_up_share, top, bottom);
            }
        }
    }
}

/// When a share is at least ninety-eight hundredths.
#[verifier::spinoff_prover]
proof fn lemma_follows(x: Double, top: nat, bottom: nat)
    requires
        is_about(x, top, bottom),
        bottom > 0,
    ensures
        1_000_000 * top >= 980_001 * bottom ==> double::quotient(98, 100).le(x),
        1_000_000 * top <= 979_999 * bottom ==> !double::quotient(98, 100).le(x),
{
    about::lemma_ranges();
    let u = double::one_in_units();
    let c = big::two(256);
    let v = big::two(200);
    let q = double::quotient(98, 100);
    assert(0x20_0000_0000_0000 * 100 <= 98 * u && 98 * u <= 100 * (u * c)) by (nonlinear_arith)
        requires
            u >= v * v * 0x1000_0000_0000_0000_0000,
            c == v * 0x100_0000_0000_0000,
            v >= 1,
    {
        assert(v * v >= 1);
        assert(c >= 1);
        assert(u * c >= u);
    }
    double::rounding_is_close(false, 98 * u, 100);
    let (a, b) = (q.magnitude(), x.magnitude());
    let e: int = 0x20_0000_0000_0000;
    assert((e - 1) * (98 * u) <= e * (a * 100) && e * (a * 100) <= (e + 1) * (98 * u));
    if 1_000_000 * top >= 980_001 * bottom {
        assert(a <= b) by (nonlinear_arith)
            requires
                e * (a * 100) <= (e + 1) * (98 * u),
                (e - 32) * (top * u) <= e * (b * bottom),
                1_000_000 * top >= 980_001 * bottom,
                bottom > 0,
                u > 0,
                e == 0x20_0000_0000_0000,
        {
            assert(1_000_000 * (top * u) >= 980_001 * (bottom * u));
            assert((e - 32) * (980_001 * (bottom * u)) <= 1_000_000 * (e * (b * bottom)));
            assert(e * (a * 100) * bottom <= (e + 1) * (98 * u) * bottom);
            assert((e + 1) * (98 * u) * bottom == (e + 1) * 98 * (bottom * u));
            assert(10_000 * ((e + 1) * 98) <= (e - 32) * 980_001);
            assert(10_000 * ((e + 1) * 98 * (bottom * u)) <= (e - 32) * 980_001 * (bottom * u));
            assert(10_000 * (e * (a * 100) * bottom) <= 1_000_000 * (e * (b * bottom)));
            assert((1_000_000 * e) * (a * bottom) <= (1_000_000 * e) * (b * bottom));
            assert(a * bottom <= b * bottom);
        }
    }
    if 1_000_000 * top <= 979_999 * bottom {
        assert(b < a) by (nonlinear_arith)
            requires
                (e - 1) * (98 * u) <= e * (a * 100),
                e * (b * bottom) <= (e + 32) * (top * u),
                1_000_000 * top <= 979_999 * bottom,
                bottom > 0,
                u > 0,
                e == 0x20_0000_0000_0000,
        {
            assert(1_000_000 * (top * u) <= 979_999 * (bottom * u));
            assert(1_000_000 * (e * (b * bottom)) <= (e + 32) * (979_999 * (bottom * u)));
            assert((e - 1) * (98 * u) * bottom <= e * (a * 100) * bottom);
            assert((e - 1) * (98 * u) * bottom == (e - 1) * 98 * (bottom * u));
            assert((e + 32) * 979_999 < 10_000 * ((e - 1) * 98));
            assert(bottom * u > 0);
            assert((e + 32) * 979_999 * (bottom * u) < 10_000 * ((e - 1) * 98) * (bottom * u));
            assert(1_000_000 * (e * (b * bottom)) < 10_000 * (e * (a * 100) * bottom));
            assert((1_000_000 * e) * (b * bottom) < (1_000_000 * e) * (a * bottom));
            assert(b * bottom < a * bottom);
        }
    }
}

#[verifier::spinoff_prover]
proof fn lemma_share(
    w: Workload,
    cost: SutCost,
    rows: u64,
    report: crate::driver::window::LoadReport,
    latency: figures::Latency,
)
    requires
        cost.window_ms > 0,
        w.batches > 0,
    ensures
        ({
            let s = crate::driver::measure::sustained_of(w, cost, rows, report, latency);
            let rate = report.target_rate as nat;
            let top = rows as nat * 1000 * (w.batches as nat);
            let bottom = cost.window_ms as nat * (rate * w.expected_rows as nat);
            &&& is_about(s.offered_rows_per_s, rate * w.expected_rows as nat, w.batches as nat)
            &&& rate * w.expected_rows > 0 ==> is_about(s.kept_up_share, top, bottom)
            &&& rate * w.expected_rows == 0 ==> s.kept_up_share == Double::zero(false)
        }),
{
    let s = crate::driver::measure::sustained_of(w, cost, rows, report, latency);
    let (a, e, b) = (report.target_rate as nat, w.expected_rows as nat, w.batches as nat);
    let (t, n) = (cost.window_ms as nat, rows as nat);
    let y = figures::yield_of(e as int, b as int);
    about::a_ratio_of_counts(e, b);
    about::a_count(a);
    let ae = a * e;
    assert(ae <= 0xffff_ffff_ffff_ffff * 0xffff_ffff_ffff_ffff) by (nonlinear_arith)
        requires
            ae == a * e,
            a <= 0xffff_ffff_ffff_ffff,
            e <= 0xffff_ffff_ffff_ffff,
    ;
    if ae > 0 {
        about::counts_are_moderate(ae, 1 * b);
    }
    about::a_product_is_about(double::of(a), a, 1, 1, y, e, b, 6);
    assert(1 * b == b);
    let offered = s.offered_rows_per_s;
    assert(within(offered, ae, b, 10));
    about::lemma_weaken(offered, ae, b, 10, 32);
    if ae > 0 {
        about::lemma_something(offered, ae, b, 10);
        crate::sampler::every_rate_is_its_quotient(cost, rows);
        let (p, q) = ((n * 1000) * b, t * ae);
        assert(n > 0 ==> 0 < p && p <= 0x1_0000_0000_0000_0000_0000_0000_0000_0000_0000_0000_0000_0000)
            by (nonlinear_arith)
            requires
                p == (n * 1000) * b,
                n <= 0xffff_ffff_ffff_ffff,
                0 < b <= 0xffff_ffff_ffff_ffff,
        ;
        assert(0 < q && q <= 0x1_0000_0000_0000_0000_0000_0000_0000_0000_0000_0000_0000_0000)
            by (nonlinear_arith)
            requires
                q == t * ae,
                0 < t <= 0xffff_ffff_ffff_ffff,
                0 < ae <= 0xffff_ffff_ffff_ffff * 0xffff_ffff_ffff_ffff,
        ;
        if n > 0 {
            about::counts_are_moderate(p, q);
        }
        about::a_quotient_is_about(cost.throughput(rows), n * 1000, t, 11, offered, ae, b, 10);
        about::lemma_weaken(s.kept_up_share, p, q, 25, 32);
    } else {
        let z = offered.magnitude();
        assert((0x20_0000_0000_0000 + 32) * (0 * double::one_in_units()) == 0)
            by (nonlinear_arith);
        assert(z == 0) by (nonlinear_arith)
            requires
                0x20_0000_0000_0000 * (z * b) <= 0,
                b > 0,
                z >= 0,
        ;
        assert(Double::zero(false).magnitude() == 0) by {
            assert(0 * big::two(0) == 0) by (nonlinear_arith);
        }
    }
}

} // verus!
