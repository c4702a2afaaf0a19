use spate_bench::driver::figures::arm_peak_anon;
use spate_bench::driver::figures::gc_metrics;
use spate_bench::driver::figures::mode_metrics;
use spate_bench::driver::figures::rows_per_message;
use spate_bench::driver::figures::sampler_window_ms;
use spate_bench::driver::figures::server_metrics;
use spate_bench::driver::figures::Gc;
use spate_bench::driver::figures::Latency;
use spate_bench::driver::figures::Load;
use spate_bench::driver::figures::Sustained;
use spate_bench::driver::identity::assert_arm_caps;
use spate_bench::driver::identity::assert_pinned_version;
use spate_bench::driver::identity::parse_version;
use spate_bench::driver::load::drain_max_s;
use spate_bench::driver::load::gate_window_batches;
use spate_bench::driver::load::producer_threads;
use spate_bench::driver::load::projected_topic_bytes;
use spate_bench::driver::load::DRAIN_MAX_REFERENCE_BATCHES;
use spate_bench::driver::load::DRAIN_MAX_REFERENCE_S;
use spate_bench::driver::load::PRODUCER_THREAD_MSGS_PER_S;
use spate_bench::driver::load::SUSTAINED_TOPIC_BYTES_MAX;
use spate_bench::driver::load::SUSTAINED_WARMUP_BUDGET_S;
use spate_bench::driver::load::SUSTAINED_WARMUP_MAX_S;
use spate_bench::driver::note::infra_bound_notice;
use spate_bench::driver::note::note_for;
use spate_bench::driver::note::with_logs;
use spate_bench::driver::note::NOTE_MAX_CHARS;
use spate_bench::driver::unrunnable_knobs;
use spate_bench::driver::Mode;
use spate_bench::driver::RunOptions;
use spate_bench::entrant::Approach;
use spate_bench::entrant::Constraint;
use spate_bench::entrant::Container;
use spate_bench::entrant::Knob;
use spate_bench::entrant::Role;
use spate_bench::entrant::Variant;
use spate_bench::environment::HEADROOM_LIMIT;
use spate_bench::jvm::GcSummary;
use spate_bench::jvm::HeapConfig;
use spate_bench::double::Double;
use spate_bench::report::Metric;
use spate_bench::report::Trigger;
use spate_bench::sampler::Sample;
use spate_bench::sampler::Samples;
use spate_bench::serverside::ServerSideCost;
use spate_bench::serverside::Window;
use spate_bench::table::Table;
use std::collections::BTreeMap;

/// The share of the offered rate from which an arm has kept up.
const KEPT_UP_MIN: f64 = 0.98;

/// Events of one message, before the filters.
const EVENTS_PER_BATCH: u32 = 100;

/// Rows that a corpus of ten thousand messages yields.
const EXPECTED_ROWS: u64 = 735_000;

fn number(x: Double) -> f64 {
    f64::from_bits(x.to_bits())
}

fn double(x: f64) -> Double {
    Double::of_bits(x.to_bits())
}

fn value(m: &Metric) -> f64 {
    number(m.value)
}

fn knobs(pairs: &[(&str, i64)]) -> Table<Knob> {
    let mut t = Table::new();
    for (k, v) in pairs {
        t.insert((*k).to_owned(), Knob::Integer(*v));
    }
    t
}

fn integer(t: &Table<Knob>, key: &str) -> Option<i64> {
    match t.get(key) {
        Some(Knob::Integer(n)) => Some(*n),
        _ => None,
    }
}

#[test]
fn the_gate_window_is_a_share_of_the_corpus_bounded_by_memory() {
    let sixteen_gib = 16 * 1024 * 1024 * 1024;
    let reference = gate_window_batches(1_500_000, sixteen_gib);
    assert!(
        (99_000..=102_000).contains(&reference),
        "expected ~100,000 at the reference corpus, got {reference}"
    );
    let long = gate_window_batches(30_000_000, 32 * 1024 * 1024 * 1024);
    assert!(long > reference * 10, "{long} vs {reference}");
    assert!(gate_window_batches(u64::MAX, sixteen_gib) < 600_000);
    assert_eq!(gate_window_batches(1, 0), 1);
}

#[test]
fn the_drain_deadline_scales_with_the_corpus() {
    assert_eq!(
        drain_max_s(DRAIN_MAX_REFERENCE_BATCHES),
        DRAIN_MAX_REFERENCE_S
    );
    assert_eq!(
        drain_max_s(DRAIN_MAX_REFERENCE_BATCHES * 20),
        DRAIN_MAX_REFERENCE_S * 20
    );
    assert_eq!(drain_max_s(1), DRAIN_MAX_REFERENCE_S);
    assert_eq!(drain_max_s(0), DRAIN_MAX_REFERENCE_S);
}

fn tunable_variant() -> Variant {
    Variant {
        id: "rowbinary-nt".to_owned(),
        label: "rowbinary-nt".to_owned(),
        approach: Approach::Realistic,
        unshipped: Vec::new(),
        default: true,
        env: Table::new(),
        knobs: knobs(&[
            ("max_rows", 25_000),
            ("buffered_rows", 50_000),
            ("parallelism", 8),
        ]),
        reports: Table::new(),
    }
}

fn tuning_opts(overrides: &[(&str, i64)]) -> RunOptions {
    RunOptions {
        reps: 1,
        mode: Mode::Drain,
        env_id: "test-env".to_owned(),
        trigger: Trigger::Tuning,
        dry_run: true,
        fresh_infra: false,
        fail_fast: false,
        topic: "bench-events".to_owned(),
        batches: 1_500_000,
        knobs: knobs(overrides),
    }
}

fn buffered_exceeds_batch() -> Constraint {
    Constraint {
        knob: "buffered_rows".to_owned(),
        exceeds: Some("max_rows".to_owned()),
        at_least: None,
        why: "AsyncSinkWriter refuses to construct otherwise.".to_owned(),
    }
}

#[test]
fn an_overridden_knob_replaces_the_declared_one_and_leaves_the_rest_alone() {
    let v = tunable_variant();
    let effective = tuning_opts(&[("max_rows", 262_144)]).knobs_for(&v);
    assert_eq!(integer(&effective, "max_rows"), Some(262_144));
    assert_eq!(integer(&effective, "parallelism"), Some(8));
    assert_eq!(integer(&effective, "buffered_rows"), Some(50_000));
    assert_eq!(integer(&v.knobs, "max_rows"), Some(25_000));
}

#[test]
fn a_knob_combination_the_entrant_rules_out_is_refused_before_a_container_starts() {
    let problems = unrunnable_knobs(
        "flink:rowbinary-nt",
        &tunable_variant(),
        &[buffered_exceeds_batch()],
        &tuning_opts(&[("max_rows", 262_144)]),
    );
    assert_eq!(problems.len(), 1, "{problems:?}");
    assert!(
        problems[0].contains("flink:rowbinary-nt"),
        "{}",
        problems[0]
    );
    assert!(problems[0].contains("buffered_rows"), "{}", problems[0]);
    assert!(
        unrunnable_knobs(
            "flink:rowbinary-nt",
            &tunable_variant(),
            &[buffered_exceeds_batch()],
            &tuning_opts(&[("max_rows", 262_144), ("buffered_rows", 1_048_576)]),
        )
        .is_empty()
    );
}

#[test]
fn an_override_naming_a_knob_the_variant_does_not_declare_is_refused() {
    let problems = unrunnable_knobs(
        "flink:rowbinary-nt",
        &tunable_variant(),
        &[],
        &tuning_opts(&[("paralellism", 4)]),
    );
    assert_eq!(problems.len(), 1, "{problems:?}");
    assert!(problems[0].contains("does not declare"), "{}", problems[0]);
    assert!(problems[0].contains("parallelism"), "{}", problems[0]);
}

#[test]
fn parses_the_arms_version_line() {
    let (v, c, t) =
        parse_version("spate-arm 0.1.0-dev (6f28a8b8912e)\ntoolchain: rustc 1.97.1");
    assert_eq!(v.as_deref(), Some("0.1.0-dev"));
    assert_eq!(c.as_deref(), Some("6f28a8b8912e"));
    assert_eq!(t.as_deref(), Some("rustc 1.97.1"));
}

#[test]
fn parses_a_bare_version() {
    let (v, c, _) = parse_version("2.2.1\n");
    assert_eq!(v.as_deref(), Some("2.2.1"));
    assert_eq!(c, None);
}

#[test]
fn a_non_hex_parenthetical_is_not_a_commit() {
    let (_, c, _) = parse_version("thing 1.2.3 (not a sha)");
    assert_eq!(c, None);
}

#[test]
fn an_arm_cap_mismatch_is_refused() {
    let declared = Container {
        role: Role::DataPlane,
        name: "sut".to_owned(),
        cpus: "4".to_owned(),
        memory: "16g".to_owned(),
        args: vec![],
        gc_log: None,
    };
    let good = "# cgroup=/x cpu.max=400000/100000 memory.max=17179869184 x=1";
    assert!(assert_arm_caps("sut", &declared, good).is_ok());
    let bad = "# cgroup=/x cpu.max=200000/100000 memory.max=17179869184 x=1";
    let e = assert_arm_caps("sut", &declared, bad).expect_err("must refuse");
    assert!(e.starts_with("REFUSED"), "{e}");

    let uncapped = "# cgroup=/x cpu.max=max/100000 memory.max=max x=1";
    assert!(assert_arm_caps("sut", &declared, uncapped).is_err());
}

#[test]
fn an_image_that_disagrees_with_its_pinned_version_is_refused() {
    assert!(assert_pinned_version("flink", "2.2.1", &Some("2.2.1".to_owned())).is_ok());
    assert!(assert_pinned_version("flink", "", &Some("2.3.0".to_owned())).is_ok());
    assert!(assert_pinned_version("flink", "2.2.1", &None).is_ok());

    let e = assert_pinned_version("flink", "2.2.1", &Some("2.3.0".to_owned())).expect_err("must refuse");
    assert!(e.starts_with("REFUSED"), "{e}");
    assert!(e.contains("2.2.1") && e.contains("2.3.0"), "{e}");
}

#[test]
fn the_infra_bound_notice_names_the_limit_it_broke() {
    let notice = infra_bound_notice();
    assert!(notice.starts_with("INFRA-BOUND:"), "{notice}");
    assert!(
        notice.contains(&format!("{HEADROOM_LIMIT}%")),
        "the notice must quote the limit it is enforcing: {notice}"
    );
    assert!(
        notice.contains("shared infrastructure"),
        "the notice must say what the number describes instead: {notice}"
    );
    assert!(notice.chars().count() < NOTE_MAX_CHARS, "{notice}");
}

#[test]
fn a_recorded_refusal_keeps_its_reason_and_drops_the_container_logs() {
    let refusal = with_logs(
        "the arm's data-plane container spate-bench-sut-taskmanager exited during the drain",
        "--- spate-bench-sut-taskmanager ---\njava.lang.OutOfMemoryError\n\tat x\n\tat y",
    );
    let note = note_for(&refusal);
    assert!(note.starts_with("the arm's data-plane container"), "{note}");
    assert!(!note.contains("OutOfMemoryError"), "{note}");
    assert!(!note.contains("Logs:"), "{note}");
    assert_eq!(
        note_for("truncate failed: connection refused"),
        "truncate failed: connection refused"
    );
    let long = format!("{}…tail", "é".repeat(NOTE_MAX_CHARS + 50));
    let cut = note_for(&long);
    assert_eq!(cut.chars().count(), NOTE_MAX_CHARS + 1);
    assert!(cut.ends_with('…'));
}

fn sustained(kept_up_share: f64) -> Sustained {
    Sustained {
        offered_rows_per_s: double(4_000_000.0),
        kept_up_share: double(kept_up_share),
        max_schedule_lag_ms: double(12.5),
        latency: Latency {
            p50_us: double(3_100.0),
            p99_us: double(41_000.0),
            p999_us: double(260_000.0),
            max_us: double(1_900_000.0),
            rows: 91_000_000,
        },
    }
}

fn keys(load: &Load) -> Vec<String> {
    mode_metrics(load).into_iter().map(|(k, _)| k).collect()
}

#[test]
fn a_drain_measurement_emits_no_latency_metric_at_all() {
    assert!(mode_metrics(&Load::Drain).is_empty());
}

#[test]
fn a_sustained_arm_that_kept_up_publishes_latency_and_never_backlog_age() {
    let load = Load::Sustained(sustained(0.997));
    let Load::Sustained(s) = &load else {
        unreachable!()
    };
    assert!(s.kept_up());
    assert_eq!(s.latency_prefix(), "latency");

    let keys = keys(&load);
    assert!(keys.iter().any(|k| k == "latency_p999_us"), "{keys:?}");
    assert!(keys.iter().any(|k| k == "kept_up_share"), "{keys:?}");
    assert!(
        !keys.iter().any(|k| k.starts_with("backlog_age")),
        "{keys:?}"
    );
}

#[test]
fn a_saturated_sustained_arm_publishes_backlog_age_and_never_latency() {
    let load = Load::Sustained(sustained(0.41));
    let Load::Sustained(s) = &load else {
        unreachable!()
    };
    assert!(!s.kept_up());
    assert_eq!(s.latency_prefix(), "backlog_age");

    let keys = keys(&load);
    for suffix in ["p50_us", "p99_us", "p999_us", "max_us", "rows"] {
        assert!(
            keys.iter().any(|k| k == &format!("backlog_age_{suffix}")),
            "{keys:?}"
        );
    }
    assert!(!keys.iter().any(|k| k.starts_with("latency")), "{keys:?}");
    let by_key: BTreeMap<String, f64> = mode_metrics(&load)
        .into_iter()
        .map(|(k, m)| (k, number(m.value)))
        .collect();
    assert!((by_key["backlog_age_max_us"] - 1_900_000.0).abs() < f64::EPSILON);
}

#[test]
fn the_saturation_threshold_is_the_only_thing_that_decides_the_metric_names() {
    assert!(sustained(KEPT_UP_MIN).kept_up());
    assert!(!sustained(KEPT_UP_MIN - 0.001).kept_up());
    assert!(sustained(1.04).kept_up());
}

#[test]
fn the_offered_row_rate_is_the_message_rate_at_the_workloads_own_yield() {
    let batches = 10_000u64;
    let offered_msgs_per_s = 40_000.0;
    let per_event = f64::from(EVENTS_PER_BATCH);
    let per_message = number(rows_per_message(EXPECTED_ROWS, batches));
    let consumed = offered_msgs_per_s * per_message;
    let honest = consumed / (offered_msgs_per_s * per_message);
    assert!((honest - 1.0).abs() < 1e-9);
    let understated = consumed / (offered_msgs_per_s * per_event);
    assert!((honest / understated - per_event / per_message).abs() < 1e-9);
    assert!(
        understated < KEPT_UP_MIN,
        "the wrong yield should have flagged this arm, or the test proves nothing"
    );
}

#[test]
fn the_generator_is_sized_from_the_offered_rate_and_is_never_capped() {
    assert_eq!(producer_threads(1), 1);
    assert_eq!(producer_threads(PRODUCER_THREAD_MSGS_PER_S), 1);
    assert_eq!(producer_threads(PRODUCER_THREAD_MSGS_PER_S + 1), 2);
    assert_eq!(producer_threads(1_200_000), 20);
}

#[test]
fn the_topic_projection_charges_every_run_for_its_warm_up_deadline() {
    let per_msg = 4_200u64;
    let rate = 40_000u64;
    let one = projected_topic_bytes(0, rate, 60, 1, per_msg);
    assert_eq!(one, rate * (60 + SUSTAINED_WARMUP_BUDGET_S) * per_msg);
    let three = projected_topic_bytes(1_000, rate, 60, 3, per_msg);
    assert_eq!(
        three,
        (1_000 + 3 * rate * (60 + SUSTAINED_WARMUP_BUDGET_S)) * per_msg
    );
    assert!(three > one);
    assert!(
        projected_topic_bytes(0, 40_000, 30, 3, per_msg) < SUSTAINED_TOPIC_BYTES_MAX,
        "a 3-rep sustained sweep at 40k msgs/s over a 30s window must be allowed"
    );
}

#[test]
fn the_disk_projection_charges_a_warm_up_allowance_and_not_the_warm_up_deadline() {
    assert!(SUSTAINED_WARMUP_BUDGET_S < SUSTAINED_WARMUP_MAX_S);
}

#[test]
fn the_row_and_latency_window_is_the_samplers_own_readable_span() {
    let sample = |t_ms: u64, readable: bool| {
        let v = if readable { 1i64 } else { -1i64 };
        Sample {
            t_ms,
            usage_usec: v,
            user_usec: v,
            system_usec: v,
            nr_throttled: v,
            throttled_usec: v,
            mem_current: v,
            mem_peak: v,
            anon: v,
            file: v,
            slab: v,
            kernel_stack: v,
            sock: v,
        }
    };
    let series = |rows: Vec<Sample>| Samples {
        meta: String::new(),
        rows,
        wall_s: double(0.0),
    };
    let costs = vec![
        (
            "tm".to_owned(),
            series(vec![sample(1_000, true), sample(5_000, true)]),
        ),
        (
            "jm".to_owned(),
            series(vec![sample(1_100, true), sample(6_000, true)]),
        ),
    ];
    assert_eq!(sampler_window_ms(&costs), Some((1_000, 6_000)));
    let ragged = vec![(
        "tm".to_owned(),
        series(vec![
            sample(1_000, false),
            sample(2_000, true),
            sample(9_000, true),
            sample(9_500, false),
        ]),
    )];
    assert_eq!(sampler_window_ms(&ragged), Some((2_000, 9_000)));
    let none = vec![(
        "tm".to_owned(),
        series(vec![sample(1_000, false), sample(2_000, false)]),
    )];
    assert_eq!(sampler_window_ms(&none), None);
}

#[test]
fn a_kibibyte_memory_declaration_reaches_the_cap_assertion_intact() {
    let declared = Container {
        role: Role::DataPlane,
        name: "sut".to_owned(),
        cpus: "4".to_owned(),
        memory: "1048576k".to_owned(),
        args: vec![],
        gc_log: None,
    };
    let meta = "# cgroup=/x cpu.max=400000/100000 memory.max=1073741824 x=1";
    assert!(assert_arm_caps("sut", &declared, meta).is_ok());
}

fn server_side() -> ServerSideCost {
    ServerSideCost {
        window: Window::new(1_784_979_298_378, 1_784_979_598_378)
            .expect("a forward window"),
        tables: vec!["default.sensor_events".to_owned()],
        queries: 3,
        queries_started: 3,
        failed_queries: 0,
        written_rows: 786_984,
        inserted_rows: Some(786_984),
        inserted_bytes: Some(50_773_537),
        cpu_us: 514_218,
        user_us: 504_865,
        system_us: 9_353,
        real_us: Some(1_301_238),
        os_cpu_virtual_us: Some(514_215),
        os_cpu_wait_us: Some(786_278),
        queries_without_cpu: 0,
    }
}

#[test]
fn a_server_side_figure_publishes_cpu_against_both_denominators() {
    let cost = server_side();
    let by_key: BTreeMap<String, Metric> =
        server_metrics(&cost, 786_984).into_iter().collect();

    let per_landed = &by_key["ch_cpu_us_per_row"];
    assert_eq!(per_landed.unit, "us");
    assert!(!per_landed.higher_is_better);
    assert!(
        (value(per_landed) - value(&by_key["ch_cpu_us_per_written_row"])).abs() < 1e-12,
        "the two coincide when every written row landed"
    );
    let duplicated: BTreeMap<String, Metric> =
        server_metrics(&cost, 393_492).into_iter().collect();
    assert!(
        (value(&duplicated["ch_cpu_us_per_row"]) - 2.0 * value(per_landed)).abs() < 1e-9,
        "{}",
        value(&duplicated["ch_cpu_us_per_row"])
    );
    assert!((value(&duplicated["ch_cpu_us_per_written_row"]) - value(per_landed)).abs() < 1e-12);
    assert!(by_key["ch_rows_per_insert"].higher_is_better);
    assert!((value(&by_key["ch_rows_per_insert"]) - 262_328.0).abs() < 1.0);
}

#[test]
fn a_counter_the_server_did_not_report_reaches_no_metric_at_all() {
    let mut cost = server_side();
    cost.os_cpu_wait_us = None;
    cost.inserted_bytes = None;
    let keys: Vec<String> = server_metrics(&cost, 786_984)
        .into_iter()
        .map(|(k, _)| k)
        .collect();
    assert!(!keys.iter().any(|k| k == "ch_cpu_wait_us"), "{keys:?}");
    assert!(!keys.iter().any(|k| k == "ch_inserted_bytes"), "{keys:?}");
    assert!(keys.iter().any(|k| k == "ch_cpu_us"), "{keys:?}");
}

fn gc_summary(total_us: f64) -> GcSummary {
    GcSummary {
        pauses: 5,
        total_us: double(total_us),
        max_us: double(2_739.0),
        max_label: "Young (Normal) (G1 Evacuation Pause)".to_owned(),
        p50_us: double(2_182.0),
        p99_us: double(2_739.0),
        p999_us: double(2_739.0),
        mean_us: double(total_us / 5.0),
        from_uptime_s: Some(double(0.228)),
        to_uptime_s: Some(double(0.267)),
        configured: HeapConfig {
            collector: Some("G1".to_owned()),
            version: Some("25.0.3+9-LTS (release)".to_owned()),
            initial_bytes: Some(256 * 1024 * 1024),
            min_bytes: Some(8 * 1024 * 1024),
            max_bytes: Some(256 * 1024 * 1024),
        },
        peak_committed_bytes: Some(256 * 1024 * 1024),
        peak_occupancy_bytes: Some(174 * 1024 * 1024),
        peak_live_bytes: Some(39 * 1024 * 1024),
    }
}

#[test]
fn an_arm_with_no_collector_publishes_no_gc_metric_at_all() {
    assert!(gc_metrics(&Gc::default()).is_empty());
    assert!(
        gc_metrics(&Gc {
            data_plane: None,
            control_plane: None,
        })
        .is_empty()
    );
}

#[test]
fn the_data_planes_gc_figures_are_the_headline_and_the_control_planes_are_secondary() {
    let gc = Gc {
        data_plane: Some(gc_summary(9_666.0)),
        control_plane: Some(gc_summary(1_200.0)),
    };
    let by_key: BTreeMap<String, Metric> = gc_metrics(&gc).into_iter().collect();

    assert!((value(&by_key["gc_pause_total_us"]) - 9_666.0).abs() < 1e-9);
    assert!((value(&by_key["control_plane_gc_pause_total_us"]) - 1_200.0).abs() < 1e-9);
    assert!(!by_key["gc_pause_total_us"].higher_is_better);
    assert_eq!(by_key["gc_pause_p999_us"].unit, "us");
    assert_eq!(by_key["jvm_heap_configured_bytes"].unit, "bytes");
    assert!((value(&by_key["jvm_heap_configured_bytes"]) - 268_435_456.0).abs() < f64::EPSILON);
    assert!((value(&by_key["jvm_heap_live_peak_bytes"]) - 40_894_464.0).abs() < f64::EPSILON);
    let alone = Gc {
        data_plane: Some(gc_summary(9_666.0)),
        control_plane: None,
    };
    let keys: Vec<String> = gc_metrics(&alone).into_iter().map(|(k, _)| k).collect();
    assert!(keys.iter().any(|k| k == "gc_pause_total_us"), "{keys:?}");
    assert!(
        !keys.iter().any(|k| k.starts_with("control_plane_")),
        "{keys:?}"
    );
}

#[test]
fn a_heap_figure_the_collector_never_reported_is_absent_and_not_zero() {
    let mut summary = gc_summary(9_666.0);
    summary.peak_committed_bytes = None;
    summary.peak_live_bytes = None;
    let keys: Vec<String> = gc_metrics(&Gc {
        data_plane: Some(summary),
        control_plane: None,
    })
    .into_iter()
    .map(|(k, _)| k)
    .collect();

    assert!(keys.iter().any(|k| k == "jvm_heap_configured_bytes"));
    assert!(
        !keys.iter().any(|k| k.contains("committed_peak")),
        "{keys:?}"
    );
    assert!(!keys.iter().any(|k| k.contains("live_peak")), "{keys:?}");
}

#[test]
fn an_arms_published_footprint_is_what_it_held_at_once() {
    let series = |t0: u64, anon: &[i64]| Samples {
        meta: String::new(),
        rows: anon
            .iter()
            .enumerate()
            .map(|(i, &a)| Sample {
                t_ms: t0 + (i as u64) * 1000,
                usage_usec: 0,
                user_usec: 0,
                system_usec: 0,
                nr_throttled: 0,
                throttled_usec: 0,
                mem_current: a,
                mem_peak: a,
                anon: a,
                file: 0,
                slab: 0,
                kernel_stack: 0,
                sock: 0,
            })
            .collect(),
        wall_s: double(3.0),
    };
    let costs = vec![
        ("jm".to_owned(), series(1_000, &[100, 10, 10])),
        ("tm".to_owned(), series(1_000, &[10, 10, 200])),
    ];
    assert!((arm_peak_anon(&costs, 300) as f64 - 210.0).abs() < f64::EPSILON);
    let one = vec![("sut".to_owned(), series(1_000, &[10, 900, 400]))];
    assert!((arm_peak_anon(&one, 900) as f64 - 900.0).abs() < f64::EPSILON);
}
