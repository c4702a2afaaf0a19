use spate_bench::double::Double;
use spate_bench::report::now_ms;
use spate_bench::report::Flag;
use spate_bench::report::Infra;
use spate_bench::report::Kind;
use spate_bench::report::Metric;
use spate_bench::report::Report;
use spate_bench::report::RunMeta;
use spate_bench::report::Sitting;
use spate_bench::report::Status;
use spate_bench::report::Sut;
use spate_bench::report::Trigger;
use spate_bench::report::Value;
use spate_bench::report::HARNESS_VERSION;
use spate_bench::report::SCHEMA_VERSION;
use spate_bench::report::detect_commit;

fn number(x: Double) -> f64 {
    f64::from_bits(x.to_bits())
}

fn double(x: f64) -> Double {
    Double::of_bits(x.to_bits())
}

fn sut() -> Sut {
    Sut {
        entrant: "spate".to_owned(),
        variant_id: "native".to_owned(),
        version: Some("0.1.0-dev".to_owned()),
        commit: Some("6f28a8b8912e".to_owned()),
        image_digest: format!("sha256:{}", "a".repeat(64)),
        image: "spate-bench-spate".to_owned(),
        toolchain: Some("rustc 1.97.0".to_owned()),
    }
}

fn infra() -> Infra {
    Infra {
        digest: "e3b0c44298fc".to_owned(),
        broker: "redpanda".to_owned(),
        broker_version: "v26.1.13".to_owned(),
        broker_image_digest: format!("sha256:{}", "b".repeat(64)),
        broker_cpus: "800000 100000".to_owned(),
        broker_memory: "8589934592".to_owned(),
        clickhouse_version: "26.3.1.1".to_owned(),
        clickhouse_image_digest: format!("sha256:{}", "c".repeat(64)),
        clickhouse_cpus: "500000 100000".to_owned(),
        clickhouse_memory: "12884901888".to_owned(),
        partitions: 8,
        storage: "local-nvme".to_owned(),
        registry: "redpanda-builtin".to_owned(),
        ceiling_msgs_per_s: 305_554,
        ceiling_bytes_per_s: 256_700_000,
        ceiling_rows_per_s: 3_100_000,
    }
}

fn report(sitting: &Sitting) -> Report {
    Report::new(
        "kafka_avro_clickhouse",
        Kind::Measurement,
        Status::Passed,
        sut(),
        RunMeta::new(sitting, "test-env", "deadbeef", Trigger::Manual, infra()),
    )
}

/// Every record that one invocation writes carries the same id, so a consumer
/// can group repetitions exactly.
#[test]
fn every_record_of_one_invocation_carries_the_same_invocation_id() {
    let sitting = Sitting::begin(None, "3f2a");
    let a = report(&sitting);
    let b = report(&sitting);
    assert!(!a.run.invocation_id.is_empty());
    assert_eq!(a.run.invocation_id, b.run.invocation_id);
    // Distinct from the per-record id, which must still differ.
    assert_ne!(a.run_id, b.run_id);
    assert_ne!(a.run.invocation_id, a.run_id);
}

#[test]
fn run_ids_are_unique_and_time_ordered() {
    let sitting = Sitting::begin(None, "3f2a");
    let a = report(&sitting).run_id;
    let b = report(&sitting).run_id;
    assert_ne!(a, b);
    assert!(a < b, "v7 ids must sort by time: {a} !< {b}");
}

#[test]
fn a_run_id_is_a_hyphenated_version_seven_identifier() {
    let id = Sitting::begin(None, "").invocation_id;
    assert_eq!(id.len(), 36);
    for (i, c) in id.chars().enumerate() {
        if i == 8 || i == 13 || i == 18 || i == 23 {
            assert_eq!(c, '-');
        } else {
            assert!(c.is_ascii_digit() || ('a'..='f').contains(&c), "{id}");
        }
    }
    assert_eq!(id.chars().nth(14), Some('7'));
}

#[test]
fn footprint_bytes_are_unscaled_and_labelled_bytes() {
    // A value in megabytes tagged "bytes" renders 1010 MB as "1.0 KB" in a
    // consumer that trusts the unit.
    let m = Metric::bytes(double(1_059_481_600.0));
    assert_eq!(m.unit, "bytes");
    assert!(!m.higher_is_better);
    assert!(number(m.value) > 1e9, "must be raw bytes, got {}", number(m.value));
}

#[test]
fn byte_rates_are_si_megabytes() {
    let m = Metric::bytes_per_s(double(1_048_576.0));
    assert_eq!(m.unit, "MB/s");
    assert!((number(m.value) - 1.048576).abs() < 1e-12);
}

#[test]
fn a_share_is_a_fraction_of_one_and_is_never_rescaled() {
    let m = Metric::share(double(0.62));
    assert_eq!(m.unit, "ratio");
    assert!(m.higher_is_better, "a share of a target is aimed at");
    assert!((number(m.value) - 0.62).abs() < f64::EPSILON, "{}", number(m.value));

    // Not clamped: an arm that cleared a backlog inside the window consumed
    // more than was offered over it.
    assert!((number(Metric::share(double(1.04)).value) - 1.04).abs() < f64::EPSILON);
}

#[test]
fn direction_travels_with_the_number() {
    assert!(Metric::maximize(double(1.0), "records/s").higher_is_better);
    assert!(!Metric::minimize(double(1.0), "ns").higher_is_better);
}

#[test]
fn a_trigger_that_bars_publication_says_so_in_exactly_one_place() {
    for t in [Trigger::Pr, Trigger::Tuning] {
        assert!(t.bars_publication(), "{t:?}");
        assert!(
            t.publication_bar().is_some_and(|b| !b.trim().is_empty()),
            "{t:?} bars publication but says nothing a reader could act on"
        );
    }
    for t in [Trigger::Nightly, Trigger::Manual, Trigger::Release] {
        assert!(!t.bars_publication(), "{t:?}");
        assert_eq!(t.publication_bar(), None, "{t:?}");
    }
}

#[test]
fn only_successful_statuses_carry_metrics() {
    assert!(Status::Passed.carries_metrics());
    assert!(Status::InfraBound.carries_metrics());
    assert!(!Status::Failed.carries_metrics());
    assert!(!Status::Unsupported.carries_metrics());
}

#[test]
fn a_record_holds_what_was_put_on_it() {
    let sitting = Sitting::begin(Some("abc123".to_owned()), "3f2a");
    let r = report(&sitting)
        .rep(2, 3)
        .variant("format", Value::text("native"))
        .metric("rows_per_s", Metric::maximize(double(4_383_663.0), "records/s"))
        .metric("cpu_us_per_row", Metric::minimize(double(0.6187), "us").with_n(3))
        .flag(Flag::CpuCapThrottled)
        .flag(Flag::CpuCapThrottled)
        .note("330 sampler samples".to_owned());
    assert_eq!(r.schema, SCHEMA_VERSION);
    assert_eq!(r.schema, 2);
    assert_eq!(r.run.harness_version, HARNESS_VERSION);
    assert_eq!((r.rep, r.reps), (2, 3));
    assert_eq!(r.variant.get("format"), Some(&Value::Text("native".to_owned())));
    assert_eq!(r.metrics.get("cpu_us_per_row").map(|m| m.n), Some(Some(3)));
    assert_eq!(r.metrics.get("rows_per_s").map(|m| m.value), Some(double(4_383_663.0)));
    // Attached twice, it stands once.
    assert_eq!(r.flags, vec![Flag::CpuCapThrottled]);
    assert_eq!(r.note.as_deref(), Some("330 sampler samples"));
    assert_eq!(r.run.commit.as_deref(), Some("abc123"));
    assert_eq!(r.run.dataset_version, "3f2a");
}

#[test]
fn a_record_says_when_it_was_built() {
    let before = now_ms();
    let r = report(&Sitting::begin(None, ""));
    assert!(before > 1_600_000_000_000, "milliseconds since the epoch: {before}");
    assert!(before <= r.run.ts_ms && r.run.ts_ms <= now_ms());
}

#[test]
fn an_arms_ceiling_is_its_own() {
    let shared = infra();
    let own = shared.for_arm(2_000_000);
    assert_eq!(own.ceiling_rows_per_s, 2_000_000);
    assert_eq!(shared.ceiling_rows_per_s, 3_100_000);
    assert_eq!(own.digest, shared.digest);
    assert_eq!(own.ceiling_msgs_per_s, 305_554);
}

#[test]
fn an_interval_travels_with_the_value() {
    let m = Metric::minimize(double(5.0), "us").with_ci(double(4.0), double(6.0));
    assert_eq!(m.ci95, Some((double(4.0), double(6.0))));
    assert_eq!(m.value, double(5.0));
}

#[test]
fn a_commit_is_what_is_named_or_else_what_is_printed() {
    let some = |s: &str| Some(s.to_owned());
    assert_eq!(detect_commit(some("abc"), some("def\n")), some("abc"));
    assert_eq!(detect_commit(some(""), some(" def\n")), some("def"));
    assert_eq!(detect_commit(None, some("def\n")), some("def"));
    assert_eq!(detect_commit(None, some(" \n")), None);
    assert_eq!(detect_commit(None, None), None);
}
