use spate_bench::jvm::measure;
use spate_bench::jvm::parse_gc_log;
use spate_bench::jvm::parse_heap_triple;
use spate_bench::jvm::parse_size;
use spate_bench::jvm::percentile;
use spate_bench::jvm::GcLog;
use spate_bench::jvm::HeapConfig;
use spate_bench::jvm::HeapTriple;
use spate_bench::jvm::JvmError;
use spate_bench::jvm::Pause;
use spate_bench::double::Double;
use spate_bench::jvm::gc_log_from_console;
use spate_bench::jvm::read_gc_log;

fn number(x: Double) -> f64 {
    f64::from_bits(x.to_bits())
}

fn double(x: f64) -> Double {
    Double::of_bits(x.to_bits())
}

const G1_LOG: &str = "\
[0.003s][info][gc,init] CardTable entry size: 512
[0.003s][info][gc     ] Using G1
[0.003s][info][gc,init] Version: 25.0.3+9-LTS (release)
[0.003s][info][gc,init] CPUs: 18 total, 18 available
[0.003s][info][gc,init] Memory: 128G
[0.003s][info][gc,init] Heap Region Size: 1M
[0.003s][info][gc,init] Heap Min Capacity: 8M
[0.003s][info][gc,init] Heap Initial Capacity: 256M
[0.003s][info][gc,init] Heap Max Capacity: 256M
[0.003s][info][gc,init] Pre-touch: Disabled
[0.225s][info][gc,start    ] GC(0) Pause Young (Normal) (G1 Evacuation Pause)
[0.226s][info][gc,task     ] GC(0) Using 6 workers of 14 for evacuation
[0.228s][info][gc,phases   ] GC(0)   Pre Evacuate Collection Set: 0.06ms
[0.228s][info][gc,phases   ] GC(0)   Evacuate Collection Set: 1.79ms
[0.228s][info][gc,heap     ] GC(0) Eden regions: 47->0(96)
[0.228s][info][gc,metaspace] GC(0) Metaspace: 9788K(9984K)->9788K(9984K) NonClass: 8592K(8704K)->8592K(8704K)
[0.228s][info][gc          ] GC(0) Pause Young (Normal) (G1 Evacuation Pause) 48M->20M(256M) 2.739ms
[0.228s][info][gc,cpu      ] GC(0) User=0.01s Sys=0.00s Real=0.00s
[0.239s][info][gc          ] GC(1) Pause Young (Normal) (G1 Evacuation Pause) 116M->30M(256M) 1.341ms
[0.252s][info][gc          ] GC(2) Pause Young (Normal) (G1 Evacuation Pause) 156M->39M(256M) 2.478ms
[0.263s][info][gc          ] GC(3) Pause Young (Normal) (G1 Evacuation Pause) 174M->37M(256M) 0.926ms
[0.267s][info][gc             ] GC(4) Pause Full (System.gc()) 62M->3M(20M) 2.182ms
[0.267s][info][gc,cpu         ] GC(4) User=0.00s Sys=0.00s Real=0.00s
";

const ZGC_LOG: &str = "\
[0.003s][info][gc,init] Initializing The Z Garbage Collector
[0.003s][info][gc,init] Version: 25.0.3+9-LTS (release)
[0.003s][info][gc,init] Min Capacity: 8M
[0.003s][info][gc,init] Initial Capacity: 512M
[0.003s][info][gc,init] Max Capacity: 512M
[0.003s][info][gc,init] Soft Max Capacity: 460M
[0.188s][info][gc,phases   ] GC(0) Y: Pause Mark Start (Major) 0.004ms
[0.191s][info][gc,phases   ] GC(0) Y: Pause Mark End 0.004ms
[0.192s][info][gc,phases   ] GC(0) Y: Pause Relocate Start 0.007ms
[0.193s][info][gc,phases   ] GC(0) O: Pause Mark End 0.005ms
[0.195s][info][gc,phases   ] GC(0) O: Pause Relocate Start 0.003ms
";

#[test]
fn zgcs_soft_limit_is_not_mistaken_for_its_configured_heap() {
    // `Soft Max Capacity` is printed straight after `Max Capacity` and ends
    // with the same words, so a suffix match takes the soft limit — a heap
    // this arm was never configured with, and the smaller of the two.
    let log = parse_gc_log(ZGC_LOG).expect("a real ZGC log parses");
    assert_eq!(log.heap.max_bytes, Some(512 * 1024 * 1024));
}

#[test]
fn provenance_names_the_runtime_that_produced_the_pauses() {
    let summary = parse_gc_log(ZGC_LOG)
        .expect("a real ZGC log parses")
        .summarise(None)
        .expect("a summary");
    assert!(
        summary
            .provenance()
            .contains("on JVM 25.0.3+9-LTS (release)"),
        "{}",
        summary.provenance()
    );
}

#[test]
fn parses_a_real_g1_log_from_the_arms_own_collector() {
    let log = parse_gc_log(G1_LOG).expect("a real G1 log parses");
    assert_eq!(log.pauses.len(), 5);
    assert_eq!(log.heap.collector.as_deref(), Some("G1"));
    assert_eq!(log.heap.version.as_deref(), Some("25.0.3+9-LTS (release)"));
    assert_eq!(log.foreign_lines, 0);

    let first = &log.pauses[0];
    assert_eq!(first.gc_id, Some(0));
    assert_eq!(first.label, "Young (Normal) (G1 Evacuation Pause)");
    assert!((number(first.us) - 2739.0).abs() < 1e-9);
    assert_eq!(
        first.heap,
        Some(HeapTriple {
            before_bytes: 48 * 1024 * 1024,
            after_bytes: 20 * 1024 * 1024,
            capacity_bytes: 256 * 1024 * 1024,
        })
    );
    // The last pause's tag column is four characters wider than the first's,
    // and both must read the same.
    assert_eq!(log.pauses[4].label, "Full (System.gc())");
}

#[test]
fn a_pause_announcement_is_not_itself_a_pause() {
    let log = parse_gc_log(G1_LOG).expect("a real G1 log parses");
    assert_eq!(log.pauses.len(), 5, "one pause per GC(n), not two");
    assert!(G1_LOG.contains("[gc,start    ] GC(0) Pause Young"));
}

#[test]
fn a_zgc_pause_logged_under_a_phases_tag_is_still_a_pause() {
    let log = parse_gc_log(ZGC_LOG).expect("a real ZGC log parses");
    assert_eq!(log.pauses.len(), 5);
    assert_eq!(log.pauses[0].generation.as_deref(), Some("Y"));
    assert_eq!(log.pauses[0].label, "Mark Start (Major)");
    assert!((number(log.pauses[0].us) - 4.0).abs() < 1e-9);
    // Its pause lines carry no occupancy, which is an absence rather than a
    // zero-byte heap.
    assert!(log.pauses[0].heap.is_none());
    // The young and old pauses of one cycle share a name; without the
    // generation marker they read as one pause logged twice.
    assert_eq!(log.pauses[1].label, log.pauses[3].label);
    assert_ne!(log.pauses[1].generation, log.pauses[3].generation);
}

#[test]
fn reads_configured_heap_from_either_collectors_initialisation_block() {
    let g1 = parse_gc_log(G1_LOG).expect("a real G1 log parses");
    assert_eq!(g1.heap.max_bytes, Some(256 * 1024 * 1024));
    assert_eq!(g1.heap.initial_bytes, Some(256 * 1024 * 1024));
    assert_eq!(g1.heap.min_bytes, Some(8 * 1024 * 1024));

    let z = parse_gc_log(ZGC_LOG).expect("a real ZGC log parses");
    assert_eq!(z.heap.max_bytes, Some(512 * 1024 * 1024));
    assert_eq!(z.heap.initial_bytes, Some(512 * 1024 * 1024));
    assert_eq!(z.heap.collector.as_deref(), Some("The Z Garbage Collector"));
}

#[test]
fn reports_the_gap_between_configured_and_committed_heap() {
    let summary = parse_gc_log(G1_LOG)
        .expect("a real G1 log parses")
        .summarise(None)
        .expect("pauses summarise");

    assert_eq!(
        summary.configured_versus_committed(),
        Some((256 * 1024 * 1024, 256 * 1024 * 1024))
    );
    assert!((number(summary.committed_share().expect("both sides known")) - 1.0).abs() < 1e-9);
    // Occupancy peaked at 174 MiB and the live set at 39 MiB, and the last
    // pause shrank the heap to 20 MiB — which is why the maximum is taken.
    assert_eq!(summary.peak_occupancy_bytes, Some(174 * 1024 * 1024));
    assert_eq!(summary.peak_live_bytes, Some(39 * 1024 * 1024));
    assert_eq!(summary.peak_committed_bytes, Some(256 * 1024 * 1024));
}

#[test]
fn a_missing_side_of_the_heap_comparison_is_absent_and_not_zero() {
    let summary = parse_gc_log(ZGC_LOG)
        .expect("a real ZGC log parses")
        .summarise(None)
        .expect("pauses summarise");
    // ZGC's pause lines carry no occupancy, so there is no committed figure.
    assert_eq!(summary.peak_committed_bytes, None);
    assert_eq!(summary.configured_versus_committed(), None);
    assert_eq!(summary.committed_share(), None);
    // The configured side is still known and still published.
    assert_eq!(summary.configured.max_bytes, Some(512 * 1024 * 1024));
}

#[test]
fn summarises_pauses_by_distribution_rather_than_by_mean() {
    let summary = parse_gc_log(G1_LOG)
        .expect("a real G1 log parses")
        .summarise(None)
        .expect("pauses summarise");

    assert_eq!(summary.pauses, 5);
    let total = 2739.0 + 1341.0 + 2478.0 + 926.0 + 2182.0;
    assert!((number(summary.total_us) - total).abs() < 1e-9);
    assert!((number(summary.max_us) - 2739.0).abs() < 1e-9);
    assert_eq!(summary.max_label, "Young (Normal) (G1 Evacuation Pause)");
    assert!((number(summary.mean_us) - total / 5.0).abs() < 1e-9);
    // Nearest-rank, so every published percentile is a pause that happened.
    assert!((number(summary.p50_us) - 2182.0).abs() < 1e-9);
    assert!((number(summary.p99_us) - 2739.0).abs() < 1e-9);
    assert!((number(summary.p999_us) - 2739.0).abs() < 1e-9);

    // The phase breakdown that follows "the arm lost 9.7ms to GC" with "to
    // what".
    let by_label = parse_gc_log(G1_LOG)
        .expect("a real G1 log parses")
        .by_label();
    assert_eq!(by_label.get("Full (System.gc())").map(|e| e.0), Some(1));
    assert_eq!(by_label.get("Young (Normal) (G1 Evacuation Pause)").map(|e| e.0), Some(4));
}

#[test]
fn percentiles_are_nearest_rank_over_the_pauses_that_happened() {
    let sorted: Vec<Double> = (1..=10).map(|n| double(f64::from(n))).collect();
    assert!((number(percentile(&sorted, double(0.5))) - 5.0).abs() < 1e-9);
    assert!((number(percentile(&sorted, double(0.99))) - 10.0).abs() < 1e-9);
    assert!((number(percentile(&sorted, double(0.0))) - 1.0).abs() < 1e-9);
    assert!((number(percentile(&sorted, double(1.0))) - 10.0).abs() < 1e-9);
    assert!((number(percentile(&[], double(0.5))) - 0.0).abs() < f64::EPSILON);
}

#[test]
fn a_pause_whose_duration_cannot_be_read_is_an_error_and_never_a_zero() {
    let broken = "\
[0.003s][info][gc] Using G1
[0.228s][info][gc] GC(0) Pause Young (Normal) (G1 Evacuation Pause) 48M->20M(256M) 2.739 milliseconds
";
    let e = parse_gc_log(broken).expect_err("an unreadable duration must be refused");
    match &e {
        JvmError::UnparseablePause { line, .. } => assert!(line.contains("milliseconds")),
        other => panic!("wrong refusal: {other:?}"),
    }
    assert!(e.message().contains("shorter pause total"));

    // A heap triple that has been decided to be one and then does not read is
    // the same kind of failure.
    let bad_size = "\
[0.003s][info][gc] Using G1
[0.228s][info][gc] GC(0) Pause Young (Normal) 48X->20M(256M) 2.739ms
";
    assert!(matches!(
        parse_gc_log(bad_size),
        Err(JvmError::UnparseableSize { .. })
    ));
}

#[test]
fn a_log_that_is_not_a_gc_log_is_refused_by_name() {
    assert!(matches!(
        parse_gc_log(""),
        Err(JvmError::NotUnifiedLogging { lines: 0 })
    ));
    assert!(matches!(
        parse_gc_log("2026-07-25 22:04:11,120 INFO  org.apache.flink.runtime - Starting"),
        Err(JvmError::NotUnifiedLogging { lines: 1 })
    ));
    assert!(matches!(
        parse_gc_log("[0.003s][info][safepoint] Safepoint \"G1CollectForAllocation\"\n"),
        Err(JvmError::NoGcTaggedLines { decorated: 1 })
    ));
}

#[test]
fn a_rotated_log_that_lost_its_initialisation_block_is_refused() {
    let rotated = "\
[812.228s][info][gc          ] GC(9001) Pause Young (Normal) (G1 Evacuation Pause) 48M->20M(256M) 2.739ms
[812.239s][info][gc          ] GC(9002) Pause Young (Normal) (G1 Evacuation Pause) 116M->30M(256M) 1.341ms
";
    let e = parse_gc_log(rotated).expect_err("a rotated log must be refused");
    match e {
        JvmError::NoCollectorInitialised { pauses, .. } => assert_eq!(pauses, 2),
        other => panic!("wrong refusal: {other:?}"),
    }
    assert!(
        parse_gc_log(rotated).expect_err("refused").message().contains("filecount=0"),
        "the refusal must say how to stop it happening again"
    );
}

#[test]
fn a_jvm_that_never_collected_is_a_measurement_and_not_an_absence() {
    let quiet = "\
[0.003s][info][gc     ] Using G1
[0.003s][info][gc,init] Heap Max Capacity: 1863M
[0.003s][info][gc,init] Heap Initial Capacity: 250M
";
    let summary = parse_gc_log(quiet)
        .expect("an initialised collector is evidence enough")
        .summarise(None)
        .expect("zero pauses summarise");
    assert_eq!(summary.pauses, 0);
    assert!((number(summary.total_us) - 0.0).abs() < f64::EPSILON);
    assert_eq!(summary.configured.max_bytes, Some(1863 * 1024 * 1024));
    // And it cannot claim a committed heap it never observed.
    assert_eq!(summary.peak_committed_bytes, None);
}

#[test]
fn a_summary_covers_the_earliest_and_the_latest_pause() {
    let at = |uptime_s: Option<f64>| Pause {
        gc_id: None,
        uptime_s: uptime_s.map(double),
        generation: None,
        label: "x".to_owned(),
        us: double(10.0),
        heap: None,
    };
    let log = GcLog {
        pauses: vec![at(Some(2.0)), at(None), at(Some(1.0))],
        heap: HeapConfig::default(),
        decorated_lines: 3,
        gc_lines: 3,
        foreign_lines: 0,
    };
    let summary = log.summarise(None).expect("pauses summarise");
    assert_eq!(summary.from_uptime_s.map(number), Some(1.0));
    assert_eq!(summary.to_uptime_s.map(number), Some(2.0));
}

#[test]
fn pauses_can_be_bounded_to_the_measurement_window_by_uptime() {
    let log = parse_gc_log(G1_LOG).expect("a real G1 log parses");
    let whole = log.summarise(None).expect("pauses summarise");
    assert_eq!(whole.pauses, 5);

    // Everything up to 0.25s: the first two pauses only.
    let bounded = log.summarise(Some((double(0.0), double(0.25)))).expect("pauses summarise");
    assert_eq!(bounded.pauses, 2);
    assert!((number(bounded.total_us) - (2739.0 + 1341.0)).abs() < 1e-9);
    assert_eq!(bounded.from_uptime_s.map(number), Some(0.228));
    assert_eq!(bounded.to_uptime_s.map(number), Some(0.239));
    // And the heap peaks follow the bound, or the two halves of the record
    // would describe different intervals.
    assert_eq!(bounded.peak_occupancy_bytes, Some(116 * 1024 * 1024));

    // Silently ignoring a bound the log cannot honour would attribute
    // out-of-window pauses to the window.
    let undecorated = GcLog {
        pauses: vec![Pause {
            gc_id: Some(0),
            uptime_s: None,
            generation: None,
            label: "Young".to_owned(),
            us: double(1000.0),
            heap: None,
        }],
        heap: HeapConfig::default(),
        decorated_lines: 1,
        gc_lines: 1,
        foreign_lines: 0,
    };
    assert!(matches!(
        undecorated.summarise(Some((double(0.0), double(1.0)))),
        Err(JvmError::NoUptimeDecoration)
    ));
}

#[test]
fn an_application_sharing_the_console_does_not_disturb_the_gc_figures() {
    let mixed = "\
2026-07-25 22:04:11,120 INFO  org.apache.flink.runtime.taskexecutor.TaskExecutor - Starting
[0.003s][info][gc     ] Using G1
[0.003s][info][gc,init] Heap Max Capacity: 256M
2026-07-25 22:04:12,001 INFO  org.apache.flink.runtime.state - Checkpoint 1 completed
[0.228s][info][gc          ] GC(0) Pause Young (Normal) (G1 Evacuation Pause) 48M->20M(256M) 2.739ms
";
    let log = parse_gc_log(mixed).expect("a mixed stream parses");
    assert_eq!(log.foreign_lines, 2);
    assert_eq!(log.pauses.len(), 1);
    let summary = log.summarise(None).expect("pauses summarise");
    assert!((number(summary.total_us) - 2739.0).abs() < 1e-9);
    assert!(
        summary.provenance().contains("G1"),
        "{}",
        summary.provenance()
    );
    assert!(
        summary.provenance().contains("256 MiB configured"),
        "{}",
        summary.provenance()
    );
}

#[test]
fn reads_the_jvms_own_size_units_and_refuses_a_bare_number() {
    assert_eq!(parse_size("256M"), Some(256 * 1024 * 1024));
    assert_eq!(parse_size("9788K"), Some(9788 * 1024));
    assert_eq!(parse_size("8G"), Some(8 * 1024 * 1024 * 1024));
    assert_eq!(parse_size("512B"), Some(512));
    // A bare number is ambiguous between bytes and kilobytes, which is a
    // factor of 1024 on a published figure.
    assert_eq!(parse_size("256"), None);
    assert_eq!(parse_size(""), None);
}

#[test]
fn a_heap_triple_is_before_after_and_capacity() {
    assert_eq!(
        parse_heap_triple("48M->20M(256M)"),
        Some(HeapTriple {
            before_bytes: 48 * 1024 * 1024,
            after_bytes: 20 * 1024 * 1024,
            capacity_bytes: 256 * 1024 * 1024,
        })
    );
    assert_eq!(parse_heap_triple("48M->20M"), None);
}

#[test]
fn a_log_is_measured_over_the_window_it_is_given() {
    let s = measure(G1_LOG, Some((double(0.0), double(0.25)))).expect("a real log is measured");
    assert_eq!(s.pauses, 2);
    assert!(matches!(
        measure("", None),
        Err(JvmError::NotUnifiedLogging { lines: 0 })
    ));
}

#[test]
fn a_log_that_could_not_be_fetched_says_from_where() {
    let e = JvmError::LogUnavailable {
        container: "tm".to_owned(),
        path: "/var/log/gc.log".to_owned(),
        why: "no such file".to_owned(),
    };
    let m = e.message();
    assert!(m.contains("tm") && m.contains("/var/log/gc.log"), "{m}");
    assert!(JvmError::ReadFailed("eof".to_owned()).message().contains("eof"));
    assert!(!JvmError::NoUptimeDecoration.message().is_empty());
}

#[test]
fn a_log_is_read_from_the_copy_or_from_the_console() {
    let text = read_gc_log("c", "/gc.log", Ok(Ok("[0.1s] x".to_owned())));
    assert!(matches!(text, Ok(t) if t == "[0.1s] x"));
    assert!(matches!(
        read_gc_log("c", "/gc.log", Err("no such file".to_owned())),
        Err(JvmError::LogUnavailable { container, path, why })
            if container == "c" && path == "/gc.log" && why == "no such file"
    ));
    assert!(matches!(
        read_gc_log("c", "/gc.log", Ok(Err("not text".to_owned()))),
        Err(JvmError::ReadFailed(why)) if why == "not text"
    ));
    let both = gc_log_from_console("c", Ok(("out".to_owned(), "err".to_owned())));
    assert!(matches!(both, Ok(t) if t == "out\nerr"));
    assert!(matches!(
        gc_log_from_console("c", Err("gone".to_owned())),
        Err(JvmError::LogUnavailable { path, .. }) if path == "<console>"
    ));
}

#[test]
fn pauses_add_up_as_doubles_do() {
    let log = "\
[0.001s][info][gc     ] Using G1
[0.1s][info][gc          ] GC(0) Pause Young 0.1ms
[0.2s][info][gc          ] GC(1) Pause Young 0.7ms
[0.3s][info][gc          ] GC(2) Pause Young 0.2ms
[0.4s][info][gc          ] GC(3) Pause Young 1234567890123.12345678901ms
";
    let parsed = parse_gc_log(log).expect("a log");
    let s = parsed.summarise(None).expect("pauses summarise");
    let mut us = vec![0.1 * 1000.0, 0.7 * 1000.0, 0.2 * 1000.0, 1_234_567_890_123.123_456_789_01 * 1000.0];
    let in_order: f64 = us.iter().fold(0.0, |a, b| a + b);
    us.sort_by(f64::total_cmp);
    let total: f64 = us.iter().sum();
    assert_eq!(number(s.total_us), total);
    assert_eq!(number(s.mean_us), total / 4.0);
    assert_eq!(number(s.p50_us), 0.2 * 1000.0);
    let by_label = parsed.by_label();
    assert_eq!(by_label.get("Young").map(|e| (e.0, number(e.1))), Some((4, in_order)));
    assert_eq!(parse_size("0.1K"), Some((0.1_f64 * 1024.0) as u64));
    assert_eq!(parse_size("1e30T"), Some(u64::MAX));
    assert_eq!(parse_size("-1M"), None);
    assert_eq!(parse_size("-0M"), Some(0));
    assert_eq!(parse_size("NaNM"), None);
}
