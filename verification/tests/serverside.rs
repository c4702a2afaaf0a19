use spate_bench::double::Double;
use spate_bench::sampler::Sample;
use spate_bench::sampler::Samples;
use spate_bench::serverside::attribution_sql;
use spate_bench::serverside::flush_logs;
use spate_bench::serverside::measure;
use spate_bench::serverside::measure_merges;
use spate_bench::serverside::merge_sql;
use spate_bench::serverside::parse_merge_activity;
use spate_bench::serverside::parse_profile_events;
use spate_bench::serverside::parse_response;
use spate_bench::serverside::qualify;
use spate_bench::serverside::settle_sql;
use spate_bench::serverside::summarise;
use spate_bench::serverside::wait_until_settled;
use spate_bench::serverside::ProfileCounters;
use spate_bench::serverside::RowType;
use spate_bench::serverside::ServerSideCost;
use spate_bench::serverside::ServerSideError;
use spate_bench::serverside::Settle;
use spate_bench::serverside::Window;
use spate_bench::serverside::COUNTERS;
use spate_bench::serverside::SETTLE_MAX_S;
use spate_bench::serverside::SETTLE_POLL_MS;
use spate_bench::serverside::SETTLE_QUIET_MS;

fn number(x: Double) -> f64 {
    f64::from_bits(x.to_bits())
}

fn double(x: f64) -> Double {
    Double::of_bits(x.to_bits())
}

const REAL_INSERTS: &str = "\
QueryFinish\t262555\t437\t{'InsertedRows':262555,'InsertedBytes':16938179,'RealTimeMicroseconds':437970,'UserTimeMicroseconds':170850,'SystemTimeMicroseconds':3911,'OSCPUWaitMicroseconds':262949,'OSCPUVirtualTimeMicroseconds':174760}
QueryFinish\t262154\t427\t{'InsertedRows':262154,'InsertedBytes':16913682,'RealTimeMicroseconds':428015,'UserTimeMicroseconds':168868,'SystemTimeMicroseconds':951,'OSCPUWaitMicroseconds':257986,'OSCPUVirtualTimeMicroseconds':169818}
QueryFinish\t262275\t435\t{'InsertedRows':262275,'InsertedBytes':16921676,'RealTimeMicroseconds':435253,'UserTimeMicroseconds':165147,'SystemTimeMicroseconds':4491,'OSCPUWaitMicroseconds':265343,'OSCPUVirtualTimeMicroseconds':169637}
";

fn window() -> Window {
    Window::new(1_784_979_298_378, 1_784_979_598_378).expect("a forward window")
}

fn summarised(body: &str) -> Result<ServerSideCost, ServerSideError> {
    let rows = parse_response(body)?;
    summarise(&rows, &["default.sensor_events_t"], window())
}

#[test]
fn parses_a_merge_reading() {
    let m = parse_merge_activity("1966080\t2431\n").expect("two integers parse");
    assert_eq!(m.rows_merged, 1_966_080);
    assert_eq!(m.duration_ms, 2431);
}

#[test]
fn a_window_with_no_merges_reads_as_zero() {
    let m = parse_merge_activity("0\t0\n").expect("a zero row parses");
    assert_eq!(m.rows_merged, 0);
    assert_eq!(m.duration_ms, 0);
}

#[test]
fn a_part_log_exception_is_not_a_zero_reading() {
    let err = parse_merge_activity(
        "Code: 60. DB::Exception: Table system.part_log does not exist. (UNKNOWN_TABLE)",
    )
    .expect_err("an exception refuses");
    assert!(
        matches!(err, ServerSideError::ServerException(_)),
        "{err:?}"
    );
}

#[test]
fn a_malformed_merge_row_is_refused() {
    for body in ["", "1966080", "a\tb", "1\t2\t3"] {
        assert!(
            parse_merge_activity(body).is_err(),
            "{body:?} should not parse"
        );
    }
}

#[test]
fn merge_sql_qualifies_the_table_and_bounds_the_partition_scan() {
    let sql = merge_sql(&["default.sensor_events"], window());
    assert!(
        sql.contains("concat(database, '.', table) IN ('default.sensor_events')"),
        "{sql}"
    );
    assert!(sql.contains("event_type = 'MergeParts'"), "{sql}");
    assert!(
        sql.contains("toDate(fromUnixTimestamp64Milli(1784979298378)) - 1"),
        "{sql}"
    );
    assert!(
        sql.contains("toDate(fromUnixTimestamp64Milli(1784979598378)) + 1"),
        "{sql}"
    );
    assert!(
        sql.contains("event_time_microseconds >= fromUnixTimestamp64Milli(1784979298378)"),
        "{sql}"
    );
    assert!(
        sql.contains("event_time_microseconds < fromUnixTimestamp64Milli(1784979598378)"),
        "{sql}"
    );
}

#[test]
fn parses_a_real_query_log_response() {
    let rows = parse_response(REAL_INSERTS).expect("the reference response parses");
    assert_eq!(rows.len(), 3);
    assert_eq!(rows[0].row_type, RowType::Finish);
    assert_eq!(rows[0].written_rows, 262_555);
    assert_eq!(rows[0].duration_ms, 437);
    assert_eq!(rows[0].events.user_us, Some(170_850));
    assert_eq!(rows[0].events.system_us, Some(3_911));
    assert_eq!(rows[0].events.inserted_bytes, Some(16_938_179));
    assert_eq!(rows[0].events.async_insert_query, None);
}

#[test]
fn cpu_is_user_plus_system_and_not_thread_wall_clock() {
    let cost = summarised(REAL_INSERTS).expect("three real inserts summarise");
    let user_plus_system = 170_850.0 + 3_911.0 + 168_868.0 + 951.0 + 165_147.0 + 4_491.0;
    assert!((cost.cpu_us as f64 - user_plus_system).abs() < 1e-9);

    // The OS's own view of the same quantity, to within a microsecond a row.
    let os = cost.os_cpu_virtual_us.expect("the counter was present") as f64;
    assert!(
        (cost.cpu_us as f64 - os).abs() / (cost.cpu_us as f64) < 1e-4,
        "user+system {} against OSCPUVirtualTime {os}",
        cost.cpu_us
    );

    // And the counter that must not be mistaken for CPU.
    let real = cost.real_us.expect("the counter was present") as f64;
    let wait = cost.os_cpu_wait_us.expect("the counter was present") as f64;
    assert!(
        real > cost.cpu_us as f64 * 2.0,
        "RealTime {real} should dwarf CPU {} under a cap",
        cost.cpu_us
    );
    assert!(
        (real - (cost.cpu_us as f64 + wait)).abs() / real < 0.01,
        "RealTime {real} should be CPU {} plus wait {wait}",
        cost.cpu_us
    );
}

#[test]
fn divides_by_the_rows_the_server_wrote_and_by_the_rows_the_driver_counted() {
    let cost = summarised(REAL_INSERTS).expect("three real inserts summarise");
    assert_eq!(cost.written_rows, 262_555 + 262_154 + 262_275);
    // 0.66 microseconds of server CPU per row inserted, in RowBinary.
    let per_written = cost
        .cpu_us_per_written_row()
        .map(number)
        .expect("rows were written, so the division is defined");
    assert!(
        (0.6..0.7).contains(&per_written),
        "server cost was {per_written} us/row"
    );

    // The comparable figure divides by what the driver counted instead, and
    // the two coincide only when the arm inserted each row exactly once.
    let landed = u64::try_from(cost.written_rows).expect("a row count");
    let per_landed = cost
        .cpu_us_per_landed_row(landed)
        .map(number)
        .expect("a positive row count");
    assert!((per_written - per_landed).abs() < 1e-12);

    let duplicated = cost
        .cpu_us_per_landed_row(landed / 2)
        .map(number)
        .expect("a positive row count");
    assert!((duplicated - per_written * 2.0).abs() < 1e-9);
}

#[test]
fn a_query_start_row_is_counted_but_is_never_a_measurement() {
    // The server logs a start for every insert, so a complete window has one
    // of each.
    let starts = "QueryStart\t0\t0\t{}\n".repeat(3);
    let cost = summarised(&format!("{starts}{REAL_INSERTS}")).expect("the finishes summarise");
    assert_eq!(cost.queries, 3);
    assert_eq!(cost.queries_started, 3);
    assert_eq!(cost.written_rows, 262_555 + 262_154 + 262_275);
    assert!(
        !cost.provenance().contains("in flight"),
        "{}",
        cost.provenance()
    );

    // A fourth start with no finish: the arm was killed under its own insert,
    // which must not read as an arm that simply stopped inserting.
    let killed = format!("{starts}QueryStart\t0\t0\t{{}}\n{REAL_INSERTS}");
    let cost = summarised(&killed).expect("the finishes still summarise");
    assert!(
        cost.provenance().contains("1 insert(s) still in flight"),
        "{}",
        cost.provenance()
    );
}

#[test]
fn a_failed_insert_is_counted_but_not_charged_per_row() {
    let body = format!(
        "{REAL_INSERTS}ExceptionWhileProcessing\t0\t12\t{{'UserTimeMicroseconds':9000}}\n"
    );
    let cost = summarised(&body).expect("the completed inserts still summarise");
    assert_eq!(cost.queries, 3);
    assert_eq!(cost.failed_queries, 1);
    let expected = 170_850.0 + 3_911.0 + 168_868.0 + 951.0 + 165_147.0 + 4_491.0;
    assert!((cost.cpu_us as f64 - expected).abs() < 1e-9, "{}", cost.cpu_us);
}

#[test]
fn an_asynchronous_insert_is_refused_rather_than_under_reported() {
    let body = "QueryFinish\t0\t3\t{'AsyncInsertQuery':1,'AsyncInsertRows':25000,\
                'UserTimeMicroseconds':1200,'SystemTimeMicroseconds':40}\n";
    let e = summarised(body).expect_err("an async insert must be refused");
    match e {
        ServerSideError::AsyncInsertsNotAttributable {
            async_queries,
            wrote_nothing,
            queries,
        } => {
            assert_eq!((async_queries, wrote_nothing, queries), (1, 1, 1));
        }
        other => panic!("wrong refusal: {other:?}"),
    }
    assert!(
        e.message().contains("async_insert=0"),
        "the refusal must say how to fix it"
    );
}

#[test]
fn a_window_that_matched_nothing_is_a_refusal_and_never_a_zero() {
    let e = summarised("").expect_err("an empty response must be refused");
    assert!(matches!(e, ServerSideError::NoAttributedQueries { .. }));
    // And it names the two mistakes that produce it.
    let text = e.message();
    assert!(text.contains("qualified"), "{text}");
    assert!(text.contains("sampler"), "{text}");
}

#[test]
fn a_counter_the_server_did_not_report_is_absent_rather_than_zero() {
    let empty = parse_profile_events("{}").expect("an empty map parses");
    assert_eq!(empty, ProfileCounters::default());
    assert_eq!(empty.cpu_us(), None);

    // Kernel time genuinely zero on a short insert is not the same as the
    // server never having said.
    let only_user =
        parse_profile_events("{'UserTimeMicroseconds':1200}").expect("one entry parses");
    assert_eq!(only_user.system_us, None);
    assert_eq!(only_user.cpu_us(), Some(1200));

    let body = "QueryFinish\t10\t1\t{}\n";
    let e = summarised(body).expect_err("no CPU counters at all must be refused");
    assert!(matches!(e, ServerSideError::NoCpuCounters { queries: 1 }));
}

#[test]
fn a_row_that_does_not_match_the_projection_is_refused() {
    assert!(matches!(
        parse_response("QueryFinish\t10\t1\n"),
        Err(ServerSideError::Malformed { .. })
    ));
    assert!(matches!(
        parse_response("Whatever\t10\t1\t{}\n"),
        Err(ServerSideError::Malformed { .. })
    ));
    assert!(matches!(
        parse_profile_events("UserTimeMicroseconds=5"),
        Err(ServerSideError::Malformed { .. })
    ));
    assert!(matches!(
        parse_profile_events("{'UserTimeMicroseconds':not-a-number}"),
        Err(ServerSideError::Malformed { .. })
    ));
    // The line is handed back whole, whichever of its columns is at fault.
    for line in ["QueryFinish\t10\t1\tbad", "QueryFinish\t10\tx\t{}", "QueryFinish"] {
        assert!(matches!(
            parse_response(&format!("QueryStart\t0\t0\t{{}}\n{line}\n")),
            Err(ServerSideError::Malformed { line: l, .. }) if l == line
        ));
    }
    // A counter this binary does not know is ignored, so a future ClickHouse
    // adding one to the projection does not fail the read.
    let ok = parse_profile_events("{'SomethingNew':7,'UserTimeMicroseconds':5}")
        .expect("an unknown key is not a defect");
    assert_eq!(ok.user_us, Some(5));
}

#[test]
fn a_server_exception_is_a_typed_refusal_rather_than_a_panic() {
    let body = "Code: 60. DB::Exception: Table system.query_log does not exist.";
    let e = parse_response(body).expect_err("an exception body must be refused");
    assert!(matches!(e, ServerSideError::ServerException(_)));
    assert!(e.message().contains("query_log"));
}

#[test]
fn the_attribution_query_excludes_the_harnesss_own_queries() {
    let sql = attribution_sql(&["default.sensor_events"], window(), false);
    assert!(sql.contains("query_kind = 'Insert'"), "{sql}");
    assert!(
        sql.contains("hasAny(tables, ['default.sensor_events'])"),
        "{sql}"
    );
    assert!(sql.contains("AND is_initial_query"), "{sql}");
    assert!(
        sql.contains(
            "query_start_time_microseconds >= fromUnixTimestamp64Milli(1784979298378)"
        ),
        "{sql}"
    );
    assert!(
        sql.contains("query_start_time_microseconds < fromUnixTimestamp64Milli(1784979598378)"),
        "{sql}"
    );
    // Partition pruning, a day either side, because `event_date` is derived
    // in the server's timezone and the bounds are epoch milliseconds.
    assert!(sql.contains("event_date >="), "{sql}");
    assert!(sql.contains("event_date <="), "{sql}");
    // Every counter the summary can read has to be in the projection, or it
    // is absent for a reason that has nothing to do with the server.
    for c in COUNTERS.split(", ") {
        assert!(sql.contains(c), "{c} is missing from the projection");
    }
    // Both tables of a multi-table arm.
    let two = attribution_sql(
        &["default.landing", "default.sensor_events"],
        window(),
        false,
    );
    assert!(
        two.contains("hasAny(tables, ['default.landing', 'default.sensor_events'])"),
        "{two}"
    );
}

#[test]
fn a_forwarded_inserts_arm_inverts_the_initial_query_predicate() {
    let strict = attribution_sql(&["default.sensor_events"], window(), false);
    let forwarded = attribution_sql(&["default.sensor_events"], window(), true);
    // The strict predicate appears exactly once, so the replace below is
    // provably a single edit and not a family of them.
    assert_eq!(
        strict.matches("AND is_initial_query ").count(),
        1,
        "{strict}"
    );
    // The whole transformation is that one negation and nothing else: the
    // forwarded query IS the strict query with the predicate inverted, so
    // every other predicate survives by equality rather than by a
    // hand-maintained list.
    assert_eq!(
        forwarded,
        strict.replace("AND is_initial_query ", "AND NOT is_initial_query "),
    );
}

#[test]
fn the_window_comes_from_the_samplers_own_timestamps() {
    let series = Samples {
        meta: String::new(),
        rows: vec![
            Sample {
                t_ms: 1_000,
                usage_usec: 0,
                user_usec: 0,
                system_usec: 0,
                nr_throttled: 0,
                throttled_usec: 0,
                mem_current: 1,
                mem_peak: 1,
                anon: 1,
                file: 0,
                slab: 0,
                kernel_stack: 0,
                sock: 0,
            },
            // Unreadable: a sentinel row is not evidence of a time either.
            Sample {
                t_ms: 9_999,
                usage_usec: -1,
                user_usec: -1,
                system_usec: -1,
                nr_throttled: -1,
                throttled_usec: -1,
                mem_current: 1,
                mem_peak: 1,
                anon: 1,
                file: 0,
                slab: 0,
                kernel_stack: 0,
                sock: 0,
            },
            Sample {
                t_ms: 5_000,
                usage_usec: 10,
                user_usec: 10,
                system_usec: 0,
                nr_throttled: 0,
                throttled_usec: 0,
                mem_current: 1,
                mem_peak: 1,
                anon: 1,
                file: 0,
                slab: 0,
                kernel_stack: 0,
                sock: 0,
            },
        ],
        wall_s: double(4.0),
    };
    let w = Window::spanning(&[&series]).expect("two readable samples span a window");
    assert_eq!(
        w,
        Window {
            from_ms: 1_000,
            to_ms: 5_000
        }
    );
    assert!((number(w.seconds()) - 4.0).abs() < 1e-9);

    // A window that does not run forwards is refused rather than silently
    // matching nothing, which would be diagnosed as an arm that never
    // inserted.
    assert!(matches!(
        Window::new(5, 5),
        Err(ServerSideError::EmptyWindow { .. })
    ));
}

#[test]
fn the_provenance_line_states_what_the_figure_leaves_out() {
    let cost = summarised(REAL_INSERTS).expect("three real inserts summarise");
    let p = cost.provenance();
    assert!(p.contains("3 insert(s)"), "{p}");
    assert!(p.contains("default.sensor_events_t"), "{p}");
    assert!(p.contains("excludes background merges"), "{p}");
    assert!((number(cost.rows_per_insert()) - 262_328.0).abs() < 1.0, "{p}");
}

#[test]
fn an_answer_that_did_not_come_is_a_transport_refusal() {
    let flushed: Result<String, String> = Ok(String::new());
    let gone: Result<String, String> = Err("refused".to_owned());
    assert!(matches!(
        measure(&flushed, &gone, &["default.t"], window()),
        Err(ServerSideError::Transport(_))
    ));
    assert!(matches!(measure_merges(&flushed, &gone), Err(ServerSideError::Transport(_))));
    assert!(matches!(flush_logs(&gone), Err(ServerSideError::Transport(_))));
    let refused: Result<String, String> = Ok("Code: 1. DB::Exception: no".to_owned());
    assert!(matches!(flush_logs(&refused), Err(ServerSideError::ServerException(_))));
    assert!(flush_logs(&Ok(String::new())).is_ok());
}

#[test]
fn a_measurement_is_the_summary_of_the_response() {
    let answer: Result<String, String> = Ok(REAL_INSERTS.to_owned());
    let flushed: Result<String, String> = Ok(String::new());
    let tables = ["default.sensor_events_t"];
    let cost = measure(&flushed, &answer, &tables, window()).expect("measured");
    assert_eq!(cost.queries, 3);
    assert_eq!(cost.tables, vec!["default.sensor_events_t".to_owned()]);
    let unflushed: Result<String, String> = Err("refused".to_owned());
    assert!(matches!(
        measure(&unflushed, &answer, &tables, window()),
        Err(ServerSideError::Transport(why)) if why == "refused"
    ));
}

#[test]
fn a_table_is_named_as_the_log_writes_it() {
    assert_eq!(qualify("default", "sensor_events"), "default.sensor_events");
}

#[test]
fn the_wait_for_a_quiet_server_is_bounded_and_never_hangs_on_a_bad_answer() {
    assert!(settle_sql("t").contains("system.merges"));
    let busy: Result<String, String> = Ok("3\n".to_owned());
    assert_eq!(wait_until_settled(0, &busy), Settle::Poll(SETTLE_POLL_MS));
    assert_eq!(wait_until_settled(SETTLE_MAX_S * 1000, &busy), Settle::Quiet(SETTLE_QUIET_MS));
    assert_eq!(wait_until_settled(0, &Ok("0\n".to_owned())), Settle::Quiet(SETTLE_QUIET_MS));
    assert_eq!(wait_until_settled(0, &Err("gone".to_owned())), Settle::Quiet(SETTLE_QUIET_MS));
}

#[test]
fn only_exception_rows_record_a_failure() {
    assert!(RowType::ExceptionBeforeStart.is_exception());
    assert!(RowType::ExceptionWhileProcessing.is_exception());
    assert!(!RowType::Start.is_exception());
    assert!(!RowType::Finish.is_exception());
}

#[test]
fn an_insert_that_finished_having_written_nothing_is_refused_like_an_asynchronous_one() {
    let body = format!("{REAL_INSERTS}QueryFinish\t0\t3\t{{'UserTimeMicroseconds':1200}}\n");
    assert!(matches!(
        summarised(&body),
        Err(ServerSideError::AsyncInsertsNotAttributable {
            async_queries: 0,
            wrote_nothing: 1,
            queries: 4,
        })
    ));
}
