use spate_bench::driver::figures::latency_in_window;
use spate_bench::driver::figures::latency_sql;
use spate_bench::driver::figures::rows_in_window;
use spate_bench::driver::figures::rows_in_window_sql;
use spate_bench::driver::figures::Gc;
use spate_bench::driver::figures::Latency;
use spate_bench::driver::figures::Load;
use spate_bench::driver::measure::achieved;
use spate_bench::driver::measure::arm_cost;
use spate_bench::driver::measure::attribution_tables;
use spate_bench::driver::measure::conclude;
use spate_bench::driver::measure::cost_notice;
use spate_bench::driver::measure::merge_notice;
use spate_bench::driver::measure::counting_window;
use spate_bench::driver::measure::data_plane_cost;
use spate_bench::driver::measure::data_plane_name;
use spate_bench::driver::measure::forwards_inserts;
use spate_bench::driver::measure::gate_window;
use spate_bench::driver::measure::judge;
use spate_bench::driver::measure::Gates;
use spate_bench::driver::measure::Headroom;
use spate_bench::driver::measure::Held;
use spate_bench::driver::measure::Measurement;
use spate_bench::driver::measure::Observations;
use spate_bench::driver::measure::Workload;
use spate_bench::driver::record::check_pin;
use spate_bench::driver::record::image_for;
use spate_bench::driver::record::record;
use spate_bench::driver::window::LoadReport;
use spate_bench::driver::window::Quiesced;
use spate_bench::driver::Arm;
use spate_bench::driver::Mode;
use spate_bench::driver::RunOptions;
use spate_bench::entrant::Approach;
use spate_bench::entrant::Build;
use spate_bench::entrant::ClickhouseSpec;
use spate_bench::entrant::Container;
use spate_bench::entrant::Display;
use spate_bench::entrant::Entrant;
use spate_bench::entrant::Envelope;
use spate_bench::entrant::Identity;
use spate_bench::entrant::Knob;
use spate_bench::entrant::Maintainer;
use spate_bench::entrant::Role;
use spate_bench::entrant::Spec;
use spate_bench::entrant::Status as Life;
use spate_bench::entrant::Variant;
use spate_bench::entrant::VersionSource;
use spate_bench::entrant::DESCRIPTOR_SCHEMA;
use spate_bench::environment;
use spate_bench::environment::Class;
use spate_bench::environment::Environment;
use spate_bench::double::Double;
use spate_bench::report::Flag;
use spate_bench::report::Infra;
use spate_bench::report::Report;
use spate_bench::report::Sitting;
use spate_bench::report::Status;
use spate_bench::report::Sut;
use spate_bench::report::Trigger;
use spate_bench::report::Value;
use spate_bench::sampler::Sample;
use spate_bench::sampler::Samples;
use spate_bench::serverside::MergeActivity;
use spate_bench::table::Table;
use spate_bench::driver::measure::ask_server;
use spate_bench::driver::measure::measure_server_side;
use spate_bench::driver::measure::Answer;
use spate_bench::serverside::merge_sql;
use spate_bench::serverside::ServerSideError;

fn number(x: Double) -> f64 {
    f64::from_bits(x.to_bits())
}

fn double(x: f64) -> Double {
    Double::of_bits(x.to_bits())
}

fn variant() -> Variant {
    let mut knobs = Table::new();
    knobs.insert("threads".to_owned(), Knob::Integer(6));
    knobs.insert("odd".to_owned(), Knob::Other);
    let mut reports = Table::new();
    reports.insert("wire_format".to_owned(), "native".to_owned());
    Variant {
        id: "only".to_owned(),
        label: "only".to_owned(),
        approach: Approach::Stripped,
        unshipped: Vec::new(),
        default: true,
        env: Table::new(),
        knobs,
        reports,
    }
}

fn entrant() -> Entrant {
    Entrant {
        dir: "entrants/probe".to_owned(),
        spec: Spec {
            schema: DESCRIPTOR_SCHEMA,
            entrant: Identity {
                id: "probe".to_owned(),
                name: "Probe".to_owned(),
                homepage: String::new(),
                repo: String::new(),
                docs: String::new(),
                licence: "Apache-2.0".to_owned(),
                vendor: "probe".to_owned(),
                kind: "stream-processor".to_owned(),
                language: vec!["rust".to_owned()],
                runtime: "native".to_owned(),
                status: Life::Active,
            },
            maintainer: Maintainer {
                who: "bench".to_owned(),
                reviewed_upstream: false,
                review_url: String::new(),
            },
            display: Display {
                order: 1,
                hue: 0,
                short: "Probe".to_owned(),
            },
            version: Some(VersionSource {
                strategy: "command".to_owned(),
                command: vec!["/probe".to_owned()],
                pinned: "1.2.3".to_owned(),
            }),
            build: Some(Build {
                context: ".".to_owned(),
                dockerfile: "Dockerfile".to_owned(),
                image: "probe-image".to_owned(),
                secrets: Vec::new(),
            }),
            envelope: Some(Envelope {
                cpus: "4".to_owned(),
                memory: "8g".to_owned(),
                containers: vec![Container {
                    role: Role::DataPlane,
                    name: "sut".to_owned(),
                    cpus: "4".to_owned(),
                    memory: "8g".to_owned(),
                    args: Vec::new(),
                    gc_log: None,
                }],
            }),
            guarantees: None,
            volumes: None,
            env: Table::new(),
            variants: Vec::new(),
            constraints: Vec::new(),
            deviations: Vec::new(),
            clickhouse: None,
            planned: None,
        },
    }
}

fn options() -> RunOptions {
    RunOptions {
        reps: 3,
        mode: Mode::Drain,
        env_id: "box".to_owned(),
        trigger: Trigger::Manual,
        dry_run: false,
        fresh_infra: false,
        fail_fast: false,
        topic: "events".to_owned(),
        batches: 1000,
        knobs: Table::new(),
    }
}

fn environment(class: Class) -> Environment {
    Environment {
        spec: environment::Profile {
            id: "box".to_owned(),
            class,
            host: environment::Host {
                description: String::new(),
                cpu: String::new(),
                cores: 18,
                core_layout: String::new(),
                memory: String::new(),
                os: String::new(),
                arch: String::new(),
                vm_cpus: 18,
                vm_memory: String::new(),
                caveats: String::new(),
            },
            infra: environment::Infra {
                partitions: 8,
                broker: environment::Broker {
                    kind: "redpanda".to_owned(),
                    image: "r".to_owned(),
                    cpus: "3".to_owned(),
                    memory: "8g".to_owned(),
                    registry: "builtin".to_owned(),
                },
                clickhouse: environment::ClickHouse {
                    image: "c".to_owned(),
                    cpus: "16".to_owned(),
                    memory: "16g".to_owned(),
                },
                storage: environment::Storage::default(),
            },
            ceiling: environment::CeilingRef {
                file: "c.json".to_owned(),
            },
            noise: environment::Noise::default(),
        },
        digest: "0123456789ab".to_owned(),
        dir: ".".to_owned(),
    }
}

fn infra() -> Infra {
    Infra {
        digest: "e3b0c44298fc".to_owned(),
        broker: "redpanda".to_owned(),
        broker_version: "v1".to_owned(),
        broker_image_digest: "sha256:b".to_owned(),
        broker_cpus: "300000 100000".to_owned(),
        broker_memory: "8589934592".to_owned(),
        clickhouse_version: "26.3".to_owned(),
        clickhouse_image_digest: "sha256:c".to_owned(),
        clickhouse_cpus: "1600000 100000".to_owned(),
        clickhouse_memory: "17179869184".to_owned(),
        partitions: 8,
        storage: "shared-root".to_owned(),
        registry: "builtin".to_owned(),
        ceiling_msgs_per_s: 300_000,
        ceiling_bytes_per_s: 1,
        ceiling_rows_per_s: 0,
    }
}

fn sut() -> Sut {
    Sut {
        entrant: "probe".to_owned(),
        variant_id: "only".to_owned(),
        version: Some("1.2.3".to_owned()),
        commit: None,
        image_digest: "sha256:a".to_owned(),
        image: "probe-image".to_owned(),
        toolchain: None,
    }
}

fn sample(t_ms: u64, usage_usec: i64, anon: i64) -> Sample {
    Sample {
        t_ms,
        usage_usec,
        user_usec: usage_usec,
        system_usec: 0,
        nr_throttled: 0,
        throttled_usec: 0,
        mem_current: anon,
        mem_peak: anon,
        anon,
        file: 0,
        slab: 0,
        kernel_stack: 0,
        sock: 0,
    }
}

/// A container that used two cores for a hundred seconds.
fn series(meta: &str) -> Vec<(String, Samples)> {
    vec![(
        "spate-bench-sut-sut".to_owned(),
        Samples {
            meta: meta.to_owned(),
            rows: vec![sample(1_000, 0, 50), sample(101_000, 200_000_000, 70)],
            wall_s: double(100.0),
        },
    )]
}

const CAPS: &str = "cgroup=/x cpu.max=400000/100000 memory.max=8589934592";

fn observations(held: Held) -> Observations {
    let costs = series(CAPS);
    Observations {
        cost: arm_cost(&costs).expect("a cost"),
        data_plane: None,
        gc: Gc::default(),
        held,
        headroom: Headroom {
            summary: "40% of consume".to_owned(),
            infra_bound: false,
            proven: true,
            ingest_rows_per_s: Some(4_000_000),
        },
        server: None,
        merges: Some(MergeActivity {
            rows_merged: 7,
            duration_ms: 3,
        }),
        gate_batches: 67,
        settled: Quiesced {
            rows: 73_500,
            settled: true,
        },
        settle_s: double(2.250_000_123),
    }
}

const WORK: Workload = Workload {
    expected_rows: 73_500,
    batches: 1_000,
};

fn passed() -> Result<Gates, String> {
    Ok(Gates {
        failure: None,
        duplicates: 5,
    })
}

fn sustained(rows: u64) -> Held {
    Held::Sustained {
        rows,
        report: LoadReport {
            target_rate: 1_000,
            sent: 130_000,
            failed: 0,
            achieved_share: double(1.0),
            max_schedule_lag_ms: double(12.0),
        },
        threads: 1,
        latency: Latency {
            p50_us: double(3_100.0),
            p99_us: double(41_000.0),
            p999_us: double(260_000.0),
            max_us: double(1_900_000.0),
            rows,
        },
    }
}

#[test]
fn a_series_is_judged_before_it_is_believed() {
    let (e, v) = (entrant(), variant());
    let arm = Arm {
        entrant: &e,
        variant: &v,
        image: None,
    };
    let parts = judge(&arm, &series(CAPS)).expect("whole and capped");
    assert_eq!(parts.len(), 1);
    assert_eq!(data_plane_name(&arm).as_deref(), Some("spate-bench-sut-sut"));
    assert_eq!(data_plane_cost(&arm, &parts).map(|c| c.cpu_us), Some(200_000_000));

    let m = judge(&arm, &series("cpu.max=max/100000 memory.max=max")).expect_err("uncapped");
    assert!(m.starts_with("REFUSED: spate-bench-sut-sut declares cpus=4"), "{m}");

    let mut thin = series(CAPS);
    thin[0].1.rows.truncate(1);
    let m = judge(&arm, &thin).expect_err("one sample");
    assert!(m.contains("no usable summary for spate-bench-sut-sut"), "{m}");
    assert_eq!(
        arm_cost(&thin).expect_err("no cost"),
        "the arm's containers did not summarise into one cost"
    );
}

#[test]
fn caps_are_held_against_the_container_of_that_very_name() {
    let (mut e, v) = (entrant(), variant());
    if let Some(env) = e.spec.envelope.as_mut() {
        // Its name ends the other's, and it is declared first.
        let mut short = env.containers[0].clone();
        short.name = "ut".to_owned();
        short.cpus = "1".to_owned();
        env.containers.insert(0, short);
    }
    let arm = Arm {
        entrant: &e,
        variant: &v,
        image: None,
    };
    assert!(judge(&arm, &series(CAPS)).is_ok());
}

#[test]
fn an_arm_costs_what_its_containers_cost_together() {
    let mut costs = series(CAPS);
    costs.push((
        "spate-bench-sut-jm".to_owned(),
        Samples {
            meta: String::new(),
            rows: vec![sample(1_000, 0, 90), sample(101_000, 1_000_000, 10)],
            wall_s: double(100.0),
        },
    ));
    let cost = arm_cost(&costs).expect("a cost");
    assert_eq!(cost.cpu_us, 201_000_000);
    // Held at once, where the two peaks add up to 160.
    assert_eq!(cost.peak_anon_bytes, 140);
    assert_eq!(counting_window(&costs), Ok((1_000, 101_000)));
}

#[test]
fn a_drain_is_measured_with_its_account() {
    let m = conclude(observations(Held::Drain { rows: 73_500 }), &WORK, passed()).expect("measured");
    assert_eq!(
        m.note,
        "2 sampler samples over 100.0s; headroom 40% of consume; gate window 67 batches, quiesced at 73500 rows"
    );
    assert_eq!(m.status, Status::Passed);
    assert_eq!(number(m.rows_per_s), 735.0);
    assert_eq!(m.duplicates, 5);
    assert_eq!(m.load, Load::Drain);
    assert!(m.flags.is_empty());
    assert_eq!(m.ceiling_rows_per_s, 4_000_000);
}

#[test]
fn an_arm_that_outran_a_ceiling_is_demoted_and_says_so() {
    let mut o = observations(Held::Drain { rows: 1 });
    o.headroom.infra_bound = true;
    o.headroom.proven = false;
    o.headroom.ingest_rows_per_s = None;
    let m = conclude(o, &WORK, passed()).expect("measured");
    assert_eq!(m.status, Status::InfraBound);
    assert!(m.note.contains("INFRA-BOUND: above 70%"), "{}", m.note);
    assert_eq!(m.flags, vec![Flag::HeadroomUnproven]);
    assert_eq!(m.ceiling_rows_per_s, 0);
}

#[test]
fn an_arm_that_fell_behind_is_saturated() {
    // Offered 73,500 rows a second; a hundred seconds of that is 7,350,000.
    let m = conclude(observations(sustained(7_350_000)), &WORK, passed()).expect("measured");
    assert!(m.flags.is_empty());
    assert!(m.note.contains("kept up 1.000"), "{}", m.note);
    match &m.load {
        Load::Sustained(s) => assert_eq!(number(s.offered_rows_per_s), 73_500.0),
        Load::Drain => panic!("a sustained window"),
    }

    let m = conclude(observations(sustained(3_013_500)), &WORK, passed()).expect("measured");
    assert_eq!(m.flags, vec![Flag::Saturated]);
    assert!(m.note.starts_with("SATURATED — the arm consumed 41% of"), "{}", m.note);
}

#[test]
fn an_arm_that_failed_a_gate_is_refused() {
    let failed = || {
        Ok(Gates {
            failure: Some("12 rows missing".to_owned()),
            duplicates: 0,
        })
    };
    let m = conclude(observations(Held::Drain { rows: 1 }), &WORK, failed()).expect_err("refused");
    assert_eq!(m, "correctness gate failed: 12 rows missing");
    let mut o = observations(Held::Drain { rows: 1 });
    o.settled.settled = false;
    let m = conclude(o, &WORK, failed()).expect_err("refused");
    assert!(m.contains("NOT settled after 900s"), "{m}");
    let m = conclude(
        observations(Held::Drain { rows: 1 }),
        &WORK,
        Err("timeout".to_owned()),
    )
    .expect_err("refused");
    assert_eq!(m, "timeout");
}

#[test]
fn what_an_arm_achieved_is_stated_in_the_ceilings_units() {
    let (mut e, v) = (entrant(), variant());
    let cost = observations(Held::Drain { rows: 1 }).cost;
    {
        let arm = Arm {
            entrant: &e,
            variant: &v,
            image: None,
        };
        let a = achieved(&arm, &cost, 73_500, &WORK);
        assert_eq!(number(a.rows_per_s), 735.0);
        assert_eq!(number(a.msgs_per_s), 10.0);
        assert_eq!(a.wire_format, "native");
        assert!(!a.server_side_transform);
        assert_eq!(attribution_tables(&arm, "default", "t"), vec!["default.t".to_owned()]);
        assert!(!forwards_inserts(&arm));
    }
    e.spec.clickhouse = Some(ClickhouseSpec {
        arm_sql: "a.sql".to_owned(),
        arm_teardown_sql: "b.sql".to_owned(),
        attribution_tables: vec!["landing".to_owned()],
        forwarded_inserts: true,
    });
    let arm = Arm {
        entrant: &e,
        variant: &v,
        image: None,
    };
    assert!(achieved(&arm, &cost, 1, &WORK).server_side_transform);
    assert_eq!(
        attribution_tables(&arm, "default", "t"),
        vec!["default.t".to_owned(), "default.landing".to_owned()]
    );
    assert!(forwards_inserts(&arm));
}

#[test]
fn rows_and_latency_are_read_over_one_interval() {
    assert!(rows_in_window_sql("t", 1, 2).contains("FROM t WHERE"));
    assert!(latency_sql("t", 1, 2).contains("quantile(0.999)"));
    assert_eq!(rows_in_window(&Ok("12\n".to_owned())), Ok(12));
    assert!(rows_in_window(&Err("gone".to_owned())).is_err());
    let l = latency_in_window(&Ok("3100\t41000\t260000\t1900000\t91\n".to_owned())).expect("read");
    assert_eq!((number(l.p50_us), number(l.max_us), l.rows), (3_100.0, 1_900_000.0, 91));
    let l = latency_in_window(&Ok("1234.5600000000002\t1e3\tinf\t18446744073709551616.5\t91".to_owned()))
        .expect("read");
    assert_eq!(number(l.p50_us), 1234.5600000000002);
    assert_eq!(number(l.p99_us), 1000.0);
    assert_eq!(number(l.p999_us), f64::INFINITY);
    assert_eq!(number(l.max_us), 18_446_744_073_709_551_616.5);
    assert!(latency_in_window(&Ok("1\t2\n".to_owned())).is_err());
}

fn recorded(class: Class, opts: &RunOptions, outcome: &Result<Measurement, String>) -> Report {
    let (e, v) = (entrant(), variant());
    let arm = Arm {
        entrant: &e,
        variant: &v,
        image: None,
    };
    record(
        &Sitting::begin(None, "d2"),
        &environment(class),
        &infra(),
        &arm,
        opts,
        2,
        sut(),
        &[Flag::ReusedInfra],
        outcome,
    )
}

#[test]
fn a_measurement_is_recorded_with_its_figures() {
    let outcome = conclude(observations(Held::Drain { rows: 73_500 }), &WORK, passed());
    let r = recorded(Class::Indicative, &options(), &outcome);
    assert_eq!(r.bench, "kafka_avro_clickhouse");
    assert_eq!(r.status, Status::Passed);
    assert_eq!((r.rep, r.reps), (2, 3));
    assert_eq!(r.run.infra.ceiling_rows_per_s, 4_000_000);
    let value = |k: &str| r.metrics.get(k).map(|m| number(m.value));
    assert_eq!(value("rows_per_s"), Some(735.0));
    assert_eq!(value("cores_used"), Some(2.0));
    assert_eq!(value("rows_per_s_per_core"), Some(367.5));
    assert_eq!(value("peak_anon_bytes"), Some(70.0));
    assert_eq!(value("duplicate_rows"), Some(5.0));
    assert_eq!(value("ch_settle_us"), Some(2.250_000_123 * 1e6));
    assert_eq!(value("ch_rows_merged"), Some(7.0));
    assert_eq!(value("window_resolution"), Some(0.001));
    assert_eq!(value("latency_p50_us"), None);
    assert_eq!(value("gc_pause_total_us"), None);
    // A hundred seconds is under the floor of a window.
    assert_eq!(r.flags, vec![Flag::ReusedInfra, Flag::ShortWindow]);

    let text = |k: &str| r.variant.get(k).cloned();
    assert_eq!(text("approach"), Some(Value::Text("stripped".to_owned())));
    assert_eq!(text("mode"), Some(Value::Text("drain".to_owned())));
    assert_eq!(text("partitions"), Some(Value::Integer(8)));
    assert_eq!(text("batches"), Some(Value::Integer(1000)));
    assert_eq!(text("envelope_cpus"), Some(Value::Text("4".to_owned())));
    assert_eq!(text("wire_format"), Some(Value::Text("native".to_owned())));
    assert_eq!(text("threads"), Some(Value::Integer(6)));
    assert_eq!(text("odd"), None);
    assert_eq!(text("window_s"), None);
}

#[test]
fn a_refused_arm_is_recorded_without_a_metric() {
    let outcome: Result<Measurement, String> = Err("it died\nLogs:\nstack".to_owned());
    let r = recorded(Class::Indicative, &options(), &outcome);
    assert_eq!(r.status, Status::Failed);
    assert!(r.metrics.entries().is_empty());
    assert_eq!(r.note.as_deref(), Some("it died"));
    // The configuration is recorded all the same.
    assert!(r.variant.get("threads").is_some());
}

#[test]
fn what_bars_publication_leads_the_note_and_is_flagged() {
    let outcome: Result<Measurement, String> = Err("it died".to_owned());
    let mut opts = options();
    opts.trigger = Trigger::Pr;
    opts.knobs.insert("threads".to_owned(), Knob::Integer(12));
    opts.mode = Mode::Sustained {
        offered_msgs_per_s: 40_000,
        window_s: 30,
    };
    let r = recorded(Class::Fixture, &opts, &outcome);
    assert_eq!(
        r.note.as_deref(),
        Some("pull-request run on unreviewed code, never published; fixture environment: synthetic development data, never published; it died")
    );
    assert_eq!(r.flags, vec![Flag::ReusedInfra, Flag::UnpublishableEnvironment]);
    // What was applied, not what was declared.
    assert_eq!(r.variant.get("threads"), Some(&Value::Integer(12)));
    assert_eq!(r.variant.get("offered_msgs_per_s"), Some(&Value::Integer(40_000)));
    assert_eq!(r.variant.get("window_s"), Some(&Value::Integer(30)));
}

#[test]
fn an_image_and_a_pin_belong_to_the_arm() {
    let (mut e, v) = (entrant(), variant());
    {
        let own = Arm {
            entrant: &e,
            variant: &v,
            image: Some("mine".to_owned()),
        };
        assert_eq!(image_for(&own).as_deref(), Ok("mine"));
        let built = Arm {
            entrant: &e,
            variant: &v,
            image: None,
        };
        assert_eq!(image_for(&built).as_deref(), Ok("probe-image"));
        assert!(check_pin(&built, &sut()).is_ok());
        let mut moved = sut();
        moved.version = Some("2.0.0".to_owned());
        assert!(check_pin(&built, &moved).is_err());
    }
    e.spec.build = None;
    let none = Arm {
        entrant: &e,
        variant: &v,
        image: None,
    };
    assert_eq!(image_for(&none).expect_err("no image"), "no image for this entrant");
}

#[test]
fn the_server_is_asked_over_the_sampled_window() {
    let mut e = entrant();
    e.spec.clickhouse = Some(ClickhouseSpec {
        arm_sql: String::new(),
        arm_teardown_sql: String::new(),
        attribution_tables: vec!["landing".to_owned()],
        forwarded_inserts: true,
    });
    let v = variant();
    let arm = Arm {
        entrant: &e,
        variant: &v,
        image: None,
    };
    let costs = series(CAPS);
    let q = ask_server(&arm, &costs, "default", "events").expect("a forward window");
    assert_eq!(q.tables, vec!["default.events", "default.landing"]);
    assert_eq!(q.window.from_ms, costs[0].1.rows[0].t_ms);
    assert_eq!(q.window.to_ms, costs[0].1.rows.last().expect("rows").t_ms);
    assert!(q.inserts.contains("['default.events', 'default.landing']"));
    assert!(q.inserts.contains(&q.window.from_ms.to_string()));
    assert!(q.inserts.contains("AND NOT is_initial_query "));
    assert_eq!(q.merges, merge_sql(&["default.events", "default.landing"], q.window));

    let nothing: Vec<(String, Samples)> = Vec::new();
    assert!(matches!(
        ask_server(&arm, &nothing, "default", "events"),
        Err(ServerSideError::EmptyWindow { from_ms: 0, to_ms: 0 })
    ));
    let mut still = series(CAPS);
    still[0].1.rows.truncate(1);
    assert!(matches!(
        ask_server(&arm, &still, "default", "events"),
        Err(ServerSideError::EmptyWindow { from_ms: 1_000, to_ms: 1_000 })
    ));
}

#[test]
fn an_answer_that_gives_no_figure_leaves_the_record_without_it() {
    let e = entrant();
    let v = variant();
    let arm = Arm {
        entrant: &e,
        variant: &v,
        image: None,
    };
    let q = ask_server(&arm, &series(CAPS), "default", "events").expect("a forward window");
    let answer = |body: &str| Answer {
        flushed: Ok(String::new()),
        body: Ok(body.to_owned()),
    };
    let inserts = answer(
        "QueryFinish\t100\t7\t{'InsertedRows':100,'UserTimeMicroseconds':60,'SystemTimeMicroseconds':40}\n",
    );
    let (cost, work) = measure_server_side(&q, &inserts, &answer("5\t6\n"));
    let cost = cost.expect("one finished insert");
    assert_eq!(number(cost.cpu_us_per_written_row().expect("rows were written")), 1.0);
    assert_eq!(cost.tables, vec!["default.events"]);
    let work = work.expect("two integers");
    assert_eq!((work.rows_merged, work.duration_ms), (5, 6));

    let unflushed = Answer {
        flushed: Err("refused".to_owned()),
        body: inserts.body,
    };
    let (cost, work) = measure_server_side(&q, &unflushed, &unflushed);
    assert!(cost.is_none() && work.is_none());
    let (cost, work) = measure_server_side(&q, &answer(""), &answer(""));
    assert!(cost.is_none() && work.is_none());

    assert_eq!(
        cost_notice(&q, &unflushed),
        "  no server-side figure: could not reach ClickHouse for its query log: refused"
    );
    assert_eq!(
        merge_notice(&unflushed),
        "  no merge figure: could not reach ClickHouse for its query log: refused"
    );
    let said = cost_notice(&q, &answer(""));
    assert!(said.starts_with("  no server-side figure: no INSERT into default.events"), "{said}");
    let said = cost_notice(
        &q,
        &answer("QueryFinish\t100\t7\t{'UserTimeMicroseconds':60,'SystemTimeMicroseconds':40}\n"),
    );
    assert!(said.starts_with("  server-side: 1 insert(s) into default.events"), "{said}");
    assert_eq!(
        merge_notice(&answer("5\t6\n")),
        "  merges: 5 row(s) over 6 ms, completed in the window"
    );
}

#[test]
fn the_gates_examine_what_the_targets_memory_affords() {
    let mut env = environment(Class::Indicative);
    let mut opts = options();
    opts.batches = 100_000;
    env.spec.infra.clickhouse.memory = "8g".to_owned();
    assert_eq!(gate_window(&env, &opts), 6_700);
    env.spec.infra.clickhouse.memory = "30m".to_owned();
    assert_eq!(gate_window(&env, &opts), 1_048);
    env.spec.infra.clickhouse.memory = "plenty".to_owned();
    assert_eq!(gate_window(&env, &opts), 1);
}
