use spate_bench::double::Double;
use spate_bench::driver::arm::build_specs;
use spate_bench::driver::arm::name_of_container;
use spate_bench::driver::arm::specs_for;
use spate_bench::driver::arm::substitute;
use spate_bench::driver::assert_knobs_are_runnable;
use spate_bench::driver::figures::Gc;
use spate_bench::driver::guard::apply_arm_statements;
use spate_bench::driver::guard::arm_sql_path;
use spate_bench::driver::guard::backstop_notice;
use spate_bench::driver::guard::gc_sources;
use spate_bench::driver::guard::logs_of;
use spate_bench::driver::guard::read_arm_sql;
use spate_bench::driver::guard::teardown_file;
use spate_bench::driver::guard::ArmContainers;
use spate_bench::driver::guard::ArmObjects;
use spate_bench::driver::guard::ArmSql;
use spate_bench::driver::guard::GcSource;
use spate_bench::driver::identity::assert_arm_caps;
use spate_bench::driver::identity::parse_version;
use spate_bench::driver::identity::resolve_sut;
use spate_bench::driver::identity::version_argv;
use spate_bench::driver::Arm;
use spate_bench::driver::Mode;
use spate_bench::driver::RunOptions;
use spate_bench::entrant::Approach;
use spate_bench::entrant::ClickhouseSpec;
use spate_bench::entrant::Constraint;
use spate_bench::entrant::Container;
use spate_bench::entrant::Display;
use spate_bench::entrant::Entrant;
use spate_bench::entrant::Envelope;
use spate_bench::entrant::Identity;
use spate_bench::entrant::Knob;
use spate_bench::entrant::Maintainer;
use spate_bench::entrant::Role;
use spate_bench::entrant::Spec;
use spate_bench::entrant::Status;
use spate_bench::entrant::Variant;
use spate_bench::entrant::VersionSource;
use spate_bench::entrant::Volumes;
use spate_bench::entrant::DESCRIPTOR_SCHEMA;
use spate_bench::infra::Endpoints;
use spate_bench::jvm::JvmError;
use spate_bench::report::Trigger;
use spate_bench::sampler::SutCost;
use spate_bench::table::Table;

fn number(x: Double) -> f64 {
    f64::from_bits(x.to_bits())
}

fn container(role: Role, name: &str) -> Container {
    Container {
        role,
        name: name.to_owned(),
        cpus: "4".to_owned(),
        memory: "8g".to_owned(),
        args: vec!["serve".to_owned()],
        gc_log: Some("/var/log/gc.log".to_owned()),
    }
}

fn variant() -> Variant {
    let mut knobs = Table::new();
    knobs.insert("threads".to_owned(), Knob::Integer(6));
    knobs.insert("format".to_owned(), Knob::Text("native".to_owned()));
    let mut env = Table::new();
    env.insert("THREADS".to_owned(), "{{knob:threads}}".to_owned());
    Variant {
        id: "only".to_owned(),
        label: "only".to_owned(),
        approach: Approach::Realistic,
        unshipped: Vec::new(),
        default: true,
        env,
        knobs,
        reports: Table::new(),
    }
}

fn entrant() -> Entrant {
    let mut env = Table::new();
    env.insert("BOOTSTRAP".to_owned(), "{{broker_internal}}".to_owned());
    env.insert("GROUP".to_owned(), "{{group_id}}".to_owned());
    Entrant {
        dir: "entrants/probe".to_owned(),
        spec: Spec {
            schema: DESCRIPTOR_SCHEMA,
            entrant: Identity {
                id: "probe".to_owned(),
                name: "Probe".to_owned(),
                homepage: String::new(),
                repo: String::new(),
                docs: String::new(),
                licence: "Apache-2.0".to_owned(),
                vendor: "probe".to_owned(),
                kind: "stream-processor".to_owned(),
                language: vec!["java".to_owned()],
                runtime: "jvm".to_owned(),
                status: Status::Active,
            },
            maintainer: Maintainer {
                who: "bench".to_owned(),
                reviewed_upstream: false,
                review_url: String::new(),
            },
            display: Display {
                order: 1,
                hue: 0,
                short: "Probe".to_owned(),
            },
            version: Some(VersionSource {
                strategy: "command".to_owned(),
                command: vec!["/probe".to_owned(), "--version".to_owned()],
                pinned: String::new(),
            }),
            build: None,
            envelope: Some(Envelope {
                cpus: "4".to_owned(),
                memory: "8g".to_owned(),
                containers: vec![
                    container(Role::DataPlane, "taskmanager"),
                    container(Role::ControlPlane, "jobmanager"),
                ],
            }),
            guarantees: None,
            volumes: Some(Volumes {
                named: vec!["state:/state".to_owned()],
            }),
            env,
            variants: Vec::new(),
            constraints: Vec::new(),
            deviations: Vec::new(),
            clickhouse: None,
            planned: None,
        },
    }
}

fn options(mode: Mode) -> RunOptions {
    RunOptions {
        reps: 1,
        mode,
        env_id: "t".to_owned(),
        trigger: Trigger::Manual,
        dry_run: false,
        fresh_infra: false,
        fail_fast: false,
        topic: "events".to_owned(),
        batches: 10,
        knobs: Table::new(),
    }
}

fn fill(raw: &str, mode: Mode) -> Result<String, String> {
    substitute(raw, &entrant(), &variant(), &Endpoints::ours(), &options(mode), "g-1")
}

const SUSTAINED: Mode = Mode::Sustained {
    offered_msgs_per_s: 40_000,
    window_s: 30,
};

#[test]
fn every_placeholder_resolves() {
    let ep = Endpoints::ours();
    for (raw, expected) in [
        ("{{broker_internal}}", ep.bootstrap_internal.as_str()),
        ("{{registry_internal}}", ep.registry_internal.as_str()),
        ("{{clickhouse_internal}}", ep.ch_internal.as_str()),
        ("{{clickhouse_password}}", ep.ch_password.as_str()),
        ("{{group_id}}", "g-1"),
        ("{{topic}}", "events"),
        ("{{offset_reset}}", "earliest"),
        ("{{knob:threads}}", "6"),
        ("{{knob:format}}", "native"),
        ("{{container:jobmanager}}", "spate-bench-sut-jobmanager"),
        ("plain", "plain"),
        ("{{topic}}/{{knob:threads}}/{{topic}}", "events/6/events"),
    ] {
        assert_eq!(fill(raw, Mode::Drain).as_deref(), Ok(expected), "{raw}");
    }
}

#[test]
fn a_sustained_run_starts_at_the_tail_of_a_topic_of_its_own() {
    assert_eq!(fill("{{offset_reset}}", SUSTAINED).as_deref(), Ok("latest"));
    let topic = fill("{{topic}}", SUSTAINED).expect("resolves");
    assert_ne!(topic, "events");
    assert!(topic.starts_with("events"), "{topic}");
}

#[test]
fn a_placeholder_that_resolves_to_nothing_is_refused() {
    for raw in ["{{topics}}", "{{knob:absent}}", "{{container:absent}}", "{{topic"] {
        let e = fill(raw, Mode::Drain).expect_err("must refuse");
        assert!(e.starts_with("REFUSED: unresolved placeholder"), "{e}");
        assert!(e.contains(&format!("{raw:?}")), "{e}");
    }
}

#[test]
fn an_override_reaches_the_container() {
    let mut opts = options(Mode::Drain);
    opts.knobs.insert("threads".to_owned(), Knob::Integer(12));
    let v = substitute("{{knob:threads}}", &entrant(), &variant(), &Endpoints::ours(), &opts, "g");
    assert_eq!(v.as_deref(), Ok("12"));
}

#[test]
fn the_control_plane_is_started_first() {
    let (e, v) = (entrant(), variant());
    let arm = Arm {
        entrant: &e,
        variant: &v,
        image: None,
    };
    let specs = specs_for(&arm, &Endpoints::ours(), &options(Mode::Drain), "img", "42")
        .expect("specs build");
    let names: Vec<&str> = specs.iter().map(|s| s.name.as_str()).collect();
    assert_eq!(names, vec!["spate-bench-sut-jobmanager", "spate-bench-sut-taskmanager"]);
    for s in &specs {
        assert_eq!(s.image, "img");
        assert_eq!(s.volumes, vec!["state:/state".to_owned()]);
        // The entrant's own environment, then the variant's.
        let keys: Vec<&str> = s.env.iter().map(|(k, _)| k.as_str()).collect();
        assert_eq!(keys, vec!["BOOTSTRAP", "GROUP", "THREADS"]);
        assert_eq!(s.env[1].1, "comparison-probe-only-42");
    }
}

#[test]
fn a_name_that_ends_another_changes_no_order() {
    let (mut e, v) = (entrant(), variant());
    if let Some(env) = e.spec.envelope.as_mut() {
        env.containers = vec![
            container(Role::DataPlane, "manager"),
            container(Role::ControlPlane, "jobmanager"),
            container(Role::ControlPlane, "archiver"),
        ];
    }
    let arm = Arm {
        entrant: &e,
        variant: &v,
        image: None,
    };
    let specs = build_specs(&arm, &Endpoints::ours(), &options(Mode::Drain), "img")
        .expect("specs build");
    let names: Vec<&str> = specs.iter().map(|s| s.name.as_str()).collect();
    assert_eq!(
        names,
        vec![
            "spate-bench-sut-jobmanager",
            "spate-bench-sut-archiver",
            "spate-bench-sut-manager"
        ]
    );
    // Nor does it move a log to another container's window.
    let parts = vec![
        ("spate-bench-sut-jobmanager".to_owned(), Some(cost(1_000))),
        ("spate-bench-sut-manager".to_owned(), Some(cost(2_500))),
    ];
    let sources = gc_sources(&arm, &parts);
    assert!(matches!(
        &sources[0],
        GcSource::Log { container, role: Role::DataPlane, until_s, .. }
            if container == "spate-bench-sut-manager" && number(*until_s) == 2.5
    ));
}

#[test]
fn every_run_has_a_consumer_group_of_its_own() {
    let (e, v) = (entrant(), variant());
    let arm = Arm {
        entrant: &e,
        variant: &v,
        image: None,
    };
    let group = || {
        build_specs(&arm, &Endpoints::ours(), &options(Mode::Drain), "img").expect("specs build")[0]
            .env[1]
            .1
            .clone()
    };
    let (a, b) = (group(), group());
    assert_ne!(a, b);
    let id = a.strip_prefix("comparison-probe-only-").expect("the arm's name leads");
    assert_eq!(id.len(), 32, "{id}");
    assert!(id.chars().all(|c| c.is_ascii_hexdigit()), "{id}");
}

#[test]
fn an_arm_that_cannot_be_configured_is_not_started() {
    let (mut e, v) = (entrant(), variant());
    e.spec.env.insert("BAD".to_owned(), "{{nope}}".to_owned());
    let arm = Arm {
        entrant: &e,
        variant: &v,
        image: None,
    };
    assert!(specs_for(&arm, &Endpoints::ours(), &options(Mode::Drain), "img", "1").is_err());

    let mut bare = entrant();
    bare.spec.envelope = None;
    let arm = Arm {
        entrant: &bare,
        variant: &v,
        image: None,
    };
    assert_eq!(
        specs_for(&arm, &Endpoints::ours(), &options(Mode::Drain), "img", "1")
            .map(|s| s.len())
            .expect_err("no envelope"),
        "entrant has no envelope"
    );
    assert_eq!(name_of_container("sut"), "spate-bench-sut-sut");
}

#[test]
fn a_sweep_that_cannot_run_is_refused_with_every_problem() {
    let (mut e, v) = (entrant(), variant());
    e.spec.constraints = vec![Constraint {
        knob: "threads".to_owned(),
        exceeds: None,
        at_least: Some(8),
        why: "needs more".to_owned(),
    }];
    let arms = [
        Arm {
            entrant: &e,
            variant: &v,
            image: None,
        },
        Arm {
            entrant: &e,
            variant: &v,
            image: None,
        },
    ];
    let m = assert_knobs_are_runnable(&arms, &options(Mode::Drain)).expect_err("must refuse");
    assert!(m.starts_with("REFUSED: 2 unrunnable"), "{m}");
    assert!(m.contains("probe:only"), "{m}");
    let mut opts = options(Mode::Drain);
    opts.knobs.insert("threads".to_owned(), Knob::Integer(8));
    assert!(assert_knobs_are_runnable(&arms, &opts).is_ok());
}

#[test]
fn an_arm_is_what_it_reports() {
    let (e, v) = (entrant(), variant());
    let arm = Arm {
        entrant: &e,
        variant: &v,
        image: None,
    };
    assert_eq!(
        version_argv(&arm, "img").expect("the version is printed").join(" "),
        "run --rm --entrypoint /probe img --version"
    );
    let digest: Result<String, String> = Ok("sha256:abc".to_owned());
    let printed: Result<String, String> =
        Ok("probe 1.2.3 (0123456789ab)\ntoolchain: javac 25".to_owned());
    let sut = resolve_sut(&arm, "img", &digest, &printed).expect("identified");
    assert_eq!(sut.entrant, "probe");
    assert_eq!(sut.variant_id, "only");
    assert_eq!(sut.version.as_deref(), Some("1.2.3"));
    assert_eq!(sut.commit.as_deref(), Some("0123456789ab"));
    assert_eq!(sut.toolchain.as_deref(), Some("javac 25"));
    assert_eq!(sut.image_digest, "sha256:abc");

    let gone: Result<String, String> = Err("no such image".to_owned());
    let m = resolve_sut(&arm, "img", &gone, &printed).expect_err("no digest");
    assert!(m.contains("bench build probe"), "{m}");
    let m = resolve_sut(&arm, "img", &digest, &gone).expect_err("no version");
    assert!(m.starts_with("version command failed for img"), "{m}");
    let m = resolve_sut(&arm, "img", &digest, &Ok("hello".to_owned())).expect_err("anonymous");
    assert!(m.starts_with("REFUSED: could not resolve"), "{m}");
}

#[test]
fn the_first_version_and_the_first_commit_stand() {
    let (v, c, t) = parse_version("a 1.0 (aaaaaaa)\nb 2.0 (bbbbbbb)\ntoolchain: x\ntoolchain: y 3.0\n");
    assert_eq!(v.as_deref(), Some("1.0"));
    assert_eq!(c.as_deref(), Some("aaaaaaa"));
    assert_eq!(t.as_deref(), Some("y 3.0"));
    assert_eq!(parse_version("() v1.0 1_0.0"), (None, None, None));
}

#[test]
fn a_cap_that_was_not_reported_is_refused() {
    let c = container(Role::DataPlane, "sut");
    let e = assert_arm_caps("sut", &c, "# memory.max=1").expect_err("no cpu.max");
    assert_eq!(e, "sut: sampler reported no cpu.max");
    let e = assert_arm_caps("sut", &c, "# cpu.max=1/1").expect_err("no memory.max");
    assert_eq!(e, "sut: sampler reported no memory.max");
    let e = assert_arm_caps("sut", &c, "# cpu.max=400000/100000 memory.max=1")
        .expect_err("other memory");
    assert!(e.contains("memory=8g"), "{e}");
}

#[test]
fn a_container_without_a_cap_satisfies_no_declaration() {
    let mut c = container(Role::DataPlane, "sut");
    let uncapped = "cgroup=/x cpu.max=400000/100000 memory.max=max";
    assert!(assert_arm_caps("sut", &c, uncapped).is_err());
    c.memory = "lots".to_owned();
    assert!(assert_arm_caps("sut", &c, uncapped).is_err());
    assert!(assert_arm_caps("sut", &c, "cpu.max=400000/100000 memory.max=1").is_err());
}

#[test]
fn containers_are_stopped_once() {
    let (e, v) = (entrant(), variant());
    let arm = Arm {
        entrant: &e,
        variant: &v,
        image: None,
    };
    let specs = specs_for(&arm, &Endpoints::ours(), &options(Mode::Drain), "img", "1").expect("specs");
    let mut running = ArmContainers::start(&specs);
    let names = running.stop();
    assert_eq!(names.len(), 2);
    assert!(running.stop().is_empty());
    assert_eq!(
        logs_of(&names, &["one".to_owned(), "two".to_owned()]),
        "--- spate-bench-sut-jobmanager ---\none\n--- spate-bench-sut-taskmanager ---\ntwo"
    );
}

#[test]
fn a_bad_statement_refuses_the_arm_and_stops_the_list() {
    let stmts = vec!["CREATE x".to_owned(), "CREATE y".to_owned()];
    let ok: Result<String, String> = Ok(String::new());
    assert!(matches!(apply_arm_statements(&stmts, &[], "arm DDL"), ArmSql::Run(0)));
    assert!(matches!(
        apply_arm_statements(&stmts, &[ok.clone()], "arm DDL"),
        ArmSql::Run(1)
    ));
    assert!(matches!(
        apply_arm_statements(&stmts, &[ok.clone(), ok.clone()], "arm DDL"),
        ArmSql::Accepted
    ));
    let bad: Result<String, String> = Ok("Code: 62. DB::Exception: syntax".to_owned());
    match apply_arm_statements(&stmts, &[ok, bad], "arm DDL") {
        ArmSql::Refused(m) => {
            assert_eq!(m, "arm DDL: \"CREATE y\": Code: 62. DB::Exception: syntax");
        }
        other => panic!("{other:?}"),
    }
    let gone: Result<String, String> = Err("refused".to_owned());
    match apply_arm_statements(&stmts, &[gone], "arm DDL") {
        ArmSql::Refused(m) => assert_eq!(m, "arm DDL: \"CREATE x\": refused"),
        other => panic!("{other:?}"),
    }
}

#[test]
fn objects_are_owed_until_they_are_handed_over() {
    let (mut e, v) = (entrant(), variant());
    {
        let arm = Arm {
            entrant: &e,
            variant: &v,
            image: None,
        };
        assert!(teardown_file(&arm).is_none());
        assert!(ArmObjects::new(&arm, Ok(Vec::new())).expect("nothing declared").is_none());
    }
    e.spec.clickhouse = Some(ClickhouseSpec {
        arm_sql: "ch/arm.sql".to_owned(),
        arm_teardown_sql: "ch/down.sql".to_owned(),
        attribution_tables: Vec::new(),
        forwarded_inserts: false,
    });
    let arm = Arm {
        entrant: &e,
        variant: &v,
        image: None,
    };
    assert_eq!(teardown_file(&arm).as_deref(), Some("ch/down.sql"));
    assert_eq!(arm_sql_path(&arm, "ch/down.sql"), "entrants/probe/ch/down.sql");
    assert_eq!(
        read_arm_sql(&arm, "ch/down.sql", Err("denied".to_owned())).expect_err("unreadable"),
        "read arm SQL entrants/probe/ch/down.sql: denied"
    );
    assert!(ArmObjects::new(&arm, Err("denied".to_owned())).is_err());
    let mut objects = ArmObjects::new(&arm, Ok(vec!["DROP x".to_owned()]))
        .expect("readable")
        .expect("declared");
    assert_eq!(objects.leftovers(), vec!["DROP x".to_owned()]);
    assert_eq!(objects.finish(), vec!["DROP x".to_owned()]);
    assert!(objects.leftovers().is_empty());
    assert!(backstop_notice("DROP x", &Ok(String::new())).is_none());
    let m = backstop_notice("DROP x", &Err("gone".to_owned())).expect("a failure is said");
    assert!(m.contains("\"DROP x\": gone"), "{m}");
}

fn cost(window_ms: u64) -> SutCost {
    SutCost {
        window_ms,
        cpu_us: 1,
        user_us: 1,
        system_us: 0,
        throttled_us: 0,
        nr_throttled: 0,
        peak_anon_bytes: 1,
        peak_charged_bytes: 1,
        peak_current_bytes: 1,
        samples: 2,
        unreadable: 0,
    }
}

#[test]
fn a_collector_log_is_read_over_its_own_containers_window() {
    let (mut e, v) = (entrant(), variant());
    if let Some(env) = e.spec.envelope.as_mut() {
        env.containers[1].gc_log = None;
    }
    let parts = vec![
        ("spate-bench-sut-jobmanager".to_owned(), Some(cost(1_000))),
        ("spate-bench-sut-taskmanager".to_owned(), Some(cost(2_500))),
    ];
    {
        let arm = Arm {
            entrant: &e,
            variant: &v,
            image: None,
        };
        let sources = gc_sources(&arm, &parts);
        assert_eq!(sources.len(), 2);
        match &sources[0] {
            GcSource::Log {
                container,
                until_s,
                ..
            } => {
                assert_eq!(container, "spate-bench-sut-taskmanager");
                assert_eq!(number(*until_s), 2.5);
            }
            other => panic!("{other:?}"),
        }
        assert!(matches!(&sources[1], GcSource::Undeclared(m) if m.contains("declares no gc_log")));
        // A container that was not measured has no window.
        assert!(gc_sources(&arm, &[("spate-bench-sut-taskmanager".to_owned(), None)]).is_empty());
    }
    e.spec.entrant.runtime = "native".to_owned();
    let arm = Arm {
        entrant: &e,
        variant: &v,
        image: None,
    };
    assert!(gc_sources(&arm, &parts).is_empty());
}

#[test]
fn a_log_that_cannot_be_read_costs_the_figures_and_nothing_else() {
    let mut gc = Gc::default();
    let m = gc
        .take_up(Role::DataPlane, "tm", Err(JvmError::NoUptimeDecoration))
        .expect("a complaint");
    assert!(m.starts_with("no GC figures for tm: "), "{m}");
    assert!(gc.data_plane.is_none());
}
