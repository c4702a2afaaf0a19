use spate_bench::entrant::base_name;
use spate_bench::entrant::cross_check;
use spate_bench::entrant::fold_wire_format;
use spate_bench::entrant::knob_violations;
use spate_bench::entrant::load_all;
use spate_bench::entrant::load_one;
use spate_bench::entrant::parse_memory;
use spate_bench::entrant::placeholder_tokens;
use spate_bench::entrant::slug;
use spate_bench::entrant::validate;
use spate_bench::entrant::validate_clickhouse;
use spate_bench::entrant::validate_constraints;
use spate_bench::entrant::validate_deviations;
use spate_bench::entrant::validate_env;
use spate_bench::entrant::validate_envelope;
use spate_bench::entrant::validate_variants;
use spate_bench::entrant::Approach;
use spate_bench::entrant::Build;
use spate_bench::entrant::ClickhouseSpec;
use spate_bench::entrant::Constraint;
use spate_bench::entrant::Container;
use spate_bench::entrant::Descriptor;
use spate_bench::entrant::Deviation;
use spate_bench::entrant::Display;
use spate_bench::entrant::Entrant;
use spate_bench::entrant::Envelope;
use spate_bench::entrant::Guarantees;
use spate_bench::entrant::Identity;
use spate_bench::entrant::Knob;
use spate_bench::entrant::Maintainer;
use spate_bench::entrant::Placeholder;
use spate_bench::entrant::Planned;
use spate_bench::entrant::Role;
use spate_bench::entrant::Spec;
use spate_bench::entrant::Status;
use spate_bench::entrant::Variant;
use spate_bench::entrant::VersionSource;
use spate_bench::entrant::DESCRIPTOR_SCHEMA;
use spate_bench::table::Table;

/// The formats that have a ceiling, in their canonical spelling.
fn formats() -> Vec<String> {
    ["native", "row_binary", "json_each_row"]
        .iter()
        .map(|s| (*s).to_owned())
        .collect()
}

fn texts(pairs: &[(&str, &str)]) -> Table<String> {
    let mut t = Table::new();
    for (k, v) in pairs {
        t.insert((*k).to_owned(), (*v).to_owned());
    }
    t
}

fn variant(id: &str, approach: Approach, unshipped: &[&str]) -> Variant {
    Variant {
        id: id.to_owned(),
        label: id.to_owned(),
        approach,
        default: false,
        env: Table::new(),
        knobs: Table::new(),
        reports: texts(&[("wire_format", "native")]),
        unshipped: unshipped.iter().map(|s| (*s).to_owned()).collect(),
    }
}

fn entrant_with(variants: Vec<Variant>) -> Entrant {
    Entrant {
        dir: "entrants/probe".to_owned(),
        spec: Spec {
            schema: DESCRIPTOR_SCHEMA,
            entrant: Identity {
                id: "probe".to_owned(),
                name: "Probe".to_owned(),
                homepage: String::new(),
                repo: String::new(),
                docs: String::new(),
                licence: "Apache-2.0".to_owned(),
                vendor: "probe".to_owned(),
                kind: "stream-processor".to_owned(),
                language: vec!["rust".to_owned()],
                runtime: "native".to_owned(),
                status: Status::Active,
            },
            maintainer: Maintainer {
                who: "spate-benchmark".to_owned(),
                reviewed_upstream: false,
                review_url: String::new(),
            },
            display: Display {
                order: 1,
                hue: 0,
                short: "Probe".to_owned(),
            },
            version: None,
            build: None,
            envelope: None,
            guarantees: None,
            volumes: None,
            env: Table::new(),
            variants,
            constraints: Vec::new(),
            deviations: Vec::new(),
            clickhouse: None,
            planned: None,
        },
    }
}

fn errors_from(variants: Vec<Variant>) -> Vec<String> {
    let e = entrant_with(variants);
    let mut errs = Vec::new();
    validate_variants(&e, &formats(), &mut errs);
    errs
}

fn buffered_exceeds_batch() -> Constraint {
    Constraint {
        knob: "buffered_rows".to_owned(),
        exceeds: Some("max_rows".to_owned()),
        at_least: None,
        why: "AsyncSinkWriter refuses to construct otherwise.".to_owned(),
    }
}

fn knobs(pairs: &[(&str, i64)]) -> Table<Knob> {
    let mut t = Table::new();
    for (k, v) in pairs {
        t.insert((*k).to_owned(), Knob::Integer(*v));
    }
    t
}

#[test]
fn every_memory_suffix_a_descriptor_may_use_parses_to_bytes() {
    assert_eq!(parse_memory("4g"), Some(4 * 1024 * 1024 * 1024));
    assert_eq!(parse_memory("512m"), Some(512 * 1024 * 1024));
    assert_eq!(parse_memory("1024"), Some(1024));
    assert_eq!(parse_memory("nonsense"), None);
    assert_eq!(parse_memory(" 8G "), Some(8 * 1024 * 1024 * 1024));
}

#[test]
fn a_kibibyte_suffix_parses_because_one_copy_of_this_used_to_reject_it() {
    assert_eq!(parse_memory("1048576k"), Some(1024 * 1024 * 1024));
    assert_eq!(parse_memory("1048576K"), Some(1024 * 1024 * 1024));
    assert_eq!(parse_memory("1g"), parse_memory("1048576k"));
}

#[test]
fn an_overflowing_declaration_is_unparseable_rather_than_wrapped() {
    assert_eq!(parse_memory("99999999999999999999g"), None);
    assert_eq!(parse_memory("18014398509481985k"), None);
}

#[test]
fn a_variant_selecting_unshipped_code_must_be_labelled_stripped() {
    let errs = errors_from(vec![
        variant("shipped", Approach::Realistic, &[]),
        variant(
            "ours",
            Approach::Realistic,
            &["ReusingAvroDeserializationSchema"],
        ),
    ]);
    assert!(
        errs.iter().any(|e| e.contains("declares unshipped")),
        "{errs:?}"
    );
    let errs = errors_from(vec![
        variant("shipped", Approach::Realistic, &[]),
        variant(
            "ours",
            Approach::Stripped,
            &["ReusingAvroDeserializationSchema"],
        ),
    ]);
    assert!(
        !errs.iter().any(|e| e.contains("declares unshipped")),
        "{errs:?}"
    );
}

#[test]
fn an_unshipped_declaration_must_name_the_component() {
    let errs = errors_from(vec![variant("ours", Approach::Stripped, &[" "])]);
    assert!(
        errs.iter().any(|e| e.contains("empty `unshipped` entry")),
        "{errs:?}"
    );
}

#[test]
fn a_knob_combination_the_arm_cannot_run_is_a_violation_quoting_the_reason() {
    let v = knob_violations(
        &[buffered_exceeds_batch()],
        &knobs(&[("max_rows", 262_144), ("buffered_rows", 50_000)]),
    );
    assert_eq!(v.len(), 1, "{v:?}");
    assert!(v[0].contains("262144"), "{}", v[0]);
    assert!(v[0].contains("50000"), "{}", v[0]);
    assert!(
        v[0].contains("AsyncSinkWriter"),
        "the entrant's own reason: {}",
        v[0]
    );
    assert_eq!(
        knob_violations(
            &[buffered_exceeds_batch()],
            &knobs(&[("max_rows", 50_000), ("buffered_rows", 50_000)]),
        )
        .len(),
        1
    );
    assert!(
        knob_violations(
            &[buffered_exceeds_batch()],
            &knobs(&[("max_rows", 50_000), ("buffered_rows", 50_001)]),
        )
        .is_empty()
    );
}

#[test]
fn a_constraint_over_a_knob_the_variant_does_not_set_is_a_violation_and_not_a_pass() {
    let v = knob_violations(&[buffered_exceeds_batch()], &knobs(&[("max_rows", 25_000)]));
    assert_eq!(v.len(), 1, "{v:?}");
    assert!(v[0].contains("cannot be checked"), "{}", v[0]);
    assert!(v[0].contains("max_rows"), "{}", v[0]);
}

#[test]
fn a_committed_variant_that_breaks_its_own_entrants_constraint_fails_validation() {
    let mut e = entrant_with(vec![variant("only", Approach::Realistic, &[])]);
    e.spec.constraints = vec![buffered_exceeds_batch()];
    e.spec.variants[0].knobs = knobs(&[("max_rows", 25_000), ("buffered_rows", 25_000)]);

    let mut errs = Vec::new();
    validate_constraints(&e, &mut errs);
    assert_eq!(errs.len(), 1, "{errs:?}");
    assert!(errs[0].contains("variant \"only\""), "{}", errs[0]);
}

#[test]
fn a_constraint_that_explains_nothing_is_rejected() {
    let mut e = entrant_with(vec![variant("only", Approach::Realistic, &[])]);
    e.spec.constraints = vec![Constraint {
        knob: "buffered_rows".to_owned(),
        exceeds: Some("buffered_rows".to_owned()),
        at_least: None,
        why: "  ".to_owned(),
    }];
    e.spec.variants[0].knobs = knobs(&[("buffered_rows", 1)]);

    let mut errs = Vec::new();
    validate_constraints(&e, &mut errs);
    assert!(
        errs.iter().any(|x| x.contains("must exceed itself")),
        "{errs:?}"
    );
    assert!(
        errs.iter().any(|x| x.contains("does not say what breaks")),
        "{errs:?}"
    );
}

#[test]
fn an_at_least_floor_admits_the_floor_and_refuses_below_it() {
    let floor = Constraint {
        knob: "buffer_flush_ms".to_owned(),
        exceeds: None,
        at_least: Some(1),
        why: "a zero flush time strands a sub-buffer tail forever.".to_owned(),
    };
    let floor_only = std::slice::from_ref(&floor);
    assert!(knob_violations(floor_only, &knobs(&[("buffer_flush_ms", 1)])).is_empty());
    let refused = knob_violations(floor_only, &knobs(&[("buffer_flush_ms", 0)]));
    assert_eq!(refused.len(), 1, "{refused:?}");
    assert!(refused[0].contains("must be at least 1"), "{}", refused[0]);

    let mut both = floor;
    both.exceeds = Some("other".to_owned());
    let mut e = entrant_with(vec![variant("only", Approach::Realistic, &[])]);
    e.spec.constraints = vec![both];
    e.spec.variants[0].knobs = knobs(&[("buffer_flush_ms", 1), ("other", 0)]);
    let mut errs = Vec::new();
    validate_constraints(&e, &mut errs);
    assert!(
        errs.iter().any(|x| x.contains("exactly one relation")),
        "{errs:?}"
    );
}

#[test]
fn a_deviation_that_does_not_say_what_differs_is_refused() {
    let mut e = entrant_with(vec![variant("only", Approach::Realistic, &[])]);
    e.spec.deviations = vec![Deviation {
        what: "  ".to_owned(),
        why: "reasons".to_owned(),
        affects: vec!["envelope".to_owned()],
    }];
    let mut errs = Vec::new();
    validate_deviations(&e, &mut errs);
    assert_eq!(errs.len(), 1, "{errs:?}");
    assert!(errs[0].contains("empty `what`"), "{}", errs[0]);

    e.spec.deviations[0].what = "the transform runs server-side".to_owned();
    let mut errs = Vec::new();
    validate_deviations(&e, &mut errs);
    assert!(errs.is_empty(), "{errs:?}");
}

#[test]
fn a_control_plane_container_requires_an_envelope_deviation() {
    let mut e = entrant_with(vec![variant("only", Approach::Realistic, &[])]);
    e.spec.envelope = Some(Envelope {
        cpus: "6".to_owned(),
        memory: "24g".to_owned(),
        containers: vec![
            Container {
                role: Role::DataPlane,
                name: "sut".to_owned(),
                cpus: "6".to_owned(),
                memory: "24g".to_owned(),
                args: Vec::new(),
                gc_log: None,
            },
            Container {
                role: Role::ControlPlane,
                name: "jm".to_owned(),
                cpus: "1".to_owned(),
                memory: "2g".to_owned(),
                args: Vec::new(),
                gc_log: None,
            },
        ],
    });

    let mut errs = Vec::new();
    validate_deviations(&e, &mut errs);
    assert_eq!(errs.len(), 1, "{errs:?}");
    assert!(errs[0].contains("control-plane"), "{}", errs[0]);
    assert!(errs[0].contains("\"envelope\""), "{}", errs[0]);
    e.spec.deviations = vec![Deviation {
        what: "runs a JobManager control-plane container on top of the envelope".to_owned(),
        why: "cannot run a standalone job without one".to_owned(),
        affects: vec!["envelope".to_owned()],
    }];
    let mut errs = Vec::new();
    validate_deviations(&e, &mut errs);
    assert!(errs.is_empty(), "{errs:?}");
}

#[test]
fn a_near_miss_wire_format_is_refused_with_the_canonical_spelling() {
    let mut v = variant("only", Approach::Realistic, &[]);
    v.reports = texts(&[("wire_format", "JSONEachRow")]);
    let errs = errors_from(vec![v]);
    assert!(
        errs.iter()
            .any(|e| e.contains("did you mean \"json_each_row\"")),
        "{errs:?}"
    );
}

#[test]
fn canonical_and_genuinely_foreign_wire_formats_pass() {
    let mut canonical = variant("only", Approach::Realistic, &[]);
    canonical.reports =
        texts(&[("wire_format", "json_each_row")]);
    let errs = errors_from(vec![canonical]);
    assert!(!errs.iter().any(|e| e.contains("did you mean")), "{errs:?}");

    let mut foreign = variant("only", Approach::Realistic, &[]);
    foreign.reports = texts(&[("wire_format", "go_sql")]);
    let errs = errors_from(vec![foreign]);
    assert!(!errs.iter().any(|e| e.contains("did you mean")), "{errs:?}");
}

#[test]
fn arm_sql_and_its_teardown_travel_together() {
    let mut e = entrant_with(vec![variant("only", Approach::Realistic, &[])]);
    e.spec.clickhouse = Some(ClickhouseSpec {
        arm_sql: "clickhouse/arm.sql".to_owned(),
        arm_teardown_sql: String::new(),
        attribution_tables: Vec::new(),
        forwarded_inserts: false,
    });
    let mut errs = Vec::new();
    validate_clickhouse(&e, &[], &mut errs);
    assert_eq!(errs.len(), 1, "{errs:?}");
    assert!(errs[0].contains("without its pair"), "{}", errs[0]);
}

#[test]
fn teardown_without_arm_sql_is_refused_like_its_mirror() {
    let mut e = entrant_with(vec![variant("only", Approach::Realistic, &[])]);
    e.spec.clickhouse = Some(ClickhouseSpec {
        arm_sql: String::new(),
        arm_teardown_sql: "clickhouse/teardown.sql".to_owned(),
        attribution_tables: Vec::new(),
        forwarded_inserts: false,
    });
    let mut errs = Vec::new();
    validate_clickhouse(&e, &[], &mut errs);
    assert_eq!(errs.len(), 1, "{errs:?}");
    assert!(errs[0].contains("without its pair"), "{}", errs[0]);
}

#[test]
fn an_absolute_arm_sql_path_is_refused() {
    let mut e = entrant_with(vec![variant("only", Approach::Realistic, &[])]);
    e.spec.clickhouse = Some(ClickhouseSpec {
        arm_sql: "/etc/arm.sql".to_owned(),
        arm_teardown_sql: "/etc/teardown.sql".to_owned(),
        attribution_tables: Vec::new(),
        forwarded_inserts: false,
    });
    let mut errs = Vec::new();
    validate_clickhouse(&e, &[], &mut errs);
    assert_eq!(errs.len(), 2, "{errs:?}");
    assert!(
        errs.iter()
            .all(|x| x.contains("escapes the entrant directory")),
        "{errs:?}"
    );
}

#[test]
fn a_parent_traversal_arm_sql_path_is_refused() {
    let mut e = entrant_with(vec![variant("only", Approach::Realistic, &[])]);
    e.spec.clickhouse = Some(ClickhouseSpec {
        arm_sql: "../other/arm.sql".to_owned(),
        arm_teardown_sql: "../other/teardown.sql".to_owned(),
        attribution_tables: Vec::new(),
        forwarded_inserts: false,
    });
    let mut errs = Vec::new();
    validate_clickhouse(&e, &[], &mut errs);
    assert_eq!(errs.len(), 2, "{errs:?}");
    assert!(
        errs.iter()
            .all(|x| x.contains("escapes the entrant directory")),
        "{errs:?}"
    );
}

#[test]
fn an_attribution_table_with_surrounding_whitespace_is_refused() {
    let mut e = entrant_with(vec![variant("only", Approach::Realistic, &[])]);
    e.spec.clickhouse = Some(ClickhouseSpec {
        arm_sql: String::new(),
        arm_teardown_sql: String::new(),
        attribution_tables: vec![" sensor_batches_landing".to_owned()],
        forwarded_inserts: false,
    });
    let mut errs = Vec::new();
    validate_clickhouse(&e, &[], &mut errs);
    assert_eq!(errs.len(), 1, "{errs:?}");
    assert!(errs[0].contains("surrounding"), "{}", errs[0]);
    assert!(errs[0].contains("verbatim"), "{}", errs[0]);
}

#[test]
fn an_attribution_table_is_declared_unqualified() {
    let mut e = entrant_with(vec![variant("only", Approach::Realistic, &[])]);
    e.spec.clickhouse = Some(ClickhouseSpec {
        arm_sql: String::new(),
        arm_teardown_sql: String::new(),
        attribution_tables: vec!["default.sensor_batches_landing".to_owned()],
        forwarded_inserts: true,
    });
    let mut errs = Vec::new();
    validate_clickhouse(&e, &[], &mut errs);
    assert_eq!(errs.len(), 1, "{errs:?}");
    assert!(errs[0].contains("is qualified"), "{}", errs[0]);
}

fn env_errors(e: &Entrant) -> Vec<String> {
    let mut errs = Vec::new();
    validate_env(e, &mut errs);
    errs
}

fn sut_envelope() -> Envelope {
    Envelope {
        cpus: "6".to_owned(),
        memory: "24g".to_owned(),
        containers: vec![Container {
            role: Role::DataPlane,
            name: "sut".to_owned(),
            cpus: "6".to_owned(),
            memory: "24g".to_owned(),
            args: Vec::new(),
            gc_log: None,
        }],
    }
}

#[test]
fn an_env_using_only_the_supported_vocabulary_validates() {
    let mut a = variant("a", Approach::Realistic, &[]);
    a.knobs = knobs(&[("threads", 6), ("only_a", 1)]);
    a.env = texts(&[("ONLY_A", "{{knob:only_a}}")]);
    let mut b = variant("b", Approach::Realistic, &[]);
    b.knobs = knobs(&[("threads", 8)]);

    let mut e = entrant_with(vec![a, b]);
    e.spec.envelope = Some(sut_envelope());
    e.spec.env = texts(&[("BOOTSTRAP", "{{broker_internal}}"),
        ("THREADS", "{{knob:threads}}"),
        ("PEER", "{{container:sut}}"),
        ("PLAIN", "no placeholder at all")]);
    let errs = env_errors(&e);
    assert!(errs.is_empty(), "{errs:?}");
}

#[test]
fn an_unknown_placeholder_fails_validation_rather_than_the_sweep() {
    let mut e = entrant_with(vec![variant("only", Approach::Realistic, &[])]);
    e.spec.env = texts(&[("TOPIC", "{{topics}}")]);
    let errs = env_errors(&e);
    assert_eq!(errs.len(), 1, "{errs:?}");
    assert!(errs[0].contains("{{topics}}"), "{}", errs[0]);
    assert!(
        errs[0].contains("{{knob:NAME}}"),
        "the fix belongs in the message: {}",
        errs[0]
    );
}

#[test]
fn a_knob_placeholder_absent_from_one_variant_names_that_variant() {
    let mut with = variant("with", Approach::Realistic, &[]);
    with.knobs = knobs(&[("threads", 6)]);
    let without = variant("without", Approach::Realistic, &[]);

    let mut e = entrant_with(vec![with, without]);
    e.spec.env = texts(&[("THREADS", "{{knob:threads}}")]);
    let errs = env_errors(&e);
    assert_eq!(errs.len(), 1, "{errs:?}");
    assert!(errs[0].contains("\"without\""), "{}", errs[0]);
    assert!(errs[0].contains("threads"), "{}", errs[0]);
}

#[test]
fn a_container_placeholder_must_name_a_declared_container() {
    let mut e = entrant_with(vec![variant("only", Approach::Realistic, &[])]);
    e.spec.envelope = Some(sut_envelope());
    e.spec.env = texts(&[("RPC", "{{container:jm}}")]);
    let errs = env_errors(&e);
    assert_eq!(errs.len(), 1, "{errs:?}");
    assert!(errs[0].contains("{{container:jm}}"), "{}", errs[0]);
    assert!(errs[0].contains("[[envelope.container]]"), "{}", errs[0]);
}

#[test]
fn an_unterminated_placeholder_is_refused_where_it_is_written() {
    let mut only = variant("only", Approach::Realistic, &[]);
    only.knobs = knobs(&[("threads", 6)]);
    let mut e = entrant_with(vec![only]);
    e.spec.env = texts(&[("THREADS", "{{knob:threads")]);
    let errs = env_errors(&e);
    assert_eq!(errs.len(), 1, "{errs:?}");
    assert!(errs[0].contains("never closes"), "{}", errs[0]);
}

#[test]
fn hue_separation_is_enforced() {
    let mut errs = Vec::new();
    let hues = [(10u16, "a"), (25u16, "b")];
    let mut v: Vec<(u16, &str)> = hues.to_vec();
    v.sort_unstable();
    for w in v.windows(2) {
        if w[1].0 - w[0].0 < 20 {
            errs.push("too close".to_owned());
        }
    }
    assert_eq!(errs.len(), 1);

    let mut near = vec![entrant_with(Vec::new()), entrant_with(Vec::new())];
    near[0].spec.entrant.id = "a".to_owned();
    near[0].spec.display.hue = 10;
    near[1].spec.entrant.id = "b".to_owned();
    near[1].spec.display.hue = 25;
    near[1].spec.display.order = 2;
    let mut errs = Vec::new();
    cross_check(&near, &mut errs);
    assert_eq!(errs.len(), 1, "{errs:?}");
    near[1].spec.display.hue = 30;
    let mut errs = Vec::new();
    cross_check(&near, &mut errs);
    assert!(errs.is_empty(), "{errs:?}");
}

/// An entrant that owes nothing.
fn whole() -> Entrant {
    let mut only = variant("only", Approach::Realistic, &[]);
    only.default = true;
    let mut e = entrant_with(vec![only]);
    e.spec.version = Some(VersionSource {
        strategy: "command".to_owned(),
        command: vec!["/probe".to_owned(), "--version".to_owned()],
        pinned: String::new(),
    });
    e.spec.build = Some(Build {
        context: ".".to_owned(),
        dockerfile: "Dockerfile".to_owned(),
        image: "probe".to_owned(),
        secrets: Vec::new(),
    });
    e.spec.envelope = Some(sut_envelope());
    e.spec.guarantees = Some(Guarantees {
        delivery: "at-least-once".to_owned(),
        durability: "offsets".to_owned(),
        interval_ms: 1000,
    });
    e
}

fn files() -> Vec<String> {
    vec!["README.md".to_owned(), "Dockerfile".to_owned()]
}

#[test]
fn an_entrant_that_states_everything_passes() {
    let errs = validate(&whole(), &files(), &formats());
    assert!(errs.is_empty(), "{errs:?}");
}

#[test]
fn what_a_runnable_entrant_owes_is_named() {
    let mut e = whole();
    e.spec.version = None;
    e.spec.build = None;
    e.spec.guarantees = None;
    e.spec.envelope = None;
    let errs = validate(&e, &[], &formats());
    for what in ["[version]", "[build]", "[guarantees]", "[envelope]", "README.md"] {
        assert!(errs.iter().any(|x| x.contains(what)), "{what}: {errs:?}");
    }
    assert!(errs.iter().all(|x| x.starts_with("probe: ")), "{errs:?}");
}

#[test]
fn an_envelope_is_what_its_data_plane_gets() {
    let mut e = whole();
    if let Some(env) = e.spec.envelope.as_mut() {
        env.cpus = "8".to_owned();
        env.memory = "25g".to_owned();
    }
    let errs = validate(&e, &files(), &formats());
    assert_eq!(errs.len(), 2, "{errs:?}");
    // Written another way, they are the same amounts.
    if let Some(env) = e.spec.envelope.as_mut() {
        env.cpus = "6.0".to_owned();
        env.memory = "24576m".to_owned();
    }
    assert!(validate(&e, &files(), &formats()).is_empty());
}

#[test]
fn declared_processors_are_compared_as_numbers() {
    let refusals = |declared: &str, given: &str| {
        let mut e = whole();
        if let Some(env) = e.spec.envelope.as_mut() {
            env.cpus = declared.to_owned();
            for c in &mut env.containers {
                c.cpus = given.to_owned();
            }
        }
        let mut errs = Vec::new();
        validate_envelope(&e, &mut errs);
        errs
    };
    for (declared, given) in [
        ("6", "6.00000000000000000000000000000"),
        ("+6", "0.6e1"),
        ("0006.50", "65e-1"),
        ("1e30", "1000000000000000000000000000000"),
        ("0", "-0.0"),
        ("6", "6.0000000000000003"),
        ("0.5", "0.5000000000000001"),
        ("1e900", "1e999"),
    ] {
        assert!(refusals(declared, given).is_empty(), "{declared} and {given}");
    }
    for declared in ["six", "", "6.0000000000001", "60", "-6", "inf", "nan", "6e", "0x6"] {
        let errs = refusals(declared, "6.0");
        assert_eq!(errs.len(), 1, "{declared}");
        assert!(
            errs[0].ends_with(&format!(
                "data-plane containers total 6 CPUs but [envelope].cpus is {declared}"
            )),
            "{errs:?}"
        );
    }
    for (given, said) in [
        ("0.250", "0.25"),
        ("12.5e1", "125"),
        ("1200", "1200"),
        ("5e-3", "0.005"),
        ("-1.5", "-1.5"),
        ("six", "-0"),
        ("1e900", "inf"),
        ("0.1", "0.1"),
        ("1180591620717411303424", "1180591620717411300000"),
    ] {
        let errs = refusals("7", given);
        assert!(errs[0].contains(&format!("total {said} CPUs")), "{errs:?}");
    }
}

#[test]
fn a_planned_entrant_owes_a_reason_and_no_implementation() {
    let mut e = entrant_with(Vec::new());
    e.spec.entrant.status = Status::Planned;
    assert_eq!(validate(&e, &[], &formats()).len(), 1);
    e.spec.planned = Some(Planned {
        tracking: "issue 1".to_owned(),
        blockers: "nobody wrote it".to_owned(),
        licence_gate: String::new(),
    });
    let errs = validate(&e, &[], &formats());
    assert!(errs.is_empty(), "{errs:?}");
}

#[test]
fn a_descriptor_lives_in_the_directory_that_it_names() {
    let e = load_one("entrants/probe".to_owned(), Descriptor::Parsed(whole().spec, files()), &formats())
        .expect("a whole entrant loads");
    assert_eq!(e.dir, "entrants/probe");

    let errs = load_one("entrants/other".to_owned(), Descriptor::Parsed(whole().spec, files()), &formats())
        .expect_err("a misplaced one does not");
    assert!(errs.iter().any(|x| x.contains("other")), "{errs:?}");
    for file in [
        Descriptor::Absent,
        Descriptor::Unreadable("denied".to_owned()),
        Descriptor::Unparsed("expected `=`".to_owned()),
    ] {
        let errs = load_one("entrants/probe".to_owned(), file, &formats()).expect_err("no descriptor");
        assert_eq!(errs.len(), 1, "{errs:?}");
    }
    assert_eq!(base_name("entrants/probe"), "probe");
    assert!(slug("a-b-2"));
    assert!(!slug("A b"));
}

#[test]
fn a_tree_of_entrants_loads_whole_or_not_at_all() {
    let mut other = whole().spec;
    other.entrant.id = "second".to_owned();
    other.display.order = 2;
    other.display.hue = 90;
    let found = vec![
        ("entrants/second".to_owned(), Descriptor::Parsed(other, files())),
        ("entrants/probe".to_owned(), Descriptor::Parsed(whole().spec, files())),
    ];
    let es = load_all(found, &formats()).expect("both load");
    assert_eq!(es.len(), 2);

    let found = vec![
        ("entrants/probe".to_owned(), Descriptor::Parsed(whole().spec, files())),
        ("entrants/empty".to_owned(), Descriptor::Absent),
    ];
    assert!(load_all(found, &formats()).is_err());
}

#[test]
fn wire_formats_fold_to_one_spelling() {
    assert_eq!(fold_wire_format("JSONEachRow"), fold_wire_format("json_each_row"));
    assert_ne!(fold_wire_format("native"), fold_wire_format("row_binary"));
}

#[test]
fn placeholders_are_found_in_order() {
    let raw: Vec<char> = "a {{topic}} b {{knob:x}} {{open".chars().collect();
    let found: Vec<(String, Option<String>)> = placeholder_tokens(&raw)
        .into_iter()
        .map(|(t, i)| (t.iter().collect(), i.map(|i| i.iter().collect())))
        .collect();
    assert_eq!(
        found,
        vec![
            ("{{topic}}".to_owned(), Some("topic".to_owned())),
            ("{{knob:x}}".to_owned(), Some("knob:x".to_owned())),
            ("{{open".to_owned(), None),
        ]
    );
    let inner: Vec<char> = "offset_reset".chars().collect();
    assert!(matches!(Placeholder::parse(&inner), Some(Placeholder::OffsetReset)));
    let inner: Vec<char> = "nonsense".chars().collect();
    assert!(Placeholder::parse(&inner).is_none());
}

#[test]
fn an_entrant_answers_for_its_parts() {
    let e = whole();
    assert_eq!(e.id(), "probe");
    assert_eq!(e.default_variant().map(|v| v.id.as_str()), Some("only"));
    assert!(e.variant("only").is_some());
    assert!(e.variant("other").is_none());
    assert_eq!(e.data_plane().map(|c| c.name.as_str()), Some("sut"));
}
