use spate_bench::environment::Broker;
use spate_bench::environment::CeilingRef;
use spate_bench::environment::Class;
use spate_bench::environment::ClickHouse;
use spate_bench::environment::Environment;
use spate_bench::environment::Host;
use spate_bench::environment::Noise;
use spate_bench::environment::Infra;
use spate_bench::environment::Kind;
use spate_bench::environment::Profile;
use spate_bench::environment::Storage;
use spate_bench::infra::assert_cap;
use spate_bench::infra::assert_storage;
use spate_bench::infra::bring_up;
use spate_bench::infra::broker_version;
use spate_bench::infra::broker_wait;
use spate_bench::infra::cgroup_cpu;
use spate_bench::infra::clickhouse_wait;
use spate_bench::infra::cpu_max_cores;
use spate_bench::infra::data_volume;
use spate_bench::infra::parse_cpu_stat;
use spate_bench::infra::reused_description;
use spate_bench::infra::running;
use spate_bench::infra::start_broker;
use spate_bench::infra::start_clickhouse;
use spate_bench::infra::wait_for_registry;
use spate_bench::infra::CpuStat;
use spate_bench::infra::Endpoints;
use spate_bench::infra::Mount;
use spate_bench::infra::Observed;
use spate_bench::infra::Reuse;
use spate_bench::infra::Wait;
use spate_bench::infra::BROKER_DATA;
use spate_bench::infra::CLICKHOUSE_DATA;
use spate_bench::infra::PROBE_MS;
use spate_bench::infra::REACHABLE_MAX_MS;
use spate_bench::double::Double;
use spate_bench::report::Flag;

fn number(x: Double) -> f64 {
    f64::from_bits(x.to_bits())
}

fn double(x: f64) -> Double {
    Double::of_bits(x.to_bits())
}

#[test]
fn cpu_max_converts_quota_and_period_to_cores() {
    assert_eq!(cpu_max_cores("800000 100000").map(number), Some(8.0));
    assert_eq!(cpu_max_cores("400000 100000").map(number), Some(4.0));
    // An uncapped container cannot satisfy a declared cap.
    assert_eq!(cpu_max_cores("max 100000").map(number), None);
}

#[test]
fn a_mismatched_cap_is_refused() {
    let e = assert_cap("c", "cpus", "8", "400000 100000").expect_err("must refuse");
    assert!(e.starts_with("REFUSED"), "{e}");
    assert!(assert_cap("c", "cpus", "8", "800000 100000").is_ok());
}

#[test]
fn a_cap_is_held_to_a_hundredth_of_a_core() {
    assert!(assert_cap("c", "cpus", "4", "400900 100000").is_ok());
    // A hundredth apart is less than a hundredth apart once both are doubles.
    assert_eq!((4.01_f64 - 4.0).abs() < 0.01, true);
    assert!(assert_cap("c", "cpus", "4", "401000 100000").is_ok());
    assert!(assert_cap("c", "cpus", "4", "401001 100000").is_err());
    assert!(assert_cap("c", "cpus", "4", "4e5 1e5").is_ok());
    assert!(assert_cap("c", "cpus", "4", "400000 0").is_err());
    assert!(assert_cap("c", "cpus", "4", "-400000 -100000").is_ok());
    assert!(assert_cap("c", "cpus", "4", "max 100000").is_err());
    assert!(assert_cap("c", "cpus", "four", "400000 100000").is_err());
}

#[test]
fn a_cgroup_cpu_stat_parses_into_its_counters_and_tolerates_absent_throttling_keys() {
    let full = "usage_usec 129007508\nuser_usec 129003510\nsystem_usec 3998\n\
                nr_periods 660\nnr_throttled 12\nthrottled_usec 602643\n";
    let s = parse_cpu_stat(full).expect("cpu.stat parses");
    assert_eq!(s.usage_us, 129_007_508);
    assert_eq!(s.user_us, 129_003_510);
    assert_eq!(s.nr_throttled, 12);
    assert_eq!(s.throttled_us, 602_643);

    // A kernel with nothing to report omits the throttling keys.
    let quiet = parse_cpu_stat("usage_usec 5\nuser_usec 4\nsystem_usec 1\n")
        .expect("a cpu.stat without throttling keys still parses");
    assert_eq!(quiet.nr_throttled, 0);
    assert_eq!(quiet.throttled_us, 0);

    // No usage at all is not a reading of zero usage.
    assert!(parse_cpu_stat("nr_periods 4\n").is_none());
    assert!(cgroup_cpu(&Err("no such container".to_owned())).is_none());
}

#[test]
fn mean_cores_are_the_cpu_delta_over_the_interval_the_rung_actually_ran_for() {
    let zero = CpuStat {
        usage_us: 0,
        user_us: 0,
        system_us: 0,
        nr_periods: 0,
        nr_throttled: 0,
        throttled_us: 0,
    };
    // Four CPU-seconds over one wall second is four cores.
    let after = CpuStat {
        usage_us: 4_000_000,
        user_us: 3_000_000,
        system_us: 1_000_000,
        nr_periods: 10,
        nr_throttled: 3,
        throttled_us: 500,
    };
    assert!((number(CpuStat::cores_between(zero, after, double(1.0))) - 4.0).abs() < 1e-9);
    assert!((number(CpuStat::cores_between(zero, after, double(8.0))) - 0.5).abs() < 1e-9);
    // A window of no length is not a busy server.
    assert!(number(CpuStat::cores_between(zero, after, double(0.0))).abs() < f64::EPSILON);
    assert_eq!(after.since(zero), after);
    assert_eq!(after.since(after).usage_us, 0);
}

#[test]
fn reusing_one_container_says_which_one_rather_than_claiming_the_whole_infrastructure() {
    assert_eq!(reused_description(true, true), "infrastructure");
    assert_eq!(reused_description(true, false), "broker, with ClickHouse recreated");
    assert_eq!(reused_description(false, true), "ClickHouse, with the broker recreated");
}

fn nvme() -> Storage {
    Storage {
        kind: Kind::LocalNvme,
        clickhouse_data: "/mnt/bench-clickhouse".to_owned(),
        broker_data: "/mnt/bench-broker".to_owned(),
    }
}

#[test]
fn a_shared_root_profile_mounts_nothing_and_local_nvme_mounts_both() {
    let shared = Storage::default();
    assert_eq!(data_volume(&shared, "", CLICKHOUSE_DATA), None);

    let nvme = nvme();
    assert_eq!(
        data_volume(&nvme, &nvme.clickhouse_data, CLICKHOUSE_DATA).as_deref(),
        Some("/mnt/bench-clickhouse:/var/lib/clickhouse")
    );
    assert_eq!(
        data_volume(&nvme, &nvme.broker_data, BROKER_DATA).as_deref(),
        Some("/mnt/bench-broker:/var/lib/redpanda/data")
    );
}

#[test]
fn only_a_declared_nvme_layout_is_verified() {
    let root = Mount::Source("/dev/root\n".to_owned());
    assert!(assert_storage(&Storage::default(), &root, &root, &root).is_ok());

    // `/` resolves to the root source on any host.
    let bogus = Storage {
        kind: Kind::LocalNvme,
        clickhouse_data: "/".to_owned(),
        broker_data: "/".to_owned(),
    };
    let e = assert_storage(&bogus, &root, &root, &root).expect_err("must refuse");
    assert!(e.starts_with("REFUSED") || e.contains("findmnt"), "{e}");

    // On a host without findmnt the layout is unknown, and unknown is refused.
    let unknown = Mount::NotRun("not found".to_owned());
    let e = assert_storage(&bogus, &unknown, &root, &root).expect_err("must refuse");
    assert!(e.contains("findmnt"), "{e}");
    let e = assert_storage(&nvme(), &root, &Mount::Unresolved, &root).expect_err("must refuse");
    assert_eq!(e, "findmnt could not resolve /mnt/bench-clickhouse");
}

#[test]
fn an_nvme_layout_has_a_device_for_each_data_path() {
    let root = Mount::Source("/dev/root".to_owned());
    let a = Mount::Source("/dev/nvme1n1".to_owned());
    let b = Mount::Source("/dev/nvme2n1".to_owned());
    assert!(assert_storage(&nvme(), &root, &a, &b).is_ok());
    assert!(assert_storage(&nvme(), &root, &a, &a).is_err());
    assert!(assert_storage(&nvme(), &root, &a, &root).is_err());
}

#[test]
fn memory_caps_compare_in_bytes() {
    assert!(assert_cap("c", "memory", "8g", "8589934592").is_ok());
    assert!(assert_cap("c", "memory", "8g", "8589934591").is_err());
    // "max" is not a number, so an uncapped container fails the assertion.
    assert!(assert_cap("c", "memory", "8g", "max").is_err());
    // Every suffix that the shared parser accepts reaches this comparison.
    assert!(assert_cap("c", "memory", "8388608k", "8589934592").is_ok());
}

fn environment() -> Environment {
    Environment {
        spec: Profile {
            id: "t".to_owned(),
            class: Class::Indicative,
            host: Host {
                description: String::new(),
                cpu: String::new(),
                cores: 18,
                core_layout: String::new(),
                memory: String::new(),
                os: String::new(),
                arch: String::new(),
                vm_cpus: 18,
                vm_memory: String::new(),
                caveats: String::new(),
            },
            infra: Infra {
                partitions: 8,
                broker: Broker {
                    kind: "redpanda".to_owned(),
                    image: "redpandadata/redpanda:v26.1.13".to_owned(),
                    cpus: "8".to_owned(),
                    memory: "8g".to_owned(),
                    registry: "redpanda-builtin".to_owned(),
                },
                clickhouse: ClickHouse {
                    image: "clickhouse/clickhouse-server:26.3".to_owned(),
                    cpus: "5".to_owned(),
                    memory: "12g".to_owned(),
                },
                storage: Storage::default(),
            },
            ceiling: CeilingRef {
                file: "ceilings/t.json".to_owned(),
            },
            noise: Noise::default(),
        },
        digest: "0".repeat(12),
        dir: ".".to_owned(),
    }
}

fn observed() -> Observed {
    Observed {
        broker_cpu_max: Ok("800000 100000\n".to_owned()),
        broker_memory_max: Ok("8589934592\n".to_owned()),
        ch_cpu_max: Ok("500000 100000\n".to_owned()),
        ch_memory_max: Ok("12884901888\n".to_owned()),
        broker_version: Ok("rpk version v26.1.13\n".to_owned()),
        broker_image: Ok("sha256:b".to_owned()),
        ch_version: Ok("26.3.1.1\n".to_owned()),
        ch_image: Ok("sha256:c".to_owned()),
        ceiling: Ok((305_554, 256_700_000)),
    }
}

#[test]
fn what_was_brought_up_is_read_back() {
    let env = environment();
    let reuse = Reuse::plan(true, true, false);
    let (ep, infra, flags) = bring_up(&env, reuse, &observed()).expect("caps hold");
    assert_eq!(ep, Endpoints::ours());
    assert_eq!(ep.ch_internal_port, 8123);
    assert_eq!(infra.broker_cpus, "800000 100000");
    assert_eq!(infra.broker_version, "v26.1.13");
    assert_eq!(infra.clickhouse_version, "26.3.1.1");
    assert_eq!(infra.digest, env.infra_digest());
    assert_eq!(infra.storage, "shared-root");
    assert_eq!(infra.ceiling_msgs_per_s, 305_554);
    assert_eq!(infra.ceiling_rows_per_s, 0);
    assert_eq!(flags, vec![Flag::ReusedInfra]);
}

#[test]
fn a_run_without_a_ceiling_says_so() {
    let mut seen = observed();
    seen.ceiling = Err("no ceilings file".to_owned());
    let fresh = Reuse::plan(false, true, true);
    assert_eq!((fresh.broker, fresh.clickhouse), (false, false));
    let (_, infra, flags) = bring_up(&environment(), fresh, &seen).expect("caps hold");
    assert_eq!(infra.ceiling_msgs_per_s, 0);
    assert_eq!(flags, vec![Flag::HeadroomUnproven]);
}

#[test]
fn infrastructure_under_other_caps_is_refused() {
    let mut seen = observed();
    seen.ch_memory_max = Ok("max".to_owned());
    let e = bring_up(&environment(), Reuse::plan(true, true, true), &seen).expect_err("refused");
    assert!(e.starts_with("REFUSED"), "{e}");

    let mut seen = observed();
    seen.broker_cpu_max = Err("gone".to_owned());
    let e = bring_up(&environment(), Reuse::plan(true, true, true), &seen).expect_err("refused");
    assert!(e.starts_with("read cpu.max from"), "{e}");
}

#[test]
fn a_wait_ends_with_an_answer_or_a_refusal() {
    assert_eq!(broker_wait(true, u64::MAX), Wait::Ready);
    assert_eq!(broker_wait(false, 0), Wait::Again(PROBE_MS));
    assert!(matches!(broker_wait(false, REACHABLE_MAX_MS), Wait::GaveUp(_)));
    assert_eq!(clickhouse_wait(&Ok("Ok.\n".to_owned()), 0), Wait::Ready);
    assert_eq!(clickhouse_wait(&Err("refused".to_owned()), 0), Wait::Again(PROBE_MS));
    // A registry without subjects answers with an empty list.
    assert_eq!(wait_for_registry(&Ok("[]".to_owned()), 0), Wait::Ready);
    assert_eq!(wait_for_registry(&Ok(String::new()), 0), Wait::Again(PROBE_MS));
}

#[test]
fn containers_are_started_under_their_declared_caps() {
    let env = environment();
    let args = start_broker(&env.spec.infra.broker, &nvme(), "net");
    assert_eq!(args[0], "run");
    let joined = args.join(" ");
    assert!(joined.contains("--cpus=8") || joined.contains("--cpus 8"), "{joined}");
    assert!(joined.contains("/mnt/bench-broker:/var/lib/redpanda/data"), "{joined}");
    let joined = start_clickhouse(&env.spec.infra.clickhouse, &Storage::default(), "net").join(" ");
    assert!(joined.contains("12g"), "{joined}");
    assert!(!joined.contains(":/var/lib/clickhouse"), "{joined}");
}

#[test]
fn an_unreadable_answer_is_no_version_and_no_running_container() {
    assert_eq!(broker_version(&Err("gone".to_owned())), "unknown");
    assert_eq!(broker_version(&Ok("\n rpk v1\nother\n".to_owned())), "v1");
    assert!(running(&Ok("true".to_owned())));
    assert!(!running(&Ok("false".to_owned())));
    assert!(!running(&Err("gone".to_owned())));
}
