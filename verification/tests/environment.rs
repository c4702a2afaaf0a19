use spate_bench::environment::profile_file;
use spate_bench::environment::short_digest;
use spate_bench::environment::short_of;
use spate_bench::environment::Broker;
use spate_bench::environment::CeilingRef;
use spate_bench::environment::Class;
use spate_bench::environment::ClickHouse;
use spate_bench::environment::Environment;
use spate_bench::environment::Host;
use spate_bench::environment::Noise;
use spate_bench::environment::Infra;
use spate_bench::environment::Kind;
use spate_bench::environment::Profile;
use spate_bench::environment::Storage;
use spate_bench::environment::HEADROOM_LIMIT;

#[test]
fn the_digest_is_stable_and_short() {
    let a = short_digest(b"hello");
    assert_eq!(a.len(), 12);
    assert_eq!(a, short_digest(b"hello"));
    assert_ne!(a, short_digest(b"hello "));
}

#[test]
fn the_digest_is_the_head_of_the_sha256() {
    assert_eq!(short_digest(b"hello"), "2cf24dba5fb0");
    assert_eq!(short_digest(b""), "e3b0c44298fc");
}

#[test]
fn a_digest_is_written_in_hexadecimal() {
    let bytes: Vec<u8> = (0..32).map(|i| i * 8 + 7).collect();
    assert_eq!(short_of(&bytes), "070f171f272f");
}

#[test]
fn only_the_fixture_class_bars_publication() {
    assert!(Class::Fixture.publication_bar().is_some());
    assert!(Class::Indicative.publication_bar().is_none());
    assert!(Class::Authoritative.publication_bar().is_none());
}

#[test]
fn the_publication_bar_describes_the_data_not_the_hardware() {
    let bar = Class::Fixture.publication_bar().expect("fixture is barred");
    assert!(bar.contains("fixture"), "{bar}");
    assert!(
        !bar.contains("hardware"),
        "the marker must not restate the third-party-hardware claim: {bar}"
    );
}

#[test]
fn the_headroom_limit_is_reachable_under_the_name_the_driver_imports() {
    assert_eq!(HEADROOM_LIMIT, 70);
}

fn infra_with(storage: Storage) -> Infra {
    Infra {
        partitions: 8,
        broker: Broker {
            kind: "redpanda".to_owned(),
            image: "redpandadata/redpanda:v26.1.13".to_owned(),
            cpus: "3".to_owned(),
            memory: "8g".to_owned(),
            registry: "redpanda-builtin".to_owned(),
        },
        clickhouse: ClickHouse {
            image: "clickhouse/clickhouse-server:26.3".to_owned(),
            cpus: "16".to_owned(),
            memory: "16g".to_owned(),
        },
        storage,
    }
}

fn env_with(infra: Infra) -> Environment {
    Environment {
        spec: Profile {
            id: "t".to_owned(),
            class: Class::Fixture,
            host: Host {
                description: String::new(),
                cpu: String::new(),
                cores: 1,
                core_layout: String::new(),
                memory: String::new(),
                os: String::new(),
                arch: String::new(),
                vm_cpus: 0,
                vm_memory: String::new(),
                caveats: String::new(),
            },
            infra,
            ceiling: CeilingRef {
                file: "ceilings/t.json".to_owned(),
            },
            noise: Noise::default(),
        },
        digest: "0".repeat(12),
        dir: ".".to_owned(),
    }
}

#[test]
fn the_storage_layout_splits_a_comparability_group() {
    let shared = env_with(infra_with(Storage::default()));
    let nvme = env_with(infra_with(Storage {
        kind: Kind::LocalNvme,
        clickhouse_data: "/mnt/ch".to_owned(),
        broker_data: "/mnt/br".to_owned(),
    }));
    assert_ne!(shared.infra_digest(), nvme.infra_digest());

    // Paths are excluded.
    let moved = env_with(infra_with(Storage {
        kind: Kind::LocalNvme,
        clickhouse_data: "/data/ch".to_owned(),
        broker_data: "/data/br".to_owned(),
    }));
    assert_eq!(nvme.infra_digest(), moved.infra_digest());
}

#[test]
fn a_version_bump_splits_no_comparability_group() {
    let a = env_with(infra_with(Storage::default()));
    let mut b = env_with(infra_with(Storage::default()));
    b.spec.infra.broker.image = "redpandadata/redpanda:v27.0.0".to_owned();
    b.spec.infra.clickhouse.image = "clickhouse/clickhouse-server:27.1".to_owned();
    assert_eq!(a.infra_digest(), b.infra_digest());
    b.spec.infra.partitions = 16;
    assert_ne!(a.infra_digest(), b.infra_digest());
}

#[test]
fn a_profile_that_says_nothing_about_storage_is_saying_shared_root() {
    assert_eq!(Storage::default().kind, Kind::SharedRoot);
    assert_eq!(Kind::SharedRoot.as_str(), "shared-root");
    assert_eq!(Kind::LocalNvme.as_str(), "local-nvme");
}

#[test]
fn declaring_local_nvme_without_paths_is_refused_at_load() {
    let missing = Storage {
        kind: Kind::LocalNvme,
        clickhouse_data: String::new(),
        broker_data: "/mnt/br".to_owned(),
    };
    let e = missing.check().expect_err("must refuse");
    assert!(e.contains("clickhouse_data"), "{e}");

    assert!(Storage::default().check().is_ok());
    assert!(
        Storage {
            kind: Kind::LocalNvme,
            clickhouse_data: "/mnt/ch".to_owned(),
            broker_data: "/mnt/br".to_owned(),
        }
        .check()
        .is_ok()
    );
}

#[test]
fn a_profile_is_loaded_under_its_own_name_alone() {
    let spec = env_with(infra_with(Storage::default())).spec;
    assert_eq!(profile_file("environments", "t"), "environments/t.toml");

    let e = Environment::load("environments", "t", Ok(("hello".to_owned(), Ok(spec.clone()))))
        .expect("loads");
    assert_eq!(e.digest, "2cf24dba5fb0");
    assert_eq!(e.ceilings_path(), "environments/ceilings/t.json");
    assert!(!e.is_publishable());

    let m = Environment::load("environments", "u", Ok((String::new(), Ok(spec.clone()))))
        .expect_err("misnamed");
    assert!(m.contains("declares id \"t\"") && m.contains("\"u\""), "{m}");

    let m = Environment::load("environments", "t", Err("No such file".to_owned()))
        .expect_err("unreadable");
    assert_eq!(m, "read environments/t.toml: No such file");

    let m = Environment::load("environments", "t", Ok((String::new(), Err("bad".to_owned()))))
        .expect_err("unparseable");
    assert_eq!(m, "environments/t.toml: bad");

    let mut bare = spec;
    bare.infra.storage.kind = Kind::LocalNvme;
    let m = Environment::load("environments", "t", Ok((String::new(), Ok(bare))))
        .expect_err("no paths");
    assert!(m.contains("broker_data"), "{m}");
}
