//! Bringing up the shared infrastructure, from the environment profile.
//!
//! There is one path to a running broker and ClickHouse, and it takes its caps
//! from the profile. Having applied them, it reads them back out of the running
//! containers and asserts that they match: a mismatch fails the run.
//! Infrastructure is recreated by default; reuse is asked for, and flagged on
//! every record that it produces.

use vstd::prelude::*;
use crate::big;
use crate::about;
use crate::entrant;
use crate::environment;
use crate::environment::Environment;
use crate::environment::Storage;
use crate::double;
use crate::double::Double;
use crate::report::Flag;
use crate::report::Infra;
use crate::text;

verus! {

/// The broker's container.
pub const BROKER: &'static str = "spate-bench-redpanda";

/// ClickHouse's container.
pub const CLICKHOUSE: &'static str = "spate-bench-clickhouse";

/// Where ClickHouse keeps the data that an arm's inserts land in.
pub const CLICKHOUSE_DATA: &'static str = "/var/lib/clickhouse";

/// Where the broker keeps the segments that the corpus is read out of.
pub const BROKER_DATA: &'static str = "/var/lib/redpanda/data";

/// ClickHouse's port inside the network.
pub const CLICKHOUSE_HTTP_PORT: u16 = 8123;

/// How long the broker and ClickHouse may take to become reachable.
pub const REACHABLE_MAX_MS: u64 = 90_000;

/// How long the schema registry may take to answer.
pub const REGISTRY_MAX_MS: u64 = 60_000;

/// The pause between two probes.
pub const PROBE_MS: u64 = 500;

/// Where the running infrastructure can be reached, from the host and from
/// inside the network.
#[derive(Clone, Debug, PartialEq, Eq)]
pub struct Endpoints {
    /// The broker, from the host.
    pub bootstrap: String,
    /// The broker, from a container of the network.
    pub bootstrap_internal: String,
    /// The broker's container, whose control group is read.
    pub broker_container: String,
    /// The registry's host, from the host.
    pub registry_host: String,
    /// The registry's port, from the host.
    pub registry_port: u16,
    /// The registry, from a container of the network.
    pub registry_internal: String,
    /// ClickHouse's host, from the host.
    pub ch_host: String,
    /// ClickHouse's port, from the host.
    pub ch_port: u16,
    /// ClickHouse's user.
    pub ch_user: String,
    /// ClickHouse's password.
    pub ch_password: String,
    /// ClickHouse, from a container of the network.
    pub ch_internal: String,
    /// ClickHouse's container, whose control group is read.
    pub ch_container: String,
    /// ClickHouse's port inside the network, which is not the published one.
    pub ch_internal_port: u16,
}

impl Endpoints {
    /// Whether these are the endpoints of the containers that are started here.
    pub open spec fn are_ours(self) -> bool {
        &&& self.bootstrap@ == "localhost:9092"@
        &&& self.bootstrap_internal@ == BROKER@ + ":29092"@
        &&& self.broker_container@ == BROKER@
        &&& self.registry_host@ == "localhost"@
        &&& self.registry_port == 18081
        &&& self.registry_internal@ == "http://"@ + BROKER@ + ":8081"@
        &&& self.ch_host@ == "localhost"@
        &&& self.ch_port == 18123
        &&& self.ch_user@ == "default"@
        &&& self.ch_password@ == "bench"@
        &&& self.ch_internal@ == "http://"@ + CLICKHOUSE@ + ":"@ + text::decimal(
            CLICKHOUSE_HTTP_PORT as nat,
        )
        &&& self.ch_container@ == CLICKHOUSE@
        &&& self.ch_internal_port == CLICKHOUSE_HTTP_PORT
    }

    /// The endpoints of the containers that are started here.
    pub fn ours() -> (e: Endpoints)
        ensures
            e.are_ours(),
    {
        let mut bootstrap_internal = BROKER.to_owned();
        bootstrap_internal.append(":29092");
        let mut registry_internal = "http://".to_owned();
        registry_internal.append(BROKER);
        registry_internal.append(":8081");
        let mut ch_internal = "http://".to_owned();
        ch_internal.append(CLICKHOUSE);
        ch_internal.append(":");
        text::push_decimal(&mut ch_internal, CLICKHOUSE_HTTP_PORT as u128);
        Endpoints {
            bootstrap: "localhost:9092".to_owned(),
            bootstrap_internal,
            broker_container: BROKER.to_owned(),
            registry_host: "localhost".to_owned(),
            registry_port: 18081,
            registry_internal,
            ch_host: "localhost".to_owned(),
            ch_port: 18123,
            ch_user: "default".to_owned(),
            ch_password: "bench".to_owned(),
            ch_internal,
            ch_container: CLICKHOUSE.to_owned(),
            ch_internal_port: CLICKHOUSE_HTTP_PORT,
        }
    }
}

// ---------------------------------------------------------------------------
// Storage
// ---------------------------------------------------------------------------

/// What the host said of the device under a path.
#[derive(Clone, Debug, PartialEq, Eq)]
pub enum Mount {
    /// The device, as it was printed.
    Source(String),
    /// The question could not be asked, with the reason.
    NotRun(String),
    /// The question was asked and not answered.
    Unresolved,
}

/// The device under the path `path`, or why it is not known.
pub open spec fn device(path: Seq<char>, m: Mount) -> Result<Seq<char>, Seq<char>> {
    match m {
        Mount::Source(s) => Ok(text::trim(s@)),
        Mount::NotRun(e) => Err(
            "[infra.storage] declares kind = \"local-nvme\", which this harness verifies with findmnt(8), and it could not be run ("@
                + e@
                + "). Either the host is not the one the profile describes, or the profile should declare kind = \"shared-root\"."@,
        ),
        Mount::Unresolved => Err("findmnt could not resolve "@ + path),
    }
}

fn device_of(path: &str, m: &Mount) -> (r: Result<String, String>)
    ensures
        match r {
            Ok(s) => device(path@, *m) == Ok::<Seq<char>, Seq<char>>(s@),
            Err(e) => device(path@, *m) == Err::<Seq<char>, Seq<char>>(e@),
        },
{
    match m {
        Mount::Source(s) => {
            let v = text::chars_of(s.as_str());
            Ok(text::string_of(text::trimmed(v.as_slice())))
        },
        Mount::NotRun(e) => {
            let mut t =
                "[infra.storage] declares kind = \"local-nvme\", which this harness verifies with findmnt(8), and it could not be run (".to_owned();
            t.append(e.as_str());
            t.append(
                "). Either the host is not the one the profile describes, or the profile should declare kind = \"shared-root\".",
            );
            Err(t)
        },
        Mount::Unresolved => {
            let mut t = "findmnt could not resolve ".to_owned();
            t.append(path);
            Err(t)
        },
    }
}

/// The refusal of a layout that is not the declared one.
pub open spec fn layout_refusal(
    what: Seq<char>,
    storage: Storage,
    root: Seq<char>,
    ch: Seq<char>,
    broker: Seq<char>,
) -> Seq<char> {
    "REFUSED: "@ + what + "\n  /                      -> "@ + root + "\n  "@
        + storage.clickhouse_data@ + " -> "@ + ch + "\n  "@ + storage.broker_data@ + " -> "@
        + broker
        + "\nThe profile declares kind = \"local-nvme\" and infra_digest records that, so every number from this run would be described as measured on separate local devices. Check that the box formatted and mounted its instance store before Docker started, or declare kind = \"shared-root\"."@
}

/// Why the host's layout is not the declared one, if it is not.
pub open spec fn storage_refusal(
    storage: Storage,
    root: Mount,
    clickhouse: Mount,
    broker: Mount,
) -> Option<Seq<char>> {
    if storage.kind != environment::Kind::LocalNvme {
        None
    } else {
        match (
            device("/"@, root),
            device(storage.clickhouse_data@, clickhouse),
            device(storage.broker_data@, broker),
        ) {
            (Err(e), _, _) => Some(e),
            (_, Err(e), _) => Some(e),
            (_, _, Err(e)) => Some(e),
            (Ok(r), Ok(c), Ok(b)) => if c == r {
                Some(
                    layout_refusal(
                        "ClickHouse's data path is on the root filesystem."@,
                        storage,
                        r,
                        c,
                        b,
                    ),
                )
            } else if b == r {
                Some(
                    layout_refusal(
                        "the broker's data path is on the root filesystem."@,
                        storage,
                        r,
                        c,
                        b,
                    ),
                )
            } else if c == b {
                Some(
                    layout_refusal(
                        "ClickHouse and the broker are on the SAME device."@,
                        storage,
                        r,
                        c,
                        b,
                    ),
                )
            } else {
                None
            },
        }
    }
}

fn refuse_layout(what: &str, storage: &Storage, root: &str, ch: &str, broker: &str) -> (s: String)
    ensures
        s@ == layout_refusal(what@, *storage, root@, ch@, broker@),
{
    let mut s = "REFUSED: ".to_owned();
    s.append(what);
    s.append("\n  /                      -> ");
    s.append(root);
    s.append("\n  ");
    s.append(storage.clickhouse_data.as_str());
    s.append(" -> ");
    s.append(ch);
    s.append("\n  ");
    s.append(storage.broker_data.as_str());
    s.append(" -> ");
    s.append(broker);
    s.append(
        "\nThe profile declares kind = \"local-nvme\" and infra_digest records that, so every number from this run would be described as measured on separate local devices. Check that the box formatted and mounted its instance store before Docker started, or declare kind = \"shared-root\".",
    );
    s
}

/// Fails the run unless each declared data path is a mount of its own, distinct
/// from the root filesystem and from the other. An answer that could not be had
/// is a refusal.
///
/// The devices are read on the host: inside a container a mounted path differs
/// from the root whether or not it is a device of its own.
pub fn assert_storage(storage: &Storage, root: &Mount, clickhouse: &Mount, broker: &Mount) -> (r:
    Result<(), String>)
    ensures
        match r {
            Ok(_) => storage_refusal(*storage, *root, *clickhouse, *broker) is None,
            Err(e) => storage_refusal(*storage, *root, *clickhouse, *broker) == Some(e@),
        },
{
    if storage.kind != environment::Kind::LocalNvme {
        return Ok(());
    }
    let r = match device_of("/", root) {
        Ok(s) => s,
        Err(e) => {
            return Err(e);
        },
    };
    let c = match device_of(storage.clickhouse_data.as_str(), clickhouse) {
        Ok(s) => s,
        Err(e) => {
            return Err(e);
        },
    };
    let b = match device_of(storage.broker_data.as_str(), broker) {
        Ok(s) => s,
        Err(e) => {
            return Err(e);
        },
    };
    if text::same(c.as_str(), r.as_str()) {
        return Err(
            refuse_layout(
                "ClickHouse's data path is on the root filesystem.",
                storage,
                r.as_str(),
                c.as_str(),
                b.as_str(),
            ),
        );
    }
    if text::same(b.as_str(), r.as_str()) {
        return Err(
            refuse_layout(
                "the broker's data path is on the root filesystem.",
                storage,
                r.as_str(),
                c.as_str(),
                b.as_str(),
            ),
        );
    }
    if text::same(c.as_str(), b.as_str()) {
        return Err(
            refuse_layout(
                "ClickHouse and the broker are on the SAME device.",
                storage,
                r.as_str(),
                c.as_str(),
                b.as_str(),
            ),
        );
    }
    Ok(())
}

/// The volume of a measured data path. None where containers write to their own
/// layers.
pub fn data_volume(storage: &Storage, host_path: &str, container_path: &str) -> (r: Option<String>)
    ensures
        match r {
            Some(s) => storage.kind == environment::Kind::LocalNvme && s@ == host_path@ + ":"@
                + container_path@,
            None => storage.kind == environment::Kind::SharedRoot,
        },
{
    if storage.kind != environment::Kind::LocalNvme {
        return None;
    }
    let mut s = host_path.to_owned();
    s.append(":");
    s.append(container_path);
    Some(s)
}

// ---------------------------------------------------------------------------
// Starting containers
// ---------------------------------------------------------------------------

/// Whether a container is running, by what inspecting it printed.
pub fn running(inspected: &Result<String, String>) -> (r: bool)
    ensures
        r == (inspected matches Ok(s) && s@ == "true"@),
{
    match inspected {
        Ok(s) => text::same(s.as_str(), "true"),
        Err(_) => false,
    }
}

/// Which containers were reused, for the line that an operator reads.
pub open spec fn reused_words(broker: bool, clickhouse: bool) -> Seq<char> {
    if broker && !clickhouse {
        "broker, with ClickHouse recreated"@
    } else if !broker && clickhouse {
        "ClickHouse, with the broker recreated"@
    } else {
        "infrastructure"@
    }
}

/// Which containers were reused, named rather than counted.
pub fn reused_description(broker: bool, clickhouse: bool) -> (s: &'static str)
    ensures
        s@ == reused_words(broker, clickhouse),
{
    if broker && !clickhouse {
        "broker, with ClickHouse recreated"
    } else if !broker && clickhouse {
        "ClickHouse, with the broker recreated"
    } else {
        "infrastructure"
    }
}

/// The volume arguments of a measured data path.
pub open spec fn volume_args(storage: Storage, host: Seq<char>, inside: Seq<char>) -> Seq<
    Seq<char>,
> {
    if storage.kind == environment::Kind::LocalNvme {
        seq!["-v"@, host + ":"@ + inside]
    } else {
        Seq::empty()
    }
}

/// The cap arguments of a container: swap is capped with memory.
pub open spec fn cap_args(cpus: Seq<char>, memory: Seq<char>) -> Seq<Seq<char>> {
    seq!["--cpus="@ + cpus, "--memory="@ + memory, "--memory-swap="@ + memory]
}

/// The arguments that start the broker.
///
/// The broker's own budget stays below the container's cap, so that an overshoot
/// becomes backpressure and not a kill, and it shares its cores: polling one per
/// shard would burn what the system under test needs.
pub open spec fn broker_args(b: environment::Broker, storage: Storage, network: Seq<char>) -> Seq<
    Seq<char>,
> {
    seq![
        "run"@,
        "-d"@,
        "--name"@,
        BROKER@,
        "--network"@,
        network,
        "-p"@,
        "9092:9092"@,
        "-p"@,
        "18081:8081"@,
    ] + cap_args(b.cpus@, b.memory@) + volume_args(storage, storage.broker_data@, BROKER_DATA@)
        + seq![
        b.image@,
        "redpanda"@,
        "start"@,
        "--node-id"@,
        "0"@,
        "--check=false"@,
        "--overprovisioned"@,
        "--kafka-addr"@,
        "EXTERNAL://0.0.0.0:9092,INTERNAL://0.0.0.0:29092"@,
        "--advertise-kafka-addr"@,
        "EXTERNAL://localhost:9092,INTERNAL://"@ + BROKER@ + ":29092"@,
        "--smp"@,
        b.cpus@,
        "--memory"@,
        "4G"@,
        "--reserve-memory"@,
        "0M"@,
    ]
}

/// The arguments that start ClickHouse.
pub open spec fn clickhouse_args(
    c: environment::ClickHouse,
    storage: Storage,
    network: Seq<char>,
) -> Seq<Seq<char>> {
    seq![
        "run"@,
        "-d"@,
        "--name"@,
        CLICKHOUSE@,
        "--network"@,
        network,
        "-p"@,
        "18123:8123"@,
        "-p"@,
        "19000:9000"@,
        "-e"@,
        "CLICKHOUSE_PASSWORD=bench"@,
        "--ulimit"@,
        "nofile=262144:262144"@,
    ] + cap_args(c.cpus@, c.memory@) + volume_args(
        storage,
        storage.clickhouse_data@,
        CLICKHOUSE_DATA@,
    ) + seq![c.image@]
}

fn push_joined(out: &mut Vec<String>, a: &str, b: &str)
    ensures
        text::strings(final(out)@) == text::strings(old(out)@).push(a@ + b@),
{
    let mut s = a.to_owned();
    s.append(b);
    text::push_string(out, s);
}

fn push_caps(out: &mut Vec<String>, cpus: &str, memory: &str)
    ensures
        text::strings(final(out)@) == text::strings(old(out)@) + cap_args(cpus@, memory@),
{
    let ghost was = text::strings(out@);
    push_joined(out, "--cpus=", cpus);
    push_joined(out, "--memory=", memory);
    push_joined(out, "--memory-swap=", memory);
    assert(text::strings(out@) =~= was + cap_args(cpus@, memory@));
}

fn push_volume(out: &mut Vec<String>, storage: &Storage, host: &str, inside: &str)
    ensures
        text::strings(final(out)@) == text::strings(old(out)@) + volume_args(
            *storage,
            host@,
            inside@,
        ),
{
    let ghost was = text::strings(out@);
    if let Some(v) = data_volume(storage, host, inside) {
        text::push_text(out, "-v");
        text::push_string(out, v);
    }
    assert(text::strings(out@) =~= was + volume_args(*storage, host@, inside@));
}

/// The arguments that start the broker on `network`.
pub fn start_broker(b: &environment::Broker, storage: &Storage, network: &str) -> (out: Vec<String>)
    ensures
        text::strings(out@) == broker_args(*b, *storage, network@),
{
    let mut out = text::owned(
        &["run", "-d", "--name", BROKER, "--network", network, "-p", "9092:9092", "-p", "18081:8081"],
    );
    assert(text::strings(out@) =~= seq![
        "run"@,
        "-d"@,
        "--name"@,
        BROKER@,
        "--network"@,
        network@,
        "-p"@,
        "9092:9092"@,
        "-p"@,
        "18081:8081"@,
    ]);
    push_caps(&mut out, b.cpus.as_str(), b.memory.as_str());
    push_volume(&mut out, storage, storage.broker_data.as_str(), BROKER_DATA);
    let mut advertise = "EXTERNAL://localhost:9092,INTERNAL://".to_owned();
    advertise.append(BROKER);
    advertise.append(":29092");
    let tail = text::owned(
        &[
            b.image.as_str(),
            "redpanda",
            "start",
            "--node-id",
            "0",
            "--check=false",
            "--overprovisioned",
            "--kafka-addr",
            "EXTERNAL://0.0.0.0:9092,INTERNAL://0.0.0.0:29092",
            "--advertise-kafka-addr",
            advertise.as_str(),
            "--smp",
            b.cpus.as_str(),
            "--memory",
            "4G",
            "--reserve-memory",
            "0M",
        ],
    );
    assert(text::strings(tail@) =~= seq![
        b.image@,
        "redpanda"@,
        "start"@,
        "--node-id"@,
        "0"@,
        "--check=false"@,
        "--overprovisioned"@,
        "--kafka-addr"@,
        "EXTERNAL://0.0.0.0:9092,INTERNAL://0.0.0.0:29092"@,
        "--advertise-kafka-addr"@,
        "EXTERNAL://localhost:9092,INTERNAL://"@ + BROKER@ + ":29092"@,
        "--smp"@,
        b.cpus@,
        "--memory"@,
        "4G"@,
        "--reserve-memory"@,
        "0M"@,
    ]);
    text::push_all(&mut out, tail);
    out
}

/// The arguments that start ClickHouse on `network`.
pub fn start_clickhouse(c: &environment::ClickHouse, storage: &Storage, network: &str) -> (out: Vec<
    String,
>)
    ensures
        text::strings(out@) == clickhouse_args(*c, *storage, network@),
{
    let mut out = text::owned(
        &[
            "run",
            "-d",
            "--name",
            CLICKHOUSE,
            "--network",
            network,
            "-p",
            "18123:8123",
            "-p",
            "19000:9000",
            "-e",
            "CLICKHOUSE_PASSWORD=bench",
            "--ulimit",
            "nofile=262144:262144",
        ],
    );
    assert(text::strings(out@) =~= seq![
        "run"@,
        "-d"@,
        "--name"@,
        CLICKHOUSE@,
        "--network"@,
        network@,
        "-p"@,
        "18123:8123"@,
        "-p"@,
        "19000:9000"@,
        "-e"@,
        "CLICKHOUSE_PASSWORD=bench"@,
        "--ulimit"@,
        "nofile=262144:262144"@,
    ]);
    push_caps(&mut out, c.cpus.as_str(), c.memory.as_str());
    push_volume(&mut out, storage, storage.clickhouse_data.as_str(), CLICKHOUSE_DATA);
    let ghost was = text::strings(out@);
    text::push_text(&mut out, c.image.as_str());
    assert(text::strings(out@) =~= was + seq![c.image@]);
    out
}

/// What to do after a probe of something that is starting.
#[derive(Clone, Debug, PartialEq, Eq)]
pub enum Wait {
    /// It answered.
    Ready,
    /// Probe again after that many milliseconds.
    Again(u64),
    /// It took too long, with the refusal.
    GaveUp(String),
}

/// Whether `w` is what to do after a probe: an answer ends the wait even past
/// the deadline.
pub open spec fn is_step(w: Wait, answered: bool, late: bool, refusal: Seq<char>) -> bool {
    if answered {
        w is Ready
    } else if late {
        w matches Wait::GaveUp(m) && m@ == refusal
    } else {
        w == Wait::Again(PROBE_MS)
    }
}

/// What to do after probing the broker's port for `elapsed_ms`.
pub fn broker_wait(open: bool, elapsed_ms: u64) -> (w: Wait)
    ensures
        is_step(w, open, elapsed_ms >= REACHABLE_MAX_MS, BROKER@ + " did not become reachable"@),
{
    if open {
        return Wait::Ready;
    }
    if elapsed_ms >= REACHABLE_MAX_MS {
        let mut m = BROKER.to_owned();
        m.append(" did not become reachable");
        return Wait::GaveUp(m);
    }
    Wait::Again(PROBE_MS)
}

/// What to do after asking ClickHouse whether it is up for `elapsed_ms`.
pub fn clickhouse_wait(pong: &Result<String, String>, elapsed_ms: u64) -> (w: Wait)
    ensures
        is_step(
            w,
            pong matches Ok(s) && text::contains(s@, "Ok"@),
            elapsed_ms >= REACHABLE_MAX_MS,
            CLICKHOUSE@ + " did not become reachable"@,
        ),
{
    let up: bool = match pong {
        Ok(s) => text::str_has(s.as_str(), "Ok"),
        Err(_) => false,
    };
    if up {
        return Wait::Ready;
    }
    if elapsed_ms >= REACHABLE_MAX_MS {
        let mut m = CLICKHOUSE.to_owned();
        m.append(" did not become reachable");
        return Wait::GaveUp(m);
    }
    Wait::Again(PROBE_MS)
}

/// What to do after asking the registry for its subjects for `elapsed_ms`. An
/// empty list is an answer.
pub fn wait_for_registry(subjects: &Result<String, String>, elapsed_ms: u64) -> (w: Wait)
    ensures
        is_step(
            w,
            subjects matches Ok(s) && text::contains(s@, "["@),
            elapsed_ms >= REGISTRY_MAX_MS,
            "the schema registry did not answer"@,
        ),
{
    let up: bool = match subjects {
        Ok(s) => text::str_has(s.as_str(), "["),
        Err(_) => false,
    };
    if up {
        return Wait::Ready;
    }
    if elapsed_ms >= REGISTRY_MAX_MS {
        return Wait::GaveUp("the schema registry did not answer".to_owned());
    }
    Wait::Again(PROBE_MS)
}

// ---------------------------------------------------------------------------
// Reading back
// ---------------------------------------------------------------------------

/// The caps that a container runs under, as its control group states them, or
/// why they could not be read.
pub open spec fn caps_read(
    container: Seq<char>,
    cpu: Result<String, String>,
    memory: Result<String, String>,
) -> Result<(Seq<char>, Seq<char>), Seq<char>> {
    match (cpu, memory) {
        (Err(e), _) => Err("read cpu.max from "@ + container + ": "@ + e@),
        (_, Err(e)) => Err("read memory.max from "@ + container + ": "@ + e@),
        (Ok(c), Ok(m)) => Ok((text::trim(c@), text::trim(m@))),
    }
}

fn trimmed_text(s: &str) -> (r: String)
    ensures
        r@ == text::trim(s@),
{
    let v = text::chars_of(s);
    text::string_of(text::trimmed(v.as_slice()))
}

/// The caps that a container runs under, given what reading its control group
/// printed. What a container was asked to run under is another matter.
pub fn cgroup_caps(
    container: &str,
    cpu: &Result<String, String>,
    memory: &Result<String, String>,
) -> (r: Result<(String, String), String>)
    ensures
        match r {
            Ok(p) => caps_read(container@, *cpu, *memory) == Ok::<
                (Seq<char>, Seq<char>),
                Seq<char>,
            >((p.0@, p.1@)),
            Err(e) => caps_read(container@, *cpu, *memory) == Err::<
                (Seq<char>, Seq<char>),
                Seq<char>,
            >(e@),
        },
{
    let c = match cpu {
        Ok(s) => trimmed_text(s.as_str()),
        Err(e) => {
            let mut m = "read cpu.max from ".to_owned();
            m.append(container);
            m.append(": ");
            m.append(e.as_str());
            return Err(m);
        },
    };
    match memory {
        Ok(s) => Ok((c, trimmed_text(s.as_str()))),
        Err(e) => {
            let mut m = "read memory.max from ".to_owned();
            m.append(container);
            m.append(": ");
            m.append(e.as_str());
            Err(m)
        },
    }
}

/// What a container's control group says that it has spent, at one instant.
///
/// The counters are cumulative: one reading says nothing, and two across a known
/// interval say how many cores the container occupied over it.
#[derive(Clone, Copy, Debug, PartialEq, Eq, Structural)]
pub struct CpuStat {
    /// Processor time charged to the group, in microseconds.
    pub usage_us: u64,
    /// Its share in user mode.
    pub user_us: u64,
    /// Its share in the kernel.
    pub system_us: u64,
    /// Periods in which the group was scheduled.
    pub nr_periods: u64,
    /// Periods in which its own cap throttled it.
    pub nr_throttled: u64,
    /// Time spent throttled, in microseconds.
    pub throttled_us: u64,
}

/// `a - b`, or zero where that is negative.
pub open spec fn less(a: u64, b: u64) -> u64 {
    if a >= b {
        (a - b) as u64
    } else {
        0
    }
}

proof fn lemma_cores_used(used: nat, wall: Double, n: nat, d: nat)
    requires
        used <= u64::MAX,
        about::within(wall, n, d, 6),
        0 < n <= u64::MAX,
        0 < d <= u64::MAX,
    ensures
        !wall.le(Double::zero(false)),
        about::is_about(
            double::of(used).over(wall.times(double::of(1_000_000))),
            used * d,
            (n * 1_000_000) as nat,
        ),
{
    about::lemma_something(wall, n, d, 6);
    about::a_count(1_000_000);
    about::a_count(used);
    assert(0 < n * 1_000_000 <= u64::MAX * 1_000_000);
    about::counts_are_moderate((n * 1_000_000) as nat, d);
    assert(d * 1 == d && 1 * (n * 1_000_000) == n * 1_000_000);
    about::a_product_is_about(wall, n, d, 6, double::of(1_000_000), 1_000_000, 1, 1);
    if used > 0 {
        assert(0 < used * d <= u64::MAX * u64::MAX) by (nonlinear_arith)
            requires
                0 < used <= u64::MAX,
                0 < d <= u64::MAX,
        ;
        about::counts_are_moderate(used * d, (n * 1_000_000) as nat);
    }
    let us = wall.times(double::of(1_000_000));
    about::a_quotient_is_about(double::of(used), used, 1, 1, us, (n * 1_000_000) as nat, d, 10);
    about::lemma_weaken(double::of(used).over(us), used * d, (n * 1_000_000) as nat, 15, 32);
}

impl CpuStat {
    /// Mean cores occupied between two readings that were taken `wall_s` seconds
    /// apart, comparable to the container's cap. Zero where no time passed: an
    /// interval of no length is no evidence of a busy server.
    pub fn cores_between(before: CpuStat, after: CpuStat, wall_s: Double) -> (r: Double)
        ensures
            r == if wall_s.le(Double::zero(false)) {
                Double::zero(false)
            } else {
                double::of(less(after.usage_us, before.usage_us) as nat).over(
                    wall_s.times(double::of(1_000_000)),
                )
            },
            forall|n: nat, d: nat| #[trigger]
                about::within(wall_s, n, d, 6) && 0 < n <= u64::MAX && 0 < d <= u64::MAX
                    && before.usage_us <= after.usage_us ==> about::is_about(
                    r,
                    ((after.usage_us - before.usage_us) * d) as nat,
                    (n * 1_000_000) as nat,
                ),
    {
        proof {
            assert forall|n: nat, d: nat| #[trigger]
                about::within(wall_s, n, d, 6) && 0 < n <= u64::MAX && 0 < d <= u64::MAX
                    && before.usage_us <= after.usage_us implies about::is_about(
                if wall_s.le(Double::zero(false)) {
                    Double::zero(false)
                } else {
                    double::of(less(after.usage_us, before.usage_us) as nat).over(
                        wall_s.times(double::of(1_000_000)),
                    )
                },
                ((after.usage_us - before.usage_us) * d) as nat,
                (n * 1_000_000) as nat,
            ) by {
                lemma_cores_used((after.usage_us - before.usage_us) as nat, wall_s, n, d);
            }
        }
        if wall_s.at_most(Double::nothing()) {
            return Double::nothing();
        }
        let used: u64 = after.usage_us.saturating_sub(before.usage_us);
        Double::of(used as u128).divide(wall_s.multiply(Double::of(1_000_000)))
    }

    /// The difference of two readings, field by field.
    pub fn since(self, before: CpuStat) -> (r: CpuStat)
        ensures
            r == (CpuStat {
                usage_us: less(self.usage_us, before.usage_us),
                user_us: less(self.user_us, before.user_us),
                system_us: less(self.system_us, before.system_us),
                nr_periods: less(self.nr_periods, before.nr_periods),
                nr_throttled: less(self.nr_throttled, before.nr_throttled),
                throttled_us: less(self.throttled_us, before.throttled_us),
            }),
    {
        CpuStat {
            usage_us: self.usage_us.saturating_sub(before.usage_us),
            user_us: self.user_us.saturating_sub(before.user_us),
            system_us: self.system_us.saturating_sub(before.system_us),
            nr_periods: self.nr_periods.saturating_sub(before.nr_periods),
            nr_throttled: self.nr_throttled.saturating_sub(before.nr_throttled),
            throttled_us: self.throttled_us.saturating_sub(before.throttled_us),
        }
    }
}

/// The number after `key` on the first of `lines` that begins with it and holds
/// one.
pub open spec fn stat_field(lines: Seq<Seq<char>>, key: Seq<char>) -> Option<nat>
    decreases lines.len(),
{
    if lines.len() == 0 {
        None
    } else {
        let here = match text::strip_prefix(lines[0], key) {
            Some(rest) => text::parse_u64(text::trim(rest)),
            None => None,
        };
        match here {
            Some(n) => Some(n),
            None => stat_field(lines.skip(1), key),
        }
    }
}

/// A field that is absent where there is nothing to report.
pub open spec fn quiet_field(lines: Seq<Seq<char>>, key: Seq<char>) -> u64 {
    match stat_field(lines, key) {
        Some(n) => n as u64,
        None => 0,
    }
}

/// The counters that `raw` states. Without the usage there is no reading; any
/// other key may be absent, as a kernel with no throttling to report omits it.
pub open spec fn cpu_stat(raw: Seq<char>) -> Option<CpuStat> {
    let ls = text::lines(raw);
    match stat_field(ls, "usage_usec "@) {
        None => None,
        Some(n) => Some(
            CpuStat {
                usage_us: n as u64,
                user_us: quiet_field(ls, "user_usec "@),
                system_us: quiet_field(ls, "system_usec "@),
                nr_periods: quiet_field(ls, "nr_periods "@),
                nr_throttled: quiet_field(ls, "nr_throttled "@),
                throttled_us: quiet_field(ls, "throttled_usec "@),
            },
        ),
    }
}

fn find_field(ls: &Vec<&[char]>, key: &str) -> (r: Option<u64>)
    ensures
        match r {
            Some(n) => stat_field(text::views(ls@), key@) == Some(n as nat),
            None => stat_field(text::views(ls@), key@) is None,
        },
{
    let ghost all = text::views(ls@);
    let mut i: usize = 0;
    assert(all.skip(0) =~= all);
    while i < ls.len()
        invariant
            i <= ls.len(),
            all == text::views(ls@),
            stat_field(all, key@) == stat_field(all.skip(i as int), key@),
        decreases ls.len() - i,
    {
        assert(all.skip(i as int).skip(1) =~= all.skip(i + 1));
        assert(all.skip(i as int)[0] == ls@[i as int]@);
        if let Some(rest) = text::without_prefix(ls[i], key) {
            if let Some(n) = text::to_u64(text::trimmed(rest)) {
                return Some(n);
            }
        }
        i = i + 1;
    }
    None
}

fn find_quiet(ls: &Vec<&[char]>, key: &str) -> (n: u64)
    ensures
        n == quiet_field(text::views(ls@), key@),
{
    match find_field(ls, key) {
        Some(n) => n,
        None => 0,
    }
}

/// Parses the counters of a control group.
pub fn parse_cpu_stat(raw: &str) -> (r: Option<CpuStat>)
    ensures
        r == cpu_stat(raw@),
{
    let v = text::chars_of(raw);
    let ls = text::split_lines(v.as_slice());
    match find_field(&ls, "usage_usec ") {
        None => None,
        Some(usage_us) => Some(
            CpuStat {
                usage_us,
                user_us: find_quiet(&ls, "user_usec "),
                system_us: find_quiet(&ls, "system_usec "),
                nr_periods: find_quiet(&ls, "nr_periods "),
                nr_throttled: find_quiet(&ls, "nr_throttled "),
                throttled_us: find_quiet(&ls, "throttled_usec "),
            },
        ),
    }
}

/// A container's counters, given what reading them printed. Counters that could
/// not be read are absent: they are evidence about a measurement, not the
/// measurement.
pub fn cgroup_cpu(read: &Result<String, String>) -> (r: Option<CpuStat>)
    ensures
        r == match *read {
            Ok(s) => cpu_stat(s@),
            Err(_) => None,
        },
{
    match read {
        Ok(s) => parse_cpu_stat(s.as_str()),
        Err(_) => None,
    }
}

/// Cores from a control group's `cpu.max`: its quota over its period. None for a
/// container without a cap, which can satisfy no declared one.
pub open spec fn cpu_max(s: Seq<char>) -> Option<Double> {
    let w = text::words(s);
    if w.len() < 2 || w[0] == "max"@ {
        None
    } else {
        match (double::parse(w[0]), double::parse(w[1])) {
            (Some(q), Some(p)) => Some(q.over(p)),
            _ => None,
        }
    }
}

/// Cores from a control group's `cpu.max`.
pub fn cpu_max_cores(s: &str) -> (r: Option<Double>)
    ensures
        r == cpu_max(s@),
{
    let v = text::chars_of(s);
    let w = text::split_words(v.as_slice());
    assert(text::views(w@).len() == w@.len());
    if w.len() < 2 {
        return None;
    }
    assert(text::views(w@)[0] == w@[0]@);
    assert(text::views(w@)[1] == w@[1]@);
    if text::spells(w[0], "max") {
        return None;
    }
    match (double::read(w[0]), double::read(w[1])) {
        (Some(q), Some(p)) => Some(q.divide(p)),
        _ => None,
    }
}

/// Whether two numbers of cores are within a hundredth of each other.
pub open spec fn near(applied: Double, declared: Double) -> bool {
    applied.less_by(declared).unsigned().lt(double::quotient(1, 100))
}

/// Whether two numbers of cores are within a hundredth of each other.
pub fn is_near(applied: Double, declared: Double) -> (r: bool)
    ensures
        r == near(applied, declared),
{
    applied.take(declared).abs().below(Double::quotient(1, 100))
}

/// Whether an applied cap is the declared one: processors within a hundredth of
/// a core, memory to the byte.
pub open spec fn cap_holds(what: Seq<char>, declared: Seq<char>, applied: Seq<char>) -> bool {
    if what == "cpus"@ {
        match (cpu_max(applied), double::parse(declared)) {
            (Some(c), Some(d)) => near(c, d),
            _ => false,
        }
    } else {
        match (entrant::memory_bytes(declared), text::parse_u64(applied)) {
            (Some(d), Some(a)) => a == d,
            _ => false,
        }
    }
}

/// The refusal of a container that runs under another cap than the declared one.
pub open spec fn cap_refusal(
    container: Seq<char>,
    what: Seq<char>,
    declared: Seq<char>,
    applied: Seq<char>,
) -> Seq<char> {
    "REFUSED: "@ + container + " declares "@ + what + "="@ + declared + " but is running under "@
        + what + "="@ + applied
        + ". The envelope in the environment profile is what every published number is described by, so a container running under a different one cannot produce a publishable result. Recreate the infrastructure (drop --reuse-infra) or correct the profile."@
}

/// Fails the run when the applied cap is not the declared one.
pub fn assert_cap(container: &str, what: &str, declared: &str, applied: &str) -> (r: Result<
    (),
    String,
>)
    ensures
        match r {
            Ok(_) => cap_holds(what@, declared@, applied@),
            Err(e) => !cap_holds(what@, declared@, applied@) && e@ == cap_refusal(
                container@,
                what@,
                declared@,
                applied@,
            ),
        },
{
    let ok: bool = if text::same(what, "cpus") {
        let v = text::chars_of(declared);
        match (cpu_max_cores(applied), double::read(v.as_slice())) {
            (Some(c), Some(d)) => is_near(c, d),
            _ => false,
        }
    } else {
        let v = text::chars_of(applied);
        match (entrant::parse_memory(declared), text::to_u64(v.as_slice())) {
            (Some(d), Some(a)) => a == d,
            _ => false,
        }
    };
    if ok {
        return Ok(());
    }
    let mut m = "REFUSED: ".to_owned();
    m.append(container);
    m.append(" declares ");
    m.append(what);
    m.append("=");
    m.append(declared);
    m.append(" but is running under ");
    m.append(what);
    m.append("=");
    m.append(applied);
    m.append(
        ". The envelope in the environment profile is what every published number is described by, so a container running under a different one cannot produce a publishable result. Recreate the infrastructure (drop --reuse-infra) or correct the profile.",
    );
    Err(m)
}

/// The image that a container runs, by its content id; empty where inspecting it
/// failed.
pub open spec fn image_id(inspected: Result<String, String>) -> Seq<char> {
    match inspected {
        Ok(s) => s@,
        Err(_) => Seq::empty(),
    }
}

/// The image that a container runs. A tag can be pushed again; an id cannot.
pub fn image_digest(inspected: &Result<String, String>) -> (s: String)
    ensures
        s@ == image_id(*inspected),
{
    match inspected {
        Ok(s) => s.as_str().to_owned(),
        Err(_) => String::new(),
    }
}

/// The last word of the first line that has one.
pub open spec fn first_last_word(lines: Seq<Seq<char>>) -> Option<Seq<char>>
    decreases lines.len(),
{
    if lines.len() == 0 {
        None
    } else if text::words(lines[0]).len() > 0 {
        Some(text::words(lines[0]).last())
    } else {
        first_last_word(lines.skip(1))
    }
}

/// The broker's version, from what it printed.
pub open spec fn broker_version_of(printed: Result<String, String>) -> Seq<char> {
    match printed {
        Ok(s) => match first_last_word(text::lines(s@)) {
            Some(w) => w,
            None => text::trim(s@),
        },
        Err(_) => "unknown"@,
    }
}

/// The broker's version, from what it printed.
pub fn broker_version(printed: &Result<String, String>) -> (r: String)
    ensures
        r@ == broker_version_of(*printed),
{
    match printed {
        Err(_) => "unknown".to_owned(),
        Ok(s) => {
            let v = text::chars_of(s.as_str());
            let ls = text::split_lines(v.as_slice());
            let ghost all = text::views(ls@);
            let mut i: usize = 0;
            assert(all.skip(0) =~= all);
            while i < ls.len()
                invariant
                    i <= ls.len(),
                    all == text::views(ls@),
                    all == text::lines(s@),
                    *printed == Ok::<String, String>(*s),
                    first_last_word(all) == first_last_word(all.skip(i as int)),
                decreases ls.len() - i,
            {
                assert(all.skip(i as int).skip(1) =~= all.skip(i + 1));
                assert(all.skip(i as int)[0] == ls@[i as int]@);
                let w = text::split_words(ls[i]);
                assert(text::views(w@).len() == w@.len());
                if w.len() > 0 {
                    assert(text::views(w@).last() == w@.last()@);
                    return text::string_of(w[w.len() - 1]);
                }
                i = i + 1;
            }
            trimmed_text(s.as_str())
        },
    }
}

/// ClickHouse's version, from what it answered.
pub open spec fn clickhouse_version_of(answer: Result<String, String>) -> Seq<char> {
    match answer {
        Ok(s) => text::trim(s@),
        Err(_) => "unknown"@,
    }
}

/// ClickHouse's version, from what it answered.
pub fn clickhouse_version(answer: &Result<String, String>) -> (r: String)
    ensures
        r@ == clickhouse_version_of(*answer),
{
    match answer {
        Ok(s) => trimmed_text(s.as_str()),
        Err(_) => "unknown".to_owned(),
    }
}

// ---------------------------------------------------------------------------
// Bringing up
// ---------------------------------------------------------------------------

/// Which containers a bring-up reuses. Each is decided by itself: a container
/// that is recreated under new caps must not take its neighbour's data with it.
#[derive(Clone, Copy, Debug, PartialEq, Eq, Structural)]
pub struct Reuse {
    /// Whether the broker is reused.
    pub broker: bool,
    /// Whether ClickHouse is reused.
    pub clickhouse: bool,
}

impl Reuse {
    /// What is reused of what is running.
    pub fn plan(reuse: bool, broker_running: bool, clickhouse_running: bool) -> (r: Reuse)
        ensures
            r.broker == (reuse && broker_running),
            r.clickhouse == (reuse && clickhouse_running),
    {
        Reuse { broker: reuse && broker_running, clickhouse: reuse && clickhouse_running }
    }
}

/// What was read back from the running infrastructure.
#[derive(Debug)]
pub struct Observed {
    /// The broker's `cpu.max`.
    pub broker_cpu_max: Result<String, String>,
    /// The broker's `memory.max`.
    pub broker_memory_max: Result<String, String>,
    /// ClickHouse's `cpu.max`.
    pub ch_cpu_max: Result<String, String>,
    /// ClickHouse's `memory.max`.
    pub ch_memory_max: Result<String, String>,
    /// What the broker printed of its version.
    pub broker_version: Result<String, String>,
    /// The broker's image.
    pub broker_image: Result<String, String>,
    /// What ClickHouse answered of its version.
    pub ch_version: Result<String, String>,
    /// ClickHouse's image.
    pub ch_image: Result<String, String>,
    /// The consume ceilings in messages and in bytes per second, or why the
    /// ceilings could not be read.
    pub ceiling: Result<(u64, u64), String>,
}

/// Why the caps of one container are not the declared ones.
pub open spec fn container_refusal(
    container: Seq<char>,
    cpus: Seq<char>,
    memory: Seq<char>,
    cpu_max: Result<String, String>,
    memory_max: Result<String, String>,
) -> Option<Seq<char>> {
    match caps_read(container, cpu_max, memory_max) {
        Err(e) => Some(e),
        Ok((c, m)) => if !cap_holds("cpus"@, cpus, c) {
            Some(cap_refusal(container, "cpus"@, cpus, c))
        } else if !cap_holds("memory"@, memory, m) {
            Some(cap_refusal(container, "memory"@, memory, m))
        } else {
            None
        },
    }
}

/// The caps of one container, once they are known to be the declared ones.
pub fn checked_caps(
    container: &str,
    cpus: &str,
    memory: &str,
    cpu_max: &Result<String, String>,
    memory_max: &Result<String, String>,
) -> (r: Result<(String, String), String>)
    ensures
        match r {
            Ok(p) => {
                &&& container_refusal(container@, cpus@, memory@, *cpu_max, *memory_max) is None
                &&& caps_read(container@, *cpu_max, *memory_max) == Ok::<
                    (Seq<char>, Seq<char>),
                    Seq<char>,
                >((p.0@, p.1@))
            },
            Err(e) => container_refusal(container@, cpus@, memory@, *cpu_max, *memory_max) == Some(
                e@,
            ),
        },
{
    let (c, m) = match cgroup_caps(container, cpu_max, memory_max) {
        Ok(p) => p,
        Err(e) => {
            return Err(e);
        },
    };
    if let Err(e) = assert_cap(container, "cpus", cpus, c.as_str()) {
        return Err(e);
    }
    if let Err(e) = assert_cap(container, "memory", memory, m.as_str()) {
        return Err(e);
    }
    Ok((c, m))
}

/// Why what was brought up is not what the profile declares.
pub open spec fn bring_up_refusal(env: Environment, seen: Observed) -> Option<Seq<char>> {
    let b = env.spec.infra.broker;
    let c = env.spec.infra.clickhouse;
    match container_refusal(
        BROKER@,
        b.cpus@,
        b.memory@,
        seen.broker_cpu_max,
        seen.broker_memory_max,
    ) {
        Some(e) => Some(e),
        None => container_refusal(
            CLICKHOUSE@,
            c.cpus@,
            c.memory@,
            seen.ch_cpu_max,
            seen.ch_memory_max,
        ),
    }
}

/// The consume ceilings that the run is gated against. Zero where none could be
/// read.
pub open spec fn consume_ceilings(seen: Observed) -> (u64, u64) {
    match seen.ceiling {
        Ok(p) => p,
        Err(_) => (0, 0),
    }
}

/// The flags that bringing up raises.
pub open spec fn bring_up_flags(reuse: Reuse, seen: Observed) -> Seq<Flag> {
    (if reuse.broker || reuse.clickhouse {
        seq![Flag::ReusedInfra]
    } else {
        Seq::empty()
    }) + (if consume_ceilings(seen).0 == 0 {
        seq![Flag::HeadroomUnproven]
    } else {
        Seq::empty()
    })
}

/// Whether `i` is the infrastructure that was read back, as the profile names
/// it. The arm's own ceiling is zero here: no arm was chosen yet.
pub open spec fn is_observed(i: Infra, env: Environment, seen: Observed) -> bool {
    let caps_b = caps_read(BROKER@, seen.broker_cpu_max, seen.broker_memory_max)->Ok_0;
    let caps_c = caps_read(CLICKHOUSE@, seen.ch_cpu_max, seen.ch_memory_max)->Ok_0;
    &&& i.digest@ == environment::shortened(
        environment::sha256(vstd::utf8::encode_utf8(env.spec.infra.envelope())),
    )
    &&& i.broker@ == env.spec.infra.broker.kind@
    &&& i.broker_version@ == broker_version_of(seen.broker_version)
    &&& i.broker_image_digest@ == image_id(seen.broker_image)
    &&& i.broker_cpus@ == caps_b.0
    &&& i.broker_memory@ == caps_b.1
    &&& i.clickhouse_version@ == clickhouse_version_of(seen.ch_version)
    &&& i.clickhouse_image_digest@ == image_id(seen.ch_image)
    &&& i.clickhouse_cpus@ == caps_c.0
    &&& i.clickhouse_memory@ == caps_c.1
    &&& i.partitions == env.spec.infra.partitions
    &&& i.storage@ == env.spec.infra.storage.kind.word()
    &&& i.registry@ == env.spec.infra.broker.registry@
    &&& i.ceiling_msgs_per_s == consume_ceilings(seen).0
    &&& i.ceiling_bytes_per_s == consume_ceilings(seen).1
    &&& i.ceiling_rows_per_s == 0
}

/// Decides whether what was brought up is what the profile declares, and
/// describes it. The caps of both containers are asserted whether they were
/// reused or not.
pub fn bring_up(env: &Environment, reuse: Reuse, seen: &Observed) -> (r: Result<
    (Endpoints, Infra, Vec<Flag>),
    String,
>)
    ensures
        match r {
            Ok((e, i, f)) => {
                &&& bring_up_refusal(*env, *seen) is None
                &&& e.are_ours()
                &&& is_observed(i, *env, *seen)
                &&& f@ == bring_up_flags(reuse, *seen)
            },
            Err(e) => bring_up_refusal(*env, *seen) == Some(e@),
        },
{
    let b = &env.spec.infra.broker;
    let c = &env.spec.infra.clickhouse;
    let mut flags: Vec<Flag> = Vec::new();
    if reuse.broker || reuse.clickhouse {
        flags.push(Flag::ReusedInfra);
    }
    let (broker_cpus, broker_memory) = match checked_caps(
        BROKER,
        b.cpus.as_str(),
        b.memory.as_str(),
        &seen.broker_cpu_max,
        &seen.broker_memory_max,
    ) {
        Ok(p) => p,
        Err(e) => {
            return Err(e);
        },
    };
    let (clickhouse_cpus, clickhouse_memory) = match checked_caps(
        CLICKHOUSE,
        c.cpus.as_str(),
        c.memory.as_str(),
        &seen.ch_cpu_max,
        &seen.ch_memory_max,
    ) {
        Ok(p) => p,
        Err(e) => {
            return Err(e);
        },
    };
    let (ceiling_msgs_per_s, ceiling_bytes_per_s): (u64, u64) = match &seen.ceiling {
        Ok(p) => (p.0, p.1),
        Err(_) => (0, 0),
    };
    if ceiling_msgs_per_s == 0 {
        flags.push(Flag::HeadroomUnproven);
    }
    let infra = Infra {
        digest: env.infra_digest(),
        broker: b.kind.as_str().to_owned(),
        broker_version: broker_version(&seen.broker_version),
        broker_image_digest: image_digest(&seen.broker_image),
        broker_cpus,
        broker_memory,
        clickhouse_version: clickhouse_version(&seen.ch_version),
        clickhouse_image_digest: image_digest(&seen.ch_image),
        clickhouse_cpus,
        clickhouse_memory,
        partitions: env.spec.infra.partitions,
        storage: env.spec.infra.storage.kind.as_str().to_owned(),
        registry: b.registry.as_str().to_owned(),
        ceiling_msgs_per_s,
        ceiling_bytes_per_s,
        ceiling_rows_per_s: 0,
    };
    assert(flags@ =~= bring_up_flags(reuse, *seen));
    Ok((Endpoints::ours(), infra, flags))
}

// ---------------------------------------------------------------------------
// Laws
// ---------------------------------------------------------------------------

/// A reading less itself is nothing, and a reading less nothing is itself.
pub proof fn a_delta_begins_at_its_reading(n: u64)
    ensures
        less(n, n) == 0,
        less(n, 0) == n,
{
}

/// A container without a cap, or with a cap that is no number, satisfies no
/// declared one, in processors or in memory.
pub proof fn an_uncapped_container_is_refused(declared: Seq<char>, period: Seq<char>)
    ensures
        cpu_max("max "@ + period) is None,
        !cap_holds("cpus"@, declared, "max "@ + period),
        !cap_holds("memory"@, declared, "max"@),
{
    reveal_strlit("max ");
    reveal_strlit("max");
    reveal_strlit("cpus");
    reveal_strlit("memory");
    let s = "max "@ + period;
    assert("cpus"@.len() != "memory"@.len());
    assert(!text::all_digits("max"@, 10)) by {
        assert(text::digit("max"@[0]) == Some(22nat));
    }
    assert(text::trim_start(s) == s);
    reveal_with_fuel(text::word_len, 5);
    assert(s.skip(1).skip(1) =~= s.skip(2));
    assert(s.skip(2).skip(1) =~= s.skip(3));
    assert(text::word_len(s) == 3);
    assert(s.take(3) =~= "max"@);
    assert(text::words(s)[0] == "max"@);
}

/// How far apart two numbers of cores are, when one is a quota over its period and
/// the other a whole number: nine thousandths of a core apart they count as the
/// same, and eleven thousandths apart they do not.
pub proof fn cores_are_the_same_to_a_hundredth(x: Double, quota: nat, period: nat, cores: nat)
    requires
        about::within(x, quota, period, 6),
        period > 0,
        quota <= 0x4000_0000 * period,
        cores <= 0x4000_0000,
    ensures
        1000 * quota <= 1000 * (cores * period) + 9 * period && 1000 * (cores * period) <= 1000
            * quota + 9 * period ==> near(x, double::of(cores)),
        1000 * quota >= 1000 * (cores * period) + 11 * period || 1000 * (cores * period) >= 1000
            * quota + 11 * period ==> !near(x, double::of(cores)),
{
    about::lemma_ranges();
    let u = double::one_in_units() as int;
    let (v, c) = (big::two(200), big::two(256));
    assert(u >= 0x1000_0000_0000_0000_0000 && c >= 0x100_0000_0000_0000) by (nonlinear_arith)
        requires
            u >= v * v * 0x1000_0000_0000_0000_0000,
            c == v * 0x100_0000_0000_0000,
            v >= 1,
    {
        assert(v * v >= 1);
    }
    double::a_small_integer_is_a_double(cores);
    let y = double::of(cores);
    let (a, b) = (x.magnitude() as int, y.magnitude() as int);
    let (q, p, k) = (quota as int, period as int, cores as int);
    let e: int = 0x20_0000_0000_0000;
    // The difference, in units.
    let d = if a >= b {
        a - b
    } else {
        b - a
    };
    assert(a * p <= q * u + p * u && q * u <= a * p + p * u && a <= 0x8000_0000 * u)
        by (nonlinear_arith)
        requires
            (e - 6) * (q * u) <= e * (a * p) <= (e + 6) * (q * u),
            q <= 0x4000_0000 * p,
            p > 0,
            u > 0,
            e == 0x20_0000_0000_0000,
    {
        assert(q * u <= 0x4000_0000 * (p * u));
        assert(6 * (q * u) <= e * (p * u));
        assert(e * (a * p) <= e * (0x8000_0000 * (p * u)));
        assert(a * p <= (0x8000_0000 * u) * p);
    }
    assert(1_000_000_000 * (a * p) <= 1_000_000_000 * (q * u) + 1000 * (p * u) && 1_000_000_000 * (q
        * u) <= 1_000_000_000 * (a * p) + 1000 * (p * u)) by (nonlinear_arith)
        requires
            (e - 6) * (q * u) <= e * (a * p) <= (e + 6) * (q * u),
            q <= 0x4000_0000 * p,
            p > 0,
            u > 0,
            e == 0x20_0000_0000_0000,
    {
        assert(q * u <= 0x4000_0000 * (p * u));
        assert(1_000_000_000 * (6 * (q * u)) <= e * (1000 * (p * u)));
    }
    let far = double::nearest(false, d as nat, 1);
    let t = double::quotient(1, 100);
    assert(b == k * u);
    assert(d <= u * c) by (nonlinear_arith)
        requires
            0 <= a <= 0x8000_0000 * u,
            b == k * u,
            0 <= k <= 0x4000_0000,
            d <= a + b,
            c >= 0x100_0000_0000_0000,
            u > 0,
    ;
    // What the difference is rounded to.
    if d < 0x20_0000_0000_0000 {
        assert(big::two(0) == 1);
        assert(d == 1 * (d * 1)) by (nonlinear_arith);
        double::an_exact_result_is_kept(false, d as nat, 1, d as nat, 0);
    } else {
        assert(d <= 1 * (u * c));
        double::rounding_is_close(false, d as nat, 1);
    }
    let f = far.magnitude() as int;
    assert((e - 1) * d <= e * f && e * f <= (e + 1) * d && far is Finite && !far.is_negative());
    assert(0x20_0000_0000_0000 * 100 <= 1 * u && 1 * u <= 100 * (u * c)) by (nonlinear_arith)
        requires
            u >= 0x1000_0000_0000_0000_0000,
            c >= 1,
    ;
    double::rounding_is_close(false, (1 * u) as nat, 100);
    let g = t.magnitude() as int;
    assert((e - 1) * u <= e * (g * 100) && e * (g * 100) <= (e + 1) * u);
    let gap = x.less_by(y);
    if d == 0 {
        assert(gap.unsigned() == Double::zero(false)) by {
            assert(x.units() + y.negated().units() == 0);
        }
        assert(Double::zero(false).magnitude() == 0) by {
            assert(0 * big::two(0) == 0) by (nonlinear_arith);
        }
        assert(far.magnitude() == 0);
        assert(gap.unsigned().units() == far.units());
    } else {
        assert(gap.unsigned() == far) by {
            assert(y.negated().magnitude() == b);
            assert(x.units() + y.negated().units() == a - b);
            assert(double::nearest(true, d as nat, 1).unsigned() == double::nearest(
                false,
                d as nat,
                1,
            ));
        }
    }
    assert(near(x, y) == (f < g));
    if 1000 * quota <= 1000 * (cores * period) + 9 * period && 1000 * (cores * period) <= 1000
        * quota + 9 * period {
        assert(1_000_000 * d <= 9_001 * u) by (nonlinear_arith)
            requires
                1_000_000_000 * (a * p) <= 1_000_000_000 * (q * u) + 1000 * (p * u),
                1_000_000_000 * (q * u) <= 1_000_000_000 * (a * p) + 1000 * (p * u),
                1000 * q <= 1000 * (k * p) + 9 * p,
                1000 * (k * p) <= 1000 * q + 9 * p,
                b == k * u,
                d == if a >= b {
                    a - b
                } else {
                    b - a
                },
                p > 0,
                u > 0,
        {
            assert(1000 * (q * u) <= 1000 * ((k * p) * u) + 9 * (p * u));
            assert(1000 * ((k * p) * u) <= 1000 * (q * u) + 9 * (p * u));
            assert((k * p) * u == b * p);
            assert(1_000_000_000 * (d * p) <= 9_001_000 * (p * u));
            assert((1_000_000 * d) * p <= (9_001 * u) * p);
        }
        assert(f < g) by (nonlinear_arith)
            requires
                e * f <= (e + 1) * d,
                (e - 1) * u <= e * (g * 100),
                1_000_000 * d <= 9_001 * u,
                u > 0,
                e == 0x20_0000_0000_0000,
        {
            assert(1_000_000 * (e * f) <= (e + 1) * (9_001 * u));
            assert(10_000 * ((e - 1) * u) <= 1_000_000 * (e * g));
        }
    }
    if 1000 * quota >= 1000 * (cores * period) + 11 * period || 1000 * (cores * period) >= 1000
        * quota + 11 * period {
        assert(1_000_000 * d >= 10_999 * u) by (nonlinear_arith)
            requires
                1_000_000_000 * (a * p) <= 1_000_000_000 * (q * u) + 1000 * (p * u),
                1_000_000_000 * (q * u) <= 1_000_000_000 * (a * p) + 1000 * (p * u),
                1000 * q >= 1000 * (k * p) + 11 * p || 1000 * (k * p) >= 1000 * q + 11 * p,
                b == k * u,
                d == if a >= b {
                    a - b
                } else {
                    b - a
                },
                p > 0,
                u > 0,
        {
            assert((k * p) * u == b * p);
            if 1000 * q >= 1000 * (k * p) + 11 * p {
                assert(1000 * (q * u) >= 1000 * ((k * p) * u) + 11 * (p * u));
                assert(1_000_000_000 * (a * p) >= 1_000_000_000 * (b * p) + 10_999_000 * (p * u));
                assert((1_000_000 * (a - b)) * p >= (10_999 * u) * p);
            } else {
                assert(1000 * ((k * p) * u) >= 1000 * (q * u) + 11 * (p * u));
                assert(1_000_000_000 * (b * p) >= 1_000_000_000 * (a * p) + 10_999_000 * (p * u));
                assert((1_000_000 * (b - a)) * p >= (10_999 * u) * p);
            }
        }
        assert(f >= g) by (nonlinear_arith)
            requires
                (e - 1) * d <= e * f,
                e * (g * 100) <= (e + 1) * u,
                1_000_000 * d >= 10_999 * u,
                u > 0,
                e == 0x20_0000_0000_0000,
        {
            assert((e - 1) * (10_999 * u) <= 1_000_000 * (e * f));
            assert(1_000_000 * (e * g) <= 10_000 * ((e + 1) * u));
        }
    }
}

/// What a declared memory limit stands for, in bytes.
pub open spec fn is_limit(s: Seq<char>, bytes: nat) -> bool {
    exists|n: nat| #![trigger text::decimal(n)]
        (s == text::decimal(n) && bytes == n) || (s == text::decimal(n).push('k') && bytes == n
            * 1024) || (s == text::decimal(n).push('m') && bytes == n * 1_048_576) || (s
            == text::decimal(n).push('g') && bytes == n * 1_073_741_824)
}

/// A limit is read as the bytes that it stands for.
pub proof fn a_limit_is_its_bytes(s: Seq<char>, bytes: nat)
    requires
        is_limit(s, bytes),
        bytes <= u64::MAX,
    ensures
        entrant::memory_bytes(s) == Some(bytes),
{
    let n = choose|n: nat| #![trigger text::decimal(n)]
        (s == text::decimal(n) && bytes == n) || (s == text::decimal(n).push('k') && bytes == n
            * 1024) || (s == text::decimal(n).push('m') && bytes == n * 1_048_576) || (s
            == text::decimal(n).push('g') && bytes == n * 1_073_741_824);
    entrant::a_suffix_scales_the_number(n, 'k');
    entrant::a_suffix_scales_the_number(n, 'm');
    entrant::a_suffix_scales_the_number(n, 'g');
    text::a_decimal_is_a_word(n);
}

/// The caps of the infrastructure are held to what was declared: a quota over a
/// period in `cpu.max` is the declared cores to a hundredth, and the bytes of
/// `memory.max` are the declared bytes, neither more nor fewer.
pub proof fn only_the_declared_caps_hold(
    quota: nat,
    period: nat,
    cores: nat,
    memory: Seq<char>,
    declared: nat,
    applied: nat,
)
    requires
        0 < period <= u64::MAX,
        quota <= u64::MAX,
        quota <= 0x4000_0000 * period,
        cores <= 0x4000_0000,
        is_limit(memory, declared),
        declared <= u64::MAX,
        applied <= u64::MAX,
    ensures
        ({
            let cpu = text::decimal(quota) + seq![' '] + text::decimal(period);
            &&& 1000 * quota <= 1000 * (cores * period) + 9 * period && 1000 * (cores * period)
                <= 1000 * quota + 9 * period ==> cap_holds("cpus"@, text::decimal(cores), cpu)
            &&& 1000 * quota >= 1000 * (cores * period) + 11 * period || 1000 * (cores * period)
                >= 1000 * quota + 11 * period ==> !cap_holds("cpus"@, text::decimal(cores), cpu)
        }),
        cap_holds("memory"@, memory, text::decimal(applied)) == (applied == declared),
        !cap_holds("memory"@, memory, "max"@),
        !cap_holds("cpus"@, text::decimal(cores), "max"@ + seq![' '] + text::decimal(period)),
{
    reveal_strlit("cpus");
    reveal_strlit("memory");
    reveal_strlit("max");
    assert("cpus"@[0] != "memory"@[0]);
    let (a, b) = (text::decimal(quota), text::decimal(period));
    let cpu = a + seq![' '] + b;
    text::a_decimal_is_a_word(quota);
    text::a_decimal_is_a_word(period);
    text::a_decimal_is_a_word(cores);
    let two = seq![a, b];
    assert(two.drop_last() =~= seq![a]);
    reveal_with_fuel(text::join, 2);
    assert(text::join(two, seq![' ']) =~= cpu);
    text::words_read_back(two);
    double::a_decimal_reads_as_its_number(quota);
    double::a_decimal_reads_as_its_number(period);
    double::a_decimal_reads_as_its_number(cores);
    assert(a[0] != "max"@[0]);
    about::a_ratio_of_counts(quota, period);
    let x = double::of(quota).over(double::of(period));
    cores_are_the_same_to_a_hundredth(x, quota, period, cores);
    a_limit_is_its_bytes(memory, declared);
    text::decimal_reads_back(applied);
    assert(text::digit("max"@[0]) == Some(22nat));
    let uncapped = seq!["max"@, b];
    assert(text::is_word("max"@)) by {
        assert forall|i: int| 0 <= i < "max"@.len() implies !text::is_space(
            #[trigger] "max"@[i],
        ) by {}
    }
    assert(uncapped.drop_last() =~= seq!["max"@]);
    assert(text::join(uncapped, seq![' ']) =~= "max"@ + seq![' '] + b);
    text::words_read_back(uncapped);
}

/// The counters of a control group, as it writes them.
pub open spec fn stat_lines(c: CpuStat) -> Seq<Seq<char>> {
    seq![
        "usage_usec "@ + text::decimal(c.usage_us as nat),
        "user_usec "@ + text::decimal(c.user_us as nat),
        "system_usec "@ + text::decimal(c.system_us as nat),
        "nr_periods "@ + text::decimal(c.nr_periods as nat),
        "nr_throttled "@ + text::decimal(c.nr_throttled as nat),
        "throttled_usec "@ + text::decimal(c.throttled_us as nat),
    ]
}

proof fn lemma_stat_line(key: Seq<char>, n: u64)
    requires
        key.len() > 0,
        forall|i: int| 0 <= i < key.len() ==> #[trigger] key[i] != '\n' && key[i] != '\r',
    ensures
        ({
            let l = key + text::decimal(n as nat);
            &&& text::strip_prefix(l, key) == Some(text::decimal(n as nat))
            &&& text::parse_u64(text::trim(text::decimal(n as nat))) == Some(n as nat)
            &&& forall|i: int| 0 <= i < l.len() ==> #[trigger] l[i] != '\n' && l[i] != '\r'
            &&& l.len() > key.len() && l[0] == key[0]
            &&& forall|i: int| 0 <= i < key.len() ==> #[trigger] l[i] == key[i]
        }),
{
    let d = text::decimal(n as nat);
    let l = key + d;
    text::a_decimal_is_a_word(n as nat);
    text::decimal_reads_back(n as nat);
    text::a_word_is_kept(d);
    assert(l.take(key.len() as int) =~= key);
    assert(l.skip(key.len() as int) =~= d);
    assert forall|i: int| 0 <= i < l.len() implies #[trigger] l[i] != '\n' && l[i] != '\r' by {
        if i < key.len() {
            assert(l[i] == key[i]);
        } else {
            assert(l[i] == d[i - key.len()]);
        }
    }
}

proof fn lemma_field_here(lines: Seq<Seq<char>>, key: Seq<char>, n: u64)
    requires
        lines.len() > 0,
        text::strip_prefix(lines[0], key) == Some(text::decimal(n as nat)),
        text::parse_u64(text::trim(text::decimal(n as nat))) == Some(n as nat),
    ensures
        stat_field(lines, key) == Some(n as nat),
{
}

proof fn lemma_field_later(lines: Seq<Seq<char>>, key: Seq<char>, i: int)
    requires
        lines.len() > 0,
        0 <= i < key.len(),
        i < lines[0].len(),
        lines[0][i] != key[i],
    ensures
        stat_field(lines, key) == stat_field(lines.skip(1), key),
{
    if text::starts_with(lines[0], key) {
        assert(lines[0].take(key.len() as int)[i] == key[i]);
    }
}

/// The counters of a control group read back as what it wrote, each under its key.
pub proof fn counters_read_back(c: CpuStat)
    ensures
        cpu_stat(text::join(stat_lines(c), seq!['\n'])) == Some(c),
{
    let ls = stat_lines(c);
    reveal_strlit("usage_usec ");
    reveal_strlit("user_usec ");
    reveal_strlit("system_usec ");
    reveal_strlit("nr_periods ");
    reveal_strlit("nr_throttled ");
    reveal_strlit("throttled_usec ");
    let (k0, k1, k2, k3, k4, k5) = (
        "usage_usec "@,
        "user_usec "@,
        "system_usec "@,
        "nr_periods "@,
        "nr_throttled "@,
        "throttled_usec "@,
    );
    assert(k0[0] == 'u' && k0[2] == 'a');
    assert(k1[0] == 'u' && k1[2] == 'e');
    assert(k2[0] == 's' && k2.len() == 12);
    assert(k3[0] == 'n' && k3[3] == 'p');
    assert(k4[0] == 'n' && k4[3] == 't');
    assert(k5[0] == 't' && k5.len() == 15);
    lemma_stat_line(k0, c.usage_us);
    lemma_stat_line(k1, c.user_us);
    lemma_stat_line(k2, c.system_us);
    lemma_stat_line(k3, c.nr_periods);
    lemma_stat_line(k4, c.nr_throttled);
    lemma_stat_line(k5, c.throttled_us);
    assert forall|i: int, k: int| 0 <= i < ls.len() && 0 <= k < ls[i].len() implies #[trigger] ls[i][k]
        != '\n' by {}
    assert forall|i: int| 0 <= i < ls.len() implies (#[trigger] ls[i]).len() == 0 || ls[i].last()
        != '\r' by {}
    text::lines_read_back(ls);
    let (t1, t2, t3, t4, t5) = (ls.skip(1), ls.skip(2), ls.skip(3), ls.skip(4), ls.skip(5));
    assert(t1.skip(1) =~= t2 && t2.skip(1) =~= t3 && t3.skip(1) =~= t4 && t4.skip(1) =~= t5);
    lemma_field_here(ls, k0, c.usage_us);
    lemma_field_later(ls, k1, 2);
    lemma_field_here(t1, k1, c.user_us);
    lemma_field_later(ls, k2, 0);
    lemma_field_later(t1, k2, 0);
    lemma_field_here(t2, k2, c.system_us);
    lemma_field_later(ls, k3, 0);
    lemma_field_later(t1, k3, 0);
    lemma_field_later(t2, k3, 0);
    lemma_field_here(t3, k3, c.nr_periods);
    lemma_field_later(ls, k4, 0);
    lemma_field_later(t1, k4, 0);
    lemma_field_later(t2, k4, 0);
    lemma_field_later(t3, k4, 3);
    lemma_field_here(t4, k4, c.nr_throttled);
    lemma_field_later(ls, k5, 0);
    lemma_field_later(t1, k5, 0);
    lemma_field_later(t2, k5, 0);
    lemma_field_later(t3, k5, 0);
    lemma_field_later(t4, k5, 0);
    lemma_field_here(t5, k5, c.throttled_us);
}

/// A container of the infrastructure is accepted where its processors are held to
/// the declared processors and its memory to the declared memory, and nowhere else.
pub proof fn both_caps_are_held_to_their_own(
    container: Seq<char>,
    cpus: Seq<char>,
    memory: Seq<char>,
    cpu_max: Result<String, String>,
    memory_max: Result<String, String>,
    c: Seq<char>,
    m: Seq<char>,
)
    requires
        caps_read(container, cpu_max, memory_max) == Ok::<(Seq<char>, Seq<char>), Seq<char>>((c, m)),
    ensures
        (container_refusal(container, cpus, memory, cpu_max, memory_max) is None) == (cap_holds(
            "cpus"@,
            cpus,
            c,
        ) && cap_holds("memory"@, memory, m)),
{
}

/// Storage that is declared to be local is accepted exactly where the root and the two
/// data paths were found and lie on three different devices; of other storage nothing
/// is asked.
pub proof fn local_storage_is_three_devices(
    storage: Storage,
    root: Mount,
    clickhouse: Mount,
    broker: Mount,
)
    ensures
        storage.kind != environment::Kind::LocalNvme ==> storage_refusal(
            storage,
            root,
            clickhouse,
            broker,
        ) is None,
        storage.kind == environment::Kind::LocalNvme ==> (storage_refusal(
            storage,
            root,
            clickhouse,
            broker,
        ) is None <==> match (root, clickhouse, broker) {
            (Mount::Source(r), Mount::Source(c), Mount::Source(b)) => {
                &&& text::trim(r@) != text::trim(c@)
                &&& text::trim(r@) != text::trim(b@)
                &&& text::trim(c@) != text::trim(b@)
            },
            _ => false,
        }),
{
}

} // verus!
