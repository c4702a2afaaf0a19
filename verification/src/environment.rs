//! Environment profiles: the unit of comparability for hardware.
//!
//! A record carries the id of a profile rather than a hostname, and two profiles
//! are never drawn on one axis. The profile also owns the infrastructure
//! envelope, so that the caps of the broker and of ClickHouse have one source,
//! which is applied and then read back from the running containers.

use vstd::prelude::*;
use crate::double::Double;
use crate::text;

verus! {

/// A loaded environment profile and its content digest.
#[derive(Clone, Debug, PartialEq, Eq)]
pub struct Environment {
    /// The profile.
    pub spec: Profile,
    /// Digest of the file's bytes, recorded on every result, so that a later
    /// edit cannot describe anew a run that already happened.
    pub digest: String,
    /// Directory that the profile was loaded from.
    pub dir: String,
}

/// The profile's contents.
#[derive(Clone, Debug, PartialEq, Eq)]
pub struct Profile {
    /// Stable identifier, equal to the file stem.
    pub id: String,
    /// Whether numbers from here are authoritative.
    pub class: Class,
    /// Hardware description.
    pub host: Host,
    /// Shared infrastructure, identical for every arm.
    pub infra: Infra,
    /// Where the measured ceiling lives.
    pub ceiling: CeilingRef,
    /// What this rig does when nothing changes.
    pub noise: Noise,
}

/// The rig's own spread, measured by comparing it with itself.
#[derive(Clone, Copy, Debug, PartialEq, Eq, Structural)]
pub struct Noise {
    /// Relative difference between the two halves of such a pair, above which a
    /// sweep's verdicts on timing are not to be believed. `None` until a run has
    /// measured one here.
    pub aa_spread: Option<Double>,
}

impl Default for Noise {
    fn default() -> (n: Noise)
        ensures
            n.aa_spread is None,
    {
        Noise { aa_spread: None }
    }
}

/// How much weight a reader should give numbers from an environment.
#[derive(Clone, Copy, Debug, PartialEq, Eq, Structural)]
pub enum Class {
    /// Dedicated hardware; numbers stand on their own.
    Authoritative,
    /// A shared or virtualised host.
    Indicative,
    /// Synthetic data for development.
    Fixture,
}

impl Class {
    /// Why records of this class may not be published.
    pub open spec fn bar(self) -> Option<Seq<char>> {
        match self {
            Class::Fixture => Some(
                "fixture environment: synthetic development data, never published"@,
            ),
            _ => None,
        }
    }

    /// The marker that a record of this class must carry, if any. It says what
    /// is wrong with the number, not with the hardware. A fixture still runs:
    /// exploratory work needs a record, marked beyond doubt.
    pub fn publication_bar(self) -> (r: Option<&'static str>)
        ensures
            match r {
                Some(s) => self.bar() == Some(s@),
                None => self.bar() is None,
            },
    {
        match self {
            Class::Fixture => Some(
                "fixture environment: synthetic development data, never published",
            ),
            Class::Authoritative => None,
            Class::Indicative => None,
        }
    }
}

/// Hardware description.
#[derive(Clone, Debug, PartialEq, Eq)]
pub struct Host {
    /// What the machine is.
    pub description: String,
    /// Its processor.
    pub cpu: String,
    /// How many cores it has.
    pub cores: u32,
    /// How they are laid out.
    pub core_layout: String,
    /// Its memory.
    pub memory: String,
    /// Its operating system.
    pub os: String,
    /// Its architecture.
    pub arch: String,
    /// Processors of the virtual machine, where there is one.
    pub vm_cpus: u32,
    /// Memory of the virtual machine, where there is one.
    pub vm_memory: String,
    /// What a reader should know before believing a number from here.
    pub caveats: String,
}

/// Shared infrastructure, outside every arm's envelope.
#[derive(Clone, Debug, PartialEq, Eq)]
pub struct Infra {
    /// Partitions of the topic: they bound consume parallelism for every arm.
    pub partitions: i32,
    /// The broker.
    pub broker: Broker,
    /// The ingestion target.
    pub clickhouse: ClickHouse,
    /// What the measured data paths sit on.
    pub storage: Storage,
}

/// Which device each measured data path sits on.
#[derive(Clone, Debug, PartialEq, Eq)]
pub struct Storage {
    /// The layout.
    pub kind: Kind,
    /// Host path mounted at ClickHouse's data directory.
    pub clickhouse_data: String,
    /// Host path mounted at the broker's data directory.
    pub broker_data: String,
}

/// How the infrastructure's data paths are laid out on the host.
#[derive(Clone, Copy, Debug, PartialEq, Eq, Structural)]
pub enum Kind {
    /// Every container writes to its own layer on the root filesystem.
    SharedRoot,
    /// ClickHouse and the broker each mount a host path on a device of its own.
    LocalNvme,
}

/// The broker and its built-in registry.
#[derive(Clone, Debug, PartialEq, Eq)]
pub struct Broker {
    /// Broker family.
    pub kind: String,
    /// Image to run.
    pub image: String,
    /// Processor cap.
    pub cpus: String,
    /// Memory cap.
    pub memory: String,
    /// Schema registry implementation.
    pub registry: String,
}

/// The ingestion target.
#[derive(Clone, Debug, PartialEq, Eq)]
pub struct ClickHouse {
    /// Image to run.
    pub image: String,
    /// Processor cap.
    pub cpus: String,
    /// Memory cap.
    pub memory: String,
}

/// Where the measured ceiling of an environment lives.
#[derive(Clone, Debug, PartialEq, Eq)]
pub struct CeilingRef {
    /// Path relative to the environments directory.
    pub file: String,
}

/// The percentage of a measured ceiling above which an arm is bound by the
/// infrastructure.
pub const HEADROOM_LIMIT: u64 = 70;

impl Default for Kind {
    fn default() -> (r: Kind)
        ensures
            r == Kind::SharedRoot,
    {
        Kind::SharedRoot
    }
}

impl Default for Storage {
    fn default() -> (r: Storage)
        ensures
            r.kind == Kind::SharedRoot,
            r.clickhouse_data@ == Seq::<char>::empty(),
            r.broker_data@ == Seq::<char>::empty(),
    {
        Storage {
            kind: Kind::SharedRoot,
            clickhouse_data: String::new(),
            broker_data: String::new(),
        }
    }
}

impl Kind {
    /// The word of the layout.
    pub open spec fn word(self) -> Seq<char> {
        match self {
            Kind::SharedRoot => "shared-root"@,
            Kind::LocalNvme => "local-nvme"@,
        }
    }

    /// The word that the digest is taken over, and that an operator reads.
    pub fn as_str(self) -> (s: &'static str)
        ensures
            s@ == self.word(),
    {
        match self {
            Kind::SharedRoot => "shared-root",
            Kind::LocalNvme => "local-nvme",
        }
    }
}

/// Whether `s` holds nothing but white space.
pub open spec fn is_blank(s: Seq<char>) -> bool {
    text::trim(s).len() == 0
}

/// Whether `s` holds nothing but white space.
pub fn blank(s: &str) -> (r: bool)
    ensures
        r == is_blank(s@),
{
    let v = text::chars_of(s);
    text::trimmed(v.as_slice()).len() == 0
}

impl Storage {
    /// Whether every path that the layout needs is named.
    pub open spec fn is_whole(self) -> bool {
        self.kind == Kind::LocalNvme ==> !is_blank(self.clickhouse_data@) && !is_blank(
            self.broker_data@,
        )
    }

    /// The refusal of a layout that does not name its paths.
    pub open spec fn missing_paths() -> Seq<char> {
        "[infra.storage] kind = \"local-nvme\" must also give clickhouse_data and broker_data: without them the containers write to their own layers on the root filesystem, which is what \"shared-root\" means, while infra_digest goes on saying they did not"@
    }

    /// Refuses `local-nvme` that does not name both paths: the containers would
    /// write to the root filesystem under a digest that says otherwise.
    pub fn check(&self) -> (r: Result<(), String>)
        ensures
            match r {
                Ok(_) => self.is_whole(),
                Err(e) => !self.is_whole() && e@ == Storage::missing_paths(),
            },
    {
        if self.kind == Kind::LocalNvme && (blank(self.clickhouse_data.as_str()) || blank(
            self.broker_data.as_str(),
        )) {
            return Err(
                "[infra.storage] kind = \"local-nvme\" must also give clickhouse_data and broker_data: without them the containers write to their own layers on the root filesystem, which is what \"shared-root\" means, while infra_digest goes on saying they did not".to_owned(),
            );
        }
        Ok(())
    }
}

// ---------------------------------------------------------------------------
// Digests
// ---------------------------------------------------------------------------

/// The SHA-256 digest of `bytes`.
pub uninterp spec fn sha256(bytes: Seq<u8>) -> Seq<u8>;

/// Calls `Sha256::digest` of the crate `sha2`: the digest of `bytes` as thirty-two
/// bytes, a function of `bytes` alone, named by [`sha256`].
#[verifier::external_body]
fn sha256_of(bytes: &[u8]) -> (d: Vec<u8>)
    ensures
        d@ == sha256(bytes@),
        d@.len() == 32,
{
    <sha2::Sha256 as sha2::Digest>::digest(bytes).to_vec()
}

/// The lower-case hexadecimal digit of `d`.
pub open spec fn hex_digit(d: int) -> char {
    if d < 10 {
        ('0' as u32 + d) as char
    } else {
        ('a' as u32 + d - 10) as char
    }
}

/// `bytes` in lower-case hexadecimal, two digits each.
pub open spec fn hex(bytes: Seq<u8>) -> Seq<char>
    decreases bytes.len(),
{
    if bytes.len() == 0 {
        Seq::empty()
    } else {
        hex(bytes.drop_last()) + seq![
            hex_digit(bytes.last() as int / 16),
            hex_digit(bytes.last() as int % 16),
        ]
    }
}

/// What is kept of a digest: its first six bytes, in hexadecimal.
pub open spec fn shortened(digest: Seq<u8>) -> Seq<char> {
    hex(digest.take(if digest.len() < 6 { digest.len() as int } else { 6 }))
}

fn hex_char(d: u8) -> (c: char)
    requires
        d < 16,
    ensures
        c == hex_digit(d as int),
{
    if d < 10 {
        (48u8 + d) as char
    } else {
        (87u8 + d) as char
    }
}

/// What is kept of a digest: its first six bytes, in hexadecimal.
pub fn short_of(digest: &[u8]) -> (s: String)
    ensures
        s@ == shortened(digest@),
{
    let mut s = String::new();
    let n: usize = if digest.len() < 6 {
        digest.len()
    } else {
        6
    };
    let mut i: usize = 0;
    while i < n
        invariant
            i <= n <= digest.len(),
            s@ == hex(digest@.take(i as int)),
        decreases n - i,
    {
        assert(digest@.take(i + 1).drop_last() =~= digest@.take(i as int));
        let b: u8 = digest[i];
        let ghost was = s@;
        s.push(hex_char(b / 16));
        s.push(hex_char(b % 16));
        assert(s@ =~= was + seq![hex_digit(b as int / 16), hex_digit(b as int % 16)]);
        i = i + 1;
    }
    s
}

/// Twelve hexadecimal digits of SHA-256: enough to identify, short enough to
/// read.
pub fn short_digest(bytes: &[u8]) -> (s: String)
    ensures
        s@ == shortened(sha256(bytes@)),
        s@.len() == 12,
{
    let d = sha256_of(bytes);
    proof {
        lemma_hex_len(d@.take(6));
    }
    short_of(d.as_slice())
}

proof fn lemma_hex_len(bytes: Seq<u8>)
    ensures
        hex(bytes).len() == 2 * bytes.len(),
    decreases bytes.len(),
{
    if bytes.len() > 0 {
        lemma_hex_len(bytes.drop_last());
    }
}

// ---------------------------------------------------------------------------
// The profile
// ---------------------------------------------------------------------------

impl Infra {
    /// The fields that define the shape of the infrastructure, in order.
    pub open spec fn shape(self) -> Seq<Seq<char>> {
        seq![
            self.broker.kind@,
            self.broker.cpus@,
            self.broker.memory@,
            self.clickhouse.cpus@,
            self.clickhouse.memory@,
            text::signed_decimal(self.partitions as int),
            self.storage.kind.word(),
        ]
    }

    /// The text that the shape's digest is taken over. Versions and paths are no
    /// part of it: a patch release must not split a comparability group, and a
    /// mount point is not a device.
    pub open spec fn envelope(self) -> Seq<char> {
        text::join(self.shape(), "|"@)
    }

    /// The text that the shape's digest is taken over.
    pub fn envelope_text(&self) -> (s: String)
        ensures
            s@ == self.envelope(),
    {
        let mut partitions = String::new();
        text::push_signed(&mut partitions, self.partitions as i64);
        assert(partitions@ =~= text::signed_decimal(self.partitions as int));
        let mut parts: Vec<String> = Vec::new();
        text::push_text(&mut parts, self.broker.kind.as_str());
        text::push_text(&mut parts, self.broker.cpus.as_str());
        text::push_text(&mut parts, self.broker.memory.as_str());
        text::push_text(&mut parts, self.clickhouse.cpus.as_str());
        text::push_text(&mut parts, self.clickhouse.memory.as_str());
        text::push_text(&mut parts, partitions.as_str());
        text::push_text(&mut parts, self.storage.kind.as_str());
        assert(text::strings(parts@) =~= self.shape());
        text::joined(parts.as_slice(), "|")
    }
}

/// The refusal of a profile whose id is not its file's name.
pub open spec fn misnamed(path: Seq<char>, declared: Seq<char>, id: Seq<char>) -> Seq<char> {
    path + ": declares id "@ + text::debug_text(declared) + " but is named "@ + text::debug_text(id)
}

/// `file` below the directory `dir`, as Unix joins paths: an absolute `file`
/// stands by itself.
pub open spec fn path_below(dir: Seq<char>, file: Seq<char>) -> Seq<char> {
    if file.len() > 0 && file[0] == '/' {
        file
    } else if dir.len() == 0 || dir.last() == '/' {
        dir + file
    } else {
        dir + "/"@ + file
    }
}

/// `file` below the directory `dir`, as Unix joins paths.
pub fn joined_path(dir: &str, file: &str) -> (s: String)
    ensures
        s@ == path_below(dir@, file@),
{
    let d = text::chars_of(dir);
    let f = text::chars_of(file);
    if f.len() > 0 && f[0] == '/' {
        return file.to_owned();
    }
    let mut s = dir.to_owned();
    if d.len() > 0 && d[d.len() - 1] != '/' {
        s.append("/");
    }
    s.append(file);
    s
}

/// Where the profile `id` of the directory `dir` lives.
pub open spec fn profile_path(dir: Seq<char>, id: Seq<char>) -> Seq<char> {
    path_below(dir, id + ".toml"@)
}

/// Where the profile `id` of the directory `dir` lives.
pub fn profile_file(dir: &str, id: &str) -> (s: String)
    ensures
        s@ == profile_path(dir@, id@),
{
    let mut file = id.to_owned();
    file.append(".toml");
    joined_path(dir, file.as_str())
}

/// What became of reading a profile: the file's text with what parsing it gave,
/// or why it could not be read.
pub type ProfileFile = Result<(String, Result<Profile, String>), String>;

/// Why the profile `id` at `path` is refused, if it is.
pub open spec fn load_refusal(
    path: Seq<char>,
    id: Seq<char>,
    file: ProfileFile,
) -> Option<Seq<char>> {
    match file {
        Err(e) => Some("read "@ + path + ": "@ + e@),
        Ok((_, Err(e))) => Some(path + ": "@ + e@),
        Ok((_, Ok(p))) => if p.id@ != id {
            Some(misnamed(path, p.id@, id))
        } else if !p.infra.storage.is_whole() {
            Some(path + ": "@ + Storage::missing_paths())
        } else {
            None
        },
    }
}

impl Environment {
    /// Takes the profile `id` of the directory `dir`, given what became of
    /// reading its file.
    ///
    /// An id that disagrees with the file's name would let two profiles claim
    /// one identity, and merge two machines into one comparison group.
    pub fn load(dir: &str, id: &str, file: ProfileFile) -> (r: Result<Environment, String>)
        ensures
            match r {
                Ok(e) => {
                    &&& load_refusal(profile_path(dir@, id@), id@, file) is None
                    &&& e.spec == file->Ok_0.1->Ok_0
                    &&& e.digest@ == shortened(sha256(vstd::utf8::encode_utf8(file->Ok_0.0@)))
                    &&& e.dir@ == dir@
                },
                Err(m) => load_refusal(profile_path(dir@, id@), id@, file) == Some(m@),
            },
    {
        let path = profile_file(dir, id);
        match file {
            Err(e) => {
                let mut m = "read ".to_owned();
                m.append(path.as_str());
                m.append(": ");
                m.append(e.as_str());
                Err(m)
            },
            Ok((_, Err(e))) => {
                let mut m = path;
                m.append(": ");
                m.append(e.as_str());
                Err(m)
            },
            Ok((src, Ok(spec))) => {
                if !text::same(spec.id.as_str(), id) {
                    let mut m = path;
                    m.append(": declares id ");
                    m.append(text::quoted(spec.id.as_str()).as_str());
                    m.append(" but is named ");
                    m.append(text::quoted(id).as_str());
                    return Err(m);
                }
                match spec.infra.storage.check() {
                    Err(e) => {
                        let mut m = path;
                        m.append(": ");
                        m.append(e.as_str());
                        Err(m)
                    },
                    Ok(_) => {
                        let digest = short_digest(src.as_str().as_bytes());
                        Ok(Environment { spec, digest, dir: dir.to_owned() })
                    },
                }
            },
        }
    }

    /// Where this environment's ceilings live.
    pub fn ceilings_path(&self) -> (s: String)
        ensures
            s@ == path_below(self.dir@, self.spec.ceiling.file@),
    {
        joined_path(self.dir.as_str(), self.spec.ceiling.file.as_str())
    }

    /// Digest over the part of the infrastructure that defines its shape.
    pub fn infra_digest(&self) -> (s: String)
        ensures
            s@ == shortened(sha256(vstd::utf8::encode_utf8(self.spec.infra.envelope()))),
            s@.len() == 12,
    {
        let t = self.spec.infra.envelope_text();
        short_digest(t.as_str().as_bytes())
    }

    /// Whether results from here may be published.
    pub fn is_publishable(&self) -> (r: bool)
        ensures
            r == (self.spec.class.bar() is None),
            r == (self.spec.class != Class::Fixture),
    {
        self.spec.class.publication_bar().is_none()
    }

    /// The marker that every record produced here must carry, if any.
    pub fn publication_bar(&self) -> (r: Option<&'static str>)
        ensures
            match r {
                Some(s) => self.spec.class.bar() == Some(s@),
                None => self.spec.class.bar() is None,
            },
    {
        self.spec.class.publication_bar()
    }
}

// ---------------------------------------------------------------------------
// Laws
// ---------------------------------------------------------------------------

/// Neither a version nor a path splits a comparability group: two profiles that
/// agree in the shape of their infrastructure have one envelope, and so one
/// digest.
pub proof fn versions_and_paths_split_no_group(a: Infra, b: Infra)
    requires
        a.broker.kind@ == b.broker.kind@,
        a.broker.cpus@ == b.broker.cpus@,
        a.broker.memory@ == b.broker.memory@,
        a.clickhouse.cpus@ == b.clickhouse.cpus@,
        a.clickhouse.memory@ == b.clickhouse.memory@,
        a.partitions == b.partitions,
        a.storage.kind == b.storage.kind,
    ensures
        a.envelope() == b.envelope(),
{
    assert(a.shape() =~= b.shape());
}

/// The storage layout splits a comparability group: whatever else two profiles
/// say, the digests of two layouts are taken over different texts.
pub proof fn the_layout_splits_a_group(a: Infra, b: Infra)
    requires
        a.storage.kind != b.storage.kind,
    ensures
        a.envelope() != b.envelope(),
{
    reveal_strlit("shared-root");
    reveal_strlit("local-nvme");
    assert(a.envelope().last() == a.storage.kind.word().last());
    assert(b.envelope().last() == b.storage.kind.word().last());
}

/// Whether a field can stand between bars.
spec fn barless(s: Seq<char>) -> bool {
    forall|i: int| 0 <= i < s.len() ==> #[trigger] s[i] != '|'
}

/// Two profiles of one envelope agree in everything that shapes the infrastructure:
/// the broker's kind and caps, ClickHouse's caps, the partitions and the storage
/// layout. So two that differ in any of them are told apart by the text that the
/// digest is taken over.
pub proof fn one_envelope_is_one_shape(a: Infra, b: Infra)
    requires
        a.envelope() == b.envelope(),
        forall|i: int, k: int|
            0 <= i < 5 && 0 <= k < a.shape()[i].len() ==> #[trigger] a.shape()[i][k] != '|',
        forall|i: int, k: int|
            0 <= i < 5 && 0 <= k < b.shape()[i].len() ==> #[trigger] b.shape()[i][k] != '|',
    ensures
        a.broker.kind@ == b.broker.kind@,
        a.broker.cpus@ == b.broker.cpus@,
        a.broker.memory@ == b.broker.memory@,
        a.clickhouse.cpus@ == b.clickhouse.cpus@,
        a.clickhouse.memory@ == b.clickhouse.memory@,
        a.partitions == b.partitions,
        a.storage.kind == b.storage.kind,
{
    reveal_strlit("|");
    assert("|"@ =~= seq!['|']);
    lemma_barless(a);
    lemma_barless(b);
    text::pieces_read_back(a.shape(), '|');
    text::pieces_read_back(b.shape(), '|');
    let (x, y) = (a.shape(), b.shape());
    assert(x == y);
    assert(x[0] == y[0] && x[1] == y[1] && x[2] == y[2] && x[3] == y[3] && x[4] == y[4] && x[5]
        == y[5] && x[6] == y[6]);
    text::a_signed_decimal_reads_back(a.partitions as i64);
    text::a_signed_decimal_reads_back(b.partitions as i64);
    reveal_strlit("shared-root");
    reveal_strlit("local-nvme");
    assert("shared-root"@[0] != "local-nvme"@[0]);
}

proof fn lemma_barless(a: Infra)
    requires
        forall|i: int, k: int|
            0 <= i < 5 && 0 <= k < a.shape()[i].len() ==> #[trigger] a.shape()[i][k] != '|',
    ensures
        forall|i: int, k: int|
            0 <= i < 7 && 0 <= k < a.shape()[i].len() ==> #[trigger] a.shape()[i][k] != '|',
{
    reveal_strlit("shared-root");
    reveal_strlit("local-nvme");
    let n = a.partitions as int;
    let m = if n < 0 {
        (-n) as nat
    } else {
        n as nat
    };
    text::a_decimal_is_a_word(m);
    let d = text::signed_decimal(n);
    assert(barless(d)) by {
        assert forall|i: int| 0 <= i < d.len() implies #[trigger] d[i] != '|' by {
            if n < 0 {
                if i > 0 {
                    assert(d[i] == text::decimal(m)[i - 1]);
                }
            } else {
                assert(d[i] == text::decimal(m)[i]);
            }
        }
    }
    assert forall|i: int, k: int| 0 <= i < 7 && 0 <= k < a.shape()[i].len() implies #[trigger] a.shape()[i][k]
        != '|' by {
        if i == 5 {
            assert(a.shape()[i] == d);
            assert(d[k] != '|');
        } else if i == 6 {
            assert(a.shape()[i] == a.storage.kind.word());
        }
    }
}

proof fn lemma_hex_tells_apart(a: Seq<u8>, b: Seq<u8>)
    requires
        a.len() == b.len(),
        hex(a) == hex(b),
    ensures
        a == b,
    decreases a.len(),
{
    if a.len() > 0 {
        let (x, y) = (a.drop_last(), b.drop_last());
        lemma_hex_len(x);
        lemma_hex_len(y);
        let n = 2 * x.len() as int;
        assert(hex(a).take(n) =~= hex(x));
        assert(hex(b).take(n) =~= hex(y));
        lemma_hex_tells_apart(x, y);
        assert(hex(a)[n] == hex_digit(a.last() as int / 16));
        assert(hex(b)[n] == hex_digit(b.last() as int / 16));
        assert(hex(a)[n + 1] == hex_digit(a.last() as int % 16));
        assert(hex(b)[n + 1] == hex_digit(b.last() as int % 16));
        lemma_hex_digit(a.last() as int / 16, b.last() as int / 16);
        lemma_hex_digit(a.last() as int % 16, b.last() as int % 16);
        assert(a.last() == b.last());
        assert(a =~= x.push(a.last()));
        assert(b =~= y.push(b.last()));
    } else {
        assert(a =~= b);
    }
}

proof fn lemma_hex_digit(a: int, b: int)
    requires
        0 <= a < 16,
        0 <= b < 16,
        hex_digit(a) == hex_digit(b),
    ensures
        a == b,
{
}

/// What is kept of a digest tells two digests apart wherever their first six bytes
/// do, and is written in twelve digits.
pub proof fn a_short_digest_keeps_six_bytes(a: Seq<u8>, b: Seq<u8>)
    requires
        a.len() >= 6,
        b.len() >= 6,
    ensures
        shortened(a).len() == 12,
        (shortened(a) == shortened(b)) == (a.take(6) == b.take(6)),
{
    lemma_hex_len(a.take(6));
    if shortened(a) == shortened(b) {
        lemma_hex_tells_apart(a.take(6), b.take(6));
    }
}

/// A profile is taken exactly where its file parses, declares the id that the file is
/// named by and, where it declares local storage, names both paths of it.
pub proof fn a_profile_is_taken_under_its_own_name(
    path: Seq<char>,
    id: Seq<char>,
    file: ProfileFile,
)
    ensures
        load_refusal(path, id, file) is None <==> match file {
            Ok((_, Ok(p))) => {
                &&& p.id@ == id
                &&& p.infra.storage.kind == Kind::LocalNvme ==> {
                    &&& text::trim(p.infra.storage.clickhouse_data@).len() > 0
                    &&& text::trim(p.infra.storage.broker_data@).len() > 0
                }
            },
            _ => false,
        },
{
}

/// A profile lives in its directory under its id, whether or not the directory is
/// written with a slash at its end.
pub proof fn a_profile_lives_under_its_id(dir: Seq<char>, id: Seq<char>)
    requires
        dir.len() > 0,
        id.len() > 0,
        id[0] != '/',
        dir.last() != '/',
    ensures
        profile_path(dir, id) == dir + "/"@ + id + ".toml"@,
        profile_path(dir + "/"@, id) == profile_path(dir, id),
{
    reveal_strlit("/");
    reveal_strlit(".toml");
    let file = id + ".toml"@;
    assert(file[0] == id[0]);
    assert((dir + "/"@).last() == '/');
    assert(dir + "/"@ + file =~= dir + "/"@ + id + ".toml"@);
}

} // verus!
