//! Resource measurement from outside the system under test.
//!
//! Every quantity here is read from a container's cgroup, so it is obtained in
//! the same way whatever runs inside. A sampler writes one line per reading;
//! this module parses the lines, reduces them to the cost of one container, and
//! adds containers up into the cost of an arm.

use vstd::prelude::*;
use crate::about;
use crate::big;
use crate::double;
use crate::double::Double;
use crate::text;

verus! {

/// Milliseconds between two readings.
///
/// Both ends of a window's CPU delta are readings, so a window clipped at
/// either end is short by at most this much.
pub const INTERVAL_MS: u64 = 100;

/// The sampler container's name. Fixed, so that an orphan of an interrupted run
/// is removed by the next one.
pub const SAMPLER_CONTAINER: &'static str = "spate-bench-sampler";

/// Path of the lock that serialises arms. Any program on the host can take it.
pub const LOCK_PATH: &'static str = "/tmp/spate-bench-comparison.lock";

// ---------------------------------------------------------------------------
// One reading
// ---------------------------------------------------------------------------

/// One reading of a cgroup. `-1` stands for a counter that could not be read:
/// a zero would say "idle" where the truth is "unknown".
#[derive(Clone, Copy, Debug, PartialEq, Eq, Structural)]
pub struct Sample {
    /// Milliseconds since the epoch, by the sampler's own clock.
    pub t_ms: u64,
    /// Cumulative CPU time, microseconds.
    pub usage_usec: i64,
    /// Cumulative user-mode CPU time, microseconds.
    pub user_usec: i64,
    /// Cumulative kernel-mode CPU time, microseconds.
    pub system_usec: i64,
    /// Scheduler periods in which the cgroup was throttled.
    pub nr_throttled: i64,
    /// Cumulative time spent throttled, microseconds.
    pub throttled_usec: i64,
    /// Charged memory, page cache counted in.
    pub mem_current: i64,
    /// Peak charged memory since the sampler started.
    pub mem_peak: i64,
    /// Anonymous memory.
    pub anon: i64,
    /// Page cache.
    pub file: i64,
    /// Kernel slab memory.
    pub slab: i64,
    /// Kernel stack memory.
    pub kernel_stack: i64,
    /// Socket buffers.
    pub sock: i64,
}

/// The integer in one column of a line, white space around it ignored.
pub open spec fn column(fields: Seq<Seq<char>>, i: int) -> Option<int> {
    text::parse_i64(text::trim(fields[i]))
}

impl Sample {
    /// Whether every counter was read.
    pub open spec fn is_readable(self) -> bool {
        &&& self.usage_usec >= 0
        &&& self.user_usec >= 0
        &&& self.system_usec >= 0
        &&& self.nr_throttled >= 0
        &&& self.throttled_usec >= 0
        &&& self.mem_current >= 0
        &&& self.mem_peak >= 0
        &&& self.anon >= 0
        &&& self.file >= 0
        &&& self.slab >= 0
        &&& self.kernel_stack >= 0
        &&& self.sock >= 0
    }

    /// The reading that a line writes: thirteen integers between commas, the
    /// first of them not negative.
    pub open spec fn parsed(line: Seq<char>) -> Option<Sample> {
        let f = text::split(line, ","@);
        if f.len() == 13 && (forall|i: int| 0 <= i < 13 ==> #[trigger] column(f, i) is Some)
            && column(f, 0)->0 >= 0 {
            Some(
                Sample {
                    t_ms: column(f, 0)->0 as u64,
                    usage_usec: column(f, 1)->0 as i64,
                    user_usec: column(f, 2)->0 as i64,
                    system_usec: column(f, 3)->0 as i64,
                    nr_throttled: column(f, 4)->0 as i64,
                    throttled_usec: column(f, 5)->0 as i64,
                    mem_current: column(f, 6)->0 as i64,
                    mem_peak: column(f, 7)->0 as i64,
                    anon: column(f, 8)->0 as i64,
                    file: column(f, 9)->0 as i64,
                    slab: column(f, 10)->0 as i64,
                    kernel_stack: column(f, 11)->0 as i64,
                    sock: column(f, 12)->0 as i64,
                },
            )
        } else {
            None
        }
    }

    /// The reading that `line` writes, if it writes one.
    pub fn parse(line: &str) -> (r: Option<Sample>)
        ensures
            r == Sample::parsed(line@),
    {
        let chars = text::chars_of(line);
        Self::parse_chars(chars.as_slice())
    }

    fn parse_chars(line: &[char]) -> (r: Option<Sample>)
        ensures
            r == Sample::parsed(line@),
    {
        proof {
            reveal_strlit(",");
        }
        let fields = text::fields(line, ",");
        let ghost f = text::split(line@, ","@);
        let mut v: Vec<i64> = Vec::new();
        let mut i: usize = 0;
        while i < fields.len()
            invariant
                i <= fields.len(),
                f == text::split(line@, ","@),
                text::views(fields@) == f,
                f.len() == fields@.len(),
                v@.len() == i,
                forall|j: int| 0 <= j < i ==> column(f, j) == Some(#[trigger] v@[j] as int),
            decreases fields.len() - i,
        {
            assert(f[i as int] == fields@[i as int]@);
            match text::to_i64(text::trimmed(fields[i])) {
                Some(n) => {
                    v.push(n);
                },
                None => {
                    assert(column(f, i as int) is None);
                    return None;
                },
            }
            i = i + 1;
        }
        if v.len() != 13 || v[0] < 0 {
            return None;
        }
        assert forall|j: int| 0 <= j < 13 implies #[trigger] column(f, j) is Some by {
            assert(column(f, j) == Some(v@[j] as int));
        }
        Some(
            Sample {
                t_ms: v[0] as u64,
                usage_usec: v[1],
                user_usec: v[2],
                system_usec: v[3],
                nr_throttled: v[4],
                throttled_usec: v[5],
                mem_current: v[6],
                mem_peak: v[7],
                anon: v[8],
                file: v[9],
                slab: v[10],
                kernel_stack: v[11],
                sock: v[12],
            },
        )
    }

    /// Whether every counter was read. The counters of a reading do not fail
    /// one by one, so a reading that carries a single `-1` is not evidence.
    pub fn readable(&self) -> (r: bool)
        ensures
            r == self.is_readable(),
    {
        self.usage_usec >= 0 && self.user_usec >= 0 && self.system_usec >= 0 && self.nr_throttled
            >= 0 && self.throttled_usec >= 0 && self.mem_current >= 0 && self.mem_peak >= 0
            && self.anon >= 0 && self.file >= 0 && self.slab >= 0 && self.kernel_stack >= 0
            && self.sock >= 0
    }
}

// ---------------------------------------------------------------------------
// One container
// ---------------------------------------------------------------------------

/// What one sampler collected.
#[derive(Clone, Debug)]
pub struct Samples {
    /// The sampler's header: the cgroup's path and the limits it runs under.
    pub meta: String,
    /// The readings, in order.
    pub rows: Vec<Sample>,
    /// Seconds that the sampler was alive, by the driver's clock.
    pub wall_s: Double,
}

/// The readings of `rows` in which every counter was read, in order.
pub open spec fn readable_rows(rows: Seq<Sample>) -> Seq<Sample>
    decreases rows.len(),
{
    if rows.len() == 0 {
        Seq::empty()
    } else if rows.last().is_readable() {
        readable_rows(rows.drop_last()).push(rows.last())
    } else {
        readable_rows(rows.drop_last())
    }
}

/// Every row that `readable_rows` keeps is readable, and it keeps at most all.
pub proof fn lemma_readable_rows(rows: Seq<Sample>)
    ensures
        readable_rows(rows).len() <= rows.len(),
        forall|i: int|
            0 <= i < readable_rows(rows).len() ==> (#[trigger] readable_rows(
                rows,
            )[i]).is_readable(),
    decreases rows.len(),
{
    if rows.len() > 0 {
        lemma_readable_rows(rows.drop_last());
    }
}

/// The largest value of `f` over `rows`, and `0` where there is none.
pub open spec fn peak(rows: Seq<Sample>, f: spec_fn(Sample) -> int) -> int
    decreases rows.len(),
{
    if rows.len() == 0 {
        0
    } else {
        let before = peak(rows.drop_last(), f);
        if f(rows.last()) > before {
            f(rows.last())
        } else {
            before
        }
    }
}

/// How far a counter rose from one reading to another, never below zero.
pub open spec fn rise(from: i64, to: i64) -> int {
    if to > from {
        to - from
    } else {
        0
    }
}

fn rise_of(from: i64, to: i64) -> (r: u128)
    requires
        from >= 0,
        to >= 0,
    ensures
        r == rise(from, to),
        r <= i64::MAX,
{
    if to > from {
        (to - from) as u128
    } else {
        0
    }
}

pub(crate) fn only_readable(rows: &[Sample]) -> (out: Vec<Sample>)
    ensures
        out@ == readable_rows(rows@),
{
    let mut out: Vec<Sample> = Vec::new();
    let mut i: usize = 0;
    while i < rows.len()
        invariant
            i <= rows.len(),
            out@ == readable_rows(rows@.take(i as int)),
        decreases rows.len() - i,
    {
        assert(rows@.take(i + 1).drop_last() =~= rows@.take(i as int));
        if rows[i].readable() {
            out.push(rows[i]);
        }
        i = i + 1;
    }
    assert(rows@.take(rows@.len() as int) =~= rows@);
    out
}

/// The header that the last line beginning with `#` carries.
pub open spec fn header(lines: Seq<Seq<char>>) -> Seq<char>
    decreases lines.len(),
{
    if lines.len() == 0 {
        Seq::empty()
    } else {
        match text::strip_prefix(lines.last(), "#"@) {
            Some(rest) => text::trim(rest),
            None => header(lines.drop_last()),
        }
    }
}

/// The readings that the lines not beginning with `#` write, in order. A line
/// that writes none is passed over.
pub open spec fn readings(lines: Seq<Seq<char>>) -> Seq<Sample>
    decreases lines.len(),
{
    if lines.len() == 0 {
        Seq::empty()
    } else {
        let before = readings(lines.drop_last());
        if text::strip_prefix(lines.last(), "#"@) is Some {
            before
        } else {
            match Sample::parsed(lines.last()) {
                Some(s) => before.push(s),
                None => before,
            }
        }
    }
}

impl Samples {
    /// What a sampler that wrote `lines` collected.
    pub fn from_lines(lines: &[String], wall_s: Double) -> (s: Samples)
        ensures
            s.meta@ == header(text::strings(lines@)),
            s.rows@ == readings(text::strings(lines@)),
            s.wall_s == wall_s,
    {
        let ghost all = text::strings(lines@);
        let mut meta = String::new();
        let mut rows: Vec<Sample> = Vec::new();
        let mut i: usize = 0;
        while i < lines.len()
            invariant
                i <= lines.len(),
                all == text::strings(lines@),
                meta@ == header(all.take(i as int)),
                rows@ == readings(all.take(i as int)),
            decreases lines.len() - i,
        {
            assert(all.take(i + 1).drop_last() =~= all.take(i as int));
            assert(all.take(i + 1).last() == lines@[i as int]@);
            let chars = text::chars_of(lines[i].as_str());
            match text::without_prefix(chars.as_slice(), "#") {
                Some(rest) => {
                    meta = text::string_of(text::trimmed(rest));
                },
                None => {
                    if let Some(s) = Sample::parse_chars(chars.as_slice()) {
                        rows.push(s);
                    }
                },
            }
            i = i + 1;
        }
        assert(all.take(all.len() as int) =~= all);
        Samples { meta, rows, wall_s }
    }

    /// The cost of the container over the window that its readings span.
    ///
    /// Only readable rows count. `None` where fewer than two of them span a
    /// window: one reading gives no CPU delta, and taking a lifetime counter
    /// for one would charge the container for its own start.
    pub fn summarise(&self) -> (r: Option<SutCost>)
        ensures
            r == SutCost::summary(self.rows@),
            r matches Some(c) ==> c.is_reading() && c.window_ms > 0,
    {
        let readable = only_readable(self.rows.as_slice());
        proof {
            lemma_readable_rows(self.rows@);
        }
        if readable.len() < 2 {
            return None;
        }
        let first: Sample = readable[0];
        let last: Sample = readable[readable.len() - 1];
        if last.t_ms <= first.t_ms {
            return None;
        }
        let mut peak_anon: i64 = 0;
        let mut peak_current: i64 = 0;
        let mut i: usize = 0;
        while i < readable.len()
            invariant
                i <= readable.len(),
                forall|j: int|
                    0 <= j < readable@.len() ==> (#[trigger] readable@[j]).is_readable(),
                peak_anon >= 0,
                peak_current >= 0,
                peak_anon == peak(readable@.take(i as int), |s: Sample| s.anon as int),
                peak_current == peak(readable@.take(i as int), |s: Sample| s.mem_current as int),
            decreases readable.len() - i,
        {
            assert(readable@.take(i + 1).drop_last() =~= readable@.take(i as int));
            assert(readable@[i as int].is_readable());
            if readable[i].anon > peak_anon {
                peak_anon = readable[i].anon;
            }
            if readable[i].mem_current > peak_current {
                peak_current = readable[i].mem_current;
            }
            i = i + 1;
        }
        assert(readable@.take(readable@.len() as int) =~= readable@);
        assert(first.is_readable() && last.is_readable());
        Some(
            SutCost {
                window_ms: last.t_ms - first.t_ms,
                cpu_us: rise_of(first.usage_usec, last.usage_usec),
                user_us: rise_of(first.user_usec, last.user_usec),
                system_us: rise_of(first.system_usec, last.system_usec),
                throttled_us: rise_of(first.throttled_usec, last.throttled_usec),
                nr_throttled: rise_of(first.nr_throttled, last.nr_throttled),
                peak_anon_bytes: peak_anon as u128,
                peak_charged_bytes: last.mem_peak as u128,
                peak_current_bytes: peak_current as u128,
                samples: readable.len(),
                unreadable: (self.rows.len() - readable.len()) as u128,
            },
        )
    }
}

// ---------------------------------------------------------------------------
// The cost of an arm
// ---------------------------------------------------------------------------

/// What one container, or one arm, cost over one measurement window.
///
/// The window belongs to this type, and every rate that a record publishes is
/// derived from it here, so that two published figures cannot rest on two
/// different intervals. Counts are kept as integers: they stay far below `2^53`,
/// where a double holds them as they are and adds them up exactly.
#[derive(Clone, Copy, Debug, PartialEq, Eq, Structural)]
pub struct SutCost {
    /// Length of the window in milliseconds, by the sampler's clock.
    pub window_ms: u64,
    /// CPU microseconds consumed in the window.
    pub cpu_us: u128,
    /// User-mode share of `cpu_us`.
    pub user_us: u128,
    /// Kernel-mode share of `cpu_us`.
    pub system_us: u128,
    /// Microseconds spent throttled by the CPU cap.
    pub throttled_us: u128,
    /// Scheduler periods in which throttling occurred.
    pub nr_throttled: u128,
    /// Peak anonymous memory.
    pub peak_anon_bytes: u128,
    /// Peak charged memory over the window, page cache counted in.
    pub peak_charged_bytes: u128,
    /// Peak current memory seen in the readings, page cache counted in.
    pub peak_current_bytes: u128,
    /// Readings that the figures rest on.
    pub samples: usize,
    /// Readings discarded as unreadable.
    pub unreadable: u128,
}

/// The sum of `f` over the parts that are present.
pub open spec fn total(parts: Seq<Option<SutCost>>, f: spec_fn(SutCost) -> int) -> int
    decreases parts.len(),
{
    if parts.len() == 0 {
        0
    } else {
        total(parts.drop_last(), f) + (match parts.last() {
            Some(p) => f(p),
            None => 0,
        })
    }
}

/// The longest window of the parts that are present.
pub open spec fn longest(parts: Seq<Option<SutCost>>) -> int
    decreases parts.len(),
{
    if parts.len() == 0 {
        0
    } else {
        let before = longest(parts.drop_last());
        match parts.last() {
            Some(p) if p.window_ms > before => p.window_ms as int,
            _ => before,
        }
    }
}

/// The fewest readings that any of the parts rests on.
pub open spec fn fewest(parts: Seq<Option<SutCost>>) -> int
    decreases parts.len(),
{
    if parts.len() == 0 {
        0
    } else if parts.len() == 1 {
        parts[0]->0.samples as int
    } else {
        let before = fewest(parts.drop_last());
        if parts.last()->0.samples < before {
            parts.last()->0.samples as int
        } else {
            before
        }
    }
}

impl SutCost {
    /// Whether every count is one that a single container's counters can give.
    pub open spec fn is_reading(self) -> bool {
        &&& self.cpu_us <= u64::MAX
        &&& self.user_us <= u64::MAX
        &&& self.system_us <= u64::MAX
        &&& self.throttled_us <= u64::MAX
        &&& self.nr_throttled <= u64::MAX
        &&& self.peak_anon_bytes <= u64::MAX
        &&& self.peak_charged_bytes <= u64::MAX
        &&& self.peak_current_bytes <= u64::MAX
        &&& self.unreadable <= u64::MAX
    }

    /// The cost that a series of readings amounts to.
    pub open spec fn summary(rows: Seq<Sample>) -> Option<SutCost> {
        let r = readable_rows(rows);
        if r.len() < 2 || r.last().t_ms <= r[0].t_ms {
            None
        } else {
            Some(
                SutCost {
                    window_ms: (r.last().t_ms - r[0].t_ms) as u64,
                    cpu_us: rise(r[0].usage_usec, r.last().usage_usec) as u128,
                    user_us: rise(r[0].user_usec, r.last().user_usec) as u128,
                    system_us: rise(r[0].system_usec, r.last().system_usec) as u128,
                    throttled_us: rise(r[0].throttled_usec, r.last().throttled_usec) as u128,
                    nr_throttled: rise(r[0].nr_throttled, r.last().nr_throttled) as u128,
                    peak_anon_bytes: peak(r, |s: Sample| s.anon as int) as u128,
                    peak_charged_bytes: r.last().mem_peak as u128,
                    peak_current_bytes: peak(r, |s: Sample| s.mem_current as int) as u128,
                    samples: r.len() as usize,
                    unreadable: (rows.len() - r.len()) as u128,
                },
            )
        }
    }

    /// Whether every part is present.
    pub open spec fn all_present(parts: Seq<Option<SutCost>>) -> bool {
        forall|i: int| 0 <= i < parts.len() ==> (#[trigger] parts[i]) is Some
    }

    /// Whether the sum of every count fits the type that holds it.
    pub open spec fn fits(parts: Seq<Option<SutCost>>) -> bool {
        &&& total(parts, |p: SutCost| p.cpu_us as int) <= u128::MAX
        &&& total(parts, |p: SutCost| p.user_us as int) <= u128::MAX
        &&& total(parts, |p: SutCost| p.system_us as int) <= u128::MAX
        &&& total(parts, |p: SutCost| p.throttled_us as int) <= u128::MAX
        &&& total(parts, |p: SutCost| p.nr_throttled as int) <= u128::MAX
        &&& total(parts, |p: SutCost| p.peak_anon_bytes as int) <= u128::MAX
        &&& total(parts, |p: SutCost| p.peak_charged_bytes as int) <= u128::MAX
        &&& total(parts, |p: SutCost| p.peak_current_bytes as int) <= u128::MAX
        &&& total(parts, |p: SutCost| p.unreadable as int) <= u128::MAX
    }

    /// The cost of an arm whose containers cost `parts`: counts add, and the
    /// window is the longest. `None` unless every part is present and some
    /// window is open.
    pub open spec fn summed(parts: Seq<Option<SutCost>>) -> Option<SutCost> {
        if parts.len() == 0 || !Self::all_present(parts) || longest(parts) <= 0 {
            None
        } else {
            Some(
                SutCost {
                    window_ms: longest(parts) as u64,
                    cpu_us: total(parts, |p: SutCost| p.cpu_us as int) as u128,
                    user_us: total(parts, |p: SutCost| p.user_us as int) as u128,
                    system_us: total(parts, |p: SutCost| p.system_us as int) as u128,
                    throttled_us: total(parts, |p: SutCost| p.throttled_us as int) as u128,
                    nr_throttled: total(parts, |p: SutCost| p.nr_throttled as int) as u128,
                    peak_anon_bytes: total(parts, |p: SutCost| p.peak_anon_bytes as int) as u128,
                    peak_charged_bytes: total(
                        parts,
                        |p: SutCost| p.peak_charged_bytes as int,
                    ) as u128,
                    peak_current_bytes: total(
                        parts,
                        |p: SutCost| p.peak_current_bytes as int,
                    ) as u128,
                    samples: fewest(parts) as usize,
                    unreadable: total(parts, |p: SutCost| p.unreadable as int) as u128,
                },
            )
        }
    }

    /// The cost of an arm from the costs of its containers.
    ///
    /// `None` unless every part is present: a partial arm is not a cheap arm.
    pub fn sum(parts: &[Option<SutCost>]) -> (r: Option<SutCost>)
        requires
            SutCost::fits(parts@),
        ensures
            r == SutCost::summed(parts@),
    {
        if parts.len() == 0 {
            return None;
        }
        let mut acc = SutCost {
            window_ms: 0,
            cpu_us: 0,
            user_us: 0,
            system_us: 0,
            throttled_us: 0,
            nr_throttled: 0,
            peak_anon_bytes: 0,
            peak_charged_bytes: 0,
            peak_current_bytes: 0,
            samples: 0,
            unreadable: 0,
        };
        let mut i: usize = 0;
        while i < parts.len()
            invariant
                i <= parts.len(),
                SutCost::fits(parts@),
                SutCost::all_present(parts@.take(i as int)),
                acc.window_ms == longest(parts@.take(i as int)),
                acc.cpu_us == total(parts@.take(i as int), |p: SutCost| p.cpu_us as int),
                acc.user_us == total(parts@.take(i as int), |p: SutCost| p.user_us as int),
                acc.system_us == total(parts@.take(i as int), |p: SutCost| p.system_us as int),
                acc.throttled_us == total(
                    parts@.take(i as int),
                    |p: SutCost| p.throttled_us as int,
                ),
                acc.nr_throttled == total(
                    parts@.take(i as int),
                    |p: SutCost| p.nr_throttled as int,
                ),
                acc.peak_anon_bytes == total(
                    parts@.take(i as int),
                    |p: SutCost| p.peak_anon_bytes as int,
                ),
                acc.peak_charged_bytes == total(
                    parts@.take(i as int),
                    |p: SutCost| p.peak_charged_bytes as int,
                ),
                acc.peak_current_bytes == total(
                    parts@.take(i as int),
                    |p: SutCost| p.peak_current_bytes as int,
                ),
                acc.unreadable == total(parts@.take(i as int), |p: SutCost| p.unreadable as int),
                acc.samples == fewest(parts@.take(i as int)),
            decreases parts.len() - i,
        {
            let ghost next = parts@.take(i + 1);
            assert(next.drop_last() =~= parts@.take(i as int));
            match parts[i] {
                None => {
                    assert(parts@[i as int] is None);
                    return None;
                },
                Some(p) => {
                    proof {
                        lemma_totals_grow(parts@, i + 1);
                    }
                    acc = SutCost {
                        window_ms: if p.window_ms > acc.window_ms {
                            p.window_ms
                        } else {
                            acc.window_ms
                        },
                        cpu_us: acc.cpu_us + p.cpu_us,
                        user_us: acc.user_us + p.user_us,
                        system_us: acc.system_us + p.system_us,
                        throttled_us: acc.throttled_us + p.throttled_us,
                        nr_throttled: acc.nr_throttled + p.nr_throttled,
                        peak_anon_bytes: acc.peak_anon_bytes + p.peak_anon_bytes,
                        peak_charged_bytes: acc.peak_charged_bytes + p.peak_charged_bytes,
                        peak_current_bytes: acc.peak_current_bytes + p.peak_current_bytes,
                        samples: if i == 0 || p.samples < acc.samples {
                            p.samples
                        } else {
                            acc.samples
                        },
                        unreadable: acc.unreadable + p.unreadable,
                    };
                    assert forall|j: int| 0 <= j < next.len() implies (#[trigger] next[j]) is Some by {
                        if j < i {
                            assert(next[j] == parts@.take(i as int)[j]);
                        }
                    }
                },
            }
            i = i + 1;
        }
        assert(parts@.take(parts@.len() as int) =~= parts@);
        if acc.window_ms == 0 {
            return None;
        }
        Some(acc)
    }
}

proof fn lemma_total_grows(parts: Seq<Option<SutCost>>, k: int, f: spec_fn(SutCost) -> int)
    requires
        0 <= k <= parts.len(),
        forall|p: SutCost| #[trigger] f(p) >= 0,
    ensures
        total(parts.take(k), f) <= total(parts, f),
    decreases parts.len() - k,
{
    if k < parts.len() {
        lemma_total_grows(parts, k + 1, f);
        assert(parts.take(k + 1).drop_last() =~= parts.take(k));
    } else {
        assert(parts.take(k) =~= parts);
    }
}

proof fn lemma_totals_grow(parts: Seq<Option<SutCost>>, k: int)
    requires
        0 <= k <= parts.len(),
        SutCost::fits(parts),
    ensures
        SutCost::fits(parts.take(k)),
{
    lemma_total_grows(parts, k, |p: SutCost| p.cpu_us as int);
    lemma_total_grows(parts, k, |p: SutCost| p.user_us as int);
    lemma_total_grows(parts, k, |p: SutCost| p.system_us as int);
    lemma_total_grows(parts, k, |p: SutCost| p.throttled_us as int);
    lemma_total_grows(parts, k, |p: SutCost| p.nr_throttled as int);
    lemma_total_grows(parts, k, |p: SutCost| p.peak_anon_bytes as int);
    lemma_total_grows(parts, k, |p: SutCost| p.peak_charged_bytes as int);
    lemma_total_grows(parts, k, |p: SutCost| p.peak_current_bytes as int);
    lemma_total_grows(parts, k, |p: SutCost| p.unreadable as int);
}

/// Costs that single containers reported always add up.
pub proof fn readings_fit(parts: Seq<Option<SutCost>>)
    requires
        parts.len() <= usize::MAX,
        forall|i: int| 0 <= i < parts.len() ==> ((#[trigger] parts[i]) matches Some(p) ==> p.is_reading()),
    ensures
        SutCost::fits(parts),
{
    lemma_total_bounded(parts, |p: SutCost| p.cpu_us as int);
    lemma_total_bounded(parts, |p: SutCost| p.user_us as int);
    lemma_total_bounded(parts, |p: SutCost| p.system_us as int);
    lemma_total_bounded(parts, |p: SutCost| p.throttled_us as int);
    lemma_total_bounded(parts, |p: SutCost| p.nr_throttled as int);
    lemma_total_bounded(parts, |p: SutCost| p.peak_anon_bytes as int);
    lemma_total_bounded(parts, |p: SutCost| p.peak_charged_bytes as int);
    lemma_total_bounded(parts, |p: SutCost| p.peak_current_bytes as int);
    lemma_total_bounded(parts, |p: SutCost| p.unreadable as int);
    assert(parts.len() * 0xffff_ffff_ffff_ffff <= 0xffff_ffff_ffff_ffff * 0xffff_ffff_ffff_ffff)
        by (nonlinear_arith)
        requires
            parts.len() <= 0xffff_ffff_ffff_ffff,
    ;
}

proof fn lemma_total_bounded(parts: Seq<Option<SutCost>>, f: spec_fn(SutCost) -> int)
    requires
        forall|i: int| 0 <= i < parts.len() ==> ((#[trigger] parts[i]) matches Some(p) ==> f(p) <= u64::MAX),
    ensures
        total(parts, f) <= parts.len() * 0xffff_ffff_ffff_ffff,
    decreases parts.len(),
{
    if parts.len() > 0 {
        let before = parts.drop_last();
        assert forall|i: int| 0 <= i < before.len() implies ((#[trigger] before[i]) matches Some(p)
            ==> f(p) <= u64::MAX) by {
            assert(before[i] == parts[i]);
        }
        lemma_total_bounded(before, f);
        assert(parts[parts.len() - 1] == parts.last());
    }
}

// ---------------------------------------------------------------------------
// Rates
// ---------------------------------------------------------------------------

impl SutCost {
    /// The window in seconds.
    pub open spec fn seconds(self) -> Double {
        double::of(self.window_ms as nat).over(double::of(1000))
    }

    /// The window in seconds.
    pub fn window_s(&self) -> (r: Double)
        ensures
            r == self.seconds(),
    {
        Double::of(self.window_ms as u128).divide(Double::of(1000))
    }

    /// Mean cores occupied: CPU time over the window.
    pub open spec fn cores(self) -> Double {
        double::of(self.cpu_us as nat).over(self.seconds().times(double::of(1_000_000)))
    }

    /// Mean cores occupied: CPU time over the window.
    pub fn cores_used(&self) -> (r: Double)
        ensures
            r == self.cores(),
    {
        Double::of(self.cpu_us).divide(self.window_s().multiply(Double::of(1_000_000)))
    }

    /// CPU microseconds per row, which is no number where there is no row to
    /// charge.
    pub open spec fn per_row(self, rows: u64) -> Double {
        if rows == 0 {
            Double::NaN
        } else {
            double::of(self.cpu_us as nat).over(double::of(rows as nat))
        }
    }

    /// CPU microseconds per row landed.
    pub fn cpu_us_per_row(&self, rows: u64) -> (r: Double)
        ensures
            r == self.per_row(rows),
    {
        if rows == 0 {
            Double::NaN
        } else {
            Double::of(self.cpu_us).divide(Double::of(rows as u128))
        }
    }

    /// Rows per second over this window, and zero where no window is open.
    pub open spec fn throughput(self, rows: u64) -> Double {
        if self.window_ms == 0 {
            Double::zero(false)
        } else {
            double::of(rows as nat).over(self.seconds())
        }
    }

    /// Rows per second over this window.
    ///
    /// The caller is given no other interval to divide by: a throughput over
    /// one interval beside a core count over another would make the record
    /// contradict itself.
    pub fn rows_per_s(&self, rows: u64) -> (r: Double)
        ensures
            r == self.throughput(rows),
    {
        if self.window_ms == 0 {
            Double::nothing()
        } else {
            Double::of(rows as u128).divide(self.window_s())
        }
    }

    /// Whether the CPU cap was a binding constraint.
    pub fn was_throttled(&self) -> (r: bool)
        ensures
            r == (self.nr_throttled > 0),
    {
        self.nr_throttled > 0
    }
}

proof fn lemma_unit_is_large()
    ensures
        double::one_in_units() >= 0x1_0000_0000_0000_0000_0000_0000_0000_0000_0000_0000_0000_0000_0000_0000_0000_0000int,
        big::two(256) >= 0x1_0000_0000_0000_0000_0000_0000_0000_0000_0000_0000_0000_0000_0000_0000_0000_0000int,
{
    big::lemma_two_small();
    big::lemma_two_add(63, 1);
    big::lemma_two_add(64, 64);
    big::lemma_two_add(128, 128);
    big::lemma_two_add(256, 818);
    big::lemma_two_add(818, 0);
    let (x, y) = (big::two(64), big::two(128));
    assert(x * x == 0x1_0000_0000_0000_0000_0000_0000_0000_0000int) by (nonlinear_arith)
        requires
            x == 0x1_0000_0000_0000_0000,
    ;
    assert(y * y
        == 0x1_0000_0000_0000_0000_0000_0000_0000_0000_0000_0000_0000_0000_0000_0000_0000_0000int)
        by (nonlinear_arith)
        requires
            y == 0x1_0000_0000_0000_0000_0000_0000_0000_0000int,
    ;
    let (a, b) = (big::two(256), big::two(818));
    assert(a * b >= a) by (nonlinear_arith)
        requires
            b >= 1,
            a >= 0,
    ;
}

/// How the roundings between the three figures add up.
proof fn lemma_roundings(k: int, p: int, r: int, s: int, d: int, c: int, n: int, u: int)
    requires
        k >= 0,
        p >= 0,
        r >= 0,
        s > 0,
        c >= 0,
        n > 0,
        u > 0,
        0x1f_ffff_ffff_ffff * (c * u) <= 0x20_0000_0000_0000 * (p * n) <= 0x20_0000_0000_0001 * (c
            * u),
        0x1f_ffff_ffff_ffff * (n * u) <= 0x20_0000_0000_0000 * (r * s) <= 0x20_0000_0000_0001 * (n
            * u),
        0x1f_ffff_ffff_ffff * (c * u) <= 0x20_0000_0000_0000 * (k * d) <= 0x20_0000_0000_0001 * (c
            * u),
        0x1f_ffff_ffff_ffff * (s * 1_000_000) <= 0x20_0000_0000_0000 * d <= 0x20_0000_0000_0001 * (s
            * 1_000_000),
    ensures
        0x3_ffff_ffff_ffff * (p * r) <= 0x4_0000_0000_0000 * (k * 1_000_000 * u)
            <= 0x4_0000_0000_0001 * (p * r),
{
    // Everything is brought to the same product: times `s`, over `n`.
    let x = c * u * u;
    let a = p * r * s;
    let b = k * 1_000_000 * u * s;
    let e = p * n * u;
    let f = k * d * u;
    assert(0x1f_ffff_ffff_ffff * x <= 0x20_0000_0000_0000 * e <= 0x20_0000_0000_0001 * x)
        by (nonlinear_arith)
        requires
            0x1f_ffff_ffff_ffff * (c * u) <= 0x20_0000_0000_0000 * (p * n) <= 0x20_0000_0000_0001
                * (c * u),
            x == c * u * u,
            e == p * n * u,
            u > 0,
    ;
    assert(0x1f_ffff_ffff_ffff * e <= 0x20_0000_0000_0000 * a <= 0x20_0000_0000_0001 * e)
        by (nonlinear_arith)
        requires
            0x1f_ffff_ffff_ffff * (n * u) <= 0x20_0000_0000_0000 * (r * s) <= 0x20_0000_0000_0001
                * (n * u),
            a == p * r * s,
            e == p * n * u,
            p >= 0,
    ;
    assert(0x1f_ffff_ffff_ffff * x <= 0x20_0000_0000_0000 * f <= 0x20_0000_0000_0001 * x)
        by (nonlinear_arith)
        requires
            0x1f_ffff_ffff_ffff * (c * u) <= 0x20_0000_0000_0000 * (k * d) <= 0x20_0000_0000_0001
                * (c * u),
            x == c * u * u,
            f == k * d * u,
            u > 0,
    ;
    let y = k * u;
    assert(0x1f_ffff_ffff_ffff * b <= 0x20_0000_0000_0000 * f <= 0x20_0000_0000_0001 * b) by {
        assert(y >= 0) by (nonlinear_arith)
            requires
                y == k * u,
                k >= 0,
                u > 0,
        ;
        assert(b == (s * 1_000_000) * y && f == d * y) by (nonlinear_arith)
            requires
                b == k * 1_000_000 * u * s,
                f == k * d * u,
                y == k * u,
        ;
        let z = s * 1_000_000;
        assert(0x1f_ffff_ffff_ffff * (z * y) <= 0x20_0000_0000_0000 * (d * y)
            <= 0x20_0000_0000_0001 * (z * y)) by (nonlinear_arith)
            requires
                0x1f_ffff_ffff_ffff * z <= 0x20_0000_0000_0000 * d <= 0x20_0000_0000_0001 * z,
                y >= 0,
        ;
    }
    assert(x >= 0) by (nonlinear_arith)
        requires
            x == c * u * u,
            c >= 0,
            u > 0,
    ;
    assert(0x3_ffff_ffff_ffff * a <= 0x4_0000_0000_0000 * b <= 0x4_0000_0000_0001 * a);
    let (g, h) = (p * r, k * 1_000_000 * u);
    assert(0x3_ffff_ffff_ffff * g <= 0x4_0000_0000_0000 * h <= 0x4_0000_0000_0001 * g)
        by (nonlinear_arith)
        requires
            0x3_ffff_ffff_ffff * (g * s) <= 0x4_0000_0000_0000 * (h * s) <= 0x4_0000_0000_0001 * (g
                * s),
            s > 0,
    ;
}

/// The identity that makes a record consistent with itself: the cores that an
/// arm used are its CPU time per row times its rows per second, with the
/// microseconds taken out. It holds of what is published, to one part in `2^50`:
/// the three figures rest on one window, and differ by nothing but what they are
/// rounded by.
pub proof fn cores_are_cost_per_row_times_throughput(cost: SutCost, rows: u64)
    requires
        cost.window_ms > 0,
        rows > 0,
    ensures
        cost.cores() is Finite && cost.per_row(rows) is Finite && cost.throughput(rows) is Finite,
        ({
            let product = cost.per_row(rows).magnitude() * cost.throughput(rows).magnitude();
            let cores = cost.cores().magnitude() * 1_000_000 * double::one_in_units();
            0x3_ffff_ffff_ffff * product <= 0x4_0000_0000_0000 * cores <= 0x4_0000_0000_0001
                * product
        }),
{
    lemma_unit_is_large();
    let u = double::one_in_units();
    let v = big::two(256);
    double::an_integer_is_near_its_double(cost.window_ms as nat);
    double::an_integer_is_near_its_double(rows as nat);
    double::a_small_integer_is_a_double(1000);
    double::a_small_integer_is_a_double(1_000_000);
    let w = double::of(cost.window_ms as nat).magnitude();
    let n = double::of(rows as nat).magnitude();
    let ms = cost.window_ms as int;
    let q = rows as int;
    assert(u <= 2 * w && w <= 0x2_0000_0000_0000_0000 * u) by (nonlinear_arith)
        requires
            ms * u <= 2 * w,
            w <= 2 * (ms * u),
            1 <= ms <= 0xffff_ffff_ffff_ffff,
            u > 0,
    ;
    assert(u <= 2 * n && n <= 0x2_0000_0000_0000_0000 * u) by (nonlinear_arith)
        requires
            q * u <= 2 * n,
            n <= 2 * (q * u),
            1 <= q <= 0xffff_ffff_ffff_ffff,
            u > 0,
    ;
    // The window in seconds.
    let s = cost.seconds().magnitude();
    assert(0x20_0000_0000_0000 * (1000 * u) <= w * u && w * u <= (1000 * u) * (u * v))
        by (nonlinear_arith)
        requires
            u <= 2 * w,
            w <= 0x2_0000_0000_0000_0000 * u,
            u >= 0x1_0000_0000_0000_0000_0000_0000_0000_0000int,
            v >= 0x1_0000_0000_0000_0000_0000_0000_0000_0000int,
    ;
    double::rounding_is_close(false, w * u, 1000 * u);
    assert(500 * s <= w && w <= 2000 * s) by (nonlinear_arith)
        requires
            0x1f_ffff_ffff_ffff * (w * u) <= 0x20_0000_0000_0000 * (s * (1000 * u))
                <= 0x20_0000_0000_0001 * (w * u),
            u > 0,
    ;
    // The window in microseconds.
    let d = cost.seconds().times(double::of(1_000_000)).magnitude();
    let z = s * (1_000_000 * u);
    assert(0x20_0000_0000_0000 * u <= z && z <= u * (u * v)) by (nonlinear_arith)
        requires
            z == s * (1_000_000 * u),
            w <= 2000 * s,
            500 * s <= w,
            u <= 2 * w,
            w <= 0x2_0000_0000_0000_0000 * u,
            u >= 0x1_0000_0000_0000_0000_0000_0000_0000_0000int,
            v >= 0x1_0000_0000_0000_0000_0000_0000_0000_0000int,
    ;
    double::rounding_is_close(false, z, u);
    assert(0x1f_ffff_ffff_ffff * (s * 1_000_000) <= 0x20_0000_0000_0000 * d
        <= 0x20_0000_0000_0001 * (s * 1_000_000)) by (nonlinear_arith)
        requires
            0x1f_ffff_ffff_ffff * z <= 0x20_0000_0000_0000 * (d * u) <= 0x20_0000_0000_0001 * z,
            z == s * (1_000_000 * u),
            u > 0,
    ;
    // The rows per second.
    let r = cost.throughput(rows).magnitude();
    assert(0x20_0000_0000_0000 * s <= n * u && n * u <= s * (u * v)) by (nonlinear_arith)
        requires
            w <= 2000 * s,
            500 * s <= w,
            u <= 2 * w,
            w <= 0x2_0000_0000_0000_0000 * u,
            u <= 2 * n,
            n <= 0x2_0000_0000_0000_0000 * u,
            u >= 0x1_0000_0000_0000_0000_0000_0000_0000_0000int,
            v >= 0x1_0000_0000_0000_0000_0000_0000_0000_0000int,
    ;
    double::rounding_is_close(false, n * u, s);
    assert(s > 0 && d > 0 && n > 0);
    let (p, k) = (cost.per_row(rows).magnitude(), cost.cores().magnitude());
    if cost.cpu_us == 0 {
        double::a_small_integer_is_a_double(0);
        assert(0 * u == 0) by (nonlinear_arith);
        double::nothing_over_something(false, n);
        double::nothing_over_something(false, d);
        assert(p * r == 0 && k * 1_000_000 * u == 0) by (nonlinear_arith)
            requires
                p == 0,
                k == 0,
        ;
    } else {
        double::an_integer_is_near_its_double(cost.cpu_us as nat);
        let c = double::of(cost.cpu_us as nat).magnitude();
        let us = cost.cpu_us as int;
        assert(u <= 2 * c && c <= 0x2_0000_0000_0000_0000_0000_0000_0000_0000int * u)
            by (nonlinear_arith)
            requires
                us * u <= 2 * c,
                c <= 2 * (us * u),
                1 <= us <= 0xffff_ffff_ffff_ffff_ffff_ffff_ffff_ffff,
                u > 0,
        ;
        assert(0x20_0000_0000_0000 * n <= c * u && c * u <= n * (u * v)) by (nonlinear_arith)
            requires
                u <= 2 * c,
                c <= 0x2_0000_0000_0000_0000_0000_0000_0000_0000int * u,
                u <= 2 * n,
                n <= 0x2_0000_0000_0000_0000 * u,
                u >= 0x1_0000_0000_0000_0000_0000_0000_0000_0000int,
                v >= 0x1_0000_0000_0000_0000_0000_0000_0000_0000_0000_0000_0000_0000_0000_0000_0000_0000int,
        ;
        double::rounding_is_close(false, c * u, n);
        assert(u <= 4 * d && d <= 0x1_0000_0000_0000_0000_0000 * u) by {
            assert(d <= 2 * (s * 1_000_000) && s * 1_000_000 <= 2 * d);
        }
        assert(0x20_0000_0000_0000 * d <= c * u && c * u <= d * (u * v)) by (nonlinear_arith)
            requires
                u <= 2 * c,
                c <= 0x2_0000_0000_0000_0000_0000_0000_0000_0000int * u,
                u <= 4 * d,
                d <= 0x1_0000_0000_0000_0000_0000 * u,
                u >= 0x1_0000_0000_0000_0000_0000_0000_0000_0000_0000_0000_0000_0000_0000_0000_0000_0000int,
                v >= 0x1_0000_0000_0000_0000_0000_0000_0000_0000_0000_0000_0000_0000_0000_0000_0000_0000int,
        ;
        double::rounding_is_close(false, c * u, d);
        lemma_roundings(
            k as int,
            p as int,
            r as int,
            s as int,
            d as int,
            c as int,
            n as int,
            u as int,
        );
    }
}

/// Every rate of a cost is the quotient of its counts, apart from its rounding: the
/// seconds are the milliseconds over a thousand, the cores the CPU microseconds
/// over the window's, the throughput the rows over the seconds, and the cost per
/// row the CPU microseconds over the rows.
pub proof fn every_rate_is_its_quotient(cost: SutCost, rows: u64)
    requires
        cost.window_ms > 0,
    ensures
        about::within(cost.seconds(), cost.window_ms as nat, 1000, 6),
        about::within(cost.cores(), cost.cpu_us as nat, cost.window_ms as nat * 1000, 15),
        about::within(cost.throughput(rows), rows as nat * 1000, cost.window_ms as nat, 11),
        rows > 0 ==> about::within(cost.per_row(rows), cost.cpu_us as nat, rows as nat, 6),
{
    let (c, w, n) = (cost.cpu_us as nat, cost.window_ms as nat, rows as nat);
    about::a_ratio_of_counts(w, 1000);
    about::a_count(1_000_000);
    about::counts_are_moderate(w * 1_000_000, 1000 * 1);
    about::a_product_is_about(cost.seconds(), w, 1000, 6, double::of(1_000_000), 1_000_000, 1, 1);
    about::a_count(c);
    let d = cost.seconds().times(double::of(1_000_000));
    if c > 0 {
        about::counts_are_moderate(c * (1000 * 1), 1 * (w * 1_000_000));
    }
    about::a_quotient_is_about(double::of(c), c, 1, 1, d, w * 1_000_000, 1000 * 1, 10);
    assert((c * (1000 * 1)) * (w * 1000) == (1 * (w * 1_000_000)) * c) by (nonlinear_arith);
    about::the_same_ratio(
        cost.cores(),
        c * (1000 * 1),
        1 * (w * 1_000_000),
        c,
        w * 1000,
        15,
    );
    about::a_count(n);
    if n > 0 {
        about::counts_are_moderate(n * 1000, 1 * w);
        about::a_ratio_of_counts(c, n);
    }
    about::a_quotient_is_about(double::of(n), n, 1, 1, cost.seconds(), w, 1000, 6);
    assert(1 * w == w);
}

/// An arm of one container costs what its container costs.
pub proof fn one_container_is_the_arm(cost: SutCost)
    requires
        cost.window_ms > 0,
    ensures
        SutCost::summed(seq![Some(cost)]) == Some(cost),
{
    let parts = seq![Some(cost)];
    assert(parts.drop_last() =~= Seq::empty());
    assert(parts[0] == Some(cost));
    reveal_with_fuel(total, 2);
    reveal_with_fuel(longest, 2);
}

/// An arm that lacks the cost of one container has no cost at all.
pub proof fn a_partial_arm_has_no_cost(parts: Seq<Option<SutCost>>, i: int)
    requires
        0 <= i < parts.len(),
        parts[i] is None,
    ensures
        SutCost::summed(parts) is None,
{
}

/// A reading with an unread counter changes nothing but the count of such
/// readings, wherever in the series it stands.
pub proof fn an_unreadable_row_never_reaches_a_figure(
    before: Seq<Sample>,
    bad: Sample,
    after: Seq<Sample>,
)
    requires
        !bad.is_readable(),
    ensures
        readable_rows(before.push(bad) + after) == readable_rows(before + after),
    decreases after.len(),
{
    if after.len() == 0 {
        assert(before.push(bad) + after =~= before.push(bad));
        assert(before.push(bad).drop_last() =~= before);
        assert(before + after =~= before);
    } else {
        an_unreadable_row_never_reaches_a_figure(before, bad, after.drop_last());
        assert((before.push(bad) + after).drop_last() =~= before.push(bad) + after.drop_last());
        assert((before + after).drop_last() =~= before + after.drop_last());
    }
}

// ---------------------------------------------------------------------------
// Laws: readings and costs
// ---------------------------------------------------------------------------

/// A reading as the sampler writes it: its time, the three CPU times, the two
/// throttling counters, charged and peak memory, and the five parts of it.
pub open spec fn cells_of(s: Sample) -> Seq<Seq<char>> {
    seq![
        text::decimal(s.t_ms as nat),
        text::signed_decimal(s.usage_usec as int),
        text::signed_decimal(s.user_usec as int),
        text::signed_decimal(s.system_usec as int),
        text::signed_decimal(s.nr_throttled as int),
        text::signed_decimal(s.throttled_usec as int),
        text::signed_decimal(s.mem_current as int),
        text::signed_decimal(s.mem_peak as int),
        text::signed_decimal(s.anon as int),
        text::signed_decimal(s.file as int),
        text::signed_decimal(s.slab as int),
        text::signed_decimal(s.kernel_stack as int),
        text::signed_decimal(s.sock as int),
    ]
}

proof fn lemma_signed_cell(n: i64)
    ensures
        ({
            let d = text::signed_decimal(n as int);
            &&& text::parse_i64(text::trim(d)) == Some(n as int)
            &&& forall|k: int| 0 <= k < d.len() ==> #[trigger] d[k] != ','
        }),
{
    let d = text::signed_decimal(n as int);
    text::a_signed_decimal_reads_back(n);
    let m = if n < 0 {
        (-(n as int)) as nat
    } else {
        n as nat
    };
    text::a_decimal_is_a_word(m);
    let w = text::decimal(m);
    assert forall|k: int| 0 <= k < d.len() implies !text::is_space(#[trigger] d[k]) && d[k]
        != ',' by {
        if n < 0 {
            if k > 0 {
                assert(d[k] == w[k - 1]);
            }
        } else {
            assert(d[k] == w[k]);
        }
    }
    text::a_word_is_kept(d);
}

/// What the sampler wrote reads back as the reading that it wrote, each column as
/// the counter that it holds.
pub proof fn a_reading_reads_back(s: Sample)
    requires
        s.t_ms <= i64::MAX,
    ensures
        Sample::parsed(text::join(cells_of(s), ","@)) == Some(s),
{
    let f = cells_of(s);
    reveal_strlit(",");
    assert(","@ =~= seq![',']);
    let v = seq![
        s.t_ms as i64,
        s.usage_usec,
        s.user_usec,
        s.system_usec,
        s.nr_throttled,
        s.throttled_usec,
        s.mem_current,
        s.mem_peak,
        s.anon,
        s.file,
        s.slab,
        s.kernel_stack,
        s.sock,
    ];
    assert(v.len() == 13 && f.len() == 13);
    assert forall|i: int| 0 <= i < 13 implies f[i] == text::signed_decimal(
        #[trigger] v[i] as int,
    ) by {}
    assert forall|i: int, k: int| 0 <= i < f.len() && 0 <= k < f[i].len() implies #[trigger] f[i][k]
        != ',' by {
        assert(f[i] == text::signed_decimal(v[i] as int));
        lemma_signed_cell(v[i]);
    }
    text::pieces_read_back(f, ',');
    assert forall|i: int| 0 <= i < 13 implies #[trigger] column(f, i) == Some(v[i] as int) by {
        assert(f[i] == text::signed_decimal(v[i] as int));
        lemma_signed_cell(v[i]);
    }
    assert(column(f, 0) == Some(s.t_ms as int));
}

/// The first reading and what a window cost make up the last one: each counter that
/// did not fall stands at the end where it stood at the start and its own figure
/// more. The window is the time between the two, every reading is counted once as
/// readable or not, and a peak is what one readable reading held and none exceeded.
pub proof fn a_cost_leads_from_the_first_reading_to_the_last(rows: Seq<Sample>, c: SutCost, i: int)
    requires
        SutCost::summary(rows) == Some(c),
        rows.len() <= usize::MAX,
        0 <= i < readable_rows(rows).len(),
    ensures
        ({
            let r = readable_rows(rows);
            let (a, z) = (r[0], r[r.len() - 1]);
            &&& a.t_ms + c.window_ms == z.t_ms && c.window_ms > 0
            &&& a.usage_usec <= z.usage_usec ==> a.usage_usec + c.cpu_us == z.usage_usec
            &&& a.user_usec <= z.user_usec ==> a.user_usec + c.user_us == z.user_usec
            &&& a.system_usec <= z.system_usec ==> a.system_usec + c.system_us == z.system_usec
            &&& a.throttled_usec <= z.throttled_usec ==> a.throttled_usec + c.throttled_us
                == z.throttled_usec
            &&& a.nr_throttled <= z.nr_throttled ==> a.nr_throttled + c.nr_throttled
                == z.nr_throttled
            &&& a.usage_usec >= z.usage_usec ==> c.cpu_us == 0
            &&& c.samples + c.unreadable == rows.len()
            &&& c.peak_charged_bytes == z.mem_peak
            &&& r[i].anon <= c.peak_anon_bytes
            &&& r[i].mem_current <= c.peak_current_bytes
            &&& exists|k: int| 0 <= k < r.len() && c.peak_anon_bytes == (#[trigger] r[k]).anon
            &&& exists|k: int|
                0 <= k < r.len() && c.peak_current_bytes == (#[trigger] r[k]).mem_current
        }),
{
    let r = readable_rows(rows);
    lemma_readable_rows(rows);
    assert(r[0].is_readable() && r[r.len() - 1].is_readable() && r[i].is_readable());
    let f = |s: Sample| s.anon as int;
    let g = |s: Sample| s.mem_current as int;
    assert forall|k: int| 0 <= k < r.len() implies f(#[trigger] r[k]) >= 0 && g(r[k]) >= 0 by {
        assert(r[k].is_readable());
    }
    lemma_largest(r, f);
    lemma_largest(r, g);
    assert(peak(r, f) == f(r[0]) || true);
    let k = choose|k: int| 0 <= k < r.len() && peak(r, f) == f(#[trigger] r[k]);
    let l = choose|l: int| 0 <= l < r.len() && peak(r, g) == g(#[trigger] r[l]);
    assert(c.peak_anon_bytes == r[k].anon);
    assert(c.peak_current_bytes == r[l].mem_current);
    assert(f(r[i]) <= peak(r, f));
    assert(g(r[i]) <= peak(r, g));
}

proof fn lemma_largest(r: Seq<Sample>, f: spec_fn(Sample) -> int)
    requires
        r.len() > 0,
        forall|k: int| 0 <= k < r.len() ==> f(#[trigger] r[k]) >= 0,
    ensures
        forall|k: int| 0 <= k < r.len() ==> f(#[trigger] r[k]) <= peak(r, f),
        exists|k: int| 0 <= k < r.len() && peak(r, f) == f(#[trigger] r[k]),
    decreases r.len(),
{
    let t = r.drop_last();
    assert(r[r.len() - 1] == r.last());
    if t.len() > 0 {
        assert forall|k: int| 0 <= k < t.len() implies f(#[trigger] t[k]) >= 0 by {
            assert(t[k] == r[k]);
        }
        lemma_largest(t, f);
        let m = choose|k: int| 0 <= k < t.len() && peak(t, f) == f(#[trigger] t[k]);
        assert(r[m] == t[m]);
        assert forall|k: int| 0 <= k < r.len() implies f(#[trigger] r[k]) <= peak(r, f) by {
            if k < t.len() {
                assert(t[k] == r[k]);
            }
        }
    } else {
        assert(peak(t, f) == 0);
    }
}

/// One more container adds its own counts to the arm's, each to its own, and
/// lengthens the window only where its own is longer.
pub proof fn a_container_adds_its_own_cost(
    parts: Seq<Option<SutCost>>,
    all: SutCost,
    one: SutCost,
    sum: SutCost,
)
    requires
        SutCost::fits(parts),
        SutCost::fits(parts.push(Some(one))),
        SutCost::summed(parts) == Some(all),
        SutCost::summed(parts.push(Some(one))) == Some(sum),
    ensures
        sum.cpu_us == all.cpu_us + one.cpu_us,
        sum.user_us == all.user_us + one.user_us,
        sum.system_us == all.system_us + one.system_us,
        sum.throttled_us == all.throttled_us + one.throttled_us,
        sum.nr_throttled == all.nr_throttled + one.nr_throttled,
        sum.peak_anon_bytes == all.peak_anon_bytes + one.peak_anon_bytes,
        sum.peak_charged_bytes == all.peak_charged_bytes + one.peak_charged_bytes,
        sum.peak_current_bytes == all.peak_current_bytes + one.peak_current_bytes,
        sum.unreadable == all.unreadable + one.unreadable,
        sum.window_ms >= all.window_ms && sum.window_ms >= one.window_ms,
        sum.window_ms == all.window_ms || sum.window_ms == one.window_ms,
        sum.samples <= all.samples && sum.samples <= one.samples,
        sum.samples == all.samples || sum.samples == one.samples,
{
    let more = parts.push(Some(one));
    assert(more.drop_last() =~= parts);
    lemma_totals(parts);
    lemma_totals(more);
    lemma_widths(parts);
    lemma_widths(more);
}

proof fn lemma_widths(parts: Seq<Option<SutCost>>)
    requires
        SutCost::all_present(parts),
    ensures
        0 <= longest(parts) <= u64::MAX,
        parts.len() > 0 ==> 0 <= fewest(parts) <= usize::MAX,
    decreases parts.len(),
{
    if parts.len() > 0 {
        assert(parts[parts.len() - 1] is Some);
        assert forall|i: int| 0 <= i < parts.drop_last().len() implies (
        #[trigger] parts.drop_last()[i]) is Some by {
            assert(parts[i] is Some);
        }
        lemma_widths(parts.drop_last());
        assert(parts[0] is Some);
    }
}

proof fn lemma_total_is_natural(parts: Seq<Option<SutCost>>, f: spec_fn(SutCost) -> int)
    requires
        forall|c: SutCost| #[trigger] f(c) >= 0,
    ensures
        total(parts, f) >= 0,
    decreases parts.len(),
{
    if parts.len() > 0 {
        lemma_total_is_natural(parts.drop_last(), f);
    }
}

proof fn lemma_totals(parts: Seq<Option<SutCost>>)
    ensures
        total(parts, |p: SutCost| p.cpu_us as int) >= 0,
        total(parts, |p: SutCost| p.user_us as int) >= 0,
        total(parts, |p: SutCost| p.system_us as int) >= 0,
        total(parts, |p: SutCost| p.throttled_us as int) >= 0,
        total(parts, |p: SutCost| p.nr_throttled as int) >= 0,
        total(parts, |p: SutCost| p.peak_anon_bytes as int) >= 0,
        total(parts, |p: SutCost| p.peak_charged_bytes as int) >= 0,
        total(parts, |p: SutCost| p.peak_current_bytes as int) >= 0,
        total(parts, |p: SutCost| p.unreadable as int) >= 0,
{
    lemma_total_is_natural(parts, |p: SutCost| p.cpu_us as int);
    lemma_total_is_natural(parts, |p: SutCost| p.user_us as int);
    lemma_total_is_natural(parts, |p: SutCost| p.system_us as int);
    lemma_total_is_natural(parts, |p: SutCost| p.throttled_us as int);
    lemma_total_is_natural(parts, |p: SutCost| p.nr_throttled as int);
    lemma_total_is_natural(parts, |p: SutCost| p.peak_anon_bytes as int);
    lemma_total_is_natural(parts, |p: SutCost| p.peak_charged_bytes as int);
    lemma_total_is_natural(parts, |p: SutCost| p.peak_current_bytes as int);
    lemma_total_is_natural(parts, |p: SutCost| p.unreadable as int);
}

// ---------------------------------------------------------------------------
// The footprint of an arm
// ---------------------------------------------------------------------------

/// The readings of each container, as sequences.
pub open spec fn series_of(series: Seq<&[Sample]>) -> Seq<Seq<Sample>> {
    series.map_values(|rows: &[Sample]| rows@)
}

/// The readable rows of each container.
pub open spec fn each_readable(series: Seq<Seq<Sample>>) -> Seq<Seq<Sample>> {
    series.map_values(|rows: Seq<Sample>| readable_rows(rows))
}

/// The earliest first reading of any container.
pub open spec fn earliest(series: Seq<Seq<Sample>>) -> Option<int>
    decreases series.len(),
{
    if series.len() == 0 {
        None
    } else {
        let before = earliest(series.drop_last());
        let rows = series.last();
        if rows.len() == 0 {
            before
        } else if before is Some && before->0 <= rows[0].t_ms {
            before
        } else {
            Some(rows[0].t_ms as int)
        }
    }
}

/// The latest last reading of any container.
pub open spec fn latest(series: Seq<Seq<Sample>>) -> Option<int>
    decreases series.len(),
{
    if series.len() == 0 {
        None
    } else {
        let before = latest(series.drop_last());
        let rows = series.last();
        if rows.len() == 0 {
            before
        } else if before is Some && before->0 >= rows.last().t_ms {
            before
        } else {
            Some(rows.last().t_ms as int)
        }
    }
}

/// How many readings, from the first on, were taken before `edge`.
pub open spec fn reach(rows: Seq<Sample>, edge: int) -> nat
    decreases rows.len(),
{
    if rows.len() == 0 || rows[0].t_ms >= edge {
        0
    } else {
        1 + reach(rows.skip(1), edge)
    }
}

/// What a container held just before `edge`: its last reading, or nothing
/// before its first.
pub open spec fn held(rows: Seq<Sample>, edge: int) -> int {
    let n = reach(rows, edge);
    if n == 0 {
        0
    } else {
        rows[n - 1].anon as int
    }
}

/// What the containers held between them just before `edge`.
pub open spec fn level(series: Seq<Seq<Sample>>, edge: int) -> int
    decreases series.len(),
{
    if series.len() == 0 {
        0
    } else {
        level(series.drop_last(), edge) + held(series.last(), edge)
    }
}

/// Where the interval that starts at `bucket` ends.
pub open spec fn edge_of(bucket: int) -> int {
    if bucket + INTERVAL_MS > u64::MAX {
        u64::MAX as int
    } else {
        bucket + INTERVAL_MS
    }
}

/// The highest level at the end of any interval from `bucket` to `last`.
pub open spec fn highest(series: Seq<Seq<Sample>>, bucket: int, last: int) -> int
    decreases (if bucket <= last { last + 1 - bucket } else { 0 }),
{
    let edge = edge_of(bucket);
    if bucket > last || edge <= bucket {
        0
    } else {
        let here = level(series, edge);
        let later = highest(series, edge, last);
        if here > later {
            here
        } else {
            later
        }
    }
}

/// The most anonymous memory that the containers held at one instant.
pub open spec fn simultaneous_peak(series: Seq<Seq<Sample>>) -> Option<int> {
    let r = each_readable(series);
    if earliest(r) is None {
        None
    } else {
        Some(highest(r, earliest(r)->0, latest(r)->0))
    }
}

proof fn lemma_reach(rows: Seq<Sample>, edge: int, n: nat)
    requires
        n <= rows.len(),
        forall|j: int| 0 <= j < n ==> (#[trigger] rows[j]).t_ms < edge,
        n == rows.len() || rows[n as int].t_ms >= edge,
    ensures
        reach(rows, edge) == n,
    decreases n,
{
    if n > 0 {
        assert(rows[0].t_ms < edge);
        let rest = rows.skip(1);
        assert forall|j: int| 0 <= j < n - 1 implies (#[trigger] rest[j]).t_ms < edge by {
            assert(rest[j] == rows[j + 1]);
        }
        if n < rows.len() {
            assert(rest[n - 1] == rows[n as int]);
        }
        lemma_reach(rest, edge, (n - 1) as nat);
    }
}

proof fn lemma_reach_prefix(rows: Seq<Sample>, edge: int)
    ensures
        reach(rows, edge) <= rows.len(),
        forall|j: int| 0 <= j < reach(rows, edge) ==> (#[trigger] rows[j]).t_ms < edge,
        reach(rows, edge) < rows.len() ==> rows[reach(rows, edge) as int].t_ms >= edge,
    decreases rows.len(),
{
    if rows.len() > 0 && rows[0].t_ms < edge {
        let rest = rows.skip(1);
        lemma_reach_prefix(rest, edge);
        assert forall|j: int| 0 <= j < reach(rows, edge) implies (#[trigger] rows[j]).t_ms
            < edge by {
            if j > 0 {
                assert(rest[j - 1] == rows[j]);
            }
        }
        if reach(rows, edge) < rows.len() {
            assert(rest[reach(rest, edge) as int] == rows[reach(rows, edge) as int]);
        }
    }
}

proof fn lemma_earliest(series: Seq<Seq<Sample>>)
    ensures
        forall|i: int|
            0 <= i < series.len() && (#[trigger] series[i]).len() > 0 ==> earliest(series) is Some
                && earliest(series)->0 <= series[i][0].t_ms,
        (earliest(series) is Some) == (latest(series) is Some),
        earliest(series) matches Some(t) ==> 0 <= t <= u64::MAX,
        latest(series) matches Some(t) ==> 0 <= t <= u64::MAX,
    decreases series.len(),
{
    if series.len() > 0 {
        lemma_earliest(series.drop_last());
        assert forall|i: int| 0 <= i < series.len() && (#[trigger] series[i]).len() > 0 implies
            earliest(series) is Some && earliest(series)->0 <= series[i][0].t_ms by {
            if i < series.len() - 1 {
                assert(series.drop_last()[i] == series[i]);
            }
        }
    }
}

proof fn lemma_level_bounded(series: Seq<Seq<Sample>>, edge: int)
    requires
        forall|i: int, j: int|
            #![trigger series[i][j]]
            0 <= i < series.len() && 0 <= j < series[i].len() ==> series[i][j].is_readable(),
    ensures
        0 <= level(series, edge) <= series.len() * i64::MAX,
    decreases series.len(),
{
    if series.len() > 0 {
        let before = series.drop_last();
        assert forall|i: int, j: int|
            #![trigger before[i][j]]
            0 <= i < before.len() && 0 <= j < before[i].len() implies before[i][j].is_readable() by {
            assert(series[i][j].is_readable());
        }
        lemma_level_bounded(before, edge);
        lemma_reach_prefix(series.last(), edge);
        if reach(series.last(), edge) > 0 {
            assert(series[series.len() - 1][reach(series.last(), edge) - 1].is_readable());
        }
    }
}

/// The most anonymous memory that an arm's containers held at one instant.
///
/// The series are sampled independently, so they are aligned into intervals of
/// [`INTERVAL_MS`]. A container without a reading in an interval counts with its
/// last one, because memory is a level and a gap means "not observed"; before
/// its first reading it counts for nothing. `None` where nothing was read.
pub fn simultaneous_peak_anon(series: &[&[Sample]]) -> (r: Option<u128>)
    requires
        latest(each_readable(series_of(series@))) matches Some(t) ==> t < u64::MAX,
    ensures
        match r {
            Some(p) => simultaneous_peak(series_of(series@)) == Some(p as int),
            None => simultaneous_peak(series_of(series@)) is None,
        },
{
    let ghost rs = each_readable(series_of(series@));
    let mut rows: Vec<Vec<Sample>> = Vec::new();
    let mut first: Option<u64> = None;
    let mut last: Option<u64> = None;
    let mut i: usize = 0;
    while i < series.len()
        invariant
            i <= series.len(),
            rs == each_readable(series_of(series@)),
            rows@.len() == i,
            forall|k: int| 0 <= k < i ==> (#[trigger] rows@[k])@ == rs[k],
            match first {
                Some(t) => earliest(rs.take(i as int)) == Some(t as int),
                None => earliest(rs.take(i as int)) is None,
            },
            match last {
                Some(t) => latest(rs.take(i as int)) == Some(t as int),
                None => latest(rs.take(i as int)) is None,
            },
        decreases series.len() - i,
    {
        assert(rs.take(i + 1).drop_last() =~= rs.take(i as int));
        assert(rs[i as int] == readable_rows(series@[i as int]@));
        let kept = only_readable(series[i]);
        if kept.len() > 0 {
            let t0: u64 = kept[0].t_ms;
            let t1: u64 = kept[kept.len() - 1].t_ms;
            first = match first {
                Some(t) if t <= t0 => Some(t),
                _ => Some(t0),
            };
            last = match last {
                Some(t) if t >= t1 => Some(t),
                _ => Some(t1),
            };
        }
        rows.push(kept);
        i = i + 1;
    }
    assert(rs.take(rs.len() as int) =~= rs);
    proof {
        lemma_earliest(rs);
    }
    let (from, to) = match (first, last) {
        (Some(a), Some(b)) => (a, b),
        _ => return None,
    };
    let n: usize = rows.len();
    let mut cursors: Vec<usize> = Vec::new();
    let mut c: usize = 0;
    while c < n
        invariant
            c <= n,
            cursors@.len() == c,
            forall|k: int| 0 <= k < c ==> cursors@[k] == 0,
        decreases n - c,
    {
        cursors.push(0);
        c = c + 1;
    }
    assert(forall|k: int| 0 <= k < n ==> (#[trigger] rows@[k])@ == rs[k]);
    assert forall|k: int| 0 <= k < n implies #[trigger] cursors@[k] == reach(rs[k], from as int) by {
        if rs[k].len() > 0 {
            assert(earliest(rs)->0 <= rs[k][0].t_ms);
        }
    }
    assert forall|a: int, b: int|
        #![trigger rs[a][b]]
        0 <= a < rs.len() && 0 <= b < rs[a].len() implies rs[a][b].is_readable() by {
        lemma_readable_rows(series_of(series@)[a]);
    }
    let mut peak_so_far: u128 = 0;
    let mut bucket: u64 = from;
    proof {
        lemma_highest_positive(rs, from as int, to as int);
    }
    while bucket <= to
        invariant
            to < u64::MAX,
            n == rows@.len(),
            n == rs.len(),
            cursors@.len() == n,
            forall|k: int| 0 <= k < n ==> (#[trigger] rows@[k])@ == rs[k],
            forall|k: int| 0 <= k < n ==> #[trigger] cursors@[k] == reach(rs[k], bucket as int),
            forall|a: int, b: int|
                #![trigger rs[a][b]]
                0 <= a < rs.len() && 0 <= b < rs[a].len() ==> rs[a][b].is_readable(),
            highest(rs, from as int, to as int) == (if peak_so_far > highest(
                rs,
                bucket as int,
                to as int,
            ) {
                peak_so_far as int
            } else {
                highest(rs, bucket as int, to as int)
            }),
            highest(rs, bucket as int, to as int) >= 0,
        decreases u64::MAX - bucket,
    {
        let edge: u64 = bucket.saturating_add(INTERVAL_MS);
        assert(edge == edge_of(bucket as int));
        let ghost old_cursors = cursors@;
        let mut sum: u128 = 0;
        let mut k: usize = 0;
        while k < n
            invariant
                k <= n,
                bucket <= edge,
                n == rows@.len(),
                n == rs.len(),
                cursors@.len() == n,
                forall|q: int| 0 <= q < n ==> (#[trigger] rows@[q])@ == rs[q],
                forall|q: int|
                    k <= q < n ==> #[trigger] cursors@[q] == reach(rs[q], bucket as int),
                forall|q: int| 0 <= q < k ==> #[trigger] cursors@[q] == reach(rs[q], edge as int),
                forall|a: int, b: int|
                    #![trigger rs[a][b]]
                    0 <= a < rs.len() && 0 <= b < rs[a].len() ==> rs[a][b].is_readable(),
                sum == level(rs.take(k as int), edge as int),
                sum <= k * i64::MAX,
            decreases n - k,
        {
            let ghost row = rs[k as int];
            proof {
                lemma_reach_prefix(row, bucket as int);
            }
            assert(rows@[k as int]@ == row);
            let mut at: usize = cursors[k];
            while at < rows[k].len() && rows[k][at].t_ms < edge
                invariant
                    k < n,
                    n == rows@.len(),
                    rows@[k as int]@ == row,
                    at <= row.len(),
                    forall|j: int| 0 <= j < at ==> (#[trigger] row[j]).t_ms < edge,
                decreases row.len() - at,
            {
                at = at + 1;
            }
            proof {
                lemma_reach(row, edge as int, at as nat);
                assert(rs.take(k + 1).drop_last() =~= rs.take(k as int));
                if at > 0 {
                    assert(rs[k as int][at - 1].is_readable());
                }
            }
            cursors.set(k, at);
            if at > 0 {
                let anon: i64 = rows[k][at - 1].anon;
                assert(rs[k as int][at - 1].is_readable());
                assert(sum + anon <= (k + 1) * i64::MAX);
                assert((k + 1) * i64::MAX <= u128::MAX);
                sum = sum + anon as u128;
            }
            k = k + 1;
        }
        assert(rs.take(n as int) =~= rs);
        proof {
            lemma_highest_positive(rs, edge as int, to as int);
        }
        if sum > peak_so_far {
            peak_so_far = sum;
        }
        bucket = edge;
    }
    Some(peak_so_far)
}

proof fn lemma_highest_positive(series: Seq<Seq<Sample>>, bucket: int, last: int)
    ensures
        highest(series, bucket, last) >= 0,
    decreases (if bucket <= last { last + 1 - bucket } else { 0 }),
{
    let edge = edge_of(bucket);
    if bucket > last || edge <= bucket {
    } else {
        lemma_highest_positive(series, edge, last);
    }
}


/// `peak` bounds every reading and, where there is a positive one, is taken by
/// one of them.
pub proof fn lemma_peak(rows: Seq<Sample>, f: spec_fn(Sample) -> int)
    ensures
        forall|i: int| 0 <= i < rows.len() ==> f(#[trigger] rows[i]) <= peak(rows, f),
        peak(rows, f) >= 0,
        peak(rows, f) > 0 ==> exists|i: int| 0 <= i < rows.len() && f(#[trigger] rows[i]) == peak(rows, f),
    decreases rows.len(),
{
    if rows.len() > 0 {
        let before = rows.drop_last();
        lemma_peak(before, f);
        assert forall|i: int| 0 <= i < rows.len() implies f(#[trigger] rows[i]) <= peak(rows, f) by {
            if i < rows.len() - 1 {
                assert(before[i] == rows[i]);
            }
        }
        if peak(rows, f) > 0 {
            if f(rows.last()) > peak(before, f) {
                assert(f(rows[rows.len() - 1]) == peak(rows, f));
            } else {
                let i = choose|i: int| 0 <= i < before.len() && f(#[trigger] before[i]) == peak(before, f);
                assert(f(rows[i]) == peak(rows, f));
            }
        }
    }
}

/// The sum over the containers of each one's own largest anonymous memory.
pub open spec fn sum_of_peaks(series: Seq<Seq<Sample>>) -> int
    decreases series.len(),
{
    if series.len() == 0 {
        0
    } else {
        sum_of_peaks(series.drop_last()) + peak(series.last(), |s: Sample| s.anon as int)
    }
}

proof fn lemma_level_under_peaks(series: Seq<Seq<Sample>>, edge: int)
    ensures
        level(series, edge) <= sum_of_peaks(series),
        sum_of_peaks(series) >= 0,
    decreases series.len(),
{
    if series.len() > 0 {
        lemma_level_under_peaks(series.drop_last(), edge);
        let rows = series.last();
        lemma_peak(rows, |s: Sample| s.anon as int);
        lemma_reach_prefix(rows, edge);
    }
}

proof fn lemma_highest_under_peaks(series: Seq<Seq<Sample>>, bucket: int, last: int)
    ensures
        highest(series, bucket, last) <= sum_of_peaks(series),
    decreases (if bucket <= last { last + 1 - bucket } else { 0 }),
{
    let edge = edge_of(bucket);
    lemma_level_under_peaks(series, edge);
    if bucket > last || edge <= bucket {
    } else {
        lemma_highest_under_peaks(series, edge, last);
    }
}

/// What the containers of an arm held at one instant is never more than the sum
/// of what each of them held at its own peak.
pub proof fn an_arm_never_holds_more_than_its_peaks_add_up_to(series: Seq<Seq<Sample>>)
    ensures
        simultaneous_peak(series) matches Some(p) ==> p <= sum_of_peaks(each_readable(series)),
{
    let r = each_readable(series);
    if earliest(r) is Some {
        lemma_highest_under_peaks(r, earliest(r)->0, latest(r)->0);
    }
}

proof fn lemma_highest_reaches(series: Seq<Seq<Sample>>, bucket: int, last: int, at: int)
    requires
        0 <= bucket <= at <= last < u64::MAX,
        (at - bucket) % (INTERVAL_MS as int) == 0,
    ensures
        highest(series, bucket, last) >= level(series, edge_of(at)),
    decreases at - bucket,
{
    if bucket < at {
        assert(at - bucket >= INTERVAL_MS);
        lemma_highest_reaches(series, bucket + INTERVAL_MS, last, at);
    }
}

/// The footprint of an arm of one container is that container's own largest
/// reading, as long as no two readings stand closer than the sampling interval.
pub proof fn one_containers_footprint_is_its_own_peak(rows: Seq<Sample>)
    requires
        readable_rows(rows).len() > 0,
        readable_rows(rows).last().t_ms < u64::MAX,
        forall|i: int, j: int|
            0 <= i < j < readable_rows(rows).len() ==> (#[trigger] readable_rows(rows)[i]).t_ms
                + INTERVAL_MS <= (#[trigger] readable_rows(rows)[j]).t_ms,
    ensures
        simultaneous_peak(seq![rows]) == Some(
            peak(readable_rows(rows), |s: Sample| s.anon as int),
        ),
{
    let r = readable_rows(rows);
    let series = each_readable(seq![rows]);
    let f = |s: Sample| s.anon as int;
    assert(series =~= seq![r]);
    assert(series.drop_last() =~= Seq::empty());
    let first = r[0].t_ms as int;
    let last = r.last().t_ms as int;
    assert(earliest(series.drop_last()) is None && latest(series.drop_last()) is None);
    assert(earliest(series) == Some(first));
    assert(latest(series) == Some(last));
    lemma_highest_under_peaks(series, first, last);
    assert(sum_of_peaks(series.drop_last()) == 0);
    assert(sum_of_peaks(series) == peak(r, f));
    lemma_peak(r, f);
    lemma_highest_positive(series, first, last);
    if peak(r, f) > 0 {
        let j = choose|j: int| 0 <= j < r.len() && f(#[trigger] r[j]) == peak(r, f);
        let t = r[j].t_ms as int;
        assert(first <= t <= last) by {
            if j > 0 {
                assert(r[0].t_ms + INTERVAL_MS <= r[j].t_ms);
            }
            if j < r.len() - 1 {
                assert(r[j].t_ms + INTERVAL_MS <= r[r.len() - 1].t_ms);
            }
        }
        let at = t - (t - first) % (INTERVAL_MS as int);
        lemma_highest_reaches(series, first, last, at);
        let edge = edge_of(at);
        assert forall|k: int| 0 <= k < j + 1 implies (#[trigger] r[k]).t_ms < edge by {
            if k < j {
                assert(r[k].t_ms + INTERVAL_MS <= r[j].t_ms);
            }
        }
        if j + 1 < r.len() {
            assert(r[j].t_ms + INTERVAL_MS <= r[j + 1].t_ms);
        }
        lemma_reach(r, edge, (j + 1) as nat);
        assert(held(r, edge) == r[j].anon);
        assert(level(series.drop_last(), edge) == 0);
        assert(level(series, edge) == peak(r, f));
    }
}

/// An arm has no footprint exactly where none of its containers was read.
pub proof fn an_unread_arm_has_no_footprint(series: Seq<Seq<Sample>>)
    ensures
        (simultaneous_peak(series) is None) == (forall|c: int|
            0 <= c < series.len() ==> readable_rows(#[trigger] series[c]).len() == 0),
    decreases series.len(),
{
    if series.len() > 0 {
        let before = series.drop_last();
        an_unread_arm_has_no_footprint(before);
        assert(each_readable(series).drop_last() =~= each_readable(before));
        assert(each_readable(series).last() == readable_rows(series.last()));
        assert(series[series.len() - 1] == series.last());
        assert(forall|c: int| 0 <= c < before.len() ==> #[trigger] before[c] == series[c]);
        if simultaneous_peak(series) is None {
            assert forall|c: int| 0 <= c < series.len() implies readable_rows(
                #[trigger] series[c],
            ).len() == 0 by {
                if c < before.len() {
                    assert(before[c] == series[c]);
                }
            }
        } else if readable_rows(series.last()).len() == 0 {
            let c = choose|c: int|
                0 <= c < before.len() && readable_rows(#[trigger] before[c]).len() != 0;
            assert(series[c] == before[c]);
        }
    }
}

proof fn lemma_latest(series: Seq<Seq<Sample>>)
    ensures
        forall|i: int|
            0 <= i < series.len() && (#[trigger] series[i]).len() > 0 ==> latest(series) is Some
                && latest(series)->0 >= series[i].last().t_ms,
    decreases series.len(),
{
    if series.len() > 0 {
        lemma_latest(series.drop_last());
        assert forall|i: int| 0 <= i < series.len() && (#[trigger] series[i]).len() > 0 implies
            latest(series) is Some && latest(series)->0 >= series[i].last().t_ms by {
            if i < series.len() - 1 {
                assert(series.drop_last()[i] == series[i]);
            }
        }
    }
}

proof fn lemma_level_holds_each(series: Seq<Seq<Sample>>, edge: int, c: int)
    requires
        0 <= c < series.len(),
        forall|i: int, j: int|
            #![trigger series[i][j]]
            0 <= i < series.len() && 0 <= j < series[i].len() ==> series[i][j].is_readable(),
    ensures
        level(series, edge) >= held(series[c], edge),
    decreases series.len(),
{
    let before = series.drop_last();
    assert forall|i: int, j: int|
        #![trigger before[i][j]]
        0 <= i < before.len() && 0 <= j < before[i].len() implies before[i][j].is_readable() by {
        assert(series[i][j].is_readable());
    }
    lemma_level_bounded(before, edge);
    if c < before.len() {
        lemma_level_holds_each(before, edge, c);
        assert(before[c] == series[c]);
        lemma_reach_prefix(series.last(), edge);
        if reach(series.last(), edge) > 0 {
            assert(series[series.len() - 1][reach(series.last(), edge) - 1].is_readable());
        }
    }
}

/// An arm held at some instant at least what any reading of any of its
/// containers says, as long as no two readings of that container stand closer
/// than the sampling interval.
pub proof fn an_arm_holds_at_least_every_reading(series: Seq<Seq<Sample>>, c: int, j: int)
    requires
        0 <= c < series.len(),
        0 <= j < readable_rows(series[c]).len(),
        latest(each_readable(series))->0 < u64::MAX,
        forall|a: int, b: int|
            0 <= a < b < readable_rows(series[c]).len() ==> (#[trigger] readable_rows(
                series[c],
            )[a]).t_ms + INTERVAL_MS <= (#[trigger] readable_rows(series[c])[b]).t_ms,
    ensures
        simultaneous_peak(series) is Some,
        simultaneous_peak(series)->0 >= readable_rows(series[c])[j].anon,
{
    let all = each_readable(series);
    let r = readable_rows(series[c]);
    assert(all[c] == r);
    lemma_earliest(all);
    lemma_latest(all);
    let first = earliest(all)->0;
    let last = latest(all)->0;
    let t = r[j].t_ms as int;
    assert(first <= t <= last) by {
        assert(all[c].len() > 0);
        if j > 0 {
            assert(r[0].t_ms + INTERVAL_MS <= r[j].t_ms);
        }
        if j < r.len() - 1 {
            assert(r[j].t_ms + INTERVAL_MS <= r[r.len() - 1].t_ms);
        }
    }
    let at = t - (t - first) % (INTERVAL_MS as int);
    lemma_highest_reaches(all, first, last, at);
    let edge = edge_of(at);
    assert forall|k: int| 0 <= k < j + 1 implies (#[trigger] r[k]).t_ms < edge by {
        if k < j {
            assert(r[k].t_ms + INTERVAL_MS <= r[j].t_ms);
        }
    }
    if j + 1 < r.len() {
        assert(r[j].t_ms + INTERVAL_MS <= r[j + 1].t_ms);
    }
    lemma_reach(r, edge, (j + 1) as nat);
    assert forall|a: int, b: int|
        #![trigger all[a][b]]
        0 <= a < all.len() && 0 <= b < all[a].len() implies all[a][b].is_readable() by {
        lemma_readable_rows(series[a]);
    }
    lemma_level_holds_each(all, edge, c);
}

/// The earlier of two instants, where there are two.
pub open spec fn sooner(a: Option<int>, b: Option<int>) -> Option<int> {
    match (a, b) {
        (Some(x), Some(y)) => Some(
            if x <= y {
                x
            } else {
                y
            },
        ),
        (Some(_), None) => a,
        _ => b,
    }
}

/// The later of two instants, where there are two.
pub open spec fn later(a: Option<int>, b: Option<int>) -> Option<int> {
    match (a, b) {
        (Some(x), Some(y)) => Some(
            if x >= y {
                x
            } else {
                y
            },
        ),
        (Some(_), None) => a,
        _ => b,
    }
}

/// When a container was first read.
pub open spec fn start_of(rows: Seq<Sample>) -> Option<int> {
    if rows.len() == 0 {
        None
    } else {
        Some(rows[0].t_ms as int)
    }
}

/// When a container was last read.
pub open spec fn end_of(rows: Seq<Sample>) -> Option<int> {
    if rows.len() == 0 {
        None
    } else {
        Some(rows.last().t_ms as int)
    }
}

proof fn lemma_without(series: Seq<Seq<Sample>>, k: int, edge: int)
    requires
        0 <= k < series.len(),
    ensures
        level(series, edge) == level(series.remove(k), edge) + held(series[k], edge),
        earliest(series) == sooner(earliest(series.remove(k)), start_of(series[k])),
        latest(series) == later(latest(series.remove(k)), end_of(series[k])),
    decreases series.len(),
{
    let before = series.drop_last();
    if k == series.len() - 1 {
        assert(series.remove(k) =~= before);
    } else {
        lemma_without(before, k, edge);
        assert(before[k] == series[k]);
        assert(series.remove(k).drop_last() =~= before.remove(k));
        assert(series.remove(k).last() == series.last());
    }
}

proof fn lemma_reordered(a: Seq<Seq<Sample>>, b: Seq<Seq<Sample>>, edge: int)
    requires
        a.to_multiset() == b.to_multiset(),
    ensures
        level(each_readable(a), edge) == level(each_readable(b), edge),
        earliest(each_readable(a)) == earliest(each_readable(b)),
        latest(each_readable(a)) == latest(each_readable(b)),
    decreases a.len(),
{
    broadcast use vstd::seq_lib::group_to_multiset_ensures;

    assert(a.len() == a.to_multiset().len() && b.len() == b.to_multiset().len());
    if a.len() == 0 {
        assert(each_readable(a) =~= each_readable(b));
    } else {
        let last = a.len() - 1;
        let x = a[last];
        assert(a.contains(x));
        assert(b.to_multiset().count(x) > 0);
        assert(b.contains(x));
        let k = choose|k: int| 0 <= k < b.len() && b[k] == x;
        assert(a.remove(last).to_multiset() =~= b.remove(k).to_multiset());
        lemma_reordered(a.remove(last), b.remove(k), edge);
        let ra = each_readable(a);
        let rb = each_readable(b);
        assert(ra.remove(last) =~= each_readable(a.remove(last)));
        assert(rb.remove(k) =~= each_readable(b.remove(k)));
        assert(ra[last] == rb[k]);
        lemma_without(ra, last, edge);
        lemma_without(rb, k, edge);
    }
}

proof fn lemma_highest_alike(
    a: Seq<Seq<Sample>>,
    b: Seq<Seq<Sample>>,
    bucket: int,
    last: int,
)
    requires
        forall|edge: int| #[trigger] level(a, edge) == level(b, edge),
    ensures
        highest(a, bucket, last) == highest(b, bucket, last),
    decreases (if bucket <= last { last + 1 - bucket } else { 0 }),
{
    let edge = edge_of(bucket);
    assert(level(a, edge) == level(b, edge));
    if !(bucket > last || edge <= bucket) {
        lemma_highest_alike(a, b, edge, last);
    }
}

/// The order of the containers is no part of the footprint.
pub proof fn the_order_of_the_containers_is_no_matter(a: Seq<Seq<Sample>>, b: Seq<Seq<Sample>>)
    requires
        a.to_multiset() == b.to_multiset(),
    ensures
        simultaneous_peak(a) == simultaneous_peak(b),
{
    let ra = each_readable(a);
    let rb = each_readable(b);
    assert forall|edge: int| #[trigger] level(ra, edge) == level(rb, edge) by {
        lemma_reordered(a, b, edge);
    }
    lemma_reordered(a, b, 0);
    if earliest(ra) is Some {
        lemma_highest_alike(ra, rb, earliest(ra)->0, latest(ra)->0);
    }
}

proof fn lemma_readable_twice(rows: Seq<Sample>)
    ensures
        readable_rows(readable_rows(rows)) == readable_rows(rows),
    decreases rows.len(),
{
    if rows.len() > 0 {
        let before = rows.drop_last();
        lemma_readable_twice(before);
        if rows.last().is_readable() {
            let r = readable_rows(rows);
            assert(r.drop_last() =~= readable_rows(before));
            assert(r.last() == rows.last());
        }
    }
}

/// Readings that could not be taken are no part of the footprint: it is the same
/// without them.
pub proof fn unreadable_readings_leave_the_footprint_alone(series: Seq<Seq<Sample>>)
    ensures
        simultaneous_peak(each_readable(series)) == simultaneous_peak(series),
{
    let r = each_readable(series);
    assert forall|c: int| 0 <= c < series.len() implies #[trigger] each_readable(r)[c] == r[c] by {
        lemma_readable_twice(series[c]);
    }
    assert(each_readable(r) =~= r);
}

// ---------------------------------------------------------------------------
// One arm at a time
// ---------------------------------------------------------------------------

/// The exclusive right to run one arm against the shared infrastructure.
#[derive(Debug)]
pub struct ArmLock {
    /// The file that stands for the right.
    pub path: String,
}

/// How an attempt to create the lock file went.
pub enum LockAttempt {
    /// The file was created, so the right is held.
    Created,
    /// The file was there, holding this text.
    Exists {
        /// What the file holds.
        held: String,
        /// Whether the process it names is alive.
        holder_alive: bool,
    },
    /// The file could be neither created nor found, for this reason.
    Failed(String),
}

/// What to do after an attempt.
pub enum LockAction {
    /// Write this text into the file and run.
    Hold(String),
    /// Remove the file and try again.
    Reclaim,
    /// Do not run, for this reason.
    Refuse(String),
}

impl ArmLock {
    /// The process that the text of a lock file names.
    pub open spec fn holder(held: Seq<char>) -> Option<nat> {
        let w = text::words(held);
        if w.len() == 0 {
            None
        } else {
            text::parse_u32(w[0])
        }
    }

    /// The process that the text of a lock file names.
    pub fn holder_pid(held: &str) -> (r: Option<u32>)
        ensures
            match r {
                Some(p) => ArmLock::holder(held@) == Some(p as nat),
                None => ArmLock::holder(held@) is None,
            },
    {
        let chars = text::chars_of(held);
        let w = text::split_words(chars.as_slice());
        assert(text::views(w@) == text::words(held@));
        if w.len() == 0 {
            None
        } else {
            assert(text::words(held@)[0] == w@[0]@);
            text::to_u32(w[0])
        }
    }

    /// The refusal that names the current holder.
    pub open spec fn held_refusal(held: Seq<char>) -> Seq<char> {
        "another arm holds "@ + LOCK_PATH@ + ": "@ + text::trim(held)
            + ". Arms MUST run one at a time — they share one Redpanda and one ClickHouse, and the driver truncates the target table. Wait, or pass FORCE_UNLOCK=1 if that holder is wedged."@
    }

    /// What an attempt to create the lock file leads to: a created file is
    /// held, a dead holder's file is reclaimed, anything else is a refusal.
    pub fn next(attempt: &LockAttempt, pid: u32, description: &str) -> (r: LockAction)
        ensures
            match attempt {
                LockAttempt::Created => r matches LockAction::Hold(t) && t@ == text::decimal(
                    pid as nat,
                ) + " "@ + description@ + "\n"@,
                LockAttempt::Exists { held, holder_alive } => if ArmLock::holder(held@) is Some
                    && !*holder_alive {
                    r is Reclaim
                } else {
                    r matches LockAction::Refuse(why) && why@ == ArmLock::held_refusal(held@)
                },
                LockAttempt::Failed(e) => r matches LockAction::Refuse(why) && why@
                    == "could not take "@ + LOCK_PATH@ + ": "@ + e@,
            },
    {
        match attempt {
            LockAttempt::Created => {
                let mut t = text::decimal_of(pid as u128);
                t.append(" ");
                t.append(description);
                t.append("\n");
                LockAction::Hold(t)
            },
            LockAttempt::Exists { held, holder_alive } => {
                if Self::holder_pid(held.as_str()).is_some() && !*holder_alive {
                    return LockAction::Reclaim;
                }
                let chars = text::chars_of(held.as_str());
                let who = text::string_of(text::trimmed(chars.as_slice()));
                let mut why = "another arm holds ".to_owned();
                why.append(LOCK_PATH);
                why.append(": ");
                why.append(who.as_str());
                why.append(
                    ". Arms MUST run one at a time — they share one Redpanda and one ClickHouse, and the driver truncates the target table. Wait, or pass FORCE_UNLOCK=1 if that holder is wedged.",
                );
                LockAction::Refuse(why)
            },
            LockAttempt::Failed(e) => {
                let mut why = "could not take ".to_owned();
                why.append(LOCK_PATH);
                why.append(": ");
                why.append(e.as_str());
                LockAction::Refuse(why)
            },
        }
    }
}

// ---------------------------------------------------------------------------
// Containers
// ---------------------------------------------------------------------------

/// How to launch one container of an arm.
#[derive(Clone, Debug)]
pub struct SutSpec {
    /// Container name.
    pub name: String,
    /// Image to run.
    pub image: String,
    /// The CPU cap.
    pub cpus: String,
    /// The memory cap, which caps swap too.
    pub memory: String,
    /// Environment passed to the container.
    pub env: Vec<(String, String)>,
    /// Arguments after the image.
    pub args: Vec<String>,
    /// Named volumes to mount.
    pub volumes: Vec<String>,
}

/// `-e key=value` for each variable.
pub open spec fn env_args(env: Seq<(String, String)>) -> Seq<Seq<char>>
    decreases env.len(),
{
    if env.len() == 0 {
        Seq::empty()
    } else {
        env_args(env.drop_last()).push("-e"@).push(env.last().0@ + "="@ + env.last().1@)
    }
}

/// `flag` before each of `values`.
pub open spec fn flagged(flag: Seq<char>, values: Seq<Seq<char>>) -> Seq<Seq<char>>
    decreases values.len(),
{
    if values.len() == 0 {
        Seq::empty()
    } else {
        flagged(flag, values.drop_last()).push(flag).push(values.last())
    }
}

impl SutSpec {
    /// The arguments that start the container on `network`.
    pub open spec fn run_args(self, network: Seq<char>) -> Seq<Seq<char>> {
        seq![
            "run"@,
            "-d"@,
            "--name"@,
            self.name@,
            "--network"@,
            network,
            "--cpus="@ + self.cpus@,
            "--memory="@ + self.memory@,
            "--memory-swap="@ + self.memory@,
        ] + env_args(self.env@) + flagged("-v"@, text::strings(self.volumes@)) + seq![self.image@]
            + text::strings(self.args@)
    }
}

/// `a` followed by `b`.
pub fn concat(a: &str, b: &str) -> (s: String)
    ensures
        s@ == a@ + b@,
{
    let mut s = a.to_owned();
    s.append(b);
    s
}

/// The `docker` arguments that start one container of an arm on `network`.
///
/// Swap is capped with memory: left at its default, the container would swap
/// instead of feeling its cap, and its cost would move somewhere unmeasured.
pub fn start_sut(spec: &SutSpec, network: &str) -> (args: Vec<String>)
    ensures
        text::strings(args@) == spec.run_args(network@),
{
    let mut args: Vec<String> = Vec::new();
    text::push_text(&mut args, "run");
    text::push_text(&mut args, "-d");
    text::push_text(&mut args, "--name");
    text::push_text(&mut args, spec.name.as_str());
    text::push_text(&mut args, "--network");
    text::push_text(&mut args, network);
    let cpus = concat("--cpus=", spec.cpus.as_str());
    let memory = concat("--memory=", spec.memory.as_str());
    let swap = concat("--memory-swap=", spec.memory.as_str());
    text::push_text(&mut args, cpus.as_str());
    text::push_text(&mut args, memory.as_str());
    text::push_text(&mut args, swap.as_str());
    let ghost head = text::strings(args@);
    assert(head =~= spec.run_args(network@).take(9));
    let mut i: usize = 0;
    while i < spec.env.len()
        invariant
            i <= spec.env.len(),
            text::strings(args@) == head + env_args(spec.env@.take(i as int)),
        decreases spec.env.len() - i,
    {
        assert(spec.env@.take(i + 1).drop_last() =~= spec.env@.take(i as int));
        let mut e = concat(spec.env[i].0.as_str(), "=");
        e.append(spec.env[i].1.as_str());
        text::push_text(&mut args, "-e");
        text::push_text(&mut args, e.as_str());
        assert(text::strings(args@) =~= head + env_args(spec.env@.take(i + 1)));
        i = i + 1;
    }
    assert(spec.env@.take(spec.env@.len() as int) =~= spec.env@);
    let ghost with_env = text::strings(args@);
    let ghost vols = text::strings(spec.volumes@);
    assert(text::strings(args@) =~= with_env + flagged("-v"@, vols.take(0)));
    let mut v: usize = 0;
    while v < spec.volumes.len()
        invariant
            v <= spec.volumes.len(),
            vols == text::strings(spec.volumes@),
            text::strings(args@) == with_env + flagged("-v"@, vols.take(v as int)),
        decreases spec.volumes.len() - v,
    {
        assert(vols.take(v + 1).drop_last() =~= vols.take(v as int));
        text::push_text(&mut args, "-v");
        text::push_text(&mut args, spec.volumes[v].as_str());
        assert(text::strings(args@) =~= with_env + flagged("-v"@, vols.take(v + 1)));
        v = v + 1;
    }
    assert(vols.take(vols.len() as int) =~= vols);
    text::push_text(&mut args, spec.image.as_str());
    let ghost with_image = text::strings(args@);
    let ghost rest = text::strings(spec.args@);
    assert(with_image =~= with_image + rest.take(0));
    let mut a: usize = 0;
    while a < spec.args.len()
        invariant
            a <= spec.args.len(),
            rest == text::strings(spec.args@),
            text::strings(args@) == with_image + rest.take(a as int),
        decreases spec.args.len() - a,
    {
        text::push_text(&mut args, spec.args[a].as_str());
        assert(text::strings(args@) =~= with_image + rest.take(a + 1));
        a = a + 1;
    }
    assert(rest.take(rest.len() as int) =~= rest);
    assert(text::strings(args@) =~= spec.run_args(network@));
    args
}

/// The argument lists of every container's start, in order.
pub open spec fn arm_args(specs: Seq<SutSpec>, network: Seq<char>) -> Seq<Seq<Seq<char>>> {
    specs.map_values(|s: SutSpec| s.run_args(network))
}

/// The argument lists that a vector of vectors of strings holds.
pub open spec fn lists(v: Seq<Vec<String>>) -> Seq<Seq<Seq<char>>> {
    v.map_values(|x: Vec<String>| text::strings(x@))
}

/// The `docker` arguments that start every container of an arm, in order: the
/// first has to be up before the next can register with it.
pub fn start_arm(specs: &[SutSpec], network: &str) -> (all: Vec<Vec<String>>)
    ensures
        lists(all@) == arm_args(specs@, network@),
{
    let mut all: Vec<Vec<String>> = Vec::new();
    let mut i: usize = 0;
    while i < specs.len()
        invariant
            i <= specs.len(),
            lists(all@) == arm_args(specs@, network@).take(i as int),
        decreases specs.len() - i,
    {
        let args = start_sut(&specs[i], network);
        let ghost before = all@;
        let ghost list = text::strings(args@);
        all.push(args);
        assert(lists(all@) =~= lists(before).push(list));
        assert(arm_args(specs@, network@).take(i + 1) =~= arm_args(specs@, network@).take(
            i as int,
        ).push(list));
        i = i + 1;
    }
    assert(lists(all@) =~= arm_args(specs@, network@));
    all
}

/// The `docker` arguments that remove the container `name`.
pub fn stop_sut(name: &str) -> (args: Vec<String>)
    ensures
        text::strings(args@) == seq!["rm"@, "-f"@, name@],
{
    let mut args: Vec<String> = Vec::new();
    text::push_text(&mut args, "rm");
    text::push_text(&mut args, "-f");
    text::push_text(&mut args, name);
    assert(text::strings(args@) =~= seq!["rm"@, "-f"@, name@]);
    args
}

/// Whether a container runs, from what inspecting its state printed. A failed
/// inspection says that it does not.
pub fn sut_alive(inspected: &Result<String, String>) -> (r: bool)
    ensures
        r == (inspected matches Ok(s) && s@ == "true"@),
{
    match inspected {
        Ok(s) => text::same(s.as_str(), "true"),
        Err(_) => false,
    }
}

/// A container's full id, from what inspecting it printed: sixty-four bytes,
/// because the cgroup directory is named after the full id. Anything else is
/// handed back as the error.
pub fn container_id(inspected: String) -> (r: Result<String, String>)
    ensures
        match r {
            Ok(id) => id@ == inspected@,
            Err(id) => id@ == inspected@,
        },
        (r is Ok) == (vstd::utf8::encode_utf8(inspected@).len() == 64),
{
    if inspected.as_str().as_bytes().len() == 64 {
        Ok(inspected)
    } else {
        Err(inspected)
    }
}

/// The image that a sampler runs in.
pub const SAMPLER_IMAGE: &'static str = "python:3.12-alpine";

/// The arguments that start a sampler of the container `id`, reading once every
/// `interval` seconds. It is handed the container's id and not a path: only the
/// sampler, with the whole tree of control groups mounted, can see which layout
/// the host uses. The tree is writable, because resetting a peak is a write.
pub open spec fn sampler_args(
    id: Seq<char>,
    interval: Seq<char>,
    name: Seq<char>,
    network: Seq<char>,
) -> Seq<Seq<char>> {
    seq![
        "run"@,
        "--rm"@,
        "-i"@,
        "--name"@,
        name,
        "--network"@,
        network,
        "--cgroupns=host"@,
        "-v"@,
        "/sys/fs/cgroup:/cg:rw"@,
        SAMPLER_IMAGE@,
        "python3"@,
        "-"@,
        id,
        interval,
    ]
}

/// The arguments that start a sampler of the container `id`.
pub fn start_named(id: &str, interval: &str, name: &str, network: &str) -> (args: Vec<String>)
    ensures
        text::strings(args@) == sampler_args(id@, interval@, name@, network@),
{
    let args = text::owned(
        [
            "run",
            "--rm",
            "-i",
            "--name",
            name,
            "--network",
            network,
            "--cgroupns=host",
            "-v",
            "/sys/fs/cgroup:/cg:rw",
            SAMPLER_IMAGE,
            "python3",
            "-",
            id,
            interval,
        ].as_slice(),
    );
    assert(text::strings(args@) =~= sampler_args(id@, interval@, name@, network@));
    args
}

/// The name of the sampler that watches the container at position `i`.
pub fn sampler_name(i: usize) -> (s: String)
    ensures
        s@ == SAMPLER_CONTAINER@ + "-"@ + text::decimal(i as nat),
{
    let mut s = concat(SAMPLER_CONTAINER, "-");
    text::push_decimal(&mut s, i as u128);
    s
}

} // verus!
