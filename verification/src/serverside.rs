//! What an arm's inserts cost the database, from the database's own query log.
//!
//! The arm is the system under test and the database is the shared target of
//! every arm, so what the log says is an outside measurement of the arm. Every
//! figure here is refused rather than invented: a missing measurement must
//! never become a cost of zero.

use vstd::prelude::*;
use crate::about;
use crate::double;
use crate::double::Double;
use crate::sampler;
use crate::sampler::Samples;
use crate::text;

verus! {

/// The counters read from each logged query. Each is an unsigned integer under
/// an ASCII name, so the map's text can be split on commas and tabs.
pub const COUNTERS: &'static str =
    "'UserTimeMicroseconds', 'SystemTimeMicroseconds', 'RealTimeMicroseconds', 'OSCPUVirtualTimeMicroseconds', 'OSCPUWaitMicroseconds', 'InsertedRows', 'InsertedBytes', 'AsyncInsertQuery', 'AsyncInsertRows'";

/// Writes the buffered log out, so that a read is complete up to now.
pub const FLUSH_LOGS_SQL: &'static str = "SYSTEM FLUSH LOGS";

/// Quiet imposed after the server reports no parts and no merges, milliseconds.
pub const SETTLE_QUIET_MS: u64 = 2_000;

/// Seconds that a wait for the server to settle may take.
pub const SETTLE_MAX_S: u64 = 120;

/// Milliseconds between polls while waiting.
pub const SETTLE_POLL_MS: u64 = 250;

/// The name of a table as the query log writes it.
pub fn qualify(database: &str, table: &str) -> (s: String)
    ensures
        s@ == database@ + "."@ + table@,
{
    let mut s = sampler::concat(database, ".");
    s.append(table);
    s
}

// ---------------------------------------------------------------------------
// The window
// ---------------------------------------------------------------------------

/// The interval that a server-side figure is attributed over, in milliseconds
/// since the epoch by the sampler's clock.
#[derive(Clone, Copy, Debug, PartialEq, Eq, Structural)]
pub struct Window {
    /// Start of the window, inclusive.
    pub from_ms: u64,
    /// End of the window, exclusive.
    pub to_ms: u64,
}

/// The earliest time of any of `rows`.
pub open spec fn min_time(rows: Seq<sampler::Sample>) -> Option<int>
    decreases rows.len(),
{
    if rows.len() == 0 {
        None
    } else {
        let before = min_time(rows.drop_last());
        if before is Some && before->0 <= rows.last().t_ms {
            before
        } else {
            Some(rows.last().t_ms as int)
        }
    }
}

/// The latest time of any of `rows`.
pub open spec fn max_time(rows: Seq<sampler::Sample>) -> Option<int>
    decreases rows.len(),
{
    if rows.len() == 0 {
        None
    } else {
        let before = max_time(rows.drop_last());
        if before is Some && before->0 >= rows.last().t_ms {
            before
        } else {
            Some(rows.last().t_ms as int)
        }
    }
}

/// The readable rows of every series, one series after the other.
pub open spec fn all_readable(series: Seq<&Samples>) -> Seq<sampler::Sample>
    decreases series.len(),
{
    if series.len() == 0 {
        Seq::empty()
    } else {
        all_readable(series.drop_last()) + sampler::readable_rows(series.last().rows@)
    }
}

/// A time, or zero where there is none.
pub open spec fn or_zero(t: Option<int>) -> int {
    match t {
        Some(n) => n,
        None => 0,
    }
}

proof fn lemma_times(rows: Seq<sampler::Sample>)
    ensures
        min_time(rows) matches Some(t) ==> 0 <= t <= u64::MAX,
        max_time(rows) matches Some(t) ==> 0 <= t <= u64::MAX,
    decreases rows.len(),
{
    if rows.len() > 0 {
        lemma_times(rows.drop_last());
    }
}

impl Window {
    /// The window between two times, which has to run forwards: an empty
    /// window matches no query, and that reads like an arm that inserted
    /// nothing.
    pub fn new(from_ms: u64, to_ms: u64) -> (r: Result<Window, ServerSideError>)
        ensures
            match r {
                Ok(w) => from_ms < to_ms && w == (Window { from_ms, to_ms }),
                Err(e) => to_ms <= from_ms && e == (ServerSideError::EmptyWindow {
                    from_ms,
                    to_ms,
                }),
            },
    {
        if to_ms <= from_ms {
            Err(ServerSideError::EmptyWindow { from_ms, to_ms })
        } else {
            Ok(Window { from_ms, to_ms })
        }
    }

    /// The window that an arm's readings span: from the earliest to the latest
    /// readable one over all its containers.
    pub fn spanning(series: &[&Samples]) -> (r: Result<Window, ServerSideError>)
        ensures
            ({
                let rows = all_readable(series@);
                let from = or_zero(min_time(rows));
                let to = or_zero(max_time(rows));
                match r {
                    Ok(w) => from < to && w.from_ms == from && w.to_ms == to,
                    Err(e) => to <= from && (e matches ServerSideError::EmptyWindow {
                        from_ms,
                        to_ms,
                    } && from_ms == from && to_ms == to),
                }
            }),
    {
        let mut from: Option<u64> = None;
        let mut to: Option<u64> = None;
        let mut i: usize = 0;
        while i < series.len()
            invariant
                i <= series.len(),
                match from {
                    Some(t) => min_time(all_readable(series@.take(i as int))) == Some(t as int),
                    None => min_time(all_readable(series@.take(i as int))) is None,
                },
                match to {
                    Some(t) => max_time(all_readable(series@.take(i as int))) == Some(t as int),
                    None => max_time(all_readable(series@.take(i as int))) is None,
                },
            decreases series.len() - i,
        {
            let ghost done = all_readable(series@.take(i as int));
            assert(series@.take(i + 1).drop_last() =~= series@.take(i as int));
            let rows = sampler::only_readable(series[i].rows.as_slice());
            assert(all_readable(series@.take(i + 1)) == done + rows@);
            assert(done + rows@.take(0) =~= done);
            let mut k: usize = 0;
            while k < rows.len()
                invariant
                    k <= rows.len(),
                    match from {
                        Some(t) => min_time(done + rows@.take(k as int)) == Some(t as int),
                        None => min_time(done + rows@.take(k as int)) is None,
                    },
                    match to {
                        Some(t) => max_time(done + rows@.take(k as int)) == Some(t as int),
                        None => max_time(done + rows@.take(k as int)) is None,
                    },
                decreases rows.len() - k,
            {
                let ghost next = done + rows@.take(k + 1);
                assert(next.drop_last() =~= done + rows@.take(k as int));
                assert(next.last() == rows@[k as int]);
                let t: u64 = rows[k].t_ms;
                from = match from {
                    Some(a) if a <= t => Some(a),
                    _ => Some(t),
                };
                to = match to {
                    Some(b) if b >= t => Some(b),
                    _ => Some(t),
                };
                k = k + 1;
            }
            assert(rows@.take(rows@.len() as int) =~= rows@);
            i = i + 1;
        }
        assert(series@.take(series@.len() as int) =~= series@);
        let a: u64 = match from {
            Some(t) => t,
            None => 0,
        };
        let b: u64 = match to {
            Some(t) => t,
            None => 0,
        };
        Self::new(a, b)
    }

    /// Length of the window in seconds.
    pub open spec fn length(self) -> Double {
        double::of((self.to_ms - self.from_ms) as nat).over(double::of(1000))
    }

    /// Length of the window in seconds.
    pub fn seconds(self) -> (r: Double)
        requires
            self.from_ms <= self.to_ms,
        ensures
            r == self.length(),
    {
        Double::of((self.to_ms - self.from_ms) as u128).divide(Double::of(1000))
    }
}

// ---------------------------------------------------------------------------
// Refusals
// ---------------------------------------------------------------------------

/// Why a server-side measurement could not be made.
#[derive(Clone, Debug, PartialEq, Eq)]
pub enum ServerSideError {
    /// The window does not run forwards.
    EmptyWindow {
        /// Start that was asked for.
        from_ms: u64,
        /// End that was asked for.
        to_ms: u64,
    },
    /// The database could not be reached.
    Transport(String),
    /// The database answered with an exception.
    ServerException(String),
    /// A row of the answer does not have the shape that was asked for.
    Malformed {
        /// The offending line, verbatim.
        line: String,
        /// What is wrong with it.
        why: String,
    },
    /// No query matched.
    NoAttributedQueries {
        /// The tables that were looked for.
        tables: Vec<String>,
        /// The window that was looked in.
        window: Window,
    },
    /// Inserts matched, and none of them carries the CPU counters.
    NoCpuCounters {
        /// How many inserts matched.
        queries: usize,
    },
    /// Some inserts took the asynchronous path, whose cost is charged to a
    /// background flush that the log does not show.
    AsyncInsertsNotAttributable {
        /// Inserts that carry the asynchronous counter.
        async_queries: usize,
        /// Inserts that finished having written no rows.
        wrote_nothing: usize,
        /// How many inserts matched.
        queries: usize,
    },
}

impl ServerSideError {
    /// What the refusal says to a person.
    pub open spec fn text(self) -> Seq<char> {
        match self {
            ServerSideError::EmptyWindow { from_ms, to_ms } => "the server-side window ["@
                + text::decimal(from_ms as nat) + ", "@ + text::decimal(to_ms as nat)
                + ") does not run forwards, so it would match no query and an arm that inserted nothing would be indistinguishable from a window nobody set"@,
            ServerSideError::Transport(e) => "could not reach ClickHouse for its query log: "@ + e@,
            ServerSideError::ServerException(e) => "ClickHouse refused the query-log read: "@ + e@
                + ". system.query_log has to be enabled and readable for the server-side figure to exist at all; a run that cannot read it is recorded without one rather than with a zero"@,
            ServerSideError::Malformed { line, why } => malformed_text(
                why@,
                text::debug_text(line@),
            ),
            ServerSideError::NoAttributedQueries { tables, window } => "no INSERT into "@
                + text::join(text::strings(tables@), ", "@) + " was logged between "@
                + text::decimal(window.from_ms as nat) + " and "@ + text::decimal(
                window.to_ms as nat,
            )
                + ". Either the arm inserted nothing, the table name was not qualified with its database the way system.query_log writes it, or the window came from the host clock rather than the sampler's"@,
            ServerSideError::NoCpuCounters { queries } => text::decimal(queries as nat)
                + " insert(s) were attributed to the arm and not one of them reported UserTimeMicroseconds or SystemTimeMicroseconds, so the server did not say what they cost. Summing what was there would under-report by an unknown factor"@,
            ServerSideError::AsyncInsertsNotAttributable {
                async_queries,
                wrote_nothing,
                queries,
            } => text::decimal(async_queries as nat) + " of "@ + text::decimal(queries as nat)
                + " attributed insert(s) took the asynchronous path ("@ + text::decimal(
                wrote_nothing as nat,
            )
                + " finished having written no rows). An async insert's ProfileEvents cover parsing and buffering only — the write is charged to a background flush with no query_log row — so the sum would under-report this arm against one whose client sets async_insert=0. ClickHouse 26.3 defaults it ON: pin async_insert=0 in the arm's client settings"@,
        }
    }

    /// What the refusal says to a person.
    pub fn message(&self) -> (s: String)
        ensures
            s@ == self.text(),
    {
        match self {
            ServerSideError::EmptyWindow { from_ms, to_ms } => {
                let mut s = "the server-side window [".to_owned();
                text::push_decimal(&mut s, *from_ms as u128);
                s.append(", ");
                text::push_decimal(&mut s, *to_ms as u128);
                s.append(
                    ") does not run forwards, so it would match no query and an arm that inserted nothing would be indistinguishable from a window nobody set",
                );
                s
            },
            ServerSideError::Transport(e) => sampler::concat(
                "could not reach ClickHouse for its query log: ",
                e.as_str(),
            ),
            ServerSideError::ServerException(e) => {
                let mut s = sampler::concat("ClickHouse refused the query-log read: ", e.as_str());
                s.append(
                    ". system.query_log has to be enabled and readable for the server-side figure to exist at all; a run that cannot read it is recorded without one rather than with a zero",
                );
                s
            },
            ServerSideError::Malformed { line, why } => {
                let q = text::quoted(line.as_str());
                malformed_message(why.as_str(), q.as_str())
            },
            ServerSideError::NoAttributedQueries { tables, window } => {
                let names = text::joined(tables.as_slice(), ", ");
                let mut s = sampler::concat("no INSERT into ", names.as_str());
                s.append(" was logged between ");
                text::push_decimal(&mut s, window.from_ms as u128);
                s.append(" and ");
                text::push_decimal(&mut s, window.to_ms as u128);
                s.append(
                    ". Either the arm inserted nothing, the table name was not qualified with its database the way system.query_log writes it, or the window came from the host clock rather than the sampler's",
                );
                s
            },
            ServerSideError::NoCpuCounters { queries } => {
                let mut s = text::decimal_of(*queries as u128);
                s.append(
                    " insert(s) were attributed to the arm and not one of them reported UserTimeMicroseconds or SystemTimeMicroseconds, so the server did not say what they cost. Summing what was there would under-report by an unknown factor",
                );
                s
            },
            ServerSideError::AsyncInsertsNotAttributable {
                async_queries,
                wrote_nothing,
                queries,
            } => {
                let mut s = text::decimal_of(*async_queries as u128);
                s.append(" of ");
                text::push_decimal(&mut s, *queries as u128);
                s.append(" attributed insert(s) took the asynchronous path (");
                text::push_decimal(&mut s, *wrote_nothing as u128);
                s.append(
                    " finished having written no rows). An async insert's ProfileEvents cover parsing and buffering only — the write is charged to a background flush with no query_log row — so the sum would under-report this arm against one whose client sets async_insert=0. ClickHouse 26.3 defaults it ON: pin async_insert=0 in the arm's client settings",
                );
                s
            },
        }
    }
}

/// What a malformed row is refused with, given the row between quotes.
pub open spec fn malformed_text(why: Seq<char>, quoted: Seq<char>) -> Seq<char> {
    "a system.query_log row did not parse ("@ + why + "): "@ + quoted
        + ". The projection is fixed by this module, so a row that does not match it means the server's output changed shape and every figure derived from it is suspect"@
}

/// What a malformed row is refused with, given the row between quotes.
pub fn malformed_message(why: &str, quoted: &str) -> (s: String)
    ensures
        s@ == malformed_text(why@, quoted@),
{
    let mut s = sampler::concat("a system.query_log row did not parse (", why);
    s.append("): ");
    s.append(quoted);
    s.append(
        ". The projection is fixed by this module, so a row that does not match it means the server's output changed shape and every figure derived from it is suspect",
    );
    s
}

fn malformed(line: &[char], why: &str) -> (e: ServerSideError)
    ensures
        e matches ServerSideError::Malformed { line: l, why: w } && l@ == line@ && w@ == why@,
{
    ServerSideError::Malformed { line: text::string_of(line), why: why.to_owned() }
}


// ---------------------------------------------------------------------------
// One logged query
// ---------------------------------------------------------------------------

/// What a row of the query log records about its query.
#[derive(Clone, Copy, Debug, PartialEq, Eq, Structural)]
pub enum RowType {
    /// The query began. Every counter of the row is zero.
    Start,
    /// The query completed. Only these rows carry a measurement.
    Finish,
    /// The query was rejected before it ran.
    ExceptionBeforeStart,
    /// The query failed part-way through, having done work.
    ExceptionWhileProcessing,
}

impl RowType {
    /// The row type that `s` names.
    pub open spec fn named(s: Seq<char>) -> Option<RowType> {
        if s == "QueryStart"@ {
            Some(RowType::Start)
        } else if s == "QueryFinish"@ {
            Some(RowType::Finish)
        } else if s == "ExceptionBeforeStart"@ {
            Some(RowType::ExceptionBeforeStart)
        } else if s == "ExceptionWhileProcessing"@ {
            Some(RowType::ExceptionWhileProcessing)
        } else {
            None
        }
    }

    /// The row type that `s` names.
    pub fn parse(s: &str) -> (r: Option<RowType>)
        ensures
            r == RowType::named(s@),
    {
        let chars = text::chars_of(s);
        Self::parse_chars(chars.as_slice())
    }

    fn parse_chars(s: &[char]) -> (r: Option<RowType>)
        ensures
            r == RowType::named(s@),
    {
        if text::spells(s, "QueryStart") {
            Some(RowType::Start)
        } else if text::spells(s, "QueryFinish") {
            Some(RowType::Finish)
        } else if text::spells(s, "ExceptionBeforeStart") {
            Some(RowType::ExceptionBeforeStart)
        } else if text::spells(s, "ExceptionWhileProcessing") {
            Some(RowType::ExceptionWhileProcessing)
        } else {
            None
        }
    }

    /// Whether the row records a failure.
    pub open spec fn failed(self) -> bool {
        self is ExceptionBeforeStart || self is ExceptionWhileProcessing
    }

    /// Whether the row records a failure.
    pub fn is_exception(self) -> (r: bool)
        ensures
            r == self.failed(),
    {
        match self {
            RowType::ExceptionBeforeStart | RowType::ExceptionWhileProcessing => true,
            _ => false,
        }
    }
}

/// The counters of one query. The log omits a counter whose value is zero, so
/// absence is kept apart from zero.
#[derive(Clone, Copy, Debug, PartialEq, Eq)]
pub struct ProfileCounters {
    /// User-mode CPU microseconds.
    pub user_us: Option<u64>,
    /// Kernel-mode CPU microseconds.
    pub system_us: Option<u64>,
    /// Thread wall-clock microseconds. Not CPU.
    pub real_us: Option<u64>,
    /// The operating system's own view of the CPU time.
    pub os_cpu_virtual_us: Option<u64>,
    /// Runnable but off the CPU, microseconds.
    pub os_cpu_wait_us: Option<u64>,
    /// Rows inserted into all tables, views counted in.
    pub inserted_rows: Option<u64>,
    /// Bytes inserted into all tables.
    pub inserted_bytes: Option<u64>,
    /// Not zero where the insert took the asynchronous path.
    pub async_insert_query: Option<u64>,
    /// Rows handed to the asynchronous buffer.
    pub async_insert_rows: Option<u64>,
}

impl Default for ProfileCounters {
    fn default() -> (c: ProfileCounters)
        ensures
            c == ProfileCounters::absent(),
    {
        ProfileCounters {
            user_us: None,
            system_us: None,
            real_us: None,
            os_cpu_virtual_us: None,
            os_cpu_wait_us: None,
            inserted_rows: None,
            inserted_bytes: None,
            async_insert_query: None,
            async_insert_rows: None,
        }
    }
}

/// A count, or zero where there is none.
pub open spec fn count_or_zero(n: Option<u64>) -> int {
    match n {
        Some(v) => v as int,
        None => 0,
    }
}

impl ProfileCounters {
    /// No counter at all.
    pub open spec fn absent() -> ProfileCounters {
        ProfileCounters {
            user_us: None,
            system_us: None,
            real_us: None,
            os_cpu_virtual_us: None,
            os_cpu_wait_us: None,
            inserted_rows: None,
            inserted_bytes: None,
            async_insert_query: None,
            async_insert_rows: None,
        }
    }

    /// These counters with the one that `key` names set to `n`. Any other key
    /// changes nothing.
    pub open spec fn with(self, key: Seq<char>, n: u64) -> ProfileCounters {
        if key == "UserTimeMicroseconds"@ {
            ProfileCounters { user_us: Some(n), ..self }
        } else if key == "SystemTimeMicroseconds"@ {
            ProfileCounters { system_us: Some(n), ..self }
        } else if key == "RealTimeMicroseconds"@ {
            ProfileCounters { real_us: Some(n), ..self }
        } else if key == "OSCPUVirtualTimeMicroseconds"@ {
            ProfileCounters { os_cpu_virtual_us: Some(n), ..self }
        } else if key == "OSCPUWaitMicroseconds"@ {
            ProfileCounters { os_cpu_wait_us: Some(n), ..self }
        } else if key == "InsertedRows"@ {
            ProfileCounters { inserted_rows: Some(n), ..self }
        } else if key == "InsertedBytes"@ {
            ProfileCounters { inserted_bytes: Some(n), ..self }
        } else if key == "AsyncInsertQuery"@ {
            ProfileCounters { async_insert_query: Some(n), ..self }
        } else if key == "AsyncInsertRows"@ {
            ProfileCounters { async_insert_rows: Some(n), ..self }
        } else {
            self
        }
    }

    fn set(self, key: &[char], n: u64) -> (c: ProfileCounters)
        ensures
            c == self.with(key@, n),
    {
        if text::spells(key, "UserTimeMicroseconds") {
            ProfileCounters { user_us: Some(n), ..self }
        } else if text::spells(key, "SystemTimeMicroseconds") {
            ProfileCounters { system_us: Some(n), ..self }
        } else if text::spells(key, "RealTimeMicroseconds") {
            ProfileCounters { real_us: Some(n), ..self }
        } else if text::spells(key, "OSCPUVirtualTimeMicroseconds") {
            ProfileCounters { os_cpu_virtual_us: Some(n), ..self }
        } else if text::spells(key, "OSCPUWaitMicroseconds") {
            ProfileCounters { os_cpu_wait_us: Some(n), ..self }
        } else if text::spells(key, "InsertedRows") {
            ProfileCounters { inserted_rows: Some(n), ..self }
        } else if text::spells(key, "InsertedBytes") {
            ProfileCounters { inserted_bytes: Some(n), ..self }
        } else if text::spells(key, "AsyncInsertQuery") {
            ProfileCounters { async_insert_query: Some(n), ..self }
        } else if text::spells(key, "AsyncInsertRows") {
            ProfileCounters { async_insert_rows: Some(n), ..self }
        } else {
            self
        }
    }

    /// Whether the query says what CPU it used.
    pub open spec fn has_cpu(self) -> bool {
        self.user_us is Some || self.system_us is Some
    }

    /// CPU microseconds of the query: the sum of the halves that it reports,
    /// and `None` where it reports neither.
    pub fn cpu_us(self) -> (r: Option<u128>)
        ensures
            match r {
                Some(n) => self.has_cpu() && n == count_or_zero(self.user_us) + count_or_zero(
                    self.system_us,
                ),
                None => !self.has_cpu(),
            },
    {
        match (self.user_us, self.system_us) {
            (None, None) => None,
            (u, s) => {
                let a: u128 = match u {
                    Some(n) => n as u128,
                    None => 0,
                };
                let b: u128 = match s {
                    Some(n) => n as u128,
                    None => 0,
                };
                Some(a + b)
            },
        }
    }
}

/// One row of the query log, attributed to the arm.
#[derive(Clone, Copy, Debug, PartialEq, Eq)]
pub struct AttributedQuery {
    /// What the row records.
    pub row_type: RowType,
    /// Rows that the query wrote to the table it inserted into.
    pub written_rows: u64,
    /// Wall time of the query in milliseconds.
    pub duration_ms: u64,
    /// The query's counters.
    pub events: ProfileCounters,
}

// ---------------------------------------------------------------------------
// Reading the answer
// ---------------------------------------------------------------------------

/// What stands between two `'` in `s`, white space around them ignored.
pub open spec fn unquoted(s: Seq<char>) -> Option<Seq<char>> {
    match text::strip_prefix(text::trim(s), "'"@) {
        Some(rest) => text::strip_suffix(rest, "'"@),
        None => None,
    }
}

/// The counters after one entry of the map, or what is wrong with the entry.
pub open spec fn with_entry(c: ProfileCounters, entry: Seq<char>) -> Result<
    ProfileCounters,
    Seq<char>,
> {
    match text::split_once(entry, ":"@) {
        None => Err("a map entry is rendered as 'key':value"@),
        Some((key, value)) => match unquoted(key) {
            None => Err("a map key is rendered in single quotes"@),
            Some(name) => match text::parse_u64(text::trim(value)) {
                None => Err("a projected counter is a UInt64"@),
                Some(n) => Ok(c.with(name, n as u64)),
            },
        },
    }
}

/// The counters after all the entries, or what is wrong with the first bad one.
pub open spec fn with_entries(entries: Seq<Seq<char>>) -> Result<ProfileCounters, Seq<char>>
    decreases entries.len(),
{
    if entries.len() == 0 {
        Ok(ProfileCounters::absent())
    } else {
        match with_entries(entries.drop_last()) {
            Err(why) => Err(why),
            Ok(c) => with_entry(c, entries.last()),
        }
    }
}

/// The text between the braces of a map.
pub open spec fn braced(field: Seq<char>) -> Option<Seq<char>> {
    match text::strip_prefix(text::trim(field), "{"@) {
        Some(rest) => text::strip_suffix(rest, "}"@),
        None => None,
    }
}

/// The counters that a map in the form `{'Key':123,'Other':456}` holds, or what
/// is wrong with it.
pub open spec fn events_of(field: Seq<char>) -> Result<ProfileCounters, Seq<char>> {
    match braced(field) {
        None => Err("a ProfileEvents map is rendered as {…}"@),
        Some(body) => if text::trim(body).len() == 0 {
            Ok(ProfileCounters::absent())
        } else {
            with_entries(text::split(body, ","@))
        },
    }
}

fn braced_of<'a>(field: &'a [char], open: &str, close: &str) -> (r: Option<&'a [char]>)
    ensures
        match r {
            Some(t) => text::strip_prefix(text::trim(field@), open@) matches Some(rest)
                && text::strip_suffix(rest, close@) == Some(t@),
            None => match text::strip_prefix(text::trim(field@), open@) {
                Some(rest) => text::strip_suffix(rest, close@) is None,
                None => true,
            },
        },
{
    match text::without_prefix(text::trimmed(field), open) {
        Some(rest) => text::without_suffix(rest, close),
        None => None,
    }
}

/// Reads the counter map of one row.
///
/// A key that nothing here uses is ignored, so a longer projection does not
/// fail the read; an entry that is not `'key':integer` is refused, because then
/// every value read from the text would be a guess.
pub fn parse_profile_events(field: &str) -> (r: Result<ProfileCounters, ServerSideError>)
    ensures
        match r {
            Ok(c) => events_of(field@) == Ok::<ProfileCounters, Seq<char>>(c),
            Err(e) => e matches ServerSideError::Malformed { line, why } && line@ == field@
                && events_of(field@) == Err::<ProfileCounters, Seq<char>>(why@),
        },
{
    let chars = text::chars_of(field);
    match parse_events(chars.as_slice()) {
        Ok(c) => Ok(c),
        Err(why) => Err(malformed(chars.as_slice(), why.as_str())),
    }
}

fn parse_events(field: &[char]) -> (r: Result<ProfileCounters, String>)
    ensures
        match r {
            Ok(c) => events_of(field@) == Ok::<ProfileCounters, Seq<char>>(c),
            Err(why) => events_of(field@) == Err::<ProfileCounters, Seq<char>>(why@),
        },
{
    let body: &[char] = match braced_of(field, "{", "}") {
        Some(b) => b,
        None => {
            return Err("a ProfileEvents map is rendered as {…}".to_owned());
        },
    };
    let mut out = ProfileCounters::default();
    if text::trimmed(body).len() == 0 {
        return Ok(out);
    }
    proof {
        reveal_strlit(",");
    }
    let entries = text::fields(body, ",");
    let ghost all = text::split(body@, ","@);
    let mut i: usize = 0;
    while i < entries.len()
        invariant
            i <= entries.len(),
            text::views(entries@) == all,
            all.len() == entries@.len(),
            events_of(field@) == with_entries(all),
            with_entries(all.take(i as int)) == Ok::<ProfileCounters, Seq<char>>(out),
        decreases entries.len() - i,
    {
        assert(all.take(i + 1).drop_last() =~= all.take(i as int));
        assert(all.take(i + 1).last() == entries@[i as int]@);
        let (key, value) = match text::cut_once(entries[i], ":") {
            Some(kv) => kv,
            None => {
                proof {
                    lemma_entries_stop(all, i + 1);
                }
                return Err("a map entry is rendered as 'key':value".to_owned());
            },
        };
        let name: &[char] = match braced_of(key, "'", "'") {
            Some(n) => n,
            None => {
                proof {
                    lemma_entries_stop(all, i + 1);
                }
                return Err("a map key is rendered in single quotes".to_owned());
            },
        };
        match text::to_u64(text::trimmed(value)) {
            Some(n) => {
                out = out.set(name, n);
            },
            None => {
                proof {
                    lemma_entries_stop(all, i + 1);
                }
                return Err("a projected counter is a UInt64".to_owned());
            },
        }
        i = i + 1;
    }
    assert(all.take(all.len() as int) =~= all);
    Ok(out)
}

proof fn lemma_entries_stop(entries: Seq<Seq<char>>, k: int)
    requires
        0 <= k <= entries.len(),
        with_entries(entries.take(k)) is Err,
    ensures
        with_entries(entries) == with_entries(entries.take(k)),
    decreases entries.len() - k,
{
    if k < entries.len() {
        assert(entries.take(k + 1).drop_last() =~= entries.take(k));
        lemma_entries_stop(entries, k + 1);
    } else {
        assert(entries.take(k) =~= entries);
    }
}

/// The four columns of a row. The last one may hold tabs.
pub open spec fn four_columns(line: Seq<char>) -> Option<
    (Seq<char>, Seq<char>, Seq<char>, Seq<char>),
> {
    match text::split_once(line, "\t"@) {
        None => None,
        Some((a, rest)) => match text::split_once(rest, "\t"@) {
            None => None,
            Some((b, rest)) => match text::split_once(rest, "\t"@) {
                None => None,
                Some((c, d)) => Some((a, b, c, d)),
            },
        },
    }
}

/// The query that a row records, or the whole line and what is wrong with it.
pub open spec fn row_of(line: Seq<char>) -> Result<AttributedQuery, (Seq<char>, Seq<char>)> {
    match four_columns(line) {
        None => Err((line, "expected type, written_rows, duration and events"@)),
        Some((a, b, c, d)) => match RowType::named(a) {
            None => Err((line, "unknown query_log type"@)),
            Some(row_type) => match text::parse_u64(text::trim(b)) {
                None => Err((line, "written_rows is a UInt64"@)),
                Some(written) => match text::parse_u64(text::trim(c)) {
                    None => Err((line, "query_duration_ms is a UInt64"@)),
                    Some(duration) => match events_of(d) {
                        Err(why) => Err((line, why)),
                        Ok(events) => Ok(
                            AttributedQuery {
                                row_type,
                                written_rows: written as u64,
                                duration_ms: duration as u64,
                                events,
                            },
                        ),
                    },
                },
            },
        },
    }
}

/// The queries that the lines record, blank ones passed over, or what is wrong
/// with the first bad line.
pub open spec fn rows_of(lines: Seq<Seq<char>>) -> Result<
    Seq<AttributedQuery>,
    (Seq<char>, Seq<char>),
>
    decreases lines.len(),
{
    if lines.len() == 0 {
        Ok(Seq::empty())
    } else {
        match rows_of(lines.drop_last()) {
            Err(e) => Err(e),
            Ok(rows) => if text::trim(lines.last()).len() == 0 {
                Ok(rows)
            } else {
                match row_of(lines.last()) {
                    Err(e) => Err(e),
                    Ok(row) => Ok(rows.push(row)),
                }
            },
        }
    }
}

/// Whether an answer is an exception rather than a result.
pub open spec fn is_exception_text(body: Seq<char>) -> bool {
    text::contains(body, "DB::Exception"@)
}

proof fn lemma_rows_stop(lines: Seq<Seq<char>>, k: int)
    requires
        0 <= k <= lines.len(),
        rows_of(lines.take(k)) is Err,
    ensures
        rows_of(lines) == rows_of(lines.take(k)),
    decreases lines.len() - k,
{
    if k < lines.len() {
        assert(lines.take(k + 1).drop_last() =~= lines.take(k));
        lemma_rows_stop(lines, k + 1);
    } else {
        assert(lines.take(k) =~= lines);
    }
}

fn parse_row(line: &[char]) -> (r: Result<AttributedQuery, ServerSideError>)
    ensures
        match r {
            Ok(q) => row_of(line@) == Ok::<AttributedQuery, (Seq<char>, Seq<char>)>(q),
            Err(e) => e matches ServerSideError::Malformed { line: l, why } && row_of(line@) == Err::<
                AttributedQuery,
                (Seq<char>, Seq<char>),
            >((l@, why@)),
        },
{
    let shape = "expected type, written_rows, duration and events";
    let (a, rest) = match text::cut_once(line, "\t") {
        Some(x) => x,
        None => {
            return Err(malformed(line, shape));
        },
    };
    let (b, rest) = match text::cut_once(rest, "\t") {
        Some(x) => x,
        None => {
            return Err(malformed(line, shape));
        },
    };
    let (c, d) = match text::cut_once(rest, "\t") {
        Some(x) => x,
        None => {
            return Err(malformed(line, shape));
        },
    };
    let row_type = match RowType::parse_chars(a) {
        Some(t) => t,
        None => {
            return Err(malformed(line, "unknown query_log type"));
        },
    };
    let written_rows: u64 = match text::to_u64(text::trimmed(b)) {
        Some(n) => n,
        None => {
            return Err(malformed(line, "written_rows is a UInt64"));
        },
    };
    let duration_ms: u64 = match text::to_u64(text::trimmed(c)) {
        Some(n) => n,
        None => {
            return Err(malformed(line, "query_duration_ms is a UInt64"));
        },
    };
    match parse_events(d) {
        Ok(events) => Ok(AttributedQuery { row_type, written_rows, duration_ms, events }),
        Err(why) => Err(malformed(line, why.as_str())),
    }
}

/// Reads the whole answer to [`attribution_sql`].
pub fn parse_response(body: &str) -> (r: Result<Vec<AttributedQuery>, ServerSideError>)
    ensures
        if is_exception_text(body@) {
            r matches Err(ServerSideError::ServerException(e)) && e@ == text::trim(body@)
        } else {
            match r {
                Ok(rows) => rows_of(text::lines(body@)) == Ok::<
                    Seq<AttributedQuery>,
                    (Seq<char>, Seq<char>),
                >(rows@),
                Err(e) => e matches ServerSideError::Malformed { line, why } && rows_of(
                    text::lines(body@),
                ) == Err::<Seq<AttributedQuery>, (Seq<char>, Seq<char>)>((line@, why@)),
            }
        },
{
    let chars = text::chars_of(body);
    if text::has(chars.as_slice(), "DB::Exception") {
        return Err(
            ServerSideError::ServerException(text::string_of(text::trimmed(chars.as_slice()))),
        );
    }
    let lines = text::split_lines(chars.as_slice());
    let ghost all = text::lines(body@);
    let mut out: Vec<AttributedQuery> = Vec::new();
    let mut i: usize = 0;
    while i < lines.len()
        invariant
            i <= lines.len(),
            !is_exception_text(body@),
            all == text::lines(body@),
            text::views(lines@) == all,
            all.len() == lines@.len(),
            rows_of(all.take(i as int)) == Ok::<Seq<AttributedQuery>, (Seq<char>, Seq<char>)>(out@),
        decreases lines.len() - i,
    {
        assert(all.take(i + 1).drop_last() =~= all.take(i as int));
        assert(all.take(i + 1).last() == lines@[i as int]@);
        if text::trimmed(lines[i]).len() > 0 {
            match parse_row(lines[i]) {
                Ok(q) => {
                    out.push(q);
                },
                Err(e) => {
                    proof {
                        lemma_rows_stop(all, i + 1);
                    }
                    return Err(e);
                },
            }
        }
        i = i + 1;
    }
    assert(all.take(all.len() as int) =~= all);
    Ok(out)
}


// ---------------------------------------------------------------------------
// The published figure
// ---------------------------------------------------------------------------

/// What an arm's inserts cost the database over one measurement window.
#[derive(Clone, Debug, PartialEq, Eq)]
pub struct ServerSideCost {
    /// The window that the figures are attributed over.
    pub window: Window,
    /// The tables that the inserts were attributed to.
    pub tables: Vec<String>,
    /// Inserts that completed.
    pub queries: usize,
    /// Inserts that started inside the window. One that started and neither
    /// completed nor failed was still running when the window closed.
    pub queries_started: usize,
    /// Inserts that failed. Their CPU time is not in `cpu_us`: they wrote no
    /// rows that could be charged for it.
    pub failed_queries: usize,
    /// Rows that the completed inserts wrote.
    pub written_rows: u128,
    /// Rows written to all tables, views counted in.
    pub inserted_rows: Option<u128>,
    /// Bytes written to all tables.
    pub inserted_bytes: Option<u128>,
    /// CPU microseconds: user plus system.
    pub cpu_us: u128,
    /// User-mode share of `cpu_us`.
    pub user_us: u128,
    /// Kernel-mode share of `cpu_us`.
    pub system_us: u128,
    /// Thread wall-clock. Not CPU.
    pub real_us: Option<u128>,
    /// The operating system's own view of `cpu_us`.
    pub os_cpu_virtual_us: Option<u128>,
    /// Runnable but off the CPU.
    pub os_cpu_wait_us: Option<u128>,
    /// Completed inserts that reported no CPU counter.
    pub queries_without_cpu: usize,
}

/// How many of `rows` satisfy `p`.
pub open spec fn count(rows: Seq<AttributedQuery>, p: spec_fn(AttributedQuery) -> bool) -> nat
    decreases rows.len(),
{
    if rows.len() == 0 {
        0
    } else {
        count(rows.drop_last(), p) + (if p(rows.last()) {
            1nat
        } else {
            0
        })
    }
}

/// The sum of one counter over the completed inserts that carry it, and `None`
/// where none does.
pub open spec fn counter_total(
    rows: Seq<AttributedQuery>,
    f: spec_fn(ProfileCounters) -> Option<u64>,
) -> Option<nat>
    decreases rows.len(),
{
    if rows.len() == 0 {
        None
    } else {
        let before = counter_total(rows.drop_last(), f);
        let row = rows.last();
        match (row.row_type, f(row.events)) {
            (RowType::Finish, Some(n)) => Some(
                (match before {
                    Some(b) => b,
                    None => 0,
                }) + n as nat,
            ),
            _ => before,
        }
    }
}

/// The rows that the completed inserts wrote.
pub open spec fn written(rows: Seq<AttributedQuery>) -> nat
    decreases rows.len(),
{
    if rows.len() == 0 {
        0
    } else {
        written(rows.drop_last()) + (if rows.last().row_type is Finish {
            rows.last().written_rows as nat
        } else {
            0
        })
    }
}

/// How many inserts completed.
pub open spec fn finished(rows: Seq<AttributedQuery>) -> nat {
    count(rows, |r: AttributedQuery| r.row_type is Finish)
}

/// How many completed inserts took the asynchronous path.
pub open spec fn asynchronous(rows: Seq<AttributedQuery>) -> nat {
    count(
        rows,
        |r: AttributedQuery|
            r.row_type is Finish && (r.events.async_insert_query matches Some(n) && n > 0),
    )
}

/// How many completed inserts wrote no rows.
pub open spec fn empty_handed(rows: Seq<AttributedQuery>) -> nat {
    count(rows, |r: AttributedQuery| r.row_type is Finish && r.written_rows == 0)
}

/// Whether any completed insert shows the asynchronous path: by the counter that
/// says so outright, which proves nothing where it is absent, or by having
/// written no rows, which is how that path looks from outside on any version.
pub open spec fn unattributable(rows: Seq<AttributedQuery>) -> bool {
    asynchronous(rows) > 0 || empty_handed(rows) > 0
}

/// How many completed inserts reported no CPU counter.
pub open spec fn without_cpu(rows: Seq<AttributedQuery>) -> nat {
    count(rows, |r: AttributedQuery| r.row_type is Finish && !r.events.has_cpu())
}

/// Whether a published sum is the one that the rows give.
pub open spec fn is_total(published: Option<u128>, total: Option<nat>) -> bool {
    match (published, total) {
        (Some(p), Some(t)) => p == t,
        (None, None) => true,
        _ => false,
    }
}

/// A sum, or zero where there is none.
pub open spec fn total_or_zero(t: Option<nat>) -> nat {
    match t {
        Some(n) => n,
        None => 0,
    }
}

impl ServerSideCost {
    /// Whether these are the figures that `rows` give.
    pub open spec fn of_rows(self, rows: Seq<AttributedQuery>) -> bool {
        &&& self.queries == finished(rows)
        &&& self.queries_started == count(rows, |r: AttributedQuery| r.row_type is Start)
        &&& self.failed_queries == count(rows, |r: AttributedQuery| r.row_type.failed())
        &&& self.written_rows == written(rows)
        &&& is_total(
            self.inserted_rows,
            counter_total(rows, |e: ProfileCounters| e.inserted_rows),
        )
        &&& is_total(
            self.inserted_bytes,
            counter_total(rows, |e: ProfileCounters| e.inserted_bytes),
        )
        &&& self.cpu_us == self.user_us + self.system_us
        &&& self.user_us == total_or_zero(counter_total(rows, |e: ProfileCounters| e.user_us))
        &&& self.system_us == total_or_zero(counter_total(rows, |e: ProfileCounters| e.system_us))
        &&& is_total(self.real_us, counter_total(rows, |e: ProfileCounters| e.real_us))
        &&& is_total(
            self.os_cpu_virtual_us,
            counter_total(rows, |e: ProfileCounters| e.os_cpu_virtual_us),
        )
        &&& is_total(
            self.os_cpu_wait_us,
            counter_total(rows, |e: ProfileCounters| e.os_cpu_wait_us),
        )
        &&& self.queries_without_cpu == without_cpu(rows)
    }
}

/// A running sum of one counter.
fn tally(acc: Option<u128>, row: &AttributedQuery, n: Option<u64>, Ghost(bound): Ghost<int>) -> (r: Option<u128>)
    requires
        acc matches Some(a) ==> a <= bound * u64::MAX,
        0 <= bound < 0x7fff_ffff_ffff_ffff,
    ensures
        r == (match (row.row_type, n) {
            (RowType::Finish, Some(v)) => Some(
                ((match acc {
                    Some(a) => a,
                    None => 0,
                }) + v) as u128,
            ),
            _ => acc,
        }),
        r matches Some(a) ==> a <= (bound + 1) * u64::MAX,
{
    match (row.row_type, n) {
        (RowType::Finish, Some(v)) => {
            let a: u128 = match acc {
                Some(a) => a,
                None => 0,
            };
            Some(a + v as u128)
        },
        _ => acc,
    }
}

/// Reduces the attributed rows to the figures that a record publishes.
///
/// Only completed inserts are summed. A start row repeats the finish that
/// follows it with every counter zero, and a failed insert wrote no rows; both
/// are counted apart.
pub fn summarise(rows: &[AttributedQuery], tables: &[&str], window: Window) -> (r: Result<
    ServerSideCost,
    ServerSideError,
>)
    requires
        rows@.len() <= 0x7fff_ffff_ffff_ffff,
    ensures
        if finished(rows@) == 0 {
            r matches Err(ServerSideError::NoAttributedQueries { tables: t, window: w })
                && text::strings(t@) == text::strs(tables@) && w == window
        } else if unattributable(rows@) {
            r matches Err(
                ServerSideError::AsyncInsertsNotAttributable {
                    async_queries,
                    wrote_nothing,
                    queries,
                },
            ) && async_queries == asynchronous(rows@) && wrote_nothing == empty_handed(rows@)
                && queries == finished(rows@)
        } else if without_cpu(rows@) == finished(rows@) {
            r matches Err(ServerSideError::NoCpuCounters { queries }) && queries == finished(rows@)
        } else {
            r matches Ok(c) && c.of_rows(rows@) && c.window == window && text::strings(c.tables@)
                == text::strs(tables@)
        },
{
    let names = text::owned(tables);
    let mut queries: usize = 0;
    let mut started: usize = 0;
    let mut failed: usize = 0;
    let mut async_queries: usize = 0;
    let mut wrote_nothing: usize = 0;
    let mut queries_without_cpu: usize = 0;
    let mut written_rows: u128 = 0;
    let mut inserted_rows: Option<u128> = None;
    let mut inserted_bytes: Option<u128> = None;
    let mut user: Option<u128> = None;
    let mut system: Option<u128> = None;
    let mut wall: Option<u128> = None;
    let mut virt: Option<u128> = None;
    let mut wait: Option<u128> = None;
    let mut i: usize = 0;
    while i < rows.len()
        invariant
            i <= rows.len(),
            rows@.len() <= 0x7fff_ffff_ffff_ffff,
            queries == finished(rows@.take(i as int)),
            started == count(rows@.take(i as int), |r: AttributedQuery| r.row_type is Start),
            failed == count(rows@.take(i as int), |r: AttributedQuery| r.row_type.failed()),
            async_queries == asynchronous(rows@.take(i as int)),
            wrote_nothing == empty_handed(rows@.take(i as int)),
            queries_without_cpu == without_cpu(rows@.take(i as int)),
            written_rows == written(rows@.take(i as int)),
            queries <= i,
            started <= i,
            failed <= i,
            async_queries <= i,
            wrote_nothing <= i,
            queries_without_cpu <= i,
            written_rows <= i * u64::MAX,
            is_total(
                inserted_rows,
                counter_total(rows@.take(i as int), |e: ProfileCounters| e.inserted_rows),
            ),
            is_total(
                inserted_bytes,
                counter_total(rows@.take(i as int), |e: ProfileCounters| e.inserted_bytes),
            ),
            is_total(user, counter_total(rows@.take(i as int), |e: ProfileCounters| e.user_us)),
            is_total(system, counter_total(rows@.take(i as int), |e: ProfileCounters| e.system_us)),
            is_total(wall, counter_total(rows@.take(i as int), |e: ProfileCounters| e.real_us)),
            is_total(
                virt,
                counter_total(rows@.take(i as int), |e: ProfileCounters| e.os_cpu_virtual_us),
            ),
            is_total(
                wait,
                counter_total(rows@.take(i as int), |e: ProfileCounters| e.os_cpu_wait_us),
            ),
            inserted_rows matches Some(a) ==> a <= i * u64::MAX,
            inserted_bytes matches Some(a) ==> a <= i * u64::MAX,
            user matches Some(a) ==> a <= i * u64::MAX,
            system matches Some(a) ==> a <= i * u64::MAX,
            wall matches Some(a) ==> a <= i * u64::MAX,
            virt matches Some(a) ==> a <= i * u64::MAX,
            wait matches Some(a) ==> a <= i * u64::MAX,
        decreases rows.len() - i,
    {
        assert(rows@.take(i + 1).drop_last() =~= rows@.take(i as int));
        let row: AttributedQuery = rows[i];
        let e: ProfileCounters = row.events;
        match row.row_type {
            RowType::Finish => {
                queries = queries + 1;
                written_rows = written_rows + row.written_rows as u128;
                if row.written_rows == 0 {
                    wrote_nothing = wrote_nothing + 1;
                }
                if let Some(n) = e.async_insert_query {
                    if n > 0 {
                        async_queries = async_queries + 1;
                    }
                }
                if e.cpu_us().is_none() {
                    queries_without_cpu = queries_without_cpu + 1;
                }
            },
            RowType::Start => {
                started = started + 1;
            },
            RowType::ExceptionBeforeStart | RowType::ExceptionWhileProcessing => {
                failed = failed + 1;
            },
        }
        inserted_rows = tally(inserted_rows, &row, e.inserted_rows, Ghost(i as int));
        inserted_bytes = tally(inserted_bytes, &row, e.inserted_bytes, Ghost(i as int));
        user = tally(user, &row, e.user_us, Ghost(i as int));
        system = tally(system, &row, e.system_us, Ghost(i as int));
        wall = tally(wall, &row, e.real_us, Ghost(i as int));
        virt = tally(virt, &row, e.os_cpu_virtual_us, Ghost(i as int));
        wait = tally(wait, &row, e.os_cpu_wait_us, Ghost(i as int));
        i = i + 1;
    }
    assert(rows@.take(rows@.len() as int) =~= rows@);
    if queries == 0 {
        return Err(ServerSideError::NoAttributedQueries { tables: names, window });
    }
    if async_queries > 0 || wrote_nothing > 0 {
        return Err(
            ServerSideError::AsyncInsertsNotAttributable { async_queries, wrote_nothing, queries },
        );
    }
    if queries_without_cpu == queries {
        return Err(ServerSideError::NoCpuCounters { queries });
    }
    let user_us: u128 = match user {
        Some(n) => n,
        None => 0,
    };
    let system_us: u128 = match system {
        Some(n) => n,
        None => 0,
    };
    Ok(
        ServerSideCost {
            window,
            tables: names,
            queries,
            queries_started: started,
            failed_queries: failed,
            written_rows,
            inserted_rows,
            inserted_bytes,
            cpu_us: user_us + system_us,
            user_us,
            system_us,
            real_us: wall,
            os_cpu_virtual_us: virt,
            os_cpu_wait_us: wait,
            queries_without_cpu,
        },
    )
}

impl ServerSideCost {
    fn nothing_found(&self) -> (e: ServerSideError)
        ensures
            e matches ServerSideError::NoAttributedQueries { tables, window } && text::strings(
                tables@,
            ) == text::strings(self.tables@) && window == self.window,
    {
        ServerSideError::NoAttributedQueries {
            tables: text::copies(self.tables.as_slice()),
            window: self.window,
        }
    }

    /// CPU microseconds per row that the database wrote: the figure that
    /// describes the insert format.
    pub fn cpu_us_per_written_row(&self) -> (r: Result<Double, ServerSideError>)
        ensures
            match r {
                Ok(q) => self.written_rows > 0 && q == double::of(self.cpu_us as nat).over(
                    double::of(self.written_rows as nat),
                ),
                Err(e) => self.written_rows == 0 && (e matches ServerSideError::NoAttributedQueries {
                    tables,
                    window,
                } && text::strings(tables@) == text::strings(self.tables@) && window == self.window),
            },
    {
        if self.written_rows == 0 {
            Err(self.nothing_found())
        } else {
            Ok(Double::of(self.cpu_us).divide(Double::of(self.written_rows)))
        }
    }

    /// CPU microseconds per row that the driver counted in the target table:
    /// the figure that may be added to the arm's own, because it has the same
    /// denominator.
    pub fn cpu_us_per_landed_row(&self, rows: u64) -> (r: Result<Double, ServerSideError>)
        ensures
            match r {
                Ok(q) => rows > 0 && q == double::of(self.cpu_us as nat).over(
                    double::of(rows as nat),
                ),
                Err(e) => rows == 0 && (e matches ServerSideError::NoAttributedQueries {
                    tables,
                    window,
                } && text::strings(tables@) == text::strings(self.tables@) && window == self.window),
            },
    {
        if rows == 0 {
            Err(self.nothing_found())
        } else {
            Ok(Double::of(self.cpu_us).divide(Double::of(rows as u128)))
        }
    }

    /// Mean rows per completed insert, as the database saw it.
    pub open spec fn batch_size(self) -> Double {
        if self.queries == 0 {
            Double::zero(false)
        } else {
            double::of(self.written_rows as nat).over(double::of(self.queries as nat))
        }
    }

    /// Mean rows per completed insert, as the database saw it.
    pub fn rows_per_insert(&self) -> (r: Double)
        ensures
            r == self.batch_size(),
    {
        if self.queries == 0 {
            Double::nothing()
        } else {
            Double::of(self.written_rows).divide(Double::of(self.queries as u128))
        }
    }

    /// How the figure was obtained, with the caveats that travel with it.
    pub open spec fn account(self) -> Seq<char> {
        let head = "server-side: "@ + text::decimal(self.queries as nat) + " insert(s) into "@
            + text::join(text::strings(self.tables@), "+"@) + " over "@ + self.window.length().fixed(1)
            + "s, "@ + text::decimal(self.written_rows as nat) + " rows written"@;
        let failed = if self.failed_queries > 0 {
            "; "@ + text::decimal(self.failed_queries as nat) + " failed insert(s) excluded"@
        } else {
            Seq::empty()
        };
        let accounted = self.queries + self.failed_queries;
        let running = if self.queries_started > accounted {
            "; "@ + text::decimal((self.queries_started - accounted) as nat)
                + " insert(s) still in flight at the end of the window"@
        } else {
            Seq::empty()
        };
        let silent = if self.queries_without_cpu > 0 {
            "; "@ + text::decimal(self.queries_without_cpu as nat)
                + " insert(s) reported no CPU counters"@
        } else {
            Seq::empty()
        };
        let viewed = if self.inserted_rows is Some && self.inserted_rows->0 != self.written_rows {
            "; InsertedRows differs from written_rows, so a view wrote too"@
        } else {
            Seq::empty()
        };
        head + failed + running + silent + viewed + "; excludes background merges"@
    }

    /// How the figure was obtained, for a record's note.
    pub fn provenance(&self) -> (s: String)
        requires
            self.window.from_ms <= self.window.to_ms,
        ensures
            s@ == self.account(),
    {
        let names = text::joined(self.tables.as_slice(), "+");
        let seconds = self.window.seconds().to_fixed(1);
        let mut s = "server-side: ".to_owned();
        text::push_decimal(&mut s, self.queries as u128);
        s.append(" insert(s) into ");
        s.append(names.as_str());
        s.append(" over ");
        s.append(seconds.as_str());
        s.append("s, ");
        text::push_decimal(&mut s, self.written_rows);
        s.append(" rows written");
        let ghost head = s@;
        if self.failed_queries > 0 {
            s.append("; ");
            text::push_decimal(&mut s, self.failed_queries as u128);
            s.append(" failed insert(s) excluded");
        }
        let ghost failed = if self.failed_queries > 0 {
            "; "@ + text::decimal(self.failed_queries as nat) + " failed insert(s) excluded"@
        } else {
            Seq::empty()
        };
        assert(s@ =~= head + failed);
        let accounted: u128 = self.queries as u128 + self.failed_queries as u128;
        let ghost before = s@;
        if self.queries_started as u128 > accounted {
            s.append("; ");
            text::push_decimal(&mut s, self.queries_started as u128 - accounted);
            s.append(" insert(s) still in flight at the end of the window");
        }
        let ghost running = if self.queries_started > accounted {
            "; "@ + text::decimal((self.queries_started - accounted) as nat)
                + " insert(s) still in flight at the end of the window"@
        } else {
            Seq::empty()
        };
        assert(s@ =~= before + running);
        let ghost before = s@;
        if self.queries_without_cpu > 0 {
            s.append("; ");
            text::push_decimal(&mut s, self.queries_without_cpu as u128);
            s.append(" insert(s) reported no CPU counters");
        }
        let ghost silent = if self.queries_without_cpu > 0 {
            "; "@ + text::decimal(self.queries_without_cpu as nat)
                + " insert(s) reported no CPU counters"@
        } else {
            Seq::empty()
        };
        assert(s@ =~= before + silent);
        let ghost before = s@;
        if let Some(n) = self.inserted_rows {
            if n != self.written_rows {
                s.append("; InsertedRows differs from written_rows, so a view wrote too");
            }
        }
        let ghost viewed = if self.inserted_rows is Some && self.inserted_rows->0
            != self.written_rows {
            "; InsertedRows differs from written_rows, so a view wrote too"@
        } else {
            Seq::empty()
        };
        assert(s@ =~= before + viewed);
        s.append("; excludes background merges");
        s
    }
}

/// A row that did not complete changes none of the summed figures, wherever it
/// stands: neither the starts nor the failures are charged for.
pub proof fn only_completed_inserts_are_charged(
    before: Seq<AttributedQuery>,
    row: AttributedQuery,
    after: Seq<AttributedQuery>,
    f: spec_fn(ProfileCounters) -> Option<u64>,
)
    requires
        !(row.row_type is Finish),
    ensures
        written(before.push(row) + after) == written(before + after),
        counter_total(before.push(row) + after, f) == counter_total(before + after, f),
    decreases after.len(),
{
    if after.len() == 0 {
        assert(before.push(row) + after =~= before.push(row));
        assert(before.push(row).drop_last() =~= before);
        assert(before + after =~= before);
    } else {
        only_completed_inserts_are_charged(before, row, after.drop_last(), f);
        assert((before.push(row) + after).drop_last() =~= before.push(row) + after.drop_last());
        assert((before + after).drop_last() =~= before + after.drop_last());
    }
}

/// A counter that no completed insert carries has no sum: absence never turns
/// into a zero.
pub proof fn an_absent_counter_has_no_total(
    rows: Seq<AttributedQuery>,
    f: spec_fn(ProfileCounters) -> Option<u64>,
)
    ensures
        (counter_total(rows, f) is None) == (forall|i: int|
            0 <= i < rows.len() && (#[trigger] rows[i]).row_type is Finish ==> f(rows[i].events)
                is None),
    decreases rows.len(),
{
    if rows.len() > 0 {
        let before = rows.drop_last();
        an_absent_counter_has_no_total(before, f);
        assert(forall|i: int| 0 <= i < before.len() ==> #[trigger] before[i] == rows[i]);
        assert(rows[rows.len() - 1] == rows.last());
        if counter_total(rows, f) is None {
            assert forall|i: int|
                0 <= i < rows.len() && (#[trigger] rows[i]).row_type is Finish implies f(
                rows[i].events,
            ) is None by {
                if i < before.len() {
                    assert(before[i] == rows[i]);
                }
            }
        } else if counter_total(before, f) is Some {
            let i = choose|i: int|
                0 <= i < before.len() && (#[trigger] before[i]).row_type is Finish && f(
                    before[i].events,
                ) is Some;
            assert(rows[i] == before[i]);
        }
    }
}

// ---------------------------------------------------------------------------
// The questions
// ---------------------------------------------------------------------------

/// The names between quotes.
pub open spec fn quoted_names(names: Seq<Seq<char>>) -> Seq<Seq<char>> {
    names.map_values(|n: Seq<char>| "'"@ + n + "'"@)
}

/// The names between quotes, with commas between them.
pub open spec fn name_list(names: Seq<Seq<char>>) -> Seq<char> {
    text::join(quoted_names(names), ", "@)
}

fn name_list_of(tables: &[&str]) -> (s: String)
    ensures
        s@ == name_list(text::strs(tables@)),
{
    let ghost names = text::strs(tables@);
    let mut out: Vec<String> = Vec::new();
    let mut i: usize = 0;
    while i < tables.len()
        invariant
            i <= tables.len(),
            names == text::strs(tables@),
            text::strings(out@) == quoted_names(names).take(i as int),
        decreases tables.len() - i,
    {
        let mut q = sampler::concat("'", tables[i]);
        q.append("'");
        text::push_text(&mut out, q.as_str());
        assert(quoted_names(names).take(i + 1) =~= quoted_names(names).take(i as int).push(q@));
        i = i + 1;
    }
    assert(quoted_names(names).take(names.len() as int) =~= quoted_names(names));
    text::joined(out.as_slice(), ", ")
}

/// Which executions of a query are looked for: the ones a client began, or the
/// ones another server forwarded. Never both, so that a forwarded insert cannot
/// be counted beside the query that spawned it.
pub open spec fn initial_clause(forwarded_inserts: bool) -> Seq<char> {
    if forwarded_inserts {
        "AND NOT is_initial_query "@
    } else {
        "AND is_initial_query "@
    }
}

/// The attribution query up to the clause on forwarding.
pub open spec fn attribution_head(window: Window) -> Seq<char> {
    let from = text::decimal(window.from_ms as nat);
    let to = text::decimal(window.to_ms as nat);
    "SELECT type, written_rows, query_duration_ms, mapFilter((k, v) -> k IN ("@ + COUNTERS@
        + "), ProfileEvents) FROM system.query_log WHERE event_date >= toDate(fromUnixTimestamp64Milli("@
        + from + ")) - 1 AND event_date <= toDate(fromUnixTimestamp64Milli("@ + to
        + ")) + 1 AND query_start_time_microseconds >= fromUnixTimestamp64Milli("@ + from
        + ") AND query_start_time_microseconds < fromUnixTimestamp64Milli("@ + to
        + ") AND query_kind = 'Insert' "@
}

/// The attribution query after the clause on forwarding.
pub open spec fn attribution_tail(tables: Seq<Seq<char>>) -> Seq<char> {
    "AND hasAny(tables, ["@ + name_list(tables)
        + "]) ORDER BY event_time_microseconds FORMAT TSV"@
}

/// The query that reads the arm's inserts from the log.
pub open spec fn attribution_text(tables: Seq<Seq<char>>, window: Window, forwarded: bool) -> Seq<
    char,
> {
    attribution_head(window) + initial_clause(forwarded) + attribution_tail(tables)
}

/// The query that reads the arm's inserts from the log: every row type, so that
/// an insert that started and never finished is still seen.
///
/// The bounds on the date leave a day on either side. They attribute nothing;
/// they only keep the read from scanning every partition of the log.
pub fn attribution_sql(tables: &[&str], window: Window, forwarded_inserts: bool) -> (s: String)
    ensures
        s@ == attribution_text(text::strs(tables@), window, forwarded_inserts),
{
    let names = name_list_of(tables);
    let from = text::decimal_of(window.from_ms as u128);
    let to = text::decimal_of(window.to_ms as u128);
    let mut s =
        "SELECT type, written_rows, query_duration_ms, mapFilter((k, v) -> k IN (".to_owned();
    s.append(COUNTERS);
    s.append(
        "), ProfileEvents) FROM system.query_log WHERE event_date >= toDate(fromUnixTimestamp64Milli(",
    );
    s.append(from.as_str());
    s.append(")) - 1 AND event_date <= toDate(fromUnixTimestamp64Milli(");
    s.append(to.as_str());
    s.append(")) + 1 AND query_start_time_microseconds >= fromUnixTimestamp64Milli(");
    s.append(from.as_str());
    s.append(") AND query_start_time_microseconds < fromUnixTimestamp64Milli(");
    s.append(to.as_str());
    s.append(") AND query_kind = 'Insert' ");
    let ghost head = s@;
    if forwarded_inserts {
        s.append("AND NOT is_initial_query ");
    } else {
        s.append("AND is_initial_query ");
    }
    let mut tail = sampler::concat("AND hasAny(tables, [", names.as_str());
    tail.append("]) ORDER BY event_time_microseconds FORMAT TSV");
    s.append(tail.as_str());
    s
}

proof fn lemma_no_mark(piece: Seq<char>)
    requires
        forall|i: int|
            0 <= i && i + 1 < piece.len() ==> !(#[trigger] piece[i] == '_' && piece[i + 1] == 'i'),
    ensures
        !text::contains(piece, initial_clause(false)),
{
    reveal_strlit("AND is_initial_query ");
    let p = initial_clause(false);
    assert forall|i: int| !text::occurs(piece, p, i) by {
        if text::occurs(piece, p, i) {
            assert(piece.subrange(i, i + p.len())[6] == piece[i + 6]);
            assert(piece.subrange(i, i + p.len())[7] == piece[i + 7]);
        }
    }
}

/// A text that stands in neither of two pieces stands in both together only
/// across their seam, which a character that the text does not hold rules out.
proof fn lemma_seam(a: Seq<char>, b: Seq<char>, p: Seq<char>)
    requires
        p.len() > 0,
        !text::contains(a, p),
        !text::contains(b, p),
        (a.len() > 0 && !p.contains(a.last())) || (b.len() > 0 && !p.contains(b[0])),
    ensures
        !text::contains(a + b, p),
{
    let s = a + b;
    let n = a.len() as int;
    assert forall|i: int| !text::occurs(s, p, i) by {
        if text::occurs(s, p, i) {
            let m = p.len() as int;
            if i + m <= n {
                assert(a.subrange(i, i + m) =~= s.subrange(i, i + m));
                assert(text::occurs(a, p, i));
            } else if i >= n {
                assert(b.subrange(i - n, i - n + m) =~= s.subrange(i, i + m));
                assert(text::occurs(b, p, i - n));
            } else {
                assert(s.subrange(i, i + m)[n - 1 - i] == s[n - 1]);
                assert(s.subrange(i, i + m)[n - i] == s[n]);
                assert(p.contains(p[n - 1 - i]) && p.contains(p[n - i]));
            }
        }
    }
}

proof fn lemma_decimal_is_clear(n: nat)
    ensures
        text::decimal(n).len() > 0,
        forall|i: int|
            0 <= i < text::decimal(n).len() ==> '0' <= #[trigger] text::decimal(n)[i] <= '9',
    decreases n,
{
    if n >= 10 {
        lemma_decimal_is_clear(n / 10);
    }
}

proof fn lemma_names_are_clear(names: Seq<Seq<char>>)
    requires
        forall|i: int|
            0 <= i < names.len() ==> !text::contains(#[trigger] names[i], "is_initial_query"@),
    ensures
        !text::contains(name_list(names), initial_clause(false)),
        names.len() > 0 ==> name_list(names).len() > 0 && name_list(names).last() == '\'',
    decreases names.len(),
{
    reveal_strlit("AND is_initial_query ");
    reveal_strlit("is_initial_query");
    reveal_strlit("'");
    reveal_strlit(", ");
    let p = initial_clause(false);
    let quoted = quoted_names(names);
    assert(quoted.len() == names.len());
    if names.len() > 0 {
        let last = names.last();
        assert(last == names[names.len() - 1]);
        assert(!text::contains(last, p)) by {
            assert forall|i: int| !text::occurs(last, p, i) by {
                if text::occurs(last, p, i) {
                    assert(last.subrange(i + 4, i + 20) =~= last.subrange(i, i + 21).subrange(4, 20));
                    assert(p.subrange(4, 20) =~= "is_initial_query"@);
                    assert(text::occurs(last, "is_initial_query"@, i + 4));
                }
            }
        }
        lemma_no_mark("'"@);
        lemma_seam("'"@, last, p);
        lemma_seam("'"@ + last, "'"@, p);
        let item = "'"@ + last + "'"@;
        assert(quoted.last() == item);
        assert(item.last() == '\'');
        if names.len() > 1 {
            let before = names.drop_last();
            assert forall|i: int| 0 <= i < before.len() implies !text::contains(
                #[trigger] before[i],
                "is_initial_query"@,
            ) by {
                assert(before[i] == names[i]);
            }
            lemma_names_are_clear(before);
            assert(quoted.drop_last() =~= quoted_names(before));
            lemma_no_mark(", "@);
            lemma_seam(name_list(before), ", "@, p);
            assert(item[0] == '\'');
            lemma_seam(name_list(before) + ", "@, item, p);
            assert(name_list(names) == name_list(before) + ", "@ + item);
        } else {
            assert(name_list(names) == item);
        }
    } else {
        assert(name_list(names) =~= Seq::<char>::empty());
        lemma_no_mark(name_list(names));
    }
}

proof fn lemma_literals_are_clear()
    ensures
        !text::contains("SELECT type, written_rows, query_duration_ms, mapFilter((k, v) -> k IN ("@, initial_clause(false)),
        !text::contains("), ProfileEvents) FROM system.query_log WHERE event_date >= toDate(fromUnixTimestamp64Milli("@, initial_clause(false)),
        !text::contains(")) - 1 AND event_date <= toDate(fromUnixTimestamp64Milli("@, initial_clause(false)),
        !text::contains(")) + 1 AND query_start_time_microseconds >= fromUnixTimestamp64Milli("@, initial_clause(false)),
        !text::contains(") AND query_start_time_microseconds < fromUnixTimestamp64Milli("@, initial_clause(false)),
        !text::contains(") AND query_kind = 'Insert' "@, initial_clause(false)),
        !text::contains(COUNTERS@, initial_clause(false)),
        !text::contains("AND hasAny(tables, ["@, initial_clause(false)),
        !text::contains("]) ORDER BY event_time_microseconds FORMAT TSV"@, initial_clause(false)),
{
    assert(!text::contains("SELECT type, written_rows, query_duration_ms, mapFilter((k, v) -> k IN ("@, initial_clause(false))) by {
        reveal_strlit("SELECT type, written_rows, query_duration_ms, mapFilter((k, v) -> k IN (");
        lemma_no_mark("SELECT type, written_rows, query_duration_ms, mapFilter((k, v) -> k IN ("@);
    }
    assert(!text::contains("), ProfileEvents) FROM system.query_log WHERE event_date >= toDate(fromUnixTimestamp64Milli("@, initial_clause(false))) by {
        reveal_strlit("), ProfileEvents) FROM system.query_log WHERE event_date >= toDate(fromUnixTimestamp64Milli(");
        lemma_no_mark("), ProfileEvents) FROM system.query_log WHERE event_date >= toDate(fromUnixTimestamp64Milli("@);
    }
    assert(!text::contains(")) - 1 AND event_date <= toDate(fromUnixTimestamp64Milli("@, initial_clause(false))) by {
        reveal_strlit(")) - 1 AND event_date <= toDate(fromUnixTimestamp64Milli(");
        lemma_no_mark(")) - 1 AND event_date <= toDate(fromUnixTimestamp64Milli("@);
    }
    assert(!text::contains(")) + 1 AND query_start_time_microseconds >= fromUnixTimestamp64Milli("@, initial_clause(false))) by {
        reveal_strlit(")) + 1 AND query_start_time_microseconds >= fromUnixTimestamp64Milli(");
        lemma_no_mark(")) + 1 AND query_start_time_microseconds >= fromUnixTimestamp64Milli("@);
    }
    assert(!text::contains(") AND query_start_time_microseconds < fromUnixTimestamp64Milli("@, initial_clause(false))) by {
        reveal_strlit(") AND query_start_time_microseconds < fromUnixTimestamp64Milli(");
        lemma_no_mark(") AND query_start_time_microseconds < fromUnixTimestamp64Milli("@);
    }
    assert(!text::contains(") AND query_kind = 'Insert' "@, initial_clause(false))) by {
        reveal_strlit(") AND query_kind = 'Insert' ");
        lemma_no_mark(") AND query_kind = 'Insert' "@);
    }
    assert(!text::contains("'UserTimeMicroseconds', 'SystemTimeMicroseconds', 'RealTimeMicroseconds', 'OSCPUVirtualTimeMicroseconds', 'OSCPUWaitMicroseconds', 'InsertedRows', 'InsertedBytes', 'AsyncInsertQuery', 'AsyncInsertRows'"@, initial_clause(false))) by {
        reveal_strlit("'UserTimeMicroseconds', 'SystemTimeMicroseconds', 'RealTimeMicroseconds', 'OSCPUVirtualTimeMicroseconds', 'OSCPUWaitMicroseconds', 'InsertedRows', 'InsertedBytes', 'AsyncInsertQuery', 'AsyncInsertRows'");
        lemma_no_mark("'UserTimeMicroseconds', 'SystemTimeMicroseconds', 'RealTimeMicroseconds', 'OSCPUVirtualTimeMicroseconds', 'OSCPUWaitMicroseconds', 'InsertedRows', 'InsertedBytes', 'AsyncInsertQuery', 'AsyncInsertRows'"@);
    }
    assert(!text::contains("AND hasAny(tables, ["@, initial_clause(false))) by {
        reveal_strlit("AND hasAny(tables, [");
        lemma_no_mark("AND hasAny(tables, ["@);
    }
    assert(!text::contains("]) ORDER BY event_time_microseconds FORMAT TSV"@, initial_clause(false))) by {
        reveal_strlit("]) ORDER BY event_time_microseconds FORMAT TSV");
        lemma_no_mark("]) ORDER BY event_time_microseconds FORMAT TSV"@);
    }
}

proof fn lemma_number_is_clear(n: nat)
    ensures
        !text::contains(text::decimal(n), initial_clause(false)),
{
    lemma_decimal_is_clear(n);
    let d = text::decimal(n);
    assert forall|i: int| 0 <= i && i + 1 < d.len() implies !(#[trigger] d[i] == '_' && d[i + 1]
        == 'i') by {
        assert('0' <= d[i] <= '9');
    }
    lemma_no_mark(d);
}

proof fn lemma_head_is_clear(window: Window)
    ensures
        !text::contains(attribution_head(window), initial_clause(false)),
        attribution_head(window).len() >= 2,
        attribution_head(window)[attribution_head(window).len() - 2] == '\'',
        attribution_head(window).last() == ' ',
{
    let p = initial_clause(false);
    let from = text::decimal(window.from_ms as nat);
    let to = text::decimal(window.to_ms as nat);
    reveal_strlit("AND is_initial_query ");
    lemma_literals_are_clear();
    lemma_number_is_clear(window.from_ms as nat);
    lemma_number_is_clear(window.to_ms as nat);
    lemma_decimal_is_clear(window.from_ms as nat);
    lemma_decimal_is_clear(window.to_ms as nat);
    reveal_strlit("SELECT type, written_rows, query_duration_ms, mapFilter((k, v) -> k IN (");
    reveal_strlit("), ProfileEvents) FROM system.query_log WHERE event_date >= toDate(fromUnixTimestamp64Milli(");
    reveal_strlit(")) - 1 AND event_date <= toDate(fromUnixTimestamp64Milli(");
    reveal_strlit(")) + 1 AND query_start_time_microseconds >= fromUnixTimestamp64Milli(");
    reveal_strlit(") AND query_start_time_microseconds < fromUnixTimestamp64Milli(");
    reveal_strlit(") AND query_kind = 'Insert' ");
    let h = "SELECT type, written_rows, query_duration_ms, mapFilter((k, v) -> k IN ("@;
    lemma_seam(h, COUNTERS@, p);
    let h = h + COUNTERS@;
    lemma_seam(h, "), ProfileEvents) FROM system.query_log WHERE event_date >= toDate(fromUnixTimestamp64Milli("@, p);
    let h = h + "), ProfileEvents) FROM system.query_log WHERE event_date >= toDate(fromUnixTimestamp64Milli("@;
    lemma_seam(h, from, p);
    let h = h + from;
    lemma_seam(h, ")) - 1 AND event_date <= toDate(fromUnixTimestamp64Milli("@, p);
    let h = h + ")) - 1 AND event_date <= toDate(fromUnixTimestamp64Milli("@;
    lemma_seam(h, to, p);
    let h = h + to;
    lemma_seam(h, ")) + 1 AND query_start_time_microseconds >= fromUnixTimestamp64Milli("@, p);
    let h = h + ")) + 1 AND query_start_time_microseconds >= fromUnixTimestamp64Milli("@;
    lemma_seam(h, from, p);
    let h = h + from;
    lemma_seam(h, ") AND query_start_time_microseconds < fromUnixTimestamp64Milli("@, p);
    let h = h + ") AND query_start_time_microseconds < fromUnixTimestamp64Milli("@;
    lemma_seam(h, to, p);
    let h = h + to;
    lemma_seam(h, ") AND query_kind = 'Insert' "@, p);
    let h = h + ") AND query_kind = 'Insert' "@;
    assert(h == attribution_head(window));
}

proof fn lemma_tail_is_clear(tables: Seq<Seq<char>>)
    requires
        forall|i: int|
            0 <= i < tables.len() ==> !text::contains(#[trigger] tables[i], "is_initial_query"@),
    ensures
        !text::contains(attribution_tail(tables), initial_clause(false)),
{
    let p = initial_clause(false);
    reveal_strlit("AND is_initial_query ");
    reveal_strlit("AND hasAny(tables, [");
    reveal_strlit("]) ORDER BY event_time_microseconds FORMAT TSV");
    lemma_literals_are_clear();
    lemma_names_are_clear(tables);
    let list = name_list(tables);
    lemma_seam("AND hasAny(tables, ["@, list, p);
    lemma_seam(
        "AND hasAny(tables, ["@ + list,
        "]) ORDER BY event_time_microseconds FORMAT TSV"@,
        p,
    );
}

proof fn lemma_stands_once(head: Seq<char>, tail: Seq<char>, i: int)
    requires
        !text::contains(head, "AND is_initial_query "@),
        !text::contains(tail, "AND is_initial_query "@),
        head.len() >= 2,
        head[head.len() - 2] == '\'',
        head.last() == ' ',
    ensures
        text::occurs(head + "AND is_initial_query "@ + tail, "AND is_initial_query "@, i)
            == (i == head.len()),
{
    reveal_strlit("AND is_initial_query ");
    let p = "AND is_initial_query "@;
    let s = head + p + tail;
    let n = head.len() as int;
    if i == n {
        assert(s.subrange(n, n + 21) =~= p);
    } else if text::occurs(s, p, i) {
        assert(s.subrange(i, i + 21)[0] == s[i]);
        if i + 21 <= n {
            assert(head.subrange(i, i + 21) =~= s.subrange(i, i + 21));
            assert(text::occurs(head, p, i));
        } else if i < n {
            if i < n - 1 {
                assert(s.subrange(i, i + 21)[n - 2 - i] == s[n - 2]);
            }
        } else if i < n + 21 {
            assert(s[i] == p[i - n]);
        } else {
            let at = i - n - 21;
            assert(tail.subrange(at, at + 21) =~= s.subrange(i, i + 21));
            assert(text::occurs(tail, p, at));
        }
    }
}

proof fn lemma_replaced_once(head: Seq<char>, p: Seq<char>, tail: Seq<char>, with: Seq<char>)
    requires
        p.len() > 0,
        !text::contains(tail, p),
        forall|i: int| #[trigger] text::occurs(head + p + tail, p, i) == (i == head.len()),
    ensures
        text::replace(head + p + tail, p, with) == head + with + tail,
{
    let s = head + p + tail;
    let n = head.len() as int;
    text::lemma_first_from(s, p, 0);
    assert(text::occurs(s, p, n));
    assert(text::first(s, p) == Some(n));
    assert(s.take(n) =~= head);
    assert(s.skip(n + p.len()) =~= tail);
    text::lemma_contains_first(tail, p);
    assert(text::split(tail, p) =~= seq![tail]);
    let parts = text::split(s, p);
    assert(parts =~= seq![head, tail]);
    assert(parts.drop_last() =~= seq![head]);
    assert(text::join(seq![head], with) == head);
}

/// The query for an arm whose inserts are forwarded is the query for any other
/// arm with one predicate inverted: that predicate stands in it once, and nothing
/// else differs. A table name that spells the predicate's column is left out.
pub proof fn forwarding_inverts_one_predicate(tables: Seq<Seq<char>>, window: Window)
    requires
        forall|i: int|
            0 <= i < tables.len() ==> !text::contains(#[trigger] tables[i], "is_initial_query"@),
    ensures
        forall|i: int| #[trigger]
            text::occurs(attribution_text(tables, window, false), "AND is_initial_query "@, i) == (i
                == attribution_head(window).len()),
        attribution_text(tables, window, true) == text::replace(
            attribution_text(tables, window, false),
            "AND is_initial_query "@,
            "AND NOT is_initial_query "@,
        ),
{
    let p = "AND is_initial_query "@;
    let head = attribution_head(window);
    let tail = attribution_tail(tables);
    lemma_head_is_clear(window);
    lemma_tail_is_clear(tables);
    assert forall|i: int| #[trigger] text::occurs(head + p + tail, p, i) == (i == head.len()) by {
        lemma_stands_once(head, tail, i);
    }
    assert(p.len() > 0) by {
        reveal_strlit("AND is_initial_query ");
    }
    lemma_replaced_once(head, p, tail, "AND NOT is_initial_query "@);
}

/// Merge work that the database completed over a window.
#[derive(Clone, Copy, Debug, PartialEq, Eq, Structural)]
pub struct MergeActivity {
    /// Rows that merges read.
    pub rows_merged: u64,
    /// Summed elapsed time of the merges. They run side by side, so it can
    /// exceed the window.
    pub duration_ms: u64,
}

/// The query that reads the merges completed in a window.
pub open spec fn merge_text(tables: Seq<Seq<char>>, window: Window) -> Seq<char> {
    let from = text::decimal(window.from_ms as nat);
    let to = text::decimal(window.to_ms as nat);
    "SELECT sumIf(rows, event_type = 'MergeParts'),          sumIf(duration_ms, event_type = 'MergeParts')          FROM system.part_log          WHERE event_date >= toDate(fromUnixTimestamp64Milli("@
        + from
        + ")) - 1            AND event_date <= toDate(fromUnixTimestamp64Milli("@
        + to
        + ")) + 1            AND event_time_microseconds >= fromUnixTimestamp64Milli("@
        + from
        + ")            AND event_time_microseconds < fromUnixTimestamp64Milli("@
        + to
        + ")            AND concat(database, '.', table) IN ("@
        + name_list(tables)
        + ")          FORMAT TSV"@
}

/// The query that reads the merges completed in a window.
pub fn merge_sql(tables: &[&str], window: Window) -> (s: String)
    ensures
        s@ == merge_text(text::strs(tables@), window),
{
    let names = name_list_of(tables);
    let from = text::decimal_of(window.from_ms as u128);
    let to = text::decimal_of(window.to_ms as u128);
    let mut s = "SELECT sumIf(rows, event_type = 'MergeParts'),          sumIf(duration_ms, event_type = 'MergeParts')          FROM system.part_log          WHERE event_date >= toDate(fromUnixTimestamp64Milli(".to_owned();
    s.append(from.as_str());
    s.append(")) - 1            AND event_date <= toDate(fromUnixTimestamp64Milli(");
    s.append(to.as_str());
    s.append(")) + 1            AND event_time_microseconds >= fromUnixTimestamp64Milli(");
    s.append(from.as_str());
    s.append(")            AND event_time_microseconds < fromUnixTimestamp64Milli(");
    s.append(to.as_str());
    s.append(")            AND concat(database, '.', table) IN (");
    s.append(names.as_str());
    s.append(")          FORMAT TSV");
    s
}

/// What is wrong with a merge reading, or the reading: two integers between
/// tabs. A zero is a reading, because the server did answer.
pub open spec fn merges_of(line: Seq<char>) -> Result<MergeActivity, Seq<char>> {
    let f = text::split(line, "\t"@);
    match text::parse_u64(text::trim(f[0])) {
        None => Err("rows_merged is not an integer"@),
        Some(rows) => if f.len() < 2 {
            Err("no duration_ms column"@)
        } else {
            match text::parse_u64(text::trim(f[1])) {
                None => Err("duration_ms is not an integer"@),
                Some(duration) => if f.len() > 2 {
                    Err("more than two columns"@)
                } else {
                    Ok(MergeActivity { rows_merged: rows as u64, duration_ms: duration as u64 })
                },
            }
        },
    }
}

/// Reads the answer to [`merge_sql`].
pub fn parse_merge_activity(body: &str) -> (r: Result<MergeActivity, ServerSideError>)
    ensures
        if is_exception_text(body@) {
            r matches Err(ServerSideError::ServerException(e)) && e@ == text::trim(body@)
        } else {
            match r {
                Ok(m) => merges_of(text::trim(body@)) == Ok::<MergeActivity, Seq<char>>(m),
                Err(e) => e matches ServerSideError::Malformed { line, why } && line@ == text::trim(
                    body@,
                ) && merges_of(text::trim(body@)) == Err::<MergeActivity, Seq<char>>(why@),
            }
        },
{
    let chars = text::chars_of(body);
    let line = text::trimmed(chars.as_slice());
    if text::has(chars.as_slice(), "DB::Exception") {
        return Err(ServerSideError::ServerException(text::string_of(line)));
    }
    proof {
        reveal_strlit("\t");
    }
    let f = text::fields(line, "\t");
    let ghost all = text::split(line@, "\t"@);
    assert(all.len() == f@.len());
    assert(all[0] == f@[0]@);
    let rows_merged: u64 = match text::to_u64(text::trimmed(f[0])) {
        Some(n) => n,
        None => {
            return Err(malformed(line, "rows_merged is not an integer"));
        },
    };
    if f.len() < 2 {
        return Err(malformed(line, "no duration_ms column"));
    }
    assert(all[1] == f@[1]@);
    let duration_ms: u64 = match text::to_u64(text::trimmed(f[1])) {
        Some(n) => n,
        None => {
            return Err(malformed(line, "duration_ms is not an integer"));
        },
    };
    if f.len() > 2 {
        return Err(malformed(line, "more than two columns"));
    }
    Ok(MergeActivity { rows_merged, duration_ms })
}

// ---------------------------------------------------------------------------
// The answers
// ---------------------------------------------------------------------------

/// Whether the logs were flushed, from how the server answered
/// [`FLUSH_LOGS_SQL`].
pub open spec fn is_flushed(answer: Result<String, String>) -> bool {
    answer matches Ok(body) && !is_exception_text(body@)
}

/// Whether `e` says why the logs were not flushed.
pub open spec fn says_unflushed(e: ServerSideError, answer: Result<String, String>) -> bool {
    match answer {
        Err(why) => e matches ServerSideError::Transport(t) && t@ == why@,
        Ok(body) => e matches ServerSideError::ServerException(t) && t@ == text::trim(body@),
    }
}

/// Whether the logs were flushed, from how the server answered
/// [`FLUSH_LOGS_SQL`]. Reading an unflushed log would give a smaller and quite
/// plausible number, so anything but a clean answer is a refusal.
pub fn flush_logs(answer: &Result<String, String>) -> (r: Result<(), ServerSideError>)
    ensures
        match r {
            Ok(_) => is_flushed(*answer),
            Err(e) => !is_flushed(*answer) && says_unflushed(e, *answer),
        },
{
    match answer {
        Err(e) => Err(ServerSideError::Transport(e.clone())),
        Ok(body) => {
            let chars = text::chars_of(body.as_str());
            if text::has(chars.as_slice(), "DB::Exception") {
                Err(
                    ServerSideError::ServerException(
                        text::string_of(text::trimmed(chars.as_slice())),
                    ),
                )
            } else {
                Ok(())
            }
        },
    }
}

/// Whether `r` is what the two answers say of the merge work: the figure, or the
/// first reason why there is none.
pub open spec fn states_merges(
    r: Result<MergeActivity, ServerSideError>,
    flushed: Result<String, String>,
    answer: Result<String, String>,
) -> bool {
    if !is_flushed(flushed) {
        r matches Err(e) && says_unflushed(e, flushed)
    } else {
        match answer {
            Err(e) => r matches Err(ServerSideError::Transport(t)) && t@ == e@,
            Ok(body) => if is_exception_text(body@) {
                r matches Err(ServerSideError::ServerException(t)) && t@ == text::trim(body@)
            } else {
                match r {
                    Ok(m) => merges_of(text::trim(body@)) == Ok::<MergeActivity, Seq<char>>(m),
                    Err(e) => e matches ServerSideError::Malformed { line, why } && line@
                        == text::trim(body@) && merges_of(text::trim(body@)) == Err::<
                        MergeActivity,
                        Seq<char>,
                    >(why@),
                }
            },
        }
    }
}

/// The merge work completed over a window, from how the server answered
/// [`FLUSH_LOGS_SQL`] and then [`merge_sql`].
pub fn measure_merges(flushed: &Result<String, String>, answer: &Result<String, String>) -> (r:
    Result<MergeActivity, ServerSideError>)
    ensures
        states_merges(r, *flushed, *answer),
{
    if let Err(e) = flush_logs(flushed) {
        return Err(e);
    }
    match answer {
        Err(e) => Err(ServerSideError::Transport(e.clone())),
        Ok(body) => parse_merge_activity(body.as_str()),
    }
}

/// Whether `r` is what the two answers say of the inserts' cost: the figure, or
/// the first reason why there is none.
pub open spec fn states_cost(
    r: Result<ServerSideCost, ServerSideError>,
    flushed: Result<String, String>,
    answer: Result<String, String>,
    tables: Seq<Seq<char>>,
    window: Window,
) -> bool {
    if !is_flushed(flushed) {
        r matches Err(e) && says_unflushed(e, flushed)
    } else {
        match answer {
            Err(e) => r matches Err(ServerSideError::Transport(t)) && t@ == e@,
            Ok(body) => if is_exception_text(body@) {
                r matches Err(ServerSideError::ServerException(t)) && t@ == text::trim(body@)
            } else {
                match rows_of(text::lines(body@)) {
                    Err(bad) => r matches Err(ServerSideError::Malformed { line, why }) && (
                        line@,
                        why@,
                    ) == bad,
                    Ok(rows) => if finished(rows) == 0 {
                        r matches Err(
                            ServerSideError::NoAttributedQueries { tables: t, window: w },
                        ) && text::strings(t@) == tables && w == window
                    } else if unattributable(rows) {
                        r matches Err(
                            ServerSideError::AsyncInsertsNotAttributable {
                                async_queries,
                                wrote_nothing,
                                queries,
                            },
                        ) && async_queries == asynchronous(rows) && wrote_nothing
                            == empty_handed(rows) && queries == finished(rows)
                    } else if without_cpu(rows) == finished(rows) {
                        r matches Err(ServerSideError::NoCpuCounters { queries }) && queries
                            == finished(rows)
                    } else {
                        r matches Ok(c) && c.of_rows(rows) && c.window == window && text::strings(
                            c.tables@,
                        ) == tables
                    },
                }
            },
        }
    }
}

/// What an arm's inserts cost, from how the server answered [`FLUSH_LOGS_SQL`]
/// and then [`attribution_sql`].
pub fn measure(
    flushed: &Result<String, String>,
    answer: &Result<String, String>,
    tables: &[&str],
    window: Window,
) -> (r: Result<ServerSideCost, ServerSideError>)
    requires
        answer matches Ok(body) ==> (rows_of(text::lines(body@)) matches Ok(rows) ==> rows.len()
            <= 0x7fff_ffff_ffff_ffff),
    ensures
        states_cost(r, *flushed, *answer, text::strs(tables@), window),
{
    if let Err(e) = flush_logs(flushed) {
        return Err(e);
    }
    match answer {
        Err(e) => Err(ServerSideError::Transport(e.clone())),
        Ok(body) => {
            match parse_response(body.as_str()) {
                Err(e) => Err(e),
                Ok(rows) => summarise(rows.as_slice(), tables, window),
            }
        },
    }
}

// ---------------------------------------------------------------------------
// Settling
// ---------------------------------------------------------------------------

/// What to do while waiting for the server to settle.
#[derive(Clone, Copy, Debug, PartialEq, Eq, Structural)]
pub enum Settle {
    /// Ask again after this many milliseconds.
    Poll(u64),
    /// Wait this many milliseconds more and go on.
    Quiet(u64),
}

/// The query that counts a table's active parts and running merges.
pub fn settle_sql(table: &str) -> (s: String)
    ensures
        s@ == "SELECT (SELECT count() FROM system.parts WHERE table = '"@ + table@
            + "' AND active) + (SELECT count() FROM system.merges WHERE table = '"@ + table@
            + "') FORMAT TSV"@,
{
    let mut s = sampler::concat(
        "SELECT (SELECT count() FROM system.parts WHERE table = '",
        table,
    );
    s.append("' AND active) + (SELECT count() FROM system.merges WHERE table = '");
    s.append(table);
    s.append("') FORMAT TSV");
    s
}

/// Whether the answer to [`settle_sql`] says that work is going on. One that
/// cannot be read says no such thing: the system tables are a diagnostic, and
/// a wait that hung because one stopped answering would be the worse failure.
pub open spec fn busy(answer: Result<String, String>) -> bool {
    answer matches Ok(body) && text::parse_u64(text::trim(body@)) matches Some(n) && n > 0
}

/// What to do `elapsed_ms` into the wait, given the server's last answer: poll
/// until nothing is going on or [`SETTLE_MAX_S`] have passed.
pub fn wait_until_settled(elapsed_ms: u64, answer: &Result<String, String>) -> (r: Settle)
    ensures
        r == (if busy(*answer) && elapsed_ms < SETTLE_MAX_S * 1000 {
            Settle::Poll(SETTLE_POLL_MS)
        } else {
            Settle::Quiet(SETTLE_QUIET_MS)
        }),
{
    let going_on: bool = match answer {
        Err(_) => false,
        Ok(body) => {
            let chars = text::chars_of(body.as_str());
            match text::to_u64(text::trimmed(chars.as_slice())) {
                Some(n) => n > 0,
                None => false,
            }
        },
    };
    if going_on && elapsed_ms < SETTLE_MAX_S * 1000 {
        Settle::Poll(SETTLE_POLL_MS)
    } else {
        Settle::Quiet(SETTLE_QUIET_MS)
    }
}

// ---------------------------------------------------------------------------
// Laws
// ---------------------------------------------------------------------------

/// One counter more, where there may be none.
pub open spec fn plus_counter(a: Option<u128>, n: Option<u64>) -> Option<nat> {
    match (a, n) {
        (Some(x), Some(y)) => Some((x + y) as nat),
        (Some(x), None) => Some(x as nat),
        (None, Some(y)) => Some(y as nat),
        (None, None) => None,
    }
}

proof fn lemma_count_push(
    rows: Seq<AttributedQuery>,
    q: AttributedQuery,
    p: spec_fn(AttributedQuery) -> bool,
)
    ensures
        count(rows.push(q), p) == count(rows, p) + if p(q) {
            1nat
        } else {
            0nat
        },
{
    assert(rows.push(q).drop_last() =~= rows);
}

/// What one more row of the log adds to the figures. A completed insert adds one
/// insert, the rows that it wrote and each of its counters to its own sum; a start
/// and a failure add one to their own count and nothing to any sum.
pub proof fn a_row_adds_what_it_says(
    rows: Seq<AttributedQuery>,
    q: AttributedQuery,
    a: ServerSideCost,
    b: ServerSideCost,
)
    requires
        a.of_rows(rows),
        b.of_rows(rows.push(q)),
    ensures
        q.row_type is Finish ==> {
            &&& b.queries == a.queries + 1
            &&& b.queries_started == a.queries_started && b.failed_queries == a.failed_queries
            &&& b.written_rows == a.written_rows + q.written_rows
            &&& b.user_us == a.user_us + count_or_zero(q.events.user_us)
            &&& b.system_us == a.system_us + count_or_zero(q.events.system_us)
            &&& b.cpu_us == a.cpu_us + count_or_zero(q.events.user_us) + count_or_zero(
                q.events.system_us,
            )
            &&& is_total(b.inserted_rows, plus_counter(a.inserted_rows, q.events.inserted_rows))
            &&& is_total(b.inserted_bytes, plus_counter(a.inserted_bytes, q.events.inserted_bytes))
            &&& is_total(b.real_us, plus_counter(a.real_us, q.events.real_us))
            &&& is_total(
                b.os_cpu_virtual_us,
                plus_counter(a.os_cpu_virtual_us, q.events.os_cpu_virtual_us),
            )
            &&& is_total(b.os_cpu_wait_us, plus_counter(a.os_cpu_wait_us, q.events.os_cpu_wait_us))
            &&& b.queries_without_cpu == a.queries_without_cpu + if q.events.user_us is None
                && q.events.system_us is None {
                1int
            } else {
                0int
            }
        },
        !(q.row_type is Finish) ==> {
            &&& b.queries == a.queries
            &&& b.written_rows == a.written_rows && b.cpu_us == a.cpu_us
            &&& b.user_us == a.user_us && b.system_us == a.system_us
            &&& b.inserted_rows == a.inserted_rows && b.inserted_bytes == a.inserted_bytes
            &&& b.real_us == a.real_us && b.os_cpu_virtual_us == a.os_cpu_virtual_us
            &&& b.os_cpu_wait_us == a.os_cpu_wait_us
            &&& b.queries_without_cpu == a.queries_without_cpu
        },
        q.row_type is Start ==> b.queries_started == a.queries_started + 1 && b.failed_queries
            == a.failed_queries,
        q.row_type is ExceptionBeforeStart || q.row_type is ExceptionWhileProcessing
            ==> b.failed_queries == a.failed_queries + 1 && b.queries_started == a.queries_started,
{
    let more = rows.push(q);
    assert(more.drop_last() =~= rows);
    lemma_count_push(rows, q, |r: AttributedQuery| r.row_type is Finish);
    lemma_count_push(rows, q, |r: AttributedQuery| r.row_type is Start);
    lemma_count_push(rows, q, |r: AttributedQuery| r.row_type.failed());
    lemma_count_push(rows, q, |r: AttributedQuery| r.row_type is Finish && !r.events.has_cpu());
    lemma_total_push(rows, q, |e: ProfileCounters| e.inserted_rows);
    lemma_total_push(rows, q, |e: ProfileCounters| e.inserted_bytes);
    lemma_total_push(rows, q, |e: ProfileCounters| e.user_us);
    lemma_total_push(rows, q, |e: ProfileCounters| e.system_us);
    lemma_total_push(rows, q, |e: ProfileCounters| e.real_us);
    lemma_total_push(rows, q, |e: ProfileCounters| e.os_cpu_virtual_us);
    lemma_total_push(rows, q, |e: ProfileCounters| e.os_cpu_wait_us);
}

proof fn lemma_total_push(
    rows: Seq<AttributedQuery>,
    q: AttributedQuery,
    f: spec_fn(ProfileCounters) -> Option<u64>,
)
    ensures
        counter_total(rows.push(q), f) == (match (q.row_type, f(q.events)) {
            (RowType::Finish, Some(n)) => Some(
                (match counter_total(rows, f) {
                    Some(b) => b,
                    None => 0,
                }) + n as nat,
            ),
            _ => counter_total(rows, f),
        }),
{
    assert(rows.push(q).drop_last() =~= rows);
}

/// A window spans its readings: none is earlier or later, and one is at each end.
pub proof fn a_window_spans_its_readings(rows: Seq<sampler::Sample>, i: int)
    requires
        0 <= i < rows.len(),
    ensures
        min_time(rows) matches Some(a) && a <= rows[i].t_ms && exists|k: int|
            0 <= k < rows.len() && (#[trigger] rows[k]).t_ms == a,
        max_time(rows) matches Some(z) && rows[i].t_ms <= z && exists|k: int|
            0 <= k < rows.len() && (#[trigger] rows[k]).t_ms == z,
    decreases rows.len(),
{
    let t = rows.drop_last();
    assert(rows[rows.len() - 1] == rows.last());
    if t.len() > 0 {
        let j = if i < t.len() {
            i
        } else {
            0
        };
        a_window_spans_its_readings(t, j);
        assert(t[j] == rows[j]);
        let a = choose|k: int| 0 <= k < t.len() && (#[trigger] t[k]).t_ms == min_time(t)->0;
        let z = choose|k: int| 0 <= k < t.len() && (#[trigger] t[k]).t_ms == max_time(t)->0;
        assert(rows[a] == t[a] && rows[z] == t[z]);
    } else {
        assert(min_time(t) is None && max_time(t) is None);
    }
}

/// An entry of a counter map, as the server writes it.
pub open spec fn entry_text(key: Seq<char>, n: u64) -> Seq<char> {
    seq!['\''] + key + seq!['\'', ':'] + text::decimal(n as nat)
}

/// Whether a key can stand in an entry: it holds letters alone.
pub open spec fn is_key(key: Seq<char>) -> bool {
    forall|i: int|
        0 <= i < key.len() ==> ('a' <= #[trigger] key[i] <= 'z' || 'A' <= key[i] <= 'Z')
}

proof fn lemma_entry(c: ProfileCounters, key: Seq<char>, n: u64)
    requires
        is_key(key),
    ensures
        with_entry(c, entry_text(key, n)) == Ok::<ProfileCounters, Seq<char>>(c.with(key, n)),
        forall|k: int|
            0 <= k < entry_text(key, n).len() ==> #[trigger] entry_text(key, n)[k] != ','
                && !text::is_space(entry_text(key, n)[k]),
{
    let e = entry_text(key, n);
    let d = text::decimal(n as nat);
    let quoted = seq!['\''] + key + seq!['\''];
    let l = quoted.len() as int;
    reveal_strlit(":");
    reveal_strlit("'");
    assert(":"@ =~= seq![':']);
    assert("'"@ =~= seq!['\'']);
    text::a_decimal_is_a_word(n as nat);
    text::decimal_reads_back(n as nat);
    text::a_word_is_kept(d);
    assert(e =~= quoted + seq![':'] + d);
    assert forall|k: int| 0 <= k < quoted.len() implies !text::is_space(#[trigger] quoted[k])
        && quoted[k] != ':' && quoted[k] != ',' by {
        if 0 < k < quoted.len() - 1 {
            assert(quoted[k] == key[k - 1]);
        }
    }
    assert forall|k: int| 0 <= k < e.len() implies #[trigger] e[k] != ',' && !text::is_space(
        e[k],
    ) by {
        if k < l {
            assert(e[k] == quoted[k]);
        } else if k > l {
            assert(e[k] == d[k - l - 1]);
        }
    }
    text::a_cut_reads_back(quoted, ':', d);
    text::a_word_is_kept(quoted);
    assert(quoted.take(1) =~= seq!['\'']);
    let rest = quoted.skip(1);
    assert(rest.skip(rest.len() - 1) =~= seq!['\'']);
    assert(rest.take(rest.len() - 1) =~= key);
}

/// The counters of a map that names all nine, each with its own number.
pub open spec fn nine(c: ProfileCounters) -> Seq<Seq<char>> {
    seq![
        entry_text("UserTimeMicroseconds"@, c.user_us->0),
        entry_text("SystemTimeMicroseconds"@, c.system_us->0),
        entry_text("RealTimeMicroseconds"@, c.real_us->0),
        entry_text("OSCPUVirtualTimeMicroseconds"@, c.os_cpu_virtual_us->0),
        entry_text("OSCPUWaitMicroseconds"@, c.os_cpu_wait_us->0),
        entry_text("InsertedRows"@, c.inserted_rows->0),
        entry_text("InsertedBytes"@, c.inserted_bytes->0),
        entry_text("AsyncInsertQuery"@, c.async_insert_query->0),
        entry_text("AsyncInsertRows"@, c.async_insert_rows->0),
    ]
}

proof fn lemma_keys()
    ensures
        is_key("UserTimeMicroseconds"@) && "UserTimeMicroseconds"@.len() == 20,
        is_key("SystemTimeMicroseconds"@) && "SystemTimeMicroseconds"@.len() == 22,
        is_key("RealTimeMicroseconds"@) && "RealTimeMicroseconds"@.len() == 20,
        "UserTimeMicroseconds"@[0] == 'U' && "RealTimeMicroseconds"@[0] == 'R',
        is_key("OSCPUVirtualTimeMicroseconds"@) && "OSCPUVirtualTimeMicroseconds"@.len() == 28,
        is_key("OSCPUWaitMicroseconds"@) && "OSCPUWaitMicroseconds"@.len() == 21,
        is_key("InsertedRows"@) && "InsertedRows"@.len() == 12,
        is_key("InsertedBytes"@) && "InsertedBytes"@.len() == 13,
        is_key("AsyncInsertQuery"@) && "AsyncInsertQuery"@.len() == 16,
        is_key("AsyncInsertRows"@) && "AsyncInsertRows"@.len() == 15,
{
    reveal_strlit("UserTimeMicroseconds");
    reveal_strlit("SystemTimeMicroseconds");
    reveal_strlit("RealTimeMicroseconds");
    reveal_strlit("OSCPUVirtualTimeMicroseconds");
    reveal_strlit("OSCPUWaitMicroseconds");
    reveal_strlit("InsertedRows");
    reveal_strlit("InsertedBytes");
    reveal_strlit("AsyncInsertQuery");
    reveal_strlit("AsyncInsertRows");
}

proof fn lemma_one_more(n: Seq<Seq<char>>, k: int, c: ProfileCounters, key: Seq<char>, v: u64)
    requires
        0 <= k < n.len(),
        with_entries(n.take(k)) == Ok::<ProfileCounters, Seq<char>>(c),
        n[k] == entry_text(key, v),
        is_key(key),
    ensures
        with_entries(n.take(k + 1)) == Ok::<ProfileCounters, Seq<char>>(c.with(key, v)),
{
    lemma_entry(c, key, v);
    assert(n.take(k + 1).drop_last() =~= n.take(k));
    assert(n.take(k + 1).last() == n[k]);
}

proof fn lemma_nine(c: ProfileCounters)
    requires
        c.user_us is Some,
        c.system_us is Some,
        c.real_us is Some,
        c.os_cpu_virtual_us is Some,
        c.os_cpu_wait_us is Some,
        c.inserted_rows is Some,
        c.inserted_bytes is Some,
        c.async_insert_query is Some,
        c.async_insert_rows is Some,
    ensures
        with_entries(nine(c)) == Ok::<ProfileCounters, Seq<char>>(c),
{
    lemma_keys();
    let n = nine(c);
    let z = ProfileCounters::absent();
    let a = z.with("UserTimeMicroseconds"@, c.user_us->0);
    let b = a.with("SystemTimeMicroseconds"@, c.system_us->0);
    let d = b.with("RealTimeMicroseconds"@, c.real_us->0);
    let e = d.with("OSCPUVirtualTimeMicroseconds"@, c.os_cpu_virtual_us->0);
    let f = e.with("OSCPUWaitMicroseconds"@, c.os_cpu_wait_us->0);
    let g = f.with("InsertedRows"@, c.inserted_rows->0);
    let h = g.with("InsertedBytes"@, c.inserted_bytes->0);
    let i = h.with("AsyncInsertQuery"@, c.async_insert_query->0);
    let j = i.with("AsyncInsertRows"@, c.async_insert_rows->0);
    assert(n.take(0) =~= Seq::empty());
    lemma_one_more(n, 0, z, "UserTimeMicroseconds"@, c.user_us->0);
    lemma_one_more(n, 1, a, "SystemTimeMicroseconds"@, c.system_us->0);
    lemma_one_more(n, 2, b, "RealTimeMicroseconds"@, c.real_us->0);
    lemma_one_more(n, 3, d, "OSCPUVirtualTimeMicroseconds"@, c.os_cpu_virtual_us->0);
    lemma_one_more(n, 4, e, "OSCPUWaitMicroseconds"@, c.os_cpu_wait_us->0);
    lemma_one_more(n, 5, f, "InsertedRows"@, c.inserted_rows->0);
    lemma_one_more(n, 6, g, "InsertedBytes"@, c.inserted_bytes->0);
    lemma_one_more(n, 7, h, "AsyncInsertQuery"@, c.async_insert_query->0);
    lemma_one_more(n, 8, i, "AsyncInsertRows"@, c.async_insert_rows->0);
    assert(n.take(9) =~= n);
    assert(j == c);
}

/// A row of the log reads back: its type, the rows that it wrote, its milliseconds,
/// and every counter of its map under the name that the server gives it.
pub proof fn a_row_of_the_log_reads_back(q: AttributedQuery)
    requires
        q.events.user_us is Some,
        q.events.system_us is Some,
        q.events.real_us is Some,
        q.events.os_cpu_virtual_us is Some,
        q.events.os_cpu_wait_us is Some,
        q.events.inserted_rows is Some,
        q.events.inserted_bytes is Some,
        q.events.async_insert_query is Some,
        q.events.async_insert_rows is Some,
    ensures
        ({
            let word = match q.row_type {
                RowType::Start => "QueryStart"@,
                RowType::Finish => "QueryFinish"@,
                RowType::ExceptionBeforeStart => "ExceptionBeforeStart"@,
                RowType::ExceptionWhileProcessing => "ExceptionWhileProcessing"@,
            };
            let map = seq!['{'] + text::join(nine(q.events), seq![',']) + seq!['}'];
            let line = word + seq!['\t'] + text::decimal(q.written_rows as nat) + seq!['\t']
                + text::decimal(q.duration_ms as nat) + seq!['\t'] + map;
            row_of(line) == Ok::<AttributedQuery, (Seq<char>, Seq<char>)>(q)
        }),
{
    let word = match q.row_type {
        RowType::Start => "QueryStart"@,
        RowType::Finish => "QueryFinish"@,
        RowType::ExceptionBeforeStart => "ExceptionBeforeStart"@,
        RowType::ExceptionWhileProcessing => "ExceptionWhileProcessing"@,
    };
    let body = text::join(nine(q.events), seq![',']);
    let map = seq!['{'] + body + seq!['}'];
    let (b, c) = (text::decimal(q.written_rows as nat), text::decimal(q.duration_ms as nat));
    let line = word + seq!['\t'] + b + seq!['\t'] + c + seq!['\t'] + map;
    lemma_row_words(word);
    text::a_decimal_is_a_word(q.written_rows as nat);
    text::a_decimal_is_a_word(q.duration_ms as nat);
    text::decimal_reads_back(q.written_rows as nat);
    text::decimal_reads_back(q.duration_ms as nat);
    text::a_word_is_kept(b);
    text::a_word_is_kept(c);
    reveal_strlit("\t");
    assert("\t"@ =~= seq!['\t']);
    let r1 = b + seq!['\t'] + c + seq!['\t'] + map;
    let r2 = c + seq!['\t'] + map;
    assert(line =~= word + seq!['\t'] + r1);
    assert(r1 =~= b + seq!['\t'] + r2);
    text::a_cut_reads_back(word, '\t', r1);
    text::a_cut_reads_back(b, '\t', r2);
    text::a_cut_reads_back(c, '\t', map);
    lemma_map(q.events);
}

proof fn lemma_row_words(word: Seq<char>)
    requires
        word == "QueryStart"@ || word == "QueryFinish"@ || word == "ExceptionBeforeStart"@ || word
            == "ExceptionWhileProcessing"@,
    ensures
        forall|i: int| 0 <= i < word.len() ==> #[trigger] word[i] != '\t',
        word == "QueryStart"@ ==> RowType::named(word) == Some(RowType::Start),
        word == "QueryFinish"@ ==> RowType::named(word) == Some(RowType::Finish),
        word == "ExceptionBeforeStart"@ ==> RowType::named(word) == Some(
            RowType::ExceptionBeforeStart,
        ),
        word == "ExceptionWhileProcessing"@ ==> RowType::named(word) == Some(
            RowType::ExceptionWhileProcessing,
        ),
{
    reveal_strlit("QueryStart");
    reveal_strlit("QueryFinish");
    reveal_strlit("ExceptionBeforeStart");
    reveal_strlit("ExceptionWhileProcessing");
    assert("QueryStart"@.len() == 10 && "QueryFinish"@.len() == 11 && "ExceptionBeforeStart"@.len()
        == 20 && "ExceptionWhileProcessing"@.len() == 24);
}

proof fn lemma_map(c: ProfileCounters)
    requires
        c.user_us is Some,
        c.system_us is Some,
        c.real_us is Some,
        c.os_cpu_virtual_us is Some,
        c.os_cpu_wait_us is Some,
        c.inserted_rows is Some,
        c.inserted_bytes is Some,
        c.async_insert_query is Some,
        c.async_insert_rows is Some,
    ensures
        events_of(seq!['{'] + text::join(nine(c), seq![',']) + seq!['}']) == Ok::<
            ProfileCounters,
            Seq<char>,
        >(c),
{
    let parts = nine(c);
    let body = text::join(parts, seq![',']);
    let map = seq!['{'] + body + seq!['}'];
    lemma_keys();
    let z = ProfileCounters::absent();
    lemma_entry(z, "UserTimeMicroseconds"@, c.user_us->0);
    lemma_entry(z, "SystemTimeMicroseconds"@, c.system_us->0);
    lemma_entry(z, "RealTimeMicroseconds"@, c.real_us->0);
    lemma_entry(z, "OSCPUVirtualTimeMicroseconds"@, c.os_cpu_virtual_us->0);
    lemma_entry(z, "OSCPUWaitMicroseconds"@, c.os_cpu_wait_us->0);
    lemma_entry(z, "InsertedRows"@, c.inserted_rows->0);
    lemma_entry(z, "InsertedBytes"@, c.inserted_bytes->0);
    lemma_entry(z, "AsyncInsertQuery"@, c.async_insert_query->0);
    lemma_entry(z, "AsyncInsertRows"@, c.async_insert_rows->0);
    assert forall|i: int, k: int|
        0 <= i < parts.len() && 0 <= k < parts[i].len() implies #[trigger] parts[i][k] != ',' by {}
    text::pieces_read_back(parts, ',');
    reveal_strlit("{");
    reveal_strlit("}");
    reveal_strlit(",");
    assert("{"@ =~= seq!['{']);
    assert("}"@ =~= seq!['}']);
    assert(","@ =~= seq![',']);
    // Nothing is trimmed off the braces.
    assert(map[0] == '{' && map.last() == '}');
    assert(text::trim_start(map) == map);
    assert(text::trim(map) == map);
    assert(map.take(1) =~= seq!['{']);
    let rest = map.skip(1);
    assert(rest.skip(rest.len() - 1) =~= seq!['}']);
    assert(rest.take(rest.len() - 1) =~= body);
    assert(text::strip_suffix(rest, "}"@) == Some(body));
    // The body is not blank.
    lemma_join_starts(parts);
    assert(parts[0][0] == '\'');
    assert(body[0] == '\'');
    assert(text::trim_start(body) == body);
    let cut = text::trimming_takes_off_white_space_alone(body);
    if text::trim(body).len() == 0 {
        assert(cut.0 == cut.1);
        assert(text::is_space(body[0]));
    }
    lemma_nine(c);
}

proof fn lemma_join_starts(parts: Seq<Seq<char>>)
    requires
        parts.len() > 0,
        parts[0].len() > 0,
    ensures
        text::join(parts, seq![',']).len() > 0,
        text::join(parts, seq![','])[0] == parts[0][0],
    decreases parts.len(),
{
    if parts.len() > 1 {
        lemma_join_starts(parts.drop_last());
    }
}

/// Both queries ask for what fell into the window, from its start on and before its
/// end: the inserts by when they were started, the merges by when they ended.
pub proof fn the_queries_ask_for_the_window(
    tables: Seq<Seq<char>>,
    window: Window,
    forwarded: bool,
)
    ensures
        ({
            let from = "fromUnixTimestamp64Milli("@ + text::decimal(window.from_ms as nat) + ")"@;
            let to = "fromUnixTimestamp64Milli("@ + text::decimal(window.to_ms as nat) + ")"@;
            let q = attribution_text(tables, window, forwarded);
            let m = merge_text(tables, window);
            &&& text::contains(q, "query_start_time_microseconds >= "@ + from)
            &&& text::contains(q, "query_start_time_microseconds < "@ + to)
            &&& text::contains(q, "hasAny(tables, ["@ + name_list(tables) + "])"@)
            &&& text::contains(m, "event_time_microseconds >= "@ + from)
            &&& text::contains(m, "event_time_microseconds < "@ + to)
            &&& text::contains(m, "concat(database, '.', table) IN ("@ + name_list(tables) + ")"@)
        }),
{
    lemma_insert_bounds(tables, window, forwarded);
    lemma_merge_bounds(tables, window);
}

proof fn lemma_insert_bounds(tables: Seq<Seq<char>>, window: Window, forwarded: bool)
    ensures
        ({
            let from = "fromUnixTimestamp64Milli("@ + text::decimal(window.from_ms as nat) + ")"@;
            let to = "fromUnixTimestamp64Milli("@ + text::decimal(window.to_ms as nat) + ")"@;
            let q = attribution_text(tables, window, forwarded);
            &&& text::contains(q, "query_start_time_microseconds >= "@ + from)
            &&& text::contains(q, "query_start_time_microseconds < "@ + to)
            &&& text::contains(q, "hasAny(tables, ["@ + name_list(tables) + "])"@)
        }),
{
    let (f, t) = (text::decimal(window.from_ms as nat), text::decimal(window.to_ms as nat));
    let q = attribution_text(tables, window, forwarded);
    let a = "SELECT type, written_rows, query_duration_ms, mapFilter((k, v) -> k IN ("@ + COUNTERS@
        + "), ProfileEvents) FROM system.query_log WHERE event_date >= toDate(fromUnixTimestamp64Milli("@
        + f + ")) - 1 AND event_date <= toDate(fromUnixTimestamp64Milli("@ + t;
    let b = ")) + 1 AND query_start_time_microseconds >= fromUnixTimestamp64Milli("@;
    let c = ") AND query_start_time_microseconds < fromUnixTimestamp64Milli("@;
    let d = ") AND query_kind = 'Insert' "@;
    let e = initial_clause(forwarded);
    let g = attribution_tail(tables);
    let lower = "query_start_time_microseconds >= "@ + ("fromUnixTimestamp64Milli("@ + f + ")"@);
    let upper = "query_start_time_microseconds < "@ + ("fromUnixTimestamp64Milli("@ + t + ")"@);
    lemma_insert_literals();
    assert(q =~= a + b + f + c + t + d + e + g);
    let b1 = b.take(11);
    let c1 = c.take(6);
    assert(a + b + f + c =~= (a + b1) + lower + c.skip(1));
    let l = c.skip(1) + t + d + e + g;
    assert(q =~= (a + b1) + lower + l);
    text::what_is_put_in_is_contained(a + b1, lower, l);
    let r = d.skip(1) + e + g;
    let h = a + b + f + c1;
    assert(q =~= h + upper + r);
    text::what_is_put_in_is_contained(h, upper, r);
    let p = "hasAny(tables, ["@ + name_list(tables) + "])"@;
    let x = a + b + f + c + t + d + e + "AND "@;
    let y = " ORDER BY event_time_microseconds FORMAT TSV"@;
    assert(q =~= x + p + y);
    text::what_is_put_in_is_contained(x, p, y);
}

proof fn lemma_insert_literals()
    ensures
        ({
            let b = ")) + 1 AND query_start_time_microseconds >= fromUnixTimestamp64Milli("@;
            let c = ") AND query_start_time_microseconds < fromUnixTimestamp64Milli("@;
            let d = ") AND query_kind = 'Insert' "@;
            &&& b == b.take(11) + ("query_start_time_microseconds >= "@
                + "fromUnixTimestamp64Milli("@)
            &&& c == c.take(6) + ("query_start_time_microseconds < "@ + "fromUnixTimestamp64Milli("@)
            &&& c.take(1) == ")"@ && d.take(1) == ")"@
            &&& c == c.take(1) + c.skip(1) && d == d.take(1) + d.skip(1)
            &&& "AND hasAny(tables, ["@ == "AND "@ + "hasAny(tables, ["@
            &&& "]) ORDER BY event_time_microseconds FORMAT TSV"@ == "])"@
                + " ORDER BY event_time_microseconds FORMAT TSV"@
            &&& c.len() > 6 && b.len() > 11 && d.len() > 1
        }),
{
    reveal_strlit(")) + 1 AND query_start_time_microseconds >= fromUnixTimestamp64Milli(");
    reveal_strlit(") AND query_start_time_microseconds < fromUnixTimestamp64Milli(");
    reveal_strlit(") AND query_kind = 'Insert' ");
    reveal_strlit("query_start_time_microseconds >= ");
    reveal_strlit("query_start_time_microseconds < ");
    reveal_strlit("fromUnixTimestamp64Milli(");
    reveal_strlit(")");
    reveal_strlit("AND hasAny(tables, [");
    reveal_strlit("AND ");
    reveal_strlit("hasAny(tables, [");
    reveal_strlit("])");
    reveal_strlit("]) ORDER BY event_time_microseconds FORMAT TSV");
    reveal_strlit(" ORDER BY event_time_microseconds FORMAT TSV");
    let b = ")) + 1 AND query_start_time_microseconds >= fromUnixTimestamp64Milli("@;
    let c = ") AND query_start_time_microseconds < fromUnixTimestamp64Milli("@;
    let d = ") AND query_kind = 'Insert' "@;
    assert(b =~= b.take(11) + ("query_start_time_microseconds >= "@
        + "fromUnixTimestamp64Milli("@));
    assert(c =~= c.take(6) + ("query_start_time_microseconds < "@ + "fromUnixTimestamp64Milli("@));
    assert(c.take(1) =~= ")"@ && d.take(1) =~= ")"@);
    assert("AND hasAny(tables, ["@ =~= "AND "@ + "hasAny(tables, ["@);
    assert("]) ORDER BY event_time_microseconds FORMAT TSV"@ =~= "])"@
        + " ORDER BY event_time_microseconds FORMAT TSV"@);
}

proof fn lemma_merge_bounds(tables: Seq<Seq<char>>, window: Window)
    ensures
        ({
            let from = "fromUnixTimestamp64Milli("@ + text::decimal(window.from_ms as nat) + ")"@;
            let to = "fromUnixTimestamp64Milli("@ + text::decimal(window.to_ms as nat) + ")"@;
            let m = merge_text(tables, window);
            &&& text::contains(m, "event_time_microseconds >= "@ + from)
            &&& text::contains(m, "event_time_microseconds < "@ + to)
            &&& text::contains(m, "concat(database, '.', table) IN ("@ + name_list(tables) + ")"@)
        }),
{
    let (f, t) = (text::decimal(window.from_ms as nat), text::decimal(window.to_ms as nat));
    let m = merge_text(tables, window);
    let n = name_list(tables);
    let a = "SELECT sumIf(rows, event_type = 'MergeParts'),          sumIf(duration_ms, event_type = 'MergeParts')          FROM system.part_log          WHERE event_date >= toDate(fromUnixTimestamp64Milli("@
        + f + ")) - 1            AND event_date <= toDate(fromUnixTimestamp64Milli("@ + t;
    let b = ")) + 1            AND event_time_microseconds >= fromUnixTimestamp64Milli("@;
    let c = ")            AND event_time_microseconds < fromUnixTimestamp64Milli("@;
    let d = ")            AND concat(database, '.', table) IN ("@;
    let e = ")          FORMAT TSV"@;
    let lower = "event_time_microseconds >= "@ + ("fromUnixTimestamp64Milli("@ + f + ")"@);
    let upper = "event_time_microseconds < "@ + ("fromUnixTimestamp64Milli("@ + t + ")"@);
    let list = "concat(database, '.', table) IN ("@ + n + ")"@;
    lemma_merge_literals();
    assert(m =~= a + b + f + c + t + d + n + e);
    let l = c.skip(1) + t + d + n + e;
    assert(m =~= (a + b.take(22)) + lower + l);
    text::what_is_put_in_is_contained(a + b.take(22), lower, l);
    let h = a + b + f + c.take(17);
    let r = d.skip(1) + n + e;
    assert(m =~= h + upper + r);
    text::what_is_put_in_is_contained(h, upper, r);
    let x = a + b + f + c + t + d.take(17);
    assert(m =~= x + list + e.skip(1));
    text::what_is_put_in_is_contained(x, list, e.skip(1));
}

proof fn lemma_merge_literals()
    ensures
        ({
            let b = ")) + 1            AND event_time_microseconds >= fromUnixTimestamp64Milli("@;
            let c = ")            AND event_time_microseconds < fromUnixTimestamp64Milli("@;
            let d = ")            AND concat(database, '.', table) IN ("@;
            let e = ")          FORMAT TSV"@;
            &&& b.len() > 22 && c.len() > 17 && d.len() > 17 && e.len() > 1
            &&& b == b.take(22) + ("event_time_microseconds >= "@ + "fromUnixTimestamp64Milli("@)
            &&& c == c.take(17) + ("event_time_microseconds < "@ + "fromUnixTimestamp64Milli("@)
            &&& d == d.take(17) + "concat(database, '.', table) IN ("@
            &&& c == ")"@ + c.skip(1) && d == ")"@ + d.skip(1) && e == ")"@ + e.skip(1)
        }),
{
    reveal_strlit(")) + 1            AND event_time_microseconds >= fromUnixTimestamp64Milli(");
    reveal_strlit(")            AND event_time_microseconds < fromUnixTimestamp64Milli(");
    reveal_strlit(")            AND concat(database, '.', table) IN (");
    reveal_strlit(")          FORMAT TSV");
    reveal_strlit("event_time_microseconds >= ");
    reveal_strlit("event_time_microseconds < ");
    reveal_strlit("fromUnixTimestamp64Milli(");
    reveal_strlit("concat(database, '.', table) IN (");
    reveal_strlit(")");
    let b = ")) + 1            AND event_time_microseconds >= fromUnixTimestamp64Milli("@;
    let c = ")            AND event_time_microseconds < fromUnixTimestamp64Milli("@;
    let d = ")            AND concat(database, '.', table) IN ("@;
    let e = ")          FORMAT TSV"@;
    assert(b =~= b.take(22) + ("event_time_microseconds >= "@ + "fromUnixTimestamp64Milli("@));
    assert(c =~= c.take(17) + ("event_time_microseconds < "@ + "fromUnixTimestamp64Milli("@));
    assert(d =~= d.take(17) + "concat(database, '.', table) IN ("@);
    assert(c =~= ")"@ + c.skip(1) && d =~= ")"@ + d.skip(1) && e =~= ")"@ + e.skip(1));
}

/// A reading of the merges is the rows and then the milliseconds.
pub proof fn a_merge_reading_reads_back(rows: u64, ms: u64)
    ensures
        merges_of(
            text::decimal(rows as nat) + seq!['\t'] + text::decimal(ms as nat),
        ) == Ok::<MergeActivity, Seq<char>>(
            MergeActivity { rows_merged: rows, duration_ms: ms },
        ),
{
    let (a, b) = (text::decimal(rows as nat), text::decimal(ms as nat));
    text::a_decimal_is_a_word(rows as nat);
    text::a_decimal_is_a_word(ms as nat);
    text::decimal_reads_back(rows as nat);
    text::decimal_reads_back(ms as nat);
    text::a_word_is_kept(a);
    text::a_word_is_kept(b);
    reveal_strlit("\t");
    assert("\t"@ =~= seq!['\t']);
    let f = seq![a, b];
    assert(f.drop_last() =~= seq![a]);
    reveal_with_fuel(text::join, 2);
    assert(text::join(f, seq!['\t']) =~= a + seq!['\t'] + b);
    assert forall|i: int, k: int| 0 <= i < f.len() && 0 <= k < f[i].len() implies #[trigger] f[i][k]
        != '\t' by {
        assert(text::is_word(f[i]));
        assert(!text::is_space(f[i][k]));
    }
    text::pieces_read_back(f, '\t');
}

/// The length of a window in seconds is about a thousandth of its milliseconds, and a
/// mean batch about the rows that were written over the inserts that wrote them.
pub proof fn a_length_and_a_batch_are_their_quotients(w: Window, c: ServerSideCost)
    requires
        w.from_ms <= w.to_ms,
    ensures
        about::within(w.length(), (w.to_ms - w.from_ms) as nat, 1000, 6),
        c.queries > 0 ==> about::within(
            c.batch_size(),
            c.written_rows as nat,
            c.queries as nat,
            6,
        ),
        c.queries == 0 ==> c.batch_size() == Double::zero(false),
{
    about::a_ratio_of_counts((w.to_ms - w.from_ms) as nat, 1000);
    if c.queries > 0 {
        about::a_ratio_of_counts(c.written_rows as nat, c.queries as nat);
    }
}

} // verus!
