//! Collector pauses and configured-versus-used heap, for arms that run on a JVM.
//!
//! The source is the log that the virtual machine itself writes. An arm without
//! a collector has no such log, and the absence of a figure is not a figure of
//! zero: every log that cannot be read to the end is refused here, because a
//! reader that skipped what it did not recognise would report the shortest
//! pauses for the arm whose log changed shape.

use vstd::prelude::*;
use crate::about;
use crate::big;
use vstd::slice::slice_subrange;
use crate::double;
use crate::double::Double;
use crate::sampler;
use crate::table::Table;
use crate::text;

verus! {

/// Whether Unicode counts a character as a letter or as a number.
pub uninterp spec fn alphanumeric(c: char) -> bool;

/// `char::is_alphanumeric` says whether a character is alphabetic or numeric by
/// Unicode's tables. Of the ASCII characters these are the letters and the
/// digits; the rest of the tables is named, not stated.
pub assume_specification[ char::is_alphanumeric ](c: char) -> (r: bool)
    ensures
        r == alphanumeric(c),
        (c as u32) < 128 ==> r == (('0' <= c && c <= '9') || ('A' <= c && c <= 'Z') || ('a' <= c
            && c <= 'z')),
;

// ---------------------------------------------------------------------------
// Refusals
// ---------------------------------------------------------------------------

/// Why a collector measurement could not be made.
#[derive(Clone, Debug, PartialEq, Eq)]
pub enum JvmError {
    /// The log could not be fetched from the container.
    LogUnavailable {
        /// The container it was looked for in.
        container: String,
        /// The path inside that container.
        path: String,
        /// What went wrong.
        why: String,
    },
    /// The log was fetched and could not be read.
    ReadFailed(String),
    /// No line carries the decorations of the virtual machine's log.
    NotUnifiedLogging {
        /// Lines examined.
        lines: usize,
    },
    /// No line carries the `gc` tag.
    NoGcTaggedLines {
        /// Decorated lines examined.
        decorated: usize,
    },
    /// No line shows a collector starting, so the beginning of the log is gone.
    NoCollectorInitialised {
        /// Lines with the `gc` tag.
        gc_lines: usize,
        /// Pauses found all the same.
        pauses: usize,
    },
    /// A line announces a pause and its duration cannot be read.
    UnparseablePause {
        /// The line.
        line: String,
        /// What is wrong with it.
        why: String,
    },
    /// A size cannot be read.
    UnparseableSize {
        /// The line.
        line: String,
        /// The size.
        token: String,
    },
    /// A window was asked for, and the lines carry no uptime.
    NoUptimeDecoration,
}

/// What an unreadable pause is refused with, given the line between quotes.
pub open spec fn pause_text(why: Seq<char>, quoted: Seq<char>) -> Seq<char> {
    "a GC pause line did not parse ("@ + why + "): "@ + quoted
        + ". Skipping it would report a shorter pause total for an arm whose log format this binary has not caught up with, and a shorter pause total is a better-looking result"@
}

/// What an unreadable pause is refused with, given the line between quotes.
pub fn pause_message(why: &str, quoted: &str) -> (s: String)
    ensures
        s@ == pause_text(why@, quoted@),
{
    let mut s = sampler::concat("a GC pause line did not parse (", why);
    s.append("): ");
    s.append(quoted);
    s.append(
        ". Skipping it would report a shorter pause total for an arm whose log format this binary has not caught up with, and a shorter pause total is a better-looking result",
    );
    s
}

/// What an unreadable size is refused with, given both texts between quotes.
pub open spec fn size_text(token: Seq<char>, line: Seq<char>) -> Seq<char> {
    "the size "@ + token + " in "@ + line
        + " did not parse. Heap figures are published in bytes, and a size read wrongly is worse than one not read at all"@
}

/// What an unreadable size is refused with, given both texts between quotes.
pub fn size_message(token: &str, line: &str) -> (s: String)
    ensures
        s@ == size_text(token@, line@),
{
    let mut s = sampler::concat("the size ", token);
    s.append(" in ");
    s.append(line);
    s.append(
        " did not parse. Heap figures are published in bytes, and a size read wrongly is worse than one not read at all",
    );
    s
}

impl JvmError {
    /// What the refusal says to a person.
    pub open spec fn text(self) -> Seq<char> {
        match self {
            JvmError::LogUnavailable { container, path, why } => "no GC log at "@ + path@ + " in "@
                + container@ + ": "@ + why@
                + ". It is copied with `docker cp`, which needs no shell in the image but does need the container to still exist — copy it before `docker rm -f`, and check that the arm's JVM was given -Xlog:gc*"@,
            JvmError::ReadFailed(e) => "the copied GC log could not be read: "@ + e@,
            JvmError::NotUnifiedLogging { lines } => "none of the "@ + text::decimal(lines as nat)
                + " line(s) carries unified-logging decorations, so this is not a -Xlog:gc* log. Reporting no pauses from it would say the arm never collected, which is a claim about a measurement nobody made"@,
            JvmError::NoGcTaggedLines { decorated } => text::decimal(decorated as nat)
                + " decorated line(s) and not one tagged `gc`. The output is unified logging from some other subsystem; -Xlog:gc* was not in force"@,
            JvmError::NoCollectorInitialised { gc_lines, pauses } => text::decimal(gc_lines as nat)
                + " gc-tagged line(s) and "@ + text::decimal(pauses as nat)
                + " pause(s), but nothing showing a collector initialising. The log is incomplete — most likely rotated away, since the JVM's default file output keeps five 20 MiB files and discards the beginning of a long run — so its pause total omits an unknown number of pauses. Set filecount=0 on the -Xlog output to disable rotation"@,
            JvmError::UnparseablePause { line, why } => pause_text(why@, text::debug_text(line@)),
            JvmError::UnparseableSize { line, token } => size_text(
                text::debug_text(token@),
                text::debug_text(line@),
            ),
            JvmError::NoUptimeDecoration =>
                "the GC log carries no uptime decoration, so pauses cannot be bounded to the measurement window. Add `uptime` to the -Xlog decorators, or take the summary over the whole log and say so"@,
        }
    }

    /// What the refusal says to a person.
    pub fn message(&self) -> (s: String)
        ensures
            s@ == self.text(),
    {
        match self {
            JvmError::LogUnavailable { container, path, why } => {
                let mut s = sampler::concat("no GC log at ", path.as_str());
                s.append(" in ");
                s.append(container.as_str());
                s.append(": ");
                s.append(why.as_str());
                s.append(
                    ". It is copied with `docker cp`, which needs no shell in the image but does need the container to still exist — copy it before `docker rm -f`, and check that the arm's JVM was given -Xlog:gc*",
                );
                s
            },
            JvmError::ReadFailed(e) => sampler::concat(
                "the copied GC log could not be read: ",
                e.as_str(),
            ),
            JvmError::NotUnifiedLogging { lines } => {
                let mut s = "none of the ".to_owned();
                text::push_decimal(&mut s, *lines as u128);
                s.append(
                    " line(s) carries unified-logging decorations, so this is not a -Xlog:gc* log. Reporting no pauses from it would say the arm never collected, which is a claim about a measurement nobody made",
                );
                s
            },
            JvmError::NoGcTaggedLines { decorated } => {
                let mut s = text::decimal_of(*decorated as u128);
                s.append(
                    " decorated line(s) and not one tagged `gc`. The output is unified logging from some other subsystem; -Xlog:gc* was not in force",
                );
                s
            },
            JvmError::NoCollectorInitialised { gc_lines, pauses } => {
                let mut s = text::decimal_of(*gc_lines as u128);
                s.append(" gc-tagged line(s) and ");
                text::push_decimal(&mut s, *pauses as u128);
                s.append(
                    " pause(s), but nothing showing a collector initialising. The log is incomplete — most likely rotated away, since the JVM's default file output keeps five 20 MiB files and discards the beginning of a long run — so its pause total omits an unknown number of pauses. Set filecount=0 on the -Xlog output to disable rotation",
                );
                s
            },
            JvmError::UnparseablePause { line, why } => {
                let q = text::quoted(line.as_str());
                pause_message(why.as_str(), q.as_str())
            },
            JvmError::UnparseableSize { line, token } => {
                let t = text::quoted(token.as_str());
                let l = text::quoted(line.as_str());
                size_message(t.as_str(), l.as_str())
            },
            JvmError::NoUptimeDecoration => {
                "the GC log carries no uptime decoration, so pauses cannot be bounded to the measurement window. Add `uptime` to the -Xlog decorators, or take the summary over the whole log and say so".to_owned()
            },
        }
    }
}

// ---------------------------------------------------------------------------
// Lines
// ---------------------------------------------------------------------------

/// One line of the log, as sequences.
#[verifier::ext_equal]
pub struct LineView {
    /// Nanoseconds since the virtual machine started.
    pub uptime_s: Option<Double>,
    /// The tags, in order.
    pub tags: Seq<Seq<char>>,
    /// What follows the decorations.
    pub message: Seq<char>,
}

/// The leading `[...]` groups of a line and what follows them. `None` where a
/// group does not close.
pub open spec fn groups(s: Seq<char>) -> Option<(Seq<Seq<char>>, Seq<char>)>
    decreases s.len(),
{
    match text::strip_prefix(s, "["@) {
        None => Some((Seq::empty(), s)),
        Some(tail) => match text::split_once(tail, "]"@) {
            None => None,
            Some((field, after)) => {
                proof {
                    lemma_group_shrinks(s);
                }
                match groups(after) {
                    None => None,
                    Some((fields, rest)) => Some((seq![text::trim(field)] + fields, rest)),
                }
            },
        },
    }
}

/// What follows a group is shorter than what it stood in.
pub proof fn lemma_group_shrinks(s: Seq<char>)
    ensures
        text::strip_prefix(s, "["@) matches Some(tail) ==> (text::split_once(tail, "]"@) matches Some(
            (_, after),
        ) ==> after.len() < s.len()),
{
    reveal_strlit("[");
    reveal_strlit("]");
    if let Some(tail) = text::strip_prefix(s, "["@) {
        text::lemma_first_from(tail, "]"@, 0);
    }
}

/// Whether a decoration is a severity.
pub open spec fn is_level(s: Seq<char>) -> bool {
    s == "off"@ || s == "trace"@ || s == "debug"@ || s == "info"@ || s == "warning"@ || s
        == "error"@
}

/// The seconds that an uptime decoration such as `0.228s` writes.
pub open spec fn uptime_of(field: Seq<char>) -> Option<Double> {
    if is_level(field) {
        None
    } else {
        match text::strip_suffix(field, "s"@) {
            Some(n) => double::parse(n),
            None => None,
        }
    }
}

/// The first uptime among the decorations.
pub open spec fn first_uptime(fields: Seq<Seq<char>>) -> Option<Double>
    decreases fields.len(),
{
    if fields.len() == 0 {
        None
    } else if uptime_of(fields[0]) is Some {
        uptime_of(fields[0])
    } else {
        first_uptime(fields.skip(1))
    }
}

/// The pieces without white space around them.
pub open spec fn trimmed_all(v: Seq<Seq<char>>) -> Seq<Seq<char>> {
    v.map_values(|s: Seq<char>| text::trim(s))
}

/// A line split into its decorations and its message. The last group is the
/// tags, whichever decorations are switched on; the uptime is found by its
/// shape. `None` for a line without decorations.
pub open spec fn line_of(s: Seq<char>) -> Option<LineView> {
    match groups(s) {
        Some((fields, rest)) if fields.len() > 0 => Some(
            LineView {
                uptime_s: first_uptime(fields.drop_last()),
                tags: trimmed_all(text::split(fields.last(), ","@)),
                message: text::trim(rest),
            },
        ),
        _ => None,
    }
}

/// One line of the log.
struct Decorated<'a> {
    uptime_s: Option<Double>,
    tags: Vec<&'a [char]>,
    message: &'a [char],
}

impl<'a> Decorated<'a> {
    spec fn view(self) -> LineView {
        LineView {
            uptime_s: self.uptime_s,
            tags: text::views(self.tags@),
            message: self.message@,
        }
    }

    fn parse(line: &'a [char]) -> (r: Option<Decorated<'a>>)
        ensures
            match r {
                Some(d) => line_of(line@) == Some(d.view()),
                None => line_of(line@) is None,
            },
    {
        let mut rest: &'a [char] = line;
        let mut fields: Vec<&'a [char]> = Vec::new();
        loop
            invariant_except_break
                groups(line@) == (match groups(rest@) {
                    None => None,
                    Some((more, end)) => Some((text::views(fields@) + more, end)),
                }),
            ensures
                groups(line@) == Some((text::views(fields@), rest@)),
            decreases rest@.len(),
        {
            proof {
                lemma_group_shrinks(rest@);
            }
            match text::without_prefix(rest, "[") {
                None => {
                    assert(text::views(fields@) + Seq::<Seq<char>>::empty() =~= text::views(
                        fields@,
                    ));
                    break;
                },
                Some(tail) => match text::cut_once(tail, "]") {
                    None => {
                        return None;
                    },
                    Some((field, after)) => {
                        let ghost before = text::views(fields@);
                        let t = text::trimmed(field);
                        fields.push(t);
                        assert(text::views(fields@) =~= before.push(t@));
                        proof {
                            if let Some((more, end)) = groups(after@) {
                                assert(before + (seq![t@] + more) =~= before.push(t@) + more);
                            }
                        }
                        rest = after;
                    },
                },
            }
        }
        if fields.len() == 0 {
            return None;
        }
        let ghost all = text::views(fields@);
        let last: &'a [char] = fields[fields.len() - 1];
        assert(all.last() == last@);
        let n: usize = fields.len() - 1;
        let ghost head = all.drop_last();
        let mut uptime_s: Option<Double> = None;
        let mut i: usize = 0;
        assert(head.skip(0) =~= head);
        while i < n && uptime_s.is_none()
            invariant
                i <= n,
                n == head.len(),
                n < fields@.len(),
                all == text::views(fields@),
                head == all.drop_last(),
                match uptime_s {
                    Some(u) => first_uptime(head) == Some(u),
                    None => first_uptime(head) == first_uptime(head.skip(i as int)),
                },
            decreases n - i,
        {
            assert(head.skip(i as int)[0] == fields@[i as int]@);
            assert(head.skip(i as int).skip(1) =~= head.skip(i + 1));
            uptime_s = parse_uptime(fields[i]);
            i = i + 1;
        }
        proof {
            reveal_strlit(",");
        }
        let pieces = text::fields(last, ",");
        let mut tags: Vec<&'a [char]> = Vec::new();
        let ghost raw = text::split(last@, ","@);
        let mut k: usize = 0;
        while k < pieces.len()
            invariant
                k <= pieces.len(),
                raw == text::views(pieces@),
                text::views(tags@) == trimmed_all(raw).take(k as int),
            decreases pieces.len() - k,
        {
            let ghost before = text::views(tags@);
            let t = text::trimmed(pieces[k]);
            tags.push(t);
            assert(raw[k as int] == pieces@[k as int]@);
            assert(text::views(tags@) =~= before.push(t@));
            assert(trimmed_all(raw).take(k + 1) =~= trimmed_all(raw).take(k as int).push(t@));
            k = k + 1;
        }
        assert(trimmed_all(raw).take(raw.len() as int) =~= trimmed_all(raw));
        Some(Decorated { uptime_s, tags, message: text::trimmed(rest) })
    }

    fn has_tag(&self, tag: &str) -> (r: bool)
        ensures
            r == text::listed(self.view().tags, tag@),
    {
        let mut i: usize = 0;
        while i < self.tags.len()
            invariant
                i <= self.tags.len(),
                forall|j: int| 0 <= j < i ==> text::views(self.tags@)[j] != tag@,
            decreases self.tags.len() - i,
        {
            if text::spells(self.tags[i], tag) {
                assert(text::views(self.tags@)[i as int] == tag@);
                return true;
            }
            i = i + 1;
        }
        false
    }
}

fn parse_uptime(field: &[char]) -> (r: Option<Double>)
    ensures
        r == uptime_of(field@),
{
    if text::spells(field, "off") || text::spells(field, "trace") || text::spells(field, "debug")
        || text::spells(field, "info") || text::spells(field, "warning") || text::spells(
        field,
        "error",
    ) {
        return None;
    }
    match text::without_suffix(field, "s") {
        Some(n) => double::read(n),
        None => None,
    }
}

// ---------------------------------------------------------------------------
// Sizes
// ---------------------------------------------------------------------------

/// How many bytes the unit at the end of a size stands for.
pub open spec fn unit(c: char) -> Option<nat> {
    if c == 'B' {
        Some(1)
    } else if c == 'K' {
        Some(1024)
    } else if c == 'M' {
        Some(1_048_576)
    } else if c == 'G' {
        Some(1_073_741_824)
    } else if c == 'T' {
        Some(1_099_511_627_776)
    } else {
        None
    }
}

/// The bytes that a size such as `256M` writes: a finite number, not below zero,
/// and a unit. What follows the point in the product is dropped, and a product
/// past the largest `u64` counts as that.
pub open spec fn size_of(token: Seq<char>) -> Option<nat> {
    let t = text::trim(token);
    if t.len() == 0 || unit(t.last()) is None {
        None
    } else {
        match double::parse(t.drop_last()) {
            Some(d) if d is Finite && !d.lt(Double::zero(false)) => Some(
                d.times(double::of(unit(t.last())->0)).floor(),
            ),
            _ => None,
        }
    }
}

/// Reads a size as bytes. The unit is mandatory: a bare number would be off by
/// a factor of a thousand and twenty-four half of the time.
pub fn parse_size(token: &str) -> (r: Option<u64>)
    ensures
        match r {
            Some(n) => size_of(token@) == Some(n as nat),
            None => size_of(token@) is None,
        },
{
    let chars = text::chars_of(token);
    size_chars(chars.as_slice())
}

fn size_chars(token: &[char]) -> (r: Option<u64>)
    ensures
        match r {
            Some(n) => size_of(token@) == Some(n as nat),
            None => size_of(token@) is None,
        },
{
    let t = text::trimmed(token);
    if t.len() == 0 {
        return None;
    }
    let n: usize = t.len();
    let c: char = t[n - 1];
    let scale: u64 = if c == 'B' {
        1
    } else if c == 'K' {
        1024
    } else if c == 'M' {
        1_048_576
    } else if c == 'G' {
        1_073_741_824
    } else if c == 'T' {
        1_099_511_627_776
    } else {
        return None;
    };
    let digits = slice_subrange(t, 0, n - 1);
    assert(digits@ =~= t@.drop_last());
    match double::read(digits) {
        Some(d) => match d {
            Double::Finite { negative, mantissa, shift } => {
                if d.below(Double::nothing()) {
                    None
                } else {
                    Some(d.multiply(Double::of(scale as u128)).whole())
                }
            },
            _ => None,
        },
        None => None,
    }
}

/// The heap that a pause reports: `48M->20M(256M)`.
#[derive(Clone, Copy, Debug, PartialEq, Eq, Structural)]
pub struct HeapTriple {
    /// Occupancy before the collection.
    pub before_bytes: u64,
    /// Occupancy after it: the live set.
    pub after_bytes: u64,
    /// Capacity committed at that moment, which is not the configured maximum.
    pub capacity_bytes: u64,
}

/// The heap that a token in the form `48M->20M(256M)` writes.
pub open spec fn triple_of(token: Seq<char>) -> Option<HeapTriple> {
    match text::split_once(token, "->"@) {
        None => None,
        Some((before, rest)) => match text::split_once(rest, "("@) {
            None => None,
            Some((after, capacity)) => match text::strip_suffix(capacity, ")"@) {
                None => None,
                Some(capacity) => match (size_of(before), size_of(after), size_of(capacity)) {
                    (Some(b), Some(a), Some(c)) => Some(
                        HeapTriple {
                            before_bytes: b as u64,
                            after_bytes: a as u64,
                            capacity_bytes: c as u64,
                        },
                    ),
                    _ => None,
                },
            },
        },
    }
}

fn parse_triple(token: &[char]) -> (r: Option<HeapTriple>)
    ensures
        r == triple_of(token@),
{
    let (before, rest) = match text::cut_once(token, "->") {
        Some(x) => x,
        None => {
            return None;
        },
    };
    let (after, capacity) = match text::cut_once(rest, "(") {
        Some(x) => x,
        None => {
            return None;
        },
    };
    let capacity = match text::without_suffix(capacity, ")") {
        Some(x) => x,
        None => {
            return None;
        },
    };
    match (size_chars(before), size_chars(after), size_chars(capacity)) {
        (Some(b), Some(a), Some(c)) => Some(
            HeapTriple { before_bytes: b, after_bytes: a, capacity_bytes: c },
        ),
        _ => None,
    }
}

/// Reads a heap in the form `48M->20M(256M)`.
pub fn parse_heap_triple(token: &str) -> (r: Option<HeapTriple>)
    ensures
        r == triple_of(token@),
{
    let chars = text::chars_of(token);
    parse_triple(chars.as_slice())
}


// ---------------------------------------------------------------------------
// What a log holds
// ---------------------------------------------------------------------------

/// One pause, as sequences.
#[verifier::ext_equal]
pub struct PauseView {
    /// The collection that the pause belongs to.
    pub gc_id: Option<u64>,
    /// Seconds since the virtual machine started.
    pub uptime_s: Option<Double>,
    /// The generation that was collected.
    pub generation: Option<Seq<char>>,
    /// What the collector called the pause.
    pub label: Seq<char>,
    /// Duration in microseconds.
    pub us: Double,
    /// The heap that the line reported.
    pub heap: Option<HeapTriple>,
}

/// One pause in which the virtual machine was stopped.
#[derive(Clone, Debug, PartialEq, Eq)]
pub struct Pause {
    /// The collection that the pause belongs to, where the line carries one.
    pub gc_id: Option<u64>,
    /// Seconds since the virtual machine started.
    pub uptime_s: Option<Double>,
    /// The generation that was collected, where the line carries a marker. Two
    /// pauses of one name in one collection differ only in this.
    pub generation: Option<String>,
    /// What the collector called the pause.
    pub label: String,
    /// Duration in microseconds.
    pub us: Double,
    /// The heap that the line reported, where it reported one.
    pub heap: Option<HeapTriple>,
}

/// The characters of an optional string.
pub open spec fn opt_text(s: Option<String>) -> Option<Seq<char>> {
    match s {
        Some(t) => Some(t@),
        None => None,
    }
}

impl View for Pause {
    type V = PauseView;

    open spec fn view(&self) -> PauseView {
        PauseView {
            gc_id: self.gc_id,
            uptime_s: self.uptime_s,
            generation: opt_text(self.generation),
            label: self.label@,
            us: self.us,
            heap: self.heap,
        }
    }
}

/// The pauses that a vector holds.
pub open spec fn pause_views(v: Seq<Pause>) -> Seq<PauseView> {
    v.map_values(|p: Pause| p@)
}

/// The collector's configuration, as sequences.
#[verifier::ext_equal]
pub struct HeapView {
    /// The collector.
    pub collector: Option<Seq<char>>,
    /// The version of the virtual machine.
    pub version: Option<Seq<char>>,
    /// The initial size.
    pub initial_bytes: Option<u64>,
    /// The smallest size.
    pub min_bytes: Option<u64>,
    /// The largest size.
    pub max_bytes: Option<u64>,
}

impl HeapView {
    /// Nothing known.
    pub open spec fn unknown() -> HeapView {
        HeapView {
            collector: None,
            version: None,
            initial_bytes: None,
            min_bytes: None,
            max_bytes: None,
        }
    }
}

/// What the collector was configured with. Collectors print different subsets
/// of this, and what one did not print stays absent.
#[derive(Clone, Debug, PartialEq, Eq)]
pub struct HeapConfig {
    /// The collector.
    pub collector: Option<String>,
    /// The version of the virtual machine.
    pub version: Option<String>,
    /// The initial heap size, as the collector resolved it.
    pub initial_bytes: Option<u64>,
    /// The smallest size that the heap may shrink to.
    pub min_bytes: Option<u64>,
    /// The largest size, as the collector resolved it.
    pub max_bytes: Option<u64>,
}

impl View for HeapConfig {
    type V = HeapView;

    open spec fn view(&self) -> HeapView {
        HeapView {
            collector: opt_text(self.collector),
            version: opt_text(self.version),
            initial_bytes: self.initial_bytes,
            min_bytes: self.min_bytes,
            max_bytes: self.max_bytes,
        }
    }
}

impl Default for HeapConfig {
    fn default() -> (h: HeapConfig)
        ensures
            h@ == HeapView::unknown(),
    {
        HeapConfig {
            collector: None,
            version: None,
            initial_bytes: None,
            min_bytes: None,
            max_bytes: None,
        }
    }
}

fn copy_opt(s: &Option<String>) -> (r: Option<String>)
    ensures
        opt_text(r) == opt_text(*s),
{
    match s {
        Some(t) => Some(t.clone()),
        None => None,
    }
}

impl HeapConfig {
    /// A copy.
    pub fn copied(&self) -> (h: HeapConfig)
        ensures
            h@ == self@,
    {
        HeapConfig {
            collector: copy_opt(&self.collector),
            version: copy_opt(&self.version),
            initial_bytes: self.initial_bytes,
            min_bytes: self.min_bytes,
            max_bytes: self.max_bytes,
        }
    }
}

/// Everything that one log yielded.
#[derive(Clone, Debug, PartialEq, Eq)]
pub struct GcLog {
    /// Every pause, in the order of the log.
    pub pauses: Vec<Pause>,
    /// The configured heap.
    pub heap: HeapConfig,
    /// Lines with decorations.
    pub decorated_lines: usize,
    /// Of those, lines with the `gc` tag.
    pub gc_lines: usize,
    /// Lines without decorations, from an application that shares the console.
    pub foreign_lines: usize,
}

/// What stops a log from being read.
#[verifier::ext_equal]
pub enum Fault {
    /// A pause without a duration: the line, and what is wrong with it.
    BadPause(Seq<char>, Seq<char>),
    /// A size that cannot be read: the line, and the size.
    BadSize(Seq<char>, Seq<char>),
}

impl JvmError {
    /// Whether this refusal reports that fault.
    pub open spec fn reports(self, f: Fault) -> bool {
        match f {
            Fault::BadPause(line, why) => self matches JvmError::UnparseablePause {
                line: l,
                why: w,
            } && l@ == line && w@ == why,
            Fault::BadSize(line, token) => self matches JvmError::UnparseableSize {
                line: l,
                token: t,
            } && l@ == line && t@ == token,
        }
    }
}

// ---------------------------------------------------------------------------
// Parsing
// ---------------------------------------------------------------------------

/// The configuration after one line with the `gc` tag. The keys are matched by
/// how they end, because collectors name one quantity differently; the soft
/// limit that one of them prints is not the configured heap.
pub open spec fn with_line(heap: HeapView, line: LineView, raw: Seq<char>) -> Result<
    HeapView,
    Fault,
> {
    if text::starts_with(line.message, "Using "@) {
        Ok(
            HeapView {
                collector: Some(text::trim(text::strip_prefix(line.message, "Using "@)->0)),
                ..heap
            },
        )
    } else if text::starts_with(line.message, "Initializing "@) {
        Ok(
            HeapView {
                collector: Some(text::trim(text::strip_prefix(line.message, "Initializing "@)->0)),
                ..heap
            },
        )
    } else if !text::listed(line.tags, "init"@) {
        Ok(heap)
    } else {
        match text::split_once(line.message, ":"@) {
            None => Ok(heap),
            Some((k, v)) => {
                let key = text::trim(k);
                let value = text::trim(v);
                let capacity = text::ends_with(key, "Max Capacity"@) || text::ends_with(
                    key,
                    "Initial Capacity"@,
                ) || text::ends_with(key, "Min Capacity"@);
                if key == "Version"@ {
                    Ok(HeapView { version: Some(value), ..heap })
                } else if text::starts_with(key, "Soft "@) || !capacity {
                    Ok(heap)
                } else {
                    match size_of(value) {
                        None => Err(Fault::BadSize(raw, value)),
                        Some(n) => if text::ends_with(key, "Max Capacity"@) {
                            Ok(HeapView { max_bytes: Some(n as u64), ..heap })
                        } else if text::ends_with(key, "Initial Capacity"@) {
                            Ok(HeapView { initial_bytes: Some(n as u64), ..heap })
                        } else {
                            Ok(HeapView { min_bytes: Some(n as u64), ..heap })
                        },
                    }
                }
            },
        }
    }
}

fn starts(s: &[char], p: &str) -> (r: bool)
    ensures
        r == text::starts_with(s@, p@),
{
    text::without_prefix(s, p).is_some()
}

fn ends(s: &[char], p: &str) -> (r: bool)
    ensures
        r == text::ends_with(s@, p@),
{
    text::without_suffix(s, p).is_some()
}

fn read_heap_config(heap: HeapConfig, line: &Decorated, raw: &[char]) -> (r: Result<
    HeapConfig,
    JvmError,
>)
    ensures
        match r {
            Ok(h) => with_line(heap@, line.view(), raw@) == Ok::<HeapView, Fault>(h@),
            Err(e) => with_line(heap@, line.view(), raw@) matches Err(f) && e.reports(f),
        },
{
    if let Some(name) = text::without_prefix(line.message, "Using ") {
        return Ok(HeapConfig { collector: Some(text::string_of(text::trimmed(name))), ..heap });
    }
    if let Some(name) = text::without_prefix(line.message, "Initializing ") {
        return Ok(HeapConfig { collector: Some(text::string_of(text::trimmed(name))), ..heap });
    }
    if !line.has_tag("init") {
        return Ok(heap);
    }
    let (k, v) = match text::cut_once(line.message, ":") {
        Some(kv) => kv,
        None => {
            return Ok(heap);
        },
    };
    let key = text::trimmed(k);
    let value = text::trimmed(v);
    if text::spells(key, "Version") {
        return Ok(HeapConfig { version: Some(text::string_of(value)), ..heap });
    }
    if starts(key, "Soft ") {
        return Ok(heap);
    }
    let max: bool = ends(key, "Max Capacity");
    let initial: bool = ends(key, "Initial Capacity");
    let min: bool = ends(key, "Min Capacity");
    if !max && !initial && !min {
        return Ok(heap);
    }
    match size_chars(value) {
        None => Err(
            JvmError::UnparseableSize {
                line: text::string_of(raw),
                token: text::string_of(value),
            },
        ),
        Some(n) => {
            if max {
                Ok(HeapConfig { max_bytes: Some(n), ..heap })
            } else if initial {
                Ok(HeapConfig { initial_bytes: Some(n), ..heap })
            } else {
                Ok(HeapConfig { min_bytes: Some(n), ..heap })
            }
        },
    }
}

/// The collection number at the start of a message, and what follows it.
pub open spec fn numbered(message: Seq<char>) -> (Option<u64>, Seq<char>) {
    match text::strip_prefix(message, "GC("@) {
        None => (None, message),
        Some(tail) => match text::split_once(tail, ")"@) {
            None => (None, message),
            Some((id, after)) => (
                match text::parse_u64(id) {
                    Some(n) => Some(n as u64),
                    None => None,
                },
                text::trim_start(after),
            ),
        },
    }
}

/// Whether `s` is a generation marker: one or two bytes of letters or digits.
pub open spec fn is_marker(s: Seq<char>) -> bool {
    &&& s.len() > 0
    &&& vstd::utf8::encode_utf8(s).len() <= 2
    &&& forall|i: int| 0 <= i < s.len() ==> alphanumeric(#[trigger] s[i])
}

/// The generation marker at the start of `s`, and what follows it.
pub open spec fn marked(s: Seq<char>) -> (Option<Seq<char>>, Seq<char>) {
    match text::split_once(s, ": "@) {
        Some((head, after)) if is_marker(head) => (Some(head), text::trim_start(after)),
        _ => (None, s),
    }
}

/// The milliseconds that a duration such as `2.739ms` writes.
pub open spec fn duration_of(token: Seq<char>) -> Option<Double> {
    match text::strip_suffix(token, "ms"@) {
        Some(n) => double::parse(n),
        None => None,
    }
}

/// The pause that the words after the keyword write.
pub open spec fn pause_of(
    words: Seq<Seq<char>>,
    gc_id: Option<u64>,
    generation: Option<Seq<char>>,
    uptime_s: Option<Double>,
    raw: Seq<char>,
) -> Result<Option<PauseView>, Fault> {
    if words.len() == 0 || duration_of(words.last()) is None {
        Err(
            Fault::BadPause(
                raw,
                "the line announces a pause but ends in no <n>ms duration"@,
            ),
        )
    } else {
        let rest = words.drop_last();
        let has_heap = rest.len() > 0 && text::contains(rest.last(), "->"@);
        if has_heap && triple_of(rest.last()) is None {
            Err(Fault::BadSize(raw, rest.last()))
        } else {
            Ok(
                Some(
                    PauseView {
                        gc_id,
                        uptime_s,
                        generation,
                        label: text::join(
                            if has_heap {
                                rest.drop_last()
                            } else {
                                rest
                            },
                            " "@,
                        ),
                        us: (duration_of(words.last())->0).times(double::of(1000)),
                        heap: if has_heap {
                            triple_of(rest.last())
                        } else {
                            None
                        },
                    },
                ),
            )
        }
    }
}

/// The pause that a line with the `gc` tag writes, `None` where it is not about
/// one. A line is about a pause when, after the collection number and the
/// generation marker, it begins with that word; its duration is then mandatory.
pub open spec fn pause_in(line: LineView, raw: Seq<char>) -> Result<Option<PauseView>, Fault> {
    let (gc_id, rest) = numbered(line.message);
    let (generation, rest) = marked(rest);
    match text::strip_prefix(rest, "Pause"@) {
        None => Ok(None),
        Some(body) => pause_of(
            text::words(text::trim(body)),
            gc_id,
            generation,
            line.uptime_s,
            raw,
        ),
    }
}

fn marker(s: &[char]) -> (r: bool)
    ensures
        r == is_marker(s@),
{
    if s.len() == 0 {
        return false;
    }
    let t = text::string_of(s);
    if t.as_str().as_bytes().len() > 2 {
        return false;
    }
    let mut i: usize = 0;
    while i < s.len()
        invariant
            i <= s.len(),
            forall|j: int| 0 <= j < i ==> alphanumeric(#[trigger] s@[j]),
        decreases s.len() - i,
    {
        if !s[i].is_alphanumeric() {
            assert(!alphanumeric(s@[i as int]));
            return false;
        }
        i = i + 1;
    }
    true
}

fn join_words(words: &[&[char]]) -> (s: String)
    ensures
        s@ == text::join(text::views(words@), " "@),
{
    let mut out: Vec<String> = Vec::new();
    let ghost all = text::views(words@);
    let mut i: usize = 0;
    while i < words.len()
        invariant
            i <= words.len(),
            all == text::views(words@),
            text::strings(out@) == all.take(i as int),
        decreases words.len() - i,
    {
        let w = text::string_of(words[i]);
        text::push_text(&mut out, w.as_str());
        assert(all.take(i + 1) =~= all.take(i as int).push(words@[i as int]@));
        i = i + 1;
    }
    assert(all.take(all.len() as int) =~= all);
    text::joined(out.as_slice(), " ")
}

fn parse_pause(line: &Decorated, raw: &[char]) -> (r: Result<Option<Pause>, JvmError>)
    ensures
        match r {
            Ok(Some(p)) => pause_in(line.view(), raw@) == Ok::<Option<PauseView>, Fault>(Some(p@)),
            Ok(None) => pause_in(line.view(), raw@) == Ok::<Option<PauseView>, Fault>(None),
            Err(e) => pause_in(line.view(), raw@) matches Err(f) && e.reports(f),
        },
{
    let mut rest: &[char] = line.message;
    let mut gc_id: Option<u64> = None;
    if let Some(tail) = text::without_prefix(rest, "GC(") {
        if let Some((id, after)) = text::cut_once(tail, ")") {
            gc_id = text::to_u64(id);
            rest = text::trimmed_start(after);
        }
    }
    assert(numbered(line.message@) == (gc_id, rest@));
    let mut generation: Option<String> = None;
    let ghost numbered_rest = rest@;
    if let Some((head, after)) = text::cut_once(rest, ": ") {
        if marker(head) {
            generation = Some(text::string_of(head));
            rest = text::trimmed_start(after);
        }
    }
    assert(marked(numbered_rest) == (opt_text(generation), rest@));
    let body = match text::without_prefix(rest, "Pause") {
        Some(b) => b,
        None => {
            return Ok(None);
        },
    };
    let words = text::split_words(text::trimmed(body));
    let ghost all = text::views(words@);
    let why = "the line announces a pause but ends in no <n>ms duration";
    let n: usize = words.len();
    if n == 0 {
        return Err(
            JvmError::UnparseablePause { line: text::string_of(raw), why: why.to_owned() },
        );
    }
    assert(all.last() == words@[n - 1]@);
    let duration: Option<Double> = match text::without_suffix(words[n - 1], "ms") {
        Some(t) => double::read(t),
        None => None,
    };
    let us: Double = match duration {
        Some(ms) => ms.multiply(Double::of(1000)),
        None => {
            return Err(
                JvmError::UnparseablePause { line: text::string_of(raw), why: why.to_owned() },
            );
        },
    };
    let mut kept: usize = n - 1;
    let mut heap: Option<HeapTriple> = None;
    let ghost others = all.drop_last();
    if kept > 0 {
        assert(others.last() == words@[n - 2]@);
        if text::has(words[kept - 1], "->") {
            heap = parse_triple(words[kept - 1]);
            if heap.is_none() {
                return Err(
                    JvmError::UnparseableSize {
                        line: text::string_of(raw),
                        token: text::string_of(words[kept - 1]),
                    },
                );
            }
            kept = kept - 1;
        }
    }
    let label_words = slice_subrange(words.as_slice(), 0, kept);
    assert(text::views(label_words@) =~= all.take(kept as int));
    assert(others =~= all.take(n - 1));
    assert(kept == n - 2 ==> others.drop_last() =~= all.take(n - 2));
    let label = join_words(label_words);
    Ok(
        Some(
            Pause { gc_id, uptime_s: line.uptime_s, generation, label, us, heap },
        ),
    )
}

/// What the lines of a log amount to.
#[verifier::ext_equal]
pub struct LogView {
    /// The pauses, in order.
    pub pauses: Seq<PauseView>,
    /// The configured heap.
    pub heap: HeapView,
    /// Lines that are not blank.
    pub lines: nat,
    /// Lines with decorations.
    pub decorated: nat,
    /// Lines with the `gc` tag.
    pub gc: nat,
}

/// What a log amounts to after one line more. A blank line counts for nothing,
/// a line without decorations is foreign, and a line that announces a pause
/// about to happen is not itself a pause.
pub open spec fn after_line(log: LogView, raw: Seq<char>) -> Result<LogView, Fault> {
    if text::trim(raw).len() == 0 {
        Ok(log)
    } else {
        match line_of(raw) {
            None => Ok(LogView { lines: log.lines + 1, ..log }),
            Some(line) => if !text::listed(line.tags, "gc"@) {
                Ok(LogView { lines: log.lines + 1, decorated: log.decorated + 1, ..log })
            } else {
                match with_line(log.heap, line, raw) {
                    Err(f) => Err(f),
                    Ok(heap) => {
                        let next = LogView {
                            pauses: log.pauses,
                            heap,
                            lines: log.lines + 1,
                            decorated: log.decorated + 1,
                            gc: log.gc + 1,
                        };
                        if text::listed(line.tags, "start"@) {
                            Ok(next)
                        } else {
                            match pause_in(line, raw) {
                                Err(f) => Err(f),
                                Ok(None) => Ok(next),
                                Ok(Some(p)) => Ok(LogView { pauses: next.pauses.push(p), ..next }),
                            }
                        }
                    },
                }
            },
        }
    }
}

/// What the lines of a log amount to, or what stops the first unreadable one.
pub open spec fn log_of(lines: Seq<Seq<char>>) -> Result<LogView, Fault>
    decreases lines.len(),
{
    if lines.len() == 0 {
        Ok(
            LogView {
                pauses: Seq::empty(),
                heap: HeapView::unknown(),
                lines: 0,
                decorated: 0,
                gc: 0,
            },
        )
    } else {
        match log_of(lines.drop_last()) {
            Err(f) => Err(f),
            Ok(log) => after_line(log, lines.last()),
        }
    }
}

proof fn lemma_log_stops(lines: Seq<Seq<char>>, k: int)
    requires
        0 <= k <= lines.len(),
        log_of(lines.take(k)) is Err,
    ensures
        log_of(lines) == log_of(lines.take(k)),
    decreases lines.len() - k,
{
    if k < lines.len() {
        assert(lines.take(k + 1).drop_last() =~= lines.take(k));
        lemma_log_stops(lines, k + 1);
    } else {
        assert(lines.take(k) =~= lines);
    }
}

impl GcLog {
    /// Whether this log holds what the lines amount to.
    pub open spec fn holds(self, v: LogView) -> bool {
        &&& pause_views(self.pauses@) == v.pauses
        &&& self.heap@ == v.heap
        &&& self.decorated_lines == v.decorated
        &&& self.gc_lines == v.gc
        &&& self.foreign_lines == v.lines - v.decorated
    }
}

/// Reads the virtual machine's collector log, from a file or from a console.
///
/// A log without decorated lines, one without collector lines and one that does
/// not show a collector starting are refused, each by name: the last of them
/// has lost its beginning, and with it an unknown number of pauses.
#[verifier::rlimit(40)]
pub fn parse_gc_log(log_text: &str) -> (r: Result<GcLog, JvmError>)
    ensures
        match log_of(text::lines(log_text@)) {
            Err(f) => r matches Err(e) && e.reports(f),
            Ok(v) => if v.decorated == 0 {
                r matches Err(JvmError::NotUnifiedLogging { lines }) && lines == v.lines
            } else if v.gc == 0 {
                r matches Err(JvmError::NoGcTaggedLines { decorated }) && decorated == v.decorated
            } else if v.heap.collector is None && v.heap.max_bytes is None {
                r matches Err(JvmError::NoCollectorInitialised { gc_lines, pauses }) && gc_lines
                    == v.gc && pauses == v.pauses.len()
            } else {
                r matches Ok(log) && log.holds(v)
            },
        },
{
    let chars = text::chars_of(log_text);
    let raws = text::split_lines(chars.as_slice());
    let ghost all = text::lines(log_text@);
    let mut pauses: Vec<Pause> = Vec::new();
    let mut heap = HeapConfig::default();
    let mut lines: usize = 0;
    let mut decorated_lines: usize = 0;
    let mut gc_lines: usize = 0;
    let mut foreign_lines: usize = 0;
    assert(pause_views(pauses@) =~= Seq::empty());
    let mut i: usize = 0;
    while i < raws.len()
        invariant
            i <= raws.len(),
            all == text::lines(log_text@),
            text::views(raws@) == all,
            all.len() == raws@.len(),
            lines <= i,
            decorated_lines <= i,
            gc_lines <= i,
            foreign_lines <= i,
            foreign_lines == lines - decorated_lines,
            log_of(all.take(i as int)) == Ok::<LogView, Fault>(
                LogView {
                    pauses: pause_views(pauses@),
                    heap: heap@,
                    lines: lines as nat,
                    decorated: decorated_lines as nat,
                    gc: gc_lines as nat,
                },
            ),
        decreases raws.len() - i,
    {
        let raw = raws[i];
        let ghost before = log_of(all.take(i as int))->Ok_0;
        assert(all.take(i + 1).drop_last() =~= all.take(i as int));
        assert(all.take(i + 1).last() == raw@);
        assert(log_of(all.take(i + 1)) == after_line(before, raw@));
        if text::trimmed(raw).len() > 0 {
            lines = lines + 1;
            match Decorated::parse(raw) {
                None => {
                    foreign_lines = foreign_lines + 1;
                },
                Some(line) => {
                    decorated_lines = decorated_lines + 1;
                    if line.has_tag("gc") {
                        gc_lines = gc_lines + 1;
                        match read_heap_config(heap, &line, raw) {
                            Err(e) => {
                                proof {
                                    lemma_log_stops(all, i + 1);
                                }
                                return Err(e);
                            },
                            Ok(h) => {
                                heap = h;
                            },
                        }
                        if !line.has_tag("start") {
                            match parse_pause(&line, raw) {
                                Err(e) => {
                                    proof {
                                        lemma_log_stops(all, i + 1);
                                    }
                                    return Err(e);
                                },
                                Ok(Some(p)) => {
                                    let ghost old_pauses = pause_views(pauses@);
                                    let ghost pv = p@;
                                    pauses.push(p);
                                    assert(pause_views(pauses@) =~= old_pauses.push(pv));
                                },
                                Ok(None) => {},
                            }
                        }
                    }
                },
            }
        }
        i = i + 1;
    }
    assert(all.take(all.len() as int) =~= all);
    if decorated_lines == 0 {
        return Err(JvmError::NotUnifiedLogging { lines });
    }
    if gc_lines == 0 {
        return Err(JvmError::NoGcTaggedLines { decorated: decorated_lines });
    }
    if heap.collector.is_none() && heap.max_bytes.is_none() {
        return Err(JvmError::NoCollectorInitialised { gc_lines, pauses: pauses.len() });
    }
    Ok(GcLog { pauses, heap, decorated_lines, gc_lines, foreign_lines })
}


// ---------------------------------------------------------------------------
// Order
// ---------------------------------------------------------------------------

/// Whether `s` ascends.
pub open spec fn ordered(s: Seq<Double>) -> bool {
    forall|i: int, j: int| 0 <= i <= j < s.len() ==> !(#[trigger] s[j]).before(#[trigger] s[i])
}

/// `s` with `x` put behind everything that does not come after it.
pub open spec fn placed(s: Seq<Double>, x: Double) -> Seq<Double>
    decreases s.len(),
{
    if s.len() == 0 || !x.before(s.last()) {
        s.push(x)
    } else {
        placed(s.drop_last(), x).push(s.last())
    }
}

/// The values of `s` in ascending order.
pub open spec fn sorted(s: Seq<Double>) -> Seq<Double>
    decreases s.len(),
{
    if s.len() == 0 {
        Seq::empty()
    } else {
        placed(sorted(s.drop_last()), s.last())
    }
}

proof fn lemma_placed(s: Seq<Double>, x: Double)
    requires
        ordered(s),
    ensures
        ordered(placed(s, x)),
        placed(s, x).to_multiset() == s.to_multiset().insert(x),
        placed(s, x).len() == s.len() + 1,
        s.len() > 0 && x.before(s.last()) ==> placed(s, x).last() == s.last(),
        s.len() == 0 || !x.before(s.last()) ==> placed(s, x).last() == x,
    decreases s.len(),
{
    broadcast use vstd::seq_lib::group_to_multiset_ensures;

    if s.len() == 0 || !x.before(s.last()) {
        assert(placed(s, x) =~= s.push(x));
        let p = s.push(x);
        assert forall|i: int, j: int| 0 <= i <= j < p.len() implies !(#[trigger] p[j]).before(
            #[trigger] p[i],
        ) by {
            if j == s.len() && i < s.len() {
                double::the_order_is_total(x, s.last(), s[i]);
                assert(!s[s.len() - 1].before(s[i]));
            } else if i == j {
                double::the_order_is_total(p[i], p[i], p[i]);
            } else {
                assert(!s[j].before(s[i]));
            }
        }
    } else {
        let t = s.drop_last();
        assert forall|i: int, j: int| 0 <= i <= j < t.len() implies !(#[trigger] t[j]).before(
            #[trigger] t[i],
        ) by {
            assert(!s[j].before(s[i]));
        }
        lemma_placed(t, x);
        let p = placed(t, x);
        let all = p.push(s.last());
        assert forall|i: int, j: int| 0 <= i <= j < all.len() implies !(#[trigger] all[j]).before(
            #[trigger] all[i],
        ) by {
            if j == p.len() {
                if i == p.len() {
                    double::the_order_is_total(s.last(), s.last(), s.last());
                } else {
                    let top = p.last();
                    assert(!p[p.len() - 1].before(p[i]));
                    if t.len() > 0 && x.before(t.last()) {
                        assert(!s[s.len() - 1].before(s[t.len() - 1]));
                        assert(top == t.last());
                    } else {
                        assert(top == x);
                        double::the_order_is_total(s.last(), x, s.last());
                    }
                    assert(!s.last().before(top));
                    double::the_order_is_total(s.last(), top, p[i]);
                }
            } else {
                assert(!p[j].before(p[i]));
            }
        }
        assert(s =~= t.push(s.last()));
        assert(placed(s, x).to_multiset() =~= s.to_multiset().insert(x));
    }
}

/// Sorting puts the values in order and neither adds nor loses any.
pub proof fn sorting_keeps_the_values(s: Seq<Double>)
    ensures
        ordered(sorted(s)),
        sorted(s).to_multiset() == s.to_multiset(),
        sorted(s).len() == s.len(),
    decreases s.len(),
{
    broadcast use vstd::seq_lib::group_to_multiset_ensures;

    if s.len() > 0 {
        sorting_keeps_the_values(s.drop_last());
        lemma_placed(sorted(s.drop_last()), s.last());
        assert(s =~= s.drop_last().push(s.last()));
    } else {
        assert(s =~= Seq::empty());
    }
}

fn place(v: &mut Vec<Double>, x: Double)
    ensures
        final(v)@ == placed(old(v)@, x),
{
    let ghost s = v@;
    let mut i: usize = v.len();
    assert(s.take(s.len() as int) =~= s);
    assert(s.skip(s.len() as int) =~= Seq::<Double>::empty());
    assert(placed(s, x) =~= placed(s.take(i as int), x) + s.skip(i as int));
    while i > 0 && x.precedes(v[i - 1])
        invariant
            i <= v.len(),
            v@ == s,
            placed(s, x) == placed(s.take(i as int), x) + s.skip(i as int),
        decreases i,
    {
        assert(s.take(i as int).drop_last() =~= s.take(i - 1));
        assert(placed(s.take(i as int), x) + s.skip(i as int) =~= placed(s.take(i - 1), x)
            + s.skip(i - 1));
        i = i - 1;
    }
    v.insert(i, x);
    assert(v@ =~= s.take(i as int).push(x) + s.skip(i as int));
}

/// The sum of the values, from the first to the last. It begins at minus zero,
/// which every number that is added takes the place of.
pub open spec fn sum_of(values: Seq<Double>) -> Double
    decreases values.len(),
{
    if values.len() == 0 {
        Double::zero(true)
    } else {
        sum_of(values.drop_last()).plus(values.last())
    }
}

fn sum(values: &[Double]) -> (r: Double)
    ensures
        r == sum_of(values@),
{
    let mut r: Double = Double::nothing().negate();
    let mut i: usize = 0;
    while i < values.len()
        invariant
            i <= values.len(),
            r == sum_of(values@.take(i as int)),
        decreases values.len() - i,
    {
        assert(values@.take(i + 1).drop_last() =~= values@.take(i as int));
        r = r.add_to(values[i]);
        i = i + 1;
    }
    assert(values@.take(i as int) =~= values@);
    r
}

/// The rank, from one on, of the value that a share `q` of `n` values does not
/// exceed.
pub open spec fn rank(n: nat, q: Double) -> nat {
    let r = q.times(double::of(n)).ceiling();
    if r < 1 {
        1
    } else if r > n {
        n
    } else {
        r
    }
}

/// The value at the nearest rank for the share `q`.
pub open spec fn nearest(values: Seq<Double>, q: Double) -> Double {
    if values.len() == 0 {
        Double::zero(false)
    } else {
        values[rank(values.len(), q) - 1]
    }
}

/// The percentile of an ascending slice at the share `q`.
///
/// Nearest rank and not interpolated, so that what it returns is a value that
/// was measured. Zero where nothing was.
pub fn percentile(values: &[Double], q: Double) -> (r: Double)
    ensures
        r == nearest(values@, q),
{
    if values.len() == 0 {
        return Double::nothing();
    }
    let n: usize = values.len();
    let r: u64 = q.multiply(Double::of(n as u128)).ceil();
    let k: usize = if r < 1 {
        1
    } else if r > n as u64 {
        n
    } else {
        r as usize
    };
    values[k - 1]
}

/// Every percentile of pauses that happened is a pause that happened.
pub proof fn a_percentile_is_one_of_the_values(values: Seq<Double>, q: Double)
    requires
        values.len() > 0,
    ensures
        values.contains(nearest(sorted(values), q)),
{
    broadcast use vstd::seq_lib::group_to_multiset_ensures;

    sorting_keeps_the_values(values);
    let s = sorted(values);
    let k = rank(s.len(), q) - 1;
    assert(s.contains(s[k]));
    assert(s.to_multiset().contains(s[k]));
    assert(values.to_multiset().contains(s[k]));
}

/// A percentile does not fall when the share grows.
pub proof fn percentiles_do_not_fall(values: Seq<Double>, low: Double, high: Double)
    requires
        0 < values.len() <= usize::MAX,
        !low.is_negative(),
        low.le(high),
    ensures
        !nearest(sorted(values), high).before(nearest(sorted(values), low)),
{
    sorting_keeps_the_values(values);
    let n = values.len();
    double::a_product_does_not_fall(low, high, n);
    let s = sorted(values);
    let (a, b) = (rank(n, low) - 1, rank(n, high) - 1);
    assert(!s[b].before(s[a]));
}

// ---------------------------------------------------------------------------
// Summarising
// ---------------------------------------------------------------------------

/// The pause distribution and the heap of one virtual machine over one window.
#[derive(Clone, Debug, PartialEq, Eq)]
pub struct GcSummary {
    /// Pauses counted.
    pub pauses: usize,
    /// Total time stopped, microseconds.
    pub total_us: Double,
    /// The longest pause, microseconds.
    pub max_us: Double,
    /// What the collector called the longest pause.
    pub max_label: String,
    /// Median pause, microseconds.
    pub p50_us: Double,
    /// 99th percentile, microseconds.
    pub p99_us: Double,
    /// 99.9th percentile, microseconds.
    pub p999_us: Double,
    /// Mean pause, microseconds. Never published alone: it names a value that
    /// few pauses took.
    pub mean_us: Double,
    /// Earliest pause's uptime, seconds: what interval these figures cover.
    pub from_uptime_s: Option<Double>,
    /// Latest pause's uptime, seconds.
    pub to_uptime_s: Option<Double>,
    /// The configured heap.
    pub configured: HeapConfig,
    /// The largest capacity that was committed.
    pub peak_committed_bytes: Option<u64>,
    /// The highest occupancy before a collection.
    pub peak_occupancy_bytes: Option<u64>,
    /// The highest occupancy after a collection.
    pub peak_live_bytes: Option<u64>,
}

/// The pauses inside a window of uptimes, all of them where there is none.
pub open spec fn chosen(pauses: Seq<PauseView>, window: Option<(Double, Double)>) -> Seq<PauseView>
    decreases pauses.len(),
{
    if pauses.len() == 0 {
        Seq::empty()
    } else {
        let before = chosen(pauses.drop_last(), window);
        match window {
            None => before.push(pauses.last()),
            Some((from, to)) => match pauses.last().uptime_s {
                Some(u) if from.le(u) && u.lt(to) => before.push(pauses.last()),
                _ => before,
            },
        }
    }
}

/// Whether every pause says when it happened.
pub open spec fn all_timed(pauses: Seq<PauseView>) -> bool {
    forall|i: int| 0 <= i < pauses.len() ==> (#[trigger] pauses[i]).uptime_s is Some
}

/// The durations of the pauses.
pub open spec fn durations(pauses: Seq<PauseView>) -> Seq<Double> {
    pauses.map_values(|p: PauseView| p.us)
}

/// What the collector called the longest pause, the last of several equally
/// long ones.
pub open spec fn worst(pauses: Seq<PauseView>) -> Option<PauseView>
    decreases pauses.len(),
{
    if pauses.len() == 0 {
        None
    } else {
        match worst(pauses.drop_last()) {
            Some(w) if pauses.last().us.before(w.us) => Some(w),
            _ => Some(pauses.last()),
        }
    }
}

/// The uptime of the earliest of the pauses that say when they happened.
pub open spec fn earliest(pauses: Seq<PauseView>) -> Option<Double>
    decreases pauses.len(),
{
    if pauses.len() == 0 {
        None
    } else {
        sooner(earliest(pauses.drop_last()), pauses.last().uptime_s)
    }
}

/// The uptime of the latest of the pauses that say when they happened.
pub open spec fn latest(pauses: Seq<PauseView>) -> Option<Double>
    decreases pauses.len(),
{
    if pauses.len() == 0 {
        None
    } else {
        later(latest(pauses.drop_last()), pauses.last().uptime_s)
    }
}

/// The smaller of two uptimes, where there are two.
pub open spec fn sooner(a: Option<Double>, b: Option<Double>) -> Option<Double> {
    match (a, b) {
        (Some(x), Some(y)) => if !y.before(x) {
            a
        } else {
            b
        },
        (Some(_), None) => a,
        _ => b,
    }
}

/// The larger of two uptimes, where there are two.
pub open spec fn later(a: Option<Double>, b: Option<Double>) -> Option<Double> {
    match (a, b) {
        (Some(x), Some(y)) => if !x.before(y) {
            a
        } else {
            b
        },
        (Some(_), None) => a,
        _ => b,
    }
}

fn sooner_of(a: Option<Double>, b: Option<Double>) -> (r: Option<Double>)
    ensures
        r == sooner(a, b),
{
    match (a, b) {
        (Some(x), Some(y)) => {
            if !y.precedes(x) {
                a
            } else {
                b
            }
        },
        (Some(_), None) => a,
        _ => b,
    }
}

fn later_of(a: Option<Double>, b: Option<Double>) -> (r: Option<Double>)
    ensures
        r == later(a, b),
{
    match (a, b) {
        (Some(x), Some(y)) => {
            if !x.precedes(y) {
                a
            } else {
                b
            }
        },
        (Some(_), None) => a,
        _ => b,
    }
}

/// The largest value of `f` over the heaps that the pauses reported.
pub open spec fn peak_heap(pauses: Seq<PauseView>, f: spec_fn(HeapTriple) -> u64) -> Option<u64>
    decreases pauses.len(),
{
    if pauses.len() == 0 {
        None
    } else {
        let before = peak_heap(pauses.drop_last(), f);
        match pauses.last().heap {
            None => before,
            Some(h) => match before {
                Some(b) if b >= f(h) => before,
                _ => Some(f(h)),
            },
        }
    }
}

impl GcSummary {
    /// Whether these are the figures that the pauses give.
    pub open spec fn of_pauses(self, p: Seq<PauseView>) -> bool {
        let s = sorted(durations(p));
        &&& self.pauses == p.len()
        &&& self.total_us == sum_of(s)
        &&& self.max_us == (if s.len() == 0 {
            Double::zero(false)
        } else {
            s.last()
        })
        &&& self.max_label@ == (match worst(p) {
            Some(w) => w.label,
            None => Seq::empty(),
        })
        &&& self.p50_us == nearest(s, double::quotient(1, 2))
        &&& self.p99_us == nearest(s, double::quotient(99, 100))
        &&& self.p999_us == nearest(s, double::quotient(999, 1000))
        &&& self.mean_us == (if p.len() == 0 {
            Double::zero(false)
        } else {
            sum_of(s).over(double::of(p.len()))
        })
        &&& self.from_uptime_s == earliest(p)
        &&& self.to_uptime_s == latest(p)
        &&& self.peak_committed_bytes == peak_heap(p, |h: HeapTriple| h.capacity_bytes)
        &&& self.peak_occupancy_bytes == peak_heap(p, |h: HeapTriple| h.before_bytes)
        &&& self.peak_live_bytes == peak_heap(p, |h: HeapTriple| h.after_bytes)
    }
}

fn larger(acc: Option<u64>, n: u64) -> (r: Option<u64>)
    ensures
        r == (match acc {
            Some(b) if b >= n => acc,
            _ => Some(n),
        }),
{
    match acc {
        Some(b) if b >= n => Some(b),
        _ => Some(n),
    }
}

impl GcLog {
    /// Summarises the pauses, those inside a window of uptimes where one is
    /// given.
    ///
    /// A log covers the whole life of the virtual machine and is copied after
    /// the measurement, so it runs past the measured window at both ends. A
    /// bound that the log cannot honour is refused, not ignored.
    #[verifier::rlimit(40)]
    pub fn summarise(&self, window: Option<(Double, Double)>) -> (r: Result<GcSummary, JvmError>)
        ensures
            match r {
                Ok(s) => (window is None || all_timed(pause_views(self.pauses@))) && s.of_pauses(
                    chosen(pause_views(self.pauses@), window),
                ) && s.configured@ == self.heap@,
                Err(e) => window is Some && !all_timed(pause_views(self.pauses@)) && e
                    == JvmError::NoUptimeDecoration,
            },
    {
        let ghost all = pause_views(self.pauses@);
        let mut values: Vec<Double> = Vec::new();
        let mut worst_us: Option<Double> = None;
        let mut worst_at: usize = 0;
        let mut from_uptime_s: Option<Double> = None;
        let mut to_uptime_s: Option<Double> = None;
        let mut committed: Option<u64> = None;
        let mut occupancy: Option<u64> = None;
        let mut live: Option<u64> = None;
        let mut i: usize = 0;
        assert(durations(chosen(all.take(0), window)) =~= Seq::empty());
        while i < self.pauses.len()
            invariant
                i <= self.pauses.len(),
                all == pause_views(self.pauses@),
                all.len() == self.pauses@.len(),
                window is Some ==> all_timed(all.take(i as int)),
                values@ == sorted(durations(chosen(all.take(i as int), window))),
                values@.len() == chosen(all.take(i as int), window).len(),
                chosen(all.take(i as int), window).len() <= i,
                match worst_us {
                    Some(w) => worst_at < self.pauses@.len() && worst(
                        chosen(all.take(i as int), window),
                    ) == Some(all[worst_at as int]) && all[worst_at as int].us == w,
                    None => chosen(all.take(i as int), window).len() == 0,
                },
                from_uptime_s == earliest(chosen(all.take(i as int), window)),
                to_uptime_s == latest(chosen(all.take(i as int), window)),
                committed == peak_heap(
                    chosen(all.take(i as int), window),
                    |h: HeapTriple| h.capacity_bytes,
                ),
                occupancy == peak_heap(
                    chosen(all.take(i as int), window),
                    |h: HeapTriple| h.before_bytes,
                ),
                live == peak_heap(
                    chosen(all.take(i as int), window),
                    |h: HeapTriple| h.after_bytes,
                ),
            decreases self.pauses.len() - i,
        {
            let ghost before = chosen(all.take(i as int), window);
            let ghost here = all[i as int];
            assert(all.take(i + 1).drop_last() =~= all.take(i as int));
            assert(all.take(i + 1).last() == here);
            assert(here == self.pauses@[i as int]@);
            let uptime: Option<Double> = self.pauses[i].uptime_s;
            let inside: bool = match window {
                None => true,
                Some((from, to)) => match uptime {
                    None => {
                        assert(all[i as int].uptime_s is None);
                        return Err(JvmError::NoUptimeDecoration);
                    },
                    Some(u) => from.at_most(u) && u.below(to),
                },
            };
            proof {
                if window is Some {
                    let t = all.take(i + 1);
                    assert forall|j: int| 0 <= j < t.len() implies (#[trigger] t[j]).uptime_s is Some by {
                        if j < i {
                            assert(t[j] == all.take(i as int)[j]);
                        }
                    }
                }
            }
            if inside {
                let ghost now = before.push(here);
                assert(chosen(all.take(i + 1), window) == now);
                assert(now.drop_last() =~= before);
                assert(durations(now) =~= durations(before).push(here.us));
                assert(durations(now).drop_last() =~= durations(before));
                let us: Double = self.pauses[i].us;
                place(&mut values, us);
                proof {
                    sorting_keeps_the_values(durations(now));
                }
                let beats: bool = match worst_us {
                    Some(w) => !us.precedes(w),
                    None => true,
                };
                if beats {
                    worst_us = Some(us);
                    worst_at = i;
                }
                from_uptime_s = sooner_of(from_uptime_s, uptime);
                to_uptime_s = later_of(to_uptime_s, uptime);
                if let Some(h) = self.pauses[i].heap {
                    committed = larger(committed, h.capacity_bytes);
                    occupancy = larger(occupancy, h.before_bytes);
                    live = larger(live, h.after_bytes);
                }
            }
            i = i + 1;
        }
        assert(all.take(all.len() as int) =~= all);
        let n: usize = values.len();
        let max_us: Double = if n == 0 {
            Double::nothing()
        } else {
            values[n - 1]
        };
        let max_label: String = match worst_us {
            Some(_) => {
                assert(all[worst_at as int] == self.pauses@[worst_at as int]@);
                self.pauses[worst_at].label.clone()
            },
            None => String::new(),
        };
        let total_us: Double = sum(values.as_slice());
        let mean_us: Double = if n == 0 {
            Double::nothing()
        } else {
            total_us.divide(Double::of(n as u128))
        };
        Ok(
            GcSummary {
                pauses: n,
                total_us,
                max_us,
                max_label,
                p50_us: percentile(values.as_slice(), Double::quotient(1, 2)),
                p99_us: percentile(values.as_slice(), Double::quotient(99, 100)),
                p999_us: percentile(values.as_slice(), Double::quotient(999, 1000)),
                mean_us,
                from_uptime_s,
                to_uptime_s,
                configured: self.heap.copied(),
                peak_committed_bytes: committed,
                peak_occupancy_bytes: occupancy,
                peak_live_bytes: live,
            },
        )
    }
}

/// How many pauses each name has, and how long they took together.
pub open spec fn label_map(pauses: Seq<PauseView>) -> Map<Seq<char>, (usize, Double)>
    decreases pauses.len(),
{
    if pauses.len() == 0 {
        Map::empty()
    } else {
        let before = label_map(pauses.drop_last());
        let p = pauses.last();
        let (n, t) = if before.contains_key(p.label) {
            before[p.label]
        } else {
            (0usize, Double::zero(false))
        };
        before.insert(p.label, ((n + 1) as usize, t.plus(p.us)))
    }
}

impl GcLog {
    /// How many pauses each collector phase contributed, and how many
    /// microseconds.
    pub fn by_label(&self) -> (t: Table<(usize, Double)>)
        ensures
            t@ == label_map(pause_views(self.pauses@)),
    {
        let ghost all = pause_views(self.pauses@);
        let mut t: Table<(usize, Double)> = Table::new();
        let mut i: usize = 0;
        while i < self.pauses.len()
            invariant
                i <= self.pauses.len(),
                all == pause_views(self.pauses@),
                all.len() == self.pauses@.len(),
                t@ == label_map(all.take(i as int)),
                forall|k: Seq<char>| #[trigger]
                    t@.contains_key(k) ==> t@[k].0 <= i,
            decreases self.pauses.len() - i,
        {
            assert(all.take(i + 1).drop_last() =~= all.take(i as int));
            assert(all.take(i + 1).last() == self.pauses@[i as int]@);
            let (n, sum): (usize, Double) = match t.get(self.pauses[i].label.as_str()) {
                Some(e) => *e,
                None => (0, Double::nothing()),
            };
            t.insert(self.pauses[i].label.clone(), (n + 1, sum.add_to(self.pauses[i].us)));
            i = i + 1;
        }
        assert(all.take(all.len() as int) =~= all);
        t
    }
}

/// A number of bytes in units of `2^20`.
pub open spec fn mib(bytes: u64) -> Double {
    double::of(bytes as nat).over(double::of(1_048_576))
}

impl GcSummary {
    /// The configured maximum and the largest capacity committed, `None` where
    /// either is missing.
    pub open spec fn heap_pair(self) -> Option<(u64, u64)> {
        match (self.configured.max_bytes, self.peak_committed_bytes) {
            (Some(a), Some(b)) => Some((a, b)),
            _ => None,
        }
    }

    /// The configured maximum against the largest capacity committed, `None`
    /// where either is missing: the gap is then undefined and not large.
    pub fn configured_versus_committed(&self) -> (r: Option<(u64, u64)>)
        ensures
            r == self.heap_pair(),
    {
        match (self.configured.max_bytes, self.peak_committed_bytes) {
            (Some(a), Some(b)) => Some((a, b)),
            _ => None,
        }
    }

    /// The share of the configured maximum that was committed.
    pub fn committed_share(&self) -> (r: Option<Double>)
        ensures
            r == (match self.heap_pair() {
                Some((a, b)) if a > 0 => Some(double::of(b as nat).over(double::of(a as nat))),
                _ => None,
            }),
    {
        match self.configured_versus_committed() {
            Some((a, b)) => {
                if a > 0 {
                    Some(Double::of(b as u128).divide(Double::of(a as u128)))
                } else {
                    None
                }
            },
            None => None,
        }
    }

    /// What the figures rest on, in one line.
    pub open spec fn account(self) -> Seq<char> {
        let collector = match self.configured.collector {
            Some(c) => c@,
            None => "unknown"@,
        };
        let runtime = match self.configured.version {
            Some(v) => " on JVM "@ + v@,
            None => Seq::empty(),
        };
        let label = if self.max_label@.len() == 0 {
            "-"@
        } else {
            self.max_label@
        };
        let head = "GC: "@ + collector + runtime + ", "@ + text::decimal(self.pauses as nat)
            + " pause(s) totalling "@ + self.total_us.over(double::of(1000)).fixed(1)
            + "ms, max "@ + self.max_us.over(double::of(1000)).fixed(1) + "ms ("@ + label
            + ")"@;
        match self.heap_pair() {
            Some((configured, committed)) => head + "; heap "@ + mib(committed).fixed(0)
                + " MiB committed of "@ + mib(configured).fixed(0) + " MiB configured"@,
            None => head,
        }
    }

    /// What the figures rest on, for a record's note.
    pub fn provenance(&self) -> (s: String)
        ensures
            s@ == self.account(),
    {
        let mut s = "GC: ".to_owned();
        match &self.configured.collector {
            Some(c) => s.append(c.as_str()),
            None => s.append("unknown"),
        }
        let ghost so_far = s@;
        match &self.configured.version {
            Some(v) => {
                let r = sampler::concat(" on JVM ", v.as_str());
                s.append(r.as_str());
            },
            None => {},
        }
        assert(s@ =~= so_far + (match self.configured.version {
            Some(v) => " on JVM "@ + v@,
            None => Seq::empty(),
        }));
        s.append(", ");
        text::push_decimal(&mut s, self.pauses as u128);
        s.append(" pause(s) totalling ");
        let total = self.total_us.divide(Double::of(1000)).to_fixed(1);
        s.append(total.as_str());
        s.append("ms, max ");
        let max = self.max_us.divide(Double::of(1000)).to_fixed(1);
        s.append(max.as_str());
        s.append("ms (");
        if self.max_label.as_str().is_empty() {
            s.append("-");
        } else {
            s.append(self.max_label.as_str());
        }
        s.append(")");
        if let Some((configured, committed)) = self.configured_versus_committed() {
            s.append("; heap ");
            let a = Double::of(committed as u128).divide(Double::of(1_048_576)).to_fixed(0);
            s.append(a.as_str());
            s.append(" MiB committed of ");
            let b = Double::of(configured as u128).divide(Double::of(1_048_576)).to_fixed(0);
            s.append(b.as_str());
            s.append(" MiB configured");
        }
        s
    }
}

/// A log that could not be fetched.
fn unavailable(container: &str, path: &str, why: String) -> (e: JvmError)
    ensures
        e matches JvmError::LogUnavailable { container: c, path: p, why: w } && c@ == container@
            && p@ == path@ && w == why,
{
    JvmError::LogUnavailable { container: container.to_owned(), path: path.to_owned(), why }
}

/// The log of a container, given what became of copying it out and of reading the
/// copy.
pub fn read_gc_log(
    container: &str,
    path: &str,
    copied: Result<Result<String, String>, String>,
) -> (r: Result<String, JvmError>)
    ensures
        match copied {
            Err(why) => r matches Err(JvmError::LogUnavailable { container: c, path: p, why: w })
                && c@ == container@ && p@ == path@ && w == why,
            Ok(Err(why)) => r matches Err(e) && e == JvmError::ReadFailed(why),
            Ok(Ok(s)) => r matches Ok(t) && t == s,
        },
{
    match copied {
        Err(why) => Err(unavailable(container, path, why)),
        Ok(Err(why)) => Err(JvmError::ReadFailed(why)),
        Ok(Ok(s)) => Ok(s),
    }
}

/// The console of a container, for an arm that logs there: what it wrote to its
/// two streams, one after the other.
pub fn gc_log_from_console(container: &str, printed: Result<(String, String), String>) -> (r: Result<
    String,
    JvmError,
>)
    ensures
        match printed {
            Err(why) => r matches Err(JvmError::LogUnavailable { container: c, path: p, why: w })
                && c@ == container@ && p@ == "<console>"@ && w == why,
            Ok((out, err)) => r matches Ok(t) && t@ == out@ + "\n"@ + err@,
        },
{
    match printed {
        Err(why) => Err(unavailable(container, "<console>", why)),
        Ok((out, err)) => {
            let mut s = out;
            s.append("\n");
            s.append(err.as_str());
            Ok(s)
        },
    }
}

/// Reads and summarises the log of one virtual machine.
pub fn measure(log_text: &str, window: Option<(Double, Double)>) -> (r: Result<GcSummary, JvmError>)
    ensures
        match log_of(text::lines(log_text@)) {
            Err(f) => r matches Err(e) && e.reports(f),
            Ok(v) => if v.decorated == 0 {
                r matches Err(JvmError::NotUnifiedLogging { lines }) && lines == v.lines
            } else if v.gc == 0 {
                r matches Err(JvmError::NoGcTaggedLines { decorated }) && decorated == v.decorated
            } else if v.heap.collector is None && v.heap.max_bytes is None {
                r matches Err(JvmError::NoCollectorInitialised { gc_lines, pauses }) && gc_lines
                    == v.gc && pauses == v.pauses.len()
            } else if window is Some && !all_timed(v.pauses) {
                r matches Err(e) && e == JvmError::NoUptimeDecoration
            } else {
                r matches Ok(s) && s.of_pauses(chosen(v.pauses, window)) && s.configured@ == v.heap
            },
        },
{
    match parse_gc_log(log_text) {
        Err(e) => Err(e),
        Ok(log) => log.summarise(window),
    }
}

/// A line from an application that shares the console leaves the pauses and the
/// configured heap as they are.
pub proof fn a_foreign_line_changes_no_figure(log: LogView, raw: Seq<char>)
    requires
        line_of(raw) is None,
    ensures
        after_line(log, raw) matches Ok(next) && next.pauses == log.pauses && next.heap == log.heap
            && next.decorated == log.decorated && next.gc == log.gc,
{
}

/// A line that announces a pause is either read as one or refused: it is never
/// passed over.
pub proof fn an_announced_pause_is_read_or_refused(log: LogView, raw: Seq<char>, line: LineView)
    requires
        text::trim(raw).len() > 0,
        line_of(raw) == Some(line),
        text::listed(line.tags, "gc"@),
        !text::listed(line.tags, "start"@),
        text::starts_with(marked(numbered(line.message).1).1, "Pause"@),
    ensures
        match after_line(log, raw) {
            Ok(next) => next.pauses.len() == log.pauses.len() + 1,
            Err(_) => true,
        },
{
}

/// Every pause that says when it happened lies between the uptimes of a summary,
/// and each of the two is the uptime of one of them.
pub proof fn a_summary_covers_its_pauses(p: Seq<PauseView>, i: int)
    requires
        0 <= i < p.len(),
        p[i].uptime_s is Some,
    ensures
        earliest(p) is Some && latest(p) is Some,
        !(p[i].uptime_s->0).before(earliest(p)->0),
        !(latest(p)->0).before(p[i].uptime_s->0),
        exists|j: int| 0 <= j < p.len() && (#[trigger] p[j]).uptime_s == earliest(p),
        exists|j: int| 0 <= j < p.len() && (#[trigger] p[j]).uptime_s == latest(p),
    decreases p.len(),
{
    let q = p.drop_last();
    let n = q.len() as int;
    if exists|k: int| 0 <= k < n && (#[trigger] q[k]).uptime_s is Some {
        let k = if i < n {
            i
        } else {
            choose|k: int| 0 <= k < n && (#[trigger] q[k]).uptime_s is Some
        };
        assert(q[k] == p[k]);
        a_summary_covers_its_pauses(q, k);
        let a = choose|j: int| 0 <= j < n && (#[trigger] q[j]).uptime_s == earliest(q);
        let b = choose|j: int| 0 <= j < n && (#[trigger] q[j]).uptime_s == latest(q);
        assert(p[a] == q[a] && p[b] == q[b] && p[n] == p.last());
    } else {
        assert(i == n) by {
            if i < n {
                assert(q[i].uptime_s is Some);
            }
        }
        lemma_untimed(q);
        assert(p[n] == p.last());
    }
}

proof fn lemma_untimed(p: Seq<PauseView>)
    requires
        forall|k: int| 0 <= k < p.len() ==> (#[trigger] p[k]).uptime_s is None,
    ensures
        earliest(p) is None,
        latest(p) is None,
    decreases p.len(),
{
    if p.len() > 0 {
        let q = p.drop_last();
        assert forall|k: int| 0 <= k < q.len() implies (#[trigger] q[k]).uptime_s is None by {
            assert(p[k] == q[k]);
        }
        assert(p[p.len() - 1].uptime_s is None);
        lemma_untimed(q);
    }
}

/// How many of the values are no longer than `x`.
pub open spec fn no_longer(values: Seq<Double>, x: Double) -> nat
    decreases values.len(),
{
    if values.len() == 0 {
        0
    } else {
        no_longer(values.drop_last(), x) + if x.before(values.last()) {
            0nat
        } else {
            1nat
        }
    }
}

proof fn lemma_placing_counts(s: Seq<Double>, v: Double, x: Double)
    ensures
        no_longer(placed(s, v), x) == no_longer(s, x) + if x.before(v) {
            0nat
        } else {
            1nat
        },
    decreases s.len(),
{
    if s.len() == 0 || !v.before(s.last()) {
        assert(s.push(v).drop_last() =~= s);
    } else {
        lemma_placing_counts(s.drop_last(), v, x);
        let p = placed(s.drop_last(), v);
        assert(p.push(s.last()).drop_last() =~= p);
    }
}

proof fn lemma_sorting_counts(s: Seq<Double>, x: Double)
    ensures
        no_longer(sorted(s), x) == no_longer(s, x),
    decreases s.len(),
{
    if s.len() > 0 {
        lemma_sorting_counts(s.drop_last(), x);
        lemma_placing_counts(sorted(s.drop_last()), s.last(), x);
    }
}

proof fn lemma_at_least(s: Seq<Double>, x: Double, k: int)
    requires
        0 <= k <= s.len(),
        forall|i: int| 0 <= i < k ==> !x.before(#[trigger] s[i]),
    ensures
        no_longer(s, x) >= k,
    decreases s.len(),
{
    if s.len() > 0 {
        let t = s.drop_last();
        let m = if k == s.len() {
            k - 1
        } else {
            k
        };
        assert forall|i: int| 0 <= i < m implies !x.before(#[trigger] t[i]) by {
            assert(t[i] == s[i]);
        }
        lemma_at_least(t, x, m);
        if k == s.len() {
            assert(!x.before(s[k - 1]));
        }
    }
}

proof fn lemma_at_most(s: Seq<Double>, x: Double, k: int)
    requires
        0 <= k <= s.len(),
        forall|i: int| k <= i < s.len() ==> x.before(#[trigger] s[i]),
    ensures
        no_longer(s, x) <= k,
    decreases s.len(),
{
    if s.len() > 0 {
        let t = s.drop_last();
        let m = if k == s.len() {
            k - 1
        } else {
            k
        };
        assert forall|i: int| m <= i < t.len() implies x.before(#[trigger] t[i]) by {
            assert(t[i] == s[i]);
        }
        lemma_at_most(t, x, m);
        if k < s.len() {
            assert(x.before(s[s.len() - 1]));
        }
    }
}

/// The rank is the least whole number that is at least the share.
proof fn lemma_rank(n: nat, a: nat, b: nat)
    requires
        0 < n < 0x400_0000_0000,
        0 < a < b <= 1000,
        b <= 2 * a,
        double::quotient(a, b).magnitude() * b <= a * double::one_in_units(),
    ensures
        1 <= rank(n, double::quotient(a, b)) <= n,
        b * rank(n, double::quotient(a, b)) >= a * n,
        b * (rank(n, double::quotient(a, b)) - 1) < a * n,
{
    about::lemma_ranges();
    let u = double::one_in_units();
    let (c, t) = (big::two(256), big::two(200));
    let q = double::quotient(a, b);
    let m = q.magnitude();
    double::a_large_share_has_fifty_three_bits(a, b);
    double::a_small_integer_is_a_double(n);
    assert(u >= 0x1000_0000_0000_0000_0000 && c >= 0x100_0000_0000_0000) by (nonlinear_arith)
        requires
            u >= t * t * 0x1000_0000_0000_0000_0000,
            c == t * 0x100_0000_0000_0000,
            t >= 1,
    {
        assert(t * t >= 1);
    }
    assert(0x20_0000_0000_0000 * b <= a * u && a * u <= b * (u * c)) by (nonlinear_arith)
        requires
            0 < a < b <= 1000,
            u >= 0x1000_0000_0000_0000_0000,
            c >= 1,
    {
        assert(u * c >= u);
    }
    double::rounding_is_close(false, a * u, b);
    let e: int = 0x20_0000_0000_0000;
    assert((e - 1) * (a * u) <= e * (m * b));
    // The product with the number of values.
    let x = m * (n * u);
    assert(m <= u && 4 * m >= u) by (nonlinear_arith)
        requires
            m * b <= a * u,
            (e - 1) * (a * u) <= e * (m * b),
            0 < a < b <= 2 * a,
            u > 0,
            e == 0x20_0000_0000_0000,
    {
        assert(a * u <= b * u);
        assert(2 * (m * b) >= a * u);
        assert(2 * (a * u) >= b * u);
    }
    assert(0x20_0000_0000_0000 * u <= x && x <= u * (u * c)) by (nonlinear_arith)
        requires
            x == m * (n * u),
            m <= u,
            4 * m >= u,
            1 <= n < 0x400_0000_0000,
            u >= 0x1000_0000_0000_0000_0000,
            c >= 0x100_0000_0000_0000,
    {
        assert(m * (n * u) >= m * u);
        assert(n <= c);
        assert(n * u <= c * u);
        assert(m * (n * u) <= u * (c * u));
    }
    double::rounding_is_close(false, x, u);
    let v = q.times(double::of(n));
    let w = v.magnitude();
    assert((e - 1) * (m * n) <= e * w) by (nonlinear_arith)
        requires
            (e - 1) * x <= e * (w * u),
            x == m * (n * u),
            u > 0,
    {
        assert((e - 1) * (m * n) * u <= (e * w) * u);
    }
    // From above.
    let j = ((a * n + b - 1) / (b as int)) as nat;
    assert(b * j >= a * n && b * (j - 1) < a * n && j <= n) by (nonlinear_arith)
        requires
            j == (a * n + b - 1) / (b as int),
            0 < a < b,
            n >= 1,
    ;
    assert(x <= (j * u) * u) by (nonlinear_arith)
        requires
            x == m * (n * u),
            m * b <= a * u,
            b * j >= a * n,
            b > 0,
            u > 0,
    {
        assert((m * b) * n <= (a * u) * n);
        assert((a * u) * n == (a * n) * u);
        assert((a * n) * u <= (b * j) * u);
        assert(b * (m * n) <= b * (j * u));
        assert(m * n <= j * u);
        assert((m * n) * u <= (j * u) * u);
    }
    double::rounding_keeps_the_order(x, (j * u) * u, u);
    assert((j * u) * u == u * (j * u)) by (nonlinear_arith);
    double::an_exact_result_is_kept(false, (j * u) * u, u, j, double::UNIT as nat);
    assert(w <= j * u);
    // The integer above.
    let f = w / u;
    vstd::arithmetic::div_mod::lemma_fundamental_div_mod(w as int, u as int);
    let g = w % u;
    assert(f <= j) by (nonlinear_arith)
        requires
            w == u * f + g,
            w <= j * u,
            0 <= g,
            u > 0,
    ;
    let r = v.ceiling();
    assert(r == if g > 0 {
        f + 1
    } else {
        f
    });
    assert(r <= j) by (nonlinear_arith)
        requires
            w == u * f + g,
            w <= j * u,
            0 <= g < u,
            r == if g > 0 {
                f + 1
            } else {
                f
            },
    ;
    assert(w <= r * u) by (nonlinear_arith)
        requires
            w == u * f + g,
            0 <= g < u,
            r == if g > 0 {
                f + 1
            } else {
                f
            },
    ;
    assert(a * n < 0x10_0000_0000_0000) by (nonlinear_arith)
        requires
            a <= 1000,
            n < 0x400_0000_0000,
    ;
    assert(b * r >= a * n) by {
        let (an, br) = (a * n, b * r);
        // Two roundings take less than one off.
        assert((e - 1) * ((e - 1) * an) <= e * (e * br)) by (nonlinear_arith)
            requires
                (e - 1) * (a * u) <= e * (m * b),
                (e - 1) * (m * n) <= e * w,
                w <= r * u,
                an == a * n,
                br == b * r,
                u > 0,
                e == 0x20_0000_0000_0000,
        {
            assert((e - 1) * (a * u) * n <= e * (m * b) * n);
            assert(((e - 1) * (a * u) * n) * (e - 1) <= (e * (m * b) * n) * (e - 1));
            assert((e * (m * b) * n) * (e - 1) == (e * b) * ((e - 1) * (m * n)));
            assert((e * b) * ((e - 1) * (m * n)) <= (e * b) * (e * w));
            assert((e * b) * (e * w) <= (e * b) * (e * (r * u)));
            assert(((e - 1) * ((e - 1) * an)) * u <= (e * (e * br)) * u);
        }
        assert(br > an - 1) by (nonlinear_arith)
            requires
                (e - 1) * ((e - 1) * an) <= e * (e * br),
                0 <= an < 0x10_0000_0000_0000,
                e == 0x20_0000_0000_0000,
        {
            assert((e - 1) * ((e - 1) * an) == e * (e * an) - 2 * (e * an) + an);
            assert(e * (e * (an - br)) <= 2 * (e * an));
            assert(e * (an - br) <= 2 * an);
        }
    }
    assert(r >= 1) by (nonlinear_arith)
        requires
            b * r >= a * n,
            a >= 1,
            n >= 1,
            r >= 0,
    ;
    assert(b * (r - 1) < a * n) by (nonlinear_arith)
        requires
            r <= j,
            b * (j - 1) < a * n,
            b > 0,
    ;
}

/// What the nearest rank is by counting: as many of the values as the share asks
/// for are no longer than it, and of anything shorter that is not so.
proof fn lemma_nearest_counts(values: Seq<Double>, a: nat, b: nat)
    requires
        0 < values.len() < 0x400_0000_0000,
        0 < a < b <= 1000,
        b <= 2 * a,
        double::quotient(a, b).magnitude() * b <= a * double::one_in_units(),
    ensures
        is_shortest_covering(values, nearest(sorted(values), double::quotient(a, b)), a, b),
{
    let s = sorted(values);
    let q = double::quotient(a, b);
    let n = values.len();
    sorting_keeps_the_values(values);
    lemma_rank(n, a, b);
    let r = rank(n, q) as int;
    let x = s[r - 1];
    lemma_sorting_counts(values, x);
    assert forall|i: int| 0 <= i < r implies !x.before(#[trigger] s[i]) by {
        assert(!s[r - 1].before(s[i]));
    }
    lemma_at_least(s, x, r);
    let c = no_longer(values, x);
    assert(b * c >= a * n) by (nonlinear_arith)
        requires
            c >= r,
            b * r >= a * n,
            b > 0,
    ;
    assert forall|y: Double| #[trigger] y.before(x) implies b * no_longer(values, y) < a * n by {
        assert forall|i: int| r - 1 <= i < s.len() implies y.before(#[trigger] s[i]) by {
            assert(!s[i].before(s[r - 1]));
            double::the_order_is_total(s[i], x, y);
            if !y.before(s[i]) {
                double::the_order_is_total(y, s[i], x);
            }
        }
        lemma_at_most(s, y, r - 1);
        lemma_sorting_counts(values, y);
        let d = no_longer(values, y);
        assert(b * d < a * n) by (nonlinear_arith)
            requires
                d <= r - 1,
                b * (r - 1) < a * n,
                b > 0,
        ;
    }
    a_percentile_is_one_of_the_values(values, q);
}

/// Whether `x` is one of the values, at least `a` in `b` of them are no longer than
/// `x`, and `x` is the shortest of which that can be said.
pub open spec fn is_shortest_covering(values: Seq<Double>, x: Double, a: nat, b: nat) -> bool {
    &&& values.contains(x)
    &&& b * no_longer(values, x) >= a * values.len()
    &&& forall|y: Double| #[trigger] y.before(x) ==> b * no_longer(values, y) < a * values.len()
}

/// The percentiles of a summary, by counting its pauses: at least half of them are
/// no longer than the median, 99 in 100 no longer than the 99th percentile and 999
/// in 1000 no longer than the 99.9th; each is a pause that happened, and the
/// shortest of which that can be said.
pub proof fn percentiles_cover_their_shares(g: GcSummary, p: Seq<PauseView>)
    requires
        g.of_pauses(p),
        0 < p.len() < 0x400_0000_0000,
    ensures
        is_shortest_covering(durations(p), g.p50_us, 1, 2),
        is_shortest_covering(durations(p), g.p99_us, 99, 100),
        is_shortest_covering(durations(p), g.p999_us, 999, 1000),
{
    double::percentile_shares_are_not_rounded_up();
    lemma_nearest_counts(durations(p), 1, 2);
    lemma_nearest_counts(durations(p), 99, 100);
    lemma_nearest_counts(durations(p), 999, 1000);
}

/// The longest pause of a summary is one that happened, no pause is longer, and it
/// is what the label belongs to.
pub proof fn the_longest_pause_is_the_longest(g: GcSummary, p: Seq<PauseView>)
    requires
        g.of_pauses(p),
        p.len() > 0,
    ensures
        durations(p).contains(g.max_us),
        forall|i: int| 0 <= i < p.len() ==> !g.max_us.before((#[trigger] p[i]).us),
        exists|i: int|
            0 <= i < p.len() && (#[trigger] p[i]).label == g.max_label@ && !p[i].us.before(
                g.max_us,
            ),
{
    broadcast use vstd::seq_lib::group_to_multiset_ensures;

    let d = durations(p);
    let s = sorted(d);
    sorting_keeps_the_values(d);
    let top = s.last();
    assert(s.contains(s[s.len() - 1]));
    assert(s.to_multiset().contains(top));
    assert(d.to_multiset().contains(top));
    assert forall|i: int| 0 <= i < p.len() implies !top.before((#[trigger] p[i]).us) by {
        assert(d[i] == p[i].us);
        assert(d.to_multiset().contains(d[i]));
        assert(s.to_multiset().contains(d[i]));
        assert(s.contains(d[i]));
        let k = choose|k: int| 0 <= k < s.len() && s[k] == d[i];
        assert(!s[s.len() - 1].before(s[k]));
    }
    lemma_worst(p);
    let k = choose|k: int| 0 <= k < d.len() && d[k] == top;
    assert(p[k].us == top);
    let w = worst(p)->0;
    let i = choose|i: int| 0 <= i < p.len() && #[trigger] p[i] == w;
    assert(!w.us.before(p[k].us));
}

proof fn lemma_worst(p: Seq<PauseView>)
    requires
        p.len() > 0,
    ensures
        worst(p) is Some,
        exists|i: int| 0 <= i < p.len() && #[trigger] p[i] == worst(p)->0,
        forall|i: int| 0 <= i < p.len() ==> !(worst(p)->0).us.before((#[trigger] p[i]).us),
    decreases p.len(),
{
    let q = p.drop_last();
    let w = worst(p);
    assert(p[p.len() - 1] == p.last());
    double::the_order_is_total(p.last().us, p.last().us, p.last().us);
    if q.len() > 0 {
        lemma_worst(q);
        let v = worst(q)->0;
        let k = choose|k: int| 0 <= k < q.len() && #[trigger] q[k] == v;
        assert(p[k] == q[k]);
        assert forall|i: int| 0 <= i < p.len() implies !(worst(p)->0).us.before(
            (#[trigger] p[i]).us,
        ) by {
            double::the_order_is_total(p.last().us, v.us, p[i].us);
            if i < q.len() {
                assert(q[i] == p[i]);
                assert(!v.us.before(q[i].us));
            }
        }
    }
}

/// A peak is the size of one of the heaps that were reported, and none is larger.
/// Without a report there is none.
pub proof fn a_peak_is_the_largest(p: Seq<PauseView>, f: spec_fn(HeapTriple) -> u64)
    ensures
        (peak_heap(p, f) is None) == (forall|i: int|
            0 <= i < p.len() ==> (#[trigger] p[i]).heap is None),
        peak_heap(p, f) matches Some(n) ==> {
            &&& forall|i: int|
                0 <= i < p.len() ==> ((#[trigger] p[i]).heap matches Some(h) ==> f(h) <= n)
            &&& exists|i: int| 0 <= i < p.len() && ((#[trigger] p[i]).heap matches Some(h) && f(h) == n)
        },
    decreases p.len(),
{
    if p.len() > 0 {
        let q = p.drop_last();
        a_peak_is_the_largest(q, f);
        assert(p[p.len() - 1] == p.last());
        assert(forall|i: int| 0 <= i < q.len() ==> #[trigger] q[i] == p[i]);
        if peak_heap(q, f) is None {
            assert forall|i: int| 0 <= i < q.len() implies (#[trigger] p[i]).heap is None by {
                assert(q[i].heap is None);
            }
        } else {
            let n = peak_heap(q, f)->0;
            let k = choose|i: int|
                0 <= i < q.len() && ((#[trigger] q[i]).heap matches Some(h) && f(h) == n);
            assert(p[k] == q[k]);
            assert(p[k].heap is Some);
            assert forall|i: int| 0 <= i < q.len() implies ((#[trigger] p[i]).heap matches Some(h)
                ==> f(h) <= n) by {
                assert(q[i] == p[i]);
            }
        }
    }
}

/// The three peaks of a summary are of what the pauses say was committed, was
/// occupied before them, and was left after them.
pub proof fn each_peak_is_of_its_own_size(g: GcSummary, p: Seq<PauseView>, i: int, h: HeapTriple)
    requires
        g.of_pauses(p),
        0 <= i < p.len(),
        p[i].heap == Some(h),
    ensures
        g.peak_committed_bytes matches Some(n) && n >= h.capacity_bytes,
        g.peak_occupancy_bytes matches Some(n) && n >= h.before_bytes,
        g.peak_live_bytes matches Some(n) && n >= h.after_bytes,
        exists|j: int|
            0 <= j < p.len() && ((#[trigger] p[j]).heap matches Some(k)
                && g.peak_committed_bytes == Some(k.capacity_bytes)),
        exists|j: int|
            0 <= j < p.len() && ((#[trigger] p[j]).heap matches Some(k)
                && g.peak_occupancy_bytes == Some(k.before_bytes)),
        exists|j: int|
            0 <= j < p.len() && ((#[trigger] p[j]).heap matches Some(k) && g.peak_live_bytes
                == Some(k.after_bytes)),
{
    a_peak_is_the_largest(p, |h: HeapTriple| h.capacity_bytes);
    a_peak_is_the_largest(p, |h: HeapTriple| h.before_bytes);
    a_peak_is_the_largest(p, |h: HeapTriple| h.after_bytes);
}

/// The sum of whole numbers of microseconds.
pub open spec fn whole_sum(us: Seq<nat>) -> nat
    decreases us.len(),
{
    if us.len() == 0 {
        0
    } else {
        whole_sum(us.drop_last()) + us.last()
    }
}

/// The whole microseconds of each value.
spec fn wholes(values: Seq<Double>) -> nat
    decreases values.len(),
{
    if values.len() == 0 {
        0
    } else {
        wholes(values.drop_last()) + values.last().integer()
    }
}

/// Whether a value is a whole number.
spec fn is_whole(x: Double) -> bool {
    x == double::of(x.integer())
}

proof fn lemma_placed_wholes(s: Seq<Double>, x: Double)
    requires
        forall|i: int| 0 <= i < s.len() ==> is_whole(#[trigger] s[i]),
        is_whole(x),
    ensures
        wholes(placed(s, x)) == wholes(s) + x.integer(),
        forall|i: int| 0 <= i < placed(s, x).len() ==> is_whole(#[trigger] placed(s, x)[i]),
    decreases s.len(),
{
    if s.len() == 0 || !x.before(s.last()) {
        assert(s.push(x).drop_last() =~= s);
    } else {
        let t = s.drop_last();
        assert forall|i: int| 0 <= i < t.len() implies is_whole(#[trigger] t[i]) by {
            assert(t[i] == s[i]);
        }
        lemma_placed_wholes(t, x);
        let p = placed(t, x);
        assert(p.push(s.last()).drop_last() =~= p);
        assert(is_whole(s[s.len() - 1]));
    }
}

proof fn lemma_sorted_wholes(s: Seq<Double>)
    requires
        forall|i: int| 0 <= i < s.len() ==> is_whole(#[trigger] s[i]),
    ensures
        wholes(sorted(s)) == wholes(s),
        forall|i: int| 0 <= i < sorted(s).len() ==> is_whole(#[trigger] sorted(s)[i]),
    decreases s.len(),
{
    if s.len() > 0 {
        let t = s.drop_last();
        assert forall|i: int| 0 <= i < t.len() implies is_whole(#[trigger] t[i]) by {
            assert(t[i] == s[i]);
        }
        assert(is_whole(s[s.len() - 1]));
        lemma_sorted_wholes(t);
        lemma_placed_wholes(sorted(t), s.last());
    }
}

proof fn lemma_whole_sums(s: Seq<Double>)
    requires
        forall|i: int| 0 <= i < s.len() ==> is_whole(#[trigger] s[i]),
        wholes(s) < 0x20_0000_0000_0000,
        s.len() > 0,
    ensures
        sum_of(s) == double::of(wholes(s)),
    decreases s.len(),
{
    let t = s.drop_last();
    assert forall|i: int| 0 <= i < t.len() implies is_whole(#[trigger] t[i]) by {
        assert(t[i] == s[i]);
    }
    assert(is_whole(s[s.len() - 1]));
    let n = s.last().integer();
    if t.len() == 0 {
        let m = n;
        double::a_small_integer_is_a_double(m);
        assert(wholes(t) == 0);
        assert(sum_of(t) == Double::zero(true));
        big::lemma_two_small();
        assert(Double::zero(true).magnitude() == 0) by {
            assert(0 * big::two(0) == 0) by (nonlinear_arith);
        }
        let u = double::one_in_units();
        about::lemma_ranges();
        assert((m * u == 0) == (m == 0)) by (nonlinear_arith)
            requires
                u > 0,
        ;
        if m == 0 {
            double::nothing_over_something(false, 1);
            assert(0 * u == 0);
        } else {
            assert(Double::zero(true).plus(double::of(m)) == double::nearest(false, m * u, 1));
        }
    } else {
        lemma_whole_sums(t);
        double::small_counts_add_up_exactly(wholes(t), n);
    }
}

/// The total of pauses of whole microseconds is their sum, in whatever order they
/// happened, and the mean is that sum over how many they were.
pub proof fn the_total_is_the_sum_of_the_pauses(g: GcSummary, p: Seq<PauseView>, us: Seq<nat>)
    requires
        g.of_pauses(p),
        p.len() > 0,
        p.len() <= usize::MAX,
        us.len() == p.len(),
        forall|i: int| 0 <= i < p.len() ==> (#[trigger] p[i]).us == double::of(us[i]),
        whole_sum(us) < 0x20_0000_0000_0000,
    ensures
        g.pauses == p.len(),
        g.total_us == double::of(whole_sum(us)),
        about::is_about(g.mean_us, whole_sum(us), p.len()),
{
    let d = durations(p);
    lemma_same_wholes(d, us);
    lemma_sorted_wholes(d);
    sorting_keeps_the_values(d);
    lemma_whole_sums(sorted(d));
    about::a_ratio_of_counts(whole_sum(us), p.len());
    about::lemma_weaken(g.mean_us, whole_sum(us), p.len(), 6, 32);
}

proof fn lemma_same_wholes(d: Seq<Double>, us: Seq<nat>)
    requires
        us.len() == d.len(),
        forall|i: int| 0 <= i < d.len() ==> #[trigger] d[i] == double::of(us[i]),
        whole_sum(us) < 0x20_0000_0000_0000,
    ensures
        wholes(d) == whole_sum(us),
        forall|i: int| 0 <= i < d.len() ==> is_whole(#[trigger] d[i]),
    decreases d.len(),
{
    if d.len() > 0 {
        let (t, v) = (d.drop_last(), us.drop_last());
        assert forall|i: int| 0 <= i < t.len() implies #[trigger] t[i] == double::of(v[i]) by {
            assert(t[i] == d[i] && v[i] == us[i]);
        }
        lemma_same_wholes(t, v);
        double::a_small_integer_is_a_double(us.last());
        assert(d[d.len() - 1] == double::of(us[us.len() - 1]));
        assert forall|i: int| 0 <= i < d.len() implies is_whole(#[trigger] d[i]) by {
            if i < t.len() {
                assert(is_whole(t[i]));
            }
        }
    }
}

/// A window keeps the pauses that began in it, from its start on and before its
/// end, and no others; without a window every pause is kept.
pub proof fn a_window_keeps_its_pauses(
    pauses: Seq<PauseView>,
    window: Option<(Double, Double)>,
    x: PauseView,
)
    ensures
        chosen(pauses, window).contains(x) == (pauses.contains(x) && match window {
            None => true,
            Some((from, to)) => x.uptime_s matches Some(u) && from.le(u) && u.lt(to),
        }),
        window is None ==> chosen(pauses, window) == pauses,
    decreases pauses.len(),
{
    if pauses.len() > 0 {
        let q = pauses.drop_last();
        a_window_keeps_its_pauses(q, window, x);
        let before = chosen(q, window);
        let last = pauses.last();
        assert(pauses.contains(x) == (q.contains(x) || x == last)) by {
            if q.contains(x) {
                let k = choose|k: int| 0 <= k < q.len() && q[k] == x;
                assert(pauses[k] == x);
            }
            if x == last {
                assert(pauses[pauses.len() - 1] == x);
            }
            if pauses.contains(x) {
                let k = choose|k: int| 0 <= k < pauses.len() && pauses[k] == x;
                if k < q.len() {
                    assert(q[k] == x);
                }
            }
        }
        assert(before.push(last).contains(x) == (before.contains(x) || x == last)) by {
            if before.contains(x) {
                let k = choose|k: int| 0 <= k < before.len() && before[k] == x;
                assert(before.push(last)[k] == x);
            }
            assert(before.push(last)[before.len() as int] == last);
            if before.push(last).contains(x) {
                let k = choose|k: int|
                    0 <= k < before.push(last).len() && before.push(last)[k] == x;
                if k < before.len() {
                    assert(before[k] == x);
                }
            }
        }
        assert(q.push(last) =~= pauses);
    } else {
        assert(chosen(pauses, window) =~= pauses);
    }
}

/// How many pauses go by a name.
pub open spec fn named(pauses: Seq<PauseView>, label: Seq<char>) -> nat
    decreases pauses.len(),
{
    if pauses.len() == 0 {
        0
    } else {
        named(pauses.drop_last(), label) + if pauses.last().label == label {
            1nat
        } else {
            0nat
        }
    }
}

/// Every pause is counted under its own name, and under no other.
pub proof fn each_pause_counts_under_its_name(pauses: Seq<PauseView>, label: Seq<char>)
    requires
        pauses.len() <= usize::MAX,
    ensures
        label_map(pauses).contains_key(label) == (named(pauses, label) > 0),
        named(pauses, label) > 0 ==> label_map(pauses)[label].0 == named(pauses, label),
        named(pauses, label) <= pauses.len(),
    decreases pauses.len(),
{
    if pauses.len() > 0 {
        each_pause_counts_under_its_name(pauses.drop_last(), label);
        each_pause_counts_under_its_name(pauses.drop_last(), pauses.last().label);
    }
}

/// A size is its number times its unit, each unit 1024 times the one before it, as
/// long as a double holds the bytes.
pub proof fn a_size_is_its_number_of_units(n: nat)
    ensures
        n < 0x20_0000_0000_0000 ==> size_of(text::decimal(n).push('B')) == Some(n),
        n * 1024 < 0x20_0000_0000_0000 ==> size_of(text::decimal(n).push('K')) == Some(n * 1024),
        n * 1_048_576 < 0x20_0000_0000_0000 ==> size_of(text::decimal(n).push('M')) == Some(
            n * 1_048_576,
        ),
        n * 1_073_741_824 < 0x20_0000_0000_0000 ==> size_of(text::decimal(n).push('G')) == Some(
            n * 1_073_741_824,
        ),
        n * 1_099_511_627_776 < 0x20_0000_0000_0000 ==> size_of(text::decimal(n).push('T'))
            == Some(n * 1_099_511_627_776),
        size_of(text::decimal(n)) is None,
{
    lemma_size(n, 'B', 1);
    lemma_size(n, 'K', 1024);
    lemma_size(n, 'M', 1_048_576);
    lemma_size(n, 'G', 1_073_741_824);
    lemma_size(n, 'T', 1_099_511_627_776);
    text::a_decimal_is_a_word(n);
    text::a_word_is_kept(text::decimal(n));
    let d = text::decimal(n);
    assert('0' <= d[d.len() - 1] <= '9');
}

proof fn lemma_size(n: nat, c: char, u: nat)
    requires
        unit(c) == Some(u),
        0 < u <= 1_099_511_627_776,
        c == 'B' || c == 'K' || c == 'M' || c == 'G' || c == 'T',
    ensures
        n * u < 0x20_0000_0000_0000 ==> size_of(text::decimal(n).push(c)) == Some(n * u),
{
    let d = text::decimal(n);
    let t = d.push(c);
    text::a_decimal_is_a_word(n);
    assert(t[0] == d[0]);
    assert(!text::is_space(d[0]));
    assert(!text::is_space(c));
    assert(text::trim_start(t) == t);
    assert(t.last() == c);
    assert(text::trim(t) == t);
    assert(t.drop_last() =~= d);
    double::a_decimal_reads_as_its_number(n);
    let p = n * u;
    if p < 0x20_0000_0000_0000 {
        assert(n <= p) by (nonlinear_arith)
            requires
                p == n * u,
                u >= 1,
        ;
        double::a_small_integer_is_a_double(n);
        double::a_small_integer_is_a_double(u);
        let o = double::one_in_units();
        about::lemma_ranges();
        assert((n * o) * (u * o) == o * (p * o)) by (nonlinear_arith)
            requires
                p == n * u,
        ;
        double::an_exact_result_is_kept(false, (n * o) * (u * o), o, p, double::UNIT as nat);
        let x = double::of(n).times(double::of(u));
        assert(x.magnitude() == p * o);
        assert((p * o) / o == p) by (nonlinear_arith)
            requires
                o > 0,
        ;
        assert(Double::zero(false).magnitude() == 0) by {
            assert(0 * big::two(0) == 0) by (nonlinear_arith);
        }
    }
}

/// The heap that a pause reports is read place by place: what was occupied before
/// it, what was left after it, and what was committed.
pub proof fn a_heap_reads_place_by_place(a: nat, b: nat, c: nat)
    requires
        a * 1_048_576 < 0x20_0000_0000_0000,
        b * 1_048_576 < 0x20_0000_0000_0000,
        c * 1_048_576 < 0x20_0000_0000_0000,
    ensures
        ({
            let token = text::decimal(a).push('M') + "->"@ + text::decimal(b).push('M') + "("@
                + text::decimal(c).push('M') + ")"@;
            triple_of(token) == Some(
                HeapTriple {
                    before_bytes: (a * 1_048_576) as u64,
                    after_bytes: (b * 1_048_576) as u64,
                    capacity_bytes: (c * 1_048_576) as u64,
                },
            )
        }),
{
    lemma_plain_size(a);
    lemma_plain_size(b);
    lemma_size(a, 'M', 1_048_576);
    lemma_size(b, 'M', 1_048_576);
    lemma_size(c, 'M', 1_048_576);
    lemma_triple(text::decimal(a).push('M'), text::decimal(b).push('M'), text::decimal(c).push('M'));
}

proof fn lemma_triple(x: Seq<char>, y: Seq<char>, z: Seq<char>)
    requires
        forall|i: int| 0 <= i < x.len() ==> #[trigger] x[i] != '-',
        forall|i: int| 0 <= i < y.len() ==> #[trigger] y[i] != '(',
        size_of(x) is Some,
        size_of(y) is Some,
        size_of(z) is Some,
    ensures
        triple_of(x + "->"@ + y + "("@ + z + ")"@) == Some(
            HeapTriple {
                before_bytes: size_of(x)->0 as u64,
                after_bytes: size_of(y)->0 as u64,
                capacity_bytes: size_of(z)->0 as u64,
            },
        ),
{
    let token = x + "->"@ + y + "("@ + z + ")"@;
    reveal_strlit("->");
    reveal_strlit("(");
    reveal_strlit(")");
    assert("("@ =~= seq!['(']);
    let rest = y + "("@ + z + ")"@;
    let last = z + ")"@;
    assert(token =~= x + "->"@ + rest);
    text::a_cut_at_a_pattern_reads_back(x, "->"@, rest);
    assert(rest =~= y + "("@ + last);
    text::a_cut_at_a_pattern_reads_back(y, "("@, last);
    assert(last.skip(last.len() - 1) =~= ")"@);
    assert(last.take(last.len() - 1) =~= z);
}

proof fn lemma_plain_size(n: nat)
    ensures
        forall|i: int|
            0 <= i < text::decimal(n).push('M').len() ==> #[trigger] text::decimal(n).push('M')[i]
                != '-' && text::decimal(n).push('M')[i] != '(',
{
    text::a_decimal_is_a_word(n);
    let (d, t) = (text::decimal(n), text::decimal(n).push('M'));
    assert forall|i: int| 0 <= i < t.len() implies #[trigger] t[i] != '-' && t[i] != '(' by {
        if i < d.len() {
            assert(t[i] == d[i]);
        }
    }
}

/// A pause is read in microseconds: a thousand for each millisecond at the end of its
/// line. What stands before is its name, and no heap is read where none is written.
pub proof fn a_pause_is_read_in_microseconds(
    label: Seq<Seq<char>>,
    ms: nat,
    gc_id: Option<u64>,
    generation: Option<Seq<char>>,
    uptime_s: Option<Double>,
    raw: Seq<char>,
)
    requires
        ms * 1000 < 0x20_0000_0000_0000,
        label.len() > 0 ==> !text::contains(label.last(), "->"@),
    ensures
        pause_of(
            label.push(text::decimal(ms) + "ms"@),
            gc_id,
            generation,
            uptime_s,
            raw,
        ) == Ok::<Option<PauseView>, Fault>(
            Some(
                PauseView {
                    gc_id,
                    uptime_s,
                    generation,
                    label: text::join(label, " "@),
                    us: double::of(ms * 1000),
                    heap: None,
                },
            ),
        ),
{
    let d = text::decimal(ms);
    let w = d + "ms"@;
    reveal_strlit("ms");
    assert(w.skip(w.len() - 2) =~= "ms"@);
    assert(w.take(w.len() - 2) =~= d);
    double::a_decimal_reads_as_its_number(ms);
    assert(label.push(w).drop_last() =~= label);
    lemma_in_thousandths(ms);
}

proof fn lemma_in_thousandths(ms: nat)
    requires
        ms * 1000 < 0x20_0000_0000_0000,
    ensures
        double::of(ms).times(double::of(1000)) == double::of(ms * 1000),
{
    double::a_small_integer_is_a_double(ms);
    double::a_small_integer_is_a_double(1000);
    let o = double::one_in_units();
    about::lemma_ranges();
    let p = ms * 1000;
    // Both are what is nearest to the same number of units.
    assert((ms * o) * (1000 * o) == (p * o) * o) by (nonlinear_arith)
        requires
            p == ms * 1000,
    ;
    assert(1 * o == o);
    double::a_common_factor_is_no_matter(p * o, 1, o);
}

/// An uptime is read in seconds, from a decoration that ends with its unit.
pub proof fn an_uptime_is_read_in_seconds(a: Seq<char>, b: Seq<char>)
    requires
        double::is_digits(a),
        double::is_digits(b),
        a.len() > 0,
    ensures
        uptime_of(a + seq!['.'] + b + seq!['s']) == Some(
            double::quotient(text::digits_value(a + b, 10), big::ten(b.len())),
        ),
{
    let n = a + seq!['.'] + b;
    let f = n + seq!['s'];
    reveal_strlit("s");
    assert("s"@ =~= seq!['s']);
    reveal_strlit("off");
    reveal_strlit("trace");
    reveal_strlit("debug");
    reveal_strlit("info");
    reveal_strlit("warning");
    reveal_strlit("error");
    assert(f[0] == a[0]);
    assert('0' <= a[0] <= '9');
    assert("off"@[0] == 'o' && "trace"@[0] == 't' && "debug"@[0] == 'd' && "info"@[0] == 'i'
        && "warning"@[0] == 'w' && "error"@[0] == 'e');
    assert(f.skip(f.len() - 1) =~= "s"@);
    assert(f.take(f.len() - 1) =~= n);
    double::a_number_reads_as_what_its_digits_say(a, b);
}

} // verus!
