//! What an arm turns out to be, once it runs: the version it reports, and the
//! caps that its containers run under.

use vstd::prelude::*;
use crate::about;
use vstd::slice::slice_subrange;
use crate::double;
use crate::double::Double;
use crate::driver::Arm;
use crate::entrant;
use crate::entrant::Container;
use crate::infra;
use crate::jvm;
use crate::report::Sut;
use crate::text;

verus! {

// ---------------------------------------------------------------------------
// The reported version
// ---------------------------------------------------------------------------

/// Whether `c` may stand in a version.
pub open spec fn version_char(c: char) -> bool {
    ('0' <= c && c <= '9') || ('a' <= c && c <= 'z') || ('A' <= c && c <= 'Z') || c == '.' || c
        == '-'
}

/// Whether a word reads as a version: it begins with a digit, has a point, and
/// holds letters, digits, points and hyphens only.
pub open spec fn is_version(w: Seq<char>) -> bool {
    &&& w.len() > 0
    &&& '0' <= w[0] && w[0] <= '9'
    &&& w.contains('.')
    &&& forall|i: int| 0 <= i < w.len() ==> version_char(#[trigger] w[i])
}

/// The first of the words that reads as a version.
pub open spec fn first_version(words: Seq<Seq<char>>) -> Option<Seq<char>>
    decreases words.len(),
{
    if words.len() == 0 {
        None
    } else if is_version(words[0]) {
        Some(words[0])
    } else {
        first_version(words.skip(1))
    }
}

/// The commit that a line gives between its first parentheses: seven hexadecimal
/// digits or more.
pub open spec fn commit_in(line: Seq<char>) -> Option<Seq<char>> {
    match text::first(line, "("@) {
        None => None,
        Some(open) => match text::first(line.skip(open), ")"@) {
            None => None,
            Some(close) => {
                let inner = line.subrange(open + 1, open + close);
                if inner.len() >= 7 && text::all_digits(inner, 16) {
                    Some(inner)
                } else {
                    None
                }
            },
        },
    }
}

/// Version, commit and toolchain.
pub type Reported = (Option<Seq<char>>, Option<Seq<char>>, Option<Seq<char>>);

/// What is known after one more line. The first version and the first commit
/// stand; a line that names the toolchain gives nothing else.
pub open spec fn after_line(known: Reported, line: Seq<char>) -> Reported {
    let t = text::trim(line);
    match text::strip_prefix(t, "toolchain:"@) {
        Some(rest) => (known.0, known.1, Some(text::trim(rest))),
        None => (
            if known.0 is Some {
                known.0
            } else {
                first_version(text::words(t))
            },
            if known.1 is Some {
                known.1
            } else {
                commit_in(t)
            },
            known.2,
        ),
    }
}

/// What the lines report.
pub open spec fn reported(lines: Seq<Seq<char>>) -> Reported
    decreases lines.len(),
{
    if lines.len() == 0 {
        (None, None, None)
    } else {
        after_line(reported(lines.drop_last()), lines.last())
    }
}

/// The contents of three optional texts.
pub open spec fn reported_views(
    r: (Option<String>, Option<String>, Option<String>),
) -> Reported {
    (jvm::opt_text(r.0), jvm::opt_text(r.1), jvm::opt_text(r.2))
}

fn reads_as_version(w: &[char]) -> (r: bool)
    ensures
        r == is_version(w@),
{
    if w.len() == 0 || w[0] < '0' || w[0] > '9' {
        return false;
    }
    let mut point: bool = false;
    let mut i: usize = 0;
    while i < w.len()
        invariant
            i <= w.len(),
            point == w@.take(i as int).contains('.'),
            forall|k: int| 0 <= k < i ==> version_char(#[trigger] w@[k]),
        decreases w.len() - i,
    {
        let c: char = w[i];
        proof {
            let before = w@.take(i as int);
            let next = w@.take(i + 1);
            assert(next[i as int] == c);
            if before.contains('.') {
                let k = choose|k: int| 0 <= k < before.len() && before[k] == '.';
                assert(next[k] == '.');
            }
            if next.contains('.') && c != '.' {
                let k = choose|k: int| 0 <= k < next.len() && next[k] == '.';
                assert(before[k] == '.');
            }
        }
        if !(('0' <= c && c <= '9') || ('a' <= c && c <= 'z') || ('A' <= c && c <= 'Z') || c == '.'
            || c == '-') {
            assert(!version_char(w@[i as int]));
            return false;
        }
        if c == '.' {
            point = true;
        }
        i = i + 1;
    }
    assert(w@.take(i as int) =~= w@);
    point
}

fn version_among(words: &Vec<&[char]>) -> (r: Option<String>)
    ensures
        jvm::opt_text(r) == first_version(text::views(words@)),
{
    let ghost all = text::views(words@);
    let mut i: usize = 0;
    assert(all.skip(0) =~= all);
    assert(all.len() == words@.len());
    while i < words.len()
        invariant
            i <= words.len(),
            all == text::views(words@),
            all.len() == words@.len(),
            first_version(all) == first_version(all.skip(i as int)),
        decreases words.len() - i,
    {
        assert(all.skip(i as int).skip(1) =~= all.skip(i + 1));
        assert(all.skip(i as int)[0] == words@[i as int]@);
        if reads_as_version(words[i]) {
            return Some(text::string_of(words[i]));
        }
        i = i + 1;
    }
    None
}

fn hexadecimal(s: &[char]) -> (r: bool)
    ensures
        r == text::all_digits(s@, 16),
{
    let mut i: usize = 0;
    while i < s.len()
        invariant
            i <= s.len(),
            forall|k: int|
                0 <= k < i ==> #[trigger] text::digit(s@[k]) is Some && text::digit(s@[k])->0 < 16,
        decreases s.len() - i,
    {
        let c: char = s[i];
        if !(('0' <= c && c <= '9') || ('a' <= c && c <= 'f') || ('A' <= c && c <= 'F')) {
            assert(text::digit(s@[i as int]) is None || text::digit(s@[i as int])->0 >= 16);
            return false;
        }
        i = i + 1;
    }
    true
}

fn commit_of(line: &[char]) -> (r: Option<String>)
    ensures
        jvm::opt_text(r) == commit_in(line@),
{
    proof {
        reveal_strlit("(");
        reveal_strlit(")");
    }
    let open = match text::find(line, "(") {
        None => {
            return None;
        },
        Some(i) => i,
    };
    let rest = slice_subrange(line, open, line.len());
    assert(rest@ =~= line@.skip(open as int));
    let close = match text::find(rest, ")") {
        None => {
            return None;
        },
        Some(i) => i,
    };
    proof {
        text::lemma_first_from(line@, "("@, 0);
        text::lemma_first_from(rest@, ")"@, 0);
        assert(line@.subrange(open as int, open + 1)[0] == '(');
        assert(rest@.subrange(close as int, close + 1)[0] == ')');
        assert(rest@[0] == '(');
        assert(close > 0);
    }
    let inner = slice_subrange(rest, 1, close);
    assert(inner@ =~= line@.subrange(open + 1, open + close));
    if inner.len() >= 7 && hexadecimal(inner) {
        Some(text::string_of(inner))
    } else {
        None
    }
}

/// Version, commit and toolchain, from what an arm prints of itself: a line with
/// a version and perhaps a commit between parentheses, and perhaps a line that
/// names the toolchain.
pub fn parse_version(out: &str) -> (r: (Option<String>, Option<String>, Option<String>))
    ensures
        reported_views(r) == reported(text::lines(out@)),
{
    let v = text::chars_of(out);
    let lines = text::split_lines(v.as_slice());
    let ghost all = text::views(lines@);
    let mut version: Option<String> = None;
    let mut commit: Option<String> = None;
    let mut toolchain: Option<String> = None;
    let mut i: usize = 0;
    assert(all.len() == lines@.len());
    while i < lines.len()
        invariant
            i <= lines.len(),
            all == text::views(lines@),
            all.len() == lines@.len(),
            reported_views((version, commit, toolchain)) == reported(all.take(i as int)),
        decreases lines.len() - i,
    {
        proof {
            assert(all.take(i + 1).drop_last() =~= all.take(i as int));
            assert(all.take(i + 1).last() == lines@[i as int]@);
        }
        let line = text::trimmed(lines[i]);
        match text::without_prefix(line, "toolchain:") {
            Some(rest) => {
                toolchain = Some(text::string_of(text::trimmed(rest)));
            },
            None => {
                if version.is_none() {
                    version = version_among(&text::split_words(line));
                }
                if commit.is_none() {
                    commit = commit_of(line);
                }
            },
        }
        i = i + 1;
    }
    assert(all.take(i as int) =~= all);
    (version, commit, toolchain)
}

// ---------------------------------------------------------------------------
// Identity
// ---------------------------------------------------------------------------

/// Whether an arm's version is what it prints.
pub open spec fn prints_version(arm: Arm) -> bool {
    match arm.entrant.spec.version {
        Some(v) => v.strategy@ == "command"@ && v.command@.len() > 0,
        None => false,
    }
}

/// The arguments that make an arm print its version.
pub open spec fn version_args(arm: Arm, image: Seq<char>) -> Seq<Seq<char>> {
    let command = text::strings(arm.entrant.spec.version->0.command@);
    seq!["run"@, "--rm"@, "--entrypoint"@, command[0], image] + command.skip(1)
}

/// The arguments that make an arm print its version, where that is how its
/// version is resolved.
pub fn version_argv(arm: &Arm<'_>, image: &str) -> (r: Option<Vec<String>>)
    ensures
        match r {
            Some(v) => prints_version(*arm) && text::strings(v@) == version_args(*arm, image@),
            None => !prints_version(*arm),
        },
{
    let v = match &arm.entrant.spec.version {
        None => {
            return None;
        },
        Some(v) => v,
    };
    if !text::same(v.strategy.as_str(), "command") || v.command.len() == 0 {
        return None;
    }
    let ghost command = text::strings(v.command@);
    assert(command.len() == v.command@.len());
    let mut out = text::owned(["run", "--rm", "--entrypoint"].as_slice());
    text::push_text(&mut out, v.command[0].as_str());
    text::push_text(&mut out, image);
    let ghost head = text::strings(out@);
    assert(head =~= seq!["run"@, "--rm"@, "--entrypoint"@, command[0], image@]);
    let mut i: usize = 1;
    while i < v.command.len()
        invariant
            1 <= i <= v.command.len(),
            command == text::strings(v.command@),
            command.len() == v.command@.len(),
            text::strings(out@) == head + command.subrange(1, i as int),
        decreases v.command.len() - i,
    {
        text::push_text(&mut out, v.command[i].as_str());
        assert(head + command.subrange(1, i + 1) =~= (head + command.subrange(1, i as int)).push(
            command[i as int],
        ));
        i = i + 1;
    }
    assert(command.subrange(1, i as int) =~= command.skip(1));
    Some(out)
}

/// What an arm reports of itself: nothing where its version is not what it
/// prints.
pub open spec fn own_report(arm: Arm, printed: Seq<char>) -> Reported {
    if prints_version(arm) {
        reported(text::lines(printed))
    } else {
        (None, None, None)
    }
}

/// The refusal of an image without a digest.
pub open spec fn no_digest(arm: Arm, image: Seq<char>, why: Seq<char>) -> Seq<char> {
    "cannot read the image digest for "@ + image + ": "@ + why
        + ". The image must be built before it can be measured (`bench build "@
        + arm.entrant.spec.entrant.id@
        + "`), and a run whose digest cannot be read is refused rather than published without one."@
}

/// The refusal of an arm that says neither its version nor its commit.
pub open spec fn anonymous(arm: Arm) -> Seq<char> {
    "REFUSED: could not resolve a version or commit for "@ + arm.entrant.spec.entrant.id@
        + ". Every published number has to say what produced it."@
}

/// Why an arm has no identity to attach a record to, if it has none.
pub open spec fn identity_refusal(
    arm: Arm,
    image: Seq<char>,
    digest: Result<String, String>,
    printed: Result<String, String>,
) -> Option<Seq<char>> {
    match digest {
        Err(e) => Some(no_digest(arm, image, e@)),
        Ok(_) => if prints_version(arm) && printed is Err {
            Some("version command failed for "@ + image + ": "@ + printed->Err_0@)
        } else if own_report(arm, printed->Ok_0@).0 is None && own_report(
            arm,
            printed->Ok_0@,
        ).1 is None {
            Some(anonymous(arm))
        } else {
            None
        },
    }
}

/// What an arm actually is, given the digest of its image and what
/// [`version_argv`] printed.
pub fn resolve_sut(
    arm: &Arm<'_>,
    image: &str,
    digest: &Result<String, String>,
    printed: &Result<String, String>,
) -> (r: Result<Sut, String>)
    ensures
        match r {
            Ok(s) => {
                &&& identity_refusal(*arm, image@, *digest, *printed) is None
                &&& s.entrant@ == arm.entrant.spec.entrant.id@
                &&& s.variant_id@ == arm.variant.id@
                &&& reported_views((s.version, s.commit, s.toolchain)) == own_report(
                    *arm,
                    printed->Ok_0@,
                )
                &&& s.image_digest@ == digest->Ok_0@
                &&& s.image@ == image@
            },
            Err(e) => identity_refusal(*arm, image@, *digest, *printed) == Some(e@),
        },
{
    let digest = match digest {
        Err(e) => {
            let mut m = "cannot read the image digest for ".to_owned();
            m.append(image);
            m.append(": ");
            m.append(e.as_str());
            m.append(". The image must be built before it can be measured (`bench build ");
            m.append(arm.entrant.id());
            m.append(
                "`), and a run whose digest cannot be read is refused rather than published without one.",
            );
            return Err(m);
        },
        Ok(d) => d,
    };
    let prints = match &arm.entrant.spec.version {
        Some(v) => text::same(v.strategy.as_str(), "command") && v.command.len() > 0,
        None => false,
    };
    let (version, commit, toolchain) = if prints {
        match printed {
            Err(e) => {
                let mut m = "version command failed for ".to_owned();
                m.append(image);
                m.append(": ");
                m.append(e.as_str());
                return Err(m);
            },
            Ok(out) => parse_version(out.as_str()),
        }
    } else {
        (None, None, None)
    };
    if version.is_none() && commit.is_none() {
        let mut m = "REFUSED: could not resolve a version or commit for ".to_owned();
        m.append(arm.entrant.id());
        m.append(". Every published number has to say what produced it.");
        return Err(m);
    }
    Ok(
        Sut {
            entrant: arm.entrant.id().to_owned(),
            variant_id: arm.variant.id.as_str().to_owned(),
            version,
            commit,
            image_digest: digest.as_str().to_owned(),
            image: image.to_owned(),
            toolchain,
        },
    )
}

/// The refusal of an image that reports another version than the descriptor.
pub open spec fn moved_version(entrant: Seq<char>, pinned: Seq<char>, found: Seq<char>) -> Seq<
    char,
> {
    "REFUSED: "@ + entrant + " declares version "@ + text::debug_text(pinned)
        + " but the image reports "@ + text::debug_text(found)
        + ". Update the descriptor in the same change that moved the image."@
}

/// Whether a reported version disagrees with the pinned one. A version that is
/// not pinned, or not reported, disagrees with nothing.
pub open spec fn has_moved(pinned: Seq<char>, found: Option<String>) -> bool {
    pinned.len() > 0 && match found {
        Some(f) => f@ != pinned,
        None => false,
    }
}

/// Asserts a pinned version against the reported one.
///
/// A version that cannot be read leaves the arm without an identity; one that
/// disagrees identifies it perfectly well and is a finding about the image, so
/// this refusal is recorded.
pub fn assert_pinned_version(entrant: &str, pinned: &str, found: &Option<String>) -> (r: Result<
    (),
    String,
>)
    ensures
        match r {
            Ok(_) => !has_moved(pinned@, *found),
            Err(e) => has_moved(pinned@, *found) && e@ == moved_version(
                entrant@,
                pinned@,
                found->0@,
            ),
        },
{
    if pinned.unicode_len() == 0 {
        return Ok(());
    }
    match found {
        None => Ok(()),
        Some(f) => {
            if text::same(f.as_str(), pinned) {
                return Ok(());
            }
            let mut m = "REFUSED: ".to_owned();
            m.append(entrant);
            m.append(" declares version ");
            m.append(text::quoted(pinned).as_str());
            m.append(" but the image reports ");
            m.append(text::quoted(f.as_str()).as_str());
            m.append(". Update the descriptor in the same change that moved the image.");
            Err(m)
        },
    }
}

// ---------------------------------------------------------------------------
// Applied caps
// ---------------------------------------------------------------------------

/// What the first of the words that begin with `key` goes on with.
pub open spec fn field(words: Seq<Seq<char>>, key: Seq<char>) -> Option<Seq<char>>
    decreases words.len(),
{
    if words.len() == 0 {
        None
    } else {
        match text::strip_prefix(words[0], key) {
            Some(rest) => Some(rest),
            None => field(words.skip(1), key),
        }
    }
}

/// A number, or zero for what is none.
pub open spec fn or_zero(x: Option<Double>) -> Double {
    match x {
        Some(d) => d,
        None => Double::zero(false),
    }
}

/// The cores of a cap written `quota/period`. None for a container without a
/// cap.
pub open spec fn quota(cpu: Seq<char>) -> Option<Double> {
    let parts = text::split(cpu, "/"@);
    if parts.len() < 2 || parts[0] == "max"@ || or_zero(double::parse(parts[1])).le(
        Double::zero(false),
    ) {
        None
    } else {
        match double::parse(parts[0]) {
            Some(q) => Some(q.over(or_zero(double::parse(parts[1])))),
            None => None,
        }
    }
}

/// Whether the applied processor cap is the declared one, within a hundredth of
/// a core.
pub open spec fn cpus_hold(declared: Seq<char>, cpu: Seq<char>) -> bool {
    match (quota(cpu), double::parse(declared)) {
        (Some(c), Some(d)) => infra::near(c, d),
        _ => false,
    }
}

/// Whether the applied memory cap is the declared one. A declaration that is no
/// size is held by nothing, and neither is any by a container without a cap.
pub open spec fn memory_holds(declared: Seq<char>, mem: Seq<char>) -> bool {
    match (entrant::memory_bytes(declared), text::parse_u64(mem)) {
        (Some(a), Some(b)) => a == b,
        _ => false,
    }
}

/// Why the caps of an arm's container are not the declared ones, if they are not.
pub open spec fn caps_refusal(name: Seq<char>, declared: Container, meta: Seq<char>) -> Option<
    Seq<char>,
> {
    let words = text::words(meta);
    match field(words, "cpu.max="@) {
        None => Some(name + ": sampler reported no cpu.max"@),
        Some(cpu) => match field(words, "memory.max="@) {
            None => Some(name + ": sampler reported no memory.max"@),
            Some(mem) => if !cpus_hold(declared.cpus@, cpu) {
                Some(
                    "REFUSED: "@ + name + " declares cpus="@ + declared.cpus@
                        + " but is running under cpu.max="@ + cpu
                        + ". The envelope is what every published number is described by."@,
                )
            } else if !memory_holds(declared.memory@, mem) {
                Some(
                    "REFUSED: "@ + name + " declares memory="@ + declared.memory@
                        + " but is running under memory.max="@ + mem + "."@,
                )
            } else {
                None
            },
        },
    }
}

fn field_of<'a>(words: &Vec<&'a [char]>, key: &str) -> (r: Option<&'a [char]>)
    ensures
        match r {
            Some(s) => field(text::views(words@), key@) == Some(s@),
            None => field(text::views(words@), key@) is None,
        },
{
    let ghost all = text::views(words@);
    let mut i: usize = 0;
    assert(all.skip(0) =~= all);
    assert(all.len() == words@.len());
    while i < words.len()
        invariant
            i <= words.len(),
            all == text::views(words@),
            all.len() == words@.len(),
            field(all, key@) == field(all.skip(i as int), key@),
        decreases words.len() - i,
    {
        assert(all.skip(i as int).skip(1) =~= all.skip(i + 1));
        assert(all.skip(i as int)[0] == words@[i as int]@);
        if let Some(rest) = text::without_prefix(words[i], key) {
            return Some(rest);
        }
        i = i + 1;
    }
    None
}

fn quota_of(cpu: &[char]) -> (r: Option<Double>)
    ensures
        r == quota(cpu@),
{
    proof {
        reveal_strlit("/");
    }
    let parts = text::fields(cpu, "/");
    assert(text::views(parts@).len() == parts@.len());
    if parts.len() < 2 {
        return None;
    }
    assert(text::views(parts@)[0] == parts@[0]@);
    assert(text::views(parts@)[1] == parts@[1]@);
    if text::spells(parts[0], "max") {
        return None;
    }
    let p: Double = match double::read(parts[1]) {
        Some(p) => p,
        None => Double::nothing(),
    };
    if p.at_most(Double::nothing()) {
        return None;
    }
    match double::read(parts[0]) {
        Some(q) => Some(q.divide(p)),
        None => None,
    }
}

/// Asserts the caps that a container of an arm runs under against the declared
/// ones, given the description that the sampler made of its control group.
pub fn assert_arm_caps(name: &str, declared: &Container, meta: &str) -> (r: Result<(), String>)
    ensures
        match r {
            Ok(_) => caps_refusal(name@, *declared, meta@) is None,
            Err(e) => caps_refusal(name@, *declared, meta@) == Some(e@),
        },
{
    let v = text::chars_of(meta);
    let words = text::split_words(v.as_slice());
    let cpu = match field_of(&words, "cpu.max=") {
        None => {
            let mut m = name.to_owned();
            m.append(": sampler reported no cpu.max");
            return Err(m);
        },
        Some(c) => c,
    };
    let mem = match field_of(&words, "memory.max=") {
        None => {
            let mut m = name.to_owned();
            m.append(": sampler reported no memory.max");
            return Err(m);
        },
        Some(c) => c,
    };
    let want = text::chars_of(declared.cpus.as_str());
    let holds = match (quota_of(cpu), double::read(want.as_slice())) {
        (Some(c), Some(d)) => infra::is_near(c, d),
        _ => false,
    };
    if !holds {
        let mut m = "REFUSED: ".to_owned();
        m.append(name);
        m.append(" declares cpus=");
        m.append(declared.cpus.as_str());
        m.append(" but is running under cpu.max=");
        m.append(text::string_of(cpu).as_str());
        m.append(". The envelope is what every published number is described by.");
        return Err(m);
    }
    let want_bytes = entrant::parse_memory(declared.memory.as_str());
    let bytes = text::to_u64(mem);
    let same = match (want_bytes, bytes) {
        (Some(a), Some(b)) => a == b,
        _ => false,
    };
    if !same {
        let mut m = "REFUSED: ".to_owned();
        m.append(name);
        m.append(" declares memory=");
        m.append(declared.memory.as_str());
        m.append(" but is running under memory.max=");
        m.append(text::string_of(mem).as_str());
        m.append(".");
        return Err(m);
    }
    Ok(())
}

// ---------------------------------------------------------------------------
// Laws
// ---------------------------------------------------------------------------

/// The first version that is reported stands: no later line changes it.
pub proof fn the_first_version_stands(known: Reported, line: Seq<char>)
    requires
        known.0 is Some,
    ensures
        after_line(known, line).0 == known.0,
{
}

/// A container without a processor cap, or without a memory cap, satisfies no
/// declaration.
pub proof fn an_uncapped_arm_is_refused(declared: Container, name: Seq<char>, meta: Seq<char>)
    ensures
        match field(text::words(meta), "cpu.max="@) {
            Some(cpu) => text::split(cpu, "/"@)[0] == "max"@,
            None => true,
        } ==> caps_refusal(name, declared, meta) is Some,
        match field(text::words(meta), "memory.max="@) {
            Some(mem) => text::parse_u64(mem) is None,
            None => true,
        } ==> caps_refusal(name, declared, meta) is Some,
        entrant::memory_bytes(declared.memory@) is None ==> caps_refusal(name, declared, meta)
            is Some,
{
}

/// An arm's container is held to the bytes that it declares: a report of any other
/// number of bytes, larger as well as smaller, is refused, and one of that number
/// is not refused for its memory.
pub proof fn only_the_declared_memory_is_accepted(
    declared: Container,
    name: Seq<char>,
    meta: Seq<char>,
    cpu: Seq<char>,
    mem: Seq<char>,
    wanted: nat,
    applied: nat,
)
    requires
        field(text::words(meta), "cpu.max="@) == Some(cpu),
        field(text::words(meta), "memory.max="@) == Some(mem),
        text::parse_u64(mem) == Some(applied),
        entrant::memory_bytes(declared.memory@) == Some(wanted),
    ensures
        applied != wanted ==> caps_refusal(name, declared, meta) is Some,
        applied == wanted ==> (caps_refusal(name, declared, meta) is None) == cpus_hold(
            declared.cpus@,
            cpu,
        ),
{
}

/// What the sampler says of a control group is read as it is written, and held to
/// the declaration: with a quota over a period and a number of bytes, the caps are
/// accepted where the bytes are the declared bytes and the cores are the declared
/// cores to a hundredth, and refused where either is off.
pub proof fn a_description_is_held_to_the_declaration(
    declared: Container,
    name: Seq<char>,
    quota: nat,
    period: nat,
    cores: nat,
    wanted: nat,
    applied: nat,
)
    requires
        0 < period <= u64::MAX,
        quota <= u64::MAX,
        quota <= 0x4000_0000 * period,
        cores <= 0x4000_0000,
        declared.cpus@ == text::decimal(cores),
        infra::is_limit(declared.memory@, wanted),
        wanted <= u64::MAX,
        applied <= u64::MAX,
    ensures
        ({
            let meta = "cpu.max="@ + text::decimal(quota) + "/"@ + text::decimal(period)
                + " memory.max="@ + text::decimal(applied);
            let refused = caps_refusal(name, declared, meta) is Some;
            &&& applied != wanted ==> refused
            &&& 1000 * quota >= 1000 * (cores * period) + 11 * period || 1000 * (cores * period)
                >= 1000 * quota + 11 * period ==> refused
            &&& applied == wanted && 1000 * quota <= 1000 * (cores * period) + 9 * period && 1000 * (
            cores * period) <= 1000 * quota + 9 * period ==> !refused
        }),
{
    let (a, b, m) = (text::decimal(quota), text::decimal(period), text::decimal(applied));
    let cpu = a + "/"@ + b;
    let meta = "cpu.max="@ + a + "/"@ + b + " memory.max="@ + m;
    reveal_strlit("cpu.max=");
    reveal_strlit("memory.max=");
    reveal_strlit(" memory.max=");
    reveal_strlit("/");
    reveal_strlit("max");
    text::a_decimal_is_a_word(quota);
    text::a_decimal_is_a_word(period);
    text::a_decimal_is_a_word(applied);
    let w1 = "cpu.max="@ + cpu;
    let w2 = "memory.max="@ + m;
    assert(text::is_word(w1)) by {
        assert forall|i: int| 0 <= i < w1.len() implies !text::is_space(#[trigger] w1[i]) by {
            if i < 8 {
                assert(w1[i] == "cpu.max="@[i]);
            } else if i < 8 + a.len() {
                assert(w1[i] == a[i - 8]);
            } else if i == 8 + a.len() {
                assert(w1[i] == '/');
            } else {
                assert(w1[i] == b[i - 9 - a.len()]);
            }
        }
    }
    assert(text::is_word(w2)) by {
        assert forall|i: int| 0 <= i < w2.len() implies !text::is_space(#[trigger] w2[i]) by {
            if i < 11 {
                assert(w2[i] == "memory.max="@[i]);
            } else {
                assert(w2[i] == m[i - 11]);
            }
        }
    }
    let two = seq![w1, w2];
    assert(two.drop_last() =~= seq![w1]);
    reveal_with_fuel(text::join, 2);
    assert(text::join(two, seq![' ']) =~= meta);
    text::words_read_back(two);
    assert(w1.take(8) =~= "cpu.max="@);
    assert(w1.skip(8) =~= cpu);
    assert(w2.take(11) =~= "memory.max="@);
    assert(w2.skip(11) =~= m);
    assert(!text::starts_with(w1, "memory.max="@)) by {
        if text::starts_with(w1, "memory.max="@) {
            assert(w1.take(11)[0] == "memory.max="@[0]);
        }
    }
    assert(two.skip(1) =~= seq![w2]);
    reveal_with_fuel(field, 3);
    assert(field(two, "cpu.max="@) == Some(cpu));
    assert(field(two, "memory.max="@) == Some(m));
    // The quota over the period.
    let parts = seq![a, b];
    assert(parts.drop_last() =~= seq![a]);
    assert("/"@ =~= seq!['/']);
    assert(text::join(parts, seq!['/']) =~= cpu);
    assert forall|i: int, k: int|
        0 <= i < parts.len() && 0 <= k < parts[i].len() implies #[trigger] parts[i][k] != '/' by {
        if i == 0 {
            assert('0' <= a[k] <= '9');
        } else {
            assert('0' <= b[k] <= '9');
        }
    }
    text::pieces_read_back(parts, '/');
    assert('0' <= a[0] <= '9');
    assert(a[0] != "max"@[0]);
    double::a_decimal_reads_as_its_number(quota);
    double::a_decimal_reads_as_its_number(period);
    double::a_decimal_reads_as_its_number(cores);
    about::a_count(period);
    about::lemma_something(double::of(period), period, 1, 1);
    assert(!double::of(period).le(Double::zero(false)));
    about::a_ratio_of_counts(quota, period);
    let x = double::of(quota).over(double::of(period));
    assert(self::quota(cpu) == Some(x));
    infra::cores_are_the_same_to_a_hundredth(x, quota, period, cores);
    infra::a_limit_is_its_bytes(declared.memory@, wanted);
    text::decimal_reads_back(applied);
}

/// Three numbers with points between them.
pub open spec fn dotted(a: nat, b: nat, c: nat) -> Seq<char> {
    text::decimal(a) + seq!['.'] + text::decimal(b) + seq!['.'] + text::decimal(c)
}

proof fn lemma_dotted(a: nat, b: nat, c: nat)
    ensures
        is_version(dotted(a, b, c)),
        text::is_word(dotted(a, b, c)),
        forall|i: int| 0 <= i < dotted(a, b, c).len() ==> #[trigger] dotted(a, b, c)[i] != '(',
{
    let (x, y, z) = (text::decimal(a), text::decimal(b), text::decimal(c));
    text::a_decimal_is_a_word(a);
    text::a_decimal_is_a_word(b);
    text::a_decimal_is_a_word(c);
    let v = dotted(a, b, c);
    let (m, n) = (x.len() as int, y.len() as int);
    assert(v[0] == x[0]);
    assert(v[m] == '.');
    assert forall|i: int| 0 <= i < v.len() implies version_char(#[trigger] v[i]) && v[i] != '('
        && !text::is_space(v[i]) by {
        if i < m {
            assert(v[i] == x[i]);
        } else if i > m && i < m + 1 + n {
            assert(v[i] == y[i - m - 1]);
        } else if i > m + 1 + n {
            assert(v[i] == z[i - m - n - 2]);
        }
    }
}

proof fn lemma_commit(before: Seq<char>, commit: Seq<char>)
    requires
        forall|i: int| 0 <= i < before.len() ==> #[trigger] before[i] != '(',
        commit.len() >= 7,
        forall|i: int|
            0 <= i < commit.len() ==> ('0' <= #[trigger] commit[i] <= '9') || ('a' <= commit[i]
                <= 'f'),
    ensures
        commit_in(before + seq!['('] + commit + seq![')']) == Some(commit),
{
    reveal_strlit("(");
    reveal_strlit(")");
    let line = before + seq!['('] + commit + seq![')'];
    let k = before.len() as int;
    assert("("@ =~= seq!['('] && ")"@ =~= seq![')']);
    assert(line =~= before + "("@ + (commit + seq![')']));
    text::lemma_first_after(before, "("@, commit + seq![')']);
    let rest = line.skip(k);
    let opened = seq!['('] + commit;
    assert(rest =~= opened + ")"@ + Seq::empty());
    assert forall|i: int| 0 <= i < opened.len() implies #[trigger] opened[i] != ')' by {
        if i > 0 {
            assert(opened[i] == commit[i - 1]);
        }
    }
    text::lemma_first_after(opened, ")"@, Seq::empty());
    assert(line.subrange(k + 1, k + opened.len()) =~= commit);
    assert forall|i: int| 0 <= i < commit.len() implies #[trigger] text::digit(commit[i]) is Some
        && text::digit(commit[i])->0 < 16 by {}
}

/// An arm that prints its name, a version of three numbers and a commit between
/// parentheses is known by that version and that commit; what is known of its toolchain
/// stays.
pub proof fn what_an_arm_prints_identifies_it(
    name: Seq<char>,
    a: nat,
    b: nat,
    c: nat,
    commit: Seq<char>,
    toolchain: Option<Seq<char>>,
)
    requires
        text::is_word(name),
        'a' <= name[0] <= 'z',
        forall|i: int| 0 <= i < name.len() ==> #[trigger] name[i] != '(' && name[i] != ':',
        commit.len() >= 7,
        forall|i: int|
            0 <= i < commit.len() ==> ('0' <= #[trigger] commit[i] <= '9') || ('a' <= commit[i]
                <= 'f'),
    ensures
        after_line(
            (None, None, toolchain),
            name + seq![' '] + dotted(a, b, c) + seq![' '] + (seq!['('] + commit + seq![')']),
        ) == (Some(dotted(a, b, c)), Some(commit), toolchain),
{
    reveal_strlit("toolchain:");
    let v = dotted(a, b, c);
    let paren = seq!['('] + commit + seq![')'];
    let line = name + seq![' '] + v + seq![' '] + paren;
    lemma_dotted(a, b, c);
    let ws = seq![name, v, paren];
    assert forall|i: int| 0 <= i < paren.len() implies !text::is_space(#[trigger] paren[i]) by {
        if 0 < i < paren.len() - 1 {
            assert(paren[i] == commit[i - 1]);
        }
    }
    assert forall|i: int| 0 <= i < ws.len() implies text::is_word(#[trigger] ws[i]) by {}
    text::words_read_back(ws);
    assert(ws.drop_last() =~= seq![name, v]);
    assert(seq![name, v].drop_last() =~= seq![name]);
    assert(text::join(seq![name], seq![' ']) == name);
    assert(text::join(seq![name, v], seq![' ']) =~= name + seq![' '] + v);
    assert(text::join(ws, seq![' ']) =~= line);
    assert(line[0] == name[0] && !text::is_space(line[0]));
    assert(line.last() == ')' && !text::is_space(line.last()));
    assert(text::trim(line) == line);
    assert(line[name.len() as int] == ' ');
    assert(!text::starts_with(line, "toolchain:"@)) by {
        if text::starts_with(line, "toolchain:"@) {
            let t = line.take(10);
            if name.len() > 9 {
                assert(t[9] == name[9]);
            } else {
                assert(t[name.len() as int] == ' ');
            }
        }
    }
    assert(ws.skip(1)[0] == v);
    assert(!is_version(ws[0]));
    assert(first_version(ws.skip(1)) == Some(v));
    assert(first_version(ws) == Some(v));
    let before = name + seq![' '] + v + seq![' '];
    assert forall|i: int| 0 <= i < before.len() implies #[trigger] before[i] != '(' by {
        let m = name.len() as int;
        if i < m {
            assert(before[i] == name[i]);
        } else if m < i < m + 1 + v.len() {
            assert(before[i] == v[i - m - 1]);
        }
    }
    lemma_commit(before, commit);
    assert(line =~= before + seq!['('] + commit + seq![')']);
}

/// A line that names the toolchain gives it, and nothing else.
pub proof fn a_toolchain_is_what_its_line_names(known: Reported, name: Seq<char>)
    requires
        text::is_word(name),
    ensures
        after_line(known, "toolchain: "@ + name) == (known.0, known.1, Some(name)),
{
    reveal_strlit("toolchain: ");
    reveal_strlit("toolchain:");
    let line = "toolchain: "@ + name;
    assert(line.last() == name.last() && line[0] == 't');
    assert(text::trim(line) == line);
    assert(line.take(10) =~= "toolchain:"@);
    let rest = line.skip(10);
    assert(rest =~= seq![' '] + name);
    assert(rest.skip(1) =~= name);
    assert(text::is_space(' '));
    assert(!text::is_space(name[0]));
    assert(text::trim_start(name) == name);
    assert(text::trim_start(rest) == name);
    text::a_word_is_kept(name);
}

/// A version is held to its pin and to nothing else: it has moved exactly where one is
/// pinned, one is reported, and the two are not the same.
pub proof fn a_pinned_version_is_the_only_one_accepted(pinned: Seq<char>, found: String)
    ensures
        !has_moved(pinned, None),
        !has_moved(Seq::empty(), Some(found)),
        pinned.len() > 0 ==> (has_moved(pinned, Some(found)) <==> found@ != pinned),
{
}

} // verus!
