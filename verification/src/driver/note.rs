//! What a record says of itself in prose.

use vstd::prelude::*;
use vstd::slice::slice_subrange;
use crate::environment::HEADROOM_LIMIT;
use crate::text;

verus! {

/// Stands between the reason of a refusal and the logs of the arm.
pub const LOG_SEPARATOR: &'static str = "\nLogs:\n";

/// The longest reason that a note carries, in characters.
pub const NOTE_MAX_CHARS: usize = 400;

/// A refusal with the arm's logs.
pub open spec fn logged(reason: Seq<char>, logs: Seq<char>) -> Seq<char> {
    reason + LOG_SEPARATOR@ + logs
}

/// Joins a refusal to the arm's logs.
pub fn with_logs(reason: &str, logs: &str) -> (s: String)
    ensures
        s@ == logged(reason@, logs@),
{
    let mut s = reason.to_owned();
    s.append(LOG_SEPARATOR);
    s.append(logs);
    s
}

/// The reason of a refusal, without the logs.
pub open spec fn reason_of(refusal: Seq<char>) -> Seq<char> {
    text::trim(
        match text::first(refusal, LOG_SEPARATOR@) {
            Some(i) => refusal.take(i),
            None => refusal,
        },
    )
}

/// The part of a refusal that belongs in a record: its reason, cut where it is
/// too long.
pub open spec fn note_of(refusal: Seq<char>) -> Seq<char> {
    let reason = reason_of(refusal);
    if reason.len() <= NOTE_MAX_CHARS {
        reason
    } else {
        reason.take(NOTE_MAX_CHARS as int) + "…"@
    }
}

/// The part of a refusal that belongs in a record. The logs are for the person
/// who watches the run; beside a published gap they would be a wall rather than
/// a finding.
pub fn note_for(refusal: &str) -> (s: String)
    ensures
        s@ == note_of(refusal@),
{
    let v = text::chars_of(refusal);
    let all = v.as_slice();
    let head = match text::find(all, LOG_SEPARATOR) {
        Some(i) => {
            proof {
                text::lemma_first_from(all@, LOG_SEPARATOR@, 0);
            }
            let h = slice_subrange(all, 0, i);
            assert(h@ =~= all@.take(i as int));
            h
        },
        None => all,
    };
    let reason = text::trimmed(head);
    if reason.len() <= NOTE_MAX_CHARS {
        return text::string_of(reason);
    }
    let cut = slice_subrange(reason, 0, NOTE_MAX_CHARS);
    assert(cut@ =~= reason@.take(NOTE_MAX_CHARS as int));
    let mut s = text::string_of(cut);
    s.append("…");
    s
}

/// What is said of a record that outran a ceiling.
pub open spec fn infra_bound_words() -> Seq<char> {
    "INFRA-BOUND: above "@ + text::decimal(HEADROOM_LIMIT as nat)
        + "% of a measured ceiling, so this number describes the shared infrastructure rather than the system"@
}

/// What is said of a record that outran a ceiling, in the note and to the person
/// who watches the run alike.
pub fn infra_bound_notice() -> (s: String)
    ensures
        s@ == infra_bound_words(),
{
    let mut s = "INFRA-BOUND: above ".to_owned();
    text::push_decimal(&mut s, HEADROOM_LIMIT as u128);
    s.append(
        "% of a measured ceiling, so this number describes the shared infrastructure rather than the system",
    );
    s
}

// ---------------------------------------------------------------------------
// Laws
// ---------------------------------------------------------------------------

/// An occurrence that begins early enough does not see what follows.
proof fn lemma_first_ends_early(s: Seq<char>, more: Seq<char>, pat: Seq<char>, from: int)
    requires
        0 <= from,
        text::first_from(s, pat, from) is Some,
    ensures
        text::first_from(s + more, pat, from) == text::first_from(s, pat, from),
    decreases s.len() - from,
{
    text::lemma_first_from(s, pat, from);
    text::lemma_first_from(s + more, pat, from);
    let i = text::first_from(s, pat, from)->0;
    assert((s + more).subrange(i, i + pat.len()) =~= s.subrange(i, i + pat.len()));
    assert(text::occurs(s + more, pat, i));
    let j = text::first_from(s + more, pat, from)->0;
    if j < i {
        assert((s + more).subrange(j, j + pat.len()) =~= s.subrange(j, j + pat.len()));
        assert(text::occurs(s, pat, j));
    }
}

/// The logs of an arm never reach a note: two refusals for one reason carry the
/// same note, whatever the containers wrote.
pub proof fn the_logs_never_reach_a_note(reason: Seq<char>, a: Seq<char>, b: Seq<char>)
    ensures
        note_of(logged(reason, a)) == note_of(logged(reason, b)),
{
    let sep = LOG_SEPARATOR@;
    let s = reason + sep;
    text::lemma_first_from(s, sep, 0);
    assert(s.subrange(reason.len() as int, (reason.len() + sep.len()) as int) =~= sep);
    assert(text::occurs(s, sep, reason.len() as int));
    lemma_first_ends_early(s, a, sep, 0);
    lemma_first_ends_early(s, b, sep, 0);
    let i = text::first(s, sep)->0;
    text::lemma_first_from(s, sep, 0);
    assert((s + a).take(i) =~= s.take(i));
    assert((s + b).take(i) =~= s.take(i));
}

/// A note is never longer than the cut allows.
pub proof fn a_note_is_short(refusal: Seq<char>)
    ensures
        note_of(refusal).len() <= NOTE_MAX_CHARS + 1,
{
    reveal_strlit("…");
}

} // verus!
