//! Text as sequences of characters.
//!
//! Parsers work on `&[char]` slices, so that a line or a field is a subrange of
//! what was read and every contract speaks of the same `Seq<char>`.

use vstd::prelude::*;
use vstd::slice::slice_subrange;

verus! {

/// `String::push` appends the given character to the end of the string.
pub assume_specification[ String::push ](s: &mut String, c: char)
    ensures
        final(s)@ == old(s)@.push(c),
;

/// What `Debug` writes for a string: the string between double quotes, with the
/// characters that do not print escaped.
pub uninterp spec fn debug_text(s: Seq<char>) -> Seq<char>;

/// Calls `format!` with `{:?}`: the text that `Debug` writes for `s`, named by
/// [`debug_text`] because which characters print is a table of Unicode's.
#[verifier::external_body]
pub(crate) fn quoted(s: &str) -> (r: String)
    ensures
        r@ == debug_text(s@),
{
    format!("{:?}", s)
}

// ---------------------------------------------------------------------------
// Between `str` and characters
// ---------------------------------------------------------------------------

/// The characters of `s`, in order.
pub fn chars_of(s: &str) -> (v: Vec<char>)
    ensures
        v@ == s@,
{
    let mut v: Vec<char> = Vec::new();
    for c in it: s.chars()
        invariant
            it.seq() == s@,
            v@ == s@.take(it.index()),
    {
        v.push(c);
    }
    v
}

/// The string that holds the characters of `cs`.
pub fn string_of(cs: &[char]) -> (s: String)
    ensures
        s@ == cs@,
{
    let mut s = String::new();
    let mut i: usize = 0;
    while i < cs.len()
        invariant
            i <= cs.len(),
            s@ == cs@.take(i as int),
        decreases cs.len() - i,
    {
        s.push(cs[i]);
        i = i + 1;
    }
    s
}

/// Whether two slices hold the same characters.
pub fn same_chars(a: &[char], b: &[char]) -> (r: bool)
    ensures
        r == (a@ == b@),
{
    if a.len() != b.len() {
        return false;
    }
    let mut i: usize = 0;
    while i < a.len()
        invariant
            i <= a.len(),
            a.len() == b.len(),
            forall|j: int| 0 <= j < i ==> a@[j] == b@[j],
        decreases a.len() - i,
    {
        if a[i] != b[i] {
            return false;
        }
        i = i + 1;
    }
    assert(a@ =~= b@);
    true
}

/// Whether a slice spells out `s`.
pub fn spells(cs: &[char], s: &str) -> (r: bool)
    ensures
        r == (cs@ == s@),
{
    let v = chars_of(s);
    same_chars(cs, v.as_slice())
}

/// Whether two strings hold the same characters.
pub fn same(a: &str, b: &str) -> (r: bool)
    ensures
        r == (a@ == b@),
{
    let v = chars_of(a);
    spells(v.as_slice(), b)
}

// ---------------------------------------------------------------------------
// Searching and cutting
// ---------------------------------------------------------------------------

/// Whether `pat` stands in `s` at position `i`.
pub open spec fn occurs(s: Seq<char>, pat: Seq<char>, i: int) -> bool {
    &&& 0 <= i
    &&& i + pat.len() <= s.len()
    &&& s.subrange(i, i + pat.len()) == pat
}

/// The first position at or after `from` where `pat` stands in `s`.
pub open spec fn first_from(s: Seq<char>, pat: Seq<char>, from: int) -> Option<int>
    decreases s.len() + 1 - from,
{
    if from < 0 || from + pat.len() > s.len() {
        None
    } else if occurs(s, pat, from) {
        Some(from)
    } else {
        first_from(s, pat, from + 1)
    }
}

/// The first position where `pat` stands in `s`.
pub open spec fn first(s: Seq<char>, pat: Seq<char>) -> Option<int> {
    first_from(s, pat, 0)
}

/// Whether `pat` stands anywhere in `s`.
pub open spec fn contains(s: Seq<char>, pat: Seq<char>) -> bool {
    exists|i: int| occurs(s, pat, i)
}

/// `first_from` is the least position that qualifies.
pub proof fn lemma_first_from(s: Seq<char>, pat: Seq<char>, from: int)
    requires
        0 <= from,
    ensures
        match first_from(s, pat, from) {
            Some(k) => from <= k && occurs(s, pat, k) && forall|j: int|
                from <= j < k ==> !#[trigger] occurs(s, pat, j),
            None => forall|j: int| from <= j ==> !#[trigger] occurs(s, pat, j),
        },
    decreases s.len() + 1 - from,
{
    if from + pat.len() > s.len() {
    } else if occurs(s, pat, from) {
    } else {
        lemma_first_from(s, pat, from + 1);
    }
}

/// `pat` stands somewhere in `s` exactly when there is a first place.
pub proof fn lemma_contains_first(s: Seq<char>, pat: Seq<char>)
    ensures
        contains(s, pat) == (first(s, pat) is Some),
{
    lemma_first_from(s, pat, 0);
    if first(s, pat) is Some {
        assert(occurs(s, pat, first(s, pat)->0));
    }
}

fn occurs_at(s: &[char], pat: &[char], i: usize) -> (r: bool)
    requires
        i <= s@.len(),
    ensures
        r == occurs(s@, pat@, i as int),
{
    if pat.len() > s.len() - i {
        return false;
    }
    let piece = slice_subrange(s, i, i + pat.len());
    same_chars(piece, pat)
}

/// The first position where `pat` stands in `s`.
pub fn find(s: &[char], pat: &str) -> (r: Option<usize>)
    ensures
        match r {
            Some(k) => first(s@, pat@) == Some(k as int) && k + pat@.len() <= s@.len(),
            None => first(s@, pat@) is None,
        },
{
    let p = chars_of(pat);
    let mut i: usize = 0;
    while i <= s.len() && p.len() <= s.len() - i
        invariant
            p@ == pat@,
            i <= s.len() + 1,
            first(s@, pat@) == first_from(s@, pat@, i as int),
        decreases s.len() + 1 - i,
    {
        if occurs_at(s, p.as_slice(), i) {
            return Some(i);
        }
        if i == s.len() {
            assert(first_from(s@, pat@, i + 1) is None);
            return None;
        }
        i = i + 1;
    }
    None
}

/// Whether `pat` stands anywhere in `s`.
pub fn has(s: &[char], pat: &str) -> (r: bool)
    ensures
        r == contains(s@, pat@),
{
    proof {
        lemma_contains_first(s@, pat@);
    }
    find(s, pat).is_some()
}

/// Whether `pat` stands anywhere in the string `s`.
pub fn str_has(s: &str, pat: &str) -> (r: bool)
    ensures
        r == contains(s@, pat@),
{
    let v = chars_of(s);
    has(v.as_slice(), pat)
}

/// What stands before and after the first `pat` in `s`.
pub open spec fn split_once(s: Seq<char>, pat: Seq<char>) -> Option<(Seq<char>, Seq<char>)> {
    match first(s, pat) {
        Some(k) => Some((s.take(k), s.skip(k + pat.len()))),
        None => None,
    }
}

/// What stands before and after the first `pat` in `s`.
pub fn cut_once<'a>(s: &'a [char], pat: &str) -> (r: Option<(&'a [char], &'a [char])>)
    ensures
        match r {
            Some((a, b)) => split_once(s@, pat@) == Some((a@, b@)),
            None => split_once(s@, pat@) is None,
        },
{
    match find(s, pat) {
        Some(k) => {
            let n: usize = pat.unicode_len();
            let len: usize = s.len();
            Some((slice_subrange(s, 0, k), slice_subrange(s, k + n, len)))
        },
        None => None,
    }
}

/// Whether `s` begins with `p`.
pub open spec fn starts_with(s: Seq<char>, p: Seq<char>) -> bool {
    p.len() <= s.len() && s.take(p.len() as int) == p
}

/// Whether `s` ends with `p`.
pub open spec fn ends_with(s: Seq<char>, p: Seq<char>) -> bool {
    p.len() <= s.len() && s.skip(s.len() - p.len()) == p
}

/// What follows the prefix `p` of `s`.
pub open spec fn strip_prefix(s: Seq<char>, p: Seq<char>) -> Option<Seq<char>> {
    if starts_with(s, p) {
        Some(s.skip(p.len() as int))
    } else {
        None
    }
}

/// What precedes the suffix `p` of `s`.
pub open spec fn strip_suffix(s: Seq<char>, p: Seq<char>) -> Option<Seq<char>> {
    if ends_with(s, p) {
        Some(s.take(s.len() - p.len()))
    } else {
        None
    }
}

/// What follows the prefix `p` of `s`.
pub fn without_prefix<'a>(s: &'a [char], p: &str) -> (r: Option<&'a [char]>)
    ensures
        match r {
            Some(t) => strip_prefix(s@, p@) == Some(t@),
            None => strip_prefix(s@, p@) is None,
        },
{
    let v = chars_of(p);
    if v.len() > s.len() {
        return None;
    }
    if same_chars(slice_subrange(s, 0, v.len()), v.as_slice()) {
        Some(slice_subrange(s, v.len(), s.len()))
    } else {
        None
    }
}

/// What precedes the suffix `p` of `s`.
pub fn without_suffix<'a>(s: &'a [char], p: &str) -> (r: Option<&'a [char]>)
    ensures
        match r {
            Some(t) => strip_suffix(s@, p@) == Some(t@),
            None => strip_suffix(s@, p@) is None,
        },
{
    let v = chars_of(p);
    if v.len() > s.len() {
        return None;
    }
    let at: usize = s.len() - v.len();
    if same_chars(slice_subrange(s, at, s.len()), v.as_slice()) {
        Some(slice_subrange(s, 0, at))
    } else {
        None
    }
}

// ---------------------------------------------------------------------------
// White space
// ---------------------------------------------------------------------------

/// The characters with the Unicode property `White_Space`.
pub open spec fn is_space(c: char) -> bool {
    let n = c as u32;
    ||| 0x09 <= n <= 0x0d
    ||| n == 0x20
    ||| n == 0x85
    ||| n == 0xa0
    ||| n == 0x1680
    ||| 0x2000 <= n <= 0x200a
    ||| n == 0x2028
    ||| n == 0x2029
    ||| n == 0x202f
    ||| n == 0x205f
    ||| n == 0x3000
}

fn space(c: char) -> (r: bool)
    ensures
        r == is_space(c),
{
    let n: u32 = c as u32;
    (0x09 <= n && n <= 0x0d) || n == 0x20 || n == 0x85 || n == 0xa0 || n == 0x1680 || (0x2000 <= n
        && n <= 0x200a) || n == 0x2028 || n == 0x2029 || n == 0x202f || n == 0x205f || n == 0x3000
}

/// `s` without the white space at its start.
pub open spec fn trim_start(s: Seq<char>) -> Seq<char>
    decreases s.len(),
{
    if s.len() > 0 && is_space(s[0]) {
        trim_start(s.skip(1))
    } else {
        s
    }
}

/// `s` without the white space at its end.
pub open spec fn trim_end(s: Seq<char>) -> Seq<char>
    decreases s.len(),
{
    if s.len() > 0 && is_space(s.last()) {
        trim_end(s.drop_last())
    } else {
        s
    }
}

/// `s` without the white space at either end.
pub open spec fn trim(s: Seq<char>) -> Seq<char> {
    trim_end(trim_start(s))
}

/// `s` without the white space at its start.
pub fn trimmed_start<'a>(s: &'a [char]) -> (r: &'a [char])
    ensures
        r@ == trim_start(s@),
{
    let mut i: usize = 0;
    assert(s@.skip(0) =~= s@);
    while i < s.len() && space(s[i])
        invariant
            i <= s.len(),
            trim_start(s@) == trim_start(s@.skip(i as int)),
        decreases s.len() - i,
    {
        assert(s@.skip(i as int).skip(1) =~= s@.skip(i + 1));
        i = i + 1;
    }
    slice_subrange(s, i, s.len())
}

/// `s` without the white space at either end.
pub fn trimmed<'a>(s: &'a [char]) -> (r: &'a [char])
    ensures
        r@ == trim(s@),
{
    let t = trimmed_start(s);
    let mut n: usize = t.len();
    assert(t@.take(n as int) =~= t@);
    while n > 0 && space(t[n - 1])
        invariant
            n <= t.len(),
            trim_end(t@) == trim_end(t@.take(n as int)),
        decreases n,
    {
        assert(t@.take(n as int).drop_last() =~= t@.take(n - 1));
        n = n - 1;
    }
    slice_subrange(t, 0, n)
}

// ---------------------------------------------------------------------------
// Fields, words and lines
// ---------------------------------------------------------------------------

/// The character sequences that a vector of slices holds.
pub open spec fn views(v: Seq<&[char]>) -> Seq<Seq<char>> {
    v.map_values(|x: &[char]| x@)
}

/// The pieces of `s` between the occurrences of `pat`, left to right.
pub open spec fn split(s: Seq<char>, pat: Seq<char>) -> Seq<Seq<char>>
    decreases s.len(),
{
    match first(s, pat) {
        Some(k) if pat.len() > 0 && 0 <= k && k + pat.len() <= s.len() => seq![s.take(k)] + split(
            s.skip(k + pat.len()),
            pat,
        ),
        _ => seq![s],
    }
}

/// The pieces of `s` between the occurrences of `pat`, left to right.
pub fn fields<'a>(s: &'a [char], pat: &str) -> (r: Vec<&'a [char]>)
    requires
        pat@.len() > 0,
    ensures
        views(r@) == split(s@, pat@),
        r@.len() > 0,
{
    let mut out: Vec<&'a [char]> = Vec::new();
    let mut rest: &'a [char] = s;
    assert(views(out@) + split(rest@, pat@) =~= split(s@, pat@));
    loop
        invariant_except_break
            views(out@) + split(rest@, pat@) == split(s@, pat@),
        invariant
            pat@.len() > 0,
        ensures
            views(out@) == split(s@, pat@),
            out@.len() > 0,
        decreases rest@.len(),
    {
        match cut_once(rest, pat) {
            Some((head, tail)) => {
                proof {
                    lemma_first_from(rest@, pat@, 0);
                }
                let ghost before = out@;
                out.push(head);
                assert(views(out@) + split(tail@, pat@) =~= views(before) + split(rest@, pat@));
                rest = tail;
            },
            None => {
                let ghost before = out@;
                out.push(rest);
                assert(views(out@) =~= views(before) + split(rest@, pat@));
                break;
            },
        }
    }
    out
}

/// How many characters of `s` precede its first white space.
pub open spec fn word_len(s: Seq<char>) -> nat
    decreases s.len(),
{
    if s.len() == 0 || is_space(s[0]) {
        0
    } else {
        1 + word_len(s.skip(1))
    }
}

proof fn lemma_word_len(s: Seq<char>)
    ensures
        word_len(s) <= s.len(),
        s.len() > 0 && !is_space(s[0]) ==> word_len(s) > 0,
    decreases s.len(),
{
    if s.len() == 0 || is_space(s[0]) {
    } else {
        lemma_word_len(s.skip(1));
    }
}

proof fn lemma_trim_start(s: Seq<char>)
    ensures
        trim_start(s).len() <= s.len(),
        trim_start(s).len() > 0 ==> !is_space(trim_start(s)[0]),
    decreases s.len(),
{
    if s.len() > 0 && is_space(s[0]) {
        lemma_trim_start(s.skip(1));
    }
}

/// The maximal runs of `s` that hold no white space, left to right.
pub open spec fn words(s: Seq<char>) -> Seq<Seq<char>>
    decreases s.len(),
{
    let t = trim_start(s);
    let n = word_len(t) as int;
    if 0 < n <= t.len() <= s.len() {
        seq![t.take(n)] + words(t.skip(n))
    } else {
        Seq::empty()
    }
}

fn word_end(s: &[char]) -> (n: usize)
    ensures
        n == word_len(s@),
        n <= s@.len(),
{
    let mut i: usize = 0;
    assert(s@.skip(0) =~= s@);
    while i < s.len() && !space(s[i])
        invariant
            i <= s.len(),
            word_len(s@) == i + word_len(s@.skip(i as int)),
        decreases s.len() - i,
    {
        assert(s@.skip(i as int).skip(1) =~= s@.skip(i + 1));
        i = i + 1;
    }
    i
}

/// The maximal runs of `s` that hold no white space, left to right.
pub fn split_words<'a>(s: &'a [char]) -> (r: Vec<&'a [char]>)
    ensures
        views(r@) == words(s@),
{
    let mut out: Vec<&'a [char]> = Vec::new();
    let mut rest: &'a [char] = s;
    assert(views(out@) + words(rest@) =~= words(s@));
    loop
        invariant
            views(out@) + words(rest@) == words(s@),
        ensures
            views(out@) == words(s@),
        decreases rest@.len(),
    {
        let t = trimmed_start(rest);
        let n: usize = word_end(t);
        proof {
            lemma_trim_start(rest@);
            lemma_word_len(t@);
        }
        if n == 0 {
            assert(views(out@) + words(rest@) =~= views(out@));
            break;
        }
        let ghost before = out@;
        let tail = slice_subrange(t, n, t.len());
        out.push(slice_subrange(t, 0, n));
        assert(views(out@) + words(tail@) =~= views(before) + words(rest@));
        rest = tail;
    }
    out
}

/// `s` without one carriage return at its end.
pub open spec fn chop_cr(s: Seq<char>) -> Seq<char> {
    if s.len() > 0 && s.last() == '\r' {
        s.drop_last()
    } else {
        s
    }
}

/// The lines of `s`: each ends with a line feed, which a carriage return may
/// precede, and the line feed of the last line may be missing.
pub open spec fn lines(s: Seq<char>) -> Seq<Seq<char>>
    decreases s.len(),
{
    if s.len() == 0 {
        Seq::empty()
    } else {
        match first(s, seq!['\n']) {
            Some(k) if 0 <= k < s.len() => seq![chop_cr(s.take(k))] + lines(s.skip(k + 1)),
            _ => seq![s],
        }
    }
}

/// The lines of `s`.
pub fn split_lines<'a>(s: &'a [char]) -> (r: Vec<&'a [char]>)
    ensures
        views(r@) == lines(s@),
{
    let mut out: Vec<&'a [char]> = Vec::new();
    let mut rest: &'a [char] = s;
    proof {
        reveal_strlit("\n");
        assert("\n"@ =~= seq!['\n']);
    }
    assert(views(out@) + lines(rest@) =~= lines(s@));
    while rest.len() > 0
        invariant_except_break
            "\n"@ == seq!['\n'],
            views(out@) + lines(rest@) == lines(s@),
        ensures
            views(out@) == lines(s@),
        decreases rest@.len(),
    {
        let ghost before = out@;
        match cut_once(rest, "\n") {
            Some((head, tail)) => {
                proof {
                    lemma_first_from(rest@, "\n"@, 0);
                }
                if head.len() > 0 && head[head.len() - 1] == '\r' {
                    out.push(slice_subrange(head, 0, head.len() - 1));
                } else {
                    out.push(head);
                }
                assert(views(out@) + lines(tail@) =~= views(before) + lines(rest@));
                rest = tail;
            },
            None => {
                out.push(rest);
                assert(views(out@) =~= views(before) + lines(rest@));
                break;
            },
        }
    }
    assert(views(out@) + Seq::<Seq<char>>::empty() =~= views(out@));
    out
}

// ---------------------------------------------------------------------------
// Integers
// ---------------------------------------------------------------------------

/// What `c` counts as a digit.
pub open spec fn digit(c: char) -> Option<nat> {
    if '0' <= c && c <= '9' {
        Some((c as u32 - '0' as u32) as nat)
    } else if 'a' <= c && c <= 'z' {
        Some((c as u32 - 'a' as u32 + 10) as nat)
    } else if 'A' <= c && c <= 'Z' {
        Some((c as u32 - 'A' as u32 + 10) as nat)
    } else {
        None
    }
}

/// Whether every character of `s` is a digit in base `radix`.
pub open spec fn all_digits(s: Seq<char>, radix: nat) -> bool {
    forall|i: int|
        0 <= i < s.len() ==> #[trigger] digit(s[i]) is Some && digit(s[i])->0 < radix
}

/// The number that the digits of `s` write in base `radix`.
pub open spec fn digits_value(s: Seq<char>, radix: nat) -> nat
    decreases s.len(),
{
    if s.len() == 0 {
        0
    } else {
        digits_value(s.drop_last(), radix) * radix + digit(s.last())->0
    }
}

/// The number that `s` writes in base `radix`: at least one digit and nothing
/// else. `None` if there is no such number or it exceeds `max`.
pub open spec fn number(s: Seq<char>, radix: nat, max: nat) -> Option<nat> {
    if s.len() == 0 || !all_digits(s, radix) || digits_value(s, radix) > max {
        None
    } else {
        Some(digits_value(s, radix))
    }
}

/// The unsigned integer that `s` writes in base `radix`, with an optional `+`.
pub open spec fn parse_unsigned(s: Seq<char>, radix: nat, max: nat) -> Option<nat> {
    if s.len() > 0 && s[0] == '+' {
        number(s.skip(1), radix, max)
    } else {
        number(s, radix, max)
    }
}

/// The `u64` that `s` writes in decimal.
pub open spec fn parse_u64(s: Seq<char>) -> Option<nat> {
    parse_unsigned(s, 10, u64::MAX as nat)
}

/// The `u32` that `s` writes in decimal.
pub open spec fn parse_u32(s: Seq<char>) -> Option<nat> {
    parse_unsigned(s, 10, u32::MAX as nat)
}

/// The `i64` that `s` writes in decimal, with an optional sign.
pub open spec fn parse_i64(s: Seq<char>) -> Option<int> {
    if s.len() > 0 && s[0] == '-' {
        match number(s.skip(1), 10, 0x8000_0000_0000_0000) {
            Some(n) => Some(-(n as int)),
            None => None,
        }
    } else {
        match parse_unsigned(s, 10, i64::MAX as nat) {
            Some(n) => Some(n as int),
            None => None,
        }
    }
}

proof fn lemma_digits_value_grows(s: Seq<char>, k: int, radix: nat)
    requires
        0 <= k <= s.len(),
        radix >= 1,
    ensures
        digits_value(s.take(k), radix) <= digits_value(s, radix),
    decreases s.len() - k,
{
    if k < s.len() {
        lemma_digits_value_grows(s, k + 1, radix);
        let t = s.take(k + 1);
        assert(t.drop_last() =~= s.take(k));
        let v = digits_value(s.take(k), radix);
        assert(v * radix >= v) by (nonlinear_arith)
            requires
                radix >= 1,
                v >= 0,
        ;
    } else {
        assert(s.take(k) =~= s);
    }
}

fn digit_of(c: char) -> (r: Option<u32>)
    ensures
        match r {
            Some(d) => digit(c) == Some(d as nat) && d < 36,
            None => digit(c) is None,
        },
{
    if '0' <= c && c <= '9' {
        Some(c as u32 - '0' as u32)
    } else if 'a' <= c && c <= 'z' {
        Some(c as u32 - 'a' as u32 + 10)
    } else if 'A' <= c && c <= 'Z' {
        Some(c as u32 - 'A' as u32 + 10)
    } else {
        None
    }
}

/// Whether `s` holds decimal digits only.
pub fn are_digits(s: &[char]) -> (r: bool)
    ensures
        r == all_digits(s@, 10),
{
    let mut i: usize = 0;
    while i < s.len()
        invariant
            i <= s.len(),
            forall|j: int|
                0 <= j < i ==> #[trigger] digit(s@[j]) is Some && digit(s@[j])->0 < 10,
        decreases s.len() - i,
    {
        let c: char = s[i];
        if !('0' <= c && c <= '9') {
            assert(!(digit(s@[i as int]) is Some && digit(s@[i as int])->0 < 10));
            return false;
        }
        i = i + 1;
    }
    true
}

/// The number that `s` writes in base `radix`.
pub fn to_number(s: &[char], radix: u32, max: u64) -> (r: Option<u64>)
    requires
        2 <= radix <= 36,
    ensures
        match r {
            Some(n) => number(s@, radix as nat, max as nat) == Some(n as nat),
            None => number(s@, radix as nat, max as nat) is None,
        },
{
    if s.len() == 0 {
        return None;
    }
    let mut acc: u64 = 0;
    let mut i: usize = 0;
    while i < s.len()
        invariant
            i <= s.len(),
            2 <= radix <= 36,
            acc <= max,
            acc == digits_value(s@.take(i as int), radix as nat),
            all_digits(s@.take(i as int), radix as nat),
        decreases s.len() - i,
    {
        let ghost next = s@.take(i + 1);
        assert(next.drop_last() =~= s@.take(i as int));
        match digit_of(s[i]) {
            Some(d) => {
                if d >= radix {
                    assert(digit(s@[i as int])->0 >= radix);
                    return None;
                }
                assert(acc * radix <= 0xffff_ffff_ffff_ffff * 36) by (nonlinear_arith)
                    requires
                        acc <= 0xffff_ffff_ffff_ffff,
                        radix <= 36,
                ;
                let wide: u128 = acc as u128 * radix as u128 + d as u128;
                if wide > max as u128 {
                    proof {
                        lemma_digits_value_grows(s@, i + 1, radix as nat);
                    }
                    return None;
                }
                assert forall|j: int| 0 <= j < next.len() implies #[trigger] digit(next[j]) is Some
                    && digit(next[j])->0 < radix by {
                    if j < i {
                        assert(next[j] == s@.take(i as int)[j]);
                    }
                }
                acc = wide as u64;
            },
            None => {
                assert(digit(s@[i as int]) is None);
                return None;
            },
        }
        i = i + 1;
    }
    assert(s@.take(s@.len() as int) =~= s@);
    Some(acc)
}

/// The unsigned integer that `s` writes in base `radix`, with an optional `+`.
pub fn to_unsigned(s: &[char], radix: u32, max: u64) -> (r: Option<u64>)
    requires
        2 <= radix <= 36,
    ensures
        match r {
            Some(n) => parse_unsigned(s@, radix as nat, max as nat) == Some(n as nat),
            None => parse_unsigned(s@, radix as nat, max as nat) is None,
        },
{
    if s.len() > 0 && s[0] == '+' {
        to_number(slice_subrange(s, 1, s.len()), radix, max)
    } else {
        to_number(s, radix, max)
    }
}

/// The `u64` that `s` writes in decimal.
pub fn to_u64(s: &[char]) -> (r: Option<u64>)
    ensures
        match r {
            Some(n) => parse_u64(s@) == Some(n as nat),
            None => parse_u64(s@) is None,
        },
{
    to_unsigned(s, 10, u64::MAX)
}

/// Where reading the digits of `s` in base ten first fails: at a character that
/// is no digit, or at a digit that takes the number past `max`.
pub open spec fn first_fault(s: Seq<char>, max: nat, from: int) -> Option<int>
    decreases s.len() - from,
{
    if from < 0 || from >= s.len() {
        None
    } else if !(digit(s[from]) is Some && digit(s[from])->0 < 10) || digits_value(
        s.take(from + 1),
        10,
    ) > max {
        Some(from)
    } else {
        first_fault(s, max, from + 1)
    }
}

/// What the standard library says of a text that is no `u64`.
pub open spec fn u64_fault(s: Seq<char>) -> Seq<char> {
    let body = if s.len() > 1 && s[0] == '+' {
        s.skip(1)
    } else {
        s
    };
    if s.len() == 0 {
        "cannot parse integer from empty string"@
    } else {
        match first_fault(body, u64::MAX as nat, 0) {
            Some(i) if digit(body[i]) is Some && digit(body[i])->0 < 10 => {
                "number too large to fit in target type"@
            },
            _ => "invalid digit found in string"@,
        }
    }
}

/// What the standard library says of a text that is no `u64`.
pub fn u64_error(s: &[char]) -> (r: &'static str)
    ensures
        r@ == u64_fault(s@),
{
    if s.len() == 0 {
        return "cannot parse integer from empty string";
    }
    let body: &[char] = if s.len() > 1 && s[0] == '+' {
        slice_subrange(s, 1, s.len())
    } else {
        s
    };
    assert(s@.len() > 1 && s@[0] == '+' ==> body@ =~= s@.skip(1));
    let mut acc: u64 = 0;
    let mut i: usize = 0;
    assert(body@.take(0) =~= Seq::<char>::empty());
    while i < body.len()
        invariant
            s@.len() > 0,
            body@ == (if s@.len() > 1 && s@[0] == '+' {
                s@.skip(1)
            } else {
                s@
            }),
            i <= body.len(),
            acc == digits_value(body@.take(i as int), 10),
            first_fault(body@, u64::MAX as nat, 0) == first_fault(
                body@,
                u64::MAX as nat,
                i as int,
            ),
        decreases body.len() - i,
    {
        assert(body@.take(i + 1).drop_last() =~= body@.take(i as int));
        let c: char = body[i];
        if !('0' <= c && c <= '9') {
            assert(!(digit(c) is Some && digit(c)->0 < 10));
            return "invalid digit found in string";
        }
        let d: u64 = (c as u32 - 48) as u64;
        assert(digit(c) == Some(d as nat));
        match acc.checked_mul(10) {
            None => {
                return "number too large to fit in target type";
            },
            Some(m) => match m.checked_add(d) {
                None => {
                    return "number too large to fit in target type";
                },
                Some(n) => {
                    acc = n;
                },
            },
        }
        i = i + 1;
    }
    "invalid digit found in string"
}

/// The `u32` that `s` writes in decimal.
pub fn to_u32(s: &[char]) -> (r: Option<u32>)
    ensures
        match r {
            Some(n) => parse_u32(s@) == Some(n as nat),
            None => parse_u32(s@) is None,
        },
{
    match to_unsigned(s, 10, u32::MAX as u64) {
        Some(n) => Some(n as u32),
        None => None,
    }
}

/// The `i64` that `s` writes in decimal, with an optional sign.
pub fn to_i64(s: &[char]) -> (r: Option<i64>)
    ensures
        match r {
            Some(n) => parse_i64(s@) == Some(n as int),
            None => parse_i64(s@) is None,
        },
{
    if s.len() > 0 && s[0] == '-' {
        match to_number(slice_subrange(s, 1, s.len()), 10, 0x8000_0000_0000_0000) {
            Some(n) => {
                if n == 0x8000_0000_0000_0000 {
                    Some(i64::MIN)
                } else {
                    Some(-(n as i64))
                }
            },
            None => None,
        }
    } else {
        match to_unsigned(s, 10, i64::MAX as u64) {
            Some(n) => Some(n as i64),
            None => None,
        }
    }
}

/// The character that writes the decimal digit `d`.
pub open spec fn digit_char(d: nat) -> char {
    ('0' as u32 + d) as char
}

/// `n` in decimal, without leading zeros.
pub open spec fn decimal(n: nat) -> Seq<char>
    decreases n,
{
    if n < 10 {
        seq![digit_char(n)]
    } else {
        decimal(n / 10).push(digit_char(n % 10))
    }
}

/// Appends `n` in decimal.
pub fn push_decimal(out: &mut String, n: u128)
    ensures
        final(out)@ == old(out)@ + decimal(n as nat),
    decreases n,
{
    if n >= 10 {
        push_decimal(out, n / 10);
    }
    let d: u8 = (n % 10) as u8;
    out.push((48u8 + d) as char);
    assert(out@ =~= old(out)@ + decimal(n as nat));
}

/// `n` in decimal, without leading zeros.
pub fn decimal_of(n: u128) -> (s: String)
    ensures
        s@ == decimal(n as nat),
{
    let mut s = String::new();
    push_decimal(&mut s, n);
    assert(s@ =~= decimal(n as nat));
    s
}

/// `n` in decimal, with a sign where it is negative.
pub open spec fn signed_decimal(n: int) -> Seq<char> {
    if n < 0 {
        seq!['-'] + decimal((-n) as nat)
    } else {
        decimal(n as nat)
    }
}

/// Appends `n` in decimal, with a sign where it is negative.
pub fn push_signed(out: &mut String, n: i64)
    ensures
        final(out)@ == old(out)@ + signed_decimal(n as int),
{
    if n < 0 {
        out.push('-');
        push_decimal(out, (-(n as i128)) as u128);
        assert(out@ =~= old(out)@ + signed_decimal(n as int));
    } else {
        push_decimal(out, n as u128);
    }
}

/// Reading back what was written gives the number that was written.
pub proof fn decimal_reads_back(n: nat)
    ensures
        all_digits(decimal(n), 10),
        digits_value(decimal(n), 10) == n,
        decimal(n).len() > 0,
        n <= u64::MAX ==> parse_u64(decimal(n)) == Some(n),
        decimal(n)[0] != '+',
        decimal(n)[0] != '-',
    decreases n,
{
    let s = decimal(n);
    if n < 10 {
        assert(s.drop_last() =~= Seq::empty());
        assert(digits_value(Seq::empty(), 10) == 0);
        assert(digit(s[0]) == Some(n));
    } else {
        decimal_reads_back(n / 10);
        assert(digit(s.last()) == Some(n % 10));
        assert(s.drop_last() =~= decimal(n / 10));
        assert forall|i: int| 0 <= i < s.len() implies #[trigger] digit(s[i]) is Some && digit(s[i])->0
            < 10 by {
            if i < s.len() - 1 {
                assert(s[i] == decimal(n / 10)[i]);
            }
        }
    }
}

// ---------------------------------------------------------------------------
// Lists of strings
// ---------------------------------------------------------------------------

/// The character sequences that a vector of strings holds.
pub open spec fn strings(v: Seq<String>) -> Seq<Seq<char>> {
    v.map_values(|s: String| s@)
}

/// The character sequences that a slice of string slices holds.
pub open spec fn strs(v: Seq<&str>) -> Seq<Seq<char>> {
    v.map_values(|s: &str| s@)
}

/// Appends a copy of `s`.
pub fn push_text(out: &mut Vec<String>, s: &str)
    ensures
        strings(final(out)@) == strings(old(out)@).push(s@),
        final(out)@.len() == old(out)@.len() + 1,
{
    out.push(s.to_owned());
    assert(strings(out@) =~= strings(old(out)@).push(s@));
}

/// Appends `s`.
pub fn push_string(out: &mut Vec<String>, s: String)
    ensures
        strings(final(out)@) == strings(old(out)@).push(s@),
        final(out)@.len() == old(out)@.len() + 1,
{
    out.push(s);
    assert(strings(out@) =~= strings(old(out)@).push(s@));
}

/// Appends every string of `more`.
pub fn push_all(out: &mut Vec<String>, more: Vec<String>)
    ensures
        strings(final(out)@) == strings(old(out)@) + strings(more@),
{
    let mut i: usize = 0;
    while i < more.len()
        invariant
            i <= more.len(),
            strings(out@) == strings(old(out)@) + strings(more@).take(i as int),
        decreases more.len() - i,
    {
        let ghost was = strings(out@);
        push_text(out, more[i].as_str());
        assert(strings(more@).take(i + 1) =~= strings(more@).take(i as int).push(more@[i as int]@));
        assert(strings(out@) =~= strings(old(out)@) + strings(more@).take(i + 1));
        i = i + 1;
    }
    assert(strings(more@).take(i as int) =~= strings(more@));
}

/// Copies of the strings in `v`.
pub fn owned(v: &[&str]) -> (out: Vec<String>)
    ensures
        strings(out@) == strs(v@),
{
    let mut out: Vec<String> = Vec::new();
    let mut i: usize = 0;
    while i < v.len()
        invariant
            i <= v.len(),
            strings(out@) == strs(v@).take(i as int),
        decreases v.len() - i,
    {
        push_text(&mut out, v[i]);
        assert(strs(v@).take(i + 1) =~= strs(v@).take(i as int).push(v@[i as int]@));
        i = i + 1;
    }
    assert(strs(v@).take(v@.len() as int) =~= strs(v@));
    out
}

/// Copies of the strings in `v`.
pub fn copies(v: &[String]) -> (out: Vec<String>)
    ensures
        strings(out@) == strings(v@),
{
    let mut out: Vec<String> = Vec::new();
    let mut i: usize = 0;
    while i < v.len()
        invariant
            i <= v.len(),
            strings(out@) == strings(v@).take(i as int),
        decreases v.len() - i,
    {
        push_text(&mut out, v[i].as_str());
        assert(strings(v@).take(i + 1) =~= strings(v@).take(i as int).push(v@[i as int]@));
        i = i + 1;
    }
    assert(strings(v@).take(v@.len() as int) =~= strings(v@));
    out
}

/// The parts with `sep` between each and the next.
pub open spec fn join(parts: Seq<Seq<char>>, sep: Seq<char>) -> Seq<char>
    decreases parts.len(),
{
    if parts.len() == 0 {
        Seq::empty()
    } else if parts.len() == 1 {
        parts[0]
    } else {
        join(parts.drop_last(), sep) + sep + parts.last()
    }
}

/// The parts with `sep` between each and the next.
pub fn joined(parts: &[String], sep: &str) -> (s: String)
    ensures
        s@ == join(strings(parts@), sep@),
{
    let mut s = String::new();
    let mut i: usize = 0;
    while i < parts.len()
        invariant
            i <= parts.len(),
            s@ == join(strings(parts@).take(i as int), sep@),
        decreases parts.len() - i,
    {
        let ghost next = strings(parts@).take(i + 1);
        assert(next.drop_last() =~= strings(parts@).take(i as int));
        if i > 0 {
            s.append(sep);
        }
        s.append(parts[i].as_str());
        assert(s@ =~= join(next, sep@));
        i = i + 1;
    }
    assert(strings(parts@).take(parts@.len() as int) =~= strings(parts@));
    s
}

/// Where `s` stands in `v`, if it does.
pub open spec fn listed(v: Seq<Seq<char>>, s: Seq<char>) -> bool {
    exists|i: int| 0 <= i < v.len() && v[i] == s
}

/// Whether `s` is among the strings of `v`.
pub fn is_listed(v: &[String], s: &str) -> (r: bool)
    ensures
        r == listed(strings(v@), s@),
{
    let mut i: usize = 0;
    while i < v.len()
        invariant
            i <= v.len(),
            forall|j: int| 0 <= j < i ==> strings(v@)[j] != s@,
        decreases v.len() - i,
    {
        if same(v[i].as_str(), s) {
            assert(strings(v@)[i as int] == s@);
            return true;
        }
        i = i + 1;
    }
    false
}

// ---------------------------------------------------------------------------
// Rewriting
// ---------------------------------------------------------------------------

/// `c` in lower case if it is an ASCII capital, and `c` itself otherwise.
pub open spec fn lower(c: char) -> char {
    if 'A' <= c && c <= 'Z' {
        (c as u32 + 32) as char
    } else {
        c
    }
}

/// `s` with its ASCII capitals in lower case.
pub open spec fn ascii_lower(s: Seq<char>) -> Seq<char> {
    s.map_values(|c: char| lower(c))
}

/// `s` with its ASCII capitals in lower case.
pub fn lowered(s: &[char]) -> (out: Vec<char>)
    ensures
        out@ == ascii_lower(s@),
{
    let mut out: Vec<char> = Vec::new();
    let mut i: usize = 0;
    while i < s.len()
        invariant
            i <= s.len(),
            out@.len() == i,
            forall|j: int| 0 <= j < i ==> out@[j] == lower(s@[j]),
        decreases s.len() - i,
    {
        let c: char = s[i];
        if 'A' <= c && c <= 'Z' {
            out.push((c as u8 + 32) as char);
        } else {
            out.push(c);
        }
        i = i + 1;
    }
    assert(out@ =~= ascii_lower(s@));
    out
}

/// `s` with every occurrence of `pat`, left to right, replaced by `with`.
pub open spec fn replace(s: Seq<char>, pat: Seq<char>, with: Seq<char>) -> Seq<char> {
    join(split(s, pat), with)
}

/// `s` with every occurrence of `pat`, left to right, replaced by `with`.
pub fn replaced(s: &str, pat: &str, with: &str) -> (out: String)
    requires
        pat@.len() > 0,
    ensures
        out@ == replace(s@, pat@, with@),
{
    let v = chars_of(s);
    let parts = fields(v.as_slice(), pat);
    let mut pieces: Vec<String> = Vec::new();
    let mut i: usize = 0;
    while i < parts.len()
        invariant
            i <= parts.len(),
            strings(pieces@) == views(parts@).take(i as int),
        decreases parts.len() - i,
    {
        let piece = string_of(parts[i]);
        push_text(&mut pieces, piece.as_str());
        assert(views(parts@).take(i + 1) =~= views(parts@).take(i as int).push(
            parts@[i as int]@,
        ));
        i = i + 1;
    }
    assert(views(parts@).take(parts@.len() as int) =~= views(parts@));
    joined(pieces.as_slice(), with)
}

// ---------------------------------------------------------------------------
// Laws
// ---------------------------------------------------------------------------

proof fn lemma_join_from_the_front(parts: Seq<Seq<char>>, sep: Seq<char>)
    requires
        parts.len() > 1,
    ensures
        join(parts, sep) == parts[0] + sep + join(parts.skip(1), sep),
    decreases parts.len(),
{
    let less = parts.drop_last();
    if parts.len() == 2 {
        assert(parts.skip(1).len() == 1);
        assert(join(less, sep) == parts[0]);
        assert(join(parts.skip(1), sep) == parts[1]);
        assert(join(parts, sep) =~= parts[0] + sep + join(parts.skip(1), sep));
    } else {
        lemma_join_from_the_front(less, sep);
        assert(less.skip(1) =~= parts.skip(1).drop_last());
        assert(parts.skip(1).last() == parts.last());
        assert(join(parts, sep) =~= parts[0] + sep + join(parts.skip(1), sep));
    }
}

proof fn lemma_first_char(s: Seq<char>, c: char, k: int)
    requires
        0 <= k < s.len(),
        s[k] == c,
        forall|i: int| 0 <= i < k ==> s[i] != c,
    ensures
        first(s, seq![c]) == Some(k),
{
    lemma_first_from(s, seq![c], 0);
    assert(s.subrange(k, k + 1) =~= seq![c]);
    assert(occurs(s, seq![c], k));
    match first(s, seq![c]) {
        Some(j) => {
            assert(s.subrange(j, j + 1)[0] == c);
            assert(s[j] == c);
        },
        None => {},
    }
}

proof fn lemma_no_char(s: Seq<char>, c: char)
    requires
        forall|i: int| 0 <= i < s.len() ==> s[i] != c,
    ensures
        first(s, seq![c]) is None,
{
    lemma_first_from(s, seq![c], 0);
    match first(s, seq![c]) {
        Some(j) => {
            assert(s.subrange(j, j + 1)[0] == c);
        },
        None => {},
    }
}

/// What was put together with one character between its parts comes apart into
/// them again, as long as none of them holds that character.
pub proof fn pieces_read_back(parts: Seq<Seq<char>>, c: char)
    requires
        parts.len() > 0,
        forall|i: int, k: int|
            0 <= i < parts.len() && 0 <= k < parts[i].len() ==> #[trigger] parts[i][k] != c,
    ensures
        split(join(parts, seq![c]), seq![c]) == parts,
    decreases parts.len(),
{
    let sep = seq![c];
    let s = join(parts, sep);
    if parts.len() == 1 {
        assert(s == parts[0]);
        lemma_no_char(s, c);
        assert(seq![s] =~= parts);
    } else {
        let rest = parts.skip(1);
        lemma_join_from_the_front(parts, sep);
        assert forall|i: int, k: int|
            0 <= i < rest.len() && 0 <= k < rest[i].len() implies #[trigger] rest[i][k] != c by {
            assert(parts[i + 1][k] != c);
        }
        pieces_read_back(rest, c);
        let k = parts[0].len() as int;
        assert forall|i: int| 0 <= i < k implies s[i] != c by {
            assert(s[i] == parts[0][i]);
        }
        lemma_first_char(s, c, k);
        assert(s.take(k) =~= parts[0]);
        assert(s.skip(k + 1) =~= join(rest, sep));
        assert(seq![parts[0]] + rest =~= parts);
    }
}

/// What stands before and behind a character comes apart at its first occurrence.
pub proof fn a_cut_reads_back(a: Seq<char>, c: char, rest: Seq<char>)
    requires
        forall|i: int| 0 <= i < a.len() ==> #[trigger] a[i] != c,
    ensures
        split_once(a + seq![c] + rest, seq![c]) == Some((a, rest)),
{
    let s = a + seq![c] + rest;
    let k = a.len() as int;
    assert(s[k] == c);
    assert forall|i: int| 0 <= i < k implies s[i] != c by {
        assert(s[i] == a[i]);
    }
    lemma_first_char(s, c, k);
    assert(s.take(k) =~= a);
    assert(s.skip(k + 1) =~= rest);
}

proof fn lemma_begins(s: Seq<char>, pat: Seq<char>, j: int)
    requires
        occurs(s, pat, j),
        pat.len() > 0,
    ensures
        0 <= j < s.len(),
        s[j] == pat[0],
{
    assert(s.subrange(j, j + pat.len())[0] == s[j]);
}

proof fn lemma_first_is(s: Seq<char>, pat: Seq<char>, k: int)
    requires
        occurs(s, pat, k),
        forall|j: int| 0 <= j < k ==> !#[trigger] occurs(s, pat, j),
    ensures
        first(s, pat) == Some(k),
{
    lemma_first_from(s, pat, 0);
    let found = first_from(s, pat, 0);
    if found is None {
        assert(!occurs(s, pat, k));
    } else if found->0 > k {
        assert(!occurs(s, pat, k));
    } else if found->0 < k {
        assert(!occurs(s, pat, found->0));
    }
}

/// A pattern is found behind what its first character does not stand in.
pub proof fn lemma_first_after(a: Seq<char>, pat: Seq<char>, rest: Seq<char>)
    requires
        pat.len() > 0,
        forall|i: int| 0 <= i < a.len() ==> #[trigger] a[i] != pat[0],
    ensures
        first(a + pat + rest, pat) == Some(a.len() as int),
{
    let s = a + pat + rest;
    let k = a.len() as int;
    assert(occurs(s, pat, k)) by {
        assert(s.subrange(k, k + pat.len()) =~= pat);
    }
    assert forall|j: int| 0 <= j < k implies !#[trigger] occurs(s, pat, j) by {
        if occurs(s, pat, j) {
            lemma_begins(s, pat, j);
            assert(s[j] == a[j]);
        }
    }
    lemma_first_is(s, pat, k);
}

/// A pattern is not found where its first character does not stand.
pub proof fn lemma_nowhere(a: Seq<char>, pat: Seq<char>)
    requires
        pat.len() > 0,
        forall|i: int| 0 <= i < a.len() ==> #[trigger] a[i] != pat[0],
    ensures
        first(a, pat) is None,
{
    lemma_first_from(a, pat, 0);
    match first(a, pat) {
        Some(j) => {
            assert(a.subrange(j, j + pat.len())[0] == a[j]);
        },
        None => {},
    }
}

/// What stands before and behind a pattern comes apart at it, where its first
/// character does not stand before it.
pub proof fn a_cut_at_a_pattern_reads_back(a: Seq<char>, pat: Seq<char>, rest: Seq<char>)
    requires
        pat.len() > 0,
        forall|i: int| 0 <= i < a.len() ==> #[trigger] a[i] != pat[0],
    ensures
        split_once(a + pat + rest, pat) == Some((a, rest)),
{
    let s = a + pat + rest;
    let k = a.len() as int;
    lemma_first_after(a, pat, rest);
    assert(s.take(k) =~= a);
    assert(s.skip(k + pat.len()) =~= rest);
}

/// What was put between two texts stands in the whole.
pub proof fn what_is_put_in_is_contained(a: Seq<char>, p: Seq<char>, b: Seq<char>)
    ensures
        contains(a + p + b, p),
{
    let s = a + p + b;
    let i = a.len() as int;
    assert(s.subrange(i, i + p.len()) =~= p);
    assert(occurs(s, p, i));
}

/// Whether a text is a word: it is not empty, and nothing in it is white space.
pub open spec fn is_word(w: Seq<char>) -> bool {
    w.len() > 0 && forall|i: int| 0 <= i < w.len() ==> !is_space(#[trigger] w[i])
}

proof fn lemma_word_len_of(w: Seq<char>, rest: Seq<char>)
    requires
        forall|i: int| 0 <= i < w.len() ==> !is_space(#[trigger] w[i]),
        rest.len() == 0 || is_space(rest[0]),
    ensures
        word_len(w + rest) == w.len(),
    decreases w.len(),
{
    if w.len() == 0 {
        assert(w + rest =~= rest);
    } else {
        assert((w + rest)[0] == w[0]);
        assert((w + rest).skip(1) =~= w.skip(1) + rest);
        assert forall|i: int| 0 <= i < w.skip(1).len() implies !is_space(
            #[trigger] w.skip(1)[i],
        ) by {
            assert(w.skip(1)[i] == w[i + 1]);
        }
        lemma_word_len_of(w.skip(1), rest);
    }
}

proof fn lemma_leading_space(s: Seq<char>)
    ensures
        words(seq![' '] + s) == words(s),
{
    let t = seq![' '] + s;
    assert(t.skip(1) =~= s);
    assert(trim_start(t) == trim_start(s));
    lemma_trim_start(s);
    lemma_word_len(trim_start(s));
}

/// Words that were put together with a space between them are the words of the
/// whole.
pub proof fn words_read_back(ws: Seq<Seq<char>>)
    requires
        forall|i: int| 0 <= i < ws.len() ==> is_word(#[trigger] ws[i]),
    ensures
        words(join(ws, seq![' '])) == ws,
    decreases ws.len(),
{
    let s = join(ws, seq![' ']);
    if ws.len() == 0 {
        assert(s =~= Seq::empty());
        assert(words(s) =~= ws);
    } else {
        let w = ws[0];
        assert(is_word(w));
        let rest = ws.skip(1);
        assert forall|i: int| 0 <= i < rest.len() implies is_word(#[trigger] rest[i]) by {
            assert(rest[i] == ws[i + 1]);
        }
        words_read_back(rest);
        let tail = if ws.len() == 1 {
            Seq::<char>::empty()
        } else {
            seq![' '] + join(rest, seq![' '])
        };
        if ws.len() == 1 {
            assert(s =~= w + tail);
            assert(rest =~= Seq::empty());
            assert(words(tail) =~= rest);
        } else {
            lemma_join_from_the_front(ws, seq![' ']);
            assert(s =~= w + tail);
            lemma_leading_space(join(rest, seq![' ']));
        }
        lemma_word_len_of(w, tail);
        assert(s[0] == w[0]);
        assert(!is_space(s[0]));
        assert(trim_start(s) == s);
        assert(s.take(w.len() as int) =~= w);
        assert(s.skip(w.len() as int) =~= tail);
        assert(seq![w] + rest =~= ws);
    }
}

/// Lines that were put together with a line feed between them are the lines of the
/// whole, as long as none holds a line feed or ends with a carriage return, and the
/// last is not empty.
pub proof fn lines_read_back(ls: Seq<Seq<char>>)
    requires
        ls.len() > 0 ==> ls.last().len() > 0,
        forall|i: int, k: int|
            0 <= i < ls.len() && 0 <= k < ls[i].len() ==> #[trigger] ls[i][k] != '\n',
        forall|i: int|
            0 <= i < ls.len() ==> (#[trigger] ls[i]).len() == 0 || ls[i].last() != '\r',
    ensures
        lines(join(ls, seq!['\n'])) == ls,
    decreases ls.len(),
{
    let sep = seq!['\n'];
    let s = join(ls, sep);
    if ls.len() == 0 {
        assert(lines(s) =~= ls);
    } else if ls.len() == 1 {
        assert(s == ls[0]);
        lemma_no_char(s, '\n');
        assert(seq![s] =~= ls);
    } else {
        let rest = ls.skip(1);
        lemma_join_from_the_front(ls, sep);
        assert forall|i: int, k: int|
            0 <= i < rest.len() && 0 <= k < rest[i].len() implies #[trigger] rest[i][k] != '\n' by {
            assert(ls[i + 1][k] != '\n');
        }
        assert forall|i: int| 0 <= i < rest.len() implies (#[trigger] rest[i]).len() == 0
            || rest[i].last() != '\r' by {
            assert(rest[i] == ls[i + 1]);
        }
        assert(rest.last() == ls.last());
        lines_read_back(rest);
        let k = ls[0].len() as int;
        assert forall|i: int| 0 <= i < k implies s[i] != '\n' by {
            assert(s[i] == ls[0][i]);
        }
        lemma_first_char(s, '\n', k);
        assert(s.take(k) =~= ls[0]);
        assert(s.skip(k + 1) =~= join(rest, sep));
        assert(seq![ls[0]] + rest =~= ls);
    }
}

/// Trimming takes white space off both ends and nothing else: what is left begins
/// and ends with something else, and what was taken off was white space.
pub proof fn trimming_takes_off_white_space_alone(s: Seq<char>) -> (cut: (int, int))
    ensures
        0 <= cut.0 <= cut.1 <= s.len(),
        trim(s) == s.subrange(cut.0, cut.1),
        forall|i: int| 0 <= i < cut.0 || cut.1 <= i < s.len() ==> is_space(#[trigger] s[i]),
        trim(s).len() > 0 ==> !is_space(trim(s)[0]) && !is_space(trim(s).last()),
{
    let a = lemma_trim_front(s);
    let t = trim_start(s);
    let b = lemma_trim_back(t);
    assert(trim(s) =~= s.subrange(a, a + b));
    assert forall|i: int| 0 <= i < a || a + b <= i < s.len() implies is_space(#[trigger] s[i]) by {
        if i >= a + b {
            assert(t[i - a] == s[i]);
            assert(is_space(t[i - a]));
        }
    }
    lemma_trim_start(s);
    (a, a + b)
}

proof fn lemma_trim_front(s: Seq<char>) -> (a: int)
    ensures
        0 <= a <= s.len(),
        trim_start(s) == s.skip(a),
        forall|i: int| 0 <= i < a ==> is_space(#[trigger] s[i]),
    decreases s.len(),
{
    if s.len() > 0 && is_space(s[0]) {
        let a = lemma_trim_front(s.skip(1));
        assert(s.skip(1).skip(a) =~= s.skip(a + 1));
        assert forall|i: int| 0 <= i < a + 1 implies is_space(#[trigger] s[i]) by {
            if i > 0 {
                assert(s.skip(1)[i - 1] == s[i]);
                assert(is_space(s.skip(1)[i - 1]));
            }
        }
        a + 1
    } else {
        assert(s.skip(0) =~= s);
        0
    }
}

proof fn lemma_trim_back(s: Seq<char>) -> (b: int)
    ensures
        0 <= b <= s.len(),
        trim_end(s) == s.take(b),
        forall|i: int| b <= i < s.len() ==> is_space(#[trigger] s[i]),
        b > 0 ==> !is_space(s[b - 1]),
    decreases s.len(),
{
    if s.len() > 0 && is_space(s.last()) {
        let t = s.drop_last();
        let b = lemma_trim_back(t);
        assert(t.take(b) =~= s.take(b));
        assert forall|i: int| b <= i < s.len() implies is_space(#[trigger] s[i]) by {
            if i < t.len() {
                assert(is_space(t[i]));
            }
        }
        b
    } else {
        assert(s.take(s.len() as int) =~= s);
        s.len() as int
    }
}

/// A word is not changed by trimming it.
pub proof fn a_word_is_kept(w: Seq<char>)
    requires
        is_word(w),
    ensures
        trim(w) == w,
{
    assert(!is_space(w[0]) && !is_space(w[w.len() - 1]));
}

/// A number in decimal is a word of digits.
pub proof fn a_decimal_is_a_word(n: nat)
    ensures
        is_word(decimal(n)),
        forall|i: int| 0 <= i < decimal(n).len() ==> '0' <= #[trigger] decimal(n)[i] <= '9',
{
    decimal_reads_back(n);
    let d = decimal(n);
    assert forall|i: int| 0 <= i < d.len() implies '0' <= #[trigger] d[i] <= '9' && !is_space(
        d[i],
    ) by {
        assert(digit(d[i]) is Some && digit(d[i])->0 < 10);
    }
}

/// A signed number that was written in decimal reads back.
pub proof fn a_signed_decimal_reads_back(n: i64)
    ensures
        parse_i64(signed_decimal(n as int)) == Some(n as int),
{
    if n < 0 {
        let m = (-(n as int)) as nat;
        decimal_reads_back(m);
        let s = signed_decimal(n as int);
        assert(s[0] == '-');
        assert(s.skip(1) =~= decimal(m));
    } else {
        decimal_reads_back(n as nat);
    }
}

} // verus!
