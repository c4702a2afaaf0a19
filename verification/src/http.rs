//! Minimal HTTP/1.1: the text of a request, and the body of a response.
//!
//! Every request asks the server to close the connection, so a response ends
//! where the stream does and there is no keep-alive framing to get wrong.

use vstd::prelude::*;
use vstd::slice::slice_subrange;
use crate::text;

verus! {

// ---------------------------------------------------------------------------
// Responses
// ---------------------------------------------------------------------------

/// How many bytes UTF-8 takes for `c`.
pub open spec fn width(c: char) -> nat {
    vstd::utf8::encode_scalar(c as u32).len()
}

fn width_of(c: char) -> (n: usize)
    ensures
        n == width(c),
        1 <= n <= 4,
{
    let u: u32 = c as u32;
    if u <= 0x7f {
        1
    } else if u <= 0x7ff {
        2
    } else if u <= 0xffff {
        3
    } else {
        4
    }
}

/// How many characters of `s`, from the first on, take exactly `n` bytes.
pub open spec fn chars_in(s: Seq<char>, n: int) -> Option<int>
    decreases s.len(),
{
    if n == 0 {
        Some(0)
    } else if n < 0 || s.len() == 0 {
        None
    } else {
        match chars_in(s.skip(1), n - width(s[0])) {
            Some(k) => Some(k + 1),
            None => None,
        }
    }
}

/// The first `n` bytes of `s`, if they are whole characters.
pub open spec fn first_bytes(s: Seq<char>, n: int) -> Option<Seq<char>> {
    match chars_in(s, n) {
        Some(k) => Some(s.take(k)),
        None => None,
    }
}

/// What follows the first `n` bytes of `s`, if those are whole characters.
pub open spec fn after_bytes(s: Seq<char>, n: int) -> Option<Seq<char>> {
    match chars_in(s, n) {
        Some(k) => Some(s.skip(k)),
        None => None,
    }
}

/// The size that a chunk's header line announces; what is not a hexadecimal
/// number announces nothing.
pub open spec fn chunk_size(line: Seq<char>) -> nat {
    match text::parse_unsigned(text::trim(line), 16, usize::MAX as nat) {
        Some(n) => n,
        None => 0,
    }
}

/// The payload of a chunked body: each chunk is a header line, as many bytes as
/// it announces, and a line break. An incomplete chunk yields nothing.
pub open spec fn unchunked(body: Seq<char>) -> Seq<char>
    decreases body.len(),
{
    match text::split_once(body, "\r\n"@) {
        None => Seq::empty(),
        Some((line, tail)) => {
            proof {
                lemma_rest_shrinks(body);
            }
            let size = chunk_size(line) as int;
            if size == 0 {
                Seq::empty()
            } else {
                let payload = match first_bytes(tail, size) {
                    Some(p) => p,
                    None => Seq::empty(),
                };
                match after_bytes(tail, size + 2) {
                    Some(rest) => payload + unchunked(rest),
                    None => payload,
                }
            }
        },
    }
}

/// What follows a chunk is shorter than what it stood in.
pub proof fn lemma_rest_shrinks(body: Seq<char>)
    ensures
        text::split_once(body, "\r\n"@) matches Some((line, tail)) ==> tail.len() < body.len()
            && (after_bytes(tail, chunk_size(line) as int + 2) matches Some(rest) ==> rest.len()
            < body.len()),
{
    reveal_strlit("\r\n");
    text::lemma_first_from(body, "\r\n"@, 0);
    if let Some((line, tail)) = text::split_once(body, "\r\n"@) {
        lemma_chars_in(tail, chunk_size(line) as int + 2);
    }
}

proof fn lemma_chars_in(s: Seq<char>, n: int)
    ensures
        chars_in(s, n) matches Some(k) ==> 0 <= k <= s.len(),
    decreases s.len(),
{
    if n > 0 && s.len() > 0 {
        lemma_chars_in(s.skip(1), n - width(s[0]));
    }
}

/// What follows the blank line of a response, or nothing where there is none.
pub open spec fn raw_body(raw: Seq<char>) -> Seq<char> {
    match text::split_once(raw, "\r\n\r\n"@) {
        Some((_, body)) => body,
        None => Seq::empty(),
    }
}

/// What precedes the blank line of a response.
pub open spec fn head_of(raw: Seq<char>) -> Seq<char> {
    match text::split_once(raw, "\r\n\r\n"@) {
        Some((head, _)) => head,
        None => raw,
    }
}

/// Whether the headers of a response say that its body is chunked, in any letter
/// case. What the body says is no header.
pub open spec fn is_chunked(raw: Seq<char>) -> bool {
    text::contains(text::ascii_lower(head_of(raw)), "transfer-encoding: chunked"@)
}

/// The body of a response.
pub open spec fn body_of(raw: Seq<char>) -> Seq<char> {
    if is_chunked(raw) {
        unchunked(raw_body(raw))
    } else {
        raw_body(raw)
    }
}

fn count_chars(s: &[char], n: u128) -> (r: Option<usize>)
    ensures
        match r {
            Some(k) => chars_in(s@, n as int) == Some(k as int) && k <= s@.len(),
            None => chars_in(s@, n as int) is None,
        },
{
    let mut left: u128 = n;
    let mut i: usize = 0;
    assert(s@.skip(0) =~= s@);
    while i < s.len() && left > 0
        invariant
            i <= s.len(),
            chars_in(s@, n as int) == (match chars_in(s@.skip(i as int), left as int) {
                Some(k) => Some(k + i),
                None => None,
            }),
        decreases s.len() - i,
    {
        let w: u128 = width_of(s[i]) as u128;
        assert(s@.skip(i as int).skip(1) =~= s@.skip(i + 1));
        if w > left {
            assert(chars_in(s@.skip(i + 1), left - w) is None);
            return None;
        }
        left = left - w;
        i = i + 1;
    }
    if left == 0 {
        Some(i)
    } else {
        None
    }
}

fn push_chars(out: &mut String, cs: &[char])
    ensures
        final(out)@ == old(out)@ + cs@,
{
    let s = text::string_of(cs);
    out.append(s.as_str());
}

/// Decodes a response: splits off the headers, and joins the chunks where the
/// server sent the body in chunks.
///
/// A read that ended in the middle of a chunk leaves a header promising more
/// bytes than arrived; what arrived whole before it is still returned.
pub fn decode(raw: &str) -> (out: String)
    ensures
        out@ == body_of(raw@),
{
    let chars = text::chars_of(raw);
    let (head, body): (&[char], &[char]) = match text::cut_once(chars.as_slice(), "\r\n\r\n") {
        Some((h, b)) => (h, b),
        None => (chars.as_slice(), slice_subrange(chars.as_slice(), 0, 0)),
    };
    assert(body@ =~= raw_body(raw@));
    assert(head@ == head_of(raw@));
    let lower = text::lowered(head);
    if !text::has(lower.as_slice(), "transfer-encoding: chunked") {
        return text::string_of(body);
    }
    let mut out = String::new();
    let mut rest: &[char] = body;
    assert(out@ + unchunked(rest@) =~= unchunked(body@));
    loop
        invariant_except_break
            out@ + unchunked(rest@) == unchunked(body@),
        ensures
            out@ == unchunked(body@),
        decreases rest@.len(),
    {
        proof {
            lemma_rest_shrinks(rest@);
        }
        match text::cut_once(rest, "\r\n") {
            None => {
                assert(out@ + unchunked(rest@) =~= out@);
                break;
            },
            Some((line, tail)) => {
                let size: usize = match text::to_unsigned(text::trimmed(line), 16, usize::MAX as u64) {
                    Some(n) => n as usize,
                    None => 0,
                };
                assert(size == chunk_size(line@));
                if size == 0 {
                    assert(out@ + unchunked(rest@) =~= out@);
                    break;
                }
                let ghost before = out@;
                if let Some(k) = count_chars(tail, size as u128) {
                    push_chars(&mut out, slice_subrange(tail, 0, k));
                }
                match count_chars(tail, size as u128 + 2) {
                    Some(k) => {
                        let next = slice_subrange(tail, k, tail.len());
                        assert(out@ + unchunked(next@) =~= before + unchunked(rest@));
                        rest = next;
                    },
                    None => {
                        assert(out@ =~= before + unchunked(rest@));
                        break;
                    },
                }
            },
        }
    }
    out
}


proof fn lemma_line_ends_at(line: Seq<char>, rest: Seq<char>)
    requires
        !line.contains('\r'),
    ensures
        text::split_once(line + "\r\n"@ + rest, "\r\n"@) == Some((line, rest)),
{
    reveal_strlit("\r\n");
    let s = line + "\r\n"@ + rest;
    let n = line.len() as int;
    assert(s.subrange(n, n + 2) =~= "\r\n"@);
    assert(text::occurs(s, "\r\n"@, n));
    text::lemma_first_from(s, "\r\n"@, 0);
    let k = text::first(s, "\r\n"@)->0;
    if k < n {
        assert(s.subrange(k, k + 2)[0] == s[k]);
        assert(s[k] == line[k]);
        assert(line.contains('\r'));
    }
    assert(k == n);
    assert(s.take(n) =~= line);
    assert(s.skip(n + 2) =~= rest);
}

/// How many bytes UTF-8 takes for `s`.
pub open spec fn byte_len(s: Seq<char>) -> nat
    decreases s.len(),
{
    if s.len() == 0 {
        0
    } else {
        width(s[0]) + byte_len(s.skip(1))
    }
}

/// `byte_len` is the length of the UTF-8 encoding.
pub proof fn byte_len_is_the_encoded_length(s: Seq<char>)
    ensures
        byte_len(s) == vstd::utf8::encode_utf8(s).len(),
    decreases s.len(),
{
    if s.len() > 0 {
        byte_len_is_the_encoded_length(s.skip(1));
        assert(s.drop_first() =~= s.skip(1));
    }
}

proof fn lemma_width_positive(c: char)
    ensures
        width(c) >= 1,
{
}

proof fn lemma_chars_in_whole(s: Seq<char>, rest: Seq<char>)
    ensures
        chars_in(s + rest, byte_len(s) as int) == Some(s.len() as int),
    decreases s.len(),
{
    if s.len() > 0 {
        lemma_width_positive(s[0]);
        lemma_chars_in_whole(s.skip(1), rest);
        assert((s + rest).skip(1) =~= s.skip(1) + rest);
    }
}

proof fn lemma_chars_in_short(s: Seq<char>, n: int)
    requires
        n > byte_len(s),
    ensures
        chars_in(s, n) is None,
    decreases s.len(),
{
    if s.len() > 0 {
        lemma_chars_in_short(s.skip(1), n - width(s[0]));
    }
}

proof fn lemma_byte_len_add(a: Seq<char>, b: Seq<char>)
    ensures
        byte_len(a + b) == byte_len(a) + byte_len(b),
    decreases a.len(),
{
    if a.len() == 0 {
        assert(a + b =~= b);
    } else {
        lemma_byte_len_add(a.skip(1), b);
        assert((a + b).skip(1) =~= a.skip(1) + b);
    }
}

/// A chunk that arrived whole survives, whatever follows it.
pub proof fn a_complete_chunk_survives(line: Seq<char>, payload: Seq<char>, rest: Seq<char>)
    requires
        !line.contains('\r'),
        payload.len() > 0,
        chunk_size(line) == byte_len(payload),
    ensures
        unchunked(line + "\r\n"@ + payload + "\r\n"@ + rest) == payload + unchunked(rest),
{
    reveal_strlit("\r\n");
    let tail = payload + "\r\n"@ + rest;
    let whole = line + "\r\n"@ + payload + "\r\n"@ + rest;
    assert(whole =~= line + "\r\n"@ + tail);
    lemma_line_ends_at(line, tail);
    let size = chunk_size(line) as int;
    lemma_width_positive(payload[0]);
    assert(size > 0);
    assert(tail =~= payload + ("\r\n"@ + rest));
    lemma_chars_in_whole(payload, "\r\n"@ + rest);
    assert(tail.take(payload.len() as int) =~= payload);
    let step = payload + "\r\n"@;
    lemma_byte_len_add(payload, "\r\n"@);
    assert(byte_len("\r\n"@) == 2) by {
        reveal_with_fuel(byte_len, 3);
    }
    lemma_chars_in_whole(step, rest);
    assert(tail =~= step + rest);
    assert(tail.skip(step.len() as int) =~= rest);
}

/// A body that the headers do not call chunked is handed on as it is, whatever
/// it says.
pub proof fn a_plain_body_is_handed_on(raw: Seq<char>, head: Seq<char>, body: Seq<char>)
    requires
        text::split_once(raw, "\r\n\r\n"@) == Some((head, body)),
        !text::contains(text::ascii_lower(head), "transfer-encoding: chunked"@),
    ensures
        body_of(raw) == body,
{
}

/// A chunk whose payload was cut short yields nothing.
pub proof fn a_truncated_chunk_yields_nothing(line: Seq<char>, arrived: Seq<char>)
    requires
        !line.contains('\r'),
        chunk_size(line) > byte_len(arrived),
    ensures
        unchunked(line + "\r\n"@ + arrived) == Seq::<char>::empty(),
{
    lemma_line_ends_at(line, arrived);
    let size = chunk_size(line) as int;
    lemma_chars_in_short(arrived, size);
    lemma_chars_in_short(arrived, size + 2);
}

// ---------------------------------------------------------------------------
// Requests
// ---------------------------------------------------------------------------

/// The text of a GET request.
pub fn get(host: &str, path: &str) -> (s: String)
    ensures
        s@ == "GET "@ + path@ + " HTTP/1.1\r\nHost: "@ + host@ + "\r\nConnection: close\r\n\r\n"@,
{
    let mut s = "GET ".to_owned();
    s.append(path);
    s.append(" HTTP/1.1\r\nHost: ");
    s.append(host);
    s.append("\r\nConnection: close\r\n\r\n");
    s
}

/// The header line that names a content type, or nothing.
pub open spec fn type_line(content_type: Option<&str>) -> Seq<char> {
    match content_type {
        Some(c) => "Content-Type: "@ + c@ + "\r\n"@,
        None => Seq::empty(),
    }
}

/// The text of a POST request. The length it announces is the body's in bytes.
pub open spec fn post_text(
    host: Seq<char>,
    path: Seq<char>,
    content_type: Option<&str>,
    body: Seq<char>,
) -> Seq<char> {
    "POST "@ + path + " HTTP/1.1\r\nHost: "@ + host + "\r\nConnection: close\r\n"@ + type_line(
        content_type,
    ) + "Content-Length: "@ + text::decimal(byte_len(body)) + "\r\n\r\n"@ + body
}

/// The text of a POST request that names the type of its body.
///
/// A schema registry rejects a registration posted without its content type;
/// the database ignores the header.
pub fn post_typed(host: &str, path: &str, content_type: Option<&str>, body: &str) -> (s: String)
    ensures
        s@ == post_text(host@, path@, content_type, body@),
{
    let mut s = "POST ".to_owned();
    s.append(path);
    s.append(" HTTP/1.1\r\nHost: ");
    s.append(host);
    s.append("\r\nConnection: close\r\n");
    let ghost head = s@;
    match content_type {
        Some(c) => {
            s.append("Content-Type: ");
            s.append(c);
            s.append("\r\n");
        },
        None => {},
    }
    assert(s@ =~= head + type_line(content_type));
    s.append("Content-Length: ");
    proof {
        byte_len_is_the_encoded_length(body@);
    }
    text::push_decimal(&mut s, body.as_bytes().len() as u128);
    s.append("\r\n\r\n");
    s.append(body);
    s
}

/// The text of a POST request.
pub fn post(host: &str, path: &str, body: &str) -> (s: String)
    ensures
        s@ == post_text(host@, path@, None, body@),
{
    post_typed(host, path, None, body)
}

/// A posted request is addressed to its path and host, ends with its body behind a blank
/// line, and announces the body's length in bytes directly before that.
pub proof fn a_post_announces_what_it_carries(
    host: Seq<char>,
    path: Seq<char>,
    content_type: Option<&str>,
    body: Seq<char>,
)
    ensures
        text::starts_with(
            post_text(host, path, content_type, body),
            "POST "@ + path + " HTTP/1.1\r\nHost: "@ + host + "\r\n"@,
        ),
        text::ends_with(
            post_text(host, path, content_type, body),
            "\r\nContent-Length: "@ + text::decimal(byte_len(body)) + "\r\n\r\n"@ + body,
        ),
        content_type matches Some(c) ==> text::contains(
            post_text(host, path, content_type, body),
            "\r\nContent-Type: "@ + c@ + "\r\n"@,
        ),
{
    reveal_strlit("\r\n");
    reveal_strlit("\r\nConnection: close\r\n");
    reveal_strlit("\r\nContent-Length: ");
    reveal_strlit("Content-Length: ");
    reveal_strlit("\r\nContent-Type: ");
    reveal_strlit("Content-Type: ");
    let s = post_text(host, path, content_type, body);
    let first = "POST "@ + path + " HTTP/1.1\r\nHost: "@ + host;
    let close = "\r\nConnection: close\r\n"@;
    let close_head = close.take(close.len() - 2);
    let length = "Content-Length: "@ + text::decimal(byte_len(body)) + "\r\n\r\n"@ + body;
    let kind = type_line(content_type);
    assert(s =~= first + close + kind + length);
    let start = first + "\r\n"@;
    assert(s.take(start.len() as int) =~= start);
    let end = "\r\nContent-Length: "@ + text::decimal(byte_len(body)) + "\r\n\r\n"@ + body;
    assert("\r\nContent-Length: "@ =~= "\r\n"@ + "Content-Length: "@);
    assert("\r\nContent-Type: "@ =~= "\r\n"@ + "Content-Type: "@);
    assert(end =~= "\r\n"@ + length);
    assert(close =~= close_head + "\r\n"@);
    match content_type {
        Some(c) => {
            let inner = "Content-Type: "@ + c@;
            assert(s =~= (first + close + inner) + end);
            assert(s.skip(s.len() - end.len()) =~= end);
            let p = "\r\nContent-Type: "@ + c@ + "\r\n"@;
            assert(s =~= (first + close_head) + p + length);
            text::what_is_put_in_is_contained(first + close_head, p, length);
        },
        None => {
            assert(s =~= (first + close_head) + end);
            assert(s.skip(s.len() - end.len()) =~= end);
        },
    }
}

} // verus!
