//! What a web front end needs besides searching: checks on the parameters
//! of a request, a per-client request budget, and the conversion of the
//! formatter's backspace markup to HTML.

use crate::doc::{before_dot, dot_from, trim_chars, trimmed};
use crate::strmap::{lookup, upsert, StrMap};
use crate::unicode::{char_alphanumeric, chars_of, is_alphanumeric, string_of};
use vstd::prelude::*;
use vstd::slice::slice_subrange;
use vstd::utf8::encode_utf8;

verus! {

/// Length of the window of the request budget, in nanoseconds.
pub const RATE_LIMIT_WINDOW_NANOS: u64 = 10_000_000_000;

/// Requests that one client may make within one window.
pub const RATE_LIMIT_MAX_REQUESTS: u32 = 30;

/// Characters that a file name may consist of.
pub open spec fn fname_char(c: char) -> bool {
    char_alphanumeric(c) || c == '-' || c == '_' || c == '.'
}

/// Characters that a command name may consist of.
pub open spec fn cmd_char(c: char) -> bool {
    char_alphanumeric(c) || c == '-' || c == '_'
}

/// A file name is accepted when it has between 1 and 64 bytes and only
/// letters, digits, hyphens, underscores and dots.
pub open spec fn fname_ok(s: Seq<char>) -> bool {
    &&& 0 < s.len()
    &&& encode_utf8(s).len() <= 64
    &&& forall|i: int| 0 <= i < s.len() ==> fname_char(#[trigger] s[i])
}

/// A command name is accepted when it has between 1 and 64 bytes and only
/// letters, digits, hyphens and underscores.
pub open spec fn cmd_ok(s: Seq<char>) -> bool {
    &&& 0 < s.len()
    &&& encode_utf8(s).len() <= 64
    &&& forall|i: int| 0 <= i < s.len() ==> cmd_char(#[trigger] s[i])
}

/// Whether every character is a letter, a digit, a hyphen or an
/// underscore, or a dot where dots are allowed.
fn only_name_chars(s: &[char], dots: bool) -> (r: bool)
    ensures
        r == forall|i: int|
            0 <= i < s@.len() ==> cmd_char(#[trigger] s@[i]) || (dots && s@[i] == '.'),
{
    let mut i: usize = 0;
    while i < s.len()
        invariant
            i <= s@.len(),
            forall|j: int| 0 <= j < i ==> cmd_char(#[trigger] s@[j]) || (dots && s@[j] == '.'),
        decreases s@.len() - i,
    {
        let c = s[i];
        if !(is_alphanumeric(c) || c == '-' || c == '_' || (dots && c == '.')) {
            return false;
        }
        i += 1;
    }
    true
}

/// Accepts only letters, digits, hyphens, underscores and dots. Gives none
/// where the name is empty, longer than 64 bytes, or holds anything else.
pub fn sanitize_fname(fname: &str) -> (r: Option<&str>)
    ensures
        match r {
            Some(s) => fname_ok(fname@) && s@ == fname@,
            None => !fname_ok(fname@),
        },
{
    if fname.is_empty() || fname.as_bytes().len() > 64 {
        return None;
    }
    let chars = chars_of(fname);
    if only_name_chars(chars.as_slice(), true) {
        Some(fname)
    } else {
        None
    }
}

/// Takes what stands before the first dot and accepts it as a command name
/// where it has between 1 and 64 bytes and only letters, digits, hyphens
/// and underscores.
pub fn sanitize_cmd(fname: &str) -> (r: Option<String>)
    ensures
        match r {
            Some(s) => cmd_ok(before_dot(fname@)) && s@ == before_dot(fname@),
            None => !cmd_ok(before_dot(fname@)),
        },
{
    let chars = chars_of(fname);
    let mut end: usize = 0;
    while end < chars.len() && chars[end] != '.'
        invariant
            end <= chars@.len(),
            dot_from(chars@, 0) == dot_from(chars@, end as int),
        decreases chars@.len() - end,
    {
        end += 1;
    }
    let base = slice_subrange(chars.as_slice(), 0, end);
    let s = string_of(base);
    if s.as_str().is_empty() || s.as_str().as_bytes().len() > 64 {
        return None;
    }
    if only_name_chars(base, false) {
        Some(s)
    } else {
        None
    }
}

/// A query is accepted, trimmed, when it then has between 1 and 256 bytes.
pub open spec fn query_ok(q: Seq<char>) -> bool {
    0 < trimmed(q).len() && encode_utf8(trimmed(q)).len() <= 256
}

/// Trims a query and refuses it where nothing is left or more than 256
/// bytes are.
pub fn sanitize_query(q: &str) -> (r: Option<String>)
    ensures
        match r {
            Some(s) => query_ok(q@) && s@ == trimmed(q@),
            None => !query_ok(q@),
        },
{
    let chars = chars_of(q);
    let s = string_of(trim_chars(chars.as_slice()));
    if s.as_str().is_empty() || s.as_str().as_bytes().len() > 256 {
        return None;
    }
    Some(s)
}

/// A character as HTML text.
pub open spec fn escaped(c: char) -> Seq<char> {
    if c == '<' {
        seq!['&', 'l', 't', ';']
    } else if c == '>' {
        seq!['&', 'g', 't', ';']
    } else if c == '&' {
        seq!['&', 'a', 'm', 'p', ';']
    } else {
        seq![c]
    }
}

/// Appends a character as HTML text.
pub fn escape_html(c: char, buf: &mut Vec<char>)
    ensures
        final(buf)@ == old(buf)@ + escaped(c),
{
    if c == '<' {
        buf.push('&');
        buf.push('l');
        buf.push('t');
        buf.push(';');
    } else if c == '>' {
        buf.push('&');
        buf.push('g');
        buf.push('t');
        buf.push(';');
    } else if c == '&' {
        buf.push('&');
        buf.push('a');
        buf.push('m');
        buf.push('p');
        buf.push(';');
    } else {
        buf.push(c);
    }
    assert(buf@ =~= old(buf)@ + escaped(c));
}

/// A character inside a tag: `<u>` for underlined, `<b>` for bold.
pub open spec fn tagged(underline: bool, c: char) -> Seq<char> {
    if underline {
        seq!['<', 'u', '>'] + escaped(c) + seq!['<', '/', 'u', '>']
    } else {
        seq!['<', 'b', '>'] + escaped(c) + seq!['<', '/', 'b', '>']
    }
}

/// The HTML for the text from position `i` on. A character, a backspace
/// and a second character stand for the second character, underlined where
/// the first is an underscore and bold otherwise.
pub open spec fn formatted_from(s: Seq<char>, i: int) -> Seq<char>
    decreases s.len() - i,
{
    if i < 0 || i >= s.len() {
        Seq::empty()
    } else if i + 2 < s.len() && s[i + 1] == '\u{8}' {
        tagged(s[i] == '_', s[i + 2]) + formatted_from(s, i + 3)
    } else {
        escaped(s[i]) + formatted_from(s, i + 1)
    }
}

/// Converts the formatter's backspace markup to `<b>` and `<u>` tags and
/// escapes the rest for HTML.
pub fn parse_man_formatting(raw: &str) -> (html: String)
    ensures
        html@ == formatted_from(raw@, 0),
{
    let chars = chars_of(raw);
    let n = chars.len();
    let mut out: Vec<char> = Vec::new();
    let mut i: usize = 0;
    assert(out@ + formatted_from(chars@, 0) =~= formatted_from(chars@, 0));
    while i < n
        invariant
            i <= n,
            n == chars@.len(),
            out@ + formatted_from(chars@, i as int) == formatted_from(chars@, 0),
        decreases n - i,
    {
        let ghost before = out@;
        if n - i > 2 && chars[i + 1] == '\u{8}' {
            let first = chars[i];
            let second = chars[i + 2];
            if first == '_' {
                out.push('<');
                out.push('u');
                out.push('>');
                escape_html(second, &mut out);
                out.push('<');
                out.push('/');
                out.push('u');
                out.push('>');
            } else {
                out.push('<');
                out.push('b');
                out.push('>');
                escape_html(second, &mut out);
                out.push('<');
                out.push('/');
                out.push('b');
                out.push('>');
            }
            assert(out@ =~= before + tagged(first == '_', second));
            assert(out@ + formatted_from(chars@, i + 3) =~= before + formatted_from(
                chars@,
                i as int,
            ));
            i += 3;
        } else {
            escape_html(chars[i], &mut out);
            assert(out@ + formatted_from(chars@, i + 1) =~= before + formatted_from(
                chars@,
                i as int,
            ));
            i += 1;
        }
    }
    assert(out@ + formatted_from(chars@, n as int) =~= out@);
    string_of(out.as_slice())
}

/// The budget of one client after a request at `now`, and whether the
/// request is allowed. A window that has run out starts anew with this
/// request; within a window the thirty-first request is refused.
pub open spec fn bucket_after(bucket: (u32, u64), now: u64) -> ((u32, u64), bool) {
    let elapsed = if now >= bucket.1 {
        now - bucket.1
    } else {
        0
    };
    if elapsed >= RATE_LIMIT_WINDOW_NANOS {
        ((1u32, now), true)
    } else if bucket.0 < RATE_LIMIT_MAX_REQUESTS {
        (((bucket.0 + 1) as u32, bucket.1), true)
    } else {
        (bucket, false)
    }
}

/// The budget that a client has, or a fresh one that starts at `now`.
pub open spec fn bucket_of(buckets: Seq<(Seq<char>, (u32, u64))>, ip: Seq<char>, now: u64) -> (
    u32,
    u64,
) {
    match lookup(buckets, ip) {
        Some(b) => b,
        None => (0u32, now),
    }
}

/// A request budget for each client: the number of requests in the current
/// window and the time, in nanoseconds, at which the window began.
pub struct RateLimiter {
    pub buckets: StrMap<(u32, u64)>,
}

impl RateLimiter {
    /// A limiter that has seen no client.
    pub fn new() -> (limiter: Self)
        ensures
            limiter.buckets@ == Seq::<(Seq<char>, (u32, u64))>::empty(),
    {
        RateLimiter { buckets: StrMap::new() }
    }

    /// Counts a request of `ip` at the time `now` and says whether it is
    /// allowed.
    pub fn check(&mut self, ip: &str, now: u64) -> (allowed: bool)
        ensures
            allowed == bucket_after(bucket_of(old(self).buckets@, ip@, now), now).1,
            final(self).buckets@ == upsert(
                old(self).buckets@,
                ip@,
                bucket_after(bucket_of(old(self).buckets@, ip@, now), now).0,
            ),
    {
        let bucket = match self.buckets.get(ip) {
            Some(b) => *b,
            None => (0u32, now),
        };
        let elapsed = if now >= bucket.1 {
            now - bucket.1
        } else {
            0
        };
        if elapsed >= RATE_LIMIT_WINDOW_NANOS {
            self.buckets.insert(ip.to_owned(), (1, now));
            return true;
        }
        if bucket.0 < RATE_LIMIT_MAX_REQUESTS {
            self.buckets.insert(ip.to_owned(), (bucket.0 + 1, bucket.1));
            return true;
        }
        self.buckets.insert(ip.to_owned(), bucket);
        false
    }
}

} // verus!
